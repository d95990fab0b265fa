use vstd::prelude::*;
use crate::grid::{
    in_grid, is_mouse_out, mouse_out, product_fits, target, target_of, valid_dir,
};
use crate::text::push_char;

verus! {

/// What a cell of the board holds.
#[derive(Clone, Copy, Eq, PartialEq, Debug, Structural)]
pub enum CellProp {
    Free,
    Wall,
    Mouse,
}

/// One cell of the board.
#[allow(non_camel_case_types)]
#[derive(Clone, Copy)]
pub struct cell {
    Prop: CellProp,
}

/// The board of the console game: a 15 x 15 matrix of cells, of which rows and
/// columns 1 to 11 are played on, and the mouse's position.
pub struct Board {
    pub dimcol: i32,
    pub dimlin: i32,
    pub matrix: [[cell; 15]; 15],
    pub mouse_pos: (i32, i32),
}

impl Board {
    /// What the cell in row `i`, column `j` holds.
    pub closed spec fn prop(self, i: int, j: int) -> CellProp {
        self.matrix[i][j].Prop
    }

    /// The mouse stands in the matrix, on the one cell marked `Mouse`.
    pub open spec fn wf(self) -> bool {
        &&& in_grid((self.mouse_pos.0 as int, self.mouse_pos.1 as int))
        &&& self.prop(self.mouse_pos.0 as int, self.mouse_pos.1 as int) == CellProp::Mouse
        &&& forall|i: int, j: int|
            in_grid((i, j)) && (i, j) != (self.mouse_pos.0 as int, self.mouse_pos.1 as int)
                ==> #[trigger] self.prop(i, j) != CellProp::Mouse
    }

    /// `b` holds what `self` holds in every cell but `p` and `q`.
    pub open spec fn same_cells_except(self, b: Board, p: (int, int), q: (int, int)) -> bool {
        forall|i: int, j: int|
            in_grid((i, j)) && (i, j) != p && (i, j) != q ==> #[trigger] b.prop(i, j) == self.prop(
                i,
                j,
            )
    }

    /// Every wall of `self` is a wall of `b`.
    pub open spec fn walls_kept(self, b: Board) -> bool {
        forall|i: int, j: int|
            in_grid((i, j)) && self.prop(i, j) == CellProp::Wall ==> #[trigger] b.prop(i, j)
                == CellProp::Wall
    }

    /// The square the mouse would step to in direction `dir`.
    pub open spec fn step(self, dir: int) -> (int, int) {
        target(self.mouse_pos, dir)
    }

    /// `move_mouse(dir)` runs without a fault: the direction is one of the
    /// table's, the square stepped to lies in the matrix, and where that square
    /// is free the mouse's own square does too.
    pub open spec fn move_ok(self, dir: int) -> bool {
        &&& valid_dir(dir)
        &&& in_grid(self.step(dir))
        &&& (self.prop(self.step(dir).0, self.step(dir).1) == CellProp::Free ==> in_grid(
            (self.mouse_pos.0 as int, self.mouse_pos.1 as int),
        ))
    }

    /// `next` is what `make_wall(pos)` makes of `self`, having answered `r`: a
    /// wall goes on `pos` exactly where that cell is free; nothing else
    /// changes.
    pub open spec fn wall_placed(self, next: Board, pos: (i32, i32), r: bool) -> bool {
        let p = (pos.0 as int, pos.1 as int);
        &&& r == (self.prop(p.0, p.1) == CellProp::Free)
        &&& !r ==> next == self
        &&& r ==> next.prop(p.0, p.1) == CellProp::Wall
        &&& self.same_cells_except(next, p, p)
        &&& next.mouse_pos == self.mouse_pos
        &&& next.dimcol == self.dimcol
        &&& next.dimlin == self.dimlin
    }

    /// `next` is what `move_mouse(dir)` makes of `self`, having answered `r`:
    /// the mouse steps to the cell in direction `dir` exactly where that cell
    /// is free, leaving its old cell free; nothing else changes.
    pub open spec fn mouse_moved(self, next: Board, dir: int, r: bool) -> bool {
        let t = self.step(dir);
        let m = (self.mouse_pos.0 as int, self.mouse_pos.1 as int);
        &&& r == (self.prop(t.0, t.1) == CellProp::Free)
        &&& !r ==> next == self
        &&& r ==> {
            &&& next.mouse_pos == (t.0 as i32, t.1 as i32)
            &&& next.prop(t.0, t.1) == CellProp::Mouse
            &&& m != t ==> next.prop(m.0, m.1) == CellProp::Free
            &&& self.same_cells_except(next, m, t)
        }
        &&& next.dimcol == self.dimcol
        &&& next.dimlin == self.dimlin
    }

    /// An empty board with the mouse in the middle, on row 6, column 6.
    pub fn new() -> (b: Self)
        ensures
            b.dimcol == 11,
            b.dimlin == 11,
            b.mouse_pos == (6i32, 6i32),
            forall|i: int, j: int|
                in_grid((i, j)) ==> #[trigger] b.prop(i, j) == (if i == 6 && j == 6 {
                    CellProp::Mouse
                } else {
                    CellProp::Free
                }),
            b.wf(),
    {
        let freecell: cell = cell { Prop: CellProp::Free };
        let mut mat: [[cell; 15]; 15] = [[freecell; 15]; 15];
        let mut row = mat[6];
        row[6] = cell { Prop: CellProp::Mouse };
        mat[6] = row;
        Board { dimcol: 11, dimlin: 11, matrix: mat, mouse_pos: (6, 6) }
    }

    fn get_prop(&self, i: usize, j: usize) -> (p: CellProp)
        requires
            i < 15,
            j < 15,
        ensures
            p == self.prop(i as int, j as int),
    {
        self.matrix[i][j].Prop
    }

    fn set_prop(&mut self, i: usize, j: usize, p: CellProp)
        requires
            i < 15,
            j < 15,
        ensures
            final(self).prop(i as int, j as int) == p,
            old(self).same_cells_except(*final(self), (i as int, j as int), (i as int, j as int)),
            final(self).mouse_pos == old(self).mouse_pos,
            final(self).dimcol == old(self).dimcol,
            final(self).dimlin == old(self).dimlin,
    {
        let mut row = self.matrix[i];
        row[j] = cell { Prop: p };
        self.matrix[i] = row;
    }

    /// `state` runs without a fault: the product of the mouse's coordinates
    /// fits in an `i32`.
    pub fn can_report_state(&self) -> (r: bool)
        ensures
            r == product_fits(self.mouse_pos),
    {
        let a = self.mouse_pos.0 as i64;
        let b = self.mouse_pos.1 as i64;
        assert(-0x4000_0000_0000_0000 <= a * b <= 0x4000_0000_0000_0000) by (nonlinear_arith)
            requires
                -0x8000_0000 <= a <= 0x8000_0000,
                -0x8000_0000 <= b <= 0x8000_0000,
        ;
        let p = a * b;
        i32::MIN as i64 <= p && p <= i32::MAX as i64
    }

    /// The cell in direction `dir` lies in the matrix and is free.
    pub open spec fn free_step(self, dir: int) -> bool {
        in_grid(self.step(dir)) && self.prop(self.step(dir).0, self.step(dir).1) == CellProp::Free
    }

    /// The mouse is closed in: none of its six directions 1 to 6 leads to a
    /// free cell.
    pub open spec fn trapped(self) -> bool {
        forall|d: int| 1 <= d <= 6 ==> !#[trigger] self.free_step(d)
    }

    /// The mouse is closed in exactly when each of the cells in its six
    /// directions lies outside the matrix or is not free; one free neighbour
    /// in any direction 1 to 6 keeps it in the game.
    pub proof fn lemma_trapped_cases(self, d: int)
        requires
            1 <= d <= 6,
        ensures
            self.trapped() ==> !(in_grid(self.step(d)) && self.prop(self.step(d).0, self.step(d).1)
                == CellProp::Free),
            (in_grid(self.step(d)) && self.prop(self.step(d).0, self.step(d).1) == CellProp::Free)
                ==> !self.trapped(),
    {
        assert(self.free_step(d) == (in_grid(self.step(d)) && self.prop(self.step(d).0, self.step(d).1)
            == CellProp::Free));
    }

    /// Who has won: `turn` once the mouse has reached the border (a coordinate
    /// is 0 or beyond 11); else 1, the walls' player, once the mouse is closed
    /// in; else 0.
    pub fn state(&self, turn: i32) -> (r: i32)
        requires
            product_fits(self.mouse_pos),
        ensures
            r == (if mouse_out(self.mouse_pos) {
                turn
            } else if self.trapped() {
                1
            } else {
                0
            }),
    {
        let sor = self.mouse_pos;
        if is_mouse_out(sor) {
            return turn;
        }
        let mut d: i32 = 1;
        while d < 7
            invariant
                1 <= d <= 7,
                sor == self.mouse_pos,
                !mouse_out(self.mouse_pos),
                forall|k: int| 1 <= k < d ==> !#[trigger] self.free_step(k),
            decreases 7 - d,
        {
            let t = target_of(sor, d);
            if 0 <= t.0 && t.0 < 15 && 0 <= t.1 && t.1 < 15 {
                if self.get_prop(t.0 as usize, t.1 as usize) == CellProp::Free {
                    assert(self.free_step(d as int));
                    return 0;
                }
            }
            d = d + 1;
        }
        1
    }

    /// `make_wall(pos)` runs without a fault: `pos` lies in the matrix.
    pub fn can_make_wall(&self, pos: (i32, i32)) -> (r: bool)
        ensures
            r == in_grid((pos.0 as int, pos.1 as int)),
    {
        0 <= pos.0 && pos.0 < 15 && 0 <= pos.1 && pos.1 < 15
    }

    /// Puts a wall on the free cell `pos`; says whether it did.
    pub fn make_wall(&mut self, pos: (i32, i32)) -> (r: bool)
        requires
            in_grid((pos.0 as int, pos.1 as int)),
        ensures
            old(self).wall_placed(*final(self), pos, r),
            old(self).wf() ==> final(self).wf(),
            old(self).walls_kept(*final(self)),
    {
        let i = pos.0 as usize;
        let j = pos.1 as usize;
        if self.get_prop(i, j) == CellProp::Free {
            self.set_prop(i, j, CellProp::Wall);
            return true;
        }
        false
    }

    /// `move_mouse(dir)` runs without a fault.
    pub fn can_move_mouse(&self, dir: i32) -> (r: bool)
        ensures
            r == self.move_ok(dir as int),
    {
        if dir < 0 || dir >= 7 {
            return false;
        }
        let t = target_of(self.mouse_pos, dir);
        if t.0 < 0 || t.0 >= 15 || t.1 < 0 || t.1 >= 15 {
            return false;
        }
        if self.get_prop(t.0 as usize, t.1 as usize) == CellProp::Free {
            let m = self.mouse_pos;
            return 0 <= m.0 && m.0 < 15 && 0 <= m.1 && m.1 < 15;
        }
        true
    }

    /// Moves the mouse one step in direction `dir` where the cell there is
    /// free; says whether it moved.
    pub fn move_mouse(&mut self, dir: i32) -> (r: bool)
        requires
            old(self).move_ok(dir as int),
        ensures
            old(self).mouse_moved(*final(self), dir as int, r),
            old(self).wf() ==> final(self).wf(),
            old(self).wf() ==> old(self).walls_kept(*final(self)),
    {
        let sor = self.mouse_pos;
        let t = target_of(sor, dir);
        let newsor: (i32, i32) = (t.0 as i32, t.1 as i32);
        if self.get_prop(newsor.0 as usize, newsor.1 as usize) == CellProp::Free {
            let ghost b0 = *self;
            let ghost m = (sor.0 as int, sor.1 as int);
            let ghost tt = (t.0 as int, t.1 as int);
            self.set_prop(sor.0 as usize, sor.1 as usize, CellProp::Free);
            let ghost b1 = *self;
            self.set_prop(newsor.0 as usize, newsor.1 as usize, CellProp::Mouse);
            let ghost b2 = *self;
            self.mouse_pos = newsor;
            assert forall|i: int, j: int| #[trigger] self.prop(i, j) == b2.prop(i, j) by {}
            assert forall|i: int, j: int|
                in_grid((i, j)) && (i, j) != m && (i, j) != tt implies #[trigger] self.prop(i, j)
                == b0.prop(i, j) by {
                assert(b2.prop(i, j) == b1.prop(i, j));
                assert(b1.prop(i, j) == b0.prop(i, j));
            }
            assert(m != tt ==> b2.prop(m.0, m.1) == b1.prop(m.0, m.1));
            proof {
                if b0.wf() {
                    assert forall|i: int, j: int|
                        in_grid((i, j)) && (i, j) != tt implies #[trigger] self.prop(i, j)
                        != CellProp::Mouse by {
                        if (i, j) == m {
                            assert(self.prop(i, j) == CellProp::Free);
                        } else {
                            assert(self.prop(i, j) == b0.prop(i, j));
                        }
                    }
                    assert forall|i: int, j: int|
                        in_grid((i, j)) && b0.prop(i, j) == CellProp::Wall implies
                        #[trigger] self.prop(i, j) == CellProp::Wall by {
                        if (i, j) != m && (i, j) != tt {
                            assert(self.prop(i, j) == b0.prop(i, j));
                        }
                    }
                }
            }
            return true;
        }
        false
    }

    /// The character that shows a cell in the debug picture.
    pub open spec fn symbol(p: CellProp) -> char {
        match p {
            CellProp::Free => '_',
            CellProp::Wall => 'W',
            CellProp::Mouse => 'M',
        }
    }

    /// Columns 1 to `n` of row `i`, each cell's symbol followed by a space.
    pub open spec fn row_cells_text(self, i: int, n: nat) -> Seq<char>
        decreases n,
    {
        if n == 0 {
            Seq::empty()
        } else {
            self.row_cells_text(i, (n - 1) as nat) + seq![Self::symbol(self.prop(i, n as int)), ' ']
        }
    }

    /// Row `i` of the debug picture: even rows are shifted by one space.
    pub open spec fn row_text(self, i: int) -> Seq<char> {
        (if i % 2 == 0 {
            seq![' ']
        } else {
            Seq::empty()
        }) + self.row_cells_text(i, 11) + seq!['\n']
    }

    /// Rows 1 to `n` of the debug picture.
    pub open spec fn rows_text(self, n: nat) -> Seq<char>
        decreases n,
    {
        if n == 0 {
            Seq::empty()
        } else {
            self.rows_text((n - 1) as nat) + self.row_text(n as int)
        }
    }

    /// The debug picture of the playing field: a rule of 25 underscores and an
    /// empty line, rows 1 to 11, then an empty line and the rule again.
    pub open spec fn debug_text(self) -> Seq<char> {
        let rule = Seq::new(25, |k: int| '_');
        rule + seq!['\n', '\n'] + self.rows_text(11) + seq!['\n'] + rule + seq!['\n']
    }

    fn push_rule(s: &mut String)
        ensures
            final(s)@ == old(s)@ + Seq::new(25, |k: int| '_'),
    {
        let mut k: usize = 0;
        while k < 25
            invariant
                k <= 25,
                s@ == old(s)@ + Seq::new(k as nat, |m: int| '_'),
            decreases 25 - k,
        {
            push_char(s, '_');
            k = k + 1;
            assert(s@ =~= old(s)@ + Seq::new(k as nat, |m: int| '_'));
        }
    }

    /// The picture of the board that the console game prints before each turn.
    pub fn debug_text_string(&self) -> (s: String)
        ensures
            s@ == self.debug_text(),
    {
        let mut s = String::new();
        Self::push_rule(&mut s);
        push_char(&mut s, '\n');
        push_char(&mut s, '\n');
        let ghost head = s@;
        let mut i: usize = 1;
        while i < 12
            invariant
                1 <= i <= 12,
                s@ == head + self.rows_text((i - 1) as nat),
            decreases 12 - i,
        {
            let ghost before = s@;
            if i % 2 == 0 {
                push_char(&mut s, ' ');
            }
            let ghost lead = s@;
            let mut j: usize = 1;
            while j < 12
                invariant
                    1 <= j <= 12,
                    1 <= i < 12,
                    s@ == lead + self.row_cells_text(i as int, (j - 1) as nat),
                decreases 12 - j,
            {
                let c = match self.get_prop(i, j) {
                    CellProp::Free => '_',
                    CellProp::Wall => 'W',
                    CellProp::Mouse => 'M',
                };
                push_char(&mut s, c);
                push_char(&mut s, ' ');
                assert(s@ =~= lead + self.row_cells_text(i as int, j as nat));
                j = j + 1;
            }
            push_char(&mut s, '\n');
            assert(s@ =~= head + self.rows_text(i as nat));
            i = i + 1;
        }
        push_char(&mut s, '\n');
        Self::push_rule(&mut s);
        push_char(&mut s, '\n');
        assert(s@ =~= self.debug_text());
        s
    }

    /// On a well-formed board, `state` runs without a fault.
    pub proof fn lemma_wf_calls_ok(self)
        requires
            self.wf(),
        ensures
            product_fits(self.mouse_pos),
    {
        let p = self.mouse_pos;
        assert(0 <= p.0 * p.1 <= 14 * 14) by (nonlinear_arith)
            requires
                0 <= p.0 < 15,
                0 <= p.1 < 15,
        ;
    }
}

} // verus!

verus! {

/// The player whose turn follows that of `turn` (1 and 2 take turns).
pub fn other_player(turn: i32) -> (r: i32)
    requires
        3 - turn <= i32::MAX,
    ensures
        r == 3 - turn,
{
    3 - turn
}

} // verus!
