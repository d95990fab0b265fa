use vstd::prelude::*;
use crate::grid::{
    col_step, fits_i32, in_field, in_grid, is_mouse_out, mouse_out, product_fits, row_step,
    target, target_of, valid_dir,
};
use crate::prereq::{
    digits_numeric, lemma_str_to_int_reads_decimal, numeric_bytes_ok, numeric_value, str_to_int,
    str_to_int_spec, try_str_to_int,
};
use crate::text::{
    brace_sep, chars_of, decimal, decimal_nat, fields, lemma_decimal_chars, lemma_split_append,
    lemma_split_closed, lemma_split_sep, push_char, push_decimal, split_fields, split_state,
    string_of,
};

verus! {

/// What a cell of the server's board holds.
#[derive(Clone, Copy, Eq, PartialEq, Debug, Structural)]
pub enum Cellprop {
    Free,
    Wall,
    Mouse,
}

/// One cell of the server's board.
#[derive(Clone, Copy)]
pub struct Cell {
    prop: Cellprop,
}

/// The board that the server plays on and sends to its clients: a 15 x 15
/// matrix of cells, of which rows and columns 1 to 11 are the playing field,
/// and the mouse's position.
#[derive(Clone, Copy)]
pub struct Board {
    pub dimcol: i32,
    pub dimlin: i32,
    pub matrix: [[Cell; 15]; 15],
    pub mouse_pos: (i32, i32),
}

/// Two boards that agree on their sizes, on the mouse's position and on every
/// cell are the same board.
pub proof fn lemma_board_ext(a: Board, b: Board)
    requires
        a.dimcol == b.dimcol,
        a.dimlin == b.dimlin,
        a.mouse_pos == b.mouse_pos,
        forall|i: int, j: int| in_grid((i, j)) ==> #[trigger] a.prop(i, j) == b.prop(i, j),
    ensures
        a == b,
{
    broadcast use vstd::array::axiom_array_ext_equal;

    assert forall|i: int| 0 <= i < 15 implies a.matrix[i] == b.matrix[i] by {
        assert forall|j: int| 0 <= j < 15 implies a.matrix[i][j] == b.matrix[i][j] by {
            assert(a.prop(i, j) == b.prop(i, j));
        }
        assert(a.matrix[i] =~= b.matrix[i]);
    }
    assert(a.matrix =~= b.matrix);
}

/// `make_wall` has one outcome: two boards that both follow from `b` by a
/// wall at `pos` are the same.
pub proof fn lemma_wall_placed_unique(b: Board, n1: Board, n2: Board, pos: (i32, i32), r1: bool, r2: bool)
    requires
        b.wall_placed(n1, pos, r1),
        b.wall_placed(n2, pos, r2),
    ensures
        r1 == r2,
        n1 == n2,
{
    if r1 {
        assert forall|i: int, j: int| in_grid((i, j)) implies #[trigger] n1.prop(i, j) == n2.prop(
            i,
            j,
        ) by {
            if (i, j) != (pos.0 as int, pos.1 as int) {
                assert(n1.prop(i, j) == b.prop(i, j));
                assert(n2.prop(i, j) == b.prop(i, j));
            }
        }
        lemma_board_ext(n1, n2);
    }
}

/// `move_mouse` has one outcome: two boards that both follow from `b` by a
/// step in direction `dir` are the same.
pub proof fn lemma_mouse_moved_unique(b: Board, n1: Board, n2: Board, dir: int, r1: bool, r2: bool)
    requires
        b.mouse_moved(n1, dir, r1),
        b.mouse_moved(n2, dir, r2),
    ensures
        r1 == r2,
        n1 == n2,
{
    if r1 {
        let t = b.step(dir);
        let m = (b.mouse_pos.0 as int, b.mouse_pos.1 as int);
        assert forall|i: int, j: int| in_grid((i, j)) implies #[trigger] n1.prop(i, j) == n2.prop(
            i,
            j,
        ) by {
            if (i, j) != m && (i, j) != t {
                assert(n1.prop(i, j) == b.prop(i, j));
                assert(n2.prop(i, j) == b.prop(i, j));
            }
        }
        lemma_board_ext(n1, n2);
    }
}

/// Every step length in the direction table is at most one.
proof fn lemma_steps_small(row: int, dir: int)
    requires
        valid_dir(dir),
    ensures
        -1 <= row_step(dir) <= 1,
        -1 <= col_step(row, dir) <= 1,
{
    if dir == 0 {
    } else if dir == 1 {
    } else if dir == 2 {
    } else if dir == 3 {
    } else if dir == 4 {
    } else if dir == 5 {
    } else {
    }
}

impl Board {
    /// What the cell in row `i`, column `j` holds.
    pub closed spec fn prop(self, i: int, j: int) -> Cellprop {
        self.matrix[i][j].prop
    }

    /// The mouse stands in the matrix, on the one cell marked `Mouse`.
    pub open spec fn wf(self) -> bool {
        &&& in_grid((self.mouse_pos.0 as int, self.mouse_pos.1 as int))
        &&& self.prop(self.mouse_pos.0 as int, self.mouse_pos.1 as int) == Cellprop::Mouse
        &&& forall|i: int, j: int|
            in_grid((i, j)) && (i, j) != (self.mouse_pos.0 as int, self.mouse_pos.1 as int)
                ==> #[trigger] self.prop(i, j) != Cellprop::Mouse
    }

    /// A board of a game in progress, as every board reached from `new` by
    /// walls and moves is: well formed, with the mouse in the field.
    pub open spec fn playable(self) -> bool {
        self.wf() && in_field((self.mouse_pos.0 as int, self.mouse_pos.1 as int))
    }

    /// `b` holds what `self` holds in every cell but `p` and `q`.
    pub open spec fn same_cells_except(self, b: Board, p: (int, int), q: (int, int)) -> bool {
        forall|i: int, j: int|
            in_grid((i, j)) && (i, j) != p && (i, j) != q ==> #[trigger] b.prop(i, j) == self.prop(
                i,
                j,
            )
    }

    /// Every wall of `self` is a wall of `b`.
    pub open spec fn walls_kept(self, b: Board) -> bool {
        forall|i: int, j: int|
            in_grid((i, j)) && self.prop(i, j) == Cellprop::Wall ==> #[trigger] b.prop(i, j)
                == Cellprop::Wall
    }

    /// The square the mouse would step to in direction `dir`.
    pub open spec fn step(self, dir: int) -> (int, int) {
        target(self.mouse_pos, dir)
    }

    /// The square in direction `dir` is free.
    pub open spec fn step_free(self, dir: int) -> bool {
        self.prop(self.step(dir).0, self.step(dir).1) == Cellprop::Free
    }

    /// `move_mouse(dir)` runs without a fault: the direction is one of the
    /// table's, the step does not overflow, and where it lands on a free square
    /// of the field, the mouse's own square lies in the matrix.
    pub open spec fn move_ok(self, dir: int) -> bool {
        &&& valid_dir(dir)
        &&& fits_i32(self.step(dir))
        &&& (in_field(self.step(dir)) && self.step_free(dir) ==> in_grid(
            (self.mouse_pos.0 as int, self.mouse_pos.1 as int),
        ))
    }

    /// `move_mouse(dir)` moves the mouse: the square stepped to lies in the
    /// field and is free.
    pub open spec fn move_succeeds(self, dir: int) -> bool {
        in_field(self.step(dir)) && self.step_free(dir)
    }

    /// `gameboard_state` runs without a fault: the product of the mouse's
    /// coordinates fits in an `i32`, and unless the mouse is out, both of its
    /// coordinates are positive.
    pub open spec fn state_ok(self) -> bool {
        &&& product_fits(self.mouse_pos)
        &&& (mouse_out(self.mouse_pos) || (self.mouse_pos.0 > 0 && self.mouse_pos.1 > 0))
    }

    /// Some step in one of the six directions 1 to 6 leads to a free square.
    pub open spec fn has_free_step(self) -> bool {
        exists|d: int| 1 <= d <= 6 && #[trigger] self.step_free(d)
    }

    /// The state of the game: 'M' once the mouse is out, '0' while it can still
    /// step in one of the directions 1 to 6, 'W' once it cannot (the walls have
    /// won).
    pub open spec fn state_char(self) -> char {
        if mouse_out(self.mouse_pos) {
            'M'
        } else if self.has_free_step() {
            '0'
        } else {
            'W'
        }
    }

    /// The walls of columns 1 to `n` of row `i`, left to right.
    pub open spec fn row_walls(self, i: int, n: nat) -> Seq<(i32, i32)>
        decreases n,
    {
        if n == 0 {
            Seq::empty()
        } else {
            self.row_walls(i, (n - 1) as nat) + if self.prop(i, n as int) == Cellprop::Wall {
                seq![(i as i32, n as i32)]
            } else {
                Seq::empty()
            }
        }
    }

    /// The walls of rows 1 to `n` of the field, row by row.
    pub open spec fn walls_upto(self, n: nat) -> Seq<(i32, i32)>
        decreases n,
    {
        if n == 0 {
            Seq::empty()
        } else {
            self.walls_upto((n - 1) as nat) + self.row_walls(n as int, 11)
        }
    }

    /// The positions of the walls of the field, row by row and left to right.
    pub open spec fn walls(self) -> Seq<(i32, i32)> {
        self.walls_upto(11)
    }

    /// The text that `translate_to_moves` sends: `{who}{state}{x,y}` for the
    /// mouse, then `{x,y}` for each wall.
    pub open spec fn moves_text(self, who_moves: char, if_failed: bool) -> Seq<char> {
        let st = self.state_char();
        let shown = if st != 'M' && st != 'W' && if_failed {
            'F'
        } else {
            st
        };
        seq!['{', who_moves, '}', '{', shown, '}'] + pair_text(self.mouse_pos) + walls_text(
            self.walls(),
        )
    }

    /// The board of a new game: 11 x 11, every cell free but the mouse's, in
    /// the middle on row 6, column 6.
    pub open spec fn is_initial(self) -> bool {
        &&& self.dimcol == 11
        &&& self.dimlin == 11
        &&& self.mouse_pos == (6i32, 6i32)
        &&& forall|i: int, j: int|
            in_grid((i, j)) ==> #[trigger] self.prop(i, j) == (if i == 6 && j == 6 {
                Cellprop::Mouse
            } else {
                Cellprop::Free
            })
    }

    /// `next` is what `make_wall(pos)` makes of `self`, having answered `r`:
    /// a wall goes on `pos` exactly where it lies in rows and columns 0 to 12
    /// and is free; nothing else changes.
    pub open spec fn wall_placed(self, next: Board, pos: (i32, i32), r: bool) -> bool {
        let p = (pos.0 as int, pos.1 as int);
        &&& r == (0 <= pos.0 <= 12 && 0 <= pos.1 <= 12 && self.prop(p.0, p.1) == Cellprop::Free)
        &&& !r ==> next == self
        &&& r ==> next.prop(p.0, p.1) == Cellprop::Wall
        &&& self.same_cells_except(next, p, p)
        &&& next.mouse_pos == self.mouse_pos
        &&& next.dimcol == self.dimcol
        &&& next.dimlin == self.dimlin
    }

    /// `next` is what `move_mouse(dir)` makes of `self`, having answered `r`:
    /// the mouse steps to the square in direction `dir` exactly where that
    /// square lies in the field and is free, leaving its old square free;
    /// nothing else changes.
    pub open spec fn mouse_moved(self, next: Board, dir: int, r: bool) -> bool {
        let t = self.step(dir);
        let m = (self.mouse_pos.0 as int, self.mouse_pos.1 as int);
        &&& r == self.move_succeeds(dir)
        &&& !r ==> next == self
        &&& r ==> {
            &&& next.mouse_pos == (t.0 as i32, t.1 as i32)
            &&& next.prop(t.0, t.1) == Cellprop::Mouse
            &&& m != t ==> next.prop(m.0, m.1) == Cellprop::Free
            &&& self.same_cells_except(next, m, t)
        }
        &&& next.dimcol == self.dimcol
        &&& next.dimlin == self.dimlin
    }

    /// An empty board with the mouse in the middle, on row 6, column 6.
    pub fn new() -> (b: Self)
        ensures
            b.is_initial(),
            b.wf(),
            b.playable(),
    {
        let free_cell: Cell = Cell { prop: Cellprop::Free };
        let mut mat: [[Cell; 15]; 15] = [[free_cell; 15]; 15];
        let mut row = mat[6];
        row[6] = Cell { prop: Cellprop::Mouse };
        mat[6] = row;
        Board { dimcol: 11, dimlin: 11, matrix: mat, mouse_pos: (6, 6) }
    }

    fn get_prop(&self, i: usize, j: usize) -> (p: Cellprop)
        requires
            i < 15,
            j < 15,
        ensures
            p == self.prop(i as int, j as int),
    {
        self.matrix[i][j].prop
    }

    fn set_prop(&mut self, i: usize, j: usize, p: Cellprop)
        requires
            i < 15,
            j < 15,
        ensures
            final(self).prop(i as int, j as int) == p,
            old(self).same_cells_except(*final(self), (i as int, j as int), (i as int, j as int)),
            final(self).mouse_pos == old(self).mouse_pos,
            final(self).dimcol == old(self).dimcol,
            final(self).dimlin == old(self).dimlin,
    {
        let mut row = self.matrix[i];
        row[j] = Cell { prop: p };
        self.matrix[i] = row;
    }

    /// What the cell at `pos` holds.
    pub fn get_prop_at(&self, pos: (i32, i32)) -> (p: Cellprop)
        requires
            in_grid((pos.0 as int, pos.1 as int)),
        ensures
            p == self.prop(pos.0 as int, pos.1 as int),
    {
        self.get_prop(pos.0 as usize, pos.1 as usize)
    }

    /// `gameboard_state` and `translate_to_moves` run without a fault.
    pub fn can_tell_state(&self) -> (r: bool)
        ensures
            r == self.state_ok(),
    {
        let a = self.mouse_pos.0 as i64;
        let b = self.mouse_pos.1 as i64;
        assert(-0x4000_0000_0000_0000 <= a * b <= 0x4000_0000_0000_0000) by (nonlinear_arith)
            requires
                -0x8000_0000 <= a <= 0x8000_0000,
                -0x8000_0000 <= b <= 0x8000_0000,
        ;
        let p = a * b;
        if p < i32::MIN as i64 || p > i32::MAX as i64 {
            return false;
        }
        is_mouse_out(self.mouse_pos) || (self.mouse_pos.0 > 0 && self.mouse_pos.1 > 0)
    }

    /// Puts a wall on `pos` where it lies in rows and columns 0 to 12 and is
    /// free; says whether it did.
    pub fn make_wall(&mut self, pos: (i32, i32)) -> (r: bool)
        ensures
            old(self).wall_placed(*final(self), pos, r),
            old(self).wf() ==> final(self).wf(),
            old(self).playable() ==> final(self).playable(),
            old(self).walls_kept(*final(self)),
    {
        if pos.0 < 0 || pos.1 < 0 || pos.0 > 12 || pos.1 > 12 {
            return false;
        } else if self.get_prop(pos.0 as usize, pos.1 as usize) == Cellprop::Free {
            self.set_prop(pos.0 as usize, pos.1 as usize, Cellprop::Wall);
            return true;
        }
        false
    }

    /// Whether the square one step from the mouse in direction `dir` is free.
    pub fn test_move_mouse(&self, dir: i32) -> (r: bool)
        requires
            valid_dir(dir as int),
            in_grid(self.step(dir as int)),
        ensures
            r == self.step_free(dir as int),
    {
        let t = target_of(self.mouse_pos, dir);
        self.get_prop(t.0 as usize, t.1 as usize) == Cellprop::Free
    }

    /// `move_mouse(dir)` runs without a fault.
    pub fn can_move_mouse(&self, dir: i32) -> (r: bool)
        ensures
            r == self.move_ok(dir as int),
    {
        if dir < 0 || dir >= 7 {
            return false;
        }
        let t = target_of(self.mouse_pos, dir);
        if t.0 < i32::MIN as i64 || t.0 > i32::MAX as i64 || t.1 < i32::MIN as i64 || t.1
            > i32::MAX as i64 {
            return false;
        }
        if 1 <= t.0 && t.0 <= 11 && 1 <= t.1 && t.1 <= 11 && self.get_prop(
            t.0 as usize,
            t.1 as usize,
        ) == Cellprop::Free {
            let m = self.mouse_pos;
            return 0 <= m.0 && m.0 < 15 && 0 <= m.1 && m.1 < 15;
        }
        true
    }

    /// Moves the mouse one step in direction `dir` where that square lies in
    /// the field and is free; says whether it moved.
    pub fn move_mouse(&mut self, dir: i32) -> (r: bool)
        requires
            old(self).move_ok(dir as int),
        ensures
            old(self).mouse_moved(*final(self), dir as int, r),
            r ==> in_field((final(self).mouse_pos.0 as int, final(self).mouse_pos.1 as int)),
            old(self).wf() ==> final(self).wf(),
            old(self).playable() ==> final(self).playable(),
            old(self).wf() ==> old(self).walls_kept(*final(self)),
    {
        let sor = self.mouse_pos;
        let t = target_of(sor, dir);
        let newsor: (i32, i32) = (t.0 as i32, t.1 as i32);
        if newsor.0 < 1 || newsor.1 < 1 || newsor.1 > 11 || newsor.0 > 11 {
            return false;
        }
        if self.get_prop(newsor.0 as usize, newsor.1 as usize) == Cellprop::Free {
            let ghost b0 = *self;
            let ghost m = (sor.0 as int, sor.1 as int);
            let ghost tt = (t.0 as int, t.1 as int);
            self.set_prop(sor.0 as usize, sor.1 as usize, Cellprop::Free);
            let ghost b1 = *self;
            self.set_prop(newsor.0 as usize, newsor.1 as usize, Cellprop::Mouse);
            let ghost b2 = *self;
            self.mouse_pos = newsor;
            assert forall|i: int, j: int| #[trigger] self.prop(i, j) == b2.prop(i, j) by {}
            assert forall|i: int, j: int|
                in_grid((i, j)) && (i, j) != m && (i, j) != tt implies #[trigger] self.prop(i, j)
                == b0.prop(i, j) by {
                assert(b2.prop(i, j) == b1.prop(i, j));
                assert(b1.prop(i, j) == b0.prop(i, j));
            }
            assert(m != tt ==> b2.prop(m.0, m.1) == b1.prop(m.0, m.1));
            proof {
                if b0.wf() {
                    assert forall|i: int, j: int|
                        in_grid((i, j)) && (i, j) != tt implies #[trigger] self.prop(i, j)
                        != Cellprop::Mouse by {
                        if (i, j) == m {
                            assert(self.prop(i, j) == Cellprop::Free);
                        } else {
                            assert(self.prop(i, j) == b0.prop(i, j));
                        }
                    }
                    assert forall|i: int, j: int|
                        in_grid((i, j)) && b0.prop(i, j) == Cellprop::Wall implies
                        #[trigger] self.prop(i, j) == Cellprop::Wall by {
                        if (i, j) != m && (i, j) != tt {
                            assert(self.prop(i, j) == b0.prop(i, j));
                        }
                    }
                }
            }
            return true;
        }
        false
    }

    /// Takes the mouse off its cell, and puts it on `newsor` where that lies in
    /// rows and columns 0 to 12.
    pub fn set_mouse(&mut self, newsor: (i32, i32))
        requires
            in_grid((old(self).mouse_pos.0 as int, old(self).mouse_pos.1 as int)),
        ensures
            ({
                let m = (old(self).mouse_pos.0 as int, old(self).mouse_pos.1 as int);
                let p = (newsor.0 as int, newsor.1 as int);
                let ok = 0 <= newsor.0 <= 12 && 0 <= newsor.1 <= 12;
                &&& final(self).mouse_pos == if ok {
                    newsor
                } else {
                    old(self).mouse_pos
                }
                &&& ok ==> final(self).prop(p.0, p.1) == Cellprop::Mouse
                &&& (!ok || p != m) ==> final(self).prop(m.0, m.1) == Cellprop::Free
                &&& old(self).same_cells_except(*final(self), m, p)
                &&& !ok ==> old(self).same_cells_except(*final(self), m, m)
                &&& final(self).dimcol == old(self).dimcol
                &&& final(self).dimlin == old(self).dimlin
            }),
    {
        let ghost b0 = *self;
        let m = self.mouse_pos;
        self.set_prop(m.0 as usize, m.1 as usize, Cellprop::Free);
        if newsor.0 < 0 || newsor.1 < 0 || newsor.0 > 12 || newsor.1 > 12 {
            return ;
        }
        let ghost b1 = *self;
        self.set_prop(newsor.0 as usize, newsor.1 as usize, Cellprop::Mouse);
        let ghost b2 = *self;
        self.mouse_pos = newsor;
        assert forall|i: int, j: int| #[trigger] self.prop(i, j) == b2.prop(i, j) by {}
        assert forall|i: int, j: int|
            in_grid((i, j)) && (i, j) != (m.0 as int, m.1 as int) && (i, j) != (
                newsor.0 as int,
                newsor.1 as int,
            ) implies #[trigger] self.prop(i, j) == b0.prop(i, j) by {
            assert(b2.prop(i, j) == b1.prop(i, j));
        }
        assert((m.0 as int, m.1 as int) != (newsor.0 as int, newsor.1 as int) ==> b2.prop(
            m.0 as int,
            m.1 as int,
        ) == b1.prop(m.0 as int, m.1 as int));
    }

    /// Reads a board's text, as `translate_to_moves` writes it, into this
    /// board: the fields between braces and commas are read with
    /// `str_to_int`; the third and fourth place the mouse on a new board
    /// (with `set_mouse`), each following pair from the sixth field on places a
    /// wall (with `make_wall`); the cells of the field and the mouse's
    /// position of that board are then taken over.
    pub fn translate_to_board(&mut self, newboardmove: String)
        requires
            fields_readable(fields(newboardmove@)),
        ensures
            ({
                let fs = fields(newboardmove@);
                &&& final(self).mouse_pos == read_mouse(fs, fs.len() as int)
                &&& forall|i: int, j: int|
                    in_field((i, j)) ==> #[trigger] final(self).prop(i, j) == read_cell(
                        fs,
                        fs.len() as int,
                        i,
                        j,
                    )
                &&& forall|i: int, j: int|
                    in_grid((i, j)) && !in_field((i, j)) ==> #[trigger] final(self).prop(i, j)
                        == old(self).prop(i, j)
                &&& final(self).dimcol == old(self).dimcol
                &&& final(self).dimlin == old(self).dimlin
            }),
    {
        let ghost gfs = fields(newboardmove@);
        let fs = split_fields(&chars_of(newboardmove.as_str()));
        let mut nb = Board::new();
        let mut wx: i32 = 0;
        let mut ind: usize = 0;
        while ind < fs.len()
            invariant
                ind <= fs.len(),
                gfs == fields(newboardmove@),
                fs.len() == gfs.len(),
                forall|k: int| 0 <= k < fs.len() ==> #[trigger] fs@[k]@ == gfs[k],
                fields_readable(gfs),
                nb.mouse_pos == read_mouse(gfs, ind as int),
                forall|i: int, j: int|
                    in_grid((i, j)) ==> #[trigger] nb.prop(i, j) == read_cell(gfs, ind as int, i, j),
                ind >= 3 ==> wx == field_num(gfs, ind - 1),
            decreases fs.len() - ind,
        {
            if ind >= 2 {
                let text = string_of(&fs[ind]);
                assert(text@ == gfs[ind as int]);
                let wy = str_to_int(text.as_str());
                if ind % 2 == 1 && ind / 2 > 1 {
                    let ghost before = nb;
                    nb.make_wall((wx, wy));
                    assert forall|i: int, j: int| in_grid((i, j)) implies #[trigger] nb.prop(i, j)
                        == read_cell(gfs, ind + 1, i, j) by {
                        if (i, j) != (wx as int, wy as int) {
                            if wall_sent(gfs, ind + 1, i, j) {
                                let k = choose|k: int|
                                    5 <= k < ind + 1 && k % 2 == 1 && #[trigger] field_num(
                                        gfs,
                                        k - 1,
                                    ) == i && field_num(gfs, k) == j;
                                assert(k != ind);
                            }
                            assert(wall_sent(gfs, ind as int, i, j) == wall_sent(gfs, ind + 1, i, j));
                        } else {
                            assert(field_num(gfs, ind - 1) == i);
                            assert(field_num(gfs, ind as int) == j);
                            assert(wall_sent(gfs, ind + 1, i, j));
                            assert(before.prop(i, j) == read_cell(gfs, ind as int, i, j));
                            if mouse_placed(gfs) && (i, j) == sent_mouse(gfs) {
                                assert(before.prop(i, j) == Cellprop::Mouse);
                            } else if 0 <= i <= 12 && 0 <= j <= 12 {
                                assert(nb.prop(i, j) == Cellprop::Wall);
                            } else {
                                assert(nb == before);
                            }
                        }
                    }
                } else if ind % 2 == 1 {
                    assert(ind == 3);
                    assert(wx == sent_mouse(gfs).0 && wy == sent_mouse(gfs).1);
                    let ghost before = nb;
                    nb.set_mouse((wx, wy));
                    assert forall|i: int, j: int| in_grid((i, j)) implies #[trigger] nb.prop(i, j)
                        == read_cell(gfs, ind + 1, i, j) by {
                        assert(!wall_sent(gfs, 4, i, j));
                        assert(gfs.len() >= 4);
                        assert(before.mouse_pos == (6i32, 6i32));
                        let ok = 0 <= wx <= 12 && 0 <= wy <= 12;
                        assert(mouse_placed(gfs) == ok);
                        if ok && (i, j) == (wx as int, wy as int) {
                            assert(nb.prop(i, j) == Cellprop::Mouse);
                        } else if (i, j) == (6int, 6int) {
                            assert(nb.prop(i, j) == Cellprop::Free);
                        } else if (i, j) != (wx as int, wy as int) {
                            assert(nb.prop(i, j) == before.prop(i, j));
                        } else {
                            assert(nb.prop(i, j) == before.prop(i, j));
                        }
                    }
                } else {
                    assert forall|i: int, j: int| in_grid((i, j)) implies #[trigger] nb.prop(i, j)
                        == read_cell(gfs, ind + 1, i, j) by {
                        if ind >= 4 {
                            if wall_sent(gfs, ind + 1, i, j) {
                                let k = choose|k: int|
                                    5 <= k < ind + 1 && k % 2 == 1 && #[trigger] field_num(
                                        gfs,
                                        k - 1,
                                    ) == i && field_num(gfs, k) == j;
                                assert(k != ind);
                                assert(wall_sent(gfs, ind as int, i, j));
                            }
                        }
                    }
                }
                wx = wy;
            }
            ind = ind + 1;
        }
        let mut i: usize = 1;
        while i < 12
            invariant
                1 <= i <= 12,
                gfs == fields(newboardmove@),
                fs.len() == gfs.len(),
                forall|a: int, b: int|
                    in_grid((a, b)) ==> #[trigger] nb.prop(a, b) == read_cell(
                        gfs,
                        fs.len() as int,
                        a,
                        b,
                    ),
                forall|a: int, b: int|
                    1 <= a < i && 1 <= b <= 11 ==> #[trigger] self.prop(a, b) == nb.prop(a, b),
                forall|a: int, b: int|
                    in_grid((a, b)) && !(1 <= a < i && 1 <= b <= 11) ==> #[trigger] self.prop(a, b)
                        == old(self).prop(a, b),
                self.dimcol == old(self).dimcol,
                self.dimlin == old(self).dimlin,
            decreases 12 - i,
        {
            let mut j: usize = 1;
            while j < 12
                invariant
                    1 <= i < 12,
                    1 <= j <= 12,
                    forall|a: int, b: int|
                        (1 <= a < i && 1 <= b <= 11) || (a == i && 1 <= b < j) ==> #[trigger] self.prop(
                            a,
                            b,
                        ) == nb.prop(a, b),
                    forall|a: int, b: int|
                        in_grid((a, b)) && !((1 <= a < i && 1 <= b <= 11) || (a == i && 1 <= b < j))
                            ==> #[trigger] self.prop(a, b) == old(self).prop(a, b),
                    self.dimcol == old(self).dimcol,
                    self.dimlin == old(self).dimlin,
                decreases 12 - j,
            {
                let p = nb.get_prop(i, j);
                self.set_prop(i, j, p);
                j = j + 1;
            }
            i = i + 1;
        }
        let ghost copied = *self;
        self.mouse_pos = nb.mouse_pos;
        assert forall|a: int, b: int| #[trigger] self.prop(a, b) == copied.prop(a, b) by {}
    }

    /// Reads a board's text into this board as `translate_to_board` does,
    /// where every field from the third on can be read by `str_to_int`, and
    /// says so; else leaves the board as it is and answers `false`.
    pub fn try_translate_to_board(&mut self, newboardmove: String) -> (r: bool)
        ensures
            r == fields_readable(fields(newboardmove@)),
            !r ==> *final(self) == *old(self),
            r ==> ({
                let fs = fields(newboardmove@);
                &&& final(self).mouse_pos == read_mouse(fs, fs.len() as int)
                &&& forall|i: int, j: int|
                    in_field((i, j)) ==> #[trigger] final(self).prop(i, j) == read_cell(
                        fs,
                        fs.len() as int,
                        i,
                        j,
                    )
                &&& forall|i: int, j: int|
                    in_grid((i, j)) && !in_field((i, j)) ==> #[trigger] final(self).prop(i, j)
                        == old(self).prop(i, j)
                &&& final(self).dimcol == old(self).dimcol
                &&& final(self).dimlin == old(self).dimlin
            }),
    {
        let ghost gfs = fields(newboardmove@);
        let fs = split_fields(&chars_of(newboardmove.as_str()));
        let mut k: usize = 2;
        while k < fs.len()
            invariant
                2 <= k,
                gfs == fields(newboardmove@),
                fs.len() == gfs.len(),
                forall|m: int| 0 <= m < fs.len() ==> #[trigger] fs@[m]@ == gfs[m],
                forall|m: int|
                    2 <= m < k && m < gfs.len() ==> numeric_bytes_ok(#[trigger] gfs[m])
                        && numeric_value(gfs[m]) <= i32::MAX,
            decreases fs.len() - k,
        {
            let text = string_of(&fs[k]);
            if try_str_to_int(text.as_str()).is_none() {
                assert(!fields_readable(gfs)) by {
                    assert(text@ == gfs[k as int]);
                }
                return false;
            }
            k = k + 1;
        }
        self.translate_to_board(newboardmove);
        true
    }

    /// Both coordinates of the mouse are positive and at most 11 (so each
    /// step from it stays in the matrix).
    proof fn lemma_steps_in_grid(self, d: int)
        requires
            1 <= self.mouse_pos.0 <= 11,
            1 <= self.mouse_pos.1 <= 11,
            valid_dir(d),
        ensures
            in_grid(self.step(d)),
    {
        lemma_steps_small(self.mouse_pos.0 as int, d);
    }

    /// The text sent to a client: who moves, the state of the game ('F' in
    /// place of '0' where `if_failed`), the mouse's position and the walls.
    pub fn translate_to_moves(&mut self, who_moves: char, if_failed: bool) -> (r: String)
        requires
            old(self).state_ok(),
        ensures
            *final(self) == *old(self),
            r@ == old(self).moves_text(who_moves, if_failed),
    {
        let mut translated = String::new();
        push_char(&mut translated, '{');
        push_char(&mut translated, who_moves);
        push_char(&mut translated, '}');
        let mut st = gameboard_state(self);
        if st != 'M' && st != 'W' && if_failed {
            st = 'F';
        }
        push_char(&mut translated, '{');
        push_char(&mut translated, st);
        push_char(&mut translated, '}');
        let ghost head = translated@;
        push_pair(&mut translated, self.mouse_pos);
        let ghost with_mouse = translated@;
        let walls = wall_position(self);
        let mut k: usize = 0;
        while k < walls.len()
            invariant
                k <= walls.len(),
                walls@ == self.walls(),
                translated@ == with_mouse + walls_text(walls@.take(k as int)),
            decreases walls.len() - k,
        {
            assert(walls@.take(k + 1).drop_last() =~= walls@.take(k as int));
            push_pair(&mut translated, walls[k]);
            k = k + 1;
        }
        assert(walls@.take(walls.len() as int) =~= walls@);
        assert(translated@ =~= self.moves_text(who_moves, if_failed));
        translated
    }
}

/// The list of walls that `wall_position` gives holds a position exactly
/// where it lies in the field and a wall stands there.
pub proof fn lemma_walls_listed(b: Board, i: i32, j: i32)
    ensures
        b.walls().contains((i, j)) <==> (in_field((i as int, j as int)) && b.prop(i as int, j as int)
            == Cellprop::Wall),
{
    lemma_walls_upto(b, 11, i, j);
}

proof fn lemma_row_walls(b: Board, r: int, n: nat, i: i32, j: i32)
    requires
        1 <= r <= 11,
        n <= 11,
    ensures
        b.row_walls(r, n).contains((i, j)) <==> (i == r && 1 <= j <= n && b.prop(r, j as int)
            == Cellprop::Wall),
    decreases n,
{
    if n > 0 {
        lemma_row_walls(b, r, (n - 1) as nat, i, j);
        let prev = b.row_walls(r, (n - 1) as nat);
        let last: Seq<(i32, i32)> = if b.prop(r, n as int) == Cellprop::Wall {
            seq![(r as i32, n as i32)]
        } else {
            Seq::empty()
        };
        assert(b.row_walls(r, n) == prev + last);
        if (prev + last).contains((i, j)) {
            let k = choose|k: int| 0 <= k < (prev + last).len() && (prev + last)[k] == (i, j);
            if k < prev.len() {
                assert(prev[k] == (i, j));
            }
        }
        if i == r && 1 <= j <= n && b.prop(r, j as int) == Cellprop::Wall {
            if j < n {
                let k = choose|k: int| 0 <= k < prev.len() && prev[k] == (i, j);
                assert((prev + last)[k] == (i, j));
            } else {
                assert((prev + last)[prev.len() as int] == (i, j));
            }
        }
    }
}

proof fn lemma_walls_upto(b: Board, n: nat, i: i32, j: i32)
    requires
        n <= 11,
    ensures
        b.walls_upto(n).contains((i, j)) <==> (1 <= i <= n && 1 <= j <= 11 && b.prop(
            i as int,
            j as int,
        ) == Cellprop::Wall),
    decreases n,
{
    if n > 0 {
        lemma_walls_upto(b, (n - 1) as nat, i, j);
        lemma_row_walls(b, n as int, 11, i, j);
        let prev = b.walls_upto((n - 1) as nat);
        let row = b.row_walls(n as int, 11);
        assert(b.walls_upto(n) == prev + row);
        if (prev + row).contains((i, j)) {
            let k = choose|k: int| 0 <= k < (prev + row).len() && (prev + row)[k] == (i, j);
            if k < prev.len() {
                assert(prev[k] == (i, j));
            } else {
                assert(row[k - prev.len()] == (i, j));
            }
        }
        if 1 <= i <= n && 1 <= j <= 11 && b.prop(i as int, j as int) == Cellprop::Wall {
            if i < n {
                let k = choose|k: int| 0 <= k < prev.len() && prev[k] == (i, j);
                assert((prev + row)[k] == (i, j));
            } else {
                let k = choose|k: int| 0 <= k < row.len() && row[k] == (i, j);
                assert((prev + row)[prev.len() + k] == (i, j));
            }
        }
    }
}

/// `p` comes before `q` row by row, left to right.
pub open spec fn comes_before(p: (i32, i32), q: (i32, i32)) -> bool {
    p.0 < q.0 || (p.0 == q.0 && p.1 < q.1)
}

/// The positions of `s` come row by row, left to right, none twice.
pub open spec fn in_board_order(s: Seq<(i32, i32)>) -> bool {
    forall|a: int, c: int| 0 <= a < c < s.len() ==> comes_before(#[trigger] s[a], #[trigger] s[c])
}

proof fn lemma_row_walls_order(b: Board, r: int, n: nat)
    requires
        1 <= r <= 11,
        n <= 11,
    ensures
        in_board_order(b.row_walls(r, n)),
        forall|k: int|
            0 <= k < b.row_walls(r, n).len() ==> (#[trigger] b.row_walls(r, n)[k]).0 == r && 1
                <= b.row_walls(r, n)[k].1 <= n,
    decreases n,
{
    if n > 0 {
        lemma_row_walls_order(b, r, (n - 1) as nat);
        let prev = b.row_walls(r, (n - 1) as nat);
        let last: Seq<(i32, i32)> = if b.prop(r, n as int) == Cellprop::Wall {
            seq![(r as i32, n as i32)]
        } else {
            Seq::empty()
        };
        assert(b.row_walls(r, n) == prev + last);
        assert forall|k: int| 0 <= k < (prev + last).len() implies (#[trigger] (prev + last)[k]).0
            == r && 1 <= (prev + last)[k].1 <= n by {
            if k < prev.len() {
                assert((prev + last)[k] == prev[k]);
            }
        }
        assert forall|a: int, c: int| 0 <= a < c < (prev + last).len() implies comes_before(
            #[trigger] (prev + last)[a],
            #[trigger] (prev + last)[c],
        ) by {
            assert((prev + last)[a] == prev[a]);
            if c < prev.len() {
                assert((prev + last)[c] == prev[c]);
            }
        }
    }
}

proof fn lemma_walls_upto_order(b: Board, n: nat)
    requires
        n <= 11,
    ensures
        in_board_order(b.walls_upto(n)),
        forall|k: int|
            0 <= k < b.walls_upto(n).len() ==> 1 <= (#[trigger] b.walls_upto(n)[k]).0 <= n,
    decreases n,
{
    if n > 0 {
        lemma_walls_upto_order(b, (n - 1) as nat);
        lemma_row_walls_order(b, n as int, 11);
        let prev = b.walls_upto((n - 1) as nat);
        let row = b.row_walls(n as int, 11);
        assert(b.walls_upto(n) == prev + row);
        assert forall|k: int| 0 <= k < (prev + row).len() implies 1 <= (#[trigger] (prev
            + row)[k]).0 <= n by {
            if k < prev.len() {
                assert((prev + row)[k] == prev[k]);
            } else {
                assert((prev + row)[k] == row[k - prev.len()]);
            }
        }
        assert forall|a: int, c: int| 0 <= a < c < (prev + row).len() implies comes_before(
            #[trigger] (prev + row)[a],
            #[trigger] (prev + row)[c],
        ) by {
            if c < prev.len() {
                assert((prev + row)[a] == prev[a]);
                assert((prev + row)[c] == prev[c]);
            } else if a < prev.len() {
                assert((prev + row)[a] == prev[a]);
                assert((prev + row)[c] == row[c - prev.len()]);
            } else {
                assert((prev + row)[a] == row[a - prev.len()]);
                assert((prev + row)[c] == row[c - prev.len()]);
            }
        }
    }
}

/// The list of walls that `wall_position` gives runs row by row, left to
/// right, and names no position twice.
pub proof fn lemma_walls_in_order(b: Board)
    ensures
        in_board_order(b.walls()),
{
    lemma_walls_upto_order(b, 11);
}

/// `s` with `p` put in where the row-by-row order puts it.
pub open spec fn insert_in_order(s: Seq<(i32, i32)>, p: (i32, i32)) -> Seq<(i32, i32)>
    decreases s.len(),
{
    if s.len() == 0 {
        seq![p]
    } else if comes_before(p, s[0]) {
        seq![p] + s
    } else {
        seq![s[0]] + insert_in_order(s.drop_first(), p)
    }
}

proof fn lemma_insert_in_order(s: Seq<(i32, i32)>, p: (i32, i32))
    requires
        in_board_order(s),
        !s.contains(p),
    ensures
        in_board_order(insert_in_order(s, p)),
        forall|q: (i32, i32)|
            #[trigger] insert_in_order(s, p).contains(q) <==> (s.contains(q) || q == p),
    decreases s.len(),
{
    let t = insert_in_order(s, p);
    if s.len() == 0 {
        assert forall|q: (i32, i32)| #[trigger] t.contains(q) <==> (s.contains(q) || q == p) by {
            if t.contains(q) {
                assert(t[0] == q);
            }
            if q == p {
                assert(t[0] == p);
            }
        }
    } else if comes_before(p, s[0]) {
        assert forall|a: int, c: int| 0 <= a < c < t.len() implies comes_before(
            #[trigger] t[a],
            #[trigger] t[c],
        ) by {
            assert(t[c] == s[c - 1]);
            if a > 0 {
                assert(t[a] == s[a - 1]);
            } else if c > 1 {
                assert(comes_before(s[0], s[c - 1]));
            }
        }
        assert forall|q: (i32, i32)| #[trigger] t.contains(q) <==> (s.contains(q) || q == p) by {
            if t.contains(q) {
                let k = choose|k: int| 0 <= k < t.len() && t[k] == q;
                if k > 0 {
                    assert(s[k - 1] == q);
                }
            }
            if s.contains(q) {
                let k = choose|k: int| 0 <= k < s.len() && s[k] == q;
                assert(t[k + 1] == q);
            }
            if q == p {
                assert(t[0] == p);
            }
        }
    } else {
        let rest = s.drop_first();
        assert(in_board_order(rest)) by {
            assert forall|a: int, c: int| 0 <= a < c < rest.len() implies comes_before(
                #[trigger] rest[a],
                #[trigger] rest[c],
            ) by {
                assert(rest[a] == s[a + 1]);
                assert(rest[c] == s[c + 1]);
            }
        }
        assert(!rest.contains(p)) by {
            if rest.contains(p) {
                let k = choose|k: int| 0 <= k < rest.len() && rest[k] == p;
                assert(s[k + 1] == p);
            }
        }
        lemma_insert_in_order(rest, p);
        let u = insert_in_order(rest, p);
        assert(s[0] != p) by {
            assert(s.contains(s[0]));
        }
        assert forall|q: (i32, i32)| #[trigger] u.contains(q) implies comes_before(s[0], q) by {
            if rest.contains(q) {
                let k = choose|k: int| 0 <= k < rest.len() && rest[k] == q;
                assert(s[k + 1] == q);
            }
        }
        assert forall|a: int, c: int| 0 <= a < c < t.len() implies comes_before(
            #[trigger] t[a],
            #[trigger] t[c],
        ) by {
            assert(t[c] == u[c - 1]);
            assert(u.contains(u[c - 1]));
            if a > 0 {
                assert(t[a] == u[a - 1]);
            }
        }
        assert forall|q: (i32, i32)| #[trigger] t.contains(q) <==> (s.contains(q) || q == p) by {
            if t.contains(q) {
                let k = choose|k: int| 0 <= k < t.len() && t[k] == q;
                if k > 0 {
                    assert(u[k - 1] == q);
                    assert(u.contains(q));
                    if rest.contains(q) {
                        let m = choose|m: int| 0 <= m < rest.len() && rest[m] == q;
                        assert(s[m + 1] == q);
                    }
                }
            }
            if s.contains(q) {
                let k = choose|k: int| 0 <= k < s.len() && s[k] == q;
                if k == 0 {
                    assert(t[0] == q);
                } else {
                    assert(rest[k - 1] == q);
                    assert(u.contains(q));
                    let m = choose|m: int| 0 <= m < u.len() && u[m] == q;
                    assert(t[m + 1] == q);
                }
            }
            if q == p {
                assert(u.contains(p));
                let m = choose|m: int| 0 <= m < u.len() && u[m] == p;
                assert(t[m + 1] == p);
            }
        }
    }
}

proof fn lemma_order_unique(x: Seq<(i32, i32)>, y: Seq<(i32, i32)>)
    requires
        in_board_order(x),
        in_board_order(y),
        forall|q: (i32, i32)| #[trigger] x.contains(q) <==> y.contains(q),
    ensures
        x == y,
    decreases x.len(),
{
    if x.len() == 0 {
        if y.len() > 0 {
            assert(y.contains(y[0]));
            assert(x.contains(y[0]));
        }
        assert(x =~= y);
    } else {
        assert(x.contains(x[0]));
        assert(y.contains(x[0]));
        assert(y.len() > 0);
        assert(y.contains(y[0]));
        assert(x.contains(y[0]));
        let j = choose|j: int| 0 <= j < y.len() && y[j] == x[0];
        let i = choose|i: int| 0 <= i < x.len() && x[i] == y[0];
        if j > 0 {
            assert(comes_before(y[0], y[j]));
            if i > 0 {
                assert(comes_before(x[0], x[i]));
            }
            assert(false);
        }
        let xr = x.drop_first();
        let yr = y.drop_first();
        assert(in_board_order(xr)) by {
            assert forall|a: int, c: int| 0 <= a < c < xr.len() implies comes_before(
                #[trigger] xr[a],
                #[trigger] xr[c],
            ) by {
                assert(xr[a] == x[a + 1]);
                assert(xr[c] == x[c + 1]);
            }
        }
        assert(in_board_order(yr)) by {
            assert forall|a: int, c: int| 0 <= a < c < yr.len() implies comes_before(
                #[trigger] yr[a],
                #[trigger] yr[c],
            ) by {
                assert(yr[a] == y[a + 1]);
                assert(yr[c] == y[c + 1]);
            }
        }
        assert forall|q: (i32, i32)| #[trigger] xr.contains(q) <==> yr.contains(q) by {
            if xr.contains(q) {
                let k = choose|k: int| 0 <= k < xr.len() && xr[k] == q;
                assert(x[k + 1] == q);
                assert(x.contains(q));
                assert(y.contains(q));
                let m = choose|m: int| 0 <= m < y.len() && y[m] == q;
                assert(comes_before(x[0], x[k + 1]));
                assert(m != 0);
                assert(yr[m - 1] == q);
            }
            if yr.contains(q) {
                let k = choose|k: int| 0 <= k < yr.len() && yr[k] == q;
                assert(y[k + 1] == q);
                assert(y.contains(q));
                assert(x.contains(q));
                let m = choose|m: int| 0 <= m < x.len() && x[m] == q;
                assert(comes_before(y[0], y[k + 1]));
                assert(m != 0);
                assert(xr[m - 1] == q);
            }
        }
        lemma_order_unique(xr, yr);
        assert(x =~= seq![x[0]] + xr);
        assert(y =~= seq![y[0]] + yr);
    }
}

/// After `make_wall(pos)` has answered `r`, the list of walls holds the walls
/// it held before and, where a wall went up on a cell of the field, `pos`;
/// it stays in row-by-row order, so `pos` stands where that order puts it.
pub proof fn lemma_wall_list_after_wall(b: Board, next: Board, pos: (i32, i32), r: bool)
    requires
        b.wall_placed(next, pos, r),
    ensures
        forall|q: (i32, i32)|
            #[trigger] next.walls().contains(q) <==> (b.walls().contains(q) || (r && q == pos
                && in_field((pos.0 as int, pos.1 as int)))),
        next.walls() == if r && in_field((pos.0 as int, pos.1 as int)) {
            insert_in_order(b.walls(), pos)
        } else {
            b.walls()
        },
        in_board_order(next.walls()),
{
    lemma_walls_in_order(b);
    lemma_walls_in_order(next);
    lemma_walls_listed(b, pos.0, pos.1);
    assert forall|q: (i32, i32)|
        #[trigger] next.walls().contains(q) <==> (b.walls().contains(q) || (r && q == pos
            && in_field((pos.0 as int, pos.1 as int)))) by {
        lemma_walls_listed(b, q.0, q.1);
        lemma_walls_listed(next, q.0, q.1);
    }
    if r && in_field((pos.0 as int, pos.1 as int)) {
        lemma_insert_in_order(b.walls(), pos);
        lemma_order_unique(next.walls(), insert_in_order(b.walls(), pos));
    } else {
        lemma_order_unique(next.walls(), b.walls());
    }
}

/// On a board of a game in progress every direction can be asked for without
/// a fault, and the state of the game can be told and is never 'M'.
pub proof fn lemma_playable_board(b: Board, dir: int)
    requires
        b.playable(),
        valid_dir(dir),
    ensures
        b.move_ok(dir),
        b.state_ok(),
        b.state_char() != 'M',
{
    lemma_steps_small(b.mouse_pos.0 as int, dir);
    lemma_mouse_in_field(b);
}

/// What the state of the game says: 'M' exactly when the mouse is out; 'W'
/// exactly when it is not out and none of its six directions 1 to 6 leads to
/// a free square; '0' exactly when it is not out and one of them does.
pub proof fn lemma_state_char_cases(b: Board)
    ensures
        b.state_char() == 'M' <==> mouse_out(b.mouse_pos),
        b.state_char() == 'W' <==> (!mouse_out(b.mouse_pos) && forall|d: int|
            1 <= d <= 6 ==> !#[trigger] b.step_free(d)),
        b.state_char() == '0' <==> (!mouse_out(b.mouse_pos) && exists|d: int|
            1 <= d <= 6 && #[trigger] b.step_free(d)),
{
}

/// Once `gameboard_state` says 'W', the mouse cannot move in any of its six
/// directions.
pub proof fn lemma_trapped_mouse_cannot_move(b: Board, dir: int)
    requires
        b.state_char() == 'W',
        1 <= dir <= 6,
    ensures
        !b.move_succeeds(dir),
{
}

/// Inside the field, `test_move_mouse(dir)` answers whether `move_mouse(dir)`
/// moves the mouse.
pub proof fn lemma_test_predicts_move(b: Board, dir: int)
    requires
        valid_dir(dir),
        in_field(b.step(dir)),
    ensures
        b.move_succeeds(dir) == b.step_free(dir),
{
}

/// While the mouse stands in the field, which every move keeps it in,
/// `gameboard_state` and `translate_to_moves` run without a fault and the
/// state is never 'M'.
pub proof fn lemma_mouse_in_field(b: Board)
    requires
        in_field((b.mouse_pos.0 as int, b.mouse_pos.1 as int)),
    ensures
        b.state_ok(),
        !mouse_out(b.mouse_pos),
        b.state_char() != 'M',
{
    let p = b.mouse_pos;
    assert(1 <= p.0 * p.1 <= 121) by (nonlinear_arith)
        requires
            1 <= p.0 <= 11,
            1 <= p.1 <= 11,
    ;
}

/// The number that field `k` of `fs` gives to `str_to_int`.
pub open spec fn field_num(fs: Seq<Seq<char>>, k: int) -> int {
    str_to_int_spec(fs[k])
}

/// Every field after the first two can be read by `str_to_int`.
pub open spec fn fields_readable(fs: Seq<Seq<char>>) -> bool {
    forall|k: int|
        2 <= k < fs.len() ==> numeric_bytes_ok(#[trigger] fs[k]) && numeric_value(fs[k])
            <= i32::MAX
}

/// The mouse's position that a board's text gives: its third and fourth
/// fields.
pub open spec fn sent_mouse(fs: Seq<Seq<char>>) -> (int, int) {
    (field_num(fs, 2), field_num(fs, 3))
}

/// The text gives the mouse a position in rows and columns 0 to 12, where
/// `set_mouse` puts it.
pub open spec fn mouse_placed(fs: Seq<Seq<char>>) -> bool {
    fs.len() >= 4 && 0 <= sent_mouse(fs).0 <= 12 && 0 <= sent_mouse(fs).1 <= 12
}

/// Among the first `n` fields, a wall's pair (fields `k - 1` and `k`, `k` odd
/// and at least 5) gives the position `(i, j)`.
pub open spec fn wall_sent(fs: Seq<Seq<char>>, n: int, i: int, j: int) -> bool {
    exists|k: int|
        5 <= k < n && k % 2 == 1 && #[trigger] field_num(fs, k - 1) == i && field_num(fs, k) == j
}

/// What cell `(i, j)` holds once the first `n` fields of a board's text have
/// been read into a new board.
pub open spec fn read_cell(fs: Seq<Seq<char>>, n: int, i: int, j: int) -> Cellprop {
    if n < 4 {
        if i == 6 && j == 6 {
            Cellprop::Mouse
        } else {
            Cellprop::Free
        }
    } else if mouse_placed(fs) && (i, j) == sent_mouse(fs) {
        Cellprop::Mouse
    } else if 0 <= i <= 12 && 0 <= j <= 12 && wall_sent(fs, n, i, j) {
        Cellprop::Wall
    } else {
        Cellprop::Free
    }
}

/// Where the mouse stands once the first `n` fields of a board's text have
/// been read into a new board.
pub open spec fn read_mouse(fs: Seq<Seq<char>>, n: int) -> (i32, i32) {
    if n >= 4 && mouse_placed(fs) {
        (sent_mouse(fs).0 as i32, sent_mouse(fs).1 as i32)
    } else {
        (6i32, 6i32)
    }
}

/// `{x,y}` for the position `p`.
pub open spec fn pair_text(p: (i32, i32)) -> Seq<char> {
    seq!['{'] + decimal(p.0 as int) + seq![','] + decimal(p.1 as int) + seq!['}']
}

/// `{x,y}` for each position of `ps`, in order.
pub open spec fn walls_text(ps: Seq<(i32, i32)>) -> Seq<char>
    decreases ps.len(),
{
    if ps.len() == 0 {
        Seq::empty()
    } else {
        walls_text(ps.drop_last()) + pair_text(ps.last())
    }
}

fn push_pair(s: &mut String, p: (i32, i32))
    ensures
        final(s)@ == old(s)@ + pair_text(p),
{
    push_char(s, '{');
    push_decimal(s, p.0);
    push_char(s, ',');
    push_decimal(s, p.1);
    push_char(s, '}');
    assert(s@ =~= old(s)@ + pair_text(p));
}

/// Whether the boards `a` and `b` differ: in the mouse's position or in a
/// cell of the matrix.
pub fn any_difference(a: &Board, b: &Board) -> (r: bool)
    ensures
        r == (a.mouse_pos != b.mouse_pos || exists|i: int, j: int|
            in_grid((i, j)) && #[trigger] a.prop(i, j) != b.prop(i, j)),
{
    if a.mouse_pos.0 != b.mouse_pos.0 || a.mouse_pos.1 != b.mouse_pos.1 {
        return true;
    }
    let mut i: usize = 0;
    while i < 15
        invariant
            i <= 15,
            forall|m: int, n: int| 0 <= m < i && 0 <= n < 15 ==> #[trigger] a.prop(m, n) == b.prop(m, n),
        decreases 15 - i,
    {
        let mut j: usize = 0;
        while j < 15
            invariant
                i < 15,
                j <= 15,
                forall|m: int, n: int|
                    0 <= m < i && 0 <= n < 15 ==> #[trigger] a.prop(m, n) == b.prop(m, n),
                forall|n: int| 0 <= n < j ==> #[trigger] a.prop(i as int, n) == b.prop(i as int, n),
            decreases 15 - j,
        {
            if a.get_prop(i, j) != b.get_prop(i, j) {
                assert(in_grid((i as int, j as int)));
                return true;
            }
            j = j + 1;
        }
        i = i + 1;
    }
    false
}

/// The state of the game on board `a`: 'M' when the mouse is out, '0' while
/// it can step to a free square in one of the directions 1 to 6, else 'W'.
pub fn gameboard_state(a: &Board) -> (r: char)
    requires
        a.state_ok(),
    ensures
        r == a.state_char(),
{
    let sor = a.mouse_pos;
    if is_mouse_out(sor) {
        return 'M';
    }
    let mut diri: i32 = 1;
    while diri < 7
        invariant
            1 <= diri <= 7,
            a.state_ok(),
            !mouse_out(a.mouse_pos),
            forall|d: int| 1 <= d < diri ==> !#[trigger] a.step_free(d),
        decreases 7 - diri,
    {
        proof {
            a.lemma_steps_in_grid(diri as int);
        }
        if a.test_move_mouse(diri) {
            return '0';
        }
        diri = diri + 1;
    }
    'W'
}

/// The positions of the walls in rows and columns 1 to 11, row by row and
/// left to right.
pub fn wall_position(a: &Board) -> (r: Vec<(i32, i32)>)
    ensures
        r@ == a.walls(),
{
    let mut wallpos: Vec<(i32, i32)> = Vec::new();
    let mut i: i32 = 1;
    while i < 12
        invariant
            1 <= i <= 12,
            wallpos@ == a.walls_upto((i - 1) as nat),
        decreases 12 - i,
    {
        let ghost before = wallpos@;
        let mut j: i32 = 1;
        while j < 12
            invariant
                1 <= j <= 12,
                1 <= i < 12,
                wallpos@ == before + a.row_walls(i as int, (j - 1) as nat),
            decreases 12 - j,
        {
            if a.get_prop(i as usize, j as usize) == Cellprop::Wall {
                let pereche = (i, j);
                wallpos.push(pereche);
            }
            assert(wallpos@ =~= before + a.row_walls(i as int, j as nat));
            j = j + 1;
        }
        assert(wallpos@ =~= a.walls_upto(i as nat));
        i = i + 1;
    }
    wallpos
}

/// The fields of `walls_text(ws)`: the two coordinates of each position.
pub open spec fn wall_fields(ws: Seq<(i32, i32)>) -> Seq<Seq<char>>
    decreases ws.len(),
{
    if ws.len() == 0 {
        Seq::empty()
    } else {
        wall_fields(ws.drop_last()) + seq![decimal(ws.last().0 as int), decimal(ws.last().1 as int)]
    }
}

proof fn lemma_decimal_no_sep(x: int)
    ensures
        decimal(x).len() > 0,
        forall|k: int| 0 <= k < decimal(x).len() ==> !brace_sep()(#[trigger] decimal(x)[k]),
{
    lemma_decimal_chars(x);
    assert forall|k: int| 0 <= k < decimal(x).len() implies !brace_sep()(#[trigger] decimal(x)[k]) by {
        assert(crate::text::is_digit(decimal(x)[k]) || decimal(x)[k] == '-');
    }
}

proof fn lemma_pair_split(p: (i32, i32))
    ensures
        split_state(pair_text(p), brace_sep()) == (
            seq![decimal(p.0 as int), decimal(p.1 as int)],
            Seq::<char>::empty(),
        ),
{
    let sep = brace_sep();
    let dx = decimal(p.0 as int);
    let dy = decimal(p.1 as int);
    lemma_decimal_no_sep(p.0 as int);
    lemma_decimal_no_sep(p.1 as int);
    lemma_split_sep('{', sep);
    lemma_split_closed(dx, ',', sep);
    lemma_split_closed(dy, '}', sep);
    lemma_split_append(dx.push(','), dy.push('}'), sep);
    let rest = dx.push(',') + dy.push('}');
    lemma_split_append(seq!['{'], rest, sep);
    assert(pair_text(p) =~= seq!['{'] + rest);
    assert(seq![dx] + seq![dy] =~= seq![dx, dy]);
    assert(Seq::<Seq<char>>::empty() + seq![dx, dy] =~= seq![dx, dy]);
}

proof fn lemma_walls_split(ws: Seq<(i32, i32)>)
    ensures
        split_state(walls_text(ws), brace_sep()) == (wall_fields(ws), Seq::<char>::empty()),
    decreases ws.len(),
{
    if ws.len() == 0 {
        assert(walls_text(ws) =~= Seq::<char>::empty());
    } else {
        lemma_walls_split(ws.drop_last());
        lemma_pair_split(ws.last());
        lemma_split_append(walls_text(ws.drop_last()), pair_text(ws.last()), brace_sep());
    }
}

#[verifier::spinoff_prover]
proof fn lemma_wall_fields_index(ws: Seq<(i32, i32)>)
    ensures
        wall_fields(ws).len() == 2 * ws.len(),
        forall|t: int|
            0 <= t < ws.len() ==> #[trigger] wall_fields(ws)[2 * t] == decimal(ws[t].0 as int)
                && wall_fields(ws)[2 * t + 1] == decimal(ws[t].1 as int),
    decreases ws.len(),
{
    if ws.len() > 0 {
        let u = ws.drop_last();
        lemma_wall_fields_index(u);
        let last = seq![decimal(ws.last().0 as int), decimal(ws.last().1 as int)];
        assert(wall_fields(ws) == wall_fields(u) + last);
        assert forall|t: int| 0 <= t < ws.len() implies #[trigger] wall_fields(ws)[2 * t] == decimal(
            ws[t].0 as int,
        ) && wall_fields(ws)[2 * t + 1] == decimal(ws[t].1 as int) by {
            if t < u.len() {
                assert(u[t] == ws[t]);
                assert(wall_fields(u)[2 * t] == decimal(u[t].0 as int));
                assert(wall_fields(u)[2 * t + 1] == decimal(u[t].1 as int));
            } else {
                assert(ws[t] == ws.last());
            }
        }
    }
}

/// The fields of the text that `translate_to_moves` writes: who moves, the
/// state, the mouse's two coordinates, then two for each wall.
proof fn lemma_moves_fields(b: Board, who: char, if_failed: bool)
    requires
        !brace_sep()(who),
    ensures
        ({
            let st = b.state_char();
            let shown = if st != 'M' && st != 'W' && if_failed {
                'F'
            } else {
                st
            };
            fields(b.moves_text(who, if_failed)) == seq![
                seq![who],
                seq![shown],
                decimal(b.mouse_pos.0 as int),
                decimal(b.mouse_pos.1 as int),
            ] + wall_fields(b.walls())
        }),
{
    let sep = brace_sep();
    let st = b.state_char();
    let shown = if st != 'M' && st != 'W' && if_failed {
        'F'
    } else {
        st
    };
    let head = seq!['{', who, '}', '{', shown, '}'];
    let h2 = seq!['{'] + seq![shown].push('}');
    let h1 = seq![who].push('}') + h2;
    assert(head =~= seq!['{'] + h1);
    lemma_split_sep('{', sep);
    lemma_split_closed(seq![shown], '}', sep);
    lemma_split_append(seq!['{'], seq![shown].push('}'), sep);
    lemma_split_closed(seq![who], '}', sep);
    lemma_split_append(seq![who].push('}'), h2, sep);
    lemma_split_append(seq!['{'], h1, sep);
    let hs = seq![seq![who], seq![shown]];
    assert(split_state(head, sep) == (hs, Seq::<char>::empty())) by {
        assert(Seq::<Seq<char>>::empty() + seq![seq![shown]] =~= seq![seq![shown]]);
        assert(seq![seq![who]] + seq![seq![shown]] =~= hs);
        assert(Seq::<Seq<char>>::empty() + hs =~= hs);
    }
    let p = b.mouse_pos;
    lemma_pair_split(p);
    lemma_walls_split(b.walls());
    lemma_split_append(head, pair_text(p), sep);
    lemma_split_append(head + pair_text(p), walls_text(b.walls()), sep);
    assert(b.moves_text(who, if_failed) =~= head + pair_text(p) + walls_text(b.walls()));
    assert(hs + seq![decimal(p.0 as int), decimal(p.1 as int)] + wall_fields(b.walls()) =~= seq![
        seq![who],
        seq![shown],
        decimal(p.0 as int),
        decimal(p.1 as int),
    ] + wall_fields(b.walls()));
}

/// What `translate_to_board` reads from the text that `translate_to_moves`
/// writes is the board that was written: the mouse's position and every cell
/// of the field. This holds of a well-formed board whose mouse is in the
/// field (as play keeps it), where the mover's character is not a brace or a
/// comma; `digits_numeric()` (which `check_digits_numeric` establishes) says
/// that `str_to_int` counts the decimal digits.
pub proof fn lemma_moves_read_back(b: Board, who: char, if_failed: bool)
    requires
        digits_numeric(),
        b.wf(),
        in_field((b.mouse_pos.0 as int, b.mouse_pos.1 as int)),
        !brace_sep()(who),
    ensures
        ({
            let fs = fields(b.moves_text(who, if_failed));
            &&& fields_readable(fs)
            &&& read_mouse(fs, fs.len() as int) == b.mouse_pos
            &&& forall|i: int, j: int|
                in_field((i, j)) ==> #[trigger] read_cell(fs, fs.len() as int, i, j) == b.prop(i, j)
        }),
{
    let fs = fields(b.moves_text(who, if_failed));
    let ws = b.walls();
    lemma_moves_fields(b, who, if_failed);
    lemma_wall_fields_index(ws);
    let m = b.mouse_pos;
    lemma_str_to_int_reads_decimal(m.0 as nat);
    lemma_str_to_int_reads_decimal(m.1 as nat);
    assert(fs[2] == decimal(m.0 as int));
    assert(fs[3] == decimal(m.1 as int));
    assert(decimal(m.0 as int) == decimal_nat(m.0 as nat));
    assert(decimal(m.1 as int) == decimal_nat(m.1 as nat));
    assert(sent_mouse(fs) == (m.0 as int, m.1 as int));
    assert(mouse_placed(fs));
    // Each wall lies in the field, so its coordinates are positive.
    assert forall|t: int| 0 <= t < ws.len() implies 1 <= #[trigger] ws[t].0 <= 11 && 1 <= ws[t].1
        <= 11 && b.prop(ws[t].0 as int, ws[t].1 as int) == Cellprop::Wall by {
        assert(ws.contains(ws[t]));
        lemma_walls_listed(b, ws[t].0, ws[t].1);
    }
    assert forall|t: int| 0 <= t < ws.len() implies #[trigger] field_num(fs, 4 + 2 * t)
        == ws[t].0 && field_num(fs, 5 + 2 * t) == ws[t].1 && numeric_bytes_ok(fs[4 + 2 * t])
        && numeric_value(fs[4 + 2 * t]) <= i32::MAX && numeric_bytes_ok(fs[5 + 2 * t])
        && numeric_value(fs[5 + 2 * t]) <= i32::MAX by {
        assert(fs[4 + 2 * t] == wall_fields(ws)[2 * t]);
        assert(fs[5 + 2 * t] == wall_fields(ws)[2 * t + 1]);
        assert(1 <= ws[t].0 && 1 <= ws[t].1);
        lemma_str_to_int_reads_decimal(ws[t].0 as nat);
        lemma_str_to_int_reads_decimal(ws[t].1 as nat);
        assert(decimal(ws[t].0 as int) == decimal_nat(ws[t].0 as nat));
        assert(decimal(ws[t].1 as int) == decimal_nat(ws[t].1 as nat));
    }
    assert forall|k: int| 2 <= k < fs.len() implies numeric_bytes_ok(#[trigger] fs[k])
        && numeric_value(fs[k]) <= i32::MAX by {
        if k >= 4 {
            let t = (k - 4) / 2;
            if k % 2 == 0 {
                assert(k == 4 + 2 * t);
                assert(field_num(fs, 4 + 2 * t) == ws[t].0);
            } else {
                assert(k == 5 + 2 * t);
                assert(field_num(fs, 4 + 2 * t) == ws[t].0);
            }
        }
    }
    assert forall|i: int, j: int| in_field((i, j)) implies #[trigger] read_cell(
        fs,
        fs.len() as int,
        i,
        j,
    ) == b.prop(i, j) by {
        if (i, j) == (m.0 as int, m.1 as int) {
        } else {
            lemma_walls_listed(b, i as i32, j as i32);
            if b.prop(i, j) == Cellprop::Wall {
                let t = choose|t: int| 0 <= t < ws.len() && ws[t] == (i as i32, j as i32);
                assert(field_num(fs, 4 + 2 * t) == ws[t].0);
                assert(field_num(fs, (5 + 2 * t) - 1) == i);
                assert(wall_sent(fs, fs.len() as int, i, j));
            } else {
                if wall_sent(fs, fs.len() as int, i, j) {
                    let k = choose|k: int|
                        5 <= k < fs.len() && k % 2 == 1 && #[trigger] field_num(fs, k - 1) == i
                            && field_num(fs, k) == j;
                    let t = (k - 5) / 2;
                    assert(k == 5 + 2 * t);
                    assert(field_num(fs, 4 + 2 * t) == ws[t].0);
                    assert(ws[t] == (i as i32, j as i32));
                    assert(ws.contains((i as i32, j as i32)));
                }
            }
        }
    }
}

} // verus!
