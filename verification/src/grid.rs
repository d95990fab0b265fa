use vstd::prelude::*;

verus! {

/// Row change of one step in direction `dir`. The directions are numbered 0
/// to 6 as in the game's step table; direction 0 stands still.
pub open spec fn row_step(dir: int) -> int {
    seq![0int, -1, -1, 0, 1, 1, 0][dir]
}

/// Column change of one step in direction `dir` from a cell in row `row`: on
/// the hexagonal board, even and odd rows are shifted against each other.
pub open spec fn col_step(row: int, dir: int) -> int {
    if row % 2 == 0 {
        seq![0int, 0, 1, 1, 1, 0, -1][dir]
    } else {
        seq![0int, -1, 0, 1, 0, -1, -1][dir]
    }
}

/// The cell that one step in direction `dir` from `pos` reaches.
pub open spec fn target(pos: (i32, i32), dir: int) -> (int, int) {
    (pos.0 + row_step(dir), pos.1 + col_step(pos.0 as int, dir))
}

/// A valid direction number.
pub open spec fn valid_dir(dir: int) -> bool {
    0 <= dir < 7
}

/// A position inside the 15 x 15 cell matrix.
pub open spec fn in_grid(p: (int, int)) -> bool {
    0 <= p.0 < 15 && 0 <= p.1 < 15
}

/// A position of the playing field, rows and columns 1 to 11.
pub open spec fn in_field(p: (int, int)) -> bool {
    1 <= p.0 <= 11 && 1 <= p.1 <= 11
}

/// Both coordinates of `p` fit in an `i32`.
pub open spec fn fits_i32(p: (int, int)) -> bool {
    i32::MIN <= p.0 <= i32::MAX && i32::MIN <= p.1 <= i32::MAX
}

/// The product of the two coordinates fits in an `i32`.
pub open spec fn product_fits(p: (i32, i32)) -> bool {
    i32::MIN <= p.0 * p.1 <= i32::MAX
}

/// The mouse at `p` has reached the border: a coordinate is 0, or one is
/// beyond 11.
pub open spec fn mouse_out(p: (i32, i32)) -> bool {
    p.0 * p.1 == 0 || p.0 > 11 || p.1 > 11
}

/// The position one step in direction `dir` from `pos`, in wide integers.
pub fn target_of(pos: (i32, i32), dir: i32) -> (t: (i64, i64))
    requires
        valid_dir(dir as int),
    ensures
        t.0 == target(pos, dir as int).0,
        t.1 == target(pos, dir as int).1,
{
    let dx: [i64; 7] = [0, -1, -1, 0, 1, 1, 0];
    let dy: [i64; 7] = if pos.0 % 2 == 0 {
        [0, 0, 1, 1, 1, 0, -1]
    } else {
        [0, -1, 0, 1, 0, -1, -1]
    };
    let d = dir as usize;
    (pos.0 as i64 + dx[d], pos.1 as i64 + dy[d])
}

/// Whether the mouse at `p` has reached the border.
pub fn is_mouse_out(p: (i32, i32)) -> (r: bool)
    requires
        product_fits(p),
    ensures
        r == mouse_out(p),
{
    p.0 * p.1 == 0 || p.0 > 11 || p.1 > 11
}


/// `q` is one of the six cells around `p` on the hexagonal board, where odd
/// rows sit half a cell to the left of even rows.
pub open spec fn hex_neighbour(p: (int, int), q: (int, int)) -> bool {
    let (r, c) = p;
    if r % 2 == 0 {
        ||| q == (r - 1, c)
        ||| q == (r - 1, c + 1)
        ||| q == (r, c + 1)
        ||| q == (r + 1, c + 1)
        ||| q == (r + 1, c)
        ||| q == (r, c - 1)
    } else {
        ||| q == (r - 1, c - 1)
        ||| q == (r - 1, c)
        ||| q == (r, c + 1)
        ||| q == (r + 1, c)
        ||| q == (r + 1, c - 1)
        ||| q == (r, c - 1)
    }
}

/// The direction that leads back: 1 and 4, 2 and 5, 3 and 6 are opposite.
pub open spec fn opposite(dir: int) -> int {
    (dir + 2) % 6 + 1
}

/// Each of the six directions leads to one of the six neighbours of the
/// cell, and no two directions lead to the same one.
pub proof fn lemma_step_reaches_neighbour(pos: (i32, i32), d1: int, d2: int)
    requires
        1 <= d1 <= 6,
        1 <= d2 <= 6,
    ensures
        hex_neighbour((pos.0 as int, pos.1 as int), target(pos, d1)),
        d1 != d2 ==> target(pos, d1) != target(pos, d2),
{
}

/// A step in a direction followed by a step in the opposite direction comes
/// back to the starting cell.
pub proof fn lemma_step_back(pos: (i32, i32), dir: int)
    requires
        1 <= dir <= 6,
        fits_i32(target(pos, dir)),
    ensures
        ({
            let t = target(pos, dir);
            target((t.0 as i32, t.1 as i32), opposite(dir)) == (pos.0 as int, pos.1 as int)
        }),
{
    let r = pos.0 as int;
    assert((r - 1) % 2 != r % 2 && (r + 1) % 2 != r % 2);
    assert(r % 2 == 0 || r % 2 == 1);
    assert((r - 1) % 2 == 0 || (r - 1) % 2 == 1);
    assert((r + 1) % 2 == 0 || (r + 1) % 2 == 1);
}

/// The mouse has reached the border exactly where a coordinate is 0 or beyond
/// 11; the rows and the columns are treated alike.
pub proof fn lemma_mouse_out_at_border(p: (i32, i32))
    ensures
        mouse_out(p) <==> (p.0 == 0 || p.1 == 0 || p.0 > 11 || p.1 > 11),
        mouse_out(p) == mouse_out((p.1, p.0)),
        in_field((p.0 as int, p.1 as int)) ==> !mouse_out(p),
{
    assert((p.0 * p.1 == 0) <==> (p.0 == 0 || p.1 == 0)) by (nonlinear_arith);
    assert(p.0 * p.1 == p.1 * p.0) by (nonlinear_arith);
}

} // verus!
