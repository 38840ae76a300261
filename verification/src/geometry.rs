//! Board coordinates, directions and distances.

use vstd::prelude::*;

verus! {

broadcast use vstd::array::group_array_axioms;

/// Size of the snake board, in cells.
pub const SNAKE_GRID_SIZE: [u32; 2] = [30, 30];

/// Size of the snake board, in cells, as signed coordinates.
pub const SNAKE_GRID_SIZE_I32: [i32; 2] = [30, 30];

/// One step to the right.
pub const SNAKE_DIR_RIGHT: [i32; 2] = [1, 0];

/// One step to the left.
pub const SNAKE_DIR_LEFT: [i32; 2] = [-1, 0];

/// One step up (towards smaller `y`).
pub const SNAKE_DIR_UP: [i32; 2] = [0, -1];

/// One step down (towards larger `y`).
pub const SNAKE_DIR_DOWN: [i32; 2] = [0, 1];

/// A cell of the board, or a vector between cells.
pub type Pos = [i32; 2];

/// `a + b` fits in `i32` componentwise.
pub open spec fn sum_fits(a: Pos, b: Pos) -> bool {
    &&& i32::MIN <= a[0] + b[0] <= i32::MAX
    &&& i32::MIN <= a[1] + b[1] <= i32::MAX
}

/// The cell reached from `a` by the vector `b`.
pub open spec fn spec_add(a: Pos, b: Pos) -> Pos {
    [(a[0] + b[0]) as i32, (a[1] + b[1]) as i32]
}

/// Is `p` a cell of the board?
pub open spec fn in_grid(p: Pos) -> bool {
    0 <= p[0] < 30 && 0 <= p[1] < 30
}

/// The squared euclidean distance between two cells.
pub open spec fn sq_dist(a: Pos, b: Pos) -> int {
    (a[0] - b[0]) * (a[0] - b[0]) + (a[1] - b[1]) * (a[1] - b[1])
}

/// Is `v` one of the four unit directions or the null vector?
pub open spec fn is_step(v: Pos) -> bool {
    -1 <= v[0] <= 1 && -1 <= v[1] <= 1 && (v[0] == 0 || v[1] == 0)
}

/// Is `p` a cell of the board?
pub fn on_board(p: &[i32; 2]) -> (r: bool)
    ensures
        r == in_grid(*p),
{
    0 <= p[0] && p[0] < SNAKE_GRID_SIZE_I32[0] && 0 <= p[1] && p[1] < SNAKE_GRID_SIZE_I32[1]
}

/// Componentwise sum of two cells.
pub fn add_arrays(a: [i32; 2], b: [i32; 2]) -> (r: [i32; 2])
    requires
        sum_fits(a, b),
    ensures
        r == spec_add(a, b),
        r[0] == a[0] + b[0],
        r[1] == a[1] + b[1],
{
    let r = [a[0] + b[0], a[1] + b[1]];
    assert(r =~= spec_add(a, b));
    r
}

/// Do two cells coincide?
pub fn same_pos(a: &[i32; 2], b: &[i32; 2]) -> (r: bool)
    ensures
        r == (*a == *b),
{
    if a[0] == b[0] && a[1] == b[1] {
        assert(*a =~= *b);
        true
    } else {
        false
    }
}

/// The squared euclidean distance between two cells, which orders cells by
/// their distance exactly as the distance itself does.
pub fn squared_distance(a: [i32; 2], b: [i32; 2]) -> (d: i128)
    ensures
        d == sq_dist(a, b),
{
    let dx: i128 = a[0] as i128 - b[0] as i128;
    let dy: i128 = a[1] as i128 - b[1] as i128;
    assert(0 <= dx * dx <= 0x1_0000_0000_0000_0000) by (nonlinear_arith)
        requires
            -0x1_0000_0000 <= dx <= 0x1_0000_0000,
    ;
    assert(0 <= dy * dy <= 0x1_0000_0000_0000_0000) by (nonlinear_arith)
        requires
            -0x1_0000_0000 <= dy <= 0x1_0000_0000,
    ;
    dx * dx + dy * dy
}

} // verus!
