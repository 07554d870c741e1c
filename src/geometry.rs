//! Conversions between a linear cell index and its row and column.
use vstd::prelude::*;

verus! {

/// Coordinates consisting of row and column.
#[derive(Clone, Copy, Debug, PartialEq, Eq, Hash)]
pub struct Coords<T> {
    pub row: T,
    pub col: T,
}

/// The row of cell `idx` on a board `width` cells wide.
pub open spec fn row_of(idx: int, width: int) -> int {
    idx / width
}

/// The column of cell `idx` on a board `width` cells wide.
pub open spec fn col_of(idx: int, width: int) -> int {
    idx % width
}

/// Whether `(row, col)` lies on a board of `width` columns and `height` rows.
pub open spec fn on_board(row: int, col: int, width: int, height: int) -> bool {
    0 <= row < height && 0 <= col < width
}

/// Get the left/top coordinates based on the index of a board field.
pub fn get_left_top(idx: usize, width: usize, unit_size: usize) -> (r: (usize, usize))
    requires
        width > 0,
        col_of(idx as int, width as int) * unit_size <= usize::MAX,
        row_of(idx as int, width as int) * unit_size <= usize::MAX,
    ensures
        r.0 == col_of(idx as int, width as int) * unit_size,
        r.1 == row_of(idx as int, width as int) * unit_size,
{
    let (row, col) = get_row_col_from_idx(idx, width);
    let left = col * unit_size;
    let top = row * unit_size;
    (left, top)
}

/// Get the row/column coordinates for a linear array representing a board.
pub fn get_row_col_from_idx(idx: usize, width: usize) -> (r: (usize, usize))
    requires
        width > 0,
    ensures
        r.0 == row_of(idx as int, width as int),
        r.1 == col_of(idx as int, width as int),
{
    let row = idx / width;
    let col = idx % width;
    (row, col)
}

/// Get the index into a linear array based on row/column coordinates.
pub fn get_idx_from_row_col(row: usize, col: usize, width: usize) -> (r: usize)
    requires
        row * width + col <= usize::MAX,
    ensures
        r == row * width + col,
{
    proof {
        assert(0 <= row * width <= row * width + col) by (nonlinear_arith);
    }
    row * width + col
}

/// Get the coordinates matching an index.
pub fn get_coords_from_idx(idx: usize, width: usize) -> (r: Coords<usize>)
    requires
        width > 0,
    ensures
        r.row == row_of(idx as int, width as int),
        r.col == col_of(idx as int, width as int),
{
    let (row, col) = get_row_col_from_idx(idx, width);
    Coords { row, col }
}

/// Get the index matching a coordinate pair.
pub fn get_idx_from_coords(coords: Coords<usize>, width: usize) -> (r: usize)
    requires
        coords.row * width + coords.col <= usize::MAX,
    ensures
        r == coords.row * width + coords.col,
{
    get_idx_from_row_col(coords.row, coords.col, width)
}

/// Check if row/column coordinates are within a field defined by width/height.
pub fn in_bounds(row: isize, col: isize, width: isize, height: isize) -> (r: bool)
    ensures
        r == on_board(row as int, col as int, width as int, height as int),
{
    0 <= row && row < height && 0 <= col && col < width
}

/// Converting an index to coordinates and back gives the index.
pub proof fn lemma_coords_round_trip(idx: int, width: int)
    requires
        0 <= idx,
        0 < width,
    ensures
        row_of(idx, width) * width + col_of(idx, width) == idx,
        0 <= col_of(idx, width) < width,
        0 <= row_of(idx, width),
{
    vstd::arithmetic::div_mod::lemma_fundamental_div_mod(idx, width);
    vstd::arithmetic::div_mod::lemma_div_pos_is_pos(idx, width);
    vstd::arithmetic::div_mod::lemma_mod_bound(idx, width);
    assert(row_of(idx, width) * width == width * (idx / width)) by (nonlinear_arith);
}

} // verus!
