//! Board states, the moves next to the empty cell, and clicks on a cell.
use vstd::prelude::*;
use crate::error::PuzzleError;
use crate::geometry::{col_of, lemma_coords_round_trip, on_board, row_of};

verus! {

/// The value that marks the empty cell.
pub const SENTINEL: u8 = 255;

/// Dimensions that a board can have: at least one row and one column, and
/// no more cells than tile ids and the empty marker can name.
pub open spec fn valid_dims(width: int, height: int) -> bool {
    width > 0 && height > 0 && width * height <= 256
}

/// Whether `v` may stand on a board of `n` cells: a tile `0 .. n-2` or the
/// empty marker.
pub open spec fn is_tile_value(n: int, v: u8) -> bool {
    (v as int) < n - 1 || v == SENTINEL
}

/// A board of `n` cells: each tile `0 .. n-2` and the empty marker, each once.
pub open spec fn valid_board(s: Seq<u8>, n: int) -> bool {
    &&& s.len() == n
    &&& forall|i: int| 0 <= i < s.len() ==> is_tile_value(n, #[trigger] s[i])
    &&& forall|i: int, j: int| #![trigger s[i], s[j]] 0 <= i < j < s.len() ==> s[i] != s[j]
    &&& forall|v: u8| #[trigger] is_tile_value(n, v) ==> s.contains(v)
}

/// The solved board of `n` cells: tile `k` at index `k`, the empty cell last.
pub open spec fn solved_board(n: int) -> Seq<u8> {
    Seq::new(n as nat, |i: int| if i == n - 1 { SENTINEL } else { i as u8 })
}

/// A board has at least one cell.
pub proof fn lemma_board_has_cells(width: int, height: int)
    requires
        valid_dims(width, height),
    ensures
        width * height >= 1,
{
    assert(width * height >= 1) by (nonlinear_arith)
        requires
            width > 0,
            height > 0,
    ;
}

/// The index of `(row, col)` as a one-element list if it lies on the board,
/// else the empty list.
pub open spec fn cell_at(width: int, height: int, row: int, col: int) -> Seq<usize> {
    if on_board(row, col, width, height) {
        seq![(row * width + col) as usize]
    } else {
        seq![]
    }
}

/// The cells next to `idx` that lie on the board, in the order up, down,
/// left, right.
pub open spec fn neighbors(width: int, height: int, idx: int) -> Seq<usize> {
    let row = row_of(idx, width);
    let col = col_of(idx, width);
    cell_at(width, height, row - 1, col) + cell_at(width, height, row + 1, col) + cell_at(
        width,
        height,
        row,
        col - 1,
    ) + cell_at(width, height, row, col + 1)
}

/// `s` with the contents of cells `a` and `b` exchanged.
pub open spec fn swap_cells(s: Seq<u8>, a: int, b: int) -> Seq<u8> {
    s.update(a, s[b]).update(b, s[a])
}

/// A move `(a, b)` is legal on `s` when `a` holds the empty marker and `b`
/// is next to it.
pub open spec fn legal_move(s: Seq<u8>, width: int, height: int, m: (usize, usize)) -> bool {
    &&& m.0 < s.len()
    &&& m.1 < s.len()
    &&& s[m.0 as int] == SENTINEL
    &&& neighbors(width, height, m.0 as int).contains(m.1)
}

/// The board after the moves of `ms`, in order.
pub open spec fn apply_moves(s: Seq<u8>, ms: Seq<(usize, usize)>) -> Seq<u8>
    decreases ms.len(),
{
    if ms.len() == 0 {
        s
    } else {
        apply_moves(swap_cells(s, ms[0].0 as int, ms[0].1 as int), ms.drop_first())
    }
}

/// Each move of `ms` is legal on the board left by the moves before it.
pub open spec fn legal_moves(s: Seq<u8>, width: int, height: int, ms: Seq<(usize, usize)>) -> bool
    decreases ms.len(),
{
    ms.len() == 0 || (legal_move(s, width, height, ms[0]) && legal_moves(
        swap_cells(s, ms[0].0 as int, ms[0].1 as int),
        width,
        height,
        ms.drop_first(),
    ))
}

/// Some sequence of legal moves leads from `s` to the solved board.
pub open spec fn solvable(s: Seq<u8>, width: int, height: int) -> bool {
    exists|ms: Seq<(usize, usize)>|
        legal_moves(s, width, height, ms) && #[trigger] apply_moves(s, ms) == solved_board(
            s.len() as int,
        )
}

/// The moves that take back `ms`: each one reversed, last first.
pub open spec fn undo_moves(ms: Seq<(usize, usize)>) -> Seq<(usize, usize)> {
    Seq::new(ms.len(), |i: int| (ms[ms.len() - 1 - i].1, ms[ms.len() - 1 - i].0))
}

/// The first of `cells` that holds the empty marker on `s`.
pub open spec fn first_holding_sentinel(s: Seq<u8>, cells: Seq<usize>) -> Option<usize>
    decreases cells.len(),
{
    if cells.len() == 0 {
        None
    } else if cells[0] < s.len() && s[cells[0] as int] == SENTINEL {
        Some(cells[0])
    } else {
        first_holding_sentinel(s, cells.drop_first())
    }
}

/// The board after a click on cell `c`: the clicked tile slides into the
/// empty cell if that is next to it; otherwise nothing changes.
pub open spec fn click_result(s: Seq<u8>, width: int, height: int, c: int) -> Seq<u8> {
    if !valid_dims(width, height) || c < 0 || c >= s.len() || s[c] == SENTINEL {
        s
    } else {
        match first_holding_sentinel(s, neighbors(width, height, c)) {
            Some(e) => swap_cells(s, c, e as int),
            None => s,
        }
    }
}

/// The arithmetic behind the four neighbours of `idx`.
pub(crate) proof fn lemma_neighbor_arith(width: int, height: int, idx: int)
    requires
        valid_dims(width, height),
        0 <= idx,
    ensures
        ({
            let row = row_of(idx, width);
            let col = col_of(idx, width);
            &&& row * width + col == idx
            &&& 0 <= col < width
            &&& 0 <= row
            &&& (row - 1) * width + col == idx - width
            &&& (row + 1) * width + col == idx + width
            &&& row < height ==> idx < width * height
            &&& row + 1 < height ==> idx + width < width * height
        }),
{
    lemma_coords_round_trip(idx, width);
    let row = row_of(idx, width);
    let col = col_of(idx, width);
    assert((row - 1) * width == row * width - width) by (nonlinear_arith);
    assert((row + 1) * width == row * width + width) by (nonlinear_arith);
    if row < height {
        assert(row * width <= (height - 1) * width) by (nonlinear_arith)
            requires
                row < height,
                width > 0,
        ;
        assert((height - 1) * width == width * height - width) by (nonlinear_arith);
    }
    if row + 1 < height {
        assert((row + 1) * width <= (height - 1) * width) by (nonlinear_arith)
            requires
                row + 1 < height,
                width > 0,
        ;
        assert((height - 1) * width == width * height - width) by (nonlinear_arith);
    }
}

/// The cells next to `idx`, in the order up, down, left, right.
pub(crate) fn neighbours_of(width: usize, height: usize, idx: usize) -> (r: Vec<usize>)
    requires
        valid_dims(width as int, height as int),
    ensures
        r@ == neighbors(width as int, height as int, idx as int),
{
    let row = idx / width;
    let col = idx % width;
    proof {
        lemma_neighbor_arith(width as int, height as int, idx as int);
    }
    let ghost w = width as int;
    let ghost h = height as int;
    let mut r: Vec<usize> = Vec::new();
    if row >= 1 && row - 1 < height {
        r.push(idx - width);
    }
    assert(r@ =~= cell_at(w, h, row - 1, col as int));
    let ghost up = r@;
    if row < height - 1 {
        r.push(idx + width);
    }
    assert(r@ =~= up + cell_at(w, h, row + 1, col as int));
    let ghost up_down = r@;
    if col >= 1 && row < height {
        r.push(idx - 1);
    }
    assert(r@ =~= up_down + cell_at(w, h, row as int, col - 1));
    let ghost three = r@;
    if col + 1 < width && row < height {
        r.push(idx + 1);
    }
    assert(r@ =~= three + cell_at(w, h, row as int, col + 1));
    r
}

/// Whether `width` and `height` are dimensions that a board can have.
pub(crate) fn dims_ok(width: usize, height: usize) -> (r: bool)
    ensures
        r == valid_dims(width as int, height as int),
{
    if width == 0 || height == 0 || width > 256 || height > 256 {
        proof {
            if width > 256 && height > 0 {
                assert(width * height >= width) by (nonlinear_arith)
                    requires
                        height > 0,
                ;
            }
            if height > 256 && width > 0 {
                assert(width * height >= height) by (nonlinear_arith)
                    requires
                        width > 0,
                ;
            }
        }
        return false;
    }
    assert(width * height <= 256 * 256) by (nonlinear_arith)
        requires
            width <= 256,
            height <= 256,
    ;
    width * height <= 256
}

/// Get the indices of neighbours that can be swapped with the empty field,
/// in the order up, down, left, right.
pub fn get_swappable_neighbours(width: usize, height: usize, empty_field_idx: usize) -> (r: Result<
    Vec<usize>,
    PuzzleError,
>)
    ensures
        valid_dims(width as int, height as int) <==> r is Ok,
        !valid_dims(width as int, height as int) <==> r == Err::<Vec<usize>, PuzzleError>(
            PuzzleError::InvalidDimensions,
        ),
        r is Ok ==> r->Ok_0@ == neighbors(width as int, height as int, empty_field_idx as int),
{
    if !dims_ok(width, height) {
        return Err(PuzzleError::InvalidDimensions);
    }
    Ok(neighbours_of(width, height, empty_field_idx))
}

/// Initialize fields as the solved board of `num_elements` cells.
pub fn initialize_fields(num_elements: usize) -> (r: Vec<u8>)
    requires
        1 <= num_elements <= 256,
    ensures
        r@ == solved_board(num_elements as int),
{
    let mut fields: Vec<u8> = Vec::new();
    let mut i: usize = 0;
    while i + 1 < num_elements
        invariant
            1 <= num_elements <= 256,
            i + 1 <= num_elements,
            fields@ =~= Seq::new(i as nat, |k: int| k as u8),
        decreases num_elements - i,
    {
        fields.push(i as u8);
        i = i + 1;
    }
    fields.push(SENTINEL);
    assert(fields@ =~= solved_board(num_elements as int));
    fields
}

/// Get the index of the first occurrence of a value in a slice.
pub fn get_idx_of_val(slice: &[u8], value: u8) -> (r: Result<usize, PuzzleError>)
    ensures
        !slice@.contains(value) <==> r == Err::<usize, PuzzleError>(PuzzleError::ValueNotFound),
        slice@.contains(value) <==> r is Ok,
        r is Ok ==> ({
            let i = r->Ok_0;
            &&& i < slice@.len()
            &&& slice@[i as int] == value
            &&& forall|k: int| 0 <= k < i ==> slice@[k] != value
        }),
{
    let mut i: usize = 0;
    while i < slice.len()
        invariant
            i <= slice@.len(),
            forall|k: int| 0 <= k < i ==> slice@[k] != value,
        decreases slice@.len() - i,
    {
        if slice[i] == value {
            return Ok(i);
        }
        i = i + 1;
    }
    Err(PuzzleError::ValueNotFound)
}

/// A fresh vector holding the cells of `s`.
pub(crate) fn copy_tiles(s: &[u8]) -> (r: Vec<u8>)
    ensures
        r@ == s@,
{
    let mut r: Vec<u8> = Vec::with_capacity(s.len());
    let mut i: usize = 0;
    while i < s.len()
        invariant
            i <= s@.len(),
            r@ =~= s@.take(i as int),
        decreases s@.len() - i,
    {
        r.push(s[i]);
        i = i + 1;
    }
    assert(r@ =~= s@);
    r
}

/// Slide the clicked tile into the empty cell if the empty cell is next to
/// it. A click on the empty cell, on a tile with no empty neighbour, on an
/// index off the board, or on a board of impossible dimensions changes
/// nothing.
pub fn trigger_field(fields: &[u8], width: usize, height: usize, clicked_idx: usize) -> (r: Vec<
    u8,
>)
    ensures
        r@ == click_result(fields@, width as int, height as int, clicked_idx as int),
{
    let mut out = copy_tiles(fields);
    if !dims_ok(width, height) || clicked_idx >= fields.len() || fields[clicked_idx] == SENTINEL {
        return out;
    }
    let nbs = neighbours_of(width, height, clicked_idx);
    let mut k: usize = 0;
    assert(nbs@.skip(0) =~= nbs@);
    while k < nbs.len()
        invariant
            0 <= k <= nbs@.len(),
            out@ == fields@,
            clicked_idx < fields@.len(),
            fields@[clicked_idx as int] != SENTINEL,
            valid_dims(width as int, height as int),
            nbs@ == neighbors(width as int, height as int, clicked_idx as int),
            first_holding_sentinel(fields@, nbs@) == first_holding_sentinel(
                fields@,
                nbs@.skip(k as int),
            ),
        decreases nbs@.len() - k,
    {
        let nb = nbs[k];
        assert(nbs@.skip(k as int)[0] == nb);
        if nb < fields.len() && fields[nb] == SENTINEL {
            let tile = fields[clicked_idx];
            out.set(clicked_idx, SENTINEL);
            out.set(nb, tile);
            assert(out@ =~= swap_cells(fields@, clicked_idx as int, nb as int));
            assert(first_holding_sentinel(fields@, nbs@.skip(k as int)) == Some(nb));
            return out;
        }
        assert(nbs@.skip(k as int).drop_first() =~= nbs@.skip(k + 1));
        k = k + 1;
    }
    out
}

/// A cell on the board has an index below `width * height`.
pub(crate) proof fn lemma_cell_index_range(width: int, height: int, row: int, col: int)
    requires
        valid_dims(width, height),
    ensures
        on_board(row, col, width, height) ==> 0 <= row * width + col < width * height,
{
    if on_board(row, col, width, height) {
        lemma_cell_index_bound(width, height, row, col);
    }
}

proof fn lemma_cell_index_bound(width: int, height: int, row: int, col: int)
    requires
        valid_dims(width, height),
        on_board(row, col, width, height),
    ensures
        0 <= row * width + col < width * height,
{
    assert(0 <= row * width <= (height - 1) * width) by (nonlinear_arith)
        requires
            0 <= row < height,
            width > 0,
    ;
    assert((height - 1) * width == width * height - width) by (nonlinear_arith);
}

/// Every neighbour of a cell lies on the board.
pub proof fn lemma_neighbors_on_board(width: int, height: int, idx: int)
    requires
        valid_dims(width, height),
        0 <= idx,
    ensures
        forall|k: int|
            0 <= k < neighbors(width, height, idx).len() ==> #[trigger] neighbors(
                width,
                height,
                idx,
            )[k] < width * height,
{
    lemma_neighbor_arith(width, height, idx);
    let row = row_of(idx, width);
    let col = col_of(idx, width);
    lemma_cell_index_range(width, height, row - 1, col);
    lemma_cell_index_range(width, height, row + 1, col);
    lemma_cell_index_range(width, height, row, col - 1);
    lemma_cell_index_range(width, height, row, col + 1);
    assert forall|k: int|
        0 <= k < neighbors(width, height, idx).len() implies #[trigger] neighbors(
        width,
        height,
        idx,
    )[k] < width * height by {
        let x = neighbors(width, height, idx)[k];
        lemma_neighbors_member(width, height, idx, x);
    }
}

/// What it means for `x` to be among the neighbours of `idx`.
pub(crate) proof fn lemma_neighbors_member(width: int, height: int, idx: int, x: usize)
    requires
        valid_dims(width, height),
        0 <= idx,
    ensures
        ({
            let row = row_of(idx, width);
            let col = col_of(idx, width);
            neighbors(width, height, idx).contains(x) <==> {
                ||| on_board(row - 1, col, width, height) && x == idx - width
                ||| on_board(row + 1, col, width, height) && x == idx + width
                ||| on_board(row, col - 1, width, height) && x == idx - 1
                ||| on_board(row, col + 1, width, height) && x == idx + 1
            }
        }),
{
    lemma_neighbor_arith(width, height, idx);
    let row = row_of(idx, width);
    let col = col_of(idx, width);
    lemma_cell_index_range(width, height, row - 1, col);
    lemma_cell_index_range(width, height, row + 1, col);
    lemma_cell_index_range(width, height, row, col - 1);
    lemma_cell_index_range(width, height, row, col + 1);
    let c1 = cell_at(width, height, row - 1, col);
    let c2 = cell_at(width, height, row + 1, col);
    let c3 = cell_at(width, height, row, col - 1);
    let c4 = cell_at(width, height, row, col + 1);
    let all = neighbors(width, height, idx);
    assert(all == c1 + c2 + c3 + c4);
    if on_board(row - 1, col, width, height) && x == idx - width {
        assert(all[0] == x);
    }
    if on_board(row + 1, col, width, height) && x == idx + width {
        assert(all[c1.len() as int] == x);
    }
    if on_board(row, col - 1, width, height) && x == idx - 1 {
        assert(all[(c1.len() + c2.len()) as int] == x);
    }
    if on_board(row, col + 1, width, height) && x == idx + 1 {
        assert(all[(c1.len() + c2.len() + c3.len()) as int] == x);
    }
    if all.contains(x) {
        let i = choose|i: int| 0 <= i < all.len() && all[i] == x;
        if i < c1.len() {
            assert(all[i] == c1[i]);
        } else if i < c1.len() + c2.len() {
            assert(all[i] == c2[i - c1.len()]);
        } else if i < c1.len() + c2.len() + c3.len() {
            assert(all[i] == c3[i - c1.len() - c2.len()]);
        } else {
            assert(all[i] == c4[i - c1.len() - c2.len() - c3.len()]);
        }
    }
}

/// Cell `x` lies at `(row, col)` when `x == row * width + col`.
proof fn lemma_cell_coords(x: int, width: int, row: int, col: int)
    requires
        0 < width,
        0 <= col < width,
        x == row * width + col,
    ensures
        row_of(x, width) == row,
        col_of(x, width) == col,
{
    vstd::arithmetic::div_mod::lemma_fundamental_div_mod_converse(x, width, row, col);
}

/// Being neighbours is symmetric for cells on the board.
pub proof fn lemma_neighbor_symmetric(width: int, height: int, a: int, b: usize)
    requires
        valid_dims(width, height),
        0 <= a < width * height,
        neighbors(width, height, a).contains(b),
    ensures
        neighbors(width, height, b as int).contains(a as usize),
{
    lemma_neighbor_arith(width, height, a);
    lemma_neighbors_member(width, height, a, b);
    let row = row_of(a, width);
    let col = col_of(a, width);
    if row >= height {
        assert(row * width >= height * width) by (nonlinear_arith)
            requires
                row >= height,
                width > 0,
        ;
        assert(height * width == width * height) by (nonlinear_arith);
    }
    assert(row < height);
    lemma_neighbor_arith(width, height, b as int);
    lemma_neighbors_member(width, height, b as int, a as usize);
    if on_board(row - 1, col, width, height) && b == a - width {
        lemma_cell_coords(b as int, width, row - 1, col);
    } else if on_board(row + 1, col, width, height) && b == a + width {
        lemma_cell_coords(b as int, width, row + 1, col);
    } else if on_board(row, col - 1, width, height) && b == a - 1 {
        lemma_cell_coords(b as int, width, row, col - 1);
    } else {
        lemma_cell_coords(b as int, width, row, col + 1);
    }
}

/// Moves applied one list after another are the moves of the joined list.
pub proof fn lemma_moves_append(
    s: Seq<u8>,
    width: int,
    height: int,
    a: Seq<(usize, usize)>,
    b: Seq<(usize, usize)>,
)
    ensures
        apply_moves(s, a + b) == apply_moves(apply_moves(s, a), b),
        legal_moves(s, width, height, a + b) == (legal_moves(s, width, height, a) && legal_moves(
            apply_moves(s, a),
            width,
            height,
            b,
        )),
    decreases a.len(),
{
    if a.len() == 0 {
        assert(a + b =~= b);
    } else {
        assert((a + b).drop_first() =~= a.drop_first() + b);
        assert((a + b)[0] == a[0]);
        lemma_moves_append(
            swap_cells(s, a[0].0 as int, a[0].1 as int),
            width,
            height,
            a.drop_first(),
            b,
        );
    }
}

/// The moves of `undo_moves(ms)` are legal after `ms` and lead back to the
/// board that `ms` started from.
pub proof fn lemma_undo_moves(s: Seq<u8>, width: int, height: int, ms: Seq<(usize, usize)>)
    requires
        valid_dims(width, height),
        s.len() == width * height,
        legal_moves(s, width, height, ms),
    ensures
        legal_moves(apply_moves(s, ms), width, height, undo_moves(ms)),
        apply_moves(apply_moves(s, ms), undo_moves(ms)) == s,
    decreases ms.len(),
{
    if ms.len() == 0 {
        assert(undo_moves(ms) =~= Seq::<(usize, usize)>::empty());
    } else {
        let m = ms[0];
        let rest = ms.drop_first();
        let s1 = swap_cells(s, m.0 as int, m.1 as int);
        lemma_undo_moves(s1, width, height, rest);
        let t = apply_moves(s1, rest);
        let back = seq![(m.1, m.0)];
        assert(undo_moves(ms) =~= undo_moves(rest) + back);
        lemma_moves_append(t, width, height, undo_moves(rest), back);
        lemma_neighbor_symmetric(width, height, m.0 as int, m.1);
        assert(legal_move(s1, width, height, (m.1, m.0)));
        assert(back.drop_first() =~= Seq::<(usize, usize)>::empty());
        reveal_with_fuel(legal_moves, 2);
        reveal_with_fuel(apply_moves, 2);
        assert(legal_moves(s1, width, height, back));
        assert(swap_cells(s1, m.1 as int, m.0 as int) =~= s);
        assert(apply_moves(s1, back) == s);
    }
}

/// Exchanging two cells of a board leaves a board.
pub proof fn lemma_swap_valid(s: Seq<u8>, n: int, a: int, b: int)
    requires
        valid_board(s, n),
        0 <= a < n,
        0 <= b < n,
    ensures
        valid_board(swap_cells(s, a, b), n),
{
    let t = swap_cells(s, a, b);
    let src = |i: int|
        if i == b {
            a
        } else if i == a {
            b
        } else {
            i
        };
    assert forall|i: int| 0 <= i < t.len() implies t[i] == s[src(i)] && 0 <= src(i) < n by {}
    assert forall|i: int, j: int| #![trigger t[i], t[j]] 0 <= i < j < t.len() implies t[i]
        != t[j] by {
        assert(t[i] == s[src(i)] && t[j] == s[src(j)]);
        assert(src(i) != src(j));
        if src(i) < src(j) {
            assert(s[src(i)] != s[src(j)]);
        } else {
            assert(s[src(j)] != s[src(i)]);
        }
    }
    assert forall|i: int| 0 <= i < t.len() implies is_tile_value(n, #[trigger] t[i]) by {
        assert(t[i] == s[src(i)]);
    }
    assert forall|v: u8| #[trigger] is_tile_value(n, v) implies t.contains(v) by {
        let p = choose|p: int| 0 <= p < s.len() && s[p] == v;
        assert(t[src(p)] == v);
    }
}

/// The solved board of `n` cells is a board.
pub proof fn lemma_solved_valid(n: int)
    requires
        1 <= n <= 256,
    ensures
        valid_board(solved_board(n), n),
{
    let s = solved_board(n);
    assert forall|i: int| 0 <= i < s.len() implies is_tile_value(n, #[trigger] s[i]) by {}
    assert forall|i: int, j: int| #![trigger s[i], s[j]] 0 <= i < j < s.len() implies s[i]
        != s[j] by {}
    assert forall|v: u8| #[trigger] is_tile_value(n, v) implies s.contains(v) by {
        if v == SENTINEL {
            assert(s[n - 1] == v);
        } else {
            assert(s[v as int] == v);
        }
    }
}

/// A board holds the empty marker in one cell only.
pub proof fn lemma_sentinel_unique(s: Seq<u8>, n: int, p: int, q: int)
    requires
        valid_board(s, n),
        0 <= p < n,
        0 <= q < n,
        s[p] == SENTINEL,
        s[q] == SENTINEL,
    ensures
        p == q,
{
    if p < q {
        assert(s[p] != s[q]);
    } else if q < p {
        assert(s[q] != s[p]);
    }
}

/// On a board at least two cells wide and high, a corner cell has two
/// neighbours, another cell of the border three, and an inner cell four.
pub proof fn lemma_neighbour_count(width: int, height: int, idx: int)
    requires
        valid_dims(width, height),
        width >= 2,
        height >= 2,
        0 <= idx < width * height,
    ensures
        ({
            let row = row_of(idx, width);
            let col = col_of(idx, width);
            let top_or_bottom = row == 0 || row == height - 1;
            let left_or_right = col == 0 || col == width - 1;
            let count = neighbors(width, height, idx).len();
            &&& top_or_bottom && left_or_right ==> count == 2
            &&& top_or_bottom != left_or_right ==> count == 3
            &&& !top_or_bottom && !left_or_right ==> count == 4
        }),
{
    lemma_neighbor_arith(width, height, idx);
    let row = row_of(idx, width);
    if row >= height {
        assert(row * width >= height * width) by (nonlinear_arith)
            requires
                row >= height,
                width > 0,
        ;
        assert(height * width == width * height) by (nonlinear_arith);
    }
}

/// No cell of `cells` holds the empty marker: there is none to find.
proof fn lemma_no_sentinel_among(s: Seq<u8>, cells: Seq<usize>)
    requires
        forall|k: int|
            0 <= k < cells.len() ==> !(#[trigger] cells[k] < s.len() && s[cells[k] as int]
                == SENTINEL),
    ensures
        first_holding_sentinel(s, cells) is None,
    decreases cells.len(),
{
    if cells.len() > 0 {
        assert(forall|k: int|
            0 <= k < cells.drop_first().len() ==> #[trigger] cells.drop_first()[k] == cells[k
                + 1]);
        lemma_no_sentinel_among(s, cells.drop_first());
    }
}

/// A click changes nothing when it falls on the empty cell, or when none of
/// the clicked cell's neighbours holds the empty marker.
pub proof fn lemma_click_no_op(s: Seq<u8>, width: int, height: int, c: int)
    requires
        (0 <= c < s.len() && s[c] == SENTINEL) || (forall|k: int|
            0 <= k < neighbors(width, height, c).len() ==> !(#[trigger] neighbors(
                width,
                height,
                c,
            )[k] < s.len() && s[neighbors(width, height, c)[k] as int] == SENTINEL)),
    ensures
        click_result(s, width, height, c) == s,
{
    if !(0 <= c < s.len() && s[c] == SENTINEL) {
        lemma_no_sentinel_among(s, neighbors(width, height, c));
    }
}

/// Whether `fields` is a board of `n` cells.
pub(crate) fn check_board(fields: &[u8], n: usize) -> (r: bool)
    requires
        fields@.len() == n,
        1 <= n <= 256,
    ensures
        r == valid_board(fields@, n as int),
{
    let mut seen: Vec<bool> = Vec::with_capacity(256);
    let mut v: usize = 0;
    while v < 256
        invariant
            v <= 256,
            seen@.len() == v,
            forall|u: int| 0 <= u < v ==> !(#[trigger] seen@[u]),
        decreases 256 - v,
    {
        seen.push(false);
        v = v + 1;
    }
    let ghost s = fields@;
    let mut i: usize = 0;
    while i < n
        invariant
            s == fields@,
            s.len() == n,
            1 <= n <= 256,
            i <= n,
            seen@.len() == 256,
            forall|k: int| 0 <= k < i ==> is_tile_value(n as int, #[trigger] s[k]),
            forall|k: int| 0 <= k < i ==> seen@[#[trigger] s[k] as int],
            forall|u: int|
                0 <= u < 256 && #[trigger] seen@[u] ==> exists|k: int|
                    0 <= k < i && s[k] as int == u,
            forall|a: int, b: int| #![trigger s[a], s[b]] 0 <= a < b < i ==> s[a] != s[b],
        decreases n - i,
    {
        let t = fields[i];
        if !((t as usize) + 1 < n || t == SENTINEL) {
            return false;
        }
        if seen[t as usize] {
            proof {
                let k = choose|k: int| 0 <= k < i && s[k] as int == t as int;
                assert(s[k] == s[i as int]);
            }
            return false;
        }
        seen.set(t as usize, true);
        i = i + 1;
    }
    let mut u: usize = 0;
    while u < 256
        invariant
            s == fields@,
            s.len() == n,
            1 <= n <= 256,
            u <= 256,
            seen@.len() == 256,
            forall|k: int| 0 <= k < n ==> is_tile_value(n as int, #[trigger] s[k]),
            forall|k: int| 0 <= k < n ==> seen@[#[trigger] s[k] as int],
            forall|x: int|
                0 <= x < 256 && #[trigger] seen@[x] ==> exists|k: int|
                    0 <= k < n && s[k] as int == x,
            forall|a: int, b: int| #![trigger s[a], s[b]] 0 <= a < b < n ==> s[a] != s[b],
            forall|w: u8| (w as int) < u && #[trigger] is_tile_value(n as int, w) ==> s.contains(w),
        decreases 256 - u,
    {
        let w = u as u8;
        if (u + 1 < n || w == SENTINEL) && !seen[u] {
            proof {
                assert(is_tile_value(n as int, w));
                if s.contains(w) {
                    let k = choose|k: int| 0 <= k < s.len() && s[k] == w;
                    assert(seen@[s[k] as int]);
                }
            }
            return false;
        }
        proof {
            if is_tile_value(n as int, w) {
                let k = choose|k: int| 0 <= k < n && s[k] as int == u as int;
                assert(s[k] == w);
            }
        }
        u = u + 1;
    }
    true
}

} // verus!
