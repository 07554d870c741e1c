//! Random walks of the empty cell that scramble a board.
use vstd::prelude::*;
use crate::board::{
    apply_moves, lemma_board_has_cells, dims_ok, legal_move, legal_moves, lemma_neighbors_on_board, lemma_solved_valid,
    lemma_swap_valid, lemma_undo_moves, neighbors, neighbours_of, solvable, solved_board,
    swap_cells, undo_moves, valid_board, valid_dims, SENTINEL,
};
use crate::error::PuzzleError;
use crate::solver::puzzle_input;

verus! {

/// `cells` without the entries equal to `p`, in order.
pub open spec fn without(cells: Seq<usize>, p: usize) -> Seq<usize>
    decreases cells.len(),
{
    if cells.len() == 0 {
        seq![]
    } else {
        let rest = without(cells.drop_last(), p);
        if cells.last() != p {
            rest.push(cells.last())
        } else {
            rest
        }
    }
}

/// The cells the empty cell at `empty` may move to next: its neighbours,
/// except `prev`, the cell it just came from, unless that is the only one.
pub open spec fn shuffle_candidates(width: int, height: int, empty: usize, prev: Option<usize>) -> Seq<
    usize,
> {
    let all = neighbors(width, height, empty as int);
    match prev {
        Some(p) => if without(all, p).len() == 0 {
            all
        } else {
            without(all, p)
        },
        None => all,
    }
}

/// The moves of a walk of the empty cell from `empty`, one per draw: each
/// draw picks a candidate by its remainder modulo the number of candidates.
/// A walk with nowhere to go stops.
pub open spec fn shuffle_walk(
    width: int,
    height: int,
    empty: usize,
    prev: Option<usize>,
    draws: Seq<usize>,
) -> Seq<(usize, usize)>
    decreases draws.len(),
{
    if draws.len() == 0 {
        seq![]
    } else {
        let cands = shuffle_candidates(width, height, empty, prev);
        if cands.len() == 0 {
            seq![]
        } else {
            let nb = cands[(draws[0] as int) % (cands.len() as int)];
            seq![(empty, nb)] + shuffle_walk(width, height, nb, Some(empty), draws.drop_first())
        }
    }
}

proof fn lemma_without_subset(cells: Seq<usize>, p: usize)
    ensures
        forall|i: int|
            0 <= i < without(cells, p).len() ==> cells.contains(#[trigger] without(cells, p)[i]),
    decreases cells.len(),
{
    if cells.len() > 0 {
        lemma_without_subset(cells.drop_last(), p);
        assert forall|i: int|
            0 <= i < without(cells, p).len() implies cells.contains(
            #[trigger] without(cells, p)[i],
        ) by {
            let rest = without(cells.drop_last(), p);
            if i < rest.len() {
                let j = choose|j: int|
                    0 <= j < cells.drop_last().len() && cells.drop_last()[j] == rest[i];
                assert(cells[j] == rest[i]);
            } else {
                assert(cells[cells.len() - 1] == cells.last());
            }
        }
    }
}

/// `cells` without the entries equal to `p`.
fn drop_cell(cells: &Vec<usize>, p: usize) -> (r: Vec<usize>)
    ensures
        r@ == without(cells@, p),
{
    let mut r: Vec<usize> = Vec::new();
    let mut k: usize = 0;
    assert(cells@.take(0) =~= Seq::<usize>::empty());
    while k < cells.len()
        invariant
            k <= cells@.len(),
            r@ == without(cells@.take(k as int), p),
        decreases cells@.len() - k,
    {
        assert(cells@.take(k + 1).drop_last() =~= cells@.take(k as int));
        if cells[k] != p {
            r.push(cells[k]);
        }
        k = k + 1;
    }
    assert(cells@.take(cells@.len() as int) =~= cells@);
    r
}

/// A shuffle sequence: one move of the empty cell per draw, starting at
/// `empty_field_idx`. Each move goes to a neighbour of the empty cell, never
/// straight back where it came from unless nothing else is left; the draw,
/// modulo the number of candidates, picks which. Draws that are uniformly
/// random pick uniformly up to the bias of the remainder.
pub fn get_shuffle_sequence(width: usize, height: usize, empty_field_idx: usize, draws: &[usize]) -> (r:
    Result<Vec<(usize, usize)>, PuzzleError>)
    ensures
        valid_dims(width as int, height as int) && empty_field_idx < width * height <==> r is Ok,
        !(valid_dims(width as int, height as int) && empty_field_idx < width * height) <==> r
            == Err::<Vec<(usize, usize)>, PuzzleError>(PuzzleError::InvalidDimensions),
        r is Ok ==> r->Ok_0@ == shuffle_walk(
            width as int,
            height as int,
            empty_field_idx,
            None,
            draws@,
        ),
{
    if !dims_ok(width, height) || empty_field_idx >= width * height {
        return Err(PuzzleError::InvalidDimensions);
    }
    let ghost w = width as int;
    let ghost h = height as int;
    let ghost whole = shuffle_walk(w, h, empty_field_idx, None, draws@);
    let mut out: Vec<(usize, usize)> = Vec::new();
    let mut empty = empty_field_idx;
    let mut prev: Option<usize> = None;
    let mut i: usize = 0;
    assert(draws@.skip(0) =~= draws@);
    while i < draws.len()
        invariant
            valid_dims(w, h),
            w == width as int,
            h == height as int,
            i <= draws@.len(),
            empty_field_idx < width * height,
            whole == shuffle_walk(w, h, empty_field_idx, None, draws@),
            whole == out@ + shuffle_walk(w, h, empty, prev, draws@.skip(i as int)),
        decreases draws@.len() - i,
    {
        let all = neighbours_of(width, height, empty);
        let cands = match prev {
            Some(p) => {
                let rest = drop_cell(&all, p);
                if rest.len() == 0 {
                    all
                } else {
                    rest
                }
            },
            None => all,
        };
        assert(cands@ == shuffle_candidates(w, h, empty, prev));
        if cands.len() == 0 {
            assert(shuffle_walk(w, h, empty, prev, draws@.skip(i as int)) =~= Seq::<
                (usize, usize),
            >::empty());
            assert(whole =~= out@);
            return Ok(out);
        }
        let nb = cands[draws[i] % cands.len()];
        let ghost rest_walk = shuffle_walk(w, h, nb, Some(empty), draws@.skip(i + 1));
        assert(draws@.skip(i as int).drop_first() =~= draws@.skip(i + 1));
        assert(draws@.skip(i as int)[0] == draws@[i as int]);
        assert(shuffle_walk(w, h, empty, prev, draws@.skip(i as int)) == seq![(empty, nb)]
            + rest_walk);
        out.push((empty, nb));
        assert(whole =~= out@ + rest_walk);
        prev = Some(empty);
        empty = nb;
        i = i + 1;
    }
    assert(shuffle_walk(w, h, empty, prev, draws@.skip(i as int)) =~= Seq::<
        (usize, usize),
    >::empty());
    assert(whole =~= out@);
    Ok(out)
}

/// Every move of a shuffle walk is legal when the walk starts on the empty
/// cell of a board, and the board stays a board.
proof fn lemma_walk_legal(
    s: Seq<u8>,
    width: int,
    height: int,
    empty: usize,
    prev: Option<usize>,
    draws: Seq<usize>,
)
    requires
        valid_dims(width, height),
        valid_board(s, width * height),
        empty < width * height,
        s[empty as int] == SENTINEL,
    ensures
        legal_moves(s, width, height, shuffle_walk(width, height, empty, prev, draws)),
        valid_board(
            apply_moves(s, shuffle_walk(width, height, empty, prev, draws)),
            width * height,
        ),
    decreases draws.len(),
{
    let walk = shuffle_walk(width, height, empty, prev, draws);
    if draws.len() > 0 {
        let all = neighbors(width, height, empty as int);
        let cands = shuffle_candidates(width, height, empty, prev);
        if cands.len() > 0 {
            let nb = cands[(draws[0] as int) % (cands.len() as int)];
            let idx = (draws[0] as int) % (cands.len() as int);
            assert(0 <= idx < cands.len());
            if let Some(p) = prev {
                lemma_without_subset(all, p);
                if without(all, p).len() != 0 {
                    assert(all.contains(without(all, p)[idx]));
                } else {
                    assert(all[idx] == nb);
                }
            } else {
                assert(all[idx] == nb);
            }
            assert(all.contains(nb));
            lemma_neighbors_on_board(width, height, empty as int);
            let j = choose|j: int| 0 <= j < all.len() && all[j] == nb;
            assert(nb < width * height);
            assert(legal_move(s, width, height, (empty, nb)));
            let s1 = swap_cells(s, empty as int, nb as int);
            lemma_swap_valid(s, width * height, empty as int, nb as int);
            lemma_walk_legal(s1, width, height, nb, Some(empty), draws.drop_first());
            assert(walk[0] == (empty, nb));
            assert(walk.drop_first() =~= shuffle_walk(
                width,
                height,
                nb,
                Some(empty),
                draws.drop_first(),
            ));
        }
    }
}

/// A board scrambled by a shuffle walk from the solved board is a board,
/// and legal moves lead from it back to the solved board; so
/// `find_swap_order` returns moves that solve it.
pub proof fn lemma_shuffled_board_solvable(width: int, height: int, draws: Seq<usize>)
    requires
        valid_dims(width, height),
    ensures
        ({
            let n = width * height;
            let walk = shuffle_walk(width, height, (n - 1) as usize, None, draws);
            let board = apply_moves(solved_board(n), walk);
            puzzle_input(board, width, height) && solvable(board, width, height)
        }),
{
    let n = width * height;
    let start = solved_board(n);
    let walk = shuffle_walk(width, height, (n - 1) as usize, None, draws);
    lemma_board_has_cells(width, height);
    lemma_solved_valid(n);
    lemma_walk_legal(start, width, height, (n - 1) as usize, None, draws);
    lemma_undo_moves(start, width, height, walk);
    let board = apply_moves(start, walk);
    assert(legal_moves(board, width, height, undo_moves(walk)) && apply_moves(
        board,
        undo_moves(walk),
    ) == solved_board(board.len() as int));
}

} // verus!
