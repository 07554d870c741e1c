//! The order in which moves are tried: up, down, left, right, and the
//! order it induces on move lists of equal length.
use vstd::prelude::*;
use crate::board::{
    cell_at, lemma_cell_index_range, lemma_neighbor_arith, neighbors, valid_dims,
};
use crate::geometry::{col_of, lemma_coords_round_trip, on_board, row_of};

verus! {

/// The rank of the direction of a move `(a, b)` of the empty cell from `a`
/// to `b`: up 0, down 1, left 2, right 3.
pub open spec fn move_rank(width: int, m: (usize, usize)) -> int {
    if m.1 + width == m.0 {
        0
    } else if m.1 == m.0 + width {
        1
    } else if m.1 + 1 == m.0 {
        2
    } else {
        3
    }
}

/// `p` comes before `q`: both have the same length, and at the first move
/// where they part, the move of `p` has the lower rank.
pub open spec fn ranked_before(width: int, p: Seq<(usize, usize)>, q: Seq<(usize, usize)>) -> bool {
    &&& p.len() == q.len()
    &&& exists|k: int|
        #![trigger p.take(k), q.take(k)]
        0 <= k < p.len() && p.take(k) == q.take(k) && move_rank(width, p[k]) < move_rank(
            width,
            q[k],
        )
}

/// Lists in order stay in order when each gets one more move.
pub proof fn lemma_before_extend(
    width: int,
    p: Seq<(usize, usize)>,
    q: Seq<(usize, usize)>,
    a: (usize, usize),
    b: (usize, usize),
)
    requires
        ranked_before(width, p, q),
    ensures
        ranked_before(width, p.push(a), q.push(b)),
{
    let k = choose|k: int|
        #![trigger p.take(k), q.take(k)]
        0 <= k < p.len() && p.take(k) == q.take(k) && move_rank(width, p[k]) < move_rank(
            width,
            q[k],
        );
    assert(p.push(a).take(k) =~= p.take(k));
    assert(q.push(b).take(k) =~= q.take(k));
    assert(p.push(a)[k] == p[k] && q.push(b)[k] == q[k]);
}

/// Lists that agree up to their last move are ordered by that move.
pub proof fn lemma_before_last(width: int, p: Seq<(usize, usize)>, a: (usize, usize), b: (
    usize,
    usize,
))
    requires
        move_rank(width, a) < move_rank(width, b),
    ensures
        ranked_before(width, p.push(a), p.push(b)),
{
    let k = p.len() as int;
    assert(p.push(a).take(k) =~= p);
    assert(p.push(b).take(k) =~= p);
    assert(p.push(a)[k] == a && p.push(b)[k] == b);
}

/// The order is transitive.
pub proof fn lemma_before_trans(
    width: int,
    p: Seq<(usize, usize)>,
    q: Seq<(usize, usize)>,
    r: Seq<(usize, usize)>,
)
    requires
        ranked_before(width, p, q),
        ranked_before(width, q, r),
    ensures
        ranked_before(width, p, r),
{
    let k1 = choose|k: int|
        #![trigger p.take(k), q.take(k)]
        0 <= k < p.len() && p.take(k) == q.take(k) && move_rank(width, p[k]) < move_rank(
            width,
            q[k],
        );
    let k2 = choose|k: int|
        #![trigger q.take(k), r.take(k)]
        0 <= k < q.len() && q.take(k) == r.take(k) && move_rank(width, q[k]) < move_rank(
            width,
            r[k],
        );
    if k1 <= k2 {
        assert(q.take(k1) =~= q.take(k2).take(k1));
        assert(r.take(k1) =~= r.take(k2).take(k1));
        if k1 < k2 {
            assert(q.take(k2)[k1] == r.take(k2)[k1]);
        }
        assert(p.take(k1) == r.take(k1));
    } else {
        assert(p.take(k2) =~= p.take(k1).take(k2));
        assert(q.take(k2) =~= q.take(k1).take(k2));
        assert(p.take(k1)[k2] == q.take(k1)[k2]);
        assert(p.take(k2) == r.take(k2));
    }
}

/// The order is strict: no two lists come each before the other.
pub proof fn lemma_before_asym(width: int, p: Seq<(usize, usize)>, q: Seq<(usize, usize)>)
    requires
        ranked_before(width, p, q),
    ensures
        !ranked_before(width, q, p),
{
    if ranked_before(width, q, p) {
        lemma_before_trans(width, p, q, p);
        let k = choose|k: int|
            #![trigger p.take(k), p.take(k)]
            0 <= k < p.len() && p.take(k) == p.take(k) && move_rank(width, p[k]) < move_rank(
                width,
                p[k],
            );
    }
}

/// The neighbours of a cell come in increasing rank, and none is the cell
/// itself.
pub proof fn lemma_neighbor_ranks(width: int, height: int, e: usize)
    requires
        valid_dims(width, height),
    ensures
        forall|k1: int, k2: int|
            #![trigger neighbors(width, height, e as int)[k1], neighbors(width, height, e as int)[k2]]
            0 <= k1 < k2 < neighbors(width, height, e as int).len() ==> move_rank(
                width,
                (e, neighbors(width, height, e as int)[k1]),
            ) < move_rank(width, (e, neighbors(width, height, e as int)[k2])),
        forall|k: int|
            0 <= k < neighbors(width, height, e as int).len() ==> #[trigger] neighbors(
                width,
                height,
                e as int,
            )[k] != e,
{
    let idx = e as int;
    lemma_coords_round_trip(idx, width);
    lemma_neighbor_arith(width, height, idx);
    let row = row_of(idx, width);
    let col = col_of(idx, width);
    lemma_cell_index_range(width, height, row - 1, col);
    lemma_cell_index_range(width, height, row + 1, col);
    lemma_cell_index_range(width, height, row, col - 1);
    lemma_cell_index_range(width, height, row, col + 1);
    let c1 = cell_at(width, height, row - 1, col);
    let c2 = cell_at(width, height, row + 1, col);
    let c3 = cell_at(width, height, row, col - 1);
    let c4 = cell_at(width, height, row, col + 1);
    let all = neighbors(width, height, idx);
    assert(all == c1 + c2 + c3 + c4);
    let group = |k: int|
        if k < c1.len() {
            0int
        } else if k < c1.len() + c2.len() {
            1int
        } else if k < c1.len() + c2.len() + c3.len() {
            2int
        } else {
            3int
        };
    assert forall|k: int| 0 <= k < all.len() implies move_rank(width, (e, #[trigger] all[k]))
        == group(k) && all[k] != e by {
        let x = all[k];
        if k < c1.len() {
            assert(x == c1[k]);
            assert(on_board(row - 1, col, width, height));
        } else if k < c1.len() + c2.len() {
            assert(x == c2[k - c1.len()]);
            assert(on_board(row + 1, col, width, height));
        } else if k < c1.len() + c2.len() + c3.len() {
            assert(x == c3[k - c1.len() - c2.len()]);
            assert(on_board(row, col - 1, width, height));
        } else {
            assert(x == c4[k - c1.len() - c2.len() - c3.len()]);
            assert(on_board(row, col + 1, width, height));
        }
    }
}

} // verus!
