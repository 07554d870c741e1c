//! Breadth-first search for the shortest way back to the solved board.
use vstd::prelude::*;
use vstd::arithmetic::power::pow;
use crate::board::{
    apply_moves, lemma_board_has_cells, check_board, copy_tiles, dims_ok, get_idx_of_val, initialize_fields, is_tile_value,
    legal_move, legal_moves, lemma_moves_append, lemma_neighbors_on_board, lemma_sentinel_unique,
    lemma_solved_valid, lemma_swap_valid, neighbors, neighbours_of, solvable, solved_board,
    swap_cells, valid_board, valid_dims, SENTINEL,
};
use crate::error::PuzzleError;
use crate::move_order::{
    lemma_before_extend, lemma_before_last, lemma_before_trans, lemma_neighbor_ranks, move_rank,
    ranked_before,
};
use crate::state_table::{lemma_distinct_states_bound, same_tiles, StateTable};

verus! {

/// `s` is a board of `width` by `height` cells.
pub open spec fn puzzle_input(s: Seq<u8>, width: int, height: int) -> bool {
    valid_dims(width, height) && valid_board(s, width * height)
}

/// The moves that lead from the first node of a search tree to node `i`,
/// following parent links.
pub open spec fn path_to(parents: Seq<usize>, swaps: Seq<(usize, usize)>, i: nat) -> Seq<
    (usize, usize),
>
    decreases i,
{
    if 0 < i < parents.len() && parents[i as int] < i {
        path_to(parents, swaps, parents[i as int] as nat).push(swaps[i as int])
    } else {
        seq![]
    }
}

/// A search tree: node 0 is `start`, every other node is its parent after
/// one legal move, and each node records where its empty cell is.
pub open spec fn search_tree(
    nodes: Seq<Seq<u8>>,
    parents: Seq<usize>,
    swaps: Seq<(usize, usize)>,
    start: Seq<u8>,
    width: int,
    height: int,
) -> bool {
    let n = width * height;
    &&& nodes.len() == parents.len()
    &&& nodes.len() == swaps.len()
    &&& nodes.len() >= 1
    &&& nodes[0] == start
    &&& forall|i: int|
        0 <= i < nodes.len() ==> {
            &&& valid_board(#[trigger] nodes[i], n)
            &&& swaps[i].1 < n
            &&& nodes[i][swaps[i].1 as int] == SENTINEL
        }
    &&& forall|i: int|
        0 < i < nodes.len() ==> {
            &&& #[trigger] parents[i] < i
            &&& legal_move(nodes[parents[i] as int], width, height, swaps[i])
            &&& nodes[i] == swap_cells(nodes[parents[i] as int], swaps[i].0 as int, swaps[i].1 as int)
        }
}

/// Every move out of the first `done` nodes leads to a node of the tree.
pub open spec fn expanded(
    nodes: Seq<Seq<u8>>,
    swaps: Seq<(usize, usize)>,
    width: int,
    height: int,
    done: int,
) -> bool {
    forall|i: int, k: int|
        0 <= i < done && 0 <= k < neighbors(width, height, swaps[i].1 as int).len() ==> nodes.contains(
            swap_cells(
                nodes[i],
                swaps[i].1 as int,
                #[trigger] neighbors(width, height, swaps[i].1 as int)[k] as int,
            ),
        )
}

/// The parent links of a search tree spell legal moves from the start to
/// each node.
proof fn lemma_path_reaches(
    nodes: Seq<Seq<u8>>,
    parents: Seq<usize>,
    swaps: Seq<(usize, usize)>,
    start: Seq<u8>,
    width: int,
    height: int,
    i: nat,
)
    requires
        search_tree(nodes, parents, swaps, start, width, height),
        i < nodes.len(),
    ensures
        legal_moves(start, width, height, path_to(parents, swaps, i)),
        apply_moves(start, path_to(parents, swaps, i)) == nodes[i as int],
    decreases i,
{
    if i > 0 {
        let p = parents[i as int] as nat;
        assert(parents[i as int] < i);
        lemma_path_reaches(nodes, parents, swaps, start, width, height, p);
        let step = seq![swaps[i as int]];
        assert(path_to(parents, swaps, i) == path_to(parents, swaps, p) + step);
        lemma_moves_append(start, width, height, path_to(parents, swaps, p), step);
        reveal_with_fuel(legal_moves, 2);
        reveal_with_fuel(apply_moves, 2);
        assert(step.drop_first() =~= Seq::<(usize, usize)>::empty());
    } else {
        assert(path_to(parents, swaps, 0) =~= Seq::<(usize, usize)>::empty());
    }
}

/// The number of moves from the first node of a search tree to node `i`.
pub open spec fn depth(parents: Seq<usize>, swaps: Seq<(usize, usize)>, i: int) -> nat {
    path_to(parents, swaps, i as nat).len()
}

/// Breadth-first order: depths never decrease along the nodes, none is more
/// than one beyond the depth of node `head`, and no sequence of legal moves
/// from the start reaches a node in fewer moves than its depth.
pub open spec fn bfs_ordered(
    nodes: Seq<Seq<u8>>,
    parents: Seq<usize>,
    swaps: Seq<(usize, usize)>,
    start: Seq<u8>,
    width: int,
    height: int,
    head: int,
) -> bool {
    &&& forall|i: int, j: int|
        0 <= i <= j < nodes.len() ==> #[trigger] depth(parents, swaps, i) <= #[trigger] depth(
            parents,
            swaps,
            j,
        )
    &&& head < nodes.len() ==> forall|j: int|
        0 <= j < nodes.len() ==> #[trigger] depth(parents, swaps, j) <= depth(parents, swaps, head)
            + 1
    &&& forall|j: int, ms: Seq<(usize, usize)>|
        0 <= j < nodes.len() && legal_moves(start, width, height, ms) && #[trigger] apply_moves(
            start,
            ms,
        ) == #[trigger] nodes[j] ==> depth(parents, swaps, j) <= ms.len()
}

/// Adding a node leaves the paths to the earlier nodes as they were.
proof fn lemma_path_prefix(
    parents: Seq<usize>,
    swaps: Seq<(usize, usize)>,
    p: usize,
    sw: (usize, usize),
    i: nat,
)
    requires
        i < parents.len(),
        parents.len() == swaps.len(),
    ensures
        path_to(parents.push(p), swaps.push(sw), i) == path_to(parents, swaps, i),
    decreases i,
{
    if 0 < i && parents[i as int] < i {
        assert(parents.push(p)[i as int] == parents[i as int]);
        assert(swaps.push(sw)[i as int] == swaps[i as int]);
        lemma_path_prefix(parents, swaps, p, sw, parents[i as int] as nat);
    } else {
        assert(parents.push(p)[i as int] == parents[i as int]);
    }
}

/// In breadth-first order, every state that legal moves reach from the
/// start in no more moves than the depth of node `head` is a node.
proof fn lemma_reach(
    nodes: Seq<Seq<u8>>,
    parents: Seq<usize>,
    swaps: Seq<(usize, usize)>,
    start: Seq<u8>,
    width: int,
    height: int,
    head: int,
    ms: Seq<(usize, usize)>,
)
    requires
        valid_dims(width, height),
        search_tree(nodes, parents, swaps, start, width, height),
        expanded(nodes, swaps, width, height, head),
        bfs_ordered(nodes, parents, swaps, start, width, height, head),
        0 <= head < nodes.len(),
        legal_moves(start, width, height, ms),
        ms.len() <= depth(parents, swaps, head),
    ensures
        nodes.contains(apply_moves(start, ms)),
    decreases ms.len(),
{
    if ms.len() == 0 {
        assert(nodes[0] == apply_moves(start, ms));
    } else {
        let pre = ms.take(ms.len() - 1);
        let m = ms.last();
        let last = seq![m];
        assert(ms =~= pre + last);
        lemma_moves_append(start, width, height, pre, last);
        lemma_reach(nodes, parents, swaps, start, width, height, head, pre);
        let y = apply_moves(start, pre);
        let j = choose|j: int| 0 <= j < nodes.len() && nodes[j] == y;
        assert(depth(parents, swaps, j) <= pre.len());
        if j >= head {
            assert(depth(parents, swaps, head) <= depth(parents, swaps, j));
        }
        assert(j < head);
        assert(valid_board(nodes[j], width * height));
        lemma_sentinel_unique(nodes[j], width * height, m.0 as int, swaps[j].1 as int);
        let nbs = neighbors(width, height, swaps[j].1 as int);
        let k = choose|k: int| 0 <= k < nbs.len() && nbs[k] == m.1;
        assert(nodes.contains(swap_cells(nodes[j], swaps[j].1 as int, nbs[k] as int)));
        reveal_with_fuel(apply_moves, 2);
        assert(last.drop_first() =~= Seq::<(usize, usize)>::empty());
        assert(apply_moves(y, last) == swap_cells(y, m.0 as int, m.1 as int));
    }
}

/// Adding, as child of node `head`, a state that is not yet a node keeps
/// the breadth-first order.
proof fn lemma_push_order(
    nodes: Seq<Seq<u8>>,
    parents: Seq<usize>,
    swaps: Seq<(usize, usize)>,
    start: Seq<u8>,
    width: int,
    height: int,
    head: usize,
    x: Seq<u8>,
    sw: (usize, usize),
)
    requires
        valid_dims(width, height),
        search_tree(nodes, parents, swaps, start, width, height),
        expanded(nodes, swaps, width, height, head as int),
        bfs_ordered(nodes, parents, swaps, start, width, height, head as int),
        0 <= head < nodes.len(),
        !nodes.contains(x),
    ensures
        bfs_ordered(
            nodes.push(x),
            parents.push(head),
            swaps.push(sw),
            start,
            width,
            height,
            head as int,
        ),
{
    let len = nodes.len() as int;
    let grown_parents = parents.push(head);
    let grown_swaps = swaps.push(sw);
    let grown_nodes = nodes.push(x);
    assert forall|i: int| 0 <= i < len implies #[trigger] depth(grown_parents, grown_swaps, i) == depth(
        parents,
        swaps,
        i,
    ) by {
        lemma_path_prefix(parents, swaps, head, sw, i as nat);
    }
    lemma_path_prefix(parents, swaps, head, sw, head as nat);
    assert(grown_parents[len] == head);
    assert(grown_swaps[len] == sw);
    assert(path_to(grown_parents, grown_swaps, len as nat) == path_to(grown_parents, grown_swaps, head as nat).push(sw));
    assert(depth(grown_parents, grown_swaps, len) == depth(parents, swaps, head as int) + 1);
    assert forall|i: int, j: int|
        0 <= i <= j < grown_nodes.len() implies #[trigger] depth(grown_parents, grown_swaps, i) <= #[trigger] depth(
        grown_parents,
        grown_swaps,
        j,
    ) by {
        if j < len {
            assert(depth(parents, swaps, i) <= depth(parents, swaps, j));
        } else if i < len {
            assert(depth(parents, swaps, i) <= depth(parents, swaps, head as int) + 1);
        }
    }
    assert forall|j: int| 0 <= j < grown_nodes.len() implies #[trigger] depth(grown_parents, grown_swaps, j) <= depth(
        grown_parents,
        grown_swaps,
        head as int,
    ) + 1 by {
        if j < len {
            assert(depth(parents, swaps, j) <= depth(parents, swaps, head as int) + 1);
        }
    }
    assert forall|j: int, ms: Seq<(usize, usize)>|
        0 <= j < grown_nodes.len() && legal_moves(start, width, height, ms) && #[trigger] apply_moves(
            start,
            ms,
        ) == #[trigger] grown_nodes[j] implies depth(grown_parents, grown_swaps, j) <= ms.len() by {
        if j < len {
            assert(grown_nodes[j] == nodes[j]);
        } else if ms.len() <= depth(parents, swaps, head as int) {
            lemma_reach(nodes, parents, swaps, start, width, height, head as int, ms);
        }
    }
}

/// Adding, as child of node `head`, a state one legal move away that is
/// not yet a node keeps the search tree, the expanded prefix and the
/// breadth-first order.
proof fn lemma_push_node(
    nodes: Seq<Seq<u8>>,
    parents: Seq<usize>,
    swaps: Seq<(usize, usize)>,
    start: Seq<u8>,
    width: int,
    height: int,
    head: usize,
    nb: usize,
    x: Seq<u8>,
)
    requires
        valid_dims(width, height),
        search_tree(nodes, parents, swaps, start, width, height),
        expanded(nodes, swaps, width, height, head as int),
        bfs_ordered(nodes, parents, swaps, start, width, height, head as int),
        head < nodes.len(),
        !nodes.contains(x),
        legal_move(nodes[head as int], width, height, (swaps[head as int].1, nb)),
        x == swap_cells(nodes[head as int], swaps[head as int].1 as int, nb as int),
    ensures
        ({
            let grown_nodes = nodes.push(x);
            let grown_parents = parents.push(head);
            let grown_swaps = swaps.push((swaps[head as int].1, nb));
            &&& search_tree(grown_nodes, grown_parents, grown_swaps, start, width, height)
            &&& expanded(grown_nodes, grown_swaps, width, height, head as int)
            &&& bfs_ordered(grown_nodes, grown_parents, grown_swaps, start, width, height, head as int)
            &&& forall|y: Seq<u8>| nodes.contains(y) ==> grown_nodes.contains(y)
        }),
{
    let e = swaps[head as int].1;
    let sw = (e, nb);
    let n = width * height;
    let len = nodes.len() as int;
    let grown_nodes = nodes.push(x);
    let grown_parents = parents.push(head);
    let grown_swaps = swaps.push(sw);
    assert(valid_board(nodes[head as int], n));
    lemma_swap_valid(nodes[head as int], n, e as int, nb as int);
    lemma_push_order(nodes, parents, swaps, start, width, height, head, x, sw);
    assert forall|i: int| 0 <= i < len implies #[trigger] grown_nodes[i] == nodes[i] && grown_parents[i] == parents[i]
        && grown_swaps[i] == swaps[i] by {}
    assert forall|y: Seq<u8>| nodes.contains(y) implies grown_nodes.contains(y) by {
        let i = choose|i: int| 0 <= i < len && nodes[i] == y;
        assert(grown_nodes[i] == y);
    }
    assert forall|i: int| 0 < i < grown_nodes.len() implies {
        &&& #[trigger] grown_parents[i] < i
        &&& legal_move(grown_nodes[grown_parents[i] as int], width, height, grown_swaps[i])
        &&& grown_nodes[i] == swap_cells(grown_nodes[grown_parents[i] as int], grown_swaps[i].0 as int, grown_swaps[i].1 as int)
    } by {
        if i < len {
            assert(parents[i] < i);
        }
    }
    assert forall|i: int| 0 <= i < grown_nodes.len() implies {
        &&& valid_board(#[trigger] grown_nodes[i], n)
        &&& grown_swaps[i].1 < n
        &&& grown_nodes[i][grown_swaps[i].1 as int] == SENTINEL
    } by {
        if i < len {
            assert(valid_board(nodes[i], n));
        }
    }
    assert(expanded(grown_nodes, grown_swaps, width, height, head as int)) by {
        assert forall|i: int, k: int|
            0 <= i < head && 0 <= k < neighbors(width, height, grown_swaps[i].1 as int).len() implies grown_nodes.contains(
            swap_cells(grown_nodes[i], grown_swaps[i].1 as int, #[trigger] neighbors(width, height, grown_swaps[i].1 as int)[k] as int),
        ) by {
            assert(grown_swaps[i] == swaps[i]);
        }
    }
}

/// The nodes of a search tree are distinct boards of `n` cells, so there are
/// at most `256^n` of them.
proof fn lemma_nodes_bound(nodes: Seq<Seq<u8>>, n: nat)
    requires
        nodes.no_duplicates(),
        forall|i: int| 0 <= i < nodes.len() ==> valid_board(#[trigger] nodes[i], n as int),
    ensures
        nodes.len() <= pow(256, n),
{
    assert forall|i: int| 0 <= i < nodes.len() implies (#[trigger] nodes[i]).len() == n by {
        assert(valid_board(nodes[i], n as int));
    }
    lemma_distinct_states_bound(nodes, n);
}

/// Nodes at the same depth come in the order of their paths, and the path
/// to each node comes first among the legal move lists of its length that
/// reach it.
pub open spec fn first_in_rank(
    nodes: Seq<Seq<u8>>,
    parents: Seq<usize>,
    swaps: Seq<(usize, usize)>,
    start: Seq<u8>,
    width: int,
    height: int,
) -> bool {
    &&& forall|i: int, j: int|
        0 <= i < j < nodes.len() && #[trigger] depth(parents, swaps, i) == #[trigger] depth(
            parents,
            swaps,
            j,
        ) ==> ranked_before(
            width,
            path_to(parents, swaps, i as nat),
            path_to(parents, swaps, j as nat),
        )
    &&& forall|j: int, ms: Seq<(usize, usize)>|
        0 <= j < nodes.len() && legal_moves(start, width, height, ms) && #[trigger] apply_moves(
            start,
            ms,
        ) == #[trigger] nodes[j] && ms.len() == depth(parents, swaps, j) ==> ms == path_to(
            parents,
            swaps,
            j as nat,
        ) || ranked_before(width, path_to(parents, swaps, j as nat), ms)
}

/// Adding a child of node `head` leaves the paths to the earlier nodes as
/// they were and reaches the child through `head`.
proof fn lemma_grown_paths(
    parents: Seq<usize>,
    swaps: Seq<(usize, usize)>,
    head: usize,
    sw: (usize, usize),
)
    requires
        parents.len() == swaps.len(),
        head < parents.len(),
    ensures
        forall|i: int|
            0 <= i < parents.len() ==> #[trigger] path_to(parents.push(head), swaps.push(sw), i as nat)
                == path_to(parents, swaps, i as nat),
        forall|i: int|
            0 <= i < parents.len() ==> #[trigger] depth(parents.push(head), swaps.push(sw), i)
                == depth(parents, swaps, i),
        path_to(parents.push(head), swaps.push(sw), parents.len()) == path_to(
            parents,
            swaps,
            head as nat,
        ).push(sw),
{
    let len = parents.len();
    assert forall|i: int| 0 <= i < len implies #[trigger] path_to(
        parents.push(head),
        swaps.push(sw),
        i as nat,
    ) == path_to(parents, swaps, i as nat) by {
        lemma_path_prefix(parents, swaps, head, sw, i as nat);
    }
    assert forall|i: int| 0 <= i < len implies #[trigger] depth(parents.push(head), swaps.push(sw), i)
        == depth(parents, swaps, i) by {
        lemma_path_prefix(parents, swaps, head, sw, i as nat);
    }
    lemma_path_prefix(parents, swaps, head, sw, head as nat);
    assert(parents.push(head)[len as int] == head);
    assert(swaps.push(sw)[len as int] == sw);
}

/// Adding the child of node `head` through `nbs[k]`, after those through
/// `nbs[0 .. k]`, keeps the nodes of each depth in the order of their paths.
proof fn lemma_push_rank_order(
    nodes: Seq<Seq<u8>>,
    parents: Seq<usize>,
    swaps: Seq<(usize, usize)>,
    start: Seq<u8>,
    width: int,
    height: int,
    head: usize,
    len_before: int,
    k: int,
    x: Seq<u8>,
)
    requires
        valid_dims(width, height),
        search_tree(nodes, parents, swaps, start, width, height),
        expanded(nodes, swaps, width, height, head as int),
        bfs_ordered(nodes, parents, swaps, start, width, height, head as int),
        first_in_rank(nodes, parents, swaps, start, width, height),
        head < len_before <= nodes.len(),
        forall|i: int| 0 < i < len_before ==> #[trigger] parents[i] < head,
        0 <= k < neighbors(width, height, swaps[head as int].1 as int).len(),
        forall|i: int|
            len_before <= i < nodes.len() ==> #[trigger] parents[i] == head && swaps[i].0
                == swaps[head as int].1 && move_rank(width, swaps[i]) < move_rank(
                width,
                (swaps[head as int].1, neighbors(width, height, swaps[head as int].1 as int)[k]),
            ),
        !nodes.contains(x),
        x == swap_cells(
            nodes[head as int],
            swaps[head as int].1 as int,
            neighbors(width, height, swaps[head as int].1 as int)[k] as int,
        ),
    ensures
        ({
            let sw = (swaps[head as int].1, neighbors(width, height, swaps[head as int].1 as int)[k]);
            let grown_parents = parents.push(head);
            let grown_swaps = swaps.push(sw);
            forall|i: int, j: int|
                0 <= i < j < nodes.len() + 1 && #[trigger] depth(grown_parents, grown_swaps, i)
                    == #[trigger] depth(grown_parents, grown_swaps, j) ==> ranked_before(
                    width,
                    path_to(grown_parents, grown_swaps, i as nat),
                    path_to(grown_parents, grown_swaps, j as nat),
                )
        }),
{
    let e = swaps[head as int].1;
    let nbs = neighbors(width, height, e as int);
    let nb = nbs[k];
    let sw = (e, nb);
    let n = width * height;
    let len = nodes.len() as int;
    let grown_nodes = nodes.push(x);
    let grown_parents = parents.push(head);
    let grown_swaps = swaps.push(sw);
    let head_path = path_to(parents, swaps, head as nat);
    let new_path = head_path.push(sw);
    lemma_neighbor_ranks(width, height, e);
    lemma_neighbors_on_board(width, height, e as int);
    lemma_grown_paths(parents, swaps, head, sw);
    assert forall|i: int, j: int|
        0 <= i < j < grown_nodes.len() && #[trigger] depth(grown_parents, grown_swaps, i)
            == #[trigger] depth(grown_parents, grown_swaps, j) implies ranked_before(
        width,
        path_to(grown_parents, grown_swaps, i as nat),
        path_to(grown_parents, grown_swaps, j as nat),
    ) by {
        if j < len {
            assert(depth(parents, swaps, i) == depth(parents, swaps, j));
        } else {
            assert(depth(parents, swaps, i) == depth(parents, swaps, head as int) + 1);
            assert(i > 0) by {
                if i == 0 {
                    assert(path_to(parents, swaps, 0) =~= Seq::<(usize, usize)>::empty());
                }
            }
            let p = parents[i];
            assert(p < i);
            assert(path_to(parents, swaps, i as nat) == path_to(parents, swaps, p as nat).push(
                swaps[i],
            ));
            assert(depth(parents, swaps, p as int) == depth(parents, swaps, head as int));
            if i < len_before {
                assert(p < head);
                assert(ranked_before(width, path_to(parents, swaps, p as nat), head_path));
                lemma_before_extend(width, path_to(parents, swaps, p as nat), head_path, swaps[i], sw);
            } else {
                lemma_before_last(width, head_path, swaps[i], sw);
            }
        }
    }
}

/// Adding the child of node `head` through `nbs[k]` keeps each path first
/// among the legal move lists of its length that reach its node.
proof fn lemma_push_rank_first(
    nodes: Seq<Seq<u8>>,
    parents: Seq<usize>,
    swaps: Seq<(usize, usize)>,
    start: Seq<u8>,
    width: int,
    height: int,
    head: usize,
    len_before: int,
    k: int,
    x: Seq<u8>,
)
    requires
        valid_dims(width, height),
        search_tree(nodes, parents, swaps, start, width, height),
        expanded(nodes, swaps, width, height, head as int),
        bfs_ordered(nodes, parents, swaps, start, width, height, head as int),
        first_in_rank(nodes, parents, swaps, start, width, height),
        head < len_before <= nodes.len(),
        0 <= k < neighbors(width, height, swaps[head as int].1 as int).len(),
        !nodes.contains(x),
        x == swap_cells(
            nodes[head as int],
            swaps[head as int].1 as int,
            neighbors(width, height, swaps[head as int].1 as int)[k] as int,
        ),
    ensures
        ({
            let sw = (swaps[head as int].1, neighbors(width, height, swaps[head as int].1 as int)[k]);
            let grown_nodes = nodes.push(x);
            let grown_parents = parents.push(head);
            let grown_swaps = swaps.push(sw);
            forall|j: int, ms: Seq<(usize, usize)>|
                0 <= j < grown_nodes.len() && legal_moves(start, width, height, ms)
                    && #[trigger] apply_moves(start, ms) == #[trigger] grown_nodes[j] && ms.len()
                    == depth(grown_parents, grown_swaps, j) ==> ms == path_to(
                    grown_parents,
                    grown_swaps,
                    j as nat,
                ) || ranked_before(width, path_to(grown_parents, grown_swaps, j as nat), ms)
        }),
{
    let e = swaps[head as int].1;
    let nbs = neighbors(width, height, e as int);
    let nb = nbs[k];
    let sw = (e, nb);
    let n = width * height;
    let len = nodes.len() as int;
    let grown_nodes = nodes.push(x);
    let grown_parents = parents.push(head);
    let grown_swaps = swaps.push(sw);
    let head_path = path_to(parents, swaps, head as nat);
    let new_path = head_path.push(sw);
    lemma_neighbor_ranks(width, height, e);
    lemma_neighbors_on_board(width, height, e as int);
    lemma_grown_paths(parents, swaps, head, sw);
    assert forall|j: int, ms: Seq<(usize, usize)>|
        0 <= j < grown_nodes.len() && legal_moves(start, width, height, ms) && #[trigger] apply_moves(
            start,
            ms,
        ) == #[trigger] grown_nodes[j] && ms.len() == depth(grown_parents, grown_swaps, j)
        implies ms == path_to(grown_parents, grown_swaps, j as nat) || ranked_before(
        width,
        path_to(grown_parents, grown_swaps, j as nat),
        ms,
    ) by {
        if j < len {
            assert(grown_nodes[j] == nodes[j]);
        } else {
            let pre = ms.take(ms.len() - 1);
            let m = ms.last();
            let last = seq![m];
            assert(ms =~= pre + last);
            assert(pre.push(m) =~= ms);
            lemma_moves_append(start, width, height, pre, last);
            lemma_reach(nodes, parents, swaps, start, width, height, head as int, pre);
            let y = apply_moves(start, pre);
            let jj = choose|jj: int| 0 <= jj < len && nodes[jj] == y;
            assert(depth(parents, swaps, jj) <= pre.len());
            reveal_with_fuel(legal_moves, 2);
            reveal_with_fuel(apply_moves, 2);
            assert(last.drop_first() =~= Seq::<(usize, usize)>::empty());
            assert(apply_moves(y, last) == swap_cells(y, m.0 as int, m.1 as int));
            assert(legal_move(y, width, height, m));
            assert(valid_board(nodes[jj], n));
            lemma_sentinel_unique(nodes[jj], n, m.0 as int, swaps[jj].1 as int);
            if jj < head {
                let nbj = neighbors(width, height, swaps[jj].1 as int);
                let kk = choose|kk: int| 0 <= kk < nbj.len() && nbj[kk] == m.1;
                assert(nodes.contains(swap_cells(nodes[jj], swaps[jj].1 as int, nbj[kk] as int)));
                assert(false);
            }
            assert(depth(parents, swaps, head as int) <= depth(parents, swaps, jj));
            assert(pre == path_to(parents, swaps, jj as nat) || ranked_before(
                width,
                path_to(parents, swaps, jj as nat),
                pre,
            ));
            if jj > head {
                assert(ranked_before(width, head_path, path_to(parents, swaps, jj as nat)));
                if pre != path_to(parents, swaps, jj as nat) {
                    lemma_before_trans(width, head_path, path_to(parents, swaps, jj as nat), pre);
                }
                lemma_before_extend(width, head_path, pre, sw, m);
            } else if pre == head_path {
                assert(valid_board(nodes[head as int], n));
                if m.1 != nb {
                    let s0 = nodes[head as int];
                    assert(x[nb as int] == SENTINEL);
                    assert(nb != e);
                    assert(x[nb as int] == s0[nb as int]);
                    lemma_sentinel_unique(s0, n, nb as int, e as int);
                }
                assert(ms =~= new_path);
            } else {
                lemma_before_extend(width, head_path, pre, sw, m);
            }
        }
    }
}

/// Adding the child of node `head` through its neighbour `nbs[k]`, after the
/// children through `nbs[0 .. k]`, keeps the nodes in the order of their
/// paths.
proof fn lemma_push_rank(
    nodes: Seq<Seq<u8>>,
    parents: Seq<usize>,
    swaps: Seq<(usize, usize)>,
    start: Seq<u8>,
    width: int,
    height: int,
    head: usize,
    len_before: int,
    k: int,
    x: Seq<u8>,
)
    requires
        valid_dims(width, height),
        search_tree(nodes, parents, swaps, start, width, height),
        expanded(nodes, swaps, width, height, head as int),
        bfs_ordered(nodes, parents, swaps, start, width, height, head as int),
        first_in_rank(nodes, parents, swaps, start, width, height),
        head < len_before <= nodes.len(),
        forall|i: int| 0 < i < len_before ==> #[trigger] parents[i] < head,
        0 <= k < neighbors(width, height, swaps[head as int].1 as int).len(),
        forall|i: int|
            len_before <= i < nodes.len() ==> #[trigger] parents[i] == head && swaps[i].0
                == swaps[head as int].1 && move_rank(width, swaps[i]) < move_rank(
                width,
                (swaps[head as int].1, neighbors(width, height, swaps[head as int].1 as int)[k]),
            ),
        !nodes.contains(x),
        x == swap_cells(
            nodes[head as int],
            swaps[head as int].1 as int,
            neighbors(width, height, swaps[head as int].1 as int)[k] as int,
        ),
    ensures
        first_in_rank(
            nodes.push(x),
            parents.push(head),
            swaps.push(
                (swaps[head as int].1, neighbors(width, height, swaps[head as int].1 as int)[k]),
            ),
            start,
            width,
            height,
        ),
{
    lemma_push_rank_order(nodes, parents, swaps, start, width, height, head, len_before, k, x);
    lemma_push_rank_first(nodes, parents, swaps, start, width, height, head, len_before, k, x);
}

/// Once every node is expanded, legal moves never leave the tree.
proof fn lemma_closed(
    nodes: Seq<Seq<u8>>,
    parents: Seq<usize>,
    swaps: Seq<(usize, usize)>,
    start: Seq<u8>,
    width: int,
    height: int,
    i: int,
    ms: Seq<(usize, usize)>,
)
    requires
        valid_dims(width, height),
        search_tree(nodes, parents, swaps, start, width, height),
        expanded(nodes, swaps, width, height, nodes.len() as int),
        0 <= i < nodes.len(),
        legal_moves(nodes[i], width, height, ms),
    ensures
        nodes.contains(apply_moves(nodes[i], ms)),
    decreases ms.len(),
{
    if ms.len() > 0 {
        let m = ms[0];
        let s = nodes[i];
        assert(valid_board(s, width * height));
        lemma_sentinel_unique(s, width * height, m.0 as int, swaps[i].1 as int);
        let nbs = neighbors(width, height, swaps[i].1 as int);
        let k = choose|k: int| 0 <= k < nbs.len() && nbs[k] == m.1;
        assert(nodes.contains(swap_cells(s, swaps[i].1 as int, nbs[k] as int)));
        let j = choose|j: int| 0 <= j < nodes.len() && nodes[j] == swap_cells(s, m.0 as int, m.1 as int);
        lemma_closed(nodes, parents, swaps, start, width, height, j, ms.drop_first());
    }
}

/// Find the shortest order of swaps that solves a puzzle.
///
/// The search runs breadth first from `fields`: a state is recorded with the
/// move that first reached it, and every later path to it, being no
/// shorter, is dropped. Neighbours are tried up, down, left, right, so among
/// the shortest solutions the one that comes back is the first when move
/// lists are compared move by move in that order of directions. A move
/// `(a, b)` swaps the empty cell `a` with its neighbour `b`.
pub fn find_swap_order(fields: &[u8], width: usize, height: usize) -> (r: Result<
    Vec<(usize, usize)>,
    PuzzleError,
>)
    ensures
        !(valid_dims(width as int, height as int) && fields@.len() == width * height) <==> r
            == Err::<Vec<(usize, usize)>, PuzzleError>(PuzzleError::InvalidDimensions),
        valid_dims(width as int, height as int) && fields@.len() == width * height
            && !valid_board(fields@, width * height) <==> r == Err::<
            Vec<(usize, usize)>,
            PuzzleError,
        >(PuzzleError::ValueNotFound),
        puzzle_input(fields@, width as int, height as int) ==> (r == Err::<
            Vec<(usize, usize)>,
            PuzzleError,
        >(PuzzleError::NoSolutionFound) <==> !solvable(fields@, width as int, height as int)),
        r is Ok ==> legal_moves(fields@, width as int, height as int, r->Ok_0@) && apply_moves(
            fields@,
            r->Ok_0@,
        ) == solved_board(width * height),
        r is Ok ==> forall|ms: Seq<(usize, usize)>|
            legal_moves(fields@, width as int, height as int, ms) && #[trigger] apply_moves(
                fields@,
                ms,
            ) == solved_board(width * height) ==> r->Ok_0@.len() <= ms.len(),
        r is Ok ==> forall|ms: Seq<(usize, usize)>|
            legal_moves(fields@, width as int, height as int, ms) && #[trigger] apply_moves(
                fields@,
                ms,
            ) == solved_board(width * height) && ms.len() == r->Ok_0@.len() ==> ms == r->Ok_0@
                || ranked_before(width as int, r->Ok_0@, ms),
        puzzle_input(fields@, width as int, height as int) && fields@ == solved_board(
            width * height,
        ) ==> r is Ok && r->Ok_0@.len() == 0,
{
    if !dims_ok(width, height) || fields.len() != width * height {
        return Err(PuzzleError::InvalidDimensions);
    }
    let n = width * height;
    proof {
        lemma_board_has_cells(width as int, height as int);
    }
    if !check_board(fields, n) {
        return Err(PuzzleError::ValueNotFound);
    }
    let ghost w = width as int;
    let ghost h = height as int;
    let start = copy_tiles(fields);
    let target = initialize_fields(n);
    if same_tiles(&start, &target) {
        proof {
            let none = Seq::<(usize, usize)>::empty();
            assert(legal_moves(fields@, w, h, none));
            assert(apply_moves(fields@, none) == solved_board(fields@.len() as int));
            assert forall|ms: Seq<(usize, usize)>| ms.len() == 0 implies ms == none by {
                assert(ms =~= none);
            }
        }
        return Ok(Vec::new());
    }
    proof {
        assert(is_tile_value(n as int, SENTINEL));
        lemma_solved_valid(n as int);
        assert(fields@.contains(SENTINEL));
    }
    let empty_idx = match get_idx_of_val(fields, SENTINEL) {
        Ok(i) => i,
        Err(e) => {
            return Err(e);
        },
    };
    let ghost big = pow(256, n as nat);
    let mut table = StateTable::new();
    let mut parents: Vec<usize> = Vec::new();
    let mut swaps: Vec<(usize, usize)> = Vec::new();
    table.push(start);
    parents.push(0);
    swaps.push((empty_idx, empty_idx));
    proof {
        table.lemma_distinct();
        lemma_distinct_states_bound(table@, n as nat);
        assert(table@[0] == fields@);
        assert(path_to(parents@, swaps@, 0) =~= Seq::<(usize, usize)>::empty());
        assert(depth(parents@, swaps@, 0) == 0);
        assert forall|j: int, ms: Seq<(usize, usize)>|
            0 <= j < table@.len() && legal_moves(fields@, w, h, ms) && #[trigger] apply_moves(
                fields@,
                ms,
            ) == #[trigger] table@[j] && ms.len() == depth(parents@, swaps@, j) implies ms
            == path_to(parents@, swaps@, j as nat) || ranked_before(
            w,
            path_to(parents@, swaps@, j as nat),
            ms,
        ) by {
            assert(ms =~= path_to(parents@, swaps@, 0));
        }
    }
    let mut head: usize = 0;
    while head < table.len()
        invariant
            valid_dims(w, h),
            w == width as int,
            h == height as int,
            n == w * h,
            target@ == solved_board(n as int),
            valid_board(target@, n as int),
            valid_board(fields@, n as int),
            table.wf(),
            search_tree(table@, parents@, swaps@, fields@, w, h),
            expanded(table@, swaps@, w, h, head as int),
            bfs_ordered(table@, parents@, swaps@, fields@, w, h, head as int),
            first_in_rank(table@, parents@, swaps@, fields@, w, h),
            forall|i: int| 0 < i < table@.len() ==> #[trigger] parents@[i] < head,
            !table@.contains(target@),
            head <= table@.len(),
            table@.len() <= big,
            big == pow(256, n as nat),
        decreases 2 * big - table@.len() - head,
    {
        let cur = copy_tiles(table.get(head));
        let e = swaps[head].1;
        let nbs = neighbours_of(width, height, e);
        proof {
            lemma_neighbors_on_board(w, h, e as int);
            assert(valid_board(table@[head as int], n as int));
        }
        let ghost len_before = table@.len();
        let mut k: usize = 0;
        while k < nbs.len()
            invariant
                valid_dims(w, h),
                w == width as int,
                h == height as int,
                n == w * h,
                target@ == solved_board(n as int),
                valid_board(target@, n as int),
                valid_board(fields@, n as int),
                table.wf(),
                search_tree(table@, parents@, swaps@, fields@, w, h),
                expanded(table@, swaps@, w, h, head as int),
                bfs_ordered(table@, parents@, swaps@, fields@, w, h, head as int),
                first_in_rank(table@, parents@, swaps@, fields@, w, h),
                head < len_before,
                forall|i: int| 0 < i < len_before ==> #[trigger] parents@[i] < head,
                forall|i: int|
                    len_before <= i < table@.len() ==> #[trigger] parents@[i] == head
                        && swaps@[i].0 == e,
                k < nbs@.len() ==> forall|i: int|
                    len_before <= i < table@.len() ==> move_rank(w, #[trigger] swaps@[i])
                        < move_rank(w, (e, nbs@[k as int])),
                !table@.contains(target@),
                head < table@.len(),
                len_before <= table@.len() <= big,
                big == pow(256, n as nat),
                cur@ == table@[head as int],
                e == swaps@[head as int].1,
                nbs@ == neighbors(w, h, e as int),
                forall|x: int| 0 <= x < nbs@.len() ==> #[trigger] nbs@[x] < n,
                k <= nbs@.len(),
                forall|x: int|
                    0 <= x < k ==> table@.contains(
                        swap_cells(cur@, e as int, #[trigger] nbs@[x] as int),
                    ),
            decreases nbs@.len() - k,
        {
            let nb = nbs[k];
            let mut next = copy_tiles(&cur);
            let moved = next[nb];
            next.set(e, moved);
            next.set(nb, SENTINEL);
            assert(next@ =~= swap_cells(cur@, e as int, nb as int));
            match table.find(&next) {
                Some(_) => {
                    proof {
                        lemma_neighbor_ranks(w, h, e);
                        if k + 1 < nbs@.len() {
                            assert(move_rank(w, (e, nbs@[k as int])) < move_rank(
                                w,
                                (e, nbs@[k + 1]),
                            ));
                        }
                    }
                },
                None => {
                    let ghost old_view = table@;
                    let ghost old_parents = parents@;
                    let ghost old_swaps = swaps@;
                    proof {
                        assert(nbs@[k as int] == nb);
                        assert(legal_move(cur@, w, h, (e, nb)));
                    }
                    let found = same_tiles(&next, &target);
                    let ghost next_view = next@;
                    table.push(next);
                    parents.push(head);
                    swaps.push((e, nb));
                    proof {
                        table.lemma_distinct();
                        lemma_push_node(
                            old_view,
                            old_parents,
                            old_swaps,
                            fields@,
                            w,
                            h,
                            head,
                            nb,
                            next_view,
                        );
                        assert(table@ == old_view.push(next_view));
                        assert(parents@ == old_parents.push(head));
                        assert(swaps@ == old_swaps.push((e, nb)));
                        lemma_push_rank(
                            old_view,
                            old_parents,
                            old_swaps,
                            fields@,
                            w,
                            h,
                            head,
                            len_before as int,
                            k as int,
                            next_view,
                        );
                        lemma_nodes_bound(table@, n as nat);
                        lemma_neighbor_ranks(w, h, e);
                        assert forall|i: int|
                            len_before <= i < table@.len() implies #[trigger] parents@[i] == head
                            && swaps@[i].0 == e && (k + 1 < nbs@.len() ==> move_rank(w, swaps@[i])
                            < move_rank(w, (e, nbs@[k + 1]))) by {
                            if k + 1 < nbs@.len() {
                                assert(move_rank(w, (e, nbs@[k as int])) < move_rank(
                                    w,
                                    (e, nbs@[k + 1]),
                                ));
                            }
                            if i < old_view.len() {
                                assert(parents@[i] == old_parents[i]);
                                assert(swaps@[i] == old_swaps[i]);
                            }
                        }
                        assert forall|i: int| 0 < i < len_before implies #[trigger] parents@[i]
                            < head by {
                            assert(parents@[i] == old_parents[i]);
                        }
                        assert(table@[old_view.len() as int] == next_view);
                    }
                    if found {
                        let t = table.len() - 1;
                        let moves = trace_back(&parents, &swaps, t);
                        proof {
                            lemma_path_reaches(table@, parents@, swaps@, fields@, w, h, t as nat);
                            assert(table@[t as int] == target@);
                            assert(moves@ == path_to(parents@, swaps@, t as nat));
                        }
                        return Ok(moves);
                    }
                },
            }
            proof {
                assert(table@.contains(swap_cells(cur@, e as int, nb as int)));
            }
            k = k + 1;
        }
        proof {
            assert(expanded(table@, swaps@, w, h, head + 1)) by {
                assert forall|i: int, x: int|
                    0 <= i < head + 1 && 0 <= x < neighbors(w, h, swaps@[i].1 as int).len()
                    implies table@.contains(
                    swap_cells(
                        table@[i],
                        swaps@[i].1 as int,
                        #[trigger] neighbors(w, h, swaps@[i].1 as int)[x] as int,
                    ),
                ) by {
                    if i == head {
                        assert(nbs@[x] == neighbors(w, h, swaps@[i].1 as int)[x]);
                    }
                }
            }
        }
        proof {
            assert forall|i: int| 0 < i < table@.len() implies #[trigger] parents@[i] < head + 1 by {
                if i >= len_before {
                    assert(parents@[i] == head);
                }
            }
            if head + 1 < table@.len() {
                assert forall|j: int| 0 <= j < table@.len() implies #[trigger] depth(
                    parents@,
                    swaps@,
                    j,
                ) <= depth(parents@, swaps@, head + 1) + 1 by {
                    assert(depth(parents@, swaps@, j) <= depth(parents@, swaps@, head as int) + 1);
                    assert(depth(parents@, swaps@, head as int) <= depth(parents@, swaps@, head + 1));
                }
            }
        }
        head = head + 1;
    }
    proof {
        assert forall|ms: Seq<(usize, usize)>|
            legal_moves(fields@, w, h, ms) implies #[trigger] apply_moves(fields@, ms)
            != solved_board(fields@.len() as int) by {
            lemma_closed(table@, parents@, swaps@, fields@, w, h, 0, ms);
        }
    }
    Err(PuzzleError::NoSolutionFound)
}

/// The moves along the parent links from node 0 to node `t`, first move
/// first.
fn trace_back(parents: &Vec<usize>, swaps: &Vec<(usize, usize)>, t: usize) -> (r: Vec<
    (usize, usize),
>)
    requires
        t < parents@.len(),
        parents@.len() == swaps@.len(),
        forall|i: int| 0 < i < parents@.len() ==> #[trigger] parents@[i] < i,
    ensures
        r@ == path_to(parents@, swaps@, t as nat),
{
    let mut rev: Vec<(usize, usize)> = Vec::new();
    let mut cur = t;
    assert(path_to(parents@, swaps@, t as nat) =~= path_to(parents@, swaps@, t as nat) + rev@.reverse());
    while cur != 0
        invariant
            t < parents@.len(),
            parents@.len() == swaps@.len(),
            forall|i: int| 0 < i < parents@.len() ==> #[trigger] parents@[i] < i,
            cur < parents@.len(),
            path_to(parents@, swaps@, t as nat) == path_to(parents@, swaps@, cur as nat)
                + rev@.reverse(),
        decreases cur,
    {
        let ghost old_rev = rev@;
        assert(parents@[cur as int] < cur);
        rev.push(swaps[cur]);
        assert(rev@.reverse() =~= seq![swaps@[cur as int]] + old_rev.reverse());
        assert(path_to(parents@, swaps@, cur as nat) == path_to(
            parents@,
            swaps@,
            parents@[cur as int] as nat,
        ).push(swaps@[cur as int]));
        assert(path_to(parents@, swaps@, t as nat) =~= path_to(
            parents@,
            swaps@,
            parents@[cur as int] as nat,
        ) + rev@.reverse());
        cur = parents[cur];
    }
    assert(path_to(parents@, swaps@, 0) =~= Seq::<(usize, usize)>::empty());
    let mut out: Vec<(usize, usize)> = Vec::new();
    let mut k: usize = 0;
    while k < rev.len()
        invariant
            k <= rev@.len(),
            out@ =~= rev@.reverse().take(k as int),
        decreases rev@.len() - k,
    {
        out.push(rev[rev.len() - 1 - k]);
        k = k + 1;
    }
    assert(out@ =~= rev@.reverse());
    out
}

/// Solving again after a solution finds nothing left to do: the board that
/// the moves leave is a board of the same dimensions and is the solved one,
/// on which `find_swap_order` returns an empty list.
pub proof fn lemma_solution_leaves_solved(
    s: Seq<u8>,
    width: int,
    height: int,
    ms: Seq<(usize, usize)>,
)
    requires
        puzzle_input(s, width, height),
        legal_moves(s, width, height, ms),
        apply_moves(s, ms) == solved_board(width * height),
    ensures
        puzzle_input(apply_moves(s, ms), width, height),
        apply_moves(s, ms) == solved_board(width * height),
{
    lemma_board_has_cells(width, height);
    lemma_solved_valid(width * height);
}

} // verus!
