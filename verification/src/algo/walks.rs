//! The ways a depth-first search can take from a board, and what a
//! search has settled once it has tried them.

use crate::algo::heuristics::Heuristic;
use crate::algo::model::{
    continues, dirs_of, distinct_boards, history, legal, lemma_continues_replays,
    lemma_history_follows_moves, lemma_moved_is_board, lemma_neighbors_membership, moved,
    neighbors, node, playable, replay, Step,
};
use crate::board::utils::is_board;
use vstd::prelude::*;

verus! {

/// Moves made so far plus the estimate of those still to make.
pub open spec fn total_cost<H: Heuristic>(
    h: &H,
    size: int,
    target: Seq<i32>,
    board: Seq<i32>,
    cost: int,
) -> int {
    cost + h.cost(size, board, target)
}

/// The search goes on from a node: it is within the bound and is not the target.
pub open spec fn expanded<H: Heuristic>(
    h: &H,
    size: int,
    target: Seq<i32>,
    bound: int,
    board: Seq<i32>,
    cost: int,
) -> bool {
    total_cost(h, size, target, board, cost) <= bound && board != target
}

/// The board on which the walk along `ext` ends.
pub open spec fn walk_end(path: Seq<Step>, ext: Seq<Step>) -> Seq<i32> {
    node(path.last().1, ext, ext.len() as int)
}

/// Total cost of the board on which the walk along `ext` ends.
pub open spec fn walk_cost<H: Heuristic>(
    h: &H,
    size: int,
    target: Seq<i32>,
    path: Seq<Step>,
    cost: int,
    ext: Seq<Step>,
) -> int {
    total_cost(h, size, target, walk_end(path, ext), cost + ext.len())
}

/// `ext` is a way on which the search continues `path`, whose last board
/// has been reached with `cost` moves: every step is a legal move from the
/// board before it, every board before the last one is expanded, and no
/// board of `ext` occurs in `path` or twice in `ext`.
#[verifier::opaque]
pub open spec fn is_walk<H: Heuristic>(
    h: &H,
    size: int,
    target: Seq<i32>,
    bound: int,
    path: Seq<Step>,
    cost: int,
    ext: Seq<Step>,
) -> bool {
    &&& path.len() > 0
    &&& forall|k: int|
        0 <= k < ext.len() ==> {
            &&& legal(size, node(path.last().1, ext, k), (#[trigger] ext[k]).0)
            &&& ext[k].1 == moved(size, node(path.last().1, ext, k), ext[k].0)
            &&& expanded(h, size, target, bound, node(path.last().1, ext, k), cost + k)
        }
    &&& forall|k: int, j: int|
        0 <= k < ext.len() && 0 <= j < path.len() ==> (#[trigger] ext[k]).1 != (#[trigger] path[j]).1
    &&& forall|j: int, k: int|
        0 <= j < k < ext.len() ==> (#[trigger] ext[j]).1 != (#[trigger] ext[k]).1
}

/// The walk along `ext` ends on the target, within the bound.
pub open spec fn reaches_target<H: Heuristic>(
    h: &H,
    size: int,
    target: Seq<i32>,
    bound: int,
    path: Seq<Step>,
    cost: int,
    ext: Seq<Step>,
) -> bool {
    &&& is_walk(h, size, target, bound, path, cost, ext)
    &&& walk_end(path, ext) == target
    &&& walk_cost(h, size, target, path, cost, ext) <= bound
}

/// The walk along `ext` ends on a board whose total cost is beyond the bound.
pub open spec fn leaves_bound<H: Heuristic>(
    h: &H,
    size: int,
    target: Seq<i32>,
    bound: int,
    path: Seq<Step>,
    cost: int,
    ext: Seq<Step>,
) -> bool {
    &&& is_walk(h, size, target, bound, path, cost, ext)
    &&& walk_cost(h, size, target, path, cost, ext) > bound
}

/// A cost as the search reports it: cut off at the largest `i32`.
pub open spec fn capped(value: int) -> int {
    if value > i32::MAX {
        i32::MAX as int
    } else {
        value
    }
}

/// A walk with its first step taken: the rest is a walk from the board
/// that the first step leads to, one move later, with the same end.
pub proof fn lemma_walk_tail<H: Heuristic>(
    h: &H,
    size: int,
    target: Seq<i32>,
    bound: int,
    path: Seq<Step>,
    cost: int,
    ext: Seq<Step>,
)
    requires
        is_walk(h, size, target, bound, path, cost, ext),
        ext.len() > 0,
    ensures
        legal(size, path.last().1, ext[0].0),
        ext[0].1 == moved(size, path.last().1, ext[0].0),
        expanded(h, size, target, bound, path.last().1, cost),
        forall|j: int| 0 <= j < path.len() ==> (#[trigger] path[j]).1 != ext[0].1,
        is_walk(h, size, target, bound, path.push(ext[0]), cost + 1, ext.drop_first()),
        walk_end(path.push(ext[0]), ext.drop_first()) == walk_end(path, ext),
        walk_cost(h, size, target, path.push(ext[0]), cost + 1, ext.drop_first()) == walk_cost(
            h,
            size,
            target,
            path,
            cost,
            ext,
        ),
{
    reveal(is_walk);
    let longer = path.push(ext[0]);
    let rest = ext.drop_first();
    let from = path.last().1;
    assert(node(from, ext, 0) == from);
    assert(ext[0].1 == moved(size, from, ext[0].0));
    assert(longer.last() == ext[0]);
    assert forall|k: int| 0 <= k < rest.len() implies {
        &&& legal(size, node(longer.last().1, rest, k), (#[trigger] rest[k]).0)
        &&& rest[k].1 == moved(size, node(longer.last().1, rest, k), rest[k].0)
        &&& expanded(h, size, target, bound, node(longer.last().1, rest, k), cost + 1 + k)
    } by {
        assert(rest[k] == ext[k + 1]);
        assert(node(longer.last().1, rest, k) == node(from, ext, k + 1));
    }
    assert forall|k: int, j: int| 0 <= k < rest.len() && 0 <= j < longer.len() implies (
    #[trigger] rest[k]).1 != (#[trigger] longer[j]).1 by {
        assert(rest[k] == ext[k + 1]);
        if j < path.len() {
            assert(longer[j] == path[j]);
        } else {
            assert(longer[j] == ext[0]);
        }
    }
    assert forall|j: int, k: int| 0 <= j < k < rest.len() implies (#[trigger] rest[j]).1 != (
    #[trigger] rest[k]).1 by {
        assert(rest[j] == ext[j + 1]);
        assert(rest[k] == ext[k + 1]);
    }
    assert(node(longer.last().1, rest, rest.len() as int) == node(from, ext, ext.len() as int));
}

/// A walk from the board that one more step leads to, put behind that
/// step, is a walk from the board before it, with the same end.
pub proof fn lemma_walk_cons<H: Heuristic>(
    h: &H,
    size: int,
    target: Seq<i32>,
    bound: int,
    path: Seq<Step>,
    cost: int,
    step: Step,
    rest: Seq<Step>,
)
    requires
        path.len() > 0,
        legal(size, path.last().1, step.0),
        step.1 == moved(size, path.last().1, step.0),
        expanded(h, size, target, bound, path.last().1, cost),
        forall|j: int| 0 <= j < path.len() ==> (#[trigger] path[j]).1 != step.1,
        is_walk(h, size, target, bound, path.push(step), cost + 1, rest),
    ensures
        is_walk(h, size, target, bound, path, cost, seq![step] + rest),
        walk_end(path, seq![step] + rest) == walk_end(path.push(step), rest),
        walk_cost(h, size, target, path, cost, seq![step] + rest) == walk_cost(
            h,
            size,
            target,
            path.push(step),
            cost + 1,
            rest,
        ),
        path + (seq![step] + rest) == path.push(step) + rest,
{
    reveal(is_walk);
    let longer = path.push(step);
    let ext = seq![step] + rest;
    let from = path.last().1;
    assert(longer.last() == step);
    assert forall|k: int| 0 <= k < ext.len() implies {
        &&& legal(size, node(from, ext, k), (#[trigger] ext[k]).0)
        &&& ext[k].1 == moved(size, node(from, ext, k), ext[k].0)
        &&& expanded(h, size, target, bound, node(from, ext, k), cost + k)
    } by {
        if k == 0 {
            assert(ext[0] == step);
        } else {
            assert(ext[k] == rest[k - 1]);
            assert(node(from, ext, k) == node(longer.last().1, rest, k - 1));
        }
    }
    assert forall|k: int, j: int| 0 <= k < ext.len() && 0 <= j < path.len() implies (
    #[trigger] ext[k]).1 != (#[trigger] path[j]).1 by {
        if k == 0 {
            assert(ext[0] == step);
        } else {
            assert(ext[k] == rest[k - 1]);
            assert(longer[j] == path[j]);
        }
    }
    assert forall|j: int, k: int| 0 <= j < k < ext.len() implies (#[trigger] ext[j]).1 != (
    #[trigger] ext[k]).1 by {
        assert(ext[k] == rest[k - 1]);
        if j == 0 {
            assert(ext[0] == step);
            assert(longer[path.len() as int] == step);
        } else {
            assert(ext[j] == rest[j - 1]);
        }
    }
    assert(node(from, ext, ext.len() as int) == node(longer.last().1, rest, rest.len() as int));
    assert(path + ext =~= longer + rest);
}

/// The first step of a walk is one of the neighbours of the last board of the path.
pub proof fn lemma_walk_starts_with_neighbor<H: Heuristic>(
    h: &H,
    size: int,
    target: Seq<i32>,
    bound: int,
    path: Seq<Step>,
    cost: int,
    ext: Seq<Step>,
)
    requires
        is_walk(h, size, target, bound, path, cost, ext),
        ext.len() > 0,
        is_board(size, path.last().1),
    ensures
        exists|i: int|
            0 <= i < neighbors(size, path.last().1).len() && #[trigger] neighbors(
                size,
                path.last().1,
            )[i] == ext[0],
{
    reveal(is_walk);
    let from = path.last().1;
    assert(node(from, ext, 0) == from);
    assert(legal(size, from, ext[0].0));
    lemma_moved_is_board(size, from, ext[0].0);
    assert(path[path.len() - 1].1 != ext[0].1);
    lemma_neighbors_membership(size, from);
}

/// A path without a repeated board, walked on, has no repeated board.
pub proof fn lemma_walk_keeps_boards_distinct<H: Heuristic>(
    h: &H,
    size: int,
    target: Seq<i32>,
    bound: int,
    path: Seq<Step>,
    cost: int,
    ext: Seq<Step>,
)
    requires
        is_walk(h, size, target, bound, path, cost, ext),
        distinct_boards(path),
    ensures
        distinct_boards(path + ext),
{
    reveal(is_walk);
    let whole = path + ext;
    assert forall|i: int, j: int| 0 <= i < j < whole.len() implies (#[trigger] whole[i]).1 != (
    #[trigger] whole[j]).1 by {
        if j < path.len() {
            assert(whole[i] == path[i] && whole[j] == path[j]);
        } else if i < path.len() {
            assert(whole[i] == path[i] && whole[j] == ext[j - path.len()]);
        } else {
            assert(whole[i] == ext[i - path.len()] && whole[j] == ext[j - path.len()]);
        }
    }
}

/// Some walk from the last board of `path` reaches the target.
pub open spec fn some_reaches<H: Heuristic>(
    h: &H,
    size: int,
    target: Seq<i32>,
    bound: int,
    path: Seq<Step>,
    cost: int,
) -> bool {
    exists|ext: Seq<Step>| #[trigger] reaches_target(h, size, target, bound, path, cost, ext)
}

/// No walk from the last board of `path` leaves the bound at a capped cost under `least`.
pub open spec fn none_leaves_below<H: Heuristic>(
    h: &H,
    size: int,
    target: Seq<i32>,
    bound: int,
    path: Seq<Step>,
    cost: int,
    least: int,
) -> bool {
    forall|ext: Seq<Step>| #[trigger]
        leaves_bound(h, size, target, bound, path, cost, ext) ==> least <= capped(
            walk_cost(h, size, target, path, cost, ext),
        )
}

/// `least` is the largest `i32`, or the capped cost at which some walk
/// from the last board of `path` leaves the bound.
pub open spec fn attained<H: Heuristic>(
    h: &H,
    size: int,
    target: Seq<i32>,
    bound: int,
    path: Seq<Step>,
    cost: int,
    least: int,
) -> bool {
    least == i32::MAX || exists|ext: Seq<Step>| #[trigger]
        leaves_bound(h, size, target, bound, path, cost, ext) && least == capped(
            walk_cost(h, size, target, path, cost, ext),
        )
}

/// Of the walks that begin with one of the first `count` steps of `steps`,
/// none reaches the target and none leaves the bound at a capped cost
/// under `least`.
#[verifier::opaque]
pub open spec fn settled<H: Heuristic>(
    h: &H,
    size: int,
    target: Seq<i32>,
    bound: int,
    path: Seq<Step>,
    cost: int,
    steps: Seq<Step>,
    count: int,
    least: int,
) -> bool {
    forall|ext: Seq<Step>, k: int|
        0 <= k < count && k < steps.len() && ext.len() > 0 && ext[0] == #[trigger] steps[k]
            && #[trigger] is_walk(h, size, target, bound, path, cost, ext) ==> !reaches_target(
            h,
            size,
            target,
            bound,
            path,
            cost,
            ext,
        ) && (leaves_bound(h, size, target, bound, path, cost, ext) ==> least <= capped(
            walk_cost(h, size, target, path, cost, ext),
        ))
}

/// Before any step is tried, nothing has to be shown.
pub proof fn lemma_settled_start<H: Heuristic>(
    h: &H,
    size: int,
    target: Seq<i32>,
    bound: int,
    path: Seq<Step>,
    cost: int,
    steps: Seq<Step>,
    least: int,
)
    ensures
        settled(h, size, target, bound, path, cost, steps, 0, least),
{
    reveal(settled);
}

/// A step onto a board that the path already holds begins no walk.
pub proof fn lemma_settled_blocked<H: Heuristic>(
    h: &H,
    size: int,
    target: Seq<i32>,
    bound: int,
    path: Seq<Step>,
    cost: int,
    steps: Seq<Step>,
    count: int,
    least: int,
)
    requires
        0 <= count < steps.len(),
        settled(h, size, target, bound, path, cost, steps, count, least),
        exists|j: int| 0 <= j < path.len() && (#[trigger] path[j]).1 == steps[count].1,
    ensures
        settled(h, size, target, bound, path, cost, steps, count + 1, least),
{
    reveal(settled);
    reveal(is_walk);
    let j = choose|j: int| 0 <= j < path.len() && (#[trigger] path[j]).1 == steps[count].1;
    assert forall|ext: Seq<Step>|
        ext.len() > 0 && ext[0] == steps[count] implies !#[trigger] is_walk(
        h,
        size,
        target,
        bound,
        path,
        cost,
        ext,
    ) by {
        if is_walk(h, size, target, bound, path, cost, ext) {
            assert(ext[0].1 != path[j].1);
        }
    }
}

/// What the search below one step has settled holds of every walk that
/// begins with that step.
pub proof fn lemma_settled_closed<H: Heuristic>(
    h: &H,
    size: int,
    target: Seq<i32>,
    bound: int,
    path: Seq<Step>,
    cost: int,
    steps: Seq<Step>,
    count: int,
    least: int,
    below: int,
)
    requires
        0 <= count < steps.len(),
        settled(h, size, target, bound, path, cost, steps, count, least),
        !some_reaches(h, size, target, bound, path.push(steps[count]), cost + 1),
        none_leaves_below(h, size, target, bound, path.push(steps[count]), cost + 1, below),
    ensures
        settled(
            h,
            size,
            target,
            bound,
            path,
            cost,
            steps,
            count + 1,
            if below < least {
                below
            } else {
                least
            },
        ),
{
    reveal(settled);
    let step = steps[count];
    assert forall|ext: Seq<Step>|
        ext.len() > 0 && ext[0] == step && #[trigger] is_walk(
            h,
            size,
            target,
            bound,
            path,
            cost,
            ext,
        ) implies !reaches_target(h, size, target, bound, path, cost, ext) && (leaves_bound(
        h,
        size,
        target,
        bound,
        path,
        cost,
        ext,
    ) ==> below <= capped(walk_cost(h, size, target, path, cost, ext))) by {
        lemma_walk_tail(h, size, target, bound, path, cost, ext);
        let rest = ext.drop_first();
        assert(!reaches_target(h, size, target, bound, path.push(step), cost + 1, rest));
        if leaves_bound(h, size, target, bound, path, cost, ext) {
            assert(leaves_bound(h, size, target, bound, path.push(step), cost + 1, rest));
        }
    }
}

/// Once every neighbour of an expanded board is settled, every walk from
/// that board is.
pub proof fn lemma_settled_all<H: Heuristic>(
    h: &H,
    size: int,
    target: Seq<i32>,
    bound: int,
    path: Seq<Step>,
    cost: int,
    least: int,
)
    requires
        path.len() > 0,
        is_board(size, path.last().1),
        expanded(h, size, target, bound, path.last().1, cost),
        settled(
            h,
            size,
            target,
            bound,
            path,
            cost,
            neighbors(size, path.last().1),
            neighbors(size, path.last().1).len() as int,
            least,
        ),
    ensures
        !some_reaches(h, size, target, bound, path, cost),
        none_leaves_below(h, size, target, bound, path, cost, least),
{
    reveal(settled);
    let steps = neighbors(size, path.last().1);
    assert forall|ext: Seq<Step>| #[trigger]
        is_walk(h, size, target, bound, path, cost, ext) implies !reaches_target(
        h,
        size,
        target,
        bound,
        path,
        cost,
        ext,
    ) && (leaves_bound(h, size, target, bound, path, cost, ext) ==> least <= capped(
        walk_cost(h, size, target, path, cost, ext),
    )) by {
        if ext.len() > 0 {
            lemma_walk_starts_with_neighbor(h, size, target, bound, path, cost, ext);
            let k = choose|k: int| 0 <= k < steps.len() && #[trigger] steps[k] == ext[0];
            assert(ext[0] == steps[k]);
        }
    }
}

/// A board beyond the bound is where the only walk from it ends.
pub proof fn lemma_pruned<H: Heuristic>(
    h: &H,
    size: int,
    target: Seq<i32>,
    bound: int,
    path: Seq<Step>,
    cost: int,
)
    requires
        path.len() > 0,
        total_cost(h, size, target, path.last().1, cost) > bound,
    ensures
        !some_reaches(h, size, target, bound, path, cost),
        leaves_bound(h, size, target, bound, path, cost, Seq::empty()),
        walk_cost(h, size, target, path, cost, Seq::empty()) == total_cost(
            h,
            size,
            target,
            path.last().1,
            cost,
        ),
        none_leaves_below(
            h,
            size,
            target,
            bound,
            path,
            cost,
            capped(total_cost(h, size, target, path.last().1, cost)),
        ),
{
    reveal(is_walk);
    let from = path.last().1;
    assert forall|ext: Seq<Step>| #[trigger]
        is_walk(h, size, target, bound, path, cost, ext) implies ext =~= Seq::<Step>::empty() by {
        if ext.len() > 0 {
            let first = ext[0];
            assert(node(from, ext, 0) == from);
            assert(expanded(h, size, target, bound, node(from, ext, 0), cost + 0));
        }
    }
}

/// On the target and within the bound, the walk that takes no step reaches the target.
pub proof fn lemma_direct_hit<H: Heuristic>(
    h: &H,
    size: int,
    target: Seq<i32>,
    bound: int,
    path: Seq<Step>,
    cost: int,
)
    requires
        path.len() > 0,
    ensures
        is_walk(h, size, target, bound, path, cost, Seq::empty()),
        walk_end(path, Seq::empty()) == path.last().1,
        walk_cost(h, size, target, path, cost, Seq::empty()) == total_cost(
            h,
            size,
            target,
            path.last().1,
            cost,
        ),
        path + Seq::<Step>::empty() == path,
{
    reveal(is_walk);
    assert(path + Seq::<Step>::empty() =~= path);
}

/// A cost attained below one step is attained from the board before it.
pub proof fn lemma_attained_below<H: Heuristic>(
    h: &H,
    size: int,
    target: Seq<i32>,
    bound: int,
    path: Seq<Step>,
    cost: int,
    step: Step,
    least: int,
)
    requires
        path.len() > 0,
        legal(size, path.last().1, step.0),
        step.1 == moved(size, path.last().1, step.0),
        expanded(h, size, target, bound, path.last().1, cost),
        forall|j: int| 0 <= j < path.len() ==> (#[trigger] path[j]).1 != step.1,
        attained(h, size, target, bound, path.push(step), cost + 1, least),
    ensures
        attained(h, size, target, bound, path, cost, least),
{
    if least != i32::MAX {
        let rest = choose|rest: Seq<Step>| #[trigger]
            leaves_bound(h, size, target, bound, path.push(step), cost + 1, rest) && least
                == capped(walk_cost(h, size, target, path.push(step), cost + 1, rest));
        lemma_walk_cons(h, size, target, bound, path, cost, step, rest);
        assert(leaves_bound(h, size, target, bound, path, cost, seq![step] + rest));
    }
}

/// A walk continues from the last board of the path.
pub proof fn lemma_walk_continues<H: Heuristic>(
    h: &H,
    size: int,
    target: Seq<i32>,
    bound: int,
    path: Seq<Step>,
    cost: int,
    ext: Seq<Step>,
)
    requires
        is_walk(h, size, target, bound, path, cost, ext),
    ensures
        continues(size, path.last().1, ext),
{
    reveal(is_walk);
}

/// Total cost of board number `k` of the walk along `ext`.
pub open spec fn cost_at<H: Heuristic>(
    h: &H,
    size: int,
    target: Seq<i32>,
    path: Seq<Step>,
    cost: int,
    ext: Seq<Step>,
    k: int,
) -> int {
    total_cost(h, size, target, node(path.last().1, ext, k), cost + k)
}

/// The first board of a walk, from number `upto` on, whose total cost is
/// beyond `bound`; one more than the length of the walk where there is none.
proof fn lemma_first_beyond<H: Heuristic>(
    h: &H,
    size: int,
    target: Seq<i32>,
    bound: int,
    path: Seq<Step>,
    cost: int,
    ext: Seq<Step>,
    upto: int,
) -> (k: int)
    requires
        0 <= upto <= ext.len() + 1,
        forall|j: int| 0 <= j < upto ==> #[trigger] cost_at(h, size, target, path, cost, ext, j) <= bound,
    ensures
        upto <= k <= ext.len() + 1,
        forall|j: int| 0 <= j < k ==> #[trigger] cost_at(h, size, target, path, cost, ext, j) <= bound,
        k <= ext.len() ==> cost_at(h, size, target, path, cost, ext, k) > bound,
    decreases ext.len() + 1 - upto,
{
    if upto == ext.len() + 1 {
        upto
    } else if cost_at(h, size, target, path, cost, ext, upto) > bound {
        upto
    } else {
        lemma_first_beyond(h, size, target, bound, path, cost, ext, upto + 1)
    }
}

/// The part of a walk before the first board beyond a lower bound is
/// a walk under that lower bound, and ends on that board.
proof fn lemma_walk_prefix<H: Heuristic>(
    h: &H,
    size: int,
    target: Seq<i32>,
    bound: int,
    top: int,
    path: Seq<Step>,
    cost: int,
    ext: Seq<Step>,
    k: int,
)
    requires
        is_walk(h, size, target, top, path, cost, ext),
        0 <= k <= ext.len(),
        forall|j: int| 0 <= j < k ==> #[trigger] cost_at(h, size, target, path, cost, ext, j) <= bound,
    ensures
        is_walk(h, size, target, bound, path, cost, ext.take(k)),
        walk_cost(h, size, target, path, cost, ext.take(k)) == cost_at(
            h,
            size,
            target,
            path,
            cost,
            ext,
            k,
        ),
        walk_end(path, ext.take(k)) == node(path.last().1, ext, k),
{
    reveal(is_walk);
    let from = path.last().1;
    let part = ext.take(k);
    assert forall|j: int| 0 <= j < part.len() implies {
        &&& legal(size, node(from, part, j), (#[trigger] part[j]).0)
        &&& part[j].1 == moved(size, node(from, part, j), part[j].0)
        &&& expanded(h, size, target, bound, node(from, part, j), cost + j)
    } by {
        let step = ext[j];
        assert(part[j] == step);
        assert(node(from, part, j) == node(from, ext, j));
        assert(expanded(h, size, target, top, node(from, ext, j), cost + j));
        assert(cost_at(h, size, target, path, cost, ext, j) <= bound);
    }
    assert forall|i: int, j: int| 0 <= i < part.len() && 0 <= j < path.len() implies (
    #[trigger] part[i]).1 != (#[trigger] path[j]).1 by {
        assert(part[i] == ext[i]);
    }
    assert forall|i: int, j: int| 0 <= i < j < part.len() implies (#[trigger] part[i]).1 != (
    #[trigger] part[j]).1 by {
        assert(part[i] == ext[i] && part[j] == ext[j]);
    }
    assert(node(from, part, part.len() as int) == node(from, ext, k));
}

/// Every board of a walk that reaches the target within a bound has a
/// total cost within that bound.
proof fn lemma_costs_within<H: Heuristic>(
    h: &H,
    size: int,
    target: Seq<i32>,
    top: int,
    path: Seq<Step>,
    cost: int,
    ext: Seq<Step>,
    k: int,
)
    requires
        reaches_target(h, size, target, top, path, cost, ext),
        0 <= k <= ext.len(),
    ensures
        cost_at(h, size, target, path, cost, ext, k) <= top,
{
    reveal(is_walk);
    if k < ext.len() {
        let step = ext[k];
        assert(expanded(h, size, target, top, node(path.last().1, ext, k), cost + k));
    }
}

/// A walk that reaches the target within a bound, all of whose boards
/// have a total cost within a lower bound, reaches it within the lower one.
proof fn lemma_reaches_lower<H: Heuristic>(
    h: &H,
    size: int,
    target: Seq<i32>,
    bound: int,
    top: int,
    path: Seq<Step>,
    cost: int,
    ext: Seq<Step>,
)
    requires
        reaches_target(h, size, target, top, path, cost, ext),
        forall|j: int|
            0 <= j <= ext.len() ==> #[trigger] cost_at(h, size, target, path, cost, ext, j)
                <= bound,
    ensures
        reaches_target(h, size, target, bound, path, cost, ext),
{
    lemma_walk_prefix(h, size, target, bound, top, path, cost, ext, ext.len() as int);
    assert(ext.take(ext.len() as int) =~= ext);
    assert(cost_at(h, size, target, path, cost, ext, ext.len() as int) <= bound);
}

/// Where no walk reaches the target within a bound and none leaves that
/// bound at a cost that an `i32` holds, no higher bound helps.
pub proof fn lemma_bound_saturated<H: Heuristic>(
    h: &H,
    size: int,
    target: Seq<i32>,
    bound: int,
    path: Seq<Step>,
    cost: int,
)
    requires
        bound < i32::MAX,
        !some_reaches(h, size, target, bound, path, cost),
        none_leaves_below(h, size, target, bound, path, cost, i32::MAX as int),
    ensures
        !some_reaches(h, size, target, i32::MAX - 1, path, cost),
{
    let top = i32::MAX - 1;
    assert forall|ext: Seq<Step>| !#[trigger] reaches_target(
        h,
        size,
        target,
        top,
        path,
        cost,
        ext,
    ) by {
        if reaches_target(h, size, target, top, path, cost, ext) {
            let k = lemma_first_beyond(h, size, target, bound, path, cost, ext, 0);
            if k == ext.len() + 1 {
                lemma_reaches_lower(h, size, target, bound, top, path, cost, ext);
                assert(false);
            } else {
                lemma_walk_prefix(h, size, target, bound, top, path, cost, ext, k);
                lemma_costs_within(h, size, target, top, path, cost, ext, k);
                let part = ext.take(k);
                assert(leaves_bound(h, size, target, bound, path, cost, part));
                assert(i32::MAX <= capped(walk_cost(h, size, target, path, cost, part)));
                assert(false);
            }
        }
    }
}

/// The moves of a walk that reaches the target, replayed from the board
/// the walk starts on, are legal one after the other and end on the
/// target, and so does the history of the boards they pass.
pub proof fn lemma_found_path_replays<H: Heuristic>(
    h: &H,
    size: int,
    target: Seq<i32>,
    bound: int,
    path: Seq<Step>,
    cost: int,
    ext: Seq<Step>,
)
    requires
        is_board(size, path.last().1),
        reaches_target(h, size, target, bound, path, cost, ext),
    ensures
        playable(size, path.last().1, dirs_of(ext)),
        replay(size, path.last().1, dirs_of(ext)) == target,
        history(size, path.last().1, dirs_of(ext)).last() == target,
{
    lemma_walk_continues(h, size, target, bound, path, cost, ext);
    lemma_continues_replays(size, path.last().1, ext);
    lemma_history_follows_moves(size, path.last().1, dirs_of(ext));
}

} // verus!
