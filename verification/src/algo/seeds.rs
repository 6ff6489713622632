//! The model of the frontier from which the searches of a round start,
//! and of what a round reports.

use crate::algo::graph::Dir;
use crate::algo::heuristics::Heuristic;
use crate::algo::model::{
    dirs_of, distinct_boards, is_chain, legal, lemma_chain_continues, lemma_continues_concat,
    lemma_continues_replays, lemma_moved_is_board, moved, neighbors, playable, replay,
    steps_view, trail, Step,
};
use crate::algo::walks::{
    attained, lemma_bound_saturated, lemma_pruned, lemma_walk_continues, none_leaves_below,
    reaches_target, some_reaches, total_cost,
};
use crate::board::utils::{
    blank_index, coord_of, is_board, lemma_blank_index, lemma_coord_of_index,
};
use vstd::prelude::*;

verus! {

/// The model of a queue of paths: each path by the model of its steps.
pub open spec fn routes_view(routes: Seq<Vec<(Dir, Vec<i32>)>>) -> Seq<Seq<Step>> {
    Seq::new(routes.len(), |i: int| steps_view(routes[i]@))
}

/// The model of a queue of boards: each board by its view.
pub open spec fn seen_view(seen: Seq<Vec<i32>>) -> Seq<Seq<i32>> {
    Seq::new(seen.len(), |i: int| seen[i]@)
}

/// The path that holds the root alone, tagged with `Stay`.
pub open spec fn root_route(root: Seq<i32>) -> Seq<Step> {
    seq![(Dir::Stay, root)]
}

/// A path that starts on `root`, goes on by legal moves and passes no board twice.
pub open spec fn is_route(size: int, root: Seq<i32>, path: Seq<Step>) -> bool {
    &&& path.len() > 0
    &&& path[0] == (Dir::Stay, root)
    &&& is_chain(size, path)
    &&& distinct_boards(path)
}

/// Routes from `root` that end on boards different from one another.
pub open spec fn is_frontier(size: int, root: Seq<i32>, routes: Seq<Seq<Step>>) -> bool {
    &&& forall|i: int| 0 <= i < routes.len() ==> is_route(size, root, #[trigger] routes[i])
    &&& forall|i: int, j: int|
        0 <= i < j < routes.len() ==> (#[trigger] routes[i]).last().1 != (
        #[trigger] routes[j]).last().1
}

/// Every board of `path` is among `seen`.
pub open spec fn all_seen(seen: Seq<Seq<i32>>, path: Seq<Step>) -> bool {
    forall|k: int| 0 <= k < path.len() ==> seen.contains((#[trigger] path[k]).1)
}

/// What holds of the open routes while the frontier grows: they form a
/// frontier, they end on well-formed boards, and all their boards have
/// been seen.
pub open spec fn growing(
    size: int,
    root: Seq<i32>,
    routes: Seq<Seq<Step>>,
    seen: Seq<Seq<i32>>,
) -> bool {
    &&& is_frontier(size, root, routes)
    &&& forall|i: int|
        0 <= i < routes.len() ==> all_seen(seen, #[trigger] routes[i]) && is_board(
            size,
            routes[i].last().1,
        )
}

/// Every route holds at least one move.
pub open spec fn all_moved(routes: Seq<Seq<Step>>) -> bool {
    forall|i: int| 0 <= i < routes.len() ==> (#[trigger] routes[i]).len() >= 2
}

/// The frontier before any expansion: the root alone.
pub proof fn lemma_growing_start(size: int, root: Seq<i32>)
    requires
        is_board(size, root),
    ensures
        growing(size, root, seq![root_route(root)], seq![root]),
        is_route(size, root, root_route(root)),
        all_seen(seq![root], root_route(root)),
{
    let route = root_route(root);
    assert(seq![root][0] == root);
    assert(is_route(size, root, route));
    assert(all_seen(seq![root], route));
}

/// A route taken out of the frontier leaves a frontier.
pub proof fn lemma_growing_pop(
    size: int,
    root: Seq<i32>,
    routes: Seq<Seq<Step>>,
    seen: Seq<Seq<i32>>,
)
    requires
        growing(size, root, routes, seen),
        routes.len() > 0,
    ensures
        growing(size, root, routes.drop_last(), seen),
        is_route(size, root, routes.last()),
        all_seen(seen, routes.last()),
        is_board(size, routes.last().last().1),
        all_moved(routes) ==> all_moved(routes.drop_last()),
{
    let rest = routes.drop_last();
    assert forall|i: int| 0 <= i < rest.len() implies is_route(size, root, #[trigger] rest[i])
        && all_seen(seen, rest[i]) && is_board(size, rest[i].last().1) by {
        assert(rest[i] == routes[i]);
    }
    assert forall|i: int, j: int| 0 <= i < j < rest.len() implies (#[trigger] rest[i]).last().1
        != (#[trigger] rest[j]).last().1 by {
        assert(rest[i] == routes[i] && rest[j] == routes[j]);
    }
    if all_moved(routes) {
        assert forall|i: int| 0 <= i < rest.len() implies (#[trigger] rest[i]).len() >= 2 by {
            assert(rest[i] == routes[i]);
        }
    }
}

/// A board seen stays seen when one more board is.
pub proof fn lemma_seen_grows(seen: Seq<Seq<i32>>, board: Seq<i32>, path: Seq<Step>)
    requires
        all_seen(seen, path),
    ensures
        all_seen(seen.push(board), path),
{
    assert forall|k: int| 0 <= k < path.len() implies seen.push(board).contains(
        (#[trigger] path[k]).1,
    ) by {
        let at = choose|at: int| 0 <= at < seen.len() && seen[at] == path[k].1;
        assert(seen.push(board)[at] == path[k].1);
    }
}

/// A route extended by a move onto a board not seen before joins the frontier.
pub proof fn lemma_growing_push(
    size: int,
    root: Seq<i32>,
    routes: Seq<Seq<Step>>,
    seen: Seq<Seq<i32>>,
    route: Seq<Step>,
    step: Step,
)
    requires
        growing(size, root, routes, seen),
        is_route(size, root, route),
        all_seen(seen, route),
        is_board(size, route.last().1),
        step.0 != Dir::Stay,
        legal(size, route.last().1, step.0),
        step.1 == moved(size, route.last().1, step.0),
        !seen.contains(step.1),
    ensures
        growing(size, root, seq![route.push(step)] + routes, seen.push(step.1)),
        all_seen(seen.push(step.1), route),
        all_moved(routes) ==> all_moved(seq![route.push(step)] + routes),
{
    let longer = route.push(step);
    let wider = seen.push(step.1);
    let joined = seq![longer] + routes;
    lemma_moved_is_board(size, route.last().1, step.0);
    lemma_seen_grows(seen, step.1, route);
    assert(wider[seen.len() as int] == step.1);
    assert(is_route(size, root, longer)) by {
        assert(longer[0] == route[0]);
        assert forall|i: int| 0 < i < longer.len() implies legal(
            size,
            longer[i - 1].1,
            (#[trigger] longer[i]).0,
        ) && longer[i].1 == moved(size, longer[i - 1].1, longer[i].0) by {
            if i < route.len() {
                assert(longer[i] == route[i] && longer[i - 1] == route[i - 1]);
            }
        }
        assert forall|i: int, j: int| 0 <= i < j < longer.len() implies (
        #[trigger] longer[i]).1 != (#[trigger] longer[j]).1 by {
            if j < route.len() {
                assert(longer[i] == route[i] && longer[j] == route[j]);
            } else {
                assert(longer[i] == route[i]);
                assert(seen.contains(route[i].1));
            }
        }
    }
    assert(all_seen(wider, longer)) by {
        assert forall|k: int| 0 <= k < longer.len() implies wider.contains(
            (#[trigger] longer[k]).1,
        ) by {
            if k < route.len() {
                assert(longer[k] == route[k]);
                assert(wider.contains(route[k].1));
            }
        }
    }
    assert forall|i: int| 0 <= i < joined.len() implies is_route(size, root, #[trigger] joined[i])
        && all_seen(wider, joined[i]) && is_board(size, joined[i].last().1) by {
        if i > 0 {
            assert(joined[i] == routes[i - 1]);
            lemma_seen_grows(seen, step.1, routes[i - 1]);
        }
    }
    assert forall|i: int, j: int| 0 <= i < j < joined.len() implies (
    #[trigger] joined[i]).last().1 != (#[trigger] joined[j]).last().1 by {
        assert(joined[j] == routes[j - 1]);
        if i > 0 {
            assert(joined[i] == routes[i - 1]);
        } else {
            let other = routes[j - 1];
            assert(seen.contains(other[other.len() - 1].1));
        }
    }
    if all_moved(routes) {
        assert forall|i: int| 0 <= i < joined.len() implies (#[trigger] joined[i]).len() >= 2 by {
            if i > 0 {
                assert(joined[i] == routes[i - 1]);
            }
        }
    }
}

/// On a grid of side two or more the empty slot can always move.
pub proof fn lemma_some_neighbor(size: int, board: Seq<i32>)
    requires
        is_board(size, board),
    ensures
        neighbors(size, board).len() >= 2,
{
    lemma_blank_index(size, board);
    lemma_coord_of_index(size, blank_index(size, board));
    let at = coord_of(size, blank_index(size, board));
    assert(legal(size, board, Dir::N) || legal(size, board, Dir::S));
    assert(legal(size, board, Dir::E) || legal(size, board, Dir::W));
}

/// Every board of a route from a well-formed board is well-formed.
pub proof fn lemma_route_ends_on_board(size: int, root: Seq<i32>, route: Seq<Step>)
    requires
        is_board(size, root),
        is_route(size, root, route),
    ensures
        is_board(size, route.last().1),
    decreases route.len(),
{
    if route.len() > 1 {
        let shorter = route.drop_last();
        assert(shorter[0] == route[0]);
        assert forall|i: int| 0 < i < shorter.len() implies legal(
            size,
            shorter[i - 1].1,
            (#[trigger] shorter[i]).0,
        ) && shorter[i].1 == moved(size, shorter[i - 1].1, shorter[i].0) by {
            assert(shorter[i] == route[i] && shorter[i - 1] == route[i - 1]);
        }
        assert forall|i: int, j: int| 0 <= i < j < shorter.len() implies (
        #[trigger] shorter[i]).1 != (#[trigger] shorter[j]).1 by {
            assert(shorter[i] == route[i] && shorter[j] == route[j]);
        }
        lemma_route_ends_on_board(size, root, shorter);
        let k = route.len() - 1;
        assert(shorter.last() == route[k - 1]);
        assert(legal(size, route[k - 1].1, route[k].0));
        lemma_moved_is_board(size, route[k - 1].1, route[k].0);
    }
}

/// What one search of a round reports of the seed it started on: whether
/// a walk from the seed reaches the target within the bound, the path it
/// found or the path it began with, and the overflow.
pub open spec fn branch_outcome<H: Heuristic>(
    h: &H,
    size: int,
    target: Seq<i32>,
    bound: int,
    seed: Seq<i32>,
    outcome: (bool, i32),
    path: Seq<Step>,
) -> bool {
    &&& outcome.0 <==> some_reaches(h, size, target, bound, root_route(seed), 0)
    &&& outcome.0 ==> exists|ext: Seq<Step>| #[trigger]
        reaches_target(h, size, target, bound, root_route(seed), 0, ext) && path == root_route(
            seed,
        ) + ext
    &&& !outcome.0 ==> path == root_route(seed) && none_leaves_below(
        h,
        size,
        target,
        bound,
        root_route(seed),
        0,
        outcome.1 as int,
    )
    &&& reaches_target(h, size, target, bound, root_route(seed), 0, Seq::empty()) ==> outcome.1
        == total_cost(h, size, target, seed, 0)
    &&& !reaches_target(h, size, target, bound, root_route(seed), 0, Seq::empty()) ==> outcome.1
        > bound && attained(h, size, target, bound, root_route(seed), 0, outcome.1 as int)
    &&& distinct_boards(path)
}

/// What a round reports: one outcome and one path for each seed.
pub open spec fn round_outcome<H: Heuristic>(
    h: &H,
    size: int,
    target: Seq<i32>,
    bound: int,
    seeds: Seq<Seq<Step>>,
    results: Seq<(bool, i32)>,
    branches: Seq<Seq<Step>>,
) -> bool {
    &&& results.len() == seeds.len()
    &&& branches.len() == seeds.len()
    &&& forall|i: int|
        0 <= i < seeds.len() ==> branch_outcome(
            h,
            size,
            target,
            bound,
            seeds[i].last().1,
            #[trigger] results[i],
            branches[i],
        )
}

/// A search that has not found the target asks for a bound above the present one.
pub proof fn lemma_overflow_exceeds_bound<H: Heuristic>(
    h: &H,
    size: int,
    target: Seq<i32>,
    bound: int,
    seed: Seq<i32>,
    outcome: (bool, i32),
    path: Seq<Step>,
)
    requires
        branch_outcome(h, size, target, bound, seed, outcome, path),
        !outcome.0,
    ensures
        outcome.1 > bound,
{
}

/// The route to a seed, followed by the path that a search from the seed
/// has found, is a sequence of legal moves from the root to the target.
pub proof fn lemma_solution<H: Heuristic>(
    h: &H,
    size: int,
    target: Seq<i32>,
    bound: int,
    root: Seq<i32>,
    route: Seq<Step>,
    outcome: (bool, i32),
    path: Seq<Step>,
)
    requires
        is_board(size, root),
        is_route(size, root, route),
        branch_outcome(h, size, target, bound, route.last().1, outcome, path),
        outcome.0,
    ensures
        path.len() > 0,
        playable(size, root, dirs_of(route.drop_first() + path.drop_first())),
        replay(size, root, dirs_of(route.drop_first() + path.drop_first())) == target,
        trail(size, root, dirs_of(route.drop_first() + path.drop_first())) == route.drop_first()
            + path.drop_first(),
{
    let first = root_route(route.last().1);
    let ext = choose|ext: Seq<Step>| #[trigger]
        reaches_target(h, size, target, bound, first, 0, ext) && path == first + ext;
    lemma_walk_continues(h, size, target, bound, first, 0, ext);
    assert(path.drop_first() =~= ext);
    lemma_chain_continues(size, route);
    let lead = route.drop_first();
    lemma_continues_concat(size, root, lead, ext);
    lemma_continues_replays(size, root, lead + ext);
}

/// The least overflow is above whatever every overflow is above.
pub proof fn lemma_least_overflow_above(results: Seq<(bool, i32)>, bound: int)
    requires
        bound < i32::MAX,
        forall|i: int| 0 <= i < results.len() ==> (#[trigger] results[i]).1 > bound,
    ensures
        least_overflow(results) > bound,
    decreases results.len(),
{
    if results.len() > 0 {
        let shorter = results.drop_last();
        assert forall|i: int| 0 <= i < shorter.len() implies (#[trigger] shorter[i]).1 > bound by {
            assert(shorter[i] == results[i]);
        }
        lemma_least_overflow_above(shorter, bound);
        assert(results.last() == results[results.len() - 1]);
    }
}

/// A round in which no search has found the target asks for a bound
/// above its own: from round to round the bound rises, and it cannot rise
/// beyond the largest `i32`.
pub proof fn lemma_failed_round_raises_bound<H: Heuristic>(
    h: &H,
    size: int,
    target: Seq<i32>,
    bound: int,
    seeds: Seq<Seq<Step>>,
    results: Seq<(bool, i32)>,
    branches: Seq<Seq<Step>>,
)
    requires
        bound < i32::MAX,
        round_outcome(h, size, target, bound, seeds, results, branches),
        forall|i: int| 0 <= i < results.len() ==> !(#[trigger] results[i]).0,
    ensures
        bound < least_overflow(results) <= i32::MAX,
{
    assert forall|i: int| 0 <= i < results.len() implies (#[trigger] results[i]).1 > bound by {
        lemma_overflow_exceeds_bound(
            h,
            size,
            target,
            bound,
            seeds[i].last().1,
            results[i],
            branches[i],
        );
    }
    lemma_least_overflow_above(results, bound);
    lemma_least_overflow_capped(results);
}

/// The least overflow is no more than the largest `i32`.
pub proof fn lemma_least_overflow_capped(results: Seq<(bool, i32)>)
    ensures
        least_overflow(results) <= i32::MAX,
    decreases results.len(),
{
    if results.len() > 0 {
        lemma_least_overflow_capped(results.drop_last());
    }
}

/// No search from the last board of any of the routes reaches the target,
/// whatever bound below the largest `i32` it runs under.
pub open spec fn out_of_reach<H: Heuristic>(
    h: &H,
    size: int,
    target: Seq<i32>,
    seeds: Seq<Seq<Step>>,
) -> bool {
    forall|i: int|
        0 <= i < seeds.len() ==> !some_reaches(
            h,
            size,
            target,
            i32::MAX - 1,
            root_route((#[trigger] seeds[i]).last().1),
            0,
        )
}

/// A round in which no search has found the target and none has asked
/// for a bound that an `i32` holds shows the target to be out of reach.
pub proof fn lemma_round_out_of_reach<H: Heuristic>(
    h: &H,
    size: int,
    target: Seq<i32>,
    bound: int,
    seeds: Seq<Seq<Step>>,
    results: Seq<(bool, i32)>,
    branches: Seq<Seq<Step>>,
)
    requires
        bound < i32::MAX,
        round_outcome(h, size, target, bound, seeds, results, branches),
        forall|i: int| 0 <= i < results.len() ==> !(#[trigger] results[i]).0,
        least_overflow(results) >= i32::MAX,
    ensures
        out_of_reach(h, size, target, seeds),
{
    assert forall|i: int| 0 <= i < seeds.len() implies !some_reaches(
        h,
        size,
        target,
        i32::MAX - 1,
        root_route((#[trigger] seeds[i]).last().1),
        0,
    ) by {
        lemma_least_overflow_below(results, i);
        assert(!results[i].0);
        assert(branch_outcome(h, size, target, bound, seeds[i].last().1, results[i], branches[i]));
        lemma_bound_saturated(h, size, target, bound, root_route(seeds[i].last().1), 0);
    }
}

/// A start whose estimate is the largest `i32` is beyond every bound a search can run under.
pub proof fn lemma_start_out_of_reach<H: Heuristic>(
    h: &H,
    size: int,
    target: Seq<i32>,
    root: Seq<i32>,
)
    requires
        is_board(size, root),
        h.cost(size, root, target) >= i32::MAX,
    ensures
        is_frontier(size, root, seq![root_route(root)]),
        out_of_reach(h, size, target, seq![root_route(root)]),
{
    lemma_growing_start(size, root);
    lemma_pruned(h, size, target, i32::MAX - 1, root_route(root), 0);
}

/// The least of the second components, or the largest `i32` where there is none.
pub open spec fn least_overflow(results: Seq<(bool, i32)>) -> int
    decreases results.len(),
{
    if results.len() == 0 {
        i32::MAX as int
    } else if results.last().1 < least_overflow(results.drop_last()) {
        results.last().1 as int
    } else {
        least_overflow(results.drop_last())
    }
}

/// The least overflow is no more than any of the overflows.
pub proof fn lemma_least_overflow_below(results: Seq<(bool, i32)>, i: int)
    requires
        0 <= i < results.len(),
    ensures
        least_overflow(results) <= results[i].1,
    decreases results.len(),
{
    if i < results.len() - 1 {
        assert(results.drop_last()[i] == results[i]);
        lemma_least_overflow_below(results.drop_last(), i);
    }
}

} // verus!
