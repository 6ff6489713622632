//! Moves of the empty slot, the boards they lead to, and the search for a solution.

use crate::algo::heuristics::Heuristic;
use crate::algo::model::{
    boards_view, dirs_of, distinct_boards, history, lemma_moved_is_board,
    lemma_neighbors_are_single_slides, lemma_neighbors_membership, lemma_playable_prefix, neighbors, neighbors_upto, offset,
    playable, replay, step_if_legal, steps_view, swapped, trail, Step,
};
use crate::algo::walks::{
    attained, expanded, lemma_attained_below, lemma_direct_hit, lemma_pruned,
    lemma_settled_all, lemma_settled_blocked, lemma_settled_closed, lemma_settled_start,
    lemma_walk_cons, lemma_walk_keeps_boards_distinct, none_leaves_below, reaches_target,
    settled, some_reaches, total_cost,
};
use crate::board::utils::{
    blank_index, check_board, coord_of, fdtos, fstod, in_grid, index_of, is_board,
    lemma_blank_index, lemma_coord_of_index, lemma_square_fits, slot_pos, valid_size,
};
use crate::algo::seeds::{
    all_moved, all_seen, branch_outcome, growing, is_frontier, is_route, least_overflow,
    lemma_failed_round_raises_bound, lemma_growing_pop, lemma_growing_push, lemma_growing_start,
    lemma_round_out_of_reach, lemma_route_ends_on_board, lemma_solution, lemma_some_neighbor,
    lemma_start_out_of_reach, out_of_reach, root_route, round_outcome, routes_view, seen_view,
};
use std::collections::VecDeque;
use vstd::prelude::*;

verus! {

/// Direction in which the empty slot moves. `Stay` moves nothing: it tags a node that no move led to.
#[derive(Debug, Copy, Clone, PartialEq, Eq, Structural)]
pub enum Dir {
    N,
    E,
    S,
    W,
    Stay,
}

/// Unit vector by which the empty slot moves, as `(dx, dy)`; rows grow southwards.
pub fn movement_value(dir: &Dir) -> (delta: (i32, i32))
    ensures
        (delta.0 as int, delta.1 as int) == offset(*dir),
{
    match dir {
        Dir::N => (0, -1),
        Dir::E => (1, 0),
        Dir::S => (0, 1),
        Dir::W => (-1, 0),
        Dir::Stay => (0, 0),
    }
}

/// The position `movement_value` away from `position`.
pub fn new_position(position: (i32, i32), movement_value: (i32, i32)) -> (moved_to: (i32, i32))
    requires
        i32::MIN <= position.0 + movement_value.0 <= i32::MAX,
        i32::MIN <= position.1 + movement_value.1 <= i32::MAX,
    ensures
        moved_to.0 == position.0 + movement_value.0,
        moved_to.1 == position.1 + movement_value.1,
{
    (position.0 + movement_value.0, position.1 + movement_value.1)
}

/// Exchanges the cells at `current_pos` and `new_pos`. A `new_pos` outside
/// the grid is refused and nothing is produced.
pub fn apply_action(
    size: i32,
    state: &Vec<i32>,
    current_pos: (i32, i32),
    new_pos: (i32, i32),
) -> (result: Result<Vec<i32>, ()>)
    requires
        valid_size(size as int),
        state.len() == size * size,
        in_grid(size as int, current_pos.0 as int, current_pos.1 as int),
    ensures
        result is Ok <==> in_grid(size as int, new_pos.0 as int, new_pos.1 as int),
        result is Ok ==> result->Ok_0@ == swapped(
            state@,
            index_of(size as int, current_pos.0 as int, current_pos.1 as int),
            index_of(size as int, new_pos.0 as int, new_pos.1 as int),
        ),
{
    if 0 <= new_pos.0 && new_pos.0 < size && 0 <= new_pos.1 && new_pos.1 < size {
        let mut new_state: Vec<i32> = state.clone();
        let index_a: i32 = fdtos(current_pos.0, current_pos.1, size);
        let index_b: i32 = fdtos(new_pos.0, new_pos.1, size);
        let tile_a: i32 = new_state[index_a as usize];
        let tile_b: i32 = new_state[index_b as usize];
        new_state.set(index_a as usize, tile_b);
        new_state.set(index_b as usize, tile_a);
        return Ok(new_state);
    }
    Err(())
}

/// The boards one legal move away from `state`, each with the direction
/// that leads to it, in the order north, east, south, west.
pub fn get_neighbors(size: i32, state: &Vec<i32>) -> (found: Vec<(Dir, Vec<i32>)>)
    requires
        is_board(size as int, state@),
    ensures
        steps_view(found@) == neighbors(size as int, state@),
        found.len() <= 4,
        forall|i: int| 0 <= i < found.len() ==> is_board(size as int, (#[trigger] found[i]).1@),
{
    let sd_pos: usize = slot_pos(size, state);
    proof {
        lemma_neighbors_are_single_slides(size as int, state@);
        lemma_square_fits(size as int);
        lemma_coord_of_index(size as int, sd_pos as int);
    }
    let dd_pos: (i32, i32) = fstod(sd_pos as i32, size);
    let positions: [Dir; 4] = [Dir::N, Dir::E, Dir::S, Dir::W];
    let mut steps: Vec<(Dir, Vec<i32>)> = Vec::new();
    let mut k: usize = 0;
    assert(steps_view(steps@) =~= neighbors_upto(size as int, state@, 0));
    while k < 4
        invariant
            0 <= k <= 4,
            is_board(size as int, state@),
            positions@ == seq![Dir::N, Dir::E, Dir::S, Dir::W],
            sd_pos == blank_index(size as int, state@),
            (dd_pos.0 as int, dd_pos.1 as int) == coord_of(size as int, sd_pos as int),
            in_grid(size as int, dd_pos.0 as int, dd_pos.1 as int),
            index_of(size as int, dd_pos.0 as int, dd_pos.1 as int) == sd_pos,
            steps_view(steps@) == neighbors_upto(size as int, state@, k as int),
        decreases 4 - k,
    {
        let pos: Dir = positions[k];
        let target: (i32, i32) = new_position(dd_pos, movement_value(&pos));
        let new_state: Result<Vec<i32>, ()> = apply_action(size, state, dd_pos, target);
        let ghost before = steps@;
        match new_state {
            Ok(board) => {
                steps.push((pos, board));
                assert(steps_view(steps@) =~= steps_view(before) + step_if_legal(
                    size as int,
                    state@,
                    pos,
                ));
            },
            Err(_) => {},
        }
        assert(neighbors_upto(size as int, state@, k + 1) =~= neighbors_upto(
            size as int,
            state@,
            k as int,
        ) + step_if_legal(size as int, state@, pos));
        k += 1;
    }
    proof {
        assert(neighbors_upto(size as int, state@, 4) =~= neighbors(size as int, state@));
        assert forall|i: int| 0 <= i < steps.len() implies is_board(
            size as int,
            (#[trigger] steps[i]).1@,
        ) by {
            assert(steps_view(steps@)[i].1 == steps[i].1@);
        }
    }
    steps
}

/// The boards passed while playing `sequence` from `state`: the first is
/// `state`, and each move adds the board it leads to.
pub fn get_full_array(state: Vec<i32>, size: i32, sequence: &Vec<Dir>) -> (board_array: Vec<
    Vec<i32>,
>)
    requires
        is_board(size as int, state@),
        playable(size as int, state@, sequence@),
    ensures
        boards_view(board_array@) == history(size as int, state@, sequence@),
{
    let mut state_updated: Vec<i32> = state.clone();
    let mut board_array: Vec<Vec<i32>> = Vec::new();
    board_array.push(state);
    let mut i: usize = 0;
    proof {
        assert(sequence@.take(0) =~= Seq::<Dir>::empty());
        assert(boards_view(board_array@) =~= history(size as int, state@, sequence@.take(0)));
    }
    while i < sequence.len()
        invariant
            0 <= i <= sequence.len(),
            is_board(size as int, state@),
            playable(size as int, state@, sequence@),
            state_updated@ == replay(size as int, state@, sequence@.take(i as int)),
            boards_view(board_array@) == history(size as int, state@, sequence@.take(i as int)),
        decreases sequence.len() - i,
    {
        proof {
            lemma_playable_prefix(size as int, state@, sequence@, i as int);
            lemma_square_fits(size as int);
            lemma_blank_index(size as int, state_updated@);
            lemma_coord_of_index(size as int, blank_index(size as int, state_updated@));
        }
        let sd_pos: usize = slot_pos(size, &state_updated);
        let dd_pos: (i32, i32) = fstod(sd_pos as i32, size);
        let target: (i32, i32) = new_position(dd_pos, movement_value(&sequence[i]));
        let ghost before = board_array@;
        assert(boards_view(before).len() == i + 1);
        match apply_action(size, &state_updated, dd_pos, target) {
            Ok(new_state) => {
                board_array.push(new_state.clone());
                state_updated = new_state;
            },
            Err(_) => {
                assert(false);
            },
        }
        proof {
            let past = sequence@.take(i as int);
            let now = sequence@.take(i + 1);
            assert(board_array@.len() == i + 2);
            assert(board_array@[i + 1]@ == state_updated@);
            assert forall|k: int| 0 <= k <= i + 1 implies #[trigger] boards_view(board_array@)[k]
                == history(size as int, state@, now)[k] by {
                if k <= i {
                    assert(boards_view(before)[k] == history(size as int, state@, past)[k]);
                    assert(past.take(k) =~= now.take(k));
                } else {
                    assert(now.take(k) =~= now);
                }
            }
            assert(boards_view(board_array@) =~= history(size as int, state@, now));
        }
        i += 1;
    }
    proof {
        assert(sequence@.take(i as int) =~= sequence@);
    }
    board_array
}

/// Whether some step of `path` holds `board`.
pub fn path_contains(path: &Vec<(Dir, Vec<i32>)>, board: &Vec<i32>) -> (held: bool)
    ensures
        held <==> exists|j: int| 0 <= j < path.len() && (#[trigger] path[j]).1@ == board@,
{
    let mut j: usize = 0;
    while j < path.len()
        invariant
            0 <= j <= path.len(),
            forall|l: int| 0 <= l < j ==> (#[trigger] path[l]).1@ != board@,
        decreases path.len() - j,
    {
        if path[j].1 == *board {
            assert(path[j as int].1@ =~= board@);
            return true;
        }
        j += 1;
    }
    false
}

/// Depth-first search below the last board of `path`, which `cost` moves
/// have led to, among the boards whose total cost stays within `bound`.
///
/// The search succeeds exactly when some walk from that board reaches
/// `target`; `path` is then extended by such a walk. Otherwise `path` is
/// left as it was and the second result is the least total cost, cut off
/// at the largest `i32`, at which a walk leaves the bound: the bound of the
/// next round. The counter of explored nodes grows by one for each board
/// visited and stops at the largest `i32`.
pub fn graph_search<H: Heuristic>(
    size: i32,
    path: &mut Vec<(Dir, Vec<i32>)>,
    target: &Vec<i32>,
    cost: i32,
    bound: i32,
    explored_nodes: &mut i32,
    heuristic: &H,
) -> (outcome: (bool, i32))
    requires
        old(path).len() > 0,
        is_board(size as int, old(path)[old(path).len() - 1].1@),
        is_board(size as int, target@),
        bound < i32::MAX,
    ensures
        outcome.0 <==> some_reaches(
            heuristic,
            size as int,
            target@,
            bound as int,
            steps_view(old(path)@),
            cost as int,
        ),
        outcome.0 ==> exists|ext: Seq<Step>| #[trigger]
            reaches_target(
                heuristic,
                size as int,
                target@,
                bound as int,
                steps_view(old(path)@),
                cost as int,
                ext,
            ) && steps_view(final(path)@) == steps_view(old(path)@) + ext,
        !outcome.0 ==> final(path)@ == old(path)@,
        !outcome.0 ==> none_leaves_below(
            heuristic,
            size as int,
            target@,
            bound as int,
            steps_view(old(path)@),
            cost as int,
            outcome.1 as int,
        ),
        reaches_target(
            heuristic,
            size as int,
            target@,
            bound as int,
            steps_view(old(path)@),
            cost as int,
            Seq::empty(),
        ) ==> outcome.1 == total_cost(
            heuristic,
            size as int,
            target@,
            steps_view(old(path)@).last().1,
            cost as int,
        ),
        !reaches_target(
            heuristic,
            size as int,
            target@,
            bound as int,
            steps_view(old(path)@),
            cost as int,
            Seq::empty(),
        ) ==> outcome.1 > bound && attained(
            heuristic,
            size as int,
            target@,
            bound as int,
            steps_view(old(path)@),
            cost as int,
            outcome.1 as int,
        ),
        distinct_boards(steps_view(old(path)@)) ==> distinct_boards(steps_view(final(path)@)),
        *final(explored_nodes) >= *old(explored_nodes),
        *old(explored_nodes) < i32::MAX ==> *final(explored_nodes) > *old(explored_nodes),
    decreases
            (if cost <= bound {
                bound - cost + 1
            } else {
                0
            }),
{
    if *explored_nodes < i32::MAX {
        *explored_nodes += 1;
    }
    let ghost stack = path@;
    let ghost base = steps_view(path@);
    let ghost from = base.last().1;
    let ghost goal = target@;
    let last: usize = path.len() - 1;
    let estimate: i32 = heuristic.estimate(size, &path[last].1, target);
    let new_cost: i64 = cost as i64 + estimate as i64;
    proof {
        assert(new_cost == total_cost(heuristic, size as int, goal, from, cost as int));
        lemma_direct_hit(heuristic, size as int, goal, bound as int, base, cost as int);
    }
    if new_cost > bound as i64 {
        let over: i32 = if new_cost > i32::MAX as i64 {
            i32::MAX
        } else {
            new_cost as i32
        };
        proof {
            lemma_pruned(heuristic, size as int, goal, bound as int, base, cost as int);
        }
        return (false, over);
    } else if path[last].1 == *target {
        proof {
            assert(path[last as int].1@ =~= goal);
            assert(reaches_target(
                heuristic,
                size as int,
                goal,
                bound as int,
                base,
                cost as int,
                Seq::empty(),
            ));
        }
        return (true, new_cost as i32);
    }
    proof {
        assert(path[last as int].1@ != goal);
        assert(expanded(heuristic, size as int, goal, bound as int, from, cost as int));
    }
    let mut min: i32 = i32::MAX;
    let neighbours: Vec<(Dir, Vec<i32>)> = get_neighbors(size, &path[last].1);
    let ghost counted = *explored_nodes;
    let ghost steps = neighbors(size as int, from);
    let mut i: usize = 0;
    proof {
        lemma_settled_start(
            heuristic,
            size as int,
            goal,
            bound as int,
            base,
            cost as int,
            steps,
            min as int,
        );
    }
    while i < neighbours.len()
        invariant
            0 <= i <= neighbours.len(),
            path@ == stack,
            stack == old(path)@,
            base == steps_view(stack),
            base.len() > 0,
            from == base.last().1,
            goal == target@,
            is_board(size as int, from),
            is_board(size as int, goal),
            cost <= bound < i32::MAX,
            expanded(heuristic, size as int, goal, bound as int, from, cost as int),
            steps == neighbors(size as int, from),
            steps_view(neighbours@) == steps,
            bound < min,
            attained(heuristic, size as int, goal, bound as int, base, cost as int, min as int),
            settled(
                heuristic,
                size as int,
                goal,
                bound as int,
                base,
                cost as int,
                steps,
                i as int,
                min as int,
            ),
            *explored_nodes >= counted >= *old(explored_nodes),
            *old(explored_nodes) < i32::MAX ==> counted > *old(explored_nodes),
        decreases neighbours.len() - i,
    {
        let ghost step: Step = steps[i as int];
        let ghost least = min as int;
        proof {
            assert(steps_view(neighbours@)[i as int] == step);
            lemma_neighbors_membership(size as int, from);
            lemma_moved_is_board(size as int, from, step.0);
        }
        if !path_contains(path, &neighbours[i].1) {
            path.push((neighbours[i].0, neighbours[i].1.clone()));
            let ghost longer = base.push(step);
            proof {
                assert(steps_view(path@) =~= longer);
                assert forall|j: int| 0 <= j < base.len() implies (#[trigger] base[j]).1
                    != step.1 by {
                    assert(stack[j].1@ == base[j].1);
                }
            }
            let res: (bool, i32) = graph_search(
                size,
                path,
                target,
                cost + 1,
                bound,
                explored_nodes,
                heuristic,
            );
            if res.0 {
                proof {
                    let rest = choose|rest: Seq<Step>| #[trigger]
                        reaches_target(
                            heuristic,
                            size as int,
                            goal,
                            bound as int,
                            longer,
                            cost + 1,
                            rest,
                        ) && steps_view(path@) == longer + rest;
                    lemma_walk_cons(
                        heuristic,
                        size as int,
                        goal,
                        bound as int,
                        base,
                        cost as int,
                        step,
                        rest,
                    );
                    let ext = seq![step] + rest;
                    assert(reaches_target(
                        heuristic,
                        size as int,
                        goal,
                        bound as int,
                        base,
                        cost as int,
                        ext,
                    ));
                    assert(steps_view(path@) == base + ext);
                    if distinct_boards(base) {
                        lemma_walk_keeps_boards_distinct(
                            heuristic,
                            size as int,
                            goal,
                            bound as int,
                            base,
                            cost as int,
                            ext,
                        );
                    }
                }
                return (true, min);
            } else if res.1 < min {
                min = res.1;
            }
            path.pop();
            proof {
                assert(path@ =~= stack);
                lemma_direct_hit(heuristic, size as int, goal, bound as int, longer, cost + 1);
                lemma_attained_below(
                    heuristic,
                    size as int,
                    goal,
                    bound as int,
                    base,
                    cost as int,
                    step,
                    res.1 as int,
                );
                lemma_settled_closed(
                    heuristic,
                    size as int,
                    goal,
                    bound as int,
                    base,
                    cost as int,
                    steps,
                    i as int,
                    least,
                    res.1 as int,
                );
            }
        } else {
            proof {
                let j = choose|j: int|
                    0 <= j < path.len() && (#[trigger] path[j]).1@ == neighbours[i as int].1@;
                assert(base[j].1 == step.1);
                lemma_settled_blocked(
                    heuristic,
                    size as int,
                    goal,
                    bound as int,
                    base,
                    cost as int,
                    steps,
                    i as int,
                    least,
                );
            }
        }
        i += 1;
    }
    proof {
        assert(steps.len() == neighbours.len());
        lemma_settled_all(
            heuristic,
            size as int,
            goal,
            bound as int,
            base,
            cost as int,
            min as int,
        );
    }
    (false, min)
}

/// Whether `board` is among the boards of `closed`.
fn board_seen(closed: &VecDeque<Vec<i32>>, board: &Vec<i32>) -> (held: bool)
    ensures
        held <==> seen_view(closed@).contains(board@),
{
    let mut j: usize = 0;
    while j < closed.len()
        invariant
            0 <= j <= closed.len(),
            forall|l: int| 0 <= l < j ==> (#[trigger] seen_view(closed@)[l]) != board@,
        decreases closed.len() - j,
    {
        if closed[j] == *board {
            assert(closed@[j as int]@ =~= board@);
            assert(seen_view(closed@)[j as int] == board@);
            return true;
        }
        j += 1;
    }
    false
}

/// A copy of `path`.
fn clone_path(path: &Vec<(Dir, Vec<i32>)>) -> (copy: Vec<(Dir, Vec<i32>)>)
    ensures
        steps_view(copy@) == steps_view(path@),
{
    let mut copy: Vec<(Dir, Vec<i32>)> = Vec::new();
    let mut j: usize = 0;
    while j < path.len()
        invariant
            0 <= j <= path.len(),
            copy.len() == j,
            forall|l: int| 0 <= l < j ==> (#[trigger] copy[l]).0 == path[l].0 && copy[l].1@ == path[l].1@,
        decreases path.len() - j,
    {
        copy.push((path[j].0, path[j].1.clone()));
        j += 1;
    }
    assert(steps_view(copy@) =~= steps_view(path@));
    copy
}

/// Breadth-first expansion from `root` into starting points for separate
/// searches: paths from `root` that end on boards different from one
/// another.
///
/// The oldest open path is replaced by its continuations onto boards not
/// seen before, until `limit` paths are open or the last open path has no
/// such continuation. With a `limit` below two the root alone is returned.
pub fn get_start_pos(size: i32, root: &Vec<i32>, limit: usize) -> (opened: VecDeque<
    Vec<(Dir, Vec<i32>)>,
>)
    requires
        is_board(size as int, root@),
    ensures
        is_frontier(size as int, root@, routes_view(opened@)),
        1 <= opened.len() <= limit + 2,
        limit <= 1 ==> routes_view(opened@) == seq![root_route(root@)],
        limit >= 2 ==> all_moved(routes_view(opened@)) && (opened.len() >= limit || opened.len()
            == 1),
{
    let mut closed: VecDeque<Vec<i32>> = VecDeque::new();
    let mut opened: VecDeque<Vec<(Dir, Vec<i32>)>> = VecDeque::new();
    closed.push_back(root.clone());
    let mut start: Vec<(Dir, Vec<i32>)> = Vec::new();
    start.push((Dir::Stay, root.clone()));
    opened.push_front(start);
    let ghost mut started = false;
    proof {
        lemma_growing_start(size as int, root@);
        assert(steps_view(opened@[0]@) =~= root_route(root@));
        assert(routes_view(opened@) =~= seq![root_route(root@)]);
        assert(seen_view(closed@) =~= seq![root@]);
    }
    while opened.len() < limit
        invariant
            is_board(size as int, root@),
            growing(size as int, root@, routes_view(opened@), seen_view(closed@)),
            1 <= opened.len() <= limit + 2,
            !started ==> routes_view(opened@) == seq![root_route(root@)] && seen_view(closed@)
                == seq![root@],
            started ==> limit >= 2 && all_moved(routes_view(opened@)),
        ensures
            opened.len() >= limit || opened.len() == 1,
            limit >= 2 ==> started,
        decreases usize::MAX - closed.len(), opened.len(),
    {
        let ghost routes = routes_view(opened@);
        let ghost seen = seen_view(closed@);
        let seen_before: usize = closed.len();
        let node: Vec<(Dir, Vec<i32>)> = opened.pop_back().unwrap();
        let ghost route = steps_view(node@);
        proof {
            assert(route == routes.last());
            assert(routes_view(opened@) =~= routes.drop_last());
            lemma_growing_pop(size as int, root@, routes, seen);
            lemma_neighbors_membership(size as int, route.last().1);
            if !started {
                assert(routes.drop_last() =~= Seq::<Seq<Step>>::empty());
            }
        }
        let neighbours: Vec<(Dir, Vec<i32>)> = get_neighbors(size, &node[node.len() - 1].1);
        let ghost steps = neighbors(size as int, route.last().1);
        let mut k: usize = 0;
        while k < neighbours.len()
            invariant
                0 <= k <= neighbours.len() <= 4,
                is_board(size as int, root@),
                route == steps_view(node@),
                steps == neighbors(size as int, route.last().1),
                steps_view(neighbours@) == steps,
                growing(size as int, root@, routes_view(opened@), seen_view(closed@)),
                all_moved(routes_view(opened@)),
                is_route(size as int, root@, route),
                all_seen(seen_view(closed@), route),
                is_board(size as int, route.last().1),
                opened.len() <= routes.len() - 1 + k,
                closed.len() >= seen_before,
                closed.len() == seen_before ==> opened.len() == routes.len() - 1 && seen_view(
                    closed@,
                ) == seen && forall|l: int|
                    0 <= l < k ==> seen.contains((#[trigger] steps[l]).1),
                closed.len() > seen_before ==> opened.len() >= 1,
            decreases neighbours.len() - k,
        {
            let ghost step: Step = steps[k as int];
            proof {
                assert(steps_view(neighbours@)[k as int] == step);
                lemma_neighbors_membership(size as int, route.last().1);
            }
            if !board_seen(&closed, &neighbours[k].1) {
                let ghost open_now = routes_view(opened@);
                let ghost seen_now = seen_view(closed@);
                closed.push_back(neighbours[k].1.clone());
                let mut longer: Vec<(Dir, Vec<i32>)> = clone_path(&node);
                longer.push((neighbours[k].0, neighbours[k].1.clone()));
                opened.push_front(longer);
                proof {
                    lemma_growing_push(size as int, root@, open_now, seen_now, route, step);
                    assert(steps_view(longer@) =~= route.push(step));
                    assert(routes_view(opened@) =~= seq![route.push(step)] + open_now);
                    assert(seen_view(closed@) =~= seen_now.push(step.1));
                }
            }
            k += 1;
        }
        let seen_after: usize = closed.len();
        if opened.len() == 0 {
            proof {
                if !started {
                    lemma_some_neighbor(size as int, route.last().1);
                    lemma_moved_is_board(size as int, route.last().1, steps[0].0);
                    assert(seen.contains(steps[0].1));
                    assert(seen[0] == root@);
                    assert(route.last().1 == root@);
                }
                assert(started);
                assert(route.len() >= 2);
            }
            opened.push_front(node);
            proof {
                assert(routes_view(opened@) =~= seq![route]);
                assert(seen_view(closed@) == seen);
            }
            break ;
        }
        proof {
            started = true;
        }
    }
    opened
}

/// What follows a round of searches.
#[derive(Debug, Copy, Clone, PartialEq, Eq)]
pub enum Verdict {
    /// The search with this number has reached the target.
    Solved(usize),
    /// None has; the next round runs with this bound.
    Deepen(i32),
    /// None has, and no search asked for a higher bound.
    Exhausted,
}

/// Why no solution is returned.
#[derive(Debug, Copy, Clone, PartialEq, Eq)]
pub enum SolveError {
    /// The start or the target is not a well-formed board of the given side.
    MalformedBoard,
    /// The bound cannot be raised any further.
    Unsolved,
}

/// Decides on the results of a round, one `(found, overflow)` for each
/// search: the first search that found the target wins; if none did, the
/// least overflow becomes the next bound, provided it is above `bound`.
pub fn merge_results(results: &Vec<(bool, i32)>, bound: i32) -> (verdict: Verdict)
    ensures
        match verdict {
            Verdict::Solved(branch) => branch < results.len() && results[branch as int].0
                && forall|j: int| 0 <= j < branch ==> !(#[trigger] results[j]).0,
            Verdict::Deepen(next) => next == least_overflow(results@) && next > bound
                && forall|j: int| 0 <= j < results.len() ==> !(#[trigger] results[j]).0,
            Verdict::Exhausted => least_overflow(results@) <= bound && forall|j: int|
                0 <= j < results.len() ==> !(#[trigger] results[j]).0,
        },
{
    let mut least: i32 = i32::MAX;
    let mut i: usize = 0;
    assert(results@.take(0) =~= Seq::<(bool, i32)>::empty());
    while i < results.len()
        invariant
            0 <= i <= results.len(),
            forall|j: int| 0 <= j < i ==> !(#[trigger] results[j]).0,
            least == least_overflow(results@.take(i as int)),
        decreases results.len() - i,
    {
        if results[i].0 {
            return Verdict::Solved(i);
        }
        proof {
            assert(results@.take(i + 1).drop_last() =~= results@.take(i as int));
        }
        if results[i].1 < least {
            least = results[i].1;
        }
        i += 1;
    }
    assert(results@.take(i as int) =~= results@);
    if least > bound {
        Verdict::Deepen(least)
    } else {
        Verdict::Exhausted
    }
}

/// One search of a round: a depth-first search from `seed`, on a path of
/// its own that holds `seed` alone, with no move made yet.
pub fn search_branch<H: Heuristic>(
    size: i32,
    seed: &Vec<i32>,
    target: &Vec<i32>,
    bound: i32,
    explored_nodes: &mut i32,
    heuristic: &H,
) -> (branch: ((bool, i32), Vec<(Dir, Vec<i32>)>))
    requires
        is_board(size as int, seed@),
        is_board(size as int, target@),
        bound < i32::MAX,
    ensures
        branch_outcome(
            heuristic,
            size as int,
            target@,
            bound as int,
            seed@,
            branch.0,
            steps_view(branch.1@),
        ),
        *final(explored_nodes) >= *old(explored_nodes),
        *old(explored_nodes) < i32::MAX ==> *final(explored_nodes) > *old(explored_nodes),
{
    let mut path: Vec<(Dir, Vec<i32>)> = Vec::new();
    path.push((Dir::Stay, seed.clone()));
    proof {
        assert(steps_view(path@) =~= root_route(seed@));
        assert(distinct_boards(steps_view(path@)));
    }
    let outcome: (bool, i32) = graph_search(
        size,
        &mut path,
        target,
        0,
        bound,
        explored_nodes,
        heuristic,
    );
    (outcome, path)
}

/// One round: a search from the last board of each seed, one after the
/// other, all under the same bound.
pub fn search_round<H: Heuristic>(
    size: i32,
    seeds: &VecDeque<Vec<(Dir, Vec<i32>)>>,
    target: &Vec<i32>,
    bound: i32,
    explored_nodes: &mut i32,
    heuristic: &H,
) -> (round: (Vec<(bool, i32)>, Vec<Vec<(Dir, Vec<i32>)>>))
    requires
        forall|i: int|
            0 <= i < seeds.len() ==> (#[trigger] routes_view(seeds@)[i]).len() > 0 && is_board(
                size as int,
                routes_view(seeds@)[i].last().1,
            ),
        is_board(size as int, target@),
        bound < i32::MAX,
    ensures
        round_outcome(
            heuristic,
            size as int,
            target@,
            bound as int,
            routes_view(seeds@),
            round.0@,
            routes_view(round.1@),
        ),
        *final(explored_nodes) >= *old(explored_nodes),
{
    let mut results: Vec<(bool, i32)> = Vec::new();
    let mut branches: Vec<Vec<(Dir, Vec<i32>)>> = Vec::new();
    let mut i: usize = 0;
    while i < seeds.len()
        invariant
            0 <= i <= seeds.len(),
            results.len() == i,
            branches.len() == i,
            bound < i32::MAX,
            is_board(size as int, target@),
            forall|j: int|
                0 <= j < seeds.len() ==> (#[trigger] routes_view(seeds@)[j]).len() > 0
                    && is_board(size as int, routes_view(seeds@)[j].last().1),
            forall|j: int|
                0 <= j < i ==> branch_outcome(
                    heuristic,
                    size as int,
                    target@,
                    bound as int,
                    routes_view(seeds@)[j].last().1,
                    #[trigger] results[j],
                    routes_view(branches@)[j],
                ),
            *explored_nodes >= *old(explored_nodes),
        decreases seeds.len() - i,
    {
        let seed: &Vec<(Dir, Vec<i32>)> = &seeds[i];
        proof {
            assert(routes_view(seeds@)[i as int].len() > 0);
        }
        let branch: ((bool, i32), Vec<(Dir, Vec<i32>)>) = search_branch(
            size,
            &seed[seed.len() - 1].1,
            target,
            bound,
            explored_nodes,
            heuristic,
        );
        let ghost before = routes_view(branches@);
        results.push(branch.0);
        branches.push(branch.1);
        proof {
            assert forall|j: int| 0 <= j < i + 1 implies branch_outcome(
                heuristic,
                size as int,
                target@,
                bound as int,
                routes_view(seeds@)[j].last().1,
                #[trigger] results[j],
                routes_view(branches@)[j],
            ) by {
                if j < i {
                    assert(routes_view(branches@)[j] == before[j]);
                }
            }
        }
        i += 1;
    }
    (results, branches)
}

/// Appends the steps of `source` after its first to `main_path`, and their
/// directions to `sequence`.
pub fn append_steps(
    main_path: &mut Vec<(Dir, Vec<i32>)>,
    sequence: &mut Vec<Dir>,
    source: &Vec<(Dir, Vec<i32>)>,
)
    requires
        source.len() > 0,
    ensures
        steps_view(final(main_path)@) == steps_view(old(main_path)@) + steps_view(
            source@,
        ).drop_first(),
        final(sequence)@ == old(sequence)@ + dirs_of(steps_view(source@).drop_first()),
{
    let mut k: usize = 1;
    let ghost tail = steps_view(source@).drop_first();
    proof {
        assert(steps_view(main_path@) =~= steps_view(old(main_path)@) + tail.take(0));
        assert(sequence@ =~= old(sequence)@ + dirs_of(tail.take(0)));
    }
    while k < source.len()
        invariant
            1 <= k <= source.len(),
            tail == steps_view(source@).drop_first(),
            steps_view(main_path@) == steps_view(old(main_path)@) + tail.take(k - 1),
            sequence@ == old(sequence)@ + dirs_of(tail.take(k - 1)),
        decreases source.len() - k,
    {
        let ghost path_before = steps_view(main_path@);
        let ghost dirs_before = sequence@;
        main_path.push((source[k].0, source[k].1.clone()));
        sequence.push(source[k].0);
        proof {
            let step = tail[k - 1];
            assert(step == steps_view(source@)[k as int]);
            assert(steps_view(main_path@) =~= path_before.push(step));
            assert(sequence@ =~= dirs_before.push(step.0));
            assert(tail.take(k as int) =~= tail.take(k - 1).push(step));
            assert(dirs_of(tail.take(k as int)) =~= dirs_of(tail.take(k - 1)).push(step.0));
            assert(steps_view(main_path@) =~= steps_view(old(main_path)@) + tail.take(k as int));
            assert(sequence@ =~= old(sequence)@ + dirs_of(tail.take(k as int)));
        }
        k += 1;
    }
    proof {
        assert(tail.take(k - 1) =~= tail);
    }
}

/// Solves the puzzle that starts on the last board of `main_path`.
///
/// Rounds of searches, one from each board of the frontier of the start,
/// run under a bound that begins at the estimate for the start and rises
/// from round to round to the least overflow reported. On success the
/// moves are returned and the steps they make are appended to `main_path`.
/// A start equal to the target needs no move. Boards that are not
/// well-formed are refused before anything is searched. The search is
/// given up only when the bound has reached the largest `i32`: from the
/// frontier of the last round no search reaches the target under any
/// bound below that.
pub fn resolve_puzzle<H: Heuristic>(
    size: i32,
    main_path: &mut Vec<(Dir, Vec<i32>)>,
    target: &Vec<i32>,
    explored_nodes: &mut i32,
    heuristic: &H,
    limit: usize,
) -> (result: Result<Vec<Dir>, SolveError>)
    requires
        old(main_path).len() > 0,
    ensures
        result == Err::<Vec<Dir>, SolveError>(SolveError::MalformedBoard) <==> !(is_board(
            size as int,
            steps_view(old(main_path)@).last().1,
        ) && is_board(size as int, target@)),
        result is Err ==> final(main_path)@ == old(main_path)@,
        result is Ok ==> playable(
            size as int,
            steps_view(old(main_path)@).last().1,
            result->Ok_0@,
        ) && replay(size as int, steps_view(old(main_path)@).last().1, result->Ok_0@) == target@
            && steps_view(final(main_path)@) == steps_view(old(main_path)@) + trail(
            size as int,
            steps_view(old(main_path)@).last().1,
            result->Ok_0@,
        ),
        is_board(size as int, target@) && steps_view(old(main_path)@).last().1 == target@
            ==> result is Ok && result->Ok_0@.len() == 0,
        result == Err::<Vec<Dir>, SolveError>(SolveError::Unsolved) ==> exists|
            seeds: Seq<Seq<Step>>,
        |
            seeds.len() >= 1 && is_frontier(
                size as int,
                steps_view(old(main_path)@).last().1,
                seeds,
            ) && #[trigger] out_of_reach(heuristic, size as int, target@, seeds) && (limit <= 1
                ==> seeds == seq![root_route(steps_view(old(main_path)@).last().1)]),
        *final(explored_nodes) >= *old(explored_nodes),
{
    let last: usize = main_path.len() - 1;
    let ghost base = steps_view(main_path@);
    let ghost from = base.last().1;
    if !check_board(size, &main_path[last].1) || !check_board(size, target) {
        return Err(SolveError::MalformedBoard);
    }
    let mut sequence: Vec<Dir> = Vec::new();
    if main_path[last].1 == *target {
        proof {
            assert(main_path[last as int].1@ =~= target@);
            assert(base + trail(size as int, from, sequence@) =~= base);
        }
        return Ok(sequence);
    }
    let root: Vec<i32> = main_path[last].1.clone();
    let mut bound: i32 = heuristic.estimate(size, &root, target);
    let ghost mut given_up: Seq<Seq<Step>> = seq![root_route(from)];
    proof {
        if bound == i32::MAX {
            lemma_start_out_of_reach(heuristic, size as int, target@, from);
        }
    }
    while bound < i32::MAX
        invariant
            bound == i32::MAX ==> given_up.len() >= 1 && is_frontier(size as int, from, given_up)
                && out_of_reach(heuristic, size as int, target@, given_up) && (limit <= 1
                ==> given_up == seq![root_route(from)]),
            main_path@ == old(main_path)@,
            base == steps_view(main_path@),
            base.len() > 0,
            from == base.last().1,
            root@ == from,
            from != target@,
            sequence@.len() == 0,
            is_board(size as int, from),
            is_board(size as int, target@),
            *explored_nodes >= *old(explored_nodes),
        decreases i32::MAX - bound,
    {
        let seeds: VecDeque<Vec<(Dir, Vec<i32>)>> = get_start_pos(size, &root, limit);
        proof {
            assert forall|i: int| 0 <= i < seeds.len() implies (#[trigger] routes_view(
                seeds@,
            )[i]).len() > 0 && is_board(size as int, routes_view(seeds@)[i].last().1) by {
                lemma_route_ends_on_board(size as int, from, routes_view(seeds@)[i]);
            }
        }
        let round: (Vec<(bool, i32)>, Vec<Vec<(Dir, Vec<i32>)>>) = search_round(
            size,
            &seeds,
            target,
            bound,
            explored_nodes,
            heuristic,
        );
        match merge_results(&round.0, bound) {
            Verdict::Solved(won) => {
                proof {
                    lemma_solution(
                        heuristic,
                        size as int,
                        target@,
                        bound as int,
                        from,
                        routes_view(seeds@)[won as int],
                        round.0[won as int],
                        routes_view(round.1@)[won as int],
                    );
                }
                append_steps(main_path, &mut sequence, &seeds[won]);
                append_steps(main_path, &mut sequence, &round.1[won]);
                proof {
                    let lead = routes_view(seeds@)[won as int].drop_first();
                    let ext = routes_view(round.1@)[won as int].drop_first();
                    assert(sequence@ =~= dirs_of(lead + ext));
                    assert(steps_view(main_path@) =~= base + (lead + ext));
                }
                return Ok(sequence);
            },
            Verdict::Deepen(next) => {
                proof {
                    if next == i32::MAX {
                        given_up = routes_view(seeds@);
                        lemma_round_out_of_reach(
                            heuristic,
                            size as int,
                            target@,
                            bound as int,
                            given_up,
                            round.0@,
                            routes_view(round.1@),
                        );
                    }
                }
                bound = next;
            },
            Verdict::Exhausted => {
                proof {
                    lemma_failed_round_raises_bound(
                        heuristic,
                        size as int,
                        target@,
                        bound as int,
                        routes_view(seeds@),
                        round.0@,
                        routes_view(round.1@),
                    );
                }
                return Err(SolveError::Unsolved);
            },
        }
    }
    Err(SolveError::Unsolved)
}

} // verus!
