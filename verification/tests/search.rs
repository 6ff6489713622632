use npuzzle::algo::graph::{
    get_full_array, get_start_pos, graph_search, merge_results, resolve_puzzle, search_branch,
    search_round, Dir, SolveError, Verdict,
};
use npuzzle::algo::heuristics::{Heuristic, Manhattan, Uninformed};

fn replayed(size: i32, start: &Vec<i32>, moves: &Vec<Dir>) -> Vec<i32> {
    get_full_array(start.clone(), size, moves).last().unwrap().clone()
}

fn solved_3() -> Vec<i32> {
    vec![1, 2, 3, 4, 5, 6, 7, 8, 9]
}

#[test]
fn manhattan_of_the_target_is_zero() {
    assert_eq!(Manhattan.estimate(3, &solved_3(), &solved_3()), 0);
    assert_eq!(Manhattan.estimate(2, &vec![2, 1, 4, 3], &vec![2, 1, 4, 3]), 0);
}

#[test]
fn manhattan_adds_rows_and_columns_of_every_tile() {
    // tile 8 is one column from its place; the empty slot does not count
    assert_eq!(Manhattan.estimate(3, &vec![1, 2, 3, 4, 5, 6, 7, 9, 8], &solved_3()), 1);
    // tiles 1 and 2 have changed places
    assert_eq!(Manhattan.estimate(2, &vec![2, 1, 3, 4], &vec![1, 2, 3, 4]), 2);
    // 8: 1 + 2, 1: 1 + 0, 4: 0, 6: 1 + 0, 2: 1 + 1, 3: 2 + 2, 5: 0 + 1, 7: 2 + 0
    assert_eq!(Manhattan.estimate(3, &vec![8, 1, 9, 4, 6, 2, 3, 5, 7], &solved_3()), 14);
}

#[test]
fn search_on_the_target_succeeds_at_once() {
    let mut path = vec![(Dir::Stay, solved_3())];
    let mut explored = 0;
    let outcome = graph_search(3, &mut path, &solved_3(), 0, 0, &mut explored, &Manhattan);
    assert_eq!(outcome, (true, 0));
    assert_eq!(path, vec![(Dir::Stay, solved_3())]);
    assert_eq!(explored, 1);
}

#[test]
fn search_reports_the_cost_of_the_target_it_stands_on() {
    let mut path = vec![(Dir::Stay, solved_3())];
    let mut explored = 0;
    let outcome = graph_search(3, &mut path, &solved_3(), 5, 7, &mut explored, &Manhattan);
    assert_eq!(outcome, (true, 5));
}

#[test]
fn search_beyond_the_bound_is_pruned_with_its_cost() {
    let start = vec![2, 1, 3, 4];
    let mut path = vec![(Dir::Stay, start.clone())];
    let mut explored = 0;
    let outcome = graph_search(2, &mut path, &vec![1, 2, 3, 4], 3, 4, &mut explored, &Manhattan);
    assert_eq!(outcome, (false, 5));
    assert_eq!(path, vec![(Dir::Stay, start)]);
    assert_eq!(explored, 1);
}

#[test]
fn search_finds_the_target_one_move_away() {
    let start = vec![1, 2, 3, 4, 5, 6, 7, 9, 8];
    let mut path = vec![(Dir::Stay, start.clone())];
    let mut explored = 0;
    let outcome = graph_search(3, &mut path, &solved_3(), 0, 1, &mut explored, &Manhattan);
    assert!(outcome.0);
    assert_eq!(path, vec![(Dir::Stay, start), (Dir::E, solved_3())]);
    assert!(explored >= 2);
}

#[test]
fn failed_search_leaves_the_path_and_asks_for_a_higher_bound() {
    // two moves are needed; the estimate of the start is 2, bound 1 is too low
    let start = vec![1, 2, 3, 4, 5, 6, 9, 7, 8];
    let mut path = vec![(Dir::Stay, start.clone())];
    let mut explored = 0;
    let outcome = graph_search(3, &mut path, &solved_3(), 0, 1, &mut explored, &Manhattan);
    assert_eq!(outcome, (false, 2));
    assert_eq!(path, vec![(Dir::Stay, start)]);
}

#[test]
fn failed_search_reports_the_least_cost_beyond_the_bound() {
    // without an estimate the cost of a board is the number of moves:
    // under bound 1 the boards two moves away are the first beyond it
    let start = vec![1, 2, 3, 4, 9, 5, 6, 7, 8];
    let mut path = vec![(Dir::Stay, start.clone())];
    let mut explored = 0;
    let outcome = graph_search(3, &mut path, &solved_3(), 0, 1, &mut explored, &Uninformed);
    assert_eq!(outcome, (false, 2));
    assert_eq!(path, vec![(Dir::Stay, start)]);
    // the start and its four neighbours are expanded, their eight other neighbours pruned
    assert_eq!(explored, 1 + 4 + 4 * 2);
}

#[test]
fn search_that_succeeds_below_reports_the_least_overflow_seen_before() {
    // north is tried first and pruned at cost 1 + 2, east leads to the target
    let start = vec![1, 2, 3, 4, 5, 6, 7, 9, 8];
    let mut path = vec![(Dir::Stay, start.clone())];
    let mut explored = 0;
    let outcome = graph_search(3, &mut path, &solved_3(), 0, 1, &mut explored, &Manhattan);
    assert_eq!(outcome, (true, 3));
    assert_eq!(explored, 3);
}

#[test]
fn costs_beyond_the_largest_value_are_cut_off() {
    let start = vec![2, 1, 3, 4];
    let mut path = vec![(Dir::Stay, start.clone())];
    let mut explored = 0;
    let outcome = graph_search(2, &mut path, &vec![1, 2, 3, 4], i32::MAX, 7, &mut explored, &Manhattan);
    assert_eq!(outcome, (false, i32::MAX));
    let outcome = graph_search(2, &mut path, &vec![1, 2, 3, 4], i32::MAX - 2, 7, &mut explored, &Manhattan);
    assert_eq!(outcome, (false, i32::MAX));
    let outcome = graph_search(2, &mut path, &vec![1, 2, 3, 4], i32::MAX - 3, 7, &mut explored, &Manhattan);
    assert_eq!(outcome, (false, i32::MAX - 1));
}

#[test]
fn the_uninformed_estimate_is_zero() {
    assert_eq!(Uninformed.estimate(2, &vec![2, 1, 3, 4], &vec![1, 2, 3, 4]), 0);
    assert_eq!(Uninformed.estimate(3, &solved_3(), &solved_3()), 0);
}

#[test]
fn solver_works_without_an_estimate() {
    let start = vec![1, 2, 3, 4, 9, 6, 7, 5, 8];
    let mut path = vec![(Dir::Stay, start.clone())];
    let mut explored = 0;
    let moves = resolve_puzzle(3, &mut path, &solved_3(), &mut explored, &Uninformed, 1).unwrap();
    assert_eq!(moves, vec![Dir::S, Dir::E]);
    assert_eq!(replayed(3, &start, &moves), solved_3());
}

#[test]
fn found_path_has_no_board_twice() {
    let start = vec![8, 1, 3, 4, 9, 2, 7, 6, 5];
    let mut explored = 0;
    let mut bound = Manhattan.estimate(3, &start, &solved_3());
    loop {
        let mut path = vec![(Dir::Stay, start.clone())];
        let outcome = graph_search(3, &mut path, &solved_3(), 0, bound, &mut explored, &Manhattan);
        if outcome.0 {
            assert_eq!(path.last().unwrap().1, solved_3());
            for i in 0..path.len() {
                for j in i + 1..path.len() {
                    assert_ne!(path[i].1, path[j].1);
                }
            }
            let moves: Vec<Dir> = path.iter().skip(1).map(|step| step.0).collect();
            assert_eq!(replayed(3, &start, &moves), solved_3());
            break;
        }
        assert!(outcome.1 > bound);
        bound = outcome.1;
    }
}

#[test]
fn counter_of_explored_nodes_stops_at_its_largest_value() {
    let mut path = vec![(Dir::Stay, vec![1, 2, 3, 4, 5, 6, 7, 9, 8])];
    let mut explored = i32::MAX - 1;
    let outcome = graph_search(3, &mut path, &solved_3(), 0, 1, &mut explored, &Manhattan);
    assert!(outcome.0);
    assert_eq!(explored, i32::MAX);
}

#[test]
fn frontier_with_a_limit_below_two_is_the_root() {
    let root = vec![1, 2, 3, 4, 9, 5, 6, 7, 8];
    for limit in 0..2 {
        let seeds = get_start_pos(3, &root, limit);
        assert_eq!(seeds.len(), 1);
        assert_eq!(seeds[0], vec![(Dir::Stay, root.clone())]);
    }
}

#[test]
fn frontier_of_eight_from_the_centre() {
    let root = vec![1, 2, 3, 4, 9, 5, 6, 7, 8];
    let seeds = get_start_pos(3, &root, 8);
    assert!(seeds.len() >= 8 && seeds.len() <= 10);
    for (i, seed) in seeds.iter().enumerate() {
        assert!(seed.len() >= 2);
        assert_eq!(seed[0], (Dir::Stay, root.clone()));
        let moves: Vec<Dir> = seed.iter().skip(1).map(|step| step.0).collect();
        let boards = get_full_array(root.clone(), 3, &moves);
        let passed: Vec<Vec<i32>> = seed.iter().map(|step| step.1.clone()).collect();
        assert_eq!(boards, passed);
        for other in seeds.iter().skip(i + 1) {
            assert_ne!(seed.last().unwrap().1, other.last().unwrap().1);
        }
    }
}

#[test]
fn frontier_of_two_is_the_neighbours_of_the_root() {
    let root = vec![1, 2, 3, 4];
    let seeds = get_start_pos(2, &root, 2);
    assert_eq!(seeds.len(), 2);
    let mut ends: Vec<Vec<i32>> = seeds.iter().map(|seed| seed.last().unwrap().1.clone()).collect();
    ends.sort();
    assert_eq!(ends, vec![vec![1, 2, 4, 3], vec![1, 4, 3, 2]]);
}

#[test]
fn frontier_on_a_small_grid_runs_dry_and_keeps_one_path() {
    // twelve boards can be reached on a grid of side two: eight paths never are open at once
    let seeds = get_start_pos(2, &vec![1, 2, 3, 4], 8);
    assert_eq!(seeds.len(), 1);
    assert!(seeds[0].len() >= 2);
    assert_eq!(seeds[0][0], (Dir::Stay, vec![1, 2, 3, 4]));
}

#[test]
fn first_successful_search_wins_the_round() {
    let results = vec![(false, 7), (true, 3), (true, 1)];
    assert_eq!(merge_results(&results, 5), Verdict::Solved(1));
}

#[test]
fn least_overflow_is_the_next_bound() {
    let results = vec![(false, 9), (false, 7), (false, 8)];
    assert_eq!(merge_results(&results, 5), Verdict::Deepen(7));
}

#[test]
fn a_round_that_asks_for_no_higher_bound_ends_the_search() {
    assert_eq!(merge_results(&vec![(false, 5), (false, 9)], 5), Verdict::Exhausted);
    assert_eq!(merge_results(&vec![(false, 2)], 5), Verdict::Exhausted);
}

#[test]
fn a_round_without_searches_asks_for_the_largest_bound() {
    assert_eq!(merge_results(&Vec::new(), 5), Verdict::Deepen(i32::MAX));
}

#[test]
fn branch_starts_on_a_path_of_its_own() {
    let mut explored = 0;
    let seed = vec![1, 2, 3, 4, 5, 6, 7, 9, 8];
    let (outcome, path) = search_branch(3, &seed, &solved_3(), 1, &mut explored, &Manhattan);
    assert!(outcome.0);
    assert_eq!(path, vec![(Dir::Stay, seed.clone()), (Dir::E, solved_3())]);
    let (outcome, path) = search_branch(3, &seed, &solved_3(), 0, &mut explored, &Manhattan);
    assert_eq!(outcome, (false, 1));
    assert_eq!(path, vec![(Dir::Stay, seed)]);
}

#[test]
fn round_reports_one_result_for_each_seed() {
    let root = vec![1, 2, 3, 4, 5, 6, 7, 9, 8];
    let seeds = get_start_pos(3, &root, 3);
    let mut explored = 0;
    let (results, branches) = search_round(3, &seeds, &solved_3(), 0, &mut explored, &Manhattan);
    assert_eq!(results.len(), seeds.len());
    assert_eq!(branches.len(), seeds.len());
    for i in 0..seeds.len() {
        let seed = seeds[i].last().unwrap().1.clone();
        assert_eq!(branches[i][0], (Dir::Stay, seed.clone()));
        assert_eq!(results[i].0, seed == solved_3());
        if !results[i].0 {
            assert!(results[i].1 > 0);
            assert_eq!(branches[i].len(), 1);
        }
    }
    assert!(explored as usize >= seeds.len());
}

#[test]
fn scenario_two_by_two_with_two_tiles_exchanged_cannot_be_solved() {
    // with the empty slot in its place, exchanging two tiles is out of reach of any sequence of moves
    let start = vec![2, 1, 3, 4];
    let target = vec![1, 2, 3, 4];
    let mut path = vec![(Dir::Stay, start.clone())];
    let mut explored = 0;
    let result = resolve_puzzle(2, &mut path, &target, &mut explored, &Manhattan, 8);
    assert_eq!(result, Err(SolveError::Unsolved));
    assert_eq!(path, vec![(Dir::Stay, start)]);
    assert!(explored > 0);
}

#[test]
fn scenario_two_by_two_is_solved_by_a_sequence_that_replays_to_the_target() {
    let start = vec![4, 1, 3, 2];
    let target = vec![1, 2, 3, 4];
    let mut path = vec![(Dir::Stay, start.clone())];
    let mut explored = 0;
    let moves = resolve_puzzle(2, &mut path, &target, &mut explored, &Manhattan, 8).unwrap();
    assert!(!moves.is_empty());
    assert_eq!(replayed(2, &start, &moves), target);
    assert_eq!(path.len(), moves.len() + 1);
    assert_eq!(path.last().unwrap().1, target);
    let passed: Vec<Vec<i32>> = path.iter().map(|step| step.1.clone()).collect();
    assert_eq!(get_full_array(start, 2, &moves), passed);
    let taken: Vec<Dir> = path.iter().skip(1).map(|step| step.0).collect();
    assert_eq!(taken, moves);
}

#[test]
fn scenario_start_equal_to_target_needs_no_move() {
    let start = vec![3, 1, 2, 9, 4, 5, 6, 7, 8];
    let mut path = vec![(Dir::Stay, start.clone())];
    let mut explored = 0;
    let result = resolve_puzzle(3, &mut path, &start, &mut explored, &Manhattan, 8);
    assert_eq!(result, Ok(Vec::new()));
    assert_eq!(path, vec![(Dir::Stay, start)]);
    assert_eq!(explored, 0);
}

#[test]
fn scenario_three_by_three_one_move_away_with_a_single_search() {
    let start = vec![1, 2, 3, 4, 5, 6, 7, 9, 8];
    let mut path = vec![(Dir::Stay, start.clone())];
    let mut explored = 0;
    assert_eq!(Manhattan.estimate(3, &start, &solved_3()), 1);
    let result = resolve_puzzle(3, &mut path, &solved_3(), &mut explored, &Manhattan, 1);
    assert_eq!(result, Ok(vec![Dir::E]));
    assert_eq!(path, vec![(Dir::Stay, start.clone()), (Dir::E, solved_3())]);
    // the first round runs under the estimate of the start and succeeds:
    // the bound never exceeds that estimate, let alone the estimate plus one
    let mut branch = vec![(Dir::Stay, start)];
    let outcome = graph_search(3, &mut branch, &solved_3(), 0, 1, &mut explored, &Manhattan);
    assert!(outcome.0);
}

#[test]
fn scenario_three_by_three_one_move_away_with_a_frontier() {
    let start = vec![1, 2, 3, 4, 5, 6, 7, 9, 8];
    let mut path = vec![(Dir::Stay, start.clone())];
    let mut explored = 0;
    let moves = resolve_puzzle(3, &mut path, &solved_3(), &mut explored, &Manhattan, 8).unwrap();
    assert!(!moves.is_empty());
    assert_eq!(replayed(3, &start, &moves), solved_3());
}

#[test]
fn scenario_repeated_runs_all_reach_the_target() {
    let start = vec![1, 2, 3, 4, 9, 6, 7, 5, 8];
    for limit in [1usize, 2, 4, 8, 8, 8] {
        let mut path = vec![(Dir::Stay, start.clone())];
        let mut explored = 0;
        let moves = resolve_puzzle(3, &mut path, &solved_3(), &mut explored, &Manhattan, limit).unwrap();
        assert_eq!(replayed(3, &start, &moves), solved_3());
    }
}

#[test]
fn solver_keeps_what_the_path_held_before_the_start() {
    let before = (Dir::W, vec![9, 1, 3, 2]);
    let start = vec![1, 9, 3, 2];
    let mut path = vec![before.clone(), (Dir::E, start.clone())];
    let mut explored = 0;
    let moves = resolve_puzzle(2, &mut path, &vec![1, 2, 3, 4], &mut explored, &Manhattan, 1);
    assert_eq!(moves, Err(SolveError::MalformedBoard));
    let start = vec![1, 4, 3, 2];
    let mut path = vec![before.clone(), (Dir::E, start.clone())];
    let moves = resolve_puzzle(2, &mut path, &vec![1, 2, 3, 4], &mut explored, &Manhattan, 1).unwrap();
    assert_eq!(moves, vec![Dir::S]);
    assert_eq!(path, vec![before, (Dir::E, start), (Dir::S, vec![1, 2, 3, 4])]);
}

#[test]
fn malformed_boards_are_refused_before_any_search() {
    let mut explored = 0;
    let mut path = vec![(Dir::Stay, vec![1, 1, 3, 4])];
    let result = resolve_puzzle(2, &mut path, &vec![1, 2, 3, 4], &mut explored, &Manhattan, 8);
    assert_eq!(result, Err(SolveError::MalformedBoard));
    let mut path = vec![(Dir::Stay, vec![1, 2, 3, 4])];
    let result = resolve_puzzle(2, &mut path, &vec![1, 2, 3], &mut explored, &Manhattan, 8);
    assert_eq!(result, Err(SolveError::MalformedBoard));
    let mut path = vec![(Dir::Stay, vec![1, 2, 3, 4])];
    let result = resolve_puzzle(3, &mut path, &vec![1, 2, 3, 4], &mut explored, &Manhattan, 8);
    assert_eq!(result, Err(SolveError::MalformedBoard));
    assert_eq!(explored, 0);
}
