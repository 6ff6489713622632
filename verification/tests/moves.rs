use npuzzle::algo::graph::{
    apply_action, get_full_array, get_neighbors, movement_value, new_position, path_contains, Dir,
};

#[test]
fn each_direction_has_its_unit_vector() {
    assert_eq!(movement_value(&Dir::N), (0, -1));
    assert_eq!(movement_value(&Dir::E), (1, 0));
    assert_eq!(movement_value(&Dir::S), (0, 1));
    assert_eq!(movement_value(&Dir::W), (-1, 0));
    assert_eq!(movement_value(&Dir::Stay), (0, 0));
}

#[test]
fn new_position_adds_component_by_component() {
    assert_eq!(new_position((1, 1), (0, -1)), (1, 0));
    assert_eq!(new_position((0, 0), (-1, 0)), (-1, 0));
    assert_eq!(new_position((2, 3), (1, 0)), (3, 3));
}

#[test]
fn a_move_inside_the_grid_exchanges_the_two_cells() {
    let state = vec![1, 2, 3, 4, 9, 5, 6, 7, 8];
    assert_eq!(apply_action(3, &state, (1, 1), (1, 0)), Ok(vec![1, 9, 3, 4, 2, 5, 6, 7, 8]));
    assert_eq!(apply_action(3, &state, (1, 1), (2, 1)), Ok(vec![1, 2, 3, 4, 5, 9, 6, 7, 8]));
    assert_eq!(state, vec![1, 2, 3, 4, 9, 5, 6, 7, 8]);
}

#[test]
fn a_move_onto_the_same_cell_changes_nothing() {
    let state = vec![1, 2, 3, 4];
    assert_eq!(apply_action(2, &state, (1, 1), (1, 1)), Ok(vec![1, 2, 3, 4]));
}

#[test]
fn a_move_out_of_the_grid_is_refused() {
    let state = vec![1, 2, 3, 4];
    assert_eq!(apply_action(2, &state, (1, 1), (2, 1)), Err(()));
    assert_eq!(apply_action(2, &state, (1, 1), (1, 2)), Err(()));
    assert_eq!(apply_action(2, &state, (0, 0), (-1, 0)), Err(()));
    assert_eq!(apply_action(2, &state, (0, 0), (0, -1)), Err(()));
}

#[test]
fn the_centre_has_four_neighbours_in_compass_order() {
    let state = vec![1, 2, 3, 4, 9, 5, 6, 7, 8];
    let found = get_neighbors(3, &state);
    assert_eq!(
        found,
        vec![
            (Dir::N, vec![1, 9, 3, 4, 2, 5, 6, 7, 8]),
            (Dir::E, vec![1, 2, 3, 4, 5, 9, 6, 7, 8]),
            (Dir::S, vec![1, 2, 3, 4, 7, 5, 6, 9, 8]),
            (Dir::W, vec![1, 2, 3, 9, 4, 5, 6, 7, 8]),
        ]
    );
}

#[test]
fn a_corner_has_two_neighbours() {
    let found = get_neighbors(3, &vec![1, 2, 3, 4, 5, 6, 7, 8, 9]);
    assert_eq!(
        found,
        vec![(Dir::N, vec![1, 2, 3, 4, 5, 9, 7, 8, 6]), (Dir::W, vec![1, 2, 3, 4, 5, 6, 7, 9, 8])]
    );
    let found = get_neighbors(2, &vec![4, 1, 2, 3]);
    assert_eq!(found, vec![(Dir::E, vec![1, 4, 2, 3]), (Dir::S, vec![2, 1, 4, 3])]);
}

#[test]
fn an_edge_has_three_neighbours() {
    let found = get_neighbors(3, &vec![1, 9, 2, 3, 4, 5, 6, 7, 8]);
    let dirs: Vec<Dir> = found.iter().map(|step| step.0).collect();
    assert_eq!(dirs, vec![Dir::E, Dir::S, Dir::W]);
}

#[test]
fn neighbours_differ_from_the_board_in_the_slot_and_one_adjacent_cell() {
    let size = 3;
    let state = vec![5, 1, 3, 9, 2, 6, 4, 7, 8];
    let blank = 3usize;
    let found = get_neighbors(size, &state);
    assert!(found.len() <= 4);
    for (index, (dir, board)) in found.iter().enumerate() {
        for (_, other) in found.iter().skip(index + 1).map(|step| (step.1.clone(), step.0)) {
            assert_ne!(*dir, other);
        }
        let changed: Vec<usize> = (0..state.len()).filter(|&k| state[k] != board[k]).collect();
        assert_eq!(changed.len(), 2);
        assert!(changed.contains(&blank));
        let cell = if changed[0] == blank { changed[1] } else { changed[0] };
        assert_eq!(board[cell], 9);
        assert_eq!(board[blank], state[cell]);
        let (bx, by) = (blank as i32 % size, blank as i32 / size);
        let (cx, cy) = (cell as i32 % size, cell as i32 / size);
        assert_eq!((bx - cx).abs() + (by - cy).abs(), 1);
    }
}

#[test]
fn history_holds_the_start_and_one_board_for_each_move() {
    let start = vec![1, 2, 3, 4, 9, 5, 6, 7, 8];
    let boards = get_full_array(start.clone(), 3, &vec![Dir::E, Dir::S, Dir::W]);
    assert_eq!(
        boards,
        vec![
            vec![1, 2, 3, 4, 9, 5, 6, 7, 8],
            vec![1, 2, 3, 4, 5, 9, 6, 7, 8],
            vec![1, 2, 3, 4, 5, 8, 6, 7, 9],
            vec![1, 2, 3, 4, 5, 8, 6, 9, 7],
        ]
    );
}

#[test]
fn history_of_no_move_is_the_start_alone() {
    let boards = get_full_array(vec![1, 2, 3, 4], 2, &Vec::new());
    assert_eq!(boards, vec![vec![1, 2, 3, 4]]);
}

#[test]
fn staying_repeats_the_board() {
    let boards = get_full_array(vec![1, 2, 3, 4], 2, &vec![Dir::Stay, Dir::N]);
    assert_eq!(boards, vec![vec![1, 2, 3, 4], vec![1, 2, 3, 4], vec![1, 4, 3, 2]]);
}

#[test]
fn a_path_holds_the_boards_of_its_steps_only() {
    let path = vec![(Dir::Stay, vec![1, 2, 3, 4]), (Dir::N, vec![1, 4, 3, 2])];
    assert!(path_contains(&path, &vec![1, 2, 3, 4]));
    assert!(path_contains(&path, &vec![1, 4, 3, 2]));
    assert!(!path_contains(&path, &vec![4, 1, 3, 2]));
    assert!(!path_contains(&Vec::new(), &vec![1, 2, 3, 4]));
}
