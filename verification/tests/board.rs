use npuzzle::board::utils::{check_board, fdtos, fstod, slot_pos, MAX_SIZE};

#[test]
fn index_of_a_cell_is_row_times_side_plus_column() {
    assert_eq!(fdtos(0, 0, 3), 0);
    assert_eq!(fdtos(2, 0, 3), 2);
    assert_eq!(fdtos(0, 1, 3), 3);
    assert_eq!(fdtos(1, 2, 3), 7);
    assert_eq!(fdtos(3, 3, 4), 15);
}

#[test]
fn cell_of_an_index_is_column_then_row() {
    assert_eq!(fstod(0, 3), (0, 0));
    assert_eq!(fstod(2, 3), (2, 0));
    assert_eq!(fstod(3, 3), (0, 1));
    assert_eq!(fstod(7, 3), (1, 2));
    assert_eq!(fstod(15, 4), (3, 3));
}

#[test]
fn coordinates_round_trip_for_every_index() {
    for size in 2..7 {
        for index in 0..size * size {
            let (x, y) = fstod(index, size);
            assert!(0 <= x && x < size && 0 <= y && y < size);
            assert_eq!(fdtos(x, y, size), index);
            assert_eq!(fstod(fdtos(x, y, size), size), (x, y));
        }
    }
}

#[test]
fn largest_side_still_has_indices_in_range() {
    let size = MAX_SIZE;
    assert_eq!(fdtos(size - 1, size - 1, size), size * size - 1);
    assert_eq!(fstod(size * size - 1, size), (size - 1, size - 1));
}

#[test]
fn empty_slot_is_found_wherever_it_is() {
    assert_eq!(slot_pos(2, &vec![1, 2, 3, 4]), 3);
    assert_eq!(slot_pos(2, &vec![4, 2, 3, 1]), 0);
    assert_eq!(slot_pos(3, &vec![1, 2, 3, 4, 9, 5, 6, 7, 8]), 4);
}

#[test]
fn well_formed_boards_are_accepted() {
    assert!(check_board(2, &vec![1, 2, 3, 4]));
    assert!(check_board(2, &vec![2, 1, 3, 4]));
    assert!(check_board(3, &vec![9, 8, 7, 6, 5, 4, 3, 2, 1]));
}

#[test]
fn boards_of_the_wrong_length_are_refused() {
    assert!(!check_board(2, &vec![1, 2, 3]));
    assert!(!check_board(2, &vec![1, 2, 3, 4, 5]));
    assert!(!check_board(3, &vec![1, 2, 3, 4]));
    assert!(!check_board(2, &Vec::new()));
}

#[test]
fn boards_with_a_repeated_or_missing_label_are_refused() {
    assert!(!check_board(2, &vec![1, 1, 3, 4]));
    assert!(!check_board(2, &vec![1, 2, 3, 3]));
    assert!(!check_board(3, &vec![1, 2, 3, 4, 5, 6, 7, 8, 8]));
}

#[test]
fn boards_with_a_label_out_of_range_are_refused() {
    assert!(!check_board(2, &vec![0, 1, 2, 3]));
    assert!(!check_board(2, &vec![1, 2, 3, 5]));
    assert!(!check_board(2, &vec![-1, 2, 3, 4]));
}

#[test]
fn sides_out_of_range_are_refused() {
    assert!(!check_board(1, &vec![1]));
    assert!(!check_board(0, &Vec::new()));
    assert!(!check_board(-2, &vec![1, 2, 3, 4]));
    assert!(!check_board(MAX_SIZE + 1, &vec![1, 2, 3, 4]));
}
