use npuzzle::graphics::visual::{cell_label, decimal_text, duration_caption, turn_page, Press};

#[test]
fn right_goes_on_until_the_last_board() {
    assert_eq!(turn_page(0, 3, Press::Right), 1);
    assert_eq!(turn_page(1, 3, Press::Right), 2);
    assert_eq!(turn_page(2, 3, Press::Right), 2);
    assert_eq!(turn_page(0, 1, Press::Right), 0);
}

#[test]
fn left_goes_back_until_the_first_board() {
    assert_eq!(turn_page(2, 3, Press::Left), 1);
    assert_eq!(turn_page(1, 3, Press::Left), 0);
    assert_eq!(turn_page(0, 3, Press::Left), 0);
}

#[test]
fn other_keys_turn_no_page() {
    assert_eq!(turn_page(1, 3, Press::Other), 1);
    assert_eq!(turn_page(0, 1, Press::Other), 0);
}

#[test]
fn decimal_text_is_what_the_standard_library_prints() {
    for value in [0u32, 1, 9, 10, 11, 99, 100, 101, 1234567890, u32::MAX] {
        assert_eq!(decimal_text(value), value.to_string());
    }
}

#[test]
fn empty_slot_shows_a_star() {
    assert_eq!(cell_label(9, 3), "*");
    assert_eq!(cell_label(4, 2), "*");
    assert_eq!(cell_label(4, -2), "*");
}

#[test]
fn tiles_show_their_label() {
    assert_eq!(cell_label(1, 3), "1");
    assert_eq!(cell_label(8, 3), "8");
    assert_eq!(cell_label(15, 4), "15");
    assert_eq!(cell_label(4, 3), "4");
    assert_eq!(cell_label(0, 3), "0");
}

#[test]
fn negative_labels_show_their_sign() {
    assert_eq!(cell_label(-7, 3), "-7");
    assert_eq!(cell_label(i32::MIN, 3), i32::MIN.to_string());
    assert_eq!(cell_label(i32::MAX, 46341), i32::MAX.to_string());
}

#[test]
fn caption_wraps_the_seconds() {
    assert_eq!(duration_caption("0.25"), "Duration : 0.25s");
    assert_eq!(duration_caption(""), "Duration : s");
}
