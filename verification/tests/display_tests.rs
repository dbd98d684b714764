use sbyte::display::{
    arrange_views, cursor_span_on_screen, digit_cell_width, row_sources, rows_to_redraw, screen_cell,
    scrollbar_handle,
};

#[test]
fn scrolling_down_turns_the_rows_round() {
    // The view moves two rows toward the end: each row takes the cells two
    // rows below it, and the last two rows come round from the top.
    assert_eq!(
        row_sources(5, 2, false),
        vec![(2, false), (3, false), (4, false), (0, true), (1, true)]
    );
}

#[test]
fn scrolling_up_turns_the_rows_round() {
    assert_eq!(
        row_sources(5, 2, true),
        vec![(3, true), (4, true), (0, false), (1, false), (2, false)]
    );
}

#[test]
fn scrolled_rows_are_each_taken_once() {
    for height in 1..8usize {
        for diff in 0..height {
            for upward in [false, true] {
                let mut seen = vec![false; height];
                for (from_y, _) in row_sources(height, diff, upward) {
                    assert!(!seen[from_y]);
                    seen[from_y] = true;
                }
                assert!(seen.iter().all(|s| *s));
            }
        }
    }
}

#[test]
fn an_edit_that_moves_bytes_stales_the_rows_below() {
    assert_eq!(rows_to_redraw(25, true, 10, 7), (2, 7));
    assert_eq!(rows_to_redraw(25, false, 10, 7), (2, 2));
    assert_eq!(rows_to_redraw(95, true, 10, 7), (9, 9));
}

#[test]
fn the_cursor_is_clipped_to_the_screen() {
    // Screen shows bytes 10..40.
    assert_eq!(cursor_span_on_screen(10, 10, 3, 5, 10), (10, 15));
    assert_eq!(cursor_span_on_screen(10, 10, 3, 35, 10), (35, 40));
    assert_eq!(cursor_span_on_screen(10, 10, 3, 12, 1), (12, 13));
    let (start, end) = cursor_span_on_screen(10, 10, 3, 50, 2);
    assert!(end <= start);
}

#[test]
fn bytes_map_to_cells() {
    assert_eq!(screen_cell(37, 10, 10), (7, 2));
    assert_eq!(screen_cell(10, 10, 10), (0, 0));
}

#[test]
fn the_views_are_centred() {
    // 16 bytes in hex take 48 columns, the text 16; 80 - 64 = 16 spare.
    assert_eq!(arrange_views(80, 16, 3), (48, 8, 56));
}

#[test]
fn digit_cells_leave_a_gap() {
    assert_eq!(digit_cell_width(3), 2);
    assert_eq!(digit_cell_width(9), 8);
    assert_eq!(digit_cell_width(1), 1);
}

#[test]
fn the_scrollbar_handle_follows_the_view() {
    // 10x4 bytes on screen, content up to offset 399, bar 20 rows.
    assert_eq!(scrollbar_handle(0, 10, 4, 399, 20), Some((2, 0)));
    assert_eq!(scrollbar_handle(180, 10, 4, 399, 20), Some((2, 9)));
    assert_eq!(scrollbar_handle(0, 10, 4, 40, 20), None);
}
