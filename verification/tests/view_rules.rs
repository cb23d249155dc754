use taskman::processes::SortBy;
use taskman::view::{
    bytes_to_mib, get_total_scrollable_items, header_band_contains, header_column, refresh_due, resize_action,
    row_baseline, traffic_since, traffic_totals, visible_rows, CursorCoord, ResizeAction, ScrollDirection,
    ViewState,
};

fn at(whole: i64) -> CursorCoord {
    CursorCoord { whole, fractional: false }
}

fn past(whole: i64) -> CursorCoord {
    CursorCoord { whole, fractional: true }
}

#[test]
fn initial_view_orders_by_memory_largest_first() {
    let v = ViewState::new();
    assert_eq!(v.sort_by, SortBy::RAM);
    assert!(!v.sort_ascending);
    assert_eq!(v.scroll_offset, 0);
    assert!(!v.is_dragging);
}

#[test]
fn header_columns_by_position() {
    assert_eq!(header_column(at(0)), Some(SortBy::Name));
    assert_eq!(header_column(past(59)), Some(SortBy::Name));
    assert_eq!(header_column(at(60)), None);
    assert_eq!(header_column(at(-1)), None);
    assert_eq!(header_column(at(200)), Some(SortBy::PID));
    assert_eq!(header_column(at(250)), Some(SortBy::PPID));
    assert_eq!(header_column(past(305)), None);
    assert_eq!(header_column(at(310)), Some(SortBy::CPU));
    assert_eq!(header_column(at(400)), Some(SortBy::RAM));
    assert_eq!(header_column(at(450)), None);
}

#[test]
fn header_band_spans_rows_forty_to_fifty() {
    assert!(!header_band_contains(past(39)));
    assert!(header_band_contains(at(40)));
    assert!(header_band_contains(past(49)));
    assert!(header_band_contains(at(50)));
    assert!(!header_band_contains(past(50)));
}

#[test]
fn clicking_the_current_column_flips_the_direction_and_twice_restores() {
    let mut v = ViewState::new();
    v.select_sort(SortBy::RAM);
    assert!(v.sort_ascending);
    v.select_sort(SortBy::RAM);
    assert_eq!(v, ViewState::new());
}

#[test]
fn clicking_another_column_orders_by_it_descending() {
    let mut v = ViewState::new();
    v.select_sort(SortBy::RAM);
    v.select_sort(SortBy::Name);
    assert_eq!(v.sort_by, SortBy::Name);
    assert!(!v.sort_ascending);
}

#[test]
fn left_button_on_the_title_row_chooses_the_column() {
    let mut v = ViewState::new();
    let off = v.left_button(true, at(320), past(45));
    assert!(!off);
    assert_eq!(v.sort_by, SortBy::CPU);
    // a gap between titles changes nothing
    let off = v.left_button(true, at(370), at(45));
    assert!(!off);
    assert_eq!(v.sort_by, SortBy::CPU);
}

#[test]
fn left_button_below_the_titles_may_grab_the_scrollbar() {
    let mut v = ViewState::new();
    assert!(v.left_button(true, at(455), at(100)));
    assert_eq!(v, ViewState::new());
}

#[test]
fn releasing_the_left_button_ends_a_drag() {
    let mut v = ViewState::new();
    v.is_dragging = true;
    assert!(!v.left_button(false, at(0), at(45)));
    assert!(!v.is_dragging);
    assert_eq!(v.sort_by, SortBy::RAM);
}

#[test]
fn wheel_scrolls_one_row_and_stops_at_the_top() {
    let mut v = ViewState::new();
    v.scroll(ScrollDirection::Up);
    assert_eq!(v.scroll_offset, 0);
    v.scroll(ScrollDirection::Down);
    v.scroll(ScrollDirection::Down);
    assert_eq!(v.scroll_offset, 2);
    v.scroll(ScrollDirection::Still);
    assert_eq!(v.scroll_offset, 2);
    v.scroll(ScrollDirection::Up);
    assert_eq!(v.scroll_offset, 1);
}

#[test]
fn wheel_down_then_up_returns() {
    let mut v = ViewState::new();
    v.scroll_offset = 7;
    let before = v;
    v.scroll(ScrollDirection::Down);
    v.scroll(ScrollDirection::Up);
    assert_eq!(v, before);
}

#[test]
fn scrollable_items_are_the_rows_past_the_first_screenful() {
    assert_eq!(get_total_scrollable_items(20), 5);
    assert_eq!(get_total_scrollable_items(15), 0);
    assert_eq!(get_total_scrollable_items(3), 0);
}

#[test]
fn visible_rows_are_at_most_a_screenful_from_the_offset() {
    assert_eq!(visible_rows(40, 10), (10, 25));
    assert_eq!(visible_rows(20, 10), (10, 20));
    assert_eq!(visible_rows(5, 9), (5, 5));
    assert_eq!(visible_rows(0, 0), (0, 0));
    assert_eq!(visible_rows(usize::MAX, usize::MAX - 3), (usize::MAX - 3, usize::MAX));
}

#[test]
fn row_baselines_are_twenty_five_pixels_apart() {
    assert_eq!(row_baseline(0), 80);
    assert_eq!(row_baseline(3), 155);
    assert_eq!(row_baseline(14), 430);
}

#[test]
fn window_keeps_its_fixed_size() {
    assert_eq!(resize_action(480, 540), ResizeAction::ResizeSurface);
    assert_eq!(resize_action(800, 540), ResizeAction::RestoreSize);
    assert_eq!(resize_action(480, 0), ResizeAction::RestoreSize);
}

#[test]
fn memory_is_shown_in_whole_mebibytes() {
    assert_eq!(bytes_to_mib(3 * 1024 * 1024 + 5), 3);
    assert_eq!(bytes_to_mib(1024 * 1024 - 1), 0);
}

#[test]
fn statistics_refresh_after_a_second() {
    assert!(!refresh_due(0));
    assert!(refresh_due(1));
    assert!(refresh_due(7));
}

#[test]
fn traffic_counters_are_summed_and_differenced() {
    assert_eq!(traffic_totals(&vec![(10, 1), (5, 2), (0, 3)]), (15, 6));
    assert_eq!(traffic_totals(&Vec::new()), (0, 0));
    assert_eq!(traffic_since(15, 10), 5);
    assert_eq!(traffic_since(5, 10), 0);
}
