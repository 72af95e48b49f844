use flow::ui::event::{scroll_offset, Direction, Event, Key, Reaction};

#[test]
fn arrow_keys_select_and_scroll() {
    assert_eq!(
        Event::for_key(Key::Left),
        Reaction::Report(Event::SelectMenuItem(Direction::Left))
    );
    assert_eq!(
        Event::for_key(Key::Right),
        Reaction::Report(Event::SelectMenuItem(Direction::Right))
    );
    assert_eq!(Event::for_key(Key::Up), Reaction::Report(Event::ScrollContents(1)));
    assert_eq!(Event::for_key(Key::Down), Reaction::Report(Event::ScrollContents(-1)));
}

#[test]
fn other_keys_are_passed_on() {
    assert_eq!(Event::for_key(Key::Resize), Reaction::Report(Event::Resize));
    assert_eq!(Event::for_key(Key::Other), Reaction::Report(Event::Other));
    assert_eq!(Event::for_key(Key::Mouse), Reaction::ReadMouse);
}

#[test]
fn wheel_scrolls_by_one_row() {
    assert_eq!(Event::for_mouse(Some(0b0100), 0b0100, 0b1000), Event::ScrollContents(1));
    assert_eq!(Event::for_mouse(Some(0b1000), 0b0100, 0b1000), Event::ScrollContents(-1));
    assert_eq!(Event::for_mouse(Some(0b1011), 0b0100, 0b1000), Event::ScrollContents(-1));
}

#[test]
fn wheel_up_wins_over_wheel_down() {
    assert_eq!(Event::for_mouse(Some(0b1100), 0b0100, 0b1000), Event::ScrollContents(1));
}

#[test]
fn other_mouse_reports_are_of_no_interest() {
    assert_eq!(Event::for_mouse(Some(0b0011), 0b0100, 0b1000), Event::Other);
    assert_eq!(Event::for_mouse(Some(0), 0b0100, 0b1000), Event::Other);
    assert_eq!(Event::for_mouse(None, 0b0100, 0b1000), Event::Other);
}

#[test]
fn scroll_offset_puts_the_newest_row_at_the_bottom() {
    assert_eq!(scroll_offset(100, 24, 0), Some(77));
    assert_eq!(scroll_offset(100, 24, 5), Some(72));
    assert_eq!(scroll_offset(10, 24, 0), Some(-13));
    assert_eq!(scroll_offset(0, 1, 0), Some(0));
}

#[test]
fn scroll_offset_reaches_both_ends_of_the_range() {
    assert_eq!(scroll_offset(i32::MAX, 1, 0), Some(i32::MAX));
    assert_eq!(scroll_offset(i32::MIN, 1, 0), Some(i32::MIN));
    assert_eq!(scroll_offset(i32::MIN, i32::MIN, 1), Some(0));
}

#[test]
fn scroll_offset_out_of_range_is_none() {
    assert_eq!(scroll_offset(i32::MAX, 0, 0), None);
    assert_eq!(scroll_offset(i32::MIN, 2, 0), None);
    assert_eq!(scroll_offset(i32::MAX, i32::MIN, 0), None);
    assert_eq!(scroll_offset(0, 0, i32::MIN), None);
    assert_eq!(scroll_offset(i32::MAX, i32::MAX, i32::MIN), None);
}
