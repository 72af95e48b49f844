use flow::line::Line;
use flow::ui::display::{DisplayList, DrawCommand};
use flow::ui::rendered_line::RenderedLine;

fn rendered(text: &str, height: i32, found_matches: Option<Vec<usize>>) -> RenderedLine {
    RenderedLine::new(Line::new(text.to_string()), height, found_matches)
}

#[test]
fn new_keeps_its_arguments() {
    let entry = rendered("hello", 3, Some(vec![0, 2]));
    assert_eq!(entry.line.content, "hello");
    assert_eq!(entry.height, 3);
    assert_eq!(entry.found_matches, Some(vec![0, 2]));
}

#[test]
fn successful_search_records_ascending_rows_inside_the_height() {
    let mut entry = rendered("ab ERROR cd ERROR", 4, None);
    let mut display = DisplayList::new();
    assert!(entry.search("ERROR", &mut display, 5, 10));
    let rows = entry.found_matches.clone().expect("a matching line has match rows");
    assert_eq!(rows, vec![0, 2]);
    assert!(!rows.is_empty());
    assert!(rows.windows(2).all(|pair| pair[0] < pair[1]));
    assert!(rows.iter().all(|row| (*row as i32) < entry.height));
}

#[test]
fn successful_search_repaints_and_highlights() {
    let mut entry = rendered("ab ERROR cd ERROR", 4, None);
    let mut display = DisplayList::new();
    assert!(entry.search("ERROR", &mut display, 5, 10));
    assert_eq!(
        display.commands,
        vec![
            DrawCommand::Line { row: 10 },
            DrawCommand::Highlight { row: 10, column: 3 },
            DrawCommand::Highlight { row: 12, column: 2 },
        ]
    );
}

#[test]
fn successful_search_repaints_even_when_rows_stay_the_same() {
    let mut entry = rendered("ERROR", 1, Some(vec![0]));
    let mut display = DisplayList::new();
    assert!(entry.search("ERROR", &mut display, 80, 0));
    assert_eq!(entry.found_matches, Some(vec![0]));
    assert_eq!(
        display.commands,
        vec![DrawCommand::Line { row: 0 }, DrawCommand::Highlight { row: 0, column: 0 }]
    );
}

#[test]
fn failed_search_clears_matches_and_repaints_once() {
    let mut entry = rendered("ab ERROR cd ERROR", 4, Some(vec![0, 2]));
    let mut display = DisplayList::new();
    assert!(!entry.search("WARN", &mut display, 5, 10));
    assert_eq!(entry.found_matches, None);
    assert_eq!(display.commands, vec![DrawCommand::Line { row: 10 }]);
}

#[test]
fn failed_search_repeated_paints_nothing_more() {
    let mut entry = rendered("ab ERROR cd ERROR", 4, Some(vec![0, 2]));
    let mut display = DisplayList::new();
    assert!(!entry.search("WARN", &mut display, 5, 10));
    assert!(!entry.search("WARN", &mut display, 5, 10));
    assert!(!entry.search("TRACE", &mut display, 5, 10));
    assert_eq!(entry.found_matches, None);
    assert_eq!(display.commands, vec![DrawCommand::Line { row: 10 }]);
}

#[test]
fn failed_search_on_a_line_without_matches_paints_nothing() {
    let mut entry = rendered("INFO all well", 1, None);
    let mut display = DisplayList::new();
    assert!(!entry.search("ERROR", &mut display, 80, 2));
    assert_eq!(entry.found_matches, None);
    assert!(display.commands.is_empty());
}

#[test]
fn search_replaces_the_rows_of_an_earlier_query() {
    let mut entry = rendered("aa bb aa bb", 3, None);
    let mut display = DisplayList::new();
    assert!(entry.search("aa", &mut display, 4, 0));
    assert_eq!(entry.found_matches, Some(vec![0, 1]));
    assert!(entry.search("bb", &mut display, 4, 0));
    assert_eq!(entry.found_matches, Some(vec![0, 2]));
}

#[test]
fn search_for_the_empty_text_clears_and_repaints_once() {
    let mut entry = rendered("ab ERROR cd ERROR", 4, Some(vec![0, 2]));
    let mut display = DisplayList::new();
    assert!(!entry.search("", &mut display, 5, 10));
    assert_eq!(entry.found_matches, None);
    assert_eq!(display.commands, vec![DrawCommand::Line { row: 10 }]);
    assert!(!entry.search("", &mut display, 5, 10));
    assert_eq!(display.commands, vec![DrawCommand::Line { row: 10 }]);
}

#[test]
fn search_for_the_empty_text_matches_no_line() {
    let mut entry = rendered("abc", 1, None);
    let mut display = DisplayList::new();
    assert!(!entry.search("", &mut display, 80, 0));
    assert_eq!(entry.found_matches, None);
    assert!(display.commands.is_empty());
    let mut empty = rendered("", 1, None);
    assert!(!empty.search("", &mut display, 80, 0));
    assert_eq!(empty.found_matches, None);
}

#[test]
fn search_leaves_text_and_height_alone() {
    let mut entry = rendered("ab ERROR cd ERROR", 4, None);
    let mut display = DisplayList::new();
    entry.search("ERROR", &mut display, 5, 0);
    entry.search("nothing", &mut display, 5, 0);
    assert_eq!(entry.line.content, "ab ERROR cd ERROR");
    assert_eq!(entry.height, 4);
}

#[test]
fn highlight_returns_rows_or_nothing() {
    let entry = rendered("ab ERROR cd ERROR", 4, None);
    let mut display = DisplayList::new();
    assert_eq!(entry.highlight("ERROR", &mut display, 5, 0), Some(vec![0, 2]));
    assert_eq!(entry.highlight("WARN", &mut display, 5, 0), None);
    assert_eq!(entry.found_matches, None);
    assert_eq!(display.commands.len(), 2);
}

#[test]
fn print_asks_for_the_line_at_its_row() {
    let entry = rendered("hello", 1, None);
    let mut display = DisplayList::new();
    entry.print(&mut display, 42);
    assert_eq!(display.commands, vec![DrawCommand::Line { row: 42 }]);
}

#[test]
fn update_found_matches_tells_a_change() {
    let mut entry = rendered("hello", 2, None);
    assert!(entry.update_found_matches(Some(vec![0])));
    assert_eq!(entry.found_matches, Some(vec![0]));
    assert!(entry.update_found_matches(Some(vec![0, 1])));
    assert_eq!(entry.found_matches, Some(vec![0, 1]));
    assert!(entry.update_found_matches(None));
    assert_eq!(entry.found_matches, None);
}

#[test]
fn update_found_matches_tells_no_change() {
    let mut entry = rendered("hello", 2, None);
    assert!(!entry.update_found_matches(None));
    assert!(entry.update_found_matches(Some(vec![1])));
    assert!(!entry.update_found_matches(Some(vec![1])));
    assert_eq!(entry.found_matches, Some(vec![1]));
}

#[test]
fn match_count_counts_rows() {
    assert_eq!(rendered("x", 3, Some(vec![0, 1, 2])).match_count(), 3);
    assert_eq!(rendered("x", 3, Some(vec![2])).match_count(), 1);
}

#[test]
fn rendered_line_clone_is_independent() {
    let entry = rendered("hello", 2, Some(vec![1]));
    let mut copy = entry.clone();
    copy.update_found_matches(None);
    assert_eq!(entry.found_matches, Some(vec![1]));
    assert_eq!(copy.line.content, "hello");
    assert_eq!(copy.height, 2);
}

#[test]
fn well_formed_lines_are_told_apart() {
    assert!(rendered("x", 1, None).is_well_formed());
    assert!(rendered("x", 3, Some(vec![0, 1, 2])).is_well_formed());
    assert!(rendered("x", 3, Some(vec![2])).is_well_formed());
    assert!(!rendered("x", 0, None).is_well_formed());
    assert!(!rendered("x", -4, None).is_well_formed());
    assert!(!rendered("x", 3, Some(vec![])).is_well_formed());
    assert!(!rendered("x", 3, Some(vec![3])).is_well_formed());
    assert!(!rendered("x", 3, Some(vec![1, 1])).is_well_formed());
    assert!(!rendered("x", 3, Some(vec![2, 1])).is_well_formed());
    assert!(!rendered("x", 3, Some(vec![0, 1, 5])).is_well_formed());
}
