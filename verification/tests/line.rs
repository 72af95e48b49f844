use flow::line::Line;

fn line(text: &str) -> Line {
    Line::new(text.to_string())
}

#[test]
fn contains_finds_text_anywhere() {
    let entry = line("INFO request served");
    assert!(entry.contains("INFO"));
    assert!(entry.contains("request"));
    assert!(entry.contains("served"));
    assert!(entry.contains("INFO request served"));
}

#[test]
fn contains_rejects_absent_text() {
    let entry = line("INFO request served");
    assert!(!entry.contains("ERROR"));
    assert!(!entry.contains("served!"));
    assert!(!entry.contains("INFO request served now"));
}

#[test]
fn contains_is_case_sensitive() {
    let entry = line("Error: disk full");
    assert!(entry.contains("Error"));
    assert!(!entry.contains("ERROR"));
    assert!(!entry.contains("error"));
}

#[test]
fn contains_knows_no_normalization() {
    let entry = line("caf\u{e9}");
    assert!(entry.contains("\u{e9}"));
    assert!(!entry.contains("e\u{301}"));
}

#[test]
fn every_line_contains_the_empty_text() {
    assert!(line("abc").contains(""));
    assert!(line("").contains(""));
}

#[test]
fn empty_line_contains_nothing_else() {
    assert!(!line("").contains("a"));
}

#[test]
fn matches_for_lists_every_position() {
    assert_eq!(line("ab ERROR cd ERROR").matches_for("ERROR"), vec![3, 12]);
    assert_eq!(line("ERROR").matches_for("ERROR"), vec![0]);
    assert_eq!(line("ERROR").matches_for("WARN"), Vec::<usize>::new());
}

#[test]
fn matches_for_lists_overlapping_occurrences() {
    assert_eq!(line("aaaa").matches_for("aa"), vec![0, 1, 2]);
    assert_eq!(line("abababa").matches_for("aba"), vec![0, 2, 4]);
}

#[test]
fn matches_for_counts_bytes() {
    assert_eq!(line("h\u{e9}llo").matches_for("llo"), vec![3]);
}

#[test]
fn matches_for_the_empty_text_is_every_position() {
    assert_eq!(line("abc").matches_for(""), vec![0, 1, 2, 3]);
    assert_eq!(line("").matches_for(""), vec![0]);
}

#[test]
fn matches_for_text_longer_than_the_line() {
    assert_eq!(line("ab").matches_for("abc"), Vec::<usize>::new());
}

#[test]
fn matches_for_agrees_with_contains() {
    let entry = line("one two one");
    for needle in ["one", "two", "three", "e t", ""] {
        assert_eq!(entry.contains(needle), !entry.matches_for(needle).is_empty());
    }
}

#[test]
fn line_clone_keeps_the_text() {
    let entry = line("copy me");
    assert_eq!(entry.clone().content, "copy me");
}
