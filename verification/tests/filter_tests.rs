use pack_unpack::filter::Filter;

fn lines(xs: &[&str]) -> Vec<String> {
    xs.iter().map(|s| s.to_string()).collect()
}

#[test]
fn default_filter_matches_everything() {
    let f = Filter::all();
    assert!(f.matches("client/res/foo.txt"));
    assert!(f.matches(""));
    assert!(f.matches("anything at all"));
}

#[test]
fn glob_filter_matches_and_rejects() {
    let (f, warnings) = Filter::from_lines(&lines(&["*.txt"])).unwrap();
    assert!(warnings.is_empty());
    assert!(f.matches("a.txt"));
    assert!(!f.matches("a.bin"));
}

#[test]
fn blank_and_comment_lines_are_ignored() {
    let (f, warnings) = Filter::from_lines(&lines(&["", "# a comment", "*.txt"])).unwrap();
    assert!(warnings.is_empty());
    assert!(f.matches("note.txt"));
    assert!(!f.matches("# a comment"));
}

#[test]
fn several_patterns_are_an_or() {
    let (f, warnings) = Filter::from_lines(&lines(&["*.txt", "*.bin"])).unwrap();
    assert!(warnings.is_empty());
    assert!(f.matches("a.txt"));
    assert!(f.matches("b.bin"));
    assert!(!f.matches("c.dat"));
}

#[test]
fn invalid_pattern_is_reported_and_skipped() {
    let (f, warnings) = Filter::from_lines(&lines(&["[", "*.txt"])).unwrap();
    assert_eq!(warnings.len(), 1);
    assert_eq!(warnings[0].index, 0);
    assert_eq!(warnings[0].line, "[");
    assert!(!warnings[0].message.is_empty());
    // The run proceeds with the remaining valid pattern.
    assert!(f.matches("a.txt"));
    assert!(!f.matches("a.bin"));
}

#[test]
fn invalid_pattern_warnings_carry_line_numbers() {
    let (_f, warnings) = Filter::from_lines(&lines(&["*.txt", "[", "# note", "[x"])).unwrap();
    assert_eq!(warnings.len(), 2);
    assert_eq!(warnings[0].index, 1);
    assert_eq!(warnings[1].index, 3);
}

#[test]
fn empty_pattern_file_matches_nothing() {
    let (f, warnings) = Filter::from_lines(&lines(&[])).unwrap();
    assert!(warnings.is_empty());
    assert!(!f.matches("a.txt"));
}
