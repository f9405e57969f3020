use harper_ingest::lines::split_lines;

fn lines(s: &str) -> Vec<String> {
    let chars: Vec<char> = s.chars().collect();
    split_lines(&chars).into_iter().map(|l| l.into_iter().collect()).collect()
}

#[test]
fn lines_split_on_newline() {
    assert_eq!(lines("a\nb"), vec!["a", "b"]);
}

#[test]
fn final_newline_is_optional() {
    assert_eq!(lines("a\nb\n"), vec!["a", "b"]);
}

#[test]
fn crlf_endings_are_removed() {
    assert_eq!(lines("a\r\nb\r\n"), vec!["a", "b"]);
}

#[test]
fn lone_carriage_return_is_kept() {
    assert_eq!(lines("a\rb"), vec!["a\rb"]);
    assert_eq!(lines("a\r"), vec!["a\r"]);
}

#[test]
fn empty_text_has_no_lines() {
    assert!(lines("").is_empty());
}

#[test]
fn blank_lines_are_kept() {
    assert_eq!(lines("\n"), vec![""]);
    assert_eq!(lines("a\n\nb"), vec!["a", "", "b"]);
}

#[test]
fn inner_whitespace_is_kept() {
    assert_eq!(lines("  two words \n"), vec!["  two words "]);
}

#[test]
fn lines_agree_with_std() {
    for s in ["x\ny\r\nz", "\n\n", "one", "a\r\n\r\nb\n", "tail\r\n"] {
        let expected: Vec<String> = s.lines().map(|l| l.to_string()).collect();
        assert_eq!(lines(s), expected, "{:?}", s);
    }
}
