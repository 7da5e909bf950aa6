use rqhull::trim_line;

#[test]
fn fields_of_a_padded_line() {
    assert_eq!(trim_line("    4 0 3 0 1"), vec!["4", "0", "3", "0", "1"]);
}

#[test]
fn fields_of_a_line_with_runs_of_spaces() {
    assert_eq!(trim_line("  -10.101   -10.101  "), vec!["-10.101", "-10.101"]);
}

#[test]
fn tabs_and_other_white_space_separate_fields() {
    assert_eq!(trim_line("a\tb\r\nc\u{3000}d\u{a0}e"), vec!["a", "b", "c", "d", "e"]);
}

#[test]
fn blank_lines_have_no_fields() {
    assert!(trim_line("").is_empty());
    assert!(trim_line("   \t ").is_empty());
}

#[test]
fn agrees_with_split_whitespace() {
    for line in ["5 10 1", " x ", "ab  cd\u{2003}ef", "\u{85}q\u{2028}r\u{205f}"] {
        let expected: Vec<&str> = line.trim().split_whitespace().collect();
        assert_eq!(trim_line(line), expected);
    }
}
