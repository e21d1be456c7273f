use difft_file_viewer::line_ending::{
    detect_line_ending, join_lines, normalize_line, read_lines_from_content, split_logical_lines, LineEnding,
};

#[test]
fn crlf_splits_like_difft_and_strips_cr() {
    assert_eq!(
        split_logical_lines("a\r\nb\r\n"),
        vec!["a".to_owned(), "b".to_owned(), String::new()]
    );
    assert_eq!(split_logical_lines("a\r\nb"), vec!["a", "b"]);
}

#[test]
fn lf_unchanged() {
    assert_eq!(
        split_logical_lines("a\nb\n"),
        vec!["a".to_owned(), "b".to_owned(), String::new()]
    );
}

#[test]
fn join_roundtrip_crlf() {
    let ending = LineEnding::CrLf;
    let lines = split_logical_lines("x\r\ny\r\n");
    assert_eq!(join_lines(&lines, ending), "x\r\ny\r\n");
}

#[test]
fn detect_prefers_crlf() {
    assert_eq!(detect_line_ending("a\r\nb"), LineEnding::CrLf);
    assert_eq!(detect_line_ending("a\nb"), LineEnding::Lf);
    assert_eq!(detect_line_ending("a\rb"), LineEnding::Cr);
}

#[test]
fn empty_content_has_no_lines() {
    assert!(split_logical_lines("").is_empty());
    assert_eq!(join_lines(&[], LineEnding::CrLf), "");
}

#[test]
fn as_str_gives_the_separator() {
    assert_eq!(LineEnding::Lf.as_str(), "\n");
    assert_eq!(LineEnding::CrLf.as_str(), "\r\n");
    assert_eq!(LineEnding::Cr.as_str(), "\r");
    assert_eq!(LineEnding::default(), LineEnding::Lf);
}

#[test]
fn normalize_strips_one_carriage_return() {
    assert_eq!(normalize_line("abc\r"), "abc");
    assert_eq!(normalize_line("abc\r\r"), "abc\r");
    assert_eq!(normalize_line("abc"), "abc");
    assert_eq!(normalize_line(""), "");
}

#[test]
fn read_then_join_preserves_lf_and_crlf_files() {
    for content in ["one\ntwo\n", "one\ntwo", "one\r\ntwo\r\n", "x\r\n\r\ny", "single line", "caf\u{e9}\r\n\u{1f600}\r\n"] {
        let (lines, ending) = read_lines_from_content(content);
        assert_eq!(join_lines(&lines, ending), content);
    }
}

#[test]
fn lone_cr_file_is_one_line() {
    let (lines, ending) = read_lines_from_content("a\rb");
    assert_eq!(lines, vec!["a\rb".to_owned()]);
    assert_eq!(ending, LineEnding::Cr);
}
