use difft_file_viewer::model::{
    aligned_pairs_for_status, block_label_priority, changes_to_spans, convert_new_diff_json, gutter_syntax_block,
    innermost_syntax_block, json_payload, is_declaration_label, is_statement_label, is_trivial_syntax_block, line_text,
    normalize_diff_file, warning_message, AlignedLine, DiffFile, DiffStatus, NewChange, NewChunkLine, NewDiffFile,
    NewSide, SyntaxBlock,
};
use difft_file_viewer::segments::{Highlight, TextSpan};

fn block(id: u32, label: &str, start: u32, end: u32) -> SyntaxBlock {
    SyntaxBlock { id, parent_id: None, label: label.into(), start_line: start, end_line: end }
}

fn diff_file(language: &str, extra: Option<&str>) -> DiffFile {
    DiffFile {
        path: "p".into(),
        language: language.into(),
        status: DiffStatus::Changed,
        extra_info: extra.map(|s| s.to_owned()),
        aligned_lines: vec![],
        lhs_syntax_blocks: vec![],
        rhs_syntax_blocks: vec![],
    }
}

fn change(start: u32, end: u32, content: &str) -> NewChange {
    NewChange { start, end, content: content.into(), highlight: Highlight::Normal }
}

fn raw(aligned: Vec<(Option<u32>, Option<u32>)>, chunks: Vec<Vec<NewChunkLine>>, status: DiffStatus) -> NewDiffFile {
    NewDiffFile {
        path: "b".into(),
        language: "Text".into(),
        status,
        extra_info: None,
        aligned_lines: aligned,
        chunks,
        lhs_syntax_blocks: vec![],
        rhs_syntax_blocks: vec![],
    }
}

fn lines(v: &[&str]) -> Vec<String> {
    v.iter().map(|s| s.to_string()).collect()
}

#[test]
fn parse_new_json_format_reads_source_lines() {
    let chunk = NewChunkLine {
        lhs: Some(NewSide { line_number: 0, changes: vec![change(0, 5, "hello")] }),
        rhs: Some(NewSide { line_number: 0, changes: vec![change(0, 5, "world")] }),
    };
    let diff = convert_new_diff_json(
        raw(vec![(Some(0), Some(0)), (Some(1), Some(1))], vec![vec![chunk]], DiffStatus::Changed),
        &lines(&["hello", "keep"]),
        &lines(&["world", "keep"]),
    );
    assert_eq!(diff.aligned_lines.len(), 2);
    assert_eq!(diff.aligned_lines[0].lhs_text, "hello");
    assert_eq!(diff.aligned_lines[0].rhs_text, "world");
    assert!(diff.aligned_lines[0].is_novel_lhs);
    assert!(diff.aligned_lines[0].is_novel_rhs);
    assert!(!diff.aligned_lines[1].is_novel_lhs);
    assert_eq!(diff.aligned_lines[1].lhs_text, "keep");
    assert_eq!(diff.aligned_lines[0].lhs_spans[0].content, "hello");
    assert!(diff.aligned_lines[0].lhs_spans[0].is_novel);
}

#[test]
fn parse_unchanged_without_aligned_lines() {
    let diff = convert_new_diff_json(raw(vec![], vec![], DiffStatus::Unchanged), &lines(&["same", "line"]), &lines(&["same", "line"]));
    assert_eq!(diff.aligned_lines.len(), 2);
    assert_eq!(diff.aligned_lines[0].lhs_text, "same");
    assert!(!diff.aligned_lines[0].is_novel_lhs);
}

#[test]
fn parse_reads_crlf_source_lines() {
    let chunk = NewChunkLine {
        lhs: Some(NewSide { line_number: 0, changes: vec![change(0, 4, "left")] }),
        rhs: Some(NewSide { line_number: 0, changes: vec![change(0, 5, "right")] }),
    };
    let lhs = difft_file_viewer::line_ending::split_logical_lines("left\r\n");
    let rhs = difft_file_viewer::line_ending::split_logical_lines("right\r\n");
    let diff = convert_new_diff_json(raw(vec![(Some(0), Some(0))], vec![vec![chunk]], DiffStatus::Changed), &lhs, &rhs);
    assert_eq!(diff.aligned_lines[0].lhs_text, "left");
    assert_eq!(diff.aligned_lines[0].rhs_text, "right");
}

#[test]
fn parse_new_json_format_reads_syntax_blocks() {
    let mut r = raw(vec![(Some(0), Some(0))], vec![], DiffStatus::Changed);
    r.lhs_syntax_blocks = vec![block(1, "(fn a", 0, 0)];
    r.rhs_syntax_blocks = vec![block(2, "(fn b", 0, 0)];
    let diff = convert_new_diff_json(r, &lines(&["fn a() {}", ""]), &lines(&["fn b() {}", ""]));
    assert_eq!(diff.lhs_syntax_blocks.len(), 1);
    assert_eq!(diff.lhs_syntax_blocks[0].label, "(fn a");
    assert_eq!(diff.rhs_syntax_blocks[0].start_line, 0);
    assert!(gutter_syntax_block(&diff.lhs_syntax_blocks, 0).is_some());
}

#[test]
fn later_chunk_lines_win_and_one_sided_rows_are_novel() {
    let first = NewChunkLine { lhs: Some(NewSide { line_number: 0, changes: vec![] }), rhs: None };
    let second = NewChunkLine { lhs: Some(NewSide { line_number: 0, changes: vec![] }), rhs: None };
    let diff = convert_new_diff_json(
        raw(vec![(Some(0), None), (None, Some(0))], vec![vec![first], vec![second]], DiffStatus::Changed),
        &lines(&["gone\r"]),
        &lines(&["added"]),
    );
    assert!(diff.aligned_lines[0].is_novel_lhs);
    assert!(!diff.aligned_lines[0].is_novel_rhs);
    assert_eq!(diff.aligned_lines[0].lhs_text, "gone");
    assert_eq!(diff.aligned_lines[0].rhs_text, "");
    assert!(!diff.aligned_lines[1].is_novel_rhs);
}

#[test]
fn pairs_follow_status() {
    let a = lines(&["1", "2", "3"]);
    let b = lines(&["1"]);
    assert_eq!(aligned_pairs_for_status(DiffStatus::Unchanged, &a, &b).len(), 3);
    assert_eq!(aligned_pairs_for_status(DiffStatus::Created, &a, &b), vec![(None, Some(0))]);
    assert_eq!(
        aligned_pairs_for_status(DiffStatus::Deleted, &a, &b),
        vec![(Some(0), None), (Some(1), None), (Some(2), None)]
    );
    assert!(aligned_pairs_for_status(DiffStatus::Changed, &a, &b).is_empty());
}

#[test]
fn line_text_and_spans() {
    let l = lines(&["a", "b"]);
    assert_eq!(line_text(&l, Some(1)), "b");
    assert_eq!(line_text(&l, Some(2)), "");
    assert_eq!(line_text(&l, None), "");
    let spans = changes_to_spans(&[change(1, 2, "x\r")]);
    assert_eq!(spans, vec![TextSpan { start: 1, end: 2, content: "x".into(), highlight: Highlight::Normal, is_novel: true }]);
}

#[test]
fn normalize_strips_row_texts() {
    let mut file = diff_file("Rust", None);
    file.aligned_lines.push(AlignedLine {
        lhs_line: Some(0),
        rhs_line: None,
        file_c_only_line: None,
        lhs_text: "a\r".into(),
        rhs_text: "b".into(),
        is_novel_lhs: true,
        is_novel_rhs: false,
        lhs_spans: vec![TextSpan { start: 0, end: 1, content: "a\r".into(), highlight: Highlight::Normal, is_novel: true }],
        rhs_spans: vec![],
    });
    normalize_diff_file(&mut file);
    assert_eq!(file.aligned_lines[0].lhs_text, "a");
    assert_eq!(file.aligned_lines[0].lhs_spans[0].content, "a");
    assert_eq!(file.aligned_lines[0].rhs_text, "b");
}

#[test]
fn warnings_prefer_extra_info_then_text_fallback() {
    assert_eq!(warning_message(&diff_file("Rust", Some("byte limit exceeded"))).unwrap(), "byte limit exceeded");
    assert_eq!(warning_message(&diff_file("Text (parse error)", Some(""))).unwrap(), "Text (parse error)");
    assert!(warning_message(&diff_file("Rust", None)).is_none());
}

#[test]
fn innermost_prefers_nontrivial_then_smaller() {
    let blocks = vec![block(1, "(fn main", 0, 10), block(2, "(if", 2, 4), block(3, "{", 3, 3), block(4, "(call", 2, 4)];
    let b = innermost_syntax_block(&blocks, 3).unwrap();
    assert_eq!(b.id, 2);
    assert!(innermost_syntax_block(&blocks, 11).is_none());
    assert_eq!(innermost_syntax_block(&[block(9, "{", 5, 5)], 5).unwrap().id, 9);
}

#[test]
fn gutter_prefers_statements_then_declarations() {
    let blocks = vec![block(1, "(fn main", 0, 10), block(2, "(call foo", 2, 3), block(3, "(if x", 1, 5)];
    assert_eq!(gutter_syntax_block(&blocks, 2).unwrap().id, 3);
    let blocks = vec![block(1, "(fn main", 0, 10), block(2, "(call foo", 2, 3)];
    assert_eq!(gutter_syntax_block(&blocks, 2).unwrap().id, 1);
    let blocks = vec![block(1, "(call a", 0, 10), block(2, "(call b", 2, 3)];
    assert_eq!(gutter_syntax_block(&blocks, 2).unwrap().id, 2);
    assert!(gutter_syntax_block(&[], 0).is_none());
}

#[test]
fn label_classes() {
    assert_eq!(block_label_priority("(if x"), 0);
    assert_eq!(block_label_priority("(call"), 1);
    assert_eq!(block_label_priority("({"), 2);
    assert_eq!(block_label_priority("{"), 3);
    assert_eq!(block_label_priority("x"), 2);
    assert!(is_statement_label("(match arm"));
    assert!(is_statement_label("(switch"));
    assert!(!is_statement_label("(fn"));
    assert!(is_declaration_label("(trait T"));
    assert!(!is_declaration_label("(if"));
    assert!(is_trivial_syntax_block(&block(0, "abc", 1, 1)));
    assert!(!is_trivial_syntax_block(&block(0, "abcd", 1, 1)));
    assert!(!is_trivial_syntax_block(&block(0, "é√", 1, 1)));
    assert!(!is_trivial_syntax_block(&block(0, "a", 1, 2)));
}

#[test]
fn json_payload_trims_and_rejects_empty_output() {
    assert_eq!(json_payload("  {\"a\":1}\n", "none"), Ok("{\"a\":1}".to_string()));
    assert_eq!(json_payload(" \n\t", "difft produced no JSON output."), Err("difft produced no JSON output.".to_string()));
}
