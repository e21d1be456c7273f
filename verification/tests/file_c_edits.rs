use difft_file_viewer::edit::{
    apply_block_to_file_c, block_source_lines, clear_block_in_file_c, delete_block_from_file_c,
    file_c_block_lines, file_lines_in_range, is_empty_line, move_block_in_file_c, place_line_at,
    prepare_insert_point, BlockSelection, DiffSide,
};
use difft_file_viewer::model::{AlignedLine, DiffFile, DiffStatus};

fn row(lhs: Option<u32>, rhs: Option<u32>, lhs_text: &str, rhs_text: &str) -> AlignedLine {
    AlignedLine {
        lhs_line: lhs,
        rhs_line: rhs,
        file_c_only_line: None,
        lhs_text: lhs_text.into(),
        rhs_text: rhs_text.into(),
        is_novel_lhs: true,
        is_novel_rhs: true,
        lhs_spans: vec![],
        rhs_spans: vec![],
    }
}

fn diff_with(rows: Vec<AlignedLine>) -> DiffFile {
    DiffFile {
        path: String::new(),
        language: String::new(),
        status: DiffStatus::Changed,
        extra_info: None,
        aligned_lines: rows,
        lhs_syntax_blocks: vec![],
        rhs_syntax_blocks: vec![],
    }
}

fn lhs_sel(start: u32, end: u32) -> BlockSelection {
    BlockSelection { side: DiffSide::Lhs, block_id: 0, start_line: start, end_line: end }
}

#[test]
fn insert_block_pushes_existing_lines_down() {
    let mut file_c = vec!["a".to_owned(), "b".to_owned(), "c".to_owned()];
    let diff = diff_with(vec![row(Some(0), Some(0), "x", "x")]);
    apply_block_to_file_c(&mut file_c, &diff, lhs_sel(0, 0), 1).unwrap();
    assert_eq!(
        file_c,
        vec!["a".to_owned(), "x".to_owned(), "b".to_owned(), "c".to_owned()]
    );
}

#[test]
fn insert_block_pads_to_target_line_past_eof() {
    let mut file_c = vec!["only".to_owned()];
    let diff = diff_with(vec![row(Some(0), Some(0), "new", "new")]);
    apply_block_to_file_c(&mut file_c, &diff, lhs_sel(0, 0), 4).unwrap();
    assert_eq!(file_c.len(), 5);
    assert_eq!(file_c[0], "only");
    assert_eq!(file_c[1], "");
    assert_eq!(file_c[2], "");
    assert_eq!(file_c[3], "");
    assert_eq!(file_c[4], "new");
}

#[test]
fn insert_at_exact_line_not_collapsed_by_leading_empty_gap() {
    let mut file_c = vec!["only".to_owned()];
    let diff = diff_with(vec![row(Some(0), Some(0), "x", "x")]);
    apply_block_to_file_c(&mut file_c, &diff, lhs_sel(0, 0), 4).unwrap();
    assert_eq!(file_c[4], "x");
    assert_eq!(file_c[1], "");
    assert_eq!(file_c[2], "");
    assert_eq!(file_c[3], "");
}

#[test]
fn insert_block_overwrites_empty_lines() {
    let mut file_c = vec!["a".to_owned(), String::new(), String::new(), "c".to_owned()];
    let diff = diff_with(vec![row(Some(0), Some(0), "x", "x"), row(Some(1), Some(1), "y", "y")]);
    apply_block_to_file_c(&mut file_c, &diff, lhs_sel(0, 1), 1).unwrap();
    assert_eq!(
        file_c,
        vec!["a".to_owned(), "x".to_owned(), "y".to_owned(), "c".to_owned()]
    );
}

#[test]
fn insert_block_displaced_content_overwrites_empty_slots() {
    let mut file_c = vec!["a".to_owned(), "b".to_owned(), String::new(), "c".to_owned()];
    let diff = diff_with(vec![row(Some(0), Some(0), "x", "x"), row(Some(1), Some(1), "y", "y")]);
    apply_block_to_file_c(&mut file_c, &diff, lhs_sel(0, 1), 1).unwrap();
    assert_eq!(
        file_c,
        vec![
            "a".to_owned(),
            "x".to_owned(),
            "y".to_owned(),
            "b".to_owned(),
            "c".to_owned(),
        ]
    );
}

#[test]
fn delete_block_clears_selected_lines() {
    let mut file_c = vec!["a".to_owned(), "block".to_owned(), "end".to_owned(), "tail".to_owned()];
    delete_block_from_file_c(&mut file_c, 1, 2).unwrap();
    assert_eq!(
        file_c,
        vec!["a".to_owned(), String::new(), String::new(), "tail".to_owned()]
    );
}

#[test]
fn move_block_reinserts_at_target_line() {
    let mut file_c = vec!["a".to_owned(), "move-me".to_owned(), "b".to_owned(), "c".to_owned()];
    move_block_in_file_c(&mut file_c, 1, 1, 3).unwrap();
    assert_eq!(
        file_c,
        vec![
            "a".to_owned(),
            String::new(),
            "b".to_owned(),
            "move-me".to_owned(),
            "c".to_owned(),
        ]
    );
}

#[test]
fn apply_without_source_lines_is_refused() {
    let mut file_c = vec!["a".to_owned()];
    let diff = diff_with(vec![row(None, Some(0), "", "x")]);
    let err = apply_block_to_file_c(&mut file_c, &diff, lhs_sel(0, 5), 0).unwrap_err();
    assert_eq!(err, "selected syntax block has no source lines.");
    assert_eq!(file_c, vec!["a".to_owned()]);
}

#[test]
fn delete_errors() {
    let mut file_c = vec!["a".to_owned(), "  ".to_owned()];
    assert_eq!(
        delete_block_from_file_c(&mut file_c, 5, 7).unwrap_err(),
        "selected syntax block has no lines."
    );
    assert_eq!(
        delete_block_from_file_c(&mut file_c, 1, 9).unwrap_err(),
        "selected syntax block is already empty."
    );
    assert_eq!(
        move_block_in_file_c(&mut file_c, 1, 1, 0).unwrap_err(),
        "selected syntax block is already empty."
    );
    assert_eq!(file_c, vec!["a".to_owned(), "  ".to_owned()]);
}

#[test]
fn block_source_lines_are_sorted_by_line_number() {
    let diff = diff_with(vec![
        row(Some(3), Some(0), "three", "r0"),
        row(Some(1), None, "one", ""),
        row(None, Some(1), "", "r1"),
        row(Some(2), Some(2), "two", "r2"),
        row(Some(9), Some(3), "nine", "r3"),
    ]);
    let lines = block_source_lines(&diff, DiffSide::Lhs, 1, 3);
    assert_eq!(
        lines,
        vec![(1, "one".to_owned()), (2, "two".to_owned()), (3, "three".to_owned())]
    );
    assert!(block_source_lines(&diff, DiffSide::Center, 0, 10).is_empty());
    let rhs = block_source_lines(&diff, DiffSide::Rhs, 0, 1);
    assert_eq!(rhs, vec![(0, "r0".to_owned()), (1, "r1".to_owned())]);
}

#[test]
fn place_line_cascades_until_blank_slot() {
    let mut lines = vec!["a".to_owned(), "b".to_owned(), " \t".to_owned(), "c".to_owned()];
    place_line_at(&mut lines, 0, "n".to_owned());
    assert_eq!(lines, vec!["n".to_owned(), "a".to_owned(), "b".to_owned(), "c".to_owned()]);
    place_line_at(&mut lines, 7, "end".to_owned());
    assert_eq!(lines.last().unwrap(), "end");
    assert_eq!(lines.len(), 5);
}

#[test]
fn ranges_clamp_to_file_end() {
    let lines = vec!["a".to_owned(), "b".to_owned(), "c".to_owned()];
    assert_eq!(file_lines_in_range(&lines, 1, 10), vec!["b".to_owned(), "c".to_owned()]);
    assert!(file_lines_in_range(&lines, 3, 4).is_empty());
    assert!(file_lines_in_range(&lines, 2, 1).is_empty());
    assert_eq!(file_c_block_lines(&lines, 0, 0), vec!["a".to_owned()]);
    let mut c = lines.clone();
    clear_block_in_file_c(&mut c, 1, 100);
    assert_eq!(c, vec!["a".to_owned(), String::new(), String::new()]);
    let mut p = vec!["x".to_owned()];
    prepare_insert_point(&mut p, 3);
    assert_eq!(p, vec!["x".to_owned(), String::new(), String::new()]);
}

#[test]
fn blank_lines_are_whitespace_only() {
    assert!(is_empty_line(""));
    assert!(is_empty_line(" \t\u{3000}"));
    assert!(!is_empty_line(" x "));
}

#[test]
fn apply_keeps_nonblank_lines_in_order() {
    let mut file_c = vec!["p".to_owned(), "q".to_owned(), String::new(), "r".to_owned()];
    let diff = diff_with(vec![row(Some(0), Some(0), "x", "x"), row(Some(1), Some(1), "y", "y")]);
    apply_block_to_file_c(&mut file_c, &diff, lhs_sel(0, 1), 0).unwrap();
    let nonblank: Vec<&String> = file_c.iter().filter(|l| !l.trim().is_empty()).collect();
    assert_eq!(nonblank, vec!["x", "y", "p", "q", "r"]);
    assert_eq!(&file_c[0..2], &["x".to_owned(), "y".to_owned()]);
}

#[test]
fn unusable_blocks_are_refused_at_any_target_row() {
    let mut file_c = vec!["a".to_owned(), "  ".to_owned()];
    let diff = diff_with(vec![row(None, Some(0), "", "x")]);
    assert_eq!(
        apply_block_to_file_c(&mut file_c, &diff, lhs_sel(0, 5), usize::MAX).unwrap_err(),
        "selected syntax block has no source lines."
    );
    assert_eq!(
        move_block_in_file_c(&mut file_c, 1, 1, usize::MAX).unwrap_err(),
        "selected syntax block is already empty."
    );
    assert_eq!(
        move_block_in_file_c(&mut file_c, 9, 9, usize::MAX).unwrap_err(),
        "selected syntax block has no lines."
    );
    assert_eq!(file_c, vec!["a".to_owned(), "  ".to_owned()]);
}
