use difft_file_viewer::controller::{diff_info_text, EditKind, Step, ViewerState};
use difft_file_viewer::edit::{BlockSelection, DiffSide};
use difft_file_viewer::history::{ApplyHistory, MAX_APPLY_HISTORY};
use difft_file_viewer::model::{AlignedLine, DiffFile, DiffStatus, SyntaxBlock};
use difft_file_viewer::view::{display_lines, view_displayable, ViewData};

fn row(lhs: Option<u32>, rhs: Option<u32>, lt: &str, rt: &str) -> AlignedLine {
    AlignedLine {
        lhs_line: lhs,
        rhs_line: rhs,
        file_c_only_line: None,
        lhs_text: lt.to_string(),
        rhs_text: rt.to_string(),
        is_novel_lhs: false,
        is_novel_rhs: false,
        lhs_spans: vec![],
        rhs_spans: vec![],
    }
}

fn block(id: u32, start: u32, end: u32) -> SyntaxBlock {
    SyntaxBlock { id, parent_id: None, label: "(fn".to_string(), start_line: start, end_line: end }
}

fn sample_view(file_c: &[&str]) -> ViewData {
    let diff = DiffFile {
        path: "x.rs".to_string(),
        language: "Rust".to_string(),
        status: DiffStatus::Changed,
        extra_info: None,
        aligned_lines: vec![
            row(Some(0), Some(0), "a0", "b0"),
            row(Some(1), Some(1), "a1", "b1"),
            row(Some(2), Some(2), "a2", "b2"),
            row(Some(3), Some(3), "a3", "b3"),
        ],
        lhs_syntax_blocks: vec![block(1, 0, 0)],
        rhs_syntax_blocks: vec![block(2, 1, 2)],
    };
    ViewData {
        diff,
        file_c_lines: file_c.iter().map(|s| s.to_string()).collect(),
        file_c_syntax_blocks: vec![block(7, 0, 1)],
        triple_pane: true,
    }
}

fn loaded(file_c: &[&str]) -> ViewerState {
    let mut s = ViewerState::new(Some("c.txt".to_string()));
    let r = s.diff_loaded(sample_view(file_c), None);
    assert_eq!(r.set_apply_pending, Some(false));
    assert_eq!(r.redraw, Some((None, false)));
    s
}

fn file_c(s: &ViewerState) -> Vec<String> {
    s.view.as_ref().unwrap().file_c_lines.clone()
}

#[test]
fn gutter_click_toggles_block_selection() {
    let mut s = loaded(&["c0", "c1"]);
    let r = s.gutter_click(0, true);
    let sel = BlockSelection { side: DiffSide::Lhs, block_id: 1, start_line: 0, end_line: 0 };
    assert_eq!(s.selection, Some(sel));
    assert_eq!(r.redraw, Some((Some(sel), false)));
    s.gutter_click(0, true);
    assert_eq!(s.selection, None);
    s.gutter_click(2, false);
    assert_eq!(s.selection, Some(BlockSelection { side: DiffSide::Rhs, block_id: 2, start_line: 1, end_line: 2 }));
    s.gutter_click(-1, false);
    assert_eq!(s.selection, None);
}

#[test]
fn apply_then_undo_restores_file_c() {
    let mut s = loaded(&["c0", "c1"]);
    s.gutter_click(0, true);
    let r = s.apply_click(0, true);
    assert_eq!(r.set_apply_pending, Some(true));
    assert_eq!(
        r.info.as_deref(),
        Some("Click a line number in file C to insert the selection, or press Esc to cancel.")
    );
    let w = match s.center_gutter_click(1) {
        Step::Write(w, _) => w,
        Step::Done(_) => panic!("expected a write"),
    };
    assert_eq!(w.kind, EditKind::Apply);
    assert_eq!(w.lines, vec!["c0", "a0", "c1"]);
    assert_eq!(w.snapshot, vec!["c0", "c1"]);
    assert!(s.pending_apply.is_none());
    let r = s.finish_write(w, Ok(()), None);
    assert_eq!(r.info.as_deref(), Some("Applied to c.txt at line 2."));
    assert_eq!(r.set_apply_pending, Some(false));
    assert_eq!(file_c(&s), vec!["c0", "a0", "c1"]);
    assert!(s.history.file_c_modified());

    let w = match s.undo() {
        Step::Write(w, _) => w,
        Step::Done(_) => panic!("expected a write"),
    };
    assert_eq!(w.kind, EditKind::Undo);
    assert_eq!(w.lines, vec!["c0", "c1"]);
    let r = s.finish_write(w, Ok(()), None);
    assert_eq!(r.info.as_deref(), Some("Undid last Apply on c.txt."));
    assert_eq!(file_c(&s), vec!["c0", "c1"]);
    assert!(!s.history.file_c_modified());

    match s.undo() {
        Step::Done(r) => assert_eq!(r.info.as_deref(), Some("No Apply history to undo.")),
        Step::Write(..) => panic!("nothing to undo"),
    }
}

#[test]
fn failed_write_keeps_apply_pending_and_file_c() {
    let mut s = loaded(&["c0"]);
    s.gutter_click(0, true);
    s.apply_click(0, true);
    let w = match s.center_gutter_click(0) {
        Step::Write(w, _) => w,
        Step::Done(_) => panic!("expected a write"),
    };
    let sel = w.sel;
    let r = s.finish_write(w, Err("disk full".to_string()), None);
    assert_eq!(r.info.as_deref(), Some("disk full"));
    assert_eq!(s.pending_apply, Some(sel));
    assert_eq!(file_c(&s), vec!["c0"]);
    assert!(!s.history.file_c_modified());
}

#[test]
fn apply_click_off_the_start_row_is_ignored_and_esc_cancels() {
    let mut s = loaded(&["c0"]);
    s.gutter_click(0, true);
    let r = s.apply_click(1, true);
    assert!(r.info.is_none() && r.redraw.is_none() && r.set_apply_pending.is_none());
    assert!(s.pending_apply.is_none());
    let r = s.apply_cancel();
    assert!(r.info.is_none());
    s.apply_click(0, true);
    assert!(s.pending_apply.is_some());
    let r = s.apply_cancel();
    assert_eq!(r.info.as_deref(), Some("Cancelled."));
    assert_eq!(r.set_apply_pending, Some(false));
    assert!(s.pending_apply.is_none());
}

#[test]
fn delete_clears_the_selected_file_c_block() {
    let mut s = loaded(&["c0", "c1", "c2"]);
    s.center_block_select(0);
    let sel = BlockSelection { side: DiffSide::Center, block_id: 7, start_line: 0, end_line: 1 };
    assert_eq!(s.selection, Some(sel));
    let w = match s.center_delete_click(0) {
        Step::Write(w, _) => w,
        Step::Done(_) => panic!("expected a write"),
    };
    assert_eq!(w.lines, vec!["", "", "c2"]);
    let r = s.finish_write(w, Ok(()), None);
    assert_eq!(r.info.as_deref(), Some("Deleted block in c.txt (lines 1\u{2013}2)."));
    assert_eq!(s.selection, None);
    assert_eq!(file_c(&s), vec!["", "", "c2"]);
}

#[test]
fn delete_of_an_empty_block_is_refused() {
    let mut s = loaded(&["", " ", "c2"]);
    s.center_block_select(0);
    match s.center_delete_click(0) {
        Step::Done(r) => assert_eq!(r.info.as_deref(), Some("selected syntax block is already empty.")),
        Step::Write(..) => panic!("nothing to delete"),
    }
}

#[test]
fn move_reinserts_the_file_c_block_at_the_clicked_row() {
    let mut s = loaded(&["c0", "c1", "c2", "c3"]);
    s.center_block_select(1);
    let r = s.center_move_click(2);
    assert_eq!(
        r.info.as_deref(),
        Some("Click a line number in file C to move the block, or press Esc to cancel.")
    );
    let w = match s.center_gutter_click(3) {
        Step::Write(w, _) => w,
        Step::Done(_) => panic!("expected a write"),
    };
    assert_eq!(w.kind, EditKind::Move);
    assert_eq!(w.lines, vec!["", "", "c2", "c0", "c1", "c3"]);
    let r = s.finish_write(w, Ok(()), None);
    assert_eq!(r.info.as_deref(), Some("Moved block in c.txt to line 4."));
    assert_eq!(s.selection, None);
}

#[test]
fn edits_without_file_c_path_are_refused() {
    let mut s = ViewerState::new(None);
    s.diff_loaded(sample_view(&["c0"]), None);
    s.gutter_click(0, true);
    s.apply_click(0, true);
    match s.center_gutter_click(0) {
        Step::Done(r) => assert_eq!(r.info.as_deref(), Some("Apply requires a file-c path.")),
        Step::Write(..) => panic!("no path"),
    }
    assert!(s.pending_apply.is_some());
}

#[test]
fn quit_formats_only_after_an_edit() {
    let mut s = loaded(&["c0"]);
    let (r, format) = s.quit();
    assert!(!format);
    assert_eq!(r.set_apply_pending, Some(false));
    s.gutter_click(0, true);
    s.apply_click(0, true);
    if let Step::Write(w, _) = s.center_gutter_click(0) {
        s.finish_write(w, Ok(()), None);
    }
    let (_, format) = s.quit();
    assert!(format);
}

#[test]
fn diff_loaded_reports_fallback_and_note() {
    let mut s = ViewerState::new(None);
    let mut view = sample_view(&[]);
    view.diff.extra_info = Some("Exceeded DFT_PARSE_ERROR_LIMIT".to_string());
    let r = s.diff_loaded(view, Some("clang-format failed".to_string()));
    assert_eq!(r.info.as_deref(), Some("Exceeded DFT_PARSE_ERROR_LIMIT\nclang-format failed"));
    assert_eq!(diff_info_text(None, Some("n".to_string())), "n");
    assert_eq!(diff_info_text(Some("w".to_string()), Some("n".to_string())), "w\nn");
    assert_eq!(diff_info_text(None, None), "");
}

#[test]
fn history_keeps_only_the_most_recent_snapshots() {
    let mut h = ApplyHistory::new();
    for i in 0..(MAX_APPLY_HISTORY + 5) {
        h.push_snapshot(&[i.to_string()]);
    }
    let mut popped = 0;
    let mut last = None;
    while let Some(v) = h.pop_snapshot() {
        if last.is_none() {
            assert_eq!(v, vec![(MAX_APPLY_HISTORY + 4).to_string()]);
        }
        last = Some(v);
        popped += 1;
    }
    assert_eq!(popped, MAX_APPLY_HISTORY);
    assert_eq!(last.unwrap(), vec!["5".to_string()]);
}

#[test]
fn rows_show_numbers_selection_and_buttons() {
    let mut s = loaded(&["c0", "c1"]);
    s.gutter_click(2, false);
    let view = s.view.as_ref().unwrap();
    assert!(view_displayable(view));
    let rows = display_lines(view, s.selection, false);
    assert_eq!(rows.len(), 4);
    assert_eq!(rows[0].lhs_line, 1);
    assert_eq!(rows[0].center_line, 1);
    assert_eq!(rows[0].center_plain_text, "c0");
    assert_eq!(rows[2].center_plain_text, "");
    assert!(!rows[0].rhs_selected);
    assert!(rows[1].rhs_selected && rows[2].rhs_selected && !rows[3].rhs_selected);
    assert!(rows[1].rhs_show_apply && !rows[2].rhs_show_apply);
    assert_eq!(rows[1].rhs_plain_text, "b1");
    let pending = display_lines(view, s.selection, true);
    assert!(pending.iter().all(|r| r.center_selected));
}

#[test]
fn insert_room_is_checked_before_a_file_c_click() {
    let mut s = loaded(&["c0"]);
    assert!(s.has_edit_room(0));
    s.gutter_click(0, true);
    s.apply_click(0, true);
    assert!(s.has_edit_room(3));
    assert!(s.has_edit_room(-1));
}
