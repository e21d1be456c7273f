//! What one row of the three panes shows: line numbers, selection marks, buttons, segments.

use vstd::prelude::*;
use crate::edit::{BlockSelection, DiffSide};
use crate::model::{AlignedLine, DiffFile, SyntaxBlock};
use crate::segments::{
    build_segments, built, expand_tabs, prepare_display_line, remap_ok, remapped, seg_view, segs_view,
    spans_view, Highlight, Segment, Side, TextSpan, build_ok, expanded_len_fits, segments_buildable,
    spans_remappable,
};
use crate::text::has_char;
use crate::text::{copy_string, views};

verus! {

/// The loaded diff together with file C.
pub struct ViewData {
    pub diff: DiffFile,
    pub file_c_lines: Vec<String>,
    pub file_c_syntax_blocks: Vec<SyntaxBlock>,
    pub triple_pane: bool,
}

/// Difft line numbers are 0-based file indices; display them 1-based, `-1` for none.
pub open spec fn spec_line_num(n: Option<u32>) -> i32 {
    match n {
        Some(k) => (k + 1) as i32,
        None => -1i32,
    }
}

pub fn line_num(n: Option<u32>) -> (r: i32)
    requires
        n matches Some(k) ==> k < u32::MAX,
    ensures
        r == spec_line_num(n),
{
    match n {
        Some(k) => (k + 1) as i32,
        None => -1,
    }
}

pub open spec fn in_selection(line: Option<u32>, sel: Option<BlockSelection>, side: DiffSide) -> bool {
    match (sel, line) {
        (Some(s), Some(ln)) => s.side == side && s.start_line <= ln && ln <= s.end_line,
        _ => false,
    }
}

pub fn line_in_selection(line: Option<u32>, sel: Option<BlockSelection>, side: DiffSide) -> (b: bool)
    ensures
        b == in_selection(line, sel, side),
{
    let Some(sel) = sel else {
        return false;
    };
    if sel.side != side {
        return false;
    }
    match line {
        Some(ln) => sel.start_line <= ln && ln <= sel.end_line,
        None => false,
    }
}

/// The row shows the selection's start line on `side` (where the Apply / Delete button goes).
pub open spec fn on_start_line(triple_pane: bool, sel: Option<BlockSelection>, side: DiffSide, line: Option<u32>) -> bool {
    triple_pane && match (sel, line) {
        (Some(s), Some(ln)) => s.side == side && ln == s.start_line,
        _ => false,
    }
}

/// `start_line.saturating_add(2)`: the row of the Move button.
pub open spec fn move_row(start: u32) -> u32 {
    if start as int + 2 <= u32::MAX { (start + 2) as u32 } else { u32::MAX }
}

pub open spec fn on_move_line(triple_pane: bool, sel: Option<BlockSelection>, line: Option<u32>) -> bool {
    triple_pane && match (sel, line) {
        (Some(s), Some(ln)) => s.side == DiffSide::Center && ln == move_row(s.start_line),
        _ => false,
    }
}

pub fn show_apply_on_line(triple_pane: bool, sel: Option<BlockSelection>, side: DiffSide, line: Option<u32>) -> (b: bool)
    ensures
        b == on_start_line(triple_pane, sel, side, line),
{
    triple_pane && match (sel, line) {
        (Some(s), Some(ln)) => s.side == side && ln == s.start_line,
        _ => false,
    }
}

pub fn show_center_delete(triple_pane: bool, sel: Option<BlockSelection>, line: Option<u32>) -> (b: bool)
    ensures
        b == on_start_line(triple_pane, sel, DiffSide::Center, line),
{
    show_apply_on_line(triple_pane, sel, DiffSide::Center, line)
}

pub fn show_center_move(triple_pane: bool, sel: Option<BlockSelection>, line: Option<u32>) -> (b: bool)
    ensures
        b == on_move_line(triple_pane, sel, line),
{
    triple_pane && match (sel, line) {
        (Some(s), Some(ln)) => s.side == DiffSide::Center && ln == s.start_line.saturating_add(2),
        _ => false,
    }
}

/// File C shares the row's A line number, else its B line number.
pub open spec fn center_index(row: AlignedLine) -> Option<u32> {
    match row.lhs_line {
        Some(n) => Some(n),
        None => row.rhs_line,
    }
}

pub open spec fn spec_center_line_for_row(rows: Seq<AlignedLine>, row: int) -> Option<u32> {
    if 0 <= row < rows.len() {
        center_index(rows[row])
    } else {
        None
    }
}

pub fn center_line_for_row(view: &ViewData, row: usize) -> (r: Option<u32>)
    ensures
        r == spec_center_line_for_row(view.diff.aligned_lines@, row as int),
{
    if row >= view.diff.aligned_lines.len() {
        return None;
    }
    let aligned = &view.diff.aligned_lines[row];
    match aligned.lhs_line {
        Some(n) => Some(n),
        None => aligned.rhs_line,
    }
}

pub open spec fn row_matches_action(rows: Seq<AlignedLine>, row: int, sel: BlockSelection, move_action: bool) -> bool {
    match spec_center_line_for_row(rows, row) {
        Some(line) => if move_action { line == move_row(sel.start_line) } else { line == sel.start_line },
        None => false,
    }
}

/// The clicked file C row is the row of the Delete (or Move) button of the selection.
pub fn center_row_matches_action(view: &ViewData, row: usize, sel: BlockSelection, move_action: bool) -> (b: bool)
    ensures
        b == row_matches_action(view.diff.aligned_lines@, row as int, sel, move_action),
{
    let Some(line) = center_line_for_row(view, row) else {
        return false;
    };
    if move_action {
        line == sel.start_line.saturating_add(2)
    } else {
        line == sel.start_line
    }
}

/// Line number and text of file C shown on a row.
pub open spec fn center_cell(row: AlignedLine, file_c: Seq<Seq<char>>) -> (i32, Seq<char>) {
    match center_index(row) {
        Some(i) => (spec_line_num(Some(i)), if i < file_c.len() { file_c[i as int] } else { Seq::empty() }),
        None => (-1i32, Seq::empty()),
    }
}

pub fn center_line_for_aligned(aligned: &AlignedLine, file_c_lines: &[String]) -> (r: (i32, String))
    requires
        center_index(*aligned) matches Some(i) ==> i < u32::MAX,
    ensures
        r.0 == center_cell(*aligned, views(file_c_lines@)).0,
        r.1@ == center_cell(*aligned, views(file_c_lines@)).1,
{
    let idx = match aligned.lhs_line {
        Some(n) => Some(n),
        None => aligned.rhs_line,
    };
    let Some(line_idx) = idx else {
        return (-1, String::new());
    };
    let text = if (line_idx as usize) < file_c_lines.len() {
        copy_string(&file_c_lines[line_idx as usize])
    } else {
        String::new()
    };
    (line_num(Some(line_idx)), text)
}

/// Syntax blocks of file A or B; file C's blocks live in the view.
pub fn blocks_for_side<'a>(file: &'a DiffFile, side: DiffSide) -> (r: &'a [SyntaxBlock])
    ensures
        side == DiffSide::Lhs ==> r@ == file.lhs_syntax_blocks@,
        side == DiffSide::Rhs ==> r@ == file.rhs_syntax_blocks@,
        side == DiffSide::Center ==> r@.len() == 0,
{
    match side {
        DiffSide::Lhs => file.lhs_syntax_blocks.as_slice(),
        DiffSide::Rhs => file.rhs_syntax_blocks.as_slice(),
        DiffSide::Center => &[],
    }
}

/// The text of one pane cell as displayed (tabs expanded when present).
pub open spec fn prepared_text(t: Seq<char>) -> Seq<char> {
    if t.contains('\t') { expand_tabs(t) } else { t }
}

pub open spec fn prepared_spans(t: Seq<char>, sv: Seq<(u32, u32, Seq<char>, Highlight, bool)>) -> Seq<(u32, u32, Seq<char>, Highlight, bool)> {
    if t.contains('\t') {
        sv.map_values(|sp: (u32, u32, Seq<char>, Highlight, bool)| remapped(t, sp))
    } else {
        sv
    }
}

/// A pane cell can be prepared and cut into segments without overflow or slicing inside a
/// character.
pub open spec fn cell_ok(t: Seq<char>, spans: Seq<TextSpan>) -> bool {
    &&& t.contains('\t') ==> expand_tabs(t).len() <= usize::MAX
    &&& t.contains('\t') ==> forall|i: int| 0 <= i < spans.len() ==> remap_ok(t, #[trigger] spans[i])
    &&& build_ok(prepared_text(t), prepared_spans(t, spans_view(spans)))
}

pub open spec fn row_ok(line: AlignedLine, view: ViewData) -> bool {
    &&& line.lhs_line matches Some(k) ==> k < u32::MAX
    &&& line.rhs_line matches Some(k) ==> k < u32::MAX
    &&& cell_ok(line.lhs_text@, line.lhs_spans@)
    &&& cell_ok(line.rhs_text@, line.rhs_spans@)
    &&& view.triple_pane ==> cell_ok(center_cell(line, views(view.file_c_lines@)).1, Seq::empty())
}

/// One displayed row of the viewer.
pub struct DisplayLine {
    pub lhs_novel: bool,
    pub rhs_novel: bool,
    pub lhs_line: i32,
    pub rhs_line: i32,
    pub center_line: i32,
    pub lhs_selected: bool,
    pub rhs_selected: bool,
    pub center_selected: bool,
    pub lhs_show_apply: bool,
    pub rhs_show_apply: bool,
    pub center_show_delete: bool,
    pub center_show_move: bool,
    pub lhs_plain_text: String,
    pub rhs_plain_text: String,
    pub center_plain_text: String,
    pub lhs_segments: Vec<Segment>,
    pub rhs_segments: Vec<Segment>,
    pub center_segments: Vec<Segment>,
}

/// The displayed row `d` of `line` in `view`, with selection `sel`.
pub open spec fn shows(d: DisplayLine, line: AlignedLine, view: ViewData, sel: Option<BlockSelection>, apply_pending: bool) -> bool {
    let center = if view.triple_pane { center_cell(line, views(view.file_c_lines@)) } else { (-1i32, Seq::<char>::empty()) };
    let c = center_index(line);
    &&& d.lhs_novel == line.is_novel_lhs
    &&& d.rhs_novel == line.is_novel_rhs
    &&& d.lhs_line == spec_line_num(line.lhs_line)
    &&& d.rhs_line == spec_line_num(line.rhs_line)
    &&& d.center_line == center.0
    &&& d.lhs_selected == in_selection(line.lhs_line, sel, DiffSide::Lhs)
    &&& d.rhs_selected == in_selection(line.rhs_line, sel, DiffSide::Rhs)
    &&& d.center_selected == (if apply_pending { center.0 >= 1 } else { in_selection(c, sel, DiffSide::Center) })
    &&& d.lhs_show_apply == on_start_line(view.triple_pane, sel, DiffSide::Lhs, line.lhs_line)
    &&& d.rhs_show_apply == on_start_line(view.triple_pane, sel, DiffSide::Rhs, line.rhs_line)
    &&& d.center_show_delete == on_start_line(view.triple_pane, sel, DiffSide::Center, c)
    &&& d.center_show_move == on_move_line(view.triple_pane, sel, c)
    &&& d.lhs_plain_text@ == prepared_text(line.lhs_text@)
    &&& d.rhs_plain_text@ == prepared_text(line.rhs_text@)
    &&& d.center_plain_text@ == prepared_text(center.1)
    &&& segs_view(d.lhs_segments@) == built(prepared_text(line.lhs_text@), prepared_spans(line.lhs_text@, spans_view(line.lhs_spans@)), line.is_novel_lhs, Side::Left)
    &&& segs_view(d.rhs_segments@) == built(prepared_text(line.rhs_text@), prepared_spans(line.rhs_text@, spans_view(line.rhs_spans@)), line.is_novel_rhs, Side::Right)
    &&& segs_view(d.center_segments@) == built(prepared_text(center.1), Seq::empty(), false, Side::Left)
}

fn display_cell(text: &String, spans: &[TextSpan], novel: bool, side: Side) -> (r: (String, Vec<Segment>))
    requires
        cell_ok(text@, spans@),
    ensures
        r.0@ == prepared_text(text@),
        segs_view(r.1@) == built(prepared_text(text@), prepared_spans(text@, spans_view(spans@)), novel, side),
{
    let (display, display_spans) = prepare_display_line(text.as_str(), spans);
    assert(spans_view(display_spans@) == prepared_spans(text@, spans_view(spans@)));
    let segments = build_segments(display.as_str(), display_spans.as_slice(), novel, side);
    (display, segments)
}

/// One row of the three panes.
pub fn display_line(line: &AlignedLine, view: &ViewData, sel: Option<BlockSelection>, apply_pending: bool) -> (d: DisplayLine)
    requires
        row_ok(*line, *view),
    ensures
        shows(d, *line, *view, sel, apply_pending),
{
    let (center_line, center_text_raw) = if view.triple_pane {
        center_line_for_aligned(line, view.file_c_lines.as_slice())
    } else {
        (-1i32, String::new())
    };
    let (lhs_text, lhs_segments) = display_cell(&line.lhs_text, line.lhs_spans.as_slice(), line.is_novel_lhs, Side::Left);
    let (rhs_text, rhs_segments) = display_cell(&line.rhs_text, line.rhs_spans.as_slice(), line.is_novel_rhs, Side::Right);
    let no_spans: Vec<TextSpan> = Vec::new();
    proof {
        assert(spans_view(no_spans@) =~= Seq::<(u32, u32, Seq<char>, Highlight, bool)>::empty());
        assert(no_spans@ =~= Seq::<TextSpan>::empty());
    }
    let (center_text, center_segments) = display_cell(&center_text_raw, no_spans.as_slice(), false, Side::Left);
    let c = match line.lhs_line {
        Some(n) => Some(n),
        None => line.rhs_line,
    };
    DisplayLine {
        lhs_novel: line.is_novel_lhs,
        rhs_novel: line.is_novel_rhs,
        lhs_line: line_num(line.lhs_line),
        rhs_line: line_num(line.rhs_line),
        center_line,
        lhs_selected: line_in_selection(line.lhs_line, sel, DiffSide::Lhs),
        rhs_selected: line_in_selection(line.rhs_line, sel, DiffSide::Rhs),
        center_selected: if apply_pending { center_line >= 1 } else { line_in_selection(c, sel, DiffSide::Center) },
        lhs_show_apply: show_apply_on_line(view.triple_pane, sel, DiffSide::Lhs, line.lhs_line),
        rhs_show_apply: show_apply_on_line(view.triple_pane, sel, DiffSide::Rhs, line.rhs_line),
        center_show_delete: show_center_delete(view.triple_pane, sel, c),
        center_show_move: show_center_move(view.triple_pane, sel, c),
        lhs_plain_text: lhs_text,
        rhs_plain_text: rhs_text,
        center_plain_text: center_text,
        lhs_segments,
        rhs_segments,
        center_segments,
    }
}

/// All rows of the view.
pub fn display_lines(view: &ViewData, sel: Option<BlockSelection>, apply_pending: bool) -> (r: Vec<DisplayLine>)
    requires
        forall|i: int| 0 <= i < view.diff.aligned_lines@.len() ==> row_ok(#[trigger] view.diff.aligned_lines@[i], *view),
    ensures
        r@.len() == view.diff.aligned_lines@.len(),
        forall|i: int| 0 <= i < r@.len() ==> shows(#[trigger] r@[i], view.diff.aligned_lines@[i], *view, sel, apply_pending),
{
    let mut r: Vec<DisplayLine> = Vec::new();
    let n = view.diff.aligned_lines.len();
    let mut i: usize = 0;
    while i < n
        invariant
            n == view.diff.aligned_lines@.len(),
            i <= n,
            r@.len() == i,
            forall|k: int| 0 <= k < view.diff.aligned_lines@.len() ==> row_ok(#[trigger] view.diff.aligned_lines@[k], *view),
            forall|k: int| 0 <= k < i ==> shows(#[trigger] r@[k], view.diff.aligned_lines@[k], *view, sel, apply_pending),
        decreases n - i,
    {
        r.push(display_line(&view.diff.aligned_lines[i], view, sel, apply_pending));
        i = i + 1;
    }
    r
}

/// Whether a pane cell can be displayed (`cell_ok`), checked.
pub fn cell_displayable(text: &str, spans: &[TextSpan]) -> (b: bool)
    ensures
        b == cell_ok(text@, spans@),
{
    if !has_char(text, '\t') {
        return segments_buildable(text, spans);
    }
    if !expanded_len_fits(text) {
        return false;
    }
    if !spans_remappable(text, spans) {
        return false;
    }
    let (display, display_spans) = prepare_display_line(text, spans);
    segments_buildable(display.as_str(), display_spans.as_slice())
}

/// Whether a row can be displayed (`row_ok`), checked.
pub fn row_displayable(line: &AlignedLine, view: &ViewData) -> (b: bool)
    ensures
        b == row_ok(*line, *view),
{
    let numbers_ok = match line.lhs_line {
        Some(k) => k < u32::MAX,
        None => true,
    } && match line.rhs_line {
        Some(k) => k < u32::MAX,
        None => true,
    };
    if !numbers_ok {
        return false;
    }
    if !cell_displayable(line.lhs_text.as_str(), line.lhs_spans.as_slice()) {
        return false;
    }
    if !cell_displayable(line.rhs_text.as_str(), line.rhs_spans.as_slice()) {
        return false;
    }
    if !view.triple_pane {
        return true;
    }
    let (_, center_text) = center_line_for_aligned(line, view.file_c_lines.as_slice());
    let no_spans: Vec<TextSpan> = Vec::new();
    assert(no_spans@ =~= Seq::<TextSpan>::empty());
    cell_displayable(center_text.as_str(), no_spans.as_slice())
}

/// Whether every row of the view can be displayed: the condition of `display_lines`.
pub fn view_displayable(view: &ViewData) -> (b: bool)
    ensures
        b == forall|i: int| 0 <= i < view.diff.aligned_lines@.len() ==> row_ok(#[trigger] view.diff.aligned_lines@[i], *view),
{
    let n = view.diff.aligned_lines.len();
    let mut i: usize = 0;
    while i < n
        invariant
            n == view.diff.aligned_lines@.len(),
            i <= n,
            forall|k: int| 0 <= k < i ==> row_ok(#[trigger] view.diff.aligned_lines@[k], *view),
        decreases n - i,
    {
        if !row_displayable(&view.diff.aligned_lines[i], view) {
            return false;
        }
        i = i + 1;
    }
    true
}

/// A row is marked selected on a pane only when the selection was made on that pane and the
/// row's line on that pane lies in the selected lines; and every such row is marked.
pub proof fn law_selection_marks_its_own_pane(line: Option<u32>, sel: Option<BlockSelection>, side: DiffSide)
    ensures
        in_selection(line, sel, side) ==> sel is Some && sel->0.side == side && line is Some
            && sel->0.start_line <= line->0 <= sel->0.end_line,
        (sel is Some && sel->0.side == side && line is Some && sel->0.start_line <= line->0 <= sel->0.end_line)
            ==> in_selection(line, sel, side),
{
}

/// On a displayed row, A and B are marked only for a selection made on A or B respectively,
/// and (outside insert mode) file C only for a selection made on file C.
pub proof fn law_displayed_marks_follow_the_selection_side(
    d: DisplayLine,
    line: AlignedLine,
    view: ViewData,
    sel: Option<BlockSelection>,
    apply_pending: bool,
)
    requires
        shows(d, line, view, sel, apply_pending),
    ensures
        d.lhs_selected ==> sel is Some && sel->0.side == DiffSide::Lhs && line.lhs_line is Some
            && sel->0.start_line <= line.lhs_line->0 <= sel->0.end_line,
        d.rhs_selected ==> sel is Some && sel->0.side == DiffSide::Rhs && line.rhs_line is Some
            && sel->0.start_line <= line.rhs_line->0 <= sel->0.end_line,
        !apply_pending && d.center_selected ==> sel is Some && sel->0.side == DiffSide::Center,
{
    law_selection_marks_its_own_pane(line.lhs_line, sel, DiffSide::Lhs);
    law_selection_marks_its_own_pane(line.rhs_line, sel, DiffSide::Rhs);
    law_selection_marks_its_own_pane(center_index(line), sel, DiffSide::Center);
}

} // verus!
