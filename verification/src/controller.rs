//! Decisions of the viewer on user input: block selection, Apply / Delete / Move / Undo on
//! file C, cancel and quit. Each handler updates the state and says what the window shows;
//! an edit of file C is returned as a write to perform, and `finish_write` completes it.

use vstd::prelude::*;
use crate::edit::{
    already_empty_error, apply_block_to_file_c, apply_error, block_edit_error, block_source, cleared,
    delete_block_from_file_c, lemma_block_source_len, move_block_in_file_c, no_lines_error, pad, place_all, range_lines,
    texts_of, BlockSelection, DiffSide,
};
use crate::history::{copy_lines, law_push_then_pop, pushed, ApplyHistory, MAX_APPLY_HISTORY};
use crate::model::{gutter_block_index, gutter_index, opt_view, spec_warning, warning_message, AlignedLine, SyntaxBlock};
use crate::text::{decimal, decimal_string, views};
use crate::view::{center_index, move_row, row_matches_action, center_row_matches_action, ViewData};

verus! {

/// What the window does after a handler: set the "apply pending" flag, redraw the rows with a
/// selection and pending flag, and show an info message.
pub struct Reply {
    pub set_apply_pending: Option<bool>,
    pub redraw: Option<(Option<BlockSelection>, bool)>,
    pub info: Option<String>,
}

#[derive(Debug, Clone, Copy, PartialEq, Eq, Structural)]
pub enum EditKind {
    Apply,
    Move,
    Delete,
    Undo,
}

/// File C as an edit leaves it, to be written to disk before the edit takes effect.
pub struct FileCWrite {
    pub kind: EditKind,
    pub sel: BlockSelection,
    pub lines: Vec<String>,
    pub snapshot: Vec<String>,
    pub at: u32,
}

/// Either the handler is done, or file C must be written (after showing the reply) and the
/// outcome handed to `finish_write`.
pub enum Step {
    Done(Reply),
    Write(FileCWrite, Reply),
}

pub open spec fn reply_of(r: Step) -> Reply {
    match r {
        Step::Done(rep) => rep,
        Step::Write(_, rep) => rep,
    }
}

pub open spec fn write_of(r: Step) -> FileCWrite {
    match r {
        Step::Write(w, _) => w,
        Step::Done(_) => arbitrary(),
    }
}

/// State of the viewer between user actions.
pub struct ViewerState {
    pub view: Option<ViewData>,
    pub selection: Option<BlockSelection>,
    pub pending_apply: Option<BlockSelection>,
    pub path_c: Option<String>,
    pub history: ApplyHistory,
}

pub open spec fn quiet(r: Reply) -> bool {
    r.set_apply_pending is None && r.redraw is None && r.info is None
}

pub open spec fn info_is(r: Reply, msg: Seq<char>) -> bool {
    match r.info {
        Some(i) => i@ == msg,
        None => false,
    }
}

pub open spec fn says(r: Reply, msg: Seq<char>) -> bool {
    r.set_apply_pending is None && r.redraw is None && info_is(r, msg)
}

fn quiet_reply() -> (r: Reply)
    ensures
        quiet(r),
{
    Reply { set_apply_pending: None, redraw: None, info: None }
}

fn info_reply(msg: String) -> (r: Reply)
    ensures
        says(r, msg@),
{
    Reply { set_apply_pending: None, redraw: None, info: Some(msg) }
}

pub open spec fn side_of(lhs_side: bool) -> DiffSide {
    if lhs_side { DiffSide::Lhs } else { DiffSide::Rhs }
}

/// Line number of a row on a side (file C uses the A line, else the B line).
pub open spec fn row_line(rows: Seq<AlignedLine>, row: int, side: DiffSide) -> Option<u32> {
    if 0 <= row < rows.len() {
        match side {
            DiffSide::Lhs => rows[row].lhs_line,
            DiffSide::Rhs => rows[row].rhs_line,
            DiffSide::Center => center_index(rows[row]),
        }
    } else {
        None
    }
}

pub open spec fn side_blocks(v: ViewData, side: DiffSide) -> Seq<SyntaxBlock> {
    match side {
        DiffSide::Lhs => v.diff.lhs_syntax_blocks@,
        DiffSide::Rhs => v.diff.rhs_syntax_blocks@,
        DiffSide::Center => v.file_c_syntax_blocks@,
    }
}

/// The block a gutter click on `row` of `side` selects, if any.
pub open spec fn clicked_block(v: ViewData, row: int, side: DiffSide) -> Option<SyntaxBlock> {
    match row_line(v.diff.aligned_lines@, row, side) {
        Some(line) => match gutter_index(side_blocks(v, side), line) {
            Some(i) => Some(side_blocks(v, side)[i]),
            None => None,
        },
        None => None,
    }
}

pub open spec fn selection_of(b: SyntaxBlock, side: DiffSide) -> BlockSelection {
    BlockSelection { side, block_id: b.id, start_line: b.start_line, end_line: b.end_line }
}

/// Clicking the selected block again clears the selection; otherwise the block is selected.
pub open spec fn toggled(prev: Option<BlockSelection>, side: DiffSide, b: SyntaxBlock) -> Option<BlockSelection> {
    if prev matches Some(p) && p.side == side && p.block_id == b.id {
        None
    } else {
        Some(selection_of(b, side))
    }
}

/// A gutter click on a block that is not the selected one selects exactly that block, and a
/// second click on it clears the selection again.
pub proof fn law_click_again_clears(prev: Option<BlockSelection>, side: DiffSide, b: SyntaxBlock)
    requires
        !(prev matches Some(p) && p.side == side && p.block_id == b.id),
    ensures
        toggled(prev, side, b) == Some(selection_of(b, side)),
        toggled(toggled(prev, side, b), side, b) is None,
{
}

pub open spec fn redraws(r: Reply, sel: Option<BlockSelection>) -> bool {
    r.set_apply_pending is None && r.redraw == Some((sel, false)) && r.info is None
}

pub open spec fn file_c(v: ViewData) -> Seq<Seq<char>> {
    views(v.file_c_lines@)
}

/// Fields other than the selection are unchanged.
pub open spec fn same_but_selection(a: ViewerState, b: ViewerState) -> bool {
    a.view == b.view && a.pending_apply == b.pending_apply && a.path_c == b.path_c && a.history@ == b.history@
}

pub open spec fn unchanged(a: ViewerState, b: ViewerState) -> bool {
    same_but_selection(a, b) && a.selection == b.selection
}

pub open spec fn click_instruction() -> Seq<char> {
    "Click a line number in file C to insert the selection, or press Esc to cancel."@
}

pub open spec fn move_instruction() -> Seq<char> {
    "Click a line number in file C to move the block, or press Esc to cancel."@
}

pub open spec fn choose_row_message() -> Seq<char> {
    "Choose a file C row with a line number."@
}

/// A click on file C row `row` while an Apply of `sel` (from A or B) was pending in `o`: the
/// block is inserted there (a write), or the Apply stays pending with a message.
pub open spec fn apply_insert_post(o: ViewerState, n: ViewerState, row: i32, sel: BlockSelection, r: Step) -> bool {
    &&& n.selection == o.selection
    &&& n.path_c == o.path_c
    &&& n.view == o.view
    &&& n.history@ == o.history@
    &&& match insert_case(o, row) {
        InsertCase::Ignore => n.pending_apply == Some(sel) && r is Done && quiet(reply_of(r)),
        InsertCase::NoLine => n.pending_apply == Some(sel) && r is Done && says(reply_of(r), choose_row_message()),
        InsertCase::NoPath => n.pending_apply == Some(sel) && r is Done
            && says(reply_of(r), "Apply requires a file-c path."@),
        InsertCase::At(at) => {
            let v = o.view->0;
            let block = texts_of(block_source(v.diff.aligned_lines@, sel.side, sel.start_line, sel.end_line));
            if block.len() == 0 {
                n.pending_apply == Some(sel) && r is Done && reply_of(r).set_apply_pending == Some(true)
                    && reply_of(r).redraw == Some((o.selection, true)) && info_is(reply_of(r), apply_error())
            } else {
                n.pending_apply is None && r is Write && quiet(reply_of(r)) && write_of(r).kind == EditKind::Apply
                    && write_of(r).sel == sel && write_of(r).at == at && views(write_of(r).snapshot@) == file_c(v)
                    && views(write_of(r).lines@) == place_all(pad(file_c(v), at as int), at as int, block)
            }
        },
    }
}

/// A click on file C row `row` while a Move of the file C block `sel` was pending in `o`: the
/// block is moved there (a write), or the Move stays pending with a message.
pub open spec fn move_insert_post(o: ViewerState, n: ViewerState, row: i32, sel: BlockSelection, r: Step) -> bool {
    &&& n.selection == o.selection
    &&& n.path_c == o.path_c
    &&& n.view == o.view
    &&& n.history@ == o.history@
    &&& match insert_case(o, row) {
        InsertCase::Ignore => n.pending_apply == Some(sel) && r is Done && quiet(reply_of(r)),
        InsertCase::NoLine => n.pending_apply == Some(sel) && r is Done && says(reply_of(r), choose_row_message()),
        InsertCase::NoPath => n.pending_apply == Some(sel) && r is Done
            && says(reply_of(r), "Move requires a file-c path."@),
        InsertCase::At(at) => {
            let v = o.view->0;
            match block_edit_error(file_c(v), sel.start_line as int, sel.end_line as int) {
                Some(msg) => n.pending_apply == Some(sel) && r is Done && reply_of(r).set_apply_pending == Some(true)
                    && reply_of(r).redraw == Some((o.selection, true)) && info_is(reply_of(r), msg),
                None => n.pending_apply is None && r is Write && quiet(reply_of(r)) && write_of(r).kind == EditKind::Move
                    && write_of(r).sel == sel && write_of(r).at == at && views(write_of(r).snapshot@) == file_c(v)
                    && views(write_of(r).lines@) == place_all(
                        pad(cleared(file_c(v), sel.start_line as int, sel.end_line as int), at as int),
                        at as int,
                        range_lines(file_c(v), sel.start_line as int, sel.end_line as int),
                    ),
            }
        },
    }
}

/// A click on file C row `row` with nothing pending in `o`: selects (or unselects) the file C
/// block there; a negative row clears the selection.
pub open spec fn block_select_post(o: ViewerState, n: ViewerState, row: i32, r: Reply) -> bool {
    &&& same_but_selection(n, o)
    &&& row < 0 ==> n.selection is None
        && r.redraw == (if o.view is Some { Some((None::<BlockSelection>, false)) } else { None })
        && r.info is None && r.set_apply_pending is None
    &&& row >= 0 ==> match o.view {
        Some(v) => if v.triple_pane {
            match clicked_block(v, row as int, DiffSide::Center) {
                Some(b) => n.selection == toggled(o.selection, DiffSide::Center, b) && redraws(r, n.selection),
                None => n.selection == o.selection && quiet(r),
            }
        } else {
            n.selection == o.selection && quiet(r)
        },
        None => n.selection == o.selection && quiet(r),
    }
}

/// What `undo` does: cancel anything pending and write back the snapshot recorded last.
pub open spec fn undo_post(o: ViewerState, n: ViewerState, r: Step) -> bool {
    &&& n.pending_apply is None
    &&& n.view == o.view
    &&& n.selection == o.selection
    &&& n.path_c == o.path_c
    &&& match o.view {
        Some(v) if v.triple_pane => if o.history@.len() == 0 {
            n.history@ == o.history@ && r is Done && reply_of(r).set_apply_pending == Some(false)
                && reply_of(r).redraw is None && info_is(reply_of(r), "No Apply history to undo."@)
        } else {
            n.history@ == o.history@.drop_last() && if o.path_c is None {
                r is Done && reply_of(r).set_apply_pending == Some(false) && reply_of(r).redraw is None
                    && info_is(reply_of(r), "Undo requires a file-c path."@)
            } else {
                r is Write && reply_of(r).set_apply_pending == Some(false) && reply_of(r).redraw is None
                    && reply_of(r).info is None && write_of(r).kind == EditKind::Undo
                    && views(write_of(r).lines@) == o.history@.last()
            }
        },
        _ => n.history@ == o.history@ && r is Done && reply_of(r).set_apply_pending == Some(false)
            && reply_of(r).redraw is None && reply_of(r).info is None,
    }
}

/// What `finish_write` does with the outcome `written` of writing `w`: on success the edit
/// takes effect (recorded for undo unless it is an undo), on failure the state stays as it was.
pub open spec fn finish_write_post(
    o: ViewerState,
    n: ViewerState,
    w: FileCWrite,
    written: Result<(), String>,
    blocks: Option<Vec<SyntaxBlock>>,
    r: Reply,
) -> bool {
    &&& n.path_c == o.path_c
    &&& match written {
        Err(e) => {
            &&& n.view == o.view
            &&& n.selection == o.selection
            &&& n.history@ == o.history@
            &&& says(r, e@)
            &&& n.pending_apply == (if w.kind == EditKind::Apply || w.kind == EditKind::Move {
                Some(w.sel)
            } else {
                o.pending_apply
            })
        },
        Ok(_) => {
            let v = o.view->0;
            &&& n.view is Some
            &&& n.view->0.diff == v.diff
            &&& n.view->0.triple_pane == v.triple_pane
            &&& n.view->0.file_c_lines == w.lines
            &&& n.view->0.file_c_syntax_blocks == (match blocks {
                Some(b) => b,
                None => v.file_c_syntax_blocks,
            })
            &&& n.pending_apply == o.pending_apply
            &&& n.history@ == (if w.kind == EditKind::Undo {
                o.history@
            } else {
                pushed(o.history@, views(w.snapshot@))
            })
            &&& n.selection == (if w.kind == EditKind::Move || w.kind == EditKind::Delete {
                None
            } else {
                o.selection
            })
            &&& r.redraw == Some((n.selection, false))
            &&& r.set_apply_pending == (if w.kind == EditKind::Apply || w.kind == EditKind::Move {
                Some(false)
            } else {
                None
            })
            &&& info_is(r, done_message(w.kind, o.path_c->0@, w.at as int, w.sel))
        },
    }
}

/// Undo takes back an edit: after an edit of file C was written and completed, `undo` writes
/// file C back exactly as it was before that edit.
pub proof fn law_undo_restores_edit(
    s0: ViewerState,
    s1: ViewerState,
    w: FileCWrite,
    blocks: Option<Vec<SyntaxBlock>>,
    r1: Reply,
    s2: ViewerState,
    r2: Step,
)
    requires
        s0.view matches Some(v) && v.triple_pane,
        s0.path_c is Some,
        s0.history@.len() <= MAX_APPLY_HISTORY,
        w.kind != EditKind::Undo,
        views(w.snapshot@) == file_c(s0.view->0),
        finish_write_post(s0, s1, w, Ok(()), blocks, r1),
        undo_post(s1, s2, r2),
    ensures
        r2 is Write,
        write_of(r2).kind == EditKind::Undo,
        views(write_of(r2).lines@) == file_c(s0.view->0),
{
    law_push_then_pop(s0.history@, views(w.snapshot@));
}

/// An Apply click on `row` starts waiting for the target row: nothing is pending, the selection
/// is on the clicked side, the view has file C, and the row shows the selection's first line.
pub open spec fn apply_click_starts(o: ViewerState, row: i32, lhs_side: bool) -> bool {
    o.pending_apply is None && row >= 0 && match (o.selection, o.view) {
        (Some(sel), Some(v)) => sel.side == side_of(lhs_side) && v.triple_pane
            && row_line(v.diff.aligned_lines@, row as int, side_of(lhs_side)) == Some(sel.start_line),
        _ => false,
    }
}

/// The room an insert at the clicked file C row needs: padding file C up to the target line
/// and placing a block of A/B or of file C from there stay within `usize`.
pub open spec fn edit_room(o: ViewerState, row: i32) -> bool {
    match insert_case(o, row) {
        InsertCase::At(at) => at + o.view->0.diff.aligned_lines@.len() <= usize::MAX
            && at + o.view->0.file_c_lines@.len() <= usize::MAX,
        _ => true,
    }
}

fn row_line_exec(view: &ViewData, row: usize, side: DiffSide) -> (r: Option<u32>)
    ensures
        r == row_line(view.diff.aligned_lines@, row as int, side),
{
    if row >= view.diff.aligned_lines.len() {
        return None;
    }
    let aligned = &view.diff.aligned_lines[row];
    match side {
        DiffSide::Lhs => aligned.lhs_line,
        DiffSide::Rhs => aligned.rhs_line,
        DiffSide::Center => match aligned.lhs_line {
            Some(n) => Some(n),
            None => aligned.rhs_line,
        },
    }
}

/// The block a click selects: `(id, start, end)`.
fn clicked_block_exec(view: &ViewData, row: usize, side: DiffSide) -> (r: Option<(u32, u32, u32)>)
    ensures
        match clicked_block(*view, row as int, side) {
            Some(b) => r == Some((b.id, b.start_line, b.end_line)),
            None => r is None,
        },
{
    let Some(line) = row_line_exec(view, row, side) else {
        return None;
    };
    let blocks = match side {
        DiffSide::Lhs => view.diff.lhs_syntax_blocks.as_slice(),
        DiffSide::Rhs => view.diff.rhs_syntax_blocks.as_slice(),
        DiffSide::Center => view.file_c_syntax_blocks.as_slice(),
    };
    assert(blocks@ == side_blocks(*view, side));
    match gutter_block_index(blocks, line) {
        Some(i) => Some((blocks[i].id, blocks[i].start_line, blocks[i].end_line)),
        None => None,
    }
}

fn refresh_reply(view_present: bool, sel: Option<BlockSelection>, pending: bool) -> (r: Reply)
    ensures
        r.set_apply_pending == Some(pending),
        r.redraw == (if view_present { Some((sel, pending)) } else { None }),
        r.info is None,
{
    Reply {
        set_apply_pending: Some(pending),
        redraw: if view_present { Some((sel, pending)) } else { None },
        info: None,
    }
}

impl ViewerState {
    pub fn new(path_c: Option<String>) -> (s: Self)
        ensures
            s.view is None,
            s.selection is None,
            s.pending_apply is None,
            s.path_c == path_c,
            s.history@.len() == 0,
    {
        ViewerState { view: None, selection: None, pending_apply: None, path_c, history: ApplyHistory::new() }
    }

    /// Toggle a selection: clicking the selected block again clears it.
    fn toggle_selection(&mut self, side: DiffSide, id: u32, start: u32, end: u32) -> (r: Reply)
        ensures
            same_but_selection(*final(self), *old(self)),
            final(self).selection == (if old(self).selection matches Some(p) && p.side == side && p.block_id == id {
                None
            } else {
                Some(BlockSelection { side, block_id: id, start_line: start, end_line: end })
            }),
            redraws(r, final(self).selection),
    {
        let same = match self.selection {
            Some(prev) => prev.side == side && prev.block_id == id,
            None => false,
        };
        if same {
            self.selection = None;
            Reply { set_apply_pending: None, redraw: Some((None, false)), info: None }
        } else {
            let new_sel = BlockSelection { side, block_id: id, start_line: start, end_line: end };
            self.selection = Some(new_sel);
            Reply { set_apply_pending: None, redraw: Some((Some(new_sel), false)), info: None }
        }
    }

    /// A click on the line-number gutter of A (`lhs_side`) or B.
    pub fn gutter_click(&mut self, row: i32, lhs_side: bool) -> (r: Reply)
        ensures
            same_but_selection(*final(self), *old(self)),
            old(self).pending_apply is Some ==> final(self).selection == old(self).selection && quiet(r),
            old(self).pending_apply is None && row < 0 ==> final(self).selection is None
                && r.redraw == (if old(self).view is Some { Some((None::<BlockSelection>, false)) } else { None })
                && r.info is None && r.set_apply_pending is None,
            old(self).pending_apply is None && row >= 0 ==> match old(self).view {
                Some(v) => match clicked_block(v, row as int, side_of(lhs_side)) {
                    Some(b) => final(self).selection == toggled(old(self).selection, side_of(lhs_side), b)
                        && redraws(r, final(self).selection),
                    None => final(self).selection == old(self).selection && quiet(r),
                },
                None => final(self).selection == old(self).selection && quiet(r),
            },
    {
        if self.pending_apply.is_some() {
            return quiet_reply();
        }
        if row < 0 {
            self.selection = None;
            return Reply {
                set_apply_pending: None,
                redraw: if self.view.is_some() { Some((None, false)) } else { None },
                info: None,
            };
        }
        let side = if lhs_side { DiffSide::Lhs } else { DiffSide::Rhs };
        let found = match &self.view {
            Some(view) => clicked_block_exec(view, row as usize, side),
            None => None,
        };
        match found {
            Some((id, start, end)) => self.toggle_selection(side, id, start, end),
            None => quiet_reply(),
        }
    }

    /// A click on the Apply button of A (`lhs_side`) or B: wait for the target row in file C.
    pub fn apply_click(&mut self, row: i32, lhs_side: bool) -> (r: Reply)
        ensures
            apply_click_starts(*old(self), row, lhs_side) ==> final(self).pending_apply == old(self).selection
                && final(self).view == old(self).view && final(self).selection == old(self).selection
                && final(self).path_c == old(self).path_c && final(self).history@ == old(self).history@
                && r.set_apply_pending == Some(true) && r.redraw == Some((old(self).selection, true))
                && info_is(r, click_instruction()),
            !apply_click_starts(*old(self), row, lhs_side) ==> unchanged(*final(self), *old(self)) && quiet(r),
    {
        if self.pending_apply.is_some() || row < 0 {
            return quiet_reply();
        }
        let Some(sel) = self.selection else {
            return quiet_reply();
        };
        let side = if lhs_side { DiffSide::Lhs } else { DiffSide::Rhs };
        if sel.side != side {
            return quiet_reply();
        }
        let start = match &self.view {
            Some(view) => if view.triple_pane { row_line_exec(view, row as usize, side) } else { None },
            None => None,
        };
        if start != Some(sel.start_line) {
            return quiet_reply();
        }
        self.pending_apply = Some(sel);
        proof {
            reveal_strlit("Click a line number in file C to insert the selection, or press Esc to cancel.");
        }
        Reply {
            set_apply_pending: Some(true),
            redraw: Some((self.selection, true)),
            info: Some("Click a line number in file C to insert the selection, or press Esc to cancel.".to_owned()),
        }
    }

    /// A click on a file C row while an Apply from A/B is pending: insert the block there.
    fn center_apply_insert(&mut self, row: i32, sel: BlockSelection) -> (r: Step)
        requires
            edit_room(*old(self), row),
            old(self).pending_apply is None,
        ensures
            apply_insert_post(*old(self), *final(self), row, sel, r),
    {
        let case = self.classify_insert(row);
        match case {
            ExecInsertCase::Ignore => {
                self.pending_apply = Some(sel);
                Step::Done(quiet_reply())
            },
            ExecInsertCase::NoLine => {
                self.pending_apply = Some(sel);
                Step::Done(info_reply("Choose a file C row with a line number.".to_owned()))
            },
            ExecInsertCase::NoPath => {
                self.pending_apply = Some(sel);
                Step::Done(info_reply("Apply requires a file-c path.".to_owned()))
            },
            ExecInsertCase::At(at) => {
                let result = match &self.view {
                    Some(view) => {
                        let mut lines = copy_lines(view.file_c_lines.as_slice());
                        let snapshot = copy_lines(view.file_c_lines.as_slice());
                        proof {
                            lemma_block_source_len(view.diff.aligned_lines@, sel.side, sel.start_line, sel.end_line);
                        }
                        match apply_block_to_file_c(&mut lines, &view.diff, sel, at as usize) {
                            Ok(()) => Ok((lines, snapshot)),
                            Err(e) => Err(e),
                        }
                    },
                    None => Err(String::new()),
                };
                match result {
                    Ok((lines, snapshot)) => Step::Write(
                        FileCWrite { kind: EditKind::Apply, sel, lines, snapshot, at },
                        quiet_reply(),
                    ),
                    Err(e) => {
                        self.pending_apply = Some(sel);
                        Step::Done(Reply { set_apply_pending: Some(true), redraw: Some((self.selection, true)), info: Some(e) })
                    },
                }
            },
        }
    }

    fn classify_insert(&self, row: i32) -> (c: ExecInsertCase)
        ensures
            c.view() == insert_case(*self, row),
    {
        if row < 0 {
            return ExecInsertCase::Ignore;
        }
        let line = match &self.view {
            Some(view) => {
                if !view.triple_pane || row as usize >= view.diff.aligned_lines.len() {
                    return ExecInsertCase::Ignore;
                }
                row_line_exec(view, row as usize, DiffSide::Center)
            },
            None => {
                return ExecInsertCase::Ignore;
            },
        };
        match line {
            None => ExecInsertCase::NoLine,
            Some(at) => if self.path_c.is_none() {
                ExecInsertCase::NoPath
            } else {
                ExecInsertCase::At(at)
            },
        }
    }

    /// A click on a file C row while a Move is pending: move the block there.
    fn center_move_insert(&mut self, row: i32, sel: BlockSelection) -> (r: Step)
        requires
            edit_room(*old(self), row),
            old(self).pending_apply is None,
        ensures
            move_insert_post(*old(self), *final(self), row, sel, r),
    {
        let case = self.classify_insert(row);
        match case {
            ExecInsertCase::Ignore => {
                self.pending_apply = Some(sel);
                Step::Done(quiet_reply())
            },
            ExecInsertCase::NoLine => {
                self.pending_apply = Some(sel);
                Step::Done(info_reply("Choose a file C row with a line number.".to_owned()))
            },
            ExecInsertCase::NoPath => {
                self.pending_apply = Some(sel);
                Step::Done(info_reply("Move requires a file-c path.".to_owned()))
            },
            ExecInsertCase::At(at) => {
                let result = match &self.view {
                    Some(view) => {
                        let mut lines = copy_lines(view.file_c_lines.as_slice());
                        let snapshot = copy_lines(view.file_c_lines.as_slice());
                        match move_block_in_file_c(&mut lines, sel.start_line, sel.end_line, at as usize) {
                            Ok(()) => Ok((lines, snapshot)),
                            Err(e) => Err(e),
                        }
                    },
                    None => Err(String::new()),
                };
                match result {
                    Ok((lines, snapshot)) => Step::Write(
                        FileCWrite { kind: EditKind::Move, sel, lines, snapshot, at },
                        quiet_reply(),
                    ),
                    Err(e) => {
                        self.pending_apply = Some(sel);
                        Step::Done(Reply { set_apply_pending: Some(true), redraw: Some((self.selection, true)), info: Some(e) })
                    },
                }
            },
        }
    }

    /// A click on a file C gutter with nothing pending: select the block of file C there.
    pub fn center_block_select(&mut self, row: i32) -> (r: Reply)
        ensures
            block_select_post(*old(self), *final(self), row, r),
    {
        if row < 0 {
            self.selection = None;
            return Reply {
                set_apply_pending: None,
                redraw: if self.view.is_some() { Some((None, false)) } else { None },
                info: None,
            };
        }
        let found = match &self.view {
            Some(view) => if view.triple_pane { clicked_block_exec(view, row as usize, DiffSide::Center) } else { None },
            None => None,
        };
        match found {
            Some((id, start, end)) => self.toggle_selection(DiffSide::Center, id, start, end),
            None => quiet_reply(),
        }
    }

    /// Whether an insert at `row` has the room it needs (`edit_room`), checked.
    pub fn has_edit_room(&self, row: i32) -> (b: bool)
        ensures
            b == edit_room(*self, row),
    {
        match self.classify_insert(row) {
            ExecInsertCase::At(at) => match &self.view {
                Some(view) => (at as usize) <= usize::MAX - view.diff.aligned_lines.len()
                    && (at as usize) <= usize::MAX - view.file_c_lines.len(),
                None => true,
            },
            _ => true,
        }
    }

    /// A click on a file C gutter: completes a pending Apply or Move, else selects a block.
    pub fn center_gutter_click(&mut self, row: i32) -> (r: Step)
        requires
            old(self).pending_apply is Some ==> edit_room(*old(self), row),
        ensures
            match old(self).pending_apply {
                Some(sel) => if sel.side == DiffSide::Center {
                    move_insert_post(*old(self), *final(self), row, sel, r)
                } else {
                    apply_insert_post(*old(self), *final(self), row, sel, r)
                },
                None => r is Done && block_select_post(*old(self), *final(self), row, reply_of(r)),
            },
    {
        match self.pending_apply.take() {
            Some(sel) => {
                if sel.side == DiffSide::Center {
                    self.center_move_insert(row, sel)
                } else {
                    self.center_apply_insert(row, sel)
                }
            },
            None => Step::Done(self.center_block_select(row)),
        }
    }

    /// A click on the Delete button of the selected file C block.
    pub fn center_delete_click(&mut self, row: i32) -> (r: Step)
        ensures
            unchanged(*final(self), *old(self)),
            match delete_case(*old(self), row) {
                DeleteCase::Ignore => r is Done && quiet(reply_of(r)),
                DeleteCase::NoPath => r is Done && says(reply_of(r), "Delete requires a file-c path."@),
                DeleteCase::Go(sel) => {
                    let v = old(self).view->0;
                    match block_edit_error(file_c(v), sel.start_line as int, sel.end_line as int) {
                        Some(msg) => r is Done && says(reply_of(r), msg),
                        None => r is Write && quiet(reply_of(r)) && write_of(r).kind == EditKind::Delete
                            && write_of(r).sel == sel && views(write_of(r).snapshot@) == file_c(v)
                            && views(write_of(r).lines@) == cleared(file_c(v), sel.start_line as int, sel.end_line as int),
                    }
                },
            },
    {
        if row < 0 {
            return Step::Done(quiet_reply());
        }
        let Some(sel) = self.selection else {
            return Step::Done(quiet_reply());
        };
        if sel.side != DiffSide::Center {
            return Step::Done(quiet_reply());
        }
        let ok = match &self.view {
            Some(view) => view.triple_pane && center_row_matches_action(view, row as usize, sel, false),
            None => false,
        };
        if !ok {
            return Step::Done(quiet_reply());
        }
        if self.path_c.is_none() {
            return Step::Done(info_reply("Delete requires a file-c path.".to_owned()));
        }
        match &self.view {
            Some(view) => {
                let mut lines = copy_lines(view.file_c_lines.as_slice());
                let snapshot = copy_lines(view.file_c_lines.as_slice());
                match delete_block_from_file_c(&mut lines, sel.start_line, sel.end_line) {
                    Ok(()) => Step::Write(FileCWrite { kind: EditKind::Delete, sel, lines, snapshot, at: 0 }, quiet_reply()),
                    Err(e) => Step::Done(info_reply(e)),
                }
            },
            None => Step::Done(quiet_reply()),
        }
    }

    /// A click on the Move button of the selected file C block: wait for the target row.
    pub fn center_move_click(&mut self, row: i32) -> (r: Reply)
        ensures
            move_click_starts(*old(self), row) ==> final(self).pending_apply == old(self).selection
                && final(self).view == old(self).view && final(self).selection == old(self).selection
                && final(self).path_c == old(self).path_c && final(self).history@ == old(self).history@
                && r.set_apply_pending == Some(true) && r.redraw == Some((old(self).selection, true))
                && info_is(r, move_instruction()),
            !move_click_starts(*old(self), row) ==> unchanged(*final(self), *old(self)) && quiet(r),
    {
        if self.pending_apply.is_some() || row < 0 {
            return quiet_reply();
        }
        let Some(sel) = self.selection else {
            return quiet_reply();
        };
        if sel.side != DiffSide::Center {
            return quiet_reply();
        }
        let ok = match &self.view {
            Some(view) => view.triple_pane && center_row_matches_action(view, row as usize, sel, true),
            None => false,
        };
        if !ok {
            return quiet_reply();
        }
        self.pending_apply = Some(sel);
        Reply {
            set_apply_pending: Some(true),
            redraw: Some((self.selection, true)),
            info: Some("Click a line number in file C to move the block, or press Esc to cancel.".to_owned()),
        }
    }

    /// Esc: cancel a pending Apply or Move.
    pub fn apply_cancel(&mut self) -> (r: Reply)
        ensures
            final(self).pending_apply is None,
            final(self).view == old(self).view,
            final(self).selection == old(self).selection,
            final(self).path_c == old(self).path_c,
            final(self).history@ == old(self).history@,
            old(self).pending_apply is None ==> quiet(r),
            old(self).pending_apply is Some ==> r.set_apply_pending == Some(false)
                && r.redraw == (if old(self).view is Some { Some((old(self).selection, false)) } else { None })
                && info_is(r, "Cancelled."@),
    {
        if self.pending_apply.take().is_none() {
            return quiet_reply();
        }
        let rep = refresh_reply(self.view.is_some(), self.selection, false);
        Reply { set_apply_pending: rep.set_apply_pending, redraw: rep.redraw, info: Some("Cancelled.".to_owned()) }
    }

    /// `u` / Ctrl+Z: restore file C as it was before the last edit.
    pub fn undo(&mut self) -> (r: Step)
        ensures
            undo_post(*old(self), *final(self), r),
    {
        self.pending_apply = None;
        let triple = match &self.view {
            Some(view) => view.triple_pane,
            None => false,
        };
        if !triple {
            return Step::Done(Reply { set_apply_pending: Some(false), redraw: None, info: None });
        }
        let Some(snapshot) = self.history.pop_snapshot() else {
            return Step::Done(Reply {
                set_apply_pending: Some(false),
                redraw: None,
                info: Some("No Apply history to undo.".to_owned()),
            });
        };
        if self.path_c.is_none() {
            return Step::Done(Reply {
                set_apply_pending: Some(false),
                redraw: None,
                info: Some("Undo requires a file-c path.".to_owned()),
            });
        }
        let sel = BlockSelection { side: DiffSide::Center, block_id: 0, start_line: 0, end_line: 0 };
        Step::Write(
            FileCWrite { kind: EditKind::Undo, sel, lines: snapshot, snapshot: Vec::new(), at: 0 },
            Reply { set_apply_pending: Some(false), redraw: None, info: None },
        )
    }

    /// `q`: cancel anything pending; returns whether file C was edited and should be formatted.
    pub fn quit(&mut self) -> (r: (Reply, bool))
        ensures
            final(self).pending_apply is None,
            final(self).view == old(self).view,
            final(self).selection == old(self).selection,
            final(self).path_c == old(self).path_c,
            final(self).history@ == old(self).history@,
            r.0.set_apply_pending == Some(false) && r.0.redraw is None && r.0.info is None,
            r.1 == (old(self).history@.len() > 0 && old(self).path_c is Some && match old(self).view {
                Some(v) => v.triple_pane,
                None => false,
            }),
    {
        self.pending_apply = None;
        let format = self.history.file_c_modified() && self.path_c.is_some() && match &self.view {
            Some(view) => view.triple_pane,
            None => false,
        };
        (Reply { set_apply_pending: Some(false), redraw: None, info: None }, format)
    }
}

impl ViewerState {
    /// Complete a file C edit after the write: on success the edit takes effect (and is recorded
    /// for undo unless it is an undo), on failure the state stays as it was.
    pub fn finish_write(&mut self, w: FileCWrite, written: Result<(), String>, blocks: Option<Vec<SyntaxBlock>>) -> (r: Reply)
        requires
            old(self).view is Some,
            old(self).path_c is Some,
        ensures
            finish_write_post(*old(self), *final(self), w, written, blocks, r),
    {
        match written {
            Err(e) => {
                if w.kind == EditKind::Apply || w.kind == EditKind::Move {
                    self.pending_apply = Some(w.sel);
                }
                info_reply(e)
            },
            Ok(()) => {
                let path = match &self.path_c {
                    Some(p) => p.as_str().to_owned(),
                    None => String::new(),
                };
                let kind = w.kind;
                let at = w.at;
                let sel = w.sel;
                if kind != EditKind::Undo {
                    self.history.push_snapshot(w.snapshot.as_slice());
                }
                let mut view = self.view.take().unwrap();
                view.file_c_lines = w.lines;
                if let Some(b) = blocks {
                    view.file_c_syntax_blocks = b;
                }
                self.view = Some(view);
                if kind == EditKind::Move || kind == EditKind::Delete {
                    self.selection = None;
                }
                let info = done_message_exec(kind, path.as_str(), at, sel);
                Reply {
                    set_apply_pending: if kind == EditKind::Apply || kind == EditKind::Move { Some(false) } else { None },
                    redraw: Some((self.selection, false)),
                    info: Some(info),
                }
            },
        }
    }

    /// A diff finished loading: show it from the top with nothing selected and no undo history.
    pub fn diff_loaded(&mut self, view: ViewData, preprocess_note: Option<String>) -> (r: Reply)
        ensures
            final(self).view == Some(view),
            final(self).selection is None,
            final(self).pending_apply is None,
            final(self).path_c == old(self).path_c,
            final(self).history@.len() == 0,
            r.set_apply_pending == Some(false),
            r.redraw == Some((None::<BlockSelection>, false)),
            info_is(r, loaded_info(spec_warning(opt_view(view.diff.extra_info), view.diff.language@), opt_view(preprocess_note))),
    {
        let warning = warning_message(&view.diff);
        let info = diff_info_text(warning, preprocess_note);
        self.selection = None;
        self.pending_apply = None;
        self.history.clear();
        self.view = Some(view);
        Reply { set_apply_pending: Some(false), redraw: Some((None, false)), info: Some(info) }
    }
}

/// Message after a successful file C edit.
pub open spec fn done_message(kind: EditKind, path: Seq<char>, at: int, sel: BlockSelection) -> Seq<char> {
    match kind {
        EditKind::Apply => "Applied to "@ + path + " at line "@ + decimal((at + 1) as nat) + "."@,
        EditKind::Move => "Moved block in "@ + path + " to line "@ + decimal((at + 1) as nat) + "."@,
        EditKind::Delete => "Deleted block in "@ + path + " (lines "@ + decimal((sel.start_line + 1) as nat) + "\u{2013}"@
            + decimal((sel.end_line + 1) as nat) + ")."@,
        EditKind::Undo => "Undid last Apply on "@ + path + "."@,
    }
}

fn done_message_exec(kind: EditKind, path: &str, at: u32, sel: BlockSelection) -> (m: String)
    ensures
        m@ == done_message(kind, path@, at as int, sel),
{
    match kind {
        EditKind::Apply => {
            let mut m = "Applied to ".to_owned();
            m.append(path);
            m.append(" at line ");
            m.append(decimal_string(at as u64 + 1).as_str());
            m.append(".");
            m
        },
        EditKind::Move => {
            let mut m = "Moved block in ".to_owned();
            m.append(path);
            m.append(" to line ");
            m.append(decimal_string(at as u64 + 1).as_str());
            m.append(".");
            m
        },
        EditKind::Delete => {
            let mut m = "Deleted block in ".to_owned();
            m.append(path);
            m.append(" (lines ");
            m.append(decimal_string(sel.start_line as u64 + 1).as_str());
            m.append("\u{2013}");
            m.append(decimal_string(sel.end_line as u64 + 1).as_str());
            m.append(").");
            m
        },
        EditKind::Undo => {
            let mut m = "Undid last Apply on ".to_owned();
            m.append(path);
            m.append(".");
            m
        },
    }
}

/// Info shown after a diff: the fallback warning, then the pre-processing note on its own line.
pub open spec fn loaded_info(warning: Option<Seq<char>>, note: Option<Seq<char>>) -> Seq<char> {
    let base = match warning {
        Some(w) => w,
        None => Seq::empty(),
    };
    match note {
        Some(n) => (if base.len() > 0 { base.push('\n') } else { base }) + n,
        None => base,
    }
}

pub fn diff_info_text(warning: Option<String>, note: Option<String>) -> (r: String)
    ensures
        r@ == loaded_info(opt_view(warning), opt_view(note)),
{
    let mut info = match warning {
        Some(w) => w,
        None => String::new(),
    };
    if let Some(n) = note {
        if !info.as_str().is_empty() {
            info.append("\n");
            proof {
                reveal_strlit("\n");
            }
        }
        info.append(n.as_str());
    }
    info
}

/// Where a click on file C inserts a pending block.
pub enum InsertCase {
    /// Negative row, no view, no file C pane, or a row past the end.
    Ignore,
    /// The row has no line number.
    NoLine,
    /// No file C path.
    NoPath,
    At(u32),
}

pub enum ExecInsertCase {
    Ignore,
    NoLine,
    NoPath,
    At(u32),
}

impl ExecInsertCase {
    pub open spec fn view(self) -> InsertCase {
        match self {
            ExecInsertCase::Ignore => InsertCase::Ignore,
            ExecInsertCase::NoLine => InsertCase::NoLine,
            ExecInsertCase::NoPath => InsertCase::NoPath,
            ExecInsertCase::At(a) => InsertCase::At(a),
        }
    }
}

pub open spec fn insert_case(o: ViewerState, row: i32) -> InsertCase {
    if row < 0 {
        InsertCase::Ignore
    } else {
        match o.view {
            Some(v) => if !v.triple_pane || row as int >= v.diff.aligned_lines@.len() {
                InsertCase::Ignore
            } else {
                match row_line(v.diff.aligned_lines@, row as int, DiffSide::Center) {
                    None => InsertCase::NoLine,
                    Some(at) => if o.path_c is None { InsertCase::NoPath } else { InsertCase::At(at) },
                }
            },
            None => InsertCase::Ignore,
        }
    }
}

pub enum DeleteCase {
    Ignore,
    NoPath,
    Go(BlockSelection),
}

/// Whether a Delete click acts: the row is the Delete row of a file C selection.
pub open spec fn delete_case(o: ViewerState, row: i32) -> DeleteCase {
    if row < 0 {
        DeleteCase::Ignore
    } else {
        match (o.selection, o.view) {
            (Some(sel), Some(v)) => if sel.side == DiffSide::Center && v.triple_pane
                && row_matches_action(v.diff.aligned_lines@, row as int, sel, false) {
                if o.path_c is None { DeleteCase::NoPath } else { DeleteCase::Go(sel) }
            } else {
                DeleteCase::Ignore
            },
            _ => DeleteCase::Ignore,
        }
    }
}

/// A Move click starts waiting for the target row: nothing pending and the row is the Move
/// row of a file C selection.
pub open spec fn move_click_starts(o: ViewerState, row: i32) -> bool {
    o.pending_apply is None && row >= 0 && match (o.selection, o.view) {
        (Some(sel), Some(v)) => sel.side == DiffSide::Center && v.triple_pane
            && row_matches_action(v.diff.aligned_lines@, row as int, sel, true),
        _ => false,
    }
}

} // verus!
