//! Editing file C: insert a syntax block from A or B, delete a block, move a block.
//!
//! File C is a vector of lines. Blank lines (only whitespace) are free slots: inserting a
//! line overwrites a blank slot, or pushes the occupied line one row down, and so on.

use vstd::prelude::*;
use crate::model::{AlignedLine, DiffFile};
use crate::text::{all_ws, copy_string, is_blank, views};

verus! {

#[derive(Debug, Clone, Copy, PartialEq, Eq, Structural)]
pub enum DiffSide {
    Lhs,
    Rhs,
    Center,
}

#[derive(Debug, Clone, Copy, PartialEq, Eq, Structural)]
pub struct BlockSelection {
    pub side: DiffSide,
    pub block_id: u32,
    pub start_line: u32,
    pub end_line: u32,
}

pub fn is_empty_line(line: &str) -> (b: bool)
    ensures
        b == all_ws(line@),
{
    is_blank(line)
}

// ---- model ------------------------------------------------------------------

/// The lines after placing `text` at `pos`: a line past the end is appended, a blank slot is
/// overwritten, and an occupied slot is taken over while its old line is placed at `pos + 1`.
pub open spec fn place(lines: Seq<Seq<char>>, pos: int, text: Seq<char>) -> Seq<Seq<char>>
    decreases lines.len() - pos,
{
    if pos < 0 || pos >= lines.len() {
        lines.push(text)
    } else if all_ws(lines[pos]) {
        lines.update(pos, text)
    } else {
        place(lines.update(pos, text), pos + 1, lines[pos])
    }
}

/// Places `texts[0]` at `pos`, `texts[1]` at `pos + 1`, and so on.
pub open spec fn place_all(lines: Seq<Seq<char>>, pos: int, texts: Seq<Seq<char>>) -> Seq<Seq<char>>
    decreases texts.len(),
{
    if texts.len() == 0 {
        lines
    } else {
        place_all(place(lines, pos, texts[0]), pos + 1, texts.drop_first())
    }
}

/// The lines padded with empty lines up to length `n`.
pub open spec fn pad(lines: Seq<Seq<char>>, n: int) -> Seq<Seq<char>> {
    if n > lines.len() {
        lines + Seq::new((n - lines.len()) as nat, |i: int| Seq::<char>::empty())
    } else {
        lines
    }
}

/// Lines `start..=end` of `lines`, with `end` clamped to the last line.
pub open spec fn range_lines(lines: Seq<Seq<char>>, start: int, end: int) -> Seq<Seq<char>> {
    if start >= lines.len() {
        Seq::empty()
    } else {
        let e = if end < lines.len() - 1 { end } else { lines.len() - 1 };
        if start > e {
            Seq::empty()
        } else {
            lines.subrange(start, e + 1)
        }
    }
}

/// Lines `start..=end` emptied, row count unchanged.
pub open spec fn cleared(lines: Seq<Seq<char>>, start: int, end: int) -> Seq<Seq<char>> {
    Seq::new(
        lines.len(),
        |k: int|
            if start <= k && k <= end {
                Seq::<char>::empty()
            } else {
                lines[k]
            },
    )
}

/// The non-blank lines, in order.
pub open spec fn nonblank(lines: Seq<Seq<char>>) -> Seq<Seq<char>>
    decreases lines.len(),
{
    if lines.len() == 0 {
        Seq::empty()
    } else if all_ws(lines.last()) {
        nonblank(lines.drop_last())
    } else {
        nonblank(lines.drop_last()).push(lines.last())
    }
}

/// Line number and text of a row on one side, if that side has a line there.
pub open spec fn side_line(row: AlignedLine, side: DiffSide) -> Option<(u32, Seq<char>)> {
    match side {
        DiffSide::Lhs => match row.lhs_line {
            Some(n) => Some((n, row.lhs_text@)),
            None => None,
        },
        DiffSide::Rhs => match row.rhs_line {
            Some(n) => Some((n, row.rhs_text@)),
            None => None,
        },
        DiffSide::Center => None,
    }
}

/// `x` inserted into `s` after the last element whose line number is at most `x`'s.
pub open spec fn insert_by_line(s: Seq<(u32, Seq<char>)>, x: (u32, Seq<char>)) -> Seq<(u32, Seq<char>)>
    decreases s.len(),
{
    if s.len() == 0 {
        seq![x]
    } else if s.last().0 <= x.0 {
        s.push(x)
    } else {
        insert_by_line(s.drop_last(), x).push(s.last())
    }
}

/// The lines of `side` whose line number lies in `start..=end`, stably sorted by line number.
pub open spec fn block_source(rows: Seq<AlignedLine>, side: DiffSide, start: u32, end: u32) -> Seq<(u32, Seq<char>)>
    decreases rows.len(),
{
    if rows.len() == 0 {
        Seq::empty()
    } else {
        let prev = block_source(rows.drop_last(), side, start, end);
        match side_line(rows.last(), side) {
            Some(x) => if start <= x.0 && x.0 <= end {
                insert_by_line(prev, x)
            } else {
                prev
            },
            None => prev,
        }
    }
}

pub open spec fn texts_of(s: Seq<(u32, Seq<char>)>) -> Seq<Seq<char>> {
    s.map_values(|p: (u32, Seq<char>)| p.1)
}

pub open spec fn pairs_view(v: Seq<(u32, String)>) -> Seq<(u32, Seq<char>)> {
    v.map_values(|p: (u32, String)| (p.0, p.1@))
}

// ---- executable -------------------------------------------------------------

proof fn lemma_insert_by_line_at(s: Seq<(u32, Seq<char>)>, x: (u32, Seq<char>), j: int)
    requires
        0 <= j <= s.len(),
        forall|k: int| j <= k < s.len() ==> (#[trigger] s[k]).0 > x.0,
        j > 0 ==> s[j - 1].0 <= x.0,
    ensures
        insert_by_line(s, x) == s.insert(j, x),
    decreases s.len(),
{
    if s.len() == 0 {
        assert(s.insert(j, x) =~= seq![x]);
    } else if j == s.len() {
        assert(s.insert(j, x) =~= s.push(x));
    } else {
        let d = s.drop_last();
        assert forall|k: int| j <= k < d.len() implies (#[trigger] d[k]).0 > x.0 by {
            assert(d[k] == s[k]);
        }
        lemma_insert_by_line_at(d, x, j);
        assert(s.last().0 > x.0);
        assert(d.insert(j, x).push(s.last()) =~= s.insert(j, x));
    }
}

/// Lines of `side` in `start..=end`, sorted by line number (stable).
pub fn block_source_lines(diff: &DiffFile, side: DiffSide, start: u32, end: u32) -> (r: Vec<(u32, String)>)
    ensures
        pairs_view(r@) == block_source(diff.aligned_lines@, side, start, end),
{
    let mut lines: Vec<(u32, String)> = Vec::new();
    let n = diff.aligned_lines.len();
    let mut i: usize = 0;
    while i < n
        invariant
            n == diff.aligned_lines@.len(),
            i <= n,
            pairs_view(lines@) == block_source(diff.aligned_lines@.take(i as int), side, start, end),
        decreases n - i,
    {
        let aligned = &diff.aligned_lines[i];
        proof {
            assert(diff.aligned_lines@.take(i + 1).drop_last() == diff.aligned_lines@.take(i as int));
            assert(diff.aligned_lines@.take(i + 1).last() == *aligned);
        }
        let line: Option<(u32, String)> = match side {
            DiffSide::Lhs => match aligned.lhs_line {
                Some(k) => Some((k, copy_string(&aligned.lhs_text))),
                None => None,
            },
            DiffSide::Rhs => match aligned.rhs_line {
                Some(k) => Some((k, copy_string(&aligned.rhs_text))),
                None => None,
            },
            DiffSide::Center => None,
        };
        if let Some((line_no, text)) = line {
            if start <= line_no && line_no <= end {
                let mut j = lines.len();
                while j > 0 && lines[j - 1].0 > line_no
                    invariant
                        j <= lines.len(),
                        forall|k: int| j <= k < lines.len() ==> (#[trigger] lines@[k]).0 > line_no,
                    decreases j,
                {
                    j = j - 1;
                }
                proof {
                    let pv = pairs_view(lines@);
                    assert forall|k: int| j <= k < pv.len() implies (#[trigger] pv[k]).0 > line_no by {
                        assert(pv[k].0 == lines@[k].0);
                    }
                    lemma_insert_by_line_at(pv, (line_no, text@), j as int);
                }
                let ghost before = lines@;
                lines.insert(j, (line_no, text));
                assert(pairs_view(lines@) =~= pairs_view(before).insert(j as int, (line_no, text@)));
            }
        }
        i = i + 1;
    }
    assert(diff.aligned_lines@.take(n as int) == diff.aligned_lines@);
    lines
}


/// Place one line at `pos`, overwriting empty slots and cascading displaced content
/// with the same empty-overwrite / non-empty-push strategy.
pub fn place_line_at(lines: &mut Vec<String>, pos: usize, text: String)
    ensures
        views(final(lines)@) == place(views(old(lines)@), pos as int, text@),
{
    let mut p = pos;
    let mut cur = text;
    loop
        invariant
            place(views(lines@), p as int, cur@) == place(views(old(lines)@), pos as int, text@),
        decreases lines.len() - p,
    {
        if p >= lines.len() {
            let ghost before = lines@;
            lines.push(cur);
            assert(views(lines@) =~= views(before).push(cur@));
            return;
        }
        if is_empty_line(lines[p].as_str()) {
            let ghost before = lines@;
            lines.set(p, cur);
            assert(views(lines@) =~= views(before).update(p as int, cur@));
            return;
        }
        let displaced = copy_string(&lines[p]);
        let ghost before = lines@;
        lines.set(p, cur);
        assert(views(lines@) =~= views(before).update(p as int, cur@));
        cur = displaced;
        p = p + 1;
    }
}

/// Pad file C with empty lines so that line `insert_at` exists or is the next line.
pub fn prepare_insert_point(file_c_lines: &mut Vec<String>, insert_at: usize)
    ensures
        views(final(file_c_lines)@) == pad(views(old(file_c_lines)@), insert_at as int),
{
    let ghost orig = views(file_c_lines@);
    while file_c_lines.len() < insert_at
        invariant
            file_c_lines.len() >= orig.len(),
            file_c_lines.len() <= insert_at || file_c_lines.len() == orig.len(),
            views(file_c_lines@) == orig + Seq::new(
                (file_c_lines.len() - orig.len()) as nat,
                |i: int| Seq::<char>::empty(),
            ),
        decreases insert_at - file_c_lines.len(),
    {
        let ghost before = file_c_lines@;
        let e = String::new();
        assert(e@ == Seq::<char>::empty());
        file_c_lines.push(e);
        assert(views(file_c_lines@) =~= views(before).push(Seq::<char>::empty()));
        assert(views(file_c_lines@) =~= orig + Seq::new(
            (file_c_lines.len() - orig.len()) as nat,
            |i: int| Seq::<char>::empty(),
        ));
    }
    proof {
        if insert_at as int <= orig.len() {
            assert(orig + Seq::new(0, |i: int| Seq::<char>::empty()) =~= orig);
        }
    }
    assert(views(file_c_lines@) =~= pad(orig, insert_at as int));
}

/// Place `texts[i]` at `insert_at + i` for each `i` in turn.
fn place_block(file_c_lines: &mut Vec<String>, insert_at: usize, texts: Vec<String>)
    requires
        insert_at + texts.len() <= usize::MAX,
    ensures
        views(final(file_c_lines)@) == place_all(views(old(file_c_lines)@), insert_at as int, views(texts@)),
{
    let n = texts.len();
    let mut i: usize = 0;
    assert(views(texts@).skip(0) =~= views(texts@));
    while i < n
        invariant
            n == texts.len(),
            i <= n,
            insert_at + n <= usize::MAX,
            place_all(views(file_c_lines@), insert_at + i, views(texts@).skip(i as int))
                == place_all(views(old(file_c_lines)@), insert_at as int, views(texts@)),
        decreases n - i,
    {
        proof {
            let t = views(texts@).skip(i as int);
            assert(t[0] == texts@[i as int]@);
            assert(t.drop_first() == views(texts@).skip(i + 1));
        }
        let text = copy_string(&texts[i]);
        place_line_at(file_c_lines, insert_at + i, text);
        i = i + 1;
    }
    assert(views(texts@).skip(n as int) =~= Seq::<Seq<char>>::empty());
}

pub open spec fn apply_error() -> Seq<char> {
    "selected syntax block has no source lines."@
}

/// Insert the selected A/B block into file C at row `insert_at`.
pub fn apply_block_to_file_c(
    file_c_lines: &mut Vec<String>,
    diff: &DiffFile,
    sel: BlockSelection,
    insert_at: usize,
) -> (r: Result<(), String>)
    requires
        insert_at + texts_of(block_source(diff.aligned_lines@, sel.side, sel.start_line, sel.end_line)).len() <= usize::MAX,
    ensures
        ({
            let block = texts_of(block_source(diff.aligned_lines@, sel.side, sel.start_line, sel.end_line));
            &&& block.len() == 0 ==> r is Err && final(file_c_lines)@ == old(file_c_lines)@
            &&& r matches Err(e) ==> e@ == apply_error() && block.len() == 0
            &&& block.len() > 0 ==> r is Ok && views(final(file_c_lines)@) == place_all(
                pad(views(old(file_c_lines)@), insert_at as int),
                insert_at as int,
                block,
            )
        }),
{
    let source = block_source_lines(diff, sel.side, sel.start_line, sel.end_line);
    let mut block_lines: Vec<String> = Vec::new();
    let n = source.len();
    let mut i: usize = 0;
    proof {
        lemma_block_source_len(diff.aligned_lines@, sel.side, sel.start_line, sel.end_line);
    }
    while i < n
        invariant
            n == source.len(),
            i <= n,
            views(block_lines@) == texts_of(pairs_view(source@)).take(i as int),
        decreases n - i,
    {
        let t = copy_string(&source[i].1);
        let ghost before = block_lines@;
        assert(pairs_view(source@)[i as int] == (source@[i as int].0, source@[i as int].1@));
        assert(texts_of(pairs_view(source@))[i as int] == source@[i as int].1@);
        block_lines.push(t);
        assert(views(block_lines@) =~= views(before).push(t@));
        assert(views(block_lines@) =~= texts_of(pairs_view(source@)).take(i + 1));
        i = i + 1;
    }
    assert(texts_of(pairs_view(source@)).take(n as int) =~= texts_of(pairs_view(source@)));
    if block_lines.len() == 0 {
        return Err("selected syntax block has no source lines.".to_owned());
    }
    prepare_insert_point(file_c_lines, insert_at);
    place_block(file_c_lines, insert_at, block_lines);
    Ok(())
}

proof fn lemma_insert_by_line_len(s: Seq<(u32, Seq<char>)>, x: (u32, Seq<char>))
    ensures
        insert_by_line(s, x).len() == s.len() + 1,
    decreases s.len(),
{
    if s.len() > 0 && s.last().0 > x.0 {
        lemma_insert_by_line_len(s.drop_last(), x);
    }
}

/// A block has at most as many source lines as there are rows.
pub proof fn lemma_block_source_len(rows: Seq<AlignedLine>, side: DiffSide, start: u32, end: u32)
    ensures
        block_source(rows, side, start, end).len() <= rows.len(),
    decreases rows.len(),
{
    if rows.len() > 0 {
        lemma_block_source_len(rows.drop_last(), side, start, end);
        let prev = block_source(rows.drop_last(), side, start, end);
        match side_line(rows.last(), side) {
            Some(x) => {
                lemma_insert_by_line_len(prev, x);
            },
            None => {},
        }
    }
}

/// Inclusive 0-based line range `start..=end` of `lines` (end clamped to the last line).
pub fn file_lines_in_range(lines: &[String], start: u32, end: u32) -> (r: Vec<String>)
    ensures
        views(r@) == range_lines(views(lines@), start as int, end as int),
{
    let len = lines.len();
    let start = start as usize;
    if start >= len {
        let r: Vec<String> = Vec::new();
        assert(views(r@) =~= Seq::<Seq<char>>::empty());
        return r;
    }
    let end = if (end as usize) < len - 1 { end as usize } else { len - 1 };
    if start > end {
        let r: Vec<String> = Vec::new();
        assert(views(r@) =~= Seq::<Seq<char>>::empty());
        return r;
    }
    let mut r: Vec<String> = Vec::new();
    let mut i = start;
    while i <= end
        invariant
            len == lines@.len(),
            start <= end < len,
            start <= i <= end + 1,
            views(r@) == views(lines@).subrange(start as int, i as int),
        decreases end + 1 - i,
    {
        let ghost before = r@;
        r.push(copy_string(&lines[i]));
        assert(views(lines@)[i as int] == lines@[i as int]@);
        assert(views(r@) =~= views(before).push(lines@[i as int]@));
        assert(views(r@) =~= views(lines@).subrange(start as int, i + 1));
        i = i + 1;
    }
    r
}

/// Lines `start..=end` of file C (end clamped to the last line).
pub fn file_c_block_lines(file_c_lines: &[String], start: u32, end: u32) -> (r: Vec<String>)
    ensures
        views(r@) == range_lines(views(file_c_lines@), start as int, end as int),
{
    file_lines_in_range(file_c_lines, start, end)
}

/// Empty lines `start..=end` of file C, keeping the row count.
pub fn clear_block_in_file_c(file_c_lines: &mut Vec<String>, start: u32, end: u32)
    ensures
        views(final(file_c_lines)@) == cleared(views(old(file_c_lines)@), start as int, end as int),
{
    let ghost orig = views(file_c_lines@);
    let len = file_c_lines.len();
    let start = start as usize;
    if start >= len {
        assert(orig =~= cleared(orig, start as int, end as int));
        return;
    }
    let e = if (end as usize) < len - 1 { end as usize } else { len - 1 };
    if start > e {
        assert(orig =~= cleared(orig, start as int, end as int));
        return;
    }
    let mut i = start;
    while i <= e
        invariant
            len == file_c_lines@.len(),
            orig.len() == len,
            start <= e < len,
            e == end || e == len - 1,
            start <= i <= e + 1,
            forall|k: int| 0 <= k < len ==> (#[trigger] views(file_c_lines@)[k]) == (
                if start <= k < i { Seq::<char>::empty() } else { orig[k] }),
        decreases e + 1 - i,
    {
        let ghost before = file_c_lines@;
        let e = String::new();
        file_c_lines.set(i, e);
        assert forall|k: int| 0 <= k < len implies (#[trigger] views(file_c_lines@)[k]) == (
            if start <= k < i + 1 { Seq::<char>::empty() } else { orig[k] }) by {
            if k != i {
                assert(file_c_lines@[k] == before[k]);
                assert(views(before)[k] == before[k]@);
            }
        }
        i = i + 1;
    }
    assert(views(file_c_lines@) =~= cleared(orig, start as int, end as int));
}

pub open spec fn no_lines_error() -> Seq<char> {
    "selected syntax block has no lines."@
}

pub open spec fn already_empty_error() -> Seq<char> {
    "selected syntax block is already empty."@
}

/// The error `delete_block_from_file_c` and `move_block_in_file_c` report for a block, if any.
pub open spec fn block_edit_error(lines: Seq<Seq<char>>, start: int, end: int) -> Option<Seq<char>> {
    let block = range_lines(lines, start, end);
    if block.len() == 0 {
        Some(no_lines_error())
    } else if forall|i: int| 0 <= i < block.len() ==> all_ws(#[trigger] block[i]) {
        Some(already_empty_error())
    } else {
        None
    }
}

fn all_blank(lines: &Vec<String>) -> (b: bool)
    ensures
        b == forall|i: int| 0 <= i < lines@.len() ==> all_ws(#[trigger] views(lines@)[i]),
{
    let mut i: usize = 0;
    while i < lines.len()
        invariant
            i <= lines@.len(),
            forall|k: int| 0 <= k < i ==> all_ws(#[trigger] views(lines@)[k]),
        decreases lines.len() - i,
    {
        if !is_empty_line(lines[i].as_str()) {
            assert(views(lines@)[i as int] == lines@[i as int]@);
            return false;
        }
        i = i + 1;
    }
    true
}

/// Clear the selected block of file C (rows stay, so alignment is kept).
pub fn delete_block_from_file_c(file_c_lines: &mut Vec<String>, start: u32, end: u32) -> (r: Result<(), String>)
    ensures
        match block_edit_error(views(old(file_c_lines)@), start as int, end as int) {
            Some(msg) => r matches Err(e) && e@ == msg && final(file_c_lines)@ == old(file_c_lines)@,
            None => r is Ok && views(final(file_c_lines)@) == cleared(views(old(file_c_lines)@), start as int, end as int),
        },
{
    let block_lines = file_c_block_lines(file_c_lines, start, end);
    if block_lines.len() == 0 {
        return Err("selected syntax block has no lines.".to_owned());
    }
    if all_blank(&block_lines) {
        return Err("selected syntax block is already empty.".to_owned());
    }
    clear_block_in_file_c(file_c_lines, start, end);
    Ok(())
}

/// Clear the selected block of file C and place its lines again from row `insert_at` on.
pub fn move_block_in_file_c(file_c_lines: &mut Vec<String>, start: u32, end: u32, insert_at: usize) -> (r: Result<(), String>)
    requires
        block_edit_error(views(old(file_c_lines)@), start as int, end as int) is None
            ==> insert_at + range_lines(views(old(file_c_lines)@), start as int, end as int).len() <= usize::MAX,
    ensures
        match block_edit_error(views(old(file_c_lines)@), start as int, end as int) {
            Some(msg) => r matches Err(e) && e@ == msg && final(file_c_lines)@ == old(file_c_lines)@,
            None => r is Ok && views(final(file_c_lines)@) == place_all(
                pad(cleared(views(old(file_c_lines)@), start as int, end as int), insert_at as int),
                insert_at as int,
                range_lines(views(old(file_c_lines)@), start as int, end as int),
            ),
        },
{
    let block_lines = file_c_block_lines(file_c_lines, start, end);
    if block_lines.len() == 0 {
        return Err("selected syntax block has no lines.".to_owned());
    }
    if all_blank(&block_lines) {
        return Err("selected syntax block is already empty.".to_owned());
    }
    proof {
        let l = views(file_c_lines@);
        if start < l.len() {
            assert(range_lines(l, start as int, end as int).len() <= l.len());
        }
    }
    clear_block_in_file_c(file_c_lines, start, end);
    prepare_insert_point(file_c_lines, insert_at);
    place_block(file_c_lines, insert_at, block_lines);
    Ok(())
}


// ---- laws -------------------------------------------------------------------

proof fn lemma_nonblank_add(a: Seq<Seq<char>>, b: Seq<Seq<char>>)
    ensures
        nonblank(a + b) == nonblank(a) + nonblank(b),
    decreases b.len(),
{
    if b.len() == 0 {
        assert(a + b =~= a);
        assert(nonblank(a) + nonblank(b) =~= nonblank(a));
    } else {
        assert((a + b).drop_last() =~= a + b.drop_last());
        assert((a + b).last() == b.last());
        lemma_nonblank_add(a, b.drop_last());
        assert((nonblank(a) + nonblank(b.drop_last())).push(b.last()) =~= nonblank(a) + nonblank(
            b.drop_last(),
        ).push(b.last()));
    }
}

proof fn lemma_nonblank_single(x: Seq<char>)
    ensures
        nonblank(seq![x]) == (if all_ws(x) { Seq::<Seq<char>>::empty() } else { seq![x] }),
{
    assert(seq![x].drop_last() =~= Seq::<Seq<char>>::empty());
    assert(seq![x].last() == x);
    assert(nonblank(Seq::<Seq<char>>::empty()) == Seq::<Seq<char>>::empty());
    assert(Seq::<Seq<char>>::empty().push(x) =~= seq![x]);
}

/// Shape of `place`: rows before `pos` are untouched, row `pos` holds `text`,
/// and at most one row is added.
pub proof fn lemma_place_shape(lines: Seq<Seq<char>>, pos: int, text: Seq<char>)
    requires
        0 <= pos <= lines.len(),
    ensures
        place(lines, pos, text).len() == lines.len() || place(lines, pos, text).len() == lines.len() + 1,
        place(lines, pos, text).len() >= pos + 1,
        place(lines, pos, text)[pos] == text,
        forall|k: int| 0 <= k < pos ==> #[trigger] place(lines, pos, text)[k] == lines[k],
    decreases lines.len() - pos,
{
    if pos < lines.len() && !all_ws(lines[pos]) {
        lemma_place_shape(lines.update(pos, text), pos + 1, lines[pos]);
    }
}

/// Placing a line loses no non-blank line and keeps their order: the non-blank lines
/// afterwards are those before `pos`, then `text` (unless blank), then those from `pos` on.
pub proof fn law_place_keeps_content(lines: Seq<Seq<char>>, pos: int, text: Seq<char>)
    requires
        0 <= pos <= lines.len(),
    ensures
        nonblank(place(lines, pos, text)) == nonblank(lines.take(pos)) + nonblank(seq![text])
            + nonblank(lines.skip(pos)),
    decreases lines.len() - pos,
{
    lemma_nonblank_single(text);
    if pos == lines.len() {
        assert(lines.take(pos) =~= lines);
        assert(lines.skip(pos) =~= Seq::<Seq<char>>::empty());
        assert(lines.push(text) =~= lines + seq![text]);
        lemma_nonblank_add(lines, seq![text]);
        assert(nonblank(lines.take(pos)) + nonblank(seq![text]) + nonblank(lines.skip(pos))
            =~= nonblank(lines) + nonblank(seq![text]));
    } else {
        let old_line = lines[pos];
        let u = lines.update(pos, text);
        assert(lines.skip(pos) =~= seq![old_line] + lines.skip(pos + 1));
        lemma_nonblank_add(seq![old_line], lines.skip(pos + 1));
        lemma_nonblank_single(old_line);
        if all_ws(old_line) {
            assert(u =~= lines.take(pos) + seq![text] + lines.skip(pos + 1));
            lemma_nonblank_add(lines.take(pos) + seq![text], lines.skip(pos + 1));
            lemma_nonblank_add(lines.take(pos), seq![text]);
            assert(nonblank(seq![old_line]) + nonblank(lines.skip(pos + 1)) =~= nonblank(
                lines.skip(pos + 1),
            ));
        } else {
            law_place_keeps_content(u, pos + 1, old_line);
            assert(u.take(pos + 1) =~= lines.take(pos) + seq![text]);
            assert(u.skip(pos + 1) =~= lines.skip(pos + 1));
            lemma_nonblank_add(lines.take(pos), seq![text]);
            assert(nonblank(place(lines, pos, text)) =~= nonblank(lines.take(pos)) + nonblank(
                seq![text],
            ) + (nonblank(seq![old_line]) + nonblank(lines.skip(pos + 1))));
        }
    }
}

/// Placing a block puts it verbatim at `pos, pos + 1, ...`, leaves the rows before `pos`
/// untouched, and loses or reorders no non-blank line.
pub proof fn law_place_all_block(lines: Seq<Seq<char>>, pos: int, texts: Seq<Seq<char>>)
    requires
        0 <= pos <= lines.len(),
    ensures
        place_all(lines, pos, texts).len() >= pos + texts.len(),
        forall|k: int| 0 <= k < pos ==> #[trigger] place_all(lines, pos, texts)[k] == lines[k],
        forall|i: int| 0 <= i < texts.len() ==> #[trigger] place_all(lines, pos, texts)[pos + i] == texts[i],
        nonblank(place_all(lines, pos, texts)) == nonblank(lines.take(pos)) + nonblank(texts)
            + nonblank(lines.skip(pos)),
    decreases texts.len(),
{
    let r = place_all(lines, pos, texts);
    if texts.len() == 0 {
        assert(lines =~= lines.take(pos) + lines.skip(pos));
        lemma_nonblank_add(lines.take(pos), lines.skip(pos));
        assert(nonblank(texts) =~= Seq::<Seq<char>>::empty());
        assert(nonblank(lines.take(pos)) + nonblank(texts) + nonblank(lines.skip(pos)) =~= nonblank(
            lines.take(pos),
        ) + nonblank(lines.skip(pos)));
    } else {
        let l1 = place(lines, pos, texts[0]);
        let rest = texts.drop_first();
        lemma_place_shape(lines, pos, texts[0]);
        law_place_keeps_content(lines, pos, texts[0]);
        law_place_all_block(l1, pos + 1, rest);
        assert forall|i: int| 0 <= i < texts.len() implies #[trigger] r[pos + i] == texts[i] by {
            if i > 0 {
                assert(r[(pos + 1) + (i - 1)] == rest[i - 1]);
            } else {
                assert(r[pos] == l1[pos]);
            }
        }
        // split the non-blank lines of l1 at pos + 1
        assert(l1.take(pos + 1) =~= lines.take(pos) + seq![texts[0]]);
        assert(l1 =~= l1.take(pos + 1) + l1.skip(pos + 1));
        lemma_nonblank_add(l1.take(pos + 1), l1.skip(pos + 1));
        lemma_nonblank_add(lines.take(pos), seq![texts[0]]);
        let a = nonblank(lines.take(pos)) + nonblank(seq![texts[0]]);
        assert(nonblank(l1) == a + nonblank(l1.skip(pos + 1)));
        assert(nonblank(l1) == a + nonblank(lines.skip(pos)));
        assert(nonblank(l1.skip(pos + 1)) =~= nonblank(lines.skip(pos))) by {
            assert((a + nonblank(l1.skip(pos + 1))).skip(a.len() as int) =~= nonblank(l1.skip(pos + 1)));
            assert((a + nonblank(lines.skip(pos))).skip(a.len() as int) =~= nonblank(lines.skip(pos)));
        }
        assert(texts =~= seq![texts[0]] + rest);
        lemma_nonblank_add(seq![texts[0]], rest);
        assert(nonblank(r) =~= nonblank(lines.take(pos)) + nonblank(texts) + nonblank(lines.skip(pos)));
    }
}

/// Apply puts the selected block verbatim at the target row, keeps every row above it,
/// and keeps every non-blank line of file C, in order, around the block.
pub proof fn law_apply_inserts_block(file_c: Seq<Seq<char>>, block: Seq<Seq<char>>, insert_at: int)
    requires
        0 <= insert_at,
    ensures
        ({
            let padded = pad(file_c, insert_at);
            let r = place_all(padded, insert_at, block);
            let p = if insert_at <= file_c.len() { insert_at } else { file_c.len() as int };
            &&& forall|i: int| 0 <= i < block.len() ==> #[trigger] r[insert_at + i] == block[i]
            &&& forall|k: int| 0 <= k < insert_at && k < file_c.len() ==> #[trigger] r[k] == file_c[k]
            &&& forall|k: int| file_c.len() <= k < insert_at ==> (#[trigger] r[k]).len() == 0
            &&& nonblank(r) == nonblank(file_c.take(p)) + nonblank(block) + nonblank(file_c.skip(p))
        }),
{
    let padded = pad(file_c, insert_at);
    let p = if insert_at <= file_c.len() { insert_at } else { file_c.len() as int };
    law_place_all_block(padded, insert_at, block);
    if insert_at > file_c.len() {
        let gap = Seq::new((insert_at - file_c.len()) as nat, |i: int| Seq::<char>::empty());
        assert(padded.take(insert_at) =~= file_c + gap);
        assert(padded.skip(insert_at) =~= Seq::<Seq<char>>::empty());
        assert(file_c.take(p) =~= file_c);
        assert(file_c.skip(p) =~= Seq::<Seq<char>>::empty());
        lemma_nonblank_add(file_c, gap);
        lemma_nonblank_blank(gap);
        assert(nonblank(gap) =~= Seq::<Seq<char>>::empty());
        assert(nonblank(file_c + gap) =~= nonblank(file_c));
    }
}

proof fn lemma_nonblank_blank(s: Seq<Seq<char>>)
    requires
        forall|i: int| 0 <= i < s.len() ==> (#[trigger] s[i]).len() == 0,
    ensures
        nonblank(s).len() == 0,
    decreases s.len(),
{
    if s.len() > 0 {
        assert(s.last().len() == 0);
        assert(all_ws(s.last()));
        lemma_nonblank_blank(s.drop_last());
    }
}

/// Move empties the block's rows, then puts the block's lines verbatim at the target row; every
/// row above the target outside the block is kept, and the other non-blank lines of file C keep
/// their order around the block.
pub proof fn law_move_relocates_block(file_c: Seq<Seq<char>>, start: int, end: int, insert_at: int)
    requires
        0 <= insert_at,
    ensures
        ({
            let block = range_lines(file_c, start, end);
            let rest = cleared(file_c, start, end);
            let r = place_all(pad(rest, insert_at), insert_at, block);
            let p = if insert_at <= file_c.len() { insert_at } else { file_c.len() as int };
            &&& forall|i: int| 0 <= i < block.len() ==> #[trigger] r[insert_at + i] == block[i]
            &&& forall|k: int| 0 <= k < insert_at && k < file_c.len() && !(start <= k <= end)
                ==> #[trigger] r[k] == file_c[k]
            &&& nonblank(r) == nonblank(rest.take(p)) + nonblank(block) + nonblank(rest.skip(p))
        }),
{
    let rest = cleared(file_c, start, end);
    law_delete_keeps_rows(file_c, start, end);
    law_apply_inserts_block(rest, range_lines(file_c, start, end), insert_at);
}

/// Delete empties exactly the selected rows that exist and keeps the row count.
pub proof fn law_delete_keeps_rows(file_c: Seq<Seq<char>>, start: int, end: int)
    ensures
        cleared(file_c, start, end).len() == file_c.len(),
        forall|k: int| 0 <= k < file_c.len() && start <= k <= end ==> (#[trigger] cleared(file_c, start, end)[k]).len() == 0,
        forall|k: int| 0 <= k < file_c.len() && !(start <= k <= end) ==> #[trigger] cleared(file_c, start, end)[k] == file_c[k],
{
}

/// Row `r` has a line of `side` in `start..=end`.
pub open spec fn in_block(r: AlignedLine, side: DiffSide, start: u32, end: u32) -> bool {
    match side_line(r, side) {
        Some(x) => start <= x.0 && x.0 <= end,
        None => false,
    }
}

pub open spec fn in_block_pred(side: DiffSide, start: u32, end: u32) -> spec_fn(AlignedLine) -> bool {
    |r: AlignedLine| in_block(r, side, start, end)
}

pub open spec fn sorted_by_line(s: Seq<(u32, Seq<char>)>) -> bool {
    forall|a: int, b: int| 0 <= a < b < s.len() ==> (#[trigger] s[a]).0 <= (#[trigger] s[b]).0
}

proof fn lemma_insert_by_line_is_insert(s: Seq<(u32, Seq<char>)>, x: (u32, Seq<char>)) -> (j: int)
    ensures
        0 <= j <= s.len(),
        insert_by_line(s, x) == s.insert(j, x),
        forall|k: int| j <= k < s.len() ==> (#[trigger] s[k]).0 > x.0,
        j > 0 ==> s[j - 1].0 <= x.0,
    decreases s.len(),
{
    if s.len() == 0 {
        assert(s.insert(0, x) =~= seq![x]);
        0
    } else if s.last().0 <= x.0 {
        assert(s.insert(s.len() as int, x) =~= s.push(x));
        s.len() as int
    } else {
        let d = s.drop_last();
        let j = lemma_insert_by_line_is_insert(d, x);
        assert(d.insert(j, x).push(s.last()) =~= s.insert(j, x));
        assert forall|k: int| j <= k < s.len() implies (#[trigger] s[k]).0 > x.0 by {
            if k < d.len() {
                assert(s[k] == d[k]);
            }
        }
        if j > 0 {
            assert(s[j - 1] == d[j - 1]);
        }
        j
    }
}

proof fn lemma_block_len(rows: Seq<AlignedLine>, side: DiffSide, start: u32, end: u32)
    ensures
        block_source(rows, side, start, end).len() == rows.filter(in_block_pred(side, start, end)).len(),
    decreases rows.len(),
{
    if rows.len() > 0 {
        let d = rows.drop_last();
        lemma_block_len(d, side, start, end);
        let pred = in_block_pred(side, start, end);
        reveal(Seq::filter);
        assert(rows.filter(pred) == (if pred(rows.last()) { d.filter(pred).push(rows.last()) } else { d.filter(pred) }));
        if in_block(rows.last(), side, start, end) {
            let j = lemma_insert_by_line_is_insert(block_source(d, side, start, end), side_line(rows.last(), side)->0);
        }
    }
}

proof fn lemma_block_from_rows(rows: Seq<AlignedLine>, side: DiffSide, start: u32, end: u32)
    ensures
        forall|k: int| #![trigger block_source(rows, side, start, end)[k]] 0 <= k < block_source(rows, side, start, end).len() ==> exists|i: int|
            0 <= i < rows.len() && side_line(#[trigger] rows[i], side) == Some(block_source(rows, side, start, end)[k])
                && start <= block_source(rows, side, start, end)[k].0 <= end,
    decreases rows.len(),
{
    if rows.len() > 0 {
        let b = block_source(rows, side, start, end);
        let d = rows.drop_last();
        let n = rows.len() - 1;
        let p = block_source(d, side, start, end);
        lemma_block_from_rows(d, side, start, end);
        assert(rows.last() == rows[n]);
        if in_block(rows[n], side, start, end) {
            let x = side_line(rows[n], side)->0;
            let j = lemma_insert_by_line_is_insert(p, x);
            assert(b == p.insert(j, x));
            assert forall|k: int| #![trigger b[k]] 0 <= k < b.len() implies exists|i: int|
                0 <= i < rows.len() && side_line(#[trigger] rows[i], side) == Some(b[k]) && start <= b[k].0 <= end by {
                if k < j {
                    assert(b[k] == p[k]);
                    let i = choose|i: int| 0 <= i < d.len() && side_line(#[trigger] d[i], side) == Some(p[k]) && start <= p[k].0 <= end;
                    assert(rows[i] == d[i]);
                } else if k == j {
                    assert(b[k] == x);
                    assert(side_line(rows[n], side) == Some(b[k]));
                } else {
                    assert(b[k] == p[k - 1]);
                    let i = choose|i: int| 0 <= i < d.len() && side_line(#[trigger] d[i], side) == Some(p[k - 1]) && start <= p[k - 1].0 <= end;
                    assert(rows[i] == d[i]);
                }
            }
        } else {
            assert(b == p);
            assert forall|k: int| #![trigger b[k]] 0 <= k < b.len() implies exists|i: int|
                0 <= i < rows.len() && side_line(#[trigger] rows[i], side) == Some(b[k]) && start <= b[k].0 <= end by {
                let i = choose|i: int| 0 <= i < d.len() && side_line(#[trigger] d[i], side) == Some(p[k]) && start <= p[k].0 <= end;
                assert(rows[i] == d[i]);
            }
        }
    }
}

proof fn lemma_rows_in_block(rows: Seq<AlignedLine>, side: DiffSide, start: u32, end: u32)
    ensures
        forall|i: int| 0 <= i < rows.len() && in_block(#[trigger] rows[i], side, start, end) ==> exists|k: int|
            0 <= k < block_source(rows, side, start, end).len()
                && Some(#[trigger] block_source(rows, side, start, end)[k]) == side_line(rows[i], side),
    decreases rows.len(),
{
    if rows.len() > 0 {
        let b = block_source(rows, side, start, end);
        let d = rows.drop_last();
        let n = rows.len() - 1;
        let p = block_source(d, side, start, end);
        lemma_rows_in_block(d, side, start, end);
        assert(rows.last() == rows[n]);
        if in_block(rows[n], side, start, end) {
            let x = side_line(rows[n], side)->0;
            let j = lemma_insert_by_line_is_insert(p, x);
            assert(b == p.insert(j, x));
            assert forall|i: int| 0 <= i < rows.len() && in_block(#[trigger] rows[i], side, start, end) implies exists|k: int|
                0 <= k < b.len() && Some(#[trigger] b[k]) == side_line(rows[i], side) by {
                if i == n {
                    assert(Some(b[j]) == side_line(rows[i], side));
                } else {
                    assert(rows[i] == d[i]);
                    assert(in_block(d[i], side, start, end));
                    let k = choose|k: int| 0 <= k < p.len() && Some(#[trigger] p[k]) == side_line(d[i], side);
                    if k < j {
                        assert(b[k] == p[k]);
                    } else {
                        assert(b[k + 1] == p[k]);
                    }
                }
            }
        } else {
            assert(b == p);
            assert forall|i: int| 0 <= i < rows.len() && in_block(#[trigger] rows[i], side, start, end) implies exists|k: int|
                0 <= k < b.len() && Some(#[trigger] b[k]) == side_line(rows[i], side) by {
                assert(i != n);
                assert(rows[i] == d[i]);
                assert(in_block(d[i], side, start, end));
            }
        }
    }
}

proof fn lemma_block_sorted(rows: Seq<AlignedLine>, side: DiffSide, start: u32, end: u32)
    ensures
        sorted_by_line(block_source(rows, side, start, end)),
    decreases rows.len(),
{
    if rows.len() > 0 {
        let b = block_source(rows, side, start, end);
        let d = rows.drop_last();
        let p = block_source(d, side, start, end);
        lemma_block_sorted(d, side, start, end);
        if in_block(rows.last(), side, start, end) {
            let x = side_line(rows.last(), side)->0;
            let j = lemma_insert_by_line_is_insert(p, x);
            assert(b == p.insert(j, x));
            assert forall|a: int, c: int| 0 <= a < c < b.len() implies (#[trigger] b[a]).0 <= (#[trigger] b[c]).0 by {
                if a < j && c < j {
                    assert(b[a] == p[a] && b[c] == p[c]);
                } else if a < j && c == j {
                    assert(b[a] == p[a]);
                    assert(p[a].0 <= p[j - 1].0);
                } else if a < j {
                    assert(b[a] == p[a] && b[c] == p[c - 1]);
                } else if a == j {
                    assert(b[c] == p[c - 1]);
                } else {
                    assert(b[a] == p[a - 1] && b[c] == p[c - 1]);
                }
            }
        }
    }
}

/// The source lines of a block are exactly the lines of the chosen side whose line number lies
/// in `start..=end`, whatever their text (blank ones included), one per such row, each with
/// that row's line number and text, sorted by line number.
pub proof fn law_block_source_is_the_block_rows(rows: Seq<AlignedLine>, side: DiffSide, start: u32, end: u32)
    ensures
        block_source(rows, side, start, end).len() == rows.filter(in_block_pred(side, start, end)).len(),
        forall|k: int| #![trigger block_source(rows, side, start, end)[k]] 0 <= k < block_source(rows, side, start, end).len() ==> exists|i: int|
            0 <= i < rows.len() && side_line(#[trigger] rows[i], side) == Some(block_source(rows, side, start, end)[k])
                && start <= block_source(rows, side, start, end)[k].0 <= end,
        forall|i: int| 0 <= i < rows.len() && in_block(#[trigger] rows[i], side, start, end) ==> exists|k: int|
            0 <= k < block_source(rows, side, start, end).len()
                && Some(#[trigger] block_source(rows, side, start, end)[k]) == side_line(rows[i], side),
        sorted_by_line(block_source(rows, side, start, end)),
{
    lemma_block_len(rows, side, start, end);
    lemma_block_from_rows(rows, side, start, end);
    lemma_rows_in_block(rows, side, start, end);
    lemma_block_sorted(rows, side, start, end);
}

} // verus!
