//! Build syntax-highlighted line segments from difft JSON spans.

use vstd::prelude::*;
use crate::text::{byte_len, byte_slice, chars_of, copy_string, has_char, lemma_suffix_boundary, push_char};
use vstd::utf8::{
    decode_utf8, decode_utf8_split, encode_utf8, encode_utf8_decode_utf8, encode_utf8_valid_utf8, is_char_boundary,
    is_char_boundary_iff_not_is_continuation_byte, is_char_boundary_start_end_of_seq, valid_utf8, valid_utf8_split,
};

verus! {

pub const TAB_WIDTH: usize = 4;

#[derive(Debug, Clone, Copy, PartialEq, Eq, Structural)]
pub enum Highlight {
    Delimiter,
    Normal,
    String,
    Type,
    Comment,
    Keyword,
    TreeSitterError,
}

#[derive(Debug, Clone, PartialEq, Eq)]
pub struct TextSpan {
    pub start: u32,
    pub end: u32,
    pub content: String,
    pub highlight: Highlight,
    pub is_novel: bool,
}

/// The plain values of a span.
pub open spec fn span_view(s: TextSpan) -> (u32, u32, Seq<char>, Highlight, bool) {
    (s.start, s.end, s.content@, s.highlight, s.is_novel)
}

pub open spec fn spans_view(v: Seq<TextSpan>) -> Seq<(u32, u32, Seq<char>, Highlight, bool)> {
    v.map_values(|s: TextSpan| span_view(s))
}

/// Foreground colors of the viewer's palette.
#[derive(Debug, Clone, Copy, PartialEq, Eq, Structural)]
pub enum SegmentColor {
    White,
    Red,
    Green,
    Magenta,
    Blue,
    Purple,
    Yellow,
}

pub open spec fn color_hex(c: SegmentColor) -> Seq<char> {
    match c {
        SegmentColor::White => "#f8f8f2"@,
        SegmentColor::Red => "#ff5555"@,
        SegmentColor::Green => "#50fa7b"@,
        SegmentColor::Magenta => "#ff79c6"@,
        SegmentColor::Blue => "#6272a4"@,
        SegmentColor::Purple => "#bd93f9"@,
        SegmentColor::Yellow => "#f1fa8c"@,
    }
}

impl SegmentColor {
    /// The color as `#rrggbb`.
    pub fn hex(self) -> (s: &'static str)
        ensures
            s@ == color_hex(self),
    {
        match self {
            SegmentColor::White => "#f8f8f2",
            SegmentColor::Red => "#ff5555",
            SegmentColor::Green => "#50fa7b",
            SegmentColor::Magenta => "#ff79c6",
            SegmentColor::Blue => "#6272a4",
            SegmentColor::Purple => "#bd93f9",
            SegmentColor::Yellow => "#f1fa8c",
        }
    }
}

/// A run of text drawn in one style.
#[derive(Debug, Clone)]
pub struct Segment {
    pub text: String,
    pub color: SegmentColor,
    pub bold: bool,
    pub italic: bool,
}

#[derive(Debug, Clone, Copy, PartialEq, Eq, Structural)]
pub enum Side {
    Left,
    Right,
}

pub open spec fn seg_view(s: Segment) -> (Seq<char>, SegmentColor, bool, bool) {
    (s.text@, s.color, s.bold, s.italic)
}

pub open spec fn segs_view(v: Seq<Segment>) -> Seq<(Seq<char>, SegmentColor, bool, bool)> {
    v.map_values(|s: Segment| seg_view(s))
}

pub open spec fn spec_novel_color(side: Side) -> SegmentColor {
    match side {
        Side::Left => SegmentColor::Red,
        Side::Right => SegmentColor::Green,
    }
}

pub open spec fn spec_syntax_color(h: Highlight) -> SegmentColor {
    match h {
        Highlight::String => SegmentColor::Magenta,
        Highlight::Comment => SegmentColor::Blue,
        Highlight::TreeSitterError => SegmentColor::Purple,
        Highlight::Type => SegmentColor::Yellow,
        _ => SegmentColor::White,
    }
}

/// A highlighted piece: novel text in the side's color, otherwise the syntax color;
/// keywords and types bold, comments italic.
pub open spec fn styled(content: Seq<char>, h: Highlight, is_novel: bool, side: Side) -> (Seq<char>, SegmentColor, bool, bool) {
    (
        content,
        if is_novel { spec_novel_color(side) } else { spec_syntax_color(h) },
        h == Highlight::Keyword || h == Highlight::Type,
        h == Highlight::Comment,
    )
}

/// Text between spans: the side's color on a novel line, otherwise white.
pub open spec fn gap(content: Seq<char>, line_novel: bool, side: Side) -> (Seq<char>, SegmentColor, bool, bool) {
    (content, if line_novel { spec_novel_color(side) } else { SegmentColor::White }, false, false)
}

pub fn novel_color(side: Side) -> (c: SegmentColor)
    ensures
        c == spec_novel_color(side),
{
    match side {
        Side::Left => SegmentColor::Red,
        Side::Right => SegmentColor::Green,
    }
}

pub fn syntax_color(highlight: Highlight) -> (c: SegmentColor)
    ensures
        c == spec_syntax_color(highlight),
{
    match highlight {
        Highlight::String => SegmentColor::Magenta,
        Highlight::Comment => SegmentColor::Blue,
        Highlight::TreeSitterError => SegmentColor::Purple,
        Highlight::Type => SegmentColor::Yellow,
        Highlight::Keyword | Highlight::Delimiter | Highlight::Normal => SegmentColor::White,
    }
}

pub fn style_segment(content: &str, highlight: Highlight, is_novel: bool, side: Side) -> (r: Segment)
    ensures
        seg_view(r) == styled(content@, highlight, is_novel, side),
{
    let bold = match highlight {
        Highlight::Keyword | Highlight::Type => true,
        _ => false,
    };
    let italic = match highlight {
        Highlight::Comment => true,
        _ => false,
    };
    let color = if is_novel { novel_color(side) } else { syntax_color(highlight) };
    Segment { text: content.to_owned(), color, bold, italic }
}

pub fn gap_segment(content: &str, line_novel: bool, side: Side) -> (r: Segment)
    ensures
        seg_view(r) == gap(content@, line_novel, side),
{
    Segment {
        text: content.to_owned(),
        color: if line_novel { novel_color(side) } else { SegmentColor::White },
        bold: false,
        italic: false,
    }
}

pub open spec fn same_style(a: (Seq<char>, SegmentColor, bool, bool), b: (Seq<char>, SegmentColor, bool, bool)) -> bool {
    a.1 == b.1 && a.2 == b.2 && a.3 == b.3
}

/// Adjacent segments of the same style joined into one.
pub open spec fn merged(s: Seq<(Seq<char>, SegmentColor, bool, bool)>) -> Seq<(Seq<char>, SegmentColor, bool, bool)>
    decreases s.len(),
{
    if s.len() == 0 {
        s
    } else {
        let m = merged(s.drop_last());
        if m.len() > 0 && same_style(m.last(), s.last()) {
            m.update(m.len() - 1, (m.last().0 + s.last().0, m.last().1, m.last().2, m.last().3))
        } else {
            m.push(s.last())
        }
    }
}

pub fn merge_segments(segments: Vec<Segment>) -> (r: Vec<Segment>)
    ensures
        segs_view(r@) == merged(segs_view(segments@)),
{
    let mut merged_v: Vec<Segment> = Vec::new();
    let n = segments.len();
    let mut i: usize = 0;
    while i < n
        invariant
            n == segments@.len(),
            i <= n,
            segs_view(merged_v@) == merged(segs_view(segments@).take(i as int)),
        decreases n - i,
    {
        let seg = &segments[i];
        proof {
            let t = segs_view(segments@).take(i + 1);
            assert(t.drop_last() =~= segs_view(segments@).take(i as int));
            assert(t.last() == seg_view(*seg));
        }
        let m = merged_v.len();
        if m > 0 && merged_v[m - 1].color == seg.color && merged_v[m - 1].bold == seg.bold
            && merged_v[m - 1].italic == seg.italic {
            let ghost before = merged_v@;
            let mut text = copy_string(&merged_v[m - 1].text);
            text.append(seg.text.as_str());
            let joined = Segment {
                text,
                color: merged_v[m - 1].color,
                bold: merged_v[m - 1].bold,
                italic: merged_v[m - 1].italic,
            };
            merged_v.set(m - 1, joined);
            assert(segs_view(merged_v@) =~= segs_view(before).update(m - 1, seg_view(joined)));
        } else {
            let ghost before = merged_v@;
            let copy = Segment { text: copy_string(&seg.text), color: seg.color, bold: seg.bold, italic: seg.italic };
            merged_v.push(copy);
            assert(segs_view(merged_v@) =~= segs_view(before).push(seg_view(copy)));
        }
        i = i + 1;
    }
    assert(segs_view(segments@).take(n as int) =~= segs_view(segments@));
    merged_v
}

/// Concatenated text of the segments.
pub open spec fn all_text(s: Seq<(Seq<char>, SegmentColor, bool, bool)>) -> Seq<char>
    decreases s.len(),
{
    if s.len() == 0 {
        Seq::empty()
    } else {
        all_text(s.drop_last()) + s.last().0
    }
}

/// Merging keeps the text and leaves no two adjacent segments of the same style.
pub proof fn law_merge_keeps_text(s: Seq<(Seq<char>, SegmentColor, bool, bool)>)
    ensures
        all_text(merged(s)) == all_text(s),
        forall|i: int| 0 <= i < merged(s).len() - 1 ==> !same_style(#[trigger] merged(s)[i], merged(s)[i + 1]),
        merged(s).len() <= s.len(),
    decreases s.len(),
{
    if s.len() > 0 {
        let d = s.drop_last();
        law_merge_keeps_text(d);
        let m = merged(d);
        if m.len() > 0 && same_style(m.last(), s.last()) {
            let u = m.update(m.len() - 1, (m.last().0 + s.last().0, m.last().1, m.last().2, m.last().3));
            assert(u.drop_last() =~= m.drop_last());
            assert(all_text(m) == all_text(m.drop_last()) + m.last().0);
            assert(all_text(u) =~= all_text(m) + s.last().0);
            assert forall|i: int| 0 <= i < u.len() - 1 implies !same_style(#[trigger] u[i], u[i + 1]) by {
                if i + 1 < u.len() - 1 {
                    assert(u[i] == m[i] && u[i + 1] == m[i + 1]);
                } else {
                    assert(u[i] == m[i]);
                }
            }
        } else {
            let u = m.push(s.last());
            assert(u.drop_last() =~= m);
            assert forall|i: int| 0 <= i < u.len() - 1 implies !same_style(#[trigger] u[i], u[i + 1]) by {
                if i + 1 < u.len() - 1 {
                    assert(u[i] == m[i] && u[i + 1] == m[i + 1]);
                } else {
                    assert(u[i] == m[i]);
                }
            }
        }
    }
}

// ---- tabs -------------------------------------------------------------------

/// `s` with each tab replaced by spaces up to the next multiple of `TAB_WIDTH` columns.
pub open spec fn expand_tabs(s: Seq<char>) -> Seq<char>
    decreases s.len(),
{
    if s.len() == 0 {
        Seq::empty()
    } else {
        let out = expand_tabs(s.drop_last());
        if s.last() == '\t' {
            out + Seq::new((4 - out.len() % 4) as nat, |i: int| ' ')
        } else {
            out.push(s.last())
        }
    }
}

/// Display column of character index `index`: width of the expanded text before it.
pub open spec fn display_col(line: Seq<char>, index: int) -> nat {
    expand_tabs(line.take(if index < line.len() { index } else { line.len() as int })).len()
}

/// Expand tabs to spaces for display (tabs render as missing glyphs).
pub fn expand_tabs_display(line: &str) -> (r: String)
    requires
        expand_tabs(line@).len() <= usize::MAX,
    ensures
        r@ == expand_tabs(line@),
{
    let mut out = String::new();
    let mut col: usize = 0;
    proof {
        lemma_expand_prefix_mono(line@, line@.len() as int);
        assert(line@.take(line@.len() as int) =~= line@);
    }
    for ch in it: line.chars()
        invariant
            it.seq() == line@,
            expand_tabs(line@).len() <= usize::MAX,
            forall|k: int| 0 <= k <= line@.len() ==> #[trigger] expand_tabs(line@.take(k)).len()
                <= expand_tabs(line@.take(line@.len() as int)).len(),
            line@.take(line@.len() as int) == line@,
            out@ == expand_tabs(line@.take(it.index() as int)),
            col == out@.len(),
    {
        proof {
            let t = line@.take(it.index() + 1);
            assert(t.drop_last() =~= line@.take(it.index() as int));
            assert(t.last() == ch);
            assert(expand_tabs(t).len() <= expand_tabs(line@).len());
        }
        let ghost before = out@;
        if ch == '\t' {
            let spaces = TAB_WIDTH - (col % TAB_WIDTH);
            let mut k: usize = 0;
            while k < spaces
                invariant
                    spaces == 4 - before.len() % 4,
                    k <= spaces,
                    col == before.len(),
                    out@ == before + Seq::new(k as nat, |i: int| ' '),
                decreases spaces - k,
            {
                push_char(&mut out, ' ');
                k = k + 1;
                assert(out@ =~= before + Seq::new(k as nat, |i: int| ' '));
            }
            col = col + spaces;
        } else {
            push_char(&mut out, ch);
            col = col + 1;
        }
    }
    assert(line@.take(line@.len() as int) =~= line@);
    out
}

/// Expanded text holds no tab.
pub proof fn law_expanded_has_no_tab(s: Seq<char>)
    ensures
        !expand_tabs(s).contains('\t'),
    decreases s.len(),
{
    if s.len() > 0 {
        law_expanded_has_no_tab(s.drop_last());
        let out = expand_tabs(s.drop_last());
        if expand_tabs(s).contains('\t') {
            let k = choose|k: int| 0 <= k < expand_tabs(s).len() && expand_tabs(s)[k] == '\t';
            if k < out.len() {
                assert(out[k] == '\t');
                assert(out.contains('\t'));
            }
        }
    }
}

/// Display column of the character at `index` of `line`.
pub fn orig_index_to_display_col(line: &str, index: usize) -> (c: u32)
    requires
        display_col(line@, index as int) <= u32::MAX,
    ensures
        c == display_col(line@, index as int),
{
    let v = chars_of(line);
    let n = v.len();
    let stop = if index < n { index } else { n };
    let mut col: u32 = 0;
    let mut i: usize = 0;
    proof {
        lemma_expand_prefix_mono(line@, stop as int);
    }
    while i < stop
        invariant
            v@ == line@,
            n == v.len(),
            stop <= n,
            stop == (if index < n { index } else { n }),
            i <= stop,
            col == expand_tabs(line@.take(i as int)).len(),
            forall|k: int| 0 <= k <= stop ==> #[trigger] expand_tabs(line@.take(k)).len()
                <= expand_tabs(line@.take(stop as int)).len(),
            expand_tabs(line@.take(stop as int)).len() <= u32::MAX,
        decreases stop - i,
    {
        proof {
            let t = line@.take(i + 1);
            assert(t.drop_last() =~= line@.take(i as int));
            assert(t.last() == v@[i as int]);
            assert(expand_tabs(line@.take(i + 1)).len() <= expand_tabs(line@.take(stop as int)).len());
        }
        if v[i] == '\t' {
            col = col + (TAB_WIDTH - (col as usize % TAB_WIDTH)) as u32;
        } else {
            col = col + 1;
        }
        i = i + 1;
    }
    col
}

/// The expanded width of prefixes grows with the prefix.
proof fn lemma_expand_prefix_mono(s: Seq<char>, stop: int)
    requires
        0 <= stop <= s.len(),
    ensures
        forall|k: int| 0 <= k <= stop ==> #[trigger] expand_tabs(s.take(k)).len() <= expand_tabs(s.take(stop)).len(),
    decreases stop,
{
    if stop > 0 {
        lemma_expand_prefix_mono(s, stop - 1);
        let t = s.take(stop);
        assert(t.drop_last() =~= s.take(stop - 1));
    }
}

/// Display columns of a span after tab expansion, and the text they cover in the display line
/// (UTF-8 byte offsets into it); the span's own text when the start lies past its end.
pub open spec fn remapped(line: Seq<char>, sp: (u32, u32, Seq<char>, Highlight, bool)) -> (u32, u32, Seq<char>, Highlight, bool) {
    let d = encode_utf8(expand_tabs(line));
    let s = display_col(line, sp.0 as int);
    let e = display_col(line, sp.1 as int);
    let stop = if e < d.len() { e } else { d.len() };
    (
        s as u32,
        e as u32,
        if s < d.len() { decode_utf8(d.subrange(s as int, stop as int)) } else { sp.2 },
        sp.3,
        sp.4,
    )
}

/// The span can be remapped without overflow, and its display range can be sliced.
pub open spec fn remap_ok(line: Seq<char>, sp: TextSpan) -> bool {
    let d = encode_utf8(expand_tabs(line));
    let s = display_col(line, sp.start as int);
    let e = display_col(line, sp.end as int);
    let stop = if e < d.len() { e } else { d.len() };
    &&& s <= u32::MAX
    &&& e <= u32::MAX
    &&& s < d.len() ==> s <= stop && is_char_boundary(d, s as int) && is_char_boundary(d, stop as int)
}

/// Remap span columns after tab expansion and refresh span text slices.
pub fn remap_spans_for_tabs(line: &str, spans: &[TextSpan]) -> (r: Vec<TextSpan>)
    requires
        expand_tabs(line@).len() <= usize::MAX,
        forall|i: int| 0 <= i < spans@.len() ==> remap_ok(line@, #[trigger] spans@[i]),
    ensures
        spans_view(r@) == spans_view(spans@).map_values(|sp: (u32, u32, Seq<char>, Highlight, bool)| remapped(line@, sp)),
{
    let display = expand_tabs_display(line);
    let dlen = byte_len(display.as_str());
    let mut r: Vec<TextSpan> = Vec::new();
    let n = spans.len();
    let mut i: usize = 0;
    while i < n
        invariant
            n == spans@.len(),
            i <= n,
            display@ == expand_tabs(line@),
            dlen == encode_utf8(display@).len(),
            forall|k: int| 0 <= k < spans@.len() ==> remap_ok(line@, #[trigger] spans@[k]),
            spans_view(r@) == spans_view(spans@).map_values(|sp: (u32, u32, Seq<char>, Highlight, bool)| remapped(line@, sp)).take(i as int),
        decreases n - i,
    {
        let span = &spans[i];
        assert(remap_ok(line@, spans@[i as int]));
        let start = orig_index_to_display_col(line, span.start as usize);
        let end = orig_index_to_display_col(line, span.end as usize);
        let start_usize = start as usize;
        let end_usize = end as usize;
        let content = if start_usize < dlen {
            let stop = if end_usize < dlen { end_usize } else { dlen };
            byte_slice(display.as_str(), start_usize, stop).to_owned()
        } else {
            copy_string(&span.content)
        };
        let out = TextSpan { start, end, content, highlight: span.highlight, is_novel: span.is_novel };
        let ghost before = r@;
        r.push(out);
        proof {
            let all = spans_view(spans@).map_values(|sp: (u32, u32, Seq<char>, Highlight, bool)| remapped(line@, sp));
            assert(spans_view(spans@)[i as int] == span_view(*span));
            assert(all[i as int] == remapped(line@, span_view(*span)));
            assert(span_view(out) == remapped(line@, span_view(*span)));
            assert(spans_view(r@) =~= spans_view(before).push(span_view(out)));
            assert(spans_view(r@) =~= all.take(i + 1));
        }
        i = i + 1;
    }
    assert(spans_view(spans@).map_values(|sp: (u32, u32, Seq<char>, Highlight, bool)| remapped(line@, sp)).take(n as int)
        =~= spans_view(spans@).map_values(|sp: (u32, u32, Seq<char>, Highlight, bool)| remapped(line@, sp)));
    r
}

fn copy_spans(spans: &[TextSpan]) -> (r: Vec<TextSpan>)
    ensures
        spans_view(r@) == spans_view(spans@),
{
    let mut r: Vec<TextSpan> = Vec::new();
    let n = spans.len();
    let mut i: usize = 0;
    while i < n
        invariant
            n == spans@.len(),
            i <= n,
            spans_view(r@) == spans_view(spans@).take(i as int),
        decreases n - i,
    {
        let s = &spans[i];
        let c = TextSpan { start: s.start, end: s.end, content: copy_string(&s.content), highlight: s.highlight, is_novel: s.is_novel };
        let ghost before = r@;
        r.push(c);
        assert(spans_view(r@) =~= spans_view(before).push(span_view(c)));
        assert(spans_view(r@) =~= spans_view(spans@).take(i + 1));
        i = i + 1;
    }
    assert(spans_view(spans@).take(n as int) =~= spans_view(spans@));
    r
}

/// The line and its spans as displayed: unchanged without tabs, tab-expanded otherwise.
pub fn prepare_display_line(line: &str, spans: &[TextSpan]) -> (r: (String, Vec<TextSpan>))
    requires
        line@.contains('\t') ==> expand_tabs(line@).len() <= usize::MAX,
        line@.contains('\t') ==> forall|i: int| 0 <= i < spans@.len() ==> remap_ok(line@, #[trigger] spans@[i]),
    ensures
        !line@.contains('\t') ==> r.0@ == line@ && spans_view(r.1@) == spans_view(spans@),
        line@.contains('\t') ==> r.0@ == expand_tabs(line@) && spans_view(r.1@) == spans_view(spans@).map_values(
            |sp: (u32, u32, Seq<char>, Highlight, bool)| remapped(line@, sp),
        ),
{
    if !has_char(line, '\t') {
        return (line.to_owned(), copy_spans(spans));
    }
    let display = expand_tabs_display(line);
    let remapped_spans = remap_spans_for_tabs(line, spans);
    (display, remapped_spans)
}

// ---- building segments ------------------------------------------------------

/// `x` inserted after the last span whose start is at most `x`'s start.
pub open spec fn insert_by_start(s: Seq<(u32, u32, Seq<char>, Highlight, bool)>, x: (u32, u32, Seq<char>, Highlight, bool)) -> Seq<(u32, u32, Seq<char>, Highlight, bool)>
    decreases s.len(),
{
    if s.len() == 0 {
        seq![x]
    } else if s.last().0 <= x.0 {
        s.push(x)
    } else {
        insert_by_start(s.drop_last(), x).push(s.last())
    }
}

/// The spans stably sorted by start (`sort_by_key(|span| span.start)`).
pub open spec fn sorted_by_start(s: Seq<(u32, u32, Seq<char>, Highlight, bool)>) -> Seq<(u32, u32, Seq<char>, Highlight, bool)>
    decreases s.len(),
{
    if s.len() == 0 {
        s
    } else {
        insert_by_start(sorted_by_start(s.drop_last()), s.last())
    }
}

/// Byte offset reached after the spans: the largest end seen, at least 0.
pub open spec fn scan_pos(spans: Seq<(u32, u32, Seq<char>, Highlight, bool)>) -> int
    decreases spans.len(),
{
    if spans.len() == 0 {
        0
    } else {
        let p = scan_pos(spans.drop_last());
        if spans.last().1 as int > p { spans.last().1 as int } else { p }
    }
}

pub open spec fn clamp_end(end: int, len: int) -> int {
    if end < len { end } else { len }
}

/// Segments produced by one span at byte offset `pos` of the line bytes `b`: the gap before it,
/// then its text (its own content, or the covered bytes of the line when it has none).
pub open spec fn span_segments(b: Seq<u8>, pos: int, sp: (u32, u32, Seq<char>, Highlight, bool), line_novel: bool, side: Side) -> Seq<(Seq<char>, SegmentColor, bool, bool)> {
    let start = sp.0 as int;
    let len = b.len() as int;
    let g = if start > pos && start <= len {
        seq![gap(decode_utf8(b.subrange(pos, start)), line_novel, side)]
    } else {
        Seq::empty()
    };
    let c = if start < len {
        let content = if sp.2.len() == 0 { decode_utf8(b.subrange(start, clamp_end(sp.1 as int, len))) } else { sp.2 };
        if content.len() > 0 { seq![styled(content, sp.3, sp.4, side)] } else { Seq::empty() }
    } else {
        Seq::empty()
    };
    g + c
}

/// Segments of the spans in order, before merging and before the trailing gap.
pub open spec fn scan_segments(b: Seq<u8>, spans: Seq<(u32, u32, Seq<char>, Highlight, bool)>, line_novel: bool, side: Side) -> Seq<(Seq<char>, SegmentColor, bool, bool)>
    decreases spans.len(),
{
    if spans.len() == 0 {
        Seq::empty()
    } else {
        scan_segments(b, spans.drop_last(), line_novel, side) + span_segments(b, scan_pos(spans.drop_last()), spans.last(), line_novel, side)
    }
}

/// The byte offsets a span makes the scan slice at lie on character boundaries and in order.
pub open spec fn span_ok(b: Seq<u8>, pos: int, sp: (u32, u32, Seq<char>, Highlight, bool)) -> bool {
    let start = sp.0 as int;
    let len = b.len() as int;
    &&& (start > pos && start <= len) ==> is_char_boundary(b, pos) && is_char_boundary(b, start)
    &&& (start < len && sp.2.len() == 0) ==> start <= clamp_end(sp.1 as int, len) && is_char_boundary(b, start)
        && is_char_boundary(b, clamp_end(sp.1 as int, len))
}

pub open spec fn scan_ok(b: Seq<u8>, spans: Seq<(u32, u32, Seq<char>, Highlight, bool)>) -> bool
    decreases spans.len(),
{
    if spans.len() == 0 {
        true
    } else {
        scan_ok(b, spans.drop_last()) && span_ok(b, scan_pos(spans.drop_last()), spans.last())
    }
}

/// The line can be cut by the spans without slicing inside a character.
pub open spec fn build_ok(text: Seq<char>, spans: Seq<(u32, u32, Seq<char>, Highlight, bool)>) -> bool {
    let b = encode_utf8(text);
    let sorted = sorted_by_start(spans);
    text.len() == 0 || spans.len() == 0 || (scan_ok(b, sorted) && (scan_pos(sorted) < b.len() ==> is_char_boundary(b, scan_pos(sorted))))
}

/// Segments of a line: text between spans in the gap style, each span in its style,
/// adjacent segments of equal style merged.
pub open spec fn built(text: Seq<char>, spans: Seq<(u32, u32, Seq<char>, Highlight, bool)>, line_novel: bool, side: Side) -> Seq<(Seq<char>, SegmentColor, bool, bool)> {
    let b = encode_utf8(text);
    if text.len() == 0 {
        Seq::empty()
    } else if spans.len() == 0 {
        seq![gap(text, line_novel, side)]
    } else {
        let sorted = sorted_by_start(spans);
        let segs = scan_segments(b, sorted, line_novel, side);
        let pos = scan_pos(sorted);
        merged(if pos < b.len() { segs.push(gap(decode_utf8(b.subrange(pos, b.len() as int)), line_novel, side)) } else { segs })
    }
}

proof fn lemma_insert_by_start_at(s: Seq<(u32, u32, Seq<char>, Highlight, bool)>, x: (u32, u32, Seq<char>, Highlight, bool), j: int)
    requires
        0 <= j <= s.len(),
        forall|k: int| j <= k < s.len() ==> (#[trigger] s[k]).0 > x.0,
        j > 0 ==> s[j - 1].0 <= x.0,
    ensures
        insert_by_start(s, x) == s.insert(j, x),
    decreases s.len(),
{
    if s.len() == 0 {
        assert(s.insert(j, x) =~= seq![x]);
    } else if j == s.len() {
        assert(s.insert(j, x) =~= s.push(x));
    } else {
        let d = s.drop_last();
        assert forall|k: int| j <= k < d.len() implies (#[trigger] d[k]).0 > x.0 by {
            assert(d[k] == s[k]);
        }
        lemma_insert_by_start_at(d, x, j);
        assert(d.insert(j, x).push(s.last()) =~= s.insert(j, x));
    }
}

proof fn lemma_insert_by_start_len(s: Seq<(u32, u32, Seq<char>, Highlight, bool)>, x: (u32, u32, Seq<char>, Highlight, bool))
    ensures
        insert_by_start(s, x).len() == s.len() + 1,
    decreases s.len(),
{
    if s.len() > 0 && s.last().0 > x.0 {
        lemma_insert_by_start_len(s.drop_last(), x);
    }
}

proof fn lemma_sorted_len(s: Seq<(u32, u32, Seq<char>, Highlight, bool)>)
    ensures
        sorted_by_start(s).len() == s.len(),
    decreases s.len(),
{
    if s.len() > 0 {
        lemma_sorted_len(s.drop_last());
        lemma_insert_by_start_len(sorted_by_start(s.drop_last()), s.last());
    }
}

pub open spec fn order_view(order: Seq<usize>, sv: Seq<(u32, u32, Seq<char>, Highlight, bool)>) -> Seq<(u32, u32, Seq<char>, Highlight, bool)> {
    order.map_values(|k: usize| sv[k as int])
}

/// Indices of the spans in stable order of their start.
fn sort_span_indices(spans: &[TextSpan]) -> (order: Vec<usize>)
    ensures
        order@.len() == spans@.len(),
        forall|k: int| 0 <= k < order@.len() ==> #[trigger] order@[k] < spans@.len(),
        order_view(order@, spans_view(spans@)) == sorted_by_start(spans_view(spans@)),
{
    let ghost sv = spans_view(spans@);
    let mut order: Vec<usize> = Vec::new();
    let n = spans.len();
    let mut k: usize = 0;
    while k < n
        invariant
            n == spans@.len(),
            sv == spans_view(spans@),
            k <= n,
            order@.len() == k,
            forall|q: int| 0 <= q < order@.len() ==> #[trigger] order@[q] < n,
            order_view(order@, sv) == sorted_by_start(sv.take(k as int)),
        decreases n - k,
    {
        let key = spans[k].start;
        let mut j = order.len();
        while j > 0 && spans[order[j - 1]].start > key
            invariant
                j <= order@.len(),
                n == spans@.len(),
                sv == spans_view(spans@),
                forall|q: int| 0 <= q < order@.len() ==> #[trigger] order@[q] < n,
                forall|q: int| j <= q < order@.len() ==> (#[trigger] order_view(order@, sv)[q]).0 > key,
            decreases j,
        {
            j = j - 1;
        }
        proof {
            let ov = order_view(order@, sv);
            let t = sv.take(k + 1);
            assert(t.drop_last() =~= sv.take(k as int));
            assert(t.last() == sv[k as int]);
            assert(sv[k as int].0 == key);
            if j > 0 {
                assert(ov[j - 1] == sv[order@[j - 1] as int]);
            }
            lemma_insert_by_start_at(ov, sv[k as int], j as int);
        }
        let ghost before = order@;
        order.insert(j, k);
        assert(order_view(order@, sv) =~= order_view(before, sv).insert(j as int, sv[k as int]));
        k = k + 1;
    }
    assert(sv.take(n as int) =~= sv);
    order
}

proof fn lemma_scan_ok_prefix(b: Seq<u8>, s: Seq<(u32, u32, Seq<char>, Highlight, bool)>, j: int)
    requires
        scan_ok(b, s),
        0 <= j < s.len(),
    ensures
        span_ok(b, scan_pos(s.take(j)), s[j]),
    decreases s.len(),
{
    if j == s.len() - 1 {
        assert(s.take(j) =~= s.drop_last());
    } else {
        lemma_scan_ok_prefix(b, s.drop_last(), j);
        assert(s.drop_last().take(j) =~= s.take(j));
    }
}

/// Split a line into colored segments using difft span metadata.
pub fn build_segments(text: &str, spans: &[TextSpan], line_novel: bool, side: Side) -> (r: Vec<Segment>)
    requires
        build_ok(text@, spans_view(spans@)),
    ensures
        segs_view(r@) == built(text@, spans_view(spans@), line_novel, side),
{
    if text.is_empty() {
        let r: Vec<Segment> = Vec::new();
        assert(segs_view(r@) =~= Seq::<(Seq<char>, SegmentColor, bool, bool)>::empty());
        return r;
    }
    if spans.len() == 0 {
        let mut r: Vec<Segment> = Vec::new();
        r.push(gap_segment(text, line_novel, side));
        assert(segs_view(r@) =~= seq![gap(text@, line_novel, side)]);
        return r;
    }
    let order = sort_span_indices(spans);
    let ghost sv = spans_view(spans@);
    let ghost sorted = sorted_by_start(sv);
    let ghost b = encode_utf8(text@);
    let tlen = byte_len(text);
    let mut segments: Vec<Segment> = Vec::new();
    let mut pos: usize = 0;
    let m = order.len();
    let mut j: usize = 0;
    while j < m
        invariant
            m == order@.len(),
            order@.len() == spans@.len(),
            forall|k: int| 0 <= k < order@.len() ==> #[trigger] order@[k] < spans@.len(),
            order_view(order@, sv) == sorted,
            sv == spans_view(spans@),
            sorted == sorted_by_start(sv),
            b == encode_utf8(text@),
            tlen == b.len(),
            build_ok(text@, sv),
            text@.len() > 0,
            sv.len() > 0,
            j <= m,
            pos as int == scan_pos(sorted.take(j as int)),
            segs_view(segments@) == scan_segments(b, sorted.take(j as int), line_novel, side),
        decreases m - j,
    {
        let span = &spans[order[j]];
        let ghost pre = sorted.take(j as int);
        proof {
            lemma_sorted_len(sv);
            assert(sorted[j as int] == sv[order@[j as int] as int]);
            assert(sv[order@[j as int] as int] == span_view(*span));
            lemma_scan_ok_prefix(b, sorted, j as int);
            let t = sorted.take(j + 1);
            assert(t.drop_last() =~= pre);
            assert(t.last() == span_view(*span));
        }
        let start = span.start as usize;
        let end = span.end as usize;
        let ghost before = segments@;
        let ghost g: Seq<(Seq<char>, SegmentColor, bool, bool)> = Seq::empty();
        if start > pos && start <= tlen {
            let seg = gap_segment(byte_slice(text, pos, start), line_novel, side);
            segments.push(seg);
        }
        let ghost mid = segments@;
        if start < tlen {
            let content_empty = span.content.as_str().is_empty();
            let seg = if content_empty {
                let stop = if end < tlen { end } else { tlen };
                style_segment(byte_slice(text, start, stop), span.highlight, span.is_novel, side)
            } else {
                style_segment(span.content.as_str(), span.highlight, span.is_novel, side)
            };
            if !seg.text.as_str().is_empty() {
                segments.push(seg);
            }
        }
        proof {
            let ss = span_segments(b, pos as int, span_view(*span), line_novel, side);
            assert(segs_view(segments@) =~= segs_view(before) + ss);
        }
        pos = if end > pos { end } else { pos };
        j = j + 1;
    }
    proof {
        lemma_sorted_len(sv);
        assert(sorted.take(m as int) =~= sorted);
    }
    if pos < tlen {
        proof {
            encode_utf8_valid_utf8(text@);
            is_char_boundary_start_end_of_seq(b);
        }
        let ghost before = segments@;
        let seg = gap_segment(byte_slice(text, pos, tlen), line_novel, side);
        segments.push(seg);
        assert(segs_view(segments@) =~= segs_view(before).push(seg_view(seg)));
    }
    merge_segments(segments)
}


// ---- checking that a line can be displayed -----------------------------------

/// Whether the spans cut the line only at character boundaries (`build_ok`), checked.
pub fn segments_buildable(text: &str, spans: &[TextSpan]) -> (b: bool)
    ensures
        b == build_ok(text@, spans_view(spans@)),
{
    if text.is_empty() || spans.len() == 0 {
        return true;
    }
    let order = sort_span_indices(spans);
    let ghost sv = spans_view(spans@);
    let ghost sorted = sorted_by_start(sv);
    let ghost b = encode_utf8(text@);
    let tlen = byte_len(text);
    let mut pos: usize = 0;
    let m = order.len();
    let mut j: usize = 0;
    proof {
        lemma_sorted_len(sv);
        assert(sorted.take(0) =~= Seq::<(u32, u32, Seq<char>, Highlight, bool)>::empty());
    }
    while j < m
        invariant
            m == order@.len(),
            order@.len() == spans@.len(),
            forall|k: int| 0 <= k < order@.len() ==> #[trigger] order@[k] < spans@.len(),
            order_view(order@, sv) == sorted,
            sv == spans_view(spans@),
            sorted == sorted_by_start(sv),
            sorted.len() == sv.len(),
            b == encode_utf8(text@),
            tlen == b.len(),
            j <= m,
            pos as int == scan_pos(sorted.take(j as int)),
            scan_ok(b, sorted.take(j as int)),
        decreases m - j,
    {
        let span = &spans[order[j]];
        let ghost pre = sorted.take(j as int);
        proof {
            assert(sorted[j as int] == sv[order@[j as int] as int]);
            assert(sv[order@[j as int] as int] == span_view(*span));
            let t = sorted.take(j + 1);
            assert(t.drop_last() =~= pre);
            assert(t.last() == span_view(*span));
        }
        let start = span.start as usize;
        let end = span.end as usize;
        let gap_ok = if start > pos && start <= tlen {
            text.is_char_boundary(pos) && text.is_char_boundary(start)
        } else {
            true
        };
        let body_ok = if start < tlen && span.content.as_str().is_empty() {
            let stop = if end < tlen { end } else { tlen };
            start <= stop && text.is_char_boundary(start) && text.is_char_boundary(stop)
        } else {
            true
        };
        assert((gap_ok && body_ok) == span_ok(b, pos as int, span_view(*span)));
        if !(gap_ok && body_ok) {
            proof {
                if scan_ok(b, sorted) {
                    lemma_scan_ok_prefix(b, sorted, j as int);
                }
            }
            return false;
        }
        pos = if end > pos { end } else { pos };
        j = j + 1;
    }
    proof {
        assert(sorted.take(m as int) =~= sorted);
    }
    pos >= tlen || text.is_char_boundary(pos)
}

/// Whether the tab-expanded line fits in memory (`expand_tabs(line).len() <= usize::MAX`).
pub fn expanded_len_fits(line: &str) -> (b: bool)
    ensures
        b == (expand_tabs(line@).len() <= usize::MAX),
{
    let v = chars_of(line);
    let n = v.len();
    let mut col: usize = 0;
    let mut i: usize = 0;
    proof {
        lemma_expand_prefix_mono(line@, n as int);
        assert(line@.take(n as int) =~= line@);
        assert(line@.take(0) =~= Seq::<char>::empty());
    }
    while i < n
        invariant
            v@ == line@,
            n == v.len(),
            i <= n,
            col == expand_tabs(line@.take(i as int)).len(),
            forall|k: int| 0 <= k <= n ==> #[trigger] expand_tabs(line@.take(k)).len()
                <= expand_tabs(line@.take(n as int)).len(),
            line@.take(n as int) == line@,
        decreases n - i,
    {
        proof {
            let t = line@.take(i + 1);
            assert(t.drop_last() =~= line@.take(i as int));
            assert(t.last() == v@[i as int]);
        }
        let add: usize = if v[i] == '\t' { TAB_WIDTH - col % TAB_WIDTH } else { 1 };
        if col > usize::MAX - add {
            proof {
                assert(expand_tabs(line@.take(i + 1)).len() == col + add);
            }
            return false;
        }
        col = col + add;
        i = i + 1;
    }
    true
}

/// Display column of character `index`, for a line whose expansion fits in memory.
fn display_col_usize(line: &str, index: usize) -> (c: usize)
    requires
        expand_tabs(line@).len() <= usize::MAX,
    ensures
        c == display_col(line@, index as int),
{
    let v = chars_of(line);
    let n = v.len();
    let stop = if index < n { index } else { n };
    let mut col: usize = 0;
    let mut i: usize = 0;
    proof {
        lemma_expand_prefix_mono(line@, n as int);
        assert(line@.take(n as int) =~= line@);
        assert(line@.take(0) =~= Seq::<char>::empty());
    }
    while i < stop
        invariant
            v@ == line@,
            n == v.len(),
            stop <= n,
            stop == (if index < n { index } else { n }),
            i <= stop,
            col == expand_tabs(line@.take(i as int)).len(),
            forall|k: int| 0 <= k <= n ==> #[trigger] expand_tabs(line@.take(k)).len()
                <= expand_tabs(line@.take(n as int)).len(),
            line@.take(n as int) == line@,
            expand_tabs(line@).len() <= usize::MAX,
        decreases stop - i,
    {
        proof {
            let t = line@.take(i + 1);
            assert(t.drop_last() =~= line@.take(i as int));
            assert(t.last() == v@[i as int]);
            assert(expand_tabs(line@.take(i + 1)).len() <= expand_tabs(line@.take(n as int)).len());
        }
        if v[i] == '\t' {
            col = col + (TAB_WIDTH - col % TAB_WIDTH);
        } else {
            col = col + 1;
        }
        i = i + 1;
    }
    col
}

/// Whether every span can be remapped onto the tab-expanded line (`remap_ok`), checked.
pub fn spans_remappable(line: &str, spans: &[TextSpan]) -> (b: bool)
    requires
        expand_tabs(line@).len() <= usize::MAX,
    ensures
        b == forall|i: int| 0 <= i < spans@.len() ==> remap_ok(line@, #[trigger] spans@[i]),
{
    let display = expand_tabs_display(line);
    let dlen = byte_len(display.as_str());
    let n = spans.len();
    let mut i: usize = 0;
    while i < n
        invariant
            n == spans@.len(),
            i <= n,
            display@ == expand_tabs(line@),
            expand_tabs(line@).len() <= usize::MAX,
            dlen == encode_utf8(display@).len(),
            forall|k: int| 0 <= k < i ==> remap_ok(line@, #[trigger] spans@[k]),
        decreases n - i,
    {
        let span = &spans[i];
        let s = display_col_usize(line, span.start as usize);
        let e = display_col_usize(line, span.end as usize);
        let fits = s <= u32::MAX as usize && e <= u32::MAX as usize;
        let cut_ok = if s < dlen {
            let stop = if e < dlen { e } else { dlen };
            s <= stop && display.as_str().is_char_boundary(s) && display.as_str().is_char_boundary(stop)
        } else {
            true
        };
        assert((fits && cut_ok) == remap_ok(line@, spans@[i as int]));
        if !(fits && cut_ok) {
            return false;
        }
        i = i + 1;
    }
    true
}

// ---- the segments spell the line ---------------------------------------------

/// The spans tile parts of the line: each lies within the line's bytes, they come in order
/// without covering any byte twice, they start and end on character boundaries, and a span's
/// own text, if it has one, is the text it covers.
pub open spec fn spans_tile(b: Seq<u8>, sv: Seq<(u32, u32, Seq<char>, Highlight, bool)>) -> bool {
    &&& forall|k: int| 0 <= k < sv.len() ==> (#[trigger] sv[k]).0 <= sv[k].1 && sv[k].1 <= b.len()
    &&& forall|j: int, k: int| 0 <= j < k < sv.len() ==> (#[trigger] sv[j]).1 <= (#[trigger] sv[k]).0
    &&& forall|k: int| 0 <= k < sv.len() ==> is_char_boundary(b, (#[trigger] sv[k]).0 as int)
        && is_char_boundary(b, sv[k].1 as int)
    &&& forall|k: int| 0 <= k < sv.len() ==> (#[trigger] sv[k]).2.len() == 0
        || sv[k].2 == decode_utf8(b.subrange(sv[k].0 as int, sv[k].1 as int))
}

proof fn lemma_slice_valid(b: Seq<u8>, a: int, c: int)
    requires
        valid_utf8(b),
        0 <= a <= c <= b.len(),
        is_char_boundary(b, a),
        is_char_boundary(b, c),
    ensures
        valid_utf8(b.subrange(a, c)),
{
    lemma_suffix_boundary(b, a, c);
    let r = b.subrange(a, b.len() as int);
    valid_utf8_split(r, c - a);
    assert(r.subrange(0, c - a) =~= b.subrange(a, c));
}

/// Decoding the bytes `a..c` is decoding `a..m` then `m..c`, for boundaries `a <= m <= c`.
proof fn lemma_decode_concat(b: Seq<u8>, a: int, m: int, c: int)
    requires
        valid_utf8(b),
        0 <= a <= m <= c <= b.len(),
        is_char_boundary(b, a),
        is_char_boundary(b, m),
        is_char_boundary(b, c),
    ensures
        decode_utf8(b.subrange(a, c)) == decode_utf8(b.subrange(a, m)) + decode_utf8(b.subrange(m, c)),
{
    lemma_slice_valid(b, a, c);
    let s = b.subrange(a, c);
    if m == c {
        is_char_boundary_start_end_of_seq(s);
        assert(s.len() == m - a);
    } else {
        is_char_boundary_iff_not_is_continuation_byte(b, m);
        assert(s[m - a] == b[m]);
        is_char_boundary_iff_not_is_continuation_byte(s, m - a);
    }
    decode_utf8_split(s, m - a);
    assert(s.subrange(0, m - a) =~= b.subrange(a, m));
    assert(s.subrange(m - a, s.len() as int) =~= b.subrange(m, c));
}

proof fn lemma_all_text_concat(x: Seq<(Seq<char>, SegmentColor, bool, bool)>, y: Seq<(Seq<char>, SegmentColor, bool, bool)>)
    ensures
        all_text(x + y) == all_text(x) + all_text(y),
    decreases y.len(),
{
    if y.len() == 0 {
        assert(x + y =~= x);
    } else {
        lemma_all_text_concat(x, y.drop_last());
        assert((x + y).drop_last() =~= x + y.drop_last());
        assert((x + y).last() == y.last());
    }
}

proof fn lemma_sorted_already(sv: Seq<(u32, u32, Seq<char>, Highlight, bool)>)
    requires
        forall|j: int, k: int| 0 <= j < k < sv.len() ==> (#[trigger] sv[j]).0 <= (#[trigger] sv[k]).0,
    ensures
        sorted_by_start(sv) == sv,
    decreases sv.len(),
{
    if sv.len() > 0 {
        let d = sv.drop_last();
        assert forall|j: int, k: int| 0 <= j < k < d.len() implies (#[trigger] d[j]).0 <= (#[trigger] d[k]).0 by {
            assert(d[j] == sv[j] && d[k] == sv[k]);
        }
        lemma_sorted_already(d);
        if d.len() == 0 {
            assert(seq![sv.last()] =~= sv);
        } else {
            assert(d.last() == sv[sv.len() - 2]);
            assert(d.push(sv.last()) =~= sv);
        }
    }
}

/// The segments one span adds spell the text from `p` to the span's end.
proof fn lemma_span_spells(b: Seq<u8>, p: int, sp: (u32, u32, Seq<char>, Highlight, bool), line_novel: bool, side: Side)
    requires
        valid_utf8(b),
        0 <= p <= sp.0 <= sp.1 <= b.len(),
        is_char_boundary(b, p),
        is_char_boundary(b, sp.0 as int),
        is_char_boundary(b, sp.1 as int),
        sp.2.len() == 0 || sp.2 == decode_utf8(b.subrange(sp.0 as int, sp.1 as int)),
    ensures
        all_text(span_segments(b, p, sp, line_novel, side))
            == decode_utf8(b.subrange(p, sp.0 as int)) + decode_utf8(b.subrange(sp.0 as int, sp.1 as int)),
{
    let start = sp.0 as int;
    let end = sp.1 as int;
    let len = b.len() as int;
    let g: Seq<(Seq<char>, SegmentColor, bool, bool)> = if start > p && start <= len {
        seq![gap(decode_utf8(b.subrange(p, start)), line_novel, side)]
    } else {
        Seq::empty()
    };
    let content = if sp.2.len() == 0 { decode_utf8(b.subrange(start, clamp_end(end, len))) } else { sp.2 };
    let c: Seq<(Seq<char>, SegmentColor, bool, bool)> = if start < len {
        if content.len() > 0 { seq![styled(content, sp.3, sp.4, side)] } else { Seq::empty() }
    } else {
        Seq::empty()
    };
    assert(span_segments(b, p, sp, line_novel, side) == g + c);
    lemma_all_text_concat(g, c);
    assert(b.subrange(p, p) =~= Seq::<u8>::empty());
    assert(b.subrange(start, start) =~= Seq::<u8>::empty());
    assert(all_text(g) == decode_utf8(b.subrange(p, start))) by {
        if start > p && start <= len {
            assert(all_text(g) == all_text(g.drop_last()) + g.last().0);
            assert(g.drop_last() =~= Seq::<(Seq<char>, SegmentColor, bool, bool)>::empty());
        }
    }
    assert(all_text(c) == decode_utf8(b.subrange(start, end))) by {
        if start < len {
            assert(clamp_end(end, len) == end);
            if content.len() > 0 {
                assert(all_text(c) == all_text(c.drop_last()) + c.last().0);
                assert(c.drop_last() =~= Seq::<(Seq<char>, SegmentColor, bool, bool)>::empty());
            }
        } else {
            assert(start == end);
        }
    }
}

/// The scan over the first `k` tiling spans has reached the end of span `k - 1` and its
/// segments spell the line up to there.
proof fn lemma_scan_spells(b: Seq<u8>, sv: Seq<(u32, u32, Seq<char>, Highlight, bool)>, k: int, line_novel: bool, side: Side)
    requires
        valid_utf8(b),
        spans_tile(b, sv),
        0 <= k <= sv.len(),
    ensures
        scan_pos(sv.take(k)) == (if k == 0 { 0 } else { sv[k - 1].1 as int }),
        all_text(scan_segments(b, sv.take(k), line_novel, side))
            == decode_utf8(b.subrange(0, scan_pos(sv.take(k)))),
    decreases k,
{
    is_char_boundary_start_end_of_seq(b);
    if k == 0 {
        assert(sv.take(0) =~= Seq::<(u32, u32, Seq<char>, Highlight, bool)>::empty());
        assert(b.subrange(0, 0) =~= Seq::<u8>::empty());
    } else {
        lemma_scan_spells(b, sv, k - 1, line_novel, side);
        let t = sv.take(k);
        assert(t.drop_last() =~= sv.take(k - 1));
        assert(t.last() == sv[k - 1]);
        let sp = sv[k - 1];
        let p = scan_pos(sv.take(k - 1));
        assert(sp.0 <= sp.1 && sp.1 <= b.len());
        assert(is_char_boundary(b, sp.0 as int) && is_char_boundary(b, sp.1 as int));
        assert(sp.2.len() == 0 || sp.2 == decode_utf8(b.subrange(sp.0 as int, sp.1 as int)));
        if k > 1 {
            assert(sv[k - 2].1 <= sv[k - 1].0);
            assert(is_char_boundary(b, sv[k - 2].1 as int));
        }
        lemma_span_spells(b, p, sp, line_novel, side);
        lemma_all_text_concat(scan_segments(b, sv.take(k - 1), line_novel, side), span_segments(b, p, sp, line_novel, side));
        lemma_decode_concat(b, 0, p, sp.0 as int);
        lemma_decode_concat(b, 0, sp.0 as int, sp.1 as int);
    }
}

/// When the spans tile parts of the line, the built segments spell exactly the line: no text
/// between, inside or after the spans is lost or repeated.
pub proof fn law_segments_spell_the_line(
    text: Seq<char>,
    spans: Seq<(u32, u32, Seq<char>, Highlight, bool)>,
    line_novel: bool,
    side: Side,
)
    requires
        spans_tile(encode_utf8(text), spans),
    ensures
        all_text(built(text, spans, line_novel, side)) == text,
{
    let b = encode_utf8(text);
    encode_utf8_valid_utf8(text);
    encode_utf8_decode_utf8(text);
    is_char_boundary_start_end_of_seq(b);
    if text.len() == 0 {
    } else if spans.len() == 0 {
        let one = seq![gap(text, line_novel, side)];
        assert(all_text(one) == all_text(one.drop_last()) + one.last().0);
        assert(one.drop_last() =~= Seq::<(Seq<char>, SegmentColor, bool, bool)>::empty());
    } else {
        assert forall|j: int, k: int| 0 <= j < k < spans.len() implies (#[trigger] spans[j]).0 <= (#[trigger] spans[k]).0 by {
            assert(spans[j].0 <= spans[j].1);
        }
        lemma_sorted_already(spans);
        let n = spans.len() as int;
        lemma_scan_spells(b, spans, n, line_novel, side);
        assert(spans.take(n) =~= spans);
        let segs = scan_segments(b, spans, line_novel, side);
        let pos = scan_pos(spans);
        let len = b.len() as int;
        assert(b.subrange(0, len) =~= b);
        let x = if pos < len { segs.push(gap(decode_utf8(b.subrange(pos, len)), line_novel, side)) } else { segs };
        law_merge_keeps_text(x);
        if pos < len {
            assert(x.drop_last() =~= segs);
            lemma_decode_concat(b, 0, pos, len);
        }
    }
}

} // verus!
