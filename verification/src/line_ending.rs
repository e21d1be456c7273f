//! LF / CRLF / CR helpers: split like difft, normalize for display, preserve on write.

use vstd::prelude::*;
use crate::text::{
    chars_of, join_with, lemma_join_split, lemma_push_contains, lemma_split_absent, lemma_split_last, lemma_split_len,
    lemma_split_no_sep, push_char, split_on, strip_cr, strip_trailing_cr, views,
};

verus! {

#[derive(Debug, Clone, Copy, PartialEq, Eq, Structural)]
pub enum LineEnding {
    Lf,
    CrLf,
    Cr,
}

impl Default for LineEnding {
    fn default() -> (r: LineEnding)
        ensures
            r == LineEnding::Lf,
    {
        LineEnding::Lf
    }
}

/// The characters written between two lines.
pub open spec fn ending_chars(e: LineEnding) -> Seq<char> {
    match e {
        LineEnding::Lf => seq!['\n'],
        LineEnding::CrLf => seq!['\r', '\n'],
        LineEnding::Cr => seq!['\r'],
    }
}

impl LineEnding {
    pub fn as_str(self) -> (s: &'static str)
        ensures
            s@ == ending_chars(self),
    {
        match self {
            LineEnding::Lf => {
                proof {
                    reveal_strlit("\n");
                }
                "\n"
            },
            LineEnding::CrLf => {
                proof {
                    reveal_strlit("\r\n");
                }
                "\r\n"
            },
            LineEnding::Cr => {
                proof {
                    reveal_strlit("\r");
                }
                "\r"
            },
        }
    }
}

/// `s` holds a carriage return immediately followed by a line feed.
pub open spec fn has_crlf(s: Seq<char>) -> bool {
    exists|i: int| 0 <= i < s.len() - 1 && s[i] == '\r' && #[trigger] s[i + 1] == '\n'
}

/// The line ending that `detect_line_ending` reports for `s`.
pub open spec fn spec_detect(s: Seq<char>) -> LineEnding {
    if has_crlf(s) {
        LineEnding::CrLf
    } else if s.contains('\r') {
        LineEnding::Cr
    } else {
        LineEnding::Lf
    }
}

/// Prefer CRLF when present, else legacy CR-only, else LF.
pub fn detect_line_ending(content: &str) -> (e: LineEnding)
    ensures
        e == spec_detect(content@),
{
    let v = chars_of(content);
    let n = v.len();
    let mut has_cr = false;
    let mut i: usize = 0;
    while i < n
        invariant
            v@ == content@,
            n == v.len(),
            i <= n,
            has_cr == v@.take(i as int).contains('\r'),
            forall|k: int| 0 <= k < i && k + 1 < n ==> !(#[trigger] v@[k] == '\r' && v@[k + 1] == '\n'),
        decreases n - i,
    {
        if v[i] == '\r' {
            if i + 1 < n && v[i + 1] == '\n' {
                assert(has_crlf(content@)) by {
                    assert(content@[i + 1 as int] == '\n');
                }
                return LineEnding::CrLf;
            }
            has_cr = true;
        }
        assert(v@.take(i + 1) == v@.take(i as int).push(v@[i as int]));
        proof {
            lemma_push_contains(v@.take(i as int), v@[i as int], '\r');
        }
        i = i + 1;
    }
    assert(v@.take(n as int) == v@);
    assert(!has_crlf(content@)) by {
        if has_crlf(content@) {
            let k = choose|k: int| 0 <= k < content@.len() - 1 && content@[k] == '\r' && #[trigger] content@[k + 1] == '\n';
            assert(!(v@[k] == '\r' && v@[k + 1] == '\n'));
        }
    }
    if has_cr {
        LineEnding::Cr
    } else {
        LineEnding::Lf
    }
}

/// Remove a trailing `\r` from one split segment (CRLF / CR source files).
pub fn normalize_line(line: &str) -> (r: String)
    ensures
        r@ == strip_cr(line@),
{
    strip_trailing_cr(line)
}

/// The logical lines of `s`: `str::split('\n')` with one trailing `\r` removed from each piece,
/// and no line at all for empty content.
pub open spec fn logical_lines(s: Seq<char>) -> Seq<Seq<char>> {
    if s.len() == 0 {
        Seq::<Seq<char>>::empty()
    } else {
        split_on(s, '\n').map_values(|l: Seq<char>| strip_cr(l))
    }
}

/// Split like difft (`str::split('\n')`) and strip `\r` from each segment.
pub fn split_logical_lines(content: &str) -> (lines: Vec<String>)
    ensures
        views(lines@) == logical_lines(content@),
{
    if content.is_empty() {
        let empty: Vec<String> = Vec::new();
        assert(views(empty@) =~= Seq::<Seq<char>>::empty());
        return empty;
    }
    let mut lines: Vec<String> = Vec::new();
    let mut cur = String::new();
    for c in it: content.chars()
        invariant
            it.seq() == content@,
            lines.len() + 1 == split_on(content@.take(it.index() as int), '\n').len(),
            forall|k: int| 0 <= k < lines.len() ==>
                (#[trigger] lines@[k])@ == strip_cr(split_on(content@.take(it.index() as int), '\n')[k]),
            cur@ == split_on(content@.take(it.index() as int), '\n').last(),
    {
        let ghost pre = content@.take(it.index() as int);
        let ghost post = content@.take(it.index() + 1);
        proof {
            assert(post.drop_last() == pre);
            assert(post.last() == c);
            lemma_split_len(pre, '\n');
        }
        if c == '\n' {
            let line = normalize_line(cur.as_str());
            lines.push(line);
            cur = String::new();
        } else {
            push_char(&mut cur, c);
        }
    }
    let line = normalize_line(cur.as_str());
    lines.push(line);
    proof {
        assert(content@.take(content@.len() as int) == content@);
        lemma_split_len(content@, '\n');
        assert(views(lines@) == logical_lines(content@));
    }
    lines
}

/// `lines` joined by the line ending.
pub open spec fn spec_join_lines(lines: Seq<Seq<char>>, ending: LineEnding) -> Seq<char> {
    join_with(lines, ending_chars(ending))
}

/// `lines.join(sep)`.
pub fn join_strings(lines: &[String], sep: &str) -> (r: String)
    ensures
        r@ == join_with(views(lines@), sep@),
{
    let mut r = String::new();
    let n = lines.len();
    let mut i: usize = 0;
    while i < n
        invariant
            n == lines@.len(),
            i <= n,
            r@ == join_with(views(lines@).take(i as int), sep@),
        decreases n - i,
    {
        let ghost before = views(lines@).take(i as int);
        let ghost after = views(lines@).take(i + 1);
        assert(after.drop_last() == before);
        if i > 0 {
            r.append(sep);
        }
        r.append(lines[i].as_str());
        i = i + 1;
    }
    assert(views(lines@).take(n as int) == views(lines@));
    r
}

pub fn join_lines(lines: &[String], ending: LineEnding) -> (r: String)
    ensures
        r@ == spec_join_lines(views(lines@), ending),
{
    join_strings(lines, ending.as_str())
}

pub fn read_lines_from_content(content: &str) -> (r: (Vec<String>, LineEnding))
    ensures
        views(r.0@) == logical_lines(content@),
        r.1 == spec_detect(content@),
{
    (split_logical_lines(content), detect_line_ending(content))
}

// ---- round trip ------------------------------------------------------------

/// Every line feed is preceded by a carriage return.
pub open spec fn lf_after_cr(s: Seq<char>) -> bool {
    forall|i: int| 0 <= i < s.len() && #[trigger] s[i] == '\n' ==> i > 0 && s[i - 1] == '\r'
}

/// Content whose line endings `read_lines_from_content` and `join_lines` preserve:
/// either no carriage return at all, or CRLF line breaks and no trailing lone `\r`.
pub open spec fn round_trips(s: Seq<char>) -> bool {
    !s.contains('\r') || (lf_after_cr(s) && !(s.len() > 0 && s.last() == '\r'))
}

proof fn lemma_split_pieces_end_cr(s: Seq<char>)
    requires
        lf_after_cr(s),
    ensures
        forall|i: int| 0 <= i < split_on(s, '\n').len() - 1 ==>
            (#[trigger] split_on(s, '\n')[i]).len() > 0 && split_on(s, '\n')[i].last() == '\r',
    decreases s.len(),
{
    lemma_split_len(s, '\n');
    if s.len() > 0 {
        let d = s.drop_last();
        assert(lf_after_cr(d)) by {
            assert forall|i: int| 0 <= i < d.len() && #[trigger] d[i] == '\n' implies i > 0 && d[i - 1] == '\r' by {
                assert(s[i] == '\n');
            }
        }
        lemma_split_pieces_end_cr(d);
        lemma_split_len(d, '\n');
        let prev = split_on(d, '\n');
        if s.last() == '\n' {
            assert(s[s.len() - 1] == '\n');
            assert(s.len() > 1 && s[s.len() - 2] == '\r');
            lemma_split_last(d, '\n');
        }
    }
}

proof fn lemma_join_strip_crlf(l: Seq<Seq<char>>)
    requires
        l.len() >= 1,
        forall|i: int| 0 <= i < l.len() - 1 ==> (#[trigger] l[i]).len() > 0 && l[i].last() == '\r',
    ensures
        ({
            let j = join_with(l.map_values(|x: Seq<char>| strip_cr(x)), seq!['\r', '\n']);
            if l.last().len() > 0 && l.last().last() == '\r' {
                j.push('\r') == join_with(l, seq!['\n'])
            } else {
                j == join_with(l, seq!['\n'])
            }
        }),
    decreases l.len(),
{
    let m = l.map_values(|x: Seq<char>| strip_cr(x));
    if l.len() == 1 {
        if l[0].len() > 0 && l[0].last() == '\r' {
            assert(l[0].drop_last().push('\r') == l[0]);
        }
    } else {
        let d = l.drop_last();
        lemma_join_strip_crlf(d);
        let md = d.map_values(|x: Seq<char>| strip_cr(x));
        assert(m.drop_last() == md);
        assert(d.last() == l[l.len() - 2]);
        let jd = join_with(md, seq!['\r', '\n']);
        assert(jd.push('\r') == join_with(d, seq!['\n']));
        assert(join_with(m, seq!['\r', '\n']) == jd + seq!['\r', '\n'] + m.last());
        assert(join_with(l, seq!['\n']) == join_with(d, seq!['\n']) + seq!['\n'] + l.last());
        if l.last().len() > 0 && l.last().last() == '\r' {
            assert(l.last().drop_last().push('\r') == l.last());
            assert((jd + seq!['\r', '\n'] + l.last().drop_last()).push('\r') == jd.push('\r') + seq!['\n'] + l.last());
        } else {
            assert(jd + seq!['\r', '\n'] + l.last() == jd.push('\r') + seq!['\n'] + l.last());
        }
    }
}

proof fn lemma_strip_noop(l: Seq<Seq<char>>)
    requires
        forall|i: int| 0 <= i < l.len() ==> !(#[trigger] l[i]).contains('\r'),
    ensures
        l.map_values(|x: Seq<char>| strip_cr(x)) == l,
{
    assert forall|i: int| 0 <= i < l.len() implies strip_cr(#[trigger] l[i]) == l[i] by {
        if l[i].len() > 0 && l[i].last() == '\r' {
            assert(l[i].contains('\r'));
        }
    }
    assert(l.map_values(|x: Seq<char>| strip_cr(x)) =~= l);
}

/// Reading content into lines and writing them back with the detected line ending gives
/// the same content, for content without carriage returns or with CRLF line breaks.
pub proof fn law_read_join_round_trip(content: Seq<char>)
    requires
        round_trips(content),
    ensures
        spec_join_lines(logical_lines(content), spec_detect(content)) == content,
{
    if content.len() == 0 {
        return;
    }
    let l = split_on(content, '\n');
    lemma_split_len(content, '\n');
    lemma_join_split(content, '\n');
    if !content.contains('\r') {
        lemma_split_absent(content, '\n', '\r');
        lemma_strip_noop(l);
        assert(!has_crlf(content)) by {
            if has_crlf(content) {
                let k = choose|k: int| 0 <= k < content.len() - 1 && content[k] == '\r' && #[trigger] content[k + 1] == '\n';
                assert(content.contains('\r'));
            }
        }
    } else {
        lemma_split_pieces_end_cr(content);
        lemma_join_strip_crlf(l);
        lemma_split_last(content, '\n');
        if l.len() > 1 {
            // some line feed exists, so a CRLF pair exists
            assert(content.contains('\n')) by {
                if !content.contains('\n') {
                    lemma_split_absent_one(content);
                }
            }
            let k = choose|k: int| 0 <= k < content.len() && content[k] == '\n';
            assert(content[k - 1] == '\r');
            assert(content[(k - 1) + 1] == '\n');
            assert(has_crlf(content));
        } else {
            assert(join_with(l.map_values(|x: Seq<char>| strip_cr(x)), ending_chars(spec_detect(content)))
                == strip_cr(l[0]));
        }
    }
}

/// Without any separator, the split has one piece.
proof fn lemma_split_absent_one(s: Seq<char>)
    requires
        !s.contains('\n'),
    ensures
        split_on(s, '\n').len() == 1,
    decreases s.len(),
{
    if s.len() > 0 {
        let d = s.drop_last();
        assert(!d.contains('\n')) by {
            if d.contains('\n') {
                let k = choose|k: int| 0 <= k < d.len() && d[k] == '\n';
                assert(s[k] == '\n');
            }
        }
        lemma_split_absent_one(d);
        assert(s[s.len() - 1] != '\n') by {
            if s[s.len() - 1] == '\n' {
                assert(s.contains('\n'));
            }
        }
    }
}

/// A logical line never holds a line feed.
pub proof fn law_logical_lines_have_no_line_feed(content: Seq<char>)
    ensures
        forall|i: int, j: int|
            0 <= i < logical_lines(content).len() && 0 <= j < logical_lines(content)[i].len()
                ==> logical_lines(content)[i][j] != '\n',
{
    if content.len() > 0 {
        lemma_split_no_sep(content, '\n');
        lemma_split_len(content, '\n');
        let l = split_on(content, '\n');
        assert forall|i: int, j: int|
            0 <= i < logical_lines(content).len() && 0 <= j < logical_lines(content)[i].len()
            implies logical_lines(content)[i][j] != '\n' by {
            assert(logical_lines(content)[i] == strip_cr(l[i]));
            assert(strip_cr(l[i])[j] == l[i][j]);
        }
    }
}

} // verus!
