//! Character-level helpers on `str` / `String`, each with its mathematical model.

use vstd::prelude::*;
use vstd::string::StringSliceAdditionalSpecFns;
use vstd::utf8::{
    decode_utf8, encode_utf8, encode_utf8_decode_utf8, encode_utf8_valid_utf8, is_char_boundary,
    is_char_boundary_iff_not_is_continuation_byte, is_char_boundary_start_end_of_seq, valid_utf8,
    valid_utf8_split,
};

verus! {

/// Pieces of `s` between occurrences of `sep`, as `str::split(sep)` yields them.
/// There is always at least one piece; a trailing separator yields a final empty piece.
pub open spec fn split_on(s: Seq<char>, sep: char) -> Seq<Seq<char>>
    decreases s.len(),
{
    if s.len() == 0 {
        seq![Seq::<char>::empty()]
    } else {
        let prev = split_on(s.drop_last(), sep);
        if s.last() == sep {
            prev.push(Seq::<char>::empty())
        } else {
            prev.update(prev.len() - 1, prev.last().push(s.last()))
        }
    }
}

/// `lines[0] + sep + lines[1] + ... + sep + lines[n-1]`, as `[String]::join(sep)` builds it.
pub open spec fn join_with(lines: Seq<Seq<char>>, sep: Seq<char>) -> Seq<char>
    decreases lines.len(),
{
    if lines.len() == 0 {
        Seq::<char>::empty()
    } else if lines.len() == 1 {
        lines[0]
    } else {
        join_with(lines.drop_last(), sep) + sep + lines.last()
    }
}

/// The character model of each string of a sequence.
pub open spec fn views(v: Seq<String>) -> Seq<Seq<char>> {
    v.map_values(|s: String| s@)
}

/// `char::is_whitespace`: the Unicode `White_Space` property.
pub open spec fn is_ws(c: char) -> bool {
    ('\u{9}' <= c && c <= '\u{d}') || c == ' ' || c == '\u{85}' || c == '\u{a0}'
        || c == '\u{1680}' || ('\u{2000}' <= c && c <= '\u{200a}') || c == '\u{2028}'
        || c == '\u{2029}' || c == '\u{202f}' || c == '\u{205f}' || c == '\u{3000}'
}

/// Every character is whitespace (so `str::trim` leaves nothing).
pub open spec fn all_ws(s: Seq<char>) -> bool {
    forall|i: int| 0 <= i < s.len() ==> is_ws(#[trigger] s[i])
}

/// Number of leading whitespace characters.
pub open spec fn leading_ws(s: Seq<char>) -> nat
    decreases s.len(),
{
    if s.len() == 0 {
        0
    } else if is_ws(s[0]) {
        1 + leading_ws(s.drop_first())
    } else {
        0
    }
}

/// Number of trailing whitespace characters.
pub open spec fn trailing_ws(s: Seq<char>) -> nat
    decreases s.len(),
{
    if s.len() == 0 {
        0
    } else if is_ws(s.last()) {
        1 + trailing_ws(s.drop_last())
    } else {
        0
    }
}

/// `str::trim`: drop leading and trailing whitespace.
pub open spec fn trimmed(s: Seq<char>) -> Seq<char> {
    let a = leading_ws(s);
    let rest = s.skip(a as int);
    rest.take(rest.len() - trailing_ws(rest))
}

/// `str::strip_suffix('\r').unwrap_or(s)`.
pub open spec fn strip_cr(s: Seq<char>) -> Seq<char> {
    if s.len() > 0 && s.last() == '\r' {
        s.drop_last()
    } else {
        s
    }
}

/// Wrapper for `String::push`, which vstd does not specify: the character is appended.
#[verifier::external_body]
pub(crate) fn push_char(s: &mut String, c: char)
    ensures
        final(s)@ == old(s)@.push(c),
{
    s.push(c)
}

/// Characters of `s` as a vector.
pub fn chars_of(s: &str) -> (v: Vec<char>)
    ensures
        v@ == s@,
{
    let mut v: Vec<char> = Vec::new();
    for c in it: s.chars()
        invariant
            it.seq() == s@,
            v@ == s@.take(it.index() as int),
    {
        v.push(c);
        assert(s@.take(it.index() + 1) == s@.take(it.index() as int).push(c));
    }
    assert(s@.take(s@.len() as int) == s@);
    v
}

/// A `String` holding `v[from..to]`.
pub fn string_from_chars(v: &Vec<char>, from: usize, to: usize) -> (r: String)
    requires
        from <= to <= v.len(),
    ensures
        r@ == v@.subrange(from as int, to as int),
{
    let mut r = String::new();
    let mut i = from;
    while i < to
        invariant
            from <= i <= to <= v.len(),
            r@ == v@.subrange(from as int, i as int),
        decreases to - i,
    {
        push_char(&mut r, v[i]);
        assert(v@.subrange(from as int, i + 1) == v@.subrange(from as int, i as int).push(v@[i as int]));
        i = i + 1;
    }
    r
}

/// A fresh copy of `s`.
pub fn copy_string(s: &String) -> (r: String)
    ensures
        r@ == s@,
{
    s.as_str().to_owned()
}

/// Whether `p` is a prefix of `s`.
pub fn has_prefix(s: &str, p: &str) -> (b: bool)
    ensures
        b == p@.is_prefix_of(s@),
{
    let sv = chars_of(s);
    let pv = chars_of(p);
    if pv.len() > sv.len() {
        return false;
    }
    let mut i: usize = 0;
    while i < pv.len()
        invariant
            sv@ == s@,
            pv@ == p@,
            pv.len() <= sv.len(),
            i <= pv.len(),
            forall|j: int| 0 <= j < i ==> pv@[j] == sv@[j],
        decreases pv.len() - i,
    {
        if pv[i] != sv[i] {
            return false;
        }
        i = i + 1;
    }
    true
}

/// `char::is_whitespace`.
pub fn char_is_whitespace(c: char) -> (b: bool)
    ensures
        b == is_ws(c),
{
    ('\u{9}' <= c && c <= '\u{d}') || c == ' ' || c == '\u{85}' || c == '\u{a0}'
        || c == '\u{1680}' || ('\u{2000}' <= c && c <= '\u{200a}') || c == '\u{2028}'
        || c == '\u{2029}' || c == '\u{202f}' || c == '\u{205f}' || c == '\u{3000}'
}

/// `s.trim().is_empty()`: every character of `s` is whitespace.
pub fn is_blank(s: &str) -> (b: bool)
    ensures
        b == all_ws(s@),
{
    for c in it: s.chars()
        invariant
            it.seq() == s@,
            all_ws(s@.take(it.index() as int)),
    {
        if !char_is_whitespace(c) {
            assert(s@[it.index() as int] == c);
            return false;
        }
        assert(s@.take(it.index() + 1) == s@.take(it.index() as int).push(c));
    }
    assert(s@.take(s@.len() as int) == s@);
    true
}

/// The leading whitespace ends at the first character that is not whitespace.
proof fn lemma_leading_unique(s: Seq<char>, k: int)
    requires
        0 <= k <= s.len(),
        forall|i: int| 0 <= i < k ==> is_ws(#[trigger] s[i]),
        k < s.len() ==> !is_ws(s[k]),
    ensures
        leading_ws(s) == k,
    decreases s.len(),
{
    if k > 0 {
        assert(is_ws(s[0]));
        assert forall|i: int| 0 <= i < k - 1 implies is_ws(#[trigger] s.drop_first()[i]) by {
            assert(s.drop_first()[i] == s[i + 1]);
        }
        if k - 1 < s.len() - 1 {
            assert(s.drop_first()[k - 1] == s[k]);
        }
        lemma_leading_unique(s.drop_first(), k - 1);
    }
}

proof fn lemma_trailing_unique(s: Seq<char>, k: int)
    requires
        0 <= k <= s.len(),
        forall|i: int| s.len() - k <= i < s.len() ==> is_ws(#[trigger] s[i]),
        k < s.len() ==> !is_ws(s[s.len() - k - 1]),
    ensures
        trailing_ws(s) == k,
    decreases s.len(),
{
    if k > 0 {
        assert(is_ws(s[s.len() - 1]));
        let d = s.drop_last();
        assert forall|i: int| d.len() - (k - 1) <= i < d.len() implies is_ws(#[trigger] d[i]) by {
            assert(d[i] == s[i]);
        }
        if k - 1 < d.len() {
            assert(d[d.len() - (k - 1) - 1] == s[s.len() - k - 1]);
        }
        lemma_trailing_unique(d, k - 1);
    }
}

/// `str::trim`.
pub fn trim(s: &str) -> (r: String)
    ensures
        r@ == trimmed(s@),
{
    let v = chars_of(s);
    let n = v.len();
    let mut a: usize = 0;
    while a < n && char_is_whitespace(v[a])
        invariant
            v@ == s@,
            n == v.len(),
            a <= n,
            forall|i: int| 0 <= i < a ==> is_ws(#[trigger] v@[i]),
        decreases n - a,
    {
        a = a + 1;
    }
    proof {
        lemma_leading_unique(s@, a as int);
    }
    let mut b: usize = n;
    while b > a && char_is_whitespace(v[b - 1])
        invariant
            v@ == s@,
            n == v.len(),
            a <= b <= n,
            forall|i: int| b <= i < n ==> is_ws(#[trigger] v@[i]),
        decreases b,
    {
        b = b - 1;
    }
    proof {
        let rest = s@.skip(a as int);
        let k = (n - b) as int;
        assert forall|i: int| rest.len() - k <= i < rest.len() implies is_ws(#[trigger] rest[i]) by {
            assert(rest[i] == v@[i + a]);
        }
        if k < rest.len() {
            assert(rest[rest.len() - k - 1] == v@[b - 1]);
        }
        lemma_trailing_unique(rest, k);
        assert(rest.take(rest.len() - k) == v@.subrange(a as int, b as int));
    }
    string_from_chars(&v, a, b)
}

/// `strip_cr` on a string: `str::strip_suffix('\r').unwrap_or(s).to_owned()`.
pub fn strip_trailing_cr(s: &str) -> (r: String)
    ensures
        r@ == strip_cr(s@),
{
    let v = chars_of(s);
    let n = v.len();
    if n > 0 && v[n - 1] == '\r' {
        let r = string_from_chars(&v, 0, n - 1);
        assert(v@.subrange(0, n - 1) == s@.drop_last());
        r
    } else {
        let r = string_from_chars(&v, 0, n);
        assert(v@.subrange(0, n as int) == s@);
        r
    }
}

/// `String` concatenation of `a` and `b`.
pub fn concat(a: &str, b: &str) -> (r: String)
    ensures
        r@ == a@ + b@,
{
    let mut r = a.to_owned();
    r.append(b);
    r
}

/// Membership in a sequence extended by one element.
pub proof fn lemma_push_contains(s: Seq<char>, x: char, c: char)
    ensures
        s.push(x).contains(c) == (s.contains(c) || x == c),
{
    if s.push(x).contains(c) {
        let k = choose|k: int| 0 <= k < s.push(x).len() && s.push(x)[k] == c;
        if k < s.len() {
            assert(s[k] == c);
        }
    }
    if s.contains(c) {
        let k = choose|k: int| 0 <= k < s.len() && s[k] == c;
        assert(s.push(x)[k] == c);
    }
    if x == c {
        assert(s.push(x)[s.len() as int] == c);
    }
}

/// Whether `c` occurs in `s`.
pub fn has_char(s: &str, c: char) -> (b: bool)
    ensures
        b == s@.contains(c),
{
    for x in it: s.chars()
        invariant
            it.seq() == s@,
            !s@.take(it.index() as int).contains(c),
    {
        if x == c {
            assert(s@[it.index() as int] == c);
            return true;
        }
        proof {
            assert(s@.take(it.index() + 1) =~= s@.take(it.index() as int).push(x));
            lemma_push_contains(s@.take(it.index() as int), x, c);
        }
    }
    assert(s@.take(s@.len() as int) =~= s@);
    false
}

/// `str::len`: the length of the UTF-8 encoding.
pub fn byte_len(s: &str) -> (n: usize)
    ensures
        n == encode_utf8(s@).len(),
{
    s.as_bytes().len()
}

/// The bytes from a character boundary on are valid UTF-8, and a later boundary stays one in them.
pub(crate) proof fn lemma_suffix_boundary(bytes: Seq<u8>, a: int, b: int)
    requires
        valid_utf8(bytes),
        0 <= a <= b <= bytes.len(),
        is_char_boundary(bytes, a),
        is_char_boundary(bytes, b),
    ensures
        valid_utf8(bytes.subrange(a, bytes.len() as int)),
        is_char_boundary(bytes.subrange(a, bytes.len() as int), b - a),
{
    let r = bytes.subrange(a, bytes.len() as int);
    valid_utf8_split(bytes, a);
    if b == bytes.len() {
        is_char_boundary_start_end_of_seq(r);
    } else {
        is_char_boundary_iff_not_is_continuation_byte(bytes, b);
        assert(r[b - a] == bytes[b]);
        is_char_boundary_iff_not_is_continuation_byte(r, b - a);
    }
}

/// `&s[a..b]` by byte offsets; both offsets must fall on character boundaries.
pub fn byte_slice(s: &str, a: usize, b: usize) -> (r: &str)
    requires
        a <= b <= encode_utf8(s@).len(),
        is_char_boundary(encode_utf8(s@), a as int),
        is_char_boundary(encode_utf8(s@), b as int),
    ensures
        r@ == decode_utf8(encode_utf8(s@).subrange(a as int, b as int)),
{
    let ghost bytes = encode_utf8(s@);
    proof {
        encode_utf8_valid_utf8(s@);
        lemma_suffix_boundary(bytes, a as int, b as int);
    }
    let (_, rest) = s.split_at(a);
    assert(rest.spec_bytes() =~= bytes.subrange(a as int, bytes.len() as int));
    let (mid, _) = rest.split_at(b - a);
    proof {
        assert(mid.spec_bytes() =~= bytes.subrange(a as int, b as int));
        encode_utf8_decode_utf8(mid@);
    }
    mid
}

/// The decimal digit for `d < 10`.
pub open spec fn digit_char(d: nat) -> char {
    if d == 0 { '0' } else if d == 1 { '1' } else if d == 2 { '2' } else if d == 3 { '3' } else if d == 4 {
        '4'
    } else if d == 5 { '5' } else if d == 6 { '6' } else if d == 7 { '7' } else if d == 8 { '8' } else { '9' }
}

/// Decimal representation of `n`, as `Display` for unsigned integers prints it.
pub open spec fn decimal(n: nat) -> Seq<char>
    decreases n,
{
    if n < 10 {
        seq![digit_char(n)]
    } else {
        decimal(n / 10).push(digit_char(n % 10))
    }
}

fn digit(d: u64) -> (c: char)
    requires
        d < 10,
    ensures
        c == digit_char(d as nat),
{
    if d == 0 { '0' } else if d == 1 { '1' } else if d == 2 { '2' } else if d == 3 { '3' } else if d == 4 {
        '4'
    } else if d == 5 { '5' } else if d == 6 { '6' } else if d == 7 { '7' } else if d == 8 { '8' } else { '9' }
}

/// `n.to_string()`.
pub fn decimal_string(n: u64) -> (r: String)
    ensures
        r@ == decimal(n as nat),
    decreases n,
{
    if n < 10 {
        let mut r = String::new();
        push_char(&mut r, digit(n));
        r
    } else {
        let mut r = decimal_string(n / 10);
        push_char(&mut r, digit(n % 10));
        r
    }
}

/// Lower-case hexadecimal digit for `d < 16`.
pub open spec fn hex_char(d: nat) -> char {
    if d < 10 { digit_char(d) } else if d == 10 { 'a' } else if d == 11 { 'b' } else if d == 12 { 'c' } else if d == 13 {
        'd'
    } else if d == 14 { 'e' } else { 'f' }
}

/// The last `k` hexadecimal digits of `n`, zero-padded (`format!("{:0k$x}")` when `n < 16^k`).
pub open spec fn hex_digits(n: nat, k: nat) -> Seq<char>
    decreases k,
{
    if k == 0 {
        Seq::empty()
    } else {
        hex_digits(n / 16, (k - 1) as nat).push(hex_char(n % 16))
    }
}

fn hex_digit(d: u64) -> (c: char)
    requires
        d < 16,
    ensures
        c == hex_char(d as nat),
{
    if d < 10 { digit(d) } else if d == 10 { 'a' } else if d == 11 { 'b' } else if d == 12 { 'c' } else if d == 13 {
        'd'
    } else if d == 14 { 'e' } else { 'f' }
}

/// `format!("{:016x}", n)`.
pub fn hex16(n: u64) -> (r: String)
    ensures
        r@ == hex_digits(n as nat, 16),
{
    hex_tail(n, 16)
}

fn hex_tail(n: u64, k: u64) -> (r: String)
    ensures
        r@ == hex_digits(n as nat, k as nat),
    decreases k,
{
    if k == 0 {
        String::new()
    } else {
        let mut r = hex_tail(n / 16, k - 1);
        push_char(&mut r, hex_digit(n % 16));
        r
    }
}

// ---- split / join ----------------------------------------------------------

pub proof fn lemma_split_len(s: Seq<char>, sep: char)
    ensures
        split_on(s, sep).len() >= 1,
    decreases s.len(),
{
    if s.len() > 0 {
        lemma_split_len(s.drop_last(), sep);
    }
}

/// The last piece of the split is empty exactly when `s` is empty or ends with `sep`;
/// otherwise it ends with the last character of `s`.
pub proof fn lemma_split_last(s: Seq<char>, sep: char)
    ensures
        (s.len() == 0 || s.last() == sep) ==> split_on(s, sep).last().len() == 0,
        (s.len() > 0 && s.last() != sep) ==> split_on(s, sep).last().len() > 0
            && split_on(s, sep).last().last() == s.last(),
    decreases s.len(),
{
    lemma_split_len(s, sep);
    if s.len() > 0 {
        lemma_split_len(s.drop_last(), sep);
    }
}

/// No piece contains the separator.
pub proof fn lemma_split_no_sep(s: Seq<char>, sep: char)
    ensures
        forall|i: int, j: int|
            0 <= i < split_on(s, sep).len() && 0 <= j < split_on(s, sep)[i].len()
                ==> split_on(s, sep)[i][j] != sep,
    decreases s.len(),
{
    lemma_split_len(s, sep);
    if s.len() > 0 {
        lemma_split_no_sep(s.drop_last(), sep);
        lemma_split_len(s.drop_last(), sep);
        let prev = split_on(s.drop_last(), sep);
        if s.last() != sep {
            let l = prev.last().push(s.last());
            assert forall|j: int| 0 <= j < l.len() implies l[j] != sep by {
                if j < l.len() - 1 {
                    assert(l[j] == prev[prev.len() - 1][j]);
                }
            }
        }
    }
}

/// Characters absent from `s` are absent from every piece.
pub proof fn lemma_split_absent(s: Seq<char>, sep: char, c: char)
    requires
        !s.contains(c),
    ensures
        forall|i: int| 0 <= i < split_on(s, sep).len() ==> !(#[trigger] split_on(s, sep)[i]).contains(c),
    decreases s.len(),
{
    lemma_split_len(s, sep);
    if s.len() > 0 {
        let d = s.drop_last();
        assert(!d.contains(c)) by {
            if d.contains(c) {
                let k = choose|k: int| 0 <= k < d.len() && d[k] == c;
                assert(s[k] == c);
            }
        }
        lemma_split_absent(d, sep, c);
        lemma_split_len(d, sep);
        let prev = split_on(d, sep);
        if s.last() != sep {
            let l = prev.last().push(s.last());
            assert(!l.contains(c)) by {
                if l.contains(c) {
                    let k = choose|k: int| 0 <= k < l.len() && l[k] == c;
                    if k < l.len() - 1 {
                        assert(prev[prev.len() - 1][k] == c);
                        assert(prev[prev.len() - 1].contains(c));
                    } else {
                        assert(s[s.len() - 1] == c);
                    }
                }
            }
        }
    }
}

/// Joining the pieces with the separator gives back the text.
pub proof fn lemma_join_split(s: Seq<char>, sep: char)
    ensures
        join_with(split_on(s, sep), seq![sep]) == s,
    decreases s.len(),
{
    if s.len() > 0 {
        let d = s.drop_last();
        let prev = split_on(d, sep);
        lemma_join_split(d, sep);
        lemma_split_len(d, sep);
        if s.last() == sep {
            let cur = prev.push(Seq::<char>::empty());
            assert(cur.drop_last() == prev);
            assert(join_with(cur, seq![sep]) == join_with(prev, seq![sep]) + seq![sep] + Seq::<char>::empty());
            assert(s == d.push(sep));
        } else {
            let cur = prev.update(prev.len() - 1, prev.last().push(s.last()));
            if prev.len() == 1 {
                assert(s == d.push(s.last()));
            } else {
                assert(cur.drop_last() == prev.drop_last());
                assert(join_with(prev, seq![sep]) == join_with(prev.drop_last(), seq![sep]) + seq![sep] + prev.last());
                assert(join_with(cur, seq![sep]) == join_with(prev.drop_last(), seq![sep]) + seq![sep] + prev.last().push(s.last()));
                assert(s == d.push(s.last()));
            }
        }
    }
}

} // verus!
