//! File name extensions and C/C++ source detection.

use vstd::prelude::*;
use crate::model::opt_view;
use crate::text::split_on;

verus! {

/// `".x"` occurs in `path` and `x` holds no dot and no slash: what every extension satisfies.
pub open spec fn extension_fits(path: Seq<char>, ext: Seq<char>) -> bool {
    &&& !ext.contains('.')
    &&& !ext.contains('/')
    &&& exists|i: int| 0 <= i && i + ext.len() + 1 <= path.len() && path[i] == '.'
        && #[trigger] path.subrange(i + 1, i + 1 + ext.len()) == ext
}

/// A path whose parts mean the same on every platform: no `\\`, no `:` (no drive or other
/// prefix), and not starting with `//` (a network share on some platforms). Its separator is `/`.
pub open spec fn plain_path(p: Seq<char>) -> bool {
    &&& !p.contains('\\')
    &&& !p.contains(':')
    &&& !("//"@.is_prefix_of(p))
}

/// The last named component of the `/`-separated pieces: empty pieces and `.` are skipped,
/// and a final `..` names nothing.
pub open spec fn last_named(pieces: Seq<Seq<char>>) -> Option<Seq<char>>
    decreases pieces.len(),
{
    if pieces.len() == 0 {
        None
    } else if pieces.last().len() == 0 || pieces.last() == "."@ {
        last_named(pieces.drop_last())
    } else if pieces.last() == ".."@ {
        None
    } else {
        Some(pieces.last())
    }
}

/// `Path::file_name` of a plain path: its last component, when that is a name.
pub open spec fn file_name_of(p: Seq<char>) -> Option<Seq<char>> {
    last_named(split_on(p, '/'))
}

/// Index of the last `.` in `p`, or -1.
pub open spec fn last_dot(p: Seq<char>) -> int
    decreases p.len(),
{
    if p.len() == 0 {
        -1
    } else if p.last() == '.' {
        p.len() - 1
    } else {
        last_dot(p.drop_last())
    }
}

/// Extension of a file name: the text after its last dot, unless that dot is the first
/// character (a hidden file such as `.bashrc` has none).
pub open spec fn name_extension(p: Seq<char>) -> Option<Seq<char>> {
    if last_dot(p) > 0 {
        Some(p.subrange(last_dot(p) + 1, p.len() as int))
    } else {
        None
    }
}

/// `Path::extension` of a plain path: the extension of its file name.
pub open spec fn path_ext(p: Seq<char>) -> Option<Seq<char>> {
    match file_name_of(p) {
        Some(n) => name_extension(n),
        None => None,
    }
}

/// Wrapper for `Path::extension` (as UTF-8). What counts as a separator or a prefix depends
/// on the platform, so a path in general is stated only as far as it holds everywhere: an
/// extension is the text after a dot of the path, without dots or slashes, and a path without
/// a dot has none. For a plain path (separator `/` only) the documented rule is stated exactly:
/// the extension of the last component, as `Path::file_name` and `Path::extension` define it.
#[verifier::external_body]
fn path_extension(path: &str) -> (r: Option<String>)
    ensures
        r matches Some(e) ==> extension_fits(path@, e@),
        !path@.contains('.') ==> r is None,
        plain_path(path@) ==> opt_view(r) == path_ext(path@),
{
    std::path::Path::new(path).extension().and_then(|e| e.to_str()).map(|e| e.to_owned())
}

/// ASCII lower case of one character.
pub open spec fn lower(c: char) -> char {
    if 'A' <= c && c <= 'Z' { ((c as u32) + 32) as char } else { c }
}

pub open spec fn ascii_lower(s: Seq<char>) -> Seq<char> {
    s.map_values(|c: char| lower(c))
}

/// The extensions of C and C++ sources and headers.
pub open spec fn c_cpp_extension(lower_ext: Seq<char>) -> bool {
    lower_ext == "c"@ || lower_ext == "cc"@ || lower_ext == "cpp"@ || lower_ext == "cxx"@ || lower_ext == "c++"@
        || lower_ext == "h"@ || lower_ext == "hh"@ || lower_ext == "hpp"@ || lower_ext == "hxx"@ || lower_ext == "h++"@
}

fn lower_char(c: char) -> (r: char)
    ensures
        r == lower(c),
{
    if 'A' <= c && c <= 'Z' {
        let u = (c as u32) + 32;
        proof {
            assert(('a' as u32) <= u <= ('z' as u32));
        }
        char_from_ascii_code(u)
    } else {
        c
    }
}

fn char_from_ascii_code(u: u32) -> (c: char)
    requires
        ('a' as u32) <= u <= ('z' as u32),
    ensures
        c == u as char,
{
    let b = u as u8;
    b as char
}

fn eq_chars(a: &Vec<char>, lit: &str) -> (r: bool)
    ensures
        r == (a@ == lit@),
{
    let b = crate::text::chars_of(lit);
    if a.len() != b.len() {
        return false;
    }
    let mut i: usize = 0;
    while i < a.len()
        invariant
            b@ == lit@,
            a.len() == b.len(),
            i <= a.len(),
            forall|k: int| 0 <= k < i ==> a@[k] == b@[k],
        decreases a.len() - i,
    {
        if a[i] != b[i] {
            return false;
        }
        i = i + 1;
    }
    assert(a@ =~= b@);
    true
}

/// Whether an extension, compared ASCII-case-insensitively, is one of C/C++.
pub fn is_c_cpp_extension(ext: Option<&str>) -> (r: bool)
    ensures
        r == match ext {
            Some(e) => c_cpp_extension(ascii_lower(e@)),
            None => false,
        },
{
    let Some(e) = ext else {
        return false;
    };
    let chars = crate::text::chars_of(e);
    let mut low: Vec<char> = Vec::new();
    let mut i: usize = 0;
    while i < chars.len()
        invariant
            chars@ == e@,
            i <= chars.len(),
            low@ == ascii_lower(e@).take(i as int),
        decreases chars.len() - i,
    {
        low.push(lower_char(chars[i]));
        i = i + 1;
        assert(low@ =~= ascii_lower(e@).take(i as int));
    }
    assert(ascii_lower(e@).take(i as int) =~= ascii_lower(e@));
    eq_chars(&low, "c") || eq_chars(&low, "cc") || eq_chars(&low, "cpp") || eq_chars(&low, "cxx")
        || eq_chars(&low, "c++") || eq_chars(&low, "h") || eq_chars(&low, "hh") || eq_chars(&low, "hpp")
        || eq_chars(&low, "hxx") || eq_chars(&low, "h++")
}

/// A plain path whose extension is one of C/C++.
pub open spec fn c_cpp_path(p: Seq<char>) -> bool {
    match path_ext(p) {
        Some(e) => c_cpp_extension(ascii_lower(e)),
        None => false,
    }
}

/// Whether the path names a C/C++ source or header by its extension.
pub fn is_c_cpp_file(path: &str) -> (r: bool)
    ensures
        r ==> exists|e: Seq<char>| extension_fits(path@, e) && c_cpp_extension(ascii_lower(e)),
        !path@.contains('.') ==> !r,
        plain_path(path@) ==> r == c_cpp_path(path@),
{
    let ext = path_extension(path);
    match ext {
        Some(e) => is_c_cpp_extension(Some(e.as_str())),
        None => false,
    }
}

/// Whether the path has an extension (`Path::extension().is_some()`).
pub fn has_extension(path: &str) -> (b: bool)
    ensures
        b ==> exists|e: Seq<char>| extension_fits(path@, e),
        !path@.contains('.') ==> !b,
        plain_path(path@) ==> b == (path_ext(path@) is Some),
{
    match path_extension(path) {
        Some(_) => true,
        None => false,
    }
}

} // verus!
