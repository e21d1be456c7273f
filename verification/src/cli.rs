//! Command line: `[--difft PATH] <file-a> <file-b> [<file-c>]`.

use vstd::prelude::*;
use crate::text::{byte_len, chars_of, copy_string, decimal, decimal_string, has_prefix, string_from_chars, views};

verus! {

/// Parsed command line.
#[derive(Debug, Clone)]
pub struct CliArgs {
    pub path_a: String,
    pub path_b: String,
    pub path_c: Option<String>,
    pub difft: Option<String>,
}

pub open spec fn usage_text() -> Seq<char> {
    "Usage: difft-file-viewer [--difft PATH] <file-a> <file-b> [<file-c>]\n\
     \n\
     Options:\n\
       --difft PATH   Path to the difft binary (overrides DIFT_PATH and auto-discovery)\n\
       -h, --help     Show this help"@
}

pub fn usage() -> (s: String)
    ensures
        s@ == usage_text(),
{
    "Usage: difft-file-viewer [--difft PATH] <file-a> <file-b> [<file-c>]\n\
     \n\
     Options:\n\
       --difft PATH   Path to the difft binary (overrides DIFT_PATH and auto-discovery)\n\
       -h, --help     Show this help"
        .to_owned()
}

/// Error for a wrong number of paths.
pub open spec fn usage_error_text(got: nat) -> Seq<char> {
    let detail = if got == 0 {
        "at least two file paths are required."@
    } else if got == 1 {
        "at least two file paths are required (got 1)."@
    } else {
        "expected 2 or 3 file paths (got "@ + decimal(got) + ")."@
    };
    usage_text() + "\n\nError: "@ + detail
}

pub fn cli_usage_error(got: usize) -> (s: String)
    ensures
        s@ == usage_error_text(got as nat),
{
    let mut s = usage();
    s.append("\n\nError: ");
    if got == 0 {
        s.append("at least two file paths are required.");
    } else if got == 1 {
        s.append("at least two file paths are required (got 1).");
    } else {
        s.append("expected 2 or 3 file paths (got ");
        s.append(decimal_string(got as u64).as_str());
        s.append(").");
    }
    s
}

/// `s.trim_start_matches(p)`: strip `p` from the front as often as it occurs there.
pub open spec fn trim_start_all(s: Seq<char>, p: Seq<char>) -> Seq<char>
    decreases s.len(),
{
    if p.len() > 0 && p.is_prefix_of(s) {
        trim_start_all(s.skip(p.len() as int), p)
    } else {
        s
    }
}

pub open spec fn difft_requires_path() -> Seq<char> {
    "--difft requires a path.\n\n"@ + usage_text()
}

/// Parsed command line as plain values: paths A, B, optional C, optional difft.
pub type CliView = (Seq<char>, Seq<char>, Option<Seq<char>>, Option<Seq<char>>);

/// Result of reading arguments `i..` with the difft path and the file paths seen so far.
pub open spec fn parse_from(
    args: Seq<Seq<char>>,
    i: int,
    difft: Option<Seq<char>>,
    paths: Seq<Seq<char>>,
) -> Result<CliView, Seq<char>>
    decreases args.len() - i,
{
    if i < 0 || i >= args.len() {
        if paths.len() == 2 {
            Ok((paths[0], paths[1], None, difft))
        } else if paths.len() == 3 {
            Ok((paths[0], paths[1], Some(paths[2]), difft))
        } else {
            Err(usage_error_text(paths.len()))
        }
    } else {
        let key = args[i];
        if key == "--help"@ || key == "-h"@ {
            Err(usage_text())
        } else if key == "--difft"@ {
            if i + 1 < args.len() {
                parse_from(args, i + 2, Some(args[i + 1]), paths)
            } else {
                Err(difft_requires_path())
            }
        } else if "--difft="@.is_prefix_of(key) {
            let path = trim_start_all(key, "--difft="@);
            if path.len() == 0 {
                Err(difft_requires_path())
            } else {
                parse_from(args, i + 1, Some(path), paths)
            }
        } else if "-"@.is_prefix_of(key) {
            Err("unknown option: "@ + key + "\n\n"@ + usage_text())
        } else {
            parse_from(args, i + 1, difft, paths.push(key))
        }
    }
}

pub open spec fn cli_view(a: CliArgs) -> CliView {
    (
        a.path_a@,
        a.path_b@,
        match a.path_c {
            Some(c) => Some(c@),
            None => None,
        },
        match a.difft {
            Some(d) => Some(d@),
            None => None,
        },
    )
}

fn str_eq(a: &str, b: &str) -> (r: bool)
    ensures
        r == (a@ == b@),
{
    let av = chars_of(a);
    let bv = chars_of(b);
    if av.len() != bv.len() {
        return false;
    }
    let mut i: usize = 0;
    while i < av.len()
        invariant
            av@ == a@,
            bv@ == b@,
            av.len() == bv.len(),
            i <= av.len(),
            forall|k: int| 0 <= k < i ==> av@[k] == bv@[k],
        decreases av.len() - i,
    {
        if av[i] != bv[i] {
            return false;
        }
        i = i + 1;
    }
    assert(av@ =~= bv@);
    true
}

/// `s.trim_start_matches(p)`.
pub fn trim_start_matches(s: &str, p: &str) -> (r: String)
    ensures
        r@ == trim_start_all(s@, p@),
{
    let sv = chars_of(s);
    let pv = chars_of(p);
    let n = sv.len();
    let k = pv.len();
    let mut i: usize = 0;
    if k == 0 {
        return string_from_chars(&sv, 0, n);
    }
    assert(s@.skip(0) =~= s@);
    while k <= n - i && has_prefix_at(&sv, i, &pv)
        invariant
            sv@ == s@,
            pv@ == p@,
            n == sv.len(),
            k == pv.len(),
            k > 0,
            i <= n,
            trim_start_all(s@, p@) == trim_start_all(s@.skip(i as int), p@),
        decreases n - i,
    {
        proof {
            let t = s@.skip(i as int);
            assert(p@.is_prefix_of(t)) by {
                assert forall|j: int| 0 <= j < p@.len() implies p@[j] == t[j] by {}
            }
            assert(t.skip(k as int) =~= s@.skip(i + k));
        }
        i = i + k;
    }
    proof {
        let t = s@.skip(i as int);
        if p@.is_prefix_of(t) {
            assert(i + k <= n);
        }
        assert(sv@.subrange(i as int, n as int) =~= t);
    }
    string_from_chars(&sv, i, n)
}

fn has_prefix_at(sv: &Vec<char>, i: usize, pv: &Vec<char>) -> (b: bool)
    requires
        i + pv.len() <= sv.len(),
    ensures
        b == forall|j: int| 0 <= j < pv@.len() ==> pv@[j] == sv@[i + j],
{
    let mut j: usize = 0;
    while j < pv.len()
        invariant
            i + pv.len() <= sv.len(),
            j <= pv.len(),
            forall|q: int| 0 <= q < j ==> pv@[q] == sv@[i + q],
        decreases pv.len() - j,
    {
        if pv[j] != sv[i + j] {
            return false;
        }
        j = j + 1;
    }
    true
}

/// Parse the arguments after the program name.
pub fn parse_cli_args(args: &[String]) -> (r: Result<CliArgs, String>)
    ensures
        match parse_from(views(args@), 0, None, Seq::empty()) {
            Ok(v) => r matches Ok(a) && cli_view(a) == v,
            Err(e) => r matches Err(m) && m@ == e,
        },
{
    let mut difft: Option<String> = None;
    let mut paths: Vec<String> = Vec::new();
    assert(views(paths@) =~= Seq::<Seq<char>>::empty());
    let n = args.len();
    let mut i: usize = 0;
    while i < n
        invariant
            n == args@.len(),
            i <= n,
            parse_from(views(args@), 0, None, Seq::empty()) == parse_from(
                views(args@),
                i as int,
                match difft {
                    Some(d) => Some(d@),
                    None => None,
                },
                views(paths@),
            ),
        decreases n - i,
    {
        let key = args[i].as_str();
        assert(views(args@)[i as int] == key@);
        if str_eq(key, "--help") || str_eq(key, "-h") {
            return Err(usage());
        }
        if str_eq(key, "--difft") {
            if i + 1 < n {
                assert(views(args@)[i + 1] == args@[i + 1]@);
                difft = Some(copy_string(&args[i + 1]));
                i = i + 2;
                continue;
            }
            let mut m = "--difft requires a path.\n\n".to_owned();
            m.append(usage().as_str());
            return Err(m);
        }
        if has_prefix(key, "--difft=") {
            let path = trim_start_matches(key, "--difft=");
            if path.as_str().is_empty() {
                let mut m = "--difft requires a path.\n\n".to_owned();
                m.append(usage().as_str());
                return Err(m);
            }
            difft = Some(path);
            i = i + 1;
            continue;
        }
        if has_prefix(key, "-") {
            let mut m = "unknown option: ".to_owned();
            m.append(key);
            m.append("\n\n");
            m.append(usage().as_str());
            return Err(m);
        }
        let ghost before = paths@;
        paths.push(copy_string(&args[i]));
        assert(views(paths@) =~= views(before).push(key@));
        i = i + 1;
    }
    let count = paths.len();
    if count == 2 {
        let b = paths.pop().unwrap();
        let a = paths.pop().unwrap();
        Ok(CliArgs { path_a: a, path_b: b, path_c: None, difft })
    } else if count == 3 {
        let c = paths.pop().unwrap();
        let b = paths.pop().unwrap();
        let a = paths.pop().unwrap();
        Ok(CliArgs { path_a: a, path_b: b, path_c: Some(c), difft })
    } else {
        Err(cli_usage_error(count))
    }
}

/// Two paths open two panes, three open three; the paths keep their command-line order.
pub proof fn law_paths_in_order(a: Seq<char>, b: Seq<char>, c: Seq<char>)
    requires
        !("-"@.is_prefix_of(a)),
        !("-"@.is_prefix_of(b)),
        !("-"@.is_prefix_of(c)),
    ensures
        parse_from(seq![a, b], 0, None, Seq::empty()) == Ok::<CliView, Seq<char>>((a, b, None, None)),
        parse_from(seq![a, b, c], 0, None, Seq::empty()) == Ok::<CliView, Seq<char>>((a, b, Some(c), None)),
{
    lemma_not_option(a);
    lemma_not_option(b);
    lemma_not_option(c);
    reveal_with_fuel(parse_from, 5);
    let e = Seq::<Seq<char>>::empty();
    assert(e.push(a).push(b) =~= seq![a, b]);
    assert(e.push(a).push(b).push(c) =~= seq![a, b, c]);
    assert(seq![a, b][0] == a && seq![a, b][1] == b);
    assert(seq![a, b, c][0] == a && seq![a, b, c][1] == b && seq![a, b, c][2] == c);
}

/// An argument that does not start with `-` is none of the options.
proof fn lemma_not_option(a: Seq<char>)
    requires
        !("-"@.is_prefix_of(a)),
    ensures
        a != "--help"@,
        a != "-h"@,
        a != "--difft"@,
        !("--difft="@.is_prefix_of(a)),
{
    reveal_strlit("-");
    reveal_strlit("--help");
    reveal_strlit("-h");
    reveal_strlit("--difft");
    reveal_strlit("--difft=");
    if a.len() > 0 {
        assert(a[0] != '-');
    }
}

} // verus!
