//! Locating `difft`: binary names, path variants and the messages shown when it is missing.

use vstd::prelude::*;
use crate::paths::{has_extension, path_ext, plain_path};
use crate::text::{copy_string, views};
use crate::model::opt_view;

verus! {

#[derive(Debug, Clone, Copy, PartialEq, Eq, Structural)]
pub enum Platform {
    Windows,
    MacOs,
    Other,
}

pub open spec fn binary_name(p: Platform) -> Seq<char> {
    if p == Platform::Windows { "difft.exe"@ } else { "difft"@ }
}

pub fn difft_binary_name(platform: Platform) -> (s: &'static str)
    ensures
        s@ == binary_name(platform),
{
    if platform == Platform::Windows {
        "difft.exe"
    } else {
        "difft"
    }
}

pub const VERIFY_STEP: &'static str = "\nVerification:\n  difft --version";

pub open spec fn install_text(p: Platform) -> Seq<char> {
    match p {
        Platform::MacOs => "Install difft:\n\
             \n\
              brew install difftastic"@ + VERIFY_STEP@ + "\n\
             \n\
             Or build the sibling clone in this repo:\n\
              cargo build --manifest-path difftastic/Cargo.toml\n\
              difft-file-viewer --difft difftastic/target/debug/difft file-a file-b\n\
             \n\
             Or set DIFT_PATH to the full path of an existing difft binary."@,
        Platform::Windows => "Install difft (pick one):\n\
             \n\
              scoop install difftastic\n\
              winget install Wilfred.difftastic\n\
              choco install difftastic"@ + VERIFY_STEP@ + "\n\
             \n\
             Or build the sibling clone in this repo:\n\
              cargo build --manifest-path difftastic/Cargo.toml\n\
              difft-file-viewer --difft difftastic\\target\\debug\\difft.exe file-a file-b\n\
             \n\
             Or set DIFT_PATH to the full path of an existing difft.exe."@,
        Platform::Other => "Install difft (pick one that matches your system):\n\
             \n\
              sudo pacman -S difftastic        # Arch Linux\n\
              nix-env --install difftastic     # Nix\n\
              sudo dnf install difftastic      # Fedora\n\
              sudo pkg install difftastic      # FreeBSD"@ + VERIFY_STEP@ + "\n\
             \n\
             Or build the sibling clone in this repo:\n\
              cargo build --manifest-path difftastic/Cargo.toml\n\
              difft-file-viewer --difft difftastic/target/debug/difft file-a file-b\n\
             \n\
             Or set DIFT_PATH to the full path of an existing difft binary."@,
    }
}

/// How to install or point to `difft` on the platform.
pub fn install_message(platform: Platform) -> (s: String)
    ensures
        s@ == install_text(platform),
{
    match platform {
        Platform::MacOs => {
            let mut s = "Install difft:\n\
             \n\
              brew install difftastic".to_owned();
            s.append(VERIFY_STEP);
            s.append("\n\
             \n\
             Or build the sibling clone in this repo:\n\
              cargo build --manifest-path difftastic/Cargo.toml\n\
              difft-file-viewer --difft difftastic/target/debug/difft file-a file-b\n\
             \n\
             Or set DIFT_PATH to the full path of an existing difft binary.");
            s
        },
        Platform::Windows => {
            let mut s = "Install difft (pick one):\n\
             \n\
              scoop install difftastic\n\
              winget install Wilfred.difftastic\n\
              choco install difftastic".to_owned();
            s.append(VERIFY_STEP);
            s.append("\n\
             \n\
             Or build the sibling clone in this repo:\n\
              cargo build --manifest-path difftastic/Cargo.toml\n\
              difft-file-viewer --difft difftastic\\target\\debug\\difft.exe file-a file-b\n\
             \n\
             Or set DIFT_PATH to the full path of an existing difft.exe.");
            s
        },
        Platform::Other => {
            let mut s = "Install difft (pick one that matches your system):\n\
             \n\
              sudo pacman -S difftastic        # Arch Linux\n\
              nix-env --install difftastic     # Nix\n\
              sudo dnf install difftastic      # Fedora\n\
              sudo pkg install difftastic      # FreeBSD".to_owned();
            s.append(VERIFY_STEP);
            s.append("\n\
             \n\
             Or build the sibling clone in this repo:\n\
              cargo build --manifest-path difftastic/Cargo.toml\n\
              difft-file-viewer --difft difftastic/target/debug/difft file-a file-b\n\
             \n\
             Or set DIFT_PATH to the full path of an existing difft binary.");
            s
        },
    }
}

/// `--difft` given but none of its variants runs.
pub open spec fn explicit_error_text(path: Seq<char>, p: Platform) -> Seq<char> {
    "--difft does not point to a working difft binary: "@ + path + "\n\n"@ + install_text(p)
}

/// `DIFT_PATH` set but none of its variants runs.
pub open spec fn dift_path_error_text(path: Seq<char>, p: Platform) -> Seq<char> {
    "DIFT_PATH does not point to a working difft binary: "@ + path + "\n\n"@ + install_text(p)
}

pub open spec fn not_found_text(p: Platform) -> Seq<char> {
    "difft not found.\n\n"@ + install_text(p)
}

pub fn explicit_difft_error(path: &str, platform: Platform) -> (s: String)
    ensures
        s@ == explicit_error_text(path@, platform),
{
    let mut s = "--difft does not point to a working difft binary: ".to_owned();
    s.append(path);
    s.append("\n\n");
    s.append(install_message(platform).as_str());
    s
}

pub fn dift_path_error(path: &str, platform: Platform) -> (s: String)
    ensures
        s@ == dift_path_error_text(path@, platform),
{
    let mut s = "DIFT_PATH does not point to a working difft binary: ".to_owned();
    s.append(path);
    s.append("\n\n");
    s.append(install_message(platform).as_str());
    s
}

pub fn difft_not_found(platform: Platform) -> (s: String)
    ensures
        s@ == not_found_text(platform),
{
    let mut s = "difft not found.\n\n".to_owned();
    s.append(install_message(platform).as_str());
    s
}

/// What holds of the variants of `p` on every platform: `p` itself, then `p` with the suffix
/// where executables carry one and `p` has no extension (a path without a dot never has one).
pub open spec fn variants_ok(p: Seq<char>, suffix: Seq<char>, v: Seq<Seq<char>>) -> bool {
    &&& v == seq![p] || v == seq![p, p + suffix]
    &&& suffix.len() == 0 ==> v == seq![p]
    &&& suffix.len() > 0 && !p.contains('.') ==> v == seq![p, p + suffix]
    &&& suffix.len() > 0 && plain_path(p) ==> (v.len() == 1 <==> path_ext(p) is Some)
}

/// The variants of a plain path.
pub open spec fn variants_of(p: Seq<char>, suffix: Seq<char>) -> Seq<Seq<char>> {
    if suffix.len() == 0 || path_ext(p) is Some { seq![p] } else { seq![p, p + suffix] }
}

/// The paths tried for a user-given difft path: the path itself, then, where executables
/// carry a suffix and the path has no extension, the path with the suffix.
pub fn difft_path_variants(path: &str, exe_suffix: &str) -> (r: Vec<String>)
    ensures
        variants_ok(path@, exe_suffix@, views(r@)),
        plain_path(path@) ==> views(r@) == variants_of(path@, exe_suffix@),
{
    let mut paths: Vec<String> = Vec::new();
    paths.push(path.to_owned());
    if exe_suffix.is_empty() || has_extension(path) {
        assert(views(paths@) =~= seq![path@]);
        return paths;
    }
    let mut with_suffix = path.to_owned();
    with_suffix.append(exe_suffix);
    paths.push(with_suffix);
    assert(views(paths@) =~= seq![path@, path@ + exe_suffix@]);
    paths
}

/// The first of the candidates `v` found to work (`works[i]` for candidate `i`).
pub open spec fn first_working_of(v: Seq<Seq<char>>, works: Seq<bool>) -> Option<Seq<char>> {
    let n = if works.len() < v.len() { works.len() } else { v.len() };
    match first_true(works.take(n as int)) {
        Some(i) => Some(v[i]),
        None => None,
    }
}

/// Outcome of `--difft p` with variants `v`: the first that works, else the error naming `p`.
pub open spec fn resolved(v: Seq<Seq<char>>, works: Seq<bool>, p: Seq<char>, platform: Platform) -> Result<Seq<char>, Seq<char>> {
    match first_working_of(v, works) {
        Some(q) => Ok(q),
        None => Err(explicit_error_text(p, platform)),
    }
}

pub open spec fn result_view(r: Result<String, String>) -> Result<Seq<char>, Seq<char>> {
    match r {
        Ok(s) => Ok(s@),
        Err(e) => Err(e@),
    }
}

/// Outcome of an explicit `--difft PATH`: the first of its variants that works, else the error
/// naming the path. `works[i]` tells whether variant `i` of `difft_path_variants` was found to
/// run (they are tried in order, so `works` may stop at the first that does).
pub fn resolve_difft(explicit: &str, exe_suffix: &str, works: &[bool], platform: Platform) -> (r: Result<String, String>)
    ensures
        exists|v: Seq<Seq<char>>| variants_ok(explicit@, exe_suffix@, v)
            && result_view(r) == resolved(v, works@, explicit@, platform),
        plain_path(explicit@) ==> result_view(r)
            == resolved(variants_of(explicit@, exe_suffix@), works@, explicit@, platform),
{
    let v = difft_path_variants(explicit, exe_suffix);
    let r = match first_working(v.as_slice(), works) {
        Some(q) => Ok(q),
        None => Err(explicit_difft_error(explicit, platform)),
    };
    assert(variants_ok(explicit@, exe_suffix@, views(v@)) && result_view(r) == resolved(views(v@), works@, explicit@, platform));
    r
}

/// Index of the first `true`, if any.
pub open spec fn first_true(w: Seq<bool>) -> Option<int>
    decreases w.len(),
{
    if w.len() == 0 {
        None
    } else {
        match first_true(w.drop_last()) {
            Some(i) => Some(i),
            None => if w.last() { Some(w.len() - 1) } else { None },
        }
    }
}

/// The first candidate that works: `works[i]` tells whether candidate `i` was found to run
/// (candidates are tried in order, so `works` may stop at the first one that does).
pub fn first_working(candidates: &[String], works: &[bool]) -> (r: Option<String>)
    ensures
        ({
            let n = if works@.len() < candidates@.len() { works@.len() } else { candidates@.len() };
            match first_true(works@.take(n as int)) {
                Some(i) => r matches Some(c) && c@ == candidates@[i]@,
                None => r is None,
            }
        }),
        opt_view(r) == first_working_of(views(candidates@), works@),
{
    let n = if works.len() < candidates.len() { works.len() } else { candidates.len() };
    let mut i: usize = 0;
    while i < n
        invariant
            n == (if works@.len() < candidates@.len() { works@.len() } else { candidates@.len() }),
            i <= n,
            first_true(works@.take(i as int)) is None,
        decreases n - i,
    {
        proof {
            assert(works@.take(i + 1).drop_last() =~= works@.take(i as int));
        }
        if works[i] {
            proof {
                assert(works@.take(i + 1).last() == works@[i as int]);
                assert(first_true(works@.take(i + 1)) == Some(i as int));
                assert(works@.take(n as int).take(i + 1) =~= works@.take(i + 1));
                lemma_first_true_prefix(works@.take(n as int), i as int + 1);
            }
            return Some(copy_string(&candidates[i]));
        }
        i = i + 1;
    }
    None
}

/// The first `true` of a sequence is the first `true` of any prefix that holds one.
proof fn lemma_first_true_prefix(w: Seq<bool>, k: int)
    requires
        0 <= k <= w.len(),
        first_true(w.take(k)) is Some,
    ensures
        first_true(w) == first_true(w.take(k)),
    decreases w.len(),
{
    if k < w.len() {
        assert(w.drop_last().take(k) =~= w.take(k));
        lemma_first_true_prefix(w.drop_last(), k);
    } else {
        assert(w.take(k) =~= w);
    }
}

} // verus!
