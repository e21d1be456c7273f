//! Decisions of the optional clang-format pre-processing of C/C++ inputs: when to format,
//! the cache of formatted copies keyed by source, and the text handed to and read from
//! `clang-format`.

use vstd::prelude::*;
use crate::line_ending::{join_strings, LineEnding, join_lines, spec_join_lines};
use crate::paths::{c_cpp_path, is_c_cpp_file, plain_path};
use crate::text::{
    copy_string, hex16, hex_digits, is_ws, lemma_split_len, push_char, split_on, strip_cr, strip_trailing_cr,
    trim, trimmed, views, join_with,
};

verus! {

/// Bump when the clang-format invocation or cache layout changes (invalidates stale copies).
pub const FORMAT_CACHE_VERSION: u32 = 3;

#[derive(Debug, Clone, Copy, PartialEq, Eq, Structural)]
pub struct FileMtime {
    pub modified_secs: u64,
    pub modified_nanos: u32,
}

/// Cache of formatted copies: the config's modification time and, per cache key, the
/// modification time of the source the copy was made from.
pub struct FormatCache {
    pub version: u32,
    pub config: Option<FileMtime>,
    pub entries: Vec<(String, FileMtime)>,
}

pub open spec fn entries_view(e: Seq<(String, FileMtime)>) -> Seq<(Seq<char>, FileMtime)> {
    e.map_values(|p: (String, FileMtime)| (p.0@, p.1))
}

/// The modification time recorded for `key` (keys are distinct; see `keys_distinct`).
pub open spec fn lookup(e: Seq<(Seq<char>, FileMtime)>, key: Seq<char>) -> Option<FileMtime>
    decreases e.len(),
{
    if e.len() == 0 {
        None
    } else if e.last().0 == key {
        Some(e.last().1)
    } else {
        lookup(e.drop_last(), key)
    }
}

pub open spec fn keys_distinct(e: Seq<(Seq<char>, FileMtime)>) -> bool {
    forall|i: int, j: int| 0 <= i < j < e.len() ==> (#[trigger] e[i]).0 != (#[trigger] e[j]).0
}

/// Index of the last entry for `key`, or -1.
pub open spec fn last_index_of(e: Seq<(Seq<char>, FileMtime)>, key: Seq<char>) -> int
    decreases e.len(),
{
    if e.len() == 0 {
        -1
    } else if e.last().0 == key {
        e.len() - 1
    } else {
        last_index_of(e.drop_last(), key)
    }
}

/// The entries after recording `m` for `key`: the entry for `key` updated in place, or a new
/// entry at the end.
pub open spec fn recorded(e: Seq<(Seq<char>, FileMtime)>, key: Seq<char>, m: FileMtime) -> Seq<(Seq<char>, FileMtime)> {
    if last_index_of(e, key) >= 0 {
        e.update(last_index_of(e, key), (key, m))
    } else {
        e.push((key, m))
    }
}

pub open spec fn cache_wf(c: FormatCache) -> bool {
    keys_distinct(entries_view(c.entries@))
}

impl FormatCache {
    pub fn empty() -> (c: FormatCache)
        ensures
            c.version == FORMAT_CACHE_VERSION,
            c.config is None,
            c.entries@.len() == 0,
            cache_wf(c),
    {
        FormatCache { version: FORMAT_CACHE_VERSION, config: None, entries: Vec::new() }
    }

    /// A loaded cache of another version is replaced by an empty one; the flag says so
    /// (the formatted copies are then stale).
    pub fn checked_version(self) -> (r: (FormatCache, bool))
        ensures
            self.version == FORMAT_CACHE_VERSION ==> r.0 == self && !r.1,
            self.version != FORMAT_CACHE_VERSION ==> r.1 && r.0.version == FORMAT_CACHE_VERSION
                && r.0.config is None && r.0.entries@.len() == 0,
    {
        if self.version != FORMAT_CACHE_VERSION {
            (FormatCache::empty(), true)
        } else {
            (self, false)
        }
    }

    /// Record the config's modification time; a different one clears the entries.
    /// Returns whether the cache changed (the formatted copies are then stale).
    pub fn sync_config(&mut self, config_mtime: FileMtime) -> (changed: bool)
        ensures
            cache_wf(*old(self)) ==> cache_wf(*final(self)),
            final(self).version == old(self).version,
            final(self).config == Some(config_mtime),
            changed == (old(self).config != Some(config_mtime)),
            changed ==> final(self).entries@.len() == 0,
            !changed ==> final(self).entries@ == old(self).entries@,
    {
        if self.config != Some(config_mtime) {
            self.config = Some(config_mtime);
            self.entries = Vec::new();
            assert(entries_view(self.entries@) =~= Seq::<(Seq<char>, FileMtime)>::empty());
            true
        } else {
            false
        }
    }

    fn find(&self, key: &str) -> (r: Option<usize>)
        ensures
            match r {
                Some(i) => i < self.entries@.len() && self.entries@[i as int].0@ == key@
                    && lookup(entries_view(self.entries@), key@) == Some(self.entries@[i as int].1)
                    && forall|k: int| i < k < self.entries@.len() ==> (#[trigger] self.entries@[k]).0@ != key@,
                None => lookup(entries_view(self.entries@), key@) is None
                    && forall|k: int| 0 <= k < self.entries@.len() ==> (#[trigger] self.entries@[k]).0@ != key@,
            },
    {
        let ghost ev = entries_view(self.entries@);
        let mut i = self.entries.len();
        assert(ev.take(i as int) =~= ev);
        while i > 0
            invariant
                i <= self.entries@.len(),
                ev == entries_view(self.entries@),
                lookup(ev, key@) == lookup(ev.take(i as int), key@),
                forall|k: int| i <= k < self.entries@.len() ==> (#[trigger] self.entries@[k]).0@ != key@,
            decreases i,
        {
            proof {
                let t = ev.take(i as int);
                assert(t.drop_last() =~= ev.take(i - 1));
                assert(t.last() == (self.entries@[i - 1].0@, self.entries@[i - 1].1));
            }
            if str_equal(self.entries[i - 1].0.as_str(), key) {
                return Some(i - 1);
            }
            i = i - 1;
        }
        None
    }

    /// The copy for `key` is fresh: it was made from a source with this modification time.
    pub fn is_fresh(&self, key: &str, source_mtime: FileMtime) -> (b: bool)
        ensures
            b == (lookup(entries_view(self.entries@), key@) == Some(source_mtime)),
    {
        match self.find(key) {
            Some(i) => self.entries[i].1 == source_mtime,
            None => false,
        }
    }

    /// Record that the copy for `key` was made from a source with this modification time.
    pub fn record(&mut self, key: &str, source_mtime: FileMtime)
        ensures
            final(self).version == old(self).version,
            final(self).config == old(self).config,
            entries_view(final(self).entries@) == recorded(entries_view(old(self).entries@), key@, source_mtime),
    {
        let ghost old_ev = entries_view(self.entries@);
        match self.find(key) {
            Some(i) => {
                let k = copy_string(&self.entries[i].0);
                self.entries.set(i, (k, source_mtime));
                proof {
                    let ev = entries_view(self.entries@);
                    assert(ev =~= old_ev.update(i as int, (key@, source_mtime)));
                    assert forall|k: int| i < k < old_ev.len() implies (#[trigger] old_ev[k]).0 != key@ by {
                        assert(old_ev[k].0 == old(self).entries@[k].0@);
                    }
                    lemma_last_index(old_ev, key@, i as int);
                }
            },
            None => {
                self.entries.push((key.to_owned(), source_mtime));
                proof {
                    let ev = entries_view(self.entries@);
                    assert(ev =~= old_ev.push((key@, source_mtime)));
                    assert forall|k: int| 0 <= k < old_ev.len() implies (#[trigger] old_ev[k]).0 != key@ by {
                        assert(old_ev[k].0 == old(self).entries@[k].0@);
                    }
                    lemma_no_index(old_ev, key@);
                }
            },
        }
    }

    /// The cache as saved: the current version, the same config and entries.
    pub fn for_save(&self) -> (c: FormatCache)
        ensures
            c.version == FORMAT_CACHE_VERSION,
            c.config == self.config,
            entries_view(c.entries@) == entries_view(self.entries@),
    {
        let mut entries: Vec<(String, FileMtime)> = Vec::new();
        let mut i: usize = 0;
        while i < self.entries.len()
            invariant
                i <= self.entries@.len(),
                entries_view(entries@) == entries_view(self.entries@).take(i as int),
            decreases self.entries@.len() - i,
        {
            let ghost before = entries@;
            let k = copy_string(&self.entries[i].0);
            entries.push((k, self.entries[i].1));
            assert(entries_view(entries@) =~= entries_view(before).push((self.entries@[i as int].0@, self.entries@[i as int].1)));
            i = i + 1;
            assert(entries_view(entries@) =~= entries_view(self.entries@).take(i as int));
        }
        assert(entries_view(self.entries@).take(i as int) =~= entries_view(self.entries@));
        FormatCache { version: FORMAT_CACHE_VERSION, config: self.config, entries }
    }
}

proof fn lemma_lookup_update(e: Seq<(Seq<char>, FileMtime)>, i: int, key: Seq<char>, m: FileMtime)
    requires
        0 <= i < e.len(),
        e[i].0 == key,
        forall|k: int| i < k < e.len() ==> (#[trigger] e[k]).0 != key,
    ensures
        keys_distinct(e) ==> keys_distinct(e.update(i, (key, m))),
        lookup(e.update(i, (key, m)), key) == Some(m),
        forall|k: Seq<char>| k != key ==> #[trigger] lookup(e.update(i, (key, m)), k) == lookup(e, k),
    decreases e.len(),
{
    let u = e.update(i, (key, m));
    assert forall|a: int, b: int| 0 <= a < b < u.len() && keys_distinct(e) implies (#[trigger] u[a]).0 != (#[trigger] u[b]).0 by {
        assert(u[a].0 == e[a].0 && u[b].0 == e[b].0);
    }
    if i == e.len() - 1 {
        assert(u.drop_last() =~= e.drop_last());
        assert forall|k: Seq<char>| k != key implies #[trigger] lookup(u, k) == lookup(e, k) by {
            assert(u.last().0 == key);
        }
    } else {
        let d = e.drop_last();
        assert(u.drop_last() =~= d.update(i, (key, m)));
        assert(e.last().0 != key);
        assert forall|k: int| i < k < d.len() implies (#[trigger] d[k]).0 != key by {
            assert(d[k] == e[k]);
        }
        lemma_lookup_update(d, i, key, m);
        assert(u.last() == e.last());
        assert forall|k: Seq<char>| k != key implies #[trigger] lookup(u, k) == lookup(e, k) by {
            assert(lookup(d.update(i, (key, m)), k) == lookup(d, k));
        }
    }
}

proof fn lemma_last_index(e: Seq<(Seq<char>, FileMtime)>, key: Seq<char>, i: int)
    requires
        0 <= i < e.len(),
        e[i].0 == key,
        forall|k: int| i < k < e.len() ==> (#[trigger] e[k]).0 != key,
    ensures
        last_index_of(e, key) == i,
    decreases e.len(),
{
    if i < e.len() - 1 {
        assert(e.last().0 != key);
        assert forall|k: int| i < k < e.drop_last().len() implies (#[trigger] e.drop_last()[k]).0 != key by {
            assert(e.drop_last()[k] == e[k]);
        }
        lemma_last_index(e.drop_last(), key, i);
    }
}

proof fn lemma_no_index(e: Seq<(Seq<char>, FileMtime)>, key: Seq<char>)
    requires
        forall|k: int| 0 <= k < e.len() ==> (#[trigger] e[k]).0 != key,
    ensures
        last_index_of(e, key) == -1,
        lookup(e, key) is None,
    decreases e.len(),
{
    if e.len() > 0 {
        assert(e.last().0 != key);
        assert forall|k: int| 0 <= k < e.drop_last().len() implies (#[trigger] e.drop_last()[k]).0 != key by {
            assert(e.drop_last()[k] == e[k]);
        }
        lemma_no_index(e.drop_last(), key);
    }
}

proof fn lemma_last_index_props(e: Seq<(Seq<char>, FileMtime)>, key: Seq<char>)
    ensures
        -1 <= last_index_of(e, key) < e.len(),
        last_index_of(e, key) >= 0 ==> e[last_index_of(e, key)].0 == key,
        forall|k: int| last_index_of(e, key) < k < e.len() ==> (#[trigger] e[k]).0 != key,
    decreases e.len(),
{
    if e.len() > 0 && e.last().0 != key {
        lemma_last_index_props(e.drop_last(), key);
        assert forall|k: int| last_index_of(e, key) < k < e.len() implies (#[trigger] e[k]).0 != key by {
            if k < e.len() - 1 {
                assert(e.drop_last()[k] == e[k]);
            }
        }
    }
}

fn str_equal(a: &str, b: &str) -> (r: bool)
    ensures
        r == (a@ == b@),
{
    let av = crate::text::chars_of(a);
    let bv = crate::text::chars_of(b);
    if av.len() != bv.len() {
        return false;
    }
    let mut i: usize = 0;
    while i < av.len()
        invariant
            av@ == a@,
            bv@ == b@,
            av.len() == bv.len(),
            i <= av.len(),
            forall|k: int| 0 <= k < i ==> av@[k] == bv@[k],
        decreases av.len() - i,
    {
        if av[i] != bv[i] {
            return false;
        }
        i = i + 1;
    }
    assert(av@ =~= bv@);
    true
}

/// After recording a copy, it is fresh for that source time, other keys are unaffected, and
/// keys stay distinct.
pub proof fn law_record_then_fresh(e: Seq<(Seq<char>, FileMtime)>, key: Seq<char>, m: FileMtime, other: Seq<char>)
    requires
        other != key,
    ensures
        lookup(recorded(e, key, m), key) == Some(m),
        lookup(recorded(e, key, m), other) == lookup(e, other),
        keys_distinct(e) ==> keys_distinct(recorded(e, key, m)),
{
    lemma_last_index_props(e, key);
    let i = last_index_of(e, key);
    if i >= 0 {
        lemma_lookup_update(e, i, key, m);
    } else {
        let p = e.push((key, m));
        assert(p.drop_last() =~= e);
        if keys_distinct(e) {
            assert forall|a: int, b: int| 0 <= a < b < p.len() implies (#[trigger] p[a]).0 != (#[trigger] p[b]).0 by {
                if b == p.len() - 1 {
                    assert(p[a] == e[a]);
                }
            }
        }
    }
}

// ---- gates, names, texts ------------------------------------------------------

/// Formatting is enabled: a non-empty `./.clangformat` is present and `clang-format` runs.
pub fn formatting_enabled(config_present: bool, clang_format_available: bool) -> (b: bool)
    ensures
        b == (config_present && clang_format_available),
{
    config_present && clang_format_available
}

/// Whether quitting should format file C: formatting is enabled and file C is C/C++.
pub fn should_format_file_c(formatting_enabled: bool, path_c: &str) -> (b: bool)
    ensures
        !formatting_enabled ==> !b,
        !path_c@.contains('.') ==> !b,
        plain_path(path_c@) ==> b == (formatting_enabled && c_cpp_path(path_c@)),
{
    formatting_enabled && is_c_cpp_file(path_c)
}

/// What quitting does with file C, given `should_format` (what `should_format_file_c` answered
/// for file C) and whether the config is still present. `Ok(None)`: nothing, file C is left as
/// written. `Ok(Some(text))`: format it, handing clang-format `text` (the lines joined by `\n`).
/// `Err(..)`: formatting is due but the config has gone missing.
pub fn spawn_detached_format_file_c(should_format: bool, config_present: bool, lines: &[String]) -> (r: Result<Option<String>, String>)
    ensures
        !should_format ==> r == Ok::<Option<String>, String>(None),
        should_format && !config_present ==> (r matches Err(e) && e@ == "missing non-empty .clangformat in cwd"@),
        should_format && config_present ==> (r matches Ok(Some(t)) && t@ == spec_join_lines(views(lines@), LineEnding::Lf)),
{
    if !should_format {
        return Ok(None);
    }
    if !config_present {
        return Err("missing non-empty .clangformat in cwd".to_owned());
    }
    Ok(Some(format_input(lines)))
}

/// Whether a diff input gets a formatted copy: a config is present, clang-format runs,
/// the path is an existing file, and it is C/C++.
pub fn wants_formatted_copy(has_config: bool, clang_format_available: bool, is_file: bool, path: &str) -> (b: bool)
    ensures
        b ==> has_config && clang_format_available && is_file,
        !path@.contains('.') ==> !b,
        plain_path(path@) ==> b == (has_config && clang_format_available && is_file && c_cpp_path(path@)),
{
    has_config && clang_format_available && is_file && is_c_cpp_file(path)
}

/// Name of the formatted copy: `{cache_key}.{extension or "txt"}`.
pub open spec fn cache_file_name(key: Seq<char>, ext: Option<Seq<char>>) -> Seq<char> {
    key + "."@ + match ext {
        Some(e) => e,
        None => "txt"@,
    }
}

pub fn formatted_cache_file_name(cache_key: &str, ext: Option<&str>) -> (s: String)
    ensures
        s@ == cache_file_name(cache_key@, match ext {
            Some(e) => Some(e@),
            None => None,
        }),
{
    let mut s = cache_key.to_owned();
    s.append(".");
    match ext {
        Some(e) => s.append(e),
        None => s.append("txt"),
    }
    s
}

/// The value `BuildHasher::hash_one` gives for a string with std's default hasher
/// (`BuildHasherDefault<DefaultHasher>`, fixed keys).
pub uninterp spec fn default_hash_of(s: Seq<char>) -> u64;

/// Wrapper for `BuildHasher::hash_one` with std's default hasher. The hasher is built with
/// fixed keys, so for one build of std the hash depends on the string alone; the algorithm
/// itself is not specified, so the hash is only named.
#[verifier::external_body]
fn default_hash(s: &str) -> (h: u64)
    ensures
        h == default_hash_of(s@),
{
    std::hash::BuildHasher::hash_one(&std::hash::BuildHasherDefault::<std::collections::hash_map::DefaultHasher>::default(), s)
}

/// Cache key of a canonical source path: its default hash as 16 lower-case hex digits.
pub fn cache_key(canonical: &str) -> (s: String)
    ensures
        s@ == hex_digits(default_hash_of(canonical@) as nat, 16),
{
    let h = default_hash(canonical);
    hex16(h)
}

/// Warnings of the pre-processing, one per line; none when there are none.
pub fn combined_warnings(warnings: &[String]) -> (r: Option<String>)
    ensures
        warnings@.len() == 0 ==> r is None,
        warnings@.len() > 0 ==> (r matches Some(s) && s@ == join_with(views(warnings@), seq!['\n'])),
{
    if warnings.len() == 0 {
        None
    } else {
        proof {
            reveal_strlit("\n");
            assert("\n"@ =~= seq!['\n']);
        }
        Some(join_strings(warnings, "\n"))
    }
}

/// The lines `str::lines` yields: split at `\n`, drop a `\r` before each `\n`, and no
/// final empty line after a trailing line ending.
pub open spec fn std_lines(s: Seq<char>) -> Seq<Seq<char>> {
    let p = split_on(s, '\n');
    let init = p.drop_last().map_values(|l: Seq<char>| strip_cr(l));
    if p.last().len() == 0 { init } else { init.push(p.last()) }
}

/// `content.lines().map(str::to_owned).collect()`.
pub fn content_lines(content: &str) -> (lines: Vec<String>)
    ensures
        views(lines@) == std_lines(content@),
{
    let mut lines: Vec<String> = Vec::new();
    let mut cur = String::new();
    for c in it: content.chars()
        invariant
            it.seq() == content@,
            lines.len() + 1 == split_on(content@.take(it.index() as int), '\n').len(),
            forall|k: int| 0 <= k < lines.len() ==>
                (#[trigger] lines@[k])@ == strip_cr(split_on(content@.take(it.index() as int), '\n')[k]),
            cur@ == split_on(content@.take(it.index() as int), '\n').last(),
    {
        let ghost pre = content@.take(it.index() as int);
        let ghost post = content@.take(it.index() + 1);
        proof {
            assert(post.drop_last() == pre);
            assert(post.last() == c);
            lemma_split_len(pre, '\n');
        }
        if c == '\n' {
            let line = strip_trailing_cr(cur.as_str());
            lines.push(line);
            cur = String::new();
        } else {
            push_char(&mut cur, c);
        }
    }
    proof {
        assert(content@.take(content@.len() as int) == content@);
        lemma_split_len(content@, '\n');
    }
    if !cur.as_str().is_empty() {
        lines.push(cur);
    }
    proof {
        let p = split_on(content@, '\n');
        assert(views(lines@) =~= std_lines(content@));
    }
    lines
}

/// Text handed to clang-format for file C: the lines joined by `\n`.
pub fn format_input(lines: &[String]) -> (s: String)
    ensures
        s@ == spec_join_lines(views(lines@), LineEnding::Lf),
{
    join_lines(lines, LineEnding::Lf)
}

/// Message of a failed subprocess: its trimmed stderr, or `fallback` when that is empty.
pub fn failure_message(stderr: &str, fallback: String) -> (s: String)
    ensures
        trimmed(stderr@).len() > 0 ==> s@ == trimmed(stderr@),
        trimmed(stderr@).len() == 0 ==> s == fallback,
{
    let t = trim(stderr);
    if t.as_str().is_empty() {
        fallback
    } else {
        t
    }
}

} // verus!
