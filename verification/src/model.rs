//! Data model of `difft --display json` output and of single-file syntax blocks.

use vstd::prelude::*;
use crate::segments::{Highlight, TextSpan, span_view, spans_view};
use crate::text::{has_prefix, copy_string, strip_cr, strip_trailing_cr, trim, trimmed, views};
use vstd::utf8::encode_utf8;

verus! {

#[derive(Debug, Clone)]
pub struct SyntaxBlock {
    pub id: u32,
    pub parent_id: Option<u32>,
    pub label: String,
    pub start_line: u32,
    pub end_line: u32,
}

#[derive(Debug, Clone, Copy, PartialEq, Eq, Structural)]
pub enum DiffStatus {
    Unchanged,
    Changed,
    Created,
    Deleted,
}

#[derive(Debug, Clone)]
pub struct AlignedLine {
    pub lhs_line: Option<u32>,
    pub rhs_line: Option<u32>,
    /// File C line index when this row is not tied to an A/B alignment (trailing C-only rows).
    pub file_c_only_line: Option<u32>,
    pub lhs_text: String,
    pub rhs_text: String,
    pub is_novel_lhs: bool,
    pub is_novel_rhs: bool,
    pub lhs_spans: Vec<TextSpan>,
    pub rhs_spans: Vec<TextSpan>,
}

#[derive(Debug, Clone)]
pub struct DiffFile {
    pub path: String,
    pub language: String,
    pub status: DiffStatus,
    pub extra_info: Option<String>,
    pub aligned_lines: Vec<AlignedLine>,
    pub lhs_syntax_blocks: Vec<SyntaxBlock>,
    pub rhs_syntax_blocks: Vec<SyntaxBlock>,
}

/// Output of `difft --dump-syntax-blocks` for one file.
#[derive(Debug, Clone)]
pub struct SingleFileSyntaxBlocks {
    pub path: String,
    pub language: String,
    pub syntax_blocks: Vec<SyntaxBlock>,
}

/// One change of a line as difft reports it in a chunk.
#[derive(Debug, Clone)]
pub struct NewChange {
    pub start: u32,
    pub end: u32,
    pub content: String,
    pub highlight: Highlight,
}

/// One side of a changed line: its 0-based line number and its changes.
#[derive(Debug, Clone)]
pub struct NewSide {
    pub line_number: u32,
    pub changes: Vec<NewChange>,
}

#[derive(Debug, Clone)]
pub struct NewChunkLine {
    pub lhs: Option<NewSide>,
    pub rhs: Option<NewSide>,
}

/// The diff as difft prints it: row alignment and change chunks, without line text.
#[derive(Debug, Clone)]
pub struct NewDiffFile {
    pub path: String,
    pub language: String,
    pub status: DiffStatus,
    pub extra_info: Option<String>,
    pub aligned_lines: Vec<(Option<u32>, Option<u32>)>,
    pub chunks: Vec<Vec<NewChunkLine>>,
    pub lhs_syntax_blocks: Vec<SyntaxBlock>,
    pub rhs_syntax_blocks: Vec<SyntaxBlock>,
}

// ---- syntax block selection --------------------------------------------------

pub open spec fn contains_line(b: SyntaxBlock, line: u32) -> bool {
    b.start_line <= line && line <= b.end_line
}

/// `end_line.saturating_sub(start_line)`.
pub open spec fn span_size(b: SyntaxBlock) -> int {
    if b.end_line >= b.start_line {
        b.end_line - b.start_line
    } else {
        0
    }
}

/// One-line blocks with a label of at most three bytes (punctuation, short tokens).
pub open spec fn is_trivial(b: SyntaxBlock) -> bool {
    b.start_line == b.end_line && encode_utf8(b.label@).len() <= 3
}

pub open spec fn label_priority(label: Seq<char>) -> u32 {
    if "(if"@.is_prefix_of(label) || "(fn"@.is_prefix_of(label) || "(for"@.is_prefix_of(label)
        || "(while"@.is_prefix_of(label) || "(match"@.is_prefix_of(label) || "(loop"@.is_prefix_of(label)
        || "(def"@.is_prefix_of(label) || "(class"@.is_prefix_of(label) {
        0
    } else if "("@.is_prefix_of(label) && !"({"@.is_prefix_of(label) {
        1
    } else if "{"@.is_prefix_of(label) {
        3
    } else {
        2
    }
}

pub open spec fn is_statement(label: Seq<char>) -> bool {
    "(match arm"@.is_prefix_of(label) || "(if"@.is_prefix_of(label) || "(match"@.is_prefix_of(label)
        || "(for"@.is_prefix_of(label) || "(while"@.is_prefix_of(label) || "(loop"@.is_prefix_of(label)
        || "(switch"@.is_prefix_of(label)
}

pub open spec fn is_declaration(label: Seq<char>) -> bool {
    "(fn"@.is_prefix_of(label) || "(impl"@.is_prefix_of(label) || "(struct"@.is_prefix_of(label)
        || "(class"@.is_prefix_of(label) || "(enum"@.is_prefix_of(label) || "(mod"@.is_prefix_of(label)
        || "(trait"@.is_prefix_of(label) || "(def"@.is_prefix_of(label)
}

/// `a` ranks strictly before `b` for the innermost block: non-trivial first,
/// then smaller span, then lower label priority.
pub open spec fn ranks_before(a: SyntaxBlock, b: SyntaxBlock) -> bool {
    if is_trivial(a) != is_trivial(b) {
        is_trivial(b)
    } else {
        span_size(a) < span_size(b) || (span_size(a) == span_size(b) && label_priority(a.label@)
            < label_priority(b.label@))
    }
}

/// Block `i` is the innermost block at `line`: it contains the line, no containing block ranks
/// before it, and it ranks before every containing block that comes earlier.
pub open spec fn innermost_at(blocks: Seq<SyntaxBlock>, line: u32, i: int) -> bool {
    &&& 0 <= i < blocks.len()
    &&& contains_line(blocks[i], line)
    &&& forall|j: int| 0 <= j < blocks.len() && contains_line(#[trigger] blocks[j], line)
        ==> !ranks_before(blocks[j], blocks[i])
    &&& forall|j: int| 0 <= j < i && contains_line(#[trigger] blocks[j], line)
        ==> ranks_before(blocks[i], blocks[j])
}

pub open spec fn any_contains(blocks: Seq<SyntaxBlock>, line: u32) -> bool {
    exists|j: int| 0 <= j < blocks.len() && contains_line(#[trigger] blocks[j], line)
}

/// Index of the innermost block at `line`, if any block contains it.
pub open spec fn innermost_index(blocks: Seq<SyntaxBlock>, line: u32) -> Option<int> {
    if any_contains(blocks, line) {
        Some(choose|i: int| innermost_at(blocks, line, i))
    } else {
        None
    }
}

#[derive(PartialEq, Eq, Structural)]
pub enum LabelKind {
    Statement,
    Declaration,
}

pub open spec fn has_kind(kind: LabelKind, label: Seq<char>) -> bool {
    match kind {
        LabelKind::Statement => is_statement(label),
        LabelKind::Declaration => is_declaration(label),
    }
}

/// A non-trivial block containing `line`: what a gutter click may select first.
pub open spec fn gutter_candidate(b: SyntaxBlock, line: u32) -> bool {
    contains_line(b, line) && !is_trivial(b)
}

pub open spec fn kind_candidate(b: SyntaxBlock, line: u32, kind: LabelKind) -> bool {
    gutter_candidate(b, line) && has_kind(kind, b.label@)
}

/// Block `i` is the first of the smallest candidates of the given kind.
pub open spec fn smallest_of_kind_at(blocks: Seq<SyntaxBlock>, line: u32, kind: LabelKind, i: int) -> bool {
    &&& 0 <= i < blocks.len()
    &&& kind_candidate(blocks[i], line, kind)
    &&& forall|j: int| 0 <= j < blocks.len() && kind_candidate(#[trigger] blocks[j], line, kind)
        ==> span_size(blocks[i]) <= span_size(blocks[j])
    &&& forall|j: int| 0 <= j < i && kind_candidate(#[trigger] blocks[j], line, kind)
        ==> span_size(blocks[i]) < span_size(blocks[j])
}

pub open spec fn any_of_kind(blocks: Seq<SyntaxBlock>, line: u32, kind: LabelKind) -> bool {
    exists|j: int| 0 <= j < blocks.len() && kind_candidate(#[trigger] blocks[j], line, kind)
}

pub open spec fn any_candidate(blocks: Seq<SyntaxBlock>, line: u32) -> bool {
    exists|j: int| 0 <= j < blocks.len() && gutter_candidate(#[trigger] blocks[j], line)
}

/// Index of the block a gutter click at `line` selects: among non-trivial blocks containing the
/// line, the smallest statement block, else the smallest declaration block; otherwise (and when
/// no non-trivial block contains the line) the innermost block.
pub open spec fn gutter_index(blocks: Seq<SyntaxBlock>, line: u32) -> Option<int> {
    if any_candidate(blocks, line) && any_of_kind(blocks, line, LabelKind::Statement) {
        Some(choose|i: int| smallest_of_kind_at(blocks, line, LabelKind::Statement, i))
    } else if any_candidate(blocks, line) && any_of_kind(blocks, line, LabelKind::Declaration) {
        Some(choose|i: int| smallest_of_kind_at(blocks, line, LabelKind::Declaration, i))
    } else {
        innermost_index(blocks, line)
    }
}

pub fn is_trivial_syntax_block(block: &SyntaxBlock) -> (b: bool)
    ensures
        b == is_trivial(*block),
{
    block.start_line == block.end_line && block.label.as_str().as_bytes().len() <= 3
}

pub fn block_label_priority(label: &str) -> (p: u32)
    ensures
        p == label_priority(label@),
{
    if has_prefix(label, "(if") || has_prefix(label, "(fn") || has_prefix(label, "(for")
        || has_prefix(label, "(while") || has_prefix(label, "(match") || has_prefix(label, "(loop")
        || has_prefix(label, "(def") || has_prefix(label, "(class") {
        0
    } else if has_prefix(label, "(") && !has_prefix(label, "({") {
        1
    } else if has_prefix(label, "{") {
        3
    } else {
        2
    }
}

pub fn is_statement_label(label: &str) -> (b: bool)
    ensures
        b == is_statement(label@),
{
    has_prefix(label, "(match arm") || has_prefix(label, "(if") || has_prefix(label, "(match")
        || has_prefix(label, "(for") || has_prefix(label, "(while") || has_prefix(label, "(loop")
        || has_prefix(label, "(switch")
}

pub fn is_declaration_label(label: &str) -> (b: bool)
    ensures
        b == is_declaration(label@),
{
    has_prefix(label, "(fn") || has_prefix(label, "(impl") || has_prefix(label, "(struct")
        || has_prefix(label, "(class") || has_prefix(label, "(enum") || has_prefix(label, "(mod")
        || has_prefix(label, "(trait") || has_prefix(label, "(def")
}

pub fn block_span_size(block: &SyntaxBlock) -> (s: u32)
    ensures
        s == span_size(*block),
{
    block.end_line.saturating_sub(block.start_line)
}

fn ranks_before_exec(a: &SyntaxBlock, b: &SyntaxBlock) -> (r: bool)
    ensures
        r == ranks_before(*a, *b),
{
    let a_trivial = is_trivial_syntax_block(a);
    let b_trivial = is_trivial_syntax_block(b);
    if a_trivial != b_trivial {
        b_trivial
    } else {
        let size_b = b.end_line.saturating_sub(b.start_line);
        let size_a = a.end_line.saturating_sub(a.start_line);
        size_a < size_b || (size_a == size_b && block_label_priority(a.label.as_str())
            < block_label_priority(b.label.as_str()))
    }
}

proof fn lemma_innermost_unique(blocks: Seq<SyntaxBlock>, line: u32, i: int, k: int)
    requires
        innermost_at(blocks, line, i),
        innermost_at(blocks, line, k),
    ensures
        i == k,
{
    if i < k {
        assert(ranks_before(blocks[k], blocks[i]));
    } else if k < i {
        assert(ranks_before(blocks[i], blocks[k]));
    }
}

/// Index of the smallest non-trivial syntax block containing `line`.
pub fn innermost_block_index(blocks: &[SyntaxBlock], line: u32) -> (r: Option<usize>)
    ensures
        r matches Some(i) ==> innermost_at(blocks@, line, i as int),
        match innermost_index(blocks@, line) {
            Some(i) => r == Some(i as usize),
            None => r is None,
        },
{
    let mut best: Option<usize> = None;
    let n = blocks.len();
    let mut k: usize = 0;
    while k < n
        invariant
            n == blocks@.len(),
            k <= n,
            match best {
                Some(b) => b < k && innermost_at(blocks@.take(k as int), line, b as int),
                None => !any_contains(blocks@.take(k as int), line),
            },
        decreases n - k,
    {
        let ghost pre = blocks@.take(k as int);
        let ghost post = blocks@.take(k + 1);
        let block = &blocks[k];
        let contains = block.start_line <= line && line <= block.end_line;
        if contains {
            let replace = match best {
                None => true,
                Some(b) => ranks_before_exec(block, &blocks[b]),
            };
            if replace {
                proof {
                    assert forall|j: int| 0 <= j < k && contains_line(#[trigger] post[j], line)
                        implies ranks_before(post[k as int], post[j]) by {
                        assert(post[j] == pre[j]);
                    }
                }
                best = Some(k);
            } else {
                proof {
                    let b = best->0 as int;
                    assert(post[b] == pre[b]);
                    assert forall|j: int| 0 <= j < post.len() && contains_line(#[trigger] post[j], line)
                        implies !ranks_before(post[j], post[b]) by {
                        if j < k {
                            assert(post[j] == pre[j]);
                        }
                    }
                    assert forall|j: int| 0 <= j < b && contains_line(#[trigger] post[j], line)
                        implies ranks_before(post[b], post[j]) by {
                        assert(post[j] == pre[j]);
                    }
                }
            }
        } else {
            proof {
                match best {
                    Some(b) => {
                        assert(post[b as int] == pre[b as int]);
                        assert forall|j: int| 0 <= j < post.len() && contains_line(#[trigger] post[j], line)
                            implies !ranks_before(post[j], post[b as int]) by {
                            assert(post[j] == pre[j]);
                        }
                        assert forall|j: int| 0 <= j < b && contains_line(#[trigger] post[j], line)
                            implies ranks_before(post[b as int], post[j]) by {
                            assert(post[j] == pre[j]);
                        }
                    },
                    None => {
                        assert forall|j: int| 0 <= j < post.len() implies !contains_line(#[trigger] post[j], line) by {
                            if j < k {
                                assert(post[j] == pre[j]);
                            }
                        }
                    },
                }
            }
        }
        k = k + 1;
    }
    assert(blocks@.take(n as int) =~= blocks@);
    proof {
        match best {
            Some(b) => {
                assert(any_contains(blocks@, line));
                let c = choose|i: int| innermost_at(blocks@, line, i);
                lemma_innermost_unique(blocks@, line, b as int, c);
            },
            None => {},
        }
    }
    best
}

/// Smallest non-trivial syntax block containing `line` (0-based file index).
pub fn innermost_syntax_block(blocks: &[SyntaxBlock], line: u32) -> (r: Option<&SyntaxBlock>)
    ensures
        match innermost_index(blocks@, line) {
            Some(i) => r == Some(&blocks@[i]),
            None => r is None,
        },
{
    match innermost_block_index(blocks, line) {
        Some(i) => Some(&blocks[i]),
        None => None,
    }
}

proof fn lemma_smallest_unique(blocks: Seq<SyntaxBlock>, line: u32, kind: LabelKind, i: int, k: int)
    requires
        smallest_of_kind_at(blocks, line, kind, i),
        smallest_of_kind_at(blocks, line, kind, k),
    ensures
        i == k,
{
    if i < k {
        assert(span_size(blocks[k]) < span_size(blocks[i]));
    } else if k < i {
        assert(span_size(blocks[i]) < span_size(blocks[k]));
    }
}

fn is_kind_label(kind: &LabelKind, label: &str) -> (b: bool)
    ensures
        b == has_kind(*kind, label@),
{
    match kind {
        LabelKind::Statement => is_statement_label(label),
        LabelKind::Declaration => is_declaration_label(label),
    }
}

/// First of the smallest non-trivial blocks of the given kind containing `line`.
fn smallest_of_kind_index(blocks: &[SyntaxBlock], line: u32, kind: LabelKind) -> (r: Option<usize>)
    ensures
        r matches Some(i) ==> smallest_of_kind_at(blocks@, line, kind, i as int),
        r is None <==> !any_of_kind(blocks@, line, kind),
{
    let mut best: Option<usize> = None;
    let n = blocks.len();
    let mut k: usize = 0;
    while k < n
        invariant
            n == blocks@.len(),
            k <= n,
            match best {
                Some(b) => b < k && smallest_of_kind_at(blocks@.take(k as int), line, kind, b as int),
                None => !any_of_kind(blocks@.take(k as int), line, kind),
            },
        decreases n - k,
    {
        let ghost pre = blocks@.take(k as int);
        let ghost post = blocks@.take(k + 1);
        let block = &blocks[k];
        assert(post[k as int] == *block);
        let candidate = block.start_line <= line && line <= block.end_line && !is_trivial_syntax_block(block)
            && is_kind_label(&kind, block.label.as_str());
        let replace = candidate && match best {
            None => true,
            Some(b) => block_span_size(block) < block_span_size(&blocks[b]),
        };
        proof {
            assert forall|j: int| 0 <= j < k implies post[j] == pre[j] by {}
        }
        if replace {
            best = Some(k);
        }
        k = k + 1;
    }
    assert(blocks@.take(n as int) =~= blocks@);
    best
}

fn has_gutter_candidate(blocks: &[SyntaxBlock], line: u32) -> (b: bool)
    ensures
        b == any_candidate(blocks@, line),
{
    let n = blocks.len();
    let mut k: usize = 0;
    while k < n
        invariant
            n == blocks@.len(),
            k <= n,
            forall|j: int| 0 <= j < k ==> !gutter_candidate(#[trigger] blocks@[j], line),
        decreases n - k,
    {
        let block = &blocks[k];
        if block.start_line <= line && line <= block.end_line && !is_trivial_syntax_block(block) {
            assert(gutter_candidate(blocks@[k as int], line));
            return true;
        }
        k = k + 1;
    }
    false
}

/// Index of the syntax block to highlight when the user clicks a line-number gutter.
pub fn gutter_block_index(blocks: &[SyntaxBlock], line: u32) -> (r: Option<usize>)
    ensures
        match gutter_index(blocks@, line) {
            Some(i) => r == Some(i as usize) && 0 <= i < blocks@.len(),
            None => r is None,
        },
{
    if has_gutter_candidate(blocks, line) {
        if let Some(i) = smallest_of_kind_index(blocks, line, LabelKind::Statement) {
            proof {
                let c = choose|c: int| smallest_of_kind_at(blocks@, line, LabelKind::Statement, c);
                lemma_smallest_unique(blocks@, line, LabelKind::Statement, i as int, c);
            }
            return Some(i);
        }
        if let Some(i) = smallest_of_kind_index(blocks, line, LabelKind::Declaration) {
            proof {
                let c = choose|c: int| smallest_of_kind_at(blocks@, line, LabelKind::Declaration, c);
                lemma_smallest_unique(blocks@, line, LabelKind::Declaration, i as int, c);
            }
            return Some(i);
        }
    }
    innermost_block_index(blocks, line)
}

/// Syntax block to highlight when the user clicks a line-number gutter.
pub fn gutter_syntax_block(blocks: &[SyntaxBlock], line: u32) -> (r: Option<&SyntaxBlock>)
    ensures
        match gutter_index(blocks@, line) {
            Some(i) => r == Some(&blocks@[i]),
            None => r is None,
        },
{
    match gutter_block_index(blocks, line) {
        Some(i) => Some(&blocks[i]),
        None => None,
    }
}

/// A gutter click on a line that some block contains always selects a block containing it:
/// the smallest non-trivial statement block there, else the smallest non-trivial declaration
/// block, else the innermost block (which ranks before every other block containing the line).
pub proof fn law_gutter_selects_containing_block(blocks: Seq<SyntaxBlock>, line: u32)
    ensures
        any_contains(blocks, line) <==> gutter_index(blocks, line) is Some,
        gutter_index(blocks, line) matches Some(i) ==> 0 <= i < blocks.len() && contains_line(blocks[i], line),
        innermost_index(blocks, line) matches Some(i) ==> innermost_at(blocks, line, i),
        any_of_kind(blocks, line, LabelKind::Statement) ==> (gutter_index(blocks, line) matches Some(i)
            && smallest_of_kind_at(blocks, line, LabelKind::Statement, i)),
        !any_of_kind(blocks, line, LabelKind::Statement) && any_of_kind(blocks, line, LabelKind::Declaration)
            ==> (gutter_index(blocks, line) matches Some(i) && smallest_of_kind_at(blocks, line, LabelKind::Declaration, i)),
        !any_of_kind(blocks, line, LabelKind::Statement) && !any_of_kind(blocks, line, LabelKind::Declaration)
            ==> gutter_index(blocks, line) == innermost_index(blocks, line),
{
    if any_of_kind(blocks, line, LabelKind::Statement) {
        let j = choose|j: int| 0 <= j < blocks.len() && kind_candidate(#[trigger] blocks[j], line, LabelKind::Statement);
        assert(gutter_candidate(blocks[j], line));
    }
    if any_of_kind(blocks, line, LabelKind::Declaration) {
        let j = choose|j: int| 0 <= j < blocks.len() && kind_candidate(#[trigger] blocks[j], line, LabelKind::Declaration);
        assert(gutter_candidate(blocks[j], line));
    }
    if any_contains(blocks, line) {
        lemma_innermost_exists(blocks, line);
    }
    if any_candidate(blocks, line) && any_of_kind(blocks, line, LabelKind::Statement) {
        lemma_smallest_exists(blocks, line, LabelKind::Statement);
        let j = choose|j: int| 0 <= j < blocks.len() && kind_candidate(#[trigger] blocks[j], line, LabelKind::Statement);
        assert(contains_line(blocks[j], line));
    } else if any_candidate(blocks, line) && any_of_kind(blocks, line, LabelKind::Declaration) {
        lemma_smallest_exists(blocks, line, LabelKind::Declaration);
        let j = choose|j: int| 0 <= j < blocks.len() && kind_candidate(#[trigger] blocks[j], line, LabelKind::Declaration);
        assert(contains_line(blocks[j], line));
    }
}

proof fn lemma_innermost_exists(blocks: Seq<SyntaxBlock>, line: u32)
    requires
        any_contains(blocks, line),
    ensures
        exists|i: int| innermost_at(blocks, line, i),
    decreases blocks.len(),
{
    let d = blocks.drop_last();
    let n = blocks.len() - 1;
    if any_contains(d, line) {
        lemma_innermost_exists(d, line);
        let b = choose|i: int| innermost_at(d, line, i);
        if contains_line(blocks[n], line) && ranks_before(blocks[n], blocks[b]) {
            assert forall|j: int| 0 <= j < n && contains_line(#[trigger] blocks[j], line)
                implies ranks_before(blocks[n], blocks[j]) by {
                assert(d[j] == blocks[j]);
                assert(!ranks_before(d[j], d[b]));
            }
            assert(innermost_at(blocks, line, n));
        } else {
            assert forall|j: int| 0 <= j < blocks.len() && contains_line(#[trigger] blocks[j], line)
                implies !ranks_before(blocks[j], blocks[b]) by {
                if j < n {
                    assert(d[j] == blocks[j]);
                }
            }
            assert forall|j: int| 0 <= j < b && contains_line(#[trigger] blocks[j], line)
                implies ranks_before(blocks[b], blocks[j]) by {
                assert(d[j] == blocks[j]);
            }
            assert(innermost_at(blocks, line, b));
        }
    } else {
        assert(contains_line(blocks[n], line)) by {
            let j = choose|j: int| 0 <= j < blocks.len() && contains_line(#[trigger] blocks[j], line);
            if j < n {
                assert(d[j] == blocks[j]);
            }
        }
        assert forall|j: int| 0 <= j < n implies !contains_line(#[trigger] blocks[j], line) by {
            assert(d[j] == blocks[j]);
        }
        assert(innermost_at(blocks, line, n));
    }
}

proof fn lemma_smallest_exists(blocks: Seq<SyntaxBlock>, line: u32, kind: LabelKind)
    requires
        any_of_kind(blocks, line, kind),
    ensures
        exists|i: int| smallest_of_kind_at(blocks, line, kind, i),
    decreases blocks.len(),
{
    let d = blocks.drop_last();
    let n = blocks.len() - 1;
    if any_of_kind(d, line, kind) {
        lemma_smallest_exists(d, line, kind);
        let b = choose|i: int| smallest_of_kind_at(d, line, kind, i);
        if kind_candidate(blocks[n], line, kind) && span_size(blocks[n]) < span_size(blocks[b]) {
            assert forall|j: int| 0 <= j < n && kind_candidate(#[trigger] blocks[j], line, kind)
                implies span_size(blocks[n]) < span_size(blocks[j]) by {
                assert(d[j] == blocks[j]);
            }
            assert(smallest_of_kind_at(blocks, line, kind, n));
        } else {
            assert forall|j: int| 0 <= j < blocks.len() && kind_candidate(#[trigger] blocks[j], line, kind)
                implies span_size(blocks[b]) <= span_size(blocks[j]) by {
                if j < n {
                    assert(d[j] == blocks[j]);
                }
            }
            assert forall|j: int| 0 <= j < b && kind_candidate(#[trigger] blocks[j], line, kind)
                implies span_size(blocks[b]) < span_size(blocks[j]) by {
                assert(d[j] == blocks[j]);
            }
            assert(smallest_of_kind_at(blocks, line, kind, b));
        }
    } else {
        assert(kind_candidate(blocks[n], line, kind)) by {
            let j = choose|j: int| 0 <= j < blocks.len() && kind_candidate(#[trigger] blocks[j], line, kind);
            if j < n {
                assert(d[j] == blocks[j]);
            }
        }
        assert forall|j: int| 0 <= j < n implies !kind_candidate(#[trigger] blocks[j], line, kind) by {
            assert(d[j] == blocks[j]);
        }
        assert(smallest_of_kind_at(blocks, line, kind, n));
    }
}

// ---- warnings, line text, spans -----------------------------------------------

/// The JSON text of difft's output: the output trimmed, or `empty_error` when nothing is left.
pub fn json_payload(output: &str, empty_error: &str) -> (r: Result<String, String>)
    ensures
        trimmed(output@).len() == 0 ==> (r matches Err(e) && e@ == empty_error@),
        trimmed(output@).len() > 0 ==> (r matches Ok(t) && t@ == trimmed(output@)),
{
    let t = trim(output);
    if t.as_str().is_empty() {
        Err(empty_error.to_owned())
    } else {
        Ok(t)
    }
}

/// Warning text when diff succeeded but fell back (parse errors, byte limit, etc.).
pub open spec fn spec_warning(extra_info: Option<Seq<char>>, language: Seq<char>) -> Option<Seq<char>> {
    match extra_info {
        Some(info) if info.len() > 0 => Some(info),
        _ => if "Text ("@.is_prefix_of(language) {
            Some(language)
        } else {
            None
        },
    }
}

pub open spec fn opt_view(o: Option<String>) -> Option<Seq<char>> {
    match o {
        Some(s) => Some(s@),
        None => None,
    }
}

/// Warning text when diff succeeded but fell back (parse errors, byte limit, etc.).
pub fn warning_message(file: &DiffFile) -> (r: Option<String>)
    ensures
        opt_view(r) == spec_warning(opt_view(file.extra_info), file.language@),
{
    if let Some(info) = &file.extra_info {
        if !info.as_str().is_empty() {
            return Some(copy_string(info));
        }
    }
    if has_prefix(file.language.as_str(), "Text (") {
        return Some(copy_string(&file.language));
    }
    None
}

/// Text of line `line` of `lines`, or empty when there is no such line.
pub open spec fn spec_line_text(lines: Seq<Seq<char>>, line: Option<u32>) -> Seq<char> {
    match line {
        Some(n) if n < lines.len() => lines[n as int],
        _ => Seq::empty(),
    }
}

pub fn line_text(lines: &[String], line: Option<u32>) -> (r: String)
    ensures
        r@ == spec_line_text(views(lines@), line),
{
    match line {
        Some(n) => {
            if (n as usize) < lines.len() {
                copy_string(&lines[n as usize])
            } else {
                String::new()
            }
        },
        None => String::new(),
    }
}

/// The span difft's change describes, normalized and marked novel.
pub open spec fn change_span(c: NewChange) -> (u32, u32, Seq<char>, Highlight, bool) {
    (c.start, c.end, strip_cr(c.content@), c.highlight, true)
}

pub open spec fn changes_spans(cs: Seq<NewChange>) -> Seq<(u32, u32, Seq<char>, Highlight, bool)> {
    cs.map_values(|c: NewChange| change_span(c))
}

pub fn changes_to_spans(changes: &[NewChange]) -> (r: Vec<TextSpan>)
    ensures
        spans_view(r@) == changes_spans(changes@),
{
    let mut r: Vec<TextSpan> = Vec::new();
    let n = changes.len();
    let mut i: usize = 0;
    while i < n
        invariant
            n == changes@.len(),
            i <= n,
            spans_view(r@) == changes_spans(changes@).take(i as int),
        decreases n - i,
    {
        let change = &changes[i];
        let span = TextSpan {
            start: change.start,
            end: change.end,
            content: strip_trailing_cr(change.content.as_str()),
            highlight: change.highlight,
            is_novel: true,
        };
        let ghost before = r@;
        r.push(span);
        assert(spans_view(r@) =~= spans_view(before).push(span_view(span)));
        assert(spans_view(r@) =~= changes_spans(changes@).take(i + 1));
        i = i + 1;
    }
    assert(changes_spans(changes@).take(n as int) =~= changes_spans(changes@));
    r
}

/// Row alignment implied by a status when difft reports none.
pub open spec fn pairs_for_status(status: DiffStatus, lhs_len: nat, rhs_len: nat) -> Seq<(Option<u32>, Option<u32>)> {
    match status {
        DiffStatus::Unchanged => {
            let count = if lhs_len >= rhs_len { lhs_len } else { rhs_len };
            Seq::new(((count as usize) as u32) as nat, |i: int| (Some(i as u32), Some(i as u32)))
        },
        DiffStatus::Created => Seq::new(((rhs_len as usize) as u32) as nat, |i: int| (None::<u32>, Some(i as u32))),
        DiffStatus::Deleted => Seq::new(((lhs_len as usize) as u32) as nat, |i: int| (Some(i as u32), None::<u32>)),
        DiffStatus::Changed => Seq::empty(),
    }
}

fn numbered_pairs(count: u32, lhs: bool, rhs: bool) -> (r: Vec<(Option<u32>, Option<u32>)>)
    ensures
        r@ == Seq::new(count as nat, |i: int| (
            if lhs { Some(i as u32) } else { None::<u32> },
            if rhs { Some(i as u32) } else { None::<u32> },
        )),
{
    let mut r: Vec<(Option<u32>, Option<u32>)> = Vec::new();
    let mut line: u32 = 0;
    while line < count
        invariant
            line <= count,
            r@ == Seq::new(line as nat, |i: int| (
                if lhs { Some(i as u32) } else { None::<u32> },
                if rhs { Some(i as u32) } else { None::<u32> },
            )),
        decreases count - line,
    {
        r.push((if lhs { Some(line) } else { None }, if rhs { Some(line) } else { None }));
        line = line + 1;
        assert(r@ =~= Seq::new(line as nat, |i: int| (
            if lhs { Some(i as u32) } else { None::<u32> },
            if rhs { Some(i as u32) } else { None::<u32> },
        )));
    }
    r
}

pub fn aligned_pairs_for_status(status: DiffStatus, lhs_lines: &[String], rhs_lines: &[String]) -> (r: Vec<(Option<u32>, Option<u32>)>)
    ensures
        r@ == pairs_for_status(status, lhs_lines@.len(), rhs_lines@.len()),
{
    match status {
        DiffStatus::Unchanged => {
            let count = if lhs_lines.len() >= rhs_lines.len() { lhs_lines.len() } else { rhs_lines.len() };
            let r = numbered_pairs(count as u32, true, true);
            assert(r@ =~= pairs_for_status(status, lhs_lines@.len(), rhs_lines@.len()));
            r
        },
        DiffStatus::Created => {
            let r = numbered_pairs(rhs_lines.len() as u32, false, true);
            assert(r@ =~= pairs_for_status(status, lhs_lines@.len(), rhs_lines@.len()));
            r
        },
        DiffStatus::Deleted => {
            let r = numbered_pairs(lhs_lines.len() as u32, true, false);
            assert(r@ =~= pairs_for_status(status, lhs_lines@.len(), rhs_lines@.len()));
            r
        },
        DiffStatus::Changed => {
            let r: Vec<(Option<u32>, Option<u32>)> = Vec::new();
            assert(r@ =~= pairs_for_status(status, lhs_lines@.len(), rhs_lines@.len()));
            r
        },
    }
}

// ---- normalization and conversion ---------------------------------------------

/// The span with one trailing `\r` removed from its content.
pub open spec fn strip_span(v: (u32, u32, Seq<char>, Highlight, bool)) -> (u32, u32, Seq<char>, Highlight, bool) {
    (v.0, v.1, strip_cr(v.2), v.3, v.4)
}

pub open spec fn strip_spans(v: Seq<(u32, u32, Seq<char>, Highlight, bool)>) -> Seq<(u32, u32, Seq<char>, Highlight, bool)> {
    v.map_values(|x: (u32, u32, Seq<char>, Highlight, bool)| strip_span(x))
}

/// `new` is `old` with one trailing `\r` removed from both texts and every span content.
pub open spec fn normalized_line(new: AlignedLine, old: AlignedLine) -> bool {
    &&& new.lhs_line == old.lhs_line
    &&& new.rhs_line == old.rhs_line
    &&& new.file_c_only_line == old.file_c_only_line
    &&& new.is_novel_lhs == old.is_novel_lhs
    &&& new.is_novel_rhs == old.is_novel_rhs
    &&& new.lhs_text@ == strip_cr(old.lhs_text@)
    &&& new.rhs_text@ == strip_cr(old.rhs_text@)
    &&& spans_view(new.lhs_spans@) == strip_spans(spans_view(old.lhs_spans@))
    &&& spans_view(new.rhs_spans@) == strip_spans(spans_view(old.rhs_spans@))
}

fn normalize_spans(spans: &[TextSpan]) -> (r: Vec<TextSpan>)
    ensures
        spans_view(r@) == strip_spans(spans_view(spans@)),
{
    let mut r: Vec<TextSpan> = Vec::new();
    let n = spans.len();
    let mut i: usize = 0;
    while i < n
        invariant
            n == spans@.len(),
            i <= n,
            spans_view(r@) == strip_spans(spans_view(spans@)).take(i as int),
        decreases n - i,
    {
        let s = &spans[i];
        let span = TextSpan {
            start: s.start,
            end: s.end,
            content: strip_trailing_cr(s.content.as_str()),
            highlight: s.highlight,
            is_novel: s.is_novel,
        };
        let ghost before = r@;
        r.push(span);
        assert(spans_view(r@) =~= spans_view(before).push(span_view(span)));
        assert(spans_view(r@) =~= strip_spans(spans_view(spans@)).take(i + 1));
        i = i + 1;
    }
    assert(strip_spans(spans_view(spans@)).take(n as int) =~= strip_spans(spans_view(spans@)));
    r
}

fn normalize_aligned_line(line: &AlignedLine) -> (r: AlignedLine)
    ensures
        normalized_line(r, *line),
{
    AlignedLine {
        lhs_line: line.lhs_line,
        rhs_line: line.rhs_line,
        file_c_only_line: line.file_c_only_line,
        lhs_text: strip_trailing_cr(line.lhs_text.as_str()),
        rhs_text: strip_trailing_cr(line.rhs_text.as_str()),
        is_novel_lhs: line.is_novel_lhs,
        is_novel_rhs: line.is_novel_rhs,
        lhs_spans: normalize_spans(line.lhs_spans.as_slice()),
        rhs_spans: normalize_spans(line.rhs_spans.as_slice()),
    }
}

/// Remove one trailing `\r` from every row's texts and span contents; nothing else changes.
pub fn normalize_diff_file(file: &mut DiffFile)
    ensures
        final(file).path == old(file).path,
        final(file).language == old(file).language,
        final(file).status == old(file).status,
        final(file).extra_info == old(file).extra_info,
        final(file).lhs_syntax_blocks == old(file).lhs_syntax_blocks,
        final(file).rhs_syntax_blocks == old(file).rhs_syntax_blocks,
        final(file).aligned_lines@.len() == old(file).aligned_lines@.len(),
        forall|i: int| 0 <= i < old(file).aligned_lines@.len() ==> normalized_line(
            #[trigger] final(file).aligned_lines@[i],
            old(file).aligned_lines@[i],
        ),
{
    let mut lines: Vec<AlignedLine> = Vec::new();
    std::mem::swap(&mut lines, &mut file.aligned_lines);
    let mut out: Vec<AlignedLine> = Vec::new();
    let n = lines.len();
    let mut i: usize = 0;
    while i < n
        invariant
            n == lines@.len(),
            lines@ == old(file).aligned_lines@,
            i <= n,
            out@.len() == i,
            forall|k: int| 0 <= k < i ==> normalized_line(#[trigger] out@[k], lines@[k]),
        decreases n - i,
    {
        out.push(normalize_aligned_line(&lines[i]));
        i = i + 1;
    }
    file.aligned_lines = out;
}

pub open spec fn chunk_key(c: NewChunkLine) -> (Option<u32>, Option<u32>) {
    (
        match c.lhs {
            Some(side) => Some(side.line_number),
            None => None,
        },
        match c.rhs {
            Some(side) => Some(side.line_number),
            None => None,
        },
    )
}

/// The last chunk line with the given key in one chunk.
pub open spec fn last_in_chunk(lines: Seq<NewChunkLine>, key: (Option<u32>, Option<u32>)) -> Option<NewChunkLine>
    decreases lines.len(),
{
    if lines.len() == 0 {
        None
    } else if chunk_key(lines.last()) == key {
        Some(lines.last())
    } else {
        last_in_chunk(lines.drop_last(), key)
    }
}

/// The chunk line recorded last for the key (later chunk lines replace earlier ones).
pub open spec fn last_in_chunks(chunks: Seq<Vec<NewChunkLine>>, key: (Option<u32>, Option<u32>)) -> Option<NewChunkLine>
    decreases chunks.len(),
{
    if chunks.len() == 0 {
        None
    } else {
        match last_in_chunk(chunks.last()@, key) {
            Some(c) => Some(c),
            None => last_in_chunks(chunks.drop_last(), key),
        }
    }
}

fn find_chunk_line(chunks: &Vec<Vec<NewChunkLine>>, key: (Option<u32>, Option<u32>)) -> (r: Option<&NewChunkLine>)
    ensures
        match last_in_chunks(chunks@, key) {
            Some(c) => r == Some(&c),
            None => r is None,
        },
{
    let mut ci = chunks.len();
    assert(chunks@.take(ci as int) =~= chunks@);
    while ci > 0
        invariant
            ci <= chunks@.len(),
            last_in_chunks(chunks@, key) == last_in_chunks(chunks@.take(ci as int), key),
        decreases ci,
    {
        let chunk = &chunks[ci - 1];
        proof {
            let t = chunks@.take(ci as int);
            assert(t.last() == *chunk);
            assert(t.drop_last() =~= chunks@.take(ci - 1));
        }
        let mut li = chunk.len();
        assert(chunk@.take(li as int) =~= chunk@);
        while li > 0
            invariant
                0 < ci <= chunks@.len(),
                *chunk == chunks@[ci - 1],
                last_in_chunks(chunks@, key) == match last_in_chunk(chunk@, key) {
                    Some(c) => Some(c),
                    None => last_in_chunks(chunks@.take(ci - 1), key),
                },
                li <= chunk@.len(),
                last_in_chunk(chunk@, key) == last_in_chunk(chunk@.take(li as int), key),
            decreases li,
        {
            let line = &chunk[li - 1];
            let k0: Option<u32> = match &line.lhs {
                Some(side) => Some(side.line_number),
                None => None,
            };
            let k1: Option<u32> = match &line.rhs {
                Some(side) => Some(side.line_number),
                None => None,
            };
            proof {
                let t = chunk@.take(li as int);
                assert(t.last() == *line);
                assert(t.drop_last() =~= chunk@.take(li - 1));
            }
            if k0 == key.0 && k1 == key.1 {
                return Some(line);
            }
            li = li - 1;
        }
        ci = ci - 1;
    }
    None
}

/// Spans of one side of a row: the changes of the matching chunk line, if any.
pub open spec fn side_spans(c: Option<NewChunkLine>, lhs: bool) -> Seq<(u32, u32, Seq<char>, Highlight, bool)> {
    match c {
        Some(line) => match (if lhs { line.lhs } else { line.rhs }) {
            Some(side) => changes_spans(side.changes@),
            None => Seq::empty(),
        },
        None => Seq::empty(),
    }
}

/// A side of a row is novel when its chunk line has changes on that side, or the other side
/// has no line.
pub open spec fn side_novel(c: Option<NewChunkLine>, lhs: bool, other: Option<u32>) -> bool {
    match c {
        Some(line) => (match (if lhs { line.lhs } else { line.rhs }) {
            Some(side) => side.changes@.len() > 0,
            None => false,
        }) || other is None,
        None => false,
    }
}

/// Row `row` built from the pair, the chunk line recorded for it, and the file lines.
pub open spec fn converted_row(
    row: AlignedLine,
    pair: (Option<u32>, Option<u32>),
    c: Option<NewChunkLine>,
    lhs_lines: Seq<Seq<char>>,
    rhs_lines: Seq<Seq<char>>,
) -> bool {
    &&& row.lhs_line == pair.0
    &&& row.rhs_line == pair.1
    &&& row.file_c_only_line is None
    &&& row.lhs_text@ == strip_cr(spec_line_text(lhs_lines, pair.0))
    &&& row.rhs_text@ == strip_cr(spec_line_text(rhs_lines, pair.1))
    &&& row.is_novel_lhs == side_novel(c, true, pair.1)
    &&& row.is_novel_rhs == side_novel(c, false, pair.0)
    &&& spans_view(row.lhs_spans@) == strip_spans(side_spans(c, true))
    &&& spans_view(row.rhs_spans@) == strip_spans(side_spans(c, false))
}

/// The rows of the converted diff: difft's alignment, or the one the status implies.
pub open spec fn converted_pairs(raw: NewDiffFile, lhs_len: nat, rhs_len: nat) -> Seq<(Option<u32>, Option<u32>)> {
    if raw.aligned_lines@.len() == 0 {
        pairs_for_status(raw.status, lhs_len, rhs_len)
    } else {
        raw.aligned_lines@
    }
}

fn side_spans_exec(c: Option<&NewChunkLine>, lhs: bool) -> (r: Vec<TextSpan>)
    ensures
        spans_view(r@) == side_spans(match c { Some(l) => Some(*l), None => None }, lhs),
{
    match c {
        Some(line) => {
            let side = if lhs { &line.lhs } else { &line.rhs };
            match side {
                Some(side) => changes_to_spans(side.changes.as_slice()),
                None => {
                    let r: Vec<TextSpan> = Vec::new();
                    assert(spans_view(r@) =~= Seq::<(u32, u32, Seq<char>, Highlight, bool)>::empty());
                    r
                },
            }
        },
        None => {
            let r: Vec<TextSpan> = Vec::new();
            assert(spans_view(r@) =~= Seq::<(u32, u32, Seq<char>, Highlight, bool)>::empty());
            r
        },
    }
}

fn side_novel_exec(c: Option<&NewChunkLine>, lhs: bool, other: Option<u32>) -> (b: bool)
    ensures
        b == side_novel(match c { Some(l) => Some(*l), None => None }, lhs, other),
{
    match c {
        Some(line) => {
            let side = if lhs { &line.lhs } else { &line.rhs };
            let has_changes = match side {
                Some(side) => side.changes.len() > 0,
                None => false,
            };
            has_changes || other.is_none()
        },
        None => false,
    }
}

/// Build the row model from difft's alignment and chunks and the lines of A and B.
pub fn convert_new_diff_json(raw: NewDiffFile, lhs_lines: &[String], rhs_lines: &[String]) -> (r: DiffFile)
    ensures
        r.path == raw.path,
        r.language == raw.language,
        r.status == raw.status,
        r.extra_info == raw.extra_info,
        r.lhs_syntax_blocks == raw.lhs_syntax_blocks,
        r.rhs_syntax_blocks == raw.rhs_syntax_blocks,
        r.aligned_lines@.len() == converted_pairs(raw, lhs_lines@.len(), rhs_lines@.len()).len(),
        forall|i: int| 0 <= i < r.aligned_lines@.len() ==> {
            let pair = converted_pairs(raw, lhs_lines@.len(), rhs_lines@.len())[i];
            converted_row(
                #[trigger] r.aligned_lines@[i],
                pair,
                last_in_chunks(raw.chunks@, pair),
                views(lhs_lines@),
                views(rhs_lines@),
            )
        },
{
    let pairs = if raw.aligned_lines.len() == 0 {
        aligned_pairs_for_status(raw.status, lhs_lines, rhs_lines)
    } else {
        let mut v: Vec<(Option<u32>, Option<u32>)> = Vec::new();
        let mut k: usize = 0;
        while k < raw.aligned_lines.len()
            invariant
                k <= raw.aligned_lines@.len(),
                v@ == raw.aligned_lines@.take(k as int),
            decreases raw.aligned_lines@.len() - k,
        {
            v.push(raw.aligned_lines[k]);
            k = k + 1;
            assert(v@ =~= raw.aligned_lines@.take(k as int));
        }
        assert(raw.aligned_lines@.take(k as int) =~= raw.aligned_lines@);
        v
    };
    let ghost pairs_spec = converted_pairs(raw, lhs_lines@.len(), rhs_lines@.len());
    assert(pairs@ == pairs_spec);
    let mut rows: Vec<AlignedLine> = Vec::new();
    let n = pairs.len();
    let mut i: usize = 0;
    while i < n
        invariant
            n == pairs@.len(),
            pairs@ == pairs_spec,
            i <= n,
            rows@.len() == i,
            forall|k: int| 0 <= k < i ==> converted_row(
                #[trigger] rows@[k],
                pairs_spec[k],
                last_in_chunks(raw.chunks@, pairs_spec[k]),
                views(lhs_lines@),
                views(rhs_lines@),
            ),
        decreases n - i,
    {
        let (lhs_line, rhs_line) = pairs[i];
        let chunk = find_chunk_line(&raw.chunks, (lhs_line, rhs_line));
        let lhs_spans = side_spans_exec(chunk, true);
        let rhs_spans = side_spans_exec(chunk, false);
        let is_novel_lhs = side_novel_exec(chunk, true, rhs_line);
        let is_novel_rhs = side_novel_exec(chunk, false, lhs_line);
        let lhs_text = line_text(lhs_lines, lhs_line);
        let rhs_text = line_text(rhs_lines, rhs_line);
        let row = AlignedLine {
            lhs_line,
            rhs_line,
            file_c_only_line: None,
            lhs_text,
            rhs_text,
            is_novel_lhs,
            is_novel_rhs,
            lhs_spans,
            rhs_spans,
        };
        let row = normalize_aligned_line(&row);
        rows.push(row);
        i = i + 1;
    }
    let mut file = DiffFile {
        path: raw.path,
        language: raw.language,
        status: raw.status,
        extra_info: raw.extra_info,
        aligned_lines: rows,
        lhs_syntax_blocks: raw.lhs_syntax_blocks,
        rhs_syntax_blocks: raw.rhs_syntax_blocks,
    };
    file
}

/// The statement labels are exactly those starting with `(match arm`, `(if`, `(match`, `(for`,
/// `(while`, `(loop` or `(switch`.
pub proof fn law_statement_labels(label: Seq<char>)
    ensures
        is_statement(label) <==> ("(match arm"@.is_prefix_of(label) || "(if"@.is_prefix_of(label)
            || "(match"@.is_prefix_of(label) || "(for"@.is_prefix_of(label) || "(while"@.is_prefix_of(label)
            || "(loop"@.is_prefix_of(label) || "(switch"@.is_prefix_of(label)),
{
}

/// When a non-trivial block containing the line is a loop or branch (a `(for`, `(while`, `(loop`,
/// `(if`, `(match` or `(switch` block), a gutter click selects such a statement block containing
/// the line, no larger than it.
pub proof fn law_gutter_prefers_loops_and_branches(blocks: Seq<SyntaxBlock>, line: u32, j: int)
    requires
        0 <= j < blocks.len(),
        contains_line(blocks[j], line),
        !is_trivial(blocks[j]),
        "(for"@.is_prefix_of(blocks[j].label@) || "(while"@.is_prefix_of(blocks[j].label@)
            || "(loop"@.is_prefix_of(blocks[j].label@) || "(if"@.is_prefix_of(blocks[j].label@)
            || "(match"@.is_prefix_of(blocks[j].label@) || "(switch"@.is_prefix_of(blocks[j].label@),
    ensures
        gutter_index(blocks, line) matches Some(i) && 0 <= i < blocks.len() && contains_line(blocks[i], line)
            && !is_trivial(blocks[i]) && span_size(blocks[i]) <= span_size(blocks[j])
            && ("(match arm"@.is_prefix_of(blocks[i].label@) || "(if"@.is_prefix_of(blocks[i].label@)
            || "(match"@.is_prefix_of(blocks[i].label@) || "(for"@.is_prefix_of(blocks[i].label@)
            || "(while"@.is_prefix_of(blocks[i].label@) || "(loop"@.is_prefix_of(blocks[i].label@)
            || "(switch"@.is_prefix_of(blocks[i].label@)),
{
    law_statement_labels(blocks[j].label@);
    assert(kind_candidate(blocks[j], line, LabelKind::Statement));
    law_gutter_selects_containing_block(blocks, line);
    let i = gutter_index(blocks, line)->0;
    law_statement_labels(blocks[i].label@);
}

/// The spans of each side of a converted row are the changes difft reported for that side of
/// the row's chunk line, in order (positions, highlight, content without trailing `\r`), all
/// novel; a side without changes there has no spans.
pub proof fn law_converted_spans_follow_sides(
    row: AlignedLine,
    pair: (Option<u32>, Option<u32>),
    c: Option<NewChunkLine>,
    lhs_lines: Seq<Seq<char>>,
    rhs_lines: Seq<Seq<char>>,
)
    requires
        converted_row(row, pair, c, lhs_lines, rhs_lines),
    ensures
        (c matches Some(l) && l.rhs matches Some(side)) ==> {
            let ch = c->0.rhs->0.changes@;
            &&& row.rhs_spans@.len() == ch.len()
            &&& forall|k: int| 0 <= k < ch.len() ==> {
                &&& (#[trigger] row.rhs_spans@[k]).start == ch[k].start
                &&& row.rhs_spans@[k].end == ch[k].end
                &&& row.rhs_spans@[k].content@ == strip_cr(strip_cr(ch[k].content@))
                &&& row.rhs_spans@[k].highlight == ch[k].highlight
                &&& row.rhs_spans@[k].is_novel
            }
        },
        (c matches Some(l) && l.lhs matches Some(side)) ==> {
            let ch = c->0.lhs->0.changes@;
            &&& row.lhs_spans@.len() == ch.len()
            &&& forall|k: int| 0 <= k < ch.len() ==> {
                &&& (#[trigger] row.lhs_spans@[k]).start == ch[k].start
                &&& row.lhs_spans@[k].end == ch[k].end
                &&& row.lhs_spans@[k].content@ == strip_cr(strip_cr(ch[k].content@))
                &&& row.lhs_spans@[k].highlight == ch[k].highlight
                &&& row.lhs_spans@[k].is_novel
            }
        },
        (c is None || c->0.rhs is None) ==> row.rhs_spans@.len() == 0,
        (c is None || c->0.lhs is None) ==> row.lhs_spans@.len() == 0,
{
    if c is Some && c->0.rhs is Some {
        let ch = c->0.rhs->0.changes@;
        assert(spans_view(row.rhs_spans@) == strip_spans(changes_spans(ch)));
        assert(row.rhs_spans@.len() == spans_view(row.rhs_spans@).len());
        assert forall|k: int| 0 <= k < ch.len() implies {
            &&& (#[trigger] row.rhs_spans@[k]).start == ch[k].start
            &&& row.rhs_spans@[k].end == ch[k].end
            &&& row.rhs_spans@[k].content@ == strip_cr(strip_cr(ch[k].content@))
            &&& row.rhs_spans@[k].highlight == ch[k].highlight
            &&& row.rhs_spans@[k].is_novel
        } by {
            assert(spans_view(row.rhs_spans@)[k] == span_view(row.rhs_spans@[k]));
            assert(strip_spans(changes_spans(ch))[k] == strip_span(change_span(ch[k])));
        }
    }
    if c is Some && c->0.lhs is Some {
        let ch = c->0.lhs->0.changes@;
        assert(spans_view(row.lhs_spans@) == strip_spans(changes_spans(ch)));
        assert(row.lhs_spans@.len() == spans_view(row.lhs_spans@).len());
        assert forall|k: int| 0 <= k < ch.len() implies {
            &&& (#[trigger] row.lhs_spans@[k]).start == ch[k].start
            &&& row.lhs_spans@[k].end == ch[k].end
            &&& row.lhs_spans@[k].content@ == strip_cr(strip_cr(ch[k].content@))
            &&& row.lhs_spans@[k].highlight == ch[k].highlight
            &&& row.lhs_spans@[k].is_novel
        } by {
            assert(spans_view(row.lhs_spans@)[k] == span_view(row.lhs_spans@[k]));
            assert(strip_spans(changes_spans(ch))[k] == strip_span(change_span(ch[k])));
        }
    }
    assert(row.rhs_spans@.len() == spans_view(row.rhs_spans@).len());
    assert(row.lhs_spans@.len() == spans_view(row.lhs_spans@).len());
}

} // verus!
