//! Undo history of file C edits (Apply / Delete / Move), bounded to the most recent snapshots.

use vstd::prelude::*;
use crate::text::{copy_string, views};

verus! {

pub const MAX_APPLY_HISTORY: usize = 100;

/// Snapshots of file C taken before each edit; the last one is undone first.
pub struct ApplyHistory {
    undo_stack: Vec<Vec<String>>,
}

/// The history after recording `lines`: the oldest snapshots beyond the bound are dropped.
pub open spec fn pushed(h: Seq<Seq<Seq<char>>>, lines: Seq<Seq<char>>) -> Seq<Seq<Seq<char>>> {
    let p = h.push(lines);
    if p.len() > MAX_APPLY_HISTORY {
        p.skip(p.len() - MAX_APPLY_HISTORY)
    } else {
        p
    }
}

/// A copy of `lines`.
pub fn copy_lines(lines: &[String]) -> (r: Vec<String>)
    ensures
        views(r@) == views(lines@),
{
    let mut r: Vec<String> = Vec::new();
    let n = lines.len();
    let mut i: usize = 0;
    while i < n
        invariant
            n == lines@.len(),
            i <= n,
            views(r@) == views(lines@).take(i as int),
        decreases n - i,
    {
        let ghost before = r@;
        r.push(copy_string(&lines[i]));
        assert(views(r@) =~= views(before).push(lines@[i as int]@));
        assert(views(r@) =~= views(lines@).take(i + 1));
        i = i + 1;
    }
    assert(views(lines@).take(n as int) =~= views(lines@));
    r
}

impl View for ApplyHistory {
    type V = Seq<Seq<Seq<char>>>;

    closed spec fn view(&self) -> Seq<Seq<Seq<char>>> {
        self.undo_stack@.map_values(|v: Vec<String>| views(v@))
    }
}

impl ApplyHistory {
    #[verifier::type_invariant]
    closed spec fn bounded(self) -> bool {
        self.undo_stack@.len() <= MAX_APPLY_HISTORY
    }

    pub fn new() -> (h: Self)
        ensures
            h@ == Seq::<Seq<Seq<char>>>::empty(),
    {
        let h = Self { undo_stack: Vec::new() };
        assert(h@ =~= Seq::<Seq<Seq<char>>>::empty());
        h
    }

    pub fn clear(&mut self)
        ensures
            final(self)@ == Seq::<Seq<Seq<char>>>::empty(),
    {
        self.undo_stack = Vec::new();
        assert(self@ =~= Seq::<Seq<Seq<char>>>::empty());
    }

    pub fn push_snapshot(&mut self, file_c_lines: &[String])
        ensures
            final(self)@ == pushed(old(self)@, views(file_c_lines@)),
            final(self)@.len() <= MAX_APPLY_HISTORY,
    {
        proof {
            use_type_invariant(&*self);
        }
        let snapshot = copy_lines(file_c_lines);
        let mut stack: Vec<Vec<String>> = Vec::new();
        std::mem::swap(&mut stack, &mut self.undo_stack);
        let ghost orig = stack@;
        stack.push(snapshot);
        let ghost p = orig.push(snapshot);
        assert(stack@ == p);
        if stack.len() > MAX_APPLY_HISTORY {
            let ghost before = stack@;
            stack.remove(0);
            assert(stack@ =~= p.skip(p.len() - MAX_APPLY_HISTORY));
        }
        self.undo_stack = stack;
        assert(self@ =~= pushed(old(self)@, views(file_c_lines@)));
    }

    pub fn pop_snapshot(&mut self) -> (r: Option<Vec<String>>)
        ensures
            old(self)@.len() == 0 ==> r is None && final(self)@ == old(self)@,
            old(self)@.len() > 0 ==> (r matches Some(v) && views(v@) == old(self)@.last()
                && final(self)@ == old(self)@.drop_last()),
    {
        proof {
            use_type_invariant(&*self);
        }
        let mut stack: Vec<Vec<String>> = Vec::new();
        std::mem::swap(&mut stack, &mut self.undo_stack);
        let ghost orig = stack@;
        let r = stack.pop();
        self.undo_stack = stack;
        proof {
            if orig.len() > 0 {
                assert(self@ =~= old(self)@.drop_last());
            } else {
                assert(self@ =~= old(self)@);
            }
        }
        r
    }

    pub fn file_c_modified(&self) -> (b: bool)
        ensures
            b == (self@.len() > 0),
    {
        !self.undo_stack.is_empty()
    }
}

/// Undo returns the snapshot recorded last: pushing then popping gives the pushed lines back
/// and leaves the earlier history (bounded) as it was.
pub proof fn law_push_then_pop(h: Seq<Seq<Seq<char>>>, lines: Seq<Seq<char>>)
    requires
        h.len() <= MAX_APPLY_HISTORY,
    ensures
        pushed(h, lines).len() > 0,
        pushed(h, lines).last() == lines,
        pushed(h, lines).drop_last() == (if h.len() < MAX_APPLY_HISTORY { h } else { h.drop_first() }),
        pushed(h, lines).len() <= MAX_APPLY_HISTORY,
{
    let p = h.push(lines);
    if p.len() > MAX_APPLY_HISTORY {
        assert(p.skip(1).drop_last() =~= h.drop_first());
    } else {
        assert(p.drop_last() =~= h);
    }
}

} // verus!
