//! The stack of spans entered on one thread.
use std::collections::HashSet;
use vstd::prelude::*;

verus! {

broadcast use vstd::std_specs::hash::group_hash_axioms;

/// One entry of the span stack: an identifier, and whether the same
/// identifier already stood lower on the stack when it was pushed.
pub struct ContextId {
    pub id: u64,
    pub duplicate: bool,
}

/// Whether `id` occurs anywhere in the stack `s`.
pub open spec fn holds_id(s: Seq<(u64, bool)>, id: u64) -> bool {
    exists|i: int| 0 <= i < s.len() && (#[trigger] s[i]).0 == id
}

/// An entry is a duplicate exactly when its identifier occurs below it.
pub open spec fn flags_ok(s: Seq<(u64, bool)>) -> bool {
    forall|i: int| 0 <= i < s.len() ==> (#[trigger] s[i]).1 == holds_id(s.take(i), s[i].0)
}

/// The stack after entering `id`.
pub open spec fn push_spec(s: Seq<(u64, bool)>, id: u64) -> Seq<(u64, bool)> {
    s.push((id, holds_id(s, id)))
}

/// The stack after exiting `expected`: the top is taken off only when it
/// carries that identifier.
pub open spec fn pop_spec(s: Seq<(u64, bool)>, expected: u64) -> Seq<(u64, bool)> {
    if s.len() > 0 && s.last().0 == expected {
        s.drop_last()
    } else {
        s
    }
}

/// The current span: the topmost entry that is not a duplicate.
pub open spec fn current_spec(s: Seq<(u64, bool)>) -> Option<u64>
    decreases s.len(),
{
    if s.len() == 0 {
        None
    } else if !s.last().1 {
        Some(s.last().0)
    } else {
        current_spec(s.drop_last())
    }
}

/// The identifiers of a thread's entered spans, in the order they were
/// entered, each re-entry marked as a duplicate.
pub struct SpanStack {
    stack: Vec<ContextId>,
    ids: HashSet<u64>,
}

impl View for SpanStack {
    type V = Seq<(u64, bool)>;

    closed spec fn view(&self) -> Seq<(u64, bool)> {
        self.stack@.map_values(|c: ContextId| (c.id, c.duplicate))
    }
}

impl SpanStack {
    /// The entries' flags are right, and the set holds exactly the
    /// identifiers on the stack.
    pub closed spec fn wf(&self) -> bool {
        &&& flags_ok(self@)
        &&& forall|id: u64| self.ids@.contains(id) <==> holds_id(self@, id)
    }

    pub fn new() -> (r: Self)
        ensures
            r.wf(),
            r@ == Seq::<(u64, bool)>::empty(),
    {
        SpanStack { stack: Vec::new(), ids: HashSet::new() }
    }

    /// Enters `id`; returns whether this entry is the first one of `id`
    /// on the stack (not a duplicate).
    pub fn push(&mut self, id: u64) -> (r: bool)
        requires
            old(self).wf(),
        ensures
            final(self).wf(),
            final(self)@ == push_spec(old(self)@, id),
            r == !holds_id(old(self)@, id),
    {
        let duplicate = self.ids.contains(&id);
        if !duplicate {
            self.ids.insert(id);
        }
        let ghost s = self@;
        self.stack.push(ContextId { id, duplicate });
        assert(self@ =~= push_spec(s, id));
        assert(self@.take(s.len() as int) =~= s);
        assert forall|i: int| 0 <= i < self@.len() implies (#[trigger] self@[i]).1 == holds_id(
            self@.take(i),
            self@[i].0,
        ) by {
            if i < s.len() {
                assert(self@.take(i) =~= s.take(i));
            }
        }
        assert forall|x: u64| self.ids@.contains(x) <==> holds_id(self@, x) by {
            if holds_id(self@, x) && x != id {
                let j = choose|j: int| 0 <= j < self@.len() && (#[trigger] self@[j]).0 == x;
                assert(s[j].0 == x);
            }
            if x == id {
                assert(self@[s.len() as int].0 == id);
            }
            if holds_id(s, x) {
                let j = choose|j: int| 0 <= j < s.len() && (#[trigger] s[j]).0 == x;
                assert(self@[j].0 == x);
            }
        }
        !duplicate
    }
    /// Exits `expected`: the top entry is removed only when it carries that
    /// identifier. Returns the identifier when the removed entry was not a
    /// duplicate, that is when the thread has now left the span.
    pub fn pop(&mut self, expected_id: u64) -> (r: Option<u64>)
        requires
            old(self).wf(),
        ensures
            final(self).wf(),
            final(self)@ == pop_spec(old(self)@, expected_id),
            r == (if old(self)@.len() > 0 && old(self)@.last().0 == expected_id
                && !old(self)@.last().1 {
                Some(expected_id)
            } else {
                None
            }),
    {
        let n = self.stack.len();
        if n == 0 {
            return None;
        }
        if self.stack[n - 1].id != expected_id {
            return None;
        }
        let ghost s = self@;
        let top = self.stack.pop().unwrap();
        assert(self@ =~= s.drop_last());
        assert(s.take(n - 1) =~= self@);
        assert forall|i: int| 0 <= i < self@.len() implies (#[trigger] self@[i]).1 == holds_id(
            self@.take(i),
            self@[i].0,
        ) by {
            assert(self@.take(i) =~= s.take(i));
            assert(s[i] == self@[i]);
        }
        assert(s[n - 1].1 == holds_id(s.take(n - 1), s[n - 1].0));
        assert(top.duplicate == holds_id(self@, top.id));
        let ghost before = self.ids@;
        if !top.duplicate {
            self.ids.remove(&top.id);
        }
        assert(top.duplicate ==> self.ids@ == before);
        assert(!top.duplicate ==> self.ids@ == before.remove(top.id));
        assert forall|x: u64| self.ids@.contains(x) <==> holds_id(self@, x) by {
            if holds_id(self@, x) {
                let j = choose|j: int| 0 <= j < self@.len() && (#[trigger] self@[j]).0 == x;
                assert(s[j].0 == x);
            }
            assert(s[n - 1].0 == top.id);
            assert(before.contains(x) <==> holds_id(s, x));
            if holds_id(s, x) && x != top.id {
                let j = choose|j: int| 0 <= j < s.len() && (#[trigger] s[j]).0 == x;
                assert(j != n - 1);
                assert(self@[j].0 == x);
            }
        }
        if top.duplicate {
            None
        } else {
            Some(top.id)
        }
    }

    /// The topmost entry that is not a duplicate, if any.
    pub fn current(&self) -> (r: Option<u64>)
        requires
            self.wf(),
        ensures
            r == current_spec(self@),
    {
        let mut i: usize = self.stack.len();
        assert(self@.take(i as int) =~= self@);
        while i > 0
            invariant
                i <= self.stack.len(),
                current_spec(self@) == current_spec(self@.take(i as int)),
            decreases i,
        {
            let ghost t = self@.take(i as int);
            assert(t.drop_last() =~= self@.take(i - 1));
            if !self.stack[i - 1].duplicate {
                return Some(self.stack[i - 1].id);
            }
            i = i - 1;
        }
        None
    }
}

/// Entering a span twice on one thread and then exiting it twice leaves the
/// stack as it was, and the second entry does not change the current span.
pub proof fn lemma_duplicate_entry_transparent(s: Seq<(u64, bool)>, id: u64)
    ensures
        pop_spec(pop_spec(push_spec(push_spec(s, id), id), id), id) == s,
        current_spec(push_spec(push_spec(s, id), id)) == current_spec(push_spec(s, id)),
        current_spec(push_spec(s, id)) == (if holds_id(s, id) {
            current_spec(s)
        } else {
            Some(id)
        }),
{
    let once = push_spec(s, id);
    let twice = push_spec(once, id);
    assert(once.last().0 == id);
    assert(holds_id(once, id));
    assert(twice.drop_last() =~= once);
    assert(once.drop_last() =~= s);
}

} // verus!
