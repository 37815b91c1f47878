//! The span store: a slab of slots addressed by span identifier, an
//! index-linked free list threaded through the empty slots, and a reference
//! count per live span.
use crate::stack::{current_spec, holds_id, pop_spec, push_spec, SpanStack};
use vstd::prelude::*;
use vstd::string::StringExecFns;

verus! {

/// What the store holds for one live span.
pub struct SpanView<M> {
    pub parent: Option<u64>,
    pub metadata: M,
    pub ref_count: nat,
    pub fields: Seq<char>,
    /// When the span was created: later spans have larger stamps.
    pub stamp: nat,
}

/// The record of a live span.
struct Data<M> {
    parent: Option<u64>,
    metadata: M,
    ref_count: usize,
    has_fields: bool,
    stamp: Ghost<nat>,
}

/// A slot holds a live span, or is empty and names the next free slot
/// (the slab's length ends the chain).
enum State<M> {
    Full(Data<M>),
    Empty(usize),
}

/// One cell of the slab. The field buffer stays with the slot when the span
/// leaves, cleared, so that the next span reuses its allocation.
struct Slot<M> {
    fields: String,
    span: State<M>,
}

/// Where a new span takes its parent from.
#[derive(Clone, Copy, Debug, PartialEq, Eq)]
pub enum Parent {
    /// No parent.
    Root,
    /// The span currently entered on this thread, if any.
    Contextual,
    /// The given span.
    Explicit(u64),
}

/// Live spans and the storage they occupy.
pub struct Store<M> {
    slab: Vec<Slot<M>>,
    /// Head of the free list: the slab's length when no slot is free.
    next: usize,
    /// The free slots, from the head to the end of the chain.
    free: Ghost<Seq<usize>>,
    /// The stamp that the next span gets.
    clock: Ghost<nat>,
}

/// Identifier `i` stands for slot `i - 1`.
pub open spec fn idx_of(id: u64) -> int {
    id - 1
}

spec fn slot_view<M>(slot: Slot<M>) -> SpanView<M> {
    match slot.span {
        State::Full(d) => SpanView {
            parent: d.parent,
            metadata: d.metadata,
            ref_count: d.ref_count as nat,
            fields: slot.fields@,
            stamp: d.stamp@,
        },
        State::Empty(_) => SpanView {
            parent: None,
            metadata: arbitrary(),
            ref_count: 0,
            fields: Seq::empty(),
            stamp: 0,
        },
    }
}

/// The count of a live span after one more reference is taken; it stays
/// put at the largest count that can be held.
pub open spec fn bumped(c: nat) -> nat {
    if c < usize::MAX {
        c + 1
    } else {
        c
    }
}

/// The spans after one more reference to `id` is taken (unchanged when `id`
/// is not live).
pub open spec fn clone_spec<M>(m: Map<u64, SpanView<M>>, id: u64) -> Map<u64, SpanView<M>> {
    if m.contains_key(id) {
        m.insert(id, SpanView { ref_count: bumped(m[id].ref_count), ..m[id] })
    } else {
        m
    }
}

/// The spans after one reference to `id` is released: at the last one the
/// span leaves, and releases in turn the reference it held to its parent.
pub open spec fn release<M>(m: Map<u64, SpanView<M>>, id: u64) -> Map<u64, SpanView<M>>
    decreases m.dom().len(),
{
    if !m.dom().finite() || !m.contains_key(id) {
        m
    } else if m[id].ref_count > 1 {
        m.insert(id, SpanView { ref_count: (m[id].ref_count - 1) as nat, ..m[id] })
    } else {
        match m[id].parent {
            None => m.remove(id),
            Some(p) => release(m.remove(id), p),
        }
    }
}

/// The slots that releasing one reference to `id` frees, in the order they
/// then head the free list: the last span to leave first, `id`'s own slot
/// last.
pub open spec fn freed<M>(m: Map<u64, SpanView<M>>, id: u64) -> Seq<usize>
    decreases m.dom().len(),
{
    if !m.dom().finite() || !m.contains_key(id) || m[id].ref_count > 1 {
        Seq::empty()
    } else {
        match m[id].parent {
            None => seq![(id - 1) as usize],
            Some(p) => freed(m.remove(id), p).push((id - 1) as usize),
        }
    }
}

/// The spans after `id` is entered on a stack that held `s`: a first entry
/// takes a reference.
pub open spec fn enter_spec<M>(m: Map<u64, SpanView<M>>, s: Seq<(u64, bool)>, id: u64) -> Map<
    u64,
    SpanView<M>,
> {
    if holds_id(s, id) {
        m
    } else {
        clone_spec(m, id)
    }
}

/// Whether exiting `id` from a stack that holds `s` leaves a first entry.
pub open spec fn leaves(s: Seq<(u64, bool)>, id: u64) -> bool {
    s.len() > 0 && s.last().0 == id && !s.last().1
}

/// The spans after `id` is exited from a stack that held `s`: leaving a
/// first entry releases the reference it took.
pub open spec fn exit_spec<M>(m: Map<u64, SpanView<M>>, s: Seq<(u64, bool)>, id: u64) -> Map<
    u64,
    SpanView<M>,
> {
    if leaves(s, id) {
        release(m, id)
    } else {
        m
    }
}

/// The spans after `values` are appended to the fields of `id` (unchanged when
/// `id` is not live).
pub open spec fn record_spec<M>(m: Map<u64, SpanView<M>>, id: u64, values: Seq<char>) -> Map<
    u64,
    SpanView<M>,
> {
    if m.contains_key(id) {
        m.insert(id, SpanView { fields: m[id].fields + values, ..m[id] })
    } else {
        m
    }
}

/// The parent that a new span gets: the chosen span when it is live, and
/// none otherwise.
pub open spec fn parent_spec<M>(m: Map<u64, SpanView<M>>, s: Seq<(u64, bool)>, parent: Parent) -> Option<u64> {
    let chosen = match parent {
        Parent::Root => None,
        Parent::Contextual => current_spec(s),
        Parent::Explicit(p) => Some(p),
    };
    match chosen {
        Some(p) => if m.contains_key(p) {
            Some(p)
        } else {
            None
        },
        None => None,
    }
}

/// The spans after a reference to the new span's parent is taken.
pub open spec fn adopt_spec<M>(m: Map<u64, SpanView<M>>, p: Option<u64>) -> Map<u64, SpanView<M>> {
    match p {
        Some(p) => clone_spec(m, p),
        None => m,
    }
}

/// Relies on `String::clear`: the buffer becomes empty and keeps its
/// allocation.
#[verifier::external_body]
fn clear_string(buf: &mut String)
    ensures
        final(buf)@ == Seq::<char>::empty(),
{
    buf.clear()
}

/// The chain of live spans from `id` up through parent links, innermost
/// first, at most `fuel` long.
pub open spec fn ancestry<M>(m: Map<u64, SpanView<M>>, id: u64, fuel: nat) -> Seq<u64>
    decreases fuel,
{
    if fuel == 0 || !m.contains_key(id) {
        Seq::empty()
    } else {
        match m[id].parent {
            None => seq![id],
            Some(p) => seq![id] + ancestry(m, p, (fuel - 1) as nat),
        }
    }
}

pub open spec fn ancestry_from<M>(m: Map<u64, SpanView<M>>, id: Option<u64>, fuel: nat) -> Seq<u64> {
    match id {
        Some(c) => ancestry(m, c, fuel),
        None => Seq::empty(),
    }
}

/// `s` back to front.
pub open spec fn reversed(s: Seq<u64>) -> Seq<u64> {
    Seq::new(s.len(), |k: int| s[s.len() - 1 - k])
}

/// A read handle on a live span.
pub struct Span<'a, M> {
    data: &'a Data<M>,
    fields: &'a String,
}

impl<'a, M> Span<'a, M> {
    /// The span as it was when the handle was taken.
    pub closed spec fn view(&self) -> SpanView<M> {
        SpanView {
            parent: self.data.parent,
            metadata: self.data.metadata,
            ref_count: self.data.ref_count as nat,
            fields: self.fields@,
            stamp: self.data.stamp@,
        }
    }

    pub fn metadata(&self) -> (r: &'a M)
        ensures
            *r == self.view().metadata,
    {
        &self.data.metadata
    }

    /// The span's fields as recorded so far.
    pub fn fields(&self) -> (r: &'a str)
        ensures
            r@ == self.view().fields,
    {
        self.fields.as_str()
    }

    pub fn parent(&self) -> (r: Option<u64>)
        ensures
            r == self.view().parent,
    {
        self.data.parent
    }
}

impl<M> View for Store<M> {
    type V = Map<u64, SpanView<M>>;

    /// The live spans by identifier.
    closed spec fn view(&self) -> Map<u64, SpanView<M>> {
        Map::new(
            |id: u64| 1 <= id <= self.slab@.len() && self.slab@[idx_of(id)].span is Full,
            |id: u64| slot_view(self.slab@[idx_of(id)]),
        )
    }
}

impl<M> Store<M> {
    /// Number of slots; it never decreases.
    pub closed spec fn slab_len_spec(&self) -> nat {
        self.slab@.len()
    }

    /// The stamp that the next span gets.
    pub closed spec fn clock_spec(&self) -> nat {
        self.clock@
    }

    /// The free slots' indices, most recently freed first.
    pub closed spec fn free_spec(&self) -> Seq<usize> {
        self.free@
    }

    /// The free list starts at `next` and runs through exactly the empty
    /// slots, each empty slot naming its successor; live spans hold at least
    /// one reference; empty slots hold an empty buffer.
    pub closed spec fn wf(&self) -> bool {
        let n = self.slab@.len();
        let f = self.free@;
        &&& n <= usize::MAX
        &&& f.no_duplicates()
        &&& (f.len() == 0 ==> self.next == n)
        &&& (f.len() > 0 ==> self.next == f[0])
        &&& forall|k: int|
            0 <= k < f.len() ==> {
                &&& (#[trigger] f[k]) < n
                &&& self.slab@[f[k] as int].span == State::<M>::Empty(
                    if k + 1 < f.len() {
                        f[k + 1]
                    } else {
                        n as usize
                    },
                )
            }
        &&& forall|i: int|
            0 <= i < n ==> match (#[trigger] self.slab@[i]).span {
                State::Empty(_) => f.contains(i as usize) && self.slab@[i].fields@.len() == 0,
                State::Full(d) => d.ref_count >= 1 && d.has_fields == (self.slab@[i].fields@.len()
                    > 0) && d.stamp@ < self.clock@,
            }
    }

    /// An empty store with room for `capacity` slots before it reallocates.
    pub fn with_capacity(capacity: usize) -> (r: Self)
        ensures
            r.wf(),
            r@ == Map::<u64, SpanView<M>>::empty(),
            r.slab_len_spec() == 0,
            r.free_spec() == Seq::<usize>::empty(),
            r.clock_spec() == 0,
    {
        let r = Store {
            slab: Vec::with_capacity(capacity),
            next: 0,
            free: Ghost(Seq::empty()),
            clock: Ghost(0),
        };
        assert(r@ =~= Map::<u64, SpanView<M>>::empty());
        r
    }
    /// Whether `id` names a live span.
    pub fn contains(&self, id: u64) -> (r: bool)
        requires
            self.wf(),
        ensures
            r == self@.contains_key(id),
    {
        if id == 0 || id > self.slab.len() as u64 {
            return false;
        }
        match &self.slab[(id - 1) as usize].span {
            State::Full(_) => true,
            State::Empty(_) => false,
        }
    }

    /// Takes one more reference to `id` and returns `id`. Nothing changes
    /// when `id` is not live.
    pub fn clone_span(&mut self, id: u64) -> (r: u64)
        requires
            old(self).wf(),
        ensures
            final(self).wf(),
            final(self)@ == clone_spec(old(self)@, id),
            r == id,
            final(self).slab_len_spec() == old(self).slab_len_spec(),
            final(self).clock_spec() == old(self).clock_spec(),
            final(self).free_spec() == old(self).free_spec(),
            parents_older(old(self)@) ==> parents_older(final(self)@),
    {
        if id == 0 || id > self.slab.len() as u64 {
            assert(self@ =~= clone_spec(self@, id));
            return id;
        }
        let idx = (id - 1) as usize;
        let ghost s0 = self.slab@;
        let ghost v0 = self@;
        match &mut self.slab[idx].span {
            State::Full(d) => {
                if d.ref_count < usize::MAX {
                    d.ref_count = d.ref_count + 1;
                }
            },
            State::Empty(_) => {},
        }
        proof {
            assert(self.slab@ =~= s0.update(idx as int, self.slab@[idx as int]));
            assert forall|i: int| 0 <= i < self.slab@.len() && i != idx implies self.slab@[i]
                == s0[i] by {}
            assert(self@ =~= clone_spec(v0, id));
            if parents_older(v0) {
                assert(self@.dom() =~= v0.dom());
                lemma_same_links_keep_order(v0, self@);
            }
        }
        id
    }

    /// Appends `values` to the fields of `id`. Nothing changes when `id` is
    /// not live.
    pub fn record(&mut self, id: u64, values: &str)
        requires
            old(self).wf(),
        ensures
            final(self).wf(),
            final(self)@ == record_spec(old(self)@, id, values@),
            final(self).slab_len_spec() == old(self).slab_len_spec(),
            final(self).clock_spec() == old(self).clock_spec(),
            final(self).free_spec() == old(self).free_spec(),
            parents_older(old(self)@) ==> parents_older(final(self)@),
    {
        if !self.contains(id) {
            assert(self@ =~= record_spec(self@, id, values@));
            return;
        }
        let idx = (id - 1) as usize;
        let ghost s0 = self.slab@;
        let ghost v0 = self@;
        self.slab[idx].fields.append(values);
        let non_empty = !self.slab[idx].fields.as_str().is_empty();
        match &mut self.slab[idx].span {
            State::Full(d) => {
                d.has_fields = non_empty;
            },
            State::Empty(_) => {},
        }
        proof {
            assert(s0[idx as int].span is Full);
            assert(self.slab@[idx as int].span is Full);
            assert(self.slab@[idx as int].fields@ == s0[idx as int].fields@ + values@);
            assert(self.slab@.len() == s0.len());
            assert forall|i: int| 0 <= i < self.slab@.len() && i != idx implies self.slab@[i]
                == s0[i] by {}
            assert(slot_view(self.slab@[idx as int]) == SpanView {
                fields: v0[id].fields + values@,
                ..v0[id]
            });
            assert(self@ =~= record_spec(v0, id, values@));
            if parents_older(v0) {
                assert(self@.dom() =~= v0.dom());
                lemma_same_links_keep_order(v0, self@);
            }
        }
    }
    /// Stores a new span with one reference and returns its identifier.
    ///
    /// The span takes the slot at the head of the free list, the one freed
    /// most recently, or a new slot at the end of the slab when none is free.
    /// Its parent, when the chosen one is live, gains a reference. Its
    /// fields are exactly `fields`: a reused slot keeps nothing of its
    /// former span. Identifier 0 is returned, and nothing changes, only when
    /// no slot is free and the slab cannot grow.
    pub fn new_span(&mut self, stack: &SpanStack, parent: Parent, metadata: M, fields: &str) -> (r: u64)
        requires
            old(self).wf(),
            stack.wf(),
        ensures
            final(self).wf(),
            final(self).slab_len_spec() >= old(self).slab_len_spec(),
            final(self).clock_spec() == old(self).clock_spec() + (if r == 0 {
                0nat
            } else {
                1nat
            }),
            (r == 0) == (old(self).free_spec().len() == 0 && old(self).slab_len_spec()
                == usize::MAX),
            r == 0 ==> final(self)@ == old(self)@ && final(self).slab_len_spec()
                == old(self).slab_len_spec(),
            r != 0 ==> {
                let p = parent_spec(old(self)@, stack@, parent);
                &&& !old(self)@.contains_key(r)
                &&& final(self)@ == adopt_spec(old(self)@, p).insert(
                    r,
                    SpanView {
                        parent: p,
                        metadata,
                        ref_count: 1,
                        fields: fields@,
                        stamp: old(self).clock_spec(),
                    },
                )
            },
            old(self).free_spec().len() > 0 ==> {
                &&& r == old(self).free_spec()[0] + 1
                &&& final(self).free_spec() == old(self).free_spec().drop_first()
                &&& final(self).slab_len_spec() == old(self).slab_len_spec()
            },
            (old(self).free_spec().len() == 0 && r != 0) ==> {
                &&& r == old(self).slab_len_spec() + 1
                &&& final(self).free_spec() == old(self).free_spec()
                &&& final(self).slab_len_spec() == old(self).slab_len_spec() + 1
            },
            r != 0 && parents_older(old(self)@) && unclaimed(old(self)@, r) ==> parents_older(
                final(self)@,
            ),
    {
        let head = self.next;
        let len = self.slab.len();
        if head == len && len == usize::MAX {
            return 0;
        }
        let chosen = match parent {
            Parent::Root => None,
            Parent::Contextual => stack.current(),
            Parent::Explicit(p) => Some(p),
        };
        let resolved = match chosen {
            Some(p) => if self.contains(p) {
                Some(p)
            } else {
                None
            },
            None => None,
        };
        let ghost v0 = self@;
        proof {
            self.lemma_stamps_below_clock();
        }
        if let Some(p) = resolved {
            self.clone_span(p);
        }
        let ghost v1 = self@;
        let ghost s1 = self.slab@;
        let ghost f1 = self.free@;
        let ghost v1clock = self.clock@;
        assert(v1 == adopt_spec(v0, resolved));
        let data = Data {
            parent: resolved,
            metadata,
            ref_count: 1,
            has_fields: !fields.is_empty(),
            stamp: Ghost(self.clock@),
        };
        self.clock = Ghost(self.clock@ + 1);
        if head < len {
            assert(f1[0] == head);
            let following = match &self.slab[head].span {
                State::Empty(n) => *n,
                State::Full(_) => len,
            };
            self.slab[head].fields.append(fields);
            self.slab[head].span = State::Full(data);
            self.next = following;
            self.free = Ghost(f1.drop_first());
            proof {
                assert(s1[head as int].fields@.len() == 0);
                assert(self.slab@[head as int].fields@ =~= fields@);
                assert forall|i: int| 0 <= i < self.slab@.len() && i != head implies self.slab@[i]
                    == s1[i] by {}
                assert forall|k: int| 0 <= k < self.free@.len() implies self.free@[k] != head by {
                    assert(self.free@[k] == f1[k + 1]);
                }
                assert forall|i: int|
                    0 <= i < self.slab@.len() && (#[trigger] self.slab@[i]).span is Empty implies self.free@.contains(
                    i as usize) by {
                    assert(f1.contains(i as usize));
                    let k = choose|k: int| 0 <= k < f1.len() && f1[k] == i as usize;
                    assert(k != 0);
                    assert(self.free@[k - 1] == i as usize);
                }
                assert(!v0.contains_key((head + 1) as u64));
                assert(self@ =~= v1.insert(
                    (head + 1) as u64,
                    SpanView {
                        parent: resolved,
                        metadata,
                        ref_count: 1,
                        fields: fields@,
                        stamp: v1clock,
                    },
                ));
            }
            proof {
                if parents_older(v0) && unclaimed(v0, (head + 1) as u64) {
                    lemma_new_span_keeps_order(v0, (head + 1) as u64, resolved, self@[(head + 1) as u64]);
                }
            }
            head as u64 + 1
        } else {
            assert(f1.len() == 0);
            let slot = Slot { fields: fields.to_owned(), span: State::Full(data) };
            self.slab.push(slot);
            self.next = len + 1;
            proof {
                assert forall|i: int| 0 <= i < len implies self.slab@[i] == s1[i] by {}
                assert forall|i: int| 0 <= i < len implies (#[trigger] s1[i]).span is Full by {
                    if s1[i].span is Empty {
                        assert(f1.contains(i as usize));
                    }
                }
                assert(self@ =~= v1.insert(
                    (len + 1) as u64,
                    SpanView {
                        parent: resolved,
                        metadata,
                        ref_count: 1,
                        fields: fields@,
                        stamp: v1clock,
                    },
                ));
            }
            proof {
                if parents_older(v0) && unclaimed(v0, (len + 1) as u64) {
                    lemma_new_span_keeps_order(v0, (len + 1) as u64, resolved, self@[(len + 1) as u64]);
                }
            }
            len as u64 + 1
        }
    }
    proof fn lemma_view_finite(&self)
        ensures
            self@.dom().finite(),
    {
        vstd::set_lib::lemma_set_subset_finite(Set::<u64>::full(), self@.dom());
    }

    fn ref_count_of(&self, id: u64) -> (r: Option<usize>)
        requires
            self.wf(),
        ensures
            r == (if self@.contains_key(id) {
                Some(self@[id].ref_count as usize)
            } else {
                None
            }),
    {
        if id == 0 || id > self.slab.len() as u64 {
            return None;
        }
        match &self.slab[(id - 1) as usize].span {
            State::Full(d) => Some(d.ref_count),
            State::Empty(_) => None,
        }
    }

    /// Empties the live slot `idx`, pushes it on the free list with its
    /// buffer cleared, and returns the parent that its span named.
    fn remove(&mut self, idx: usize) -> (r: Option<u64>)
        requires
            old(self).wf(),
            idx < old(self).slab@.len(),
            old(self).slab@[idx as int].span is Full,
        ensures
            final(self).wf(),
            final(self)@ == old(self)@.remove((idx + 1) as u64),
            r == old(self)@[(idx + 1) as u64].parent,
            final(self).slab_len_spec() == old(self).slab_len_spec(),
            final(self).clock_spec() == old(self).clock_spec(),
            final(self).free_spec() == seq![idx].add(old(self).free_spec()),
    {
        let ghost s0 = self.slab@;
        let ghost f0 = self.free@;
        let ghost v0 = self@;
        let head = self.next;
        let parent = match &self.slab[idx].span {
            State::Full(d) => d.parent,
            State::Empty(_) => None,
        };
        clear_string(&mut self.slab[idx].fields);
        self.slab[idx].span = State::Empty(head);
        self.next = idx;
        self.free = Ghost(seq![idx].add(f0));
        proof {
            assert forall|i: int| 0 <= i < self.slab@.len() && i != idx implies self.slab@[i]
                == s0[i] by {}
            assert forall|k: int| 0 <= k < f0.len() implies f0[k] != idx by {
                if f0[k] == idx {
                    assert(s0[f0[k] as int].span is Empty);
                }
            }
            let f = self.free@;
            assert forall|k: int| 0 <= k < f.len() && k > 0 implies f[k] == f0[k - 1] by {}
            assert forall|a: int, b: int| 0 <= a < f.len() && 0 <= b < f.len() && a != b implies f[a]
                != f[b] by {
                if a > 0 && b > 0 {
                    assert(f0[a - 1] != f0[b - 1]);
                }
            }
            assert forall|i: int|
                0 <= i < self.slab@.len() && (#[trigger] self.slab@[i]).span is Empty implies f.contains(
                i as usize) by {
                if i == idx {
                    assert(f[0] == idx);
                } else {
                    assert(f0.contains(i as usize));
                    let k = choose|k: int| 0 <= k < f0.len() && f0[k] == i as usize;
                    assert(f[k + 1] == i as usize);
                }
            }
            assert(self@ =~= v0.remove((idx + 1) as u64));
        }
        parent
    }

    /// Releases one reference to `id`. At the last one the span leaves: its
    /// slot joins the free list with its buffer cleared, and the reference
    /// it held to its parent is released in turn, and so on up. Returns
    /// whether `id` itself left. Nothing changes when `id` is not live.
    pub fn drop_span(&mut self, id: u64) -> (r: bool)
        requires
            old(self).wf(),
        ensures
            final(self).wf(),
            final(self)@ == release(old(self)@, id),
            final(self).free_spec() == freed(old(self)@, id) + old(self).free_spec(),
            r == (old(self)@.contains_key(id) && old(self)@[id].ref_count == 1),
            !r ==> final(self).free_spec() == old(self).free_spec(),
            final(self).slab_len_spec() == old(self).slab_len_spec(),
            final(self).clock_spec() == old(self).clock_spec(),
            parents_older(old(self)@) ==> parents_older(final(self)@),
    {
        let ghost m0 = self@;
        let ghost f0 = self.free@;
        proof {
            self.lemma_view_finite();
            if parents_older(m0) {
                lemma_release_keeps_order(m0, id);
            }
        }
        let ghost n0 = self.slab@.len();
        let removes = match self.ref_count_of(id) {
            Some(c) => c == 1,
            None => false,
        };
        let mut cur = id;
        loop
            invariant_except_break
                release(self@, cur) == release(m0, id),
                freed(self@, cur) + self.free@ == freed(m0, id) + f0,
            invariant
                self.wf(),
                self.slab@.len() == n0,
                self.clock@ == old(self).clock@,
            ensures
                self@ == release(m0, id),
                self.free@ == freed(m0, id) + f0,
            decreases self@.dom().len(),
        {
            proof {
                self.lemma_view_finite();
            }
            let count = match self.ref_count_of(cur) {
                Some(c) => c,
                None => {
                    assert(release(self@, cur) == self@);
                    assert(freed(self@, cur) + self.free@ =~= self.free@);
                    break;
                },
            };
            let idx = (cur - 1) as usize;
            if count > 1 {
                let ghost v = self@;
                let ghost s = self.slab@;
                match &mut self.slab[idx].span {
                    State::Full(d) => {
                        d.ref_count = d.ref_count - 1;
                    },
                    State::Empty(_) => {},
                }
                proof {
                    assert forall|i: int| 0 <= i < self.slab@.len() && i != idx implies self.slab@[i]
                        == s[i] by {}
                    assert(self@ =~= v.insert(
                        cur,
                        SpanView { ref_count: (v[cur].ref_count - 1) as nat, ..v[cur] },
                    ));
                    assert(self@ == release(v, cur));
                    assert(freed(v, cur) + self.free@ =~= self.free@);
                }
                break;
            }
            let ghost v = self@;
            let ghost fv = self.free@;
            let parent = self.remove(idx);
            assert(v[cur].ref_count == 1);
            match parent {
                Some(p) => {
                    proof {
                        let rest = freed(self@, p);
                        assert(freed(v, cur) == rest.push(idx));
                        assert(rest.push(idx) + fv =~= rest + (seq![idx] + fv));
                    }
                    cur = p;
                },
                None => {
                    assert(freed(v, cur) + fv =~= seq![idx] + fv);
                    break;
                },
            }
        }
        removes
    }
    /// A read handle on `id`, or none when `id` is not live.
    pub fn get(&self, id: u64) -> (r: Option<Span<'_, M>>)
        requires
            self.wf(),
        ensures
            r is Some == self@.contains_key(id),
            r is Some ==> r->0.view() == self@[id],
    {
        if id == 0 || id > self.slab.len() as u64 {
            return None;
        }
        let slot = &self.slab[(id - 1) as usize];
        match &slot.span {
            State::Full(data) => Some(Span { data, fields: &slot.fields }),
            State::Empty(_) => None,
        }
    }

    /// The span entered last on the thread of `stack`, leaving duplicate
    /// entries aside.
    pub fn current(&self, stack: &SpanStack) -> (r: Option<u64>)
        requires
            stack.wf(),
        ensures
            r == current_spec(stack@),
    {
        stack.current()
    }

    /// Enters `id` on the thread of `stack`. A first entry of `id` on that
    /// stack takes a reference to it; a duplicate one does not.
    pub fn push(&mut self, stack: &mut SpanStack, id: u64)
        requires
            old(self).wf(),
            old(stack).wf(),
        ensures
            final(self).wf(),
            final(stack).wf(),
            final(stack)@ == push_spec(old(stack)@, id),
            final(self)@ == enter_spec(old(self)@, old(stack)@, id),
            final(self).slab_len_spec() == old(self).slab_len_spec(),
            final(self).clock_spec() == old(self).clock_spec(),
            final(self).free_spec() == old(self).free_spec(),
            parents_older(old(self)@) ==> parents_older(final(self)@),
    {
        if stack.push(id) {
            self.clone_span(id);
        }
    }

    /// Exits `expected_id` on the thread of `stack`: only a top entry with
    /// that identifier is taken off. Leaving the first entry releases the
    /// reference that entering took.
    pub fn pop(&mut self, stack: &mut SpanStack, expected_id: u64)
        requires
            old(self).wf(),
            old(stack).wf(),
        ensures
            final(self).wf(),
            final(stack).wf(),
            final(stack)@ == pop_spec(old(stack)@, expected_id),
            final(self)@ == exit_spec(old(self)@, old(stack)@, expected_id),
            final(self).free_spec() == (if leaves(old(stack)@, expected_id) {
                freed(old(self)@, expected_id) + old(self).free_spec()
            } else {
                old(self).free_spec()
            }),
            final(self).slab_len_spec() == old(self).slab_len_spec(),
            final(self).clock_spec() == old(self).clock_spec(),
            parents_older(old(self)@) ==> parents_older(final(self)@),
    {
        if let Some(id) = stack.pop(expected_id) {
            self.drop_span(id);
        }
    }

    /// The identifiers from the root of the current span's trace down to
    /// the current span. The walk up the parent links stops at a span with
    /// no live parent, and after as many steps as the slab has slots.
    pub fn span_chain(&self, stack: &SpanStack) -> (r: Vec<u64>)
        requires
            self.wf(),
            stack.wf(),
        ensures
            r@ == reversed(ancestry_from(self@, current_spec(stack@), self.slab_len_spec())),
            parents_older(self@) && r@.len() > 0 ==> match self@[r@[0]].parent {
                None => true,
                Some(p) => !self@.contains_key(p),
            },
    {
        let ghost m = self@;
        let ghost total = ancestry_from(m, current_spec(stack@), self.slab@.len());
        let mut up: Vec<u64> = Vec::new();
        let mut cur = stack.current();
        let mut fuel: usize = self.slab.len();
        while fuel > 0
            invariant
                up@ + ancestry_from(m, cur, fuel as nat) == total,
                self.wf(),
                m == self@,
            ensures
                up@ == total,
            decreases fuel,
        {
            let c = match cur {
                Some(c) => c,
                None => {
                    assert(up@ =~= total);
                    break;
                },
            };
            let span = match self.get(c) {
                Some(span) => span,
                None => {
                    assert(up@ =~= total);
                    break;
                },
            };
            let ghost before = up@;
            up.push(c);
            cur = span.parent();
            proof {
                assert(ancestry_from(m, Some(c), fuel as nat) == seq![c] + ancestry_from(
                    m,
                    cur,
                    (fuel - 1) as nat,
                ));
                assert(up@ == before + seq![c]);
                assert(before + (seq![c] + ancestry_from(m, cur, (fuel - 1) as nat)) =~= up@
                    + ancestry_from(m, cur, (fuel - 1) as nat));
            }
            fuel = fuel - 1;
        }
        let mut r: Vec<u64> = Vec::new();
        let mut i: usize = up.len();
        while i > 0
            invariant
                i <= up@.len(),
                r@ =~= Seq::new((up@.len() - i) as nat, |k: int| up@[up@.len() - 1 - k]),
            decreases i,
        {
            r.push(up[i - 1]);
            i = i - 1;
        }
        proof {
            if parents_older(self@) && r@.len() > 0 {
                self.lemma_live_within_slab();
                let c = current_spec(stack@)->0;
                lemma_forest_acyclic(self@, c, self.slab@.len());
                assert(r@[0] == up@.last());
            }
        }
        r
    }
    /// Number of slots in the slab.
    pub fn slab_len(&self) -> (r: usize)
        ensures
            r == self.slab_len_spec(),
    {
        self.slab.len()
    }

    /// Head of the free list: the slot that the next span takes, or the
    /// slab's length when no slot is free.
    pub fn free_head(&self) -> (r: usize)
        requires
            self.wf(),
        ensures
            r == (if self.free_spec().len() > 0 {
                self.free_spec()[0] as int
            } else {
                self.slab_len_spec() as int
            }),
    {
        self.next
    }

    /// Every live span was stamped before the clock's current value.
    pub proof fn lemma_stamps_below_clock(&self)
        requires
            self.wf(),
        ensures
            forall|id: u64| #[trigger] self@.contains_key(id) ==> self@[id].stamp < self.clock_spec(),
    {
        assert forall|id: u64| #[trigger] self@.contains_key(id) implies self@[id].stamp
            < self.clock_spec() by {
            assert(self.slab@[idx_of(id)].span is Full);
        }
    }

    /// There are at most as many live spans as slots.
    pub proof fn lemma_live_within_slab(&self)
        requires
            self.wf(),
        ensures
            self@.dom().finite(),
            self@.dom().len() <= self.slab_len_spec(),
    {
        let n = self.slab@.len();
        self.lemma_view_finite();
        if n == 0 {
            assert(self@.dom() =~= Set::<u64>::empty());
        } else {
            let hi = n as u64;
            let r = <u64 as vstd::set_lib::FiniteRange>::range_set(0, hi);
            vstd::set_lib::range_set_properties::<u64>(0, hi);
            assert(r.contains(0));
            assert(!r.remove(0).contains(hi));
            let s = r.remove(0).insert(hi);
            assert(s.len() == n);
            assert(self@.dom().subset_of(s));
            vstd::set_lib::lemma_len_subset(self@.dom(), s);
        }
    }

    /// What well-formedness gives callers: live spans hold a reference; the
    /// free list lists distinct slots of the slab, none live; and every slot
    /// of the slab that holds no live span is on it.
    pub proof fn lemma_wf_facts(&self)
        requires
            self.wf(),
        ensures
            forall|id: u64| #[trigger] self@.contains_key(id) ==> self@[id].ref_count >= 1,
            self.free_spec().no_duplicates(),
            forall|k: int|
                0 <= k < self.free_spec().len() ==> #[trigger] self.free_spec()[k]
                    < self.slab_len_spec() && !self@.contains_key(
                    (self.free_spec()[k] + 1) as u64,
                ),
            forall|id: u64|
                1 <= id <= self.slab_len_spec() && !#[trigger] self@.contains_key(id)
                    ==> self.free_spec().contains((id - 1) as usize),
    {
        assert forall|id: u64| #[trigger] self@.contains_key(id) implies self@[id].ref_count
            >= 1 by {
            assert(self.slab@[idx_of(id)].span is Full);
        }
        assert forall|k: int| 0 <= k < self.free_spec().len() implies #[trigger] self.free_spec()[k]
            < self.slab_len_spec() && !self@.contains_key((self.free_spec()[k] + 1) as u64) by {
            self.lemma_free_slot_not_live(k);
        }
        assert forall|id: u64|
            1 <= id <= self.slab_len_spec() && !#[trigger] self@.contains_key(
                id,
            ) implies self.free_spec().contains((id - 1) as usize) by {
            assert(self.slab@[idx_of(id)].span is Empty);
        }
    }

    /// A slot on the free list holds no live span: an identifier is handed
    /// out again only once its span has fully left.
    pub proof fn lemma_free_slot_not_live(&self, k: int)
        requires
            self.wf(),
            0 <= k < self.free_spec().len(),
        ensures
            !self@.contains_key((self.free_spec()[k] + 1) as u64),
    {
        let i = self.free@[k];
        assert(self.slab@[i as int].span is Empty);
        assert(idx_of((i + 1) as u64) == i);
    }
}

} // verus!

verus! {

/// Releasing a reference never brings a span in: the live identifiers after
/// a release are among those before it.
pub proof fn lemma_release_shrinks<M>(m: Map<u64, SpanView<M>>, id: u64)
    ensures
        release(m, id).dom().subset_of(m.dom()),
    decreases m.dom().len(),
{
    if m.dom().finite() && m.contains_key(id) && m[id].ref_count <= 1 {
        if let Some(p) = m[id].parent {
            lemma_release_shrinks(m.remove(id), p);
        }
    }
}

/// Reference counting balances: taking a reference and releasing it leaves
/// the spans as they were; a release that is not the last one only lowers
/// the count by one; the last one makes the span leave.
pub proof fn lemma_ref_count_conservation<M>(m: Map<u64, SpanView<M>>, id: u64)
    requires
        m.dom().finite(),
        m.contains_key(id),
        m[id].ref_count >= 1,
    ensures
        m[id].ref_count < usize::MAX ==> release(clone_spec(m, id), id) == m,
        m[id].ref_count > 1 ==> release(m, id).contains_key(id) && release(m, id)[id].ref_count
            == m[id].ref_count - 1,
        m[id].ref_count == 1 ==> !release(m, id).contains_key(id),
{
    if m[id].ref_count < usize::MAX {
        let c = clone_spec(m, id);
        assert(c.dom() =~= m.dom());
        assert(release(c, id) =~= m);
    }
    if m[id].ref_count == 1 {
        if let Some(p) = m[id].parent {
            lemma_release_shrinks(m.remove(id), p);
        }
    }
}

/// The walk up from a span follows parent links through live spans and
/// stays within its bound; when it ends before the bound, it ends at a span
/// whose parent is none or no longer live.
pub proof fn lemma_ancestry_bounded<M>(m: Map<u64, SpanView<M>>, id: u64, fuel: nat)
    ensures
        ancestry(m, id, fuel).len() <= fuel,
        forall|k: int|
            0 <= k < ancestry(m, id, fuel).len() ==> m.contains_key(
                #[trigger] ancestry(m, id, fuel)[k],
            ),
        forall|k: int|
            0 <= k < ancestry(m, id, fuel).len() - 1 ==> m[#[trigger] ancestry(m, id, fuel)[k]].parent
                == Some(ancestry(m, id, fuel)[k + 1]),
        0 < ancestry(m, id, fuel).len() < fuel ==> match m[ancestry(m, id, fuel).last()].parent {
            None => true,
            Some(p) => !m.contains_key(p),
        },
    decreases fuel,
{
    let a = ancestry(m, id, fuel);
    if fuel > 0 && m.contains_key(id) {
        if let Some(p) = m[id].parent {
            let rest = ancestry(m, p, (fuel - 1) as nat);
            lemma_ancestry_bounded(m, p, (fuel - 1) as nat);
            assert(a == seq![id] + rest);
            assert forall|k: int| 0 < k < a.len() implies a[k] == rest[k - 1] by {}
            if rest.len() == 0 {
                if fuel > 1 {
                    assert(!m.contains_key(p));
                }
            } else {
                assert(a.last() == rest.last());
            }
        }
    }
}

} // verus!

verus! {

/// Every live span's parent, while it is live, was created before it.
pub open spec fn parents_older<M>(m: Map<u64, SpanView<M>>) -> bool {
    forall|c: u64| #[trigger]
        m.contains_key(c) ==> match m[c].parent {
            Some(p) => m.contains_key(p) ==> m[p].stamp < m[c].stamp,
            None => true,
        }
}

/// No live span names `id` as its parent.
pub open spec fn unclaimed<M>(m: Map<u64, SpanView<M>>, id: u64) -> bool {
    forall|c: u64| #[trigger] m.contains_key(c) ==> m[c].parent != Some(id)
}

proof fn lemma_ancestry_stamps<M>(m: Map<u64, SpanView<M>>, id: u64, fuel: nat)
    requires
        parents_older(m),
    ensures
        forall|i: int, j: int|
            0 <= i < j < ancestry(m, id, fuel).len() ==> m[ancestry(m, id, fuel)[j]].stamp
                < m[ancestry(m, id, fuel)[i]].stamp,
    decreases fuel,
{
    lemma_ancestry_bounded(m, id, fuel);
    let a = ancestry(m, id, fuel);
    if fuel > 0 && m.contains_key(id) {
        if let Some(p) = m[id].parent {
            let rest = ancestry(m, p, (fuel - 1) as nat);
            lemma_ancestry_stamps(m, p, (fuel - 1) as nat);
            assert(a == seq![id] + rest);
            assert forall|i: int, j: int| 0 <= i < j < a.len() implies m[a[j]].stamp
                < m[a[i]].stamp by {
                if i == 0 {
                    assert(a[0] == id);
                    assert(rest[0] == p);
                    assert(m.contains_key(id));
                    assert(m.contains_key(rest[0]));
                    if j > 1 {
                        assert(m[rest[j - 1]].stamp < m[rest[0]].stamp);
                    }
                } else {
                    assert(a[i] == rest[i - 1] && a[j] == rest[j - 1]);
                }
            }
        }
    }
}

/// Parent links form a forest: while every live parent is older than its
/// child, the walk up from any live span meets no span twice and ends, within
/// as many steps as there are live spans, at a span with no live parent.
pub proof fn lemma_forest_acyclic<M>(m: Map<u64, SpanView<M>>, id: u64, fuel: nat)
    requires
        m.dom().finite(),
        parents_older(m),
        m.contains_key(id),
        fuel >= m.dom().len(),
    ensures
        ancestry(m, id, fuel).no_duplicates(),
        1 <= ancestry(m, id, fuel).len() <= m.dom().len(),
        match m[ancestry(m, id, fuel).last()].parent {
            None => true,
            Some(p) => !m.contains_key(p),
        },
{
    let a = ancestry(m, id, fuel);
    lemma_ancestry_bounded(m, id, fuel);
    lemma_ancestry_stamps(m, id, fuel);
    assert(m.dom().contains(id));
    assert(m.dom().len() >= 1);
    assert(a.len() >= 1);
    assert(a.no_duplicates()) by {
        assert forall|i: int, j: int| 0 <= i < a.len() && 0 <= j < a.len() && i != j implies a[i]
            != a[j] by {
            if i < j {
                assert(m[a[j]].stamp < m[a[i]].stamp);
            } else {
                assert(m[a[i]].stamp < m[a[j]].stamp);
            }
        }
    }
    a.unique_seq_to_set();
    assert(a.to_set().subset_of(m.dom()));
    vstd::set_lib::lemma_len_subset(a.to_set(), m.dom());
    if a.len() == fuel {
        if let Some(q) = m[a.last()].parent {
            if m.contains_key(q) {
                let b = a.push(q);
                assert(m[q].stamp < m[a.last()].stamp);
                assert forall|i: int, j: int| 0 <= i < b.len() && 0 <= j < b.len() && i != j implies b[i]
                    != b[j] by {
                    if i < a.len() && j < a.len() {
                        assert(b[i] == a[i] && b[j] == a[j]);
                    } else if i == a.len() {
                        assert(b[j] == a[j]);
                        if j < a.len() - 1 {
                            assert(m[a[a.len() - 1]].stamp < m[a[j]].stamp);
                        }
                    } else {
                        assert(b[i] == a[i]);
                        if i < a.len() - 1 {
                            assert(m[a[a.len() - 1]].stamp < m[a[i]].stamp);
                        }
                    }
                }
                b.unique_seq_to_set();
                assert forall|x: u64| b.to_set().contains(x) implies m.dom().contains(x) by {
                    let k = choose|k: int| 0 <= k < b.len() && b[k] == x;
                    if k < a.len() {
                        assert(a[k] == x);
                    }
                }
                vstd::set_lib::lemma_len_subset(b.to_set(), m.dom());
                assert(false);
            }
        }
    }
}

/// A release keeps each remaining span's parent and stamp.
pub proof fn lemma_release_keeps_links<M>(m: Map<u64, SpanView<M>>, id: u64)
    ensures
        release(m, id).dom().subset_of(m.dom()),
        forall|c: u64| #[trigger]
            release(m, id).contains_key(c) ==> release(m, id)[c].parent == m[c].parent
                && release(m, id)[c].stamp == m[c].stamp,
    decreases m.dom().len(),
{
    lemma_release_shrinks(m, id);
    if m.dom().finite() && m.contains_key(id) && m[id].ref_count <= 1 {
        if let Some(p) = m[id].parent {
            lemma_release_keeps_links(m.remove(id), p);
        }
    }
}

/// Releasing references keeps every live parent older than its children.
pub proof fn lemma_release_keeps_order<M>(m: Map<u64, SpanView<M>>, id: u64)
    requires
        parents_older(m),
    ensures
        parents_older(release(m, id)),
{
    lemma_release_keeps_links(m, id);
    let r = release(m, id);
    assert forall|c: u64| #[trigger] r.contains_key(c) implies match r[c].parent {
        Some(p) => r.contains_key(p) ==> r[p].stamp < r[c].stamp,
        None => true,
    } by {
        assert(m.contains_key(c));
        if let Some(p) = r[c].parent {
            if r.contains_key(p) {
                assert(m.contains_key(p));
            }
        }
    }
}

/// A new span keeps every live parent older than its children, as long as
/// no live span still names the identifier it takes as a parent. (A span
/// whose parent left while it lived is possible only when a reference was
/// released that nobody held.)
pub proof fn lemma_new_span_keeps_order<M>(
    m: Map<u64, SpanView<M>>,
    r: u64,
    p: Option<u64>,
    v: SpanView<M>,
)
    requires
        parents_older(m),
        forall|c: u64| #[trigger] m.contains_key(c) ==> m[c].stamp < v.stamp,
        !m.contains_key(r),
        unclaimed(m, r),
        v.parent == p,
        match p {
            Some(q) => m.contains_key(q),
            None => true,
        },
    ensures
        parents_older(adopt_spec(m, p).insert(r, v)),
{
    let a = adopt_spec(m, p);
    let n = a.insert(r, v);
    assert(a.dom() =~= m.dom());
    assert forall|k: u64| #[trigger] m.contains_key(k) implies a[k].parent == m[k].parent
        && a[k].stamp == m[k].stamp by {}
    assert forall|c: u64| #[trigger] n.contains_key(c) implies match n[c].parent {
        Some(q) => n.contains_key(q) ==> n[q].stamp < n[c].stamp,
        None => true,
    } by {
        if c != r {
            assert(m.contains_key(c));
            assert(n[c].parent == m[c].parent && n[c].stamp == m[c].stamp);
            if let Some(q) = n[c].parent {
                assert(q != r);
                if n.contains_key(q) {
                    assert(m.contains_key(q));
                }
            }
        } else if let Some(q) = p {
            if n.contains_key(q) && q != r {
                assert(m.contains_key(q));
                assert(n[q].stamp == m[q].stamp);
                assert(n[c] == v);
            }
        }
    }
}

/// Changes that keep each span's parent and stamp keep every live parent
/// older than its children.
pub proof fn lemma_same_links_keep_order<M>(m: Map<u64, SpanView<M>>, n: Map<u64, SpanView<M>>)
    requires
        parents_older(m),
        n.dom() == m.dom(),
        forall|k: u64| #[trigger] m.contains_key(k) ==> n[k].parent == m[k].parent && n[k].stamp
            == m[k].stamp,
    ensures
        parents_older(n),
{
    assert forall|c: u64| #[trigger] n.contains_key(c) implies match n[c].parent {
        Some(p) => n.contains_key(p) ==> n[p].stamp < n[c].stamp,
        None => true,
    } by {
        assert(m.contains_key(c));
        if let Some(p) = n[c].parent {
            if n.contains_key(p) {
                assert(m.contains_key(p));
            }
        }
    }
}

/// Entering a span twice on one thread and exiting it twice leaves every
/// span's reference count as it was.
pub proof fn lemma_reentry_keeps_counts<M>(m: Map<u64, SpanView<M>>, s: Seq<(u64, bool)>, id: u64)
    requires
        m.dom().finite(),
        m.contains_key(id) ==> 1 <= m[id].ref_count < usize::MAX,
    ensures
        ({
            let s1 = push_spec(s, id);
            let s2 = push_spec(s1, id);
            let s3 = pop_spec(s2, id);
            let m1 = enter_spec(m, s, id);
            let m2 = enter_spec(m1, s1, id);
            let m3 = exit_spec(m2, s2, id);
            &&& m2 == m1
            &&& m3 == m1
            &&& exit_spec(m3, s3, id) == m
        }),
{
    let s1 = push_spec(s, id);
    let s2 = push_spec(s1, id);
    assert(s1.last().0 == id);
    assert(holds_id(s1, id));
    assert(s2.drop_last() =~= s1);
    if m.contains_key(id) {
        lemma_ref_count_conservation(m, id);
    } else {
        assert(clone_spec(m, id) == m);
        assert(release(m, id) == m);
    }
}

} // verus!
