//! A fixed-capacity ring indexed by 16-bit sequence number.
//!
//! Entries live in slot `seq mod N`; inserting a sequence overwrites the
//! slot unconditionally, and a lookup returns the stored value only when
//! the slot's stored sequence matches the query exactly. History older
//! than the last `N` sequences is intentionally lost.

use vstd::prelude::*;

verus! {

/// Number of slots in a sequence buffer.
pub const BUFFER_CAPACITY: usize = 1024;

/// A ring of `BUFFER_CAPACITY` slots keyed by sequence number.
pub struct SequenceBuffer<T> {
    slots: Vec<Option<(u16, T)>>,
}

impl<T> SequenceBuffer<T> {
    /// The raw slots: index `i` holds the entry whose sequence is congruent
    /// to `i` modulo the capacity, if one is stored.
    pub closed spec fn slots(self) -> Seq<Option<(u16, T)>> {
        self.slots@
    }

    /// A buffer is well formed when it has exactly `BUFFER_CAPACITY` slots
    /// and every stored entry sits in its own slot.
    pub open spec fn wf(self) -> bool {
        &&& self.slots().len() == BUFFER_CAPACITY
        &&& forall|i: int|
            0 <= i < BUFFER_CAPACITY && self.slots()[i] is Some ==> (
            #[trigger] self.slots()[i])->Some_0.0 as int % BUFFER_CAPACITY as int == i
    }

    /// The value stored for sequence `s`, if the slot still holds `s`.
    pub open spec fn spec_get(self, s: u16) -> Option<T> {
        match self.slots()[s as int % BUFFER_CAPACITY as int] {
            Some((stored, v)) => if stored == s {
                Some(v)
            } else {
                None
            },
            None => None,
        }
    }

    /// Creates an empty buffer.
    pub fn new() -> (b: SequenceBuffer<T>)
        ensures
            b.wf(),
            forall|s: u16| b.spec_get(s) is None,
    {
        let mut slots: Vec<Option<(u16, T)>> = Vec::new();
        let mut i: usize = 0;
        while i < BUFFER_CAPACITY
            invariant
                i <= BUFFER_CAPACITY,
                slots@.len() == i,
                forall|j: int| 0 <= j < i ==> slots@[j] is None,
            decreases BUFFER_CAPACITY - i,
        {
            slots.push(None);
            i = i + 1;
        }
        SequenceBuffer { slots }
    }

    /// Stores `value` for sequence `seq`, evicting whatever shared its slot.
    pub fn insert(&mut self, seq: u16, value: T)
        requires
            old(self).wf(),
        ensures
            final(self).wf(),
            final(self).spec_get(seq) == Some(value),
            // Entries in other slots are untouched; the evicted slot now
            // answers only for `seq`.
            forall|s: u16|
                s != seq && s as int % BUFFER_CAPACITY as int != seq as int
                    % BUFFER_CAPACITY as int ==> #[trigger] final(self).spec_get(s) == old(
                self,
            ).spec_get(s),
            forall|s: u16|
                s != seq && s as int % BUFFER_CAPACITY as int == seq as int
                    % BUFFER_CAPACITY as int ==> #[trigger] final(self).spec_get(s) is None,
    {
        let idx = (seq as usize) % BUFFER_CAPACITY;
        self.slots[idx] = Some((seq, value));
    }

    /// Returns the value stored for `seq`, if its slot still holds `seq`.
    pub fn get(&self, seq: u16) -> (r: Option<&T>)
        requires
            self.wf(),
        ensures
            match r {
                Some(v) => self.spec_get(seq) == Some(*v),
                None => self.spec_get(seq) is None,
            },
    {
        let idx = (seq as usize) % BUFFER_CAPACITY;
        match &self.slots[idx] {
            Some((stored, v)) => if *stored == seq {
                Some(v)
            } else {
                None
            },
            None => None,
        }
    }

    /// The entry in slot `idx`, if any. The slot's stored sequence is
    /// always congruent to `idx` in a well-formed buffer, so the entry is
    /// exactly the one `spec_get` answers for that sequence.
    pub fn slot(&self, idx: usize) -> (r: &Option<(u16, T)>)
        requires
            self.wf(),
            idx < BUFFER_CAPACITY,
        ensures
            *r == self.slots()[idx as int],
            r is Some ==> self.spec_get(r->Some_0.0) == Some(r->Some_0.1),
    {
        &self.slots[idx]
    }

    /// Removes and returns the value stored for `seq`, if present.
    pub fn remove(&mut self, seq: u16) -> (r: Option<T>)
        requires
            old(self).wf(),
        ensures
            final(self).wf(),
            r == old(self).spec_get(seq),
            final(self).spec_get(seq) is None,
            forall|s: u16|
                s != seq ==> #[trigger] final(self).spec_get(s) == old(self).spec_get(s),
            final(self).slots() == if old(self).spec_get(seq) is Some {
                old(self).slots().update(seq as int % BUFFER_CAPACITY as int, None)
            } else {
                old(self).slots()
            },
    {
        let idx = (seq as usize) % BUFFER_CAPACITY;
        let slot_matches = match &self.slots[idx] {
            Some((stored, _)) => *stored == seq,
            None => false,
        };
        if slot_matches {
            let mut taken: Option<(u16, T)> = None;
            self.slots.set_and_swap(idx, &mut taken);
            match taken {
                Some((_, v)) => Some(v),
                None => None,
            }
        } else {
            None
        }
    }
}

} // verus!
