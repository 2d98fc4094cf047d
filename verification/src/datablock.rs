//! Fixed-capacity block of slots with a contiguous occupied prefix.
//!
//! A block owns storage for up to `cap` elements. Slots in `[0, filled)` hold
//! committed elements; slots beyond may hold stale values from before a
//! rewind, which are never observed through `live()`. An optional mark saves
//! the occupied boundary so a later rewind can restore it.
use vstd::prelude::*;

verus! {

/// Capacity-bounded slot array tracking the number of occupied slots from
/// index 0, plus an optional saved boundary (the mark).
pub struct DataBlock<T> {
    data: Vec<Option<T>>,
    next_slot: usize,
    marked_slot: Option<usize>,
}

impl<T: Copy> DataBlock<T> {
    /// All slots in index order, occupied or not.
    pub closed spec fn slots(&self) -> Seq<Option<T>> {
        self.data@
    }

    /// Fixed capacity: the total number of slots.
    pub closed spec fn cap(&self) -> int {
        self.data@.len() as int
    }

    /// Number of occupied slots, counted from index 0.
    pub closed spec fn filled(&self) -> int {
        self.next_slot as int
    }

    /// The saved occupied boundary, if a mark is set.
    pub closed spec fn mark_of(&self) -> Option<int> {
        match self.marked_slot {
            Some(m) => Some(m as int),
            None => None,
        }
    }

    /// The committed elements: the occupied prefix, in slot order.
    pub open spec fn live(&self) -> Seq<T> {
        self.slots().take(self.filled()).map_values(|x: Option<T>| x.unwrap())
    }

    /// Well-formedness: the occupied boundary and the mark stay within
    /// capacity, and every occupied slot holds a value.
    pub closed spec fn wf(&self) -> bool {
        &&& self.next_slot <= self.data@.len()
        &&& match self.marked_slot {
            Some(m) => m <= self.next_slot,
            None => true,
        }
        &&& forall|i: int| 0 <= i < self.next_slot ==> self.data@[i].is_some()
    }

    /// Basic consequences of well-formedness, for callers that reason about
    /// `live()` abstractly.
    pub proof fn lemma_wf_facts(&self)
        requires
            self.wf(),
        ensures
            self.live().len() == self.filled(),
            0 <= self.filled() <= self.cap(),
            self.slots().len() == self.cap(),
            match self.mark_of() {
                Some(m) => 0 <= m <= self.filled(),
                None => true,
            },
    {
    }

    /// Create an empty block with the given capacity and no mark.
    pub fn new(cap: usize) -> (r: Self)
        ensures
            r.wf(),
            r.cap() == cap,
            r.filled() == 0,
            r.mark_of() is None,
            r.live() == Seq::<T>::empty(),
    {
        let mut data: Vec<Option<T>> = Vec::new();
        let mut i: usize = 0;
        while i < cap
            invariant
                i <= cap,
                data@.len() == i,
            decreases cap - i,
        {
            data.push(None);
            i += 1;
        }
        proof {
            assert(Seq::<Option<T>>::empty().take(0).map_values(
                |x: Option<T>| x.unwrap(),
            ) =~= Seq::<T>::empty());
        }
        DataBlock { data, next_slot: 0, marked_slot: None }
    }

    /// True iff no slot is occupied.
    pub fn is_empty(&self) -> (r: bool)
        ensures
            r == (self.filled() == 0),
    {
        self.next_slot == 0
    }

    /// Reset the occupied boundary to zero and drop the mark. Slot contents
    /// are left in place; they are simply no longer observable.
    pub fn clear(&mut self)
        ensures
            final(self).wf(),
            final(self).cap() == old(self).cap(),
            final(self).slots() == old(self).slots(),
            final(self).filled() == 0,
            final(self).mark_of() is None,
            final(self).live() == Seq::<T>::empty(),
    {
        self.next_slot = 0;
        self.marked_slot = None;
        proof {
            assert(self.live() =~= Seq::<T>::empty());
        }
    }

    /// Reset the occupied boundary to the mark, if one is set; otherwise do
    /// nothing. The mark itself is kept.
    pub fn clear_after_mark(&mut self)
        requires
            old(self).wf(),
        ensures
            final(self).wf(),
            final(self).cap() == old(self).cap(),
            final(self).slots() == old(self).slots(),
            final(self).mark_of() == old(self).mark_of(),
            final(self).filled() == match old(self).mark_of() {
                Some(m) => m,
                None => old(self).filled(),
            },
    {
        if let Some(slot) = self.marked_slot {
            self.next_slot = slot;
        }
    }

    /// Save the current occupied boundary as the mark.
    pub fn mark_slot(&mut self)
        requires
            old(self).wf(),
        ensures
            final(self).wf(),
            final(self).cap() == old(self).cap(),
            final(self).slots() == old(self).slots(),
            final(self).filled() == old(self).filled(),
            final(self).live() == old(self).live(),
            final(self).mark_of() == Some(old(self).filled()),
    {
        self.marked_slot = Some(self.next_slot);
    }

    /// Reset the occupied boundary to zero and drop the mark.
    pub fn rewind_to_front(&mut self)
        ensures
            final(self).wf(),
            final(self).cap() == old(self).cap(),
            final(self).slots() == old(self).slots(),
            final(self).filled() == 0,
            final(self).mark_of() is None,
            final(self).live() == Seq::<T>::empty(),
    {
        self.next_slot = 0;
        self.marked_slot = None;
        proof {
            assert(self.live() =~= Seq::<T>::empty());
        }
    }

    /// Reset the occupied boundary to the mark. With no mark set this falls
    /// back to the front of the block, by documented policy. The mark itself
    /// is kept.
    pub fn rewind_to_mark(&mut self)
        requires
            old(self).wf(),
        ensures
            final(self).wf(),
            final(self).cap() == old(self).cap(),
            final(self).slots() == old(self).slots(),
            final(self).mark_of() == old(self).mark_of(),
            final(self).filled() == match old(self).mark_of() {
                Some(m) => m,
                None => 0,
            },
    {
        if let Some(slot) = self.marked_slot {
            self.next_slot = slot;
        } else {
            self.next_slot = 0;
        }
    }

    /// Write `value` into the next free slot and advance the occupied
    /// boundary. Fails (returning `None`) iff the block is full, in which
    /// case nothing changes: this is the capacity-exceeded signal a pool
    /// absorbs by growing its chain.
    pub fn try_push(&mut self, value: T) -> (r: Option<()>)
        requires
            old(self).wf(),
        ensures
            final(self).wf(),
            final(self).cap() == old(self).cap(),
            final(self).mark_of() == old(self).mark_of(),
            r.is_some() <==> old(self).filled() < old(self).cap(),
            old(self).filled() < old(self).cap() ==> {
                &&& final(self).slots() == old(self).slots().update(
                    old(self).filled(),
                    Some(value),
                )
                &&& final(self).filled() == old(self).filled() + 1
                &&& final(self).live() == old(self).live().push(value)
            },
            old(self).filled() >= old(self).cap() ==> *final(self) == *old(self),
    {
        if self.next_slot < self.data.len() {
            let ghost pre = *self;
            let slot = &mut self.data[self.next_slot];
            *slot = Some(value);
            self.next_slot = self.next_slot + 1;
            proof {
                assert(self.live() =~= pre.live().push(value));
            }
            Some(())
        } else {
            None
        }
    }

    /// Like `try_push`, but on success also return the index of the slot the
    /// value went into, usable as a stable handle to the element.
    pub fn push_to_ptr(&mut self, value: T) -> (r: Option<usize>)
        requires
            old(self).wf(),
        ensures
            final(self).wf(),
            final(self).cap() == old(self).cap(),
            final(self).mark_of() == old(self).mark_of(),
            r.is_some() <==> old(self).filled() < old(self).cap(),
            old(self).filled() < old(self).cap() ==> {
                &&& r == Some(old(self).filled() as usize)
                &&& final(self).slots() == old(self).slots().update(
                    old(self).filled(),
                    Some(value),
                )
                &&& final(self).filled() == old(self).filled() + 1
                &&& final(self).live() == old(self).live().push(value)
            },
            old(self).filled() >= old(self).cap() ==> *final(self) == *old(self),
    {
        if self.next_slot < self.data.len() {
            let ghost pre = *self;
            let idx = self.next_slot;
            let slot = &mut self.data[idx];
            *slot = Some(value);
            self.next_slot = self.next_slot + 1;
            proof {
                assert(self.live() =~= pre.live().push(value));
            }
            Some(idx)
        } else {
            None
        }
    }

    /// Write `value` into slot `index` without moving the occupied boundary;
    /// the caller manages the boundary itself. Fails iff `index` is out of
    /// capacity, in which case nothing changes.
    pub fn insert(&mut self, index: usize, value: T) -> (r: Option<()>)
        requires
            old(self).wf(),
        ensures
            final(self).wf(),
            final(self).cap() == old(self).cap(),
            final(self).filled() == old(self).filled(),
            final(self).mark_of() == old(self).mark_of(),
            r.is_some() <==> index < old(self).cap(),
            index < old(self).cap() ==> final(self).slots() == old(self).slots().update(
                index as int,
                Some(value),
            ),
            index >= old(self).cap() ==> *final(self) == *old(self),
    {
        if index < self.data.len() {
            let slot = &mut self.data[index];
            *slot = Some(value);
            Some(())
        } else {
            None
        }
    }

    /// The committed elements, in slot order.
    pub fn iter(&self) -> (r: Vec<T>)
        requires
            self.wf(),
        ensures
            r@ == self.live(),
    {
        let mut out: Vec<T> = Vec::new();
        let mut i: usize = 0;
        while i < self.next_slot
            invariant
                self.wf(),
                i <= self.next_slot,
                out@ == self.live().take(i as int),
            decreases self.next_slot - i,
        {
            let v = match self.data[i] {
                Some(v) => v,
                None => {
                    proof {
                        assert(false);
                    }
                    return out;
                },
            };
            out.push(v);
            proof {
                assert(out@ =~= self.live().take(i + 1));
            }
            i += 1;
        }
        proof {
            assert(out@ =~= self.live());
        }
        out
    }
}

} // verus!
