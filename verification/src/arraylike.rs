//! Capacity-bounded buffer of slots addressed by position, the storage unit
//! of the pointer-cursor pool variant.
//!
//! Slots start unoccupied; callers either write through an explicit position
//! (`insert`) while managing the occupied boundary themselves, or push
//! through the buffer's own cursor. Positions are slot offsets: `begin` is 0,
//! `end` is one past the last slot.
use vstd::prelude::*;
use crate::ptrbased::PtrBased;

verus! {

/// Fixed-capacity slot buffer with an optional internal cursor.
pub struct ArrayLike<T> {
    data: Vec<Option<T>>,
    current: Option<usize>,
}

impl<T: Copy> ArrayLike<T> {
    /// All slots in index order.
    pub closed spec fn slots(&self) -> Seq<Option<T>> {
        self.data@
    }

    /// Fixed capacity: the total number of slots.
    pub closed spec fn cap(&self) -> int {
        self.data@.len() as int
    }

    /// The cursor: the position the next `try_push` writes to. `None` until
    /// the first push initializes it to the beginning.
    pub closed spec fn cursor(&self) -> Option<usize> {
        self.current
    }

    /// The position the next cursor-based push writes to, counting an
    /// uninitialized cursor as the beginning.
    pub open spec fn cursor_pos(&self) -> int {
        match self.cursor() {
            Some(c) => c as int,
            None => 0,
        }
    }

    /// Well-formedness: the cursor never points past one-past-the-end.
    pub closed spec fn wf(&self) -> bool {
        match self.current {
            Some(c) => c <= self.data@.len(),
            None => true,
        }
    }

    /// The capacity is the number of slots.
    pub proof fn lemma_dims(&self)
        ensures
            self.slots().len() == self.cap(),
    {
    }

    /// A buffer with `cap` unoccupied slots and an uninitialized cursor.
    pub fn new(cap: usize) -> (r: Self)
        ensures
            r.wf(),
            r.cap() == cap,
            r.cursor() is None,
            r.slots().len() == cap,
            forall|i: int| 0 <= i < cap ==> r.slots()[i] is None,
    {
        let mut data: Vec<Option<T>> = Vec::new();
        let mut i: usize = 0;
        while i < cap
            invariant
                i <= cap,
                data@.len() == i,
                forall|j: int| 0 <= j < i ==> data@[j] is None,
            decreases cap - i,
        {
            data.push(None);
            i += 1;
        }
        ArrayLike { data, current: None }
    }

    /// The occupied range only — the slots the cursor has passed — in slot
    /// order.
    pub fn iter(&self) -> (r: Vec<Option<T>>)
        requires
            self.wf(),
        ensures
            r@ == self.slots().take(self.cursor_pos()),
    {
        let bound = match self.current {
            Some(c) => c,
            None => 0,
        };
        let mut out: Vec<Option<T>> = Vec::new();
        let mut i: usize = 0;
        while i < bound
            invariant
                bound as int == self.cursor_pos(),
                bound <= self.data@.len(),
                i <= bound,
                out@ == self.data@.take(i as int),
            decreases bound - i,
        {
            out.push(self.data[i]);
            proof {
                assert(out@ =~= self.data@.take(i + 1));
            }
            i += 1;
        }
        out
    }

    /// Every slot in index order, occupied or not: the storage view a pool
    /// uses to flatten a block its cursor has fully passed.
    pub(crate) fn all_slots(&self) -> (r: Vec<Option<T>>)
        ensures
            r@ == self.slots(),
    {
        let mut out: Vec<Option<T>> = Vec::new();
        let mut i: usize = 0;
        while i < self.data.len()
            invariant
                i <= self.data@.len(),
                out@ == self.data@.take(i as int),
            decreases self.data@.len() - i,
        {
            out.push(self.data[i]);
            proof {
                assert(out@ =~= self.data@.take(i + 1));
            }
            i += 1;
        }
        proof {
            assert(out@ =~= self.data@);
        }
        out
    }

    /// Write `value` into slot `index` without moving the cursor; the caller
    /// manages the occupied boundary itself. Fails iff `index` is out of
    /// capacity, in which case nothing changes.
    pub fn insert(&mut self, index: usize, value: T) -> (r: Option<()>)
        ensures
            final(self).wf() == old(self).wf(),
            final(self).cap() == old(self).cap(),
            final(self).cursor() == old(self).cursor(),
            r.is_some() <==> index < old(self).cap(),
            index < old(self).cap() ==> final(self).slots() == old(self).slots().update(
                index as int,
                Some(value),
            ),
            index >= old(self).cap() ==> *final(self) == *old(self),
    {
        if index < self.data.len() {
            let slot = &mut self.data[index];
            *slot = Some(value);
            Some(())
        } else {
            None
        }
    }

    /// Read slot `index`.
    pub fn get(&self, index: usize) -> (r: Option<T>)
        requires
            (index as int) < self.cap(),
        ensures
            r == self.slots()[index as int],
    {
        self.data[index]
    }

    /// Write `value` at the cursor and advance it, initializing the cursor to
    /// the beginning first if it has never been set. Fails iff the cursor is
    /// at the end, in which case the slots are unchanged.
    pub fn try_push(&mut self, value: T) -> (r: Option<()>)
        requires
            old(self).wf(),
        ensures
            final(self).wf(),
            final(self).cap() == old(self).cap(),
            r.is_some() <==> old(self).cursor_pos() < old(self).cap(),
            old(self).cursor_pos() < old(self).cap() ==> {
                &&& final(self).slots() == old(self).slots().update(
                    old(self).cursor_pos(),
                    Some(value),
                )
                &&& final(self).cursor_pos() == old(self).cursor_pos() + 1
            },
            old(self).cursor_pos() >= old(self).cap() ==> {
                &&& final(self).slots() == old(self).slots()
                &&& final(self).cursor_pos() == old(self).cursor_pos()
            },
    {
        if self.current.is_none() {
            self.current = Some(0);
        }
        let c = self.current.unwrap();
        if c >= self.data.len() {
            None
        } else {
            let slot = &mut self.data[c];
            *slot = Some(value);
            self.current = Some(c + 1);
            Some(())
        }
    }

    /// Like `try_push`, but on success also return the position the value
    /// went into, usable as a stable handle to the slot.
    pub fn try_push_and_get_ptr(&mut self, value: T) -> (r: Option<usize>)
        requires
            old(self).wf(),
        ensures
            final(self).wf(),
            final(self).cap() == old(self).cap(),
            r.is_some() <==> old(self).cursor_pos() < old(self).cap(),
            old(self).cursor_pos() < old(self).cap() ==> {
                &&& r == Some(old(self).cursor_pos() as usize)
                &&& final(self).slots() == old(self).slots().update(
                    old(self).cursor_pos(),
                    Some(value),
                )
                &&& final(self).cursor_pos() == old(self).cursor_pos() + 1
            },
            old(self).cursor_pos() >= old(self).cap() ==> {
                &&& final(self).slots() == old(self).slots()
                &&& final(self).cursor_pos() == old(self).cursor_pos()
            },
    {
        if self.current.is_none() {
            self.current = Some(0);
        }
        let c = self.current.unwrap();
        if c >= self.data.len() {
            None
        } else {
            let slot = &mut self.data[c];
            *slot = Some(value);
            self.current = Some(c + 1);
            Some(c)
        }
    }
}

impl<T: Copy> PtrBased for ArrayLike<T> {
    /// The first slot position.
    open spec fn begin_spec(&self) -> Option<usize> {
        Some(0usize)
    }

    /// One past the last slot.
    open spec fn end_spec(&self) -> Option<usize> {
        Some(self.cap() as usize)
    }

    open spec fn next_spec(&self, pos: usize) -> Option<usize> {
        if (pos as int) < self.cap() {
            Some((pos + 1) as usize)
        } else {
            None
        }
    }

    open spec fn prev_spec(&self, pos: usize) -> Option<usize> {
        if 0 < pos <= self.cap() {
            Some((pos - 1) as usize)
        } else {
            None
        }
    }

    open spec fn dist_ok(&self, first: usize, last: usize) -> bool {
        first <= last <= self.cap()
    }

    open spec fn dist_spec(&self, first: usize, last: usize) -> int {
        last - first
    }

    fn begin(&self) -> (r: Option<usize>) {
        Some(0)
    }

    fn end(&self) -> (r: Option<usize>) {
        Some(self.data.len())
    }

    /// The following position, or `None` at the end.
    fn next(&self, pos: usize) -> (r: Option<usize>) {
        if pos < self.data.len() {
            Some(pos + 1)
        } else {
            None
        }
    }

    /// The preceding position, or `None` at the beginning.
    fn prev(&self, pos: usize) -> (r: Option<usize>) {
        if 0 < pos && pos <= self.data.len() {
            Some(pos - 1)
        } else {
            None
        }
    }

    /// Positions are offsets, so distance is their difference.
    fn distance(&self, first: usize, last: usize) -> (r: usize) {
        last - first
    }
}

} // verus!
