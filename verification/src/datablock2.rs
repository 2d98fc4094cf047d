//! Pointer-cursor block: a capacity-bounded buffer whose cursor starts at the
//! beginning on construction. Navigation and writes behave exactly as in
//! `ArrayLike`, to which this type delegates; the two exist because some
//! callers want a cursor that is live from the start.
use vstd::prelude::*;
use crate::arraylike::ArrayLike;
use crate::ptrbased::PtrBased;

verus! {

/// A slot buffer whose cursor is initialized at construction.
pub struct DataBlock2<T> {
    inner: ArrayLike<T>,
}

impl<T: Copy> DataBlock2<T> {
    /// All slots in index order.
    pub closed spec fn slots(&self) -> Seq<Option<T>> {
        self.inner.slots()
    }

    /// Fixed capacity: the total number of slots.
    pub closed spec fn cap(&self) -> int {
        self.inner.cap()
    }

    /// The position the next cursor-based push writes to.
    pub closed spec fn cursor_pos(&self) -> int {
        self.inner.cursor_pos()
    }

    /// Well-formedness: the cursor never points past one-past-the-end.
    pub closed spec fn wf(&self) -> bool {
        self.inner.wf()
    }

    /// A block with `cap` unoccupied slots and the cursor at the beginning.
    pub fn new(cap: usize) -> (r: Self)
        ensures
            r.wf(),
            r.cap() == cap,
            r.cursor_pos() == 0,
            r.slots().len() == cap,
            forall|i: int| 0 <= i < cap ==> r.slots()[i] is None,
    {
        DataBlock2 { inner: ArrayLike::new(cap) }
    }

    /// The occupied range only — the slots the cursor has passed — in slot
    /// order.
    pub fn iter(&self) -> (r: Vec<Option<T>>)
        requires
            self.wf(),
        ensures
            r@ == self.slots().take(self.cursor_pos()),
    {
        self.inner.iter()
    }

    /// Write `value` into slot `index` without moving the cursor. Fails iff
    /// `index` is out of capacity, in which case nothing changes.
    pub fn insert(&mut self, index: usize, value: T) -> (r: Option<()>)
        ensures
            final(self).wf() == old(self).wf(),
            final(self).cap() == old(self).cap(),
            final(self).cursor_pos() == old(self).cursor_pos(),
            r.is_some() <==> index < old(self).cap(),
            index < old(self).cap() ==> final(self).slots() == old(self).slots().update(
                index as int,
                Some(value),
            ),
            index >= old(self).cap() ==> *final(self) == *old(self),
    {
        self.inner.insert(index, value)
    }

    /// Write `value` at the cursor and advance it. Fails iff the cursor is at
    /// the end, in which case the slots are unchanged.
    pub fn try_push(&mut self, value: T) -> (r: Option<()>)
        requires
            old(self).wf(),
        ensures
            final(self).wf(),
            final(self).cap() == old(self).cap(),
            r.is_some() <==> old(self).cursor_pos() < old(self).cap(),
            old(self).cursor_pos() < old(self).cap() ==> {
                &&& final(self).slots() == old(self).slots().update(
                    old(self).cursor_pos(),
                    Some(value),
                )
                &&& final(self).cursor_pos() == old(self).cursor_pos() + 1
            },
            old(self).cursor_pos() >= old(self).cap() ==> {
                &&& final(self).slots() == old(self).slots()
                &&& final(self).cursor_pos() == old(self).cursor_pos()
            },
    {
        self.inner.try_push(value)
    }

    /// Like `try_push`, but on success also return the position the value
    /// went into.
    pub fn try_push_and_get_ptr(&mut self, value: T) -> (r: Option<usize>)
        requires
            old(self).wf(),
        ensures
            final(self).wf(),
            final(self).cap() == old(self).cap(),
            r.is_some() <==> old(self).cursor_pos() < old(self).cap(),
            old(self).cursor_pos() < old(self).cap() ==> {
                &&& r == Some(old(self).cursor_pos() as usize)
                &&& final(self).slots() == old(self).slots().update(
                    old(self).cursor_pos(),
                    Some(value),
                )
                &&& final(self).cursor_pos() == old(self).cursor_pos() + 1
            },
            old(self).cursor_pos() >= old(self).cap() ==> {
                &&& final(self).slots() == old(self).slots()
                &&& final(self).cursor_pos() == old(self).cursor_pos()
            },
    {
        self.inner.try_push_and_get_ptr(value)
    }
}

impl<T: Copy> PtrBased for DataBlock2<T> {
    /// The first slot position.
    closed spec fn begin_spec(&self) -> Option<usize> {
        self.inner.begin_spec()
    }

    /// One past the last slot.
    closed spec fn end_spec(&self) -> Option<usize> {
        self.inner.end_spec()
    }

    closed spec fn next_spec(&self, pos: usize) -> Option<usize> {
        self.inner.next_spec(pos)
    }

    closed spec fn prev_spec(&self, pos: usize) -> Option<usize> {
        self.inner.prev_spec(pos)
    }

    closed spec fn dist_ok(&self, first: usize, last: usize) -> bool {
        self.inner.dist_ok(first, last)
    }

    closed spec fn dist_spec(&self, first: usize, last: usize) -> int {
        self.inner.dist_spec(first, last)
    }

    fn begin(&self) -> (r: Option<usize>) {
        self.inner.begin()
    }

    fn end(&self) -> (r: Option<usize>) {
        self.inner.end()
    }

    fn next(&self, pos: usize) -> (r: Option<usize>) {
        self.inner.next(pos)
    }

    fn prev(&self, pos: usize) -> (r: Option<usize>) {
        self.inner.prev(pos)
    }

    fn distance(&self, first: usize, last: usize) -> (r: usize) {
        self.inner.distance(first, last)
    }
}

} // verus!
