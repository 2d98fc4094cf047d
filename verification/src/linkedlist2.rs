//! Second chain variant of the pool family. Navigation and growth behave
//! exactly as in `LinkedList`, to which this type delegates: the variants
//! differed only in bound-check direction, and one verified implementation
//! serves both.
use vstd::prelude::*;
use crate::linkedlist::{LinkedList, Node};
use crate::ptrbased::PtrBased;

verus! {

/// One chain node: an element plus handles to its neighbours.
pub struct Node2<T> {
    inner: Node<T>,
}

impl<T> Node2<T> {
    /// The element held by this node.
    pub closed spec fn value(&self) -> T {
        self.inner.value()
    }

    /// Handle of the following node, if any.
    pub closed spec fn next_of(&self) -> Option<usize> {
        self.inner.next_of()
    }

    /// Handle of the preceding node, if any.
    pub closed spec fn prev_of(&self) -> Option<usize> {
        self.inner.prev_of()
    }

    /// A fresh, unlinked node.
    pub fn new(data: T) -> (r: Self)
        ensures
            r.value() == data,
            r.next_of() is None,
            r.prev_of() is None,
    {
        Node2 { inner: Node::new(data) }
    }

    /// Borrow the element.
    pub fn inner(&self) -> (r: &T)
        ensures
            *r == self.value(),
    {
        self.inner.inner()
    }

    /// Mutably borrow the element; the links are untouched.
    pub fn inner_mut(&mut self) -> (r: &mut T)
        ensures
            *r == old(self).value(),
            final(self).value() == *final(r),
            final(self).next_of() == old(self).next_of(),
            final(self).prev_of() == old(self).prev_of(),
    {
        self.inner.inner_mut()
    }
}

/// Doubly linked list over an arena of nodes, addressed by stable handles.
pub struct LinkedList2<T> {
    inner: LinkedList<T>,
}

impl<T> LinkedList2<T> {
    /// The handles of the nodes, in list order.
    pub closed spec fn order(&self) -> Seq<usize> {
        self.inner.order()
    }

    /// How many nodes the arena holds.
    pub closed spec fn arena_size(&self) -> int {
        self.inner.arena_size()
    }

    /// The element stored at handle `h`.
    pub closed spec fn data_at(&self, h: usize) -> T {
        self.inner.data_at(h)
    }

    /// Well-formedness of the chain structure.
    pub closed spec fn wf(&self) -> bool {
        self.inner.wf()
    }

    /// An empty chain.
    pub fn new() -> (r: Self)
        ensures
            r.wf(),
            r.order() == Seq::<usize>::empty(),
            r.arena_size() == 0,
    {
        LinkedList2 { inner: LinkedList::new() }
    }

    /// Append an element at the tail: O(1); the new node's handle is the old
    /// arena size. No existing handle is invalidated.
    pub fn push_back(&mut self, data: T)
        requires
            old(self).wf(),
        ensures
            final(self).wf(),
            final(self).arena_size() == old(self).arena_size() + 1,
            final(self).order() == old(self).order().push(old(self).arena_size() as usize),
            final(self).data_at(old(self).arena_size() as usize) == data,
            forall|h: usize|
                (h as int) < old(self).arena_size() ==> final(self).data_at(h) == old(self).data_at(
                    h,
                ),
    {
        self.inner.push_back(data)
    }

    /// Prepend an element at the head: O(1); the new node's handle is the old
    /// arena size. No existing handle is invalidated.
    pub fn push_front(&mut self, data: T)
        requires
            old(self).wf(),
        ensures
            final(self).wf(),
            final(self).arena_size() == old(self).arena_size() + 1,
            final(self).order() == seq![old(self).arena_size() as usize] + old(self).order(),
            final(self).data_at(old(self).arena_size() as usize) == data,
            forall|h: usize|
                (h as int) < old(self).arena_size() ==> final(self).data_at(h) == old(self).data_at(
                    h,
                ),
    {
        self.inner.push_front(data)
    }

    /// Borrow the element at handle `h`, or `None` for a handle the arena
    /// has never issued.
    pub fn get(&self, h: usize) -> (r: Option<&T>)
        ensures
            r.is_some() <==> (h as int) < self.arena_size(),
            r matches Some(v) ==> *v == self.data_at(h),
    {
        self.inner.get(h)
    }
}

impl<T> PtrBased for LinkedList2<T> {
    /// Handle of the first node.
    closed spec fn begin_spec(&self) -> Option<usize> {
        self.inner.begin_spec()
    }

    /// Handle of the last node (the chain's own end sentinel).
    closed spec fn end_spec(&self) -> Option<usize> {
        self.inner.end_spec()
    }

    closed spec fn next_spec(&self, pos: usize) -> Option<usize> {
        self.inner.next_spec(pos)
    }

    closed spec fn prev_spec(&self, pos: usize) -> Option<usize> {
        self.inner.prev_spec(pos)
    }

    closed spec fn dist_ok(&self, first: usize, last: usize) -> bool {
        self.inner.dist_ok(first, last)
    }

    closed spec fn dist_spec(&self, first: usize, last: usize) -> int {
        self.inner.dist_spec(first, last)
    }

    fn begin(&self) -> (r: Option<usize>) {
        self.inner.begin()
    }

    fn end(&self) -> (r: Option<usize>) {
        self.inner.end()
    }

    fn next(&self, pos: usize) -> (r: Option<usize>) {
        self.inner.next(pos)
    }

    fn prev(&self, pos: usize) -> (r: Option<usize>) {
        self.inner.prev(pos)
    }

    fn distance(&self, first: usize, last: usize) -> (r: usize) {
        self.inner.distance(first, last)
    }
}

} // verus!
