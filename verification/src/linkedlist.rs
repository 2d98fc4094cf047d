//! Doubly linked chain of nodes held in an arena.
//!
//! Nodes live in a growable arena and are addressed by stable integer
//! handles; the forward/backward links are handle pairs. Appending a node
//! never moves or invalidates an existing one — the pointer-stability
//! foundation the pools rely on. Nodes are never removed individually: the
//! whole chain is dropped together with its owner.
use vstd::prelude::*;
use crate::ptrbased::PtrBased;

verus! {

/// One chain node: an element plus handles to its neighbours.
pub struct Node<T> {
    data: T,
    next: Option<usize>,
    prev: Option<usize>,
}

impl<T> Node<T> {
    /// The element held by this node.
    pub closed spec fn value(&self) -> T {
        self.data
    }

    /// Handle of the following node, if any.
    pub closed spec fn next_of(&self) -> Option<usize> {
        self.next
    }

    /// Handle of the preceding node, if any.
    pub closed spec fn prev_of(&self) -> Option<usize> {
        self.prev
    }

    /// A fresh, unlinked node.
    pub fn new(data: T) -> (r: Self)
        ensures
            r.value() == data,
            r.next_of() is None,
            r.prev_of() is None,
    {
        Node { data, next: None, prev: None }
    }

    /// Borrow the element.
    pub fn inner(&self) -> (r: &T)
        ensures
            *r == self.value(),
    {
        &self.data
    }

    /// Mutably borrow the element; the links are untouched.
    pub fn inner_mut(&mut self) -> (r: &mut T)
        ensures
            *r == old(self).value(),
            final(self).value() == *final(r),
            final(self).next_of() == old(self).next_of(),
            final(self).prev_of() == old(self).prev_of(),
    {
        &mut self.data
    }

    /// Mutably borrow the element; the links are untouched.
    pub fn data(&mut self) -> (r: &mut T)
        ensures
            *r == old(self).value(),
            final(self).value() == *final(r),
            final(self).next_of() == old(self).next_of(),
            final(self).prev_of() == old(self).prev_of(),
    {
        &mut self.data
    }

    /// Handle of the following node, if any.
    pub fn next_ptr(&self) -> (r: Option<usize>)
        ensures
            r == self.next_of(),
    {
        self.next
    }

    /// Handle of the preceding node, if any.
    pub fn prev_ptr(&self) -> (r: Option<usize>)
        ensures
            r == self.prev_of(),
    {
        self.prev
    }
}

/// Doubly linked list over an arena of nodes. Handles (arena indices) stay
/// valid for the life of the list; the list only ever grows.
pub struct LinkedList<T> {
    nodes: Vec<Node<T>>,
    start: Option<usize>,
    end: Option<usize>,
    order: Ghost<Seq<usize>>,
}

impl<T> LinkedList<T> {
    /// The handles of the nodes, in list order.
    pub closed spec fn order(&self) -> Seq<usize> {
        self.order@
    }

    /// How many nodes the arena holds (every one of them is in the list).
    pub closed spec fn arena_size(&self) -> int {
        self.nodes@.len() as int
    }

    /// The element stored at handle `h`.
    pub closed spec fn data_at(&self, h: usize) -> T {
        self.nodes@[h as int].data
    }

    /// The elements in list order.
    pub open spec fn seq_data(&self) -> Seq<T> {
        self.order().map_values(|h: usize| self.data_at(h))
    }

    /// Handle of the first node, if any.
    pub closed spec fn head_spec(&self) -> Option<usize> {
        self.start
    }

    /// Handle of the last node, if any.
    pub closed spec fn tail_spec(&self) -> Option<usize> {
        self.end
    }

    /// Position of handle `h` in list order.
    pub closed spec fn idx_of(&self, h: usize) -> int {
        self.order@.index_of(h)
    }

    /// The forward link stored at handle `h`.
    pub closed spec fn node_next(&self, h: usize) -> Option<usize> {
        self.nodes@[h as int].next
    }

    /// The backward link stored at handle `h`.
    pub closed spec fn node_prev(&self, h: usize) -> Option<usize> {
        self.nodes@[h as int].prev
    }

    /// The links of the node at order position `i` point at its neighbours
    /// in the order.
    spec fn links_ok_at(nodes: Seq<Node<T>>, ord: Seq<usize>, i: int) -> bool {
        &&& nodes[ord[i] as int].next == (if i + 1 < ord.len() {
            Some(ord[i + 1])
        } else {
            None
        })
        &&& nodes[ord[i] as int].prev == (if i > 0 {
            Some(ord[i - 1])
        } else {
            None
        })
    }

    /// Well-formedness: the order sequence lists every arena node exactly
    /// once, the links mirror adjacency in that order, and the start/end
    /// handles are its first and last entries.
    pub closed spec fn wf(&self) -> bool {
        let ord = self.order@;
        &&& ord.no_duplicates()
        &&& ord.len() == self.nodes@.len()
        &&& forall|i: int| 0 <= i < ord.len() ==> (#[trigger] ord[i]) < self.nodes@.len()
        &&& self.start == (if ord.len() == 0 {
            None
        } else {
            Some(ord[0])
        })
        &&& self.end == (if ord.len() == 0 {
            None
        } else {
            Some(ord[ord.len() - 1])
        })
        &&& forall|i: int|
            0 <= i < ord.len() ==> #[trigger] Self::links_ok_at(self.nodes@, ord, i)
    }

    /// Facts about a well-formed list that callers outside this module need.
    pub proof fn lemma_wf_facts(&self)
        requires
            self.wf(),
        ensures
            self.order().no_duplicates(),
            self.order().len() == self.arena_size(),
            forall|i: int|
                0 <= i < self.order().len() ==> (#[trigger] self.order()[i]) < self.arena_size(),
            self.head_spec() == (if self.order().len() == 0 {
                None
            } else {
                Some(self.order()[0])
            }),
            self.tail_spec() == (if self.order().len() == 0 {
                None
            } else {
                Some(self.order()[self.order().len() - 1])
            }),
    {
    }

    /// In a well-formed list, navigation from the node at order position `i`
    /// moves one step along the order.
    pub proof fn lemma_adjacent(&self, i: int)
        requires
            self.wf(),
            0 <= i < self.order().len(),
        ensures
            self.next_spec(self.order()[i]) == (if i + 1 < self.order().len() {
                Some(self.order()[i + 1])
            } else {
                None::<usize>
            }),
            self.prev_spec(self.order()[i]) == (if i > 0 {
                Some(self.order()[i - 1])
            } else {
                None::<usize>
            }),
    {
        assert(Self::links_ok_at(self.nodes@, self.order@, i));
    }

    /// Order positions identify handles uniquely.
    pub proof fn lemma_index_unique(&self, i: int, j: int)
        requires
            self.wf(),
            0 <= i < self.order().len(),
            0 <= j < self.order().len(),
            self.order()[i] == self.order()[j],
        ensures
            i == j,
    {
    }

    /// `idx_of` inverts the order sequence on handles it contains.
    pub proof fn lemma_idx_of(&self, h: usize)
        requires
            self.wf(),
            self.order().contains(h),
        ensures
            0 <= self.idx_of(h) < self.order().len(),
            self.order()[self.idx_of(h)] == h,
            forall|i: int|
                0 <= i < self.order().len() && self.order()[i] == h ==> i == self.idx_of(h),
    {
        let ord = self.order@;
        assert(exists|i: int| 0 <= i < ord.len() && ord[i] == h);
    }

    /// An empty chain.
    pub fn new() -> (r: Self)
        ensures
            r.wf(),
            r.order() == Seq::<usize>::empty(),
            r.arena_size() == 0,
    {
        LinkedList { nodes: Vec::new(), start: None, end: None, order: Ghost(Seq::empty()) }
    }

    /// Number of nodes in the chain.
    pub fn len(&self) -> (r: usize)
        requires
            self.wf(),
        ensures
            r as int == self.order().len(),
    {
        self.nodes.len()
    }

    /// True iff the chain has no nodes.
    pub fn is_empty(&self) -> (r: bool)
        requires
            self.wf(),
        ensures
            r == (self.order().len() == 0),
    {
        self.nodes.len() == 0
    }

    /// Handle of the first node, if any.
    pub fn head_ptr(&self) -> (r: Option<usize>)
        ensures
            r == self.head_spec(),
    {
        self.start
    }

    /// Handle of the last node, if any.
    pub fn tail_ptr(&self) -> (r: Option<usize>)
        ensures
            r == self.tail_spec(),
    {
        self.end
    }

    /// Borrow the element at handle `h`, or `None` for a handle the arena
    /// has never issued.
    pub fn get(&self, h: usize) -> (r: Option<&T>)
        ensures
            r.is_some() <==> (h as int) < self.arena_size(),
            r matches Some(v) ==> *v == self.data_at(h),
    {
        if h < self.nodes.len() {
            Some(&self.nodes[h].data)
        } else {
            None
        }
    }

    /// Mutably borrow the element at handle `h`. The chain structure — order,
    /// links, start and end — is untouched; only the element at `h` is
    /// replaced by whatever the caller writes through the borrow. Callers
    /// recover well-formedness of the chain with `lemma_wf_preserved`.
    pub fn data_mut(&mut self, h: usize) -> (r: &mut T)
        requires
            old(self).wf(),
            (h as int) < old(self).arena_size(),
        ensures
            *r == old(self).data_at(h),
            final(self).order() == old(self).order(),
            final(self).arena_size() == old(self).arena_size(),
            final(self).head_spec() == old(self).head_spec(),
            final(self).tail_spec() == old(self).tail_spec(),
            final(self).data_at(h) == *final(r),
            forall|h2: usize|
                h2 != h && (h2 as int) < old(self).arena_size() ==> final(self).data_at(h2)
                    == old(self).data_at(h2),
            forall|h2: usize|
                (h2 as int) < old(self).arena_size() ==> final(self).node_next(h2) == old(
                    self,
                ).node_next(h2) && final(self).node_prev(h2) == old(self).node_prev(h2),
    {
        let node = &mut self.nodes[h];
        &mut node.data
    }

    /// Well-formedness only concerns the chain structure, never the elements:
    /// a list that agrees with a well-formed one on order, size, ends and
    /// links is itself well-formed.
    pub proof fn lemma_wf_preserved(a: &LinkedList<T>, b: &LinkedList<T>)
        requires
            a.wf(),
            b.order() == a.order(),
            b.arena_size() == a.arena_size(),
            b.head_spec() == a.head_spec(),
            b.tail_spec() == a.tail_spec(),
            forall|h: usize|
                (h as int) < a.arena_size() ==> b.node_next(h) == a.node_next(h) && b.node_prev(h)
                    == a.node_prev(h),
        ensures
            b.wf(),
    {
        let ord = a.order@;
        assert forall|i: int| 0 <= i < ord.len() implies #[trigger] Self::links_ok_at(
            b.nodes@,
            ord,
            i,
        ) by {
            assert(Self::links_ok_at(a.nodes@, ord, i));
            assert(ord[i] < a.nodes@.len());
            assert(b.node_next(ord[i]) == a.node_next(ord[i]));
            assert(b.node_prev(ord[i]) == a.node_prev(ord[i]));
        }
    }

    /// Append an element at the tail: O(1), returns nothing, and the new
    /// node's handle is the old arena size (also available as `tail_ptr`).
    /// No existing handle is invalidated.
    pub fn push_back(&mut self, data: T)
        requires
            old(self).wf(),
        ensures
            final(self).wf(),
            final(self).arena_size() == old(self).arena_size() + 1,
            final(self).order() == old(self).order().push(old(self).arena_size() as usize),
            final(self).tail_spec() == Some(old(self).arena_size() as usize),
            final(self).data_at(old(self).arena_size() as usize) == data,
            forall|h: usize|
                (h as int) < old(self).arena_size() ==> final(self).data_at(h) == old(self).data_at(
                    h,
                ),
    {
        let idx = self.nodes.len();
        let node = Node { data, next: None, prev: self.end };
        match self.end {
            Some(e) => {
                proof {
                    let ord = self.order@;
                    assert(ord[ord.len() - 1] == e);
                    assert((e as int) < self.nodes@.len());
                }
                let en = &mut self.nodes[e];
                en.next = Some(idx);
            },
            None => {
                self.start = Some(idx);
            },
        }
        self.nodes.push(node);
        self.end = Some(idx);
        proof {
            self.order@ = old(self).order@.push(idx);
        }
        proof {
            let ord0 = old(self).order@;
            let ord = self.order@;
            assert forall|i: int| 0 <= i < ord.len() implies (#[trigger] ord[i])
                < self.nodes@.len() by {
                if i < ord0.len() {
                    assert(ord[i] == ord0[i]);
                }
            }
            assert(ord.no_duplicates()) by {
                assert forall|i: int, j: int|
                    0 <= i < ord.len() && 0 <= j < ord.len() && i != j implies ord[i] != ord[j] by {
                    if i < ord0.len() && j < ord0.len() {
                        assert(ord0[i] != ord0[j]);
                    } else if i < ord0.len() {
                        assert(ord0[i] < old(self).nodes@.len());
                    } else if j < ord0.len() {
                        assert(ord0[j] < old(self).nodes@.len());
                    }
                }
            }
            assert forall|i: int| 0 <= i < ord.len() implies #[trigger] Self::links_ok_at(
                self.nodes@,
                ord,
                i,
            ) by {
                if i < ord0.len() {
                    assert(Self::links_ok_at(old(self).nodes@, ord0, i));
                    assert(ord0[i] < old(self).nodes@.len());
                    if i != ord0.len() - 1 {
                        assert(ord0[i] != ord0[ord0.len() - 1]);
                    }
                }
            }
        }
    }

    /// Prepend an element at the head: O(1); the new node's handle is the old
    /// arena size. No existing handle is invalidated.
    pub fn push_front(&mut self, data: T)
        requires
            old(self).wf(),
        ensures
            final(self).wf(),
            final(self).arena_size() == old(self).arena_size() + 1,
            final(self).order() == seq![old(self).arena_size() as usize] + old(self).order(),
            final(self).head_spec() == Some(old(self).arena_size() as usize),
            final(self).data_at(old(self).arena_size() as usize) == data,
            forall|h: usize|
                (h as int) < old(self).arena_size() ==> final(self).data_at(h) == old(self).data_at(
                    h,
                ),
    {
        let idx = self.nodes.len();
        let node = Node { data, next: self.start, prev: None };
        match self.start {
            Some(s) => {
                proof {
                    let ord = self.order@;
                    assert(ord[0] == s);
                    assert((s as int) < self.nodes@.len());
                }
                let sn = &mut self.nodes[s];
                sn.prev = Some(idx);
            },
            None => {
                self.end = Some(idx);
            },
        }
        self.nodes.push(node);
        self.start = Some(idx);
        proof {
            self.order@ = seq![idx] + old(self).order@;
        }
        proof {
            let ord0 = old(self).order@;
            let ord = self.order@;
            assert forall|i: int| 0 <= i < ord.len() implies (#[trigger] ord[i])
                < self.nodes@.len() by {
                if i > 0 {
                    assert(ord[i] == ord0[i - 1]);
                }
            }
            assert(ord.no_duplicates()) by {
                assert forall|i: int, j: int|
                    0 <= i < ord.len() && 0 <= j < ord.len() && i != j implies ord[i] != ord[j] by {
                    if i > 0 && j > 0 {
                        assert(ord0[i - 1] != ord0[j - 1]);
                    } else if i > 0 {
                        assert(ord0[i - 1] < old(self).nodes@.len());
                    } else if j > 0 {
                        assert(ord0[j - 1] < old(self).nodes@.len());
                    }
                }
            }
            assert forall|i: int| 0 <= i < ord.len() implies #[trigger] Self::links_ok_at(
                self.nodes@,
                ord,
                i,
            ) by {
                if i > 0 {
                    assert(Self::links_ok_at(old(self).nodes@, ord0, i - 1));
                    assert(ord0[i - 1] < old(self).nodes@.len());
                    if i != 1 {
                        assert(ord0[i - 1] != ord0[0]);
                    }
                }
            }
        }
    }

    /// The handles of all nodes, in list order.
    pub fn iter(&self) -> (r: Vec<usize>)
        requires
            self.wf(),
        ensures
            r@ == self.order(),
    {
        let ghost ord = self.order@;
        let n = self.nodes.len();
        let mut out: Vec<usize> = Vec::new();
        let mut cur: Option<usize> = self.start;
        let mut i: usize = 0;
        while cur.is_some()
            invariant
                self.wf(),
                ord == self.order@,
                ord.len() == n,
                i <= ord.len(),
                out@ == ord.take(i as int),
                cur == (if (i as int) < ord.len() {
                    Some(ord[i as int])
                } else {
                    None::<usize>
                }),
            decreases ord.len() - i,
        {
            let h = cur.unwrap();
            out.push(h);
            proof {
                self.lemma_adjacent(i as int);
                assert(out@ =~= ord.take(i + 1));
            }
            cur = self.next(h);
            i += 1;
        }
        proof {
            assert(out@ =~= ord);
        }
        out
    }
}

impl<T> PtrBased for LinkedList<T> {
    /// Handle of the first node.
    open spec fn begin_spec(&self) -> Option<usize> {
        self.head_spec()
    }

    /// Handle of the last node (the chain's own end sentinel).
    open spec fn end_spec(&self) -> Option<usize> {
        self.tail_spec()
    }

    open spec fn next_spec(&self, pos: usize) -> Option<usize> {
        if (pos as int) < self.arena_size() {
            self.node_next(pos)
        } else {
            None
        }
    }

    open spec fn prev_spec(&self, pos: usize) -> Option<usize> {
        if (pos as int) < self.arena_size() {
            self.node_prev(pos)
        } else {
            None
        }
    }

    open spec fn dist_ok(&self, first: usize, last: usize) -> bool {
        &&& self.wf()
        &&& self.order().contains(first)
        &&& self.order().contains(last)
        &&& self.idx_of(first) <= self.idx_of(last)
    }

    open spec fn dist_spec(&self, first: usize, last: usize) -> int {
        self.idx_of(last) - self.idx_of(first)
    }

    fn begin(&self) -> (r: Option<usize>) {
        self.start
    }

    fn end(&self) -> (r: Option<usize>) {
        self.end
    }

    fn next(&self, pos: usize) -> (r: Option<usize>) {
        if pos < self.nodes.len() {
            self.nodes[pos].next
        } else {
            None
        }
    }

    fn prev(&self, pos: usize) -> (r: Option<usize>) {
        if pos < self.nodes.len() {
            self.nodes[pos].prev
        } else {
            None
        }
    }

    /// Count the `next` steps from `first` to `last`.
    fn distance(&self, first: usize, last: usize) -> (r: usize) {
        proof {
            self.lemma_idx_of(first);
            self.lemma_idx_of(last);
        }
        let ghost ord = self.order@;
        let ghost i0 = self.idx_of(first);
        let ghost il = self.idx_of(last);
        let n = self.nodes.len();
        let mut count: usize = 0;
        let mut cur: usize = first;
        while cur != last
            invariant
                self.wf(),
                ord == self.order@,
                ord.len() == n,
                self.order().contains(last),
                0 <= i0,
                i0 + count <= il < ord.len(),
                ord[il] == last,
                ord[i0 + count] == cur,
                il == self.idx_of(last),
            decreases il - i0 - count,
        {
            proof {
                self.lemma_adjacent(i0 + count);
            }
            let nxt = self.next(cur).unwrap();
            cur = nxt;
            count += 1;
        }
        proof {
            self.lemma_index_unique(i0 + count, il);
        }
        count
    }
}

} // verus!
