//! Pointer-cursor pool: hands out stable addresses for in-place construction.
//!
//! Same chain-of-blocks layout as the slot-counted pool, but the position is
//! an address — a (block handle, slot offset) pair — and the pool can reserve
//! a slot, or a contiguous run of slots, without writing a value: the caller
//! constructs in place through `write_at`. A contiguous reservation never
//! spans two blocks: if the current block has too few slots left, the
//! remainder is abandoned and a fresh block starts the run.
use vstd::prelude::*;
use crate::arraylike::ArrayLike;
use crate::concat::{
    concat_all, lemma_concat_all_empty, lemma_concat_empty_tail, lemma_concat_push,
    lemma_concat_singleton, lemma_concat_split, lemma_concat_uniform_len, lemma_concat_update,
};
use crate::linkedlist::LinkedList;
use crate::ptrbased::PtrBased;

verus! {

/// A stable address inside a pool: the handle of a block and a slot offset
/// within it. An address stays valid for the life of the pool; a rewind that
/// crosses it only un-commits the slot, it never moves the storage.
#[derive(Clone, Copy, Debug, PartialEq, Eq, Structural)]
pub struct Address {
    /// Chain handle of the block the slot lives in.
    pub block: usize,
    /// Slot offset within that block.
    pub slot: usize,
}

/// Pool for small objects constructed in place: reserve an address (or a
/// contiguous run), then write through it. The observable state is `live()`:
/// the committed slots in reservation order, `Some` where a value has been
/// written and `None` where a slot is reserved or abandoned but unwritten.
pub struct SmallObjectPool<T> {
    data: LinkedList<ArrayLike<T>>,
    current_block: usize,
    next_slot: usize,
    marked_block: usize,
    marked_slot: usize,
    cap: usize,
}

impl<T: Copy> SmallObjectPool<T> {
    /// The block capacity every block of this pool is created with.
    pub closed spec fn cap_spec(&self) -> int {
        self.cap as int
    }

    /// Number of blocks in the chain.
    pub closed spec fn num_blocks(&self) -> int {
        self.data.order().len() as int
    }

    /// The slots of the block at chain position (= handle) `i`.
    pub closed spec fn slots_of(&self, i: int) -> Seq<Option<T>> {
        self.data.data_at(i as usize).slots()
    }

    /// Chain position of the block receiving reservations.
    pub closed spec fn cur_idx(&self) -> int {
        self.current_block as int
    }

    /// Slot offset of the next reservation within the current block.
    pub closed spec fn cur_slot(&self) -> int {
        self.next_slot as int
    }

    /// Chain position of the marked block.
    pub closed spec fn mark_idx(&self) -> int {
        self.marked_block as int
    }

    /// Slot offset saved by the mark.
    pub closed spec fn mark_slot_of(&self) -> int {
        self.marked_slot as int
    }

    /// Position in `live()` that a rewind to the mark will cut back to.
    pub open spec fn mark_point(&self) -> int {
        self.mark_idx() * self.cap_spec() + self.mark_slot_of()
    }

    /// Total slots across all blocks: the storage already committed to the
    /// pool.
    pub open spec fn total_slots(&self) -> int {
        self.num_blocks() * self.cap_spec()
    }

    /// What each block contributes to `live()`: everything before the cursor.
    pub closed spec fn contribs(&self) -> Seq<Seq<Option<T>>> {
        Seq::new(
            self.num_blocks() as nat,
            |i: int|
                if i < self.cur_idx() {
                    self.slots_of(i)
                } else if i == self.cur_idx() {
                    self.slots_of(i).take(self.cur_slot())
                } else {
                    Seq::empty()
                },
        )
    }

    /// The committed slots in reservation order.
    pub open spec fn live(&self) -> Seq<Option<T>> {
        concat_all(self.contribs())
    }

    /// Whether `a` addresses a committed slot: one the cursor has passed and
    /// no rewind has un-committed.
    pub open spec fn committed(&self, a: Address) -> bool {
        &&& (a.block as int) < self.num_blocks()
        &&& (a.slot as int) < self.cap_spec()
        &&& ((a.block as int) < self.cur_idx() || ((a.block as int) == self.cur_idx() && (
        a.slot as int) < self.cur_slot()))
    }

    /// The content of the slot at address `a`.
    pub closed spec fn value_at(&self, a: Address) -> Option<T> {
        self.slots_of(a.block as int)[a.slot as int]
    }

    /// Position of a committed address in `live()`.
    pub open spec fn addr_point(&self, a: Address) -> int {
        a.block * self.cap_spec() + a.slot
    }

    /// Well-formedness: the chain is well-formed and append-only (handle =
    /// chain position), all blocks share the pool capacity, and the cursor
    /// and mark are in range, with the mark at or before the cursor.
    pub closed spec fn wf(&self) -> bool {
        &&& self.data.wf()
        &&& self.cap >= 1
        &&& self.num_blocks() >= 1
        &&& forall|i: int| 0 <= i < self.num_blocks() ==> #[trigger] self.data.order()[i] == i
        &&& forall|i: int|
            0 <= i < self.num_blocks() ==> (#[trigger] self.slots_of(i)).len() == self.cap
        &&& (self.current_block as int) < self.num_blocks()
        &&& self.next_slot <= self.cap
        &&& self.marked_block <= self.current_block
        &&& self.marked_slot <= self.cap
        &&& (self.marked_block == self.current_block ==> self.marked_slot <= self.next_slot)
    }

    /// `live()` grows block by block: its length is determined by the cursor.
    proof fn lemma_live_len(&self)
        requires
            self.wf(),
        ensures
            self.live().len() == self.cur_idx() * self.cap_spec() + self.cur_slot(),
            self.live() == concat_all(self.contribs().take(self.cur_idx() + 1)),
            self.live().len() <= self.total_slots(),
    {
        let cs = self.contribs();
        let ci = self.cur_idx();
        let c = self.cap as int;
        let nb = self.num_blocks();
        assert forall|j: int| ci + 1 <= j < cs.len() implies (#[trigger] cs[j]).len() == 0 by {}
        lemma_concat_empty_tail(cs, ci + 1);
        lemma_concat_split(cs.take(ci + 1), ci);
        assert(cs.take(ci + 1).take(ci) =~= cs.take(ci));
        assert(cs.take(ci + 1).skip(ci) =~= seq![cs[ci]]);
        lemma_concat_singleton(cs[ci]);
        assert forall|j: int| 0 <= j < ci implies (#[trigger] cs[j]).len() == c by {
            assert(self.slots_of(j).len() == self.cap);
        }
        lemma_concat_uniform_len(cs, ci, c);
        assert(self.live().len() == ci * c + self.cur_slot());
        assert(ci * c + self.cur_slot() <= nb * c) by (nonlinear_arith)
            requires
                0 <= ci < nb,
                0 <= self.cur_slot() <= c,
        ;
    }

    /// Basic consequences of well-formedness, for callers that reason about
    /// the pool abstractly.
    pub proof fn lemma_wf_facts(&self)
        requires
            self.wf(),
        ensures
            self.num_blocks() >= 1,
            self.cap_spec() >= 1,
            0 <= self.live().len() <= self.total_slots(),
    {
        self.lemma_live_len();
    }

    /// The mark point lies within the committed slots.
    pub proof fn lemma_mark_in_live(&self)
        requires
            self.wf(),
        ensures
            0 <= self.mark_point() <= self.live().len(),
    {
        self.lemma_live_len();
        let mi = self.mark_idx();
        let ms = self.mark_slot_of();
        let ci = self.cur_idx();
        let c = self.cap as int;
        assert(mi * c >= 0) by (nonlinear_arith)
            requires
                mi >= 0,
                c >= 0,
        ;
        if mi < ci {
            assert(mi * c + c == (mi + 1) * c) by (nonlinear_arith);
            assert((mi + 1) * c <= ci * c) by (nonlinear_arith)
                requires
                    mi + 1 <= ci,
                    c >= 0,
            ;
        }
    }

    /// Committed addresses line up with `live()`: the slot at address `a`
    /// is element `addr_point(a)` of the committed sequence.
    pub proof fn lemma_committed_value(&self, a: Address)
        requires
            self.wf(),
            self.committed(a),
        ensures
            0 <= self.addr_point(a) < self.live().len(),
            self.live()[self.addr_point(a)] == self.value_at(a),
    {
        let cs = self.contribs();
        let b = a.block as int;
        let s = a.slot as int;
        let c = self.cap as int;
        self.lemma_live_len();
        lemma_concat_split(cs, b);
        lemma_concat_split(cs.skip(b), 1);
        assert(cs.skip(b).take(1) =~= seq![cs[b]]);
        assert(cs.skip(b).skip(1) =~= cs.skip(b + 1));
        lemma_concat_singleton(cs[b]);
        assert forall|j: int| 0 <= j < b implies (#[trigger] cs[j]).len() == c by {
            assert(self.slots_of(j).len() == self.cap);
        }
        lemma_concat_uniform_len(cs, b, c);
        assert(self.live() == concat_all(cs.take(b)) + (cs[b] + concat_all(cs.skip(b + 1))));
        assert(b * c >= 0) by (nonlinear_arith)
            requires
                b >= 0,
                c >= 0,
        ;
        assert(cs[b][s] == self.value_at(a));
        assert(self.live()[b * c + s] == self.value_at(a));
        if b < self.cur_idx() {
            assert((b + 1) * c <= self.cur_idx() * c) by (nonlinear_arith)
                requires
                    b + 1 <= self.cur_idx(),
                    c >= 0,
            ;
            assert(b * c + c == (b + 1) * c) by (nonlinear_arith);
            assert(b * c + s < self.live().len());
        } else {
            assert(b * c + s < self.live().len());
        }
    }

    /// A pool with one empty block; capacity is fixed for the pool's life,
    /// the cursor and the mark start at the first block's first slot.
    pub fn new(cap: usize) -> (r: Self)
        requires
            cap >= 1,
        ensures
            r.wf(),
            r.cap_spec() == cap,
            r.num_blocks() == 1,
            r.live() == Seq::<Option<T>>::empty(),
            r.mark_point() == 0,
    {
        let mut data: LinkedList<ArrayLike<T>> = LinkedList::new();
        data.push_back(ArrayLike::new(cap));
        let r = SmallObjectPool {
            data,
            current_block: 0,
            next_slot: 0,
            marked_block: 0,
            marked_slot: 0,
            cap,
        };
        proof {
            assert(r.data.order() == Seq::<usize>::empty().push(0usize));
            assert(r.data.order()[0] == 0usize);
            assert(r.wf());
            assert(r.slots_of(0).take(0) =~= Seq::<Option<T>>::empty());
            assert(r.contribs() =~= seq![Seq::<Option<T>>::empty()]);
            lemma_concat_singleton(Seq::<Option<T>>::empty());
            assert(0int * r.cap_spec() == 0) by (nonlinear_arith);
        }
        r
    }

    /// Number of blocks currently allocated: the pool's allocation counter.
    pub fn block_count(&self) -> (r: usize)
        requires
            self.wf(),
        ensures
            r as int == self.num_blocks(),
    {
        proof {
            self.data.lemma_wf_facts();
        }
        self.data.len()
    }

    /// Move the cursor to the start of the block after the current one,
    /// growing the chain when the current block is the last. Whatever is left
    /// of the current block becomes committed-but-unwritten.
    fn next_block(&mut self)
        requires
            old(self).wf(),
        ensures
            final(self).wf(),
            final(self).cap_spec() == old(self).cap_spec(),
            final(self).cur_idx() == old(self).cur_idx() + 1,
            final(self).cur_slot() == 0,
            final(self).num_blocks() == old(self).num_blocks() + (if old(self).cur_idx() == old(
                self,
            ).num_blocks() - 1 {
                1int
            } else {
                0int
            }),
            final(self).mark_idx() == old(self).mark_idx(),
            final(self).mark_slot_of() == old(self).mark_slot_of(),
            forall|i: int|
                0 <= i < old(self).num_blocks() ==> #[trigger] final(self).slots_of(i) == old(
                    self,
                ).slots_of(i),
            final(self).live() == old(self).live() + old(self).slots_of(old(self).cur_idx()).skip(
                old(self).cur_slot(),
            ),
    {
        proof {
            self.data.lemma_wf_facts();
            self.lemma_live_len();
        }
        let nxt = self.data.next(self.current_block);
        match nxt {
            Some(nh) => {
                proof {
                    self.data.lemma_adjacent(self.cur_idx());
                    assert(nh == self.data.order()[self.cur_idx() + 1]);
                }
                self.current_block = nh;
            },
            None => {
                proof {
                    self.data.lemma_adjacent(self.cur_idx());
                    assert(self.cur_idx() == self.num_blocks() - 1);
                }
                let n0 = self.data.len();
                self.data.push_back(ArrayLike::new(self.cap));
                self.current_block = n0;
            },
        }
        self.next_slot = 0;
        proof {
            let pre = *old(self);
            let ci = pre.cur_idx();
            let c = pre.cap as int;
            let cs0 = pre.contribs();
            let cs1 = self.contribs();
            self.data.lemma_wf_facts();
            assert forall|i: int|
                0 <= i < pre.num_blocks() implies #[trigger] self.slots_of(i) == pre.slots_of(
                i,
            ) by {
                assert(pre.data.order()[i] == i);
                assert((i as usize) < pre.data.arena_size());
            }
            assert(self.cur_idx() == ci + 1);
            assert(self.slots_of(ci + 1).take(0) =~= Seq::<Option<T>>::empty());
            if self.num_blocks() == pre.num_blocks() + 1 {
                assert(self.slots_of(ci + 1).len() == self.cap);
                let rhs = cs0.update(ci, pre.slots_of(ci)).push(Seq::<Option<T>>::empty());
                assert forall|i: int| 0 <= i < cs1.len() implies cs1[i] == rhs[i] by {
                    if i < ci {
                        assert(cs1[i] == self.slots_of(i));
                        assert(self.slots_of(i) == pre.slots_of(i));
                        assert(rhs[i] == cs0[i]);
                        assert(cs0[i] == pre.slots_of(i));
                    } else if i == ci {
                        assert(cs1[i] == self.slots_of(ci));
                        assert(self.slots_of(ci) == pre.slots_of(ci));
                    } else {
                        assert(i == ci + 1);
                        assert(cs1[i] == self.slots_of(ci + 1).take(0));
                    }
                }
                assert(cs1 =~= rhs);
                lemma_concat_push(cs0.update(ci, pre.slots_of(ci)), Seq::<Option<T>>::empty());
            } else {
                let rhs = cs0.update(ci, pre.slots_of(ci));
                assert forall|i: int| 0 <= i < cs1.len() implies cs1[i] == rhs[i] by {
                    if i < ci {
                        assert(cs1[i] == self.slots_of(i));
                        assert(self.slots_of(i) == pre.slots_of(i));
                        assert(rhs[i] == cs0[i]);
                        assert(cs0[i] == pre.slots_of(i));
                    } else if i == ci {
                        assert(cs1[i] == self.slots_of(ci));
                        assert(self.slots_of(ci) == pre.slots_of(ci));
                    } else if i == ci + 1 {
                        assert(cs1[i] == self.slots_of(ci + 1).take(0));
                        assert(rhs[i] == cs0[i]);
                    } else {
                        assert(cs1[i] == Seq::<Option<T>>::empty());
                        assert(rhs[i] == cs0[i]);
                    }
                }
                assert(cs1 =~= rhs);
            }
            lemma_concat_update(cs0, ci, pre.slots_of(ci));
            assert forall|j: int| ci + 1 <= j < cs0.len() implies (#[trigger] cs0[j]).len()
                == 0 by {}
            lemma_concat_all_empty(cs0.skip(ci + 1));
            lemma_concat_split(cs0, ci);
            lemma_concat_split(cs0.skip(ci), 1);
            assert(cs0.skip(ci).take(1) =~= seq![cs0[ci]]);
            assert(cs0.skip(ci).skip(1) =~= cs0.skip(ci + 1));
            lemma_concat_singleton(cs0[ci]);
            assert(concat_all(cs0.update(ci, pre.slots_of(ci))) == concat_all(cs0.take(ci))
                + pre.slots_of(ci) + Seq::<Option<T>>::empty());
            assert(pre.live() == concat_all(cs0.take(ci)) + (cs0[ci] + Seq::<Option<T>>::empty()));
            assert(cs0[ci] == pre.slots_of(ci).take(pre.cur_slot()));
            assert(pre.slots_of(ci) =~= pre.slots_of(ci).take(pre.cur_slot()) + pre.slots_of(
                ci,
            ).skip(pre.cur_slot()));
            assert(self.live() =~= pre.live() + pre.slots_of(ci).skip(pre.cur_slot()));
            assert(self.wf());
        }
    }

    /// Reserve one slot and return its address, advancing the cursor exactly
    /// as `push` would; the slot's content is untouched until the caller
    /// writes it. Grows the chain if and only if every committed slot is
    /// already behind the cursor.
    pub fn emplace_back(&mut self) -> (a: Address)
        requires
            old(self).wf(),
        ensures
            final(self).wf(),
            final(self).cap_spec() == old(self).cap_spec(),
            final(self).committed(a),
            final(self).addr_point(a) == old(self).live().len(),
            final(self).live().len() == old(self).live().len() + 1,
            final(self).live() == old(self).live().push(final(self).value_at(a)),
            final(self).num_blocks() == old(self).num_blocks() + (if old(self).live().len() == old(
                self,
            ).total_slots() {
                1int
            } else {
                0int
            }),
            final(self).mark_point() == old(self).mark_point(),
            forall|a2: Address|
                old(self).committed(a2) ==> final(self).committed(a2) && final(self).value_at(a2)
                    == old(self).value_at(a2),
            forall|a2: Address|
                (a2.block as int) < old(self).num_blocks() && (a2.slot as int) < old(
                    self,
                ).cap_spec() ==> final(self).value_at(a2) == old(self).value_at(a2),
    {
        proof {
            self.lemma_live_len();
        }
        let ghost pre = *old(self);
        if self.next_slot == self.cap {
            proof {
                let ci = pre.cur_idx();
                let c = pre.cap as int;
                assert(pre.slots_of(ci).skip(c) =~= Seq::<Option<T>>::empty());
                assert(ci * c + c == (ci + 1) * c) by (nonlinear_arith);
                if ci < pre.num_blocks() - 1 {
                    assert((ci + 1) * c < pre.num_blocks() * c) by (nonlinear_arith)
                        requires
                            ci + 1 < pre.num_blocks(),
                            c >= 1,
                    ;
                }
            }
            self.next_block();
            proof {
                assert(self.live() =~= pre.live());
            }
        } else {
            proof {
                let ci = pre.cur_idx();
                let c = pre.cap as int;
                assert(ci * c + pre.cur_slot() < pre.num_blocks() * c) by (nonlinear_arith)
                    requires
                        0 <= ci < pre.num_blocks(),
                        0 <= pre.cur_slot() < c,
                ;
            }
        }
        let a = Address { block: self.current_block, slot: self.next_slot };
        let ghost mid = *self;
        self.next_slot = self.next_slot + 1;
        proof {
            assert forall|i: int|
                0 <= i < self.num_blocks() implies #[trigger] self.slots_of(i) == mid.slots_of(
                i,
            ) by {}
            assert forall|i: int|
                0 <= i < pre.num_blocks() implies #[trigger] self.slots_of(i) == pre.slots_of(
                i,
            ) by {
                assert(self.slots_of(i) == mid.slots_of(i));
                assert(mid.slots_of(i) == pre.slots_of(i));
            }
            let ci = mid.cur_idx();
            let csl = mid.cur_slot();
            let cs0 = mid.contribs();
            let cs1 = self.contribs();
            assert(cs1 =~= cs0.update(ci, self.slots_of(ci).take(csl + 1)));
            lemma_concat_update(cs0, ci, self.slots_of(ci).take(csl + 1));
            assert forall|j: int| ci + 1 <= j < cs0.len() implies (#[trigger] cs0[j]).len()
                == 0 by {}
            lemma_concat_all_empty(cs0.skip(ci + 1));
            lemma_concat_split(cs0, ci);
            lemma_concat_split(cs0.skip(ci), 1);
            assert(cs0.skip(ci).take(1) =~= seq![cs0[ci]]);
            assert(cs0.skip(ci).skip(1) =~= cs0.skip(ci + 1));
            lemma_concat_singleton(cs0[ci]);
            assert(self.slots_of(ci).take(csl + 1) =~= self.slots_of(ci).take(csl).push(
                self.value_at(a),
            ));
            assert(self.live() =~= mid.live().push(self.value_at(a)));
            assert(self.wf());
            self.lemma_live_len();
            mid.lemma_live_len();
        }
        a
    }

    /// Push a value: reserve the next slot and write `value` into it. Never
    /// fails; grows the chain if and only if every committed slot is already
    /// behind the cursor.
    pub fn push(&mut self, value: T)
        requires
            old(self).wf(),
        ensures
            final(self).wf(),
            final(self).cap_spec() == old(self).cap_spec(),
            final(self).live() == old(self).live().push(Some(value)),
            final(self).num_blocks() == old(self).num_blocks() + (if old(self).live().len() == old(
                self,
            ).total_slots() {
                1int
            } else {
                0int
            }),
            final(self).mark_point() == old(self).mark_point(),
            forall|a2: Address|
                old(self).committed(a2) ==> final(self).committed(a2) && final(self).value_at(a2)
                    == old(self).value_at(a2),
    {
        let ghost pre = *old(self);
        let a = self.emplace_back();
        let ghost mid = *self;
        self.write_at(a, value);
        proof {
            assert(self.live() =~= pre.live().push(Some(value)));
            assert forall|a2: Address| pre.committed(a2) implies self.committed(a2)
                && self.value_at(a2) == pre.value_at(a2) by {
                assert(mid.committed(a2));
                assert(mid.value_at(a2) == pre.value_at(a2));
                if a2 == a {
                    pre.lemma_committed_value(a);
                    assert(mid.addr_point(a) == pre.live().len());
                    assert(pre.addr_point(a) == mid.addr_point(a));
                    assert(false);
                }
                assert(self.value_at(a2) == mid.value_at(a2));
                assert(self.committed(a2));
            }
        }
    }

    /// Reserve a contiguous run of `n` slots and return the address of the
    /// first. The run never spans two blocks: if fewer than `n` slots remain
    /// in the current block, the remainder is abandoned and the run starts at
    /// the beginning of the next (possibly fresh) block. Asking for more than
    /// a block can hold is a caller error, excluded by precondition.
    pub fn emplace_back_multi(&mut self, n: usize) -> (a: Address)
        requires
            old(self).wf(),
            1 <= n <= old(self).cap_spec(),
        ensures
            final(self).wf(),
            final(self).cap_spec() == old(self).cap_spec(),
            (a.slot + n) as int <= final(self).cap_spec(),
            forall|j: int|
                0 <= j < n ==> #[trigger] final(self).committed(
                    (Address { block: a.block, slot: (a.slot + j) as usize }),
                ),
            final(self).addr_point(a) + n == final(self).live().len(),
            final(self).live().take(old(self).live().len() as int) == old(self).live(),
            old(self).cap_spec() - old(self).cur_slot() >= n ==> {
                &&& a.block as int == old(self).cur_idx()
                &&& a.slot as int == old(self).cur_slot()
                &&& final(self).live().len() == old(self).live().len() + n
                &&& final(self).num_blocks() == old(self).num_blocks()
            },
            old(self).cap_spec() - old(self).cur_slot() < n ==> {
                &&& a.slot == 0
                &&& final(self).live().len() == (old(self).cur_idx() + 1) * old(self).cap_spec()
                    + n
                &&& final(self).num_blocks() == old(self).num_blocks() + (if old(self).cur_idx()
                    == old(self).num_blocks() - 1 {
                    1int
                } else {
                    0int
                })
            },
            final(self).mark_point() == old(self).mark_point(),
            forall|a2: Address|
                old(self).committed(a2) ==> final(self).committed(a2) && final(self).value_at(a2)
                    == old(self).value_at(a2),
    {
        proof {
            self.lemma_live_len();
            self.data.lemma_wf_facts();
        }
        let ghost pre = *old(self);
        let remaining = self.cap - self.next_slot;
        if remaining < n {
            self.next_block();
            proof {
                let ci = pre.cur_idx();
                let c = pre.cap as int;
                assert(self.live().len() == ci * c + pre.cur_slot() + pre.slots_of(ci).skip(
                    pre.cur_slot(),
                ).len());
                assert(self.live().len() == (ci + 1) * c) by (nonlinear_arith)
                    requires
                        self.live().len() == ci * c + pre.cur_slot() + (c - pre.cur_slot()),
                ;
                assert(self.live().take(pre.live().len() as int) =~= pre.live());
            }
        }
        let a = Address { block: self.current_block, slot: self.next_slot };
        let ghost mid = *self;
        proof {
            mid.lemma_live_len();
        }
        self.next_slot = self.next_slot + n;
        proof {
            assert forall|i: int|
                0 <= i < self.num_blocks() implies #[trigger] self.slots_of(i) == mid.slots_of(
                i,
            ) by {}
            let ci = mid.cur_idx();
            let csl = mid.cur_slot();
            let cs0 = mid.contribs();
            let cs1 = self.contribs();
            assert(cs1 =~= cs0.update(ci, self.slots_of(ci).take(csl + n)));
            lemma_concat_update(cs0, ci, self.slots_of(ci).take(csl + n));
            assert forall|j: int| ci + 1 <= j < cs0.len() implies (#[trigger] cs0[j]).len()
                == 0 by {}
            lemma_concat_all_empty(cs0.skip(ci + 1));
            lemma_concat_split(cs0, ci);
            lemma_concat_split(cs0.skip(ci), 1);
            assert(cs0.skip(ci).take(1) =~= seq![cs0[ci]]);
            assert(cs0.skip(ci).skip(1) =~= cs0.skip(ci + 1));
            lemma_concat_singleton(cs0[ci]);
            assert(self.wf());
            self.lemma_live_len();
            assert(self.live().take(mid.live().len() as int) =~= mid.live());
            if pre.cap_spec() - pre.cur_slot() >= n {
                assert(self.live().take(pre.live().len() as int) =~= pre.live());
            }
        }
        a
    }

    /// Save the cursor — current block and next slot — as the mark.
    pub fn mark(&mut self)
        requires
            old(self).wf(),
        ensures
            final(self).wf(),
            final(self).cap_spec() == old(self).cap_spec(),
            final(self).live() == old(self).live(),
            final(self).num_blocks() == old(self).num_blocks(),
            final(self).mark_point() == old(self).live().len(),
            forall|a2: Address|
                old(self).committed(a2) ==> final(self).committed(a2) && final(self).value_at(a2)
                    == old(self).value_at(a2),
    {
        proof {
            self.lemma_live_len();
        }
        self.marked_block = self.current_block;
        self.marked_slot = self.next_slot;
        proof {
            assert forall|i: int|
                0 <= i < self.num_blocks() implies #[trigger] self.slots_of(i) == old(
                self,
            ).slots_of(i) by {}
            assert(self.contribs() =~= old(self).contribs());
            assert(self.wf());
        }
    }

    /// Rewind to the front: the cursor returns to the head block's first
    /// slot and the mark is reset there too. No block is freed and no slot is
    /// overwritten; everything is merely un-committed.
    pub fn rewind(&mut self)
        requires
            old(self).wf(),
        ensures
            final(self).wf(),
            final(self).cap_spec() == old(self).cap_spec(),
            final(self).live() == Seq::<Option<T>>::empty(),
            final(self).num_blocks() == old(self).num_blocks(),
            final(self).mark_point() == 0,
            forall|a2: Address|
                (a2.block as int) < old(self).num_blocks() && (a2.slot as int) < old(
                    self,
                ).cap_spec() ==> final(self).value_at(a2) == old(self).value_at(a2),
    {
        proof {
            self.data.lemma_wf_facts();
        }
        let h = self.data.head_ptr().unwrap();
        proof {
            assert(self.data.order()[0] == h);
        }
        self.current_block = h;
        self.next_slot = 0;
        self.marked_block = h;
        self.marked_slot = 0;
        proof {
            assert forall|i: int|
                0 <= i < self.num_blocks() implies #[trigger] self.slots_of(i) == old(
                self,
            ).slots_of(i) by {}
            assert(self.wf());
            self.lemma_live_len();
            assert(0int * (self.cap as int) == 0) by (nonlinear_arith);
            assert(self.live().len() == 0);
            assert(self.live() =~= Seq::<Option<T>>::empty());
            assert(self.mark_point() == 0);
        }
    }

    /// Rewind to the mark: the cursor returns to the marked address, so
    /// exactly the slots committed after the mark are un-committed. The mark
    /// itself is kept. No block is allocated or freed, no slot overwritten.
    pub fn rewind_to_mark(&mut self)
        requires
            old(self).wf(),
        ensures
            final(self).wf(),
            final(self).cap_spec() == old(self).cap_spec(),
            final(self).live() == old(self).live().take(old(self).mark_point()),
            final(self).num_blocks() == old(self).num_blocks(),
            final(self).mark_point() == old(self).mark_point(),
            forall|a2: Address|
                (a2.block as int) < old(self).num_blocks() && (a2.slot as int) < old(
                    self,
                ).cap_spec() ==> final(self).value_at(a2) == old(self).value_at(a2),
    {
        proof {
            self.lemma_live_len();
        }
        self.current_block = self.marked_block;
        self.next_slot = self.marked_slot;
        proof {
            let pre = *old(self);
            let mi = pre.mark_idx();
            let ms = pre.mark_slot_of();
            let ci = pre.cur_idx();
            let c = pre.cap as int;
            assert forall|i: int|
                0 <= i < self.num_blocks() implies #[trigger] self.slots_of(i) == pre.slots_of(
                i,
            ) by {}
            assert(self.wf());
            self.lemma_live_len();
            let cs0 = pre.contribs();
            let cs1 = self.contribs();
            assert forall|j: int| mi + 1 <= j < cs1.len() implies (#[trigger] cs1[j]).len()
                == 0 by {}
            lemma_concat_empty_tail(cs1, mi + 1);
            lemma_concat_split(cs1.take(mi + 1), mi);
            assert(cs1.take(mi + 1).take(mi) =~= cs0.take(mi));
            assert(cs1.take(mi + 1).skip(mi) =~= seq![cs1[mi]]);
            lemma_concat_singleton(cs1[mi]);
            assert(self.live() == concat_all(cs0.take(mi)) + cs1[mi]);
            lemma_concat_split(cs0, mi);
            lemma_concat_split(cs0.skip(mi), 1);
            assert(cs0.skip(mi).take(1) =~= seq![cs0[mi]]);
            assert(cs0.skip(mi).skip(1) =~= cs0.skip(mi + 1));
            lemma_concat_singleton(cs0[mi]);
            assert forall|j: int| 0 <= j < mi implies (#[trigger] cs0[j]).len() == c by {
                assert(pre.slots_of(j).len() == pre.cap);
            }
            lemma_concat_uniform_len(cs0, mi, c);
            assert(pre.live() == concat_all(cs0.take(mi)) + (cs0[mi] + concat_all(
                cs0.skip(mi + 1),
            )));
            assert(cs1[mi] =~= cs0[mi].take(ms));
            assert(ms <= cs0[mi].len());
            assert(self.live() =~= pre.live().take(mi * c + ms));
        }
    }

    /// Write `value` through a committed address: in-place construction of
    /// the reserved slot. Nothing else — cursor, mark, other slots — changes.
    pub fn write_at(&mut self, a: Address, value: T)
        requires
            old(self).wf(),
            old(self).committed(a),
        ensures
            final(self).wf(),
            final(self).cap_spec() == old(self).cap_spec(),
            final(self).value_at(a) == Some(value),
            final(self).num_blocks() == old(self).num_blocks(),
            final(self).mark_point() == old(self).mark_point(),
            final(self).live() == old(self).live().update(old(self).addr_point(a), Some(value)),
            forall|a2: Address|
                old(self).committed(a2) ==> final(self).committed(a2),
            forall|a2: Address|
                a2 != a && (a2.block as int) < old(self).num_blocks() && (a2.slot as int) < old(
                    self,
                ).cap_spec() ==> final(self).value_at(a2) == old(self).value_at(a2),
    {
        proof {
            self.data.lemma_wf_facts();
            assert(self.data.order()[a.block as int] == a.block);
            assert((a.block as int) < self.data.arena_size());
            old(self).lemma_committed_value(a);
            let blk0 = self.data.data_at(a.block);
            blk0.lemma_dims();
            assert(blk0.cap() == self.cap_spec());
        }
        let ghost pre = *old(self);
        let blk = self.data.data_mut(a.block);
        let r = blk.insert(a.slot, value);
        proof {
            LinkedList::lemma_wf_preserved(&pre.data, &self.data);
            assert(r.is_some());
            assert forall|i: int|
                0 <= i < pre.num_blocks() && i != a.block as int implies #[trigger] self.slots_of(i)
                == pre.slots_of(i) by {
                if pre.data.order()[i] == pre.data.order()[a.block as int] {
                    pre.data.lemma_index_unique(i, a.block as int);
                }
            }
            assert(self.slots_of(a.block as int) == pre.slots_of(a.block as int).update(
                a.slot as int,
                Some(value),
            ));
            assert(self.wf());
            let b = a.block as int;
            let s = a.slot as int;
            let c = pre.cap as int;
            let cs0 = pre.contribs();
            let cs1 = self.contribs();
            let newseg = cs1[b];
            assert(cs1 =~= cs0.update(b, newseg));
            lemma_concat_update(cs0, b, newseg);
            lemma_concat_split(cs0, b);
            lemma_concat_split(cs0.skip(b), 1);
            assert(cs0.skip(b).take(1) =~= seq![cs0[b]]);
            assert(cs0.skip(b).skip(1) =~= cs0.skip(b + 1));
            lemma_concat_singleton(cs0[b]);
            assert forall|j: int| 0 <= j < b implies (#[trigger] cs0[j]).len() == c by {
                assert(pre.slots_of(j).len() == pre.cap);
            }
            lemma_concat_uniform_len(cs0, b, c);
            assert(newseg =~= cs0[b].update(s, Some(value)));
            assert(pre.live() == concat_all(cs0.take(b)) + (cs0[b] + concat_all(cs0.skip(b + 1))));
            assert(self.live() == concat_all(cs0.take(b)) + newseg + concat_all(cs0.skip(b + 1)));
            assert(self.live() =~= pre.live().update(b * c + s, Some(value)));
        }
    }

    /// Whether `a` addresses a committed slot, so unverified callers can
    /// test an address before reading or writing through it.
    pub fn is_committed(&self, a: Address) -> (r: bool)
        requires
            self.wf(),
        ensures
            r == self.committed(a),
    {
        proof {
            self.data.lemma_wf_facts();
        }
        a.block < self.data.len() && a.slot < self.cap && (a.block < self.current_block || (a.block
            == self.current_block && a.slot < self.next_slot))
    }

    /// Read the slot at a committed address.
    pub fn read_at(&self, a: Address) -> (r: Option<T>)
        requires
            self.wf(),
            self.committed(a),
        ensures
            r == self.value_at(a),
    {
        proof {
            self.data.lemma_wf_facts();
            assert(self.data.order()[a.block as int] == a.block);
            assert((a.block as int) < self.data.arena_size());
        }
        let blk = self.data.get(a.block).unwrap();
        proof {
            assert(blk.slots() == self.slots_of(a.block as int));
            assert(self.slots_of(a.block as int).len() == self.cap);
            blk.lemma_dims();
        }
        blk.get(a.slot)
    }

    /// All committed slots in reservation order: `Some` where a value was
    /// written, `None` where a slot was reserved or abandoned but never
    /// written.
    pub fn iter(&self) -> (r: Vec<Option<T>>)
        requires
            self.wf(),
        ensures
            r@ == self.live(),
    {
        proof {
            self.data.lemma_wf_facts();
            self.lemma_live_len();
        }
        let mut out: Vec<Option<T>> = Vec::new();
        let mut k: usize = 0;
        while k < self.current_block
            invariant
                self.wf(),
                k <= self.cur_idx(),
                out@ == concat_all(self.contribs().take(k as int)),
            decreases self.cur_idx() - k,
        {
            proof {
                self.data.lemma_wf_facts();
                assert(self.data.order()[k as int] == k);
            }
            let blk = self.data.get(k).unwrap();
            proof {
                assert(blk.slots() == self.slots_of(k as int));
            }
            let mut part = blk.all_slots();
            out.append(&mut part);
            proof {
                lemma_concat_split(self.contribs().take(k + 1), k as int);
                assert(self.contribs().take(k + 1).take(k as int) =~= self.contribs().take(
                    k as int,
                ));
                assert(self.contribs().take(k + 1).skip(k as int) =~= seq![self.contribs()[
                    k as int]]);
                lemma_concat_singleton(self.contribs()[k as int]);
                assert(self.contribs()[k as int] == self.slots_of(k as int));
            }
            k += 1;
        }
        proof {
            self.data.lemma_wf_facts();
            assert(self.data.order()[self.cur_idx()] == self.current_block);
        }
        let blk = self.data.get(self.current_block).unwrap();
        proof {
            assert(blk.slots() == self.slots_of(self.cur_idx()));
            assert(blk.slots().len() == self.cap);
        }
        let all = blk.all_slots();
        let mut j: usize = 0;
        while j < self.next_slot
            invariant
                self.wf(),
                j <= self.cur_slot(),
                all@ == self.slots_of(self.cur_idx()),
                all@.len() == self.cap_spec(),
                out@ == concat_all(self.contribs().take(self.cur_idx())) + self.slots_of(
                    self.cur_idx(),
                ).take(j as int),
            decreases self.cur_slot() - j,
        {
            out.push(all[j]);
            proof {
                assert(out@ =~= concat_all(self.contribs().take(self.cur_idx())) + self.slots_of(
                    self.cur_idx(),
                ).take(j + 1));
            }
            j += 1;
        }
        proof {
            let ci = self.cur_idx();
            let cs = self.contribs();
            lemma_concat_split(cs.take(ci + 1), ci);
            assert(cs.take(ci + 1).take(ci) =~= cs.take(ci));
            assert(cs.take(ci + 1).skip(ci) =~= seq![cs[ci]]);
            lemma_concat_singleton(cs[ci]);
            assert(cs[ci] == self.slots_of(ci).take(self.cur_slot()));
            assert(out@ == self.live());
        }
        out
    }
}

impl<T> PtrBased for Vec<T> {
    /// The first element's position, or `None` when empty.
    open spec fn begin_spec(&self) -> Option<usize> {
        if self.view().len() == 0 {
            None
        } else {
            Some(0usize)
        }
    }

    /// One past the last element, or `None` when empty.
    open spec fn end_spec(&self) -> Option<usize> {
        if self.view().len() == 0 {
            None
        } else {
            Some(self.view().len() as usize)
        }
    }

    open spec fn next_spec(&self, pos: usize) -> Option<usize> {
        if self.view().len() == 0 || pos >= self.view().len() {
            None
        } else {
            Some((pos + 1) as usize)
        }
    }

    open spec fn prev_spec(&self, pos: usize) -> Option<usize> {
        if self.view().len() == 0 || pos == 0 || pos > self.view().len() {
            None
        } else {
            Some((pos - 1) as usize)
        }
    }

    open spec fn dist_ok(&self, first: usize, last: usize) -> bool {
        first <= last <= self.view().len()
    }

    open spec fn dist_spec(&self, first: usize, last: usize) -> int {
        last - first
    }

    fn begin(&self) -> (r: Option<usize>) {
        if self.len() == 0 {
            None
        } else {
            Some(0)
        }
    }

    fn end(&self) -> (r: Option<usize>) {
        if self.len() == 0 {
            None
        } else {
            Some(self.len())
        }
    }

    fn next(&self, pos: usize) -> (r: Option<usize>) {
        if self.len() == 0 || pos >= self.len() {
            None
        } else {
            Some(pos + 1)
        }
    }

    fn prev(&self, pos: usize) -> (r: Option<usize>) {
        if self.len() == 0 || pos == 0 || pos > self.len() {
            None
        } else {
            Some(pos - 1)
        }
    }

    /// Positions are offsets, so distance is their difference.
    fn distance(&self, first: usize, last: usize) -> (r: usize) {
        last - first
    }
}

} // verus!
