//! Pool of fixed-capacity blocks chained in insertion order.
//!
//! A pool owns a chain of blocks, pushes into the current block, grows the
//! chain only when every committed slot is in use, and supports mark/rewind:
//! rewinding discards exactly the elements committed after the mark without
//! freeing any block, so pushes after a rewind reuse the same storage.
use vstd::prelude::*;
use crate::concat::{
    concat_all, lemma_concat_all_empty, lemma_concat_empty_tail, lemma_concat_push,
    lemma_concat_singleton, lemma_concat_split, lemma_concat_uniform_len, lemma_concat_update,
};
use crate::datablock::DataBlock;
use crate::linkedlist::LinkedList;
use crate::ptrbased::PtrBased;
use crate::smallobjectpool::SmallObjectPool;

verus! {

/// Growable pool with amortized O(1) `push`, checkpoint (`mark`), and cheap
/// rewind. The observable state is `live()`: the committed elements in
/// insertion order, exactly what `iter` returns.
pub struct Pool<T> {
    data: LinkedList<DataBlock<T>>,
    marked_block: Option<usize>,
    current_block: Option<usize>,
    cap: usize,
    cur_i: Ghost<int>,
    mark_i: Ghost<int>,
}

impl<T: Copy> Pool<T> {
    /// The block capacity every block of this pool is created with.
    pub closed spec fn cap_spec(&self) -> int {
        self.cap as int
    }

    /// Number of blocks in the chain.
    pub closed spec fn num_blocks(&self) -> int {
        self.data.order().len() as int
    }

    /// The block at chain position `i`.
    pub closed spec fn block_at(&self, i: int) -> DataBlock<T> {
        self.data.data_at(self.data.order()[i])
    }

    /// The committed elements of each block, in chain order.
    pub closed spec fn blocks_live(&self) -> Seq<Seq<T>> {
        Seq::new(self.num_blocks() as nat, |i: int| self.block_at(i).live())
    }

    /// The committed elements of the pool, in insertion order.
    pub open spec fn live(&self) -> Seq<T> {
        concat_all(self.blocks_live())
    }

    /// Total slots across all blocks: the storage already committed to the
    /// pool, whether or not it currently holds elements.
    pub open spec fn committed(&self) -> int {
        self.num_blocks() * self.cap_spec()
    }

    /// Chain position of the block currently receiving pushes.
    pub closed spec fn cur_idx(&self) -> int {
        self.cur_i@
    }

    /// Whether a mark is set.
    pub closed spec fn has_mark(&self) -> bool {
        self.marked_block.is_some()
    }

    /// Chain position of the marked block.
    pub closed spec fn mark_idx(&self) -> int {
        self.mark_i@
    }

    /// The saved occupied boundary within the marked block.
    pub closed spec fn mark_val(&self) -> int {
        self.block_at(self.mark_idx()).mark_of().unwrap()
    }

    /// Position in `live()` that a rewind to the mark will cut back to.
    pub open spec fn mark_point(&self) -> int {
        self.mark_idx() * self.cap_spec() + self.mark_val()
    }

    /// Well-formedness: the chain is well-formed, all blocks share the pool
    /// capacity, blocks before the current one are full and blocks after it
    /// are empty, and the mark (if set) lies at or before the current
    /// position.
    pub closed spec fn wf(&self) -> bool {
        &&& self.data.wf()
        &&& self.cap >= 1
        &&& forall|i: int| 0 <= i < self.num_blocks() ==> (#[trigger] self.block_at(i)).wf()
        &&& forall|i: int|
            0 <= i < self.num_blocks() ==> (#[trigger] self.block_at(i)).cap() == self.cap
        &&& (self.current_block.is_some() <==> self.num_blocks() > 0)
        &&& (self.current_block is None ==> self.cur_i@ == 0)
        &&& (self.current_block matches Some(h) ==> {
            &&& 0 <= self.cur_i@ < self.num_blocks()
            &&& self.data.order()[self.cur_i@] == h
        })
        &&& forall|i: int|
            0 <= i < self.cur_i@ ==> (#[trigger] self.block_at(i)).filled() == self.cap
        &&& forall|i: int|
            self.current_block.is_some() && self.cur_i@ < i < self.num_blocks() ==> (
            #[trigger] self.block_at(i)).filled() == 0
        &&& (self.marked_block matches Some(mh) ==> {
            &&& self.current_block.is_some()
            &&& 0 <= self.mark_i@ <= self.cur_i@
            &&& self.data.order()[self.mark_i@] == mh
            &&& self.block_at(self.mark_i@).mark_of().is_some()
        })
    }

    /// The element count never exceeds the committed storage, and block
    /// counts and capacity are nonnegative.
    pub proof fn lemma_live_within_committed(&self)
        requires
            self.wf(),
        ensures
            0 <= self.live().len() <= self.committed(),
            self.num_blocks() >= 0,
            self.cap_spec() >= 1,
    {
        self.lemma_live_len();
    }

    /// With a mark set, the mark point lies within the committed elements.
    pub proof fn lemma_mark_within_live(&self)
        requires
            self.wf(),
            self.has_mark(),
        ensures
            0 <= self.mark_point() <= self.live().len(),
    {
        self.lemma_live_len();
        let mi = self.mark_i@;
        let ci = self.cur_i@;
        let c = self.cap as int;
        assert(self.block_at(mi).wf());
        self.block_at(mi).lemma_wf_facts();
        self.block_at(ci).lemma_wf_facts();
        assert(ci * c <= ci * c + self.block_at(ci).filled());
        if mi < ci {
            assert(self.block_at(mi).filled() == c);
            assert(self.mark_val() <= c);
            assert((mi + 1) * c <= ci * c) by (nonlinear_arith)
                requires
                    mi + 1 <= ci,
                    c >= 0,
            ;
            assert(mi * c + c == (mi + 1) * c) by (nonlinear_arith);
            assert(ci * c <= self.live().len());
        } else {
            assert(self.mark_val() <= self.block_at(ci).filled());
        }
        assert(mi * c >= 0) by (nonlinear_arith)
            requires
                mi >= 0,
                c >= 0,
        ;
    }

    /// `live()` decomposes as: all blocks before the current one are full,
    /// blocks after it are empty, so the length is determined by the current
    /// block's fill.
    proof fn lemma_live_len(&self)
        requires
            self.wf(),
        ensures
            self.current_block.is_some() ==> self.live().len() == self.cur_i@ * self.cap_spec()
                + self.block_at(self.cur_i@).filled(),
            self.current_block.is_some() ==> self.live() == concat_all(
                self.blocks_live().take(self.cur_i@ + 1),
            ),
            self.current_block.is_none() ==> self.live().len() == 0,
            self.live().len() <= self.committed(),
    {
        self.lemma_blocks_wf_facts();
        let bl = self.blocks_live();
        let c = self.cap as int;
        let nb = self.num_blocks();
        if self.current_block.is_some() {
            let ci = self.cur_i@;
            assert(forall|j: int|
                ci + 1 <= j < bl.len() ==> (#[trigger] bl[j]).len() == 0);
            lemma_concat_empty_tail(bl, ci + 1);
            lemma_concat_split(bl.take(ci + 1), ci);
            assert(bl.take(ci + 1).take(ci) =~= bl.take(ci));
            assert(bl.take(ci + 1).skip(ci) =~= seq![bl[ci]]);
            lemma_concat_singleton(bl[ci]);
            lemma_concat_uniform_len(bl, ci, c);
            assert(self.live().len() == ci * c + self.block_at(ci).filled());
            assert(ci * c + self.block_at(ci).filled() <= nb * c) by (nonlinear_arith)
                requires
                    0 <= ci < nb,
                    0 <= self.block_at(ci).filled() <= c,
            ;
        } else {
            assert(bl.len() == 0);
            assert(nb * c == 0) by (nonlinear_arith)
                requires
                    nb == 0,
            ;
        }
    }

    /// Every block in a well-formed pool is a well-formed block.
    proof fn lemma_blocks_wf_facts(&self)
        requires
            self.wf(),
        ensures
            forall|i: int|
                0 <= i < self.num_blocks() ==> (#[trigger] self.block_at(i)).live().len()
                    == self.block_at(i).filled(),
            forall|i: int|
                0 <= i < self.num_blocks() ==> 0 <= (#[trigger] self.block_at(i)).filled()
                    <= self.cap_spec(),
            forall|i: int|
                0 <= i < self.num_blocks() ==> (#[trigger] self.blocks_live()[i])
                    == self.block_at(i).live(),
    {
        assert forall|i: int| 0 <= i < self.num_blocks() implies (#[trigger] self.block_at(
            i,
        )).live().len() == self.block_at(i).filled() && 0 <= self.block_at(i).filled()
            <= self.cap_spec() by {
            self.block_at(i).lemma_wf_facts();
        }
    }

    /// Handles of distinct chain positions are distinct, so mutating the
    /// block at one position leaves the blocks at all others unchanged.
    proof fn lemma_block_at_other(
        pre: &LinkedList<DataBlock<T>>,
        post: &LinkedList<DataBlock<T>>,
        h: usize,
        ci: int,
    )
        requires
            pre.wf(),
            0 <= ci < pre.order().len(),
            pre.order()[ci] == h,
            post.order() == pre.order(),
            post.arena_size() == pre.arena_size(),
            forall|h2: usize|
                h2 != h && (h2 as int) < pre.arena_size() ==> post.data_at(h2) == pre.data_at(h2),
        ensures
            forall|i: int|
                0 <= i < pre.order().len() && i != ci ==> post.data_at(pre.order()[i])
                    == pre.data_at(pre.order()[i]),
    {
        pre.lemma_wf_facts();
        assert forall|i: int| 0 <= i < pre.order().len() && i != ci implies post.data_at(
            pre.order()[i],
        ) == pre.data_at(pre.order()[i]) by {
            if pre.order()[i] == h {
                pre.lemma_index_unique(i, ci);
            }
        }
    }

    /// An empty pool: no blocks yet, no mark, capacity fixed for the pool's
    /// life. Every block the pool ever creates will have capacity `cap`.
    pub fn new(cap: usize) -> (r: Self)
        requires
            cap >= 1,
        ensures
            r.wf(),
            r.cap_spec() == cap,
            r.live() == Seq::<T>::empty(),
            r.num_blocks() == 0,
            !r.has_mark(),
    {
        let r = Pool {
            data: LinkedList::new(),
            marked_block: None,
            current_block: None,
            cap,
            cur_i: Ghost(0),
            mark_i: Ghost(0),
        };
        proof {
            assert(r.blocks_live() =~= Seq::<Seq<T>>::empty());
        }
        r
    }

    /// Number of blocks currently allocated: the pool's allocation counter.
    pub fn block_count(&self) -> (r: usize)
        requires
            self.wf(),
        ensures
            r as int == self.num_blocks(),
    {
        proof {
            self.data.lemma_wf_facts();
        }
        self.data.len()
    }

    /// Append an empty block at the tail and make it current.
    fn new_block(&mut self)
        requires
            old(self).wf(),
            old(self).current_block.is_some() ==> (old(self).cur_i@ == old(self).num_blocks() - 1
                && old(self).block_at(old(self).cur_i@).filled() == old(self).cap_spec()),
        ensures
            final(self).wf(),
            final(self).cap_spec() == old(self).cap_spec(),
            final(self).num_blocks() == old(self).num_blocks() + 1,
            final(self).live() == old(self).live(),
            final(self).has_mark() == old(self).has_mark(),
            old(self).has_mark() ==> final(self).mark_point() == old(self).mark_point(),
            final(self).current_block.is_some(),
            final(self).cur_i@ == final(self).num_blocks() - 1,
            final(self).block_at(final(self).cur_i@).filled() == 0,
            final(self).block_at(final(self).cur_i@).live() == Seq::<T>::empty(),
    {
        proof {
            self.data.lemma_wf_facts();
        }
        let ghost pre = *self;
        self.data.push_back(DataBlock::new(self.cap));
        self.current_block = self.data.tail_ptr();
        proof {
            self.cur_i@ = self.data.order().len() - 1;
            self.data.lemma_wf_facts();
            let nb0 = pre.num_blocks();
            let ord0 = pre.data.order();
            let ord = self.data.order();
            let nh = ord[nb0];
            assert(ord == ord0.push(nh));
            // the old blocks are unchanged
            assert forall|i: int| 0 <= i < nb0 implies #[trigger] self.block_at(i)
                == pre.block_at(i) by {
                assert(ord0[i] < pre.data.arena_size());
                assert(ord[i] == ord0[i]);
            }
            assert(self.block_at(nb0 as int).filled() == 0);
            assert(self.blocks_live() =~= pre.blocks_live().push(Seq::<T>::empty()));
            lemma_concat_push(pre.blocks_live(), Seq::<T>::empty());
            assert(concat_all(pre.blocks_live()) + Seq::<T>::empty() =~= concat_all(
                pre.blocks_live(),
            ));
            if pre.has_mark() {
                assert(self.block_at(self.mark_i@) == pre.block_at(pre.mark_i@));
            }
        }
    }

    /// Grow the chain by one block and push into it; used when every
    /// committed slot is already in use.
    fn add_and_push(&mut self, value: T)
        requires
            old(self).wf(),
            old(self).current_block.is_some() ==> (old(self).cur_i@ == old(self).num_blocks() - 1
                && old(self).block_at(old(self).cur_i@).filled() == old(self).cap_spec()),
        ensures
            final(self).wf(),
            final(self).cap_spec() == old(self).cap_spec(),
            final(self).num_blocks() == old(self).num_blocks() + 1,
            final(self).live() == old(self).live().push(value),
            final(self).has_mark() == old(self).has_mark(),
            old(self).has_mark() ==> final(self).mark_point() == old(self).mark_point(),
    {
        self.new_block();
        let ghost mid = *self;
        let h = match self.current_block {
            Some(h) => h,
            None => {
                proof {
                    assert(false);
                }
                return ;
            },
        };
        proof {
            self.data.lemma_wf_facts();
            assert(self.data.order()[self.cur_i@] == h);
            assert(h < self.data.arena_size());
        }
        let blk = self.data.data_mut(h);
        let r = blk.try_push(value);
        proof {
            LinkedList::lemma_wf_preserved(&mid.data, &self.data);
            Self::lemma_block_at_other(&mid.data, &self.data, h, mid.cur_i@);
            let ci = mid.cur_i@;
            assert(self.block_at(ci) == self.data.data_at(h));
            assert(r.is_some());
            assert forall|i: int| 0 <= i < self.num_blocks() && i != ci implies #[trigger] self.block_at(
                i,
            ) == mid.block_at(i) by {}
            assert(self.blocks_live() =~= mid.blocks_live().update(
                ci,
                mid.block_at(ci).live().push(value),
            ));
            lemma_concat_update(mid.blocks_live(), ci, mid.block_at(ci).live().push(value));
            lemma_concat_split(mid.blocks_live(), ci);
            lemma_concat_split(mid.blocks_live().skip(ci), 1);
            assert(mid.blocks_live().skip(ci).take(1) =~= seq![mid.block_at(ci).live()]);
            assert(mid.blocks_live().skip(ci).skip(1) =~= mid.blocks_live().skip(ci + 1));
            lemma_concat_singleton(mid.block_at(ci).live());
            assert(mid.blocks_live().skip(ci + 1) =~= Seq::<Seq<T>>::empty());
            lemma_concat_all_empty(mid.blocks_live().skip(ci + 1));
            assert(self.live() == concat_all(mid.blocks_live().take(ci)) + mid.block_at(
                ci,
            ).live().push(value) + Seq::<T>::empty());
            assert(mid.live() == concat_all(mid.blocks_live().take(ci)) + (mid.block_at(
                ci,
            ).live() + Seq::<T>::empty()));
            assert(self.live() =~= mid.live().push(value));
            if mid.has_mark() {
                assert(self.mark_i@ <= ci);
                if self.mark_i@ < ci {
                    assert(self.block_at(self.mark_i@) == mid.block_at(mid.mark_i@));
                }
            }
        }
    }

    /// Push a value into the pool: into the current block if it has room,
    /// else into the next block if a rewind left one allocated, else into a
    /// newly grown block. Never fails, always appends exactly one element,
    /// and allocates a block if and only if the pool has no free committed
    /// slot left.
    pub fn push(&mut self, value: T)
        requires
            old(self).wf(),
        ensures
            final(self).wf(),
            final(self).cap_spec() == old(self).cap_spec(),
            final(self).live() == old(self).live().push(value),
            final(self).num_blocks() == old(self).num_blocks() + (if old(self).live().len() == old(
                self,
            ).committed() {
                1int
            } else {
                0int
            }),
            final(self).has_mark() == old(self).has_mark(),
            old(self).has_mark() ==> final(self).mark_point() == old(self).mark_point(),
    {
        proof {
            self.lemma_live_len();
        }
        let cur = self.current_block;
        match cur {
            None => {
                proof {
                    assert(self.blocks_live() =~= Seq::<Seq<T>>::empty());
                    assert(self.num_blocks() * self.cap_spec() == 0) by (nonlinear_arith)
                        requires
                            self.num_blocks() == 0,
                    ;
                    assert(self.live().len() == 0 && self.committed() == 0);
                }
                self.add_and_push(value);
            },
            Some(h) => {
                proof {
                    self.data.lemma_wf_facts();
                    assert(self.data.order()[self.cur_i@] == h);
                    assert(h < self.data.arena_size());
                    self.block_at(self.cur_i@).lemma_wf_facts();
                }
                let ghost pre = *self;
                let blk = self.data.data_mut(h);
                let r = blk.try_push(value);
                proof {
                    LinkedList::lemma_wf_preserved(&pre.data, &self.data);
                    Self::lemma_block_at_other(&pre.data, &self.data, h, pre.cur_i@);
                }
                if r.is_some() {
                    proof {
                        let ci = pre.cur_i@;
                        let c = pre.cap as int;
                        pre.lemma_blocks_wf_facts();
                        assert(pre.block_at(ci).filled() < c);
                        assert(self.block_at(ci) == self.data.data_at(h));
                        assert(self.blocks_live() =~= pre.blocks_live().update(
                            ci,
                            pre.block_at(ci).live().push(value),
                        ));
                        lemma_concat_update(
                            pre.blocks_live(),
                            ci,
                            pre.block_at(ci).live().push(value),
                        );
                        lemma_concat_split(pre.blocks_live(), ci);
                        lemma_concat_split(pre.blocks_live().skip(ci), 1);
                        assert(pre.blocks_live().skip(ci).take(1) =~= seq![pre.block_at(
                            ci,
                        ).live()]);
                        assert(pre.blocks_live().skip(ci).skip(1) =~= pre.blocks_live().skip(
                            ci + 1,
                        ));
                        lemma_concat_singleton(pre.block_at(ci).live());
                        assert forall|jj: int|
                            0 <= jj < pre.blocks_live().skip(ci + 1).len() implies (
                        #[trigger] pre.blocks_live().skip(ci + 1)[jj]).len() == 0 by {
                            assert(pre.blocks_live().skip(ci + 1)[jj] == pre.blocks_live()[ci + 1
                                + jj]);
                            assert(pre.block_at(ci + 1 + jj).filled() == 0);
                        }
                        lemma_concat_all_empty(pre.blocks_live().skip(ci + 1));
                        assert(self.live() == concat_all(pre.blocks_live().take(ci))
                            + pre.block_at(ci).live().push(value) + Seq::<T>::empty());
                        assert(pre.live() == concat_all(pre.blocks_live().take(ci)) + (pre.block_at(
                            ci,
                        ).live() + Seq::<T>::empty()));
                        assert(self.live() =~= pre.live().push(value));
                        // no allocation happened, and none was owed
                        pre.lemma_live_len();
                        assert(ci * c + pre.block_at(ci).filled() < pre.num_blocks() * c)
                            by (nonlinear_arith)
                            requires
                                0 <= ci < pre.num_blocks(),
                                0 <= pre.block_at(ci).filled() < c,
                        ;
                        assert forall|i: int|
                            0 <= i < self.num_blocks() && i != ci implies #[trigger] self.block_at(
                            i,
                        ) == pre.block_at(i) by {}
                        if pre.has_mark() {
                            if pre.mark_i@ < ci {
                                assert(self.block_at(self.mark_i@) == pre.block_at(pre.mark_i@));
                            } else {
                                assert(self.block_at(self.mark_i@).mark_of() == pre.block_at(
                                    pre.mark_i@,
                                ).mark_of());
                            }
                        }
                        assert(self.wf());
                    }
                } else {
                    proof {
                        pre.lemma_blocks_wf_facts();
                        assert(pre.block_at(pre.cur_i@).filled() == pre.cap_spec());
                        assert(self.block_at(pre.cur_i@) == pre.block_at(pre.cur_i@));
                        assert forall|i: int|
                            0 <= i < self.num_blocks() implies #[trigger] self.block_at(i)
                            == pre.block_at(i) by {}
                        assert(self.blocks_live() =~= pre.blocks_live());
                        assert(self.wf());
                        assert(self.live() == pre.live());
                    }
                    let nxt = self.data.next(h);
                    match nxt {
                        Some(nh) => {
                            proof {
                                self.data.lemma_adjacent(pre.cur_i@);
                                assert(pre.cur_i@ + 1 < self.num_blocks());
                                assert(nh == self.data.order()[pre.cur_i@ + 1]);
                            }
                            self.current_block = Some(nh);
                            proof {
                                self.cur_i@ = pre.cur_i@ + 1;
                            }
                            let ghost mid = *self;
                            proof {
                                self.data.lemma_wf_facts();
                                assert(nh < self.data.arena_size());
                                if nh == h {
                                    pre.data.lemma_index_unique(pre.cur_i@, pre.cur_i@ + 1);
                                }
                                assert(self.data.data_at(nh) == pre.data.data_at(nh));
                                assert(mid.block_at(pre.cur_i@ + 1) == self.data.data_at(nh));
                                assert(mid.block_at(pre.cur_i@ + 1) == pre.block_at(
                                    pre.cur_i@ + 1,
                                ));
                                assert(pre.block_at(pre.cur_i@ + 1).wf());
                            }
                            let blk2 = self.data.data_mut(nh);
                            let r2 = blk2.try_push(value);
                            proof {
                                let ci = pre.cur_i@;
                                let c = pre.cap as int;
                                LinkedList::lemma_wf_preserved(&mid.data, &self.data);
                                Self::lemma_block_at_other(&mid.data, &self.data, nh, ci + 1);
                                assert(mid.block_at(ci + 1) == pre.block_at(ci + 1));
                                assert(pre.block_at(ci + 1).filled() == 0);
                                assert(r2.is_some());
                                assert(self.block_at(ci + 1) == self.data.data_at(nh));
                                assert forall|i: int|
                                    0 <= i < self.num_blocks() && i != ci + 1 implies #[trigger] self.block_at(
                                    i,
                                ) == pre.block_at(i) by {}
                                assert(self.blocks_live() =~= pre.blocks_live().update(
                                    ci + 1,
                                    pre.block_at(ci + 1).live().push(value),
                                ));
                                lemma_concat_update(
                                    pre.blocks_live(),
                                    ci + 1,
                                    pre.block_at(ci + 1).live().push(value),
                                );
                                lemma_concat_empty_tail(pre.blocks_live(), ci + 1);
                                assert(pre.blocks_live().update(
                                    ci + 1,
                                    pre.block_at(ci + 1).live().push(value),
                                ).skip(ci + 2) =~= pre.blocks_live().skip(ci + 2));
                                lemma_concat_all_empty(pre.blocks_live().skip(ci + 2));
                                assert(pre.block_at(ci + 1).live() =~= Seq::<T>::empty());
                                assert(self.live() == concat_all(pre.blocks_live().take(ci + 1))
                                    + seq![value] + Seq::<T>::empty());
                                assert(self.live() =~= pre.live().push(value));
                                // no allocation happened, and none was owed
                                pre.lemma_live_len();
                                assert((ci + 1) * c <= (pre.num_blocks() - 1) * c)
                                    by (nonlinear_arith)
                                    requires
                                        ci + 1 <= pre.num_blocks() - 1,
                                        c >= 0,
                                ;
                                assert(ci * c + c == (ci + 1) * c) by (nonlinear_arith);
                                assert((pre.num_blocks() - 1) * c < pre.num_blocks() * c)
                                    by (nonlinear_arith)
                                    requires
                                        c >= 1,
                                ;
                                if pre.has_mark() {
                                    if pre.mark_i@ < ci + 1 {
                                        assert(self.block_at(self.mark_i@) == pre.block_at(
                                            pre.mark_i@,
                                        ));
                                    }
                                }
                                assert(self.wf());
                            }
                        },
                        None => {
                            proof {
                                self.data.lemma_adjacent(pre.cur_i@);
                                assert(pre.cur_i@ == self.num_blocks() - 1);
                                // every committed slot is in use
                                pre.lemma_live_len();
                                let ci = pre.cur_i@;
                                let c = pre.cap as int;
                                assert(ci * c + c == (ci + 1) * c) by (nonlinear_arith);
                            }
                            self.add_and_push(value);
                        },
                    }
                }
            },
        }
    }

    /// Save the current position as the mark: the block currently receiving
    /// pushes together with its occupied boundary. On a pool that has never
    /// received a push there is nothing to mark, and none is set.
    pub fn mark(&mut self)
        requires
            old(self).wf(),
        ensures
            final(self).wf(),
            final(self).cap_spec() == old(self).cap_spec(),
            final(self).live() == old(self).live(),
            final(self).num_blocks() == old(self).num_blocks(),
            final(self).has_mark() == (old(self).num_blocks() > 0),
            old(self).num_blocks() > 0 ==> final(self).mark_point() == old(self).live().len(),
    {
        proof {
            self.lemma_live_len();
        }
        self.marked_block = self.current_block;
        proof {
            self.mark_i@ = self.cur_i@;
        }
        let mb = self.marked_block;
        match mb {
            Some(h) => {
                proof {
                    self.data.lemma_wf_facts();
                    assert(self.data.order()[self.cur_i@] == h);
                    assert(h < self.data.arena_size());
                }
                let ghost pre = *self;
                let blk = self.data.data_mut(h);
                blk.mark_slot();
                proof {
                    LinkedList::lemma_wf_preserved(&pre.data, &self.data);
                    Self::lemma_block_at_other(&pre.data, &self.data, h, pre.cur_i@);
                    let ci = pre.cur_i@;
                    assert(self.block_at(ci) == self.data.data_at(h));
                    assert(self.block_at(ci).live() == pre.block_at(ci).live());
                    assert forall|i: int|
                        0 <= i < self.num_blocks() && i != ci implies #[trigger] self.block_at(i)
                        == pre.block_at(i) by {}
                    assert forall|i: int|
                        0 <= i < self.num_blocks() implies #[trigger] pre.block_at(i) == old(
                        self,
                    ).block_at(i) by {}
                    assert(self.blocks_live() =~= pre.blocks_live());
                    assert(pre.blocks_live() =~= old(self).blocks_live());
                    assert(self.wf());
                    assert(self.block_at(ci).mark_of() == Some(old(self).block_at(ci).filled()));
                }
            },
            None => {
                proof {
                    assert forall|i: int|
                        0 <= i < self.num_blocks() implies #[trigger] self.block_at(i) == old(
                        self,
                    ).block_at(i) by {}
                    assert(self.blocks_live() =~= old(self).blocks_live());
                    assert(self.wf());
                }
            },
        }
    }

    /// Reset every block's occupied boundary to zero, drop the mark, and
    /// return the current position to the head of the chain. No block is
    /// freed; the pool keeps its committed storage.
    pub fn rewind_to_front(&mut self)
        requires
            old(self).wf(),
        ensures
            final(self).wf(),
            final(self).cap_spec() == old(self).cap_spec(),
            final(self).live() == Seq::<T>::empty(),
            final(self).num_blocks() == old(self).num_blocks(),
            !final(self).has_mark(),
    {
        let handles = self.data.iter();
        let n = handles.len();
        let mut k: usize = 0;
        while k < n
            invariant
                old(self).wf(),
                n == old(self).num_blocks(),
                handles@ == old(self).data.order(),
                k <= n,
                self.data.wf(),
                self.data.order() == old(self).data.order(),
                self.data.arena_size() == old(self).data.arena_size(),
                self.data.head_spec() == old(self).data.head_spec(),
                self.data.tail_spec() == old(self).data.tail_spec(),
                self.marked_block == old(self).marked_block,
                self.current_block == old(self).current_block,
                self.cap == old(self).cap,
                self.cur_i@ == old(self).cur_i@,
                self.mark_i@ == old(self).mark_i@,
                forall|i: int|
                    0 <= i < k ==> (#[trigger] self.block_at(i)).wf() && self.block_at(i).cap()
                        == self.cap && self.block_at(i).filled() == 0,
                forall|i: int| k <= i < n ==> #[trigger] self.block_at(i) == old(self).block_at(i),
            decreases n - k,
        {
            let h = handles[k];
            proof {
                self.data.lemma_wf_facts();
                assert(h == self.data.order()[k as int]);
                assert(h < self.data.arena_size());
            }
            let ghost mid = *self;
            let blk = self.data.data_mut(h);
            blk.rewind_to_front();
            proof {
                LinkedList::lemma_wf_preserved(&mid.data, &self.data);
                Self::lemma_block_at_other(&mid.data, &self.data, h, k as int);
                assert(self.block_at(k as int) == self.data.data_at(h));
                assert(mid.block_at(k as int) == old(self).block_at(k as int));
                assert(old(self).block_at(k as int).cap() == old(self).cap);
                assert forall|i: int| 0 <= i < n && i != k implies #[trigger] self.block_at(i)
                    == mid.block_at(i) by {}
            }
            k += 1;
        }
        let ghost postloop = *self;
        self.marked_block = None;
        self.current_block = self.data.head_ptr();
        proof {
            self.cur_i@ = 0;
            self.data.lemma_wf_facts();
            assert forall|i: int| 0 <= i < n implies #[trigger] self.block_at(i)
                == postloop.block_at(i) by {}
            assert(self.wf());
            self.lemma_blocks_wf_facts();
            assert forall|j: int|
                0 <= j < self.blocks_live().len() implies (#[trigger] self.blocks_live()[j]).len()
                == 0 by {
                assert(self.blocks_live()[j] == self.block_at(j).live());
                assert(self.block_at(j).filled() == 0);
            }
            lemma_concat_all_empty(self.blocks_live());
        }
    }

    /// Rewind to the mark: the marked block's boundary returns to the saved
    /// value, every block after it is emptied, and the marked block becomes
    /// current again, so pushes resume from the mark position. Exactly the
    /// elements committed after the mark are discarded. With no mark set this
    /// falls back to `rewind_to_front`, by documented policy. No block is
    /// allocated or freed either way.
    pub fn rewind_to_mark(&mut self)
        requires
            old(self).wf(),
        ensures
            final(self).wf(),
            final(self).cap_spec() == old(self).cap_spec(),
            final(self).num_blocks() == old(self).num_blocks(),
            final(self).has_mark() == old(self).has_mark(),
            old(self).has_mark() ==> {
                &&& final(self).live() == old(self).live().take(old(self).mark_point())
                &&& final(self).mark_point() == old(self).mark_point()
            },
            !old(self).has_mark() ==> final(self).live() == Seq::<T>::empty(),
    {
        let mb = self.marked_block;
        match mb {
            None => {
                self.rewind_to_front();
            },
            Some(mh) => {
                proof {
                    self.lemma_mark_within_live();
                    self.lemma_live_len();
                    self.data.lemma_wf_facts();
                    assert(self.data.order()[self.mark_i@] == mh);
                    assert(mh < self.data.arena_size());
                }
                let ghost pre = *self;
                let blk = self.data.data_mut(mh);
                blk.rewind_to_mark();
                proof {
                    LinkedList::lemma_wf_preserved(&pre.data, &self.data);
                    Self::lemma_block_at_other(&pre.data, &self.data, mh, pre.mark_i@);
                    assert(self.block_at(pre.mark_i@) == self.data.data_at(mh));
                    assert forall|i: int|
                        0 <= i < self.num_blocks() && i != pre.mark_i@ implies #[trigger] self.block_at(
                        i,
                    ) == pre.block_at(i) by {}
                }
                // reset every block after the marked one
                let ghost mi = pre.mark_i@;
                let ghost n = pre.num_blocks();
                let mut cur = mh;
                let ghost j = mi;
                loop
                    invariant
                        pre.wf(),
                        pre.marked_block == Some(mh),
                        mi == pre.mark_i@,
                        n == pre.num_blocks(),
                        mi <= j < n,
                        self.data.wf(),
                        self.data.order() == pre.data.order(),
                        self.data.arena_size() == pre.data.arena_size(),
                        self.data.head_spec() == pre.data.head_spec(),
                        self.data.tail_spec() == pre.data.tail_spec(),
                        self.marked_block == pre.marked_block,
                        self.current_block == pre.current_block,
                        self.cap == pre.cap,
                        self.cur_i@ == pre.cur_i@,
                        self.mark_i@ == pre.mark_i@,
                        cur == self.data.order()[j],
                        forall|i: int|
                            0 <= i < n && i != mi && !(mi < i <= j) ==> #[trigger] self.block_at(i)
                                == pre.block_at(i),
                        forall|i: int|
                            mi < i <= j ==> (#[trigger] self.block_at(i)).wf() && self.block_at(
                                i,
                            ).cap() == self.cap && self.block_at(i).filled() == 0
                                && self.block_at(i).mark_of() is None,
                        self.block_at(mi).wf(),
                        self.block_at(mi).cap() == self.cap,
                        self.block_at(mi).slots() == pre.block_at(mi).slots(),
                        self.block_at(mi).mark_of() == pre.block_at(mi).mark_of(),
                        self.block_at(mi).filled() == pre.mark_val(),
                    ensures
                        j == n - 1,
                        cur == self.data.order()[j],
                    decreases n - j,
                {
                    proof {
                        self.data.lemma_adjacent(j);
                    }
                    let nxt = self.data.next(cur);
                    let nh = match nxt {
                        Some(nh) => nh,
                        None => {
                            proof {
                                assert(j == n - 1);
                            }
                            break ;
                        },
                    };
                    proof {
                        assert(j + 1 < n);
                        assert(nh == self.data.order()[j + 1]);
                        self.data.lemma_wf_facts();
                        assert(nh < self.data.arena_size());
                    }
                    let ghost mid = *self;
                    let blk2 = self.data.data_mut(nh);
                    blk2.rewind_to_front();
                    proof {
                        LinkedList::lemma_wf_preserved(&mid.data, &self.data);
                        Self::lemma_block_at_other(&mid.data, &self.data, nh, j + 1);
                        assert(self.block_at(j + 1) == self.data.data_at(nh));
                        assert(mid.block_at(j + 1) == pre.block_at(j + 1));
                        assert(pre.block_at(j + 1).cap() == pre.cap);
                        assert forall|i: int| 0 <= i < n && i != j + 1 implies #[trigger] self.block_at(
                            i,
                        ) == mid.block_at(i) by {}
                        if mi == j + 1 {
                            assert(false);
                        }
                    }
                    cur = nh;
                    proof {
                        j = j + 1;
                    }
                }
                let ghost postloop = *self;
                self.current_block = Some(mh);
                proof {
                    self.cur_i@ = pre.mark_i@;
                    // the marked block's live is the old one cut at the mark
                    let m = pre.mark_val();
                    let c = pre.cap as int;
                    pre.lemma_blocks_wf_facts();
                    pre.block_at(mi).lemma_wf_facts();
                    assert forall|i: int| 0 <= i < n implies #[trigger] self.block_at(i)
                        == postloop.block_at(i) by {}
                    assert forall|i: int| 0 <= i < mi implies #[trigger] self.block_at(i)
                        == pre.block_at(i) by {
                        assert(postloop.block_at(i) == pre.block_at(i));
                    }
                    assert(self.wf());
                    self.lemma_blocks_wf_facts();
                    assert(self.block_at(mi).live() =~= pre.block_at(mi).live().take(m));
                    // live() == old live().take(mark_point())
                    let bl0 = pre.blocks_live();
                    let bl1 = self.blocks_live();
                    assert forall|jj: int| mi + 1 <= jj < bl1.len() implies (
                    #[trigger] bl1[jj]).len() == 0 by {
                        assert(self.block_at(jj).filled() == 0);
                    }
                    assert forall|jj: int| 0 <= jj < mi implies (#[trigger] bl0[jj]).len() == c by {
                        assert(pre.block_at(jj).filled() == c);
                    }
                    lemma_concat_empty_tail(bl1, mi + 1);
                    lemma_concat_split(bl1.take(mi + 1), mi);
                    assert(bl1.take(mi + 1).take(mi) =~= bl0.take(mi));
                    assert(bl1.take(mi + 1).skip(mi) =~= seq![self.block_at(mi).live()]);
                    lemma_concat_singleton(self.block_at(mi).live());
                    assert(self.live() == concat_all(bl0.take(mi)) + self.block_at(mi).live());
                    lemma_concat_split(bl0, mi);
                    lemma_concat_split(bl0.skip(mi), 1);
                    assert(bl0.skip(mi).take(1) =~= seq![pre.block_at(mi).live()]);
                    assert(bl0.skip(mi).skip(1) =~= bl0.skip(mi + 1));
                    lemma_concat_singleton(pre.block_at(mi).live());
                    lemma_concat_uniform_len(bl0, mi, c);
                    assert(pre.live() == concat_all(bl0.take(mi)) + (pre.block_at(mi).live()
                        + concat_all(bl0.skip(mi + 1))));
                    assert(m <= pre.block_at(mi).live().len());
                    assert(self.live() =~= pre.live().take(mi * c + m));
                }
            },
        }
    }

    /// All committed elements in insertion order: chain order, then slot
    /// order within each block.
    pub fn iter(&self) -> (r: Vec<T>)
        requires
            self.wf(),
        ensures
            r@ == self.live(),
    {
        let handles = self.data.iter();
        let n = handles.len();
        let mut out: Vec<T> = Vec::new();
        let mut k: usize = 0;
        while k < n
            invariant
                self.wf(),
                n == self.num_blocks(),
                handles@ == self.data.order(),
                k <= n,
                out@ == concat_all(self.blocks_live().take(k as int)),
            decreases n - k,
        {
            let h = handles[k];
            proof {
                self.data.lemma_wf_facts();
                assert(h == self.data.order()[k as int]);
                assert(h < self.data.arena_size());
            }
            let blk = match self.data.get(h) {
                Some(b) => b,
                None => {
                    proof {
                        assert(false);
                    }
                    return out;
                },
            };
            proof {
                assert(*blk == self.block_at(k as int));
                assert(self.block_at(k as int).wf());
            }
            let mut part = blk.iter();
            out.append(&mut part);
            proof {
                lemma_concat_split(self.blocks_live().take(k + 1), k as int);
                assert(self.blocks_live().take(k + 1).take(k as int) =~= self.blocks_live().take(
                    k as int,
                ));
                assert(self.blocks_live().take(k + 1).skip(k as int) =~= seq![self.block_at(
                    k as int,
                ).live()]);
                lemma_concat_singleton(self.block_at(k as int).live());
            }
            k += 1;
        }
        proof {
            assert(self.blocks_live().take(n as int) =~= self.blocks_live());
        }
        out
    }
}

/// The values of an all-written slot sequence, in order.
pub open spec fn unwrap_all<T>(s: Seq<Option<T>>) -> Seq<T> {
    s.map_values(|x: Option<T>| x.unwrap())
}

/// Slot-counted pool with the mark held at the pool level as an explicit
/// (block, slot) pair. Positions, growth and rewind follow the same position
/// abstraction as the pointer-cursor pool, which does the work underneath:
/// one pool algorithm serves by-value pushes here and in-place construction
/// there. The chain is grown lazily: a pool that has never received a push
/// owns no block.
pub struct Pool2<T> {
    data: Option<SmallObjectPool<T>>,
    marked: bool,
    cap: usize,
}

impl<T: Copy> Pool2<T> {
    /// The block capacity every block of this pool is created with.
    pub closed spec fn cap_spec(&self) -> int {
        self.cap as int
    }

    /// Number of blocks in the chain.
    pub closed spec fn num_blocks(&self) -> int {
        match self.data {
            Some(p) => p.num_blocks(),
            None => 0,
        }
    }

    /// The committed elements, in insertion order.
    pub closed spec fn live(&self) -> Seq<T> {
        match self.data {
            Some(p) => unwrap_all(p.live()),
            None => Seq::empty(),
        }
    }

    /// Total slots across all blocks.
    pub open spec fn committed(&self) -> int {
        self.num_blocks() * self.cap_spec()
    }

    /// Whether a mark is set.
    pub closed spec fn has_mark(&self) -> bool {
        self.marked
    }

    /// Position in `live()` that a rewind to the mark will cut back to.
    pub closed spec fn mark_point(&self) -> int {
        match self.data {
            Some(p) => p.mark_point(),
            None => 0,
        }
    }

    /// Well-formedness: the underlying chain (once it exists) is well-formed
    /// with this pool's capacity, every committed slot holds a value, and a
    /// mark is only set once the chain exists.
    pub closed spec fn wf(&self) -> bool {
        &&& self.cap >= 1
        &&& match self.data {
            Some(p) => {
                &&& p.wf()
                &&& p.cap_spec() == self.cap
                &&& forall|j: int| 0 <= j < p.live().len() ==> (#[trigger] p.live()[j]) is Some
            },
            None => !self.marked,
        }
    }

    /// The element count never exceeds the committed storage, and block
    /// counts and capacity are nonnegative.
    pub proof fn lemma_live_within_committed(&self)
        requires
            self.wf(),
        ensures
            0 <= self.live().len() <= self.committed(),
            self.num_blocks() >= 0,
            self.cap_spec() >= 1,
    {
        match self.data {
            Some(p) => {
                p.lemma_wf_facts();
                assert(self.live().len() == p.live().len());
            },
            None => {
                assert(0int * self.cap_spec() == 0) by (nonlinear_arith);
            },
        }
    }

    /// An empty pool: no blocks yet, no mark, capacity fixed for the pool's
    /// life.
    pub fn new(cap: usize) -> (r: Self)
        requires
            cap >= 1,
        ensures
            r.wf(),
            r.cap_spec() == cap,
            r.live() == Seq::<T>::empty(),
            r.num_blocks() == 0,
            !r.has_mark(),
    {
        Pool2 { data: None, marked: false, cap }
    }

    /// Number of blocks currently allocated: the pool's allocation counter.
    pub fn block_count(&self) -> (r: usize)
        requires
            self.wf(),
        ensures
            r as int == self.num_blocks(),
    {
        match &self.data {
            Some(p) => p.block_count(),
            None => 0,
        }
    }

    /// Push a value into the pool: into the current block if it has room,
    /// else into the next block if a rewind left one allocated, else into a
    /// newly grown block. Never fails, always appends exactly one element,
    /// and allocates a block if and only if the pool has no free committed
    /// slot left.
    pub fn push(&mut self, value: T)
        requires
            old(self).wf(),
        ensures
            final(self).wf(),
            final(self).cap_spec() == old(self).cap_spec(),
            final(self).live() == old(self).live().push(value),
            final(self).num_blocks() == old(self).num_blocks() + (if old(self).live().len() == old(
                self,
            ).committed() {
                1int
            } else {
                0int
            }),
            final(self).has_mark() == old(self).has_mark(),
            old(self).has_mark() ==> final(self).mark_point() == old(self).mark_point(),
    {
        match &mut self.data {
            Some(p) => {
                let ghost p0 = *p;
                p.push(value);
                proof {
                    assert(unwrap_all(p.live()) =~= unwrap_all(p0.live()).push(value));
                    assert forall|j: int|
                        0 <= j < p.live().len() implies (#[trigger] p.live()[j]) is Some by {
                        if j < p0.live().len() {
                            assert(p.live()[j] == p0.live()[j]);
                        }
                    }
                }
            },
            None => {
                proof {
                    assert(0int * (self.cap as int) == 0) by (nonlinear_arith);
                }
                let mut p = SmallObjectPool::new(self.cap);
                let ghost p0 = p;
                p.push(value);
                proof {
                    assert(p0.live().len() == 0 && p0.total_slots() == p0.num_blocks() * (
                    self.cap as int));
                    assert(p0.num_blocks() * (self.cap as int) >= self.cap as int)
                        by (nonlinear_arith)
                        requires
                            p0.num_blocks() == 1,
                    ;
                    assert(unwrap_all(p.live()) =~= unwrap_all(p0.live()).push(value));
                    assert(unwrap_all(p0.live()) =~= Seq::<T>::empty());
                }
                self.data = Some(p);
                proof {
                    assert(self.live() =~= Seq::<T>::empty().push(value));
                }
            },
        }
    }

    /// Save the current position as the mark. On a pool that has never
    /// received a push there is nothing to mark, and none is set.
    pub fn mark(&mut self)
        requires
            old(self).wf(),
        ensures
            final(self).wf(),
            final(self).cap_spec() == old(self).cap_spec(),
            final(self).live() == old(self).live(),
            final(self).num_blocks() == old(self).num_blocks(),
            final(self).has_mark() == (old(self).num_blocks() > 0),
            old(self).num_blocks() > 0 ==> final(self).mark_point() == old(self).live().len(),
    {
        match &mut self.data {
            Some(p) => {
                let ghost p0 = *p;
                proof {
                    p0.lemma_wf_facts();
                }
                p.mark();
                proof {
                    assert(unwrap_all(p.live()) == unwrap_all(p0.live()));
                    assert(unwrap_all(p0.live()).len() == p0.live().len());
                }
                self.marked = true;
            },
            None => {},
        }
    }

    /// Reset to the front and drop the mark: the observable sequence becomes
    /// empty, but no block is freed; the pool keeps its committed storage.
    pub fn rewind_to_front(&mut self)
        requires
            old(self).wf(),
        ensures
            final(self).wf(),
            final(self).cap_spec() == old(self).cap_spec(),
            final(self).live() == Seq::<T>::empty(),
            final(self).num_blocks() == old(self).num_blocks(),
            !final(self).has_mark(),
    {
        match &mut self.data {
            Some(p) => {
                p.rewind();
                proof {
                    assert(unwrap_all(p.live()) =~= Seq::<T>::empty());
                }
            },
            None => {},
        }
        self.marked = false;
    }

    /// Rewind to the mark: exactly the elements committed after the mark are
    /// discarded, and pushes resume from the mark position. With no mark set
    /// this falls back to `rewind_to_front`, by documented policy. No block
    /// is allocated or freed either way.
    pub fn rewind_to_mark(&mut self)
        requires
            old(self).wf(),
        ensures
            final(self).wf(),
            final(self).cap_spec() == old(self).cap_spec(),
            final(self).num_blocks() == old(self).num_blocks(),
            final(self).has_mark() == old(self).has_mark(),
            old(self).has_mark() ==> {
                &&& final(self).live() == old(self).live().take(old(self).mark_point())
                &&& final(self).mark_point() == old(self).mark_point()
            },
            !old(self).has_mark() ==> final(self).live() == Seq::<T>::empty(),
    {
        if self.marked {
            match &mut self.data {
                Some(p) => {
                    let ghost p0 = *p;
                    proof {
                        p0.lemma_mark_in_live();
                    }
                    p.rewind_to_mark();
                    proof {
                        assert forall|j: int|
                            0 <= j < p.live().len() implies (#[trigger] p.live()[j]) is Some by {
                            assert(p.live()[j] == p0.live()[j]);
                        }
                        assert(unwrap_all(p.live()) =~= unwrap_all(p0.live()).take(
                            p0.mark_point(),
                        ));
                    }
                },
                None => {
                    proof {
                        assert(false);
                    }
                },
            }
        } else {
            self.rewind_to_front();
        }
    }

    /// All committed elements in insertion order: chain order, then slot
    /// order within each block.
    pub fn iter(&self) -> (r: Vec<T>)
        requires
            self.wf(),
        ensures
            r@ == self.live(),
    {
        let mut out: Vec<T> = Vec::new();
        match &self.data {
            Some(p) => {
                let raw = p.iter();
                let mut k: usize = 0;
                while k < raw.len()
                    invariant
                        raw@ == p.live(),
                        forall|j: int| 0 <= j < p.live().len() ==> (#[trigger] p.live()[j]) is Some,
                        k <= raw@.len(),
                        out@ == unwrap_all(p.live()).take(k as int),
                    decreases raw@.len() - k,
                {
                    let v = raw[k].unwrap();
                    out.push(v);
                    proof {
                        assert(out@ =~= unwrap_all(p.live()).take(k + 1));
                    }
                    k += 1;
                }
                proof {
                    assert(out@ =~= unwrap_all(p.live()));
                }
            },
            None => {},
        }
        out
    }
}

} // verus!
