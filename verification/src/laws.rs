//! General laws of the pool family, stated over the observable model.
//!
//! Each pool's methods pin their effect on the observable element sequence
//! (`live()`) and on the block count exactly; these lemmas compose those
//! per-call contracts into the properties that hold across whole call
//! sequences: order preservation, mark/rewind idempotence, rewinds discarding
//! exactly the tail, and the growth discipline (a block is allocated if and
//! only if every committed slot is in use).
use vstd::prelude::*;

verus! {

/// The observable sequence after pushing each of `vs` in order, starting
/// from `l`: each push contributes `live' == live.push(v)`, exactly the
/// pools' push contract.
pub open spec fn pushed_all<T>(l: Seq<T>, vs: Seq<T>) -> Seq<T>
    decreases vs.len(),
{
    if vs.len() == 0 {
        l
    } else {
        pushed_all(l.push(vs[0]), vs.drop_first())
    }
}

/// Order preservation: pushing `v1..vn` with no intervening rewind extends
/// the observable sequence by exactly `v1..vn`, in that order. In particular,
/// on a fresh pool `iter()` yields precisely the pushed values.
pub proof fn lemma_order_preservation<T>(l: Seq<T>, vs: Seq<T>)
    ensures
        pushed_all(l, vs) == l + vs,
    decreases vs.len(),
{
    if vs.len() == 0 {
        assert(l + vs =~= l);
    } else {
        lemma_order_preservation(l.push(vs[0]), vs.drop_first());
        assert(l.push(vs[0]) + vs.drop_first() =~= l + vs);
    }
}

/// Mark/rewind idempotence: `mark()` records the current length of the
/// observable sequence as the mark point, and `rewind_to_mark()` truncates
/// to the mark point; with no pushes in between, the observable state is
/// unchanged.
pub proof fn lemma_mark_rewind_noop<T>(live0: Seq<T>, mp: int, live1: Seq<T>)
    requires
        mp == live0.len(),
        live1 == live0.take(mp),
    ensures
        live1 == live0,
{
    assert(live0.take(live0.len() as int) =~= live0);
}

/// Rewind discards exactly the tail: after pushes `base`, a mark, pushes
/// `tail`, a rewind to the mark, and pushes `ws`, the observable sequence is
/// `base + ws` — the marked prefix survives, everything after the mark is
/// gone, and the new pushes follow it.
pub proof fn lemma_rewind_discards_tail<T>(base: Seq<T>, tail: Seq<T>, ws: Seq<T>)
    ensures
        pushed_all((base + tail).take(base.len() as int), ws) == base + ws,
{
    assert((base + tail).take(base.len() as int) =~= base);
    lemma_order_preservation(base, ws);
}

/// The block count after `n` pushes onto a pool holding `len` elements in
/// `nb` blocks of capacity `cap`: each push allocates a block exactly when
/// every committed slot is in use — the pools' growth contract.
pub open spec fn blocks_after_pushes(len: int, nb: int, cap: int, n: nat) -> int
    decreases n,
{
    if n == 0 {
        nb
    } else {
        let nb1: int = if len == nb * cap {
            nb + 1
        } else {
            nb
        };
        blocks_after_pushes(len + 1, nb1, cap, (n - 1) as nat)
    }
}

/// No allocation on reuse: after a rewind, pushing no more values than fit
/// in the storage the pool has already committed allocates no block.
pub proof fn lemma_no_allocation_on_reuse(len: int, nb: int, cap: int, n: nat)
    requires
        0 <= len,
        cap >= 1,
        len + n <= nb * cap,
    ensures
        blocks_after_pushes(len, nb, cap, n) == nb,
    decreases n,
{
    if n > 0 {
        assert(len < nb * cap);
        lemma_no_allocation_on_reuse(len + 1, nb, cap, (n - 1) as nat);
    }
}

/// Capacity boundary, first half: on a fresh pool with block capacity `cap`,
/// pushing between 1 and `cap` elements keeps them in a single block.
pub proof fn lemma_capacity_boundary(cap: int, n: nat)
    requires
        cap >= 1,
        1 <= n <= cap,
    ensures
        blocks_after_pushes(0, 0, cap, n) == 1,
{
    assert(0int * cap == 0) by (nonlinear_arith);
    assert(1int * cap == cap) by (nonlinear_arith);
    assert(blocks_after_pushes(0, 0, cap, n) == blocks_after_pushes(1, 1, cap, (n - 1) as nat));
    lemma_no_allocation_on_reuse(1, 1, cap, (n - 1) as nat);
}

/// Pushes that exactly exhaust the committed storage, plus one more,
/// allocate exactly one block.
proof fn lemma_fill_then_one(len: int, nb: int, cap: int, n: nat)
    requires
        0 <= len,
        cap >= 1,
        len <= nb * cap,
        len + n == nb * cap + 1,
    ensures
        blocks_after_pushes(len, nb, cap, n) == nb + 1,
    decreases n,
{
    if len == nb * cap {
        assert(n == 1);
        assert(len + 1 <= (nb + 1) * cap) by (nonlinear_arith)
            requires
                len == nb * cap,
                cap >= 1,
        ;
        lemma_no_allocation_on_reuse(len + 1, nb + 1, cap, (n - 1) as nat);
    } else {
        lemma_fill_then_one(len + 1, nb, cap, (n - 1) as nat);
    }
}

/// Capacity boundary, second half: on a fresh pool with block capacity
/// `cap`, the push of element `cap + 1` allocates a second block.
pub proof fn lemma_capacity_boundary_overflow(cap: int)
    requires
        cap >= 1,
    ensures
        blocks_after_pushes(0, 0, cap, (cap + 1) as nat) == 2,
{
    assert(0int * cap == 0) by (nonlinear_arith);
    assert(1int * cap == cap) by (nonlinear_arith);
    assert(blocks_after_pushes(0, 0, cap, (cap + 1) as nat) == blocks_after_pushes(
        1,
        1,
        cap,
        cap as nat,
    ));
    lemma_fill_then_one(1, 1, cap, cap as nat);
}

} // verus!
