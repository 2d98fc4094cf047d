//! Concatenation of a sequence of segments, with the algebra the pool views
//! need: a pool's observable element sequence is the concatenation of its
//! blocks' occupied prefixes in chain order.
use vstd::prelude::*;

verus! {

/// All segments joined in order.
pub open spec fn concat_all<A>(segs: Seq<Seq<A>>) -> Seq<A>
    decreases segs.len(),
{
    if segs.len() == 0 {
        Seq::empty()
    } else {
        segs[0] + concat_all(segs.drop_first())
    }
}

/// Concatenation splits at any segment boundary.
pub proof fn lemma_concat_split<A>(segs: Seq<Seq<A>>, k: int)
    requires
        0 <= k <= segs.len(),
    ensures
        concat_all(segs) == concat_all(segs.take(k)) + concat_all(segs.skip(k)),
    decreases k,
{
    if k == 0 {
        assert(segs.take(0) =~= Seq::<Seq<A>>::empty());
        assert(segs.skip(0) =~= segs);
        assert(concat_all(segs.take(0)) + concat_all(segs.skip(0)) =~= concat_all(segs));
    } else {
        let rest = segs.drop_first();
        lemma_concat_split(rest, k - 1);
        assert(rest.take(k - 1) =~= segs.take(k).drop_first());
        assert(rest.skip(k - 1) =~= segs.skip(k));
        assert(segs.take(k)[0] == segs[0]);
        assert(concat_all(segs.take(k)) == segs[0] + concat_all(rest.take(k - 1)));
        assert(concat_all(segs) == segs[0] + (concat_all(rest.take(k - 1)) + concat_all(
            segs.skip(k),
        )));
        assert(segs[0] + (concat_all(rest.take(k - 1)) + concat_all(segs.skip(k))) =~= (segs[0]
            + concat_all(rest.take(k - 1))) + concat_all(segs.skip(k)));
    }
}

/// A single segment concatenates to itself.
pub proof fn lemma_concat_singleton<A>(s: Seq<A>)
    ensures
        concat_all(seq![s]) == s,
{
    assert(seq![s].drop_first() =~= Seq::<Seq<A>>::empty());
    assert(concat_all(seq![s]) == seq![s][0] + concat_all(seq![s].drop_first()));
    assert(seq![s][0] + Seq::<A>::empty() =~= s);
}

/// Appending a segment appends its contents.
pub proof fn lemma_concat_push<A>(segs: Seq<Seq<A>>, s: Seq<A>)
    ensures
        concat_all(segs.push(s)) == concat_all(segs) + s,
{
    let segs1 = segs.push(s);
    lemma_concat_split(segs1, segs.len() as int);
    assert(segs1.take(segs.len() as int) =~= segs);
    assert(segs1.skip(segs.len() as int) =~= seq![s]);
    lemma_concat_singleton(s);
}

/// If every segment is empty, so is the concatenation.
pub proof fn lemma_concat_all_empty<A>(segs: Seq<Seq<A>>)
    requires
        forall|j: int| 0 <= j < segs.len() ==> (#[trigger] segs[j]).len() == 0,
    ensures
        concat_all(segs) == Seq::<A>::empty(),
    decreases segs.len(),
{
    if segs.len() > 0 {
        lemma_concat_all_empty(segs.drop_first());
        assert(segs[0] + Seq::<A>::empty() =~= Seq::<A>::empty());
    }
}

/// Segments after position `k` being empty contribute nothing.
pub proof fn lemma_concat_empty_tail<A>(segs: Seq<Seq<A>>, k: int)
    requires
        0 <= k <= segs.len(),
        forall|j: int| k <= j < segs.len() ==> (#[trigger] segs[j]).len() == 0,
    ensures
        concat_all(segs) == concat_all(segs.take(k)),
{
    lemma_concat_split(segs, k);
    lemma_concat_all_empty(segs.skip(k));
    assert(concat_all(segs.take(k)) + Seq::<A>::empty() =~= concat_all(segs.take(k)));
}

/// Replacing segment `k` splits the concatenation around it.
pub proof fn lemma_concat_update<A>(segs: Seq<Seq<A>>, k: int, s: Seq<A>)
    requires
        0 <= k < segs.len(),
    ensures
        concat_all(segs.update(k, s)) == concat_all(segs.take(k)) + s + concat_all(
            segs.skip(k + 1),
        ),
{
    let segs1 = segs.update(k, s);
    lemma_concat_split(segs1, k);
    assert(segs1.take(k) =~= segs.take(k));
    lemma_concat_split(segs1.skip(k), 1);
    assert(segs1.skip(k).take(1) =~= seq![s]);
    assert(segs1.skip(k).skip(1) =~= segs.skip(k + 1));
    lemma_concat_singleton(s);
    assert(concat_all(segs1) == concat_all(segs.take(k)) + (s + concat_all(segs.skip(k + 1))));
    assert(concat_all(segs.take(k)) + (s + concat_all(segs.skip(k + 1))) =~= concat_all(
        segs.take(k),
    ) + s + concat_all(segs.skip(k + 1)));
}

/// When the first `k` segments all have length `c`, the concatenation of that
/// prefix has length `k * c`.
pub proof fn lemma_concat_uniform_len<A>(segs: Seq<Seq<A>>, k: int, c: int)
    requires
        0 <= k <= segs.len(),
        forall|j: int| 0 <= j < k ==> (#[trigger] segs[j]).len() == c,
    ensures
        concat_all(segs.take(k)).len() == k * c,
    decreases k,
{
    if k == 0 {
        assert(segs.take(0) =~= Seq::<Seq<A>>::empty());
    } else {
        lemma_concat_uniform_len(segs, k - 1, c);
        lemma_concat_split(segs.take(k), k - 1);
        assert(segs.take(k).take(k - 1) =~= segs.take(k - 1));
        assert(segs.take(k).skip(k - 1) =~= seq![segs[k - 1]]);
        lemma_concat_singleton(segs[k - 1]);
        assert((k - 1) * c + c == k * c) by (nonlinear_arith);
    }
}

} // verus!
