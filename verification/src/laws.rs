//! Laws of the buffer's sequential model.
//!
//! An append makes the buffer's view `v.push(x)` and a drain takes the
//! view's first element (see the contracts in `raw`), so the whole
//! history of a buffer is captured by folding appends over a sequence.
//! The lemmas here state what that fold guarantees: first-in-first-out
//! order, exact empty signaling, no loss and no duplication, and what a
//! partial drain leaves behind.

use vstd::prelude::*;

verus! {

/// The view of a buffer after appending the values of `vs`, in order,
/// to a buffer whose view was `s`.
pub open spec fn enqueue_all<T>(s: Seq<T>, vs: Seq<T>) -> Seq<T>
    decreases vs.len(),
{
    if vs.len() == 0 {
        s
    } else {
        enqueue_all(s.push(vs[0]), vs.drop_first())
    }
}

/// Appending a whole sequence of values puts them, in order, after
/// whatever the buffer already held.
pub proof fn lemma_enqueue_all<T>(s: Seq<T>, vs: Seq<T>)
    ensures
        enqueue_all(s, vs) == s + vs,
    decreases vs.len(),
{
    if vs.len() == 0 {
        assert(enqueue_all(s, vs) =~= s + vs);
    } else {
        lemma_enqueue_all(s.push(vs[0]), vs.drop_first());
        assert(s.push(vs[0]) + vs.drop_first() =~= s + vs);
    }
}

/// First-in-first-out order for a single producer: after enqueueing
/// `vs` into an empty buffer, the buffer holds exactly `vs`, so `n`
/// drains return `vs[0], vs[1], ...` in that order (each drain returns
/// the view's first element and drops it).
pub proof fn lemma_fifo_order<T>(vs: Seq<T>)
    ensures
        enqueue_all(Seq::<T>::empty(), vs) == vs,
{
    lemma_enqueue_all(Seq::<T>::empty(), vs);
    assert(Seq::<T>::empty() + vs =~= vs);
}

/// The `k`-th drain from a buffer that was filled with `vs` returns
/// `vs[k]`: after `k` drains the view is `vs.skip(k)`, whose first
/// element is `vs[k]` and whose remainder is `vs.skip(k + 1)`.
pub proof fn lemma_drain_order<T>(vs: Seq<T>, k: int)
    requires
        0 <= k < vs.len(),
    ensures
        vs.skip(k).len() > 0,
        vs.skip(k).first() == vs[k],
        vs.skip(k).drop_first() == vs.skip(k + 1),
{
    assert(vs.skip(k).drop_first() =~= vs.skip(k + 1));
}

/// Empty signaling: a drain signals empty exactly when the view is
/// empty, and after enqueueing `k` values into an empty buffer and
/// draining all `k`, the view is empty again.
pub proof fn lemma_empty_after_full_drain<T>(vs: Seq<T>)
    ensures
        enqueue_all(Seq::<T>::empty(), vs).skip(vs.len() as int) == Seq::<T>::empty(),
{
    lemma_fifo_order(vs);
    assert(vs.skip(vs.len() as int) =~= Seq::<T>::empty());
}

/// No loss, no duplication: the values a full drain returns are, as a
/// multiset, exactly the values that were enqueued, whatever order the
/// appends of several producers interleaved in.
pub proof fn lemma_no_loss<T>(s: Seq<T>, vs: Seq<T>)
    ensures
        enqueue_all(s, vs).to_multiset() == s.to_multiset().add(vs.to_multiset()),
{
    lemma_enqueue_all(s, vs);
    s.to_multiset_ensures();
    vs.to_multiset_ensures();
    vstd::seq_lib::lemma_multiset_commutative(s, vs);
}

/// Partial drain: enqueueing `vs` and draining `k <= vs.len()` values
/// leaves exactly the last `vs.len() - k` values, in order. These are
/// the values a teardown of the buffer still has to destruct.
pub proof fn lemma_partial_drain<T>(vs: Seq<T>, k: int)
    requires
        0 <= k <= vs.len(),
    ensures
        enqueue_all(Seq::<T>::empty(), vs).skip(k) == vs.skip(k),
        vs.skip(k).len() == vs.len() - k,
        forall|i: int| 0 <= i < vs.len() - k ==> vs.skip(k)[i] == vs[k + i],
{
    lemma_fifo_order(vs);
}

} // verus!
