//! The queue contract at the level of sequences.
//!
//! Every engine in this crate abstracts to a `Seq<T>` holding the queued
//! values, oldest first: an insert appends to the back and a removal takes
//! the front. The spec functions here fold whole runs of such operations,
//! and the lemmas state the laws that any engine meeting the per-operation
//! contracts therefore enjoys: first-in first-out order, and conservation
//! of the inserted values as a multiset.

use vstd::prelude::*;
use vstd::seq_lib::lemma_multiset_commutative;

verus! {

/// The queue state after inserting every value of `xs`, in order, into a
/// queue currently holding `q`.
pub open spec fn fill<T>(q: Seq<T>, xs: Seq<T>) -> Seq<T>
    decreases xs.len(),
{
    if xs.len() == 0 {
        q
    } else {
        fill(q.push(xs[0]), xs.drop_first())
    }
}

/// The values a consumer sees, in order, when it removes from a queue
/// holding `q` until the queue reports empty.
pub open spec fn drain<T>(q: Seq<T>) -> Seq<T>
    decreases q.len(),
{
    if q.len() == 0 {
        Seq::empty()
    } else {
        seq![q[0]] + drain(q.drop_first())
    }
}

/// Inserting a run of values appends it, in order, to the queued sequence.
pub proof fn lemma_fill_appends<T>(q: Seq<T>, xs: Seq<T>)
    ensures
        fill(q, xs) == q + xs,
    decreases xs.len(),
{
    if xs.len() == 0 {
        assert(fill(q, xs) =~= q + xs);
    } else {
        lemma_fill_appends(q.push(xs[0]), xs.drop_first());
        assert(q.push(xs[0]) + xs.drop_first() =~= q + xs);
    }
}

/// Draining a queue yields exactly the queued sequence, in order.
pub proof fn lemma_drain_returns_all<T>(q: Seq<T>)
    ensures
        drain(q) == q,
    decreases q.len(),
{
    if q.len() == 0 {
        assert(drain(q) =~= q);
    } else {
        lemma_drain_returns_all(q.drop_first());
        assert(seq![q[0]] + q.drop_first() =~= q);
    }
}

/// First-in first-out: with a single producer and a single consumer, the
/// sequence of values removed from an initially empty queue equals the
/// sequence inserted, in order.
pub proof fn lemma_fifo<T>(xs: Seq<T>)
    ensures
        drain(fill(Seq::empty(), xs)) == xs,
{
    lemma_fill_appends(Seq::empty(), xs);
    assert(Seq::empty() + xs =~= xs);
    lemma_drain_returns_all(xs);
}

/// Conservation: however producers' values ended up ordered in the queue,
/// draining it returns the queue's prior content plus every inserted value,
/// as a multiset: nothing is lost and nothing is duplicated.
pub proof fn lemma_conservation<T>(q: Seq<T>, xs: Seq<T>)
    ensures
        drain(fill(q, xs)).to_multiset() == q.to_multiset().add(xs.to_multiset()),
{
    lemma_fill_appends(q, xs);
    lemma_drain_returns_all(fill(q, xs));
    lemma_multiset_commutative(q, xs);
}

} // verus!
