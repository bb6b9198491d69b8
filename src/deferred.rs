//! The bounded queue of deferred forest mutations.

use vstd::prelude::*;
use crossbeam::queue::ArrayQueue;
use crate::agent::DeferredOp;

verus! {

#[verifier::external_type_specification]
#[verifier::external_body]
#[verifier::reject_recursive_types(T)]
pub struct ExArrayQueue<T>(ArrayQueue<T>);

/// The operations waiting in a queue, oldest first.
pub uninterp spec fn queued_ops(q: ArrayQueue<DeferredOp>) -> Seq<DeferredOp>;

/// The number of operations a queue can hold.
pub uninterp spec fn queue_capacity(q: ArrayQueue<DeferredOp>) -> nat;

/// `q` after pushing `reqs` in order into a queue of capacity `cap`: those
/// that fit are appended, the rest are dropped.
pub open spec fn push_bounded(q: Seq<DeferredOp>, cap: nat, reqs: Seq<DeferredOp>) -> Seq<DeferredOp> {
    if q.len() >= cap {
        q
    } else if reqs.len() <= cap - q.len() {
        q + reqs
    } else {
        q + reqs.take(cap - q.len())
    }
}

/// Pushing two batches one after the other is pushing them together.
pub proof fn lemma_push_bounded_concat(q: Seq<DeferredOp>, cap: nat, a: Seq<DeferredOp>, b: Seq<DeferredOp>)
    ensures
        push_bounded(push_bounded(q, cap, a), cap, b) == push_bounded(q, cap, a + b),
{
    let q1 = push_bounded(q, cap, a);
    if q.len() >= cap {
    } else if a.len() <= cap - q.len() {
        if b.len() <= cap - q1.len() {
            assert(q1 + b =~= q + (a + b));
        } else {
            assert(q1 + b.take(cap - q1.len()) =~= q + (a + b).take(cap - q.len()));
        }
    } else {
        assert(q1.len() == cap);
        assert(q1 =~= q + (a + b).take(cap - q.len()));
    }
}

/// Pushing one operation: appended when there is room, dropped otherwise.
pub proof fn lemma_push_bounded_one(q: Seq<DeferredOp>, cap: nat, op: DeferredOp)
    ensures
        push_bounded(q, cap, seq![op]) == if q.len() < cap {
            q.push(op)
        } else {
            q
        },
{
    if q.len() < cap {
        assert(q + seq![op] =~= q.push(op));
    }
}

/// Relies on ArrayQueue::new: an empty queue of capacity `cap`. It panics on
/// a zero capacity, and on one too large to round up to a power of two.
#[verifier::external_body]
pub(crate) fn queue_new(cap: usize) -> (r: ArrayQueue<DeferredOp>)
    requires
        0 < cap <= 0x1000_0000,
    ensures
        queued_ops(r) == Seq::<DeferredOp>::empty(),
        queue_capacity(r) == cap,
{
    ArrayQueue::new(cap)
}

/// Relies on ArrayQueue::push_mut: appends `op` unless the queue is full, in
/// which case nothing changes and `false` comes back.
#[verifier::external_body]
pub(crate) fn queue_push(q: &mut ArrayQueue<DeferredOp>, op: DeferredOp) -> (r: bool)
    ensures
        queue_capacity(*final(q)) == queue_capacity(*old(q)),
        r == (queued_ops(*old(q)).len() < queue_capacity(*old(q))),
        r ==> queued_ops(*final(q)) == queued_ops(*old(q)).push(op),
        !r ==> queued_ops(*final(q)) == queued_ops(*old(q)),
{
    q.push_mut(op).is_ok()
}

/// Relies on ArrayQueue::pop_mut: removes and returns the oldest operation,
/// or `None` when the queue is empty.
#[verifier::external_body]
pub(crate) fn queue_pop(q: &mut ArrayQueue<DeferredOp>) -> (r: Option<DeferredOp>)
    ensures
        queue_capacity(*final(q)) == queue_capacity(*old(q)),
        queued_ops(*old(q)).len() == 0 ==> r.is_none() && queued_ops(*final(q)) == queued_ops(
            *old(q),
        ),
        queued_ops(*old(q)).len() > 0 ==> r == Some(queued_ops(*old(q))[0]) && queued_ops(
            *final(q),
        ) == queued_ops(*old(q)).drop_first(),
{
    q.pop_mut()
}

} // verus!
