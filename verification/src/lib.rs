//! Lock-free-style queue family and a stream channel protocol, verified.
//!
//! The crate models a family of single-producer/single-consumer queues built
//! over a chain of linked nodes with a node-reuse cache (`spsc`, `spsc2`), a
//! multi-producer baseline queue (`mpmc`), and a channel protocol (`stream2`)
//! that layers send/receive/upgrade/disconnect semantics over any of the
//! queues. Nodes live in an arena and are linked by index; every operation is
//! specified against a sequence view of the queued values.

use vstd::prelude::*;

pub mod mpmc;
pub mod spsc;
pub mod spsc2;
pub mod stream2;

verus! {

/// One step of queue activity under the single-producer/single-consumer
/// contract: the producer pushes a value, or the consumer attempts one pop.
pub enum QueueOp<T> {
    /// The producer pushes this value.
    Push(T),
    /// The consumer attempts one pop; on an empty queue it returns nothing.
    Pop,
}

/// The values a trace of operations pushes, in order.
pub open spec fn pushed_values<T>(ops: Seq<QueueOp<T>>) -> Seq<T>
    decreases ops.len(),
{
    if ops.len() == 0 {
        Seq::empty()
    } else {
        match ops[0] {
            QueueOp::Push(t) => seq![t] + pushed_values(ops.drop_first()),
            QueueOp::Pop => pushed_values(ops.drop_first()),
        }
    }
}

/// Runs a trace against a queue whose view is `q`, exactly as the queues'
/// `push` and `pop` contracts prescribe: a push appends at the back, a pop
/// takes the front or returns nothing when empty. Yields the remaining view
/// and the popped values, in pop order.
pub open spec fn run_trace<T>(q: Seq<T>, ops: Seq<QueueOp<T>>) -> (Seq<T>, Seq<T>)
    decreases ops.len(),
{
    if ops.len() == 0 {
        (q, Seq::empty())
    } else {
        match ops[0] {
            QueueOp::Push(t) => run_trace(q.push(t), ops.drop_first()),
            QueueOp::Pop => {
                if q.len() == 0 {
                    run_trace(q, ops.drop_first())
                } else {
                    let r = run_trace(q.drop_first(), ops.drop_first());
                    (r.0, seq![q[0]] + r.1)
                }
            },
        }
    }
}

/// FIFO order, one for one: over any interleaving of pushes and pops that
/// honors the single-producer/single-consumer contract, the values popped,
/// followed by the values still queued, are exactly the initial contents
/// followed by the pushed values, in order. Pops return pushed values in
/// push order, without loss, duplication, or reordering.
pub proof fn lemma_fifo_order<T>(q: Seq<T>, ops: Seq<QueueOp<T>>)
    ensures
        run_trace(q, ops).1 + run_trace(q, ops).0 == q + pushed_values(ops),
    decreases ops.len(),
{
    if ops.len() == 0 {
        assert(run_trace(q, ops).1 + run_trace(q, ops).0 =~= q + pushed_values(ops));
    } else {
        match ops[0] {
            QueueOp::Push(t) => {
                lemma_fifo_order(q.push(t), ops.drop_first());
                assert(run_trace(q, ops).1 + run_trace(q, ops).0 =~= q + pushed_values(ops));
            },
            QueueOp::Pop => {
                if q.len() == 0 {
                    lemma_fifo_order(q, ops.drop_first());
                } else {
                    let r = run_trace(q.drop_first(), ops.drop_first());
                    lemma_fifo_order(q.drop_first(), ops.drop_first());
                    assert(run_trace(q, ops).0 == r.0);
                    assert(run_trace(q, ops).1 == seq![q[0]] + r.1);
                    assert((seq![q[0]] + r.1) + r.0 =~= seq![q[0]] + (r.1 + r.0));
                    assert(seq![q[0]] + (r.1 + r.0) =~= q + pushed_values(ops));
                }
            },
        }
    }
}

/// No loss, no duplication: once a trace has drained the queue, the multiset
/// of values popped equals the multiset of the initial contents and every
/// value pushed.
pub proof fn lemma_no_loss_no_duplication<T>(q: Seq<T>, ops: Seq<QueueOp<T>>)
    requires
        run_trace(q, ops).0.len() == 0,
    ensures
        run_trace(q, ops).1.to_multiset() == (q + pushed_values(ops)).to_multiset(),
{
    lemma_fifo_order(q, ops);
    assert(run_trace(q, ops).1 =~= run_trace(q, ops).1 + run_trace(q, ops).0);
}

} // verus!
