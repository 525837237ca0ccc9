//! The bounded hand-off between the synchronous serializer worker and
//! the asynchronous consumer of the response body.
//!
//! The bridge is the only state the two sides share. The producer end
//! offers `try_send`: accepted only while the queue has room and the
//! consumer is still there, so a stalled consumer throttles the worker
//! instead of letting it buffer an unbounded archive. The consumer end
//! offers `pull`: the next chunk in FIFO order, or end-of-stream, or
//! the producer's failure, or "nothing yet". Disconnection travels in
//! both directions: a gone consumer makes every further send fail, and
//! a failed producer is surfaced to the consumer as a terminal error,
//! never as a clean end of stream.
//!
//! The ghost `sent` and `delivered` histories pin the FIFO guarantee:
//! what the consumer has seen is always a prefix of what the producer
//! handed in.

use vstd::prelude::*;

verus! {

/// Outcome of a producer-side push.
#[derive(Clone, Copy, Debug, PartialEq, Eq)]
pub enum SendOutcome {
    /// The chunk was queued.
    Sent,
    /// The queue is at capacity; the worker must wait and retry.
    Full,
    /// The consumer has gone away; the worker must stop.
    Gone,
}

/// Outcome of a consumer-side pull.
pub enum PullOutcome {
    /// The next chunk, in the order the producer sent them.
    Chunk(Vec<u8>),
    /// Nothing available yet; the producer is still running.
    Pending,
    /// The producer finished and everything has been delivered.
    End,
    /// The producer failed; the stream must be aborted, not closed.
    Failed,
}

/// A bounded FIFO queue of byte chunks with failure propagation in
/// both directions.
pub struct Bridge {
    pub queue: Vec<Vec<u8>>,
    pub capacity: usize,
    pub producer_done: bool,
    pub producer_failed: bool,
    pub consumer_gone: bool,
    /// Every chunk the bridge has accepted from the producer.
    pub sent: Ghost<Seq<Seq<u8>>>,
    /// Every chunk the bridge has handed to the consumer.
    pub delivered: Ghost<Seq<Seq<u8>>>,
}

impl Bridge {
    /// The bridge invariant: the queue never exceeds its capacity,
    /// and while the consumer is attached, what was accepted is
    /// exactly what was delivered followed by what is still queued.
    pub open spec fn inv(self) -> bool {
        &&& self.capacity >= 1
        &&& self.queue@.len() <= self.capacity
        &&& !self.consumer_gone ==> self.sent@ == self.delivered@ + self.queue.deep_view()
        &&& self.consumer_gone ==> self.queue@.len() == 0
    }

    /// A fresh bridge of the given capacity.
    pub fn new(capacity: usize) -> (b: Bridge)
        requires
            capacity >= 1,
        ensures
            b.inv(),
            b.capacity == capacity,
            b.queue@.len() == 0,
            !b.producer_done,
            !b.producer_failed,
            !b.consumer_gone,
            b.sent@ == Seq::<Seq<u8>>::empty(),
            b.delivered@ == Seq::<Seq<u8>>::empty(),
    {
        let b = Bridge {
            queue: Vec::new(),
            capacity,
            producer_done: false,
            producer_failed: false,
            consumer_gone: false,
            sent: Ghost(Seq::empty()),
            delivered: Ghost(Seq::empty()),
        };
        assert(b.queue.deep_view() =~= Seq::<Seq<u8>>::empty());
        b
    }

    /// Producer end: offer a chunk.
    ///
    /// Refused with `Gone` the moment the consumer has disconnected,
    /// whatever is queued; refused with `Full` while the queue is at
    /// capacity, so the producer can never run more than `capacity`
    /// chunks ahead of the consumer; otherwise queued in FIFO order.
    pub fn try_send(&mut self, chunk: Vec<u8>) -> (r: SendOutcome)
        requires
            old(self).inv(),
            !old(self).producer_done,
            !old(self).producer_failed,
        ensures
            final(self).inv(),
            final(self).capacity == old(self).capacity,
            final(self).producer_done == old(self).producer_done,
            final(self).producer_failed == old(self).producer_failed,
            final(self).consumer_gone == old(self).consumer_gone,
            final(self).delivered == old(self).delivered,
            old(self).consumer_gone ==> r == SendOutcome::Gone && *final(self) == *old(self),
            !old(self).consumer_gone && old(self).queue@.len() >= old(self).capacity ==> r
                == SendOutcome::Full && *final(self) == *old(self),
            !old(self).consumer_gone && old(self).queue@.len() < old(self).capacity ==> r
                == SendOutcome::Sent && final(self).queue.deep_view() == old(
                self,
            ).queue.deep_view().push(chunk@) && final(self).sent@ == old(self).sent@.push(chunk@),
    {
        if self.consumer_gone {
            SendOutcome::Gone
        } else if self.queue.len() >= self.capacity {
            SendOutcome::Full
        } else {
            let ghost q_old = self.queue.deep_view();
            proof {
                assert(chunk.deep_view() =~= chunk@);
            }
            self.queue.push(chunk);
            proof {
                self.sent@ = self.sent@.push(chunk@);
                assert(self.queue.deep_view() =~= q_old.push(chunk@));
                assert(self.sent@ =~= self.delivered@ + self.queue.deep_view());
            }
            SendOutcome::Sent
        }
    }

    /// Producer end: mark the archive complete. No chunk follows.
    pub fn close(&mut self)
        requires
            old(self).inv(),
            !old(self).producer_done,
            !old(self).producer_failed,
        ensures
            final(self).inv(),
            *final(self) == (Bridge { producer_done: true, ..*old(self) }),
    {
        self.producer_done = true;
    }

    /// Producer end: mark the stream as failed. The consumer must see
    /// a terminal error, not a clean end.
    pub fn fail(&mut self)
        requires
            old(self).inv(),
            !old(self).producer_done,
            !old(self).producer_failed,
        ensures
            final(self).inv(),
            *final(self) == (Bridge { producer_failed: true, ..*old(self) }),
    {
        self.producer_failed = true;
    }

    /// Consumer end: take the next chunk if one is queued; otherwise
    /// observe the producer's failure, its completion, or that the
    /// stream is still pending. Chunks come out exactly in the order
    /// the producer sent them.
    pub fn pull(&mut self) -> (r: PullOutcome)
        requires
            old(self).inv(),
            !old(self).consumer_gone,
        ensures
            final(self).inv(),
            final(self).capacity == old(self).capacity,
            final(self).producer_done == old(self).producer_done,
            final(self).producer_failed == old(self).producer_failed,
            final(self).consumer_gone == old(self).consumer_gone,
            final(self).sent == old(self).sent,
            old(self).queue@.len() > 0 ==> (r matches PullOutcome::Chunk(c) && c@ == old(
                self,
            ).queue.deep_view()[0] && final(self).queue.deep_view() == old(
                self,
            ).queue.deep_view().drop_first() && final(self).delivered@ == old(
                self,
            ).delivered@.push(c@)),
            old(self).queue@.len() == 0 ==> *final(self) == *old(self),
            old(self).queue@.len() == 0 && old(self).producer_failed ==> r
                matches PullOutcome::Failed,
            old(self).queue@.len() == 0 && !old(self).producer_failed && old(self).producer_done
                ==> r matches PullOutcome::End,
            old(self).queue@.len() == 0 && !old(self).producer_failed && !old(self).producer_done
                ==> r matches PullOutcome::Pending,
    {
        if self.queue.len() > 0 {
            let ghost q_old = self.queue.deep_view();
            let c = self.queue.remove(0);
            proof {
                assert(c@ =~= q_old[0]);
                self.delivered@ = self.delivered@.push(c@);
                assert(self.queue.deep_view() =~= q_old.drop_first());
                assert(self.sent@ =~= self.delivered@ + self.queue.deep_view());
            }
            PullOutcome::Chunk(c)
        } else if self.producer_failed {
            PullOutcome::Failed
        } else if self.producer_done {
            PullOutcome::End
        } else {
            PullOutcome::Pending
        }
    }

    /// Consumer end: disconnect. Queued chunks are discarded and every
    /// further send is refused with `Gone`.
    pub fn disconnect(&mut self)
        requires
            old(self).inv(),
        ensures
            final(self).inv(),
            final(self).consumer_gone,
            final(self).queue@.len() == 0,
            final(self).capacity == old(self).capacity,
            final(self).producer_done == old(self).producer_done,
            final(self).producer_failed == old(self).producer_failed,
            final(self).sent == old(self).sent,
            final(self).delivered == old(self).delivered,
    {
        self.consumer_gone = true;
        self.queue = Vec::new();
    }
}

/// FIFO, end to end: while the consumer is attached, the chunks it has
/// received are exactly the first chunks the producer handed in, in
/// the same order.
pub proof fn lemma_fifo(b: Bridge)
    requires
        b.inv(),
        !b.consumer_gone,
    ensures
        b.delivered@.is_prefix_of(b.sent@),
{
    assert(b.sent@.take(b.delivered@.len() as int) =~= b.delivered@);
}

/// Backpressure: while the consumer is attached, the producer can be
/// at most `capacity` accepted chunks ahead of what the consumer has
/// pulled, however long the consumer stops pulling.
pub proof fn lemma_backpressure(b: Bridge)
    requires
        b.inv(),
        !b.consumer_gone,
    ensures
        b.sent@.len() <= b.delivered@.len() + b.capacity,
{
}

} // verus!
