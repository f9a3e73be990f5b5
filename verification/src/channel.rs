//! Bounded, ordered hand-off from the ingestion task to the render loop.
//!
//! `FeedChannel` queues validated per-instrument payloads first-in first-out
//! under a fixed bound: a full channel refuses the message (backpressure)
//! instead of growing, and the consumer drains it non-blockingly one message
//! at a time.

use vstd::prelude::*;
use crate::models::TkrResult;

verus! {

/// What a send does to the queued sequence: appended when there is room,
/// refused untouched when the channel is full.
pub open spec fn send_model(q: Seq<TkrResult>, bound: int, msg: TkrResult) -> Seq<TkrResult> {
    if q.len() < bound {
        q.push(msg)
    } else {
        q
    }
}

/// Sending a whole sequence of messages in order, oldest first.
pub open spec fn send_all_model(q: Seq<TkrResult>, bound: int, msgs: Seq<TkrResult>) -> Seq<
    TkrResult,
>
    decreases msgs.len(),
{
    if msgs.len() == 0 {
        q
    } else {
        send_model(send_all_model(q, bound, msgs.drop_last()), bound, msgs.last())
    }
}

/// The ordering law of the channel: messages sent into an empty channel that
/// never exceeds its bound are queued exactly in send order, so draining one
/// at a time yields them in the order they were sent, with no reordering,
/// loss or duplication.
pub proof fn lemma_channel_preserves_order(bound: int, msgs: Seq<TkrResult>)
    requires
        msgs.len() <= bound,
    ensures
        send_all_model(Seq::empty(), bound, msgs) =~= msgs,
    decreases msgs.len(),
{
    if msgs.len() > 0 {
        lemma_channel_preserves_order(bound, msgs.drop_last());
    }
}

/// Bounded FIFO queue of feed payloads; the front is the oldest entry.
pub struct FeedChannel {
    /// Most entries the channel will hold at once.
    pub bound: usize,
    /// Queued payloads, oldest first.
    pub items: Vec<TkrResult>,
}

impl FeedChannel {
    /// The channel never holds more than its bound.
    pub open spec fn wf(&self) -> bool {
        self.items@.len() <= self.bound
    }

    /// An empty channel with the given bound.
    pub fn new(bound: usize) -> (r: Self)
        ensures
            r.wf(),
            r.bound == bound,
            r.items@ == Seq::<TkrResult>::empty(),
    {
        FeedChannel { bound, items: Vec::new() }
    }

    /// Queues `msg` at the back when there is room; a full channel returns
    /// the message back to the producer unchanged, so nothing is ever lost
    /// or reordered.
    pub fn send(&mut self, msg: TkrResult) -> (r: Result<(), TkrResult>)
        requires
            old(self).wf(),
        ensures
            final(self).wf(),
            final(self).bound == old(self).bound,
            final(self).items@ == send_model(old(self).items@, old(self).bound as int, msg),
            r is Ok <==> old(self).items@.len() < old(self).bound,
            r is Err ==> r->Err_0 == msg && final(self).items@ == old(self).items@,
    {
        if self.items.len() < self.bound {
            self.items.push(msg);
            Ok(())
        } else {
            Err(msg)
        }
    }

    /// Removes and returns the oldest queued payload; `None` on an empty
    /// channel. This is the consumer's non-blocking drain step.
    pub fn try_recv(&mut self) -> (r: Option<TkrResult>)
        requires
            old(self).wf(),
        ensures
            final(self).wf(),
            final(self).bound == old(self).bound,
            old(self).items@.len() == 0 ==> r is None && final(self).items@ == old(self).items@,
            old(self).items@.len() > 0 ==> r == Some(old(self).items@[0]) && final(self).items@
                == old(self).items@.drop_first(),
    {
        if self.items.len() > 0 {
            Some(self.items.remove(0))
        } else {
            None
        }
    }

    /// How many payloads are queued.
    pub fn len(&self) -> (n: usize)
        ensures
            n == self.items@.len(),
    {
        self.items.len()
    }
}

} // verus!
