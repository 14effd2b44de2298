//! What the endpoints of one channel share.

use vstd::prelude::*;

use crate::ringbuffer::RingBuffer;
use crate::sequencers::Sequencer;

verus! {

/// The shared part of a channel: the gates that coordinate its endpoints and the slots that
/// hold its items.
pub struct Channel<G, T> {
    pub gates: G,
    pub ring_buffer: RingBuffer<T>,
}

/// What a channel holds.
pub struct ChannelView<G, T> {
    pub gates: G,
    pub slots: Seq<T>,
}

impl<G: View, T> View for Channel<G, T> {
    type V = ChannelView<G::V, T>;

    open spec fn view(&self) -> ChannelView<G::V, T> {
        ChannelView { gates: self.gates@, slots: self.ring_buffer@ }
    }
}

impl<G: View, T> Channel<G, T> {
    /// This endpoint is one of this channel, and the channel is in order.
    pub open spec fn serves<P: Sequencer<Gates = G>>(&self, endpoint: &P) -> bool {
        &&& endpoint.attached(&self.gates)
        &&& self.ring_buffer.wf()
        &&& self.ring_buffer@.len() == P::capacity(self.gates@)
    }

    /// The endpoint and the channel after a claim up to `end` was granted.
    pub open spec fn claimed<P: Sequencer<Gates = G>>(
        endpoint: P::V,
        chan: ChannelView<G::V, T>,
        end: int,
    ) -> (P::V, ChannelView<G::V, T>) {
        let (claimant, gates) = P::granted(endpoint, chan.gates, end);
        (claimant, ChannelView { gates, ..chan })
    }

    /// The endpoint and the channel after `value` was sent as sequence `seq`: the slot is
    /// claimed, written and committed.
    pub open spec fn sent<P: Sequencer<Gates = G>>(
        endpoint: P::V,
        chan: ChannelView<G::V, T>,
        seq: int,
        value: T,
    ) -> (P::V, ChannelView<G::V, T>) {
        let (claimant, gates) = P::granted(endpoint, chan.gates, seq);
        let slots = RingBuffer::with_item(chan.slots, seq, value);
        (claimant, ChannelView { gates: P::committed(claimant, gates, seq, seq), slots })
    }
}

/// The number of sequences to ask for where a caller wants up to `limit`.
pub open spec fn spec_claim_limit(limit: usize) -> int {
    if limit <= i64::MAX {
        limit as int
    } else {
        i64::MAX as int
    }
}

/// The number of sequences to ask for where a caller wants up to `limit`. No ring has more
/// slots than a sequence number can count, so nothing is lost by stopping there.
pub fn claim_limit(limit: usize) -> (n: i64)
    ensures
        n == spec_claim_limit(limit),
        n == limit || n == i64::MAX < limit,
{
    if limit as u128 <= i64::MAX as u128 {
        limit as i64
    } else {
        i64::MAX
    }
}

impl<G, T> ChannelView<G, T> {
    /// The channel after `value` is written for sequence `seq`.
    pub open spec fn written(self, seq: int, value: T) -> Self {
        ChannelView { slots: RingBuffer::with_item(self.slots, seq, value), ..self }
    }

    /// The item for sequence `seq`.
    pub open spec fn item(self, seq: int) -> T {
        RingBuffer::item(self.slots, seq)
    }

    /// The items for the sequences from `first` to `last`.
    pub open spec fn items(self, first: int, last: int) -> Seq<T> {
        RingBuffer::items(self.slots, first, last)
    }
}

} // verus!
