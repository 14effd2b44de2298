//! Delivery over the channel with a single sender and a single receiver.

use vstd::prelude::*;

use crate::channel::{Channel, ChannelView};
use crate::errors::TryClaimError;
use crate::ringbuffer::{RingBuffer, RingBufferMeta};
use crate::sequencers::consumer::DefaultConsumerSequencer;
use crate::sequencers::pub_ex::{ExclusivePubSeqGate, ExclusivePubView, ExclusivePublisherSequencer};
use crate::sequencers::{ConsumerCursors, CursorsView, Gates, GatesView, Sequencer};

verus! {

impl<T> ChannelView<GatesView<ExclusivePubView, CursorsView>, T> {
    /// The producer's record is sound, the receivers are in step with it, and there are as
    /// many slots as it reckons with.
    pub open spec fn valid(self) -> bool {
        &&& self.gates.producer.progress().wf()
        &&& self.gates.consumer.in_step(self.gates.producer.progress())
        &&& self.slots.len() == self.gates.producer.capacity
    }

    /// Receiver `index` is connected.
    pub open spec fn follows(self, index: int) -> bool {
        &&& 0 <= index < self.gates.consumer.consumed.len()
        &&& self.gates.consumer.connected(index)
    }

    /// The items that receiver `index` can read, oldest first.
    pub open spec fn unread(self, index: int) -> Seq<T> {
        self.items(self.gates.consumer.consumed[index] + 1, self.gates.producer.published)
    }

    /// The channel after `values` were sent one after the other.
    pub open spec fn after_sends<C: ConsumerCursors>(self, values: Seq<T>) -> Self
        decreases values.len(),
    {
        if values.len() == 0 {
            self
        } else {
            let before = self.after_sends::<C>(values.drop_last());
            Channel::sent::<ExclusivePublisherSequencer<C>>(
                before.gates.producer.published,
                before,
                before.gates.producer.published + 1,
                values.last(),
            ).1
        }
    }
}

/// A receive of up to `limit` items is granted the oldest unread ones, as many as there are up
/// to the limit. It is refused if and only if there are none: as disconnected where the sender
/// has left, as empty where it has not.
pub proof fn law_receive_takes_the_oldest<C: ConsumerCursors, T>(
    chan: ChannelView<GatesView<ExclusivePubView, CursorsView>, T>,
    index: int,
    limit: int,
)
    requires
        chan.valid(),
        chan.follows(index),
        limit >= 1,
    ensures
        match DefaultConsumerSequencer::<ExclusivePubSeqGate, C>::grant(index, chan.gates, limit) {
            Ok((start, end)) => {
                let n = if limit < chan.unread(index).len() {
                    limit
                } else {
                    chan.unread(index).len() as int
                };
                &&& n >= 1
                &&& start == chan.gates.consumer.consumed[index] + 1
                &&& end == start + n - 1
                &&& chan.items(start, end) == chan.unread(index).take(n)
            },
            Err(error) => {
                &&& chan.unread(index).len() == 0
                &&& error == (if chan.gates.producer.shutdown != i64::MIN {
                    TryClaimError::Shutdown
                } else {
                    TryClaimError::Empty
                })
            },
        },
        chan.unread(index).len() > 0 ==> DefaultConsumerSequencer::<ExclusivePubSeqGate, C>::grant(
            index,
            chan.gates,
            limit,
        ) is Ok,
{
    assert(chan.gates.producer.progress().reachable(chan.gates.consumer.consumed[index]));
    RingBufferMeta::lemma_exponent(chan.gates.producer.capacity);
    if let Ok((start, end)) = DefaultConsumerSequencer::<ExclusivePubSeqGate, C>::grant(
        index,
        chan.gates,
        limit,
    ) {
        assert(chan.items(start, end) =~= chan.unread(index).take(end - start + 1));
    }
}

/// Once a receiver has finished what it was granted, exactly those items are no longer unread.
pub proof fn law_finished_items_are_gone<C: ConsumerCursors, T>(
    chan: ChannelView<GatesView<ExclusivePubView, CursorsView>, T>,
    index: int,
    limit: int,
    start: int,
    end: int,
)
    requires
        chan.valid(),
        chan.follows(index),
        limit >= 1,
        DefaultConsumerSequencer::<ExclusivePubSeqGate, C>::grant(index, chan.gates, limit)
            == Ok::<(int, int), TryClaimError>((start, end)),
    ensures
        ({
            let after = ChannelView {
                gates: DefaultConsumerSequencer::<ExclusivePubSeqGate, C>::committed(
                    index,
                    chan.gates,
                    start,
                    end,
                ),
                ..chan
            };
            &&& after.valid()
            &&& after.follows(index)
            &&& after.unread(index) == chan.unread(index).skip(end - start + 1)
        }),
{
    law_receive_takes_the_oldest::<C, T>(chan, index, limit);
    let progress = chan.gates.producer.progress();
    let after = ChannelView {
        gates: DefaultConsumerSequencer::<ExclusivePubSeqGate, C>::committed(
            index,
            chan.gates,
            start,
            end,
        ),
        ..chan
    };
    assert(progress.reachable(chan.gates.consumer.consumed[index]));
    assert forall|other: int|
        0 <= other < after.gates.consumer.consumed.len() && #[trigger] after.gates.consumer.connected(
            other,
        ) implies progress.reachable(after.gates.consumer.consumed[other]) by {
        if other != index {
            assert(chan.gates.consumer.connected(other));
        }
    }
    assert(after.unread(index) =~= chan.unread(index).skip(end - start + 1));
}

/// A value that is sent is the newest unread item of every connected receiver.
pub proof fn law_send_appends<C: ConsumerCursors, T>(
    chan: ChannelView<GatesView<ExclusivePubView, CursorsView>, T>,
    claimed: int,
    seq: int,
    value: T,
)
    requires
        chan.valid(),
        claimed == chan.gates.producer.published,
        ExclusivePublisherSequencer::<C>::may_claim(claimed, chan.gates),
        ExclusivePublisherSequencer::<C>::grant(claimed, chan.gates, 1) == Ok::<
            (int, int),
            TryClaimError,
        >((seq, seq)),
    ensures
        ({
            let (endpoint, after) = Channel::sent::<ExclusivePublisherSequencer<C>>(
                claimed,
                chan,
                seq,
                value,
            );
            &&& after.valid()
            &&& endpoint == after.gates.producer.published == chan.gates.producer.published + 1
            &&& forall|index: int|
                #![trigger after.unread(index)]
                chan.follows(index) ==> after.follows(index) && after.unread(index)
                    == chan.unread(index).push(value)
        }),
{
    let progress = chan.gates.producer.progress();
    let after = Channel::sent::<ExclusivePublisherSequencer<C>>(claimed, chan, seq, value).1;
    let later = after.gates.producer.progress();
    RingBufferMeta::lemma_exponent(progress.capacity);
    RingBufferMeta::lemma_slot_bounds(seq, chan.slots.len() as int);
    CursorsView::lemma_slowest(chan.gates.consumer.consumed);
    assert forall|index: int|
        0 <= index < after.gates.consumer.consumed.len() && #[trigger] after.gates.consumer.connected(
            index,
        ) implies later.reachable(after.gates.consumer.consumed[index]) by {
        assert(chan.gates.consumer.connected(index));
        assert(progress.reachable(chan.gates.consumer.consumed[index]));
        assert(chan.gates.consumer.consumed[index] != i64::MIN);
    }
    assert forall|index: int|
        #![trigger after.unread(index)]
        chan.follows(index) implies after.follows(index) && after.unread(index) == chan.unread(
        index,
    ).push(value) by {
        let position = chan.gates.consumer.consumed[index];
        assert(progress.reachable(position));
        assert(after.gates.consumer.connected(index));
        assert(chan.gates.consumer.consumed[index] != i64::MIN);
        assert forall|i: int| 0 <= i < after.unread(index).len() implies #[trigger] after.unread(
            index,
        )[i] == chan.unread(index).push(value)[i] by {
            RingBuffer::lemma_with_item(chan.slots, seq, value, position + 1 + i);
        }
        assert(after.unread(index) =~= chan.unread(index).push(value));
    }
}

/// A batch that is claimed, filled and committed is received by every connected receiver after
/// what it had not read yet, complete and in order.
pub proof fn law_batch_appends<C: ConsumerCursors, T>(
    chan: ChannelView<GatesView<ExclusivePubView, CursorsView>, T>,
    claimed: int,
    limit: int,
    start: int,
    end: int,
    values: Seq<T>,
)
    requires
        chan.valid(),
        claimed == chan.gates.producer.published,
        limit >= 1,
        ExclusivePublisherSequencer::<C>::may_claim(claimed, chan.gates),
        ExclusivePublisherSequencer::<C>::grant(claimed, chan.gates, limit) == Ok::<
            (int, int),
            TryClaimError,
        >((start, end)),
        values.len() == end - start + 1,
    ensures
        ({
            let (endpoint, held) = Channel::claimed::<ExclusivePublisherSequencer<C>>(
                claimed,
                chan,
                end,
            );
            let after = ChannelView {
                gates: ExclusivePublisherSequencer::<C>::committed(
                    endpoint,
                    held.gates,
                    start,
                    end,
                ),
                slots: RingBuffer::with_items(held.slots, start, values),
            };
            &&& after.valid()
            &&& endpoint == after.gates.producer.published == end
            &&& forall|index: int|
                #![trigger after.unread(index)]
                chan.follows(index) ==> after.follows(index) && after.unread(index)
                    == chan.unread(index) + values
        }),
{
    let progress = chan.gates.producer.progress();
    let after = ChannelView {
        gates: ExclusivePublisherSequencer::<C>::committed(end, chan.gates, start, end),
        slots: RingBuffer::with_items(chan.slots, start, values),
    };
    let later = after.gates.producer.progress();
    RingBufferMeta::lemma_exponent(progress.capacity);
    CursorsView::lemma_slowest(chan.gates.consumer.consumed);
    assert(CursorsView::slowest(chan.gates.consumer.consumed) != i64::MIN);
    chan.gates.consumer.lemma_consumed_until(progress);
    RingBuffer::lemma_with_items(chan.slots, start, values);
    assert forall|index: int|
        0 <= index < after.gates.consumer.consumed.len() && #[trigger] after.gates.consumer.connected(
            index,
        ) implies later.reachable(after.gates.consumer.consumed[index]) by {
        assert(chan.gates.consumer.connected(index));
        assert(progress.reachable(chan.gates.consumer.consumed[index]));
        assert(chan.gates.consumer.consumed[index] != i64::MIN);
    }
    assert forall|index: int|
        #![trigger after.unread(index)]
        chan.follows(index) implies after.follows(index) && after.unread(index) == chan.unread(
        index,
    ) + values by {
        let position = chan.gates.consumer.consumed[index];
        assert(progress.reachable(position));
        assert(after.gates.consumer.connected(index));
        assert(chan.gates.consumer.consumed[index] != i64::MIN);
        assert forall|i: int| 0 <= i < after.unread(index).len() implies #[trigger] after.unread(
            index,
        )[i] == (chan.unread(index) + values)[i] by {
            let seq = position + 1 + i;
            assert(after.unread(index)[i] == RingBuffer::item(after.slots, seq));
        }
        assert(after.unread(index) =~= chan.unread(index) + values);
    }
}

/// A batch that is claimed, filled in whatever way and committed is received by every connected
/// receiver after what it had not read yet: what its slots hold, complete and in order.
pub proof fn law_filled_batch_appends<C: ConsumerCursors, T>(
    chan: ChannelView<GatesView<ExclusivePubView, CursorsView>, T>,
    claimed: int,
    limit: int,
    start: int,
    end: int,
    slots: Seq<T>,
)
    requires
        chan.valid(),
        claimed == chan.gates.producer.published,
        limit >= 1,
        ExclusivePublisherSequencer::<C>::may_claim(claimed, chan.gates),
        ExclusivePublisherSequencer::<C>::grant(claimed, chan.gates, limit) == Ok::<
            (int, int),
            TryClaimError,
        >((start, end)),
        slots.len() == chan.slots.len(),
        forall|seq: int|
            end - slots.len() < seq < start ==> #[trigger] RingBuffer::item(slots, seq)
                == RingBuffer::item(chan.slots, seq),
    ensures
        ({
            let (endpoint, held) = Channel::claimed::<ExclusivePublisherSequencer<C>>(
                claimed,
                chan,
                end,
            );
            let after = ChannelView {
                gates: ExclusivePublisherSequencer::<C>::committed(
                    endpoint,
                    held.gates,
                    start,
                    end,
                ),
                slots,
            };
            &&& after.valid()
            &&& endpoint == after.gates.producer.published == end
            &&& forall|index: int|
                #![trigger after.unread(index)]
                chan.follows(index) ==> after.follows(index) && after.unread(index)
                    == chan.unread(index) + RingBuffer::items(slots, start, end)
        }),
{
    let values = RingBuffer::items(chan.slots, start, end);
    let same = ChannelView {
        gates: ExclusivePublisherSequencer::<C>::committed(end, chan.gates, start, end),
        slots: RingBuffer::with_items(chan.slots, start, values),
    };
    let after = ChannelView { gates: same.gates, slots };
    RingBufferMeta::lemma_exponent(chan.gates.producer.capacity);
    CursorsView::lemma_slowest(chan.gates.consumer.consumed);
    chan.gates.consumer.lemma_consumed_until(chan.gates.producer.progress());
    law_batch_appends::<C, T>(chan, claimed, limit, start, end, values);
    assert forall|index: int|
        #![trigger after.unread(index)]
        chan.follows(index) implies after.follows(index) && after.unread(index) == chan.unread(
        index,
    ) + RingBuffer::items(slots, start, end) by {
        assert(same.follows(index) && same.unread(index) == chan.unread(index) + values);
        let position = chan.gates.consumer.consumed[index];
        assert(chan.gates.producer.progress().reachable(position));
        assert(position != i64::MIN);
        assert forall|i: int| 0 <= i < after.unread(index).len() implies #[trigger] after.unread(
            index,
        )[i] == (chan.unread(index) + RingBuffer::items(slots, start, end))[i] by {
            let seq = position + 1 + i;
            assert(after.unread(index)[i] == RingBuffer::item(slots, seq));
            if seq < start {
                assert(RingBuffer::item(slots, seq) == RingBuffer::item(chan.slots, seq));
            }
        }
        assert(after.unread(index) =~= chan.unread(index) + RingBuffer::items(slots, start, end));
    }
}

/// The sender holds no slot that a receiver is reading: the slots of an open claim and those of
/// an open read are different.
pub proof fn law_reads_are_not_overwritten<C: ConsumerCursors>(
    sender: &ExclusivePublisherSequencer<C>,
    gates: &Gates<ExclusivePubSeqGate, C>,
    start: int,
    end: int,
    index: int,
    read_start: int,
    read_end: int,
    written: int,
    read: int,
)
    requires
        sender.attached(gates),
        0 <= index < gates@.consumer.consumed.len(),
        gates@.consumer.connected(index),
        ExclusivePublisherSequencer::<C>::outstanding(sender@, gates@, start, end),
        DefaultConsumerSequencer::<ExclusivePubSeqGate, C>::outstanding(
            index,
            gates@,
            read_start,
            read_end,
        ),
        start <= written <= end,
        read_start <= read <= read_end,
    ensures
        RingBufferMeta::slot_of(written, gates@.producer.capacity) != RingBufferMeta::slot_of(
            read,
            gates@.producer.capacity,
        ),
{
    CursorsView::lemma_slowest(gates@.consumer.consumed);
    assert(gates@.consumer.consumed[index] != i64::MIN);
    RingBufferMeta::lemma_slots_distinct(written, read, gates@.producer.capacity);
}

/// An open read stays open while the sender claims, commits or leaves.
pub proof fn law_open_reads_outlive_the_sender<C: ConsumerCursors>(
    sender: &ExclusivePublisherSequencer<C>,
    gates: &Gates<ExclusivePubSeqGate, C>,
    index: int,
    read_start: int,
    read_end: int,
    limit: int,
    start: int,
    end: int,
)
    requires
        sender.attached(gates),
        0 <= index < gates@.consumer.consumed.len(),
        gates@.consumer.connected(index),
        limit >= 1,
        DefaultConsumerSequencer::<ExclusivePubSeqGate, C>::outstanding(
            index,
            gates@,
            read_start,
            read_end,
        ),
    ensures
        ExclusivePublisherSequencer::<C>::grant(sender@, gates@, limit) == Ok::<
            (int, int),
            TryClaimError,
        >((start, end)) ==> DefaultConsumerSequencer::<ExclusivePubSeqGate, C>::outstanding(
            index,
            ExclusivePublisherSequencer::<C>::granted(sender@, gates@, end).1,
            read_start,
            read_end,
        ),
        ExclusivePublisherSequencer::<C>::outstanding(sender@, gates@, start, end)
            ==> DefaultConsumerSequencer::<ExclusivePubSeqGate, C>::outstanding(
            index,
            ExclusivePublisherSequencer::<C>::committed(sender@, gates@, start, end),
            read_start,
            read_end,
        ),
        DefaultConsumerSequencer::<ExclusivePubSeqGate, C>::outstanding(
            index,
            ExclusivePublisherSequencer::<C>::left(gates@),
            read_start,
            read_end,
        ),
{
    CursorsView::lemma_slowest(gates@.consumer.consumed);
    assert(gates@.consumer.consumed[index] != i64::MIN);
}

/// A claim is refused as disconnected if and only if no receiver is connected, and otherwise
/// refused as full if and only if some receiver is a whole lap behind.
pub proof fn law_refusals<C: ConsumerCursors, T>(
    chan: ChannelView<GatesView<ExclusivePubView, CursorsView>, T>,
    limit: int,
)
    requires
        chan.valid(),
        limit >= 1,
    ensures
        ExclusivePublisherSequencer::<C>::grant(
            chan.gates.producer.published,
            chan.gates,
            limit,
        ) == Err::<(int, int), TryClaimError>(TryClaimError::Shutdown) <==> !exists|index: int|
            chan.follows(index),
        ExclusivePublisherSequencer::<C>::grant(
            chan.gates.producer.published,
            chan.gates,
            limit,
        ) == Err::<(int, int), TryClaimError>(TryClaimError::Empty) <==> exists|index: int|
            chan.follows(index) && chan.gates.producer.published
                == #[trigger] chan.gates.consumer.consumed[index] + chan.gates.producer.capacity,
{
    let producer = chan.gates.producer;
    let consumer = chan.gates.consumer;
    let slowest = CursorsView::slowest(consumer.consumed);
    CursorsView::lemma_slowest(consumer.consumed);
    RingBufferMeta::lemma_exponent(producer.capacity);
    if slowest != i64::MIN {
        let index = choose|index: int|
            0 <= index < consumer.consumed.len() && #[trigger] consumer.consumed[index] == slowest;
        assert(chan.follows(index));
        consumer.lemma_consumed_until(producer.progress());
    } else {
        assert forall|index: int| !chan.follows(index) by {}
    }
    assert forall|index: int| chan.follows(index) implies producer.published
        <= #[trigger] consumer.consumed[index] + producer.capacity && slowest
        <= consumer.consumed[index] by {
        assert(consumer.connected(index));
        assert(producer.progress().reachable(consumer.consumed[index]));
    }
}

/// While claims of the sender are open, another one is refused as disconnected if and only if no
/// receiver is connected, and otherwise refused as full if and only if the claims reach a whole
/// lap past some receiver.
pub proof fn law_refusals_while_claims_are_open<C: ConsumerCursors, T>(
    chan: ChannelView<GatesView<ExclusivePubView, CursorsView>, T>,
    claimed: int,
    limit: int,
)
    requires
        chan.valid(),
        chan.gates.producer.published <= claimed,
        limit >= 1,
    ensures
        ExclusivePublisherSequencer::<C>::grant(claimed, chan.gates, limit) == Err::<
            (int, int),
            TryClaimError,
        >(TryClaimError::Shutdown) <==> !exists|index: int| chan.follows(index),
        ExclusivePublisherSequencer::<C>::grant(claimed, chan.gates, limit) == Err::<
            (int, int),
            TryClaimError,
        >(TryClaimError::Empty) <==> exists|index: int|
            chan.follows(index) && claimed >= #[trigger] chan.gates.consumer.consumed[index]
                + chan.gates.producer.capacity,
{
    let producer = chan.gates.producer;
    let consumer = chan.gates.consumer;
    let slowest = CursorsView::slowest(consumer.consumed);
    CursorsView::lemma_slowest(consumer.consumed);
    RingBufferMeta::lemma_exponent(producer.capacity);
    if slowest != i64::MIN {
        let index = choose|index: int|
            0 <= index < consumer.consumed.len() && #[trigger] consumer.consumed[index] == slowest;
        assert(chan.follows(index));
        consumer.lemma_consumed_until(producer.progress());
    } else {
        assert forall|index: int| !chan.follows(index) by {}
    }
    assert forall|index: int| chan.follows(index) implies slowest
        <= #[trigger] consumer.consumed[index] by {
        assert(consumer.connected(index));
    }
}

/// A commit of any open claim publishes everything up to its end: every connected receiver can
/// read it after what it had not read yet, in order.
pub proof fn law_commit_publishes_everything<C: ConsumerCursors, T>(
    chan: ChannelView<GatesView<ExclusivePubView, CursorsView>, T>,
    claimed: int,
    start: int,
    end: int,
)
    requires
        chan.valid(),
        ExclusivePublisherSequencer::<C>::outstanding(claimed, chan.gates, start, end),
    ensures
        ({
            let after = ChannelView {
                gates: ExclusivePublisherSequencer::<C>::committed(
                    claimed,
                    chan.gates,
                    start,
                    end,
                ),
                ..chan
            };
            &&& after.gates.producer.published == end
            &&& after.gates.producer.capacity == chan.gates.producer.capacity
            &&& after.gates.producer.shutdown == chan.gates.producer.shutdown
            &&& after.gates.consumer.consumed == chan.gates.consumer.consumed
            &&& forall|index: int|
                #![trigger after.unread(index)]
                chan.follows(index) ==> after.follows(index) && after.unread(index)
                    == chan.unread(index) + chan.items(chan.gates.producer.published + 1, end)
        }),
{
    let after = ChannelView {
        gates: ExclusivePublisherSequencer::<C>::committed(claimed, chan.gates, start, end),
        ..chan
    };
    assert forall|index: int|
        #![trigger after.unread(index)]
        chan.follows(index) implies after.follows(index) && after.unread(index) == chan.unread(
        index,
    ) + chan.items(chan.gates.producer.published + 1, end) by {
        assert(chan.gates.producer.progress().reachable(chan.gates.consumer.consumed[index]));
        assert(after.gates.consumer.connected(index));
        assert(after.unread(index) =~= chan.unread(index) + chan.items(
            chan.gates.producer.published + 1,
            end,
        ));
    }
}

/// Values that are sent while there is room for all of them are received by every receiver
/// after what it had not read yet, complete and in the order in which they were sent.
pub proof fn law_sent_is_received<C: ConsumerCursors, T>(
    chan: ChannelView<GatesView<ExclusivePubView, CursorsView>, T>,
    values: Seq<T>,
)
    requires
        chan.valid(),
        chan.gates.producer.published + values.len() + 2 * chan.gates.producer.capacity
            <= i64::MAX,
        exists|index: int| chan.follows(index),
        forall|index: int|
            #![trigger chan.unread(index)]
            chan.follows(index) ==> chan.unread(index).len() + values.len()
                <= chan.gates.producer.capacity,
    ensures
        ({
            let after = chan.after_sends::<C>(values);
            &&& after.valid()
            &&& after.gates.producer.published == chan.gates.producer.published + values.len()
            &&& after.gates.producer.capacity == chan.gates.producer.capacity
            &&& after.gates.consumer.consumed == chan.gates.consumer.consumed
            &&& forall|index: int|
                #![trigger after.unread(index)]
                chan.follows(index) ==> after.follows(index) && after.unread(index)
                    == chan.unread(index) + values
        }),
    decreases values.len(),
{
    if values.len() == 0 {
        assert forall|index: int|
            #![trigger chan.unread(index)]
            chan.follows(index) implies chan.unread(index) == chan.unread(index) + values by {
            assert(chan.unread(index) + values =~= chan.unread(index));
        }
    } else {
        law_sent_is_received::<C, T>(chan, values.drop_last());
        let before = chan.after_sends::<C>(values.drop_last());
        let producer = before.gates.producer;
        let slowest = CursorsView::slowest(before.gates.consumer.consumed);
        CursorsView::lemma_slowest(before.gates.consumer.consumed);
        let some = choose|index: int| chan.follows(index);
        assert(chan.gates.consumer.consumed[some] != i64::MIN);
        let index = choose|index: int|
            0 <= index < before.gates.consumer.consumed.len()
                && #[trigger] before.gates.consumer.consumed[index] == slowest;
        assert(chan.follows(index));
        assert(chan.gates.producer.progress().reachable(chan.gates.consumer.consumed[index]));
        assert(chan.unread(index).len() + values.len() <= producer.capacity);
        RingBufferMeta::lemma_exponent(producer.capacity);
        law_send_appends::<C, T>(
            before,
            producer.published,
            producer.published + 1,
            values.last(),
        );
        let after = chan.after_sends::<C>(values);
        assert forall|index: int|
            #![trigger after.unread(index)]
            chan.follows(index) implies after.follows(index) && after.unread(index)
            == chan.unread(index) + values by {
            assert(before.follows(index) && before.unread(index) == chan.unread(index)
                + values.drop_last());
            assert((chan.unread(index) + values.drop_last()).push(values.last())
                =~= chan.unread(index) + values);
        }
    }
}

/// When the sender leaves, the stream ends where it is: every receiver keeps what it has not
/// read yet.
pub proof fn law_sender_ends_the_stream<C: ConsumerCursors, T>(
    chan: ChannelView<GatesView<ExclusivePubView, CursorsView>, T>,
)
    requires
        chan.valid(),
    ensures
        ({
            let after = ChannelView {
                gates: ExclusivePublisherSequencer::<C>::left(chan.gates),
                ..chan
            };
            &&& after.valid()
            &&& after.gates.producer.shutdown != i64::MIN
            &&& forall|index: int|
                #![trigger after.unread(index)]
                chan.follows(index) ==> after.follows(index) && after.unread(index)
                    == chan.unread(index)
        }),
{
    let after = ChannelView { gates: ExclusivePublisherSequencer::<C>::left(chan.gates), ..chan };
    chan.gates.consumer.lemma_commit_in_step(
        chan.gates.producer.progress(),
        after.gates.producer.progress(),
    );
}

/// The sender stays an endpoint of the channel while a receiver finishes what it was granted,
/// or leaves.
pub proof fn law_sender_outlives_receivers<C: ConsumerCursors>(
    sender: &ExclusivePublisherSequencer<C>,
    before: &Gates<ExclusivePubSeqGate, C>,
    after: &Gates<ExclusivePubSeqGate, C>,
    index: int,
    start: int,
    end: int,
)
    requires
        sender.attached(before),
        after.inv(),
        0 <= index < before@.consumer.consumed.len(),
        before@.consumer.connected(index),
        ({
            ||| after@ == DefaultConsumerSequencer::<ExclusivePubSeqGate, C>::left(index, before@)
            ||| {
                &&& DefaultConsumerSequencer::<ExclusivePubSeqGate, C>::outstanding(
                    index,
                    before@,
                    start,
                    end,
                )
                &&& after@ == DefaultConsumerSequencer::<ExclusivePubSeqGate, C>::committed(
                    index,
                    before@,
                    start,
                    end,
                )
            }
        }),
    ensures
        sender.attached(after),
{
    CursorsView::lemma_slowest(before@.consumer.consumed);
    CursorsView::lemma_slowest(after@.consumer.consumed);
    let slowest = CursorsView::slowest(before@.consumer.consumed);
    let later = CursorsView::slowest(after@.consumer.consumed);
    if later != i64::MIN {
        let i = choose|i: int|
            0 <= i < after@.consumer.consumed.len() && #[trigger] after@.consumer.consumed[i]
                == later;
        assert(slowest <= later) by {
            assert(before@.consumer.consumed[i] != i64::MIN);
        }
    }
    sender.lemma_intact(slowest, later);
}

/// No receiver is ever more than a lap behind the sender.
pub proof fn law_bounded<T>(
    chan: ChannelView<GatesView<ExclusivePubView, CursorsView>, T>,
    index: int,
)
    requires
        chan.valid(),
        chan.follows(index),
    ensures
        chan.unread(index).len() <= chan.gates.producer.capacity,
{
    assert(chan.gates.producer.progress().reachable(chan.gates.consumer.consumed[index]));
    RingBufferMeta::lemma_exponent(chan.gates.producer.capacity);
}

/// A granted claim takes as many slots as were asked for, or as many as are free where that is
/// less: a slot is free once every connected receiver has finished its item.
pub proof fn law_claims_what_is_free<C: ConsumerCursors, T>(
    chan: ChannelView<GatesView<ExclusivePubView, CursorsView>, T>,
    claimed: int,
    limit: int,
    start: int,
    end: int,
)
    requires
        chan.valid(),
        limit >= 1,
        ExclusivePublisherSequencer::<C>::grant(claimed, chan.gates, limit) == Ok::<
            (int, int),
            TryClaimError,
        >((start, end)),
    ensures
        start == claimed + 1,
        1 <= end - start + 1 <= limit,
        end - start + 1 <= chan.gates.producer.capacity,
        forall|index: int|
            chan.follows(index) ==> end <= #[trigger] chan.gates.consumer.consumed[index]
                + chan.gates.producer.capacity,
        end - start + 1 < limit && (end - start + 1 < chan.gates.producer.capacity
            || chan.gates.producer.published <= claimed) ==> exists|index: int|
            chan.follows(index) && end == #[trigger] chan.gates.consumer.consumed[index]
                + chan.gates.producer.capacity,
{
    let consumer = chan.gates.consumer;
    CursorsView::lemma_slowest(consumer.consumed);
    RingBufferMeta::lemma_exponent(chan.gates.producer.capacity);
    consumer.lemma_consumed_until(chan.gates.producer.progress());
    let index = choose|index: int|
        0 <= index < consumer.consumed.len() && #[trigger] consumer.consumed[index]
            == CursorsView::slowest(consumer.consumed);
    assert(chan.follows(index));
}

/// When the last connected receiver leaves, the sender is told that it is disconnected.
pub proof fn law_last_receiver_disconnects_the_sender<C: ConsumerCursors, T>(
    chan: ChannelView<GatesView<ExclusivePubView, CursorsView>, T>,
    claimed: int,
    index: int,
    limit: int,
)
    requires
        chan.valid(),
        limit >= 1,
        chan.follows(index),
        forall|other: int| other != index ==> !#[trigger] chan.follows(other),
    ensures
        ExclusivePublisherSequencer::<C>::grant(
            claimed,
            DefaultConsumerSequencer::<ExclusivePubSeqGate, C>::left(index, chan.gates),
            limit,
        ) == Err::<(int, int), TryClaimError>(TryClaimError::Shutdown),
{
    let consumer = DefaultConsumerSequencer::<ExclusivePubSeqGate, C>::left(
        index,
        chan.gates,
    ).consumer;
    CursorsView::lemma_slowest(consumer.consumed);
    assert forall|other: int|
        0 <= other < consumer.consumed.len() implies #[trigger] consumer.consumed[other]
        == i64::MIN by {
        if other != index {
            assert(!chan.follows(other));
        }
    }
}

/// A commit, and the leaving of the sender, each wake the task that waits for a receiver, once,
/// and it waits no longer. Where no task waits, none is woken.
pub proof fn law_events_wake<C: ConsumerCursors>(
    gates: GatesView<ExclusivePubView, CursorsView>,
    claimed: int,
    start: int,
    end: int,
    index: int,
)
    requires
        0 <= index < gates.consumer.waiting.len(),
    ensures
        ({
            let woken = match gates.consumer.waiting[index] {
                Some(task) => gates.consumer.woken[index].push(task),
                None => gates.consumer.woken[index],
            };
            let committed = ExclusivePublisherSequencer::<C>::committed(
                claimed,
                gates,
                start,
                end,
            ).consumer;
            let left = ExclusivePublisherSequencer::<C>::left(gates).consumer;
            &&& committed.waiting[index] is None
            &&& committed.woken[index] == woken
            &&& left.waiting[index] is None
            &&& left.woken[index] == woken
        }),
{
}

/// The sender's open claim stays open while receivers finish and leave.
pub proof fn law_open_claims_outlive_receivers<C: ConsumerCursors>(
    gates: GatesView<ExclusivePubView, CursorsView>,
    claimed: int,
    start: int,
    end: int,
    index: int,
    read_start: int,
    read_end: int,
)
    requires
        ExclusivePublisherSequencer::<C>::outstanding(claimed, gates, start, end),
    ensures
        ExclusivePublisherSequencer::<C>::outstanding(
            claimed,
            DefaultConsumerSequencer::<ExclusivePubSeqGate, C>::committed(
                index,
                gates,
                read_start,
                read_end,
            ),
            start,
            end,
        ),
        ExclusivePublisherSequencer::<C>::outstanding(
            claimed,
            DefaultConsumerSequencer::<ExclusivePubSeqGate, C>::left(index, gates),
            start,
            end,
        ),
{
}

} // verus!
