//! What publishing, batches and receiving come to, on the channel with a single sender.

use vstd::prelude::*;

use crate::channel::{Channel, ChannelView};
use crate::consumers::{Consumer, ReadGuard, ReadIter};
use crate::errors::{
    TryClaimError, TryRecvAtMostError, TryRecvError, TrySendAtMostError, TrySendError,
};
use crate::laws::batches::{law_batch_accounts, law_finished_batch_holds_its_items};
use crate::permit::SendBatch;
use crate::publisher::Publisher;
use crate::ringbuffer::{RingBuffer, RingBufferMeta};
use crate::sequencers::consumer::DefaultConsumerSequencer;
use crate::sequencers::pub_ex::{ExclusivePubSeqGate, ExclusivePubView, ExclusivePublisherSequencer};
use crate::sequencers::{ConsumerCursors, CursorsView, Gates, GatesView, Sequencer};
use crate::slot_recycler::SlotRecycler;

verus! {

/// How a claim of the sender is answered while none is open: it is refused as disconnected if and
/// only if no receiver is connected, and otherwise refused if and only if some receiver has a
/// whole lap to read. One that is granted begins after the last sent item and takes as many slots
/// as were asked for, or as many as the receiver with the most to read leaves free.
pub proof fn law_settled_claim<C: ConsumerCursors, T>(
    chan: ChannelView<GatesView<ExclusivePubView, CursorsView>, T>,
    claimed: int,
    limit: int,
)
    requires
        chan.valid(),
        claimed == chan.gates.producer.published,
        limit >= 1,
    ensures
        match ExclusivePublisherSequencer::<C>::grant(claimed, chan.gates, limit) {
            Ok((start, end)) => {
                &&& exists|index: int| chan.follows(index)
                &&& start == claimed + 1
                &&& 1 <= end - start + 1 <= limit
                &&& forall|index: int|
                    chan.follows(index) ==> end - start + 1 + #[trigger] chan.unread(index).len()
                        <= chan.gates.producer.capacity
                &&& end - start + 1 < limit ==> exists|index: int|
                    chan.follows(index) && end - start + 1 + #[trigger] chan.unread(index).len()
                        == chan.gates.producer.capacity
            },
            Err(TryClaimError::Shutdown) => !exists|index: int| chan.follows(index),
            Err(TryClaimError::Empty) => exists|index: int|
                chan.follows(index) && #[trigger] chan.unread(index).len()
                    == chan.gates.producer.capacity,
            Err(TryClaimError::Insufficient { .. }) => false,
        },
{
    let producer = chan.gates.producer;
    crate::laws::exclusive::law_refusals::<C, T>(chan, limit);
    RingBufferMeta::lemma_exponent(producer.capacity);
    CursorsView::lemma_slowest(chan.gates.consumer.consumed);
    assert forall|index: int| chan.follows(index) implies #[trigger] chan.unread(index).len()
        == producer.published - chan.gates.consumer.consumed[index] by {
        assert(producer.progress().reachable(chan.gates.consumer.consumed[index]));
    }
    match ExclusivePublisherSequencer::<C>::grant(claimed, chan.gates, limit) {
        Ok((start, end)) => {
            crate::laws::exclusive::law_claims_what_is_free::<C, T>(
                chan,
                claimed,
                limit,
                start,
                end,
            );
            assert forall|index: int|
                chan.follows(index) implies end - start + 1 + #[trigger] chan.unread(index).len()
                <= producer.capacity by {
                assert(end <= chan.gates.consumer.consumed[index] + producer.capacity);
            }
            if end - start + 1 < limit {
                let index = choose|index: int|
                    chan.follows(index) && end == #[trigger] chan.gates.consumer.consumed[index]
                        + producer.capacity;
                assert(end - start + 1 + chan.unread(index).len() == producer.capacity);
            }
            let slowest = CursorsView::slowest(chan.gates.consumer.consumed);
            let index = choose|index: int|
                0 <= index < chan.gates.consumer.consumed.len()
                    && #[trigger] chan.gates.consumer.consumed[index] == slowest;
            assert(chan.follows(index));
        },
        Err(TryClaimError::Empty) => {
            let index = choose|index: int|
                chan.follows(index) && producer.published
                    == #[trigger] chan.gates.consumer.consumed[index] + producer.capacity;
            assert(chan.unread(index).len() == producer.capacity);
        },
        _ => {},
    }
}

/// Publishing an item while no claim is open appends it to what every receiver has not read yet.
/// It is refused as disconnected if and only if no receiver is connected, and otherwise as full
/// if and only if some receiver has a whole lap to read; then the item is handed back and nothing
/// changes.
pub proof fn law_published<C: ConsumerCursors, T>(
    chan: ChannelView<GatesView<ExclusivePubView, CursorsView>, T>,
    claimed: int,
    item: T,
    answer: Result<(), TrySendError<T>>,
    endpoint: int,
    after: ChannelView<GatesView<ExclusivePubView, CursorsView>, T>,
)
    requires
        chan.valid(),
        claimed == chan.gates.producer.published,
        ExclusivePublisherSequencer::<C>::may_claim(claimed, chan.gates),
        Publisher::<ExclusivePublisherSequencer<C>, T>::published(
            claimed,
            chan,
            item,
            answer,
            endpoint,
            after,
        ),
    ensures
        match answer {
            Ok(()) => {
                &&& exists|index: int| chan.follows(index)
                &&& after.valid()
                &&& endpoint == after.gates.producer.published == claimed + 1
                &&& forall|index: int|
                    #![trigger after.unread(index)]
                    chan.follows(index) ==> after.follows(index) && after.unread(index)
                        == chan.unread(index).push(item) && chan.unread(index).len()
                        < chan.gates.producer.capacity
            },
            Err(TrySendError::Full(unsent)) => {
                &&& exists|index: int|
                    chan.follows(index) && #[trigger] chan.unread(index).len()
                        == chan.gates.producer.capacity
                &&& unsent == item
                &&& endpoint == claimed
                &&& after == chan
            },
            Err(TrySendError::Disconnected(unsent)) => {
                &&& !exists|index: int| chan.follows(index)
                &&& unsent == item
                &&& endpoint == claimed
                &&& after == chan
            },
        },
{
    law_settled_claim::<C, T>(chan, claimed, 1);
    if let Ok((seq, end)) = ExclusivePublisherSequencer::<C>::grant(claimed, chan.gates, 1) {
        crate::laws::exclusive::law_send_appends::<C, T>(chan, claimed, seq, item);
        assert forall|index: int|
            #![trigger after.unread(index)]
            chan.follows(index) implies after.follows(index) && after.unread(index)
            == chan.unread(index).push(item) && chan.unread(index).len()
            < chan.gates.producer.capacity by {
            assert(end - seq + 1 + chan.unread(index).len() <= chan.gates.producer.capacity);
        }
    }
}

/// A batch of up to `limit` slots is granted, while no claim is open, if and only if a receiver is
/// connected and none has a whole lap to read. It begins after the last sent item and has as many
/// slots as were asked for, or as many as the receiver with the most to read leaves free. No
/// receiver finds anything changed.
pub proof fn law_claimed_up_to<C: ConsumerCursors, T, S: SlotRecycler<T>>(
    chan: ChannelView<GatesView<ExclusivePubView, CursorsView>, T>,
    claimed: int,
    limit: usize,
    factory: S,
    answer: Result<SendBatch<'_, ExclusivePublisherSequencer<C>, T, S>, TrySendAtMostError>,
    publisher: &Publisher<ExclusivePublisherSequencer<C>, T>,
    after: &Channel<Gates<ExclusivePubSeqGate, C>, T>,
)
    requires
        chan.valid(),
        claimed == chan.gates.producer.published,
        limit >= 1,
        ExclusivePublisherSequencer::<C>::may_claim(claimed, chan.gates),
        Publisher::claimed_up_to(claimed, chan, limit, factory, answer, publisher, after),
    ensures
        answer is Ok <==> {
            &&& exists|index: int| chan.follows(index)
            &&& forall|index: int|
                chan.follows(index) ==> #[trigger] chan.unread(index).len()
                    < chan.gates.producer.capacity
        },
        answer matches Ok(batch) ==> {
            let total = batch.end_seq - batch.start_seq + 1;
            &&& batch.wf()
            &&& batch.attached(after)
            &&& batch.open(after@.gates)
            &&& *batch.publisher == *publisher
            &&& batch.factory == factory
            &&& batch.next_seq == batch.start_seq == claimed + 1
            &&& publisher.publisher_sequencer@ == batch.end_seq
            &&& 1 <= total <= limit
            &&& forall|index: int|
                chan.follows(index) ==> total + #[trigger] chan.unread(index).len()
                    <= chan.gates.producer.capacity
            &&& total < limit ==> exists|index: int|
                chan.follows(index) && total + #[trigger] chan.unread(index).len()
                    == chan.gates.producer.capacity
            &&& after@ == chan
        },
        answer matches Err(error) ==> {
            &&& error == TrySendAtMostError::Disconnected <==> !exists|index: int|
                chan.follows(index)
            &&& publisher.publisher_sequencer@ == claimed
            &&& after@ == chan
        },
{
    let asked = crate::channel::spec_claim_limit(limit);
    let capacity = chan.gates.producer.capacity;
    RingBufferMeta::lemma_exponent(capacity);
    crate::laws::basics::law_limits_reach_the_sequencer(limit, capacity);
    law_settled_claim::<C, T>(chan, claimed, asked);
    if let Ok((start, end)) = ExclusivePublisherSequencer::<C>::grant(claimed, chan.gates, asked) {
        if end - start + 1 < limit && end - start + 1 == asked {
            let index = choose|index: int| chan.follows(index);
            assert(end - start + 1 + chan.unread(index).len() <= capacity);
        }
        assert forall|index: int|
            chan.follows(index) implies #[trigger] chan.unread(index).len() < capacity by {
            assert(end - start + 1 + chan.unread(index).len() <= capacity);
        }
    }
}

/// A batch of exactly `n` slots is granted, while no claim is open, if and only if a receiver is
/// connected and every one leaves room for `n` items. It has `n` slots. Otherwise nothing changes,
/// and the refusal is a disconnection if and only if `n` fits the ring and there is nobody to send
/// to.
pub proof fn law_claimed_exactly<C: ConsumerCursors, T, S: SlotRecycler<T>>(
    chan: ChannelView<GatesView<ExclusivePubView, CursorsView>, T>,
    claimed: int,
    n: usize,
    factory: S,
    answer: Result<SendBatch<'_, ExclusivePublisherSequencer<C>, T, S>, TrySendError<()>>,
    publisher: &Publisher<ExclusivePublisherSequencer<C>, T>,
    after: &Channel<Gates<ExclusivePubSeqGate, C>, T>,
)
    requires
        chan.valid(),
        claimed == chan.gates.producer.published,
        n >= 1,
        ExclusivePublisherSequencer::<C>::may_claim(claimed, chan.gates),
        Publisher::claimed_exactly(claimed, chan, n, factory, answer, publisher, after),
    ensures
        answer is Ok <==> {
            &&& exists|index: int| chan.follows(index)
            &&& forall|index: int|
                chan.follows(index) ==> n + #[trigger] chan.unread(index).len()
                    <= chan.gates.producer.capacity
        },
        answer matches Ok(batch) ==> {
            &&& batch.wf()
            &&& batch.attached(after)
            &&& batch.open(after@.gates)
            &&& *batch.publisher == *publisher
            &&& batch.factory == factory
            &&& batch.next_seq == batch.start_seq == claimed + 1
            &&& batch.end_seq - batch.start_seq + 1 == n
            &&& publisher.publisher_sequencer@ == batch.end_seq
            &&& after@ == chan
        },
        answer matches Err(error) ==> {
            &&& error is Disconnected <==> n <= chan.gates.producer.capacity && !exists|
                index: int,
            | chan.follows(index)
            &&& publisher.publisher_sequencer@ == claimed
            &&& after@ == chan
        },
{
    let asked = crate::channel::spec_claim_limit(n);
    let capacity = chan.gates.producer.capacity;
    RingBufferMeta::lemma_exponent(capacity);
    crate::laws::basics::law_limits_reach_the_sequencer(n, capacity);
    law_settled_claim::<C, T>(chan, claimed, asked);
    let grant = ExclusivePublisherSequencer::<C>::grant(claimed, chan.gates, asked);
    if let Ok((start, end)) = grant {
        let some = choose|index: int| chan.follows(index);
        assert(end - start + 1 + chan.unread(some).len() <= capacity);
        crate::laws::basics::law_exact_or_nothing(n, capacity, grant, start, end);
        if end - start + 1 < n {
            let index = choose|index: int|
                chan.follows(index) && end - start + 1 + #[trigger] chan.unread(index).len()
                    == capacity;
            assert(n + chan.unread(index).len() > capacity);
        }
    } else {
        crate::laws::basics::law_exact_or_nothing(n, capacity, grant, 0, 0);
        if exists|index: int| chan.follows(index) {
            let index = choose|index: int|
                chan.follows(index) && #[trigger] chan.unread(index).len() == capacity;
            assert(n + chan.unread(index).len() > capacity);
        }
    }
}

/// A batch that is finished is received by every receiver after what it had not read yet: the
/// items that were written to it, in order, then what its factory made for the slots that were
/// left.
pub proof fn law_finished_batch_is_received<C: ConsumerCursors, T, S: SlotRecycler<T>>(
    chan: ChannelView<GatesView<ExclusivePubView, CursorsView>, T>,
    claimed: int,
    batch: SendBatch<'_, ExclusivePublisherSequencer<C>, T, S>,
    limit: int,
    values: Seq<T>,
    slots: Seq<T>,
)
    requires
        chan.valid(),
        claimed == chan.gates.producer.published,
        limit >= 1,
        ExclusivePublisherSequencer::<C>::may_claim(claimed, chan.gates),
        ExclusivePublisherSequencer::<C>::grant(claimed, chan.gates, limit) == Ok::<
            (int, int),
            TryClaimError,
        >((batch.start_seq as int, batch.end_seq as int)),
        batch.publisher.publisher_sequencer@ == batch.end_seq,
        batch.wf(),
        batch.next_seq == batch.start_seq,
        values.len() <= batch.end_seq - batch.start_seq + 1,
        batch.advanced(values.len() as int).filled(
            RingBuffer::with_items(chan.slots, batch.start_seq as int, values),
            slots,
        ),
    ensures
        ({
            let held = Channel::claimed::<ExclusivePublisherSequencer<C>>(
                claimed,
                chan,
                batch.end_seq as int,
            ).1;
            let after = ChannelView {
                gates: batch.advanced(values.len() as int).ended(held.gates),
                slots,
            };
            let rest = RingBuffer::items(
                slots,
                batch.start_seq + values.len(),
                batch.end_seq as int,
            );
            &&& after.valid()
            &&& after.gates.producer.published == batch.end_seq
            &&& rest.len() == batch.end_seq - batch.start_seq + 1 - values.len()
            &&& forall|seq: int|
                batch.start_seq + values.len() <= seq <= batch.end_seq ==> batch.factory.recycled(
                    RingBuffer::item(chan.slots, seq),
                    #[trigger] RingBuffer::item(slots, seq),
                )
            &&& forall|index: int|
                #![trigger after.unread(index)]
                chan.follows(index) ==> after.follows(index) && after.unread(index)
                    == chan.unread(index) + values + rest
        }),
{
    let start = batch.start_seq as int;
    let end = batch.end_seq as int;
    let k = values.len() as int;
    let after = ChannelView { gates: batch.advanced(k).ended(chan.gates), slots };
    let rest = RingBuffer::items(slots, start + k, end);
    let all = RingBuffer::items(slots, start, end);
    RingBufferMeta::lemma_exponent(chan.gates.producer.capacity);
    law_batch_accounts(batch, k, chan.gates, slots);
    law_finished_batch_holds_its_items(batch, values, chan.slots, slots);
    crate::laws::exclusive::law_filled_batch_appends::<C, T>(
        chan,
        claimed,
        limit,
        start,
        end,
        slots,
    );
    assert(all =~= values + rest) by {
        assert forall|i: int| 0 <= i < k implies #[trigger] all[i] == values[i] by {
            assert(all.take(k)[i] == values[i]);
        }
    }
    assert forall|index: int|
        #![trigger after.unread(index)]
        chan.follows(index) implies after.follows(index) && after.unread(index) == chan.unread(
        index,
    ) + values + rest by {
        assert(chan.unread(index) + all =~= chan.unread(index) + values + rest);
    }
}

/// Receiving one item succeeds if and only if there is one: the oldest that the receiver has not
/// read, and finishing it takes exactly that item away. Otherwise nothing changes; it is a
/// disconnection if and only if the sender has left.
pub proof fn law_received<C: ConsumerCursors, T>(
    chan: ChannelView<GatesView<ExclusivePubView, CursorsView>, T>,
    index: int,
    answer: Result<ReadGuard<'_, DefaultConsumerSequencer<ExclusivePubSeqGate, C>, T>, TryRecvError>,
    consumer: &Consumer<DefaultConsumerSequencer<ExclusivePubSeqGate, C>, T>,
    after: &Channel<Gates<ExclusivePubSeqGate, C>, T>,
)
    requires
        chan.valid(),
        chan.follows(index),
        Consumer::received(index, chan, answer, consumer, after),
    ensures
        answer is Ok <==> chan.unread(index).len() > 0,
        answer matches Ok(guard) ==> {
            let done = ChannelView {
                gates: DefaultConsumerSequencer::<ExclusivePubSeqGate, C>::committed(
                    guard.consumer_sequencer@,
                    after@.gates,
                    guard.seq@,
                    guard.seq@,
                ),
                ..after@
            };
            &&& guard.consumer_sequencer@ == index
            &&& guard.attached(after)
            &&& guard.open(after@.gates)
            &&& after@.item(guard.seq@) == chan.unread(index)[0]
            &&& done.valid()
            &&& done.follows(index)
            &&& done.unread(index) == chan.unread(index).drop_first()
        },
        answer matches Err(error) ==> {
            &&& after@ == chan
            &&& error == TryRecvError::Disconnected <==> chan.gates.producer.shutdown != i64::MIN
        },
{
    crate::laws::exclusive::law_receive_takes_the_oldest::<C, T>(chan, index, 1);
    if let Ok((seq, end)) = DefaultConsumerSequencer::<ExclusivePubSeqGate, C>::grant(
        index,
        chan.gates,
        1,
    ) {
        crate::laws::exclusive::law_finished_items_are_gone::<C, T>(chan, index, 1, seq, end);
        assert(chan.items(seq, seq)[0] == chan.unread(index).take(1)[0]);
        assert(chan.unread(index).skip(1) =~= chan.unread(index).drop_first());
    }
}

/// Receiving up to `limit` items succeeds if and only if there is one. It gives as many of the
/// oldest as were asked for, or all where there are fewer, in order, and finishing it takes
/// exactly those away. Otherwise nothing changes, as for one item.
pub proof fn law_received_up_to<C: ConsumerCursors, T>(
    chan: ChannelView<GatesView<ExclusivePubView, CursorsView>, T>,
    index: int,
    limit: int,
    answer: Result<
        ReadIter<'_, DefaultConsumerSequencer<ExclusivePubSeqGate, C>, T>,
        TryRecvAtMostError,
    >,
    consumer: &Consumer<DefaultConsumerSequencer<ExclusivePubSeqGate, C>, T>,
    after: &Channel<Gates<ExclusivePubSeqGate, C>, T>,
)
    requires
        chan.valid(),
        chan.follows(index),
        limit >= 1,
        Consumer::received_up_to(index, chan, limit, answer, consumer, after),
    ensures
        answer is Ok <==> chan.unread(index).len() > 0,
        answer matches Ok(iter) ==> {
            let n = if limit < chan.unread(index).len() {
                limit
            } else {
                chan.unread(index).len() as int
            };
            let done = ChannelView {
                gates: DefaultConsumerSequencer::<ExclusivePubSeqGate, C>::committed(
                    iter.consumer_sequencer@,
                    after@.gates,
                    iter.start_seq@,
                    iter.end_seq@,
                ),
                ..after@
            };
            &&& iter.consumer_sequencer@ == index
            &&& iter.attached(after)
            &&& iter.open(after@.gates)
            &&& iter.rest(after@) == chan.unread(index).take(n)
            &&& done.valid()
            &&& done.follows(index)
            &&& done.unread(index) == chan.unread(index).skip(n)
        },
        answer matches Err(error) ==> {
            &&& after@ == chan
            &&& error == TryRecvAtMostError::Disconnected <==> chan.gates.producer.shutdown
                != i64::MIN
        },
{
    crate::laws::exclusive::law_receive_takes_the_oldest::<C, T>(chan, index, limit);
    if let Ok((start, end)) = DefaultConsumerSequencer::<ExclusivePubSeqGate, C>::grant(
        index,
        chan.gates,
        limit,
    ) {
        crate::laws::exclusive::law_finished_items_are_gone::<C, T>(
            chan,
            index,
            limit,
            start,
            end,
        );
    }
}

/// Receiving exactly `n` items succeeds if and only if there are as many. It gives the oldest `n`,
/// in order, and finishing it takes exactly those away. Otherwise nothing changes; it is a
/// disconnection if and only if `n` fits the ring, there is nothing to read and the sender has
/// left.
pub proof fn law_received_exactly<C: ConsumerCursors, T>(
    chan: ChannelView<GatesView<ExclusivePubView, CursorsView>, T>,
    index: int,
    n: int,
    answer: Result<ReadIter<'_, DefaultConsumerSequencer<ExclusivePubSeqGate, C>, T>, TryRecvError>,
    consumer: &Consumer<DefaultConsumerSequencer<ExclusivePubSeqGate, C>, T>,
    after: &Channel<Gates<ExclusivePubSeqGate, C>, T>,
)
    requires
        chan.valid(),
        chan.follows(index),
        n >= 1,
        Consumer::received_exactly(index, chan, n, answer, consumer, after),
    ensures
        answer is Ok <==> chan.unread(index).len() >= n,
        answer matches Ok(iter) ==> {
            let done = ChannelView {
                gates: DefaultConsumerSequencer::<ExclusivePubSeqGate, C>::committed(
                    iter.consumer_sequencer@,
                    after@.gates,
                    iter.start_seq@,
                    iter.end_seq@,
                ),
                ..after@
            };
            &&& iter.consumer_sequencer@ == index
            &&& iter.attached(after)
            &&& iter.open(after@.gates)
            &&& iter.rest(after@) == chan.unread(index).take(n)
            &&& done.valid()
            &&& done.follows(index)
            &&& done.unread(index) == chan.unread(index).skip(n)
        },
        answer matches Err(error) ==> {
            &&& after@ == chan
            &&& error == TryRecvError::Disconnected <==> n <= chan.gates.producer.capacity
                && chan.unread(index).len() == 0 && chan.gates.producer.shutdown != i64::MIN
        },
{
    crate::laws::exclusive::law_bounded(chan, index);
    crate::laws::exclusive::law_receive_takes_the_oldest::<C, T>(chan, index, n);
    if let Ok((start, end)) = DefaultConsumerSequencer::<ExclusivePubSeqGate, C>::grant(
        index,
        chan.gates,
        n,
    ) {
        crate::laws::exclusive::law_finished_items_are_gone::<C, T>(chan, index, n, start, end);
    }
}

} // verus!
