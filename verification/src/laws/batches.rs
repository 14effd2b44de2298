//! What publishing, batches and receiving come to, on the channels whose batches are made by a
//! factory: with any number of senders to receivers that see every item.

use vstd::prelude::*;

use crate::channel::{Channel, ChannelView};
use crate::consumers::{Consumer, ReadGuard, ReadIter};
use crate::errors::{
    TryClaimError, TryRecvAtMostError, TryRecvError, TrySendAtMostError, TrySendError,
};
use crate::permit::SendBatch;
use crate::publisher::Publisher;
use crate::ringbuffer::{RingBuffer, RingBufferMeta};
use crate::sequencers::consumer::DefaultConsumerSequencer;
use crate::sequencers::pub_mul::{MultiPublisherSequencer, SharedState, SharedView};
use crate::sequencers::{ConsumerCursors, CursorsView, Gates, GatesView, Sequencer};
use crate::slot_recycler::SlotRecycler;

verus! {

/// A batch has as many slots left as sequences from the next to its last one. Writing `n` items
/// moves it on by `n` and changes nothing else of it. It ends by the commit of all its sequences,
/// whatever lap they lie in.
pub proof fn law_batch_accounts<P: Sequencer, T, S: SlotRecycler<T>>(
    batch: SendBatch<'_, P, T, S>,
    n: int,
    gates: <P::Gates as View>::V,
    slots: Seq<T>,
)
    requires
        batch.wf(),
        0 <= n <= batch.end_seq + 1 - batch.next_seq,
    ensures
        batch.left() == batch.end_seq + 1 - batch.next_seq,
        batch.advanced(n).wf(),
        batch.advanced(n).left() == batch.left() - n,
        batch.advanced(n).next_seq == batch.next_seq + n,
        batch.advanced(n).start_seq == batch.start_seq,
        batch.advanced(n).end_seq == batch.end_seq,
        batch.advanced(n).factory == batch.factory,
        batch.advanced(n).publisher == batch.publisher,
        batch.ended(gates) == P::committed(
            batch.publisher.publisher_sequencer@,
            gates,
            batch.start_seq as int,
            batch.end_seq as int,
        ),
        batch.open(gates) <==> P::outstanding(
            batch.publisher.publisher_sequencer@,
            gates,
            batch.start_seq as int,
            batch.end_seq as int,
        ),
        (forall|seq: int|
            batch.next_seq <= seq <= batch.end_seq ==> batch.factory.can_recycle(
                #[trigger] RingBuffer::item(slots, seq),
            )) ==> batch.can_fill(slots),
{
}

/// A batch that is finished keeps the items that were written to it, in order, and holds what its
/// factory makes in every other slot. No other slot of the lap is touched.
pub proof fn law_finished_batch_holds_its_items<P: Sequencer, T, S: SlotRecycler<T>>(
    batch: SendBatch<'_, P, T, S>,
    values: Seq<T>,
    before: Seq<T>,
    after: Seq<T>,
)
    requires
        batch.wf(),
        batch.next_seq == batch.start_seq,
        batch.end_seq - batch.start_seq < before.len(),
        values.len() <= batch.end_seq - batch.start_seq + 1,
        batch.advanced(values.len() as int).filled(
            RingBuffer::with_items(before, batch.start_seq as int, values),
            after,
        ),
    ensures
        after.len() == before.len(),
        RingBuffer::items(after, batch.start_seq as int, batch.end_seq as int).len()
            == batch.end_seq - batch.start_seq + 1,
        RingBuffer::items(after, batch.start_seq as int, batch.end_seq as int).take(
            values.len() as int,
        ) == values,
        forall|seq: int|
            batch.start_seq + values.len() <= seq <= batch.end_seq ==> batch.factory.recycled(
                RingBuffer::item(before, seq),
                #[trigger] RingBuffer::item(after, seq),
            ),
        forall|seq: int|
            batch.end_seq - before.len() < seq < batch.start_seq ==> #[trigger] RingBuffer::item(
                after,
                seq,
            ) == RingBuffer::item(before, seq),
{
    let start = batch.start_seq as int;
    let end = batch.end_seq as int;
    let rest = batch.advanced(values.len() as int);
    let written = RingBuffer::with_items(before, start, values);
    law_batch_accounts(batch, values.len() as int, arbitrary(), before);
    RingBuffer::lemma_with_items(before, start, values);
    assert forall|seq: int|
        start + values.len() <= seq <= end implies batch.factory.recycled(
        RingBuffer::item(before, seq),
        #[trigger] RingBuffer::item(after, seq),
    ) by {
        assert(RingBuffer::item(written, seq) == RingBuffer::item(before, seq));
    }
    assert forall|seq: int|
        end - before.len() < seq < start implies #[trigger] RingBuffer::item(after, seq)
        == RingBuffer::item(before, seq) by {
        assert(RingBuffer::item(after, seq) == RingBuffer::item(written, seq));
        assert(RingBuffer::item(written, seq) == RingBuffer::item(before, seq)) by {
            if seq < start + values.len() - before.len() {
                RingBufferMeta::lemma_next_lap(seq, before.len() as int);
                assert(RingBuffer::item(written, seq + before.len()) == RingBuffer::item(
                    before,
                    seq + before.len(),
                ));
            }
        }
    }
    assert forall|i: int| 0 <= i < values.len() implies #[trigger] RingBuffer::items(
        after,
        start,
        end,
    ).take(values.len() as int)[i] == values[i] by {
        assert(RingBuffer::item(after, start + i) == RingBuffer::item(written, start + i));
        assert(RingBuffer::item(written, start + i) == values[start + i - start]);
    }
    assert(RingBuffer::items(after, start, end).take(values.len() as int) =~= values);
}

/// Publishing an item while no other claim is open appends it to what every receiver has not read
/// yet. It is refused as disconnected if and only if the senders were terminated or no receiver is
/// connected, and otherwise as full if and only if some receiver has a whole lap to read; then the
/// item is handed back and nothing changes.
pub proof fn law_published<C: ConsumerCursors, T>(
    chan: ChannelView<GatesView<SharedView, CursorsView>, T>,
    item: T,
    answer: Result<(), TrySendError<T>>,
    after: ChannelView<GatesView<SharedView, CursorsView>, T>,
)
    requires
        chan.valid(),
        chan.settled(),
        MultiPublisherSequencer::<C>::may_claim((), chan.gates),
        Publisher::<MultiPublisherSequencer<C>, T>::published(
            (),
            chan,
            item,
            answer,
            (),
            after,
        ),
    ensures
        match answer {
            Ok(()) => {
                &&& !chan.gates.producer.terminated
                &&& chan.heard()
                &&& after.valid()
                &&& after.settled()
                &&& forall|index: int|
                    #![trigger after.unread(index)]
                    chan.follows(index) ==> after.follows(index) && after.unread(index)
                        == chan.unread(index).push(item) && chan.unread(index).len()
                        < chan.gates.producer.capacity()
            },
            Err(TrySendError::Full(unsent)) => {
                &&& !chan.gates.producer.terminated
                &&& exists|index: int|
                    chan.follows(index) && #[trigger] chan.unread(index).len()
                        == chan.gates.producer.capacity()
                &&& unsent == item
                &&& after == chan
            },
            Err(TrySendError::Disconnected(unsent)) => {
                &&& chan.gates.producer.terminated || !chan.heard()
                &&& unsent == item
                &&& after == chan
            },
        },
{
    let producer = chan.gates.producer;
    crate::laws::lifecycle::law_refusals::<C, T>(chan, 1);
    RingBufferMeta::lemma_exponent(producer.capacity());
    match MultiPublisherSequencer::<C>::grant((), chan.gates, 1) {
        Ok((seq, end)) => {
            crate::laws::lifecycle::law_claims_what_is_free::<C, T>(chan, 1, seq, end);
            crate::laws::delivery::law_send_appends::<C, T>(chan, seq, item);
            assert forall|index: int|
                #![trigger after.unread(index)]
                chan.follows(index) implies after.follows(index) && after.unread(index)
                == chan.unread(index).push(item) && chan.unread(index).len()
                < producer.capacity() by {
                chan.lemma_unread(index);
                chan.lemma_settled(index);
                assert(end <= chan.gates.consumer.consumed[index] + producer.capacity());
            }
        },
        Err(TryClaimError::Empty) => {
            let index = choose|index: int|
                chan.follows(index) && producer.claimed
                    == #[trigger] chan.gates.consumer.consumed[index] + producer.capacity();
            chan.lemma_unread(index);
            chan.lemma_settled(index);
            assert(chan.unread(index).len() == producer.capacity());
        },
        Err(_) => {},
    }
}

/// A batch of up to `limit` slots is granted, while no other claim is open, if and only if the
/// senders were not terminated, a receiver is connected and none has a whole lap to read. It
/// begins after the last sent item and has as many slots as were asked for, or as many as the
/// receiver with the most to read leaves free. No receiver finds anything changed.
pub proof fn law_claimed_up_to<C: ConsumerCursors, T, S: SlotRecycler<T>>(
    chan: ChannelView<GatesView<SharedView, CursorsView>, T>,
    limit: usize,
    factory: S,
    answer: Result<SendBatch<'_, MultiPublisherSequencer<C>, T, S>, TrySendAtMostError>,
    publisher: &Publisher<MultiPublisherSequencer<C>, T>,
    after: &Channel<Gates<SharedState, C>, T>,
)
    requires
        chan.valid(),
        chan.settled(),
        limit >= 1,
        MultiPublisherSequencer::<C>::may_claim((), chan.gates),
        Publisher::claimed_up_to((), chan, limit, factory, answer, publisher, after),
    ensures
        answer is Ok <==> {
            &&& !chan.gates.producer.terminated
            &&& chan.heard()
            &&& forall|index: int|
                chan.follows(index) ==> #[trigger] chan.unread(index).len()
                    < chan.gates.producer.capacity()
        },
        answer matches Ok(batch) ==> {
            let total = batch.end_seq - batch.start_seq + 1;
            &&& batch.wf()
            &&& batch.attached(after)
            &&& batch.open(after@.gates)
            &&& *batch.publisher == *publisher
            &&& batch.factory == factory
            &&& batch.next_seq == batch.start_seq == chan.gates.producer.claimed + 1
            &&& 1 <= total <= limit
            &&& forall|index: int|
                chan.follows(index) ==> total + #[trigger] chan.unread(index).len()
                    <= chan.gates.producer.capacity()
            &&& total < limit ==> exists|index: int|
                chan.follows(index) && total + #[trigger] chan.unread(index).len()
                    == chan.gates.producer.capacity()
            &&& after@.slots == chan.slots
            &&& after@.valid()
            &&& forall|index: int|
                #![trigger after@.unread(index)]
                chan.follows(index) ==> after@.follows(index) && after@.unread(index)
                    == chan.unread(index)
        },
        answer matches Err(error) ==> {
            &&& error == TrySendAtMostError::Disconnected <==> chan.gates.producer.terminated
                || !chan.heard()
            &&& after@ == chan
        },
{
    let asked = crate::channel::spec_claim_limit(limit);
    let capacity = chan.gates.producer.capacity();
    RingBufferMeta::lemma_exponent(capacity);
    crate::laws::basics::law_limits_reach_the_sequencer(limit, capacity);
    lemma_settled_refusals::<C, T>(chan, asked);
    if let Ok((start, end)) = MultiPublisherSequencer::<C>::grant((), chan.gates, asked) {
        crate::laws::delivery::law_claim_is_invisible::<C, T>(chan, asked, start, end);
        crate::laws::permits::law_settled_batch_takes_what_is_free::<C, T>(
            chan,
            limit,
            start,
            end,
        );
    }
}

/// In a settled channel a claim is refused as disconnected if and only if the senders were
/// terminated or no receiver is connected, and otherwise refused if and only if some receiver has
/// a whole lap to read.
proof fn lemma_settled_refusals<C: ConsumerCursors, T>(
    chan: ChannelView<GatesView<SharedView, CursorsView>, T>,
    limit: int,
)
    requires
        chan.valid(),
        chan.settled(),
        limit >= 1,
    ensures
        MultiPublisherSequencer::<C>::grant((), chan.gates, limit) == Err::<
            (int, int),
            TryClaimError,
        >(TryClaimError::Shutdown) <==> chan.gates.producer.terminated || !chan.heard(),
        MultiPublisherSequencer::<C>::grant((), chan.gates, limit) is Ok <==> {
            &&& !chan.gates.producer.terminated
            &&& chan.heard()
            &&& forall|index: int|
                chan.follows(index) ==> #[trigger] chan.unread(index).len()
                    < chan.gates.producer.capacity()
        },
        !(MultiPublisherSequencer::<C>::grant((), chan.gates, limit) matches Err(
            TryClaimError::Insufficient { .. },
        )),
{
    let producer = chan.gates.producer;
    crate::laws::lifecycle::law_refusals::<C, T>(chan, limit);
    RingBufferMeta::lemma_exponent(producer.capacity());
    assert forall|index: int| chan.follows(index) implies #[trigger] chan.unread(index).len()
        == producer.claimed - chan.gates.consumer.consumed[index] by {
        chan.lemma_unread(index);
        chan.lemma_settled(index);
    }
    if MultiPublisherSequencer::<C>::grant((), chan.gates, limit) == Err::<
        (int, int),
        TryClaimError,
    >(TryClaimError::Empty) {
        let index = choose|index: int|
            chan.follows(index) && producer.claimed
                == #[trigger] chan.gates.consumer.consumed[index] + producer.capacity();
        assert(chan.unread(index).len() == producer.capacity());
    } else {
        assert forall|index: int|
            !producer.terminated && chan.follows(index) implies #[trigger] chan.unread(index).len()
            < producer.capacity() by {
            chan.lemma_unread(index);
            assert(producer.claimed != chan.gates.consumer.consumed[index] + producer.capacity());
        }
    }
}

/// A batch of exactly `n` slots is granted, while no other claim is open, if and only if the
/// senders were not terminated, a receiver is connected and every one leaves room for `n` items. It
/// has `n` slots. Otherwise nothing changes, and the refusal is a disconnection if and only if `n`
/// fits the ring and there is nobody to send to or the senders were terminated.
pub proof fn law_claimed_exactly<C: ConsumerCursors, T, S: SlotRecycler<T>>(
    chan: ChannelView<GatesView<SharedView, CursorsView>, T>,
    n: usize,
    factory: S,
    answer: Result<SendBatch<'_, MultiPublisherSequencer<C>, T, S>, TrySendError<()>>,
    publisher: &Publisher<MultiPublisherSequencer<C>, T>,
    after: &Channel<Gates<SharedState, C>, T>,
)
    requires
        chan.valid(),
        chan.settled(),
        n >= 1,
        MultiPublisherSequencer::<C>::may_claim((), chan.gates),
        Publisher::claimed_exactly((), chan, n, factory, answer, publisher, after),
    ensures
        answer is Ok <==> {
            &&& !chan.gates.producer.terminated
            &&& chan.heard()
            &&& forall|index: int|
                chan.follows(index) ==> n + #[trigger] chan.unread(index).len()
                    <= chan.gates.producer.capacity()
        },
        answer matches Ok(batch) ==> {
            &&& batch.wf()
            &&& batch.attached(after)
            &&& batch.open(after@.gates)
            &&& *batch.publisher == *publisher
            &&& batch.factory == factory
            &&& batch.next_seq == batch.start_seq == chan.gates.producer.claimed + 1
            &&& batch.end_seq - batch.start_seq + 1 == n
            &&& after@.slots == chan.slots
            &&& after@.valid()
            &&& forall|index: int|
                #![trigger after@.unread(index)]
                chan.follows(index) ==> after@.follows(index) && after@.unread(index)
                    == chan.unread(index)
        },
        answer matches Err(error) ==> {
            &&& error is Disconnected <==> n <= chan.gates.producer.capacity() && (
            chan.gates.producer.terminated || !chan.heard())
            &&& after@ == chan
        },
{
    let asked = crate::channel::spec_claim_limit(n);
    let capacity = chan.gates.producer.capacity();
    RingBufferMeta::lemma_exponent(capacity);
    crate::laws::basics::law_limits_reach_the_sequencer(n, capacity);
    lemma_settled_refusals::<C, T>(chan, asked);
    let grant = MultiPublisherSequencer::<C>::grant((), chan.gates, asked);
    if let Ok((start, end)) = grant {
        crate::laws::delivery::law_claim_is_invisible::<C, T>(chan, asked, start, end);
        crate::laws::permits::law_settled_batch_takes_what_is_free::<C, T>(chan, n, start, end);
        crate::laws::basics::law_exact_or_nothing(n, capacity, grant, start, end);
        if end - start + 1 < n {
            let index = choose|index: int|
                chan.follows(index) && end - start + 1 + #[trigger] chan.unread(index).len()
                    == capacity;
            assert(n + chan.unread(index).len() > capacity);
        }
    } else {
        crate::laws::basics::law_exact_or_nothing(n, capacity, grant, 0, 0);
        if !chan.gates.producer.terminated && chan.heard() {
            let index = choose|index: int|
                chan.follows(index) && #[trigger] chan.unread(index).len() >= capacity;
            assert(n + chan.unread(index).len() > capacity);
        }
    }
}

/// A batch that is finished while no other claim is open is received by every receiver after what
/// it had not read yet: the items that were written to it, in order, then what its factory made
/// for the slots that were left.
pub proof fn law_finished_batch_is_received<C: ConsumerCursors, T, S: SlotRecycler<T>>(
    chan: ChannelView<GatesView<SharedView, CursorsView>, T>,
    batch: SendBatch<'_, MultiPublisherSequencer<C>, T, S>,
    limit: int,
    values: Seq<T>,
    slots: Seq<T>,
)
    requires
        chan.valid(),
        chan.settled(),
        limit >= 1,
        MultiPublisherSequencer::<C>::may_claim((), chan.gates),
        MultiPublisherSequencer::<C>::grant((), chan.gates, limit) == Ok::<
            (int, int),
            TryClaimError,
        >((batch.start_seq as int, batch.end_seq as int)),
        batch.wf(),
        batch.next_seq == batch.start_seq,
        values.len() <= batch.end_seq - batch.start_seq + 1,
        batch.advanced(values.len() as int).filled(
            RingBuffer::with_items(chan.slots, batch.start_seq as int, values),
            slots,
        ),
    ensures
        ({
            let held = Channel::claimed::<MultiPublisherSequencer<C>>(
                (),
                chan,
                batch.end_seq as int,
            ).1;
            let after = ChannelView {
                gates: batch.advanced(values.len() as int).ended(held.gates),
                slots,
            };
            let rest = RingBuffer::items(
                slots,
                batch.start_seq + values.len(),
                batch.end_seq as int,
            );
            &&& after.valid()
            &&& after.settled()
            &&& rest.len() == batch.end_seq - batch.start_seq + 1 - values.len()
            &&& forall|seq: int|
                batch.start_seq + values.len() <= seq <= batch.end_seq ==> batch.factory.recycled(
                    RingBuffer::item(chan.slots, seq),
                    #[trigger] RingBuffer::item(slots, seq),
                )
            &&& forall|index: int|
                #![trigger after.unread(index)]
                chan.follows(index) ==> after.follows(index) && after.unread(index)
                    == chan.unread(index) + values + rest
        }),
{
    let start = batch.start_seq as int;
    let end = batch.end_seq as int;
    let k = values.len() as int;
    let held = Channel::claimed::<MultiPublisherSequencer<C>>((), chan, end).1;
    let after = ChannelView { gates: batch.advanced(k).ended(held.gates), slots };
    let rest = RingBuffer::items(slots, start + k, end);
    let all = RingBuffer::items(slots, start, end);
    RingBufferMeta::lemma_exponent(chan.gates.producer.capacity());
    crate::laws::delivery::law_claim_is_invisible::<C, T>(chan, limit, start, end);
    law_batch_accounts(batch, k, held.gates, slots);
    law_finished_batch_holds_its_items(batch, values, chan.slots, slots);
    crate::laws::delivery::law_filled_batch_appends::<C, T>(chan, limit, start, end, slots);
    C::lemma_gated_by_slowest(chan.gates.consumer, 0, 0, 1);
    assert(all =~= values + rest) by {
        assert forall|i: int| 0 <= i < k implies #[trigger] all[i] == values[i] by {
            assert(all.take(k)[i] == values[i]);
        }
    }
    assert forall|index: int|
        #![trigger after.unread(index)]
        chan.follows(index) implies after.follows(index) && after.unread(index) == chan.unread(
        index,
    ) + values + rest by {
        assert(chan.unread(index) + all =~= chan.unread(index) + values + rest);
    }
}

/// Receiving one item succeeds if and only if there is one: the oldest that this receiver has not
/// read, and finishing it takes exactly that item away. Otherwise nothing changes; it is a
/// disconnection where the stream has ended, and none where nothing is marked as ended.
pub proof fn law_received<C: ConsumerCursors, T>(
    chan: ChannelView<GatesView<SharedView, CursorsView>, T>,
    index: int,
    answer: Result<ReadGuard<'_, DefaultConsumerSequencer<SharedState, C>, T>, TryRecvError>,
    consumer: &Consumer<DefaultConsumerSequencer<SharedState, C>, T>,
    after: &Channel<Gates<SharedState, C>, T>,
)
    requires
        chan.valid(),
        chan.follows(index),
        Consumer::received(index, chan, answer, consumer, after),
    ensures
        answer is Ok <==> chan.unread(index).len() > 0,
        answer matches Ok(guard) ==> {
            let done = ChannelView {
                gates: DefaultConsumerSequencer::<SharedState, C>::committed(
                    guard.consumer_sequencer@,
                    after@.gates,
                    guard.seq@,
                    guard.seq@,
                ),
                ..after@
            };
            &&& guard.consumer_sequencer@ == index
            &&& guard.attached(after)
            &&& guard.open(after@.gates)
            &&& after@.item(guard.seq@) == chan.unread(index)[0]
            &&& done.valid()
            &&& done.follows(index)
            &&& done.unread(index) == chan.unread(index).drop_first()
            &&& forall|other: int|
                #![trigger done.unread(other)]
                other != index && chan.follows(other) ==> done.follows(other)
                    && done.unread(other) == chan.unread(other)
        },
        answer matches Err(error) ==> {
            &&& after@ == chan
            &&& chan.gates.producer.ended() ==> error == TryRecvError::Disconnected
            &&& chan.gates.producer.unmarked() ==> error == TryRecvError::Empty
        },
{
    crate::laws::delivery::law_receive_takes_the_oldest::<C, T>(chan, index, 1);
    lemma_refused_receive::<C, T>(chan, index, 1);
    if let Ok((seq, end)) = DefaultConsumerSequencer::<SharedState, C>::grant(
        index,
        chan.gates,
        1,
    ) {
        crate::laws::delivery::law_finished_items_are_gone::<C, T>(chan, index, 1, seq, end);
        assert(chan.items(seq, seq)[0] == chan.unread(index).take(1)[0]);
        assert(chan.unread(index).skip(1) =~= chan.unread(index).drop_first());
    }
}

/// A receive that is refused is a disconnection where the stream has ended, and none where nothing
/// is marked as ended.
proof fn lemma_refused_receive<C: ConsumerCursors, T>(
    chan: ChannelView<GatesView<SharedView, CursorsView>, T>,
    index: int,
    limit: int,
)
    requires
        chan.valid(),
        chan.follows(index),
        limit >= 1,
    ensures
        DefaultConsumerSequencer::<SharedState, C>::grant(index, chan.gates, limit) matches Err(
            error,
        ) ==> {
            &&& chan.gates.producer.ended() ==> error == TryClaimError::Shutdown
            &&& chan.gates.producer.unmarked() ==> error == TryClaimError::Empty
        },
{
    if chan.gates.producer.ended() {
        crate::laws::lifecycle::law_drained_then_disconnected::<C, T>(chan, index, limit);
    }
    if chan.gates.producer.unmarked() {
        crate::laws::lifecycle::law_no_early_end::<C, T>(chan, index, limit);
    }
}

/// Receiving up to `limit` items succeeds if and only if there is one. It gives as many of the
/// oldest as were asked for, or all where there are fewer, in order, and finishing it takes
/// exactly those away. Otherwise nothing changes, as for one item.
pub proof fn law_received_up_to<C: ConsumerCursors, T>(
    chan: ChannelView<GatesView<SharedView, CursorsView>, T>,
    index: int,
    limit: int,
    answer: Result<ReadIter<'_, DefaultConsumerSequencer<SharedState, C>, T>, TryRecvAtMostError>,
    consumer: &Consumer<DefaultConsumerSequencer<SharedState, C>, T>,
    after: &Channel<Gates<SharedState, C>, T>,
)
    requires
        chan.valid(),
        chan.follows(index),
        limit >= 1,
        Consumer::received_up_to(index, chan, limit, answer, consumer, after),
    ensures
        answer is Ok <==> chan.unread(index).len() > 0,
        answer matches Ok(iter) ==> {
            let n = if limit < chan.unread(index).len() {
                limit
            } else {
                chan.unread(index).len() as int
            };
            let done = ChannelView {
                gates: DefaultConsumerSequencer::<SharedState, C>::committed(
                    iter.consumer_sequencer@,
                    after@.gates,
                    iter.start_seq@,
                    iter.end_seq@,
                ),
                ..after@
            };
            &&& iter.consumer_sequencer@ == index
            &&& iter.attached(after)
            &&& iter.open(after@.gates)
            &&& iter.rest(after@) == chan.unread(index).take(n)
            &&& done.valid()
            &&& done.follows(index)
            &&& done.unread(index) == chan.unread(index).skip(n)
        },
        answer matches Err(error) ==> {
            &&& after@ == chan
            &&& chan.gates.producer.ended() ==> error == TryRecvAtMostError::Disconnected
            &&& chan.gates.producer.unmarked() ==> error == TryRecvAtMostError::Empty
        },
{
    crate::laws::delivery::law_receive_takes_the_oldest::<C, T>(chan, index, limit);
    lemma_refused_receive::<C, T>(chan, index, limit);
    if let Ok((start, end)) = DefaultConsumerSequencer::<SharedState, C>::grant(
        index,
        chan.gates,
        limit,
    ) {
        crate::laws::delivery::law_finished_items_are_gone::<C, T>(
            chan,
            index,
            limit,
            start,
            end,
        );
    }
}

/// Receiving exactly `n` items succeeds if and only if there are as many. It gives the oldest `n`,
/// in order, and finishing it takes exactly those away. Otherwise nothing changes.
pub proof fn law_received_exactly<C: ConsumerCursors, T>(
    chan: ChannelView<GatesView<SharedView, CursorsView>, T>,
    index: int,
    n: int,
    answer: Result<ReadIter<'_, DefaultConsumerSequencer<SharedState, C>, T>, TryRecvError>,
    consumer: &Consumer<DefaultConsumerSequencer<SharedState, C>, T>,
    after: &Channel<Gates<SharedState, C>, T>,
)
    requires
        chan.valid(),
        chan.follows(index),
        n >= 1,
        Consumer::received_exactly(index, chan, n, answer, consumer, after),
    ensures
        answer is Ok <==> chan.unread(index).len() >= n,
        answer matches Ok(iter) ==> {
            let done = ChannelView {
                gates: DefaultConsumerSequencer::<SharedState, C>::committed(
                    iter.consumer_sequencer@,
                    after@.gates,
                    iter.start_seq@,
                    iter.end_seq@,
                ),
                ..after@
            };
            &&& iter.consumer_sequencer@ == index
            &&& iter.attached(after)
            &&& iter.open(after@.gates)
            &&& iter.rest(after@) == chan.unread(index).take(n)
            &&& done.valid()
            &&& done.follows(index)
            &&& done.unread(index) == chan.unread(index).skip(n)
        },
        answer matches Err(error) ==> {
            &&& after@ == chan
            &&& error == TryRecvError::Disconnected ==> n <= chan.gates.producer.capacity()
                && chan.unread(index).len() == 0
            &&& n <= chan.gates.producer.capacity() && chan.unread(index).len() == 0
                && chan.gates.producer.ended() ==> error == TryRecvError::Disconnected
            &&& chan.gates.producer.unmarked() ==> error == TryRecvError::Empty
        },
{
    let capacity = chan.gates.producer.capacity();
    chan.lemma_unread(index);
    RingBufferMeta::lemma_exponent(capacity);
    crate::laws::delivery::law_receive_takes_the_oldest::<C, T>(chan, index, n);
    lemma_refused_receive::<C, T>(chan, index, n);
    if let Ok((start, end)) = DefaultConsumerSequencer::<SharedState, C>::grant(
        index,
        chan.gates,
        n,
    ) {
        crate::laws::delivery::law_finished_items_are_gone::<C, T>(chan, index, n, start, end);
    }
}

} // verus!
