//! What publishing, batches and receiving come to, on the channels whose receivers compete.

use vstd::prelude::*;

use crate::channel::{Channel, ChannelView};
use crate::consumers::{Consumer, ReadGuard, ReadIter};
use crate::errors::{
    TryClaimError, TryRecvAtMostError, TryRecvError, TrySendAtMostError, TrySendError,
};
use crate::laws::batches::{law_batch_accounts, law_finished_batch_holds_its_items};
use crate::permit::SendBatch;
use crate::publisher::Publisher;
use crate::ringbuffer::{RingBuffer, RingBufferMeta};
use crate::sequencers::con_queue::{QueuedConsumerSequencer, QueuedSharedState, QueuedView};
use crate::sequencers::pub_mul::{MultiPublisherSequencer, SharedState, SharedView};
use crate::sequencers::{Gates, GatesView, Sequencer};
use crate::slot_recycler::SlotRecycler;

verus! {

/// How a claim is answered while a receiver is left: it is refused as disconnected if and only if
/// the senders were terminated, and otherwise refused if and only if the slot of the next sequence
/// is not released. One that is granted begins with that sequence and takes as many slots as were
/// asked for, or as many released ones as there are in a row.
pub proof fn law_heard_claim<T>(
    chan: ChannelView<GatesView<SharedView, QueuedView>, T>,
    limit: int,
)
    requires
        chan.valid(),
        chan.heard(),
        limit >= 1,
    ensures
        match MultiPublisherSequencer::<QueuedSharedState>::grant((), chan.gates, limit) {
            Ok((start, end)) => {
                &&& !chan.gates.producer.terminated
                &&& start == chan.gates.producer.claimed + 1
                &&& 1 <= end - start + 1 <= limit
                &&& end - start + 1 <= chan.gates.producer.capacity()
                &&& forall|seq: int|
                    start <= seq <= end ==> chan.gates.consumer.consumed(
                        #[trigger] (seq - chan.gates.producer.capacity()),
                    )
                &&& end - start + 1 < limit ==> end - start + 1 == chan.gates.producer.capacity()
                    || !chan.gates.consumer.consumed(end + 1 - chan.gates.producer.capacity())
            },
            Err(TryClaimError::Shutdown) => chan.gates.producer.terminated,
            Err(TryClaimError::Empty) => {
                &&& !chan.gates.producer.terminated
                &&& !chan.gates.consumer.consumed(
                    chan.gates.producer.claimed + 1 - chan.gates.producer.capacity(),
                )
            },
            Err(TryClaimError::Insufficient { .. }) => false,
        },
{
    crate::laws::queue::law_refusals(chan, limit);
    RingBufferMeta::lemma_exponent(chan.gates.producer.capacity());
    if let Ok((start, end)) = MultiPublisherSequencer::<QueuedSharedState>::grant(
        (),
        chan.gates,
        limit,
    ) {
        crate::laws::queue::law_claims_what_is_free(chan, limit, start, end);
    }
}

/// Publishing an item while a receiver is left and no other claim is open appends it to what can
/// be received. It is refused as disconnected if and only if the senders were terminated, and
/// otherwise as full if and only if the slot of the next sequence is not released; then the item
/// is handed back and nothing changes.
pub proof fn law_published<T>(
    chan: ChannelView<GatesView<SharedView, QueuedView>, T>,
    item: T,
    answer: Result<(), TrySendError<T>>,
    after: ChannelView<GatesView<SharedView, QueuedView>, T>,
)
    requires
        chan.valid(),
        chan.settled(),
        chan.heard(),
        MultiPublisherSequencer::<QueuedSharedState>::may_claim((), chan.gates),
        Publisher::<MultiPublisherSequencer<QueuedSharedState>, T>::published(
            (),
            chan,
            item,
            answer,
            (),
            after,
        ),
    ensures
        ({
            let free = chan.gates.consumer.consumed(
                chan.gates.producer.claimed + 1 - chan.gates.producer.capacity(),
            );
            match answer {
                Ok(()) => {
                    &&& !chan.gates.producer.terminated
                    &&& free
                    &&& after.valid()
                    &&& after.settled()
                    &&& after.unread() == chan.unread().push(item)
                },
                Err(TrySendError::Full(unsent)) => {
                    &&& !chan.gates.producer.terminated
                    &&& !free
                    &&& unsent == item
                    &&& after == chan
                },
                Err(TrySendError::Disconnected(unsent)) => {
                    &&& chan.gates.producer.terminated
                    &&& unsent == item
                    &&& after == chan
                },
            }
        }),
{
    law_heard_claim(chan, 1);
    crate::laws::queue::law_refusals(chan, 1);
    if let Ok((seq, end)) = MultiPublisherSequencer::<QueuedSharedState>::grant(
        (),
        chan.gates,
        1,
    ) {
        crate::laws::queue::law_send_appends(chan, seq, item);
    }
}

/// A batch of up to `limit` slots is granted, while a receiver is left, if and only if the senders
/// were not terminated and the slot of the next sequence is released. It begins with that sequence
/// and has as many slots as were asked for, or as many released ones as there are in a row. What
/// can be received stays as it is.
pub proof fn law_claimed_up_to<T, S: SlotRecycler<T>>(
    chan: ChannelView<GatesView<SharedView, QueuedView>, T>,
    limit: usize,
    factory: S,
    answer: Result<
        SendBatch<'_, MultiPublisherSequencer<QueuedSharedState>, T, S>,
        TrySendAtMostError,
    >,
    publisher: &Publisher<MultiPublisherSequencer<QueuedSharedState>, T>,
    after: &Channel<Gates<SharedState, QueuedSharedState>, T>,
)
    requires
        chan.valid(),
        chan.heard(),
        limit >= 1,
        MultiPublisherSequencer::<QueuedSharedState>::may_claim((), chan.gates),
        Publisher::claimed_up_to((), chan, limit, factory, answer, publisher, after),
    ensures
        answer is Ok <==> !chan.gates.producer.terminated && chan.gates.consumer.consumed(
            chan.gates.producer.claimed + 1 - chan.gates.producer.capacity(),
        ),
        answer matches Ok(batch) ==> {
            let total = batch.end_seq - batch.start_seq + 1;
            &&& batch.wf()
            &&& batch.attached(after)
            &&& batch.open(after@.gates)
            &&& *batch.publisher == *publisher
            &&& batch.factory == factory
            &&& batch.next_seq == batch.start_seq == chan.gates.producer.claimed + 1
            &&& 1 <= total <= limit
            &&& forall|seq: int|
                batch.start_seq <= seq <= batch.end_seq ==> chan.gates.consumer.consumed(
                    #[trigger] (seq - chan.gates.producer.capacity()),
                )
            &&& total < limit ==> total == chan.gates.producer.capacity()
                || !chan.gates.consumer.consumed(
                batch.end_seq + 1 - chan.gates.producer.capacity(),
            )
            &&& after@.slots == chan.slots
            &&& after@.valid()
            &&& after@.unread() == chan.unread()
        },
        answer matches Err(error) ==> {
            &&& error == TrySendAtMostError::Disconnected <==> chan.gates.producer.terminated
            &&& after@ == chan
        },
{
    let asked = crate::channel::spec_claim_limit(limit);
    let capacity = chan.gates.producer.capacity();
    RingBufferMeta::lemma_exponent(capacity);
    crate::laws::basics::law_limits_reach_the_sequencer(limit, capacity);
    law_heard_claim(chan, asked);
    if let Ok((start, end)) = MultiPublisherSequencer::<QueuedSharedState>::grant(
        (),
        chan.gates,
        asked,
    ) {
        assert(chan.gates.consumer.consumed(start - capacity));
        crate::laws::queue::law_claim_is_invisible(chan, asked, start, end);
    }
}

/// A batch of exactly `n` slots is granted, while a receiver is left, if and only if the senders
/// were not terminated and the slots of the next `n` sequences are released. It has `n` slots.
/// Otherwise nothing changes, and the refusal is a disconnection if and only if `n` fits the ring
/// and the senders were terminated.
pub proof fn law_claimed_exactly<T, S: SlotRecycler<T>>(
    chan: ChannelView<GatesView<SharedView, QueuedView>, T>,
    n: usize,
    factory: S,
    answer: Result<
        SendBatch<'_, MultiPublisherSequencer<QueuedSharedState>, T, S>,
        TrySendError<()>,
    >,
    publisher: &Publisher<MultiPublisherSequencer<QueuedSharedState>, T>,
    after: &Channel<Gates<SharedState, QueuedSharedState>, T>,
)
    requires
        chan.valid(),
        chan.heard(),
        n >= 1,
        MultiPublisherSequencer::<QueuedSharedState>::may_claim((), chan.gates),
        Publisher::claimed_exactly((), chan, n, factory, answer, publisher, after),
    ensures
        answer is Ok <==> {
            &&& !chan.gates.producer.terminated
            &&& n <= chan.gates.producer.capacity()
            &&& forall|seq: int|
                chan.gates.producer.claimed < seq <= chan.gates.producer.claimed + n
                    ==> chan.gates.consumer.consumed(
                    #[trigger] (seq - chan.gates.producer.capacity()),
                )
        },
        answer matches Ok(batch) ==> {
            &&& batch.wf()
            &&& batch.attached(after)
            &&& batch.open(after@.gates)
            &&& *batch.publisher == *publisher
            &&& batch.factory == factory
            &&& batch.next_seq == batch.start_seq == chan.gates.producer.claimed + 1
            &&& batch.end_seq - batch.start_seq + 1 == n
            &&& after@.slots == chan.slots
            &&& after@.valid()
            &&& after@.unread() == chan.unread()
        },
        answer matches Err(error) ==> {
            &&& error is Disconnected <==> n <= chan.gates.producer.capacity()
                && chan.gates.producer.terminated
            &&& after@ == chan
        },
{
    let asked = crate::channel::spec_claim_limit(n);
    let claimed = chan.gates.producer.claimed;
    let capacity = chan.gates.producer.capacity();
    RingBufferMeta::lemma_exponent(capacity);
    crate::laws::basics::law_limits_reach_the_sequencer(n, capacity);
    law_heard_claim(chan, asked);
    let grant = MultiPublisherSequencer::<QueuedSharedState>::grant((), chan.gates, asked);
    if let Ok((start, end)) = grant {
        crate::laws::queue::law_claim_is_invisible(chan, asked, start, end);
        crate::laws::basics::law_exact_or_nothing(n, capacity, grant, start, end);
        if end - start + 1 < n && n <= capacity {
            let next = end + 1;
            assert(!chan.gates.consumer.consumed(next - capacity));
            assert(claimed < next <= claimed + n);
        }
    } else {
        crate::laws::basics::law_exact_or_nothing(n, capacity, grant, 0, 0);
        if !chan.gates.producer.terminated {
            let next = claimed + 1;
            assert(!chan.gates.consumer.consumed(next - capacity));
        }
    }
}

/// A batch that is finished while no other claim is open is received after what was there: the
/// items that were written to it, in order, then what its factory made for the slots that were
/// left.
pub proof fn law_finished_batch_is_received<T, S: SlotRecycler<T>>(
    chan: ChannelView<GatesView<SharedView, QueuedView>, T>,
    batch: SendBatch<'_, MultiPublisherSequencer<QueuedSharedState>, T, S>,
    limit: int,
    values: Seq<T>,
    slots: Seq<T>,
)
    requires
        chan.valid(),
        chan.settled(),
        limit >= 1,
        MultiPublisherSequencer::<QueuedSharedState>::may_claim((), chan.gates),
        MultiPublisherSequencer::<QueuedSharedState>::grant((), chan.gates, limit) == Ok::<
            (int, int),
            TryClaimError,
        >((batch.start_seq as int, batch.end_seq as int)),
        batch.wf(),
        batch.next_seq == batch.start_seq,
        values.len() <= batch.end_seq - batch.start_seq + 1,
        batch.advanced(values.len() as int).filled(
            RingBuffer::with_items(chan.slots, batch.start_seq as int, values),
            slots,
        ),
    ensures
        ({
            let held = Channel::claimed::<MultiPublisherSequencer<QueuedSharedState>>(
                (),
                chan,
                batch.end_seq as int,
            ).1;
            let after = ChannelView {
                gates: batch.advanced(values.len() as int).ended(held.gates),
                slots,
            };
            let rest = RingBuffer::items(
                slots,
                batch.start_seq + values.len(),
                batch.end_seq as int,
            );
            &&& after.valid()
            &&& after.settled()
            &&& rest.len() == batch.end_seq - batch.start_seq + 1 - values.len()
            &&& forall|seq: int|
                batch.start_seq + values.len() <= seq <= batch.end_seq ==> batch.factory.recycled(
                    RingBuffer::item(chan.slots, seq),
                    #[trigger] RingBuffer::item(slots, seq),
                )
            &&& after.unread() == chan.unread() + values + rest
        }),
{
    let start = batch.start_seq as int;
    let end = batch.end_seq as int;
    let k = values.len() as int;
    let held = Channel::claimed::<MultiPublisherSequencer<QueuedSharedState>>((), chan, end).1;
    let rest = RingBuffer::items(slots, start + k, end);
    let all = RingBuffer::items(slots, start, end);
    RingBufferMeta::lemma_exponent(chan.gates.producer.capacity());
    crate::laws::queue::law_claims_what_is_free(chan, limit, start, end);
    law_batch_accounts(batch, k, held.gates, slots);
    law_finished_batch_holds_its_items(batch, values, chan.slots, slots);
    crate::laws::queue::law_filled_batch_appends(chan, limit, start, end, slots);
    assert(all =~= values + rest) by {
        assert forall|i: int| 0 <= i < k implies #[trigger] all[i] == values[i] by {
            assert(all.take(k)[i] == values[i]);
        }
    }
    assert(chan.unread() + all =~= chan.unread() + values + rest);
}

/// Receiving one item succeeds if and only if there is one: the oldest. It is then gone for every
/// other receiver, and finishing it releases exactly its slot. Otherwise nothing changes; it is a
/// disconnection where the stream has ended, and none where nothing is marked as ended.
pub proof fn law_received<T>(
    chan: ChannelView<GatesView<SharedView, QueuedView>, T>,
    answer: Result<ReadGuard<'_, QueuedConsumerSequencer<SharedState>, T>, TryRecvError>,
    consumer: &Consumer<QueuedConsumerSequencer<SharedState>, T>,
    after: &Channel<Gates<SharedState, QueuedSharedState>, T>,
)
    requires
        chan.valid(),
        Consumer::received((), chan, answer, consumer, after),
    ensures
        answer is Ok <==> chan.unread().len() > 0,
        answer matches Ok(guard) ==> {
            let done = ChannelView {
                gates: QueuedConsumerSequencer::<SharedState>::committed(
                    (),
                    after@.gates,
                    guard.seq@,
                    guard.seq@,
                ),
                ..after@
            };
            &&& guard.attached(after)
            &&& guard.open(after@.gates)
            &&& after@.item(guard.seq@) == chan.unread()[0]
            &&& after@.valid()
            &&& after@.unread() == chan.unread().drop_first()
            &&& done.valid()
            &&& done.unread() == after@.unread()
            &&& forall|seq: int|
                chan.gates.producer.in_window(seq) ==> #[trigger] done.gates.consumer.consumed(seq)
                    == (chan.gates.consumer.consumed(seq) || seq == guard.seq@)
        },
        answer matches Err(error) ==> {
            &&& after@ == chan
            &&& chan.gates.producer.ended() ==> error == TryRecvError::Disconnected
            &&& chan.gates.producer.unmarked() ==> error == TryRecvError::Empty
        },
{
    crate::laws::queue::law_receive_takes_the_oldest(chan, 1);
    lemma_refused_receive(chan, 1);
    if let Ok((seq, end)) = QueuedConsumerSequencer::<SharedState>::grant((), chan.gates, 1) {
        lemma_taken(chan, 1, seq, end);
        assert(chan.items(seq, seq)[0] == chan.unread().take(1)[0]);
        assert(chan.unread().skip(1) =~= chan.unread().drop_first());
    }
}

/// A receive that is refused is a disconnection where the stream has ended, and none where nothing
/// is marked as ended.
proof fn lemma_refused_receive<T>(
    chan: ChannelView<GatesView<SharedView, QueuedView>, T>,
    limit: int,
)
    requires
        chan.valid(),
        limit >= 1,
    ensures
        QueuedConsumerSequencer::<SharedState>::grant((), chan.gates, limit) matches Err(error)
            ==> {
            &&& chan.gates.producer.ended() ==> error == TryClaimError::Shutdown
            &&& chan.gates.producer.unmarked() ==> error == TryClaimError::Empty
        },
{
    if chan.gates.producer.ended() {
        crate::laws::queue::law_drained_then_disconnected(chan, limit);
    }
    if chan.gates.producer.unmarked() {
        crate::laws::queue::law_no_early_end(chan, limit);
    }
}

/// What a receive takes is gone for the others, and finishing it releases exactly its slots.
proof fn lemma_taken<T>(
    chan: ChannelView<GatesView<SharedView, QueuedView>, T>,
    limit: int,
    start: int,
    end: int,
)
    requires
        chan.valid(),
        limit >= 1,
        QueuedConsumerSequencer::<SharedState>::grant((), chan.gates, limit) == Ok::<
            (int, int),
            TryClaimError,
        >((start, end)),
    ensures
        ({
            let held = Channel::claimed::<QueuedConsumerSequencer<SharedState>>((), chan, end).1;
            let done = ChannelView {
                gates: QueuedConsumerSequencer::<SharedState>::committed(
                    (),
                    held.gates,
                    start,
                    end,
                ),
                ..held
            };
            &&& held.valid()
            &&& held.unread() == chan.unread().skip(end - start + 1)
            &&& done.valid()
            &&& done.unread() == held.unread()
            &&& forall|seq: int|
                chan.gates.producer.in_window(seq) ==> #[trigger] done.gates.consumer.consumed(seq)
                    == (chan.gates.consumer.consumed(seq) || start <= seq <= end)
        }),
{
    let held = Channel::claimed::<QueuedConsumerSequencer<SharedState>>((), chan, end).1;
    crate::laws::queue::law_each_item_once(chan, limit, start, end, 1);
    crate::laws::queue::law_finishing_releases_the_slots(held, start, end);
    assert forall|seq: int| #[trigger] held.gates.consumer.consumed(seq)
        == chan.gates.consumer.consumed(seq) by {}
}

/// Receiving up to `limit` items succeeds if and only if there is one. It gives as many of the
/// oldest as were asked for, or all where there are fewer, in order. They are then gone for every
/// other receiver, and finishing it releases exactly their slots. Otherwise nothing changes, as
/// for one item.
pub proof fn law_received_up_to<T>(
    chan: ChannelView<GatesView<SharedView, QueuedView>, T>,
    limit: int,
    answer: Result<ReadIter<'_, QueuedConsumerSequencer<SharedState>, T>, TryRecvAtMostError>,
    consumer: &Consumer<QueuedConsumerSequencer<SharedState>, T>,
    after: &Channel<Gates<SharedState, QueuedSharedState>, T>,
)
    requires
        chan.valid(),
        limit >= 1,
        Consumer::received_up_to((), chan, limit, answer, consumer, after),
    ensures
        answer is Ok <==> chan.unread().len() > 0,
        answer matches Ok(iter) ==> {
            let n = if limit < chan.unread().len() {
                limit
            } else {
                chan.unread().len() as int
            };
            let done = ChannelView {
                gates: QueuedConsumerSequencer::<SharedState>::committed(
                    (),
                    after@.gates,
                    iter.start_seq@,
                    iter.end_seq@,
                ),
                ..after@
            };
            &&& iter.attached(after)
            &&& iter.open(after@.gates)
            &&& iter.rest(after@) == chan.unread().take(n)
            &&& after@.valid()
            &&& after@.unread() == chan.unread().skip(n)
            &&& done.valid()
            &&& done.unread() == after@.unread()
            &&& forall|seq: int|
                chan.gates.producer.in_window(seq) ==> #[trigger] done.gates.consumer.consumed(seq)
                    == (chan.gates.consumer.consumed(seq) || iter.start_seq@ <= seq
                    <= iter.end_seq@)
        },
        answer matches Err(error) ==> {
            &&& after@ == chan
            &&& chan.gates.producer.ended() ==> error == TryRecvAtMostError::Disconnected
            &&& chan.gates.producer.unmarked() ==> error == TryRecvAtMostError::Empty
        },
{
    crate::laws::queue::law_receive_takes_the_oldest(chan, limit);
    lemma_refused_receive(chan, limit);
    if let Ok((start, end)) = QueuedConsumerSequencer::<SharedState>::grant(
        (),
        chan.gates,
        limit,
    ) {
        lemma_taken(chan, limit, start, end);
    }
}

/// Receiving exactly `n` items succeeds if and only if there are as many. It gives the oldest `n`,
/// in order. They are then gone for every other receiver, and finishing it releases exactly their
/// slots. Otherwise nothing changes.
pub proof fn law_received_exactly<T>(
    chan: ChannelView<GatesView<SharedView, QueuedView>, T>,
    n: int,
    answer: Result<ReadIter<'_, QueuedConsumerSequencer<SharedState>, T>, TryRecvError>,
    consumer: &Consumer<QueuedConsumerSequencer<SharedState>, T>,
    after: &Channel<Gates<SharedState, QueuedSharedState>, T>,
)
    requires
        chan.valid(),
        n >= 1,
        Consumer::received_exactly((), chan, n, answer, consumer, after),
    ensures
        answer is Ok <==> chan.unread().len() >= n,
        answer matches Ok(iter) ==> {
            let done = ChannelView {
                gates: QueuedConsumerSequencer::<SharedState>::committed(
                    (),
                    after@.gates,
                    iter.start_seq@,
                    iter.end_seq@,
                ),
                ..after@
            };
            &&& iter.attached(after)
            &&& iter.open(after@.gates)
            &&& iter.rest(after@) == chan.unread().take(n)
            &&& after@.valid()
            &&& after@.unread() == chan.unread().skip(n)
            &&& done.valid()
            &&& done.unread() == after@.unread()
            &&& forall|seq: int|
                chan.gates.producer.in_window(seq) ==> #[trigger] done.gates.consumer.consumed(seq)
                    == (chan.gates.consumer.consumed(seq) || iter.start_seq@ <= seq
                    <= iter.end_seq@)
        },
        answer matches Err(error) ==> {
            &&& after@ == chan
            &&& error == TryRecvError::Disconnected ==> n <= chan.gates.producer.capacity()
                && chan.unread().len() == 0
            &&& n <= chan.gates.producer.capacity() && chan.unread().len() == 0
                && chan.gates.producer.ended() ==> error == TryRecvError::Disconnected
            &&& chan.gates.producer.unmarked() ==> error == TryRecvError::Empty
        },
{
    crate::laws::queue::law_bounded(chan);
    crate::laws::queue::law_receive_takes_the_oldest(chan, n);
    lemma_refused_receive(chan, n);
    if let Ok((start, end)) = QueuedConsumerSequencer::<SharedState>::grant((), chan.gates, n) {
        lemma_taken(chan, n, start, end);
    }
}

} // verus!
