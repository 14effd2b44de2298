//! What the small parts mean: limits, exact claims, capacities, errors, sequence numbers, slots,
//! and channels before anything is sent.

use vstd::prelude::*;
use vstd::std_specs::cmp::{PartialEqSpec, PartialOrdSpec};
use vstd::std_specs::convert::FromSpec;
use vstd::std_specs::ops::{AddSpec, SubSpec};

use crate::channel::{spec_claim_limit, ChannelView};
use crate::errors::{
    TryClaimError, TryRecvAtMostError, TryRecvError, TryReserveError, TrySendAtMostError,
    TrySendError,
};
use crate::ringbuffer::{RingBuffer, RingBufferMeta};
use crate::sequence::Sequence;
use crate::sequencers::con_queue::{QueuedConsumerSequencer, QueuedSharedState, QueuedView};
use crate::sequencers::consumer::DefaultConsumerSequencer;
use crate::sequencers::pub_ex::{ExclusivePubView, ExclusivePublisherSequencer};
use crate::sequencers::pub_mul::{MultiPublisherSequencer, SharedView};
use crate::sequencers::{
    all_or_none, answers, ConsumerBarrier, ConsumerCursors, CursorsView, GatesView,
    ProducerBarrier, Sequencer,
};
use crate::slot_states::U32SlotStates;

verus! {

/// A caller's limit reaches the sequencer as it is, as far as any ring has slots: the smaller of
/// the limit and a capacity is the same before and after.
pub proof fn law_limits_reach_the_sequencer(limit: usize, capacity: int)
    requires
        limit >= 1,
        RingBufferMeta::valid_size(capacity),
    ensures
        spec_claim_limit(limit) >= 1,
        limit <= capacity ==> spec_claim_limit(limit) == limit,
        limit > capacity ==> spec_claim_limit(limit) > capacity,
        limit <= i64::MAX ==> spec_claim_limit(limit) == limit,
        spec_claim_limit(limit) <= limit,
        spec_claim_limit(limit) <= i64::MAX,
{
    RingBufferMeta::lemma_exponent(capacity);
}

/// A claim of exactly `n` sequences is granted if and only if a claim of up to `n` is granted all
/// of them, and then it is the same claim. It is refused as shut down if and only if that one is
/// and `n` fits the ring; every other refusal tells how many sequences were missing.
pub proof fn law_exact_or_nothing(
    n: usize,
    capacity: int,
    grant: Result<(int, int), TryClaimError>,
    start: int,
    end: int,
)
    requires
        n >= 1,
        RingBufferMeta::valid_size(capacity),
        !(grant matches Err(TryClaimError::Insufficient { .. })),
        grant matches Ok((s, e)) ==> 1 <= e - s + 1 <= n && e - s + 1 <= capacity,
    ensures
        ({
            let answer = all_or_none(spec_claim_limit(n), capacity, grant);
            &&& answer == Ok::<(int, int), TryClaimError>((start, end)) <==> grant == Ok::<
                (int, int),
                TryClaimError,
            >((start, end)) && end - start + 1 == n
            &&& answer == Err::<(int, int), TryClaimError>(TryClaimError::Shutdown) <==> n
                <= capacity && grant == Err::<(int, int), TryClaimError>(TryClaimError::Shutdown)
            &&& answer != Err::<(int, int), TryClaimError>(TryClaimError::Empty)
            &&& answer matches Err(TryClaimError::Insufficient { missing }) ==> {
                &&& capacity < n <= i64::MAX ==> missing == n - capacity
                &&& n <= capacity && grant is Err ==> missing == n
                &&& n <= capacity ==> (grant matches Ok((s, e)) ==> missing == n - (e - s + 1))
            }
        }),
{
    RingBufferMeta::lemma_exponent(capacity);
}

/// An answer that is due is the answer that is given: granted where it is granted, with the same
/// first and last sequence, and refused for the same reason where it is refused.
pub proof fn law_answers_are_exact(
    answer: Result<(Sequence, Sequence), TryClaimError>,
    due: Result<(int, int), TryClaimError>,
)
    requires
        answers(answer, due),
    ensures
        answer is Ok <==> due is Ok,
        answer matches Ok((first, last)) ==> due == Ok::<(int, int), TryClaimError>(
            (first@, last@),
        ),
        answer matches Err(error) ==> due == Err::<(int, int), TryClaimError>(error),
{
}

/// The capacities that a ring can have are the powers of two below the number of sequences.
pub proof fn law_capacities_are_powers_of_two(size: int)
    ensures
        RingBufferMeta::valid_size(size) <==> exists|k: nat|
            k < 63 && size == #[trigger] vstd::arithmetic::power2::pow2(k),
{
    if RingBufferMeta::valid_size(size) {
        let k = RingBufferMeta::lemma_exponent(size);
        assert(k < 63 && size == vstd::arithmetic::power2::pow2(k));
    }
    if exists|k: nat| k < 63 && size == #[trigger] vstd::arithmetic::power2::pow2(k) {
        let k = choose|k: nat| k < 63 && size == #[trigger] vstd::arithmetic::power2::pow2(k);
        vstd::arithmetic::power2::lemma2_to64_rest();
        vstd::arithmetic::power2::lemma_pow2_strictly_increases(k, 63);
        vstd::arithmetic::power2::lemma_pow2(k);
        vstd::arithmetic::power2::is_pow2_equiv(size);
        assert(vstd::arithmetic::power::pow(2, k) == size);
    }
}

/// Endpoints tell of a shutdown as of a disconnection, and of nothing else so.
pub proof fn law_only_shutdown_disconnects(cause: TryClaimError)
    ensures
        <TryRecvError as FromSpec<TryClaimError>>::from_spec(cause) == TryRecvError::Disconnected <==> cause
            is Shutdown,
        <TryRecvAtMostError as FromSpec<TryClaimError>>::from_spec(cause) == TryRecvAtMostError::Disconnected <==> cause
            is Shutdown,
        <TrySendAtMostError as FromSpec<TryClaimError>>::from_spec(cause) == TrySendAtMostError::Disconnected <==> cause
            is Shutdown,
        <TryReserveError as FromSpec<TryClaimError>>::from_spec(cause) == TryReserveError::Disconnected <==> cause
            is Shutdown,
        <TrySendError<()> as FromSpec<TryClaimError>>::from_spec(cause)
            == TrySendError::Disconnected(()) <==> cause is Shutdown,
{
}

/// Sequences add, subtract, compare and convert as their numbers do.
pub proof fn law_sequences_are_numbers(seq: Sequence, other: Sequence, n: i64)
    ensures
        i64::MIN <= seq.0 + n <= i64::MAX ==> AddSpec::add_req(seq, n)
            && AddSpec::add_spec(seq, n).0 == seq.0 + n,
        i64::MIN <= seq.0 - n <= i64::MAX ==> SubSpec::sub_req(seq, n)
            && SubSpec::sub_spec(seq, n).0 == seq.0 - n,
        i64::MIN <= seq.0 - other.0 <= i64::MAX ==> SubSpec::sub_req(
            seq,
            other,
        ) && SubSpec::sub_spec(seq, other).0 == seq.0 - other.0,
        seq@ == seq.0,
        PartialEqSpec::eq_spec(&seq, &n) <==> seq.0 == n,
        <Sequence as FromSpec<i64>>::from_spec(n).0 == n,
        <i64 as FromSpec<Sequence>>::from_spec(seq) == seq.0,
{
}

/// Sequences order as their numbers do.
pub proof fn law_sequences_order_as_numbers(seq: Sequence, n: i64)
    ensures
        PartialOrdSpec::partial_cmp_spec(&seq, &n) == Some(core::cmp::Ordering::Less) <==> seq.0
            < n,
        PartialOrdSpec::partial_cmp_spec(&seq, &n) == Some(core::cmp::Ordering::Greater)
            <==> seq.0 > n,
        PartialOrdSpec::partial_cmp_spec(&seq, &n) == Some(core::cmp::Ordering::Equal) <==> seq.0
            == n,
{
}

/// What is written for a sequence is what is found for it, nothing else within a lap changes, and
/// the gates stay as they are.
pub proof fn law_written_is_found<G, T>(
    chan: ChannelView<G, T>,
    seq: int,
    value: T,
    first: int,
    last: int,
)
    requires
        chan.slots.len() >= 1,
    ensures
        chan.written(seq, value).gates == chan.gates,
        chan.written(seq, value).slots.len() == chan.slots.len(),
        chan.written(seq, value).item(seq) == value,
        forall|other: int|
            other != seq && -chan.slots.len() < other - seq < chan.slots.len()
                ==> #[trigger] chan.written(seq, value).item(other) == chan.item(other),
        chan.items(first, last).len() == if first <= last {
            last - first + 1
        } else {
            0
        },
        forall|i: int|
            0 <= i < last - first + 1 ==> #[trigger] chan.items(first, last)[i] == chan.item(
                first + i,
            ),
{
    RingBuffer::lemma_with_item(chan.slots, seq, value, seq);
    assert forall|other: int|
        other != seq && -chan.slots.len() < other - seq < chan.slots.len() implies #[trigger] chan.written(
        seq,
        value,
    ).item(other) == chan.item(other) by {
        RingBuffer::lemma_with_item(chan.slots, seq, value, other);
    }
}

/// A producer can claim until two laps are left of the sequence numbers; a consumer always can.
pub proof fn law_claims_can_be_made<B: ConsumerBarrier, C: ConsumerCursors, P: ProducerBarrier>(
    shared: GatesView<SharedView, B::V>,
    exclusive: GatesView<ExclusivePubView, CursorsView>,
    claimed: int,
    cursors: GatesView<P::V, CursorsView>,
    index: int,
    queued: GatesView<P::V, QueuedView>,
)
    ensures
        shared.producer.claimed <= i64::MAX - 2 * shared.producer.capacity()
            ==> MultiPublisherSequencer::<B>::may_claim((), shared),
        claimed <= i64::MAX - 2 * exclusive.producer.capacity
            ==> ExclusivePublisherSequencer::<C>::may_claim(claimed, exclusive),
        DefaultConsumerSequencer::<P, C>::may_claim(index, cursors),
        QueuedConsumerSequencer::<P>::may_claim((), queued),
{
}

/// Before anything is sent nothing is claimed, everything before the first sequence counts as
/// published, and nothing is marked as ended.
proof fn lemma_fresh(capacity: int)
    requires
        RingBufferMeta::valid_size(capacity),
    ensures
        SharedView::fresh(capacity).sound(),
        SharedView::fresh(capacity).unmarked(),
        SharedView::fresh(capacity).capacity() == capacity,
        SharedView::fresh(capacity).progress().reachable(-1),
        forall|seq: int|
            -capacity <= seq < 0 ==> #[trigger] U32SlotStates::available(
                SharedView::fresh(capacity).states,
                seq,
            ),
{
    let fresh = SharedView::fresh(capacity);
    RingBufferMeta::lemma_exponent(capacity);
    assert forall|seq: int| -capacity <= seq < 0 implies #[trigger] U32SlotStates::available(
        fresh.states,
        seq,
    ) by {
        assert(seq / capacity == -1 && 0 <= seq % capacity < capacity) by {
            vstd::arithmetic::div_mod::lemma_fundamental_div_mod_converse(
                seq,
                capacity,
                -1,
                seq + capacity,
            );
        }
    }
    assert forall|seq: int|
        #![trigger U32SlotStates::state_of(fresh.states, seq)]
        fresh.in_window(seq) implies {
        let lap = U32SlotStates::lap_of(U32SlotStates::state_of(fresh.states, seq));
        ||| lap == U32SlotStates::flag_of(seq, capacity)
        ||| lap == U32SlotStates::flag_of(seq - capacity, capacity)
    } by {
        assert(U32SlotStates::available(fresh.states, seq));
    }
    assert forall|seq: int| -1 - capacity < seq <= -1 implies #[trigger] (fresh.progress().ready)(
        seq,
    ) by {
        assert(U32SlotStates::available(fresh.states, seq));
    }
}

/// A new channel with `n` receivers that see every item holds the slots that it was made with, has
/// one sender and `n` connected receivers with nothing to read and no task waiting, and has every
/// slot free: a claim gets as many as it asks for, up to the capacity.
pub proof fn law_new_channel_is_empty<C: ConsumerCursors, T>(n: int, slots: Seq<T>, limit: int)
    requires
        RingBufferMeta::valid_size(slots.len() as int),
        n >= 1,
        limit >= 1,
    ensures
        crate::mpsc::fresh(slots) == crate::fanout::fresh(1, slots),
        ({
            let chan = crate::fanout::fresh(n, slots);
            &&& chan.slots == slots
            &&& chan.valid()
            &&& chan.settled()
            &&& chan.gates.producer.senders == 1
            &&& !chan.gates.producer.terminated
            &&& chan.gates.producer.unmarked()
            &&& chan.gates.producer.claimed == -1
            &&& chan.gates.consumer.wf()
            &&& chan.gates.consumer.consumed.len() == n
            &&& forall|index: int|
                0 <= index < n ==> {
                    &&& #[trigger] chan.follows(index)
                    &&& chan.unread(index).len() == 0
                    &&& chan.gates.consumer.waiting[index] is None
                    &&& chan.gates.consumer.woken[index].len() == 0
                }
            &&& MultiPublisherSequencer::<C>::grant((), chan.gates, limit) == Ok::<
                (int, int),
                TryClaimError,
            >(
                (
                    0,
                    if limit < slots.len() {
                        limit - 1
                    } else {
                        slots.len() - 1
                    },
                ),
            )
        }),
{
    let chan = crate::fanout::fresh(n, slots);
    let capacity = slots.len() as int;
    lemma_fresh(capacity);
    RingBufferMeta::lemma_exponent(capacity);
    assert forall|seq: int|
        chan.gates.producer.in_window(seq) implies #[trigger] chan.gates.producer.published(seq) by {
        assert(U32SlotStates::available(chan.gates.producer.states, seq));
    }
    assert forall|index: int| 0 <= index < n implies {
        &&& #[trigger] chan.follows(index)
        &&& chan.unread(index).len() == 0
    } by {
        chan.lemma_unread(index);
        chan.lemma_settled(index);
    }
    C::lemma_gated_by_slowest(
        chan.gates.consumer,
        0,
        chan.gates.producer.wanted(limit),
        capacity,
    );
    CursorsView::lemma_slowest(chan.gates.consumer.consumed);
    assert(chan.gates.consumer.consumed[0] == -1);
}

/// A new channel with a single sender holds the slots that it was made with, and has a connected
/// receiver with nothing to read and every slot free.
pub proof fn law_new_single_channel_is_empty<C: ConsumerCursors, T>(slots: Seq<T>, limit: int)
    requires
        RingBufferMeta::valid_size(slots.len() as int),
        limit >= 1,
    ensures
        ({
            let chan = crate::exclusive::spsc::fresh(slots);
            &&& chan.slots == slots
            &&& chan.valid()
            &&& chan.gates.producer.published == -1
            &&& chan.gates.producer.shutdown == i64::MIN
            &&& chan.gates.consumer.wf()
            &&& chan.gates.consumer.consumed.len() == 1
            &&& chan.follows(0)
            &&& chan.unread(0).len() == 0
            &&& ExclusivePublisherSequencer::<C>::grant(-1, chan.gates, limit) == Ok::<
                (int, int),
                TryClaimError,
            >(
                (
                    0,
                    if limit < slots.len() {
                        limit - 1
                    } else {
                        slots.len() - 1
                    },
                ),
            )
        }),
{
    let chan = crate::exclusive::spsc::fresh(slots);
    RingBufferMeta::lemma_exponent(slots.len() as int);
    CursorsView::lemma_slowest(chan.gates.consumer.consumed);
    assert(chan.gates.consumer.consumed[0] == -1);
}

/// A new channel whose receivers compete holds the slots that it was made with, has one endpoint on
/// each side, nothing to receive and every slot free.
pub proof fn law_new_queue_is_empty<T>(slots: Seq<T>, limit: int)
    requires
        RingBufferMeta::valid_size(slots.len() as int),
        limit >= 1,
    ensures
        ({
            let chan = crate::queue::mpmc::fresh(slots);
            &&& chan.slots == slots
            &&& chan.valid()
            &&& chan.settled()
            &&& chan.heard()
            &&& chan.gates.producer.senders == 1
            &&& chan.gates.consumer.receivers == 1
            &&& !chan.gates.producer.terminated
            &&& chan.gates.producer.unmarked()
            &&& chan.gates.producer.claimed == chan.gates.consumer.claimed == -1
            &&& chan.unread().len() == 0
            &&& MultiPublisherSequencer::<QueuedSharedState>::grant((), chan.gates, limit) == Ok::<
                (int, int),
                TryClaimError,
            >(
                (
                    0,
                    if limit < slots.len() {
                        limit - 1
                    } else {
                        slots.len() - 1
                    },
                ),
            )
        }),
{
    let chan = crate::queue::mpmc::fresh(slots);
    let capacity = slots.len() as int;
    let states = chan.gates.consumer.states;
    lemma_fresh(capacity);
    RingBufferMeta::lemma_exponent(capacity);
    assert forall|seq: int|
        chan.gates.producer.in_window(seq) implies #[trigger] chan.gates.producer.published(seq) by {
        assert(U32SlotStates::available(chan.gates.producer.states, seq));
    }
    assert forall|seq: int|
        #![trigger U32SlotStates::state_of(states, seq)]
        -1 - capacity < seq <= -1 implies U32SlotStates::available(states, seq) by {
        assert(U32SlotStates::available(chan.gates.producer.states, seq));
    }
    crate::laws::queue::law_bounded(chan);
    crate::laws::queue::law_refusals(chan, limit);
    let last = chan.gates.producer.wanted(limit) - capacity;
    assert forall|seq: int| -capacity <= seq <= last implies #[trigger] U32SlotStates::available(
        states,
        seq,
    ) by {
        assert(U32SlotStates::available(chan.gates.producer.states, seq));
    }
    U32SlotStates::lemma_run_end_unique(states, -capacity, last, last);
}

/// The receivers of a channel are `N`, each with a position of its own.
pub proof fn law_each_receiver_has_its_position<const N: usize, T>(
    chan: &crate::fanout::Shared<N, T>,
    fans: Seq<crate::fanout::Receiver<N, T>>,
    receivers: Seq<crate::broadcast::Receiver<T, N>>,
)
    ensures
        crate::fanout::complete(chan, fans) ==> {
            &&& fans.len() == N
            &&& forall|i: int|
                0 <= i < N ==> (#[trigger] fans[i]).consumer_sequencer@ == i && chan.serves(
                    &fans[i].consumer_sequencer,
                )
        },
        crate::broadcast::complete(chan, receivers) ==> {
            &&& receivers.len() == N
            &&& forall|i: int|
                0 <= i < N ==> (#[trigger] receivers[i]).inner.consumer_sequencer@ == i
                    && chan.serves(&receivers[i].inner.consumer_sequencer)
        },
{
}

} // verus!
