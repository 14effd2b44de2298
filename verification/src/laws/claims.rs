//! Open claims are not disturbed by the steps of other endpoints.

use vstd::prelude::*;

use crate::errors::TryClaimError;
use crate::ringbuffer::RingBufferMeta;
use crate::sequencers::consumer::DefaultConsumerSequencer;
use crate::sequencers::pub_mul::{MultiPublisherSequencer, SharedState, SharedView};
use crate::sequencers::{ConsumerBarrier, ConsumerCursors, CursorsView, GatesView, Sequencer};
use crate::slot_states::U32SlotStates;

verus! {

/// A granted claim shares no sequence with a claim that is open, and both are open afterwards.
pub proof fn law_claims_are_disjoint<C: ConsumerBarrier>(
    gates: GatesView<SharedView, C::V>,
    start: int,
    end: int,
    limit: int,
    next_start: int,
    next_end: int,
)
    requires
        gates.producer.sound(),
        C::in_step(gates.consumer, gates.producer.progress()),
        MultiPublisherSequencer::<C>::may_claim((), gates),
        limit >= 1,
        MultiPublisherSequencer::<C>::outstanding((), gates, start, end),
        MultiPublisherSequencer::<C>::grant((), gates, limit) == Ok::<(int, int), TryClaimError>(
            (next_start, next_end),
        ),
    ensures
        end < next_start,
        MultiPublisherSequencer::<C>::outstanding(
            (),
            MultiPublisherSequencer::<C>::granted((), gates, next_end).1,
            start,
            end,
        ),
        MultiPublisherSequencer::<C>::outstanding(
            (),
            MultiPublisherSequencer::<C>::granted((), gates, next_end).1,
            next_start,
            next_end,
        ),
{
    let producer = gates.producer;
    let progress = producer.progress();
    let wanted = producer.wanted(limit);
    RingBufferMeta::lemma_exponent(producer.capacity());
    C::lemma_consumed_until(gates.consumer, progress, wanted);
    let consumed = C::consumed_until(
        gates.consumer,
        producer.claimed + 1,
        wanted,
        producer.capacity(),
    ).0;
    if start <= consumed {
        assert((progress.ready)(start));
        assert(producer.published(start));
    }
    assert forall|seq: int|
        producer.claimed - producer.capacity() < seq <= next_end
            - producer.capacity() implies #[trigger] producer.published(seq) by {
        assert((progress.ready)(seq));
    }
    producer.lemma_claim(next_end);
    let later = producer.claim(next_end);
    assert forall|seq: int| start <= seq <= end implies !#[trigger] later.published(seq) by {
        assert(!producer.published(seq));
    }
    assert forall|seq: int| next_start <= seq <= next_end implies !#[trigger] later.published(
        seq,
    ) by {}
}

/// Committing one open claim leaves every other one open, and the order of two commits does
/// not matter for what is published.
pub proof fn law_commits_are_independent<C: ConsumerBarrier>(
    gates: GatesView<SharedView, C::V>,
    start: int,
    end: int,
    other_start: int,
    other_end: int,
)
    requires
        gates.producer.sound(),
        MultiPublisherSequencer::<C>::outstanding((), gates, start, end),
        MultiPublisherSequencer::<C>::outstanding((), gates, other_start, other_end),
        end < other_start || other_end < start,
    ensures
        MultiPublisherSequencer::<C>::outstanding(
            (),
            MultiPublisherSequencer::<C>::committed((), gates, start, end),
            other_start,
            other_end,
        ),
        forall|seq: int|
            gates.producer.in_window(seq) ==> #[trigger] MultiPublisherSequencer::<C>::committed(
                (),
                MultiPublisherSequencer::<C>::committed((), gates, start, end),
                other_start,
                other_end,
            ).producer.published(seq) == MultiPublisherSequencer::<C>::committed(
                (),
                MultiPublisherSequencer::<C>::committed((), gates, other_start, other_end),
                start,
                end,
            ).producer.published(seq),
{
    let producer = gates.producer;
    let first = producer.commit(start, end);
    let second = producer.commit(other_start, other_end);
    producer.lemma_commit(start, end);
    producer.lemma_commit(other_start, other_end);
    if !producer.terminated {
        RingBufferMeta::lemma_exponent(producer.capacity());
        U32SlotStates::lemma_with_range(producer.states, start, end);
        U32SlotStates::lemma_with_range(producer.states, other_start, other_end);
    }
    assert forall|seq: int| other_start <= seq <= other_end implies !#[trigger] first.published(
        seq,
    ) by {
        assert(producer.in_window(seq));
        assert(!producer.published(seq));
    }
    assert forall|seq: int| start <= seq <= end implies !#[trigger] second.published(seq) by {
        assert(producer.in_window(seq));
        assert(!producer.published(seq));
    }
    assert(first.outstanding(other_start, other_end));
    assert(second.outstanding(start, end));
    first.lemma_commit(other_start, other_end);
    second.lemma_commit(start, end);
    assert forall|seq: int| producer.in_window(seq) implies #[trigger] first.commit(
        other_start,
        other_end,
    ).published(seq) == second.commit(start, end).published(seq) by {
        assert(first.in_window(seq) && second.in_window(seq));
        assert(second.commit(start, end).published(seq) == (second.published(seq) || (
        !second.terminated && start <= seq <= end)));
        assert(first.published(seq) == (producer.published(seq) || (!producer.terminated && start
            <= seq <= end)));
        assert(second.published(seq) == (producer.published(seq) || (!producer.terminated
            && other_start <= seq <= other_end)));
    }
}

/// An open claim stays open while senders come and go and when the senders are terminated.
pub proof fn law_open_claims_outlive_others<C: ConsumerBarrier>(
    gates: GatesView<SharedView, C::V>,
    start: int,
    end: int,
)
    requires
        gates.producer.sound(),
        MultiPublisherSequencer::<C>::outstanding((), gates, start, end),
    ensures
        MultiPublisherSequencer::<C>::outstanding(
            (),
            GatesView {
                producer: SharedView {
                    senders: gates.producer.senders + 1,
                    ..gates.producer
                },
                ..gates
            },
            start,
            end,
        ),
        MultiPublisherSequencer::<C>::outstanding(
            (),
            MultiPublisherSequencer::<C>::left(gates),
            start,
            end,
        ),
        MultiPublisherSequencer::<C>::outstanding(
            (),
            MultiPublisherSequencer::<C>::stopped(gates),
            start,
            end,
        ),
{
    let producer = gates.producer;
    RingBufferMeta::lemma_exponent(producer.capacity());
    let more = SharedView { senders: producer.senders + 1, ..producer };
    producer.lemma_same_slots(more);
    lemma_closing_keeps_claims(producer, start, end);
    let fewer = SharedView { senders: (producer.senders - 1) as nat, ..producer };
    producer.lemma_same_slots(fewer);
    assert(fewer.sound());
    assert(fewer.outstanding(start, end)) by {
        assert forall|seq: int| start <= seq <= end implies !#[trigger] fewer.published(seq) by {
            assert(!producer.published(seq));
        }
    }
    lemma_closing_keeps_claims(fewer, start, end);
    assert(more.outstanding(start, end)) by {
        assert forall|seq: int| start <= seq <= end implies !#[trigger] more.published(seq) by {
            assert(!producer.published(seq));
        }
    }
    if !producer.terminated {
        let stopped = producer.terminate();
        assert forall|seq: int| start <= seq <= end implies !#[trigger] stopped.published(seq) by {
            assert(!producer.closed().published(seq));
        }
    }
}

/// An open claim can still be committed after receivers have left, registered or finished.
pub proof fn law_open_claims_outlive_receivers<C: ConsumerCursors>(
    gates: GatesView<SharedView, CursorsView>,
    start: int,
    end: int,
    index: int,
    read_start: int,
    read_end: int,
    task: int,
)
    requires
        MultiPublisherSequencer::<C>::outstanding((), gates, start, end),
    ensures
        MultiPublisherSequencer::<C>::outstanding(
            (),
            DefaultConsumerSequencer::<SharedState, C>::left(index, gates),
            start,
            end,
        ),
        MultiPublisherSequencer::<C>::outstanding(
            (),
            DefaultConsumerSequencer::<SharedState, C>::committed(
                index,
                gates,
                read_start,
                read_end,
            ),
            start,
            end,
        ),
        MultiPublisherSequencer::<C>::outstanding(
            (),
            GatesView { consumer: gates.consumer.registered(index, task), ..gates },
            start,
            end,
        ),
{
}

/// The shutdown mark publishes nothing.
proof fn lemma_closing_keeps_claims(producer: SharedView, start: int, end: int)
    requires
        producer.sound(),
        producer.outstanding(start, end),
    ensures
        producer.closed().outstanding(start, end),
{
    RingBufferMeta::lemma_exponent(producer.capacity());
    U32SlotStates::lemma_with_mark(producer.states, producer.boundary());
    assert forall|seq: int| start <= seq <= end implies !#[trigger] producer.closed().published(
        seq,
    ) by {
        assert(!producer.published(seq));
        assert(U32SlotStates::lap_of(U32SlotStates::state_of(producer.closed().states, seq))
            == U32SlotStates::lap_of(U32SlotStates::state_of(producer.states, seq)));
    }
}

/// No sender holds a slot that a receiver is reading: the slots of an open claim and those of
/// an open read are different.
pub proof fn law_reads_are_not_overwritten<C: ConsumerCursors>(
    gates: GatesView<SharedView, CursorsView>,
    start: int,
    end: int,
    index: int,
    read_start: int,
    read_end: int,
    written: int,
    read: int,
)
    requires
        gates.producer.sound(),
        MultiPublisherSequencer::<C>::outstanding((), gates, start, end),
        DefaultConsumerSequencer::<SharedState, C>::outstanding(
            index,
            gates,
            read_start,
            read_end,
        ),
        gates.producer.progress().reachable(gates.consumer.consumed[index]),
        start <= written <= end,
        read_start <= read <= read_end,
    ensures
        RingBufferMeta::slot_of(written, gates.producer.capacity()) != RingBufferMeta::slot_of(
            read,
            gates.producer.capacity(),
        ),
{
    let producer = gates.producer;
    assert((producer.progress().ready)(read));
    assert(producer.published(read));
    assert(!producer.published(written));
    RingBufferMeta::lemma_slots_distinct(written, read, producer.capacity());
}

/// An open read stays open while senders claim and commit.
pub proof fn law_open_reads_outlive_sends<C: ConsumerCursors>(
    gates: GatesView<SharedView, CursorsView>,
    index: int,
    read_start: int,
    read_end: int,
    limit: int,
    start: int,
    end: int,
)
    requires
        gates.producer.sound(),
        gates.consumer.in_step(gates.producer.progress()),
        0 <= index < gates.consumer.consumed.len(),
        gates.consumer.connected(index),
        limit >= 1,
        MultiPublisherSequencer::<C>::may_claim((), gates),
        DefaultConsumerSequencer::<SharedState, C>::outstanding(
            index,
            gates,
            read_start,
            read_end,
        ),
    ensures
        MultiPublisherSequencer::<C>::grant((), gates, limit) == Ok::<(int, int), TryClaimError>(
            (start, end),
        ) ==> DefaultConsumerSequencer::<SharedState, C>::outstanding(
            index,
            MultiPublisherSequencer::<C>::granted((), gates, end).1,
            read_start,
            read_end,
        ),
        MultiPublisherSequencer::<C>::outstanding((), gates, start, end)
            ==> DefaultConsumerSequencer::<SharedState, C>::outstanding(
            index,
            MultiPublisherSequencer::<C>::committed((), gates, start, end),
            read_start,
            read_end,
        ),
{
    let producer = gates.producer;
    let progress = producer.progress();
    RingBufferMeta::lemma_exponent(producer.capacity());
    C::lemma_gated_by_slowest(
        gates.consumer,
        producer.claimed + 1,
        producer.wanted(limit),
        producer.capacity(),
    );
    CursorsView::lemma_slowest(gates.consumer.consumed);
    assert(progress.reachable(gates.consumer.consumed[index]));
    if MultiPublisherSequencer::<C>::grant((), gates, limit) == Ok::<(int, int), TryClaimError>(
        (start, end),
    ) {
        gates.consumer.lemma_consumed_until(progress);
        assert forall|seq: int|
            producer.claimed - producer.capacity() < seq <= end
                - producer.capacity() implies #[trigger] producer.published(seq) by {
            assert((progress.ready)(seq));
        }
        producer.lemma_claim(end);
        let later = producer.claim(end).progress();
        assert forall|seq: int|
            later.frontier - later.capacity < seq <= read_end implies #[trigger] (later.ready)(
            seq,
        ) by {
            assert((progress.ready)(seq));
        }
    }
    if producer.outstanding(start, end) {
        producer.lemma_commit(start, end);
        let later = producer.commit(start, end).progress();
        assert forall|seq: int|
            later.frontier - later.capacity < seq <= read_end implies #[trigger] (later.ready)(
            seq,
        ) by {
            assert((progress.ready)(seq));
        }
    }
}

/// An open read stays open while senders arrive and leave, be it the last one, and when they are
/// terminated.
pub proof fn law_open_reads_outlive_senders<C: ConsumerCursors>(
    gates: GatesView<SharedView, CursorsView>,
    index: int,
    read_start: int,
    read_end: int,
)
    requires
        gates.producer.sound(),
        0 <= index < gates.consumer.consumed.len(),
        gates.consumer.connected(index),
        DefaultConsumerSequencer::<SharedState, C>::outstanding(
            index,
            gates,
            read_start,
            read_end,
        ),
    ensures
        DefaultConsumerSequencer::<SharedState, C>::outstanding(
            index,
            GatesView {
                producer: SharedView {
                    senders: gates.producer.senders + 1,
                    ..gates.producer
                },
                ..gates
            },
            read_start,
            read_end,
        ),
        DefaultConsumerSequencer::<SharedState, C>::outstanding(
            index,
            MultiPublisherSequencer::<C>::left(gates),
            read_start,
            read_end,
        ),
        DefaultConsumerSequencer::<SharedState, C>::outstanding(
            index,
            MultiPublisherSequencer::<C>::stopped(gates),
            read_start,
            read_end,
        ),
{
    let producer = gates.producer;
    let more = SharedView { senders: producer.senders + 1, ..producer };
    let fewer = SharedView { senders: (producer.senders - 1) as nat, ..producer };
    C::lemma_gated_by_slowest(gates.consumer, 0, 0, 1);
    producer.lemma_same_slots(more);
    producer.lemma_same_slots(fewer);
    fewer.lemma_closed();
    lemma_still_passed(producer, more, read_end);
    lemma_still_passed(producer, fewer, read_end);
    lemma_still_passed(producer, fewer.closed(), read_end);
    if !producer.terminated {
        producer.lemma_terminated();
        lemma_still_passed(producer, producer.terminate(), read_end);
    }
}

/// A receiver can have come as far as before where nothing more is claimed and nothing less is
/// published.
proof fn lemma_still_passed(producer: SharedView, later: SharedView, position: int)
    requires
        producer.progress().passed(position),
        later.claimed == producer.claimed,
        later.capacity() == producer.capacity(),
        producer.progress().commits_to(later.progress()),
    ensures
        later.progress().passed(position),
{
    assert forall|seq: int|
        later.claimed - later.capacity() < seq <= position implies #[trigger] (
    later.progress().ready)(seq) by {
        assert((producer.progress().ready)(seq));
    }
}

/// An open read stays open while another receiver finishes, registers or leaves.
pub proof fn law_open_reads_outlive_receivers<C: ConsumerCursors>(
    gates: GatesView<SharedView, CursorsView>,
    index: int,
    read_start: int,
    read_end: int,
    other: int,
    start: int,
    end: int,
    task: int,
)
    requires
        0 <= index < gates.consumer.consumed.len(),
        0 <= other < gates.consumer.consumed.len(),
        index != other,
        DefaultConsumerSequencer::<SharedState, C>::outstanding(
            index,
            gates,
            read_start,
            read_end,
        ),
    ensures
        DefaultConsumerSequencer::<SharedState, C>::outstanding(
            index,
            DefaultConsumerSequencer::<SharedState, C>::committed(other, gates, start, end),
            read_start,
            read_end,
        ),
        DefaultConsumerSequencer::<SharedState, C>::outstanding(
            index,
            DefaultConsumerSequencer::<SharedState, C>::left(other, gates),
            read_start,
            read_end,
        ),
        DefaultConsumerSequencer::<SharedState, C>::outstanding(
            index,
            GatesView { consumer: gates.consumer.registered(other, task), ..gates },
            read_start,
            read_end,
        ),
{
}

} // verus!
