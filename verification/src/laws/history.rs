//! What holds over every history of steps of the endpoints that share a channel.

use vstd::prelude::*;

use crate::channel::ChannelView;
use crate::errors::TryClaimError;
use crate::laws::lifecycle::lemma_publishing_marks_nothing;
use crate::sequencers::con_queue::{QueuedConsumerSequencer, QueuedSharedState, QueuedView};
use crate::sequencers::consumer::DefaultConsumerSequencer;
use crate::sequencers::pub_ex::{ExclusivePubView, ExclusivePublisherSequencer};
use crate::sequencers::pub_mul::{MultiPublisherSequencer, SharedState, SharedView};
use crate::sequencers::{
    all_or_none, ConsumerBarrier, ConsumerCursors, CursorsView, GatesView, ProducerBarrier,
    Sequencer,
};
use crate::slot_states::U32SlotStates;

verus! {

/// One step in the history of a channel, seen from the endpoints of one side.
pub enum Step<V> {
    /// An endpoint attempts to claim up to `limit` sequences.
    Claim { limit: int },
    /// An endpoint attempts to claim exactly `n` sequences.
    ClaimExactly { n: int },
    /// An endpoint commits `[start, end]`.
    Commit { start: int, end: int },
    /// An endpoint is cloned.
    Arrive,
    /// An endpoint leaves.
    Leave,
    /// An endpoint stops all endpoints of its side.
    Terminate,
    /// The opposite side does something, after which its barrier records this.
    Opposite { view: V },
}

/// The claims follow each other from the first sequence to `last` without gap or overlap.
pub open spec fn tile(claims: Seq<(int, int)>, last: int) -> bool {
    &&& forall|i: int| 0 <= i < claims.len() ==> (#[trigger] claims[i]).0 <= claims[i].1
    &&& forall|i: int|
        0 <= i < claims.len() ==> (#[trigger] claims[i]).0 == if i == 0 {
            0
        } else {
            claims[i - 1].1 + 1
        }
    &&& last == if claims.len() == 0 {
        -1
    } else {
        claims.last().1
    }
}

/// Some claim holds `seq`.
pub open spec fn covered(claims: Seq<(int, int)>, seq: int) -> bool {
    exists|i: int| 0 <= i < claims.len() && (#[trigger] claims[i]).0 <= seq <= claims[i].1
}

/// Claims that tile are pairwise disjoint and later ones lie higher; every sequence up to the
/// last is in one of them.
pub proof fn lemma_tile(claims: Seq<(int, int)>, last: int)
    requires
        tile(claims, last),
    ensures
        forall|i: int, j: int|
            0 <= i < j < claims.len() ==> (#[trigger] claims[i]).1 < (#[trigger] claims[j]).0,
        forall|seq: int| 0 <= seq <= last ==> #[trigger] covered(claims, seq),
    decreases claims.len(),
{
    if claims.len() > 0 {
        let others = claims.drop_last();
        let before = claims.last().0 - 1;
        assert forall|i: int| 0 <= i < others.len() implies #[trigger] others[i] == claims[i] by {}
        assert(claims[claims.len() - 1] == claims.last());
        assert(tile(others, before)) by {
            assert forall|i: int| 0 <= i < others.len() implies (#[trigger] others[i]).0 == if i
                == 0 {
                0
            } else {
                others[i - 1].1 + 1
            } by {
                assert(claims[i].0 == others[i].0);
            }
        }
        lemma_tile(others, before);
        assert forall|i: int, j: int| 0 <= i < j < claims.len() implies (#[trigger] claims[i]).1 < (
        #[trigger] claims[j]).0 by {
            if j < others.len() {
                assert(others[i].1 < others[j].0);
            } else if i < others.len() - 1 {
                assert(others[i].1 < others[others.len() - 1].0);
            }
        }
        assert forall|seq: int| 0 <= seq <= last implies #[trigger] covered(claims, seq) by {
            if seq <= before {
                assert(covered(others, seq));
                let i = choose|i: int|
                    0 <= i < others.len() && (#[trigger] others[i]).0 <= seq <= others[i].1;
                assert(claims[i].0 <= seq <= claims[i].1);
            } else {
                assert(claims[claims.len() - 1].0 <= seq <= claims[claims.len() - 1].1);
            }
        }
    }
}

/// The endpoints of one side of a channel, as their claims follow each other.
pub trait Claimants: Sequencer {
    /// What the barrier of the opposite side records.
    type Opposite;

    /// The last sequence that an endpoint of this side has claimed.
    spec fn last_claimed(endpoint: Self::V, gates: <Self::Gates as View>::V) -> int;

    /// No claim is granted any more.
    spec fn shut(endpoint: Self::V, gates: <Self::Gates as View>::V) -> bool;

    /// Whether a step other than a claim can be taken: only what is open is committed, and only
    /// an endpoint that is there is cloned or leaves.
    spec fn open_to(
        endpoint: Self::V,
        gates: <Self::Gates as View>::V,
        step: Step<Self::Opposite>,
    ) -> bool;

    /// The gates after a step other than a claim.
    spec fn moved(
        endpoint: Self::V,
        gates: <Self::Gates as View>::V,
        step: Step<Self::Opposite>,
    ) -> <Self::Gates as View>::V;

    /// A granted claim starts right after what is claimed and is not empty.
    proof fn lemma_claimed(endpoint: Self::V, gates: <Self::Gates as View>::V, limit: int)
        requires
            Self::capacity(gates) >= 1,
            limit >= 1,
        ensures
            Self::grant(endpoint, gates, limit) matches Ok((start, end)) ==> {
                let after = Self::granted(endpoint, gates, end);
                &&& !Self::shut(endpoint, gates)
                &&& Self::last_claimed(endpoint, gates) + 1 == start <= end
                &&& Self::last_claimed(after.0, after.1) == end
            },
            Self::grant(endpoint, gates, limit) matches Ok((start, end)) ==> Self::capacity(
                Self::granted(endpoint, gates, end).1,
            ) == Self::capacity(gates),
    ;

    /// No other step claims anything or lets claims be granted again.
    proof fn lemma_moved(
        endpoint: Self::V,
        gates: <Self::Gates as View>::V,
        step: Step<Self::Opposite>,
    )
        requires
            Self::capacity(gates) >= 1,
            Self::open_to(endpoint, gates, step),
        ensures
            Self::capacity(Self::moved(endpoint, gates, step)) == Self::capacity(gates),
            !Self::shut(endpoint, Self::moved(endpoint, gates, step)) ==> {
                &&& !Self::shut(endpoint, gates)
                &&& Self::last_claimed(endpoint, Self::moved(endpoint, gates, step))
                    == Self::last_claimed(endpoint, gates)
            },
    ;
}

/// The claim that a step is granted, if it is one and is granted.
pub open spec fn claim_of<S: Claimants>(
    endpoint: S::V,
    gates: <S::Gates as View>::V,
    step: Step<S::Opposite>,
) -> Option<(int, int)> {
    match step {
        Step::Claim { limit } => S::grant(endpoint, gates, limit).ok(),
        Step::ClaimExactly { n } => all_or_none(
            n,
            S::capacity(gates),
            S::grant(endpoint, gates, n),
        ).ok(),
        _ => None,
    }
}

/// Whether a step can be taken.
pub open spec fn possible<S: Claimants>(
    endpoint: S::V,
    gates: <S::Gates as View>::V,
    step: Step<S::Opposite>,
) -> bool {
    match step {
        Step::Claim { limit } => limit >= 1,
        Step::ClaimExactly { n } => n >= 1,
        _ => S::open_to(endpoint, gates, step),
    }
}

/// The endpoint and the gates after a step.
pub open spec fn after<S: Claimants>(
    endpoint: S::V,
    gates: <S::Gates as View>::V,
    step: Step<S::Opposite>,
) -> (S::V, <S::Gates as View>::V) {
    match step {
        Step::Claim { .. } | Step::ClaimExactly { .. } => match claim_of::<S>(
            endpoint,
            gates,
            step,
        ) {
            Some((start, end)) => S::granted(endpoint, gates, end),
            None => (endpoint, gates),
        },
        _ => (endpoint, S::moved(endpoint, gates, step)),
    }
}

/// The endpoint and the gates after a history of steps.
pub open spec fn reached<S: Claimants>(
    endpoint: S::V,
    gates: <S::Gates as View>::V,
    steps: Seq<Step<S::Opposite>>,
) -> (S::V, <S::Gates as View>::V)
    decreases steps.len(),
{
    if steps.len() == 0 {
        (endpoint, gates)
    } else {
        let before = reached::<S>(endpoint, gates, steps.drop_last());
        after::<S>(before.0, before.1, steps.last())
    }
}

/// Whether each step of a history can be taken where it stands.
pub open spec fn feasible<S: Claimants>(
    endpoint: S::V,
    gates: <S::Gates as View>::V,
    steps: Seq<Step<S::Opposite>>,
) -> bool
    decreases steps.len(),
{
    steps.len() > 0 ==> {
        let before = reached::<S>(endpoint, gates, steps.drop_last());
        &&& feasible::<S>(endpoint, gates, steps.drop_last())
        &&& possible::<S>(before.0, before.1, steps.last())
    }
}

/// The claims that are granted in the course of a history, in their order.
pub open spec fn claims<S: Claimants>(
    endpoint: S::V,
    gates: <S::Gates as View>::V,
    steps: Seq<Step<S::Opposite>>,
) -> Seq<(int, int)>
    decreases steps.len(),
{
    if steps.len() == 0 {
        Seq::empty()
    } else {
        let before = reached::<S>(endpoint, gates, steps.drop_last());
        let earlier = claims::<S>(endpoint, gates, steps.drop_last());
        match claim_of::<S>(before.0, before.1, steps.last()) {
            Some(claim) => earlier.push(claim),
            None => earlier,
        }
    }
}

/// Over every history of the endpoints of one side, and of whatever the opposite side does
/// meanwhile, the claims that are granted follow each other from the first sequence on: they
/// are pairwise disjoint and leave no gap. As long as claims can be granted, the last one ends
/// at the last claimed sequence.
pub proof fn law_claims_tile<S: Claimants>(
    endpoint: S::V,
    gates: <S::Gates as View>::V,
    steps: Seq<Step<S::Opposite>>,
)
    requires
        S::capacity(gates) >= 1,
        S::last_claimed(endpoint, gates) == -1,
        feasible::<S>(endpoint, gates, steps),
    ensures
        ({
            let claims = claims::<S>(endpoint, gates, steps);
            let end = reached::<S>(endpoint, gates, steps);
            let last = if claims.len() == 0 {
                -1
            } else {
                claims.last().1
            };
            &&& tile(claims, last)
            &&& forall|i: int, j: int|
                0 <= i < j < claims.len() ==> (#[trigger] claims[i]).1 < (#[trigger] claims[j]).0
            &&& forall|seq: int| 0 <= seq <= last ==> #[trigger] covered(claims, seq)
            &&& !S::shut(end.0, end.1) ==> S::last_claimed(end.0, end.1) == last
            &&& S::capacity(end.1) == S::capacity(gates)
        }),
    decreases steps.len(),
{
    let all = claims::<S>(endpoint, gates, steps);
    let last = if all.len() == 0 {
        -1
    } else {
        all.last().1
    };
    if steps.len() > 0 {
        let earlier = claims::<S>(endpoint, gates, steps.drop_last());
        let before = reached::<S>(endpoint, gates, steps.drop_last());
        law_claims_tile::<S>(endpoint, gates, steps.drop_last());
        match steps.last() {
            Step::Claim { limit } => {
                S::lemma_claimed(before.0, before.1, limit);
            },
            Step::ClaimExactly { n } => {
                S::lemma_claimed(before.0, before.1, n);
            },
            _ => {
                S::lemma_moved(before.0, before.1, steps.last());
            },
        }
        if let Some(claim) = claim_of::<S>(before.0, before.1, steps.last()) {
            assert(all == earlier.push(claim));
            assert forall|i: int| 0 <= i < earlier.len() implies #[trigger] all[i]
                == earlier[i] by {}
            assert forall|i: int| 0 <= i < all.len() implies (#[trigger] all[i]).0 == if i == 0 {
                0
            } else {
                all[i - 1].1 + 1
            } by {
                if i < earlier.len() {
                    assert(earlier[i].0 == all[i].0);
                }
            }
        }
    }
    lemma_tile(all, last);
}

impl<C: ConsumerBarrier> Claimants for MultiPublisherSequencer<C> {
    type Opposite = C::V;

    open spec fn last_claimed(endpoint: (), gates: GatesView<SharedView, C::V>) -> int {
        gates.producer.claimed
    }

    open spec fn shut(endpoint: (), gates: GatesView<SharedView, C::V>) -> bool {
        gates.producer.terminated
    }

    open spec fn open_to(
        endpoint: (),
        gates: GatesView<SharedView, C::V>,
        step: Step<C::V>,
    ) -> bool {
        match step {
            Step::Commit { start, end } => Self::outstanding((), gates, start, end),
            Step::Arrive | Step::Leave => gates.producer.senders >= 1,
            _ => true,
        }
    }

    open spec fn moved(
        endpoint: (),
        gates: GatesView<SharedView, C::V>,
        step: Step<C::V>,
    ) -> GatesView<SharedView, C::V> {
        match step {
            Step::Commit { start, end } => Self::committed((), gates, start, end),
            Step::Arrive => GatesView {
                producer: SharedView { senders: gates.producer.senders + 1, ..gates.producer },
                ..gates
            },
            Step::Leave => Self::left(gates),
            Step::Terminate => Self::stopped(gates),
            Step::Opposite { view } => GatesView { consumer: view, ..gates },
            _ => gates,
        }
    }

    proof fn lemma_claimed(endpoint: (), gates: GatesView<SharedView, C::V>, limit: int) {
    }

    proof fn lemma_moved(endpoint: (), gates: GatesView<SharedView, C::V>, step: Step<C::V>) {
        let producer = gates.producer;
        let left = SharedView { senders: (producer.senders - 1) as nat, ..producer };
        if let Step::Commit { start, end } = step {
            U32SlotStates::lemma_with_range(producer.states, start, end);
        }
        U32SlotStates::lemma_with_mark(left.states, left.boundary());
        U32SlotStates::lemma_with_mark(producer.states, producer.boundary());
    }
}

impl<C: ConsumerCursors> Claimants for ExclusivePublisherSequencer<C> {
    type Opposite = CursorsView;

    open spec fn last_claimed(
        endpoint: int,
        gates: GatesView<ExclusivePubView, CursorsView>,
    ) -> int {
        endpoint
    }

    open spec fn shut(endpoint: int, gates: GatesView<ExclusivePubView, CursorsView>) -> bool {
        false
    }

    open spec fn open_to(
        endpoint: int,
        gates: GatesView<ExclusivePubView, CursorsView>,
        step: Step<CursorsView>,
    ) -> bool {
        match step {
            Step::Commit { start, end } => Self::outstanding(endpoint, gates, start, end),
            Step::Opposite { .. } => true,
            _ => false,
        }
    }

    open spec fn moved(
        endpoint: int,
        gates: GatesView<ExclusivePubView, CursorsView>,
        step: Step<CursorsView>,
    ) -> GatesView<ExclusivePubView, CursorsView> {
        match step {
            Step::Commit { start, end } => Self::committed(endpoint, gates, start, end),
            Step::Opposite { view } => GatesView { consumer: view, ..gates },
            _ => gates,
        }
    }

    proof fn lemma_claimed(
        endpoint: int,
        gates: GatesView<ExclusivePubView, CursorsView>,
        limit: int,
    ) {
    }

    proof fn lemma_moved(
        endpoint: int,
        gates: GatesView<ExclusivePubView, CursorsView>,
        step: Step<CursorsView>,
    ) {
    }
}

impl<P: ProducerBarrier> Claimants for QueuedConsumerSequencer<P> {
    type Opposite = P::V;

    open spec fn last_claimed(endpoint: (), gates: GatesView<P::V, QueuedView>) -> int {
        gates.consumer.claimed
    }

    open spec fn shut(endpoint: (), gates: GatesView<P::V, QueuedView>) -> bool {
        false
    }

    open spec fn open_to(
        endpoint: (),
        gates: GatesView<P::V, QueuedView>,
        step: Step<P::V>,
    ) -> bool {
        match step {
            Step::Commit { start, end } => Self::outstanding((), gates, start, end),
            Step::Arrive | Step::Leave => gates.consumer.receivers >= 1,
            Step::Opposite { view } => P::progress(view).capacity == P::progress(
                gates.producer,
            ).capacity,
            _ => false,
        }
    }

    open spec fn moved(
        endpoint: (),
        gates: GatesView<P::V, QueuedView>,
        step: Step<P::V>,
    ) -> GatesView<P::V, QueuedView> {
        match step {
            Step::Commit { start, end } => Self::committed((), gates, start, end),
            Step::Arrive => GatesView {
                consumer: QueuedView { receivers: gates.consumer.receivers + 1, ..gates.consumer },
                ..gates
            },
            Step::Leave => Self::left(gates),
            Step::Opposite { view } => GatesView { producer: view, ..gates },
            _ => gates,
        }
    }

    proof fn lemma_claimed(endpoint: (), gates: GatesView<P::V, QueuedView>, limit: int) {
    }

    proof fn lemma_moved(endpoint: (), gates: GatesView<P::V, QueuedView>, step: Step<P::V>) {
    }
}

/// Over every history of several senders and of whatever the consumers do meanwhile, a claim
/// that is granted starts right after the last one that was, is not empty, takes no more than
/// was asked for and no more than a lap, and ends within a lap of what the consumers have
/// consumed: a slot that is not consumed is not claimed again.
pub proof fn law_claims_stay_within_a_lap<C: ConsumerBarrier>(
    gates: GatesView<SharedView, C::V>,
    capacity: int,
    steps: Seq<Step<C::V>>,
    limit: int,
    start: int,
    end: int,
)
    requires
        capacity >= 1,
        gates.producer == SharedView::fresh(capacity),
        feasible::<MultiPublisherSequencer<C>>((), gates, steps),
        limit >= 1,
        MultiPublisherSequencer::<C>::grant(
            (),
            reached::<MultiPublisherSequencer<C>>((), gates, steps).1,
            limit,
        ) == Ok::<(int, int), TryClaimError>((start, end)),
    ensures
        ({
            let earlier = claims::<MultiPublisherSequencer<C>>((), gates, steps);
            let now = reached::<MultiPublisherSequencer<C>>((), gates, steps).1;
            let consumed = C::consumed_until(
                now.consumer,
                start,
                now.producer.wanted(limit),
                capacity,
            ).0;
            &&& start == if earlier.len() == 0 {
                0
            } else {
                earlier.last().1 + 1
            }
            &&& start <= end
            &&& end - start + 1 <= limit
            &&& end - start + 1 <= capacity
            &&& end <= consumed + capacity
        }),
{
    law_claims_tile::<MultiPublisherSequencer<C>>((), gates, steps);
}

/// Over every history, the producers' slots carry no shutdown mark while a sender is left and
/// the senders are not terminated.
pub proof fn law_no_mark_while_a_sender_is_left<C: ConsumerBarrier>(
    gates: GatesView<SharedView, C::V>,
    capacity: int,
    steps: Seq<Step<C::V>>,
)
    requires
        capacity >= 1,
        gates.producer == SharedView::fresh(capacity),
        feasible::<MultiPublisherSequencer<C>>((), gates, steps),
    ensures
        ({
            let producer = reached::<MultiPublisherSequencer<C>>((), gates, steps).1.producer;
            producer.senders >= 1 && !producer.terminated ==> producer.unmarked()
        }),
    decreases steps.len(),
{
    if steps.len() > 0 {
        law_no_mark_while_a_sender_is_left::<C>(gates, capacity, steps.drop_last());
        law_claims_tile::<MultiPublisherSequencer<C>>((), gates, steps.drop_last());
        let before = reached::<MultiPublisherSequencer<C>>((), gates, steps.drop_last()).1.producer;
        if let Step::Commit { start, end } = steps.last() {
            if before.unmarked() {
                lemma_publishing_marks_nothing(before.states, start, end);
            }
        }
    }
}

/// Whatever came before, while a sender is left and the senders are not terminated no receiver
/// that sees every item is told that it is disconnected.
pub proof fn law_connected_while_a_sender_is_left<C: ConsumerCursors, T>(
    gates: GatesView<SharedView, CursorsView>,
    capacity: int,
    steps: Seq<Step<CursorsView>>,
    chan: ChannelView<GatesView<SharedView, CursorsView>, T>,
    index: int,
    limit: int,
)
    requires
        capacity >= 1,
        gates.producer == SharedView::fresh(capacity),
        feasible::<MultiPublisherSequencer<C>>((), gates, steps),
        chan.gates == reached::<MultiPublisherSequencer<C>>((), gates, steps).1,
        chan.valid(),
        chan.follows(index),
        chan.gates.producer.senders >= 1,
        !chan.gates.producer.terminated,
        limit >= 1,
    ensures
        DefaultConsumerSequencer::<SharedState, C>::grant(index, chan.gates, limit) != Err::<
            (int, int),
            TryClaimError,
        >(TryClaimError::Shutdown),
{
    law_no_mark_while_a_sender_is_left::<C>(gates, capacity, steps);
    crate::laws::lifecycle::law_no_early_end::<C, T>(chan, index, limit);
}

/// Whatever came before, while a sender is left and the senders are not terminated no competing
/// receiver is told that it is disconnected.
pub proof fn law_queue_connected_while_a_sender_is_left<T>(
    gates: GatesView<SharedView, QueuedView>,
    capacity: int,
    steps: Seq<Step<QueuedView>>,
    chan: ChannelView<GatesView<SharedView, QueuedView>, T>,
    limit: int,
)
    requires
        capacity >= 1,
        gates.producer == SharedView::fresh(capacity),
        feasible::<MultiPublisherSequencer<QueuedSharedState>>((), gates, steps),
        chan.gates == reached::<MultiPublisherSequencer<QueuedSharedState>>((), gates, steps).1,
        chan.valid(),
        chan.gates.producer.senders >= 1,
        !chan.gates.producer.terminated,
        limit >= 1,
    ensures
        QueuedConsumerSequencer::<SharedState>::grant((), chan.gates, limit) != Err::<
            (int, int),
            TryClaimError,
        >(TryClaimError::Shutdown),
{
    law_no_mark_while_a_sender_is_left::<QueuedSharedState>(gates, capacity, steps);
    crate::laws::queue::law_no_early_end(chan, limit);
}

/// Over every history of competing receivers and of whatever the senders do meanwhile, the
/// consumers' slots carry no shutdown mark while a receiver is left.
pub proof fn law_no_mark_while_a_receiver_is_left<P: ProducerBarrier>(
    gates: GatesView<P::V, QueuedView>,
    capacity: int,
    steps: Seq<Step<P::V>>,
)
    requires
        capacity >= 1,
        gates.consumer == QueuedView::fresh(capacity),
        feasible::<QueuedConsumerSequencer<P>>((), gates, steps),
    ensures
        ({
            let consumer = reached::<QueuedConsumerSequencer<P>>((), gates, steps).1.consumer;
            &&& consumer.states.len() == capacity
            &&& consumer.receivers >= 1 ==> consumer.unmarked()
        }),
    decreases steps.len(),
{
    if steps.len() > 0 {
        law_no_mark_while_a_receiver_is_left::<P>(gates, capacity, steps.drop_last());
        let before = reached::<QueuedConsumerSequencer<P>>((), gates, steps.drop_last()).1.consumer;
        if let Step::Commit { start, end } = steps.last() {
            lemma_publishing_length(before.states, start, end);
            if before.unmarked() {
                lemma_publishing_marks_nothing(before.states, start, end);
            }
        }
    }
}

/// Publishing leaves the number of slots as it is.
proof fn lemma_publishing_length(states: Seq<u32>, start: int, end: int)
    requires
        states.len() >= 1,
    ensures
        U32SlotStates::with_range(states, start, end).len() == states.len(),
    decreases end - start + 1,
{
    if start <= end {
        lemma_publishing_length(states, start, end - 1);
        U32SlotStates::lemma_with_published(
            U32SlotStates::with_range(states, start, end - 1),
            end,
        );
    }
}

} // verus!
