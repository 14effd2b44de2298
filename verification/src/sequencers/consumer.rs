//! The sequencer of a consumer with a cursor of its own.

use vstd::prelude::*;

use crate::errors::TryClaimError;
use crate::ringbuffer::RingBufferMeta;
use crate::sequence::Sequence;
use crate::sequencers::{
    ConsumerCursors, ConsumerSequencer, CursorsView, Gates, GatesView, Polled, ProducerBarrier,
    Sequencer, SlotState,
};

verus! {

/// The claim that a consumer makes, given its position and what it found in the producers'
/// barrier: everything published past its position.
pub fn plan_take(last_claimed: Sequence, published: SlotState) -> (plan: Result<
    (Sequence, Sequence),
    TryClaimError,
>)
    requires
        last_claimed@ < i64::MAX,
    ensures
        match plan {
            Ok((start_seq, end_seq)) => {
                &&& last_claimed@ < published.seq@
                &&& start_seq@ == last_claimed@ + 1
                &&& end_seq == published.seq
            },
            Err(TryClaimError::Shutdown) => published.seq@ <= last_claimed@ && published.shutdown,
            Err(TryClaimError::Empty) => published.seq@ <= last_claimed@ && !published.shutdown,
            Err(TryClaimError::Insufficient { .. }) => false,
        },
{
    let max_available = published.sequence();
    if max_available.value() <= last_claimed.value() {
        if published.is_shutdown() {
            return Err(TryClaimError::Shutdown);
        } else {
            return Err(TryClaimError::Empty);
        }
    }
    Ok((Sequence::new(last_claimed.value() + 1), max_available))
}

/// The sequencer of a consumer that sees every item.
pub struct DefaultConsumerSequencer<P, C> {
    index: usize,
    ring_meta: RingBufferMeta,
    gates: core::marker::PhantomData<Gates<P, C>>,
}

impl<P, C> View for DefaultConsumerSequencer<P, C> {
    type V = int;

    /// Which of the consumers this is.
    closed spec fn view(&self) -> int {
        self.index as int
    }
}

impl<P: ProducerBarrier, C: ConsumerCursors> DefaultConsumerSequencer<P, C> {
    /// How far the consumer has come.
    pub open spec fn position(index: int, gates: GatesView<P::V, CursorsView>) -> int {
        gates.consumer.consumed[index]
    }

    /// The last sequence that a claim of up to `limit` reaches for.
    pub open spec fn wanted(index: int, gates: GatesView<P::V, CursorsView>, limit: int) -> int {
        let capacity = P::progress(gates.producer).capacity;
        Self::position(index, gates) + if limit < capacity {
            limit
        } else {
            capacity
        }
    }

    /// The gates after the consumer has left: it no longer holds the producers up.
    pub open spec fn left(index: int, gates: GatesView<P::V, CursorsView>) -> GatesView<
        P::V,
        CursorsView,
    > {
        GatesView { consumer: gates.consumer.moved(index, i64::MIN as int), ..gates }
    }

    /// The sequencer of consumer `index` of a channel over `ring_meta`.
    pub fn new(index: usize, ring_meta: RingBufferMeta) -> (sequencer: Self)
        requires
            ring_meta.wf(),
        ensures
            sequencer@ == index,
            sequencer.ring_capacity() == ring_meta.capacity(),
            sequencer.intact(),
    {
        DefaultConsumerSequencer { index, ring_meta, gates: core::marker::PhantomData }
    }

    /// The capacity that this endpoint reckons with.
    pub closed spec fn ring_capacity(&self) -> int {
        self.ring_meta.capacity()
    }

    /// The endpoint's own arithmetic is that of a ring.
    pub closed spec fn intact(&self) -> bool {
        self.ring_meta.wf()
    }

    /// This consumer leaves the channel.
    pub fn disconnect(self, gates: &mut Gates<P, C>)
        requires
            self.attached(old(gates)),
        ensures
            final(gates).inv(),
            final(gates)@ == Self::left(self@, old(gates)@),
    {
        let ghost before = gates@;
        gates.consumer.store(self.index, i64::MIN);
        proof {
            C::lemma_in_step(before.consumer, P::progress(before.producer));
            C::lemma_in_step(gates@.consumer, P::progress(gates@.producer));
            assert forall|index: int|
                0 <= index < gates@.consumer.consumed.len() && #[trigger] gates@.consumer.connected(
                    index,
                ) implies P::progress(gates@.producer).reachable(gates@.consumer.consumed[index]) by {
                assert(before.consumer.connected(index));
            }
        }
    }
}

impl<P: ProducerBarrier, C: ConsumerCursors> Sequencer for DefaultConsumerSequencer<P, C> {
    type Gates = Gates<P, C>;

    open spec fn attached(&self, gates: &Gates<P, C>) -> bool {
        &&& self.intact()
        &&& self.ring_capacity() == P::progress(gates@.producer).capacity
        &&& gates.inv()
        &&& 0 <= self@ < gates@.consumer.consumed.len()
        &&& gates@.consumer.connected(self@)
    }

    open spec fn capacity(gates: GatesView<P::V, CursorsView>) -> int {
        P::progress(gates.producer).capacity
    }

    open spec fn may_claim(endpoint: int, gates: GatesView<P::V, CursorsView>) -> bool {
        true
    }

    open spec fn grant(endpoint: int, gates: GatesView<P::V, CursorsView>, limit: int) -> Result<
        (int, int),
        TryClaimError,
    > {
        let position = Self::position(endpoint, gates);
        let (last, shutdown) = P::published_until(
            gates.producer,
            position + 1,
            Self::wanted(endpoint, gates, limit),
        );
        if last > position {
            Ok((position + 1, last))
        } else if shutdown {
            Err(TryClaimError::Shutdown)
        } else {
            Err(TryClaimError::Empty)
        }
    }

    open spec fn granted(endpoint: int, gates: GatesView<P::V, CursorsView>, end: int) -> (
        int,
        GatesView<P::V, CursorsView>,
    ) {
        (endpoint, gates)
    }

    open spec fn outstanding(
        endpoint: int,
        gates: GatesView<P::V, CursorsView>,
        start: int,
        end: int,
    ) -> bool {
        &&& 0 <= start == Self::position(endpoint, gates) + 1
        &&& start <= end
        &&& P::progress(gates.producer).reachable(end)
    }

    open spec fn committed(
        endpoint: int,
        gates: GatesView<P::V, CursorsView>,
        start: int,
        end: int,
    ) -> GatesView<P::V, CursorsView> {
        GatesView { consumer: gates.consumer.moved(endpoint, end), ..gates }
    }

    proof fn lemma_grant(&self, gates: &Gates<P, C>, limit: int) {
        gates.producer.lemma_sound();
        let progress = P::progress(gates@.producer);
        C::lemma_in_step(gates@.consumer, progress);
        let position = Self::position(self@, gates@);
        assert(progress.reachable(position));
        RingBufferMeta::lemma_exponent(progress.capacity);
        P::lemma_published_until(gates@.producer, position, Self::wanted(self@, gates@, limit));
        assert(Self::capacity(gates@) == progress.capacity);
        if let Ok((start, end)) = Self::grant(self@, gates@, limit) {
            let after = Self::granted(self@, gates@, end);
            assert(Self::capacity(after.1) == progress.capacity);
            assert(Self::outstanding(after.0, after.1, start, end));
        }
    }

    fn can_claim(&self, gates: &Gates<P, C>) -> (can: bool) {
        true
    }

    fn try_claim_at_most(&mut self, gates: &mut Gates<P, C>, limit: i64) -> (claim: Result<
        (Sequence, Sequence),
        TryClaimError,
    >) {
        proof {
            gates.producer.lemma_sound();
            C::lemma_in_step(gates@.consumer, P::progress(gates@.producer));
            assert(P::progress(gates@.producer).reachable(Self::position(self@, gates@)));
            RingBufferMeta::lemma_exponent(P::progress(gates@.producer).capacity);
        }
        let position = gates.consumer.load(self.index);
        let capacity = self.ring_meta.buffer_size();
        let n = if limit < capacity {
            limit
        } else {
            capacity
        };
        let published = gates.producer.max_published(
            Sequence::new(position + 1),
            Sequence::new(position + n),
        );
        plan_take(Sequence::new(position), published)
    }

    fn try_claim_n(&mut self, gates: &mut Gates<P, C>, n: i64) -> (claim: Result<
        (Sequence, Sequence),
        TryClaimError,
    >) {
        proof {
            self.lemma_grant(gates, n as int);
            RingBufferMeta::lemma_exponent(Self::capacity(gates@));
        }
        let capacity = self.ring_meta.buffer_size();
        if n > capacity {
            return Err(TryClaimError::Insufficient { missing: n - capacity });
        }
        match self.try_claim_at_most(gates, n) {
            Ok((start_seq, end_seq)) => {
                let found: i64 = end_seq.value() - start_seq.value() + 1;
                if found == n {
                    Ok((start_seq, end_seq))
                } else {
                    Err(TryClaimError::Insufficient { missing: n - found })
                }
            },
            Err(TryClaimError::Empty) => Err(TryClaimError::Insufficient { missing: n }),
            Err(error) => Err(error),
        }
    }

    fn commit(&self, gates: &mut Gates<P, C>, seq: Sequence) {
        self.commit_range(gates, seq, seq);
    }

    fn commit_range(&self, gates: &mut Gates<P, C>, start_seq: Sequence, end_seq: Sequence) {
        let ghost before = gates@;
        gates.consumer.store(self.index, end_seq.value());
        proof {
            C::lemma_in_step(before.consumer, P::progress(before.producer));
            C::lemma_in_step(gates@.consumer, P::progress(gates@.producer));
            assert forall|index: int|
                0 <= index < gates@.consumer.consumed.len() && #[trigger] gates@.consumer.connected(
                    index,
                ) implies P::progress(gates@.producer).reachable(gates@.consumer.consumed[index]) by {
                if index != self@ {
                    assert(before.consumer.connected(index));
                }
            }
        }
    }
}

impl<P: ProducerBarrier, C: ConsumerCursors> ConsumerSequencer for DefaultConsumerSequencer<P, C> {
    open spec fn waits(endpoint: int, gates: GatesView<P::V, CursorsView>, task: int) -> GatesView<
        P::V,
        CursorsView,
    > {
        GatesView { consumer: gates.consumer.registered(endpoint, task), ..gates }
    }

    fn poll_claim_at_most(
        &mut self,
        gates: &mut Gates<P, C>,
        limit: i64,
        waker: &std::task::Waker,
    ) -> (polled: Polled<Result<(Sequence, Sequence), TryClaimError>>) {
        let ghost before = gates@;
        match self.try_claim_at_most(gates, limit) {
            Ok(claim) => return Polled::Ready(Ok(claim)),
            Err(TryClaimError::Empty) => {},
            Err(error) => return Polled::Ready(Err(error)),
        }
        gates.consumer.register(self.index, waker);
        proof {
            C::lemma_in_step(before.consumer, P::progress(before.producer));
            C::lemma_in_step(gates@.consumer, P::progress(gates@.producer));
            assert forall|index: int|
                0 <= index < gates@.consumer.consumed.len() && #[trigger] gates@.consumer.connected(
                    index,
                ) implies P::progress(gates@.producer).reachable(gates@.consumer.consumed[index]) by {
                assert(before.consumer.connected(index));
            }
            assert(Self::capacity(gates@) == Self::capacity(before));
            assert(Self::grant(self@, gates@, limit as int) == Self::grant(
                self@,
                before,
                limit as int,
            ));
        }
        match self.try_claim_at_most(gates, limit) {
            Ok(claim) => Polled::Ready(Ok(claim)),
            Err(TryClaimError::Empty) => Polled::Pending,
            Err(error) => Polled::Ready(Err(error)),
        }
    }
}

} // verus!
