//! The sequencing protocol between the two sides of a channel.
//!
//! A channel is coordinated by two gates:
//!
//! - the producers' barrier, in which producers record what they have claimed and committed and
//!   from which consumers learn what they may read ([`ProducerBarrier`]);
//! - the consumers' barrier, in which consumers record what they have consumed and from which
//!   producers learn what they may overwrite ([`ConsumerBarrier`]).
//!
//! Each endpoint holds a [`Sequencer`], which claims and commits sequences against the two
//! gates. Every method is one step of the protocol. The steps of different endpoints follow
//! each other in any order, so an endpoint may claim, leave its claim open while the others go
//! on, and commit later.

pub mod con_ex;
pub mod con_fanout;
pub mod con_queue;
pub mod consumer;
pub mod pub_ex;
pub mod pub_mul;

use vstd::prelude::*;

use crate::errors::TryClaimError;
use crate::ringbuffer::RingBufferMeta;
use crate::sequence::Sequence;

verus! {

/// The last contiguous available sequence of a scan, together with a shutdown flag.
#[derive(Debug, Clone, Copy, PartialEq, Eq, Structural)]
pub struct SlotState {
    pub seq: Sequence,
    pub shutdown: bool,
}

impl View for SlotState {
    type V = (int, bool);

    open spec fn view(&self) -> (int, bool) {
        (self.seq@, self.shutdown)
    }
}

impl SlotState {
    /// The state with both parts given.
    pub fn new(seq: Sequence, shutdown: bool) -> (state: Self)
        ensures
            state == (SlotState { seq, shutdown }),
    {
        SlotState { seq, shutdown }
    }

    /// The last available sequence.
    pub fn sequence(self) -> (seq: Sequence)
        ensures
            seq == self.seq,
    {
        self.seq
    }

    /// Whether the opposite side has shut down.
    pub fn is_shutdown(self) -> (shutdown: bool)
        ensures
            shutdown == self.shutdown,
    {
        self.shutdown
    }
}

/// How far the producers have come.
pub struct Progress {
    /// The last sequence that a producer has claimed.
    pub frontier: int,
    /// The number of slots in the ring.
    pub capacity: int,
    /// Which sequences of the lap that ends at the frontier are committed.
    pub ready: spec_fn(int) -> bool,
}

impl Progress {
    /// The capacity is one that a ring can have, and the next lap has sequence numbers.
    pub open spec fn wf(self) -> bool {
        &&& RingBufferMeta::valid_size(self.capacity)
        &&& -1 <= self.frontier
        &&& self.frontier + self.capacity <= i64::MAX
    }

    /// Whether a consumer can have consumed everything up to `position`.
    pub open spec fn reachable(self, position: int) -> bool {
        -1 <= position && self.passed(position)
    }

    /// Whether `position` is no more than a lap behind the frontier, and every sequence of the
    /// lap up to it is committed.
    pub open spec fn passed(self, position: int) -> bool {
        &&& self.frontier - self.capacity <= position <= self.frontier
        &&& forall|seq: int|
            self.frontier - self.capacity < seq <= position ==> #[trigger] (self.ready)(seq)
    }

    /// The last sequence of the unbroken run of committed ones that follows `position`;
    /// `position` itself where the next one is not committed.
    pub open spec fn run(self, position: int) -> int
        decreases self.frontier - position,
    {
        if position < self.frontier && (self.ready)(position + 1) {
            self.run(position + 1)
        } else {
            position
        }
    }

    /// A run holds committed sequences only, and it ends at the frontier or before one that is
    /// not committed. Every position on it has the same run.
    pub proof fn lemma_run(self, position: int)
        requires
            position <= self.frontier,
        ensures
            position <= self.run(position) <= self.frontier,
            forall|seq: int|
                position < seq <= self.run(position) ==> #[trigger] (self.ready)(seq),
            self.run(position) < self.frontier ==> !(self.ready)(self.run(position) + 1),
            forall|on: int|
                position <= on <= self.run(position) ==> #[trigger] self.run(on) == self.run(
                    position,
                ),
        decreases self.frontier - position,
    {
        if position < self.frontier && (self.ready)(position + 1) {
            self.lemma_run(position + 1);
            assert forall|seq: int| position < seq <= self.run(position) implies #[trigger] (
            self.ready)(seq) by {
                if seq > position + 1 {
                    assert((self.ready)(seq));
                }
            }
        }
    }

    /// Committed sequences up to the frontier, or up to one that is not committed, are a run.
    pub proof fn lemma_run_unique(self, position: int, last: int)
        requires
            position <= last <= self.frontier,
            forall|seq: int| position < seq <= last ==> #[trigger] (self.ready)(seq),
            last < self.frontier ==> !(self.ready)(last + 1),
        ensures
            self.run(position) == last,
        decreases self.frontier - position,
    {
        if position < last {
            assert((self.ready)(position + 1));
            self.lemma_run_unique(position + 1, last);
        }
    }

    /// Whether `later` is exactly what claiming up to `end` makes of this.
    pub open spec fn extends_to(self, later: Progress, end: int) -> bool {
        &&& later.frontier == end >= self.frontier
        &&& later.capacity == self.capacity
        &&& forall|seq: int|
            end - self.capacity < seq <= self.frontier ==> #[trigger] (later.ready)(seq) == (
            self.ready)(seq)
        &&& forall|seq: int| self.frontier < seq <= end ==> !#[trigger] (later.ready)(seq)
    }

    /// Whether `later` is exactly what committing `[start, end]` makes of this.
    pub open spec fn publishes_to(self, later: Progress, start: int, end: int) -> bool {
        &&& later.frontier == self.frontier
        &&& later.capacity == self.capacity
        &&& forall|seq: int|
            self.frontier - self.capacity < seq <= self.frontier ==> #[trigger] (later.ready)(seq)
                == ((self.ready)(seq) || start <= seq <= end)
    }

    /// A claim ends no run and continues none.
    pub proof fn lemma_extended_run(self, later: Progress, end: int, position: int)
        requires
            self.extends_to(later, end),
            end - self.capacity <= position <= self.frontier,
        ensures
            later.run(position) == self.run(position),
    {
        self.lemma_run(position);
        let last = self.run(position);
        assert forall|seq: int| position < seq <= last implies #[trigger] (later.ready)(seq) by {
            assert((self.ready)(seq));
        }
        later.lemma_run_unique(position, last);
    }

    /// A commit that continues a run makes it longer by the whole range; any other commit
    /// leaves the run as it is, or joins it to what follows.
    pub proof fn lemma_published_run(self, later: Progress, start: int, end: int, position: int)
        requires
            self.publishes_to(later, start, end),
            self.frontier - self.capacity <= position <= self.frontier,
            start <= end <= self.frontier,
        ensures
            self.run(position) <= later.run(position),
            start > self.run(position) + 1 ==> later.run(position) == self.run(position),
            start == self.run(position) + 1 ==> later.run(position) >= end,
            start == self.run(position) + 1 ==> later.run(position) == self.run(end),
    {
        self.lemma_run(position);
        later.lemma_run(position);
        let last = self.run(position);
        assert forall|seq: int| position < seq <= last implies #[trigger] (later.ready)(seq) by {
            assert((self.ready)(seq));
        }
        if later.run(position) < last {
            assert((later.ready)(later.run(position) + 1));
        }
        if start > last + 1 {
            if last < self.frontier {
                assert(!(later.ready)(last + 1));
            }
            later.lemma_run_unique(position, last);
        }
        if start == last + 1 {
            self.lemma_run(end);
            let joined = self.run(end);
            assert forall|seq: int| position < seq <= joined implies #[trigger] (later.ready)(seq) by {
                if seq > end {
                    assert((self.ready)(seq));
                }
            }
            if joined < self.frontier {
                assert(!(self.ready)(joined + 1));
                assert(!(later.ready)(joined + 1));
            }
            later.lemma_run_unique(position, joined);
        }
    }

    /// Whether `later` has the same frontier and all that is committed here.
    pub open spec fn commits_to(self, later: Progress) -> bool {
        &&& later.frontier == self.frontier
        &&& later.capacity == self.capacity
        &&& forall|seq: int|
            self.frontier - self.capacity < seq <= self.frontier && (self.ready)(seq)
                ==> #[trigger] (later.ready)(seq)
    }

    /// Whether `later` is what claiming up to `end` makes of this.
    pub open spec fn claims_to(self, later: Progress, end: int) -> bool {
        &&& later.frontier == end
        &&& later.capacity == self.capacity
        &&& forall|seq: int|
            end - self.capacity < seq <= self.frontier && (self.ready)(seq)
                ==> #[trigger] (later.ready)(seq)
    }
}

/// The producers' barrier: prevents consumers from reading what is not published.
pub trait ProducerBarrier: View + Sized {
    /// The barrier's representation is intact.
    spec fn wf(&self) -> bool;

    /// What holds of the barrier between steps.
    spec fn sound(gate: Self::V) -> bool;

    /// How far the producers have come.
    spec fn progress(gate: Self::V) -> Progress;

    /// The last sequence of `[next, end]` up to which all are published (`next - 1` where
    /// `next` is not), and whether the producers have shut down there.
    spec fn published_until(gate: Self::V, next: int, end: int) -> (int, bool);

    /// An intact barrier is sound.
    proof fn lemma_sound(&self)
        requires
            self.wf(),
        ensures
            Self::sound(self@),
            Self::progress(self@).wf(),
    ;

    /// A consumer that takes what is published stays within reach and skips nothing.
    proof fn lemma_published_until(gate: Self::V, position: int, end: int)
        requires
            Self::sound(gate),
            Self::progress(gate).reachable(position),
            position < end <= position + Self::progress(gate).capacity,
        ensures
            position <= Self::published_until(gate, position + 1, end).0 <= end,
            Self::progress(gate).reachable(Self::published_until(gate, position + 1, end).0),
            forall|seq: int|
                position < seq <= Self::published_until(gate, position + 1, end).0
                    ==> #[trigger] (Self::progress(gate).ready)(seq),
            Self::published_until(gate, position + 1, end).0 < end ==> !(Self::progress(
                gate,
            ).ready)(Self::published_until(gate, position + 1, end).0 + 1),
    ;

    /// Finds the last published sequence of `[next_seq, end_seq]`.
    fn max_published(&self, next_seq: Sequence, end_seq: Sequence) -> (state: SlotState)
        requires
            self.wf(),
            Self::progress(self@).reachable(next_seq@ - 1),
            next_seq@ <= end_seq@ < next_seq@ + Self::progress(self@).capacity,
        ensures
            state@ == Self::published_until(self@, next_seq@, end_seq@),
    ;
}

/// What a consumer at `position` finds published is the run that follows it, as far as it
/// looks.
pub proof fn lemma_published_run<P: ProducerBarrier>(gate: P::V, position: int, end: int)
    requires
        P::sound(gate),
        P::progress(gate).reachable(position),
        position < end <= position + P::progress(gate).capacity,
    ensures
        P::published_until(gate, position + 1, end).0 == if P::progress(gate).run(position) < end {
            P::progress(gate).run(position)
        } else {
            end
        },
{
    let progress = P::progress(gate);
    P::lemma_published_until(gate, position, end);
    let last = P::published_until(gate, position + 1, end).0;
    progress.lemma_run(position);
    if last < end {
        progress.lemma_run_unique(position, last);
    } else if progress.run(position) < end {
        assert((progress.ready)(progress.run(position) + 1));
    }
}

/// The consumers' barrier: prevents producers from overwriting what is not consumed.
pub trait ConsumerBarrier: View + Sized {
    /// The barrier's representation is intact.
    spec fn wf(&self) -> bool;

    /// The consumers are where the producers' progress lets them be.
    spec fn in_step(gate: Self::V, progress: Progress) -> bool;

    /// The last sequence up to which all are consumed, as far as it bears on claiming
    /// `[next, end]`, and whether the consumers are gone.
    spec fn consumed_until(gate: Self::V, next: int, end: int, capacity: int) -> (int, bool);

    /// The barrier after the tasks that wait for consumers are woken.
    spec fn notified(gate: Self::V) -> Self::V;

    /// What is consumed was committed, and lies at most a lap behind the frontier.
    proof fn lemma_consumed_until(gate: Self::V, progress: Progress, end: int)
        requires
            progress.wf(),
            Self::in_step(gate, progress),
            progress.frontier < end <= progress.frontier + progress.capacity,
            !Self::consumed_until(gate, progress.frontier + 1, end, progress.capacity).1,
        ensures
            progress.passed(
                Self::consumed_until(gate, progress.frontier + 1, end, progress.capacity).0,
            ),
    ;

    /// Claiming no further than a lap past what is consumed leaves the consumers in step.
    proof fn lemma_claim_in_step(
        gate: Self::V,
        progress: Progress,
        end: int,
        later: Progress,
        claimed: int,
    )
        requires
            progress.wf(),
            Self::in_step(gate, progress),
            progress.frontier < claimed <= end <= progress.frontier + progress.capacity,
            !Self::consumed_until(gate, progress.frontier + 1, end, progress.capacity).1,
            claimed <= Self::consumed_until(
                gate,
                progress.frontier + 1,
                end,
                progress.capacity,
            ).0 + progress.capacity,
            progress.claims_to(later, claimed),
        ensures
            Self::in_step(gate, later),
    ;

    /// Before the first claim the consumers are in step with a claim of the first sequence.
    proof fn lemma_first_claim_in_step(gate: Self::V, progress: Progress, later: Progress)
        requires
            progress.wf(),
            Self::in_step(gate, progress),
            progress.frontier == -1,
            forall|seq: int|
                -1 - progress.capacity < seq <= -1 ==> #[trigger] (progress.ready)(seq),
            progress.claims_to(later, 0),
        ensures
            Self::in_step(gate, later),
    ;

    /// Committing more leaves the consumers in step, and so does waking them.
    proof fn lemma_commit_in_step(gate: Self::V, progress: Progress, later: Progress)
        requires
            progress.wf(),
            Self::in_step(gate, progress),
            progress.commits_to(later),
        ensures
            Self::in_step(gate, later),
            Self::in_step(Self::notified(gate), later),
    ;

    /// Finds how far everything is consumed.
    fn max_consumed(&self, next_seq: Sequence, end_seq: Sequence, capacity: i64) -> (state:
        SlotState)
        requires
            self.wf(),
            RingBufferMeta::valid_size(capacity as int),
            -1 < next_seq@ <= end_seq@,
        ensures
            state@ == Self::consumed_until(self@, next_seq@, end_seq@, capacity as int),
    ;

    /// Wakes the consumers that wait.
    fn notify(&mut self)
        requires
            old(self).wf(),
        ensures
            final(self).wf(),
            final(self)@ == Self::notified(old(self)@),
    ;
}

/// The positions of a fixed number of consumers, each of which sees every item.
pub struct CursorsView {
    /// How far each consumer has come; `i64::MIN` where it has left.
    pub consumed: Seq<int>,
    /// The task that waits for each consumer, if one does.
    pub waiting: Seq<Option<int>>,
    /// The tasks that were woken for each consumer, in their order.
    pub woken: Seq<Seq<int>>,
}

impl CursorsView {
    /// `n` consumers that have consumed nothing, do not wait and were never woken.
    pub open spec fn fresh(n: int) -> CursorsView {
        CursorsView {
            consumed: Seq::new(n as nat, |i: int| -1int),
            waiting: Seq::new(n as nat, |i: int| None),
            woken: Seq::new(n as nat, |i: int| Seq::empty()),
        }
    }

    /// Whether consumer `index` has not left.
    pub open spec fn connected(self, index: int) -> bool {
        self.consumed[index] != i64::MIN
    }

    /// There is one entry of each kind for each consumer, and positions are sequence numbers.
    pub open spec fn wf(self) -> bool {
        &&& self.waiting.len() == self.consumed.len()
        &&& self.woken.len() == self.consumed.len()
        &&& forall|index: int|
            0 <= index < self.consumed.len() ==> i64::MIN <= #[trigger] self.consumed[index]
                <= i64::MAX
    }

    /// Every connected consumer is where the producers' progress lets it be.
    pub open spec fn in_step(self, progress: Progress) -> bool {
        forall|index: int|
            0 <= index < self.consumed.len() && #[trigger] self.connected(index)
                ==> progress.reachable(self.consumed[index])
    }

    /// The least of the positions of the connected consumers; `i64::MIN` where all have left.
    pub open spec fn slowest(consumed: Seq<int>) -> int
        decreases consumed.len(),
    {
        if consumed.len() == 0 {
            i64::MIN as int
        } else {
            let others = Self::slowest(consumed.drop_last());
            let last = consumed.last();
            if last == i64::MIN {
                others
            } else if others == i64::MIN || last < others {
                last
            } else {
                others
            }
        }
    }

    /// The task that waits for each consumer, if one does, is woken and waits no longer.
    pub open spec fn notified(self) -> CursorsView {
        CursorsView {
            waiting: Seq::new(self.waiting.len(), |i: int| None),
            woken: Seq::new(
                self.waiting.len(),
                |i: int|
                    match self.waiting[i] {
                        Some(task) => self.woken[i].push(task),
                        None => self.woken[i],
                    },
            ),
            ..self
        }
    }

    /// Consumer `index` stands at `position`.
    pub open spec fn moved(self, index: int, position: int) -> CursorsView {
        CursorsView { consumed: self.consumed.update(index, position), ..self }
    }

    /// The task `task` waits for consumer `index`.
    pub open spec fn registered(self, index: int, task: int) -> CursorsView {
        CursorsView { waiting: self.waiting.update(index, Some(task)), ..self }
    }

    /// The slowest position is that of a connected consumer, and no connected one is behind
    /// it; without a connected consumer there is none.
    pub proof fn lemma_slowest(consumed: Seq<int>)
        ensures
            Self::slowest(consumed) == i64::MIN <==> (forall|i: int|
                0 <= i < consumed.len() ==> #[trigger] consumed[i] == i64::MIN),
            Self::slowest(consumed) != i64::MIN ==> {
                &&& exists|i: int|
                    0 <= i < consumed.len() && #[trigger] consumed[i] == Self::slowest(consumed)
                &&& forall|i: int|
                    0 <= i < consumed.len() && #[trigger] consumed[i] != i64::MIN
                        ==> Self::slowest(consumed) <= consumed[i]
            },
        decreases consumed.len(),
    {
        if consumed.len() > 0 {
            let others = consumed.drop_last();
            Self::lemma_slowest(others);
            assert forall|i: int| 0 <= i < others.len() implies #[trigger] others[i]
                == consumed[i] by {}
            assert(consumed[consumed.len() - 1] == consumed.last());
            if Self::slowest(others) != i64::MIN {
                let i = choose|i: int|
                    0 <= i < others.len() && #[trigger] others[i] == Self::slowest(others);
                assert(consumed[i] == Self::slowest(others));
            }
            if Self::slowest(consumed) == i64::MIN {
                assert forall|i: int| 0 <= i < consumed.len() implies #[trigger] consumed[i]
                    == i64::MIN by {
                    if i < others.len() {
                        assert(others[i] == i64::MIN);
                    }
                }
            } else {
                assert forall|i: int|
                    0 <= i < consumed.len() && #[trigger] consumed[i]
                        != i64::MIN implies Self::slowest(consumed) <= consumed[i] by {
                    if i < others.len() {
                        assert(others[i] != i64::MIN);
                    }
                }
                if forall|i: int| 0 <= i < consumed.len() ==> #[trigger] consumed[i] == i64::MIN {
                    assert(forall|i: int| 0 <= i < others.len() ==> #[trigger] others[i] == i64::MIN);
                }
            }
        }
    }

    /// What is consumed was committed, and lies at most a lap behind the frontier.
    pub proof fn lemma_consumed_until(self, progress: Progress)
        requires
            self.in_step(progress),
            Self::slowest(self.consumed) != i64::MIN,
        ensures
            progress.reachable(Self::slowest(self.consumed)),
    {
        Self::lemma_slowest(self.consumed);
        let i = choose|i: int|
            0 <= i < self.consumed.len() && #[trigger] self.consumed[i] == Self::slowest(
                self.consumed,
            );
        assert(self.connected(i));
    }

    /// Claiming no further than a lap past the slowest consumer leaves all of them in step.
    pub proof fn lemma_claim_in_step(self, progress: Progress, later: Progress, claimed: int)
        requires
            self.in_step(progress),
            progress.frontier < claimed,
            progress.frontier == -1 || Self::slowest(self.consumed) != i64::MIN,
            claimed <= Self::slowest(self.consumed) + progress.capacity || (progress.frontier == -1
                && claimed == 0 && progress.capacity >= 1),
            progress.claims_to(later, claimed),
        ensures
            self.in_step(later),
    {
        Self::lemma_slowest(self.consumed);
        assert forall|index: int|
            0 <= index < self.consumed.len() && #[trigger] self.connected(
                index,
            ) implies later.reachable(self.consumed[index]) by {
            let position = self.consumed[index];
            assert(progress.reachable(position));
            assert forall|seq: int|
                later.frontier - later.capacity < seq <= position implies #[trigger] (later.ready)(
                seq,
            ) by {
                assert((progress.ready)(seq));
            }
        }
    }

    /// Committing more leaves the consumers in step, and so does waking them.
    pub proof fn lemma_commit_in_step(self, progress: Progress, later: Progress)
        requires
            self.in_step(progress),
            progress.commits_to(later),
        ensures
            self.in_step(later),
            self.notified().in_step(later),
    {
        assert forall|index: int|
            0 <= index < self.consumed.len() && #[trigger] self.connected(
                index,
            ) implies later.reachable(self.consumed[index]) by {
            let position = self.consumed[index];
            assert(progress.reachable(position));
            assert forall|seq: int|
                later.frontier - later.capacity < seq <= position implies #[trigger] (later.ready)(
                seq,
            ) by {
                assert((progress.ready)(seq));
            }
        }
        assert forall|index: int|
            0 <= index < self.notified().consumed.len() && #[trigger] self.notified().connected(
                index,
            ) implies later.reachable(self.notified().consumed[index]) by {
            assert(self.connected(index));
        }
    }
}

/// A consumers' barrier that keeps one cursor for each consumer.
pub trait ConsumerCursors: ConsumerBarrier + View<V = CursorsView> {
    /// The cursors are those that the view shows.
    proof fn lemma_cursors(&self)
        requires
            self.wf(),
        ensures
            self@.wf(),
    ;

    /// The barrier's invariant is that of its cursors.
    proof fn lemma_in_step(gate: CursorsView, progress: Progress)
        ensures
            Self::in_step(gate, progress) == gate.in_step(progress),
    ;

    /// What holds the producers up is the slowest consumer.
    proof fn lemma_gated_by_slowest(gate: CursorsView, next: int, end: int, capacity: int)
        ensures
            Self::consumed_until(gate, next, end, capacity) == (
                CursorsView::slowest(gate.consumed),
                CursorsView::slowest(gate.consumed) == i64::MIN,
            ),
            Self::notified(gate) == gate.notified(),
    ;

    /// How far consumer `index` has come.
    fn load(&self, index: usize) -> (position: i64)
        requires
            self.wf(),
            index < self@.consumed.len(),
        ensures
            position == self@.consumed[index as int],
    ;

    /// Moves consumer `index` to `position`.
    fn store(&mut self, index: usize, position: i64)
        requires
            old(self).wf(),
            index < old(self)@.consumed.len(),
        ensures
            final(self).wf(),
            final(self)@ == old(self)@.moved(index as int, position as int),
    ;

    /// Registers the task of `waker` as the one that waits for consumer `index`.
    fn register(&mut self, index: usize, waker: &std::task::Waker)
        requires
            old(self).wf(),
            index < old(self)@.consumed.len(),
        ensures
            final(self).wf(),
            final(self)@ == old(self)@.registered(index as int, crate::waker::task_of(*waker)),
    ;
}

/// The two gates of a channel.
pub struct Gates<P, C> {
    pub producer: P,
    pub consumer: C,
}

/// What the two gates record.
pub struct GatesView<P, C> {
    pub producer: P,
    pub consumer: C,
}

impl<P: View, C: View> View for Gates<P, C> {
    type V = GatesView<P::V, C::V>;

    open spec fn view(&self) -> GatesView<P::V, C::V> {
        GatesView { producer: self.producer@, consumer: self.consumer@ }
    }
}

impl<P: ProducerBarrier, C: ConsumerBarrier> Gates<P, C> {
    /// Both gates are intact and the consumers are in step with the producers.
    pub open spec fn inv(&self) -> bool {
        &&& self.producer.wf()
        &&& self.consumer.wf()
        &&& C::in_step(self.consumer@, P::progress(self.producer@))
    }
}

/// The answer to a claim of exactly `n` sequences, all of them or none, given the answer to a
/// claim of up to `n`.
pub open spec fn all_or_none(
    n: int,
    capacity: int,
    grant: Result<(int, int), TryClaimError>,
) -> Result<(int, int), TryClaimError> {
    if n > capacity {
        Err(TryClaimError::Insufficient { missing: (n - capacity) as i64 })
    } else {
        match grant {
            Ok((start, end)) => if end - start + 1 == n {
                Ok((start, end))
            } else {
                Err(TryClaimError::Insufficient { missing: (n - (end - start + 1)) as i64 })
            },
            Err(TryClaimError::Empty) => Err(TryClaimError::Insufficient { missing: n as i64 }),
            Err(error) => Err(error),
        }
    }
}

/// Whether an answer to a claim is the one that is due.
pub open spec fn answers(
    answer: Result<(Sequence, Sequence), TryClaimError>,
    due: Result<(int, int), TryClaimError>,
) -> bool {
    match (answer, due) {
        (Ok((start_seq, end_seq)), Ok((start, end))) => start_seq@ == start && end_seq@ == end,
        (Err(error), Err(expected)) => error == expected,
        _ => false,
    }
}

/// Claims and commits sequences on behalf of one endpoint.
pub trait Sequencer: View + Sized {
    /// The gates that the endpoints of a channel share.
    type Gates: View;

    /// This endpoint and the gates belong together, and the gates are in order.
    spec fn attached(&self, gates: &Self::Gates) -> bool;

    /// The number of slots of the ring that the gates coordinate.
    spec fn capacity(gates: <Self::Gates as View>::V) -> int;

    /// The sequence numbers are not used up.
    spec fn may_claim(endpoint: Self::V, gates: <Self::Gates as View>::V) -> bool;

    /// The answer to a claim of up to `limit` sequences.
    spec fn grant(endpoint: Self::V, gates: <Self::Gates as View>::V, limit: int) -> Result<
        (int, int),
        TryClaimError,
    >;

    /// The endpoint and the gates after a claim up to `end` was granted.
    spec fn granted(endpoint: Self::V, gates: <Self::Gates as View>::V, end: int) -> (
        Self::V,
        <Self::Gates as View>::V,
    );

    /// Whether `[start, end]` was claimed here and is not committed yet.
    spec fn outstanding(
        endpoint: Self::V,
        gates: <Self::Gates as View>::V,
        start: int,
        end: int,
    ) -> bool;

    /// The gates after `[start, end]` is committed.
    spec fn committed(
        endpoint: Self::V,
        gates: <Self::Gates as View>::V,
        start: int,
        end: int,
    ) -> <Self::Gates as View>::V;

    /// What a granted claim looks like: it is not empty, not longer than was asked for, and
    /// can be committed.
    proof fn lemma_grant(&self, gates: &Self::Gates, limit: int)
        requires
            self.attached(gates),
            Self::may_claim(self@, gates@),
            limit >= 1,
        ensures
            RingBufferMeta::valid_size(Self::capacity(gates@)),
            !(Self::grant(self@, gates@, limit) matches Err(TryClaimError::Insufficient { .. })),
            Self::grant(self@, gates@, limit) matches Ok((start, end)) ==> {
                let after = Self::granted(self@, gates@, end);
                &&& 0 <= start <= end < start + limit
                &&& end < start + Self::capacity(gates@)
                &&& end < i64::MAX
                &&& Self::capacity(after.1) == Self::capacity(gates@)
                &&& Self::outstanding(after.0, after.1, start, end)
            },
    ;

    /// Tells whether the next claim can be made.
    fn can_claim(&self, gates: &Self::Gates) -> (can: bool)
        requires
            self.attached(gates),
        ensures
            can == Self::may_claim(self@, gates@),
    ;

    /// Attempts to claim up to `limit` sequences, as many as available.
    fn try_claim_at_most(&mut self, gates: &mut Self::Gates, limit: i64) -> (claim: Result<
        (Sequence, Sequence),
        TryClaimError,
    >)
        requires
            old(self).attached(old(gates)),
            Self::may_claim(old(self)@, old(gates)@),
            limit >= 1,
        ensures
            final(self).attached(final(gates)),
            answers(claim, Self::grant(old(self)@, old(gates)@, limit as int)),
            match Self::grant(old(self)@, old(gates)@, limit as int) {
                Ok((start, end)) => (final(self)@, final(gates)@) == Self::granted(
                    old(self)@,
                    old(gates)@,
                    end,
                ),
                Err(_) => final(self)@ == old(self)@ && final(gates)@ == old(gates)@,
            },
    ;

    /// Attempts to claim exactly `n` sequences.
    fn try_claim_n(&mut self, gates: &mut Self::Gates, n: i64) -> (claim: Result<
        (Sequence, Sequence),
        TryClaimError,
    >)
        requires
            old(self).attached(old(gates)),
            Self::may_claim(old(self)@, old(gates)@),
            n >= 1,
        ensures
            final(self).attached(final(gates)),
            answers(claim, all_or_none(
                n as int,
                Self::capacity(old(gates)@),
                Self::grant(old(self)@, old(gates)@, n as int),
            )),
            match all_or_none(
                n as int,
                Self::capacity(old(gates)@),
                Self::grant(old(self)@, old(gates)@, n as int),
            ) {
                Ok((start, end)) => (final(self)@, final(gates)@) == Self::granted(
                    old(self)@,
                    old(gates)@,
                    end,
                ),
                Err(_) => final(self)@ == old(self)@ && final(gates)@ == old(gates)@,
            },
    ;

    /// Attempts to claim the next sequence.
    fn try_claim(&mut self, gates: &mut Self::Gates) -> (claim: Result<Sequence, TryClaimError>)
        requires
            old(self).attached(old(gates)),
            Self::may_claim(old(self)@, old(gates)@),
        ensures
            final(self).attached(final(gates)),
            match (claim, Self::grant(old(self)@, old(gates)@, 1)) {
                (Ok(seq), Ok((start, end))) => {
                    &&& seq@ == start == end
                    &&& (final(self)@, final(gates)@) == Self::granted(
                        old(self)@,
                        old(gates)@,
                        end,
                    )
                },
                (Err(error), Err(expected)) => {
                    &&& error == expected
                    &&& final(self)@ == old(self)@
                    &&& final(gates)@ == old(gates)@
                },
                _ => false,
            },
    {
        proof {
            self.lemma_grant(gates, 1);
        }
        match self.try_claim_at_most(gates, 1) {
            Ok((_, end_seq)) => Ok(end_seq),
            Err(error) => Err(error),
        }
    }

    /// Commits the claimed sequence `seq`.
    fn commit(&self, gates: &mut Self::Gates, seq: Sequence)
        requires
            self.attached(old(gates)),
            Self::outstanding(self@, old(gates)@, seq@, seq@),
        ensures
            self.attached(final(gates)),
            final(gates)@ == Self::committed(self@, old(gates)@, seq@, seq@),
            Self::capacity(final(gates)@) == Self::capacity(old(gates)@),
    ;

    /// Commits the claimed range `[start_seq, end_seq]`.
    fn commit_range(&self, gates: &mut Self::Gates, start_seq: Sequence, end_seq: Sequence)
        requires
            self.attached(old(gates)),
            Self::outstanding(self@, old(gates)@, start_seq@, end_seq@),
        ensures
            self.attached(final(gates)),
            final(gates)@ == Self::committed(self@, old(gates)@, start_seq@, end_seq@),
            Self::capacity(final(gates)@) == Self::capacity(old(gates)@),
    ;
}

/// What a poll comes to.
#[derive(Debug)]
pub enum Polled<T> {
    /// There is an answer.
    Ready(T),
    /// The task is registered and will be woken when there may be an answer.
    Pending,
}

/// A sequencer whose claims can be waited for.
pub trait ConsumerSequencer: Sequencer {
    /// The gates after the task `task` is registered to be woken.
    spec fn waits(
        endpoint: Self::V,
        gates: <Self::Gates as View>::V,
        task: int,
    ) -> <Self::Gates as View>::V;

    /// Claims up to `limit` sequences, or registers the task of `waker` where there is nothing
    /// to claim yet.
    fn poll_claim_at_most(
        &mut self,
        gates: &mut Self::Gates,
        limit: i64,
        waker: &std::task::Waker,
    ) -> (polled: Polled<Result<(Sequence, Sequence), TryClaimError>>)
        requires
            old(self).attached(old(gates)),
            Self::may_claim(old(self)@, old(gates)@),
            limit >= 1,
        ensures
            final(self).attached(final(gates)),
            Self::capacity(final(gates)@) == Self::capacity(old(gates)@),
            match Self::grant(old(self)@, old(gates)@, limit as int) {
                Err(TryClaimError::Empty) => {
                    &&& polled is Pending
                    &&& final(self)@ == old(self)@
                    &&& final(gates)@ == Self::waits(
                        old(self)@,
                        old(gates)@,
                        crate::waker::task_of(*waker),
                    )
                },
                Err(error) => {
                    &&& polled == Polled::<Result<(Sequence, Sequence), TryClaimError>>::Ready(
                        Err(error),
                    )
                    &&& final(self)@ == old(self)@
                    &&& final(gates)@ == old(gates)@
                },
                Ok((start, end)) => {
                    &&& polled matches Polled::Ready(claim)
                    &&& answers(claim, Ok((start, end)))
                    &&& (final(self)@, final(gates)@) == Self::granted(
                        old(self)@,
                        old(gates)@,
                        end,
                    )
                },
            },
    ;
}

} // verus!
