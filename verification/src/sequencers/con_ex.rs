//! The barrier of a single consumer.

use vstd::prelude::*;

use crate::cursor::Cursor;
use crate::sequence::Sequence;
use crate::sequencers::{ConsumerBarrier, ConsumerCursors, CursorsView, Progress, SlotState};
use crate::waker::Waker;

verus! {

/// The position of a single consumer, and the task that waits for it.
pub struct ExclusiveConSeqGate {
    consumed: Cursor,
    waker: Waker,
}

impl View for ExclusiveConSeqGate {
    type V = CursorsView;

    closed spec fn view(&self) -> CursorsView {
        CursorsView {
            consumed: seq![self.consumed@],
            waiting: seq![self.waker@],
            woken: seq![self.waker.woken()],
        }
    }
}

impl ExclusiveConSeqGate {
    /// The barrier of a consumer that has consumed nothing.
    pub fn new() -> (gate: Self)
        ensures
            gate.wf(),
            gate@ == CursorsView::fresh(1),
    {
        let gate = ExclusiveConSeqGate {
            consumed: Cursor::new(Sequence::init()),
            waker: Waker::new(),
        };
        assert(gate@.consumed =~= CursorsView::fresh(1).consumed);
        assert(gate@.waiting =~= CursorsView::fresh(1).waiting);
        assert(gate@.woken =~= CursorsView::fresh(1).woken);
        gate
    }
}

impl ConsumerBarrier for ExclusiveConSeqGate {
    closed spec fn wf(&self) -> bool {
        i64::MIN <= self.consumed@ <= i64::MAX
    }

    open spec fn in_step(gate: CursorsView, progress: Progress) -> bool {
        gate.in_step(progress)
    }

    open spec fn consumed_until(gate: CursorsView, next: int, end: int, capacity: int) -> (
        int,
        bool,
    ) {
        let slowest = CursorsView::slowest(gate.consumed);
        (slowest, slowest == i64::MIN)
    }

    open spec fn notified(gate: CursorsView) -> CursorsView {
        gate.notified()
    }

    proof fn lemma_consumed_until(gate: CursorsView, progress: Progress, end: int) {
        gate.lemma_consumed_until(progress);
    }

    proof fn lemma_claim_in_step(
        gate: CursorsView,
        progress: Progress,
        end: int,
        later: Progress,
        claimed: int,
    ) {
        gate.lemma_claim_in_step(progress, later, claimed);
    }

    proof fn lemma_first_claim_in_step(gate: CursorsView, progress: Progress, later: Progress) {
        crate::ringbuffer::RingBufferMeta::lemma_exponent(progress.capacity);
        gate.lemma_claim_in_step(progress, later, 0);
    }

    proof fn lemma_commit_in_step(gate: CursorsView, progress: Progress, later: Progress) {
        gate.lemma_commit_in_step(progress, later);
    }

    fn max_consumed(&self, next_seq: Sequence, end_seq: Sequence, capacity: i64) -> (state:
        SlotState) {
        let seq = Sequence::new(self.consumed.load());
        proof {
            assert(self@.consumed.drop_last() =~= Seq::<int>::empty());
            assert(CursorsView::slowest(self@.consumed.drop_last()) == i64::MIN);
        }
        SlotState::new(seq, seq.is_shutdown_open())
    }

    fn notify(&mut self) {
        self.waker.wake();
        assert(self@.waiting =~= old(self)@.notified().waiting);
        assert(self@.woken =~= old(self)@.notified().woken);
    }
}

impl ConsumerCursors for ExclusiveConSeqGate {
    proof fn lemma_cursors(&self) {
    }

    proof fn lemma_in_step(gate: CursorsView, progress: Progress) {
    }

    proof fn lemma_gated_by_slowest(gate: CursorsView, next: int, end: int, capacity: int) {
    }

    fn load(&self, index: usize) -> (position: i64) {
        self.consumed.load()
    }

    fn store(&mut self, index: usize, position: i64) {
        self.consumed.store(position);
        assert(self@.consumed =~= old(self)@.consumed.update(index as int, position as int));
    }

    fn register(&mut self, index: usize, waker: &std::task::Waker) {
        self.waker.register(waker);
        assert(self@.waiting =~= old(self)@.waiting.update(index as int, self.waker@));
    }
}

} // verus!
