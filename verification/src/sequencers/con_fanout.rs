//! The barrier of a fixed number of consumers, each of which sees every item.

use vstd::prelude::*;

use crate::cursor::Cursor;
use crate::sequence::Sequence;
use crate::sequencers::{ConsumerBarrier, ConsumerCursors, CursorsView, Progress, SlotState};
use crate::waker::Waker;

verus! {

/// The positions of `N` consumers, and the tasks that wait for them.
pub struct FanoutConSeqGate<const N: usize> {
    consumed: Vec<Cursor>,
    wakers: Vec<Waker>,
}

impl<const N: usize> View for FanoutConSeqGate<N> {
    type V = CursorsView;

    closed spec fn view(&self) -> CursorsView {
        CursorsView {
            consumed: Seq::new(self.consumed@.len(), |i: int| self.consumed@[i]@),
            waiting: Seq::new(self.wakers@.len(), |i: int| self.wakers@[i]@),
            woken: Seq::new(self.wakers@.len(), |i: int| self.wakers@[i].woken()),
        }
    }
}

impl<const N: usize> FanoutConSeqGate<N> {
    /// The barrier of `N` consumers that have consumed nothing.
    pub fn new() -> (gate: Self)
        ensures
            gate.wf(),
            gate@ == CursorsView::fresh(N as int),
    {
        let mut consumed: Vec<Cursor> = Vec::new();
        let mut wakers: Vec<Waker> = Vec::new();
        while consumed.len() < N
            invariant
                consumed@.len() == wakers@.len(),
                consumed@.len() <= N,
                forall|i: int| 0 <= i < consumed@.len() ==> (#[trigger] consumed@[i])@ == -1,
                forall|i: int| 0 <= i < wakers@.len() ==> (#[trigger] wakers@[i])@ is None,
                forall|i: int|
                    0 <= i < wakers@.len() ==> (#[trigger] wakers@[i]).woken()
                        == Seq::<int>::empty(),
            decreases N - consumed@.len(),
        {
            consumed.push(Cursor::new(Sequence::init()));
            wakers.push(Waker::new());
        }
        let gate = FanoutConSeqGate { consumed, wakers };
        assert(gate@.consumed =~= CursorsView::fresh(N as int).consumed);
        assert(gate@.waiting =~= CursorsView::fresh(N as int).waiting);
        assert(gate@.woken =~= CursorsView::fresh(N as int).woken);
        gate
    }
}

impl<const N: usize> ConsumerBarrier for FanoutConSeqGate<N> {
    closed spec fn wf(&self) -> bool {
        &&& self.consumed@.len() == N
        &&& self.wakers@.len() == N
        &&& forall|i: int|
            0 <= i < N ==> i64::MIN <= (#[trigger] self.consumed@[i])@ <= i64::MAX
    }

    open spec fn in_step(gate: CursorsView, progress: Progress) -> bool {
        gate.in_step(progress)
    }

    open spec fn consumed_until(gate: CursorsView, next: int, end: int, capacity: int) -> (
        int,
        bool,
    ) {
        let slowest = CursorsView::slowest(gate.consumed);
        (slowest, slowest == i64::MIN)
    }

    open spec fn notified(gate: CursorsView) -> CursorsView {
        gate.notified()
    }

    proof fn lemma_consumed_until(gate: CursorsView, progress: Progress, end: int) {
        gate.lemma_consumed_until(progress);
    }

    proof fn lemma_claim_in_step(
        gate: CursorsView,
        progress: Progress,
        end: int,
        later: Progress,
        claimed: int,
    ) {
        gate.lemma_claim_in_step(progress, later, claimed);
    }

    proof fn lemma_first_claim_in_step(gate: CursorsView, progress: Progress, later: Progress) {
        crate::ringbuffer::RingBufferMeta::lemma_exponent(progress.capacity);
        gate.lemma_claim_in_step(progress, later, 0);
    }

    proof fn lemma_commit_in_step(gate: CursorsView, progress: Progress, later: Progress) {
        gate.lemma_commit_in_step(progress, later);
    }

    fn max_consumed(&self, next_seq: Sequence, end_seq: Sequence, capacity: i64) -> (state:
        SlotState) {
        let mut min_consumed = Sequence::shutdown_open();
        let mut index: usize = 0;
        while index < self.consumed.len()
            invariant
                self.wf(),
                index <= self.consumed@.len(),
                min_consumed@ == CursorsView::slowest(self@.consumed.take(index as int)),
            decreases self.consumed@.len() - index,
        {
            let seq = Sequence::new(self.consumed[index].load());
            proof {
                let read = self@.consumed.take(index as int + 1);
                assert(read.drop_last() =~= self@.consumed.take(index as int));
                assert(read.last() == seq@);
            }
            if !seq.is_shutdown_open() {
                if min_consumed.is_shutdown_open() || seq.value() < min_consumed.value() {
                    min_consumed = seq;
                }
            }
            index = index + 1;
        }
        assert(self@.consumed.take(index as int) =~= self@.consumed);
        SlotState::new(min_consumed, min_consumed.is_shutdown_open())
    }

    fn notify(&mut self) {
        let mut index: usize = 0;
        while index < self.wakers.len()
            invariant
                self.wf(),
                self.consumed == old(self).consumed,
                self.wakers@.len() == old(self).wakers@.len(),
                index <= self.wakers@.len(),
                forall|i: int| 0 <= i < index ==> (#[trigger] self.wakers@[i])@ is None,
                forall|i: int|
                    0 <= i < index ==> (#[trigger] self.wakers@[i]).woken() == old(
                        self,
                    )@.notified().woken[i],
                forall|i: int|
                    index <= i < self.wakers@.len() ==> #[trigger] self.wakers@[i] == old(
                        self,
                    ).wakers@[i],
            decreases self.wakers@.len() - index,
        {
            self.wakers[index].wake();
            index = index + 1;
        }
        assert(self@.waiting =~= old(self)@.notified().waiting);
        assert(self@.woken =~= old(self)@.notified().woken);
    }
}

impl<const N: usize> ConsumerCursors for FanoutConSeqGate<N> {
    proof fn lemma_cursors(&self) {
        assert forall|index: int| 0 <= index < self@.consumed.len() implies i64::MIN
            <= #[trigger] self@.consumed[index] <= i64::MAX by {
            assert(i64::MIN <= self.consumed@[index]@ <= i64::MAX);
        }
    }

    proof fn lemma_in_step(gate: CursorsView, progress: Progress) {
    }

    proof fn lemma_gated_by_slowest(gate: CursorsView, next: int, end: int, capacity: int) {
    }

    fn load(&self, index: usize) -> (position: i64) {
        self.consumed[index].load()
    }

    fn store(&mut self, index: usize, position: i64) {
        self.consumed[index].store(position);
        assert(self@.consumed =~= old(self)@.consumed.update(index as int, position as int));
    }

    fn register(&mut self, index: usize, waker: &std::task::Waker) {
        self.wakers[index].register(waker);
        assert(self@.waiting =~= old(self)@.waiting.update(
            index as int,
            Some(crate::waker::task_of(*waker)),
        ));
        assert(self@.woken =~= old(self)@.woken);
    }
}

} // verus!
