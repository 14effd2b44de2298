//! The registration of a receiver's task.

use vstd::prelude::*;

use atomic_waker::AtomicWaker;
use crossbeam_utils::CachePadded;

verus! {

/// `atomic_waker::AtomicWaker`, a cell that holds at most one task waker.
#[verifier::external_type_specification]
#[verifier::external_body]
pub struct ExAtomicWaker(AtomicWaker);

/// `std::task::Waker`, the handle that wakes one task.
#[verifier::external_type_specification]
#[verifier::external_body]
pub struct ExTaskWaker(std::task::Waker);

/// The task that a waker wakes.
pub uninterp spec fn task_of(waker: std::task::Waker) -> int;

/// The task whose waker is registered in a padded waker cell, if one is.
pub uninterp spec fn registered_task(cell: CachePadded<AtomicWaker>) -> Option<int>;

/// `AtomicWaker::new`, padded: no waker is registered.
#[verifier::external_body]
fn new_cell() -> (cell: CachePadded<AtomicWaker>)
    ensures
        registered_task(cell) is None,
{
    CachePadded::new(AtomicWaker::new())
}

/// `AtomicWaker::register`: the cell then holds a waker of the task that `waker` wakes. With
/// exclusive access no wake can interfere. What the waker's own code does when it is cloned is
/// not part of the claim.
#[verifier::external_body]
fn register_in_cell(cell: &mut CachePadded<AtomicWaker>, waker: &std::task::Waker)
    ensures
        registered_task(*final(cell)) == Some(task_of(*waker)),
{
    cell.register(waker);
}

/// Where a receiver leaves its task's waker for the producers to wake.
pub struct Waker {
    cell: CachePadded<AtomicWaker>,
    woken: Ghost<Seq<int>>,
}

impl View for Waker {
    type V = Option<int>;

    /// The task that waits, if one does.
    closed spec fn view(&self) -> Option<int> {
        registered_task(self.cell)
    }
}

impl Waker {
    /// The tasks that were woken through this cell, in their order.
    pub closed spec fn woken(&self) -> Seq<int> {
        self.woken@
    }

    /// No task waits, and none was woken.
    pub fn new() -> (waker: Self)
        ensures
            waker@ is None,
            waker.woken() == Seq::<int>::empty(),
    {
        Waker { cell: new_cell(), woken: Ghost(Seq::empty()) }
    }

    /// `AtomicWaker::wake`: takes the registered waker out and calls its `wake`, once; without
    /// one it does nothing. When the executor then runs the task, and what the waker's own code
    /// does, is not part of the claim.
    #[verifier::external_body]
    fn wake_registered(&mut self)
        ensures
            final(self)@ is None,
            final(self).woken() == match old(self)@ {
                Some(task) => old(self).woken().push(task),
                None => old(self).woken(),
            },
    {
        self.cell.wake();
    }

    /// Wakes the waiting task, which then waits no longer.
    pub fn wake(&mut self)
        ensures
            final(self)@ is None,
            final(self).woken() == match old(self)@ {
                Some(task) => old(self).woken().push(task),
                None => old(self).woken(),
            },
    {
        self.wake_registered();
    }

    /// Registers the task of `waker` as the one that waits, and wakes none.
    pub fn register(&mut self, waker: &std::task::Waker)
        ensures
            final(self)@ == Some(task_of(*waker)),
            final(self).woken() == old(self).woken(),
    {
        register_in_cell(&mut self.cell, waker);
    }
}

} // verus!
