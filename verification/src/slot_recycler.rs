//! How a reserved slot is repaired where no value was written to it.

use vstd::prelude::*;

verus! {

/// Defines how a stale slot should be updated on the sender side.
pub trait SlotRecycler<T> {
    /// The stale values that this recycler accepts.
    spec fn can_recycle(&self, stale: T) -> bool;

    /// Whether recycling `stale` may leave `fresh`.
    spec fn recycled(&self, stale: T, fresh: T) -> bool;

    /// Replaces the stale value of a slot.
    fn recycle(&self, stale_value: &mut T)
        requires
            self.can_recycle(*old(stale_value)),
        ensures
            self.recycled(*old(stale_value), *final(stale_value)),
    ;
}

/// A closure recycles a slot by being called on it.
impl<F, T> SlotRecycler<T> for F where F: Fn(&mut T) {
    open spec fn can_recycle(&self, stale: T) -> bool {
        forall|slot: &mut T| *slot == stale ==> #[trigger] call_requires(*self, (slot,))
    }

    open spec fn recycled(&self, stale: T, fresh: T) -> bool {
        true
    }

    fn recycle(&self, stale_value: &mut T)
        ensures
            exists|slot: &mut T|
                {
                    &&& *slot == *old(stale_value)
                    &&& *final(slot) == *final(stale_value)
                    &&& #[trigger] call_ensures(*self, (slot,), ())
                },
    {
        self(stale_value);
    }
}

/// Resets a stale value using a function that produces a sentinel value.
#[derive(Clone, Copy)]
pub struct ResetWith<F>(pub F);

impl<T, F> SlotRecycler<T> for ResetWith<F> where F: Fn() -> T {
    open spec fn can_recycle(&self, stale: T) -> bool {
        call_requires(self.0, ())
    }

    open spec fn recycled(&self, stale: T, fresh: T) -> bool {
        call_ensures(self.0, (), fresh)
    }

    fn recycle(&self, stale_value: &mut T) {
        *stale_value = (self.0)();
    }
}

/// Resets a stale value to the default of its type.
#[derive(Clone, Copy)]
pub struct ResetWithDefault;

impl<T: Default> SlotRecycler<T> for ResetWithDefault {
    open spec fn can_recycle(&self, stale: T) -> bool {
        call_requires(T::default, ())
    }

    open spec fn recycled(&self, stale: T, fresh: T) -> bool {
        call_ensures(T::default, (), fresh)
    }

    fn recycle(&self, stale_value: &mut T) {
        *stale_value = T::default();
    }
}

/// Resets a stale value using a cloneable sentinel value.
#[derive(Clone, Copy)]
pub struct ResetWithCloneable<T>(pub T);

impl<T> SlotRecycler<T> for ResetWithCloneable<T> where T: Clone {
    open spec fn can_recycle(&self, stale: T) -> bool {
        call_requires(T::clone, (&self.0,))
    }

    open spec fn recycled(&self, stale: T, fresh: T) -> bool {
        call_ensures(T::clone, (&self.0,), fresh)
    }

    fn recycle(&self, stale_value: &mut T) {
        *stale_value = self.0.clone();
    }
}

/// A reset with `F` accepts any stale value where `F` can be called.
pub proof fn lemma_can_reset<T, F: Fn() -> T>(reset: ResetWith<F>, stale: T)
    requires
        call_requires(reset.0, ()),
    ensures
        SlotRecycler::<T>::can_recycle(&reset, stale),
{
}

/// A reset with `F` leaves what `F` returns.
pub proof fn lemma_reset<T, F: Fn() -> T>(reset: ResetWith<F>, stale: T, fresh: T)
    requires
        SlotRecycler::<T>::recycled(&reset, stale, fresh),
    ensures
        call_ensures(reset.0, (), fresh),
{
}

/// A reset to the default accepts any stale value where a default can be made, and leaves one.
pub proof fn lemma_reset_default<T: Default>(reset: ResetWithDefault, stale: T, fresh: T)
    ensures
        call_requires(T::default, ()) ==> SlotRecycler::<T>::can_recycle(&reset, stale),
        SlotRecycler::<T>::recycled(&reset, stale, fresh) ==> call_ensures(T::default, (), fresh),
{
}

/// A reset to a sentinel accepts any stale value where the sentinel can be cloned, and leaves a
/// clone of it.
pub proof fn lemma_reset_clone<T: Clone>(reset: ResetWithCloneable<T>, stale: T, fresh: T)
    ensures
        call_requires(T::clone, (&reset.0,)) ==> SlotRecycler::<T>::can_recycle(&reset, stale),
        SlotRecycler::<T>::recycled(&reset, stale, fresh) ==> call_ensures(
            T::clone,
            (&reset.0,),
            fresh,
        ),
{
}

/// A closure accepts the stale values of the slots that it can be called on.
pub proof fn lemma_can_call<T, F: Fn(&mut T)>(recycler: F, stale: T)
    requires
        forall|slot: &mut T| *slot == stale ==> #[trigger] call_requires(recycler, (slot,)),
    ensures
        SlotRecycler::<T>::can_recycle(&recycler, stale),
{
}

/// A closure that recycles a slot is called on it.
pub proof fn lemma_called<T, F: Fn(&mut T)>(recycler: F)
    ensures
        forall|slot: &mut T| #[trigger]
            call_ensures(<F as SlotRecycler<T>>::recycle, (&recycler, slot), ()) ==> exists|
                called: &mut T,
            |
                {
                    &&& *called == *slot
                    &&& *final(called) == *final(slot)
                    &&& #[trigger] call_ensures(recycler, (called,), ())
                },
{
}

} // verus!
