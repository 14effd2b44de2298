use enso_channel::slot_recycler::{ResetWith, ResetWithCloneable, ResetWithDefault, SlotRecycler};

#[test]
fn reset_with_default() {
    let mut value: i32 = 42;
    let reset = ResetWith(i32::default);
    reset.recycle(&mut value);
    assert_eq!(value, 0);
}

#[test]
fn test_closure_recycle() {
    fn accept_closure_recycle<S: SlotRecycler<i32>>(s: S) {
        let mut value: i32 = 42;
        s.recycle(&mut value);
        assert_eq!(value, 0);
    }
    accept_closure_recycle(|i: &mut _| *i = 0);
}

#[test]
fn a_closure_may_reuse_the_stale_value() {
    let mut value: Vec<u8> = vec![1, 2, 3];
    let clear = |slot: &mut Vec<u8>| slot.clear();
    clear.recycle(&mut value);
    assert!(value.is_empty());
}

#[test]
fn the_default_and_a_cloned_sentinel_replace_a_value() {
    let mut value: u64 = 7;
    ResetWithDefault.recycle(&mut value);
    assert_eq!(value, 0);
    ResetWithCloneable(9u64).recycle(&mut value);
    assert_eq!(value, 9);
    ResetWith(|| 11u64).recycle(&mut value);
    assert_eq!(value, 11);
}
