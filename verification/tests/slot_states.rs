use enso_channel::ringbuffer::RingBufferMeta;
use enso_channel::sequence::Sequence;
use enso_channel::slot_states::U32SlotStates;

fn scan_seq(states: &U32SlotStates, start: i64, end: i64) -> Sequence {
    states
        .scan_available_until(Sequence::new(start), Sequence::new(end))
        .sequence()
}

#[test]
fn u32_new_empty_obeys_slot_state_group_contract() {
    let ring = RingBufferMeta::new(8);
    let mut states = U32SlotStates::new_all_empty(ring);

    // Empty scans should return start - 1.
    assert_eq!(scan_seq(&states, 0, 0), Sequence::new(-1));
    assert_eq!(scan_seq(&states, 5, 7), Sequence::new(4));

    // Publishing a single sequence should make it available.
    states.publish(Sequence::new(0));
    assert_eq!(scan_seq(&states, 0, 0), Sequence::new(0));

    // Publishing with a hole should stop at the last contiguous sequence.
    states.publish(Sequence::new(2));
    assert_eq!(scan_seq(&states, 0, 2), Sequence::new(0));

    // Filling the hole makes the range contiguous.
    states.publish(Sequence::new(1));
    assert_eq!(scan_seq(&states, 0, 2), Sequence::new(2));

    // publish_range should make the entire inclusive range available.
    states.publish_range(Sequence::new(3), Sequence::new(5));
    assert_eq!(scan_seq(&states, 0, 5), Sequence::new(5));

    // Scanning a subset of the available range.
    assert_eq!(scan_seq(&states, 3, 4), Sequence::new(4));

    // No false shutdown in normal operation.
    let result = states.scan_available_until(Sequence::new(0), Sequence::new(5));
    assert!(!result.is_shutdown());
}

#[test]
fn u32_new_empty_handles_lap_wrapping_correctly() {
    let ring = RingBufferMeta::new(4);
    let mut states = U32SlotStates::new_all_empty(ring);

    states.publish(Sequence::new(0));
    assert_eq!(scan_seq(&states, 0, 0), Sequence::new(0));

    // One lap on, the same slot.
    states.publish(Sequence::new(4));
    assert_eq!(scan_seq(&states, 0, 0), Sequence::new(-1));
    assert_eq!(scan_seq(&states, 4, 4), Sequence::new(4));

    // A range that wraps around.
    states.publish_range(Sequence::new(2), Sequence::new(5));
    assert_eq!(scan_seq(&states, 2, 3), Sequence::new(3));
    assert_eq!(scan_seq(&states, 4, 5), Sequence::new(5));
    assert_eq!(scan_seq(&states, 0, 1), Sequence::new(-1));
    assert_eq!(scan_seq(&states, 2, 5), Sequence::new(5));
}

#[test]
fn shutdown_bit_detected_by_scan() {
    let ring = RingBufferMeta::new(4);
    let mut states = U32SlotStates::new_all_empty(ring);

    // Publish 0..2, then mark slot 3 (seq 3) as shutdown.
    states.publish_range(Sequence::new(0), Sequence::new(2));
    states.mark_shutdown(Sequence::new(3));

    let result = states.scan_available_until(Sequence::new(0), Sequence::new(3));
    assert_eq!(result.sequence(), Sequence::new(2));
    assert!(result.is_shutdown());
}

#[test]
fn shutdown_on_published_slot_still_detected() {
    let ring = RingBufferMeta::new(4);
    let mut states = U32SlotStates::new_all_empty(ring);

    // Publish 0..3, mark shutdown on seq 3 itself.
    states.publish_range(Sequence::new(0), Sequence::new(3));
    states.mark_shutdown(Sequence::new(3));

    let result = states.scan_available_until(Sequence::new(0), Sequence::new(3));
    assert_eq!(result.sequence(), Sequence::new(3));
    assert!(result.is_shutdown());
}

#[test]
fn all_available_starts_with_the_lap_before_the_first() {
    let states = U32SlotStates::new_all_available(RingBufferMeta::new(4));
    assert_eq!(scan_seq(&states, -4, -1), Sequence::new(-1));
    assert_eq!(scan_seq(&states, 0, 3), Sequence::new(-1));
}

#[test]
fn a_mark_on_every_slot_is_met_by_any_scan() {
    let mut states = U32SlotStates::new_all_available(RingBufferMeta::new(4));
    states.mark_all_shutdown();
    let result = states.scan_available_until(Sequence::new(-4), Sequence::new(-4));
    assert_eq!(result.sequence(), Sequence::new(-4));
    assert!(result.is_shutdown());
}
