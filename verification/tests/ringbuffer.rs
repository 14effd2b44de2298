use enso_channel::ringbuffer::{RingBuffer, RingBufferMeta};
use enso_channel::sequence::Sequence;
use enso_channel::slot_recycler::ResetWithDefault;

#[test]
fn test_ringbuffer_capacity() {
    let rb: RingBuffer<u32> = RingBuffer::init_with_default(8);
    assert_eq!(rb.capacity(), 8);
}

#[test]
fn test_index_of_seq() {
    let meta = RingBufferMeta::new(8);
    assert_eq!(meta.index_of_seq(Sequence::new(0)), 0);
    assert_eq!(meta.index_of_seq(Sequence::new(1)), 1);
    assert_eq!(meta.index_of_seq(Sequence::new(7)), 7);
    assert_eq!(meta.index_of_seq(Sequence::new(8)), 0);
    assert_eq!(meta.index_of_seq(Sequence::new(9)), 1);
    assert_eq!(meta.index_of_seq(Sequence::new(15)), 7);
    assert_eq!(meta.index_of_seq(Sequence::new(16)), 0);
}

#[test]
fn index_of_a_negative_sequence_counts_from_the_end() {
    let meta = RingBufferMeta::new(8);
    assert_eq!(meta.index_of_seq(Sequence::init()), 7);
    assert_eq!(meta.index_of_seq(Sequence::new(-8)), 0);
}

#[test]
fn test_available_slots() {
    // none consumed or published
    let meta = RingBufferMeta::new(4);
    assert_eq!(meta.available_slots(Sequence::init(), Sequence::init()), 4);

    // first round
    assert_eq!(meta.available_slots(Sequence::new(0), Sequence::init()), 3);
    assert_eq!(meta.available_slots(Sequence::new(1), Sequence::init()), 2);
    assert_eq!(meta.available_slots(Sequence::new(2), Sequence::init()), 1);
    assert_eq!(meta.available_slots(Sequence::new(3), Sequence::new(0)), 1);
    assert_eq!(meta.available_slots(Sequence::new(3), Sequence::new(3)), 4);

    // second round
    assert_eq!(meta.available_slots(Sequence::new(4), Sequence::new(3)), 3);
    assert_eq!(meta.available_slots(Sequence::new(5), Sequence::new(3)), 2);
    assert_eq!(meta.available_slots(Sequence::new(6), Sequence::new(3)), 1);
    assert_eq!(meta.available_slots(Sequence::new(7), Sequence::new(4)), 1);
    assert_eq!(meta.available_slots(Sequence::new(8), Sequence::new(4)), 0);
}

#[test]
fn a_ring_is_initialized_slot_by_slot() {
    let rb: RingBuffer<usize> = RingBuffer::init_with(4, |index| index * 10);
    assert_eq!(*rb.get_ref_at(Sequence::new(0)), 0);
    assert_eq!(*rb.get_ref_at(Sequence::new(3)), 30);
    assert_eq!(*rb.get_ref_at(Sequence::new(5)), 10);
    assert_eq!(rb.meta().buffer_size(), 4);
}

#[test]
fn a_write_for_a_sequence_is_read_a_lap_later_in_the_same_slot() {
    let mut rb: RingBuffer<u32> = RingBuffer::init_with_default(4);
    rb.write_at(Sequence::new(6), 60);
    assert_eq!(*rb.get_ref_at(Sequence::new(6)), 60);
    assert_eq!(*rb.get_ref_at(Sequence::new(2)), 60);
    assert_eq!(*rb.get_ref_at(Sequence::new(5)), 0);
    rb.modify_at(Sequence::new(6), |slot: &mut u32| *slot += 1);
    assert_eq!(*rb.get_ref_at(Sequence::new(6)), 61);
    rb.recycle_at(Sequence::new(6), &ResetWithDefault);
    assert_eq!(*rb.get_ref_at(Sequence::new(6)), 0);
}

#[test]
fn the_smallest_ring_has_one_slot() {
    let mut rb: RingBuffer<u8> = RingBuffer::init_with_default(1);
    rb.write_at(Sequence::new(5), 9);
    assert_eq!(*rb.get_ref_at(Sequence::new(0)), 9);
}
