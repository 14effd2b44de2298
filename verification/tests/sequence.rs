use enso_channel::cursor::Cursor;
use enso_channel::sequence::Sequence;

#[test]
fn adds_and_subs_with_i64() {
    let seq = Sequence::new(5);
    assert_eq!(seq + 3, Sequence::new(8));
    assert_eq!(seq - 2, Sequence::new(3));
}

#[test]
fn compares_to_i64() {
    let seq = Sequence::new(7);
    assert!(seq == 7);
    assert!(seq > 5);
    assert!(seq < 10);
}

#[test]
fn the_difference_of_two_sequences_is_a_distance() {
    assert_eq!(Sequence::new(9) - Sequence::new(4), 5);
    let mut seq = Sequence::new(1);
    seq += 4;
    assert_eq!(seq, Sequence::new(5));
}

#[test]
fn the_sentinels_are_told_apart() {
    assert!(Sequence::init().is_init());
    assert_eq!(Sequence::init().value(), -1);
    assert!(Sequence::shutdown_open().is_shutdown_open());
    assert_eq!(Sequence::shutdown_open().value(), i64::MIN);
    assert!(!Sequence::new(0).is_init());
    assert!(!Sequence::new(0).is_shutdown_open());
}

#[test]
fn sequences_convert_from_and_to_numbers() {
    assert_eq!(Sequence::from(12), Sequence::new(12));
    assert_eq!(i64::from(Sequence::new(-3)), -3);
}

#[test]
fn a_cursor_keeps_what_is_stored() {
    let mut cursor = Cursor::new(Sequence::new(3));
    assert_eq!(cursor.load(), 3);
    cursor.store(8);
    assert_eq!(cursor.load(), 8);
    assert_eq!(cursor.compare_exchange(7, 9), Err(8));
    assert_eq!(cursor.load(), 8);
    assert_eq!(cursor.compare_exchange(8, 9), Ok(8));
    assert_eq!(cursor.load(), 9);
    assert_eq!(Cursor::default().load(), -1);
}
