use enso_channel::errors::{TryRecvAtMostError, TryRecvError, TrySendAtMostError, TrySendError};
use enso_channel::mpmc;
use enso_channel::queue::mpmc as queue_mpmc;

fn recv(
    chan: &mut queue_mpmc::Shared<u64>,
    rx: &mut queue_mpmc::Receiver<u64>,
) -> Result<u64, TryRecvError> {
    let guard = rx.try_recv(chan)?;
    let value = *guard.get(chan);
    guard.finish(chan);
    Ok(value)
}

#[test]
fn each_item_is_delivered_to_one_receiver() {
    let (mut chan, mut tx, mut rx0) = queue_mpmc::channel::<u64>(8);
    let mut rx1 = rx0.clone_endpoint(&mut chan);
    let mut tx1 = tx.clone_endpoint(&mut chan);
    for value in 0..3 {
        assert!(tx.try_send(&mut chan, 2 * value).is_ok());
        assert!(tx1.try_send(&mut chan, 2 * value + 1).is_ok());
    }
    assert_eq!(recv(&mut chan, &mut rx0), Ok(0));
    assert_eq!(recv(&mut chan, &mut rx1), Ok(1));
    let mut iter = rx1.try_recv_at_most(&mut chan, 3).unwrap();
    assert_eq!(recv(&mut chan, &mut rx0), Ok(5));
    assert_eq!(iter.next(&chan), Some(&2));
    assert_eq!(iter.next(&chan), Some(&3));
    assert_eq!(iter.next(&chan), Some(&4));
    assert_eq!(iter.next(&chan), None);
    iter.finish(&mut chan);
    assert_eq!(recv(&mut chan, &mut rx0), Err(TryRecvError::Empty));
    assert_eq!(recv(&mut chan, &mut rx1), Err(TryRecvError::Empty));
}

#[test]
fn a_slot_is_free_once_its_item_is_finished() {
    let (mut chan, mut tx, mut rx0) = queue_mpmc::channel::<u64>(2);
    let mut rx1 = rx0.clone_endpoint(&mut chan);
    assert!(tx.try_send(&mut chan, 1).is_ok());
    assert!(tx.try_send(&mut chan, 2).is_ok());
    let first = rx0.try_recv(&mut chan).unwrap();
    let second = rx1.try_recv(&mut chan).unwrap();
    // The second slot is released first; the next sequence needs the first one.
    second.finish(&mut chan);
    assert!(matches!(tx.try_send(&mut chan, 3), Err(TrySendError::Full(3))));
    first.finish(&mut chan);
    assert!(tx.try_send(&mut chan, 3).is_ok());
    assert!(tx.try_send(&mut chan, 4).is_ok());
    assert_eq!(recv(&mut chan, &mut rx1), Ok(3));
    assert_eq!(recv(&mut chan, &mut rx0), Ok(4));
}

#[test]
fn receivers_drain_before_they_are_disconnected() {
    let (mut chan, mut tx, mut rx) = queue_mpmc::channel::<u64>(4);
    assert!(tx.try_send(&mut chan, 1).is_ok());
    assert!(tx.try_send(&mut chan, 2).is_ok());
    tx.disconnect(&mut chan);
    assert!(matches!(rx.try_recv_many(&mut chan, 3).err(), Some(TryRecvError::Empty)));
    assert_eq!(recv(&mut chan, &mut rx), Ok(1));
    assert_eq!(recv(&mut chan, &mut rx), Ok(2));
    assert_eq!(recv(&mut chan, &mut rx), Err(TryRecvError::Disconnected));
    assert!(matches!(
        rx.try_recv_at_most(&mut chan, 2).err(),
        Some(TryRecvAtMostError::Disconnected)
    ));
}

#[test]
fn the_last_receiver_disconnects_the_senders() {
    let (mut chan, mut tx, rx0) = queue_mpmc::channel::<u64>(4);
    let rx1 = rx0.clone_endpoint(&mut chan);
    rx0.disconnect(&mut chan);
    assert!(tx.try_send(&mut chan, 1).is_ok());
    rx1.disconnect(&mut chan);
    assert!(matches!(tx.try_send(&mut chan, 2), Err(TrySendError::Disconnected(2))));
}

#[test]
fn exact_receives_take_all_or_nothing() {
    let (mut chan, mut tx, mut rx) = mpmc::channel::<u64>(4);
    let mut batch = tx.try_send_many_default(&mut chan, 3).unwrap();
    batch.write_exact(&mut chan, vec![4, 5, 6]);
    batch.finish(&mut chan);
    assert!(matches!(rx.try_recv_many(&mut chan, 4).err(), Some(TryRecvError::Empty)));
    assert!(matches!(rx.try_recv_many(&mut chan, 9).err(), Some(TryRecvError::Empty)));
    let mut iter = rx.try_recv_many(&mut chan, 2).unwrap();
    assert_eq!(iter.next(&chan), Some(&4));
    assert_eq!(iter.next(&chan), Some(&5));
    iter.finish(&mut chan);
    assert_eq!(recv(&mut chan, &mut rx), Ok(6));
}

#[test]
fn competing_receivers_share_many_laps() {
    let (mut chan, mut tx, mut rx0) = mpmc::channel_with::<u64, fn(usize) -> u64>(4, |index| index as u64);
    let mut rx1 = rx0.clone_endpoint(&mut chan);
    let mut seen = Vec::new();
    let mut sent = 0;
    for round in 0..60 {
        while tx.try_send(&mut chan, sent).is_ok() {
            sent += 1;
        }
        let rx = if round % 3 == 0 { &mut rx0 } else { &mut rx1 };
        let mut iter = rx.try_recv_at_most(&mut chan, 1 + round % 4).unwrap();
        while let Some(value) = iter.next(&chan) {
            seen.push(*value);
        }
        iter.finish(&mut chan);
    }
    for (expected, value) in seen.iter().enumerate() {
        assert_eq!(*value, expected as u64);
    }
}

#[test]
fn an_open_read_outlives_sends_and_the_last_sender() {
    let (mut chan, mut tx, mut rx) = mpmc::channel::<u64>(2);
    assert!(tx.try_send(&mut chan, 1).is_ok());
    let guard = rx.try_recv(&mut chan).unwrap();
    assert!(tx.try_send(&mut chan, 2).is_ok());
    assert!(matches!(tx.try_send(&mut chan, 3), Err(TrySendError::Full(3))));
    tx.disconnect(&mut chan);
    assert_eq!(*guard.get(&chan), 1);
    guard.finish(&mut chan);
    assert_eq!(recv(&mut chan, &mut rx), Ok(2));
    assert_eq!(recv(&mut chan, &mut rx), Err(TryRecvError::Disconnected));
}

#[test]
fn a_batch_is_received_in_order_behind_what_was_there() {
    let (mut chan, mut tx, mut rx) = mpmc::channel::<u64>(8);
    assert!(tx.try_send(&mut chan, 1).is_ok());
    let mut batch = tx.try_send_at_most(&mut chan, 3, || 0).unwrap();
    assert_eq!(batch.write_from_iter(&mut chan, vec![2, 3, 4]), 3);
    batch.finish(&mut chan);
    for value in 1..5 {
        assert_eq!(recv(&mut chan, &mut rx), Ok(value));
    }
}

#[test]
fn a_batch_takes_the_released_slots_up_to_the_first_open_read() {
    let (mut chan, mut tx, mut rx) = mpmc::channel::<u64>(4);
    let mut other = rx.clone_endpoint(&mut chan);
    for value in 0..4 {
        assert!(tx.try_send(&mut chan, value).is_ok());
    }
    assert_eq!(recv(&mut chan, &mut rx), Ok(0));
    assert_eq!(recv(&mut chan, &mut rx), Ok(1));
    let third = other.try_recv(&mut chan).unwrap();
    assert_eq!(recv(&mut chan, &mut rx), Ok(3));
    // Three slots are released, but the third in a row is still being read.
    let batch = tx.try_send_at_most(&mut chan, 4, || 8).unwrap();
    assert_eq!(batch.capacity(), 2);
    batch.finish(&mut chan);
    third.finish(&mut chan);
    let batch = tx.try_send_at_most(&mut chan, 4, || 9).unwrap();
    assert_eq!(batch.capacity(), 2);
    batch.finish(&mut chan);
    for value in [8, 8, 9, 9] {
        assert_eq!(recv(&mut chan, &mut rx), Ok(value));
    }
}

#[test]
fn an_open_claim_outlives_receivers() {
    let (mut chan, mut tx, mut rx0) = mpmc::channel::<u64>(4);
    assert!(tx.try_send(&mut chan, 1).is_ok());
    let mut batch = tx.try_send_at_most(&mut chan, 2, || 0).unwrap();
    assert_eq!(recv(&mut chan, &mut rx0), Ok(1));
    let mut rx1 = rx0.clone_endpoint(&mut chan);
    rx0.disconnect(&mut chan);
    assert_eq!(recv(&mut chan, &mut rx1), Err(TryRecvError::Empty));
    assert_eq!(batch.write_from_iter(&mut chan, vec![2, 3]), 2);
    batch.finish(&mut chan);
    assert_eq!(recv(&mut chan, &mut rx1), Ok(2));
    assert_eq!(recv(&mut chan, &mut rx1), Ok(3));
}

#[test]
fn a_batch_is_refused_by_the_state_of_the_next_slot() {
    let (mut chan, mut tx, mut rx) = mpmc::channel::<u64>(2);
    assert!(tx.try_send(&mut chan, 1).is_ok());
    assert!(tx.try_send(&mut chan, 2).is_ok());
    for limit in [1, 2, 9] {
        assert_eq!(
            tx.try_send_at_most(&mut chan, limit, || 0).err(),
            Some(TrySendAtMostError::Full)
        );
    }
    assert_eq!(recv(&mut chan, &mut rx), Ok(1));
    let batch = tx.try_send_at_most(&mut chan, 9, || 3).unwrap();
    assert_eq!(batch.capacity(), 1);
    batch.finish(&mut chan);
    rx.disconnect(&mut chan);
    for limit in [1, 2, 9] {
        assert_eq!(
            tx.try_send_at_most(&mut chan, limit, || 0).err(),
            Some(TrySendAtMostError::Disconnected)
        );
    }
}

#[test]
fn the_queue_goes_on_while_an_endpoint_of_each_side_is_left() {
    let (mut chan, tx0, mut rx0) = mpmc::channel::<u64>(2);
    let mut tx1 = tx0.clone_endpoint(&mut chan);
    let mut rx1 = rx0.clone_endpoint(&mut chan);
    tx0.disconnect(&mut chan);
    assert_eq!(recv(&mut chan, &mut rx0), Err(TryRecvError::Empty));
    rx0.disconnect(&mut chan);
    for value in 0..9 {
        assert!(tx1.try_send(&mut chan, value).is_ok());
        assert_eq!(recv(&mut chan, &mut rx1), Ok(value));
        assert_eq!(recv(&mut chan, &mut rx1), Err(TryRecvError::Empty));
    }
    tx1.disconnect(&mut chan);
    assert_eq!(recv(&mut chan, &mut rx1), Err(TryRecvError::Disconnected));
}
