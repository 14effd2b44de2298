use enso_channel::errors::{InvalidChannelSize, TryRecvError, TryReserveError, TrySendAtMostError, TrySendError};
use enso_channel::fanout;
use enso_channel::guards::{ChanReadRef, ChanReadRefs, ChanWritePermit, ChanWritePermits};
use enso_channel::mpsc;
use enso_channel::receiver::ChanReceiver;
use enso_channel::sender::ChannelSender;
use enso_channel::sequencers::pub_mul::{has_shutdown, SHUTDOWN_MASK, VALUE_MASK};
use enso_channel::sequencers::Sequencer;
use enso_channel::slot_recycler::{ResetWith, ResetWithCloneable, ResetWithDefault};

fn assert_send<T: Send>() {}

#[test]
fn mpsc_is_send() {
    assert_send::<mpsc::Sender<u32>>();
    assert_send::<mpsc::Receiver<u32>>();
}

#[test]
fn broadcast_is_send() {
    assert_send::<fanout::Sender<2, u32>>();
    assert_send::<fanout::Receiver<2, u32>>();
}

fn open(capacity: usize) -> (mpsc::Shared<u64>, mpsc::Sender<u64>, mpsc::Receiver<u64>) {
    match mpsc::channel(capacity) {
        Ok(made) => made,
        Err(error) => panic!("capacity {} was refused", error.capacity),
    }
}

fn recv(chan: &mut mpsc::Shared<u64>, rx: &mut mpsc::Receiver<u64>) -> Result<u64, TryRecvError> {
    let read = rx.try_recv(chan)?;
    let value = *read.get(chan);
    read.finish(chan);
    Ok(value)
}

fn recv_batch(
    chan: &mut mpsc::Shared<u64>,
    rx: &mut mpsc::Receiver<u64>,
    limit: usize,
) -> Result<Vec<u64>, TryRecvError> {
    let batch = rx.try_recv_at_most(chan, limit)?;
    let mut values = Vec::new();
    for item in batch.iter(chan).collect() {
        values.push(*item);
    }
    batch.finish(chan);
    Ok(values)
}

#[test]
fn capacities_that_are_no_power_of_two_are_refused() {
    for capacity in [0, 3, 6, 7, 12, usize::MAX] {
        assert_eq!(
            mpsc::channel::<u64>(capacity).err(),
            Some(InvalidChannelSize { capacity })
        );
    }
    assert!(mpsc::channel::<u64>(1).is_ok());
    assert!(mpsc::channel_with(5, || 0u64).is_err());
}

#[test]
fn two_senders_and_a_batch_arrive_in_order() {
    let (mut chan, mut tx, mut rx) = open(16);
    let mut tx_cp = tx.clone_endpoint(&mut chan);
    assert!(tx.try_send(&mut chan, 1).is_ok());
    assert!(tx_cp.try_send(&mut chan, 2).is_ok());

    let mut permits = tx.try_send_at_most(&mut chan, 10, ResetWithDefault).unwrap();
    assert_eq!(permits.total_reserved(), 10);
    for i in 3..12 {
        if let Some(permit) = permits.next() {
            permit.write(&mut chan, i);
        }
    }
    permits.commit(&mut chan);

    // The tenth slot was reserved, not written, and recycled.
    assert_eq!(
        recv_batch(&mut chan, &mut rx, 30),
        Ok(vec![1, 2, 3, 4, 5, 6, 7, 8, 9, 10, 11, 0])
    );
    assert_eq!(recv(&mut chan, &mut rx), Err(TryRecvError::Empty));
}

#[test]
fn single_and_batch_receives_share_one_stream() {
    let (mut chan, mut tx, mut rx) = open(64);
    assert!(tx.try_send(&mut chan, 42).is_ok());
    assert_eq!(recv(&mut chan, &mut rx), Ok(42));

    for _ in 0..2 {
        let mut batch = tx.try_send_at_most(&mut chan, 8, ResetWithDefault).unwrap();
        let mut i = 0;
        while let Some(permit) = batch.next() {
            i += 1;
            permit.write(&mut chan, i);
        }
        batch.commit(&mut chan);
    }
    assert_eq!(recv_batch(&mut chan, &mut rx, 8), Ok(vec![1, 2, 3, 4, 5, 6, 7, 8]));
    assert_eq!(recv_batch(&mut chan, &mut rx, 20).map(|batch| batch.len()), Ok(8));
}

#[test]
fn a_full_channel_hands_the_value_back() {
    let (mut chan, mut tx, mut rx) = open(2);
    assert!(tx.try_send(&mut chan, 1).is_ok());
    assert!(tx.try_send(&mut chan, 2).is_ok());
    assert!(matches!(tx.try_send(&mut chan, 3), Err(TrySendError::Full(3))));
    assert_eq!(
        tx.try_reserve(&mut chan, ResetWithDefault).err(),
        Some(TryReserveError::Full)
    );
    assert_eq!(
        tx.try_send_at_most(&mut chan, 1, ResetWithDefault).err(),
        Some(TrySendAtMostError::Full)
    );
    assert_eq!(recv(&mut chan, &mut rx), Ok(1));
    assert!(tx.try_send(&mut chan, 3).is_ok());
    assert_eq!(recv_batch(&mut chan, &mut rx, 5), Ok(vec![2, 3]));
}

#[test]
fn an_item_that_is_being_read_keeps_its_slot() {
    let (mut chan, mut tx, mut rx) = open(1);
    assert!(tx.try_send(&mut chan, 5).is_ok());
    let read = rx.try_recv(&mut chan).unwrap();
    assert!(matches!(tx.try_send(&mut chan, 6), Err(TrySendError::Full(6))));
    assert_eq!(*read.get(&chan), 5);
    read.finish(&mut chan);
    assert!(tx.try_send(&mut chan, 6).is_ok());
    assert_eq!(recv(&mut chan, &mut rx), Ok(6));
}

#[test]
fn at_most_takes_what_is_free_and_what_is_there() {
    let (mut chan, mut tx, mut rx) = open(4);
    assert!(tx.try_send(&mut chan, 1).is_ok());
    let batch = tx.try_send_at_most(&mut chan, 100, ResetWith(|| 9u64)).unwrap();
    assert_eq!(batch.total_reserved(), 3);
    batch.commit(&mut chan);
    assert_eq!(recv_batch(&mut chan, &mut rx, 2), Ok(vec![1, 9]));
    assert_eq!(recv_batch(&mut chan, &mut rx, usize::MAX), Ok(vec![9, 9]));
    assert_eq!(recv_batch(&mut chan, &mut rx, 1), Err(TryRecvError::Empty));
}

#[test]
fn a_limit_of_zero_is_an_empty_batch_in_any_state() {
    let (mut chan, mut tx, mut rx) = open(1);
    assert_eq!(recv_batch(&mut chan, &mut rx, 0), Ok(vec![]));
    assert!(tx.try_send(&mut chan, 1).is_ok());
    let mut batch = tx.try_send_at_most(&mut chan, 0, ResetWithDefault).unwrap();
    assert_eq!(batch.total_reserved(), 0);
    assert!(batch.next().is_none());
    batch.commit(&mut chan);
    assert_eq!(recv(&mut chan, &mut rx), Ok(1));
    assert_eq!(recv(&mut chan, &mut rx), Err(TryRecvError::Empty));
    rx.disconnect(&mut chan);
    assert!(tx.try_send_at_most(&mut chan, 0, ResetWithDefault).is_ok());
}

#[test]
fn a_permit_writes_updates_or_recycles_its_slot() {
    let (mut chan, mut tx, mut rx) = open(4);
    let permit = tx.try_reserve(&mut chan, ResetWithDefault).unwrap();
    permit.write(&mut chan, 7);
    let permit = tx.try_reserve(&mut chan, ResetWithCloneable(99)).unwrap();
    permit.release(&mut chan);
    let permit = tx.try_reserve(&mut chan, ResetWithDefault).unwrap();
    permit.update_in_place(&mut chan, |slot: &mut u64| *slot += 3);
    let permit = tx.try_reserve(&mut chan, |slot: &mut u64| *slot = 55).unwrap();
    permit.release(&mut chan);
    assert_eq!(recv_batch(&mut chan, &mut rx, 4), Ok(vec![7, 99, 3, 55]));
}

#[test]
fn permits_of_a_batch_may_be_released_one_by_one() {
    let (mut chan, mut tx, mut rx) = open(4);
    let mut batch = tx.try_send_at_most(&mut chan, 3, ResetWithCloneable(8)).unwrap();
    batch.next().unwrap().write(&mut chan, 1);
    batch.next().unwrap().release(&mut chan);
    batch
        .next()
        .unwrap()
        .update_in_place(&mut chan, |slot: &mut u64| *slot = 2);
    assert!(batch.next().is_none());
    batch.commit(&mut chan);
    assert_eq!(recv_batch(&mut chan, &mut rx, 4), Ok(vec![1, 8, 2]));
}

#[test]
fn nothing_of_a_batch_is_visible_before_its_commit() {
    let (mut chan, mut tx, mut rx) = open(4);
    let mut other = tx.clone_endpoint(&mut chan);
    let mut batch = tx.try_send_at_most(&mut chan, 2, ResetWithDefault).unwrap();
    batch.next().unwrap().write(&mut chan, 1);
    batch.next().unwrap().write(&mut chan, 2);
    // A later value waits behind the open batch.
    assert!(other.try_send(&mut chan, 3).is_ok());
    assert_eq!(recv(&mut chan, &mut rx), Err(TryRecvError::Empty));
    batch.commit(&mut chan);
    assert_eq!(recv_batch(&mut chan, &mut rx, 4), Ok(vec![1, 2, 3]));
}

#[test]
fn the_stream_is_drained_before_it_is_disconnected() {
    let (mut chan, mut tx, mut rx) = open(16);
    let other = tx.clone_endpoint(&mut chan);
    assert!(tx.try_send(&mut chan, 42).is_ok());
    tx.disconnect(&mut chan);
    assert_eq!(recv(&mut chan, &mut rx), Ok(42));
    // One sender is left.
    assert_eq!(recv(&mut chan, &mut rx), Err(TryRecvError::Empty));
    other.disconnect(&mut chan);
    assert_eq!(recv(&mut chan, &mut rx), Err(TryRecvError::Disconnected));
    assert_eq!(recv_batch(&mut chan, &mut rx, 64), Err(TryRecvError::Disconnected));
}

#[test]
fn a_stream_that_ends_full_is_drained_first() {
    let (mut chan, mut tx, mut rx) = open(2);
    assert!(tx.try_send(&mut chan, 1).is_ok());
    assert!(tx.try_send(&mut chan, 2).is_ok());
    tx.disconnect(&mut chan);
    assert_eq!(recv(&mut chan, &mut rx), Ok(1));
    assert_eq!(recv(&mut chan, &mut rx), Ok(2));
    assert_eq!(recv(&mut chan, &mut rx), Err(TryRecvError::Disconnected));
}

#[test]
fn a_stream_without_items_ends_at_once() {
    let (mut chan, tx, mut rx) = open(2);
    assert_eq!(recv(&mut chan, &mut rx), Err(TryRecvError::Empty));
    tx.disconnect(&mut chan);
    assert_eq!(recv(&mut chan, &mut rx), Err(TryRecvError::Disconnected));
}

#[test]
fn a_receiver_that_leaves_does_not_stop_an_open_batch() {
    let (mut chan, mut tx, rx) = open(16);
    let mut batch = tx.try_send_at_most(&mut chan, 8, ResetWithDefault).unwrap();
    rx.disconnect(&mut chan);
    while let Some(permit) = batch.next() {
        permit.write(&mut chan, 0);
    }
    batch.commit(&mut chan);
    assert_eq!(
        tx.try_send_at_most(&mut chan, 8, ResetWithDefault).err(),
        Some(TrySendAtMostError::Disconnected)
    );
    assert!(matches!(tx.try_send(&mut chan, 4), Err(TrySendError::Disconnected(4))));
    assert_eq!(
        tx.try_reserve(&mut chan, ResetWithDefault).err(),
        Some(TryReserveError::Disconnected)
    );
}

#[test]
fn termination_stops_all_senders_and_discards_later_commits() {
    let (mut chan, mut tx, mut rx) = open(8);
    let mut other = tx.clone_endpoint(&mut chan);
    assert!(tx.try_send(&mut chan, 1).is_ok());
    let permit = tx.try_reserve(&mut chan, ResetWithDefault).unwrap();
    other.terminate(&mut chan);
    permit.write(&mut chan, 2);
    assert!(matches!(other.try_send(&mut chan, 3), Err(TrySendError::Disconnected(3))));
    assert!(matches!(tx.try_send(&mut chan, 4), Err(TrySendError::Disconnected(4))));
    other.terminate(&mut chan);
    assert_eq!(recv_batch(&mut chan, &mut rx, 8), Ok(vec![1]));
    assert_eq!(recv(&mut chan, &mut rx), Err(TryRecvError::Disconnected));
}

#[test]
fn termination_before_the_first_send_disconnects_both_sides() {
    let (mut chan, mut tx, mut rx) = open(2);
    tx.terminate(&mut chan);
    assert!(matches!(tx.try_send(&mut chan, 1), Err(TrySendError::Disconnected(1))));
    assert_eq!(recv(&mut chan, &mut rx), Err(TryRecvError::Disconnected));
}

#[test]
fn many_laps_keep_the_order() {
    let (mut chan, mut tx, mut rx) = open(4);
    let mut next_sent = 0;
    let mut next_received = 0;
    for round in 0..200 {
        for _ in 0..(round % 5) {
            if tx.try_send(&mut chan, next_sent).is_ok() {
                next_sent += 1;
            }
        }
        if let Ok(values) = recv_batch(&mut chan, &mut rx, 1 + round % 3) {
            for value in values {
                assert_eq!(value, next_received);
                next_received += 1;
            }
        }
    }
    assert!(next_received > 100);
}

#[test]
fn each_slot_is_initialized_by_the_initializer() {
    let (mut chan, mut tx, mut rx) = match mpsc::channel_with(2, || 31u64) {
        Ok(made) => made,
        Err(_) => panic!("a capacity of two was refused"),
    };
    let permit = tx.try_reserve(&mut chan, ResetWithDefault).unwrap();
    permit.update_in_place(&mut chan, |slot: &mut u64| *slot += 1);
    assert_eq!(recv(&mut chan, &mut rx), Ok(32));
}

#[test]
fn an_open_read_outlives_the_senders() {
    let (mut chan, mut tx, mut rx) = open(2);
    assert!(tx.try_send(&mut chan, 5).is_ok());
    assert!(tx.try_send(&mut chan, 6).is_ok());
    let read = rx.try_recv(&mut chan).unwrap();
    tx.disconnect(&mut chan);
    assert_eq!(*read.get(&chan), 5);
    read.finish(&mut chan);
    assert_eq!(recv(&mut chan, &mut rx), Ok(6));
    assert_eq!(recv(&mut chan, &mut rx), Err(TryRecvError::Disconnected));
}

#[test]
fn an_open_read_outlives_termination() {
    let (mut chan, mut tx, mut rx) = open(2);
    assert!(tx.try_send(&mut chan, 5).is_ok());
    let batch = rx.try_recv_at_most(&mut chan, 2).unwrap();
    tx.terminate(&mut chan);
    assert_eq!(batch.iter(&chan).collect(), vec![&5]);
    batch.finish(&mut chan);
    assert_eq!(recv(&mut chan, &mut rx), Err(TryRecvError::Disconnected));
}

#[test]
fn claims_of_all_senders_follow_each_other() {
    let (mut chan, tx0, mut rx) = open(4);
    let mut tx1 = tx0.clone_endpoint(&mut chan);
    let mut tx0 = tx0;
    let mut claims = Vec::new();
    for round in 0..40 {
        let tx = if round % 3 == 1 { &mut tx1 } else { &mut tx0 };
        let sequencer = &mut tx.publisher_sequencer;
        let limit: i64 = 1 + round % 5;
        let claim = if round % 2 == 0 {
            sequencer.try_claim_at_most(&mut chan.gates, limit)
        } else {
            sequencer.try_claim_n(&mut chan.gates, limit)
        };
        if let Ok((start, end)) = claim {
            assert!(end.value() - start.value() < limit && end.value() - start.value() < 4);
            sequencer.commit_range(&mut chan.gates, start, end);
            claims.push((start.value(), end.value()));
        }
        let _ = recv_batch(&mut chan, &mut rx, 1 + (round as usize) % 3);
    }
    let mut next = 0;
    for (start, end) in claims {
        assert_eq!(start, next);
        assert!(start <= end);
        next = end + 1;
    }
    assert!(next > 40);
}

#[test]
fn the_stream_goes_on_while_a_sender_is_left() {
    let (mut chan, tx0, mut rx) = open(2);
    let mut tx1 = tx0.clone_endpoint(&mut chan);
    tx0.disconnect(&mut chan);
    assert_eq!(recv(&mut chan, &mut rx), Err(TryRecvError::Empty));
    let tx2 = tx1.clone_endpoint(&mut chan);
    assert!(tx1.try_send(&mut chan, 1).is_ok());
    tx1.disconnect(&mut chan);
    assert_eq!(recv(&mut chan, &mut rx), Ok(1));
    assert_eq!(recv(&mut chan, &mut rx), Err(TryRecvError::Empty));
    tx2.disconnect(&mut chan);
    assert_eq!(recv(&mut chan, &mut rx), Err(TryRecvError::Disconnected));
}

#[test]
fn the_shutdown_bit_keeps_the_last_claimed_sequence() {
    for claimed in [0, 1, 77, i64::MAX - 1] {
        assert!(!has_shutdown(claimed));
        assert!(has_shutdown(claimed | SHUTDOWN_MASK));
        assert_eq!((claimed | SHUTDOWN_MASK) & VALUE_MASK, claimed);
    }
    // Nothing claimed looks like the last sequence number with the bit set.
    assert!(!has_shutdown(-1));
    assert_eq!(i64::MAX | SHUTDOWN_MASK, -1);
}
