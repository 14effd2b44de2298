use enso_channel::errors::{TryRecvAtMostError, TryRecvError, TrySendAtMostError, TrySendError};
use enso_channel::exclusive::spsc;
use enso_channel::permit::{ExactLenMismatch, SendBatch};
use enso_channel::sequencers::Sequencer;

fn recv(chan: &mut spsc::Shared<u64>, rx: &mut spsc::Receiver<u64>) -> Result<u64, TryRecvError> {
    let guard = rx.try_recv(chan)?;
    let value = *guard.get(chan);
    guard.finish(chan);
    Ok(value)
}

fn recv_batch(
    chan: &mut spsc::Shared<u64>,
    rx: &mut spsc::Receiver<u64>,
    limit: usize,
) -> Result<Vec<u64>, TryRecvAtMostError> {
    let mut iter = rx.try_recv_at_most(chan, limit)?;
    let mut values = Vec::new();
    while let Some(value) = iter.next(chan) {
        values.push(*value);
    }
    iter.finish(chan);
    Ok(values)
}

#[test]
fn items_arrive_in_order_over_many_laps() {
    let (mut chan, mut tx, mut rx) = spsc::channel::<u64>(4);
    for value in 0..50 {
        assert!(tx.try_send(&mut chan, value).is_ok());
        assert_eq!(recv(&mut chan, &mut rx), Ok(value));
    }
    assert_eq!(recv(&mut chan, &mut rx), Err(TryRecvError::Empty));
}

#[test]
fn a_full_channel_refuses_and_recovers() {
    let (mut chan, mut tx, mut rx) = spsc::channel::<u64>(2);
    assert!(tx.try_send(&mut chan, 1).is_ok());
    assert!(tx.try_send(&mut chan, 2).is_ok());
    assert!(matches!(tx.try_send(&mut chan, 3), Err(TrySendError::Full(3))));
    assert_eq!(
        tx.try_send_at_most_default(&mut chan, 1).err(),
        Some(TrySendAtMostError::Full)
    );
    assert_eq!(recv(&mut chan, &mut rx), Ok(1));
    assert!(tx.try_send(&mut chan, 3).is_ok());
    assert_eq!(recv_batch(&mut chan, &mut rx, 9), Ok(vec![2, 3]));
    assert_eq!(recv_batch(&mut chan, &mut rx, 9), Err(TryRecvAtMostError::Empty));
}

#[test]
fn an_exact_batch_is_all_or_nothing() {
    let (mut chan, mut tx, mut rx) = spsc::channel::<u64>(4);
    assert!(matches!(
        tx.try_send_many_default(&mut chan, 5).err(),
        Some(TrySendError::Full(()))
    ));
    assert!(tx.try_send(&mut chan, 1).is_ok());
    assert!(matches!(
        tx.try_send_many(&mut chan, 4, || 0).err(),
        Some(TrySendError::Full(()))
    ));
    let batch = tx.try_send_many(&mut chan, 3, || 6).unwrap();
    assert_eq!(batch.capacity(), 3);
    assert_eq!(batch.remaining(), 3);
    batch.finish(&mut chan);
    assert!(matches!(rx.try_recv_many(&mut chan, 5).err(), Some(TryRecvError::Empty)));
    let mut iter = rx.try_recv_many(&mut chan, 4).unwrap();
    assert_eq!(iter.next(&chan), Some(&1));
    assert_eq!(iter.next(&chan), Some(&6));
    // The rest of the batch is released unread.
    iter.finish(&mut chan);
    assert!(matches!(rx.try_recv_many(&mut chan, 1).err(), Some(TryRecvError::Empty)));
}

#[test]
fn a_batch_is_written_in_several_ways() {
    let (mut chan, mut tx, mut rx) = spsc::channel::<u64>(16);

    let mut batch = tx.try_send_many_default(&mut chan, 4).unwrap();
    assert_eq!(batch.try_write_next(&mut chan, 1), Ok(()));
    batch.write_next(&mut chan, 2);
    assert_eq!(batch.remaining(), 2);
    assert_eq!(batch.write_from_iter(&mut chan, vec![3, 4, 5, 6]), 2);
    assert_eq!(batch.try_write_next(&mut chan, 7), Err(7));
    assert_eq!(batch.write_from_iter(&mut chan, vec![8]), 0);
    batch.finish(&mut chan);
    assert_eq!(recv_batch(&mut chan, &mut rx, 16), Ok(vec![1, 2, 3, 4]));

    let mut batch = tx.try_send_at_most(&mut chan, 3, || 40).unwrap();
    assert_eq!(
        batch.try_write_exact(&mut chan, vec![1, 2]),
        Err(ExactLenMismatch { expected: 3, got: 2 })
    );
    assert_eq!(batch.try_write_exact(&mut chan, vec![10, 11, 12]), Ok(()));
    assert_eq!(batch.try_write_exact(&mut chan, vec![]), Ok(()));
    batch.finish(&mut chan);
    assert_eq!(recv_batch(&mut chan, &mut rx, 16), Ok(vec![10, 11, 12]));

    let mut batch = tx.try_send_at_most(&mut chan, 3, || 40).unwrap();
    batch.write_exact(&mut chan, vec![20, 21, 22]);
    batch.finish(&mut chan);
    let mut batch = tx.try_send_at_most_default(&mut chan, 3).unwrap();
    let mut made = 29;
    batch.write_next(&mut chan, 28);
    batch.fill_with(&mut chan, || {
        made += 1;
        made
    });
    batch.finish(&mut chan);
    assert_eq!(recv_batch(&mut chan, &mut rx, 16), Ok(vec![20, 21, 22, 28, 30, 31]));

    let mut batch = tx.try_send_at_most(&mut chan, 100, || 40).unwrap();
    assert_eq!(batch.capacity(), 16);
    batch.write_next(&mut chan, 39);
    batch.finish(&mut chan);
    let values = recv_batch(&mut chan, &mut rx, 100).unwrap();
    assert_eq!(values.len(), 16);
    assert_eq!(values[0], 39);
    assert_eq!(values[15], 40);
}

#[test]
fn a_sender_that_leaves_ends_the_stream() {
    let (mut chan, mut tx, mut rx) = spsc::channel::<u64>(4);
    assert!(tx.try_send(&mut chan, 1).is_ok());
    tx.disconnect(&mut chan);
    assert_eq!(recv(&mut chan, &mut rx), Ok(1));
    assert_eq!(recv(&mut chan, &mut rx), Err(TryRecvError::Disconnected));
    assert_eq!(recv_batch(&mut chan, &mut rx, 2), Err(TryRecvAtMostError::Disconnected));
}

#[test]
fn a_receiver_that_leaves_disconnects_the_sender() {
    let (mut chan, mut tx, rx) = spsc::channel::<u64>(4);
    assert!(tx.try_send(&mut chan, 1).is_ok());
    rx.disconnect(&mut chan);
    assert!(matches!(tx.try_send(&mut chan, 2), Err(TrySendError::Disconnected(2))));
    assert!(matches!(
        tx.try_send_many_default(&mut chan, 1).err(),
        Some(TrySendError::Disconnected(()))
    ));
    assert_eq!(
        tx.try_send_at_most_default(&mut chan, 1).err(),
        Some(TrySendAtMostError::Disconnected)
    );
}

#[test]
fn slots_are_initialized_by_index() {
    let (chan, _tx, _rx) = spsc::channel_with::<usize, fn(usize) -> usize>(8, |index| index * 2);
    assert_eq!(*chan.ring_buffer.get_ref_at(enso_channel::sequence::Sequence::new(5)), 10);
}

#[test]
fn an_open_read_outlives_sends_and_the_sender() {
    let (mut chan, mut tx, mut rx) = spsc::channel::<u64>(2);
    assert!(tx.try_send(&mut chan, 1).is_ok());
    let guard = rx.try_recv(&mut chan).unwrap();
    assert!(tx.try_send(&mut chan, 2).is_ok());
    assert!(matches!(tx.try_send(&mut chan, 3), Err(TrySendError::Full(3))));
    tx.disconnect(&mut chan);
    assert_eq!(*guard.get(&chan), 1);
    guard.finish(&mut chan);
    assert_eq!(recv(&mut chan, &mut rx), Ok(2));
    assert_eq!(recv(&mut chan, &mut rx), Err(TryRecvError::Disconnected));
}

#[test]
fn a_second_claim_may_be_made_while_one_is_open() {
    let (mut chan, mut tx, mut rx) = spsc::channel::<u64>(4);
    let sequencer = &mut tx.inner.publisher_sequencer;
    let (first, _) = sequencer.try_claim_n(&mut chan.gates, 1).unwrap();
    assert!(sequencer.can_claim(&chan.gates));
    let (second, last) = sequencer.try_claim_at_most(&mut chan.gates, 9).unwrap();
    assert_eq!((first.value(), second.value(), last.value()), (0, 1, 3));
    chan.ring_buffer.write_at(first, 5);
    sequencer.commit(&mut chan.gates, first);
    assert_eq!(recv_batch(&mut chan, &mut rx, 4), Ok(vec![5]));
    sequencer.commit_range(&mut chan.gates, second, last);
    assert_eq!(recv_batch(&mut chan, &mut rx, 4), Ok(vec![0, 0, 0]));
}

#[test]
fn a_closure_fills_the_slots_of_a_batch_in_place() {
    let (mut chan, mut tx, mut rx) = spsc::channel_with::<u64, fn(usize) -> u64>(4, |index| index as u64);
    let (start, end) = tx.inner.publisher_sequencer.try_claim_n(&mut chan.gates, 3).unwrap();
    let mut batch = SendBatch::new(&tx.inner, start.value(), end.value(), |slot: &mut u64| *slot += 50);
    batch.write_next(&mut chan, 9);
    batch.finish(&mut chan);
    assert_eq!(recv_batch(&mut chan, &mut rx, 4), Ok(vec![9, 51, 52]));
}

#[test]
fn a_batch_takes_what_the_receiver_has_finished() {
    let (mut chan, mut tx, mut rx) = spsc::channel::<u64>(4);
    for value in 0..4 {
        assert!(tx.try_send(&mut chan, value).is_ok());
    }
    assert_eq!(recv_batch(&mut chan, &mut rx, 3), Ok(vec![0, 1, 2]));
    let mut batch = tx.try_send_at_most(&mut chan, 9, || 7).unwrap();
    assert_eq!(batch.capacity(), 3);
    // The claim stays open while the receiver goes on.
    assert_eq!(recv(&mut chan, &mut rx), Ok(3));
    batch.write_next(&mut chan, 4);
    batch.finish(&mut chan);
    assert_eq!(recv_batch(&mut chan, &mut rx, 9), Ok(vec![4, 7, 7]));
}
