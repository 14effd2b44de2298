use enso_channel::broadcast;
use enso_channel::errors::{TryRecvError, TrySendError};
use enso_channel::fanout;
use enso_channel::guards::{ChanReadRef, ChanReadRefs, ChanWritePermit, ChanWritePermits};
use enso_channel::receiver::ChanReceiver;
use enso_channel::sender::ChannelSender;
use enso_channel::slot_recycler::ResetWithDefault;

type Made = (fanout::Shared<2, u64>, fanout::Sender<2, u64>, Vec<fanout::Receiver<2, u64>>);

fn open(capacity: usize) -> Made {
    match fanout::channel::<2, u64>(capacity) {
        Ok(made) => made,
        Err(error) => panic!("capacity {} was refused", error.capacity),
    }
}

fn recv(chan: &mut fanout::Shared<2, u64>, rx: &mut fanout::Receiver<2, u64>) -> Result<u64, TryRecvError> {
    let read = rx.try_recv(chan)?;
    let value = *read.get(chan);
    read.finish(chan);
    Ok(value)
}

#[test]
fn every_receiver_sees_every_item() {
    let (mut chan, mut tx, mut rxs) = open(16);
    assert_eq!(rxs.len(), 2);
    assert!(tx.try_send(&mut chan, 42).is_ok());

    let mut permits = tx.try_send_at_most(&mut chan, 16, ResetWithDefault).unwrap();
    let mut i = 100;
    while let Some(permit) = permits.next() {
        permit.write(&mut chan, i);
        i += 1;
    }
    permits.commit(&mut chan);

    assert_eq!(recv(&mut chan, &mut rxs[0]), Ok(42));
    assert_eq!(recv(&mut chan, &mut rxs[1]), Ok(42));
    for i in 100..100 + 15 {
        assert_eq!(recv(&mut chan, &mut rxs[0]), Ok(i));
        assert_eq!(recv(&mut chan, &mut rxs[1]), Ok(i));
    }
    assert_eq!(recv(&mut chan, &mut rxs[0]), Err(TryRecvError::Empty));
}

#[test]
fn the_slowest_receiver_holds_the_sender_back() {
    let (mut chan, mut tx, mut rxs) = open(2);
    assert!(tx.try_send(&mut chan, 1).is_ok());
    assert!(tx.try_send(&mut chan, 2).is_ok());
    assert_eq!(recv(&mut chan, &mut rxs[0]), Ok(1));
    assert_eq!(recv(&mut chan, &mut rxs[0]), Ok(2));
    assert!(matches!(tx.try_send(&mut chan, 3), Err(TrySendError::Full(3))));
    assert_eq!(recv(&mut chan, &mut rxs[1]), Ok(1));
    assert!(tx.try_send(&mut chan, 3).is_ok());
    assert_eq!(recv(&mut chan, &mut rxs[1]), Ok(2));
    assert_eq!(recv(&mut chan, &mut rxs[1]), Ok(3));
}

#[test]
fn a_receiver_that_leaves_holds_nobody_back() {
    let (mut chan, mut tx, mut rxs) = open(1);
    assert!(tx.try_send(&mut chan, 1).is_ok());
    assert_eq!(recv(&mut chan, &mut rxs[0]), Ok(1));
    assert!(matches!(tx.try_send(&mut chan, 2), Err(TrySendError::Full(2))));
    rxs.pop().unwrap().disconnect(&mut chan);
    assert!(tx.try_send(&mut chan, 2).is_ok());
    assert_eq!(recv(&mut chan, &mut rxs[0]), Ok(2));
    rxs.pop().unwrap().disconnect(&mut chan);
    assert!(matches!(tx.try_send(&mut chan, 3), Err(TrySendError::Disconnected(3))));
}

#[test]
fn each_receiver_drains_before_it_is_disconnected() {
    let (mut chan, mut tx, mut rxs) = open(4);
    assert!(tx.try_send(&mut chan, 1).is_ok());
    tx.disconnect(&mut chan);
    assert_eq!(recv(&mut chan, &mut rxs[0]), Ok(1));
    assert_eq!(recv(&mut chan, &mut rxs[0]), Err(TryRecvError::Disconnected));
    assert_eq!(recv(&mut chan, &mut rxs[1]), Ok(1));
    assert_eq!(recv(&mut chan, &mut rxs[1]), Err(TryRecvError::Disconnected));
}

#[test]
fn receivers_read_batches_at_their_own_pace() {
    let (mut chan, mut tx, mut rxs) = open(8);
    for value in 0..6 {
        assert!(tx.try_send(&mut chan, value).is_ok());
    }
    let mut rx1 = rxs.pop().unwrap();
    let mut rx0 = rxs.pop().unwrap();
    let first = rx0.try_recv_at_most(&mut chan, 4).unwrap();
    let second = rx1.try_recv_at_most(&mut chan, 6).unwrap();
    let mut iter = first.iter(&chan);
    assert_eq!(iter.next(), Some(&0));
    assert_eq!(iter.next(), Some(&1));
    assert_eq!(first.iter(&chan).collect(), vec![&0, &1, &2, &3]);
    assert_eq!(second.iter(&chan).collect(), vec![&0, &1, &2, &3, &4, &5]);
    second.finish(&mut chan);
    first.finish(&mut chan);
    assert_eq!(recv(&mut chan, &mut rx0), Ok(4));
    assert_eq!(recv(&mut chan, &mut rx1), Err(TryRecvError::Empty));
}

#[test]
fn a_channel_without_receivers_is_disconnected() {
    let (mut chan, mut tx, rxs) = match fanout::channel::<0, u64>(4) {
        Ok(made) => made,
        Err(_) => panic!("a capacity of four was refused"),
    };
    assert!(rxs.is_empty());
    assert!(matches!(tx.try_send(&mut chan, 1), Err(TrySendError::Disconnected(1))));
}

#[test]
fn initializers_fill_the_ring() {
    let made = fanout::channel_with::<1, u64, fn() -> u64>(3, || 1);
    assert_eq!(made.err().map(|error| error.capacity), Some(3));
    let (chan, _tx, rxs) = match fanout::channel_with::<3, u64, fn() -> u64>(4, || 17) {
        Ok(made) => made,
        Err(_) => panic!("a capacity of four was refused"),
    };
    assert_eq!(rxs.len(), 3);
    assert_eq!(chan.ring_buffer.capacity(), 4);
}

#[test]
fn broadcast_batches_reach_all_receivers() {
    let (mut chan, mut tx, mut rxs) = broadcast::channel::<u64, 2>(8);
    assert!(tx.try_send(&mut chan, 1).is_ok());
    let mut batch = tx.try_send_many(&mut chan, 3, || 70).unwrap();
    batch.write_next(&mut chan, 2);
    batch.finish(&mut chan);
    for rx in rxs.iter_mut() {
        let mut seen = Vec::new();
        let mut iter = rx.try_recv_at_most(&mut chan, 10).unwrap();
        while let Some(value) = iter.next(&chan) {
            seen.push(*value);
        }
        iter.finish(&mut chan);
        assert_eq!(seen, vec![1, 2, 70, 70]);
    }
    rxs.pop().unwrap().disconnect(&mut chan);
    rxs.pop().unwrap().disconnect(&mut chan);
    assert!(matches!(tx.try_send(&mut chan, 3), Err(TrySendError::Disconnected(3))));
}

#[test]
fn broadcast_slots_can_be_initialized_by_index() {
    let (chan, _tx, rxs) = broadcast::channel_with::<usize, fn(usize) -> usize, 1>(4, |index| index + 5);
    assert_eq!(rxs.len(), 1);
    assert_eq!(*chan.ring_buffer.get_ref_at(enso_channel::sequence::Sequence::new(3)), 8);
}
