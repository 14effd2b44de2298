use enso_channel::exclusive::spsc;
use enso_channel::fanout;
use enso_channel::guards::{ChanReadRef, ChanReadRefs};
use enso_channel::mpsc;
use enso_channel::receiver::ChanReceiver;
use enso_channel::sender::ChannelSender;
use enso_channel::sequencers::{ConsumerSequencer, Polled, Sequencer};
use enso_channel::slot_recycler::ResetWithDefault;
use enso_channel::waker::Waker;
use std::sync::atomic::{AtomicUsize, Ordering};
use std::sync::Arc;

struct Count(AtomicUsize);

impl std::task::Wake for Count {
    fn wake(self: Arc<Self>) {
        self.0.fetch_add(1, Ordering::SeqCst);
    }
}

fn task() -> (Arc<Count>, std::task::Waker) {
    let count = Arc::new(Count(AtomicUsize::new(0)));
    (count.clone(), std::task::Waker::from(count))
}

fn woken(count: &Arc<Count>) -> usize {
    count.0.load(Ordering::SeqCst)
}

fn open() -> (mpsc::Shared<u64>, mpsc::Sender<u64>, mpsc::Receiver<u64>) {
    match mpsc::channel(4) {
        Ok(made) => made,
        Err(_) => panic!("a capacity of four was refused"),
    }
}

#[test]
fn a_registered_task_is_woken_once() {
    let (count, waker) = task();
    let mut cell = Waker::new();
    cell.wake();
    assert_eq!(woken(&count), 0);
    cell.register(&waker);
    assert_eq!(woken(&count), 0);
    cell.wake();
    assert_eq!(woken(&count), 1);
    cell.wake();
    assert_eq!(woken(&count), 1);
}

#[test]
fn a_later_registration_replaces_the_earlier_one() {
    let (first, first_waker) = task();
    let (second, second_waker) = task();
    let mut cell = Waker::new();
    cell.register(&first_waker);
    cell.register(&second_waker);
    cell.wake();
    assert_eq!(woken(&first), 0);
    assert_eq!(woken(&second), 1);
}

#[test]
fn a_pending_receive_is_woken_by_a_send() {
    let (mut chan, mut tx, mut rx) = open();
    let (count, waker) = task();
    assert!(matches!(rx.poll_recv(&mut chan, &waker), Polled::Pending));
    assert_eq!(woken(&count), 0);
    assert!(tx.try_send(&mut chan, 5).is_ok());
    assert_eq!(woken(&count), 1);
    match rx.poll_recv(&mut chan, &waker) {
        Polled::Ready(Some(read)) => {
            assert_eq!(*read.get(&chan), 5);
            read.finish(&mut chan);
        }
        _ => panic!("the item is there"),
    }
    // Nothing was registered by the poll that found the item.
    assert!(tx.try_send(&mut chan, 6).is_ok());
    assert_eq!(woken(&count), 1);
}

#[test]
fn a_pending_batch_is_woken_by_a_commit_only() {
    let (mut chan, mut tx, mut rx) = open();
    let (count, waker) = task();
    assert!(matches!(rx.poll_recv_at_most(&mut chan, 3, &waker), Polled::Pending));
    let permit = tx.try_reserve(&mut chan, ResetWithDefault).unwrap();
    assert_eq!(woken(&count), 0);
    enso_channel::guards::ChanWritePermit::write(permit, &mut chan, 9);
    assert_eq!(woken(&count), 1);
    match rx.poll_recv_at_most(&mut chan, 3, &waker) {
        Polled::Ready(Some(batch)) => {
            assert_eq!(batch.iter(&chan).collect(), vec![&9]);
            batch.finish(&mut chan);
        }
        _ => panic!("the item is there"),
    }
}

#[test]
fn a_pending_receive_is_woken_by_the_end_of_the_stream() {
    let (mut chan, tx, mut rx) = open();
    let other = tx.clone_endpoint(&mut chan);
    let (count, waker) = task();
    assert!(matches!(rx.poll_recv(&mut chan, &waker), Polled::Pending));
    tx.disconnect(&mut chan);
    assert_eq!(woken(&count), 0);
    other.disconnect(&mut chan);
    assert_eq!(woken(&count), 1);
    assert!(matches!(rx.poll_recv(&mut chan, &waker), Polled::Ready(None)));
    assert!(matches!(rx.poll_recv_at_most(&mut chan, 2, &waker), Polled::Ready(None)));
}

#[test]
fn a_pending_receive_is_woken_by_termination() {
    let (mut chan, tx, mut rx) = open();
    let (count, waker) = task();
    assert!(matches!(rx.poll_recv(&mut chan, &waker), Polled::Pending));
    tx.terminate(&mut chan);
    assert_eq!(woken(&count), 1);
    assert!(matches!(rx.poll_recv(&mut chan, &waker), Polled::Ready(None)));
}

#[test]
fn a_poll_for_zero_items_is_ready_at_once() {
    let (mut chan, _tx, mut rx) = open();
    let (count, waker) = task();
    match rx.poll_recv_at_most(&mut chan, 0, &waker) {
        Polled::Ready(Some(batch)) => {
            assert!(batch.iter(&chan).collect().is_empty());
            batch.finish(&mut chan);
        }
        _ => panic!("an empty batch is always there"),
    }
    assert_eq!(woken(&count), 0);
}

#[test]
fn every_waiting_receiver_is_woken() {
    let (mut chan, mut tx, mut rxs) = match fanout::channel::<3, u64>(4) {
        Ok(made) => made,
        Err(_) => panic!("a capacity of four was refused"),
    };
    let tasks: Vec<(Arc<Count>, std::task::Waker)> = vec![task(), task(), task()];
    assert!(matches!(rxs[0].poll_recv(&mut chan, &tasks[0].1), Polled::Pending));
    assert!(matches!(rxs[2].poll_recv(&mut chan, &tasks[2].1), Polled::Pending));
    assert!(tx.try_send(&mut chan, 1).is_ok());
    assert_eq!(woken(&tasks[0].0), 1);
    assert_eq!(woken(&tasks[1].0), 0);
    assert_eq!(woken(&tasks[2].0), 1);
}

#[test]
fn a_single_sender_wakes_by_a_commit_and_by_leaving() {
    let (mut chan, mut tx, mut rx) = spsc::channel::<u64>(2);
    let (count, waker) = task();
    let sequencer = &mut rx.inner.consumer_sequencer;
    assert!(matches!(sequencer.poll_claim_at_most(&mut chan.gates, 1, &waker), Polled::Pending));
    assert!(tx.try_send(&mut chan, 1).is_ok());
    assert_eq!(woken(&count), 1);
    assert!(tx.try_send(&mut chan, 2).is_ok());
    assert_eq!(woken(&count), 1);
    match sequencer.poll_claim_at_most(&mut chan.gates, 2, &waker) {
        Polled::Ready(Ok((start, end))) => sequencer.commit_range(&mut chan.gates, start, end),
        _ => panic!("two items are there"),
    }
    assert!(matches!(sequencer.poll_claim_at_most(&mut chan.gates, 1, &waker), Polled::Pending));
    tx.disconnect(&mut chan);
    assert_eq!(woken(&count), 2);
}

#[test]
fn receivers_and_other_senders_wake_nobody() {
    let (mut chan, tx, mut rxs) = match fanout::channel::<2, u64>(2) {
        Ok(made) => made,
        Err(_) => panic!("a capacity of two was refused"),
    };
    let (count, waker) = task();
    assert!(matches!(rxs[0].poll_recv(&mut chan, &waker), Polled::Pending));
    let mut other = tx.clone_endpoint(&mut chan);
    tx.disconnect(&mut chan);
    let leaving = rxs.remove(1);
    leaving.disconnect(&mut chan);
    assert_eq!(woken(&count), 0);
    assert!(other.try_send(&mut chan, 1).is_ok());
    assert_eq!(woken(&count), 1);
}
