use std::rc::Rc;
use std::sync::Arc;
use std::task::{Wake, Waker};

use local_sync::identity::Identities;
use local_sync::mpsc::chan;
use local_sync::mpsc::semaphore::{Semaphore, Unlimited};
use local_sync::mpsc::{bounded, unbounded, SendError, TryRecvError};
use local_sync::semaphore::Inner;
use local_sync::task::Poll;
use local_sync::wake_list::WakeList;

struct Task(#[allow(dead_code)] u8);

impl Wake for Task {
    fn wake(self: Arc<Self>) {}
}

fn task() -> Waker {
    Waker::from(Arc::new(Task(0)))
}

#[test]
fn test_chan() {
    let mut ids = Identities::new();
    let mut wakes = WakeList::new();
    let (mut chan, tx, mut rx) = chan::channel(ids.fresh(), Unlimited::new());
    assert_eq!(tx.send(&mut chan, 1, &mut wakes), Ok(()));
    assert_eq!(
        rx.recv(&mut chan, task(), &mut wakes),
        Poll::Ready(Some(1))
    );
}

#[test]
fn tets_bounded_channel() {
    let mut ids = Identities::new();
    let mut wakes = WakeList::new();
    let (mut chan, tx, mut rx) = bounded::channel(&mut ids, 1);
    assert_eq!(
        tx.send(1).poll(&mut chan, task(), &mut wakes),
        Poll::Ready(Ok(()))
    );
    assert_eq!(
        rx.poll_recv(&mut chan, task(), &mut wakes),
        Poll::Ready(Some(1))
    );

    tx.drop(&mut chan);
    assert_eq!(
        rx.poll_recv(&mut chan, task(), &mut wakes),
        Poll::Ready(None)
    );
}

#[test]
fn tets_unbounded_channel() {
    let mut ids = Identities::new();
    let mut wakes = WakeList::new();
    let (mut chan, tx, mut rx) = unbounded::channel(&mut ids);
    tx.send(&mut chan, 1, &mut wakes).unwrap();
    assert_eq!(
        rx.poll_recv(&mut chan, task(), &mut wakes),
        Poll::Ready(Some(1))
    );

    tx.drop(&mut chan);
    assert_eq!(
        rx.poll_recv(&mut chan, task(), &mut wakes),
        Poll::Ready(None)
    );
}

#[test]
fn full_channel_makes_senders_wait_in_order() {
    let mut ids = Identities::new();
    let mut wakes = WakeList::new();
    let wakers = vec![task(), task()];
    let (mut chan, tx, mut rx) = bounded::channel(&mut ids, 2);
    assert_eq!(tx.send(1).poll(&mut chan, task(), &mut wakes), Poll::Ready(Ok(())));
    assert_eq!(tx.send(2).poll(&mut chan, task(), &mut wakes), Poll::Ready(Ok(())));
    let mut third = tx.send(3);
    let mut fourth = tx.send(4);
    assert_eq!(third.poll(&mut chan, wakers[0].clone(), &mut wakes), Poll::Pending);
    assert_eq!(fourth.poll(&mut chan, wakers[1].clone(), &mut wakes), Poll::Pending);
    assert_eq!(chan.len(), 2);

    assert_eq!(rx.try_recv(&mut chan, &mut wakes), Ok(1));
    let woken = wakes.into_vec();
    assert_eq!(woken.len(), 1);
    assert!(woken[0].will_wake(&wakers[0]));
    let mut wakes = WakeList::new();
    // the place is kept for the third value, whoever asks
    assert_eq!(fourth.poll(&mut chan, wakers[1].clone(), &mut wakes), Poll::Pending);
    assert_eq!(third.poll(&mut chan, task(), &mut wakes), Poll::Ready(Ok(())));
    assert_eq!(chan.len(), 2);

    assert_eq!(rx.try_recv(&mut chan, &mut wakes), Ok(2));
    assert_eq!(fourth.poll(&mut chan, task(), &mut wakes), Poll::Ready(Ok(())));
    assert_eq!(rx.try_recv(&mut chan, &mut wakes), Ok(3));
    assert_eq!(rx.try_recv(&mut chan, &mut wakes), Ok(4));
    assert_eq!(rx.try_recv(&mut chan, &mut wakes), Err(TryRecvError::Empty));
}

#[test]
fn sender_that_gives_up_leaves_its_place_to_the_next() {
    let mut ids = Identities::new();
    let mut wakes = WakeList::new();
    let waker = task();
    let (mut chan, tx, mut rx) = bounded::channel(&mut ids, 1);
    assert_eq!(tx.send(1).poll(&mut chan, task(), &mut wakes), Poll::Ready(Ok(())));
    let mut second = tx.send(2);
    let mut third = tx.send(3);
    assert_eq!(second.poll(&mut chan, task(), &mut wakes), Poll::Pending);
    assert_eq!(third.poll(&mut chan, waker.clone(), &mut wakes), Poll::Pending);
    assert_eq!(rx.try_recv(&mut chan, &mut wakes), Ok(1));
    assert_eq!(wakes.len(), 1);
    let mut wakes = WakeList::new();
    second.cancel(&mut chan, &mut wakes);
    let woken = wakes.into_vec();
    assert_eq!(woken.len(), 1);
    assert!(woken[0].will_wake(&waker));
    let mut wakes = WakeList::new();
    assert_eq!(third.poll(&mut chan, task(), &mut wakes), Poll::Ready(Ok(())));
    assert_eq!(rx.try_recv(&mut chan, &mut wakes), Ok(3));
}

#[test]
fn waiting_receiver_is_woken_by_a_value() {
    let mut ids = Identities::new();
    let mut wakes = WakeList::new();
    let waker = task();
    let (mut chan, tx, mut rx) = unbounded::channel(&mut ids);
    assert_eq!(rx.poll_recv(&mut chan, task(), &mut wakes), Poll::Pending);
    assert_eq!(rx.poll_recv(&mut chan, waker.clone(), &mut wakes), Poll::Pending);
    tx.send(&mut chan, 7, &mut wakes).unwrap();
    tx.send(&mut chan, 8, &mut wakes).unwrap();
    let woken = wakes.into_vec();
    assert_eq!(woken.len(), 1);
    assert!(woken[0].will_wake(&waker));
}

#[test]
fn values_come_out_in_the_order_they_went_in() {
    let mut ids = Identities::new();
    let mut wakes = WakeList::new();
    let (mut chan, tx, mut rx) = unbounded::channel(&mut ids);
    let tx2 = tx.clone(&mut chan);
    assert_eq!(chan.sender_count(), 2);
    for i in 0..100 {
        if i % 2 == 0 {
            tx.send(&mut chan, i, &mut wakes).unwrap();
        } else {
            tx2.send(&mut chan, i, &mut wakes).unwrap();
        }
    }
    tx.drop(&mut chan);
    tx2.drop(&mut chan);
    for i in 0..100 {
        assert_eq!(rx.poll_recv(&mut chan, task(), &mut wakes), Poll::Ready(Some(i)));
    }
    assert_eq!(rx.poll_recv(&mut chan, task(), &mut wakes), Poll::Ready(None));
}

#[test]
fn closed_channel_refuses_values_but_can_be_drained() {
    let mut ids = Identities::new();
    let mut wakes = WakeList::new();
    let (mut chan, tx, mut rx) = bounded::channel(&mut ids, 1);
    assert_eq!(tx.send(1).poll(&mut chan, task(), &mut wakes), Poll::Ready(Ok(())));
    let mut waiting = tx.send(2);
    assert_eq!(waiting.poll(&mut chan, task(), &mut wakes), Poll::Pending);
    assert!(!tx.is_closed(&chan));
    rx.close(&mut chan, &mut wakes);
    assert!(tx.is_closed(&chan));
    assert_eq!(wakes.len(), 1);
    assert_eq!(
        waiting.poll(&mut chan, task(), &mut wakes),
        Poll::Ready(Err(SendError::RxClosed))
    );
    waiting.cancel(&mut chan, &mut wakes);
    assert_eq!(
        tx.send(3).poll(&mut chan, task(), &mut wakes),
        Poll::Ready(Err(SendError::RxClosed))
    );
    assert_eq!(rx.try_recv(&mut chan, &mut wakes), Ok(1));
    // nothing can come any more, though there is a sender
    assert_eq!(
        rx.try_recv(&mut chan, &mut wakes),
        Err(TryRecvError::Disconnected)
    );
    assert_eq!(
        rx.poll_recv(&mut chan, task(), &mut wakes),
        Poll::Ready(None)
    );
    tx.drop(&mut chan);
    assert_eq!(
        rx.try_recv(&mut chan, &mut wakes),
        Err(TryRecvError::Disconnected)
    );
    assert_eq!(
        rx.poll_recv(&mut chan, task(), &mut wakes),
        Poll::Ready(None)
    );
}

#[test]
fn bounded_channel_without_senders_ends() {
    let mut ids = Identities::new();
    let mut wakes = WakeList::new();
    let (mut chan, tx, mut rx) = bounded::channel(&mut ids, 2);
    assert_eq!(rx.try_recv(&mut chan, &mut wakes), Err(TryRecvError::Empty));
    assert_eq!(tx.send(1).poll(&mut chan, task(), &mut wakes), Poll::Ready(Ok(())));
    tx.drop(&mut chan);
    assert_eq!(
        rx.poll_recv(&mut chan, task(), &mut wakes),
        Poll::Ready(Some(1))
    );
    for _ in 0..3 {
        assert_eq!(
            rx.poll_recv(&mut chan, task(), &mut wakes),
            Poll::Ready(None)
        );
        assert_eq!(
            rx.try_recv(&mut chan, &mut wakes),
            Err(TryRecvError::Disconnected)
        );
    }
}

#[test]
fn no_more_is_in_flight_than_the_buffer_holds() {
    let mut ids = Identities::new();
    let mut wakes = WakeList::new();
    let (mut chan, tx, mut rx) = bounded::channel(&mut ids, 3);
    let mut sent = 0;
    let mut received = 0;
    for round in 0..40 {
        if tx.send(sent).poll(&mut chan, task(), &mut wakes) == Poll::Ready(Ok(())) {
            sent += 1;
        } else {
            assert_eq!(sent - received, 3);
            break;
        }
        if round % 2 == 1 {
            assert_eq!(rx.try_recv(&mut chan, &mut wakes), Ok(received));
            received += 1;
        }
        assert!(sent - received <= 3);
    }
    assert_eq!(sent, 5);
    assert_eq!(received, 2);
}

#[test]
fn receiver_that_is_gone_takes_the_values_with_it() {
    let mut ids = Identities::new();
    let mut wakes = WakeList::new();
    let (mut chan, tx, rx) = bounded::channel(&mut ids, 2);
    let value = Rc::new(5);
    assert_eq!(
        tx.send(value.clone()).poll(&mut chan, task(), &mut wakes),
        Poll::Ready(Ok(()))
    );
    assert_eq!(
        tx.send(value.clone()).poll(&mut chan, task(), &mut wakes),
        Poll::Ready(Ok(()))
    );
    let mut waiting = tx.send(value.clone());
    assert_eq!(waiting.poll(&mut chan, task(), &mut wakes), Poll::Pending);
    assert_eq!(Rc::strong_count(&value), 4);
    rx.drop(&mut chan, &mut wakes);
    assert_eq!(wakes.len(), 1);
    assert_eq!(chan.len(), 0);
    assert_eq!(Rc::strong_count(&value), 2);
    assert_eq!(
        waiting.poll(&mut chan, task(), &mut wakes),
        Poll::Ready(Err(SendError::RxClosed))
    );
    assert_eq!(Rc::strong_count(&value), 1);
}

#[test]
fn unbounded_sender_is_refused_once_the_receiver_is_gone() {
    let mut ids = Identities::new();
    let mut wakes = WakeList::new();
    let (mut chan, tx, rx) = unbounded::channel(&mut ids);
    tx.send(&mut chan, 1, &mut wakes).unwrap();
    rx.drop(&mut chan, &mut wakes);
    assert_eq!(chan.len(), 0);
    assert_eq!(tx.send(&mut chan, 2, &mut wakes), Err(SendError::RxClosed));
}

#[test]
fn senders_know_their_channel() {
    let mut ids = Identities::new();
    let (mut chan, tx1, _rx1) = bounded::channel::<u8>(&mut ids, 1);
    let (_chan3, tx3, _rx3) = bounded::channel::<u8>(&mut ids, 1);
    let tx2 = tx1.clone(&mut chan);
    assert!(tx1.same_channel(&tx2));
    assert!(!tx1.same_channel(&tx3));
    assert!(!ids.is_exhausted());
}

#[test]
fn unlimited_semaphore_only_knows_whether_it_is_closed() {
    let mut s = Unlimited::new();
    let mut wakes = WakeList::new();
    assert!(!s.is_closed());
    s.add_permits(5, &mut wakes);
    assert!(!s.is_closed());
    s.close(&mut wakes);
    assert!(s.is_closed());
    assert!(wakes.is_empty());
}

#[test]
fn counting_semaphore_limits_a_channel() {
    let mut s = Inner::new(Identities::new().fresh(), 1);
    let mut wakes = WakeList::new();
    Semaphore::add_permits(&mut s, 2, &mut wakes);
    assert_eq!(s.available_permits(), 3);
    Semaphore::close(&mut s, &mut wakes);
    assert!(Semaphore::is_closed(&s));
}

#[test]
fn channel_without_room_never_takes_a_value() {
    let mut ids = Identities::new();
    let mut wakes = WakeList::new();
    let (mut chan, tx, mut rx) = bounded::channel(&mut ids, 0);
    let mut sending = tx.send(1);
    assert_eq!(sending.poll(&mut chan, task(), &mut wakes), Poll::Pending);
    assert_eq!(rx.try_recv(&mut chan, &mut wakes), Err(TryRecvError::Empty));
}
