use std::rc::Rc;
use std::sync::Arc;
use std::task::{Wake, Waker};

use local_sync::broadcast::channel;
use local_sync::broadcast::error::{RecvError, SendError, TryRecvError};
use local_sync::identity::Identities;
use local_sync::task::Poll;
use local_sync::wake_list::WakeList;

struct Task(#[allow(dead_code)] u8);

impl Wake for Task {
    fn wake(self: Arc<Self>) {}
}

fn task() -> Waker {
    Waker::from(Arc::new(Task(0)))
}

#[test]
fn basic_usage() {
    let mut ids = Identities::new();
    let mut wakes = WakeList::new();
    let (mut shared, tx, mut rx1) = channel(&mut ids, 16);
    let mut rx2 = tx.subscribe(&mut shared);

    assert!(tx.send(&mut shared, 10, &mut wakes).is_ok());
    assert!(tx.send(&mut shared, 20, &mut wakes).is_ok());

    assert_eq!(rx1.poll_recv(&mut shared, task()), Poll::Ready(Ok(10)));
    assert_eq!(rx2.poll_recv(&mut shared, task()), Poll::Ready(Ok(10)));
    assert_eq!(rx1.poll_recv(&mut shared, task()), Poll::Ready(Ok(20)));
    assert_eq!(rx2.poll_recv(&mut shared, task()), Poll::Ready(Ok(20)));
}

#[test]
fn lagged_receiver() {
    let mut ids = Identities::new();
    let mut wakes = WakeList::new();
    let (mut shared, tx, mut rx) = channel(&mut ids, 2);

    assert!(tx.send(&mut shared, 10, &mut wakes).is_ok());
    assert!(tx.send(&mut shared, 20, &mut wakes).is_ok());
    assert!(tx.send(&mut shared, 30, &mut wakes).is_ok());

    assert!(matches!(
        rx.poll_recv(&mut shared, task()),
        Poll::Ready(Err(RecvError::Lagged(_)))
    ));
    assert_eq!(rx.poll_recv(&mut shared, task()), Poll::Ready(Ok(20)));
    assert_eq!(rx.poll_recv(&mut shared, task()), Poll::Ready(Ok(30)));
}

#[test]
fn receiver_count_on_channel_constructor() {
    let mut ids = Identities::new();
    let mut wakes = WakeList::new();
    let (mut shared, sender, rx) = channel::<i32>(&mut ids, 16);
    rx.drop(&mut shared, &mut wakes);
    assert_eq!(sender.receiver_count(&shared), 0);

    let rx_1 = sender.subscribe(&mut shared);
    assert_eq!(sender.receiver_count(&shared), 1);

    let rx_2 = rx_1.resubscribe(&mut shared);
    assert_eq!(sender.receiver_count(&shared), 2);

    let rx_3 = sender.subscribe(&mut shared);
    assert_eq!(sender.receiver_count(&shared), 3);

    rx_3.drop(&mut shared, &mut wakes);
    rx_1.drop(&mut shared, &mut wakes);
    assert_eq!(sender.receiver_count(&shared), 1);

    rx_2.drop(&mut shared, &mut wakes);
    assert_eq!(sender.receiver_count(&shared), 0);
}

#[test]
fn capacity_is_rounded_up() {
    let mut ids = Identities::new();
    for (asked, given) in vec![(1, 1), (2, 2), (3, 4), (4, 4), (5, 8), (10, 16), (100, 128)] {
        let (shared, _tx, _rx) = channel::<u8>(&mut ids, asked);
        assert_eq!(shared.capacity(), given);
    }
}

#[test]
fn lag_says_how_many_were_missed() {
    let mut ids = Identities::new();
    let mut wakes = WakeList::new();
    let (mut shared, tx, mut rx) = channel(&mut ids, 3);
    for i in 0..10 {
        assert!(tx.send(&mut shared, i, &mut wakes).is_ok());
    }
    assert_eq!(rx.len(&shared), 10);
    assert_eq!(rx.try_recv(&mut shared), Err(TryRecvError::Lagged(6)));
    assert_eq!(rx.len(&shared), 4);
    for i in 6..10 {
        assert_eq!(rx.try_recv(&mut shared), Ok(i));
    }
    assert_eq!(rx.try_recv(&mut shared), Err(TryRecvError::Empty));
}

#[test]
fn receiver_that_keeps_up_never_lags() {
    let mut ids = Identities::new();
    let mut wakes = WakeList::new();
    let (mut shared, tx, mut rx) = channel(&mut ids, 4);
    for i in 0..50 {
        assert!(tx.send(&mut shared, i, &mut wakes).is_ok());
        if i >= 3 {
            assert_eq!(rx.try_recv(&mut shared), Ok(i - 3));
        }
    }
}

#[test]
fn len_counts_what_is_yet_to_be_received() {
    let mut ids = Identities::new();
    let mut wakes = WakeList::new();
    let (mut shared, tx, mut rx1) = channel(&mut ids, 16);
    assert!(rx1.is_empty(&shared));
    assert!(tx.send(&mut shared, 10, &mut wakes).is_ok());
    assert!(tx.send(&mut shared, 20, &mut wakes).is_ok());
    assert_eq!(rx1.len(&shared), 2);
    assert!(!rx1.is_empty(&shared));
    assert_eq!(rx1.try_recv(&mut shared), Ok(10));
    assert_eq!(rx1.len(&shared), 1);
    assert_eq!(rx1.try_recv(&mut shared), Ok(20));
    assert_eq!(rx1.len(&shared), 0);
    assert!(rx1.is_empty(&shared));
    assert_eq!(shared.sent_count(), 2);
}

#[test]
fn new_receiver_sees_only_later_values() {
    let mut ids = Identities::new();
    let mut wakes = WakeList::new();
    let (mut shared, tx, _rx) = channel(&mut ids, 16);
    assert!(tx.send(&mut shared, 10, &mut wakes).is_ok());
    let mut rx = tx.subscribe(&mut shared);
    assert!(tx.send(&mut shared, 20, &mut wakes).is_ok());
    assert_eq!(rx.poll_recv(&mut shared, task()), Poll::Ready(Ok(20)));
}

#[test]
fn closed_channel_tells_receivers_and_senders() {
    let mut ids = Identities::new();
    let mut wakes = WakeList::new();
    let (mut shared, tx, mut rx) = channel(&mut ids, 16);
    assert!(tx.send(&mut shared, 5, &mut wakes).is_ok());
    tx.close(&mut shared, &mut wakes);
    match tx.send(&mut shared, 10, &mut wakes) {
        Err(SendError(value)) => assert_eq!(value, 10),
        Ok(()) => panic!("sent"),
    }
    assert_eq!(rx.poll_recv(&mut shared, task()), Poll::Ready(Ok(5)));
    assert_eq!(
        rx.poll_recv(&mut shared, task()),
        Poll::Ready(Err(RecvError::Closed))
    );
    assert_eq!(rx.try_recv(&mut shared), Err(TryRecvError::Closed));
    assert!(!tx.is_closed(&shared));
}

#[test]
fn channel_without_receivers_waits_for_a_new_one() {
    let mut ids = Identities::new();
    let mut wakes = WakeList::new();
    let (mut shared, tx, rx) = channel(&mut ids, 100);
    assert!(!tx.is_closed(&shared));
    rx.drop(&mut shared, &mut wakes);
    assert!(tx.is_closed(&shared));
    assert!(tx.send(&mut shared, 1, &mut wakes).is_err());
    let mut late = tx.subscribe(&mut shared);
    assert!(!tx.is_closed(&shared));
    assert_eq!(late.try_recv(&mut shared), Err(TryRecvError::Empty));
    assert!(tx.send(&mut shared, 10, &mut wakes).is_ok());
    assert_eq!(late.len(&shared), 1);
    assert_eq!(late.try_recv(&mut shared), Ok(10));
    assert_eq!(late.try_recv(&mut shared), Err(TryRecvError::Empty));
}

#[test]
fn closed_channel_stays_closed_without_receivers() {
    let mut ids = Identities::new();
    let mut wakes = WakeList::new();
    let (mut shared, tx, rx) = channel(&mut ids, 4);
    tx.close(&mut shared, &mut wakes);
    tx.close(&mut shared, &mut wakes);
    rx.drop(&mut shared, &mut wakes);
    let mut late = tx.subscribe(&mut shared);
    assert_eq!(shared.receiver_count(), 1);
    assert!(tx.send(&mut shared, 1, &mut wakes).is_err());
    assert_eq!(late.try_recv(&mut shared), Err(TryRecvError::Closed));
}

#[test]
fn waiting_task_is_woken_when_the_last_receiver_goes() {
    let mut ids = Identities::new();
    let mut wakes = WakeList::new();
    let (mut shared, _tx, mut rx) = channel::<u8>(&mut ids, 4);
    assert_eq!(rx.poll_recv(&mut shared, task()), Poll::Pending);
    rx.drop(&mut shared, &mut wakes);
    assert_eq!(wakes.len(), 1);
}

#[test]
fn channel_closes_with_its_last_sender() {
    let mut ids = Identities::new();
    let mut wakes = WakeList::new();
    let waker = task();
    let (mut shared, tx, mut rx) = channel::<u8>(&mut ids, 1);
    let tx2 = tx.clone(&mut shared);
    assert_eq!(shared.sender_count(), 2);
    assert_eq!(rx.poll_recv(&mut shared, waker.clone()), Poll::Pending);
    tx.drop(&mut shared, &mut wakes);
    assert!(wakes.is_empty());
    assert_eq!(rx.try_recv(&mut shared), Err(TryRecvError::Empty));
    tx2.drop(&mut shared, &mut wakes);
    let woken = wakes.into_vec();
    assert_eq!(woken.len(), 1);
    assert!(woken[0].will_wake(&waker));
    assert_eq!(rx.try_recv(&mut shared), Err(TryRecvError::Closed));
}

#[test]
fn all_waiting_receivers_are_woken() {
    let mut ids = Identities::new();
    let mut wakes = WakeList::new();
    let (mut shared, tx, rx) = channel(&mut ids, 2);
    let mut receivers = vec![rx];
    let mut wakers = Vec::new();
    for _ in 0..49 {
        receivers.push(tx.subscribe(&mut shared));
    }
    for rx in receivers.iter_mut() {
        let waker = task();
        assert_eq!(rx.poll_recv(&mut shared, waker.clone()), Poll::Pending);
        wakers.push(waker);
    }
    assert!(tx.send(&mut shared, 3, &mut wakes).is_ok());
    let woken = wakes.into_vec();
    assert_eq!(woken.len(), 50);
    for i in 0..50 {
        assert!(woken[i].will_wake(&wakers[i]));
    }
    for rx in receivers.iter_mut() {
        assert_eq!(rx.poll_recv(&mut shared, task()), Poll::Ready(Ok(3)));
    }
}

#[test]
fn value_is_released_once_all_have_received_it() {
    let mut ids = Identities::new();
    let mut wakes = WakeList::new();
    let (mut shared, tx, mut rx1) = channel(&mut ids, 4);
    let mut rx2 = tx.subscribe(&mut shared);
    let value = Rc::new(1);
    assert!(tx.send(&mut shared, value.clone(), &mut wakes).is_ok());
    assert_eq!(Rc::strong_count(&value), 2);
    assert!(rx1.try_recv(&mut shared).is_ok());
    assert_eq!(Rc::strong_count(&value), 2);
    assert!(rx2.try_recv(&mut shared).is_ok());
    assert_eq!(Rc::strong_count(&value), 1);
}

#[test]
fn value_is_released_when_who_has_not_received_it_is_gone() {
    let mut ids = Identities::new();
    let mut wakes = WakeList::new();
    let (mut shared, tx, mut rx1) = channel(&mut ids, 4);
    let rx2 = tx.subscribe(&mut shared);
    let value = Rc::new(1);
    assert!(tx.send(&mut shared, value.clone(), &mut wakes).is_ok());
    assert!(rx1.try_recv(&mut shared).is_ok());
    assert_eq!(Rc::strong_count(&value), 2);
    rx2.drop(&mut shared, &mut wakes);
    assert_eq!(Rc::strong_count(&value), 1);
    assert!(tx.send(&mut shared, value.clone(), &mut wakes).is_ok());
    assert_eq!(Rc::strong_count(&value), 2);
}

#[test]
fn dropping_a_lagging_receiver_leaves_the_others_alone() {
    let mut ids = Identities::new();
    let mut wakes = WakeList::new();
    let (mut shared, tx, rx1) = channel(&mut ids, 2);
    let mut rx2 = tx.subscribe(&mut shared);
    for i in 0..5 {
        assert!(tx.send(&mut shared, i, &mut wakes).is_ok());
    }
    rx1.drop(&mut shared, &mut wakes);
    assert_eq!(rx2.try_recv(&mut shared), Err(TryRecvError::Lagged(3)));
    assert_eq!(rx2.try_recv(&mut shared), Ok(3));
    assert_eq!(rx2.try_recv(&mut shared), Ok(4));
}

#[test]
fn broadcast_handles_know_their_channel() {
    let mut ids = Identities::new();
    let (mut shared, tx1, rx1) = channel::<u8>(&mut ids, 16);
    let tx2 = tx1.clone(&mut shared);
    let rx2 = tx1.subscribe(&mut shared);
    let (_other, tx3, rx3) = channel::<u8>(&mut ids, 16);
    assert!(tx1.same_channel(&tx2));
    assert!(!tx1.same_channel(&tx3));
    assert!(rx1.same_channel(&rx2));
    assert!(!rx3.same_channel(&rx2));
}

#[test]
fn broadcast_errors_in_words() {
    assert_eq!(SendError(1).to_string(), "channel closed");
    assert_eq!(RecvError::Closed.to_string(), "channel closed");
    assert_eq!(RecvError::Lagged(0).to_string(), "channel lagged by 0");
    assert_eq!(RecvError::Lagged(1203).to_string(), "channel lagged by 1203");
    assert_eq!(TryRecvError::Empty.to_string(), "channel empty");
    assert_eq!(TryRecvError::Closed.to_string(), "channel closed");
    assert_eq!(
        TryRecvError::Lagged(u64::MAX).to_string(),
        "channel lagged by 18446744073709551615"
    );
    assert_eq!(RecvError::Lagged(4).clone(), RecvError::Lagged(4));
    assert_eq!(TryRecvError::Empty.clone(), TryRecvError::Empty);
}
