use std::sync::Arc;
use std::task::{Wake, Waker};

use local_sync::identity::Identities;
use local_sync::mpsc::{unbounded, SendError};
use local_sync::stream_wrappers::unbounded::ReceiverStream;
use local_sync::task::Poll;
use local_sync::wake_list::WakeList;

struct Task(#[allow(dead_code)] u8);

impl Wake for Task {
    fn wake(self: Arc<Self>) {}
}

fn task() -> Waker {
    Waker::from(Arc::new(Task(0)))
}

#[test]
fn stream_yields_the_values_and_then_ends() {
    let mut ids = Identities::new();
    let mut wakes = WakeList::new();
    let (mut chan, tx, rx) = unbounded::channel(&mut ids);
    let mut stream = ReceiverStream::new(rx);
    assert_eq!(stream.poll_next(&mut chan, task(), &mut wakes), Poll::Pending);
    tx.send(&mut chan, 1, &mut wakes).unwrap();
    tx.send(&mut chan, 2, &mut wakes).unwrap();
    assert_eq!(wakes.len(), 1);
    tx.drop(&mut chan);
    assert_eq!(
        stream.poll_next(&mut chan, task(), &mut wakes),
        Poll::Ready(Some(1))
    );
    assert_eq!(
        stream.poll_next(&mut chan, task(), &mut wakes),
        Poll::Ready(Some(2))
    );
    assert_eq!(
        stream.poll_next(&mut chan, task(), &mut wakes),
        Poll::Ready(None)
    );
}

#[test]
fn closed_stream_can_be_drained() {
    let mut ids = Identities::new();
    let mut wakes = WakeList::new();
    let (mut chan, tx, rx) = unbounded::channel(&mut ids);
    let mut stream = ReceiverStream::from(rx);
    tx.send(&mut chan, 1, &mut wakes).unwrap();
    stream.close(&mut chan, &mut wakes);
    assert_eq!(tx.send(&mut chan, 2, &mut wakes), Err(SendError::RxClosed));
    assert_eq!(
        stream.poll_next(&mut chan, task(), &mut wakes),
        Poll::Ready(Some(1))
    );
    // the stream ends though there is a sender
    assert_eq!(
        stream.poll_next(&mut chan, task(), &mut wakes),
        Poll::Ready(None)
    );
    tx.drop(&mut chan);
    assert_eq!(
        stream.poll_next(&mut chan, task(), &mut wakes),
        Poll::Ready(None)
    );
}

#[test]
fn stream_gives_its_receiver_back() {
    let mut ids = Identities::new();
    let mut wakes = WakeList::new();
    let (mut chan, tx, rx) = unbounded::channel(&mut ids);
    let mut stream = ReceiverStream::new(rx);
    tx.send(&mut chan, 1, &mut wakes).unwrap();
    tx.send(&mut chan, 2, &mut wakes).unwrap();
    assert_eq!(
        stream.as_mut().poll_recv(&mut chan, task(), &mut wakes),
        Poll::Ready(Some(1))
    );
    let _rx = stream.as_ref();
    let mut rx = stream.into_inner();
    assert_eq!(
        rx.poll_recv(&mut chan, task(), &mut wakes),
        Poll::Ready(Some(2))
    );
}
