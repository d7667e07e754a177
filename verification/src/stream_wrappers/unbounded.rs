//! The receiver of an unbounded channel as a stream of values.
use std::task::Waker;
use vstd::prelude::*;

use crate::mpsc::chan::{Chan, ChanView};
use crate::mpsc::semaphore::Unlimited;
use crate::mpsc::unbounded::Rx;
use crate::task::Poll;
use crate::wake_list::WakeList;

verus! {

/// A stream of the values that come out of an unbounded channel.
pub struct ReceiverStream<T> {
    inner: Rx<T>,
}

impl<T> ReceiverStream<T> {
    /// The receiver.
    pub closed spec fn view(&self) -> Rx<T> {
        self.inner
    }

    /// The stream of a receiver.
    pub fn new(recv: Rx<T>) -> (stream: Self)
        ensures
            stream@ == recv,
    {
        ReceiverStream { inner: recv }
    }

    /// Gets the receiver back.
    pub fn into_inner(self) -> (recv: Rx<T>)
        ensures
            recv == self@,
    {
        self.inner
    }

    /// Closes the receiving half of a channel without giving it up.
    ///
    /// This prevents any further messages from being sent on the channel while
    /// still enabling the receiver to drain messages that are buffered.
    ///
    /// To guarantee no messages are dropped, after calling `close()`, you must
    /// receive all items from the stream until `None` is returned.
    pub fn close(&mut self, chan: &mut Chan<T, Unlimited>, wakes: &mut WakeList)
        requires
            old(chan).wf(),
            old(chan).id() == old(self)@.id(),
        ensures
            final(self)@ == old(self)@,
            final(chan).wf(),
            final(chan).id() == old(chan).id(),
            final(chan)@ == (ChanView { semaphore: true, ..old(chan)@ }),
            final(wakes)@ == old(wakes)@,
    {
        self.inner.close(chan, wakes)
    }

    /// The next value of the stream; `None` is its end.
    pub fn poll_next(
        &mut self,
        chan: &mut Chan<T, Unlimited>,
        waker: Waker,
        wakes: &mut WakeList,
    ) -> (result: Poll<Option<T>>)
        requires
            old(chan).wf(),
            old(chan).id() == old(self)@.id(),
        ensures
            final(self)@ == old(self)@,
            final(chan).wf(),
            final(chan).id() == old(chan).id(),
            final(wakes)@ == old(wakes)@,
            old(chan)@.items.len() > 0 ==> {
                &&& result == Poll::Ready(Some(old(chan)@.items[0]))
                &&& final(chan)@ == old(chan)@.take().0
            },
            old(chan)@.ended() ==> {
                &&& result == Poll::Ready(None::<T>)
                &&& final(chan)@ == old(chan)@
            },
            old(chan)@.items.len() == 0 && !old(chan)@.ended() ==> {
                &&& result is Pending
                &&& final(chan)@ == (ChanView { rx_waker: Some(waker), ..old(chan)@ })
            },
    {
        self.inner.poll_recv(chan, waker, wakes)
    }

    /// The receiver.
    pub fn as_ref(&self) -> (recv: &Rx<T>)
        ensures
            *recv == self@,
    {
        &self.inner
    }

    /// The receiver.
    pub fn as_mut(&mut self) -> (recv: &mut Rx<T>)
        ensures
            *recv == old(self)@,
            final(self)@ == *final(recv),
    {
        &mut self.inner
    }
}

impl<T> From<Rx<T>> for ReceiverStream<T> {
    fn from(recv: Rx<T>) -> (stream: Self)
        ensures
            stream@ == recv,
    {
        ReceiverStream { inner: recv }
    }
}

impl<T> vstd::std_specs::convert::FromSpecImpl<Rx<T>> for ReceiverStream<T> {
    open spec fn obeys_from_spec() -> bool {
        true
    }

    closed spec fn from_spec(recv: Rx<T>) -> Self {
        ReceiverStream { inner: recv }
    }
}

} // verus!
