//! A channel, whatever limits how many values it holds.
use std::marker::PhantomData;
use std::task::Waker;
use vstd::prelude::*;

use super::block::Queue;
use super::semaphore::Semaphore;
use crate::identity::Identity;
use crate::semaphore;
use crate::semaphore::{laws, Acquire, AcquireError, Inner, MAX_PERMITS};
use crate::task::Poll;
use crate::wake_list::WakeList;

verus! {

/// The value was not sent: the receiver is gone, or has closed the channel.
#[derive(Debug, PartialEq, Eq)]
pub enum SendError {
    RxClosed,
}

/// Why no value was received at once.
#[derive(Debug, PartialEq, Eq)]
pub enum TryRecvError {
    /// There is no value, but there may be one later.
    Empty,
    /// There is no value, and none can be sent any more: no sender is left, or
    /// the channel is closed.
    Disconnected,
}

/// The wakers of a task that may or may not wait.
pub open spec fn due(waker: Option<Waker>) -> Seq<Waker> {
    match waker {
        Some(w) => seq![w],
        None => Seq::empty(),
    }
}

/// What a channel holds.
pub struct ChanView<T, S: Semaphore> {
    /// The values that have been sent and not been received, in order.
    pub items: Seq<T>,
    /// What limits their number.
    pub semaphore: S::V,
    /// The waker of the receiver, if it waits.
    pub rx_waker: Option<Waker>,
    /// The number of senders.
    pub senders: nat,
}

impl<T, S: Semaphore> ChanView<T, S> {
    /// Whether there is no value, and none can come any more: no sender is left,
    /// or the channel is closed.
    pub open spec fn ended(self) -> bool {
        &&& self.items.len() == 0
        &&& self.senders == 0 || S::closed(self.semaphore)
    }

    /// The channel after `value` has been put into it: it comes out after all
    /// that are there already, and the receiver does not wait any more.
    pub open spec fn put(self, value: T) -> Self {
        ChanView { items: self.items.push(value), rx_waker: None, ..self }
    }

    /// The channel and the wakers that are due once the first value has been
    /// taken out of it.
    pub open spec fn take(self) -> (Self, Seq<Waker>) {
        let (semaphore, woken) = S::released(self.semaphore, 1);
        (ChanView { items: self.items.skip(1), semaphore, ..self }, woken)
    }

    /// The channel and the wakers that are due once it has been closed.
    pub open spec fn close(self) -> (Self, Seq<Waker>) {
        let (semaphore, woken) = S::shut(self.semaphore);
        (ChanView { semaphore, ..self }, woken)
    }

    /// The channel and the wakers that are due once the receiver is gone: the
    /// channel is closed, and the values that are in it are lost.
    pub open spec fn abandon(self) -> (Self, Seq<Waker>) {
        let (semaphore, turned_away) = S::shut(self.semaphore);
        let (semaphore, woken) = S::released(semaphore, self.items.len());
        (ChanView { items: Seq::empty(), semaphore, ..self }, turned_away + woken)
    }
}

/// The part of a channel that its handles share.
pub struct Chan<T, S: Semaphore> {
    id: Identity,
    queue: Queue<T>,
    semaphore: S,
    rx_waker: Option<Waker>,
    tx_count: usize,
}

impl<T, S: Semaphore> Chan<T, S> {
    pub closed spec fn view(&self) -> ChanView<T, S> {
        ChanView {
            items: self.queue@,
            semaphore: self.semaphore@,
            rx_waker: self.rx_waker,
            senders: self.tx_count as nat,
        }
    }

    /// The identity of the channel.
    pub closed spec fn id(&self) -> Identity {
        self.id
    }

    /// What holds of a channel at all times: each value that is in it stands for
    /// a permit that can be added once it comes out.
    pub open spec fn wf(&self) -> bool {
        &&& S::valid(self@.semaphore)
        &&& S::admits(self@.semaphore, self@.items.len())
        &&& self.intact()
    }

    /// The queue is in order, and a semaphore with an identity has that of the
    /// channel.
    pub closed spec fn intact(&self) -> bool {
        &&& self.queue.wf()
        &&& self.semaphore.mark() matches Some(id) ==> id == self.id
    }

    /// A channel without values and without senders.
    pub fn new(id: Identity, semaphore: S) -> (chan: Self)
        requires
            S::valid(semaphore@),
            S::admits(semaphore@, 0),
            semaphore.mark() matches Some(m) ==> m == id,
        ensures
            chan.wf(),
            chan.id() == id,
            chan@ == (ChanView::<T, S> {
                items: Seq::empty(),
                semaphore: semaphore@,
                rx_waker: None,
                senders: 0,
            }),
    {
        Chan { id, queue: Queue::new(), semaphore, rx_waker: None, tx_count: 0 }
    }

    /// The number of values.
    pub fn len(&self) -> (n: usize)
        ensures
            n == self@.items.len(),
    {
        self.queue.len()
    }

    /// The number of senders.
    pub fn sender_count(&self) -> (n: usize)
        ensures
            n == self@.senders,
    {
        self.tx_count
    }

    /// Takes out all values.
    fn drain(&mut self)
        requires
            old(self).queue.wf(),
        ensures
            final(self).queue.wf(),
            final(self).queue@ == Seq::<T>::empty(),
            final(self).id == old(self).id,
            final(self).semaphore == old(self).semaphore,
            final(self).rx_waker == old(self).rx_waker,
            final(self).tx_count == old(self).tx_count,
    {
        while !self.queue.is_empty()
            invariant
                self.queue.wf(),
                self.id == old(self).id,
                self.semaphore == old(self).semaphore,
                self.rx_waker == old(self).rx_waker,
                self.tx_count == old(self).tx_count,
            decreases self.queue@.len(),
        {
            let _value = self.queue.pop_unchecked();
        }
        assert(self.queue@ == Seq::<T>::empty());
    }
}

/// A sender of a channel.
pub struct Tx<T, S: Semaphore> {
    id: Identity,
    marker: PhantomData<(T, S)>,
}

/// The receiver of a channel.
pub struct Rx<T, S: Semaphore> {
    id: Identity,
    marker: PhantomData<(T, S)>,
}

/// A channel of identity `id` with one sender, and its handles.
pub fn channel<T, S: Semaphore>(id: Identity, semaphore: S) -> (made: (
    Chan<T, S>,
    Tx<T, S>,
    Rx<T, S>,
))
    requires
        S::valid(semaphore@),
        S::admits(semaphore@, 0),
        semaphore.mark() matches Some(m) ==> m == id,
    ensures
        made.0.wf(),
        made.0.id() == id,
        made.1.id() == made.0.id(),
        made.2.id() == made.0.id(),
        made.0@ == (ChanView::<T, S> {
            items: Seq::empty(),
            semaphore: semaphore@,
            rx_waker: None,
            senders: 1,
        }),
{
    let mut chan = Chan::new(id, semaphore);
    let tx = Tx::new(&mut chan);
    let rx = Rx::new(&chan);
    (chan, tx, rx)
}

impl<T, S: Semaphore> Tx<T, S> {
    /// The identity of the channel.
    pub closed spec fn id(&self) -> Identity {
        self.id
    }

    /// The identity of the channel.
    pub fn identity(&self) -> (id: Identity)
        ensures
            id == self.id(),
    {
        self.id
    }

    /// A new sender.
    pub fn new(chan: &mut Chan<T, S>) -> (tx: Self)
        requires
            old(chan).wf(),
            old(chan)@.senders < usize::MAX,
        ensures
            final(chan).wf(),
            final(chan).id() == old(chan).id(),
            final(chan)@ == (ChanView { senders: old(chan)@.senders + 1, ..old(chan)@ }),
            tx.id() == old(chan).id(),
    {
        chan.tx_count = chan.tx_count + 1;
        Tx { id: chan.id, marker: PhantomData }
    }

    /// Puts a value into the channel, unless it is closed. There has to be room
    /// for it.
    pub fn send(&self, chan: &mut Chan<T, S>, value: T, wakes: &mut WakeList) -> (result: Result<
        (),
        SendError,
    >)
        requires
            old(chan).wf(),
            old(chan).id() == self.id(),
            !S::closed(old(chan)@.semaphore) ==> old(chan)@.items.len() < usize::MAX && S::admits(
                old(chan)@.semaphore,
                old(chan)@.items.len() + 1,
            ),
        ensures
            final(chan).wf(),
            final(chan).id() == old(chan).id(),
            result is Err <==> S::closed(old(chan)@.semaphore),
            final(chan)@ == (if result is Ok {
                old(chan)@.put(value)
            } else {
                old(chan)@
            }),
            final(wakes)@ == (if result is Ok {
                old(wakes)@ + due(old(chan)@.rx_waker)
            } else {
                old(wakes)@
            }),
    {
        // check if the semaphore is closed
        if chan.semaphore.is_closed() {
            return Err(SendError::RxClosed);
        }
        // put data into the queue
        chan.queue.push_unchecked(value);
        // if rx waker is set, wake it
        match chan.rx_waker.take() {
            Some(w) => {
                wakes.push(w);
            },
            None => {},
        }
        assert(wakes@ == old(wakes)@ + due(old(chan)@.rx_waker));
        Ok(())
    }

    /// Whether the channel is closed.
    pub fn is_closed(&self, chan: &Chan<T, S>) -> (closed: bool)
        requires
            chan.id() == self.id(),
        ensures
            closed == S::closed(chan@.semaphore),
    {
        chan.semaphore.is_closed()
    }

    /// Whether both are senders of the same channel.
    pub fn same_channel(&self, other: &Self) -> (same: bool)
        requires
            self.id().source() == other.id().source(),
        ensures
            same <==> self.id() == other.id(),
    {
        self.id.same(&other.id)
    }

    /// Another sender of the same channel.
    pub fn clone(&self, chan: &mut Chan<T, S>) -> (tx: Self)
        requires
            old(chan).wf(),
            old(chan).id() == self.id(),
            old(chan)@.senders < usize::MAX,
        ensures
            final(chan).wf(),
            final(chan).id() == old(chan).id(),
            final(chan)@ == (ChanView { senders: old(chan)@.senders + 1, ..old(chan)@ }),
            tx.id() == self.id(),
    {
        Tx::new(chan)
    }

    /// Gives the sender up.
    pub fn drop(self, chan: &mut Chan<T, S>)
        requires
            old(chan).wf(),
            old(chan).id() == self.id(),
            old(chan)@.senders > 0,
        ensures
            final(chan).wf(),
            final(chan).id() == old(chan).id(),
            final(chan)@ == (ChanView { senders: (old(chan)@.senders - 1) as nat, ..old(chan)@ }),
    {
        chan.tx_count = chan.tx_count - 1;
    }
}

impl<T, S: Semaphore> Rx<T, S> {
    /// The identity of the channel.
    pub closed spec fn id(&self) -> Identity {
        self.id
    }

    /// The receiver.
    pub fn new(chan: &Chan<T, S>) -> (rx: Self)
        ensures
            rx.id() == chan.id(),
    {
        Rx { id: chan.id, marker: PhantomData }
    }

    /// Takes the first value out of the channel. `None` says that there is no
    /// value and that none can come any more: no sender is left, or the channel is
    /// closed. While one can come, `waker` is kept instead.
    pub fn recv(
        &mut self,
        chan: &mut Chan<T, S>,
        waker: Waker,
        wakes: &mut WakeList,
    ) -> (result: Poll<Option<T>>)
        requires
            old(chan).wf(),
            old(chan).id() == old(self).id(),
        ensures
            *final(self) == *old(self),
            final(chan).wf(),
            final(chan).id() == old(chan).id(),
            old(chan)@.items.len() > 0 ==> {
                &&& result == Poll::Ready(Some(old(chan)@.items[0]))
                &&& final(chan)@ == old(chan)@.take().0
                &&& final(wakes)@ == old(wakes)@ + old(chan)@.take().1
            },
            old(chan)@.ended() ==> {
                &&& result == Poll::Ready(None::<T>)
                &&& final(chan)@ == old(chan)@
                &&& final(wakes)@ == old(wakes)@
            },
            old(chan)@.items.len() == 0 && !old(chan)@.ended() ==> {
                &&& result is Pending
                &&& final(chan)@ == (ChanView { rx_waker: Some(waker), ..old(chan)@ })
                &&& final(wakes)@ == old(wakes)@
            },
    {
        if !chan.queue.is_empty() {
            proof {
                S::lemma_semaphore(chan.semaphore@, 1, (chan.queue@.len() - 1) as nat);
            }
            let val = chan.queue.pop_unchecked();
            chan.semaphore.add_permits(1, wakes);
            return Poll::Ready(Some(val));
        }
        if chan.tx_count == 0 || chan.semaphore.is_closed() {
            return Poll::Ready(None);
        }
        chan.rx_waker = Some(waker);
        Poll::Pending
    }

    /// Takes the first value out of the channel, if there is one.
    pub fn try_recv(&mut self, chan: &mut Chan<T, S>, wakes: &mut WakeList) -> (result: Result<
        T,
        TryRecvError,
    >)
        requires
            old(chan).wf(),
            old(chan).id() == old(self).id(),
        ensures
            *final(self) == *old(self),
            final(chan).wf(),
            final(chan).id() == old(chan).id(),
            old(chan)@.items.len() > 0 ==> {
                &&& result == Ok::<T, TryRecvError>(old(chan)@.items[0])
                &&& final(chan)@ == old(chan)@.take().0
                &&& final(wakes)@ == old(wakes)@ + old(chan)@.take().1
            },
            old(chan)@.items.len() == 0 ==> {
                &&& result == Err::<T, TryRecvError>(
                    if old(chan)@.ended() {
                        TryRecvError::Disconnected
                    } else {
                        TryRecvError::Empty
                    },
                )
                &&& final(chan)@ == old(chan)@
                &&& final(wakes)@ == old(wakes)@
            },
    {
        if !chan.queue.is_empty() {
            proof {
                S::lemma_semaphore(chan.semaphore@, 1, (chan.queue@.len() - 1) as nat);
            }
            let val = chan.queue.pop_unchecked();
            chan.semaphore.add_permits(1, wakes);
            return Ok(val);
        }
        if chan.tx_count == 0 || chan.semaphore.is_closed() {
            return Err(TryRecvError::Disconnected);
        }
        Err(TryRecvError::Empty)
    }

    /// Closes the channel: nothing can be sent any more, but what is in the
    /// channel can still be received.
    pub fn close(&mut self, chan: &mut Chan<T, S>, wakes: &mut WakeList)
        requires
            old(chan).wf(),
            old(chan).id() == old(self).id(),
        ensures
            *final(self) == *old(self),
            final(chan).wf(),
            final(chan).id() == old(chan).id(),
            final(chan)@ == old(chan)@.close().0,
            final(wakes)@ == old(wakes)@ + old(chan)@.close().1,
    {
        proof {
            S::lemma_semaphore(chan.semaphore@, 0, chan.queue@.len());
        }
        chan.semaphore.close(wakes);
    }

    /// Gives the receiver up: the channel is closed, and the values that are in
    /// it are lost.
    pub fn drop(self, chan: &mut Chan<T, S>, wakes: &mut WakeList)
        requires
            old(chan).wf(),
            old(chan).id() == self.id(),
        ensures
            final(chan).wf(),
            final(chan).id() == old(chan).id(),
            final(chan)@ == old(chan)@.abandon().0,
            final(wakes)@ == old(wakes)@ + old(chan)@.abandon().1,
    {
        let ghost before = chan.semaphore@;
        // close the semaphore, so that those who wait to send are turned away
        chan.semaphore.close(wakes);
        // consume all elements
        let len = chan.queue.len();
        chan.drain();
        proof {
            S::lemma_semaphore(before, 0, len as nat);
            S::lemma_semaphore(chan.semaphore@, len as nat, 0);
        }
        chan.semaphore.add_permits(len, wakes);
        proof {
            let (_, woken) = old(chan)@.abandon();
            assert(wakes@ == old(wakes)@ + woken);
        }
    }
}

impl<T> Chan<T, Inner> {
    /// Asks for the permit to put a value into the channel. Once it is there,
    /// there is room for one more value.
    pub fn poll_permit(&mut self, acquire: &mut Acquire, waker: Waker) -> (result: Poll<
        Result<(), AcquireError>,
    >)
        requires
            old(self).wf(),
            old(acquire).requested() == 1,
            old(acquire).belongs_to(old(self).id(), old(self)@.semaphore),
        ensures
            final(self).wf(),
            final(self).id() == old(self).id(),
            final(acquire).requested() == 1,
            final(acquire).belongs_to(final(self).id(), final(self)@.semaphore),
            old(self)@.semaphore.makes_progress(
                1,
                old(acquire).ticket(),
                semaphore::fared(result, final(acquire).ticket()),
            ),
            final(self)@ == (ChanView {
                semaphore: old(self)@.semaphore.asked(
                    1,
                    old(acquire).ticket(),
                    waker,
                    semaphore::fared(result, final(acquire).ticket()),
                ),
                ..old(self)@
            }),
            match result {
                Poll::Ready(Err(_)) => final(acquire).ticket() == old(acquire).ticket(),
                Poll::Ready(Ok(_)) => {
                    &&& final(acquire).ticket() is None
                    &&& final(self)@.items.len() < MAX_PERMITS
                    &&& Inner::admits(final(self)@.semaphore, final(self)@.items.len() + 1)
                },
                Poll::Pending => final(acquire).ticket() is Some,
            },
    {
        let result = acquire.poll(&mut self.semaphore, waker);
        proof {
            laws::law_asking_takes(
                old(self)@.semaphore,
                1,
                old(acquire).ticket(),
                waker,
                semaphore::fared(result, acquire.ticket()),
            );
        }
        result
    }

    /// Gives up the request for a permit.
    pub fn cancel_permit(&mut self, acquire: Acquire, wakes: &mut WakeList)
        requires
            old(self).wf(),
            acquire.belongs_to(old(self).id(), old(self)@.semaphore),
        ensures
            final(self).wf(),
            final(self).id() == old(self).id(),
            match acquire.ticket() {
                None => final(self)@ == old(self)@ && final(wakes)@ == old(wakes)@,
                Some(t) => {
                    &&& final(self)@ == (ChanView {
                        semaphore: old(self)@.semaphore.cancel(t as int).0,
                        ..old(self)@
                    })
                    &&& final(wakes)@ == old(wakes)@ + old(self)@.semaphore.cancel(t as int).1
                },
            },
    {
        proof {
            if let Some(t) = acquire.ticket() {
                laws::law_cancel_keeps(self.semaphore@, t as int);
            }
        }
        acquire.cancel(&mut self.semaphore, wakes);
    }
}

/// The channel after `n` values have been taken out of it one by one.
pub open spec fn taken<T, S: Semaphore>(chan: ChanView<T, S>, n: nat) -> ChanView<T, S>
    decreases n,
{
    if n == 0 {
        chan
    } else {
        taken(chan.take().0, (n - 1) as nat)
    }
}

/// Values come out of a channel in the order in which they went in: when `n`
/// have been taken out, those behind them are left, in the same order.
pub proof fn law_values_come_out_in_order<T, S: Semaphore>(chan: ChanView<T, S>, n: nat)
    requires
        n <= chan.items.len(),
    ensures
        taken(chan, n).items == chan.items.skip(n as int),
    decreases n,
{
    if n == 0 {
        assert(chan.items.skip(0) == chan.items);
    } else {
        law_values_come_out_in_order(chan.take().0, (n - 1) as nat);
        assert(chan.items.skip(1).skip(n - 1) == chan.items.skip(n as int));
    }
}

/// A value that is put into a channel comes out of it, as it was, once all that
/// were there before it have been taken out.
pub proof fn law_what_goes_in_comes_out<T, S: Semaphore>(chan: ChanView<T, S>, value: T)
    ensures
        taken(chan.put(value), chan.items.len()).items == seq![value],
{
    law_values_come_out_in_order(chan.put(value), chan.items.len());
    assert(chan.items.push(value).skip(chan.items.len() as int) == seq![value]);
}

/// A channel that has been closed, or whose receiver is gone, takes no more
/// values. Closing leaves the values that are in it to be received.
pub proof fn law_closed_channel_refuses<T, S: Semaphore>(chan: ChanView<T, S>)
    requires
        S::valid(chan.semaphore),
    ensures
        S::closed(chan.close().0.semaphore),
        chan.close().0.items == chan.items,
        chan.close().0.senders == chan.senders,
        S::closed(chan.abandon().0.semaphore),
{
    S::lemma_semaphore(chan.semaphore, 0, 0);
    S::lemma_semaphore(S::shut(chan.semaphore).0, chan.items.len(), 0);
}

/// What happens to a channel whose receiver is there.
pub enum Event<T> {
    /// A sender has sent this value.
    Sent(T),
    /// The receiver has got this value.
    Received(T),
    /// The receiver has been told that there is no value any more.
    Ended,
    /// Nothing was sent or received: a sender came, went, had to wait or was
    /// refused, the receiver had to wait, or the channel was closed.
    Quiet,
}

/// Whether the event leads from one state of a channel to the other. Only a sender
/// that is there sends, and only a sender that is there can be cloned.
pub open spec fn step<T, S: Semaphore>(
    before: ChanView<T, S>,
    event: Event<T>,
    after: ChanView<T, S>,
) -> bool {
    match event {
        Event::Sent(value) => {
            &&& before.senders > 0
            &&& !S::closed(before.semaphore)
            &&& after.items == before.items.push(value)
        },
        Event::Received(value) => {
            &&& before.items.len() > 0
            &&& value == before.items[0]
            &&& after.items == before.items.skip(1)
        },
        Event::Ended => before.ended() && after == before,
        Event::Quiet => {
            &&& after.items == before.items
            &&& before.senders == 0 ==> after.senders == 0
            &&& S::closed(before.semaphore) ==> S::closed(after.semaphore)
        },
    }
}

/// Whether the events, one after the other, lead from one state of a channel to the
/// other.
pub open spec fn leads<T, S: Semaphore>(
    before: ChanView<T, S>,
    events: Seq<Event<T>>,
    after: ChanView<T, S>,
) -> bool
    decreases events.len(),
{
    if events.len() == 0 {
        after == before
    } else {
        exists|middle: ChanView<T, S>|
            leads(before, events.drop_last(), middle) && #[trigger] step(
                middle,
                events.last(),
                after,
            )
    }
}

/// The values sent, in order.
pub open spec fn sent<T>(events: Seq<Event<T>>) -> Seq<T>
    decreases events.len(),
{
    if events.len() == 0 {
        Seq::empty()
    } else {
        match events.last() {
            Event::Sent(value) => sent(events.drop_last()).push(value),
            _ => sent(events.drop_last()),
        }
    }
}

/// The values received, in order.
pub open spec fn received<T>(events: Seq<Event<T>>) -> Seq<T>
    decreases events.len(),
{
    if events.len() == 0 {
        Seq::empty()
    } else {
        match events.last() {
            Event::Received(value) => received(events.drop_last()).push(value),
            _ => received(events.drop_last()),
        }
    }
}

/// Values are received in the order in which they were sent, none is lost and none
/// comes twice: what has been received, followed by what is in the channel, is what
/// was in it at first, followed by what has been sent. So of a channel that was
/// empty, the values received are the first ones sent, and all of them once it has
/// ended.
pub proof fn law_nothing_is_lost_or_doubled<T, S: Semaphore>(
    before: ChanView<T, S>,
    events: Seq<Event<T>>,
    after: ChanView<T, S>,
)
    requires
        leads(before, events, after),
    ensures
        before.items + sent(events) == received(events) + after.items,
        before.items.len() == 0 ==> received(events).is_prefix_of(sent(events)),
        before.items.len() == 0 && after.ended() ==> received(events) == sent(events),
    decreases events.len(),
{
    if events.len() == 0 {
        assert(before.items + Seq::<T>::empty() == Seq::<T>::empty() + after.items);
    } else {
        let earlier = events.drop_last();
        let middle = choose|middle: ChanView<T, S>|
            leads(before, earlier, middle) && #[trigger] step(middle, events.last(), after);
        law_nothing_is_lost_or_doubled(before, earlier, middle);
        match events.last() {
            Event::Sent(value) => {
                assert(before.items + sent(earlier).push(value) == (before.items + sent(
                    earlier,
                )).push(value));
                assert(received(earlier) + middle.items.push(value) == (received(earlier)
                    + middle.items).push(value));
            },
            Event::Received(value) => {
                assert(received(earlier).push(value) + middle.items.skip(1) == received(earlier)
                    + middle.items);
            },
            _ => {},
        }
    }
    if before.items.len() == 0 {
        assert(before.items + sent(events) == sent(events));
        assert(sent(events).take(received(events).len() as int) == received(events));
        if after.ended() {
            assert(received(events) + after.items == received(events));
        }
    }
}

/// The end is final. Once there is no value, and no sender or a closed channel,
/// nothing can be sent or received any more, and whenever the receiver asks it is
/// told so again.
pub proof fn law_the_end_is_final<T, S: Semaphore>(
    before: ChanView<T, S>,
    events: Seq<Event<T>>,
    after: ChanView<T, S>,
)
    requires
        before.ended(),
        leads(before, events, after),
    ensures
        after.ended(),
        sent(events) == Seq::<T>::empty(),
        received(events) == Seq::<T>::empty(),
    decreases events.len(),
{
    if events.len() > 0 {
        let earlier = events.drop_last();
        let middle = choose|middle: ChanView<T, S>|
            leads(before, earlier, middle) && #[trigger] step(middle, events.last(), after);
        law_the_end_is_final(before, earlier, middle);
    }
}

/// Who may wait is woken if it waits.
pub proof fn law_due(waker: Waker)
    ensures
        due(Some(waker)).len() == 1,
        due(Some(waker))[0] == waker,
        due(None).len() == 0,
{
}

/// A value that is put into a channel is the last one in it. The values before it,
/// the senders and the permits are as before; the receiver does not wait any more.
pub proof fn law_putting<T, S: Semaphore>(chan: ChanView<T, S>, value: T)
    ensures
        ({
            let w = chan.put(value);
            &&& w.items.len() == chan.items.len() + 1
            &&& forall|i: int| 0 <= i < chan.items.len() ==> #[trigger] w.items[i] == chan.items[i]
            &&& w.items[chan.items.len() as int] == value
            &&& w.rx_waker is None
            &&& w.senders == chan.senders
            &&& w.semaphore == chan.semaphore
        }),
{
}

/// Receiving takes the first value out of a channel and adds one permit. It changes
/// neither the other values and their order, nor the number of senders, nor whether
/// the channel is closed, nor the waker that is kept.
pub proof fn law_taking<T, S: Semaphore>(chan: ChanView<T, S>)
    requires
        chan.items.len() > 0,
        S::valid(chan.semaphore),
    ensures
        ({
            let (w, woken) = chan.take();
            &&& w.items.len() == chan.items.len() - 1
            &&& forall|i: int| 0 <= i < w.items.len() ==> #[trigger] w.items[i] == chan.items[i + 1]
            &&& w.senders == chan.senders
            &&& w.rx_waker == chan.rx_waker
            &&& S::closed(w.semaphore) == S::closed(chan.semaphore)
            &&& w.semaphore == S::released(chan.semaphore, 1).0
            &&& woken == S::released(chan.semaphore, 1).1
        }),
{
    S::lemma_semaphore(chan.semaphore, 1, 0);
}

/// Closing a channel closes its semaphore, and changes nothing else.
pub proof fn law_closing<T, S: Semaphore>(chan: ChanView<T, S>)
    requires
        S::valid(chan.semaphore),
    ensures
        ({
            let (w, woken) = chan.close();
            &&& w.items == chan.items
            &&& w.senders == chan.senders
            &&& w.rx_waker == chan.rx_waker
            &&& S::closed(w.semaphore)
            &&& w.semaphore == S::shut(chan.semaphore).0
            &&& woken == S::shut(chan.semaphore).1
        }),
{
    S::lemma_semaphore(chan.semaphore, 0, 0);
}

/// When the receiver goes the semaphore is closed and gets a permit back for each
/// value that was in the channel. No value is left, and the senders are as before.
pub proof fn law_abandoning<T, S: Semaphore>(chan: ChanView<T, S>)
    requires
        S::valid(chan.semaphore),
    ensures
        ({
            let (w, woken) = chan.abandon();
            let shut = S::shut(chan.semaphore);
            let released = S::released(shut.0, chan.items.len());
            &&& w.items.len() == 0
            &&& w.senders == chan.senders
            &&& w.rx_waker == chan.rx_waker
            &&& S::closed(w.semaphore)
            &&& w.semaphore == released.0
            &&& woken == shut.1 + released.1
        }),
{
    law_closed_channel_refuses(chan);
}

/// A channel has ended if and only if it holds no value and none can come: all
/// senders are gone, or it is closed.
pub proof fn law_ending<T, S: Semaphore>(chan: ChanView<T, S>)
    ensures
        chan.ended() <==> chan.items.len() == 0 && (chan.senders == 0 || S::closed(chan.semaphore)),
        chan.items.len() > 0 ==> !chan.ended(),
        chan.senders > 0 && !S::closed(chan.semaphore) ==> !chan.ended(),
{
}

} // verus!
