//! A channel that holds a limited number of values. Who sends waits while it is
//! full.
use std::task::Waker;
use vstd::prelude::*;

use super::chan;
use super::chan::{Chan, ChanView, SendError, TryRecvError};
use super::semaphore::Semaphore;
use crate::identity::{Identities, Identity};
use crate::semaphore::{
    laws, model, Acquire, Inner, Progress, SemaphoreView, Slot, Waiter, MAX_PERMITS,
};
use crate::task::Poll;
use crate::wake_list::WakeList;

verus! {

/// A sender of a bounded channel.
pub struct Tx<T>(chan::Tx<T, Inner>);

/// The receiver of a bounded channel.
pub struct Rx<T>(chan::Rx<T, Inner>);

/// The number of values that a channel holds when it is full: those that are in
/// it, and those that there are permits for, free or assigned to a sender that
/// waits.
pub open spec fn capacity<T>(chan: ChanView<T, Inner>) -> nat {
    chan.semaphore.held() + chan.items.len()
}

/// A channel that holds `buffer` values, and its handles. Of a number above
/// [`crate::semaphore::MAX_PERMITS`] only the bits below that bound count. The
/// channel is told apart from all others that `ids` names.
pub fn channel<T>(ids: &mut Identities, buffer: usize) -> (made: (Chan<T, Inner>, Tx<T>, Rx<T>))
    requires
        old(ids)@ < u64::MAX,
    ensures
        final(ids).source() == old(ids).source(),
        final(ids)@ == old(ids)@ + 1,
        made.0.wf(),
        made.0.id().source() == old(ids).source(),
        made.0.id()@ == old(ids)@,
        made.1.id() == made.0.id(),
        made.2.id() == made.0.id(),
        made.0@ == (ChanView::<T, Inner> {
            items: Seq::empty(),
            semaphore: SemaphoreView::with_permits(buffer),
            rx_waker: None,
            senders: 1,
        }),
        capacity(made.0@) == SemaphoreView::with_permits(buffer).permits,
        buffer <= usize::MAX / 8 ==> capacity(made.0@) == buffer && made.0@.semaphore.permits
            == buffer,
        buffer > usize::MAX / 8 ==> capacity(made.0@) == buffer as int % (usize::MAX / 8 + 1),
{
    let id = ids.fresh();
    let semaphore = Inner::new(id, buffer);
    assert(semaphore@.held() == semaphore@.permits);
    let (chan, tx, rx) = chan::channel(id, semaphore);
    (chan, Tx(tx), Rx(rx))
}

/// A value on its way into a bounded channel.
pub struct Sending<'a, T> {
    tx: &'a chan::Tx<T, Inner>,
    acquire: Acquire,
    value: Option<T>,
}

impl<'a, T> Sending<'a, T> {
    /// The identity of the channel.
    pub closed spec fn id(&self) -> Identity {
        self.tx.id()
    }

    /// The value, until it has been sent or refused.
    pub closed spec fn value(&self) -> Option<T> {
        self.value
    }

    /// The slot that the channel's semaphore keeps for the sender, if it has had
    /// to wait and is not over.
    pub closed spec fn ticket(&self) -> Option<usize> {
        self.acquire.ticket()
    }

    /// The value takes one permit of the channel it is to go into.
    pub closed spec fn takes_one(&self) -> bool {
        &&& self.acquire.requested() == 1
        &&& self.acquire.id() == self.tx.id()
    }

    /// What holds of a value on its way at all times: it waits for one permit of
    /// the channel.
    pub open spec fn wf(&self, chan: &Chan<T, Inner>) -> bool {
        &&& self.id() == chan.id()
        &&& self.takes_one()
        &&& chan@.semaphore.tracks(1, self.ticket())
    }

    /// Puts the value into the channel once there is a permit for it. Until
    /// then, `waker` stands for the task that waits.
    pub fn poll(
        &mut self,
        chan: &mut Chan<T, Inner>,
        waker: Waker,
        wakes: &mut WakeList,
    ) -> (result: Poll<Result<(), SendError>>)
        requires
            old(chan).wf(),
            old(self).wf(old(chan)),
            old(self).value() is Some,
        ensures
            final(chan).wf(),
            final(chan).id() == old(chan).id(),
            final(self).wf(final(chan)),
            result matches Poll::Ready(Err(_)) <==> old(chan)@.semaphore.closed,
            result matches Poll::Ready(Ok(_)) <==> !old(chan)@.semaphore.closed && match old(
                self,
            ).ticket() {
                None => old(chan)@.semaphore.permits >= 1,
                Some(t) => old(chan)@.semaphore.slots[t as int] is Settled,
            },
            final(chan)@.items == (if result matches Poll::Ready(Ok(_)) {
                old(chan)@.items.push(old(self).value()->0)
            } else {
                old(chan)@.items
            }),
            final(chan)@.senders == old(chan)@.senders,
            final(chan)@.semaphore.closed == old(chan)@.semaphore.closed,
            match result {
                Poll::Ready(Err(_)) => {
                    &&& old(chan)@.semaphore.makes_progress(
                        1,
                        old(self).ticket(),
                        Progress::Closed,
                    )
                    &&& final(chan)@ == old(chan)@
                    &&& final(self).ticket() == old(self).ticket()
                    &&& final(self).value() is None
                    &&& final(wakes)@ == old(wakes)@
                },
                Poll::Ready(Ok(_)) => {
                    &&& old(chan)@.semaphore.makes_progress(
                        1,
                        old(self).ticket(),
                        Progress::Acquired,
                    )
                    &&& final(chan)@ == (ChanView {
                        semaphore: old(chan)@.semaphore.asked(
                            1,
                            old(self).ticket(),
                            waker,
                            Progress::Acquired,
                        ),
                        ..old(chan)@
                    }).put(old(self).value()->0)
                    &&& final(self).ticket() is None
                    &&& final(self).value() is None
                    &&& final(wakes)@ == old(wakes)@ + chan::due(old(chan)@.rx_waker)
                },
                Poll::Pending => {
                    let waiting = Progress::Waiting(final(self).ticket()->0);
                    &&& old(chan)@.semaphore.makes_progress(1, old(self).ticket(), waiting)
                    &&& final(chan)@ == (ChanView {
                        semaphore: old(chan)@.semaphore.asked(
                            1,
                            old(self).ticket(),
                            waker,
                            waiting,
                        ),
                        ..old(chan)@
                    })
                    &&& final(self).ticket() is Some
                    &&& final(self).value() == old(self).value()
                    &&& final(wakes)@ == old(wakes)@
                },
            },
    {
        // acquire the permit first
        match chan.poll_permit(&mut self.acquire, waker) {
            Poll::Pending => Poll::Pending,
            Poll::Ready(Err(_)) => {
                self.value = None;
                Poll::Ready(Err(SendError::RxClosed))
            },
            Poll::Ready(Ok(_)) => {
                let value = self.value.take().unwrap();
                Poll::Ready(self.tx.send(chan, value, wakes))
            },
        }
    }

    /// Gives up sending. A permit that has been assigned goes back to the
    /// channel; if the sender was waiting, it loses its place.
    pub fn cancel(self, chan: &mut Chan<T, Inner>, wakes: &mut WakeList)
        requires
            old(chan).wf(),
            self.wf(old(chan)),
        ensures
            final(chan).wf(),
            final(chan).id() == old(chan).id(),
            match self.ticket() {
                None => final(chan)@ == old(chan)@ && final(wakes)@ == old(wakes)@,
                Some(t) => {
                    &&& final(chan)@ == (ChanView {
                        semaphore: old(chan)@.semaphore.cancel(t as int).0,
                        ..old(chan)@
                    })
                    &&& final(wakes)@ == old(wakes)@ + old(chan)@.semaphore.cancel(t as int).1
                },
            },
    {
        chan.cancel_permit(self.acquire, wakes);
    }
}

impl<T> Tx<T> {
    /// The identity of the channel.
    pub closed spec fn id(&self) -> Identity {
        self.0.id()
    }

    /// A value that is to go into the channel.
    pub fn send(&self, value: T) -> (sending: Sending<'_, T>)
        ensures
            sending.id() == self.id(),
            sending.value() == Some(value),
            sending.ticket() is None,
            sending.takes_one(),
    {
        Sending { tx: &self.0, acquire: Acquire::new(self.0.identity(), 1), value: Some(value) }
    }

    /// Whether the channel is closed.
    pub fn is_closed(&self, chan: &Chan<T, Inner>) -> (closed: bool)
        requires
            chan.id() == self.id(),
        ensures
            closed == chan@.semaphore.closed,
    {
        self.0.is_closed(chan)
    }

    /// Whether both are senders of the same channel.
    pub fn same_channel(&self, other: &Self) -> (same: bool)
        requires
            self.id().source() == other.id().source(),
        ensures
            same <==> self.id() == other.id(),
    {
        self.0.same_channel(&other.0)
    }

    /// Another sender of the same channel.
    pub fn clone(&self, chan: &mut Chan<T, Inner>) -> (tx: Self)
        requires
            old(chan).wf(),
            old(chan).id() == self.id(),
            old(chan)@.senders < usize::MAX,
        ensures
            final(chan).wf(),
            final(chan).id() == old(chan).id(),
            final(chan)@ == (ChanView { senders: old(chan)@.senders + 1, ..old(chan)@ }),
            tx.id() == self.id(),
    {
        Tx(self.0.clone(chan))
    }

    /// Gives the sender up.
    pub fn drop(self, chan: &mut Chan<T, Inner>)
        requires
            old(chan).wf(),
            old(chan).id() == self.id(),
            old(chan)@.senders > 0,
        ensures
            final(chan).wf(),
            final(chan).id() == old(chan).id(),
            final(chan)@ == (ChanView { senders: (old(chan)@.senders - 1) as nat, ..old(chan)@ }),
    {
        self.0.drop(chan);
    }
}

impl<T> Rx<T> {
    /// The identity of the channel.
    pub closed spec fn id(&self) -> Identity {
        self.0.id()
    }

    /// Takes the first value out of the channel. `None` says that there is no
    /// value and that none can come any more: no sender is left, or the channel is
    /// closed. While one can come, `waker` is kept instead.
    pub fn poll_recv(
        &mut self,
        chan: &mut Chan<T, Inner>,
        waker: Waker,
        wakes: &mut WakeList,
    ) -> (result: Poll<Option<T>>)
        requires
            old(chan).wf(),
            old(chan).id() == old(self).id(),
        ensures
            *final(self) == *old(self),
            final(chan).wf(),
            final(chan).id() == old(chan).id(),
            old(chan)@.items.len() > 0 ==> {
                &&& result == Poll::Ready(Some(old(chan)@.items[0]))
                &&& final(chan)@ == old(chan)@.take().0
                &&& final(wakes)@ == old(wakes)@ + old(chan)@.take().1
            },
            old(chan)@.ended() ==> {
                &&& result == Poll::Ready(None::<T>)
                &&& final(chan)@ == old(chan)@
                &&& final(wakes)@ == old(wakes)@
            },
            old(chan)@.items.len() == 0 && !old(chan)@.ended() ==> {
                &&& result is Pending
                &&& final(chan)@ == (ChanView { rx_waker: Some(waker), ..old(chan)@ })
                &&& final(wakes)@ == old(wakes)@
            },
    {
        self.0.recv(chan, waker, wakes)
    }

    /// Takes the first value out of the channel, if there is one.
    pub fn try_recv(&mut self, chan: &mut Chan<T, Inner>, wakes: &mut WakeList) -> (result: Result<
        T,
        TryRecvError,
    >)
        requires
            old(chan).wf(),
            old(chan).id() == old(self).id(),
        ensures
            *final(self) == *old(self),
            final(chan).wf(),
            final(chan).id() == old(chan).id(),
            old(chan)@.items.len() > 0 ==> {
                &&& result == Ok::<T, TryRecvError>(old(chan)@.items[0])
                &&& final(chan)@ == old(chan)@.take().0
                &&& final(wakes)@ == old(wakes)@ + old(chan)@.take().1
            },
            old(chan)@.items.len() == 0 ==> {
                &&& result == Err::<T, TryRecvError>(
                    if old(chan)@.ended() {
                        TryRecvError::Disconnected
                    } else {
                        TryRecvError::Empty
                    },
                )
                &&& final(chan)@ == old(chan)@
                &&& final(wakes)@ == old(wakes)@
            },
    {
        self.0.try_recv(chan, wakes)
    }

    /// Closes the channel: nothing can be sent any more, but what is in the
    /// channel can still be received.
    pub fn close(&mut self, chan: &mut Chan<T, Inner>, wakes: &mut WakeList)
        requires
            old(chan).wf(),
            old(chan).id() == old(self).id(),
        ensures
            *final(self) == *old(self),
            final(chan).wf(),
            final(chan).id() == old(chan).id(),
            final(chan)@ == old(chan)@.close().0,
            final(wakes)@ == old(wakes)@ + old(chan)@.close().1,
    {
        self.0.close(chan, wakes);
    }

    /// Gives the receiver up: the channel is closed, and the values that are in
    /// it are lost.
    pub fn drop(self, chan: &mut Chan<T, Inner>, wakes: &mut WakeList)
        requires
            old(chan).wf(),
            old(chan).id() == self.id(),
        ensures
            final(chan).wf(),
            final(chan).id() == old(chan).id(),
            final(chan)@ == old(chan)@.abandon().0,
            final(wakes)@ == old(wakes)@ + old(chan)@.abandon().1,
    {
        self.0.drop(chan, wakes);
    }
}

/// Sending keeps the capacity of a channel, whether the value goes in, has to
/// wait or is refused.
pub proof fn law_sending_keeps_capacity<T>(
    chan: ChanView<T, Inner>,
    ticket: Option<usize>,
    waker: Waker,
    progress: Progress,
    value: T,
)
    requires
        chan.semaphore.valid(),
        chan.semaphore.tracks(1, ticket),
        chan.semaphore.makes_progress(1, ticket, progress),
    ensures
        ({
            let asked = ChanView::<T, Inner> {
                semaphore: chan.semaphore.asked(1, ticket, waker, progress),
                ..chan
            };
            capacity(if progress is Acquired {
                asked.put(value)
            } else {
                asked
            }) == capacity(chan)
        }),
{
    laws::law_asking_takes(chan.semaphore, 1, ticket, waker, progress);
}

/// Giving up sending keeps the capacity of a channel.
pub proof fn law_cancelling_keeps_capacity<T>(chan: ChanView<T, Inner>, t: int)
    requires
        chan.semaphore.valid(),
        0 <= t < chan.semaphore.slots.len(),
        chan.semaphore.slots[t] !is Vacant,
    ensures
        capacity(
            ChanView::<T, Inner> { semaphore: chan.semaphore.cancel(t).0, ..chan },
        ) == capacity(chan),
{
    laws::law_cancel_keeps(chan.semaphore, t);
}

/// Receiving keeps the capacity of a channel.
pub proof fn law_receiving_keeps_capacity<T>(chan: ChanView<T, Inner>)
    requires
        chan.semaphore.valid(),
        chan.items.len() > 0,
    ensures
        capacity(chan.take().0) == capacity(chan),
{
    laws::law_release_adds(chan.semaphore, 1);
}

/// Closing a channel, and giving its receiver up, keep its capacity.
pub proof fn law_closing_keeps_capacity<T>(chan: ChanView<T, Inner>)
    requires
        chan.semaphore.valid(),
    ensures
        capacity(chan.close().0) == capacity(chan),
        capacity(chan.abandon().0) == capacity(chan),
{
    laws::law_close_keeps(chan.semaphore);
    laws::law_release_adds(chan.semaphore.close().0, chan.items.len());
}

/// A channel that holds as many values as its capacity takes no more: who sends has
/// to wait, whether it has waited before or not.
pub proof fn law_full_channel_makes_senders_wait<T>(
    chan: ChanView<T, Inner>,
    ticket: Option<usize>,
    waker: Waker,
    progress: Progress,
)
    requires
        chan.semaphore.valid(),
        chan.items.len() == capacity(chan),
        !chan.semaphore.closed,
        chan.semaphore.tracks(1, ticket),
        chan.semaphore.makes_progress(1, ticket, progress),
    ensures
        progress is Waiting,
{
    laws::law_asking_takes(chan.semaphore, 1, ticket, waker, progress);
}

/// While nobody waits to send, and no permit is set aside for a sender that has
/// waited, a channel takes values until it holds as many as its capacity.
pub proof fn law_room_takes_a_value<T>(chan: ChanView<T, Inner>, progress: Progress)
    requires
        chan.semaphore.valid(),
        !chan.semaphore.closed,
        chan.semaphore.permits == chan.semaphore.held(),
        chan.items.len() < capacity(chan),
        chan.semaphore.makes_progress(1, None, progress),
    ensures
        progress is Acquired,
{
}

/// When a value comes out, the sender that has waited longest is woken, and its
/// permit is there.
pub proof fn law_receiving_wakes_the_longest_waiting_sender<T>(chan: ChanView<T, Inner>)
    requires
        chan.semaphore.valid(),
        !chan.semaphore.closed,
        chan.items.len() > 0,
        chan.semaphore.queue.len() > 0,
        chan.semaphore.queue[0].requested == 1,
    ensures
        ({
            let first = chan.semaphore.queue[0];
            let (after, woken) = chan.take();
            &&& woken == seq![first.waker]
            &&& after.semaphore.makes_progress(1, Some(first.ticket), Progress::Acquired)
            &&& after.semaphore.queue == chan.semaphore.queue.skip(1)
        }),
{
    let first = chan.semaphore.queue[0];
    let rest = chan.semaphore.settle_first();
    assert(first.missing == 1);
    assert(chan.semaphore.release(1) == (rest, seq![first.waker] + rest.release(0).1));
    assert(seq![first.waker] + Seq::<Waker>::empty() == seq![first.waker]);
}

/// When the channel is closed, or its receiver is gone, every sender that waits is
/// woken, the longest waiting first, and whoever asks then is refused.
pub proof fn law_closing_turns_senders_away<T>(
    chan: ChanView<T, Inner>,
    ticket: Option<usize>,
    when_closed: Progress,
    when_abandoned: Progress,
)
    requires
        chan.semaphore.valid(),
        chan.semaphore.tracks(1, ticket),
        chan.close().0.semaphore.makes_progress(1, ticket, when_closed),
        chan.abandon().0.semaphore.makes_progress(1, ticket, when_abandoned),
    ensures
        when_closed is Closed,
        when_abandoned is Closed,
        chan.close().1 == chan.semaphore.queue.map_values(|w: Waiter| w.waker),
        chan.abandon().1 == chan.semaphore.queue.map_values(|w: Waiter| w.waker),
{
    let (shut, turned_away) = chan.semaphore.close();
    laws::lemma_release_keeps_closed(shut, chan.items.len());
    assert(turned_away + Seq::<Waker>::empty() == turned_away);
}

/// An operation on a channel whose receiver is there.
pub enum Operation<T> {
    /// A sender asks to put a value into the channel, and fares as `progress` says.
    Send { ticket: Option<usize>, waker: Waker, progress: Progress, value: T },
    /// A sender that has waited gives up.
    GiveUp(usize),
    /// The receiver gets a value.
    Receive,
    /// The receiver finds no value, and does not wait.
    Ask,
    /// The receiver finds no value, and waits.
    Wait(Waker),
    /// The receiver closes the channel.
    Close,
    /// A sender is cloned.
    CloneSender,
    /// A sender goes.
    DropSender,
}

impl<T> Operation<T> {
    /// Whether the operation can take place: who takes part in it is there.
    pub open spec fn possible(self, v: ChanView<T, Inner>) -> bool {
        match self {
            Operation::Send { ticket, progress, .. } => {
                &&& v.senders > 0
                &&& v.semaphore.tracks(1, ticket)
                &&& v.semaphore.makes_progress(1, ticket, progress)
            },
            Operation::GiveUp(t) => t < v.semaphore.slots.len() && v.semaphore.slots[t as int]
                !is Vacant,
            Operation::Receive => v.items.len() > 0,
            Operation::Ask => v.items.len() == 0,
            Operation::Wait(_) => v.items.len() == 0 && !v.ended(),
            Operation::Close => true,
            Operation::CloneSender | Operation::DropSender => v.senders > 0,
        }
    }

    /// The channel after the operation.
    pub open spec fn after(self, v: ChanView<T, Inner>) -> ChanView<T, Inner> {
        match self {
            Operation::Send { ticket, waker, progress, value } => {
                let asked = ChanView::<T, Inner> {
                    semaphore: v.semaphore.asked(1, ticket, waker, progress),
                    ..v
                };
                if progress is Acquired {
                    asked.put(value)
                } else {
                    asked
                }
            },
            Operation::GiveUp(t) => ChanView { semaphore: v.semaphore.cancel(t as int).0, ..v },
            Operation::Receive => v.take().0,
            Operation::Ask => v,
            Operation::Wait(waker) => ChanView { rx_waker: Some(waker), ..v },
            Operation::Close => v.close().0,
            Operation::CloneSender => ChanView { senders: v.senders + 1, ..v },
            Operation::DropSender => ChanView { senders: (v.senders - 1) as nat, ..v },
        }
    }

    /// What the operation is to those who send and receive.
    pub open spec fn event(self, v: ChanView<T, Inner>) -> chan::Event<T> {
        match self {
            Operation::Send { progress, value, .. } => if progress is Acquired {
                chan::Event::Sent(value)
            } else {
                chan::Event::Quiet
            },
            Operation::Receive => chan::Event::Received(v.items[0]),
            Operation::Ask => if v.ended() {
                chan::Event::Ended
            } else {
                chan::Event::Quiet
            },
            _ => chan::Event::Quiet,
        }
    }
}

/// The channel after a sequence of operations.
pub open spec fn run<T>(v: ChanView<T, Inner>, ops: Seq<Operation<T>>) -> ChanView<T, Inner>
    decreases ops.len(),
{
    if ops.len() == 0 {
        v
    } else {
        ops.last().after(run(v, ops.drop_last()))
    }
}

/// Whether a sequence of operations can take place.
pub open spec fn feasible<T>(v: ChanView<T, Inner>, ops: Seq<Operation<T>>) -> bool
    decreases ops.len(),
{
    ops.len() == 0 || {
        &&& feasible(v, ops.drop_last())
        &&& ops.last().possible(run(v, ops.drop_last()))
    }
}

/// What a sequence of operations is to those who send and receive.
pub open spec fn events<T>(v: ChanView<T, Inner>, ops: Seq<Operation<T>>) -> Seq<chan::Event<T>>
    decreases ops.len(),
{
    if ops.len() == 0 {
        Seq::empty()
    } else {
        events(v, ops.drop_last()).push(ops.last().event(run(v, ops.drop_last())))
    }
}

/// Every operation keeps the semaphore valid and the capacity the same, and is an
/// event in the sense of [`chan::step`].
pub proof fn law_operations_are_events<T>(v: ChanView<T, Inner>, op: Operation<T>)
    requires
        v.semaphore.valid(),
        capacity(v) <= MAX_PERMITS,
        op.possible(v),
    ensures
        op.after(v).semaphore.valid(),
        capacity(op.after(v)) == capacity(v),
        chan::step(v, op.event(v), op.after(v)),
{
    match op {
        Operation::Send { ticket, waker, progress, value } => {
            law_sending_keeps_capacity(v, ticket, waker, progress, value);
            model::lemma_asked_valid(v.semaphore, 1, ticket, waker, progress);
        },
        Operation::GiveUp(t) => {
            let rest = v.semaphore.without(t as int);
            let granted = v.semaphore.granted(t as int);
            law_cancelling_keeps_capacity(v, t as int);
            model::lemma_without_valid(v.semaphore, t as int);
            laws::lemma_release_keeps_closed(rest, granted);
            model::lemma_release_valid(rest, granted);
        },
        Operation::Receive => {
            law_receiving_keeps_capacity(v);
            Inner::lemma_semaphore(v.semaphore, 1, 0);
        },
        Operation::Close => {
            law_closing_keeps_capacity(v);
            Inner::lemma_semaphore(v.semaphore, 0, 0);
        },
        _ => {},
    }
}

/// Whatever happens to a bounded channel that was empty at first, the values sent
/// are more than those received by no more than its capacity: the channel holds the
/// rest. A channel of capacity 0 never takes a value.
pub proof fn law_never_fuller_than_capacity<T>(v: ChanView<T, Inner>, ops: Seq<Operation<T>>)
    requires
        v.semaphore.valid(),
        v.items.len() == 0,
        capacity(v) <= MAX_PERMITS,
        feasible(v, ops),
    ensures
        ({
            let w = run(v, ops);
            let events = events(v, ops);
            &&& w.semaphore.valid()
            &&& capacity(w) == capacity(v)
            &&& chan::leads(v, events, w)
            &&& chan::sent(events) == chan::received(events) + w.items
            &&& chan::sent(events).len() - chan::received(events).len() == w.items.len()
                <= capacity(v)
            &&& capacity(v) == 0 ==> chan::sent(events) == Seq::<T>::empty()
        }),
    decreases ops.len(),
{
    let w = run(v, ops);
    let all = events(v, ops);
    if ops.len() > 0 {
        let before = ops.drop_last();
        law_never_fuller_than_capacity(v, before);
        law_operations_are_events(run(v, before), ops.last());
        assert(all.drop_last() == events(v, before));
        assert(chan::step(run(v, before), all.last(), w));
    }
    chan::law_nothing_is_lost_or_doubled(v, all, w);
    assert(v.items + chan::sent(all) == chan::sent(all));
    if capacity(v) == 0 && ops.len() > 0 {
        assert(chan::sent(all).len() == chan::sent(all.drop_last()).len());
    }
}

/// The capacity of a channel is the number of values in it and of the permits in its
/// semaphore; while no sender waits or has a permit set aside, of those that are
/// free.
pub proof fn law_capacity<T>(chan: ChanView<T, Inner>)
    ensures
        capacity(chan) == chan.items.len() + chan.semaphore.held(),
        chan.semaphore.queue.len() == 0 && chan.semaphore.slots.len() == 0 ==> capacity(chan)
            == chan.items.len() + chan.semaphore.permits,
{
    if chan.semaphore.queue.len() == 0 && chan.semaphore.slots.len() == 0 {
        assert(chan.semaphore.queue.map_values(|w: Waiter| w.granted()) =~= Seq::<nat>::empty());
        assert(chan.semaphore.slots.map_values(|s: Slot| s.granted()) =~= Seq::<nat>::empty());
    }
}

/// How often a sender is cloned in the course of a sequence of operations.
pub open spec fn clones<T>(ops: Seq<Operation<T>>) -> int
    decreases ops.len(),
{
    if ops.len() == 0 {
        0
    } else {
        clones(ops.drop_last()) + if ops.last() is CloneSender {
            1int
        } else {
            0int
        }
    }
}

/// How many senders go in the course of a sequence of operations.
pub open spec fn departures<T>(ops: Seq<Operation<T>>) -> int
    decreases ops.len(),
{
    if ops.len() == 0 {
        0
    } else {
        departures(ops.drop_last()) + if ops.last() is DropSender {
            1int
        } else {
            0int
        }
    }
}

/// Only clones and drops change the number of senders, and only the receiver's
/// closing closes a channel. So it has ended only if it is empty, and all senders
/// that there were or came have gone, or it was closed.
pub proof fn law_what_ends_a_channel<T>(v: ChanView<T, Inner>, ops: Seq<Operation<T>>)
    requires
        v.semaphore.valid(),
        capacity(v) <= MAX_PERMITS,
        feasible(v, ops),
    ensures
        ({
            let w = run(v, ops);
            let shut = v.semaphore.closed || exists|i: int|
                0 <= i < ops.len() && #[trigger] ops[i] is Close;
            &&& w.semaphore.valid()
            &&& capacity(w) == capacity(v)
            &&& w.senders == v.senders + clones(ops) - departures(ops)
            &&& w.semaphore.closed <==> shut
            &&& w.ended() ==> w.items.len() == 0 && (v.senders + clones(ops) == departures(ops)
                || shut)
        }),
    decreases ops.len(),
{
    if ops.len() > 0 {
        let before = ops.drop_last();
        let now = run(v, before);
        let op = ops.last();
        law_what_ends_a_channel(v, before);
        law_operations_are_events(now, op);
        assert(op == ops[ops.len() - 1]);
        assert(forall|i: int| 0 <= i < before.len() ==> #[trigger] before[i] == ops[i]);
        assert(op.after(now).semaphore.closed <==> now.semaphore.closed || op is Close) by {
            match op {
                Operation::GiveUp(t) => {
                    laws::lemma_release_keeps_closed(
                        now.semaphore.without(t as int),
                        now.semaphore.granted(t as int),
                    );
                },
                Operation::Receive => {
                    laws::lemma_release_keeps_closed(now.semaphore, 1);
                },
                _ => {},
            }
        }
        if exists|i: int| 0 <= i < ops.len() && #[trigger] ops[i] is Close {
            let i = choose|i: int| 0 <= i < ops.len() && #[trigger] ops[i] is Close;
            if i < before.len() {
                assert(before[i] is Close);
            }
        }
        if exists|i: int| 0 <= i < before.len() && #[trigger] before[i] is Close {
            let i = choose|i: int| 0 <= i < before.len() && #[trigger] before[i] is Close;
            assert(ops[i] is Close);
        }
    }
}

} // verus!
