//! A channel that holds any number of values. Who sends never waits.
use std::task::Waker;
use vstd::prelude::*;

use super::chan;
use super::chan::{Chan, ChanView, SendError};
use super::semaphore::Unlimited;
use crate::identity::{Identities, Identity};
use crate::task::Poll;
use crate::wake_list::WakeList;

verus! {

/// A sender of an unbounded channel.
pub struct Tx<T>(chan::Tx<T, Unlimited>);

/// The receiver of an unbounded channel.
pub struct Rx<T>(chan::Rx<T, Unlimited>);

/// An unbounded channel, and its handles. It is told apart from all others that
/// `ids` names.
pub fn channel<T>(ids: &mut Identities) -> (made: (Chan<T, Unlimited>, Tx<T>, Rx<T>))
    requires
        old(ids)@ < u64::MAX,
    ensures
        final(ids).source() == old(ids).source(),
        final(ids)@ == old(ids)@ + 1,
        made.0.wf(),
        made.0.id().source() == old(ids).source(),
        made.0.id()@ == old(ids)@,
        made.1.id() == made.0.id(),
        made.2.id() == made.0.id(),
        made.0@ == (ChanView::<T, Unlimited> {
            items: Seq::empty(),
            semaphore: false,
            rx_waker: None,
            senders: 1,
        }),
{
    let semaphore = Unlimited::new();
    let (chan, tx, rx) = chan::channel(ids.fresh(), semaphore);
    (chan, Tx(tx), Rx(rx))
}

impl<T> Tx<T> {
    /// The identity of the channel.
    pub closed spec fn id(&self) -> Identity {
        self.0.id()
    }

    /// Puts a value into the channel, unless it is closed.
    pub fn send(
        &self,
        chan: &mut Chan<T, Unlimited>,
        value: T,
        wakes: &mut WakeList,
    ) -> (result: Result<(), SendError>)
        requires
            old(chan).wf(),
            old(chan).id() == self.id(),
            old(chan)@.items.len() < usize::MAX,
        ensures
            final(chan).wf(),
            final(chan).id() == old(chan).id(),
            result is Err <==> old(chan)@.semaphore,
            final(chan)@ == (if result is Ok {
                old(chan)@.put(value)
            } else {
                old(chan)@
            }),
            final(wakes)@ == (if result is Ok {
                old(wakes)@ + chan::due(old(chan)@.rx_waker)
            } else {
                old(wakes)@
            }),
    {
        self.0.send(chan, value, wakes)
    }

    /// Another sender of the same channel.
    pub fn clone(&self, chan: &mut Chan<T, Unlimited>) -> (tx: Self)
        requires
            old(chan).wf(),
            old(chan).id() == self.id(),
            old(chan)@.senders < usize::MAX,
        ensures
            final(chan).wf(),
            final(chan).id() == old(chan).id(),
            final(chan)@ == (ChanView { senders: old(chan)@.senders + 1, ..old(chan)@ }),
            tx.id() == self.id(),
    {
        Tx(self.0.clone(chan))
    }

    /// Gives the sender up.
    pub fn drop(self, chan: &mut Chan<T, Unlimited>)
        requires
            old(chan).wf(),
            old(chan).id() == self.id(),
            old(chan)@.senders > 0,
        ensures
            final(chan).wf(),
            final(chan).id() == old(chan).id(),
            final(chan)@ == (ChanView { senders: (old(chan)@.senders - 1) as nat, ..old(chan)@ }),
    {
        self.0.drop(chan);
    }
}

impl<T> Rx<T> {
    /// The identity of the channel.
    pub closed spec fn id(&self) -> Identity {
        self.0.id()
    }

    /// Takes the first value out of the channel. `None` says that there is no
    /// value and that none can come any more: no sender is left, or the channel is
    /// closed. While one can come, `waker` is kept instead.
    pub fn poll_recv(
        &mut self,
        chan: &mut Chan<T, Unlimited>,
        waker: Waker,
        wakes: &mut WakeList,
    ) -> (result: Poll<Option<T>>)
        requires
            old(chan).wf(),
            old(chan).id() == old(self).id(),
        ensures
            *final(self) == *old(self),
            final(chan).wf(),
            final(chan).id() == old(chan).id(),
            final(wakes)@ == old(wakes)@,
            old(chan)@.items.len() > 0 ==> {
                &&& result == Poll::Ready(Some(old(chan)@.items[0]))
                &&& final(chan)@ == old(chan)@.take().0
            },
            old(chan)@.ended() ==> {
                &&& result == Poll::Ready(None::<T>)
                &&& final(chan)@ == old(chan)@
            },
            old(chan)@.items.len() == 0 && !old(chan)@.ended() ==> {
                &&& result is Pending
                &&& final(chan)@ == (ChanView { rx_waker: Some(waker), ..old(chan)@ })
            },
    {
        let result = self.0.recv(chan, waker, wakes);
        assert(old(wakes)@ + Seq::<Waker>::empty() == old(wakes)@);
        result
    }

    /// Closes the channel: nothing can be sent any more, but what is in the
    /// channel can still be received.
    pub fn close(&mut self, chan: &mut Chan<T, Unlimited>, wakes: &mut WakeList)
        requires
            old(chan).wf(),
            old(chan).id() == old(self).id(),
        ensures
            *final(self) == *old(self),
            final(chan).wf(),
            final(chan).id() == old(chan).id(),
            final(chan)@ == (ChanView { semaphore: true, ..old(chan)@ }),
            final(wakes)@ == old(wakes)@,
    {
        self.0.close(chan, wakes);
        assert(old(wakes)@ + Seq::<Waker>::empty() == old(wakes)@);
    }

    /// Gives the receiver up: the channel is closed, and the values that are in
    /// it are lost.
    pub fn drop(self, chan: &mut Chan<T, Unlimited>, wakes: &mut WakeList)
        requires
            old(chan).wf(),
            old(chan).id() == self.id(),
        ensures
            final(chan).wf(),
            final(chan).id() == old(chan).id(),
            final(chan)@ == (ChanView {
                items: Seq::empty(),
                semaphore: true,
                ..old(chan)@
            }),
            final(wakes)@ == old(wakes)@,
    {
        self.0.drop(chan, wakes);
        assert(old(wakes)@ + (Seq::<Waker>::empty() + Seq::<Waker>::empty()) == old(wakes)@);
    }
}

/// What senders and the receiver of an unbounded channel do are the events of
/// which [`chan::law_nothing_is_lost_or_doubled`] and [`chan::law_the_end_is_final`]
/// speak.
pub proof fn law_operations_are_events<T>(
    v: ChanView<T, Unlimited>,
    value: T,
    waker: Waker,
    senders: nat,
)
    ensures
        !v.semaphore && v.senders > 0 ==> chan::step(v, chan::Event::Sent(value), v.put(value)),
        v.items.len() > 0 ==> chan::step(
            v,
            chan::Event::Received(v.items[0]),
            v.take().0,
        ),
        v.ended() ==> chan::step(v, chan::Event::Ended, v),
        chan::step(v, chan::Event::Quiet, ChanView { rx_waker: Some(waker), ..v }),
        chan::step(v, chan::Event::Quiet, v.close().0),
        v.senders > 0 ==> chan::step(v, chan::Event::Quiet, ChanView { senders, ..v }),
{
}

/// An operation on a channel whose receiver is there.
pub enum Operation<T> {
    /// A sender sends a value, or is refused.
    Send(T),
    /// The receiver gets a value.
    Receive,
    /// The receiver finds no value, and does not wait.
    Ask,
    /// The receiver finds no value, and waits.
    Wait(Waker),
    /// The receiver closes the channel.
    Close,
    /// A sender is cloned.
    CloneSender,
    /// A sender goes.
    DropSender,
}

impl<T> Operation<T> {
    /// Whether the operation can take place: who takes part in it is there.
    pub open spec fn possible(self, v: ChanView<T, Unlimited>) -> bool {
        match self {
            Operation::Send(_) | Operation::CloneSender | Operation::DropSender => v.senders > 0,
            Operation::Receive => v.items.len() > 0,
            Operation::Ask => v.items.len() == 0,
            Operation::Wait(_) => v.items.len() == 0 && !v.ended(),
            Operation::Close => true,
        }
    }

    /// The channel after the operation.
    pub open spec fn after(self, v: ChanView<T, Unlimited>) -> ChanView<T, Unlimited> {
        match self {
            Operation::Send(value) => if v.semaphore {
                v
            } else {
                v.put(value)
            },
            Operation::Receive => v.take().0,
            Operation::Ask => v,
            Operation::Wait(waker) => ChanView { rx_waker: Some(waker), ..v },
            Operation::Close => v.close().0,
            Operation::CloneSender => ChanView { senders: v.senders + 1, ..v },
            Operation::DropSender => ChanView { senders: (v.senders - 1) as nat, ..v },
        }
    }

    /// What the operation is to those who send and receive.
    pub open spec fn event(self, v: ChanView<T, Unlimited>) -> chan::Event<T> {
        match self {
            Operation::Send(value) => if v.semaphore {
                chan::Event::Quiet
            } else {
                chan::Event::Sent(value)
            },
            Operation::Receive => chan::Event::Received(v.items[0]),
            Operation::Ask => if v.ended() {
                chan::Event::Ended
            } else {
                chan::Event::Quiet
            },
            _ => chan::Event::Quiet,
        }
    }
}

/// The channel after a sequence of operations.
pub open spec fn run<T>(v: ChanView<T, Unlimited>, ops: Seq<Operation<T>>) -> ChanView<T, Unlimited>
    decreases ops.len(),
{
    if ops.len() == 0 {
        v
    } else {
        ops.last().after(run(v, ops.drop_last()))
    }
}

/// Whether a sequence of operations can take place.
pub open spec fn feasible<T>(v: ChanView<T, Unlimited>, ops: Seq<Operation<T>>) -> bool
    decreases ops.len(),
{
    ops.len() == 0 || {
        &&& feasible(v, ops.drop_last())
        &&& ops.last().possible(run(v, ops.drop_last()))
    }
}

/// What a sequence of operations is to those who send and receive.
pub open spec fn events<T>(
    v: ChanView<T, Unlimited>,
    ops: Seq<Operation<T>>,
) -> Seq<chan::Event<T>>
    decreases ops.len(),
{
    if ops.len() == 0 {
        Seq::empty()
    } else {
        events(v, ops.drop_last()).push(ops.last().event(run(v, ops.drop_last())))
    }
}

/// How often a sender is cloned in the course of a sequence of operations.
pub open spec fn clones<T>(ops: Seq<Operation<T>>) -> int
    decreases ops.len(),
{
    if ops.len() == 0 {
        0
    } else {
        clones(ops.drop_last()) + if ops.last() is CloneSender {
            1int
        } else {
            0int
        }
    }
}

/// How many senders go in the course of a sequence of operations.
pub open spec fn departures<T>(ops: Seq<Operation<T>>) -> int
    decreases ops.len(),
{
    if ops.len() == 0 {
        0
    } else {
        departures(ops.drop_last()) + if ops.last() is DropSender {
            1int
        } else {
            0int
        }
    }
}

/// Whatever happens to an unbounded channel that was empty at first, what it holds
/// is what was sent and has not been received, in order.
pub proof fn law_holds_what_was_not_received<T>(
    v: ChanView<T, Unlimited>,
    ops: Seq<Operation<T>>,
)
    requires
        v.items.len() == 0,
        feasible(v, ops),
    ensures
        chan::leads(v, events(v, ops), run(v, ops)),
        chan::sent(events(v, ops)) == chan::received(events(v, ops)) + run(v, ops).items,
    decreases ops.len(),
{
    let all = events(v, ops);
    if ops.len() > 0 {
        let before = ops.drop_last();
        law_holds_what_was_not_received(v, before);
        assert(all.drop_last() == events(v, before));
        assert(chan::step(run(v, before), all.last(), run(v, ops)));
    }
    chan::law_nothing_is_lost_or_doubled(v, all, run(v, ops));
    assert(v.items + chan::sent(all) == chan::sent(all));
}

/// Only clones and drops change the number of senders, and only the receiver's
/// closing closes a channel. So it has ended only if it is empty, and all senders
/// that there were or came have gone, or it was closed.
pub proof fn law_what_ends_a_channel<T>(v: ChanView<T, Unlimited>, ops: Seq<Operation<T>>)
    requires
        feasible(v, ops),
    ensures
        ({
            let w = run(v, ops);
            let shut = v.semaphore || exists|i: int|
                0 <= i < ops.len() && #[trigger] ops[i] is Close;
            &&& w.senders == v.senders + clones(ops) - departures(ops)
            &&& w.semaphore <==> shut
            &&& w.ended() ==> w.items.len() == 0 && (v.senders + clones(ops) == departures(ops)
                || shut)
        }),
    decreases ops.len(),
{
    if ops.len() > 0 {
        let before = ops.drop_last();
        law_what_ends_a_channel(v, before);
        assert(ops.last() == ops[ops.len() - 1]);
        assert(forall|i: int| 0 <= i < before.len() ==> #[trigger] before[i] == ops[i]);
        if exists|i: int| 0 <= i < ops.len() && #[trigger] ops[i] is Close {
            let i = choose|i: int| 0 <= i < ops.len() && #[trigger] ops[i] is Close;
            if i < before.len() {
                assert(before[i] is Close);
            }
        }
        if exists|i: int| 0 <= i < before.len() && #[trigger] before[i] is Close {
            let i = choose|i: int| 0 <= i < before.len() && #[trigger] before[i] is Close;
            assert(ops[i] is Close);
        }
    }
}

} // verus!
