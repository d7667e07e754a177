//! What holds of a broadcast channel across its operations.
use std::task::Waker;
use vstd::prelude::*;

use super::{ChannelView, Receipt};

verus! {

/// A receiver that is given up counts as one that has received all values: of
/// each value that it had not received, one receiver fewer is awaited.
pub proof fn law_dropping_a_receiver_marks_values_received<T>(
    v: ChannelView<T>,
    key: int,
    p: int,
)
    requires
        v.valid(),
        v.readers.dom().contains(key),
    ensures
        super::behind(v.drop_receiver(key).0.readers, p) + (if v.readers[key] <= p {
            1nat
        } else {
            0nat
        }) == super::behind(v.readers, p),
{
    super::lemma_behind_remove(v.readers, key, p);
}

/// A value that is sent is to be received by every receiver of the channel.
pub proof fn law_sent_to_all<T>(v: ChannelView<T>, value: T)
    requires
        v.valid(),
    ensures
        v.send(value).sent.last() == value,
        super::behind(v.send(value).readers, v.sent.len() as int) == v.readers.dom().len(),
        forall|k: int| #[trigger]
            v.readers.dom().contains(k) ==> v.send(value).readers[k] <= v.sent.len(),
{
    let p = v.sent.len() as int;
    assert(v.readers.dom().filter(|k: int| v.readers[k] <= p) == v.readers.dom());
}

/// A new receiver receives what is sent after it was made, and nothing that was
/// sent before: the first value it gets is the next one that is sent.
pub proof fn law_new_receiver_gets_later_values<T>(v: ChannelView<T>, key: int, value: T)
    requires
        v.valid(),
        !v.readers.dom().contains(key),
    ensures
        ({
            let after = v.subscribe(key).send(value);
            &&& after.oldest() <= after.readers[key] < after.sent.len()
            &&& after.sent[after.readers[key] as int] == value
        }),
        forall|p: int|
            0 <= p < v.sent.len() ==> #[trigger] super::behind(v.subscribe(key).readers, p) == super::behind(
                v.readers,
                p,
            ),
{
    assert forall|p: int| 0 <= p < v.sent.len() implies #[trigger] super::behind(
        v.subscribe(key).readers,
        p,
    ) == super::behind(v.readers, p) by {
        super::lemma_behind_insert(v.readers, key, v.sent.len(), p);
        assert(v.readers.remove(key) =~= v.readers);
    }
}

/// Sending takes no value away from a receiver that is behind by less than the
/// capacity of the channel: the values that it has yet to receive are still the
/// same.
pub proof fn law_sending_spares_who_keeps_up<T>(v: ChannelView<T>, value: T, next: int)
    requires
        v.valid(),
        v.oldest() <= next <= v.sent.len(),
        v.sent.len() - next < v.capacity,
    ensures
        v.send(value).oldest() <= next,
        v.send(value).sent.subrange(next, v.sent.len() as int) == v.sent.subrange(
            next,
            v.sent.len() as int,
        ),
{
}

/// A receiver has lagged if and only if it has more values to receive than the
/// channel retains. It is told by how many; then it has as many values to receive
/// as the channel retains, and the next one it gets is the oldest of those.
pub proof fn law_lagging<T>(v: ChannelView<T>, key: int)
    requires
        v.valid(),
        v.readers.dom().contains(key),
    ensures
        v.receipt(key) is Lagged <==> v.sent.len() - v.readers[key] > v.capacity,
        v.receipt(key) matches Receipt::Lagged(n) ==> {
            let after = v.receive(key);
            &&& n == v.sent.len() - v.readers[key] - v.capacity
            &&& after.sent.len() - after.readers[key] == v.capacity
            &&& after.receipt(key) == Receipt::Value(v.sent[v.sent.len() - v.capacity])
        },
{
}

/// A receiver that has values to receive, and no more than the channel retains,
/// gets the oldest of them, whether the channel is closed or not; it then has one
/// fewer to receive.
pub proof fn law_keeping_up<T>(v: ChannelView<T>, key: int)
    requires
        v.valid(),
        v.readers.dom().contains(key),
        0 < v.sent.len() - v.readers[key] <= v.capacity,
    ensures
        v.receipt(key) == Receipt::Value(v.sent[v.readers[key] as int]),
        v.receive(key).sent.len() - v.receive(key).readers[key] == v.sent.len() - v.readers[key]
            - 1,
{
}

/// A receiver has no value to receive if and only if it is told that there is none,
/// for now or for good.
pub proof fn law_empty_means_nothing_to_receive<T>(v: ChannelView<T>, key: int)
    requires
        v.valid(),
        v.readers.dom().contains(key),
    ensures
        v.sent.len() == v.readers[key] <==> v.receipt(key) is Empty || v.receipt(key) is Closed,
        v.receipt(key) is Empty || v.receipt(key) is Closed ==> v.receive(key) == v,
{
}

/// What one receiver asks for changes nothing for the others.
pub proof fn law_receiving_leaves_others_alone<T>(v: ChannelView<T>, key: int, other: int)
    requires
        v.readers.dom().contains(other),
        other != key,
    ensures
        v.receive(key).readers.dom().contains(other),
        v.receive(key).readers[other] == v.readers[other],
        v.receive(key).receipt(other) == v.receipt(other),
{
}

/// A value is refused if and only if the channel is closed or has no receivers. A
/// channel without senders is closed.
pub proof fn law_refusal_means_closed<T>(v: ChannelView<T>)
    requires
        v.valid(),
    ensures
        v.open() <==> !v.closed && v.readers.dom().len() > 0,
        v.readers.dom().len() == 0 ==> !v.open(),
        v.senders == 0 ==> v.closed && !v.open(),
{
}

/// When the last receiver is gone, values are refused, but only until somebody
/// subscribes: that receiver gets the first value that is sent after it.
pub proof fn law_late_receiver_is_served<T>(v: ChannelView<T>, last: int, late: int, value: T)
    requires
        v.valid(),
        !v.closed,
        v.readers.dom() == Set::empty().insert(last),
    ensures
        ({
            let deserted = v.drop_receiver(last).0;
            let served = deserted.subscribe(late);
            &&& !deserted.open()
            &&& served.open()
            &&& served.receipt(late) is Empty
            &&& served.send(value).receipt(late) == Receipt::Value(value)
        }),
{
    let deserted = v.drop_receiver(last).0;
    assert(v.readers.remove(last).dom() == Set::<int>::empty());
    assert(deserted.subscribe(late).readers.dom() == Set::empty().insert(late));
}

/// Closing takes no value away: what a receiver had yet to receive it can still
/// receive. It wakes all that wait, and a second time it changes nothing and wakes
/// nobody.
pub proof fn law_closing_keeps_values<T>(v: ChannelView<T>)
    requires
        v.valid(),
    ensures
        v.close().sent == v.sent,
        v.close().readers == v.readers,
        v.close().oldest() == v.oldest(),
        v.close().close() == v.close(),
        v.close().wakers == Seq::<Waker>::empty(),
        v.closed ==> v.close() == v,
{
    if v.closed {
        assert(v.wakers == Seq::<Waker>::empty());
    }
}

/// A sender that goes while others are left changes nothing for them and for the
/// receivers. The last one closes the channel, and all that wait are woken.
pub proof fn law_dropping_a_sender<T>(v: ChannelView<T>, key: int)
    requires
        v.valid(),
        v.senders > 0,
    ensures
        ({
            let (after, woken) = v.drop_sender();
            &&& after.sent == v.sent
            &&& after.readers == v.readers
            &&& v.senders > 1 ==> {
                &&& after.open() == v.open()
                &&& after.receipt(key) == v.receipt(key)
                &&& after.wakers == v.wakers
                &&& woken == Seq::<Waker>::empty()
            }
            &&& v.senders == 1 ==> {
                &&& after == (ChannelView { senders: 0, ..v }).close()
                &&& woken == v.wakers
            }
        }),
{
}

/// The channel after receiver `key` has asked `k` times for its next value.
pub open spec fn drained<T>(v: ChannelView<T>, key: int, k: nat) -> ChannelView<T>
    decreases k,
{
    if k == 0 {
        v
    } else {
        drained(v, key, (k - 1) as nat).receive(key)
    }
}

/// A receiver of a closed channel that has not lagged gets the values that it had
/// yet to receive, in the order in which they were sent. After the last one it is
/// told that the channel is closed, however often it asks.
pub proof fn law_closed_channel_is_drained<T>(v: ChannelView<T>, key: int, k: nat)
    requires
        v.valid(),
        v.closed,
        v.readers.dom().contains(key),
        v.oldest() <= v.readers[key],
    ensures
        ({
            let next = v.readers[key] + k;
            let left = drained(v, key, k);
            &&& left.sent == v.sent
            &&& left.closed
            &&& left.capacity == v.capacity
            &&& next < v.sent.len() ==> left.readers[key] == next && left.receipt(key)
                == Receipt::Value(v.sent[next as int])
            &&& next >= v.sent.len() ==> left.readers[key] == v.sent.len() && left.receipt(key)
                == Receipt::<T>::Closed
        }),
    decreases k,
{
    if k > 0 {
        law_closed_channel_is_drained(v, key, (k - 1) as nat);
    }
}

/// An operation on a channel.
pub enum Operation<T> {
    /// A value is sent, or refused.
    Send(T),
    /// A sender closes the channel.
    Close,
    /// A sender is cloned.
    CloneSender,
    /// A sender goes.
    DropSender,
    /// A receiver comes, under this key.
    Subscribe(int),
    /// A receiver goes.
    DropReceiver(int),
    /// A receiver asks for its next value, and does not wait.
    Receive(int),
    /// A receiver asks for its next value, and has to wait.
    Wait(int, Waker),
}

impl<T> Operation<T> {
    /// Whether the operation can take place: who takes part in it is there, and
    /// only who has to wait waits.
    pub open spec fn possible(self, v: ChannelView<T>) -> bool {
        match self {
            Operation::Send(_) | Operation::Close => true,
            Operation::CloneSender | Operation::DropSender => v.senders > 0,
            Operation::Subscribe(key) => !v.readers.dom().contains(key),
            Operation::DropReceiver(key) => v.readers.dom().contains(key),
            Operation::Receive(key) => v.readers.dom().contains(key),
            Operation::Wait(key, _) => v.readers.dom().contains(key) && v.receipt(key) is Empty,
        }
    }

    /// The channel after the operation.
    pub open spec fn after(self, v: ChannelView<T>) -> ChannelView<T> {
        match self {
            Operation::Send(value) => if v.open() {
                v.send(value)
            } else {
                v
            },
            Operation::Close => v.close(),
            Operation::CloneSender => ChannelView { senders: v.senders + 1, ..v },
            Operation::DropSender => v.drop_sender().0,
            Operation::Subscribe(key) => v.subscribe(key),
            Operation::DropReceiver(key) => v.drop_receiver(key).0,
            Operation::Receive(key) => v.receive(key),
            Operation::Wait(_, waker) => v.wait(waker),
        }
    }

    /// The wakers that are due after the operation.
    pub open spec fn woken(self, v: ChannelView<T>) -> Seq<Waker> {
        match self {
            Operation::Send(_) => if v.open() {
                v.wakers
            } else {
                Seq::empty()
            },
            Operation::Close => v.wakers,
            Operation::DropSender => v.drop_sender().1,
            Operation::DropReceiver(key) => v.drop_receiver(key).1,
            _ => Seq::empty(),
        }
    }
}

/// The channel after a sequence of operations.
pub open spec fn run<T>(v: ChannelView<T>, ops: Seq<Operation<T>>) -> ChannelView<T>
    decreases ops.len(),
{
    if ops.len() == 0 {
        v
    } else {
        ops.last().after(run(v, ops.drop_last()))
    }
}

/// Whether a sequence of operations can take place.
pub open spec fn feasible<T>(v: ChannelView<T>, ops: Seq<Operation<T>>) -> bool
    decreases ops.len(),
{
    ops.len() == 0 || {
        &&& feasible(v, ops.drop_last())
        &&& ops.last().possible(run(v, ops.drop_last()))
    }
}

/// Whether receiver `key` does not go in the course of a sequence of operations.
pub open spec fn stays<T>(ops: Seq<Operation<T>>, key: int) -> bool {
    forall|i: int| 0 <= i < ops.len() ==> #[trigger] ops[i] != Operation::<T>::DropReceiver(key)
}

/// The values that are sent in the course of a sequence of operations, not those
/// that are refused.
pub open spec fn accepted<T>(v: ChannelView<T>, ops: Seq<Operation<T>>) -> Seq<T>
    decreases ops.len(),
{
    if ops.len() == 0 {
        Seq::empty()
    } else {
        let before = accepted(v, ops.drop_last());
        match ops.last() {
            Operation::Send(value) => if run(v, ops.drop_last()).open() {
                before.push(value)
            } else {
                before
            },
            _ => before,
        }
    }
}

/// The numbers of the values that receiver `key` gets in the course of a sequence
/// of operations.
pub open spec fn got<T>(v: ChannelView<T>, ops: Seq<Operation<T>>, key: int) -> Seq<nat>
    decreases ops.len(),
{
    if ops.len() == 0 {
        Seq::empty()
    } else {
        let before = got(v, ops.drop_last(), key);
        let now = run(v, ops.drop_last());
        if ops.last() == Operation::<T>::Receive(key) && now.receipt(key) is Value {
            before.push(now.readers[key])
        } else {
            before
        }
    }
}

/// How many values receiver `key` is told to have missed in the course of a
/// sequence of operations.
pub open spec fn missed<T>(v: ChannelView<T>, ops: Seq<Operation<T>>, key: int) -> nat
    decreases ops.len(),
{
    if ops.len() == 0 {
        0
    } else {
        let before = missed(v, ops.drop_last(), key);
        match run(v, ops.drop_last()).receipt(key) {
            Receipt::Lagged(n) => if ops.last() == Operation::<T>::Receive(key) {
                before + n
            } else {
                before
            },
            _ => before,
        }
    }
}

/// The wakers that are due in the course of a sequence of operations.
pub open spec fn all_woken<T>(v: ChannelView<T>, ops: Seq<Operation<T>>) -> Seq<Waker>
    decreases ops.len(),
{
    if ops.len() == 0 {
        Seq::empty()
    } else {
        all_woken(v, ops.drop_last()) + ops.last().woken(run(v, ops.drop_last()))
    }
}

/// Every operation keeps a channel valid.
pub proof fn law_operations_keep_channels_valid<T>(v: ChannelView<T>, op: Operation<T>)
    requires
        v.valid(),
        op.possible(v),
    ensures
        op.after(v).valid(),
        op.after(v).capacity == v.capacity,
{
}

/// What has been sent stays sent: operations only add the values that they send.
pub proof fn law_history_only_grows<T>(v: ChannelView<T>, ops: Seq<Operation<T>>)
    requires
        v.valid(),
        feasible(v, ops),
    ensures
        run(v, ops).valid(),
        run(v, ops).capacity == v.capacity,
        run(v, ops).sent == v.sent + accepted(v, ops),
    decreases ops.len(),
{
    if ops.len() == 0 {
        assert(v.sent + Seq::<T>::empty() == v.sent);
    } else {
        law_history_only_grows(v, ops.drop_last());
        law_operations_keep_channels_valid(run(v, ops.drop_last()), ops.last());
        let now = run(v, ops.drop_last());
        if let Operation::Send(value) = ops.last() {
            if now.open() {
                assert(run(v, ops).sent == v.sent + accepted(v, ops.drop_last()).push(value));
            }
        }
    }
}

/// The number of values that a receiver has yet to receive is what it was, and
/// what has been sent since, less the values that it got and those that it was told
/// to have missed. For a receiver that has just come it begins with none.
pub proof fn law_len_over_a_history<T>(v: ChannelView<T>, ops: Seq<Operation<T>>, key: int)
    requires
        v.valid(),
        feasible(v, ops),
        v.readers.dom().contains(key),
        stays(ops, key),
    ensures
        ({
            let w = run(v, ops);
            &&& w.readers.dom().contains(key)
            &&& w.sent.len() - w.readers[key] == v.sent.len() - v.readers[key] + accepted(
                v,
                ops,
            ).len() - got(v, ops, key).len() - missed(v, ops, key)
            &&& v.readers[key] == v.sent.len() ==> w.sent.len() - w.readers[key] == accepted(
                v,
                ops,
            ).len() - got(v, ops, key).len() - missed(v, ops, key)
        }),
    decreases ops.len(),
{
    if ops.len() > 0 {
        let before = ops.drop_last();
        assert(stays(before, key)) by {
            assert forall|i: int| 0 <= i < before.len() implies #[trigger] before[i] != Operation::<
                T,
            >::DropReceiver(key) by {
                assert(before[i] == ops[i]);
            }
        }
        assert(ops.last() == ops[ops.len() - 1]);
        law_len_over_a_history(v, before, key);
        law_history_only_grows(v, before);
    }
}

/// A receiver gets values in the order in which they were sent, and none twice. If
/// it misses none it gets every value that is sent, one after the other, from where
/// it began.
pub proof fn law_received_once_in_order<T>(v: ChannelView<T>, ops: Seq<Operation<T>>, key: int)
    requires
        v.valid(),
        feasible(v, ops),
        v.readers.dom().contains(key),
        stays(ops, key),
    ensures
        ({
            let w = run(v, ops);
            let numbers = got(v, ops, key);
            &&& w.readers.dom().contains(key)
            &&& forall|i: int|
                0 <= i < numbers.len() ==> v.readers[key] <= #[trigger] numbers[i]
                    < w.readers[key]
            &&& forall|i: int, j: int|
                0 <= i < j < numbers.len() ==> #[trigger] numbers[i] < #[trigger] numbers[j]
            &&& missed(v, ops, key) == 0 ==> {
                &&& numbers.len() == w.readers[key] - v.readers[key]
                &&& forall|i: int|
                    0 <= i < numbers.len() ==> #[trigger] numbers[i] == v.readers[key] + i
            }
        }),
    decreases ops.len(),
{
    if ops.len() > 0 {
        let before = ops.drop_last();
        assert(stays(before, key)) by {
            assert forall|i: int| 0 <= i < before.len() implies #[trigger] before[i] != Operation::<
                T,
            >::DropReceiver(key) by {
                assert(before[i] == ops[i]);
            }
        }
        assert(ops.last() == ops[ops.len() - 1]);
        law_received_once_in_order(v, before, key);
        law_history_only_grows(v, before);
        law_len_over_a_history(v, before, key);
        law_len_over_a_history(v, ops, key);
    }
}

/// Once closed, a channel stays closed whoever comes or goes. No value is sent any
/// more, and what was sent stays to be received.
pub proof fn law_closed_for_good<T>(v: ChannelView<T>, ops: Seq<Operation<T>>)
    requires
        v.valid(),
        v.closed,
        feasible(v, ops),
    ensures
        run(v, ops).closed,
        !run(v, ops).open(),
        accepted(v, ops) == Seq::<T>::empty(),
        run(v, ops).sent == v.sent,
    decreases ops.len(),
{
    if ops.len() > 0 {
        law_closed_for_good(v, ops.drop_last());
    }
}

/// Who waits is woken: its waker is kept until it is due, and sending a value,
/// closing the channel and the last sender's going make all wakers due, as many as
/// there are.
pub proof fn law_who_waits_is_woken<T>(v: ChannelView<T>, ops: Seq<Operation<T>>, waker: Waker)
    requires
        v.wakers.contains(waker),
    ensures
        run(v, ops).wakers.contains(waker) || all_woken(v, ops).contains(waker),
        ops.len() > 0 && ({
            let now = run(v, ops.drop_last());
            match ops.last() {
                Operation::Send(_) => now.open(),
                Operation::Close => true,
                Operation::DropSender => now.senders == 1,
                _ => false,
            }
        }) ==> all_woken(v, ops).contains(waker),
    decreases ops.len(),
{
    if ops.len() > 0 {
        let before = ops.drop_last();
        law_who_waits_is_woken(v, before, waker);
        let now = run(v, before);
        let due = ops.last().woken(now);
        let all = all_woken(v, ops);
        assert(all == all_woken(v, before) + due);
        if all_woken(v, before).contains(waker) {
            let i = choose|i: int|
                0 <= i < all_woken(v, before).len() && all_woken(v, before)[i] == waker;
            assert(all[i] == waker);
        } else {
            let i = choose|i: int| 0 <= i < now.wakers.len() && now.wakers[i] == waker;
            if due == now.wakers {
                assert(all[all_woken(v, before).len() + i] == waker);
            } else {
                assert(run(v, ops).wakers[i] == waker);
            }
        }
    }
}

/// A value can be sent if and only if there is a receiver and the channel is not
/// closed.
pub proof fn law_when_values_are_taken<T>(v: ChannelView<T>)
    ensures
        v.open() <==> v.readers.dom().len() > 0 && !v.closed,
{
}

/// Sending adds the value behind those sent before, and leaves the channel open:
/// nobody comes or goes, and no receiver is moved. All that waited have been woken.
pub proof fn law_sending<T>(v: ChannelView<T>, value: T)
    ensures
        ({
            let w = v.send(value);
            &&& w.sent.len() == v.sent.len() + 1
            &&& forall|p: int| 0 <= p < v.sent.len() ==> #[trigger] w.sent[p] == v.sent[p]
            &&& w.sent[v.sent.len() as int] == value
            &&& w.closed == v.closed
            &&& w.open() == v.open()
            &&& w.senders == v.senders
            &&& w.readers == v.readers
            &&& w.capacity == v.capacity
            &&& w.wakers.len() == 0
        }),
{
}

/// Closing sets nothing but that the channel is closed. All that waited have been
/// woken.
pub proof fn law_closing<T>(v: ChannelView<T>)
    ensures
        v.close().closed,
        v.close().sent == v.sent,
        v.close().readers == v.readers,
        v.close().senders == v.senders,
        v.close().capacity == v.capacity,
        v.close().wakers.len() == 0,
{
}

/// A new receiver begins behind all values that were sent. Nothing changes for the
/// others.
pub proof fn law_subscribing<T>(v: ChannelView<T>, key: int)
    ensures
        ({
            let w = v.subscribe(key);
            &&& w.readers.dom().contains(key)
            &&& w.readers[key] == v.sent.len()
            &&& forall|k: int|
                k != key ==> (#[trigger] w.readers.dom().contains(k) <==> v.readers.dom().contains(
                    k,
                ))
            &&& forall|k: int| k != key ==> #[trigger] w.readers[k] == v.readers[k]
            &&& w.sent == v.sent
            &&& w.closed == v.closed
            &&& w.senders == v.senders
            &&& w.capacity == v.capacity
            &&& w.wakers == v.wakers
        }),
{
}

/// When a sender goes there is one fewer. The channel is closed after that if it was
/// before, or if it was the last one; then all that wait are woken. Nothing changes
/// otherwise.
pub proof fn law_sender_going<T>(v: ChannelView<T>)
    requires
        v.senders > 0,
    ensures
        ({
            let (w, woken) = v.drop_sender();
            &&& w.senders + 1 == v.senders
            &&& w.closed <==> v.closed || v.senders == 1
            &&& w.sent == v.sent
            &&& w.readers == v.readers
            &&& w.capacity == v.capacity
            &&& v.senders == 1 ==> woken == v.wakers && w.wakers.len() == 0
            &&& v.senders > 1 ==> woken.len() == 0 && w.wakers == v.wakers
        }),
{
}

/// When a receiver goes nothing changes for the others, nor whether the channel is
/// closed. After the last one nobody waits.
pub proof fn law_receiver_going<T>(v: ChannelView<T>, key: int)
    ensures
        ({
            let (w, woken) = v.drop_receiver(key);
            &&& !w.readers.dom().contains(key)
            &&& forall|k: int|
                k != key ==> (#[trigger] w.readers.dom().contains(k) <==> v.readers.dom().contains(
                    k,
                ))
            &&& forall|k: int|
                k != key && v.readers.dom().contains(k) ==> #[trigger] w.readers[k] == v.readers[k]
            &&& w.closed == v.closed
            &&& w.sent == v.sent
            &&& w.senders == v.senders
            &&& w.capacity == v.capacity
            &&& w.readers.dom().len() == 0 ==> woken == v.wakers && w.wakers.len() == 0
            &&& w.readers.dom().len() > 0 ==> woken.len() == 0 && w.wakers == v.wakers
        }),
{
}

/// What a receiver is told depends only on how many values it has yet to receive,
/// how many the channel retains, and, if it has none to receive, on whether the
/// channel is closed; not on who else is there or waits.
pub proof fn law_what_a_receiver_is_told<T>(v: ChannelView<T>, key: int)
    requires
        v.readers[key] <= v.sent.len(),
    ensures
        ({
            let left = v.sent.len() - v.readers[key];
            &&& v.receipt(key) is Closed <==> left == 0 && v.closed
            &&& v.receipt(key) is Empty <==> left == 0 && !v.closed
            &&& v.receipt(key) is Value <==> 0 < left <= v.capacity
            &&& v.receipt(key) is Lagged <==> 0 < left && v.capacity < left
            &&& v.receipt(key) matches Receipt::Value(value) ==> value
                == v.sent[v.readers[key] as int]
            &&& v.receipt(key) matches Receipt::Lagged(n) ==> n + v.capacity == left
        }),
{
}

/// A receiver that gets a value goes on with the next one; one that has lagged goes
/// on with the oldest that is retained; one that finds nothing stays where it is.
/// Asking changes nothing else.
pub proof fn law_receiving<T>(v: ChannelView<T>, key: int)
    requires
        v.readers.dom().contains(key),
        v.readers[key] <= v.sent.len(),
    ensures
        ({
            let w = v.receive(key);
            let left = v.sent.len() - v.readers[key];
            &&& w.readers.dom() == v.readers.dom()
            &&& left == 0 ==> w.readers[key] == v.readers[key]
            &&& 0 < left <= v.capacity ==> w.readers[key] == v.readers[key] + 1
            &&& 0 < left && v.capacity < left ==> w.readers[key] == v.sent.len() - v.capacity
            &&& forall|k: int| k != key ==> #[trigger] w.readers[k] == v.readers[k]
            &&& w.sent == v.sent
            &&& w.closed == v.closed
            &&& w.senders == v.senders
            &&& w.capacity == v.capacity
            &&& w.wakers == v.wakers
        }),
{
    assert(v.receive(key).readers.dom() =~= v.readers.dom());
}

/// A receiver that begins to wait leaves its waker behind those that are there, and
/// changes nothing else.
pub proof fn law_waiting<T>(v: ChannelView<T>, waker: Waker)
    ensures
        ({
            let w = v.wait(waker);
            &&& w.wakers.len() == v.wakers.len() + 1
            &&& forall|i: int| 0 <= i < v.wakers.len() ==> #[trigger] w.wakers[i] == v.wakers[i]
            &&& w.wakers[v.wakers.len() as int] == waker
            &&& w.sent == v.sent
            &&& w.readers == v.readers
            &&& w.closed == v.closed
            &&& w.senders == v.senders
            &&& w.capacity == v.capacity
        }),
{
}

/// How often a sender is cloned in the course of a sequence of operations.
pub open spec fn clones<T>(ops: Seq<Operation<T>>) -> int
    decreases ops.len(),
{
    if ops.len() == 0 {
        0
    } else {
        clones(ops.drop_last()) + if ops.last() is CloneSender {
            1int
        } else {
            0int
        }
    }
}

/// How many senders go in the course of a sequence of operations.
pub open spec fn departures<T>(ops: Seq<Operation<T>>) -> int
    decreases ops.len(),
{
    if ops.len() == 0 {
        0
    } else {
        departures(ops.drop_last()) + if ops.last() is DropSender {
            1int
        } else {
            0int
        }
    }
}

/// A channel becomes closed only when a sender closes it, or when all senders have
/// gone. So until then every value that is sent while a receiver is there is
/// accepted, whoever sends it and whatever was sent before.
pub proof fn law_what_closes_a_channel<T>(v: ChannelView<T>, ops: Seq<Operation<T>>)
    requires
        v.valid(),
        feasible(v, ops),
    ensures
        ({
            let w = run(v, ops);
            let shut = v.closed || exists|i: int| 0 <= i < ops.len() && #[trigger] ops[i] is Close;
            &&& w.senders == v.senders + clones(ops) - departures(ops)
            &&& w.closed <==> shut || v.senders + clones(ops) == departures(ops)
            &&& !shut && v.senders + clones(ops) > departures(ops) && w.readers.dom().len() > 0
                ==> w.open()
        }),
    decreases ops.len(),
{
    law_history_only_grows(v, ops);
    if ops.len() > 0 {
        let before = ops.drop_last();
        law_what_closes_a_channel(v, before);
        law_history_only_grows(v, before);
        assert(ops.last() == ops[ops.len() - 1]);
        assert(forall|i: int| 0 <= i < before.len() ==> #[trigger] before[i] == ops[i]);
        if exists|i: int| 0 <= i < ops.len() && #[trigger] ops[i] is Close {
            let i = choose|i: int| 0 <= i < ops.len() && #[trigger] ops[i] is Close;
            if i < before.len() {
                assert(before[i] is Close);
            }
        }
        if exists|i: int| 0 <= i < before.len() && #[trigger] before[i] is Close {
            let i = choose|i: int| 0 <= i < before.len() && #[trigger] before[i] is Close;
            assert(ops[i] is Close);
        }
    }
}

/// Who has not yet received a value is counted: each receiver that is at the value
/// or before it, and no other.
pub proof fn law_counting_who_is_behind(readers: Map<int, nat>, key: int, next: nat, p: int)
    requires
        readers.dom().finite(),
        !readers.dom().contains(key),
    ensures
        readers.dom() == Set::<int>::empty() ==> super::behind(readers, p) == 0,
        next <= p ==> super::behind(readers.insert(key, next), p) == super::behind(readers, p) + 1,
        next > p ==> super::behind(readers.insert(key, next), p) == super::behind(readers, p),
{
    super::lemma_behind_insert(readers, key, next, p);
    assert(readers.remove(key) =~= readers);
    if readers.dom() == Set::<int>::empty() {
        assert(readers.dom().filter(|k: int| readers[k] <= p) =~= Set::<int>::empty());
    }
}

/// A power of two is one, or twice the power before it.
proof fn lemma_power(k: nat)
    ensures
        vstd::arithmetic::power2::pow2(0) == 1,
        vstd::arithmetic::power2::pow2(k) > 0,
        vstd::arithmetic::power2::pow2(k + 1) == 2 * vstd::arithmetic::power2::pow2(k),
{
    vstd::arithmetic::power2::lemma2_to64();
    vstd::arithmetic::power2::lemma_pow2_pos(k);
    vstd::arithmetic::power2::lemma_pow2_unfold(k + 1);
}

/// The powers of two are one, and the doubles of powers of two.
pub proof fn law_powers_of_two(n: nat)
    ensures
        super::is_power_of_two(1),
        !super::is_power_of_two(0),
        super::is_power_of_two(2 * n) <==> super::is_power_of_two(n),
        n > 0 ==> !super::is_power_of_two(2 * n + 1),
{
    assert(super::is_power_of_two(1)) by {
        lemma_power(0);
        assert(1 == vstd::arithmetic::power2::pow2(0));
    }
    assert(!super::is_power_of_two(0)) by {
        if super::is_power_of_two(0) {
            let k = choose|k: nat| 0 == #[trigger] vstd::arithmetic::power2::pow2(k);
            lemma_power(k);
        }
    }
    if super::is_power_of_two(n) {
        let k = choose|k: nat| n == #[trigger] vstd::arithmetic::power2::pow2(k);
        lemma_power(k);
        assert(2 * n == vstd::arithmetic::power2::pow2(k + 1));
    }
    if super::is_power_of_two(2 * n) {
        let k = choose|k: nat| 2 * n == #[trigger] vstd::arithmetic::power2::pow2(k);
        lemma_power(k);
        if k > 0 {
            lemma_power((k - 1) as nat);
            assert(n == vstd::arithmetic::power2::pow2((k - 1) as nat));
        }
    }
    if n > 0 && super::is_power_of_two(2 * n + 1) {
        let k = choose|k: nat| 2 * n + 1 == #[trigger] vstd::arithmetic::power2::pow2(k);
        lemma_power(k);
        if k > 0 {
            lemma_power((k - 1) as nat);
        }
    }
}

/// There is only one power of two between a number and twice the number, so the
/// capacity of a channel is settled by what was asked for.
pub proof fn law_capacity_is_settled(n: nat, a: nat, b: nat)
    requires
        n <= a < 2 * n,
        n <= b < 2 * n,
        super::is_power_of_two(a),
        super::is_power_of_two(b),
    ensures
        a == b,
{
    let j = choose|k: nat| a == #[trigger] vstd::arithmetic::power2::pow2(k);
    let k = choose|k: nat| b == #[trigger] vstd::arithmetic::power2::pow2(k);
    if j < k {
        vstd::arithmetic::power2::lemma_pow2_unfold(k);
        if j < k - 1 {
            vstd::arithmetic::power2::lemma_pow2_strictly_increases(j, (k - 1) as nat);
        }
    } else if k < j {
        vstd::arithmetic::power2::lemma_pow2_unfold(j);
        if k < j - 1 {
            vstd::arithmetic::power2::lemma_pow2_strictly_increases(k, (j - 1) as nat);
        }
    }
}

} // verus!
