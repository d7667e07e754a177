//! A multi-producer, multi-consumer broadcast channel. Each sent value is
//! received by all consumers.
//!
//! When a value is sent, **all** receivers are notified and will receive the
//! value. The value is stored once inside the channel and cloned on demand for
//! each receiver. Once all receivers have received a clone of the value, the
//! value is released from the channel.
//!
//! # Lagging
//!
//! As sent messages must be retained until **all** receivers receive a clone,
//! there is an upper bound on the number of values that a channel retains. If a
//! value is sent when the channel is at capacity, the oldest value currently
//! held by the channel is released. Any receiver that has not yet seen the
//! released value is told that it has lagged the next time it asks, and its
//! position is moved to the oldest value contained by the channel.
//!
//! # Closing
//!
//! When all senders are gone, or one of them has closed the channel, no new
//! values may be sent. Once a receiver has received all values retained by the
//! channel it is told that the channel is closed.
pub mod error;
pub mod laws;

use std::marker::PhantomData;
use std::task::Waker;
use vstd::prelude::*;

use crate::identity::{Identities, Identity};
use crate::task::Poll;
use crate::wake_list::WakeList;
use error::{RecvError, SendError, TryRecvError};

verus! {

/// What a receiver is told when it asks for its next value.
pub enum Receipt<T> {
    /// The value.
    Value(T),
    /// It has missed this many values.
    Lagged(nat),
    /// There is no value, but there may be one later.
    Empty,
    /// There is no value, and none will be sent any more.
    Closed,
}

/// What a broadcast channel holds.
#[verifier::ext_equal]
pub struct ChannelView<T> {
    /// The number of values that the channel retains at most.
    pub capacity: nat,
    /// All the values that were ever sent, in order.
    pub sent: Seq<T>,
    /// The receivers; for each the number of the value that it is to receive
    /// next.
    pub readers: Map<int, nat>,
    /// The number of senders.
    pub senders: nat,
    /// Whether no more values may be sent.
    pub closed: bool,
    /// The wakers of the receivers that wait for a value.
    pub wakers: Seq<Waker>,
}

/// The number of receivers that have not yet received value number `p`.
pub open spec fn behind(readers: Map<int, nat>, p: int) -> nat {
    readers.dom().filter(|k: int| readers[k] <= p).len()
}

/// Whether `n` is a power of two.
pub open spec fn is_power_of_two(n: nat) -> bool {
    exists|k: nat| n == #[trigger] vstd::arithmetic::power2::pow2(k)
}

impl<T> ChannelView<T> {
    /// The number of the oldest value that may still be in the channel.
    pub open spec fn oldest(self) -> int {
        if self.sent.len() > self.capacity {
            self.sent.len() - self.capacity
        } else {
            0
        }
    }

    /// What holds of a channel at all times.
    pub open spec fn valid(self) -> bool {
        &&& self.capacity > 0
        &&& self.readers.dom().finite()
        &&& forall|k: int| #[trigger]
            self.readers.dom().contains(k) ==> self.readers[k] <= self.sent.len()
        &&& self.senders == 0 ==> self.closed
        &&& self.closed ==> self.wakers.len() == 0
    }

    /// Whether a value can be sent.
    pub open spec fn open(self) -> bool {
        self.readers.dom().len() > 0 && !self.closed
    }

    /// The channel after `value` has been sent: all receivers are to receive it,
    /// and none waits any more.
    pub open spec fn send(self, value: T) -> Self {
        ChannelView { sent: self.sent.push(value), wakers: Seq::empty(), ..self }
    }

    /// The channel after it has been closed: no receiver waits any more.
    pub open spec fn close(self) -> Self {
        ChannelView { closed: true, wakers: Seq::empty(), ..self }
    }

    /// The channel with a new receiver, of the values that are sent from now on.
    pub open spec fn subscribe(self, key: int) -> Self {
        ChannelView { readers: self.readers.insert(key, self.sent.len()), ..self }
    }

    /// The channel and the wakers that are due once a sender is gone. The last
    /// one closes it.
    pub open spec fn drop_sender(self) -> (Self, Seq<Waker>) {
        let after = ChannelView { senders: (self.senders - 1) as nat, ..self };
        if self.senders == 1 {
            (after.close(), self.wakers)
        } else {
            (after, Seq::empty())
        }
    }

    /// The channel and the wakers that are due once a receiver is gone. After the
    /// last one nobody waits any more, but the channel is not closed: who
    /// subscribes then receives what is sent after that.
    pub open spec fn drop_receiver(self, key: int) -> (Self, Seq<Waker>) {
        let after = ChannelView { readers: self.readers.remove(key), ..self };
        if after.readers.dom().len() == 0 {
            (ChannelView { wakers: Seq::empty(), ..after }, self.wakers)
        } else {
            (after, Seq::empty())
        }
    }

    /// The channel after receiver `key` has moved to value number `next`.
    pub open spec fn moved(self, key: int, next: int) -> Self {
        ChannelView { readers: self.readers.insert(key, next as nat), ..self }
    }

    /// What receiver `key` is told when it asks for its next value.
    pub open spec fn receipt(self, key: int) -> Receipt<T> {
        let next = self.readers[key] as int;
        if next == self.sent.len() {
            if self.closed {
                Receipt::Closed
            } else {
                Receipt::Empty
            }
        } else if next < self.oldest() {
            Receipt::Lagged((self.oldest() - next) as nat)
        } else {
            Receipt::Value(self.sent[next])
        }
    }

    /// The channel after receiver `key` has asked for its next value: it goes on
    /// behind the value that it got, or, if it has lagged, with the oldest value
    /// that may still be in the channel.
    pub open spec fn receive(self, key: int) -> Self {
        match self.receipt(key) {
            Receipt::Value(_) => self.moved(key, self.readers[key] as int + 1),
            Receipt::Lagged(_) => self.moved(key, self.oldest()),
            _ => self,
        }
    }

    /// The channel after a receiver has begun to wait.
    pub open spec fn wait(self, waker: Waker) -> Self {
        ChannelView { wakers: self.wakers.push(waker), ..self }
    }
}

/// A value in the channel.
struct Slot<T> {
    /// The number of receivers that have not yet received the value. When the
    /// last has, the value is released.
    rem: usize,
    /// The number of the value.
    pos: u64,
    /// The value.
    val: Option<T>,
}

/// Where values are written.
struct Tail {
    /// The number of the next value.
    pos: u64,
    /// The number of receivers.
    rx_cnt: usize,
    /// Whether the channel is closed.
    closed: bool,
    /// The receivers that wait for a value.
    wakers: WakeList,
}

/// The part of a channel that senders and receivers share.
pub struct Shared<T> {
    id: Identity,
    /// The values that are retained. Value number `p` is at `p % capacity`.
    buffer: Vec<Slot<T>>,
    /// The bits of a number that tell its place.
    mask: usize,
    tail: Tail,
    /// The number of senders.
    num_tx: usize,
    sent: Ghost<Seq<T>>,
    readers: Ghost<Map<int, nat>>,
    /// No receiver has had this key, or one above it.
    fresh: Ghost<int>,
}

pub(crate) proof fn lemma_behind_insert(readers: Map<int, nat>, key: int, next: nat, p: int)
    requires
        readers.dom().finite(),
    ensures
        behind(readers.insert(key, next), p) == behind(readers.remove(key), p) + (if next <= p {
            1nat
        } else {
            0nat
        }),
{
    let rest = readers.remove(key).dom().filter(|k: int| readers.remove(key)[k] <= p);
    let all = readers.insert(key, next).dom().filter(
        |k: int| readers.insert(key, next)[k] <= p,
    );
    assert(rest.finite());
    if next <= p {
        assert(all == rest.insert(key));
    } else {
        assert(all == rest);
    }
}

pub(crate) proof fn lemma_behind_remove(readers: Map<int, nat>, key: int, p: int)
    requires
        readers.dom().finite(),
        readers.dom().contains(key),
    ensures
        behind(readers, p) == behind(readers.remove(key), p) + (if readers[key] <= p {
            1nat
        } else {
            0nat
        }),
{
    lemma_behind_insert(readers, key, readers[key], p);
    assert(readers.insert(key, readers[key]) == readers);
}

impl<T> Shared<T> {
    pub closed spec fn view(&self) -> ChannelView<T> {
        ChannelView {
            capacity: self.buffer@.len(),
            sent: self.sent@,
            readers: self.readers@,
            senders: self.num_tx as nat,
            closed: self.tail.closed,
            wakers: self.tail.wakers@,
        }
    }

    /// The identity of the channel.
    pub closed spec fn id(&self) -> Identity {
        self.id
    }

    /// A key that no receiver has had.
    pub closed spec fn fresh_key(&self) -> int {
        self.fresh@
    }

    /// Whether the channel still holds value number `p`.
    pub closed spec fn retains(&self, p: int) -> bool {
        let slot = self.buffer@[p % self.buffer@.len() as int];
        slot.pos == p && slot.val is Some
    }

    /// The slot at the place of value number `p` holds it as long as a receiver
    /// has not received it.
    spec fn keeps(&self, readers: Map<int, nat>, p: int) -> bool {
        let slot = self.buffer@[p % self.buffer@.len() as int];
        &&& slot.pos == p
        &&& behind(readers, p) > 0 ==> slot.rem == behind(readers, p) && slot.val == Some(
            self.sent@[p],
        )
        &&& behind(readers, p) == 0 ==> slot.val is None
    }

    /// The buffer is as large as the mask says.
    spec fn sized(&self) -> bool {
        &&& self.mask == self.buffer@.len() - 1
        &&& is_power_of_two(self.buffer@.len())
    }

    /// What holds of a channel at all times.
    pub open spec fn wf(&self) -> bool {
        &&& self@.valid()
        &&& self.intact()
    }

    /// The counters and the buffer agree with what the channel holds.
    pub closed spec fn intact(&self) -> bool {
        &&& self.sized()
        &&& self.tail.pos == self.sent@.len()
        &&& self.tail.rx_cnt == self.readers@.dom().len()
        &&& forall|k: int| #[trigger] self.readers@.dom().contains(k) ==> k < self.fresh@
        &&& forall|p: int|
            self@.oldest() <= p < self.sent@.len() ==> #[trigger] self.keeps(self.readers@, p)
        &&& forall|i: int|
            self.sent@.len() <= i < self.buffer@.len() ==> (#[trigger] self.buffer@[i]).val is None
    }

    /// The number of values that were ever sent.
    pub fn sent_count(&self) -> (n: u64)
        requires
            self.wf(),
        ensures
            n == self@.sent.len(),
    {
        self.tail.pos
    }

    /// The number of senders.
    pub fn sender_count(&self) -> (n: usize)
        ensures
            n == self@.senders,
    {
        self.num_tx
    }

    /// The number of receivers.
    pub fn receiver_count(&self) -> (n: usize)
        requires
            self.wf(),
        ensures
            n == self@.readers.dom().len(),
    {
        self.tail.rx_cnt
    }

    /// The number of values that the channel retains at most.
    pub fn capacity(&self) -> (n: usize)
        ensures
            n == self@.capacity,
    {
        self.buffer.len()
    }

    /// Values are retained whatever becomes of the flags and of the senders.
    proof fn lemma_same_buffer(&self, before: Self)
        requires
            before.intact(),
            self.id == before.id,
            self.buffer == before.buffer,
            self.mask == before.mask,
            self.tail.pos == before.tail.pos,
            self.tail.rx_cnt == before.tail.rx_cnt,
            self.sent == before.sent,
            self.readers == before.readers,
            self.fresh == before.fresh,
        ensures
            self.intact(),
    {
        assert forall|p: int| self@.oldest() <= p < self.sent@.len() implies (
        #[trigger] self.keeps(self.readers@, p)) by {
            assert(before.keeps(before.readers@, p));
        }
    }

    /// Closes the channel.
    fn close(&mut self, wakes: &mut WakeList)
        requires
            old(self).wf(),
        ensures
            final(self).wf(),
            final(self).id() == old(self).id(),
            final(self).fresh_key() == old(self).fresh_key(),
            final(self)@ == old(self)@.close(),
            final(wakes)@ == old(wakes)@ + old(self)@.wakers,
            final(self).num_tx == old(self).num_tx,
    {
        self.tail.closed = true;
        wakes.append(&mut self.tail.wakers);
        proof {
            self.lemma_same_buffer(*old(self));
        }
    }

    /// The place of value number `pos`.
    fn place(&self, pos: u64) -> (idx: usize)
        requires
            self.sized(),
        ensures
            idx == pos as int % self.buffer@.len() as int,
            idx < self.buffer@.len(),
    {
        proof {
            lemma_masked(pos, self.buffer@.len());
            assert(self.buffer.len() <= usize::MAX);
        }
        (pos & (self.mask as u64)) as usize
    }

    /// Counts a receiver as one that has received all values, and takes it off
    /// the channel.
    pub fn drop_receiver(&mut self, rx: Receiver<T>, wakes: &mut WakeList)
        requires
            old(self).wf(),
            rx.belongs_to(old(self)),
        ensures
            final(self).wf(),
            final(self).id() == old(self).id(),
            final(self).fresh_key() == old(self).fresh_key(),
            final(self)@ == old(self)@.drop_receiver(rx.key()).0,
            final(wakes)@ == old(wakes)@ + old(self)@.drop_receiver(rx.key()).1,
    {
        let ghost before = *self;
        let ghost key = rx.key@;
        let ghost readers = self.readers@.remove(key);
        let next = rx.next;
        let last = self.tail.pos;
        self.tail.rx_cnt = self.tail.rx_cnt - 1;
        // Mark the values from `next` on as received.
        let mut pos: u64 = next;
        proof {
            assert forall|p: int| before@.oldest() <= p < pos implies #[trigger] self.keeps(
                readers,
                p,
            ) by {
                assert(before.keeps(before.readers@, p));
                lemma_behind_remove(before.readers@, key, p);
            }
            assert forall|p: int|
                before@.oldest() <= p && pos <= p < last implies #[trigger] self.keeps(
                before.readers@,
                p,
            ) by {
                assert(before.keeps(before.readers@, p));
            }
        }
        while pos < last
            invariant
                before.wf(),
                before.readers@.dom().contains(key),
                before.readers@[key] == next,
                readers == before.readers@.remove(key),
                next <= pos <= last == before.tail.pos,
                self.id == before.id,
                self.mask == before.mask,
                self.tail.pos == before.tail.pos,
                self.tail.closed == before.tail.closed,
                self.tail.wakers == before.tail.wakers,
                self.tail.rx_cnt == before.tail.rx_cnt - 1,
                self.num_tx == before.num_tx,
                self.sent == before.sent,
                self.readers == before.readers,
                self.fresh == before.fresh,
                self.buffer@.len() == before.buffer@.len(),
                forall|i: int|
                    0 <= i < before.buffer@.len() ==> (#[trigger] self.buffer@[i]).pos
                        == before.buffer@[i].pos,
                forall|p: int|
                    before@.oldest() <= p < pos ==> #[trigger] self.keeps(readers, p),
                forall|p: int|
                    before@.oldest() <= p && pos <= p < last ==> #[trigger] self.keeps(
                        before.readers@,
                        p,
                    ),
                forall|i: int|
                    before.sent@.len() <= i < before.buffer@.len() ==> (
                    #[trigger] self.buffer@[i]).val is None,
            decreases last - pos,
        {
            let ghost at = *self;
            let ghost cap = self.buffer@.len() as int;
            let idx = self.place(pos);
            proof {
                if pos < before@.oldest() {
                    before.lemma_overwritten(pos as int);
                } else {
                    assert(at.keeps(before.readers@, pos as int));
                    lemma_behind_remove(before.readers@, key, pos as int);
                }
            }
            if self.buffer[idx].pos == pos {
                if self.buffer[idx].rem > 0 {
                    self.buffer[idx].rem = self.buffer[idx].rem - 1;
                }
                // If no receivers are waiting for this slot, drop the value.
                if self.buffer[idx].rem == 0 {
                    self.buffer[idx].val = None;
                }
            }
            proof {
                assert forall|p: int| before@.oldest() <= p < pos + 1 implies #[trigger] self.keeps(
                    readers,
                    p,
                ) by {
                    if p < pos {
                        assert(at.keeps(readers, p));
                        Self::lemma_places(cap, p, pos as int);
                    }
                }
                assert forall|p: int|
                    before@.oldest() <= p && pos + 1 <= p < last implies #[trigger] self.keeps(
                    before.readers@,
                    p,
                ) by {
                    assert(at.keeps(before.readers@, p));
                    if before@.oldest() <= pos {
                        Self::lemma_places(cap, pos as int, p);
                    }
                }
            }
            pos = pos + 1;
        }
        let ghost marked = *self;
        proof {
            self.readers@ = readers;
        }
        // If no receivers are left, nobody waits any more.
        if self.tail.rx_cnt == 0 {
            wakes.append(&mut self.tail.wakers);
        }
        proof {
            assert(readers.dom() == before.readers@.dom().remove(key));
            assert(self@ == before@.drop_receiver(key).0);
            assert forall|p: int| self@.oldest() <= p < self.sent@.len() implies (
            #[trigger] self.keeps(self.readers@, p)) by {
                assert(marked.keeps(readers, p));
            }
            assert(old(wakes)@ + Seq::<Waker>::empty() == old(wakes)@);
        }
    }

    /// A value that has been overwritten is not at its place any more: the place
    /// holds one that was sent later.
    proof fn lemma_overwritten(&self, p: int)
        requires
            self.wf(),
            0 <= p < self@.oldest(),
        ensures
            self.buffer@[p % self.buffer@.len() as int].pos != p,
    {
        let cap = self.buffer@.len() as int;
        let q = self@.oldest() + (p - self@.oldest()) % cap;
        assert(q % cap == p % cap) by {
            vstd::arithmetic::div_mod::lemma_add_mod_noop_right(
                self@.oldest(),
                p - self@.oldest(),
                cap,
            );
        }
        assert(self.keeps(self.readers@, q));
    }

    /// A receiver that moves past values that have been overwritten, or past one
    /// value that counts it no more, leaves the channel in order.
    proof fn lemma_moved(&self, before: Self, key: int, next: int)
        requires
            before.wf(),
            before.readers@.dom().contains(key),
            before.readers@[key] <= next <= before.sent@.len(),
            self.readers@ == before.readers@.insert(key, next as nat),
            self.id == before.id,
            self.mask == before.mask,
            self.tail == before.tail,
            self.num_tx == before.num_tx,
            self.sent == before.sent,
            self.fresh == before.fresh,
            self.buffer@.len() == before.buffer@.len(),
            ({
                ||| next == before@.oldest() && self.buffer == before.buffer
                ||| next == before.readers@[key] + 1 && {
                    let p = before.readers@[key] as int;
                    let idx = p % before.buffer@.len() as int;
                    let slot = before.buffer@[idx];
                    &&& before@.oldest() <= p
                    &&& self.buffer@ == before.buffer@.update(
                        idx,
                        if slot.rem > 1 {
                            Slot { rem: (slot.rem - 1) as usize, ..slot }
                        } else {
                            Slot { val: None, ..slot }
                        },
                    )
                }
            }),
        ensures
            self.wf(),
            self@ == before@.moved(key, next),
    {
        let cap = before.buffer@.len() as int;
        let from = before.readers@[key] as int;
        assert(self.readers@.dom() == before.readers@.dom());
        assert forall|p: int| self@.oldest() <= p < self.sent@.len() implies (
        #[trigger] self.keeps(self.readers@, p)) by {
            assert(before.keeps(before.readers@, p));
            lemma_behind_remove(before.readers@, key, p);
            lemma_behind_insert(before.readers@, key, next as nat, p);
            if next == from + 1 && self.buffer != before.buffer {
                if p < from {
                    Self::lemma_places(cap, p, from);
                } else if p > from {
                    Self::lemma_places(cap, from, p);
                }
            }
        }
        if self.buffer != before.buffer {
            assert forall|i: int| self.sent@.len() <= i < cap implies (
            #[trigger] self.buffer@[i]).val is None by {
                assert(before.buffer@[i].val is None);
            }
        }
    }

    /// Values that are retained at the same time have different places.
    proof fn lemma_places(cap: int, p: int, q: int)
        requires
            0 <= p < q < p + cap,
        ensures
            p % cap != q % cap,
    {
        if p % cap == q % cap {
            vstd::arithmetic::div_mod::lemma_mod_equivalence(q, p, cap);
            vstd::arithmetic::div_mod::lemma_small_mod((q - p) as nat, cap as nat);
        }
    }
}

/// The bits below a power of two are the remainder.
proof fn lemma_masked(pos: u64, n: nat)
    requires
        is_power_of_two(n),
        n <= u64::MAX,
    ensures
        pos & ((n - 1) as u64) == pos as int % n as int,
{
    let k = choose|k: nat| n == #[trigger] vstd::arithmetic::power2::pow2(k);
    vstd::arithmetic::power2::lemma2_to64();
    if k >= 64 {
        if k > 64 {
            vstd::arithmetic::power2::lemma_pow2_strictly_increases(64, k);
        }
        assert(false);
    }
    vstd::arithmetic::power2::lemma_pow2_pos(k);
    vstd::bits::lemma_u64_low_bits_mask_is_mod(pos, k);
}

/// The smallest power of two that is not below `n`: the only one between `n` and
/// twice `n`.
fn next_power_of_two(n: usize) -> (cap: usize)
    requires
        0 < n <= usize::MAX / 2 + 1,
    ensures
        is_power_of_two(cap as nat),
        n <= cap < 2 * n,
{
    let mut cap: usize = 1;
    proof {
        vstd::arithmetic::power2::lemma2_to64();
        assert(is_power_of_two(1)) by {
            assert(vstd::arithmetic::power2::pow2(0) == 1);
        }
    }
    while cap < n
        invariant
            0 < n <= usize::MAX / 2 + 1,
            is_power_of_two(cap as nat),
            0 < cap < 2 * n,
        decreases 2 * n - cap,
    {
        proof {
            let k = choose|k: nat| cap as nat == #[trigger] vstd::arithmetic::power2::pow2(k);
            vstd::arithmetic::power2::lemma_pow2_unfold(k + 1);
            assert((2 * cap) as nat == vstd::arithmetic::power2::pow2(k + 1));
        }
        cap = cap * 2;
    }
    cap
}

/// Sending-half of a broadcast channel.
pub struct Sender<T> {
    id: Identity,
    marker: PhantomData<T>,
}

/// Receiving-half of a broadcast channel.
pub struct Receiver<T> {
    id: Identity,
    /// The number of the value to receive next.
    next: u64,
    /// What tells the receiver from the others of the channel.
    key: Ghost<int>,
    marker: PhantomData<T>,
}

impl<T> Receiver<T> {
    /// The identity of the channel.
    pub closed spec fn id(&self) -> Identity {
        self.id
    }

    /// What tells the receiver from the others of the channel.
    pub closed spec fn key(&self) -> int {
        self.key@
    }

    /// The number of the value to receive next.
    pub closed spec fn next(&self) -> nat {
        self.next as nat
    }

    /// Whether the channel knows the receiver.
    pub open spec fn belongs_to(&self, shared: &Shared<T>) -> bool {
        &&& self.id() == shared.id()
        &&& shared@.readers.dom().contains(self.key())
        &&& shared@.readers[self.key()] == self.next()
    }
}

/// A channel that retains at least `capacity` values, and its handles.
///
/// **Note:** The actual capacity is rounded up to the next power of 2. The channel
/// is told apart from all others that `ids` names.
pub fn channel<T>(ids: &mut Identities, capacity: usize) -> (made: (
    Shared<T>,
    Sender<T>,
    Receiver<T>,
))
    requires
        old(ids)@ < u64::MAX,
        0 < capacity <= usize::MAX / 2 + 1,
    ensures
        final(ids).source() == old(ids).source(),
        final(ids)@ == old(ids)@ + 1,
        made.0.wf(),
        made.0.id().source() == old(ids).source(),
        made.0.id()@ == old(ids)@,
        made.1.id() == made.0.id(),
        made.2.belongs_to(&made.0),
        made.2.next() == 0,
        is_power_of_two(made.0@.capacity),
        capacity <= made.0@.capacity < 2 * capacity,
        made.0@ == (ChannelView {
            capacity: made.0@.capacity,
            sent: Seq::<T>::empty(),
            readers: Map::empty().insert(made.2.key(), 0),
            senders: 1,
            closed: false,
            wakers: Seq::empty(),
        }),
{
    // Round up to the next power of 2
    let cap = next_power_of_two(capacity);
    let mut buffer: Vec<Slot<T>> = Vec::with_capacity(cap);
    while buffer.len() < cap
        invariant
            buffer@.len() <= cap,
            forall|i: int| 0 <= i < buffer@.len() ==> (#[trigger] buffer@[i]).val is None,
        decreases cap - buffer@.len(),
    {
        buffer.push(Slot { rem: 0, pos: 0, val: None });
    }
    let id = ids.fresh();
    let shared = Shared {
        id,
        buffer,
        mask: cap - 1,
        tail: Tail { pos: 0, rx_cnt: 1, closed: false, wakers: WakeList::new() },
        num_tx: 1,
        sent: Ghost(Seq::empty()),
        readers: Ghost(Map::empty().insert(0, 0)),
        fresh: Ghost(1),
    };
    assert(shared.readers@.dom() == Set::empty().insert(0int));
    let tx = Sender { id, marker: PhantomData };
    let rx = Receiver { id, next: 0, key: Ghost(0), marker: PhantomData };
    (shared, tx, rx)
}

impl<T> Sender<T> {
    /// The identity of the channel.
    pub closed spec fn id(&self) -> Identity {
        self.id
    }

    /// Sends a value to all receivers. It is handed back if there are none, or
    /// if the channel is closed.
    pub fn send(&self, shared: &mut Shared<T>, value: T, wakes: &mut WakeList) -> (result: Result<
        (),
        SendError<T>,
    >)
        requires
            old(shared).wf(),
            old(shared).id() == self.id(),
            old(shared)@.sent.len() < u64::MAX,
        ensures
            final(shared).wf(),
            final(shared).id() == old(shared).id(),
            final(shared).fresh_key() == old(shared).fresh_key(),
            result == (if old(shared)@.open() {
                Ok(())
            } else {
                Err(SendError(value))
            }),
            final(shared)@ == (if result is Ok {
                old(shared)@.send(value)
            } else {
                old(shared)@
            }),
            final(wakes)@ == (if result is Ok {
                old(wakes)@ + old(shared)@.wakers
            } else {
                old(wakes)@
            }),
    {
        if shared.tail.rx_cnt == 0 || shared.tail.closed {
            return Err(SendError(value));
        }
        let ghost before = *shared;
        let idx = shared.place(shared.tail.pos);
        shared.buffer[idx] = Slot {
            rem: shared.tail.rx_cnt,
            pos: shared.tail.pos,
            val: Some(value),
        };
        shared.tail.pos = shared.tail.pos + 1;
        proof {
            shared.sent@ = shared.sent@.push(value);
        }
        // Wake all waiting receivers
        wakes.append(&mut shared.tail.wakers);
        proof {
            let cap = before.buffer@.len() as int;
            let n = before.sent@.len() as int;
            assert(shared@ == before@.send(value));
            assert forall|p: int| shared@.oldest() <= p < shared.sent@.len() implies (
            #[trigger] shared.keeps(shared.readers@, p)) by {
                if p == n {
                    let readers = before.readers@;
                    assert(readers.dom().filter(|k: int| readers[k] <= p) == readers.dom());
                } else {
                    assert(before.keeps(before.readers@, p));
                    Shared::<T>::lemma_places(cap, p, n);
                }
            }
            assert forall|i: int| shared.sent@.len() <= i < cap implies (
            #[trigger] shared.buffer@[i]).val is None by {
                vstd::arithmetic::div_mod::lemma_small_mod(n as nat, cap as nat);
                assert(before.buffer@[i].val is None);
            }
        }
        Ok(())
    }

    /// A new receiver, of the values that are sent **after** this.
    pub fn subscribe(&self, shared: &mut Shared<T>) -> (rx: Receiver<T>)
        requires
            old(shared).wf(),
            old(shared).id() == self.id(),
            old(shared)@.readers.dom().len() < usize::MAX,
        ensures
            final(shared).wf(),
            final(shared).id() == old(shared).id(),
            final(shared)@ == old(shared)@.subscribe(rx.key()),
            rx.belongs_to(final(shared)),
            rx.key() == old(shared).fresh_key(),
            !old(shared)@.readers.dom().contains(rx.key()),
            final(shared).fresh_key() == old(shared).fresh_key() + 1,
            rx.next() == old(shared)@.sent.len(),
    {
        new_receiver(shared)
    }

    /// The number of receivers.
    pub fn receiver_count(&self, shared: &Shared<T>) -> (n: usize)
        requires
            shared.wf(),
            shared.id() == self.id(),
        ensures
            n == shared@.readers.dom().len(),
    {
        shared.receiver_count()
    }

    /// Whether all receivers are gone. Sending fails then.
    pub fn is_closed(&self, shared: &Shared<T>) -> (closed: bool)
        requires
            shared.wf(),
            shared.id() == self.id(),
        ensures
            closed <==> shared@.readers.dom().len() == 0,
            closed ==> !shared@.open(),
    {
        shared.tail.rx_cnt == 0
    }

    /// Closes the channel without sending a message: no values can be sent any
    /// more, but receivers still receive those that the channel retains.
    pub fn close(&self, shared: &mut Shared<T>, wakes: &mut WakeList)
        requires
            old(shared).wf(),
            old(shared).id() == self.id(),
        ensures
            final(shared).wf(),
            final(shared).id() == old(shared).id(),
            final(shared).fresh_key() == old(shared).fresh_key(),
            final(shared)@ == old(shared)@.close(),
            final(wakes)@ == old(wakes)@ + old(shared)@.wakers,
    {
        shared.close(wakes);
    }

    /// Whether both are senders of the same channel.
    pub fn same_channel(&self, other: &Self) -> (same: bool)
        requires
            self.id().source() == other.id().source(),
        ensures
            same <==> self.id() == other.id(),
    {
        self.id.same(&other.id)
    }

    /// Another sender of the same channel.
    pub fn clone(&self, shared: &mut Shared<T>) -> (tx: Self)
        requires
            old(shared).wf(),
            old(shared).id() == self.id(),
            old(shared)@.senders < usize::MAX,
        ensures
            final(shared).wf(),
            final(shared).id() == old(shared).id(),
            final(shared).fresh_key() == old(shared).fresh_key(),
            final(shared)@ == (ChannelView {
                senders: old(shared)@.senders + 1,
                ..old(shared)@
            }),
            tx.id() == self.id(),
    {
        let ghost before = *shared;
        shared.num_tx = shared.num_tx + 1;
        proof {
            shared.lemma_same_buffer(before);
        }
        Sender { id: self.id, marker: PhantomData }
    }

    /// Gives the sender up. The last one closes the channel.
    pub fn drop(self, shared: &mut Shared<T>, wakes: &mut WakeList)
        requires
            old(shared).wf(),
            old(shared).id() == self.id(),
            old(shared)@.senders > 0,
        ensures
            final(shared).wf(),
            final(shared).id() == old(shared).id(),
            final(shared).fresh_key() == old(shared).fresh_key(),
            final(shared)@ == old(shared)@.drop_sender().0,
            final(wakes)@ == old(wakes)@ + old(shared)@.drop_sender().1,
    {
        let ghost before = *shared;
        let count = shared.num_tx;
        if count == 1 {
            shared.close(wakes);
        }
        let ghost middle = *shared;
        shared.num_tx = count - 1;
        proof {
            shared.lemma_same_buffer(middle);
            assert(old(wakes)@ + Seq::<Waker>::empty() == old(wakes)@);
            assert(shared@ == before@.drop_sender().0);
        }
    }
}

/// A receiver that begins with the next value to be sent.
fn new_receiver<T>(shared: &mut Shared<T>) -> (rx: Receiver<T>)
    requires
        old(shared).wf(),
        old(shared)@.readers.dom().len() < usize::MAX,
    ensures
        final(shared).wf(),
        final(shared).id() == old(shared).id(),
        final(shared)@ == old(shared)@.subscribe(rx.key()),
        rx.belongs_to(final(shared)),
        rx.key() == old(shared).fresh_key(),
        !old(shared)@.readers.dom().contains(rx.key()),
        final(shared).fresh_key() == old(shared).fresh_key() + 1,
        rx.next() == old(shared)@.sent.len(),
{
    let ghost before = *shared;
    let ghost key = shared.fresh@;
    shared.tail.rx_cnt = shared.tail.rx_cnt + 1;
    let next = shared.tail.pos;
    proof {
        shared.readers@ = shared.readers@.insert(key, next as nat);
        shared.fresh@ = key + 1;
        assert(!before.readers@.dom().contains(key));
        assert(before.readers@.remove(key) =~= before.readers@);
        assert(shared.readers@.dom() == before.readers@.dom().insert(key));
        assert forall|p: int| shared@.oldest() <= p < shared.sent@.len() implies (
        #[trigger] shared.keeps(shared.readers@, p)) by {
            assert(before.keeps(before.readers@, p));
            lemma_behind_insert(before.readers@, key, next as nat, p);
        }
    }
    Receiver { id: shared.id, next, key: Ghost(key), marker: PhantomData }
}

impl<T> Receiver<T> {
    /// The number of values that were sent and that the receiver has yet to
    /// receive. If it is larger than the capacity of the channel, the receiver
    /// has lagged.
    pub fn len(&self, shared: &Shared<T>) -> (n: usize)
        requires
            shared.wf(),
            self.belongs_to(shared),
        ensures
            n == (shared@.sent.len() - self.next()) as usize,
    {
        (shared.tail.pos - self.next) as usize
    }

    /// Whether there is no value that the receiver has yet to receive.
    pub fn is_empty(&self, shared: &Shared<T>) -> (empty: bool)
        requires
            shared.wf(),
            self.belongs_to(shared),
        ensures
            empty <==> shared@.sent.len() == self.next(),
    {
        shared.tail.pos == self.next
    }

    /// Whether both are receivers of the same channel.
    pub fn same_channel(&self, other: &Self) -> (same: bool)
        requires
            self.id().source() == other.id().source(),
        ensures
            same <==> self.id() == other.id(),
    {
        self.id.same(&other.id)
    }

    /// Another receiver of the same channel, of the values that are sent **after**
    /// this.
    pub fn resubscribe(&self, shared: &mut Shared<T>) -> (rx: Receiver<T>)
        requires
            old(shared).wf(),
            old(shared).id() == self.id(),
            old(shared)@.readers.dom().len() < usize::MAX,
        ensures
            final(shared).wf(),
            final(shared).id() == old(shared).id(),
            final(shared)@ == old(shared)@.subscribe(rx.key()),
            rx.belongs_to(final(shared)),
            rx.key() == old(shared).fresh_key(),
            !old(shared)@.readers.dom().contains(rx.key()),
            final(shared).fresh_key() == old(shared).fresh_key() + 1,
            rx.next() == old(shared)@.sent.len(),
    {
        new_receiver(shared)
    }

    /// Gives the receiver up. The values that it has yet to receive count as
    /// received.
    pub fn drop(self, shared: &mut Shared<T>, wakes: &mut WakeList)
        requires
            old(shared).wf(),
            self.belongs_to(old(shared)),
        ensures
            final(shared).wf(),
            final(shared).id() == old(shared).id(),
            final(shared).fresh_key() == old(shared).fresh_key(),
            final(shared)@ == old(shared)@.drop_receiver(self.key()).0,
            final(wakes)@ == old(wakes)@ + old(shared)@.drop_receiver(self.key()).1,
    {
        shared.drop_receiver(self, wakes);
    }
}

impl<T: Clone> Receiver<T> {
    /// A clone of the next value, if it is there.
    ///
    /// A receiver that has fallen behind by more than the capacity of the channel
    /// is told so, and goes on with the oldest value that the channel retains.
    pub fn try_recv(&mut self, shared: &mut Shared<T>) -> (result: Result<T, TryRecvError>)
        requires
            old(shared).wf(),
            old(self).belongs_to(old(shared)),
        ensures
            final(shared).wf(),
            final(shared).id() == old(shared).id(),
            final(shared).fresh_key() == old(shared).fresh_key(),
            final(self).belongs_to(final(shared)),
            final(self).key() == old(self).key(),
            final(shared)@ == old(shared)@.receive(old(self).key()),
            match old(shared)@.receipt(old(self).key()) {
                Receipt::Value(sent) => {
                    &&& result matches Ok(value)
                    &&& cloned(sent, value)
                },
                Receipt::Lagged(n) => {
                    &&& result matches Err(TryRecvError::Lagged(missed))
                    &&& missed == n
                },
                Receipt::Empty => result == Err::<T, TryRecvError>(TryRecvError::Empty),
                Receipt::Closed => result == Err::<T, TryRecvError>(TryRecvError::Closed),
            },
    {
        let ghost before = *shared;
        let ghost key = self.key@;
        if self.next == shared.tail.pos {
            if shared.tail.closed || shared.num_tx == 0 {
                return Err(TryRecvError::Closed);
            }
            return Err(TryRecvError::Empty);
        }
        let idx = shared.place(self.next);
        proof {
            if self.next < before@.oldest() {
                before.lemma_overwritten(self.next as int);
            } else {
                assert(before.keeps(before.readers@, self.next as int));
            }
        }
        if shared.buffer[idx].pos != self.next {
            // We've lagged behind, calculate by how much
            let next = shared.tail.pos - shared.buffer.len() as u64;
            let missed = next - self.next;
            self.next = next;
            proof {
                shared.readers@ = shared.readers@.insert(key, next as nat);
                shared.lemma_moved(before, key, next as int);
            }
            return Err(TryRecvError::Lagged(missed));
        }
        let value = shared.buffer[idx].val.clone();
        proof {
            lemma_behind_remove(before.readers@, key, self.next as int);
        }
        match value {
            Some(value) => {
                let rem = shared.buffer[idx].rem;
                if rem > 1 {
                    shared.buffer[idx].rem = rem - 1;
                } else {
                    shared.buffer[idx].val = None;
                }
                self.next = self.next + 1;
                proof {
                    shared.readers@ = shared.readers@.insert(key, self.next as nat);
                    shared.lemma_moved(before, key, self.next as int);
                }
                Ok(value)
            },
            None => Err(TryRecvError::Closed),
        }
    }

    /// A clone of the next value; while there is none, `waker` is kept instead.
    ///
    /// A receiver that has fallen behind by more than the capacity of the channel
    /// is told so, and goes on with the oldest value that the channel retains.
    pub fn poll_recv(&mut self, shared: &mut Shared<T>, waker: Waker) -> (result: Poll<
        Result<T, RecvError>,
    >)
        requires
            old(shared).wf(),
            old(self).belongs_to(old(shared)),
        ensures
            final(shared).wf(),
            final(shared).id() == old(shared).id(),
            final(shared).fresh_key() == old(shared).fresh_key(),
            final(self).belongs_to(final(shared)),
            final(self).key() == old(self).key(),
            final(shared)@ == (if result is Pending {
                old(shared)@.wait(waker)
            } else {
                old(shared)@.receive(old(self).key())
            }),
            match old(shared)@.receipt(old(self).key()) {
                Receipt::Value(sent) => {
                    &&& result matches Poll::Ready(Ok(value))
                    &&& cloned(sent, value)
                },
                Receipt::Lagged(n) => {
                    &&& result matches Poll::Ready(Err(RecvError::Lagged(missed)))
                    &&& missed == n
                },
                Receipt::Empty => result is Pending,
                Receipt::Closed => result == Poll::Ready(Err::<T, RecvError>(RecvError::Closed)),
            },
    {
        match self.try_recv(shared) {
            Ok(value) => Poll::Ready(Ok(value)),
            Err(TryRecvError::Empty) => {
                // Register waker
                let ghost before = *shared;
                shared.tail.wakers.push(waker);
                proof {
                    shared.lemma_same_buffer(before);
                }
                Poll::Pending
            },
            Err(TryRecvError::Lagged(n)) => Poll::Ready(Err(RecvError::Lagged(n))),
            Err(TryRecvError::Closed) => Poll::Ready(Err(RecvError::Closed)),
        }
    }
}

/// A value is in the channel if and only if it is one of the last ones sent, as
/// many as the capacity says, and a receiver has not yet received it: once all
/// have, it is released.
pub proof fn law_released_once_all_received<T>(shared: Shared<T>, p: int)
    requires
        shared.wf(),
        p >= 0,
    ensures
        shared.retains(p) <==> shared@.oldest() <= p < shared@.sent.len() && behind(
            shared@.readers,
            p,
        ) > 0,
{
    let cap = shared.buffer@.len() as int;
    let n = shared.sent@.len() as int;
    if p < shared@.oldest() {
        shared.lemma_overwritten(p);
    } else if p < n {
        assert(shared.keeps(shared.readers@, p));
    } else {
        let idx = p % cap;
        if idx < n {
            let q = shared@.oldest() + (p - shared@.oldest()) % cap;
            assert(q % cap == idx) by {
                vstd::arithmetic::div_mod::lemma_add_mod_noop_right(
                    shared@.oldest(),
                    p - shared@.oldest(),
                    cap,
                );
            }
            if n <= cap {
                vstd::arithmetic::div_mod::lemma_small_mod(idx as nat, cap as nat);
                assert(shared.keeps(shared.readers@, idx));
            } else {
                assert(shared.keeps(shared.readers@, q));
            }
        }
    }
}

} // verus!
