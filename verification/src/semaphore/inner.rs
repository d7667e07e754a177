//! The semaphore proper.
use std::collections::VecDeque;
use std::task::Waker;
use vstd::prelude::*;

use super::model;
use super::model::{Progress, SemaphoreView, Slot, TryAcquireError, Waiter, MAX_PERMITS};
use crate::identity::Identity;
use crate::wake_list::WakeList;

verus! {

/// The flag in the permit word that says that the semaphore is closed.
const CLOSED: usize = 1;

/// The permit word keeps its lowest bit for [`CLOSED`]; the number of permits
/// stands above it.
const PERMIT_SHIFT: usize = 1;

/// Low level semaphore: permits that are counted, not held by anybody.
pub struct Inner {
    /// What tells the semaphore from others.
    id: Identity,
    /// The permit word: the number of free permits, and [`CLOSED`].
    permits: usize,
    /// The wait queue, the longest waiting in front.
    queue: VecDeque<Waiter>,
    /// The acquisitions that have once had to wait, by ticket.
    slots: Vec<Slot>,
}

impl View for Inner {
    type V = SemaphoreView;

    closed spec fn view(&self) -> SemaphoreView {
        SemaphoreView {
            permits: (self.permits / 2) as nat,
            closed: self.permits % 2 == 1,
            queue: self.queue@,
            slots: self.slots@,
        }
    }
}

proof fn lemma_shift(n: usize)
    requires
        n <= MAX_PERMITS,
    ensures
        n << 1usize == 2 * n,
{
    vstd::arithmetic::power2::lemma2_to64();
    vstd::bits::lemma_usize_shl_is_mul(n, 1);
}

proof fn lemma_word(word: usize)
    ensures
        word >> 1usize == word / 2,
        word & 1 == word % 2,
        word % 2 == 0 ==> word | 1 == word + 1,
        word % 2 == 1 ==> word | 1 == word,
{
    assert(word >> 1usize == word / 2) by (bit_vector);
    assert(word & 1 == word % 2) by (bit_vector);
    assert(word % 2 == 0 ==> word | 1 == word + 1) by (bit_vector);
    assert(word % 2 == 1 ==> word | 1 == word) by (bit_vector);
}

proof fn lemma_mask(n: usize)
    ensures
        n & MAX_PERMITS == n as int % (MAX_PERMITS + 1),
{
    let max = usize::MAX;
    assert(max <= !0usize) by (bit_vector);
    assert(n & (max / 8) == n % ((max / 8 + 1) as usize)) by (bit_vector)
        requires
            max == !0usize,
    ;
}

impl Inner {
    /// What holds of a semaphore at all times.
    pub open spec fn wf(&self) -> bool {
        self@.valid()
    }

    /// The identity of the semaphore.
    pub closed spec fn id(&self) -> Identity {
        self.id
    }

    /// The identity of the semaphore.
    pub fn identity(&self) -> (id: Identity)
        ensures
            id == self.id(),
    {
        self.id
    }

    /// A semaphore with the given number of permits. Of a number above
    /// [`MAX_PERMITS`] only the bits below that bound count.
    pub fn new(id: Identity, permits: usize) -> (sem: Self)
        ensures
            sem.wf(),
            sem.id() == id,
            sem@ == SemaphoreView::with_permits(permits),
            permits <= usize::MAX / 8 ==> sem@.permits == permits,
            permits > usize::MAX / 8 ==> sem@.permits == permits as int % (usize::MAX / 8 + 1),
            !sem@.closed,
            sem@.queue.len() == 0,
            sem@.slots.len() == 0,
    {
        proof {
            lemma_mask(permits);
            if permits <= MAX_PERMITS {
                vstd::arithmetic::div_mod::lemma_small_mod(
                    permits as nat,
                    (MAX_PERMITS + 1) as nat,
                );
            }
        }
        let permits = permits & MAX_PERMITS;
        proof {
            lemma_shift(permits);
        }
        Inner { id, permits: permits << PERMIT_SHIFT, queue: VecDeque::new(), slots: Vec::new() }
    }

    /// The number of free permits.
    pub fn available_permits(&self) -> (n: usize)
        ensures
            n == self@.permits,
    {
        proof {
            lemma_word(self.permits);
        }
        self.permits >> PERMIT_SHIFT
    }

    /// Whether the semaphore is closed.
    pub fn is_closed(&self) -> (closed: bool)
        ensures
            closed == self@.closed,
    {
        proof {
            lemma_word(self.permits);
        }
        self.permits & CLOSED != 0
    }

    /// Whether `n` permits can be added without leaving more than
    /// [`MAX_PERMITS`] free.
    pub fn can_add(&self, n: usize) -> (yes: bool)
        requires
            self.wf(),
        ensures
            yes == self@.fits(n as nat),
    {
        self.absorbs(n, self.queue.len())
    }

    /// Whether the request that has waited under `ticket` can be given up
    /// without leaving more than [`MAX_PERMITS`] permits free.
    pub fn can_cancel(&self, ticket: usize) -> (yes: bool)
        requires
            self.wf(),
            ticket < self@.slots.len(),
            self@.slots[ticket as int] !is Vacant,
        ensures
            yes == (self@.cancel(ticket as int).0.permits <= MAX_PERMITS),
    {
        let ghost without = self@.without(ticket as int);
        let ghost granted = self@.granted(ticket as int);
        proof {
            model::lemma_fits_any_slots(without, self@.slots, granted);
        }
        match self.slots[ticket] {
            Slot::Queued => {
                let i = self.position(ticket);
                self.absorbs(self.queue[i].requested - self.queue[i].missing, i)
            },
            Slot::Settled { requested, missing } => {
                self.absorbs(requested - missing, self.queue.len())
            },
            Slot::Vacant => true,
        }
    }

    /// Whether `n` permits can be added without leaving more than
    /// [`MAX_PERMITS`] free if the waiter at `skip` is passed over.
    fn absorbs(&self, n: usize, skip: usize) -> (yes: bool)
        requires
            self.wf(),
        ensures
            yes == (SemaphoreView {
                queue: if skip < self@.queue.len() {
                    self@.queue.remove(skip as int)
                } else {
                    self@.queue
                },
                ..self@
            }).fits(n as nat),
    {
        let ghost queue = if skip < self@.queue.len() {
            self@.queue.remove(skip as int)
        } else {
            self@.queue
        };
        let ghost start = SemaphoreView { queue, ..self@ };
        let ghost mut rest = start;
        let mut rem: usize = n;
        let mut i: usize = 0;
        assert(queue.skip(0) == queue);
        while rem > 0 && i < self.queue.len()
            invariant
                i <= self.queue@.len(),
                self.queue@ == self@.queue,
                start == (SemaphoreView { queue, ..self@ }),
                self.wf(),
                queue == if skip < self@.queue.len() {
                    self@.queue.remove(skip as int)
                } else {
                    self@.queue
                },
                rest.permits == self@.permits,
                rest.queue == queue.skip(if skip < i { i - 1 } else { i as int }),
                rest.fits(rem as nat) == start.fits(n as nat),
            decreases self.queue@.len() - i,
        {
            if i != skip {
                let missing = self.queue[i].missing;
                assert(rest.queue[0] == self.queue@[i as int]);
                if missing > rem {
                    assert(rest.release(rem as nat).0.permits == rest.permits);
                    return true;
                }
                rem = rem - missing;
                proof {
                    rest = rest.settle_first();
                }
            }
            i = i + 1;
            assert(rest.queue == queue.skip(if skip < i { i - 1 } else { i as int }));
        }
        let free = self.available_permits();
        rem == 0 || rem <= MAX_PERMITS - free
    }

    /// Takes `num_permits` permits if so many are free and the semaphore is not
    /// closed.
    pub fn try_acquire(&mut self, num_permits: u32) -> (result: Result<(), TryAcquireError>)
        requires
            old(self).wf(),
            num_permits <= MAX_PERMITS,
        ensures
            final(self).wf(),
            final(self).id() == old(self).id(),
            result is Err <==> old(self)@.closed || old(self)@.permits < num_permits,
            result matches Err(e) ==> e == old(self)@.refusal(),
            final(self)@ == old(self)@.taken(if result is Ok { num_permits as nat } else { 0 }),
            match result {
                Ok(_) => {
                    &&& final(self)@.permits + num_permits == old(self)@.permits
                    &&& final(self)@.closed == old(self)@.closed
                    &&& final(self)@.queue == old(self)@.queue
                    &&& final(self)@.slots == old(self)@.slots
                },
                Err(e) => {
                    &&& e is Closed <==> old(self)@.closed
                    &&& final(self)@ == old(self)@
                },
            },
    {
        proof {
            lemma_word(self.permits);
            lemma_shift(num_permits as usize);
        }
        let num_permits = (num_permits as usize) << PERMIT_SHIFT;

        // Has the semaphore closed?
        if self.permits & CLOSED == CLOSED {
            return Err(TryAcquireError::Closed);
        }
        // Are there enough permits remaining?
        if self.permits < num_permits {
            return Err(TryAcquireError::NoPermits);
        }
        self.permits = self.permits - num_permits;
        Ok(())
    }

    /// Adds `added` permits to the semaphore.
    pub fn release(&mut self, added: usize, wakes: &mut WakeList)
        requires
            old(self).wf(),
            old(self)@.fits(added as nat),
        ensures
            final(self).wf(),
            final(self).id() == old(self).id(),
            final(self)@ == old(self)@.release(added as nat).0,
            final(wakes)@ == old(wakes)@ + old(self)@.release(added as nat).1,
    {
        if added == 0 {
            assert(wakes@ == old(wakes)@ + Seq::<Waker>::empty());
            return;
        }
        // Assign permits to the wait queue
        self.add_permits(added, wakes);
    }

    /// Assigns `rem` permits to the wait queue, the longest waiting first. What
    /// the queue does not need is free.
    fn add_permits(&mut self, rem: usize, wakes: &mut WakeList)
        requires
            old(self).wf(),
            old(self)@.fits(rem as nat),
        ensures
            final(self).wf(),
            final(self).id() == old(self).id(),
            final(self)@ == old(self)@.release(rem as nat).0,
            final(wakes)@ == old(wakes)@ + old(self)@.release(rem as nat).1,
    {
        let mut rem: usize = rem;
        let ghost goal = self@.release(rem as nat);
        assert(wakes@ + goal.1 == old(wakes)@ + goal.1);
        while rem > 0
            invariant
                self.wf(),
                self.id == old(self).id,
                self@.fits(rem as nat),
                self@.release(rem as nat).0 == goal.0,
                wakes@ + self@.release(rem as nat).1 == old(wakes)@ + goal.1,
            decreases self.queue@.len(), rem,
        {
            let ghost before = self@;
            let ghost left = rem as nat;
            proof {
                model::lemma_release_valid(before, left);
            }
            match self.queue.pop_front() {
                Some(mut waiter) => {
                    assert(waiter == before.queue[0]);
                    // Was the waiter assigned enough permits to wake it?
                    if waiter.assign_permits(&mut rem) {
                        self.slots[waiter.ticket] = Slot::Settled {
                            requested: waiter.requested,
                            missing: 0,
                        };
                        let ghost woken = wakes@;
                        wakes.push(waiter.waker);
                        proof {
                            model::lemma_settle_first(before);
                            assert(self@ == before.settle_first());
                            let rest = self@.release(rem as nat).1;
                            assert(woken + (seq![waiter.waker] + rest) == wakes@ + rest);
                        }
                    } else {
                        self.queue.push_front(waiter);
                        assert(self@ == before.release(left).0);
                    }
                },
                None => {
                    proof {
                        lemma_shift(rem);
                    }
                    self.permits = self.permits + (rem << PERMIT_SHIFT);
                    rem = 0;
                    assert(self@ == before.release(left).0);
                },
            }
        }
        assert(wakes@ + Seq::<Waker>::empty() == wakes@);
    }

    /// Closes the semaphore. No permit is given out any more, and all that wait
    /// are turned away.
    pub fn close(&mut self, wakes: &mut WakeList)
        requires
            old(self).wf(),
        ensures
            final(self).wf(),
            final(self).id() == old(self).id(),
            final(self)@ == old(self)@.close().0,
            final(wakes)@ == old(wakes)@ + old(self)@.close().1,
    {
        proof {
            lemma_word(self.permits);
        }
        self.permits = self.permits | CLOSED;
        let ghost before = old(self)@;
        let ghost mut done: int = 0;
        assert(before.queue.skip(0) == before.queue);
        while self.queue.len() > 0
            invariant
                before == old(self)@,
                before.valid(),
                self.id == old(self).id,
                self@.permits == before.permits,
                self@.closed,
                0 <= done <= before.queue.len(),
                self.queue@ == before.queue.skip(done),
                self.slots@.len() == before.slots.len(),
                forall|i: int|
                    done <= i < before.queue.len() ==> self.slots@[(
                    #[trigger] before.queue[i]).ticket as int] is Queued,
                forall|i: int|
                    0 <= i < done ==> self.slots@[(#[trigger] before.queue[i]).ticket as int] == (
                    Slot::Settled {
                        requested: before.queue[i].requested,
                        missing: before.queue[i].missing,
                    }),
                forall|t: int|
                    0 <= t < before.slots.len() && !(before.slots[t] is Queued)
                        ==> #[trigger] self.slots@[t] == before.slots[t],
                wakes@ == old(wakes)@ + before.queue.map_values(|w: Waiter| w.waker).take(done),
            decreases self.queue@.len(),
        {
            if let Some(waiter) = self.queue.pop_front() {
                assert(waiter == before.queue[done]);
                self.slots[waiter.ticket] = Slot::Settled {
                    requested: waiter.requested,
                    missing: waiter.missing,
                };
                wakes.push(waiter.waker);
                proof {
                    let all = before.queue.map_values(|w: Waiter| w.waker);
                    assert(all.take(done).push(all[done]) == all.take(done + 1));
                    done = done + 1;
                    assert(self.queue@ == before.queue.skip(done));
                }
            }
        }
        proof {
            let all = before.queue.map_values(|w: Waiter| w.waker);
            assert(all.take(done) == all);
            let goal = before.close().0;
            assert forall|t: int| 0 <= t < before.slots.len() implies #[trigger] self.slots@[t]
                == goal.slots[t] by {
                if before.slots[t] is Queued {
                    model::lemma_place(before, t);
                    let i = model::place_of(before.queue, t);
                    assert(self.slots@[before.queue[i].ticket as int] is Settled);
                }
            }
            assert(self@.slots == goal.slots);
            assert(self@ == goal);
        }
    }

    /// Where the request of slot `ticket` waits.
    fn position(&self, ticket: usize) -> (i: usize)
        requires
            self.wf(),
            ticket < self@.slots.len(),
            self@.slots[ticket as int] is Queued,
        ensures
            i == model::place_of(self@.queue, ticket as int),
            i < self@.queue.len(),
    {
        proof {
            model::lemma_place(self@, ticket as int);
        }
        let mut i: usize = 0;
        while self.queue[i].ticket != ticket
            invariant
                i <= model::place_of(self@.queue, ticket as int) < self.queue@.len(),
                self@.queue == self.queue@,
                self.queue@[model::place_of(self@.queue, ticket as int)].ticket == ticket,
            decreases self.queue@.len() - i,
        {
            assert(i < self.queue.len());
            i = i + 1;
        }
        assert(self@.queue[i as int].ticket == ticket);
        i
    }

    /// A slot that no request uses.
    fn vacancy(&self) -> (t: usize)
        ensures
            self@.vacant(t as int),
    {
        let mut t: usize = 0;
        while t < self.slots.len()
            invariant
                t <= self.slots@.len(),
                self@.slots == self.slots@,
            decreases self.slots@.len() - t,
        {
            if let Slot::Vacant = self.slots[t] {
                return t;
            }
            t = t + 1;
        }
        t
    }

    /// Asks whether a request for `num_permits` permits, which has waited under
    /// `ticket` if it has one, has its permits.
    pub fn poll_acquire(
        &mut self,
        num_permits: u32,
        ticket: Option<usize>,
        waker: Waker,
    ) -> (progress: Progress)
        requires
            old(self).wf(),
            old(self)@.tracks(num_permits as nat, ticket),
        ensures
            final(self).wf(),
            final(self).id() == old(self).id(),
            old(self)@.makes_progress(num_permits as nat, ticket, progress),
            final(self)@ == old(self)@.asked(num_permits as nat, ticket, waker, progress),
            progress is Closed <==> old(self)@.closed,
            progress is Acquired <==> !old(self)@.closed && match ticket {
                None => num_permits <= old(self)@.permits,
                Some(t) => old(self)@.slots[t as int] is Settled,
            },
            progress matches Progress::Waiting(u) ==> ticket matches Some(t) ==> u == t,
            progress matches Progress::Waiting(t) ==> final(self)@.tracks(
                num_permits as nat,
                Some(t),
            ),
    {
        proof {
            lemma_word(self.permits);
        }
        let ghost before = self@;

        // If closed, return error immediately.
        if self.permits & CLOSED > 0 {
            return Progress::Closed;
        }
        let progress = match ticket {
            None => {
                let mut permits: usize = self.permits >> PERMIT_SHIFT;
                // If there are enough permits, take them.
                if permits >= num_permits as usize {
                    permits = permits - num_permits as usize;
                    proof {
                        lemma_shift(permits);
                    }
                    self.permits = permits << PERMIT_SHIFT;
                    Progress::Acquired
                } else {
                    // Take what there is, and wait for the rest.
                    let t = self.vacancy();
                    let mut waiter = Waiter::new(t, num_permits, waker);
                    self.permits = 0;
                    waiter.assign_permits(&mut permits);
                    self.queue.push_back(waiter);
                    if t < self.slots.len() {
                        self.slots[t] = Slot::Queued;
                    } else {
                        self.slots.push(Slot::Queued);
                    }
                    Progress::Waiting(t)
                }
            },
            Some(t) => match self.slots[t] {
                Slot::Queued => {
                    let i = self.position(t);
                    if let Some(waiter) = self.queue.remove(i) {
                        self.queue.insert(i, Waiter { waker, ..waiter });
                    }
                    Progress::Waiting(t)
                },
                _ => {
                    self.slots[t] = Slot::Vacant;
                    Progress::Acquired
                },
            },
        };
        proof {
            model::lemma_asked_valid(before, num_permits as nat, ticket, waker, progress);
            assert(self@ == before.asked(num_permits as nat, ticket, waker, progress));
            if let Progress::Waiting(t) = progress {
                model::lemma_place(self@, t as int);
                if ticket is None {
                    assert(self@.queue[before.queue.len() as int].ticket == t);
                } else {
                    model::lemma_place(before, t as int);
                    let i = model::place_of(before.queue, t as int);
                    assert(self@.queue[i].ticket == t);
                }
            }
        }
        progress
    }

    /// Gives up the request that has waited under `ticket`: it leaves the
    /// queue, and what it has been assigned is added again.
    pub fn cancel(&mut self, ticket: usize, wakes: &mut WakeList)
        requires
            old(self).wf(),
            ticket < old(self)@.slots.len(),
            old(self)@.slots[ticket as int] !is Vacant,
            old(self)@.cancel(ticket as int).0.permits <= MAX_PERMITS,
        ensures
            final(self).wf(),
            final(self).id() == old(self).id(),
            final(self)@ == old(self)@.cancel(ticket as int).0,
            final(wakes)@ == old(wakes)@ + old(self)@.cancel(ticket as int).1,
    {
        let ghost before = self@;
        let mut acquired: usize = 0;
        match self.slots[ticket] {
            Slot::Queued => {
                let i = self.position(ticket);
                // remove the entry from the queue
                if let Some(waiter) = self.queue.remove(i) {
                    acquired = waiter.requested - waiter.missing;
                }
            },
            Slot::Settled { requested, missing } => {
                acquired = requested - missing;
            },
            Slot::Vacant => {},
        }
        self.slots[ticket] = Slot::Vacant;
        proof {
            model::lemma_without_valid(before, ticket as int);
            assert(self@ == before.without(ticket as int));
        }
        self.release(acquired, wakes);
    }
}

} // verus!
