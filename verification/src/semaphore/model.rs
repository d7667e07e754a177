//! What a semaphore holds, and what each operation makes of it.
use std::task::Waker;
use vstd::prelude::*;

verus! {

/// The most permits that a semaphore can hold.
pub const MAX_PERMITS: usize = usize::MAX / 8;

/// One entry of the wait queue.
#[derive(Debug)]
pub struct Waiter {
    /// The slot that stands for the acquisition that waits.
    pub ticket: usize,
    /// The number of permits asked for.
    pub requested: usize,
    /// The number of permits still to be assigned.
    pub missing: usize,
    /// The waker of the task that waits.
    pub waker: Waker,
}

impl Waiter {
    /// The number of permits assigned.
    pub open spec fn granted(self) -> nat {
        (self.requested - self.missing) as nat
    }

    /// A waiter that has been assigned nothing yet.
    pub fn new(ticket: usize, num_permits: u32, waker: Waker) -> (waiter: Self)
        ensures
            waiter == (Waiter {
                ticket,
                requested: num_permits as usize,
                missing: num_permits as usize,
                waker,
            }),
    {
        Waiter { ticket, requested: num_permits as usize, missing: num_permits as usize, waker }
    }

    /// Moves as many of the `n` permits to the waiter as it still misses.
    ///
    /// Returns `true` if the waiter misses none any more and has to leave the
    /// queue.
    pub fn assign_permits(&mut self, n: &mut usize) -> (done: bool)
        ensures
            old(self).missing <= *old(n) ==> {
                &&& done
                &&& *final(self) == (Waiter { missing: 0, ..*old(self) })
                &&& *final(n) == *old(n) - old(self).missing
            },
            old(self).missing > *old(n) ==> {
                &&& !done
                &&& *final(self) == (Waiter {
                    missing: (old(self).missing - *old(n)) as usize,
                    ..*old(self)
                })
                &&& *final(n) == 0
            },
    {
        let assign = if self.missing <= *n {
            self.missing
        } else {
            *n
        };
        self.missing = self.missing - assign;
        *n = *n - assign;
        self.missing == 0
    }
}

/// What a semaphore keeps of an acquisition that has once had to wait.
#[derive(Debug, Clone, Copy)]
pub enum Slot {
    /// No acquisition uses the slot.
    Vacant,
    /// The acquisition is in the wait queue.
    Queued,
    /// The acquisition has left the wait queue: with nothing missing it has been
    /// assigned all it asked for, with anything missing it was turned away when
    /// the semaphore closed.
    Settled { requested: usize, missing: usize },
}

impl Slot {
    /// The number of permits that a request which has left the queue was
    /// assigned.
    pub open spec fn granted(self) -> nat {
        match self {
            Slot::Settled { requested, missing } => (requested - missing) as nat,
            _ => 0,
        }
    }
}

/// The sum of a sequence of numbers.
pub open spec fn sum(s: Seq<nat>) -> nat
    decreases s.len(),
{
    if s.len() == 0 {
        0
    } else {
        s[0] + sum(s.drop_first())
    }
}

/// What a semaphore holds.
#[verifier::ext_equal]
pub struct SemaphoreView {
    /// The permits that anybody may take.
    pub permits: nat,
    /// Whether the semaphore is closed.
    pub closed: bool,
    /// The wait queue, the longest waiting first.
    pub queue: Seq<Waiter>,
    /// The acquisitions that have once had to wait and are not over.
    pub slots: Seq<Slot>,
}

/// Whether a waiter of `queue` waits for the acquisition of slot `ticket`.
pub open spec fn waits(queue: Seq<Waiter>, ticket: int) -> bool {
    exists|i: int| 0 <= i < queue.len() && (#[trigger] queue[i]).ticket == ticket
}

/// Where in `queue` the acquisition of slot `ticket` waits.
pub open spec fn place_of(queue: Seq<Waiter>, ticket: int) -> int {
    choose|i: int| 0 <= i < queue.len() && (#[trigger] queue[i]).ticket == ticket
}

/// What became of a request for permits.
#[derive(Debug)]
pub enum Progress {
    /// The semaphore is closed.
    Closed,
    /// The permits have been taken.
    Acquired,
    /// The request waits, under this ticket.
    Waiting(usize),
}

/// Why no permit was given out at once.
#[derive(Debug, PartialEq, Eq)]
pub enum TryAcquireError {
    /// The semaphore has been closed and cannot issue new permits.
    Closed,
    /// The semaphore has no available permits.
    NoPermits,
}

impl TryAcquireError {
    /// Whether the semaphore was closed.
    pub fn is_closed(&self) -> (yes: bool)
        ensures
            yes <==> *self is Closed,
    {
        matches!(self, TryAcquireError::Closed)
    }

    /// Whether the semaphore had too few permits.
    pub fn is_no_permits(&self) -> (yes: bool)
        ensures
            yes <==> *self is NoPermits,
    {
        matches!(self, TryAcquireError::NoPermits)
    }

    /// The error in words.
    pub fn to_string(&self) -> (text: String)
        ensures
            text@ == match *self {
                TryAcquireError::Closed => "semaphore closed"@,
                TryAcquireError::NoPermits => "no permits available"@,
            },
    {
        match self {
            TryAcquireError::Closed => "semaphore closed".to_owned(),
            TryAcquireError::NoPermits => "no permits available".to_owned(),
        }
    }
}

impl SemaphoreView {
    /// A semaphore that was made with the given number of permits. Of a number
    /// above [`MAX_PERMITS`] only the bits below that bound count.
    pub open spec fn with_permits(permits: usize) -> SemaphoreView {
        SemaphoreView {
            permits: if permits <= MAX_PERMITS {
                permits as nat
            } else {
                (permits as int % (MAX_PERMITS + 1)) as nat
            },
            closed: false,
            queue: Seq::empty(),
            slots: Seq::empty(),
        }
    }

    /// Why permits are refused, where they are.
    pub open spec fn refusal(self) -> TryAcquireError {
        if self.closed {
            TryAcquireError::Closed
        } else {
            TryAcquireError::NoPermits
        }
    }

    /// The semaphore once `n` of the free permits have been taken.
    pub open spec fn taken(self, n: nat) -> SemaphoreView {
        SemaphoreView { permits: (self.permits - n) as nat, ..self }
    }

    /// What holds of a semaphore at all times.
    pub open spec fn valid(self) -> bool {
        &&& self.permits <= MAX_PERMITS
        &&& self.closed ==> self.queue.len() == 0
        &&& self.queue.len() > 0 ==> self.permits == 0
        &&& forall|i: int|
            0 <= i < self.queue.len() ==> {
                let w = #[trigger] self.queue[i];
                &&& 0 < w.missing <= w.requested
                &&& i > 0 ==> w.missing == w.requested
                &&& w.ticket < self.slots.len()
                &&& self.slots[w.ticket as int] is Queued
            }
        &&& forall|i: int, j: int|
            0 <= i < j < self.queue.len() ==> (#[trigger] self.queue[i]).ticket != (
            #[trigger] self.queue[j]).ticket
        &&& forall|t: int|
            0 <= t < self.slots.len() && (#[trigger] self.slots[t]) is Queued ==> waits(
                self.queue,
                t,
            )
        &&& forall|t: int|
            0 <= t < self.slots.len() ==> match #[trigger] self.slots[t] {
                Slot::Settled { requested, missing } => {
                    &&& missing <= requested
                    &&& !self.closed ==> missing == 0
                },
                _ => true,
            }
    }

    /// The semaphore and the wakers that are due once `n` permits have been
    /// added. The longest waiting takes what it misses before anybody else
    /// does; what is left when nobody waits is free.
    pub open spec fn release(self, n: nat) -> (SemaphoreView, Seq<Waker>)
        decreases self.queue.len(),
    {
        if n == 0 {
            (self, Seq::empty())
        } else if self.queue.len() == 0 {
            (SemaphoreView { permits: self.permits + n, ..self }, Seq::empty())
        } else {
            let first = self.queue[0];
            if first.missing > n {
                let rest = Waiter { missing: (first.missing - n) as usize, ..first };
                (SemaphoreView { queue: self.queue.update(0, rest), ..self }, Seq::empty())
            } else {
                let (after, woken) = self.settle_first().release((n - first.missing) as nat);
                (after, seq![first.waker] + woken)
            }
        }
    }

    /// The semaphore once the longest waiting has been assigned all it misses.
    pub open spec fn settle_first(self) -> SemaphoreView {
        let first = self.queue[0];
        SemaphoreView {
            queue: self.queue.drop_first(),
            slots: self.slots.update(
                first.ticket as int,
                Slot::Settled { requested: first.requested, missing: 0 },
            ),
            ..self
        }
    }

    /// The semaphore and the wakers that are due once it has been closed: all
    /// that wait are turned away, the longest waiting first.
    pub open spec fn close(self) -> (SemaphoreView, Seq<Waker>) {
        let after = SemaphoreView {
            closed: true,
            queue: Seq::empty(),
            slots: Seq::new(
                self.slots.len(),
                |t: int|
                    if self.slots[t] is Queued {
                        let w = self.queue[place_of(self.queue, t)];
                        Slot::Settled { requested: w.requested, missing: w.missing }
                    } else {
                        self.slots[t]
                    },
            ),
            ..self
        };
        (after, self.queue.map_values(|w: Waiter| w.waker))
    }

    /// Whether `ticket` stands for a request for `num` permits that is not
    /// over. A request without a ticket has not had to wait.
    pub open spec fn tracks(self, num: nat, ticket: Option<usize>) -> bool {
        match ticket {
            None => true,
            Some(t) => t < self.slots.len() && match self.slots[t as int] {
                Slot::Vacant => false,
                Slot::Queued => self.queue[place_of(self.queue, t as int)].requested == num,
                Slot::Settled { requested, .. } => requested == num,
            },
        }
    }

    /// Whether slot `t` can be given to a request that begins to wait: it is
    /// unused, or it is a new one after the last.
    pub open spec fn vacant(self, t: int) -> bool {
        t == self.slots.len() || (0 <= t < self.slots.len() && self.slots[t] is Vacant)
    }

    /// Whether a request for `num` permits fares as `progress` says when it is
    /// asked. A request that has not had to wait takes its permits if so many
    /// are free; one that has waited has them once it has left the queue.
    pub open spec fn makes_progress(
        self,
        num: nat,
        ticket: Option<usize>,
        progress: Progress,
    ) -> bool {
        match progress {
            Progress::Closed => self.closed,
            Progress::Acquired => !self.closed && match ticket {
                None => num <= self.permits,
                Some(t) => self.slots[t as int] is Settled,
            },
            Progress::Waiting(t) => !self.closed && match ticket {
                None => self.permits < num && self.vacant(t as int),
                Some(u) => t == u && self.slots[u as int] is Queued,
            },
        }
    }

    /// The semaphore once a request for `num` permits that fared as `progress`
    /// says has been asked. One that begins to wait takes what is free, and the
    /// last place in the queue; one that goes on waiting leaves its new waker.
    pub open spec fn asked(
        self,
        num: nat,
        ticket: Option<usize>,
        waker: Waker,
        progress: Progress,
    ) -> SemaphoreView {
        match (progress, ticket) {
            (Progress::Closed, _) => self,
            (Progress::Acquired, None) => self.taken(num),
            (Progress::Acquired, Some(t)) => SemaphoreView {
                slots: self.slots.update(t as int, Slot::Vacant),
                ..self
            },
            (Progress::Waiting(t), None) => SemaphoreView {
                permits: 0,
                queue: self.queue.push(
                    Waiter {
                        ticket: t,
                        requested: num as usize,
                        missing: (num - self.permits) as usize,
                        waker,
                    },
                ),
                slots: if t < self.slots.len() {
                    self.slots.update(t as int, Slot::Queued)
                } else {
                    self.slots.push(Slot::Queued)
                },
                ..self
            },
            (Progress::Waiting(_), Some(t)) => {
                let i = place_of(self.queue, t as int);
                SemaphoreView {
                    queue: self.queue.update(i, Waiter { waker, ..self.queue[i] }),
                    ..self
                }
            },
        }
    }

    /// The permits that the request of slot `t` has been assigned.
    pub open spec fn granted(self, t: int) -> nat {
        match self.slots[t] {
            Slot::Queued => self.queue[place_of(self.queue, t)].granted(),
            slot => slot.granted(),
        }
    }

    /// The semaphore without the request of slot `t`, and without the permits
    /// that it has been assigned.
    pub open spec fn without(self, t: int) -> SemaphoreView {
        SemaphoreView {
            queue: if self.slots[t] is Queued {
                self.queue.remove(place_of(self.queue, t))
            } else {
                self.queue
            },
            slots: self.slots.update(t, Slot::Vacant),
            ..self
        }
    }

    /// The semaphore and the wakers that are due once the request of slot `t`
    /// has been given up: what it has been assigned is added again.
    pub open spec fn cancel(self, t: int) -> (SemaphoreView, Seq<Waker>) {
        self.without(t).release(self.granted(t))
    }

    /// All the permits that are in the semaphore: those that are free, and those
    /// that are assigned to requests that are not over.
    pub open spec fn held(self) -> nat {
        self.permits + sum(self.queue.map_values(|w: Waiter| w.granted())) + sum(
            self.slots.map_values(|s: Slot| s.granted()),
        )
    }

    /// Whether adding `n` permits leaves no more than [`MAX_PERMITS`] free.
    pub open spec fn fits(self, n: nat) -> bool {
        self.release(n).0.permits <= MAX_PERMITS
    }
}

/// Assigning the longest waiting all it misses keeps a semaphore valid.
pub(crate) proof fn lemma_settle_first(v: SemaphoreView)
    requires
        v.valid(),
        v.queue.len() > 0,
    ensures
        v.settle_first().valid(),
{
    let w = v.settle_first();
    let first = v.queue[0];
    assert(w.slots.len() == v.slots.len());
    assert forall|i: int| 0 <= i < w.queue.len() implies {
        let x = #[trigger] w.queue[i];
        &&& 0 < x.missing == x.requested
        &&& x.ticket < w.slots.len()
        &&& w.slots[x.ticket as int] is Queued
    } by {
        assert(w.queue[i] == v.queue[i + 1]);
    }
    assert forall|t: int| 0 <= t < w.slots.len() && (#[trigger] w.slots[t]) is Queued implies waits(
        w.queue,
        t,
    ) by {
        assert(v.slots[t] is Queued);
        let i = choose|i: int| 0 <= i < v.queue.len() && (#[trigger] v.queue[i]).ticket == t;
        assert(w.queue[i - 1].ticket == t);
    }
    assert forall|t: int| 0 <= t < w.slots.len() implies match #[trigger] w.slots[t] {
        Slot::Settled { requested, missing } => {
            &&& missing <= requested
            &&& !w.closed ==> missing == 0
        },
        _ => true,
    } by {
        assert(t != first.ticket ==> w.slots[t] == v.slots[t]);
    }
}

/// Adding permits keeps a semaphore valid.
pub(crate) proof fn lemma_release_valid(v: SemaphoreView, n: nat)
    requires
        v.valid(),
        v.fits(n),
    ensures
        v.release(n).0.valid(),
    decreases v.queue.len(),
{
    if n > 0 && v.queue.len() > 0 {
        let first = v.queue[0];
        if first.missing > n {
            let w = v.release(n).0;
            assert forall|t: int|
                0 <= t < w.slots.len() && (#[trigger] w.slots[t]) is Queued implies waits(
                w.queue,
                t,
            ) by {
                let i = choose|i: int|
                    0 <= i < v.queue.len() && (#[trigger] v.queue[i]).ticket == t;
                assert(w.queue[i].ticket == t);
            }
        } else {
            lemma_settle_first(v);
            lemma_release_valid(v.settle_first(), (n - first.missing) as nat);
        }
    }
}

/// A request that waits has exactly one place in the queue.
pub(crate) proof fn lemma_place(v: SemaphoreView, t: int)
    requires
        v.valid(),
        0 <= t < v.slots.len(),
        v.slots[t] is Queued,
    ensures
        0 <= place_of(v.queue, t) < v.queue.len(),
        v.queue[place_of(v.queue, t)].ticket == t,
        forall|i: int| 0 <= i < v.queue.len() && (#[trigger] v.queue[i]).ticket == t ==> i
            == place_of(v.queue, t),
{
    assert(waits(v.queue, t));
}

/// Whether permits fit depends on the queue and on what is free alone.
pub(crate) proof fn lemma_fits_any_slots(v: SemaphoreView, slots: Seq<Slot>, n: nat)
    ensures
        v.fits(n) == (SemaphoreView { slots, ..v }).fits(n),
    decreases v.queue.len(),
{
    if n > 0 && v.queue.len() > 0 && v.queue[0].missing <= n {
        let w = SemaphoreView { slots, ..v };
        let rest = (n - v.queue[0].missing) as nat;
        lemma_fits_any_slots(v.settle_first(), w.settle_first().slots, rest);
        assert(w.settle_first() == SemaphoreView {
            slots: w.settle_first().slots,
            ..v.settle_first()
        });
    }
}

/// Asking for progress keeps a semaphore valid.
pub(crate) proof fn lemma_asked_valid(
    v: SemaphoreView,
    num: nat,
    ticket: Option<usize>,
    waker: Waker,
    progress: Progress,
)
    requires
        v.valid(),
        num <= usize::MAX,
        v.tracks(num, ticket),
        v.makes_progress(num, ticket, progress),
    ensures
        v.asked(num, ticket, waker, progress).valid(),
{
    let w = v.asked(num, ticket, waker, progress);
    match (progress, ticket) {
        (Progress::Waiting(t), None) => {
            assert forall|u: int|
                0 <= u < w.slots.len() && (#[trigger] w.slots[u]) is Queued implies waits(
                w.queue,
                u,
            ) by {
                if u == t {
                    assert(w.queue[v.queue.len() as int].ticket == t);
                } else {
                    assert(v.slots[u] is Queued);
                    lemma_place(v, u);
                    assert(w.queue[place_of(v.queue, u)].ticket == u);
                }
            }
            assert forall|u: int| 0 <= u < w.slots.len() implies match #[trigger] w.slots[u] {
                Slot::Settled { requested, missing } => {
                    &&& missing <= requested
                    &&& !w.closed ==> missing == 0
                },
                _ => true,
            } by {
                assert(u != t ==> w.slots[u] == v.slots[u]);
            }
        },
        (Progress::Waiting(_), Some(t)) => {
            lemma_place(v, t as int);
            assert forall|u: int|
                0 <= u < w.slots.len() && (#[trigger] w.slots[u]) is Queued implies waits(
                w.queue,
                u,
            ) by {
                lemma_place(v, u);
                assert(w.queue[place_of(v.queue, u)].ticket == u);
            }
        },
        (Progress::Acquired, Some(t)) => {
            assert forall|u: int|
                0 <= u < w.slots.len() && (#[trigger] w.slots[u]) is Queued implies waits(
                w.queue,
                u,
            ) by {
                assert(v.slots[u] is Queued);
            }
        },
        _ => {},
    }
}

/// Giving up a request keeps a semaphore valid.
pub(crate) proof fn lemma_without_valid(v: SemaphoreView, t: int)
    requires
        v.valid(),
        0 <= t < v.slots.len(),
        v.slots[t] !is Vacant,
    ensures
        v.without(t).valid(),
{
    let w = v.without(t);
    if v.slots[t] is Queued {
        lemma_place(v, t);
        let p = place_of(v.queue, t);
        assert forall|u: int|
            0 <= u < w.slots.len() && (#[trigger] w.slots[u]) is Queued implies waits(
            w.queue,
            u,
        ) by {
            assert(v.slots[u] is Queued);
            lemma_place(v, u);
            let i = place_of(v.queue, u);
            assert(w.queue[if i < p { i } else { i - 1 }].ticket == u);
        }
        assert forall|i: int| 0 <= i < w.queue.len() implies {
            let x = #[trigger] w.queue[i];
            &&& 0 < x.missing <= x.requested
            &&& i > 0 ==> x.missing == x.requested
            &&& x.ticket < w.slots.len()
            &&& w.slots[x.ticket as int] is Queued
        } by {
            let j = if i < p { i } else { i + 1 };
            assert(w.queue[i] == v.queue[j]);
        }
    } else {
        assert forall|u: int|
            0 <= u < w.slots.len() && (#[trigger] w.slots[u]) is Queued implies waits(
            w.queue,
            u,
        ) by {
            assert(v.slots[u] is Queued);
        }
        assert forall|i: int| 0 <= i < w.queue.len() implies {
            let x = #[trigger] w.queue[i];
            w.slots[x.ticket as int] is Queued
        } by {
            assert(w.queue[i] == v.queue[i]);
        }
    }
}

} // verus!
