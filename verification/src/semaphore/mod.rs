//! A fair counting semaphore.
//!
//! Permits are given out in the order in which they were asked for: a request
//! for many permits at the front of the queue holds up one for a single permit
//! behind it, even if the semaphore has as many as that.
pub mod inner;
pub mod laws;
pub mod model;

use std::task::Waker;
use vstd::prelude::*;

pub use inner::Inner;
pub use model::{Progress, SemaphoreView, Slot, TryAcquireError, Waiter, MAX_PERMITS};

use crate::identity::{Identities, Identity};
use crate::task::Poll;
use crate::wake_list::WakeList;

verus! {

/// The semaphore was closed while permits were asked for.
#[derive(Debug)]
pub struct AcquireError(());

impl AcquireError {
    /// The error of a closed semaphore.
    fn closed() -> AcquireError {
        AcquireError(())
    }

    /// The error in words.
    pub fn to_string(&self) -> (text: String)
        ensures
            text@ == "semaphore closed"@,
    {
        "semaphore closed".to_owned()
    }
}

/// How a request fared that gave `result` when it was asked, and holds `ticket`
/// since.
pub open spec fn fared<T>(
    result: Poll<Result<T, AcquireError>>,
    ticket: Option<usize>,
) -> Progress {
    match result {
        Poll::Ready(Err(_)) => Progress::Closed,
        Poll::Ready(Ok(_)) => Progress::Acquired,
        Poll::Pending => Progress::Waiting(ticket->0),
    }
}

/// A request for permits.
pub struct Acquire {
    /// The identity of the semaphore.
    id: Identity,
    num_permits: u32,
    ticket: Option<usize>,
}

impl Acquire {
    /// The number of permits asked for.
    pub closed spec fn requested(&self) -> nat {
        self.num_permits as nat
    }

    /// The slot that the semaphore keeps for the request, if it has had to wait
    /// and is not over.
    pub closed spec fn ticket(&self) -> Option<usize> {
        self.ticket
    }

    /// The identity of the semaphore that the request is made to.
    pub closed spec fn id(&self) -> Identity {
        self.id
    }

    /// Whether the request is one of semaphore `id`, and known to it when it
    /// holds `sem`.
    pub open spec fn belongs_to(&self, id: Identity, sem: SemaphoreView) -> bool {
        &&& self.id() == id
        &&& sem.tracks(self.requested(), self.ticket())
    }

    /// A request to semaphore `id` that has not been made yet.
    pub fn new(id: Identity, num_permits: u32) -> (acquire: Self)
        ensures
            acquire.id() == id,
            acquire.requested() == num_permits,
            acquire.ticket() is None,
    {
        Acquire { id, num_permits, ticket: None }
    }

    /// Asks for the permits. Until they are there, `waker` stands for the task
    /// that waits.
    pub fn poll(&mut self, sem: &mut Inner, waker: Waker) -> (result: Poll<
        Result<(), AcquireError>,
    >)
        requires
            old(sem).wf(),
            old(self).belongs_to(old(sem).id(), old(sem)@),
        ensures
            final(sem).wf(),
            final(sem).id() == old(sem).id(),
            final(self).belongs_to(final(sem).id(), final(sem)@),
            final(self).id() == old(self).id(),
            final(self).requested() == old(self).requested(),
            old(sem)@.makes_progress(
                old(self).requested(),
                old(self).ticket(),
                fared(result, final(self).ticket()),
            ),
            final(sem)@ == old(sem)@.asked(
                old(self).requested(),
                old(self).ticket(),
                waker,
                fared(result, final(self).ticket()),
            ),
            result matches Poll::Ready(Err(_)) <==> old(sem)@.closed,
            result matches Poll::Ready(Ok(_)) <==> !old(sem)@.closed && match old(self).ticket() {
                None => old(self).requested() <= old(sem)@.permits,
                Some(t) => old(sem)@.slots[t as int] is Settled,
            },
            match result {
                Poll::Ready(Err(_)) => final(self).ticket() == old(self).ticket(),
                Poll::Ready(Ok(_)) => final(self).ticket() is None,
                Poll::Pending => final(self).ticket() is Some,
            },
    {
        match sem.poll_acquire(self.num_permits, self.ticket, waker) {
            Progress::Waiting(t) => {
                self.ticket = Some(t);
                Poll::Pending
            },
            Progress::Acquired => {
                self.ticket = None;
                Poll::Ready(Ok(()))
            },
            Progress::Closed => Poll::Ready(Err(AcquireError::closed())),
        }
    }

    /// Whether the request can be given up without leaving more than
    /// [`MAX_PERMITS`] permits free.
    pub fn can_cancel(&self, sem: &Inner) -> (yes: bool)
        requires
            sem.wf(),
            self.belongs_to(sem.id(), sem@),
        ensures
            yes <==> (self.ticket() matches Some(t) ==> sem@.cancel(t as int).0.permits
                <= MAX_PERMITS),
    {
        match self.ticket {
            None => true,
            Some(t) => sem.can_cancel(t),
        }
    }

    /// Gives the request up. What it has been assigned goes back to the
    /// semaphore; if it was waiting, it loses its place.
    pub fn cancel(self, sem: &mut Inner, wakes: &mut WakeList)
        requires
            old(sem).wf(),
            self.belongs_to(old(sem).id(), old(sem)@),
            self.ticket() matches Some(t) ==> old(sem)@.cancel(t as int).0.permits <= MAX_PERMITS,
        ensures
            final(sem).wf(),
            final(sem).id() == old(sem).id(),
            match self.ticket() {
                None => final(sem)@ == old(sem)@ && final(wakes)@ == old(wakes)@,
                Some(t) => {
                    &&& final(sem)@ == old(sem)@.cancel(t as int).0
                    &&& final(wakes)@ == old(wakes)@ + old(sem)@.cancel(t as int).1
                },
            },
    {
        // A request that never waited, or is over, is nowhere in the semaphore.
        if let Some(t) = self.ticket {
            sem.cancel(t, wakes);
        }
    }
}

impl Inner {
    /// A request for `num_permits` permits that has not been made yet.
    pub fn acquire(&self, num_permits: u32) -> (acquire: Acquire)
        ensures
            acquire.id() == self.id(),
            acquire.requested() == num_permits,
            acquire.ticket() is None,
    {
        Acquire::new(self.identity(), num_permits)
    }
}

/// Permits taken from a semaphore. They go back to it when the value is given
/// to [`SemaphorePermit::drop`].
#[must_use]
pub struct SemaphorePermit {
    /// The identity of the semaphore.
    id: Identity,
    permits: u32,
}

impl SemaphorePermit {
    /// The identity of the semaphore that the permits are of.
    pub closed spec fn id(&self) -> Identity {
        self.id
    }

    /// The number of permits.
    pub closed spec fn permits(&self) -> nat {
        self.permits as nat
    }

    /// The number of permits.
    pub fn num_permits(&self) -> (n: u32)
        ensures
            n == self.permits(),
    {
        self.permits
    }

    /// Forgets the permits **without** giving them back to the semaphore: the
    /// value stands for none any more. This can be used to reduce the number of
    /// permits available from a semaphore.
    pub fn forget(&mut self)
        ensures
            final(self).id() == old(self).id(),
            final(self).permits() == 0,
    {
        self.permits = 0;
    }

    /// Gives the permits back to the semaphore they are of.
    pub fn drop(self, sem: &mut Semaphore, wakes: &mut WakeList)
        requires
            old(sem).wf(),
            old(sem).id() == self.id(),
            old(sem)@.fits(self.permits()),
        ensures
            final(sem).wf(),
            final(sem).id() == old(sem).id(),
            final(sem)@ == old(sem)@.release(self.permits()).0,
            final(wakes)@ == old(wakes)@ + old(sem)@.release(self.permits()).1,
    {
        sem.add_permits(self.permits as usize, wakes);
    }
}

/// Permits taken from a semaphore by a request that does not borrow it. They go
/// back to it when the value is given to [`OwnedSemaphorePermit::drop`].
#[must_use]
pub struct OwnedSemaphorePermit {
    /// The identity of the semaphore.
    id: Identity,
    permits: u32,
}

impl OwnedSemaphorePermit {
    /// The identity of the semaphore that the permits are of.
    pub closed spec fn id(&self) -> Identity {
        self.id
    }

    /// The number of permits.
    pub closed spec fn permits(&self) -> nat {
        self.permits as nat
    }

    /// The number of permits.
    pub fn num_permits(&self) -> (n: u32)
        ensures
            n == self.permits(),
    {
        self.permits
    }

    /// Forgets the permits **without** giving them back to the semaphore: the
    /// value stands for none any more. This can be used to reduce the number of
    /// permits available from a semaphore.
    pub fn forget(&mut self)
        ensures
            final(self).id() == old(self).id(),
            final(self).permits() == 0,
    {
        self.permits = 0;
    }

    /// Gives the permits back to the semaphore they are of.
    pub fn drop(self, sem: &mut Semaphore, wakes: &mut WakeList)
        requires
            old(sem).wf(),
            old(sem).id() == self.id(),
            old(sem)@.fits(self.permits()),
        ensures
            final(sem).wf(),
            final(sem).id() == old(sem).id(),
            final(sem)@ == old(sem)@.release(self.permits()).0,
            final(wakes)@ == old(wakes)@ + old(sem)@.release(self.permits()).1,
    {
        sem.add_permits(self.permits as usize, wakes);
    }
}

/// A request that ends in a [`SemaphorePermit`].
pub struct AcquireResult {
    acquire: Acquire,
    permits: u32,
}

impl AcquireResult {
    /// The request.
    pub closed spec fn view(&self) -> Acquire {
        self.acquire
    }

    /// The permit stands for as many permits as are asked for.
    pub closed spec fn wf(&self) -> bool {
        self.acquire.requested() == self.permits
    }

    /// Asks for the permits. Until they are there, `waker` stands for the task
    /// that waits.
    pub fn poll(&mut self, sem: &mut Semaphore, waker: Waker) -> (result: Poll<
        Result<SemaphorePermit, AcquireError>,
    >)
        requires
            old(self).wf(),
            old(sem).wf(),
            old(self)@.belongs_to(old(sem).id(), old(sem)@),
        ensures
            final(self).wf(),
            final(sem).wf(),
            final(sem).id() == old(sem).id(),
            final(self)@.belongs_to(final(sem).id(), final(sem)@),
            final(self)@.id() == old(self)@.id(),
            final(self)@.requested() == old(self)@.requested(),
            old(sem)@.makes_progress(
                old(self)@.requested(),
                old(self)@.ticket(),
                fared(result, final(self)@.ticket()),
            ),
            final(sem)@ == old(sem)@.asked(
                old(self)@.requested(),
                old(self)@.ticket(),
                waker,
                fared(result, final(self)@.ticket()),
            ),
            result matches Poll::Ready(Err(_)) <==> old(sem)@.closed,
            result matches Poll::Ready(Ok(_)) <==> !old(sem)@.closed && match old(self)@.ticket() {
                None => old(self)@.requested() <= old(sem)@.permits,
                Some(t) => old(sem)@.slots[t as int] is Settled,
            },
            match result {
                Poll::Ready(Err(_)) => final(self)@.ticket() == old(self)@.ticket(),
                Poll::Ready(Ok(permit)) => {
                    &&& final(self)@.ticket() is None
                    &&& permit.id() == old(self)@.id()
                    &&& permit.permits() == old(self)@.requested()
                },
                Poll::Pending => final(self)@.ticket() is Some,
            },
    {
        match self.acquire.poll(&mut sem.0, waker) {
            Poll::Pending => Poll::Pending,
            Poll::Ready(Err(e)) => Poll::Ready(Err(e)),
            Poll::Ready(Ok(_)) => Poll::Ready(Ok(SemaphorePermit {
                id: self.acquire.id,
                permits: self.permits,
            })),
        }
    }

    /// Whether the request can be given up without leaving more than
    /// [`MAX_PERMITS`] permits free.
    pub fn can_cancel(&self, sem: &Semaphore) -> (yes: bool)
        requires
            sem.wf(),
            self@.belongs_to(sem.id(), sem@),
        ensures
            yes <==> (self@.ticket() matches Some(t) ==> sem@.cancel(t as int).0.permits
                <= MAX_PERMITS),
    {
        self.acquire.can_cancel(&sem.0)
    }

    /// Gives the request up. What it has been assigned goes back to the
    /// semaphore; if it was waiting, it loses its place.
    pub fn cancel(self, sem: &mut Semaphore, wakes: &mut WakeList)
        requires
            old(sem).wf(),
            self@.belongs_to(old(sem).id(), old(sem)@),
            self@.ticket() matches Some(t) ==> old(sem)@.cancel(t as int).0.permits
                <= MAX_PERMITS,
        ensures
            final(sem).wf(),
            final(sem).id() == old(sem).id(),
            match self@.ticket() {
                None => final(sem)@ == old(sem)@ && final(wakes)@ == old(wakes)@,
                Some(t) => {
                    &&& final(sem)@ == old(sem)@.cancel(t as int).0
                    &&& final(wakes)@ == old(wakes)@ + old(sem)@.cancel(t as int).1
                },
            },
    {
        self.acquire.cancel(&mut sem.0, wakes);
    }
}

/// A request that ends in an [`OwnedSemaphorePermit`].
pub struct AcquireOwned {
    acquire: Acquire,
    permits: u32,
}

impl AcquireOwned {
    /// The request.
    pub closed spec fn view(&self) -> Acquire {
        self.acquire
    }

    /// The permit stands for as many permits as are asked for.
    pub closed spec fn wf(&self) -> bool {
        self.acquire.requested() == self.permits
    }

    /// Asks for the permits. Until they are there, `waker` stands for the task
    /// that waits.
    pub fn poll(&mut self, sem: &mut Semaphore, waker: Waker) -> (result: Poll<
        Result<OwnedSemaphorePermit, AcquireError>,
    >)
        requires
            old(self).wf(),
            old(sem).wf(),
            old(self)@.belongs_to(old(sem).id(), old(sem)@),
        ensures
            final(self).wf(),
            final(sem).wf(),
            final(sem).id() == old(sem).id(),
            final(self)@.belongs_to(final(sem).id(), final(sem)@),
            final(self)@.id() == old(self)@.id(),
            final(self)@.requested() == old(self)@.requested(),
            old(sem)@.makes_progress(
                old(self)@.requested(),
                old(self)@.ticket(),
                fared(result, final(self)@.ticket()),
            ),
            final(sem)@ == old(sem)@.asked(
                old(self)@.requested(),
                old(self)@.ticket(),
                waker,
                fared(result, final(self)@.ticket()),
            ),
            result matches Poll::Ready(Err(_)) <==> old(sem)@.closed,
            result matches Poll::Ready(Ok(_)) <==> !old(sem)@.closed && match old(self)@.ticket() {
                None => old(self)@.requested() <= old(sem)@.permits,
                Some(t) => old(sem)@.slots[t as int] is Settled,
            },
            match result {
                Poll::Ready(Err(_)) => final(self)@.ticket() == old(self)@.ticket(),
                Poll::Ready(Ok(permit)) => {
                    &&& final(self)@.ticket() is None
                    &&& permit.id() == old(self)@.id()
                    &&& permit.permits() == old(self)@.requested()
                },
                Poll::Pending => final(self)@.ticket() is Some,
            },
    {
        match self.acquire.poll(&mut sem.0, waker) {
            Poll::Pending => Poll::Pending,
            Poll::Ready(Err(e)) => Poll::Ready(Err(e)),
            Poll::Ready(Ok(_)) => Poll::Ready(Ok(OwnedSemaphorePermit {
                id: self.acquire.id,
                permits: self.permits,
            })),
        }
    }

    /// Whether the request can be given up without leaving more than
    /// [`MAX_PERMITS`] permits free.
    pub fn can_cancel(&self, sem: &Semaphore) -> (yes: bool)
        requires
            sem.wf(),
            self@.belongs_to(sem.id(), sem@),
        ensures
            yes <==> (self@.ticket() matches Some(t) ==> sem@.cancel(t as int).0.permits
                <= MAX_PERMITS),
    {
        self.acquire.can_cancel(&sem.0)
    }

    /// Gives the request up. What it has been assigned goes back to the
    /// semaphore; if it was waiting, it loses its place.
    pub fn cancel(self, sem: &mut Semaphore, wakes: &mut WakeList)
        requires
            old(sem).wf(),
            self@.belongs_to(old(sem).id(), old(sem)@),
            self@.ticket() matches Some(t) ==> old(sem)@.cancel(t as int).0.permits
                <= MAX_PERMITS,
        ensures
            final(sem).wf(),
            final(sem).id() == old(sem).id(),
            match self@.ticket() {
                None => final(sem)@ == old(sem)@ && final(wakes)@ == old(wakes)@,
                Some(t) => {
                    &&& final(sem)@ == old(sem)@.cancel(t as int).0
                    &&& final(wakes)@ == old(wakes)@ + old(sem)@.cancel(t as int).1
                },
            },
    {
        self.acquire.cancel(&mut sem.0, wakes);
    }
}

/// Counting semaphore that gives permits out in the order in which they were
/// asked for.
///
/// A semaphore maintains a set of permits. Permits are used to synchronize
/// access to a shared resource. A semaphore differs from a mutex in that it can
/// allow more than one caller to access the shared resource at a time.
pub struct Semaphore(Inner);

impl View for Semaphore {
    type V = SemaphoreView;

    closed spec fn view(&self) -> SemaphoreView {
        self.0@
    }
}

impl Semaphore {
    /// What holds of a semaphore at all times.
    pub open spec fn wf(&self) -> bool {
        self@.valid()
    }

    /// The identity of the semaphore.
    pub closed spec fn id(&self) -> Identity {
        self.0.id()
    }

    /// A semaphore with the given number of permits. Of a number above
    /// [`MAX_PERMITS`] only the bits below that bound count.
    pub fn new(ids: &mut Identities, permits: usize) -> (sem: Self)
        requires
            old(ids)@ < u64::MAX,
        ensures
            final(ids).source() == old(ids).source(),
            final(ids)@ == old(ids)@ + 1,
            sem.wf(),
            sem.id().source() == old(ids).source(),
            sem.id()@ == old(ids)@,
            sem@ == SemaphoreView::with_permits(permits),
            permits <= usize::MAX / 8 ==> sem@.permits == permits,
            permits > usize::MAX / 8 ==> sem@.permits == permits as int % (usize::MAX / 8 + 1),
            !sem@.closed,
            sem@.queue.len() == 0,
            sem@.slots.len() == 0,
    {
        Semaphore(Inner::new(ids.fresh(), permits))
    }

    /// The number of free permits.
    pub fn available_permits(&self) -> (n: usize)
        ensures
            n == self@.permits,
    {
        self.0.available_permits()
    }

    /// Whether `n` permits can be added without leaving more than
    /// [`MAX_PERMITS`] free.
    pub fn can_add(&self, n: usize) -> (yes: bool)
        requires
            self.wf(),
        ensures
            yes == self@.fits(n as nat),
    {
        self.0.can_add(n)
    }

    /// Adds `n` permits to the semaphore.
    pub fn add_permits(&mut self, n: usize, wakes: &mut WakeList)
        requires
            old(self).wf(),
            old(self)@.fits(n as nat),
        ensures
            final(self).wf(),
            final(self).id() == old(self).id(),
            final(self)@ == old(self)@.release(n as nat).0,
            final(wakes)@ == old(wakes)@ + old(self)@.release(n as nat).1,
    {
        self.0.release(n, wakes);
    }

    /// A request for one permit.
    pub fn acquire(&self) -> (request: AcquireResult)
        ensures
            request.wf(),
            request@.id() == self.id(),
            request@.requested() == 1,
            request@.ticket() is None,
    {
        AcquireResult { acquire: self.0.acquire(1), permits: 1 }
    }

    /// A request for `n` permits.
    pub fn acquire_many(&self, n: u32) -> (request: AcquireResult)
        ensures
            request.wf(),
            request@.id() == self.id(),
            request@.requested() == n,
            request@.ticket() is None,
    {
        AcquireResult { acquire: self.0.acquire(n), permits: n }
    }

    /// Takes one permit if one is free and the semaphore is not closed.
    pub fn try_acquire(&mut self) -> (result: Result<SemaphorePermit, TryAcquireError>)
        requires
            old(self).wf(),
        ensures
            final(self).wf(),
            final(self).id() == old(self).id(),
            result is Err <==> old(self)@.closed || old(self)@.permits < 1,
            result matches Err(e) ==> e == old(self)@.refusal(),
            result matches Ok(permit) ==> permit.id() == old(self).id() && permit.permits() == 1,
            final(self)@ == old(self)@.taken(if result is Ok { 1 } else { 0 }),
            match result {
                Ok(_) => {
                    &&& final(self)@.permits + 1 == old(self)@.permits
                    &&& final(self)@.closed == old(self)@.closed
                    &&& final(self)@.queue == old(self)@.queue
                    &&& final(self)@.slots == old(self)@.slots
                },
                Err(e) => {
                    &&& e is Closed <==> old(self)@.closed
                    &&& final(self)@ == old(self)@
                },
            },
    {
        match self.0.try_acquire(1) {
            Ok(_) => Ok(SemaphorePermit { id: self.0.identity(), permits: 1 }),
            Err(e) => Err(e),
        }
    }

    /// Takes `n` permits if so many are free and the semaphore is not closed.
    pub fn try_acquire_many(&mut self, n: u32) -> (result: Result<
        SemaphorePermit,
        TryAcquireError,
    >)
        requires
            old(self).wf(),
            n <= MAX_PERMITS,
        ensures
            final(self).wf(),
            final(self).id() == old(self).id(),
            result is Err <==> old(self)@.closed || old(self)@.permits < n,
            result matches Err(e) ==> e == old(self)@.refusal(),
            result matches Ok(permit) ==> permit.id() == old(self).id() && permit.permits() == n,
            final(self)@ == old(self)@.taken(if result is Ok { n as nat } else { 0 }),
            match result {
                Ok(_) => {
                    &&& final(self)@.permits + n == old(self)@.permits
                    &&& final(self)@.closed == old(self)@.closed
                    &&& final(self)@.queue == old(self)@.queue
                    &&& final(self)@.slots == old(self)@.slots
                },
                Err(e) => {
                    &&& e is Closed <==> old(self)@.closed
                    &&& final(self)@ == old(self)@
                },
            },
    {
        match self.0.try_acquire(n) {
            Ok(_) => Ok(SemaphorePermit { id: self.0.identity(), permits: n }),
            Err(e) => Err(e),
        }
    }

    /// A request for one permit that does not borrow the semaphore.
    pub fn acquire_owned(&self) -> (request: AcquireOwned)
        ensures
            request.wf(),
            request@.id() == self.id(),
            request@.requested() == 1,
            request@.ticket() is None,
    {
        AcquireOwned { acquire: self.0.acquire(1), permits: 1 }
    }

    /// A request for `n` permits that does not borrow the semaphore.
    pub fn acquire_many_owned(&self, n: u32) -> (request: AcquireOwned)
        ensures
            request.wf(),
            request@.id() == self.id(),
            request@.requested() == n,
            request@.ticket() is None,
    {
        AcquireOwned { acquire: self.0.acquire(n), permits: n }
    }

    /// Takes one permit if one is free and the semaphore is not closed.
    pub fn try_acquire_owned(&mut self) -> (result: Result<OwnedSemaphorePermit, TryAcquireError>)
        requires
            old(self).wf(),
        ensures
            final(self).wf(),
            final(self).id() == old(self).id(),
            result is Err <==> old(self)@.closed || old(self)@.permits < 1,
            result matches Err(e) ==> e == old(self)@.refusal(),
            result matches Ok(permit) ==> permit.id() == old(self).id() && permit.permits() == 1,
            final(self)@ == old(self)@.taken(if result is Ok { 1 } else { 0 }),
            match result {
                Ok(_) => {
                    &&& final(self)@.permits + 1 == old(self)@.permits
                    &&& final(self)@.closed == old(self)@.closed
                    &&& final(self)@.queue == old(self)@.queue
                    &&& final(self)@.slots == old(self)@.slots
                },
                Err(e) => {
                    &&& e is Closed <==> old(self)@.closed
                    &&& final(self)@ == old(self)@
                },
            },
    {
        match self.0.try_acquire(1) {
            Ok(_) => Ok(OwnedSemaphorePermit { id: self.0.identity(), permits: 1 }),
            Err(e) => Err(e),
        }
    }

    /// Takes `n` permits if so many are free and the semaphore is not closed.
    pub fn try_acquire_many_owned(&mut self, n: u32) -> (result: Result<
        OwnedSemaphorePermit,
        TryAcquireError,
    >)
        requires
            old(self).wf(),
            n <= MAX_PERMITS,
        ensures
            final(self).wf(),
            final(self).id() == old(self).id(),
            result is Err <==> old(self)@.closed || old(self)@.permits < n,
            result matches Err(e) ==> e == old(self)@.refusal(),
            result matches Ok(permit) ==> permit.id() == old(self).id() && permit.permits() == n,
            final(self)@ == old(self)@.taken(if result is Ok { n as nat } else { 0 }),
            match result {
                Ok(_) => {
                    &&& final(self)@.permits + n == old(self)@.permits
                    &&& final(self)@.closed == old(self)@.closed
                    &&& final(self)@.queue == old(self)@.queue
                    &&& final(self)@.slots == old(self)@.slots
                },
                Err(e) => {
                    &&& e is Closed <==> old(self)@.closed
                    &&& final(self)@ == old(self)@
                },
            },
    {
        match self.0.try_acquire(n) {
            Ok(_) => Ok(OwnedSemaphorePermit { id: self.0.identity(), permits: n }),
            Err(e) => Err(e),
        }
    }

    /// Closes the semaphore. No permit is given out any more, and all that wait
    /// are turned away.
    pub fn close(&mut self, wakes: &mut WakeList)
        requires
            old(self).wf(),
        ensures
            final(self).wf(),
            final(self).id() == old(self).id(),
            final(self)@ == old(self)@.close().0,
            final(wakes)@ == old(wakes)@ + old(self)@.close().1,
    {
        self.0.close(wakes);
    }

    /// Whether the semaphore is closed.
    pub fn is_closed(&self) -> (closed: bool)
        ensures
            closed == self@.closed,
    {
        self.0.is_closed()
    }
}

/// A request that gives its permits has been met, one that gives an error found the
/// semaphore closed, and one that is pending waits in the slot that it holds.
pub proof fn law_how_a_request_fared<T>(
    value: T,
    error: AcquireError,
    ticket: Option<usize>,
    t: usize,
)
    ensures
        fared(Poll::Ready(Ok::<T, AcquireError>(value)), ticket) is Acquired,
        fared(Poll::Ready(Err::<T, AcquireError>(error)), ticket) is Closed,
        fared(Poll::<Result<T, AcquireError>>::Pending, Some(t)) == Progress::Waiting(t),
{
}

} // verus!
