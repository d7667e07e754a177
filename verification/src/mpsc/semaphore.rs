//! What limits how many values a channel holds.
use std::task::Waker;
use vstd::prelude::*;

use crate::identity::Identity;
use crate::semaphore::{laws, model, Inner, SemaphoreView, MAX_PERMITS};
use crate::wake_list::WakeList;

verus! {

/// The permits of a channel: one is taken for each value that goes in, and one
/// is added for each value that comes out.
pub trait Semaphore: View {
    /// The identity of the semaphore, if it has one.
    spec fn mark(&self) -> Option<Identity>;

    /// What holds of a semaphore at all times.
    spec fn valid(state: Self::V) -> bool;

    /// Whether the semaphore is closed.
    spec fn closed(state: Self::V) -> bool;

    /// Whether `n` permits can be added.
    spec fn admits(state: Self::V, n: nat) -> bool;

    /// The semaphore and the wakers that are due once `n` permits have been
    /// added.
    spec fn released(state: Self::V, n: nat) -> (Self::V, Seq<Waker>);

    /// The semaphore and the wakers that are due once it has been closed.
    spec fn shut(state: Self::V) -> (Self::V, Seq<Waker>);

    /// Permits can be added one after the other as well as at once; adding some
    /// does not reopen a semaphore, and closing it makes no room for more.
    proof fn lemma_semaphore(state: Self::V, m: nat, n: nat)
        requires
            Self::valid(state),
        ensures
            Self::admits(state, m) ==> Self::valid(Self::released(state, m).0),
            Self::admits(state, m + n) ==> Self::admits(Self::released(state, m).0, n),
            Self::admits(state, m + n) ==> Self::admits(state, m),
            Self::closed(Self::released(state, m).0) == Self::closed(state),
            Self::valid(Self::shut(state).0),
            Self::admits(Self::shut(state).0, n) == Self::admits(state, n),
            Self::closed(Self::shut(state).0),
    ;

    /// Adds `n` permits.
    fn add_permits(&mut self, n: usize, wakes: &mut WakeList)
        requires
            Self::valid(old(self)@),
            Self::admits(old(self)@, n as nat),
        ensures
            Self::valid(final(self)@),
            final(self).mark() == old(self).mark(),
            final(self)@ == Self::released(old(self)@, n as nat).0,
            final(wakes)@ == old(wakes)@ + Self::released(old(self)@, n as nat).1,
    ;

    /// Closes the semaphore.
    fn close(&mut self, wakes: &mut WakeList)
        requires
            Self::valid(old(self)@),
        ensures
            Self::valid(final(self)@),
            final(self).mark() == old(self).mark(),
            final(self)@ == Self::shut(old(self)@).0,
            final(wakes)@ == old(wakes)@ + Self::shut(old(self)@).1,
    ;

    /// Whether the semaphore is closed.
    fn is_closed(&self) -> (closed: bool)
        ensures
            closed == Self::closed(self@),
    ;
}

impl Semaphore for Inner {
    open spec fn mark(&self) -> Option<Identity> {
        Some(self.id())
    }

    open spec fn valid(state: SemaphoreView) -> bool {
        state.valid()
    }

    open spec fn closed(state: SemaphoreView) -> bool {
        state.closed
    }

    open spec fn admits(state: SemaphoreView, n: nat) -> bool {
        state.held() + n <= MAX_PERMITS
    }

    open spec fn released(state: SemaphoreView, n: nat) -> (SemaphoreView, Seq<Waker>) {
        state.release(n)
    }

    open spec fn shut(state: SemaphoreView) -> (SemaphoreView, Seq<Waker>) {
        state.close()
    }

    proof fn lemma_semaphore(state: SemaphoreView, m: nat, n: nat) {
        laws::law_release_adds(state, m);
        laws::law_close_keeps(state);
        laws::lemma_release_keeps_closed(state, m);
        if Self::admits(state, m) {
            laws::law_held_bounds_free(state, m);
            model::lemma_release_valid(state, m);
        }
    }

    fn add_permits(&mut self, n: usize, wakes: &mut WakeList) {
        proof {
            laws::law_held_bounds_free(self@, n as nat);
        }
        self.release(n, wakes);
    }

    fn close(&mut self, wakes: &mut WakeList) {
        Inner::close(self, wakes);
    }

    fn is_closed(&self) -> (closed: bool) {
        Inner::is_closed(self)
    }
}

/// A semaphore that never runs out of permits: all it knows is whether it is
/// closed, which is its view.
#[derive(Debug)]
pub struct Unlimited {
    closed: bool,
}

impl View for Unlimited {
    type V = bool;

    closed spec fn view(&self) -> bool {
        self.closed
    }
}

impl Unlimited {
    /// A semaphore that is not closed.
    pub fn new() -> (sem: Self)
        ensures
            !sem@,
    {
        Unlimited { closed: false }
    }
}

impl Semaphore for Unlimited {
    open spec fn mark(&self) -> Option<Identity> {
        None
    }

    open spec fn valid(state: bool) -> bool {
        true
    }

    open spec fn closed(state: bool) -> bool {
        state
    }

    open spec fn admits(state: bool, n: nat) -> bool {
        true
    }

    open spec fn released(state: bool, n: nat) -> (bool, Seq<Waker>) {
        (state, Seq::empty())
    }

    open spec fn shut(state: bool) -> (bool, Seq<Waker>) {
        (true, Seq::empty())
    }

    proof fn lemma_semaphore(state: bool, m: nat, n: nat) {
    }

    fn add_permits(&mut self, n: usize, wakes: &mut WakeList) {
        assert(wakes@ + Seq::<Waker>::empty() == wakes@);
    }

    fn close(&mut self, wakes: &mut WakeList) {
        self.closed = true;
        assert(wakes@ + Seq::<Waker>::empty() == wakes@);
    }

    fn is_closed(&self) -> (closed: bool) {
        self.closed
    }
}

/// A channel that is limited by a counting semaphore is closed when that is, adds
/// permits to it, and closes it.
pub proof fn law_counting_semaphore(state: SemaphoreView, n: nat)
    ensures
        Inner::closed(state) == state.closed,
        Inner::valid(state) == state.valid(),
        Inner::admits(state, n) <==> state.held() + n <= usize::MAX / 8,
        Inner::released(state, n) == state.release(n),
        Inner::shut(state) == state.close(),
{
}

/// A semaphore that never runs out of permits takes any number, wakes nobody, and
/// changes only when it is closed.
pub proof fn law_unlimited_semaphore(state: bool, n: nat)
    ensures
        Unlimited::closed(state) == state,
        Unlimited::valid(state),
        Unlimited::admits(state, n),
        Unlimited::released(state, n).0 == state,
        Unlimited::released(state, n).1.len() == 0,
        Unlimited::shut(state).0,
        Unlimited::shut(state).1.len() == 0,
{
}

} // verus!
