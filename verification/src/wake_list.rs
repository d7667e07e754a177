//! Wakers that are due, in the order in which they are to be woken.
use std::task::Waker;
use vstd::prelude::*;

verus! {

/// A list of wakers. Its view is the sequence of them, the first one due first.
#[derive(Debug)]
pub struct WakeList {
    inner: Vec<Waker>,
}

impl View for WakeList {
    type V = Seq<Waker>;

    closed spec fn view(&self) -> Seq<Waker> {
        self.inner@
    }
}

impl WakeList {
    /// An empty list.
    pub fn new() -> (list: Self)
        ensures
            list@ == Seq::<Waker>::empty(),
    {
        WakeList { inner: Vec::new() }
    }

    /// Appends a waker.
    pub fn push(&mut self, waker: Waker)
        ensures
            final(self)@ == old(self)@.push(waker),
    {
        self.inner.push(waker);
    }

    /// Moves every waker of `other` to the end of this list.
    pub fn append(&mut self, other: &mut WakeList)
        ensures
            final(self)@ == old(self)@ + old(other)@,
            final(other)@ == Seq::<Waker>::empty(),
    {
        self.inner.append(&mut other.inner);
    }

    /// The number of wakers.
    pub fn len(&self) -> (n: usize)
        ensures
            n == self@.len(),
    {
        self.inner.len()
    }

    /// Whether there is no waker.
    pub fn is_empty(&self) -> (empty: bool)
        ensures
            empty <==> self@.len() == 0,
    {
        self.inner.len() == 0
    }

    /// The wakers, in order.
    pub fn into_vec(self) -> (wakers: Vec<Waker>)
        ensures
            wakers@ == self@,
    {
        self.inner
    }
}

} // verus!
