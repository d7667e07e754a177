//! The outcome of asking a pending operation for progress, and the waker type.
use vstd::prelude::*;

verus! {

/// Declares [`std::task::Waker`], the handle by which a task is woken. It is
/// only carried through: nothing is claimed of what it holds or does.
#[verifier::external_type_specification]
#[verifier::external_body]
pub struct ExWaker(std::task::Waker);

/// Whether an operation has finished, or has to be asked again once the waker
/// that it was given has been woken.
#[derive(Debug, PartialEq, Eq)]
pub enum Poll<T> {
    /// The operation is over, with this outcome.
    Ready(T),
    /// The operation is not over; its waker has been kept.
    Pending,
}

} // verus!
