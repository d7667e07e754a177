//! Data structures for asynchronous programs that stay on one thread: a fair
//! counting semaphore, bounded and unbounded channels with one consumer, and a
//! broadcast channel.
//!
//! Every structure is a plain value that its operations take by `&mut`; the
//! handles (senders, receivers, permits, pending acquisitions) are values of
//! their own that name the structure they belong to. An operation that has to
//! wake tasks appends their wakers to a [`wake_list::WakeList`], in the order in
//! which they are due; whoever drives the structure wakes them.
pub mod identity;
pub mod task;
pub mod wake_list;
pub mod semaphore;
pub mod mpsc;
pub mod stream_wrappers;
pub mod broadcast;
