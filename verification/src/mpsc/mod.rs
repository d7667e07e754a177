//! Channels with any number of producers and one consumer.
pub mod block;
pub mod bounded;
pub mod chan;
pub mod semaphore;
pub mod unbounded;

pub use chan::{SendError, TryRecvError};
