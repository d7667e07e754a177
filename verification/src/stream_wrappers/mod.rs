//! Receivers as streams of values.
pub mod unbounded;
