//! A verified local replica of an exchange limit order book.
//!
//! The library combines a point-in-time snapshot with a stream of
//! incremental diff events: a sequence gate decides for each event whether
//! it is stale, applicable, or evidence of an unrecoverable gap, and a
//! book engine applies accepted per-price deltas while keeping each side
//! sorted, duplicate-free and free of empty levels.

pub mod book;
pub mod clock;
pub mod gate;
pub mod num;
pub mod session;
pub mod stats;
