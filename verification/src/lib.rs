//! Matching core of a single-instrument limit order book.
//!
//! Resting orders live in two price-time-priority chains (one per side)
//! backed by a fixed-capacity slab of record slots; cancelled or fully
//! filled records are recycled through a free list before any fresh slot
//! is taken, so the number of slots ever consumed never grows once the
//! book reaches steady state.

pub mod engine;
pub mod storage;
