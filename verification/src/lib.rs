//! An embeddable vector database core: vector indexes behind a uniform
//! contract, an attribute inverted filter index over roaring bitmaps, a
//! document store with monotonic id allocation, and a write-ahead log with
//! replay-based recovery.
//!
//! Vector components travel through this crate as raw `u32` bit patterns and
//! distances as order-preserving `u32` keys; the numeric evaluation of a
//! metric is supplied by the caller, so everything around it is verified.

pub mod bytes;
pub mod filter;
pub mod filter_index;
pub mod flat;
pub mod index;
pub mod json;
pub mod merror;
pub mod persistence;
pub mod scalar;
pub mod vecdb;
pub mod wal_payload;
