//! Core physical operators of a columnar query engine: grouped hash
//! aggregation and hash equi-join over streams of record batches.
//!
//! Batches are modelled as vectors of typed, nullable columns. Group
//! identity is a compact byte encoding of the grouping values; both
//! operators bucket rows by a seeded multi-column hash and resolve
//! collisions by explicit value comparison.

pub mod accum;
pub mod aggregate;
pub mod bucket;
pub mod columns;
pub mod hashing;
pub mod join;
pub mod memory;
pub mod rowcodec;
pub mod types;
pub mod wordlayout;

use vstd::prelude::*;

verus! {

} // verus!
