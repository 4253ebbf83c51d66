//! Aggregation of RIR delegation records into minimal CIDR route tables.
//!
//! The pipeline parses the RIR stats exchange format, filters records by a
//! country set, merges contiguous address ranges, subdivides each merged
//! range into the minimal list of aligned power-of-two CIDR blocks, and
//! renders the blocks as `address/prefix` lines.

pub mod addr;
pub mod cidr;
pub mod error;
pub mod filter;
pub mod format;
pub mod num;
pub mod parse;
pub mod registry;
pub mod range;
pub mod routes;
pub mod text;

use vstd::prelude::*;

verus! {

/// A friendly liveness probe for the surrounding worker.
pub fn greet() -> (r: String)
    ensures
        r@ == "Hello, wasm-worker!"@,
{
    String::from_str("Hello, wasm-worker!")
}

} // verus!
