//! A versioned node store for an authenticated tree: node, value and
//! preimage namespaces laid over an ordered byte-string engine.

pub mod bytes;
pub mod codec;
pub mod engine;
pub mod mem_store;
pub mod store;
pub mod types;

use vstd::prelude::*;

verus! {

/// A logical timestamp of one committed tree state.
pub type Version = u64;

} // verus!
