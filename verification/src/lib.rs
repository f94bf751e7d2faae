//! A retrieval-augmented conversational client library.
//!
//! The crate holds the algorithmic core: document chunking, fixed-point
//! similarity search over embedded chunks, an incremental decoder for a
//! loosely framed byte stream of response objects, and the round-robin
//! orchestration of a multi-agent conversation.

pub mod chunk;
pub mod convo;
pub mod decoder;
pub mod sim;
pub mod store;

use vstd::prelude::*;

verus! {

/// The views of a list of strings.
pub open spec fn string_views(v: Seq<String>) -> Seq<Seq<char>> {
    v.map_values(|s: String| s@)
}

} // verus!
