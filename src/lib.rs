//! Selective streaming materializer for large JSON documents.
//!
//! Events are pulled one at a time from a token source; only the subtrees under a
//! retention trigger key are rebuilt in memory, and every completed object is tested
//! against a match predicate over its direct fields.
pub mod value;
pub mod event;
pub mod grammar;
pub mod state;
pub mod source;
pub mod laws;
pub mod roundtrip;
