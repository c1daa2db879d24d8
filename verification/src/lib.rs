//! Gathers a sampled window of a commit history together with a
//! performance-metadata payload for every sampled commit.
//!
//! The crate holds the decision logic only: every function here is a plain
//! computation from values to values, and the embedding application performs
//! the network requests that the state machines ask for.

pub mod api;
pub mod cache;
pub mod collection;
pub mod commit;
pub mod dataset;
pub mod keyed;
pub mod range;
pub mod sync_group;
pub mod view_data;
