//! Versioning and time-indexing substrate for an append-only,
//! content-addressed record store.
//!
//! The crate has three parts:
//!
//! - [`metadata`]: resolves the full revision history of a node in the
//!   mutation graph (original, previous, latest revision and hop counts)
//!   against a snapshot of the store.
//! - [`civil`] and [`index_tree`]: decompose a timestamp into an ordered
//!   list of coarse-to-fine index segments (a path in a time-sharded radix
//!   trie), with calendar truncation in UTC.
//! - [`link_tag`]: encodes an index namespace and a timestamp into a
//!   sortable binary link tag, and decodes such tags back, validating
//!   their format.

use vstd::prelude::*;

pub mod civil;
pub mod index_tree;
pub mod link_tag;
pub mod metadata;

verus! {

/// A referenced node is absent from the store, or present but not in a
/// valid distributed-validation state; or a node in the history has a
/// shape that matches no known kind of revision.
#[derive(Clone, Copy, Debug, PartialEq, Eq, Structural)]
pub enum DataIntegrityError {
    EntryNotFound,
    EntryWrongType,
}

} // verus!
