//! A minimal content-addressable object store and commit graph.
//!
//! Objects (blobs, trees, commits) are encoded as `type-tag NUL payload`,
//! addressed by the hex digest of their encoding, and held in an
//! append-only keyspace. Mutable references (`HEAD`, tags) map names to
//! object identifiers. Directory snapshots are written bottom-up as
//! Merkle trees and materialized back from any stored tree.

use vstd::prelude::*;

pub mod bytes;
pub mod codec;
pub mod commits;
pub mod digest;
pub mod tree;
pub mod refs;
pub mod repo;
pub mod store;
pub mod walker;

verus! {

} // verus!
