//! A content-addressed stream store built around a binary Merkle tree over
//! 1024-byte chunks (BLAKE3 chunk/parent construction, Bao-compatible).
//!
//! Byte sequences are identified by their BLAKE3 root hash plus length and a
//! media-type tag ([`StreamId`]). A stream's tree ([`Tree`]) supports proving
//! a byte range to a peer (`encode_range`), verifying and absorbing such a
//! proof into a partial tree (`decode_range`), and reporting which byte
//! ranges are held or missing. [`TreeHasher`] builds the tree incrementally
//! from a stream of bytes, and [`StreamStorage`] coordinates trees with their
//! chunk buffers.

use vstd::prelude::*;

pub mod hash;
pub mod hasher;
pub mod mime;
pub mod range;
pub mod store;
pub mod stream_id;
pub mod tree;

pub use crate::hash::{blake3_of, chunk_cv, parent_cv};
pub use crate::hasher::{spec_tree_hash, tree_cv, tree_hash, TreeHasher};
pub use crate::mime::{Mime, MimeType};
pub use crate::range::Range;
pub use crate::store::{chunk_file_name, Stream, StreamStorage};
pub use crate::stream_id::StreamId;
pub use crate::tree::{Children, ChildrenView, Insertion, InsertionView, Node, NodeView, Tree};

verus! {

/// Chunk granularity of the tree: every chunk but the last spans exactly
/// this many bytes.
pub const CHUNK_SIZE: u64 = 1024;

/// The failures the engine can report.
#[derive(Clone, Copy, Debug, PartialEq, Eq, Structural)]
pub enum StoreError {
    /// A parent or chunk hash did not match its expected value during
    /// decode; the slice must not be retried.
    CryptoMismatch,
    /// Encode was asked to walk through a node that is missing; the range is
    /// not held.
    MissingNode,
    /// Malformed identifier text, wrong slice header or truncated slice, or
    /// an unsupported media-type code.
    FormatError,
    /// A read was requested for a range whose chunks are not all held.
    RangeInvalid,
}

} // verus!
