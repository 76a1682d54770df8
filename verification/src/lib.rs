//! Incremental decoding of a hash-tree encoded byte stream.
//!
//! Content is cut into chunks of at most [`CHUNK_SIZE`] bytes. Chunks are
//! paired bottom-up into tree nodes, each node record holding the digests of
//! its two children, and a header record holds the content length and the
//! digest of the root. A [`decoder::Decoder`] that knows only the digest of
//! the header record checks every record against the digest its parent holds
//! before it reads or hands out a single byte of it.
//!
//! The modules, from the bottom up:
//!
//! - [`hash`]: the digest function, which an outside crate computes.
//! - [`layout`]: where a region is split and how long its encoding is.
//! - [`node`]: regions, nodes, and the header and node records.
//! - [`unverified`]: input that gives out bytes only with a digest check.
//! - [`decoder`]: the decoder, its model and its invariant.
//! - [`simple`]: the encoding as a function of the content, and an encoder.
//! - [`feeding`]: one call of `feed` with too few and with too many bytes.
//! - [`stream`]: whole runs of a decoder over a stream, and `decode`.
//! - [`roundtrip`]: a run over the encoding of some content gives the
//!   content back, from the start or from where the decoder was sent.
//! - [`inorder`]: a decoder that was sent nowhere reads the stream front to
//!   back, so that it may be fed all that is left.
//! - [`tamper`]: a run over a stream with a changed byte stops at the
//!   record that holds the byte.

use vstd::prelude::*;

pub mod hash;
pub mod layout;
pub mod node;
pub mod unverified;
pub mod decoder;
pub mod simple;
pub mod feeding;
pub mod stream;
pub mod roundtrip;
pub mod inorder;
pub mod tamper;

verus! {

/// Largest number of content bytes that an unsplit leaf of the tree holds.
pub const CHUNK_SIZE: usize = 4096;

/// Width of a digest in bytes.
pub const DIGEST_SIZE: usize = 32;

/// Width of a node record: the digests of the left and of the right child.
pub const NODE_SIZE: usize = 2 * DIGEST_SIZE;

/// Width of the header record: the content length in eight little-endian
/// bytes, then the digest of the root region.
pub const HEADER_SIZE: usize = 8 + DIGEST_SIZE;

/// A digest as it stands in a record.
pub type Digest = [u8; DIGEST_SIZE];

/// Why a record was not accepted.
#[derive(Debug, Clone, Copy, PartialEq, Eq)]
pub enum Error {
    /// Enough bytes were supplied, and they do not have the expected digest.
    HashMismatch,
    /// Fewer bytes were supplied than the record is long. Nothing was
    /// consumed; the same call with a longer buffer may succeed.
    ShortInput,
    /// The record's digest was right, and the region it belongs to cannot be
    /// split into two children.
    MalformedNode,
}

} // verus!
