//! Regions of content, and the two records that describe them.

use vstd::prelude::*;
use vstd::bytes::{spec_u64_from_le_bytes, u64_from_le_bytes};
use vstd::slice::slice_subrange;

use crate::hash::digest_of;
use crate::layout::{
    encoded_len, encoded_subtree_len, left_len, left_subregion_len, lemma_encoded_len_monotonic,
    lemma_left_len,
};
use crate::{Digest, Error, CHUNK_SIZE, DIGEST_SIZE, HEADER_SIZE, NODE_SIZE};

verus! {

/// The content bytes `[start, end)`, the offset in the encoded stream at
/// which their encoding begins, and the digest of the first record there: of
/// the chunk itself where the region is a leaf, of its node record otherwise.
#[derive(Debug, Clone, Copy, PartialEq, Eq)]
pub struct Region {
    /// Content offset of the first byte.
    pub start: u64,
    /// Content offset just behind the last byte.
    pub end: u64,
    /// Offset in the encoded stream at which the encoding begins.
    pub encoded_offset: u64,
    /// Digest of the record that stands at `encoded_offset`.
    pub hash: Digest,
}

/// A [`Region`] with its digest as a sequence of bytes.
pub struct RegionView {
    pub start: u64,
    pub end: u64,
    pub encoded_offset: u64,
    pub hash: Seq<u8>,
}

/// The two children of a region that was split.
#[derive(Debug, Clone, Copy, PartialEq, Eq)]
pub struct Node {
    /// The first `left_len` bytes of the region.
    pub left: Region,
    /// The rest of the region.
    pub right: Region,
}

/// A [`Node`] with its digests as sequences of bytes.
pub struct NodeView {
    pub left: RegionView,
    pub right: RegionView,
}

impl View for Region {
    type V = RegionView;

    open spec fn view(&self) -> RegionView {
        RegionView {
            start: self.start,
            end: self.end,
            encoded_offset: self.encoded_offset,
            hash: self.hash@,
        }
    }
}

impl View for Node {
    type V = NodeView;

    open spec fn view(&self) -> NodeView {
        NodeView { left: self.left@, right: self.right@ }
    }
}

impl RegionView {
    /// Number of content bytes in the region.
    pub open spec fn len(self) -> nat {
        (self.end - self.start) as nat
    }

    /// Whether the content offset `position` lies in the region.
    pub open spec fn contains(self, position: u64) -> bool {
        self.start <= position < self.end
    }

    /// Whether the region is a leaf, encoded as its own bytes.
    pub open spec fn is_chunk(self) -> bool {
        self.len() <= CHUNK_SIZE
    }

    /// Offset in the encoded stream just behind the region's encoding.
    pub open spec fn encoded_end(self) -> nat {
        self.encoded_offset as nat + encoded_len(self.len())
    }

    /// Whether the region can be split: it is no leaf, and its encoding
    /// ends at an offset that a `u64` holds.
    pub open spec fn splits(self) -> bool {
        &&& self.start <= self.end
        &&& self.len() > CHUNK_SIZE
        &&& self.encoded_end() <= u64::MAX
    }
}

impl NodeView {
    /// Whether `position` lies in one of the two children.
    pub open spec fn contains(self, position: u64) -> bool {
        self.left.start <= position < self.right.end
    }

    /// The child in which `position` lies, provided the node contains it.
    pub open spec fn child_at(self, position: u64) -> RegionView {
        if self.left.contains(position) {
            self.left
        } else {
            self.right
        }
    }

    /// Whether the two children are the two halves of `parent`: the left
    /// child begins where the parent begins and is `left_len` bytes long, the
    /// right child takes the rest, the left child's encoding follows the
    /// parent's node record, and the right child's follows the left child's.
    /// The digests are left open.
    pub open spec fn halves(self, parent: RegionView) -> bool {
        let left = left_len(parent.len());
        &&& parent.splits()
        &&& self.left.start == parent.start
        &&& self.left.end == parent.start + left
        &&& self.left.encoded_offset == parent.encoded_offset + NODE_SIZE
        &&& self.right.start == self.left.end
        &&& self.right.end == parent.end
        &&& self.right.encoded_offset == parent.encoded_offset + NODE_SIZE + encoded_len(left)
    }
}

/// The root region that a header record describes: all of the content, whose
/// length the first eight bytes give in little-endian order, encoded right
/// behind the header, with the digest that the rest of the record holds.
pub open spec fn header_region(record: Seq<u8>) -> RegionView {
    RegionView {
        start: 0,
        end: spec_u64_from_le_bytes(record.subrange(0, 8)),
        encoded_offset: HEADER_SIZE as u64,
        hash: record.subrange(8, HEADER_SIZE as int),
    }
}

/// The children that the node record `record` gives the region `parent`, or
/// `None` where the record has the wrong length or the region cannot be
/// split. The record holds the left child's digest, then the right child's.
pub open spec fn split(parent: RegionView, record: Seq<u8>) -> Option<NodeView> {
    if record.len() == NODE_SIZE && parent.splits() {
        let left = left_len(parent.len());
        Some(
            NodeView {
                left: RegionView {
                    start: parent.start,
                    end: (parent.start + left) as u64,
                    encoded_offset: (parent.encoded_offset + NODE_SIZE) as u64,
                    hash: record.subrange(0, DIGEST_SIZE as int),
                },
                right: RegionView {
                    start: (parent.start + left) as u64,
                    end: parent.end,
                    encoded_offset: (parent.encoded_offset + NODE_SIZE + encoded_len(left)) as u64,
                    hash: record.subrange(DIGEST_SIZE as int, NODE_SIZE as int),
                },
            },
        )
    } else {
        None
    }
}

/// What [`split`] returns are the two halves of the parent, with the two
/// digests of the record.
pub proof fn lemma_split(parent: RegionView, record: Seq<u8>)
    requires
        split(parent, record) is Some,
    ensures
        split(parent, record).unwrap().halves(parent),
        split(parent, record).unwrap().left.hash == record.subrange(0, DIGEST_SIZE as int),
        split(parent, record).unwrap().right.hash == record.subrange(
            DIGEST_SIZE as int,
            NODE_SIZE as int,
        ),
{
    lemma_left_len(parent.len());
    let left = left_len(parent.len());
    lemma_encoded_len_monotonic(left, parent.len());
    lemma_encoded_len_monotonic((parent.len() - left) as nat, parent.len());
}

/// The two halves of a region tile it, neither is empty, the encoding of
/// the left half ends where that of the right half begins, and the encoding
/// of the right half ends where the parent's ends.
pub proof fn lemma_halves(node: NodeView, parent: RegionView)
    requires
        node.halves(parent),
    ensures
        parent.start == node.left.start < node.left.end == node.right.start < node.right.end
            == parent.end,
        node.left.len() == left_len(parent.len()),
        node.left.len() + node.right.len() == parent.len(),
        node.left.encoded_offset == parent.encoded_offset + NODE_SIZE,
        node.left.encoded_end() == node.right.encoded_offset,
        node.right.encoded_end() == parent.encoded_end(),
{
    lemma_left_len(parent.len());
}

/// Whether `node` was read under `parent`: some node record that has the
/// digest which `parent` holds gives `parent` the children of `node`.
pub open spec fn read_under(parent: RegionView, node: NodeView) -> bool {
    exists|record: Seq<u8>|
        digest_of(record)@ == parent.hash && #[trigger] split(parent, record) == Some(node)
}

/// A node that was read under a region holds the two halves of the region.
pub proof fn lemma_read_under(parent: RegionView, node: NodeView)
    requires
        read_under(parent, node),
    ensures
        node.halves(parent),
{
    let record = choose|record: Seq<u8>|
        digest_of(record)@ == parent.hash && #[trigger] split(parent, record) == Some(node);
    lemma_split(parent, record);
}

/// Copies the digest that stands at `at` in `bytes`.
fn digest_at(bytes: &[u8], at: usize) -> (digest: Digest)
    requires
        at + DIGEST_SIZE <= bytes.len(),
    ensures
        digest@ == bytes@.subrange(at as int, at + DIGEST_SIZE),
{
    let mut digest: Digest = [0u8; 32];
    let mut i: usize = 0;
    while i < DIGEST_SIZE
        invariant
            i <= DIGEST_SIZE,
            at + DIGEST_SIZE <= bytes.len(),
            forall|j: int| 0 <= j < i ==> digest@[j] == bytes@[at + j],
        decreases DIGEST_SIZE - i,
    {
        digest[i] = bytes[at + i];
        i += 1;
    }
    assert(digest@ =~= bytes@.subrange(at as int, at + DIGEST_SIZE));
    digest
}

impl Region {
    /// Number of content bytes in the region.
    pub fn len(&self) -> (len: u64)
        requires
            self.start <= self.end,
        ensures
            len == self@.len(),
    {
        self.end - self.start
    }

    /// Whether the content offset `position` lies in the region.
    pub fn contains(&self, position: u64) -> (inside: bool)
        ensures
            inside == self@.contains(position),
    {
        self.start <= position && position < self.end
    }

    /// Reads a header record.
    pub fn from_header_bytes(bytes: &[u8]) -> (region: Region)
        requires
            bytes@.len() == HEADER_SIZE,
        ensures
            region@ == header_region(bytes@),
    {
        let end: u64 = u64_from_le_bytes(slice_subrange(bytes, 0, 8));
        Region { start: 0, end, encoded_offset: HEADER_SIZE as u64, hash: digest_at(bytes, 8) }
    }

    /// Reads the node record of this region.
    ///
    /// Fails, with [`Error::MalformedNode`], where the record is not
    /// [`NODE_SIZE`] bytes long, where the region is a leaf or its end lies
    /// before its start, and where the region's encoding would end behind
    /// the largest offset that a `u64` holds.
    pub fn parse_node(&self, bytes: &[u8]) -> (parsed: Result<Node, Error>)
        ensures
            match parsed {
                Ok(node) => split(self@, bytes@) == Some(node@),
                Err(e) => e == Error::MalformedNode && split(self@, bytes@) is None,
            },
    {
        if bytes.len() != NODE_SIZE || self.start > self.end {
            return Err(Error::MalformedNode);
        }
        let len: u64 = self.len();
        if len <= CHUNK_SIZE as u64 {
            return Err(Error::MalformedNode);
        }
        let fits: bool = match encoded_subtree_len(len) {
            Some(n) => n <= u64::MAX - self.encoded_offset,
            None => false,
        };
        if !fits {
            return Err(Error::MalformedNode);
        }
        let left_len: u64 = left_subregion_len(len);
        proof {
            lemma_left_len(len as nat);
            lemma_encoded_len_monotonic(left_len as nat, len as nat);
        }
        let left_encoded_len: u64 = encoded_subtree_len(left_len).unwrap();
        let left = Region {
            start: self.start,
            end: self.start + left_len,
            encoded_offset: self.encoded_offset + NODE_SIZE as u64,
            hash: digest_at(bytes, 0),
        };
        let right = Region {
            start: left.end,
            end: self.end,
            encoded_offset: left.encoded_offset + left_encoded_len,
            hash: digest_at(bytes, DIGEST_SIZE),
        };
        Ok(Node { left, right })
    }
}

impl Node {
    /// Whether `position` lies in one of the two children.
    pub fn contains(&self, position: u64) -> (inside: bool)
        ensures
            inside == self@.contains(position),
    {
        self.left.start <= position && position < self.right.end
    }
}

} // verus!
