//! The encoding, and an encoder that builds it whole in memory.

use vstd::prelude::*;
use vstd::bytes::{lemma_auto_spec_u64_to_from_le_bytes, spec_u64_to_le_bytes, u64_to_le_bytes};
use vstd::slice::{slice_subrange, slice_to_vec};

use crate::hash::{digest_of, hash};
use crate::layout::{encoded_len, left_len, left_subregion_len, lemma_left_len};
use crate::node::{header_region, RegionView};
use crate::{Digest, CHUNK_SIZE, DIGEST_SIZE, HEADER_SIZE, NODE_SIZE};

verus! {

/// Digest under which a parent holds the region with the bytes `content`:
/// the digest of the bytes themselves where they make one chunk, of the
/// region's node record otherwise.
pub open spec fn region_digest(content: Seq<u8>) -> Seq<u8>
    decreases content.len(),
{
    if content.len() <= CHUNK_SIZE {
        digest_of(content)@
    } else {
        proof {
            lemma_left_len(content.len());
        }
        let left = left_len(content.len()) as int;
        digest_of(region_digest(content.take(left)) + region_digest(content.skip(left)))@
    }
}

/// Node record of a region of more than [`CHUNK_SIZE`] bytes: the digest of
/// its left half, then that of its right half.
pub open spec fn node_record(content: Seq<u8>) -> Seq<u8> {
    let left = left_len(content.len()) as int;
    region_digest(content.take(left)) + region_digest(content.skip(left))
}

/// Encoding of the region with the bytes `content`: one chunk as it is, a
/// longer region as its node record, the encoding of its left half and the
/// encoding of its right half.
pub open spec fn encoded_region(content: Seq<u8>) -> Seq<u8>
    decreases content.len(),
{
    if content.len() <= CHUNK_SIZE {
        content
    } else {
        proof {
            lemma_left_len(content.len());
        }
        let left = left_len(content.len()) as int;
        node_record(content) + encoded_region(content.take(left)) + encoded_region(
            content.skip(left),
        )
    }
}

/// Header record of `content`: its length in eight little-endian bytes, then
/// the digest of the root region.
pub open spec fn header_record(content: Seq<u8>) -> Seq<u8> {
    spec_u64_to_le_bytes(content.len() as u64) + region_digest(content)
}

/// The encoded stream of `content`: the header record, then the encoding of
/// the root region.
pub open spec fn encoding(content: Seq<u8>) -> Seq<u8> {
    header_record(content) + encoded_region(content)
}

/// The digest by which a decoder knows the stream of `content`: that of its
/// header record.
pub open spec fn header_digest(content: Seq<u8>) -> Seq<u8> {
    digest_of(header_record(content))@
}

/// A region's digest is [`DIGEST_SIZE`] bytes long, its node record
/// [`NODE_SIZE`] bytes, and its encoding [`encoded_len`] bytes.
pub proof fn lemma_encoded_region_len(content: Seq<u8>)
    ensures
        region_digest(content).len() == DIGEST_SIZE,
        node_record(content).len() == NODE_SIZE,
        encoded_region(content).len() == encoded_len(content.len()),
    decreases content.len(),
{
    let left = left_len(content.len()) as int;
    if content.len() > CHUNK_SIZE {
        lemma_left_len(content.len());
    }
    lemma_region_digest_len(content.take(left));
    lemma_region_digest_len(content.skip(left));
    lemma_region_digest_len(content);
    if content.len() > CHUNK_SIZE {
        lemma_encoded_region_len(content.take(left));
        lemma_encoded_region_len(content.skip(left));
    }
}

/// A region's digest is [`DIGEST_SIZE`] bytes long.
pub proof fn lemma_region_digest_len(content: Seq<u8>)
    ensures
        region_digest(content).len() == DIGEST_SIZE,
{
}

/// The header record is [`HEADER_SIZE`] bytes long and describes the root
/// region: all of the content, encoded right behind the header.
pub proof fn lemma_header_record(content: Seq<u8>)
    requires
        content.len() <= u64::MAX,
    ensures
        header_record(content).len() == HEADER_SIZE,
        header_region(header_record(content)) == (RegionView {
            start: 0,
            end: content.len() as u64,
            encoded_offset: HEADER_SIZE as u64,
            hash: region_digest(content),
        }),
        encoding(content).len() == HEADER_SIZE + encoded_len(content.len()),
        encoding(content).take(HEADER_SIZE as int) == header_record(content),
        encoding(content).skip(HEADER_SIZE as int) == encoded_region(content),
{
    lemma_auto_spec_u64_to_from_le_bytes();
    lemma_encoded_region_len(content);
    let record = header_record(content);
    let length = spec_u64_to_le_bytes(content.len() as u64);
    assert(record.subrange(0, 8) =~= length);
    assert(record.subrange(8, HEADER_SIZE as int) =~= region_digest(content));
    assert(encoding(content).take(HEADER_SIZE as int) =~= record);
    assert(encoding(content).skip(HEADER_SIZE as int) =~= encoded_region(content));
}

/// Appends `bytes` to `out`.
fn append(out: &mut Vec<u8>, bytes: &[u8])
    ensures
        final(out)@ == old(out)@ + bytes@,
{
    out.extend_from_slice(bytes);
    assert(out@ =~= old(out)@ + bytes@);
}

/// Encodes one region and computes the digest under which its parent holds
/// it.
fn encode_region(content: &[u8]) -> (encoded: (Vec<u8>, Digest))
    ensures
        encoded.0@ == encoded_region(content@),
        encoded.1@ == region_digest(content@),
    decreases content@.len(),
{
    if content.len() <= CHUNK_SIZE {
        return (slice_to_vec(content), hash(content));
    }
    proof {
        lemma_left_len(content@.len());
    }
    let left_len: usize = left_subregion_len(content.len() as u64) as usize;
    let (left_encoded, left_hash) = encode_region(slice_subrange(content, 0, left_len));
    let (right_encoded, right_hash) = encode_region(
        slice_subrange(content, left_len, content.len()),
    );
    let mut out: Vec<u8> = Vec::new();
    append(&mut out, left_hash.as_slice());
    append(&mut out, right_hash.as_slice());
    assert(out@ =~= node_record(content@));
    let node_hash: Digest = hash(out.as_slice());
    append(&mut out, left_encoded.as_slice());
    append(&mut out, right_encoded.as_slice());
    (out, node_hash)
}

/// Encodes `content`. Returns the encoded stream and the digest of its
/// header record, with which a decoder is made.
pub fn encode(content: &[u8]) -> (encoded: (Vec<u8>, Digest))
    ensures
        encoded.0@ == encoding(content@),
        encoded.1@ == header_digest(content@),
{
    let (tree, root_hash) = encode_region(content);
    let mut out: Vec<u8> = u64_to_le_bytes(content.len() as u64);
    append(&mut out, root_hash.as_slice());
    let header_hash: Digest = hash(out.as_slice());
    append(&mut out, tree.as_slice());
    (out, header_hash)
}

} // verus!
