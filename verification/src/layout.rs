//! Where the tree is split, and how long an encoded subtree is.
//!
//! A region of more than [`CHUNK_SIZE`] bytes is split so that its left child
//! is a full binary tree: a power of two of whole chunks, the largest that
//! leaves the right child at least one byte. The encoding of a region is its
//! node record, then the encoding of the left child, then that of the right
//! child; a region of at most `CHUNK_SIZE` bytes is encoded as itself.

use vstd::prelude::*;

use crate::{CHUNK_SIZE, NODE_SIZE};

verus! {

/// The largest power of two that is at most `n`; 1 for `n == 0`.
pub open spec fn pow2_floor(n: nat) -> nat
    decreases n,
{
    if n < 2 {
        1
    } else {
        2 * pow2_floor(n / 2)
    }
}

/// Whether `n` is a power of two.
pub open spec fn is_pow2(n: nat) -> bool
    decreases n,
{
    n == 1 || (n >= 2 && n % 2 == 0 && is_pow2(n / 2))
}

/// Content length of the left child of a region of `len` bytes, for
/// `len > CHUNK_SIZE`.
pub open spec fn left_len(len: nat) -> nat {
    CHUNK_SIZE as nat * pow2_floor(((len - 1) / CHUNK_SIZE as int) as nat)
}

/// Number of bytes in the encoding of a region of `len` content bytes.
pub open spec fn encoded_len(len: nat) -> nat
    decreases len,
{
    if len <= CHUNK_SIZE {
        len
    } else {
        proof {
            lemma_left_len(len);
        }
        let left = left_len(len);
        NODE_SIZE as nat + encoded_len(left) + encoded_len((len - left) as nat)
    }
}

/// `pow2_floor(n)` is a power of two, and for `n >= 1` it is the one with
/// `pow2_floor(n) <= n < 2 * pow2_floor(n)`.
pub proof fn lemma_pow2_floor(n: nat)
    ensures
        is_pow2(pow2_floor(n)),
        n >= 1 ==> pow2_floor(n) <= n < 2 * pow2_floor(n),
    decreases n,
{
    if n >= 2 {
        lemma_pow2_floor(n / 2);
        let half = pow2_floor(n / 2);
        assert((2 * half) / 2 == half);
        assert((2 * half) % 2 == 0);
    }
}

/// The left child is a whole number of chunks, a power of two of them, it is
/// shorter than its parent and at least as long as the right child.
pub proof fn lemma_left_len(len: nat)
    requires
        len > CHUNK_SIZE,
    ensures
        left_len(len) == CHUNK_SIZE * pow2_floor(((len - 1) / CHUNK_SIZE as int) as nat),
        is_pow2(pow2_floor(((len - 1) / CHUNK_SIZE as int) as nat)),
        CHUNK_SIZE <= left_len(len) < len <= 2 * left_len(len),
{
    let chunks = ((len - 1) / CHUNK_SIZE as int) as nat;
    lemma_pow2_floor(chunks);
}

/// The encoding of a region of `len >= 1` bytes holds the content and one
/// node record for each chunk but the first.
pub proof fn lemma_encoded_len(len: nat)
    requires
        len >= 1,
    ensures
        encoded_len(len) == len + NODE_SIZE * ((len - 1) / CHUNK_SIZE as int),
    decreases len,
{
    if len > CHUNK_SIZE {
        lemma_left_len(len);
        let left = left_len(len);
        let right = (len - left) as nat;
        let p = pow2_floor(((len - 1) / CHUNK_SIZE as int) as nat);
        lemma_encoded_len(left);
        lemma_encoded_len(right);
        assert((left - 1) / CHUNK_SIZE as int == p - 1);
        assert((right - 1) / CHUNK_SIZE as int == (len - 1) / CHUNK_SIZE as int - p);
    }
}

/// An encoding is at least as long as its content, and longer regions have
/// longer encodings.
pub proof fn lemma_encoded_len_monotonic(shorter: nat, longer: nat)
    requires
        shorter <= longer,
    ensures
        shorter <= encoded_len(shorter) <= encoded_len(longer),
{
    if shorter >= 1 {
        lemma_encoded_len(shorter);
        lemma_encoded_len(longer);
    } else if longer >= 1 {
        lemma_encoded_len(longer);
    }
}

/// Computes [`left_len`].
pub fn left_subregion_len(len: u64) -> (left: u64)
    requires
        len > CHUNK_SIZE,
    ensures
        left == left_len(len as nat),
{
    let chunks: u64 = (len - 1) / (CHUNK_SIZE as u64);
    let mut rest: u64 = chunks;
    let mut power: u64 = 1;
    while rest >= 2
        invariant
            rest >= 1,
            power >= 1,
            power * rest <= chunks,
            pow2_floor(chunks as nat) == power * pow2_floor(rest as nat),
        decreases rest,
    {
        proof {
            let half = (rest / 2) as nat;
            assert(power * pow2_floor(rest as nat) == (2 * power) * pow2_floor(half))
                by (nonlinear_arith)
                requires
                    pow2_floor(rest as nat) == 2 * pow2_floor(half),
            ;
            assert((2 * power) * half <= power * rest) by (nonlinear_arith)
                requires
                    2 * half <= rest,
                    power >= 1,
            ;
            assert(2 * power <= power * rest) by (nonlinear_arith)
                requires
                    rest >= 2,
                    power >= 1,
            ;
        }
        rest = rest / 2;
        power = 2 * power;
    }
    proof {
        assert(power * 1 == power);
        lemma_pow2_floor(chunks as nat);
    }
    power * (CHUNK_SIZE as u64)
}

/// Computes [`encoded_len`], or `None` where it does not fit in a `u64`.
pub fn encoded_subtree_len(len: u64) -> (total: Option<u64>)
    ensures
        match total {
            Some(n) => n == encoded_len(len as nat),
            None => encoded_len(len as nat) > u64::MAX,
        },
{
    if len == 0 {
        return Some(0);
    }
    proof {
        lemma_encoded_len(len as nat);
    }
    let records: u64 = (len - 1) / (CHUNK_SIZE as u64);
    len.checked_add((NODE_SIZE as u64) * records)
}

} // verus!
