//! Input whose bytes can be had only together with a check of their digest.

use vstd::prelude::*;
use vstd::slice::slice_subrange;

use crate::hash::{digest_of, verify};
use crate::{Digest, Error};

verus! {

/// A buffer of bytes that nobody has checked yet. The one way to its bytes is
/// [`Unverified::read_verify`], which hands out a prefix only after it has
/// compared the prefix with a digest.
#[derive(Debug, Clone, Copy)]
pub struct Unverified<'a> {
    bytes: &'a [u8],
}

/// What [`Unverified::read_verify`] gives for the bytes `input`, a length and
/// a digest: the first `len` bytes where there are that many and they have
/// the digest `expected`.
pub open spec fn checked_prefix(input: Seq<u8>, len: nat, expected: Seq<u8>) -> Result<
    Seq<u8>,
    Error,
> {
    if input.len() < len {
        Err(Error::ShortInput)
    } else if digest_of(input.take(len as int))@ != expected {
        Err(Error::HashMismatch)
    } else {
        Ok(input.take(len as int))
    }
}

impl<'a> View for Unverified<'a> {
    type V = Seq<u8>;

    /// The bytes that have not been read yet.
    closed spec fn view(&self) -> Seq<u8> {
        self.bytes@
    }
}

impl<'a> Unverified<'a> {
    /// Wraps a buffer.
    pub fn wrap(bytes: &'a [u8]) -> (wrapped: Self)
        ensures
            wrapped@ == bytes@,
    {
        Unverified { bytes }
    }

    /// Number of bytes that have not been read yet.
    pub fn len(&self) -> (len: usize)
        ensures
            len == self@.len(),
    {
        self.bytes.len()
    }

    /// Takes the first `len` bytes off the buffer, provided that they have
    /// the digest `hash`. On an error the buffer is left as it was.
    pub fn read_verify(&mut self, len: usize, hash: &Digest) -> (read: Result<&'a [u8], Error>)
        ensures
            match read {
                Ok(bytes) => {
                    &&& checked_prefix(old(self)@, len as nat, hash@) == Ok::<Seq<u8>, Error>(
                        bytes@,
                    )
                    &&& final(self)@ == old(self)@.skip(len as int)
                },
                Err(e) => {
                    &&& checked_prefix(old(self)@, len as nat, hash@) == Err::<Seq<u8>, Error>(e)
                    &&& final(self)@ == old(self)@
                },
            },
    {
        if self.bytes.len() < len {
            return Err(Error::ShortInput);
        }
        let prefix: &'a [u8] = slice_subrange(self.bytes, 0, len);
        if !verify(prefix, hash) {
            return Err(Error::HashMismatch);
        }
        self.bytes = slice_subrange(self.bytes, len, self.bytes.len());
        Ok(prefix)
    }
}

} // verus!
