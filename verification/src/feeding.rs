//! What one call of `feed` does with too few bytes and with too many.

use vstd::prelude::*;

use crate::decoder::{lemma_enclosing, DecoderView, Fed, StateView};
use crate::hash::digest_of;
use crate::Error;

verus! {

/// What a caller gets who feeds the first `len` bytes of `stream` and, as
/// long as the decoder answers [`Error::ShortInput`] and the stream has more,
/// feeds one byte more.
pub open spec fn feed_growing(decoder: DecoderView, stream: Seq<u8>, len: nat) -> (
    Fed,
    DecoderView,
)
    decreases stream.len() - len,
{
    let tried = decoder.feed(stream.take(len as int));
    if tried.0 == Err::<(usize, Option<Seq<u8>>), Error>(Error::ShortInput) && len < stream.len() {
        feed_growing(decoder, stream, len + 1)
    } else {
        tried
    }
}

/// Fed fewer bytes than it needs, the decoder answers [`Error::ShortInput`]
/// and stays as it was.
pub proof fn lemma_short_feed(decoder: DecoderView, input: Seq<u8>)
    requires
        decoder.wf(),
        input.len() < decoder.needed().1,
    ensures
        decoder.feed(input) == (
            Err::<(usize, Option<Seq<u8>>), Error>(Error::ShortInput),
            decoder,
        ),
{
    if decoder.in_range(decoder.position) {
        lemma_enclosing(decoder);
    }
}

/// Fed at least as many bytes as it needs, the decoder does what it does
/// with the needed bytes alone: what follows them plays no part. It never
/// consumes more than it needs, and on success it consumes just that.
pub proof fn lemma_overfeed(decoder: DecoderView, input: Seq<u8>)
    requires
        decoder.wf(),
        input.len() >= decoder.needed().1,
    ensures
        decoder.feed(input) == decoder.feed(input.take(decoder.needed().1 as int)),
        match decoder.feed(input).0 {
            Ok((consumed, _)) => consumed == decoder.needed().1,
            Err(e) => e != Error::ShortInput,
        },
{
    if decoder.in_range(decoder.position) {
        lemma_enclosing(decoder);
    }
    let needed = decoder.needed().1 as int;
    assert(input.take(needed).take(needed) =~= input.take(needed));
}

/// The digest against which the decoder checks the record that it reads
/// next.
pub open spec fn expected_digest(decoder: DecoderView) -> Seq<u8> {
    match decoder.state() {
        StateView::Chunk(region) => region.hash,
        StateView::Node(region) => region.hash,
        _ => decoder.header_hash,
    }
}

/// The decoder answers [`Error::HashMismatch`] just where it needs
/// something, is fed that much or more, and what it needs of that does not
/// have the digest that it expects. It then stays as it was.
pub proof fn lemma_mismatch(decoder: DecoderView, input: Seq<u8>)
    requires
        decoder.wf(),
    ensures
        decoder.feed(input).0 == Err::<(usize, Option<Seq<u8>>), Error>(Error::HashMismatch) <==> {
            &&& decoder.needed().1 != 0
            &&& input.len() >= decoder.needed().1
            &&& digest_of(input.take(decoder.needed().1 as int))@ != expected_digest(decoder)
        },
        decoder.feed(input).0 is Err ==> decoder.feed(input).1 == decoder,
{
    if decoder.in_range(decoder.position) {
        lemma_enclosing(decoder);
    }
}

/// A caller who starts with too few bytes of a stream that holds enough,
/// and feeds one byte more after each [`Error::ShortInput`], ends with what
/// a caller gets who feeds the needed bytes at once.
pub proof fn lemma_feed_growing(decoder: DecoderView, stream: Seq<u8>, len: nat)
    requires
        decoder.wf(),
        len <= decoder.needed().1 <= stream.len(),
    ensures
        feed_growing(decoder, stream, len) == decoder.feed(
            stream.take(decoder.needed().1 as int),
        ),
        feed_growing(decoder, stream, len) == decoder.feed(stream),
    decreases decoder.needed().1 - len,
{
    lemma_overfeed(decoder, stream);
    if len < decoder.needed().1 {
        lemma_short_feed(decoder, stream.take(len as int));
        lemma_feed_growing(decoder, stream, len + 1);
    } else {
        lemma_overfeed(decoder, stream.take(len as int));
    }
}

} // verus!
