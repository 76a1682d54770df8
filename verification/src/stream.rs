//! Whole runs of the decoder over an encoded stream.

use vstd::prelude::*;
use vstd::slice::slice_subrange;

use crate::decoder::{
    lemma_descend, lemma_enclosing, lemma_feed_wf, Decoder, DecoderView, Fed, StateView,
};
use crate::node::{lemma_split, split};
use crate::unverified::checked_prefix;
use crate::{Digest, Error, NODE_SIZE};

verus! {

/// How a run ended.
pub struct Run {
    /// The content that was handed out, in order.
    pub output: Seq<u8>,
    /// The error that stopped the run, if one did.
    pub error: Option<Error>,
    /// The decoder as the last call left it.
    pub decoder: DecoderView,
}

impl Run {
    /// A run that ends before its first call, with the decoder as it is.
    pub open spec fn over(decoder: DecoderView, error: Option<Error>) -> Run {
        Run { output: Seq::empty(), error, decoder }
    }

    /// The run that hands out `output` first and then goes on as `self`.
    pub open spec fn behind(self, output: Seq<u8>) -> Run {
        Run { output: output + self.output, ..self }
    }
}

/// The bytes of `stream` in the range that the decoder asked for, as far as
/// the stream holds them.
pub open spec fn window(stream: Seq<u8>, offset: u64, size: usize) -> Seq<u8> {
    let from = if offset <= stream.len() {
        offset as int
    } else {
        stream.len() as int
    };
    let to = if offset + size <= stream.len() {
        offset + size
    } else {
        stream.len() as int
    };
    stream.subrange(from, to)
}

/// The content bytes that a successful call of `feed` handed out.
pub open spec fn handed(fed: Fed) -> Seq<u8> {
    match fed {
        Ok((_, Some(output))) => output,
        _ => Seq::empty(),
    }
}

/// Number of content bytes from the position to the end of the content, 0
/// without a header.
pub open spec fn unread(decoder: DecoderView) -> nat {
    match decoder.header {
        Some(root) => if decoder.position < root.end {
            (root.end - decoder.position) as nat
        } else {
            0
        },
        None => 0,
    }
}

/// Length of the region that encloses the position, 0 where the position
/// does not lie in the content.
pub open spec fn span(decoder: DecoderView) -> nat {
    if decoder.in_range(decoder.position) {
        decoder.enclosing().len()
    } else {
        0
    }
}

/// Every successful call of `feed` that consumes something brings the
/// decoder nearer to the end: it reads the header, or it moves the position
/// forward, or it narrows the region that encloses the position.
pub proof fn lemma_progress(decoder: DecoderView, input: Seq<u8>)
    requires
        decoder.wf(),
        decoder.feed(input).0 is Ok,
        decoder.needed().1 != 0,
    ensures
        decoder.feed(input).1.wf(),
        decoder.feed(input).1.header is Some,
        decoder.header is Some ==> {
            ||| unread(decoder.feed(input).1) < unread(decoder)
            ||| unread(decoder.feed(input).1) == unread(decoder) && span(decoder.feed(input).1)
                < span(decoder)
        },
{
    lemma_feed_wf(decoder, input);
    match decoder.state() {
        StateView::NoHeader => {},
        StateView::Eof => {},
        StateView::Chunk(region) => {
            lemma_enclosing(decoder);
        },
        StateView::Node(region) => {
            let record = checked_prefix(input, NODE_SIZE as nat, region.hash).unwrap();
            lemma_split(region, record);
            lemma_descend(decoder, split(region, record).unwrap());
        },
    }
}

/// The decoder consumes nothing only at the end of the content.
pub proof fn lemma_needs_nothing(decoder: DecoderView)
    requires
        decoder.wf(),
    ensures
        decoder.needed().1 == 0 <==> decoder.state() == StateView::Eof,
        forall|input: Seq<u8>|
            (#[trigger] decoder.feed(input)).0 is Ok ==> (decoder.feed(input).0.unwrap().0
                == decoder.needed().1),
{
    if decoder.in_range(decoder.position) {
        lemma_enclosing(decoder);
    }
}

/// The run of a caller who asks the decoder what it needs, feeds it just
/// that range of `stream`, and goes on until the decoder needs nothing or
/// a call fails.
pub open spec fn drive(decoder: DecoderView, stream: Seq<u8>) -> Run
    decreases
            (if decoder.header is None {
                1nat
            } else {
                0nat
            }),
            unread(decoder),
            span(decoder),
    when decoder.wf()
    via drive_decreases
{
    let needed = decoder.needed();
    if needed.1 == 0 {
        Run::over(decoder, None)
    } else {
        let step = decoder.feed(window(stream, needed.0, needed.1));
        match step.0 {
            Ok(_) => drive(step.1, stream).behind(handed(step.0)),
            Err(e) => Run::over(decoder, Some(e)),
        }
    }
}

#[via_fn]
proof fn drive_decreases(decoder: DecoderView, stream: Seq<u8>) {
    let needed = decoder.needed();
    if needed.1 != 0 {
        let input = window(stream, needed.0, needed.1);
        if decoder.feed(input).0 is Ok {
            lemma_progress(decoder, input);
        }
    }
}

/// One step of [`drive`]: a run begins with what its first call hands out
/// and goes on as the run of the decoder after that call; it ends at once
/// where the decoder needs nothing or the first call fails.
pub proof fn lemma_drive_step(decoder: DecoderView, stream: Seq<u8>)
    requires
        decoder.wf(),
    ensures
        ({
            let needed = decoder.needed();
            let step = decoder.feed(window(stream, needed.0, needed.1));
            drive(decoder, stream) == if needed.1 == 0 {
                Run::over(decoder, None)
            } else {
                match step.0 {
                    Ok(_) => drive(step.1, stream).behind(handed(step.0)),
                    Err(e) => Run::over(decoder, Some(e)),
                }
            }
        }),
{
    let needed = decoder.needed();
    let input = window(stream, needed.0, needed.1);
    if needed.1 != 0 && decoder.feed(input).0 is Ok {
        lemma_progress(decoder, input);
    }
}

/// Decodes a stream that is held in memory: makes a decoder for the header
/// digest `header_hash`, feeds it from `stream` the ranges it asks for, and
/// collects what it hands out, until it needs nothing or a call fails.
///
/// Returns the content where the run meets no error, and the error that
/// stopped it otherwise. Where a range reaches behind the end of the
/// stream, the decoder is fed what there is of it, and answers
/// [`Error::ShortInput`].
pub fn decode(stream: &[u8], header_hash: &Digest) -> (decoded: Result<Vec<u8>, Error>)
    ensures
        match decoded {
            Ok(content) => {
                &&& drive(DecoderView::fresh(header_hash@), stream@).error is None
                &&& drive(DecoderView::fresh(header_hash@), stream@).output == content@
            },
            Err(e) => drive(DecoderView::fresh(header_hash@), stream@).error == Some(e),
        },
{
    let mut decoder = Decoder::new(header_hash);
    let mut output: Vec<u8> = Vec::new();
    loop
        invariant
            decoder@.wf(),
            drive(DecoderView::fresh(header_hash@), stream@) == drive(decoder@, stream@).behind(
                output@,
            ),
        decreases
                (if decoder@.header is None {
                    1nat
                } else {
                    0nat
                }),
                unread(decoder@),
                span(decoder@),
    {
        let (offset, size) = decoder.needed();
        proof {
            lemma_drive_step(decoder@, stream@);
        }
        if size == 0 {
            assert(output@ + Seq::<u8>::empty() =~= output@);
            return Ok(output);
        }
        let from: usize = if offset <= stream.len() as u64 {
            offset as usize
        } else {
            stream.len()
        };
        let to: usize = if size <= stream.len() - from {
            from + size
        } else {
            stream.len()
        };
        let ghost before = decoder@;
        let ghost collected = output@;
        match decoder.feed(slice_subrange(stream, from, to)) {
            Ok((_, handed_out)) => {
                if let Some(bytes) = handed_out {
                    output.extend_from_slice(bytes);
                }
                proof {
                    let input = window(stream@, offset, size);
                    lemma_progress(before, input);
                    assert(output@ =~= collected + handed(before.feed(input).0));
                    assert(collected + (handed(before.feed(input).0) + drive(
                        decoder@,
                        stream@,
                    ).output) =~= output@ + drive(decoder@, stream@).output);
                }
            },
            Err(e) => {
                return Err(e);
            },
        }
    }
}

/// The run of a caller who never asks what the decoder needs: every call
/// gets all that is left of the stream, and the caller moves on by what the
/// call consumed, until a call consumes nothing or fails.
pub open spec fn drive_greedy(decoder: DecoderView, rest: Seq<u8>) -> Run
    decreases
            (if decoder.header is None {
                1nat
            } else {
                0nat
            }),
            unread(decoder),
            span(decoder),
    when decoder.wf()
    via drive_greedy_decreases
{
    let step = decoder.feed(rest);
    match step.0 {
        Ok((consumed, _)) => if consumed == 0 {
            Run::over(decoder, None)
        } else {
            drive_greedy(step.1, rest.skip(consumed as int)).behind(handed(step.0))
        },
        Err(e) => Run::over(decoder, Some(e)),
    }
}

/// One step of [`drive_greedy`].
pub proof fn lemma_drive_greedy_step(decoder: DecoderView, rest: Seq<u8>)
    requires
        decoder.wf(),
    ensures
        ({
            let step = decoder.feed(rest);
            drive_greedy(decoder, rest) == match step.0 {
                Ok((consumed, _)) => if consumed == 0 {
                    Run::over(decoder, None)
                } else {
                    drive_greedy(step.1, rest.skip(consumed as int)).behind(handed(step.0))
                },
                Err(e) => Run::over(decoder, Some(e)),
            }
        }),
{
    lemma_needs_nothing(decoder);
    if decoder.feed(rest).0 is Ok && decoder.needed().1 != 0 {
        lemma_progress(decoder, rest);
    }
}

#[via_fn]
proof fn drive_greedy_decreases(decoder: DecoderView, rest: Seq<u8>) {
    lemma_needs_nothing(decoder);
    if decoder.feed(rest).0 is Ok && decoder.needed().1 != 0 {
        lemma_progress(decoder, rest);
    }
}

} // verus!
