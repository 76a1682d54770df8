//! A stream in which one byte was changed.

use vstd::prelude::*;

use crate::decoder::{lemma_enclosing, lemma_unwind, DecoderView, StateView};
use crate::feeding::lemma_mismatch;
use crate::hash::digest_of;
use crate::inorder::{cursor, in_order, lemma_step_in_order};
use crate::layout::{
    encoded_len, left_len, lemma_encoded_len, lemma_encoded_len_monotonic, lemma_left_len,
};
use crate::node::{lemma_halves, lemma_split, split, NodeView, RegionView};
use crate::roundtrip::{
    encodable, lemma_enclosing_describes, lemma_fresh_tracks, lemma_node_in_stream, lemma_step,
    pending, tracks,
};
use crate::simple::{encoding, header_digest, lemma_header_record};
use crate::stream::{
    drive, handed, lemma_drive_step, lemma_needs_nothing, lemma_progress, span, unread, window,
    Run,
};
use crate::{Error, CHUNK_SIZE, HEADER_SIZE, NODE_SIZE};

verus! {

/// Within the encoding of a region of `len` content bytes, the offset and
/// the length of the record that holds the byte at offset `at`: the chunk,
/// the region's node record, or a record of one of its two halves.
pub open spec fn record_in_region(len: nat, at: nat) -> (nat, nat)
    decreases len,
{
    if len <= CHUNK_SIZE {
        (0, len)
    } else if at < NODE_SIZE {
        (0, NODE_SIZE as nat)
    } else {
        proof {
            lemma_left_len(len);
        }
        let left = left_len(len);
        let right_at = NODE_SIZE as nat + encoded_len(left);
        if at < right_at {
            let inner = record_in_region(left, (at - NODE_SIZE) as nat);
            (NODE_SIZE as nat + inner.0, inner.1)
        } else {
            let inner = record_in_region((len - left) as nat, (at - right_at) as nat);
            (right_at + inner.0, inner.1)
        }
    }
}

/// Within the encoded stream of content of `content_len` bytes, the offset
/// and the length of the record that holds the byte at offset `at`.
pub open spec fn record_at(content_len: nat, at: nat) -> (nat, nat) {
    if at < HEADER_SIZE {
        (0, HEADER_SIZE as nat)
    } else {
        let inner = record_in_region(content_len, (at - HEADER_SIZE) as nat);
        (HEADER_SIZE as nat + inner.0, inner.1)
    }
}

/// Whether `shorter` is what `longer` begins with.
pub open spec fn is_prefix(shorter: Seq<u8>, longer: Seq<u8>) -> bool {
    shorter.len() <= longer.len() && shorter == longer.take(shorter.len() as int)
}

/// Whether a run has ended with [`Error::HashMismatch`] at the record of
/// the stream that begins at `record.0` and is `record.1` bytes long, which
/// is what its decoder still asks for, and has handed out nothing but a
/// prefix of `pending`.
pub open spec fn stops_at_record(run: Run, pending: Seq<u8>, record: (nat, nat)) -> bool {
    &&& run.error == Some(Error::HashMismatch)
    &&& is_prefix(run.output, pending)
    &&& run.decoder.needed().0 == record.0
    &&& run.decoder.needed().1 == record.1
}

/// Whether the record of the stream that holds offset `at` is, where `at`
/// lies in the encoding of `region`, the record that holds it there.
pub open spec fn locates(region: RegionView, content_len: nat, at: nat) -> bool {
    region.encoded_offset <= at < region.encoded_end() ==> {
        let inner = record_in_region(region.len(), (at - region.encoded_offset) as nat);
        record_at(content_len, at) == (region.encoded_offset as nat + inner.0, inner.1)
    }
}

/// Whether every region on the decoder's stack locates `at`.
pub open spec fn aims(decoder: DecoderView, content_len: nat, at: nat) -> bool {
    forall|i: int|
        0 <= i < decoder.stack.len() ==> locates(
            (#[trigger] decoder.stack[i]).left,
            content_len,
            at,
        ) && locates(decoder.stack[i].right, content_len, at)
}

/// The two halves of a region that locates `at` locate it.
proof fn lemma_halves_locate(node: NodeView, parent: RegionView, content_len: nat, at: nat)
    requires
        node.halves(parent),
        locates(parent, content_len, at),
    ensures
        locates(node.left, content_len, at),
        locates(node.right, content_len, at),
{
    lemma_halves(node, parent);
    lemma_left_len(parent.len());
}

/// A step on the range asked for leaves a decoder aimed at `at`.
proof fn lemma_step_aims(decoder: DecoderView, content: Seq<u8>, at: nat)
    requires
        encodable(content),
        tracks(decoder, content),
        aims(decoder, content.len(), at),
        decoder.needed().1 != 0,
    ensures
        aims(
            decoder.feed(window(encoding(content), decoder.needed().0, decoder.needed().1)).1,
            content.len(),
            at,
        ),
{
    let needed = decoder.needed();
    let truth = window(encoding(content), needed.0, needed.1);
    let next = decoder.feed(truth).1;
    match decoder.state() {
        StateView::Chunk(region) => {
            lemma_unwind(decoder.stack, region.end);
            assert forall|i: int| 0 <= i < next.stack.len() implies locates(
                (#[trigger] next.stack[i]).left,
                content.len(),
                at,
            ) && locates(next.stack[i].right, content.len(), at) by {
                assert(next.stack[i] == decoder.stack[i]);
            }
        },
        StateView::Node(region) => {
            lemma_enclosing_locates(decoder, content, at);
            lemma_enclosing(decoder);
            lemma_enclosing_describes(decoder, content);
            lemma_node_in_stream(region, content);
            lemma_split(region, truth);
            let node = split(region, truth).unwrap();
            lemma_halves_locate(node, region, content.len(), at);
            assert forall|i: int| 0 <= i < next.stack.len() implies locates(
                (#[trigger] next.stack[i]).left,
                content.len(),
                at,
            ) && locates(next.stack[i].right, content.len(), at) by {
                if i < decoder.stack.len() {
                    assert(next.stack[i] == decoder.stack[i]);
                }
            }
        },
        _ => {},
    }
}

/// The record that a decoder reading in order asks for is the record of
/// the stream that holds `at`, where `at` lies in the range asked for.
proof fn lemma_asks_for_record(decoder: DecoderView, content: Seq<u8>, at: nat)
    requires
        encodable(content),
        in_order(decoder, content),
        aims(decoder, content.len(), at),
        decoder.needed().0 <= at < decoder.needed().0 + decoder.needed().1,
    ensures
        record_at(content.len(), at) == (decoder.needed().0 as nat, decoder.needed().1 as nat),
{
    lemma_encoded_len_monotonic(content.len(), content.len());
    lemma_header_record(content);
    if decoder.header is Some {
        lemma_enclosing(decoder);
        lemma_enclosing_describes(decoder, content);
        lemma_encoded_len(decoder.enclosing().len());
        lemma_enclosing_locates(decoder, content, at);
    }
}

/// A decoder that reads in order and is fed the changed record answers
/// [`Error::HashMismatch`].
proof fn lemma_changed_record(decoder: DecoderView, content: Seq<u8>, at: nat, byte: u8)
    requires
        encodable(content),
        in_order(decoder, content),
        aims(decoder, content.len(), at),
        decoder.needed().0 <= at < decoder.needed().0 + decoder.needed().1,
        digest_differs(content, at, byte),
    ensures
        decoder.feed(
            window(
                encoding(content).update(at as int, byte),
                decoder.needed().0,
                decoder.needed().1,
            ),
        ).0 == Err::<(usize, Option<Seq<u8>>), Error>(Error::HashMismatch),
{
    let stream = encoding(content);
    let tampered = stream.update(at as int, byte);
    let needed = decoder.needed();
    let truth = window(stream, needed.0, needed.1);
    let input = window(tampered, needed.0, needed.1);
    lemma_step_in_order(decoder, content);
    lemma_step(decoder, content);
    lemma_asks_for_record(decoder, content, at);
    lemma_mismatch(decoder, truth);
    lemma_mismatch(decoder, input);
    assert(truth.take(needed.1 as int) =~= truth);
    assert(input.take(needed.1 as int) =~= input);
    assert(truth == stream.subrange(needed.0 as int, needed.0 + needed.1));
    assert(input == tampered.subrange(needed.0 as int, needed.0 + needed.1));
}

/// A change at `at` does not show in a range that ends at or before `at`.
proof fn lemma_window_before(stream: Seq<u8>, at: nat, byte: u8, offset: u64, size: usize)
    requires
        offset + size <= at < stream.len(),
    ensures
        window(stream.update(at as int, byte), offset, size) == window(stream, offset, size),
{
    assert(window(stream.update(at as int, byte), offset, size) =~= window(stream, offset, size));
}

/// What begins with a prefix of another sequence, behind a common start, is
/// a prefix of what begins with that sequence.
proof fn lemma_prefix_behind(start: Seq<u8>, shorter: Seq<u8>, longer: Seq<u8>)
    requires
        is_prefix(shorter, longer),
    ensures
        is_prefix(start + shorter, start + longer),
{
    assert((start + shorter) =~= (start + longer).take((start + shorter).len() as int));
}

/// A tampered stream, read in order. Let the decoder read the encoding of
/// `content` in order and stand at or before the offset `at`, where the
/// stream holds `byte` in place of the true byte, and let the record that
/// holds `at` have another digest for it. Then the run ends with
/// [`Error::HashMismatch`], and what it handed out before is a prefix of
/// what was pending.
proof fn lemma_tampered_drive(decoder: DecoderView, content: Seq<u8>, at: nat, byte: u8)
    requires
        encodable(content),
        in_order(decoder, content),
        aims(decoder, content.len(), at),
        cursor(decoder, content) <= at < encoding(content).len(),
        digest_differs(content, at, byte),
    ensures
        stops_at_record(
            drive(decoder, encoding(content).update(at as int, byte)),
            pending(decoder, content),
            record_at(content.len(), at),
        ),
    decreases
            (if decoder.header is None {
                1nat
            } else {
                0nat
            }),
            unread(decoder),
            span(decoder),
{
    let stream = encoding(content);
    let tampered = stream.update(at as int, byte);
    let needed = decoder.needed();
    let truth = window(stream, needed.0, needed.1);
    lemma_needs_nothing(decoder);
    lemma_step_in_order(decoder, content);
    lemma_drive_step(decoder, tampered);
    if at < needed.0 + needed.1 {
        lemma_changed_record(decoder, content, at, byte);
        lemma_asks_for_record(decoder, content, at);
        assert(pending(decoder, content).take(0) =~= Seq::<u8>::empty());
    } else {
        lemma_window_before(stream, at, byte, needed.0, needed.1);
        let next = decoder.feed(truth).1;
        lemma_step(decoder, content);
        lemma_progress(decoder, truth);
        lemma_step_aims(decoder, content, at);
        lemma_tampered_drive(next, content, at, byte);
        lemma_prefix_behind(
            handed(decoder.feed(truth).0),
            drive(next, tampered).output,
            pending(next, content),
        );
    }
}

/// In a decoder that has the header of `content`, the region that encloses
/// the position locates `at`.
proof fn lemma_enclosing_locates(decoder: DecoderView, content: Seq<u8>, at: nat)
    requires
        encodable(content),
        tracks(decoder, content),
        aims(decoder, content.len(), at),
        decoder.header is Some,
    ensures
        locates(decoder.enclosing(), content.len(), at),
{
    lemma_encoded_len_monotonic(content.len(), content.len());
    lemma_header_record(content);
    if decoder.stack.len() > 0 {
        assert(locates(decoder.stack[decoder.stack.len() - 1].left, content.len(), at));
    }
}

/// Whether the record of the encoding of `content` that holds offset `at`
/// gets another digest when `byte` is put at `at`.
pub open spec fn digest_differs(content: Seq<u8>, at: nat, byte: u8) -> bool {
    let record = record_at(content.len(), at);
    let stream = encoding(content);
    let (from, to) = (record.0 as int, (record.0 + record.1) as int);
    digest_of(stream.update(at as int, byte).subrange(from, to))@ != digest_of(
        stream.subrange(from, to),
    )@
}

/// Tampering. Let one byte of the encoding of `content` be changed, and
/// let the change show in the digest of the record that holds the byte.
/// Then a decoder made with the true header digest and fed from the changed
/// stream what it asks for hands out no byte that is not a byte of
/// `content` at its place, and stops with [`Error::HashMismatch`] at the
/// record that holds the changed byte: the first call that fails, and the
/// last one made.
pub proof fn lemma_tamper_detected(content: Seq<u8>, at: nat, byte: u8)
    requires
        encodable(content),
        at < encoding(content).len(),
        digest_differs(content, at, byte),
    ensures
        stops_at_record(
            drive(
                DecoderView::fresh(header_digest(content)),
                encoding(content).update(at as int, byte),
            ),
            content,
            record_at(content.len(), at),
        ),
{
    let decoder = DecoderView::fresh(header_digest(content));
    lemma_fresh_tracks(content);
    lemma_tampered_drive(decoder, content, at, byte);
    assert(pending(decoder, content) =~= content);
}

} // verus!
