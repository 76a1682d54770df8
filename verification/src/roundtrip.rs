//! Decoding what was encoded: a decoder that is fed the encoding of some
//! content hands out that content, from the start or from any position it
//! was sent to.

use vstd::prelude::*;

use crate::decoder::{
    lemma_enclosing, lemma_feed_wf, lemma_seek_wf, lemma_unwind, DecoderView, StateView,
};
use crate::layout::{encoded_len, left_len, lemma_encoded_len_monotonic, lemma_left_len};
use crate::node::{header_region, lemma_halves, lemma_split, split, RegionView};
use crate::simple::{
    encoded_region, encoding, header_digest, header_record, lemma_encoded_region_len,
    lemma_header_record, node_record, region_digest,
};
use crate::stream::{drive, handed, lemma_drive_step, lemma_progress, span, unread, window, Run};
use crate::unverified::checked_prefix;
use crate::{HEADER_SIZE, NODE_SIZE};

verus! {

/// Whether every offset in the encoding of `content` fits in a `u64`. Of
/// longer content no decoder reads further than the header.
pub open spec fn encodable(content: Seq<u8>) -> bool {
    HEADER_SIZE + encoded_len(content.len()) <= u64::MAX
}

/// Whether `region` is a region of the tree of `content`: it has the digest
/// of its bytes, and the stream holds their encoding at its offset.
pub open spec fn describes(region: RegionView, content: Seq<u8>) -> bool {
    let bytes = content.subrange(region.start as int, region.end as int);
    &&& region.start <= region.end <= content.len()
    &&& region.hash == region_digest(bytes)
    &&& region.encoded_end() <= encoding(content).len()
    &&& encoding(content).subrange(region.encoded_offset as int, region.encoded_end() as int)
        == encoded_region(bytes)
}

/// Whether the decoder is on its way through the encoding of `content`: it
/// was made with the digest of that header, and what it holds of the tree
/// is the tree of `content`.
pub open spec fn tracks(decoder: DecoderView, content: Seq<u8>) -> bool {
    &&& decoder.wf()
    &&& decoder.header_hash == header_digest(content)
    &&& decoder.header is Some ==> decoder.header.unwrap() == header_region(
        header_record(content),
    )
    &&& forall|i: int|
        0 <= i < decoder.stack.len() ==> describes((#[trigger] decoder.stack[i]).left, content)
            && describes(decoder.stack[i].right, content)
}

/// The content that the decoder has yet to hand out: all from its position
/// on.
pub open spec fn pending(decoder: DecoderView, content: Seq<u8>) -> Seq<u8> {
    if decoder.position <= content.len() {
        content.skip(decoder.position as int)
    } else {
        Seq::empty()
    }
}

/// The root region that the header record gives is a region of the tree.
pub proof fn lemma_root_describes(content: Seq<u8>)
    requires
        encodable(content),
    ensures
        describes(header_region(header_record(content)), content),
{
    lemma_encoded_len_monotonic(content.len(), content.len());
    lemma_encoded_region_len(content);
    lemma_header_record(content);
    let root = header_region(header_record(content));
    assert(content.subrange(0, content.len() as int) =~= content);
    assert(encoding(content).subrange(HEADER_SIZE as int, root.encoded_end() as int)
        =~= encoded_region(content));
}

/// A leaf of the tree stands in the stream as it is, and has the digest
/// that its region holds.
pub proof fn lemma_chunk_in_stream(region: RegionView, content: Seq<u8>)
    requires
        describes(region, content),
        region.is_chunk(),
    ensures
        window(encoding(content), region.encoded_offset, region.len() as usize)
            == content.subrange(region.start as int, region.end as int),
        checked_prefix(
            content.subrange(region.start as int, region.end as int),
            region.len(),
            region.hash,
        ) == Ok::<Seq<u8>, crate::Error>(content.subrange(region.start as int, region.end as int)),
{
    let bytes = content.subrange(region.start as int, region.end as int);
    assert(bytes.take(region.len() as int) =~= bytes);
}

/// The node record of an inner region of the tree stands in the stream at
/// the region's offset, it has the digest that the region holds, and the
/// two children that it gives are regions of the tree.
pub proof fn lemma_node_in_stream(region: RegionView, content: Seq<u8>)
    requires
        encodable(content),
        describes(region, content),
        !region.is_chunk(),
    ensures
        window(encoding(content), region.encoded_offset, NODE_SIZE).len() == NODE_SIZE,
        checked_prefix(
            window(encoding(content), region.encoded_offset, NODE_SIZE),
            NODE_SIZE as nat,
            region.hash,
        ) == Ok::<Seq<u8>, crate::Error>(
            window(encoding(content), region.encoded_offset, NODE_SIZE),
        ),
        split(region, window(encoding(content), region.encoded_offset, NODE_SIZE)) is Some,
        describes(
            split(region, window(encoding(content), region.encoded_offset, NODE_SIZE)).unwrap().left,
            content,
        ),
        describes(
            split(
                region,
                window(encoding(content), region.encoded_offset, NODE_SIZE),
            ).unwrap().right,
            content,
        ),
{
    let stream = encoding(content);
    let bytes = content.subrange(region.start as int, region.end as int);
    let cut = left_len(bytes.len()) as int;
    let record = window(stream, region.encoded_offset, NODE_SIZE);
    lemma_encoded_len_monotonic(content.len(), content.len());
    lemma_header_record(content);
    lemma_left_len(bytes.len());
    lemma_encoded_region_len(bytes);
    lemma_encoded_region_len(bytes.take(cut));
    lemma_encoded_region_len(bytes.skip(cut));
    let encoded = encoded_region(bytes);
    assert(encoded == node_record(bytes) + encoded_region(bytes.take(cut)) + encoded_region(
        bytes.skip(cut),
    ));
    assert(record =~= node_record(bytes)) by {
        assert forall|i: int| 0 <= i < NODE_SIZE implies record[i] == node_record(bytes)[i] by {
            assert(stream.subrange(
                region.encoded_offset as int,
                region.encoded_end() as int,
            )[i] == encoded[i]);
        }
    }
    assert(record.take(NODE_SIZE as int) =~= record);
    let node = split(region, record).unwrap();
    lemma_split(region, record);
    lemma_halves(node, region);
    assert(node.left.hash =~= region_digest(bytes.take(cut)));
    assert(node.right.hash =~= region_digest(bytes.skip(cut)));
    assert(content.subrange(node.left.start as int, node.left.end as int) =~= bytes.take(cut));
    assert(content.subrange(node.right.start as int, node.right.end as int) =~= bytes.skip(cut));
    assert(stream.subrange(node.left.encoded_offset as int, node.left.encoded_end() as int)
        =~= encoded_region(bytes.take(cut))) by {
        assert forall|i: int| 0 <= i < encoded_len(cut as nat) implies stream.subrange(
            node.left.encoded_offset as int,
            node.left.encoded_end() as int,
        )[i] == encoded_region(bytes.take(cut))[i] by {
            assert(stream.subrange(
                region.encoded_offset as int,
                region.encoded_end() as int,
            )[NODE_SIZE + i] == encoded[NODE_SIZE + i]);
        }
    }
    assert(stream.subrange(node.right.encoded_offset as int, node.right.encoded_end() as int)
        =~= encoded_region(bytes.skip(cut))) by {
        let before = NODE_SIZE + encoded_len(cut as nat);
        assert forall|i: int| 0 <= i < encoded_len((bytes.len() - cut) as nat) implies stream.subrange(
            node.right.encoded_offset as int,
            node.right.encoded_end() as int,
        )[i] == encoded_region(bytes.skip(cut))[i] by {
            assert(stream.subrange(
                region.encoded_offset as int,
                region.encoded_end() as int,
            )[before + i] == encoded[before + i]);
        }
    }
}

/// In a decoder on its way through the encoding of `content`, the region
/// that encloses the position is a region of the tree.
pub proof fn lemma_enclosing_describes(decoder: DecoderView, content: Seq<u8>)
    requires
        encodable(content),
        tracks(decoder, content),
        decoder.header is Some,
    ensures
        describes(decoder.enclosing(), content),
        decoder.header.unwrap().end == content.len(),
{
    lemma_encoded_len_monotonic(content.len(), content.len());
    lemma_header_record(content);
    lemma_root_describes(content);
    if decoder.stack.len() > 0 {
        assert(describes(decoder.stack[decoder.stack.len() - 1].left, content));
    }
}

/// A seek leaves the decoder on its way through the encoding.
pub proof fn lemma_seek_tracks(decoder: DecoderView, content: Seq<u8>, position: u64)
    requires
        tracks(decoder, content),
    ensures
        tracks(decoder.seek(position), content),
{
    lemma_seek_wf(decoder, position);
    lemma_unwind(decoder.stack, position);
    let sought = decoder.seek(position);
    assert forall|i: int| 0 <= i < sought.stack.len() implies describes(
        (#[trigger] sought.stack[i]).left,
        content,
    ) && describes(sought.stack[i].right, content) by {
        assert(sought.stack[i] == decoder.stack[i]);
    }
}

/// A decoder that has read nothing is on its way through the encoding of
/// the content with whose header digest it was made.
pub proof fn lemma_fresh_tracks(content: Seq<u8>)
    ensures
        tracks(DecoderView::fresh(header_digest(content)), content),
{
}

/// Fed the range of the encoding that it asks for, the decoder accepts it,
/// stays on its way through the encoding, and hands out the content from
/// its position up to its new position.
pub proof fn lemma_step(decoder: DecoderView, content: Seq<u8>)
    requires
        encodable(content),
        tracks(decoder, content),
        decoder.needed().1 != 0,
    ensures
        ({
            let needed = decoder.needed();
            let step = decoder.feed(window(encoding(content), needed.0, needed.1));
            &&& step.0 is Ok
            &&& tracks(step.1, content)
            &&& handed(step.0) + pending(step.1, content) == pending(decoder, content)
        }),
{
    let stream = encoding(content);
    let needed = decoder.needed();
    let input = window(stream, needed.0, needed.1);
    let step = decoder.feed(input);
    lemma_encoded_len_monotonic(content.len(), content.len());
    lemma_header_record(content);
    lemma_feed_wf(decoder, input);
    match decoder.state() {
        StateView::NoHeader => {
            assert(input =~= header_record(content));
            assert(input.take(HEADER_SIZE as int) =~= input);
            assert(handed(step.0) + pending(step.1, content) =~= pending(decoder, content));
        },
        StateView::Eof => {},
        StateView::Chunk(region) => {
            lemma_enclosing(decoder);
            lemma_enclosing_describes(decoder, content);
            lemma_chunk_in_stream(region, content);
            lemma_seek_tracks(decoder, content, region.end);
            assert(handed(step.0) + pending(step.1, content) =~= pending(decoder, content));
        },
        StateView::Node(region) => {
            lemma_enclosing(decoder);
            lemma_enclosing_describes(decoder, content);
            lemma_node_in_stream(region, content);
            let node = split(region, input).unwrap();
            assert forall|i: int| 0 <= i < step.1.stack.len() implies describes(
                (#[trigger] step.1.stack[i]).left,
                content,
            ) && describes(step.1.stack[i].right, content) by {
                if i < decoder.stack.len() {
                    assert(step.1.stack[i] == decoder.stack[i]);
                }
            }
            assert(handed(step.0) + pending(step.1, content) =~= pending(decoder, content));
        },
    }
}

/// Whether a run has handed out `output` and has ended without an error,
/// with a decoder that needs nothing more and is still on its way through
/// the encoding of `content`.
pub open spec fn completes(run: Run, output: Seq<u8>, content: Seq<u8>) -> bool {
    &&& run.output == output
    &&& run.error is None
    &&& run.decoder.needed().1 == 0
    &&& tracks(run.decoder, content)
}

/// A decoder on its way through the encoding of `content`, fed what it asks
/// for until it needs nothing, hands out the content from its position on
/// and meets no error.
pub proof fn lemma_drive(decoder: DecoderView, content: Seq<u8>)
    requires
        encodable(content),
        tracks(decoder, content),
    ensures
        completes(drive(decoder, encoding(content)), pending(decoder, content), content),
        decoder.position <= content.len() ==> drive(decoder, encoding(content)).decoder.position
            == content.len(),
    decreases
            (if decoder.header is None {
                1nat
            } else {
                0nat
            }),
            unread(decoder),
            span(decoder),
{
    let needed = decoder.needed();
    lemma_drive_step(decoder, encoding(content));
    if needed.1 == 0 {
        if decoder.in_range(decoder.position) {
            lemma_enclosing(decoder);
        }
        lemma_enclosing_describes(decoder, content);
        assert(pending(decoder, content) =~= Seq::<u8>::empty());
    } else {
        let input = window(encoding(content), needed.0, needed.1);
        lemma_step(decoder, content);
        lemma_progress(decoder, input);
        lemma_drive(decoder.feed(input).1, content);
        if decoder.in_range(decoder.position) {
            lemma_enclosing(decoder);
            lemma_enclosing_describes(decoder, content);
        }
    }
}

/// Round trip. A decoder made with the header digest of `content` and fed
/// from the encoding of `content` just what it asks for, until it needs
/// nothing, hands out `content`, all of it and in order, meets no error,
/// and ends at the end of the content.
pub proof fn lemma_round_trip(content: Seq<u8>)
    requires
        encodable(content),
    ensures
        completes(
            drive(DecoderView::fresh(header_digest(content)), encoding(content)),
            content,
            content,
        ),
        drive(DecoderView::fresh(header_digest(content)), encoding(content)).decoder.position
            == content.len(),
{
    let decoder = DecoderView::fresh(header_digest(content));
    lemma_fresh_tracks(content);
    lemma_drive(decoder, content);
    assert(pending(decoder, content) =~= content);
}

/// Seek. A decoder on its way through the encoding of `content`, one that
/// has read nothing yet or any later one, that is sent to a position in the
/// content or at its end and then fed what it asks for, hands out the
/// content from that position on. The nodes on its stack that contain the
/// position stay there and are not read again.
pub proof fn lemma_seek_then_drive(decoder: DecoderView, content: Seq<u8>, position: u64)
    requires
        encodable(content),
        tracks(decoder, content),
        position <= content.len(),
    ensures
        completes(
            drive(decoder.seek(position), encoding(content)),
            content.skip(position as int),
            content,
        ),
        forall|i: int|
            0 <= i < decoder.stack.len() && (#[trigger] decoder.stack[i]).contains(position) ==> i
                < decoder.seek(position).stack.len() && decoder.seek(position).stack[i]
                == decoder.stack[i],
{
    lemma_seek_tracks(decoder, content, position);
    lemma_drive(decoder.seek(position), content);
    lemma_unwind(decoder.stack, position);
}

} // verus!
