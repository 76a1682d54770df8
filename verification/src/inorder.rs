//! Reading in order: a decoder that is never sent anywhere reads the records
//! of the stream one behind the other, so that a caller may feed it all that
//! is left of the stream and move on by what each call consumed.

use vstd::prelude::*;

use crate::decoder::{
    descends, lemma_enclosing, lemma_link, lemma_path_spans, lemma_seek_keeps_first_node,
    lemma_seek_wf, lemma_unwind, unwind, DecoderView, StateView,
};
use crate::feeding::lemma_overfeed;
use crate::layout::{lemma_encoded_len, lemma_encoded_len_monotonic};
use crate::node::{lemma_halves, lemma_split, split, NodeView, RegionView};
use crate::roundtrip::{
    completes, encodable, lemma_enclosing_describes, lemma_fresh_tracks, lemma_node_in_stream,
    lemma_seek_tracks, lemma_step, pending, tracks,
};
use crate::simple::{encoding, header_digest, lemma_header_record};
use crate::stream::{
    drive_greedy, lemma_drive_greedy_step, lemma_needs_nothing, lemma_progress, span, unread,
    window,
};

verus! {

/// Offset in the stream of the record that the decoder reads next; the
/// length of the stream where it reads no more.
pub open spec fn cursor(decoder: DecoderView, content: Seq<u8>) -> nat {
    match decoder.state() {
        StateView::NoHeader => 0,
        StateView::Eof => encoding(content).len(),
        StateView::Chunk(region) => region.encoded_offset as nat,
        StateView::Node(region) => region.encoded_offset as nat,
    }
}

/// Whether the decoder is on its way through the encoding of `content` and
/// stands where one stands that was never sent anywhere: at offset 0 before
/// the header, at the start of the region that encloses its position, or at
/// the end of the content.
pub open spec fn in_order(decoder: DecoderView, content: Seq<u8>) -> bool {
    &&& tracks(decoder, content)
    &&& match decoder.state() {
        StateView::NoHeader => decoder.position == 0,
        StateView::Eof => decoder.position == content.len(),
        StateView::Chunk(region) => decoder.position == region.start,
        StateView::Node(region) => decoder.position == region.start,
    }
}

/// From the top of the stack down to depth `depth`, let no node contain the
/// content offset `end`, which lies in the top node or at its end. Then all
/// those nodes end at `end`, each is the right half of the one before it,
/// and the encodings of their right halves all end at one offset.
pub proof fn lemma_right_spine(root: RegionView, stack: Seq<NodeView>, depth: int, end: u64)
    requires
        descends(root, stack),
        0 <= depth < stack.len(),
        forall|i: int| depth <= i < stack.len() ==> !(#[trigger] stack[i]).contains(end),
        stack.last().left.start < end <= stack.last().right.end,
    ensures
        stack[depth].right.end == end,
        stack[depth].right.encoded_end() == stack.last().right.encoded_end(),
    decreases stack.len() - depth,
{
    assert(!stack[stack.len() - 1].contains(end));
    if depth < stack.len() - 1 {
        lemma_right_spine(root, stack, depth + 1, end);
        lemma_path_spans(root, stack, depth);
        lemma_link(root, stack, depth + 1);
        assert(!stack[depth].contains(end));
        if stack[depth + 1].halves(stack[depth].left) {
            lemma_halves(stack[depth + 1], stack[depth].left);
        } else {
            lemma_halves(stack[depth + 1], stack[depth].right);
        }
    }
}

/// The region behind the enclosing one. In a well-formed decoder whose
/// position lies in the content, let `end` be the end of the region that
/// encloses the position. Where `end` is the end of the content, the
/// encoding of the enclosing region ends where that of the root ends. Where
/// it is not, a seek to `end` leaves the decoder in a region that begins at
/// `end`, and whose encoding begins where that of the region it left ends.
pub proof fn lemma_next_region(decoder: DecoderView)
    requires
        decoder.wf(),
        decoder.in_range(decoder.position),
    ensures
        ({
            let here = decoder.enclosing();
            let there = decoder.seek(here.end).enclosing();
            if here.end >= decoder.header.unwrap().end {
                &&& here.end == decoder.header.unwrap().end
                &&& here.encoded_end() == decoder.header.unwrap().encoded_end()
            } else {
                &&& there.start == here.end
                &&& there.encoded_offset == here.encoded_end()
            }
        }),
{
    let root = decoder.header.unwrap();
    let stack = decoder.stack;
    let here = decoder.enclosing();
    let end = here.end;
    let top = stack.len() - 1;
    lemma_enclosing(decoder);
    if stack.len() > 0 {
        lemma_path_spans(root, stack, top);
        lemma_link(root, stack, 0);
        lemma_halves(stack[0], root);
        if end >= root.end {
            assert forall|i: int| 0 <= i < stack.len() implies !(#[trigger] stack[i]).contains(
                end,
            ) by {
                lemma_path_spans(root, stack, i);
            }
            lemma_right_spine(root, stack, 0, end);
            lemma_right_spine(root, stack, top, end);
        } else {
            lemma_seek_keeps_first_node(decoder, end);
            lemma_unwind(stack, end);
            let kept = unwind(stack, end).len() as int;
            let above = stack[kept - 1];
            assert(decoder.seek(end).stack.last() == above);
            assert(above.contains(end));
            lemma_path_spans(root, stack, kept - 1);
            if kept < stack.len() {
                lemma_right_spine(root, stack, kept, end);
                lemma_right_spine(root, stack, top, end);
                assert(here == stack[top].right);
                lemma_link(root, stack, kept);
                if stack[kept].halves(above.left) {
                    lemma_halves(stack[kept], above.left);
                } else {
                    lemma_halves(stack[kept], above.right);
                }
                assert(above.left.end == end);
                assert(above.left.encoded_end() == here.encoded_end());
            } else {
                assert(here == above.left);
            }
            lemma_above(root, stack, kept - 1);
        }
    }
}

/// The encoding of the right child of a node on a path begins where that
/// of the left child ends.
proof fn lemma_above(root: RegionView, stack: Seq<NodeView>, i: int)
    requires
        descends(root, stack),
        0 <= i < stack.len(),
    ensures
        stack[i].right.encoded_offset == stack[i].left.encoded_end(),
{
    lemma_link(root, stack, i);
    if i == 0 {
        lemma_halves(stack[0], root);
    } else if stack[i].halves(stack[i - 1].left) {
        lemma_halves(stack[i], stack[i - 1].left);
    } else {
        lemma_halves(stack[i], stack[i - 1].right);
    }
}

/// Where the decoder that reads in order goes after a chunk: to the region
/// whose encoding follows the chunk in the stream, or to the end of the
/// stream after the last chunk.
pub proof fn lemma_after_chunk(decoder: DecoderView, content: Seq<u8>)
    requires
        encodable(content),
        in_order(decoder, content),
        decoder.state() is Chunk,
    ensures
        in_order(decoder.seek(decoder.enclosing().end), content),
        cursor(decoder.seek(decoder.enclosing().end), content) == cursor(decoder, content)
            + decoder.enclosing().len(),
{
    let end = decoder.enclosing().end;
    let after = decoder.seek(end);
    lemma_enclosing(decoder);
    lemma_next_region(decoder);
    lemma_seek_tracks(decoder, content, end);
    lemma_seek_wf(decoder, end);
    lemma_encoded_len_monotonic(content.len(), content.len());
    lemma_header_record(content);
    if after.in_range(end) {
        lemma_enclosing(after);
    }
}

/// Every call of `feed` on the range asked for takes the decoder that reads
/// in order to the record that follows in the stream.
pub proof fn lemma_step_in_order(decoder: DecoderView, content: Seq<u8>)
    requires
        encodable(content),
        in_order(decoder, content),
        decoder.needed().1 != 0,
    ensures
        decoder.needed().0 == cursor(decoder, content),
        cursor(decoder, content) + decoder.needed().1 <= encoding(content).len(),
        ({
            let needed = decoder.needed();
            let step = decoder.feed(window(encoding(content), needed.0, needed.1));
            &&& in_order(step.1, content)
            &&& cursor(step.1, content) == cursor(decoder, content) + needed.1
        }),
{
    let stream = encoding(content);
    let needed = decoder.needed();
    let input = window(stream, needed.0, needed.1);
    let step = decoder.feed(input);
    lemma_step(decoder, content);
    lemma_encoded_len_monotonic(content.len(), content.len());
    lemma_header_record(content);
    match decoder.state() {
        StateView::NoHeader => {
            if step.1.in_range(step.1.position) {
                lemma_enclosing(step.1);
            }
        },
        StateView::Eof => {},
        StateView::Chunk(region) => {
            lemma_enclosing(decoder);
            lemma_enclosing_describes(decoder, content);
            lemma_after_chunk(decoder, content);
        },
        StateView::Node(region) => {
            lemma_enclosing(decoder);
            lemma_enclosing_describes(decoder, content);
            lemma_node_in_stream(region, content);
            lemma_split(region, input);
            lemma_halves(split(region, input).unwrap(), region);
            lemma_encoded_len(region.len());
            lemma_enclosing(step.1);
        },
    }
}

/// A decoder that reads in order, fed in every call all of the stream from
/// its cursor on, hands out the content from its position on and meets no
/// error.
pub proof fn lemma_drive_greedy(decoder: DecoderView, content: Seq<u8>)
    requires
        encodable(content),
        in_order(decoder, content),
    ensures
        completes(
            drive_greedy(decoder, encoding(content).skip(cursor(decoder, content) as int)),
            pending(decoder, content),
            content,
        ),
    decreases
            (if decoder.header is None {
                1nat
            } else {
                0nat
            }),
            unread(decoder),
            span(decoder),
{
    let stream = encoding(content);
    let rest = stream.skip(cursor(decoder, content) as int);
    let needed = decoder.needed();
    lemma_needs_nothing(decoder);
    lemma_drive_greedy_step(decoder, rest);
    if needed.1 == 0 {
        assert(pending(decoder, content) =~= Seq::<u8>::empty());
    } else {
        let input = window(stream, needed.0, needed.1);
        lemma_step_in_order(decoder, content);
        lemma_step(decoder, content);
        assert(rest.take(needed.1 as int) =~= input);
        lemma_overfeed(decoder, rest);
        lemma_progress(decoder, input);
        let next = decoder.feed(input).1;
        lemma_drive_greedy(next, content);
        assert(rest.skip(needed.1 as int) =~= stream.skip(cursor(next, content) as int));
    }
}

/// Over-feeding. A decoder made with the header digest of `content`, fed in
/// every call all that is left of the encoding of `content` behind what the
/// calls before consumed, hands out `content`, all of it and in order, and
/// meets no error.
pub proof fn lemma_overfed_round_trip(content: Seq<u8>)
    requires
        encodable(content),
    ensures
        completes(
            drive_greedy(DecoderView::fresh(header_digest(content)), encoding(content)),
            content,
            content,
        ),
{
    let decoder = DecoderView::fresh(header_digest(content));
    lemma_fresh_tracks(content);
    lemma_drive_greedy(decoder, content);
    assert(encoding(content).skip(0) =~= encoding(content));
    assert(pending(decoder, content) =~= content);
}

} // verus!
