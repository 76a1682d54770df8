//! The decoder: a position in the content, the header once it has been read,
//! and the path of nodes from the root to the region at the position.

use vstd::prelude::*;
use vstd::slice::slice_subrange;

use crate::hash::digest_of;
use crate::node::{
    header_region, lemma_halves, lemma_read_under, read_under, split, Node, NodeView, Region,
    RegionView,
};
use crate::unverified::{checked_prefix, Unverified};
use crate::{Digest, Error, CHUNK_SIZE, HEADER_SIZE, NODE_SIZE};

verus! {

/// What the decoder reads next.
#[derive(Debug, Clone, Copy)]
pub enum State {
    /// The header record.
    NoHeader,
    /// Nothing: the position is at or behind the end of the content.
    Eof,
    /// The chunk that holds the position.
    Chunk(Region),
    /// The node record of the region that holds the position.
    Node(Region),
}

/// A [`State`] over region views.
pub enum StateView {
    NoHeader,
    Eof,
    Chunk(RegionView),
    Node(RegionView),
}

impl View for State {
    type V = StateView;

    open spec fn view(&self) -> StateView {
        match *self {
            State::NoHeader => StateView::NoHeader,
            State::Eof => StateView::Eof,
            State::Chunk(region) => StateView::Chunk(region@),
            State::Node(region) => StateView::Node(region@),
        }
    }
}

/// What a call of `feed` returns, with the output as a sequence of bytes:
/// the number of bytes consumed and, after a chunk, the content bytes from
/// the position on.
pub type Fed = Result<(usize, Option<Seq<u8>>), Error>;

/// The decoder as a mathematical value.
pub struct DecoderView {
    /// Digest of the header record: all that the decoder trusts at first.
    pub header_hash: Seq<u8>,
    /// The root region, once the header record has been read.
    pub header: Option<RegionView>,
    /// Offset in the content of the next byte to hand out.
    pub position: u64,
    /// Nodes read on the way from the root to the position, root first.
    pub stack: Seq<NodeView>,
}

/// What is left of `stack` when nodes are taken off its top until the top
/// contains `position` or no node is left.
pub open spec fn unwind(stack: Seq<NodeView>, position: u64) -> Seq<NodeView>
    decreases stack.len(),
{
    if stack.len() == 0 || stack.last().contains(position) {
        stack
    } else {
        unwind(stack.drop_last(), position)
    }
}

/// The region that the node at depth `i` of `stack` splits: `root` at depth
/// 0, further down the child of the node before it in which the node
/// begins.
pub open spec fn above(root: RegionView, stack: Seq<NodeView>, i: int) -> RegionView {
    if i == 0 {
        root
    } else {
        stack[i - 1].child_at(stack[i].left.start)
    }
}

/// Whether the node at depth `i` of `stack` was read under the region
/// above it.
pub open spec fn linked(root: RegionView, stack: Seq<NodeView>, i: int) -> bool {
    read_under(above(root, stack, i), stack[i])
}

/// Whether `stack` is a path down the tree from `root`, on which every node
/// was read under the region above it.
pub open spec fn descends(root: RegionView, stack: Seq<NodeView>) -> bool {
    forall|i: int| 0 <= i < stack.len() ==> #[trigger] linked(root, stack, i)
}

/// Whether `root` was read under the digest `header_hash`: some header
/// record that has this digest describes `root`.
pub open spec fn root_under(header_hash: Seq<u8>, root: RegionView) -> bool {
    exists|record: Seq<u8>|
        record.len() == HEADER_SIZE && digest_of(record)@ == header_hash
            && #[trigger] header_region(record) == root
}

impl DecoderView {
    /// A decoder that has read nothing.
    pub open spec fn fresh(header_hash: Seq<u8>) -> DecoderView {
        DecoderView { header_hash, header: None, position: 0, stack: Seq::empty() }
    }

    /// Whether the header is known and `position` lies in the content.
    pub open spec fn in_range(self, position: u64) -> bool {
        match self.header {
            Some(root) => position < root.end,
            None => false,
        }
    }

    /// The invariant of the decoder.
    ///
    /// Without a header there is no stack. With one, all that the decoder
    /// holds was checked, link by link, against the digest it was made
    /// with: the root was read from a header record with that digest, and
    /// every node on the stack from a node record with the digest that the
    /// region above it holds. The stack is a path down from the root, and
    /// where the position lies in the content and the stack holds a node,
    /// the top node contains the position.
    pub open spec fn wf(self) -> bool {
        match self.header {
            None => self.stack.len() == 0,
            Some(root) => {
                &&& root_under(self.header_hash, root)
                &&& descends(root, self.stack)
                &&& self.position < root.end && self.stack.len() > 0
                    ==> self.stack.last().contains(self.position)
            },
        }
    }

    /// The region in which the decoder looks for the position: the child of
    /// the top node that contains it, or the root under an empty stack.
    pub open spec fn enclosing(self) -> RegionView
        recommends
            self.header is Some,
    {
        if self.stack.len() > 0 {
            self.stack.last().child_at(self.position)
        } else {
            self.header.unwrap()
        }
    }

    /// What the decoder reads next.
    pub open spec fn state(self) -> StateView {
        if !self.in_range(self.position) {
            if self.header is None {
                StateView::NoHeader
            } else {
                StateView::Eof
            }
        } else if self.enclosing().is_chunk() {
            StateView::Chunk(self.enclosing())
        } else {
            StateView::Node(self.enclosing())
        }
    }

    /// Offset in the encoded stream and length of the record that the
    /// decoder reads next. A length of 0 says that nothing is left to read.
    pub open spec fn needed(self) -> (u64, usize) {
        match self.state() {
            StateView::NoHeader => (0, HEADER_SIZE),
            StateView::Eof => (0, 0),
            StateView::Chunk(region) => (region.encoded_offset, region.len() as usize),
            StateView::Node(region) => (region.encoded_offset, NODE_SIZE),
        }
    }

    /// The decoder after a seek to `position`. Nodes leave the stack only
    /// where `position` lies in the content.
    pub open spec fn seek(self, position: u64) -> DecoderView {
        DecoderView {
            position,
            stack: if self.in_range(position) {
                unwind(self.stack, position)
            } else {
                self.stack
            },
            ..self
        }
    }

    /// The decoder after the header record `record` has been accepted.
    pub open spec fn with_header(self, record: Seq<u8>) -> DecoderView {
        DecoderView { header: Some(header_region(record)), ..self }
    }

    /// The decoder after `node` has been read.
    pub open spec fn descend(self, node: NodeView) -> DecoderView {
        DecoderView { stack: self.stack.push(node), ..self }
    }

    /// What `feed` returns on `input`, and the decoder after the call.
    ///
    /// Every record is checked against its digest first, and nothing
    /// changes where it fails the check. A header record is consumed and
    /// sets the root. A chunk is consumed whole, what is handed out of it
    /// begins at the position, and the decoder seeks to the end of the
    /// chunk. A node record is consumed and goes on the stack where it
    /// splits its region.
    pub open spec fn feed(self, input: Seq<u8>) -> (Fed, DecoderView) {
        match self.state() {
            StateView::NoHeader => match checked_prefix(
                input,
                HEADER_SIZE as nat,
                self.header_hash,
            ) {
                Ok(record) => (Ok((HEADER_SIZE, None)), self.with_header(record)),
                Err(e) => (Err(e), self),
            },
            StateView::Eof => (Ok((0, None)), self),
            StateView::Chunk(region) => match checked_prefix(input, region.len(), region.hash) {
                Ok(chunk) => (
                    Ok(
                        (
                            region.len() as usize,
                            Some(chunk.skip(self.position - region.start)),
                        ),
                    ),
                    self.seek(region.end),
                ),
                Err(e) => (Err(e), self),
            },
            StateView::Node(region) => match checked_prefix(input, NODE_SIZE as nat, region.hash) {
                Ok(record) => match split(region, record) {
                    Some(node) => (Ok((NODE_SIZE, None)), self.descend(node)),
                    None => (Err(Error::MalformedNode), self),
                },
                Err(e) => (Err(e), self),
            },
        }
    }
}

/// The nodes of a stack as views.
pub open spec fn stack_view(stack: Seq<Node>) -> Seq<NodeView> {
    stack.map_values(|node: Node| node@)
}

/// The result of `feed` with its output as a sequence of bytes.
pub open spec fn fed_view(fed: Result<(usize, Option<&[u8]>), Error>) -> Fed {
    match fed {
        Ok((consumed, Some(output))) => Ok((consumed, Some(output@))),
        Ok((consumed, None)) => Ok((consumed, None)),
        Err(e) => Err(e),
    }
}

/// In a well-formed decoder whose position lies in the content, the
/// enclosing region contains the position.
pub proof fn lemma_enclosing(decoder: DecoderView)
    requires
        decoder.wf(),
        decoder.in_range(decoder.position),
    ensures
        decoder.enclosing().contains(decoder.position),
        decoder.enclosing().end <= decoder.header.unwrap().end,
        decoder.stack.len() > 0 ==> decoder.stack.last().left.start < decoder.stack.last().left.end
            == decoder.stack.last().right.start < decoder.stack.last().right.end,
{
    lemma_path_spans(decoder.header.unwrap(), decoder.stack, decoder.stack.len() - 1);
}

/// On a path down from `root`, the node at depth `i` holds the two halves
/// of the region above it: of `root` at depth 0, of a child of the node
/// before it further down.
pub proof fn lemma_link(root: RegionView, stack: Seq<NodeView>, i: int)
    requires
        descends(root, stack),
        0 <= i < stack.len(),
    ensures
        stack[i].halves(above(root, stack, i)),
        if i == 0 {
            stack[0].halves(root)
        } else {
            stack[i].halves(stack[i - 1].left) || stack[i].halves(stack[i - 1].right)
        },
{
    assert(linked(root, stack, i));
    lemma_read_under(above(root, stack, i), stack[i]);
}

/// Every node on a path down from `root` lies within `root`, and its two
/// children tile it.
pub proof fn lemma_path_spans(root: RegionView, stack: Seq<NodeView>, i: int)
    requires
        descends(root, stack),
    ensures
        0 <= i < stack.len() ==> {
            &&& root.start <= stack[i].left.start < stack[i].left.end
            &&& stack[i].left.end == stack[i].right.start < stack[i].right.end <= root.end
            &&& i > 0 ==> stack[i - 1].left.start <= stack[i].left.start && stack[i].right.end
                <= stack[i - 1].right.end
        },
    decreases i,
{
    if 0 <= i < stack.len() {
        lemma_link(root, stack, i);
        if i == 0 {
            lemma_halves(stack[0], root);
        } else {
            lemma_path_spans(root, stack, i - 1);
            if stack[i].halves(stack[i - 1].left) {
                lemma_halves(stack[i], stack[i - 1].left);
            } else {
                lemma_halves(stack[i], stack[i - 1].right);
            }
        }
    }
}

/// Unwinding leaves a prefix of the stack, whose top, if there is one,
/// contains the position; every node that left did not contain it.
pub proof fn lemma_unwind(stack: Seq<NodeView>, position: u64)
    ensures
        unwind(stack, position).len() <= stack.len(),
        unwind(stack, position) == stack.take(unwind(stack, position).len() as int),
        unwind(stack, position).len() > 0 ==> unwind(stack, position).last().contains(position),
        forall|i: int|
            unwind(stack, position).len() <= i < stack.len() ==> !(#[trigger] stack[i]).contains(
                position,
            ),
    decreases stack.len(),
{
    if stack.len() == 0 || stack.last().contains(position) {
        assert(stack.take(stack.len() as int) =~= stack);
    } else {
        let rest = stack.drop_last();
        lemma_unwind(rest, position);
        let kept = unwind(rest, position).len() as int;
        assert(rest.take(kept) =~= stack.take(kept));
        assert forall|i: int| kept <= i < stack.len() implies !(#[trigger] stack[i]).contains(
            position,
        ) by {
            if i < rest.len() {
                assert(stack[i] == rest[i]);
            }
        }
    }
}

/// A prefix of a path down from `root` is a path down from `root`.
pub proof fn lemma_descends_prefix(root: RegionView, stack: Seq<NodeView>, depth: int)
    requires
        descends(root, stack),
        0 <= depth <= stack.len(),
    ensures
        descends(root, stack.take(depth)),
{
    let prefix = stack.take(depth);
    assert forall|i: int| 0 <= i < prefix.len() implies #[trigger] linked(root, prefix, i) by {
        assert(linked(root, stack, i));
        assert(above(root, prefix, i) == above(root, stack, i));
    }
}

/// A well-formed decoder whose position lies in the content stays well
/// formed when a node that was read under the enclosing region goes on its
/// stack, and the region that then encloses the position is shorter.
pub proof fn lemma_descend(decoder: DecoderView, node: NodeView)
    requires
        decoder.wf(),
        decoder.in_range(decoder.position),
        read_under(decoder.enclosing(), node),
    ensures
        decoder.descend(node).wf(),
        decoder.descend(node).enclosing().len() < decoder.enclosing().len(),
{
    let root = decoder.header.unwrap();
    let longer = decoder.stack.push(node);
    lemma_enclosing(decoder);
    lemma_read_under(decoder.enclosing(), node);
    lemma_halves(node, decoder.enclosing());
    assert forall|i: int| 0 <= i < longer.len() implies #[trigger] linked(root, longer, i) by {
        if i < decoder.stack.len() {
            assert(linked(root, decoder.stack, i));
            assert(above(root, longer, i) == above(root, decoder.stack, i));
        } else {
            assert(above(root, longer, i) == decoder.enclosing());
        }
    }
}

/// The first node of a path down from the root contains every position
/// in the content, so a seek into the content never takes it off the stack.
pub proof fn lemma_seek_keeps_first_node(decoder: DecoderView, position: u64)
    requires
        decoder.wf(),
        decoder.in_range(position),
        decoder.stack.len() > 0,
    ensures
        decoder.seek(position).stack.len() > 0,
        decoder.seek(position).stack[0] == decoder.stack[0],
{
    lemma_link(decoder.header.unwrap(), decoder.stack, 0);
    lemma_halves(decoder.stack[0], decoder.header.unwrap());
    lemma_unwind(decoder.stack, position);
}

/// A seek keeps the decoder well formed: the region that encloses the new
/// position is a child of the top node, or the root under an empty stack.
pub proof fn lemma_seek_wf(decoder: DecoderView, position: u64)
    requires
        decoder.wf(),
    ensures
        decoder.seek(position).wf(),
        decoder.seek(position).position == position,
        decoder.seek(position).header == decoder.header,
        decoder.seek(position).header_hash == decoder.header_hash,
        decoder.seek(position).in_range(position) ==> decoder.seek(position).enclosing().contains(
            position,
        ),
{
    if decoder.in_range(position) {
        lemma_unwind(decoder.stack, position);
        lemma_descends_prefix(
            decoder.header.unwrap(),
            decoder.stack,
            unwind(decoder.stack, position).len() as int,
        );
        lemma_enclosing(decoder.seek(position));
    }
}

/// A call of `feed` keeps the decoder well formed, whatever it is fed, and
/// on an error it leaves the decoder as it was.
pub proof fn lemma_feed_wf(decoder: DecoderView, input: Seq<u8>)
    requires
        decoder.wf(),
    ensures
        decoder.feed(input).1.wf(),
        decoder.feed(input).1.header_hash == decoder.header_hash,
        decoder.feed(input).0 is Err ==> decoder.feed(input).1 == decoder,
        decoder.feed(input).1.in_range(decoder.feed(input).1.position) ==> decoder.feed(
            input,
        ).1.enclosing().contains(decoder.feed(input).1.position),
{
    match decoder.state() {
        StateView::NoHeader => {
            if let Ok(record) = checked_prefix(input, HEADER_SIZE as nat, decoder.header_hash) {
                assert(root_under(decoder.header_hash, header_region(record)));
            }
        },
        StateView::Eof => {},
        StateView::Chunk(region) => {
            lemma_seek_wf(decoder, region.end);
        },
        StateView::Node(region) => {
            if let Ok(record) = checked_prefix(input, NODE_SIZE as nat, region.hash) {
                if split(region, record) is Some {
                    lemma_descend(decoder, split(region, record).unwrap());
                }
            }
        },
    }
    if decoder.feed(input).1.in_range(decoder.feed(input).1.position) {
        lemma_enclosing(decoder.feed(input).1);
    }
}

/// A decoder of one encoded stream.
///
/// It is made with the digest of the stream's header record and trusts
/// nothing else. A caller asks it with [`Decoder::needed`] for the range of
/// the stream that it reads next, hands it the bytes of that range with
/// [`Decoder::feed`], and gets the content back chunk by chunk, each chunk
/// after its digest was checked. With [`Decoder::seek`] the caller moves to
/// any offset in the content; the nodes read so far that contain the offset
/// are kept.
#[derive(Debug)]
pub struct Decoder {
    header_hash: Digest,
    header: Option<Region>,
    position: u64,
    stack: Vec<Node>,
}

impl View for Decoder {
    type V = DecoderView;

    closed spec fn view(&self) -> DecoderView {
        DecoderView {
            header_hash: self.header_hash@,
            header: match self.header {
                Some(root) => Some(root@),
                None => None,
            },
            position: self.position,
            stack: stack_view(self.stack@),
        }
    }
}

impl Clone for Decoder {
    fn clone(&self) -> (copy: Self)
        ensures
            copy@ == self@,
    {
        proof {
            use_type_invariant(self);
        }
        let stack: Vec<Node> = self.stack.clone();
        assert(stack_view(stack@) =~= stack_view(self.stack@));
        Decoder {
            header_hash: self.header_hash,
            header: self.header,
            position: self.position,
            stack,
        }
    }
}

impl Decoder {
    #[verifier::type_invariant]
    spec fn valid(self) -> bool {
        self@.wf()
    }

    /// A decoder for the stream whose header record has the digest
    /// `header_hash`.
    pub fn new(header_hash: &Digest) -> (decoder: Self)
        ensures
            decoder@ == DecoderView::fresh(header_hash@),
            decoder@.wf(),
    {
        let decoder = Decoder {
            header_hash: *header_hash,
            header: None,
            position: 0,
            stack: Vec::new(),
        };
        assert(decoder@.stack =~= Seq::empty());
        decoder
    }

    /// Length of the content, once the header has been read.
    pub fn len(&self) -> (len: Option<u64>)
        ensures
            len == match self@.header {
                Some(root) => Some(root.end),
                None => None,
            },
            self@.wf(),
    {
        proof {
            use_type_invariant(self);
        }
        match self.header {
            Some(root) => Some(root.len()),
            None => None,
        }
    }

    /// What the decoder reads next.
    pub fn state(&self) -> (state: State)
        ensures
            state@ == self@.state(),
            self@.wf(),
    {
        proof {
            use_type_invariant(self);
        }
        let header: Region = match self.header {
            Some(region) => region,
            None => {
                return State::NoHeader;
            },
        };
        if self.position >= header.end {
            return State::Eof;
        }
        proof {
            lemma_enclosing(self@);
        }
        let depth: usize = self.stack.len();
        let current_region: Region = if depth > 0 {
            let node: Node = self.stack[depth - 1];
            if node.left.contains(self.position) {
                node.left
            } else {
                node.right
            }
        } else {
            header
        };
        if current_region.len() <= CHUNK_SIZE as u64 {
            State::Chunk(current_region)
        } else {
            State::Node(current_region)
        }
    }

    /// Takes the stack out of the decoder and leaves an empty one, under
    /// which the decoder is well formed at any position.
    fn take_stack(&mut self) -> (stack: Vec<Node>)
        ensures
            stack_view(stack@) == old(self)@.stack,
            final(self)@ == (DecoderView { stack: Seq::empty(), ..old(self)@ }),
    {
        proof {
            use_type_invariant(&*self);
        }
        let mut stack: Vec<Node> = Vec::new();
        std::mem::swap(&mut stack, &mut self.stack);
        assert(self@.stack =~= Seq::empty());
        stack
    }

    /// Moves the position. Where the new position lies in the content,
    /// nodes that do not contain it leave the stack; none is added.
    pub fn seek(&mut self, position: u64)
        ensures
            final(self)@ == old(self)@.seek(position),
            final(self)@.wf(),
    {
        proof {
            use_type_invariant(&*self);
        }
        let header_end: u64 = match self.header {
            Some(root) => root.end,
            None => 0,
        };
        if position >= header_end {
            self.position = position;
            return;
        }
        // Nodes that do not contain the position leave the stack. The first
        // node, if there is one, stays: it contains every position in the
        // content.
        let mut stack: Vec<Node> = self.take_stack();
        self.position = position;
        loop
            invariant
                unwind(stack_view(stack@), position) == unwind(old(self)@.stack, position),
            ensures
                stack_view(stack@) == unwind(old(self)@.stack, position),
            decreases stack.len(),
        {
            let depth: usize = stack.len();
            if depth == 0 {
                break;
            }
            let node: Node = stack[depth - 1];
            if node.contains(position) {
                break;
            }
            let ghost before = stack_view(stack@);
            stack.pop();
            assert(stack_view(stack@) =~= before.drop_last());
        }
        proof {
            lemma_unwind(old(self)@.stack, position);
            lemma_descends_prefix(
                old(self)@.header.unwrap(),
                old(self)@.stack,
                stack_view(stack@).len() as int,
            );
        }
        self.stack = stack;
    }

    /// Offset in the encoded stream and length of what the next call of
    /// [`Decoder::feed`] reads. A length of 0 says that nothing is left.
    pub fn needed(&self) -> (range: (u64, usize))
        ensures
            range == self@.needed(),
            self@.wf(),
    {
        match self.state() {
            State::NoHeader => (0, HEADER_SIZE),
            State::Eof => (0, 0),
            State::Chunk(region) => {
                proof {
                    lemma_enclosing(self@);
                }
                (region.encoded_offset, region.len() as usize)
            },
            State::Node(region) => (region.encoded_offset, NODE_SIZE),
        }
    }

    /// Hands the decoder the bytes of the encoded stream that begin at the
    /// offset given by [`Decoder::needed`]. More bytes than needed may be
    /// given, and fewer: with too few the call fails with
    /// [`Error::ShortInput`] and may be made again with more.
    ///
    /// Returns the number of bytes consumed and, where a chunk was read, the
    /// content of the chunk from the position on. No byte is read or handed
    /// out before the record that holds it has been checked against its
    /// digest, and on an error the decoder is left as it was.
    pub fn feed<'a>(&mut self, input: &'a [u8]) -> (fed: Result<(usize, Option<&'a [u8]>), Error>)
        ensures
            fed_view(fed) == old(self)@.feed(input@).0,
            final(self)@ == old(self)@.feed(input@).1,
            final(self)@.wf(),
    {
        // From here on the input gives out bytes only with a digest check.
        let mut input = Unverified::wrap(input);
        match self.state() {
            State::NoHeader => self.feed_header(&mut input),
            State::Eof => Ok((0, None)),
            State::Chunk(region) => self.feed_chunk(&mut input, region),
            State::Node(region) => self.feed_node(&mut input, region),
        }
    }

    fn feed_header<'a>(&mut self, input: &mut Unverified<'a>) -> (fed: Result<
        (usize, Option<&'a [u8]>),
        Error,
    >)
        requires
            old(self)@.state() == StateView::NoHeader,
        ensures
            fed_view(fed) == old(self)@.feed(old(input)@).0,
            final(self)@ == old(self)@.feed(old(input)@).1,
            final(self)@.wf(),
    {
        proof {
            use_type_invariant(&*self);
        }
        let header_bytes: &[u8] = match input.read_verify(HEADER_SIZE, &self.header_hash) {
            Ok(bytes) => bytes,
            Err(e) => {
                return Err(e);
            },
        };
        assert(root_under(self@.header_hash, header_region(header_bytes@)));
        self.header = Some(Region::from_header_bytes(header_bytes));
        Ok((HEADER_SIZE, None))
    }

    fn feed_chunk<'a>(&mut self, input: &mut Unverified<'a>, region: Region) -> (fed: Result<
        (usize, Option<&'a [u8]>),
        Error,
    >)
        requires
            old(self)@.state() == StateView::Chunk(region@),
        ensures
            fed_view(fed) == old(self)@.feed(old(input)@).0,
            final(self)@ == old(self)@.feed(old(input)@).1,
            final(self)@.wf(),
    {
        proof {
            use_type_invariant(&*self);
            lemma_enclosing(self@);
        }
        let chunk_bytes: &'a [u8] = match input.read_verify(region.len() as usize, &region.hash) {
            Ok(bytes) => bytes,
            Err(e) => {
                return Err(e);
            },
        };
        // After a seek the position may lie inside the chunk. The whole
        // chunk is checked all the same, and only what follows the position
        // is handed out.
        let chunk_offset: usize = (self.position - region.start) as usize;
        let ret: &'a [u8] = slice_subrange(chunk_bytes, chunk_offset, chunk_bytes.len());
        // The position moves to the end of the chunk, and nodes that are
        // done leave the stack.
        self.seek(region.end);
        // The whole chunk counts as consumed, whatever part of it was
        // handed out: the caller moves on by that much in the stream.
        Ok((chunk_bytes.len(), Some(ret)))
    }

    fn feed_node<'a>(&mut self, input: &mut Unverified<'a>, region: Region) -> (fed: Result<
        (usize, Option<&'a [u8]>),
        Error,
    >)
        requires
            old(self)@.state() == StateView::Node(region@),
        ensures
            fed_view(fed) == old(self)@.feed(old(input)@).0,
            final(self)@ == old(self)@.feed(old(input)@).1,
            final(self)@.wf(),
    {
        proof {
            use_type_invariant(&*self);
            lemma_enclosing(self@);
        }
        let node_bytes: &[u8] = match input.read_verify(NODE_SIZE, &region.hash) {
            Ok(bytes) => bytes,
            Err(e) => {
                return Err(e);
            },
        };
        let node: Node = match region.parse_node(node_bytes) {
            Ok(node) => node,
            Err(e) => {
                return Err(e);
            },
        };
        proof {
            assert(split(region@, node_bytes@) == Some(node@));
            lemma_descend(self@, node@);
        }
        let mut stack: Vec<Node> = self.take_stack();
        stack.push(node);
        assert(stack_view(stack@) =~= old(self)@.stack.push(node@));
        self.stack = stack;
        Ok((NODE_SIZE, None))
    }
}

} // verus!
