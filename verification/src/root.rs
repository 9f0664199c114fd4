//! The root node alone tells the root hash: it is found out from the header and the root node,
//! whatever follows them, and a reader for another root hash fails there.

use vstd::prelude::*;

use crate::complete::{found_at, lemma_found_split};
use crate::error::{Error, ReadError};
use crate::hash::{
    header, lemma_header_value, Finalization, Node, CHUNK_SIZE, HEADER_SIZE, PARENT_SIZE,
};
use crate::reading::{
    after_root_encoded, after_root_outboard, hash_from_encoded_spec, hash_from_outboard_spec, min,
    ReaderView, SliceView,
};
use crate::source::SourceView;
use crate::tree::{left, lemma_subtree_hash_len, parent_node, right, root_hash, top_node};

verus! {

/// Whether `node` is as long as the root node of a tree over `len` bytes.
pub open spec fn root_sized(node: Seq<u8>, len: int) -> bool {
    node.len() == if len <= CHUNK_SIZE {
        len
    } else {
        PARENT_SIZE as int
    }
}

/// The root node of a tree over `len` bytes that is made of some bytes.
pub open spec fn root_node(node: Seq<u8>, len: int) -> Node {
    if len <= CHUNK_SIZE {
        Node::chunk(node, Finalization::Root)
    } else {
        Node::parent(node, Finalization::Root)
    }
}

/// Where a header and a root node come next, the root hash is that of the node, whatever follows.
/// These are read, and nothing more.
pub proof fn law_root_node_encoded(source: SourceView, len: u64, node: Seq<u8>)
    requires
        root_sized(node, len as int),
        found_at(header(len as int) + node, source.bytes, source.position),
    ensures
        hash_from_encoded_spec(source) == Ok::<Seq<u8>, ReadError>(
            root_node(node, len as int).hash(),
        ),
        after_root_encoded(source).bytes == source.bytes,
        after_root_encoded(source).position == source.position + HEADER_SIZE + node.len(),
{
    lemma_header_value(len);
    lemma_found_split(header(len as int), node, source.bytes, source.position);
    assert(source.next(HEADER_SIZE as int) == header(len as int));
    assert(source.advance(HEADER_SIZE as int).next(node.len() as int) =~= node);
}

/// Where a header comes next in an outboard encoding and the root node where it belongs, in the
/// content if that is a single chunk and behind the header if not, the root hash is that of the
/// node, whatever else is there. These are read, and nothing more.
pub proof fn law_root_node_outboard(
    content: SourceView,
    outboard: SourceView,
    len: u64,
    node: Seq<u8>,
)
    requires
        root_sized(node, len as int),
        len <= CHUNK_SIZE ==> {
            &&& found_at(header(len as int), outboard.bytes, outboard.position)
            &&& found_at(node, content.bytes, content.position)
        },
        len > CHUNK_SIZE ==> found_at(
            header(len as int) + node,
            outboard.bytes,
            outboard.position,
        ),
    ensures
        hash_from_outboard_spec(content, outboard) == Ok::<Seq<u8>, ReadError>(
            root_node(node, len as int).hash(),
        ),
        ({
            let (content_after, outboard_after) = after_root_outboard(content, outboard);
            &&& content_after.bytes == content.bytes
            &&& outboard_after.bytes == outboard.bytes
            &&& len <= CHUNK_SIZE ==> {
                &&& content_after.position == content.position + len
                &&& outboard_after.position == outboard.position + HEADER_SIZE
            }
            &&& len > CHUNK_SIZE ==> {
                &&& content_after.position == content.position
                &&& outboard_after.position == outboard.position + HEADER_SIZE + PARENT_SIZE
            }
        }),
{
    lemma_header_value(len);
    if len > CHUNK_SIZE {
        lemma_found_split(header(len as int), node, outboard.bytes, outboard.position);
        assert(outboard.advance(HEADER_SIZE as int).next(node.len() as int) =~= node);
    } else {
        assert(content.next(node.len() as int) =~= node);
    }
    assert(outboard.next(HEADER_SIZE as int) == header(len as int));
}

proof fn lemma_top_sized(content: Seq<u8>)
    ensures
        root_sized(top_node(content, Finalization::Root).bytes, content.len() as int),
        root_node(top_node(content, Finalization::Root).bytes, content.len() as int) == top_node(
            content,
            Finalization::Root,
        ),
        top_node(content, Finalization::Root).hash() == root_hash(content),
{
    lemma_subtree_hash_len(left(content), Finalization::NotRoot);
    lemma_subtree_hash_len(right(content), Finalization::NotRoot);
    lemma_subtree_hash_len(content, Finalization::Root);
}

/// The root hash of some content is found out from the length and the root node of its combined
/// encoding, whatever follows.
pub proof fn law_root_hash_encoded(source: SourceView, content: Seq<u8>)
    requires
        content.len() <= u64::MAX,
        found_at(
            header(content.len() as int) + top_node(content, Finalization::Root).bytes,
            source.bytes,
            source.position,
        ),
    ensures
        hash_from_encoded_spec(source) == Ok::<Seq<u8>, ReadError>(root_hash(content)),
{
    lemma_top_sized(content);
    law_root_node_encoded(
        source,
        content.len() as u64,
        top_node(content, Finalization::Root).bytes,
    );
}

/// The root hash of content that is longer than a chunk is found out from the length and the root
/// node of its outboard encoding, whatever follows and whatever the source of the content holds.
pub proof fn law_root_hash_outboard(input: SourceView, outboard: SourceView, content: Seq<u8>)
    requires
        CHUNK_SIZE < content.len() <= u64::MAX,
        found_at(
            header(content.len() as int) + parent_node(content),
            outboard.bytes,
            outboard.position,
        ),
    ensures
        hash_from_outboard_spec(input, outboard) == Ok::<Seq<u8>, ReadError>(root_hash(content)),
        after_root_outboard(input, outboard).0 == input,
{
    lemma_top_sized(content);
    law_root_node_outboard(input, outboard, content.len() as u64, parent_node(content));
}

/// The root hash of content that is a single chunk is found out from the length in its outboard
/// encoding and the content, whatever follows either.
pub proof fn law_root_hash_chunk(input: SourceView, outboard: SourceView, content: Seq<u8>)
    requires
        content.len() <= CHUNK_SIZE,
        found_at(header(content.len() as int), outboard.bytes, outboard.position),
        found_at(content, input.bytes, input.position),
    ensures
        hash_from_outboard_spec(input, outboard) == Ok::<Seq<u8>, ReadError>(root_hash(content)),
{
    lemma_top_sized(content);
    law_root_node_outboard(input, outboard, content.len() as u64, content);
}

/// Whether no more than a part of `expected` is left of a source.
pub open spec fn ends_within(source: SourceView, expected: Seq<u8>) -> bool {
    &&& 0 <= source.position <= source.bytes.len()
    &&& source.bytes.skip(source.position).is_prefix_of(expected)
    &&& source.bytes.len() - source.position < expected.len()
}

proof fn lemma_ends_behind_header(source: SourceView, len: u64, node: Seq<u8>)
    requires
        ends_within(source, header(len as int) + node),
        source.has(HEADER_SIZE as int),
    ensures
        source.next(HEADER_SIZE as int) == header(len as int),
        !source.advance(HEADER_SIZE as int).has(node.len() as int),
        node.len() > 0,
{
    let rest = source.bytes.skip(source.position);
    lemma_header_value(len);
    assert(source.next(HEADER_SIZE as int) =~= rest.take(HEADER_SIZE as int));
    assert(rest.take(HEADER_SIZE as int) =~= (header(len as int) + node).take(
        HEADER_SIZE as int,
    ));
    assert((header(len as int) + node).take(HEADER_SIZE as int) =~= header(len as int));
}

/// If the source ends before the root node does, finding out the root hash fails because of that.
pub proof fn law_root_node_cut(source: SourceView, len: u64, node: Seq<u8>)
    requires
        root_sized(node, len as int),
        ends_within(source, header(len as int) + node),
    ensures
        hash_from_encoded_spec(source) == Err::<Seq<u8>, ReadError>(ReadError::UnexpectedEof),
        after_root_encoded(source).bytes == source.bytes,
{
    lemma_header_value(len);
    if source.has(HEADER_SIZE as int) {
        lemma_ends_behind_header(source, len, node);
    }
}

/// If either source ends before the header or the root node does, finding out the root hash fails
/// because of that.
pub proof fn law_root_node_outboard_cut(
    content: SourceView,
    outboard: SourceView,
    len: u64,
    node: Seq<u8>,
)
    requires
        root_sized(node, len as int),
        len <= CHUNK_SIZE ==> {
            ||| ends_within(outboard, header(len as int))
            ||| {
                &&& found_at(header(len as int), outboard.bytes, outboard.position)
                &&& ends_within(content, node)
            }
        },
        len > CHUNK_SIZE ==> ends_within(outboard, header(len as int) + node),
    ensures
        hash_from_outboard_spec(content, outboard) == Err::<Seq<u8>, ReadError>(
            ReadError::UnexpectedEof,
        ),
        after_root_outboard(content, outboard).0.bytes == content.bytes,
        after_root_outboard(content, outboard).1.bytes == outboard.bytes,
{
    lemma_header_value(len);
    if outboard.has(HEADER_SIZE as int) && len > CHUNK_SIZE {
        lemma_ends_behind_header(outboard, len, node);
    }
}

impl ReaderView {
    /// Whether the sources have a header for `len` bytes and the root node of a tree over as many.
    pub open spec fn starts_with(self, len: u64, node: Seq<u8>) -> bool {
        if self.outboard is Some && len <= CHUNK_SIZE {
            &&& found_at(header(len as int), self.nodes().bytes, 0)
            &&& found_at(node, self.input.bytes, 0)
        } else {
            found_at(header(len as int) + node, self.nodes().bytes, 0)
        }
    }

    proof fn lemma_starts_with(self, len: u64, node: Seq<u8>)
        requires
            self.wf(),
            self.fresh(),
            root_sized(node, len as int),
            self.starts_with(len, node),
        ensures
            ({
                let (after, result) = self.read_header();
                &&& result is Ok
                &&& after.parser().read_next() is Parent <==> len > CHUNK_SIZE
                &&& after.parser().read_next() is Chunk <==> len <= CHUNK_SIZE
                &&& after.parser().skip == 0
                &&& after.parser().content_len == Some(len)
                &&& after.parser().pending == seq![len as int]
                &&& after.parser().finalization() == Finalization::Root
                &&& after.core.buf.len() == 0
                &&& after.core.verify.stack.last() == self.core.verify.root_hash
                &&& len > CHUNK_SIZE ==> {
                    &&& after.nodes().has(PARENT_SIZE as int)
                    &&& after.nodes().next(PARENT_SIZE as int) == node
                }
                &&& len <= CHUNK_SIZE ==> {
                    &&& after.input.has(len as int)
                    &&& after.input.next(len as int) == node
                }
            }),
    {
        let after = self.read_header().0;
        lemma_header_value(len);
        if !(self.outboard is Some && len <= CHUNK_SIZE) {
            lemma_found_split(header(len as int), node, self.nodes().bytes, 0);
        }
        assert(self.nodes().next(HEADER_SIZE as int) == header(len as int));
        if len > CHUNK_SIZE {
            assert(after.nodes().next(PARENT_SIZE as int) =~= node);
        } else {
            assert(after.input.next(len as int) =~= node);
        }
    }

    /// A reader for a root hash that is not that of the root node fails at the first read, with a
    /// wrong hash.
    pub proof fn law_other_root(self, len: u64, node: Seq<u8>, room: int)
        requires
            self.wf(),
            self.fresh(),
            root_sized(node, len as int),
            self.starts_with(len, node),
            self.core.verify.root_hash != root_node(node, len as int).hash(),
            0 <= room,
        ensures
            self.read(room).result == Err::<Seq<u8>, ReadError>(
                ReadError::Decode(Error::HashMismatch),
            ),
            self.drain().1.len() == 0,
            self.drain().2 == Err::<(), ReadError>(ReadError::Decode(Error::HashMismatch)),
    {
        self.lemma_starts_with(len, node);
        self.lemma_read_node();
        self.lemma_rank();
        let after = self.read_header().0;
        after.lemma_rank();
        assert(self.descend() == after.descend());
        if len > CHUNK_SIZE {
            assert(!after.core.verify.accepts_parent(node));
            assert(after.descend() == after.read_parent());
        } else {
            assert(!after.core.accepts_chunk(node, Finalization::Root));
            assert(after.descend() == (after, Ok::<(), ReadError>(())));
        }
    }

    /// A seek of a reader for a root hash that is not that of the root node fails with a wrong
    /// hash, unless it ends in a single chunk without reading it.
    pub proof fn law_other_root_seek(self, len: u64, node: Seq<u8>, seek_to: int, jump: bool)
        requires
            self.wf(),
            self.fresh(),
            root_sized(node, len as int),
            self.starts_with(len, node),
            self.core.verify.root_hash != root_node(node, len as int).hash(),
            0 <= seek_to,
            len > CHUNK_SIZE || seek_to >= len,
        ensures
            self.seek(seek_to, jump).1 == Err::<(), ReadError>(
                ReadError::Decode(Error::HashMismatch),
            ),
    {
        let after = self.read_header().0;
        let first = self.parser().seek_next(seek_to);
        self.lemma_starts_with(len, node);
        self.lemma_seek_rank(seek_to, jump);
        assert(self.apply_seek(first, jump).0 =~= self) by {
            self.core.verify.lemma_after_seek(seek_to);
            assert(self.core.verify.after_seek(first).stack =~= self.core.verify.stack);
        }
        assert(self.seek_step(seek_to, jump) == (after, Ok::<bool, ReadError>(false)));
        assert(self.seek(seek_to, jump) == after.seek(seek_to, jump));
        let second = after.parser().seek_next(seek_to);
        after.lemma_seek_rank(seek_to, jump);
        after.lemma_apply_seek(seek_to, jump);
        after.parser().lemma_seek_move(seek_to);
        after.parser().lemma_seek_next(seek_to);
        let moved = after.apply_seek(second, jump).0;
        crate::parse::lemma_total_one(len as int);
        assert(moved.parser().pending =~= after.parser().pending);
        assert(moved.core.verify.stack =~= after.core.verify.stack);
        if len > CHUNK_SIZE {
            assert(!moved.core.verify.accepts_parent(node));
            assert(moved.nodes().next(PARENT_SIZE as int) =~= node);
        } else {
            assert(!moved.core.accepts_chunk(node, Finalization::Root));
            assert(moved.input.next(len as int) =~= node);
        }
    }
}

impl SliceView {
    /// A slice reader for a root hash that is not that of the root node fails at the first read,
    /// with a wrong hash.
    pub proof fn law_other_root(self, len: u64, node: Seq<u8>, room: int)
        requires
            self.wf(),
            self.reader.fresh(),
            self.reader.outboard is None,
            self.remaining > 0,
            root_sized(node, len as int),
            self.reader.starts_with(len, node),
            self.reader.core.verify.root_hash != root_node(node, len as int).hash(),
            0 <= room,
        ensures
            self.read(room).result == Err::<Seq<u8>, ReadError>(
                ReadError::Decode(Error::HashMismatch),
            ),
            self.drain().1.len() == 0,
            self.drain().2 == Err::<(), ReadError>(ReadError::Decode(Error::HashMismatch)),
    {
        self.lemma_first_read(len, node, room);
        self.lemma_first_read(len, node, CHUNK_SIZE as int);
    }

    proof fn lemma_first_read(self, len: u64, node: Seq<u8>, room: int)
        requires
            self.wf(),
            self.reader.fresh(),
            self.reader.outboard is None,
            self.remaining > 0,
            root_sized(node, len as int),
            self.reader.starts_with(len, node),
            self.reader.core.verify.root_hash != root_node(node, len as int).hash(),
            0 <= room,
        ensures
            self.read(room).result == Err::<Seq<u8>, ReadError>(
                ReadError::Decode(Error::HashMismatch),
            ),
    {
        let start: int = self.start as int;
        let want: int = min(self.remaining as int, room);
        if start == 0 {
            self.reader.law_other_root(len, node, want);
        } else if len > CHUNK_SIZE || start >= len {
            self.reader.law_other_root_seek(len, node, start, false);
        } else {
            self.reader.lemma_seek_single_chunk(len, node, start);
            let at = self.reader.seek(start, false).0;
            assert(!at.core.accepts_chunk(node, Finalization::Root));
        }
    }
}

impl ReaderView {
    /// A seek into a single chunk reads the header alone.
    proof fn lemma_seek_single_chunk(self, len: u64, node: Seq<u8>, seek_to: int)
        requires
            self.wf(),
            self.fresh(),
            self.outboard is None,
            root_sized(node, len as int),
            self.starts_with(len, node),
            0 <= seek_to < len <= CHUNK_SIZE,
        ensures
            ({
                let (at, result) = self.seek(seek_to, false);
                &&& result is Ok
                &&& at.wf()
                &&& at.core.buf.len() == 0
                &&& at.parser().read_next() is Chunk
                &&& at.parser().pending.last() == len
                &&& at.parser().finalization() == Finalization::Root
                &&& at.core.verify.stack.last() == self.core.verify.root_hash
                &&& at.input.has(len as int)
                &&& at.input.next(len as int) == node
                &&& at.descend() == (at, Ok::<(), ReadError>(()))
            }),
    {
        let after = self.read_header().0;
        let first = self.parser().seek_next(seek_to);
        self.lemma_starts_with(len, node);
        self.lemma_seek_rank(seek_to, false);
        assert(self.apply_seek(first, false).0 =~= self) by {
            self.core.verify.lemma_after_seek(seek_to);
            assert(self.core.verify.after_seek(first).stack =~= self.core.verify.stack);
        }
        assert(self.seek_step(seek_to, false) == (after, Ok::<bool, ReadError>(false)));
        assert(self.seek(seek_to, false) == after.seek(seek_to, false));
        after.lemma_seek_rank(seek_to, false);
        after.lemma_apply_seek(seek_to, false);
        after.parser().lemma_seek_move(seek_to);
        after.parser().lemma_seek_next(seek_to);
        let second = after.parser().seek_next(seek_to);
        let moved = after.apply_seek(second, false).0;
        crate::parse::lemma_total_one(len as int);
        assert(moved.parser().pending =~= after.parser().pending);
        assert(moved.core.verify.stack =~= after.core.verify.stack);
        assert(after.seek_step(seek_to, false) == (moved, Ok::<bool, ReadError>(true)));
        assert(after.seek(seek_to, false) == (moved, Ok::<(), ReadError>(())));
    }
}

} // verus!
