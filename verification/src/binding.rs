//! A root hash binds its content: nothing but the content itself is ever handed out for it, unless
//! two different nodes have the same hash.

use vstd::prelude::*;

use crate::complete::found_at;
use crate::error::{offset_target, ReadError};
use crate::hash::{le_value, Finalization, Node, CHUNK_SIZE, HASH_SIZE, HEADER_SIZE, PARENT_SIZE};
use crate::parse::NextRead;
use crate::parts::{hashes_match, join, lemma_push_part, lemma_split_parts, unread};
use crate::reading::{min, ReaderView, SeekFrom};
use crate::tree::{
    combined_encoding, has_node, left, lemma_left_part, lemma_subtree_hash_len, parent_node, right,
    root_hash, subtree_hash, top_node,
};

verus! {

/// Whether `other` has the hash of a different node of the subtree over `content`.
pub open spec fn collides(content: Seq<u8>, finalization: Finalization, other: Node) -> bool {
    exists|node: Node|
        has_node(content, finalization, node) && node != other && #[trigger] node.hash()
            == other.hash()
}

/// Whether some node of the subtree over `other` has the hash of a different node of that over
/// `content`.
pub open spec fn trees_collide(
    content: Seq<u8>,
    other: Seq<u8>,
    finalization: Finalization,
) -> bool {
    exists|node: Node|
        has_node(other, finalization, node) && #[trigger] collides(content, finalization, node)
}

proof fn lemma_collides_below(
    content: Seq<u8>,
    part: Seq<u8>,
    finalization: Finalization,
    other: Node,
)
    requires
        content.len() > CHUNK_SIZE,
        part == left(content) || part == right(content),
        collides(part, Finalization::NotRoot, other),
    ensures
        collides(content, finalization, other),
{
    let node = choose|node: Node|
        has_node(part, Finalization::NotRoot, node) && node != other && #[trigger] node.hash()
            == other.hash();
    assert(has_node(content, finalization, node));
}

proof fn lemma_subtree_binds(content: Seq<u8>, other: Seq<u8>, finalization: Finalization)
    requires
        subtree_hash(content, finalization) == subtree_hash(other, finalization),
        content != other,
    ensures
        trees_collide(content, other, finalization),
    decreases content.len(),
{
    let node = top_node(content, finalization);
    let other_node = top_node(other, finalization);
    assert(has_node(content, finalization, node));
    assert(has_node(other, finalization, other_node));
    assert(node.hash() == other_node.hash());
    if node != other_node {
        assert(collides(content, finalization, other_node));
    } else if content.len() <= CHUNK_SIZE {
        assert(false);
    } else {
        assert(other.len() > CHUNK_SIZE);
        lemma_left_part(content.len() as int);
        lemma_left_part(other.len() as int);
        lemma_parent_node(content);
        lemma_parent_node(other);
        assert(content =~= left(content) + right(content));
        assert(other =~= left(other) + right(other));
        if left(content) != left(other) {
            lemma_subtree_binds(left(content), left(other), Finalization::NotRoot);
            let below = choose|below: Node|
                has_node(left(other), Finalization::NotRoot, below) && #[trigger] collides(
                    left(content),
                    Finalization::NotRoot,
                    below,
                );
            lemma_collides_below(content, left(content), finalization, below);
            assert(has_node(other, finalization, below));
        } else {
            lemma_subtree_binds(right(content), right(other), Finalization::NotRoot);
            let below = choose|below: Node|
                has_node(right(other), Finalization::NotRoot, below) && #[trigger] collides(
                    right(content),
                    Finalization::NotRoot,
                    below,
                );
            lemma_collides_below(content, right(content), finalization, below);
            assert(has_node(other, finalization, below));
        }
    }
}

/// A parent holds the hashes of its two subtrees.
proof fn lemma_parent_node(content: Seq<u8>)
    ensures
        parent_node(content).len() == PARENT_SIZE,
        parent_node(content).take(HASH_SIZE as int) == subtree_hash(
            left(content),
            Finalization::NotRoot,
        ),
        parent_node(content).skip(HASH_SIZE as int) == subtree_hash(
            right(content),
            Finalization::NotRoot,
        ),
{
    lemma_subtree_hash_len(left(content), Finalization::NotRoot);
    lemma_subtree_hash_len(right(content), Finalization::NotRoot);
    assert(parent_node(content).take(HASH_SIZE as int) =~= subtree_hash(
        left(content),
        Finalization::NotRoot,
    ));
    assert(parent_node(content).skip(HASH_SIZE as int) =~= subtree_hash(
        right(content),
        Finalization::NotRoot,
    ));
}

/// Different content has a different root hash, unless nodes of the two trees collide.
pub proof fn law_root_hash_binds(content: Seq<u8>, other: Seq<u8>)
    requires
        root_hash(content) == root_hash(other),
    ensures
        content == other || trees_collide(content, other, Finalization::Root),
{
    if content != other {
        lemma_subtree_binds(content, other, Finalization::Root);
    }
}

/// Bytes that do not start with the encoding of some content do not decode under its root hash,
/// unless they start with an encoding whose nodes collide with those of the content.
pub proof fn law_corruption_detected(bytes: Seq<u8>, content: Seq<u8>, other: Seq<u8>)
    requires
        !found_at(combined_encoding(content), bytes, 0),
        found_at(combined_encoding(other), bytes, 0),
        root_hash(other) == root_hash(content),
    ensures
        trees_collide(content, other, Finalization::Root),
{
    law_root_hash_binds(content, other);
}

/// Whether `source` holds `bytes` somewhere.
pub open spec fn occurs(bytes: Seq<u8>, source: Seq<u8>) -> bool {
    exists|start: int| #[trigger] found_at(bytes, source, start)
}

/// Whether every node of the subtrees over some parts is a node of the tree over `content`.
pub open spec fn genuine(
    parts: Seq<Seq<u8>>,
    finalization: Finalization,
    content: Seq<u8>,
) -> bool {
    forall|i: int, node: Node|
        0 <= i < parts.len() && #[trigger] has_node(parts[i], finalization, node) ==> has_node(
            content,
            Finalization::Root,
            node,
        )
}

pub proof fn lemma_genuine_root(content: Seq<u8>)
    ensures
        genuine(seq![content], Finalization::Root, content),
{
}

pub proof fn lemma_genuine_split(
    parts: Seq<Seq<u8>>,
    finalization: Finalization,
    content: Seq<u8>,
)
    requires
        genuine(parts, finalization, content),
        parts.len() > 0,
        parts.last().len() > CHUNK_SIZE,
        finalization == Finalization::Root ==> parts.len() == 1,
    ensures
        ({
            let part = parts.last();
            genuine(
                parts.drop_last().push(right(part)).push(left(part)),
                Finalization::NotRoot,
                content,
            )
        }),
{
    let part = parts.last();
    let split = parts.drop_last().push(right(part)).push(left(part));
    assert forall|i: int, node: Node|
        0 <= i < split.len() && #[trigger] has_node(
            split[i],
            Finalization::NotRoot,
            node,
        ) implies has_node(content, Finalization::Root, node) by {
        if i >= parts.len() - 1 {
            assert(has_node(parts[parts.len() - 1], finalization, node));
        } else {
            assert(split[i] == parts[i]);
            assert(has_node(parts[i], finalization, node));
        }
    }
}

pub proof fn lemma_genuine_take(
    parts: Seq<Seq<u8>>,
    finalization: Finalization,
    content: Seq<u8>,
    count: int,
)
    requires
        genuine(parts, finalization, content),
        0 <= count <= parts.len(),
    ensures
        genuine(parts.take(count), finalization, content),
{
    assert forall|i: int, node: Node|
        0 <= i < count && #[trigger] has_node(
            parts.take(count)[i],
            finalization,
            node,
        ) implies has_node(content, Finalization::Root, node) by {
        assert(has_node(parts[i], finalization, node));
    }
}

impl ReaderView {
    /// Whether no bytes in the sources have the hash of a different node of the tree over
    /// `content`.
    pub open spec fn unforged(self, content: Seq<u8>) -> bool {
        forall|node: Node| #[trigger]
            collides(content, Finalization::Root, node) ==> {
                &&& !occurs(node.bytes, self.input.bytes)
                &&& !occurs(node.bytes, self.nodes().bytes)
            }
    }

    /// Without forged nodes, bytes with the hash of a subtree are its topmost node.
    pub proof fn lemma_accepted(
        self,
        content: Seq<u8>,
        parts: Seq<Seq<u8>>,
        finalization: Finalization,
        node: Node,
    )
        requires
            self.unforged(content),
            parts.len() > 0,
            genuine(parts, finalization, content),
            node.hash() == subtree_hash(parts.last(), finalization),
            occurs(node.bytes, self.input.bytes) || occurs(node.bytes, self.nodes().bytes),
        ensures
            node == top_node(parts.last(), finalization),
    {
        let top = top_node(parts.last(), finalization);
        assert(has_node(parts[parts.len() - 1], finalization, top));
        assert(top.hash() == node.hash());
        if node != top {
            assert(collides(content, Finalization::Root, node));
        }
    }

    /// Whether the reader read without a seek, and `parts` is what comes in `content` behind what
    /// it read.
    pub open spec fn traces(self, content: Seq<u8>, parts: Seq<Seq<u8>>) -> bool {
        let position = self.parser().position;
        &&& self.wf()
        &&& self.unforged(content)
        &&& self.parser().skip == 0
        &&& self.core.verify.root_hash == root_hash(content)
        &&& self.parser().content_len is Some ==> {
            let finalization = self.parser().finalization();
            &&& parts.len() == self.parser().pending.len()
            &&& hashes_match(parts, self.core.verify.stack, finalization)
            &&& genuine(parts, finalization, content)
            &&& position <= content.len()
            &&& content == content.take(position) + join(parts)
            &&& self.core.buf == content.subrange(position - self.core.buf.len(), position)
        }
    }

    proof fn lemma_traces_header(self, content: Seq<u8>, parts: Seq<Seq<u8>>)
        requires
            self.traces(content, parts),
            self.parser().read_next() is Header,
            self.read_header().1 is Ok,
        ensures
            self.read_header().0.traces(content, seq![content]),
            self.read_header().0.handed_out() == self.handed_out(),
            self.read_header().0.parser().content_len is Some,
    {
        let after = self.read_header().0;
        let whole = seq![content];
        self.lemma_read_node();
        lemma_genuine_root(content);
        lemma_push_part(Seq::empty(), content);
        assert(Seq::<Seq<u8>>::empty().push(content) =~= whole);
        assert(content =~= content.take(0) + (content + join(Seq::empty())));
        assert(after.core.buf =~= content.subrange(0, 0));
        assert(after.nodes().bytes == self.nodes().bytes);
    }

    proof fn lemma_traces_parent(self, content: Seq<u8>, parts: Seq<Seq<u8>>) -> (split: Seq<
        Seq<u8>,
    >)
        requires
            self.traces(content, parts),
            self.parser().read_next() is Parent,
            self.read_parent().1 is Ok,
        ensures
            self.read_parent().0.traces(content, split),
            self.read_parent().0.handed_out() == self.handed_out(),
            self.read_parent().0.parser().content_len is Some,
    {
        let after = self.read_parent().0;
        let finalization = self.parser().finalization();
        let bytes = self.nodes().next(PARENT_SIZE as int);
        let node = Node::parent(bytes, finalization);
        let part = parts.last();
        let split = parts.drop_last().push(right(part)).push(left(part));
        assert(subtree_hash(parts[parts.len() - 1], finalization)
            == self.core.verify.stack.last());
        assert(found_at(bytes, self.nodes().bytes, self.nodes().position));
        self.lemma_accepted(content, parts, finalization, node);
        assert(part.len() > CHUNK_SIZE);
        assert(bytes == parent_node(part));
        self.lemma_read_node();
        self.parser().lemma_advance_parent();
        lemma_split_parts(parts);
        lemma_genuine_split(parts, finalization, content);
        assert(after.nodes().bytes == self.nodes().bytes);
        let stack = after.core.verify.stack;
        assert forall|i: int| 0 <= i < split.len() implies subtree_hash(
            #[trigger] split[i],
            Finalization::NotRoot,
        ) == stack[i] by {
            if i < parts.len() - 1 {
                assert(split[i] == parts[i]);
                assert(stack[i] == self.core.verify.stack[i]);
            }
        }
        split
    }

    proof fn lemma_traces_chunk(self, content: Seq<u8>, parts: Seq<Seq<u8>>, room: int)
        requires
            self.traces(content, parts),
            self.core.buf.len() == 0,
            self.parser().read_next() is Chunk,
            0 <= room,
            ({
                let size = self.parser().pending.last();
                self.read_chunk(size, self.parser().finalization(), 0, room).result is Ok
            }),
        ensures
            ({
                let size = self.parser().pending.last();
                let outcome = self.read_chunk(size, self.parser().finalization(), 0, room);
                let start = self.parser().position;
                &&& outcome.after.traces(content, parts.drop_last())
                &&& outcome.after.parser() == self.parser().advance_chunk()
                &&& start + size <= content.len()
                &&& outcome.result == Ok::<Seq<u8>, ReadError>(
                    content.subrange(start, start + min(size, room)),
                )
                &&& outcome.after.core.buf.len() == size - min(size, room)
            }),
    {
        let size: int = self.parser().pending.last();
        let finalization = self.parser().finalization();
        let outcome = self.read_chunk(size, finalization, 0, room);
        let after = outcome.after;
        let chunk = self.input.next(size);
        let position: int = self.parser().position;
        let part = parts.last();
        assert(subtree_hash(parts[parts.len() - 1], finalization)
            == self.core.verify.stack.last());
        if size > 0 {
            assert(found_at(chunk, self.input.bytes, self.input.position));
        } else {
            assert(self.input.bytes.subrange(0, 0) =~= chunk);
            assert(found_at(chunk, self.input.bytes, 0));
        }
        self.lemma_accepted(content, parts, finalization, Node::chunk(chunk, finalization));
        assert(chunk == part);
        self.lemma_read_chunk(size, finalization, 0, room);
        self.parser().lemma_advance_chunk();
        let rest = parts.drop_last();
        assert(rest.push(part) =~= parts);
        lemma_push_part(rest, part);
        lemma_genuine_take(parts, finalization, content, parts.len() - 1);
        assert(rest =~= parts.take(parts.len() - 1));
        assert(content.take(position) + (part + join(rest)) =~= (content.take(position) + part)
            + join(rest));
        assert((content.take(position) + (part + join(rest))).subrange(position, position + size)
            =~= part);
        assert(content.subrange(position, position + size) == chunk);
        assert(content.take(position + size) =~= content.take(position) + chunk);
        let pending = self.parser().pending;
        crate::parts::lemma_total_first(pending);
        assert(pending[pending.len() - 1] > 0 || self.parser().len() == 0);
        assert(rest.len() > 0 ==> !after.parser().at_root());
        assert forall|i: int| 0 <= i < rest.len() implies subtree_hash(
            #[trigger] rest[i],
            after.parser().finalization(),
        ) == after.core.verify.stack[i] by {
            assert(rest[i] == parts[i]);
            assert(self.core.verify.stack[i] == after.core.verify.stack[i]);
        }
        assert(chunk.skip(0) =~= chunk);
        assert(chunk.take(min(size, room)) =~= content.subrange(
            position,
            position + min(size, room),
        ));
        assert(after.core.buf =~= content.subrange(
            position + size - after.core.buf.len(),
            position + size,
        ));
        assert(after.nodes().bytes == self.nodes().bytes);
    }

    proof fn lemma_traces_descend(self, content: Seq<u8>, parts: Seq<Seq<u8>>) -> (rest: Seq<
        Seq<u8>,
    >)
        requires
            self.traces(content, parts),
        ensures
            self.descend().0.traces(content, rest),
            self.descend().0.handed_out() == self.handed_out(),
            self.descend().1 is Ok ==> self.descend().0.parser().content_len is Some,
        decreases self.rank(),
    {
        self.lemma_rank();
        self.lemma_read_node();
        if self.parser().read_next() is Header && self.read_header().1 is Ok {
            self.lemma_traces_header(content, parts);
            self.read_header().0.lemma_traces_descend(content, seq![content])
        } else if self.parser().read_next() is Parent && self.read_parent().1 is Ok {
            let split = self.lemma_traces_parent(content, parts);
            self.read_parent().0.lemma_traces_descend(content, split)
        } else {
            assert(self.descend().0.nodes().bytes == self.nodes().bytes);
            parts
        }
    }

    /// Whether everything that was handed out so far comes from `content`, in order and from the
    /// start.
    pub open spec fn keeps_to(self, content: Seq<u8>) -> bool {
        exists|parts: Seq<Seq<u8>>| #[trigger] self.traces(content, parts)
    }

    /// A reader that has read nothing yet keeps to any content with its root hash that is not
    /// forged.
    pub proof fn law_fresh_keeps_to(self, content: Seq<u8>)
        requires
            self.wf(),
            self.fresh(),
            self.core.verify.root_hash == root_hash(content),
            self.unforged(content),
        ensures
            self.keeps_to(content),
            self.handed_out() == 0,
    {
        assert(self.traces(content, Seq::empty()));
    }

    /// Whatever a reader is given to read, it hands out the bytes that come next in the content,
    /// or fails. It reports the end only at the end of the content. That goes on after a failure.
    pub proof fn law_read_verified(self, content: Seq<u8>, room: int)
        requires
            self.keeps_to(content),
            0 <= room,
        ensures
            ({
                let outcome = self.read(room);
                let start = self.handed_out();
                &&& outcome.after.keeps_to(content)
                &&& 0 <= start <= content.len()
                &&& outcome.result is Err ==> outcome.after.handed_out() == start
                &&& outcome.result matches Ok(bytes) ==> {
                    &&& start + bytes.len() <= content.len()
                    &&& bytes == content.subrange(start, start + bytes.len())
                    &&& outcome.after.handed_out() == start + bytes.len()
                    &&& bytes.len() == 0 && room > 0 ==> start == content.len()
                }
            }),
    {
        let parts = choose|parts: Seq<Seq<u8>>| #[trigger] self.traces(content, parts);
        let start: int = self.handed_out();
        let outcome = self.read(room);
        self.lemma_read(room);
        if self.core.buf.len() > 0 {
            let after = outcome.after;
            let count: int = min(self.core.buf.len() as int, room);
            assert(self.core.delivered(room) =~= content.subrange(start, start + count));
            assert(after.core.buf =~= content.subrange(
                self.parser().position - after.core.buf.len(),
                self.parser().position,
            ));
            assert(after.nodes().bytes == self.nodes().bytes);
            assert(after.traces(content, parts));
        } else {
            let rest = self.lemma_traces_descend(content, parts);
            self.lemma_descend();
            let here = self.descend().0;
            if self.descend().1 is Ok && here.parser().read_next() is Chunk {
                if outcome.result is Ok {
                    here.lemma_traces_chunk(content, rest, room);
                    assert(outcome.after.traces(content, rest.drop_last()));
                    if outcome.result->Ok_0.len() == 0 && room > 0 {
                        assert(here.parser().pending[here.parser().pending.len() - 1] == 0);
                        assert(rest.drop_last() =~= Seq::<Seq<u8>>::empty());
                    }
                } else {
                    assert(outcome.after.nodes().bytes == here.nodes().bytes);
                    assert(outcome.after.traces(content, rest));
                }
            } else {
                assert(outcome.after.traces(content, rest));
                if self.descend().1 is Ok {
                    assert(rest =~= Seq::<Seq<u8>>::empty());
                    assert(content.subrange(start, start) =~= Seq::<u8>::empty());
                }
            }
        }
    }

    /// Whatever a reader is given to read, what it hands out up to the end or up to a failure comes
    /// next in the content. If it gets to the end, that is all of it.
    pub proof fn law_drain_prefix(self, content: Seq<u8>)
        requires
            self.keeps_to(content),
        ensures
            ({
                let (after, bytes, result) = self.drain();
                let start = self.handed_out();
                &&& after.keeps_to(content)
                &&& 0 <= start
                &&& start + bytes.len() <= content.len()
                &&& bytes == content.subrange(start, start + bytes.len())
                &&& result is Ok ==> start + bytes.len() == content.len()
            }),
        decreases self.header_rank(), self.to_come(),
    {
        let room: int = CHUNK_SIZE as int;
        let start: int = self.handed_out();
        self.law_read_verified(content, room);
        assert(self.wf());
        self.lemma_read_progress(room);
        let outcome = self.read(room);
        if outcome.result is Ok && outcome.result->Ok_0.len() > 0 {
            let bytes = outcome.result->Ok_0;
            outcome.after.law_drain_prefix(content);
            let rest = outcome.after.drain().1;
            assert(bytes + rest =~= content.subrange(start, start + bytes.len() + rest.len()));
        } else {
            assert(content.subrange(start, start) =~= Seq::<u8>::empty());
        }
    }
}

impl ReaderView {
    /// Whether the header, if it is still to be read, announces the length of `content`.
    pub open spec fn announces(self, content: Seq<u8>) -> bool {
        self.parser().content_len is None && self.nodes().has(HEADER_SIZE as int) ==> le_value(
            self.nodes().next(HEADER_SIZE as int),
        ) == content.len()
    }

    /// Whether the reader stands somewhere in `content`, and nothing that it will read is forged.
    pub open spec fn follows(self, content: Seq<u8>) -> bool {
        &&& self.tracks(content)
        &&& self.unforged(content)
        &&& self.announces(content)
        &&& self.parser().content_len is Some ==> genuine(
            unread(self.parser(), content),
            self.parser().finalization(),
            content,
        )
    }

    pub proof fn lemma_follows_header(self, content: Seq<u8>)
        requires
            self.follows(content),
            self.parser().read_next() is Header,
        ensures
            self.read_header().0.follows(content),
            self.read_header().0.reading_position() == self.reading_position(),
            self.read_header().1 is Ok ==> self.read_header().0.parser().content_len is Some,
    {
        let after = self.read_header().0;
        self.lemma_read_node();
        if self.read_header().1 is Ok {
            self.core.verify.lemma_track_header(content);
            lemma_genuine_root(content);
            assert(after.core.buf =~= content.subrange(0, 0));
            assert(after.nodes().bytes == self.nodes().bytes);
        }
    }

    pub proof fn lemma_follows_parent(self, content: Seq<u8>)
        requires
            self.follows(content),
            self.parser().read_next() is Parent,
        ensures
            self.read_parent().0.follows(content),
            self.read_parent().0.reading_position() == self.reading_position(),
            self.read_parent().0.parser().content_len is Some,
            self.read_parent().1 is Ok ==> self.nodes().next(PARENT_SIZE as int) == parent_node(
                unread(self.parser(), content).last(),
            ),
    {
        let after = self.read_parent().0;
        let parts = unread(self.parser(), content);
        let finalization = self.parser().finalization();
        self.lemma_read_node();
        self.core.verify.lemma_track_parent(content);
        assert(after.nodes().bytes == self.nodes().bytes);
        if self.read_parent().1 is Ok {
            let bytes = self.nodes().next(PARENT_SIZE as int);
            assert(subtree_hash(parts[parts.len() - 1], finalization)
                == self.core.verify.stack.last());
            assert(found_at(bytes, self.nodes().bytes, self.nodes().position));
            self.lemma_accepted(content, parts, finalization, Node::parent(bytes, finalization));
            self.parser().lemma_advance_parent();
            lemma_genuine_split(parts, finalization, content);
        }
    }

    pub proof fn lemma_follows_chunk(self, content: Seq<u8>, skip: int, room: int)
        requires
            self.follows(content),
            self.core.buf.len() == 0,
            self.parser().read_next() is Chunk,
            0 <= skip <= self.parser().pending.last(),
            0 <= room,
        ensures
            ({
                let size = self.parser().pending.last();
                let outcome = self.read_chunk(size, self.parser().finalization(), skip, room);
                let start = self.parser().position + skip;
                let count = min(size - skip, room);
                &&& outcome.after.follows(content)
                &&& start + count <= content.len()
                &&& outcome.result is Ok ==> {
                    &&& outcome.result == Ok::<Seq<u8>, ReadError>(
                        content.subrange(start, start + count),
                    )
                    &&& outcome.after.reading_position() == start + count
                    &&& outcome.after.parser() == self.parser().advance_chunk()
                    &&& self.input.next(size) == unread(self.parser(), content).last()
                }
                &&& outcome.result is Err ==> outcome.after.reading_position()
                    == self.reading_position()
            }),
    {
        let size: int = self.parser().pending.last();
        let finalization = self.parser().finalization();
        let outcome = self.read_chunk(size, finalization, skip, room);
        let after = outcome.after;
        let parts = unread(self.parser(), content);
        let position: int = self.parser().position;
        let start: int = position + skip;
        let count: int = min(size - skip, room);
        self.core.verify.lemma_track_chunk(content);
        self.core.verify.lemma_tracks_segments(content);
        self.parser().lemma_advance_chunk();
        self.lemma_read_chunk(size, finalization, skip, room);
        assert(after.nodes().bytes == self.nodes().bytes);
        if outcome.result is Ok {
            let chunk = self.input.next(size);
            if size > 0 {
                assert(found_at(chunk, self.input.bytes, self.input.position));
            } else {
                assert(self.input.bytes.subrange(0, 0) =~= chunk);
                assert(found_at(chunk, self.input.bytes, 0));
            }
            self.lemma_accepted(content, parts, finalization, Node::chunk(chunk, finalization));
            assert(chunk == parts.last());
            lemma_genuine_take(parts, finalization, content, parts.len() - 1);
            assert(parts.drop_last() =~= parts.take(parts.len() - 1));
            let pending = self.parser().pending;
            crate::parts::lemma_total_first(pending);
            assert(pending[pending.len() - 1] > 0 || self.parser().len() == 0);
            assert(parts.len() > 1 ==> !after.parser().at_root());
            assert(self.core.buffer_chunk(chunk, skip).delivered(room) =~= content.subrange(
                start,
                start + count,
            ));
            assert(after.core.buf =~= content.subrange(
                position + size - after.core.buf.len(),
                position + size,
            ));
        }
    }

    pub proof fn lemma_follows_descend(self, content: Seq<u8>)
        requires
            self.follows(content),
        ensures
            self.descend().0.follows(content),
            self.descend().0.reading_position() == self.reading_position(),
            self.descend().1 is Ok ==> self.descend().0.parser().content_len is Some,
        decreases self.rank(),
    {
        self.lemma_rank();
        if self.parser().read_next() is Header {
            self.lemma_follows_header(content);
            if self.read_header().1 is Ok {
                self.read_header().0.lemma_follows_descend(content);
            }
        } else if self.parser().read_next() is Parent {
            self.lemma_follows_parent(content);
            if self.read_parent().1 is Ok {
                self.read_parent().0.lemma_follows_descend(content);
            }
        }
    }

    /// Whatever a reader is given to read behind a header that announces the right length, it hands
    /// out the bytes of the content at its position, or fails. Seeks may come before, and failures.
    pub proof fn law_read_anywhere(self, content: Seq<u8>, room: int)
        requires
            self.follows(content),
            0 <= room,
        ensures
            ({
                let outcome = self.read(room);
                let start = self.reading_position();
                &&& outcome.after.follows(content)
                &&& 0 <= start <= content.len()
                &&& outcome.result is Err ==> outcome.after.reading_position() == start
                &&& outcome.result matches Ok(bytes) ==> {
                    &&& start + bytes.len() <= content.len()
                    &&& bytes == content.subrange(start, start + bytes.len())
                    &&& outcome.after.reading_position() == start + bytes.len()
                    &&& bytes.len() == 0 && room > 0 ==> start == content.len()
                }
            }),
    {
        let start: int = self.reading_position();
        let outcome = self.read(room);
        self.lemma_read(room);
        if self.core.buf.len() > 0 {
            self.core.verify.lemma_tracks_segments(content);
            let after = outcome.after;
            let count: int = min(self.core.buf.len() as int, room);
            assert(self.core.delivered(room) =~= content.subrange(start, start + count));
            assert(after.core.buf =~= content.subrange(
                self.parser().position - after.core.buf.len(),
                self.parser().position,
            ));
            assert(after.nodes().bytes == self.nodes().bytes);
        } else {
            self.lemma_follows_descend(content);
            self.lemma_descend();
            let here = self.descend().0;
            if here.parser().content_len is Some {
                here.core.verify.lemma_tracks_segments(content);
            }
            if self.descend().1 is Ok {
                if here.parser().read_next() is Chunk {
                    here.lemma_follows_chunk(content, here.parser().skip, room);
                } else {
                    assert(content.subrange(start, start) =~= Seq::<u8>::empty());
                }
            }
        }
    }

    pub proof fn lemma_follows_apply_seek(self, content: Seq<u8>, seek_to: int, jump: bool)
        requires
            self.follows(content),
            self.core.buf.len() == 0,
            0 <= seek_to,
        ensures
            ({
                let (after, result) = self.apply_seek(self.parser().seek_next(seek_to), jump);
                &&& after.follows(content)
                &&& after.core.buf.len() == 0
                &&& result is Ok ==> after.parser() == self.parser().seek_move(seek_to)
            }),
    {
        let bookkeeping = self.parser().seek_next(seek_to);
        let verify = self.core.verify;
        let (after, result) = self.apply_seek(bookkeeping, jump);
        self.lemma_apply_seek(seek_to, jump);
        self.parser().lemma_seek_next(seek_to);
        assert(after.nodes().bytes == self.nodes().bytes);
        if self.parser().content_len is None {
            verify.lemma_after_seek(seek_to);
            assert(verify.after_seek(bookkeeping).stack =~= verify.stack);
            assert(after =~= self);
        } else if result is Ok {
            let moved = verify.after_seek(bookkeeping);
            let depth: int = bookkeeping.stack_depth as int;
            verify.lemma_track_seek(content, seek_to);
            moved.lemma_tracks_segments(content);
            lemma_genuine_root(content);
            let from = if bookkeeping.reset_to_root {
                seq![content]
            } else {
                unread(self.parser(), content)
            };
            let finalization = if bookkeeping.reset_to_root {
                Finalization::Root
            } else {
                self.parser().finalization()
            };
            lemma_genuine_take(from, finalization, content, depth);
            self.parser().lemma_seek_move(seek_to);
            assert(after.core.buf =~= content.subrange(
                after.parser().position,
                after.parser().position,
            ));
        }
    }

    pub proof fn lemma_follows_seek_step(self, content: Seq<u8>, seek_to: int, jump: bool)
        requires
            self.follows(content),
            self.core.buf.len() == 0,
            0 <= seek_to,
        ensures
            self.seek_step(seek_to, jump).0.follows(content),
            self.seek_step(seek_to, jump).1 == Ok::<bool, ReadError>(true)
                ==> self.seek_step(seek_to, jump).0.parser().content_position() == min(
                seek_to,
                content.len() as int,
            ),
    {
        let bookkeeping = self.parser().seek_next(seek_to);
        let (moved, applied) = self.apply_seek(bookkeeping, jump);
        self.lemma_follows_apply_seek(content, seek_to, jump);
        self.parser().lemma_seek_next(seek_to);
        self.parser().lemma_seek_move(seek_to);
        if applied is Ok {
            match bookkeeping.next_read {
                NextRead::Header => moved.lemma_follows_header(content),
                NextRead::Parent => moved.lemma_follows_parent(content),
                NextRead::Chunk { size, finalization, skip } => {
                    moved.lemma_follows_chunk(content, skip as int, 0);
                },
                NextRead::Done => {},
            }
        }
    }

    /// Whatever a reader is given to read behind a header that announces the right length, a seek
    /// that succeeds leads to its target, or to the end if the target lies past it.
    pub proof fn law_seek_anywhere(self, content: Seq<u8>, seek_to: int, jump: bool)
        requires
            self.follows(content),
            self.core.buf.len() == 0,
            0 <= seek_to,
        ensures
            ({
                let (after, result) = self.seek(seek_to, jump);
                &&& after.follows(content)
                &&& after.core.buf.len() == 0
                &&& result is Ok ==> after.reading_position() == min(
                    seek_to,
                    content.len() as int,
                )
            }),
        decreases self.header_rank(), self.reset_rank(seek_to), self.work_rank(),
    {
        self.lemma_seek_rank(seek_to, jump);
        self.lemma_follows_seek_step(content, seek_to, jump);
        let (after, result) = self.seek_step(seek_to, jump);
        if result == Ok::<bool, ReadError>(false) {
            after.law_seek_anywhere(content, seek_to, jump);
        }
    }

    /// Whatever a reader is given to read behind a header that announces the right length, finding
    /// out the verified length gives that length, or fails.
    pub proof fn law_verify_len_anywhere(self, content: Seq<u8>)
        requires
            self.follows(content),
            self.core.buf.len() == 0,
        ensures
            ({
                let (after, result) = self.verify_len();
                &&& after.follows(content)
                &&& after.core.buf.len() == 0
                &&& result matches Ok(len) ==> len == content.len()
            }),
        decreases self.header_rank(), self.work_rank(),
    {
        if !self.parser().validated {
            self.lemma_seek_rank(u64::MAX as int, true);
            self.lemma_follows_seek_step(content, u64::MAX as int, true);
            let (after, result) = self.seek_step(u64::MAX as int, true);
            if result is Ok {
                after.law_verify_len_anywhere(content);
            }
        }
    }

    /// A reader that has read nothing yet follows any content with its root hash, if the header
    /// announces its length and nothing is forged.
    pub proof fn law_fresh_follows(self, content: Seq<u8>)
        requires
            self.wf(),
            self.fresh(),
            content.len() <= u64::MAX,
            self.core.verify.root_hash == root_hash(content),
            self.unforged(content),
            self.announces(content),
        ensures
            self.follows(content),
            self.reading_position() == 0,
    {
    }

    /// Whatever a reader is given to read behind a header that announces the right length: a seek
    /// from the start, the end or the current position that succeeds returns its target, and leads
    /// there, or to the end if the target lies past it.
    pub proof fn law_seek_from_anywhere(self, content: Seq<u8>, position: SeekFrom)
        requires
            self.follows(content),
        ensures
            ({
                let (after, result) = self.seek_from(position);
                &&& after.follows(content)
                &&& result matches Ok(target) ==> {
                    &&& after.reading_position() == min(target as int, content.len() as int)
                    &&& target == match position {
                        SeekFrom::Start(offset) => offset as int,
                        SeekFrom::End(offset) => content.len() + offset,
                        SeekFrom::Current(offset) => self.reading_position() + offset,
                    }
                }
            }),
    {
        let cleared = self.clear_buf();
        assert(cleared.core.buf =~= content.subrange(
            self.parser().position,
            self.parser().position,
        )) by {
            if self.parser().content_len is Some {
                self.core.verify.lemma_tracks_segments(content);
            }
        }
        assert(cleared.nodes().bytes == self.nodes().bytes);
        assert(cleared.follows(content));
        match position {
            SeekFrom::Start(offset) => cleared.law_seek_anywhere(content, offset as int, true),
            SeekFrom::End(offset) => {
                cleared.law_verify_len_anywhere(content);
                let (after, len) = cleared.verify_len();
                if len is Ok {
                    if let Ok(seek_to) = offset_target(len->Ok_0 as int, offset as int) {
                        after.law_seek_anywhere(content, seek_to as int, true);
                    }
                }
            },
            SeekFrom::Current(offset) => {
                let current = self.reading_position();
                if let Ok(seek_to) = offset_target(current, offset as int) {
                    cleared.law_seek_anywhere(content, seek_to as int, true);
                }
            },
        }
    }

    /// A seek to the end or past it succeeds only once the final chunk was verified.
    pub proof fn law_seek_validates(self, seek_to: int, jump: bool)
        requires
            self.can_seek(),
            0 <= seek_to,
        ensures
            ({
                let (after, result) = self.seek(seek_to, jump);
                result is Ok ==> {
                    &&& after.parser().content_len is Some
                    &&& seek_to >= after.parser().len() ==> after.parser().validated
                }
            }),
        decreases self.header_rank(), self.reset_rank(seek_to), self.work_rank(),
    {
        self.lemma_seek_rank(seek_to, jump);
        self.lemma_apply_seek(seek_to, jump);
        let (after, result) = self.seek_step(seek_to, jump);
        if result == Ok::<bool, ReadError>(false) {
            after.law_seek_validates(seek_to, jump);
        }
    }
}

} // verus!
