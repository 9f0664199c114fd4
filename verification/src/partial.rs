//! What is there can be read: readers ask for no node but those that they need, so it takes no more
//! than these to read or to seek, whatever else the sources hold or lack.

use vstd::prelude::*;

use crate::complete::{found_at, lemma_fill_step};
use crate::damage::{chunk_base, content_offset};
use crate::error::ReadError;
use crate::hash::{header, lemma_header_value, CHUNK_SIZE, HEADER_SIZE, PARENT_SIZE};
use crate::origin::chunk_at;
use crate::parse::{
    lemma_parents_size_bound, lemma_total_nonnegative, lemma_total_one, lemma_total_push, total,
    total_parents, NextRead, ParseView,
};
use crate::parts::unread;
use crate::reading::{min, ReaderView, SeekFrom};
use crate::tree::{
    left, left_part, lemma_left_part, lemma_split_count, lemma_subtree_hash_len, parent_node,
    parents_size, right, root_hash, subtree_size,
};

verus! {

/// Whether the tree over `len` bytes has a subtree over the `sub` bytes from `base` on, with
/// `parents` bytes of parents before it in pre-order.
pub open spec fn lies_at(len: int, base: int, sub: int, parents: int) -> bool
    decreases len,
{
    ||| base == 0 && sub == len && parents == 0
    ||| len > CHUNK_SIZE && {
        proof {
            lemma_left_part(len);
        }
        let l = left_part(len);
        if base < l {
            lies_at(l, base, sub, parents - PARENT_SIZE)
        } else {
            lies_at(len - l, base - l, sub, parents - PARENT_SIZE - parents_size(l))
        }
    }
}

pub proof fn lemma_lies_bounds(len: int, base: int, sub: int, parents: int)
    requires
        lies_at(len, base, sub, parents),
        0 <= len,
    ensures
        0 <= base,
        0 <= sub,
        base + sub <= len,
        base % (CHUNK_SIZE as int) == 0,
        0 <= parents,
        parents + parents_size(sub) <= parents_size(len),
        0 < len ==> 0 < sub,
        sub <= CHUNK_SIZE ==> sub == min(CHUNK_SIZE as int, len - base),
        sub <= CHUNK_SIZE ==> content_offset(len, base) == base + parents,
    decreases len,
{
    if !(base == 0 && sub == len && parents == 0) {
        let l: int = left_part(len);
        lemma_left_part(len);
        lemma_split_count(len);
        lemma_parents_size_bound(l);
        lemma_parents_size_bound(len - l);
        if base < l {
            lemma_lies_bounds(l, base, sub, parents - PARENT_SIZE);
        } else {
            lemma_lies_bounds(len - l, base - l, sub, parents - PARENT_SIZE - parents_size(l));
        }
    }
}

/// The two parts of a subtree are subtrees.
pub proof fn lemma_lies_split(len: int, base: int, sub: int, parents: int)
    requires
        lies_at(len, base, sub, parents),
        0 <= len,
        sub > CHUNK_SIZE,
    ensures
        ({
            let l = left_part(sub);
            &&& lies_at(len, base, l, parents + PARENT_SIZE)
            &&& lies_at(len, base + l, sub - l, parents + PARENT_SIZE + parents_size(l))
        }),
    decreases len,
{
    lemma_left_part(sub);
    lemma_lies_bounds(len, base, sub, parents);
    let part: int = left_part(sub);
    if base == 0 && sub == len && parents == 0 {
        assert(lies_at(part, 0, part, 0));
        assert(lies_at(sub - part, 0, sub - part, 0));
    } else {
        let l: int = left_part(len);
        lemma_left_part(len);
        if base < l {
            lemma_lies_bounds(l, base, sub, parents - PARENT_SIZE);
            lemma_lies_split(l, base, sub, parents - PARENT_SIZE);
        } else {
            lemma_lies_split(len - l, base - l, sub, parents - PARENT_SIZE - parents_size(l));
        }
    }
}

/// Whether the unread subtrees are subtrees of the tree, each in its place.
pub open spec fn in_tree(parser: ParseView) -> bool {
    forall|i: int|
        0 <= i < parser.pending.len() ==> lies_at(
            parser.len(),
            parser.len() - total(parser.pending.take(i + 1)),
            #[trigger] parser.pending[i],
            parents_size(parser.len()) - total_parents(parser.pending.take(i + 1)),
        )
}

pub proof fn lemma_in_tree_last(parser: ParseView)
    requires
        parser.wf(),
        parser.content_len is Some,
        in_tree(parser),
        parser.pending.len() > 0,
    ensures
        lies_at(
            parser.len(),
            parser.position,
            parser.pending.last(),
            parser.outboard_position() - HEADER_SIZE,
        ),
{
    let last: int = parser.pending.len() - 1;
    assert(parser.pending.take(last + 1) =~= parser.pending);
    assert(parser.pending[last] == parser.pending.last());
}

pub proof fn lemma_in_tree_root(parser: ParseView)
    requires
        parser.pending == seq![parser.len()],
    ensures
        in_tree(parser),
{
    lemma_total_one(parser.len());
    assert forall|i: int| 0 <= i < parser.pending.len() implies lies_at(
        parser.len(),
        parser.len() - total(parser.pending.take(i + 1)),
        #[trigger] parser.pending[i],
        parents_size(parser.len()) - total_parents(parser.pending.take(i + 1)),
    ) by {
        assert(parser.pending.take(i + 1) =~= parser.pending);
    }
}

pub proof fn lemma_in_tree_take(parser: ParseView, from: ParseView, depth: int)
    requires
        in_tree(from),
        parser.content_len == from.content_len,
        0 <= depth <= from.pending.len(),
        parser.pending == from.pending.take(depth),
    ensures
        in_tree(parser),
{
    assert forall|i: int| 0 <= i < parser.pending.len() implies lies_at(
        parser.len(),
        parser.len() - total(parser.pending.take(i + 1)),
        #[trigger] parser.pending[i],
        parents_size(parser.len()) - total_parents(parser.pending.take(i + 1)),
    ) by {
        assert(parser.pending[i] == from.pending[i]);
        assert(parser.pending.take(i + 1) =~= from.pending.take(i + 1));
    }
}

pub proof fn lemma_in_tree_parent(parser: ParseView)
    requires
        parser.wf(),
        in_tree(parser),
        parser.read_next() is Parent,
    ensures
        in_tree(parser.advance_parent()),
{
    let after = parser.advance_parent();
    let sub: int = parser.pending.last();
    let l: int = left_part(sub);
    let rest = parser.pending.drop_last();
    let depth: int = rest.len() as int;
    lemma_in_tree_last(parser);
    lemma_lies_split(
        parser.len(),
        parser.position,
        sub,
        parser.outboard_position() - HEADER_SIZE,
    );
    lemma_left_part(sub);
    lemma_split_count(sub);
    lemma_total_push(rest, sub - l);
    lemma_total_push(rest.push(sub - l), l);
    assert forall|i: int| 0 <= i < after.pending.len() implies lies_at(
        after.len(),
        after.len() - total(after.pending.take(i + 1)),
        #[trigger] after.pending[i],
        parents_size(after.len()) - total_parents(after.pending.take(i + 1)),
    ) by {
        if i < depth {
            assert(after.pending[i] == parser.pending[i]);
            assert(after.pending.take(i + 1) =~= parser.pending.take(i + 1));
        } else if i == depth {
            assert(after.pending.take(i + 1) =~= rest.push(sub - l));
        } else {
            assert(after.pending.take(i + 1) =~= after.pending);
        }
    }
}

pub proof fn lemma_in_tree_chunk(parser: ParseView)
    requires
        parser.wf(),
        in_tree(parser),
        parser.read_next() is Chunk,
    ensures
        in_tree(parser.advance_chunk()),
{
    let depth: int = parser.pending.len() - 1;
    assert(parser.pending.drop_last() =~= parser.pending.take(depth));
    lemma_in_tree_take(parser.advance_chunk(), parser, depth);
}

pub proof fn lemma_in_tree_seek(parser: ParseView, seek_to: int)
    requires
        parser.wf(),
        parser.content_len is Some,
        in_tree(parser),
        0 <= seek_to,
    ensures
        in_tree(parser.seek_move(seek_to)),
{
    let moved = parser.seek_move(seek_to);
    let from = if seek_to < parser.len() && seek_to < parser.position {
        parser.reset()
    } else {
        parser
    };
    parser.lemma_seek_move(seek_to);
    lemma_in_tree_root(parser.reset());
    lemma_in_tree_take(moved, from, moved.pending.len() as int);
}

/// How much of an encoding a subtree over `len` bytes takes.
pub open spec fn extent(len: int, outboard: bool) -> int {
    if outboard {
        parents_size(len)
    } else {
        subtree_size(len)
    }
}

/// Whether `bytes` has the parents above the byte of `content` at `position`, each where it belongs
/// in an encoding of the subtree over `content` that starts at `at`.
pub open spec fn path_at(
    content: Seq<u8>,
    bytes: Seq<u8>,
    at: int,
    position: int,
    outboard: bool,
) -> bool
    decreases content.len(),
{
    content.len() <= CHUNK_SIZE || {
        proof {
            lemma_left_part(content.len() as int);
        }
        let l = left_part(content.len() as int);
        &&& found_at(parent_node(content), bytes, at)
        &&& if position < l {
            path_at(left(content), bytes, at + PARENT_SIZE, position, outboard)
        } else {
            path_at(
                right(content),
                bytes,
                at + PARENT_SIZE + extent(l, outboard),
                position - l,
                outboard,
            )
        }
    }
}

/// Where a subtree starts in an encoding that starts at `at`.
pub open spec fn place(at: int, base: int, parents: int, outboard: bool) -> int {
    if outboard {
        at + parents
    } else {
        at + base + parents
    }
}

/// The parents above a byte are those above it in any subtree that holds it.
pub proof fn lemma_path_down(
    content: Seq<u8>,
    bytes: Seq<u8>,
    at: int,
    position: int,
    outboard: bool,
    base: int,
    sub: int,
    parents: int,
)
    requires
        lies_at(content.len() as int, base, sub, parents),
        path_at(content, bytes, at, position, outboard),
        base <= position < base + sub,
    ensures
        path_at(
            content.subrange(base, base + sub),
            bytes,
            place(at, base, parents, outboard),
            position - base,
            outboard,
        ),
    decreases content.len(),
{
    let len: int = content.len() as int;
    lemma_lies_bounds(len, base, sub, parents);
    if base == 0 && sub == len && parents == 0 {
        assert(content.subrange(0, len) =~= content);
    } else {
        let l: int = left_part(len);
        lemma_left_part(len);
        if base < l {
            lemma_lies_bounds(l, base, sub, parents - PARENT_SIZE);
            lemma_path_down(
                left(content),
                bytes,
                at + PARENT_SIZE,
                position,
                outboard,
                base,
                sub,
                parents - PARENT_SIZE,
            );
            assert(left(content).subrange(base, base + sub) =~= content.subrange(
                base,
                base + sub,
            ));
        } else {
            lemma_path_down(
                right(content),
                bytes,
                at + PARENT_SIZE + extent(l, outboard),
                position - l,
                outboard,
                base - l,
                sub,
                parents - PARENT_SIZE - parents_size(l),
            );
            assert(right(content).subrange(base - l, base - l + sub) =~= content.subrange(
                base,
                base + sub,
            ));
        }
    }
}

/// Where the chunk ends that holds the byte at `position` of `len` bytes.
pub open spec fn chunk_end(len: int, position: int) -> int {
    min(chunk_base(position) + CHUNK_SIZE, len)
}

pub proof fn lemma_chunk_around(base: int, size: int, len: int, position: int)
    requires
        base % (CHUNK_SIZE as int) == 0,
        size == min(CHUNK_SIZE as int, len - base),
        base <= position < base + size,
    ensures
        chunk_base(position) == base,
        chunk_end(len, position) == base + size,
{
}

pub proof fn lemma_chunk_within(len: int, position: int, end: int)
    requires
        0 <= position < end <= len,
        end % (CHUNK_SIZE as int) == 0 || end == len,
    ensures
        position < chunk_end(len, position) <= end,
        chunk_end(len, position) - position <= CHUNK_SIZE,
{
}

impl ReaderView {
    /// Whether the sources have the header and the parents above the byte of `content` at
    /// `position`, each where it belongs in an encoding of `content`.
    pub open spec fn has_path(self, content: Seq<u8>, position: int) -> bool {
        &&& found_at(header(content.len() as int), self.nodes().bytes, 0)
        &&& path_at(
            content,
            self.nodes().bytes,
            HEADER_SIZE as int,
            position,
            self.outboard is Some,
        )
    }

    /// Where the chunk that starts at `base` belongs in the source of the content.
    pub open spec fn chunk_place(self, content: Seq<u8>, base: int) -> int {
        if self.outboard is Some {
            base
        } else {
            HEADER_SIZE + content_offset(content.len() as int, base)
        }
    }

    /// Whether the sources have the chunk around the byte of `content` at `position` where it
    /// belongs in an encoding of `content`.
    pub open spec fn has_chunk(self, content: Seq<u8>, position: int) -> bool {
        let base = chunk_base(position);
        found_at(chunk_at(content, base), self.input.bytes, self.chunk_place(content, base))
    }

    /// Whether the sources have all that it takes to read the byte of `content` at `position`.
    pub open spec fn can_read(self, content: Seq<u8>, position: int) -> bool {
        self.has_path(content, position) && self.has_chunk(content, position)
    }

    /// Whether the reader stands somewhere in `content`, whatever its sources hold.
    pub open spec fn stands_in(self, content: Seq<u8>) -> bool {
        &&& self.tracks(content)
        &&& self.parser().content_len is Some ==> in_tree(self.parser())
        &&& self.core.buf.len() > 0 ==> self.parser().position == chunk_end(
            content.len() as int,
            self.reading_position(),
        )
    }

    pub proof fn lemma_header_there(self, content: Seq<u8>)
        requires
            self.stands_in(content),
            self.parser().read_next() is Header,
            self.nodes().has(HEADER_SIZE as int),
            self.nodes().next(HEADER_SIZE as int) == header(content.len() as int),
        ensures
            self.read_header().1 is Ok,
            self.read_header().0.stands_in(content),
            self.aligned() ==> self.read_header().0.aligned(),
            self.read_header().0.reading_position() == self.reading_position(),
            self.read_header().0.parser().content_len is Some,
            self.read_header().0.core.buf.len() == 0,
    {
        let len: int = content.len() as int;
        let after = self.read_header().0;
        lemma_header_value(content.len() as u64);
        self.lemma_read_node();
        self.core.verify.lemma_track_header(content);
        lemma_in_tree_root(after.parser());
        lemma_total_one(len);
        assert(after.core.buf =~= content.subrange(0, 0));
    }

    pub proof fn lemma_parent_there(self, content: Seq<u8>)
        requires
            self.stands_in(content),
            self.parser().read_next() is Parent,
            self.nodes().has(PARENT_SIZE as int),
            self.nodes().next(PARENT_SIZE as int) == parent_node(
                unread(self.parser(), content).last(),
            ),
        ensures
            self.read_parent().1 is Ok,
            self.read_parent().0.stands_in(content),
            self.aligned() ==> self.read_parent().0.aligned(),
            self.read_parent().0.reading_position() == self.reading_position(),
            self.read_parent().0.parser().content_len is Some,
            self.read_parent().0.parser().position == self.parser().position,
    {
        self.lemma_read_node();
        self.core.verify.lemma_track_parent(content);
        self.core.verify.lemma_tracks_segments(content);
        self.parser().lemma_advance_parent();
        lemma_in_tree_parent(self.parser());
    }

    pub proof fn lemma_chunk_there(self, content: Seq<u8>, skip: int, room: int)
        requires
            self.stands_in(content),
            self.core.buf.len() == 0,
            self.parser().read_next() is Chunk,
            0 <= skip <= self.parser().pending.last(),
            0 <= room,
            self.input.has(self.parser().pending.last()),
            self.input.next(self.parser().pending.last()) == unread(
                self.parser(),
                content,
            ).last(),
        ensures
            ({
                let size = self.parser().pending.last();
                let outcome = self.read_chunk(size, self.parser().finalization(), skip, room);
                let start = self.parser().position + skip;
                let count = min(size - skip, room);
                &&& outcome.result == Ok::<Seq<u8>, ReadError>(
                    content.subrange(start, start + count),
                )
                &&& start + count <= content.len()
                &&& outcome.after.stands_in(content)
                &&& self.aligned() ==> outcome.after.aligned()
                &&& outcome.after.reading_position() == start + count
                &&& outcome.after.parser() == self.parser().advance_chunk()
                &&& skip == size ==> outcome.after.core.buf.len() == 0
            }),
    {
        let size: int = self.parser().pending.last();
        let finalization = self.parser().finalization();
        let outcome = self.read_chunk(size, finalization, skip, room);
        let part = unread(self.parser(), content).last();
        let position: int = self.parser().position;
        let start: int = position + skip;
        let count: int = min(size - skip, room);
        self.core.verify.lemma_track_chunk(content);
        self.core.verify.lemma_tracks_segments(content);
        self.parser().lemma_advance_chunk();
        self.lemma_read_chunk(size, finalization, skip, room);
        lemma_in_tree_last(self.parser());
        lemma_lies_bounds(
            content.len() as int,
            position,
            size,
            self.parser().outboard_position() - HEADER_SIZE,
        );
        lemma_in_tree_chunk(self.parser());
        let buffered = self.core.buffer_chunk(part, skip);
        assert(buffered.delivered(room) =~= content.subrange(start, start + count));
        assert(outcome.after.core.buf =~= content.subrange(
            position + size - outcome.after.core.buf.len(),
            position + size,
        ));
        if outcome.after.core.buf.len() > 0 {
            lemma_chunk_around(position, size, content.len() as int, start + count);
        }
    }

    /// The next parent above a byte is in its place if all parents above that byte are.
    pub proof fn lemma_path_next(self, content: Seq<u8>, position: int)
        requires
            self.stands_in(content),
            self.aligned(),
            self.parser().read_next() is Parent,
            self.has_path(content, position),
            self.parser().position <= position < self.parser().position
                + self.parser().pending.last(),
        ensures
            self.nodes().has(PARENT_SIZE as int),
            self.nodes().next(PARENT_SIZE as int) == parent_node(
                unread(self.parser(), content).last(),
            ),
    {
        let sub: int = self.parser().pending.last();
        let base: int = self.parser().position;
        let parents: int = self.parser().outboard_position() - HEADER_SIZE;
        let part = unread(self.parser(), content).last();
        self.core.verify.lemma_tracks_segments(content);
        lemma_in_tree_last(self.parser());
        lemma_path_down(
            content,
            self.nodes().bytes,
            HEADER_SIZE as int,
            position,
            self.outboard is Some,
            base,
            sub,
            parents,
        );
        assert(part == content.subrange(base, base + sub));
        lemma_subtree_hash_len(left(part), crate::hash::Finalization::NotRoot);
        lemma_subtree_hash_len(right(part), crate::hash::Finalization::NotRoot);
        assert(found_at(parent_node(part), self.nodes().bytes, self.nodes().position));
    }

    /// The next chunk is in its place if the chunk around one of its bytes is.
    pub proof fn lemma_chunk_next(self, content: Seq<u8>, position: int)
        requires
            self.stands_in(content),
            self.aligned(),
            self.parser().read_next() is Chunk,
            self.parser().position <= position < self.parser().position
                + self.parser().pending.last() || content.len() == 0,
            0 < content.len() ==> self.has_chunk(content, position),
        ensures
            self.input.has(self.parser().pending.last()),
            self.input.next(self.parser().pending.last()) == unread(
                self.parser(),
                content,
            ).last(),
    {
        let size: int = self.parser().pending.last();
        let base: int = self.parser().position;
        let parents: int = self.parser().outboard_position() - HEADER_SIZE;
        let part = unread(self.parser(), content).last();
        let len: int = content.len() as int;
        self.core.verify.lemma_tracks_segments(content);
        lemma_in_tree_last(self.parser());
        lemma_lies_bounds(len, base, size, parents);
        if len > 0 {
            lemma_chunk_around(base, size, len, position);
            assert(part == chunk_at(content, base));
            assert(found_at(part, self.input.bytes, self.input.position));
        } else {
            assert(part =~= Seq::<u8>::empty());
        }
    }

    /// What is left of the way to the next chunk is there.
    pub proof fn lemma_descend_there(self, content: Seq<u8>)
        requires
            self.stands_in(content),
            self.aligned(),
            self.has_path(content, self.parser().content_position()),
            self.parser().content_position() < content.len() || content.len() == 0,
        ensures
            self.descend().1 is Ok,
            self.descend().0.stands_in(content),
            self.descend().0.aligned(),
            self.descend().0.reading_position() == self.reading_position(),
            self.descend().0.parser().content_len is Some,
            self.descend().0.input.bytes == self.input.bytes,
            self.descend().0.outboard is Some == self.outboard is Some,
        decreases self.rank(),
    {
        self.lemma_rank();
        let position: int = self.parser().content_position();
        if self.parser().read_next() is Header {
            lemma_header_value(content.len() as u64);
            self.lemma_header_there(content);
            let after = self.read_header().0;
            assert(after.nodes().bytes == self.nodes().bytes);
            after.lemma_descend_there(content);
        } else if self.parser().read_next() is Parent {
            self.core.verify.lemma_tracks_segments(content);
            self.lemma_path_next(content, position);
            self.lemma_parent_there(content);
            let after = self.read_parent().0;
            assert(after.nodes().bytes == self.nodes().bytes);
            after.lemma_descend_there(content);
        }
    }

    /// What is buffered is the rest of a chunk, and is handed out first.
    pub proof fn lemma_deliver(self, content: Seq<u8>, room: int)
        requires
            self.stands_in(content),
            self.core.buf.len() > 0,
            0 <= room,
        ensures
            ({
                let start = self.reading_position();
                let outcome = self.read(room);
                let count = min(chunk_end(content.len() as int, start) - start, room);
                &&& 0 <= start < content.len()
                &&& start + count <= content.len()
                &&& outcome.result == Ok::<Seq<u8>, ReadError>(
                    content.subrange(start, start + count),
                )
                &&& outcome.after.stands_in(content)
                &&& self.aligned() ==> outcome.after.aligned()
                &&& outcome.after.reading_position() == start + count
            }),
    {
        let start: int = self.reading_position();
        let len: int = content.len() as int;
        let position: int = self.parser().position;
        let after = self.read(room).after;
        let count: int = min(self.core.buf.len() as int, room);
        self.lemma_read(room);
        self.core.verify.lemma_tracks_segments(content);
        assert(self.core.delivered(room) =~= content.subrange(start, start + count));
        assert(after.core.buf =~= content.subrange(position - after.core.buf.len(), position));
        if after.core.buf.len() > 0 {
            assert(chunk_base(start + count) == chunk_base(start));
        }
    }

    /// A read succeeds if the sources have the header, the parents above the next byte and the
    /// chunk around it, whatever else they hold or lack. It takes nothing if bytes are buffered or
    /// the content has ended. It hands out the rest of the chunk, or as much as there is room for.
    #[verifier::rlimit(40)]
    pub proof fn law_read_there(self, content: Seq<u8>, room: int)
        requires
            self.stands_in(content),
            self.aligned(),
            0 <= room,
            ({
                let start = self.reading_position();
                ||| self.core.buf.len() > 0
                ||| 0 < content.len() == start
                ||| self.can_read(content, start)
            }),
        ensures
            ({
                let outcome = self.read(room);
                let start = self.reading_position();
                let count = if start < content.len() {
                    min(chunk_end(content.len() as int, start) - start, room)
                } else {
                    0
                };
                &&& 0 <= start <= content.len()
                &&& start + count <= content.len()
                &&& outcome.result == Ok::<Seq<u8>, ReadError>(
                    content.subrange(start, start + count),
                )
                &&& outcome.after.stands_in(content)
                &&& outcome.after.aligned()
                &&& outcome.after.reading_position() == start + count
                &&& room >= CHUNK_SIZE ==> outcome.after.core.buf.len() == 0
            }),
    {
        let start: int = self.reading_position();
        let len: int = content.len() as int;
        self.lemma_read(room);
        if self.parser().content_len is Some {
            self.core.verify.lemma_tracks_segments(content);
            lemma_total_nonnegative(self.parser().pending);
            if self.parser().pending.len() > 0 {
                lemma_total_nonnegative(self.parser().pending.drop_last());
                assert(self.parser().pending[self.parser().pending.len() - 1] > 0 || len == 0);
            }
        }
        if self.core.buf.len() > 0 {
            self.lemma_deliver(content, room);
        } else if start == len && 0 < len {
            assert(self.parser().read_next() is Done);
            assert(content.subrange(start, start) =~= Seq::<u8>::empty());
        } else {
            self.lemma_descend_there(content);
            self.lemma_descend();
            let here = self.descend().0;
            here.core.verify.lemma_tracks_segments(content);
            if here.parser().read_next() is Chunk {
                let size: int = here.parser().pending.last();
                lemma_total_nonnegative(here.parser().pending.drop_last());
                here.lemma_chunk_next(content, start);
                here.lemma_chunk_there(content, here.parser().skip, room);
                lemma_in_tree_last(here.parser());
                lemma_lies_bounds(
                    len,
                    here.parser().position,
                    size,
                    here.parser().outboard_position() - HEADER_SIZE,
                );
                if len > 0 {
                    lemma_chunk_around(here.parser().position, size, len, start);
                }
            } else {
                assert(content.subrange(start, start) =~= Seq::<u8>::empty());
            }
        }
    }
}

/// The last byte of `len` bytes, or the place where it would be.
pub open spec fn last_byte(len: int) -> int {
    if len == 0 {
        0
    } else {
        len - 1
    }
}

pub proof fn lemma_grid_step(l: int, position: int)
    requires
        l % (CHUNK_SIZE as int) == 0,
        0 <= l,
        0 <= position,
    ensures
        position < l ==> chunk_base(position) < l && chunk_base(position) + CHUNK_SIZE <= l,
        position >= l ==> {
            &&& chunk_base(position) >= l
            &&& chunk_base(position - l) == chunk_base(position) - l
        },
{
}

/// A subtree that holds a byte starts no later than the chunk around that byte.
proof fn lemma_lies_before(len: int, base: int, sub: int, parents: int, position: int)
    requires
        lies_at(len, base, sub, parents),
        0 <= len,
        base <= position < base + sub,
    ensures
        base + parents <= content_offset(len, chunk_base(position)),
    decreases len,
{
    lemma_lies_bounds(len, base, sub, parents);
    lemma_offset_bound(len, position);
    if !(base == 0 && sub == len && parents == 0) {
        let l: int = left_part(len);
        lemma_left_part(len);
        lemma_grid_step(l, position);
        if base < l {
            lemma_lies_bounds(l, base, sub, parents - PARENT_SIZE);
            lemma_lies_before(l, base, sub, parents - PARENT_SIZE, position);
        } else {
            lemma_lies_before(
                len - l,
                base - l,
                sub,
                parents - PARENT_SIZE - parents_size(l),
                position - l,
            );
        }
    }
}

proof fn lemma_offset_bound(len: int, position: int)
    requires
        0 <= position < len,
    ensures
        0 <= content_offset(len, chunk_base(position)) <= subtree_size(len),
    decreases len,
{
    lemma_parents_size_bound(len);
    if len > CHUNK_SIZE {
        let l: int = left_part(len);
        lemma_left_part(len);
        lemma_split_count(len);
        lemma_grid_step(l, position);
        lemma_parents_size_bound(l);
        lemma_parents_size_bound(len - l);
        if position < l {
            lemma_offset_bound(l, position);
        } else {
            lemma_offset_bound(len - l, position - l);
        }
    }
}

impl ReaderView {
    /// Whether 64 bit offsets reach as far as a seek to `seek_to` leads: up to the chunk around the
    /// target in a combined encoding, or up to its end. In an outboard encoding they always do.
    pub open spec fn in_reach(self, content: Seq<u8>, seek_to: int) -> bool {
        let len = content.len() as int;
        self.outboard is Some || HEADER_SIZE + if seek_to < len {
            content_offset(len, chunk_base(seek_to))
        } else {
            subtree_size(len)
        } <= u64::MAX
    }

    pub proof fn lemma_in_reach(self, content: Seq<u8>, seek_to: int)
        requires
            self.in_reach(content, content.len() as int),
            0 <= seek_to,
        ensures
            self.in_reach(content, seek_to),
    {
        if seek_to < content.len() {
            lemma_offset_bound(content.len() as int, seek_to);
        }
    }

    /// Whether the sources have all that a seek to `seek_to` may take: the header and the parents
    /// above the target, or at the end or past it, the final chunk and what lies above, unless it
    /// was verified before.
    pub open spec fn can_seek_to(self, content: Seq<u8>, seek_to: int) -> bool {
        if seek_to < content.len() {
            self.has_path(content, seek_to)
        } else {
            self.parser().validated || self.can_read(content, last_byte(content.len() as int))
        }
    }

    pub proof fn lemma_apply_seek_there(self, content: Seq<u8>, seek_to: int)
        requires
            self.stands_in(content),
            self.core.buf.len() == 0,
            self.parser().content_len is Some,
            0 <= seek_to,
            self.in_reach(content, seek_to),
        ensures
            ({
                let (after, result) = self.apply_seek(self.parser().seek_next(seek_to), true);
                &&& result is Ok
                &&& after.stands_in(content)
                &&& after.aligned()
                &&& after.parser() == self.parser().seek_move(seek_to)
                &&& after.core.buf.len() == 0
            }),
    {
        let bookkeeping = self.parser().seek_next(seek_to);
        let moved = self.core.verify.after_seek(bookkeeping);
        self.lemma_apply_seek(seek_to, true);
        self.core.verify.lemma_track_seek(content, seek_to);
        moved.lemma_tracks_segments(content);
        self.parser().lemma_seek_next(seek_to);
        self.parser().lemma_seek_move(seek_to);
        lemma_in_tree_seek(self.parser(), seek_to);
        lemma_total_nonnegative(moved.parser.pending);
        if seek_to < content.len() {
            lemma_in_tree_last(moved.parser);
            lemma_lies_before(
                content.len() as int,
                moved.parser.position,
                moved.parser.pending.last(),
                moved.parser.outboard_position() - HEADER_SIZE,
                seek_to,
            );
        }
        let after = self.apply_seek(bookkeeping, true).0;
        assert(after.core.buf =~= content.subrange(
            after.parser().position,
            after.parser().position,
        ));
    }

    pub proof fn lemma_seek_step_there(self, content: Seq<u8>, seek_to: int)
        requires
            self.stands_in(content),
            self.parser().content_len is None ==> self.aligned(),
            self.core.buf.len() == 0,
            0 <= seek_to,
            self.in_reach(content, seek_to),
            self.can_seek_to(content, seek_to),
        ensures
            ({
                let (after, result) = self.seek_step(seek_to, true);
                &&& result is Ok
                &&& after.stands_in(content)
                &&& after.aligned()
                &&& after.can_seek_to(content, seek_to)
                &&& after.input.bytes == self.input.bytes
                &&& after.nodes().bytes == self.nodes().bytes
                &&& after.outboard is Some == self.outboard is Some
                &&& result == Ok::<bool, ReadError>(true) ==> after.parser().content_position()
                    == min(seek_to, content.len() as int)
            }),
    {
        let len: int = content.len() as int;
        let bookkeeping = self.parser().seek_next(seek_to);
        self.lemma_seek_rank(seek_to, true);
        self.lemma_seek_step_related(seek_to, true);
        self.parser().lemma_seek_next(seek_to);
        if self.parser().content_len is None {
            assert(self.apply_seek(bookkeeping, true).0 =~= self) by {
                self.core.verify.lemma_after_seek(seek_to);
                assert(self.core.verify.after_seek(bookkeeping).stack
                    =~= self.core.verify.stack);
            }
            lemma_header_value(content.len() as u64);
            self.lemma_header_there(content);
        } else {
            self.lemma_apply_seek_there(content, seek_to);
            self.parser().lemma_seek_move(seek_to);
            let moved = self.apply_seek(bookkeeping, true).0;
            let pending = moved.parser().pending;
            moved.core.verify.lemma_tracks_segments(content);
            if pending.len() == 1 {
                lemma_total_one(pending[0]);
                assert(pending =~= seq![pending[0]]);
            }
            let goal: int = if seek_to < len {
                seek_to
            } else {
                last_byte(len)
            };
            match bookkeeping.next_read {
                NextRead::Header => {},
                NextRead::Parent => {
                    moved.lemma_path_next(content, goal);
                    moved.lemma_parent_there(content);
                },
                NextRead::Chunk { size, finalization, skip } => {
                    assert(pending[0] > 0 || len == 0);
                    moved.lemma_chunk_next(content, goal);
                    moved.lemma_chunk_there(content, skip as int, 0);
                },
                NextRead::Done => {},
            }
        }
    }

    /// A seek succeeds if the sources have the header and the parents above its target, whatever
    /// else they hold or lack, and the next byte is that at the target. At the end of the content
    /// or past it, it takes the final chunk, unless that was verified before.
    pub proof fn law_seek_there(self, content: Seq<u8>, seek_to: int)
        requires
            self.stands_in(content),
            self.parser().content_len is None ==> self.aligned(),
            self.core.buf.len() == 0,
            0 <= seek_to,
            self.in_reach(content, seek_to),
            self.can_seek_to(content, seek_to),
        ensures
            ({
                let (after, result) = self.seek(seek_to, true);
                &&& result is Ok
                &&& after.stands_in(content)
                &&& after.aligned()
                &&& after.core.buf.len() == 0
                &&& after.reading_position() == min(seek_to, content.len() as int)
            }),
        decreases self.header_rank(), self.reset_rank(seek_to), self.work_rank(),
    {
        self.lemma_seek_rank(seek_to, true);
        self.lemma_seek_step_there(content, seek_to);
        let (after, result) = self.seek_step(seek_to, true);
        if result == Ok::<bool, ReadError>(false) {
            after.law_seek_there(content, seek_to);
        }
    }

    /// A seek in a combined encoding to a chunk that 64 bit offsets do not reach fails because of
    /// that, if the sources have the header and the parents above its target.
    #[verifier::rlimit(40)]
    pub proof fn law_seek_unreachable(self, content: Seq<u8>, seek_to: int)
        requires
            self.stands_in(content),
            self.parser().content_len is None ==> self.aligned(),
            self.core.buf.len() == 0,
            0 <= seek_to < content.len(),
            self.has_path(content, seek_to),
            !self.in_reach(content, seek_to),
        ensures
            self.seek(seek_to, true).1 == Err::<(), ReadError>(ReadError::SeekOffsetOverflow),
        decreases self.header_rank(), self.reset_rank(seek_to), self.work_rank(),
    {
        let bookkeeping = self.parser().seek_next(seek_to);
        self.lemma_seek_rank(seek_to, true);
        self.lemma_seek_step_related(seek_to, true);
        self.parser().lemma_seek_next(seek_to);
        let (after, result) = self.seek_step(seek_to, true);
        if self.parser().content_len is None {
            assert(self.apply_seek(bookkeeping, true).0 =~= self) by {
                self.core.verify.lemma_after_seek(seek_to);
                assert(self.core.verify.after_seek(bookkeeping).stack
                    =~= self.core.verify.stack);
            }
            lemma_header_value(content.len() as u64);
            self.lemma_header_there(content);
            after.law_seek_unreachable(content, seek_to);
        } else {
            let next = self.core.verify.after_seek(bookkeeping).parser;
            self.lemma_apply_seek(seek_to, true);
            self.core.verify.lemma_track_seek(content, seek_to);
            self.parser().lemma_seek_move(seek_to);
            lemma_in_tree_seek(self.parser(), seek_to);
            lemma_in_tree_last(next);
            lemma_lies_bounds(
                content.len() as int,
                next.position,
                next.pending.last(),
                next.outboard_position() - HEADER_SIZE,
            );
            let (moved, applied) = self.apply_seek(bookkeeping, true);
            if applied is Ok {
                moved.core.verify.lemma_tracks_segments(content);
                assert(moved.core.buf =~= content.subrange(next.position, next.position));
                if next.pending.last() <= CHUNK_SIZE {
                    lemma_chunk_around(
                        next.position,
                        next.pending.last(),
                        content.len() as int,
                        seek_to,
                    );
                } else {
                    moved.lemma_path_next(content, seek_to);
                    moved.lemma_parent_there(content);
                    after.law_seek_unreachable(content, seek_to);
                }
            }
        }
    }

    /// The length of the content is found out if the sources have the final chunk and what lies
    /// above, unless it was verified before.
    pub proof fn law_verify_len_there(self, content: Seq<u8>)
        requires
            self.stands_in(content),
            self.parser().content_len is None ==> self.aligned(),
            self.core.buf.len() == 0,
            self.in_reach(content, content.len() as int),
            self.can_seek_to(content, u64::MAX as int),
        ensures
            ({
                let (after, result) = self.verify_len();
                &&& result == Ok::<u64, ReadError>(content.len() as u64)
                &&& after.stands_in(content)
                &&& after.core.buf.len() == 0
                &&& after.parser().validated
                &&& after.input.bytes == self.input.bytes
                &&& after.nodes().bytes == self.nodes().bytes
                &&& after.outboard is Some == self.outboard is Some
            }),
        decreases self.header_rank(), self.work_rank(),
    {
        self.lemma_in_reach(content, u64::MAX as int);
        if !self.parser().validated {
            self.lemma_seek_rank(u64::MAX as int, true);
            self.lemma_seek_step_there(content, u64::MAX as int);
            self.seek_step(u64::MAX as int, true).0.law_verify_len_there(content);
        }
    }

    /// What a seek counts from, once that is known.
    pub open spec fn seek_base(self, content: Seq<u8>, position: SeekFrom) -> int {
        match position {
            SeekFrom::Start(_) => 0,
            SeekFrom::End(_) => content.len() as int,
            SeekFrom::Current(_) => self.reading_position(),
        }
    }

    /// A seek leads to where it is told to, counted from the start, from the end, or from the next
    /// byte to hand out, if the sources have what that takes: the header and the parents above the
    /// target, and to count from the end, the final chunk and what lies above. Where there is no
    /// such place, it fails and says why.
    #[verifier::rlimit(40)]
    pub proof fn law_seek_from_there(self, content: Seq<u8>, position: SeekFrom)
        requires
            self.stands_in(content),
            self.parser().content_len is None ==> self.aligned(),
            position is End ==> self.in_reach(content, content.len() as int),
            position is End ==> self.can_seek_to(content, content.len() as int),
        ensures
            ({
                let base = self.seek_base(content, position);
                let target = base + match position {
                    SeekFrom::Start(offset) => offset as int,
                    SeekFrom::End(offset) => offset as int,
                    SeekFrom::Current(offset) => offset as int,
                };
                let (after, result) = self.seek_from(position);
                &&& target < 0 ==> result == Err::<u64, ReadError>(
                    ReadError::SeekBeforeBeginning,
                )
                &&& target > u64::MAX ==> result == Err::<u64, ReadError>(
                    ReadError::SeekTargetOverflow,
                )
                &&& !(0 <= target <= u64::MAX) ==> {
                    &&& after.stands_in(content)
                    &&& after.core.buf.len() == 0
                }
                &&& 0 <= target <= u64::MAX && self.can_seek_to(content, target) && self.in_reach(
                    content,
                    target,
                ) ==> {
                    &&& result == Ok::<u64, ReadError>(target as u64)
                    &&& after.stands_in(content)
                    &&& after.aligned()
                    &&& after.core.buf.len() == 0
                    &&& after.reading_position() == min(target, content.len() as int)
                }
            }),
    {
        let len: int = content.len() as int;
        let cleared = self.clear_buf();
        lemma_parents_size_bound(len);
        if self.parser().content_len is Some {
            self.core.verify.lemma_tracks_segments(content);
        }
        assert(cleared.core.buf =~= content.subrange(
            self.parser().position,
            self.parser().position,
        ));
        assert(cleared.nodes().bytes == self.nodes().bytes);
        match position {
            SeekFrom::Start(offset) => {
                if self.can_seek_to(content, offset as int) && self.in_reach(
                    content,
                    offset as int,
                ) {
                    cleared.law_seek_there(content, offset as int);
                }
            },
            SeekFrom::End(offset) => {
                cleared.law_verify_len_there(content);
                let at = cleared.verify_len().0;
                let target: int = len + offset;
                if 0 <= target <= u64::MAX && self.can_seek_to(content, target)
                    && self.in_reach(content, target) {
                    at.law_seek_there(content, target);
                }
            },
            SeekFrom::Current(offset) => {
                let target: int = self.reading_position() + offset;
                if 0 <= target <= u64::MAX && self.can_seek_to(content, target)
                    && self.in_reach(content, target) {
                    cleared.law_seek_there(content, target);
                }
            },
        }
    }
}

proof fn lemma_fill_past(content: Seq<u8>, buf: Seq<u8>, done: int, start: int, bytes: Seq<u8>)
    requires
        0 <= done,
        0 <= start,
        start + bytes.len() <= content.len(),
        done + content.len() - start <= buf.len(),
        bytes == content.subrange(start, start + bytes.len()),
    ensures
        ({
            let filled = buf.take(done) + (bytes + buf.skip(done).skip(bytes.len() as int));
            let end = done + content.len() - start;
            &&& filled.len() == buf.len()
            &&& filled.take(done + bytes.len()) + content.skip(start + bytes.len()) + filled.skip(
                end,
            ) == buf.take(done) + content.skip(start) + buf.skip(end)
        }),
{
    let filled = buf.take(done) + (bytes + buf.skip(done).skip(bytes.len() as int));
    let end: int = done + content.len() - start;
    assert(filled.take(done + bytes.len()) =~= buf.take(done) + bytes);
    assert(filled.skip(end) =~= buf.skip(end));
    assert(content.skip(start) =~= bytes + content.skip(start + bytes.len()));
    assert(buf.take(done) + bytes + content.skip(start + bytes.len()) =~= buf.take(done) + (bytes
        + content.skip(start + bytes.len())));
}

impl ReaderView {
    /// A reader that has read nothing yet stands before any content with its root hash.
    pub proof fn law_fresh_stands(self, content: Seq<u8>)
        requires
            self.wf(),
            self.fresh(),
            content.len() <= u64::MAX,
            self.core.verify.root_hash == root_hash(content),
        ensures
            self.stands_in(content),
            self.aligned(),
            self.reading_position() == 0,
            self.core.buf.len() == 0,
    {
    }

    /// Whether the sources have all that it takes to read the bytes of `content` from `start` to
    /// `end`.
    pub open spec fn can_read_range(self, content: Seq<u8>, start: int, end: int) -> bool {
        forall|position: int|
            start <= position < end ==> #[trigger] self.can_read(content, position)
    }

    pub proof fn lemma_same_sources(self, other: ReaderView, content: Seq<u8>, start: int, end: int)
        requires
            other.related(self),
            self.can_read_range(content, start, end),
        ensures
            other.can_read_range(content, start, end),
    {
        assert forall|position: int| start <= position < end implies #[trigger] other.can_read(
            content,
            position,
        ) by {
            assert(self.can_read(content, position));
        }
    }

    /// Filling a buffer succeeds with the content if the sources have what the bytes take.
    #[verifier::rlimit(40)]
    pub proof fn law_fill_there(self, content: Seq<u8>, buf: Seq<u8>, done: int)
        requires
            self.stands_in(content),
            self.aligned(),
            0 <= done <= buf.len(),
            self.reading_position() + buf.len() - done <= content.len(),
            self.can_read_range(
                content,
                self.reading_position(),
                self.reading_position() + buf.len() - done,
            ),
        ensures
            ({
                let (after, filled, result) = self.fill(buf, done);
                let start = self.reading_position();
                &&& result is Ok
                &&& 0 <= start
                &&& after.stands_in(content)
                &&& after.aligned()
                &&& after.reading_position() == start + buf.len() - done
                &&& filled == buf.take(done) + content.subrange(start, start + buf.len() - done)
            }),
        decreases buf.len() - done,
    {
        let start: int = self.reading_position();
        if self.parser().content_len is Some {
            self.core.verify.lemma_tracks_segments(content);
        }
        if done < buf.len() {
            let room: int = buf.len() - done;
            assert(self.can_read(content, start));
            self.law_read_there(content, room);
            self.law_read_related(room);
            let outcome = self.read(room);
            let bytes = outcome.result->Ok_0;
            let filled = buf.take(done) + outcome.fills(buf.skip(done));
            self.lemma_same_sources(outcome.after, content, start, start + room);
            assert(filled == buf.take(done) + (bytes + buf.skip(done).skip(bytes.len() as int)));
            lemma_fill_step(content, buf, done, start, bytes);
            outcome.after.law_fill_there(content, filled, done + bytes.len());
            assert(self.fill(buf, done) == outcome.after.fill(filled, done + bytes.len()));
        } else {
            assert(buf =~= buf.take(done) + content.subrange(start, start));
        }
    }

    /// Filling a buffer that is longer than the rest of the content fails because the content
    /// ends, after the rest of the content was put into it.
    #[verifier::rlimit(40)]
    pub proof fn law_fill_beyond(self, content: Seq<u8>, buf: Seq<u8>, done: int)
        requires
            self.stands_in(content),
            self.aligned(),
            0 <= done <= buf.len(),
            0 <= self.reading_position() <= content.len(),
            self.reading_position() + buf.len() - done > content.len(),
            self.can_read_range(content, self.reading_position(), content.len() as int),
            content.len() == 0 ==> self.can_read(content, 0),
        ensures
            ({
                let (after, filled, result) = self.fill(buf, done);
                let start = self.reading_position();
                let end = done + content.len() - start;
                &&& result == Err::<(), ReadError>(ReadError::UnexpectedEof)
                &&& after.stands_in(content)
                &&& after.aligned()
                &&& after.reading_position() == content.len()
                &&& filled == buf.take(done) + content.skip(start) + buf.skip(end)
            }),
        decreases buf.len() - done,
    {
        let start: int = self.reading_position();
        let len: int = content.len() as int;
        let room: int = buf.len() - done;
        let outcome = self.read(room);
        self.lemma_read_some(content, room);
        let bytes = outcome.result->Ok_0;
        let filled = buf.take(done) + outcome.fills(buf.skip(done));
        if start < len {
            lemma_fill_past(content, buf, done, start, bytes);
            outcome.after.law_fill_beyond(content, filled, done + bytes.len());
            assert(self.fill(buf, done) == outcome.after.fill(filled, done + bytes.len()));
        } else {
            assert(content.skip(start) =~= Seq::<u8>::empty());
            assert(filled =~= buf.take(done) + content.skip(start) + buf.skip(done));
        }
    }

    proof fn lemma_read_some(self, content: Seq<u8>, room: int)
        requires
            self.stands_in(content),
            self.aligned(),
            0 < room,
            0 <= self.reading_position() <= content.len(),
            self.can_read_range(content, self.reading_position(), content.len() as int),
            content.len() == 0 ==> self.can_read(content, 0),
        ensures
            ({
                let start = self.reading_position();
                let outcome = self.read(room);
                &&& outcome.result matches Ok(bytes) && {
                    &&& bytes.len() <= room
                    &&& start + bytes.len() <= content.len()
                    &&& bytes == content.subrange(start, start + bytes.len())
                    &&& bytes.len() > 0 <==> start < content.len()
                    &&& outcome.after.reading_position() == start + bytes.len()
                    &&& outcome.after.can_read_range(
                        content,
                        start + bytes.len(),
                        content.len() as int,
                    )
                }
                &&& outcome.after.stands_in(content)
                &&& outcome.after.aligned()
                &&& content.len() == 0 ==> outcome.after.can_read(content, 0)
            }),
    {
        let start: int = self.reading_position();
        let len: int = content.len() as int;
        if start < len {
            assert(self.can_read(content, start));
            lemma_chunk_within(len, start, len);
        }
        self.law_read_there(content, room);
        self.law_read_related(room);
        self.lemma_same_sources(self.read(room).after, content, start, len);
    }

    /// A read with room for a chunk hands out the rest of the next one.
    pub proof fn lemma_read_chunkful(self, content: Seq<u8>, end: int)
        requires
            self.stands_in(content),
            self.aligned(),
            0 <= self.reading_position() < end <= content.len(),
            end % (CHUNK_SIZE as int) == 0 || end == content.len(),
            self.can_read_range(content, self.reading_position(), end),
        ensures
            ({
                let start = self.reading_position();
                let next = chunk_end(content.len() as int, start);
                let outcome = self.read(CHUNK_SIZE as int);
                &&& start < next <= end
                &&& outcome.result == Ok::<Seq<u8>, ReadError>(content.subrange(start, next))
                &&& outcome.after.stands_in(content)
                &&& outcome.after.aligned()
                &&& outcome.after.reading_position() == next
                &&& outcome.after.core.buf.len() == 0
                &&& outcome.after.can_read_range(content, next, end)
                &&& outcome.after.related(self)
            }),
    {
        let start: int = self.reading_position();
        let room: int = CHUNK_SIZE as int;
        lemma_chunk_within(content.len() as int, start, end);
        assert(self.can_read(content, start));
        self.law_read_there(content, room);
        self.law_read_related(room);
        self.lemma_same_sources(self.read(room).after, content, start, end);
    }

    /// Reading to the end hands out all chunks, one after the other, that the sources have with
    /// what lies above them, whatever comes then.
    #[verifier::rlimit(40)]
    pub proof fn law_drain_there(self, content: Seq<u8>, end: int)
        requires
            self.stands_in(content),
            self.aligned(),
            0 <= self.reading_position() <= end <= content.len(),
            end % (CHUNK_SIZE as int) == 0 || end == content.len(),
            self.can_read_range(content, self.reading_position(), end),
        ensures
            content.subrange(self.reading_position(), end).is_prefix_of(self.drain().1),
        decreases self.header_rank(), self.to_come(),
    {
        let start: int = self.reading_position();
        if start < end {
            self.lemma_read_progress(CHUNK_SIZE as int);
            self.lemma_read_chunkful(content, end);
            let outcome = self.read(CHUNK_SIZE as int);
            let next: int = outcome.after.reading_position();
            outcome.after.law_drain_there(content, end);
            assert(self.drain().1 == content.subrange(start, next) + outcome.after.drain().1);
            assert(content.subrange(start, end) =~= content.subrange(start, next)
                + content.subrange(next, end));
        } else {
            assert(content.subrange(start, end) =~= Seq::<u8>::empty());
        }
    }

    /// Reading to the end succeeds with the rest of the content if the sources have all that it
    /// takes.
    #[verifier::rlimit(40)]
    pub proof fn law_drain_all_there(self, content: Seq<u8>)
        requires
            self.stands_in(content),
            self.aligned(),
            0 <= self.reading_position() <= content.len(),
            self.can_read_range(content, self.reading_position(), content.len() as int),
            content.len() == 0 ==> self.can_read(content, 0),
        ensures
            self.drain().1 == content.skip(self.reading_position()),
            self.drain().2 is Ok,
        decreases self.header_rank(), self.to_come(),
    {
        let start: int = self.reading_position();
        let len: int = content.len() as int;
        if start < len {
            self.lemma_read_progress(CHUNK_SIZE as int);
            self.lemma_read_chunkful(content, len);
            let outcome = self.read(CHUNK_SIZE as int);
            let next: int = outcome.after.reading_position();
            outcome.after.law_drain_all_there(content);
            assert(self.drain().1 == content.subrange(start, next) + outcome.after.drain().1);
            assert(content.skip(start) =~= content.subrange(start, next) + content.skip(next));
        } else {
            self.law_read_there(content, CHUNK_SIZE as int);
            assert(content.subrange(start, start) =~= Seq::<u8>::empty());
            assert(content.skip(start) =~= Seq::<u8>::empty());
        }
    }
}

} // verus!
