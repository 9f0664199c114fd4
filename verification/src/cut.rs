//! What is cut off is read up to the cut: of a part of an encoding, readers hand out the chunks
//! that are there with what lies above them, and fail at the first that is not. Seeks fail only if
//! what lies above their target is not there.

use vstd::prelude::*;

use crate::complete::{found_at, lemma_found_split};
use crate::damage::{chunk_base, content_offset};
use crate::error::ReadError;
use crate::hash::{header, lemma_header_value, Finalization, CHUNK_SIZE, HEADER_SIZE, PARENT_SIZE};
use crate::origin::chunk_at;
use crate::parse::{
    lemma_total_nonnegative, lemma_total_one, lemma_total_push, total, NextRead, ParseView,
};
use crate::partial::{
    chunk_end, extent, last_byte, lemma_chunk_around, lemma_grid_step, lemma_in_tree_last,
    lemma_lies_bounds, lies_at, path_at, place,
};
use crate::parts::unread;
use crate::reading::{min, ReaderView, SeekFrom};
use crate::tree::{
    combined_encoding, encode_subtree, left, left_part, lemma_encode_subtree_len, lemma_left_part,
    lemma_subtree_hash_len, outboard_encoding, outboard_subtree, parent_node, parents_size, right,
    root_hash,
};

verus! {

proof fn lemma_found_inside(
    inner: Seq<u8>,
    outer: Seq<u8>,
    at: int,
    before: Seq<u8>,
    after: Seq<u8>,
)
    requires
        found_at(inner, outer, at),
    ensures
        found_at(inner, before + outer + after, before.len() + at),
{
    let whole = before + outer + after;
    assert(whole.subrange(before.len() + at, before.len() + at + inner.len()) =~= outer.subrange(
        at,
        at + inner.len(),
    ));
}

/// The encoding of a subtree stands in its place in that of the tree.
proof fn lemma_encoded_at(content: Seq<u8>, base: int, sub: int, parents: int)
    requires
        lies_at(content.len() as int, base, sub, parents),
    ensures
        ({
            let part = content.subrange(base, base + sub);
            &&& found_at(encode_subtree(part), encode_subtree(content), base + parents)
            &&& found_at(outboard_subtree(part), outboard_subtree(content), parents)
        }),
    decreases content.len(),
{
    let len: int = content.len() as int;
    let part = content.subrange(base, base + sub);
    lemma_lies_bounds(len, base, sub, parents);
    if base == 0 && sub == len && parents == 0 {
        assert(part =~= content);
        let combined = encode_subtree(content);
        let outboard = outboard_subtree(content);
        assert(combined.subrange(0, combined.len() as int) =~= combined);
        assert(outboard.subrange(0, outboard.len() as int) =~= outboard);
    } else {
        let l: int = left_part(len);
        let parent = parent_node(content);
        lemma_left_part(len);
        lemma_encode_subtree_len(left(content));
        lemma_encode_subtree_len(right(content));
        lemma_subtree_hash_len(left(content), Finalization::NotRoot);
        lemma_subtree_hash_len(right(content), Finalization::NotRoot);
        if base < l {
            lemma_lies_bounds(l, base, sub, parents - PARENT_SIZE);
            lemma_encoded_at(left(content), base, sub, parents - PARENT_SIZE);
            assert(left(content).subrange(base, base + sub) =~= part);
            lemma_found_inside(
                encode_subtree(part),
                encode_subtree(left(content)),
                base + parents - PARENT_SIZE,
                parent,
                encode_subtree(right(content)),
            );
            lemma_found_inside(
                outboard_subtree(part),
                outboard_subtree(left(content)),
                parents - PARENT_SIZE,
                parent,
                outboard_subtree(right(content)),
            );
        } else {
            let rest: int = parents - PARENT_SIZE - parents_size(l);
            let combined = parent + encode_subtree(left(content));
            let outboard = parent + outboard_subtree(left(content));
            lemma_encoded_at(right(content), base - l, sub, rest);
            assert(right(content).subrange(base - l, base - l + sub) =~= part);
            lemma_found_inside(
                encode_subtree(part),
                encode_subtree(right(content)),
                base - l + rest,
                combined,
                Seq::empty(),
            );
            lemma_found_inside(
                outboard_subtree(part),
                outboard_subtree(right(content)),
                rest,
                outboard,
                Seq::empty(),
            );
            assert(combined + encode_subtree(right(content)) + Seq::<u8>::empty()
                =~= encode_subtree(content));
            assert(outboard + outboard_subtree(right(content)) + Seq::<u8>::empty()
                =~= outboard_subtree(content));
        }
    }
}

/// What lies before the cut is the same in the whole.
pub proof fn lemma_before_cut(bytes: Seq<u8>, whole: Seq<u8>, node: Seq<u8>, at: int)
    requires
        bytes.is_prefix_of(whole),
        found_at(node, whole, at),
        at + node.len() <= bytes.len(),
    ensures
        found_at(node, bytes, at),
{
    assert(bytes.subrange(at, at + node.len()) =~= whole.subrange(at, at + node.len()));
}

/// Whether `bytes` has all parents above the subtree over the `sub` bytes of `content` from `base`
/// on, each where it belongs in an encoding that starts at `at`.
pub open spec fn reached(
    content: Seq<u8>,
    bytes: Seq<u8>,
    at: int,
    outboard: bool,
    base: int,
    sub: int,
) -> bool
    decreases content.len(),
{
    ||| base == 0 && sub == content.len()
    ||| content.len() > CHUNK_SIZE && {
        proof {
            lemma_left_part(content.len() as int);
        }
        let l = left_part(content.len() as int);
        &&& found_at(parent_node(content), bytes, at)
        &&& if base < l {
            reached(left(content), bytes, at + PARENT_SIZE, outboard, base, sub)
        } else {
            reached(
                right(content),
                bytes,
                at + PARENT_SIZE + extent(l, outboard),
                outboard,
                base - l,
                sub,
            )
        }
    }
}

/// Below a parent that is there, both parts are reached.
pub proof fn lemma_reached_split(
    content: Seq<u8>,
    bytes: Seq<u8>,
    at: int,
    outboard: bool,
    base: int,
    sub: int,
    parents: int,
)
    requires
        lies_at(content.len() as int, base, sub, parents),
        reached(content, bytes, at, outboard, base, sub),
        sub > CHUNK_SIZE,
        found_at(
            parent_node(content.subrange(base, base + sub)),
            bytes,
            place(at, base, parents, outboard),
        ),
    ensures
        reached(content, bytes, at, outboard, base, left_part(sub)),
        reached(content, bytes, at, outboard, base + left_part(sub), sub - left_part(sub)),
    decreases content.len(),
{
    let len: int = content.len() as int;
    let part: int = left_part(sub);
    lemma_left_part(sub);
    lemma_lies_bounds(len, base, sub, parents);
    if base == 0 && sub == len {
        lemma_lies_root(len, sub, parents);
        assert(content.subrange(0, len) =~= content);
        assert(reached(left(content), bytes, at + PARENT_SIZE, outboard, 0, part));
        assert(reached(
            right(content),
            bytes,
            at + PARENT_SIZE + extent(part, outboard),
            outboard,
            0,
            sub - part,
        ));
    } else {
        let l: int = left_part(len);
        lemma_left_part(len);
        if base < l {
            lemma_lies_bounds(l, base, sub, parents - PARENT_SIZE);
            assert(left(content).subrange(base, base + sub) =~= content.subrange(
                base,
                base + sub,
            ));
            lemma_reached_split(
                left(content),
                bytes,
                at + PARENT_SIZE,
                outboard,
                base,
                sub,
                parents - PARENT_SIZE,
            );
        } else {
            assert(right(content).subrange(base - l, base - l + sub) =~= content.subrange(
                base,
                base + sub,
            ));
            lemma_reached_split(
                right(content),
                bytes,
                at + PARENT_SIZE + extent(l, outboard),
                outboard,
                base - l,
                sub,
                parents - PARENT_SIZE - parents_size(l),
            );
        }
    }
}

/// No parent lies above the whole tree.
pub proof fn lemma_lies_root(len: int, sub: int, parents: int)
    requires
        lies_at(len, 0, sub, parents),
        0 <= len,
        sub == len,
    ensures
        parents == 0,
{
    if parents != 0 {
        lemma_left_part(len);
        lemma_lies_bounds(left_part(len), 0, sub, parents - PARENT_SIZE);
    }
}

/// If a chunk is reached, the parents above its bytes are there.
pub proof fn lemma_reached_path(
    content: Seq<u8>,
    bytes: Seq<u8>,
    at: int,
    outboard: bool,
    base: int,
    sub: int,
    parents: int,
    position: int,
)
    requires
        lies_at(content.len() as int, base, sub, parents),
        reached(content, bytes, at, outboard, base, sub),
        sub <= CHUNK_SIZE,
        base <= position < base + sub || content.len() == 0,
    ensures
        path_at(content, bytes, at, position, outboard),
    decreases content.len(),
{
    let len: int = content.len() as int;
    lemma_lies_bounds(len, base, sub, parents);
    if len > CHUNK_SIZE {
        let l: int = left_part(len);
        lemma_left_part(len);
        if base < l {
            lemma_lies_bounds(l, base, sub, parents - PARENT_SIZE);
            lemma_reached_path(
                left(content),
                bytes,
                at + PARENT_SIZE,
                outboard,
                base,
                sub,
                parents - PARENT_SIZE,
                position,
            );
        } else {
            lemma_reached_path(
                right(content),
                bytes,
                at + PARENT_SIZE + extent(l, outboard),
                outboard,
                base - l,
                sub,
                parents - PARENT_SIZE - parents_size(l),
                position - l,
            );
        }
    }
}

/// Whether every unread subtree is reached.
pub open spec fn all_reached(
    parser: ParseView,
    content: Seq<u8>,
    bytes: Seq<u8>,
    outboard: bool,
) -> bool {
    forall|i: int|
        0 <= i < parser.pending.len() ==> reached(
            content,
            bytes,
            HEADER_SIZE as int,
            outboard,
            parser.len() - total(parser.pending.take(i + 1)),
            #[trigger] parser.pending[i],
        )
}

pub proof fn lemma_all_reached_last(
    parser: ParseView,
    content: Seq<u8>,
    bytes: Seq<u8>,
    outboard: bool,
)
    requires
        parser.wf(),
        parser.content_len is Some,
        all_reached(parser, content, bytes, outboard),
        parser.pending.len() > 0,
    ensures
        reached(
            content,
            bytes,
            HEADER_SIZE as int,
            outboard,
            parser.position,
            parser.pending.last(),
        ),
{
    let last: int = parser.pending.len() - 1;
    assert(parser.pending.take(last + 1) =~= parser.pending);
    assert(parser.pending[last] == parser.pending.last());
}

pub proof fn lemma_all_reached_root(
    parser: ParseView,
    content: Seq<u8>,
    bytes: Seq<u8>,
    outboard: bool,
)
    requires
        parser.pending == seq![parser.len()],
        parser.len() == content.len(),
    ensures
        all_reached(parser, content, bytes, outboard),
{
    lemma_total_one(parser.len());
    assert forall|i: int| 0 <= i < parser.pending.len() implies reached(
        content,
        bytes,
        HEADER_SIZE as int,
        outboard,
        parser.len() - total(parser.pending.take(i + 1)),
        #[trigger] parser.pending[i],
    ) by {
        assert(parser.pending.take(i + 1) =~= parser.pending);
    }
}

pub proof fn lemma_all_reached_take(
    parser: ParseView,
    from: ParseView,
    depth: int,
    content: Seq<u8>,
    bytes: Seq<u8>,
    outboard: bool,
)
    requires
        all_reached(from, content, bytes, outboard),
        parser.content_len == from.content_len,
        0 <= depth <= from.pending.len(),
        parser.pending == from.pending.take(depth),
    ensures
        all_reached(parser, content, bytes, outboard),
{
    assert forall|i: int| 0 <= i < parser.pending.len() implies reached(
        content,
        bytes,
        HEADER_SIZE as int,
        outboard,
        parser.len() - total(parser.pending.take(i + 1)),
        #[trigger] parser.pending[i],
    ) by {
        assert(parser.pending[i] == from.pending[i]);
        assert(parser.pending.take(i + 1) =~= from.pending.take(i + 1));
    }
}

pub proof fn lemma_all_reached_parent(
    parser: ParseView,
    content: Seq<u8>,
    bytes: Seq<u8>,
    outboard: bool,
)
    requires
        parser.wf(),
        parser.len() == content.len(),
        crate::partial::in_tree(parser),
        all_reached(parser, content, bytes, outboard),
        parser.read_next() is Parent,
        found_at(
            parent_node(
                content.subrange(parser.position, parser.position + parser.pending.last()),
            ),
            bytes,
            place(
                HEADER_SIZE as int,
                parser.position,
                parser.outboard_position() - HEADER_SIZE,
                outboard,
            ),
        ),
    ensures
        all_reached(parser.advance_parent(), content, bytes, outboard),
{
    let after = parser.advance_parent();
    let sub: int = parser.pending.last();
    let l: int = left_part(sub);
    let rest = parser.pending.drop_last();
    let depth: int = rest.len() as int;
    lemma_in_tree_last(parser);
    lemma_all_reached_last(parser, content, bytes, outboard);
    lemma_reached_split(
        content,
        bytes,
        HEADER_SIZE as int,
        outboard,
        parser.position,
        sub,
        parser.outboard_position() - HEADER_SIZE,
    );
    lemma_total_push(rest, sub - l);
    lemma_total_push(rest.push(sub - l), l);
    assert forall|i: int| 0 <= i < after.pending.len() implies reached(
        content,
        bytes,
        HEADER_SIZE as int,
        outboard,
        after.len() - total(after.pending.take(i + 1)),
        #[trigger] after.pending[i],
    ) by {
        if i < depth {
            assert(after.pending[i] == parser.pending[i]);
            assert(after.pending.take(i + 1) =~= parser.pending.take(i + 1));
        } else if i == depth {
            assert(after.pending.take(i + 1) =~= rest.push(sub - l));
        } else {
            assert(after.pending.take(i + 1) =~= after.pending);
        }
    }
}

impl ReaderView {
    /// Whether the sources are an encoding of `content`, or the start of one.
    pub open spec fn holds_prefix(self, content: Seq<u8>) -> bool {
        match self.outboard {
            None => self.input.bytes.is_prefix_of(combined_encoding(content)),
            Some(outboard) => {
                &&& self.input.bytes.is_prefix_of(content)
                &&& outboard.bytes.is_prefix_of(outboard_encoding(content))
            },
        }
    }

    /// Whether the sources have the header and the parents that were read on the way to the unread
    /// subtrees.
    pub open spec fn came_by(self, content: Seq<u8>) -> bool {
        self.parser().content_len is Some ==> {
            &&& found_at(header(content.len() as int), self.nodes().bytes, 0)
            &&& all_reached(
                self.parser(),
                content,
                self.nodes().bytes,
                self.outboard is Some,
            )
        }
    }

    /// Whether the reader stands somewhere in `content` and reads an encoding of it, or the start
    /// of one.
    pub open spec fn reads_prefix(self, content: Seq<u8>) -> bool {
        &&& self.stands_in(content)
        &&& self.holds_prefix(content)
        &&& self.came_by(content)
    }

    /// Reading what is in its place adds it to what was read on the way.
    pub proof fn lemma_came_by_header(self, content: Seq<u8>)
        requires
            self.stands_in(content),
            self.aligned(),
            self.parser().read_next() is Header,
            found_at(header(content.len() as int), self.nodes().bytes, 0),
        ensures
            self.read_header().0.came_by(content),
            self.read_header().0.related(self),
    {
        lemma_header_value(content.len() as u64);
        self.lemma_header_there(content);
        let after = self.read_header().0;
        assert(after.nodes().bytes == self.nodes().bytes);
        lemma_all_reached_root(
            after.parser(),
            content,
            after.nodes().bytes,
            self.outboard is Some,
        );
    }

    pub proof fn lemma_came_by_parent(self, content: Seq<u8>)
        requires
            self.stands_in(content),
            self.aligned(),
            self.came_by(content),
            self.parser().read_next() is Parent,
            self.nodes().has(PARENT_SIZE as int),
            self.nodes().next(PARENT_SIZE as int) == parent_node(
                unread(self.parser(), content).last(),
            ),
        ensures
            self.read_parent().0.came_by(content),
            self.read_parent().0.related(self),
    {
        self.core.verify.lemma_tracks_segments(content);
        self.core.verify.lemma_track_parent(content);
        self.lemma_parent_there(content);
        assert(found_at(
            parent_node(unread(self.parser(), content).last()),
            self.nodes().bytes,
            self.nodes().position,
        ));
        lemma_all_reached_parent(
            self.parser(),
            content,
            self.nodes().bytes,
            self.outboard is Some,
        );
        assert(self.read_parent().0.nodes().bytes == self.nodes().bytes);
    }

    pub proof fn lemma_came_by_chunk(self, content: Seq<u8>, skip: int, room: int)
        requires
            self.stands_in(content),
            self.came_by(content),
            self.core.buf.len() == 0,
            self.parser().read_next() is Chunk,
            0 <= skip <= self.parser().pending.last(),
            0 <= room,
            self.input.has(self.parser().pending.last()),
            self.input.next(self.parser().pending.last()) == unread(
                self.parser(),
                content,
            ).last(),
        ensures
            ({
                let size = self.parser().pending.last();
                let outcome = self.read_chunk(size, self.parser().finalization(), skip, room);
                outcome.after.came_by(content)
            }),
    {
        let size: int = self.parser().pending.last();
        let after = self.read_chunk(size, self.parser().finalization(), skip, room).after;
        let depth: int = self.parser().pending.len() - 1;
        self.lemma_chunk_there(content, skip, room);
        assert(after.nodes().bytes == self.nodes().bytes);
        assert(self.parser().pending.drop_last() =~= self.parser().pending.take(depth));
        lemma_all_reached_take(
            after.parser(),
            self.parser(),
            depth,
            content,
            self.nodes().bytes,
            self.outboard is Some,
        );
    }

    proof fn lemma_came_by_descend(self, content: Seq<u8>)
        requires
            self.stands_in(content),
            self.aligned(),
            self.came_by(content),
            self.has_path(content, self.parser().content_position()),
            self.parser().content_position() < content.len() || content.len() == 0,
        ensures
            self.descend().0.came_by(content),
            self.descend().0.related(self),
        decreases self.rank(),
    {
        self.lemma_rank();
        let position: int = self.parser().content_position();
        if self.parser().read_next() is Header {
            lemma_header_value(content.len() as u64);
            self.lemma_header_there(content);
            self.lemma_came_by_header(content);
            self.read_header().0.lemma_came_by_descend(content);
        } else if self.parser().read_next() is Parent {
            self.core.verify.lemma_tracks_segments(content);
            self.lemma_path_next(content, position);
            self.lemma_parent_there(content);
            self.lemma_came_by_parent(content);
            self.read_parent().0.lemma_came_by_descend(content);
        }
    }

    /// What was read on the way is still there after a read that found what it takes.
    pub proof fn lemma_came_by_read(self, content: Seq<u8>, room: int)
        requires
            self.stands_in(content),
            self.aligned(),
            self.came_by(content),
            self.can_read(content, self.reading_position()),
            self.reading_position() < content.len(),
            0 <= room,
        ensures
            self.read(room).after.came_by(content),
    {
        let start: int = self.reading_position();
        let after = self.read(room).after;
        if self.core.buf.len() > 0 {
            assert(after.nodes().bytes == self.nodes().bytes);
        } else {
            self.lemma_descend_there(content);
            self.lemma_came_by_descend(content);
            self.lemma_descend();
            let here = self.descend().0;
            here.core.verify.lemma_tracks_segments(content);
            assert(here.parser().read_next() is Chunk);
            here.lemma_chunk_next(content, start);
            here.lemma_came_by_chunk(content, here.parser().skip, room);
        }
    }

    proof fn lemma_prefix_header(self, content: Seq<u8>)
        requires
            self.reads_prefix(content),
            self.aligned(),
            self.parser().read_next() is Header,
        ensures
            self.nodes().has(HEADER_SIZE as int) ==> {
                &&& self.nodes().next(HEADER_SIZE as int) == header(content.len() as int)
                &&& found_at(header(content.len() as int), self.nodes().bytes, 0)
                &&& self.read_header().0.reads_prefix(content)
            },
    {
        let len: int = content.len() as int;
        let whole = if self.outboard is Some {
            outboard_encoding(content)
        } else {
            combined_encoding(content)
        };
        lemma_header_value(content.len() as u64);
        if self.nodes().has(HEADER_SIZE as int) {
            assert(whole.subrange(0, HEADER_SIZE as int) =~= header(len));
            lemma_before_cut(self.nodes().bytes, whole, header(len), 0);
            self.lemma_header_there(content);
            let after = self.read_header().0;
            assert(after.nodes().bytes == self.nodes().bytes);
            lemma_all_reached_root(
                after.parser(),
                content,
                after.nodes().bytes,
                self.outboard is Some,
            );
        }
    }

    /// The next subtree of an encoding that is whole stands where the reader reads.
    proof fn lemma_next_encoded(self, content: Seq<u8>)
        requires
            self.stands_in(content),
            self.aligned(),
            self.parser().content_len is Some,
            self.parser().pending.len() > 0,
        ensures
            ({
                let part = unread(self.parser(), content).last();
                &&& self.outboard is None ==> found_at(
                    encode_subtree(part),
                    combined_encoding(content),
                    self.input.position,
                )
                &&& self.outboard matches Some(outboard) ==> {
                    &&& found_at(
                        outboard_subtree(part),
                        outboard_encoding(content),
                        outboard.position,
                    )
                    &&& found_at(part, content, self.input.position)
                }
            }),
    {
        let base: int = self.parser().position;
        let sub: int = self.parser().pending.last();
        let parents: int = self.parser().outboard_position() - HEADER_SIZE;
        let part = unread(self.parser(), content).last();
        let before = header(content.len() as int);
        lemma_header_value(content.len() as u64);
        self.core.verify.lemma_tracks_segments(content);
        lemma_in_tree_last(self.parser());
        lemma_encoded_at(content, base, sub, parents);
        lemma_found_inside(
            encode_subtree(part),
            encode_subtree(content),
            base + parents,
            before,
            Seq::empty(),
        );
        lemma_found_inside(
            outboard_subtree(part),
            outboard_subtree(content),
            parents,
            before,
            Seq::empty(),
        );
        assert(before + encode_subtree(content) + Seq::<u8>::empty()
            =~= combined_encoding(content));
        assert(before + outboard_subtree(content) + Seq::<u8>::empty()
            =~= outboard_encoding(content));
    }

    proof fn lemma_prefix_parent(self, content: Seq<u8>)
        requires
            self.reads_prefix(content),
            self.aligned(),
            self.parser().read_next() is Parent,
        ensures
            self.nodes().has(PARENT_SIZE as int) ==> {
                &&& self.nodes().next(PARENT_SIZE as int) == parent_node(
                    unread(self.parser(), content).last(),
                )
                &&& self.read_parent().0.reads_prefix(content)
            },
    {
        let part = unread(self.parser(), content).last();
        let parent = parent_node(part);
        let position: int = self.nodes().position;
        self.lemma_next_encoded(content);
        self.core.verify.lemma_tracks_segments(content);
        self.core.verify.lemma_track_parent(content);
        lemma_subtree_hash_len(left(part), Finalization::NotRoot);
        lemma_subtree_hash_len(right(part), Finalization::NotRoot);
        if self.nodes().has(PARENT_SIZE as int) {
            let (rest, whole) = if self.outboard is Some {
                (
                    outboard_subtree(left(part)) + outboard_subtree(right(part)),
                    outboard_encoding(content),
                )
            } else {
                (
                    encode_subtree(left(part)) + encode_subtree(right(part)),
                    combined_encoding(content),
                )
            };
            assert(parent + encode_subtree(left(part)) + encode_subtree(right(part)) =~= parent + (
            encode_subtree(left(part)) + encode_subtree(right(part))));
            assert(parent + outboard_subtree(left(part)) + outboard_subtree(right(part))
                =~= parent + (outboard_subtree(left(part)) + outboard_subtree(right(part))));
            lemma_found_split(parent, rest, whole, position);
            lemma_before_cut(self.nodes().bytes, whole, parent, position);
            self.lemma_parent_there(content);
            lemma_all_reached_parent(
                self.parser(),
                content,
                self.nodes().bytes,
                self.outboard is Some,
            );
            assert(self.read_parent().0.nodes().bytes == self.nodes().bytes);
        }
    }

    proof fn lemma_prefix_chunk(self, content: Seq<u8>, position: int)
        requires
            self.reads_prefix(content),
            self.aligned(),
            self.parser().read_next() is Chunk,
            self.parser().position <= position < self.parser().position
                + self.parser().pending.last() || position == content.len() == 0,
        ensures
            self.has_path(content, position),
            self.input.has(self.parser().pending.last()) ==> self.input.next(
                self.parser().pending.last(),
            ) == unread(self.parser(), content).last(),
            self.input.has(self.parser().pending.last()) <==> self.has_chunk(content, position),
    {
        let base: int = self.parser().position;
        let size: int = self.parser().pending.last();
        let parents: int = self.parser().outboard_position() - HEADER_SIZE;
        let part = unread(self.parser(), content).last();
        let len: int = content.len() as int;
        self.lemma_next_encoded(content);
        self.core.verify.lemma_tracks_segments(content);
        lemma_in_tree_last(self.parser());
        lemma_lies_bounds(len, base, size, parents);
        lemma_all_reached_last(
            self.parser(),
            content,
            self.nodes().bytes,
            self.outboard is Some,
        );
        lemma_reached_path(
            content,
            self.nodes().bytes,
            HEADER_SIZE as int,
            self.outboard is Some,
            base,
            size,
            parents,
            position,
        );
        if size > 0 {
            lemma_chunk_around(base, size, len, position);
            assert(part == chunk_at(content, base));
            assert(encode_subtree(part) == part);
        } else {
            assert(part =~= Seq::<u8>::empty());
            assert(chunk_at(content, 0) =~= Seq::<u8>::empty());
            lemma_header_value(content.len() as u64);
            let at: int = self.chunk_place(content, 0);
            assert(self.input.bytes.subrange(at, at) =~= Seq::<u8>::empty());
        }
        if self.input.has(size) && size > 0 {
            if self.outboard is Some {
                lemma_before_cut(self.input.bytes, content, part, self.input.position);
            } else {
                lemma_before_cut(
                    self.input.bytes,
                    combined_encoding(content),
                    part,
                    self.input.position,
                );
            }
        }
    }
}

impl ReaderView {
    proof fn lemma_prefix_descend(self, content: Seq<u8>)
        requires
            self.reads_prefix(content),
            self.aligned(),
        ensures
            self.descend().0.reads_prefix(content),
            self.descend().0.aligned(),
            self.descend().0.reading_position() == self.reading_position(),
            self.descend().1 is Ok ==> self.descend().0.parser().content_len is Some,
            self.descend().1 matches Err(error) ==> error == ReadError::UnexpectedEof,
            self.descend().0.related(self),
        decreases self.rank(),
    {
        self.lemma_rank();
        self.lemma_descend_related();
        if self.parser().read_next() is Header {
            self.lemma_prefix_header(content);
            if self.nodes().has(HEADER_SIZE as int) {
                self.lemma_header_there(content);
                self.read_header().0.lemma_prefix_descend(content);
            }
        } else if self.parser().read_next() is Parent {
            self.lemma_prefix_parent(content);
            if self.nodes().has(PARENT_SIZE as int) {
                self.lemma_parent_there(content);
                self.read_parent().0.lemma_prefix_descend(content);
            }
        }
    }

    /// A read of a part of an encoding succeeds exactly if bytes are buffered, or the content has
    /// ended, or what is there has the parents above the next byte and the whole chunk around it.
    /// Else it fails because the encoding is cut off, and the reader stands where it stood, so that
    /// it can read on once there is more.
    #[verifier::rlimit(40)]
    pub proof fn law_read_prefix(self, content: Seq<u8>, room: int)
        requires
            self.reads_prefix(content),
            self.aligned(),
            0 <= room,
        ensures
            ({
                let outcome = self.read(room);
                let start = self.reading_position();
                let there = {
                    ||| self.core.buf.len() > 0
                    ||| 0 < content.len() == start
                    ||| self.can_read(content, start)
                };
                &&& 0 <= start <= content.len()
                &&& outcome.after.reads_prefix(content)
                &&& outcome.after.aligned()
                &&& outcome.after.related(self)
                &&& there ==> {
                    let count = if start < content.len() {
                        min(chunk_end(content.len() as int, start) - start, room)
                    } else {
                        0
                    };
                    &&& start + count <= content.len()
                    &&& outcome.result == Ok::<Seq<u8>, ReadError>(
                        content.subrange(start, start + count),
                    )
                    &&& outcome.after.reading_position() == start + count
                    &&& room >= CHUNK_SIZE ==> outcome.after.core.buf.len() == 0
                }
                &&& !there ==> {
                    &&& outcome.result == Err::<Seq<u8>, ReadError>(ReadError::UnexpectedEof)
                    &&& outcome.after.reading_position() == start
                    &&& outcome.after.core.buf.len() == 0
                    &&& outcome.cleared == 0
                }
            }),
    {
        let start: int = self.reading_position();
        let len: int = content.len() as int;
        let outcome = self.read(room);
        self.lemma_read(room);
        self.law_read_related(room);
        if self.parser().content_len is Some {
            self.core.verify.lemma_tracks_segments(content);
            lemma_total_nonnegative(self.parser().pending);
        }
        if self.core.buf.len() > 0 {
            self.law_read_there(content, room);
        } else {
            self.lemma_prefix_descend(content);
            self.lemma_descend();
            let (here, found) = self.descend();
            if found is Ok {
                here.core.verify.lemma_tracks_segments(content);
                let pending = here.parser().pending;
                if here.parser().read_next() is Chunk {
                    lemma_total_nonnegative(pending.drop_last());
                    assert(pending[pending.len() - 1] > 0 || len == 0);
                    here.lemma_prefix_chunk(content, start);
                    if here.input.has(pending.last()) {
                        here.lemma_chunk_there(content, here.parser().skip, room);
                        here.lemma_prefix_after_chunk(content, here.parser().skip, room);
                        self.law_read_there(content, room);
                    }
                } else {
                    assert(start == len);
                    assert(content.subrange(start, start) =~= Seq::<u8>::empty());
                    if len == 0 {
                        here.lemma_prefix_empty(content);
                    }
                    self.law_read_there(content, room);
                }
            } else if 0 < len == start || self.can_read(content, start) {
                self.law_read_there(content, room);
            }
        }
    }

    proof fn lemma_prefix_empty(self, content: Seq<u8>)
        requires
            self.reads_prefix(content),
            self.parser().content_len is Some,
            content.len() == 0,
        ensures
            self.can_read(content, 0),
    {
        let at: int = self.chunk_place(content, 0);
        lemma_header_value(content.len() as u64);
        assert(chunk_at(content, 0) =~= Seq::<u8>::empty());
        assert(self.input.bytes.subrange(at, at) =~= Seq::<u8>::empty());
    }

    proof fn lemma_prefix_after_chunk(self, content: Seq<u8>, skip: int, room: int)
        requires
            self.reads_prefix(content),
            self.aligned(),
            self.core.buf.len() == 0,
            self.parser().read_next() is Chunk,
            0 <= skip <= self.parser().pending.last(),
            0 <= room,
            self.input.has(self.parser().pending.last()),
        ensures
            ({
                let size = self.parser().pending.last();
                let outcome = self.read_chunk(size, self.parser().finalization(), skip, room);
                outcome.after.reads_prefix(content)
            }),
    {
        let size: int = self.parser().pending.last();
        let after = self.read_chunk(size, self.parser().finalization(), skip, room).after;
        let depth: int = self.parser().pending.len() - 1;
        self.core.verify.lemma_tracks_segments(content);
        assert(size > 0 || self.parser().pending[depth] == 0);
        self.lemma_prefix_chunk(content, self.parser().position);
        self.lemma_chunk_there(content, skip, room);
        assert(after.nodes().bytes == self.nodes().bytes);
        assert(self.parser().pending.drop_last() =~= self.parser().pending.take(depth));
        lemma_all_reached_take(
            after.parser(),
            self.parser(),
            depth,
            content,
            self.nodes().bytes,
            self.outboard is Some,
        );
    }
}

impl ReaderView {
    proof fn lemma_prefix_apply_seek(self, content: Seq<u8>, seek_to: int)
        requires
            self.reads_prefix(content),
            self.core.buf.len() == 0,
            self.parser().content_len is Some,
            0 <= seek_to,
            self.in_reach(content, seek_to),
        ensures
            ({
                let (after, result) = self.apply_seek(self.parser().seek_next(seek_to), true);
                &&& result is Ok
                &&& after.reads_prefix(content)
                &&& after.aligned()
                &&& after.parser() == self.parser().seek_move(seek_to)
                &&& after.core.buf.len() == 0
                &&& after.related(self)
            }),
    {
        let bookkeeping = self.parser().seek_next(seek_to);
        let after = self.apply_seek(bookkeeping, true).0;
        let from = if seek_to < self.parser().len() && seek_to < self.parser().position {
            self.parser().reset()
        } else {
            self.parser()
        };
        self.lemma_apply_seek_there(content, seek_to);
        self.parser().lemma_seek_move(seek_to);
        assert(after.nodes().bytes == self.nodes().bytes);
        lemma_all_reached_root(
            self.parser().reset(),
            content,
            self.nodes().bytes,
            self.outboard is Some,
        );
        lemma_all_reached_take(
            after.parser(),
            from,
            after.parser().pending.len() as int,
            content,
            self.nodes().bytes,
            self.outboard is Some,
        );
    }

    proof fn lemma_prefix_seek_step(self, content: Seq<u8>, seek_to: int)
        requires
            self.reads_prefix(content),
            self.parser().content_len is None ==> self.aligned(),
            self.core.buf.len() == 0,
            0 <= seek_to,
            self.in_reach(content, seek_to),
        ensures
            ({
                let (after, result) = self.seek_step(seek_to, true);
                &&& after.reads_prefix(content)
                &&& after.aligned()
                &&& after.related(self)
                &&& result matches Err(error) ==> error == ReadError::UnexpectedEof
                &&& result == Ok::<bool, ReadError>(true) ==> self.can_seek_to(content, seek_to)
                &&& result == Ok::<bool, ReadError>(false) && after.can_seek_to(content, seek_to)
                    ==> self.can_seek_to(content, seek_to)
            }),
    {
        let len: int = content.len() as int;
        let bookkeeping = self.parser().seek_next(seek_to);
        self.lemma_seek_rank(seek_to, true);
        self.lemma_seek_step_related(seek_to, true);
        self.parser().lemma_seek_next(seek_to);
        if self.parser().content_len is None {
            assert(self.apply_seek(bookkeeping, true).0 =~= self) by {
                self.core.verify.lemma_after_seek(seek_to);
                assert(self.core.verify.after_seek(bookkeeping).stack
                    =~= self.core.verify.stack);
            }
            self.lemma_prefix_header(content);
            if self.nodes().has(HEADER_SIZE as int) {
                self.lemma_header_there(content);
            }
        } else {
            self.lemma_prefix_apply_seek(content, seek_to);
            self.parser().lemma_seek_move(seek_to);
            let moved = self.apply_seek(bookkeeping, true).0;
            let pending = moved.parser().pending;
            moved.core.verify.lemma_tracks_segments(content);
            if pending.len() == 1 {
                lemma_total_one(pending[0]);
                assert(pending =~= seq![pending[0]]);
                assert(pending[0] > 0 || len == 0);
            }
            match bookkeeping.next_read {
                NextRead::Header => {},
                NextRead::Parent => {
                    moved.lemma_prefix_parent(content);
                    if moved.nodes().has(PARENT_SIZE as int) {
                        moved.lemma_parent_there(content);
                    }
                },
                NextRead::Chunk { size, finalization, skip } => {
                    moved.lemma_prefix_chunk(content, last_byte(len));
                    if moved.input.has(size as int) {
                        moved.lemma_chunk_there(content, skip as int, 0);
                        moved.lemma_prefix_after_chunk(content, skip as int, 0);
                    }
                },
                NextRead::Done => {
                    if seek_to < len {
                        moved.lemma_prefix_chunk(content, seek_to);
                    }
                },
            }
        }
    }

    /// A seek in a part of an encoding succeeds exactly if what is there has the parents above the
    /// target, or at the end of the content or past it, the final chunk and what lies above. Else
    /// it fails because the encoding is cut off.
    pub proof fn law_seek_prefix(self, content: Seq<u8>, seek_to: int)
        requires
            self.reads_prefix(content),
            self.parser().content_len is None ==> self.aligned(),
            self.core.buf.len() == 0,
            0 <= seek_to,
            self.in_reach(content, seek_to),
        ensures
            ({
                let (after, result) = self.seek(seek_to, true);
                &&& after.reads_prefix(content)
                &&& after.aligned()
                &&& after.core.buf.len() == 0
                &&& self.can_seek_to(content, seek_to) ==> {
                    &&& result is Ok
                    &&& after.reading_position() == min(seek_to, content.len() as int)
                }
                &&& !self.can_seek_to(content, seek_to) ==> result == Err::<(), ReadError>(
                    ReadError::UnexpectedEof,
                )
            }),
        decreases self.header_rank(), self.reset_rank(seek_to), self.work_rank(),
    {
        self.lemma_seek_rank(seek_to, true);
        self.lemma_prefix_seek_step(content, seek_to);
        let (after, result) = self.seek_step(seek_to, true);
        if self.can_seek_to(content, seek_to) {
            self.law_seek_there(content, seek_to);
        }
        if result == Ok::<bool, ReadError>(false) {
            after.law_seek_prefix(content, seek_to);
        }
    }

    /// A reader that has read nothing yet stands before any content with its root hash of which its
    /// sources are an encoding, or the start of one.
    pub proof fn law_fresh_reads_prefix(self, content: Seq<u8>)
        requires
            self.wf(),
            self.fresh(),
            content.len() <= u64::MAX,
            self.core.verify.root_hash == root_hash(content),
            self.holds_prefix(content),
        ensures
            self.reads_prefix(content),
            self.aligned(),
            self.reading_position() == 0,
            self.core.buf.len() == 0,
    {
    }

    /// Reading a part of an encoding to its end hands out exactly the chunks that are there, whole
    /// and with the parents above them, up to the first that is not, and then fails because the
    /// encoding is cut off.
    #[verifier::rlimit(40)]
    pub proof fn law_drain_prefix_exact(self, content: Seq<u8>, end: int)
        requires
            self.reads_prefix(content),
            self.aligned(),
            self.core.buf.len() == 0,
            self.reading_position() <= end,
            end < content.len() || end == 0,
            end % (CHUNK_SIZE as int) == 0,
            self.can_read_range(content, self.reading_position(), end),
            !self.can_read(content, end),
        ensures
            ({
                let (_, bytes, result) = self.drain();
                let start = self.reading_position();
                &&& 0 <= start
                &&& bytes == content.subrange(start, end)
                &&& result == Err::<(), ReadError>(ReadError::UnexpectedEof)
            }),
        decreases self.header_rank(), self.to_come(),
    {
        let start: int = self.reading_position();
        let room: int = CHUNK_SIZE as int;
        if self.parser().content_len is Some {
            self.core.verify.lemma_tracks_segments(content);
        }
        self.law_read_prefix(content, room);
        let outcome = self.read(room);
        if start < end {
            self.lemma_read_progress(room);
            self.lemma_read_chunkful(content, end);
            let bytes = outcome.result->Ok_0;
            outcome.after.law_drain_prefix_exact(content, end);
            let rest = outcome.after.drain().1;
            assert(self.drain().1 == bytes + rest);
            assert(content.subrange(start, end) =~= bytes + content.subrange(
                start + bytes.len(),
                end,
            ));
        } else {
            assert(content.subrange(start, end) =~= Seq::<u8>::empty());
        }
    }
}

/// Every byte lies in a chunk, which is a subtree.
proof fn lemma_chunk_lies(len: int, position: int)
    requires
        0 <= position < len || position == len == 0,
    ensures
        ({
            let base = chunk_base(position);
            let parents = content_offset(len, base) - base;
            lies_at(len, base, chunk_end(len, position) - base, parents)
        }),
    decreases len,
{
    let base: int = chunk_base(position);
    if len > CHUNK_SIZE {
        let l: int = left_part(len);
        lemma_left_part(len);
        lemma_grid_step(l, position);
        if position < l {
            lemma_chunk_lies(l, position);
        } else {
            lemma_chunk_lies(len - l, position - l);
        }
    }
}

/// The parents above a chunk come before it.
proof fn lemma_path_before(
    content: Seq<u8>,
    bytes: Seq<u8>,
    whole: Seq<u8>,
    at: int,
    position: int,
    outboard: bool,
    base: int,
    sub: int,
    parents: int,
)
    requires
        lies_at(content.len() as int, base, sub, parents),
        sub <= CHUNK_SIZE,
        base <= position < base + sub || content.len() == 0,
        bytes.is_prefix_of(whole),
        found_at(
            if outboard {
                outboard_subtree(content)
            } else {
                encode_subtree(content)
            },
            whole,
            at,
        ),
        place(at, base, parents, outboard) <= bytes.len(),
    ensures
        path_at(content, bytes, at, position, outboard),
    decreases content.len(),
{
    let len: int = content.len() as int;
    if len > CHUNK_SIZE {
        let l: int = left_part(len);
        let parent = parent_node(content);
        let (first, second) = if outboard {
            (outboard_subtree(left(content)), outboard_subtree(right(content)))
        } else {
            (encode_subtree(left(content)), encode_subtree(right(content)))
        };
        lemma_lies_bounds(len, base, sub, parents);
        lemma_left_part(len);
        lemma_encode_subtree_len(left(content));
        lemma_subtree_hash_len(left(content), Finalization::NotRoot);
        lemma_subtree_hash_len(right(content), Finalization::NotRoot);
        crate::parse::lemma_parents_size_bound(l);
        assert(parent + first + second =~= parent + (first + second));
        lemma_found_split(parent, first + second, whole, at);
        lemma_found_split(first, second, whole, at + PARENT_SIZE);
        if base < l {
            lemma_lies_bounds(l, base, sub, parents - PARENT_SIZE);
            lemma_before_cut(bytes, whole, parent, at);
            lemma_path_before(
                left(content),
                bytes,
                whole,
                at + PARENT_SIZE,
                position,
                outboard,
                base,
                sub,
                parents - PARENT_SIZE,
            );
        } else {
            let rest: int = parents - PARENT_SIZE - parents_size(l);
            lemma_lies_bounds(len - l, base - l, sub, rest);
            lemma_before_cut(bytes, whole, parent, at);
            lemma_path_before(
                right(content),
                bytes,
                whole,
                at + PARENT_SIZE + extent(l, outboard),
                position - l,
                outboard,
                base - l,
                sub,
                rest,
            );
        }
    }
}

impl ReaderView {
    /// What a part of an encoding has: the parents above a byte if it goes up to where the chunk
    /// around that byte starts, and the chunk if it goes up to where that ends. In a combined
    /// encoding, a byte can be read exactly if the cut lies behind its chunk.
    pub proof fn law_prefix_has(self, content: Seq<u8>, position: int)
        requires
            self.holds_prefix(content),
            content.len() <= u64::MAX,
            0 <= position < content.len(),
        ensures
            ({
                let base = chunk_base(position);
                let end = chunk_end(content.len() as int, position);
                let at = self.chunk_place(content, base);
                let parents = content_offset(content.len() as int, base) - base;
                &&& self.outboard is None && at <= self.input.bytes.len() ==> self.has_path(
                    content,
                    position,
                )
                &&& self.outboard is Some && HEADER_SIZE + parents <= self.nodes().bytes.len()
                    ==> self.has_path(content, position)
                &&& self.has_chunk(content, position) <==> at + (end - base)
                    <= self.input.bytes.len()
                &&& self.outboard is None ==> (self.can_read(content, position) <==> at + (end
                    - base) <= self.input.bytes.len())
            }),
    {
        let len: int = content.len() as int;
        let base: int = chunk_base(position);
        let end: int = chunk_end(len, position);
        let parents: int = content_offset(len, base) - base;
        let chunk = content.subrange(base, end);
        let before = header(len);
        let bytes = self.nodes().bytes;
        let outboard = self.outboard is Some;
        let (tree, whole) = if outboard {
            (outboard_subtree(content), outboard_encoding(content))
        } else {
            (encode_subtree(content), combined_encoding(content))
        };
        lemma_header_value(content.len() as u64);
        lemma_chunk_lies(len, position);
        lemma_lies_bounds(len, base, end - base, parents);
        assert(chunk == chunk_at(content, base));
        assert(encode_subtree(chunk) == chunk);
        lemma_encoded_at(content, base, end - base, parents);
        lemma_found_inside(chunk, encode_subtree(content), base + parents, before, Seq::empty());
        assert(before + encode_subtree(content) + Seq::<u8>::empty()
            =~= combined_encoding(content));
        if self.has_chunk_room(content, position) {
            if outboard {
                assert(found_at(chunk, content, base));
                lemma_before_cut(self.input.bytes, content, chunk, base);
            } else {
                lemma_before_cut(self.input.bytes, whole, chunk, HEADER_SIZE + base + parents);
            }
        }
        assert(whole.subrange(0, HEADER_SIZE as int) =~= before);
        assert(whole.subrange(HEADER_SIZE as int, whole.len() as int) =~= tree);
        if place(HEADER_SIZE as int, base, parents, outboard) <= bytes.len() {
            lemma_before_cut(bytes, whole, before, 0);
            lemma_path_before(
                content,
                bytes,
                whole,
                HEADER_SIZE as int,
                position,
                outboard,
                base,
                end - base,
                parents,
            );
        }
    }

    spec fn has_chunk_room(self, content: Seq<u8>, position: int) -> bool {
        let base = chunk_base(position);
        self.chunk_place(content, base) + (chunk_end(content.len() as int, position) - base)
            <= self.input.bytes.len()
    }
}

impl ReaderView {
    /// The length of the content is found out from a part of an encoding exactly if that has the
    /// final chunk and what lies above, or the final chunk was verified before.
    pub proof fn law_verify_len_prefix(self, content: Seq<u8>)
        requires
            self.reads_prefix(content),
            self.parser().content_len is None ==> self.aligned(),
            self.core.buf.len() == 0,
            self.in_reach(content, content.len() as int),
        ensures
            ({
                let (after, result) = self.verify_len();
                &&& after.reads_prefix(content)
                &&& after.core.buf.len() == 0
                &&& after.parser().content_len is None ==> after.aligned()
                &&& after.related(self)
                &&& self.can_seek_to(content, content.len() as int) ==> {
                    &&& result == Ok::<u64, ReadError>(content.len() as u64)
                    &&& after.parser().validated
                }
                &&& !self.can_seek_to(content, content.len() as int) ==> result == Err::<
                    u64,
                    ReadError,
                >(ReadError::UnexpectedEof)
            }),
        decreases self.header_rank(), self.work_rank(),
    {
        let most: int = u64::MAX as int;
        self.lemma_in_reach(content, most);
        if self.parser().validated {
            self.core.verify.lemma_tracks_segments(content);
        } else {
            self.lemma_seek_rank(most, true);
            self.lemma_prefix_seek_step(content, most);
            let (after, result) = self.seek_step(most, true);
            if self.can_seek_to(content, content.len() as int) {
                self.lemma_seek_step_there(content, most);
            }
            if result is Ok {
                after.law_verify_len_prefix(content);
            }
        }
    }

    /// A seek in a part of an encoding leads to where it is told to, counted from the start, from
    /// the end, or from the next byte to hand out, exactly if what is there has what that takes.
    /// Else it fails because the encoding is cut off, or because there is no such place.
    #[verifier::rlimit(40)]
    pub proof fn law_seek_from_prefix(self, content: Seq<u8>, position: SeekFrom)
        requires
            self.reads_prefix(content),
            self.parser().content_len is None ==> self.aligned(),
            self.in_reach(content, content.len() as int),
        ensures
            ({
                let len = content.len() as int;
                let target = self.seek_base(content, position) + match position {
                    SeekFrom::Start(offset) => offset as int,
                    SeekFrom::End(offset) => offset as int,
                    SeekFrom::Current(offset) => offset as int,
                };
                let (after, result) = self.seek_from(position);
                &&& after.reads_prefix(content)
                &&& after.core.buf.len() == 0
                &&& after.related(self)
                &&& if position is End && !self.can_seek_to(content, len) {
                    result == Err::<u64, ReadError>(ReadError::UnexpectedEof)
                } else if target < 0 {
                    result == Err::<u64, ReadError>(ReadError::SeekBeforeBeginning)
                } else if target > u64::MAX {
                    result == Err::<u64, ReadError>(ReadError::SeekTargetOverflow)
                } else if !self.can_seek_to(content, target) {
                    result == Err::<u64, ReadError>(ReadError::UnexpectedEof)
                } else {
                    &&& result == Ok::<u64, ReadError>(target as u64)
                    &&& after.aligned()
                    &&& after.reading_position() == min(target, len)
                }
            }),
    {
        let len: int = content.len() as int;
        let cleared = self.clear_buf();
        if self.parser().content_len is Some {
            self.core.verify.lemma_tracks_segments(content);
        }
        assert(cleared.core.buf =~= content.subrange(
            self.parser().position,
            self.parser().position,
        ));
        assert(cleared.nodes().bytes == self.nodes().bytes);
        match position {
            SeekFrom::Start(offset) => {
                cleared.lemma_in_reach(content, offset as int);
                cleared.law_seek_prefix(content, offset as int);
                cleared.law_seek_related(offset as int, true);
            },
            SeekFrom::End(offset) => {
                cleared.law_verify_len_prefix(content);
                let (at, found) = cleared.verify_len();
                let target: int = len + offset;
                if found is Ok && 0 <= target <= u64::MAX {
                    at.lemma_in_reach(content, target);
                    at.law_seek_prefix(content, target);
                    at.law_seek_related(target, true);
                }
            },
            SeekFrom::Current(offset) => {
                let target: int = self.reading_position() + offset;
                if 0 <= target <= u64::MAX {
                    cleared.lemma_in_reach(content, target);
                    cleared.law_seek_prefix(content, target);
                    cleared.law_seek_related(target, true);
                }
            },
        }
    }
}

} // verus!
