//! Damage is confined: where some chunks of an encoding are damaged and its parents are not, the
//! other chunks can still be read, and a damaged one fails to verify.

use vstd::prelude::*;

use crate::complete::{found_at, lemma_fill_step, lemma_found_skip, lemma_found_split};
use crate::error::{Error, ReadError};
use crate::hash::{
    header, lemma_header_value, Finalization, Node, CHUNK_SIZE, HEADER_SIZE, PARENT_SIZE,
};
use crate::origin::{chunk_at, starts_chunk};
use crate::parse::{
    lemma_parents_size_bound, lemma_total_nonnegative, lemma_total_one, total, total_parents,
    NextRead, ParseView,
};
use crate::parts::{
    lemma_segments, lemma_skip_encodings, lemma_split_parts, lengths_match, outboard_parts, unread,
};
use crate::reading::{min, ReaderView, SeekFrom};
use crate::tree::{
    combined_encoding, encode_subtree, height, left, left_part, lemma_encode_subtree_len,
    lemma_height_monotone, lemma_left_part,
    outboard_encoding, outboard_subtree, parent_node, right, root_hash, subtree_hash, subtree_size,
};
use crate::verify::VerifyView;

verus! {

/// A subtree written in pre-order with the parents over `content` but the chunks of `stored`.
pub open spec fn mixed_subtree(content: Seq<u8>, stored: Seq<u8>) -> Seq<u8>
    decreases content.len(),
{
    if content.len() <= CHUNK_SIZE {
        stored
    } else {
        proof {
            lemma_left_part(content.len() as int);
        }
        parent_node(content) + mixed_subtree(left(content), left(stored)) + mixed_subtree(
            right(content),
            right(stored),
        )
    }
}

/// A combined encoding with the header and parents of `content` but the chunks of `stored`.
pub open spec fn mixed_encoding(content: Seq<u8>, stored: Seq<u8>) -> Seq<u8> {
    header(content.len() as int) + mixed_subtree(content, stored)
}

/// Where in a subtree over `len` bytes the byte of the content at `position` stands.
pub open spec fn content_offset(len: int, position: int) -> int
    decreases len,
{
    if len <= CHUNK_SIZE {
        position
    } else {
        proof {
            lemma_left_part(len);
        }
        let l = left_part(len);
        PARENT_SIZE + if position < l {
            content_offset(l, position)
        } else {
            subtree_size(l) + content_offset(len - l, position - l)
        }
    }
}

proof fn lemma_mixed_len(content: Seq<u8>, stored: Seq<u8>)
    requires
        content.len() == stored.len(),
    ensures
        mixed_subtree(content, stored).len() == subtree_size(content.len() as int),
        content == stored ==> mixed_subtree(content, stored) == encode_subtree(content),
    decreases content.len(),
{
    lemma_encode_subtree_len(content);
    if content.len() > CHUNK_SIZE {
        lemma_left_part(content.len() as int);
        lemma_mixed_len(left(content), left(stored));
        lemma_mixed_len(right(content), right(stored));
        lemma_encode_subtree_len(left(content));
        lemma_encode_subtree_len(right(content));
    }
}

proof fn lemma_mixed_byte(content: Seq<u8>, position: int, byte: u8)
    requires
        0 <= position < content.len(),
    ensures
        0 <= content_offset(content.len() as int, position) < encode_subtree(content).len(),
        encode_subtree(content)[content_offset(content.len() as int, position)]
            == content[position],
        mixed_subtree(content, content.update(position, byte)) == encode_subtree(content).update(
            content_offset(content.len() as int, position),
            byte,
        ),
    decreases content.len(),
{
    let len: int = content.len() as int;
    let stored = content.update(position, byte);
    lemma_encode_subtree_len(content);
    if len > CHUNK_SIZE {
        let l: int = left_part(len);
        let parent = parent_node(content);
        let first = encode_subtree(left(content));
        let second = encode_subtree(right(content));
        lemma_left_part(len);
        lemma_encode_subtree_len(left(content));
        lemma_encode_subtree_len(right(content));
        lemma_split_parts(seq![content]);
        if position < l {
            let offset: int = content_offset(l, position);
            lemma_mixed_byte(left(content), position, byte);
            assert(left(stored) =~= left(content).update(position, byte));
            assert(right(stored) =~= right(content));
            lemma_mixed_len(right(content), right(content));
            assert(parent + first.update(offset, byte) + second =~= (parent + first
                + second).update(PARENT_SIZE + offset, byte));
        } else {
            let offset: int = content_offset(len - l, position - l);
            lemma_mixed_byte(right(content), position - l, byte);
            assert(right(stored) =~= right(content).update(position - l, byte));
            assert(left(stored) =~= left(content));
            lemma_mixed_len(left(content), left(content));
            assert(parent + first + second.update(offset, byte) =~= (parent + first
                + second).update(PARENT_SIZE + subtree_size(l) + offset, byte));
        }
    }
}

/// To change a byte of a chunk in a combined encoding is to change it in the chunks alone.
pub proof fn law_byte_changed(content: Seq<u8>, position: int, byte: u8)
    requires
        0 <= position < content.len() <= u64::MAX,
    ensures
        ({
            let offset = HEADER_SIZE + content_offset(content.len() as int, position);
            let encoding = combined_encoding(content);
            &&& HEADER_SIZE <= offset < encoding.len()
            &&& encoding[offset] == content[position]
            &&& encoding.update(offset, byte) == mixed_encoding(
                content,
                content.update(position, byte),
            )
        }),
{
    lemma_mixed_byte(content, position, byte);
    lemma_header_value(content.len() as u64);
    let offset: int = content_offset(content.len() as int, position);
    assert(combined_encoding(content).update(HEADER_SIZE + offset, byte) =~= mixed_encoding(
        content,
        content.update(position, byte),
    ));
}

/// The subtrees over some parts in pre-order, with chunks of `stored`.
pub open spec fn mixed_parts(parts: Seq<Seq<u8>>, stored: Seq<Seq<u8>>) -> Seq<u8>
    decreases parts.len(),
{
    if parts.len() == 0 {
        Seq::empty()
    } else {
        mixed_subtree(parts.last(), stored.last()) + mixed_parts(
            parts.drop_last(),
            stored.drop_last(),
        )
    }
}

proof fn lemma_push_mixed(
    parts: Seq<Seq<u8>>,
    stored: Seq<Seq<u8>>,
    part: Seq<u8>,
    stored_part: Seq<u8>,
)
    ensures
        mixed_parts(parts.push(part), stored.push(stored_part)) == mixed_subtree(part, stored_part)
            + mixed_parts(parts, stored),
{
    assert(parts.push(part).drop_last() =~= parts);
    assert(stored.push(stored_part).drop_last() =~= stored);
}

proof fn lemma_split_mixed(parts: Seq<Seq<u8>>, stored: Seq<Seq<u8>>)
    requires
        parts.len() > 0,
        parts.last().len() > CHUNK_SIZE,
    ensures
        ({
            let part = parts.last();
            let stored_part = stored.last();
            mixed_parts(parts, stored) == parent_node(part) + mixed_parts(
                parts.drop_last().push(right(part)).push(left(part)),
                stored.drop_last().push(right(stored_part)).push(left(stored_part)),
            )
        }),
{
    let part = parts.last();
    let stored_part = stored.last();
    let rest = parts.drop_last();
    let stored_rest = stored.drop_last();
    lemma_push_mixed(rest, stored_rest, right(part), right(stored_part));
    lemma_push_mixed(
        rest.push(right(part)),
        stored_rest.push(right(stored_part)),
        left(part),
        left(stored_part),
    );
    let first = mixed_subtree(left(part), left(stored_part));
    let second = mixed_subtree(right(part), right(stored_part));
    let last = mixed_parts(rest, stored_rest);
    assert(parent_node(part) + first + second + last =~= parent_node(part) + (first + (second
        + last)));
}

/// The mixed subtrees that are left end all of them.
proof fn lemma_skip_mixed(
    parts: Seq<Seq<u8>>,
    stored: Seq<Seq<u8>>,
    lens: Seq<int>,
    depth: int,
)
    requires
        lengths_match(parts, lens),
        lengths_match(stored, lens),
        0 <= depth <= lens.len(),
    ensures
        ({
            let skipped = total(lens) - total(lens.take(depth)) + total_parents(lens)
                - total_parents(lens.take(depth));
            &&& mixed_parts(parts, stored).len() == total(lens) + total_parents(lens)
            &&& 0 <= skipped <= mixed_parts(parts, stored).len()
            &&& mixed_parts(parts, stored).skip(skipped) == mixed_parts(
                parts.take(depth),
                stored.take(depth),
            )
        }),
    decreases lens.len(),
{
    if lens.len() > 0 {
        let shorter = lens.drop_last();
        let rest = parts.drop_last();
        let stored_rest = stored.drop_last();
        assert forall|i: int| 0 <= i < rest.len() implies (#[trigger] rest[i]).len()
            == shorter[i] by {
            assert(parts[i].len() == lens[i]);
        }
        assert forall|i: int| 0 <= i < stored_rest.len() implies (#[trigger] stored_rest[i]).len()
            == shorter[i] by {
            assert(stored[i].len() == lens[i]);
        }
        assert(parts[parts.len() - 1].len() == lens.last());
        assert(stored[stored.len() - 1].len() == lens.last());
        lemma_mixed_len(parts.last(), stored.last());
        lemma_parents_size_bound(lens.last());
        if depth < lens.len() {
            lemma_skip_mixed(rest, stored_rest, shorter, depth);
            assert(shorter.take(depth) =~= lens.take(depth));
            assert(rest.take(depth) =~= parts.take(depth));
            assert(stored_rest.take(depth) =~= stored.take(depth));
            let skipped: int = total(shorter) - total(shorter.take(depth)) + total_parents(shorter)
                - total_parents(shorter.take(depth));
            assert(mixed_parts(parts, stored).skip(subtree_size(lens.last()) + skipped)
                =~= mixed_parts(rest, stored_rest).skip(skipped));
        } else {
            lemma_skip_mixed(rest, stored_rest, shorter, shorter.len() as int);
        }
    }
    if depth == lens.len() {
        assert(lens.take(depth) =~= lens);
        assert(parts.take(depth) =~= parts);
        assert(stored.take(depth) =~= stored);
        assert(mixed_parts(parts, stored).skip(0) =~= mixed_parts(parts, stored));
    }
}

/// The verifier that stands at a position in the tree over `stored`.
spec fn shadow(parser: ParseView, stored: Seq<u8>) -> VerifyView {
    let parts = unread(parser, stored);
    VerifyView {
        stack: Seq::new(
            parts.len(),
            |i: int| subtree_hash(parts[i], parser.finalization()),
        ),
        parser,
        root_hash: root_hash(stored),
    }
}

proof fn lemma_shadow(parser: ParseView, stored: Seq<u8>)
    requires
        parser.wf(),
        stored.len() <= u64::MAX,
        parser.content_len == Some(stored.len() as u64),
    ensures
        shadow(parser, stored).tracks(stored),
        lengths_match(unread(parser, stored), parser.pending),
{
    lemma_total_nonnegative(parser.pending);
    lemma_segments(stored.skip(parser.position), parser.pending);
}

/// Whether all subtrees that are left start where a chunk starts.
pub open spec fn on_grid(parser: ParseView) -> bool {
    &&& parser.pending.len() > 0 ==> parser.position % (CHUNK_SIZE as int) == 0
    &&& forall|i: int|
        0 < i < parser.pending.len() ==> #[trigger] parser.pending[i] % (CHUNK_SIZE as int) == 0
}

proof fn lemma_grid_parent(parser: ParseView)
    requires
        parser.wf(),
        on_grid(parser),
        parser.read_next() is Parent,
    ensures
        on_grid(parser.advance_parent()),
{
    let len: int = parser.pending.last();
    let last: int = parser.pending.len() - 1;
    let after = parser.advance_parent().pending;
    lemma_left_part(len);
    assert forall|i: int| 0 < i < after.len() implies #[trigger] after[i] % (CHUNK_SIZE as int)
        == 0 by {
        if i < last {
            assert(after[i] == parser.pending[i]);
        } else if i == last {
            assert(parser.pending[i] % (CHUNK_SIZE as int) == 0);
        }
    }
}

proof fn lemma_grid_chunk(parser: ParseView)
    requires
        parser.wf(),
        on_grid(parser),
        parser.read_next() is Chunk,
    ensures
        on_grid(parser.advance_chunk()),
        starts_chunk(parser.position, parser.len()),
        parser.position + parser.pending.last() == min(
            parser.position + CHUNK_SIZE,
            parser.len(),
        ),
{
    let pending = parser.pending;
    let last: int = pending.len() - 1;
    let after = parser.advance_chunk().pending;
    lemma_total_nonnegative(pending.drop_last());
    assert(pending[last] > 0 || parser.len() == 0);
    if last > 0 {
        assert(pending[last] % (CHUNK_SIZE as int) == 0);
        assert(pending[last] == CHUNK_SIZE);
    } else {
        assert(pending.drop_last() =~= Seq::<int>::empty());
    }
    assert forall|i: int| 0 < i < after.len() implies #[trigger] after[i] % (CHUNK_SIZE as int)
        == 0 by {
        assert(after[i] == pending[i]);
    }
}

proof fn lemma_grid_skip(lens: Seq<int>, depth: int)
    requires
        0 < depth <= lens.len(),
        forall|i: int| 0 < i < lens.len() ==> #[trigger] lens[i] % (CHUNK_SIZE as int) == 0,
    ensures
        (total(lens) - total(lens.take(depth))) % (CHUNK_SIZE as int) == 0,
    decreases lens.len(),
{
    if depth == lens.len() {
        assert(lens.take(depth) =~= lens);
    } else {
        let shorter = lens.drop_last();
        assert forall|i: int| 0 < i < shorter.len() implies #[trigger] shorter[i] % (
        CHUNK_SIZE as int) == 0 by {
            assert(shorter[i] == lens[i]);
        }
        lemma_grid_skip(shorter, depth);
        assert(shorter.take(depth) =~= lens.take(depth));
        assert(lens[lens.len() - 1] % (CHUNK_SIZE as int) == 0);
    }
}

proof fn lemma_grid_seek(parser: ParseView, seek_to: int)
    requires
        parser.wf(),
        parser.content_len is Some,
        on_grid(parser),
        0 <= seek_to,
    ensures
        on_grid(parser.seek_move(seek_to)),
{
    parser.lemma_seek_move(seek_to);
    parser.lemma_reset();
    let moved = parser.seek_move(seek_to);
    let from = if seek_to < parser.len() && seek_to < parser.position {
        parser.reset()
    } else {
        parser
    };
    let depth: int = moved.pending.len() as int;
    if depth > 0 {
        lemma_grid_skip(from.pending, depth);
        assert forall|i: int| 0 < i < moved.pending.len() implies #[trigger] moved.pending[i] % (
        CHUNK_SIZE as int) == 0 by {
            assert(moved.pending[i] == from.pending[i]);
        }
    }
}

/// Whether the chunk that starts at `base` is stored as it should be.
pub open spec fn intact(content: Seq<u8>, stored: Seq<u8>, base: int) -> bool {
    chunk_at(stored, base) == chunk_at(content, base)
}

/// Whether the chunk of `stored` that starts at `base` has another hash than that of `content`.
pub open spec fn hash_differs(content: Seq<u8>, stored: Seq<u8>, base: int) -> bool {
    let finalization = chunk_finalization(content.len() as int);
    Node::chunk(chunk_at(stored, base), finalization).hash() != Node::chunk(
        chunk_at(content, base),
        finalization,
    ).hash()
}

/// How the chunks of a tree over `len` bytes are hashed: a single chunk is the root.
pub open spec fn chunk_finalization(len: int) -> Finalization {
    if len <= CHUNK_SIZE {
        Finalization::Root
    } else {
        Finalization::NotRoot
    }
}

pub proof fn lemma_chunk_finalization(parser: ParseView)
    requires
        parser.wf(),
        on_grid(parser),
        parser.content_len is Some,
        parser.read_next() is Chunk,
    ensures
        parser.finalization() == chunk_finalization(parser.len()),
{
    let depth: int = parser.pending.len() - 1;
    assert(parser.pending[depth] >= 0);
    if parser.len() <= CHUNK_SIZE {
        lemma_height_monotone(0, parser.pending[depth]);
        assert(height(parser.len()) == 0);
        assert(depth == 0);
        lemma_total_one(parser.pending[0]);
        assert(parser.pending =~= seq![parser.pending[0]]);
    }
}

/// Where the final chunk of `len` bytes starts.
pub open spec fn final_base(len: int) -> int {
    if len == 0 {
        0
    } else {
        (len - 1) / (CHUNK_SIZE as int) * CHUNK_SIZE
    }
}

impl ReaderView {
    /// Whether the reader's sources hold an encoding of `content` with the chunks of `stored`.
    pub open spec fn holds_stored(self, content: Seq<u8>, stored: Seq<u8>) -> bool {
        &&& content.len() == stored.len()
        &&& match self.outboard {
            None => found_at(mixed_encoding(content, stored), self.input.bytes, 0),
            Some(outboard) => {
                &&& found_at(stored, self.input.bytes, 0)
                &&& found_at(outboard_encoding(content), outboard.bytes, 0)
            },
        }
    }

    /// Whether the sources hold the subtrees that are left where they should be.
    pub open spec fn anchored(self, content: Seq<u8>, stored: Seq<u8>) -> bool {
        let parts = unread(self.parser(), content);
        match self.outboard {
            None => found_at(
                mixed_parts(parts, unread(self.parser(), stored)),
                self.input.bytes,
                self.parser().encoding_position(),
            ),
            Some(outboard) => found_at(
                outboard_parts(parts),
                outboard.bytes,
                self.parser().outboard_position(),
            ),
        }
    }

    /// Whether the reader stands somewhere in `content`, and its sources hold an encoding with the
    /// chunks of `stored`.
    pub open spec fn survives(self, content: Seq<u8>, stored: Seq<u8>) -> bool {
        &&& self.tracks(content)
        &&& self.input.bytes.len() <= u64::MAX
        &&& self.holds_stored(content, stored)
        &&& self.parser().content_len is Some ==> {
            &&& on_grid(self.parser())
            &&& self.anchored(content, stored)
        }
    }

    /// Whether the sources stand where the next node is. After a chunk that failed they do not,
    /// until a seek.
    pub open spec fn aligned(self) -> bool {
        if self.parser().content_len is None {
            self.input.position == 0 && self.nodes().position == 0
        } else {
            match self.outboard {
                None => self.input.position == self.parser().encoding_position(),
                Some(outboard) => {
                    &&& self.input.position == self.parser().position
                    &&& outboard.position == self.parser().outboard_position()
                },
            }
        }
    }

    proof fn lemma_survives_header(self, content: Seq<u8>, stored: Seq<u8>)
        requires
            self.survives(content, stored),
            self.aligned(),
            self.parser().read_next() is Header,
        ensures
            self.read_header().1 is Ok,
            self.read_header().0.survives(content, stored),
            self.read_header().0.aligned(),
            self.read_header().0.reading_position() == self.reading_position(),
            self.read_header().0.parser().content_len is Some,
    {
        let len: int = content.len() as int;
        lemma_header_value(content.len() as u64);
        self.lemma_read_node();
        let nodes = self.nodes();
        match self.outboard {
            None => lemma_found_split(
                header(len),
                mixed_subtree(content, stored),
                nodes.bytes,
                0,
            ),
            Some(_) => lemma_found_split(header(len), outboard_subtree(content), nodes.bytes, 0),
        }
        assert(nodes.next(HEADER_SIZE as int) == header(len));
        let after = self.read_header().0;
        self.core.verify.lemma_track_header(content);
        assert(after.core.buf =~= content.subrange(0, 0));
        lemma_shadow(after.parser(), stored);
        VerifyView::start(root_hash(stored)).lemma_track_header(stored);
        lemma_total_one(len);
        lemma_push_mixed(Seq::empty(), Seq::empty(), content, stored);
        crate::parts::lemma_push_part(Seq::empty(), content);
        assert(Seq::<Seq<u8>>::empty().push(content) =~= seq![content]);
        assert(Seq::<Seq<u8>>::empty().push(stored) =~= seq![stored]);
        assert(mixed_subtree(content, stored) + mixed_parts(Seq::empty(), Seq::empty())
            =~= mixed_subtree(content, stored));
        assert(outboard_subtree(content) + outboard_parts(Seq::empty())
            =~= outboard_subtree(content));
    }

    proof fn lemma_survives_parent(self, content: Seq<u8>, stored: Seq<u8>)
        requires
            self.survives(content, stored),
            self.aligned(),
            self.parser().read_next() is Parent,
        ensures
            self.read_parent().1 is Ok,
            self.read_parent().0.survives(content, stored),
            self.read_parent().0.aligned(),
            self.read_parent().0.reading_position() == self.reading_position(),
            self.read_parent().0.parser().content_len is Some,
    {
        let parts = unread(self.parser(), content);
        let stored_parts = unread(self.parser(), stored);
        let part = parts.last();
        let verify = self.core.verify;
        verify.lemma_track_parent(content);
        verify.lemma_tracks_segments(content);
        lemma_shadow(self.parser(), stored);
        shadow(self.parser(), stored).lemma_track_parent(stored);
        lemma_split_parts(parts);
        lemma_split_mixed(parts, stored_parts);
        self.parser().lemma_advance_parent();
        lemma_grid_parent(self.parser());
        self.lemma_read_node();
        let after_parser = self.parser().advance_parent();
        let split = unread(after_parser, content);
        let nodes = self.nodes();
        match self.outboard {
            None => lemma_found_split(
                parent_node(part),
                mixed_parts(split, unread(after_parser, stored)),
                nodes.bytes,
                nodes.position,
            ),
            Some(_) => lemma_found_split(
                parent_node(part),
                outboard_parts(split),
                nodes.bytes,
                nodes.position,
            ),
        }
        assert(nodes.next(PARENT_SIZE as int) == parent_node(part));
    }

    proof fn lemma_survives_chunk(
        self,
        content: Seq<u8>,
        stored: Seq<u8>,
        skip: int,
        room: int,
    )
        requires
            self.survives(content, stored),
            self.aligned(),
            self.core.buf.len() == 0,
            self.parser().read_next() is Chunk,
            0 <= skip <= self.parser().pending.last(),
            0 <= room,
        ensures
            ({
                let size = self.parser().pending.last();
                let position = self.parser().position;
                let outcome = self.read_chunk(size, self.parser().finalization(), skip, room);
                let start = position + skip;
                let count = min(size - skip, room);
                &&& starts_chunk(position, content.len() as int)
                &&& position + size == min(position + CHUNK_SIZE, content.len() as int)
                &&& outcome.result is Ok <==> !hash_differs(content, stored, position)
                &&& outcome.result is Ok ==> {
                    &&& outcome.after.aligned()
                    &&& outcome.after.parser() == self.parser().advance_chunk()
                    &&& skip == size ==> {
                        &&& outcome.after.survives(content, stored)
                        &&& outcome.after.core.buf.len() == 0
                    }
                }
                &&& intact(content, stored, position) ==> {
                    &&& outcome.result == Ok::<Seq<u8>, ReadError>(
                        content.subrange(start, start + count),
                    )
                    &&& outcome.after.survives(content, stored)
                    &&& outcome.after.reading_position() == start + count
                }
                &&& outcome.result is Err ==> {
                    &&& outcome.result == Err::<Seq<u8>, ReadError>(
                        ReadError::Decode(Error::HashMismatch),
                    )
                    &&& outcome.after.survives(content, stored)
                    &&& outcome.after.core == self.core
                }
            }),
    {
        let size: int = self.parser().pending.last();
        let finalization = self.parser().finalization();
        let outcome = self.read_chunk(size, finalization, skip, room);
        let parts = unread(self.parser(), content);
        let stored_parts = unread(self.parser(), stored);
        let part = parts.last();
        let stored_part = stored_parts.last();
        let verify = self.core.verify;
        let position: int = self.parser().position;
        verify.lemma_track_chunk(content);
        verify.lemma_tracks_segments(content);
        lemma_shadow(self.parser(), stored);
        shadow(self.parser(), stored).lemma_track_chunk(stored);
        shadow(self.parser(), stored).lemma_tracks_segments(stored);
        self.parser().lemma_advance_chunk();
        lemma_grid_chunk(self.parser());
        lemma_chunk_finalization(self.parser());
        self.lemma_read_chunk(size, finalization, skip, room);
        match self.outboard {
            None => lemma_found_split(
                mixed_subtree(part, stored_part),
                mixed_parts(parts.drop_last(), stored_parts.drop_last()),
                self.input.bytes,
                self.input.position,
            ),
            Some(outboard) => {
                lemma_found_split(
                    outboard_subtree(part),
                    outboard_parts(parts.drop_last()),
                    outboard.bytes,
                    outboard.position,
                );
                assert(self.input.bytes.subrange(0, stored.len() as int) == stored);
                assert(self.input.bytes.subrange(position, position + size)
                    =~= self.input.bytes.subrange(0, stored.len() as int).subrange(
                    position,
                    position + size,
                ));
            },
        }
        assert(self.input.next(size) =~= stored_part);
        assert(part =~= chunk_at(content, position));
        assert(stored_part =~= chunk_at(stored, position));
        let start: int = position + skip;
        let count: int = min(size - skip, room);
        let buffered = self.core.buffer_chunk(stored_part, skip);
        if intact(content, stored, position) {
            assert(buffered.delivered(room) =~= content.subrange(start, start + count));
        }
        if intact(content, stored, position) || skip == size && outcome.result is Ok {
            assert(outcome.after.core.buf =~= content.subrange(
                position + size - outcome.after.core.buf.len(),
                position + size,
            ));
        }
    }

    proof fn lemma_survives_descend(self, content: Seq<u8>, stored: Seq<u8>)
        requires
            self.survives(content, stored),
            self.aligned(),
        ensures
            self.descend().1 is Ok,
            self.descend().0.survives(content, stored),
            self.descend().0.aligned(),
            self.descend().0.reading_position() == self.reading_position(),
            self.descend().0.parser().content_len is Some,
        decreases self.rank(),
    {
        self.lemma_rank();
        if self.parser().read_next() is Header {
            self.lemma_survives_header(content, stored);
            self.read_header().0.lemma_survives_descend(content, stored);
        } else if self.parser().read_next() is Parent {
            self.lemma_survives_parent(content, stored);
            self.read_parent().0.lemma_survives_descend(content, stored);
        }
    }
}

/// Where the chunk starts that holds the byte at `position`.
pub open spec fn chunk_base(position: int) -> int {
    position / (CHUNK_SIZE as int) * CHUNK_SIZE
}

proof fn lemma_chunk_base(base: int, position: int)
    requires
        base % (CHUNK_SIZE as int) == 0,
        base <= position < base + CHUNK_SIZE,
    ensures
        chunk_base(position) == base,
{
}

/// Whether the chunks are intact that hold the bytes from `start` to `end`.
pub open spec fn intact_range(content: Seq<u8>, stored: Seq<u8>, start: int, end: int) -> bool {
    forall|position: int|
        start <= position < end ==> #[trigger] intact(content, stored, chunk_base(position))
}

impl ReaderView {
    /// Whether what is buffered is the rest of a chunk of which something was handed out.
    pub open spec fn partway(self) -> bool {
        let start = self.reading_position();
        self.core.buf.len() > 0 ==> {
            &&& chunk_base(start) < start
            &&& self.parser().position <= chunk_base(start) + CHUNK_SIZE
        }
    }

    /// A read that hands out something leaves no whole chunk behind.
    proof fn lemma_read_partway(self, content: Seq<u8>, stored: Seq<u8>, room: int)
        requires
            self.survives(content, stored),
            self.aligned(),
            self.partway(),
            0 < room,
            self.read(room).result is Ok,
        ensures
            self.read(room).after.partway(),
    {
        let after = self.read(room).after;
        let start: int = after.reading_position();
        if after.core.buf.len() > 0 {
            if self.core.buf.len() > 0 {
                let base: int = chunk_base(self.reading_position());
                assert(base % (CHUNK_SIZE as int) == 0);
                lemma_chunk_base(base, start);
            } else {
                self.lemma_survives_descend(content, stored);
                self.lemma_descend();
                self.descend().0.lemma_chunk_partway(content, stored, room);
            }
        }
    }

    proof fn lemma_chunk_partway(self, content: Seq<u8>, stored: Seq<u8>, room: int)
        requires
            self.survives(content, stored),
            self.aligned(),
            self.core.buf.len() == 0,
            self.parser().read_next() is Chunk,
            0 < room,
        ensures
            ({
                let outcome = self.read_chunk(
                    self.parser().pending.last(),
                    self.parser().finalization(),
                    self.parser().skip,
                    room,
                );
                outcome.result is Ok ==> outcome.after.partway()
            }),
    {
        let position: int = self.parser().position;
        let skip: int = self.parser().skip;
        let outcome = self.read_chunk(
            self.parser().pending.last(),
            self.parser().finalization(),
            skip,
            room,
        );
        self.lemma_survives_chunk(content, stored, skip, room);
        self.parser().lemma_advance_chunk();
        if outcome.result is Ok && outcome.after.core.buf.len() > 0 {
            lemma_chunk_base(position, outcome.after.reading_position());
        }
    }

    /// Where some chunks are damaged, a read hands out the bytes that come next, if it takes no
    /// damaged chunk for that. If it does, and the damage shows in the hash of the chunk, it fails
    /// with a wrong hash, and the reader stands where it stood.
    pub proof fn law_read_damaged(self, content: Seq<u8>, stored: Seq<u8>, room: int)
        requires
            self.survives(content, stored),
            self.aligned(),
            0 <= room,
        ensures
            ({
                let outcome = self.read(room);
                let start = self.reading_position();
                let reads_on = self.core.buf.len() > 0 || start == content.len() || intact(
                    content,
                    stored,
                    chunk_base(start),
                );
                &&& 0 <= start <= content.len()
                &&& reads_on ==> {
                    &&& outcome.after.survives(content, stored)
                    &&& outcome.after.aligned()
                    &&& outcome.result matches Ok(bytes) && {
                        &&& start + bytes.len() <= content.len()
                        &&& bytes == content.subrange(start, start + bytes.len())
                        &&& bytes.len() <= room
                        &&& room > 0 && start < content.len() ==> bytes.len() > 0
                        &&& outcome.after.reading_position() == start + bytes.len()
                    }
                }
                &&& !reads_on && hash_differs(content, stored, chunk_base(start))
                    ==> outcome.result is Err
                &&& outcome.result is Err ==> {
                    &&& outcome.result == Err::<Seq<u8>, ReadError>(
                        ReadError::Decode(Error::HashMismatch),
                    )
                    &&& outcome.after.survives(content, stored)
                    &&& outcome.after.reading_position() == start
                    &&& outcome.after.core.buf.len() == 0
                    &&& outcome.after.parser().content_len is Some
                }
            }),
    {
        let start: int = self.reading_position();
        let outcome = self.read(room);
        self.lemma_read(room);
        if self.core.buf.len() > 0 {
            self.core.verify.lemma_tracks_segments(content);
            let count: int = min(self.core.buf.len() as int, room);
            let position: int = self.parser().position;
            let after = outcome.after;
            assert(self.core.delivered(room) =~= content.subrange(start, start + count));
            assert(after.core.buf =~= content.subrange(
                position - after.core.buf.len(),
                position,
            ));
        } else {
            self.lemma_survives_descend(content, stored);
            self.lemma_descend();
            let here = self.descend().0;
            here.core.verify.lemma_tracks_segments(content);
            if here.parser().read_next() is Chunk {
                here.lemma_survives_chunk(content, stored, here.parser().skip, room);
                let position: int = here.parser().position;
                if start < content.len() {
                    lemma_chunk_base(position, start);
                } else {
                    assert(content.len() == 0);
                    assert(chunk_at(content, 0) =~= chunk_at(stored, 0));
                }
            } else {
                assert(content.subrange(start, start) =~= Seq::<u8>::empty());
            }
        }
    }
}

impl ReaderView {
    proof fn lemma_survives_apply_seek(self, content: Seq<u8>, stored: Seq<u8>, seek_to: int)
        requires
            self.survives(content, stored),
            self.core.buf.len() == 0,
            self.parser().content_len is Some,
            0 <= seek_to,
        ensures
            ({
                let (after, result) = self.apply_seek(self.parser().seek_next(seek_to), true);
                &&& result is Ok
                &&& after.survives(content, stored)
                &&& after.aligned()
                &&& after.parser() == self.parser().seek_move(seek_to)
                &&& after.core.buf.len() == 0
            }),
    {
        let bookkeeping = self.parser().seek_next(seek_to);
        let verify = self.core.verify;
        let moved = verify.after_seek(bookkeeping);
        let depth: int = bookkeeping.stack_depth as int;
        let parts = unread(self.parser(), content);
        let stored_parts = unread(self.parser(), stored);
        let len: int = content.len() as int;
        let lens = self.parser().pending;
        self.lemma_apply_seek(seek_to, true);
        verify.lemma_track_seek(content, seek_to);
        verify.lemma_tracks_segments(content);
        moved.lemma_tracks_segments(content);
        lemma_shadow(self.parser(), stored);
        lemma_shadow(moved.parser, stored);
        shadow(self.parser(), stored).lemma_track_seek(stored, seek_to);
        self.parser().lemma_seek_next(seek_to);
        self.parser().lemma_seek_move(seek_to);
        assert(self.core.buf =~= content.subrange(moved.parser.position, moved.parser.position));
        lemma_grid_seek(self.parser(), seek_to);
        lemma_header_value(content.len() as u64);
        let rest = unread(moved.parser, content);
        let stored_rest = unread(moved.parser, stored);
        if bookkeeping.reset_to_root {
            lemma_total_one(len);
            lemma_push_mixed(Seq::empty(), Seq::empty(), content, stored);
            crate::parts::lemma_push_part(Seq::empty(), content);
            assert(Seq::<Seq<u8>>::empty().push(content) =~= seq![content]);
            assert(Seq::<Seq<u8>>::empty().push(stored) =~= seq![stored]);
            assert(mixed_subtree(content, stored) + mixed_parts(Seq::empty(), Seq::empty())
                =~= mixed_subtree(content, stored));
            assert(outboard_subtree(content) + outboard_parts(Seq::empty())
                =~= outboard_subtree(content));
            assert(rest =~= seq![content]);
            assert(stored_rest =~= seq![stored]);
            match self.outboard {
                None => lemma_found_split(
                    header(len),
                    mixed_subtree(content, stored),
                    self.input.bytes,
                    0,
                ),
                Some(outboard) => lemma_found_split(
                    header(len),
                    outboard_subtree(content),
                    outboard.bytes,
                    0,
                ),
            }
        } else {
            let skipped_parents: int = total_parents(lens) - total_parents(lens.take(depth));
            let skipped: int = total(lens) - total(lens.take(depth)) + skipped_parents;
            match self.outboard {
                None => {
                    lemma_skip_mixed(parts, stored_parts, lens, depth);
                    lemma_found_skip(
                        mixed_parts(parts, stored_parts),
                        self.input.bytes,
                        self.parser().encoding_position(),
                        skipped,
                    );
                },
                Some(outboard) => {
                    lemma_skip_encodings(parts, lens, depth);
                    lemma_found_skip(
                        outboard_parts(parts),
                        outboard.bytes,
                        self.parser().outboard_position(),
                        skipped_parents,
                    );
                },
            }
        }
    }

    /// Whether a seek to `seek_to` can do without damaged chunks. It takes the final chunk if it
    /// leads to the end or past it and the final chunk was not verified before.
    pub open spec fn can_reach(self, content: Seq<u8>, stored: Seq<u8>, seek_to: int) -> bool {
        ||| seek_to < content.len()
        ||| self.parser().validated
        ||| intact(content, stored, final_base(content.len() as int))
    }

    /// Whether a seek to `seek_to` takes a final chunk whose damage shows in its hash.
    pub open spec fn cannot_reach(self, content: Seq<u8>, stored: Seq<u8>, seek_to: int) -> bool {
        &&& seek_to >= content.len()
        &&& !self.parser().validated
        &&& hash_differs(content, stored, final_base(content.len() as int))
    }

    proof fn lemma_survives_seek_step(self, content: Seq<u8>, stored: Seq<u8>, seek_to: int)
        requires
            self.survives(content, stored),
            self.parser().content_len is None ==> self.aligned(),
            self.core.buf.len() == 0,
            0 <= seek_to,
        ensures
            ({
                let (after, result) = self.seek_step(seek_to, true);
                &&& after.survives(content, stored)
                &&& result is Ok ==> after.aligned()
                &&& result is Err ==> result == Err::<bool, ReadError>(
                    ReadError::Decode(Error::HashMismatch),
                )
                &&& self.can_reach(content, stored, seek_to) ==> {
                    &&& result is Ok
                    &&& after.can_reach(content, stored, seek_to)
                }
                &&& self.cannot_reach(content, stored, seek_to) ==> {
                    ||| result is Err
                    ||| {
                        &&& result == Ok::<bool, ReadError>(false)
                        &&& after.cannot_reach(content, stored, seek_to)
                    }
                }
                &&& result == Ok::<bool, ReadError>(true) ==> after.parser().content_position()
                    == min(seek_to, content.len() as int)
            }),
    {
        let len: int = content.len() as int;
        self.lemma_seek_rank(seek_to, true);
        self.parser().lemma_seek_next(seek_to);
        let bookkeeping = self.parser().seek_next(seek_to);
        if self.parser().content_len is None {
            assert(self.apply_seek(bookkeeping, true).0 =~= self) by {
                self.core.verify.lemma_after_seek(seek_to);
                assert(self.core.verify.after_seek(bookkeeping).stack
                    =~= self.core.verify.stack);
            }
            self.lemma_survives_header(content, stored);
        } else {
            self.lemma_survives_apply_seek(content, stored, seek_to);
            self.parser().lemma_seek_move(seek_to);
            let moved = self.apply_seek(bookkeeping, true).0;
            moved.core.verify.lemma_tracks_segments(content);
            match bookkeeping.next_read {
                NextRead::Header => {},
                NextRead::Parent => moved.lemma_survives_parent(content, stored),
                NextRead::Chunk { size, finalization, skip } => {
                    moved.lemma_survives_chunk(content, stored, skip as int, 0);
                    moved.parser().lemma_advance_chunk();
                    let pending = moved.parser().pending;
                    lemma_total_one(pending[0]);
                    assert(pending =~= seq![pending[0]]);
                    assert(moved.parser().position == final_base(len));
                },
                NextRead::Done => {},
            }
        }
    }

    /// Where some chunks are damaged, a seek succeeds unless it takes a damaged final chunk, also
    /// after a read that failed. The next byte is that at the target, or there is none if the
    /// target lies past the end. A seek that takes a final chunk whose damage shows in its hash
    /// fails with a wrong hash.
    pub proof fn law_seek_damaged(self, content: Seq<u8>, stored: Seq<u8>, seek_to: int)
        requires
            self.survives(content, stored),
            self.parser().content_len is None ==> self.aligned(),
            self.core.buf.len() == 0,
            0 <= seek_to,
        ensures
            ({
                let (after, result) = self.seek(seek_to, true);
                &&& after.survives(content, stored)
                &&& after.core.buf.len() == 0
                &&& result is Ok ==> {
                    &&& after.aligned()
                    &&& after.reading_position() == min(seek_to, content.len() as int)
                }
                &&& result is Err ==> result == Err::<(), ReadError>(
                    ReadError::Decode(Error::HashMismatch),
                )
                &&& self.can_reach(content, stored, seek_to) ==> result is Ok
                &&& self.cannot_reach(content, stored, seek_to) ==> result is Err
            }),
        decreases self.header_rank(), self.reset_rank(seek_to), self.work_rank(),
    {
        self.lemma_seek_rank(seek_to, true);
        self.lemma_survives_seek_step(content, stored, seek_to);
        let (after, result) = self.seek_step(seek_to, true);
        if result == Ok::<bool, ReadError>(false) {
            after.law_seek_damaged(content, stored, seek_to);
        }
    }

    /// Where some chunks are damaged, filling a buffer succeeds if it takes none of these.
    pub proof fn law_fill_damaged(
        self,
        content: Seq<u8>,
        stored: Seq<u8>,
        buf: Seq<u8>,
        done: int,
    )
        requires
            self.survives(content, stored),
            self.aligned(),
            0 <= done <= buf.len(),
            self.reading_position() + buf.len() - done <= content.len(),
            intact_range(
                content,
                stored,
                self.reading_position(),
                self.reading_position() + buf.len() - done,
            ),
        ensures
            ({
                let (after, filled, result) = self.fill(buf, done);
                let start = self.reading_position();
                &&& result is Ok
                &&& after.survives(content, stored)
                &&& after.aligned()
                &&& self.partway() ==> after.partway()
                &&& after.reading_position() == start + buf.len() - done
                &&& filled == buf.take(done) + content.subrange(start, start + buf.len() - done)
            }),
        decreases buf.len() - done,
    {
        let start: int = self.reading_position();
        self.law_read_damaged(content, stored, 0);
        if done < buf.len() {
            assert(intact(content, stored, chunk_base(start)));
            self.law_read_damaged(content, stored, buf.len() - done);
            if self.partway() {
                self.lemma_read_partway(content, stored, buf.len() - done);
            }
            let outcome = self.read(buf.len() - done);
            let bytes = outcome.result->Ok_0;
            let filled = buf.take(done) + outcome.fills(buf.skip(done));
            assert(filled == buf.take(done) + (bytes + buf.skip(done).skip(bytes.len() as int)));
            lemma_fill_step(content, buf, done, start, bytes);
            outcome.after.law_fill_damaged(content, stored, filled, done + bytes.len());
            assert(self.fill(buf, done) == outcome.after.fill(filled, done + bytes.len()));
        } else {
            assert(buf =~= buf.take(done) + content.subrange(start, start));
        }
    }

    /// Where some chunks are damaged, reading to the end succeeds if none of these is left.
    pub proof fn law_drain_damaged(self, content: Seq<u8>, stored: Seq<u8>)
        requires
            self.survives(content, stored),
            self.aligned(),
            intact_range(
                content,
                stored,
                self.reading_position(),
                content.len() as int,
            ),
        ensures
            ({
                let (after, bytes, result) = self.drain();
                &&& result is Ok
                &&& bytes == content.skip(self.reading_position())
            }),
        decreases self.header_rank(), self.to_come(),
    {
        let room: int = CHUNK_SIZE as int;
        let start: int = self.reading_position();
        if start < content.len() {
            assert(intact(content, stored, chunk_base(start)));
        }
        self.lemma_read_progress(room);
        self.law_read_damaged(content, stored, room);
        let outcome = self.read(room);
        let bytes = outcome.result->Ok_0;
        if bytes.len() > 0 {
            outcome.after.law_drain_damaged(content, stored);
            assert(content.skip(start) =~= bytes + content.skip(start + bytes.len()));
        } else {
            assert(content.skip(start) =~= Seq::<u8>::empty());
        }
    }

    /// A reader that has read nothing yet stands before any content with its root hash whose
    /// encoding its sources hold but for damaged chunks.
    pub proof fn law_fresh_survives(self, content: Seq<u8>, stored: Seq<u8>)
        requires
            self.wf(),
            self.fresh(),
            self.input.bytes.len() <= u64::MAX,
            self.core.verify.root_hash == root_hash(content),
            self.holds_stored(content, stored),
        ensures
            self.survives(content, stored),
            self.aligned(),
            self.reading_position() == 0,
    {
        let len: int = content.len() as int;
        let nodes = self.nodes();
        lemma_mixed_len(content, stored);
        lemma_parents_size_bound(len);
        lemma_header_value(content.len() as u64);
        match self.outboard {
            None => lemma_found_split(
                header(len),
                mixed_subtree(content, stored),
                nodes.bytes,
                0,
            ),
            Some(_) => lemma_found_split(header(len), outboard_subtree(content), nodes.bytes, 0),
        }
        assert(nodes.next(HEADER_SIZE as int) == header(len));
    }

    /// Reading up to a chunk succeeds with the content if no chunk before it is damaged.
    pub proof fn law_before_damage(
        self,
        content: Seq<u8>,
        stored: Seq<u8>,
        base: int,
        buf: Seq<u8>,
    )
        requires
            self.wf(),
            self.fresh(),
            self.input.bytes.len() <= u64::MAX,
            self.core.verify.root_hash == root_hash(content),
            self.holds_stored(content, stored),
            starts_chunk(base, content.len() as int),
            intact_range(content, stored, 0, base),
            buf.len() == base,
        ensures
            ({
                let (before, filled, result) = self.fill(buf, 0);
                &&& result is Ok
                &&& filled == content.take(base)
                &&& before.survives(content, stored)
                &&& before.aligned()
                &&& before.core.buf.len() == 0
                &&& before.reading_position() == base
            }),
    {
        self.law_fresh_survives(content, stored);
        self.law_fill_damaged(content, stored, buf, 0);
        assert(buf.take(0) + content.subrange(0, base) =~= content.take(base));
        assert(chunk_base(base) == base);
    }

    /// Where the damage to a chunk shows in its hash and those before it are not damaged: reading
    /// up to it succeeds with the content, and the next read fails with a wrong hash.
    pub proof fn law_damaged_chunk(
        self,
        content: Seq<u8>,
        stored: Seq<u8>,
        base: int,
        buf: Seq<u8>,
        room: int,
    )
        requires
            self.wf(),
            self.fresh(),
            self.input.bytes.len() <= u64::MAX,
            self.core.verify.root_hash == root_hash(content),
            self.holds_stored(content, stored),
            starts_chunk(base, content.len() as int),
            intact_range(content, stored, 0, base),
            hash_differs(content, stored, base),
            buf.len() == base,
            0 <= room,
        ensures
            ({
                let (before, filled, result) = self.fill(buf, 0);
                let outcome = before.read(room);
                &&& result is Ok
                &&& filled == content.take(base)
                &&& outcome.result == Err::<Seq<u8>, ReadError>(
                    ReadError::Decode(Error::HashMismatch),
                )
                &&& outcome.after.survives(content, stored)
                &&& outcome.after.core.buf.len() == 0
                &&& outcome.after.parser().content_len is Some
            }),
    {
        self.law_before_damage(content, stored, base, buf);
        if content.len() == 0 {
            assert(chunk_at(content, 0) =~= chunk_at(stored, 0));
        }
        assert(chunk_base(base) == base);
        self.fill(buf, 0).0.law_read_damaged(content, stored, room);
    }

    /// After a chunk that failed, a seek behind it succeeds, and the rest is read, if that is not
    /// damaged.
    pub proof fn law_seek_behind_damage(
        self,
        content: Seq<u8>,
        stored: Seq<u8>,
        target: u64,
    )
        requires
            self.survives(content, stored),
            self.parser().content_len is Some,
            target < content.len(),
            intact_range(content, stored, target as int, content.len() as int),
        ensures
            ({
                let (after, result) = self.seek_from(SeekFrom::Start(target));
                let (_, bytes, drained) = after.drain();
                &&& result == Ok::<u64, ReadError>(target)
                &&& drained is Ok
                &&& bytes == content.skip(target as int)
            }),
    {
        let cleared = self.clear_buf();
        self.core.verify.lemma_tracks_segments(content);
        assert(cleared.core.buf =~= content.subrange(
            self.parser().position,
            self.parser().position,
        ));
        assert(cleared.nodes().bytes == self.nodes().bytes);
        cleared.law_seek_damaged(content, stored, target as int);
        cleared.seek(target as int, true).0.law_drain_damaged(content, stored);
    }

    proof fn lemma_one_byte_stored(self, content: Seq<u8>, changed: int, byte: u8)
        requires
            self.outboard is None,
            0 <= changed < content.len(),
            combined_encoding(content).len() <= u64::MAX,
            self.input.bytes == combined_encoding(content).update(
                HEADER_SIZE + content_offset(content.len() as int, changed),
                byte,
            ),
        ensures
            self.input.bytes.len() == combined_encoding(content).len(),
            self.holds_stored(content, content.update(changed, byte)),
            starts_chunk(chunk_base(changed), content.len() as int),
            ({
                let stored = content.update(changed, byte);
                let base = chunk_base(changed);
                &&& intact_range(content, stored, 0, base)
                &&& intact_range(content, stored, base + CHUNK_SIZE, content.len() as int)
            }),
    {
        let len: int = content.len() as int;
        let base: int = chunk_base(changed);
        let stored = content.update(changed, byte);
        lemma_encode_subtree_len(content);
        lemma_parents_size_bound(len);
        law_byte_changed(content, changed, byte);
        assert(self.input.bytes.subrange(0, self.input.bytes.len() as int)
            =~= self.input.bytes);
        assert forall|position: int|
            0 <= position < len && chunk_base(position) != base implies #[trigger] intact(
            content,
            stored,
            chunk_base(position),
        ) by {
            assert(chunk_at(stored, chunk_base(position)) =~= chunk_at(
                content,
                chunk_base(position),
            ));
        }
    }

    /// Where one byte of a chunk is changed in a combined encoding: reading up to that chunk
    /// succeeds with the content. If the change shows in the hash of the chunk, the next read
    /// fails. If that read fails, then with a wrong hash, and a seek behind the chunk succeeds and
    /// the rest is read.
    pub proof fn law_one_byte_changed(
        self,
        content: Seq<u8>,
        changed: int,
        byte: u8,
        buf: Seq<u8>,
        room: int,
    )
        requires
            self.wf(),
            self.fresh(),
            self.outboard is None,
            0 <= changed < content.len(),
            byte != content[changed],
            combined_encoding(content).len() <= u64::MAX,
            self.input.bytes == combined_encoding(content).update(
                HEADER_SIZE + content_offset(content.len() as int, changed),
                byte,
            ),
            self.core.verify.root_hash == root_hash(content),
            buf.len() == chunk_base(changed),
            0 <= room,
        ensures
            ({
                let base = chunk_base(changed);
                let behind = base + CHUNK_SIZE;
                let (before, filled, result) = self.fill(buf, 0);
                let outcome = before.read(room);
                &&& result is Ok
                &&& filled == content.take(base)
                &&& hash_differs(content, content.update(changed, byte), base)
                    ==> outcome.result is Err
                &&& outcome.result is Err ==> outcome.result == Err::<Seq<u8>, ReadError>(
                    ReadError::Decode(Error::HashMismatch),
                )
                &&& outcome.result is Err && behind < content.len() ==> {
                    let (after, sought) = outcome.after.seek_from(SeekFrom::Start(behind as u64));
                    let (_, rest, drained) = after.drain();
                    &&& sought == Ok::<u64, ReadError>(behind as u64)
                    &&& drained is Ok
                    &&& rest == content.skip(behind)
                }
            }),
    {
        let len: int = content.len() as int;
        let base: int = chunk_base(changed);
        let stored = content.update(changed, byte);
        self.lemma_one_byte_stored(content, changed, byte);
        self.law_before_damage(content, stored, base, buf);
        let before = self.fill(buf, 0).0;
        before.law_read_damaged(content, stored, room);
        let outcome = before.read(room);
        assert(chunk_base(base) == base);
        if outcome.result is Err && base + CHUNK_SIZE < len {
            outcome.after.law_seek_behind_damage(content, stored, (base + CHUNK_SIZE) as u64);
        }
    }
}

} // verus!
