//! Damage to a slice is noticed: readers of a slice that is cut off, or that has a byte changed,
//! hand out what they can verify, and then fail. A combined encoding is the slice of everything, so
//! the same holds of one that has a byte changed.

use vstd::prelude::*;

use crate::binding::{genuine, lemma_genuine_root, lemma_genuine_split, lemma_genuine_take};
use crate::complete::{found_at, lemma_found_split};
use crate::error::{Error, ReadError};
use crate::hash::{
    header, lemma_header_value, Finalization, Node, CHUNK_SIZE, HEADER_SIZE, PARENT_SIZE,
};
use crate::parse::{
    lemma_parents_size_bound, lemma_total_nonnegative, lemma_total_one, NextRead,
};
use crate::parts::{lemma_split_parts, lemma_total_first, unread};
use crate::reading::{min, ReaderView, SliceView};
use crate::slice::{
    law_slice_entire, lemma_push_slice, lemma_skip_slice, lemma_split_slice, slice_content,
    slice_encoding, slice_end, slice_first, slice_parts, slice_subtree,
};
use crate::slice_sound::lemma_slice_parts_past_end;
use crate::source::SourceView;
use crate::tree::{
    combined_encoding, has_node, lemma_encode_subtree_len, parent_node, root_hash, top_node,
};

verus! {

/// Whether every node of the tree over `content` that `slice` holds around the byte at `limit` has
/// another hash than what `bytes` holds in its place.
pub open spec fn change_shows(
    bytes: Seq<u8>,
    slice: Seq<u8>,
    content: Seq<u8>,
    limit: int,
) -> bool {
    forall|node: Node, at: int|
        has_node(content, Finalization::Root, node) && #[trigger] found_at(node.bytes, slice, at)
            && at <= limit < at + node.bytes.len() ==> (Node {
            bytes: bytes.subrange(at, at + node.bytes.len()),
            ..node
        }).hash() != node.hash()
}

/// Whether `bytes` is no more than the first `limit` bytes of `slice`, or as long as `slice`, with
/// a difference from the byte at `limit` on that shows in the hash of the node there.
pub open spec fn broken(bytes: Seq<u8>, slice: Seq<u8>, content: Seq<u8>, limit: int) -> bool {
    &&& 0 <= limit < slice.len()
    &&& limit <= bytes.len()
    &&& bytes.take(limit) == slice.take(limit)
    &&& bytes.len() == limit || {
        &&& HEADER_SIZE <= limit
        &&& bytes.len() == slice.len()
        &&& change_shows(bytes, slice, content, limit)
    }
}

/// How reading on behind the first `limit` bytes fails.
pub open spec fn failure(bytes: Seq<u8>, limit: int) -> ReadError {
    if bytes.len() == limit {
        ReadError::UnexpectedEof
    } else {
        ReadError::Decode(Error::HashMismatch)
    }
}

impl ReaderView {
    /// Whether the reader is on its way through the nodes of `content` that overlap the bytes from
    /// `start` to `end`, and its source ends with them.
    pub open spec fn walks(self, content: Seq<u8>, start: int, end: int) -> bool {
        &&& self.slices(content, start, end)
        &&& if self.parser().content_len is None {
            self.input.bytes.len() == HEADER_SIZE + slice_subtree(content, 0, start, end).len()
        } else {
            let parts = unread(self.parser(), content);
            &&& genuine(parts, self.parser().finalization(), content)
            &&& self.input.position + slice_parts(
                parts,
                self.parser().position,
                start,
                end,
            ).len() == self.input.bytes.len()
        }
    }

    /// Whether the reader stands where `whole` does, the one in `bytes`, the other in `slice`, and
    /// neither has got behind the first `limit` bytes.
    pub open spec fn shares(
        self,
        whole: ReaderView,
        bytes: Seq<u8>,
        slice: Seq<u8>,
        limit: int,
    ) -> bool {
        &&& self.core == whole.core
        &&& self.outboard is None
        &&& whole.outboard is None
        &&& self.input.bytes == bytes
        &&& whole.input.bytes == slice
        &&& self.input.position == whole.input.position
        &&& 0 <= self.input.position <= limit
    }

    /// What lies before the byte at `limit` is the same in both sources.
    proof fn lemma_shared_next(
        self,
        whole: ReaderView,
        bytes: Seq<u8>,
        slice: Seq<u8>,
        limit: int,
        count: int,
    )
        requires
            self.shares(whole, bytes, slice, limit),
            limit <= bytes.len(),
            limit <= slice.len(),
            bytes.take(limit) == slice.take(limit),
            0 <= count,
            self.input.position + count <= limit,
        ensures
            self.input.has(count),
            whole.input.has(count),
            self.input.next(count) == whole.input.next(count),
    {
        let position: int = self.input.position;
        assert(bytes.take(limit).subrange(position, position + count) =~= bytes.subrange(
            position,
            position + count,
        ));
        assert(slice.take(limit).subrange(position, position + count) =~= slice.subrange(
            position,
            position + count,
        ));
    }

    proof fn lemma_walks_header(self, content: Seq<u8>, start: int, end: int)
        requires
            self.walks(content, start, end),
            self.parser().read_next() is Header,
        ensures
            self.read_header().1 is Ok,
            self.read_header().0.walks(content, start, end),
            self.read_header().0.parser().content_len is Some,
            self.read_header().0.parser().validated == self.parser().validated,
    {
        let total: int = content.len() as int;
        let nodes = slice_subtree(content, 0, start, end);
        lemma_header_value(content.len() as u64);
        self.lemma_slices_header(content, start, end);
        lemma_found_split(header(total), nodes, self.input.bytes, 0);
        assert(self.input.next(HEADER_SIZE as int) == header(total));
        self.core.verify.lemma_track_header(content);
        lemma_genuine_root(content);
        lemma_push_slice(Seq::empty(), content, 0, start, end);
        assert(Seq::<Seq<u8>>::empty().push(content) =~= seq![content]);
    }

    proof fn lemma_walks_parent(self, content: Seq<u8>, start: int, end: int)
        requires
            self.walks(content, start, end),
            self.parser().read_next() is Parent,
            self.overlaps(start, end),
        ensures
            self.read_parent().1 is Ok,
            self.read_parent().0.walks(content, start, end),
            self.read_parent().0.parser().content_len is Some,
            self.read_parent().0.parser().content_position() == self.parser().content_position(),
            ({
                let node = Node::parent(
                    self.input.next(PARENT_SIZE as int),
                    self.parser().finalization(),
                );
                &&& has_node(content, Finalization::Root, node)
                &&& node.bytes.len() == PARENT_SIZE
                &&& node.hash() == self.core.verify.stack.last()
                &&& found_at(node.bytes, self.input.bytes, self.input.position)
            }),
    {
        let parts = unread(self.parser(), content);
        let part = parts.last();
        let verify = self.core.verify;
        let base: int = self.parser().position;
        let finalization = self.parser().finalization();
        self.lemma_slices_parent(content, start, end);
        verify.lemma_track_parent(content);
        verify.lemma_tracks_segments(content);
        lemma_split_parts(parts);
        lemma_split_slice(parts, base, start, end);
        self.parser().lemma_advance_parent();
        let split = unread(verify.advance_parent(parent_node(part)).parser, content);
        lemma_found_split(
            parent_node(part),
            slice_parts(split, base, start, end),
            self.input.bytes,
            self.input.position,
        );
        assert(self.input.next(PARENT_SIZE as int) == parent_node(part));
        lemma_genuine_split(parts, finalization, content);
        assert(has_node(parts[parts.len() - 1], finalization, top_node(part, finalization)));
    }

    proof fn lemma_walks_chunk(
        self,
        content: Seq<u8>,
        start: int,
        end: int,
        skip: int,
        room: int,
    )
        requires
            self.walks(content, start, end),
            self.core.buf.len() == 0,
            self.parser().read_next() is Chunk,
            self.overlaps(start, end),
            0 <= skip <= self.parser().pending.last(),
            0 <= room,
        ensures
            ({
                let size = self.parser().pending.last();
                let outcome = self.read_chunk(size, self.parser().finalization(), skip, room);
                let node = Node::chunk(self.input.next(size), self.parser().finalization());
                &&& outcome.result is Ok
                &&& outcome.after.walks(content, start, end)
                &&& outcome.after.parser() == self.parser().advance_chunk()
                &&& has_node(content, Finalization::Root, node)
                &&& node.bytes.len() == size
                &&& node.hash() == self.core.verify.stack.last()
                &&& found_at(node.bytes, self.input.bytes, self.input.position)
            }),
    {
        let size: int = self.parser().pending.last();
        let finalization = self.parser().finalization();
        let parts = unread(self.parser(), content);
        let part = parts.last();
        let verify = self.core.verify;
        let position: int = self.parser().position;
        let pending = self.parser().pending;
        let after = self.read_chunk(size, finalization, skip, room).after;
        self.lemma_slices_chunk(content, start, end, skip, room);
        verify.lemma_track_chunk(content);
        verify.lemma_tracks_segments(content);
        self.parser().lemma_advance_chunk();
        assert(slice_subtree(part, position, start, end) == part);
        lemma_found_split(
            part,
            slice_parts(parts.drop_last(), position + size, start, end),
            self.input.bytes,
            self.input.position,
        );
        assert(self.input.next(size) =~= part);
        assert(has_node(parts[parts.len() - 1], finalization, top_node(part, finalization)));
        lemma_genuine_take(parts, finalization, content, parts.len() - 1);
        assert(parts.drop_last() =~= parts.take(parts.len() - 1));
        lemma_total_first(pending);
        assert(pending[pending.len() - 1] > 0 || self.parser().len() == 0);
        assert(parts.len() > 1 ==> !after.parser().at_root());
    }

    proof fn lemma_walks_apply_seek(self, content: Seq<u8>, seek_to: int, end: int)
        requires
            self.walks(content, slice_first(content.len() as int, seek_to), end),
            self.core.buf.len() == 0,
            self.parser().content_len is Some,
            0 <= seek_to,
            self.parser().position <= seek_to,
            self.parser().validated && seek_to >= content.len() ==> self.parser().position
                == content.len() && self.parser().pending.len() == 0,
        ensures
            ({
                let first = slice_first(content.len() as int, seek_to);
                let (after, result) = self.apply_seek(self.parser().seek_next(seek_to), false);
                &&& result is Ok
                &&& after.walks(content, first, end)
                &&& after.parser() == self.parser().seek_move(seek_to)
                &&& after.core.buf.len() == 0
            }),
    {
        let bookkeeping = self.parser().seek_next(seek_to);
        let verify = self.core.verify;
        let first: int = slice_first(content.len() as int, seek_to);
        let parts = unread(self.parser(), content);
        let lens = self.parser().pending;
        let base: int = self.parser().position;
        let total_len: int = content.len() as int;
        let depth: int = bookkeeping.stack_depth as int;
        self.lemma_slices_apply_seek(content, seek_to, end);
        verify.lemma_track_seek(content, seek_to);
        verify.lemma_tracks_segments(content);
        self.parser().lemma_seek_next(seek_to);
        self.parser().lemma_seek_move(seek_to);
        let after = self.apply_seek(bookkeeping, false).0;
        after.core.verify.lemma_tracks_segments(content);
        assert(!bookkeeping.reset_to_root);
        let kept = after.parser().pending;
        assert(unread(after.parser(), content) == parts.take(kept.len() as int));
        lemma_genuine_take(parts, self.parser().finalization(), content, depth);
        if seek_to < total_len {
            lemma_skip_slice(parts, lens, base, seek_to + 1, first, end);
        } else if !self.parser().validated {
            lemma_skip_slice(parts, lens, base, total_len, first, end);
        } else {
            assert(parts.take(0) =~= parts);
        }
    }
}

impl ReaderView {
    /// The node around the byte at `limit` is not there, or it has another hash.
    proof fn lemma_broken_node(
        self,
        whole: ReaderView,
        bytes: Seq<u8>,
        slice: Seq<u8>,
        content: Seq<u8>,
        limit: int,
        node: Node,
    )
        requires
            self.shares(whole, bytes, slice, limit),
            broken(bytes, slice, content, limit),
            has_node(content, Finalization::Root, node),
            found_at(node.bytes, slice, self.input.position),
            limit < self.input.position + node.bytes.len(),
        ensures
            bytes.len() == limit ==> !self.input.has(node.bytes.len() as int),
            bytes.len() != limit ==> {
                &&& self.input.has(node.bytes.len() as int)
                &&& (Node { bytes: self.input.next(node.bytes.len() as int), ..node }).hash()
                    != node.hash()
            },
    {
    }

    proof fn lemma_shared_header(
        self,
        whole: ReaderView,
        bytes: Seq<u8>,
        slice: Seq<u8>,
        content: Seq<u8>,
        limit: int,
    )
        requires
            self.shares(whole, bytes, slice, limit),
            broken(bytes, slice, content, limit),
            self.parser().content_len is None,
            self.input.position == 0,
        ensures
            self.read_header().1 is Ok ==> self.read_header().0.shares(
                whole.read_header().0,
                bytes,
                slice,
                limit,
            ),
            self.read_header().1 matches Err(error) ==> error == failure(bytes, limit),
    {
        if HEADER_SIZE <= limit {
            self.lemma_shared_next(whole, bytes, slice, limit, HEADER_SIZE as int);
        }
    }

    proof fn lemma_shared_parent(
        self,
        whole: ReaderView,
        bytes: Seq<u8>,
        slice: Seq<u8>,
        content: Seq<u8>,
        limit: int,
        start: int,
        end: int,
    )
        requires
            whole.walks(content, start, end),
            self.shares(whole, bytes, slice, limit),
            broken(bytes, slice, content, limit),
            whole.parser().read_next() is Parent,
            whole.overlaps(start, end),
        ensures
            self.read_parent().1 is Ok ==> self.read_parent().0.shares(
                whole.read_parent().0,
                bytes,
                slice,
                limit,
            ),
            self.read_parent().1 matches Err(error) ==> error == failure(bytes, limit),
    {
        whole.lemma_walks_parent(content, start, end);
        if self.input.position + PARENT_SIZE <= limit {
            self.lemma_shared_next(whole, bytes, slice, limit, PARENT_SIZE as int);
        } else {
            let node = Node::parent(
                whole.input.next(PARENT_SIZE as int),
                whole.parser().finalization(),
            );
            self.lemma_broken_node(whole, bytes, slice, content, limit, node);
        }
    }

    proof fn lemma_shared_chunk(
        self,
        whole: ReaderView,
        bytes: Seq<u8>,
        slice: Seq<u8>,
        content: Seq<u8>,
        limit: int,
        start: int,
        end: int,
        skip: int,
        room: int,
    )
        requires
            whole.walks(content, start, end),
            self.shares(whole, bytes, slice, limit),
            broken(bytes, slice, content, limit),
            whole.core.buf.len() == 0,
            whole.parser().read_next() is Chunk,
            whole.overlaps(start, end),
            0 <= skip <= whole.parser().pending.last(),
            0 <= room,
        ensures
            ({
                let size = whole.parser().pending.last();
                let finalization = whole.parser().finalization();
                let outcome = self.read_chunk(size, finalization, skip, room);
                let expected = whole.read_chunk(size, finalization, skip, room);
                &&& outcome.result is Ok ==> {
                    &&& outcome.result == expected.result
                    &&& outcome.after.shares(expected.after, bytes, slice, limit)
                }
                &&& outcome.result matches Err(error) ==> error == failure(bytes, limit)
            }),
    {
        let size: int = whole.parser().pending.last();
        whole.lemma_walks_chunk(content, start, end, skip, room);
        if self.input.position + size <= limit {
            self.lemma_shared_next(whole, bytes, slice, limit, size);
        } else {
            let node = Node::chunk(whole.input.next(size), whole.parser().finalization());
            self.lemma_broken_node(whole, bytes, slice, content, limit, node);
        }
    }

    proof fn lemma_shared_descend(
        self,
        whole: ReaderView,
        bytes: Seq<u8>,
        slice: Seq<u8>,
        content: Seq<u8>,
        limit: int,
        start: int,
        end: int,
    )
        requires
            whole.walks(content, start, end),
            self.wf(),
            self.shares(whole, bytes, slice, limit),
            broken(bytes, slice, content, limit),
            start <= whole.parser().content_position() < end,
            start < content.len(),
        ensures
            whole.descend().1 is Ok,
            whole.descend().0.walks(content, start, end),
            whole.descend().0.parser().content_len is Some,
            whole.descend().0.parser().content_position() == whole.parser().content_position(),
            self.descend().1 is Ok ==> self.descend().0.shares(
                whole.descend().0,
                bytes,
                slice,
                limit,
            ),
            self.descend().1 matches Err(error) ==> error == failure(bytes, limit),
        decreases whole.rank(),
    {
        self.lemma_rank();
        whole.lemma_rank();
        self.lemma_read_node();
        if whole.parser().read_next() is Header {
            whole.lemma_walks_header(content, start, end);
            self.lemma_shared_header(whole, bytes, slice, content, limit);
            let next = whole.read_header().0;
            if self.read_header().1 is Ok {
                let here = self.read_header().0;
                here.lemma_shared_descend(next, bytes, slice, content, limit, start, end);
            } else {
                next.lemma_walks_descend(content, start, end);
            }
        } else if whole.parser().read_next() is Parent {
            whole.lemma_walks_parent(content, start, end);
            self.lemma_shared_parent(whole, bytes, slice, content, limit, start, end);
            let next = whole.read_parent().0;
            if self.read_parent().1 is Ok {
                let here = self.read_parent().0;
                here.lemma_shared_descend(next, bytes, slice, content, limit, start, end);
            } else {
                next.lemma_walks_descend(content, start, end);
            }
        }
    }

    proof fn lemma_walks_descend(self, content: Seq<u8>, start: int, end: int)
        requires
            self.walks(content, start, end),
            start <= self.parser().content_position() < end,
            start < content.len(),
        ensures
            self.descend().1 is Ok,
            self.descend().0.walks(content, start, end),
            self.descend().0.parser().content_len is Some,
            self.descend().0.parser().content_position() == self.parser().content_position(),
        decreases self.rank(),
    {
        self.lemma_rank();
        if self.parser().read_next() is Header {
            self.lemma_walks_header(content, start, end);
            self.read_header().0.lemma_walks_descend(content, start, end);
        } else if self.parser().read_next() is Parent {
            self.lemma_walks_parent(content, start, end);
            self.read_parent().0.lemma_walks_descend(content, start, end);
        }
    }

    /// A reader of a whole slice finds the next chunk, and nothing more at the end.
    proof fn lemma_walks_read_next(self, content: Seq<u8>, start: int, end: int, room: int)
        requires
            self.walks(content, start, end),
            self.core.buf.len() == 0,
            0 <= room,
            start < content.len(),
            start <= self.parser().content_position(),
            self.parser().content_position() < end || self.parser().content_position()
                == content.len() && content.len() > 0,
        ensures
            self.read_next_chunk(room).result is Ok,
            self.read_next_chunk(room).after.walks(content, start, end),
            self.read_next_chunk(room).after.parser().content_len is Some,
            self.reading_position() == content.len() ==> {
                &&& self.read_next_chunk(room).after.parser().pending.len() == 0
                &&& self.read_next_chunk(room).after.parser().position == content.len()
            },
    {
        if self.parser().content_len is Some {
            self.core.verify.lemma_tracks_segments(content);
            lemma_total_nonnegative(self.parser().pending);
        }
        if self.parser().content_position() < end {
            self.lemma_walks_descend(content, start, end);
            self.lemma_descend();
            let here = self.descend().0;
            let pending = here.parser().pending;
            here.core.verify.lemma_tracks_segments(content);
            if here.parser().read_next() is Chunk {
                here.lemma_walks_chunk(content, start, end, here.parser().skip, room);
                lemma_total_nonnegative(pending.drop_last());
                assert(pending[pending.len() - 1] > 0 || content.len() == 0);
            }
        } else {
            if self.parser().pending.len() > 0 {
                assert(self.parser().pending[self.parser().pending.len() - 1] > 0);
                lemma_total_nonnegative(self.parser().pending.drop_last());
            }
        }
    }

    proof fn lemma_shared_read_next(
        self,
        whole: ReaderView,
        bytes: Seq<u8>,
        slice: Seq<u8>,
        content: Seq<u8>,
        limit: int,
        start: int,
        end: int,
        room: int,
    )
        requires
            whole.walks(content, start, end),
            self.wf(),
            self.shares(whole, bytes, slice, limit),
            broken(bytes, slice, content, limit),
            whole.core.buf.len() == 0,
            0 <= room,
            start < content.len(),
            start <= whole.parser().content_position(),
            whole.parser().content_position() < end || whole.parser().content_position()
                == content.len() && content.len() > 0,
        ensures
            self.read_next_chunk(room).result is Ok ==> {
                &&& self.read_next_chunk(room).result == whole.read_next_chunk(room).result
                &&& self.read_next_chunk(room).after.shares(
                    whole.read_next_chunk(room).after,
                    bytes,
                    slice,
                    limit,
                )
            },
            self.read_next_chunk(room).result matches Err(error) ==> error == failure(
                bytes,
                limit,
            ),
    {
        if whole.parser().content_len is Some {
            whole.core.verify.lemma_tracks_segments(content);
            lemma_total_nonnegative(whole.parser().pending);
        }
        if whole.parser().content_position() < end {
            self.lemma_shared_descend(whole, bytes, slice, content, limit, start, end);
            whole.lemma_descend();
            self.lemma_descend();
            let there = whole.descend().0;
            let here = self.descend().0;
            there.core.verify.lemma_tracks_segments(content);
            if self.descend().1 is Ok && there.parser().read_next() is Chunk {
                let skip: int = there.parser().skip;
                here.lemma_shared_chunk(
                    there,
                    bytes,
                    slice,
                    content,
                    limit,
                    start,
                    end,
                    skip,
                    room,
                );
            }
        } else {
            if whole.parser().pending.len() > 0 {
                assert(whole.parser().pending[whole.parser().pending.len() - 1] > 0);
                lemma_total_nonnegative(whole.parser().pending.drop_last());
            }
        }
    }
}

impl ReaderView {
    /// Whether a seek to `seek_to` that found the end of `content` has read all of it.
    pub open spec fn ends_at(self, content: Seq<u8>, seek_to: int) -> bool {
        self.parser().validated && seek_to >= content.len() ==> {
            &&& self.parser().position == content.len()
            &&& self.parser().pending.len() == 0
        }
    }

    proof fn lemma_walks_seek_step(self, content: Seq<u8>, seek_to: int, end: int)
        requires
            self.walks(content, slice_first(content.len() as int, seek_to), end),
            self.core.buf.len() == 0,
            0 <= seek_to,
            self.parser().position <= seek_to,
            self.ends_at(content, seek_to),
            slice_first(content.len() as int, seek_to) < end,
            0 < end,
        ensures
            ({
                let first = slice_first(content.len() as int, seek_to);
                let (after, result) = self.seek_step(seek_to, false);
                &&& result is Ok
                &&& after.walks(content, first, end)
                &&& after.parser().position <= seek_to
                &&& after.ends_at(content, seek_to)
                &&& result == Ok::<bool, ReadError>(true) ==> after.parser().content_position()
                    == min(seek_to, content.len() as int)
            }),
    {
        let first: int = slice_first(content.len() as int, seek_to);
        let bookkeeping = self.parser().seek_next(seek_to);
        self.lemma_slices_seek_step(content, seek_to, end);
        self.parser().lemma_seek_next(seek_to);
        if self.parser().content_len is None {
            assert(self.apply_seek(bookkeeping, false).0 =~= self) by {
                self.core.verify.lemma_after_seek(seek_to);
                assert(self.core.verify.after_seek(bookkeeping).stack
                    =~= self.core.verify.stack);
            }
            self.lemma_walks_header(content, first, end);
        } else {
            self.lemma_walks_apply_seek(content, seek_to, end);
            self.parser().lemma_seek_move(seek_to);
            let moved = self.apply_seek(bookkeeping, false).0;
            moved.core.verify.lemma_tracks_segments(content);
            lemma_total_nonnegative(moved.parser().pending);
            if moved.parser().pending.len() == 1 {
                lemma_total_one(moved.parser().pending[0]);
                assert(moved.parser().pending =~= seq![moved.parser().pending[0]]);
            }
            match bookkeeping.next_read {
                NextRead::Header => {},
                NextRead::Parent => {
                    moved.lemma_walks_parent(content, first, end);
                    moved.parser().lemma_advance_parent();
                },
                NextRead::Chunk { size, finalization, skip } => {
                    moved.lemma_walks_chunk(content, first, end, skip as int, 0);
                    moved.parser().lemma_advance_chunk();
                },
                NextRead::Done => {},
            }
        }
    }

    proof fn lemma_shared_seek_step(
        self,
        whole: ReaderView,
        bytes: Seq<u8>,
        slice: Seq<u8>,
        content: Seq<u8>,
        limit: int,
        seek_to: int,
        end: int,
    )
        requires
            whole.walks(content, slice_first(content.len() as int, seek_to), end),
            self.shares(whole, bytes, slice, limit),
            broken(bytes, slice, content, limit),
            whole.core.buf.len() == 0,
            0 <= seek_to,
            whole.parser().position <= seek_to,
            whole.ends_at(content, seek_to),
            slice_first(content.len() as int, seek_to) < end,
            0 < end,
        ensures
            self.seek_step(seek_to, false).1 is Ok ==> {
                &&& self.seek_step(seek_to, false).1 == whole.seek_step(seek_to, false).1
                &&& self.seek_step(seek_to, false).0.shares(
                    whole.seek_step(seek_to, false).0,
                    bytes,
                    slice,
                    limit,
                )
            },
            self.seek_step(seek_to, false).1 matches Err(error) ==> error == failure(
                bytes,
                limit,
            ),
    {
        let first: int = slice_first(content.len() as int, seek_to);
        let bookkeeping = whole.parser().seek_next(seek_to);
        let here = self.apply_seek(bookkeeping, false).0;
        let there = whole.apply_seek(bookkeeping, false).0;
        whole.lemma_walks_seek_step(content, seek_to, end);
        whole.parser().lemma_seek_next(seek_to);
        if whole.parser().content_len is None {
            assert(there =~= whole && here =~= self) by {
                whole.core.verify.lemma_after_seek(seek_to);
                assert(whole.core.verify.after_seek(bookkeeping).stack
                    =~= whole.core.verify.stack);
            }
            self.lemma_shared_header(whole, bytes, slice, content, limit);
        } else {
            whole.lemma_walks_apply_seek(content, seek_to, end);
            whole.parser().lemma_seek_move(seek_to);
            there.core.verify.lemma_tracks_segments(content);
            lemma_total_nonnegative(there.parser().pending);
            if there.parser().pending.len() == 1 {
                lemma_total_one(there.parser().pending[0]);
                assert(there.parser().pending =~= seq![there.parser().pending[0]]);
            }
            match bookkeeping.next_read {
                NextRead::Header => {},
                NextRead::Parent => here.lemma_shared_parent(
                    there,
                    bytes,
                    slice,
                    content,
                    limit,
                    first,
                    end,
                ),
                NextRead::Chunk { size, finalization, skip } => here.lemma_shared_chunk(
                    there,
                    bytes,
                    slice,
                    content,
                    limit,
                    first,
                    end,
                    skip as int,
                    0,
                ),
                NextRead::Done => {},
            }
        }
    }

    proof fn lemma_walks_seek(self, content: Seq<u8>, seek_to: int, end: int)
        requires
            self.walks(content, slice_first(content.len() as int, seek_to), end),
            self.core.buf.len() == 0,
            0 <= seek_to,
            self.parser().position <= seek_to,
            self.ends_at(content, seek_to),
            slice_first(content.len() as int, seek_to) < end,
            0 < end,
        ensures
            ({
                let first = slice_first(content.len() as int, seek_to);
                let (after, result) = self.seek(seek_to, false);
                &&& result is Ok
                &&& after.walks(content, first, end)
                &&& after.core.buf.len() == 0
                &&& after.ends_at(content, seek_to)
                &&& after.reading_position() == min(seek_to, content.len() as int)
            }),
        decreases self.header_rank(), self.reset_rank(seek_to), self.work_rank(),
    {
        self.lemma_seek_rank(seek_to, false);
        self.lemma_walks_seek_step(content, seek_to, end);
        let (after, result) = self.seek_step(seek_to, false);
        if result == Ok::<bool, ReadError>(false) {
            after.lemma_walks_seek(content, seek_to, end);
        }
    }

    proof fn lemma_shared_seek(
        self,
        whole: ReaderView,
        bytes: Seq<u8>,
        slice: Seq<u8>,
        content: Seq<u8>,
        limit: int,
        seek_to: int,
        end: int,
    )
        requires
            whole.walks(content, slice_first(content.len() as int, seek_to), end),
            self.wf(),
            self.shares(whole, bytes, slice, limit),
            broken(bytes, slice, content, limit),
            whole.core.buf.len() == 0,
            0 <= seek_to,
            whole.parser().position <= seek_to,
            whole.ends_at(content, seek_to),
            slice_first(content.len() as int, seek_to) < end,
            0 < end,
        ensures
            self.seek(seek_to, false).1 is Ok ==> self.seek(seek_to, false).0.shares(
                whole.seek(seek_to, false).0,
                bytes,
                slice,
                limit,
            ),
            self.seek(seek_to, false).1 matches Err(error) ==> error == failure(bytes, limit),
        decreases whole.header_rank(), whole.reset_rank(seek_to), whole.work_rank(),
    {
        self.lemma_seek_rank(seek_to, false);
        whole.lemma_seek_rank(seek_to, false);
        whole.lemma_walks_seek_step(content, seek_to, end);
        self.lemma_shared_seek_step(whole, bytes, slice, content, limit, seek_to, end);
        let (after, result) = self.seek_step(seek_to, false);
        let whole_after = whole.seek_step(seek_to, false).0;
        if result == Ok::<bool, ReadError>(false) {
            after.lemma_shared_seek(whole_after, bytes, slice, content, limit, seek_to, end);
        }
    }
}

impl SliceView {
    /// Whether the reader is on its way through the slice of `content` for `len` bytes, and its
    /// source ends with the slice.
    pub open spec fn walks(self, content: Seq<u8>, len: int) -> bool {
        let total = content.len() as int;
        let start = self.start as int;
        let parser = self.reader.parser();
        &&& self.wf()
        &&& self.decodes(content, len)
        &&& self.reader.walks(content, slice_first(total, start), slice_end(total, start, len))
        &&& self.reader.ends_at(content, start)
        &&& len > self.remaining ==> {
            &&& start < total
            &&& parser.content_len is Some
            &&& parser.skip == 0
        }
    }

    /// Once a slice was handed out, all of it was read.
    proof fn lemma_walks_through(self, content: Seq<u8>, len: int)
        requires
            self.walks(content, len),
            len > self.remaining,
            self.remaining == 0 || self.start + (len - self.remaining) >= content.len(),
        ensures
            self.reader.input.position == self.reader.input.bytes.len(),
    {
        let total: int = content.len() as int;
        let start: int = self.start as int;
        let first: int = slice_first(total, start);
        let end: int = slice_end(total, start, len);
        let parser = self.reader.parser();
        let parts = unread(parser, content);
        self.reader.core.verify.lemma_tracks_segments(content);
        if parser.position >= total && parser.pending.len() > 0 {
            lemma_total_nonnegative(parser.pending.drop_last());
            assert(parser.pending[parser.pending.len() - 1] > 0);
        }
        if parser.pending.len() > 0 {
            lemma_slice_parts_past_end(parts, parser.position, first, end);
        }
    }

    proof fn lemma_walks_read(self, content: Seq<u8>, len: int, room: int)
        requires
            self.walks(content, len),
            0 <= room,
            0 < len,
        ensures
            self.read(room).result is Ok,
            self.after_read(room).walks(content, len),
            self.read(room).result matches Ok(bytes) && bytes.len() == 0 && room > 0
                ==> self.after_read(room).reader.input.position == self.after_read(
                room,
            ).reader.input.bytes.len(),
    {
        let total: int = content.len() as int;
        let start: int = self.start as int;
        let first: int = slice_first(total, start);
        let end: int = slice_end(total, start, len);
        let want: int = min(self.remaining as int, room);
        let reader = self.reader;
        self.law_read(content, len, room);
        self.lemma_read(room);
        if self.remaining == 0 {
            self.lemma_walks_through(content, len);
        } else if reader.core.buf.len() == 0 {
            if reader.parser().content_position() < start {
                reader.lemma_walks_seek(content, start, end);
            }
            let at = self.seek_start().0;
            if at.parser().content_len is Some {
                at.core.verify.lemma_tracks_segments(content);
                lemma_total_nonnegative(at.parser().pending);
            }
            at.lemma_walks_read_next(content, first, end, want);
            if self.read(room).result->Ok_0.len() > 0 {
                at.lemma_read_skip(want);
            }
        }
    }

    proof fn lemma_shared_read(
        self,
        whole: SliceView,
        bytes: Seq<u8>,
        content: Seq<u8>,
        limit: int,
        len: int,
        room: int,
    )
        requires
            whole.walks(content, len),
            self.wf(),
            self.start == whole.start,
            self.remaining == whole.remaining,
            self.reader.shares(whole.reader, bytes, whole.reader.input.bytes, limit),
            broken(bytes, whole.reader.input.bytes, content, limit),
            0 <= room,
            0 < len,
        ensures
            self.read(room).result is Ok ==> {
                &&& self.read(room).result == whole.read(room).result
                &&& self.after_read(room).reader.shares(
                    whole.after_read(room).reader,
                    bytes,
                    whole.reader.input.bytes,
                    limit,
                )
            },
            self.read(room).result matches Err(error) ==> error == failure(bytes, limit),
    {
        let total: int = content.len() as int;
        let start: int = self.start as int;
        let first: int = slice_first(total, start);
        let end: int = slice_end(total, start, len);
        let want: int = min(self.remaining as int, room);
        let slice = whole.reader.input.bytes;
        if self.remaining > 0 && whole.reader.core.buf.len() == 0 {
            if whole.reader.parser().content_position() < start {
                whole.reader.lemma_walks_seek(content, start, end);
                self.reader.lemma_shared_seek(
                    whole.reader,
                    bytes,
                    slice,
                    content,
                    limit,
                    start,
                    end,
                );
                self.reader.lemma_seek(start, false);
            }
            let (here, sought) = self.seek_start();
            let there = whole.seek_start().0;
            if there.parser().content_len is Some {
                there.core.verify.lemma_tracks_segments(content);
                lemma_total_nonnegative(there.parser().pending);
            }
            if sought is Ok {
                here.lemma_shared_read_next(
                    there,
                    bytes,
                    slice,
                    content,
                    limit,
                    first,
                    end,
                    want,
                );
            }
        }
    }

    proof fn lemma_broken_drain(
        self,
        whole: SliceView,
        bytes: Seq<u8>,
        content: Seq<u8>,
        limit: int,
        len: int,
    )
        requires
            whole.walks(content, len),
            self.wf(),
            self.start == whole.start,
            self.remaining == whole.remaining,
            self.reader.shares(whole.reader, bytes, whole.reader.input.bytes, limit),
            broken(bytes, whole.reader.input.bytes, content, limit),
            0 < len,
        ensures
            ({
                let total = content.len() as int;
                let from = min(self.start + (len - self.remaining), total);
                let to = min(self.start + len, total);
                let (_, handed_out, result) = self.drain();
                &&& result == Err::<(), ReadError>(failure(bytes, limit))
                &&& from + handed_out.len() <= to
                &&& handed_out == content.subrange(from, from + handed_out.len())
                &&& from + handed_out.len() < to || from == to && len == self.remaining
            }),
        decreases self.remaining,
    {
        let total: int = content.len() as int;
        let from: int = min(self.start + (len - self.remaining), total);
        let to: int = min(self.start + len, total);
        let room: int = CHUNK_SIZE as int;
        let slice = whole.reader.input.bytes;
        whole.law_read(content, len, room);
        whole.lemma_walks_read(content, len, room);
        self.lemma_read(room);
        self.lemma_shared_read(whole, bytes, content, limit, len, room);
        let after = self.after_read(room);
        let whole_after = whole.after_read(room);
        if self.read(room).result is Ok {
            let next = self.read(room).result->Ok_0;
            assert(whole_after.reader.input.bytes == slice);
            assert(next.len() > 0);
            after.lemma_broken_drain(whole_after, bytes, content, limit, len);
            let rest = after.drain().1;
            assert(next + rest =~= content.subrange(from, from + next.len() + rest.len()));
        } else {
            if len > self.remaining && from == to {
                whole.lemma_walks_through(content, len);
            }
            assert(content.subrange(from, from) =~= Seq::<u8>::empty());
        }
    }

    /// The same reader before the slice of `content`.
    spec fn of_slice(self, content: Seq<u8>) -> SliceView {
        let slice = slice_encoding(content, self.start as int, self.remaining as int);
        SliceView {
            reader: ReaderView {
                input: SourceView { bytes: slice, ..self.reader.input },
                ..self.reader
            },
            ..self
        }
    }

    proof fn lemma_broken_slice(self, content: Seq<u8>, limit: int)
        requires
            self.wf(),
            self.reader.fresh(),
            self.reader.outboard is None,
            self.remaining > 0,
            content.len() <= u64::MAX,
            self.reader.core.verify.root_hash == root_hash(content),
            broken(
                self.reader.input.bytes,
                slice_encoding(content, self.start as int, self.remaining as int),
                content,
                limit,
            ),
        ensures
            ({
                let part = slice_content(content, self.start as int, self.remaining as int);
                let (_, handed_out, result) = self.drain();
                &&& result == Err::<(), ReadError>(failure(self.reader.input.bytes, limit))
                &&& handed_out.is_prefix_of(part)
                &&& handed_out.len() < part.len() || part.len() == 0
            }),
    {
        let whole = self.of_slice(content);
        let start: int = self.start as int;
        let len: int = self.remaining as int;
        let slice = slice_encoding(content, start, len);
        let part = slice_content(content, start, len);
        lemma_header_value(content.len() as u64);
        assert(slice.subrange(0, slice.len() as int) =~= slice);
        self.lemma_broken_drain(whole, self.reader.input.bytes, content, limit, len);
        let handed_out = self.drain().1;
        assert(handed_out =~= part.subrange(0, handed_out.len() as int));
    }

    /// A slice that is cut off anywhere fails because of that, before all of it is handed out.
    pub proof fn law_slice_cut(self, content: Seq<u8>)
        requires
            self.wf(),
            self.reader.fresh(),
            self.reader.outboard is None,
            self.remaining > 0,
            content.len() <= u64::MAX,
            self.reader.core.verify.root_hash == root_hash(content),
            ({
                let slice = slice_encoding(content, self.start as int, self.remaining as int);
                &&& self.reader.input.bytes.is_prefix_of(slice)
                &&& self.reader.input.bytes.len() < slice.len()
            }),
        ensures
            ({
                let part = slice_content(content, self.start as int, self.remaining as int);
                let (_, handed_out, result) = self.drain();
                &&& result == Err::<(), ReadError>(ReadError::UnexpectedEof)
                &&& handed_out.is_prefix_of(part)
                &&& handed_out.len() < part.len() || part.len() == 0
            }),
    {
        let bytes = self.reader.input.bytes;
        let slice = slice_encoding(content, self.start as int, self.remaining as int);
        let limit: int = bytes.len() as int;
        assert(bytes.take(limit) =~= slice.take(limit));
        self.lemma_broken_slice(content, limit);
    }

    /// A slice with a byte behind its header changed fails with a wrong hash, before all of it is
    /// handed out, if the change shows in the hash of the node around that byte.
    pub proof fn law_slice_byte_changed(self, content: Seq<u8>, changed: int, byte: u8)
        requires
            self.wf(),
            self.reader.fresh(),
            self.reader.outboard is None,
            self.remaining > 0,
            content.len() <= u64::MAX,
            self.reader.core.verify.root_hash == root_hash(content),
            ({
                let slice = slice_encoding(content, self.start as int, self.remaining as int);
                &&& HEADER_SIZE <= changed < slice.len()
                &&& self.reader.input.bytes == slice.update(changed, byte)
                &&& change_shows(self.reader.input.bytes, slice, content, changed)
            }),
        ensures
            ({
                let part = slice_content(content, self.start as int, self.remaining as int);
                let (_, handed_out, result) = self.drain();
                &&& result == Err::<(), ReadError>(ReadError::Decode(Error::HashMismatch))
                &&& handed_out.is_prefix_of(part)
                &&& handed_out.len() < part.len() || part.len() == 0
            }),
    {
        let bytes = self.reader.input.bytes;
        let slice = slice_encoding(content, self.start as int, self.remaining as int);
        assert(bytes.take(changed) =~= slice.take(changed));
        self.lemma_broken_slice(content, changed);
    }
}

impl ReaderView {
    proof fn lemma_broken_reader_drain(
        self,
        whole: ReaderView,
        bytes: Seq<u8>,
        content: Seq<u8>,
        limit: int,
    )
        requires
            whole.decodes(content),
            whole.walks(content, slice_first(content.len() as int, 0), slice_end(
                content.len() as int,
                0,
                content.len() as int,
            )),
            self.wf(),
            self.shares(whole, bytes, whole.input.bytes, limit),
            broken(bytes, whole.input.bytes, content, limit),
        ensures
            ({
                let from = self.reading_position();
                let (_, handed_out, result) = self.drain();
                &&& result == Err::<(), ReadError>(failure(bytes, limit))
                &&& 0 <= from
                &&& from + handed_out.len() <= content.len()
                &&& handed_out == content.subrange(from, from + handed_out.len())
                &&& from + handed_out.len() < content.len() || content.len() == 0
            }),
        decreases whole.header_rank(), whole.to_come(),
    {
        let total: int = content.len() as int;
        let first: int = slice_first(total, 0);
        let end: int = slice_end(total, 0, total);
        let room: int = CHUNK_SIZE as int;
        let slice = whole.input.bytes;
        let from: int = self.reading_position();
        whole.law_read(content, room);
        whole.lemma_read_progress(room);
        self.lemma_read(room);
        let outcome = self.read(room);
        let expected = whole.read(room);
        if whole.parser().content_len is Some {
            whole.core.verify.lemma_tracks_segments(content);
            lemma_total_nonnegative(whole.parser().pending);
        }
        if whole.core.buf.len() > 0 {
            whole.lemma_slices_deliver(content, first, end, room);
        } else {
            whole.lemma_walks_read_next(content, first, end, room);
            self.lemma_shared_read_next(
                whole,
                bytes,
                slice,
                content,
                limit,
                first,
                end,
                room,
            );
        }
        if outcome.result is Ok {
            let next = outcome.result->Ok_0;
            assert(next.len() > 0);
            outcome.after.lemma_broken_reader_drain(expected.after, bytes, content, limit);
            let rest = outcome.after.drain().1;
            assert(next + rest =~= content.subrange(from, from + next.len() + rest.len()));
        } else {
            let pending = whole.parser().pending;
            if from == total && total > 0 && pending.len() > 0 {
                lemma_total_nonnegative(pending.drop_last());
                assert(pending[pending.len() - 1] > 0);
            }
            assert(content.subrange(from, from) =~= Seq::<u8>::empty());
        }
    }

    /// A combined encoding with a byte behind its header changed, be it in a chunk or in a parent,
    /// fails with a wrong hash, before all of the content is handed out, if the change shows in the
    /// hash of the node around that byte.
    pub proof fn law_changed_byte_noticed(self, content: Seq<u8>, changed: int, byte: u8)
        requires
            self.wf(),
            self.fresh(),
            self.outboard is None,
            combined_encoding(content).len() <= u64::MAX,
            self.core.verify.root_hash == root_hash(content),
            ({
                let encoding = combined_encoding(content);
                &&& HEADER_SIZE <= changed < encoding.len()
                &&& self.input.bytes == encoding.update(changed, byte)
                &&& change_shows(self.input.bytes, encoding, content, changed)
            }),
        ensures
            ({
                let (_, handed_out, result) = self.drain();
                &&& result == Err::<(), ReadError>(ReadError::Decode(Error::HashMismatch))
                &&& handed_out.is_prefix_of(content)
                &&& handed_out.len() < content.len() || content.len() == 0
            }),
    {
        let total: int = content.len() as int;
        let bytes = self.input.bytes;
        let encoding = combined_encoding(content);
        let whole = ReaderView {
            input: SourceView { bytes: encoding, ..self.input },
            ..self
        };
        lemma_encode_subtree_len(content);
        lemma_parents_size_bound(total);
        lemma_header_value(content.len() as u64);
        law_slice_entire(content, 0, total);
        assert(encoding.subrange(0, encoding.len() as int) =~= encoding);
        whole.law_fresh_decodes(content);
        assert(bytes.take(changed) =~= encoding.take(changed));
        self.lemma_broken_reader_drain(whole, bytes, content, changed);
        let handed_out = self.drain().1;
        assert(handed_out =~= content.subrange(0, handed_out.len() as int));
    }
}

} // verus!
