//! What is there of a slice can be read: of the slice for some bytes, it takes no more than the
//! slice for the first of them to read these, whatever follows.

use vstd::prelude::*;

use crate::complete::{found_at, lemma_found_split};
use crate::error::ReadError;
use crate::hash::{header, lemma_header_value, CHUNK_SIZE, HEADER_SIZE, PARENT_SIZE};
use crate::parse::{lemma_total_nonnegative, lemma_total_one, NextRead};
use crate::partial::{
    chunk_end, lemma_chunk_around, lemma_in_tree_last, lemma_in_tree_seek, lemma_lies_bounds,
};
use crate::parts::{lemma_split_parts, unread};
use crate::reading::{min, ReaderView, SliceView};
use crate::slice::{
    lemma_split_slice, slice_content, slice_encoding, slice_end, slice_first, slice_parts,
    slice_subtree,
};
use crate::tree::{parent_node, root_hash};

verus! {

impl ReaderView {
    /// Whether the reader stands somewhere in `content` and its source goes on with the nodes of
    /// `content` that overlap the bytes from `start` to `end`.
    pub open spec fn has_slice(self, content: Seq<u8>, start: int, end: int) -> bool {
        self.slices(content, start, end) && self.stands_in(content)
    }

    proof fn lemma_slice_header(self, content: Seq<u8>, start: int, end: int)
        requires
            self.has_slice(content, start, end),
            self.parser().read_next() is Header,
        ensures
            self.read_header().1 is Ok,
            self.read_header().0.has_slice(content, start, end),
            self.read_header().0.parser().content_len is Some,
    {
        let total: int = content.len() as int;
        lemma_header_value(content.len() as u64);
        lemma_found_split(
            header(total),
            slice_subtree(content, 0, start, end),
            self.input.bytes,
            0,
        );
        assert(self.input.next(HEADER_SIZE as int) == header(total));
        self.lemma_slices_header(content, start, end);
        self.lemma_header_there(content);
    }

    proof fn lemma_slice_parent(self, content: Seq<u8>, start: int, end: int)
        requires
            self.has_slice(content, start, end),
            self.parser().read_next() is Parent,
            self.overlaps(start, end),
        ensures
            self.read_parent().1 is Ok,
            self.read_parent().0.has_slice(content, start, end),
            self.read_parent().0.parser().content_len is Some,
            self.read_parent().0.parser().content_position() == self.parser().content_position(),
            self.read_parent().0.parser().position == self.parser().position,
    {
        let parts = unread(self.parser(), content);
        let part = parts.last();
        let base: int = self.parser().position;
        self.lemma_slices_parent(content, start, end);
        self.core.verify.lemma_track_parent(content);
        self.core.verify.lemma_tracks_segments(content);
        lemma_split_parts(parts);
        lemma_split_slice(parts, base, start, end);
        let split = unread(self.core.verify.advance_parent(parent_node(part)).parser, content);
        lemma_found_split(
            parent_node(part),
            slice_parts(split, base, start, end),
            self.input.bytes,
            self.input.position,
        );
        assert(self.input.next(PARENT_SIZE as int) == parent_node(part));
        self.lemma_parent_there(content);
    }

    proof fn lemma_slice_chunk(
        self,
        content: Seq<u8>,
        start: int,
        end: int,
        skip: int,
        room: int,
    )
        requires
            self.has_slice(content, start, end),
            self.core.buf.len() == 0,
            self.parser().read_next() is Chunk,
            self.overlaps(start, end),
            0 <= skip <= self.parser().pending.last(),
            0 <= room,
        ensures
            ({
                let size = self.parser().pending.last();
                let outcome = self.read_chunk(size, self.parser().finalization(), skip, room);
                let from = self.parser().position + skip;
                let count = min(size - skip, room);
                &&& outcome.result == Ok::<Seq<u8>, ReadError>(
                    content.subrange(from, from + count),
                )
                &&& from + count <= content.len()
                &&& outcome.after.has_slice(content, start, end)
                &&& outcome.after.reading_position() == from + count
                &&& outcome.after.parser() == self.parser().advance_chunk()
                &&& skip == size ==> outcome.after.core.buf.len() == 0
            }),
    {
        let size: int = self.parser().pending.last();
        let parts = unread(self.parser(), content);
        let part = parts.last();
        let position: int = self.parser().position;
        self.lemma_slices_chunk(content, start, end, skip, room);
        self.core.verify.lemma_track_chunk(content);
        self.core.verify.lemma_tracks_segments(content);
        assert(slice_subtree(part, position, start, end) == part);
        lemma_found_split(
            part,
            slice_parts(parts.drop_last(), position + size, start, end),
            self.input.bytes,
            self.input.position,
        );
        assert(self.input.next(size) =~= part);
        self.lemma_chunk_there(content, skip, room);
    }

    proof fn lemma_slice_descend(self, content: Seq<u8>, start: int, end: int)
        requires
            self.has_slice(content, start, end),
            start <= self.parser().content_position() < end,
            start < content.len(),
        ensures
            self.descend().1 is Ok,
            self.descend().0.has_slice(content, start, end),
            self.descend().0.parser().content_len is Some,
            self.descend().0.parser().content_position() == self.parser().content_position(),
        decreases self.rank(),
    {
        self.lemma_rank();
        if self.parser().read_next() is Header {
            self.lemma_slice_header(content, start, end);
            self.read_header().0.lemma_slice_descend(content, start, end);
        } else if self.parser().read_next() is Parent {
            self.lemma_slice_parent(content, start, end);
            self.read_parent().0.lemma_slice_descend(content, start, end);
        }
    }

    proof fn lemma_slice_seek_step(self, content: Seq<u8>, seek_to: int, end: int)
        requires
            self.has_slice(content, slice_first(content.len() as int, seek_to), end),
            self.core.buf.len() == 0,
            0 <= seek_to,
            self.parser().position <= seek_to,
            slice_first(content.len() as int, seek_to) < end,
            0 < end,
        ensures
            ({
                let first = slice_first(content.len() as int, seek_to);
                let (after, result) = self.seek_step(seek_to, false);
                &&& result is Ok
                &&& after.has_slice(content, first, end)
                &&& after.parser().position <= seek_to
                &&& result == Ok::<bool, ReadError>(true) ==> after.parser().content_position()
                    == min(seek_to, content.len() as int)
            }),
    {
        let first: int = slice_first(content.len() as int, seek_to);
        let bookkeeping = self.parser().seek_next(seek_to);
        self.lemma_slices_seek_step(content, seek_to, end);
        self.parser().lemma_seek_next(seek_to);
        if self.parser().content_len is None {
            assert(self.apply_seek(bookkeeping, false).0 =~= self) by {
                self.core.verify.lemma_after_seek(seek_to);
                assert(self.core.verify.after_seek(bookkeeping).stack
                    =~= self.core.verify.stack);
            }
            self.lemma_slice_header(content, first, end);
        } else {
            self.lemma_slices_apply_seek(content, seek_to, end);
            self.parser().lemma_seek_move(seek_to);
            lemma_in_tree_seek(self.parser(), seek_to);
            let moved = self.apply_seek(bookkeeping, false).0;
            moved.core.verify.lemma_tracks_segments(content);
            lemma_total_nonnegative(moved.parser().pending);
            if moved.parser().pending.len() == 1 {
                lemma_total_one(moved.parser().pending[0]);
                assert(moved.parser().pending =~= seq![moved.parser().pending[0]]);
            }
            match bookkeeping.next_read {
                NextRead::Header => {},
                NextRead::Parent => moved.lemma_slice_parent(content, first, end),
                NextRead::Chunk { size, finalization, skip } => {
                    moved.lemma_slice_chunk(content, first, end, skip as int, 0);
                },
                NextRead::Done => {},
            }
        }
    }

    proof fn lemma_slice_seek(self, content: Seq<u8>, seek_to: int, end: int)
        requires
            self.has_slice(content, slice_first(content.len() as int, seek_to), end),
            self.core.buf.len() == 0,
            0 <= seek_to,
            self.parser().position <= seek_to,
            slice_first(content.len() as int, seek_to) < end,
            0 < end,
        ensures
            ({
                let first = slice_first(content.len() as int, seek_to);
                let (after, result) = self.seek(seek_to, false);
                &&& result is Ok
                &&& after.has_slice(content, first, end)
                &&& after.core.buf.len() == 0
                &&& after.reading_position() == min(seek_to, content.len() as int)
            }),
        decreases self.header_rank(), self.reset_rank(seek_to), self.work_rank(),
    {
        self.lemma_seek_rank(seek_to, false);
        self.lemma_slice_seek_step(content, seek_to, end);
        let (after, result) = self.seek_step(seek_to, false);
        if result == Ok::<bool, ReadError>(false) {
            after.lemma_slice_seek(content, seek_to, end);
        }
    }

    proof fn lemma_slice_read_next(self, content: Seq<u8>, start: int, end: int, room: int)
        requires
            self.has_slice(content, start, end),
            self.core.buf.len() == 0,
            0 <= room,
            start < content.len(),
            start <= self.parser().content_position(),
            self.parser().content_position() < end || self.parser().content_position()
                == content.len() && content.len() > 0,
        ensures
            ({
                let len = content.len() as int;
                let from = self.reading_position();
                let outcome = self.read_next_chunk(room);
                let count = if from < len {
                    min(chunk_end(len, from) - from, room)
                } else {
                    0
                };
                &&& outcome.after.has_slice(content, start, end)
                &&& 0 <= from <= len
                &&& from + count <= len
                &&& outcome.result == Ok::<Seq<u8>, ReadError>(
                    content.subrange(from, from + count),
                )
                &&& outcome.after.reading_position() == from + count
            }),
    {
        let from: int = self.reading_position();
        let len: int = content.len() as int;
        if self.parser().content_len is Some {
            self.core.verify.lemma_tracks_segments(content);
            lemma_total_nonnegative(self.parser().pending);
        }
        if self.parser().content_position() < end {
            self.lemma_slice_descend(content, start, end);
            self.lemma_descend();
            let here = self.descend().0;
            let pending = here.parser().pending;
            here.core.verify.lemma_tracks_segments(content);
            if here.parser().read_next() is Chunk {
                here.lemma_slice_chunk(content, start, end, here.parser().skip, room);
                lemma_in_tree_last(here.parser());
                lemma_lies_bounds(
                    len,
                    here.parser().position,
                    pending.last(),
                    here.parser().outboard_position() - HEADER_SIZE,
                );
                if len > 0 {
                    lemma_chunk_around(here.parser().position, pending.last(), len, from);
                }
            } else {
                assert(content.subrange(from, from) =~= Seq::<u8>::empty());
            }
        } else {
            if self.parser().pending.len() > 0 {
                assert(self.parser().pending[self.parser().pending.len() - 1] > 0);
                lemma_total_nonnegative(self.parser().pending.drop_last());
            }
            assert(content.subrange(from, from) =~= Seq::<u8>::empty());
        }
    }
}

proof fn lemma_part_of(content: Seq<u8>, from: int, to: int, bytes: Seq<u8>, rest: Seq<u8>)
    requires
        0 <= from <= to <= content.len(),
        from + bytes.len() <= content.len(),
        bytes == content.subrange(from, from + bytes.len()),
        from + bytes.len() <= to ==> content.subrange(from + bytes.len(), to).is_prefix_of(rest),
    ensures
        content.subrange(from, to).is_prefix_of(bytes + rest),
{
    if from + bytes.len() <= to {
        assert(content.subrange(from, to) =~= bytes + content.subrange(from + bytes.len(), to));
    } else {
        assert(content.subrange(from, to) =~= bytes.take(to - from));
    }
}

impl SliceView {
    /// Whether the reader has handed out all of `len` bytes of `content` but `remaining`, or but
    /// what lies past the end, and its source goes on with the slice for the first `part` of them.
    pub open spec fn has_part(self, content: Seq<u8>, len: int, part: int) -> bool {
        let total = content.len() as int;
        let start = self.start as int;
        let handed_out = len - self.remaining;
        &&& 0 <= handed_out
        &&& self.reader.has_slice(
            content,
            slice_first(total, start),
            slice_end(total, start, part),
        )
        &&& {
            ||| self.reader.reading_position() == min(start + handed_out, total)
            ||| {
                &&& handed_out == 0
                &&& self.reader.core.buf.len() == 0
                &&& self.reader.parser().content_position() < start
            }
        }
    }

    /// Up to where its source has the slice, a read of a slice reader hands out the rest of the
    /// next chunk, or as much of it as is asked for and there is room for, whatever follows.
    #[verifier::rlimit(40)]
    pub proof fn law_read_part(self, content: Seq<u8>, len: int, part: int, room: int)
        requires
            self.has_part(content, len, part),
            len - self.remaining < part,
            0 <= room,
        ensures
            ({
                let total = content.len() as int;
                let from = min(self.start + (len - self.remaining), total);
                let want = min(self.remaining as int, room);
                let count = if from < total {
                    min(chunk_end(total, from) - from, want)
                } else {
                    0
                };
                &&& from + count <= total
                &&& self.read(room).result == Ok::<Seq<u8>, ReadError>(
                    content.subrange(from, from + count),
                )
                &&& self.after_read(room).has_part(content, len, part)
                &&& self.after_read(room).remaining == self.remaining - count
            }),
    {
        let total: int = content.len() as int;
        let start: int = self.start as int;
        let first: int = slice_first(total, start);
        let end: int = slice_end(total, start, part);
        let from: int = min(start + (len - self.remaining), total);
        let want: int = min(self.remaining as int, room);
        if self.reader.parser().content_len is Some {
            self.reader.core.verify.lemma_tracks_segments(content);
            lemma_total_nonnegative(self.reader.parser().pending);
        }
        self.lemma_read(room);
        if self.remaining == 0 {
            assert(content.subrange(from, from) =~= Seq::<u8>::empty());
        } else if self.reader.core.buf.len() > 0 {
            self.reader.lemma_deliver(content, want);
            self.reader.lemma_slices_deliver(content, first, end, want);
        } else {
            if self.reader.parser().content_position() < start {
                self.reader.lemma_slice_seek(content, start, end);
            }
            let at = self.seek_start().0;
            at.lemma_slice_read_next(content, first, end, want);
        }
    }

    /// Up to where its source has the slice, reading a slice to the end hands out the content,
    /// whatever comes then.
    #[verifier::rlimit(40)]
    pub proof fn law_drain_part(self, content: Seq<u8>, len: int, part: int)
        requires
            self.has_part(content, len, part),
            part <= len,
        ensures
            ({
                let total = content.len() as int;
                let from = min(self.start + (len - self.remaining), total);
                let to = min(self.start + part, total);
                from <= to ==> content.subrange(from, to).is_prefix_of(self.drain().1)
            }),
        decreases self.remaining,
    {
        let total: int = content.len() as int;
        let from: int = min(self.start + (len - self.remaining), total);
        let to: int = min(self.start + part, total);
        let room: int = CHUNK_SIZE as int;
        if from < to {
            self.law_read_part(content, len, part, room);
            self.lemma_read(room);
            let bytes = self.read(room).result->Ok_0;
            assert(bytes.len() > 0);
            let after = self.after_read(room);
            after.law_drain_part(content, len, part);
            lemma_part_of(content, from, to, bytes, after.drain().1);
        } else if from == to {
            assert(content.subrange(from, to) =~= Seq::<u8>::empty());
        }
    }

    /// Reading a slice of which no more is there than the slice for its first `part` bytes hands
    /// out these, whatever follows.
    pub proof fn law_slice_part(self, content: Seq<u8>, part: int)
        requires
            self.wf(),
            self.reader.fresh(),
            self.reader.outboard is None,
            content.len() <= u64::MAX,
            self.reader.core.verify.root_hash == root_hash(content),
            0 < part <= self.remaining,
            found_at(
                slice_encoding(content, self.start as int, part),
                self.reader.input.bytes,
                0,
            ),
        ensures
            slice_content(content, self.start as int, part).is_prefix_of(self.drain().1),
    {
        self.reader.law_fresh_stands(content);
        self.law_drain_part(content, self.remaining as int, part);
    }
}

} // verus!
