//! Slices: the parts of an encoding that it takes to verify some part of the content.
//!
//! A slice starts with the header. It holds every chunk that overlaps the part, and the parents
//! above these chunks, in pre-order. The part counts as one byte at least, and as the last byte of
//! the content if it starts past it, so a slice always holds a chunk.

use vstd::prelude::*;

use crate::complete::{found_at, lemma_found_split};
use crate::error::ReadError;
use crate::hash::{header, lemma_header_value, CHUNK_SIZE, HEADER_SIZE, PARENT_SIZE};
use crate::parse::{lemma_total_nonnegative, skip_subtrees, total, NextRead};
use crate::parts::{lemma_split_parts, lengths_match, unread};
use crate::reading::{min, ReaderView, SliceView};
use crate::tree::{
    chunk_count, combined_encoding, encode_subtree, left, left_part, lemma_left_part,
    lemma_split_count, parent_node, right, root_hash,
};

verus! {

/// The nodes over `content`, which starts at `base`, that overlap the bytes from `start` to `end`,
/// in pre-order.
pub open spec fn slice_subtree(content: Seq<u8>, base: int, start: int, end: int) -> Seq<u8>
    decreases content.len(),
{
    if !(base < end && start < base + content.len()) {
        Seq::empty()
    } else if content.len() <= CHUNK_SIZE {
        content
    } else {
        proof {
            lemma_left_part(content.len() as int);
        }
        parent_node(content) + slice_subtree(left(content), base, start, end) + slice_subtree(
            right(content),
            base + left_part(content.len() as int),
            start,
            end,
        )
    }
}

/// The first byte that a slice holds: `start`, or the last byte of the content.
pub open spec fn slice_first(content_len: int, start: int) -> int {
    min(start, content_len - 1)
}

/// Where the bytes end that a slice holds at least.
pub open spec fn slice_end(content_len: int, start: int, len: int) -> int {
    let first = slice_first(content_len, start);
    (if first > 0 {
        first
    } else {
        0
    }) + (if len > 1 {
        len
    } else {
        1
    })
}

/// The slice for `len` bytes from `start` on.
pub open spec fn slice_encoding(content: Seq<u8>, start: int, len: int) -> Seq<u8> {
    let total = content.len() as int;
    header(total) + slice_subtree(
        content,
        0,
        slice_first(total, start),
        slice_end(total, start, len),
    )
}

/// The part of the content that a slice stands for.
pub open spec fn slice_content(content: Seq<u8>, start: int, len: int) -> Seq<u8> {
    let total = content.len() as int;
    content.subrange(min(start, total), min(start + len, total))
}

proof fn lemma_whole_subtree(content: Seq<u8>, base: int, start: int, end: int)
    requires
        start < base + content.len(),
        start < base + CHUNK_SIZE,
        base + CHUNK_SIZE * (chunk_count(content.len() as int) - 1) < end,
    ensures
        slice_subtree(content, base, start, end) == encode_subtree(content),
    decreases content.len(),
{
    if content.len() > CHUNK_SIZE {
        let len: int = content.len() as int;
        let l: int = left_part(len);
        lemma_left_part(len);
        lemma_split_count(len);
        assert(CHUNK_SIZE * chunk_count(l) == l);
        lemma_whole_subtree(left(content), base, start, end);
        lemma_whole_subtree(right(content), base + l, start, end);
    }
}

/// A slice that starts in the first chunk and ends in the last is the combined encoding.
pub proof fn law_slice_entire(content: Seq<u8>, start: int, len: int)
    requires
        0 <= start < CHUNK_SIZE,
        0 <= len,
        CHUNK_SIZE * (chunk_count(content.len() as int) - 1) < start + len
            || content.len() <= CHUNK_SIZE,
    ensures
        slice_encoding(content, start, len) == combined_encoding(content),
{
    let total: int = content.len() as int;
    let first: int = slice_first(total, start);
    let end: int = slice_end(total, start, len);
    lemma_whole_subtree(content, 0, first, end);
}

/// The nodes over some parts, of which the last starts at `base` and the others follow, that
/// overlap the bytes from `start` to `end`.
pub open spec fn slice_parts(parts: Seq<Seq<u8>>, base: int, start: int, end: int) -> Seq<u8>
    decreases parts.len(),
{
    if parts.len() == 0 {
        Seq::empty()
    } else {
        slice_subtree(parts.last(), base, start, end) + slice_parts(
            parts.drop_last(),
            base + parts.last().len(),
            start,
            end,
        )
    }
}

pub proof fn lemma_push_slice(parts: Seq<Seq<u8>>, part: Seq<u8>, base: int, start: int, end: int)
    ensures
        slice_parts(parts.push(part), base, start, end) == slice_subtree(part, base, start, end)
            + slice_parts(parts, base + part.len(), start, end),
{
    assert(parts.push(part).drop_last() =~= parts);
}

pub proof fn lemma_split_slice(parts: Seq<Seq<u8>>, base: int, start: int, end: int)
    requires
        parts.len() > 0,
        parts.last().len() > CHUNK_SIZE,
        base < end,
        start < base + parts.last().len(),
    ensures
        ({
            let part = parts.last();
            let split = parts.drop_last().push(right(part)).push(left(part));
            slice_parts(parts, base, start, end) == parent_node(part) + slice_parts(
                split,
                base,
                start,
                end,
            )
        }),
{
    let part = parts.last();
    let rest = parts.drop_last();
    let l: int = left_part(part.len() as int);
    let split = rest.push(right(part)).push(left(part));
    lemma_left_part(part.len() as int);
    lemma_push_slice(rest, right(part), base + l, start, end);
    lemma_push_slice(rest.push(right(part)), left(part), base, start, end);
    assert(slice_parts(split, base, start, end) =~= slice_subtree(left(part), base, start, end) + (
    slice_subtree(right(part), base + l, start, end) + slice_parts(
        rest,
        base + part.len(),
        start,
        end,
    )));
    assert(slice_parts(parts, base, start, end) =~= parent_node(part) + slice_parts(
        split,
        base,
        start,
        end,
    ));
}

/// Subtrees that end before the slice starts have no nodes in it.
pub proof fn lemma_skip_slice(
    parts: Seq<Seq<u8>>,
    lens: Seq<int>,
    base: int,
    limit: int,
    start: int,
    end: int,
)
    requires
        lengths_match(parts, lens),
        limit <= start + 1,
    ensures
        ({
            let kept = skip_subtrees(lens, base, limit);
            let count = kept.len() as int;
            &&& count <= lens.len()
            &&& kept == lens.take(count)
            &&& slice_parts(parts, base, start, end) == slice_parts(
                parts.take(count),
                base + total(lens) - total(kept),
                start,
                end,
            )
        }),
    decreases lens.len(),
{
    if lens.len() > 0 && base + lens.last() < limit {
        let rest = parts.drop_last();
        let shorter = lens.drop_last();
        assert forall|i: int| 0 <= i < rest.len() implies (#[trigger] rest[i]).len()
            == shorter[i] by {
            assert(parts[i].len() == lens[i]);
        }
        assert(parts[parts.len() - 1].len() == lens[lens.len() - 1]);
        lemma_skip_slice(rest, shorter, base + lens.last(), limit, start, end);
        let count: int = skip_subtrees(lens, base, limit).len() as int;
        assert(rest.take(count) =~= parts.take(count));
        assert(shorter.take(count) =~= lens.take(count));
        assert(Seq::<u8>::empty() + slice_parts(rest, base + lens.last(), start, end)
            =~= slice_parts(rest, base + lens.last(), start, end));
    } else {
        assert(lens.take(lens.len() as int) =~= lens);
        assert(parts.take(parts.len() as int) =~= parts);
    }
}

impl ReaderView {
    /// Whether the reader is on its way through the nodes of `content` that overlap the bytes from
    /// `start` to `end`.
    pub open spec fn slices(self, content: Seq<u8>, start: int, end: int) -> bool {
        &&& self.tracks(content)
        &&& self.outboard is None
        &&& if self.parser().content_len is None {
            &&& self.input.position == 0
            &&& found_at(
                header(content.len() as int) + slice_subtree(content, 0, start, end),
                self.input.bytes,
                0,
            )
        } else {
            found_at(
                slice_parts(
                    unread(self.parser(), content),
                    self.parser().position,
                    start,
                    end,
                ),
                self.input.bytes,
                self.input.position,
            )
        }
    }

    /// Whether the next subtree overlaps the bytes from `start` to `end`.
    pub open spec fn overlaps(self, start: int, end: int) -> bool {
        &&& self.parser().position < end
        &&& start < self.parser().position + self.parser().pending.last()
    }

    pub proof fn lemma_slices_header(self, content: Seq<u8>, start: int, end: int)
        requires
            self.slices(content, start, end),
            self.parser().read_next() is Header,
        ensures
            self.read_header().1 is Ok,
            self.read_header().0.slices(content, start, end),
            self.read_header().0.reading_position() == self.reading_position(),
            self.read_header().0.core.buf == self.core.buf,
            self.read_header().0.parser().content_len is Some,
    {
        let total: int = content.len() as int;
        let nodes = slice_subtree(content, 0, start, end);
        lemma_header_value(content.len() as u64);
        self.lemma_read_node();
        lemma_found_split(header(total), nodes, self.input.bytes, 0);
        assert(self.input.next(HEADER_SIZE as int) == header(total));
        self.core.verify.lemma_track_header(content);
        let after = self.read_header().0;
        lemma_push_slice(Seq::empty(), content, 0, start, end);
        assert(Seq::<Seq<u8>>::empty().push(content) =~= seq![content]);
        assert(nodes + slice_parts(Seq::empty(), content.len() as int, start, end) =~= nodes);
        assert(after.core.buf =~= content.subrange(0, 0));
    }

    pub proof fn lemma_slices_parent(self, content: Seq<u8>, start: int, end: int)
        requires
            self.slices(content, start, end),
            self.parser().read_next() is Parent,
            self.overlaps(start, end),
        ensures
            self.read_parent().1 is Ok,
            self.read_parent().0.slices(content, start, end),
            self.read_parent().0.reading_position() == self.reading_position(),
            self.read_parent().0.core.buf == self.core.buf,
            self.read_parent().0.parser().content_len is Some,
            self.read_parent().0.parser().content_position() == self.parser().content_position(),
    {
        let parts = unread(self.parser(), content);
        let part = parts.last();
        let verify = self.core.verify;
        let base: int = self.parser().position;
        verify.lemma_track_parent(content);
        verify.lemma_tracks_segments(content);
        lemma_split_parts(parts);
        lemma_split_slice(parts, base, start, end);
        self.lemma_read_node();
        self.parser().lemma_advance_parent();
        let split = unread(verify.advance_parent(parent_node(part)).parser, content);
        lemma_found_split(
            parent_node(part),
            slice_parts(split, base, start, end),
            self.input.bytes,
            self.input.position,
        );
        assert(self.input.next(PARENT_SIZE as int) == parent_node(part));
    }

    pub proof fn lemma_slices_chunk(
        self,
        content: Seq<u8>,
        start: int,
        end: int,
        skip: int,
        room: int,
    )
        requires
            self.slices(content, start, end),
            self.core.buf.len() == 0,
            self.parser().read_next() is Chunk,
            self.overlaps(start, end),
            0 <= skip <= self.parser().pending.last(),
            0 <= room,
        ensures
            ({
                let size = self.parser().pending.last();
                let outcome = self.read_chunk(size, self.parser().finalization(), skip, room);
                let from = self.parser().position + skip;
                let count = min(size - skip, room);
                &&& outcome.result == Ok::<Seq<u8>, ReadError>(
                    content.subrange(from, from + count),
                )
                &&& from + count <= content.len()
                &&& outcome.after.slices(content, start, end)
                &&& outcome.after.reading_position() == from + count
                &&& outcome.after.parser() == self.parser().advance_chunk()
                &&& skip == size ==> outcome.after.core.buf.len() == 0
            }),
    {
        let size: int = self.parser().pending.last();
        let finalization = self.parser().finalization();
        let outcome = self.read_chunk(size, finalization, skip, room);
        let parts = unread(self.parser(), content);
        let part = parts.last();
        let verify = self.core.verify;
        let position: int = self.parser().position;
        let from: int = position + skip;
        let count: int = min(size - skip, room);
        verify.lemma_track_chunk(content);
        verify.lemma_tracks_segments(content);
        self.parser().lemma_advance_chunk();
        self.lemma_read_chunk(size, finalization, skip, room);
        assert(slice_subtree(part, position, start, end) == part);
        lemma_found_split(
            part,
            slice_parts(parts.drop_last(), position + size, start, end),
            self.input.bytes,
            self.input.position,
        );
        assert(self.input.next(size) =~= part);
        let buffered = self.core.buffer_chunk(part, skip);
        assert(buffered.delivered(room) =~= content.subrange(from, from + count));
        assert(outcome.after.core.buf =~= content.subrange(
            position + size - outcome.after.core.buf.len(),
            position + size,
        ));
    }

    /// A reader of a slice gets to the next chunk that the slice holds, or to the end.
    proof fn lemma_slices_descend(self, content: Seq<u8>, start: int, end: int)
        requires
            self.slices(content, start, end),
            start <= self.parser().content_position() < end,
            start < content.len(),
        ensures
            self.descend().1 is Ok,
            self.descend().0.slices(content, start, end),
            self.descend().0.reading_position() == self.reading_position(),
            self.descend().0.core.buf == self.core.buf,
            self.descend().0.parser().content_len is Some,
            self.descend().0.parser().content_position() == self.parser().content_position(),
        decreases self.rank(),
    {
        self.lemma_rank();
        if self.parser().read_next() is Header {
            self.lemma_slices_header(content, start, end);
            self.read_header().0.lemma_slices_descend(content, start, end);
        } else if self.parser().read_next() is Parent {
            self.lemma_slices_parent(content, start, end);
            self.read_parent().0.lemma_slices_descend(content, start, end);
        }
    }

    pub proof fn lemma_slices_apply_seek(self, content: Seq<u8>, seek_to: int, end: int)
        requires
            self.slices(content, slice_first(content.len() as int, seek_to), end),
            self.core.buf.len() == 0,
            self.parser().content_len is Some,
            self.parser().position <= seek_to,
        ensures
            ({
                let first = slice_first(content.len() as int, seek_to);
                let (after, result) = self.apply_seek(self.parser().seek_next(seek_to), false);
                &&& result is Ok
                &&& after.slices(content, first, end)
                &&& after.parser() == self.parser().seek_move(seek_to)
                &&& after.core.buf.len() == 0
            }),
    {
        let bookkeeping = self.parser().seek_next(seek_to);
        let verify = self.core.verify;
        let first: int = slice_first(content.len() as int, seek_to);
        let parts = unread(self.parser(), content);
        let lens = self.parser().pending;
        let base: int = self.parser().position;
        let total_len: int = content.len() as int;
        self.lemma_apply_seek(seek_to, false);
        verify.lemma_track_seek(content, seek_to);
        verify.lemma_tracks_segments(content);
        self.parser().lemma_seek_next(seek_to);
        self.parser().lemma_seek_move(seek_to);
        let after = self.apply_seek(bookkeeping, false).0;
        after.core.verify.lemma_tracks_segments(content);
        assert(!bookkeeping.reset_to_root);
        let kept = after.parser().pending;
        assert(unread(after.parser(), content) == parts.take(kept.len() as int));
        if seek_to < total_len {
            lemma_skip_slice(parts, lens, base, seek_to + 1, first, end);
        } else if !self.parser().validated {
            lemma_skip_slice(parts, lens, base, total_len, first, end);
        } else {
            assert(slice_parts(parts.take(0), total_len, first, end) =~= Seq::<u8>::empty());
            assert(self.input.bytes.subrange(self.input.position, self.input.position)
                =~= Seq::<u8>::empty());
        }
        assert(after.core.buf =~= content.subrange(
            after.parser().position,
            after.parser().position,
        ));
    }

    pub proof fn lemma_slices_seek_step(self, content: Seq<u8>, seek_to: int, end: int)
        requires
            self.slices(content, slice_first(content.len() as int, seek_to), end),
            self.core.buf.len() == 0,
            0 <= seek_to,
            self.parser().position <= seek_to,
            slice_first(content.len() as int, seek_to) < end,
            0 < end,
        ensures
            ({
                let first = slice_first(content.len() as int, seek_to);
                let (after, result) = self.seek_step(seek_to, false);
                &&& result is Ok
                &&& after.slices(content, first, end)
                &&& after.parser().position <= seek_to
                &&& result == Ok::<bool, ReadError>(true) ==> after.parser().content_position()
                    == min(seek_to, content.len() as int)
            }),
    {
        let first: int = slice_first(content.len() as int, seek_to);
        let bookkeeping = self.parser().seek_next(seek_to);
        self.lemma_seek_rank(seek_to, false);
        self.parser().lemma_seek_next(seek_to);
        if self.parser().content_len is None {
            assert(self.apply_seek(bookkeeping, false).0 =~= self) by {
                self.core.verify.lemma_after_seek(seek_to);
                assert(self.core.verify.after_seek(bookkeeping).stack
                    =~= self.core.verify.stack);
            }
            self.lemma_slices_header(content, first, end);
        } else {
            self.lemma_slices_apply_seek(content, seek_to, end);
            self.parser().lemma_seek_move(seek_to);
            let moved = self.apply_seek(bookkeeping, false).0;
            moved.core.verify.lemma_tracks_segments(content);
            lemma_total_nonnegative(moved.parser().pending);
            if moved.parser().pending.len() == 1 {
                crate::parse::lemma_total_one(moved.parser().pending[0]);
                assert(moved.parser().pending =~= seq![moved.parser().pending[0]]);
            }
            match bookkeeping.next_read {
                NextRead::Header => {},
                NextRead::Parent => moved.lemma_slices_parent(content, first, end),
                NextRead::Chunk { size, finalization, skip } => {
                    moved.lemma_slices_chunk(content, first, end, skip as int, 0);
                },
                NextRead::Done => {},
            }
        }
    }

    /// In a slice, the seek to its start succeeds.
    proof fn lemma_slices_seek(self, content: Seq<u8>, seek_to: int, end: int)
        requires
            self.slices(content, slice_first(content.len() as int, seek_to), end),
            self.core.buf.len() == 0,
            0 <= seek_to,
            self.parser().position <= seek_to,
            slice_first(content.len() as int, seek_to) < end,
            0 < end,
        ensures
            ({
                let first = slice_first(content.len() as int, seek_to);
                let (after, result) = self.seek(seek_to, false);
                &&& result is Ok
                &&& after.slices(content, first, end)
                &&& after.core.buf.len() == 0
                &&& after.parser().position <= seek_to
                &&& after.reading_position() == min(seek_to, content.len() as int)
            }),
        decreases self.header_rank(), self.reset_rank(seek_to), self.work_rank(),
    {
        self.lemma_seek_rank(seek_to, false);
        self.lemma_slices_seek_step(content, seek_to, end);
        let (after, result) = self.seek_step(seek_to, false);
        if result == Ok::<bool, ReadError>(false) {
            after.lemma_slices_seek(content, seek_to, end);
        }
    }
}

impl ReaderView {
    /// In a slice, reading the next chunk hands out the bytes that come next.
    pub proof fn lemma_slices_read_next(self, content: Seq<u8>, start: int, end: int, room: int)
        requires
            self.slices(content, start, end),
            self.core.buf.len() == 0,
            0 <= room,
            start < content.len(),
            start <= self.parser().content_position(),
            self.parser().content_position() < end || self.parser().content_position()
                == content.len() && content.len() > 0,
        ensures
            ({
                let from = self.reading_position();
                let outcome = self.read_next_chunk(room);
                &&& outcome.after.slices(content, start, end)
                &&& 0 <= from <= content.len()
                &&& outcome.result matches Ok(bytes) && {
                    &&& from + bytes.len() <= content.len()
                    &&& bytes == content.subrange(from, from + bytes.len())
                    &&& room > 0 && from < content.len() ==> bytes.len() > 0
                    &&& outcome.after.reading_position() == from + bytes.len()
                }
            }),
    {
        let from: int = self.reading_position();
        if self.parser().content_len is Some {
            self.core.verify.lemma_tracks_segments(content);
            lemma_total_nonnegative(self.parser().pending);
        }
        if self.parser().content_position() < end {
            self.lemma_slices_descend(content, start, end);
            self.lemma_descend();
            let here = self.descend().0;
            here.core.verify.lemma_tracks_segments(content);
            if here.parser().read_next() is Chunk {
                here.lemma_slices_chunk(content, start, end, here.parser().skip, room);
            } else {
                assert(content.subrange(from, from) =~= Seq::<u8>::empty());
            }
        } else {
            if self.parser().pending.len() > 0 {
                assert(self.parser().pending[self.parser().pending.len() - 1] > 0);
                lemma_total_nonnegative(self.parser().pending.drop_last());
            }
            assert(content.subrange(from, from) =~= Seq::<u8>::empty());
        }
    }

    /// What is buffered is handed out first.
    pub proof fn lemma_slices_deliver(self, content: Seq<u8>, start: int, end: int, room: int)
        requires
            self.slices(content, start, end),
            self.core.buf.len() > 0,
            0 <= room,
        ensures
            ({
                let from = self.reading_position();
                let outcome = self.read(room);
                let bytes = self.core.delivered(room);
                &&& outcome.after.slices(content, start, end)
                &&& 0 <= from
                &&& outcome.result == Ok::<Seq<u8>, ReadError>(bytes)
                &&& bytes.len() == min(self.core.buf.len() as int, room)
                &&& from + bytes.len() <= content.len()
                &&& bytes == content.subrange(from, from + bytes.len())
                &&& outcome.after.reading_position() == from + bytes.len()
            }),
    {
        let from: int = self.reading_position();
        self.core.verify.lemma_tracks_segments(content);
        let after = self.read(room).after;
        let count: int = min(self.core.buf.len() as int, room);
        assert(self.core.delivered(room) =~= content.subrange(from, from + count));
        assert(after.core.buf =~= content.subrange(
            self.parser().position - after.core.buf.len(),
            self.parser().position,
        ));
    }
}

impl SliceView {
    /// Whether the reader is on its way through the slice of `content` for `len` bytes, and has
    /// handed out all of it but `remaining` bytes, or but what lies past the end of the content.
    pub open spec fn decodes(self, content: Seq<u8>, len: int) -> bool {
        let total = content.len() as int;
        let handed_out = len - self.remaining;
        &&& 0 <= handed_out
        &&& self.reader.slices(
            content,
            slice_first(total, self.start as int),
            slice_end(total, self.start as int, len),
        )
        &&& {
            ||| self.reader.reading_position() == min(self.start + handed_out, total)
            ||| {
                &&& handed_out == 0
                &&& self.reader.core.buf.len() == 0
                &&& self.reader.parser().content_position() < self.start
            }
        }
    }

    /// In the slice of some content, a read hands out the bytes that come next. It hands out some
    /// unless the slice or the content has ended or the caller has no room.
    pub proof fn law_read(self, content: Seq<u8>, len: int, room: int)
        requires
            self.decodes(content, len),
            0 <= room,
        ensures
            ({
                let total = content.len() as int;
                let from = min(self.start + (len - self.remaining), total);
                let outcome = self.read(room);
                &&& self.after_read(room).decodes(content, len)
                &&& outcome.result matches Ok(bytes) && {
                    &&& from + bytes.len() <= min(self.start + len, total)
                    &&& bytes == content.subrange(from, from + bytes.len())
                    &&& bytes.len() <= room
                    &&& room > 0 && self.remaining > 0 && from < total ==> bytes.len() > 0
                    &&& self.after_read(room).remaining == self.remaining - bytes.len()
                }
            }),
    {
        let total: int = content.len() as int;
        let start: int = self.start as int;
        let first: int = slice_first(total, start);
        let end: int = slice_end(total, start, len);
        let from: int = min(start + (len - self.remaining), total);
        let want: int = min(self.remaining as int, room);
        let outcome = self.read(room);
        self.lemma_read(room);
        if self.remaining == 0 {
            assert(content.subrange(from, from) =~= Seq::<u8>::empty());
        } else if self.reader.core.buf.len() > 0 {
            self.reader.lemma_slices_deliver(content, first, end, want);
        } else {
            if self.reader.parser().content_position() < start {
                self.reader.lemma_slices_seek(content, start, end);
            }
            let at = self.seek_start().0;
            at.lemma_slices_read_next(content, first, end, want);
        }
    }

    /// In the slice of some content, reading to the end hands out the rest of the slice.
    #[verifier::rlimit(40)]
    pub proof fn law_drain(self, content: Seq<u8>, len: int)
        requires
            self.decodes(content, len),
        ensures
            ({
                let total = content.len() as int;
                let from = min(self.start + (len - self.remaining), total);
                let (_, bytes, result) = self.drain();
                &&& result is Ok
                &&& bytes == content.subrange(from, min(self.start + len, total))
            }),
        decreases self.remaining,
    {
        let total: int = content.len() as int;
        let from: int = min(self.start + (len - self.remaining), total);
        let room: int = CHUNK_SIZE as int;
        self.law_read(content, len, room);
        let bytes = self.read(room).result->Ok_0;
        if bytes.len() > 0 {
            self.after_read(room).law_drain(content, len);
            assert(content.subrange(from, min(self.start + len, total)) =~= bytes
                + content.subrange(from + bytes.len(), min(self.start + len, total)));
        } else {
            assert(content.subrange(from, min(self.start + len, total)) =~= Seq::<u8>::empty());
        }
    }

    /// Reading a whole slice hands out the part of the content that it stands for.
    pub proof fn law_slice(self, content: Seq<u8>)
        requires
            self.wf(),
            self.reader.fresh(),
            self.reader.outboard is None,
            content.len() <= u64::MAX,
            self.reader.core.verify.root_hash == root_hash(content),
            found_at(
                slice_encoding(content, self.start as int, self.remaining as int),
                self.reader.input.bytes,
                0,
            ),
        ensures
            ({
                let (_, bytes, result) = self.drain();
                &&& result is Ok
                &&& bytes == slice_content(content, self.start as int, self.remaining as int)
            }),
    {
        self.law_drain(content, self.remaining as int);
    }
}

} // verus!
