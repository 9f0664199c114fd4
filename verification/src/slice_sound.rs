//! Nothing but the slice of some content is read as such: what slice readers hand out is the part
//! of the content that the slice stands for, and they read nothing but the slice.

use vstd::prelude::*;

use crate::complete::found_at;
use crate::error::{Error, ReadError};
use crate::hash::{header, lemma_header_len, lemma_header_value, CHUNK_SIZE, HEADER_SIZE};
use crate::parse::{lemma_total_nonnegative, lemma_total_one, NextRead};
use crate::parts::{lemma_split_parts, unread};
use crate::reading::{min, ReaderView, SliceView};
use crate::slice::{
    lemma_push_slice, lemma_skip_slice, lemma_split_slice, slice_encoding, slice_end, slice_first,
    slice_parts, slice_subtree,
};
use crate::tree::{parent_node, root_hash};

verus! {

impl ReaderView {
    /// A seek moves no further than to its target, whether it succeeds or not.
    proof fn lemma_seek_bound(self, seek_to: int, jump: bool)
        requires
            self.can_seek(),
            0 <= seek_to,
            self.parser().content_position() <= seek_to,
        ensures
            self.seek(seek_to, jump).0.parser().content_position() <= seek_to,
        decreases self.header_rank(), self.reset_rank(seek_to), self.work_rank(),
    {
        self.lemma_seek_rank(seek_to, jump);
        self.lemma_apply_seek(seek_to, jump);
        self.parser().lemma_seek_move(seek_to);
        self.parser().lemma_seek_next(seek_to);
        let bookkeeping = self.parser().seek_next(seek_to);
        let (moved, applied) = self.apply_seek(bookkeeping, jump);
        if applied is Ok {
            lemma_total_nonnegative(moved.parser().pending);
            match bookkeeping.next_read {
                NextRead::Parent => moved.parser().lemma_advance_parent(),
                NextRead::Chunk { size, finalization, skip } => {
                    moved.parser().lemma_advance_chunk();
                    lemma_total_nonnegative(moved.parser().advance_chunk().pending);
                },
                _ => {},
            }
        }
        let (after, result) = self.seek_step(seek_to, jump);
        if result == Ok::<bool, ReadError>(false) {
            after.lemma_seek_bound(seek_to, jump);
        }
    }
}

impl SliceView {
    /// Whether the reader has handed out all of `len` bytes of `content` but `remaining`, or but
    /// what lies past the end, and nothing that it will read is forged.
    pub open spec fn follows(self, content: Seq<u8>, len: int) -> bool {
        let total = content.len() as int;
        let handed_out = len - self.remaining;
        &&& 0 <= handed_out
        &&& handed_out > 0 ==> self.start + handed_out <= total
        &&& self.reader.follows(content)
        &&& {
            ||| self.reader.reading_position() == min(self.start + handed_out, total)
            ||| {
                &&& handed_out == 0
                &&& self.reader.core.buf.len() == 0
                &&& self.reader.parser().content_position() < self.start
            }
        }
    }

    /// Whatever a slice reader is given to read behind a header that announces the right length, it
    /// hands out the bytes that come next in the slice, or fails. It reports the end only at the
    /// end of the slice or of the content. That goes on after a failure.
    pub proof fn law_read_verified(self, content: Seq<u8>, len: int, room: int)
        requires
            self.follows(content, len),
            0 <= room,
        ensures
            ({
                let total = content.len() as int;
                let from = min(self.start + (len - self.remaining), total);
                let outcome = self.read(room);
                &&& self.after_read(room).follows(content, len)
                &&& outcome.result matches Ok(bytes) ==> {
                    &&& from + bytes.len() <= min(self.start + len, total)
                    &&& bytes == content.subrange(from, from + bytes.len())
                    &&& bytes.len() == 0 && room > 0 ==> self.remaining == 0 || from == total
                    &&& self.after_read(room).remaining == self.remaining - bytes.len()
                }
                &&& outcome.result is Err ==> {
                    &&& self.after_read(room).remaining == self.remaining
                    &&& from < min(self.start + len, total) || self.remaining == len
                }
            }),
    {
        let total: int = content.len() as int;
        let start: int = self.start as int;
        let from: int = min(start + (len - self.remaining), total);
        let want: int = min(self.remaining as int, room);
        self.lemma_read(room);
        if self.remaining == 0 {
            assert(content.subrange(from, from) =~= Seq::<u8>::empty());
        } else if self.reader.core.buf.len() > 0 {
            self.reader.law_read_anywhere(content, want);
        } else {
            if self.reader.parser().content_position() < start {
                self.reader.law_seek_anywhere(content, start, false);
                self.reader.lemma_seek_bound(start, false);
            }
            let (at, sought) = self.seek_start();
            at.law_read_anywhere(content, want);
            if self.remaining < len && from == total {
                // Nothing is left to read, so nothing can fail.
                let pending = self.reader.parser().pending;
                self.reader.core.verify.lemma_tracks_segments(content);
                if pending.len() > 0 {
                    lemma_total_nonnegative(pending.drop_last());
                    assert(pending[pending.len() - 1] > 0);
                }
            }
        }
    }

    /// Whatever a slice reader is given to read behind a header that announces the right length,
    /// what it hands out up to the end or up to a failure comes next in the slice. If it gets to
    /// the end, that is all of it, and if it fails, less.
    pub proof fn law_drain_verified(self, content: Seq<u8>, len: int)
        requires
            self.follows(content, len),
        ensures
            ({
                let total = content.len() as int;
                let from = min(self.start + (len - self.remaining), total);
                let (after, bytes, result) = self.drain();
                &&& after.follows(content, len)
                &&& from + bytes.len() <= min(self.start + len, total)
                &&& bytes == content.subrange(from, from + bytes.len())
                &&& result is Ok ==> from + bytes.len() == min(self.start + len, total)
                &&& result is Err ==> {
                    ||| from + bytes.len() < min(self.start + len, total)
                    ||| self.remaining == len && bytes.len() == 0
                }
            }),
        decreases self.remaining,
    {
        let total: int = content.len() as int;
        let from: int = min(self.start + (len - self.remaining), total);
        let room: int = CHUNK_SIZE as int;
        self.lemma_read(room);
        self.law_read_verified(content, len, room);
        let outcome = self.read(room);
        if outcome.result is Ok && outcome.result->Ok_0.len() > 0 {
            let bytes = outcome.result->Ok_0;
            let next = self.after_read(room);
            next.law_drain_verified(content, len);
            let rest = next.drain().1;
            assert(bytes + rest =~= content.subrange(from, from + bytes.len() + rest.len()));
        } else {
            assert(content.subrange(from, from) =~= Seq::<u8>::empty());
        }
    }

    /// A slice reader that has read nothing yet follows any content with its root hash, if the
    /// header announces its length and nothing is forged.
    pub proof fn law_fresh_follows(self, content: Seq<u8>)
        requires
            self.wf(),
            self.reader.fresh(),
            content.len() <= u64::MAX,
            self.reader.core.verify.root_hash == root_hash(content),
            self.reader.unforged(content),
            self.reader.announces(content),
        ensures
            self.follows(content, self.remaining as int),
    {
        self.reader.law_fresh_follows(content);
    }
}

impl ReaderView {
    /// Whether what was read so far, together with what is still to come of the nodes of `content`
    /// that overlap the bytes from `start` to `end`, is the header and these nodes.
    pub open spec fn consumes(self, content: Seq<u8>, start: int, end: int) -> bool {
        &&& self.follows(content)
        &&& self.outboard is None
        &&& self.input.position <= self.input.bytes.len()
        &&& if self.parser().content_len is None {
            self.input.position == 0
        } else {
            self.input.bytes.take(self.input.position) + slice_parts(
                unread(self.parser(), content),
                self.parser().position,
                start,
                end,
            ) == header(content.len() as int) + slice_subtree(content, 0, start, end)
        }
    }

    proof fn lemma_consumes_header(self, content: Seq<u8>, start: int, end: int)
        requires
            self.consumes(content, start, end),
            self.parser().read_next() is Header,
            self.read_header().1 is Ok,
        ensures
            self.read_header().0.consumes(content, start, end),
    {
        let bytes = self.input.next(HEADER_SIZE as int);
        let nodes = slice_subtree(content, 0, start, end);
        lemma_header_len(bytes);
        self.lemma_follows_header(content);
        let after = self.read_header().0;
        self.core.verify.lemma_track_header(content);
        assert(after.input.bytes.take(HEADER_SIZE as int) =~= bytes);
        lemma_push_slice(Seq::empty(), content, 0, start, end);
        assert(Seq::<Seq<u8>>::empty().push(content) =~= seq![content]);
        assert(nodes + slice_parts(Seq::empty(), content.len() as int, start, end) =~= nodes);
    }

    proof fn lemma_consumes_parent(self, content: Seq<u8>, start: int, end: int)
        requires
            self.consumes(content, start, end),
            self.parser().read_next() is Parent,
            self.overlaps(start, end),
            self.read_parent().1 is Ok,
        ensures
            self.read_parent().0.consumes(content, start, end),
            self.read_parent().0.parser().content_position() == self.parser().content_position(),
    {
        let parts = unread(self.parser(), content);
        let verify = self.core.verify;
        let base: int = self.parser().position;
        let parent = parent_node(parts.last());
        self.lemma_follows_parent(content);
        verify.lemma_track_parent(content);
        verify.lemma_tracks_segments(content);
        lemma_split_parts(parts);
        lemma_split_slice(parts, base, start, end);
        self.parser().lemma_advance_parent();
        let after = self.read_parent().0;
        let rest = slice_parts(unread(after.parser(), content), base, start, end);
        assert(after.input.bytes.take(after.input.position) =~= self.input.bytes.take(
            self.input.position,
        ) + parent);
        assert(self.input.bytes.take(self.input.position) + (parent + rest) =~= (
        self.input.bytes.take(self.input.position) + parent) + rest);
    }

    proof fn lemma_consumes_chunk(
        self,
        content: Seq<u8>,
        start: int,
        end: int,
        skip: int,
        room: int,
    )
        requires
            self.consumes(content, start, end),
            self.core.buf.len() == 0,
            self.parser().read_next() is Chunk,
            self.overlaps(start, end),
            0 <= skip <= self.parser().pending.last(),
            0 <= room,
            ({
                let size = self.parser().pending.last();
                self.read_chunk(size, self.parser().finalization(), skip, room).result is Ok
            }),
        ensures
            ({
                let size = self.parser().pending.last();
                let outcome = self.read_chunk(size, self.parser().finalization(), skip, room);
                outcome.after.consumes(content, start, end)
            }),
    {
        let size: int = self.parser().pending.last();
        let outcome = self.read_chunk(size, self.parser().finalization(), skip, room);
        let parts = unread(self.parser(), content);
        let part = parts.last();
        let position: int = self.parser().position;
        self.lemma_follows_chunk(content, skip, room);
        self.core.verify.lemma_track_chunk(content);
        self.core.verify.lemma_tracks_segments(content);
        self.parser().lemma_advance_chunk();
        let after = outcome.after;
        let rest = slice_parts(parts.drop_last(), position + size, start, end);
        assert(slice_subtree(part, position, start, end) == part);
        assert(after.input.bytes.take(after.input.position) =~= self.input.bytes.take(
            self.input.position,
        ) + part);
        assert(self.input.bytes.take(self.input.position) + (part + rest) =~= (
        self.input.bytes.take(self.input.position) + part) + rest);
    }

    proof fn lemma_consumes_descend(self, content: Seq<u8>, start: int, end: int)
        requires
            self.consumes(content, start, end),
            start <= self.parser().content_position() < end,
            start < content.len(),
            self.descend().1 is Ok,
        ensures
            self.descend().0.consumes(content, start, end),
            self.descend().0.core.buf == self.core.buf,
            self.descend().0.parser().content_len is Some,
            self.descend().0.parser().content_position() == self.parser().content_position(),
        decreases self.rank(),
    {
        self.lemma_rank();
        if self.parser().read_next() is Header {
            self.lemma_consumes_header(content, start, end);
            self.read_header().0.lemma_consumes_descend(content, start, end);
        } else if self.parser().read_next() is Parent {
            self.lemma_consumes_parent(content, start, end);
            self.read_parent().0.lemma_consumes_descend(content, start, end);
        }
    }

    proof fn lemma_consumes_apply_seek(self, content: Seq<u8>, seek_to: int, end: int)
        requires
            self.consumes(content, slice_first(content.len() as int, seek_to), end),
            self.core.buf.len() == 0,
            0 <= seek_to,
            self.parser().content_len is Some,
            self.parser().position <= seek_to,
            self.parser().validated && seek_to >= content.len() ==> self.parser().position
                == content.len() && self.parser().pending.len() == 0,
        ensures
            ({
                let first = slice_first(content.len() as int, seek_to);
                let (after, result) = self.apply_seek(self.parser().seek_next(seek_to), false);
                &&& result is Ok
                &&& after.consumes(content, first, end)
                &&& after.parser() == self.parser().seek_move(seek_to)
                &&& after.core.buf.len() == 0
            }),
    {
        let bookkeeping = self.parser().seek_next(seek_to);
        let verify = self.core.verify;
        let first: int = slice_first(content.len() as int, seek_to);
        let parts = unread(self.parser(), content);
        let lens = self.parser().pending;
        let base: int = self.parser().position;
        let total_len: int = content.len() as int;
        self.lemma_follows_apply_seek(content, seek_to, false);
        self.lemma_apply_seek(seek_to, false);
        verify.lemma_track_seek(content, seek_to);
        verify.lemma_tracks_segments(content);
        self.parser().lemma_seek_next(seek_to);
        self.parser().lemma_seek_move(seek_to);
        let after = self.apply_seek(bookkeeping, false).0;
        after.core.verify.lemma_tracks_segments(content);
        assert(!bookkeeping.reset_to_root);
        let kept = after.parser().pending;
        assert(unread(after.parser(), content) == parts.take(kept.len() as int));
        if seek_to < total_len {
            lemma_skip_slice(parts, lens, base, seek_to + 1, first, end);
        } else if !self.parser().validated {
            lemma_skip_slice(parts, lens, base, total_len, first, end);
        } else {
            assert(parts.take(0) =~= parts);
        }
    }

    proof fn lemma_consumes_seek_step(self, content: Seq<u8>, seek_to: int, end: int)
        requires
            self.consumes(content, slice_first(content.len() as int, seek_to), end),
            self.core.buf.len() == 0,
            0 <= seek_to,
            self.parser().position <= seek_to,
            self.parser().validated && seek_to >= content.len() ==> self.parser().position
                == content.len() && self.parser().pending.len() == 0,
            slice_first(content.len() as int, seek_to) < end,
            0 < end,
            self.seek_step(seek_to, false).1 is Ok,
        ensures
            ({
                let first = slice_first(content.len() as int, seek_to);
                let (after, result) = self.seek_step(seek_to, false);
                &&& after.consumes(content, first, end)
                &&& after.parser().position <= seek_to
                &&& after.parser().validated && seek_to >= content.len()
                    ==> after.parser().position == content.len() && after.parser().pending.len()
                    == 0
            }),
    {
        let first: int = slice_first(content.len() as int, seek_to);
        let bookkeeping = self.parser().seek_next(seek_to);
        self.lemma_seek_rank(seek_to, false);
        self.parser().lemma_seek_next(seek_to);
        if self.parser().content_len is None {
            assert(self.apply_seek(bookkeeping, false).0 =~= self) by {
                self.core.verify.lemma_after_seek(seek_to);
                assert(self.core.verify.after_seek(bookkeeping).stack
                    =~= self.core.verify.stack);
            }
            self.lemma_consumes_header(content, first, end);
        } else {
            self.lemma_consumes_apply_seek(content, seek_to, end);
            self.parser().lemma_seek_move(seek_to);
            let moved = self.apply_seek(bookkeeping, false).0;
            moved.core.verify.lemma_tracks_segments(content);
            lemma_total_nonnegative(moved.parser().pending);
            if moved.parser().pending.len() == 1 {
                lemma_total_one(moved.parser().pending[0]);
                assert(moved.parser().pending =~= seq![moved.parser().pending[0]]);
            }
            match bookkeeping.next_read {
                NextRead::Header => {},
                NextRead::Parent => {
                    moved.lemma_consumes_parent(content, first, end);
                    moved.parser().lemma_advance_parent();
                },
                NextRead::Chunk { size, finalization, skip } => {
                    moved.lemma_consumes_chunk(content, first, end, skip as int, 0);
                    moved.parser().lemma_advance_chunk();
                },
                NextRead::Done => {},
            }
        }
    }

    proof fn lemma_consumes_seek(self, content: Seq<u8>, seek_to: int, end: int)
        requires
            self.consumes(content, slice_first(content.len() as int, seek_to), end),
            self.core.buf.len() == 0,
            0 <= seek_to,
            self.parser().position <= seek_to,
            self.parser().validated && seek_to >= content.len() ==> self.parser().position
                == content.len() && self.parser().pending.len() == 0,
            slice_first(content.len() as int, seek_to) < end,
            0 < end,
            self.seek(seek_to, false).1 is Ok,
        ensures
            ({
                let first = slice_first(content.len() as int, seek_to);
                let after = self.seek(seek_to, false).0;
                &&& after.consumes(content, first, end)
                &&& after.core.buf.len() == 0
                &&& after.reading_position() == min(seek_to, content.len() as int)
                &&& after.parser().validated && seek_to >= content.len()
                    ==> after.parser().position == content.len() && after.parser().pending.len()
                    == 0
            }),
        decreases self.header_rank(), self.reset_rank(seek_to), self.work_rank(),
    {
        self.lemma_seek_rank(seek_to, false);
        self.lemma_follows_seek_step(content, seek_to, false);
        let (after, result) = self.seek_step(seek_to, false);
        self.lemma_consumes_seek_step(content, seek_to, end);
        if result == Ok::<bool, ReadError>(false) {
            after.lemma_consumes_seek(content, seek_to, end);
        }
    }

    proof fn lemma_consumes_read_next(self, content: Seq<u8>, start: int, end: int, room: int)
        requires
            self.consumes(content, start, end),
            self.core.buf.len() == 0,
            0 <= room,
            start < content.len(),
            start <= self.parser().content_position(),
            self.parser().content_position() < end || self.parser().content_position()
                == content.len() && content.len() > 0,
            self.read_next_chunk(room).result is Ok,
        ensures
            self.read_next_chunk(room).after.consumes(content, start, end),
    {
        if self.parser().content_len is Some {
            self.core.verify.lemma_tracks_segments(content);
            lemma_total_nonnegative(self.parser().pending);
        }
        if self.parser().content_position() < end {
            self.lemma_consumes_descend(content, start, end);
            self.lemma_descend();
            let here = self.descend().0;
            here.core.verify.lemma_tracks_segments(content);
            if here.parser().read_next() is Chunk {
                here.lemma_consumes_chunk(content, start, end, here.parser().skip, room);
            }
        } else {
            if self.parser().pending.len() > 0 {
                assert(self.parser().pending[self.parser().pending.len() - 1] > 0);
                lemma_total_nonnegative(self.parser().pending.drop_last());
            }
        }
    }
}

/// No node from the end of the slice on is in it.
pub proof fn lemma_slice_parts_past_end(parts: Seq<Seq<u8>>, base: int, start: int, end: int)
    requires
        end <= base,
    ensures
        slice_parts(parts, base, start, end) == Seq::<u8>::empty(),
    decreases parts.len(),
{
    if parts.len() > 0 {
        lemma_slice_parts_past_end(
            parts.drop_last(),
            base + parts.last().len(),
            start,
            end,
        );
        assert(slice_parts(parts, base, start, end) =~= Seq::<u8>::empty());
    }
}

impl ReaderView {
    /// Reading on from the end of the content leaves nothing to read.
    proof fn lemma_read_past_end(self, content: Seq<u8>, room: int)
        requires
            self.follows(content),
            self.core.buf.len() == 0,
            self.reading_position() == content.len(),
            0 <= room,
            self.read_next_chunk(room).result is Ok,
        ensures
            self.read_next_chunk(room).after.parser().pending.len() == 0,
            self.read_next_chunk(room).after.parser().position == content.len(),
    {
        self.lemma_follows_descend(content);
        self.lemma_descend();
        let here = self.descend().0;
        let pending = here.parser().pending;
        here.core.verify.lemma_tracks_segments(content);
        if pending.len() > 0 {
            lemma_total_nonnegative(pending.drop_last());
            assert(pending[pending.len() - 1] > 0 || content.len() == 0);
            here.parser().lemma_advance_chunk();
        }
    }

    /// Reading the next chunk leaves nothing to skip.
    pub proof fn lemma_read_skip(self, room: int)
        requires
            self.wf(),
            self.core.buf.len() == 0,
            0 <= room,
            self.read_next_chunk(room).result matches Ok(bytes) && bytes.len() > 0,
        ensures
            self.read_next_chunk(room).after.parser().skip == 0,
    {
        self.lemma_descend();
    }
}

impl SliceView {
    /// Whether the reader has read nothing but a part of the slice of `content` for `len` bytes.
    pub open spec fn consumes(self, content: Seq<u8>, len: int) -> bool {
        let total = content.len() as int;
        let parser = self.reader.parser();
        &&& self.follows(content, len)
        &&& self.reader.consumes(
            content,
            slice_first(total, self.start as int),
            slice_end(total, self.start as int, len),
        )
        &&& parser.validated && self.start >= total ==> {
            &&& parser.position == total
            &&& parser.pending.len() == 0
        }
        &&& len > self.remaining ==> parser.skip == 0
    }

    proof fn lemma_consumes_read(self, content: Seq<u8>, len: int, room: int)
        requires
            self.consumes(content, len),
            0 <= room,
            self.read(room).result is Ok,
        ensures
            self.after_read(room).consumes(content, len),
            self.read(room).result->Ok_0.len() == 0 && room > 0 && self.remaining > 0 ==> {
                &&& self.after_read(room).reader.parser().pending.len() == 0
                &&& self.after_read(room).reader.parser().content_len is Some
            },
    {
        let total: int = content.len() as int;
        let start: int = self.start as int;
        let first: int = slice_first(total, start);
        let end: int = slice_end(total, start, len);
        let want: int = min(self.remaining as int, room);
        let reader = self.reader;
        self.lemma_read(room);
        self.law_read_verified(content, len, room);
        if self.remaining > 0 && reader.core.buf.len() == 0 {
            if reader.parser().content_position() < start {
                reader.lemma_consumes_seek(content, start, end);
                reader.law_seek_anywhere(content, start, false);
            }
            let at = self.seek_start().0;
            at.law_read_anywhere(content, want);
            at.lemma_consumes_read_next(content, first, end, want);
            let bytes = self.read(room).result->Ok_0;
            if bytes.len() > 0 {
                at.lemma_read_skip(want);
            } else if room > 0 {
                at.law_end_validated(want);
            }
            if start >= total {
                at.lemma_read_past_end(content, want);
            }
        }
    }

    proof fn lemma_consumes_drain(self, content: Seq<u8>, len: int)
        requires
            self.consumes(content, len),
            len > 0,
            self.drain().2 is Ok,
        ensures
            found_at(
                slice_encoding(content, self.start as int, len),
                self.reader.input.bytes,
                0,
            ),
        decreases self.remaining,
    {
        let total: int = content.len() as int;
        let start: int = self.start as int;
        let room: int = CHUNK_SIZE as int;
        self.lemma_consumes_read(content, len, room);
        self.law_read_verified(content, len, room);
        self.lemma_read_bytes(room);
        let after = self.after_read(room);
        let bytes = self.read(room).result->Ok_0;
        if bytes.len() > 0 {
            after.lemma_consumes_drain(content, len);
        } else {
            let reader = after.reader;
            let parts = unread(reader.parser(), content);
            let position: int = reader.parser().position;
            let first: int = slice_first(total, start);
            let end: int = slice_end(total, start, len);
            let read = reader.input.bytes.take(reader.input.position);
            if self.remaining > 0 {
                reader.core.verify.lemma_tracks_segments(content);
                assert(parts.len() == 0);
            } else {
                lemma_slice_parts_past_end(parts, position, first, end);
            }
            assert(read =~= slice_encoding(content, start, len));
            assert(reader.input.bytes.subrange(0, read.len() as int) =~= read);
        }
    }

    proof fn lemma_read_bytes(self, room: int)
        requires
            self.wf(),
            0 <= room,
        ensures
            self.after_read(room).reader.input.bytes == self.reader.input.bytes,
    {
        let want: int = min(self.remaining as int, room);
        self.reader.law_read_related(want);
        if self.reader.core.buf.len() == 0 {
            self.reader.law_seek_related(self.start as int, false);
            self.reader.lemma_seek(self.start as int, false);
            self.seek_start().0.law_read_related(want);
        }
    }

    /// If reading a slice to its end succeeds, the bytes that were read start with the slice of the
    /// content, if the header announces the right length and nothing is forged.
    pub proof fn law_slice_exact(self, content: Seq<u8>)
        requires
            self.wf(),
            self.reader.fresh(),
            self.reader.outboard is None,
            self.remaining > 0,
            content.len() <= u64::MAX,
            self.reader.core.verify.root_hash == root_hash(content),
            self.reader.unforged(content),
            self.reader.announces(content),
            self.drain().2 is Ok,
        ensures
            found_at(
                slice_encoding(content, self.start as int, self.remaining as int),
                self.reader.input.bytes,
                0,
            ),
    {
        self.law_fresh_follows(content);
        self.lemma_consumes_drain(content, self.remaining as int);
    }
}

impl ReaderView {
    /// Whether the source is no shorter than the header and the nodes of `content` that overlap the
    /// bytes from `start` to `end`.
    spec fn holds_enough(self, content: Seq<u8>, start: int, end: int) -> bool {
        (header(content.len() as int) + slice_subtree(content, 0, start, end)).len()
            <= self.input.bytes.len()
    }

    /// What a slice still has to give is there.
    proof fn lemma_enough_left(self, content: Seq<u8>, start: int, end: int)
        requires
            self.consumes(content, start, end),
            self.holds_enough(content, start, end),
            self.parser().content_len is Some,
        ensures
            self.input.position + slice_parts(
                unread(self.parser(), content),
                self.parser().position,
                start,
                end,
            ).len() <= self.input.bytes.len(),
    {
        let rest = slice_parts(
            unread(self.parser(), content),
            self.parser().position,
            start,
            end,
        );
        assert((self.input.bytes.take(self.input.position) + rest).len() == self.input.position
            + rest.len());
    }

    proof fn lemma_enough_header(self, content: Seq<u8>, start: int, end: int)
        requires
            self.consumes(content, start, end),
            self.holds_enough(content, start, end),
            self.parser().read_next() is Header,
        ensures
            self.read_header().1 is Ok,
    {
        lemma_header_value(content.len() as u64);
    }

    proof fn lemma_enough_parent(self, content: Seq<u8>, start: int, end: int)
        requires
            self.consumes(content, start, end),
            self.holds_enough(content, start, end),
            self.parser().read_next() is Parent,
            self.overlaps(start, end),
        ensures
            self.read_parent().1 matches Err(error) ==> error == ReadError::Decode(
                Error::HashMismatch,
            ),
    {
        let parts = unread(self.parser(), content);
        self.lemma_enough_left(content, start, end);
        self.core.verify.lemma_track_parent(content);
        self.core.verify.lemma_tracks_segments(content);
        lemma_split_parts(parts);
        lemma_split_slice(parts, self.parser().position, start, end);
    }

    proof fn lemma_enough_chunk(
        self,
        content: Seq<u8>,
        start: int,
        end: int,
        skip: int,
        room: int,
    )
        requires
            self.consumes(content, start, end),
            self.holds_enough(content, start, end),
            self.parser().read_next() is Chunk,
            self.overlaps(start, end),
        ensures
            self.read_chunk(
                self.parser().pending.last(),
                self.parser().finalization(),
                skip,
                room,
            ).result matches Err(error) ==> error == ReadError::Decode(Error::HashMismatch),
    {
        let part = unread(self.parser(), content).last();
        self.lemma_enough_left(content, start, end);
        self.core.verify.lemma_tracks_segments(content);
        assert(slice_subtree(part, self.parser().position, start, end) == part);
    }

    proof fn lemma_enough_descend(self, content: Seq<u8>, start: int, end: int)
        requires
            self.consumes(content, start, end),
            self.holds_enough(content, start, end),
            start <= self.parser().content_position() < end,
            start < content.len(),
        ensures
            self.descend().1 matches Err(error) ==> error == ReadError::Decode(
                Error::HashMismatch,
            ),
        decreases self.rank(),
    {
        self.lemma_rank();
        if self.parser().read_next() is Header {
            self.lemma_enough_header(content, start, end);
            self.lemma_consumes_header(content, start, end);
            self.read_header().0.lemma_enough_descend(content, start, end);
        } else if self.parser().read_next() is Parent {
            self.lemma_enough_parent(content, start, end);
            if self.read_parent().1 is Ok {
                self.lemma_consumes_parent(content, start, end);
                self.read_parent().0.lemma_enough_descend(content, start, end);
            }
        }
    }

    proof fn lemma_enough_seek(self, content: Seq<u8>, seek_to: int, end: int)
        requires
            self.consumes(content, slice_first(content.len() as int, seek_to), end),
            self.holds_enough(content, slice_first(content.len() as int, seek_to), end),
            self.core.buf.len() == 0,
            0 <= seek_to,
            self.parser().position <= seek_to,
            self.parser().validated && seek_to >= content.len() ==> self.parser().position
                == content.len() && self.parser().pending.len() == 0,
            slice_first(content.len() as int, seek_to) < end,
            0 < end,
        ensures
            self.seek(seek_to, false).1 matches Err(error) ==> error == ReadError::Decode(
                Error::HashMismatch,
            ),
        decreases self.header_rank(), self.reset_rank(seek_to), self.work_rank(),
    {
        let first: int = slice_first(content.len() as int, seek_to);
        let bookkeeping = self.parser().seek_next(seek_to);
        self.lemma_seek_rank(seek_to, false);
        self.parser().lemma_seek_next(seek_to);
        if self.parser().content_len is None {
            assert(self.apply_seek(bookkeeping, false).0 =~= self) by {
                self.core.verify.lemma_after_seek(seek_to);
                assert(self.core.verify.after_seek(bookkeeping).stack
                    =~= self.core.verify.stack);
            }
            self.lemma_enough_header(content, first, end);
        } else {
            self.lemma_consumes_apply_seek(content, seek_to, end);
            self.parser().lemma_seek_move(seek_to);
            let moved = self.apply_seek(bookkeeping, false).0;
            moved.core.verify.lemma_tracks_segments(content);
            lemma_total_nonnegative(moved.parser().pending);
            if moved.parser().pending.len() == 1 {
                lemma_total_one(moved.parser().pending[0]);
                assert(moved.parser().pending =~= seq![moved.parser().pending[0]]);
            }
            match bookkeeping.next_read {
                NextRead::Header => {},
                NextRead::Parent => moved.lemma_enough_parent(content, first, end),
                NextRead::Chunk { size, finalization, skip } => {
                    moved.lemma_enough_chunk(content, first, end, skip as int, 0);
                },
                NextRead::Done => {},
            }
        }
        let (after, result) = self.seek_step(seek_to, false);
        if result is Ok {
            self.lemma_consumes_seek_step(content, seek_to, end);
            self.lemma_seek_step_related(seek_to, false);
            if result == Ok::<bool, ReadError>(false) {
                after.lemma_enough_seek(content, seek_to, end);
            }
        }
    }

    proof fn lemma_enough_read_next(self, content: Seq<u8>, start: int, end: int, room: int)
        requires
            self.consumes(content, start, end),
            self.holds_enough(content, start, end),
            self.core.buf.len() == 0,
            0 <= room,
            start < content.len(),
            start <= self.parser().content_position(),
            self.parser().content_position() < end || self.parser().content_position()
                == content.len() && content.len() > 0,
        ensures
            self.read_next_chunk(room).result matches Err(error) ==> error == ReadError::Decode(
                Error::HashMismatch,
            ),
    {
        if self.parser().content_len is Some {
            self.core.verify.lemma_tracks_segments(content);
            lemma_total_nonnegative(self.parser().pending);
        }
        if self.parser().content_position() < end {
            self.lemma_enough_descend(content, start, end);
            if self.descend().1 is Ok {
                self.lemma_consumes_descend(content, start, end);
                self.lemma_descend();
                self.lemma_descend_related();
                let here = self.descend().0;
                here.core.verify.lemma_tracks_segments(content);
                if here.parser().read_next() is Chunk {
                    here.lemma_enough_chunk(content, start, end, here.parser().skip, room);
                }
            }
        } else {
            if self.parser().pending.len() > 0 {
                assert(self.parser().pending[self.parser().pending.len() - 1] > 0);
                lemma_total_nonnegative(self.parser().pending.drop_last());
            }
        }
    }
}

impl SliceView {
    proof fn lemma_enough_read(self, content: Seq<u8>, len: int, room: int)
        requires
            self.consumes(content, len),
            slice_encoding(content, self.start as int, len).len()
                <= self.reader.input.bytes.len(),
            0 <= room,
        ensures
            self.read(room).result matches Err(error) ==> error == ReadError::Decode(
                Error::HashMismatch,
            ),
    {
        let total: int = content.len() as int;
        let start: int = self.start as int;
        let first: int = slice_first(total, start);
        let end: int = slice_end(total, start, len);
        let want: int = min(self.remaining as int, room);
        let reader = self.reader;
        if self.remaining > 0 && reader.core.buf.len() == 0 {
            if reader.parser().content_position() < start {
                reader.lemma_enough_seek(content, start, end);
                reader.law_seek_related(start, false);
                reader.law_seek_anywhere(content, start, false);
                if reader.seek(start, false).1 is Ok {
                    reader.lemma_consumes_seek(content, start, end);
                }
            }
            let (at, sought) = self.seek_start();
            if sought is Ok {
                at.law_read_anywhere(content, 0);
                at.lemma_enough_read_next(content, first, end, want);
            }
        }
    }

    proof fn lemma_enough_drain(self, content: Seq<u8>, len: int)
        requires
            self.consumes(content, len),
            slice_encoding(content, self.start as int, len).len()
                <= self.reader.input.bytes.len(),
        ensures
            self.drain().2 matches Err(error) ==> error == ReadError::Decode(Error::HashMismatch),
        decreases self.remaining,
    {
        let room: int = CHUNK_SIZE as int;
        self.lemma_enough_read(content, len, room);
        self.law_read_verified(content, len, room);
        if self.read(room).result is Ok {
            self.lemma_consumes_read(content, len, room);
            self.lemma_read_bytes(room);
            if self.read(room).result->Ok_0.len() > 0 {
                self.after_read(room).lemma_enough_drain(content, len);
            }
        }
    }

    /// Bytes that are no shorter than the slice of some content, but not the slice, fail with a
    /// wrong hash, if the header announces the right length and nothing is forged.
    pub proof fn law_slice_mismatch(self, content: Seq<u8>)
        requires
            self.wf(),
            self.reader.fresh(),
            self.reader.outboard is None,
            self.remaining > 0,
            content.len() <= u64::MAX,
            self.reader.core.verify.root_hash == root_hash(content),
            self.reader.unforged(content),
            self.reader.announces(content),
            slice_encoding(content, self.start as int, self.remaining as int).len()
                <= self.reader.input.bytes.len(),
            !found_at(
                slice_encoding(content, self.start as int, self.remaining as int),
                self.reader.input.bytes,
                0,
            ),
        ensures
            self.drain().2 == Err::<(), ReadError>(ReadError::Decode(Error::HashMismatch)),
    {
        if self.drain().2 is Ok {
            self.law_slice_exact(content);
        }
        self.law_fresh_follows(content);
        self.lemma_enough_drain(content, self.remaining as int);
    }
}

} // verus!
