//! What is encoded is decoded: on an encoding of some content under its own root hash, readers
//! never fail and hand out the content.

use vstd::prelude::*;

use crate::error::{offset_target, ReadError};
use crate::hash::{header, lemma_header_value, CHUNK_SIZE, HEADER_SIZE, PARENT_SIZE};
use crate::parse::{total, total_parents, NextRead};
use crate::parts::{
    encode_parts, lemma_encode_parts_len, lemma_push_part, lemma_skip_encodings, lemma_split_parts,
    outboard_parts, unread,
};
use crate::reading::{
    hash_from_encoded_spec, hash_from_outboard_spec, min, DecodeView, ReaderView, SeekFrom,
};
use crate::source::SourceView;
use crate::tree::{
    combined_encoding, encode_subtree, left, lemma_encode_subtree_len, lemma_left_part,
    outboard_encoding, outboard_subtree, parent_node, right, root_hash,
};

verus! {

/// Whether `bytes` goes on with `expected` at `position`.
pub open spec fn found_at(expected: Seq<u8>, bytes: Seq<u8>, position: int) -> bool {
    &&& 0 <= position
    &&& position + expected.len() <= bytes.len()
    &&& bytes.subrange(position, position + expected.len()) == expected
}

pub proof fn lemma_found_split(first: Seq<u8>, second: Seq<u8>, bytes: Seq<u8>, position: int)
    requires
        found_at(first + second, bytes, position),
    ensures
        found_at(first, bytes, position),
        found_at(second, bytes, position + first.len()),
{
    let whole = bytes.subrange(position, position + first.len() + second.len());
    assert(whole.take(first.len() as int) =~= first);
    assert(whole.skip(first.len() as int) =~= second);
    assert(bytes.subrange(position, position + first.len()) =~= first);
    assert(bytes.subrange(position + first.len(), position + first.len() + second.len())
        =~= second);
}

pub proof fn lemma_found_skip(expected: Seq<u8>, bytes: Seq<u8>, position: int, count: int)
    requires
        found_at(expected, bytes, position),
        0 <= count <= expected.len(),
    ensures
        found_at(expected.skip(count), bytes, position + count),
{
    assert(expected =~= expected.take(count) + expected.skip(count));
    lemma_found_split(expected.take(count), expected.skip(count), bytes, position);
}

impl ReaderView {
    /// Whether nothing was read yet.
    pub open spec fn fresh(self) -> bool {
        &&& self.core == DecodeView::start(self.core.verify.root_hash)
        &&& self.input.position == 0
        &&& self.nodes().position == 0
    }

    /// Whether the reader's sources hold an encoding of `content`.
    pub open spec fn holds(self, content: Seq<u8>) -> bool {
        match self.outboard {
            None => found_at(combined_encoding(content), self.input.bytes, 0),
            Some(outboard) => {
                &&& found_at(content, self.input.bytes, 0)
                &&& found_at(outboard_encoding(content), outboard.bytes, 0)
            },
        }
    }

    /// Whether the sources stand where the unread subtrees of `content` start.
    pub open spec fn lined_up(self, content: Seq<u8>) -> bool {
        let parts = unread(self.parser(), content);
        if self.parser().content_len is None {
            self.input.position == 0 && self.nodes().position == 0
        } else {
            match self.outboard {
                None => {
                    &&& self.input.position == self.parser().encoding_position()
                    &&& found_at(encode_parts(parts), self.input.bytes, self.input.position)
                },
                Some(outboard) => {
                    &&& self.input.position == self.parser().position
                    &&& outboard.position == self.parser().outboard_position()
                    &&& found_at(outboard_parts(parts), outboard.bytes, outboard.position)
                },
            }
        }
    }

    /// Whether what is verified and what is buffered belong to `content`.
    pub open spec fn tracks(self, content: Seq<u8>) -> bool {
        let position = self.parser().position;
        &&& self.wf()
        &&& content.len() <= u64::MAX
        &&& self.core.verify.root_hash == root_hash(content)
        &&& self.parser().content_len is Some ==> {
            &&& self.core.verify.tracks(content)
            &&& self.core.buf == content.subrange(position - self.core.buf.len(), position)
        }
    }

    /// Whether the reader is on its way through an encoding of `content`.
    pub open spec fn decodes(self, content: Seq<u8>) -> bool {
        &&& self.tracks(content)
        &&& self.input.bytes.len() <= u64::MAX
        &&& self.holds(content)
        &&& self.lined_up(content)
    }

    /// A reader that has read nothing yet decodes any content that has its root hash and whose
    /// encoding its sources hold.
    pub proof fn law_fresh_decodes(self, content: Seq<u8>)
        requires
            self.wf(),
            self.fresh(),
            self.input.bytes.len() <= u64::MAX,
            self.core.verify.root_hash == root_hash(content),
            self.holds(content),
        ensures
            self.decodes(content),
            self.reading_position() == 0,
    {
        lemma_encode_subtree_len(content);
        crate::parse::lemma_parents_size_bound(content.len() as int);
    }

    proof fn lemma_decodes_header(self, content: Seq<u8>)
        requires
            self.decodes(content),
            self.parser().read_next() is Header,
        ensures
            self.read_header().1 is Ok,
            self.read_header().0.decodes(content),
            self.read_header().0.reading_position() == self.reading_position(),
            self.read_header().0.parser().content_len is Some,
    {
        let len: int = content.len() as int;
        lemma_header_value(content.len() as u64);
        lemma_encode_subtree_len(content);
        self.lemma_read_node();
        let nodes = self.nodes();
        match self.outboard {
            None => lemma_found_split(header(len), encode_subtree(content), nodes.bytes, 0),
            Some(_) => lemma_found_split(header(len), outboard_subtree(content), nodes.bytes, 0),
        }
        assert(nodes.next(HEADER_SIZE as int) == header(len));
        self.core.verify.lemma_track_header(content);
        let after = self.read_header().0;
        crate::parse::lemma_total_one(len);
        assert(unread(after.parser(), content) == seq![content]);
        lemma_push_part(Seq::empty(), content);
        assert(Seq::<Seq<u8>>::empty().push(content) =~= seq![content]);
        assert(encode_subtree(content) + encode_parts(Seq::empty()) =~= encode_subtree(content));
        assert(outboard_subtree(content) + outboard_parts(Seq::empty())
            =~= outboard_subtree(content));
        assert(after.core.buf =~= content.subrange(0, 0));
    }

    proof fn lemma_decodes_parent(self, content: Seq<u8>)
        requires
            self.decodes(content),
            self.parser().read_next() is Parent,
        ensures
            self.read_parent().1 is Ok,
            self.read_parent().0.decodes(content),
            self.read_parent().0.reading_position() == self.reading_position(),
            self.read_parent().0.parser().content_len is Some,
    {
        let parts = unread(self.parser(), content);
        let part = parts.last();
        let verify = self.core.verify;
        verify.lemma_track_parent(content);
        verify.lemma_tracks_segments(content);
        lemma_split_parts(parts);
        self.lemma_read_node();
        self.parser().lemma_advance_parent();
        let after = self.read_parent().0;
        let split = unread(verify.advance_parent(parent_node(part)).parser, content);
        let nodes = self.nodes();
        match self.outboard {
            None => lemma_found_split(
                parent_node(part),
                encode_parts(split),
                nodes.bytes,
                nodes.position,
            ),
            Some(_) => lemma_found_split(
                parent_node(part),
                outboard_parts(split),
                nodes.bytes,
                nodes.position,
            ),
        }
        assert(nodes.next(PARENT_SIZE as int) == parent_node(part));
    }

    proof fn lemma_decodes_chunk(self, content: Seq<u8>, skip: int, room: int)
        requires
            self.decodes(content),
            self.core.buf.len() == 0,
            self.parser().read_next() is Chunk,
            0 <= skip <= self.parser().pending.last(),
            0 <= room,
        ensures
            ({
                let size = self.parser().pending.last();
                let outcome = self.read_chunk(size, self.parser().finalization(), skip, room);
                let start = self.parser().position + skip;
                let count = min(size - skip, room);
                &&& outcome.result == Ok::<Seq<u8>, ReadError>(
                    content.subrange(start, start + count),
                )
                &&& start + count <= content.len()
                &&& outcome.after.decodes(content)
                &&& outcome.after.reading_position() == start + count
                &&& outcome.after.parser() == self.parser().advance_chunk()
                &&& skip == size ==> outcome.after.core.buf.len() == 0
            }),
    {
        let size: int = self.parser().pending.last();
        let finalization = self.parser().finalization();
        let outcome = self.read_chunk(size, finalization, skip, room);
        let parts = unread(self.parser(), content);
        let part = parts.last();
        let verify = self.core.verify;
        let position: int = self.parser().position;
        let start: int = position + skip;
        let count: int = min(size - skip, room);
        verify.lemma_track_chunk(content);
        verify.lemma_tracks_segments(content);
        self.parser().lemma_advance_chunk();
        self.lemma_read_chunk(size, finalization, skip, room);
        match self.outboard {
            None => lemma_found_split(
                encode_subtree(part),
                encode_parts(parts.drop_last()),
                self.input.bytes,
                self.input.position,
            ),
            Some(outboard) => {
                lemma_found_split(
                    outboard_subtree(part),
                    outboard_parts(parts.drop_last()),
                    outboard.bytes,
                    outboard.position,
                );
                assert(self.input.bytes.subrange(0, content.len() as int) == content);
                assert(self.input.bytes.subrange(position, position + size)
                    =~= self.input.bytes.subrange(0, content.len() as int).subrange(
                    position,
                    position + size,
                ));
            },
        }
        assert(encode_subtree(part) == part);
        assert(self.input.next(size) =~= part);
        let buffered = self.core.buffer_chunk(part, skip);
        assert(buffered.delivered(room) =~= content.subrange(start, start + count));
        assert(outcome.after.core.buf =~= content.subrange(
            position + size - outcome.after.core.buf.len(),
            position + size,
        ));
    }

    /// A reader of an encoding gets to the next chunk, or to the end.
    proof fn lemma_decodes_descend(self, content: Seq<u8>)
        requires
            self.decodes(content),
        ensures
            self.descend().1 is Ok,
            self.descend().0.decodes(content),
            self.descend().0.reading_position() == self.reading_position(),
            self.descend().0.parser().content_len is Some,
        decreases self.rank(),
    {
        self.lemma_rank();
        if self.parser().read_next() is Header {
            self.lemma_decodes_header(content);
            self.read_header().0.lemma_decodes_descend(content);
        } else if self.parser().read_next() is Parent {
            self.lemma_decodes_parent(content);
            self.read_parent().0.lemma_decodes_descend(content);
        }
    }

    /// On an encoding of some content, a read hands out the bytes that come next in the content. It
    /// hands out some unless the content has ended or the caller has no room.
    pub proof fn law_read(self, content: Seq<u8>, room: int)
        requires
            self.decodes(content),
            0 <= room,
        ensures
            ({
                let outcome = self.read(room);
                let start = self.reading_position();
                &&& outcome.after.decodes(content)
                &&& outcome.result matches Ok(bytes) && {
                    &&& start + bytes.len() <= content.len()
                    &&& bytes == content.subrange(start, start + bytes.len())
                    &&& bytes.len() <= room
                    &&& room > 0 && start < content.len() ==> bytes.len() > 0
                    &&& outcome.after.reading_position() == start + bytes.len()
                }
                &&& 0 <= start <= content.len()
            }),
    {
        let start: int = self.reading_position();
        self.lemma_read(room);
        if self.core.buf.len() > 0 {
            self.core.verify.lemma_tracks_segments(content);
            let count: int = min(self.core.buf.len() as int, room);
            let position: int = self.parser().position;
            let after = self.read(room).after;
            assert(self.core.delivered(room) =~= content.subrange(start, start + count));
            assert(after.core.buf =~= content.subrange(
                position - after.core.buf.len(),
                position,
            ));
        } else {
            self.lemma_decodes_descend(content);
            self.lemma_descend();
            let here = self.descend().0;
            here.core.verify.lemma_tracks_segments(content);
            if here.parser().read_next() is Chunk {
                here.lemma_decodes_chunk(content, here.parser().skip, room);
            } else {
                assert(content.subrange(start, start) =~= Seq::<u8>::empty());
            }
        }
    }

    proof fn lemma_decodes_apply_seek(self, content: Seq<u8>, seek_to: int)
        requires
            self.decodes(content),
            self.core.buf.len() == 0,
            self.parser().content_len is Some,
            0 <= seek_to,
        ensures
            ({
                let (after, result) = self.apply_seek(self.parser().seek_next(seek_to), true);
                &&& result is Ok
                &&& after.decodes(content)
                &&& after.parser() == self.parser().seek_move(seek_to)
                &&& after.core.buf.len() == 0
            }),
    {
        let bookkeeping = self.parser().seek_next(seek_to);
        let verify = self.core.verify;
        let moved = verify.after_seek(bookkeeping);
        let depth: int = bookkeeping.stack_depth as int;
        let parts = unread(self.parser(), content);
        let len: int = content.len() as int;
        self.lemma_apply_seek(seek_to, true);
        verify.lemma_track_seek(content, seek_to);
        verify.lemma_tracks_segments(content);
        moved.lemma_tracks_segments(content);
        self.parser().lemma_seek_next(seek_to);
        self.parser().lemma_seek_move(seek_to);
        lemma_encode_subtree_len(content);
        lemma_header_value(content.len() as u64);
        let rest = unread(moved.parser, content);
        lemma_encode_parts_len(rest, moved.parser.pending);
        if bookkeeping.reset_to_root {
            let all = seq![content];
            let lens = seq![len];
            crate::parse::lemma_total_one(len);
            lemma_push_part(Seq::empty(), content);
            assert(Seq::<Seq<u8>>::empty().push(content) =~= all);
            assert(encode_subtree(content) + encode_parts(Seq::empty())
                =~= encode_subtree(content));
            assert(outboard_subtree(content) + outboard_parts(Seq::empty())
                =~= outboard_subtree(content));
            assert(rest =~= all);
            match self.outboard {
                None => lemma_found_split(
                    header(len),
                    encode_subtree(content),
                    self.input.bytes,
                    0,
                ),
                Some(outboard) => lemma_found_split(
                    header(len),
                    outboard_subtree(content),
                    outboard.bytes,
                    0,
                ),
            }
        } else {
            let lens = self.parser().pending;
            lemma_encode_parts_len(parts, lens);
            lemma_skip_encodings(parts, lens, depth);
            let skipped_parents: int = total_parents(lens) - total_parents(lens.take(depth));
            let skipped: int = total(lens) - total(lens.take(depth)) + skipped_parents;
            match self.outboard {
                None => lemma_found_skip(
                    encode_parts(parts),
                    self.input.bytes,
                    self.input.position,
                    skipped,
                ),
                Some(outboard) => lemma_found_skip(
                    outboard_parts(parts),
                    outboard.bytes,
                    outboard.position,
                    skipped_parents,
                ),
            }
        }
        let after = self.apply_seek(bookkeeping, true).0;
        assert(after.core.buf =~= content.subrange(
            after.parser().position,
            after.parser().position,
        ));
    }

    proof fn lemma_decodes_seek_step(self, content: Seq<u8>, seek_to: int)
        requires
            self.decodes(content),
            self.core.buf.len() == 0,
            0 <= seek_to,
        ensures
            self.seek_step(seek_to, true).1 is Ok,
            self.seek_step(seek_to, true).0.decodes(content),
            self.seek_step(seek_to, true).1 == Ok::<bool, ReadError>(true)
                ==> self.seek_step(seek_to, true).0.parser().content_position() == min(
                seek_to,
                content.len() as int,
            ),
    {
        self.lemma_seek_rank(seek_to, true);
        let bookkeeping = self.parser().seek_next(seek_to);
        if self.parser().content_len is None {
            assert(self.apply_seek(bookkeeping, true).0 =~= self) by {
                self.core.verify.lemma_after_seek(seek_to);
                assert(self.core.verify.after_seek(bookkeeping).stack
                    =~= self.core.verify.stack);
            }
            self.lemma_decodes_header(content);
        } else {
            self.lemma_decodes_apply_seek(content, seek_to);
            self.parser().lemma_seek_move(seek_to);
            let moved = self.apply_seek(bookkeeping, true).0;
            match bookkeeping.next_read {
                NextRead::Header => {},
                NextRead::Parent => moved.lemma_decodes_parent(content),
                NextRead::Chunk { size, finalization, skip } => {
                    moved.lemma_decodes_chunk(content, skip as int, 0);
                },
                NextRead::Done => {},
            }
        }
    }

    /// On an encoding of some content, a seek succeeds. The next byte is that at the target, or
    /// there is none if the target lies past the end.
    pub proof fn law_seek(self, content: Seq<u8>, seek_to: int)
        requires
            self.decodes(content),
            self.core.buf.len() == 0,
            0 <= seek_to,
        ensures
            ({
                let (after, result) = self.seek(seek_to, true);
                &&& result is Ok
                &&& after.decodes(content)
                &&& after.core.buf.len() == 0
                &&& after.reading_position() == min(seek_to, content.len() as int)
            }),
        decreases self.header_rank(), self.reset_rank(seek_to), self.work_rank(),
    {
        self.lemma_seek_rank(seek_to, true);
        self.lemma_decodes_seek_step(content, seek_to);
        let (after, result) = self.seek_step(seek_to, true);
        if result == Ok::<bool, ReadError>(false) {
            after.law_seek(content, seek_to);
        }
    }

    /// On an encoding of some content, the verified length is that of the content.
    pub proof fn law_verify_len(self, content: Seq<u8>)
        requires
            self.decodes(content),
            self.core.buf.len() == 0,
        ensures
            ({
                let (after, result) = self.verify_len();
                &&& result == Ok::<u64, ReadError>(content.len() as u64)
                &&& after.decodes(content)
                &&& after.core.buf.len() == 0
            }),
        decreases self.header_rank(), self.work_rank(),
    {
        if !self.parser().validated {
            self.lemma_seek_rank(u64::MAX as int, true);
            self.lemma_decodes_seek_step(content, u64::MAX as int);
            self.seek_step(u64::MAX as int, true).0.law_verify_len(content);
        }
    }

    /// On an encoding of some content, a seek from the start, the end or the current position
    /// succeeds, unless it leads before the start or past the largest position.
    pub proof fn law_seek_from(self, content: Seq<u8>, position: SeekFrom)
        requires
            self.decodes(content),
        ensures
            ({
                let (after, result) = self.seek_from(position);
                let target = match position {
                    SeekFrom::Start(offset) => offset as int,
                    SeekFrom::End(offset) => content.len() + offset,
                    SeekFrom::Current(offset) => self.reading_position() + offset,
                };
                &&& after.decodes(content)
                &&& after.core.buf.len() == 0
                &&& target < 0 ==> result == Err::<u64, ReadError>(ReadError::SeekBeforeBeginning)
                &&& target > u64::MAX ==> result == Err::<u64, ReadError>(
                    ReadError::SeekTargetOverflow,
                )
                &&& 0 <= target <= u64::MAX ==> {
                    &&& result == Ok::<u64, ReadError>(target as u64)
                    &&& after.reading_position() == min(target, content.len() as int)
                }
            }),
    {
        let cleared = self.clear_buf();
        assert(cleared.core.buf =~= content.subrange(
            self.parser().position,
            self.parser().position,
        )) by {
            if self.parser().content_len is Some {
                self.core.verify.lemma_tracks_segments(content);
            }
        }
        assert(cleared.decodes(content));
        match position {
            SeekFrom::Start(offset) => cleared.law_seek(content, offset as int),
            SeekFrom::End(offset) => {
                cleared.law_verify_len(content);
                let after = cleared.verify_len().0;
                if let Ok(seek_to) = offset_target(content.len() as int, offset as int) {
                    after.law_seek(content, seek_to as int);
                }
            },
            SeekFrom::Current(offset) => {
                let current = self.reading_position();
                if let Ok(seek_to) = offset_target(current, offset as int) {
                    cleared.law_seek(content, seek_to as int);
                }
            },
        }
    }

    /// On an encoding of some content, reading to the end hands out the rest of the content.
    pub proof fn law_drain(self, content: Seq<u8>)
        requires
            self.decodes(content),
        ensures
            ({
                let (after, bytes, result) = self.drain();
                &&& result is Ok
                &&& bytes == content.skip(self.reading_position())
                &&& after.decodes(content)
                &&& after.reading_position() == content.len()
            }),
        decreases self.header_rank(), self.to_come(),
    {
        self.lemma_read_progress(CHUNK_SIZE as int);
        self.law_read(content, CHUNK_SIZE as int);
        let start: int = self.reading_position();
        let outcome = self.read(CHUNK_SIZE as int);
        let bytes = outcome.result->Ok_0;
        if bytes.len() > 0 {
            outcome.after.law_drain(content);
            assert(content.skip(start) =~= bytes + content.skip(start + bytes.len()));
        } else {
            assert(content.skip(start) =~= Seq::<u8>::empty());
        }
    }

    /// On an encoding of some content, filling a buffer succeeds if enough of the content is left,
    /// and then the buffer holds the bytes that come next.
    pub proof fn law_fill(self, content: Seq<u8>, buf: Seq<u8>, done: int)
        requires
            self.decodes(content),
            0 <= done <= buf.len(),
            self.reading_position() + buf.len() - done <= content.len(),
        ensures
            ({
                let (after, filled, result) = self.fill(buf, done);
                let start = self.reading_position();
                &&& result is Ok
                &&& after.decodes(content)
                &&& after.reading_position() == start + buf.len() - done
                &&& filled == buf.take(done) + content.subrange(start, start + buf.len() - done)
            }),
        decreases buf.len() - done,
    {
        let start: int = self.reading_position();
        self.law_read(content, buf.len() - done);
        if done < buf.len() {
            let outcome = self.read(buf.len() - done);
            let bytes = outcome.result->Ok_0;
            let filled = buf.take(done) + outcome.fills(buf.skip(done));
            let end: int = start + buf.len() - done;
            assert(filled == buf.take(done) + (bytes + buf.skip(done).skip(bytes.len() as int)));
            lemma_fill_step(content, buf, done, start, bytes);
            outcome.after.law_fill(content, filled, done + bytes.len());
            assert(self.fill(buf, done) == outcome.after.fill(filled, done + bytes.len()));
        } else {
            assert(buf =~= buf.take(done) + content.subrange(start, start));
        }
    }
}

pub proof fn lemma_fill_step(content: Seq<u8>, buf: Seq<u8>, done: int, start: int, bytes: Seq<u8>)
    requires
        0 <= done <= done + bytes.len() <= buf.len(),
        0 <= start,
        start + buf.len() - done <= content.len(),
        bytes == content.subrange(start, start + bytes.len()),
    ensures
        ({
            let filled = buf.take(done) + (bytes + buf.skip(done).skip(bytes.len() as int));
            let end = start + buf.len() - done;
            &&& filled.len() == buf.len()
            &&& filled.take(done + bytes.len()) + content.subrange(start + bytes.len(), end)
                == buf.take(done) + content.subrange(start, end)
        }),
{
    let filled = buf.take(done) + (bytes + buf.skip(done).skip(bytes.len() as int));
    let end: int = start + buf.len() - done;
    assert(filled.take(done + bytes.len()) =~= buf.take(done) + bytes);
    assert(content.subrange(start, end) =~= bytes + content.subrange(start + bytes.len(), end));
    assert(filled.take(done + bytes.len()) + content.subrange(start + bytes.len(), end)
        =~= buf.take(done) + content.subrange(start, end));
}

/// The root hash that is found in an encoding is that of the content.
pub proof fn law_hash_from_encoded(source: SourceView, content: Seq<u8>)
    requires
        content.len() <= u64::MAX,
        found_at(combined_encoding(content), source.bytes, source.position),
    ensures
        hash_from_encoded_spec(source) == Ok::<Seq<u8>, ReadError>(root_hash(content)),
{
    let len: int = content.len() as int;
    let rest: int = source.position + HEADER_SIZE;
    lemma_header_value(content.len() as u64);
    lemma_found_split(header(len), encode_subtree(content), source.bytes, source.position);
    assert(source.next(HEADER_SIZE as int) == header(len));
    if len <= CHUNK_SIZE {
        assert(source.advance(HEADER_SIZE as int).next(len) =~= content);
    } else {
        lemma_push_part(Seq::empty(), content);
        lemma_split_parts(Seq::<Seq<u8>>::empty().push(content));
        assert(encode_subtree(content) =~= parent_node(content) + (encode_subtree(left(content))
            + encode_subtree(right(content))));
        lemma_found_split(
            parent_node(content),
            encode_subtree(left(content)) + encode_subtree(right(content)),
            source.bytes,
            rest,
        );
    }
}

/// The root hash that is found in content and its outboard encoding is that of the content.
pub proof fn law_hash_from_outboard(input: SourceView, outboard: SourceView, content: Seq<u8>)
    requires
        content.len() <= u64::MAX,
        found_at(content, input.bytes, input.position),
        found_at(outboard_encoding(content), outboard.bytes, outboard.position),
    ensures
        hash_from_outboard_spec(input, outboard) == Ok::<Seq<u8>, ReadError>(root_hash(content)),
{
    let len: int = content.len() as int;
    let rest: int = outboard.position + HEADER_SIZE;
    lemma_header_value(content.len() as u64);
    lemma_found_split(header(len), outboard_subtree(content), outboard.bytes, outboard.position);
    assert(outboard.next(HEADER_SIZE as int) == header(len));
    if len <= CHUNK_SIZE {
        assert(input.next(len) =~= content);
    } else {
        lemma_push_part(Seq::empty(), content);
        lemma_split_parts(Seq::<Seq<u8>>::empty().push(content));
        assert(outboard_subtree(content) =~= parent_node(content) + (outboard_subtree(
            left(content),
        ) + outboard_subtree(right(content))));
        lemma_found_split(
            parent_node(content),
            outboard_subtree(left(content)) + outboard_subtree(right(content)),
            outboard.bytes,
            rest,
        );
    }
}

proof fn lemma_subtree_unique(content: Seq<u8>, other: Seq<u8>)
    requires
        content.len() == other.len(),
        encode_subtree(content) == encode_subtree(other),
    ensures
        content == other,
    decreases content.len(),
{
    if content.len() > CHUNK_SIZE {
        lemma_left_part(content.len() as int);
        lemma_push_part(Seq::empty(), content);
        lemma_push_part(Seq::empty(), other);
        lemma_split_parts(Seq::<Seq<u8>>::empty().push(content));
        lemma_split_parts(Seq::<Seq<u8>>::empty().push(other));
        lemma_encode_subtree_len(left(content));
        lemma_encode_subtree_len(left(other));
        let from: int = PARENT_SIZE as int;
        let to: int = from + encode_subtree(left(content)).len();
        assert(encode_subtree(content).subrange(from, to) =~= encode_subtree(left(content)));
        assert(encode_subtree(other).subrange(from, to) =~= encode_subtree(left(other)));
        assert(encode_subtree(content).skip(to) =~= encode_subtree(right(content)));
        assert(encode_subtree(other).skip(to) =~= encode_subtree(right(other)));
        lemma_subtree_unique(left(content), left(other));
        lemma_subtree_unique(right(content), right(other));
        assert(content =~= left(content) + right(content));
        assert(other =~= left(other) + right(other));
    }
}

/// Bytes start with the combined encoding of at most one content.
pub proof fn law_encoding_unique(bytes: Seq<u8>, content: Seq<u8>, other: Seq<u8>)
    requires
        content.len() <= u64::MAX,
        other.len() <= u64::MAX,
        found_at(combined_encoding(content), bytes, 0),
        found_at(combined_encoding(other), bytes, 0),
    ensures
        content == other,
{
    lemma_header_value(content.len() as u64);
    lemma_header_value(other.len() as u64);
    lemma_found_split(header(content.len() as int), encode_subtree(content), bytes, 0);
    lemma_found_split(header(other.len() as int), encode_subtree(other), bytes, 0);
    lemma_encode_subtree_len(content);
    lemma_encode_subtree_len(other);
    lemma_subtree_unique(content, other);
}

} // verus!
