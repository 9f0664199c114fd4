//! Decode the Bao format, or decode a slice.
//!
//! Decoding verifies that all the bytes of the encoding match the root hash given from the caller.
//! If there's a mismatch, decoding will return an error. It's possible for incremental decoding to
//! return some valid bytes before encountering an error, but it will never return unverified bytes.

use vstd::prelude::*;

use crate::complete::{found_at, law_encoding_unique};
pub use crate::error::Error;
use crate::error::{add_offset, cast_offset, ReadError};
use crate::hash::{
    decode_len, hash_chunk, hash_parent, le_value, Finalization, CHUNK_SIZE, HEADER_SIZE,
    PARENT_SIZE,
};
use crate::parse::{lemma_parents_size_bound, LenNext, NextRead, SeekBookkeeping};
use crate::reading::{
    after_root_encoded, after_root_outboard, hash_from_encoded_spec, hash_from_outboard_spec, min,
    DecodeView, ReaderView, SeekFrom, SeekTarget, SliceStateView, SliceView,
};
use crate::sound::{lemma_long_enough, too_short};
use crate::source::{copy_front, zero_front, zeroed, Cursor};
use crate::tree::{combined_encoding, encoded_size, root_hash};
use crate::verify::VerifyState;

verus! {

/// The part of a reader that does no reading itself: it says what to read next, verifies what was
/// read, and buffers verified bytes until they are asked for.
pub struct DecodeState {
    state: VerifyState,
    buf: [u8; CHUNK_SIZE],
    buf_start: usize,
    buf_end: usize,
}

impl View for DecodeState {
    type V = DecodeView;

    closed spec fn view(&self) -> DecodeView {
        DecodeView {
            verify: self.state@,
            buf: self.buf@.subrange(self.buf_start as int, self.buf_end as int),
        }
    }
}

impl Clone for DecodeState {
    fn clone(&self) -> (copy: Self)
        ensures
            copy@ == self@,
            copy.same_buf(self),
            self.wf() ==> copy.wf(),
    {
        DecodeState {
            state: self.state.clone(),
            buf: self.buf,
            buf_start: self.buf_start,
            buf_end: self.buf_end,
        }
    }
}

impl DecodeState {
    pub closed spec fn wf(&self) -> bool {
        &&& self.buf_start <= self.buf_end <= CHUNK_SIZE
        &&& self@.wf()
    }

    pub proof fn lemma_wf(&self)
        requires
            self.wf(),
        ensures
            self@.wf(),
            self@.buf.len() <= CHUNK_SIZE,
            self.raw_buf().len() == CHUNK_SIZE,
            ({
                let (start, end) = self.spec_buf_range();
                &&& start <= end <= CHUNK_SIZE
                &&& self@.buf == self.raw_buf().subrange(start as int, end as int)
            }),
    {
    }

    /// All that the buffer holds, whether it is still to be handed out or not.
    pub closed spec fn raw_buf(&self) -> Seq<u8> {
        self.buf@
    }

    /// The part of the buffer that holds the buffered bytes.
    pub closed spec fn spec_buf_range(&self) -> (usize, usize) {
        (self.buf_start, self.buf_end)
    }

    /// Whether the buffer is left alone.
    pub open spec fn same_buf(&self, other: &DecodeState) -> bool {
        &&& self.raw_buf() == other.raw_buf()
        &&& self.spec_buf_range() == other.spec_buf_range()
    }

    /// A decoder for the tree with the root hash `hash`, before the header.
    pub fn new(hash: &crate::hash::Hash) -> (state: Self)
        ensures
            state.wf(),
            state@ == DecodeView::start(hash@),
            state.raw_buf() == zeroed(state.raw_buf(), CHUNK_SIZE as int),
            state.spec_buf_range() == (0usize, 0usize),
    {
        let state = DecodeState {
            state: VerifyState::new(hash),
            buf: [0u8; 4096],
            buf_start: 0,
            buf_end: 0,
        };
        assert(state@.buf =~= Seq::<u8>::empty());
        state
    }

    /// How many verified bytes are buffered.
    pub fn buf_len(&self) -> (len: usize)
        requires
            self.wf(),
        ensures
            len == self@.buf.len(),
    {
        self.buf_end - self.buf_start
    }

    /// The verifier.
    pub fn state(&self) -> (state: &VerifyState)
        ensures
            state@ == self@.verify,
    {
        &self.state
    }

    /// Where the buffered bytes start and end in the buffer.
    pub fn buf_range(&self) -> (range: (usize, usize))
        requires
            self.wf(),
        ensures
            range == self.spec_buf_range(),
            range.0 + self@.buf.len() == range.1,
            range.1 <= CHUNK_SIZE,
    {
        (self.buf_start, self.buf_end)
    }

    /// Drops the buffered bytes.
    pub fn clear_buf(&mut self)
        requires
            old(self).wf(),
        ensures
            final(self).wf(),
            final(self)@ == (DecodeView { buf: Seq::empty(), ..old(self)@ }),
            final(self).raw_buf() == old(self).raw_buf(),
            final(self).spec_buf_range() == (0usize, 0usize),
    {
        self.buf_start = 0;
        self.buf_end = 0;
        assert(self@.buf =~= Seq::<u8>::empty());
    }

    /// Begins a read. Returns how many bytes it has handed out, or `None` if nothing is buffered
    /// and something has to be read first.
    pub fn begin_read(&mut self, buf: &mut [u8]) -> (count: Option<usize>)
        requires
            old(self).wf(),
        ensures
            final(self).wf(),
            old(self)@.buf.len() > 0 ==> {
                let bytes = old(self)@.delivered(old(buf)@.len() as int);
                &&& count == Some(bytes.len() as usize)
                &&& bytes.len() == min(old(self)@.buf.len() as int, old(buf)@.len() as int)
                &&& final(self)@ == old(self)@.deliver(old(buf)@.len() as int)
                &&& final(buf)@ == bytes + old(buf)@.skip(bytes.len() as int)
            },
            old(self)@.buf.len() == 0 ==> {
                &&& count is None
                &&& final(self)@ == old(self)@
                &&& final(self).same_buf(old(self))
                &&& final(buf)@ == old(buf)@
            },
    {
        if self.buf_len() > 0 {
            Some(self.take_bytes(buf))
        } else {
            None
        }
    }

    /// Begins a seek, which drops the buffered bytes, and returns where it leads.
    pub fn begin_seek(&mut self, position: SeekFrom) -> (target: Result<SeekTarget, ReadError>)
        requires
            old(self).wf(),
        ensures
            final(self).wf(),
            final(self)@ == (DecodeView { buf: Seq::empty(), ..old(self)@ }),
            final(self).raw_buf() == old(self).raw_buf(),
            final(self).spec_buf_range() == (0usize, 0usize),
            target == old(self)@.begin_seek(position),
    {
        // Clear the internal buffer when seeking. The buffered bytes won't be valid reads at the
        // new offset. But they were not handed out yet, so the current position lies before them.
        let here: u64 = self.adjusted_content_position();
        self.clear_buf();

        // Get the absolute seek offset. If the caller passed in SeekFrom::Start, that's what
        // we've got. If not, we need to compute it.
        match position {
            SeekFrom::Start(offset) => Ok(SeekTarget::To(offset)),
            // To seek from the end we have to get the length, and that may require a seek loop of
            // its own to verify the length.
            SeekFrom::End(offset) => Ok(SeekTarget::FromEnd(offset)),
            SeekFrom::Current(offset) => match add_offset(here, offset) {
                Ok(seek_to) => Ok(SeekTarget::To(seek_to)),
                Err(error) => Err(error),
            },
        }
    }

    /// The next step of a seek that was begun. This settles where the seek leads, once the length
    /// that it depends on is verified.
    pub fn next_seek(&self, target: &mut SeekTarget) -> (bookkeeping: Result<
        SeekBookkeeping,
        ReadError,
    >)
        requires
            self.wf(),
            self@.buf.len() == 0,
        ensures
            match self@.settle(*old(target)) {
                Ok(settled) => {
                    &&& *final(target) == settled
                    &&& bookkeeping == Ok::<SeekBookkeeping, ReadError>(
                        self@.verify.parser.seek_next(settled.goal()),
                    )
                },
                Err(error) => {
                    &&& *final(target) == *old(target)
                    &&& bookkeeping == Err::<SeekBookkeeping, ReadError>(error)
                },
            },
    {
        let offset: i64 = match *target {
            SeekTarget::To(seek_to) => {
                return Ok(self.seek_next(seek_to));
            },
            SeekTarget::FromEnd(offset) => offset,
        };
        let content_len: u64 = match self.len_next() {
            LenNext::Seek(bookkeeping) => {
                return Ok(bookkeeping);
            },
            LenNext::Len(len) => len,
        };
        match add_offset(content_len, offset) {
            Ok(seek_to) => {
                *target = SeekTarget::To(seek_to);
                Ok(self.seek_next(seek_to))
            },
            Err(error) => Err(error),
        }
    }

    /// Where in the content the verifier stands.
    pub fn content_position(&self) -> (position: u64)
        requires
            self.wf(),
        ensures
            position == self@.verify.parser.content_position(),
    {
        self.state.content_position()
    }

    /// Where in the content the next byte to hand out comes from. Buffered bytes are those
    /// immediately before the verifier's position.
    pub fn adjusted_content_position(&self) -> (position: u64)
        requires
            self.wf(),
        ensures
            position == self@.verify.parser.content_position() - self@.buf.len(),
    {
        self.state.content_position() - self.buf_len() as u64
    }

    /// What has to be read next.
    pub fn read_next(&self) -> (next: NextRead)
        requires
            self.wf(),
        ensures
            next == self@.verify.parser.read_next(),
    {
        self.state.read_next()
    }

    /// The next step of a seek to `seek_to`.
    pub fn seek_next(&self, seek_to: u64) -> (bookkeeping: SeekBookkeeping)
        requires
            self.wf(),
        ensures
            bookkeeping == self@.verify.parser.seek_next(seek_to as int),
    {
        self.state.seek_next(seek_to)
    }

    /// The next step towards the verified content length.
    pub fn len_next(&self) -> (next: LenNext)
        requires
            self.wf(),
        ensures
            next == self@.verify.parser.len_next(),
    {
        self.state.len_next()
    }

    /// Moves to where a step of a seek leads, and returns what to read there.
    pub fn seek_bookkeeping_done(&mut self, bookkeeping: SeekBookkeeping) -> (next: NextRead)
        requires
            old(self).wf(),
            old(self)@.buf.len() == 0,
            old(self)@.verify.parser.is_step(bookkeeping),
        ensures
            final(self).wf(),
            final(self)@ == (DecodeView {
                verify: old(self)@.verify.after_seek(bookkeeping),
                ..old(self)@
            }),
            final(self).same_buf(old(self)),
            next == bookkeeping.next_read,
    {
        self.state.seek_bookkeeping_done(bookkeeping)
    }

    /// Takes the header.
    pub fn feed_header(&mut self, header: &[u8; HEADER_SIZE])
        requires
            old(self).wf(),
            old(self)@.verify.parser.read_next() is Header,
        ensures
            final(self).wf(),
            final(self)@ == (DecodeView {
                verify: old(self)@.verify.feed_header(le_value(header@) as u64),
                ..old(self)@
            }),
            final(self).same_buf(old(self)),
    {
        self.state.feed_header(header);
    }

    /// Verifies and takes a parent node.
    pub fn feed_parent(&mut self, parent: &[u8; PARENT_SIZE]) -> (result: Result<(), Error>)
        requires
            old(self).wf(),
            old(self)@.verify.parser.read_next() is Parent,
        ensures
            final(self).wf(),
            old(self)@.verify.accepts_parent(parent@) ==> {
                &&& result == Ok::<(), Error>(())
                &&& final(self)@ == (DecodeView {
                    verify: old(self)@.verify.advance_parent(parent@),
                    ..old(self)@
                })
            },
            !old(self)@.verify.accepts_parent(parent@) ==> {
                &&& result == Err::<(), Error>(Error::HashMismatch)
                &&& final(self)@ == old(self)@
            },
            final(self).same_buf(old(self)),
    {
        self.state.feed_parent(parent)
    }

    /// Copies buffered bytes to the front of `buf`, as many as there are and fit.
    pub fn take_bytes(&mut self, buf: &mut [u8]) -> (take: usize)
        requires
            old(self).wf(),
        ensures
            final(self).wf(),
            take == min(old(self)@.buf.len() as int, old(buf)@.len() as int),
            final(self)@ == old(self)@.deliver(old(buf)@.len() as int),
            final(self).raw_buf() == old(self).raw_buf(),
            final(self).spec_buf_range() == ((old(self).spec_buf_range().0 + take) as usize, old(
                self,
            ).spec_buf_range().1),
            final(buf)@ == old(self)@.delivered(old(buf)@.len() as int) + old(buf)@.skip(
                take as int,
            ),
    {
        let len: usize = self.buf_len();
        let take: usize = if len <= buf.len() {
            len
        } else {
            buf.len()
        };
        let bytes: &[u8] = self.buf.as_slice();
        let taken: &[u8] = &bytes[self.buf_start..self.buf_start + take];
        assert(taken@ =~= self@.buf.take(take as int));
        copy_front(buf, taken);
        self.buf_start = self.buf_start + take;
        assert(self@.buf =~= old(self)@.buf.skip(take as int));
        take
    }

    /// Verifies a chunk and hands out its bytes from `skip` on, as many as fit into `caller_buf`.
    /// The rest is buffered. The bytes go straight to `caller_buf` if all of them fit, and through
    /// the buffer if not. If the chunk fails to verify, the place where it would have gone is
    /// zeroed, so that none of its bytes can be mistaken for verified ones.
    pub fn feed_chunk(
        &mut self,
        chunk: &[u8],
        finalization: Finalization,
        skip: usize,
        caller_buf: &mut [u8],
    ) -> (result: Result<usize, Error>)
        requires
            old(self).wf(),
            old(self)@.buf.len() == 0,
            old(self)@.verify.parser.read_next() is Chunk,
            chunk@.len() == old(self)@.verify.parser.pending.last(),
            skip <= chunk@.len(),
        ensures
            final(self).wf(),
            old(self)@.accepts_chunk(chunk@, finalization) ==> {
                let buffered = old(self)@.buffer_chunk(chunk@, skip as int);
                let bytes = buffered.delivered(old(caller_buf)@.len() as int);
                &&& result == Ok::<usize, Error>(bytes.len() as usize)
                &&& final(self)@ == buffered.deliver(old(caller_buf)@.len() as int)
                &&& final(caller_buf)@ == bytes + old(caller_buf)@.skip(bytes.len() as int)
                &&& if skip == 0 && old(caller_buf)@.len() >= chunk@.len() {
                    final(self).same_buf(old(self))
                } else {
                    &&& final(self).raw_buf() == chunk@ + old(self).raw_buf().skip(
                        chunk@.len() as int,
                    )
                    &&& final(self).spec_buf_range() == (
                        (skip + bytes.len()) as usize,
                        chunk@.len() as usize,
                    )
                }
            },
            !old(self)@.accepts_chunk(chunk@, finalization) ==> {
                let size = chunk@.len() as int;
                let direct = skip == 0 && old(caller_buf)@.len() >= size;
                &&& result == Err::<usize, Error>(Error::HashMismatch)
                &&& final(self)@ == old(self)@
                &&& final(self).spec_buf_range() == old(self).spec_buf_range()
                &&& direct ==> {
                    &&& final(caller_buf)@ == zeroed(old(caller_buf)@, size)
                    &&& final(self).raw_buf() == old(self).raw_buf()
                }
                &&& !direct ==> {
                    &&& final(caller_buf)@ == old(caller_buf)@
                    &&& final(self).raw_buf() == zeroed(old(self).raw_buf(), size)
                }
            },
    {
        let size: usize = chunk.len();
        let direct: bool = caller_buf.len() >= size && skip == 0;
        let hash = hash_chunk(chunk, finalization);
        proof {
            self@.verify.parser.lemma_advance_chunk();
        }
        match self.state.feed_chunk(&hash) {
            Err(error) => {
                // If there's a hash mismatch, zero the destination buffer out of an abundance of
                // caution. This reduces the chance that some buffer handling bug exposes bad bytes
                // to the caller.
                if direct {
                    zero_front(caller_buf, size);
                } else {
                    zero_front(&mut self.buf, size);
                    assert(self@.buf =~= old(self)@.buf);
                }
                Err(error)
            },
            Ok(()) => {
                let ghost buffered = old(self)@.buffer_chunk(chunk@, skip as int);
                if direct {
                    copy_front(caller_buf, chunk);
                    assert(buffered.buf =~= chunk@);
                    assert(chunk@.take(size as int) =~= chunk@);
                    assert(self@ =~= buffered.deliver(old(caller_buf)@.len() as int));
                    Ok(size)
                } else {
                    copy_front(&mut self.buf, chunk);
                    self.buf_start = skip;
                    self.buf_end = size;
                    assert(self@ =~= buffered);
                    let take: usize = self.take_bytes(caller_buf);
                    Ok(take)
                }
            },
        }
    }
}

// What a Reader holds.
struct ReaderShared<'a> {
    input: Cursor<'a>,
    outboard: Option<Cursor<'a>>,
    core: DecodeState,
}

impl<'a> View for ReaderShared<'a> {
    type V = ReaderView;

    closed spec fn view(&self) -> ReaderView {
        ReaderView {
            input: self.input@,
            outboard: match self.outboard {
                Some(outboard) => Some(outboard@),
                None => None,
            },
            core: self.core@,
        }
    }
}

impl<'a> Clone for ReaderShared<'a> {
    fn clone(&self) -> (copy: Self)
        ensures
            copy@ == self@,
            self.wf() ==> copy.wf(),
    {
        ReaderShared { input: self.input, outboard: self.outboard, core: self.core.clone() }
    }
}

impl<'a> ReaderShared<'a> {
    pub closed spec fn wf(&self) -> bool {
        self.core.wf() && self@.wf()
    }

    fn new(
        input: Cursor<'a>,
        outboard: Option<Cursor<'a>>,
        hash: &crate::hash::Hash,
    ) -> (shared: Self)
        ensures
            shared.wf(),
            shared@ == (ReaderView {
                input: input@,
                outboard: match outboard {
                    Some(outboard) => Some(outboard@),
                    None => None,
                },
                core: DecodeView::start(hash@),
            }),
    {
        proof {
            input.lemma_position();
            if outboard is Some {
                outboard->0.lemma_position();
            }
        }
        ReaderShared { input, outboard, core: DecodeState::new(hash) }
    }

    fn read_header(&mut self) -> (result: Result<(), ReadError>)
        requires
            old(self).wf(),
            old(self)@.parser().read_next() is Header,
        ensures
            final(self).wf(),
            (final(self)@, result) == old(self)@.read_header(),
    {
        proof {
            self@.lemma_read_node();
        }
        let read = match &mut self.outboard {
            Some(outboard) => outboard.read_header(),
            None => self.input.read_header(),
        };
        match read {
            Ok(header) => {
                self.core.feed_header(&header);
                Ok(())
            },
            Err(error) => Err(error),
        }
    }

    fn read_parent(&mut self) -> (result: Result<(), ReadError>)
        requires
            old(self).wf(),
            old(self)@.parser().read_next() is Parent,
        ensures
            final(self).wf(),
            (final(self)@, result) == old(self)@.read_parent(),
    {
        proof {
            self@.lemma_read_node();
        }
        let read = match &mut self.outboard {
            Some(outboard) => outboard.read_parent(),
            None => self.input.read_parent(),
        };
        match read {
            Ok(parent) => match self.core.feed_parent(&parent) {
                Ok(()) => Ok(()),
                Err(error) => Err(ReadError::from(error)),
            },
            Err(error) => Err(error),
        }
    }

    // Read a verified chunk from the input. The caller_buf may be empty, in situations like
    // seeking where the caller isn't expecting to receive bytes.
    fn read_chunk(
        &mut self,
        size: usize,
        finalization: Finalization,
        skip: usize,
        caller_buf: &mut [u8],
    ) -> (result: Result<usize, ReadError>)
        requires
            old(self).wf(),
            old(self)@.core.buf.len() == 0,
            old(self)@.parser().read_next() is Chunk,
            size == old(self)@.parser().pending.last(),
            skip <= size,
        ensures
            final(self).wf(),
            ({
                let outcome = old(self)@.read_chunk(
                    size as int,
                    finalization,
                    skip as int,
                    old(caller_buf)@.len() as int,
                );
                &&& final(self)@ == outcome.after
                &&& result == outcome.count()
                &&& final(caller_buf)@ == outcome.fills(old(caller_buf)@)
                &&& outcome.result matches Err(error) ==> {
                    let direct = skip == 0 && old(caller_buf)@.len() >= size;
                    final(self).core.raw_buf() == zeroed(
                        old(self).core.raw_buf(),
                        if error == ReadError::Decode(Error::HashMismatch) && !direct {
                            size as int
                        } else {
                            0
                        },
                    )
                }
            }),
    {
        let ghost before = self@;
        assert(self.core.raw_buf() =~= zeroed(self.core.raw_buf(), 0));
        proof {
            before.lemma_read_chunk(
                size as int,
                finalization,
                skip as int,
                caller_buf@.len() as int,
            );
        }
        match self.input.read_exact(size) {
            Ok(chunk) => match self.core.feed_chunk(chunk, finalization, skip, caller_buf) {
                Ok(count) => Ok(count),
                Err(error) => Err(ReadError::from(error)),
            },
            Err(error) => Err(error),
        }
    }

    // Returns Ok(true) to indicate the seek is finished. This may read a chunk, but it never
    // leaves output bytes in the buffer, because the only time seeking reads a chunk it also
    // skips the entire thing.
    fn handle_seek_read(&mut self, next: NextRead) -> (result: Result<bool, ReadError>)
        requires
            old(self).wf(),
            old(self)@.core.buf.len() == 0,
            match next {
                NextRead::Header => old(self)@.parser().read_next() is Header,
                NextRead::Parent => old(self)@.parser().read_next() is Parent,
                NextRead::Chunk { size, finalization, skip } => {
                    &&& old(self)@.parser().read_next() is Chunk
                    &&& size == old(self)@.parser().pending.last()
                    &&& skip == size
                },
                NextRead::Done => true,
            },
        ensures
            final(self).wf(),
            (final(self)@, result) == old(self)@.seek_read(next),
    {
        match next {
            NextRead::Header => match self.read_header() {
                Ok(()) => Ok(false),
                Err(error) => Err(error),
            },
            NextRead::Parent => match self.read_parent() {
                Ok(()) => Ok(false),
                Err(error) => Err(error),
            },
            NextRead::Chunk { size, finalization, skip } => {
                let mut nothing: [u8; 0] = [];
                match self.read_chunk(size, finalization, skip, &mut nothing) {
                    Ok(_) => Ok(false),
                    Err(error) => Err(error),
                }
            },
            NextRead::Done => Ok(true),
        }
    }

    // Performs the underlying seek of a step. The VerifyState handles all the subtree stack
    // management.
    fn handle_seek_bookkeeping(&mut self, bookkeeping: SeekBookkeeping) -> (result: Result<
        NextRead,
        ReadError,
    >)
        requires
            old(self).wf(),
            old(self)@.core.buf.len() == 0,
            old(self)@.parser().is_step(bookkeeping),
        ensures
            final(self).wf(),
            final(self)@ == old(self)@.apply_seek(bookkeeping, true).0,
            result == (match old(self)@.apply_seek(bookkeeping, true).1 {
                Ok(_) => Ok::<NextRead, ReadError>(bookkeeping.next_read),
                Err(error) => Err(error),
            }),
    {
        proof {
            let seek_to = choose|seek_to: int|
                0 <= seek_to && bookkeeping == #[trigger] self@.parser().seek_next(seek_to);
            self@.lemma_apply_seek(seek_to, true);
            self@.parser().lemma_seek_next(seek_to);
        }
        match &mut self.outboard {
            Some(outboard) => {
                if let Some((content_pos, outboard_pos)) = bookkeeping.underlying_seek_outboard() {
                    self.input.seek(content_pos);
                    outboard.seek(outboard_pos);
                }
            },
            None => {
                if let Some(encoding_position) = bookkeeping.underlying_seek() {
                    match cast_offset(encoding_position) {
                        Ok(position) => self.input.seek(position),
                        Err(error) => {
                            return Err(error);
                        },
                    }
                }
            },
        }
        Ok(self.core.seek_bookkeeping_done(bookkeeping))
    }

    // One step of a seek with everything it moves and reads.
    fn seek_step(&mut self, bookkeeping: SeekBookkeeping, Ghost(seek_to): Ghost<int>) -> (result:
        Result<bool, ReadError>)
        requires
            old(self).wf(),
            old(self)@.core.buf.len() == 0,
            0 <= seek_to,
            bookkeeping == old(self)@.parser().seek_next(seek_to),
        ensures
            final(self).wf(),
            (final(self)@, result) == old(self)@.seek_step(seek_to, true),
    {
        proof {
            assert(self@.parser().is_step(self@.parser().seek_next(seek_to)));
            self@.lemma_apply_seek(seek_to, true);
            self@.parser().lemma_seek_move(seek_to);
        }
        match self.handle_seek_bookkeeping(bookkeeping) {
            Ok(next_read) => self.handle_seek_read(next_read),
            Err(error) => Err(error),
        }
    }

    // Reads the header and parents up to the next chunk, and the chunk. Returns zero at the end.
    fn read_next_chunk(&mut self, buf: &mut [u8]) -> (result: Result<usize, ReadError>)
        requires
            old(self).wf(),
            old(self)@.core.buf.len() == 0,
        ensures
            final(self).wf(),
            ({
                let outcome = old(self)@.read_next_chunk(old(buf)@.len() as int);
                &&& final(self)@ == outcome.after
                &&& result == outcome.count()
                &&& final(buf)@ == outcome.fills(old(buf)@)
            }),
    {
        loop
            invariant
                self.wf(),
                self@.core.buf.len() == 0,
                self@.descend() == old(self)@.descend(),
                buf@ == old(buf)@,
            decreases self@.rank(),
        {
            proof {
                self@.lemma_rank();
                self@.lemma_descend();
            }
            match self.core.read_next() {
                NextRead::Header => {
                    if let Err(error) = self.read_header() {
                        assert(buf@ =~= old(self)@.read_next_chunk(
                            old(buf)@.len() as int,
                        ).fills(old(buf)@));
                        return Err(error);
                    }
                },
                NextRead::Parent => {
                    if let Err(error) = self.read_parent() {
                        assert(buf@ =~= old(self)@.read_next_chunk(
                            old(buf)@.len() as int,
                        ).fills(old(buf)@));
                        return Err(error);
                    }
                },
                NextRead::Chunk { size, finalization, skip } => {
                    return self.read_chunk(size, finalization, skip, buf);
                },
                NextRead::Done => {
                    assert(buf@ =~= Seq::<u8>::empty() + old(buf)@.skip(0));
                    return Ok(0);
                },
            }
        }
    }
}

/// An incremental decoder, which reads and verifies an encoding in memory. This can work with both
/// combined and outboard encodings, depending on which constructor you use.
pub struct Reader<'a> {
    shared: ReaderShared<'a>,
}

impl<'a> View for Reader<'a> {
    type V = ReaderView;

    closed spec fn view(&self) -> ReaderView {
        self.shared@
    }
}

impl<'a> Clone for Reader<'a> {
    fn clone(&self) -> (copy: Self)
        ensures
            copy@ == self@,
            self.wf() ==> copy.wf(),
    {
        Reader { shared: self.shared.clone() }
    }
}

impl<'a> Reader<'a> {
    pub closed spec fn wf(&self) -> bool {
        self.shared.wf()
    }

    pub proof fn lemma_wf(&self)
        requires
            self.wf(),
        ensures
            self@.wf(),
            self@.core.buf.len() <= CHUNK_SIZE,
    {
        self.shared.core.lemma_wf();
    }

    /// A reader of a combined encoding.
    pub fn new(inner: Cursor<'a>, hash: &crate::hash::Hash) -> (reader: Self)
        ensures
            reader.wf(),
            reader@ == (ReaderView {
                input: inner@,
                outboard: None,
                core: DecodeView::start(hash@),
            }),
    {
        Reader { shared: ReaderShared::new(inner, None, hash) }
    }

    /// A reader of content with an outboard encoding.
    pub fn new_outboard(
        inner: Cursor<'a>,
        outboard: Cursor<'a>,
        hash: &crate::hash::Hash,
    ) -> (reader: Self)
        ensures
            reader.wf(),
            reader@ == (ReaderView {
                input: inner@,
                outboard: Some(outboard@),
                core: DecodeView::start(hash@),
            }),
    {
        Reader { shared: ReaderShared::new(inner, Some(outboard), hash) }
    }

    /// Reads some verified bytes to the front of `buf` and returns how many, none at the end.
    pub fn read(&mut self, buf: &mut [u8]) -> (result: Result<usize, ReadError>)
        requires
            old(self).wf(),
        ensures
            final(self).wf(),
            ({
                let outcome = old(self)@.read(old(buf)@.len() as int);
                &&& final(self)@ == outcome.after
                &&& result == outcome.count()
                &&& final(buf)@ == outcome.fills(old(buf)@)
            }),
    {
        // If we have bytes in our buffer, return those. Otherwise loop on read_next() until we
        // read a chunk or hit EOF.
        match self.shared.core.begin_read(buf) {
            Some(count) => Ok(count),
            None => self.shared.read_next_chunk(buf),
        }
    }

    /// Seeks in the content. This drops bytes that were read but not handed out yet.
    pub fn seek(&mut self, position: SeekFrom) -> (result: Result<u64, ReadError>)
        requires
            old(self).wf(),
        ensures
            final(self).wf(),
            (final(self)@, result) == old(self)@.seek_from(position),
    {
        proof {
            self.lemma_wf();
            self@.law_begin_seek(position);
        }
        let mut target = match self.shared.core.begin_seek(position) {
            Ok(target) => target,
            Err(error) => {
                assert(self@ =~= old(self)@.clear_buf());
                return Err(error);
            },
        };
        assert(self@ =~= old(self)@.clear_buf());
        loop
            invariant
                self.wf(),
                self@.can_seek(),
                self@.seek_on(target) == old(self)@.seek_from(position),
            decreases
                    target.rank(),
                    self@.header_rank(),
                    self@.reset_rank(target.goal()),
                    self@.work_rank(),
        {
            proof {
                self@.law_seek_on(target);
                self@.lemma_seek_rank(target.goal(), true);
            }
            let bookkeeping = match self.shared.core.next_seek(&mut target) {
                Ok(bookkeeping) => bookkeeping,
                Err(error) => {
                    return Err(error);
                },
            };
            match self.shared.seek_step(bookkeeping, Ghost(target.goal())) {
                Ok(done) => {
                    if done {
                        if let Some(seek_to) = target.offset() {
                            return Ok(seek_to);
                        }
                    }
                },
                Err(error) => {
                    return Err(error);
                },
            }
        }
    }

    /// Fills `buf` with verified bytes.
    pub fn read_exact(&mut self, buf: &mut [u8]) -> (result: Result<(), ReadError>)
        requires
            old(self).wf(),
        ensures
            final(self).wf(),
            (final(self)@, final(buf)@, result) == old(self)@.fill(old(buf)@, 0),
    {
        let mut done: usize = 0;
        let len: usize = buf.len();
        while done < len
            invariant
                self.wf(),
                done <= len == buf@.len(),
                self@.fill(buf@, done as int) == old(self)@.fill(old(buf)@, 0),
            decreases len - done,
        {
            let ghost before = buf@;
            let ghost reader = self@;
            proof {
                self.lemma_wf();
                reader.lemma_read(len - done);
            }
            let (front, rest) = buf.split_at_mut(done);
            let read = self.read(rest);
            proof {
                let outcome = reader.read(len - done);
                assert(rest@ == outcome.fills(before.skip(done as int)));
            }
            match read {
                Ok(count) => {
                    if count == 0 {
                        return Err(ReadError::UnexpectedEof);
                    }
                    done = done + count;
                },
                Err(error) => {
                    return Err(error);
                },
            }
        }
        Ok(())
    }

    /// Appends everything up to the end to `out`. After an error, `out` holds what came before.
    pub fn read_to_end(&mut self, out: &mut Vec<u8>) -> (result: Result<(), ReadError>)
        requires
            old(self).wf(),
        ensures
            final(self).wf(),
            ({
                let (after, bytes, drained) = old(self)@.drain();
                &&& final(self)@ == after
                &&& result == drained
                &&& final(out)@ == old(out)@ + bytes
            }),
    {
        let mut buf: [u8; CHUNK_SIZE] = [0u8; 4096];
        let ghost mut bytes: Seq<u8> = Seq::empty();
        proof {
            self.lemma_wf();
            assert(old(self)@.drain().1 =~= bytes + old(self)@.drain().1);
            assert(out@ =~= old(out)@ + bytes);
        }
        loop
            invariant
                self.wf(),
                self@.wf(),
                out@ == old(out)@ + bytes,
                ({
                    let (after, rest, drained) = self@.drain();
                    old(self)@.drain() == (after, bytes + rest, drained)
                }),
            decreases self@.header_rank(), self@.to_come(),
        {
            let ghost reader = self@;
            proof {
                reader.lemma_read_progress(CHUNK_SIZE as int);
            }
            match self.read(&mut buf) {
                Ok(count) => {
                    if count == 0 {
                        assert(bytes + Seq::<u8>::empty() =~= bytes);
                        return Ok(());
                    }
                    let read: &[u8] = &buf.as_slice()[0..count];
                    out.extend_from_slice(read);
                    proof {
                        let read_bytes = reader.read(CHUNK_SIZE as int).result->Ok_0;
                        assert(read@ =~= read_bytes);
                        let rest = self@.drain().1;
                        assert(bytes + (read_bytes + rest) =~= (bytes + read_bytes) + rest);
                        assert(out@ =~= old(out)@ + (bytes + read_bytes));
                        bytes = bytes + read_bytes;
                    }
                },
                Err(error) => {
                    assert(bytes + Seq::<u8>::empty() =~= bytes);
                    return Err(error);
                },
            }
        }
    }
}

/// The part of a slice reader that does no reading itself: it says what to read next, verifies what
/// was read, and hands out verified bytes of the slice.
///
/// A read calls [`begin_read`](Self::begin_read), and if that leaves something to be read, asks
/// [`read_next`](Self::read_next) and feeds what was read, until a chunk hands out bytes or nothing
/// is left.
pub struct SliceState {
    core: DecodeState,
    slice_start: u64,
    slice_remaining: u64,
    seeking: bool,
}

impl View for SliceState {
    type V = SliceStateView;

    closed spec fn view(&self) -> SliceStateView {
        SliceStateView {
            core: self.core@,
            start: self.slice_start,
            remaining: self.slice_remaining,
            seeking: self.seeking,
        }
    }
}

impl SliceState {
    pub closed spec fn wf(&self) -> bool {
        self.core.wf()
    }

    pub proof fn lemma_wf(&self)
        requires
            self.wf(),
        ensures
            self@.core.wf(),
            self@.core.buf.len() <= CHUNK_SIZE,
    {
        self.core.lemma_wf();
    }

    /// All that the buffer holds, whether it is still to be handed out or not.
    pub closed spec fn raw_buf(&self) -> Seq<u8> {
        self.core.raw_buf()
    }

    /// The state before a slice of `slice_len` bytes from `slice_start` on.
    pub fn new(hash: &crate::hash::Hash, slice_start: u64, slice_len: u64) -> (state: Self)
        ensures
            state.wf(),
            state@ == (SliceStateView {
                core: DecodeView::start(hash@),
                start: slice_start,
                remaining: slice_len,
                seeking: false,
            }),
    {
        SliceState {
            core: DecodeState::new(hash),
            slice_start,
            slice_remaining: slice_len,
            seeking: false,
        }
    }

    // How many bytes of a buffer of the given length the slice may still fill.
    fn want_bytes(&self, room: usize) -> (want: usize)
        ensures
            want == self@.want(room as int),
    {
        if self.slice_remaining < room as u64 {
            self.slice_remaining as usize
        } else {
            room
        }
    }

    /// Begins a read. Returns how many bytes it has handed out, or `None` if something has to be
    /// read first.
    pub fn begin_read(&mut self, buf: &mut [u8]) -> (count: Option<usize>)
        requires
            old(self).wf(),
        ensures
            final(self).wf(),
            final(self)@ == old(self)@.begin(old(buf)@.len() as int).0,
            match old(self)@.begin(old(buf)@.len() as int).1 {
                Some(bytes) => {
                    &&& count == Some(bytes.len() as usize)
                    &&& final(buf)@ == bytes + old(buf)@.skip(bytes.len() as int)
                },
                None => {
                    &&& count is None
                    &&& final(buf)@ == old(buf)@
                },
            },
    {
        // If we've already supplied all the requested slice bytes, quit.
        if self.slice_remaining == 0 {
            assert(buf@ =~= Seq::<u8>::empty() + buf@.skip(0));
            return Some(0);
        }
        // If we already have some bytes buffered, take those.
        if self.core.buf_len() > 0 {
            let ghost before = buf@;
            let want_bytes: usize = self.want_bytes(buf.len());
            let (want_buf, _) = buf.split_at_mut(want_bytes);
            let take: usize = self.core.take_bytes(want_buf);
            self.slice_remaining = self.slice_remaining - take as u64;
            assert(before.take(want_bytes as int).skip(take as int) + before.skip(
                want_bytes as int,
            ) =~= before.skip(take as int));
            return Some(take);
        }
        // If we haven't done the initial seek yet, the full seek loop comes first. Note that this
        // will never leave any buffered output. The only scenario where it reads a chunk is if it
        // needs to validate the final chunk, and then it skips the whole thing.
        self.seeking = self.core.content_position() < self.slice_start;
        None
    }

    /// What has to be read next.
    pub fn read_next(&mut self) -> (next: NextRead)
        requires
            old(self).wf(),
            old(self)@.core.buf.len() == 0,
        ensures
            final(self).wf(),
            (final(self)@, next) == old(self)@.next(),
    {
        if self.seeking {
            let bookkeeping = self.core.seek_next(self.slice_start);
            proof {
                let parser = self@.parser();
                assert(parser.is_step(parser.seek_next(self.slice_start as int)));
            }
            // We never perform any underlying seeks. Whoever made the slice already took care of
            // lining everything up for us.
            let next = self.core.seek_bookkeeping_done(bookkeeping);
            match next {
                NextRead::Done => {
                    self.seeking = false;
                },
                _ => {
                    return next;
                },
            }
        }
        self.core.read_next()
    }

    /// Takes the header.
    pub fn feed_header(&mut self, header: &[u8; HEADER_SIZE])
        requires
            old(self).wf(),
            old(self)@.parser().read_next() is Header,
        ensures
            final(self).wf(),
            final(self)@ == (SliceStateView {
                core: DecodeView {
                    verify: old(self)@.core.verify.feed_header(le_value(header@) as u64),
                    ..old(self)@.core
                },
                ..old(self)@
            }),
    {
        self.core.feed_header(header);
    }

    /// Verifies and takes a parent node.
    pub fn feed_parent(&mut self, parent: &[u8; PARENT_SIZE]) -> (result: Result<(), Error>)
        requires
            old(self).wf(),
            old(self)@.parser().read_next() is Parent,
        ensures
            final(self).wf(),
            old(self)@.core.verify.accepts_parent(parent@) ==> {
                &&& result == Ok::<(), Error>(())
                &&& final(self)@ == (SliceStateView {
                    core: DecodeView {
                        verify: old(self)@.core.verify.advance_parent(parent@),
                        ..old(self)@.core
                    },
                    ..old(self)@
                })
            },
            !old(self)@.core.verify.accepts_parent(parent@) ==> {
                &&& result == Err::<(), Error>(Error::HashMismatch)
                &&& final(self)@ == old(self)@
            },
    {
        self.core.feed_parent(parent)
    }

    /// Verifies a chunk and hands out its bytes from `skip` on, as many as fit into `caller_buf`
    /// and are left of the slice. Returns how many, or `None` on the way to the start of the slice.
    pub fn feed_chunk(
        &mut self,
        chunk: &[u8],
        finalization: Finalization,
        skip: usize,
        caller_buf: &mut [u8],
    ) -> (result: Result<Option<usize>, Error>)
        requires
            old(self).wf(),
            old(self)@.core.buf.len() == 0,
            old(self)@.parser().read_next() is Chunk,
            chunk@.len() == old(self)@.parser().pending.last(),
            skip <= chunk@.len(),
        ensures
            final(self).wf(),
            old(self)@.core.accepts_chunk(chunk@, finalization) ==> {
                let (after, bytes) = old(self)@.take_chunk(
                    chunk@,
                    skip as int,
                    old(caller_buf)@.len() as int,
                );
                &&& result == Ok::<Option<usize>, Error>(
                    if old(self)@.seeking {
                        None
                    } else {
                        Some(bytes.len() as usize)
                    },
                )
                &&& final(self)@ == after
                &&& final(caller_buf)@ == bytes + old(caller_buf)@.skip(bytes.len() as int)
            },
            !old(self)@.core.accepts_chunk(chunk@, finalization) ==> {
                let size = chunk@.len() as int;
                let direct = skip == 0 && old(self)@.chunk_room(old(caller_buf)@.len() as int)
                    >= size;
                &&& result == Err::<Option<usize>, Error>(Error::HashMismatch)
                &&& final(self)@ == old(self)@
                &&& direct ==> {
                    &&& final(caller_buf)@ == zeroed(old(caller_buf)@, size)
                    &&& final(self).raw_buf() == old(self).raw_buf()
                }
                &&& !direct ==> {
                    &&& final(caller_buf)@ == old(caller_buf)@
                    &&& final(self).raw_buf() == zeroed(old(self).raw_buf(), size)
                }
            },
    {
        let ghost before = caller_buf@;
        assert(before =~= zeroed(before, 0));
        if self.seeking {
            let mut nothing: [u8; 0] = [];
            let fed = self.core.feed_chunk(chunk, finalization, skip, &mut nothing);
            assert(caller_buf@ =~= Seq::<u8>::empty() + before.skip(0));
            return match fed {
                Ok(_) => Ok(None),
                Err(error) => Err(error),
            };
        }
        let want_bytes: usize = self.want_bytes(caller_buf.len());
        let (want_buf, _) = caller_buf.split_at_mut(want_bytes);
        match self.core.feed_chunk(chunk, finalization, skip, want_buf) {
            Ok(count) => {
                self.slice_remaining = self.slice_remaining - count as u64;
                assert(before.take(want_bytes as int).skip(count as int) + before.skip(
                    want_bytes as int,
                ) =~= before.skip(count as int));
                Ok(Some(count))
            },
            Err(error) => {
                assert(caller_buf@ =~= if skip == 0 && want_bytes >= chunk.len() {
                    zeroed(before, chunk@.len() as int)
                } else {
                    before
                });
                Err(error)
            },
        }
    }
}

/// An incremental slice decoder. This reads and verifies a slice in memory.
///
/// Note that there is no such thing as an "outboard slice". All slices include the content chunks
/// and intermediate hashes intermixed, as in the combined encoding mode.
///
/// This reader doesn't seek. If you only want part of a slice, you should request a different slice
/// with the parameters you actually want.
pub struct SliceReader<'a> {
    inner: Cursor<'a>,
    state: SliceState,
}

impl<'a> View for SliceReader<'a> {
    type V = SliceView;

    closed spec fn view(&self) -> SliceView {
        SliceView {
            reader: ReaderView { input: self.inner@, outboard: None, core: self.state@.core },
            start: self.state@.start,
            remaining: self.state@.remaining,
        }
    }
}

impl<'a> SliceReader<'a> {
    pub closed spec fn wf(&self) -> bool {
        self.state.wf()
    }

    pub proof fn lemma_wf(&self)
        requires
            self.wf(),
        ensures
            self@.wf(),
            self@.reader.core.buf.len() <= CHUNK_SIZE,
    {
        self.state.lemma_wf();
        self.inner.lemma_position();
    }

    /// A reader of the slice of `slice_len` bytes from `slice_start` on.
    pub fn new(
        inner: Cursor<'a>,
        hash: &crate::hash::Hash,
        slice_start: u64,
        slice_len: u64,
    ) -> (reader: Self)
        ensures
            reader.wf(),
            reader@ == (SliceView {
                reader: ReaderView {
                    input: inner@,
                    outboard: None,
                    core: DecodeView::start(hash@),
                },
                start: slice_start,
                remaining: slice_len,
            }),
    {
        SliceReader { inner, state: SliceState::new(hash, slice_start, slice_len) }
    }

    fn read_header(&mut self) -> (result: Result<(), ReadError>)
        requires
            old(self).wf(),
            old(self)@.reader.parser().read_next() is Header,
        ensures
            final(self).wf(),
            (final(self)@.reader, result) == old(self)@.reader.read_header(),
            final(self)@ == (SliceView { reader: final(self)@.reader, ..old(self)@ }),
            final(self).state@.seeking == old(self).state@.seeking,
    {
        match self.inner.read_header() {
            Ok(header) => {
                self.state.feed_header(&header);
                Ok(())
            },
            Err(error) => Err(error),
        }
    }

    fn read_parent(&mut self) -> (result: Result<(), ReadError>)
        requires
            old(self).wf(),
            old(self)@.reader.parser().read_next() is Parent,
        ensures
            final(self).wf(),
            (final(self)@.reader, result) == old(self)@.reader.read_parent(),
            final(self)@ == (SliceView { reader: final(self)@.reader, ..old(self)@ }),
            final(self).state@.seeking == old(self).state@.seeking,
    {
        match self.inner.read_parent() {
            Ok(parent) => match self.state.feed_parent(&parent) {
                Ok(()) => Ok(()),
                Err(error) => Err(ReadError::from(error)),
            },
            Err(error) => Err(error),
        }
    }

    // Reads a chunk. Returns how many of its bytes were handed out, or None while seeking.
    fn read_chunk(
        &mut self,
        size: usize,
        finalization: Finalization,
        skip: usize,
        buf: &mut [u8],
    ) -> (result: Result<Option<usize>, ReadError>)
        requires
            old(self).wf(),
            old(self)@.reader.wf(),
            old(self)@.reader.core.buf.len() == 0,
            old(self)@.reader.parser().read_next() is Chunk,
            size == old(self)@.reader.parser().pending.last(),
            skip <= size,
        ensures
            final(self).wf(),
            ({
                let seeking = old(self).state@.seeking;
                let outcome = old(self)@.reader.read_chunk(
                    size as int,
                    finalization,
                    skip as int,
                    old(self).state@.chunk_room(old(buf)@.len() as int),
                );
                &&& final(self)@.reader == outcome.after
                &&& final(self)@.start == old(self)@.start
                &&& final(self).state@.seeking == seeking
                &&& final(buf)@ == outcome.fills(old(buf)@)
                &&& match outcome.result {
                    Ok(bytes) => {
                        &&& result == Ok::<Option<usize>, ReadError>(
                            if seeking {
                                None
                            } else {
                                Some(bytes.len() as usize)
                            },
                        )
                        &&& final(self)@.remaining == old(self)@.remaining - bytes.len()
                    },
                    Err(error) => {
                        let direct = skip == 0 && old(self).state@.chunk_room(
                            old(buf)@.len() as int,
                        ) >= size;
                        &&& result == Err::<Option<usize>, ReadError>(error)
                        &&& final(self)@.remaining == old(self)@.remaining
                        &&& final(self).state.raw_buf() == zeroed(
                            old(self).state.raw_buf(),
                            if error == ReadError::Decode(Error::HashMismatch) && !direct {
                                size as int
                            } else {
                                0
                            },
                        )
                    },
                }
            }),
    {
        let ghost before = buf@;
        let ghost from = self@.reader;
        assert(self.state.raw_buf() =~= zeroed(self.state.raw_buf(), 0));
        let ghost room: int = self.state@.chunk_room(before.len() as int);
        let ghost outcome = from.read_chunk(size as int, finalization, skip as int, room);
        proof {
            from.lemma_read_chunk(size as int, finalization, skip as int, room);
        }
        match self.inner.read_exact(size) {
            Ok(chunk) => match self.state.feed_chunk(chunk, finalization, skip, buf) {
                Ok(count) => Ok(count),
                Err(error) => {
                    assert(buf@ =~= outcome.fills(before));
                    Err(ReadError::from(error))
                },
            },
            Err(error) => {
                assert(buf@ =~= outcome.fills(before));
                Err(error)
            },
        }
    }

    // Moves to the next node, and returns what it is.
    fn next_node(&mut self) -> (next: NextRead)
        requires
            old(self).wf(),
            old(self)@.reader.core.buf.len() == 0,
        ensures
            final(self).wf(),
            (final(self)@.reader, final(self).state@.seeking, next)
                == old(self)@.reader.slice_step(
                old(self).state@.seeking,
                old(self)@.start as int,
            ),
            final(self)@ == (SliceView { reader: final(self)@.reader, ..old(self)@ }),
    {
        proof {
            reveal(ReaderView::slice_step);
        }
        self.state.read_next()
    }

    // Reads the nodes up to the next chunk that hands out bytes, or up to the end.
    fn read_nodes(&mut self, buf: &mut [u8]) -> (result: Result<usize, ReadError>)
        requires
            old(self).wf(),
            old(self)@.reader.can_seek(),
        ensures
            final(self).wf(),
            ({
                let outcome = old(self)@.reader.read_on(
                    old(self).state@.seeking,
                    old(self)@.start as int,
                    old(self).state@.want(old(buf)@.len() as int),
                );
                &&& final(self)@.reader == outcome.after
                &&& final(self)@.start == old(self)@.start
                &&& result == outcome.count()
                &&& final(buf)@ == outcome.fills(old(buf)@)
                &&& match outcome.result {
                    Ok(bytes) => final(self)@.remaining == old(self)@.remaining - bytes.len(),
                    Err(_) => final(self)@.remaining == old(self)@.remaining,
                }
            }),
    {
        let ghost start: int = self@.start as int;
        let ghost want: int = self.state@.want(buf@.len() as int);
        let ghost outcome = self@.reader.read_on(self.state@.seeking, start, want);
        loop
            invariant
                self.wf(),
                self@.reader.can_seek(),
                self@.start == old(self)@.start,
                self@.remaining == old(self)@.remaining,
                buf@ == old(buf)@,
                start == old(self)@.start,
                want == old(self).state@.want(old(buf)@.len() as int),
                want == self.state@.want(buf@.len() as int),
                outcome == old(self)@.reader.read_on(old(self).state@.seeking, start, want),
                outcome == self@.reader.read_on(self.state@.seeking, start, want),
            decreases
                    (if self.state@.seeking {
                        1int
                    } else {
                        0
                    }),
                    (if self.state@.seeking {
                        self@.reader.header_rank()
                    } else {
                        0
                    }),
                    (if self.state@.seeking {
                        self@.reader.reset_rank(start)
                    } else {
                        0
                    }),
                    (if self.state@.seeking {
                        self@.reader.work_rank()
                    } else {
                        self@.reader.rank()
                    }),
        {
            let ghost from = self@.reader;
            let ghost seeking = self.state@.seeking;
            let next = self.next_node();
            proof {
                from.lemma_read_on_node(seeking, start, want);
                from.lemma_read_on_chunk(seeking, start, want);
            }
            match next {
                NextRead::Header => {
                    if let Err(error) = self.read_header() {
                        assert(buf@ =~= outcome.fills(buf@));
                        return Err(error);
                    }
                },
                NextRead::Parent => {
                    if let Err(error) = self.read_parent() {
                        assert(buf@ =~= outcome.fills(buf@));
                        return Err(error);
                    }
                },
                NextRead::Chunk { size, finalization, skip } => {
                    match self.read_chunk(size, finalization, skip, buf) {
                        Ok(Some(count)) => {
                            return Ok(count);
                        },
                        Ok(None) => {
                            assert(buf@ =~= old(buf)@);
                        },
                        Err(error) => {
                            assert(buf@ =~= outcome.fills(old(buf)@));
                            return Err(error);
                        },
                    }
                },
                NextRead::Done => {
                    assert(buf@ =~= outcome.fills(buf@));
                    return Ok(0);
                },
            }
            proof {
                from.lemma_read_on_rank(seeking, start, self@.reader);
            }
        }
    }

    /// Reads some verified bytes of the slice to the front of `buf` and returns how many, none at
    /// the end of the slice or of the content.
    pub fn read(&mut self, buf: &mut [u8]) -> (result: Result<usize, ReadError>)
        requires
            old(self).wf(),
        ensures
            final(self).wf(),
            ({
                let outcome = old(self)@.read(old(buf)@.len() as int);
                &&& final(self)@ == old(self)@.after_read(old(buf)@.len() as int)
                &&& result == outcome.count()
                &&& final(buf)@ == outcome.fills(old(buf)@)
            }),
    {
        proof {
            self.lemma_wf();
            self@.lemma_read(buf@.len() as int);
        }
        if let Some(count) = self.state.begin_read(buf) {
            return Ok(count);
        }
        // If there was no output at hand, we need to actually start (or continue) parsing the
        // slice, until we either read a chunk or hit EOF.
        proof {
            reveal(ReaderView::read_on);
        }
        self.read_nodes(buf)
    }
}

impl<'a> SliceReader<'a> {
    /// Appends everything up to the end of the slice to `out`. After an error, `out` holds what
    /// came before.
    pub fn read_to_end(&mut self, out: &mut Vec<u8>) -> (result: Result<(), ReadError>)
        requires
            old(self).wf(),
        ensures
            final(self).wf(),
            ({
                let (after, bytes, drained) = old(self)@.drain();
                &&& final(self)@ == after
                &&& result == drained
                &&& final(out)@ == old(out)@ + bytes
            }),
    {
        let mut buf: [u8; CHUNK_SIZE] = [0u8; 4096];
        let ghost mut bytes: Seq<u8> = Seq::empty();
        proof {
            self.lemma_wf();
            assert(old(self)@.drain().1 =~= bytes + old(self)@.drain().1);
            assert(out@ =~= old(out)@ + bytes);
        }
        loop
            invariant
                self.wf(),
                self@.wf(),
                out@ == old(out)@ + bytes,
                ({
                    let (after, rest, drained) = self@.drain();
                    old(self)@.drain() == (after, bytes + rest, drained)
                }),
            decreases self@.remaining,
        {
            let ghost reader = self@;
            proof {
                reader.lemma_read(CHUNK_SIZE as int);
            }
            match self.read(&mut buf) {
                Ok(count) => {
                    if count == 0 {
                        assert(bytes + Seq::<u8>::empty() =~= bytes);
                        return Ok(());
                    }
                    let read: &[u8] = &buf.as_slice()[0..count];
                    out.extend_from_slice(read);
                    proof {
                        let read_bytes = reader.read(CHUNK_SIZE as int).result->Ok_0;
                        assert(read@ =~= read_bytes);
                        let rest = self@.drain().1;
                        assert(bytes + (read_bytes + rest) =~= (bytes + read_bytes) + rest);
                        assert(out@ =~= old(out)@ + (bytes + read_bytes));
                        bytes = bytes + read_bytes;
                    }
                },
                Err(error) => {
                    assert(bytes + Seq::<u8>::empty() =~= bytes);
                    return Err(error);
                },
            }
        }
    }
}

/// Given a combined encoding, quickly determine the root hash by reading just the root node.
pub fn hash_from_encoded(reader: &mut Cursor) -> (result: Result<crate::hash::Hash, ReadError>)
    ensures
        match hash_from_encoded_spec(old(reader)@) {
            Ok(hash) => result is Ok && result->Ok_0@ == hash,
            Err(error) => result is Err && result->Err_0 == error,
        },
        final(reader)@ == after_root_encoded(old(reader)@),
{
    let header = match reader.read_header() {
        Ok(header) => header,
        Err(error) => {
            return Err(error);
        },
    };
    let content_len: u64 = decode_len(&header);
    if content_len <= CHUNK_SIZE as u64 {
        match reader.read_exact(content_len as usize) {
            Ok(chunk) => Ok(hash_chunk(chunk, Finalization::Root)),
            Err(error) => Err(error),
        }
    } else {
        match reader.read_parent() {
            Ok(parent) => Ok(hash_parent(&parent, Finalization::Root)),
            Err(error) => Err(error),
        }
    }
}

/// Given an outboard encoding and its content, quickly determine the root hash by reading just the
/// root node.
pub fn hash_from_outboard(content_reader: &mut Cursor, outboard_reader: &mut Cursor) -> (result:
    Result<crate::hash::Hash, ReadError>)
    ensures
        match hash_from_outboard_spec(old(content_reader)@, old(outboard_reader)@) {
            Ok(hash) => result is Ok && result->Ok_0@ == hash,
            Err(error) => result is Err && result->Err_0 == error,
        },
        (final(content_reader)@, final(outboard_reader)@) == after_root_outboard(
            old(content_reader)@,
            old(outboard_reader)@,
        ),
{
    let header = match outboard_reader.read_header() {
        Ok(header) => header,
        Err(error) => {
            return Err(error);
        },
    };
    let content_len: u64 = decode_len(&header);
    if content_len <= CHUNK_SIZE as u64 {
        match content_reader.read_exact(content_len as usize) {
            Ok(chunk) => Ok(hash_chunk(chunk, Finalization::Root)),
            Err(error) => Err(error),
        }
    } else {
        match outboard_reader.read_parent() {
            Ok(parent) => Ok(hash_parent(&parent, Finalization::Root)),
            Err(error) => Err(error),
        }
    }
}

/// Decode an entire combined encoding into a bytes vector. This is a convenience wrapper around
/// [`Reader`].
///
/// It succeeds exactly if `encoded` starts with the encoding of some content that has the root hash
/// `hash`, and then returns that content.
pub fn decode(encoded: &[u8], hash: &crate::hash::Hash) -> (result: Result<Vec<u8>, ReadError>)
    ensures
        result matches Ok(content) ==> {
            &&& root_hash(content@) == hash@
            &&& found_at(combined_encoding(content@), encoded@, 0)
        },
        result matches Err(error) ==> error is Decode,
        (result matches Err(error) && error == ReadError::Decode(Error::Truncated)) <==> too_short(
            encoded@,
        ),
        (result matches Err(error) && error == ReadError::Decode(Error::HashMismatch)) <==> {
            &&& !too_short(encoded@)
            &&& forall|content: Seq<u8>| #[trigger]
                root_hash(content) == hash@ ==> !found_at(combined_encoding(content), encoded@, 0)
        },
        forall|content: Seq<u8>| #[trigger]
            root_hash(content) == hash@ && found_at(combined_encoding(content), encoded@, 0) ==> (
            result matches Ok(decoded) && decoded@ == content),
{
    let encoded_len: usize = encoded.len();
    proof {
        assert forall|other: Seq<u8>| #[trigger]
            root_hash(other) == hash@ && found_at(combined_encoding(other), encoded@, 0) implies
            !too_short(encoded@) && other.len() <= u64::MAX by {
            lemma_long_enough(encoded@, other);
        }
    }
    let mut header_cursor = Cursor::new(encoded);
    let header = match header_cursor.read_header() {
        Ok(header) => header,
        Err(_) => {
            return Err(ReadError::Decode(Error::Truncated));
        },
    };
    let content_len: u64 = decode_len(&header);
    assert(header@ =~= encoded@.take(HEADER_SIZE as int));
    // Sanity check the length before making a potentially large allocation.
    if (encoded_len as u128) < encoded_size(content_len) {
        return Err(ReadError::Decode(Error::Truncated));
    }
    proof {
        lemma_parents_size_bound(content_len as int);
    }
    let mut content: Vec<u8> = vec![0u8; content_len as usize];
    let mut reader = Reader::new(Cursor::new(encoded), hash);
    proof {
        reader.lemma_wf();
        assert(reader@.input.next(HEADER_SIZE as int) =~= encoded@.take(HEADER_SIZE as int));
        reader@.lemma_decode_at_once(content@);
        assert forall|other: Seq<u8>| #[trigger]
            root_hash(other) == hash@ && found_at(combined_encoding(other), encoded@, 0) implies
            reader@.holds(other) by {
        }
    }
    match reader.read_exact(content.as_mut_slice()) {
        Ok(_) => {},
        Err(error) => {
            return Err(error);
        },
    }
    // One more read to confirm EOF. This is unnecessary most of the time, but in the empty
    // encoding case read_exact won't do any reads at all, and the Ok return from this call will be
    // the only thing that verifies the hash.
    let mut end: [u8; 1] = [0u8; 1];
    match reader.read(&mut end) {
        Ok(_) => {},
        Err(error) => {
            return Err(error);
        },
    }
    proof {
        assert forall|other: Seq<u8>| #[trigger]
            root_hash(other) == hash@ && found_at(combined_encoding(other), encoded@, 0) implies
            content@ == other by {
            law_encoding_unique(encoded@, content@, other);
        }
    }
    Ok(content)
}

} // verus!
