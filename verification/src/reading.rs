//! What readers do, as functions on their states: which bytes they take from where, what they hand
//! out, and how they fail.

use vstd::prelude::*;

use crate::error::{offset_target, Error, ReadError};
use crate::hash::{le_value, Finalization, Node, CHUNK_SIZE, HEADER_SIZE, PARENT_SIZE};
use crate::parse::{
    lemma_skip_subtrees, lemma_total_nonnegative, total, total_parents, NextRead, ParseView,
    SeekBookkeeping,
};
use crate::source::{zeroed, SourceView};
use crate::tree::lemma_left_part;
use crate::verify::VerifyView;

verus! {

/// A verifier, and verified bytes that were not handed out yet.
#[verifier::ext_equal]
pub struct DecodeView {
    pub verify: VerifyView,
    pub buf: Seq<u8>,
}

pub open spec fn min(a: int, b: int) -> int {
    if a <= b {
        a
    } else {
        b
    }
}

impl DecodeView {
    pub open spec fn start(root_hash: Seq<u8>) -> DecodeView {
        DecodeView { verify: VerifyView::start(root_hash), buf: Seq::empty() }
    }

    /// Whether the verifier is well-formed and the buffered bytes are those before its position.
    pub open spec fn wf(self) -> bool {
        &&& self.verify.wf()
        &&& self.buf.len() <= self.verify.parser.position
        &&& self.buf.len() > 0 ==> self.verify.parser.skip == 0
    }

    /// The bytes that a caller with room for `room` gets of those that are buffered.
    pub open spec fn delivered(self, room: int) -> Seq<u8> {
        self.buf.take(min(self.buf.len() as int, room))
    }

    /// The state once `room` bytes at most were handed out.
    pub open spec fn deliver(self, room: int) -> DecodeView {
        DecodeView { buf: self.buf.skip(min(self.buf.len() as int, room)), ..self }
    }

    /// Whether `chunk` has the hash that the next node must have.
    pub open spec fn accepts_chunk(self, chunk: Seq<u8>, finalization: Finalization) -> bool {
        Node::chunk(chunk, finalization).hash() == self.verify.stack.last()
    }

    /// The state behind `chunk`, with all but its first `skip` bytes buffered.
    pub open spec fn buffer_chunk(self, chunk: Seq<u8>, skip: int) -> DecodeView {
        DecodeView { verify: self.verify.advance_chunk(), buf: chunk.skip(skip) }
    }
}

/// A reader: where it reads content, where it reads parents if that is elsewhere, and how far it
/// has got.
#[verifier::ext_equal]
pub struct ReaderView {
    pub input: SourceView,
    pub outboard: Option<SourceView>,
    pub core: DecodeView,
}

/// What became of a read.
#[verifier::ext_equal]
pub struct Outcome {
    /// The reader after it.
    pub after: ReaderView,
    /// The bytes that were handed out, or why there are none.
    pub result: Result<Seq<u8>, ReadError>,
    /// How many bytes of the caller's buffer were set to zero because they failed to verify.
    pub cleared: int,
}

impl Outcome {
    /// What the caller's buffer holds.
    pub open spec fn fills(self, before: Seq<u8>) -> Seq<u8> {
        match self.result {
            Ok(bytes) => bytes + before.skip(bytes.len() as int),
            Err(_) => zeroed(before, self.cleared),
        }
    }

    /// How many bytes were handed out, or why there are none.
    pub open spec fn count(self) -> Result<usize, ReadError> {
        match self.result {
            Ok(bytes) => Ok(bytes.len() as usize),
            Err(error) => Err(error),
        }
    }
}

impl ReaderView {
    pub open spec fn parser(self) -> ParseView {
        self.core.verify.parser
    }

    pub open spec fn wf(self) -> bool {
        &&& self.core.wf()
        &&& 0 <= self.input.position
        &&& self.outboard matches Some(outboard) ==> 0 <= outboard.position
    }

    /// Where the header and the parents come from.
    pub open spec fn nodes(self) -> SourceView {
        match self.outboard {
            Some(outboard) => outboard,
            None => self.input,
        }
    }

    pub open spec fn advance_nodes(self, count: int) -> ReaderView {
        match self.outboard {
            Some(outboard) => ReaderView { outboard: Some(outboard.advance(count)), ..self },
            None => ReaderView { input: self.input.advance(count), ..self },
        }
    }

    pub open spec fn with_verify(self, verify: VerifyView) -> ReaderView {
        ReaderView { core: DecodeView { verify, ..self.core }, ..self }
    }

    /// Reads the header.
    pub open spec fn read_header(self) -> (ReaderView, Result<(), ReadError>) {
        if self.nodes().has(HEADER_SIZE as int) {
            let len = le_value(self.nodes().next(HEADER_SIZE as int)) as u64;
            let moved = self.advance_nodes(HEADER_SIZE as int);
            (moved.with_verify(self.core.verify.feed_header(len)), Ok(()))
        } else {
            (self, Err(ReadError::UnexpectedEof))
        }
    }

    /// Reads and verifies a parent.
    pub open spec fn read_parent(self) -> (ReaderView, Result<(), ReadError>) {
        if self.nodes().has(PARENT_SIZE as int) {
            let parent = self.nodes().next(PARENT_SIZE as int);
            let moved = self.advance_nodes(PARENT_SIZE as int);
            if self.core.verify.accepts_parent(parent) {
                (moved.with_verify(self.core.verify.advance_parent(parent)), Ok(()))
            } else {
                (moved, Err(ReadError::Decode(Error::HashMismatch)))
            }
        } else {
            (self, Err(ReadError::UnexpectedEof))
        }
    }

    /// Reads and verifies a chunk for a caller with room for `room` bytes.
    pub open spec fn read_chunk(
        self,
        size: int,
        finalization: Finalization,
        skip: int,
        room: int,
    ) -> Outcome {
        if self.input.has(size) {
            let chunk = self.input.next(size);
            let moved = ReaderView { input: self.input.advance(size), ..self };
            if self.core.accepts_chunk(chunk, finalization) {
                let core = self.core.buffer_chunk(chunk, skip);
                Outcome {
                    after: ReaderView { core: core.deliver(room), ..moved },
                    result: Ok(core.delivered(room)),
                    cleared: 0,
                }
            } else {
                Outcome {
                    after: moved,
                    result: Err(ReadError::Decode(Error::HashMismatch)),
                    cleared: if skip == 0 && room >= size {
                        size
                    } else {
                        0
                    },
                }
            }
        } else {
            Outcome {
                after: self,
                result: Err(ReadError::UnexpectedEof),
                cleared: 0,
            }
        }
    }

    /// Bounds how many nodes lie above the next chunk.
    pub open spec fn rank(self) -> int {
        if self.parser().content_len is None {
            0x1_0000_0000_0000_0000
        } else if self.parser().pending.len() == 0 {
            0
        } else {
            self.parser().pending.last()
        }
    }

    /// Reads the header and the parents that lie before the next chunk, or before the end.
    pub open spec fn descend(self) -> (ReaderView, Result<(), ReadError>)
        decreases self.rank(),
        when self.wf()
    {
        proof {
            self.lemma_rank();
        }
        match self.parser().read_next() {
            NextRead::Header => match self.read_header() {
                (after, Ok(_)) => after.descend(),
                (after, Err(error)) => (after, Err(error)),
            },
            NextRead::Parent => match self.read_parent() {
                (after, Ok(_)) => after.descend(),
                (after, Err(error)) => (after, Err(error)),
            },
            _ => (self, Ok(())),
        }
    }

    pub proof fn lemma_rank(self)
        requires
            self.wf(),
        ensures
            self.parser().read_next() is Header && self.read_header().1 is Ok ==> 0
                <= self.read_header().0.rank() < self.rank(),
            self.parser().read_next() is Parent && self.read_parent().1 is Ok ==> 0
                <= self.read_parent().0.rank() < self.rank(),
    {
        if self.parser().read_next() is Parent {
            lemma_left_part(self.parser().pending.last());
        }
    }

    /// Reads for a caller with room for `room` bytes: bytes that are buffered, or else the next
    /// chunk, or nothing at the end.
    pub open spec fn read(self, room: int) -> Outcome {
        if self.core.buf.len() > 0 {
            Outcome {
                after: ReaderView { core: self.core.deliver(room), ..self },
                result: Ok(self.core.delivered(room)),
                cleared: 0,
            }
        } else {
            self.read_next_chunk(room)
        }
    }

    /// Reads the next chunk, or nothing at the end.
    pub open spec fn read_next_chunk(self, room: int) -> Outcome {
        match self.descend() {
            (after, Ok(_)) => match after.parser().read_next() {
                NextRead::Chunk { size, finalization, skip } => after.read_chunk(
                    size as int,
                    finalization,
                    skip as int,
                    room,
                ),
                _ => Outcome { after, result: Ok(Seq::empty()), cleared: 0 },
            },
            (after, Err(error)) => Outcome { after, result: Err(error), cleared: 0 },
        }
    }

    /// Moves to where a step of a seek leads. With `jump`, the sources move there too.
    pub open spec fn apply_seek(
        self,
        bookkeeping: SeekBookkeeping,
        jump: bool,
    ) -> (ReaderView, Result<(), ReadError>) {
        let moved = self.with_verify(self.core.verify.after_seek(bookkeeping));
        match (bookkeeping.encoding_position, self.outboard) {
            (Some(encoding_position), Some(outboard)) if jump => {
                let content_position = bookkeeping.position as int;
                (
                    ReaderView {
                        input: SourceView { position: content_position, ..self.input },
                        outboard: Some(
                            SourceView {
                                position: encoding_position - content_position,
                                ..outboard
                            },
                        ),
                        ..moved
                    },
                    Ok(()),
                )
            },
            (Some(encoding_position), None) if jump => {
                if encoding_position <= u64::MAX {
                    let input = SourceView { position: encoding_position as int, ..self.input };
                    (ReaderView { input, ..moved }, Ok(()))
                } else {
                    (self, Err(ReadError::SeekOffsetOverflow))
                }
            },
            _ => (moved, Ok(())),
        }
    }

    /// Reads what a step of a seek calls for, and returns whether the seek is finished.
    pub open spec fn seek_read(self, next: NextRead) -> (ReaderView, Result<bool, ReadError>) {
        match next {
            NextRead::Header => match self.read_header() {
                (after, Ok(_)) => (after, Ok(false)),
                (after, Err(error)) => (after, Err(error)),
            },
            NextRead::Parent => match self.read_parent() {
                (after, Ok(_)) => (after, Ok(false)),
                (after, Err(error)) => (after, Err(error)),
            },
            NextRead::Chunk { size, finalization, skip } => {
                let outcome = self.read_chunk(size as int, finalization, skip as int, 0);
                match outcome.result {
                    Ok(_) => (outcome.after, Ok(false)),
                    Err(error) => (outcome.after, Err(error)),
                }
            },
            NextRead::Done => (self, Ok(true)),
        }
    }

    /// One step of a seek, and whether it was the last.
    pub open spec fn seek_step(
        self,
        seek_to: int,
        jump: bool,
    ) -> (ReaderView, Result<bool, ReadError>) {
        let bookkeeping = self.parser().seek_next(seek_to);
        match self.apply_seek(bookkeeping, jump) {
            (moved, Ok(_)) => moved.seek_read(bookkeeping.next_read),
            (moved, Err(error)) => (moved, Err(error)),
        }
    }

    /// Whether the header is still to be read.
    pub open spec fn header_rank(self) -> int {
        if self.parser().content_len is None {
            1
        } else {
            0
        }
    }

    /// Whether a seek has to start over from the root.
    pub open spec fn reset_rank(self, seek_to: int) -> int {
        if seek_to < self.parser().len() && seek_to < self.parser().position {
            1
        } else {
            0
        }
    }

    /// Bounds how many nodes are left.
    pub open spec fn work_rank(self) -> int {
        total(self.parser().pending) + total_parents(self.parser().pending)
            + self.parser().pending.len()
    }

    /// Whether the reader can seek: nothing is buffered.
    pub open spec fn can_seek(self) -> bool {
        self.wf() && self.core.buf.len() == 0
    }

    /// A whole seek to `seek_to`.
    pub open spec fn seek(self, seek_to: int, jump: bool) -> (ReaderView, Result<(), ReadError>)
        decreases self.header_rank(), self.reset_rank(seek_to), self.work_rank(),
        when self.can_seek() && 0 <= seek_to
    {
        proof {
            self.lemma_seek_rank(seek_to, jump);
        }
        match self.seek_step(seek_to, jump) {
            (after, Ok(true)) => (after, Ok(())),
            (after, Ok(false)) => after.seek(seek_to, jump),
            (after, Err(error)) => (after, Err(error)),
        }
    }

    /// Finds out the verified content length, which takes the final chunk.
    pub open spec fn verify_len(self) -> (ReaderView, Result<u64, ReadError>)
        decreases self.header_rank(), self.work_rank(),
        when self.can_seek()
    {
        proof {
            self.lemma_seek_rank(u64::MAX as int, true);
        }
        if self.parser().validated {
            (self, Ok(self.parser().content_len->0))
        } else {
            match self.seek_step(u64::MAX as int, true) {
                (after, Ok(_)) => after.verify_len(),
                (after, Err(error)) => (after, Err(error)),
            }
        }
    }
}

/// Where to seek to.
#[derive(Clone, Copy, Debug, PartialEq, Eq, Structural)]
pub enum SeekFrom {
    /// So many bytes from the start of the content.
    Start(u64),
    /// So many bytes past its end, or before it.
    End(i64),
    /// So many bytes past those that were handed out, or before.
    Current(i64),
}

/// Where a seek that was begun leads.
#[derive(Clone, Copy, Debug, PartialEq, Eq, Structural)]
pub enum SeekTarget {
    /// To a place in the content.
    To(u64),
    /// So many bytes past the end of the content, whose length has to be verified first.
    FromEnd(i64),
}

impl SeekTarget {
    /// The place in the content, once it is known.
    pub fn offset(&self) -> (offset: Option<u64>)
        ensures
            offset == (match *self {
                SeekTarget::To(offset) => Some(offset),
                SeekTarget::FromEnd(_) => None::<u64>,
            }),
    {
        match self {
            SeekTarget::To(offset) => Some(*offset),
            SeekTarget::FromEnd(_) => None,
        }
    }

    /// Whether the place in the content is still to be found out.
    pub open spec fn rank(self) -> int {
        match self {
            SeekTarget::To(_) => 0,
            SeekTarget::FromEnd(_) => 1,
        }
    }

    /// What the next step of the seek leads to: the place in the content, or the end.
    pub open spec fn goal(self) -> int {
        match self {
            SeekTarget::To(offset) => offset as int,
            SeekTarget::FromEnd(_) => u64::MAX as int,
        }
    }
}

/// The target at some place, if there is such a place.
pub open spec fn target_at(place: Result<u64, ReadError>) -> Result<SeekTarget, ReadError> {
    match place {
        Ok(offset) => Ok(SeekTarget::To(offset)),
        Err(error) => Err(error),
    }
}

impl DecodeView {
    /// Where a seek leads. The current position is that of the next byte to hand out, so bytes that
    /// are buffered lie behind it.
    pub open spec fn begin_seek(self, position: SeekFrom) -> Result<SeekTarget, ReadError> {
        match position {
            SeekFrom::Start(offset) => Ok(SeekTarget::To(offset)),
            SeekFrom::End(offset) => Ok(SeekTarget::FromEnd(offset)),
            SeekFrom::Current(offset) => target_at(
                offset_target(
                    self.verify.parser.content_position() - self.buf.len(),
                    offset as int,
                ),
            ),
        }
    }

    /// What is known of a target: if it is relative to the end, its place once the length is
    /// verified.
    pub open spec fn settle(self, target: SeekTarget) -> Result<SeekTarget, ReadError> {
        match target {
            SeekTarget::FromEnd(offset) if self.verify.parser.validated => target_at(
                offset_target(self.verify.parser.len(), offset as int),
            ),
            _ => Ok(target),
        }
    }
}

impl ReaderView {
    /// Where in the content the next byte to hand out comes from.
    pub open spec fn reading_position(self) -> int {
        self.parser().content_position() - self.core.buf.len()
    }

    pub open spec fn clear_buf(self) -> ReaderView {
        ReaderView { core: DecodeView { buf: Seq::empty(), ..self.core }, ..self }
    }

    /// A seek to a target that may turn out to be none.
    pub open spec fn seek_target(self, target: Result<u64, ReadError>) -> (
        ReaderView,
        Result<u64, ReadError>,
    ) {
        match target {
            Ok(seek_to) => match self.seek(seek_to as int, true) {
                (after, Ok(_)) => (after, Ok(seek_to)),
                (after, Err(error)) => (after, Err(error)),
            },
            Err(error) => (self, Err(error)),
        }
    }

    /// A seek, which drops what is buffered. The end of the content is known once its length is
    /// verified. The current position is that of the next byte to hand out, so bytes that are
    /// buffered lie behind it.
    pub open spec fn seek_from(self, position: SeekFrom) -> (ReaderView, Result<u64, ReadError>) {
        let cleared = self.clear_buf();
        match position {
            SeekFrom::Start(offset) => cleared.seek_target(Ok(offset)),
            SeekFrom::End(offset) => match cleared.verify_len() {
                (after, Ok(len)) => after.seek_target(offset_target(len as int, offset as int)),
                (after, Err(error)) => (after, Err(error)),
            },
            SeekFrom::Current(offset) => cleared.seek_target(
                offset_target(self.reading_position(), offset as int),
            ),
        }
    }
}

impl ReaderView {
    /// What is left of a seek that was begun.
    pub open spec fn seek_on(self, target: SeekTarget) -> (ReaderView, Result<u64, ReadError>) {
        match target {
            SeekTarget::To(offset) => self.seek_target(Ok(offset)),
            SeekTarget::FromEnd(offset) => match self.verify_len() {
                (after, Ok(len)) => after.seek_target(offset_target(len as int, offset as int)),
                (after, Err(error)) => (after, Err(error)),
            },
        }
    }

    /// A seek drops what is buffered, and goes on from where it begins.
    pub proof fn law_begin_seek(self, position: SeekFrom)
        requires
            self.wf(),
        ensures
            self.seek_from(position) == (match self.core.begin_seek(position) {
                Ok(target) => self.clear_buf().seek_on(target),
                Err(error) => (self.clear_buf(), Err::<u64, ReadError>(error)),
            }),
    {
    }

    /// A seek that was begun takes one step after the other, each towards what is known of its
    /// target by then. The step that is the last leads to the place of the target.
    pub proof fn law_seek_on(self, target: SeekTarget)
        requires
            self.can_seek(),
        ensures
            match self.core.settle(target) {
                Ok(settled) => {
                    let (after, result) = self.seek_step(settled.goal(), true);
                    &&& after.can_seek()
                    &&& match result {
                        Ok(true) => {
                            &&& settled matches SeekTarget::To(offset)
                            &&& self.seek_on(target) == (after, Ok::<u64, ReadError>(offset))
                        },
                        Ok(false) => {
                            &&& self.seek_on(target) == after.seek_on(settled)
                            &&& 0 <= after.work_rank()
                            &&& after.parser().content_len is Some
                            &&& self.parser().content_len is Some ==> {
                                &&& after.reset_rank(settled.goal()) == 0
                                &&& self.reset_rank(settled.goal()) == 0 ==> after.work_rank()
                                    < self.work_rank()
                            }
                        },
                        Err(error) => self.seek_on(target) == (after, Err::<u64, ReadError>(error)),
                    }
                },
                Err(error) => self.seek_on(target) == (self, Err::<u64, ReadError>(error)),
            },
    {
        if let Ok(settled) = self.core.settle(target) {
            self.lemma_seek_rank(settled.goal(), true);
        }
    }

    /// Bounds how many bytes are still to come.
    pub open spec fn to_come(self) -> int {
        total(self.parser().pending) + self.core.buf.len()
    }

    /// Fills `buf` from `done` on by repeated reads. It is an error if the content ends before.
    pub open spec fn fill(self, buf: Seq<u8>, done: int) -> (
        ReaderView,
        Seq<u8>,
        Result<(), ReadError>,
    )
        decreases buf.len() - done,
    {
        if done >= buf.len() {
            (self, buf, Ok(()))
        } else {
            let outcome = self.read(buf.len() - done);
            let filled = buf.take(done) + outcome.fills(buf.skip(done));
            match outcome.result {
                Ok(bytes) => if 0 < bytes.len() && filled.len() == buf.len() {
                    outcome.after.fill(filled, done + bytes.len())
                } else {
                    (outcome.after, filled, Err(ReadError::UnexpectedEof))
                },
                Err(error) => (outcome.after, filled, Err(error)),
            }
        }
    }

    /// Reads for callers with room for each of `rooms` in turn, up to the end or up to an error.
    /// Returns all that was handed out, and whether the end was reported.
    pub open spec fn read_all(self, rooms: Seq<int>) -> (ReaderView, Seq<u8>, Result<
        bool,
        ReadError,
    >)
        decreases rooms.len(),
    {
        if rooms.len() == 0 {
            (self, Seq::empty(), Ok(false))
        } else {
            let outcome = self.read(rooms[0]);
            match outcome.result {
                Ok(bytes) => if bytes.len() == 0 && rooms[0] > 0 {
                    (outcome.after, Seq::empty(), Ok(true))
                } else {
                    let (after, rest, result) = outcome.after.read_all(rooms.drop_first());
                    (after, bytes + rest, result)
                },
                Err(error) => (outcome.after, Seq::empty(), Err(error)),
            }
        }
    }

    /// Reads up to the end, or up to an error, and what came before it.
    pub open spec fn drain(self) -> (ReaderView, Seq<u8>, Result<(), ReadError>)
        decreases self.header_rank(), self.to_come(),
        when self.wf()
    {
        proof {
            self.lemma_read_progress(CHUNK_SIZE as int);
        }
        let outcome = self.read(CHUNK_SIZE as int);
        match outcome.result {
            Ok(bytes) => if bytes.len() == 0 {
                (outcome.after, Seq::empty(), Ok(()))
            } else {
                let (after, rest, result) = outcome.after.drain();
                (after, bytes + rest, result)
            },
            Err(error) => (outcome.after, Seq::empty(), Err(error)),
        }
    }
}

/// The hash of the root node, whose parent comes from `nodes` or whose only chunk comes from
/// `content`, for `content_len` bytes of content.
pub open spec fn root_node_hash(content_len: int, content: SourceView, nodes: SourceView) -> Result<
    Seq<u8>,
    ReadError,
> {
    if content_len <= CHUNK_SIZE {
        if content.has(content_len) {
            Ok(Node::chunk(content.next(content_len), Finalization::Root).hash())
        } else {
            Err(ReadError::UnexpectedEof)
        }
    } else {
        if nodes.has(PARENT_SIZE as int) {
            Ok(Node::parent(nodes.next(PARENT_SIZE as int), Finalization::Root).hash())
        } else {
            Err(ReadError::UnexpectedEof)
        }
    }
}

/// The root hash that an encoding claims to have, which takes no more than its root node.
pub open spec fn hash_from_encoded_spec(source: SourceView) -> Result<Seq<u8>, ReadError> {
    if source.has(HEADER_SIZE as int) {
        let rest = source.advance(HEADER_SIZE as int);
        root_node_hash(le_value(source.next(HEADER_SIZE as int)), rest, rest)
    } else {
        Err(ReadError::UnexpectedEof)
    }
}

/// The root hash that an outboard encoding and its content claim to have.
pub open spec fn hash_from_outboard_spec(content: SourceView, outboard: SourceView) -> Result<
    Seq<u8>,
    ReadError,
> {
    if outboard.has(HEADER_SIZE as int) {
        root_node_hash(
            le_value(outboard.next(HEADER_SIZE as int)),
            content,
            outboard.advance(HEADER_SIZE as int),
        )
    } else {
        Err(ReadError::UnexpectedEof)
    }
}

/// What is left of a source once `count` bytes were taken from it, if it has as many.
pub open spec fn take_if(source: SourceView, count: int) -> SourceView {
    if source.has(count) {
        source.advance(count)
    } else {
        source
    }
}

/// What is left of an encoding once its header and its root node were read.
pub open spec fn after_root_encoded(source: SourceView) -> SourceView {
    if source.has(HEADER_SIZE as int) {
        let content_len = le_value(source.next(HEADER_SIZE as int));
        take_if(
            source.advance(HEADER_SIZE as int),
            if content_len <= CHUNK_SIZE {
                content_len
            } else {
                PARENT_SIZE as int
            },
        )
    } else {
        source
    }
}

/// What is left of content and an outboard encoding once the header and the root node were read.
pub open spec fn after_root_outboard(content: SourceView, outboard: SourceView) -> (
    SourceView,
    SourceView,
) {
    if outboard.has(HEADER_SIZE as int) {
        let content_len = le_value(outboard.next(HEADER_SIZE as int));
        let rest = outboard.advance(HEADER_SIZE as int);
        if content_len <= CHUNK_SIZE {
            (take_if(content, content_len), rest)
        } else {
            (content, take_if(rest, PARENT_SIZE as int))
        }
    } else {
        (content, outboard)
    }
}

/// A reader of a slice: the part of the content that starts at `start`, of which `remaining` bytes
/// are still to be handed out.
#[verifier::ext_equal]
pub struct SliceView {
    pub reader: ReaderView,
    pub start: u64,
    pub remaining: u64,
}

impl SliceView {
    /// The first read of a slice moves to its start. A slice leaves out what lies before.
    pub open spec fn seek_start(self) -> (ReaderView, Result<(), ReadError>) {
        if self.reader.parser().content_position() < self.start {
            self.reader.seek(self.start as int, false)
        } else {
            (self.reader, Ok(()))
        }
    }

    /// Reads for a caller with room for `room` bytes, but no more than are left of the slice.
    pub open spec fn read(self, room: int) -> Outcome {
        let want = min(self.remaining as int, room);
        if self.remaining == 0 {
            Outcome { after: self.reader, result: Ok(Seq::empty()), cleared: 0 }
        } else if self.reader.core.buf.len() > 0 {
            self.reader.read(want)
        } else {
            match self.seek_start() {
                (after, Ok(_)) => after.read_next_chunk(want),
                (after, Err(error)) => Outcome { after, result: Err(error), cleared: 0 },
            }
        }
    }

    /// The reader once it read.
    pub open spec fn after_read(self, room: int) -> SliceView {
        let outcome = self.read(room);
        SliceView {
            reader: outcome.after,
            remaining: match outcome.result {
                Ok(bytes) => (self.remaining - bytes.len()) as u64,
                Err(_) => self.remaining,
            },
            ..self
        }
    }
}

impl ReaderView {
    /// Every read keeps a reader well-formed.
    pub proof fn lemma_read_node(self)
        requires
            self.wf(),
        ensures
            self.parser().read_next() is Header ==> self.read_header().0.wf(),
            self.parser().read_next() is Parent ==> self.read_parent().0.wf(),
    {
        if self.parser().read_next() is Header && self.nodes().has(HEADER_SIZE as int) {
            let len = le_value(self.nodes().next(HEADER_SIZE as int)) as u64;
            self.parser().lemma_feed_header(len);
        }
        if self.parser().read_next() is Parent {
            self.parser().lemma_advance_parent();
        }
    }

    pub proof fn lemma_read_chunk(
        self,
        size: int,
        finalization: Finalization,
        skip: int,
        room: int,
    )
        requires
            self.wf(),
            self.parser().read_next() is Chunk,
            size == self.parser().pending.last(),
            0 <= skip <= size,
            0 <= room,
        ensures
            self.read_chunk(size, finalization, skip, room).after.wf(),
            self.input.has(size) ==> self.input.next(size).len() == size,
            self.read_chunk(size, finalization, skip, room).result matches Ok(bytes) ==> bytes.len()
                == min(size - skip, room),
            skip == size ==> self.read_chunk(size, finalization, skip, room).after.core.buf.len()
                == 0 || self.read_chunk(size, finalization, skip, room).result is Err,
    {
        self.parser().lemma_advance_chunk();
    }

    /// Reading on to the next chunk keeps a reader well-formed, and buffers nothing.
    pub proof fn lemma_descend(self)
        requires
            self.wf(),
        ensures
            self.descend().0.wf(),
            self.descend().0.core.buf == self.core.buf,
            self.descend().1 is Ok ==> self.descend().0.parser().read_next() is Chunk
                || self.descend().0.parser().read_next() is Done,
        decreases self.rank(),
    {
        self.lemma_rank();
        self.lemma_read_node();
        if self.parser().read_next() is Header && self.read_header().1 is Ok {
            self.read_header().0.lemma_descend();
        } else if self.parser().read_next() is Parent && self.read_parent().1 is Ok {
            self.read_parent().0.lemma_descend();
        }
    }

    /// Every read keeps a reader well-formed.
    pub proof fn lemma_read(self, room: int)
        requires
            self.wf(),
            0 <= room,
        ensures
            self.read(room).after.wf(),
            self.read(room).result matches Ok(bytes) ==> bytes.len() <= room,
            0 <= self.read(room).cleared <= room,
            self.core.buf.len() == 0 ==> {
                &&& self.read_next_chunk(room).after.wf()
                &&& self.read_next_chunk(room).result matches Ok(bytes) ==> bytes.len() <= room
                &&& 0 <= self.read_next_chunk(room).cleared <= room
            },
    {
        self.lemma_descend();
        let (here, result) = self.descend();
        if self.core.buf.len() == 0 && result is Ok && here.parser().read_next() is Chunk {
            here.lemma_read_chunk(
                here.parser().pending.last(),
                here.parser().finalization(),
                here.parser().skip,
                room,
            );
        }
    }

    /// Reading the header and parents leaves the content that is still to come unchanged.
    pub proof fn lemma_descend_total(self)
        requires
            self.wf(),
        ensures
            self.descend().1 is Ok ==> self.descend().0.parser().content_len is Some,
            self.parser().content_len is Some ==> {
                &&& self.descend().0.parser().content_len == self.parser().content_len
                &&& self.descend().0.parser().position == self.parser().position
            },
        decreases self.rank(),
    {
        self.lemma_rank();
        self.lemma_read_node();
        if self.parser().read_next() is Header && self.read_header().1 is Ok {
            self.read_header().0.lemma_descend_total();
        } else if self.parser().read_next() is Parent && self.read_parent().1 is Ok {
            self.read_parent().0.lemma_descend_total();
        }
    }

    /// A read that hands out bytes reads the header, or leaves fewer bytes to come.
    pub proof fn lemma_read_progress(self, room: int)
        requires
            self.wf(),
            0 <= room,
        ensures
            self.read(room).after.wf(),
            self.read(room).result matches Ok(bytes) ==> {
                &&& bytes.len() <= room
                &&& 0 <= self.read(room).after.to_come()
                &&& self.core.buf.len() == 0 || self.parser().content_len is Some
                    ==> self.read(room).after.parser().content_len is Some
                &&& self.parser().content_len is Some && bytes.len() > 0 ==> self.read(
                    room,
                ).after.to_come() < self.to_come()
            },
    {
        self.lemma_read(room);
        lemma_total_nonnegative(self.parser().pending);
        lemma_total_nonnegative(self.read(room).after.parser().pending);
        if self.core.buf.len() == 0 {
            self.lemma_descend();
            self.lemma_descend_total();
            let here = self.descend().0;
            if self.descend().1 is Ok && here.parser().read_next() is Chunk {
                here.lemma_read_chunk(
                    here.parser().pending.last(),
                    here.parser().finalization(),
                    here.parser().skip,
                    room,
                );
            }
        }
    }

    pub proof fn lemma_apply_seek(self, seek_to: int, jump: bool)
        requires
            self.can_seek(),
            0 <= seek_to,
        ensures
            self.apply_seek(self.parser().seek_next(seek_to), jump).0.can_seek(),
            self.apply_seek(self.parser().seek_next(seek_to), jump).1 is Ok
                ==> self.apply_seek(self.parser().seek_next(seek_to), jump).0.parser()
                == self.parser().seek_move(seek_to),
    {
        self.core.verify.lemma_after_seek(seek_to);
        self.parser().lemma_seek_next(seek_to);
        self.parser().lemma_seek_move(seek_to);
    }

    /// Every step of a seek keeps a reader well-formed and buffers nothing. It reads the header,
    /// turns back to the root, or leaves fewer nodes.
    pub proof fn lemma_seek_rank(self, seek_to: int, jump: bool)
        requires
            self.can_seek(),
            0 <= seek_to,
        ensures
            self.seek_step(seek_to, jump).0.can_seek(),
            0 <= self.work_rank(),
            ({
                let (after, result) = self.seek_step(seek_to, jump);
                result == Ok::<bool, ReadError>(false) ==> {
                    &&& 0 <= after.work_rank()
                    &&& after.parser().content_len is Some
                    &&& self.parser().content_len is Some ==> {
                        &&& after.parser().content_len == self.parser().content_len
                        &&& after.reset_rank(seek_to) == 0
                        &&& self.reset_rank(seek_to) == 0 ==> after.work_rank() < self.work_rank()
                    }
                }
            }),
            self.seek_step(seek_to, jump).1 == Ok::<bool, ReadError>(true) ==> {
                &&& self.parser().content_len is Some
                &&& seek_to >= self.parser().len() ==> self.parser().validated
            },
    {
        self.lemma_apply_seek(seek_to, jump);
        self.parser().lemma_seek_move(seek_to);
        self.parser().lemma_seek_next(seek_to);
        let bookkeeping = self.parser().seek_next(seek_to);
        let (moved, applied) = self.apply_seek(bookkeeping, jump);
        lemma_total_nonnegative(self.parser().pending);
        if applied is Ok {
            let next = bookkeeping.next_read;
            let (after, result) = self.seek_step(seek_to, jump);
            lemma_total_nonnegative(moved.parser().pending);
            moved.lemma_read_node();
            if self.parser().content_len is Some && self.reset_rank(seek_to) == 0 {
                self.lemma_move_work(seek_to);
            }
            match next {
                NextRead::Header => {
                    if result is Ok {
                        lemma_total_nonnegative(after.parser().pending);
                    }
                },
                NextRead::Parent => {
                    moved.parser().lemma_advance_parent();
                    let advanced = moved.parser().advance_parent();
                    assert(total(advanced.pending) == total(moved.parser().pending));
                    lemma_total_nonnegative(advanced.pending);
                },
                NextRead::Chunk { size, finalization, skip } => {
                    moved.lemma_read_chunk(size as int, finalization, skip as int, 0);
                    moved.parser().lemma_advance_chunk();
                    lemma_total_nonnegative(moved.parser().advance_chunk().pending);
                },
                NextRead::Done => {},
            }
        }
    }

    /// Moving on without reading leaves no more nodes than before.
    proof fn lemma_move_work(self, seek_to: int)
        requires
            self.can_seek(),
            0 <= seek_to,
            self.parser().content_len is Some,
            self.reset_rank(seek_to) == 0,
        ensures
            ({
                let moved = self.parser().seek_move(seek_to);
                total(moved.pending) + total_parents(moved.pending) + moved.pending.len()
                    <= self.work_rank()
            }),
    {
        let parser = self.parser();
        if seek_to < parser.len() {
            lemma_skip_subtrees(parser.pending, parser.position, seek_to + 1);
        } else if parser.validated {
            lemma_total_nonnegative(parser.pending);
        } else {
            lemma_skip_subtrees(parser.pending, parser.position, parser.len());
        }
    }

    /// A whole seek keeps a reader well-formed and buffers nothing.
    pub proof fn lemma_seek(self, seek_to: int, jump: bool)
        requires
            self.can_seek(),
            0 <= seek_to,
        ensures
            self.seek(seek_to, jump).0.can_seek(),
        decreases self.header_rank(), self.reset_rank(seek_to), self.work_rank(),
    {
        self.lemma_seek_rank(seek_to, jump);
        let (after, result) = self.seek_step(seek_to, jump);
        if result == Ok::<bool, ReadError>(false) {
            after.lemma_seek(seek_to, jump);
        }
    }

    /// Verifying the length keeps a reader well-formed and buffers nothing.
    pub proof fn lemma_verify_len(self)
        requires
            self.can_seek(),
        ensures
            self.verify_len().0.can_seek(),
        decreases self.header_rank(), self.work_rank(),
    {
        if !self.parser().validated {
            self.lemma_seek_rank(u64::MAX as int, true);
            let (after, result) = self.seek_step(u64::MAX as int, true);
            if result is Ok {
                after.lemma_verify_len();
            }
        }
    }
}

/// A slice reader but for its source: what it does between the reads that it asks for.
#[verifier::ext_equal]
pub struct SliceStateView {
    pub core: DecodeView,
    pub start: u64,
    pub remaining: u64,
    /// Whether it is on its way to the start of the slice.
    pub seeking: bool,
}

impl SliceStateView {
    pub open spec fn parser(self) -> ParseView {
        self.core.verify.parser
    }

    /// How many bytes a caller with room for `room` may get.
    pub open spec fn want(self, room: int) -> int {
        min(self.remaining as int, room)
    }

    /// How a read begins: with the bytes that it hands out at once, none at the end of the slice,
    /// or with `None` if something has to be read first.
    pub open spec fn begin(self, room: int) -> (SliceStateView, Option<Seq<u8>>) {
        if self.remaining == 0 {
            (self, Some(Seq::empty()))
        } else if self.core.buf.len() > 0 {
            let bytes = self.core.delivered(self.want(room));
            (
                SliceStateView {
                    core: self.core.deliver(self.want(room)),
                    remaining: (self.remaining - bytes.len()) as u64,
                    ..self
                },
                Some(bytes),
            )
        } else {
            (
                SliceStateView {
                    seeking: self.parser().content_position() < self.start,
                    ..self
                },
                None,
            )
        }
    }

    /// What has to be read next, and the state that it is read in. The seek to the start of the
    /// slice ends where there is nothing to read for it.
    pub open spec fn next(self) -> (SliceStateView, NextRead) {
        if self.seeking {
            let bookkeeping = self.parser().seek_next(self.start as int);
            let verify = self.core.verify.after_seek(bookkeeping);
            let moved = SliceStateView { core: DecodeView { verify, ..self.core }, ..self };
            if bookkeeping.next_read is Done {
                (SliceStateView { seeking: false, ..moved }, moved.parser().read_next())
            } else {
                (moved, bookkeeping.next_read)
            }
        } else {
            (self, self.parser().read_next())
        }
    }

    /// How many bytes of the next chunk a caller with room for `room` may get.
    pub open spec fn chunk_room(self, room: int) -> int {
        if self.seeking {
            0
        } else {
            self.want(room)
        }
    }

    /// The state behind `chunk`, and the bytes of it that are handed out.
    pub open spec fn take_chunk(self, chunk: Seq<u8>, skip: int, room: int) -> (
        SliceStateView,
        Seq<u8>,
    ) {
        let core = self.core.buffer_chunk(chunk, skip);
        let bytes = core.delivered(self.chunk_room(room));
        (
            SliceStateView {
                core: core.deliver(self.chunk_room(room)),
                remaining: (self.remaining - bytes.len()) as u64,
                ..self
            },
            bytes,
        )
    }
}

impl ReaderView {
    /// What becomes of a read in a slice that is on its way, to `start` if `seeking`.
    #[verifier::opaque]
    pub open spec fn read_on(self, seeking: bool, start: int, room: int) -> Outcome {
        if seeking {
            match self.seek(start, false) {
                (after, Ok(_)) => after.read_next_chunk(room),
                (after, Err(error)) => Outcome { after, result: Err(error), cleared: 0 },
            }
        } else {
            self.read_next_chunk(room)
        }
    }

    /// The failure of a read that wrote nothing.
    pub open spec fn fails(self, error: ReadError) -> Outcome {
        Outcome { after: self, result: Err(error), cleared: 0 }
    }

    /// Where a read in a slice takes the next node, and whether it is still seeking there.
    #[verifier::opaque]
    pub open spec fn slice_step(self, seeking: bool, start: int) -> (ReaderView, bool, NextRead) {
        if seeking {
            let bookkeeping = self.parser().seek_next(start);
            let at = self.with_verify(self.core.verify.after_seek(bookkeeping));
            if bookkeeping.next_read is Done {
                (at, false, at.parser().read_next())
            } else {
                (at, true, bookkeeping.next_read)
            }
        } else {
            (self, false, self.parser().read_next())
        }
    }

    /// Reading the next node of a slice leaves the rest of the read.
    pub proof fn lemma_read_on_node(self, seeking: bool, start: int, room: int)
        requires
            self.can_seek(),
            0 <= start,
            0 <= room,
        ensures
            ({
                let (at, still, next) = self.slice_step(seeking, start);
                let whole = self.read_on(seeking, start, room);
                &&& at.can_seek()
                &&& next is Header ==> {
                    let (after, result) = at.read_header();
                    &&& at.parser().read_next() is Header
                    &&& after.can_seek()
                    &&& result is Ok ==> whole == after.read_on(still, start, room)
                    &&& result matches Err(error) ==> whole == after.fails(error)
                }
                &&& next is Parent ==> {
                    let (after, result) = at.read_parent();
                    &&& at.parser().read_next() is Parent
                    &&& after.can_seek()
                    &&& result is Ok ==> whole == after.read_on(still, start, room)
                    &&& result matches Err(error) ==> whole == after.fails(error)
                }
                &&& next is Done ==> whole == (Outcome {
                    after: at,
                    result: Ok(Seq::empty()),
                    cleared: 0,
                })
            }),
    {
        reveal(ReaderView::read_on);
        reveal(ReaderView::slice_step);
        self.lemma_apply_seek(start, false);
        self.parser().lemma_seek_move(start);
        self.lemma_seek_rank(start, false);
        let (at, still, next) = self.slice_step(seeking, start);
        at.lemma_rank();
        at.lemma_read_node();
    }

    /// Reading the next chunk of a slice is the rest of the read, or ends the seek.
    pub proof fn lemma_read_on_chunk(self, seeking: bool, start: int, room: int)
        requires
            self.can_seek(),
            0 <= start,
            0 <= room,
        ensures
            ({
                let (at, still, next) = self.slice_step(seeking, start);
                let whole = self.read_on(seeking, start, room);
                next matches NextRead::Chunk { size, finalization, skip } ==> {
                    let outcome = at.read_chunk(
                        size as int,
                        finalization,
                        skip as int,
                        if still {
                            0
                        } else {
                            room
                        },
                    );
                    &&& at.can_seek()
                    &&& at.parser().read_next() is Chunk
                    &&& size == at.parser().pending.last()
                    &&& skip <= size
                    &&& !still ==> whole == outcome
                    &&& still && outcome.result is Ok ==> {
                        &&& outcome.after.can_seek()
                        &&& whole == outcome.after.read_on(true, start, room)
                        &&& outcome.result->Ok_0.len() == 0
                    }
                    &&& still ==> (outcome.result matches Err(error) ==> whole
                        == outcome.after.fails(error))
                }
            }),
    {
        reveal(ReaderView::read_on);
        reveal(ReaderView::slice_step);
        self.lemma_apply_seek(start, false);
        self.parser().lemma_seek_move(start);
        self.parser().lemma_seek_next(start);
        self.lemma_seek_rank(start, false);
        let (at, still, next) = self.slice_step(seeking, start);
        at.lemma_rank();
    }

    /// Every node that is read in a slice leaves less to do.
    pub proof fn lemma_read_on_rank(self, seeking: bool, start: int, after: ReaderView)
        requires
            self.can_seek(),
            0 <= start,
            ({
                let (at, still, next) = self.slice_step(seeking, start);
                match next {
                    NextRead::Header => at.read_header() == (after, Ok::<(), ReadError>(())),
                    NextRead::Parent => at.read_parent() == (after, Ok::<(), ReadError>(())),
                    NextRead::Chunk { size, finalization, skip } => {
                        let outcome = at.read_chunk(size as int, finalization, skip as int, 0);
                        still && outcome.result is Ok && outcome.after == after
                    },
                    NextRead::Done => false,
                }
            }),
        ensures
            ({
                let still = self.slice_step(seeking, start).1;
                &&& still ==> seeking
                &&& still ==> {
                    ||| after.header_rank() < self.header_rank()
                    ||| after.header_rank() == self.header_rank() && after.reset_rank(start)
                        < self.reset_rank(start)
                    ||| after.header_rank() == self.header_rank() && after.reset_rank(start)
                        == self.reset_rank(start) && after.work_rank() < self.work_rank()
                }
                &&& still ==> 0 <= after.work_rank()
                &&& !seeking ==> 0 <= after.rank() < self.rank()
            }),
    {
        reveal(ReaderView::slice_step);
        self.lemma_rank();
        self.lemma_apply_seek(start, false);
        self.lemma_seek_rank(start, false);
        let at = self.slice_step(seeking, start).0;
        at.lemma_rank();
    }
}

impl SliceView {
    pub open spec fn wf(self) -> bool {
        self.reader.wf()
    }

    /// Every read keeps a slice reader well-formed.
    pub proof fn lemma_read(self, room: int)
        requires
            self.wf(),
            0 <= room,
        ensures
            self.after_read(room).wf(),
            self.read(room).result matches Ok(bytes) ==> bytes.len() <= min(
                self.remaining as int,
                room,
            ),
            0 <= self.read(room).cleared <= room,
    {
        let want: int = min(self.remaining as int, room);
        self.reader.lemma_read(want);
        if self.reader.core.buf.len() == 0 {
            self.reader.lemma_seek(self.start as int, false);
            self.seek_start().0.lemma_read(want);
        }
    }

    /// Reads up to the end of the slice, or up to an error, and what came before it.
    pub open spec fn drain(self) -> (SliceView, Seq<u8>, Result<(), ReadError>)
        decreases self.remaining,
        when self.wf()
    {
        proof {
            self.lemma_read(CHUNK_SIZE as int);
        }
        let after = self.after_read(CHUNK_SIZE as int);
        match self.read(CHUNK_SIZE as int).result {
            Ok(bytes) => if bytes.len() == 0 {
                (after, Seq::empty(), Ok(()))
            } else {
                let (end, rest, result) = after.drain();
                (end, bytes + rest, result)
            },
            Err(error) => (after, Seq::empty(), Err(error)),
        }
    }
}

impl Outcome {
    /// A read that hands out bytes reports how many, puts them at the front of the caller's buffer
    /// and leaves the rest of it alone. One that fails leaves every byte there as it was, or zero.
    pub proof fn law_handed_out(self, before: Seq<u8>)
        requires
            self.result matches Ok(bytes) ==> bytes.len() <= before.len() <= usize::MAX,
        ensures
            self.fills(before).len() == before.len(),
            self.result matches Ok(bytes) ==> {
                &&& self.count() == Ok::<usize, ReadError>(bytes.len() as usize)
                &&& bytes.len() as usize == bytes.len()
                &&& forall|i: int|
                    0 <= i < before.len() ==> #[trigger] self.fills(before)[i] == if i
                        < bytes.len() {
                        bytes[i]
                    } else {
                        before[i]
                    }
            },
            self.result matches Err(error) ==> {
                &&& self.count() == Err::<usize, ReadError>(error)
                &&& forall|i: int|
                    0 <= i < before.len() ==> #[trigger] self.fills(before)[i] == if i
                        < self.cleared {
                        0
                    } else {
                        before[i]
                    }
            },
    {
    }
}

impl SliceView {
    /// Once a slice was handed out, and for an empty slice from the start, a read hands out nothing
    /// and reads nothing, whatever the source holds.
    pub proof fn law_nothing_remaining(self, room: int)
        requires
            self.wf(),
            self.remaining == 0,
            0 <= room,
        ensures
            self.read(room).result == Ok::<Seq<u8>, ReadError>(Seq::empty()),
            self.after_read(room) == self,
            self.drain().1.len() == 0,
            self.drain().2 is Ok,
    {
    }

    /// Once it is at its start, a slice is read as an encoding is, by a caller with room for no
    /// more than what remains. What was read but not handed out stays for the next read.
    pub proof fn law_reads_alike(self, room: int)
        requires
            self.wf(),
            self.remaining > 0,
            self.reader.core.buf.len() > 0 || self.start
                <= self.reader.parser().content_position(),
            0 <= room,
        ensures
            self.read(room) == self.reader.read(min(self.remaining as int, room)),
            self.after_read(room).reader == self.reader.read(
                min(self.remaining as int, room),
            ).after,
    {
    }

    /// Before it is at its start, a slice is read as it is from there, or fails as the way there
    /// does.
    pub proof fn law_reads_from_start(self, room: int)
        requires
            self.wf(),
            self.remaining > 0,
            self.reader.core.buf.len() == 0,
            self.reader.parser().content_position() < self.start,
            0 <= room,
        ensures
            ({
                let (at, sought) = self.reader.seek(self.start as int, false);
                let outcome = self.read(room);
                &&& sought is Ok ==> outcome == at.read(min(self.remaining as int, room))
                &&& sought matches Err(error) ==> {
                    &&& outcome.result == Err::<Seq<u8>, ReadError>(error)
                    &&& outcome.after == at
                    &&& outcome.cleared == 0
                }
            }),
    {
        self.reader.lemma_seek(self.start as int, false);
    }

    /// No read of a slice hands out more than what remains of it.
    pub proof fn law_no_more_than_remains(self, room: int)
        requires
            self.wf(),
            0 <= room,
        ensures
            self.read(room).result matches Ok(bytes) ==> {
                &&& bytes.len() <= room
                &&& bytes.len() <= self.remaining
                &&& self.after_read(room).remaining == self.remaining - bytes.len()
            },
            self.read(room).result is Err ==> self.after_read(room).remaining == self.remaining,
            self.after_read(room).start == self.start,
    {
        self.lemma_read(room);
    }
}

impl ReaderView {
    /// A step of a seek in a combined encoding to where no 64 bit offset reaches fails because of
    /// that, and leaves the reader as it is.
    pub proof fn law_seek_out_of_reach(self, seek_to: int)
        requires
            self.can_seek(),
            self.outboard is None,
            self.parser().content_len is Some,
            0 <= seek_to,
            self.parser().seek_move(seek_to).encoding_position() > u64::MAX,
        ensures
            self.seek(seek_to, true) == (self, Err::<(), ReadError>(
                ReadError::SeekOffsetOverflow,
            )),
    {
        self.parser().lemma_seek_next(seek_to);
        self.lemma_seek_rank(seek_to, true);
    }
}

} // verus!
