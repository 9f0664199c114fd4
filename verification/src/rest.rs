//! Reading depends on nothing but what comes next: neither where in its source a reader starts, nor
//! what lies before that, nor what follows the bytes that it reads, makes a difference.

use vstd::prelude::*;

use crate::error::ReadError;
use crate::hash::{CHUNK_SIZE, HEADER_SIZE, PARENT_SIZE};
use crate::parse::NextRead;
use crate::reading::{min, ReaderView, SliceView};
use crate::source::SourceView;

verus! {

/// What is left of a source.
pub open spec fn rest(source: SourceView) -> Seq<u8> {
    source.bytes.skip(source.position)
}

/// Whether `source` and `longer` go on alike, and `source` ends no later.
pub open spec fn goes_on_in(source: SourceView, longer: SourceView) -> bool {
    &&& 0 <= source.position <= source.bytes.len()
    &&& 0 <= longer.position <= longer.bytes.len()
    &&& rest(source).is_prefix_of(rest(longer))
}

proof fn lemma_goes_on(source: SourceView, longer: SourceView, count: int)
    requires
        goes_on_in(source, longer),
        0 <= count,
        source.has(count),
    ensures
        longer.has(count),
        source.next(count) == longer.next(count),
        goes_on_in(source.advance(count), longer.advance(count)),
{
    let ahead = rest(source);
    let longer_ahead = rest(longer);
    assert(ahead =~= longer_ahead.take(ahead.len() as int));
    assert(source.next(count) =~= ahead.take(count));
    assert(longer.next(count) =~= longer_ahead.take(count));
    assert(ahead.take(count) =~= longer_ahead.take(count));
    assert(rest(source.advance(count)) =~= ahead.skip(count));
    assert(rest(longer.advance(count)) =~= longer_ahead.skip(count));
    assert(ahead.skip(count) =~= longer_ahead.skip(count).take(ahead.len() - count));
}

impl ReaderView {
    /// Whether both readers have got equally far, and the sources of this one go on in those of
    /// the other.
    pub open spec fn keeps_pace(self, other: ReaderView) -> bool {
        &&& self.core == other.core
        &&& goes_on_in(self.input, other.input)
        &&& match (self.outboard, other.outboard) {
            (None, None) => true,
            (Some(outboard), Some(other_outboard)) => goes_on_in(outboard, other_outboard),
            _ => false,
        }
    }

    proof fn lemma_pace_header(self, other: ReaderView)
        requires
            self.keeps_pace(other),
        ensures
            self.read_header().1 is Ok ==> {
                &&& other.read_header().1 is Ok
                &&& self.read_header().0.keeps_pace(other.read_header().0)
            },
            self.read_header().1 matches Err(error) ==> error == ReadError::UnexpectedEof,
    {
        if self.nodes().has(HEADER_SIZE as int) {
            lemma_goes_on(self.nodes(), other.nodes(), HEADER_SIZE as int);
        }
    }

    proof fn lemma_pace_parent(self, other: ReaderView)
        requires
            self.keeps_pace(other),
        ensures
            self.read_parent().1 != Err::<(), ReadError>(ReadError::UnexpectedEof) ==> {
                &&& self.read_parent().1 == other.read_parent().1
                &&& self.read_parent().0.keeps_pace(other.read_parent().0)
            },
    {
        if self.nodes().has(PARENT_SIZE as int) {
            lemma_goes_on(self.nodes(), other.nodes(), PARENT_SIZE as int);
        }
    }

    proof fn lemma_pace_chunk(
        self,
        other: ReaderView,
        size: int,
        finalization: crate::hash::Finalization,
        skip: int,
        room: int,
    )
        requires
            self.keeps_pace(other),
            0 <= size,
        ensures
            ({
                let outcome = self.read_chunk(size, finalization, skip, room);
                let expected = other.read_chunk(size, finalization, skip, room);
                outcome.result != Err::<Seq<u8>, ReadError>(ReadError::UnexpectedEof) ==> {
                    &&& outcome.result == expected.result
                    &&& outcome.cleared == expected.cleared
                    &&& outcome.after.keeps_pace(expected.after)
                }
            }),
    {
        if self.input.has(size) {
            lemma_goes_on(self.input, other.input, size);
        }
    }

    proof fn lemma_pace_descend(self, other: ReaderView)
        requires
            self.wf(),
            other.wf(),
            self.keeps_pace(other),
        ensures
            self.descend().1 != Err::<(), ReadError>(ReadError::UnexpectedEof) ==> {
                &&& self.descend().1 == other.descend().1
                &&& self.descend().0.keeps_pace(other.descend().0)
            },
        decreases self.rank(),
    {
        self.lemma_rank();
        other.lemma_rank();
        self.lemma_read_node();
        other.lemma_read_node();
        if self.parser().read_next() is Header {
            self.lemma_pace_header(other);
            if self.read_header().1 is Ok {
                self.read_header().0.lemma_pace_descend(other.read_header().0);
            }
        } else if self.parser().read_next() is Parent {
            self.lemma_pace_parent(other);
            if self.read_parent().1 is Ok {
                self.read_parent().0.lemma_pace_descend(other.read_parent().0);
            }
        }
    }

    proof fn lemma_pace_read_next(self, other: ReaderView, room: int)
        requires
            self.wf(),
            other.wf(),
            self.keeps_pace(other),
            self.core.buf.len() == 0,
            0 <= room,
        ensures
            ({
                let outcome = self.read_next_chunk(room);
                let expected = other.read_next_chunk(room);
                outcome.result != Err::<Seq<u8>, ReadError>(ReadError::UnexpectedEof) ==> {
                    &&& outcome.result == expected.result
                    &&& outcome.cleared == expected.cleared
                    &&& outcome.after.keeps_pace(expected.after)
                }
            }),
    {
        self.lemma_pace_descend(other);
        self.lemma_descend();
        let here = self.descend().0;
        if self.descend().1 is Ok && here.parser().read_next() is Chunk {
            here.lemma_pace_chunk(
                other.descend().0,
                here.parser().pending.last(),
                here.parser().finalization(),
                here.parser().skip,
                room,
            );
        }
    }

    /// What a read comes to, unless its sources end too early, depends on nothing but what comes
    /// next in them: it is the same wherever they stand, whatever lies before, and whatever
    /// follows what was read.
    pub proof fn law_read_rest(self, other: ReaderView, room: int)
        requires
            self.wf(),
            other.wf(),
            self.keeps_pace(other),
            0 <= room,
        ensures
            ({
                let outcome = self.read(room);
                let expected = other.read(room);
                outcome.result != Err::<Seq<u8>, ReadError>(ReadError::UnexpectedEof) ==> {
                    &&& outcome.result == expected.result
                    &&& outcome.cleared == expected.cleared
                    &&& outcome.after.keeps_pace(expected.after)
                }
            }),
    {
        if self.core.buf.len() == 0 {
            self.lemma_pace_read_next(other, room);
        }
    }

    /// What reading to the end comes to, unless the sources end too early, depends on nothing but
    /// what comes next in them.
    #[verifier::rlimit(40)]
    pub proof fn law_drain_rest(self, other: ReaderView)
        requires
            self.wf(),
            other.wf(),
            self.keeps_pace(other),
        ensures
            self.drain().1.is_prefix_of(other.drain().1),
            self.drain().2 != Err::<(), ReadError>(ReadError::UnexpectedEof) ==> {
                &&& self.drain().1 == other.drain().1
                &&& self.drain().2 == other.drain().2
            },
        decreases self.header_rank(), self.to_come(),
    {
        let room: int = CHUNK_SIZE as int;
        self.law_read_rest(other, room);
        self.lemma_read_progress(room);
        other.lemma_read_progress(room);
        let outcome = self.read(room);
        let expected = other.read(room);
        if let Ok(bytes) = outcome.result {
            if bytes.len() > 0 {
                outcome.after.law_drain_rest(expected.after);
                let ahead = outcome.after.drain().1;
                let other_ahead = expected.after.drain().1;
                assert(self.drain().1 == bytes + ahead);
                assert(other.drain().1 == bytes + other_ahead);
                let len: int = (bytes + ahead).len() as int;
                assert(bytes + ahead =~= (bytes + other_ahead).take(len));
            }
        }
    }

    proof fn lemma_pace_seek(self, other: ReaderView, seek_to: int)
        requires
            self.can_seek(),
            other.can_seek(),
            self.keeps_pace(other),
            0 <= seek_to,
        ensures
            self.seek(seek_to, false).1 != Err::<(), ReadError>(ReadError::UnexpectedEof) ==> {
                &&& self.seek(seek_to, false).1 == other.seek(seek_to, false).1
                &&& self.seek(seek_to, false).0.keeps_pace(other.seek(seek_to, false).0)
            },
        decreases self.header_rank(), self.reset_rank(seek_to), self.work_rank(),
    {
        let bookkeeping = self.parser().seek_next(seek_to);
        let moved = self.apply_seek(bookkeeping, false).0;
        let other_moved = other.apply_seek(bookkeeping, false).0;
        self.lemma_seek_rank(seek_to, false);
        other.lemma_seek_rank(seek_to, false);
        self.lemma_apply_seek(seek_to, false);
        self.parser().lemma_seek_move(seek_to);
        match bookkeeping.next_read {
            NextRead::Header => moved.lemma_pace_header(other_moved),
            NextRead::Parent => moved.lemma_pace_parent(other_moved),
            NextRead::Chunk { size, finalization, skip } => {
                moved.lemma_pace_chunk(other_moved, size as int, finalization, skip as int, 0);
            },
            NextRead::Done => {},
        }
        let (after, result) = self.seek_step(seek_to, false);
        if result == Ok::<bool, ReadError>(false) {
            after.lemma_pace_seek(other.seek_step(seek_to, false).0, seek_to);
        }
    }
}

impl SliceView {
    /// Whether both readers have got equally far in the same slice, and the source of this one goes
    /// on in that of the other.
    pub open spec fn keeps_pace(self, other: SliceView) -> bool {
        &&& self.reader.keeps_pace(other.reader)
        &&& self.start == other.start
        &&& self.remaining == other.remaining
    }

    /// What a read of a slice comes to, unless its source ends too early, depends on nothing but
    /// what comes next in it.
    pub proof fn law_read_rest(self, other: SliceView, room: int)
        requires
            self.wf(),
            other.wf(),
            self.keeps_pace(other),
            0 <= room,
        ensures
            self.read(room).result != Err::<Seq<u8>, ReadError>(ReadError::UnexpectedEof) ==> {
                &&& self.read(room).result == other.read(room).result
                &&& self.read(room).cleared == other.read(room).cleared
                &&& self.after_read(room).keeps_pace(other.after_read(room))
            },
    {
        let want: int = min(self.remaining as int, room);
        if self.reader.core.buf.len() == 0 && self.remaining > 0 {
            if self.reader.parser().content_position() < self.start {
                self.reader.lemma_pace_seek(other.reader, self.start as int);
                self.reader.lemma_seek(self.start as int, false);
                other.reader.lemma_seek(self.start as int, false);
            }
            let (at, sought) = self.seek_start();
            if sought is Ok {
                at.lemma_pace_read_next(other.seek_start().0, want);
            }
        }
    }

    /// What reading a slice to the end comes to, unless its source ends too early, depends on
    /// nothing but what comes next in it.
    #[verifier::rlimit(40)]
    pub proof fn law_drain_rest(self, other: SliceView)
        requires
            self.wf(),
            other.wf(),
            self.keeps_pace(other),
        ensures
            self.drain().1.is_prefix_of(other.drain().1),
            self.drain().2 != Err::<(), ReadError>(ReadError::UnexpectedEof) ==> {
                &&& self.drain().1 == other.drain().1
                &&& self.drain().2 == other.drain().2
            },
        decreases self.remaining,
    {
        let room: int = CHUNK_SIZE as int;
        self.law_read_rest(other, room);
        self.lemma_read(room);
        other.lemma_read(room);
        if let Ok(bytes) = self.read(room).result {
            if bytes.len() > 0 {
                let after = self.after_read(room);
                let other_after = other.after_read(room);
                after.law_drain_rest(other_after);
                let ahead = after.drain().1;
                let other_ahead = other_after.drain().1;
                assert(self.drain().1 == bytes + ahead);
                assert(other.drain().1 == bytes + other_ahead);
                let len: int = (bytes + ahead).len() as int;
                assert(bytes + ahead =~= (bytes + other_ahead).take(len));
            }
        }
    }
}

} // verus!
