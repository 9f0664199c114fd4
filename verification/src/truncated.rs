//! What is cut off is noticed: readers of a part of an encoding hand out what they can verify, and
//! then fail.

use vstd::prelude::*;

use crate::error::ReadError;
use crate::hash::{lemma_header_value, CHUNK_SIZE, HEADER_SIZE, PARENT_SIZE};
use crate::parse::{lemma_parents_size_bound, NextRead};
use crate::reading::ReaderView;
use crate::source::SourceView;
use crate::tree::{combined_encoding, lemma_encode_subtree_len, outboard_encoding, root_hash};

verus! {

/// Whether `source` is `whole`, cut off somewhere behind its position.
pub open spec fn cut_from(source: SourceView, whole: SourceView) -> bool {
    &&& source.position == whole.position
    &&& source.position <= source.bytes.len() <= whole.bytes.len()
    &&& source.bytes == whole.bytes.take(source.bytes.len() as int)
}

proof fn lemma_cut_next(source: SourceView, whole: SourceView, count: int)
    requires
        cut_from(source, whole),
        0 <= source.position,
        0 <= count,
        source.has(count),
    ensures
        whole.has(count),
        source.next(count) == whole.next(count),
        cut_from(source.advance(count), whole.advance(count)),
{
    assert(source.next(count) =~= whole.next(count));
}

impl ReaderView {
    /// Whether the reader is `whole`, with its sources cut off.
    pub open spec fn cuts(self, whole: ReaderView) -> bool {
        &&& self.core == whole.core
        &&& cut_from(self.input, whole.input)
        &&& match (self.outboard, whole.outboard) {
            (None, None) => true,
            (Some(outboard), Some(whole_outboard)) => cut_from(outboard, whole_outboard),
            _ => false,
        }
    }

    /// A reader of cut off sources gets as far as one of the whole, or to where they are cut off.
    proof fn lemma_cut_descend(self, whole: ReaderView)
        requires
            self.wf(),
            whole.wf(),
            self.cuts(whole),
            whole.descend().1 is Ok,
        ensures
            self.descend().1 is Ok ==> self.descend().0.cuts(whole.descend().0),
            self.descend().1 matches Err(error) ==> error == ReadError::UnexpectedEof,
        decreases self.rank(),
    {
        self.lemma_rank();
        self.lemma_read_node();
        whole.lemma_read_node();
        let nodes = self.nodes();
        match self.parser().read_next() {
            NextRead::Header => {
                if nodes.has(HEADER_SIZE as int) {
                    lemma_cut_next(nodes, whole.nodes(), HEADER_SIZE as int);
                    self.read_header().0.lemma_cut_descend(whole.read_header().0);
                }
            },
            NextRead::Parent => {
                if nodes.has(PARENT_SIZE as int) {
                    lemma_cut_next(nodes, whole.nodes(), PARENT_SIZE as int);
                    self.read_parent().0.lemma_cut_descend(whole.read_parent().0);
                }
            },
            _ => {},
        }
    }

    proof fn lemma_cut_read(self, whole: ReaderView, room: int)
        requires
            self.wf(),
            whole.wf(),
            self.cuts(whole),
            whole.read(room).result is Ok,
            0 <= room,
        ensures
            self.read(room).result is Ok ==> {
                &&& self.read(room).result == whole.read(room).result
                &&& self.read(room).after.cuts(whole.read(room).after)
            },
            self.read(room).result matches Err(error) ==> error == ReadError::UnexpectedEof,
    {
        if self.core.buf.len() == 0 {
            self.lemma_cut_descend(whole);
            self.lemma_descend();
            let here = self.descend().0;
            if self.descend().1 is Ok && here.parser().read_next() is Chunk {
                let size: int = here.parser().pending.last();
                if here.input.has(size) {
                    lemma_cut_next(here.input, whole.descend().0.input, size);
                }
            }
        }
    }

    /// Whether the sources start with less than an encoding of `content`.
    pub open spec fn falls_short(self, content: Seq<u8>) -> bool {
        match self.outboard {
            None => {
                &&& self.input.bytes.is_prefix_of(combined_encoding(content))
                &&& self.input.bytes.len() < combined_encoding(content).len()
            },
            Some(outboard) => {
                &&& self.input.bytes.is_prefix_of(content)
                &&& outboard.bytes.is_prefix_of(outboard_encoding(content))
                &&& self.input.bytes.len() < content.len() || outboard.bytes.len()
                    < outboard_encoding(content).len()
            },
        }
    }

    /// The same reader with nothing cut off.
    spec fn completed(self, content: Seq<u8>) -> ReaderView {
        match self.outboard {
            None => ReaderView {
                input: SourceView { bytes: combined_encoding(content), ..self.input },
                ..self
            },
            Some(outboard) => ReaderView {
                input: SourceView { bytes: content, ..self.input },
                outboard: Some(SourceView { bytes: outboard_encoding(content), ..outboard }),
                ..self
            },
        }
    }

    /// Whether the reader is on its way through less than an encoding of `content`.
    #[verifier::opaque]
    pub closed spec fn runs_short(self, content: Seq<u8>) -> bool {
        let whole = self.completed(content);
        &&& self.wf()
        &&& self.falls_short(content)
        &&& whole.decodes(content)
        &&& self.cuts(whole)
    }

    /// A reader of less than an encoding of some content hands out the bytes that come next in the
    /// content, or fails because the encoding is cut off. It never reports the end.
    pub proof fn law_read_short(self, content: Seq<u8>, room: int)
        requires
            self.runs_short(content),
            0 <= room,
        ensures
            ({
                let outcome = self.read(room);
                let start = self.reading_position();
                &&& self.wf()
                &&& 0 <= start <= content.len()
                &&& outcome.result matches Ok(bytes) ==> {
                    &&& outcome.after.runs_short(content)
                    &&& start + bytes.len() <= content.len()
                    &&& bytes == content.subrange(start, start + bytes.len())
                    &&& outcome.after.reading_position() == start + bytes.len()
                    &&& room > 0 ==> bytes.len() > 0
                }
                &&& outcome.result matches Err(error) ==> error == ReadError::UnexpectedEof
            }),
    {
        reveal(ReaderView::runs_short);
        let whole = self.completed(content);
        let outcome = self.read(room);
        whole.law_read(content, room);
        self.lemma_read(room);
        self.lemma_cut_read(whole, room);
        self.law_read_related(room);
        whole.law_read_related(room);
        if outcome.result is Ok {
            let after = outcome.after;
            let whole_after = whole.read(room).after;
            assert(after.completed(content) =~= whole_after);
            if outcome.result->Ok_0.len() == 0 && room > 0 {
                self.law_end_validated(room);
                whole_after.core.verify.lemma_tracks_segments(content);
                lemma_encode_subtree_len(content);
                lemma_header_value(content.len() as u64);
                assert(false);
            }
        }
    }

    /// A fresh reader of less than an encoding of some content is on its way through it.
    pub proof fn law_fresh_runs_short(self, content: Seq<u8>)
        requires
            self.wf(),
            self.fresh(),
            self.falls_short(content),
            self.core.verify.root_hash == root_hash(content),
            combined_encoding(content).len() <= u64::MAX,
        ensures
            self.runs_short(content),
            self.reading_position() == 0,
    {
        reveal(ReaderView::runs_short);
        let whole = self.completed(content);
        lemma_encode_subtree_len(content);
        lemma_parents_size_bound(content.len() as int);
        match self.outboard {
            None => {
                let encoding = combined_encoding(content);
                assert(encoding.subrange(0, encoding.len() as int) =~= encoding);
                assert(self.input.bytes =~= encoding.take(self.input.bytes.len() as int));
            },
            Some(outboard) => {
                let encoding = outboard_encoding(content);
                assert(encoding.subrange(0, encoding.len() as int) =~= encoding);
                assert(content.subrange(0, content.len() as int) =~= content);
                assert(outboard.bytes =~= encoding.take(outboard.bytes.len() as int));
                assert(self.input.bytes =~= content.take(self.input.bytes.len() as int));
            },
        }
        whole.law_fresh_decodes(content);
    }

    /// However much is asked for at a time, less than an encoding of some content gives a part of
    /// the content from its start, and then no end but a failure.
    pub proof fn law_reads_short(self, content: Seq<u8>, rooms: Seq<int>)
        requires
            self.runs_short(content),
            forall|i: int| 0 <= i < rooms.len() ==> 0 <= #[trigger] rooms[i],
        ensures
            ({
                let (_, bytes, result) = self.read_all(rooms);
                let start = self.reading_position();
                &&& 0 <= start
                &&& start + bytes.len() <= content.len()
                &&& bytes == content.subrange(start, start + bytes.len())
                &&& result == Ok::<bool, ReadError>(false) || result == Err::<bool, ReadError>(
                    ReadError::UnexpectedEof,
                )
            }),
        decreases rooms.len(),
    {
        let start: int = self.reading_position();
        self.law_read_short(content, 0);
        if rooms.len() > 0 {
            self.law_read_short(content, rooms[0]);
            let outcome = self.read(rooms[0]);
            if outcome.result is Ok {
                let bytes = outcome.result->Ok_0;
                let rest_rooms = rooms.drop_first();
                assert forall|i: int| 0 <= i < rest_rooms.len() implies 0 <= #[trigger] rest_rooms[
                    i
                ] by {
                    assert(rest_rooms[i] == rooms[i + 1]);
                }
                outcome.after.law_reads_short(content, rest_rooms);
                let rest = outcome.after.read_all(rest_rooms).1;
                assert(bytes + rest =~= content.subrange(start, start + bytes.len() + rest.len()));
            } else {
                assert(content.subrange(start, start) =~= Seq::<u8>::empty());
            }
        } else {
            assert(content.subrange(start, start) =~= Seq::<u8>::empty());
        }
    }

    /// Reading less than an encoding of some content to the end fails because it is cut off, after
    /// a part of the content.
    pub proof fn law_drain_short(self, content: Seq<u8>)
        requires
            self.runs_short(content),
        ensures
            ({
                let (_, bytes, result) = self.drain();
                let start = self.reading_position();
                &&& 0 <= start
                &&& start + bytes.len() <= content.len()
                &&& bytes == content.subrange(start, start + bytes.len())
                &&& result == Err::<(), ReadError>(ReadError::UnexpectedEof)
            }),
        decreases self.header_rank(), self.to_come(),
    {
        let room: int = CHUNK_SIZE as int;
        let start: int = self.reading_position();
        self.law_read_short(content, room);
        self.lemma_read_progress(room);
        let outcome = self.read(room);
        if outcome.result is Ok {
            let bytes = outcome.result->Ok_0;
            outcome.after.law_drain_short(content);
            let rest = outcome.after.drain().1;
            assert(bytes + rest =~= content.subrange(start, start + bytes.len() + rest.len()));
        } else {
            assert(content.subrange(start, start) =~= Seq::<u8>::empty());
        }
    }
}

} // verus!
