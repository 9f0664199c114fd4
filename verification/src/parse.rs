//! The position of a reader in a tree: which node comes next, and how to seek.
//!
//! A position is a stack of the subtrees that are still to be read. The last of them comes next,
//! the first ends where the content ends.

use vstd::prelude::*;

use crate::hash::{decode_len, le_value, Finalization, CHUNK_SIZE, HEADER_SIZE};
use crate::tree::{
    chunk_count, encoded_size, encoded_subtree_size, height, left_len, left_part,
    lemma_height_bound, lemma_height_monotone, lemma_left_part, lemma_split_count,
    lemma_split_height, parents_size, subtree_size,
};

verus! {

/// What has to be read next.
#[derive(Clone, Copy, Debug, PartialEq, Eq, Structural)]
pub enum NextRead {
    /// The length header.
    Header,
    /// A parent node.
    Parent,
    /// A chunk of `size` bytes, of which the first `skip` are not wanted.
    Chunk { size: usize, finalization: Finalization, skip: usize },
    /// Nothing: the content has ended, or the seek is finished.
    Done,
}

/// One step of a seek: where to move without reading, and what to read there.
#[derive(Clone, Copy, Debug)]
pub struct SeekBookkeeping {
    /// Whether to start over from the root.
    pub reset_to_root: bool,
    /// How many unread subtrees are left once those before the target are skipped.
    pub stack_depth: usize,
    /// Where the next subtree starts in the content.
    pub position: u64,
    /// How many bytes of the next chunk lie before the target.
    pub skip: usize,
    /// Where the next subtree starts in a combined encoding.
    pub encoding_position: Option<u128>,
    /// What to read there.
    pub next_read: NextRead,
}

/// One step towards the verified content length.
#[derive(Clone, Copy, Debug)]
pub enum LenNext {
    Seek(SeekBookkeeping),
    Len(u64),
}

/// The sum of some lengths.
pub open spec fn total(lens: Seq<int>) -> int
    decreases lens.len(),
{
    if lens.len() == 0 {
        0
    } else {
        lens.last() + total(lens.drop_last())
    }
}

/// The sum of the parents of subtrees with some lengths.
pub open spec fn total_parents(lens: Seq<int>) -> int
    decreases lens.len(),
{
    if lens.len() == 0 {
        0
    } else {
        parents_size(lens.last()) + total_parents(lens.drop_last())
    }
}

/// The subtrees that are left of `pending`, which starts at `position`, once those that end below
/// `limit` are skipped.
pub open spec fn skip_subtrees(pending: Seq<int>, position: int, limit: int) -> Seq<int>
    decreases pending.len(),
{
    if pending.len() > 0 && position + pending.last() < limit {
        skip_subtrees(pending.drop_last(), position + pending.last(), limit)
    } else {
        pending
    }
}

/// A position in a tree.
#[verifier::ext_equal]
pub struct ParseView {
    /// The content length, once the header was read.
    pub content_len: Option<u64>,
    /// Where the next subtree starts in the content.
    pub position: int,
    /// How many bytes of the next chunk are not wanted.
    pub skip: int,
    /// The lengths of the unread subtrees, the next one last.
    pub pending: Seq<int>,
    /// Whether the final chunk was read.
    pub validated: bool,
}

impl ParseView {
    /// The position before the header.
    pub open spec fn start() -> ParseView {
        ParseView {
            content_len: None,
            position: 0,
            skip: 0,
            pending: Seq::empty(),
            validated: false,
        }
    }

    pub open spec fn len(self) -> int {
        self.content_len->0 as int
    }

    /// Whether the subtrees add up to what is left of the content.
    pub open spec fn wf(self) -> bool {
        if self.content_len is None {
            self == ParseView::start()
        } else {
            &&& 0 <= self.position
            &&& self.position + total(self.pending) == self.len()
            &&& total_parents(self.pending) <= parents_size(self.len())
            &&& forall|i: int|
                0 <= i < self.pending.len() ==> 0 <= #[trigger] self.pending[i] && i + height(
                    self.pending[i],
                ) <= height(self.len()) && (self.len() > 0 ==> self.pending[i] > 0)
            &&& self.len() == 0 ==> self.pending.len() <= 1
            &&& self.pending.len() == 0 ==> self.validated
            &&& 0 <= self.skip
            &&& self.skip > 0 ==> {
                &&& self.pending.len() > 0
                &&& self.pending.last() <= CHUNK_SIZE
                &&& self.skip < self.pending.last()
            }
        }
    }

    /// Whether the root is the next node.
    pub open spec fn at_root(self) -> bool {
        self.pending.len() == 1 && self.pending[0] == self.len()
    }

    pub open spec fn finalization(self) -> Finalization {
        if self.at_root() {
            Finalization::Root
        } else {
            Finalization::NotRoot
        }
    }

    /// Where in the content the next byte comes from.
    pub open spec fn content_position(self) -> int {
        self.position + self.skip
    }

    /// Where the next subtree starts in the parents of an outboard encoding, with its header.
    pub open spec fn outboard_position(self) -> int {
        HEADER_SIZE + parents_size(self.len()) - total_parents(self.pending)
    }

    /// Where the next subtree starts in a combined encoding.
    pub open spec fn encoding_position(self) -> int {
        self.position + self.outboard_position()
    }

    pub open spec fn read_next(self) -> NextRead {
        if self.content_len is None {
            NextRead::Header
        } else if self.pending.len() == 0 {
            NextRead::Done
        } else if self.pending.last() > CHUNK_SIZE {
            NextRead::Parent
        } else {
            NextRead::Chunk {
                size: self.pending.last() as usize,
                finalization: self.finalization(),
                skip: self.skip as usize,
            }
        }
    }

    /// The position behind a header for `content_len` bytes.
    pub open spec fn feed_header(self, content_len: u64) -> ParseView {
        ParseView {
            content_len: Some(content_len),
            pending: seq![content_len as int],
            ..self
        }
    }

    /// The position behind the next node, where that is a parent.
    pub open spec fn advance_parent(self) -> ParseView {
        let len = self.pending.last();
        ParseView {
            pending: self.pending.drop_last().push(len - left_part(len)).push(left_part(len)),
            ..self
        }
    }

    /// The position behind the next node, where that is a chunk.
    pub open spec fn advance_chunk(self) -> ParseView {
        ParseView {
            position: self.position + self.pending.last(),
            skip: 0,
            pending: self.pending.drop_last(),
            validated: self.validated || self.pending.len() == 1,
            ..self
        }
    }

    /// The position at the root.
    pub open spec fn reset(self) -> ParseView {
        ParseView { position: 0, skip: 0, pending: seq![self.len()], ..self }
    }

    /// Where a step of a seek moves to without reading. Below the end of the content, this is the
    /// unread subtree that holds the target, or the root if the target was passed. At or past the
    /// end, it is the end itself if the final chunk was read before, and else the subtree that
    /// holds the final chunk.
    pub open spec fn seek_move(self, seek_to: int) -> ParseView {
        if self.content_len is None {
            self
        } else if seek_to < self.len() {
            let from = if seek_to < self.position {
                self.reset()
            } else {
                self
            };
            let pending = skip_subtrees(from.pending, from.position, seek_to + 1);
            let position = self.len() - total(pending);
            ParseView {
                position,
                skip: if pending.last() <= CHUNK_SIZE {
                    seek_to - position
                } else {
                    0
                },
                pending,
                ..self
            }
        } else if self.validated {
            ParseView { position: self.len(), skip: 0, pending: Seq::empty(), ..self }
        } else {
            let pending = skip_subtrees(self.pending, self.position, self.len());
            ParseView { position: self.len() - total(pending), skip: 0, pending, ..self }
        }
    }

    /// What a step of a seek reads where it moved to. A chunk is read only to verify the end of
    /// the content, and then none of its bytes are wanted.
    pub open spec fn seek_read(self, seek_to: int) -> NextRead {
        match self.seek_move(seek_to).read_next() {
            NextRead::Chunk { size, finalization, skip } => {
                if seek_to < self.len() {
                    NextRead::Done
                } else {
                    NextRead::Chunk { size, finalization, skip: size }
                }
            },
            next => next,
        }
    }

    /// The step of a seek as a record.
    pub open spec fn seek_next(self, seek_to: int) -> SeekBookkeeping {
        let moved = self.seek_move(seek_to);
        SeekBookkeeping {
            reset_to_root: self.content_len is Some && seek_to < self.len() && seek_to
                < self.position,
            stack_depth: if self.content_len is None {
                1
            } else {
                moved.pending.len() as usize
            },
            position: moved.position as u64,
            skip: moved.skip as usize,
            encoding_position: if self.content_len is None {
                None
            } else {
                Some(moved.encoding_position() as u128)
            },
            next_read: self.seek_read(seek_to),
        }
    }

    /// Where a recorded step of a seek moves to.
    pub open spec fn after_seek(self, bookkeeping: SeekBookkeeping) -> ParseView {
        if self.content_len is None {
            self
        } else {
            let from = if bookkeeping.reset_to_root {
                self.reset()
            } else {
                self
            };
            ParseView {
                position: bookkeeping.position as int,
                skip: bookkeeping.skip as int,
                pending: from.pending.take(bookkeeping.stack_depth as int),
                ..self
            }
        }
    }

    /// Whether a record is one of a step of a seek from here.
    pub open spec fn is_step(self, bookkeeping: SeekBookkeeping) -> bool {
        exists|seek_to: int| 0 <= seek_to && bookkeeping == #[trigger] self.seek_next(seek_to)
    }

    pub open spec fn len_next(self) -> LenNext {
        if self.validated {
            LenNext::Len(self.content_len->0)
        } else {
            LenNext::Seek(self.seek_next(u64::MAX as int))
        }
    }
}

pub proof fn lemma_total_push(lens: Seq<int>, len: int)
    ensures
        total(lens.push(len)) == total(lens) + len,
        total_parents(lens.push(len)) == total_parents(lens) + parents_size(len),
{
    assert(lens.push(len).drop_last() =~= lens);
}

pub proof fn lemma_total_one(len: int)
    ensures
        total(seq![len]) == len,
        total_parents(seq![len]) == parents_size(len),
{
    assert(seq![len].drop_last() =~= Seq::<int>::empty());
    assert(total(seq![len].drop_last()) == 0);
    assert(total_parents(seq![len].drop_last()) == 0);
}

pub proof fn lemma_parents_size_bound(len: int)
    requires
        0 <= len,
    ensures
        0 <= parents_size(len) <= len / 64 + 64,
{
}

pub proof fn lemma_total_nonnegative(lens: Seq<int>)
    requires
        forall|i: int| 0 <= i < lens.len() ==> 0 <= #[trigger] lens[i],
    ensures
        0 <= total(lens),
        0 <= total_parents(lens),
        lens.len() > 0 ==> lens.last() <= total(lens),
    decreases lens.len(),
{
    if lens.len() > 0 {
        lemma_total_nonnegative(lens.drop_last());
        lemma_parents_size_bound(lens.last());
    }
}

/// Skipping subtrees drops some of the last ones, and no more than lie below the limit.
pub proof fn lemma_skip_subtrees(pending: Seq<int>, position: int, limit: int)
    requires
        forall|i: int| 0 <= i < pending.len() ==> 0 <= #[trigger] pending[i],
    ensures
        ({
            let rest = skip_subtrees(pending, position, limit);
            &&& rest.len() <= pending.len()
            &&& rest == pending.take(rest.len() as int)
            &&& rest.len() == pending.len() ==> rest == pending
            &&& total_parents(rest) <= total_parents(pending)
            &&& total(rest) <= total(pending)
            &&& rest.len() < pending.len() ==> position + total(pending) - total(rest) < limit
            &&& rest.len() > 0 ==> position + total(pending) - total(rest.drop_last()) >= limit
            &&& position + total(pending) >= limit && pending.len() > 0 ==> rest.len() > 0
        }),
    decreases pending.len(),
{
    lemma_total_nonnegative(pending);
    if pending.len() > 0 && position + pending.last() < limit {
        lemma_skip_subtrees(pending.drop_last(), position + pending.last(), limit);
        lemma_parents_size_bound(pending.last());
        let rest = skip_subtrees(pending, position, limit);
        assert(rest =~= pending.take(rest.len() as int));
        assert(rest.len() < pending.len());
        if pending.len() == 1 {
            assert(total(pending.drop_last()) == 0);
        }
    } else {
        assert(pending =~= pending.take(pending.len() as int));
    }
}

impl ParseView {
    pub proof fn lemma_feed_header(self, content_len: u64)
        requires
            self.wf(),
            self.content_len is None,
        ensures
            self.feed_header(content_len).wf(),
    {
        lemma_total_one(content_len as int);
        lemma_height_monotone(0, content_len as int);
    }

    pub proof fn lemma_reset(self)
        requires
            self.wf(),
            self.content_len is Some,
        ensures
            self.reset().wf(),
    {
        lemma_total_one(self.len());
        lemma_height_monotone(0, self.len());
    }

    /// A parent makes way for its two subtrees.
    pub proof fn lemma_advance_parent(self)
        requires
            self.wf(),
            self.read_next() is Parent,
        ensures
            self.advance_parent().wf(),
            self.advance_parent().pending.len() == self.pending.len() + 1,
            self.advance_parent().outboard_position() == self.outboard_position()
                + crate::hash::PARENT_SIZE,
            0 < left_part(self.pending.last()) < self.pending.last(),
    {
        let len = self.pending.last();
        let rest = self.pending.drop_last();
        lemma_left_part(len);
        lemma_split_count(len);
        lemma_split_height(len);
        lemma_total_push(rest, len - left_part(len));
        lemma_total_push(rest.push(len - left_part(len)), left_part(len));
        assert forall|i: int| 0 <= i < rest.len() implies #[trigger] rest[i] == self.pending[i] by {
        }
    }

    /// A chunk makes way for what follows it.
    pub proof fn lemma_advance_chunk(self)
        requires
            self.wf(),
            self.read_next() is Chunk,
        ensures
            self.advance_chunk().wf(),
            self.advance_chunk().outboard_position() == self.outboard_position(),
            parents_size(self.pending.last()) == 0,
    {
        let last: int = self.pending.last();
        assert(chunk_count(last) == 1);
        let rest = self.pending.drop_last();
        assert forall|i: int| 0 <= i < rest.len() implies #[trigger] rest[i] == self.pending[i] by {
        }
        lemma_total_nonnegative(rest);
    }

    /// The step of a seek leads to a position that holds the target, or the final chunk.
    pub proof fn lemma_seek_move(self, seek_to: int)
        requires
            self.wf(),
            0 <= seek_to,
        ensures
            self.seek_move(seek_to).wf(),
            self.content_len is Some ==> {
                let moved = self.seek_move(seek_to);
                let from = if seek_to < self.len() && seek_to < self.position {
                    self.reset()
                } else {
                    self
                };
                &&& moved.pending.len() <= from.pending.len()
                &&& moved.pending == from.pending.take(moved.pending.len() as int)
                &&& seek_to < self.len() ==> {
                    &&& moved.pending.len() > 0
                    &&& moved.position <= seek_to < moved.position + moved.pending.last()
                }
                &&& seek_to >= self.len() ==> {
                    &&& self.validated ==> moved.pending.len() == 0
                    &&& !self.validated ==> moved.pending.len() == 1
                }
            },
    {
        if self.content_len is Some {
            let from = if seek_to < self.len() && seek_to < self.position {
                self.reset()
            } else {
                self
            };
            self.lemma_reset();
            let moved = self.seek_move(seek_to);
            if seek_to < self.len() {
                lemma_skip_subtrees(from.pending, from.position, seek_to + 1);
                assert(total(moved.pending) == total(moved.pending.drop_last())
                    + moved.pending.last());
            } else if self.validated {
                assert(moved.pending =~= from.pending.take(0));
                lemma_parents_size_bound(self.len());
            } else {
                lemma_skip_subtrees(self.pending, self.position, self.len());
                let rest = moved.pending;
                assert(rest.len() > 0);
                lemma_total_nonnegative(rest.drop_last());
                if rest.len() > 1 {
                    assert(rest.drop_last()[0] == self.pending[0]);
                    lemma_total_positive(rest.drop_last());
                }
            }
            assert forall|i: int| 0 <= i < moved.pending.len() implies #[trigger] moved.pending[i]
                == from.pending[i] by {
            }
            lemma_total_nonnegative(moved.pending);
        }
    }
}

impl ParseView {
    /// There are never more unread subtrees than levels, plus one.
    pub proof fn lemma_depth(self)
        requires
            self.wf(),
        ensures
            self.pending.len() <= 53,
            self.content_len is Some ==> 0 <= total(self.pending),
            self.pending.len() > 0 ==> self.pending.last() <= total(self.pending),
    {
        if self.content_len is Some {
            lemma_total_nonnegative(self.pending);
            lemma_height_bound(self.content_len->0);
            if self.pending.len() > 0 {
                lemma_height_monotone(0, self.pending.last());
            }
        }
    }

    /// The numbers of a recorded step fit their types.
    pub proof fn lemma_seek_next(self, seek_to: int)
        requires
            self.wf(),
            0 <= seek_to,
        ensures
            self.after_seek(self.seek_next(seek_to)) == self.seek_move(seek_to),
            self.content_len is Some ==> {
                let bookkeeping = self.seek_next(seek_to);
                let moved = self.seek_move(seek_to);
                &&& bookkeeping.stack_depth == moved.pending.len()
                &&& bookkeeping.position == moved.position
                &&& bookkeeping.skip == moved.skip
                &&& bookkeeping.encoding_position is Some
                &&& bookkeeping.encoding_position->0 == moved.encoding_position()
                &&& HEADER_SIZE <= moved.outboard_position() <= u64::MAX
            },
    {
        self.lemma_seek_move(seek_to);
        if self.content_len is Some {
            let moved = self.seek_move(seek_to);
            lemma_parents_size_bound(self.len());
            lemma_height_bound(self.content_len->0);
            lemma_total_nonnegative(moved.pending);
            if moved.pending.len() > 0 {
                lemma_height_monotone(0, moved.pending.last());
            }
            assert(self.after_seek(self.seek_next(seek_to)) =~= moved);
        }
    }
}

proof fn lemma_total_positive(lens: Seq<int>)
    requires
        lens.len() > 0,
        forall|i: int| 0 <= i < lens.len() ==> 0 < #[trigger] lens[i],
    ensures
        0 < total(lens),
    decreases lens.len(),
{
    if lens.len() > 1 {
        lemma_total_positive(lens.drop_last());
    } else {
        assert(total(lens.drop_last()) == 0);
    }
}

/// A position in a tree, moved along by what is read.
#[derive(Debug)]
pub struct ParseState {
    content_len: Option<u64>,
    position: u64,
    skip: usize,
    pending: Vec<u64>,
    final_chunk_validated: bool,
}

spec fn as_lengths(pending: Seq<u64>) -> Seq<int> {
    Seq::new(pending.len(), |i: int| pending[i] as int)
}

impl View for ParseState {
    type V = ParseView;

    closed spec fn view(&self) -> ParseView {
        ParseView {
            content_len: self.content_len,
            position: self.position as int,
            skip: self.skip as int,
            pending: as_lengths(self.pending@),
            validated: self.final_chunk_validated,
        }
    }
}

impl Clone for ParseState {
    fn clone(&self) -> (copy: Self)
        ensures
            copy@ == self@,
    {
        let mut pending: Vec<u64> = Vec::new();
        let mut i: usize = 0;
        while i < self.pending.len()
            invariant
                i <= self.pending.len(),
                pending@ == self.pending@.take(i as int),
            decreases self.pending.len() - i,
        {
            pending.push(self.pending[i]);
            i += 1;
        }
        assert(pending@ =~= self.pending@);
        ParseState {
            content_len: self.content_len,
            position: self.position,
            skip: self.skip,
            pending,
            final_chunk_validated: self.final_chunk_validated,
        }
    }
}

impl ParseState {
    /// The position before the header.
    pub fn new() -> (state: Self)
        ensures
            state@ == ParseView::start(),
            state@.wf(),
    {
        let state = ParseState {
            content_len: None,
            position: 0,
            skip: 0,
            pending: Vec::new(),
            final_chunk_validated: false,
        };
        assert(state@.pending =~= Seq::<int>::empty());
        state
    }

    /// The content length that the header claims, once it was read.
    pub fn content_len(&self) -> (len: Option<u64>)
        ensures
            len == self@.content_len,
    {
        self.content_len
    }

    /// Where in the content the next byte comes from.
    pub fn content_position(&self) -> (position: u64)
        requires
            self@.wf(),
        ensures
            position == self@.content_position(),
    {
        proof {
            self.lemma_bounds();
        }
        self.position + self.skip as u64
    }

    /// Whether the next node is the root.
    pub fn finalization(&self) -> (finalization: Finalization)
        requires
            self@.content_len is Some,
        ensures
            finalization == self@.finalization(),
    {
        if self.pending.len() == 1 && Some(self.pending[0]) == self.content_len {
            Finalization::Root
        } else {
            Finalization::NotRoot
        }
    }

    proof fn lemma_bounds(&self)
        requires
            self@.wf(),
        ensures
            self@.content_len is Some ==> {
                &&& self.position <= self@.len()
                &&& self@.pending.len() > 0 ==> self.position + self@.pending.last() <= self@.len()
            },
    {
        self@.lemma_depth();
    }

    /// What has to be read next.
    pub fn read_next(&self) -> (next: NextRead)
        requires
            self@.wf(),
        ensures
            next == self@.read_next(),
    {
        if self.content_len.is_none() {
            return NextRead::Header;
        }
        let depth: usize = self.pending.len();
        if depth == 0 {
            return NextRead::Done;
        }
        let len: u64 = self.pending[depth - 1];
        assert(self@.pending.last() == len);
        if len > CHUNK_SIZE as u64 {
            NextRead::Parent
        } else {
            NextRead::Chunk {
                size: len as usize,
                finalization: self.finalization(),
                skip: self.skip,
            }
        }
    }

    /// The next step of a seek to `seek_to`.
    pub fn seek_next(&self, seek_to: u64) -> (bookkeeping: SeekBookkeeping)
        requires
            self@.wf(),
        ensures
            bookkeeping == self@.seek_next(seek_to as int),
    {
        proof {
            self.lemma_bounds();
            self@.lemma_seek_move(seek_to as int);
        }
        let len: u64 = match self.content_len {
            None => {
                return SeekBookkeeping {
                    reset_to_root: false,
                    stack_depth: 1,
                    position: 0,
                    skip: 0,
                    encoding_position: None,
                    next_read: NextRead::Header,
                };
            },
            Some(len) => len,
        };
        let past_end: bool = seek_to >= len;
        let ghost moved = self@.seek_move(seek_to as int);
        let encoding_end: u128 = encoded_size(len);
        proof {
            lemma_parents_size_bound(len as int);
        }
        if past_end && self.final_chunk_validated {
            assert(total_parents(moved.pending) == 0);
            return SeekBookkeeping {
                reset_to_root: false,
                stack_depth: 0,
                position: len,
                skip: 0,
                encoding_position: Some(encoding_end),
                next_read: NextRead::Done,
            };
        }
        let reset_to_root: bool = !past_end && seek_to < self.position;
        if reset_to_root {
            proof {
                lemma_total_one(len as int);
                lemma_skip_subtrees(seq![len as int], 0, seek_to + 1);
                assert(moved.pending =~= seq![len as int]);
            }
            return SeekBookkeeping {
                reset_to_root,
                stack_depth: 1,
                position: 0,
                skip: if len > CHUNK_SIZE as u64 {
                    0
                } else {
                    seek_to as usize
                },
                encoding_position: Some(HEADER_SIZE as u128),
                next_read: if len > CHUNK_SIZE as u64 {
                    NextRead::Parent
                } else {
                    NextRead::Done
                },
            };
        }
        let limit: u64 = if past_end {
            len
        } else {
            seek_to + 1
        };
        let mut depth: usize = self.pending.len();
        let mut position: u64 = self.position;
        assert(self@.pending =~= self@.pending.take(depth as int));
        while depth > 0 && position + self.pending[depth - 1] < limit
            invariant
                self@.wf(),
                self@.content_len == Some(len),
                limit <= len,
                depth <= self.pending.len(),
                position + total(self@.pending.take(depth as int)) == len,
                moved.pending == skip_subtrees(
                    self@.pending.take(depth as int),
                    position as int,
                    limit as int,
                ),
                depth > 0 ==> position + self.pending[depth - 1] <= len,
            decreases depth,
        {
            let ghost here = self@.pending.take(depth as int);
            assert(here.last() == self.pending[depth - 1]);
            position = position + self.pending[depth - 1];
            depth -= 1;
            proof {
                assert(here.drop_last() =~= self@.pending.take(depth as int));
                lemma_total_nonnegative(self@.pending.take(depth as int));
            }
        }
        let ghost rest = self@.pending.take(depth as int);
        proof {
            if depth > 0 {
                assert(rest.last() == self.pending[depth - 1]);
            }
            assert(moved.pending == rest);
            assert(moved.position == position);
        }
        let top: u64 = self.pending[depth - 1];
        // The encoding ends with the subtrees that are left.
        let mut encoding_position: u128 = encoding_end;
        let mut i: usize = depth;
        assert(rest.take(depth as int) =~= rest);
        while i > 0
            invariant
                self@.wf(),
                self@.content_len == Some(len),
                i <= depth <= self.pending.len(),
                rest == self@.pending.take(depth as int),
                encoding_end == HEADER_SIZE + subtree_size(len as int),
                total(rest) <= len,
                total_parents(rest) <= parents_size(len as int),
                encoding_end - encoding_position == total(rest) - total(rest.take(i as int))
                    + total_parents(rest) - total_parents(rest.take(i as int)),
            decreases i,
        {
            let ghost here = rest.take(i as int);
            i -= 1;
            proof {
                assert(here.last() == self.pending[i as int]);
                assert(here.drop_last() =~= rest.take(i as int));
                lemma_total_nonnegative(rest.take(i as int));
            }
            encoding_position = encoding_position - encoded_subtree_size(self.pending[i]);
        }
        proof {
            assert(rest.take(0) =~= Seq::<int>::empty());
            assert(encoding_position == moved.encoding_position());
        }
        let next_read: NextRead = if top > CHUNK_SIZE as u64 {
            NextRead::Parent
        } else if past_end {
            NextRead::Chunk {
                size: top as usize,
                finalization: if depth == 1 && top == len {
                    Finalization::Root
                } else {
                    Finalization::NotRoot
                },
                skip: top as usize,
            }
        } else {
            NextRead::Done
        };
        SeekBookkeeping {
            reset_to_root,
            stack_depth: depth,
            position,
            skip: if past_end || top > CHUNK_SIZE as u64 {
                0
            } else {
                (seek_to - position) as usize
            },
            encoding_position: Some(encoding_position),
            next_read,
        }
    }

    /// Moves to where a step of a seek leads, and returns what to read there.
    pub fn seek_bookkeeping_done(&mut self, bookkeeping: SeekBookkeeping) -> (next: NextRead)
        requires
            old(self)@.wf(),
            old(self)@.is_step(bookkeeping),
        ensures
            final(self)@ == old(self)@.after_seek(bookkeeping),
            final(self)@.wf(),
            next == bookkeeping.next_read,
    {
        proof {
            let seek_to = choose|seek_to: int|
                0 <= seek_to && bookkeeping == #[trigger] self@.seek_next(seek_to);
            self@.lemma_seek_next(seek_to);
            self@.lemma_seek_move(seek_to);
        }
        if let Some(len) = self.content_len {
            if bookkeeping.reset_to_root {
                self.pending.clear();
                self.pending.push(len);
            }
            self.pending.truncate(bookkeeping.stack_depth);
            self.position = bookkeeping.position;
            self.skip = bookkeeping.skip;
            assert(self@.pending =~= old(self)@.after_seek(bookkeeping).pending);
        }
        bookkeeping.next_read
    }

    /// The next step towards the verified content length.
    pub fn len_next(&self) -> (next: LenNext)
        requires
            self@.wf(),
        ensures
            next == self@.len_next(),
    {
        match self.content_len {
            Some(len) if self.final_chunk_validated => LenNext::Len(len),
            _ => LenNext::Seek(self.seek_next(u64::MAX)),
        }
    }

    /// Moves behind the header.
    pub fn feed_header(&mut self, header: &[u8; HEADER_SIZE])
        requires
            old(self)@.wf(),
            old(self)@.content_len is None,
        ensures
            final(self)@ == old(self)@.feed_header(le_value(header@) as u64),
            final(self)@.wf(),
    {
        let len: u64 = decode_len(header);
        proof {
            self@.lemma_feed_header(len);
        }
        self.content_len = Some(len);
        self.pending.clear();
        self.pending.push(len);
        assert(self@.pending =~= seq![len as int]);
    }

    /// Moves behind a parent, to its left subtree.
    pub fn advance_parent(&mut self)
        requires
            old(self)@.wf(),
            old(self)@.read_next() is Parent,
        ensures
            final(self)@ == old(self)@.advance_parent(),
            final(self)@.wf(),
    {
        proof {
            self@.lemma_advance_parent();
        }
        let depth: usize = self.pending.len();
        let len: u64 = self.pending[depth - 1];
        assert(self@.pending.last() == len);
        let part: u64 = left_len(len);
        self.pending.set(depth - 1, len - part);
        self.pending.push(part);
        assert(self@.pending =~= old(self)@.advance_parent().pending);
    }

    /// Moves behind a chunk.
    pub fn advance_chunk(&mut self)
        requires
            old(self)@.wf(),
            old(self)@.read_next() is Chunk,
        ensures
            final(self)@ == old(self)@.advance_chunk(),
            final(self)@.wf(),
    {
        proof {
            self.lemma_bounds();
            self@.lemma_advance_chunk();
        }
        let depth: usize = self.pending.len();
        let len: u64 = self.pending[depth - 1];
        assert(self@.pending.last() == len);
        self.pending.truncate(depth - 1);
        self.position = self.position + len;
        self.skip = 0;
        if depth == 1 {
            self.final_chunk_validated = true;
        }
        assert(self@.pending =~= old(self)@.advance_chunk().pending);
    }
}

impl SeekBookkeeping {
    /// Whether to start over from the root.
    pub fn reset_to_root(&self) -> (reset: bool)
        ensures
            reset == self.reset_to_root,
    {
        self.reset_to_root
    }

    /// How many unread subtrees are left.
    pub fn stack_depth(&self) -> (depth: usize)
        ensures
            depth == self.stack_depth,
    {
        self.stack_depth
    }

    /// Where to seek in a combined encoding.
    pub fn underlying_seek(&self) -> (position: Option<u128>)
        ensures
            position == self.encoding_position,
    {
        self.encoding_position
    }

    /// Where to seek in the content and in an outboard encoding.
    pub fn underlying_seek_outboard(&self) -> (positions: Option<(u64, u64)>)
        requires
            self.encoding_position is Some ==> 0 <= self.encoding_position->0 - self.position
                <= u64::MAX,
        ensures
            positions is Some == self.encoding_position is Some,
            positions matches Some((content, outboard)) ==> content == self.position && outboard
                == self.encoding_position->0 - self.position,
    {
        match self.encoding_position {
            None => None,
            Some(encoding_position) => {
                let outboard: u128 = encoding_position - self.position as u128;
                Some((self.position, outboard as u64))
            },
        }
    }
}

} // verus!
