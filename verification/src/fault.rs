//! The first node that is not right decides how a read or a seek fails: because the source ends
//! there, or because of a wrong hash. The reader keeps its place, and can seek elsewhere.

use vstd::prelude::*;

use crate::complete::found_at;
use crate::cut::{
    lemma_all_reached_last, lemma_all_reached_root, lemma_all_reached_take, lemma_lies_root,
    reached,
};
use crate::damage::{chunk_base, chunk_finalization, lemma_chunk_finalization, on_grid};
use crate::error::{Error, ReadError};
use crate::hash::{
    header, lemma_header_value, Finalization, Node, CHUNK_SIZE, HEADER_SIZE, PARENT_SIZE,
};
use crate::origin::chunk_at;
use crate::parse::{
    lemma_total_nonnegative, lemma_total_one, total, total_parents, ParseView,
};
use crate::partial::{
    chunk_end, extent, in_tree, lemma_chunk_around, lemma_in_tree_last, lemma_lies_bounds, lies_at,
    place,
};
use crate::parts::unread;
use crate::reading::{min, ReaderView};
use crate::tree::{
    left, left_part, lemma_left_part, lemma_split_count, lemma_subtree_hash_len, parent_node,
    parents_size, right, root_hash, subtree_hash,
};

verus! {

/// Where an unread subtree starts.
spec fn start_of(parser: ParseView, i: int) -> int {
    parser.len() - total(parser.pending.take(i + 1))
}

proof fn lemma_starts_on_grid(parser: ParseView, i: int)
    requires
        parser.wf(),
        parser.content_len is Some,
        in_tree(parser),
        0 <= i < parser.pending.len(),
    ensures
        start_of(parser, i) % (CHUNK_SIZE as int) == 0,
        0 < i ==> start_of(parser, i - 1) == start_of(parser, i) + parser.pending[i],
        i == parser.pending.len() - 1 ==> start_of(parser, i) == parser.position,
{
    let upper = parser.pending.take(i + 1);
    lemma_lies_bounds(
        parser.len(),
        start_of(parser, i),
        parser.pending[i],
        parents_size(parser.len()) - total_parents(upper),
    );
    assert(upper.drop_last() =~= parser.pending.take(i));
    assert(upper.last() == parser.pending[i]);
    if i == parser.pending.len() - 1 {
        assert(upper =~= parser.pending);
    }
}

proof fn lemma_in_tree_grid(parser: ParseView)
    requires
        parser.wf(),
        parser.content_len is Some,
        in_tree(parser),
    ensures
        on_grid(parser),
{
    if parser.pending.len() > 0 {
        lemma_starts_on_grid(parser, parser.pending.len() - 1);
    }
    assert forall|i: int| 0 < i < parser.pending.len() implies #[trigger] parser.pending[i] % (
    CHUNK_SIZE as int) == 0 by {
        lemma_starts_on_grid(parser, i);
        lemma_starts_on_grid(parser, i - 1);
    }
}

impl ReaderView {
    /// A read whose way to the next chunk is there fails at that chunk if it is not: because the
    /// source ends there, or with a wrong hash. A chunk with a wrong hash was read, and if it would
    /// have gone straight to the caller, it leaves zeroes there.
    #[verifier::rlimit(40)]
    pub proof fn law_read_faulty_chunk(self, content: Seq<u8>, room: int)
        requires
            self.stands_in(content),
            self.aligned(),
            self.core.buf.len() == 0,
            self.reading_position() < content.len(),
            self.has_path(content, self.reading_position()),
            0 <= room,
        ensures
            ({
                let start = self.reading_position();
                let len = content.len() as int;
                let base = chunk_base(start);
                let size = chunk_end(len, start) - base;
                let at = self.chunk_place(content, base);
                let stored = self.input.bytes.subrange(at, at + size);
                let finalization = chunk_finalization(len);
                let outcome = self.read(room);
                &&& at + size > self.input.bytes.len() ==> {
                    &&& outcome.result == Err::<Seq<u8>, ReadError>(ReadError::UnexpectedEof)
                    &&& outcome.cleared == 0
                    &&& outcome.after.aligned()
                }
                &&& at + size <= self.input.bytes.len() && Node::chunk(
                    stored,
                    finalization,
                ).hash() != Node::chunk(chunk_at(content, base), finalization).hash() ==> {
                    &&& outcome.result == Err::<Seq<u8>, ReadError>(
                        ReadError::Decode(Error::HashMismatch),
                    )
                    &&& outcome.cleared == if start == base && room >= size {
                        size
                    } else {
                        0
                    }
                    &&& outcome.after.input.position == at + size
                }
                &&& outcome.result is Err ==> {
                    &&& outcome.after.stands_in(content)
                    &&& outcome.after.reading_position() == start
                    &&& outcome.after.core.buf.len() == 0
                    &&& outcome.after.parser().content_len is Some
                }
            }),
    {
        let start: int = self.reading_position();
        let len: int = content.len() as int;
        let base: int = chunk_base(start);
        self.lemma_descend_there(content);
        self.lemma_descend();
        let here = self.descend().0;
        let size: int = here.parser().pending.last();
        here.core.verify.lemma_tracks_segments(content);
        assert(here.parser().read_next() is Chunk);
        let parents: int = here.parser().outboard_position() - HEADER_SIZE;
        lemma_in_tree_last(here.parser());
        lemma_lies_bounds(len, here.parser().position, size, parents);
        lemma_chunk_around(here.parser().position, size, len, start);
        lemma_in_tree_grid(here.parser());
        lemma_chunk_finalization(here.parser());
        here.core.verify.lemma_track_chunk(content);
        here.lemma_read_chunk(size, here.parser().finalization(), here.parser().skip, room);
        assert(unread(here.parser(), content).last() =~= chunk_at(content, base));
        assert(here.input.next(size) == self.input.bytes.subrange(
            here.input.position,
            here.input.position + size,
        ));
    }
}

impl ReaderView {
    /// A read of a reader that stands before a chunk takes what comes next in its source for that
    /// chunk, wherever the source stands. So after a chunk that failed, unless there is a seek,
    /// what follows it is tried in its place.
    pub proof fn law_read_before_chunk(self, content: Seq<u8>, room: int)
        requires
            self.stands_in(content),
            self.core.buf.len() == 0,
            self.parser().content_len is Some,
            self.parser().read_next() is Chunk,
            self.reading_position() < content.len(),
            0 <= room,
        ensures
            ({
                let start = self.reading_position();
                let len = content.len() as int;
                let base = chunk_base(start);
                let size = chunk_end(len, start) - base;
                let at = self.input.position;
                let stored = self.input.bytes.subrange(at, at + size);
                let chunk = chunk_at(content, base);
                let finalization = chunk_finalization(len);
                let outcome = self.read(room);
                &&& at + size > self.input.bytes.len() ==> {
                    &&& outcome.result == Err::<Seq<u8>, ReadError>(ReadError::UnexpectedEof)
                    &&& outcome.after == self
                }
                &&& at + size <= self.input.bytes.len() && stored == chunk ==> {
                    let end = start + min(chunk_end(len, start) - start, room);
                    &&& outcome.result == Ok::<Seq<u8>, ReadError>(content.subrange(start, end))
                    &&& outcome.after.stands_in(content)
                    &&& outcome.after.reading_position() == end
                    &&& outcome.after.input.position == at + size
                }
                &&& at + size <= self.input.bytes.len() && Node::chunk(
                    stored,
                    finalization,
                ).hash() != Node::chunk(chunk, finalization).hash() ==> {
                    &&& outcome.result == Err::<Seq<u8>, ReadError>(
                        ReadError::Decode(Error::HashMismatch),
                    )
                    &&& outcome.after.stands_in(content)
                    &&& outcome.after.reading_position() == start
                    &&& outcome.after.input.position == at + size
                    &&& outcome.after.parser() == self.parser()
                }
            }),
    {
        let start: int = self.reading_position();
        let len: int = content.len() as int;
        let base: int = chunk_base(start);
        let size: int = self.parser().pending.last();
        let parents: int = self.parser().outboard_position() - HEADER_SIZE;
        let pending = self.parser().pending;
        self.lemma_rank();
        self.core.verify.lemma_tracks_segments(content);
        assert(pending[pending.len() - 1] > 0);
        lemma_in_tree_last(self.parser());
        lemma_lies_bounds(len, self.parser().position, size, parents);
        lemma_chunk_around(self.parser().position, size, len, start);
        lemma_in_tree_grid(self.parser());
        lemma_chunk_finalization(self.parser());
        self.core.verify.lemma_track_chunk(content);
        self.lemma_read_chunk(size, self.parser().finalization(), self.parser().skip, room);
        assert(unread(self.parser(), content).last() =~= chunk_at(content, base));
        if self.input.has(size) && self.input.next(size) == chunk_at(content, base) {
            self.lemma_chunk_there(content, self.parser().skip, room);
        }
    }
}

/// How the way down to the byte of `content` at `position` fails at the first parent that is not
/// right, if there is one: because the source ends there, or because of a wrong hash. There is no
/// telling about a parent that is not right but has the right hash.
pub open spec fn path_fault(
    content: Seq<u8>,
    finalization: Finalization,
    bytes: Seq<u8>,
    at: int,
    position: int,
    outboard: bool,
) -> Option<ReadError>
    decreases content.len(),
{
    if content.len() <= CHUNK_SIZE {
        None
    } else if at + PARENT_SIZE > bytes.len() {
        Some(ReadError::UnexpectedEof)
    } else if Node::parent(bytes.subrange(at, at + PARENT_SIZE), finalization).hash()
        != subtree_hash(content, finalization) {
        Some(ReadError::Decode(Error::HashMismatch))
    } else if bytes.subrange(at, at + PARENT_SIZE) != parent_node(content) {
        None
    } else {
        proof {
            lemma_left_part(content.len() as int);
        }
        let l = left_part(content.len() as int);
        if position < l {
            path_fault(
                left(content),
                Finalization::NotRoot,
                bytes,
                at + PARENT_SIZE,
                position,
                outboard,
            )
        } else {
            path_fault(
                right(content),
                Finalization::NotRoot,
                bytes,
                at + PARENT_SIZE + extent(l, outboard),
                position - l,
                outboard,
            )
        }
    }
}

impl ReaderView {
    /// How the way down from the next unread subtree to the byte at `position` fails.
    pub open spec fn way_fault(self, content: Seq<u8>, position: int) -> Option<ReadError> {
        path_fault(
            unread(self.parser(), content).last(),
            self.parser().finalization(),
            self.nodes().bytes,
            self.nodes_place(),
            position - self.parser().position,
            self.outboard is Some,
        )
    }

    /// Where the next unread subtree starts among the nodes.
    pub open spec fn nodes_place(self) -> int {
        if self.outboard is Some {
            self.parser().outboard_position()
        } else {
            self.parser().encoding_position()
        }
    }

    /// Whether the source of the nodes stands behind the next parent if that failed because of
    /// `error`, a wrong hash.
    pub open spec fn past_parent(self, error: ReadError) -> bool {
        error == ReadError::Decode(Error::HashMismatch) ==> self.nodes().position
            == self.nodes_place() + PARENT_SIZE
    }

    /// Whether the byte at `position` is in the next unread subtree.
    pub open spec fn heads_for(self, position: int) -> bool {
        &&& self.parser().content_len is Some
        &&& self.parser().pending.len() > 0
        &&& self.parser().position <= position < self.parser().position
            + self.parser().pending.last()
    }

    /// One step down.
    proof fn lemma_fault_parent(self, content: Seq<u8>, position: int)
        requires
            self.stands_in(content),
            self.aligned(),
            self.parser().read_next() is Parent,
            self.heads_for(position),
            self.way_fault(content, position) is Some,
        ensures
            ({
                let (after, result) = self.read_parent();
                let l = left_part(self.parser().pending.last());
                let turn = self.parser().position + l;
                &&& after.stands_in(content)
                &&& after.nodes().bytes == self.nodes().bytes
                &&& after.outboard is Some == self.outboard is Some
                &&& result matches Err(error) ==> Some(error) == self.way_fault(
                    content,
                    position,
                )
                &&& result matches Err(error) ==> after.past_parent(error)
                &&& result is Err ==> after.reading_position() == self.reading_position()
                &&& result is Ok ==> {
                    let at = self.nodes_place() + PARENT_SIZE;
                    &&& after.aligned()
                    &&& after.reading_position() == self.reading_position()
                    &&& position < turn ==> {
                        &&& after.heads_for(position)
                        &&& after.way_fault(content, position) == self.way_fault(
                            content,
                            position,
                        )
                    }
                    &&& position >= turn ==> path_fault(
                        right(unread(self.parser(), content).last()),
                        Finalization::NotRoot,
                        self.nodes().bytes,
                        at + extent(l, self.outboard is Some),
                        position - turn,
                        self.outboard is Some,
                    ) == self.way_fault(content, position)
                }
            }),
    {
        let parts = unread(self.parser(), content);
        let part = parts.last();
        let finalization = self.parser().finalization();
        let (after, result) = self.read_parent();
        self.lemma_read_node();
        self.core.verify.lemma_track_parent(content);
        self.core.verify.lemma_tracks_segments(content);
        self.parser().lemma_advance_parent();
        lemma_left_part(self.parser().pending.last());
        assert(subtree_hash(parts[parts.len() - 1], finalization)
            == self.core.verify.stack.last());
        assert(after.nodes().bytes == self.nodes().bytes);
        if result is Ok {
            self.lemma_parent_there(content);
            assert(!after.parser().at_root()) by {
                let pending = after.parser().pending;
                assert(pending.len() >= 2);
            }
            assert(unread(after.parser(), content).last() == left(part));
        }
    }

    /// The way down from the next unread subtree fails at its first parent that is not right.
    proof fn lemma_fault_descend(self, content: Seq<u8>)
        requires
            self.stands_in(content),
            self.aligned(),
            self.heads_for(self.parser().content_position()),
            self.way_fault(content, self.parser().content_position()) is Some,
        ensures
            self.descend().1 matches Err(error) && Some(error) == self.way_fault(
                content,
                self.parser().content_position(),
            ),
            self.descend().1 matches Err(error) ==> self.descend().0.past_parent(error),
            self.descend().0.stands_in(content),
            self.descend().0.reading_position() == self.reading_position(),
        decreases self.rank(),
    {
        let position: int = self.parser().content_position();
        self.lemma_rank();
        self.core.verify.lemma_tracks_segments(content);
        assert(self.parser().read_next() is Parent);
        lemma_left_part(self.parser().pending.last());
        self.lemma_fault_parent(content, position);
        if self.read_parent().1 is Ok {
            self.read_parent().0.lemma_fault_descend(content);
        }
    }

    /// A read of a reader that has read nothing yet fails at the first parent above the first byte
    /// that is not right, and before that if there is no header.
    pub proof fn law_read_faulty_parent(self, content: Seq<u8>, room: int)
        requires
            self.wf(),
            self.fresh(),
            content.len() <= u64::MAX,
            self.core.verify.root_hash == root_hash(content),
            0 <= room,
        ensures
            ({
                let outcome = self.read(room);
                let fault = path_fault(
                    content,
                    Finalization::Root,
                    self.nodes().bytes,
                    HEADER_SIZE as int,
                    0,
                    self.outboard is Some,
                );
                &&& self.nodes().bytes.len() < HEADER_SIZE ==> outcome.result == Err::<
                    Seq<u8>,
                    ReadError,
                >(ReadError::UnexpectedEof)
                &&& found_at(header(content.len() as int), self.nodes().bytes, 0) && fault is Some
                    ==> {
                    &&& outcome.result matches Err(error) && Some(error) == fault
                        && outcome.after.past_parent(error)
                    &&& outcome.after.stands_in(content)
                    &&& outcome.after.reading_position() == 0
                    &&& outcome.after.core.buf.len() == 0
                    &&& outcome.cleared == 0
                }
            }),
    {
        self.law_fresh_stands(content);
        self.lemma_read(room);
        self.lemma_rank();
        self.lemma_descend();
        lemma_header_value(content.len() as u64);
        if found_at(header(content.len() as int), self.nodes().bytes, 0) {
            self.lemma_header_there(content);
            let after = self.read_header().0;
            self.lemma_fresh_fault(content, 0);
            if after.way_fault(content, 0) is Some {
                after.lemma_fault_descend(content);
                assert(self.descend() == after.descend());
            }
        }
    }

    /// Behind the header, the way down is that from the root.
    proof fn lemma_fresh_fault(self, content: Seq<u8>, position: int)
        requires
            self.wf(),
            self.fresh(),
            content.len() <= u64::MAX,
            self.core.verify.root_hash == root_hash(content),
            found_at(header(content.len() as int), self.nodes().bytes, 0),
            0 <= position < content.len() || content.len() <= CHUNK_SIZE,
        ensures
            ({
                let after = self.read_header().0;
                &&& after.nodes().bytes == self.nodes().bytes
                &&& after.outboard is Some == self.outboard is Some
                &&& 0 <= position < content.len() ==> after.heads_for(position)
                &&& after.parser().content_len is Some
                &&& after.parser().pending == seq![content.len() as int]
                &&& after.way_fault(content, position) == path_fault(
                    content,
                    Finalization::Root,
                    self.nodes().bytes,
                    HEADER_SIZE as int,
                    position,
                    self.outboard is Some,
                )
            }),
    {
        let after = self.read_header().0;
        lemma_header_value(content.len() as u64);
        self.core.verify.lemma_track_header(content);
        lemma_total_one(content.len() as int);
        assert(self.nodes().next(HEADER_SIZE as int) == header(content.len() as int));
        assert(unread(after.parser(), content) == seq![content]);
    }
}

impl ReaderView {
    /// The reader where the next step of a seek moves it.
    spec fn moved(self, seek_to: int) -> ReaderView {
        self.apply_seek(self.parser().seek_next(seek_to), true).0
    }

    proof fn lemma_moved(self, content: Seq<u8>, seek_to: int)
        requires
            self.stands_in(content),
            self.core.buf.len() == 0,
            self.parser().content_len is Some,
            0 <= seek_to < content.len(),
            self.in_reach(content, seek_to),
        ensures
            self.apply_seek(self.parser().seek_next(seek_to), true).1 is Ok,
            self.moved(seek_to).stands_in(content),
            self.moved(seek_to).aligned(),
            self.moved(seek_to).core.buf.len() == 0,
            self.moved(seek_to).heads_for(seek_to),
            self.moved(seek_to).parser() == self.parser().seek_move(seek_to),
            self.moved(seek_to).nodes().bytes == self.nodes().bytes,
            self.moved(seek_to).outboard is Some == self.outboard is Some,
    {
        self.lemma_apply_seek_there(content, seek_to);
        self.parser().lemma_seek_move(seek_to);
    }

    /// The step behind a parent moves to the subtree that holds the target, from where the way down
    /// is what is left of it.
    proof fn lemma_fault_turn(self, content: Seq<u8>, seek_to: int)
        requires
            self.stands_in(content),
            self.aligned(),
            self.core.buf.len() == 0,
            self.parser().read_next() is Parent,
            self.heads_for(seek_to),
            self.way_fault(content, seek_to) is Some,
            self.read_parent().1 is Ok,
            0 <= seek_to < content.len(),
            self.in_reach(content, seek_to),
        ensures
            self.read_parent().0.moved(seek_to).way_fault(content, seek_to) == self.way_fault(
                content,
                seek_to,
            ),
    {
        let after = self.read_parent().0;
        let next = after.moved(seek_to);
        let sub: int = self.parser().pending.last();
        let l: int = left_part(sub);
        let turn: int = self.parser().position + l;
        let pending = after.parser().pending;
        let rest = self.parser().pending.drop_last();
        let parts = unread(after.parser(), content);
        self.lemma_fault_parent(content, seek_to);
        self.lemma_read_node();
        self.core.verify.lemma_track_parent(content);
        self.core.verify.lemma_tracks_segments(content);
        self.parser().lemma_advance_parent();
        lemma_left_part(sub);
        lemma_split_count(sub);
        after.lemma_moved(content, seek_to);
        after.core.verify.lemma_track_seek(content, seek_to);
        after.parser().lemma_seek_next(seek_to);
        crate::parse::lemma_total_push(rest, sub - l);
        crate::parse::lemma_total_push(rest.push(sub - l), l);
        assert(pending =~= rest.push(sub - l).push(l));
        assert(pending.drop_last() =~= rest.push(sub - l));
        if seek_to < turn {
            assert(next.parser().pending =~= pending);
            assert(unread(next.parser(), content) =~= parts);
        } else {
            assert(crate::parse::skip_subtrees(
                pending,
                after.parser().position,
                seek_to + 1,
            ) == crate::parse::skip_subtrees(
                pending.drop_last(),
                after.parser().position + l,
                seek_to + 1,
            ));
            assert(next.parser().pending =~= rest.push(sub - l));
            assert(unread(next.parser(), content).last() == right(
                unread(self.parser(), content).last(),
            ));
            lemma_total_nonnegative(rest);
            assert(!next.parser().at_root());
        }
    }

    proof fn lemma_fault_seek(self, content: Seq<u8>, seek_to: int)
        requires
            self.stands_in(content),
            self.core.buf.len() == 0,
            self.parser().content_len is Some,
            0 <= seek_to < content.len(),
            self.in_reach(content, seek_to),
            self.moved(seek_to).way_fault(content, seek_to) is Some,
        ensures
            self.seek(seek_to, true).1 matches Err(error) && Some(error) == self.moved(
                seek_to,
            ).way_fault(content, seek_to),
            self.seek(seek_to, true).0.stands_in(content),
            self.seek(seek_to, true).0.core.buf.len() == 0,
        decreases self.header_rank(), self.reset_rank(seek_to), self.work_rank(),
    {
        let moved = self.moved(seek_to);
        self.lemma_seek_rank(seek_to, true);
        self.lemma_moved(content, seek_to);
        self.parser().lemma_seek_next(seek_to);
        moved.core.verify.lemma_tracks_segments(content);
        assert(moved.parser().read_next() is Parent);
        moved.lemma_fault_parent(content, seek_to);
        let (after, result) = self.seek_step(seek_to, true);
        if result == Ok::<bool, ReadError>(false) {
            moved.lemma_fault_turn(content, seek_to);
            after.lemma_fault_seek(content, seek_to);
        }
    }

    /// A seek of a reader that has read nothing yet fails at the first parent above its target that
    /// is not right, and before that if there is no header. The reader can then seek elsewhere.
    #[verifier::rlimit(40)]
    pub proof fn law_seek_faulty_parent(self, content: Seq<u8>, seek_to: int)
        requires
            self.wf(),
            self.fresh(),
            self.core.verify.root_hash == root_hash(content),
            0 <= seek_to < content.len(),
            content.len() <= u64::MAX,
            self.in_reach(content, seek_to),
        ensures
            ({
                let (after, result) = self.seek(seek_to, true);
                let fault = path_fault(
                    content,
                    Finalization::Root,
                    self.nodes().bytes,
                    HEADER_SIZE as int,
                    seek_to,
                    self.outboard is Some,
                );
                &&& self.nodes().bytes.len() < HEADER_SIZE ==> result == Err::<(), ReadError>(
                    ReadError::UnexpectedEof,
                )
                &&& found_at(header(content.len() as int), self.nodes().bytes, 0) && fault is Some
                    ==> {
                    &&& result matches Err(error) && Some(error) == fault
                    &&& after.stands_in(content)
                    &&& after.core.buf.len() == 0
                }
            }),
    {
        let len: int = content.len() as int;
        let bookkeeping = self.parser().seek_next(seek_to);
        lemma_header_value(content.len() as u64);
        self.law_fresh_stands(content);
        self.lemma_seek_rank(seek_to, true);
        assert(self.apply_seek(bookkeeping, true).0 =~= self) by {
            self.core.verify.lemma_after_seek(seek_to);
            assert(self.core.verify.after_seek(bookkeeping).stack =~= self.core.verify.stack);
        }
        if found_at(header(len), self.nodes().bytes, 0) {
            let after = self.read_header().0;
            self.lemma_header_there(content);
            self.lemma_fresh_fault(content, seek_to);
            after.lemma_moved(content, seek_to);
            after.core.verify.lemma_track_seek(content, seek_to);
            after.parser().lemma_seek_next(seek_to);
            let moved = after.moved(seek_to);
            assert(moved.parser().pending =~= after.parser().pending);
            assert(unread(moved.parser(), content) =~= unread(after.parser(), content));
            assert(moved.way_fault(content, seek_to) == after.way_fault(content, seek_to));
            assert(self.seek_step(seek_to, true) == (after, Ok::<bool, ReadError>(false)));
            assert(self.seek(seek_to, true) == after.seek(seek_to, true));
            if moved.way_fault(content, seek_to) is Some {
                after.lemma_fault_seek(content, seek_to);
            }
        }
    }
}

impl ReaderView {
    /// Whether the sources have bytes in the place of the chunk around the byte of `content` at
    /// `position`, with another hash.
    pub open spec fn chunk_differs(self, content: Seq<u8>, position: int) -> bool {
        let len = content.len() as int;
        let base = chunk_base(position);
        let size = chunk_end(len, position) - base;
        let at = self.chunk_place(content, base);
        &&& at + size <= self.input.bytes.len()
        &&& Node::chunk(
            self.input.bytes.subrange(at, at + size),
            chunk_finalization(len),
        ).hash() != Node::chunk(chunk_at(content, base), chunk_finalization(len)).hash()
    }

    /// Reading to the end hands out exactly the chunks before the first whose hash is wrong, and
    /// then fails because of that.
    #[verifier::rlimit(40)]
    pub proof fn law_drain_faulty_chunk(self, content: Seq<u8>, end: int)
        requires
            self.stands_in(content),
            self.aligned(),
            self.core.buf.len() == 0,
            0 <= self.reading_position() <= end < content.len(),
            end % (CHUNK_SIZE as int) == 0,
            self.can_read_range(content, self.reading_position(), end),
            self.has_path(content, end),
            self.chunk_differs(content, end),
        ensures
            self.drain().1 == content.subrange(self.reading_position(), end),
            self.drain().2 == Err::<(), ReadError>(ReadError::Decode(Error::HashMismatch)),
        decreases self.header_rank(), self.to_come(),
    {
        let start: int = self.reading_position();
        let room: int = CHUNK_SIZE as int;
        let outcome = self.read(room);
        if start < end {
            self.lemma_read_progress(room);
            self.lemma_read_chunkful(content, end);
            let next: int = outcome.after.reading_position();
            outcome.after.law_drain_faulty_chunk(content, end);
            assert(self.drain().1 == content.subrange(start, next) + outcome.after.drain().1);
            assert(content.subrange(start, end) =~= content.subrange(start, next)
                + content.subrange(next, end));
        } else {
            self.law_read_faulty_chunk(content, room);
            assert(content.subrange(start, end) =~= Seq::<u8>::empty());
        }
    }
}

/// Where all parents above a subtree are right, the way down to one of its bytes fails as the way
/// from that subtree does.
proof fn lemma_fault_below(
    content: Seq<u8>,
    finalization: Finalization,
    bytes: Seq<u8>,
    at: int,
    outboard: bool,
    base: int,
    sub: int,
    parents: int,
    position: int,
)
    requires
        lies_at(content.len() as int, base, sub, parents),
        reached(content, bytes, at, outboard, base, sub),
        base <= position < base + sub,
    ensures
        path_fault(content, finalization, bytes, at, position, outboard) == path_fault(
            content.subrange(base, base + sub),
            if sub == content.len() {
                finalization
            } else {
                Finalization::NotRoot
            },
            bytes,
            place(at, base, parents, outboard),
            position - base,
            outboard,
        ),
    decreases content.len(),
{
    let len: int = content.len() as int;
    lemma_lies_bounds(len, base, sub, parents);
    if base == 0 && sub == len {
        lemma_lies_root(len, sub, parents);
        assert(content.subrange(0, len) =~= content);
    } else {
        let l: int = left_part(len);
        lemma_left_part(len);
        assert(sub < len);
        if base < l {
            lemma_lies_bounds(l, base, sub, parents - PARENT_SIZE);
            lemma_fault_below(
                left(content),
                Finalization::NotRoot,
                bytes,
                at + PARENT_SIZE,
                outboard,
                base,
                sub,
                parents - PARENT_SIZE,
                position,
            );
            assert(left(content).subrange(base, base + sub) =~= content.subrange(
                base,
                base + sub,
            ));
        } else {
            lemma_fault_below(
                right(content),
                Finalization::NotRoot,
                bytes,
                at + PARENT_SIZE + extent(l, outboard),
                outboard,
                base - l,
                sub,
                parents - PARENT_SIZE - parents_size(l),
                position - l,
            );
            assert(right(content).subrange(base - l, base - l + sub) =~= content.subrange(
                base,
                base + sub,
            ));
        }
        lemma_parent_len(content);
        assert(bytes.subrange(at, at + PARENT_SIZE) == parent_node(content));
    }
}

proof fn lemma_parent_len(content: Seq<u8>)
    ensures
        parent_node(content).len() == PARENT_SIZE,
{
    lemma_subtree_hash_len(left(content), Finalization::NotRoot);
    lemma_subtree_hash_len(right(content), Finalization::NotRoot);
}

impl ReaderView {
    /// How the way down to the byte of `content` at `position` fails at the first parent that is
    /// not right.
    pub open spec fn fault_at(self, content: Seq<u8>, position: int) -> Option<ReadError> {
        path_fault(
            content,
            Finalization::Root,
            self.nodes().bytes,
            HEADER_SIZE as int,
            position,
            self.outboard is Some,
        )
    }

    proof fn lemma_way_fault(self, content: Seq<u8>, position: int)
        requires
            self.stands_in(content),
            self.came_by(content),
            self.heads_for(position),
        ensures
            self.way_fault(content, position) == self.fault_at(content, position),
    {
        let len: int = content.len() as int;
        let pending = self.parser().pending;
        let base: int = self.parser().position;
        let sub: int = pending.last();
        let parents: int = self.parser().outboard_position() - HEADER_SIZE;
        self.core.verify.lemma_tracks_segments(content);
        lemma_in_tree_last(self.parser());
        lemma_all_reached_last(
            self.parser(),
            content,
            self.nodes().bytes,
            self.outboard is Some,
        );
        lemma_fault_below(
            content,
            Finalization::Root,
            self.nodes().bytes,
            HEADER_SIZE as int,
            self.outboard is Some,
            base,
            sub,
            parents,
            position,
        );
        lemma_total_nonnegative(pending.drop_last());
        if sub == len && pending.len() > 1 {
            let below: int = pending.len() - 2;
            lemma_total_nonnegative(pending.drop_last().drop_last());
            assert(pending.drop_last().last() == pending[below]);
            assert(pending[below] > 0);
        }
        if pending.len() == 1 {
            assert(pending[0] == sub);
        }
    }

    /// A read fails at the first parent above the next byte that is not right, because the source
    /// ends there or with a wrong hash, and the reader keeps its place.
    pub proof fn law_read_faulty_path(self, content: Seq<u8>, room: int)
        requires
            self.stands_in(content),
            self.aligned(),
            self.came_by(content),
            found_at(header(content.len() as int), self.nodes().bytes, 0),
            self.core.buf.len() == 0,
            0 <= self.reading_position() < content.len(),
            self.fault_at(content, self.reading_position()) is Some,
            0 <= room,
        ensures
            ({
                let outcome = self.read(room);
                &&& outcome.result matches Err(error) && Some(error) == self.fault_at(
                    content,
                    self.reading_position(),
                ) && outcome.after.past_parent(error)
                &&& outcome.after.stands_in(content)
                &&& outcome.after.reading_position() == self.reading_position()
                &&& outcome.cleared == 0
            }),
    {
        let start: int = self.reading_position();
        self.lemma_rank();
        if self.parser().content_len is None {
            lemma_header_value(content.len() as u64);
            self.lemma_header_there(content);
            self.lemma_came_by_header(content);
            let after = self.read_header().0;
            after.core.verify.lemma_tracks_segments(content);
            after.lemma_heads_for();
            after.lemma_way_fault(content, start);
            after.lemma_fault_descend(content);
            assert(self.descend() == after.descend());
        } else {
            self.core.verify.lemma_tracks_segments(content);
            self.lemma_heads_for();
            self.lemma_way_fault(content, start);
            self.lemma_fault_descend(content);
        }
    }

    /// The next byte is in the next unread subtree.
    proof fn lemma_heads_for(self)
        requires
            self.wf(),
            self.parser().content_len is Some,
            self.parser().content_position() < self.parser().len(),
        ensures
            self.heads_for(self.parser().content_position()),
    {
        let pending = self.parser().pending;
        if pending.len() > 0 {
            assert(pending[pending.len() - 1] > 0);
        }
    }

    /// A seek fails at the first parent above its target that is not right, because the source ends
    /// there or with a wrong hash. The reader can then seek elsewhere.
    pub proof fn law_seek_faulty_path(self, content: Seq<u8>, seek_to: int)
        requires
            self.stands_in(content),
            self.came_by(content),
            self.parser().content_len is Some,
            self.core.buf.len() == 0,
            0 <= seek_to < content.len(),
            self.in_reach(content, seek_to),
            self.fault_at(content, seek_to) is Some,
        ensures
            ({
                let (after, result) = self.seek(seek_to, true);
                &&& result matches Err(error) && Some(error) == self.fault_at(content, seek_to)
                &&& after.stands_in(content)
                &&& after.core.buf.len() == 0
            }),
    {
        let moved = self.moved(seek_to);
        let from = if seek_to < self.parser().position {
            self.parser().reset()
        } else {
            self.parser()
        };
        self.lemma_moved(content, seek_to);
        self.parser().lemma_seek_move(seek_to);
        lemma_all_reached_root(
            self.parser().reset(),
            content,
            self.nodes().bytes,
            self.outboard is Some,
        );
        lemma_all_reached_take(
            moved.parser(),
            from,
            moved.parser().pending.len() as int,
            content,
            self.nodes().bytes,
            self.outboard is Some,
        );
        moved.lemma_way_fault(content, seek_to);
        self.lemma_fault_seek(content, seek_to);
    }

    /// Reading to the end hands out exactly the chunks before the first that has a parent above it
    /// that is not right, and then fails at that parent.
    #[verifier::rlimit(40)]
    pub proof fn law_drain_faulty_path(self, content: Seq<u8>, end: int)
        requires
            self.stands_in(content),
            self.aligned(),
            self.came_by(content),
            found_at(header(content.len() as int), self.nodes().bytes, 0),
            self.core.buf.len() == 0,
            0 <= self.reading_position() <= end < content.len(),
            end % (CHUNK_SIZE as int) == 0,
            self.can_read_range(content, self.reading_position(), end),
            self.fault_at(content, end) is Some,
        ensures
            self.drain().1 == content.subrange(self.reading_position(), end),
            self.drain().2 matches Err(error) && Some(error) == self.fault_at(content, end),
        decreases self.header_rank(), self.to_come(),
    {
        let start: int = self.reading_position();
        let room: int = CHUNK_SIZE as int;
        let outcome = self.read(room);
        if start < end {
            self.lemma_read_progress(room);
            assert(self.can_read(content, start));
            self.lemma_came_by_read(content, room);
            self.lemma_read_chunkful(content, end);
            let next: int = outcome.after.reading_position();
            assert(outcome.after.nodes().bytes == self.nodes().bytes);
            outcome.after.law_drain_faulty_path(content, end);
            assert(self.drain().1 == content.subrange(start, next) + outcome.after.drain().1);
            assert(content.subrange(start, end) =~= content.subrange(start, next)
                + content.subrange(next, end));
        } else {
            self.law_read_faulty_path(content, room);
            assert(content.subrange(start, end) =~= Seq::<u8>::empty());
        }
    }
}

} // verus!
