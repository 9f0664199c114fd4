//! Nothing is decoded that was not encoded: what readers hand out from the start to the end of the
//! content has the root hash that they were given, and they read nothing but its encoding.

use vstd::prelude::*;

use crate::complete::{found_at, lemma_found_split};
use crate::error::{Error, ReadError};
use crate::hash::{
    header, le_value, lemma_header_len, lemma_header_value, Finalization, CHUNK_SIZE, HASH_SIZE,
    HEADER_SIZE, PARENT_SIZE,
};
use crate::parse::{
    lemma_parents_size_bound, lemma_total_nonnegative, lemma_total_one, total, total_parents,
    NextRead,
};
use crate::parts::{
    encode_parts, hashes_match, join, lemma_push_part, lemma_split_parts, lengths_match,
    outboard_parts,
};
use crate::reading::{min, ReaderView};
use crate::tree::{
    combined_encoding, encode_subtree, left, left_part, lemma_encode_subtree_len, outboard_encoding,
    outboard_subtree, parent_node, right, root_hash, subtree_hash, subtree_size,
};

verus! {

impl ReaderView {
    /// Whether `parts` could be the content of the unread subtrees, going by their hashes.
    pub open spec fn fits(self, parts: Seq<Seq<u8>>) -> bool {
        &&& lengths_match(parts, self.parser().pending)
        &&& hashes_match(parts, self.core.verify.stack, self.parser().finalization())
    }

    /// Whether `done` followed by `parts` has the root hash, and the sources held its encoding so
    /// far.
    pub open spec fn accounts_for(self, done: Seq<u8>, parts: Seq<Seq<u8>>) -> bool {
        let content = done + join(parts);
        &&& root_hash(content) == self.core.verify.root_hash
        &&& content.len() == self.parser().len()
        &&& match self.outboard {
            None => combined_encoding(content) == self.input.bytes.take(self.input.position)
                + encode_parts(parts),
            Some(outboard) => outboard_encoding(content) == outboard.bytes.take(outboard.position)
                + outboard_parts(parts),
        }
    }

    /// Whether the reader read `done` from the start without a seek, and whatever content the rest
    /// turns out to have completes `done` to content with the root hash.
    pub open spec fn explains(self, done: Seq<u8>) -> bool {
        let buf = self.core.buf;
        &&& self.wf()
        &&& done.len() == self.parser().position
        &&& self.parser().skip == 0
        &&& buf == done.skip(done.len() - buf.len())
        &&& self.input.position <= self.input.bytes.len()
        &&& self.nodes().position <= self.nodes().bytes.len()
        &&& self.outboard is Some ==> done == self.input.bytes.take(self.input.position)
        &&& if self.parser().content_len is None {
            self.input.position == 0 && self.nodes().position == 0
        } else {
            forall|parts: Seq<Seq<u8>>| #[trigger] self.fits(parts) ==> self.accounts_for(
                done,
                parts,
            )
        }
    }

    /// Whether two readers have the same sources and root hash.
    pub open spec fn related(self, other: ReaderView) -> bool {
        &&& self.input.bytes == other.input.bytes
        &&& match (self.outboard, other.outboard) {
            (None, None) => true,
            (Some(outboard), Some(other_outboard)) => outboard.bytes == other_outboard.bytes,
            _ => false,
        }
        &&& self.core.verify.root_hash == other.core.verify.root_hash
    }

    pub proof fn lemma_descend_related(self)
        requires
            self.wf(),
        ensures
            self.descend().0.related(self),
        decreases self.rank(),
    {
        self.lemma_rank();
        self.lemma_read_node();
        if self.parser().read_next() is Header && self.read_header().1 is Ok {
            self.read_header().0.lemma_descend_related();
        } else if self.parser().read_next() is Parent && self.read_parent().1 is Ok {
            self.read_parent().0.lemma_descend_related();
        }
    }

    /// A read changes neither what the sources hold nor the root hash.
    pub proof fn law_read_related(self, room: int)
        requires
            self.wf(),
            0 <= room,
        ensures
            self.read(room).after.related(self),
            self.core.buf.len() == 0 ==> self.read_next_chunk(room).after.related(self),
    {
        self.lemma_descend_related();
    }

    pub proof fn lemma_seek_step_related(self, seek_to: int, jump: bool)
        ensures
            self.seek_step(seek_to, jump).0.related(self),
    {
    }

    /// A seek changes neither what the sources hold nor the root hash.
    #[verifier::rlimit(30)]
    pub proof fn law_seek_related(self, seek_to: int, jump: bool)
        requires
            self.can_seek(),
            0 <= seek_to,
        ensures
            self.seek(seek_to, jump).0.related(self),
        decreases self.header_rank(), self.reset_rank(seek_to), self.work_rank(),
    {
        self.lemma_seek_rank(seek_to, jump);
        let (after, result) = self.seek_step(seek_to, jump);
        if result == Ok::<bool, ReadError>(false) {
            after.law_seek_related(seek_to, jump);
        }
    }

    /// A read reports the end, by handing out nothing though there is room, only once every node
    /// up to the final chunk was verified or skipped, and the final chunk itself verified.
    pub proof fn law_end_validated(self, room: int)
        requires
            self.wf(),
            0 < room,
            self.read(room).result matches Ok(bytes) && bytes.len() == 0,
        ensures
            self.read(room).after.parser().content_len is Some,
            self.read(room).after.parser().pending.len() == 0,
            self.read(room).after.parser().validated,
    {
        self.lemma_descend();
        self.lemma_descend_total();
        let here = self.descend().0;
        if here.parser().read_next() is Chunk {
            here.lemma_read_chunk(
                here.parser().pending.last(),
                here.parser().finalization(),
                here.parser().skip,
                room,
            );
            assert(here.parser().pending[here.parser().pending.len() - 1] == 0);
        }
    }

    /// How many bytes were handed out.
    pub open spec fn handed_out(self) -> int {
        self.parser().position - self.core.buf.len()
    }

    proof fn lemma_explains_header(self, done: Seq<u8>)
        requires
            self.explains(done),
            self.parser().read_next() is Header,
            self.read_header().1 is Ok,
        ensures
            self.read_header().0.explains(done),
            self.read_header().0.parser().content_len is Some,
            self.read_header().0.related(self),
    {
        let after = self.read_header().0;
        let bytes = self.nodes().next(HEADER_SIZE as int);
        lemma_header_len(bytes);
        self.lemma_read_node();
        assert(after.nodes().bytes.take(HEADER_SIZE as int) =~= bytes);
        assert forall|parts: Seq<Seq<u8>>| #[trigger] after.fits(parts) implies after.accounts_for(
            done,
            parts,
        ) by {
            let content = parts[0];
            assert(parts =~= Seq::<Seq<u8>>::empty().push(content));
            lemma_push_part(Seq::empty(), content);
            assert(done + join(parts) =~= content);
            assert(after.parser().at_root());
            assert(encode_parts(parts) =~= encode_subtree(content));
            assert(outboard_parts(parts) =~= outboard_subtree(content));
        }
        assert(after.core.buf =~= done.skip(done.len() - after.core.buf.len()));
    }

    proof fn lemma_explains_parent(self, done: Seq<u8>)
        requires
            self.explains(done),
            self.parser().read_next() is Parent,
            self.read_parent().1 is Ok,
        ensures
            self.read_parent().0.explains(done),
            self.read_parent().0.parser().content_len is Some,
            self.read_parent().0.related(self),
    {
        let after = self.read_parent().0;
        let parent = self.nodes().next(PARENT_SIZE as int);
        let len: int = self.parser().pending.last();
        let l: int = left_part(len);
        let stack = self.core.verify.stack;
        self.lemma_read_node();
        self.parser().lemma_advance_parent();
        assert(after.nodes().bytes.take(after.nodes().position) =~= self.nodes().bytes.take(
            self.nodes().position,
        ) + parent);
        assert forall|parts: Seq<Seq<u8>>| #[trigger] after.fits(parts) implies after.accounts_for(
            done,
            parts,
        ) by {
            let count: int = parts.len() as int;
            let first = parts[count - 1];
            let second = parts[count - 2];
            let rest = parts.take(count - 2);
            let part = first + second;
            let whole = rest.push(part);
            assert(after.parser().pending[count - 1] == l);
            assert(after.parser().pending[count - 2] == len - l);
            assert(left(part) =~= first);
            assert(right(part) =~= second);
            assert(parts =~= rest.push(second).push(first));
            assert(whole.drop_last() =~= rest);
            lemma_split_parts(whole);
            assert(after.core.verify.stack[count - 1] == parent.take(HASH_SIZE as int));
            assert(after.core.verify.stack[count - 2] == parent.skip(HASH_SIZE as int));
            assert(subtree_hash(parts[count - 1], Finalization::NotRoot) == parent.take(
                HASH_SIZE as int,
            ));
            assert(subtree_hash(parts[count - 2], Finalization::NotRoot) == parent.skip(
                HASH_SIZE as int,
            ));
            assert(parent_node(part) =~= parent);
            assert(self.fits(whole)) by {
                assert forall|i: int| 0 <= i < whole.len() implies (#[trigger] whole[i]).len()
                    == self.parser().pending[i] && subtree_hash(
                    whole[i],
                    self.parser().finalization(),
                ) == stack[i] by {
                    if i < count - 2 {
                        assert(whole[i] == parts[i]);
                        assert(after.parser().pending[i] == self.parser().pending[i]);
                        assert(after.core.verify.stack[i] == stack[i]);
                    }
                }
            }
            assert(self.accounts_for(done, whole));
            match self.outboard {
                None => {
                    assert(self.input.bytes.take(self.input.position) + (parent + encode_parts(
                        parts,
                    )) =~= after.input.bytes.take(after.input.position) + encode_parts(parts));
                },
                Some(outboard) => {
                    assert(outboard.bytes.take(outboard.position) + (parent + outboard_parts(
                        parts,
                    )) =~= after.nodes().bytes.take(after.nodes().position) + outboard_parts(
                        parts,
                    ));
                },
            }
        }
        assert(after.core.buf =~= done.skip(done.len() - after.core.buf.len()));
    }

    proof fn lemma_explains_chunk(self, done: Seq<u8>, room: int)
        requires
            self.explains(done),
            self.core.buf.len() == 0,
            self.parser().read_next() is Chunk,
            0 <= room,
            ({
                let size = self.parser().pending.last();
                self.read_chunk(size, self.parser().finalization(), 0, room).result is Ok
            }),
        ensures
            ({
                let size = self.parser().pending.last();
                let outcome = self.read_chunk(size, self.parser().finalization(), 0, room);
                let chunk = self.input.next(size);
                &&& outcome.after.explains(done + chunk)
                &&& outcome.after.related(self)
                &&& outcome.after.parser() == self.parser().advance_chunk()
                &&& outcome.result == Ok::<Seq<u8>, ReadError>(chunk.take(min(size, room)))
                &&& chunk.len() == size
                &&& outcome.after.core.buf == chunk.skip(min(size, room))
            }),
    {
        let size: int = self.parser().pending.last();
        let finalization = self.parser().finalization();
        let outcome = self.read_chunk(size, finalization, 0, room);
        let after = outcome.after;
        let chunk = self.input.next(size);
        let stack = self.core.verify.stack;
        self.lemma_read_chunk(size, finalization, 0, room);
        self.parser().lemma_advance_chunk();
        self.parser().lemma_depth();
        lemma_total_nonnegative(self.parser().pending.drop_last());
        assert(chunk.skip(0) =~= chunk);
        assert(after.input.bytes.take(after.input.position) =~= self.input.bytes.take(
            self.input.position,
        ) + chunk);
        if after.parser().pending.len() > 0 {
            crate::parts::lemma_total_first(self.parser().pending);
            assert(self.parser().pending[self.parser().pending.len() - 1] > 0
                || self.parser().len() == 0);
            assert(!after.parser().at_root());
        }
        assert forall|parts: Seq<Seq<u8>>| #[trigger] after.fits(parts) implies after.accounts_for(
            done + chunk,
            parts,
        ) by {
            let whole = parts.push(chunk);
            lemma_push_part(parts, chunk);
            assert(subtree_hash(chunk, finalization) == stack.last());
            assert(self.fits(whole)) by {
                assert forall|i: int| 0 <= i < whole.len() implies (#[trigger] whole[i]).len()
                    == self.parser().pending[i] && subtree_hash(whole[i], finalization)
                    == stack[i] by {
                    if i < parts.len() {
                        assert(whole[i] == parts[i]);
                        assert(after.parser().pending[i] == self.parser().pending[i]);
                        assert(after.core.verify.stack[i] == stack[i]);
                    }
                }
            }
            assert(self.accounts_for(done, whole));
            assert(done + (chunk + join(parts)) =~= (done + chunk) + join(parts));
            assert(encode_subtree(chunk) == chunk);
            assert(outboard_subtree(chunk) =~= Seq::<u8>::empty());
            match self.outboard {
                None => {
                    assert(self.input.bytes.take(self.input.position) + (chunk + encode_parts(
                        parts,
                    )) =~= after.input.bytes.take(after.input.position) + encode_parts(parts));
                },
                Some(outboard) => {
                    assert(outboard_parts(whole) =~= outboard_parts(parts));
                },
            }
        }
        assert(after.core.buf =~= (done + chunk).skip(
            (done + chunk).len() - after.core.buf.len(),
        ));
    }

    proof fn lemma_explains_descend(self, done: Seq<u8>)
        requires
            self.explains(done),
            self.descend().1 is Ok,
        ensures
            self.descend().0.explains(done),
            self.descend().0.parser().content_len is Some,
            self.descend().0.related(self),
        decreases self.rank(),
    {
        self.lemma_rank();
        self.lemma_read_node();
        if self.parser().read_next() is Header {
            self.lemma_explains_header(done);
            self.read_header().0.lemma_explains_descend(done);
        } else if self.parser().read_next() is Parent {
            self.lemma_explains_parent(done);
            self.read_parent().0.lemma_explains_descend(done);
        }
    }
}

impl ReaderView {
    /// A read that succeeds hands out bytes that verified, and goes on from there.
    proof fn lemma_explains_read(self, done: Seq<u8>, room: int) -> (all: Seq<u8>)
        requires
            self.explains(done),
            self.read(room).result is Ok,
            0 <= room,
        ensures
            self.read(room).after.explains(all),
            self.read(room).after.related(self),
            self.read(room).result matches Ok(bytes) && {
                let start = self.handed_out();
                &&& 0 <= start
                &&& start + bytes.len() <= all.len()
                &&& bytes == all.subrange(start, start + bytes.len())
                &&& self.read(room).after.handed_out() == start + bytes.len()
                &&& bytes.len() == 0 && room > 0 ==> {
                    &&& self.read(room).after.parser().content_len is Some
                    &&& self.read(room).after.parser().pending.len() == 0
                    &&& self.read(room).after.core.buf.len() == 0
                }
            },
            done.len() <= all.len(),
            all.take(done.len() as int) == done,
    {
        let start: int = self.handed_out();
        let outcome = self.read(room);
        self.lemma_read(room);
        if self.core.buf.len() > 0 {
            let count: int = min(self.core.buf.len() as int, room);
            assert(self.core.delivered(room) =~= done.subrange(start, start + count));
            assert(outcome.after.core.buf =~= done.skip(
                done.len() - outcome.after.core.buf.len(),
            ));
            assert forall|parts: Seq<Seq<u8>>| #[trigger] outcome.after.fits(parts) implies
                outcome.after.accounts_for(done, parts) by {
                assert(self.fits(parts));
            }
            assert(done.take(done.len() as int) =~= done);
            done
        } else {
            self.lemma_explains_descend(done);
            self.lemma_descend();
            let here = self.descend().0;
            if here.parser().read_next() is Chunk {
                here.lemma_explains_chunk(done, room);
                let size: int = here.parser().pending.last();
                let chunk = here.input.next(size);
                let all = done + chunk;
                let count: int = min(size, room);
                assert(chunk.take(count) =~= all.subrange(start, start + count));
                assert(all.take(done.len() as int) =~= done);
                all
            } else {
                assert(done.subrange(start, start) =~= Seq::<u8>::empty());
                assert(done.take(done.len() as int) =~= done);
                done
            }
        }
    }

    proof fn lemma_explains_end(self, done: Seq<u8>)
        requires
            self.explains(done),
            self.parser().content_len is Some,
            self.parser().pending.len() == 0,
        ensures
            root_hash(done) == self.core.verify.root_hash,
            self.holds(done),
            self.core.buf.len() == 0 ==> self.handed_out() == done.len(),
    {
        let parts = Seq::<Seq<u8>>::empty();
        assert(self.fits(parts));
        assert(self.accounts_for(done, parts));
        assert(done + join(parts) =~= done);
        match self.outboard {
            None => {
                assert(combined_encoding(done) =~= self.input.bytes.take(self.input.position));
                assert(self.input.bytes.subrange(0, self.input.position)
                    =~= self.input.bytes.take(self.input.position));
            },
            Some(outboard) => {
                assert(outboard_encoding(done) =~= outboard.bytes.take(outboard.position));
                assert(outboard.bytes.subrange(0, outboard.position) =~= outboard.bytes.take(
                    outboard.position,
                ));
                assert(self.input.bytes.subrange(0, self.input.position)
                    =~= self.input.bytes.take(self.input.position));
            },
        }
    }

    proof fn lemma_explains_drain(self, done: Seq<u8>)
        requires
            self.explains(done),
            self.drain().2 is Ok,
        ensures
            ({
                let content = done.take(self.handed_out()) + self.drain().1;
                &&& root_hash(content) == self.core.verify.root_hash
                &&& self.holds(content)
            }),
        decreases self.header_rank(), self.to_come(),
    {
        let room: int = CHUNK_SIZE as int;
        self.lemma_read_progress(room);
        let outcome = self.read(room);
        let start: int = self.handed_out();
        let all = self.lemma_explains_read(done, room);
        let bytes = outcome.result->Ok_0;
        assert(done.take(start) =~= all.take(done.len() as int).take(start));
        assert(done.take(start) + bytes =~= all.take(start + bytes.len()));
        if bytes.len() == 0 {
            outcome.after.lemma_explains_end(all);
            assert(done.take(start) + Seq::<u8>::empty() =~= all.take(start));
            assert(all.take(start) =~= all);
        } else {
            outcome.after.lemma_explains_drain(all);
            let rest = outcome.after.drain().1;
            assert(done.take(start) + (bytes + rest) =~= all.take(start + bytes.len()) + rest);
        }
    }

    proof fn lemma_explains_reads(self, done: Seq<u8>, rooms: Seq<int>)
        requires
            self.explains(done),
            self.read_all(rooms).2 == Ok::<bool, ReadError>(true),
            forall|i: int| 0 <= i < rooms.len() ==> 0 <= #[trigger] rooms[i],
        ensures
            ({
                let content = done.take(self.handed_out()) + self.read_all(rooms).1;
                &&& root_hash(content) == self.core.verify.root_hash
                &&& self.holds(content)
            }),
        decreases rooms.len(),
    {
        let room: int = rooms[0];
        let outcome = self.read(room);
        let start: int = self.handed_out();
        let all = self.lemma_explains_read(done, room);
        let bytes = outcome.result->Ok_0;
        assert(done.take(start) =~= all.take(done.len() as int).take(start));
        assert(done.take(start) + bytes =~= all.take(start + bytes.len()));
        if bytes.len() == 0 && room > 0 {
            outcome.after.lemma_explains_end(all);
            assert(done.take(start) + Seq::<u8>::empty() =~= all.take(start));
            assert(all.take(start) =~= all);
        } else {
            let rest_rooms = rooms.drop_first();
            assert forall|i: int| 0 <= i < rest_rooms.len() implies 0 <= #[trigger] rest_rooms[
                i
            ] by {
                assert(rest_rooms[i] == rooms[i + 1]);
            }
            outcome.after.lemma_explains_reads(all, rest_rooms);
            let rest = outcome.after.read_all(rest_rooms).1;
            assert(done.take(start) + (bytes + rest) =~= all.take(start + bytes.len()) + rest);
        }
    }

    /// Whatever a reader is given to read, and however much is asked for at a time: if reading from
    /// the start reaches the end, the bytes that were handed out have the root hash, and the
    /// sources start with their encoding.
    pub proof fn law_reads_verified(self, rooms: Seq<int>)
        requires
            self.wf(),
            self.fresh(),
            forall|i: int| 0 <= i < rooms.len() ==> 0 <= #[trigger] rooms[i],
        ensures
            self.read_all(rooms) matches (_, content, Ok(true)) ==> {
                &&& root_hash(content) == self.core.verify.root_hash
                &&& self.holds(content)
            },
    {
        if self.read_all(rooms).2 == Ok::<bool, ReadError>(true) {
            self.lemma_fresh();
            self.lemma_explains_reads(Seq::empty(), rooms);
            let content = self.read_all(rooms).1;
            assert(Seq::<u8>::empty().take(0) + content =~= content);
        }
    }

    pub proof fn lemma_fresh(self)
        requires
            self.wf(),
            self.fresh(),
        ensures
            self.explains(Seq::empty()),
            self.handed_out() == 0,
    {
        let done = Seq::<u8>::empty();
        assert(self.core.buf =~= done.skip(0));
        assert(done =~= self.input.bytes.take(0));
    }

    /// Whatever a reader is given to read: if reading from the start to the end succeeds, the bytes
    /// that were handed out have the root hash, and the sources start with their encoding.
    pub proof fn law_drain_verified(self)
        requires
            self.wf(),
            self.fresh(),
        ensures
            self.drain() matches (_, content, Ok(_)) ==> {
                &&& root_hash(content) == self.core.verify.root_hash
                &&& self.holds(content)
            },
    {
        if self.drain().2 is Ok {
            self.lemma_fresh();
            self.lemma_explains_drain(Seq::empty());
            assert(Seq::<u8>::empty().take(0) + self.drain().1 =~= self.drain().1);
        }
    }

    /// Reading from the start to the end succeeds exactly if the sources start with an encoding of
    /// content that has the root hash, and then hands out that content.
    pub proof fn law_drain_exact(self, content: Seq<u8>)
        requires
            self.wf(),
            self.fresh(),
            self.input.bytes.len() <= u64::MAX,
        ensures
            root_hash(content) == self.core.verify.root_hash && self.holds(content) <==> {
                &&& self.drain().2 is Ok
                &&& self.drain().1 == content
            },
    {
        self.law_drain_verified();
        if root_hash(content) == self.core.verify.root_hash && self.holds(content) {
            self.law_fresh_decodes(content);
            self.law_drain(content);
            assert(content.skip(0) =~= content);
        }
    }
}

/// Whether `encoded` ends before the encoding that its header announces.
pub open spec fn too_short(encoded: Seq<u8>) -> bool {
    ||| encoded.len() < HEADER_SIZE
    ||| encoded.len() < HEADER_SIZE + subtree_size(le_value(encoded.take(HEADER_SIZE as int)))
}

/// An encoding is no shorter than its header announces.
pub proof fn lemma_long_enough(encoded: Seq<u8>, content: Seq<u8>)
    requires
        encoded.len() <= u64::MAX,
        found_at(combined_encoding(content), encoded, 0),
    ensures
        !too_short(encoded),
        content.len() <= u64::MAX,
{
    lemma_encode_subtree_len(content);
    lemma_parents_size_bound(content.len() as int);
    lemma_header_value(content.len() as u64);
    lemma_found_split(header(content.len() as int), encode_subtree(content), encoded, 0);
    assert(encoded.take(HEADER_SIZE as int) =~= encoded.subrange(0, HEADER_SIZE as int));
}

impl ReaderView {
    /// Whether a reader of a combined encoding has all the bytes that it will ask for.
    pub open spec fn ample(self) -> bool {
        &&& self.wf()
        &&& self.outboard is None
        &&& if self.parser().content_len is None {
            self.input.position == 0 && !too_short(self.input.bytes)
        } else {
            self.input.position + total(self.parser().pending) + total_parents(
                self.parser().pending,
            ) <= self.input.bytes.len()
        }
    }

    /// The content length that the header announces.
    pub open spec fn announced_len(self) -> int {
        if self.parser().content_len is None {
            le_value(self.input.next(HEADER_SIZE as int))
        } else {
            self.parser().len()
        }
    }

    proof fn lemma_ample_descend(self)
        requires
            self.ample(),
        ensures
            self.descend().1 is Ok ==> {
                &&& self.descend().0.ample()
                &&& self.descend().0.announced_len() == self.announced_len()
            },
            self.descend().1 matches Err(error) ==> error == ReadError::Decode(
                Error::HashMismatch,
            ),
        decreases self.rank(),
    {
        self.lemma_rank();
        self.lemma_read_node();
        lemma_total_nonnegative(self.parser().pending);
        match self.parser().read_next() {
            NextRead::Header => {
                let bytes = self.input.next(HEADER_SIZE as int);
                assert(bytes =~= self.input.bytes.take(HEADER_SIZE as int));
                lemma_header_len(bytes);
                lemma_total_one(le_value(bytes));
                self.read_header().0.lemma_ample_descend();
            },
            NextRead::Parent => {
                self.parser().lemma_advance_parent();
                lemma_total_nonnegative(self.parser().advance_parent().pending);
                if self.read_parent().1 is Ok {
                    self.read_parent().0.lemma_ample_descend();
                }
            },
            _ => {},
        }
    }

    /// A reader that has all the bytes it will ask for fails only on a wrong hash.
    proof fn lemma_ample_read(self, room: int)
        requires
            self.ample(),
            0 <= room,
        ensures
            self.read(room).result is Ok ==> {
                &&& self.read(room).after.ample()
                &&& self.read(room).after.announced_len() == self.announced_len()
            },
            self.read(room).result matches Err(error) ==> error == ReadError::Decode(
                Error::HashMismatch,
            ),
    {
        self.lemma_read(room);
        if self.core.buf.len() == 0 {
            self.lemma_ample_descend();
            self.lemma_descend();
            let here = self.descend().0;
            if self.descend().1 is Ok && here.parser().read_next() is Chunk {
                let pending = here.parser().pending;
                here.parser().lemma_advance_chunk();
                lemma_total_nonnegative(pending.drop_last());
                lemma_parents_size_bound(pending.last());
            }
        }
    }

    /// A combined encoding that is as long as its header announces is never found to be cut off:
    /// reading it to the end succeeds or fails with a wrong hash, whatever it holds.
    pub proof fn law_drain_ample(self)
        requires
            self.ample(),
        ensures
            self.drain().2 matches Err(error) ==> error == ReadError::Decode(Error::HashMismatch),
        decreases self.header_rank(), self.to_come(),
    {
        let room: int = CHUNK_SIZE as int;
        self.lemma_ample_read(room);
        self.lemma_read_progress(room);
        let outcome = self.read(room);
        if outcome.result matches Ok(bytes) && bytes.len() > 0 {
            outcome.after.law_drain_ample();
        }
    }

    proof fn lemma_explains_fill(self, done: Seq<u8>, buf: Seq<u8>, filled_to: int) -> (all: Seq<
        u8,
    >)
        requires
            self.explains(done),
            self.fill(buf, filled_to).2 is Ok,
            0 <= filled_to <= buf.len(),
        ensures
            ({
                let (after, filled, _) = self.fill(buf, filled_to);
                let start = self.handed_out();
                let end = start + buf.len() - filled_to;
                &&& after.explains(all)
                &&& after.related(self)
                &&& 0 <= start <= end <= all.len()
                &&& after.handed_out() == end
                &&& filled == buf.take(filled_to) + all.subrange(start, end)
                &&& all.take(done.len() as int) == done
                &&& done.len() <= all.len()
            }),
        decreases buf.len() - filled_to,
    {
        let start: int = self.handed_out();
        if filled_to >= buf.len() {
            assert(buf =~= buf.take(filled_to) + done.subrange(start, start));
            assert(done.take(done.len() as int) =~= done);
            done
        } else {
            let room: int = buf.len() - filled_to;
            let outcome = self.read(room);
            let filled = buf.take(filled_to) + outcome.fills(buf.skip(filled_to));
            let some = self.lemma_explains_read(done, room);
            let bytes = outcome.result->Ok_0;
            self.lemma_read(room);
            let all = outcome.after.lemma_explains_fill(some, filled, filled_to + bytes.len());
            let end: int = start + room;
            assert(all.take(some.len() as int).subrange(start, start + bytes.len())
                =~= all.subrange(start, start + bytes.len()));
            assert(filled.take(filled_to + bytes.len()) =~= buf.take(filled_to) + bytes);
            assert(all.subrange(start, end) =~= bytes + all.subrange(start + bytes.len(), end));
            assert(filled.take(filled_to + bytes.len()) + all.subrange(start + bytes.len(), end)
                =~= buf.take(filled_to) + all.subrange(start, end));
            assert(all.take(done.len() as int) =~= all.take(some.len() as int).take(
                done.len() as int,
            ));
            all
        }
    }

    /// Filling a buffer that is no longer than what is left fails only on a wrong hash.
    proof fn lemma_ample_fill(self, done: Seq<u8>, buf: Seq<u8>, filled_to: int)
        requires
            self.explains(done),
            self.ample(),
            0 <= filled_to <= buf.len(),
            self.handed_out() + buf.len() - filled_to <= self.announced_len(),
        ensures
            ({
                let (after, _, result) = self.fill(buf, filled_to);
                &&& result is Ok ==> {
                    &&& after.ample()
                    &&& after.announced_len() == self.announced_len()
                }
                &&& result matches Err(error) ==> error == ReadError::Decode(Error::HashMismatch)
            }),
        decreases buf.len() - filled_to,
    {
        if filled_to < buf.len() {
            let room: int = buf.len() - filled_to;
            let outcome = self.read(room);
            let filled = buf.take(filled_to) + outcome.fills(buf.skip(filled_to));
            self.lemma_ample_read(room);
            self.lemma_read(room);
            if outcome.result is Ok {
                let some = self.lemma_explains_read(done, room);
                let bytes = outcome.result->Ok_0;
                if bytes.len() > 0 {
                    outcome.after.lemma_ample_fill(some, filled, filled_to + bytes.len());
                } else {
                    assert(total(outcome.after.parser().pending) == 0);
                }
            }
        }
    }

    /// A fresh reader of an encoding reads it all, and then the end.
    proof fn lemma_decodes_whole(self, content: Seq<u8>, buf: Seq<u8>)
        requires
            self.wf(),
            self.fresh(),
            self.outboard is None,
            self.input.bytes.len() <= u64::MAX,
            self.core.verify.root_hash == root_hash(content),
            self.holds(content),
            buf.len() == self.announced_len(),
        ensures
            self.fill(buf, 0).2 is Ok,
            self.fill(buf, 0).0.read(1).result is Ok,
    {
        lemma_encode_subtree_len(content);
        lemma_parents_size_bound(content.len() as int);
        lemma_header_value(content.len() as u64);
        let encoding = combined_encoding(content);
        assert(self.input.next(HEADER_SIZE as int) =~= self.input.bytes.subrange(
            0,
            encoding.len() as int,
        ).take(HEADER_SIZE as int));
        assert(encoding.take(HEADER_SIZE as int) =~= header(content.len() as int));
        self.law_fill(content, buf, 0);
        self.fill(buf, 0).0.law_read(content, 1);
    }

    /// What reading a whole encoding at once, and then once more, comes to.
    pub proof fn lemma_decode_at_once(self, buf: Seq<u8>)
        requires
            self.wf(),
            self.fresh(),
            self.ample(),
            self.input.bytes.len() <= u64::MAX,
            buf.len() == self.announced_len(),
        ensures
            ({
                let (filled_up, content, fill_result) = self.fill(buf, 0);
                let end_result = filled_up.read(1).result;
                &&& fill_result is Ok && end_result is Ok ==> {
                    &&& root_hash(content) == self.core.verify.root_hash
                    &&& self.holds(content)
                    &&& end_result->Ok_0.len() == 0
                    &&& filled_up.wf()
                }
                &&& fill_result matches Err(error) ==> error == ReadError::Decode(
                    Error::HashMismatch,
                )
                &&& fill_result is Ok ==> (end_result matches Err(error) ==> error
                    == ReadError::Decode(Error::HashMismatch))
                &&& fill_result is Err || end_result is Err ==> forall|content: Seq<u8>|
                    #[trigger] root_hash(content) == self.core.verify.root_hash ==> !self.holds(
                        content,
                    )
            }),
    {
        let done = Seq::<u8>::empty();
        self.lemma_fresh();
        self.lemma_ample_fill(done, buf, 0);
        let (filled_up, content, fill_result) = self.fill(buf, 0);
        let end_result = filled_up.read(1).result;
        if fill_result is Ok {
            let all = self.lemma_explains_fill(done, buf, 0);
            filled_up.lemma_ample_read(1);
            if end_result is Ok {
                let more = filled_up.lemma_explains_read(all, 1);
                lemma_total_nonnegative(filled_up.parser().pending);
                lemma_total_nonnegative(filled_up.read(1).after.parser().pending);
                filled_up.read(1).after.lemma_explains_end(more);
                assert(content =~= all);
                assert(more =~= all);
            }
        }
        if fill_result is Err || end_result is Err {
            assert forall|content: Seq<u8>| #[trigger]
                root_hash(content) == self.core.verify.root_hash implies !self.holds(content) by {
                if self.holds(content) {
                    self.lemma_decodes_whole(content, buf);
                }
            }
        }
    }
}

} // verus!
