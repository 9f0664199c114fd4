//! Every byte comes from the content: whatever header and nodes readers are given, and wherever
//! they seek, what they hand out stands in some chunk of the content with the root hash.
//!
//! Behind a header that announces a wrong length, positions mean nothing. So this does not say
//! which chunk it is.

use vstd::prelude::*;

use crate::binding::{genuine, lemma_genuine_root, lemma_genuine_split, lemma_genuine_take};
use crate::complete::found_at;
use crate::error::{offset_target, ReadError};
use crate::hash::{Finalization, Node, CHUNK_SIZE, PARENT_SIZE};
use crate::parse::{NextRead, ParseView};
use crate::parts::{hashes_match, lemma_split_parts, lemma_total_first};
use crate::reading::{min, ReaderView, SeekFrom, SliceView};
use crate::tree::{has_node, left, left_part, lemma_left_part, right, root_hash, subtree_hash};

verus! {

/// The chunk of `content` that starts at `base`.
pub open spec fn chunk_at(content: Seq<u8>, base: int) -> Seq<u8> {
    content.subrange(base, min(base + CHUNK_SIZE, content.len() as int))
}

/// Whether `base` is where a chunk of `len` bytes starts.
pub open spec fn starts_chunk(base: int, len: int) -> bool {
    &&& base % (CHUNK_SIZE as int) == 0
    &&& base == 0 || 0 < base < len
}

/// Whether `bytes` stand, one after the other, in some chunk of `content`.
pub open spec fn from_chunk(bytes: Seq<u8>, content: Seq<u8>) -> bool {
    exists|base: int, start: int|
        starts_chunk(base, content.len() as int) && #[trigger] found_at(
            bytes,
            chunk_at(content, base),
            start,
        )
}

proof fn lemma_from_chunk_part(bytes: Seq<u8>, content: Seq<u8>, from: int, to: int)
    requires
        from_chunk(bytes, content),
        0 <= from <= to <= bytes.len(),
    ensures
        from_chunk(bytes.subrange(from, to), content),
{
    let (base, start) = choose|base: int, start: int|
        starts_chunk(base, content.len() as int) && #[trigger] found_at(
            bytes,
            chunk_at(content, base),
            start,
        );
    let chunk = chunk_at(content, base);
    assert(chunk.subrange(start + from, start + to) =~= chunk.subrange(
        start,
        start + bytes.len(),
    ).subrange(from, to));
    assert(found_at(bytes.subrange(from, to), chunk, start + from));
}

/// A chunk in the tree over some content is a chunk of the content.
proof fn lemma_chunk_node(content: Seq<u8>, finalization: Finalization, node: Node) -> (base: int)
    requires
        has_node(content, finalization, node),
        node.depth == 0,
    ensures
        starts_chunk(base, content.len() as int),
        node.bytes == chunk_at(content, base),
    decreases content.len(),
{
    if content.len() <= CHUNK_SIZE {
        assert(chunk_at(content, 0) =~= content);
        0
    } else {
        let l: int = left_part(content.len() as int);
        lemma_left_part(content.len() as int);
        if has_node(left(content), Finalization::NotRoot, node) {
            let base = lemma_chunk_node(left(content), Finalization::NotRoot, node);
            assert(base + CHUNK_SIZE <= l);
            assert(chunk_at(left(content), base) =~= chunk_at(content, base));
            base
        } else {
            let base = lemma_chunk_node(right(content), Finalization::NotRoot, node);
            assert(chunk_at(right(content), base) =~= chunk_at(content, l + base));
            l + base
        }
    }
}

/// The next subtree is the root after a step of a seek only if it was before, or the step starts
/// over.
proof fn lemma_seek_finalization(parser: ParseView, seek_to: int)
    requires
        parser.wf(),
        parser.content_len is Some,
        0 <= seek_to,
    ensures
        ({
            let moved = parser.seek_move(seek_to);
            moved.pending.len() > 0 ==> moved.finalization() == if parser.seek_next(
                seek_to,
            ).reset_to_root {
                Finalization::Root
            } else {
                parser.finalization()
            }
        }),
{
    parser.lemma_seek_move(seek_to);
    parser.lemma_reset();
    let pending = parser.pending;
    if pending.len() > 0 {
        lemma_total_first(pending);
        assert(pending[pending.len() - 1] > 0 || parser.len() == 0);
    }
}

impl ReaderView {
    /// Whether `parts` are pieces of `content` that have the hashes that the reader asks for next.
    pub open spec fn stands_before(self, content: Seq<u8>, parts: Seq<Seq<u8>>) -> bool {
        &&& hashes_match(parts, self.core.verify.stack, self.parser().finalization())
        &&& genuine(parts, self.parser().finalization(), content)
    }

    /// Whether the reader asks for nothing but nodes of `content`, and buffers nothing but bytes
    /// from it, and nothing that it will read is forged.
    pub open spec fn rooted(self, content: Seq<u8>) -> bool {
        &&& self.wf()
        &&& self.unforged(content)
        &&& self.core.verify.root_hash == root_hash(content)
        &&& self.core.buf.len() > 0 ==> from_chunk(self.core.buf, content)
        &&& self.parser().content_len is Some ==> exists|parts: Seq<Seq<u8>>| #[trigger]
            self.stands_before(content, parts)
    }

    proof fn lemma_rooted_header(self, content: Seq<u8>)
        requires
            self.rooted(content),
            self.parser().read_next() is Header,
        ensures
            self.read_header().0.rooted(content),
    {
        let after = self.read_header().0;
        self.lemma_read_node();
        assert(after.nodes().bytes == self.nodes().bytes);
        if self.read_header().1 is Ok {
            lemma_genuine_root(content);
            assert(after.stands_before(content, seq![content]));
        }
    }

    proof fn lemma_rooted_parent(self, content: Seq<u8>)
        requires
            self.rooted(content),
            self.parser().read_next() is Parent,
        ensures
            self.read_parent().0.rooted(content),
    {
        let after = self.read_parent().0;
        self.lemma_read_node();
        assert(after.nodes().bytes == self.nodes().bytes);
        let parts = choose|parts: Seq<Seq<u8>>| #[trigger] self.stands_before(content, parts);
        if self.read_parent().1 is Ok {
            let finalization = self.parser().finalization();
            let bytes = self.nodes().next(PARENT_SIZE as int);
            let part = parts.last();
            let split = parts.drop_last().push(right(part)).push(left(part));
            assert(subtree_hash(parts[parts.len() - 1], finalization)
                == self.core.verify.stack.last());
            assert(found_at(bytes, self.nodes().bytes, self.nodes().position));
            self.lemma_accepted(content, parts, finalization, Node::parent(bytes, finalization));
            self.parser().lemma_advance_parent();
            lemma_split_parts(parts);
            lemma_genuine_split(parts, finalization, content);
            let stack = after.core.verify.stack;
            assert forall|i: int| 0 <= i < split.len() implies subtree_hash(
                #[trigger] split[i],
                Finalization::NotRoot,
            ) == stack[i] by {
                if i < parts.len() - 1 {
                    assert(split[i] == parts[i]);
                    assert(stack[i] == self.core.verify.stack[i]);
                }
            }
            assert(after.stands_before(content, split));
        } else {
            assert(after.stands_before(content, parts));
        }
    }

    proof fn lemma_rooted_chunk(self, content: Seq<u8>, skip: int, room: int)
        requires
            self.rooted(content),
            self.core.buf.len() == 0,
            self.parser().read_next() is Chunk,
            0 <= skip <= self.parser().pending.last(),
            0 <= room,
        ensures
            ({
                let size = self.parser().pending.last();
                let outcome = self.read_chunk(size, self.parser().finalization(), skip, room);
                &&& outcome.after.rooted(content)
                &&& outcome.result matches Ok(bytes) ==> bytes.len() == 0 || from_chunk(
                    bytes,
                    content,
                )
            }),
    {
        let size: int = self.parser().pending.last();
        let finalization = self.parser().finalization();
        let outcome = self.read_chunk(size, finalization, skip, room);
        let after = outcome.after;
        self.lemma_read_chunk(size, finalization, skip, room);
        assert(after.nodes().bytes == self.nodes().bytes);
        let parts = choose|parts: Seq<Seq<u8>>| #[trigger] self.stands_before(content, parts);
        if outcome.result is Ok {
            let chunk = self.input.next(size);
            let rest = parts.drop_last();
            let node = Node::chunk(chunk, finalization);
            assert(subtree_hash(parts[parts.len() - 1], finalization)
                == self.core.verify.stack.last());
            if size > 0 {
                assert(found_at(chunk, self.input.bytes, self.input.position));
            } else {
                assert(self.input.bytes.subrange(0, 0) =~= chunk);
                assert(found_at(chunk, self.input.bytes, 0));
            }
            self.lemma_accepted(content, parts, finalization, node);
            assert(has_node(parts[parts.len() - 1], finalization, node));
            let base = lemma_chunk_node(content, Finalization::Root, node);
            assert(chunk.subrange(0, chunk.len() as int) =~= chunk);
            assert(found_at(chunk, chunk_at(content, base), 0));
            let count: int = min(size - skip, room);
            lemma_from_chunk_part(chunk, content, skip, skip + count);
            lemma_from_chunk_part(chunk, content, skip + count, size);
            assert(chunk.skip(skip).take(count) =~= chunk.subrange(skip, skip + count));
            assert(after.core.buf =~= chunk.subrange(skip + count, size));
            self.parser().lemma_advance_chunk();
            lemma_genuine_take(parts, finalization, content, parts.len() - 1);
            assert(rest =~= parts.take(parts.len() - 1));
            let pending = self.parser().pending;
            lemma_total_first(pending);
            assert(pending[pending.len() - 1] > 0 || self.parser().len() == 0);
            assert(rest.len() > 0 ==> !after.parser().at_root());
            assert forall|i: int| 0 <= i < rest.len() implies subtree_hash(
                #[trigger] rest[i],
                after.parser().finalization(),
            ) == after.core.verify.stack[i] by {
                assert(rest[i] == parts[i]);
                assert(self.core.verify.stack[i] == after.core.verify.stack[i]);
            }
            assert(after.stands_before(content, rest));
        } else {
            assert(after.stands_before(content, parts));
        }
    }

    proof fn lemma_rooted_descend(self, content: Seq<u8>)
        requires
            self.rooted(content),
        ensures
            self.descend().0.rooted(content),
        decreases self.rank(),
    {
        self.lemma_rank();
        if self.parser().read_next() is Header {
            self.lemma_rooted_header(content);
            if self.read_header().1 is Ok {
                self.read_header().0.lemma_rooted_descend(content);
            }
        } else if self.parser().read_next() is Parent {
            self.lemma_rooted_parent(content);
            if self.read_parent().1 is Ok {
                self.read_parent().0.lemma_rooted_descend(content);
            }
        }
    }

    /// A reader that has read nothing yet asks for nothing but nodes of any content with its root
    /// hash that is not forged.
    pub proof fn law_fresh_rooted(self, content: Seq<u8>)
        requires
            self.wf(),
            self.fresh(),
            self.core.verify.root_hash == root_hash(content),
            self.unforged(content),
        ensures
            self.rooted(content),
    {
    }

    /// Whatever a reader is given to read, the header included, and whatever seeks and failures
    /// came before: the bytes that a read hands out stand in a chunk of the content.
    pub proof fn law_read_rooted(self, content: Seq<u8>, room: int)
        requires
            self.rooted(content),
            0 <= room,
        ensures
            self.read(room).after.rooted(content),
            self.read(room).result matches Ok(bytes) ==> bytes.len() == 0 || from_chunk(
                bytes,
                content,
            ),
    {
        let outcome = self.read(room);
        self.lemma_read(room);
        if self.core.buf.len() > 0 {
            let buf = self.core.buf;
            let count: int = min(buf.len() as int, room);
            lemma_from_chunk_part(buf, content, 0, count);
            lemma_from_chunk_part(buf, content, count, buf.len() as int);
            assert(buf.take(count) =~= buf.subrange(0, count));
            assert(outcome.after.core.buf =~= buf.subrange(count, buf.len() as int));
            assert(outcome.after.nodes().bytes == self.nodes().bytes);
            if self.parser().content_len is Some {
                let parts = choose|parts: Seq<Seq<u8>>| #[trigger]
                    self.stands_before(content, parts);
                assert(outcome.after.stands_before(content, parts));
            }
        } else {
            self.lemma_rooted_descend(content);
            self.lemma_descend();
            let here = self.descend().0;
            if self.descend().1 is Ok && here.parser().read_next() is Chunk {
                here.lemma_rooted_chunk(content, here.parser().skip, room);
            }
        }
    }

    proof fn lemma_rooted_apply_seek(self, content: Seq<u8>, seek_to: int, jump: bool)
        requires
            self.rooted(content),
            self.core.buf.len() == 0,
            0 <= seek_to,
        ensures
            self.apply_seek(self.parser().seek_next(seek_to), jump).0.rooted(content),
    {
        let bookkeeping = self.parser().seek_next(seek_to);
        let verify = self.core.verify;
        let (after, result) = self.apply_seek(bookkeeping, jump);
        self.lemma_apply_seek(seek_to, jump);
        self.parser().lemma_seek_next(seek_to);
        assert(after.nodes().bytes == self.nodes().bytes);
        if self.parser().content_len is Some && result is Ok {
            let parts = choose|parts: Seq<Seq<u8>>| #[trigger] self.stands_before(content, parts);
            let depth: int = bookkeeping.stack_depth as int;
            lemma_seek_finalization(self.parser(), seek_to);
            lemma_genuine_root(content);
            verify.lemma_after_seek(seek_to);
            let (from, finalization) = if bookkeeping.reset_to_root {
                (seq![content], Finalization::Root)
            } else {
                (parts, self.parser().finalization())
            };
            lemma_genuine_take(from, finalization, content, depth);
            let rest = from.take(depth);
            assert forall|i: int| 0 <= i < rest.len() implies subtree_hash(
                #[trigger] rest[i],
                after.parser().finalization(),
            ) == after.core.verify.stack[i] by {
                assert(rest[i] == from[i]);
            }
            assert(after.stands_before(content, rest));
        } else if result is Ok {
            verify.lemma_after_seek(seek_to);
            assert(verify.after_seek(bookkeeping).stack =~= verify.stack);
            assert(after =~= self);
        }
    }

    proof fn lemma_rooted_seek_step(self, content: Seq<u8>, seek_to: int, jump: bool)
        requires
            self.rooted(content),
            self.core.buf.len() == 0,
            0 <= seek_to,
        ensures
            self.seek_step(seek_to, jump).0.rooted(content),
    {
        let bookkeeping = self.parser().seek_next(seek_to);
        let (moved, applied) = self.apply_seek(bookkeeping, jump);
        self.lemma_rooted_apply_seek(content, seek_to, jump);
        self.lemma_apply_seek(seek_to, jump);
        self.parser().lemma_seek_next(seek_to);
        self.parser().lemma_seek_move(seek_to);
        if applied is Ok {
            match bookkeeping.next_read {
                NextRead::Header => moved.lemma_rooted_header(content),
                NextRead::Parent => moved.lemma_rooted_parent(content),
                NextRead::Chunk { size, finalization, skip } => {
                    moved.lemma_rooted_chunk(content, skip as int, 0);
                },
                NextRead::Done => {},
            }
        }
    }

    proof fn lemma_rooted_seek(self, content: Seq<u8>, seek_to: int, jump: bool)
        requires
            self.rooted(content),
            self.core.buf.len() == 0,
            0 <= seek_to,
        ensures
            self.seek(seek_to, jump).0.rooted(content),
            self.seek(seek_to, jump).0.core.buf.len() == 0,
        decreases self.header_rank(), self.reset_rank(seek_to), self.work_rank(),
    {
        self.lemma_seek_rank(seek_to, jump);
        self.lemma_rooted_seek_step(content, seek_to, jump);
        let (after, result) = self.seek_step(seek_to, jump);
        if result == Ok::<bool, ReadError>(false) {
            after.lemma_rooted_seek(content, seek_to, jump);
        }
    }

    proof fn lemma_rooted_verify_len(self, content: Seq<u8>)
        requires
            self.rooted(content),
            self.core.buf.len() == 0,
        ensures
            self.verify_len().0.rooted(content),
            self.verify_len().0.core.buf.len() == 0,
        decreases self.header_rank(), self.work_rank(),
    {
        if !self.parser().validated {
            self.lemma_seek_rank(u64::MAX as int, true);
            self.lemma_rooted_seek_step(content, u64::MAX as int, true);
            let (after, result) = self.seek_step(u64::MAX as int, true);
            if result is Ok {
                after.lemma_rooted_verify_len(content);
            }
        }
    }

    /// A seek, to wherever and whether it succeeds or not, asks for nothing but nodes of the
    /// content, so reads after it hand out nothing but bytes of its chunks.
    pub proof fn law_seek_rooted(self, content: Seq<u8>, position: SeekFrom)
        requires
            self.rooted(content),
        ensures
            self.seek_from(position).0.rooted(content),
    {
        let cleared = self.clear_buf();
        assert(cleared.nodes().bytes == self.nodes().bytes);
        if self.parser().content_len is Some {
            let parts = choose|parts: Seq<Seq<u8>>| #[trigger] self.stands_before(content, parts);
            assert(cleared.stands_before(content, parts));
        }
        assert(cleared.rooted(content));
        match position {
            SeekFrom::Start(offset) => cleared.lemma_rooted_seek(content, offset as int, true),
            SeekFrom::End(offset) => {
                cleared.lemma_rooted_verify_len(content);
                let (after, len) = cleared.verify_len();
                if len is Ok {
                    if let Ok(seek_to) = offset_target(len->Ok_0 as int, offset as int) {
                        after.lemma_rooted_seek(content, seek_to as int, true);
                    }
                }
            },
            SeekFrom::Current(offset) => {
                if let Ok(seek_to) = offset_target(self.reading_position(), offset as int) {
                    cleared.lemma_rooted_seek(content, seek_to as int, true);
                }
            },
        }
    }
}

impl SliceView {
    /// Whatever a slice reader is given to read, the header included, and whatever failures came
    /// before: the bytes that a read hands out stand in a chunk of the content.
    pub proof fn law_read_rooted(self, content: Seq<u8>, room: int)
        requires
            self.reader.rooted(content),
            0 <= room,
        ensures
            self.after_read(room).reader.rooted(content),
            self.read(room).result matches Ok(bytes) ==> bytes.len() == 0 || from_chunk(
                bytes,
                content,
            ),
    {
        let want: int = min(self.remaining as int, room);
        if self.remaining > 0 {
            if self.reader.core.buf.len() > 0 {
                self.reader.law_read_rooted(content, want);
            } else {
                self.reader.lemma_rooted_seek(content, self.start as int, false);
                self.seek_start().0.law_read_rooted(content, want);
            }
        }
    }
}

} // verus!
