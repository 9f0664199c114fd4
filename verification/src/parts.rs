//! The unread subtrees of a reader as parts of some content.

use vstd::prelude::*;

use crate::hash::{Finalization, Node, CHUNK_SIZE, HASH_SIZE, PARENT_SIZE};
use crate::parse::{lemma_total_nonnegative, total, total_parents, ParseView};
use crate::tree::{
    encode_subtree, left, left_part, lemma_encode_subtree_len, lemma_left_part,
    lemma_subtree_hash_len, outboard_subtree, parent_node, parents_size, right, root_hash,
    subtree_hash, subtree_size,
};
use crate::verify::VerifyView;

verus! {

/// Cuts `tail` into parts of the given lengths. The last part comes first in `tail`.
pub open spec fn segments(tail: Seq<u8>, lens: Seq<int>) -> Seq<Seq<u8>>
    decreases lens.len(),
{
    if lens.len() == 0 {
        Seq::empty()
    } else {
        segments(tail.skip(lens.last()), lens.drop_last()).push(tail.take(lens.last()))
    }
}

/// Puts parts together, the last one first.
pub open spec fn join(parts: Seq<Seq<u8>>) -> Seq<u8>
    decreases parts.len(),
{
    if parts.len() == 0 {
        Seq::empty()
    } else {
        parts.last() + join(parts.drop_last())
    }
}

/// The subtrees over some parts in pre-order, that over the last one first.
pub open spec fn encode_parts(parts: Seq<Seq<u8>>) -> Seq<u8>
    decreases parts.len(),
{
    if parts.len() == 0 {
        Seq::empty()
    } else {
        encode_subtree(parts.last()) + encode_parts(parts.drop_last())
    }
}

/// The parents of the subtrees over some parts in pre-order.
pub open spec fn outboard_parts(parts: Seq<Seq<u8>>) -> Seq<u8>
    decreases parts.len(),
{
    if parts.len() == 0 {
        Seq::empty()
    } else {
        outboard_subtree(parts.last()) + outboard_parts(parts.drop_last())
    }
}

/// Whether the subtrees over some parts have the given hashes.
pub open spec fn hashes_match(
    parts: Seq<Seq<u8>>,
    stack: Seq<Seq<u8>>,
    finalization: Finalization,
) -> bool {
    &&& parts.len() == stack.len()
    &&& forall|i: int|
        0 <= i < parts.len() ==> subtree_hash(#[trigger] parts[i], finalization) == stack[i]
}

/// Whether some parts have the given lengths.
pub open spec fn lengths_match(parts: Seq<Seq<u8>>, lens: Seq<int>) -> bool {
    &&& parts.len() == lens.len()
    &&& forall|i: int| 0 <= i < parts.len() ==> (#[trigger] parts[i]).len() == lens[i]
}

/// The parts of `content` that are still to be read at a position.
pub open spec fn unread(parser: ParseView, content: Seq<u8>) -> Seq<Seq<u8>> {
    segments(content.skip(parser.position), parser.pending)
}

pub proof fn lemma_segments(tail: Seq<u8>, lens: Seq<int>)
    requires
        forall|i: int| 0 <= i < lens.len() ==> 0 <= #[trigger] lens[i],
        tail.len() == total(lens),
    ensures
        lengths_match(segments(tail, lens), lens),
        join(segments(tail, lens)) == tail,
    decreases lens.len(),
{
    if lens.len() > 0 {
        lemma_total_nonnegative(lens.drop_last());
        lemma_segments(tail.skip(lens.last()), lens.drop_last());
        let parts = segments(tail, lens);
        assert(parts.drop_last() =~= segments(tail.skip(lens.last()), lens.drop_last()));
        assert(tail =~= tail.take(lens.last()) + tail.skip(lens.last()));
        assert forall|i: int| 0 <= i < parts.len() implies (#[trigger] parts[i]).len()
            == lens[i] by {
            if i < parts.len() - 1 {
                assert(parts.drop_last()[i].len() == lens.drop_last()[i]);
            }
        }
    } else {
        assert(tail =~= Seq::<u8>::empty());
    }
}

/// The encodings of some parts are as long as their lengths say.
pub proof fn lemma_encode_parts_len(parts: Seq<Seq<u8>>, lens: Seq<int>)
    requires
        lengths_match(parts, lens),
    ensures
        encode_parts(parts).len() == total(lens) + total_parents(lens),
        outboard_parts(parts).len() == total_parents(lens),
    decreases parts.len(),
{
    if parts.len() > 0 {
        assert forall|i: int| 0 <= i < parts.drop_last().len() implies (
        #[trigger] parts.drop_last()[i]).len() == lens.drop_last()[i] by {
            assert(parts[i].len() == lens[i]);
        }
        lemma_encode_parts_len(parts.drop_last(), lens.drop_last());
        lemma_encode_subtree_len(parts.last());
    }
}

pub proof fn lemma_push_part(parts: Seq<Seq<u8>>, part: Seq<u8>)
    ensures
        join(parts.push(part)) == part + join(parts),
        encode_parts(parts.push(part)) == encode_subtree(part) + encode_parts(parts),
        outboard_parts(parts.push(part)) == outboard_subtree(part) + outboard_parts(parts),
{
    assert(parts.push(part).drop_last() =~= parts);
}

/// What a parent stands for: its two subtrees, the left one first.
pub proof fn lemma_split_parts(parts: Seq<Seq<u8>>)
    requires
        parts.len() > 0,
        parts.last().len() > CHUNK_SIZE,
    ensures
        ({
            let part = parts.last();
            let split = parts.drop_last().push(right(part)).push(left(part));
            &&& parent_node(part).len() == PARENT_SIZE
            &&& parent_node(part).take(HASH_SIZE as int) == subtree_hash(
                left(part),
                Finalization::NotRoot,
            )
            &&& parent_node(part).skip(HASH_SIZE as int) == subtree_hash(
                right(part),
                Finalization::NotRoot,
            )
            &&& join(split) == join(parts)
            &&& encode_parts(parts) == parent_node(part) + encode_parts(split)
            &&& outboard_parts(parts) == parent_node(part) + outboard_parts(split)
        }),
{
    let part = parts.last();
    let rest = parts.drop_last();
    let split = rest.push(right(part)).push(left(part));
    lemma_left_part(part.len() as int);
    lemma_subtree_hash_len(left(part), Finalization::NotRoot);
    lemma_subtree_hash_len(right(part), Finalization::NotRoot);
    assert(parent_node(part).take(HASH_SIZE as int) =~= subtree_hash(
        left(part),
        Finalization::NotRoot,
    ));
    assert(parent_node(part).skip(HASH_SIZE as int) =~= subtree_hash(
        right(part),
        Finalization::NotRoot,
    ));
    lemma_push_part(rest, right(part));
    lemma_push_part(rest.push(right(part)), left(part));
    assert(part =~= left(part) + right(part));
    assert(join(split) =~= left(part) + (right(part) + join(rest)));
    assert(join(parts) =~= join(split));
    assert(encode_parts(split) =~= encode_subtree(left(part)) + (encode_subtree(right(part))
        + encode_parts(rest)));
    assert(encode_parts(parts) =~= parent_node(part) + encode_parts(split));
    assert(outboard_parts(split) =~= outboard_subtree(left(part)) + (outboard_subtree(right(part))
        + outboard_parts(rest)));
    assert(outboard_parts(parts) =~= parent_node(part) + outboard_parts(split));
}

/// Skipping subtrees leaves the parts behind them as they were.
pub proof fn lemma_skip_segments(tail: Seq<u8>, lens: Seq<int>, depth: int)
    requires
        forall|i: int| 0 <= i < lens.len() ==> 0 <= #[trigger] lens[i],
        tail.len() == total(lens),
        0 <= depth <= lens.len(),
    ensures
        0 <= total(lens.take(depth)) <= total(lens),
        segments(tail.skip(total(lens) - total(lens.take(depth))), lens.take(depth)) == segments(
            tail,
            lens,
        ).take(depth),
    decreases lens.len(),
{
    let parts = segments(tail, lens);
    lemma_segments(tail, lens);
    lemma_total_nonnegative(lens.take(depth));
    if depth == lens.len() {
        assert(lens.take(depth) =~= lens);
        assert(tail.skip(0) =~= tail);
        assert(parts.take(depth) =~= parts);
    } else {
        let last: int = lens.last();
        let shorter = lens.drop_last();
        lemma_total_nonnegative(shorter);
        assert forall|i: int| 0 <= i < shorter.len() implies 0 <= #[trigger] shorter[i] by {
            assert(shorter[i] == lens[i]);
        }
        lemma_skip_segments(tail.skip(last), shorter, depth);
        assert(shorter.take(depth) =~= lens.take(depth));
        let skipped: int = total(lens) - total(lens.take(depth));
        assert(tail.skip(last).skip(skipped - last) =~= tail.skip(skipped));
        assert(parts.drop_last() =~= segments(tail.skip(last), shorter));
        assert(parts.drop_last().take(depth) =~= parts.take(depth));
    }
}

/// The encodings of the parts that are left end the encodings of all parts.
pub proof fn lemma_skip_encodings(parts: Seq<Seq<u8>>, lens: Seq<int>, depth: int)
    requires
        lengths_match(parts, lens),
        0 <= depth <= lens.len(),
    ensures
        ({
            let parents = total_parents(lens) - total_parents(lens.take(depth));
            let content = total(lens) - total(lens.take(depth));
            &&& 0 <= parents <= outboard_parts(parts).len()
            &&& 0 <= content + parents <= encode_parts(parts).len()
            &&& encode_parts(parts).skip(content + parents) == encode_parts(parts.take(depth))
            &&& outboard_parts(parts).skip(parents) == outboard_parts(parts.take(depth))
        }),
    decreases lens.len(),
{
    lemma_encode_parts_len(parts, lens);
    if depth == lens.len() {
        assert(lens.take(depth) =~= lens);
        assert(parts.take(depth) =~= parts);
        assert(encode_parts(parts).skip(0) =~= encode_parts(parts));
        assert(outboard_parts(parts).skip(0) =~= outboard_parts(parts));
    } else {
        let shorter = lens.drop_last();
        let rest = parts.drop_last();
        assert forall|i: int| 0 <= i < rest.len() implies (#[trigger] rest[i]).len()
            == shorter[i] by {
            assert(parts[i].len() == lens[i]);
        }
        lemma_skip_encodings(rest, shorter, depth);
        lemma_encode_subtree_len(parts.last());
        assert(parts.last().len() == lens.last());
        assert(shorter.take(depth) =~= lens.take(depth));
        assert(rest.take(depth) =~= parts.take(depth));
        let parents: int = total_parents(shorter) - total_parents(shorter.take(depth));
        let content: int = total(shorter) - total(shorter.take(depth));
        lemma_encode_parts_len(rest, shorter);
        crate::parse::lemma_parents_size_bound(lens.last());
        assert(encode_parts(parts).skip(subtree_size(lens.last()) + content + parents)
            =~= encode_parts(rest).skip(content + parents));
        assert(outboard_parts(parts).skip(parents_size(lens.last()) + parents)
            =~= outboard_parts(rest).skip(parents));
    }
}

impl VerifyView {
    /// Whether the hashes of the unread subtrees are those of the corresponding parts of `content`.
    pub open spec fn tracks(self, content: Seq<u8>) -> bool {
        &&& self.wf()
        &&& content.len() <= u64::MAX
        &&& self.root_hash == root_hash(content)
        &&& self.parser.content_len == Some(content.len() as u64)
        &&& hashes_match(unread(self.parser, content), self.stack, self.parser.finalization())
    }

    pub proof fn lemma_tracks_segments(self, content: Seq<u8>)
        requires
            self.tracks(content),
        ensures
            lengths_match(unread(self.parser, content), self.parser.pending),
            join(unread(self.parser, content)) == content.skip(self.parser.position),
            self.parser.position + total(self.parser.pending) == content.len(),
            0 <= self.parser.position <= content.len(),
            self.parser.pending.len() > 0 ==> {
                let part = unread(self.parser, content).last();
                &&& part == content.subrange(
                    self.parser.position,
                    self.parser.position + self.parser.pending.last(),
                )
                &&& self.parser.position + self.parser.pending.last() <= content.len()
            },
    {
        lemma_total_nonnegative(self.parser.pending);
        lemma_segments(content.skip(self.parser.position), self.parser.pending);
        if self.parser.pending.len() > 0 {
            assert(unread(self.parser, content).last() =~= content.subrange(
                self.parser.position,
                self.parser.position + self.parser.pending.last(),
            ));
        }
    }

    pub proof fn lemma_track_header(self, content: Seq<u8>)
        requires
            self.wf(),
            self.parser.content_len is None,
            content.len() <= u64::MAX,
            self.root_hash == root_hash(content),
        ensures
            self.feed_header(content.len() as u64).tracks(content),
            unread(self.feed_header(content.len() as u64).parser, content) == seq![content],
    {
        let after = self.feed_header(content.len() as u64);
        self.parser.lemma_feed_header(content.len() as u64);
        lemma_root_segment(content);
        assert(content.skip(0) =~= content);
    }

    /// A parent of the content is accepted, and what follows it is tracked.
    pub proof fn lemma_track_parent(self, content: Seq<u8>)
        requires
            self.tracks(content),
            self.parser.read_next() is Parent,
        ensures
            ({
                let parts = unread(self.parser, content);
                let part = parts.last();
                let after = self.advance_parent(parent_node(part));
                &&& part.len() > CHUNK_SIZE
                &&& self.accepts_parent(parent_node(part))
                &&& after.tracks(content)
                &&& unread(after.parser, content) == parts.drop_last().push(right(part)).push(
                    left(part),
                )
            }),
    {
        let parts = unread(self.parser, content);
        let part = parts.last();
        let after = self.advance_parent(parent_node(part));
        let tail = content.skip(self.parser.position);
        let len: int = self.parser.pending.last();
        let l: int = left_part(len);
        let rest = self.parser.pending.drop_last();
        self.lemma_tracks_segments(content);
        self.parser.lemma_advance_parent();
        lemma_split_parts(parts);
        let pending = after.parser.pending;
        assert(pending.drop_last() =~= rest.push(len - l));
        assert(pending.drop_last().drop_last() =~= rest);
        assert(tail.skip(l).skip(len - l) =~= tail.skip(len));
        assert(tail.skip(l).take(len - l) =~= right(part));
        assert(tail.take(l) =~= left(part));
        assert(segments(tail.skip(l), rest.push(len - l)) == segments(
            tail.skip(l).skip(len - l),
            rest,
        ).push(tail.skip(l).take(len - l))) by {
            assert(rest.push(len - l).drop_last() =~= rest);
        }
        assert(parts.drop_last() =~= segments(tail.skip(len), rest));
        assert(unread(after.parser, content) =~= parts.drop_last().push(right(part)).push(
            left(part),
        ));
        assert forall|i: int| 0 <= i < after.stack.len() implies subtree_hash(
            #[trigger] unread(after.parser, content)[i],
            Finalization::NotRoot,
        ) == after.stack[i] by {
            if i < parts.len() - 1 {
                assert(unread(after.parser, content)[i] == parts[i]);
                assert(after.stack[i] == self.stack[i]);
            }
        }
        assert(subtree_hash(parts[parts.len() - 1], self.parser.finalization())
            == self.stack.last());
    }

    /// A chunk of the content has the hash that is asked for, and what follows it is tracked.
    pub proof fn lemma_track_chunk(self, content: Seq<u8>)
        requires
            self.tracks(content),
            self.parser.read_next() is Chunk,
        ensures
            ({
                let parts = unread(self.parser, content);
                let after = self.advance_chunk();
                &&& parts.last().len() <= CHUNK_SIZE
                &&& Node::chunk(parts.last(), self.parser.finalization()).hash()
                    == self.stack.last()
                &&& after.tracks(content)
                &&& unread(after.parser, content) == parts.drop_last()
            }),
    {
        let parts = unread(self.parser, content);
        let after = self.advance_chunk();
        let len: int = self.parser.pending.last();
        self.lemma_tracks_segments(content);
        self.parser.lemma_advance_chunk();
        assert(content.skip(self.parser.position).skip(len) =~= content.skip(
            self.parser.position + len,
        ));
        assert(unread(after.parser, content) =~= parts.drop_last());
        lemma_total_first(self.parser.pending);
        assert(self.parser.pending[self.parser.pending.len() - 1] >= 0);
        assert(!after.parser.at_root());
        assert(subtree_hash(parts[parts.len() - 1], self.parser.finalization())
            == self.stack.last());
        assert forall|i: int| 0 <= i < after.stack.len() implies subtree_hash(
            #[trigger] unread(after.parser, content)[i],
            after.parser.finalization(),
        ) == after.stack[i] by {
            assert(unread(after.parser, content)[i] == parts[i]);
            assert(after.stack[i] == self.stack[i]);
        }
    }

    /// A step of a seek moves to a place that is tracked.
    pub proof fn lemma_track_seek(self, content: Seq<u8>, seek_to: int)
        requires
            self.tracks(content),
            0 <= seek_to,
        ensures
            ({
                let bookkeeping = self.parser.seek_next(seek_to);
                let after = self.after_seek(bookkeeping);
                let from = if bookkeeping.reset_to_root {
                    seq![content]
                } else {
                    unread(self.parser, content)
                };
                &&& after.tracks(content)
                &&& after.parser == self.parser.seek_move(seek_to)
                &&& bookkeeping.stack_depth <= from.len()
                &&& unread(after.parser, content) == from.take(bookkeeping.stack_depth as int)
                &&& bookkeeping.stack_depth > 0 ==> after.parser.finalization() == if
                    bookkeeping.reset_to_root {
                    Finalization::Root
                } else {
                    self.parser.finalization()
                }
            }),
    {
        let bookkeeping = self.parser.seek_next(seek_to);
        let after = self.after_seek(bookkeeping);
        let depth: int = bookkeeping.stack_depth as int;
        let len: int = content.len() as int;
        let base = if bookkeeping.reset_to_root {
            self.parser.reset()
        } else {
            self.parser
        };
        let from = if bookkeeping.reset_to_root {
            seq![content]
        } else {
            unread(self.parser, content)
        };
        self.parser.lemma_seek_move(seek_to);
        self.parser.lemma_seek_next(seek_to);
        self.lemma_after_seek(seek_to);
        self.lemma_tracks_segments(content);
        self.parser.lemma_reset();
        lemma_root_segment(content);
        assert(content.skip(0) =~= content);
        assert(from == unread(base, content));
        let tail = content.skip(base.position);
        lemma_skip_segments(tail, base.pending, depth);
        assert(after.parser.pending == base.pending.take(depth));
        let skipped: int = total(base.pending) - total(base.pending.take(depth));
        assert(after.parser.position == base.position + skipped);
        assert(tail.skip(skipped) =~= content.skip(after.parser.position));
        if depth > 0 && after.parser.at_root() && !bookkeeping.reset_to_root {
            self.lemma_at_root(content, depth);
        }
        assert forall|i: int| 0 <= i < after.stack.len() implies subtree_hash(
            #[trigger] unread(after.parser, content)[i],
            after.parser.finalization(),
        ) == after.stack[i] by {
            assert(unread(after.parser, content)[i] == from[i]);
            if after.parser.at_root() {
                assert(from =~= seq![content]) by {
                    if !bookkeeping.reset_to_root {
                        self.lemma_at_root(content, depth);
                    }
                }
            }
        }
    }

    /// The root is the next node only before anything else was read.
    proof fn lemma_at_root(self, content: Seq<u8>, depth: int)
        requires
            self.tracks(content),
            0 < depth <= self.parser.pending.len(),
            depth == 1 && self.parser.pending[0] == content.len(),
        ensures
            self.parser.pending.len() == 1,
            unread(self.parser, content) == seq![content],
    {
        let pending = self.parser.pending;
        self.lemma_tracks_segments(content);
        lemma_total_first(pending);
        assert(content.skip(0) =~= content);
        if content.len() > 0 && pending.len() > 1 {
            assert(pending[pending.len() - 1] > 0);
        }
        assert(pending =~= seq![content.len() as int]);
        lemma_root_segment(content);
    }
}

/// The first length is one of those that are added up, and the last another.
pub proof fn lemma_total_first(lens: Seq<int>)
    requires
        lens.len() > 0,
        forall|i: int| 0 <= i < lens.len() ==> 0 <= #[trigger] lens[i],
    ensures
        total(lens) >= lens[0],
        lens.len() > 1 ==> total(lens) >= lens[0] + lens.last(),
    decreases lens.len(),
{
    if lens.len() > 1 {
        assert forall|i: int| 0 <= i < lens.drop_last().len() implies 0
            <= #[trigger] lens.drop_last()[i] by {
            assert(lens[i] >= 0);
        }
        lemma_total_first(lens.drop_last());
    } else {
        assert(total(lens.drop_last()) == 0);
    }
}

proof fn lemma_root_segment(content: Seq<u8>)
    ensures
        segments(content, seq![content.len() as int]) == seq![content],
{
    let lens = seq![content.len() as int];
    assert(lens.drop_last() =~= Seq::<int>::empty());
    assert(content.take(content.len() as int) =~= content);
    assert(segments(content.skip(content.len() as int), lens.drop_last()) =~= Seq::<
        Seq<u8>,
    >::empty());
    assert(segments(content, lens) =~= seq![content]);
}

} // verus!
