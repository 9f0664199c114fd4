//! The verifier: a position in a tree, and the hashes that the unread subtrees must have.

use vstd::prelude::*;

use crate::error::Error;
use crate::hash::{hash_parent, le_value, Finalization, Node, HASH_SIZE, HEADER_SIZE, PARENT_SIZE};
use crate::parse::{LenNext, NextRead, ParseState, ParseView, SeekBookkeeping};
use crate::source::split_parent;
use crate::stack::{
    stack_clear, stack_clone, stack_hashes, stack_last, stack_len, stack_new, stack_pop, stack_push,
    HashStack,
};

verus! {

/// A position in a tree with the hash of each unread subtree.
#[verifier::ext_equal]
pub struct VerifyView {
    /// The hashes of the unread subtrees, the next one last.
    pub stack: Seq<Seq<u8>>,
    pub parser: ParseView,
    pub root_hash: Seq<u8>,
}

impl VerifyView {
    pub open spec fn start(root_hash: Seq<u8>) -> VerifyView {
        VerifyView { stack: seq![root_hash], parser: ParseView::start(), root_hash }
    }

    /// Whether there is one hash for each unread subtree, the root's before the header.
    pub open spec fn wf(self) -> bool {
        &&& self.parser.wf()
        &&& self.parser.content_len is None ==> self.stack == seq![self.root_hash]
        &&& self.parser.content_len is Some ==> self.stack.len() == self.parser.pending.len()
    }

    pub open spec fn feed_header(self, content_len: u64) -> VerifyView {
        VerifyView { parser: self.parser.feed_header(content_len), ..self }
    }

    /// Whether `parent` has the hash that the next node must have.
    pub open spec fn accepts_parent(self, parent: Seq<u8>) -> bool {
        Node::parent(parent, self.parser.finalization()).hash() == self.stack.last()
    }

    /// The position behind the parent node `parent`, whose two hashes are those of its subtrees.
    pub open spec fn advance_parent(self, parent: Seq<u8>) -> VerifyView {
        VerifyView {
            stack: self.stack.drop_last().push(parent.skip(HASH_SIZE as int)).push(
                parent.take(HASH_SIZE as int),
            ),
            parser: self.parser.advance_parent(),
            ..self
        }
    }

    /// The position behind the next chunk.
    pub open spec fn advance_chunk(self) -> VerifyView {
        VerifyView {
            stack: self.stack.drop_last(),
            parser: self.parser.advance_chunk(),
            ..self
        }
    }

    /// The hashes of the subtrees that a move to `parser` leaves, back at the root or not.
    pub open spec fn stack_after(self, reset_to_root: bool, depth: int) -> Seq<Seq<u8>> {
        let from = if reset_to_root {
            seq![self.root_hash]
        } else {
            self.stack
        };
        from.take(depth)
    }

    /// Where a recorded step of a seek moves to.
    pub open spec fn after_seek(self, bookkeeping: SeekBookkeeping) -> VerifyView {
        VerifyView {
            stack: self.stack_after(bookkeeping.reset_to_root, bookkeeping.stack_depth as int),
            parser: self.parser.after_seek(bookkeeping),
            ..self
        }
    }

    pub proof fn lemma_after_seek(self, seek_to: int)
        requires
            self.wf(),
            0 <= seek_to,
        ensures
            self.after_seek(self.parser.seek_next(seek_to)).wf(),
            ({
                let bookkeeping = self.parser.seek_next(seek_to);
                let from_len = if bookkeeping.reset_to_root {
                    1
                } else {
                    self.stack.len()
                };
                bookkeeping.stack_depth <= from_len
            }),
    {
        self.parser.lemma_seek_move(seek_to);
        self.parser.lemma_seek_next(seek_to);
        let after = self.after_seek(self.parser.seek_next(seek_to));
        if self.parser.content_len is None {
            assert(after.stack =~= self.stack);
        }
    }
}

/// An incremental verifier of headers, parents and chunks, in the order in which a reader meets
/// them.
pub struct VerifyState {
    stack: HashStack,
    parser: ParseState,
    root_hash: crate::hash::Hash,
}

impl View for VerifyState {
    type V = VerifyView;

    closed spec fn view(&self) -> VerifyView {
        VerifyView {
            stack: stack_hashes(self.stack),
            parser: self.parser@,
            root_hash: self.root_hash@,
        }
    }
}

impl Clone for VerifyState {
    fn clone(&self) -> (copy: Self)
        ensures
            copy@ == self@,
    {
        VerifyState {
            stack: stack_clone(&self.stack),
            parser: self.parser.clone(),
            root_hash: self.root_hash,
        }
    }
}

impl VerifyState {
    /// A verifier for the tree with the root hash `hash`, before the header.
    pub fn new(hash: &crate::hash::Hash) -> (state: Self)
        ensures
            state@ == VerifyView::start(hash@),
            state@.wf(),
    {
        let mut stack = stack_new();
        stack_push(&mut stack, *hash.as_bytes());
        let state = VerifyState { stack, parser: ParseState::new(), root_hash: *hash };
        assert(state@.stack =~= seq![hash@]);
        state
    }

    /// The content length that the header claims, once it was read.
    pub fn content_len(&self) -> (len: Option<u64>)
        ensures
            len == self@.parser.content_len,
    {
        self.parser.content_len()
    }

    /// How many hashes of unread subtrees are held. The hashes themselves may be secret.
    pub fn stack_size(&self) -> (size: usize)
        ensures
            size == self@.stack.len(),
    {
        stack_len(&self.stack)
    }

    /// The position in the tree, which reveals no more than the content length.
    pub fn parser(&self) -> (parser: &ParseState)
        ensures
            parser@ == self@.parser,
    {
        &self.parser
    }

    /// Where in the content the next byte comes from.
    pub fn content_position(&self) -> (position: u64)
        requires
            self@.wf(),
        ensures
            position == self@.parser.content_position(),
    {
        self.parser.content_position()
    }

    /// What has to be read next.
    pub fn read_next(&self) -> (next: NextRead)
        requires
            self@.wf(),
        ensures
            next == self@.parser.read_next(),
    {
        self.parser.read_next()
    }

    /// The next step of a seek to `seek_to`.
    pub fn seek_next(&self, seek_to: u64) -> (bookkeeping: SeekBookkeeping)
        requires
            self@.wf(),
        ensures
            bookkeeping == self@.parser.seek_next(seek_to as int),
    {
        self.parser.seek_next(seek_to)
    }

    /// Moves to where a step of a seek leads, and returns what to read there.
    pub fn seek_bookkeeping_done(&mut self, bookkeeping: SeekBookkeeping) -> (next: NextRead)
        requires
            old(self)@.wf(),
            old(self)@.parser.is_step(bookkeeping),
        ensures
            final(self)@ == old(self)@.after_seek(bookkeeping),
            final(self)@.wf(),
            next == bookkeeping.next_read,
    {
        let ghost before = self@;
        proof {
            let seek_to = choose|seek_to: int|
                0 <= seek_to && bookkeeping == #[trigger] before.parser.seek_next(seek_to);
            before.lemma_after_seek(seek_to);
        }
        // Leftward seeks require resetting the stack to the beginning.
        if bookkeeping.reset_to_root() {
            stack_clear(&mut self.stack);
            stack_push(&mut self.stack, *self.root_hash.as_bytes());
        }
        let ghost from = if bookkeeping.reset_to_root {
            seq![before.root_hash]
        } else {
            before.stack
        };
        proof {
            assert(stack_hashes(self.stack) =~= from);
            assert(from.take(from.len() as int) =~= from);
        }
        // Rightward seeks require popping subtrees off the stack.
        while stack_len(&self.stack) > bookkeeping.stack_depth()
            invariant
                bookkeeping.stack_depth <= stack_hashes(self.stack).len() <= from.len(),
                stack_hashes(self.stack) == from.take(stack_hashes(self.stack).len() as int),
                self.parser@ == before.parser,
                self.root_hash@ == before.root_hash,
            decreases stack_hashes(self.stack).len(),
        {
            let ghost here = stack_hashes(self.stack);
            stack_pop(&mut self.stack);
            assert(here.drop_last() =~= from.take(here.len() - 1));
        }
        self.parser.seek_bookkeeping_done(bookkeeping)
    }

    /// The next step towards the verified content length.
    pub fn len_next(&self) -> (next: LenNext)
        requires
            self@.wf(),
        ensures
            next == self@.parser.len_next(),
    {
        self.parser.len_next()
    }

    /// Takes the header.
    pub fn feed_header(&mut self, header: &[u8; HEADER_SIZE])
        requires
            old(self)@.wf(),
            old(self)@.parser.content_len is None,
        ensures
            final(self)@ == old(self)@.feed_header(le_value(header@) as u64),
            final(self)@.wf(),
    {
        self.parser.feed_header(header);
    }

    /// Takes a parent node, if it has the hash that the next node must have.
    pub fn feed_parent(&mut self, parent: &[u8; PARENT_SIZE]) -> (result: Result<(), Error>)
        requires
            old(self)@.wf(),
            old(self)@.parser.read_next() is Parent,
        ensures
            final(self)@.wf(),
            old(self)@.accepts_parent(parent@) ==> {
                &&& result == Ok::<(), Error>(())
                &&& final(self)@ == old(self)@.advance_parent(parent@)
            },
            !old(self)@.accepts_parent(parent@) ==> {
                &&& result == Err::<(), Error>(Error::HashMismatch)
                &&& final(self)@ == old(self)@
            },
    {
        let ghost before = self@;
        let finalization: Finalization = self.parser.finalization();
        let expected_hash: [u8; HASH_SIZE] = stack_last(&self.stack).unwrap();
        let computed_hash = hash_parent(parent, finalization);
        if crate::hash::Hash::new(&expected_hash) != computed_hash {
            return Err(Error::HashMismatch);
        }
        proof {
            before.parser.lemma_advance_parent();
            before.parser.advance_parent().lemma_depth();
        }
        let (left_child, right_child) = split_parent(parent);
        stack_pop(&mut self.stack);
        stack_push(&mut self.stack, right_child);
        stack_push(&mut self.stack, left_child);
        self.parser.advance_parent();
        Ok(())
    }

    /// Takes the hash of a chunk, if it is the one that the next node must have.
    pub fn feed_chunk(&mut self, chunk_hash: &crate::hash::Hash) -> (result: Result<(), Error>)
        requires
            old(self)@.wf(),
            old(self)@.parser.read_next() is Chunk,
        ensures
            final(self)@.wf(),
            chunk_hash@ == old(self)@.stack.last() ==> {
                &&& result == Ok::<(), Error>(())
                &&& final(self)@ == old(self)@.advance_chunk()
            },
            chunk_hash@ != old(self)@.stack.last() ==> {
                &&& result == Err::<(), Error>(Error::HashMismatch)
                &&& final(self)@ == old(self)@
            },
    {
        let expected_hash: [u8; HASH_SIZE] = stack_last(&self.stack).unwrap();
        if *chunk_hash != crate::hash::Hash::new(&expected_hash) {
            return Err(Error::HashMismatch);
        }
        stack_pop(&mut self.stack);
        self.parser.advance_chunk();
        Ok(())
    }
}

} // verus!
