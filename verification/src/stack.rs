//! A bounded stack of hashes.

use arrayvec::ArrayVec;
use vstd::prelude::*;

use crate::hash::{HASH_SIZE, MAX_DEPTH};

verus! {

/// An `arrayvec::ArrayVec`, a vector that holds its elements in place, up to a fixed number.
#[verifier::external_body]
pub struct HashStack {
    hashes: ArrayVec<[[u8; HASH_SIZE]; MAX_DEPTH]>,
}

/// What a stack holds, the top last.
pub uninterp spec fn stack_hashes(stack: HashStack) -> Seq<Seq<u8>>;

/// Calls `ArrayVec::new`, which holds nothing.
#[verifier::external_body]
pub(crate) fn stack_new() -> (stack: HashStack)
    ensures
        stack_hashes(stack) == Seq::<Seq<u8>>::empty(),
{
    HashStack { hashes: ArrayVec::new() }
}

/// Calls `ArrayVec::push`, which adds an element at the end. It panics if the vector is full.
#[verifier::external_body]
pub(crate) fn stack_push(stack: &mut HashStack, hash: [u8; HASH_SIZE])
    requires
        stack_hashes(*old(stack)).len() < MAX_DEPTH,
    ensures
        stack_hashes(*final(stack)) == stack_hashes(*old(stack)).push(hash@),
{
    stack.hashes.push(hash)
}

/// Calls `ArrayVec::pop`, which removes the last element and returns it, if there is one.
#[verifier::external_body]
pub(crate) fn stack_pop(stack: &mut HashStack) -> (hash: Option<[u8; HASH_SIZE]>)
    ensures
        stack_hashes(*old(stack)).len() == 0 ==> {
            &&& hash is None
            &&& stack_hashes(*final(stack)) == stack_hashes(*old(stack))
        },
        stack_hashes(*old(stack)).len() > 0 ==> {
            &&& hash is Some
            &&& hash->0@ == stack_hashes(*old(stack)).last()
            &&& stack_hashes(*final(stack)) == stack_hashes(*old(stack)).drop_last()
        },
{
    stack.hashes.pop()
}

/// Calls `last` on the slice of elements that an `ArrayVec` dereferences to: the last element, if
/// there is one.
#[verifier::external_body]
pub(crate) fn stack_last(stack: &HashStack) -> (hash: Option<[u8; HASH_SIZE]>)
    ensures
        stack_hashes(*stack).len() == 0 ==> hash is None,
        stack_hashes(*stack).len() > 0 ==> hash is Some && hash->0@ == stack_hashes(*stack).last(),
{
    stack.hashes.last().copied()
}

/// Calls `ArrayVec::clear`, which removes all elements.
#[verifier::external_body]
pub(crate) fn stack_clear(stack: &mut HashStack)
    ensures
        stack_hashes(*final(stack)) == Seq::<Seq<u8>>::empty(),
{
    stack.hashes.clear()
}

/// Calls `ArrayVec::len`, which counts the elements.
#[verifier::external_body]
pub(crate) fn stack_len(stack: &HashStack) -> (len: usize)
    ensures
        len == stack_hashes(*stack).len(),
{
    stack.hashes.len()
}

/// Calls `ArrayVec::clone`, which copies the elements in order.
#[verifier::external_body]
pub(crate) fn stack_clone(stack: &HashStack) -> (copy: HashStack)
    ensures
        stack_hashes(copy) == stack_hashes(*stack),
{
    HashStack { hashes: stack.hashes.clone() }
}

} // verus!
