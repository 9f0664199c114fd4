//! The shape of the tree over some content, its hash and its encodings.
//!
//! Content of at most one chunk is a leaf. Longer content is a parent whose left subtree is as
//! large as a full tree can be while leaving at least one byte for the right subtree.

use vstd::arithmetic::power2::{lemma2_to64, lemma2_to64_rest, lemma_pow2_unfold, pow2};
use vstd::prelude::*;

use crate::hash::{Finalization, Node, CHUNK_SIZE, HASH_SIZE, HEADER_SIZE, PARENT_SIZE};

verus! {

/// The length of the left subtree over `len` bytes: the largest power of two number of chunks that
/// is less than `len` bytes.
pub open spec fn left_part(len: int) -> int
    decreases len,
{
    if len <= 2 * CHUNK_SIZE {
        CHUNK_SIZE as int
    } else {
        2 * left_part((len + 1) / 2)
    }
}

/// How many parents lie above the deepest chunk of a tree over `len` bytes.
pub open spec fn height(len: int) -> int
    decreases len,
{
    if len <= CHUNK_SIZE {
        0
    } else {
        1 + height((len + 1) / 2)
    }
}

/// The number of chunks in `len` bytes. Empty content counts as one chunk.
pub open spec fn chunk_count(len: int) -> int {
    if len == 0 {
        1
    } else {
        (len + CHUNK_SIZE - 1) / (CHUNK_SIZE as int)
    }
}

/// The length of the parents of a subtree over `len` bytes.
pub open spec fn parents_size(len: int) -> int {
    PARENT_SIZE * (chunk_count(len) - 1)
}

/// The length of the parents and the chunks of a subtree over `len` bytes.
pub open spec fn subtree_size(len: int) -> int {
    len + parents_size(len)
}

/// The content of the left subtree.
pub open spec fn left(content: Seq<u8>) -> Seq<u8> {
    content.take(left_part(content.len() as int))
}

/// The content of the right subtree.
pub open spec fn right(content: Seq<u8>) -> Seq<u8> {
    content.skip(left_part(content.len() as int))
}

/// The hash of the subtree over some content.
pub open spec fn subtree_hash(content: Seq<u8>, finalization: Finalization) -> Seq<u8>
    decreases content.len(),
{
    if content.len() <= CHUNK_SIZE {
        Node::chunk(content, finalization).hash()
    } else {
        proof {
            lemma_left_part(content.len() as int);
        }
        Node::parent(
            subtree_hash(left(content), Finalization::NotRoot) + subtree_hash(
                right(content),
                Finalization::NotRoot,
            ),
            finalization,
        ).hash()
    }
}

/// The parent node over some content: the hashes of both subtrees.
pub open spec fn parent_node(content: Seq<u8>) -> Seq<u8> {
    subtree_hash(left(content), Finalization::NotRoot) + subtree_hash(
        right(content),
        Finalization::NotRoot,
    )
}

/// The topmost node of the subtree over some content.
pub open spec fn top_node(content: Seq<u8>, finalization: Finalization) -> Node {
    if content.len() <= CHUNK_SIZE {
        Node::chunk(content, finalization)
    } else {
        Node::parent(parent_node(content), finalization)
    }
}

/// Whether `node` occurs in the subtree over some content.
pub open spec fn has_node(content: Seq<u8>, finalization: Finalization, node: Node) -> bool
    decreases content.len(),
{
    ||| node == top_node(content, finalization)
    ||| content.len() > CHUNK_SIZE && {
        proof {
            lemma_left_part(content.len() as int);
        }
        ||| has_node(left(content), Finalization::NotRoot, node)
        ||| has_node(right(content), Finalization::NotRoot, node)
    }
}

/// The hash that stands for some content as a whole.
pub open spec fn root_hash(content: Seq<u8>) -> Seq<u8> {
    subtree_hash(content, Finalization::Root)
}

/// A subtree written in pre-order, each parent before its children.
pub open spec fn encode_subtree(content: Seq<u8>) -> Seq<u8>
    decreases content.len(),
{
    if content.len() <= CHUNK_SIZE {
        content
    } else {
        proof {
            lemma_left_part(content.len() as int);
        }
        parent_node(content) + encode_subtree(left(content)) + encode_subtree(right(content))
    }
}

/// The parents of a subtree written in pre-order, without the chunks.
pub open spec fn outboard_subtree(content: Seq<u8>) -> Seq<u8>
    decreases content.len(),
{
    if content.len() <= CHUNK_SIZE {
        Seq::empty()
    } else {
        proof {
            lemma_left_part(content.len() as int);
        }
        parent_node(content) + outboard_subtree(left(content)) + outboard_subtree(right(content))
    }
}

/// The combined encoding: the header, then parents and chunks in pre-order.
pub open spec fn combined_encoding(content: Seq<u8>) -> Seq<u8> {
    crate::hash::header(content.len() as int) + encode_subtree(content)
}

/// The outboard encoding: the header, then the parents in pre-order. The content stands elsewhere.
pub open spec fn outboard_encoding(content: Seq<u8>) -> Seq<u8> {
    crate::hash::header(content.len() as int) + outboard_subtree(content)
}

pub proof fn lemma_left_part(len: int)
    requires
        len > CHUNK_SIZE,
    ensures
        0 < left_part(len) < len <= 2 * left_part(len),
        left_part(len) % (CHUNK_SIZE as int) == 0,
        left_part(len) >= CHUNK_SIZE,
    decreases len,
{
    if len > 2 * CHUNK_SIZE {
        lemma_left_part((len + 1) / 2);
    }
}

/// A left subtree is full: its chunks are a power of two.
pub proof fn law_left_full(len: int) -> (levels: nat)
    requires
        len > CHUNK_SIZE,
    ensures
        left_part(len) == CHUNK_SIZE * pow2(levels),
        left_part(len) < len <= 2 * left_part(len),
    decreases len,
{
    lemma_left_part(len);
    if len <= 2 * CHUNK_SIZE {
        lemma2_to64();
        0
    } else {
        let lower: nat = law_left_full((len + 1) / 2);
        lemma_pow2_unfold(lower + 1);
        lower + 1
    }
}

/// A subtree's chunks are those of its two parts.
pub proof fn lemma_split_count(len: int)
    requires
        len > CHUNK_SIZE,
    ensures
        chunk_count(len) == chunk_count(left_part(len)) + chunk_count(len - left_part(len)),
        subtree_size(len) == PARENT_SIZE + subtree_size(left_part(len)) + subtree_size(
            len - left_part(len),
        ),
        parents_size(len) == PARENT_SIZE + parents_size(left_part(len)) + parents_size(
            len - left_part(len),
        ),
{
    lemma_left_part(len);
}

pub proof fn lemma_height_monotone(short: int, long: int)
    requires
        short <= long,
    ensures
        0 <= height(short) <= height(long),
    decreases long,
{
    if long > CHUNK_SIZE {
        lemma_height_monotone((short + 1) / 2, (long + 1) / 2);
    }
}

/// Both parts of a subtree are less high than the whole.
pub proof fn lemma_split_height(len: int)
    requires
        len > CHUNK_SIZE,
    ensures
        height(left_part(len)) == height(len) - 1,
        0 <= height(len - left_part(len)) <= height(len) - 1,
    decreases len,
{
    lemma_left_part(len);
    if len > 2 * CHUNK_SIZE {
        let half: int = (len + 1) / 2;
        lemma_left_part(half);
        lemma_split_height(half);
        assert((left_part(len) + 1) / 2 == left_part(half));
    } else {
        assert(height((len + 1) / 2) == 0);
    }
    lemma_height_monotone(len - left_part(len), left_part(len));
}

proof fn lemma_height_pow2(len: int, levels: nat)
    requires
        len <= CHUNK_SIZE * pow2(levels),
    ensures
        height(len) <= levels,
    decreases levels,
{
    if len > CHUNK_SIZE {
        if levels == 0 {
            lemma2_to64();
        } else {
            lemma_pow2_unfold(levels);
            lemma_height_pow2((len + 1) / 2, (levels - 1) as nat);
        }
    }
}

/// No tree over a 64 bit length is higher than 52 levels.
pub proof fn lemma_height_bound(len: u64)
    ensures
        height(len as int) <= 52,
{
    lemma2_to64_rest();
    lemma_height_pow2(len as int, 52);
}

pub proof fn lemma_subtree_hash_len(content: Seq<u8>, finalization: Finalization)
    ensures
        subtree_hash(content, finalization).len() == HASH_SIZE,
        subtree_hash(content, finalization) == top_node(content, finalization).hash(),
{
}

pub proof fn lemma_encode_subtree_len(content: Seq<u8>)
    ensures
        encode_subtree(content).len() == subtree_size(content.len() as int),
        outboard_subtree(content).len() == parents_size(content.len() as int),
    decreases content.len(),
{
    if content.len() > CHUNK_SIZE {
        let len: int = content.len() as int;
        lemma_left_part(len);
        lemma_split_count(len);
        lemma_encode_subtree_len(left(content));
        lemma_encode_subtree_len(right(content));
        lemma_subtree_hash_len(left(content), Finalization::NotRoot);
        lemma_subtree_hash_len(right(content), Finalization::NotRoot);
    } else {
        assert(chunk_count(content.len() as int) == 1);
    }
}

/// The length of the left subtree over `len` bytes.
pub fn left_len(len: u64) -> (part: u64)
    requires
        len > CHUNK_SIZE,
    ensures
        part == left_part(len as int),
{
    let mut part: u64 = CHUNK_SIZE as u64;
    // `rest` is `len` halved, rounding up, as often as `part` was doubled.
    let mut rest: u64 = len;
    let ghost mut scale: int = 1;
    proof {
        lemma_left_part(len as int);
    }
    while rest > 2 * CHUNK_SIZE as u64
        invariant
            rest > CHUNK_SIZE,
            scale >= 1,
            part == scale * CHUNK_SIZE,
            left_part(len as int) == scale * left_part(rest as int),
            left_part(len as int) < len,
        decreases rest,
    {
        proof {
            let half: int = (rest as int + 1) / 2;
            lemma_left_part(half);
            assert(scale * (2 * left_part(half)) == (2 * scale) * left_part(half))
                by (nonlinear_arith);
            assert((2 * scale) * left_part(half) >= (2 * scale) * (CHUNK_SIZE as int))
                by (nonlinear_arith)
                requires
                    left_part(half) >= CHUNK_SIZE,
                    scale >= 1,
            ;
            assert(left_part(rest as int) == 2 * left_part(half));
            assert(2 * (scale * CHUNK_SIZE) == (2 * scale) * (CHUNK_SIZE as int))
                by (nonlinear_arith);
            scale = 2 * scale;
        }
        part = 2 * part;
        rest = rest / 2 + rest % 2;
    }
    part
}

/// The number of chunks in `content_len` bytes.
pub fn count_chunks(content_len: u64) -> (count: u64)
    ensures
        count == chunk_count(content_len as int),
{
    if content_len == 0 {
        1
    } else {
        assert((content_len as int + 4095) / 4096 == (content_len as int - 1) / 4096 + 1);
        (content_len - 1) / (CHUNK_SIZE as u64) + 1
    }
}

/// The length of the parents and the chunks of a subtree over `len` bytes.
pub fn encoded_subtree_size(len: u64) -> (size: u128)
    ensures
        size == subtree_size(len as int),
{
    len as u128 + PARENT_SIZE as u128 * (count_chunks(len) - 1) as u128
}

/// The length of a combined encoding of `content_len` bytes.
pub fn encoded_size(content_len: u64) -> (size: u128)
    ensures
        size == HEADER_SIZE + subtree_size(content_len as int),
{
    HEADER_SIZE as u128 + encoded_subtree_size(content_len)
}

} // verus!
