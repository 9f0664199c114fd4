//! The hashes of single tree nodes, and the length header.
//!
//! Every node is hashed with BLAKE2s in its tree mode. The parameters tell chunks, parents and the
//! root apart, so that a node of one kind never stands in for a node of another.

use vstd::prelude::*;

use crate::tree::{left, left_len, lemma_left_part, right, root_hash, subtree_hash};

verus! {

/// The length of a [`Hash`] in bytes.
pub const HASH_SIZE: usize = 32;

/// The length of a parent node: the hashes of its two children.
pub const PARENT_SIZE: usize = 64;

/// The length of the header, which holds the content length.
pub const HEADER_SIZE: usize = 8;

/// The length of every chunk but the last, which may be shorter.
pub const CHUNK_SIZE: usize = 4096;

/// The room for the hashes of subtrees that are still to be read.
pub const MAX_DEPTH: usize = 64;

/// Whether a node is the root of its tree. The root is hashed with a flag of its own.
#[derive(Clone, Copy, Debug, PartialEq, Eq, Structural)]
pub enum Finalization {
    NotRoot,
    Root,
}

/// The hash of a node. Equality takes the same time wherever two hashes differ.
#[derive(Clone, Copy, Debug)]
pub struct Hash {
    bytes: [u8; HASH_SIZE],
}

impl View for Hash {
    type V = Seq<u8>;

    closed spec fn view(&self) -> Seq<u8> {
        self.bytes@
    }
}

impl Hash {
    pub fn new(bytes: &[u8; HASH_SIZE]) -> (hash: Self)
        ensures
            hash@ == bytes@,
    {
        Hash { bytes: *bytes }
    }

    pub fn as_bytes(&self) -> (bytes: &[u8; HASH_SIZE])
        ensures
            bytes@ == self@,
    {
        &self.bytes
    }
}

impl PartialEq for Hash {
    fn eq(&self, other: &Self) -> (equal: bool) {
        bytes_equal(&self.bytes, &other.bytes)
    }
}

impl Eq for Hash {

}

impl vstd::std_specs::cmp::PartialEqSpecImpl for Hash {
    open spec fn obeys_eq_spec() -> bool {
        true
    }

    open spec fn eq_spec(&self, other: &Self) -> bool {
        self@ == other@
    }
}

/// Calls `constant_time_eq::constant_time_eq_32`, which looks at every byte of both arrays and
/// returns whether they hold the same bytes.
#[verifier::external_body]
fn bytes_equal(a: &[u8; 32], b: &[u8; 32]) -> (equal: bool)
    ensures
        equal == (a@ == b@),
{
    constant_time_eq::constant_time_eq_32(a, b)
}

/// What BLAKE2s returns for `input` under the given tree parameters, with a 32 byte hash length,
/// a node offset of zero, and neither key, salt nor personalization.
pub uninterp spec fn blake2s_tree(
    fanout: u8,
    max_depth: u8,
    max_leaf_length: u32,
    node_depth: u8,
    inner_hash_length: usize,
    last_node: bool,
    input: Seq<u8>,
) -> [u8; 32];

/// Calls `blake2s_simd::Params::hash` on a `blake2s_simd::Params` that differs from the default in
/// the given parameters only. The 32 bytes that come back depend on these and the input alone.
/// `Params::inner_hash_length` panics above 32.
#[verifier::external_body]
fn blake2s(
    fanout: u8,
    max_depth: u8,
    max_leaf_length: u32,
    node_depth: u8,
    inner_hash_length: usize,
    last_node: bool,
    input: &[u8],
) -> (hash: [u8; 32])
    requires
        inner_hash_length <= 32,
    ensures
        hash == blake2s_tree(
            fanout,
            max_depth,
            max_leaf_length,
            node_depth,
            inner_hash_length,
            last_node,
            input@,
        ),
{
    *blake2s_simd::Params::new()
        .fanout(fanout)
        .max_depth(max_depth)
        .max_leaf_length(max_leaf_length)
        .node_depth(node_depth)
        .inner_hash_length(inner_hash_length)
        .last_node(last_node)
        .hash(input)
        .as_array()
}

/// A tree node as it is hashed: depth zero for a chunk and one for a parent.
#[verifier::ext_equal]
pub struct Node {
    pub depth: u8,
    pub finalization: Finalization,
    pub bytes: Seq<u8>,
}

impl Node {
    pub open spec fn chunk(bytes: Seq<u8>, finalization: Finalization) -> Node {
        Node { depth: 0, finalization, bytes }
    }

    pub open spec fn parent(bytes: Seq<u8>, finalization: Finalization) -> Node {
        Node { depth: 1, finalization, bytes }
    }

    /// The hash of the node: fanout two, unlimited depth, leaves of [`CHUNK_SIZE`] bytes, inner
    /// hashes of [`HASH_SIZE`] bytes, and the last-node flag on the root.
    pub open spec fn hash(self) -> Seq<u8> {
        blake2s_tree(
            2,
            255,
            4096,
            self.depth,
            32,
            self.finalization == Finalization::Root,
            self.bytes,
        )@
    }
}

/// The hash of a chunk.
pub fn hash_chunk(chunk: &[u8], finalization: Finalization) -> (hash: Hash)
    ensures
        hash@ == Node::chunk(chunk@, finalization).hash(),
{
    Hash { bytes: blake2s(2, 255, 4096, 0, 32, finalization == Finalization::Root, chunk) }
}

/// The hash of a parent node.
pub fn hash_parent(parent: &[u8; PARENT_SIZE], finalization: Finalization) -> (hash: Hash)
    ensures
        hash@ == Node::parent(parent@, finalization).hash(),
{
    let bytes: &[u8] = parent.as_slice();
    Hash { bytes: blake2s(2, 255, 4096, 1, 32, finalization == Finalization::Root, bytes) }
}

/// The two hashes of a parent, one after the other.
pub fn join_hashes(left: &Hash, right: &Hash) -> (parent: [u8; PARENT_SIZE])
    ensures
        parent@ == left@ + right@,
{
    let mut parent: [u8; PARENT_SIZE] = [0u8; 64];
    let left_bytes: &[u8; HASH_SIZE] = left.as_bytes();
    let right_bytes: &[u8; HASH_SIZE] = right.as_bytes();
    let mut i: usize = 0;
    while i < HASH_SIZE
        invariant
            i <= HASH_SIZE,
            left_bytes@ == left@,
            right_bytes@ == right@,
            forall|j: int| 0 <= j < i ==> #[trigger] parent@[j] == left@[j],
            forall|j: int| 0 <= j < i ==> #[trigger] parent@[HASH_SIZE + j] == right@[j],
        decreases HASH_SIZE - i,
    {
        parent[i] = left_bytes[i];
        parent[HASH_SIZE + i] = right_bytes[i];
        i = i + 1;
    }
    assert(parent@ =~= left@ + right@) by {
        assert forall|j: int| HASH_SIZE <= j < PARENT_SIZE implies #[trigger] parent@[j] == right@[j
            - HASH_SIZE] by {
            assert(parent@[HASH_SIZE + (j - HASH_SIZE)] == right@[j - HASH_SIZE]);
        }
    }
    parent
}

/// The number that `bytes` holds, least significant byte first.
pub open spec fn le_value(bytes: Seq<u8>) -> int
    decreases bytes.len(),
{
    if bytes.len() == 0 {
        0
    } else {
        bytes[0] + 256 * le_value(bytes.drop_first())
    }
}

/// The lowest `count` bytes of `value`, least significant byte first.
pub open spec fn le_bytes(value: int, count: nat) -> Seq<u8>
    decreases count,
{
    if count == 0 {
        Seq::empty()
    } else {
        seq![(value % 256) as u8] + le_bytes(value / 256, (count - 1) as nat)
    }
}

pub proof fn lemma_le_bytes_len(value: int, count: nat)
    ensures
        le_bytes(value, count).len() == count,
    decreases count,
{
    if count > 0 {
        lemma_le_bytes_len(value / 256, (count - 1) as nat);
    }
}

/// Writing out what bytes hold gives the bytes back.
pub proof fn lemma_le_value_bytes(bytes: Seq<u8>)
    ensures
        le_bytes(le_value(bytes), bytes.len()) == bytes,
        0 <= le_value(bytes),
    decreases bytes.len(),
{
    if bytes.len() > 0 {
        let rest: int = le_value(bytes.drop_first());
        lemma_le_value_bytes(bytes.drop_first());
        assert((bytes[0] + 256 * rest) % 256 == bytes[0]);
        assert((bytes[0] + 256 * rest) / 256 == rest);
        assert(bytes =~= seq![bytes[0]] + bytes.drop_first());
    } else {
        assert(bytes =~= Seq::<u8>::empty());
    }
}

/// Reading back a written number gives the number, as far as it fits.
pub proof fn lemma_le_bytes_value(value: int, count: nat)
    requires
        0 <= value < vstd::arithmetic::power::pow(256, count),
    ensures
        le_value(le_bytes(value, count)) == value,
    decreases count,
{
    reveal(vstd::arithmetic::power::pow);
    if count > 0 {
        let rest: nat = (count - 1) as nat;
        let bound: int = vstd::arithmetic::power::pow(256, rest);
        assert(vstd::arithmetic::power::pow(256, count) == 256 * bound);
        lemma_le_bytes_value(value / 256, rest);
        assert(le_bytes(value, count).drop_first() =~= le_bytes(value / 256, rest));
    }
}

/// The header of an encoding: the content length.
pub open spec fn header(content_len: int) -> Seq<u8> {
    le_bytes(content_len, HEADER_SIZE as nat)
}

/// Reading back a header gives the length it was written for.
pub proof fn lemma_header_value(content_len: u64)
    ensures
        header(content_len as int).len() == HEADER_SIZE,
        le_value(header(content_len as int)) == content_len,
{
    lemma_le_bytes_len(content_len as int, HEADER_SIZE as nat);
    reveal_with_fuel(vstd::arithmetic::power::pow, 9);
    assert(vstd::arithmetic::power::pow(256, 8) == 0x1_0000_0000_0000_0000);
    lemma_le_bytes_value(content_len as int, HEADER_SIZE as nat);
}

proof fn lemma_le_value_bound(bytes: Seq<u8>)
    ensures
        0 <= le_value(bytes) < vstd::arithmetic::power::pow(256, bytes.len()),
    decreases bytes.len(),
{
    reveal(vstd::arithmetic::power::pow);
    if bytes.len() > 0 {
        lemma_le_value_bound(bytes.drop_first());
    }
}

/// A header holds a 64 bit length, and is the header for that length.
pub proof fn lemma_header_len(bytes: Seq<u8>)
    requires
        bytes.len() == HEADER_SIZE,
    ensures
        0 <= le_value(bytes) <= u64::MAX,
        header(le_value(bytes)) == bytes,
{
    lemma_le_value_bound(bytes);
    lemma_le_value_bytes(bytes);
    reveal_with_fuel(vstd::arithmetic::power::pow, 9);
    assert(vstd::arithmetic::power::pow(256, 8) == 0x1_0000_0000_0000_0000);
}

/// The header for a content length.
pub fn encode_len(len: u64) -> (bytes: [u8; HEADER_SIZE])
    ensures
        bytes@ == header(len as int),
{
    let mut bytes: [u8; HEADER_SIZE] = [0u8; 8];
    let mut rest: u64 = len;
    let mut i: usize = 0;
    while i < HEADER_SIZE
        invariant
            i <= HEADER_SIZE,
            header(len as int) == bytes@.take(i as int) + le_bytes(
                rest as int,
                (HEADER_SIZE - i) as nat,
            ),
        decreases HEADER_SIZE - i,
    {
        let ghost before = bytes@;
        bytes[i] = (rest % 256) as u8;
        assert(bytes@.take(i + 1) =~= before.take(i as int).push((rest % 256) as u8));
        rest = rest / 256;
        i += 1;
    }
    assert(bytes@.take(i as int) + le_bytes(rest as int, 0) =~= bytes@);
    bytes
}

/// The content length that a header holds.
pub fn decode_len(bytes: &[u8; HEADER_SIZE]) -> (len: u64)
    ensures
        len == le_value(bytes@),
{
    let mut len: u64 = 0;
    let mut i: usize = HEADER_SIZE;
    proof {
        reveal_with_fuel(vstd::arithmetic::power::pow, 9);
    }
    while i > 0
        invariant
            i <= HEADER_SIZE,
            bytes@.len() == HEADER_SIZE,
            len == le_value(bytes@.skip(i as int)),
            len < vstd::arithmetic::power::pow(256, (HEADER_SIZE - i) as nat),
            vstd::arithmetic::power::pow(256, 8) == 0x1_0000_0000_0000_0000,
        decreases i,
    {
        i -= 1;
        proof {
            let bound: int = vstd::arithmetic::power::pow(256, (HEADER_SIZE - i - 1) as nat);
            reveal(vstd::arithmetic::power::pow);
            assert(vstd::arithmetic::power::pow(256, (HEADER_SIZE - i) as nat) == 256 * bound);
            vstd::arithmetic::power::lemma_pow_increases(
                256,
                (HEADER_SIZE - i) as nat,
                HEADER_SIZE as nat,
            );
            assert(bytes@.skip(i as int).drop_first() =~= bytes@.skip(i + 1));
            assert(bytes[i as int] + 256 * len < 256 * bound) by {
                assert(len <= bound - 1);
            }
        }
        len = bytes[i] as u64 + 256 * len;
    }
    assert(bytes@.skip(0) =~= bytes@);
    len
}

fn hash_part(content: &[u8], finalization: Finalization) -> (hash: Hash)
    ensures
        hash@ == subtree_hash(content@, finalization),
    decreases content@.len(),
{
    let len: usize = content.len();
    if len <= CHUNK_SIZE {
        return hash_chunk(content, finalization);
    }
    proof {
        lemma_left_part(len as int);
    }
    let middle: usize = left_len(len as u64) as usize;
    let left_content: &[u8] = &content[0..middle];
    let right_content: &[u8] = &content[middle..len];
    assert(left_content@ =~= left(content@));
    assert(right_content@ =~= right(content@));
    let left_hash = hash_part(left_content, Finalization::NotRoot);
    let right_hash = hash_part(right_content, Finalization::NotRoot);
    hash_parent(&join_hashes(&left_hash, &right_hash), finalization)
}

/// The root hash of some content.
pub fn hash(input: &[u8]) -> (hash: Hash)
    ensures
        hash@ == root_hash(input@),
{
    hash_part(input, Finalization::Root)
}

} // verus!
