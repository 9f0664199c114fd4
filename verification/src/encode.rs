//! Encode content, and extract slices from encodings.

use vstd::prelude::*;

use crate::complete::{found_at, lemma_found_split};
use crate::cut::lemma_before_cut;
use crate::error::ReadError;
use crate::hash::{
    decode_len, encode_len, hash_chunk, hash_parent, header, join_hashes, le_value,
    lemma_header_value, Finalization, CHUNK_SIZE, HEADER_SIZE, PARENT_SIZE,
};
use crate::parse::lemma_parents_size_bound;
use crate::slice::{slice_encoding, slice_end, slice_first, slice_subtree};
use crate::source::Cursor;
use crate::tree::{
    combined_encoding, encode_subtree, encoded_subtree_size, left, left_len, left_part,
    lemma_encode_subtree_len, lemma_left_part, lemma_split_count, lemma_subtree_hash_len,
    outboard_encoding, outboard_subtree, parent_node, parents_size, right, root_hash, subtree_hash,
    subtree_size,
};

verus! {

/// Encodes a subtree in pre-order, with its chunks if `with_chunks`, and returns its hash.
fn encode_part(content: &[u8], finalization: Finalization, with_chunks: bool) -> (encoded: (
    Vec<u8>,
    crate::hash::Hash,
))
    ensures
        encoded.0@ == (if with_chunks {
            encode_subtree(content@)
        } else {
            outboard_subtree(content@)
        }),
        encoded.1@ == subtree_hash(content@, finalization),
    decreases content@.len(),
{
    let len: usize = content.len();
    let mut out: Vec<u8> = Vec::new();
    if len <= CHUNK_SIZE {
        if with_chunks {
            out.extend_from_slice(content);
        }
        assert(out@ =~= if with_chunks {
            encode_subtree(content@)
        } else {
            outboard_subtree(content@)
        });
        return (out, hash_chunk(content, finalization));
    }
    proof {
        lemma_left_part(len as int);
    }
    let middle: usize = left_len(len as u64) as usize;
    let left_content: &[u8] = &content[0..middle];
    let right_content: &[u8] = &content[middle..len];
    assert(left_content@ =~= left(content@));
    assert(right_content@ =~= right(content@));
    let (left_out, left_hash) = encode_part(left_content, Finalization::NotRoot, with_chunks);
    let (right_out, right_hash) = encode_part(right_content, Finalization::NotRoot, with_chunks);
    let parent = join_hashes(&left_hash, &right_hash);
    out.extend_from_slice(parent.as_slice());
    out.extend_from_slice(left_out.as_slice());
    out.extend_from_slice(right_out.as_slice());
    assert(out@ =~= parent@ + left_out@ + right_out@);
    (out, hash_parent(&parent, finalization))
}

/// Puts the header for `len` bytes of content before `body`.
fn with_header(len: u64, body: &Vec<u8>) -> (encoded: Vec<u8>)
    ensures
        encoded@ == header(len as int) + body@,
{
    let header_bytes = encode_len(len);
    let mut encoded: Vec<u8> = Vec::new();
    encoded.extend_from_slice(header_bytes.as_slice());
    encoded.extend_from_slice(body.as_slice());
    assert(encoded@ =~= header(len as int) + body@);
    encoded
}

/// The combined encoding of some content, and its root hash.
pub fn encode(input: &[u8]) -> (encoded: (Vec<u8>, crate::hash::Hash))
    ensures
        encoded.0@ == combined_encoding(input@),
        encoded.1@ == root_hash(input@),
{
    let (body, hash) = encode_part(input, Finalization::Root, true);
    (with_header(input.len() as u64, &body), hash)
}

/// The outboard encoding of some content, and its root hash.
pub fn outboard(input: &[u8]) -> (encoded: (Vec<u8>, crate::hash::Hash))
    ensures
        encoded.0@ == outboard_encoding(input@),
        encoded.1@ == root_hash(input@),
{
    let (body, hash) = encode_part(input, Finalization::Root, false);
    (with_header(input.len() as u64, &body), hash)
}

/// The nodes of a subtree over `len` bytes that overlap the bytes from `start` to `end`, in
/// pre-order, or `None` if they are not all there.
///
/// The subtree stands for the content from `base` on, and its nodes start at `offset`. Its chunks
/// stand between its parents in `input`, or all by themselves if there is an `outboard`.
pub open spec fn extract_subtree(
    input: Seq<u8>,
    outboard: Option<Seq<u8>>,
    len: int,
    base: int,
    offset: int,
    start: int,
    end: int,
) -> Option<Seq<u8>>
    decreases len,
{
    let nodes = match outboard {
        Some(outboard) => outboard,
        None => input,
    };
    if !(base < end && start < base + len) {
        Some(Seq::empty())
    } else if len <= CHUNK_SIZE {
        let at = if outboard is Some {
            base
        } else {
            offset
        };
        if at + len <= input.len() {
            Some(input.subrange(at, at + len))
        } else {
            None
        }
    } else if offset + PARENT_SIZE <= nodes.len() {
        proof {
            lemma_left_part(len);
        }
        let l = left_part(len);
        let children = offset + PARENT_SIZE;
        let second = children + if outboard is Some {
            parents_size(l)
        } else {
            subtree_size(l)
        };
        match (
            extract_subtree(input, outboard, l, base, children, start, end),
            extract_subtree(input, outboard, len - l, base + l, second, start, end),
        ) {
            (Some(left_nodes), Some(right_nodes)) => Some(
                nodes.subrange(offset, children) + left_nodes + right_nodes,
            ),
            _ => None,
        }
    } else {
        None
    }
}

/// The slice for `len` bytes from `start` on, or `None` if its nodes are not all there.
pub open spec fn extract(
    input: Seq<u8>,
    outboard: Option<Seq<u8>>,
    start: int,
    len: int,
) -> Option<Seq<u8>> {
    let nodes = match outboard {
        Some(outboard) => outboard,
        None => input,
    };
    if nodes.len() < HEADER_SIZE {
        None
    } else {
        let header_bytes = nodes.take(HEADER_SIZE as int);
        let total = le_value(header_bytes);
        match extract_subtree(
            input,
            outboard,
            total,
            0,
            HEADER_SIZE as int,
            slice_first(total, start),
            slice_end(total, start, len),
        ) {
            Some(rest) => Some(header_bytes + rest),
            None => None,
        }
    }
}

/// Appends the nodes of a subtree that a slice holds to `out`, or returns `false` if they are not
/// all there.
fn extract_part(
    input: &[u8],
    outboard: Option<&[u8]>,
    len: u64,
    base: u64,
    offset: u128,
    start: i128,
    end: i128,
    out: &mut Vec<u8>,
) -> (found: bool)
    requires
        base + len <= u64::MAX,
        offset + subtree_size(len as int) <= u128::MAX,
    ensures
        ({
            let outboard_bytes = match outboard {
                Some(outboard) => Some(outboard@),
                None => None,
            };
            let nodes = extract_subtree(
                input@,
                outboard_bytes,
                len as int,
                base as int,
                offset as int,
                start as int,
                end as int,
            );
            &&& found == (nodes is Some)
            &&& found ==> final(out)@ == old(out)@ + nodes->0
        }),
    decreases len,
{
    let ghost before = out@;
    let nodes: &[u8] = match outboard {
        Some(outboard) => outboard,
        None => input,
    };
    proof {
        lemma_parents_size_bound(len as int);
    }
    if !((base as i128) < end && start < base as i128 + len as i128) {
        assert(out@ =~= before + Seq::<u8>::empty());
        return true;
    }
    if len <= CHUNK_SIZE as u64 {
        let at: u128 = match outboard {
            Some(_) => base as u128,
            None => offset,
        };
        if at > input.len() as u128 || len as u128 > input.len() as u128 - at {
            return false;
        }
        let at: usize = at as usize;
        let chunk: &[u8] = &input[at..at + len as usize];
        out.extend_from_slice(chunk);
        assert(out@ =~= before + chunk@);
        return true;
    }
    if offset > nodes.len() as u128 || PARENT_SIZE as u128 > nodes.len() as u128 - offset {
        return false;
    }
    let at: usize = offset as usize;
    let parent: &[u8] = &nodes[at..at + PARENT_SIZE];
    out.extend_from_slice(parent);
    proof {
        lemma_left_part(len as int);
        lemma_split_count(len as int);
    }
    let middle: u64 = left_len(len);
    let children: u128 = offset + PARENT_SIZE as u128;
    let left_size: u128 = match outboard {
        Some(_) => encoded_subtree_size(middle) - middle as u128,
        None => encoded_subtree_size(middle),
    };
    proof {
        lemma_parents_size_bound(middle as int);
        lemma_parents_size_bound(len - middle);
    }
    if !extract_part(input, outboard, middle, base, children, start, end, out) {
        return false;
    }
    let second: u128 = children + left_size;
    if !extract_part(
        input,
        outboard,
        len - middle,
        base + middle,
        second,
        start,
        end,
        out,
    ) {
        return false;
    }
    true
}

fn extract_nodes(input: &[u8], outboard: Option<&[u8]>, slice_start: u64, slice_len: u64) -> (
    result: Result<Vec<u8>, ReadError>)
    ensures
        ({
            let outboard_bytes = match outboard {
                Some(outboard) => Some(outboard@),
                None => None,
            };
            match extract(input@, outboard_bytes, slice_start as int, slice_len as int) {
                Some(slice) => result is Ok && result->Ok_0@ == slice,
                None => result is Err && result->Err_0 == ReadError::UnexpectedEof,
            }
        }),
{
    let nodes: &[u8] = match outboard {
        Some(outboard) => outboard,
        None => input,
    };
    let mut cursor = Cursor::new(nodes);
    let header_bytes = match cursor.read_header() {
        Ok(header_bytes) => header_bytes,
        Err(error) => {
            return Err(error);
        },
    };
    assert(header_bytes@ =~= nodes@.take(HEADER_SIZE as int));
    let content_len: u64 = decode_len(&header_bytes);
    let first: i128 = if slice_start < content_len {
        slice_start as i128
    } else {
        content_len as i128 - 1
    };
    let end: i128 = (if first > 0 {
        first
    } else {
        0
    }) + (if slice_len > 1 {
        slice_len as i128
    } else {
        1
    });
    let mut slice: Vec<u8> = Vec::new();
    slice.extend_from_slice(header_bytes.as_slice());
    assert(slice@ =~= header_bytes@);
    proof {
        lemma_parents_size_bound(content_len as int);
    }
    if extract_part(
        input,
        outboard,
        content_len,
        0,
        HEADER_SIZE as u128,
        first,
        end,
        &mut slice,
    ) {
        Ok(slice)
    } else {
        Err(ReadError::UnexpectedEof)
    }
}

/// Extracts the slice for `slice_len` bytes from `slice_start` on out of a combined encoding. What
/// it holds is not verified.
pub fn extract_slice(encoded: &[u8], slice_start: u64, slice_len: u64) -> (result: Result<
    Vec<u8>,
    ReadError,
>)
    ensures
        match extract(encoded@, None, slice_start as int, slice_len as int) {
            Some(slice) => result is Ok && result->Ok_0@ == slice,
            None => result is Err && result->Err_0 == ReadError::UnexpectedEof,
        },
{
    extract_nodes(encoded, None, slice_start, slice_len)
}

/// Extracts the slice for `slice_len` bytes from `slice_start` on out of content and its outboard
/// encoding. What it holds is not verified.
pub fn extract_slice_outboard(
    content: &[u8],
    outboard: &[u8],
    slice_start: u64,
    slice_len: u64,
) -> (result: Result<Vec<u8>, ReadError>)
    ensures
        match extract(content@, Some(outboard@), slice_start as int, slice_len as int) {
            Some(slice) => result is Ok && result->Ok_0@ == slice,
            None => result is Err && result->Err_0 == ReadError::UnexpectedEof,
        },
{
    extract_nodes(content, Some(outboard), slice_start, slice_len)
}

proof fn lemma_extract_combined(
    input: Seq<u8>,
    content: Seq<u8>,
    base: int,
    offset: int,
    start: int,
    end: int,
)
    requires
        found_at(encode_subtree(content), input, offset),
    ensures
        extract_subtree(input, None, content.len() as int, base, offset, start, end) == Some(
            slice_subtree(content, base, start, end),
        ),
    decreases content.len(),
{
    if content.len() > CHUNK_SIZE {
        let l: int = left_part(content.len() as int);
        lemma_left_part(content.len() as int);
        lemma_parent_node_len(content);
        lemma_encode_subtree_len(left(content));
        let parent = parent_node(content);
        let first = encode_subtree(left(content));
        let second = encode_subtree(right(content));
        lemma_found_split(parent + first, second, input, offset);
        lemma_found_split(parent, first, input, offset);
        let children: int = offset + PARENT_SIZE;
        lemma_extract_combined(input, left(content), base, children, start, end);
        lemma_extract_combined(
            input,
            right(content),
            base + l,
            children + subtree_size(l),
            start,
            end,
        );
    }
}

proof fn lemma_extract_outboard(
    input: Seq<u8>,
    outboard: Seq<u8>,
    content: Seq<u8>,
    base: int,
    offset: int,
    start: int,
    end: int,
)
    requires
        found_at(content, input, base),
        found_at(outboard_subtree(content), outboard, offset),
    ensures
        extract_subtree(
            input,
            Some(outboard),
            content.len() as int,
            base,
            offset,
            start,
            end,
        ) == Some(slice_subtree(content, base, start, end)),
    decreases content.len(),
{
    if content.len() > CHUNK_SIZE {
        let l: int = left_part(content.len() as int);
        lemma_left_part(content.len() as int);
        lemma_parent_node_len(content);
        lemma_encode_subtree_len(left(content));
        let parent = parent_node(content);
        let first = outboard_subtree(left(content));
        let second = outboard_subtree(right(content));
        lemma_found_split(parent + first, second, outboard, offset);
        lemma_found_split(parent, first, outboard, offset);
        assert(content =~= left(content) + right(content));
        lemma_found_split(left(content), right(content), input, base);
        let children: int = offset + PARENT_SIZE;
        lemma_extract_outboard(input, outboard, left(content), base, children, start, end);
        lemma_extract_outboard(
            input,
            outboard,
            right(content),
            base + l,
            children + parents_size(l),
            start,
            end,
        );
    }
}

proof fn lemma_parent_node_len(content: Seq<u8>)
    ensures
        parent_node(content).len() == PARENT_SIZE,
{
    lemma_subtree_hash_len(left(content), Finalization::NotRoot);
    lemma_subtree_hash_len(right(content), Finalization::NotRoot);
}

/// The slice that is extracted from a combined encoding is that of the content.
pub proof fn law_extract(input: Seq<u8>, content: Seq<u8>, start: int, len: int)
    requires
        content.len() <= u64::MAX,
        found_at(combined_encoding(content), input, 0),
    ensures
        extract(input, None, start, len) == Some(slice_encoding(content, start, len)),
{
    let total: int = content.len() as int;
    lemma_header_value(content.len() as u64);
    lemma_found_split(header(total), encode_subtree(content), input, 0);
    assert(input.take(HEADER_SIZE as int) =~= input.subrange(0, HEADER_SIZE as int));
    lemma_extract_combined(
        input,
        content,
        0,
        HEADER_SIZE as int,
        slice_first(total, start),
        slice_end(total, start, len),
    );
}

/// The slice that is extracted from content and its outboard encoding is that of the content, so it
/// is the same that is extracted from a combined encoding.
pub proof fn law_extract_outboard(
    input: Seq<u8>,
    outboard: Seq<u8>,
    content: Seq<u8>,
    start: int,
    len: int,
)
    requires
        content.len() <= u64::MAX,
        found_at(content, input, 0),
        found_at(outboard_encoding(content), outboard, 0),
    ensures
        extract(input, Some(outboard), start, len) == Some(slice_encoding(content, start, len)),
{
    let total: int = content.len() as int;
    lemma_header_value(content.len() as u64);
    lemma_found_split(header(total), outboard_subtree(content), outboard, 0);
    assert(outboard.take(HEADER_SIZE as int) =~= outboard.subrange(0, HEADER_SIZE as int));
    lemma_extract_outboard(
        input,
        outboard,
        content,
        0,
        HEADER_SIZE as int,
        slice_first(total, start),
        slice_end(total, start, len),
    );
}

/// Whether the nodes over `content` that overlap the bytes from `start` to `end` are all there,
/// each where it belongs in an encoding: the subtree starts at `base` in the content, and its nodes
/// at `offset`.
pub open spec fn nodes_at(
    content: Seq<u8>,
    input: Seq<u8>,
    outboard: Option<Seq<u8>>,
    base: int,
    offset: int,
    start: int,
    end: int,
) -> bool
    decreases content.len(),
{
    if !(base < end && start < base + content.len()) {
        true
    } else if content.len() <= CHUNK_SIZE {
        found_at(
            content,
            input,
            if outboard is Some {
                base
            } else {
                offset
            },
        )
    } else {
        proof {
            lemma_left_part(content.len() as int);
        }
        let l = left_part(content.len() as int);
        let skipped = if outboard is Some {
            parents_size(l)
        } else {
            subtree_size(l)
        };
        &&& found_at(
            parent_node(content),
            match outboard {
                Some(outboard) => outboard,
                None => input,
            },
            offset,
        )
        &&& nodes_at(left(content), input, outboard, base, offset + PARENT_SIZE, start, end)
        &&& nodes_at(
            right(content),
            input,
            outboard,
            base + l,
            offset + PARENT_SIZE + skipped,
            start,
            end,
        )
    }
}

proof fn lemma_extract_nodes_at(
    content: Seq<u8>,
    input: Seq<u8>,
    outboard: Option<Seq<u8>>,
    base: int,
    offset: int,
    start: int,
    end: int,
)
    requires
        nodes_at(content, input, outboard, base, offset, start, end),
    ensures
        extract_subtree(input, outboard, content.len() as int, base, offset, start, end) == Some(
            slice_subtree(content, base, start, end),
        ),
    decreases content.len(),
{
    let len: int = content.len() as int;
    if base < end && start < base + len && len > CHUNK_SIZE {
        let l: int = left_part(len);
        let skipped: int = if outboard is Some {
            parents_size(l)
        } else {
            subtree_size(l)
        };
        lemma_left_part(len);
        lemma_subtree_hash_len(left(content), Finalization::NotRoot);
        lemma_subtree_hash_len(right(content), Finalization::NotRoot);
        lemma_extract_nodes_at(
            left(content),
            input,
            outboard,
            base,
            offset + PARENT_SIZE,
            start,
            end,
        );
        lemma_extract_nodes_at(
            right(content),
            input,
            outboard,
            base + l,
            offset + PARENT_SIZE + skipped,
            start,
            end,
        );
    }
}

/// A slice is extracted if the header and the nodes that it holds are there, each in its place,
/// whatever else is there or is not.
pub proof fn law_extract_there(
    content: Seq<u8>,
    input: Seq<u8>,
    outboard: Option<Seq<u8>>,
    start: int,
    len: int,
)
    requires
        content.len() <= u64::MAX,
        found_at(
            header(content.len() as int),
            match outboard {
                Some(outboard) => outboard,
                None => input,
            },
            0,
        ),
        nodes_at(
            content,
            input,
            outboard,
            0,
            HEADER_SIZE as int,
            slice_first(content.len() as int, start),
            slice_end(content.len() as int, start, len),
        ),
    ensures
        extract(input, outboard, start, len) == Some(slice_encoding(content, start, len)),
{
    let total: int = content.len() as int;
    let nodes = match outboard {
        Some(outboard) => outboard,
        None => input,
    };
    lemma_header_value(content.len() as u64);
    assert(nodes.take(HEADER_SIZE as int) =~= nodes.subrange(0, HEADER_SIZE as int));
    lemma_extract_nodes_at(
        content,
        input,
        outboard,
        0,
        HEADER_SIZE as int,
        slice_first(total, start),
        slice_end(total, start, len),
    );
}

/// Whether what is there is an encoding of `content`, or the start of one.
pub open spec fn starts_encoding(
    input: Seq<u8>,
    outboard: Option<Seq<u8>>,
    content: Seq<u8>,
) -> bool {
    match outboard {
        None => input.is_prefix_of(combined_encoding(content)),
        Some(outboard) => {
            &&& input.is_prefix_of(content)
            &&& outboard.is_prefix_of(outboard_encoding(content))
        },
    }
}

/// What is extracted from the start of an encoding was there.
proof fn lemma_extracted_was_there(
    content: Seq<u8>,
    whole: Seq<u8>,
    input: Seq<u8>,
    outboard: Option<Seq<u8>>,
    base: int,
    offset: int,
    start: int,
    end: int,
)
    requires
        starts_encoding(input, outboard, whole),
        outboard is None ==> found_at(encode_subtree(content), combined_encoding(whole), offset),
        outboard is Some ==> {
            &&& found_at(outboard_subtree(content), outboard_encoding(whole), offset)
            &&& found_at(content, whole, base)
        },
        extract_subtree(input, outboard, content.len() as int, base, offset, start, end) is Some,
    ensures
        nodes_at(content, input, outboard, base, offset, start, end),
    decreases content.len(),
{
    let len: int = content.len() as int;
    if base < end && start < base + len {
        if len <= CHUNK_SIZE {
            if outboard is Some {
                lemma_before_cut(input, whole, content, base);
            } else {
                lemma_before_cut(input, combined_encoding(whole), content, offset);
            }
        } else {
            let l: int = left_part(len);
            let parent = parent_node(content);
            let children: int = offset + PARENT_SIZE;
            let (nodes, encoding, first, second) = match outboard {
                Some(outboard) => (
                    outboard,
                    outboard_encoding(whole),
                    outboard_subtree(left(content)),
                    outboard_subtree(right(content)),
                ),
                None => (
                    input,
                    combined_encoding(whole),
                    encode_subtree(left(content)),
                    encode_subtree(right(content)),
                ),
            };
            lemma_left_part(len);
            lemma_encode_subtree_len(left(content));
            lemma_subtree_hash_len(left(content), Finalization::NotRoot);
            lemma_subtree_hash_len(right(content), Finalization::NotRoot);
            assert(parent + first + second =~= parent + (first + second));
            lemma_found_split(parent, first + second, encoding, offset);
            lemma_found_split(first, second, encoding, children);
            lemma_before_cut(nodes, encoding, parent, offset);
            if outboard is Some {
                assert(left(content) + right(content) =~= content);
                lemma_found_split(left(content), right(content), whole, base);
            }
            lemma_extracted_was_there(
                left(content),
                whole,
                input,
                outboard,
                base,
                children,
                start,
                end,
            );
            lemma_extracted_was_there(
                right(content),
                whole,
                input,
                outboard,
                base + l,
                children + first.len(),
                start,
                end,
            );
        }
    }
}

/// A slice is extracted from the start of an encoding exactly if the header and the nodes that it
/// holds are there.
pub proof fn law_extract_cut(
    content: Seq<u8>,
    input: Seq<u8>,
    outboard: Option<Seq<u8>>,
    start: int,
    len: int,
)
    requires
        content.len() <= u64::MAX,
        starts_encoding(input, outboard, content),
    ensures
        ({
            let total = content.len() as int;
            let nodes = match outboard {
                Some(outboard) => outboard,
                None => input,
            };
            let there = nodes.len() >= HEADER_SIZE && nodes_at(
                content,
                input,
                outboard,
                0,
                HEADER_SIZE as int,
                slice_first(total, start),
                slice_end(total, start, len),
            );
            extract(input, outboard, start, len) == if there {
                Some(slice_encoding(content, start, len))
            } else {
                None
            }
        }),
{
    let total: int = content.len() as int;
    let first: int = slice_first(total, start);
    let end: int = slice_end(total, start, len);
    let (nodes, encoding, tree) = match outboard {
        Some(outboard) => (outboard, outboard_encoding(content), outboard_subtree(content)),
        None => (input, combined_encoding(content), encode_subtree(content)),
    };
    lemma_header_value(content.len() as u64);
    if nodes.len() >= HEADER_SIZE {
        assert(encoding.subrange(0, HEADER_SIZE as int) =~= header(total));
        assert(encoding.subrange(HEADER_SIZE as int, encoding.len() as int) =~= tree);
        assert(content.subrange(0, total) =~= content);
        lemma_before_cut(nodes, encoding, header(total), 0);
        assert(nodes.take(HEADER_SIZE as int) =~= nodes.subrange(0, HEADER_SIZE as int));
        if nodes_at(content, input, outboard, 0, HEADER_SIZE as int, first, end) {
            law_extract_there(content, input, outboard, start, len);
        } else if extract(input, outboard, start, len) is Some {
            lemma_extracted_was_there(
                content,
                content,
                input,
                outboard,
                0,
                HEADER_SIZE as int,
                first,
                end,
            );
        }
    }
}

} // verus!
