use bao::error::{add_offset, cast_offset, Error, ErrorKind, ReadError};
use bao::hash::{
    self, decode_len, encode_len, hash_chunk, hash_parent, join_hashes, Finalization, CHUNK_SIZE,
    HASH_SIZE, PARENT_SIZE,
};
use bao::parse::{LenNext, NextRead, ParseState};
use bao::source::{copy_array, copy_front, split_parent, Cursor};
use bao::testing::make_test_input;
use bao::tree::{count_chunks, encoded_size, encoded_subtree_size, left_len};
use bao::verify::VerifyState;

fn hex(bytes: &[u8]) -> String {
    let mut out = String::new();
    for byte in bytes {
        out.push_str(&format!("{:02x}", byte));
    }
    out
}

#[test]
fn chunk_hashes() {
    assert_eq!(
        hex(hash_chunk(b"abc", Finalization::NotRoot).as_bytes()),
        "76558baaff53f2e9e23f1b1163a6415ad92722534295caeb2dd1a04515855e36"
    );
    assert_eq!(
        hex(hash_chunk(b"hello world", Finalization::Root).as_bytes()),
        "3c7d865afba0ca1a924023f54b5c02cb87bfc154f29ca84e2f73bcb21d7f2a1e"
    );
}

#[test]
fn parent_hashes() {
    let parent = [0; PARENT_SIZE];
    assert_eq!(
        hex(hash_parent(&parent, Finalization::Root).as_bytes()),
        "27b6ae07d72aacb82ef54caab3d9bd7b6e3440b04026895e488ea988de6b5c65"
    );
    assert_eq!(
        hex(hash_parent(&parent, Finalization::NotRoot).as_bytes()),
        "ae83631308575d1f5d47c0eab5424e459350e9fa75e70ae78e4634e7f98099e6"
    );
}

#[test]
fn root_hashes() {
    let cases = [
        (
            Vec::new(),
            "4d3b32e1f160c90fabf275f9a2882a43b595aa895dfdc6b20fca1f5b51a295b4",
        ),
        (
            vec![0; CHUNK_SIZE],
            "f3843cc6f46eb6e05d22beca6190c935e34ed8113a14b7558caa20d828dad209",
        ),
        (
            vec![0; CHUNK_SIZE + 1],
            "0d59eb59888321fa4c3ff3313e0ee3454e32937bb42a89a5aec3721fdaa9f3c7",
        ),
        (
            vec![0; 2 * CHUNK_SIZE + 1],
            "12ea5e2e91c21f4a4658fcaa08cc5aa6d2126aa72ca05742784aa718493e720f",
        ),
        (
            make_test_input(100_000),
            "3979984bcb6e64797720980ee5fa39f3d54d3f6fc4a63ddb557cf57d05de5190",
        ),
    ];
    for (input, expected) in cases.iter() {
        assert_eq!(&hex(hash::hash(input).as_bytes()), expected);
    }
}

#[test]
fn hash_uses_tree_mode_of_blake2s() {
    let expected = blake2s_simd::Params::new()
        .fanout(2)
        .max_depth(255)
        .max_leaf_length(CHUNK_SIZE as u32)
        .node_offset(0)
        .node_depth(0)
        .inner_hash_length(HASH_SIZE)
        .last_node(true)
        .hash(b"some input");
    let hash = hash_chunk(b"some input", Finalization::Root);
    assert_eq!(hash.as_bytes(), expected.as_array());
}

#[test]
fn hashes_are_equal_if_their_bytes_are() {
    let one = hash::Hash::new(&[1; HASH_SIZE]);
    let same = hash::Hash::new(&[1; HASH_SIZE]);
    assert_eq!(one, same);
    for i in 0..HASH_SIZE {
        let mut bytes = [1; HASH_SIZE];
        bytes[i] ^= 0x80;
        assert_ne!(one, hash::Hash::new(&bytes));
    }
}

#[test]
fn parents_hold_two_hashes() {
    let left = hash::Hash::new(&[1; HASH_SIZE]);
    let right = hash::Hash::new(&[2; HASH_SIZE]);
    let parent = join_hashes(&left, &right);
    assert_eq!(&parent[..HASH_SIZE], &[1; HASH_SIZE]);
    assert_eq!(&parent[HASH_SIZE..], &[2; HASH_SIZE]);
    let (left_child, right_child) = split_parent(&parent);
    assert_eq!(left_child, [1; HASH_SIZE]);
    assert_eq!(right_child, [2; HASH_SIZE]);
}

#[test]
fn headers() {
    assert_eq!(encode_len(0), [0; 8]);
    assert_eq!(encode_len(0x0102_0304_0506_0708), [8, 7, 6, 5, 4, 3, 2, 1]);
    assert_eq!(encode_len(u64::MAX), [0xff; 8]);
    assert_eq!(decode_len(&[8, 7, 6, 5, 4, 3, 2, 1]), 0x0102_0304_0506_0708);
    for &len in &[0, 1, 255, 256, 65_536, u64::MAX - 1, u64::MAX] {
        assert_eq!(decode_len(&encode_len(len)), len);
    }
}

#[test]
fn left_subtrees_are_full() {
    let chunk = CHUNK_SIZE as u64;
    assert_eq!(left_len(chunk + 1), chunk);
    assert_eq!(left_len(2 * chunk), chunk);
    assert_eq!(left_len(2 * chunk + 1), 2 * chunk);
    assert_eq!(left_len(4 * chunk), 2 * chunk);
    assert_eq!(left_len(4 * chunk + 1), 4 * chunk);
    assert_eq!(left_len(1 << 63), 1 << 62);
    assert_eq!(left_len((1 << 63) + 1), 1 << 63);
    assert_eq!(left_len(u64::MAX), 1 << 63);
}

#[test]
fn chunks_are_counted() {
    let chunk = CHUNK_SIZE as u64;
    assert_eq!(count_chunks(0), 1);
    assert_eq!(count_chunks(1), 1);
    assert_eq!(count_chunks(chunk), 1);
    assert_eq!(count_chunks(chunk + 1), 2);
    assert_eq!(count_chunks(37 * chunk), 37);
    assert_eq!(count_chunks(u64::MAX), 1 << 52);
}

#[test]
fn encoded_sizes() {
    assert_eq!(encoded_size(0), 8);
    assert_eq!(encoded_size(1), 9);
    assert_eq!(encoded_size(4096), 4104);
    assert_eq!(encoded_size(4097), 8 + 64 + 4097);
    assert_eq!(encoded_size(8193), 8 + 2 * 64 + 8193);
    assert_eq!(encoded_subtree_size(8193), 2 * 64 + 8193);
    assert_eq!(
        encoded_size(u64::MAX),
        8 + u64::MAX as u128 + 64 * ((1u128 << 52) - 1)
    );
}

#[test]
fn a_position_moves_through_a_tree() {
    let mut parser = ParseState::new();
    assert_eq!(parser.content_len(), None);
    assert_eq!(parser.read_next(), NextRead::Header);
    parser.feed_header(&encode_len(2 * CHUNK_SIZE as u64 + 1));
    assert_eq!(parser.content_len(), Some(2 * CHUNK_SIZE as u64 + 1));
    assert_eq!(parser.finalization(), Finalization::Root);
    assert_eq!(parser.read_next(), NextRead::Parent);
    parser.advance_parent();
    assert_eq!(parser.finalization(), Finalization::NotRoot);
    assert_eq!(parser.read_next(), NextRead::Parent);
    parser.advance_parent();
    for &(position, size) in &[(0, CHUNK_SIZE), (CHUNK_SIZE, CHUNK_SIZE), (2 * CHUNK_SIZE, 1)] {
        assert_eq!(parser.content_position(), position as u64);
        let finalization = Finalization::NotRoot;
        assert_eq!(
            parser.read_next(),
            NextRead::Chunk {
                size,
                finalization,
                skip: 0
            }
        );
        parser.advance_chunk();
    }
    assert_eq!(parser.read_next(), NextRead::Done);
    assert!(matches!(parser.len_next(), LenNext::Len(8193)));
}

#[test]
fn a_seek_skips_subtrees() {
    let mut parser = ParseState::new();
    let first = parser.seek_next(5_000);
    assert_eq!(first.next_read, NextRead::Header);
    assert_eq!(first.underlying_seek(), None);
    parser.seek_bookkeeping_done(first);
    parser.feed_header(&encode_len(2 * CHUNK_SIZE as u64 + 1));
    let root = parser.seek_next(5_000);
    assert_eq!(parser.seek_bookkeeping_done(root), NextRead::Parent);
    parser.advance_parent();
    let left = parser.seek_next(5_000);
    assert_eq!(left.underlying_seek(), Some(8 + 64));
    assert_eq!(parser.seek_bookkeeping_done(left), NextRead::Parent);
    parser.advance_parent();
    // The first chunk is skipped, and the second is where the target lies.
    let second = parser.seek_next(5_000);
    assert!(!second.reset_to_root());
    assert_eq!(second.stack_depth(), 2);
    assert_eq!(second.underlying_seek(), Some(8 + 2 * 64 + 4096));
    assert_eq!(second.underlying_seek_outboard(), Some((4096, 8 + 2 * 64)));
    assert_eq!(parser.seek_bookkeeping_done(second), NextRead::Done);
    assert_eq!(parser.content_position(), 5_000);
    assert_eq!(
        parser.read_next(),
        NextRead::Chunk {
            size: CHUNK_SIZE,
            finalization: Finalization::NotRoot,
            skip: 904
        }
    );
    // Back to the start means back to the root.
    let back = parser.seek_next(0);
    assert!(back.reset_to_root());
    assert_eq!(back.stack_depth(), 1);
    assert_eq!(back.underlying_seek(), Some(8));
    assert_eq!(parser.seek_bookkeeping_done(back), NextRead::Parent);
}

#[test]
fn the_length_is_known_once_the_final_chunk_is_read() {
    let mut parser = ParseState::new();
    parser.feed_header(&encode_len(5_000));
    let mut reads = Vec::new();
    let len = loop {
        match parser.len_next() {
            LenNext::Len(len) => break len,
            LenNext::Seek(bookkeeping) => {
                let next = parser.seek_bookkeeping_done(bookkeeping);
                reads.push(next);
                match next {
                    NextRead::Parent => parser.advance_parent(),
                    NextRead::Chunk { .. } => parser.advance_chunk(),
                    _ => unreachable!(),
                }
            }
        }
    };
    assert_eq!(len, 5_000);
    let last = NextRead::Chunk {
        size: 904,
        finalization: Finalization::NotRoot,
        skip: 904,
    };
    assert_eq!(reads, vec![NextRead::Parent, last]);
}

#[test]
fn positions_in_huge_encodings_do_not_fit() {
    // The chain of parents on the right edge of a tree of the largest length, from the bottom up.
    let mut parents = Vec::new();
    let mut child = hash::Hash::new(&[7; HASH_SIZE]);
    let other = hash::Hash::new(&[9; HASH_SIZE]);
    for level in 0..10 {
        let parent = join_hashes(&other, &child);
        let finalization = if level == 9 {
            Finalization::Root
        } else {
            Finalization::NotRoot
        };
        child = hash_parent(&parent, finalization);
        parents.push(parent);
    }
    let mut state = VerifyState::new(&child);
    let seek_to = u64::MAX - 1;
    let bookkeeping = state.seek_next(seek_to);
    state.seek_bookkeeping_done(bookkeeping);
    state.feed_header(&encode_len(u64::MAX));
    let mut position = 0;
    while let Some(parent) = parents.pop() {
        let bookkeeping = state.seek_next(seek_to);
        position = bookkeeping.underlying_seek().unwrap();
        assert_eq!(state.seek_bookkeeping_done(bookkeeping), NextRead::Parent);
        state.feed_parent(&parent).unwrap();
    }
    assert!(position > u64::MAX as u128);
    assert_eq!(cast_offset(position), Err(ReadError::SeekOffsetOverflow));
    // As many hashes are held as there are subtrees left.
    assert_eq!(state.stack_size(), 2);
    assert_eq!(state.content_len(), Some(u64::MAX));
}

#[test]
fn a_verifier_takes_only_what_has_the_right_hash() {
    let left = hash_chunk(&[1; CHUNK_SIZE], Finalization::NotRoot);
    let right = hash_chunk(&[2; 10], Finalization::NotRoot);
    let parent = join_hashes(&left, &right);
    let mut bad_parent = parent;
    bad_parent[40] ^= 1;
    let mut state = VerifyState::new(&hash_parent(&parent, Finalization::Root));
    state.feed_header(&encode_len(CHUNK_SIZE as u64 + 10));
    assert_eq!(state.stack_size(), 1);
    assert_eq!(state.feed_parent(&bad_parent), Err(Error::HashMismatch));
    assert_eq!(state.stack_size(), 1);
    assert_eq!(state.feed_parent(&parent), Ok(()));
    assert_eq!(state.stack_size(), 2);
    let copy = state.clone();
    assert_eq!(state.feed_chunk(&right), Err(Error::HashMismatch));
    assert_eq!(state.feed_chunk(&left), Ok(()));
    assert_eq!(state.feed_chunk(&right), Ok(()));
    assert_eq!(state.stack_size(), 0);
    assert_eq!(state.read_next(), NextRead::Done);
    assert_eq!(copy.stack_size(), 2);
    assert_eq!(copy.content_position(), 0);
    // A seek back starts over with the root hash.
    let back = state.seek_next(0);
    assert_eq!(state.seek_bookkeeping_done(back), NextRead::Parent);
    assert_eq!(state.stack_size(), 1);
    assert_eq!(state.feed_parent(&parent), Ok(()));
    assert!(!format!("{:?}", state.parser()).contains("Hash"));
}

#[test]
fn errors_have_kinds_and_words() {
    let cases = [
        (
            ReadError::from(Error::HashMismatch),
            ErrorKind::InvalidData,
            "hash mismatch",
        ),
        (
            ReadError::from(Error::Truncated),
            ErrorKind::UnexpectedEof,
            "truncated encoding",
        ),
        (
            ReadError::UnexpectedEof,
            ErrorKind::UnexpectedEof,
            "failed to fill whole buffer",
        ),
        (
            ReadError::SeekBeforeBeginning,
            ErrorKind::InvalidInput,
            "seek before beginning",
        ),
        (
            ReadError::SeekTargetOverflow,
            ErrorKind::InvalidInput,
            "seek target overflowed u64",
        ),
        (
            ReadError::SeekOffsetOverflow,
            ErrorKind::Other,
            "seek offset overflowed u64",
        ),
    ];
    for (error, kind, message) in cases.iter() {
        assert_eq!(error.kind(), *kind);
        assert_eq!(error.message(), *message);
    }
    assert_eq!(Error::HashMismatch.message(), "hash mismatch");
    assert_eq!(Error::Truncated.message(), "truncated encoding");
}

#[test]
fn offsets_are_added() {
    assert_eq!(add_offset(5, -5), Ok(0));
    assert_eq!(add_offset(5, -6), Err(ReadError::SeekBeforeBeginning));
    assert_eq!(add_offset(0, i64::MIN), Err(ReadError::SeekBeforeBeginning));
    assert_eq!(add_offset(u64::MAX, 0), Ok(u64::MAX));
    assert_eq!(add_offset(u64::MAX, 1), Err(ReadError::SeekTargetOverflow));
    assert_eq!(add_offset(u64::MAX, i64::MIN), Ok((1 << 63) - 1));
    assert_eq!(cast_offset(u64::MAX as u128), Ok(u64::MAX));
    assert_eq!(
        cast_offset(u64::MAX as u128 + 1),
        Err(ReadError::SeekOffsetOverflow)
    );
}

#[test]
fn cursors_read_all_or_nothing() {
    let bytes = [1, 2, 3, 4, 5, 6, 7, 8, 9];
    let mut cursor = Cursor::new(&bytes);
    assert_eq!(cursor.read_exact(2), Ok(&bytes[..2]));
    assert_eq!(cursor.read_header(), Err(ReadError::UnexpectedEof));
    assert_eq!(cursor.position(), 2);
    cursor.seek(1);
    assert_eq!(cursor.read_header(), Ok([2, 3, 4, 5, 6, 7, 8, 9]));
    assert_eq!(cursor.position(), 9);
    assert_eq!(cursor.read_exact(1), Err(ReadError::UnexpectedEof));
    cursor.seek(1_000);
    assert_eq!(cursor.read_exact(0), Ok(&bytes[..0]));
    assert_eq!(cursor.read_exact(1), Err(ReadError::UnexpectedEof));
    assert_eq!(cursor.read_parent(), Err(ReadError::UnexpectedEof));
    assert_eq!(cursor.position(), 1_000);
}

#[test]
fn bytes_are_copied() {
    let mut array = [0; 3];
    copy_array(&mut array, &[1, 2, 3]);
    assert_eq!(array, [1, 2, 3]);
    let mut buf = [9; 5];
    copy_front(&mut buf, &[1, 2]);
    assert_eq!(buf, [1, 2, 9, 9, 9]);
}

#[test]
fn counters_make_up_the_test_input() {
    let input = make_test_input(262);
    assert_eq!(
        &input[250..],
        &[0xfa, 0xfb, 0xfc, 0xfd, 0xfe, 0x00, 0xff, 0x01, 0x00, 0x01, 0x01, 0x01]
    );
    let input = make_test_input(131_080);
    assert_eq!(
        &input[131_072..],
        &[0x01, 0x00, 0x3f, 0x00, 0x01, 0x00, 0x40, 0x00]
    );
    assert_eq!(make_test_input(0), Vec::new());
    assert_eq!(make_test_input(3), vec![0, 1, 2]);
}
