use bao::decode::{
    decode, hash_from_encoded, hash_from_outboard, DecodeState, Reader, SliceReader, SliceState,
};
use bao::encode::{encode, extract_slice, extract_slice_outboard, outboard};
use bao::error::{Error, ReadError};
use bao::hash::{self, Finalization, CHUNK_SIZE, HEADER_SIZE, PARENT_SIZE};
use bao::parse::NextRead;
use bao::reading::{SeekFrom, SeekTarget};
use bao::source::Cursor;
use bao::testing::make_test_input;

const MISMATCH: ReadError = ReadError::Decode(Error::HashMismatch);
const TRUNCATED: ReadError = ReadError::Decode(Error::Truncated);
const CUT_OFF: ReadError = ReadError::UnexpectedEof;

#[test]
fn an_encoding_is_header_then_nodes() {
    let input = make_test_input(CHUNK_SIZE + 1);
    let (encoded, root) = encode(&input);
    let left = hash::hash_chunk(&input[..CHUNK_SIZE], Finalization::NotRoot);
    let right = hash::hash_chunk(&input[CHUNK_SIZE..], Finalization::NotRoot);
    let parent = hash::join_hashes(&left, &right);
    assert_eq!(&encoded[..HEADER_SIZE], &[1, 16, 0, 0, 0, 0, 0, 0]);
    assert_eq!(&encoded[HEADER_SIZE..][..PARENT_SIZE], &parent);
    assert_eq!(&encoded[HEADER_SIZE + PARENT_SIZE..], &*input);
    assert_eq!(root, hash::hash_parent(&parent, Finalization::Root));
    let (outboard_encoded, outboard_root) = outboard(&input);
    assert_eq!(outboard_root, root);
    assert_eq!(&*outboard_encoded, &encoded[..HEADER_SIZE + PARENT_SIZE]);
}

#[test]
fn at_once_and_incrementally_give_the_same() {
    for &len in &[0, 1, 4095, 4096, 4097, 50_000] {
        let input = make_test_input(len);
        let (mut encoded, root) = encode(&input);
        // What follows the encoding does not matter.
        encoded.extend_from_slice(b"more");
        assert_eq!(decode(&encoded, &root), Ok(input.clone()));
        let mut output = vec![42];
        let mut reader = Reader::new(Cursor::new(&encoded), &root);
        assert_eq!(reader.read_to_end(&mut output), Ok(()));
        assert_eq!(output[0], 42);
        assert_eq!(&output[1..], &*input);
    }
}

#[test]
fn decoding_tells_short_from_wrong() {
    let input = make_test_input(10_000);
    let (encoded, root) = encode(&input);
    for &end in &[0, 7, 8, 100, encoded.len() - 1] {
        assert_eq!(decode(&encoded[..end], &root), Err(TRUNCATED));
    }
    // A header that announces more than there is.
    let mut long = encoded.clone();
    long[7] = 0xff;
    assert_eq!(decode(&long, &root), Err(TRUNCATED));
    // A header that announces less.
    let mut short = encoded.clone();
    short[0] = short[0].wrapping_sub(1);
    assert_eq!(decode(&short, &root), Err(MISMATCH));
    for i in (HEADER_SIZE..encoded.len()).step_by(97) {
        let mut bad = encoded.clone();
        bad[i] ^= 1;
        assert_eq!(decode(&bad, &root), Err(MISMATCH));
    }
    assert_eq!(decode(&encoded, &hash::hash(b"other")), Err(MISMATCH));
}

#[test]
fn an_empty_encoding_is_verified() {
    let (encoded, root) = encode(b"");
    assert_eq!(encoded, vec![0; HEADER_SIZE]);
    assert_eq!(decode(&encoded, &root), Ok(Vec::new()));
    assert_eq!(decode(&encoded, &hash::hash(b"x")), Err(MISMATCH));
}

#[test]
fn only_verified_bytes_come_before_a_failure() {
    let input = make_test_input(5 * CHUNK_SIZE);
    let (mut encoded, root) = encode(&input);
    // The last byte of the fourth chunk: behind the header, four parents and four chunks less one.
    let bad = HEADER_SIZE + 4 * PARENT_SIZE + 4 * CHUNK_SIZE - 1;
    encoded[bad] ^= 1;
    let mut output = Vec::new();
    let mut reader = Reader::new(Cursor::new(&encoded), &root);
    assert_eq!(reader.read_to_end(&mut output), Err(MISMATCH));
    assert_eq!(&*output, &input[..3 * CHUNK_SIZE]);
    // The failure stays, and hands out nothing.
    let mut buf = [1; CHUNK_SIZE];
    assert!(reader.read(&mut buf).is_err());
    // A seek leads around it, and back to it.
    reader
        .seek(SeekFrom::Start(4 * CHUNK_SIZE as u64))
        .unwrap();
    assert_eq!(reader.read(&mut buf), Ok(CHUNK_SIZE));
    assert_eq!(&buf[..], &input[4 * CHUNK_SIZE..]);
    reader
        .seek(SeekFrom::Start(3 * CHUNK_SIZE as u64))
        .unwrap();
    assert_eq!(reader.read(&mut buf), Err(MISMATCH));
}

#[test]
fn a_wrong_chunk_leaves_zeroes_or_nothing() {
    let input = make_test_input(100);
    let (mut encoded, root) = encode(&input);
    encoded[50] ^= 1;
    // With room for the whole chunk, its place is zeroed.
    let mut buf = [7; 101];
    let mut reader = Reader::new(Cursor::new(&encoded), &root);
    assert_eq!(reader.read(&mut buf), Err(MISMATCH));
    assert_eq!(&buf[..100], &[0; 100][..]);
    assert_eq!(buf[100], 7);
    // With less room, nothing is written.
    let mut buf = [7; 99];
    let mut reader = Reader::new(Cursor::new(&encoded), &root);
    assert_eq!(reader.read(&mut buf), Err(MISMATCH));
    assert_eq!(&buf[..], &[7; 99][..]);
    // A chunk that is cut off is not written either.
    let mut buf = [7; 101];
    let mut reader = Reader::new(Cursor::new(&encoded[..60]), &root);
    assert_eq!(reader.read(&mut buf), Err(CUT_OFF));
    assert_eq!(&buf[..], &[7; 101][..]);
}

#[test]
fn small_reads_are_buffered() {
    let input = make_test_input(9_000);
    let (encoded, root) = encode(&input);
    let mut reader = Reader::new(Cursor::new(&encoded), &root);
    let mut output = Vec::new();
    let mut buf = [0; 1_000];
    let mut counts = Vec::new();
    loop {
        let n = reader.read(&mut buf).unwrap();
        if n == 0 {
            break;
        }
        counts.push(n);
        output.extend_from_slice(&buf[..n]);
    }
    assert_eq!(output, input);
    assert_eq!(counts[..5], [1_000, 1_000, 1_000, 1_000, 96]);
    assert_eq!(reader.read(&mut buf), Ok(0));
    // No room, no bytes.
    let mut reader = Reader::new(Cursor::new(&encoded), &root);
    assert_eq!(reader.read(&mut []), Ok(0));
    assert_eq!(reader.read(&mut buf), Ok(1_000));
    assert_eq!(&buf[..], &input[..1_000]);
}

#[test]
fn filling_a_buffer_takes_enough_content() {
    let input = make_test_input(9_000);
    let (encoded, root) = encode(&input);
    let mut reader = Reader::new(Cursor::new(&encoded), &root);
    let mut buf = vec![0; 5_000];
    assert_eq!(reader.read_exact(&mut buf), Ok(()));
    assert_eq!(&*buf, &input[..5_000]);
    assert_eq!(reader.read_exact(&mut buf), Err(CUT_OFF));
    assert_eq!(&buf[..4_000], &input[5_000..]);
    assert_eq!(reader.read_exact(&mut []), Ok(()));
}

#[test]
fn seeks_return_their_target() {
    let input = make_test_input(20_000);
    let (encoded, root) = encode(&input);
    let mut reader = Reader::new(Cursor::new(&encoded), &root);
    let mut output = Vec::new();
    assert_eq!(reader.seek(SeekFrom::Start(30_000)), Ok(30_000));
    assert_eq!(reader.read_to_end(&mut output), Ok(()));
    assert_eq!(output, Vec::new());
    assert_eq!(reader.seek(SeekFrom::End(-1)), Ok(19_999));
    assert_eq!(reader.read_to_end(&mut output), Ok(()));
    assert_eq!(&*output, &input[19_999..]);
    assert_eq!(reader.seek(SeekFrom::End(5)), Ok(20_005));
    assert_eq!(
        reader.seek(SeekFrom::End(-20_001)),
        Err(ReadError::SeekBeforeBeginning)
    );
    assert_eq!(reader.seek(SeekFrom::Start(10_000)), Ok(10_000));
    assert_eq!(reader.seek(SeekFrom::Current(-1)), Ok(9_999));
    assert_eq!(
        reader.seek(SeekFrom::Current(-10_000)),
        Err(ReadError::SeekBeforeBeginning)
    );
    assert_eq!(reader.seek(SeekFrom::Start(u64::MAX)), Ok(u64::MAX));
    let mut byte = [0];
    assert_eq!(reader.seek(SeekFrom::Start(7_777)), Ok(7_777));
    assert_eq!(reader.read(&mut byte), Ok(1));
    assert_eq!(byte[0], input[7_777]);
    // The bytes that were buffered behind that one were not handed out, so they do not count.
    assert_eq!(reader.seek(SeekFrom::Current(0)), Ok(7_778));
    assert_eq!(reader.read(&mut byte), Ok(1));
    assert_eq!(byte[0], input[7_778]);
    assert_eq!(reader.seek(SeekFrom::Current(-2)), Ok(7_777));
    assert_eq!(reader.read(&mut byte), Ok(1));
    assert_eq!(byte[0], input[7_777]);
}

#[test]
fn seeks_count_from_what_was_handed_out() {
    let (encoded, root) = encode(b"some input");
    let mut reader = Reader::new(Cursor::new(&encoded), &root);
    assert_eq!(reader.read(&mut [0]), Ok(1));
    assert_eq!(reader.seek(SeekFrom::Current(0)), Ok(1));
    let mut output = Vec::new();
    assert_eq!(reader.read_to_end(&mut output), Ok(()));
    assert_eq!(output, b"ome input");
}

#[test]
fn the_largest_offset_from_the_end_is_a_target() {
    let (encoded, root) = encode(&[5; 10]);
    let mut reader = Reader::new(Cursor::new(&encoded), &root);
    assert_eq!(
        reader.seek(SeekFrom::End(i64::MAX)),
        Ok(i64::MAX as u64 + 10)
    );
    assert_eq!(reader.read(&mut [0]), Ok(0));
}

#[test]
fn outboard_readers_seek_both_sources() {
    let input = make_test_input(40_000);
    let (outboard_encoded, root) = outboard(&input);
    let mut reader =
        Reader::new_outboard(Cursor::new(&input), Cursor::new(&outboard_encoded), &root);
    for &position in &[35_000, 3, 12_288, 39_999, 0, 40_000] {
        let mut output = Vec::new();
        assert_eq!(
            reader.seek(SeekFrom::Start(position as u64)),
            Ok(position as u64)
        );
        assert_eq!(reader.read_to_end(&mut output), Ok(()));
        assert_eq!(&*output, &input[position..]);
    }
    let mut bad_input = input.clone();
    bad_input[20_000] ^= 1;
    let mut output = Vec::new();
    let mut reader = Reader::new_outboard(
        Cursor::new(&bad_input),
        Cursor::new(&outboard_encoded),
        &root,
    );
    assert_eq!(reader.read_to_end(&mut output), Err(MISMATCH));
    assert_eq!(&*output, &input[..4 * CHUNK_SIZE]);
    let mut bad_outboard = outboard_encoded.clone();
    bad_outboard[HEADER_SIZE] ^= 1;
    let mut output = Vec::new();
    let mut reader = Reader::new_outboard(Cursor::new(&input), Cursor::new(&bad_outboard), &root);
    assert_eq!(reader.read_to_end(&mut output), Err(MISMATCH));
    assert_eq!(output, Vec::new());
}

#[test]
fn clones_go_their_own_ways() {
    let input = make_test_input(10_000);
    let (encoded, root) = encode(&input);
    let mut reader = Reader::new(Cursor::new(&encoded), &root);
    let mut buf = [0; 10];
    assert_eq!(reader.read(&mut buf), Ok(10));
    let mut copy = reader.clone();
    let mut output = Vec::new();
    let mut other_output = Vec::new();
    assert_eq!(reader.read_to_end(&mut output), Ok(()));
    assert_eq!(copy.read_to_end(&mut other_output), Ok(()));
    assert_eq!(&*output, &input[10..]);
    assert_eq!(output, other_output);
}

#[test]
fn the_root_hash_takes_the_root_node_alone() {
    let input = make_test_input(CHUNK_SIZE + 1);
    let (encoded, root) = encode(&input);
    let mut cursor = Cursor::new(&encoded[..HEADER_SIZE + PARENT_SIZE]);
    assert_eq!(hash_from_encoded(&mut cursor), Ok(root));
    assert_eq!(cursor.position(), 72);
    let mut cursor = Cursor::new(&encoded[..HEADER_SIZE + PARENT_SIZE - 1]);
    assert_eq!(hash_from_encoded(&mut cursor), Err(CUT_OFF));
    assert_eq!(hash_from_encoded(&mut Cursor::new(&[0; 7])), Err(CUT_OFF));
    let (outboard_encoded, outboard_root) = outboard(b"short");
    let mut content = Cursor::new(b"short and more");
    let mut nodes = Cursor::new(&outboard_encoded);
    assert_eq!(
        hash_from_outboard(&mut content, &mut nodes),
        Ok(outboard_root)
    );
    assert_eq!(content.position(), 5);
    assert_eq!(nodes.position(), 8);
    assert_eq!(
        hash_from_outboard(&mut Cursor::new(b"shor"), &mut Cursor::new(&outboard_encoded)),
        Err(CUT_OFF)
    );
    assert_eq!(
        hash_from_outboard(&mut Cursor::new(b"short"), &mut Cursor::new(b"")),
        Err(CUT_OFF)
    );
}

#[test]
fn slices_hold_what_they_need() {
    // Three chunks: the header, the root, and the parent of the first two chunks.
    let input = make_test_input(3 * CHUNK_SIZE);
    let (encoded, root) = encode(&input);
    let middle = extract_slice(&encoded, 5_000, 1).unwrap();
    let mut expected = encoded[..HEADER_SIZE + 2 * PARENT_SIZE].to_vec();
    expected.extend_from_slice(&input[CHUNK_SIZE..2 * CHUNK_SIZE]);
    assert_eq!(middle, expected);
    // An empty slice is that of one byte, and one past the end is that of the last chunk.
    assert_eq!(extract_slice(&encoded, 5_000, 0).unwrap(), middle);
    let mut last = encoded[..HEADER_SIZE + PARENT_SIZE].to_vec();
    last.extend_from_slice(&input[2 * CHUNK_SIZE..]);
    assert_eq!(extract_slice(&encoded, 1_000_000, 3).unwrap(), last);
    // Nothing is read of an empty slice, so nothing fails.
    let mut output = Vec::new();
    let mut reader = SliceReader::new(Cursor::new(b""), &root, 5_000, 0);
    assert_eq!(reader.read_to_end(&mut output), Ok(()));
    // Past the end, the last chunk is verified.
    let mut reader = SliceReader::new(Cursor::new(&last), &root, 1_000_000, 3);
    assert_eq!(reader.read_to_end(&mut output), Ok(()));
    assert_eq!(output, Vec::new());
    *last.last_mut().unwrap() ^= 1;
    let mut reader = SliceReader::new(Cursor::new(&last), &root, 1_000_000, 3);
    assert_eq!(reader.read_to_end(&mut output), Err(MISMATCH));
}

#[test]
fn slices_are_read_in_pieces() {
    let input = make_test_input(30_000);
    let (encoded, root) = encode(&input);
    let slice = extract_slice(&encoded, 4_000, 10_000).unwrap();
    let mut reader = SliceReader::new(Cursor::new(&slice), &root, 4_000, 10_000);
    let mut output = Vec::new();
    let mut buf = [0; 777];
    loop {
        let n = reader.read(&mut buf).unwrap();
        if n == 0 {
            break;
        }
        output.extend_from_slice(&buf[..n]);
    }
    assert_eq!(&*output, &input[4_000..14_000]);
    // A slice that is cut off fails, after what could be verified.
    let mut output = Vec::new();
    let mut reader = SliceReader::new(Cursor::new(&slice[..9_000]), &root, 4_000, 10_000);
    assert_eq!(reader.read_to_end(&mut output), Err(CUT_OFF));
    assert_eq!(&*output, &input[4_000..8_192]);
}

#[test]
fn slices_need_all_their_nodes() {
    let input = make_test_input(10_000);
    let (encoded, _) = encode(&input);
    let (outboard_encoded, _) = outboard(&input);
    assert_eq!(extract_slice(&encoded[..7], 0, 1), Err(CUT_OFF));
    assert_eq!(extract_slice(&encoded[..100], 0, 1), Err(CUT_OFF));
    assert_eq!(
        extract_slice(&encoded[..encoded.len() - 1], 9_999, 1),
        Err(CUT_OFF)
    );
    assert_eq!(
        extract_slice(&encoded[..encoded.len() - 1], 0, 1),
        extract_slice(&encoded, 0, 1)
    );
    assert_eq!(
        extract_slice_outboard(&input[..5_000], &outboard_encoded, 9_000, 1),
        Err(CUT_OFF)
    );
    assert_eq!(
        extract_slice_outboard(&input, &outboard_encoded[..71], 0, 1),
        Err(CUT_OFF)
    );
}

#[test]
fn a_slice_from_the_first_chunk_to_the_last_is_the_encoding() {
    let input = make_test_input(20_000);
    let (encoded, _) = encode(&input);
    assert_eq!(extract_slice(&encoded, 4_095, 12_290).unwrap(), encoded);
    assert_ne!(extract_slice(&encoded, 4_096, 12_289).unwrap(), encoded);
    assert_ne!(extract_slice(&encoded, 4_095, 12_289).unwrap(), encoded);
}

#[test]
fn a_decoder_can_be_fed_by_hand() {
    let input = make_test_input(CHUNK_SIZE + 100);
    let (encoded, root) = encode(&input);
    let mut cursor = Cursor::new(&encoded);
    let mut state = DecodeState::new(&root);
    let mut output = Vec::new();
    let mut buf = [0; 60];
    loop {
        match state.read_next() {
            NextRead::Header => state.feed_header(&cursor.read_header().unwrap()),
            NextRead::Parent => state.feed_parent(&cursor.read_parent().unwrap()).unwrap(),
            NextRead::Chunk {
                size,
                finalization,
                skip,
            } => {
                let chunk = cursor.read_exact(size).unwrap();
                let mut n = state.feed_chunk(chunk, finalization, skip, &mut buf).unwrap();
                assert_eq!(n + state.buf_len(), size);
                let (start, end) = state.buf_range();
                assert_eq!((start, end), (60, size));
                while n > 0 {
                    output.extend_from_slice(&buf[..n]);
                    assert_eq!(state.adjusted_content_position(), output.len() as u64);
                    n = state.take_bytes(&mut buf);
                }
            }
            NextRead::Done => break,
        }
    }
    assert_eq!(output, input);
    assert_eq!(state.content_position(), input.len() as u64);
    assert_eq!(state.state().stack_size(), 0);
}

#[test]
fn a_slice_decoder_can_be_fed_by_hand() {
    let input = make_test_input(3 * CHUNK_SIZE);
    let (encoded, root) = encode(&input);
    let slice = extract_slice(&encoded, 5_000, 100).unwrap();
    let mut cursor = Cursor::new(&slice);
    let mut state = SliceState::new(&root, 5_000, 100);
    let mut output = Vec::new();
    let mut reads = Vec::new();
    let mut buf = [0; 60];
    'slice: loop {
        if let Some(n) = state.begin_read(&mut buf) {
            if n == 0 {
                break;
            }
            output.extend_from_slice(&buf[..n]);
            continue;
        }
        loop {
            let next = state.read_next();
            reads.push(next);
            match next {
                NextRead::Header => state.feed_header(&cursor.read_header().unwrap()),
                NextRead::Parent => state.feed_parent(&cursor.read_parent().unwrap()).unwrap(),
                NextRead::Chunk {
                    size,
                    finalization,
                    skip,
                } => {
                    let chunk = cursor.read_exact(size).unwrap();
                    let fed = state.feed_chunk(chunk, finalization, skip, &mut buf);
                    if let Some(n) = fed.unwrap() {
                        output.extend_from_slice(&buf[..n]);
                        continue 'slice;
                    }
                }
                NextRead::Done => break 'slice,
            }
        }
    }
    assert_eq!(&*output, &input[5_000..5_100]);
    let chunk = NextRead::Chunk {
        size: CHUNK_SIZE,
        finalization: Finalization::NotRoot,
        skip: 904,
    };
    assert_eq!(
        reads,
        vec![NextRead::Header, NextRead::Parent, NextRead::Parent, chunk]
    );
    assert_eq!(cursor.position(), slice.len() as u64);
}

#[test]
fn what_is_cut_off_gives_a_part_and_then_fails() {
    let input = make_test_input(3 * CHUNK_SIZE + 5);
    let (encoded, root) = encode(&input);
    let (outboard_encoded, _) = outboard(&input);
    for &end in &[0, 7, 8, 71, 200, 4_300, 8_400, encoded.len() - 1] {
        for &room in &[1, 1_000, CHUNK_SIZE, 3 * CHUNK_SIZE] {
            let mut reader = Reader::new(Cursor::new(&encoded[..end]), &root);
            let mut output = Vec::new();
            let mut buf = vec![0; room];
            let error = loop {
                match reader.read(&mut buf) {
                    Ok(n) => {
                        assert!(n > 0);
                        output.extend_from_slice(&buf[..n]);
                    }
                    Err(error) => break error,
                }
            };
            assert_eq!(error, CUT_OFF);
            assert_eq!(&*output, &input[..output.len()]);
            assert!(output.len() < input.len());
        }
    }
    // The same goes for either source of an outboard encoding.
    let mut output = Vec::new();
    let mut reader = Reader::new_outboard(
        Cursor::new(&input[..10_000]),
        Cursor::new(&outboard_encoded),
        &root,
    );
    assert_eq!(reader.read_to_end(&mut output), Err(CUT_OFF));
    assert_eq!(&*output, &input[..2 * CHUNK_SIZE]);
    let mut output = Vec::new();
    let mut reader = Reader::new_outboard(
        Cursor::new(&input),
        Cursor::new(&outboard_encoded[..HEADER_SIZE + PARENT_SIZE]),
        &root,
    );
    assert_eq!(reader.read_to_end(&mut output), Err(CUT_OFF));
    assert_eq!(output, Vec::new());
}

#[test]
fn a_damaged_final_chunk_is_met_at_the_end_alone() {
    let input = make_test_input(4 * CHUNK_SIZE);
    let (mut encoded, root) = encode(&input);
    *encoded.last_mut().unwrap() ^= 1;
    let mut reader = Reader::new(Cursor::new(&encoded), &root);
    let mut byte = [0];
    for &position in &[0, 5_000, 12_287, 3] {
        assert_eq!(
            reader.seek(SeekFrom::Start(position)),
            Ok(position)
        );
        assert_eq!(reader.read(&mut byte), Ok(1));
        assert_eq!(byte[0], input[position as usize]);
    }
    assert_eq!(
        reader.seek(SeekFrom::Start(input.len() as u64)),
        Err(MISMATCH)
    );
    assert_eq!(reader.seek(SeekFrom::End(0)), Err(MISMATCH));
    // A seek to a place in that chunk takes none of it yet, but the read does.
    assert_eq!(reader.seek(SeekFrom::Start(12_288)), Ok(12_288));
    assert_eq!(reader.read(&mut byte), Err(MISMATCH));
    assert_eq!(reader.seek(SeekFrom::Start(0)), Ok(0));
    assert_eq!(reader.read(&mut byte), Ok(1));
}

#[test]
fn every_byte_comes_from_a_chunk_of_the_content() {
    let input = make_test_input(3 * CHUNK_SIZE);
    let (encoded, root) = encode(&input);
    for &len in &[0, 1, 4_096, 8_192, 8_193, 12_287, 12_289, 20_000, u64::MAX] {
        let mut other = encoded.clone();
        other[..HEADER_SIZE].copy_from_slice(&hash::encode_len(len));
        for &position in &[0, 100, 4_096, 8_191, 8_192, 12_000, 1 << 40] {
            let mut reader = Reader::new(Cursor::new(&other), &root);
            let mut output = Vec::new();
            if reader.seek(SeekFrom::Start(position)).is_ok() {
                let _ = reader.read_to_end(&mut output);
            }
            for piece in output.chunks(16) {
                assert!(input.windows(piece.len()).any(|window| window == piece));
            }
        }
    }
}

#[test]
fn any_changed_byte_of_a_slice_is_a_wrong_hash() {
    let input = make_test_input(3 * CHUNK_SIZE);
    let (encoded, root) = encode(&input);
    for &(start, len) in &[(5_000, 2_000), (0, 1), (9_000, 9_000), (1 << 40, 7)] {
        let slice = extract_slice(&encoded, start, len).unwrap();
        for i in (HEADER_SIZE..slice.len()).step_by(61) {
            let mut bad = slice.clone();
            bad[i] ^= 0x10;
            let mut output = Vec::new();
            let mut reader = SliceReader::new(Cursor::new(&bad), &root, start, len);
            assert_eq!(reader.read_to_end(&mut output), Err(MISMATCH));
            let from = (start as usize).min(input.len());
            assert_eq!(&*output, &input[from..from + output.len()]);
        }
    }
}

#[test]
fn a_slice_cut_off_anywhere_is_too_short() {
    let input = make_test_input(3 * CHUNK_SIZE);
    let (encoded, root) = encode(&input);
    for &(start, len) in &[(5_000, 2_000), (0, 1), (9_000, 9_000), (1 << 40, 7)] {
        let slice = extract_slice(&encoded, start, len).unwrap();
        let from = (start as usize).min(input.len());
        let to = (from + len as usize).min(input.len());
        let mut ends: Vec<usize> = (0..slice.len()).step_by(61).collect();
        ends.push(slice.len() - 1);
        for &end in &ends {
            let mut output = Vec::new();
            let mut reader = SliceReader::new(Cursor::new(&slice[..end]), &root, start, len);
            assert_eq!(reader.read_to_end(&mut output), Err(CUT_OFF));
            assert_eq!(&*output, &input[from..from + output.len()]);
            assert!(from + output.len() < to || from == to);
        }
    }
}

#[test]
fn damage_to_a_chunk_is_met_in_that_chunk_alone() {
    let input = make_test_input(4 * CHUNK_SIZE + 1);
    let (encoded, root) = encode(&input);
    let (outboard_encoded, _) = outboard(&input);
    // The second chunk, in the content and in the combined encoding.
    let changed = CHUNK_SIZE + 77;
    let mut stored = input.clone();
    stored[changed] ^= 1;
    let mut combined = encoded.clone();
    combined[HEADER_SIZE + 3 * PARENT_SIZE + changed] ^= 1;
    let mut readers = vec![
        Reader::new(Cursor::new(&combined), &root),
        Reader::new_outboard(
            Cursor::new(&stored),
            Cursor::new(&outboard_encoded),
            &root,
        ),
    ];
    for reader in &mut readers {
        let mut before = [0; CHUNK_SIZE];
        assert_eq!(reader.read_exact(&mut before), Ok(()));
        assert_eq!(&before[..], &input[..CHUNK_SIZE]);
        let mut byte = [0];
        assert_eq!(reader.read(&mut byte), Err(MISMATCH));
        for &behind in &[2 * CHUNK_SIZE, 3 * CHUNK_SIZE + 5, 4 * CHUNK_SIZE] {
            assert_eq!(
                reader.seek(SeekFrom::Start(behind as u64)),
                Ok(behind as u64)
            );
            let mut output = Vec::new();
            assert_eq!(reader.read_to_end(&mut output), Ok(()));
            assert_eq!(&*output, &input[behind..]);
        }
        assert_eq!(
            reader.seek(SeekFrom::Start(changed as u64)),
            Ok(changed as u64)
        );
        assert_eq!(reader.read(&mut byte), Err(MISMATCH));
    }
}

// Takes the steps of a seek, and returns where it led.
fn seek_by_hand(
    state: &mut DecodeState,
    cursor: &mut Cursor,
    position: SeekFrom,
) -> Result<u64, ReadError> {
    let mut target = state.begin_seek(position)?;
    loop {
        let bookkeeping = state.next_seek(&mut target)?;
        if let Some(encoding_position) = bookkeeping.underlying_seek() {
            cursor.seek(encoding_position as u64);
        }
        match state.seek_bookkeeping_done(bookkeeping) {
            NextRead::Header => state.feed_header(&cursor.read_header()?),
            NextRead::Parent => state.feed_parent(&cursor.read_parent()?)?,
            NextRead::Chunk {
                size,
                finalization,
                skip,
            } => {
                assert_eq!(skip, size);
                let chunk = cursor.read_exact(size)?;
                assert_eq!(state.feed_chunk(chunk, finalization, skip, &mut []), Ok(0));
            }
            NextRead::Done => return Ok(target.offset().unwrap()),
        }
    }
}

#[test]
fn a_seek_can_be_fed_by_hand() {
    let input = make_test_input(3 * CHUNK_SIZE + 9);
    let (encoded, root) = encode(&input);
    let len = input.len() as u64;
    let mut cursor = Cursor::new(&encoded);
    let mut state = DecodeState::new(&root);
    // Where a seek leads is known at once, unless it counts from the end.
    let target = state.begin_seek(SeekFrom::Start(7)).unwrap();
    assert_eq!(target, SeekTarget::To(7));
    assert_eq!(target.offset(), Some(7));
    let target = state.begin_seek(SeekFrom::End(-7)).unwrap();
    assert_eq!(target, SeekTarget::FromEnd(-7));
    assert_eq!(target.offset(), None);
    assert_eq!(
        state.begin_seek(SeekFrom::Current(-1)),
        Err(ReadError::SeekBeforeBeginning)
    );
    for &(position, expected) in &[
        (SeekFrom::End(-7), len - 7),
        (SeekFrom::Start(5_000), 5_000),
        (SeekFrom::Current(-1_000), 4_000),
        (SeekFrom::End(10), len + 10),
        (SeekFrom::Current(-1), len - 1),
        (SeekFrom::Start(4_090), 4_090),
    ] {
        assert_eq!(seek_by_hand(&mut state, &mut cursor, position), Ok(expected));
        assert_eq!(state.content_position(), expected.min(len));
        let mut reader = Reader::new(Cursor::new(&encoded), &root);
        assert_eq!(reader.seek(SeekFrom::Start(expected)), Ok(expected));
    }
    // The steps leave nothing to hand out, a chunk does.
    let mut buf = [0; 4];
    assert_eq!(state.begin_read(&mut buf), None);
    while !matches!(state.read_next(), NextRead::Chunk { .. }) {
        state.feed_parent(&cursor.read_parent().unwrap()).unwrap();
    }
    if let NextRead::Chunk {
        size,
        finalization,
        skip,
    } = state.read_next()
    {
        let chunk = cursor.read_exact(size).unwrap();
        assert_eq!(state.feed_chunk(chunk, finalization, skip, &mut buf), Ok(4));
        assert_eq!(&buf, &input[4_090..4_094]);
    }
    assert_eq!(state.begin_read(&mut []), Some(0));
    assert_eq!(state.begin_read(&mut buf), Some(2));
    assert_eq!(&buf[..2], &input[4_094..4_096]);
    assert_eq!(state.begin_read(&mut buf), None);
    // A target before the beginning is found out once the length is verified.
    assert_eq!(
        seek_by_hand(&mut state, &mut cursor, SeekFrom::End(-(len as i64) - 1)),
        Err(ReadError::SeekBeforeBeginning)
    );
    assert_eq!(
        state.begin_seek(SeekFrom::Current(i64::MAX)),
        Ok(SeekTarget::To((1 << 63) + 4_095))
    );
}

#[test]
fn any_changed_byte_of_an_encoding_is_a_wrong_hash() {
    for &len in &[0, 1, CHUNK_SIZE, 3 * CHUNK_SIZE + 5] {
        let input = make_test_input(len);
        let (encoded, root) = encode(&input);
        for i in (HEADER_SIZE..encoded.len()).step_by(61) {
            let mut bad = encoded.clone();
            bad[i] ^= 0x04;
            let mut output = Vec::new();
            let mut reader = Reader::new(Cursor::new(&bad), &root);
            assert_eq!(reader.read_to_end(&mut output), Err(MISMATCH));
            assert_eq!(&*output, &input[..output.len()]);
            assert!(output.len() < input.len());
        }
    }
}
