use bao::decode::{decode, hash_from_encoded, hash_from_outboard, Reader, SliceReader};
use bao::encode;
use bao::error::ErrorKind;
use bao::hash::{self, CHUNK_SIZE, HEADER_SIZE, PARENT_SIZE};
use bao::reading::SeekFrom;
use bao::source::Cursor;
use bao::testing::make_test_input;
use bao::tree::{count_chunks, left_len};
use rand::{Rng, SeedableRng};
use rand_chacha::ChaChaRng;
use std::cmp;

const TEST_CASES: &[usize] = &[
    0,
    1,
    10,
    CHUNK_SIZE - 1,
    CHUNK_SIZE,
    CHUNK_SIZE + 1,
    2 * CHUNK_SIZE - 1,
    2 * CHUNK_SIZE,
    2 * CHUNK_SIZE + 1,
    3 * CHUNK_SIZE - 1,
    3 * CHUNK_SIZE,
    3 * CHUNK_SIZE + 1,
    4 * CHUNK_SIZE - 1,
    4 * CHUNK_SIZE,
    4 * CHUNK_SIZE + 1,
    8 * CHUNK_SIZE - 1,
    8 * CHUNK_SIZE,
    8 * CHUNK_SIZE + 1,
    16 * CHUNK_SIZE - 1,
    16 * CHUNK_SIZE,
    16 * CHUNK_SIZE + 1,
];

// How many parents stand directly before a chunk: those of the subtrees that start with it.
fn pre_order_parent_nodes(chunk: u64, content_len: u64) -> u64 {
    let target = chunk * CHUNK_SIZE as u64;
    let mut start = 0;
    let mut len = content_len;
    let mut count = 0;
    while len > CHUNK_SIZE as u64 {
        if start == target {
            count += 1;
        }
        let left = left_len(len);
        if target < start + left {
            len = left;
        } else {
            start += left;
            len -= left;
        }
    }
    count
}

// Reads up to `limit` bytes.
fn read_up_to(reader: &mut Reader, limit: usize) -> Vec<u8> {
    let mut output = Vec::new();
    let mut buf = [0; CHUNK_SIZE];
    while output.len() < limit {
        let room = cmp::min(limit - output.len(), buf.len());
        let n = reader.read(&mut buf[..room]).expect("decoder error");
        if n == 0 {
            break;
        }
        output.extend_from_slice(&buf[..n]);
    }
    output
}

#[test]
fn test_decode() {
    for &case in TEST_CASES {
        println!("case {}", case);
        let input = make_test_input(case);
        let (encoded, hash) = { encode::encode(&input) };
        let output = decode(&encoded, &hash).unwrap();
        assert_eq!(input, output);
        assert_eq!(output.len(), output.capacity());
    }
}

#[test]
fn test_decode_outboard() {
    for &case in TEST_CASES {
        println!("case {}", case);
        let input = make_test_input(case);
        let (outboard, hash) = { encode::outboard(&input) };
        let mut output = Vec::new();
        let mut reader =
            Reader::new_outboard(Cursor::new(&input[..]), Cursor::new(&outboard[..]), &hash);
        reader.read_to_end(&mut output).unwrap();
        assert_eq!(input, output);
    }
}

#[test]
fn test_decoders_corrupted() {
    for &case in TEST_CASES {
        println!("case {}", case);
        let input = make_test_input(case);
        let (encoded, hash) = encode::encode(&input);
        // Don't tweak the header in this test.
        let mut tweaks = Vec::new();
        if encoded.len() > HEADER_SIZE {
            tweaks.push(HEADER_SIZE);
        }
        if encoded.len() > HEADER_SIZE + PARENT_SIZE {
            tweaks.push(HEADER_SIZE + PARENT_SIZE);
        }
        if encoded.len() > CHUNK_SIZE {
            tweaks.push(CHUNK_SIZE);
        }
        for tweak in tweaks {
            println!("tweak {}", tweak);
            let mut bad_encoded = encoded.clone();
            bad_encoded[tweak] ^= 1;

            let err = decode(&bad_encoded, &hash).unwrap_err();
            assert_eq!(err.kind(), ErrorKind::InvalidData);
        }
    }
}

#[test]
fn test_seek() {
    for &input_len in TEST_CASES {
        println!();
        println!("input_len {}", input_len);
        let input = make_test_input(input_len);
        let (encoded, hash) = encode::encode(&input);
        for &seek in TEST_CASES {
            println!("seek {}", seek);
            // Test all three types of seeking.
            let mut seek_froms = Vec::new();
            seek_froms.push(SeekFrom::Start(seek as u64));
            seek_froms.push(SeekFrom::End(seek as i64 - input_len as i64));
            seek_froms.push(SeekFrom::Current(seek as i64));
            for seek_from in seek_froms {
                println!("seek_from {:?}", seek_from);
                let mut decoder = Reader::new(Cursor::new(&encoded), &hash);
                let mut output = Vec::new();
                decoder.seek(seek_from).expect("seek error");
                decoder.read_to_end(&mut output).expect("decoder error");
                let input_start = cmp::min(seek, input.len());
                assert_eq!(
                    &input[input_start..],
                    &output[..],
                    "output doesn't match input"
                );
            }
        }
    }
}

#[test]
fn test_repeated_random_seeks() {
    // A chunk number like this (37) with consecutive zeroes should exercise some of the more
    // interesting geometry cases.
    let input_len = 0b100101 * CHUNK_SIZE;
    println!("\n\ninput_len {}", input_len);
    let mut prng = ChaChaRng::from_seed([0; 32]);
    let input = make_test_input(input_len);
    let (encoded, hash) = encode::encode(&input);
    let mut decoder = Reader::new(Cursor::new(&encoded), &hash);
    // Do a thousand random seeks and chunk-sized reads.
    for _ in 0..1000 {
        let seek = prng.gen_range(0, input_len + 1);
        println!("\nseek {}", seek);
        decoder
            .seek(SeekFrom::Start(seek as u64))
            .expect("seek error");
        // Clone the decoder before reading, to test repeated seeks on the same decoder.
        let output = read_up_to(&mut decoder.clone(), CHUNK_SIZE);
        let input_start = cmp::min(seek, input_len);
        let input_end = cmp::min(input_start + CHUNK_SIZE, input_len);
        assert_eq!(
            &input[input_start..input_end],
            &output[..],
            "output doesn't match input"
        );
    }
}

#[test]
fn test_invalid_zero_length() {
    // There are different ways of structuring a decoder, and many of them are vulnerable to a
    // mistake where as soon as the decoder reads zero length, it believes it's finished. But
    // it's not finished, because it hasn't verified the hash! There must be something to
    // distinguish the state "just decoded the zero length" from the state "verified the hash
    // of the empty root node", and a decoder must not return EOF before the latter.

    let (zero_encoded, zero_hash) = encode::encode(b"");
    let one_hash = hash::hash(b"x");

    // Decoding the empty tree with the right hash should succeed.
    let mut output = Vec::new();
    let mut decoder = Reader::new(Cursor::new(&zero_encoded), &zero_hash);
    decoder.read_to_end(&mut output).unwrap();
    assert_eq!(&output, &[]);

    // Decoding the empty tree with any other hash should fail.
    let mut output = Vec::new();
    let mut decoder = Reader::new(Cursor::new(&zero_encoded), &one_hash);
    let result = decoder.read_to_end(&mut output);
    assert!(result.is_err(), "a bad hash is supposed to fail!");
    assert_eq!(result.unwrap_err().kind(), ErrorKind::InvalidData);
}

#[test]
fn test_seeking_around_invalid_data() {
    for &case in TEST_CASES {
        // Skip the cases with only one or two chunks, so we have valid
        // reads before and after the tweak.
        if case <= 2 * CHUNK_SIZE {
            continue;
        }

        println!("\ncase {}", case);
        let input = make_test_input(case);
        let (mut encoded, hash) = encode::encode(&input);
        println!("encoded len {}", encoded.len());

        // Tweak a bit at the start of a chunk about halfway through. Loop
        // over prior parent nodes and chunks to figure out where the
        // target chunk actually starts.
        let tweak_chunk = count_chunks(case as u64) / 2;
        let tweak_position = tweak_chunk as usize * CHUNK_SIZE;
        println!("tweak position {}", tweak_position);
        let mut tweak_encoded_offset = HEADER_SIZE;
        for chunk in 0..tweak_chunk {
            tweak_encoded_offset +=
                pre_order_parent_nodes(chunk, case as u64) as usize * PARENT_SIZE;
            tweak_encoded_offset += CHUNK_SIZE;
        }
        tweak_encoded_offset +=
            pre_order_parent_nodes(tweak_chunk, case as u64) as usize * PARENT_SIZE;
        println!("tweak encoded offset {}", tweak_encoded_offset);
        encoded[tweak_encoded_offset] ^= 1;

        // Read all the bits up to that tweak. Because it's right after a chunk boundary, the
        // read should succeed.
        let mut decoder = Reader::new(Cursor::new(&encoded), &hash);
        let mut output = vec![0; tweak_position as usize];
        decoder.read_exact(&mut output).unwrap();
        assert_eq!(&input[..tweak_position], &*output);

        // Further reads at this point should fail.
        let mut buf = [0; CHUNK_SIZE];
        let res = decoder.read(&mut buf);
        assert_eq!(res.unwrap_err().kind(), ErrorKind::InvalidData);

        // But now if we seek past the bad chunk, things should succeed again.
        let new_start = tweak_position + CHUNK_SIZE;
        decoder.seek(SeekFrom::Start(new_start as u64)).unwrap();
        let mut output = Vec::new();
        decoder.read_to_end(&mut output).unwrap();
        assert_eq!(&input[new_start..], &*output);
    }
}

#[test]
fn test_invalid_eof_seek() {
    // The decoder must validate the final chunk as part of seeking to or
    // past EOF.
    for &case in TEST_CASES {
        let input = make_test_input(case);
        let (encoded, hash) = encode::encode(&input);

        // Seeking to EOF should succeed with the right hash.
        let mut output = Vec::new();
        let mut decoder = Reader::new(Cursor::new(&encoded), &hash);
        decoder.seek(SeekFrom::Start(case as u64)).unwrap();
        decoder.read_to_end(&mut output).unwrap();
        assert_eq!(&output, &[]);

        // Seeking to EOF should fail if the root hash is wrong.
        let mut bad_hash_bytes = *hash.as_bytes();
        bad_hash_bytes[0] ^= 1;
        let bad_hash = hash::Hash::new(&bad_hash_bytes);
        let mut decoder = Reader::new(Cursor::new(&encoded), &bad_hash);
        let result = decoder.seek(SeekFrom::Start(case as u64));
        assert!(result.is_err(), "a bad hash is supposed to fail!");
        assert_eq!(result.unwrap_err().kind(), ErrorKind::InvalidData);

        // It should also fail if the final chunk has been corrupted.
        if case > 0 {
            let mut bad_encoded = encoded.clone();
            *bad_encoded.last_mut().unwrap() ^= 1;
            let mut decoder = Reader::new(Cursor::new(&bad_encoded), &hash);
            let result = decoder.seek(SeekFrom::Start(case as u64));
            assert!(result.is_err(), "a bad hash is supposed to fail!");
            assert_eq!(result.unwrap_err().kind(), ErrorKind::InvalidData);
        }
    }
}

#[test]
fn test_hash_from_encoded() {
    for &case in TEST_CASES {
        println!("case {}", case);
        let input = make_test_input(case);
        let (encoded, hash) = encode::encode(&input);
        let inferred_hash = hash_from_encoded(&mut Cursor::new(&*encoded)).unwrap();
        assert_eq!(hash, inferred_hash, "hashes don't match");
    }
}

#[test]
fn test_hash_from_outboard() {
    for &case in TEST_CASES {
        println!("case {}", case);
        let input = make_test_input(case);
        let (outboard, hash) = encode::outboard(&input);
        let inferred_hash =
            hash_from_outboard(&mut Cursor::new(&input), &mut Cursor::new(&outboard)).unwrap();
        assert_eq!(hash, inferred_hash, "hashes don't match");
    }
}

#[test]
fn test_slices() {
    for &case in TEST_CASES {
        let input = make_test_input(case);
        let (encoded, hash) = encode::encode(&input);
        // Also make an outboard encoding, to test that case.
        let (outboard, outboard_hash) = encode::outboard(&input);
        assert_eq!(hash, outboard_hash);
        for &slice_start in TEST_CASES {
            let expected_start = cmp::min(input.len(), slice_start);
            let slice_lens = [0, 1, 2, CHUNK_SIZE - 1, CHUNK_SIZE, CHUNK_SIZE + 1];
            for &slice_len in slice_lens.iter() {
                println!("\ncase {} start {} len {}", case, slice_start, slice_len);
                let expected_end = cmp::min(input.len(), slice_start + slice_len);
                let expected_output = &input[expected_start..expected_end];
                let slice =
                    encode::extract_slice(&encoded, slice_start as u64, slice_len as u64).unwrap();
                // Make sure the outboard extractor produces the same output.
                let slice_from_outboard = encode::extract_slice_outboard(
                    &input,
                    &outboard,
                    slice_start as u64,
                    slice_len as u64,
                )
                .unwrap();
                assert_eq!(slice, slice_from_outboard);
                let mut output = Vec::new();
                let mut reader = SliceReader::new(
                    Cursor::new(&*slice),
                    &hash,
                    slice_start as u64,
                    slice_len as u64,
                );
                reader.read_to_end(&mut output).unwrap();
                assert_eq!(expected_output, &*output);
            }
        }
    }
}

#[test]
fn test_corrupted_slice() {
    let input = make_test_input(20_000);
    let slice_start = 5_000;
    let slice_len = 10_000;
    let (encoded, hash) = encode::encode(&input);

    // Slice out the middle 10_000 bytes;
    let slice = encode::extract_slice(&encoded, slice_start as u64, slice_len as u64).unwrap();

    // First confirm that the regular decode works.
    let mut output = Vec::new();
    let mut reader = SliceReader::new(
        Cursor::new(&*slice),
        &hash,
        slice_start as u64,
        slice_len as u64,
    );
    reader.read_to_end(&mut output).unwrap();
    assert_eq!(&input[slice_start..][..slice_len], &*output);

    // Also confirm that the outboard slice extractor gives the same slice.
    {
        let (outboard, outboard_hash) = encode::outboard(&input);
        assert_eq!(hash, outboard_hash);
        let slice_from_outboard = encode::extract_slice_outboard(
            &input,
            &outboard,
            slice_start as u64,
            slice_len as u64,
        )
        .unwrap();
        assert_eq!(slice, slice_from_outboard);
    }

    // Now confirm that flipping bits anywhere in the slice other than the
    // length header will corrupt it. Tweaking the length header doesn't
    // always break slice decoding, because the only thing its guaranteed
    // to break is the final chunk, and this slice doesn't include the
    // final chunk.
    let mut i = HEADER_SIZE;
    while i < slice.len() {
        let mut slice_clone = slice.clone();
        slice_clone[i] ^= 1;
        let mut reader = SliceReader::new(
            Cursor::new(&*slice_clone),
            &hash,
            slice_start as u64,
            slice_len as u64,
        );
        output.clear();
        let err = reader.read_to_end(&mut output).unwrap_err();
        assert_eq!(ErrorKind::InvalidData, err.kind());
        i += 32;
    }
}

#[test]
fn test_slice_entire() {
    // If a slice starts at the beginning (actually anywere in the first chunk) and includes
    // entire length of the content (or at least one byte in the last chunk), the slice should
    // be exactly the same as the entire encoded tree. This can act as a cheap way to convert
    // an outboard tree to a combined one.
    for &case in TEST_CASES {
        println!("case {}", case);
        let input = make_test_input(case);
        let (encoded, _) = encode::encode(&input);
        let (outboard, _) = encode::outboard(&input);
        let slice = encode::extract_slice_outboard(&input, &outboard, 0, case as u64).unwrap();
        assert_eq!(encoded, slice);
    }
}
