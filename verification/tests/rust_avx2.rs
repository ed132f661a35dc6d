use blake3_many::platform::IncrementCounter;
use blake3_many::portable;
use blake3_many::rust_avx2::{compress8, hash8, hash_many, transpose_vecs, U32x8, DEGREE};
use blake3_many::spec::{
    BLOCK_LEN, CHUNK_END, CHUNK_LEN, CHUNK_START, KEYED_HASH, OUT_LEN, PARENT, ROOT,
};

const TEST_KEY_WORDS: [u32; 8] = [
    1952540791, 1752440947, 1816469605, 1752394102, 1919907616, 1868963940, 1919295602, 1684956521,
];

fn paint_test_input(buf: &mut [u8]) {
    for (i, b) in buf.iter_mut().enumerate() {
        *b = (i % 251) as u8;
    }
}

#[test]
fn test_transpose() {
    let mut matrix = [[0u32; DEGREE]; DEGREE];
    for i in 0..DEGREE {
        for j in 0..DEGREE {
            matrix[i][j] = (i * DEGREE + j) as u32;
        }
    }

    let mut vecs = [U32x8 { lanes: [0; DEGREE] }; DEGREE];
    for i in 0..DEGREE {
        vecs[i] = U32x8 { lanes: matrix[i] };
    }
    transpose_vecs(&mut vecs);
    for i in 0..DEGREE {
        matrix[i] = vecs[i].lanes;
    }

    for i in 0..DEGREE {
        for j in 0..DEGREE {
            // Reversed indexes from above.
            assert_eq!(matrix[j][i], (i * DEGREE + j) as u32);
        }
    }

    // Transposing once more brings the rows back.
    transpose_vecs(&mut vecs);
    for i in 0..DEGREE {
        for j in 0..DEGREE {
            assert_eq!(vecs[i].lanes[j], (i * DEGREE + j) as u32);
        }
    }
}

#[test]
fn test_hash_many() {
    // A few different initial counter values.
    // - 0: The base case.
    // - u32::MAX: The low word of the counter overflows for all inputs except the first.
    // - i32::MAX: No overflow.
    for counter in [0u64, u32::MAX as u64, i32::MAX as u64] {
        // 16 + 8 + 4 + 2 + 1
        const NUM_INPUTS: usize = 31;
        let mut input_buf = vec![0u8; CHUNK_LEN * NUM_INPUTS];
        paint_test_input(&mut input_buf);

        // First hash chunks.
        let mut chunks: Vec<&[u8; CHUNK_LEN]> = Vec::new();
        for i in 0..NUM_INPUTS {
            chunks.push(input_buf[i * CHUNK_LEN..][..CHUNK_LEN].try_into().unwrap());
        }
        let mut portable_chunks_out = [0u8; NUM_INPUTS * OUT_LEN];
        portable::hash_many(
            &chunks,
            &TEST_KEY_WORDS,
            counter,
            IncrementCounter::Yes,
            KEYED_HASH,
            CHUNK_START,
            CHUNK_END,
            &mut portable_chunks_out,
        );

        let mut test_chunks_out = [0u8; NUM_INPUTS * OUT_LEN];
        hash_many(
            &chunks,
            &TEST_KEY_WORDS,
            counter,
            IncrementCounter::Yes,
            KEYED_HASH,
            CHUNK_START,
            CHUNK_END,
            &mut test_chunks_out,
        );
        for n in 0..NUM_INPUTS {
            assert_eq!(
                &portable_chunks_out[n * OUT_LEN..][..OUT_LEN],
                &test_chunks_out[n * OUT_LEN..][..OUT_LEN]
            );
        }

        // Then hash parents.
        let mut parents: Vec<&[u8; 2 * OUT_LEN]> = Vec::new();
        for i in 0..NUM_INPUTS {
            parents.push(input_buf[i * 2 * OUT_LEN..][..2 * OUT_LEN].try_into().unwrap());
        }
        let mut portable_parents_out = [0u8; NUM_INPUTS * OUT_LEN];
        portable::hash_many(
            &parents,
            &TEST_KEY_WORDS,
            counter,
            IncrementCounter::No,
            KEYED_HASH | PARENT,
            0,
            0,
            &mut portable_parents_out,
        );

        let mut test_parents_out = [0u8; NUM_INPUTS * OUT_LEN];
        hash_many(
            &parents,
            &TEST_KEY_WORDS,
            counter,
            IncrementCounter::No,
            KEYED_HASH | PARENT,
            0,
            0,
            &mut test_parents_out,
        );
        for n in 0..NUM_INPUTS {
            assert_eq!(
                &portable_parents_out[n * OUT_LEN..][..OUT_LEN],
                &test_parents_out[n * OUT_LEN..][..OUT_LEN]
            );
        }
    }
}

#[test]
fn test_compress8_matches_compress_in_place() {
    // Give each lane a different slice of the painted buffer, so a lane mixup fails the test.
    let mut input_buf = [0u8; DEGREE * BLOCK_LEN];
    paint_test_input(&mut input_buf);

    for block_len in [0u8, 1, 17, 32, 63, 64] {
        for counter in [0u64, u32::MAX as u64, i32::MAX as u64] {
            for flags in [
                CHUNK_START | CHUNK_END | ROOT,
                KEYED_HASH | CHUNK_START | CHUNK_END,
            ] {
                let mut cvs = [[0u32; 8]; DEGREE];
                let mut blocks = [[0u8; BLOCK_LEN]; DEGREE];
                for lane in 0..DEGREE {
                    // A rotation of TEST_KEY_WORDS, distinct for every lane.
                    for w in 0..8 {
                        cvs[lane][w] = TEST_KEY_WORDS[(w + lane) % 8];
                    }
                    blocks[lane].copy_from_slice(&input_buf[lane * BLOCK_LEN..][..BLOCK_LEN]);
                }

                let mut want_cvs = cvs;
                for lane in 0..DEGREE {
                    portable::compress_in_place(
                        &mut want_cvs[lane],
                        &blocks[lane],
                        block_len,
                        counter,
                        flags,
                    );
                }

                compress8(&mut cvs, &blocks, block_len, counter, flags);

                assert_eq!(
                    cvs, want_cvs,
                    "block_len {block_len} counter {counter} flags {flags}"
                );
            }
        }
    }
}

#[test]
fn hash8_hashes_each_lane_with_its_own_counter() {
    let mut input_buf = vec![0u8; 8 * 192];
    paint_test_input(&mut input_buf);
    let inputs: [&[u8]; 8] = std::array::from_fn(|l| &input_buf[l * 192..][..192]);
    for increment_counter in [IncrementCounter::Yes, IncrementCounter::No] {
        for blocks in [0usize, 1, 2, 3] {
            let mut out = [0u8; 256];
            hash8(
                &inputs,
                blocks,
                &TEST_KEY_WORDS,
                u32::MAX as u64 - 3,
                increment_counter,
                KEYED_HASH,
                CHUNK_START,
                CHUNK_END,
                &mut out,
            );
            for l in 0..8 {
                let counter = u32::MAX as u64 - 3
                    + if increment_counter.yes() { l as u64 } else { 0 };
                let mut cv = TEST_KEY_WORDS;
                for block in 0..blocks {
                    let mut flags = KEYED_HASH;
                    if block == 0 {
                        flags |= CHUNK_START;
                    }
                    if block + 1 == blocks {
                        flags |= CHUNK_END;
                    }
                    portable::compress_in_place(
                        &mut cv,
                        inputs[l][64 * block..][..64].try_into().unwrap(),
                        64,
                        counter,
                        flags,
                    );
                }
                let want: Vec<u8> = cv.iter().flat_map(|w| w.to_le_bytes()).collect();
                assert_eq!(&out[32 * l..][..32], &want[..]);
            }
        }
    }
}

#[test]
fn hash_many_leaves_what_follows_the_last_result() {
    let input = [7u8; 64];
    let inputs: Vec<&[u8; 64]> = vec![&input; 9];
    let mut out = [0xAAu8; 9 * 32 + 5];
    hash_many(&inputs, &TEST_KEY_WORDS, 0, IncrementCounter::No, 0, 0, 0, &mut out);
    assert_eq!(&out[9 * 32..], &[0xAAu8; 5]);
    for i in 1..9 {
        assert_eq!(&out[..32], &out[32 * i..][..32]);
    }
    assert_ne!(&out[..32], &[0xAAu8; 32]);
}

#[test]
fn hash_many_in_two_parts_is_hash_many_at_once() {
    let mut input_buf = vec![0u8; 11 * 128];
    paint_test_input(&mut input_buf);
    let inputs: Vec<&[u8; 128]> = (0..11)
        .map(|i| input_buf[128 * i..][..128].try_into().unwrap())
        .collect();
    let mut whole = [0u8; 11 * 32];
    let mut parts = [0u8; 11 * 32];
    let run = |part: &[&[u8; 128]], counter: u64, out: &mut [u8]| {
        hash_many(part, &TEST_KEY_WORDS, counter, IncrementCounter::Yes, 0, 1, 2, out)
    };
    run(&inputs, 40, &mut whole);
    run(&inputs[..4], 40, &mut parts);
    run(&inputs[4..], 44, &mut parts[4 * 32..]);
    assert_eq!(whole, parts);
}
