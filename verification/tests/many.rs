use blake3_many::many::{derive_key, hash, keyed_hash};
use blake3_many::platform::MAX_SIMD_DEGREE;
use blake3_many::spec::{BLOCK_LEN, CHUNK_LEN, KEY_LEN, OUT_LEN};

const TEST_KEY: &[u8; KEY_LEN] = b"whats the Elvish word for friend";

const TEST_CASES: &[usize] = &[
    0,
    1,
    2,
    3,
    4,
    5,
    6,
    7,
    8,
    BLOCK_LEN - 1,
    BLOCK_LEN,
    BLOCK_LEN + 1,
    2 * BLOCK_LEN - 1,
    2 * BLOCK_LEN,
    2 * BLOCK_LEN + 1,
    CHUNK_LEN - 1,
    CHUNK_LEN,
    CHUNK_LEN + 1,
    2 * CHUNK_LEN,
    2 * CHUNK_LEN + 1,
    3 * CHUNK_LEN,
    3 * CHUNK_LEN + 1,
    4 * CHUNK_LEN,
    4 * CHUNK_LEN + 1,
    5 * CHUNK_LEN,
    5 * CHUNK_LEN + 1,
    6 * CHUNK_LEN,
    6 * CHUNK_LEN + 1,
    7 * CHUNK_LEN,
    7 * CHUNK_LEN + 1,
    8 * CHUNK_LEN,
    8 * CHUNK_LEN + 1,
    16 * CHUNK_LEN,
    31 * CHUNK_LEN,
    100 * CHUNK_LEN,
];

const TEST_CASES_MAX: usize = 100 * CHUNK_LEN;

fn paint_test_input(buf: &mut [u8]) {
    for (i, b) in buf.iter_mut().enumerate() {
        *b = (i % 251) as u8;
    }
}

fn check(inputs: &[&[u8]], key: Option<&[u8; KEY_LEN]>, context: Option<&str>) {
    let mut got = vec![blake3_many::Hash::from_bytes([0; OUT_LEN]); inputs.len()];
    match (key, context) {
        (None, None) => assert!(hash(inputs, &mut got)),
        (Some(k), None) => assert!(keyed_hash(k, inputs, &mut got)),
        (None, Some(ctx)) => {
            let mut raw = vec![[0u8; OUT_LEN]; inputs.len()];
            assert!(derive_key(ctx, inputs, &mut raw));
            for (g, r) in got.iter_mut().zip(raw.iter()) {
                *g = blake3_many::Hash::from_bytes(*r);
            }
        }
        (Some(_), Some(_)) => unreachable!(),
    }
    for (input, expected_hash) in inputs.iter().zip(got.iter()) {
        let want = match (key, context) {
            (None, None) => blake3_many::hash(input),
            (Some(k), None) => blake3_many::keyed_hash(k, input),
            (None, Some(ctx)) => {
                blake3_many::Hash::from_bytes(blake3_many::derive_key(ctx, input))
            }
            (Some(_), Some(_)) => unreachable!(),
        };
        assert_eq!(*expected_hash, want, "input length {}", input.len());
    }
}

#[test]
fn test_many_matches_single_for_all_lengths_and_batch_sizes() {
    let mut input_buf = vec![0u8; TEST_CASES_MAX];
    paint_test_input(&mut input_buf);

    for &len in TEST_CASES {
        for &batch_size in &[0usize, 1, 2, 3, 8, 17, MAX_SIMD_DEGREE, MAX_SIMD_DEGREE + 1] {
            if len > input_buf.len() {
                continue;
            }
            let inputs: Vec<&[u8]> = (0..batch_size).map(|_| &input_buf[..len]).collect();
            check(&inputs, None, None);
            check(&inputs, Some(TEST_KEY), None);
            check(&inputs, None, Some("blake3 many() test context"));
        }
    }
}

#[test]
fn test_many_mixed_content_arbitrary_lengths() {
    // Deliberately has lengths that are not multiples of BLOCK_LEN, at and across chunk and
    // multi-chunk boundaries, to exercise the short-final-block path at every depth of the
    // recursion.
    const LENS: &[usize] = &[
        0,
        1,
        17,
        32,
        63,
        64,
        65,
        100,
        128,
        1000,
        1023,
        1024,
        1025,
        1057,
        2 * CHUNK_LEN,
        2 * CHUNK_LEN + 1,
        2 * CHUNK_LEN + 64,
        2 * CHUNK_LEN + 100,
        5 * CHUNK_LEN + 37,
        8 * CHUNK_LEN - 1,
        8 * CHUNK_LEN,
    ];
    // Start every input at a different offset, so that a lane mixup fails the test. The buffer has
    // to hold the longest length starting from the largest offset.
    const STRIDE: usize = 7;
    let num_inputs = 2 * MAX_SIMD_DEGREE + 1;
    let max_len = LENS.iter().copied().max().unwrap();
    let mut input_buf = vec![0u8; STRIDE * (num_inputs - 1) + max_len];
    paint_test_input(&mut input_buf);
    for &len in LENS {
        let inputs: Vec<&[u8]> = (0..num_inputs)
            .map(|i| &input_buf[i * STRIDE..][..len])
            .collect();
        check(&inputs, None, None);
    }
}

#[test]
fn test_many_large_multi_chunk_inputs() {
    // Several chunks per input, a non-block-aligned length, and enough inputs to fill more than
    // one group, to exercise the recursive tree-splitting path across multiple batches with a
    // short final block each time.
    const LEN: usize = 20 * CHUNK_LEN + 3 * BLOCK_LEN + 17;
    let mut input_buf = vec![0u8; (2 * MAX_SIMD_DEGREE + 5) * LEN];
    paint_test_input(&mut input_buf);
    let inputs: Vec<&[u8]> = input_buf.chunks_exact(LEN).collect();
    check(&inputs, None, None);
    check(&inputs, Some(TEST_KEY), None);
    check(&inputs, None, Some("blake3 many() large multi-chunk test"));
}

#[test]
fn test_many_rejects_mismatched_input_lengths() {
    let a = [0u8; 32];
    let b = [0u8; 31];
    let inputs: [&[u8]; 2] = [&a, &b];
    let mut out = [blake3_many::Hash::from_bytes([0; OUT_LEN]); 2];
    assert!(!hash(&inputs, &mut out));
    assert!(!keyed_hash(TEST_KEY, &inputs, &mut out));
    let mut raw = [[0u8; OUT_LEN]; 2];
    assert!(!derive_key("ctx", &inputs, &mut raw));
    // Nothing was written.
    assert_eq!(out[0], blake3_many::Hash::from_bytes([0; OUT_LEN]));
    assert_eq!(out[1], blake3_many::Hash::from_bytes([0; OUT_LEN]));
}

#[test]
fn test_many_rejects_mismatched_out_length() {
    let a = [0u8; 32];
    let inputs: [&[u8]; 1] = [&a];
    let mut out: [blake3_many::Hash; 2] = [blake3_many::Hash::from_bytes([0; OUT_LEN]); 2];
    assert!(!hash(&inputs, &mut out));
}

#[test]
fn test_many_empty_batch_is_ok() {
    let inputs: [&[u8]; 0] = [];
    let mut out: [blake3_many::Hash; 0] = [];
    assert!(hash(&inputs, &mut out));
}
