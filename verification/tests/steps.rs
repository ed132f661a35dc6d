use blake3_many::many::{
    batch_len, dispatch_hash_many, hash_batch, hash_batch_bytes, hash_batch_group,
    hash_chunk_batch, hash_parents_batch, hash_subtree_batch, split_lens,
};
use blake3_many::platform::{CVBytes, Platform};
use blake3_many::rust_avx2::{round, U32x8};
use blake3_many::spec::{CHUNK_END, IV, KEYED_HASH, OUT_LEN, PARENT, ROOT};

fn painted(len: usize) -> Vec<u8> {
    (0..len).map(|i| (i % 251) as u8).collect()
}

/// `n` different inputs of `len` bytes each.
fn lanes(buf: &[u8], n: usize, len: usize) -> Vec<&[u8]> {
    (0..n).map(|i| &buf[i..][..len]).collect()
}

#[test]
fn the_common_length_does_not_depend_on_order() {
    let buf = painted(10);
    let one = [&buf[..3], &buf[1..4], &buf[2..5]];
    let other = [&buf[2..5], &buf[..3], &buf[1..4]];
    assert_eq!(batch_len(&one, &[0u8; 3]), Some(3));
    assert_eq!(batch_len(&other, &[0u64; 3]), Some(3));
    assert_eq!(batch_len(&other, &[0u64; 2]), None);
    let one = [&buf[..3], &buf[..3], &buf[..4]];
    let other = [&buf[..4], &buf[1..4], &buf[1..4]];
    assert_eq!(batch_len(&one, &[0u8; 3]), None);
    assert_eq!(batch_len(&other, &[0u8; 3]), None);
    let none: [&[u8]; 0] = [];
    assert_eq!(batch_len(&none, &[0u8; 0]), Some(0));
}

#[test]
fn hashes_are_the_bytes() {
    let buf = painted(2100);
    let inputs = lanes(&buf, 11, 2049);
    let mut out = vec![blake3_many::Hash::from_bytes([0; OUT_LEN]); 11];
    let mut raw = vec![[7; OUT_LEN]; 11];
    assert!(hash_batch(&inputs, &IV, KEYED_HASH, &mut out));
    assert!(hash_batch_bytes(&inputs, &IV, KEYED_HASH, &mut raw));
    for i in 0..11 {
        assert_eq!(out[i], blake3_many::Hash::from_bytes(raw[i]));
    }
    assert!(!hash_batch(&inputs[1..], &IV, 0, &mut out));
    assert!(!hash_batch_bytes(&inputs[1..], &IV, 0, &mut raw));
    for i in 0..11 {
        assert_eq!(out[i], blake3_many::Hash::from_bytes(raw[i]));
    }
}

#[test]
fn a_batch_is_its_inputs_one_by_one() {
    let buf = painted(1600);
    let inputs = lanes(&buf, 19, 1500);
    let mut out = vec![blake3_many::Hash::from_bytes([0; OUT_LEN]); 19];
    assert!(hash_batch(&inputs, &IV, 0, &mut out));
    for i in 0..19 {
        for platform in [Platform::Portable, Platform::AVX2] {
            let mut one = [[0; OUT_LEN]];
            hash_batch_group(&platform, &inputs[i..i + 1], 1500, &IV, 0, &mut one);
            assert_eq!(out[i], blake3_many::Hash::from_bytes(one[0]));
        }
    }
}

#[test]
fn a_subtree_of_one_chunk_is_that_chunk() {
    let buf = painted(1100);
    for len in [0, 1, 64, 100, 1023, 1024] {
        for counter in [0, 5, u64::MAX] {
            let inputs = lanes(&buf, 5, len);
            let mut subtrees = [[0; OUT_LEN]; 5];
            let mut chunks = [[1; OUT_LEN]; 5];
            let platform = Platform::detect();
            hash_subtree_batch(&platform, &inputs, len, counter, &IV, 0, &mut subtrees);
            hash_chunk_batch(&platform, &inputs, len, counter, &IV, 0, CHUNK_END, &mut chunks);
            assert_eq!(subtrees, chunks);
            let mut roots = [[0; OUT_LEN]; 5];
            hash_batch_group(&platform, &inputs, len, &IV, 0, &mut roots);
            assert_ne!(roots, chunks);
            hash_chunk_batch(&platform, &inputs, len, 0, &IV, 0, CHUNK_END | ROOT, &mut chunks);
            assert_eq!(roots, chunks);
        }
    }
}

#[test]
fn a_parent_joins_two_subtrees() {
    let buf = painted(6000);
    let platform = Platform::detect();
    for len in [1025, 2048, 2049, 4096, 5157] {
        let inputs = lanes(&buf, 3, len);
        let (left_len, right_len) = split_lens(len);
        let left: Vec<&[u8]> = inputs.iter().map(|input| &input[..left_len]).collect();
        let right: Vec<&[u8]> = inputs.iter().map(|input| &input[left_len..]).collect();
        for counter in [0, 3, u64::MAX - (len as u64 - 1) / 1024] {
            let right_counter = counter + (left_len / 1024) as u64;
            let mut whole = [[0; OUT_LEN]; 3];
            let (mut left_cvs, mut right_cvs) = ([[0; OUT_LEN]; 3], [[0; OUT_LEN]; 3]);
            let mut joined = [[1; OUT_LEN]; 3];
            hash_subtree_batch(&platform, &inputs, len, counter, &IV, 0, &mut whole);
            hash_subtree_batch(&platform, &left, left_len, counter, &IV, 0, &mut left_cvs);
            hash_subtree_batch(&platform, &right, right_len, right_counter, &IV, 0, &mut right_cvs);
            hash_parents_batch(&platform, &left_cvs, &right_cvs, &IV, 0, &mut joined);
            assert_eq!(whole, joined);
            if counter == 0 {
                hash_batch_group(&platform, &inputs, len, &IV, 0, &mut whole);
                assert_ne!(whole, joined);
                hash_parents_batch(&platform, &left_cvs, &right_cvs, &IV, ROOT, &mut joined);
                assert_eq!(whole, joined);
            }
        }
    }
}

#[test]
fn lanes_are_independent() {
    let buf = painted(2100);
    let platform = Platform::detect();
    for len in [0, 70, 1024, 2000] {
        let inputs = lanes(&buf, 8, len);
        let mut all = [[0; OUT_LEN]; 8];
        hash_subtree_batch(&platform, &inputs, len, 9, &IV, 0, &mut all);
        for i in 0..8 {
            let mut one = [[0; OUT_LEN]];
            hash_subtree_batch(&platform, &inputs[i..i + 1], len, 9, &IV, 0, &mut one);
            assert_eq!(all[i], one[0]);
        }
        if len <= 1024 {
            hash_chunk_batch(&platform, &inputs, len, 9, &IV, 0, CHUNK_END, &mut all);
            for i in 0..8 {
                let mut one = [[0; OUT_LEN]];
                let input = &inputs[i..i + 1];
                hash_chunk_batch(&platform, input, len, 9, &IV, 0, CHUNK_END, &mut one);
                assert_eq!(all[i], one[0]);
            }
        }
    }
}

#[test]
fn whole_blocks_have_no_empty_block_behind_them() {
    let buf = painted(1100);
    let platform = Platform::detect();
    for blocks in 1..=16 {
        let inputs = lanes(&buf, 6, 64 * blocks);
        let mut cvs = [[0; OUT_LEN]; 6];
        let mut bytes = [0u8; 6 * OUT_LEN];
        hash_chunk_batch(&platform, &inputs, 64 * blocks, 2, &IV, 0, CHUNK_END, &mut cvs);
        dispatch_hash_many(blocks, &platform, &inputs, 2, &IV, 0, CHUNK_END, &mut bytes);
        for i in 0..6 {
            assert_eq!(cvs[i], bytes[32 * i..][..32]);
        }
    }
}

#[test]
fn the_parent_flag_is_set_not_toggled() {
    let left: [CVBytes; 3] = [[1; OUT_LEN], [2; OUT_LEN], [3; OUT_LEN]];
    let right: [CVBytes; 3] = [[4; OUT_LEN], [5; OUT_LEN], [6; OUT_LEN]];
    let (mut one, mut other) = ([[0; OUT_LEN]; 3], [[1; OUT_LEN]; 3]);
    let platform = Platform::detect();
    hash_parents_batch(&platform, &left, &right, &IV, KEYED_HASH, &mut one);
    hash_parents_batch(&platform, &left, &right, &IV, KEYED_HASH | PARENT, &mut other);
    assert_eq!(one, other);
    hash_parents_batch(&platform, &left, &right, &IV, PARENT, &mut other);
    assert_ne!(one, other);
}

#[test]
fn a_round_keeps_states_apart() {
    let zero = U32x8 { lanes: [0; 8] };
    let m = [U32x8 { lanes: [1, 2, 3, 4, 5, 6, 7, 8] }; 16];
    for r in 0..7 {
        let mut base = [zero; 16];
        round(&mut base, &m, r);
        for i in 0..16 {
            for bit in 0..32 {
                let mut changed = [zero; 16];
                changed[i].lanes[bit % 8] = 1 << bit;
                round(&mut changed, &m, r);
                // The lane that began differently ends differently, and the others do not.
                for l in 0..8 {
                    let same = (0..16).all(|k| changed[k].lanes[l] == base[k].lanes[l]);
                    assert_eq!(same, l != bit % 8);
                }
            }
        }
    }
}
