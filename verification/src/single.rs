//! Hash one input.
use crate::hazmat::{hash_derive_key_context, left_subtree_len};
use crate::platform::{
    copy_bytes, le_bytes_from_words_32, words_from_le_bytes_32, CVBytes, CVWords,
};
use crate::portable::compress_in_place;
use crate::spec;
use crate::spec::{
    BLOCK_LEN, CHUNK_END, CHUNK_LEN, CHUNK_START, DERIVE_KEY_MATERIAL, IV, KEYED_HASH, KEY_LEN,
    OUT_LEN, PARENT, ROOT,
};
use vstd::prelude::*;
use vstd::string::StringSliceAdditionalSpecFns;

verus! {

/// The chaining value of one chunk.
fn chunk_output(chunk: &[u8], key: &CVWords, counter: u64, flags: u8, flags_end: u8) -> (cv:
    CVWords)
    requires
        chunk.len() <= CHUNK_LEN,
    ensures
        cv@ == spec::chunk_cv(chunk@, key@, counter, flags, flags_end),
{
    let len: usize = chunk.len();
    let blocks: usize = if len == 0 {
        1
    } else {
        (len + BLOCK_LEN - 1) / BLOCK_LEN
    };
    let mut cv: CVWords = *key;
    for k in 0..blocks
        invariant
            len == chunk.len(),
            len <= 1024,
            blocks == spec::block_count(chunk@.len()),
            cv@ == spec::chunk_cv_after(chunk@, k as nat, key@, counter, flags, flags_end),
    {
        let start: usize = k * BLOCK_LEN;
        let block_len: usize = if len - start < BLOCK_LEN {
            len - start
        } else {
            BLOCK_LEN
        };
        let mut block: [u8; BLOCK_LEN] = [0; BLOCK_LEN];
        let bytes = &chunk[start..start + block_len];
        copy_bytes(&mut block, 0, bytes);
        assert forall|j: int| 0 <= j < 64 implies block[j] == spec::chunk_block(
            chunk@,
            k as int,
        )[j] by {
            if j < block_len {
                assert(block@.subrange(0, block_len as int)[j] == bytes@[j]);
            }
        }
        assert(block@ =~= spec::chunk_block(chunk@, k as int));
        let mut block_flags: u8 = if k == 0 {
            flags | CHUNK_START
        } else {
            flags
        };
        if k + 1 == blocks {
            block_flags = block_flags | flags_end;
        }
        compress_in_place(&mut cv, &block, block_len as u8, counter, block_flags);
    }
    cv
}

/// The chaining value of the parent of two nodes.
fn parent_output(left: &CVWords, right: &CVWords, key: &CVWords, flags: u8) -> (cv: CVWords)
    ensures
        cv@ == spec::parent_cv(left@, right@, key@, flags),
{
    let left_bytes = le_bytes_from_words_32(left);
    let right_bytes = le_bytes_from_words_32(right);
    let mut block: [u8; BLOCK_LEN] = [0; BLOCK_LEN];
    copy_bytes(&mut block, 0, &left_bytes);
    copy_bytes(&mut block, OUT_LEN, &right_bytes);
    assert(block@ =~= left_bytes@ + right_bytes@);
    let mut cv: CVWords = *key;
    compress_in_place(&mut cv, &block, 64, 0, flags | PARENT);
    cv
}

/// The chaining value of a subtree that is not the whole tree.
fn subtree_output(input: &[u8], key: &CVWords, counter: u64, flags: u8) -> (cv: CVWords)
    requires
        input.len() > 0 ==> counter + (input.len() - 1) / 1024 <= u64::MAX,
    ensures
        cv@ == spec::subtree_cv(input@, key@, counter, flags),
    decreases input@.len(),
{
    if input.len() <= CHUNK_LEN {
        return chunk_output(input, key, counter, flags, CHUNK_END);
    }
    proof {
        spec::lemma_left_len_bounds(input@.len());
    }
    let left_len: usize = left_subtree_len(input.len() as u64) as usize;
    let (left, right) = input.split_at(left_len);
    let left_cv = subtree_output(left, key, counter, flags);
    let right_cv = subtree_output(right, key, counter + (left_len / CHUNK_LEN) as u64, flags);
    parent_output(&left_cv, &right_cv, key, flags)
}

/// The hash of the whole input under the given key words and mode flags.
pub fn hash_all_at_once(input: &[u8], key: &CVWords, flags: u8) -> (hash: CVBytes)
    ensures
        hash@ == spec::root_hash(input@, key@, flags),
{
    if input.len() <= CHUNK_LEN {
        let cv = chunk_output(input, key, 0, flags, CHUNK_END | ROOT);
        return le_bytes_from_words_32(&cv);
    }
    proof {
        spec::lemma_left_len_bounds(input@.len());
    }
    let left_len: usize = left_subtree_len(input.len() as u64) as usize;
    let (left, right) = input.split_at(left_len);
    let left_cv = subtree_output(left, key, 0, flags);
    let right_cv = subtree_output(right, key, (left_len / CHUNK_LEN) as u64, flags);
    let cv = parent_output(&left_cv, &right_cv, key, flags | ROOT);
    le_bytes_from_words_32(&cv)
}

/// The BLAKE3 hash of `input`.
pub fn hash(input: &[u8]) -> (hash: crate::Hash)
    ensures
        hash@ == spec::hash(input@),
{
    crate::Hash::from_bytes(hash_all_at_once(input, &IV, 0))
}

/// The keyed hash of `input`.
pub fn keyed_hash(key: &[u8; KEY_LEN], input: &[u8]) -> (hash: crate::Hash)
    ensures
        hash@ == spec::keyed_hash(key@, input@),
{
    let key_words = words_from_le_bytes_32(key);
    crate::Hash::from_bytes(hash_all_at_once(input, &key_words, KEYED_HASH))
}

/// The key derived from `key_material` in the given context.
pub fn derive_key(context: &str, key_material: &[u8]) -> (key: [u8; OUT_LEN])
    ensures
        key@ == spec::derive_key(context.spec_bytes(), key_material@),
{
    let context_key = hash_derive_key_context(context);
    let context_key_words = words_from_le_bytes_32(&context_key);
    hash_all_at_once(key_material, &context_key_words, DERIVE_KEY_MATERIAL)
}

} // verus!
