//! Hash many independent, equal-length inputs at once.
//!
//! Hashing an input in a batch always produces exactly the same output as hashing it alone with
//! [`crate::hash()`], [`crate::keyed_hash`] or [`crate::derive_key`]. Every input in a batch is
//! hashed as its own complete BLAKE3 tree, so nothing here changes the hash of any individual input
//! based on what else is in the batch. The one restriction is that a batch's inputs must all be the
//! same length. That length can be anything.
//!
//! For an input no longer than one chunk, every input's one-and-only chunk is compressed side by
//! side, one lane per input, and root-finalized directly. A longer input is split at
//! [`crate::hazmat::left_subtree_len`] again and again, and every node of that recursion, each chunk
//! and each parent joining two subtrees, is computed for every input in the batch together. Because
//! the inputs share a length they share a tree shape, so the recursion stays in lockstep.
//!
//! Within a chunk, a chunk's full leading blocks go through [`Platform::hash_many`], which only
//! takes full blocks. Its final block, the only one that may be short, goes through
//! [`Platform::compress_many`], which takes a block length.
use crate::hazmat::{hash_derive_key_context, left_subtree_len};
use crate::lemmas::{lemma_full_chunk, lemma_leading_blocks, lemma_words_of_bytes};
use crate::platform::{
    copy_bytes, le_bytes_from_words_32, words_from_le_bytes_32, CVBytes, CVWords, IncrementCounter,
    Platform, MAX_SIMD_DEGREE,
};
use crate::spec;
use crate::spec::{
    array_views, block_views, slice_views, BLOCK_LEN, CHUNK_END, CHUNK_LEN, CHUNK_START,
    DERIVE_KEY_MATERIAL, IV, KEYED_HASH, KEY_LEN, OUT_LEN, PARENT, ROOT,
};
use crate::trusted::{
    block_refs_as_slice, block_refs_collect, blocks_as_slice, blocks_in, blocks_new,
    blocks_push, slices_as_slice, slices_in, slices_new, slices_push,
};
use arrayvec::ArrayVec;
use vstd::prelude::*;
use vstd::string::StringSliceAdditionalSpecFns;

verus! {

/// The number of bytes in the chaining values of the largest group.
pub const MAX_CV_BYTES: usize = 256;

/// The length that the inputs of a batch share, or `None` if the batch does not line up with the
/// outputs. An empty batch shares the length 0.
pub fn batch_len<T>(inputs: &[&[u8]], out: &[T]) -> (len: Option<usize>)
    ensures
        spec::common_len(slice_views(inputs@), out@.len()) == match len {
            Some(l) => Some(l as nat),
            None => None,
        },
        len is Some <==> spec::lines_up(slice_views(inputs@), out@.len()),
        len is Some ==> forall|i: int|
            0 <= i < inputs@.len() ==> #[trigger] inputs@[i]@.len() == len.unwrap(),
        len is Some && inputs@.len() == 0 ==> len == Some(0usize),
{
    let ghost views = slice_views(inputs@);
    if inputs.len() != out.len() {
        return None;
    }
    if inputs.len() == 0 {
        return Some(0);
    }
    let len: usize = inputs[0].len();
    for i in 0..inputs.len()
        invariant
            0 < inputs.len(),
            views == slice_views(inputs@),
            len == views[0].len(),
            forall|k: int| 0 <= k < i ==> #[trigger] inputs@[k]@.len() == len,
    {
        if inputs[i].len() != len {
            assert(views[i as int].len() != views[0].len());
            return None;
        }
    }
    assert forall|i: int, j: int|
        0 <= i < views.len() && 0 <= j < views.len() implies #[trigger] views[i].len()
        == #[trigger] views[j].len() by {
        assert(inputs@[i]@.len() == len);
        assert(inputs@[j]@.len() == len);
    }
    Some(len)
}

/// Splits the length of more than one chunk between the two children of the root.
pub fn split_lens(len: usize) -> (r: (usize, usize))
    requires
        len > CHUNK_LEN,
    ensures
        r.0 == spec::left_len(len as nat),
        r.0 + r.1 == len,
{
    proof {
        spec::lemma_left_len_bounds(len as nat);
    }
    let left_len: usize = left_subtree_len(len as u64) as usize;
    (left_len, len - left_len)
}

/// Writes the chaining values that stand one after the other in `cv_bytes` to `out`.
fn write_cvs(cv_bytes: &[u8], out: &mut [CVBytes])
    requires
        32 * old(out).len() <= cv_bytes.len(),
    ensures
        final(out)@.len() == old(out)@.len(),
        forall|i: int|
            0 <= i < final(out)@.len() ==> #[trigger] final(out)@[i]@ == cv_bytes@.subrange(
                32 * i,
                32 * i + 32,
            ),
{
    let n: usize = out.len();
    for i in 0..n
        invariant
            n == out.len(),
            32 * n <= cv_bytes.len(),
            forall|k: int|
                0 <= k < i ==> #[trigger] out@[k]@ == cv_bytes@.subrange(32 * k, 32 * k + 32),
    {
        let cv: &CVBytes = cv_bytes[OUT_LEN * i..OUT_LEN * i + OUT_LEN].first_chunk().unwrap();
        assert(cv@ =~= cv_bytes@.subrange(32 * i as int, 32 * i + 32));
        out[i] = *cv;
    }
}

/// Joins the chaining values of each input's left and right subtree in a parent node, one lane
/// per input.
pub fn hash_parents_batch(
    platform: &Platform,
    left_cvs: &[CVBytes],
    right_cvs: &[CVBytes],
    key: &CVWords,
    flags: u8,
    out: &mut [CVBytes],
)
    requires
        left_cvs.len() <= MAX_SIMD_DEGREE,
        left_cvs.len() == right_cvs.len(),
        left_cvs.len() == old(out).len(),
    ensures
        spec::cv_views(final(out)@) == spec::parents_batch(
            spec::cv_views(left_cvs@),
            spec::cv_views(right_cvs@),
            key@,
            flags,
        ),
        final(out)@.len() == old(out)@.len(),
        forall|i: int|
            0 <= i < final(out)@.len() ==> #[trigger] final(out)@[i]@ == spec::bytes_of(
                spec::compress(key@, left_cvs@[i]@ + right_cvs@[i]@, 64, 0, flags | PARENT),
            ),
{
    let n: usize = left_cvs.len();
    let mut blocks = blocks_new();
    for i in 0..n
        invariant
            n <= 8,
            n == left_cvs.len(),
            n == right_cvs.len(),
            blocks_in(blocks).len() == i,
            forall|k: int|
                0 <= k < i ==> #[trigger] blocks_in(blocks)[k] == left_cvs@[k]@ + right_cvs@[k]@,
    {
        let mut block: [u8; BLOCK_LEN] = [0; BLOCK_LEN];
        copy_bytes(&mut block, 0, &left_cvs[i]);
        copy_bytes(&mut block, OUT_LEN, &right_cvs[i]);
        assert(block@ =~= left_cvs@[i as int]@ + right_cvs@[i as int]@);
        blocks_push(&mut blocks, block);
    }
    let all = blocks_as_slice(&blocks);
    assert(block_views(all@).len() == n);
    let arrays = block_refs_collect(all);
    let lanes = block_refs_as_slice(&arrays);
    assert(array_views(lanes@) == blocks_in(blocks));
    assert(array_views(lanes@).len() == n);
    let mut cv_bytes: [u8; MAX_CV_BYTES] = [0; MAX_CV_BYTES];
    platform.hash_many(
        lanes,
        key,
        // Parent nodes always have the counter 0.
        0,
        IncrementCounter::No,
        flags | PARENT,
        0,  // Parents have no start flags.
        0,  // Parents have no end flags.
        &mut cv_bytes,
    );
    write_cvs(&cv_bytes, out);
    assert forall|i: int| 0 <= i < n implies #[trigger] out@[i]@ == spec::bytes_of(
        spec::compress(key@, left_cvs@[i]@ + right_cvs@[i]@, 64, 0, flags | PARENT),
    ) by {
        let block = left_cvs@[i]@ + right_cvs@[i]@;
        assert(array_views(lanes@)[i] == block);
        assert(block.subrange(0, 64) =~= block);
        let f: u8 = flags | PARENT;
        assert((f | 0) | 0 == f) by (bit_vector);
        reveal_with_fuel(spec::blocks_cv, 2);
    }
}

/// Hashes the full blocks of each input of `N` bytes, all as the same chunk of their messages.
fn hash_many_fixed<const N: usize>(
    platform: &Platform,
    in_batch: &[&[u8]],
    counter: u64,
    key: &CVWords,
    flags: u8,
    flags_end: u8,
    cv_out: &mut [u8],
)
    requires
        forall|i: int| 0 <= i < in_batch@.len() ==> #[trigger] in_batch@[i]@.len() == N,
        32 * in_batch.len() <= old(cv_out).len(),
    ensures
        spec::hashes_many(
            slice_views(in_batch@),
            key@,
            counter,
            IncrementCounter::No,
            flags,
            CHUNK_START,
            flags_end,
            old(cv_out)@,
            final(cv_out)@,
        ),
{
    let mut arrays: Vec<&[u8; N]> = Vec::new();
    for i in 0..in_batch.len()
        invariant
            forall|k: int| 0 <= k < in_batch@.len() ==> #[trigger] in_batch@[k]@.len() == N,
            arrays@.len() == i,
            forall|k: int| 0 <= k < i ==> #[trigger] arrays@[k]@ == in_batch@[k]@,
    {
        let array: &[u8; N] = in_batch[i].first_chunk().unwrap();
        assert(array@ =~= in_batch@[i as int]@);
        arrays.push(array);
    }
    assert(array_views(arrays@) =~= slice_views(in_batch@));
    platform.hash_many(
        arrays.as_slice(),
        key,
        // Every lane is the same chunk index of a different independent input. Unlike hashing
        // several chunks of one input, where the counter increments per lane, the counter is the
        // same for every lane here; it only changes between calls, as the recursion walks across
        // each input's chunks.
        counter,
        IncrementCounter::No,
        flags,
        CHUNK_START,
        flags_end,
        cv_out,
    );
}

/// Hashes inputs of `block_count` full blocks, all as the same chunk of their messages.
pub fn dispatch_hash_many(
    block_count: usize,
    platform: &Platform,
    in_batch: &[&[u8]],
    counter: u64,
    key: &CVWords,
    flags: u8,
    flags_end: u8,
    cv_out: &mut [u8],
)
    requires
        1 <= block_count <= 16,
        forall|i: int|
            0 <= i < in_batch@.len() ==> #[trigger] in_batch@[i]@.len() == 64 * block_count,
        32 * in_batch.len() <= old(cv_out).len(),
    ensures
        spec::hashes_many(
            slice_views(in_batch@),
            key@,
            counter,
            IncrementCounter::No,
            flags,
            CHUNK_START,
            flags_end,
            old(cv_out)@,
            final(cv_out)@,
        ),
{
    match block_count {
        1 => hash_many_fixed::<64>(platform, in_batch, counter, key, flags, flags_end, cv_out),
        2 => hash_many_fixed::<128>(platform, in_batch, counter, key, flags, flags_end, cv_out),
        3 => hash_many_fixed::<192>(platform, in_batch, counter, key, flags, flags_end, cv_out),
        4 => hash_many_fixed::<256>(platform, in_batch, counter, key, flags, flags_end, cv_out),
        5 => hash_many_fixed::<320>(platform, in_batch, counter, key, flags, flags_end, cv_out),
        6 => hash_many_fixed::<384>(platform, in_batch, counter, key, flags, flags_end, cv_out),
        7 => hash_many_fixed::<448>(platform, in_batch, counter, key, flags, flags_end, cv_out),
        8 => hash_many_fixed::<512>(platform, in_batch, counter, key, flags, flags_end, cv_out),
        9 => hash_many_fixed::<576>(platform, in_batch, counter, key, flags, flags_end, cv_out),
        10 => hash_many_fixed::<640>(platform, in_batch, counter, key, flags, flags_end, cv_out),
        11 => hash_many_fixed::<704>(platform, in_batch, counter, key, flags, flags_end, cv_out),
        12 => hash_many_fixed::<768>(platform, in_batch, counter, key, flags, flags_end, cv_out),
        13 => hash_many_fixed::<832>(platform, in_batch, counter, key, flags, flags_end, cv_out),
        14 => hash_many_fixed::<896>(platform, in_batch, counter, key, flags, flags_end, cv_out),
        15 => hash_many_fixed::<960>(platform, in_batch, counter, key, flags, flags_end, cv_out),
        // A chunk has at most 16 blocks.
        _ => hash_many_fixed::<1024>(platform, in_batch, counter, key, flags, flags_end, cv_out),
    }
}

/// Hashes the full leading blocks of each input, where every input is one chunk of `chunk_len`
/// bytes that ends in a short block, and returns the chaining values going into that block.
fn hash_leading_blocks(
    platform: &Platform,
    in_batch: &[&[u8]],
    chunk_len: usize,
    counter: u64,
    key: &CVWords,
    flags: u8,
) -> (cvs: [CVWords; MAX_SIMD_DEGREE])
    requires
        in_batch.len() <= MAX_SIMD_DEGREE,
        BLOCK_LEN < chunk_len < CHUNK_LEN,
        chunk_len % BLOCK_LEN != 0,
        forall|i: int| 0 <= i < in_batch@.len() ==> #[trigger] in_batch@[i]@.len() == chunk_len,
    ensures
        forall|i: int|
            0 <= i < in_batch@.len() ==> #[trigger] cvs[i]@ == spec::blocks_cv(
                in_batch@[i]@.subrange(0, 64 * (chunk_len / BLOCK_LEN)),
                (chunk_len / BLOCK_LEN) as nat,
                (chunk_len / BLOCK_LEN) as nat,
                key@,
                counter,
                flags,
                CHUNK_START,
                0,
            ),
{
    let n: usize = in_batch.len();
    let full_blocks: usize = chunk_len / BLOCK_LEN;
    let mut leading = slices_new();
    for i in 0..n
        invariant
            n <= 8,
            n == in_batch.len(),
            full_blocks == chunk_len / 64,
            forall|k: int|
                0 <= k < in_batch@.len() ==> #[trigger] in_batch@[k]@.len() == chunk_len,
            slices_in(leading).len() == i,
            forall|k: int|
                0 <= k < i ==> #[trigger] slices_in(leading)[k] == in_batch@[k]@.subrange(
                    0,
                    64 * full_blocks as int,
                ),
    {
        assert(in_batch@[i as int]@.len() == chunk_len);
        slices_push(&mut leading, &in_batch[i][0..full_blocks * BLOCK_LEN]);
    }
    let lanes = slices_as_slice(&leading);
    assert(slice_views(lanes@).len() == n);
    assert forall|i: int| 0 <= i < n implies #[trigger] lanes@[i]@.len() == 64 * full_blocks by {
        assert(in_batch@[i]@.len() == chunk_len);
        assert(slice_views(lanes@)[i] == slices_in(leading)[i]);
    }
    let mut cv_bytes: [u8; MAX_CV_BYTES] = [0; MAX_CV_BYTES];
    // Not the chunk's end yet; the real end is the short block.
    dispatch_hash_many(full_blocks, platform, lanes, counter, key, flags, 0, &mut cv_bytes);
    let mut cvs: [CVWords; MAX_SIMD_DEGREE] = [*key; MAX_SIMD_DEGREE];
    for i in 0..n
        invariant
            n <= 8,
            forall|k: int|
                0 <= k < i ==> #[trigger] cvs[k]@ == spec::words_of(
                    cv_bytes@.subrange(32 * k, 32 * k + 32),
                ),
    {
        let cv: &CVBytes = cv_bytes[OUT_LEN * i..OUT_LEN * i + OUT_LEN].first_chunk().unwrap();
        assert(cv@ =~= cv_bytes@.subrange(32 * i as int, 32 * i + 32));
        cvs[i] = words_from_le_bytes_32(cv);
    }
    assert forall|i: int| 0 <= i < n implies #[trigger] cvs[i]@ == spec::blocks_cv(
        in_batch@[i]@.subrange(0, 64 * full_blocks as int),
        full_blocks as nat,
        full_blocks as nat,
        key@,
        counter,
        flags,
        CHUNK_START,
        0,
    ) by {
        assert(in_batch@[i]@.len() == chunk_len);
        let head = in_batch@[i]@.subrange(0, 64 * full_blocks as int);
        assert(slice_views(lanes@)[i] == head);
        assert(head.len() / 64 == full_blocks as nat);
        lemma_words_of_bytes(
            spec::blocks_cv(
                head,
                full_blocks as nat,
                full_blocks as nat,
                key@,
                counter,
                flags,
                CHUNK_START,
                0,
            ),
        );
    }
    cvs
}

/// Gathers what follows the last full block of each input, filled up with zeros to a block.
fn gather_tails(in_batch: &[&[u8]], chunk_len: usize) -> (blocks: [[u8; BLOCK_LEN];
    MAX_SIMD_DEGREE])
    requires
        in_batch.len() <= MAX_SIMD_DEGREE,
        forall|i: int| 0 <= i < in_batch@.len() ==> #[trigger] in_batch@[i]@.len() == chunk_len,
    ensures
        forall|i: int|
            0 <= i < in_batch@.len() ==> #[trigger] blocks[i]@ == spec::chunk_block(
                in_batch@[i]@,
                (chunk_len / BLOCK_LEN) as int,
            ),
{
    let n: usize = in_batch.len();
    let full_blocks: usize = chunk_len / BLOCK_LEN;
    let mut blocks: [[u8; BLOCK_LEN]; MAX_SIMD_DEGREE] = [[0; BLOCK_LEN]; MAX_SIMD_DEGREE];
    for i in 0..n
        invariant
            n <= 8,
            n == in_batch.len(),
            full_blocks == chunk_len / 64,
            forall|k: int|
                0 <= k < in_batch@.len() ==> #[trigger] in_batch@[k]@.len() == chunk_len,
            forall|k: int|
                0 <= k < i ==> #[trigger] blocks[k]@ == spec::chunk_block(
                    in_batch@[k]@,
                    full_blocks as int,
                ),
    {
        assert(in_batch@[i as int]@.len() == chunk_len);
        let input: &[u8] = in_batch[i];
        let tail = &input[full_blocks * BLOCK_LEN..input.len()];
        let mut block: [u8; BLOCK_LEN] = [0; BLOCK_LEN];
        copy_bytes(&mut block, 0, tail);
        assert forall|j: int| 0 <= j < 64 implies block[j] == spec::chunk_block(
            input@,
            full_blocks as int,
        )[j] by {
            if j < tail@.len() {
                assert(block@.subrange(0, tail@.len() as int)[j] == tail@[j]);
            }
        }
        assert(block@ =~= spec::chunk_block(input@, full_blocks as int));
        blocks[i] = block;
    }
    blocks
}

/// Computes the chaining value of each input, where every input is one chunk of `chunk_len` bytes
/// with the number `counter`.
///
/// The full leading blocks, if any, are hashed together. The final block, the only one that may be
/// short, goes through the compression that takes a block length.
pub fn hash_chunk_batch(
    platform: &Platform,
    in_batch: &[&[u8]],
    chunk_len: usize,
    counter: u64,
    key: &CVWords,
    flags: u8,
    flags_end: u8,
    out: &mut [CVBytes],
)
    requires
        in_batch.len() <= MAX_SIMD_DEGREE,
        in_batch.len() == old(out).len(),
        chunk_len <= CHUNK_LEN,
        forall|i: int| 0 <= i < in_batch@.len() ==> #[trigger] in_batch@[i]@.len() == chunk_len,
    ensures
        spec::cv_views(final(out)@) == spec::chunk_batch(
            slice_views(in_batch@),
            key@,
            counter,
            flags,
            flags_end,
        ),
        final(out)@.len() == old(out)@.len(),
        forall|i: int|
            0 <= i < final(out)@.len() ==> #[trigger] final(out)@[i]@ == spec::bytes_of(
                spec::chunk_cv(in_batch@[i]@, key@, counter, flags, flags_end),
            ),
{
    let n: usize = in_batch.len();
    let full_blocks: usize = chunk_len / BLOCK_LEN;
    let remainder: usize = chunk_len % BLOCK_LEN;
    let mut cv_bytes: [u8; MAX_CV_BYTES] = [0; MAX_CV_BYTES];

    if remainder == 0 && chunk_len > 0 {
        // The chunk is a whole number of full blocks, so every block including the last one can be
        // hashed as it is.
        dispatch_hash_many(
            full_blocks,
            platform,
            in_batch,
            counter,
            key,
            flags,
            flags_end,
            &mut cv_bytes,
        );
        write_cvs(&cv_bytes, out);
        assert forall|i: int| 0 <= i < n implies #[trigger] out@[i]@ == spec::bytes_of(
            spec::chunk_cv(in_batch@[i]@, key@, counter, flags, flags_end),
        ) by {
            let chunk = in_batch@[i]@;
            assert(chunk.len() == chunk_len);
            assert(slice_views(in_batch@)[i] == chunk);
            lemma_full_chunk(
                chunk,
                full_blocks as nat,
                full_blocks as nat,
                key@,
                counter,
                flags,
                flags_end,
            );
        }
        return;
    }
    // The chunk's last block is short, which includes the empty chunk, where there are no full
    // blocks at all. Hash the full leading blocks to get each lane's chaining value going into the
    // final block.
    let mut cvs: [CVWords; MAX_SIMD_DEGREE] = if full_blocks > 0 {
        hash_leading_blocks(platform, in_batch, chunk_len, counter, key, flags)
    } else {
        [*key; MAX_SIMD_DEGREE]
    };
    let ghost entering = cvs@;
    let start_flag: u8 = if full_blocks == 0 {
        CHUNK_START
    } else {
        0
    };
    let block_flags: u8 = flags | flags_end | start_flag;

    // Compress the short final blocks of all lanes at once.
    let blocks = gather_tails(in_batch, chunk_len);
    let block_len: u8 = remainder as u8;
    let (lane_cvs, _) = cvs.split_at_mut(n);
    platform.compress_many(lane_cvs, &blocks[0..n], block_len, counter, block_flags);
    for i in 0..n
        invariant
            n <= 8,
            n == out.len(),
            forall|k: int| 0 <= k < i ==> #[trigger] out@[k]@ == spec::bytes_of(cvs[k]@),
    {
        out[i] = le_bytes_from_words_32(&cvs[i]);
    }
    assert forall|i: int| 0 <= i < n implies #[trigger] out@[i]@ == spec::bytes_of(
        spec::chunk_cv(in_batch@[i]@, key@, counter, flags, flags_end),
    ) by {
        let chunk = in_batch@[i]@;
        assert(chunk.len() == chunk_len);
        lemma_leading_blocks(
            chunk,
            full_blocks as nat,
            full_blocks as nat,
            key@,
            counter,
            flags,
            flags_end,
        );
        assert(entering[i]@ == spec::chunk_cv_after(
            chunk,
            full_blocks as nat,
            key@,
            counter,
            flags,
            flags_end,
        ));
        assert(blocks[i]@ == spec::chunk_block(chunk, full_blocks as int));
        assert((flags | flags_end) | CHUNK_START == (flags | CHUNK_START) | flags_end)
            by (bit_vector);
        assert((flags | flags_end) | 0 == flags | flags_end) by (bit_vector);
    }
}

/// Splits every input at `left_len`.
fn split_batch<'a>(in_batch: &[&'a [u8]], left_len: usize) -> (r: (
    ArrayVec<&'a [u8], MAX_SIMD_DEGREE>,
    ArrayVec<&'a [u8], MAX_SIMD_DEGREE>,
))
    requires
        in_batch.len() <= MAX_SIMD_DEGREE,
        forall|i: int| 0 <= i < in_batch@.len() ==> left_len <= #[trigger] in_batch@[i]@.len(),
    ensures
        slices_in(r.0).len() == in_batch@.len(),
        slices_in(r.1).len() == in_batch@.len(),
        forall|i: int|
            0 <= i < in_batch@.len() ==> #[trigger] slices_in(r.0)[i] == in_batch@[i]@.subrange(
                0,
                left_len as int,
            ),
        forall|i: int|
            0 <= i < in_batch@.len() ==> #[trigger] slices_in(r.1)[i] == in_batch@[i]@.subrange(
                left_len as int,
                in_batch@[i]@.len() as int,
            ),
{
    let mut left_in = slices_new();
    let mut right_in = slices_new();
    for i in 0..in_batch.len()
        invariant
            in_batch.len() <= 8,
            forall|k: int| 0 <= k < in_batch@.len() ==> left_len <= #[trigger] in_batch@[k]@.len(),
            slices_in(left_in).len() == i,
            slices_in(right_in).len() == i,
            forall|k: int|
                0 <= k < i ==> #[trigger] slices_in(left_in)[k] == in_batch@[k]@.subrange(
                    0,
                    left_len as int,
                ),
            forall|k: int|
                0 <= k < i ==> #[trigger] slices_in(right_in)[k] == in_batch@[k]@.subrange(
                    left_len as int,
                    in_batch@[k]@.len() as int,
                ),
    {
        assert(left_len <= in_batch@[i as int]@.len());
        let (left, right) = in_batch[i].split_at(left_len);
        slices_push(&mut left_in, left);
        slices_push(&mut right_in, right);
    }
    (left_in, right_in)
}

/// Computes the chaining value of each input as a subtree that is not the whole tree: it never
/// applies the root flag, and its first chunk has the number `chunk_counter`.
pub fn hash_subtree_batch(
    platform: &Platform,
    in_batch: &[&[u8]],
    len: usize,
    chunk_counter: u64,
    key: &CVWords,
    flags: u8,
    out: &mut [CVBytes],
)
    requires
        in_batch.len() <= MAX_SIMD_DEGREE,
        in_batch.len() == old(out).len(),
        forall|i: int| 0 <= i < in_batch@.len() ==> #[trigger] in_batch@[i]@.len() == len,
        len > 0 ==> chunk_counter + (len - 1) / 1024 <= u64::MAX,
    ensures
        spec::cv_views(final(out)@) == spec::subtree_batch(
            slice_views(in_batch@),
            key@,
            chunk_counter,
            flags,
        ),
        final(out)@.len() == old(out)@.len(),
        forall|i: int|
            0 <= i < final(out)@.len() ==> #[trigger] final(out)@[i]@ == spec::bytes_of(
                spec::subtree_cv(in_batch@[i]@, key@, chunk_counter, flags),
            ),
    decreases len,
{
    if len <= CHUNK_LEN {
        hash_chunk_batch(platform, in_batch, len, chunk_counter, key, flags, CHUNK_END, out);
        assert forall|i: int| 0 <= i < out@.len() implies #[trigger] out@[i]@ == spec::bytes_of(
            spec::subtree_cv(in_batch@[i]@, key@, chunk_counter, flags),
        ) by {
            assert(in_batch@[i]@.len() == len);
        }
        return;
    }
    let (left_len, right_len) = split_lens(len);
    proof {
        spec::lemma_left_len_bounds(len as nat);
        assert forall|i: int| 0 <= i < in_batch@.len() implies left_len
            <= #[trigger] in_batch@[i]@.len() by {
            assert(in_batch@[i]@.len() == len);
        }
    }
    let (left_in, right_in) = split_batch(in_batch, left_len);
    let left_lanes = slices_as_slice(&left_in);
    let right_lanes = slices_as_slice(&right_in);
    let n: usize = in_batch.len();
    proof {
        lemma_lanes(in_batch@, left_lanes@, right_lanes@, left_in, right_in, len, left_len);
    }
    let mut left_cvs: [CVBytes; MAX_SIMD_DEGREE] = [[0; OUT_LEN]; MAX_SIMD_DEGREE];
    let mut right_cvs: [CVBytes; MAX_SIMD_DEGREE] = [[0; OUT_LEN]; MAX_SIMD_DEGREE];
    let right_counter: u64 = chunk_counter + (left_len / CHUNK_LEN) as u64;
    let (left_out, _) = left_cvs.split_at_mut(n);
    hash_subtree_batch(platform, left_lanes, left_len, chunk_counter, key, flags, left_out);
    let (right_out, _) = right_cvs.split_at_mut(n);
    hash_subtree_batch(platform, right_lanes, right_len, right_counter, key, flags, right_out);
    hash_parents_batch(platform, &left_cvs[0..n], &right_cvs[0..n], key, flags, out);
    assert forall|i: int| 0 <= i < out@.len() implies #[trigger] out@[i]@ == spec::bytes_of(
        spec::subtree_cv(in_batch@[i]@, key@, chunk_counter, flags),
    ) by {
        assert(in_batch@[i]@.len() == len);
        assert(left_lanes@[i]@ == in_batch@[i]@.subrange(0, left_len as int));
        assert(right_lanes@[i]@ == in_batch@[i]@.subrange(left_len as int, len as int));
    }
}

/// Computes the root hash of each input, batched across inputs at every level of the tree. Every
/// input in `in_batch` is `len` bytes long, and there are at most [`MAX_SIMD_DEGREE`] of them.
///
/// The result does not depend on the platform.
pub fn hash_batch_group(
    platform: &Platform,
    in_batch: &[&[u8]],
    len: usize,
    key: &CVWords,
    flags: u8,
    out: &mut [CVBytes],
)
    requires
        in_batch.len() <= MAX_SIMD_DEGREE,
        in_batch.len() == old(out).len(),
        forall|i: int| 0 <= i < in_batch@.len() ==> #[trigger] in_batch@[i]@.len() == len,
    ensures
        spec::cv_views(final(out)@) == spec::root_batch(slice_views(in_batch@), key@, flags),
        final(out)@.len() == old(out)@.len(),
        forall|i: int|
            0 <= i < final(out)@.len() ==> #[trigger] final(out)@[i]@ == spec::root_hash(
                in_batch@[i]@,
                key@,
                flags,
            ),
{
    if len <= CHUNK_LEN {
        // The whole input is one chunk, the last block of which, possibly empty or partial, is
        // the root.
        hash_chunk_batch(platform, in_batch, len, 0, key, flags, CHUNK_END | ROOT, out);
        assert forall|i: int| 0 <= i < out@.len() implies #[trigger] out@[i]@ == spec::root_hash(
            in_batch@[i]@,
            key@,
            flags,
        ) by {
            assert(in_batch@[i]@.len() == len);
        }
        return;
    }
    // More than one chunk: split into a left subtree and a right remainder. The inputs share a
    // length, so they split at the same point and produce the same tree shape. That is what lets
    // every node below be computed for the whole batch at once.
    let (left_len, right_len) = split_lens(len);
    proof {
        spec::lemma_left_len_bounds(len as nat);
        assert forall|i: int| 0 <= i < in_batch@.len() implies left_len
            <= #[trigger] in_batch@[i]@.len() by {
            assert(in_batch@[i]@.len() == len);
        }
    }
    let (left_in, right_in) = split_batch(in_batch, left_len);
    let left_lanes = slices_as_slice(&left_in);
    let right_lanes = slices_as_slice(&right_in);
    let n: usize = in_batch.len();
    proof {
        lemma_lanes(in_batch@, left_lanes@, right_lanes@, left_in, right_in, len, left_len);
    }
    let mut left_cvs: [CVBytes; MAX_SIMD_DEGREE] = [[0; OUT_LEN]; MAX_SIMD_DEGREE];
    let mut right_cvs: [CVBytes; MAX_SIMD_DEGREE] = [[0; OUT_LEN]; MAX_SIMD_DEGREE];
    let left_chunks: u64 = (left_len / CHUNK_LEN) as u64;
    let (left_out, _) = left_cvs.split_at_mut(n);
    hash_subtree_batch(platform, left_lanes, left_len, 0, key, flags, left_out);
    let (right_out, _) = right_cvs.split_at_mut(n);
    hash_subtree_batch(platform, right_lanes, right_len, left_chunks, key, flags, right_out);

    // This is the top of the tree for every input in the batch, so this parent node is where each
    // input's root flag is applied.
    hash_parents_batch(platform, &left_cvs[0..n], &right_cvs[0..n], key, flags | ROOT, out);
    assert forall|i: int| 0 <= i < out@.len() implies #[trigger] out@[i]@ == spec::root_hash(
        in_batch@[i]@,
        key@,
        flags,
    ) by {
        assert(in_batch@[i]@.len() == len);
        assert(left_lanes@[i]@ == in_batch@[i]@.subrange(0, left_len as int));
        assert(right_lanes@[i]@ == in_batch@[i]@.subrange(left_len as int, len as int));
    }
}

/// The lanes that a split hands out are the two parts of the inputs.
proof fn lemma_lanes(
    inputs: Seq<&[u8]>,
    left_lanes: Seq<&[u8]>,
    right_lanes: Seq<&[u8]>,
    left_in: ArrayVec<&[u8], MAX_SIMD_DEGREE>,
    right_in: ArrayVec<&[u8], MAX_SIMD_DEGREE>,
    len: usize,
    left_len: usize,
)
    requires
        left_len <= len,
        slice_views(left_lanes) == slices_in(left_in),
        slice_views(right_lanes) == slices_in(right_in),
        slices_in(left_in).len() == inputs.len(),
        slices_in(right_in).len() == inputs.len(),
        forall|i: int| 0 <= i < inputs.len() ==> #[trigger] inputs[i]@.len() == len,
        forall|i: int|
            0 <= i < inputs.len() ==> #[trigger] slices_in(left_in)[i] == inputs[i]@.subrange(
                0,
                left_len as int,
            ),
        forall|i: int|
            0 <= i < inputs.len() ==> #[trigger] slices_in(right_in)[i] == inputs[i]@.subrange(
                left_len as int,
                inputs[i]@.len() as int,
            ),
    ensures
        left_lanes.len() == inputs.len(),
        right_lanes.len() == inputs.len(),
        forall|i: int|
            0 <= i < inputs.len() ==> #[trigger] left_lanes[i]@ == inputs[i]@.subrange(
                0,
                left_len as int,
            ),
        forall|i: int|
            0 <= i < inputs.len() ==> #[trigger] right_lanes[i]@ == inputs[i]@.subrange(
                left_len as int,
                len as int,
            ),
{
    assert(slice_views(left_lanes).len() == left_lanes.len());
    assert(slice_views(right_lanes).len() == right_lanes.len());
    assert forall|i: int| 0 <= i < inputs.len() implies #[trigger] left_lanes[i]@
        == inputs[i]@.subrange(0, left_len as int) by {
        assert(slice_views(left_lanes)[i] == slices_in(left_in)[i]);
    }
    assert forall|i: int| 0 <= i < inputs.len() implies #[trigger] right_lanes[i]@
        == inputs[i]@.subrange(left_len as int, len as int) by {
        assert(slice_views(right_lanes)[i] == slices_in(right_in)[i]);
        assert(inputs[i]@.len() == len);
    }
}

/// Hashes a batch group by group, with the given key words and mode flags.
pub fn hash_batch(inputs: &[&[u8]], key: &CVWords, flags: u8, out: &mut [crate::Hash]) -> (ok: bool)
    ensures
        (ok, spec::hash_views(final(out)@)) == spec::batch(
            slice_views(inputs@),
            key@,
            flags,
            spec::hash_views(old(out)@),
        ),
        ok == spec::lines_up(slice_views(inputs@), old(out)@.len()),
        final(out)@.len() == old(out)@.len(),
        ok ==> forall|i: int|
            0 <= i < inputs@.len() ==> #[trigger] final(out)@[i]@ == spec::root_hash(inputs@[i]@, key@, flags),
        !ok ==> final(out)@ == old(out)@,
{
    let ghost before = out@;
    let len: usize = match batch_len(inputs, out) {
        Some(len) => len,
        None => {
            return false;
        },
    };
    let platform = Platform::detect();
    let degree: usize = platform.simd_degree();
    let mut done: usize = 0;
    while done < inputs.len()
        invariant
            1 <= degree <= MAX_SIMD_DEGREE,
            done <= inputs.len(),
            inputs.len() == out.len(),
            forall|i: int| 0 <= i < inputs@.len() ==> #[trigger] inputs@[i]@.len() == len,
            forall|i: int|
                0 <= i < done ==> #[trigger] out@[i]@ == spec::root_hash(inputs@[i]@, key@, flags),
        decreases inputs.len() - done,
    {
        let n: usize = if inputs.len() - done < degree {
            inputs.len() - done
        } else {
            degree
        };
        let in_batch = &inputs[done..done + n];
        assert forall|i: int| 0 <= i < n implies #[trigger] in_batch@[i]@.len() == len by {
            assert(in_batch@[i] == inputs@[done + i]);
        }
        let ghost middle = out@;
        let mut raw: [CVBytes; MAX_SIMD_DEGREE] = [[0; OUT_LEN]; MAX_SIMD_DEGREE];
        let (raw_out, _) = raw.split_at_mut(n);
        hash_batch_group(&platform, in_batch, len, key, flags, raw_out);
        for i in 0..n
            invariant
                n <= 8,
                done + n <= out.len(),
                out@.len() == middle.len(),
                forall|k: int| 0 <= k < done ==> #[trigger] out@[k] == middle[k],
                forall|k: int| done <= k < done + i ==> #[trigger] out@[k]@ == raw[k - done]@,
        {
            out[done + i] = crate::Hash::from_bytes(raw[i]);
        }
        assert forall|k: int| 0 <= k < done + n implies #[trigger] out@[k]@ == spec::root_hash(
            inputs@[k]@,
            key@,
            flags,
        ) by {
            if k < done {
                assert(out@[k] == middle[k]);
            } else {
                assert(in_batch@[k - done] == inputs@[k]);
                assert(out@[k]@ == raw[k - done]@);
            }
        }
        done = done + n;
    }
    assert(spec::hash_views(out@) =~= spec::batch(
        slice_views(inputs@),
        key@,
        flags,
        spec::hash_views(before),
    ).1);
    true
}

/// Hashes a batch group by group, with the given key words and mode flags, straight to bytes.
pub fn hash_batch_bytes(inputs: &[&[u8]], key: &CVWords, flags: u8, out: &mut [CVBytes]) -> (ok: bool)
    ensures
        (ok, spec::cv_views(final(out)@)) == spec::batch(
            slice_views(inputs@),
            key@,
            flags,
            spec::cv_views(old(out)@),
        ),
        ok == spec::lines_up(slice_views(inputs@), old(out)@.len()),
        final(out)@.len() == old(out)@.len(),
        ok ==> forall|i: int|
            0 <= i < inputs@.len() ==> #[trigger] final(out)@[i]@ == spec::root_hash(inputs@[i]@, key@, flags),
        !ok ==> final(out)@ == old(out)@,
{
    let ghost before = out@;
    let len: usize = match batch_len(inputs, out) {
        Some(len) => len,
        None => {
            return false;
        },
    };
    let platform = Platform::detect();
    let degree: usize = platform.simd_degree();
    let mut done: usize = 0;
    while done < inputs.len()
        invariant
            1 <= degree <= MAX_SIMD_DEGREE,
            done <= inputs.len(),
            inputs.len() == out.len(),
            forall|i: int| 0 <= i < inputs@.len() ==> #[trigger] inputs@[i]@.len() == len,
            forall|i: int|
                0 <= i < done ==> #[trigger] out@[i]@ == spec::root_hash(inputs@[i]@, key@, flags),
        decreases inputs.len() - done,
    {
        let n: usize = if inputs.len() - done < degree {
            inputs.len() - done
        } else {
            degree
        };
        let in_batch = &inputs[done..done + n];
        assert forall|i: int| 0 <= i < n implies #[trigger] in_batch@[i]@.len() == len by {
            assert(in_batch@[i] == inputs@[done + i]);
        }
        let ghost middle = out@;
        let (_, rest) = out.split_at_mut(done);
        let (out_batch, _) = rest.split_at_mut(n);
        hash_batch_group(&platform, in_batch, len, key, flags, out_batch);
        let ghost written = out_batch@;
        assert forall|k: int| 0 <= k < done + n implies #[trigger] out@[k]@ == spec::root_hash(
            inputs@[k]@,
            key@,
            flags,
        ) by {
            if k < done {
                assert(out@[k] == middle[k]);
            } else {
                assert(in_batch@[k - done] == inputs@[k]);
                assert(out@[k] == written[k - done]);
            }
        }
        done = done + n;
    }
    assert(spec::cv_views(out@) =~= spec::batch(
        slice_views(inputs@),
        key@,
        flags,
        spec::cv_views(before),
    ).1);
    true
}

/// Hash a batch of equal-length, independent inputs, writing one hash per input into `out`.
///
/// This is equivalent to calling [`crate::hash()`] on each input separately, but it shares the work
/// of the vector kernel across the whole batch.
///
/// Returns `false`, having written nothing, if `inputs` and `out` aren't the same length or the
/// inputs aren't all the same length as each other.
#[must_use]
pub fn hash(inputs: &[&[u8]], out: &mut [crate::Hash]) -> (ok: bool)
    ensures
        (ok, spec::hash_views(final(out)@)) == spec::batch(
            slice_views(inputs@),
            IV@,
            0,
            spec::hash_views(old(out)@),
        ),
        ok == spec::lines_up(slice_views(inputs@), old(out)@.len()),
        final(out)@.len() == old(out)@.len(),
        ok ==> forall|i: int|
            0 <= i < inputs@.len() ==> #[trigger] final(out)@[i]@ == spec::hash(inputs@[i]@),
        !ok ==> final(out)@ == old(out)@,
{
    hash_batch(inputs, &IV, 0, out)
}

/// The keyed hash function, applied to a batch of equal-length, independent inputs.
///
/// This is equivalent to calling [`crate::keyed_hash`] on each input separately, but it shares the
/// work of the vector kernel across the whole batch.
///
/// Returns `false`, having written nothing, if `inputs` and `out` aren't the same length or the
/// inputs aren't all the same length as each other.
#[must_use]
pub fn keyed_hash(key: &[u8; KEY_LEN], inputs: &[&[u8]], out: &mut [crate::Hash]) -> (ok: bool)
    ensures
        (ok, spec::hash_views(final(out)@)) == spec::batch(
            slice_views(inputs@),
            spec::words_of(key@),
            KEYED_HASH,
            spec::hash_views(old(out)@),
        ),
        ok == spec::lines_up(slice_views(inputs@), old(out)@.len()),
        final(out)@.len() == old(out)@.len(),
        ok ==> forall|i: int|
            0 <= i < inputs@.len() ==> #[trigger] final(out)@[i]@ == spec::keyed_hash(key@, inputs@[i]@),
        !ok ==> final(out)@ == old(out)@,
{
    let key_words = words_from_le_bytes_32(key);
    hash_batch(inputs, &key_words, KEYED_HASH, out)
}

/// The key derivation function, applied to a batch of equal-length, independent key materials
/// sharing one context string.
///
/// This is equivalent to calling [`crate::derive_key`] with the same `context` on each element of
/// `key_materials` separately, but it shares the work of the vector kernel across the whole batch.
///
/// Returns `false`, having written nothing, if `key_materials` and `out` aren't the same length or
/// the key materials aren't all the same length as each other.
#[must_use]
pub fn derive_key(context: &str, key_materials: &[&[u8]], out: &mut [CVBytes]) -> (ok: bool)
    ensures
        (ok, spec::cv_views(final(out)@)) == spec::batch(
            slice_views(key_materials@),
            spec::words_of(spec::context_key(context.spec_bytes())),
            DERIVE_KEY_MATERIAL,
            spec::cv_views(old(out)@),
        ),
        ok == spec::lines_up(slice_views(key_materials@), old(out)@.len()),
        final(out)@.len() == old(out)@.len(),
        ok ==> forall|i: int|
            0 <= i < key_materials@.len() ==> #[trigger] final(out)@[i]@ == spec::derive_key(context.spec_bytes(), key_materials@[i]@),
        !ok ==> final(out)@ == old(out)@,
{
    let context_key = hash_derive_key_context(context);
    let context_key_words = words_from_le_bytes_32(&context_key);
    hash_batch_bytes(key_materials, &context_key_words, DERIVE_KEY_MATERIAL, out)
}

} // verus!
