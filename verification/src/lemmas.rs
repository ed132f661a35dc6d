//! Facts about the model that the executable functions rest on.
use crate::spec::{
    block_count, block_flags, blocks_cv, bytes_of, chunk_block, chunk_cv_after, left_len, mix, rotr,
    words_of, wrap,
    CHUNK_START,
};
use vstd::arithmetic::power2::{lemma2_to64, lemma_pow2_pos, lemma_pow2_unfold, pow2};
use vstd::prelude::*;

verus! {

/// The sum of three words does not depend on when it is reduced, nor on their order.
pub proof fn lemma_wrap_sum(a: u32, b: u32, c: u32)
    ensures
        wrap(wrap(a + b) + c) == wrap(a + c + b),
{
    reveal(wrap);
}

/// Adding the same number modulo 2^32 keeps different words different.
proof fn lemma_wrap_is_injective(a: u32, b: u32, k: int)
    requires
        wrap(a + k) == wrap(b + k),
    ensures
        a == b,
{
    reveal(wrap);
    let n = 0x1_0000_0000int;
    assert((a + k) % n == (b + k) % n);
}

/// Rotating and xoring with the same word keep different words different.
proof fn lemma_rotations_are_injective(x: u32, y: u32, z: u32)
    by (bit_vector)
    ensures
        rotr(x ^ z, 16) == rotr(y ^ z, 16) ==> x == y,
        rotr(x ^ z, 12) == rotr(y ^ z, 12) ==> x == y,
        rotr(x ^ z, 8) == rotr(y ^ z, 8) ==> x == y,
        rotr(x ^ z, 7) == rotr(y ^ z, 7) ==> x == y,
{
}

/// For fixed message words, the quarter round keeps different words different.
pub proof fn lemma_mix_is_injective(
    v: (u32, u32, u32, u32),
    w: (u32, u32, u32, u32),
    x: u32,
    y: u32,
)
    requires
        mix(v.0, v.1, v.2, v.3, x, y) == mix(w.0, w.1, w.2, w.3, x, y),
    ensures
        v == w,
{
    reveal(mix);
    let a1 = wrap(v.0 + v.1 + x);
    let d1 = rotr(v.3 ^ a1, 16);
    let c1 = wrap(v.2 + d1);
    let b1 = rotr(v.1 ^ c1, 12);
    let e1 = wrap(w.0 + w.1 + x);
    let h1 = rotr(w.3 ^ e1, 16);
    let g1 = wrap(w.2 + h1);
    let f1 = rotr(w.1 ^ g1, 12);
    let a2 = wrap(a1 + b1 + y);
    let d2 = rotr(d1 ^ a2, 8);
    let c2 = wrap(c1 + d2);
    // The steps of the quarter round, backwards.
    lemma_rotations_are_injective(b1, f1, c2);
    lemma_rotations_are_injective(d1, h1, a2);
    lemma_wrap_is_injective(c1, g1, d2 as int);
    lemma_wrap_is_injective(a1, e1, b1 + y);
    lemma_rotations_are_injective(v.1, w.1, c1);
    lemma_rotations_are_injective(v.3, w.3, a1);
    lemma_wrap_is_injective(v.2, w.2, d1 as int);
    lemma_wrap_is_injective(v.0, w.0, v.1 + x);
}

/// Words survive the way to bytes and back.
pub proof fn lemma_words_of_bytes(words: Seq<u32>)
    ensures
        words_of(bytes_of(words)) == words,
{
    let bytes = bytes_of(words);
    assert forall|i: int| 0 <= i < words.len() implies #[trigger] words_of(bytes)[i] == words[i] by {
        let w = words[i];
        assert(bytes[4 * i] == w % 0x100);
        assert(bytes[4 * i + 1] == w / 0x100 % 0x100);
        assert(bytes[4 * i + 2] == w / 0x1_0000 % 0x100);
        assert(bytes[4 * i + 3] == w / 0x100_0000);
    }
    assert(words_of(bytes) =~= words);
}

/// The bytes of a little-endian word are its digits to the base 256.
pub proof fn lemma_word_digits(b0: u8, b1: u8, b2: u8, b3: u8, w: u32)
    by (bit_vector)
    requires
        w == b0 + 0x100 * b1 + 0x1_0000 * b2 + 0x100_0000 * b3,
    ensures
        w % 0x100 == b0,
        w / 0x100 % 0x100 == b1,
        w / 0x1_0000 % 0x100 == b2,
        w / 0x100_0000 == b3,
{
}

/// A power of two below `len` that reaches at least half of it is the largest one below.
pub proof fn lemma_left_len_unique(len: nat, k: nat)
    requires
        pow2(k) < len <= pow2(k + 1),
    ensures
        left_len(len) == pow2(k),
    decreases k,
{
    lemma_pow2_unfold(k + 1);
    lemma2_to64();
    if k > 0 {
        lemma_pow2_unfold(k);
        lemma_pow2_pos((k - 1) as nat);
        lemma_left_len_unique((len + 1) / 2, (k - 1) as nat);
    }
}

/// Lengths with the same number of chunks split at the same place.
pub proof fn lemma_left_len_same(len: nat, whole: nat)
    requires
        1024 < len <= whole < len + 1024,
        whole % 1024 == 0,
    ensures
        left_len(len) == left_len(whole),
{
    crate::laws::law_left_len(len);
    crate::laws::law_left_len(whole);
    let l = left_len(len);
    let k = choose|k: nat| l == #[trigger] pow2(k);
    lemma_pow2_unfold(k + 1);
    // `len` is at most `2 * l`, a whole number of chunks, so `whole` is too.
    lemma_left_len_unique(whole, k);
}

/// The blocks of a chunk that is a whole number of full blocks are simply its 64-byte pieces.
pub proof fn lemma_full_chunk(
    chunk: Seq<u8>,
    n: nat,
    count: nat,
    key: Seq<u32>,
    counter: u64,
    flags: u8,
    end: u8,
)
    requires
        0 < count,
        chunk.len() == 64 * count,
        n <= count,
    ensures
        chunk_cv_after(chunk, n, key, counter, flags, end) == blocks_cv(
            chunk,
            n,
            count,
            key,
            counter,
            flags,
            CHUNK_START,
            end,
        ),
    decreases n,
{
    if n > 0 {
        lemma_full_chunk(chunk, (n - 1) as nat, count, key, counter, flags, end);
        assert(chunk_block(chunk, n - 1) =~= chunk.subrange(64 * (n - 1), 64 * n as int));
    }
}

/// The full blocks before a short last block are the 64-byte pieces of the chunk without that
/// block, and none of them has an end flag.
pub proof fn lemma_leading_blocks(
    chunk: Seq<u8>,
    n: nat,
    full: nat,
    key: Seq<u32>,
    counter: u64,
    flags: u8,
    end: u8,
)
    requires
        64 * full <= chunk.len() < 64 * full + 64,
        chunk.len() == 64 * full ==> full == 0,
        n <= full,
    ensures
        chunk_cv_after(chunk, n, key, counter, flags, end) == blocks_cv(
            chunk.subrange(0, 64 * full as int),
            n,
            full,
            key,
            counter,
            flags,
            CHUNK_START,
            0,
        ),
    decreases n,
{
    if n > 0 {
        lemma_leading_blocks(chunk, (n - 1) as nat, full, key, counter, flags, end);
        let head = chunk.subrange(0, 64 * full as int);
        assert(chunk_block(chunk, n - 1) =~= head.subrange(64 * (n - 1), 64 * n as int));
        let f: u8 = block_flags(n - 1, block_count(chunk.len()) as int, flags, CHUNK_START, end);
        assert(f | 0 == f) by (bit_vector);
    }
}

} // verus!
