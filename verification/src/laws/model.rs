//! What the definitions of [`crate::spec`] amount to: what a result has to satisfy, said of the
//! bytes and words that go in and come out.
//!
//! Most laws here take the steps of a computation as arguments: whoever has values that fit
//! together step by step, from the inputs on, has the result at the end of them.
use crate::platform::{CVBytes, IncrementCounter};
use crate::rust_avx2::{lane, rows, transposed, U32x8};
use crate::spec::{
    array_views, batch, block_count, block_flags, block_views, blocks_cv, byte_of, bytes_of,
    chunk_batch, chunk_block, chunk_block_len, chunk_cv, chunk_cv_after, common_len, compress,
    context_key, cv_views, derive_key, hash, hash_blocks, hash_views, hashes_many,
    high_word, initial_state, keyed_hash, lane_counter, le_word, left_len, lemma_left_len_bounds,
    lines_up, low_word, mix, parent_cv, parents_batch, root_batch, root_cv, root_hash, rotr, round,
    rounds, slice_views, subtree_batch, subtree_cv, words_of, wrap, BLOCK_LEN, MSG_SCHEDULE,
};
use vstd::arithmetic::power2::{lemma2_to64, lemma_pow2_strictly_increases, lemma_pow2_unfold, pow2};
use vstd::prelude::*;

verus! {

/// A word modulo 2^32 differs from the number by a multiple of 2^32.
pub proof fn law_wrap(x: int)
    ensures
        (x - wrap(x)) % 0x1_0000_0000 == 0,
{
    reveal(wrap);
}

/// Rotating a word to the right by `n` bits divides it by 2^n and puts the remainder on top.
pub proof fn law_rotations(x: u32)
    ensures
        rotr(x, 16) == x / 0x1_0000 + 0x1_0000 * (x % 0x1_0000),
        rotr(x, 12) == x / 0x1000 + 0x10_0000 * (x % 0x1000),
        rotr(x, 8) == x / 0x100 + 0x100_0000 * (x % 0x100),
        rotr(x, 7) == x / 0x80 + 0x200_0000 * (x % 0x80),
{
    assert(rotr(x, 16) == x / 0x1_0000 + 0x1_0000 * (x % 0x1_0000)) by (bit_vector);
    assert(rotr(x, 12) == x / 0x1000 + 0x10_0000 * (x % 0x1000)) by (bit_vector);
    assert(rotr(x, 8) == x / 0x100 + 0x100_0000 * (x % 0x100)) by (bit_vector);
    assert(rotr(x, 7) == x / 0x80 + 0x200_0000 * (x % 0x80)) by (bit_vector);
}

/// `x` rotated to the left by `n` bits.
pub open spec fn rotl(x: u32, n: u32) -> u32 {
    (x << n) | (x >> ((32 - n) as u32))
}

/// The difference `x` modulo 2^32.
pub open spec fn difference(x: int) -> u32 {
    (x % 0x1_0000_0000) as u32
}

/// A quarter round can be taken back: rotations to the left, xors and differences lead from the
/// four words that it gives to those that it was given.
pub proof fn law_mix_taken_back(a: u32, b: u32, c: u32, d: u32, x: u32, y: u32)
    ensures
        ({
            let (a2, b2, c2, d2) = mix(a, b, c, d, x, y);
            let b1 = rotl(b2, 7) ^ c2;
            let d1 = rotl(d2, 8) ^ a2;
            let c1 = difference(c2 - d2);
            let a1 = difference(a2 - b1 - y);
            &&& b == rotl(b1, 12) ^ c1
            &&& d == rotl(d1, 16) ^ a1
            &&& c == difference(c1 - d1)
            &&& a == difference(a1 - b - x)
        }),
{
    reveal(mix);
    let a1 = wrap(a + b + x);
    let d1 = rotr(d ^ a1, 16);
    let c1 = wrap(c + d1);
    let b1 = rotr(b ^ c1, 12);
    let a2 = wrap(a1 + b1 + y);
    let d2 = rotr(d1 ^ a2, 8);
    let c2 = wrap(c1 + d2);
    let b2 = rotr(b1 ^ c2, 7);
    lemma_rotations_cancel(d, a1);
    lemma_rotations_cancel(b, c1);
    lemma_rotations_cancel(d1, a2);
    lemma_rotations_cancel(b1, c2);
    lemma_sums_cancel(c1, d2 as int);
    lemma_sums_cancel(a1, b1 + y);
    lemma_sums_cancel(c, d1 as int);
    lemma_sums_cancel(a, b + x);
    assert(a1 + (b1 + y) == a1 + b1 + y && a2 - (b1 + y) == a2 - b1 - y);
    assert(a + (b + x) == a + b + x && a1 - (b + x) == a1 - b - x);
}

/// Subtracting takes back adding, modulo 2^32.
proof fn lemma_sums_cancel(a: u32, k: int)
    ensures
        difference(wrap(a + k) - k) == a,
{
    reveal(wrap);
    let n = 0x1_0000_0000int;
    assert(((a + k) % n - k) % n == a);
}

/// Rotating to the left takes back rotating to the right, and a second xor the first one.
proof fn lemma_rotations_cancel(x: u32, z: u32)
    by (bit_vector)
    ensures
        rotl(rotr(x ^ z, 16), 16) ^ z == x,
        rotl(rotr(x ^ z, 12), 12) ^ z == x,
        rotl(rotr(x ^ z, 8), 8) ^ z == x,
        rotl(rotr(x ^ z, 7), 7) ^ z == x,
{
}

/// A 4-by-4 state after each of its columns went through the quarter round, column `k` with the
/// words number `2 * k` and `2 * k + 1`.
pub open spec fn columns_mixed(v: Seq<u32>, words: Seq<u32>) -> Seq<u32> {
    Seq::new(
        16,
        |i: int|
            {
                let k = i % 4;
                let q = mix(
                    v[k],
                    v[4 + k],
                    v[8 + k],
                    v[12 + k],
                    words[2 * k],
                    words[2 * k + 1],
                );
                if i < 4 {
                    q.0
                } else if i < 8 {
                    q.1
                } else if i < 12 {
                    q.2
                } else {
                    q.3
                }
            },
    )
}

/// A 4-by-4 state with row `j` turned to the left by `by * j` places.
pub open spec fn turned(v: Seq<u32>, by: int) -> Seq<u32> {
    Seq::new(16, |i: int| v[4 * (i / 4) + (i % 4 + by * (i / 4)) % 4])
}

/// The words of a block in the order of the next round.
pub open spec fn shuffled(m: Seq<u32>) -> Seq<u32> {
    seq![
        m[2], m[6], m[3], m[10], m[7], m[0], m[4], m[13],
        m[1], m[11], m[12], m[5], m[9], m[14], m[15], m[8],
    ]
}

/// `orders` are the words of a block in the order of each round: at first as they stand in the
/// block, and then shuffled from round to round.
pub open spec fn round_orders(orders: Seq<Seq<u32>>) -> bool {
    &&& orders.len() == 7
    &&& orders[0].len() == 16
    &&& orders[1] == shuffled(orders[0])
    &&& orders[2] == shuffled(orders[1])
    &&& orders[3] == shuffled(orders[2])
    &&& orders[4] == shuffled(orders[3])
    &&& orders[5] == shuffled(orders[4])
    &&& orders[6] == shuffled(orders[5])
}

/// A round mixes the columns with the first half of its words, turns the rows so that the
/// diagonals become columns, mixes those with the second half, and turns the rows back.
pub proof fn law_round_by_columns(v: Seq<u32>, orders: Seq<Seq<u32>>, r: int)
    requires
        v.len() == 16,
        round_orders(orders),
        0 <= r < 7,
    ensures
        round(v, orders[0], r) == turned(
            columns_mixed(
                turned(columns_mixed(v, orders[r].subrange(0, 8)), 1),
                orders[r].subrange(8, 16),
            ),
            -1,
        ),
{
    reveal(round);
    let m = orders[0];
    let s = MSG_SCHEDULE[r];
    assert forall|k: int| 0 <= k < 16 implies #[trigger] orders[r][k] == m[s[k] as int] by {}
    let first = orders[r].subrange(0, 8);
    let second = orders[r].subrange(8, 16);
    let u = columns_mixed(v, first);
    let t = turned(u, 1);
    let w = columns_mixed(t, second);
    assert(t =~= seq![
        u[0], u[1], u[2], u[3],
        u[5], u[6], u[7], u[4],
        u[10], u[11], u[8], u[9],
        u[15], u[12], u[13], u[14],
    ]);
    assert(turned(w, -1) =~= seq![
        w[0], w[1], w[2], w[3],
        w[7], w[4], w[5], w[6],
        w[10], w[11], w[8], w[9],
        w[13], w[14], w[15], w[12],
    ]);
    assert(turned(w, -1) =~= round(v, m, r));
}

/// The two words of a block counter are its digits to the base 2^32, so different counters have
/// different words.
pub proof fn law_counter_words(counter: u64)
    ensures
        low_word(counter) + 0x1_0000_0000 * high_word(counter) == counter,
{
}

/// `s` is the state with which a compression starts: the chaining value, the first half of the
/// initialization vector, the counter, the block length and the flags.
pub open spec fn starts_with(
    s: Seq<u32>,
    cv: Seq<u32>,
    block_len: u8,
    counter: u64,
    flags: u8,
) -> bool {
    &&& s.len() == 16
    &&& forall|i: int| 0 <= i < 8 ==> #[trigger] s[i] == cv[i]
    &&& s[8] == 0x6A09_E667
    &&& s[9] == 0xBB67_AE85
    &&& s[10] == 0x3C6E_F372
    &&& s[11] == 0xA54F_F53A
    &&& s[12] + 0x1_0000_0000 * s[13] == counter
    &&& s[14] == block_len
    &&& s[15] == flags
}

/// The state with which a compression starts holds everything that goes into it, as it is.
pub proof fn law_initial_state(cv: Seq<u32>, block_len: u8, counter: u64, flags: u8)
    ensures
        starts_with(initial_state(cv, block_len, counter, flags), cv, block_len, counter, flags),
{
}

/// Compressions that differ in the chaining value, the block length, the counter or the flags
/// start from different states.
pub proof fn law_initial_states_differ(
    cv1: Seq<u32>,
    cv2: Seq<u32>,
    block_len1: u8,
    block_len2: u8,
    counter1: u64,
    counter2: u64,
    flags1: u8,
    flags2: u8,
)
    requires
        cv1.len() == 8,
        cv2.len() == 8,
        initial_state(cv1, block_len1, counter1, flags1) == initial_state(
            cv2,
            block_len2,
            counter2,
            flags2,
        ),
    ensures
        cv1 == cv2,
        block_len1 == block_len2,
        counter1 == counter2,
        flags1 == flags2,
{
    let s1 = initial_state(cv1, block_len1, counter1, flags1);
    let s2 = initial_state(cv2, block_len2, counter2, flags2);
    law_initial_state(cv1, block_len1, counter1, flags1);
    law_initial_state(cv2, block_len2, counter2, flags2);
    assert forall|i: int| 0 <= i < 8 implies cv1[i] == cv2[i] by {
        assert(s1[i] == s2[i]);
    }
    assert(cv1 =~= cv2);
    assert(s1[14] == s2[14] && s1[15] == s2[15]);
}

/// `words` are the little-endian words in `bytes`.
pub open spec fn words_in(words: Seq<u32>, bytes: Seq<u8>) -> bool {
    &&& bytes.len() == 4 * words.len()
    &&& forall|i: int|
        0 <= i < words.len() ==> #[trigger] words[i] == bytes[4 * i] + 256 * (bytes[4 * i + 1] + 256
            * (bytes[4 * i + 2] + 256 * bytes[4 * i + 3]))
}

/// Words and their little-endian bytes determine each other, at every length.
pub proof fn law_words_and_bytes(words: Seq<u32>, bytes: Seq<u8>)
    requires
        words_in(words, bytes),
    ensures
        words_of(bytes) == words,
        bytes_of(words) == bytes,
{
    assert(words_of(bytes) =~= words);
    super::law_bytes_round_trip(bytes);
}

/// A word holds four bytes, which are its digits to the base 256, and is read back from wherever
/// they stand.
pub proof fn law_word(w: u32, bytes: Seq<u8>, i: int)
    requires
        0 <= i,
        i + 4 <= bytes.len(),
        forall|k: int| 0 <= k < 4 ==> bytes[i + k] == #[trigger] byte_of(w, k),
    ensures
        w == byte_of(w, 0) + 256 * (byte_of(w, 1) + 256 * (byte_of(w, 2) + 256 * byte_of(w, 3))),
        le_word(bytes, i) == w,
{
    assert(bytes[i + 0] == byte_of(w, 0));
    assert(bytes[i + 1] == byte_of(w, 1));
    assert(bytes[i + 2] == byte_of(w, 2));
    assert(bytes[i + 3] == byte_of(w, 3));
}

/// Whatever state the seven rounds lead to, from the state that holds the inputs and with the words
/// of the block, its upper half xored into its lower half is the new chaining value.
pub proof fn law_compression(
    cv: Seq<u32>,
    block: Seq<u8>,
    block_len: u8,
    counter: u64,
    flags: u8,
    m: Seq<u32>,
    states: Seq<Seq<u32>>,
)
    requires
        cv.len() == 8,
        m.len() == 16,
        words_in(m, block),
        states.len() == 8,
        starts_with(states[0], cv, block_len, counter, flags),
        forall|r: int| 0 <= r < 7 ==> states[r + 1] == #[trigger] round(states[r], m, r),
    ensures
        compress(cv, block, block_len, counter, flags).len() == 8,
        forall|i: int|
            0 <= i < 8 ==> #[trigger] compress(cv, block, block_len, counter, flags)[i]
                == states[7][i] ^ states[7][i + 8],
{
    reveal(compress);
    law_words_and_bytes(m, block);
    let start = initial_state(cv, block_len, counter, flags);
    law_initial_state(cv, block_len, counter, flags);
    assert forall|i: int| 0 <= i < 16 implies states[0][i] == start[i] by {
        if i < 8 {
            assert(states[0][i] == cv[i]);
            assert(start[i] == cv[i]);
        }
    }
    assert(states[0] =~= start);
    lemma_rounds(states, m, 7);
}

/// The state after `n` rounds is the last of `n` steps.
proof fn lemma_rounds(states: Seq<Seq<u32>>, m: Seq<u32>, n: nat)
    requires
        n < states.len(),
        forall|r: int| 0 <= r < n ==> states[r + 1] == #[trigger] round(states[r], m, r),
    ensures
        rounds(states[0], m, n) == states[n as int],
    decreases n,
{
    if n > 0 {
        lemma_rounds(states, m, (n - 1) as nat);
        assert(states[n - 1 + 1] == round(states[n - 1], m, n - 1));
    }
}

/// The flags of a block hold the start flags if and only if it is the first one and the end flags
/// if and only if it is the last one, beside the flags of all blocks.
pub proof fn law_block_flags(k: int, count: int, flags: u8, start: u8, end: u8)
    requires
        0 <= k < count,
    ensures
        block_flags(k, count, flags, start, end) == flags | (if k == 0 {
            start
        } else {
            0
        }) | (if k == count - 1 {
            end
        } else {
            0
        }),
        k == 0 ==> block_flags(k, count, flags, start, end) & start == start,
        k == count - 1 ==> block_flags(k, count, flags, start, end) & end == end,
        0 < k < count - 1 ==> block_flags(k, count, flags, start, end) == flags,
{
    assert((flags | 0) | 0 == flags) by (bit_vector);
    assert((flags | start) | 0 == flags | start) by (bit_vector);
    assert((flags | 0) | end == flags | end) by (bit_vector);
    assert((flags | start) & start == start) by (bit_vector);
    assert(((flags | start) | end) & start == start) by (bit_vector);
    assert(((flags | start) | end) & end == end) by (bit_vector);
    assert((flags | end) & end == end) by (bit_vector);
}

/// The sum of `lens`.
pub open spec fn total(lens: Seq<u8>) -> nat
    decreases lens.len(),
{
    if lens.len() == 0 {
        0
    } else {
        total(lens.drop_last()) + lens.last() as nat
    }
}

/// The lengths of the first `n` blocks of a chunk.
pub open spec fn block_lens(len: nat, n: nat) -> Seq<u8> {
    Seq::new(n, |k: int| chunk_block_len(len, k))
}

/// The lengths of the blocks of a chunk add up to its length. No block holds more than 64 bytes,
/// and only the block of an empty chunk is empty.
pub proof fn law_block_lens_add_up(len: nat)
    ensures
        total(block_lens(len, block_count(len))) == len,
        forall|k: int| 0 <= k < block_count(len) ==> #[trigger] chunk_block_len(len, k) <= 64,
        forall|k: int|
            0 <= k < block_count(len) && len > 0 ==> 0 < #[trigger] chunk_block_len(len, k),
{
    let count = block_count(len);
    lemma_total_of_full_blocks(len, (count - 1) as nat);
    let lens = block_lens(len, count);
    assert(lens.drop_last() =~= block_lens(len, (count - 1) as nat));
}

/// Blocks before the last one are full.
proof fn lemma_total_of_full_blocks(len: nat, n: nat)
    requires
        64 * n <= len,
    ensures
        total(block_lens(len, n)) == 64 * n,
    decreases n,
{
    if n > 0 {
        lemma_total_of_full_blocks(len, (n - 1) as nat);
        assert(block_lens(len, n).drop_last() =~= block_lens(len, (n - 1) as nat));
    }
}

/// A chunk is determined by its blocks and their lengths: no other chunk has the same ones, not
/// even one that differs by zeros at its end.
pub proof fn law_blocks_determine_chunk(chunk1: Seq<u8>, chunk2: Seq<u8>)
    requires
        block_count(chunk1.len()) == block_count(chunk2.len()),
        forall|k: int|
            0 <= k < block_count(chunk1.len()) ==> #[trigger] chunk_block(chunk1, k) == chunk_block(
                chunk2,
                k,
            ),
        forall|k: int|
            0 <= k < block_count(chunk1.len()) ==> #[trigger] chunk_block_len(chunk1.len(), k)
                == chunk_block_len(chunk2.len(), k),
    ensures
        chunk1 == chunk2,
{
    let count = block_count(chunk1.len());
    assert(block_lens(chunk1.len(), count) =~= block_lens(chunk2.len(), count));
    law_block_lens_add_up(chunk1.len());
    law_block_lens_add_up(chunk2.len());
    assert forall|j: int| 0 <= j < chunk1.len() implies chunk1[j] == chunk2[j] by {
        let k = j / 64;
        assert(chunk_block(chunk1, k) == chunk_block(chunk2, k));
        assert(chunk_block(chunk1, k)[j % 64] == chunk1[j]);
        assert(chunk_block(chunk2, k)[j % 64] == chunk2[j]);
    }
    assert(chunk1 =~= chunk2);
}

/// `blocks`, of which the first `lens` bytes each are input and the rest is zeros, hold `chunk`:
/// all but the last one are full, and none is empty but the one of the empty chunk.
pub open spec fn blocks_hold(blocks: Seq<Seq<u8>>, lens: Seq<u8>, chunk: Seq<u8>) -> bool {
    &&& blocks.len() == lens.len()
    &&& 0 < blocks.len()
    &&& forall|k: int| 0 <= k < blocks.len() ==> (#[trigger] blocks[k]).len() == 64
    &&& forall|k: int| 0 <= k < blocks.len() - 1 ==> #[trigger] lens[k] == 64
    &&& lens.last() <= 64
    &&& lens.last() == 0 ==> lens.len() == 1
    &&& chunk.len() == 64 * (blocks.len() - 1) + lens.last()
    &&& forall|k: int, j: int|
        0 <= k < blocks.len() && 0 <= j < lens[k] ==> #[trigger] blocks[k][j] == chunk[64 * k + j]
    &&& forall|k: int, j: int|
        0 <= k < blocks.len() && lens[k] <= j < 64 ==> #[trigger] blocks[k][j] == 0
}

/// Whatever chaining value the blocks of a chunk lead to, each compressed with its own length, all
/// with the number of the chunk, the first one with the flag 1 and the last one with the end flags,
/// is the chaining value of the chunk.
pub proof fn law_chunk(
    chunk: Seq<u8>,
    key: Seq<u32>,
    counter: u64,
    flags: u8,
    end: u8,
    blocks: Seq<Seq<u8>>,
    lens: Seq<u8>,
    cvs: Seq<Seq<u32>>,
)
    requires
        blocks_hold(blocks, lens, chunk),
        cvs.len() == blocks.len() + 1,
        cvs[0] == key,
        forall|k: int|
            0 <= k < blocks.len() ==> cvs[k + 1] == compress(
                cvs[k],
                #[trigger] blocks[k],
                lens[k],
                counter,
                flags | (if k == 0 {
                    1
                } else {
                    0
                }) | (if k == blocks.len() - 1 {
                    end
                } else {
                    0
                }),
            ),
    ensures
        chunk_cv(chunk, key, counter, flags, end) == cvs.last(),
{
    assert(block_count(chunk.len()) == blocks.len());
    lemma_chunk_steps(chunk, key, counter, flags, end, blocks, lens, cvs, blocks.len());
}

/// The chaining value after `n` blocks of a chunk is the last of `n` steps.
proof fn lemma_chunk_steps(
    chunk: Seq<u8>,
    key: Seq<u32>,
    counter: u64,
    flags: u8,
    end: u8,
    blocks: Seq<Seq<u8>>,
    lens: Seq<u8>,
    cvs: Seq<Seq<u32>>,
    n: nat,
)
    requires
        blocks_hold(blocks, lens, chunk),
        block_count(chunk.len()) == blocks.len(),
        cvs.len() == blocks.len() + 1,
        cvs[0] == key,
        forall|k: int|
            0 <= k < blocks.len() ==> cvs[k + 1] == compress(
                cvs[k],
                #[trigger] blocks[k],
                lens[k],
                counter,
                flags | (if k == 0 {
                    1
                } else {
                    0
                }) | (if k == blocks.len() - 1 {
                    end
                } else {
                    0
                }),
            ),
        n <= blocks.len(),
    ensures
        chunk_cv_after(chunk, n, key, counter, flags, end) == cvs[n as int],
    decreases n,
{
    if n > 0 {
        let k = n - 1;
        lemma_chunk_steps(chunk, key, counter, flags, end, blocks, lens, cvs, k as nat);
        law_block_flags(k, blocks.len() as int, flags, 1, end);
        assert forall|j: int| 0 <= j < 64 implies blocks[k][j] == chunk_block(chunk, k)[j] by {
            if j < lens[k] {
                assert(blocks[k][j] == chunk[64 * k + j]);
            } else {
                assert(blocks[k][j] == 0);
            }
        }
        assert(blocks[k].len() == 64);
        assert(blocks[k] =~= chunk_block(chunk, k));
        assert(lens[k] == chunk_block_len(chunk.len(), k));
        assert(cvs[k + 1] == cvs[n as int]);
    }
}

/// Whatever chaining value the 64-byte pieces of an input lead to, all with the same counter, the
/// first one with the start flags and the last one with the end flags, is its result. Its bytes are
/// what hashing the input gives.
pub proof fn law_whole_input(
    input: Seq<u8>,
    count: nat,
    key: Seq<u32>,
    counter: u64,
    flags: u8,
    start: u8,
    end: u8,
    cvs: Seq<Seq<u32>>,
    n: nat,
)
    requires
        64 * count <= input.len(),
        cvs.len() == count + 1,
        cvs[0] == key,
        forall|k: int|
            0 <= k < count ==> #[trigger] cvs[k + 1] == compress(
                cvs[k],
                input.subrange(64 * k, 64 * k + 64),
                64,
                counter,
                flags | (if k == 0 {
                    start
                } else {
                    0
                }) | (if k == count - 1 {
                    end
                } else {
                    0
                }),
            ),
        n <= count,
    ensures
        blocks_cv(input, n, count, key, counter, flags, start, end) == cvs[n as int],
        n == count && input.len() < 64 * count + 64 ==> words_in(
            cvs[n as int],
            hash_blocks(input, key, counter, flags, start, end),
        ),
    decreases n,
{
    if n > 0 {
        let k = n - 1;
        law_whole_input(input, count, key, counter, flags, start, end, cvs, k as nat);
        law_block_flags(k, count as int, flags, start, end);
        assert(cvs[k + 1] == cvs[n as int]);
    }
    lemma_words_in(cvs[n as int]);
}

/// Hashing many inputs says exactly this: the results stand one after the other, each 32 bytes
/// long; input number `i` has the counter `counter + i` where the counter goes up, and else
/// `counter`; and what follows the last result stays.
pub proof fn law_hashes_many(
    inputs: Seq<Seq<u8>>,
    key: Seq<u32>,
    counter: u64,
    increment_counter: IncrementCounter,
    flags: u8,
    start: u8,
    end: u8,
    before: Seq<u8>,
    after: Seq<u8>,
    counters: Seq<u64>,
)
    requires
        counters.len() == inputs.len(),
        increment_counter == IncrementCounter::Yes ==> forall|i: int|
            0 <= i < inputs.len() ==> #[trigger] counters[i] == counter + i,
        increment_counter == IncrementCounter::No ==> forall|i: int|
            0 <= i < inputs.len() ==> #[trigger] counters[i] == counter,
    ensures
        forall|i: int|
            0 <= i < inputs.len() ==> #[trigger] counters[i] == lane_counter(
                counter,
                increment_counter,
                i,
            ),
        hashes_many(inputs, key, counter, increment_counter, flags, start, end, before, after)
            <==> {
            &&& after.len() == before.len()
            &&& forall|i: int|
                0 <= i < inputs.len() ==> after.subrange(32 * i, 32 * i + 32) == hash_blocks(
                    inputs[i],
                    key,
                    #[trigger] counters[i],
                    flags,
                    start,
                    end,
                )
            &&& forall|j: int| 32 * inputs.len() <= j < after.len() ==> #[trigger] after[j]
                == before[j]
        },
{
    assert forall|i: int| 0 <= i < inputs.len() implies #[trigger] counters[i] == lane_counter(
        counter,
        increment_counter,
        i,
    ) by {}
    if after.len() == before.len() && (forall|i: int|
        0 <= i < inputs.len() ==> after.subrange(32 * i, 32 * i + 32) == hash_blocks(
            inputs[i],
            key,
            #[trigger] counters[i],
            flags,
            start,
            end,
        )) && (forall|j: int| 32 * inputs.len() <= j < after.len() ==> #[trigger] after[j]
        == before[j]) {
        assert forall|i: int| 0 <= i < inputs.len() implies #[trigger] after.subrange(
            32 * i,
            32 * i + 32,
        ) == hash_blocks(
            inputs[i],
            key,
            lane_counter(counter, increment_counter, i),
            flags,
            start,
            end,
        ) by {
            assert(counters[i] == lane_counter(counter, increment_counter, i));
        }
    }
}

/// A parent compresses one full block under the key: the bytes of the left chaining value, then
/// those of the right one. Its counter is 0, and it has the flag 4.
pub proof fn law_parent(
    left: Seq<u32>,
    right: Seq<u32>,
    key: Seq<u32>,
    flags: u8,
    block: Seq<u8>,
)
    requires
        left.len() == 8,
        right.len() == 8,
        words_in(left + right, block),
    ensures
        parent_cv(left, right, key, flags) == compress(key, block, 64, 0, flags | 4),
{
    law_words_and_bytes(left + right, block);
    lemma_bytes_of_both(left, right);
}

/// The bytes of words in a row are the bytes of the first ones and then those of the others.
proof fn lemma_bytes_of_both(left: Seq<u32>, right: Seq<u32>)
    ensures
        bytes_of(left + right) == bytes_of(left) + bytes_of(right),
{
    let n = left.len() as int;
    assert forall|j: int| 0 <= j < 4 * (n + right.len()) implies bytes_of(left + right)[j] == (
    bytes_of(left) + bytes_of(right))[j] by {
        if j < 4 * n {
            assert((left + right)[j / 4] == left[j / 4]);
        } else {
            let k = j - 4 * n;
            assert(j / 4 == n + k / 4 && j % 4 == k % 4);
            assert((left + right)[j / 4] == right[k / 4]);
        }
    }
    assert(bytes_of(left + right) =~= bytes_of(left) + bytes_of(right));
}

/// Where the tree of `len` leaves or bytes splits: at the largest power of two below `len`.
pub proof fn law_split(len: nat, k: nat)
    requires
        len >= 2,
    ensures
        exists|j: nat| left_len(len) == #[trigger] pow2(j),
        left_len(len) < len,
        pow2(k) < len ==> pow2(k) <= left_len(len),
{
    lemma_left_len_bounds(len);
    lemma_left_len_is_a_power(len);
    let j = choose|j: nat| left_len(len) == #[trigger] pow2(j);
    lemma_pow2_unfold(j + 1);
    if k > j {
        if k > j + 1 {
            lemma_pow2_strictly_increases(j + 1, k);
        }
    } else if k < j {
        lemma_pow2_strictly_increases(k, j);
    }
}

/// `left_len` is a power of two.
proof fn lemma_left_len_is_a_power(len: nat)
    requires
        len >= 2,
    ensures
        exists|j: nat| left_len(len) == #[trigger] pow2(j),
    decreases len,
{
    if len > 2 {
        let half = (len + 1) / 2;
        lemma_left_len_is_a_power(half);
        let j = choose|j: nat| left_len(half) == #[trigger] pow2(j);
        lemma_pow2_unfold(j + 1);
        assert(left_len(len) == pow2(j + 1));
    } else {
        lemma2_to64();
        assert(left_len(len) == pow2(0));
    }
}

/// `above` is the level of a tree over `below`: each two neighbours have a parent, and one that is
/// left over goes up as it is.
pub open spec fn paired(
    below: Seq<Seq<u32>>,
    above: Seq<Seq<u32>>,
    key: Seq<u32>,
    flags: u8,
) -> bool {
    &&& above.len() == (below.len() + 1) / 2
    &&& forall|j: int|
        0 <= j < above.len() ==> #[trigger] above[j] == if 2 * j + 1 < below.len() {
            parent_cv(below[2 * j], below[2 * j + 1], key, flags)
        } else {
            below[2 * j]
        }
}

/// `leaves` are the chaining values of the chunks of `input`: of each 1024 bytes, and of what
/// remains. They are numbered one after the other from `counter` on, and have the end flag 2.
pub open spec fn leaves_of(
    leaves: Seq<Seq<u32>>,
    input: Seq<u8>,
    key: Seq<u32>,
    counter: u64,
    flags: u8,
    numbers: Seq<u64>,
) -> bool {
    &&& 0 < leaves.len()
    &&& 1024 * (leaves.len() - 1) < input.len() || leaves.len() == 1
    &&& input.len() <= 1024 * leaves.len()
    &&& numbers.len() == leaves.len()
    &&& forall|k: int| 0 <= k < leaves.len() ==> #[trigger] numbers[k] == counter + k
    &&& forall|k: int|
        0 <= k < leaves.len() - 1 ==> #[trigger] leaves[k] == chunk_cv(
            input.subrange(1024 * k, 1024 * k + 1024),
            key,
            numbers[k],
            flags,
            2,
        )
    &&& leaves.last() == chunk_cv(
        input.subrange(1024 * (leaves.len() - 1), input.len() as int),
        key,
        numbers.last(),
        flags,
        2,
    )
}

/// Whatever chaining value pairing neighbours level by level leads to, from the chunks of an input
/// on, is the chaining value of the input as a subtree. Of the whole tree, the last pair has the
/// flag 8.
pub proof fn law_tree_level_by_level(
    input: Seq<u8>,
    key: Seq<u32>,
    counter: u64,
    flags: u8,
    numbers: Seq<u64>,
    levels: Seq<Seq<Seq<u32>>>,
)
    requires
        0 < levels.len(),
        leaves_of(levels[0], input, key, counter, flags, numbers),
        forall|t: int|
            0 <= t < levels.len() - 1 ==> #[trigger] paired(levels[t], levels[t + 1], key, flags),
    ensures
        levels.last().len() == 1 ==> subtree_cv(input, key, counter, flags) == levels.last()[0],
        levels.last().len() == 2 && counter == 0 ==> root_cv(input, key, flags) == parent_cv(
            levels.last()[0],
            levels.last()[1],
            key,
            flags | 8,
        ),
{
    let leaves = levels[0];
    let cvs = super::chunk_cvs(input, key, counter as int, flags);
    assert(super::chunk_count(input.len()) == leaves.len());
    assert forall|k: int| 0 <= k < leaves.len() implies leaves[k] == cvs[k] by {
        assert(numbers[k] == counter + k);
        assert(leaves[k] == chunk_cv(super::chunk(input, k), key, numbers[k], flags, 2)) by {
            if k < leaves.len() - 1 {
                assert(super::chunk(input, k) == input.subrange(1024 * k, 1024 * k + 1024));
            } else {
                assert(super::chunk(input, k) =~= input.subrange(1024 * k, input.len() as int));
            }
        }
    }
    assert(leaves =~= cvs);
    assert(numbers.last() == counter + leaves.len() - 1);
    lemma_levels(levels, key, flags, (levels.len() - 1) as nat);
    if levels.last().len() == 1 {
        super::law_subtree_over_chunks(input, key, counter, flags);
    }
    if levels.last().len() == 2 && counter == 0 {
        lemma_level_lens(levels, key, flags, (levels.len() - 1) as nat);
        super::law_root_over_chunks(input, key, flags);
    }
}

/// Pairing never leaves fewer leaves than there are above.
proof fn lemma_level_lens(levels: Seq<Seq<Seq<u32>>>, key: Seq<u32>, flags: u8, n: nat)
    requires
        n < levels.len(),
        forall|t: int|
            0 <= t < n ==> #[trigger] paired(levels[t], levels[t + 1], key, flags),
    ensures
        levels[n as int].len() <= levels[0].len(),
    decreases n,
{
    if n > 0 {
        lemma_level_lens(levels, key, flags, (n - 1) as nat);
        assert(paired(levels[n - 1], levels[n - 1 + 1], key, flags));
    }
}

/// The two children of the root of the tree over `leaves`.
spec fn children(leaves: Seq<Seq<u32>>, key: Seq<u32>, flags: u8) -> (Seq<u32>, Seq<u32>) {
    let l = left_len(leaves.len()) as int;
    (
        super::merge(leaves.subrange(0, l), key, flags),
        super::merge(leaves.subrange(l, leaves.len() as int), key, flags),
    )
}

/// A level has the same tree over it as the leaves.
proof fn lemma_levels(levels: Seq<Seq<Seq<u32>>>, key: Seq<u32>, flags: u8, n: nat)
    requires
        n < levels.len(),
        0 < levels[0].len(),
        forall|t: int|
            0 <= t < n ==> #[trigger] paired(levels[t], levels[t + 1], key, flags),
    ensures
        0 < levels[n as int].len(),
        super::merge(levels[n as int], key, flags) == super::merge(levels[0], key, flags),
        levels[n as int].len() >= 2 ==> children(levels[n as int], key, flags) == children(
            levels[0],
            key,
            flags,
        ),
    decreases n,
{
    if n > 0 {
        lemma_levels(levels, key, flags, (n - 1) as nat);
        assert(paired(levels[n - 1], levels[n - 1 + 1], key, flags));
        lemma_paired(levels[n - 1], levels[n as int], key, flags);
    }
}

/// Pairing neighbours keeps the tree.
proof fn lemma_paired(below: Seq<Seq<u32>>, above: Seq<Seq<u32>>, key: Seq<u32>, flags: u8)
    requires
        0 < below.len(),
        paired(below, above, key, flags),
    ensures
        super::merge(above, key, flags) == super::merge(below, key, flags),
        above.len() >= 2 ==> children(above, key, flags) == children(below, key, flags),
    decreases below.len(),
{
    let n = below.len();
    if n == 1 {
        assert(above[0] == below[0]);
    } else if n == 2 {
        reveal_with_fuel(super::merge, 2);
        assert(above[0] == parent_cv(below[0], below[1], key, flags));
        assert(below.subrange(0, 1)[0] == below[0]);
        assert(below.subrange(1, 2)[0] == below[1]);
    } else {
        lemma_left_len_bounds(n);
        let l = left_len(n) as int;
        let h = left_len((n + 1) / 2) as int;
        lemma_left_len_bounds((n + 1) / 2);
        assert(l == 2 * h);
        let left = below.subrange(0, l);
        let right = below.subrange(l, n as int);
        let above_left = above.subrange(0, h);
        let above_right = above.subrange(h, above.len() as int);
        assert(paired(left, above_left, key, flags)) by {
            assert forall|j: int| 0 <= j < h implies #[trigger] above_left[j] == if 2 * j + 1
                < left.len() {
                parent_cv(left[2 * j], left[2 * j + 1], key, flags)
            } else {
                left[2 * j]
            } by {
                assert(above_left[j] == above[j]);
            }
        }
        assert(paired(right, above_right, key, flags)) by {
            assert forall|j: int| 0 <= j < above_right.len() implies #[trigger] above_right[j]
                == if 2 * j + 1 < right.len() {
                parent_cv(right[2 * j], right[2 * j + 1], key, flags)
            } else {
                right[2 * j]
            } by {
                assert(above_right[j] == above[h + j]);
            }
        }
        lemma_paired(left, above_left, key, flags);
        lemma_paired(right, above_right, key, flags);
    }
}

/// An input of at most one chunk is hashed as the chunk number 0, the last block of which has the
/// end flag 2 and the root flag 8. A hash is the 32 bytes of the chaining value of the whole tree.
pub proof fn law_short_input(input: Seq<u8>, key: Seq<u32>, flags: u8)
    ensures
        input.len() <= 1024 ==> root_cv(input, key, flags) == chunk_cv(input, key, 0, flags, 10),
        words_in(root_cv(input, key, flags), root_hash(input, key, flags)),
{
    assert(2u8 | 8u8 == 10u8) by (bit_vector);
    lemma_words_in(root_cv(input, key, flags));
}

/// A word is made of its four digits to the base 256.
proof fn lemma_digits(w: u32)
    by (bit_vector)
    ensures
        w == w % 0x100 + 256 * (w / 0x100 % 0x100 + 256 * (w / 0x1_0000 % 0x100 + 256 * (w
            / 0x100_0000))),
        w / 0x100_0000 < 0x100,
{
}

/// Words are those in their bytes.
proof fn lemma_words_in(words: Seq<u32>)
    ensures
        words_in(words, bytes_of(words)),
{
    let bytes = bytes_of(words);
    assert forall|i: int| 0 <= i < words.len() implies #[trigger] words[i] == bytes[4 * i] + 256 * (
    bytes[4 * i + 1] + 256 * (bytes[4 * i + 2] + 256 * bytes[4 * i + 3])) by {
        let w = words[i];
        lemma_digits(w);
        assert(bytes[4 * i] == w % 0x100);
        assert(bytes[4 * i + 1] == w / 0x100 % 0x100);
        assert(bytes[4 * i + 2] == w / 0x1_0000 % 0x100);
        assert(bytes[4 * i + 3] == w / 0x100_0000);
    }
}

/// The modes of BLAKE3 hash all bytes of their input, of any length, and differ in the key and in
/// one flag: none and the initialization vector for the hash, 16 and the words of the key for the
/// keyed hash, 32 and the initialization vector for a context, 64 and the words of the context's
/// key for key material.
pub proof fn law_modes(
    input: Seq<u8>,
    key: Seq<u8>,
    key_words: Seq<u32>,
    context: Seq<u8>,
    context_words: Seq<u32>,
    iv: Seq<u32>,
)
    requires
        words_in(key_words, key),
        words_in(context_words, root_hash(context, iv, 32)),
        iv == seq![
            0x6A09_E667u32,
            0xBB67_AE85u32,
            0x3C6E_F372u32,
            0xA54F_F53Au32,
            0x510E_527Fu32,
            0x9B05_688Cu32,
            0x1F83_D9ABu32,
            0x5BE0_CD19u32,
        ],
    ensures
        hash(input) == root_hash(input, iv, 0),
        keyed_hash(key, input) == root_hash(input, key_words, 16),
        context_key(context) == root_hash(context, iv, 32),
        derive_key(context, input) == root_hash(input, context_words, 64),
{
    assert(crate::spec::IV@ =~= iv);
    law_words_and_bytes(key_words, key);
    law_words_and_bytes(context_words, root_hash(context, iv, 32));
}

/// In a batch of nodes or messages, each one gives what it gives alone, as the bytes of its
/// chaining value. The parents of a batch have the left and the right bytes in one full block.
pub proof fn law_batches(
    inputs: Seq<Seq<u8>>,
    left: Seq<Seq<u8>>,
    right: Seq<Seq<u8>>,
    key: Seq<u32>,
    counter: u64,
    flags: u8,
    end: u8,
    before: Seq<Seq<u8>>,
    i: int,
)
    ensures
        chunk_batch(inputs, key, counter, flags, end).len() == inputs.len(),
        subtree_batch(inputs, key, counter, flags).len() == inputs.len(),
        root_batch(inputs, key, flags).len() == inputs.len(),
        parents_batch(left, right, key, flags).len() == left.len(),
        0 <= i < inputs.len() ==> {
            &&& words_in(
                chunk_cv(inputs[i], key, counter, flags, end),
                chunk_batch(inputs, key, counter, flags, end)[i],
            )
            &&& words_in(
                subtree_cv(inputs[i], key, counter, flags),
                subtree_batch(inputs, key, counter, flags)[i],
            )
            &&& words_in(root_cv(inputs[i], key, flags), root_batch(inputs, key, flags)[i])
        },
        0 <= i < left.len() ==> words_in(
            compress(key, left[i] + right[i], 64, 0, flags | 4),
            parents_batch(left, right, key, flags)[i],
        ),
        batch(inputs, key, flags, before).0 <==> lines_up(inputs, before.len()),
        batch(inputs, key, flags, before).0 && 0 <= i < inputs.len() ==> words_in(
            root_cv(inputs[i], key, flags),
            batch(inputs, key, flags, before).1[i],
        ),
        batch(inputs, key, flags, before).1.len() == before.len(),
{
    if 0 <= i < inputs.len() {
        lemma_words_in(chunk_cv(inputs[i], key, counter, flags, end));
        lemma_words_in(subtree_cv(inputs[i], key, counter, flags));
        lemma_words_in(root_cv(inputs[i], key, flags));
    }
    if 0 <= i < left.len() {
        lemma_words_in(compress(key, left[i] + right[i], 64, 0, flags | 4));
    }
}

/// A batch has the common length `len` if and only if there is one output for each input and every
/// input has `len` bytes. Of the empty batch, only 0 is the common length.
pub proof fn law_common_len(inputs: Seq<Seq<u8>>, out_len: nat, len: nat)
    ensures
        common_len(inputs, out_len) == Some(len) <==> {
            &&& inputs.len() == out_len
            &&& forall|i: int| 0 <= i < inputs.len() ==> (#[trigger] inputs[i]).len() == len
            &&& inputs.len() == 0 ==> len == 0
        },
        lines_up(inputs, out_len) <==> common_len(inputs, out_len) is Some,
{
    if lines_up(inputs, out_len) && inputs.len() > 0 {
        assert forall|i: int| 0 <= i < inputs.len() implies (#[trigger] inputs[i]).len()
            == inputs[0].len() by {}
        if forall|i: int| 0 <= i < inputs.len() ==> (#[trigger] inputs[i]).len() == len {
            assert(inputs[0].len() == len);
        }
    }
}

/// What slices, arrays, blocks, hashes and chaining values hold is what each of them holds, one
/// after the other.
pub proof fn law_views<const N: usize>(
    slices: Seq<&[u8]>,
    arrays: Seq<&[u8; N]>,
    blocks: Seq<[u8; BLOCK_LEN]>,
    hashes: Seq<crate::Hash>,
    cvs: Seq<CVBytes>,
    i: int,
)
    ensures
        slice_views(slices).len() == slices.len(),
        array_views(arrays).len() == arrays.len(),
        block_views(blocks).len() == blocks.len(),
        hash_views(hashes).len() == hashes.len(),
        cv_views(cvs).len() == cvs.len(),
        0 <= i < slices.len() ==> slice_views(slices)[i] == slices[i]@,
        0 <= i < arrays.len() ==> array_views(arrays)[i] == arrays[i]@,
        0 <= i < blocks.len() ==> block_views(blocks)[i] == blocks[i]@,
        0 <= i < hashes.len() ==> hash_views(hashes)[i] == hashes[i]@,
        0 <= i < cvs.len() ==> cv_views(cvs)[i] == cvs[i]@,
{
}

/// Lane `l` of vectors has word `l` of each of them. Transposing a matrix exchanges the word in row
/// `i` and column `j` with the one in row `j` and column `i`.
pub proof fn law_lanes(v: Seq<U32x8>, m: Seq<Seq<u32>>, i: int, l: int)
    ensures
        lane(v, l).len() == v.len(),
        rows(v).len() == v.len(),
        0 <= i < v.len() ==> lane(v, l)[i] == v[i].lanes[l],
        0 <= i < v.len() ==> rows(v)[i] == v[i].lanes@,
        transposed(m).len() == 8,
        0 <= i < 8 ==> transposed(m)[i].len() == 8,
        0 <= i < 8 && 0 <= l < 8 ==> transposed(m)[i][l] == m[l][i],
{
}

} // verus!
