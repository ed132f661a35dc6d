//! The compression function one input at a time.
use crate::platform::{
    copy_bytes, le_bytes_from_words_32, words_from_le_bytes_64, CVBytes, CVWords, IncrementCounter,
};
use crate::spec;
use crate::spec::{BLOCK_LEN, IV, MSG_SCHEDULE, OUT_LEN};
use vstd::prelude::*;

verus! {

/// The low word of a block counter.
pub fn counter_low(counter: u64) -> (w: u32)
    ensures
        w == spec::low_word(counter),
        w == counter % 0x1_0000_0000,
{
    assert(counter as u32 == counter % 0x1_0000_0000) by (bit_vector);
    #[verifier::truncate] (counter as u32)
}

/// The high word of a block counter.
pub fn counter_high(counter: u64) -> (w: u32)
    ensures
        w == spec::high_word(counter),
        w == counter / 0x1_0000_0000,
{
    assert((counter >> 32) as u32 == counter / 0x1_0000_0000) by (bit_vector);
    #[verifier::truncate] ((counter >> 32) as u32)
}

/// The sum of three words modulo 2^32.
fn sum(a: u32, b: u32, c: u32) -> (r: u32)
    ensures
        r == spec::wrap(a + b + c),
{
    proof {
        reveal(spec::wrap);
    }
    a.wrapping_add(b).wrapping_add(c)
}

/// The quarter round.
fn g(a: u32, b: u32, c: u32, d: u32, x: u32, y: u32) -> (r: (u32, u32, u32, u32))
    ensures
        r == spec::mix(a, b, c, d, x, y),
{
    proof {
        reveal(spec::mix);
    }
    let a = sum(a, b, x);
    let d = d ^ a;
    let d = (d >> 16) | (d << 16);
    let c = sum(c, d, 0);
    let b = b ^ c;
    let b = (b >> 12) | (b << 20);
    let a = sum(a, b, y);
    let d = d ^ a;
    let d = (d >> 8) | (d << 24);
    let c = sum(c, d, 0);
    let b = b ^ c;
    let b = (b >> 7) | (b << 25);
    (a, b, c, d)
}

/// Round number `r` on the state `v`.
fn round(v: &mut [u32; 16], m: &[u32; 16], r: usize)
    requires
        r < 7,
    ensures
        final(v)@ == spec::round(old(v)@, m@, r as int),
{
    let s = &MSG_SCHEDULE[r];
    let (a0, b0, c0, d0) = g(v[0], v[4], v[8], v[12], m[s[0]], m[s[1]]);
    let (a1, b1, c1, d1) = g(v[1], v[5], v[9], v[13], m[s[2]], m[s[3]]);
    let (a2, b2, c2, d2) = g(v[2], v[6], v[10], v[14], m[s[4]], m[s[5]]);
    let (a3, b3, c3, d3) = g(v[3], v[7], v[11], v[15], m[s[6]], m[s[7]]);
    let (a0, b1, c2, d3) = g(a0, b1, c2, d3, m[s[8]], m[s[9]]);
    let (a1, b2, c3, d0) = g(a1, b2, c3, d0, m[s[10]], m[s[11]]);
    let (a2, b3, c0, d1) = g(a2, b3, c0, d1, m[s[12]], m[s[13]]);
    let (a3, b0, c1, d2) = g(a3, b0, c1, d2, m[s[14]], m[s[15]]);
    *v = [a0, a1, a2, a3, b0, b1, b2, b3, c0, c1, c2, c3, d0, d1, d2, d3];
    proof {
        reveal(spec::round);
    }
}

/// Compresses one block into the chaining value `cv`.
pub fn compress_in_place(
    cv: &mut CVWords,
    block: &[u8; BLOCK_LEN],
    block_len: u8,
    counter: u64,
    flags: u8,
)
    ensures
        final(cv)@ == spec::compress(old(cv)@, block@, block_len, counter, flags),
{
    let m = words_from_le_bytes_64(block);
    let mut v: [u32; 16] = [
        cv[0], cv[1], cv[2], cv[3],
        cv[4], cv[5], cv[6], cv[7],
        IV[0], IV[1], IV[2], IV[3],
        counter_low(counter), counter_high(counter), block_len as u32, flags as u32,
    ];
    let ghost start = spec::initial_state(cv@, block_len, counter, flags);
    assert(v@ =~= start);
    for r in 0..7usize
        invariant
            v@ == spec::rounds(start, m@, r as nat),
    {
        round(&mut v, &m, r);
    }
    for i in 0..8usize
        invariant
            forall|j: int| 0 <= j < i ==> #[trigger] cv[j] == v[j] ^ v[j + 8],
    {
        cv[i] = v[i] ^ v[i + 8];
    }
    assert(cv@ =~= spec::fold(v@));
    proof {
        reveal(spec::compress);
    }
}

/// Compresses block `i` into the chaining value `cvs[i]`, for each `i`.
pub fn compress_many(
    cvs: &mut [CVWords],
    blocks: &[[u8; BLOCK_LEN]],
    block_len: u8,
    counter: u64,
    flags: u8,
)
    requires
        old(cvs).len() == blocks.len(),
    ensures
        final(cvs)@.len() == old(cvs)@.len(),
        forall|i: int|
            0 <= i < blocks@.len() ==> #[trigger] final(cvs)@[i]@ == spec::compress(
                old(cvs)@[i]@,
                blocks@[i]@,
                block_len,
                counter,
                flags,
            ),
{
    let ghost before = cvs@;
    for i in 0..blocks.len()
        invariant
            cvs.len() == blocks.len(),
            cvs@.len() == before.len(),
            forall|k: int| i <= k < blocks@.len() ==> #[trigger] cvs@[k] == before[k],
            forall|k: int|
                0 <= k < i ==> #[trigger] cvs@[k]@ == spec::compress(
                    before[k]@,
                    blocks@[k]@,
                    block_len,
                    counter,
                    flags,
                ),
    {
        compress_in_place(&mut cvs[i], &blocks[i], block_len, counter, flags);
    }
}

/// Hashes the full blocks of one input and writes the final chaining value to `out`.
pub fn hash1<const N: usize>(
    input: &[u8; N],
    key: &CVWords,
    counter: u64,
    flags: u8,
    flags_start: u8,
    flags_end: u8,
    out: &mut CVBytes,
)
    ensures
        final(out)@ == spec::hash_blocks(
            input@,
            key@,
            counter,
            flags,
            flags_start,
            flags_end,
        ),
{
    let mut cv: CVWords = *key;
    let blocks: usize = N / BLOCK_LEN;
    for block in 0..blocks
        invariant
            blocks == N / 64,
            cv@ == spec::blocks_cv(
                input@,
                block as nat,
                blocks as nat,
                key@,
                counter,
                flags,
                flags_start,
                flags_end,
            ),
    {
        let mut block_flags: u8 = if block == 0 {
            flags | flags_start
        } else {
            flags
        };
        if block + 1 == blocks {
            block_flags = block_flags | flags_end;
        }
        let bytes: &[u8; BLOCK_LEN] = input[block * BLOCK_LEN..block * BLOCK_LEN
            + BLOCK_LEN].first_chunk().unwrap();
        assert(bytes@ =~= input@.subrange(64 * block as int, 64 * (block + 1)));
        compress_in_place(&mut cv, bytes, 64, counter, block_flags);
    }
    *out = le_bytes_from_words_32(&cv);
}

/// Hashes the full blocks of each input, one input after the other, and writes the final chaining
/// values to `out`.
pub fn hash_many<const N: usize>(
    inputs: &[&[u8; N]],
    key: &CVWords,
    counter: u64,
    increment_counter: IncrementCounter,
    flags: u8,
    flags_start: u8,
    flags_end: u8,
    out: &mut [u8],
)
    requires
        32 * inputs.len() <= old(out).len(),
        increment_counter == IncrementCounter::Yes ==> counter + inputs.len() <= u64::MAX,
    ensures
        spec::hashes_many(
            spec::array_views(inputs@),
            key@,
            counter,
            increment_counter,
            flags,
            flags_start,
            flags_end,
            old(out)@,
            final(out)@,
        ),
{
    let ghost before = out@;
    for i in 0..inputs.len()
        invariant
            32 * inputs.len() <= out.len(),
            increment_counter == IncrementCounter::Yes ==> counter + inputs.len() <= u64::MAX,
            spec::hashes_many(
                spec::array_views(inputs@).subrange(0, i as int),
                key@,
                counter,
                increment_counter,
                flags,
                flags_start,
                flags_end,
                before,
                out@,
            ),
    {
        let lane_counter: u64 = if increment_counter.yes() {
            counter + i as u64
        } else {
            counter
        };
        let mut cv: CVBytes = [0; 32];
        hash1(inputs[i], key, lane_counter, flags, flags_start, flags_end, &mut cv);
        let ghost middle = out@;
        copy_bytes(out, OUT_LEN * i, &cv);
        assert forall|k: int| 0 <= k < i implies #[trigger] out@.subrange(32 * k, 32 * k + 32)
            == middle.subrange(32 * k, 32 * k + 32) by {
            assert(out@.subrange(32 * k, 32 * k + 32) =~= middle.subrange(32 * k, 32 * k + 32));
        }
    }
    assert(spec::array_views(inputs@).subrange(0, inputs@.len() as int)
        =~= spec::array_views(inputs@));
}

} // verus!
