//! The compression function on eight independent inputs at once.
//!
//! A vector register of eight 32-bit lanes is an array here, and each lane belongs to one input:
//! lane `l` of every vector holds what a scalar implementation would hold for input `l`.
use crate::lemmas::lemma_wrap_sum;
use crate::platform::{copy_bytes, word_at, word_bytes, CVWords, IncrementCounter};
use crate::portable;
use crate::portable::{counter_high, counter_low};
use crate::spec;
use crate::spec::{BLOCK_LEN, IV, MSG_SCHEDULE, OUT_LEN};
use vstd::prelude::*;

verus! {

/// The number of lanes in a vector.
pub const DEGREE: usize = 8;

/// The number of bytes in the chaining values of all lanes.
pub const OUT_LEN_8: usize = 256;

/// Eight 32-bit lanes.
#[derive(Clone, Copy, Debug)]
pub struct U32x8 {
    pub lanes: [u32; 8],
}

impl View for U32x8 {
    type V = Seq<u32>;

    open spec fn view(&self) -> Seq<u32> {
        self.lanes@
    }
}

/// What the vectors `v` hold in lane `l`.
pub open spec fn lane(v: Seq<U32x8>, l: int) -> Seq<u32> {
    Seq::new(v.len(), |i: int| v[i]@[l])
}

/// What each of the vectors `v` holds.
pub open spec fn rows(v: Seq<U32x8>) -> Seq<Seq<u32>> {
    Seq::new(v.len(), |i: int| v[i]@)
}

/// The 8-by-8 matrix with rows and columns exchanged.
pub open spec fn transposed(m: Seq<Seq<u32>>) -> Seq<Seq<u32>> {
    Seq::new(8, |i: int| Seq::new(8, |j: int| m[j][i]))
}

/// Eight words from their little-endian bytes, which stand in `src` from `offset` on.
fn loadu(src: &[u8], offset: usize) -> (r: U32x8)
    requires
        offset + 32 <= src.len(),
    ensures
        forall|l: int| 0 <= l < 8 ==> #[trigger] r@[l] == spec::le_word(src@, offset + 4 * l),
{
    U32x8 {
        lanes: [
            word_at(src, offset),
            word_at(src, offset + 4),
            word_at(src, offset + 8),
            word_at(src, offset + 12),
            word_at(src, offset + 16),
            word_at(src, offset + 20),
            word_at(src, offset + 24),
            word_at(src, offset + 28),
        ],
    }
}

/// Writes the little-endian bytes of the eight lanes to `dest`, from `offset` on.
fn storeu(src: U32x8, dest: &mut [u8], offset: usize)
    requires
        offset + 32 <= old(dest).len(),
    ensures
        final(dest)@.len() == old(dest)@.len(),
        final(dest)@.subrange(offset as int, offset + 32) == spec::bytes_of(src@),
        forall|i: int|
            0 <= i < final(dest)@.len() && !(offset <= i < offset + 32) ==> #[trigger] final(dest)@[i]
                == old(dest)@[i],
{
    let ghost before = dest@;
    for l in 0..8usize
        invariant
            offset + 32 <= dest.len(),
            dest@.len() == before.len(),
            forall|i: int|
                offset <= i < offset + 4 * l ==> #[trigger] dest@[i] == spec::byte_of(
                    src@[(i - offset) / 4],
                    (i - offset) % 4,
                ),
            forall|i: int|
                0 <= i < dest@.len() && !(offset <= i < offset + 32) ==> #[trigger] dest@[i]
                    == before[i],
    {
        let b = word_bytes(src.lanes[l]);
        dest[offset + 4 * l] = b[0];
        dest[offset + 4 * l + 1] = b[1];
        dest[offset + 4 * l + 2] = b[2];
        dest[offset + 4 * l + 3] = b[3];
    }
    assert(dest@.subrange(offset as int, offset + 32) =~= spec::bytes_of(src@));
}

/// Adds lane by lane, modulo 2^32.
fn add(a: U32x8, b: U32x8) -> (r: U32x8)
    ensures
        forall|l: int| 0 <= l < 8 ==> #[trigger] r@[l] == spec::wrap(a@[l] + b@[l]),
{
    proof {
        reveal(spec::wrap);
    }
    U32x8 {
        lanes: [
            a.lanes[0].wrapping_add(b.lanes[0]),
            a.lanes[1].wrapping_add(b.lanes[1]),
            a.lanes[2].wrapping_add(b.lanes[2]),
            a.lanes[3].wrapping_add(b.lanes[3]),
            a.lanes[4].wrapping_add(b.lanes[4]),
            a.lanes[5].wrapping_add(b.lanes[5]),
            a.lanes[6].wrapping_add(b.lanes[6]),
            a.lanes[7].wrapping_add(b.lanes[7]),
        ],
    }
}

/// Xors lane by lane.
fn xor(a: U32x8, b: U32x8) -> (r: U32x8)
    ensures
        forall|l: int| 0 <= l < 8 ==> #[trigger] r@[l] == a@[l] ^ b@[l],
{
    U32x8 {
        lanes: [
            a.lanes[0] ^ b.lanes[0],
            a.lanes[1] ^ b.lanes[1],
            a.lanes[2] ^ b.lanes[2],
            a.lanes[3] ^ b.lanes[3],
            a.lanes[4] ^ b.lanes[4],
            a.lanes[5] ^ b.lanes[5],
            a.lanes[6] ^ b.lanes[6],
            a.lanes[7] ^ b.lanes[7],
        ],
    }
}

/// `x` in every lane.
fn set1(x: u32) -> (r: U32x8)
    ensures
        forall|l: int| 0 <= l < 8 ==> #[trigger] r@[l] == x,
{
    U32x8 { lanes: [x; 8] }
}

/// The eight words, in the order of the lanes.
fn set8(a: u32, b: u32, c: u32, d: u32, e: u32, f: u32, g: u32, h: u32) -> (r: U32x8)
    ensures
        r@ == seq![a, b, c, d, e, f, g, h],
{
    let r = U32x8 { lanes: [a, b, c, d, e, f, g, h] };
    assert(r@ =~= seq![a, b, c, d, e, f, g, h]);
    r
}

/// Rotates every lane to the right by 16 bits.
fn rot16(x: U32x8) -> (r: U32x8)
    ensures
        forall|l: int| 0 <= l < 8 ==> #[trigger] r@[l] == spec::rotr(x@[l], 16),
{
    U32x8 {
        lanes: [
            (x.lanes[0] >> 16) | (x.lanes[0] << 16),
            (x.lanes[1] >> 16) | (x.lanes[1] << 16),
            (x.lanes[2] >> 16) | (x.lanes[2] << 16),
            (x.lanes[3] >> 16) | (x.lanes[3] << 16),
            (x.lanes[4] >> 16) | (x.lanes[4] << 16),
            (x.lanes[5] >> 16) | (x.lanes[5] << 16),
            (x.lanes[6] >> 16) | (x.lanes[6] << 16),
            (x.lanes[7] >> 16) | (x.lanes[7] << 16),
        ],
    }
}

/// Rotates every lane to the right by 12 bits.
fn rot12(x: U32x8) -> (r: U32x8)
    ensures
        forall|l: int| 0 <= l < 8 ==> #[trigger] r@[l] == spec::rotr(x@[l], 12),
{
    U32x8 {
        lanes: [
            (x.lanes[0] >> 12) | (x.lanes[0] << 20),
            (x.lanes[1] >> 12) | (x.lanes[1] << 20),
            (x.lanes[2] >> 12) | (x.lanes[2] << 20),
            (x.lanes[3] >> 12) | (x.lanes[3] << 20),
            (x.lanes[4] >> 12) | (x.lanes[4] << 20),
            (x.lanes[5] >> 12) | (x.lanes[5] << 20),
            (x.lanes[6] >> 12) | (x.lanes[6] << 20),
            (x.lanes[7] >> 12) | (x.lanes[7] << 20),
        ],
    }
}

/// Rotates every lane to the right by 8 bits.
fn rot8(x: U32x8) -> (r: U32x8)
    ensures
        forall|l: int| 0 <= l < 8 ==> #[trigger] r@[l] == spec::rotr(x@[l], 8),
{
    U32x8 {
        lanes: [
            (x.lanes[0] >> 8) | (x.lanes[0] << 24),
            (x.lanes[1] >> 8) | (x.lanes[1] << 24),
            (x.lanes[2] >> 8) | (x.lanes[2] << 24),
            (x.lanes[3] >> 8) | (x.lanes[3] << 24),
            (x.lanes[4] >> 8) | (x.lanes[4] << 24),
            (x.lanes[5] >> 8) | (x.lanes[5] << 24),
            (x.lanes[6] >> 8) | (x.lanes[6] << 24),
            (x.lanes[7] >> 8) | (x.lanes[7] << 24),
        ],
    }
}

/// Rotates every lane to the right by 7 bits.
fn rot7(x: U32x8) -> (r: U32x8)
    ensures
        forall|l: int| 0 <= l < 8 ==> #[trigger] r@[l] == spec::rotr(x@[l], 7),
{
    U32x8 {
        lanes: [
            (x.lanes[0] >> 7) | (x.lanes[0] << 25),
            (x.lanes[1] >> 7) | (x.lanes[1] << 25),
            (x.lanes[2] >> 7) | (x.lanes[2] << 25),
            (x.lanes[3] >> 7) | (x.lanes[3] << 25),
            (x.lanes[4] >> 7) | (x.lanes[4] << 25),
            (x.lanes[5] >> 7) | (x.lanes[5] << 25),
            (x.lanes[6] >> 7) | (x.lanes[6] << 25),
            (x.lanes[7] >> 7) | (x.lanes[7] << 25),
        ],
    }
}

/// The quarter round in every lane.
fn g(a: U32x8, b: U32x8, c: U32x8, d: U32x8, x: U32x8, y: U32x8) -> (r: (
    U32x8,
    U32x8,
    U32x8,
    U32x8,
))
    ensures
        forall|l: int|
            0 <= l < 8 ==> (r.0@[l], r.1@[l], r.2@[l], r.3@[l]) == #[trigger] spec::mix(
                a@[l],
                b@[l],
                c@[l],
                d@[l],
                x@[l],
                y@[l],
            ),
{
    let a1 = self::add(self::add(a, x), b);
    let d1 = rot16(xor(d, a1));
    let c1 = self::add(c, d1);
    let b1 = rot12(xor(b, c1));
    let a2 = self::add(self::add(a1, y), b1);
    let d2 = rot8(xor(d1, a2));
    let c2 = self::add(c1, d2);
    let b2 = rot7(xor(b1, c2));
    proof {
        assert forall|l: int| 0 <= l < 8 implies (a2@[l], b2@[l], c2@[l], d2@[l])
            == #[trigger] spec::mix(a@[l], b@[l], c@[l], d@[l], x@[l], y@[l]) by {
            reveal(spec::mix);
            lemma_wrap_sum(a@[l], x@[l], b@[l]);
            lemma_wrap_sum(a1@[l], y@[l], b1@[l]);
        }
    }
    (a2, b2, c2, d2)
}

/// Round number `r` in every lane.
pub fn round(v: &mut [U32x8; 16], m: &[U32x8; 16], r: usize)
    requires
        r < 7,
    ensures
        forall|l: int|
            0 <= l < 8 ==> #[trigger] lane(final(v)@, l) == spec::round(
                lane(old(v)@, l),
                lane(m@, l),
                r as int,
            ),
{
    let ghost before = v@;
    let s = &MSG_SCHEDULE[r];
    // The columns.
    let (a0, b0, c0, d0) = g(v[0], v[4], v[8], v[12], m[s[0]], m[s[1]]);
    let (a1, b1, c1, d1) = g(v[1], v[5], v[9], v[13], m[s[2]], m[s[3]]);
    let (a2, b2, c2, d2) = g(v[2], v[6], v[10], v[14], m[s[4]], m[s[5]]);
    let (a3, b3, c3, d3) = g(v[3], v[7], v[11], v[15], m[s[6]], m[s[7]]);
    // The diagonals.
    let (a0, b1, c2, d3) = g(a0, b1, c2, d3, m[s[8]], m[s[9]]);
    let (a1, b2, c3, d0) = g(a1, b2, c3, d0, m[s[10]], m[s[11]]);
    let (a2, b3, c0, d1) = g(a2, b3, c0, d1, m[s[12]], m[s[13]]);
    let (a3, b0, c1, d2) = g(a3, b0, c1, d2, m[s[14]], m[s[15]]);
    *v = [a0, a1, a2, a3, b0, b1, b2, b3, c0, c1, c2, c3, d0, d1, d2, d3];
    proof {
        reveal(spec::round);
        assert forall|l: int| 0 <= l < 8 implies #[trigger] lane(v@, l) == spec::round(
            lane(before, l),
            lane(m@, l),
            r as int,
        ) by {
            assert(lane(v@, l) =~= spec::round(lane(before, l), lane(m@, l), r as int));
        }
    }
}

/// Interleaves the two low words of each half of `a` with those of `b`.
fn unpacklo_epi32(a: U32x8, b: U32x8) -> (r: U32x8)
    ensures
        r@ == seq![a@[0], b@[0], a@[1], b@[1], a@[4], b@[4], a@[5], b@[5]],
{
    let r = U32x8 {
        lanes: [
            a.lanes[0],
            b.lanes[0],
            a.lanes[1],
            b.lanes[1],
            a.lanes[4],
            b.lanes[4],
            a.lanes[5],
            b.lanes[5],
        ],
    };
    assert(r@ =~= seq![a@[0], b@[0], a@[1], b@[1], a@[4], b@[4], a@[5], b@[5]]);
    r
}

/// Interleaves the two high words of each half of `a` with those of `b`.
fn unpackhi_epi32(a: U32x8, b: U32x8) -> (r: U32x8)
    ensures
        r@ == seq![a@[2], b@[2], a@[3], b@[3], a@[6], b@[6], a@[7], b@[7]],
{
    let r = U32x8 {
        lanes: [
            a.lanes[2],
            b.lanes[2],
            a.lanes[3],
            b.lanes[3],
            a.lanes[6],
            b.lanes[6],
            a.lanes[7],
            b.lanes[7],
        ],
    };
    assert(r@ =~= seq![a@[2], b@[2], a@[3], b@[3], a@[6], b@[6], a@[7], b@[7]]);
    r
}

/// In each half, the low pair of words of `a`, then that of `b`.
fn unpacklo_epi64(a: U32x8, b: U32x8) -> (r: U32x8)
    ensures
        r@ == seq![a@[0], a@[1], b@[0], b@[1], a@[4], a@[5], b@[4], b@[5]],
{
    let r = U32x8 {
        lanes: [
            a.lanes[0],
            a.lanes[1],
            b.lanes[0],
            b.lanes[1],
            a.lanes[4],
            a.lanes[5],
            b.lanes[4],
            b.lanes[5],
        ],
    };
    assert(r@ =~= seq![a@[0], a@[1], b@[0], b@[1], a@[4], a@[5], b@[4], b@[5]]);
    r
}

/// In each half, the high pair of words of `a`, then that of `b`.
fn unpackhi_epi64(a: U32x8, b: U32x8) -> (r: U32x8)
    ensures
        r@ == seq![a@[2], a@[3], b@[2], b@[3], a@[6], a@[7], b@[6], b@[7]],
{
    let r = U32x8 {
        lanes: [
            a.lanes[2],
            a.lanes[3],
            b.lanes[2],
            b.lanes[3],
            a.lanes[6],
            a.lanes[7],
            b.lanes[6],
            b.lanes[7],
        ],
    };
    assert(r@ =~= seq![a@[2], a@[3], b@[2], b@[3], a@[6], a@[7], b@[6], b@[7]]);
    r
}

/// The two low halves, and the two high halves.
fn interleave128(a: U32x8, b: U32x8) -> (r: (U32x8, U32x8))
    ensures
        r.0@ == seq![a@[0], a@[1], a@[2], a@[3], b@[0], b@[1], b@[2], b@[3]],
        r.1@ == seq![a@[4], a@[5], a@[6], a@[7], b@[4], b@[5], b@[6], b@[7]],
{
    let low = U32x8 {
        lanes: [
            a.lanes[0],
            a.lanes[1],
            a.lanes[2],
            a.lanes[3],
            b.lanes[0],
            b.lanes[1],
            b.lanes[2],
            b.lanes[3],
        ],
    };
    let high = U32x8 {
        lanes: [
            a.lanes[4],
            a.lanes[5],
            a.lanes[6],
            a.lanes[7],
            b.lanes[4],
            b.lanes[5],
            b.lanes[6],
            b.lanes[7],
        ],
    };
    assert(low@ =~= seq![a@[0], a@[1], a@[2], a@[3], b@[0], b@[1], b@[2], b@[3]]);
    assert(high@ =~= seq![a@[4], a@[5], a@[6], a@[7], b@[4], b@[5], b@[6], b@[7]]);
    (low, high)
}

/// Transposes the 8-by-8 matrix of which each vector is a row.
pub fn transpose_vecs(vecs: &mut [U32x8; DEGREE])
    ensures
        rows(final(vecs)@) == transposed(rows(old(vecs)@)),
        forall|i: int, j: int|
            0 <= i < 8 && 0 <= j < 8 ==> #[trigger] final(vecs)[i]@[j] == old(vecs)[j]@[i],
{
    let ghost before = vecs@;
    // Interleave 32-bit lanes. The low unpack is lanes 00/11/44/55, and the high is 22/33/66/77.
    let ab_0145 = unpacklo_epi32(vecs[0], vecs[1]);
    let ab_2367 = unpackhi_epi32(vecs[0], vecs[1]);
    let cd_0145 = unpacklo_epi32(vecs[2], vecs[3]);
    let cd_2367 = unpackhi_epi32(vecs[2], vecs[3]);
    let ef_0145 = unpacklo_epi32(vecs[4], vecs[5]);
    let ef_2367 = unpackhi_epi32(vecs[4], vecs[5]);
    let gh_0145 = unpacklo_epi32(vecs[6], vecs[7]);
    let gh_2367 = unpackhi_epi32(vecs[6], vecs[7]);

    // Interleave 64-bit lanes. The low unpack is lanes 00/22 and the high is 11/33.
    let abcd_04 = unpacklo_epi64(ab_0145, cd_0145);
    let abcd_15 = unpackhi_epi64(ab_0145, cd_0145);
    let abcd_26 = unpacklo_epi64(ab_2367, cd_2367);
    let abcd_37 = unpackhi_epi64(ab_2367, cd_2367);
    let efgh_04 = unpacklo_epi64(ef_0145, gh_0145);
    let efgh_15 = unpackhi_epi64(ef_0145, gh_0145);
    let efgh_26 = unpacklo_epi64(ef_2367, gh_2367);
    let efgh_37 = unpackhi_epi64(ef_2367, gh_2367);

    // Interleave 128-bit lanes.
    let (abcdefgh_0, abcdefgh_4) = interleave128(abcd_04, efgh_04);
    let (abcdefgh_1, abcdefgh_5) = interleave128(abcd_15, efgh_15);
    let (abcdefgh_2, abcdefgh_6) = interleave128(abcd_26, efgh_26);
    let (abcdefgh_3, abcdefgh_7) = interleave128(abcd_37, efgh_37);

    *vecs = [
        abcdefgh_0,
        abcdefgh_1,
        abcdefgh_2,
        abcdefgh_3,
        abcdefgh_4,
        abcdefgh_5,
        abcdefgh_6,
        abcdefgh_7,
    ];
    assert forall|i: int| 0 <= i < 8 implies #[trigger] rows(vecs@)[i] == transposed(
        rows(before),
    )[i] by {
        assert(rows(vecs@)[i] =~= transposed(rows(before))[i]);
    }
    assert(rows(vecs@) =~= transposed(rows(before)));
}

/// The sixteen words of one block of each input, word `i` of all inputs in vector `i`.
fn transpose_msg_vecs(inputs: &[&[u8]; DEGREE], block_offset: usize) -> (m: [U32x8; 16])
    requires
        forall|l: int| 0 <= l < 8 ==> block_offset + 64 <= #[trigger] inputs[l].len(),
    ensures
        forall|l: int|
            0 <= l < 8 ==> #[trigger] lane(m@, l) == spec::words_of(
                inputs[l]@.subrange(block_offset as int, block_offset + 64),
            ),
{
    assert(block_offset + 64 <= inputs[0].len());
    let mut low: [U32x8; DEGREE] = [
        loadu(inputs[0], block_offset),
        loadu(inputs[1], block_offset),
        loadu(inputs[2], block_offset),
        loadu(inputs[3], block_offset),
        loadu(inputs[4], block_offset),
        loadu(inputs[5], block_offset),
        loadu(inputs[6], block_offset),
        loadu(inputs[7], block_offset),
    ];
    let mut high: [U32x8; DEGREE] = [
        loadu(inputs[0], block_offset + 4 * DEGREE),
        loadu(inputs[1], block_offset + 4 * DEGREE),
        loadu(inputs[2], block_offset + 4 * DEGREE),
        loadu(inputs[3], block_offset + 4 * DEGREE),
        loadu(inputs[4], block_offset + 4 * DEGREE),
        loadu(inputs[5], block_offset + 4 * DEGREE),
        loadu(inputs[6], block_offset + 4 * DEGREE),
        loadu(inputs[7], block_offset + 4 * DEGREE),
    ];
    transpose_vecs(&mut low);
    transpose_vecs(&mut high);
    let m: [U32x8; 16] = [
        low[0],
        low[1],
        low[2],
        low[3],
        low[4],
        low[5],
        low[6],
        low[7],
        high[0],
        high[1],
        high[2],
        high[3],
        high[4],
        high[5],
        high[6],
        high[7],
    ];
    assert forall|l: int| 0 <= l < 8 implies #[trigger] lane(m@, l) == spec::words_of(
        inputs[l]@.subrange(block_offset as int, block_offset + 64),
    ) by {
        assert(block_offset + 64 <= inputs[l].len());
        let block = inputs[l]@.subrange(block_offset as int, block_offset + 64);
        assert forall|i: int| 0 <= i < 16 implies lane(m@, l)[i] == spec::words_of(block)[i] by {
            assert(spec::words_of(block)[i] == spec::le_word(inputs[l]@, block_offset + 4 * i));
        }
        assert(lane(m@, l) =~= spec::words_of(block));
    }
    m
}

/// The low and the high words of the block counters of all lanes.
fn load_counters(counter: u64, increment_counter: IncrementCounter) -> (r: (U32x8, U32x8))
    requires
        increment_counter == IncrementCounter::Yes ==> counter + 7 <= u64::MAX,
    ensures
        forall|l: int|
            0 <= l < 8 ==> #[trigger] r.0@[l] == spec::low_word(
                spec::lane_counter(counter, increment_counter, l),
            ),
        forall|l: int|
            0 <= l < 8 ==> #[trigger] r.1@[l] == spec::high_word(
                spec::lane_counter(counter, increment_counter, l),
            ),
{
    let step: u64 = if increment_counter.yes() {
        1
    } else {
        0
    };
    (
        set8(
            counter_low(counter),
            counter_low(counter + step),
            counter_low(counter + 2 * step),
            counter_low(counter + 3 * step),
            counter_low(counter + 4 * step),
            counter_low(counter + 5 * step),
            counter_low(counter + 6 * step),
            counter_low(counter + 7 * step),
        ),
        set8(
            counter_high(counter),
            counter_high(counter + step),
            counter_high(counter + 2 * step),
            counter_high(counter + 3 * step),
            counter_high(counter + 4 * step),
            counter_high(counter + 5 * step),
            counter_high(counter + 6 * step),
            counter_high(counter + 7 * step),
        ),
    )
}

/// Compresses one block in every lane: `h` holds the chaining values and `m` the blocks.
fn compress_lanes(
    h: &mut [U32x8; DEGREE],
    m: &[U32x8; 16],
    counter_low_vec: U32x8,
    counter_high_vec: U32x8,
    block_len: u8,
    flags: u8,
)
    ensures
        forall|l: int, counter: u64|
            #![trigger lane(final(h)@, l), spec::low_word(counter)]
            0 <= l < 8 && counter_low_vec@[l] == spec::low_word(counter) && counter_high_vec@[l]
                == spec::high_word(counter) ==> lane(final(h)@, l) == spec::fold(
                spec::rounds(
                    spec::initial_state(lane(old(h)@, l), block_len, counter, flags),
                    lane(m@, l),
                    7,
                ),
            ),
{
    let ghost before = h@;
    let mut v: [U32x8; 16] = [
        h[0],
        h[1],
        h[2],
        h[3],
        h[4],
        h[5],
        h[6],
        h[7],
        set1(IV[0]),
        set1(IV[1]),
        set1(IV[2]),
        set1(IV[3]),
        counter_low_vec,
        counter_high_vec,
        set1(block_len as u32),
        set1(flags as u32),
    ];
    let ghost start = v@;
    for r in 0..7usize
        invariant
            forall|l: int|
                0 <= l < 8 ==> #[trigger] lane(v@, l) == spec::rounds(
                    lane(start, l),
                    lane(m@, l),
                    r as nat,
                ),
    {
        round(&mut v, m, r);
    }
    *h = [
        xor(v[0], v[8]),
        xor(v[1], v[9]),
        xor(v[2], v[10]),
        xor(v[3], v[11]),
        xor(v[4], v[12]),
        xor(v[5], v[13]),
        xor(v[6], v[14]),
        xor(v[7], v[15]),
    ];
    assert forall|l: int, counter: u64|
        #![trigger lane(h@, l), spec::low_word(counter)]
        0 <= l < 8 && counter_low_vec@[l] == spec::low_word(counter) && counter_high_vec@[l]
            == spec::high_word(counter) implies lane(h@, l) == spec::fold(
        spec::rounds(
            spec::initial_state(lane(before, l), block_len, counter, flags),
            lane(m@, l),
            7,
        ),
    ) by {
        assert(lane(start, l) =~= spec::initial_state(lane(before, l), block_len, counter, flags));
        assert(lane(h@, l) =~= spec::fold(lane(v@, l)));
    }
}

/// Hashes the first `blocks` full blocks of eight inputs, writing the final chaining value of
/// each to `out`.
///
/// The first block has the flags `flags | flags_start`, the last one adds `flags_end`. With
/// `IncrementCounter::Yes` input `l` has the block counter `counter + l`, else all have `counter`.
pub fn hash8(
    inputs: &[&[u8]; DEGREE],
    blocks: usize,
    key: &CVWords,
    counter: u64,
    increment_counter: IncrementCounter,
    flags: u8,
    flags_start: u8,
    flags_end: u8,
    out: &mut [u8; OUT_LEN_8],
)
    requires
        forall|l: int| 0 <= l < 8 ==> 64 * blocks <= #[trigger] inputs[l].len(),
        increment_counter == IncrementCounter::Yes ==> counter + 7 <= u64::MAX,
    ensures
        forall|l: int|
            0 <= l < 8 ==> #[trigger] final(out)@.subrange(32 * l, 32 * l + 32) == spec::bytes_of(
                spec::blocks_cv(
                    inputs[l]@,
                    blocks as nat,
                    blocks as nat,
                    key@,
                    spec::lane_counter(counter, increment_counter, l),
                    flags,
                    flags_start,
                    flags_end,
                ),
            ),
{
    let mut h_vecs: [U32x8; DEGREE] = [
        set1(key[0]),
        set1(key[1]),
        set1(key[2]),
        set1(key[3]),
        set1(key[4]),
        set1(key[5]),
        set1(key[6]),
        set1(key[7]),
    ];
    let (counter_low_vec, counter_high_vec) = load_counters(counter, increment_counter);
    let mut block_flags: u8 = flags | flags_start;
    assert forall|l: int| 0 <= l < 8 implies #[trigger] lane(h_vecs@, l) == key@ by {
        assert(lane(h_vecs@, l) =~= key@);
    }
    for block in 0..blocks
        invariant
            forall|l: int| 0 <= l < 8 ==> 64 * blocks <= #[trigger] inputs[l].len(),
            block_flags == (if block == 0 {
                flags | flags_start
            } else {
                flags
            }),
            forall|l: int|
                0 <= l < 8 ==> #[trigger] counter_low_vec@[l] == spec::low_word(
                    spec::lane_counter(counter, increment_counter, l),
                ),
            forall|l: int|
                0 <= l < 8 ==> #[trigger] counter_high_vec@[l] == spec::high_word(
                    spec::lane_counter(counter, increment_counter, l),
                ),
            forall|l: int|
                0 <= l < 8 ==> #[trigger] lane(h_vecs@, l) == spec::blocks_cv(
                    inputs[l]@,
                    block as nat,
                    blocks as nat,
                    key@,
                    spec::lane_counter(counter, increment_counter, l),
                    flags,
                    flags_start,
                    flags_end,
                ),
    {
        if block + 1 == blocks {
            block_flags = block_flags | flags_end;
        }
        assert(64 * blocks <= inputs[0].len());
        let msg_vecs = transpose_msg_vecs(inputs, block * BLOCK_LEN);
        let ghost before = h_vecs@;
        compress_lanes(
            &mut h_vecs,
            &msg_vecs,
            counter_low_vec,
            counter_high_vec,
            64,  // full blocks only
            block_flags,
        );
        assert forall|l: int| 0 <= l < 8 implies #[trigger] lane(h_vecs@, l) == spec::blocks_cv(
            inputs[l]@,
            (block + 1) as nat,
            blocks as nat,
            key@,
            spec::lane_counter(counter, increment_counter, l),
            flags,
            flags_start,
            flags_end,
        ) by {
            let c = spec::lane_counter(counter, increment_counter, l);
            assert(counter_low_vec@[l] == spec::low_word(c));
            assert(counter_high_vec@[l] == spec::high_word(c));
            assert(lane(before, l) == spec::blocks_cv(
                inputs[l]@,
                block as nat,
                blocks as nat,
                key@,
                c,
                flags,
                flags_start,
                flags_end,
            ));
            reveal(spec::compress);
            assert(lane(msg_vecs@, l) == spec::words_of(
                inputs[l]@.subrange(64 * block as int, 64 * (block + 1)),
            ));
        }
        block_flags = flags;
    }
    let ghost done = h_vecs@;
    transpose_vecs(&mut h_vecs);
    for l in 0..8usize
        invariant
            forall|k: int|
                0 <= k < l ==> #[trigger] out@.subrange(32 * k, 32 * k + 32) == spec::bytes_of(
                    h_vecs[k]@,
                ),
    {
        let ghost before = out@;
        storeu(h_vecs[l], out, 32 * l);
        assert forall|k: int| 0 <= k < l implies #[trigger] out@.subrange(32 * k, 32 * k + 32)
            == spec::bytes_of(h_vecs[k]@) by {
            assert(before.subrange(32 * k, 32 * k + 32) == spec::bytes_of(h_vecs[k]@));
            assert(out@.subrange(32 * k, 32 * k + 32) =~= before.subrange(32 * k, 32 * k + 32));
        }
    }
    assert forall|l: int| 0 <= l < 8 implies #[trigger] out@.subrange(32 * l, 32 * l + 32)
        == spec::bytes_of(lane(done, l)) by {
        assert(h_vecs[l]@ =~= lane(done, l));
    }
}

/// Hashes the full blocks of each input and writes the final chaining values to `out`.
///
/// The inputs go through [`hash8`] in groups of eight. What remains, fewer than eight, is hashed
/// one input after the other.
pub fn hash_many<const N: usize>(
    inputs: &[&[u8; N]],
    key: &CVWords,
    counter: u64,
    increment_counter: IncrementCounter,
    flags: u8,
    flags_start: u8,
    flags_end: u8,
    out: &mut [u8],
)
    requires
        32 * inputs.len() <= old(out).len(),
        increment_counter == IncrementCounter::Yes ==> counter + inputs.len() <= u64::MAX,
    ensures
        spec::hashes_many(
            spec::array_views(inputs@),
            key@,
            counter,
            increment_counter,
            flags,
            flags_start,
            flags_end,
            old(out)@,
            final(out)@,
        ),
{
    let ghost all = spec::array_views(inputs@);
    let ghost before = out@;
    let blocks: usize = N / BLOCK_LEN;
    let mut done: usize = 0;
    let mut group_counter: u64 = counter;
    while inputs.len() - done >= DEGREE
        invariant
            done <= inputs.len(),
            blocks == N / 64,
            all == spec::array_views(inputs@),
            32 * inputs.len() <= out.len(),
            increment_counter == IncrementCounter::Yes ==> counter + inputs.len() <= u64::MAX,
            group_counter == spec::lane_counter(counter, increment_counter, done as int),
            spec::hashes_many(
                all.subrange(0, done as int),
                key@,
                counter,
                increment_counter,
                flags,
                flags_start,
                flags_end,
                before,
                out@,
            ),
        decreases inputs.len() - done,
    {
        let group: [&[u8]; DEGREE] = [
            inputs[done],
            inputs[done + 1],
            inputs[done + 2],
            inputs[done + 3],
            inputs[done + 4],
            inputs[done + 5],
            inputs[done + 6],
            inputs[done + 7],
        ];
        assert forall|l: int| 0 <= l < 8 implies #[trigger] group[l]@ == all[done + l] by {}
        let mut group_out: [u8; OUT_LEN_8] = [0; OUT_LEN_8];
        hash8(
            &group,
            blocks,
            key,
            group_counter,
            increment_counter,
            flags,
            flags_start,
            flags_end,
            &mut group_out,
        );
        let ghost middle = out@;
        copy_bytes(out, OUT_LEN * done, &group_out);
        assert forall|k: int| 0 <= k < done + 8 implies #[trigger] out@.subrange(
            32 * k,
            32 * k + 32,
        ) == spec::hash_blocks(
            all[k],
            key@,
            spec::lane_counter(counter, increment_counter, k),
            flags,
            flags_start,
            flags_end,
        ) by {
            if k < done {
                assert(out@.subrange(32 * k, 32 * k + 32) =~= middle.subrange(
                    32 * k,
                    32 * k + 32,
                ));
            } else {
                let l = k - done;
                assert(group[l]@ == all[k]);
                assert(out@.subrange(32 * k, 32 * k + 32) =~= group_out@.subrange(
                    32 * l,
                    32 * l + 32,
                ));
            }
        }
        if increment_counter.yes() {
            group_counter = group_counter + DEGREE as u64;
        }
        done = done + DEGREE;
    }
    let ghost middle = out@;
    let (_, rest) = out.split_at_mut(OUT_LEN * done);
    let last = &inputs[done..inputs.len()];
    portable::hash_many(
        last,
        key,
        group_counter,
        increment_counter,
        flags,
        flags_start,
        flags_end,
        rest,
    );
    let ghost rest_after = rest@;
    assert(out@.subrange(32 * done as int, out@.len() as int) =~= rest_after);
    assert forall|k: int| 0 <= k < all.len() implies #[trigger] out@.subrange(32 * k, 32 * k + 32)
        == spec::hash_blocks(
        all[k],
        key@,
        spec::lane_counter(counter, increment_counter, k),
        flags,
        flags_start,
        flags_end,
    ) by {
        if k < done {
            assert(out@.subrange(32 * k, 32 * k + 32) =~= middle.subrange(32 * k, 32 * k + 32));
        } else {
            let l = k - done;
            assert(out@.subrange(32 * k, 32 * k + 32) =~= rest_after.subrange(
                32 * l,
                32 * l + 32,
            ));
            assert(spec::array_views(last@)[l] == all[k]);
        }
    }
}

/// Compresses one (possibly partial) block for eight independent lanes at once. `cvs[i]` is the
/// chaining value of lane `i`, overwritten in place with the result, and `blocks[i]` is its block.
/// The `block_len`, `counter` and `flags` are shared by every lane.
pub fn compress8(
    cvs: &mut [CVWords; DEGREE],
    blocks: &[[u8; BLOCK_LEN]; DEGREE],
    block_len: u8,
    counter: u64,
    flags: u8,
)
    ensures
        forall|l: int|
            0 <= l < 8 ==> #[trigger] final(cvs)[l]@ == spec::compress(
                old(cvs)[l]@,
                blocks[l]@,
                block_len,
                counter,
                flags,
            ),
{
    let ghost before = cvs@;
    let mut h_vecs: [U32x8; DEGREE] = [
        U32x8 { lanes: cvs[0] },
        U32x8 { lanes: cvs[1] },
        U32x8 { lanes: cvs[2] },
        U32x8 { lanes: cvs[3] },
        U32x8 { lanes: cvs[4] },
        U32x8 { lanes: cvs[5] },
        U32x8 { lanes: cvs[6] },
        U32x8 { lanes: cvs[7] },
    ];
    transpose_vecs(&mut h_vecs);
    let ghost start = h_vecs@;
    let lanes: [&[u8]; DEGREE] = [
        &blocks[0],
        &blocks[1],
        &blocks[2],
        &blocks[3],
        &blocks[4],
        &blocks[5],
        &blocks[6],
        &blocks[7],
    ];
    let msg_vecs = transpose_msg_vecs(&lanes, 0);
    compress_lanes(
        &mut h_vecs,
        &msg_vecs,
        set1(counter_low(counter)),
        set1(counter_high(counter)),
        block_len,
        flags,
    );
    let ghost done = h_vecs@;
    transpose_vecs(&mut h_vecs);
    *cvs = [
        h_vecs[0].lanes,
        h_vecs[1].lanes,
        h_vecs[2].lanes,
        h_vecs[3].lanes,
        h_vecs[4].lanes,
        h_vecs[5].lanes,
        h_vecs[6].lanes,
        h_vecs[7].lanes,
    ];
    assert forall|l: int| 0 <= l < 8 implies #[trigger] cvs[l]@ == spec::compress(
        before[l]@,
        blocks[l]@,
        block_len,
        counter,
        flags,
    ) by {
        assert(cvs[l]@ == h_vecs[l]@);
        assert(h_vecs[l]@ =~= lane(done, l));
        assert(lane(start, l) =~= before[l]@);
        assert(lanes[l]@.subrange(0, 64) =~= blocks[l]@);
        assert(lane(msg_vecs@, l) == spec::words_of(blocks[l]@));
        reveal(spec::compress);
    }
}

/// Compresses block `i` into the chaining value `cvs[i]`, for each `i`, up to eight at once.
pub fn compress_many(
    cvs: &mut [CVWords],
    blocks: &[[u8; BLOCK_LEN]],
    block_len: u8,
    counter: u64,
    flags: u8,
)
    requires
        old(cvs).len() == blocks.len(),
    ensures
        final(cvs)@.len() == old(cvs)@.len(),
        forall|i: int|
            0 <= i < blocks@.len() ==> #[trigger] final(cvs)@[i]@ == spec::compress(
                old(cvs)@[i]@,
                blocks@[i]@,
                block_len,
                counter,
                flags,
            ),
{
    let ghost before = cvs@;
    let mut done: usize = 0;
    while done < blocks.len()
        invariant
            done <= blocks.len(),
            cvs.len() == blocks.len(),
            cvs@.len() == before.len(),
            forall|k: int| done <= k < blocks@.len() ==> #[trigger] cvs@[k] == before[k],
            forall|k: int|
                0 <= k < done ==> #[trigger] cvs@[k]@ == spec::compress(
                    before[k]@,
                    blocks@[k]@,
                    block_len,
                    counter,
                    flags,
                ),
        decreases blocks.len() - done,
    {
        let n: usize = if blocks.len() - done < DEGREE {
            blocks.len() - done
        } else {
            DEGREE
        };
        // Lanes beyond the last block compress zeros, and their results are dropped.
        let mut group_cvs: [CVWords; DEGREE] = [[0; 8]; DEGREE];
        let mut group_blocks: [[u8; BLOCK_LEN]; DEGREE] = [[0; BLOCK_LEN]; DEGREE];
        for l in 0..n
            invariant
                n <= 8,
                done + n <= blocks.len(),
                cvs.len() == blocks.len(),
                forall|k: int| 0 <= k < l ==> #[trigger] group_cvs[k] == cvs@[done + k],
                forall|k: int| 0 <= k < l ==> #[trigger] group_blocks[k] == blocks@[done + k],
        {
            group_cvs[l] = cvs[done + l];
            group_blocks[l] = blocks[done + l];
        }
        let ghost group_before = group_cvs@;
        compress8(&mut group_cvs, &group_blocks, block_len, counter, flags);
        let ghost middle = cvs@;
        for l in 0..n
            invariant
                n <= 8,
                done + n <= blocks.len(),
                cvs.len() == blocks.len(),
                cvs@.len() == middle.len(),
                forall|k: int|
                    0 <= k < blocks@.len() && !(done <= k < done + l) ==> #[trigger] cvs@[k]
                        == middle[k],
                forall|k: int| done <= k < done + l ==> #[trigger] cvs@[k] == group_cvs[k - done],
        {
            cvs[done + l] = group_cvs[l];
        }
        assert forall|k: int| 0 <= k < done + n implies #[trigger] cvs@[k]@ == spec::compress(
            before[k]@,
            blocks@[k]@,
            block_len,
            counter,
            flags,
        ) by {
            if k < done {
                assert(cvs@[k] == middle[k]);
            } else {
                let l = k - done;
                assert(group_before[l] == middle[k]);
                assert(group_blocks[l] == blocks@[k]);
                assert(cvs@[k] == group_cvs[l]);
            }
        }
        done = done + n;
    }
}

} // verus!
