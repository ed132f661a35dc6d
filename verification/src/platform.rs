//! The choice of a kernel, and little-endian conversions between words and bytes.
use crate::portable;
use crate::rust_avx2;
use crate::rust_avx2::DEGREE;
use crate::spec;
use crate::spec::{byte_of, bytes_of, le_word, words_of, BLOCK_LEN, KEY_LEN};
use vstd::prelude::*;

verus! {

/// A chaining value or a key, as words.
pub type CVWords = [u32; 8];

/// A chaining value or a key, as bytes.
pub type CVBytes = [u8; 32];

/// Whether the inputs of a batch are successive chunks of one message, or all have one number.
#[derive(Clone, Copy, Debug, PartialEq, Eq, Structural)]
pub enum IncrementCounter {
    Yes,
    No,
}

impl IncrementCounter {
    /// Whether the counter goes up by one from each input to the next.
    pub fn yes(&self) -> (b: bool)
        ensures
            b == (*self == IncrementCounter::Yes),
    {
        match self {
            IncrementCounter::Yes => true,
            IncrementCounter::No => false,
        }
    }
}

/// The word whose little-endian bytes stand in `bytes` from position `i` on.
pub fn word_at(bytes: &[u8], i: usize) -> (w: u32)
    requires
        i + 4 <= bytes@.len(),
    ensures
        w == le_word(bytes@, i as int),
{
    let b0 = bytes[i];
    let b1 = bytes[i + 1];
    let b2 = bytes[i + 2];
    let b3 = bytes[i + 3];
    let w: u32 = (b0 as u32) | ((b1 as u32) << 8) | ((b2 as u32) << 16) | ((b3 as u32) << 24);
    assert(w == b0 + 0x100 * b1 + 0x1_0000 * b2 + 0x100_0000 * b3) by (bit_vector)
        requires
            w == (b0 as u32) | ((b1 as u32) << 8) | ((b2 as u32) << 16) | ((b3 as u32) << 24),
    ;
    w
}

/// The four little-endian bytes of `w`.
pub fn word_bytes(w: u32) -> (bytes: [u8; 4])
    ensures
        forall|k: int| 0 <= k < 4 ==> #[trigger] bytes[k] == byte_of(w, k),
{
    let b0: u8 = #[verifier::truncate] (w as u8);
    let b1: u8 = #[verifier::truncate] ((w >> 8) as u8);
    let b2: u8 = #[verifier::truncate] ((w >> 16) as u8);
    let b3: u8 = #[verifier::truncate] ((w >> 24) as u8);
    assert(w as u8 == w % 0x100) by (bit_vector);
    assert((w >> 8) as u8 == w / 0x100 % 0x100) by (bit_vector);
    assert((w >> 16) as u8 == w / 0x1_0000 % 0x100) by (bit_vector);
    assert((w >> 24) as u8 == w / 0x100_0000) by (bit_vector);
    [b0, b1, b2, b3]
}

/// Copies `src` to `dest`, from `offset` on.
pub fn copy_bytes(dest: &mut [u8], offset: usize, src: &[u8])
    requires
        offset + src.len() <= old(dest).len(),
    ensures
        final(dest)@.len() == old(dest)@.len(),
        final(dest)@.subrange(offset as int, offset + src.len()) == src@,
        forall|i: int|
            0 <= i < final(dest)@.len() && !(offset <= i < offset + src.len())
                ==> #[trigger] final(dest)@[i] == old(dest)@[i],
{
    let ghost before = dest@;
    for k in 0..src.len()
        invariant
            offset + src.len() <= dest.len(),
            dest@.len() == before.len(),
            forall|i: int| offset <= i < offset + k ==> #[trigger] dest@[i] == src@[i - offset],
            forall|i: int|
                0 <= i < dest@.len() && !(offset <= i < offset + src.len()) ==> #[trigger] dest@[i]
                    == before[i],
    {
        dest[offset + k] = src[k];
    }
    assert(dest@.subrange(offset as int, offset + src.len()) =~= src@);
}

/// The eight words whose little-endian bytes are `bytes`.
pub fn words_from_le_bytes_32(bytes: &[u8; KEY_LEN]) -> (words: CVWords)
    ensures
        words@ == words_of(bytes@),
{
    let mut words: CVWords = [0; 8];
    for i in 0..8usize
        invariant
            forall|j: int| 0 <= j < i ==> #[trigger] words[j] == le_word(bytes@, 4 * j),
    {
        words[i] = word_at(bytes, 4 * i);
    }
    words
}

/// The sixteen words whose little-endian bytes are `bytes`.
pub fn words_from_le_bytes_64(bytes: &[u8; BLOCK_LEN]) -> (words: [u32; 16])
    ensures
        words@ == words_of(bytes@),
{
    let mut words: [u32; 16] = [0; 16];
    for i in 0..16usize
        invariant
            forall|j: int| 0 <= j < i ==> #[trigger] words[j] == le_word(bytes@, 4 * j),
    {
        words[i] = word_at(bytes, 4 * i);
    }
    words
}

/// The little-endian bytes of eight words.
pub fn le_bytes_from_words_32(words: &CVWords) -> (bytes: CVBytes)
    ensures
        bytes@ == bytes_of(words@),
{
    let mut bytes: CVBytes = [0; 32];
    for i in 0..8usize
        invariant
            forall|j: int| 0 <= j < 4 * i ==> #[trigger] bytes[j] == byte_of(words[j / 4], j % 4),
    {
        let b = word_bytes(words[i]);
        bytes[4 * i] = b[0];
        bytes[4 * i + 1] = b[1];
        bytes[4 * i + 2] = b[2];
        bytes[4 * i + 3] = b[3];
    }
    bytes
}

/// The kernels that hash and compress many inputs at once.
#[derive(Clone, Copy, Debug, PartialEq, Eq, Structural)]
pub enum Platform {
    /// One input after the other.
    Portable,
    /// Eight inputs at once.
    AVX2,
}

/// The most inputs that any platform takes in at once.
pub const MAX_SIMD_DEGREE: usize = 8;

impl Platform {
    /// The widest platform. Its vectors are arrays, so it runs on every machine.
    pub fn detect() -> (platform: Platform)
        ensures
            platform == Platform::AVX2,
    {
        Platform::AVX2
    }

    /// How many inputs the platform takes in at once.
    pub open spec fn degree(self) -> nat {
        match self {
            Platform::Portable => 1,
            Platform::AVX2 => 8,
        }
    }

    /// How many inputs the platform takes in at once.
    pub fn simd_degree(&self) -> (degree: usize)
        ensures
            degree == self.degree(),
            1 <= degree <= MAX_SIMD_DEGREE,
    {
        match self {
            Platform::Portable => 1,
            Platform::AVX2 => DEGREE,
        }
    }

    /// Hashes the full blocks of each input and writes the final chaining values to `out`.
    pub fn hash_many<const N: usize>(
        &self,
        inputs: &[&[u8; N]],
        key: &CVWords,
        counter: u64,
        increment_counter: IncrementCounter,
        flags: u8,
        flags_start: u8,
        flags_end: u8,
        out: &mut [u8],
    )
        requires
            32 * inputs.len() <= old(out).len(),
            increment_counter == IncrementCounter::Yes ==> counter + inputs.len() <= u64::MAX,
        ensures
            spec::hashes_many(
                spec::array_views(inputs@),
                key@,
                counter,
                increment_counter,
                flags,
                flags_start,
                flags_end,
                old(out)@,
                final(out)@,
            ),
    {
        match self {
            Platform::Portable => portable::hash_many(
                inputs,
                key,
                counter,
                increment_counter,
                flags,
                flags_start,
                flags_end,
                out,
            ),
            Platform::AVX2 => rust_avx2::hash_many(
                inputs,
                key,
                counter,
                increment_counter,
                flags,
                flags_start,
                flags_end,
                out,
            ),
        }
    }

    /// Compresses block `i` into the chaining value `cvs[i]`, for each `i`. Only the first
    /// `block_len` bytes of each block are input; the rest is padding.
    pub fn compress_many(
        &self,
        cvs: &mut [CVWords],
        blocks: &[[u8; BLOCK_LEN]],
        block_len: u8,
        counter: u64,
        flags: u8,
    )
        requires
            old(cvs).len() == blocks.len(),
        ensures
            final(cvs)@.len() == old(cvs)@.len(),
            forall|i: int|
                0 <= i < blocks@.len() ==> #[trigger] final(cvs)@[i]@ == spec::compress(
                    old(cvs)@[i]@,
                    blocks@[i]@,
                    block_len,
                    counter,
                    flags,
                ),
    {
        match self {
            Platform::Portable => portable::compress_many(cvs, blocks, block_len, counter, flags),
            Platform::AVX2 => rust_avx2::compress_many(cvs, blocks, block_len, counter, flags),
        }
    }
}

} // verus!
