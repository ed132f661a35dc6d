//! BLAKE3 as mathematics: what every executable function of this crate computes.
//!
//! Bytes and words are plain sequences here. The model goes from the mixing function through
//! rounds, the compression function and chunks up to the whole tree, in the order of the
//! definitions below.
use crate::platform::{CVBytes, IncrementCounter};
use vstd::prelude::*;

verus! {

/// The number of bytes in a block.
pub const BLOCK_LEN: usize = 64;

/// The number of bytes in a chunk.
pub const CHUNK_LEN: usize = 1024;

/// The number of bytes in a hash.
pub const OUT_LEN: usize = 32;

/// The number of bytes in a key.
pub const KEY_LEN: usize = 32;

/// The flag of a chunk's first block.
pub const CHUNK_START: u8 = 1;

/// The flag of a chunk's last block.
pub const CHUNK_END: u8 = 2;

/// The flag of a parent node.
pub const PARENT: u8 = 4;

/// The flag of the node at the top of the tree.
pub const ROOT: u8 = 8;

/// The flag of every node of a keyed hash.
pub const KEYED_HASH: u8 = 16;

/// The flag of every node when a context string is hashed to a context key.
pub const DERIVE_KEY_CONTEXT: u8 = 32;

/// The flag of every node when key material is hashed under a context key.
pub const DERIVE_KEY_MATERIAL: u8 = 64;

/// The initialization vector, which is also the key of the unkeyed hash.
pub const IV: [u32; 8] = [
    0x6A09E667,
    0xBB67AE85,
    0x3C6EF372,
    0xA54FF53A,
    0x510E527F,
    0x9B05688C,
    0x1F83D9AB,
    0x5BE0CD19,
];

/// For each round, the order in which the words of the block enter it.
pub const MSG_SCHEDULE: [[usize; 16]; 7] = [
    [0, 1, 2, 3, 4, 5, 6, 7, 8, 9, 10, 11, 12, 13, 14, 15],
    [2, 6, 3, 10, 7, 0, 4, 13, 1, 11, 12, 5, 9, 14, 15, 8],
    [3, 4, 10, 12, 13, 2, 7, 14, 6, 5, 9, 0, 11, 15, 8, 1],
    [10, 7, 12, 9, 14, 3, 13, 15, 4, 0, 11, 2, 5, 8, 1, 6],
    [12, 13, 9, 11, 15, 10, 14, 8, 7, 2, 5, 3, 0, 1, 6, 4],
    [9, 14, 11, 5, 8, 12, 15, 1, 13, 3, 0, 10, 2, 6, 4, 7],
    [11, 15, 5, 0, 1, 9, 8, 6, 14, 10, 2, 12, 3, 4, 7, 13],
];

/// The sum `x` modulo 2^32.
#[verifier::opaque]
pub open spec fn wrap(x: int) -> u32 {
    (x % 0x1_0000_0000) as u32
}

/// `x` rotated to the right by `n` bits.
pub open spec fn rotr(x: u32, n: u32) -> u32 {
    (x >> n) | (x << ((32 - n) as u32))
}

/// The quarter round: mixes the message words `x` and `y` into four words of the state.
#[verifier::opaque]
pub open spec fn mix(a: u32, b: u32, c: u32, d: u32, x: u32, y: u32) -> (u32, u32, u32, u32) {
    let a1 = wrap(a + b + x);
    let d1 = rotr(d ^ a1, 16);
    let c1 = wrap(c + d1);
    let b1 = rotr(b ^ c1, 12);
    let a2 = wrap(a1 + b1 + y);
    let d2 = rotr(d1 ^ a2, 8);
    let c2 = wrap(c1 + d2);
    let b2 = rotr(b1 ^ c2, 7);
    (a2, b2, c2, d2)
}

/// Round number `r`: mixes the columns of the 4-by-4 state `v`, then its diagonals, with the
/// message words `m` taken in the order of the schedule.
#[verifier::opaque]
pub open spec fn round(v: Seq<u32>, m: Seq<u32>, r: int) -> Seq<u32> {
    let s = MSG_SCHEDULE[r];
    let q0 = mix(v[0], v[4], v[8], v[12], m[s[0] as int], m[s[1] as int]);
    let q1 = mix(v[1], v[5], v[9], v[13], m[s[2] as int], m[s[3] as int]);
    let q2 = mix(v[2], v[6], v[10], v[14], m[s[4] as int], m[s[5] as int]);
    let q3 = mix(v[3], v[7], v[11], v[15], m[s[6] as int], m[s[7] as int]);
    let p0 = mix(q0.0, q1.1, q2.2, q3.3, m[s[8] as int], m[s[9] as int]);
    let p1 = mix(q1.0, q2.1, q3.2, q0.3, m[s[10] as int], m[s[11] as int]);
    let p2 = mix(q2.0, q3.1, q0.2, q1.3, m[s[12] as int], m[s[13] as int]);
    let p3 = mix(q3.0, q0.1, q1.2, q2.3, m[s[14] as int], m[s[15] as int]);
    seq![
        p0.0, p1.0, p2.0, p3.0,
        p3.1, p0.1, p1.1, p2.1,
        p2.2, p3.2, p0.2, p1.2,
        p1.3, p2.3, p3.3, p0.3,
    ]
}

/// The state `v` after the first `n` rounds.
pub open spec fn rounds(v: Seq<u32>, m: Seq<u32>, n: nat) -> Seq<u32>
    decreases n,
{
    if n == 0 {
        v
    } else {
        round(rounds(v, m, (n - 1) as nat), m, n - 1)
    }
}

/// The low word of a block counter.
pub open spec fn low_word(counter: u64) -> u32 {
    (counter % 0x1_0000_0000) as u32
}

/// The high word of a block counter.
pub open spec fn high_word(counter: u64) -> u32 {
    (counter / 0x1_0000_0000) as u32
}

/// The state with which a compression starts.
pub open spec fn initial_state(cv: Seq<u32>, block_len: u8, counter: u64, flags: u8) -> Seq<u32> {
    seq![
        cv[0], cv[1], cv[2], cv[3],
        cv[4], cv[5], cv[6], cv[7],
        IV[0], IV[1], IV[2], IV[3],
        low_word(counter), high_word(counter), block_len as u32, flags as u32,
    ]
}

/// The chaining value that a finished state gives: its upper half xored into its lower half.
pub open spec fn fold(v: Seq<u32>) -> Seq<u32> {
    Seq::new(8, |i: int| v[i] ^ v[i + 8])
}

/// The word whose little-endian bytes stand in `bytes` from position `i` on.
pub open spec fn le_word(bytes: Seq<u8>, i: int) -> u32 {
    (bytes[i] + 0x100 * bytes[i + 1] + 0x1_0000 * bytes[i + 2] + 0x100_0000 * bytes[i + 3]) as u32
}

/// The words whose little-endian bytes are `bytes`.
pub open spec fn words_of(bytes: Seq<u8>) -> Seq<u32> {
    Seq::new(bytes.len() / 4, |i: int| le_word(bytes, 4 * i))
}

/// Byte number `k` of `w`, counted from the least significant one.
pub open spec fn byte_of(w: u32, k: int) -> u8 {
    if k == 0 {
        (w % 0x100) as u8
    } else if k == 1 {
        (w / 0x100 % 0x100) as u8
    } else if k == 2 {
        (w / 0x1_0000 % 0x100) as u8
    } else {
        (w / 0x100_0000) as u8
    }
}

/// The little-endian bytes of `words`.
pub open spec fn bytes_of(words: Seq<u32>) -> Seq<u8> {
    Seq::new(4 * words.len(), |i: int| byte_of(words[i / 4], i % 4))
}

/// The compression function: the chaining value after `cv` takes in the 64-byte `block`, of
/// which `block_len` bytes are input.
#[verifier::opaque]
pub open spec fn compress(
    cv: Seq<u32>,
    block: Seq<u8>,
    block_len: u8,
    counter: u64,
    flags: u8,
) -> Seq<u32> {
    fold(rounds(initial_state(cv, block_len, counter, flags), words_of(block), 7))
}

/// The flags of block number `k` of `count`: the first one adds `start`, the last one `end`.
pub open spec fn block_flags(k: int, count: int, flags: u8, start: u8, end: u8) -> u8 {
    let f = if k == 0 {
        flags | start
    } else {
        flags
    };
    if k + 1 == count {
        f | end
    } else {
        f
    }
}

/// The chaining value after the first `n` of the `count` full blocks of `input`.
pub open spec fn blocks_cv(
    input: Seq<u8>,
    n: nat,
    count: nat,
    key: Seq<u32>,
    counter: u64,
    flags: u8,
    start: u8,
    end: u8,
) -> Seq<u32>
    decreases n,
{
    if n == 0 {
        key
    } else {
        compress(
            blocks_cv(input, (n - 1) as nat, count, key, counter, flags, start, end),
            input.subrange(64 * (n - 1), 64 * n as int),
            64,
            counter,
            block_flags(n - 1, count as int, flags, start, end),
        )
    }
}

/// What hashing one input made of whole blocks gives: its final chaining value, as bytes.
pub open spec fn hash_blocks(
    input: Seq<u8>,
    key: Seq<u32>,
    counter: u64,
    flags: u8,
    start: u8,
    end: u8,
) -> Seq<u8> {
    let count = input.len() / 64;
    bytes_of(blocks_cv(input, count, count, key, counter, flags, start, end))
}

/// The block counter of input number `l` of a batch.
pub open spec fn lane_counter(counter: u64, increment_counter: IncrementCounter, l: int) -> u64 {
    if increment_counter == IncrementCounter::Yes {
        (counter + l) as u64
    } else {
        counter
    }
}

/// Hashing `inputs`, each made of whole blocks, turns the bytes `before` into the bytes `after`:
/// the first 32 bytes become the result of the first input and so on, and what follows the last
/// result stays as it is.
pub open spec fn hashes_many(
    inputs: Seq<Seq<u8>>,
    key: Seq<u32>,
    counter: u64,
    increment_counter: IncrementCounter,
    flags: u8,
    start: u8,
    end: u8,
    before: Seq<u8>,
    after: Seq<u8>,
) -> bool {
    &&& after.len() == before.len()
    &&& forall|i: int|
        0 <= i < inputs.len() ==> #[trigger] after.subrange(32 * i, 32 * i + 32) == hash_blocks(
            inputs[i],
            key,
            lane_counter(counter, increment_counter, i),
            flags,
            start,
            end,
        )
    &&& forall|j: int| 32 * inputs.len() <= j < after.len() ==> #[trigger] after[j] == before[j]
}

/// The contents of byte arrays.
pub open spec fn array_views<const N: usize>(arrays: Seq<&[u8; N]>) -> Seq<Seq<u8>> {
    Seq::new(arrays.len(), |i: int| arrays[i]@)
}

/// The contents of blocks.
pub open spec fn block_views(blocks: Seq<[u8; BLOCK_LEN]>) -> Seq<Seq<u8>> {
    Seq::new(blocks.len(), |i: int| blocks[i]@)
}

/// The contents of byte slices.
pub open spec fn slice_views(slices: Seq<&[u8]>) -> Seq<Seq<u8>> {
    Seq::new(slices.len(), |i: int| slices[i]@)
}

/// How many blocks a chunk of `len` bytes has. The empty chunk has one empty block.
pub open spec fn block_count(len: nat) -> nat {
    if len == 0 {
        1
    } else {
        (len + 63) / 64
    }
}

/// Block number `k` of a chunk, filled up with zeros.
pub open spec fn chunk_block(chunk: Seq<u8>, k: int) -> Seq<u8> {
    Seq::new(
        64,
        |i: int|
            if 64 * k + i < chunk.len() {
                chunk[64 * k + i]
            } else {
                0
            },
    )
}

/// How many bytes of input block number `k` of a chunk of `len` bytes holds.
pub open spec fn chunk_block_len(len: nat, k: int) -> u8 {
    if 64 * (k + 1) <= len {
        64
    } else {
        (len - 64 * k) as u8
    }
}

/// The chaining value after the first `n` blocks of a chunk.
pub open spec fn chunk_cv_after(
    chunk: Seq<u8>,
    n: nat,
    key: Seq<u32>,
    counter: u64,
    flags: u8,
    end: u8,
) -> Seq<u32>
    decreases n,
{
    if n == 0 {
        key
    } else {
        compress(
            chunk_cv_after(chunk, (n - 1) as nat, key, counter, flags, end),
            chunk_block(chunk, n - 1),
            chunk_block_len(chunk.len(), n - 1),
            counter,
            block_flags(n - 1, block_count(chunk.len()) as int, flags, CHUNK_START, end),
        )
    }
}

/// The chaining value of a chunk, the last block of which has the flags `end`.
pub open spec fn chunk_cv(
    chunk: Seq<u8>,
    key: Seq<u32>,
    counter: u64,
    flags: u8,
    end: u8,
) -> Seq<u32> {
    chunk_cv_after(chunk, block_count(chunk.len()), key, counter, flags, end)
}

/// The chaining value of the parent of two nodes.
pub open spec fn parent_cv(
    left: Seq<u32>,
    right: Seq<u32>,
    key: Seq<u32>,
    flags: u8,
) -> Seq<u32> {
    compress(key, bytes_of(left) + bytes_of(right), 64, 0, flags | PARENT)
}

/// The largest power of two below `len`.
pub open spec fn left_len(len: nat) -> nat
    decreases len,
{
    if len <= 2 {
        1
    } else {
        2 * left_len((len + 1) / 2)
    }
}

/// `left_len` lies strictly below `len`, and reaches at least half of it.
pub proof fn lemma_left_len_bounds(len: nat)
    requires
        len >= 2,
    ensures
        0 < left_len(len) < len <= 2 * left_len(len),
    decreases len,
{
    if len > 2 {
        lemma_left_len_bounds((len + 1) / 2);
    }
}

/// The chaining value of a subtree that is not the whole tree, the first chunk of which has the
/// number `counter`.
pub open spec fn subtree_cv(input: Seq<u8>, key: Seq<u32>, counter: u64, flags: u8) -> Seq<u32>
    decreases input.len(),
{
    if input.len() <= CHUNK_LEN {
        chunk_cv(input, key, counter, flags, CHUNK_END)
    } else {
        proof {
            lemma_left_len_bounds(input.len());
        }
        let l = left_len(input.len()) as int;
        parent_cv(
            subtree_cv(input.subrange(0, l), key, counter, flags),
            subtree_cv(
                input.subrange(l, input.len() as int),
                key,
                (counter + l / (CHUNK_LEN as int)) as u64,
                flags,
            ),
            key,
            flags,
        )
    }
}

/// The chaining value of the whole tree over `input`.
pub open spec fn root_cv(input: Seq<u8>, key: Seq<u32>, flags: u8) -> Seq<u32> {
    if input.len() <= CHUNK_LEN {
        chunk_cv(input, key, 0, flags, CHUNK_END | ROOT)
    } else {
        let l = left_len(input.len()) as int;
        parent_cv(
            subtree_cv(input.subrange(0, l), key, 0, flags),
            subtree_cv(
                input.subrange(l, input.len() as int),
                key,
                (l / (CHUNK_LEN as int)) as u64,
                flags,
            ),
            key,
            flags | ROOT,
        )
    }
}

/// The 32-byte hash of `input` under the given key words and mode flags.
pub open spec fn root_hash(input: Seq<u8>, key: Seq<u32>, flags: u8) -> Seq<u8> {
    bytes_of(root_cv(input, key, flags))
}

/// A batch is in order: there is one output for each input, and all inputs are equally long.
pub open spec fn lines_up(inputs: Seq<Seq<u8>>, out_len: nat) -> bool {
    &&& inputs.len() == out_len
    &&& forall|i: int, j: int|
        0 <= i < inputs.len() && 0 <= j < inputs.len() ==> #[trigger] inputs[i].len()
            == #[trigger] inputs[j].len()
}

/// The length that the inputs of a batch share, which is 0 for the empty batch, or `None` for a
/// batch that is not in order.
pub open spec fn common_len(inputs: Seq<Seq<u8>>, out_len: nat) -> Option<nat> {
    if !lines_up(inputs, out_len) {
        None
    } else if inputs.len() == 0 {
        Some(0)
    } else {
        Some(inputs[0].len())
    }
}

/// The chaining values, as bytes, of inputs that are all chunk number `counter` of their messages.
pub open spec fn chunk_batch(
    inputs: Seq<Seq<u8>>,
    key: Seq<u32>,
    counter: u64,
    flags: u8,
    end: u8,
) -> Seq<Seq<u8>> {
    Seq::new(inputs.len(), |i: int| bytes_of(chunk_cv(inputs[i], key, counter, flags, end)))
}

/// The chaining values, as bytes, of the parents of nodes with the chaining values `left` and
/// `right`.
pub open spec fn parents_batch(
    left: Seq<Seq<u8>>,
    right: Seq<Seq<u8>>,
    key: Seq<u32>,
    flags: u8,
) -> Seq<Seq<u8>> {
    Seq::new(
        left.len(),
        |i: int| bytes_of(compress(key, left[i] + right[i], 64, 0, flags | PARENT)),
    )
}

/// The chaining values, as bytes, of inputs that are all subtrees, the first chunks of which have
/// the number `counter`.
pub open spec fn subtree_batch(
    inputs: Seq<Seq<u8>>,
    key: Seq<u32>,
    counter: u64,
    flags: u8,
) -> Seq<Seq<u8>> {
    Seq::new(inputs.len(), |i: int| bytes_of(subtree_cv(inputs[i], key, counter, flags)))
}

/// The hashes of inputs.
pub open spec fn root_batch(inputs: Seq<Seq<u8>>, key: Seq<u32>, flags: u8) -> Seq<Seq<u8>> {
    Seq::new(inputs.len(), |i: int| root_hash(inputs[i], key, flags))
}

/// What hashing a batch gives: whether it was in order, and what the outputs hold afterwards.
pub open spec fn batch(
    inputs: Seq<Seq<u8>>,
    key: Seq<u32>,
    flags: u8,
    before: Seq<Seq<u8>>,
) -> (bool, Seq<Seq<u8>>) {
    if lines_up(inputs, before.len()) {
        (true, root_batch(inputs, key, flags))
    } else {
        (false, before)
    }
}

/// The bytes of hashes.
pub open spec fn hash_views(hashes: Seq<crate::Hash>) -> Seq<Seq<u8>> {
    Seq::new(hashes.len(), |i: int| hashes[i]@)
}

/// The bytes of chaining values or keys.
pub open spec fn cv_views(cvs: Seq<CVBytes>) -> Seq<Seq<u8>> {
    Seq::new(cvs.len(), |i: int| cvs[i]@)
}

/// The BLAKE3 hash of `input`.
pub open spec fn hash(input: Seq<u8>) -> Seq<u8> {
    root_hash(input, IV@, 0)
}

/// The BLAKE3 keyed hash of `input`.
pub open spec fn keyed_hash(key: Seq<u8>, input: Seq<u8>) -> Seq<u8> {
    root_hash(input, words_of(key), KEYED_HASH)
}

/// The key that a context string stands for, given the string's UTF-8 bytes.
pub open spec fn context_key(context: Seq<u8>) -> Seq<u8> {
    root_hash(context, IV@, DERIVE_KEY_CONTEXT)
}

/// The key that BLAKE3 derives from `key_material` in a context, given the UTF-8 bytes of the
/// context string.
pub open spec fn derive_key(context: Seq<u8>, key_material: Seq<u8>) -> Seq<u8> {
    root_hash(key_material, words_of(context_key(context)), DERIVE_KEY_MATERIAL)
}

} // verus!
