//! What holds of the library as a whole, stated over the functions that the contracts speak of.
//! [`model`] says what those functions amount to, in terms of bytes and words.
use crate::lemmas::{lemma_full_chunk, lemma_mix_is_injective};
use crate::platform::{CVBytes, IncrementCounter};
use crate::rust_avx2::{lane, transposed, U32x8};
use crate::spec::{
    batch, bytes_of, chunk_batch, chunk_cv, common_len, context_key, cv_views, derive_key, hash,
    hash_blocks, hash_views, hashes_many, keyed_hash, lane_counter, left_len,
    lemma_left_len_bounds, lines_up, mix, parent_cv, parents_batch, root_batch, root_cv, root_hash,
    round, subtree_batch, subtree_cv, words_of, CHUNK_END, CHUNK_LEN, CHUNK_START,
    DERIVE_KEY_MATERIAL, IV, KEYED_HASH, MSG_SCHEDULE, PARENT, ROOT,
};
use vstd::arithmetic::power2::{lemma2_to64, lemma_pow2_unfold, pow2};
use vstd::prelude::*;

pub mod model;

verus! {

/// A batch of one input is always in order, and its hash is the one that hashing the input alone
/// gives.
pub proof fn law_batch_of_one(input: Seq<u8>, key: Seq<u32>, flags: u8, before: Seq<u8>)
    ensures
        batch(seq![input], key, flags, seq![before]) == (
            true,
            seq![root_hash(input, key, flags)],
        ),
{
    assert(batch(seq![input], key, flags, seq![before]).1 =~= seq![root_hash(input, key, flags)]);
}

/// The hash, the keyed hash and the derived key that a batch gives for an input are those that the
/// single-input functions give for it.
pub proof fn law_batch_matches_single(
    inputs: Seq<Seq<u8>>,
    key: Seq<u8>,
    context: Seq<u8>,
    before: Seq<Seq<u8>>,
    i: int,
)
    requires
        lines_up(inputs, before.len()),
        0 <= i < inputs.len(),
    ensures
        batch(inputs, IV@, 0, before).1[i] == hash(inputs[i]),
        batch(inputs, words_of(key), KEYED_HASH, before).1[i] == keyed_hash(key, inputs[i]),
        batch(inputs, words_of(context_key(context)), DERIVE_KEY_MATERIAL, before).1[i]
            == derive_key(context, inputs[i]),
{
}

/// The empty batch is in order.
pub proof fn law_empty_batch(key: Seq<u32>, flags: u8)
    ensures
        batch(Seq::empty(), key, flags, Seq::empty()) == (true, Seq::<Seq<u8>>::empty()),
{
    assert(batch(Seq::empty(), key, flags, Seq::empty()).1 =~= Seq::<Seq<u8>>::empty());
}

/// A batch is refused exactly when there are more or fewer outputs than inputs or two inputs
/// differ in length, and then nothing is written.
pub proof fn law_refused_batch(
    inputs: Seq<Seq<u8>>,
    key: Seq<u32>,
    flags: u8,
    before: Seq<Seq<u8>>,
)
    ensures
        batch(inputs, key, flags, before).0 <==> inputs.len() == before.len() && !exists|
            i: int,
            j: int,
        |
            0 <= i < inputs.len() && 0 <= j < inputs.len() && (#[trigger] inputs[i]).len() != (
            #[trigger] inputs[j]).len(),
        !batch(inputs, key, flags, before).0 ==> batch(inputs, key, flags, before).1 == before,
{
}

/// The hash of an input does not depend on what else is in the batch, nor on its place in it.
pub proof fn law_inputs_are_independent(
    inputs: Seq<Seq<u8>>,
    others: Seq<Seq<u8>>,
    key: Seq<u32>,
    flags: u8,
    before: Seq<Seq<u8>>,
    others_before: Seq<Seq<u8>>,
    i: int,
    j: int,
)
    requires
        lines_up(inputs, before.len()),
        lines_up(others, others_before.len()),
        0 <= i < inputs.len(),
        0 <= j < others.len(),
        inputs[i] == others[j],
    ensures
        batch(inputs, key, flags, before).1[i] == batch(others, key, flags, others_before).1[j],
{
}

/// Hashing a batch in two parts gives what hashing it at once gives.
pub proof fn law_batch_in_two_parts(
    first: Seq<Seq<u8>>,
    second: Seq<Seq<u8>>,
    key: Seq<u32>,
    flags: u8,
    first_before: Seq<Seq<u8>>,
    second_before: Seq<Seq<u8>>,
)
    requires
        first.len() == first_before.len(),
        lines_up(first + second, (first_before + second_before).len()),
    ensures
        batch(first, key, flags, first_before).0,
        batch(second, key, flags, second_before).0,
        batch(first + second, key, flags, first_before + second_before) == (
            true,
            batch(first, key, flags, first_before).1 + batch(
                second,
                key,
                flags,
                second_before,
            ).1,
        ),
{
    let all = first + second;
    assert forall|i: int, j: int|
        0 <= i < first.len() && 0 <= j < first.len() implies #[trigger] first[i].len()
        == #[trigger] first[j].len() by {
        assert(all[i].len() == all[j].len());
    }
    assert forall|i: int, j: int|
        0 <= i < second.len() && 0 <= j < second.len() implies #[trigger] second[i].len()
        == #[trigger] second[j].len() by {
        assert(all[first.len() + i].len() == all[first.len() + j].len());
    }
    assert(batch(all, key, flags, first_before + second_before).1 =~= batch(
        first,
        key,
        flags,
        first_before,
    ).1 + batch(second, key, flags, second_before).1);
}

/// The lengths of inputs.
pub open spec fn lengths(inputs: Seq<Seq<u8>>) -> Seq<nat> {
    Seq::new(inputs.len(), |i: int| inputs[i].len())
}

/// Where every length of the second batch occurs in the first one, and the first one is in order,
/// the second one is too, with the same common length.
proof fn lemma_lengths_occur(inputs: Seq<Seq<u8>>, others: Seq<Seq<u8>>, out_len: nat)
    requires
        inputs.len() == others.len(),
        forall|j: int|
            0 <= j < others.len() ==> lengths(inputs).contains((#[trigger] others[j]).len()),
    ensures
        lines_up(inputs, out_len) ==> common_len(others, out_len) == common_len(inputs, out_len),
{
    if lines_up(inputs, out_len) {
        assert forall|j: int| 0 <= j < others.len() implies (#[trigger] others[j]).len()
            == inputs[0].len() by {
            let i = choose|i: int|
                0 <= i < inputs.len() && lengths(inputs)[i] == others[j].len();
            assert(inputs[i].len() == inputs[0].len());
        }
    }
}

/// The length that the inputs of a batch share, and whether the batch is in order at all, depend
/// on the number of outputs and on which lengths occur how often: neither on the order of the
/// inputs nor on what they hold.
pub proof fn law_lengths_decide(inputs: Seq<Seq<u8>>, others: Seq<Seq<u8>>, out_len: nat)
    requires
        lengths(inputs).to_multiset() == lengths(others).to_multiset(),
    ensures
        common_len(inputs, out_len) == common_len(others, out_len),
        lines_up(inputs, out_len) == lines_up(others, out_len),
{
    let a = lengths(inputs);
    let b = lengths(others);
    a.to_multiset_ensures();
    b.to_multiset_ensures();
    assert forall|j: int| 0 <= j < others.len() implies a.contains(
        (#[trigger] others[j]).len(),
    ) by {
        assert(b.contains(b[j]));
        assert(b.to_multiset().count(b[j]) > 0);
    }
    assert forall|j: int| 0 <= j < inputs.len() implies b.contains(
        (#[trigger] inputs[j]).len(),
    ) by {
        assert(a.contains(a[j]));
        assert(a.to_multiset().count(a[j]) > 0);
    }
    lemma_lengths_occur(inputs, others, out_len);
    lemma_lengths_occur(others, inputs, out_len);
}

/// The length that the inputs of a batch share, and whether the batch is in order at all, do not
/// depend on the order of the inputs.
pub proof fn law_order_does_not_matter(inputs: Seq<Seq<u8>>, others: Seq<Seq<u8>>, out_len: nat)
    requires
        inputs.to_multiset() == others.to_multiset(),
    ensures
        common_len(inputs, out_len) == common_len(others, out_len),
        lines_up(inputs, out_len) == lines_up(others, out_len),
{
    inputs.to_multiset_ensures();
    others.to_multiset_ensures();
    assert forall|j: int| 0 <= j < others.len() implies lengths(inputs).contains(
        (#[trigger] others[j]).len(),
    ) by {
        assert(others.contains(others[j]));
        assert(others.to_multiset().count(others[j]) > 0);
        let i = choose|i: int| 0 <= i < inputs.len() && inputs[i] == others[j];
        assert(lengths(inputs)[i] == others[j].len());
    }
    assert forall|j: int| 0 <= j < inputs.len() implies lengths(others).contains(
        (#[trigger] inputs[j]).len(),
    ) by {
        assert(inputs.contains(inputs[j]));
        assert(inputs.to_multiset().count(inputs[j]) > 0);
        let i = choose|i: int| 0 <= i < others.len() && others[i] == inputs[j];
        assert(lengths(others)[i] == inputs[j].len());
    }
    lemma_lengths_occur(inputs, others, out_len);
    lemma_lengths_occur(others, inputs, out_len);
}

/// Hashing a batch to hashes and hashing it to bytes are the same: both are refused or neither is,
/// and the bytes of the hashes are the bytes.
pub proof fn law_hashes_are_bytes(
    inputs: Seq<Seq<u8>>,
    key: Seq<u32>,
    flags: u8,
    out: Seq<crate::Hash>,
    raw: Seq<CVBytes>,
)
    requires
        out.len() == raw.len(),
    ensures
        ({
            let (ok, hashes) = batch(inputs, key, flags, hash_views(out));
            let (raw_ok, bytes) = batch(inputs, key, flags, cv_views(raw));
            &&& ok == raw_ok
            &&& ok ==> hashes == bytes
            &&& !ok ==> hashes == hash_views(out) && bytes == cv_views(raw)
        }),
{
}

/// However a batch is cut into groups, a group gives its part of the outputs. With groups of one
/// input, each input is hashed alone.
pub proof fn law_batch_in_groups(
    inputs: Seq<Seq<u8>>,
    key: Seq<u32>,
    flags: u8,
    before: Seq<Seq<u8>>,
    start: int,
    end: int,
)
    requires
        lines_up(inputs, before.len()),
        0 <= start <= end <= inputs.len(),
    ensures
        batch(inputs, key, flags, before).0,
        batch(inputs, key, flags, before).1.subrange(start, end) == root_batch(
            inputs.subrange(start, end),
            key,
            flags,
        ),
        forall|i: int|
            start <= i < end ==> #[trigger] batch(inputs, key, flags, before).1[i] == root_batch(
                seq![inputs[i]],
                key,
                flags,
            )[0],
{
    assert(batch(inputs, key, flags, before).1.subrange(start, end) =~= root_batch(
        inputs.subrange(start, end),
        key,
        flags,
    ));
}

/// At every level of the tree, what comes out for an input depends on that input alone, and all
/// inputs are numbered from the same counter: it is what comes out of a batch of that one input.
pub proof fn law_lanes_are_independent(
    inputs: Seq<Seq<u8>>,
    key: Seq<u32>,
    counter: u64,
    flags: u8,
    end: u8,
    i: int,
)
    requires
        0 <= i < inputs.len(),
    ensures
        chunk_batch(inputs, key, counter, flags, end)[i] == chunk_batch(
            seq![inputs[i]],
            key,
            counter,
            flags,
            end,
        )[0],
        subtree_batch(inputs, key, counter, flags)[i] == subtree_batch(
            seq![inputs[i]],
            key,
            counter,
            flags,
        )[0],
        root_batch(inputs, key, flags)[i] == root_batch(seq![inputs[i]], key, flags)[0],
{
}

/// Inputs of at most one chunk are hashed as that chunk. As subtrees they keep the caller's number
/// and do not get the root flag; as whole messages they have the number 0 and get it.
pub proof fn law_one_chunk(inputs: Seq<Seq<u8>>, key: Seq<u32>, counter: u64, flags: u8)
    requires
        forall|i: int| 0 <= i < inputs.len() ==> (#[trigger] inputs[i]).len() <= CHUNK_LEN,
    ensures
        subtree_batch(inputs, key, counter, flags) == chunk_batch(
            inputs,
            key,
            counter,
            flags,
            CHUNK_END,
        ),
        root_batch(inputs, key, flags) == chunk_batch(inputs, key, 0, flags, CHUNK_END | ROOT),
{
    assert(subtree_batch(inputs, key, counter, flags) =~= chunk_batch(
        inputs,
        key,
        counter,
        flags,
        CHUNK_END,
    ));
    assert(root_batch(inputs, key, flags) =~= chunk_batch(
        inputs,
        key,
        0,
        flags,
        CHUNK_END | ROOT,
    ));
}

/// The first `l` bytes of each input.
pub open spec fn heads(inputs: Seq<Seq<u8>>, l: int) -> Seq<Seq<u8>> {
    Seq::new(inputs.len(), |i: int| inputs[i].subrange(0, l))
}

/// What follows the first `l` bytes of each input.
pub open spec fn tails(inputs: Seq<Seq<u8>>, l: int) -> Seq<Seq<u8>> {
    Seq::new(inputs.len(), |i: int| inputs[i].subrange(l, inputs[i].len() as int))
}

/// Inputs of `len` bytes, more than one chunk, are split in two subtrees, which a parent joins.
/// The chunks on the right are numbered on from those on the left. As subtrees the inputs do not
/// get the root flag; as whole messages they get it, at that parent alone.
pub proof fn law_two_subtrees(
    inputs: Seq<Seq<u8>>,
    len: nat,
    key: Seq<u32>,
    counter: u64,
    right_counter: u64,
    flags: u8,
)
    requires
        len > CHUNK_LEN,
        forall|i: int| 0 <= i < inputs.len() ==> (#[trigger] inputs[i]).len() == len,
        right_counter == counter + left_len(len) / (CHUNK_LEN as nat),
    ensures
        ({
            let left = heads(inputs, left_len(len) as int);
            let right = tails(inputs, left_len(len) as int);
            let left_cvs = subtree_batch(left, key, counter, flags);
            let right_cvs = subtree_batch(right, key, right_counter, flags);
            &&& subtree_batch(inputs, key, counter, flags) == parents_batch(
                left_cvs,
                right_cvs,
                key,
                flags,
            )
            &&& counter == 0 ==> root_batch(inputs, key, flags) == parents_batch(
                left_cvs,
                right_cvs,
                key,
                flags | ROOT,
            )
        }),
{
    let left = heads(inputs, left_len(len) as int);
    let right = tails(inputs, left_len(len) as int);
    let left_cvs = subtree_batch(left, key, counter, flags);
    let right_cvs = subtree_batch(right, key, right_counter, flags);
    let whole = subtree_batch(inputs, key, counter, flags);
    assert forall|i: int| 0 <= i < inputs.len() implies #[trigger] whole[i] == parents_batch(
        left_cvs,
        right_cvs,
        key,
        flags,
    )[i] by {
        assert(inputs[i].len() == len);
    }
    assert(whole =~= parents_batch(left_cvs, right_cvs, key, flags));
    if counter == 0 {
        let roots = root_batch(inputs, key, flags);
        assert forall|i: int| 0 <= i < inputs.len() implies #[trigger] roots[i] == parents_batch(
            left_cvs,
            right_cvs,
            key,
            flags | ROOT,
        )[i] by {
            assert(inputs[i].len() == len);
        }
        assert(roots =~= parents_batch(left_cvs, right_cvs, key, flags | ROOT));
    }
}

/// A chunk that is a whole number of full blocks is hashed block by block: its last full block is
/// its final one, and no empty block follows.
pub proof fn law_whole_blocks(
    inputs: Seq<Seq<u8>>,
    count: nat,
    key: Seq<u32>,
    counter: u64,
    flags: u8,
    end: u8,
    before: Seq<u8>,
    after: Seq<u8>,
    i: int,
)
    requires
        count > 0,
        forall|k: int| 0 <= k < inputs.len() ==> (#[trigger] inputs[k]).len() == 64 * count,
        hashes_many(
            inputs,
            key,
            counter,
            IncrementCounter::No,
            flags,
            CHUNK_START,
            end,
            before,
            after,
        ),
        0 <= i < inputs.len(),
    ensures
        chunk_batch(inputs, key, counter, flags, end)[i] == after.subrange(32 * i, 32 * i + 32),
{
    assert(inputs[i].len() == 64 * count);
    lemma_full_chunk(inputs[i], count, count, key, counter, flags, end);
}

/// The parent flag is set, not added or toggled: where the flags hold it beforehand, nothing
/// changes.
pub proof fn law_parent_flag_is_set(
    left: Seq<u32>,
    right: Seq<u32>,
    left_cvs: Seq<Seq<u8>>,
    right_cvs: Seq<Seq<u8>>,
    key: Seq<u32>,
    flags: u8,
)
    ensures
        parent_cv(left, right, key, flags | PARENT) == parent_cv(left, right, key, flags),
        parents_batch(left_cvs, right_cvs, key, flags | PARENT) == parents_batch(
            left_cvs,
            right_cvs,
            key,
            flags,
        ),
{
    assert((flags | PARENT) | PARENT == flags | PARENT) by (bit_vector);
}

/// The kernels leave nothing open: whichever of them hashes the same inputs into the same bytes,
/// the outcome is the same.
pub proof fn law_kernels_agree(
    inputs: Seq<Seq<u8>>,
    key: Seq<u32>,
    counter: u64,
    increment_counter: IncrementCounter,
    flags: u8,
    start: u8,
    end: u8,
    before: Seq<u8>,
    after: Seq<u8>,
    other: Seq<u8>,
)
    requires
        32 * inputs.len() <= before.len(),
        hashes_many(inputs, key, counter, increment_counter, flags, start, end, before, after),
        hashes_many(inputs, key, counter, increment_counter, flags, start, end, before, other),
    ensures
        after == other,
{
    assert forall|j: int| 0 <= j < before.len() implies after[j] == other[j] by {
        if j < 32 * inputs.len() {
            let i = j / 32;
            assert(after.subrange(32 * i, 32 * i + 32) == other.subrange(32 * i, 32 * i + 32));
            assert(after.subrange(32 * i, 32 * i + 32)[j % 32] == after[j]);
            assert(other.subrange(32 * i, 32 * i + 32)[j % 32] == other[j]);
        }
    }
    assert(after =~= other);
}

/// Hashing inputs in two parts gives what hashing them at once gives, when the second part goes on
/// with the counter and with the output where the first one stops.
pub proof fn law_hash_many_in_two_parts(
    first: Seq<Seq<u8>>,
    second: Seq<Seq<u8>>,
    key: Seq<u32>,
    counter: u64,
    increment_counter: IncrementCounter,
    flags: u8,
    start: u8,
    end: u8,
    before: Seq<u8>,
    middle: Seq<u8>,
    rest_after: Seq<u8>,
)
    requires
        32 * (first.len() + second.len()) <= before.len(),
        increment_counter == IncrementCounter::Yes ==> counter + first.len() + second.len()
            <= u64::MAX,
        hashes_many(first, key, counter, increment_counter, flags, start, end, before, middle),
        hashes_many(
            second,
            key,
            lane_counter(counter, increment_counter, first.len() as int),
            increment_counter,
            flags,
            start,
            end,
            middle.subrange(32 * first.len() as int, middle.len() as int),
            rest_after,
        ),
    ensures
        hashes_many(
            first + second,
            key,
            counter,
            increment_counter,
            flags,
            start,
            end,
            before,
            middle.subrange(0, 32 * first.len() as int) + rest_after,
        ),
{
    let all = first + second;
    let after = middle.subrange(0, 32 * first.len() as int) + rest_after;
    assert forall|i: int| 0 <= i < all.len() implies #[trigger] after.subrange(32 * i, 32 * i + 32)
        == hash_blocks(
        all[i],
        key,
        lane_counter(counter, increment_counter, i),
        flags,
        start,
        end,
    ) by {
        if i < first.len() {
            assert(after.subrange(32 * i, 32 * i + 32) =~= middle.subrange(32 * i, 32 * i + 32));
        } else {
            let k = i - first.len();
            assert(after.subrange(32 * i, 32 * i + 32) =~= rest_after.subrange(
                32 * k,
                32 * k + 32,
            ));
        }
    }
    assert forall|j: int| 32 * all.len() <= j < after.len() implies #[trigger] after[j]
        == before[j] by {
        let k = j - 32 * first.len();
        assert(after[j] == rest_after[k]);
        assert(rest_after[k] == middle[j]);
    }
}

/// The left subtree of an input of more than one chunk is a power of two of bytes and a whole
/// number of chunks. The right subtree is not empty, and not longer than the left one.
pub proof fn law_left_len(len: nat)
    requires
        len > CHUNK_LEN,
    ensures
        exists|k: nat| left_len(len) == #[trigger] pow2(k),
        left_len(len) % (CHUNK_LEN as nat) == 0,
        CHUNK_LEN <= left_len(len) < len <= 2 * left_len(len),
    decreases len,
{
    lemma_left_len_bounds(len);
    lemma2_to64();
    if len > 2 * CHUNK_LEN {
        let half = (len + 1) / 2;
        law_left_len(half);
        let k = choose|k: nat| left_len(half) == #[trigger] pow2(k);
        lemma_pow2_unfold(k + 1);
        assert(left_len(len) == pow2(k + 1));
    } else {
        crate::lemmas::lemma_left_len_unique(len, 10);
        assert(left_len(len) == pow2(10));
    }
}

/// How many chunks an input of `len` bytes has. The empty input has one empty chunk.
pub open spec fn chunk_count(len: nat) -> nat {
    if len == 0 {
        1
    } else {
        (len + 1023) / 1024
    }
}

/// Chunk number `k` of an input.
pub open spec fn chunk(input: Seq<u8>, k: int) -> Seq<u8> {
    input.subrange(
        1024 * k,
        if 1024 * (k + 1) <= input.len() {
            1024 * (k + 1)
        } else {
            input.len() as int
        },
    )
}

/// The chaining values of the chunks of an input, numbered one after the other from `counter` on.
pub open spec fn chunk_cvs(input: Seq<u8>, key: Seq<u32>, counter: int, flags: u8) -> Seq<Seq<u32>> {
    Seq::new(
        chunk_count(input.len()),
        |k: int| chunk_cv(chunk(input, k), key, (counter + k) as u64, flags, CHUNK_END),
    )
}

/// The chaining value of the tree with the given leaves, the left subtree of which is always the
/// largest possible complete one.
pub open spec fn merge(leaves: Seq<Seq<u32>>, key: Seq<u32>, flags: u8) -> Seq<u32>
    decreases leaves.len(),
{
    if leaves.len() <= 1 {
        leaves[0]
    } else {
        proof {
            lemma_left_len_bounds(leaves.len());
        }
        let l = left_len(leaves.len()) as int;
        parent_cv(
            merge(leaves.subrange(0, l), key, flags),
            merge(leaves.subrange(l, leaves.len() as int), key, flags),
            key,
            flags,
        )
    }
}

/// An input splits at a chunk boundary, where its sequence of chunks splits too.
proof fn lemma_split_chunks(input: Seq<u8>, key: Seq<u32>, counter: int, flags: u8)
    requires
        input.len() > CHUNK_LEN,
    ensures
        ({
            let l = left_len(input.len()) as int;
            let m = left_len(chunk_count(input.len())) as int;
            let cvs = chunk_cvs(input, key, counter, flags);
            &&& l == 1024 * m
            &&& 0 < m < cvs.len()
            &&& chunk_cvs(input.subrange(0, l), key, counter, flags) == cvs.subrange(0, m)
            &&& chunk_cvs(input.subrange(l, input.len() as int), key, counter + m, flags)
                == cvs.subrange(m, cvs.len() as int)
        }),
{
    let len = input.len();
    let l = left_len(len) as int;
    let count = chunk_count(len);
    law_left_len(len);
    lemma_left_len_bounds(count);
    lemma_left_len_scales(count);
    crate::lemmas::lemma_left_len_same(len, 1024 * count);
    let m = left_len(count) as int;
    let cvs = chunk_cvs(input, key, counter, flags);
    let left = input.subrange(0, l);
    let right = input.subrange(l, len as int);
    assert forall|k: int| 0 <= k < m implies #[trigger] chunk(left, k) == chunk(input, k) by {
        assert(chunk(left, k) =~= chunk(input, k));
    }
    assert(chunk_cvs(left, key, counter, flags) =~= cvs.subrange(0, m));
    assert forall|k: int| 0 <= k < count - m implies #[trigger] chunk(right, k) == chunk(
        input,
        m + k,
    ) by {
        assert(chunk(right, k) =~= chunk(input, m + k));
    }
    assert forall|k: int| 0 <= k < count - m implies #[trigger] chunk_cvs(
        right,
        key,
        counter + m,
        flags,
    )[k] == cvs[m + k] by {
        assert(chunk(right, k) == chunk(input, m + k));
        assert(counter + m + k == counter + (m + k));
    }
    assert(chunk_cvs(right, key, counter + m, flags) =~= cvs.subrange(m, cvs.len() as int));
}

/// Splitting bytes at whole chunks is splitting chunks.
proof fn lemma_left_len_scales(count: nat)
    requires
        count >= 2,
    ensures
        left_len(1024 * count) == 1024 * left_len(count),
{
    assert forall|n: nat| n >= 2 implies #[trigger] left_len(2 * n) == 2 * left_len(n) by {}
    assert(1024 * count == 2 * (2 * (2 * (2 * (2 * (2 * (2 * (2 * (2 * (2 * count))))))))));
}

/// Whichever way the recursion walks over an input, it builds the one tree over its chunks, and
/// the chunks are numbered one after the other.
pub proof fn law_subtree_over_chunks(input: Seq<u8>, key: Seq<u32>, counter: u64, flags: u8)
    requires
        counter + chunk_count(input.len()) - 1 <= u64::MAX,
    ensures
        subtree_cv(input, key, counter, flags) == merge(
            chunk_cvs(input, key, counter as int, flags),
            key,
            flags,
        ),
    decreases input.len(),
{
    let cvs = chunk_cvs(input, key, counter as int, flags);
    if input.len() <= CHUNK_LEN {
        assert(chunk(input, 0) =~= input);
        assert(cvs[0] == chunk_cv(input, key, counter, flags, CHUNK_END));
    } else {
        let l = left_len(input.len()) as int;
        lemma_left_len_bounds(input.len());
        lemma_split_chunks(input, key, counter as int, flags);
        let m = left_len(chunk_count(input.len())) as int;
        law_subtree_over_chunks(input.subrange(0, l), key, counter, flags);
        law_subtree_over_chunks(
            input.subrange(l, input.len() as int),
            key,
            (counter + m) as u64,
            flags,
        );
    }
}

/// The tree of an input of more than one chunk is the one tree over its chunks, which are numbered
/// from 0 on, and its topmost parent alone has the root flag.
pub proof fn law_root_over_chunks(input: Seq<u8>, key: Seq<u32>, flags: u8)
    requires
        input.len() > CHUNK_LEN,
        chunk_count(input.len()) - 1 <= u64::MAX,
    ensures
        ({
            let cvs = chunk_cvs(input, key, 0, flags);
            let m = left_len(cvs.len()) as int;
            root_cv(input, key, flags) == parent_cv(
                merge(cvs.subrange(0, m), key, flags),
                merge(cvs.subrange(m, cvs.len() as int), key, flags),
                key,
                flags | ROOT,
            )
        }),
{
    let l = left_len(input.len()) as int;
    lemma_left_len_bounds(input.len());
    lemma_split_chunks(input, key, 0, flags);
    let m = left_len(chunk_count(input.len())) as int;
    law_subtree_over_chunks(input.subrange(0, l), key, 0, flags);
    law_subtree_over_chunks(input.subrange(l, input.len() as int), key, m as u64, flags);
}

/// Words survive the way to bytes and back.
pub proof fn law_words_round_trip(words: Seq<u32>)
    ensures
        words_of(bytes_of(words)) == words,
{
    crate::lemmas::lemma_words_of_bytes(words);
}

/// Bytes survive the way to words and back.
pub proof fn law_bytes_round_trip(bytes: Seq<u8>)
    requires
        bytes.len() % 4 == 0,
    ensures
        bytes_of(words_of(bytes)) == bytes,
{
    let back = bytes_of(words_of(bytes));
    assert forall|j: int| 0 <= j < bytes.len() implies #[trigger] back[j] == bytes[j] by {
        let i = j / 4;
        let w = words_of(bytes)[i];
        crate::lemmas::lemma_word_digits(
            bytes[4 * i],
            bytes[4 * i + 1],
            bytes[4 * i + 2],
            bytes[4 * i + 3],
            w,
        );
        assert(j == 4 * i + j % 4);
    }
    assert(back =~= bytes);
}

/// Transposing twice changes nothing.
pub proof fn law_transpose_twice(rows: Seq<Seq<u32>>)
    requires
        rows.len() == 8,
        forall|i: int| 0 <= i < 8 ==> #[trigger] rows[i].len() == 8,
    ensures
        transposed(transposed(rows)) == rows,
{
    let twice = transposed(transposed(rows));
    assert forall|i: int| 0 <= i < 8 implies #[trigger] twice[i] == rows[i] by {
        assert(twice[i] =~= rows[i]);
    }
    assert(twice =~= rows);
}

/// Every round takes in each word of the block once: from round to round, one fixed permutation
/// rearranges them.
pub proof fn law_schedule(r: int)
    requires
        0 <= r < 7,
    ensures
        forall|i: int, j: int|
            0 <= i < j < 16 ==> (#[trigger] MSG_SCHEDULE[r][i]) != (#[trigger] MSG_SCHEDULE[r][j]),
        forall|k: int| 0 <= k < 16 ==> #[trigger] MSG_SCHEDULE[r][k] < 16,
        r > 0 ==> forall|k: int|
            0 <= k < 16 ==> #[trigger] MSG_SCHEDULE[r][k] == MSG_SCHEDULE[r
                - 1][MSG_SCHEDULE[1][k] as int],
{
}

/// A round loses nothing: for a fixed message, different states stay different.
pub proof fn law_round_is_injective(v1: Seq<u32>, v2: Seq<u32>, m: Seq<u32>, r: int)
    requires
        v1.len() == 16,
        v2.len() == 16,
        0 <= r < 7,
        round(v1, m, r) == round(v2, m, r),
    ensures
        v1 == v2,
{
    reveal(round);
    let s = MSG_SCHEDULE[r];
    let w1 = round(v1, m, r);
    let w2 = round(v2, m, r);
    // What mixing a column of a state gives.
    let column = |v: Seq<u32>, k: int|
        mix(v[k], v[k + 4], v[k + 8], v[k + 12], m[s[2 * k] as int], m[s[2 * k + 1] as int]);
    let (p0, p1, p2, p3) = (column(v1, 0), column(v1, 1), column(v1, 2), column(v1, 3));
    let (q0, q1, q2, q3) = (column(v2, 0), column(v2, 1), column(v2, 2), column(v2, 3));
    assert(forall|i: int| 0 <= i < 16 ==> #[trigger] w1[i] == w2[i]);
    // Backwards through the diagonals, and then through the columns.
    lemma_mix_is_injective(
        (p0.0, p1.1, p2.2, p3.3),
        (q0.0, q1.1, q2.2, q3.3),
        m[s[8] as int],
        m[s[9] as int],
    );
    lemma_mix_is_injective(
        (p1.0, p2.1, p3.2, p0.3),
        (q1.0, q2.1, q3.2, q0.3),
        m[s[10] as int],
        m[s[11] as int],
    );
    lemma_mix_is_injective(
        (p2.0, p3.1, p0.2, p1.3),
        (q2.0, q3.1, q0.2, q1.3),
        m[s[12] as int],
        m[s[13] as int],
    );
    lemma_mix_is_injective(
        (p3.0, p0.1, p1.2, p2.3),
        (q3.0, q0.1, q1.2, q2.3),
        m[s[14] as int],
        m[s[15] as int],
    );
    assert forall|i: int| 0 <= i < 16 implies v1[i] == v2[i] by {
        let k = i % 4;
        assert(column(v1, k) == column(v2, k));
        lemma_mix_is_injective(
            (v1[k], v1[k + 4], v1[k + 8], v1[k + 12]),
            (v2[k], v2[k + 4], v2[k + 8], v2[k + 12]),
            m[s[2 * k] as int],
            m[s[2 * k + 1] as int],
        );
    }
    assert(v1 =~= v2);
}

/// A round in eight lanes loses nothing either: for a fixed message, different states stay
/// different.
pub proof fn law_round_in_lanes_is_injective(
    v1: Seq<U32x8>,
    v2: Seq<U32x8>,
    m: Seq<U32x8>,
    r: int,
    after1: Seq<U32x8>,
    after2: Seq<U32x8>,
)
    requires
        v1.len() == 16,
        v2.len() == 16,
        0 <= r < 7,
        forall|l: int|
            0 <= l < 8 ==> #[trigger] lane(after1, l) == round(lane(v1, l), lane(m, l), r),
        forall|l: int|
            0 <= l < 8 ==> #[trigger] lane(after2, l) == round(lane(v2, l), lane(m, l), r),
        v1 != v2,
    ensures
        after1 != after2,
{
    if after1 == after2 {
        assert forall|i: int| 0 <= i < 16 implies v1[i] == v2[i] by {
            assert forall|l: int| 0 <= l < 8 implies v1[i].lanes[l] == v2[i].lanes[l] by {
                assert(lane(after1, l) == lane(after2, l));
                law_round_is_injective(lane(v1, l), lane(v2, l), lane(m, l), r);
                assert(lane(v1, l)[i] == lane(v2, l)[i]);
            }
            assert(v1[i].lanes =~= v2[i].lanes);
        }
        assert(v1 =~= v2);
    }
}

} // verus!
