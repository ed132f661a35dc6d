//! The shape of the tree, and context keys.
use crate::lemmas::lemma_left_len_unique;
use crate::platform::CVBytes;
use crate::single::hash_all_at_once;
use crate::spec::{context_key, left_len, root_hash, CHUNK_LEN, DERIVE_KEY_CONTEXT, IV};
use vstd::arithmetic::power2::{lemma2_to64, lemma_pow2_unfold, pow2};
use vstd::prelude::*;
use vstd::string::StringSliceAdditionalSpecFns;

verus! {

/// How many bytes of an input of more than one chunk go to the left child of its root: the
/// largest power of two below the length.
pub fn left_subtree_len(input_len: u64) -> (len: u64)
    requires
        input_len > CHUNK_LEN,
    ensures
        len == left_len(input_len as nat),
{
    let mut len: u64 = CHUNK_LEN as u64;
    let ghost mut k: nat = 10;
    proof {
        lemma2_to64();
    }
    while len < input_len - len
        invariant
            0 < len < input_len,
            len == pow2(k),
        decreases input_len - len,
    {
        len = len * 2;
        proof {
            k = k + 1;
            lemma_pow2_unfold(k);
        }
    }
    proof {
        lemma_pow2_unfold(k + 1);
        lemma_left_len_unique(input_len as nat, k);
    }
    len
}

/// The key that a context string stands for.
pub fn hash_derive_key_context(context: &str) -> (key: CVBytes)
    ensures
        key@ == context_key(context.spec_bytes()),
        key@ == root_hash(context.spec_bytes(), IV@, DERIVE_KEY_CONTEXT),
{
    hash_all_at_once(context.as_bytes(), &IV, DERIVE_KEY_CONTEXT)
}

} // verus!
