//! BLAKE3, for one input ([`hash()`], [`keyed_hash`], [`derive_key`]) and for batches of
//! equal-length inputs ([`many`]).
//!
//! [`spec`] defines the hash function as mathematics, and every function states its result in
//! those terms. [`laws`] holds what follows for the library as a whole.
use crate::spec::OUT_LEN;
use vstd::prelude::*;

pub mod hazmat;
pub mod laws;
mod lemmas;
pub mod many;
pub mod platform;
pub mod portable;
pub mod rust_avx2;
mod single;
pub mod spec;
mod trusted;

pub use single::{derive_key, hash, keyed_hash};

verus! {

/// A 32-byte hash.
#[derive(Clone, Copy, Debug, PartialEq, Eq)]
pub struct Hash {
    bytes: [u8; OUT_LEN],
}

impl View for Hash {
    type V = Seq<u8>;

    closed spec fn view(&self) -> Seq<u8> {
        self.bytes@
    }
}

impl Hash {
    /// The hash made of the given bytes.
    pub fn from_bytes(bytes: [u8; OUT_LEN]) -> (hash: Hash)
        ensures
            hash@ == bytes@,
    {
        Hash { bytes }
    }

    /// The bytes of the hash.
    pub fn as_bytes(&self) -> (bytes: &[u8; OUT_LEN])
        ensures
            bytes@ == self@,
    {
        &self.bytes
    }
}

/// A hash is its bytes: hashes with the same bytes are equal.
pub proof fn law_hash_is_its_bytes(a: Hash, b: Hash)
    requires
        a@ == b@,
    ensures
        a == b,
{
    assert forall|i: int| 0 <= i < OUT_LEN implies a.bytes[i] == b.bytes[i] by {
        assert(a@[i] == b@[i]);
    }
    assert(a.bytes =~= b.bytes);
}

} // verus!
