# blake3_many

BLAKE3 for one input and for batches of equal-length, independent inputs, verified with Verus.

A batch shares the work of an eight-lane kernel across its inputs, and every input is hashed as its
own complete BLAKE3 tree: the result is the one that hashing the input alone gives.

- `src/spec.rs`: BLAKE3 as mathematics, from the mixing function to the whole tree.
- `src/laws.rs`: what holds of the library as a whole.
- `src/many.rs`: batches.
- `src/single.rs`: one input.
- `src/rust_avx2.rs`, `src/portable.rs`: the kernels, eight lanes at a time and one at a time.
- `src/platform.rs`: the choice of a kernel, and conversions between words and bytes.
- `src/hazmat.rs`: where a tree splits, and context keys.
- `src/lemmas.rs`: facts about the model that the functions rest on.
- `src/trusted.rs`: the contracts of `arrayvec` and of the standard library that are taken on trust.
