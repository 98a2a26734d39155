//! The 64-bit xxHash, which names symbols and keys.
use vstd::prelude::*;

verus! {

/// The value of the 64-bit xxHash of `input` under `seed`.
pub uninterp spec fn xxh64_digest(input: Seq<u8>, seed: u64) -> u64;

/// `xxhash_rust::xxh64::xxh64` reads its input little-endian on every machine
/// and keeps no state: its result is a function of the bytes and the seed.
pub assume_specification[ xxhash_rust::xxh64::xxh64 ](input: &[u8], seed: u64) -> (h: u64)
    ensures
        h == xxh64_digest(input@, seed),
;

} // verus!
