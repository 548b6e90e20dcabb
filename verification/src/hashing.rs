//! The hashing utility: a pure, deterministic map from text to a `u64`.
//!
//! The algorithm itself is pluggable and lives outside this crate; its result
//! is only ever spoken of through the uninterpreted name [`hash_of`].

use vstd::prelude::*;

verus! {

/// The fixed-width integer that the pool's hash function returns for a given
/// text.  The function is deterministic: equal texts always yield equal
/// hashes.  Distinct texts may collide; nothing here claims otherwise.
pub uninterp spec fn hash_of(s: Seq<char>) -> u64;

/// Relies on `fxhash::FxHasher64`: hashing a `str` through `core::hash::Hash`
/// and taking `finish` is a pure function of the string's bytes alone, with no
/// per-process seed, so equal texts always hash alike.
#[verifier::external_body]
pub fn str_hash(s: &str) -> (h: u64)
    ensures
        h == hash_of(s@),
{
    let mut hasher = fxhash::FxHasher64::default();
    core::hash::Hash::hash(s, &mut hasher);
    core::hash::Hasher::finish(&hasher)
}

} // verus!
