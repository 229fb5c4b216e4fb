//! The hash that decides every draw.

use std::hash::Hash;
use std::hash::Hasher;
use vstd::prelude::*;

verus! {

/// The digest of a child's name, a placement key and the number of an
/// attempt, in this order.
///
/// It stands for what `ahash::AHasher` computes when it is made by
/// `Default`, fed the three values through `Hash::hash` and finished.
/// Nothing is said of its value. That it is a function of the three values
/// rests on how this crate depends on `ahash`: without the features
/// `runtime-rng` and `compile-time-rng`, so that the keys of such a hasher
/// are constants written in the source of `ahash` and no process seeds
/// them. Which of its algorithms `ahash` compiles in depends on the target
/// it is built for; every process of one build computes the same digest.
pub uninterp spec fn name_hash(name: Seq<char>, key: u32, attempt: u32) -> u64;

/// Hashes a name, a key and an attempt with `ahash::AHasher`.
///
/// Not verified: the body is believed to return `name_hash` of the
/// arguments, which claims no more than that equal arguments give equal
/// digests.
#[verifier::external_body]
pub(crate) fn hash_name(name: &str, key: u32, attempt: u32) -> (digest: u64)
    ensures
        digest == name_hash(name@, key, attempt),
{
    let mut hasher = ahash::AHasher::default();
    name.hash(&mut hasher);
    key.hash(&mut hasher);
    attempt.hash(&mut hasher);
    hasher.finish()
}

} // verus!
