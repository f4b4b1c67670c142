//! The hash primitive shared by the Merkle tree and the bloom filter.
use vstd::prelude::*;

use std::collections::hash_map::DefaultHasher;
use std::hash::BuildHasher;
use std::hash::BuildHasherDefault;

verus! {

/// The digest of a sequence of words.
///
/// Every hash in this crate is the digest of a short sequence of words; the
/// digest depends on the words alone.
pub uninterp spec fn digest_of(words: Seq<u64>) -> u64;

/// The digest never maps two distinct word sequences to the same value.
///
/// No real 64-bit hash has this property; it is the idealised assumption under
/// which collision-resistance arguments are stated.
pub open spec fn collision_free() -> bool {
    forall|a: Seq<u64>, b: Seq<u64>| #[trigger] digest_of(a) == #[trigger] digest_of(b) ==> a == b
}

/// Relies on `BuildHasher::hash_one` over `BuildHasherDefault<DefaultHasher>`:
/// every `DefaultHasher` made by `default` starts from the same fixed keys (no
/// per-process seed), so within a build of the library the result depends on
/// the words alone.
#[verifier::external_body]
pub(crate) fn digest(words: &[u64]) -> (r: u64)
    ensures
        r == digest_of(words@),
{
    BuildHasherDefault::<DefaultHasher>::default().hash_one(words)
}

} // verus!
