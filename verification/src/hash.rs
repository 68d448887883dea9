use vstd::prelude::*;

verus! {

/// The value fnv's hasher computes for one 8-byte key.  FNV-1a is a pure
/// fold over the key's bytes from a fixed initial state, so the result is a
/// function of the key alone; its exact value is irrelevant to the table's
/// correctness, so it is left unspecified.
pub uninterp spec fn fnv_of(k: u64) -> u64;

/// Relies on fnv::FnvHasher (FNV-1a): feeding the key's eight big-endian
/// bytes to a freshly defaulted hasher and finishing yields a value that
/// depends on those bytes alone.
#[verifier::external_body]
pub fn fnv_hash(k: u64) -> (r: u64)
    ensures
        r == fnv_of(k),
{
    let mut hasher = fnv::FnvHasher::default();
    std::hash::Hasher::write(&mut hasher, &k.to_be_bytes());
    std::hash::Hasher::finish(&hasher)
}

} // verus!
