//! Trusted declarations for the fast, non-portable hashing strategy.
//!
//! The element-level hashing strategy is pluggable. Besides the portable
//! strategy built on `std`'s `DefaultHasher` (whose behaviour `vstd`
//! specifies, so the library can prove exactly what digest comes out), the
//! containers offer a fast strategy built on `ahash`. An `ahash` digest is a
//! deterministic function of the written values only within one compiled
//! build — `ahash` documents that its output is not stable across versions,
//! platforms or CPU feature sets — so nothing can be soundly stated about the
//! digest values, and the wrappers below carry no `ensures` about them. The
//! order-independent part of the algorithm (pre-hash staging and sorting) is
//! shared with the portable strategy and fully verified.

use vstd::prelude::*;
use core::hash::Hasher;

verus! {

/// `ahash`'s hasher, declared so that its values can flow through verified
/// code. Verified code treats it as opaque and only moves it between the
/// trusted wrappers below.
#[verifier::external_type_specification]
#[verifier::external_body]
pub struct ExAHasher(ahash::AHasher);

/// Relies on `ahash::AHasher::default`: a fresh hasher with `ahash`'s
/// default keys, which are fixed for the process, so all hashers built this
/// way within one run hash equal values equally.
#[verifier::external_body]
pub(crate) fn fast_hasher_new() -> ahash::AHasher {
    ahash::AHasher::default()
}

/// Relies on `<ahash::AHasher as core::hash::Hasher>::write_u64`: absorbs one
/// 64-bit value into the hasher's state.
#[verifier::external_body]
pub(crate) fn fast_write_u64(h: &mut ahash::AHasher, v: u64) {
    h.write_u64(v);
}

/// Relies on `<ahash::AHasher as core::hash::Hasher>::write`: absorbs a byte
/// slice into the hasher's state.
#[verifier::external_body]
pub(crate) fn fast_write_bytes(h: &mut ahash::AHasher, bytes: &[u8]) {
    h.write(bytes);
}

/// Relies on `<ahash::AHasher as core::hash::Hasher>::finish`: the digest of
/// everything absorbed so far. The digest is not stable across builds, so
/// nothing is stated of its value.
#[verifier::external_body]
pub(crate) fn fast_finish(h: &ahash::AHasher) -> u64 {
    h.finish()
}

} // verus!
