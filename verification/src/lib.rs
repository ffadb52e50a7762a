//! Order-independent-hashable set and map containers.
//!
//! A generic unordered container cannot support a structural hash: its
//! iteration order is unspecified, so two logically equal instances may feed
//! their elements to a hasher in different orders and end up with different
//! digests. The containers here ([`HashableHashSet`] and [`HashableHashMap`])
//! solve this by pre-hashing every element (or key/value entry) with a fresh
//! sub-hasher, sorting the pre-hash values into a canonical ascending
//! sequence, and folding that sequence into the output hasher. The resulting
//! structural hash is invariant under any permutation of the contents.
//!
//! The staging buffer for pre-hash values can be reused across independent
//! hash computations through a [`ScratchPool`], which hands out a fallback
//! buffer whenever the shared one is already checked out by an enclosing,
//! not-yet-finished computation (as happens when hashing a set of sets).

pub mod element;
pub mod fast;
pub mod map;
pub mod order;
pub mod scratch;
pub mod set;

pub use element::Hashable;
pub use map::HashableHashMap;
pub use scratch::ScratchPool;
pub use set::HashableHashSet;
