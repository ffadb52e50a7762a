//! Hashable elements: the per-element hashing strategy.
//!
//! A container can only offer a structural hash if each of its elements can
//! be hashed on its own. The [`Hashable`] trait captures what the containers
//! need from an element: an equality relation, the byte chunks the element
//! writes into a fresh sub-hasher (the portable strategy, whose digests the
//! library reasons about exactly), the same for the fast `ahash` strategy,
//! and the laws that make a set of such elements well behaved — equality is
//! an equivalence relation, and equal elements hash equally. The containers
//! themselves implement the trait, which is what lets a set hold sets and a
//! map hold maps.

use vstd::prelude::*;
use vstd::bytes::{u64_to_le_bytes, spec_u64_to_le_bytes};
use vstd::utf8::encode_utf8;
use vstd::std_specs::hash::DefaultHasherAdditionalSpecFns;
use std::collections::hash_map::DefaultHasher;
use core::hash::Hasher;
use crate::fast::{fast_write_u64, fast_write_bytes};

verus! {

/// An element that an order-independent-hashable container can hold.
pub trait Hashable: Sized {
    /// Well-formedness of the value. Plain values are always well formed;
    /// a container is well formed when it holds no duplicates and its
    /// elements are themselves well formed.
    spec fn inv(&self) -> bool;

    /// The equality relation that container membership is defined by.
    spec fn eq_spec(&self, other: &Self) -> bool;

    /// The byte chunks this value writes into a fresh portable sub-hasher;
    /// its pre-hash is the sub-hasher's digest of exactly these chunks.
    spec fn hash_writes(&self) -> Seq<Seq<u8>>;

    /// Decides `eq_spec`.
    fn equals(&self, other: &Self) -> (r: bool)
        requires
            self.inv(),
            other.inv(),
        ensures
            r == self.eq_spec(other),
    ;

    /// Writes this value into a portable sub-hasher.
    fn write_into(&self, h: &mut DefaultHasher)
        requires
            self.inv(),
        ensures
            final(h)@ == old(h)@ + self.hash_writes(),
    ;

    /// Writes this value into a fast sub-hasher. Fast digests are stable
    /// only within one build, so nothing is stated of what is written.
    fn write_into_fast(&self, h: &mut ahash::AHasher)
        requires
            self.inv(),
    ;

    /// Equality is reflexive.
    proof fn lemma_eq_reflexive(&self)
        requires
            self.inv(),
        ensures
            self.eq_spec(self),
    ;

    /// Equality is symmetric.
    proof fn lemma_eq_symmetric(&self, other: &Self)
        requires
            self.inv(),
            other.inv(),
            self.eq_spec(other),
        ensures
            other.eq_spec(self),
    ;

    /// Equality is transitive.
    proof fn lemma_eq_transitive(&self, b: &Self, c: &Self)
        requires
            self.inv(),
            b.inv(),
            c.inv(),
            self.eq_spec(b),
            b.eq_spec(c),
        ensures
            self.eq_spec(c),
    ;

    /// Equal values write the same chunks, and so obtain the same pre-hash:
    /// the hashing side of the hash/equality contract.
    proof fn lemma_eq_same_writes(&self, other: &Self)
        requires
            self.inv(),
            other.inv(),
            self.eq_spec(other),
        ensures
            self.hash_writes() == other.hash_writes(),
    ;
}

/// The pre-hash of a value under the portable strategy: the digest of the
/// chunks it writes into a fresh sub-hasher.
pub open spec fn pre_hash_spec<V: Hashable>(v: V) -> u64 {
    DefaultHasher::spec_finish(v.hash_writes())
}

/// The pre-hashes of a sequence of values, in sequence order.
pub open spec fn pre_hashes_of<V: Hashable>(s: Seq<V>) -> Seq<u64> {
    s.map_values(|v: V| pre_hash_spec(v))
}

/// Computes the portable pre-hash of one value with a fresh sub-hasher.
pub fn pre_hash<V: Hashable>(v: &V) -> (r: u64)
    requires
        v.inv(),
    ensures
        r == pre_hash_spec(*v),
{
    let mut h = DefaultHasher::new();
    v.write_into(&mut h);
    proof {
        assert(h@ =~= v.hash_writes());
    }
    h.finish()
}

/// The hash/equality contract, stated once for every hashable type: if two
/// well-formed values are equal, they write the same chunks and so obtain
/// the same pre-hash — and, hashed as containers' top values, the same
/// structural digest.
pub proof fn lemma_equal_values_equal_hashes<V: Hashable>(a: &V, b: &V)
    requires
        a.inv(),
        b.inv(),
        a.eq_spec(b),
    ensures
        a.hash_writes() == b.hash_writes(),
        pre_hash_spec(*a) == pre_hash_spec(*b),
{
    a.lemma_eq_same_writes(b);
}

impl Hashable for u64 {
    open spec fn inv(&self) -> bool {
        true
    }

    open spec fn eq_spec(&self, other: &Self) -> bool {
        *self == *other
    }

    open spec fn hash_writes(&self) -> Seq<Seq<u8>> {
        seq![spec_u64_to_le_bytes(*self)]
    }

    fn equals(&self, other: &Self) -> (r: bool) {
        *self == *other
    }

    fn write_into(&self, h: &mut DefaultHasher) {
        let bytes = u64_to_le_bytes(*self);
        h.write(bytes.as_slice());
        proof {
            assert(h@ =~= old(h)@ + self.hash_writes());
        }
    }

    fn write_into_fast(&self, h: &mut ahash::AHasher) {
        fast_write_u64(h, *self);
    }

    proof fn lemma_eq_reflexive(&self) {
    }

    proof fn lemma_eq_symmetric(&self, other: &Self) {
    }

    proof fn lemma_eq_transitive(&self, b: &Self, c: &Self) {
    }

    proof fn lemma_eq_same_writes(&self, other: &Self) {
    }
}

impl Hashable for i64 {
    open spec fn inv(&self) -> bool {
        true
    }

    open spec fn eq_spec(&self, other: &Self) -> bool {
        *self == *other
    }

    open spec fn hash_writes(&self) -> Seq<Seq<u8>> {
        seq![spec_u64_to_le_bytes(*self as u64)]
    }

    fn equals(&self, other: &Self) -> (r: bool) {
        *self == *other
    }

    fn write_into(&self, h: &mut DefaultHasher) {
        let bytes = u64_to_le_bytes(*self as u64);
        h.write(bytes.as_slice());
        proof {
            assert(h@ =~= old(h)@ + self.hash_writes());
        }
    }

    fn write_into_fast(&self, h: &mut ahash::AHasher) {
        fast_write_u64(h, *self as u64);
    }

    proof fn lemma_eq_reflexive(&self) {
    }

    proof fn lemma_eq_symmetric(&self, other: &Self) {
    }

    proof fn lemma_eq_transitive(&self, b: &Self, c: &Self) {
        assert(*self as u64 == *c as u64);
    }

    proof fn lemma_eq_same_writes(&self, other: &Self) {
    }
}

impl Hashable for String {
    open spec fn inv(&self) -> bool {
        true
    }

    open spec fn eq_spec(&self, other: &Self) -> bool {
        self@ == other@
    }

    open spec fn hash_writes(&self) -> Seq<Seq<u8>> {
        seq![encode_utf8(self@)]
    }

    fn equals(&self, other: &Self) -> (r: bool) {
        *self == *other
    }

    fn write_into(&self, h: &mut DefaultHasher) {
        h.write(self.as_str().as_bytes());
        proof {
            assert(h@ =~= old(h)@ + self.hash_writes());
        }
    }

    fn write_into_fast(&self, h: &mut ahash::AHasher) {
        fast_write_bytes(h, self.as_str().as_bytes());
    }

    proof fn lemma_eq_reflexive(&self) {
    }

    proof fn lemma_eq_symmetric(&self, other: &Self) {
    }

    proof fn lemma_eq_transitive(&self, b: &Self, c: &Self) {
    }

    proof fn lemma_eq_same_writes(&self, other: &Self) {
    }
}

} // verus!
