//! The order-independent-hashable map.
//!
//! [`HashableHashMap`] behaves as an unordered map — key uniqueness is
//! decided by the keys' own equality, a later insertion for an existing key
//! overwrites its value — and in addition offers a structural hash. Each
//! key/value entry hashes its key and then its value into one fresh
//! sub-hasher, in that order, and the per-entry pre-hashes are folded
//! order-independently, so two maps with the same entries obtain the same
//! digest whatever order they were built in.

use vstd::prelude::*;
use std::collections::hash_map::DefaultHasher;
use core::hash::Hasher;
use vstd::std_specs::hash::DefaultHasherAdditionalSpecFns;
use crate::element::Hashable;
use crate::order::{
    canonical_pre_hashes, canonical_writes, digest_of, lemma_canonical_permutation_invariant,
    lemma_matched_multisets, all_matched_into, all_matched_from, matching_is_exclusive,
    matching_preserves_pre_hash, pairwise_unrelated, some_position_matches,
    matches_some_position, sort_pre_hashes, write_pre_hashes,
};
use crate::scratch::ScratchPool;
use crate::fast::{fast_hasher_new, fast_write_u64, fast_finish};

verus! {

/// The byte chunks a key/value entry writes into its fresh sub-hasher: the
/// key's chunks, then the value's.
pub open spec fn entry_writes<K: Hashable, V: Hashable>(e: (K, V)) -> Seq<Seq<u8>> {
    e.0.hash_writes() + e.1.hash_writes()
}

/// The pre-hash of one key/value entry under the portable strategy.
pub open spec fn entry_pre_hash_spec<K: Hashable, V: Hashable>(e: (K, V)) -> u64 {
    DefaultHasher::spec_finish(entry_writes(e))
}

/// The entry pre-hashes of a sequence of entries, in sequence order.
pub open spec fn entry_pre_hashes_of<K: Hashable, V: Hashable>(s: Seq<(K, V)>) -> Seq<u64> {
    s.map_values(|e: (K, V)| entry_pre_hash_spec(e))
}

/// Whether entry `a` matches entry `b`: equal keys and equal values.
pub open spec fn entry_matches<K: Hashable, V: Hashable>(a: (K, V), b: (K, V)) -> bool {
    a.0.eq_spec(&b.0) && a.1.eq_spec(&b.1)
}

/// Whether some position of `s` holds an entry matching `e`.
pub open spec fn seq_has_entry_match<K: Hashable, V: Hashable>(s: Seq<(K, V)>, e: (K, V)) -> bool {
    exists|i: int| 0 <= i < s.len() && #[trigger] entry_matches(s[i], e)
}

/// No key occurs at two positions: the sequence represents a map.
pub open spec fn distinct_keys<K: Hashable, V: Hashable>(s: Seq<(K, V)>) -> bool {
    forall|i: int, j: int|
        #![trigger s[i].0.eq_spec(&s[j].0)]
        0 <= i < s.len() && 0 <= j < s.len() && i != j ==> !s[i].0.eq_spec(&s[j].0)
}

/// Every key and every value of `s` is well formed.
pub open spec fn all_entries_well_formed<K: Hashable, V: Hashable>(s: Seq<(K, V)>) -> bool {
    forall|i: int|
        0 <= i < s.len() ==> (#[trigger] s[i]).0.inv() && s[i].1.inv()
}

/// Every entry of `a` has a matching entry in `b`.
pub open spec fn map_contained_in<K: Hashable, V: Hashable>(a: Seq<(K, V)>, b: Seq<(K, V)>) -> bool {
    forall|i: int| 0 <= i < a.len() ==> #[trigger] seq_has_entry_match(b, a[i])
}

/// An unordered map from `K` to `V` with a structural, order-independent
/// hash.
#[derive(Clone, Debug)]
pub struct HashableHashMap<K, V> {
    entries: Vec<(K, V)>,
}

impl<K: Hashable, V: Hashable> Default for HashableHashMap<K, V> {
    /// The default map is empty.
    fn default() -> (m: Self)
        ensures
            m.inv(),
            m.entries() == Seq::<(K, V)>::empty(),
    {
        HashableHashMap { entries: Vec::new() }
    }
}

impl<K: Hashable, V: Hashable> HashableHashMap<K, V> {
    /// The key/value entries of the map, in their internal (irrelevant)
    /// order.
    pub closed spec fn entries(&self) -> Seq<(K, V)> {
        self.entries@
    }

    /// Whether the map holds a key equal to `k`.
    pub open spec fn contains_key_spec(&self, k: K) -> bool {
        exists|i: int| 0 <= i < self.entries().len() && #[trigger] self.entries()[i].0.eq_spec(&k)
    }

    /// Whether the map holds an entry matching `e`.
    pub open spec fn contains_entry_spec(&self, e: (K, V)) -> bool {
        seq_has_entry_match(self.entries(), e)
    }

    /// Creates an empty map.
    pub fn new() -> (m: Self)
        ensures
            m.inv(),
            m.entries() == Seq::<(K, V)>::empty(),
    {
        HashableHashMap { entries: Vec::new() }
    }

    /// The number of entries.
    pub fn len(&self) -> (n: usize)
        ensures
            n == self.entries().len(),
    {
        self.entries.len()
    }

    /// Whether the map is empty.
    pub fn is_empty(&self) -> (r: bool)
        ensures
            r == (self.entries().len() == 0),
    {
        self.entries.len() == 0
    }

    /// The entry at one internal position; with `len`, this is how callers
    /// walk the contents.
    pub fn entry_at(&self, i: usize) -> (e: &(K, V))
        requires
            i < self.entries().len(),
        ensures
            *e == self.entries()[i as int],
    {
        &self.entries[i]
    }

    /// Key lookup, by the keys' own equality.
    pub fn contains_key(&self, k: &K) -> (r: bool)
        requires
            self.inv(),
            k.inv(),
        ensures
            r == self.contains_key_spec(*k),
    {
        let mut i: usize = 0;
        while i < self.entries.len()
            invariant
                self.inv(),
                k.inv(),
                0 <= i <= self.entries().len(),
                forall|j: int| 0 <= j < i ==> !(#[trigger] self.entries()[j].0.eq_spec(k)),
            decreases self.entries().len() - i as int,
        {
            if self.entries[i].0.equals(k) {
                return true;
            }
            i = i + 1;
        }
        false
    }

    /// The value stored under a key equal to `k`, if any.
    pub fn get(&self, k: &K) -> (r: Option<&V>)
        requires
            self.inv(),
            k.inv(),
        ensures
            r is Some <==> self.contains_key_spec(*k),
            r is Some ==> exists|i: int|
                0 <= i < self.entries().len() && (#[trigger] self.entries()[i].0.eq_spec(k))
                    && *r.unwrap() == self.entries()[i].1,
    {
        let mut i: usize = 0;
        while i < self.entries.len()
            invariant
                self.inv(),
                k.inv(),
                0 <= i <= self.entries().len(),
                forall|j: int| 0 <= j < i ==> !(#[trigger] self.entries()[j].0.eq_spec(k)),
            decreases self.entries().len() - i as int,
        {
            if self.entries[i].0.equals(k) {
                return Some(&self.entries[i].1);
            }
            i = i + 1;
        }
        None
    }

    /// Inserts an entry. When a key equal to `k` is already present, its
    /// value is overwritten (the stored key is kept) and the old value is
    /// returned; otherwise the entry is added.
    pub fn insert(&mut self, k: K, v: V) -> (replaced: Option<V>)
        requires
            old(self).inv(),
            k.inv(),
            v.inv(),
        ensures
            final(self).inv(),
            replaced is Some <==> old(self).contains_key_spec(k),
            replaced is None ==> final(self).entries() == old(self).entries().push((k, v)),
            replaced is Some ==> exists|i: int|
                0 <= i < old(self).entries().len() && (#[trigger] old(self).entries()[i].0.eq_spec(
                    &k,
                )) && replaced == Some(old(self).entries()[i].1) && final(self).entries() == old(
                    self,
                ).entries().remove(i).push((old(self).entries()[i].0, v)),
    {
        let ghost orig = self.entries();
        let mut i: usize = 0;
        while i < self.entries.len()
            invariant
                self.inv(),
                self.entries() == orig,
                orig == old(self).entries(),
                k.inv(),
                v.inv(),
                0 <= i <= orig.len(),
                forall|j: int| 0 <= j < i ==> !(#[trigger] orig[j].0.eq_spec(&k)),
            decreases orig.len() - i as int,
        {
            if self.entries[i].0.equals(&k) {
                proof {
                    assert(orig[i as int].0.eq_spec(&k));
                    assert(exists|l: int| 0 <= l < orig.len() && #[trigger] orig[l].0.eq_spec(&k));
                }
                let pair = self.entries.remove(i);
                proof {
                    assert(pair == orig[i as int]);
                }
                let (k_old, v_old) = pair;
                self.entries.push((k_old, v));
                proof {
                    assert(old(self).entries() == orig);
                    assert(old(self).entries()[i as int].0.eq_spec(&k));
                    assert(old(self).contains_key_spec(k));
                    assert(v_old == old(self).entries()[i as int].1);
                    let s = orig.remove(i as int).push((orig[i as int].0, v));
                    assert(self.entries() == s);
                    assert forall|a: int| 0 <= a < s.len() - 1 implies s[a] == orig[if a < i as int {
                        a
                    } else {
                        a + 1
                    }] by {}
                    assert forall|a: int, b: int|
                        0 <= a < s.len() && 0 <= b < s.len() && a != b implies !(
                    #[trigger] s[a].0.eq_spec(&s[b].0)) by {
                        let last = s.len() - 1;
                        let oa = if a < i as int { a } else { a + 1 };
                        let ob = if b < i as int { b } else { b + 1 };
                        if a == last && b == last {
                        } else if a == last {
                            assert(s[a].0 == orig[i as int].0);
                            assert(!orig[i as int].0.eq_spec(&orig[ob].0));
                        } else if b == last {
                            assert(s[b].0 == orig[i as int].0);
                            assert(!orig[oa].0.eq_spec(&orig[i as int].0));
                        } else {
                            assert(!orig[oa].0.eq_spec(&orig[ob].0));
                        }
                    }
                    assert forall|a: int| 0 <= a < s.len() implies (#[trigger] s[a].0).inv()
                        && s[a].1.inv() by {
                        if a < s.len() - 1 {
                            let oa = if a < i as int { a } else { a + 1 };
                            assert(s[a] == orig[oa]);
                        }
                    }
                }
                return Some(v_old);
            }
            i = i + 1;
        }
        proof {
            let s = orig.push((k, v));
            assert forall|a: int, b: int|
                0 <= a < s.len() && 0 <= b < s.len() && a != b implies !(#[trigger] s[a].0.eq_spec(
                &s[b].0,
            )) by {
                let last = s.len() - 1;
                if b == last {
                    assert(!orig[a].0.eq_spec(&k));
                } else if a == last {
                    if k.eq_spec(&orig[b].0) {
                        let kb = orig[b].0;
                        k.lemma_eq_symmetric(&kb);
                        assert(orig[b].0.eq_spec(&k));
                        assert(false);
                    }
                }
            }
        }
        self.entries.push((k, v));
        None
    }

    /// Removes the entry whose key equals `k`, if one is present, returning
    /// its value.
    pub fn remove(&mut self, k: &K) -> (removed: Option<V>)
        requires
            old(self).inv(),
            k.inv(),
        ensures
            final(self).inv(),
            removed is Some <==> old(self).contains_key_spec(*k),
            removed is Some ==> exists|i: int|
                0 <= i < old(self).entries().len() && (#[trigger] old(self).entries()[i].0.eq_spec(
                    k,
                )) && removed == Some(old(self).entries()[i].1) && final(self).entries() == old(
                    self,
                ).entries().remove(i),
            removed is None ==> final(self).entries() == old(self).entries(),
    {
        let ghost orig = self.entries();
        let mut i: usize = 0;
        while i < self.entries.len()
            invariant
                self.inv(),
                self.entries() == orig,
                orig == old(self).entries(),
                k.inv(),
                0 <= i <= orig.len(),
                forall|j: int| 0 <= j < i ==> !(#[trigger] orig[j].0.eq_spec(k)),
            decreases orig.len() - i as int,
        {
            if self.entries[i].0.equals(k) {
                let pair = self.entries.remove(i);
                proof {
                    assert(pair == orig[i as int]);
                    let s = orig.remove(i as int);
                    assert(self.entries() == s);
                    assert forall|a: int| 0 <= a < s.len() implies s[a] == orig[if a < i as int {
                        a
                    } else {
                        a + 1
                    }] by {}
                    assert forall|a: int, b: int|
                        0 <= a < s.len() && 0 <= b < s.len() && a != b implies !(
                    #[trigger] s[a].0.eq_spec(&s[b].0)) by {
                        let oa = if a < i as int { a } else { a + 1 };
                        let ob = if b < i as int { b } else { b + 1 };
                        assert(!orig[oa].0.eq_spec(&orig[ob].0));
                    }
                    assert forall|a: int| 0 <= a < s.len() implies (#[trigger] s[a]).0.inv()
                        && s[a].1.inv() by {
                        let oa = if a < i as int { a } else { a + 1 };
                        assert(s[a] == orig[oa]);
                    }
                    assert(old(self).entries()[i as int].0.eq_spec(k));
                    assert(old(self).contains_key_spec(*k));
                }
                let (_k_old, v_old) = pair;
                return Some(v_old);
            }
            i = i + 1;
        }
        None
    }

    /// Computes the pre-hash of one entry: key, then value, into a fresh
    /// portable sub-hasher.
    fn entry_pre_hash(e: &(K, V)) -> (r: u64)
        requires
            e.0.inv(),
            e.1.inv(),
        ensures
            r == entry_pre_hash_spec(*e),
    {
        let mut h = DefaultHasher::new();
        e.0.write_into(&mut h);
        e.1.write_into(&mut h);
        proof {
            assert(h@ =~= entry_writes(*e));
        }
        h.finish()
    }

    /// Stages the pre-hash of every entry and sorts the staging buffer into
    /// canonical ascending order.
    fn stage_pre_hashes(&self, buf: &mut Vec<u64>)
        requires
            self.inv(),
            old(buf)@.len() == 0,
        ensures
            final(buf)@ == canonical_pre_hashes(entry_pre_hashes_of(self.entries())),
    {
        let mut i: usize = 0;
        while i < self.entries.len()
            invariant
                self.inv(),
                0 <= i <= self.entries().len(),
                buf@ == entry_pre_hashes_of(self.entries().take(i as int)),
            decreases self.entries().len() - i as int,
        {
            let ph = Self::entry_pre_hash(&self.entries[i]);
            buf.push(ph);
            proof {
                assert(buf@ =~= entry_pre_hashes_of(self.entries().take(i as int + 1)));
            }
            i = i + 1;
        }
        proof {
            assert(self.entries().take(self.entries().len() as int) =~= self.entries());
        }
        sort_pre_hashes(buf);
    }

    /// Writes the map's structural hash into the portable output hasher,
    /// staging the pre-hashes in a buffer acquired from the pool (or in a
    /// private fallback buffer when the pool's is already checked out).
    pub fn hash_into(&self, h: &mut DefaultHasher, pool: &mut ScratchPool)
        requires
            self.inv(),
        ensures
            final(h)@ == old(h)@ + self.hash_writes(),
    {
        let mut buf = pool.acquire();
        self.stage_pre_hashes(&mut buf);
        write_pre_hashes(h, &buf);
        pool.release(buf);
    }

    /// The map's structural hash under the portable strategy: a deterministic
    /// function of the multiset of entry pre-hashes, so it is invariant under
    /// any permutation of the contents, and hashing the same map twice —
    /// through the shared buffer or the fallback — yields the same value.
    pub fn fingerprint(&self, pool: &mut ScratchPool) -> (r: u64)
        requires
            self.inv(),
        ensures
            r == digest_of(self.hash_writes()),
    {
        let mut h = DefaultHasher::new();
        self.hash_into(&mut h, pool);
        proof {
            assert(h@ =~= self.hash_writes());
        }
        h.finish()
    }

    /// The map's structural hash under the fast (`ahash`) strategy. The
    /// staging and sorting are the same verified computation as in
    /// `fingerprint`; the digest values themselves are stable only within
    /// one build, so nothing is stated of them.
    pub fn fingerprint_fast(&self, pool: &mut ScratchPool) -> (r: u64)
        requires
            self.inv(),
    {
        let mut buf = pool.acquire();
        self.stage_pre_hashes(&mut buf);
        let mut h = fast_hasher_new();
        let mut j: usize = 0;
        while j < buf.len()
            invariant
                0 <= j <= buf@.len(),
            decreases buf@.len() - j as int,
        {
            fast_write_u64(&mut h, buf[j]);
            j = j + 1;
        }
        pool.release(buf);
        fast_finish(&h)
    }
}

impl<K: Hashable, V: Hashable> Hashable for HashableHashMap<K, V> {
    /// A map is well formed when its keys and values are well formed and no
    /// two entries hold equal keys.
    open spec fn inv(&self) -> bool {
        all_entries_well_formed(self.entries()) && distinct_keys(self.entries())
    }

    /// Two maps are equal when each entry of one has a matching entry (equal
    /// key, equal value) in the other, whatever the internal orders.
    open spec fn eq_spec(&self, other: &Self) -> bool {
        map_contained_in(self.entries(), other.entries()) && map_contained_in(
            other.entries(),
            self.entries(),
        )
    }

    /// The map writes the canonical (ascending) sequence of its entries'
    /// pre-hashes, one 64-bit chunk each.
    open spec fn hash_writes(&self) -> Seq<Seq<u8>> {
        canonical_writes(entry_pre_hashes_of(self.entries()))
    }

    fn equals(&self, other: &Self) -> (r: bool) {
        let c1 = map_contained_in_exec(self, other);
        let c2 = map_contained_in_exec(other, self);
        c1 && c2
    }

    fn write_into(&self, h: &mut DefaultHasher) {
        let mut buf: Vec<u64> = Vec::new();
        self.stage_pre_hashes(&mut buf);
        write_pre_hashes(h, &buf);
    }

    fn write_into_fast(&self, h: &mut ahash::AHasher) {
        let mut buf: Vec<u64> = Vec::new();
        self.stage_pre_hashes(&mut buf);
        let mut j: usize = 0;
        while j < buf.len()
            invariant
                0 <= j <= buf@.len(),
            decreases buf@.len() - j as int,
        {
            fast_write_u64(h, buf[j]);
            j = j + 1;
        }
    }

    proof fn lemma_eq_reflexive(&self) {
        let s = self.entries();
        assert forall|i: int| 0 <= i < s.len() implies #[trigger] seq_has_entry_match(
            s,
            s[i],
        ) by {
            let e = s[i];
            e.0.lemma_eq_reflexive();
            e.1.lemma_eq_reflexive();
            assert(entry_matches(s[i], e));
        }
    }

    proof fn lemma_eq_symmetric(&self, other: &Self) {
    }

    proof fn lemma_eq_transitive(&self, b: &Self, c: &Self) {
        let xs = self.entries();
        let ys = b.entries();
        let zs = c.entries();
        assert forall|i: int| 0 <= i < xs.len() implies #[trigger] seq_has_entry_match(
            zs,
            xs[i],
        ) by {
            assert(seq_has_entry_match(ys, xs[i]));
            let j = choose|j: int| 0 <= j < ys.len() && #[trigger] entry_matches(ys[j], xs[i]);
            assert(seq_has_entry_match(zs, ys[j]));
            let l = choose|l: int| 0 <= l < zs.len() && #[trigger] entry_matches(zs[l], ys[j]);
            let zk = zs[l].0;
            let zv = zs[l].1;
            zk.lemma_eq_transitive(&ys[j].0, &xs[i].0);
            zv.lemma_eq_transitive(&ys[j].1, &xs[i].1);
            assert(entry_matches(zs[l], xs[i]));
        }
        assert forall|i: int| 0 <= i < zs.len() implies #[trigger] seq_has_entry_match(
            xs,
            zs[i],
        ) by {
            assert(seq_has_entry_match(ys, zs[i]));
            let j = choose|j: int| 0 <= j < ys.len() && #[trigger] entry_matches(ys[j], zs[i]);
            assert(seq_has_entry_match(xs, ys[j]));
            let l = choose|l: int| 0 <= l < xs.len() && #[trigger] entry_matches(xs[l], ys[j]);
            let xk = xs[l].0;
            let xv = xs[l].1;
            xk.lemma_eq_transitive(&ys[j].0, &zs[i].0);
            xv.lemma_eq_transitive(&ys[j].1, &zs[i].1);
            assert(entry_matches(xs[l], zs[i]));
        }
    }

    proof fn lemma_eq_same_writes(&self, other: &Self) {
        let xs = self.entries();
        let ys = other.entries();
        let matched = |a: (K, V), b: (K, V)| entry_matches(b, a);
        let clash = |a: (K, V), b: (K, V)| a.0.eq_spec(&b.0);
        let ph = |e: (K, V)| entry_pre_hash_spec(e);

        assert(pairwise_unrelated(xs, clash)) by {
            assert forall|i: int, j: int|
                0 <= i < xs.len() && 0 <= j < xs.len() && i != j implies !(#[trigger] clash(
                xs[i],
                xs[j],
            )) by {
                assert(!xs[i].0.eq_spec(&xs[j].0));
            }
        }
        assert(pairwise_unrelated(ys, clash)) by {
            assert forall|i: int, j: int|
                0 <= i < ys.len() && 0 <= j < ys.len() && i != j implies !(#[trigger] clash(
                ys[i],
                ys[j],
            )) by {
                assert(!ys[i].0.eq_spec(&ys[j].0));
            }
        }
        assert(all_matched_into(xs, ys, matched)) by {
            assert forall|i: int| 0 <= i < xs.len() implies #[trigger] some_position_matches(
                xs[i],
                ys,
                matched,
            ) by {
                assert(seq_has_entry_match(ys, xs[i]));
                let j = choose|j: int| 0 <= j < ys.len() && #[trigger] entry_matches(ys[j], xs[i]);
                assert(matched(xs[i], ys[j]));
                assert(some_position_matches(xs[i], ys, matched));
            }
        }
        assert(all_matched_from(xs, ys, matched)) by {
            assert forall|j: int| 0 <= j < ys.len() implies #[trigger] matches_some_position(
                xs,
                ys[j],
                matched,
            ) by {
                assert(seq_has_entry_match(xs, ys[j]));
                let i = choose|i: int| 0 <= i < xs.len() && #[trigger] entry_matches(xs[i], ys[j]);
                let xk = xs[i].0;
                let xv = xs[i].1;
                xk.lemma_eq_symmetric(&ys[j].0);
                xv.lemma_eq_symmetric(&ys[j].1);
                assert(entry_matches(ys[j], xs[i]));
                assert(matched(xs[i], ys[j]));
                assert(matches_some_position(xs, ys[j], matched));
            }
        }
        assert(matching_is_exclusive(xs, ys, matched, clash)) by {
            assert forall|i1: int, i2: int, j: int|
                0 <= i1 < xs.len() && 0 <= i2 < xs.len() && 0 <= j < ys.len() && #[trigger] matched(
                    xs[i1],
                    ys[j],
                ) && #[trigger] matched(xs[i2], ys[j]) implies clash(xs[i1], xs[i2]) || i1
                == i2 by {
                if i1 != i2 {
                    let a = xs[i1].0;
                    let b = xs[i2].0;
                    let y = ys[j].0;
                    y.lemma_eq_symmetric(&a);
                    a.lemma_eq_transitive(&y, &b);
                    assert(clash(xs[i1], xs[i2]));
                }
            }
            assert forall|i: int, j1: int, j2: int|
                0 <= i < xs.len() && 0 <= j1 < ys.len() && 0 <= j2 < ys.len() && #[trigger] matched(
                    xs[i],
                    ys[j1],
                ) && #[trigger] matched(xs[i], ys[j2]) implies clash(ys[j1], ys[j2]) || j1
                == j2 by {
                if j1 != j2 {
                    let y1 = ys[j1].0;
                    let y2 = ys[j2].0;
                    let x = xs[i].0;
                    y2.lemma_eq_symmetric(&x);
                    y1.lemma_eq_transitive(&x, &y2);
                    assert(clash(ys[j1], ys[j2]));
                }
            }
        }
        assert(matching_preserves_pre_hash(xs, ys, matched, ph)) by {
            assert forall|i: int, j: int|
                0 <= i < xs.len() && 0 <= j < ys.len() && #[trigger] matched(
                    xs[i],
                    ys[j],
                ) implies ph(xs[i]) == ph(ys[j]) by {
                let yk = ys[j].0;
                let yv = ys[j].1;
                yk.lemma_eq_same_writes(&xs[i].0);
                yv.lemma_eq_same_writes(&xs[i].1);
                assert(entry_writes(ys[j]) == entry_writes(xs[i]));
            }
        }

        lemma_matched_multisets(xs, ys, matched, clash, ph);
        assert(entry_pre_hashes_of(xs) =~= xs.map_values(ph));
        assert(entry_pre_hashes_of(ys) =~= ys.map_values(ph));
        lemma_canonical_permutation_invariant(entry_pre_hashes_of(xs), entry_pre_hashes_of(ys));
    }
}

/// Whether `b` holds an entry matching the pair `(k, v)`, decided by a loop.
fn has_entry_match_exec<K: Hashable, V: Hashable>(
    b: &HashableHashMap<K, V>,
    k: &K,
    v: &V,
) -> (r: bool)
    requires
        b.inv(),
        k.inv(),
        v.inv(),
    ensures
        r == seq_has_entry_match(b.entries(), (*k, *v)),
{
    let mut j: usize = 0;
    while j < b.len()
        invariant
            b.inv(),
            k.inv(),
            v.inv(),
            0 <= j <= b.entries().len(),
            forall|l: int| 0 <= l < j ==> !(#[trigger] entry_matches(b.entries()[l], (*k, *v))),
        decreases b.entries().len() - j as int,
    {
        let e = b.entry_at(j);
        let key_eq = e.0.equals(k);
        let val_eq = e.1.equals(v);
        if key_eq && val_eq {
            proof {
                assert(entry_matches(b.entries()[j as int], (*k, *v)));
            }
            return true;
        }
        j = j + 1;
    }
    false
}

/// Whether every entry of `a` has a match in `b`, decided by loops over both
/// maps.
fn map_contained_in_exec<K: Hashable, V: Hashable>(
    a: &HashableHashMap<K, V>,
    b: &HashableHashMap<K, V>,
) -> (r: bool)
    requires
        a.inv(),
        b.inv(),
    ensures
        r == map_contained_in(a.entries(), b.entries()),
{
    let mut i: usize = 0;
    while i < a.len()
        invariant
            a.inv(),
            b.inv(),
            0 <= i <= a.entries().len(),
            forall|l: int|
                0 <= l < i ==> #[trigger] seq_has_entry_match(b.entries(), a.entries()[l]),
        decreases a.entries().len() - i as int,
    {
        let e = a.entry_at(i);
        if !has_entry_match_exec(b, &e.0, &e.1) {
            proof {
                assert(a.entries()[i as int] == (a.entries()[i as int].0, a.entries()[i as int].1));
            }
            return false;
        }
        proof {
            assert(a.entries()[i as int] == (a.entries()[i as int].0, a.entries()[i as int].1));
        }
        i = i + 1;
    }
    true
}

/// Permutation invariance: two well-formed maps that each contain exactly the
/// entries of one common key-unique collection — built in any insertion
/// orders, or from any two reorderings of that collection — are equal maps
/// and write the same structural hash.
pub proof fn lemma_map_permutation_invariance<K: Hashable, V: Hashable>(
    a: HashableHashMap<K, V>,
    b: HashableHashMap<K, V>,
    xs: Seq<(K, V)>,
    ys: Seq<(K, V)>,
)
    requires
        a.inv(),
        b.inv(),
        xs.to_multiset() == ys.to_multiset(),
        forall|e: (K, V)|
            e.0.inv() && e.1.inv() ==> ((#[trigger] a.contains_entry_spec(e))
                <==> seq_has_entry_match(xs, e)),
        forall|e: (K, V)|
            e.0.inv() && e.1.inv() ==> ((#[trigger] b.contains_entry_spec(e))
                <==> seq_has_entry_match(ys, e)),
    ensures
        a.eq_spec(&b),
        a.hash_writes() == b.hash_writes(),
{
    broadcast use vstd::seq_lib::group_to_multiset_ensures;

    assert forall|e: (K, V)| e.0.inv() && e.1.inv() implies (seq_has_entry_match(xs, e)
        <==> #[trigger] seq_has_entry_match(ys, e)) by {
        if seq_has_entry_match(xs, e) {
            let i = choose|i: int| 0 <= i < xs.len() && #[trigger] entry_matches(xs[i], e);
            assert(xs.contains(xs[i]));
            assert(xs.to_multiset().count(xs[i]) > 0);
            assert(ys.contains(xs[i]));
            let j = choose|j: int| 0 <= j < ys.len() && ys[j] == xs[i];
            assert(entry_matches(ys[j], e));
        }
        if seq_has_entry_match(ys, e) {
            let i = choose|i: int| 0 <= i < ys.len() && #[trigger] entry_matches(ys[i], e);
            assert(ys.contains(ys[i]));
            assert(ys.to_multiset().count(ys[i]) > 0);
            assert(xs.contains(ys[i]));
            let j = choose|j: int| 0 <= j < xs.len() && xs[j] == ys[i];
            assert(entry_matches(xs[j], e));
        }
    }
    assert forall|i: int| 0 <= i < a.entries().len() implies #[trigger] seq_has_entry_match(
        b.entries(),
        a.entries()[i],
    ) by {
        let e = a.entries()[i];
        e.0.lemma_eq_reflexive();
        e.1.lemma_eq_reflexive();
        assert(entry_matches(a.entries()[i], e));
        assert(a.contains_entry_spec(e));
        assert(b.contains_entry_spec(e));
    }
    assert forall|i: int| 0 <= i < b.entries().len() implies #[trigger] seq_has_entry_match(
        a.entries(),
        b.entries()[i],
    ) by {
        let e = b.entries()[i];
        e.0.lemma_eq_reflexive();
        e.1.lemma_eq_reflexive();
        assert(entry_matches(b.entries()[i], e));
        assert(b.contains_entry_spec(e));
        assert(a.contains_entry_spec(e));
    }
    a.lemma_eq_same_writes(&b);
}

} // verus!
