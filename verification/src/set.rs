//! The order-independent-hashable set.
//!
//! [`HashableHashSet`] behaves as an unordered set — membership is decided by
//! the elements' own equality, duplicates collapse — and in addition offers a
//! structural hash: the order-independent digest of its elements' pre-hashes.
//! Two sets holding the same elements obtain the same digest whatever order
//! they were built in, which is what lets a set itself be an element of
//! another set.

use vstd::prelude::*;
use std::collections::hash_map::DefaultHasher;
use core::hash::Hasher;
use crate::element::{Hashable, pre_hash, pre_hash_spec, pre_hashes_of};
use crate::order::{
    canonical_pre_hashes, canonical_writes, digest_of, lemma_canonical_permutation_invariant,
    lemma_matched_multisets, all_matched_into, all_matched_from, matching_is_exclusive,
    matching_preserves_pre_hash, pairwise_unrelated, some_position_matches,
    matches_some_position, sort_pre_hashes, write_pre_hashes,
};
use crate::scratch::ScratchPool;
use crate::fast::{fast_hasher_new, fast_write_u64, fast_finish};

verus! {

/// Whether some position of `s` holds an element equal to `x`.
pub open spec fn seq_has_match<V: Hashable>(s: Seq<V>, x: V) -> bool {
    exists|i: int| 0 <= i < s.len() && #[trigger] s[i].eq_spec(&x)
}

/// No element of `s` equals another: the sequence represents a set.
pub open spec fn distinct_elements<V: Hashable>(s: Seq<V>) -> bool {
    forall|i: int, j: int|
        #![trigger s[i].eq_spec(&s[j])]
        0 <= i < s.len() && 0 <= j < s.len() && i != j ==> !s[i].eq_spec(&s[j])
}

/// Every element of `s` is well formed.
pub open spec fn all_well_formed<V: Hashable>(s: Seq<V>) -> bool {
    forall|i: int| 0 <= i < s.len() ==> (#[trigger] s[i]).inv()
}

/// Every element of `a` has an equal element in `b`.
pub open spec fn set_contained_in<V: Hashable>(a: Seq<V>, b: Seq<V>) -> bool {
    forall|i: int| 0 <= i < a.len() ==> #[trigger] seq_has_match(b, a[i])
}

/// An unordered set of `V` with a structural, order-independent hash.
#[derive(Clone, Debug)]
pub struct HashableHashSet<V> {
    items: Vec<V>,
}

impl<V: Hashable> Default for HashableHashSet<V> {
    /// The default set is empty.
    fn default() -> (s: Self)
        ensures
            s.inv(),
            s.elems() == Seq::<V>::empty(),
    {
        HashableHashSet { items: Vec::new() }
    }
}

impl<V: Hashable> HashableHashSet<V> {
    /// The elements of the set, in their internal (irrelevant) order.
    pub closed spec fn elems(&self) -> Seq<V> {
        self.items@
    }

    /// Whether the set holds an element equal to `x`.
    pub open spec fn contains_spec(&self, x: V) -> bool {
        seq_has_match(self.elems(), x)
    }

    /// Creates an empty set.
    pub fn new() -> (s: Self)
        ensures
            s.inv(),
            s.elems() == Seq::<V>::empty(),
    {
        HashableHashSet { items: Vec::new() }
    }

    /// The number of elements.
    pub fn len(&self) -> (n: usize)
        ensures
            n == self.elems().len(),
    {
        self.items.len()
    }

    /// Whether the set is empty.
    pub fn is_empty(&self) -> (r: bool)
        ensures
            r == (self.elems().len() == 0),
    {
        self.items.len() == 0
    }

    /// The element at one internal position; with `len`, this is how callers
    /// walk the contents.
    pub fn item_at(&self, i: usize) -> (v: &V)
        requires
            i < self.elems().len(),
        ensures
            *v == self.elems()[i as int],
    {
        &self.items[i]
    }

    /// Membership test, by the elements' own equality.
    pub fn contains(&self, x: &V) -> (r: bool)
        requires
            self.inv(),
            x.inv(),
        ensures
            r == self.contains_spec(*x),
    {
        let mut i: usize = 0;
        while i < self.items.len()
            invariant
                self.inv(),
                x.inv(),
                0 <= i <= self.elems().len(),
                forall|k: int| 0 <= k < i ==> !(#[trigger] self.elems()[k].eq_spec(x)),
            decreases self.elems().len() - i as int,
        {
            if self.items[i].equals(x) {
                return true;
            }
            i = i + 1;
        }
        false
    }

    /// Inserts an element. A duplicate (by the elements' equality) is
    /// discarded and the set is unchanged; otherwise the element is added.
    /// Returns whether the set grew.
    pub fn insert(&mut self, v: V) -> (added: bool)
        requires
            old(self).inv(),
            v.inv(),
        ensures
            final(self).inv(),
            added == !old(self).contains_spec(v),
            added ==> final(self).elems() == old(self).elems().push(v),
            !added ==> final(self).elems() == old(self).elems(),
    {
        if self.contains(&v) {
            false
        } else {
            proof {
                let s = self.elems().push(v);
                assert forall|i: int, j: int|
                    0 <= i < s.len() && 0 <= j < s.len() && i != j implies !(#[trigger] s[i].eq_spec(
                    &s[j],
                )) by {
                    if j == s.len() - 1 {
                        assert(!self.elems()[i].eq_spec(&v));
                    } else if i == s.len() - 1 {
                        if v.eq_spec(&self.elems()[j]) {
                            let b = self.elems()[j];
                            v.lemma_eq_symmetric(&b);
                            assert(self.elems()[j].eq_spec(&v));
                            assert(false);
                        }
                    }
                }
            }
            self.items.push(v);
            true
        }
    }

    /// Removes the element equal to `x`, if one is present. Returns whether
    /// the set shrank.
    pub fn remove(&mut self, x: &V) -> (removed: bool)
        requires
            old(self).inv(),
            x.inv(),
        ensures
            final(self).inv(),
            removed == old(self).contains_spec(*x),
            removed ==> exists|i: int|
                0 <= i < old(self).elems().len() && (#[trigger] old(self).elems()[i].eq_spec(x))
                    && final(self).elems() == old(self).elems().remove(i),
            !removed ==> final(self).elems() == old(self).elems(),
    {
        let ghost orig = self.elems();
        let mut i: usize = 0;
        while i < self.items.len()
            invariant
                self.inv(),
                self.elems() == orig,
                orig == old(self).elems(),
                x.inv(),
                0 <= i <= orig.len(),
                forall|k: int| 0 <= k < i ==> !(#[trigger] orig[k].eq_spec(x)),
            decreases orig.len() - i as int,
        {
            if self.items[i].equals(x) {
                self.items.remove(i);
                proof {
                    let s = orig.remove(i as int);
                    assert(self.elems() == s);
                    assert forall|a: int| 0 <= a < s.len() implies s[a] == orig[if a < i as int {
                        a
                    } else {
                        a + 1
                    }] by {}
                    assert forall|a: int, b: int|
                        0 <= a < s.len() && 0 <= b < s.len() && a != b implies !(
                    #[trigger] s[a].eq_spec(&s[b])) by {
                        let oa = if a < i as int { a } else { a + 1 };
                        let ob = if b < i as int { b } else { b + 1 };
                        assert(!orig[oa].eq_spec(&orig[ob]));
                    }
                    assert forall|a: int| 0 <= a < s.len() implies (#[trigger] s[a]).inv() by {
                        let oa = if a < i as int { a } else { a + 1 };
                        assert(s[a] == orig[oa]);
                    }
                    assert(old(self).elems()[i as int].eq_spec(x));
                    assert(old(self).contains_spec(*x));
                }
                return true;
            }
            i = i + 1;
        }
        false
    }

    /// Builds a set from a collection of elements by successive insertion;
    /// duplicates collapse. The resulting set holds an element equal to `x`
    /// exactly when the collection held one.
    pub fn from_items(items: Vec<V>) -> (s: Self)
        requires
            all_well_formed(items@),
        ensures
            s.inv(),
            forall|x: V|
                x.inv() ==> ((#[trigger] s.contains_spec(x)) <==> seq_has_match(items@, x)),
    {
        let ghost orig = items@;
        let mut rest = items;
        let mut s = HashableHashSet::<V>::new();
        while rest.len() > 0
            invariant
                s.inv(),
                all_well_formed(orig),
                rest@.len() <= orig.len(),
                rest@ == orig.take(rest@.len() as int),
                forall|x: V|
                    x.inv() ==> ((#[trigger] s.contains_spec(x)) <==> seq_has_match(
                        orig.skip(rest@.len() as int),
                        x,
                    )),
            decreases rest@.len(),
        {
            let ghost n = rest@.len() as int;
            let v = rest.pop().unwrap();
            proof {
                assert(orig.take(n)[n - 1] == orig[n - 1]);
                assert(v == orig[n - 1]);
                assert(v.inv());
                assert(rest@ =~= orig.take(n - 1));
            }
            let ghost s0 = s;
            let ghost before = s.elems();
            let added = s.insert(v);
            proof {
                let done = orig.skip(n);
                let done2 = orig.skip(n - 1);
                assert forall|k: int| 0 <= k < done.len() implies done[k] == done2[k + 1] by {}
                assert(done2[0] == v);
                assert forall|x: V| x.inv() implies ((#[trigger] s.contains_spec(x))
                    <==> seq_has_match(done2, x)) by {
                    if s.contains_spec(x) {
                        let i = choose|i: int|
                            0 <= i < s.elems().len() && #[trigger] s.elems()[i].eq_spec(&x);
                        if added && i == s.elems().len() - 1 {
                            assert(done2[0].eq_spec(&x));
                            assert(seq_has_match(done2, x));
                        } else {
                            assert(before[i].eq_spec(&x));
                            assert(s0.contains_spec(x));
                            assert(seq_has_match(done, x));
                            let k = choose|k: int|
                                0 <= k < done.len() && #[trigger] done[k].eq_spec(&x);
                            assert(done2[k + 1].eq_spec(&x));
                            assert(seq_has_match(done2, x));
                        }
                    }
                    if seq_has_match(done2, x) {
                        let k = choose|k: int|
                            0 <= k < done2.len() && #[trigger] done2[k].eq_spec(&x);
                        if k == 0 {
                            if added {
                                assert(s.elems()[s.elems().len() - 1] == v);
                                assert(seq_has_match(s.elems(), x));
                            } else {
                                assert(s0.contains_spec(v));
                                let i = choose|i: int|
                                    0 <= i < before.len() && #[trigger] before[i].eq_spec(&v);
                                let b = before[i];
                                b.lemma_eq_transitive(&v, &x);
                                assert(before[i].eq_spec(&x));
                                assert(seq_has_match(s.elems(), x));
                            }
                        } else {
                            assert(done[k - 1].eq_spec(&x));
                            assert(seq_has_match(done, x));
                            assert(s0.contains_spec(x));
                            let i = choose|i: int|
                                0 <= i < before.len() && #[trigger] before[i].eq_spec(&x);
                            if added {
                                assert(s.elems()[i] == before[i]);
                            }
                            assert(seq_has_match(s.elems(), x));
                        }
                    }
                }
            }
        }
        proof {
            assert(orig.skip(0) =~= orig);
        }
        s
    }

    /// Stages the pre-hash of every element and sorts the staging buffer into
    /// canonical ascending order.
    fn stage_pre_hashes(&self, buf: &mut Vec<u64>)
        requires
            self.inv(),
            old(buf)@.len() == 0,
        ensures
            final(buf)@ == canonical_pre_hashes(pre_hashes_of(self.elems())),
    {
        let mut i: usize = 0;
        while i < self.items.len()
            invariant
                self.inv(),
                0 <= i <= self.elems().len(),
                buf@ == pre_hashes_of(self.elems().take(i as int)),
            decreases self.elems().len() - i as int,
        {
            let ph = pre_hash(&self.items[i]);
            buf.push(ph);
            proof {
                assert(buf@ =~= pre_hashes_of(self.elems().take(i as int + 1)));
            }
            i = i + 1;
        }
        proof {
            assert(self.elems().take(self.elems().len() as int) =~= self.elems());
        }
        sort_pre_hashes(buf);
    }

    /// Writes the set's structural hash into the portable output hasher,
    /// staging the pre-hashes in a buffer acquired from the pool (or in a
    /// private fallback buffer when the pool's is already checked out).
    pub fn hash_into(&self, h: &mut DefaultHasher, pool: &mut ScratchPool)
        requires
            self.inv(),
        ensures
            final(h)@ == old(h)@ + self.hash_writes(),
    {
        let mut buf = pool.acquire();
        self.stage_pre_hashes(&mut buf);
        write_pre_hashes(h, &buf);
        pool.release(buf);
    }

    /// The set's structural hash under the portable strategy: a deterministic
    /// function of the multiset of element pre-hashes, so it is invariant
    /// under any permutation of the contents, and hashing the same set twice
    /// — through the shared buffer or the fallback — yields the same value.
    pub fn fingerprint(&self, pool: &mut ScratchPool) -> (r: u64)
        requires
            self.inv(),
        ensures
            r == digest_of(self.hash_writes()),
    {
        let mut h = DefaultHasher::new();
        self.hash_into(&mut h, pool);
        proof {
            assert(h@ =~= self.hash_writes());
        }
        h.finish()
    }

    /// The set's structural hash under the fast (`ahash`) strategy. The
    /// staging and sorting are the same verified computation as in
    /// `fingerprint`; the digest values themselves are stable only within one
    /// build, so nothing is stated of them.
    pub fn fingerprint_fast(&self, pool: &mut ScratchPool) -> (r: u64)
        requires
            self.inv(),
    {
        let mut buf = pool.acquire();
        self.stage_pre_hashes(&mut buf);
        let mut h = fast_hasher_new();
        let mut k: usize = 0;
        while k < buf.len()
            invariant
                0 <= k <= buf@.len(),
            decreases buf@.len() - k as int,
        {
            fast_write_u64(&mut h, buf[k]);
            k = k + 1;
        }
        pool.release(buf);
        fast_finish(&h)
    }
}

impl<V: Hashable> Hashable for HashableHashSet<V> {
    /// A set is well formed when its elements are well formed and no two of
    /// them are equal.
    open spec fn inv(&self) -> bool {
        all_well_formed(self.elems()) && distinct_elements(self.elems())
    }

    /// Two sets are equal when each contains every element of the other,
    /// whatever the internal orders.
    open spec fn eq_spec(&self, other: &Self) -> bool {
        set_contained_in(self.elems(), other.elems()) && set_contained_in(
            other.elems(),
            self.elems(),
        )
    }

    /// The set writes the canonical (ascending) sequence of its elements'
    /// pre-hashes, one 64-bit chunk each.
    open spec fn hash_writes(&self) -> Seq<Seq<u8>> {
        canonical_writes(pre_hashes_of(self.elems()))
    }

    fn equals(&self, other: &Self) -> (r: bool) {
        let c1 = contained_in_exec(self, other);
        let c2 = contained_in_exec(other, self);
        c1 && c2
    }

    fn write_into(&self, h: &mut DefaultHasher) {
        let mut buf: Vec<u64> = Vec::new();
        self.stage_pre_hashes(&mut buf);
        write_pre_hashes(h, &buf);
    }

    fn write_into_fast(&self, h: &mut ahash::AHasher) {
        let mut buf: Vec<u64> = Vec::new();
        self.stage_pre_hashes(&mut buf);
        let mut k: usize = 0;
        while k < buf.len()
            invariant
                0 <= k <= buf@.len(),
            decreases buf@.len() - k as int,
        {
            fast_write_u64(h, buf[k]);
            k = k + 1;
        }
    }

    proof fn lemma_eq_reflexive(&self) {
        let s = self.elems();
        assert forall|i: int| 0 <= i < s.len() implies #[trigger] seq_has_match(s, s[i]) by {
            let v = s[i];
            v.lemma_eq_reflexive();
            assert(s[i].eq_spec(&v));
        }
    }

    proof fn lemma_eq_symmetric(&self, other: &Self) {
    }

    proof fn lemma_eq_transitive(&self, b: &Self, c: &Self) {
        let xs = self.elems();
        let ys = b.elems();
        let zs = c.elems();
        assert forall|i: int| 0 <= i < xs.len() implies #[trigger] seq_has_match(zs, xs[i]) by {
            assert(seq_has_match(ys, xs[i]));
            let j = choose|j: int| 0 <= j < ys.len() && #[trigger] ys[j].eq_spec(&xs[i]);
            assert(seq_has_match(zs, ys[j]));
            let k = choose|k: int| 0 <= k < zs.len() && #[trigger] zs[k].eq_spec(&ys[j]);
            let zk = zs[k];
            zk.lemma_eq_transitive(&ys[j], &xs[i]);
            assert(zs[k].eq_spec(&xs[i]));
        }
        assert forall|i: int| 0 <= i < zs.len() implies #[trigger] seq_has_match(xs, zs[i]) by {
            assert(seq_has_match(ys, zs[i]));
            let j = choose|j: int| 0 <= j < ys.len() && #[trigger] ys[j].eq_spec(&zs[i]);
            assert(seq_has_match(xs, ys[j]));
            let k = choose|k: int| 0 <= k < xs.len() && #[trigger] xs[k].eq_spec(&ys[j]);
            let xk = xs[k];
            xk.lemma_eq_transitive(&ys[j], &zs[i]);
            assert(xs[k].eq_spec(&zs[i]));
        }
    }

    proof fn lemma_eq_same_writes(&self, other: &Self) {
        let xs = self.elems();
        let ys = other.elems();
        let matched = |a: V, b: V| b.eq_spec(&a);
        let clash = |a: V, b: V| a.eq_spec(&b);
        let ph = |v: V| pre_hash_spec(v);

        assert(pairwise_unrelated(xs, clash)) by {
            assert forall|i: int, j: int|
                0 <= i < xs.len() && 0 <= j < xs.len() && i != j implies !(#[trigger] clash(
                xs[i],
                xs[j],
            )) by {
                assert(!xs[i].eq_spec(&xs[j]));
            }
        }
        assert(pairwise_unrelated(ys, clash)) by {
            assert forall|i: int, j: int|
                0 <= i < ys.len() && 0 <= j < ys.len() && i != j implies !(#[trigger] clash(
                ys[i],
                ys[j],
            )) by {
                assert(!ys[i].eq_spec(&ys[j]));
            }
        }
        assert(all_matched_into(xs, ys, matched)) by {
            assert forall|i: int| 0 <= i < xs.len() implies #[trigger] some_position_matches(
                xs[i],
                ys,
                matched,
            ) by {
                assert(seq_has_match(ys, xs[i]));
                let j = choose|j: int| 0 <= j < ys.len() && #[trigger] ys[j].eq_spec(&xs[i]);
                assert(matched(xs[i], ys[j]));
                assert(some_position_matches(xs[i], ys, matched));
            }
        }
        assert(all_matched_from(xs, ys, matched)) by {
            assert forall|j: int| 0 <= j < ys.len() implies #[trigger] matches_some_position(
                xs,
                ys[j],
                matched,
            ) by {
                assert(seq_has_match(xs, ys[j]));
                let i = choose|i: int| 0 <= i < xs.len() && #[trigger] xs[i].eq_spec(&ys[j]);
                let a = xs[i];
                a.lemma_eq_symmetric(&ys[j]);
                assert(matched(xs[i], ys[j]));
                assert(matches_some_position(xs, ys[j], matched));
            }
        }
        assert(matching_is_exclusive(xs, ys, matched, clash)) by {
            assert forall|i1: int, i2: int, j: int|
                0 <= i1 < xs.len() && 0 <= i2 < xs.len() && 0 <= j < ys.len() && #[trigger] matched(
                    xs[i1],
                    ys[j],
                ) && #[trigger] matched(xs[i2], ys[j]) implies clash(xs[i1], xs[i2]) || i1
                == i2 by {
                if i1 != i2 {
                    let a = xs[i1];
                    let b = xs[i2];
                    let y = ys[j];
                    y.lemma_eq_symmetric(&a);
                    a.lemma_eq_transitive(&y, &b);
                    assert(clash(xs[i1], xs[i2]));
                }
            }
            assert forall|i: int, j1: int, j2: int|
                0 <= i < xs.len() && 0 <= j1 < ys.len() && 0 <= j2 < ys.len() && #[trigger] matched(
                    xs[i],
                    ys[j1],
                ) && #[trigger] matched(xs[i], ys[j2]) implies clash(ys[j1], ys[j2]) || j1
                == j2 by {
                if j1 != j2 {
                    let y1 = ys[j1];
                    let y2 = ys[j2];
                    let x = xs[i];
                    y2.lemma_eq_symmetric(&x);
                    y1.lemma_eq_transitive(&x, &y2);
                    assert(clash(ys[j1], ys[j2]));
                }
            }
        }
        assert(matching_preserves_pre_hash(xs, ys, matched, ph)) by {
            assert forall|i: int, j: int|
                0 <= i < xs.len() && 0 <= j < ys.len() && #[trigger] matched(
                    xs[i],
                    ys[j],
                ) implies ph(xs[i]) == ph(ys[j]) by {
                let a = xs[i];
                let y = ys[j];
                y.lemma_eq_same_writes(&a);
            }
        }

        lemma_matched_multisets(xs, ys, matched, clash, ph);
        assert(pre_hashes_of(xs) =~= xs.map_values(ph));
        assert(pre_hashes_of(ys) =~= ys.map_values(ph));
        lemma_canonical_permutation_invariant(pre_hashes_of(xs), pre_hashes_of(ys));
    }
}

/// Whether every element of `a` is contained in `b`, decided by loops over
/// both sets.
fn contained_in_exec<V: Hashable>(a: &HashableHashSet<V>, b: &HashableHashSet<V>) -> (r: bool)
    requires
        a.inv(),
        b.inv(),
    ensures
        r == set_contained_in(a.elems(), b.elems()),
{
    let mut i: usize = 0;
    while i < a.len()
        invariant
            a.inv(),
            b.inv(),
            0 <= i <= a.elems().len(),
            forall|k: int| 0 <= k < i ==> #[trigger] seq_has_match(b.elems(), a.elems()[k]),
        decreases a.elems().len() - i as int,
    {
        if !b.contains(a.item_at(i)) {
            return false;
        }
        i = i + 1;
    }
    true
}

/// Permutation invariance: two well-formed sets that each contain exactly the
/// elements of one common collection — built in any insertion orders, or
/// indeed from any two reorderings of that collection — are equal sets and
/// write the same structural hash.
pub proof fn lemma_permutation_invariance<V: Hashable>(
    a: HashableHashSet<V>,
    b: HashableHashSet<V>,
    xs: Seq<V>,
    ys: Seq<V>,
)
    requires
        a.inv(),
        b.inv(),
        xs.to_multiset() == ys.to_multiset(),
        forall|x: V| x.inv() ==> ((#[trigger] a.contains_spec(x)) <==> seq_has_match(xs, x)),
        forall|x: V| x.inv() ==> ((#[trigger] b.contains_spec(x)) <==> seq_has_match(ys, x)),
    ensures
        a.eq_spec(&b),
        a.hash_writes() == b.hash_writes(),
{
    broadcast use vstd::seq_lib::group_to_multiset_ensures;

    assert forall|x: V| x.inv() implies (seq_has_match(xs, x) <==> #[trigger] seq_has_match(
        ys,
        x,
    )) by {
        if seq_has_match(xs, x) {
            let i = choose|i: int| 0 <= i < xs.len() && #[trigger] xs[i].eq_spec(&x);
            assert(xs.contains(xs[i]));
            assert(xs.to_multiset().count(xs[i]) > 0);
            assert(ys.contains(xs[i]));
            let j = choose|j: int| 0 <= j < ys.len() && ys[j] == xs[i];
            assert(ys[j].eq_spec(&x));
            assert(seq_has_match(ys, x));
        }
        if seq_has_match(ys, x) {
            let i = choose|i: int| 0 <= i < ys.len() && #[trigger] ys[i].eq_spec(&x);
            assert(ys.contains(ys[i]));
            assert(ys.to_multiset().count(ys[i]) > 0);
            assert(xs.contains(ys[i]));
            let j = choose|j: int| 0 <= j < xs.len() && xs[j] == ys[i];
            assert(xs[j].eq_spec(&x));
            assert(seq_has_match(xs, x));
        }
    }
    assert forall|i: int| 0 <= i < a.elems().len() implies #[trigger] seq_has_match(
        b.elems(),
        a.elems()[i],
    ) by {
        let v = a.elems()[i];
        v.lemma_eq_reflexive();
        assert(a.elems()[i].eq_spec(&v));
        assert(a.contains_spec(v));
        assert(b.contains_spec(v));
    }
    assert forall|i: int| 0 <= i < b.elems().len() implies #[trigger] seq_has_match(
        a.elems(),
        b.elems()[i],
    ) by {
        let v = b.elems()[i];
        v.lemma_eq_reflexive();
        assert(b.elems()[i].eq_spec(&v));
        assert(b.contains_spec(v));
        assert(a.contains_spec(v));
    }
    a.lemma_eq_same_writes(&b);
}

} // verus!
