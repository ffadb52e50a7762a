//! The order-independent hashing core.
//!
//! A structural hash must not depend on the order in which a container
//! happens to iterate over its contents. The algorithm here makes the order
//! canonical: the pre-hash of every item is staged in a buffer, the buffer is
//! sorted into ascending order, and the sorted sequence is fed, one value at
//! a time, into the output hasher. Two containers with the same multiset of
//! pre-hashes — duplicates retained, no deduplication — therefore feed the
//! output hasher identical sequences and obtain identical digests, whatever
//! their internal iteration orders were.

use vstd::prelude::*;
use vstd::relations::{sorted_by, total_ordering, reflexive, antisymmetric, transitive, strongly_connected};
use vstd::seq_lib::{lemma_sorted_unique, group_to_multiset_ensures, to_multiset_update};
use vstd::multiset::group_multiset_axioms;
use vstd::bytes::{u64_to_le_bytes, spec_u64_to_le_bytes};
use vstd::std_specs::hash::DefaultHasherAdditionalSpecFns;
use std::collections::hash_map::DefaultHasher;
use core::hash::Hasher;

verus! {

/// The ascending order on pre-hash values, as a function value so that every
/// part of the library sorts by the one same relation.
pub open spec fn pre_hash_le() -> spec_fn(u64, u64) -> bool {
    |a: u64, b: u64| a <= b
}

/// The ascending order on pre-hash values is a total order.
pub proof fn lemma_pre_hash_le_total()
    ensures
        total_ordering(pre_hash_le()),
{
    let leq = pre_hash_le();
    assert forall|x: u64| #[trigger] leq(x, x) by {}
    assert(reflexive(leq));
    assert(antisymmetric(leq));
    assert(transitive(leq));
    assert(strongly_connected(leq));
}

/// The canonical form of a staged buffer of pre-hashes: the same values in
/// ascending order.
pub open spec fn canonical_pre_hashes(hs: Seq<u64>) -> Seq<u64> {
    hs.sort_by(pre_hash_le())
}

/// Permutation invariance of the canonical form: two stagings of the same
/// multiset of pre-hashes — however the underlying containers ordered their
/// items — sort into the very same sequence.
pub proof fn lemma_canonical_permutation_invariant(a: Seq<u64>, b: Seq<u64>)
    requires
        a.to_multiset() == b.to_multiset(),
    ensures
        canonical_pre_hashes(a) == canonical_pre_hashes(b),
{
    lemma_pre_hash_le_total();
    a.lemma_sort_by_ensures(pre_hash_le());
    b.lemma_sort_by_ensures(pre_hash_le());
    lemma_sorted_unique(a.sort_by(pre_hash_le()), b.sort_by(pre_hash_le()), pre_hash_le());
}

/// Exchanging two positions of a sequence leaves its multiset unchanged.
proof fn lemma_swap_preserves_multiset(s: Seq<u64>, i: int, j: int)
    requires
        0 <= i < s.len(),
        0 <= j < s.len(),
        i != j,
    ensures
        s.update(i, s[j]).update(j, s[i]).to_multiset() == s.to_multiset(),
{
    broadcast use group_to_multiset_ensures;
    broadcast use to_multiset_update;
    broadcast use group_multiset_axioms;

    let s1 = s.update(i, s[j]);
    let s2 = s1.update(j, s[i]);
    assert(s.contains(s[i]));
    assert(s.contains(s[j]));
    assert(s1[j] == s[j]);
    assert(s1.to_multiset() == s.to_multiset().insert(s[j]).remove(s[i]));
    assert(s2.to_multiset() == s1.to_multiset().insert(s[i]).remove(s1[j]));
    assert(s2.to_multiset() =~= s.to_multiset());
}

/// Sorts a staged buffer of pre-hash values into its canonical ascending
/// order, duplicates retained.
pub fn sort_pre_hashes(buf: &mut Vec<u64>)
    ensures
        final(buf)@ == canonical_pre_hashes(old(buf)@),
{
    let ghost orig = buf@;
    if buf.len() >= 2 {
        let mut i: usize = 1;
        while i < buf.len()
            invariant
                1 <= i <= buf@.len(),
                buf@.len() == orig.len(),
                buf@.to_multiset() == orig.to_multiset(),
                forall|k1: int, k2: int| 0 <= k1 < k2 < i as int ==> buf@[k1] <= buf@[k2],
            decreases buf@.len() - i as int,
        {
            let mut j: usize = i;
            while j > 0 && buf[j - 1] > buf[j]
                invariant
                    0 <= j <= i < buf@.len(),
                    buf@.len() == orig.len(),
                    buf@.to_multiset() == orig.to_multiset(),
                    forall|k1: int, k2: int|
                        0 <= k1 < k2 <= i as int && k2 != j as int ==> buf@[k1] <= buf@[k2],
                decreases j,
            {
                let ghost prev = buf@;
                let x = buf[j - 1];
                let y = buf[j];
                buf[j - 1] = y;
                buf[j] = x;
                proof {
                    assert(buf@ == prev.update(j - 1, prev[j as int]).update(j as int, prev[j - 1]));
                    lemma_swap_preserves_multiset(prev, j - 1, j as int);
                    assert forall|k1: int, k2: int|
                        0 <= k1 < k2 <= i as int && k2 != j as int - 1 implies buf@[k1] <= buf@[k2] by {
                        if k2 == j as int {
                            if k1 < j as int - 1 {
                                assert(prev[k1] <= prev[j as int - 1]);
                            }
                        } else if k1 == j as int - 1 {
                            assert(prev[j as int] <= prev[k2]);
                        } else if k1 == j as int {
                            assert(prev[j as int - 1] <= prev[k2]);
                        }
                    }
                }
                j = j - 1;
            }
            proof {
                assert forall|k1: int, k2: int|
                    0 <= k1 < k2 < i as int + 1 implies buf@[k1] <= buf@[k2] by {
                    if k2 == j as int {
                        if j > 0 && k1 < j as int - 1 {
                            assert(buf@[k1] <= buf@[j as int - 1]);
                        }
                    }
                }
            }
            i = i + 1;
        }
    }
    proof {
        lemma_pre_hash_le_total();
        orig.lemma_sort_by_ensures(pre_hash_le());
        assert(sorted_by(buf@, pre_hash_le()));
        lemma_sorted_unique(buf@, orig.sort_by(pre_hash_le()), pre_hash_le());
    }
}

/// The little-endian byte chunk that one pre-hash value contributes to the
/// output hasher.
pub open spec fn le_chunk_of() -> spec_fn(u64) -> Seq<u8> {
    |h: u64| spec_u64_to_le_bytes(h)
}

/// The byte chunks that a buffer of pre-hash values contributes to the
/// output hasher, one chunk per value, in buffer order.
pub open spec fn le_chunks(hs: Seq<u64>) -> Seq<Seq<u8>> {
    hs.map_values(le_chunk_of())
}

/// The byte chunks of the canonical (ascending) ordering of a staging of
/// pre-hash values: what an order-independent hash computation feeds the
/// output hasher.
pub open spec fn canonical_writes(hs: Seq<u64>) -> Seq<Seq<u8>> {
    le_chunks(canonical_pre_hashes(hs))
}

/// The digest that the portable output hasher produces from a sequence of
/// written byte chunks.
pub open spec fn digest_of(writes: Seq<Seq<u8>>) -> u64 {
    DefaultHasher::spec_finish(writes)
}

/// Feeds a staged buffer of pre-hash values, in buffer order, into the
/// portable output hasher, one 64-bit little-endian chunk per value.
pub fn write_pre_hashes(h: &mut DefaultHasher, buf: &Vec<u64>)
    ensures
        final(h)@ == old(h)@ + le_chunks(buf@),
{
    let mut k: usize = 0;
    while k < buf.len()
        invariant
            0 <= k <= buf@.len(),
            h@ == old(h)@ + le_chunks(buf@.take(k as int)),
        decreases buf@.len() - k as int,
    {
        let bytes = u64_to_le_bytes(buf[k]);
        h.write(bytes.as_slice());
        proof {
            assert(le_chunks(buf@.take(k as int + 1)) =~= le_chunks(buf@.take(k as int)).push(
                spec_u64_to_le_bytes(buf@[k as int]),
            ));
            assert(h@ =~= old(h)@ + le_chunks(buf@.take(k as int + 1)));
        }
        k = k + 1;
    }
    proof {
        assert(buf@.take(buf@.len() as int) =~= buf@);
        assert(h@ =~= old(h)@ + le_chunks(buf@));
    }
}

/// No two distinct positions of `s` hold values related by `clash`. For a
/// set, `clash` is element equality, so this says the set holds no
/// duplicates; for a map, `clash` is key equality, so it says no key occurs
/// twice.
pub open spec fn pairwise_unrelated<T>(s: Seq<T>, clash: spec_fn(T, T) -> bool) -> bool {
    forall|i: int, j: int|
        #![trigger clash(s[i], s[j])]
        0 <= i < s.len() && 0 <= j < s.len() && i != j ==> !clash(s[i], s[j])
}

/// Some position of `ys` holds a value that `x` is matched with.
pub open spec fn some_position_matches<T>(x: T, ys: Seq<T>, matched: spec_fn(T, T) -> bool) -> bool {
    exists|j: int| 0 <= j < ys.len() && #[trigger] matched(x, ys[j])
}

/// Some position of `xs` holds a value matched with `y`.
pub open spec fn matches_some_position<T>(xs: Seq<T>, y: T, matched: spec_fn(T, T) -> bool) -> bool {
    exists|i: int| 0 <= i < xs.len() && #[trigger] matched(xs[i], y)
}

/// Every position of `xs` holds a value matched by some position of `ys`.
pub open spec fn all_matched_into<T>(xs: Seq<T>, ys: Seq<T>, matched: spec_fn(T, T) -> bool) -> bool {
    forall|i: int|
        0 <= i < xs.len() ==> #[trigger] some_position_matches(xs[i], ys, matched)
}

/// Every position of `ys` holds a value that matches some position of `xs`.
pub open spec fn all_matched_from<T>(xs: Seq<T>, ys: Seq<T>, matched: spec_fn(T, T) -> bool) -> bool {
    forall|j: int|
        0 <= j < ys.len() ==> #[trigger] matches_some_position(xs, ys[j], matched)
}

/// Two positions matched to one common position clash (unless they are the
/// same position): matching cannot merge distinct items, in either direction.
pub open spec fn matching_is_exclusive<T>(
    xs: Seq<T>,
    ys: Seq<T>,
    matched: spec_fn(T, T) -> bool,
    clash: spec_fn(T, T) -> bool,
) -> bool {
    &&& forall|i1: int, i2: int, j: int|
        #![trigger matched(xs[i1], ys[j]), matched(xs[i2], ys[j])]
        0 <= i1 < xs.len() && 0 <= i2 < xs.len() && 0 <= j < ys.len() && matched(xs[i1], ys[j])
            && matched(xs[i2], ys[j]) ==> clash(xs[i1], xs[i2]) || i1 == i2
    &&& forall|i: int, j1: int, j2: int|
        #![trigger matched(xs[i], ys[j1]), matched(xs[i], ys[j2])]
        0 <= i < xs.len() && 0 <= j1 < ys.len() && 0 <= j2 < ys.len() && matched(xs[i], ys[j1])
            && matched(xs[i], ys[j2]) ==> clash(ys[j1], ys[j2]) || j1 == j2
}

/// Matched items obtain the same pre-hash.
pub open spec fn matching_preserves_pre_hash<T>(
    xs: Seq<T>,
    ys: Seq<T>,
    matched: spec_fn(T, T) -> bool,
    ph: spec_fn(T) -> u64,
) -> bool {
    forall|i: int, j: int|
        #![trigger matched(xs[i], ys[j])]
        0 <= i < xs.len() && 0 <= j < ys.len() && matched(xs[i], ys[j]) ==> ph(xs[i]) == ph(
            ys[j],
        )
}

/// Mapping a value function over a sequence commutes with removing a
/// position.
proof fn lemma_map_values_remove<T>(s: Seq<T>, i: int, f: spec_fn(T) -> u64)
    requires
        0 <= i < s.len(),
    ensures
        s.remove(i).map_values(f) == s.map_values(f).remove(i),
{
    assert(s.remove(i).map_values(f) =~= s.map_values(f).remove(i));
}

/// Dropping the last position preserves pairwise distinctness.
proof fn lemma_drop_last_unrelated<T>(xs: Seq<T>, clash: spec_fn(T, T) -> bool)
    requires
        xs.len() > 0,
        pairwise_unrelated(xs, clash),
    ensures
        pairwise_unrelated(xs.drop_last(), clash),
{
    let xs2 = xs.drop_last();
    assert forall|i: int, j: int|
        0 <= i < xs2.len() && 0 <= j < xs2.len() && i != j implies !(#[trigger] clash(
        xs2[i],
        xs2[j],
    )) by {
        assert(xs2[i] == xs[i] && xs2[j] == xs[j]);
        assert(!clash(xs[i], xs[j]));
    }
}

/// Removing one position preserves pairwise distinctness.
proof fn lemma_remove_unrelated<T>(ys: Seq<T>, clash: spec_fn(T, T) -> bool, j0: int)
    requires
        0 <= j0 < ys.len(),
        pairwise_unrelated(ys, clash),
    ensures
        pairwise_unrelated(ys.remove(j0), clash),
{
    let ys2 = ys.remove(j0);
    assert forall|i: int, j: int|
        0 <= i < ys2.len() && 0 <= j < ys2.len() && i != j implies !(#[trigger] clash(
        ys2[i],
        ys2[j],
    )) by {
        let oi = if i < j0 { i } else { i + 1 };
        let oj = if j < j0 { j } else { j + 1 };
        assert(ys2[i] == ys[oi] && ys2[j] == ys[oj]);
        assert(oi != oj);
        assert(!clash(ys[oi], ys[oj]));
    }
}

/// After pairing the last position of `xs` off with position `j0` of `ys`,
/// every remaining position of `xs` is still matched within the remaining
/// positions of `ys`.
proof fn lemma_step_matched_into<T>(
    xs: Seq<T>,
    ys: Seq<T>,
    matched: spec_fn(T, T) -> bool,
    clash: spec_fn(T, T) -> bool,
    j0: int,
)
    requires
        xs.len() > 0,
        0 <= j0 < ys.len(),
        matched(xs[xs.len() - 1], ys[j0]),
        pairwise_unrelated(xs, clash),
        all_matched_into(xs, ys, matched),
        matching_is_exclusive(xs, ys, matched, clash),
    ensures
        all_matched_into(xs.drop_last(), ys.remove(j0), matched),
{
    let n = xs.len() - 1;
    let xs2 = xs.drop_last();
    let ys2 = ys.remove(j0);
    assert forall|i: int| 0 <= i < xs2.len() implies #[trigger] some_position_matches(
        xs2[i],
        ys2,
        matched,
    ) by {
        assert(xs2[i] == xs[i]);
        assert(some_position_matches(xs[i], ys, matched));
        let j = choose|j: int| 0 <= j < ys.len() && #[trigger] matched(xs[i], ys[j]);
        if j == j0 {
            assert(matched(xs[i], ys[j0]) && matched(xs[n], ys[j0]));
            assert(clash(xs[i], xs[n]) || i == n);
            assert(!clash(xs[i], xs[n]));
            assert(false);
        }
        let j2 = if j < j0 { j } else { j - 1 };
        assert(0 <= j2 < ys2.len() && ys2[j2] == ys[j]);
        assert(matched(xs2[i], ys2[j2]));
        assert(some_position_matches(xs2[i], ys2, matched));
    }
}

/// After pairing the last position of `xs` off with position `j0` of `ys`,
/// every remaining position of `ys` still has its match within the remaining
/// positions of `xs`.
proof fn lemma_step_matched_from<T>(
    xs: Seq<T>,
    ys: Seq<T>,
    matched: spec_fn(T, T) -> bool,
    clash: spec_fn(T, T) -> bool,
    j0: int,
)
    requires
        xs.len() > 0,
        0 <= j0 < ys.len(),
        matched(xs[xs.len() - 1], ys[j0]),
        pairwise_unrelated(ys, clash),
        all_matched_from(xs, ys, matched),
        matching_is_exclusive(xs, ys, matched, clash),
    ensures
        all_matched_from(xs.drop_last(), ys.remove(j0), matched),
{
    let n = xs.len() - 1;
    let xs2 = xs.drop_last();
    let ys2 = ys.remove(j0);
    assert forall|j: int| 0 <= j < ys2.len() implies #[trigger] matches_some_position(
        xs2,
        ys2[j],
        matched,
    ) by {
        let oj = if j < j0 { j } else { j + 1 };
        assert(ys2[j] == ys[oj]);
        assert(matches_some_position(xs, ys[oj], matched));
        let i = choose|i: int| 0 <= i < xs.len() && #[trigger] matched(xs[i], ys[oj]);
        if i == n {
            assert(matched(xs[n], ys[oj]) && matched(xs[n], ys[j0]));
            assert(clash(ys[oj], ys[j0]) || oj == j0);
            assert(oj != j0);
            assert(!clash(ys[oj], ys[j0]));
            assert(false);
        }
        assert(0 <= i < xs2.len() && xs2[i] == xs[i]);
        assert(matched(xs2[i], ys2[j]));
        assert(matches_some_position(xs2, ys2[j], matched));
    }
}

/// Exclusivity of the matching carries over to the remaining positions.
proof fn lemma_step_exclusive<T>(
    xs: Seq<T>,
    ys: Seq<T>,
    matched: spec_fn(T, T) -> bool,
    clash: spec_fn(T, T) -> bool,
    j0: int,
)
    requires
        xs.len() > 0,
        0 <= j0 < ys.len(),
        matching_is_exclusive(xs, ys, matched, clash),
    ensures
        matching_is_exclusive(xs.drop_last(), ys.remove(j0), matched, clash),
{
    let xs2 = xs.drop_last();
    let ys2 = ys.remove(j0);
    assert forall|i1: int, i2: int, j: int|
        0 <= i1 < xs2.len() && 0 <= i2 < xs2.len() && 0 <= j < ys2.len() && #[trigger] matched(
            xs2[i1],
            ys2[j],
        ) && #[trigger] matched(xs2[i2], ys2[j]) implies clash(xs2[i1], xs2[i2]) || i1 == i2 by {
        let oj = if j < j0 { j } else { j + 1 };
        assert(ys2[j] == ys[oj] && xs2[i1] == xs[i1] && xs2[i2] == xs[i2]);
        assert(matched(xs[i1], ys[oj]) && matched(xs[i2], ys[oj]));
        assert(clash(xs[i1], xs[i2]) || i1 == i2);
    }
    assert forall|i: int, j1: int, j2: int|
        0 <= i < xs2.len() && 0 <= j1 < ys2.len() && 0 <= j2 < ys2.len() && #[trigger] matched(
            xs2[i],
            ys2[j1],
        ) && #[trigger] matched(xs2[i], ys2[j2]) implies clash(ys2[j1], ys2[j2]) || j1 == j2 by {
        let o1 = if j1 < j0 { j1 } else { j1 + 1 };
        let o2 = if j2 < j0 { j2 } else { j2 + 1 };
        assert(ys2[j1] == ys[o1] && ys2[j2] == ys[o2] && xs2[i] == xs[i]);
        assert(matched(xs[i], ys[o1]) && matched(xs[i], ys[o2]));
        assert(clash(ys[o1], ys[o2]) || o1 == o2);
        assert(o1 == o2 ==> j1 == j2);
    }
}

/// Pre-hash preservation carries over to the remaining positions.
proof fn lemma_step_preserves<T>(
    xs: Seq<T>,
    ys: Seq<T>,
    matched: spec_fn(T, T) -> bool,
    ph: spec_fn(T) -> u64,
    j0: int,
)
    requires
        xs.len() > 0,
        0 <= j0 < ys.len(),
        matching_preserves_pre_hash(xs, ys, matched, ph),
    ensures
        matching_preserves_pre_hash(xs.drop_last(), ys.remove(j0), matched, ph),
{
    let xs2 = xs.drop_last();
    let ys2 = ys.remove(j0);
    assert forall|i: int, j: int|
        0 <= i < xs2.len() && 0 <= j < ys2.len() && #[trigger] matched(xs2[i], ys2[j]) implies ph(
        xs2[i],
    ) == ph(ys2[j]) by {
        let oj = if j < j0 { j } else { j + 1 };
        assert(ys2[j] == ys[oj] && xs2[i] == xs[i]);
        assert(matched(xs[i], ys[oj]));
        assert(ph(xs[i]) == ph(ys[oj]));
    }
}

/// The heart of permutation invariance for containers: two duplicate-free
/// item sequences whose items match each other one-to-one — however they are
/// ordered — stage the very same multiset of pre-hashes.
pub proof fn lemma_matched_multisets<T>(
    xs: Seq<T>,
    ys: Seq<T>,
    matched: spec_fn(T, T) -> bool,
    clash: spec_fn(T, T) -> bool,
    ph: spec_fn(T) -> u64,
)
    requires
        pairwise_unrelated(xs, clash),
        pairwise_unrelated(ys, clash),
        all_matched_into(xs, ys, matched),
        all_matched_from(xs, ys, matched),
        matching_is_exclusive(xs, ys, matched, clash),
        matching_preserves_pre_hash(xs, ys, matched, ph),
    ensures
        xs.map_values(ph).to_multiset() == ys.map_values(ph).to_multiset(),
    decreases xs.len(),
{
    broadcast use group_to_multiset_ensures;
    broadcast use group_multiset_axioms;

    if xs.len() == 0 {
        assert(ys.len() == 0) by {
            if ys.len() > 0 {
                assert(matches_some_position(xs, ys[0], matched));
            }
        }
        assert(xs.map_values(ph).to_multiset() =~= ys.map_values(ph).to_multiset());
    } else {
        let n = xs.len() - 1;
        let x = xs[n];
        assert(some_position_matches(xs[n], ys, matched));
        let j0 = choose|j: int| 0 <= j < ys.len() && #[trigger] matched(xs[n], ys[j]);
        let xs2 = xs.drop_last();
        let ys2 = ys.remove(j0);

        lemma_drop_last_unrelated(xs, clash);
        lemma_remove_unrelated(ys, clash, j0);
        lemma_step_matched_into(xs, ys, matched, clash, j0);
        lemma_step_matched_from(xs, ys, matched, clash, j0);
        lemma_step_exclusive(xs, ys, matched, clash, j0);
        lemma_step_preserves(xs, ys, matched, ph, j0);
        lemma_matched_multisets(xs2, ys2, matched, clash, ph);

        assert(xs =~= xs2.push(x));
        assert(xs.map_values(ph) =~= xs2.map_values(ph).push(ph(x)));
        assert(xs.map_values(ph).to_multiset() == xs2.map_values(ph).to_multiset().insert(
            ph(x),
        ));

        lemma_map_values_remove(ys, j0, ph);
        assert(ys2.map_values(ph).to_multiset() == ys.map_values(ph).to_multiset().remove(
            ys.map_values(ph)[j0],
        ));
        assert(ys.map_values(ph)[j0] == ph(ys[j0]));
        assert(ph(x) == ph(ys[j0])) by {
            assert(matched(xs[n], ys[j0]));
        }
        assert(ys.map_values(ph).contains(ph(ys[j0]))) by {
            assert(ys.map_values(ph)[j0] == ph(ys[j0]));
        }
        assert(ys.map_values(ph).to_multiset().count(ph(ys[j0])) > 0);
        assert(xs.map_values(ph).to_multiset() =~= ys.map_values(ph).to_multiset());
    }
}

} // verus!
