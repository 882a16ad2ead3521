//! Laws of the container, stated over the map view that the operation
//! contracts use, and proved once and for all.

use vstd::prelude::*;

use crate::bounds::Bound;
use crate::bounds::in_range;

verus! {

/// Round trip: after `insert(k, v)` the view binds `k` to `v`, which is
/// exactly what `get(k)` returns by its contract.
pub proof fn lemma_insert_get_round_trip<V>(m: Map<i64, V>, k: i64, v: V)
    ensures
        m.insert(k, v).contains_key(k),
        m.insert(k, v)[k] == v,
{
}

/// Upsert: inserting a key that is already bound updates its value and
/// leaves the key set of the tree unchanged.
pub proof fn lemma_upsert_keeps_keys<V>(m: Map<i64, V>, k: i64, v: V)
    requires
        m.contains_key(k),
    ensures
        m.insert(k, v).dom() == m.dom(),
        m.insert(k, v)[k] == v,
{
    assert(m.insert(k, v).dom() =~= m.dom());
}

/// Remove: deleting a key unbinds exactly that key, and deleting an absent
/// key changes nothing.
pub proof fn lemma_remove_exact<V>(m: Map<i64, V>, k: i64)
    ensures
        !m.remove(k).contains_key(k),
        forall|k2: i64| k2 != k ==> m.remove(k).contains_key(k2) == m.contains_key(k2),
        !m.contains_key(k) ==> m.remove(k) == m,
{
    if !m.contains_key(k) {
        assert(m.remove(k) =~= m);
    }
}

/// The view after removing, one by one, each key of a sequence.
pub open spec fn remove_all<V>(m: Map<i64, V>, ks: Seq<i64>) -> Map<i64, V>
    decreases ks.len(),
{
    if ks.len() == 0 {
        m
    } else {
        remove_all(m.remove(ks[0]), ks.drop_first())
    }
}

/// Idempotent emptiness: removing every key a tree holds, in any order and
/// with any number of extra absent keys, leaves the empty view, whose range
/// under any bounds is empty by the range contract.
pub proof fn lemma_remove_all_empties<V>(m: Map<i64, V>, ks: Seq<i64>)
    requires
        forall|k: i64| m.contains_key(k) ==> ks.contains(k),
    ensures
        remove_all(m, ks) == Map::<i64, V>::empty(),
    decreases ks.len(),
{
    if ks.len() == 0 {
        assert forall|k: i64| !m.contains_key(k) by {
            if m.contains_key(k) {
                assert(ks.contains(k));
            }
        }
        assert(m =~= Map::<i64, V>::empty());
    } else {
        let m2 = m.remove(ks[0]);
        assert forall|k: i64| m2.contains_key(k) implies ks.drop_first().contains(k) by {
            assert(ks.contains(k));
            let i = choose|i: int| 0 <= i < ks.len() && ks[i] == k;
            assert(i != 0);
            assert(ks.drop_first()[i - 1] == k);
        }
        lemma_remove_all_empties(m2, ks.drop_first());
    }
}

/// Whether `e` occurs in the entry sequence `s`.
pub open spec fn has_entry<V>(s: Seq<(i64, V)>, e: (i64, V)) -> bool {
    exists|a: int| 0 <= a < s.len() && s[a] == e
}

/// `has_entry` holds of every element of the sequence.
proof fn lemma_mk_has_entry<V>(s: Seq<(i64, V)>, a: int)
    requires
        0 <= a < s.len(),
    ensures
        has_entry(s, s[a]),
{
}

/// Among strictly ascending entries, the first entry of each of two
/// sequences with the same entries is the same.
proof fn lemma_sorted_heads_agree<V>(s1: Seq<(i64, V)>, s2: Seq<(i64, V)>)
    requires
        s1.len() > 0,
        forall|a: int, b: int| #![trigger s1[a], s1[b]] 0 <= a < b < s1.len() ==> s1[a].0 < s1[b].0,
        forall|a: int, b: int| #![trigger s2[a], s2[b]] 0 <= a < b < s2.len() ==> s2[a].0 < s2[b].0,
        forall|a: int| 0 <= a < s1.len() ==> has_entry(s2, #[trigger] s1[a]),
        forall|b: int| 0 <= b < s2.len() ==> has_entry(s1, #[trigger] s2[b]),
    ensures
        s2.len() > 0,
        s1[0] == s2[0],
{
    assert(has_entry(s2, s1[0]));
    let b0 = choose|b: int| 0 <= b < s2.len() && s2[b] == s1[0];
    assert(has_entry(s1, s2[0]));
    let a0 = choose|a: int| 0 <= a < s1.len() && s1[a] == s2[0];
    assert(b0 == 0) by {
        if b0 != 0 {
            assert(s2[0].0 < s2[b0].0);
            assert(a0 > 0 ==> s1[0].0 < s1[a0].0);
        }
    }
}

/// Dropping the shared first entry keeps the two sequences' entries the
/// same.
proof fn lemma_sorted_tails_agree<V>(s1: Seq<(i64, V)>, s2: Seq<(i64, V)>)
    requires
        s1.len() > 0,
        s2.len() > 0,
        s1[0] == s2[0],
        forall|a: int, b: int| #![trigger s1[a], s1[b]] 0 <= a < b < s1.len() ==> s1[a].0 < s1[b].0,
        forall|a: int, b: int| #![trigger s2[a], s2[b]] 0 <= a < b < s2.len() ==> s2[a].0 < s2[b].0,
        forall|a: int| 0 <= a < s1.len() ==> has_entry(s2, #[trigger] s1[a]),
        forall|b: int| 0 <= b < s2.len() ==> has_entry(s1, #[trigger] s2[b]),
    ensures
        forall|a: int|
            0 <= a < s1.drop_first().len() ==> has_entry(
                s2.drop_first(),
                #[trigger] s1.drop_first()[a],
            ),
        forall|b: int|
            0 <= b < s2.drop_first().len() ==> has_entry(
                s1.drop_first(),
                #[trigger] s2.drop_first()[b],
            ),
{
    let t1 = s1.drop_first();
    let t2 = s2.drop_first();
    assert forall|a: int| 0 <= a < t1.len() implies has_entry(t2, #[trigger] t1[a]) by {
        assert(t1[a] == s1[a + 1]);
        assert(has_entry(s2, s1[a + 1]));
        let b = choose|b: int| 0 <= b < s2.len() && s2[b] == s1[a + 1];
        assert(b != 0) by {
            if b == 0 {
                assert(s1[0].0 < s1[a + 1].0);
            }
        }
        assert(t2[b - 1] == t1[a]);
        lemma_mk_has_entry(t2, b - 1);
    }
    assert forall|b: int| 0 <= b < t2.len() implies has_entry(t1, #[trigger] t2[b]) by {
        assert(t2[b] == s2[b + 1]);
        assert(has_entry(s1, s2[b + 1]));
        let a = choose|a: int| 0 <= a < s1.len() && s1[a] == s2[b + 1];
        assert(a != 0) by {
            if a == 0 {
                assert(s2[0].0 < s2[b + 1].0);
            }
        }
        assert(t1[a - 1] == t2[b]);
        lemma_mk_has_entry(t1, a - 1);
    }
}

/// Two strictly ascending entry sequences with the same entries are the
/// same sequence.
pub proof fn lemma_sorted_entries_unique<V>(s1: Seq<(i64, V)>, s2: Seq<(i64, V)>)
    requires
        forall|a: int, b: int| #![trigger s1[a], s1[b]] 0 <= a < b < s1.len() ==> s1[a].0 < s1[b].0,
        forall|a: int, b: int| #![trigger s2[a], s2[b]] 0 <= a < b < s2.len() ==> s2[a].0 < s2[b].0,
        forall|a: int| 0 <= a < s1.len() ==> has_entry(s2, #[trigger] s1[a]),
        forall|b: int| 0 <= b < s2.len() ==> has_entry(s1, #[trigger] s2[b]),
    ensures
        s1 == s2,
    decreases s1.len(),
{
    if s1.len() == 0 {
        assert(s2.len() == 0) by {
            if s2.len() > 0 {
                assert(has_entry(s1, s2[0]));
                let a = choose|a: int| 0 <= a < s1.len() && s1[a] == s2[0];
            }
        }
        assert(s1 =~= s2);
    } else {
        lemma_sorted_heads_agree(s1, s2);
        lemma_sorted_tails_agree(s1, s2);
        let t1 = s1.drop_first();
        let t2 = s2.drop_first();
        lemma_sorted_entries_unique(t1, t2);
        assert forall|a: int| 0 <= a < s1.len() implies s1[a] == s2[a] by {
            if a > 0 {
                assert(s1[a] == t1[a - 1] && s2[a] == t2[a - 1]);
            }
        }
        assert(s1 =~= s2);
    }
}

/// Whether a sequence meets the range contract for view `m` under the
/// bounds `(lo, hi)`: ascending, sound and complete.
pub open spec fn range_output_ok<V>(m: Map<i64, V>, lo: Bound, hi: Bound, s: Seq<(i64, V)>) -> bool {
    &&& (forall|a: int, b: int| #![trigger s[a], s[b]] 0 <= a < b < s.len() ==> s[a].0 < s[b].0)
    &&& (forall|a: int|
        0 <= a < s.len() ==> m.contains_key((#[trigger] s[a]).0) && s[a].1 == m[s[a].0] && in_range(
            lo,
            hi,
            s[a].0,
        ))
    &&& (forall|k: i64|
        m.contains_key(k) && #[trigger] in_range(lo, hi, k) ==> exists|a: int|
            0 <= a < s.len() && (#[trigger] s[a]).0 == k)
}

/// Ordering invariant and range correctness: the range contract pins the
/// output completely, so what `range` returns is *the* ascending sequence
/// of the qualifying entries of the view — in particular, the unbounded
/// range is the ascending sequence of everything the tree holds.
pub proof fn lemma_range_output_unique<V>(
    m: Map<i64, V>,
    lo: Bound,
    hi: Bound,
    s1: Seq<(i64, V)>,
    s2: Seq<(i64, V)>,
)
    requires
        range_output_ok(m, lo, hi, s1),
        range_output_ok(m, lo, hi, s2),
    ensures
        s1 == s2,
{
    assert forall|a: int| 0 <= a < s1.len() implies has_entry(s2, #[trigger] s1[a]) by {
        let k = s1[a].0;
        assert(in_range(lo, hi, k));
        let b = choose|b: int| 0 <= b < s2.len() && (#[trigger] s2[b]).0 == k;
        assert(s2[b] == s1[a]);
        lemma_mk_has_entry(s2, b);
    }
    assert forall|b: int| 0 <= b < s2.len() implies has_entry(s1, #[trigger] s2[b]) by {
        let k = s2[b].0;
        assert(in_range(lo, hi, k));
        let a = choose|a: int| 0 <= a < s1.len() && (#[trigger] s1[a]).0 == k;
        assert(s1[a] == s2[b]);
        lemma_mk_has_entry(s1, a);
    }
    lemma_sorted_entries_unique(s1, s2);
}

} // verus!
