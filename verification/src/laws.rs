//! Laws of the map's contracts: what radius filtering yields right after
//! an insertion, and that a larger radius can only add matches. Both are
//! stated over `within`, the selection the search contracts promise.

use vstd::prelude::*;
use vstd::multiset::Multiset;
use vstd::assert_multisets_equal;
use crate::metric::metric_ok;
use crate::search::{lemma_within_count, within};
use crate::tree::has_zero;

verus! {

broadcast use
    vstd::seq_lib::group_to_multiset_ensures,
    vstd::multiset::group_multiset_axioms;

/// Round trip: after an insertion of `(k, v)` into a map none of whose
/// keys lies at distance zero from `k`, the entries within distance zero
/// of `k` — what a radius-zero search returns — are exactly the one
/// inserted entry.
pub proof fn lemma_round_trip<K, V>(
    d: spec_fn(K, K) -> nat,
    ents0: Seq<(K, V)>,
    ents1: Seq<(K, V)>,
    k: K,
    v: V,
)
    requires
        metric_ok(d),
        !has_zero(d, k, ents0),
        ents1.to_multiset() == ents0.to_multiset().insert((k, v)),
    ensures
        within(d, k, ents1, 0).to_multiset() == Multiset::<(K, V)>::empty().insert((k, v)),
{
    reveal(crate::metric::metric_ok);
    assert(d(k, k) == 0);
    assert forall|e: (K, V)| d(k, e.0) == 0 implies ents0.to_multiset().count(e) == 0 by {
        if ents0.to_multiset().count(e) > 0 {
            assert(ents0.contains(e));
            let i = choose|i: int| 0 <= i < ents0.len() && ents0[i] == e;
            assert(d(k, ents0[i].0) == 0);
            assert(has_zero(d, k, ents0));
        }
    }
    assert forall|e: (K, V)| true implies within(d, k, ents1, 0).to_multiset().count(e)
        == Multiset::<(K, V)>::empty().insert((k, v)).count(e) by {
        lemma_within_count(d, k, ents1, 0, e);
        if e == (k, v) {
            assert(ents1.to_multiset().count(e) == ents0.to_multiset().count(e) + 1);
        } else if d(k, e.0) <= 0 {
            assert(ents1.to_multiset().count(e) == ents0.to_multiset().count(e));
        }
    }
    assert(within(d, k, ents1, 0).to_multiset() =~= Multiset::<(K, V)>::empty().insert((k, v)));
}

/// Radius monotonicity: every entry within the smaller radius is within
/// the larger one, with its multiplicity — so a wider search can only
/// add matches.
pub proof fn lemma_radius_monotone<K, V>(
    d: spec_fn(K, K) -> nat,
    q: K,
    ents: Seq<(K, V)>,
    r1: int,
    r2: int,
)
    requires
        r1 <= r2,
    ensures
        within(d, q, ents, r1).to_multiset().subset_of(within(d, q, ents, r2).to_multiset()),
{
    assert forall|e: (K, V)| true implies within(d, q, ents, r1).to_multiset().count(e) <= within(
        d,
        q,
        ents,
        r2,
    ).to_multiset().count(e) by {
        lemma_within_count(d, q, ents, r1, e);
        lemma_within_count(d, q, ents, r2, e);
    }
}

/// Size after a fresh insertion: one more entry.
pub proof fn lemma_added_len<K, V>(ents0: Seq<(K, V)>, ents1: Seq<(K, V)>, k: K, w: V)
    requires
        ents1.to_multiset() == ents0.to_multiset().insert((k, w)),
    ensures
        ents1.len() == ents0.len() + 1,
{
    ents0.to_multiset_ensures();
    ents1.to_multiset_ensures();
}

/// Size after a distance-zero merge: unchanged.
pub proof fn lemma_merged_len<K, V>(ents0: Seq<(K, V)>, ents1: Seq<(K, V)>, x: (K, V), w: V)
    requires
        ents0.to_multiset().count(x) > 0,
        ents1.to_multiset() == ents0.to_multiset().remove(x).insert((x.0, w)),
    ensures
        ents1.len() == ents0.len(),
{
    ents0.to_multiset_ensures();
    ents1.to_multiset_ensures();
    assert(ents0.to_multiset().remove(x).len() == ents0.to_multiset().len() - 1);
}

} // verus!
