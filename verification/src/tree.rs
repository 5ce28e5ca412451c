//! The BK-tree map: the recursive node layout, the well-formedness
//! invariant that all pruning relies on, and insertion with its three
//! combine policies, plus the size and compaction utilities.

use vstd::prelude::*;
use vstd::assert_multisets_equal;
use vstd::multiset::Multiset;
use crate::metric::{BuildMetric, Metric, metric_ok};

verus! {

broadcast use
    vstd::seq_lib::group_to_multiset_ensures,
    vstd::multiset::group_multiset_axioms;


/// One stored entry: the distance from its parent's key, the indexed key,
/// the payload, and the children, kept strictly ascending by distance.
/// For the root the `dist` field is a meaningless placeholder.
pub(crate) struct BKNode<K, V> {
    pub(crate) dist: usize,
    pub(crate) key: K,
    pub(crate) value: V,
    pub(crate) children: Vec<BKNode<K, V>>,
}

/// All entries of the subtree rooted at `n`, in preorder.
pub(crate) open spec fn node_entries<K, V>(n: BKNode<K, V>) -> Seq<(K, V)>
    decreases n,
{
    seq![(n.key, n.value)] + seq_entries(n.children@)
}

/// All entries of a forest, in order.
pub(crate) open spec fn seq_entries<K, V>(s: Seq<BKNode<K, V>>) -> Seq<(K, V)>
    decreases s,
{
    if s.len() == 0 {
        Seq::empty()
    } else {
        node_entries(s[0]) + seq_entries(s.subrange(1, s.len() as int))
    }
}

/// The tree invariant relative to a distance function `d`: children are
/// strictly ascending by edge distance, edge distances are positive, and
/// every key stored under a child lies at exactly that child's edge
/// distance from this node's key.
pub(crate) open spec fn node_wf<K, V>(n: BKNode<K, V>, d: spec_fn(K, K) -> nat) -> bool
    decreases n,
{
    &&& forall|i: int, j: int|
        0 <= i < j < n.children@.len() ==> (#[trigger] n.children@[i]).dist < (
        #[trigger] n.children@[j]).dist
    &&& forall|i: int| 0 <= i < n.children@.len() ==> (#[trigger] n.children@[i]).dist >= 1
    &&& forall|i: int| 0 <= i < n.children@.len() ==> node_wf(#[trigger] n.children@[i], d)
    &&& forall|i: int, e: (K, V)|
        0 <= i < n.children@.len() && #[trigger] node_entries(n.children@[i]).contains(e) ==> d(
            e.0,
            n.key,
        ) == n.children@[i].dist
}

/// Some entry of `s` has distance zero from `q`.
pub open spec fn has_zero<K, V>(d: spec_fn(K, K) -> nat, q: K, s: Seq<(K, V)>) -> bool {
    exists|i: int| 0 <= i < s.len() && d(q, (#[trigger] s[i]).0) == 0
}

/// Every distance from `q` to a stored key can be computed without
/// exceeding `usize`.
pub open spec fn fits_all<K, V>(fits: spec_fn(K, K) -> bool, q: K, s: Seq<(K, V)>) -> bool {
    forall|e: (K, V)| #[trigger] s.contains(e) ==> fits(q, e.0)
}

/// The outcome of an insertion that found an existing entry `x` at
/// distance zero from `key`: the combine function was handed the stored
/// value and `Some(value)`, and its result replaced the stored value,
/// under the stored key.
pub open spec fn merged_outcome<K, V, F: FnOnce(V, Option<V>) -> V>(
    d: spec_fn(K, K) -> nat,
    ents0: Seq<(K, V)>,
    key: K,
    value: V,
    f: F,
    ents1: Seq<(K, V)>,
) -> bool {
    exists|x: (K, V), w: V|
        ents0.to_multiset().count(x) > 0 && d(key, x.0) == 0 && #[trigger] call_ensures(
            f,
            (x.1, Some(value)),
            w,
        ) && ents1.to_multiset() == ents0.to_multiset().remove(x).insert((x.0, w))
}

/// The outcome of an insertion that found no entry at distance zero: the
/// combine function was handed the incoming value and `None`, and its
/// result was stored as a new entry under `key`.
pub open spec fn added_outcome<K, V, F: FnOnce(V, Option<V>) -> V>(
    ents0: Seq<(K, V)>,
    key: K,
    value: V,
    f: F,
    ents1: Seq<(K, V)>,
) -> bool {
    exists|w: V|
        #[trigger] call_ensures(f, (value, None), w) && ents1.to_multiset()
            == ents0.to_multiset().insert((key, w))
}

pub(crate) proof fn lemma_seq_entries_concat<K, V>(s1: Seq<BKNode<K, V>>, s2: Seq<BKNode<K, V>>)
    ensures
        seq_entries(s1 + s2) == seq_entries(s1) + seq_entries(s2),
    decreases s1.len(),
{
    if s1.len() == 0 {
        assert(s1 + s2 =~= s2);
        assert(seq_entries(s1) + seq_entries(s2) =~= seq_entries(s2));
    } else {
        let rest = s1.subrange(1, s1.len() as int);
        assert((s1 + s2).subrange(1, (s1 + s2).len() as int) =~= rest + s2);
        assert((s1 + s2)[0] == s1[0]);
        lemma_seq_entries_concat(rest, s2);
        assert(node_entries(s1[0]) + (seq_entries(rest) + seq_entries(s2)) =~= (node_entries(s1[0])
            + seq_entries(rest)) + seq_entries(s2));
    }
}

pub(crate) proof fn lemma_seq_entries_singleton<K, V>(c: BKNode<K, V>)
    ensures
        seq_entries(seq![c]) == node_entries(c),
{
    let s = seq![c];
    assert(s.subrange(1, 1) =~= Seq::<BKNode<K, V>>::empty());
    assert(seq_entries(Seq::<BKNode<K, V>>::empty()) == Seq::<(K, V)>::empty());
    assert(seq_entries(s) == node_entries(c) + seq_entries(Seq::<BKNode<K, V>>::empty()));
    assert(node_entries(c) + Seq::<(K, V)>::empty() =~= node_entries(c));
}

/// An entry of a forest lies in exactly the trees that contain it.
pub(crate) proof fn lemma_seq_entries_mem<K, V>(s: Seq<BKNode<K, V>>)
    ensures
        forall|e: (K, V)|
            #[trigger] seq_entries(s).contains(e) <==> exists|k: int|
                0 <= k < s.len() && node_entries(#[trigger] s[k]).contains(e),
    decreases s.len(),
{
    if s.len() == 0 {
    } else {
        let rest = s.subrange(1, s.len() as int);
        lemma_seq_entries_mem(rest);
        assert forall|e: (K, V)| #[trigger] seq_entries(s).contains(e) implies exists|k: int|
            0 <= k < s.len() && node_entries(#[trigger] s[k]).contains(e) by {
            if node_entries(s[0]).contains(e) {
                assert(node_entries(s[0]).contains(e));
            } else {
                assert(seq_entries(rest).contains(e));
                let k = choose|k: int| 0 <= k < rest.len() && node_entries(rest[k]).contains(e);
                assert(s[k + 1] == rest[k]);
            }
        }
        assert forall|e: (K, V)|
            exists|k: int| 0 <= k < s.len() && node_entries(#[trigger] s[k]).contains(e) implies
        #[trigger] seq_entries(s).contains(e) by {
            let k = choose|k: int| 0 <= k < s.len() && node_entries(s[k]).contains(e);
            if k == 0 {
                let j = choose|j: int|
                    0 <= j < node_entries(s[0]).len() && node_entries(s[0])[j] == e;
                assert(seq_entries(s)[j] == e);
            } else {
                assert(rest[k - 1] == s[k]);
                assert(seq_entries(rest).contains(e));
                let j = choose|j: int|
                    0 <= j < seq_entries(rest).len() && seq_entries(rest)[j] == e;
                assert(seq_entries(s)[node_entries(s[0]).len() + j] == e);
            }
        }
    }
}

/// A forest's entries decompose around any one tree.
pub(crate) proof fn lemma_seq_entries_decompose<K, V>(s: Seq<BKNode<K, V>>, k: int)
    requires
        0 <= k < s.len(),
    ensures
        seq_entries(s) == seq_entries(s.take(k)) + node_entries(s[k]) + seq_entries(
            s.skip(k + 1),
        ),
{
    assert(s =~= s.take(k) + seq![s[k]] + s.skip(k + 1));
    lemma_seq_entries_concat(s.take(k) + seq![s[k]], s.skip(k + 1));
    lemma_seq_entries_concat(s.take(k), seq![s[k]]);
    lemma_seq_entries_singleton(s[k]);
}

pub(crate) proof fn lemma_seq_entries_take_step<K, V>(s: Seq<BKNode<K, V>>, k: int)
    requires
        0 <= k < s.len(),
    ensures
        seq_entries(s.take(k + 1)) == seq_entries(s.take(k)) + node_entries(s[k]),
        seq_entries(s.take(k + 1)).len() <= seq_entries(s).len(),
{
    assert(s.take(k + 1) =~= s.take(k) + seq![s[k]]);
    lemma_seq_entries_concat(s.take(k), seq![s[k]]);
    lemma_seq_entries_singleton(s[k]);
    assert(s =~= s.take(k + 1) + s.skip(k + 1));
    lemma_seq_entries_concat(s.take(k + 1), s.skip(k + 1));
}

/// Relies on `Vec::capacity`: the allocated capacity of a vector is never
/// less than its length.
#[verifier::external_body]
fn vec_capacity<T>(v: &Vec<T>) -> (c: usize)
    ensures
        c >= v@.len(),
{
    v.capacity()
}

/// Relies on `Vec::shrink_to_fit`: it only gives allocation back; the
/// contents are unchanged.
#[verifier::external_body]
fn vec_shrink_to_fit<T>(v: &mut Vec<T>)
    ensures
        final(v)@ == old(v)@,
{
    v.shrink_to_fit()
}

pub(crate) fn node_len<K, V>(n: &BKNode<K, V>) -> (l: usize)
    requires
        node_entries(*n).len() <= usize::MAX,
    ensures
        l == node_entries(*n).len(),
    decreases *n,
{
    let mut l: usize = 1;
    let mut k: usize = 0;
    let nc = n.children.len();
    proof {
        assert(n.children@.take(0) =~= Seq::<BKNode<K, V>>::empty());
    }
    while k < nc
        invariant
            k <= nc,
            nc == n.children@.len(),
            node_entries(*n).len() <= usize::MAX,
            l == 1 + seq_entries(n.children@.take(k as int)).len(),
        decreases nc - k,
    {
        proof {
            lemma_seq_entries_take_step(n.children@, k as int);
        }
        let cl = node_len(&n.children[k]);
        l = l + cl;
        k += 1;
    }
    proof {
        assert(n.children@.take(nc as int) =~= n.children@);
    }
    l
}

fn node_capacity<K, V>(n: &BKNode<K, V>) -> (c: usize)
    requires
        node_entries(*n).len() <= usize::MAX,
    ensures
        c >= node_entries(*n).len() - 1,
    decreases *n,
{
    let mut c: usize = vec_capacity(&n.children);
    let mut k: usize = 0;
    let nc = n.children.len();
    proof {
        assert(n.children@.take(0) =~= Seq::<BKNode<K, V>>::empty());
    }
    while k < nc
        invariant
            k <= nc,
            nc == n.children@.len(),
            node_entries(*n).len() <= usize::MAX,
            c == usize::MAX || c >= nc + seq_entries(n.children@.take(k as int)).len() - k,
        decreases nc - k,
    {
        proof {
            lemma_seq_entries_take_step(n.children@, k as int);
        }
        let cc = node_capacity(&n.children[k]);
        c = c.saturating_add(cc);
        k += 1;
    }
    proof {
        assert(n.children@.take(nc as int) =~= n.children@);
    }
    c
}

/// Two nodes with the same keys, values and edge distances throughout;
/// only allocation may differ.
pub(crate) open spec fn same_tree<K, V>(n1: BKNode<K, V>, n2: BKNode<K, V>) -> bool
    decreases n1,
{
    &&& n1.key == n2.key
    &&& n1.value == n2.value
    &&& n1.dist == n2.dist
    &&& n1.children@.len() == n2.children@.len()
    &&& forall|i: int|
        0 <= i < n1.children@.len() ==> same_tree(
            #[trigger] n1.children@[i],
            n2.children@[i],
        )
}

pub(crate) proof fn lemma_same_tree_entries<K, V>(n1: BKNode<K, V>, n2: BKNode<K, V>)
    requires
        same_tree(n1, n2),
    ensures
        node_entries(n1) == node_entries(n2),
    decreases n1,
{
    let s1 = n1.children@;
    let s2 = n2.children@;
    assert forall|k: int| 0 <= k < s1.len() implies node_entries(s1[k]) == node_entries(
        #[trigger] s2[k],
    ) by {
        lemma_same_tree_entries(s1[k], s2[k]);
    }
    lemma_forest_entries_pointwise(s1, s2);
}

proof fn lemma_forest_entries_pointwise<K, V>(s1: Seq<BKNode<K, V>>, s2: Seq<BKNode<K, V>>)
    requires
        s1.len() == s2.len(),
        forall|k: int|
            0 <= k < s1.len() ==> node_entries(#[trigger] s1[k]) == node_entries(s2[k]),
    ensures
        seq_entries(s1) == seq_entries(s2),
    decreases s1.len(),
{
    if s1.len() == 0 {
    } else {
        lemma_forest_entries_pointwise(
            s1.subrange(1, s1.len() as int),
            s2.subrange(1, s2.len() as int),
        );
        assert(node_entries(s1[0]) == node_entries(s2[0]));
    }
}

pub(crate) proof fn lemma_same_tree_wf<K, V>(
    n1: BKNode<K, V>,
    n2: BKNode<K, V>,
    d: spec_fn(K, K) -> nat,
)
    requires
        same_tree(n1, n2),
        node_wf(n1, d),
    ensures
        node_wf(n2, d),
    decreases n1,
{
    let s1 = n1.children@;
    let s2 = n2.children@;
    assert forall|i: int| 0 <= i < s2.len() implies (#[trigger] s2[i]).dist == s1[i].dist by {
        assert(same_tree(s1[i], s2[i]));
    }
    assert forall|i: int| 0 <= i < s2.len() implies node_wf(#[trigger] s2[i], d) by {
        lemma_same_tree_wf(s1[i], s2[i], d);
    }
    assert forall|i: int, e: (K, V)|
        0 <= i < s2.len() && #[trigger] node_entries(s2[i]).contains(e) implies d(e.0, n2.key)
        == s2[i].dist by {
        lemma_same_tree_entries(s1[i], s2[i]);
        assert(node_entries(s1[i]).contains(e));
    }
}

/// For a lawful metric, an entry at distance zero from `key` can only be
/// stored under the child whose edge distance equals the distance from
/// `key` to this node's key.
proof fn lemma_zero_entry_child<K, V>(
    node: BKNode<K, V>,
    d: spec_fn(K, K) -> nat,
    key: K,
    x: (K, V),
)
    requires
        node_wf(node, d),
        metric_ok(d),
        node_entries(node).contains(x),
        d(key, x.0) == 0,
        d(key, node.key) != 0,
    ensures
        exists|k: int|
            0 <= k < node.children@.len() && (#[trigger] node.children@[k]).dist == d(
                key,
                node.key,
            ) && node_entries(node.children@[k]).contains(x),
{
    reveal(crate::metric::metric_ok);
    let ch = node.children@;
    let d0 = d(key, node.key);
    let j = choose|j: int| 0 <= j < node_entries(node).len() && node_entries(node)[j] == x;
    assert(node_entries(node) == seq![(node.key, node.value)] + seq_entries(ch));
    if j == 0 {
        assert(x == (node.key, node.value));
        assert(false);
    }
    assert(seq_entries(ch)[j - 1] == x);
    assert(seq_entries(ch).contains(x));
    lemma_seq_entries_mem(ch);
    let k = choose|k: int| 0 <= k < ch.len() && node_entries(#[trigger] ch[k]).contains(x);
    assert(d(x.0, node.key) == ch[k].dist);
    assert(d(key, node.key) <= d(key, x.0) + d(x.0, node.key));
    assert(d(x.0, key) == d(key, x.0));
    assert(d(x.0, node.key) <= d(x.0, key) + d(key, node.key));
    assert(ch[k].dist == d0);
}

#[verifier::rlimit(100)]
fn insert_val<K, V, MM: Metric<K>, F: FnOnce(V, Option<V>) -> V>(
    node: BKNode<K, V>,
    metric: &mut MM,
    key: K,
    value: V,
    f: F,
) -> (r: BKNode<K, V>)
    requires
        node_wf(node, old(metric).dist_fn()),
        fits_all(old(metric).fits_fn(), key, node_entries(node)),
        forall|v: V, o: Option<V>| #[trigger] call_requires(f, (v, o)),
    ensures
        final(metric).dist_fn() == old(metric).dist_fn(),
        final(metric).fits_fn() == old(metric).fits_fn(),
        node_wf(r, old(metric).dist_fn()),
        r.key == node.key,
        r.dist == node.dist,
        merged_outcome(
            old(metric).dist_fn(),
            node_entries(node),
            key,
            value,
            f,
            node_entries(r),
        ) || added_outcome(node_entries(node), key, value, f, node_entries(r)),
        metric_ok(old(metric).dist_fn()) && has_zero(
            old(metric).dist_fn(),
            key,
            node_entries(node),
        ) ==> merged_outcome(
            old(metric).dist_fn(),
            node_entries(node),
            key,
            value,
            f,
            node_entries(r),
        ),
        metric_ok(old(metric).dist_fn()) && !has_zero(
            old(metric).dist_fn(),
            key,
            node_entries(node),
        ) ==> added_outcome(node_entries(node), key, value, f, node_entries(r)),
    decreases node,
{
    let ghost dfn = metric.dist_fn();
    let ghost ents0 = node_entries(node);
    proof {
        assert(ents0 == seq![(node.key, node.value)] + seq_entries(node.children@));
        assert(ents0[0] == (node.key, node.value));
        assert(ents0.contains(ents0[0]));
    }
    let d = metric.distance(&key, &node.key);
    if d == 0 {
        let BKNode { dist, key: nkey, value: nvalue, children } = node;
        let w = f(nvalue, Some(value));
        let r = BKNode { dist, key: nkey, value: w, children };
        proof {
            let ents1 = node_entries(r);
            assert(ents1 == seq![(nkey, w)] + seq_entries(r.children@));
            assert(r.children@ == node.children@);
            let x = (nkey, nvalue);
            vstd::seq_lib::lemma_multiset_commutative(
                seq![x],
                seq_entries(node.children@),
            );
            vstd::seq_lib::lemma_multiset_commutative(
                seq![(nkey, w)],
                seq_entries(node.children@),
            );
            assert(seq![x].to_multiset() == Multiset::<(K, V)>::empty().insert(x)) by {
                assert(seq![x] == Seq::<(K, V)>::empty().push(x));
            }
            assert(seq![(nkey, w)].to_multiset() == Multiset::<(K, V)>::empty().insert(
                (nkey, w),
            )) by {
                assert(seq![(nkey, w)] == Seq::<(K, V)>::empty().push((nkey, w)));
            }
            assert(ents0.to_multiset().count(x) > 0);
            assert_multisets_equal!(
                ents1.to_multiset(),
                ents0.to_multiset().remove(x).insert((x.0, w))
            );
            assert(dfn(key, nkey) == 0);
            assert(call_ensures(f, (nvalue, Some(value)), w));
            assert(ents0.to_multiset().count(x) > 0 && dfn(key, x.0) == 0 && call_ensures(
                f,
                (x.1, Some(value)),
                w,
            ) && ents1.to_multiset() == ents0.to_multiset().remove(x).insert((x.0, w)));
            assert(merged_outcome(dfn, ents0, key, value, f, ents1));
            assert(node_wf(r, dfn)) by {
                assert(forall|i: int|
                    0 <= i < r.children@.len() ==> node_wf(#[trigger] r.children@[i], dfn));
                assert forall|i: int, e: (K, V)|
                    0 <= i < r.children@.len() && #[trigger] node_entries(
                        r.children@[i],
                    ).contains(e) implies dfn(e.0, r.key) == r.children@[i].dist by {
                    assert(node_entries(node.children@[i]).contains(e));
                }
            }
            assert(has_zero(dfn, key, ents0)) by {
                assert(dfn(key, ents0[0].0) == 0);
            }
        }
        r
    } else {
        let mut ci: usize = 0;
        let nc = node.children.len();
        while ci < nc && node.children[ci].dist < d
            invariant
                ci <= nc,
                nc == node.children@.len(),
                forall|t: int| 0 <= t < ci ==> (#[trigger] node.children@[t]).dist < d,
            decreases nc - ci,
        {
            ci += 1;
        }
        let ghost ch = node.children@;
        proof {
            assert(ci < nc ==> ch[ci as int].dist >= d);
        }
        if ci < nc && node.children[ci].dist == d {
            let BKNode { dist, key: nkey, value: nvalue, children } = node;
            let mut children = children;
            let child = children.remove(ci);
            let ghost ents_c = node_entries(child);
            proof {
                assert(child == ch[ci as int]);
                assert(node_wf(child, dfn));
                lemma_seq_entries_decompose(ch, ci as int);
                lemma_seq_entries_mem(ch);
                assert forall|e: (K, V)| #[trigger] node_entries(child).contains(e) implies
                    metric.fits_fn()(key, e.0) by {
                    assert(seq_entries(ch).contains(e)) by {
                        let j = choose|j: int|
                            0 <= j < node_entries(child).len() && node_entries(child)[j] == e;
                        assert(seq_entries(ch)[seq_entries(ch.take(ci as int)).len() + j] == e);
                    }
                    let j = choose|j: int|
                        0 <= j < seq_entries(ch).len() && seq_entries(ch)[j] == e;
                    assert(ents0[1 + j] == e);
                    assert(ents0.contains(e));
                }
            }
            let child2 = insert_val(child, metric, key, value, f);
            let ghost ents_c2 = node_entries(child2);
            children.insert(ci, child2);
            let r = BKNode { dist, key: nkey, value: nvalue, children };
            proof {
                let nch = r.children@;
                assert(nch =~= ch.update(ci as int, child2));
                assert(nch.take(ci as int) =~= ch.take(ci as int));
                assert(nch.skip(ci as int + 1) =~= ch.skip(ci as int + 1));
                lemma_seq_entries_decompose(nch, ci as int);
                let ents1 = node_entries(r);
                assert(ents1 == seq![(nkey, nvalue)] + seq_entries(nch));
                let pre = seq_entries(ch.take(ci as int));
                let post = seq_entries(ch.skip(ci as int + 1));
                vstd::seq_lib::lemma_multiset_commutative(seq![(nkey, nvalue)], seq_entries(ch));
                vstd::seq_lib::lemma_multiset_commutative(seq![(nkey, nvalue)], seq_entries(nch));
                vstd::seq_lib::lemma_multiset_commutative(pre + ents_c, post);
                vstd::seq_lib::lemma_multiset_commutative(pre, ents_c);
                vstd::seq_lib::lemma_multiset_commutative(pre + ents_c2, post);
                vstd::seq_lib::lemma_multiset_commutative(pre, ents_c2);
                // well-formedness of the rebuilt node
                assert forall|i: int| 0 <= i < nch.len() implies (#[trigger] nch[i]).dist
                    == ch[i].dist by {}
                assert(node_wf(r, dfn)) by {
                    assert forall|i: int| 0 <= i < nch.len() implies node_wf(
                        #[trigger] nch[i],
                        dfn,
                    ) by {
                        if i != ci as int {
                            assert(nch[i] == ch[i]);
                        }
                    }
                    assert forall|i: int, e: (K, V)|
                        0 <= i < nch.len() && #[trigger] node_entries(nch[i]).contains(e) implies
                        dfn(e.0, r.key) == nch[i].dist by {
                        if i == ci as int {
                            if merged_outcome(dfn, ents_c, key, value, f, ents_c2) {
                                let (x, w) = choose|x: (K, V), w: V|
                                    ents_c.to_multiset().count(x) > 0 && dfn(key, x.0) == 0
                                        && #[trigger] call_ensures(f, (x.1, Some(value)), w)
                                        && ents_c2.to_multiset() == ents_c.to_multiset().remove(
                                        x,
                                    ).insert((x.0, w));
                                assert(ents_c2.to_multiset().count(e) > 0);
                                if e == (x.0, w) && ents_c.to_multiset().count(e) == 0 {
                                    assert(ents_c.contains(x));
                                    assert(node_entries(ch[ci as int]).contains(x));
                                    assert(dfn(x.0, nkey) == ch[ci as int].dist);
                                } else {
                                    assert(ents_c.to_multiset().count(e) > 0);
                                    assert(ents_c.contains(e));
                                    assert(node_entries(ch[ci as int]).contains(e));
                                }
                            } else {
                                let w = choose|w: V|
                                    #[trigger] call_ensures(f, (value, None), w)
                                        && ents_c2.to_multiset() == ents_c.to_multiset().insert(
                                        (key, w),
                                    );
                                assert(ents_c2.to_multiset().count(e) > 0);
                                if e == (key, w) && ents_c.to_multiset().count(e) == 0 {
                                    assert(dfn(key, nkey) == d);
                                } else {
                                    assert(ents_c.to_multiset().count(e) > 0);
                                    assert(ents_c.contains(e));
                                    assert(node_entries(ch[ci as int]).contains(e));
                                }
                            }
                        } else {
                            assert(nch[i] == ch[i]);
                            assert(node_entries(ch[i]).contains(e));
                        }
                    }
                }
                // the outcome, lifted from the child to this node
                if merged_outcome(dfn, ents_c, key, value, f, ents_c2) {
                    let (x, w) = choose|x: (K, V), w: V|
                        ents_c.to_multiset().count(x) > 0 && dfn(key, x.0) == 0
                            && #[trigger] call_ensures(f, (x.1, Some(value)), w)
                            && ents_c2.to_multiset() == ents_c.to_multiset().remove(x).insert(
                            (x.0, w),
                        );
                    assert(ents0.to_multiset().count(x) > 0);
                    assert_multisets_equal!(
                        ents1.to_multiset(),
                        ents0.to_multiset().remove(x).insert((x.0, w))
                    );
                    assert(merged_outcome(dfn, ents0, key, value, f, ents1));
                } else {
                    let w = choose|w: V|
                        #[trigger] call_ensures(f, (value, None), w) && ents_c2.to_multiset()
                            == ents_c.to_multiset().insert((key, w));
                    assert_multisets_equal!(
                        ents1.to_multiset(),
                        ents0.to_multiset().insert((key, w))
                    );
                    assert(added_outcome(ents0, key, value, f, ents1));
                }
                // precision under a lawful metric
                if metric_ok(dfn) {
                    if has_zero(dfn, key, ents0) {
                        let j = choose|j: int|
                            0 <= j < ents0.len() && dfn(key, (#[trigger] ents0[j]).0) == 0;
                        assert(ents0.contains(ents0[j]));
                        lemma_zero_entry_child(node, dfn, key, ents0[j]);
                        let k = choose|k: int|
                            0 <= k < ch.len() && (#[trigger] ch[k]).dist == dfn(key, node.key)
                                && node_entries(ch[k]).contains(ents0[j]);
                        assert(k == ci as int) by {
                            if k < ci as int {
                                assert(ch[k].dist < ch[ci as int].dist);
                            } else if k > ci as int {
                                assert(ch[ci as int].dist < ch[k].dist);
                            }
                        }
                        assert(has_zero(dfn, key, ents_c)) by {
                            let jj = choose|jj: int|
                                0 <= jj < ents_c.len() && ents_c[jj] == ents0[j];
                            assert(dfn(key, ents_c[jj].0) == 0);
                        }
                        assert(merged_outcome(dfn, ents_c, key, value, f, ents_c2));
                        // already lifted above
                    } else {
                        assert(!has_zero(dfn, key, ents_c)) by {
                            if has_zero(dfn, key, ents_c) {
                                let jj = choose|jj: int|
                                    0 <= jj < ents_c.len() && dfn(
                                        key,
                                        (#[trigger] ents_c[jj]).0,
                                    ) == 0;
                                assert(seq_entries(ch)[seq_entries(ch.take(ci as int)).len() + jj]
                                    == ents_c[jj]);
                                assert(ents0[1 + seq_entries(ch.take(ci as int)).len() + jj]
                                    == ents_c[jj]);
                                assert(has_zero(dfn, key, ents0));
                            }
                        }
                        assert(added_outcome(ents_c, key, value, f, ents_c2));
                    }
                }
            }
            r
        } else {
            let w = f(value, None);
            let leaf = BKNode { dist: d, key, value: w, children: Vec::new() };
            let ghost leafg = leaf;
            let BKNode { dist, key: nkey, value: nvalue, children } = node;
            let mut children = children;
            children.insert(ci, leaf);
            let r = BKNode { dist, key: nkey, value: nvalue, children };
            proof {
                assert(leafg.children@ =~= Seq::<BKNode<K, V>>::empty());
                let lents = node_entries(leafg);
                assert(lents =~= seq![(key, w)]) by {
                    assert(seq_entries(leafg.children@) == Seq::<(K, V)>::empty());
                }
                // every child at or after the scan position is strictly beyond d
                assert forall|t: int| ci <= t < ch.len() implies (#[trigger] ch[t]).dist > d by {
                    if t > ci as int {
                        assert(ch[ci as int].dist < ch[t].dist);
                    }
                }
                let nch = r.children@;
                assert(nch =~= ch.take(ci as int) + seq![leafg] + ch.skip(ci as int));
                assert(ch =~= ch.take(ci as int) + ch.skip(ci as int));
                lemma_seq_entries_concat(ch.take(ci as int) + seq![leafg], ch.skip(ci as int));
                lemma_seq_entries_concat(ch.take(ci as int), seq![leafg]);
                lemma_seq_entries_singleton(leafg);
                lemma_seq_entries_concat(ch.take(ci as int), ch.skip(ci as int));
                let ents1 = node_entries(r);
                assert(ents1 == seq![(nkey, nvalue)] + seq_entries(nch));
                vstd::seq_lib::lemma_multiset_commutative(seq![(nkey, nvalue)], seq_entries(ch));
                vstd::seq_lib::lemma_multiset_commutative(seq![(nkey, nvalue)], seq_entries(nch));
                let pre = seq_entries(ch.take(ci as int));
                let post = seq_entries(ch.skip(ci as int));
                vstd::seq_lib::lemma_multiset_commutative(pre + lents, post);
                vstd::seq_lib::lemma_multiset_commutative(pre, lents);
                vstd::seq_lib::lemma_multiset_commutative(pre, post);
                assert_multisets_equal!(
                    ents1.to_multiset(),
                    ents0.to_multiset().insert((key, w))
                );
                assert(added_outcome(ents0, key, value, f, ents1));
                // well-formedness: the new child list is strictly sorted around the leaf
                assert(node_wf(r, dfn)) by {
                    assert forall|i: int, j: int| 0 <= i < j < nch.len() implies (
                    #[trigger] nch[i]).dist < (#[trigger] nch[j]).dist by {
                        assert(i < ci as int ==> nch[i] == ch[i]);
                        assert(i == ci as int ==> nch[i] == leafg);
                        assert(i > ci as int ==> nch[i] == ch[i - 1]);
                        assert(j < ci as int ==> nch[j] == ch[j]);
                        assert(j == ci as int ==> nch[j] == leafg);
                        assert(j > ci as int ==> nch[j] == ch[j - 1]);
                    }
                    assert forall|i: int| 0 <= i < nch.len() implies (#[trigger] nch[i]).dist
                        >= 1 by {
                        assert(i < ci as int ==> nch[i] == ch[i]);
                        assert(i == ci as int ==> nch[i] == leafg);
                        assert(i > ci as int ==> nch[i] == ch[i - 1]);
                    }
                    assert forall|i: int| 0 <= i < nch.len() implies node_wf(
                        #[trigger] nch[i],
                        dfn,
                    ) by {
                        assert(i < ci as int ==> nch[i] == ch[i]);
                        assert(i > ci as int ==> nch[i] == ch[i - 1]);
                        if i == ci as int {
                            assert(nch[i] == leafg);
                            assert(node_wf(leafg, dfn));
                        }
                    }
                    assert forall|i: int, e: (K, V)|
                        0 <= i < nch.len() && #[trigger] node_entries(nch[i]).contains(e) implies
                        dfn(e.0, r.key) == nch[i].dist by {
                        if i == ci as int {
                            assert(nch[i] == leafg);
                            assert(e == (key, w));
                            assert(dfn(key, nkey) == d);
                        } else if i < ci as int {
                            assert(nch[i] == ch[i]);
                            assert(node_entries(ch[i]).contains(e));
                        } else {
                            assert(nch[i] == ch[i - 1]);
                            assert(node_entries(ch[i - 1]).contains(e));
                        }
                    }
                }
                // precision: with a lawful metric no entry here lies at distance zero
                if metric_ok(dfn) && has_zero(dfn, key, ents0) {
                    let j = choose|j: int|
                        0 <= j < ents0.len() && dfn(key, (#[trigger] ents0[j]).0) == 0;
                    assert(ents0.contains(ents0[j]));
                    lemma_zero_entry_child(node, dfn, key, ents0[j]);
                    let k = choose|k: int|
                        0 <= k < ch.len() && (#[trigger] ch[k]).dist == dfn(key, node.key)
                            && node_entries(ch[k]).contains(ents0[j]);
                    assert(false) by {
                        if k < ci as int {
                            assert(ch[k].dist < d);
                        } else {
                            assert(ch[k].dist > d);
                        }
                    }
                }
            }
            r
        }
    }
}

pub(crate) fn node_shrink<K, V>(n: &mut BKNode<K, V>)
    ensures
        same_tree(*old(n), *final(n)),
    decreases *old(n),
{
    vec_shrink_to_fit(&mut n.children);
    let mut k: usize = 0;
    let nc = n.children.len();
    while k < nc
        invariant
            k <= nc,
            nc == n.children@.len(),
            n.key == old(n).key,
            n.value == old(n).value,
            n.dist == old(n).dist,
            nc == old(n).children@.len(),
            forall|t: int|
                0 <= t < k ==> same_tree(old(n).children@[t], #[trigger] n.children@[t]),
            forall|t: int| k <= t < nc ==> #[trigger] n.children@[t] == old(n).children@[t],
        decreases nc - k,
    {
        node_shrink(&mut n.children[k]);
        k += 1;
    }
}

/// The BK-tree map: an optional root node, the metric factory it was
/// built with, and one owned metric instance used for insertions.
pub struct BKMap<K, V, M: BuildMetric<K>> {
    pub(crate) root: Option<BKNode<K, V>>,
    pub(crate) build_metric: M,
    pub(crate) metric: M::Metric,
}

impl<K, V, M: BuildMetric<K>> View for BKMap<K, V, M> {
    type V = Seq<(K, V)>;

    /// The stored entries, in preorder.
    closed spec fn view(&self) -> Seq<(K, V)> {
        match self.root {
            Some(n) => node_entries(n),
            None => Seq::empty(),
        }
    }
}

impl<K, V, M: BuildMetric<K>> BKMap<K, V, M> {
    /// The distance function of the metric this map was built with.
    pub closed spec fn dist_fn(&self) -> spec_fn(K, K) -> nat {
        self.build_metric.dist_fn()
    }

    /// The pairs of keys whose distance the metric can compute.
    pub closed spec fn fits_fn(&self) -> spec_fn(K, K) -> bool {
        self.build_metric.fits_fn()
    }

    pub closed spec fn wf(&self) -> bool {
        &&& self.metric.dist_fn() == self.build_metric.dist_fn()
        &&& self.metric.fits_fn() == self.build_metric.fits_fn()
        &&& match self.root {
            Some(n) => node_wf(n, self.build_metric.dist_fn()),
            None => true,
        }
    }

    /// An empty map over the supplied metric factory.
    pub fn with_metric(build_metric: M) -> (r: Self)
        ensures
            r.wf(),
            r@ == Seq::<(K, V)>::empty(),
            r.dist_fn() == build_metric.dist_fn(),
            r.fits_fn() == build_metric.fits_fn(),
    {
        let metric = build_metric.build();
        BKMap { root: None, build_metric, metric }
    }

    /// Insert `(key, value)`; when an entry at metric distance zero from
    /// `key` already exists, its value is overwritten (under the stored
    /// key) and nothing else changes.
    pub fn insert(&mut self, key: K, value: V)
        requires
            old(self).wf(),
            fits_all(old(self).fits_fn(), key, old(self)@),
        ensures
            final(self).wf(),
            final(self).dist_fn() == old(self).dist_fn(),
            final(self).fits_fn() == old(self).fits_fn(),
            (exists|x: (K, V)|
                #[trigger] old(self)@.to_multiset().count(x) > 0 && old(self).dist_fn()(key, x.0)
                    == 0 && final(self)@.to_multiset() == old(self)@.to_multiset().remove(
                    x,
                ).insert((x.0, value))) || final(self)@.to_multiset()
                == old(self)@.to_multiset().insert((key, value)),
            metric_ok(old(self).dist_fn()) && has_zero(old(self).dist_fn(), key, old(self)@)
                ==> exists|x: (K, V)|
                #[trigger] old(self)@.to_multiset().count(x) > 0 && old(self).dist_fn()(key, x.0)
                    == 0 && final(self)@.to_multiset() == old(self)@.to_multiset().remove(
                    x,
                ).insert((x.0, value)),
            metric_ok(old(self).dist_fn()) && !has_zero(old(self).dist_fn(), key, old(self)@)
                ==> final(self)@.to_multiset() == old(self)@.to_multiset().insert((key, value)),
    {
        let h = |cur: V, o: Option<V>| -> (res: V)
            ensures
                res == (match o {
                    Option::Some(n) => n,
                    Option::None => cur,
                }),
            {
                match o {
                    Option::Some(n) => n,
                    Option::None => cur,
                }
            };
        let ghost ents0 = self@;
        let ghost d = self.dist_fn();
        self.insert_and_modify(key, value, h);
        proof {
            if merged_outcome(d, ents0, key, value, h, self@) {
                let (x, w) = choose|x: (K, V), w: V|
                    ents0.to_multiset().count(x) > 0 && d(key, x.0) == 0 && #[trigger] call_ensures(
                        h,
                        (x.1, Some(value)),
                        w,
                    ) && self@.to_multiset() == ents0.to_multiset().remove(x).insert((x.0, w));
                assert(w == value);
            } else {
                let w = choose|w: V|
                    #[trigger] call_ensures(h, (value, None), w) && self@.to_multiset()
                        == ents0.to_multiset().insert((key, w));
                assert(w == value);
            }
        }
    }

    /// Insert `(key, value)`; on a distance-zero collision, the stored
    /// value is replaced by `modify(stored, value)` instead, and `modify`
    /// is not invoked otherwise.
    pub fn insert_or_modify<F: FnOnce(V, V) -> V>(&mut self, key: K, value: V, modify: F)
        requires
            old(self).wf(),
            fits_all(old(self).fits_fn(), key, old(self)@),
            forall|v: V, w: V| #[trigger] call_requires(modify, (v, w)),
        ensures
            final(self).wf(),
            final(self).dist_fn() == old(self).dist_fn(),
            final(self).fits_fn() == old(self).fits_fn(),
            (exists|x: (K, V), w: V|
                old(self)@.to_multiset().count(x) > 0 && old(self).dist_fn()(key, x.0) == 0
                    && #[trigger] call_ensures(modify, (x.1, value), w) && final(self)@.to_multiset() == old(self)@.to_multiset().remove(x).insert((x.0, w)))
                || final(self)@.to_multiset() == old(self)@.to_multiset().insert((key, value)),
            metric_ok(old(self).dist_fn()) && has_zero(old(self).dist_fn(), key, old(self)@)
                ==> exists|x: (K, V), w: V|
                old(self)@.to_multiset().count(x) > 0 && old(self).dist_fn()(key, x.0) == 0
                    && #[trigger] call_ensures(modify, (x.1, value), w) && final(self)@.to_multiset() == old(self)@.to_multiset().remove(x).insert((x.0, w)),
            metric_ok(old(self).dist_fn()) && !has_zero(old(self).dist_fn(), key, old(self)@)
                ==> final(self)@.to_multiset() == old(self)@.to_multiset().insert((key, value)),
    {
        let h = |cur: V, o: Option<V>| -> (res: V)
            ensures
                (match o {
                    Option::Some(n) => call_ensures(modify, (cur, n), res),
                    Option::None => res == cur,
                }),
            {
                match o {
                    Option::Some(n) => modify(cur, n),
                    Option::None => cur,
                }
            };
        let ghost ents0 = self@;
        let ghost d = self.dist_fn();
        self.insert_and_modify(key, value, h);
        proof {
            if merged_outcome(d, ents0, key, value, h, self@) {
                let (x, w) = choose|x: (K, V), w: V|
                    ents0.to_multiset().count(x) > 0 && d(key, x.0) == 0 && #[trigger] call_ensures(
                        h,
                        (x.1, Some(value)),
                        w,
                    ) && self@.to_multiset() == ents0.to_multiset().remove(x).insert((x.0, w));
                assert(call_ensures(modify, (x.1, value), w));
            } else {
                let w = choose|w: V|
                    #[trigger] call_ensures(h, (value, None), w) && self@.to_multiset()
                        == ents0.to_multiset().insert((key, w));
                assert(w == value);
            }
        }
    }

    /// One traversal behind all insertion policies. The combine function
    /// is invoked exactly once: with the stored value and `Some(value)`
    /// when an entry at metric distance zero from `key` was found, with
    /// the incoming value and `None` otherwise; what it returns is what
    /// ends up stored. The distance-zero characterization is exact
    /// whenever the metric is lawful.
    pub fn insert_and_modify<F: FnOnce(V, Option<V>) -> V>(&mut self, key: K, value: V, modify: F)
        requires
            old(self).wf(),
            fits_all(old(self).fits_fn(), key, old(self)@),
            forall|v: V, o: Option<V>| #[trigger] call_requires(modify, (v, o)),
        ensures
            final(self).wf(),
            final(self).dist_fn() == old(self).dist_fn(),
            final(self).fits_fn() == old(self).fits_fn(),
            merged_outcome(old(self).dist_fn(), old(self)@, key, value, modify, final(self)@)
                || added_outcome(old(self)@, key, value, modify, final(self)@),
            metric_ok(old(self).dist_fn()) && has_zero(old(self).dist_fn(), key, old(self)@)
                ==> merged_outcome(
                old(self).dist_fn(),
                old(self)@,
                key,
                value,
                modify,
                final(self)@,
            ),
            metric_ok(old(self).dist_fn()) && !has_zero(old(self).dist_fn(), key, old(self)@)
                ==> added_outcome(old(self)@, key, value, modify, final(self)@),
    {
        match self.root.take() {
            None => {
                let w = modify(value, None);
                let leaf = BKNode { dist: 1, key, value: w, children: Vec::new() };
                proof {
                    assert(leaf.children@ =~= Seq::<BKNode<K, V>>::empty());
                    assert(node_entries(leaf) =~= seq![(key, w)]) by {
                        assert(seq_entries(leaf.children@) == Seq::<(K, V)>::empty());
                    }
                    assert(node_wf(leaf, self.build_metric.dist_fn()));
                    assert(seq![(key, w)] == Seq::<(K, V)>::empty().push((key, w)));
                    assert(seq![(key, w)].to_multiset() == Seq::<(K, V)>::empty()
                        .to_multiset().insert((key, w)));
                }
                self.root = Some(leaf);
            }
            Some(root) => {
                let root2 = insert_val(root, &mut self.metric, key, value, modify);
                self.root = Some(root2);
            }
        }
    }

    /// The number of stored entries.
    pub fn len(&self) -> (l: usize)
        requires
            self@.len() <= usize::MAX,
        ensures
            l == self@.len(),
    {
        match &self.root {
            Some(n) => node_len(n),
            None => 0,
        }
    }

    pub fn is_empty(&self) -> (b: bool)
        ensures
            b == (self@.len() == 0),
    {
        proof {
            let ghost rt = self.root;
            if let Some(n) = rt {
                assert(self@ == node_entries(n));
                assert(node_entries(n).len() >= 1);
            }
        }
        self.root.is_none()
    }

    /// The total allocated capacity of all child lists, saturating at
    /// `usize::MAX`. What the allocator granted beyond the lengths is not
    /// predictable, but it is never less than what the lists hold: one
    /// slot per entry below the root.
    pub fn capacity(&self) -> (c: usize)
        requires
            self@.len() <= usize::MAX,
        ensures
            self@.len() == 0 ==> c == 0,
            self@.len() > 0 ==> c >= self@.len() - 1,
    {
        proof {
            let ghost rt = self.root;
            if let Some(n) = rt {
                assert(self@ == node_entries(n));
                assert(node_entries(n).len() >= 1);
            }
        }
        match &self.root {
            Some(n) => node_capacity(n),
            None => 0,
        }
    }

    /// Shrink every child list to exactly its length. No entry and no
    /// edge distance changes; only allocation is given back.
    pub fn shrink_to_fit(&mut self)
        requires
            old(self).wf(),
        ensures
            final(self).wf(),
            final(self)@ == old(self)@,
            final(self).dist_fn() == old(self).dist_fn(),
            final(self).fits_fn() == old(self).fits_fn(),
    {
        match self.root.take() {
            Some(mut root) => {
                let ghost root0 = root;
                node_shrink(&mut root);
                proof {
                    lemma_same_tree_entries(root0, root);
                    lemma_same_tree_wf(root0, root, self.build_metric.dist_fn());
                }
                self.root = Some(root);
            }
            None => {}
        }
    }
}

/// The map's public spec functions, spelled out over its fields, for the
/// modules that implement the searches.
pub(crate) proof fn lemma_map_parts<K, V, M: BuildMetric<K>>(m: &BKMap<K, V, M>)
    ensures
        m.dist_fn() == m.build_metric.dist_fn(),
        m.fits_fn() == m.build_metric.fits_fn(),
        m@ == (match m.root {
            Some(n) => node_entries(n),
            None => Seq::<(K, V)>::empty(),
        }),
        m.wf() ==> (match m.root {
            Some(n) => node_wf(n, m.dist_fn()),
            None => true,
        }),
        m.wf() ==> m.metric.dist_fn() == m.dist_fn(),
        m.wf() ==> m.metric.fits_fn() == m.fits_fn(),
{
}

impl<K, V, M: BuildMetric<K> + Default> Default for BKMap<K, V, M> {
    /// An empty map over a default-constructed metric factory.
    fn default() -> (r: Self)
        ensures
            r.wf(),
            r@ == Seq::<(K, V)>::empty(),
    {
        BKMap::with_metric(M::default())
    }
}

} // verus!
