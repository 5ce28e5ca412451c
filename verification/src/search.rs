//! The radius-bounded fuzzy search over the tree: a resumable traversal
//! that prunes subtrees through the reverse triangle inequality.

use vstd::prelude::*;
use vstd::multiset::Multiset;
use vstd::assert_multisets_equal;
use crate::metric::{BuildMetric, Metric, metric_ok};
use crate::tree::{
    BKMap, BKNode, fits_all, lemma_map_parts, lemma_seq_entries_concat, lemma_seq_entries_mem,
    lemma_seq_entries_singleton, node_entries, node_wf, seq_entries,
};

verus! {

/// The entries of `s` whose key lies within distance `r` of `q`.
pub open spec fn within<K, V>(d: spec_fn(K, K) -> nat, q: K, s: Seq<(K, V)>, r: int) -> Seq<
    (K, V),
> {
    s.filter(|e: (K, V)| d(q, e.0) <= r)
}

/// The entries a search result lists, with the reported distances
/// stripped.
pub open spec fn result_entries<K, V>(s: Seq<(usize, &K, &V)>) -> Seq<(K, V)> {
    s.map_values(|t: (usize, &K, &V)| (*t.1, *t.2))
}

/// The radius-search invariant: the matches produced so far plus the
/// radius-filtered entries still pending on the stack are exactly the
/// radius-filtered entries of the map.
#[verifier::opaque]
pub(crate) open spec fn search_inv<K, V>(
    d: spec_fn(K, K) -> nat,
    q: K,
    r: int,
    found: Seq<(K, V)>,
    all: Seq<(K, V)>,
    stack: Seq<&BKNode<K, V>>,
) -> bool {
    found.to_multiset().add(within(d, q, stack_entries(stack), r).to_multiset()) == within(
        d,
        q,
        all,
        r,
    ).to_multiset()
}

/// The entries still pending under a traversal stack, bottom first.
pub(crate) open spec fn stack_entries<K, V>(s: Seq<&BKNode<K, V>>) -> Seq<(K, V)>
    decreases s.len(),
{
    if s.len() == 0 {
        Seq::empty()
    } else {
        stack_entries(s.drop_last()) + node_entries(*s.last())
    }
}

proof fn lemma_stack_push<K, V>(s: Seq<&BKNode<K, V>>, x: &BKNode<K, V>)
    ensures
        stack_entries(s.push(x)) == stack_entries(s) + node_entries(*x),
{
    assert(s.push(x).drop_last() =~= s);
    assert(s.push(x).last() == x);
}

/// Popping a node and pushing any sub-range of its children strictly
/// shrinks the pending entry count.
proof fn lemma_step_len<K, V>(
    sd: Seq<&BKNode<K, V>>,
    snew: Seq<&BKNode<K, V>>,
    node: &BKNode<K, V>,
    lo: int,
    hi: int,
)
    requires
        0 <= lo <= hi <= node.children@.len(),
        stack_entries(snew) == stack_entries(sd) + seq_entries(
            node.children@.subrange(lo, hi),
        ),
    ensures
        stack_entries(snew).len() < stack_entries(sd.push(node)).len(),
{
    let ch = node.children@;
    lemma_stack_push(sd, node);
    assert(ch =~= ch.subrange(0, lo) + ch.subrange(lo, hi) + ch.subrange(hi, ch.len() as int));
    lemma_seq_entries_concat(
        ch.subrange(0, lo) + ch.subrange(lo, hi),
        ch.subrange(hi, ch.len() as int),
    );
    lemma_seq_entries_concat(ch.subrange(0, lo), ch.subrange(lo, hi));
    assert(node_entries(*node) == seq![(node.key, node.value)] + seq_entries(ch));
}

proof fn lemma_empty_to_multiset<K, V>()
    ensures
        Seq::<(K, V)>::empty().to_multiset() == Multiset::<(K, V)>::empty(),
{
    broadcast use vstd::seq_lib::group_to_multiset_ensures, vstd::multiset::group_multiset_axioms;

    let s = Seq::<(K, V)>::empty();
    assert(s.to_multiset().len() == 0);
    vstd::multiset::lemma_multiset_empty_len(s.to_multiset());
    assert(s.to_multiset() =~= Multiset::<(K, V)>::empty());
}

proof fn lemma_within_concat<K, V>(
    d: spec_fn(K, K) -> nat,
    q: K,
    s1: Seq<(K, V)>,
    s2: Seq<(K, V)>,
    r: int,
)
    ensures
        within(d, q, s1 + s2, r).to_multiset() == within(d, q, s1, r).to_multiset().add(
            within(d, q, s2, r).to_multiset(),
        ),
{
    let pred = |e: (K, V)| d(q, e.0) <= r;
    Seq::filter_distributes_over_add(s1, s2, pred);
    vstd::seq_lib::lemma_multiset_commutative(s1.filter(pred), s2.filter(pred));
}

/// All entries under a pruned child are farther than `r` from the query:
/// its edge distance differs from the query's distance to this node by
/// more than `r`, and the reverse triangle inequality carries that
/// difference down to every stored key.
proof fn lemma_subtree_far<K, V>(n: BKNode<K, V>, d: spec_fn(K, K) -> nat, q: K, c: int, r: int)
    requires
        node_wf(n, d),
        metric_ok(d),
        0 <= c < n.children@.len(),
        n.children@[c].dist < d(q, n.key) - r || n.children@[c].dist > d(q, n.key) + r,
    ensures
        within(d, q, node_entries(n.children@[c]), r).len() == 0,
{
    reveal(crate::metric::metric_ok);
    let child = n.children@[c];
    let ents = node_entries(child);
    let pred = |e: (K, V)| d(q, e.0) <= r;
    assert forall|j: int| 0 <= j < ents.len() implies !pred(ents[j]) by {
        let e = ents[j];
        assert(ents.contains(e));
        assert(d(e.0, n.key) == child.dist);
        assert(d(q, n.key) <= d(q, e.0) + d(e.0, n.key));
        assert(d(e.0, q) == d(q, e.0));
        assert(d(e.0, n.key) <= d(e.0, q) + d(q, n.key));
    }
    assert(ents.all(|e: (K, V)| !pred(e))) by {
        reveal(Seq::all);
    }
    ents.lemma_all_neg_filter_empty(pred);
}

/// A run of children whose every subtree filters to nothing filters to
/// nothing.
proof fn lemma_forest_within_empty_range<K, V>(
    d: spec_fn(K, K) -> nat,
    q: K,
    ch: Seq<BKNode<K, V>>,
    from: int,
    to: int,
    r: int,
)
    requires
        0 <= from <= to <= ch.len(),
        forall|c: int|
            from <= c < to ==> within(d, q, node_entries(#[trigger] ch[c]), r).len() == 0,
    ensures
        within(d, q, seq_entries(ch.subrange(from, to)), r).len() == 0,
    decreases to - from,
{
    let pred = |e: (K, V)| d(q, e.0) <= r;
    let s = ch.subrange(from, to);
    if from == to {
        assert(s.len() == 0);
        assert(seq_entries(s) == Seq::<(K, V)>::empty());
        assert forall|j: int| 0 <= j < seq_entries(s).len() implies !pred(
            seq_entries(s)[j],
        ) by {}
        assert(seq_entries(s).all(|e: (K, V)| !pred(e))) by {
            reveal(Seq::all);
        }
        seq_entries(s).lemma_all_neg_filter_empty(pred);
    } else {
        assert(s[0] == ch[from]);
        assert(s.subrange(1, s.len() as int) =~= ch.subrange(from + 1, to));
        lemma_forest_within_empty_range(d, q, ch, from + 1, to, r);
        Seq::filter_distributes_over_add(
            node_entries(ch[from]),
            seq_entries(ch.subrange(from + 1, to)),
            pred,
        );
        assert(seq_entries(s) == node_entries(ch[from]) + seq_entries(ch.subrange(from + 1, to)));
    }
}

/// A freshly started search satisfies the invariant: nothing found yet,
/// everything pending.
proof fn lemma_search_init<K, V>(
    d: spec_fn(K, K) -> nat,
    q: K,
    r: int,
    all: Seq<(K, V)>,
    stack: Seq<&BKNode<K, V>>,
)
    requires
        stack_entries(stack) == all,
    ensures
        search_inv(d, q, r, Seq::<(K, V)>::empty(), all, stack),
{
    broadcast use vstd::seq_lib::group_to_multiset_ensures, vstd::multiset::group_multiset_axioms;

    reveal(search_inv);
    lemma_empty_to_multiset::<K, V>();
    assert_multisets_equal!(
        Seq::<(K, V)>::empty().to_multiset().add(within(d, q, all, r).to_multiset()),
        within(d, q, all, r).to_multiset()
    );
}

/// With an empty stack the matches produced are exactly the
/// radius-filtered entries.
proof fn lemma_search_done<K, V>(
    d: spec_fn(K, K) -> nat,
    q: K,
    r: int,
    found: Seq<(K, V)>,
    all: Seq<(K, V)>,
    stack: Seq<&BKNode<K, V>>,
)
    requires
        stack.len() == 0,
        search_inv(d, q, r, found, all, stack),
    ensures
        found.to_multiset() == within(d, q, all, r).to_multiset(),
{
    broadcast use vstd::seq_lib::group_to_multiset_ensures, vstd::multiset::group_multiset_axioms;

    reveal(search_inv);
    assert(stack_entries(stack) == Seq::<(K, V)>::empty());
    let pred = |e: (K, V)| d(q, e.0) <= r;
    Seq::<(K, V)>::empty().lemma_all_neg_filter_empty(pred);
    assert(within(d, q, Seq::<(K, V)>::empty(), r) =~= Seq::<(K, V)>::empty());
    lemma_empty_to_multiset::<K, V>();
    assert_multisets_equal!(
        found.to_multiset(),
        found.to_multiset().add(Multiset::<(K, V)>::empty())
    );
}

/// The matches can never outnumber the stored entries.
proof fn lemma_found_le<K, V>(
    d: spec_fn(K, K) -> nat,
    q: K,
    r: int,
    found: Seq<(K, V)>,
    all: Seq<(K, V)>,
    stack: Seq<&BKNode<K, V>>,
)
    requires
        search_inv(d, q, r, found, all, stack),
    ensures
        found.len() <= all.len(),
{
    broadcast use vstd::seq_lib::group_to_multiset_ensures, vstd::multiset::group_multiset_axioms;

    reveal(search_inv);
    let pred = |e: (K, V)| d(q, e.0) <= r;
    all.lemma_filter_len(pred);
    assert(found.to_multiset().len() <= found.to_multiset().add(
        within(d, q, stack_entries(stack), r).to_multiset(),
    ).len());
}

/// One step of the traversal, accounted for: popping `node` and pushing
/// exactly its children in the window keeps the search invariant, with
/// the popped entry moving to the results exactly when its distance is
/// within the radius.
#[verifier::rlimit(100)]
proof fn lemma_step_accounting<K, V>(
    d: spec_fn(K, K) -> nat,
    q: K,
    r: int,
    found0: Seq<(K, V)>,
    all: Seq<(K, V)>,
    sd: Seq<&BKNode<K, V>>,
    snew: Seq<&BKNode<K, V>>,
    node: &BKNode<K, V>,
    lo: int,
    hi: int,
)
    requires
        metric_ok(d),
        node_wf(*node, d),
        0 <= lo <= hi <= node.children@.len(),
        forall|t: int| 0 <= t < lo ==> (#[trigger] node.children@[t]).dist < d(q, node.key) - r,
        forall|t: int|
            hi <= t < node.children@.len() ==> (#[trigger] node.children@[t]).dist > d(
                q,
                node.key,
            ) + r,
        search_inv(d, q, r, found0, all, sd.push(node)),
        stack_entries(snew) == stack_entries(sd) + seq_entries(
            node.children@.subrange(lo, hi),
        ),
    ensures
        d(q, node.key) <= r ==> search_inv(
            d,
            q,
            r,
            found0.push((node.key, node.value)),
            all,
            snew,
        ),
        d(q, node.key) > r ==> search_inv(d, q, r, found0, all, snew),
{
    broadcast use vstd::seq_lib::group_to_multiset_ensures, vstd::multiset::group_multiset_axioms;

    reveal(search_inv);
    let ch = node.children@;
    let nc = ch.len() as int;
    let rootent = seq![(node.key, node.value)];
    let pred = |e: (K, V)| d(q, e.0) <= r;
    lemma_stack_push(sd, node);
    lemma_within_concat(d, q, stack_entries(sd), node_entries(*node), r);
    assert(node_entries(*node) == rootent + seq_entries(ch));
    lemma_within_concat(d, q, rootent, seq_entries(ch), r);
    let kept = ch.subrange(lo, hi);
    let pruned_lo = ch.subrange(0, lo);
    let pruned_hi = ch.subrange(hi, nc);
    assert(ch =~= pruned_lo + kept + pruned_hi);
    lemma_seq_entries_concat(pruned_lo + kept, pruned_hi);
    lemma_seq_entries_concat(pruned_lo, kept);
    lemma_within_concat(
        d,
        q,
        seq_entries(pruned_lo) + seq_entries(kept),
        seq_entries(pruned_hi),
        r,
    );
    lemma_within_concat(d, q, seq_entries(pruned_lo), seq_entries(kept), r);
    assert forall|c: int| 0 <= c < lo || hi <= c < nc implies within(
        d,
        q,
        node_entries(ch[c]),
        r,
    ).len() == 0 by {
        lemma_subtree_far(*node, d, q, c, r);
    }
    lemma_forest_within_empty_range(d, q, ch, 0, lo, r);
    lemma_forest_within_empty_range(d, q, ch, hi, nc, r);
    let plo_ms = within(d, q, seq_entries(pruned_lo), r).to_multiset();
    let phi_ms = within(d, q, seq_entries(pruned_hi), r).to_multiset();
    assert(plo_ms.len() == 0);
    assert(phi_ms.len() == 0);
    vstd::multiset::lemma_multiset_empty_len(plo_ms);
    vstd::multiset::lemma_multiset_empty_len(phi_ms);
    assert(plo_ms == Multiset::<(K, V)>::empty());
    assert(phi_ms == Multiset::<(K, V)>::empty());
    lemma_empty_to_multiset::<K, V>();
    lemma_within_concat(d, q, stack_entries(sd), seq_entries(kept), r);
    if d(q, node.key) <= r {
        assert(rootent =~= Seq::<(K, V)>::empty().push((node.key, node.value)));
        Seq::<(K, V)>::empty().lemma_filter_push((node.key, node.value), pred);
        Seq::<(K, V)>::empty().lemma_all_neg_filter_empty(pred);
        assert(within(d, q, rootent, r) =~= Seq::<(K, V)>::empty().push((node.key, node.value)));
        assert_multisets_equal!(
            found0.push((node.key, node.value)).to_multiset().add(
                within(d, q, stack_entries(snew), r).to_multiset()),
            within(d, q, all, r).to_multiset()
        );
    } else {
        assert forall|j: int| 0 <= j < rootent.len() implies !pred(rootent[j]) by {}
        assert(rootent.all(|e: (K, V)| !pred(e))) by {
            reveal(Seq::all);
        }
        rootent.lemma_all_neg_filter_empty(pred);
        assert(within(d, q, rootent, r) =~= Seq::<(K, V)>::empty());
        assert_multisets_equal!(
            found0.to_multiset().add(
                within(d, q, stack_entries(snew), r).to_multiset()),
            within(d, q, all, r).to_multiset()
        );
    }
}

/// The sorted child list cut down to the window `[lb, ub]` of edge
/// distances: everything before the window is below `lb`, everything
/// after it is above `ub`.
fn child_window<K, V>(node: &BKNode<K, V>, lb: usize, ub: usize) -> (w: (usize, usize))
    requires
        forall|i: int, j: int|
            0 <= i < j < node.children@.len() ==> (#[trigger] node.children@[i]).dist < (
            #[trigger] node.children@[j]).dist,
    ensures
        w.0 <= w.1 <= node.children@.len(),
        forall|t: int| 0 <= t < w.0 ==> (#[trigger] node.children@[t]).dist < lb,
        forall|t: int|
            w.0 <= t < w.1 ==> lb <= (#[trigger] node.children@[t]).dist <= ub,
        forall|t: int|
            w.1 <= t < node.children@.len() ==> (#[trigger] node.children@[t]).dist > ub,
{
    let nc = node.children.len();
    let mut lo: usize = 0;
    while lo < nc && node.children[lo].dist < lb
        invariant
            lo <= nc,
            nc == node.children@.len(),
            forall|t: int| 0 <= t < lo ==> (#[trigger] node.children@[t]).dist < lb,
        decreases nc - lo,
    {
        lo += 1;
    }
    let mut hi: usize = lo;
    while hi < nc && node.children[hi].dist <= ub
        invariant
            lo <= hi <= nc,
            nc == node.children@.len(),
            forall|t: int| lo <= t < hi ==> (#[trigger] node.children@[t]).dist <= ub,
        decreases nc - hi,
    {
        hi += 1;
    }
    proof {
        assert forall|t: int| lo <= t < hi implies lb <= (#[trigger] node.children@[t]).dist by {
            assert(!(node.children@[lo as int].dist < lb));
            if t > lo {
                assert(node.children@[lo as int].dist < node.children@[t].dist);
            }
        }
        assert forall|t: int| hi <= t < node.children@.len() implies (
        #[trigger] node.children@[t]).dist > ub by {
            assert(node.children@[hi as int].dist > ub);
            if t > hi {
                assert(node.children@[hi as int].dist < node.children@[t].dist);
            }
        }
    }
    (lo, hi)
}

/// Push the children of `node` with indices in `[lo, hi)` onto the stack,
/// in order.
fn push_window<'a, K, V>(
    stack: &mut Vec<&'a BKNode<K, V>>,
    node: &'a BKNode<K, V>,
    lo: usize,
    hi: usize,
)
    requires
        lo <= hi <= node.children@.len(),
    ensures
        final(stack)@.len() == old(stack)@.len() + (hi - lo),
        forall|i: int| 0 <= i < old(stack)@.len() ==> final(stack)@[i] == old(stack)@[i],
        forall|i: int|
            old(stack)@.len() <= i < final(stack)@.len() ==> *(#[trigger] final(stack)@[i])
                == node.children@[lo + i - old(stack)@.len()],
        stack_entries(final(stack)@) == stack_entries(old(stack)@) + seq_entries(
            node.children@.subrange(lo as int, hi as int),
        ),
{
    let ghost sd = stack@;
    let ghost ch = node.children@;
    proof {
        assert(ch.subrange(lo as int, lo as int) =~= Seq::<BKNode<K, V>>::empty());
        assert(stack_entries(sd) + seq_entries(ch.subrange(lo as int, lo as int)) =~= stack_entries(
            sd,
        ));
    }
    let mut t: usize = lo;
    while t < hi
        invariant
            lo <= t <= hi <= ch.len(),
            ch == node.children@,
            sd == old(stack)@,
            stack@.len() == sd.len() + (t - lo),
            forall|i: int| 0 <= i < sd.len() ==> stack@[i] == sd[i],
            forall|i: int|
                sd.len() <= i < stack@.len() ==> *(#[trigger] stack@[i]) == ch[lo + i - sd.len()],
            stack_entries(stack@) == stack_entries(sd) + seq_entries(
                ch.subrange(lo as int, t as int),
            ),
        decreases hi - t,
    {
        proof {
            lemma_stack_push(stack@, &node.children[t as int]);
            assert(ch.subrange(lo as int, t + 1) =~= ch.subrange(lo as int, t as int) + seq![
                ch[t as int],
            ]);
            lemma_seq_entries_concat(ch.subrange(lo as int, t as int), seq![ch[t as int]]);
            lemma_seq_entries_singleton(ch[t as int]);
            assert((stack_entries(sd) + seq_entries(ch.subrange(lo as int, t as int)))
                + node_entries(ch[t as int]) =~= stack_entries(sd) + (seq_entries(
                ch.subrange(lo as int, t as int),
            ) + node_entries(ch[t as int])));
        }
        stack.push(&node.children[t]);
        t += 1;
    }
}

proof fn lemma_result_entries_push<K, V>(s: Seq<(usize, &K, &V)>, t: (usize, &K, &V))
    ensures
        result_entries(s.push(t)) == result_entries(s).push((*t.1, *t.2)),
{
    assert forall|i: int| 0 <= i < s.len() + 1 implies result_entries(s.push(t))[i]
        == result_entries(s).push((*t.1, *t.2))[i] by {
        if i < s.len() {
            assert(s.push(t)[i] == s[i]);
        } else {
            assert(s.push(t)[i] == t);
        }
    }
    assert(result_entries(s.push(t)) =~= result_entries(s).push((*t.1, *t.2)));
}

/// A filter that rejects nothing keeps the whole sequence.
proof fn lemma_within_all<K, V>(d: spec_fn(K, K) -> nat, q: K, s: Seq<(K, V)>, r: int)
    requires
        forall|j: int| 0 <= j < s.len() ==> d(q, (#[trigger] s[j]).0) <= r,
    ensures
        within(d, q, s, r) == s,
    decreases s.len(),
{
    let pred = |e: (K, V)| d(q, e.0) <= r;
    if s.len() == 0 {
        s.lemma_filter_len(pred);
        assert(within(d, q, s, r) =~= s);
    } else {
        let s0 = s.drop_last();
        lemma_within_all(d, q, s0, r);
        s0.lemma_filter_push(s.last(), pred);
        assert(s0.push(s.last()) =~= s);
        assert(pred(s.last()));
        assert(within(d, q, s, r) =~= s);
    }
}

/// How often an entry occurs among the radius-filtered entries: with its
/// full multiplicity when it is within the radius, never otherwise.
pub(crate) proof fn lemma_within_count<K, V>(d: spec_fn(K, K) -> nat, q: K, s: Seq<(K, V)>, r: int, e: (K, V))
    ensures
        within(d, q, s, r).to_multiset().count(e) == if d(q, e.0) <= r {
            s.to_multiset().count(e)
        } else {
            0
        },
    decreases s.len(),
{
    broadcast use vstd::seq_lib::group_to_multiset_ensures, vstd::multiset::group_multiset_axioms;

    let pred = |e: (K, V)| d(q, e.0) <= r;
    if s.len() == 0 {
        s.lemma_filter_len(pred);
        assert(within(d, q, s, r).to_multiset().len() == 0);
        assert(s.to_multiset().len() == 0);
    } else {
        let s0 = s.drop_last();
        lemma_within_count(d, q, s0, r, e);
        s0.lemma_filter_push(s.last(), pred);
        assert(s0.push(s.last()) =~= s);
        assert(s.to_multiset() == s0.to_multiset().insert(s.last()));
        if pred(s.last()) {
            assert(within(d, q, s, r).to_multiset() == within(d, q, s0, r).to_multiset().insert(
                s.last(),
            ));
        }
    }
}

proof fn lemma_result_entries_insert<K, V>(s: Seq<(usize, &K, &V)>, p: int, t: (usize, &K, &V))
    requires
        0 <= p <= s.len(),
    ensures
        result_entries(s.insert(p, t)) == result_entries(s).insert(p, (*t.1, *t.2)),
{
    s.insert_ensures(p, t);
    result_entries(s).insert_ensures(p, (*t.1, *t.2));
    assert forall|i: int| 0 <= i < s.len() + 1 implies result_entries(s.insert(p, t))[i]
        == result_entries(s).insert(p, (*t.1, *t.2))[i] by {
        if i < p {
        } else if i == p {
        } else {
            assert(s.insert(p, t)[i] == s[i - 1]);
            assert(result_entries(s).insert(p, (*t.1, *t.2))[i] == result_entries(s)[i - 1]);
        }
    }
    assert(result_entries(s.insert(p, t)) =~= result_entries(s).insert(p, (*t.1, *t.2)));
}

/// A result list's entries split around any position.
proof fn lemma_result_entries_split<K, V>(s: Seq<(usize, &K, &V)>, k: int)
    requires
        0 <= k <= s.len(),
    ensures
        result_entries(s).to_multiset() == result_entries(s.take(k)).to_multiset().add(
            result_entries(s.skip(k)).to_multiset(),
        ),
{
    assert(result_entries(s) =~= result_entries(s.take(k)) + result_entries(s.skip(k)));
    vstd::seq_lib::lemma_multiset_commutative(
        result_entries(s.take(k)),
        result_entries(s.skip(k)),
    );
}


/// Sorted ascending by reported distance.
pub open spec fn sorted_by_dist<K, V>(s: Seq<(usize, &K, &V)>) -> bool {
    forall|a: int, b: int| 0 <= a < b < s.len() ==> (#[trigger] s[a]).0 <= (#[trigger] s[b]).0
}

/// Everything at or past position `count` sits at the boundary distance.
pub open spec fn ties_ok<K, V>(s: Seq<(usize, &K, &V)>, count: int) -> bool {
    forall|j: int| count <= j < s.len() ==> (#[trigger] s[j]).0 == s[count - 1].0
}

/// Inserting a candidate at its sorted position keeps the list sorted;
/// when no cut follows, the boundary ties stay whole, and the boundary
/// distance never grows.
proof fn lemma_nearest_insert<K, V>(
    res0: Seq<(usize, &K, &V)>,
    res1: Seq<(usize, &K, &V)>,
    t: (usize, &K, &V),
    p: int,
    count: int,
)
    requires
        count >= 1,
        0 <= p <= res0.len(),
        sorted_by_dist(res0),
        ties_ok(res0, count),
        forall|j: int| 0 <= j < p ==> (#[trigger] res0[j]).0 <= t.0,
        forall|j: int| p <= j < res0.len() ==> t.0 < (#[trigger] res0[j]).0,
        res0.len() >= count ==> t.0 <= res0[count - 1].0,
        res1 == res0.insert(p, t),
    ensures
        sorted_by_dist(res1),
        res1.len() == res0.len() + 1,
        res1.len() > count && res1[count].0 == res1[count - 1].0 ==> ties_ok(res1, count),
        res0.len() >= count ==> res1[count - 1].0 <= res0[count - 1].0,
        res1.len() > count ==> res1[count].0 >= res1[count - 1].0,
{
    res0.insert_ensures(p, t);
    assert forall|a: int, b: int| 0 <= a < b < res1.len() implies (#[trigger] res1[a]).0 <= (
    #[trigger] res1[b]).0 by {
        if b < p {
        } else if a > p {
            assert(res1[a] == res0[a - 1] && res1[b] == res0[b - 1]);
        } else if a < p && b == p {
            assert(res1[a] == res0[a] && res1[b] == t);
        } else if a == p {
            assert(res1[a] == t && res1[b] == res0[b - 1]);
        } else {
            assert(res1[a] == res0[a] && res1[b] == res0[b - 1]);
        }
    }
    if res0.len() >= count {
        assert(res1[count - 1].0 <= res0[count - 1].0) by {
            if p <= count - 1 {
                if count - 1 == p {
                    assert(res1[count - 1] == t);
                } else {
                    assert(res1[count - 1] == res0[count - 2]);
                }
            } else {
                assert(res1[count - 1] == res0[count - 1]);
            }
        }
    }
    if res1.len() > count && res1[count].0 == res1[count - 1].0 {
        let t0 = res0[count - 1].0;
        assert(res0.len() >= count);
        assert forall|j: int| count < j < res1.len() implies (#[trigger] res1[j]).0 == t0 by {
            if j < p {
                assert(res1[j] == res0[j]);
            } else if j == p {
                // the candidate itself sits past the boundary: it is at
                // most the old boundary distance and at least the entry
                // at `count`, which the old ties pin to the boundary
                assert(res0.len() > count);
                assert(res1[count as int] == res0[count as int]);
                assert(res0[count as int].0 == t0);
                assert(res1[count as int].0 <= res1[j].0);
            } else {
                assert(res1[j] == res0[j - 1]);
            }
        }
        assert(res1[count - 1].0 == t0) by {
            if p <= count - 1 {
                assert(res1[count as int] == res0[count - 1]);
                assert(res1[count as int].0 == res1[count - 1].0);
            } else {
                assert(res1[count - 1] == res0[count - 1]);
            }
        }
        assert forall|j: int| count <= j < res1.len() implies (#[trigger] res1[j]).0 == res1[count
            - 1].0 by {
            if j > count {
                assert(res1[j].0 == t0);
            }
        }
    }
}

/// A lazy, resumable radius search: the traversal stack, the query and
/// radius, and a fresh metric instance of its own, so that it can run
/// while the map is only borrowed. Each call to `next` resumes the
/// depth-first traversal exactly where it stopped.
pub struct BKFuzzy<'a, K, V, MM> {
    metric: MM,
    stack: Vec<&'a BKNode<K, V>>,
    key: K,
    distance: usize,
    found: Ghost<Seq<(K, V)>>,
    all: Ghost<Seq<(K, V)>>,
}

impl<'a, K, V, MM: Metric<K>> BKFuzzy<'a, K, V, MM> {
    pub closed spec fn query(&self) -> K {
        self.key
    }

    pub closed spec fn radius(&self) -> int {
        self.distance as int
    }

    pub closed spec fn dist_fn(&self) -> spec_fn(K, K) -> nat {
        self.metric.dist_fn()
    }

    /// The matches produced so far, in the order they were produced.
    pub closed spec fn found(&self) -> Seq<(K, V)> {
        self.found@
    }

    /// The entries of the map this search was started on.
    pub closed spec fn all(&self) -> Seq<(K, V)> {
        self.all@
    }

    pub closed spec fn done(&self) -> bool {
        self.stack@.len() == 0
    }

    /// How many entries are still pending; each produced match comes out
    /// of this stock.
    pub closed spec fn pending(&self) -> nat {
        stack_entries(self.stack@).len()
    }

    pub closed spec fn wf(&self) -> bool {
        &&& metric_ok(self.metric.dist_fn())
        &&& forall|i: int|
            0 <= i < self.stack@.len() ==> node_wf(
                *(#[trigger] self.stack@[i]),
                self.metric.dist_fn(),
            )
        &&& forall|i: int, e: (K, V)|
            0 <= i < self.stack@.len() && #[trigger] node_entries(*self.stack@[i]).contains(e)
                ==> self.metric.fits_fn()(self.key, e.0)
        &&& forall|i: int, e: (K, V)|
            0 <= i < self.stack@.len() && #[trigger] node_entries(*self.stack@[i]).contains(e)
                ==> self.all@.contains(e)
        &&& search_inv(
            self.metric.dist_fn(),
            self.key,
            self.distance as int,
            self.found@,
            self.all@,
            self.stack@,
        )
    }

    /// Produce the next match, or `None` when the traversal is finished.
    /// Every match is a stored entry, reported with its true distance,
    /// which is within the radius; after `None` the multiset of all
    /// matches produced equals the radius-filtered entries of the map.
    pub fn next(&mut self) -> (r: Option<(usize, &'a K, &'a V)>)
        requires
            old(self).wf(),
        ensures
            final(self).wf(),
            final(self).dist_fn() == old(self).dist_fn(),
            final(self).query() == old(self).query(),
            final(self).radius() == old(self).radius(),
            final(self).all() == old(self).all(),
            match r {
                Some(t) => {
                    &&& t.0 == old(self).dist_fn()(old(self).query(), *t.1)
                    &&& t.0 <= old(self).radius()
                    &&& old(self).all().contains((*t.1, *t.2))
                    &&& final(self).found() == old(self).found().push((*t.1, *t.2))
                    &&& final(self).found().len() <= final(self).all().len()
                    &&& final(self).pending() < old(self).pending()
                },
                None => {
                    &&& final(self).done()
                    &&& final(self).found() == old(self).found()
                    &&& final(self).found().to_multiset() == within(
                        old(self).dist_fn(),
                        old(self).query(),
                        old(self).all(),
                        old(self).radius(),
                    ).to_multiset()
                },
            },
            old(self).done() ==> r is None,
    {
        let ghost dfn = self.metric.dist_fn();
        let ghost q = self.key;
        let ghost rr = self.distance as int;
        let ghost pending0 = stack_entries(self.stack@).len();
        loop
            invariant
                self.wf(),
                self.metric.dist_fn() == dfn,
                self.metric.fits_fn() == old(self).metric.fits_fn(),
                self.key == q,
                dfn == old(self).dist_fn(),
                q == old(self).query(),
                self.distance == old(self).distance,
                rr == self.distance as int,
                self.all@ == old(self).all(),
                self.found@ == old(self).found(),
                stack_entries(self.stack@).len() <= pending0,
                pending0 == old(self).pending(),
                old(self).done() ==> self.stack@.len() == 0,
            decreases stack_entries(self.stack@).len(),
        {
            let ghost stack0 = self.stack@;
            match self.stack.pop() {
                None => {
                    proof {
                        assert(self.stack@ == stack0);
                        assert(dfn == self.metric.dist_fn());
                        assert(rr == self.distance as int);
                        assert(search_inv(dfn, q, rr, self.found@, self.all@, self.stack@));
                        lemma_search_done(dfn, q, rr, self.found@, self.all@, self.stack@);
                    }
                    return None;
                }
                Some(node) => {
                    proof {
                        assert(self.stack@ =~= stack0.drop_last());
                        assert(stack0.drop_last().push(stack0.last()) =~= stack0);
                        assert(node == stack0[stack0.len() - 1]);
                        assert(node_wf(*node, dfn));
                        assert(node_entries(*node).contains((node.key, node.value))) by {
                            assert(node_entries(*node)[0] == (node.key, node.value));
                        }
                    }
                    let d = self.metric.distance(&self.key, &node.key);
                    let lb = d.saturating_sub(self.distance);
                    let ub = d.saturating_add(self.distance);
                    let (lo, hi) = child_window(node, lb, ub);
                    let ghost sd = self.stack@;
                    push_window(&mut self.stack, node, lo, hi);
                    proof {
                        let ch = node.children@;
                        assert(sd.push(node) =~= stack0);
                        assert forall|t: int| 0 <= t < lo implies (#[trigger] ch[t]).dist < dfn(
                            q,
                            node.key,
                        ) - rr by {
                            assert(ch[t].dist < lb);
                            assert(ch[t].dist >= 1);
                            assert(lb > 0);
                        }
                        assert forall|t: int| hi <= t < ch.len() implies (#[trigger] ch[t]).dist
                            > dfn(q, node.key) + rr by {
                            assert(ch[t].dist > ub);
                        }
                        lemma_step_len(sd, self.stack@, node, lo as int, hi as int);
                        assert(rr == self.distance as int);
                        assert(search_inv(dfn, q, rr, self.found@, self.all@, stack0));
                        assert(search_inv(dfn, q, rr, self.found@, self.all@, sd.push(node)));
                        lemma_step_accounting(
                            dfn,
                            q,
                            rr,
                            self.found@,
                            self.all@,
                            sd,
                            self.stack@,
                            node,
                            lo as int,
                            hi as int,
                        );
                        lemma_seq_entries_mem(ch);
                        assert forall|i: int| 0 <= i < self.stack@.len() implies node_wf(
                            *(#[trigger] self.stack@[i]),
                            dfn,
                        ) by {
                            if i < sd.len() {
                                assert(self.stack@[i] == sd[i]);
                                assert(sd[i] == stack0[i]);
                            } else {
                                assert(*self.stack@[i] == ch[lo + i - sd.len()]);
                            }
                        }
                        assert forall|i: int, e: (K, V)|
                            0 <= i < self.stack@.len() && #[trigger] node_entries(
                                *self.stack@[i],
                            ).contains(e) implies self.metric.fits_fn()(self.key, e.0)
                            && self.all@.contains(e) by {
                            if i < sd.len() {
                                assert(self.stack@[i] == sd[i]);
                                assert(sd[i] == stack0[i]);
                                assert(node_entries(*stack0[i]).contains(e));
                            } else {
                                let c = lo + i - sd.len();
                                assert(*self.stack@[i] == ch[c]);
                                assert(node_entries(ch[c]).contains(e));
                                assert(seq_entries(ch).contains(e));
                                let j = choose|j: int|
                                    0 <= j < seq_entries(ch).len() && seq_entries(ch)[j] == e;
                                assert(node_entries(*node)[1 + j] == e);
                                assert(node_entries(*node).contains(e));
                                assert(node_entries(*stack0[stack0.len() - 1]).contains(e));
                            }
                        }
                    }
                    if d <= self.distance {
                        proof {
                            self.found@ = self.found@.push((node.key, node.value));
                            lemma_found_le(dfn, q, rr, self.found@, self.all@, self.stack@);
                        }
                        return Some((d, &node.key, &node.value));
                    }
                }
            }
        }
    }
}

impl<K, V, M: BuildMetric<K>> BKMap<K, V, M> {
    /// Start a radius search: a lazy sequence of `(distance, key, value)`
    /// for stored entries whose distance to `key` is at most `distance`.
    /// The search owns a freshly built metric instance, so the map stays
    /// merely borrowed.
    pub fn fuzzy_search_distance<'a>(&'a self, key: K, distance: usize) -> (it: BKFuzzy<
        'a,
        K,
        V,
        M::Metric,
    >)
        requires
            self.wf(),
            metric_ok(self.dist_fn()),
            fits_all(self.fits_fn(), key, self@),
        ensures
            it.wf(),
            it.dist_fn() == self.dist_fn(),
            it.query() == key,
            it.radius() == distance as int,
            it.all() == self@,
            it.found() == Seq::<(K, V)>::empty(),
            it.pending() == self@.len(),
    {
        proof {
            lemma_map_parts(self);
        }
        let metric = self.build_metric.build();
        let mut stack: Vec<&BKNode<K, V>> = Vec::new();
        proof {
            assert(stack_entries(stack@) == Seq::<(K, V)>::empty());
        }
        match &self.root {
            Some(n) => {
                proof {
                    lemma_stack_push(stack@, n);
                    assert(Seq::<(K, V)>::empty() + node_entries(*n) =~= node_entries(*n));
                }
                stack.push(n);
            }
            None => {}
        }
        proof {
            lemma_search_init(metric.dist_fn(), key, distance as int, self@, stack@);
        }
        BKFuzzy { metric, stack, key, distance, found: Ghost(Seq::empty()), all: Ghost(self@) }
    }

    /// Collect every match of a radius search into a vector. Each element
    /// carries a stored entry and its true distance to `key`, at most
    /// `radius`, and taken together the entries are exactly those whose
    /// distance to `key` is within `radius` — what a linear scan of all
    /// stored entries would select.
    pub fn search_within<'a>(&'a self, key: K, radius: usize) -> (res: Vec<(usize, &'a K, &'a V)>)
        requires
            self.wf(),
            metric_ok(self.dist_fn()),
            fits_all(self.fits_fn(), key, self@),
        ensures
            forall|i: int|
                0 <= i < res@.len() ==> (#[trigger] res@[i]).0 == self.dist_fn()(
                    key,
                    *res@[i].1,
                ) && res@[i].0 <= radius && self@.contains((*res@[i].1, *res@[i].2)),
            result_entries(res@).to_multiset() == within(
                self.dist_fn(),
                key,
                self@,
                radius as int,
            ).to_multiset(),
    {
        let ghost dfn = self.dist_fn();
        let mut it = self.fuzzy_search_distance(key, radius);
        let mut res: Vec<(usize, &K, &V)> = Vec::new();
        proof {
            assert(result_entries(res@) =~= it.found());
        }
        loop
            invariant
                it.wf(),
                it.all() == self@,
                it.query() == key,
                it.radius() == radius as int,
                it.dist_fn() == dfn,
                dfn == self.dist_fn(),
                result_entries(res@) == it.found(),
                res@.len() == it.found().len(),
                forall|i: int|
                    0 <= i < res@.len() ==> (#[trigger] res@[i]).0 == dfn(key, *res@[i].1)
                        && res@[i].0 <= radius && self@.contains((*res@[i].1, *res@[i].2)),
            decreases it.all().len() + 1 - it.found().len(),
        {
            match it.next() {
                None => {
                    return res;
                }
                Some(t) => {
                    proof {
                        lemma_result_entries_push(res@, t);
                    }
                    res.push(t);
                }
            }
        }
    }

    /// The `count` entries nearest to `key`, sorted ascending by
    /// distance, with every tie at the boundary distance included even
    /// when that exceeds `count`; when fewer than `count` entries exist,
    /// all of them. Equal to the brute-force top-`count` by distance.
    #[verifier::rlimit(100)]
    pub fn search_nearest<'a>(&'a self, key: K, count: usize) -> (res: Vec<(usize, &'a K, &'a V)>)
        requires
            self.wf(),
            metric_ok(self.dist_fn()),
            fits_all(self.fits_fn(), key, self@),
        ensures
            sorted_by_dist(res@),
            forall|j: int|
                0 <= j < res@.len() ==> (#[trigger] res@[j]).0 == self.dist_fn()(
                    key,
                    *res@[j].1,
                ) && self@.contains((*res@[j].1, *res@[j].2)),
            count == 0 ==> res@.len() == 0,
            count > 0 && self@.len() <= count ==> result_entries(res@).to_multiset()
                == self@.to_multiset(),
            count > 0 && self@.len() > count ==> res@.len() >= count && result_entries(
                res@,
            ).to_multiset() == within(
                self.dist_fn(),
                key,
                self@,
                res@[count - 1].0 as int,
            ).to_multiset() && ties_ok(res@, count as int),
    {
        let ghost dfn = self.dist_fn();
        if count == 0 {
            let res: Vec<(usize, &K, &V)> = Vec::new();
            return res;
        }
        let cands = self.search_within(key, usize::MAX);
        proof {
            lemma_map_parts(self);
            assert forall|j: int| 0 <= j < self@.len() implies dfn(
                key,
                (#[trigger] self@[j]).0,
            ) <= usize::MAX by {
                assert(self@.contains(self@[j]));
                self.metric.dist_bounded(key, self@[j].0);
            }
            lemma_within_all(dfn, key, self@, usize::MAX as int);
            assert(result_entries(cands@).to_multiset() == self@.to_multiset());
        }
        let n = cands.len();
        let mut res: Vec<(usize, &K, &V)> = Vec::new();
        let ghost mut pe: Seq<(K, V)> = Seq::empty();
        let ghost mut excl: Multiset<(K, V)> = Multiset::empty();
        proof {
            assert(pe =~= result_entries(cands@.take(0)));
            assert(result_entries(res@) =~= Seq::<(K, V)>::empty());
            lemma_empty_to_multiset::<K, V>();
            assert(pe.to_multiset() =~= result_entries(res@).to_multiset().add(excl));
        }
        let mut i: usize = 0;
        while i < n
            invariant
                n == cands@.len(),
                i <= n,
                count >= 1,
                dfn == self.dist_fn(),
                forall|j: int|
                    0 <= j < cands@.len() ==> (#[trigger] cands@[j]).0 == dfn(key, *cands@[j].1)
                        && self@.contains((*cands@[j].1, *cands@[j].2)),
                result_entries(cands@).to_multiset() == self@.to_multiset(),
                sorted_by_dist(res@),
                forall|j: int|
                    0 <= j < res@.len() ==> (#[trigger] res@[j]).0 == dfn(key, *res@[j].1)
                        && self@.contains((*res@[j].1, *res@[j].2)),
                ties_ok(res@, count as int),
                pe == result_entries(cands@.take(i as int)),
                pe.to_multiset() == result_entries(res@).to_multiset().add(excl),
                res@.len() < count ==> excl == Multiset::<(K, V)>::empty(),
                forall|e: (K, V)|
                    #[trigger] excl.count(e) > 0 ==> res@.len() >= count && dfn(key, e.0)
                        > res@[count - 1].0,
            decreases n - i,
        {
            let t = cands[i];
            let ghost et = (*t.1, *t.2);
            let ghost pe0 = pe;
            let ghost res0 = res@;
            let ghost excl0 = excl;
            proof {
                assert(cands@.take(i + 1) =~= cands@.take(i as int).push(t));
                lemma_result_entries_push(cands@.take(i as int), t);
                pe = pe.push(et);
                pe0.to_multiset_ensures();
                assert(pe.to_multiset() == pe0.to_multiset().insert(et));
                assert(cands@[i as int] == t);
                assert(t.0 == dfn(key, et.0));
            }
            let keep = res.len() < count || t.0 <= res[count - 1].0;
            if keep {
                let mut p: usize = 0;
                let rl = res.len();
                while p < rl && res[p].0 <= t.0
                    invariant
                        p <= rl,
                        rl == res@.len(),
                        forall|j: int| 0 <= j < p ==> (#[trigger] res@[j]).0 <= t.0,
                    decreases rl - p,
                {
                    p += 1;
                }
                proof {
                    assert(sorted_by_dist(res0));
                    assert forall|j: int| p <= j < res0.len() implies t.0 < (
                    #[trigger] res0[j]).0 by {
                        assert(res0[p as int].0 > t.0);
                        if j > p {
                            assert(res0[p as int].0 <= res0[j].0);
                        }
                    }
                    lemma_result_entries_insert(res0, p as int, t);
                    vstd::seq_lib::to_multiset_insert(result_entries(res0), p as int, et);
                }
                res.insert(p, t);
                let ghost res1 = res@;
                proof {
                    assert(res1 == res0.insert(p as int, t));
                    lemma_nearest_insert(res0, res1, t, p as int, count as int);
                    assert(result_entries(res1).to_multiset() == result_entries(
                        res0,
                    ).to_multiset().insert(et));
                    assert_multisets_equal!(
                        pe.to_multiset(),
                        result_entries(res1).to_multiset().add(excl)
                    );
                    res0.insert_ensures(p as int, t);
                }
                if res.len() > count && res[count].0 > res[count - 1].0 {
                    proof {
                        lemma_result_entries_split(res1, count as int);
                        let dropped = result_entries(res1.skip(count as int));
                        dropped.to_multiset_ensures();
                        assert forall|e: (K, V)| #[trigger] dropped.to_multiset().count(e) > 0
                            implies dfn(key, e.0) > res1[count - 1].0 by {
                            assert(dropped.contains(e));
                            let j = choose|j: int| 0 <= j < dropped.len() && dropped[j] == e;
                            assert(e == (*res1[count + j].1, *res1[count + j].2));
                            assert(res1[count as int].0 <= res1[count + j].0);
                        }
                        excl = excl.add(dropped.to_multiset());
                    }
                    res.truncate(count);
                    proof {
                        assert(res@ == res1.subrange(0, count as int));
                        assert(res@ =~= res1.take(count as int));
                        assert_multisets_equal!(
                            pe.to_multiset(),
                            result_entries(res@).to_multiset().add(excl)
                        );
                        assert(res@[count - 1] == res1[count - 1]);
                        assert forall|e: (K, V)| #[trigger] excl.count(e) > 0 implies res@.len()
                            >= count && dfn(key, e.0) > res@[count - 1].0 by {
                            if excl0.count(e) > 0 {
                                assert(dfn(key, e.0) > res0[count - 1].0);
                                assert(res1[count - 1].0 <= res0[count - 1].0);
                            }
                        }
                    }
                } else {
                    proof {
                        if res1.len() > count {
                            assert(res1[count as int].0 >= res1[count - 1].0);
                            assert(res1[count as int].0 == res1[count - 1].0);
                            assert(ties_ok(res1, count as int));
                        }
                        assert forall|e: (K, V)| #[trigger] excl.count(e) > 0 implies res@.len()
                            >= count && dfn(key, e.0) > res@[count - 1].0 by {
                            assert(excl0.count(e) > 0);
                            assert(res0.len() >= count);
                            assert(dfn(key, e.0) > res0[count - 1].0);
                            assert(res1[count - 1].0 <= res0[count - 1].0);
                        }
                    }
                }
            } else {
                proof {
                    excl = excl.insert(et);
                    assert_multisets_equal!(
                        pe.to_multiset(),
                        result_entries(res@).to_multiset().add(excl)
                    );
                    assert forall|e: (K, V)| #[trigger] excl.count(e) > 0 implies res@.len()
                        >= count && dfn(key, e.0) > res@[count - 1].0 by {
                        if e != et {
                            assert(excl0.count(e) > 0);
                        }
                    }
                }
            }
            i += 1;
        }
        proof {
            assert(cands@.take(n as int) =~= cands@);
            assert(pe.to_multiset() == self@.to_multiset());
            assert(result_entries(res@).len() == res@.len());
            result_entries(res@).to_multiset_ensures();
            self@.to_multiset_ensures();
            broadcast use vstd::multiset::group_multiset_axioms;

            if self@.len() <= count {
                assert(excl =~= Multiset::<(K, V)>::empty()) by {
                    if excl.len() > 0 {
                        let e = excl.choose();
                        assert(excl.count(e) > 0);
                        assert(res@.len() >= count);
                        assert(self@.to_multiset().len() == result_entries(res@).to_multiset().len()
                            + excl.len());
                    }
                }
                assert_multisets_equal!(result_entries(res@).to_multiset(), self@.to_multiset());
            } else {
                assert(res@.len() >= count) by {
                    if res@.len() < count {
                        assert(excl == Multiset::<(K, V)>::empty());
                        assert_multisets_equal!(
                            self@.to_multiset(),
                            result_entries(res@).to_multiset()
                        );
                    }
                }
                let tt = res@[count - 1].0 as int;
                assert forall|e: (K, V)| true implies result_entries(res@).to_multiset().count(e)
                    == within(dfn, key, self@, tt).to_multiset().count(e) by {
                    lemma_within_count(dfn, key, self@, tt, e);
                    if dfn(key, e.0) <= tt {
                        assert(excl.count(e) == 0) by {
                            if excl.count(e) > 0 {
                                assert(dfn(key, e.0) > res@[count - 1].0);
                            }
                        }
                        assert(self@.to_multiset().count(e) == result_entries(
                            res@,
                        ).to_multiset().count(e) + excl.count(e));
                    } else {
                        assert(result_entries(res@).to_multiset().count(e) == 0) by {
                            if result_entries(res@).to_multiset().count(e) > 0 {
                                assert(result_entries(res@).contains(e));
                                let j = choose|j: int|
                                    0 <= j < result_entries(res@).len() && result_entries(
                                        res@,
                                    )[j] == e;
                                assert(e == (*res@[j].1, *res@[j].2));
                                assert(res@[j].0 == dfn(key, e.0));
                                assert(res@[j].0 <= res@[count - 1].0) by {
                                    if j < count - 1 {
                                        assert(res@[j].0 <= res@[count - 1].0);
                                    } else if j >= count {
                                        assert(res@[j].0 == res@[count - 1].0);
                                    }
                                }
                            }
                        }
                    }
                }
                assert(result_entries(res@).to_multiset() =~= within(
                    dfn,
                    key,
                    self@,
                    tt,
                ).to_multiset());
            }
        }
        res
    }
}

} // verus!
