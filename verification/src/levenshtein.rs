//! Weighted Levenshtein edit distance between byte sequences, with
//! independently configurable insertion, deletion and substitution costs,
//! computed with a single reusable scratch row.

use vstd::prelude::*;
use crate::metric::{BuildMetric, Metric};

verus! {

/// Cost of replacing `x` by `y`: zero when they are equal, `cs` otherwise.
pub open spec fn sub_cost(x: u8, y: u8, cs: nat) -> nat {
    if x == y {
        0
    } else {
        cs
    }
}

pub open spec fn min3(x: nat, y: nat, z: nat) -> nat {
    if x <= y && x <= z {
        x
    } else if y <= z {
        y
    } else {
        z
    }
}

proof fn lemma_min3_le(x: nat, y: nat, z: nat)
    ensures
        min3(x, y, z) <= x,
        min3(x, y, z) <= y,
        min3(x, y, z) <= z,
        min3(x, y, z) == x || min3(x, y, z) == y || min3(x, y, z) == z,
{
}

/// The minimum total cost of transforming `a` into `b` by insertions
/// (cost `ci`), deletions (cost `cd`) and substitutions (cost `cs`),
/// stated by the classic recurrence on the last elements.
pub open spec fn lev(a: Seq<u8>, b: Seq<u8>, ci: nat, cd: nat, cs: nat) -> nat
    decreases a.len() + b.len(),
{
    if a.len() == 0 {
        b.len() * ci
    } else if b.len() == 0 {
        a.len() * cd
    } else {
        min3(
            lev(a.drop_last(), b, ci, cd, cs) + cd,
            lev(a, b.drop_last(), ci, cd, cs) + ci,
            lev(a.drop_last(), b.drop_last(), ci, cd, cs) + sub_cost(a.last(), b.last(), cs),
        )
    }
}

proof fn lemma_mul_le(x: nat, y: nat, c: nat)
    requires
        x <= y,
    ensures
        x * c <= y * c,
{
    assert(x * c <= y * c) by (nonlinear_arith)
        requires
            x <= y,
    ;
}

/// The distance never exceeds the cost of deleting all of `a` and
/// inserting all of `b`.
pub proof fn lemma_lev_le(a: Seq<u8>, b: Seq<u8>, ci: nat, cd: nat, cs: nat)
    ensures
        lev(a, b, ci, cd, cs) <= a.len() * cd + b.len() * ci,
    decreases a.len() + b.len(),
{
    if a.len() == 0 {
    } else if b.len() == 0 {
    } else {
        lemma_lev_le(a.drop_last(), b, ci, cd, cs);
        assert((a.len() - 1) * cd + cd == a.len() * cd) by (nonlinear_arith)
            requires
                a.len() >= 1,
        ;
    }
}

/// The distance from any sequence to itself is zero.
pub proof fn lemma_lev_self(a: Seq<u8>, ci: nat, cd: nat, cs: nat)
    ensures
        lev(a, a, ci, cd, cs) == 0,
    decreases a.len(),
{
    if a.len() == 0 {
    } else {
        lemma_lev_self(a.drop_last(), ci, cd, cs);
    }
}

/// With equal insertion and deletion costs the distance is symmetric.
pub proof fn lemma_lev_sym(a: Seq<u8>, b: Seq<u8>, c: nat, cs: nat)
    ensures
        lev(a, b, c, c, cs) == lev(b, a, c, c, cs),
    decreases a.len() + b.len(),
{
    if a.len() == 0 || b.len() == 0 {
    } else {
        lemma_lev_sym(a.drop_last(), b, c, cs);
        lemma_lev_sym(a, b.drop_last(), c, cs);
        lemma_lev_sym(a.drop_last(), b.drop_last(), c, cs);
    }
}

/// Growing the source by one element costs at most one deletion.
proof fn lemma_lev_del_step(a: Seq<u8>, c: Seq<u8>, ci: nat, cd: nat, cs: nat)
    requires
        a.len() >= 1,
    ensures
        lev(a, c, ci, cd, cs) <= lev(a.drop_last(), c, ci, cd, cs) + cd,
{
    if c.len() == 0 {
        assert((a.len() - 1) * cd + cd == a.len() * cd) by (nonlinear_arith)
            requires
                a.len() >= 1,
        ;
    } else {
        assert(lev(a, c, ci, cd, cs) == min3(
            lev(a.drop_last(), c, ci, cd, cs) + cd,
            lev(a, c.drop_last(), ci, cd, cs) + ci,
            lev(a.drop_last(), c.drop_last(), ci, cd, cs) + sub_cost(a.last(), c.last(), cs),
        ));
        lemma_min3_le(
            lev(a.drop_last(), c, ci, cd, cs) + cd,
            lev(a, c.drop_last(), ci, cd, cs) + ci,
            lev(a.drop_last(), c.drop_last(), ci, cd, cs) + sub_cost(a.last(), c.last(), cs),
        );
    }
}

/// Growing the target by one element costs at most one insertion.
proof fn lemma_lev_ins_step(a: Seq<u8>, c: Seq<u8>, ci: nat, cd: nat, cs: nat)
    requires
        c.len() >= 1,
    ensures
        lev(a, c, ci, cd, cs) <= lev(a, c.drop_last(), ci, cd, cs) + ci,
{
    if a.len() == 0 {
        assert((c.len() - 1) * ci + ci == c.len() * ci) by (nonlinear_arith)
            requires
                c.len() >= 1,
        ;
    } else {
        assert(lev(a, c, ci, cd, cs) == min3(
            lev(a.drop_last(), c, ci, cd, cs) + cd,
            lev(a, c.drop_last(), ci, cd, cs) + ci,
            lev(a.drop_last(), c.drop_last(), ci, cd, cs) + sub_cost(a.last(), c.last(), cs),
        ));
        lemma_min3_le(
            lev(a.drop_last(), c, ci, cd, cs) + cd,
            lev(a, c.drop_last(), ci, cd, cs) + ci,
            lev(a.drop_last(), c.drop_last(), ci, cd, cs) + sub_cost(a.last(), c.last(), cs),
        );
    }
}

/// The distance pays at least the insertions that the length difference
/// forces.
proof fn lemma_lev_ins_lower(x: Seq<u8>, y: Seq<u8>, ci: nat, cd: nat, cs: nat)
    ensures
        lev(x, y, ci, cd, cs) + x.len() * ci >= y.len() * ci,
    decreases x.len() + y.len(),
{
    if x.len() == 0 {
    } else if y.len() == 0 {
    } else {
        lemma_lev_ins_lower(x.drop_last(), y, ci, cd, cs);
        lemma_lev_ins_lower(x, y.drop_last(), ci, cd, cs);
        lemma_lev_ins_lower(x.drop_last(), y.drop_last(), ci, cd, cs);
        assert((x.len() - 1) * ci + ci == x.len() * ci) by (nonlinear_arith)
            requires
                x.len() >= 1,
        ;
        assert((y.len() - 1) * ci + ci == y.len() * ci) by (nonlinear_arith)
            requires
                y.len() >= 1,
        ;
    }
}

/// The distance pays at least the deletions that the length difference
/// forces.
proof fn lemma_lev_del_lower(x: Seq<u8>, y: Seq<u8>, ci: nat, cd: nat, cs: nat)
    ensures
        lev(x, y, ci, cd, cs) + y.len() * cd >= x.len() * cd,
    decreases x.len() + y.len(),
{
    if x.len() == 0 {
    } else if y.len() == 0 {
    } else {
        lemma_lev_del_lower(x.drop_last(), y, ci, cd, cs);
        lemma_lev_del_lower(x, y.drop_last(), ci, cd, cs);
        lemma_lev_del_lower(x.drop_last(), y.drop_last(), ci, cd, cs);
        assert((x.len() - 1) * cd + cd == x.len() * cd) by (nonlinear_arith)
            requires
                x.len() >= 1,
        ;
        assert((y.len() - 1) * cd + cd == y.len() * cd) by (nonlinear_arith)
            requires
                y.len() >= 1,
        ;
    }
}

/// The triangle inequality: editing `a` into `b` and then `b` into `c`
/// is one way of editing `a` into `c`.
pub proof fn lemma_lev_triangle(a: Seq<u8>, b: Seq<u8>, c: Seq<u8>, ci: nat, cd: nat, cs: nat)
    ensures
        lev(a, c, ci, cd, cs) <= lev(a, b, ci, cd, cs) + lev(b, c, ci, cd, cs),
    decreases a.len() + b.len() + c.len(),
{
    if b.len() == 0 {
        lemma_lev_le(a, c, ci, cd, cs);
    } else if a.len() == 0 {
        lemma_lev_ins_lower(b, c, ci, cd, cs);
    } else if c.len() == 0 {
        lemma_lev_del_lower(a, b, ci, cd, cs);
    } else {
        let lab = lev(a, b, ci, cd, cs);
        let lbc = lev(b, c, ci, cd, cs);
        let a1 = a.drop_last();
        let b1 = b.drop_last();
        let c1 = c.drop_last();
        if lab == lev(a1, b, ci, cd, cs) + cd {
            lemma_lev_del_step(a, c, ci, cd, cs);
            lemma_lev_triangle(a1, b, c, ci, cd, cs);
        } else if lbc == lev(b, c1, ci, cd, cs) + ci {
            lemma_lev_ins_step(a, c, ci, cd, cs);
            lemma_lev_triangle(a, b, c1, ci, cd, cs);
        } else {
            assert(lab == lev(a, b1, ci, cd, cs) + ci || lab == lev(a1, b1, ci, cd, cs)
                + sub_cost(a.last(), b.last(), cs));
            assert(lbc == lev(b1, c, ci, cd, cs) + cd || lbc == lev(b1, c1, ci, cd, cs)
                + sub_cost(b.last(), c.last(), cs));
            if lab == lev(a, b1, ci, cd, cs) + ci {
                if lbc == lev(b1, c, ci, cd, cs) + cd {
                    lemma_lev_triangle(a, b1, c, ci, cd, cs);
                } else {
                    lemma_lev_ins_step(a, c, ci, cd, cs);
                    lemma_lev_triangle(a, b1, c1, ci, cd, cs);
                }
            } else {
                if lbc == lev(b1, c, ci, cd, cs) + cd {
                    lemma_lev_del_step(a, c, ci, cd, cs);
                    lemma_lev_triangle(a1, b1, c, ci, cd, cs);
                } else {
                    lemma_lev_triangle(a1, b1, c1, ci, cd, cs);
                    assert(lev(a, c, ci, cd, cs) <= lev(a1, c1, ci, cd, cs) + sub_cost(
                        a.last(),
                        c.last(),
                        cs,
                    ));
                }
            }
        }
    }
}

/// The recurrence restated on prefixes `a.take(i)`, `b.take(j)`, the form
/// in which the dynamic program fills its row.
proof fn lemma_lev_step(a: Seq<u8>, b: Seq<u8>, i: int, j: int, ci: nat, cd: nat, cs: nat)
    requires
        1 <= i <= a.len(),
        1 <= j <= b.len(),
    ensures
        lev(a.take(i), b.take(j), ci, cd, cs) == min3(
            lev(a.take(i - 1), b.take(j), ci, cd, cs) + cd,
            lev(a.take(i), b.take(j - 1), ci, cd, cs) + ci,
            lev(a.take(i - 1), b.take(j - 1), ci, cd, cs) + sub_cost(a[i - 1], b[j - 1], cs),
        ),
{
    assert(a.take(i).drop_last() =~= a.take(i - 1));
    assert(b.take(j).drop_last() =~= b.take(j - 1));
    assert(a.take(i).last() == a[i - 1]);
    assert(b.take(j).last() == b[j - 1]);
}

proof fn lemma_dp_bound(i: nat, j: nat, al: nat, bl: nat, ci: nat, cd: nat)
    requires
        i <= al,
        j <= bl,
    ensures
        i * cd + j * ci <= al * cd + bl * ci,
{
    lemma_mul_le(i, al, cd);
    lemma_mul_le(j, bl, ci);
}

/// The edit-distance configuration: three fixed non-negative costs. It
/// builds metric instances; it holds no scratch state itself.
#[derive(Clone, Copy, Debug)]
pub struct Levenshtein {
    pub ins: usize,
    pub del: usize,
    pub sub: usize,
}

impl Levenshtein {
    pub fn new(ins: usize, del: usize, sub: usize) -> (r: Self)
        ensures
            r.ins == ins && r.del == del && r.sub == sub,
    {
        Levenshtein { ins, del, sub }
    }
}

impl Default for Levenshtein {
    /// Unit costs, recovering the classic unweighted edit distance.
    fn default() -> (r: Self)
        ensures
            r.ins == 1 && r.del == 1 && r.sub == 1,
    {
        Levenshtein { ins: 1, del: 1, sub: 1 }
    }
}

/// A stateful edit-distance computer: the costs plus one scratch row that
/// is cleared and refilled at the start of every call, so that it is
/// reused across calls without reallocation and never carries stale data
/// into a later, differently sized computation.
#[derive(Debug)]
pub struct LevenshteinMetric {
    pub ins: usize,
    pub del: usize,
    pub sub: usize,
    cache: Vec<usize>,
}

impl BuildMetric<Vec<u8>> for Levenshtein {
    type Metric = LevenshteinMetric;

    open spec fn dist_fn(&self) -> spec_fn(Vec<u8>, Vec<u8>) -> nat {
        |x: Vec<u8>, y: Vec<u8>| lev(x@, y@, self.ins as nat, self.del as nat, self.sub as nat)
    }

    open spec fn fits_fn(&self) -> spec_fn(Vec<u8>, Vec<u8>) -> bool {
        |x: Vec<u8>, y: Vec<u8>|
            x@.len() * (self.del as nat) + y@.len() * (self.ins as nat) + (self.sub as nat)
                <= usize::MAX as nat
    }

    fn build(&self) -> (m: LevenshteinMetric) {
        let m = LevenshteinMetric { ins: self.ins, del: self.del, sub: self.sub, cache: Vec::new() };
        proof {
            assert(m.dist_fn() =~= BuildMetric::<Vec<u8>>::dist_fn(self));
            assert(m.fits_fn() =~= BuildMetric::<Vec<u8>>::fits_fn(self));
        }
        m
    }
}

/// With equal insertion and deletion costs the configured edit distance
/// satisfies the metric laws that exact pruned search relies on: zero on
/// equal arguments, symmetry, and the triangle inequality.
pub proof fn lemma_levenshtein_metric_ok(m: Levenshtein)
    requires
        m.ins == m.del,
    ensures
        crate::metric::metric_ok(BuildMetric::<Vec<u8>>::dist_fn(&m)),
{
    reveal(crate::metric::metric_ok);
    let d = BuildMetric::<Vec<u8>>::dist_fn(&m);
    let ci = m.ins as nat;
    let cs = m.sub as nat;
    assert forall|a: Vec<u8>| #[trigger] d(a, a) == 0 by {
        lemma_lev_self(a@, ci, ci, cs);
    }
    assert forall|a: Vec<u8>, b: Vec<u8>| #[trigger] d(a, b) == d(b, a) by {
        lemma_lev_sym(a@, b@, ci, cs);
    }
    assert forall|a: Vec<u8>, b: Vec<u8>, c: Vec<u8>|
        #![trigger d(a, b), d(b, c)]
        d(a, c) <= d(a, b) + d(b, c) by {
        lemma_lev_triangle(a@, b@, c@, ci, ci, cs);
    }
}

impl Metric<Vec<u8>> for LevenshteinMetric {
    closed spec fn dist_fn(&self) -> spec_fn(Vec<u8>, Vec<u8>) -> nat {
        |x: Vec<u8>, y: Vec<u8>| lev(x@, y@, self.ins as nat, self.del as nat, self.sub as nat)
    }

    closed spec fn fits_fn(&self) -> spec_fn(Vec<u8>, Vec<u8>) -> bool {
        |x: Vec<u8>, y: Vec<u8>|
            x@.len() * (self.del as nat) + y@.len() * (self.ins as nat) + (self.sub as nat)
                <= usize::MAX as nat
    }

    proof fn dist_bounded(&self, a: Vec<u8>, b: Vec<u8>) {
        lemma_lev_le(a@, b@, self.ins as nat, self.del as nat, self.sub as nat);
    }

    fn distance(&mut self, a: &Vec<u8>, b: &Vec<u8>) -> (d: usize) {
        let ghost ci: nat = self.ins as nat;
        let ghost cd: nat = self.del as nat;
        let ghost cs: nat = self.sub as nat;
        let alen = a.len();
        let blen = b.len();
        proof {
            lemma_mul_le(0, a@.len(), cd);
        }
        self.cache.clear();
        let mut base: usize = 0;
        let mut j: usize = 0;
        while j < blen
            invariant
                j <= blen,
                blen == b@.len(),
                alen == a@.len(),
                base == j * ci,
                self.ins == ci && self.del == cd && self.sub == cs,
                self.cache@.len() == j,
                forall|t: int|
                    0 <= t < j ==> self.cache@[t] == lev(a@.take(0), b@.take(t + 1), ci, cd, cs),
                a@.len() * cd + b@.len() * ci + cs <= usize::MAX,
            decreases blen - j,
        {
            proof {
                lemma_mul_le((j + 1) as nat, b@.len(), ci);
                assert(j * ci + ci == (j + 1) * ci) by (nonlinear_arith);
                assert(a@.take(0).len() == 0);
                assert(b@.take(j + 1).len() == j + 1);
            }
            base = base + self.ins;
            self.cache.push(base);
            j += 1;
        }
        let mut result: usize = base;
        proof {
            assert(b@.take(blen as int) =~= b@);
            assert(a@.take(0).len() == 0);
        }
        let mut i: usize = 0;
        let mut row0: usize = 0;
        while i < alen
            invariant
                i <= alen,
                blen == b@.len(),
                alen == a@.len(),
                row0 == i * cd,
                self.ins == ci && self.del == cd && self.sub == cs,
                self.cache@.len() == blen,
                forall|t: int|
                    0 <= t < blen ==> self.cache@[t] == lev(
                        a@.take(i as int),
                        b@.take(t + 1),
                        ci,
                        cd,
                        cs,
                    ),
                result == lev(a@.take(i as int), b@, ci, cd, cs),
                a@.len() * cd + b@.len() * ci + cs <= usize::MAX,
            decreases alen - i,
        {
            proof {
                lemma_mul_le((i + 1) as nat, a@.len(), cd);
                assert(i * cd + cd == (i + 1) * cd) by (nonlinear_arith);
            }
            let mut last: usize = row0;
            row0 = row0 + self.del;
            result = row0;
            proof {
                assert(a@.take(i as int).len() == i);
                assert(a@.take(i + 1).len() == i + 1);
                assert(b@.take(0).len() == 0);
                if blen == 0 {
                    assert(b@.take(0) =~= b@);
                }
                if i == 0 {
                    assert(lev(a@.take(0), b@.take(0), ci, cd, cs) == 0);
                } else {
                    assert(a@.take(i as int).len() > 0);
                    assert(lev(a@.take(i as int), b@.take(0), ci, cd, cs) == i * cd);
                }
            }
            let mut jj: usize = 0;
            while jj < blen
                invariant
                    jj <= blen,
                    i < alen,
                    blen == b@.len(),
                    alen == a@.len(),
                    row0 == (i + 1) * cd,
                    self.ins == ci && self.del == cd && self.sub == cs,
                    self.cache@.len() == blen,
                    last == lev(a@.take(i as int), b@.take(jj as int), ci, cd, cs),
                    result == lev(a@.take(i + 1), b@.take(jj as int), ci, cd, cs),
                    forall|t: int|
                        0 <= t < jj ==> self.cache@[t] == lev(
                            a@.take(i + 1),
                            b@.take(t + 1),
                            ci,
                            cd,
                            cs,
                        ),
                    forall|t: int|
                        jj <= t < blen ==> self.cache@[t] == lev(
                            a@.take(i as int),
                            b@.take(t + 1),
                            ci,
                            cd,
                            cs,
                        ),
                    a@.len() * cd + b@.len() * ci + cs <= usize::MAX,
                decreases blen - jj,
            {
                proof {
                    lemma_lev_le(a@.take(i as int), b@.take(jj as int), ci, cd, cs);
                    lemma_lev_le(a@.take(i as int), b@.take(jj + 1), ci, cd, cs);
                    lemma_lev_le(a@.take(i + 1), b@.take(jj as int), ci, cd, cs);
                    lemma_dp_bound(i as nat, jj as nat, a@.len(), b@.len(), ci, cd);
                    lemma_dp_bound(i as nat, (jj + 1) as nat, a@.len(), b@.len(), ci, cd);
                    lemma_dp_bound((i + 1) as nat, jj as nat, a@.len(), b@.len(), ci, cd);
                    lemma_dp_bound((i + 1) as nat, (jj + 1) as nat, a@.len(), b@.len(), ci, cd);
                    assert(i * cd + cd == (i + 1) * cd) by (nonlinear_arith);
                    assert(jj * ci + ci == (jj + 1) * ci) by (nonlinear_arith);
                }
                let sc = if a[i] == b[jj] {
                    0
                } else {
                    self.sub
                };
                let x = last + sc;
                let y = self.cache[jj] + self.del;
                let z = result + self.ins;
                let m = if x <= y {
                    x
                } else {
                    y
                };
                let m = if m <= z {
                    m
                } else {
                    z
                };
                proof {
                    lemma_lev_step(a@, b@, i + 1, jj + 1, ci, cd, cs);
                    assert(x == lev(a@.take(i as int), b@.take(jj as int), ci, cd, cs) + sub_cost(
                        a@[i as int],
                        b@[jj as int],
                        cs,
                    ));
                    assert(y == lev(a@.take(i as int), b@.take(jj + 1), ci, cd, cs) + cd);
                    assert(z == lev(a@.take(i + 1), b@.take(jj as int), ci, cd, cs) + ci);
                    assert(m <= x && m <= y && m <= z && (m == x || m == y || m == z));
                    assert(lev(a@.take(i + 1), b@.take(jj + 1), ci, cd, cs) == min3(
                        y as nat,
                        z as nat,
                        x as nat,
                    ));
                    assert(m == lev(a@.take(i + 1), b@.take(jj + 1), ci, cd, cs));
                }
                last = self.cache[jj];
                self.cache[jj] = m;
                result = m;
                jj += 1;
            }
            proof {
                assert(b@.take(blen as int) =~= b@);
            }
            i += 1;
        }
        proof {
            assert(a@.take(alen as int) =~= a@);
        }
        result
    }
}

} // verus!
