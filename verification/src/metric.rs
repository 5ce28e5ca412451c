//! The metric abstraction: a capability that computes a non-negative integer
//! distance between two keys, together with the laws (symmetry, triangle
//! inequality, zero on equal arguments) that all tree pruning relies on.

use vstd::prelude::*;

verus! {

/// A distance computation over keys of type `K`.
///
/// A metric instance may own mutable scratch state that it reuses across
/// calls; the mathematical distance it computes, `dist_fn()`, must not
/// depend on that state, which is what `distance`'s contract demands.
pub trait Metric<K>: Sized {
    /// The mathematical distance this instance computes.
    spec fn dist_fn(&self) -> spec_fn(K, K) -> nat;

    /// The pairs of keys on which `distance` can be computed without the
    /// result or an intermediate value exceeding `usize`.
    spec fn fits_fn(&self) -> spec_fn(K, K) -> bool;

    /// Compute the distance from `a` to `b`. Scratch state may change, but
    /// the distance function and its domain bound do not.
    fn distance(&mut self, a: &K, b: &K) -> (d: usize)
        requires
            old(self).fits_fn()(*a, *b),
        ensures
            d == old(self).dist_fn()(*a, *b),
            final(self).dist_fn() == old(self).dist_fn(),
            final(self).fits_fn() == old(self).fits_fn(),
    ;

    /// Wherever the domain bound holds, the distance itself fits in
    /// `usize` — it is what `distance` would return.
    proof fn dist_bounded(&self, a: K, b: K)
        requires
            self.fits_fn()(a, b),
        ensures
            self.dist_fn()(a, b) <= usize::MAX,
    ;
}

/// A factory that manufactures fresh, independent instances of one and the
/// same metric; searches that must own a resumable metric while the map is
/// only borrowed obtain theirs here.
pub trait BuildMetric<K>: Sized {
    type Metric: Metric<K>;

    /// The distance function every built instance computes.
    spec fn dist_fn(&self) -> spec_fn(K, K) -> nat;

    /// The domain bound every built instance has.
    spec fn fits_fn(&self) -> spec_fn(K, K) -> bool;

    fn build(&self) -> (m: Self::Metric)
        ensures
            m.dist_fn() == self.dist_fn(),
            m.fits_fn() == self.fits_fn(),
    ;
}

/// The contract a distance function must satisfy for pruned search to be
/// exact: zero on equal arguments, symmetric, and obeying the triangle
/// inequality. A caller who supplies a degenerate metric violates this
/// precondition and may silently miss matches; the violation is not
/// detectable at run time.
#[verifier::opaque]
pub open spec fn metric_ok<K>(d: spec_fn(K, K) -> nat) -> bool {
    &&& forall|a: K| #[trigger] d(a, a) == 0
    &&& forall|a: K, b: K| #[trigger] d(a, b) == d(b, a)
    &&& forall|a: K, b: K, c: K| #![trigger d(a, b), d(b, c)] d(a, c) <= d(a, b) + d(b, c)
}

} // verus!
