//! The numeric capability a working domain must provide.

use vstd::prelude::*;

verus! {

/// The specification-level text of a value's display form.
pub type DisplayText = Seq<char>;

/// The capability set a numeric domain (a real scalar, a complex scalar)
/// must satisfy to take part in generation, evaluation and rendering.
///
/// Each executable operation is pinned to a spec-level counterpart, so
/// that everything built on top of the trait — the evaluator, the
/// renderer, the search drivers — carries exact contracts that are
/// parametric in the domain. An implementation outside this crate is not
/// itself verified: what it computes is taken as the meaning of its spec
/// functions.
///
/// Arithmetic is total in the programmatic sense: division and power at
/// domain singularities propagate the domain's non-finite values rather
/// than failing. Distances between such values must simply never compare
/// below a finite distance (`spec_dist_lt` decides every comparison; a
/// not-a-number distance is never an improvement).
pub trait Number: Sized + Copy {
    /// The scalar type of a distance between two values of the domain.
    type Dist: Copy;

    /// What `plus` returns.
    spec fn spec_plus(self, other: Self) -> Self;

    /// What `minus` returns.
    spec fn spec_minus(self, other: Self) -> Self;

    /// What `times` returns.
    spec fn spec_times(self, other: Self) -> Self;

    /// What `divided_by` returns.
    spec fn spec_divided_by(self, other: Self) -> Self;

    /// What `negated` returns.
    spec fn spec_negated(self) -> Self;

    /// What `sqrt` returns.
    spec fn spec_sqrt(self) -> Self;

    /// What `pow` returns.
    spec fn spec_pow(self, exponent: Self) -> Self;

    /// What `distance` returns.
    spec fn spec_distance(self, other: Self) -> Self::Dist;

    /// The strict order on distances that `dist_lt` decides.
    spec fn spec_dist_lt(a: Self::Dist, b: Self::Dist) -> bool;

    /// What `worst_dist` returns.
    spec fn spec_worst_dist() -> Self::Dist;

    /// The display form that `to_latex` returns.
    spec fn spec_display(self) -> DisplayText;

    /// What `from_small_int` returns.
    spec fn spec_from_small_int(n: u32) -> Self;

    /// Field addition.
    fn plus(self, other: Self) -> (r: Self)
        ensures
            r == self.spec_plus(other),
    ;

    /// Field subtraction.
    fn minus(self, other: Self) -> (r: Self)
        ensures
            r == self.spec_minus(other),
    ;

    /// Field multiplication.
    fn times(self, other: Self) -> (r: Self)
        ensures
            r == self.spec_times(other),
    ;

    /// Field division; a zero divisor propagates the domain's
    /// non-finite values.
    fn divided_by(self, other: Self) -> (r: Self)
        ensures
            r == self.spec_divided_by(other),
    ;

    /// Unary negation.
    fn negated(self) -> (r: Self)
        ensures
            r == self.spec_negated(),
    ;

    /// Principal square root; for a real domain a negative input yields
    /// the domain's not-a-number value, with no complexification.
    fn sqrt(&self) -> (r: Self)
        ensures
            r == self.spec_sqrt(),
    ;

    /// Generalized power, with the domain's own singularity behaviour.
    fn pow(&self, exponent: &Self) -> (r: Self)
        ensures
            r == self.spec_pow(*exponent),
    ;

    /// A non-negative scalar measuring closeness: absolute difference
    /// for reals, magnitude of the difference for complex numbers. The
    /// sole acceptance metric in search; `distance(a, a)` must be the
    /// domain's zero distance.
    fn distance(&self, other: &Self) -> (r: Self::Dist)
        ensures
            r == self.spec_distance(*other),
    ;

    /// Whether distance `a` is strictly below `b`. A not-a-number
    /// distance on the left must answer false: such a candidate is never
    /// an improvement.
    fn dist_lt(a: Self::Dist, b: Self::Dist) -> (r: bool)
        ensures
            r == Self::spec_dist_lt(a, b),
    ;

    /// The seed of every search record: a distance that any acceptable
    /// candidate improves on, and that an unacceptable one — a
    /// not-a-number — does not. No candidate is ever reported or
    /// selected without strictly improving on it.
    fn worst_dist() -> (r: Self::Dist)
        ensures
            r == Self::spec_worst_dist(),
    ;

    /// Embeds a small machine integer into the domain (a real: the cast;
    /// a complex: the real part, with zero imaginary part).
    fn from_small_int(n: u32) -> (r: Self)
        ensures
            r == Self::spec_from_small_int(n),
    ;

    /// The rendering of the value for the infix and LaTeX output.
    fn to_latex(&self) -> (r: String)
        ensures
            r@ == self.spec_display(),
    ;
}

} // verus!
