use vstd::prelude::*;

verus! {

/// The arithmetic that the matrix operations need from their element type.
///
/// Each operation is a function of its arguments alone: its result is the
/// matching `spec_` function applied to them. What those functions compute
/// is up to the implementation, so the contracts of the matrix operations
/// say in which order and on which elements the operations are applied.
pub trait Scalar: Copy {
    spec fn spec_zero() -> Self;

    spec fn spec_plus(self, other: Self) -> Self;

    spec fn spec_minus(self, other: Self) -> Self;

    spec fn spec_times(self, other: Self) -> Self;

    spec fn spec_divide(self, other: Self) -> Self;

    spec fn spec_sqrt(self) -> Self;

    spec fn spec_is_positive(self) -> bool;

    /// The additive identity.
    fn zero() -> (r: Self)
        ensures
            r == Self::spec_zero(),
    ;

    /// The sum of `self` and `other`.
    fn plus(self, other: Self) -> (r: Self)
        ensures
            r == self.spec_plus(other),
    ;

    /// `self` less `other`.
    fn minus(self, other: Self) -> (r: Self)
        ensures
            r == self.spec_minus(other),
    ;

    /// The product of `self` and `other`.
    fn times(self, other: Self) -> (r: Self)
        ensures
            r == self.spec_times(other),
    ;

    /// `self` divided by `other`.
    fn divide(self, other: Self) -> (r: Self)
        ensures
            r == self.spec_divide(other),
    ;

    /// The non-negative square root.
    fn sqrt(self) -> (r: Self)
        ensures
            r == self.spec_sqrt(),
    ;

    /// Whether the value is strictly greater than zero.
    fn is_positive(self) -> (r: bool)
        ensures
            r == self.spec_is_positive(),
    ;
}

/// A source of values drawn uniformly from `[0, 1)`.
///
/// Each call yields a fresh, independent draw; nothing about its value is
/// promised to the proofs.
pub trait UnitSample: Sized {
    /// One draw from `[0, 1)`.
    fn sample_unit() -> Self;
}

} // verus!
