use vstd::prelude::*;
use crate::params::Params;

verus! {

/// The real-number arithmetic that the estimator runs on. The library never
/// inspects values: it only combines them through these operations, so any
/// implementation (a binary float, a decimal, an interval) can be plugged in.
/// Each operation's result depends on its operands alone; the `spec_`
/// functions name those results, so that contracts can be stated over them.
pub trait Scalar: Copy + Sized {
    spec fn spec_zero() -> Self;

    spec fn spec_one() -> Self;

    spec fn spec_count(n: usize) -> Self;

    spec fn spec_plus(self, other: Self) -> Self;

    spec fn spec_minus(self, other: Self) -> Self;

    spec fn spec_times(self, other: Self) -> Self;

    spec fn spec_over(self, other: Self) -> Self;

    spec fn spec_negligible(self) -> bool;

    /// The additive identity.
    fn zero() -> (r: Self)
        ensures
            r == Self::spec_zero(),
    ;

    /// The multiplicative identity.
    fn one() -> (r: Self)
        ensures
            r == Self::spec_one(),
    ;

    /// The value of a sample count.
    fn count(n: usize) -> (r: Self)
        ensures
            r == Self::spec_count(n),
    ;

    fn plus(self, other: Self) -> (r: Self)
        ensures
            r == self.spec_plus(other),
    ;

    fn minus(self, other: Self) -> (r: Self)
        ensures
            r == self.spec_minus(other),
    ;

    fn times(self, other: Self) -> (r: Self)
        ensures
            r == self.spec_times(other),
    ;

    fn over(self, other: Self) -> (r: Self)
        ensures
            r == self.spec_over(other),
    ;

    /// Whether a variance is too close to zero to divide by.
    fn is_negligible(self) -> (r: bool)
        ensures
            r == self.spec_negligible(),
    ;
}

/// A stream of independent draws from the uniform distribution on `[0, 1]`.
pub trait UnitSource<S> {
    fn unit(&mut self) -> S;
}

/// A simulation with a scalar output, configured from a realization. The
/// output is a function of the realization alone: `spec_setup` and
/// `spec_run` name it.
pub trait Model<S>: Sized {
    spec fn spec_setup(params: &Params<S>) -> Self;

    spec fn spec_run(&self) -> S;

    fn setup(params: &Params<S>) -> (r: Self)
        ensures
            r == Self::spec_setup(params),
    ;

    fn run(&self) -> (r: S)
        ensures
            r == self.spec_run(),
    ;
}

} // verus!
