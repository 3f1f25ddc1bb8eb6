//! The abstract scalar arithmetic that the filter is generic over.

use vstd::prelude::*;

verus! {

/// Arithmetic on the array's element type.
///
/// The filter never fixes a concrete numeric type; callers implement this
/// trait for theirs (typically a wrapper around a machine floating-point
/// type). Each executable method is pinned to an uninterpreted per-impl
/// spec function, which states exactly one thing: the operation is a
/// deterministic function of its arguments. Nothing else is assumed of the
/// arithmetic, so everything proved about the filter holds whatever the
/// implementor computes — but only as far as the implementor keeps these
/// contracts, which nothing here verifies.
pub trait Scalar: Sized + Copy {
    /// The value `zero` returns.
    spec fn sp_zero() -> Self;

    /// The value `a.add(b)` returns.
    spec fn sp_add(a: Self, b: Self) -> Self;

    /// The value `a.mul(b)` returns.
    spec fn sp_mul(a: Self, b: Self) -> Self;

    /// The value `a.div(b)` returns.
    spec fn sp_div(a: Self, b: Self) -> Self;

    /// The value `gauss_point(sigma, k)` returns: the Gaussian
    /// `exp(-0.5 * k^2 / sigma^2)` evaluated at integer offset `k`,
    /// a function of the squared offset alone.
    spec fn sp_gauss_point(sigma: Self, k: usize) -> Self;

    /// The value `kernel_radius(sigma, truncate)` returns:
    /// `floor(truncate * sigma + 0.5)` as a machine integer.
    spec fn sp_kernel_radius(sigma: Self, truncate: Self) -> usize;

    /// The additive identity of the implementor's arithmetic.
    fn zero() -> (r: Self)
        ensures
            r == Self::sp_zero(),
    ;

    /// Addition.
    fn add(self, other: Self) -> (r: Self)
        ensures
            r == Self::sp_add(self, other),
    ;

    /// Multiplication.
    fn mul(self, other: Self) -> (r: Self)
        ensures
            r == Self::sp_mul(self, other),
    ;

    /// Division.
    fn div(self, other: Self) -> (r: Self)
        ensures
            r == Self::sp_div(self, other),
    ;

    /// The unnormalized Gaussian density at integer offset `k` from the
    /// kernel center: `exp(-0.5 * k^2 / sigma^2)`. Taking the magnitude
    /// `k` rather than a signed offset makes the kernel's symmetry hold
    /// by construction.
    fn gauss_point(sigma: Self, k: usize) -> (r: Self)
        ensures
            r == Self::sp_gauss_point(sigma, k),
    ;

    /// The kernel half-width derived from `sigma` and `truncate`:
    /// `floor(truncate * sigma + 0.5)`.
    fn kernel_radius(sigma: Self, truncate: Self) -> (r: usize)
        ensures
            r == Self::sp_kernel_radius(sigma, truncate),
    ;
}

} // verus!
