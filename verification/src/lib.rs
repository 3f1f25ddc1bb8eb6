//! Separable Gaussian smoothing for dense N-dimensional arrays.
//!
//! The filter builds a normalized, symmetric 1-D Gaussian kernel from a
//! standard deviation `sigma` and a truncation factor `truncate`, then
//! convolves the array along each axis in ascending order, extending each
//! lane at both ends by reflection.
//!
//! Element arithmetic is abstracted behind the [`scalar::Scalar`] trait, so
//! the algorithm and its contracts are stated over uninterpreted scalar
//! operations; callers instantiate the trait with their numeric type.

pub mod array;
pub mod convolve;
pub mod filter;
pub mod kernel;
pub mod pass;
pub mod scalar;

pub use array::NdArray;
pub use filter::gaussian_filter;
pub use filter::InsufficientExtent;

use vstd::prelude::*;

verus! {

/// The sum of a sequence of scalars, folded left to right starting from
/// `Scalar::sp_zero`, exactly as the executable accumulation loops do.
pub open spec fn sum_seq<A: scalar::Scalar>(s: Seq<A>) -> A
    decreases s.len(),
{
    if s.len() == 0 {
        A::sp_zero()
    } else {
        A::sp_add(sum_seq(s.drop_last()), s.last())
    }
}

/// Folds a vector of scalars into their sum, left to right.
pub fn sum_vec<A: scalar::Scalar>(v: &Vec<A>) -> (s: A)
    ensures
        s == sum_seq(v@),
{
    let mut s = A::zero();
    let mut i: usize = 0;
    while i < v.len()
        invariant
            i <= v.len(),
            s == sum_seq(v@.subrange(0, i as int)),
        decreases v.len() - i,
    {
        proof {
            assert(v@.subrange(0, i + 1).drop_last() =~= v@.subrange(0, i as int));
        }
        s = s.add(v[i]);
        i = i + 1;
    }
    proof {
        assert(v@.subrange(0, v@.len() as int) =~= v@);
    }
    s
}

} // verus!
