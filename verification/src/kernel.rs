//! The 1-D Gaussian convolution kernel.
//!
//! From `sigma` and a half-width `radius`, the kernel builder produces the
//! weight sequence `w[i] = phi(|i - radius|) / sum(phi)` of length
//! `2 * radius + 1`, where `phi` is the unnormalized Gaussian density at an
//! integer offset from the center. Because each weight is computed from the
//! magnitude of its offset alone, the sequence is symmetric about its
//! center, exactly.

use vstd::prelude::*;
use crate::scalar::Scalar;
use crate::sum_seq;
use crate::sum_vec;

verus! {

/// The magnitude of the offset of index `i` from the kernel center `radius`.
pub open spec fn offset_mag(i: int, radius: usize) -> usize {
    if i < radius {
        (radius - i) as usize
    } else {
        (i - radius) as usize
    }
}

/// The unnormalized kernel: the Gaussian density at each integer offset in
/// `-radius ..= radius`, ordered by offset.
pub open spec fn phi_seq<A: Scalar>(sigma: A, radius: usize) -> Seq<A> {
    Seq::new(2 * radius as nat + 1, |i: int| A::sp_gauss_point(sigma, offset_mag(i, radius)))
}

/// The normalized kernel: each density divided by the sum of all of them.
pub open spec fn weight_seq<A: Scalar>(sigma: A, radius: usize) -> Seq<A> {
    let phis = phi_seq::<A>(sigma, radius);
    Seq::new(phis.len(), |i: int| A::sp_div(phis[i], sum_seq(phis)))
}

/// The kernel is symmetric about its center: the weights at offsets `-k`
/// and `+k` from the center are equal, exactly, because both are computed
/// from the magnitude `k`.
pub proof fn lemma_weights_symmetric<A: Scalar>(sigma: A, radius: usize, k: int)
    requires
        0 <= k <= radius,
    ensures
        weight_seq::<A>(sigma, radius)[radius - k] == weight_seq::<A>(sigma, radius)[radius + k],
{
    assert(offset_mag(radius - k, radius) == offset_mag(radius + k, radius));
}

/// Computes the normalized 1-D Gaussian convolution kernel.
pub fn weights<A: Scalar>(sigma: A, radius: usize) -> (w: Vec<A>)
    requires
        2 * radius + 1 <= usize::MAX,
    ensures
        w@ == weight_seq::<A>(sigma, radius),
        w@.len() == 2 * radius + 1,
{
    let len = 2 * radius + 1;
    let mut phis: Vec<A> = Vec::new();
    let mut i: usize = 0;
    while i < len
        invariant
            i <= len,
            len == 2 * radius + 1,
            phis@ =~= phi_seq::<A>(sigma, radius).subrange(0, i as int),
        decreases len - i,
    {
        let k = if i < radius {
            radius - i
        } else {
            i - radius
        };
        assert(k == offset_mag(i as int, radius));
        phis.push(A::gauss_point(sigma, k));
        i = i + 1;
    }
    proof {
        assert(phis@ =~= phi_seq::<A>(sigma, radius));
    }
    let total = sum_vec(&phis);
    let mut w: Vec<A> = Vec::new();
    let mut i: usize = 0;
    while i < len
        invariant
            i <= len,
            len == 2 * radius + 1,
            phis@ == phi_seq::<A>(sigma, radius),
            total == sum_seq(phi_seq::<A>(sigma, radius)),
            w@ =~= weight_seq::<A>(sigma, radius).subrange(0, i as int),
        decreases len - i,
    {
        w.push(phis[i].div(total));
        i = i + 1;
    }
    proof {
        assert(w@ =~= weight_seq::<A>(sigma, radius));
    }
    w
}

} // verus!
