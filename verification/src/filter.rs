//! The filter entry point: separable Gaussian smoothing of an N-D array.
//!
//! The kernel is built once from `sigma` and `truncate`; the array is then
//! convolved along each axis in ascending order, the output of one pass
//! feeding the next. The kernel half-width must be smaller than every
//! axis's extent; otherwise the data is too small for the requested
//! smoothing and the whole operation fails with no partial result.

use vstd::prelude::*;
use crate::scalar::Scalar;
use crate::array::NdArray;
use crate::kernel::weight_seq;
use crate::kernel::weights;
use crate::pass::axis_pass;
use crate::pass::axis_pass_seq;

verus! {

/// The one error: some axis's extent is too small to accommodate the
/// kernel radius requested through `sigma` and `truncate`.
#[derive(Clone, Copy, Debug, PartialEq, Eq)]
pub struct InsufficientExtent;

/// Whether axis `d` can accommodate a kernel of half-width `radius`: the
/// extent must exceed the radius, and the reflect buffer's length
/// `extent + 2 * radius` must fit the machine's word.
pub open spec fn axis_fits(dims: Seq<usize>, d: int, radius: usize) -> bool {
    radius < dims[d] && dims[d] + 2 * radius <= usize::MAX
}

/// Whether every axis can accommodate a kernel of half-width `radius`.
pub open spec fn all_axes_fit(dims: Seq<usize>, radius: usize) -> bool {
    forall|d: int| 0 <= d < dims.len() ==> axis_fits(dims, d, radius)
}

/// The samples after smoothing passes along axes `0 .. d`, in ascending
/// order: axis 0 first, axis `d - 1` last.
pub open spec fn passes_upto<A: Scalar>(
    dims: Seq<usize>,
    data: Seq<A>,
    w: Seq<A>,
    d: int,
) -> Seq<A>
    decreases d,
{
    if d <= 0 {
        data
    } else {
        axis_pass_seq(dims, passes_upto(dims, data, w, d - 1), d - 1, w)
    }
}

/// The fully smoothed samples: every axis convolved, in ascending order,
/// with the normalized Gaussian kernel derived from `sigma` and `truncate`.
pub open spec fn filtered_seq<A: Scalar>(
    dims: Seq<usize>,
    data: Seq<A>,
    sigma: A,
    truncate: A,
) -> Seq<A> {
    let radius = A::sp_kernel_radius(sigma, truncate);
    passes_upto(dims, data, weight_seq::<A>(sigma, radius), dims.len() as int)
}

/// The smoothed samples are a function of the extents, the samples and the
/// two scalar parameters alone, with the axes always taken in ascending
/// order: two calls on equal inputs give equal outputs, bit for bit.
pub proof fn lemma_filter_deterministic<A: Scalar>(
    dims1: Seq<usize>,
    data1: Seq<A>,
    dims2: Seq<usize>,
    data2: Seq<A>,
    sigma: A,
    truncate: A,
)
    requires
        dims1 == dims2,
        data1 == data2,
    ensures
        filtered_seq(dims1, data1, sigma, truncate) == filtered_seq(dims2, data2, sigma, truncate),
{
}

/// Smoothing passes along axes `0 .. d` keep a constant array constant.
proof fn lemma_passes_constant<A: Scalar>(
    dims: Seq<usize>,
    data: Seq<A>,
    w: Seq<A>,
    radius: usize,
    c: A,
    d: int,
)
    requires
        dims.len() >= 1,
        data.len() == crate::array::prod_range(dims, 0, dims.len() as int),
        w.len() == 2 * radius + 1,
        forall|ax: int| 0 <= ax < dims.len() ==> radius < dims[ax],
        forall|p: int| 0 <= p < data.len() ==> data[p] == c,
        0 <= d <= dims.len(),
    ensures
        passes_upto(dims, data, w, d).len() == data.len(),
        forall|p: int, q: int|
            0 <= p < data.len() && 0 <= q < data.len() ==> passes_upto(dims, data, w, d)[p]
                == passes_upto(dims, data, w, d)[q],
    decreases d,
{
    if d > 0 {
        lemma_passes_constant(dims, data, w, radius, c, d - 1);
        let prev = passes_upto(dims, data, w, d - 1);
        if data.len() > 0 {
            let mid = prev[0];
            crate::pass::lemma_axis_pass_constant(dims, prev, d - 1, w, radius, mid);
        }
    }
}

/// Filtering a constant array yields a constant array: all output samples
/// are equal, exactly. That their common value is the input value itself —
/// the input scaled by the kernel's total weight, ideally one — is a
/// floating-point fact about the implementor's arithmetic, outside these
/// contracts.
pub proof fn lemma_filter_constant<A: Scalar>(
    dims: Seq<usize>,
    data: Seq<A>,
    sigma: A,
    truncate: A,
    c: A,
)
    requires
        dims.len() >= 1,
        data.len() == crate::array::prod_range(dims, 0, dims.len() as int),
        forall|ax: int|
            0 <= ax < dims.len() ==> A::sp_kernel_radius(sigma, truncate) < dims[ax],
        forall|p: int| 0 <= p < data.len() ==> data[p] == c,
    ensures
        filtered_seq(dims, data, sigma, truncate).len() == data.len(),
        forall|p: int, q: int|
            0 <= p < data.len() && 0 <= q < data.len() ==> filtered_seq(
                dims,
                data,
                sigma,
                truncate,
            )[p] == filtered_seq(dims, data, sigma, truncate)[q],
{
    let radius = A::sp_kernel_radius(sigma, truncate);
    let w = weight_seq::<A>(sigma, radius);
    assert(w.len() == 2 * radius + 1);
    lemma_passes_constant(dims, data, w, radius, c, dims.len() as int);
}

/// Smooths an N-dimensional array with a Gaussian kernel.
///
/// * `a` - The input N-D data.
/// * `sigma` - Standard deviation for the Gaussian kernel.
/// * `truncate` - Truncate the kernel at this many standard deviations.
///
/// Succeeds exactly when every axis accommodates the kernel half-width
/// `floor(truncate * sigma + 0.5)`; the result then has the input's shape
/// and holds the separably convolved samples. Otherwise the data is too
/// small for the requested smoothing and nothing of it is returned.
pub fn gaussian_filter<A: Scalar>(a: NdArray<A>, sigma: A, truncate: A) -> (r: Result<
    NdArray<A>,
    InsufficientExtent,
>)
    requires
        a.wf(),
    ensures
        match r {
            Ok(out) => {
                &&& all_axes_fit(a.dims@, A::sp_kernel_radius(sigma, truncate))
                &&& out.wf()
                &&& out.dims@ == a.dims@
                &&& out.data@ == filtered_seq(a.dims@, a.data@, sigma, truncate)
            },
            Err(_) => !all_axes_fit(a.dims@, A::sp_kernel_radius(sigma, truncate)),
        },
{
    let ghost dims0 = a.dims@;
    let ghost data0 = a.data@;
    let radius = A::kernel_radius(sigma, truncate);
    let ndim = a.dims.len();
    let mut d: usize = 0;
    while d < ndim
        invariant
            d <= ndim,
            ndim == a.dims@.len(),
            radius == A::sp_kernel_radius(sigma, truncate),
            forall|q: int| 0 <= q < d ==> axis_fits(a.dims@, q, radius),
        decreases ndim - d,
    {
        let ext = a.dims[d];
        if radius >= ext {
            proof {
                assert(!axis_fits(a.dims@, d as int, radius));
            }
            return Err(InsufficientExtent);
        }
        if radius > (usize::MAX - ext) / 2 {
            proof {
                assert(ext + 2 * radius > usize::MAX);
                assert(!axis_fits(a.dims@, d as int, radius));
            }
            return Err(InsufficientExtent);
        }
        d = d + 1;
    }
    proof {
        assert(all_axes_fit(dims0, radius));
        // every axis fits and there is at least one, so the kernel's own
        // length fits the machine word
        assert(axis_fits(dims0, 0, radius));
    }
    let w = weights(sigma, radius);
    let mut cur = a;
    let mut d: usize = 0;
    while d < ndim
        invariant
            d <= ndim,
            ndim == dims0.len(),
            radius == A::sp_kernel_radius(sigma, truncate),
            all_axes_fit(dims0, radius),
            w@ == weight_seq::<A>(sigma, radius),
            w@.len() == 2 * radius + 1,
            cur.wf(),
            cur.dims@ == dims0,
            cur.data@ == passes_upto(dims0, data0, w@, d as int),
        decreases ndim - d,
    {
        proof {
            assert(axis_fits(dims0, d as int, radius));
        }
        let nxt = axis_pass(&cur, d, &w, radius);
        cur = nxt;
        d = d + 1;
    }
    Ok(cur)
}

} // verus!
