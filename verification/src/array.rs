//! A dense, rectangular N-dimensional array in row-major order.
//!
//! The array is a flat vector of samples together with the extent of each
//! axis; the sample at multi-index `(i_0, .., i_{D-1})` sits at flat
//! position `i_0 * stride_0 + .. + i_{D-1} * stride_{D-1}`, where the
//! stride of an axis is the product of the extents of all later axes.

use vstd::prelude::*;
use vstd::arithmetic::mul::lemma_mul_is_associative;

verus! {

/// The product of the extents `dims[a..b]`.
pub open spec fn prod_range(dims: Seq<usize>, a: int, b: int) -> int
    decreases b - a,
{
    if a >= b {
        1
    } else {
        dims[a] * prod_range(dims, a + 1, b)
    }
}

/// A product of extents is non-negative.
pub proof fn lemma_prod_range_nonneg(dims: Seq<usize>, a: int, b: int)
    ensures
        prod_range(dims, a, b) >= 0,
    decreases b - a,
{
    if a < b {
        lemma_prod_range_nonneg(dims, a + 1, b);
        assert(dims[a] * prod_range(dims, a + 1, b) >= 0) by (nonlinear_arith)
            requires
                dims[a] >= 0,
                prod_range(dims, a + 1, b) >= 0;
    }
}

/// A product over a range splits at any point inside it.
pub proof fn lemma_prod_range_split(dims: Seq<usize>, a: int, b: int, c: int)
    requires
        a <= b <= c,
    ensures
        prod_range(dims, a, c) == prod_range(dims, a, b) * prod_range(dims, b, c),
    decreases b - a,
{
    if a == b {
        assert(prod_range(dims, a, b) == 1);
    } else {
        lemma_prod_range_split(dims, a + 1, b, c);
        lemma_mul_is_associative(
            dims[a] as int,
            prod_range(dims, a + 1, b),
            prod_range(dims, b, c),
        );
    }
}

/// A product of positive extents is positive.
pub proof fn lemma_prod_range_pos(dims: Seq<usize>, a: int, b: int)
    requires
        forall|i: int| a <= i < b ==> dims[i] >= 1,
    ensures
        prod_range(dims, a, b) >= 1,
    decreases b - a,
{
    if a < b {
        lemma_prod_range_pos(dims, a + 1, b);
        assert(dims[a] * prod_range(dims, a + 1, b) >= 1) by (nonlinear_arith)
            requires
                dims[a] >= 1,
                prod_range(dims, a + 1, b) >= 1;
    }
}

/// A product over a range with a zero extent is zero.
pub proof fn lemma_prod_range_zero(dims: Seq<usize>, a: int, b: int, z: int)
    requires
        a <= z < b,
        dims[z] == 0,
    ensures
        prod_range(dims, a, b) == 0,
    decreases b - a,
{
    if a == z {
        lemma_prod_range_nonneg(dims, a + 1, b);
    } else {
        lemma_prod_range_zero(dims, a + 1, b, z);
    }
}

/// When every extent outside `[a, b)` but inside `[lo, hi)` is positive,
/// the partial product over `[a, b)` is bounded by the full product.
pub proof fn lemma_prod_range_bound(dims: Seq<usize>, lo: int, a: int, b: int, hi: int)
    requires
        lo <= a <= b <= hi,
        forall|i: int| lo <= i < hi ==> dims[i] >= 1,
    ensures
        prod_range(dims, a, b) <= prod_range(dims, lo, hi),
{
    lemma_prod_range_split(dims, lo, a, hi);
    lemma_prod_range_split(dims, a, b, hi);
    lemma_prod_range_pos(dims, lo, a);
    lemma_prod_range_pos(dims, a, b);
    lemma_prod_range_pos(dims, b, hi);
    assert(prod_range(dims, a, b) <= prod_range(dims, lo, hi)) by (nonlinear_arith)
        requires
            prod_range(dims, lo, hi) == prod_range(dims, lo, a) * (prod_range(dims, a, b)
                * prod_range(dims, b, hi)),
            prod_range(dims, lo, a) >= 1,
            prod_range(dims, a, b) >= 1,
            prod_range(dims, b, hi) >= 1;
}

/// Extending a product range by one index multiplies in that extent.
pub proof fn lemma_prod_range_extend(dims: Seq<usize>, a: int, b: int)
    requires
        a <= b,
    ensures
        prod_range(dims, a, b + 1) == prod_range(dims, a, b) * dims[b],
{
    lemma_prod_range_split(dims, a, b, b + 1);
    assert(prod_range(dims, b, b + 1) == dims[b] * prod_range(dims, b + 1, b + 1));
    assert(prod_range(dims, a, b) * (dims[b] as int) == prod_range(dims, a, b) * (dims[b]
        * prod_range(dims, b + 1, b + 1))) by (nonlinear_arith)
        requires
            prod_range(dims, b + 1, b + 1) == 1;
}

/// A dense N-dimensional array: the extent of each axis, and the samples in
/// row-major order.
pub struct NdArray<A> {
    /// The extent of each axis; there is at least one axis.
    pub dims: Vec<usize>,
    /// The samples, in row-major order: `data.len()` is the product of all
    /// extents.
    pub data: Vec<A>,
}

impl<A> NdArray<A> {
    /// Well-formedness: at least one axis, and exactly one sample per
    /// multi-index.
    pub open spec fn wf(&self) -> bool {
        &&& self.dims@.len() >= 1
        &&& self.data@.len() == prod_range(self.dims@, 0, self.dims@.len() as int)
    }

    /// Assembles an array from its extents and row-major samples, when they
    /// agree: there must be at least one axis and exactly one sample per
    /// multi-index.
    pub fn from_parts(dims: Vec<usize>, data: Vec<A>) -> (r: Option<NdArray<A>>)
        ensures
            match r {
                Some(a) => {
                    &&& a.dims == dims
                    &&& a.data == data
                    &&& a.wf()
                },
                None => !(dims@.len() >= 1 && data@.len() == prod_range(
                    dims@,
                    0,
                    dims@.len() as int,
                )),
            },
    {
        let ghost d_end = dims@.len() as int;
        if dims.len() == 0 {
            return None;
        }
        let mut i: usize = 0;
        while i < dims.len()
            invariant
                i <= dims@.len(),
                d_end == dims@.len(),
                forall|j: int| 0 <= j < i ==> dims@[j] >= 1,
            decreases dims@.len() - i,
        {
            if dims[i] == 0 {
                if data.len() == 0 {
                    proof {
                        lemma_prod_range_zero(dims@, 0, d_end, i as int);
                    }
                    return Some(NdArray { dims, data });
                } else {
                    proof {
                        lemma_prod_range_zero(dims@, 0, d_end, i as int);
                    }
                    return None;
                }
            }
            i = i + 1;
        }
        let data_len = data.len();
        let mut p: usize = 1;
        let mut i: usize = 0;
        while i < dims.len()
            invariant
                i <= dims@.len(),
                d_end == dims@.len(),
                forall|j: int| 0 <= j < dims@.len() ==> dims@[j] >= 1,
                p == prod_range(dims@, 0, i as int),
                data@.len() == data_len,
            decreases dims@.len() - i,
        {
            proof {
                lemma_prod_range_extend(dims@, 0, i as int);
            }
            match p.checked_mul(dims[i]) {
                Some(q) => {
                    p = q;
                },
                None => {
                    proof {
                        lemma_prod_range_bound(dims@, 0, 0, i + 1, d_end);
                    }
                    return None;
                },
            }
            i = i + 1;
        }
        if p == data.len() {
            Some(NdArray { dims, data })
        } else {
            None
        }
    }
}

} // verus!
