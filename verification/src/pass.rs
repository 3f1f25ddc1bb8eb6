//! One full smoothing pass along a single axis of an N-dimensional array.
//!
//! In row-major order, the lanes along axis `d` are arithmetic progressions
//! through the flat sample vector: with `n` the extent of axis `d`, `st`
//! the product of the extents of the later axes (the stride), and `block =
//! n * st`, the flat position `p = i * block + k * st + j` holds sample `k`
//! of the lane selected by outer index `i` and column `j`. The pass
//! convolves every lane independently and writes the results to a fresh
//! array of the same shape.

use vstd::prelude::*;
use vstd::arithmetic::div_mod::lemma_fundamental_div_mod;
use vstd::arithmetic::div_mod::lemma_fundamental_div_mod_converse;
use vstd::arithmetic::div_mod::lemma_mod_bound;
use crate::scalar::Scalar;
use crate::array::NdArray;
use crate::array::prod_range;
use crate::array::lemma_prod_range_zero;
use crate::array::lemma_prod_range_split;
use crate::array::lemma_prod_range_extend;
use crate::array::lemma_prod_range_pos;
use crate::array::lemma_prod_range_bound;
use crate::convolve::conv_at;
use crate::convolve::lemma_conv_constant;
use crate::convolve::conv_lane;
use crate::convolve::convolve_lane;

verus! {

/// The stride of axis `d`: the flat distance between two samples that are
/// adjacent along that axis.
pub open spec fn stride_of(dims: Seq<usize>, d: int) -> int {
    prod_range(dims, d + 1, dims.len() as int)
}

/// The lane through flat position `base` with stride `st` and length `n`.
pub open spec fn lane_seq<A>(data: Seq<A>, base: int, st: int, n: int) -> Seq<A> {
    Seq::new(n as nat, |k: int| data[base + k * st])
}

/// The whole array after one smoothing pass along axis `d`: every sample is
/// replaced by the convolution of its lane with `w`, evaluated at the
/// sample's own offset along that axis.
pub open spec fn axis_pass_seq<A: Scalar>(
    dims: Seq<usize>,
    data: Seq<A>,
    d: int,
    w: Seq<A>,
) -> Seq<A> {
    let st = stride_of(dims, d);
    let n = dims[d] as int;
    let block = n * st;
    Seq::new(
        data.len(),
        |p: int|
            {
                let k = (p % block) / st;
                conv_at(lane_seq(data, p - k * st, st, n), w, k)
            },
    )
}

/// Whether flat position `p` lies in a lane slot that precedes `(i, j, k)`
/// in the order the pass visits them: by outer index, then column, then
/// offset along the axis.
spec fn covered(p: int, block: int, st: int, i: int, j: int, k: int) -> bool {
    let li = p / block;
    let lj = (p % block) % st;
    let lk = (p % block) / st;
    li < i || (li == i && (lj < j || (lj == j && lk < k)))
}

/// The flat position assembled from outer index `i`, offset `k` and column
/// `j` decomposes back into exactly those coordinates.
proof fn lemma_flat_compose(i: int, j: int, k: int, st: int, n: int)
    requires
        st >= 1,
        n >= 1,
        0 <= i,
        0 <= j < st,
        0 <= k < n,
    ensures
        ({
            let block = n * st;
            let p = i * block + k * st + j;
            p / block == i && (p % block) / st == k && (p % block) % st == j
        }),
{
    let block = n * st;
    let r = k * st + j;
    let p = i * block + r;
    assert(0 <= r < block && block >= 1) by (nonlinear_arith)
        requires
            st >= 1,
            n >= 1,
            0 <= j < st,
            0 <= k < n,
            block == n * st,
            r == k * st + j;
    lemma_fundamental_div_mod_converse(p, block, i, r);
    lemma_fundamental_div_mod_converse(r, st, k, j);
}

/// Every flat position below the array's total decomposes into coordinates
/// within bounds.
proof fn lemma_flat_bounds(p: int, st: int, n: int, outer: int)
    requires
        st >= 1,
        n >= 1,
        0 <= p < outer * (n * st),
    ensures
        ({
            let block = n * st;
            0 <= p / block < outer && 0 <= (p % block) / st < n && 0 <= (p % block) % st < st
        }),
{
    let block = n * st;
    assert(block >= 1) by (nonlinear_arith)
        requires
            st >= 1,
            n >= 1,
            block == n * st;
    lemma_fundamental_div_mod(p, block);
    lemma_mod_bound(p, block);
    assert(0 <= p / block < outer) by (nonlinear_arith)
        requires
            p == block * (p / block) + p % block,
            0 <= p % block < block,
            0 <= p < outer * block,
            block >= 1;
    lemma_fundamental_div_mod(p % block, st);
    lemma_mod_bound(p % block, st);
    assert(0 <= (p % block) / st < n) by (nonlinear_arith)
        requires
            p % block == st * ((p % block) / st) + (p % block) % st,
            0 <= (p % block) % st < st,
            0 <= p % block < n * st,
            st >= 1;
}

/// A pass along any axis of a constant array yields a constant array:
/// every lane of a constant array is constant, so every output sample is
/// the same fold of the kernel with an all-equal window.
pub proof fn lemma_axis_pass_constant<A: Scalar>(
    dims: Seq<usize>,
    data: Seq<A>,
    d: int,
    w: Seq<A>,
    radius: usize,
    c: A,
)
    requires
        dims.len() >= 1,
        0 <= d < dims.len(),
        data.len() == prod_range(dims, 0, dims.len() as int),
        w.len() == 2 * radius + 1,
        radius < dims[d],
        forall|p: int| 0 <= p < data.len() ==> data[p] == c,
    ensures
        axis_pass_seq(dims, data, d, w).len() == data.len(),
        forall|p: int, q: int|
            0 <= p < data.len() && 0 <= q < data.len() ==> axis_pass_seq(dims, data, d, w)[p]
                == axis_pass_seq(dims, data, d, w)[q],
{
    let dlen = dims.len() as int;
    let out = axis_pass_seq(dims, data, d, w);
    let st = stride_of(dims, d);
    let n = dims[d] as int;
    let block = n * st;
    if data.len() > 0 {
        assert forall|q: int| 0 <= q < dlen implies dims[q] >= 1 by {
            if dims[q] == 0 {
                lemma_prod_range_zero(dims, 0, dlen, q);
            }
        }
        lemma_prod_range_pos(dims, d + 1, dlen);
        lemma_prod_range_pos(dims, 0, d);
        lemma_prod_range_split(dims, 0, d, dlen);
        let outer = prod_range(dims, 0, d);
        assert(prod_range(dims, d, dlen) == n * st);
        assert(data.len() == outer * block);
        assert forall|p: int, q: int|
            0 <= p < data.len() && 0 <= q < data.len() implies out[p] == out[q] by {
            lemma_lane_window_constant(dims, data, d, w, radius, c, p);
            lemma_lane_window_constant(dims, data, d, w, radius, c, q);
            let kp = (p % block) / st;
            let kq = (q % block) / st;
            let lane_p = lane_seq(data, p - kp * st, st, n);
            let lane_q = lane_seq(data, q - kq * st, st, n);
            assert(lane_p =~= lane_q);
            lemma_conv_constant(lane_p, w, radius, c, kp, kq);
        }
    }
}

/// Every sample of the lane through any in-range flat position of a
/// constant array is that same constant, and the position's offset along
/// the axis is within the lane.
proof fn lemma_lane_window_constant<A: Scalar>(
    dims: Seq<usize>,
    data: Seq<A>,
    d: int,
    w: Seq<A>,
    radius: usize,
    c: A,
    p: int,
)
    requires
        dims.len() >= 1,
        0 <= d < dims.len(),
        data.len() == prod_range(dims, 0, dims.len() as int),
        forall|q: int| 0 <= q < dims.len() ==> dims[q] >= 1,
        forall|q: int| 0 <= q < data.len() ==> data[q] == c,
        0 <= p < data.len(),
    ensures
        ({
            let st = stride_of(dims, d);
            let n = dims[d] as int;
            let block = n * st;
            let k = (p % block) / st;
            0 <= k < n && forall|u: int|
                0 <= u < n ==> #[trigger] lane_seq(data, p - k * st, st, n)[u] == c
        }),
{
    let dlen = dims.len() as int;
    let st = stride_of(dims, d);
    let n = dims[d] as int;
    let block = n * st;
    lemma_prod_range_pos(dims, d + 1, dlen);
    lemma_prod_range_pos(dims, 0, d);
    lemma_prod_range_split(dims, 0, d, dlen);
    let outer = prod_range(dims, 0, d);
    assert(prod_range(dims, d, dlen) == n * st);
    assert(data.len() == outer * block);
    lemma_flat_bounds(p, st, n, outer);
    lemma_fundamental_div_mod(p, block);
    lemma_fundamental_div_mod(p % block, st);
    let i = p / block;
    let k = (p % block) / st;
    let j = (p % block) % st;
    let base = p - k * st;
    assert(base == block * i + j);
    assert forall|u: int| 0 <= u < n implies lane_seq(data, base, st, n)[u] == c by {
        assert(0 <= block * i + u * st + j < data.len()) by (nonlinear_arith)
            requires
                0 <= i < outer,
                0 <= j < st,
                0 <= u < n,
                st >= 1 && n >= 1,
                block == n * st,
                data.len() == outer * block;
    }
}

/// Computes the product of the extents `dims[a..b]`.
fn prod_extents(dims: &Vec<usize>, a: usize, b: usize) -> (r: usize)
    requires
        a <= b && b <= dims@.len(),
        forall|m: int| 0 <= m < dims@.len() ==> dims@[m] >= 1,
        prod_range(dims@, 0, dims@.len() as int) <= usize::MAX,
    ensures
        r == prod_range(dims@, a as int, b as int),
        r >= 1,
{
    proof {
        lemma_prod_range_pos(dims@, a as int, a as int);
    }
    let mut r: usize = 1;
    let mut m: usize = a;
    while m < b
        invariant
            a <= m <= b && b <= dims@.len(),
            forall|q: int| 0 <= q < dims@.len() ==> dims@[q] >= 1,
            prod_range(dims@, 0, dims@.len() as int) <= usize::MAX,
            r == prod_range(dims@, a as int, m as int),
            r >= 1,
        decreases b - m,
    {
        proof {
            lemma_prod_range_extend(dims@, a as int, m as int);
            lemma_prod_range_bound(dims@, 0, a as int, m + 1, dims@.len() as int);
            lemma_prod_range_pos(dims@, a as int, m + 1);
        }
        r = r * dims[m];
        m = m + 1;
    }
    r
}

/// Copies the extents vector.
fn copy_dims(dims: &Vec<usize>) -> (r: Vec<usize>)
    ensures
        r@ == dims@,
{
    let mut r: Vec<usize> = Vec::new();
    let mut m: usize = 0;
    while m < dims.len()
        invariant
            m <= dims@.len(),
            r@ =~= dims@.subrange(0, m as int),
        decreases dims@.len() - m,
    {
        r.push(dims[m]);
        m = m + 1;
    }
    proof {
        assert(r@ =~= dims@);
    }
    r
}

/// Convolves every lane of axis `d` with the kernel `w` of half-width
/// `radius`, producing a fresh array of the same shape.
pub fn axis_pass<A: Scalar>(a: &NdArray<A>, d: usize, w: &Vec<A>, radius: usize) -> (out: NdArray<
    A,
>)
    requires
        a.wf(),
        d < a.dims@.len(),
        w@.len() == 2 * radius + 1,
        radius < a.dims@[d as int],
        a.dims@[d as int] + 2 * radius <= usize::MAX,
    ensures
        out.wf(),
        out.dims@ == a.dims@,
        out.data@ == axis_pass_seq(a.dims@, a.data@, d as int, w@),
{
    let ghost dims = a.dims@;
    let ghost data = a.data@;
    let ghost dd = d as int;
    let ghost dlen = dims.len() as int;
    let ghost spec_out = axis_pass_seq::<A>(dims, data, dd, w@);
    let n = a.dims[d];
    let total = a.data.len();
    if total == 0 {
        let out_data: Vec<A> = Vec::new();
        proof {
            assert(spec_out =~= out_data@);
        }
        return NdArray { dims: copy_dims(&a.dims), data: out_data };
    }
    proof {
        assert forall|q: int| 0 <= q < dlen implies dims[q] >= 1 by {
            if dims[q] == 0 {
                lemma_prod_range_zero(dims, 0, dlen, q);
            }
        }
        lemma_prod_range_bound(dims, 0, dd + 1, dlen, dlen);
        lemma_prod_range_bound(dims, 0, 0, dd, dlen);
    }
    let ndim = a.dims.len();
    let st = prod_extents(&a.dims, d + 1, ndim);
    let outer = prod_extents(&a.dims, 0, d);
    proof {
        // total == outer * (n * st), and n * st <= total
        lemma_prod_range_split(dims, 0, dd, dlen);
        assert(prod_range(dims, dd, dlen) == n * st);
        lemma_prod_range_bound(dims, 0, dd, dlen, dlen);
    }
    let block = n * st;
    // a fresh output array, zero-initialized
    let mut out_data: Vec<A> = Vec::new();
    while out_data.len() < total
        invariant
            out_data@.len() <= total,
            forall|p: int| 0 <= p < out_data@.len() ==> out_data@[p] == A::sp_zero(),
        decreases total - out_data@.len(),
    {
        out_data.push(A::zero());
    }
    let mut i: usize = 0;
    while i < outer
        invariant
            i <= outer,
            n == dims[dd] && 0 <= dd < dlen && dlen == dims.len(),
            st >= 1 && outer >= 1 && n >= 1 && block == n * st,
            forall|q: int| 0 <= q < dlen ==> dims[q] >= 1,
            total == outer * block && total == data.len(),
            data == a.data@ && dims == a.dims@,
            st == stride_of(dims, dd),
            w@.len() == 2 * radius + 1 && radius < n,
            n + 2 * radius <= usize::MAX,
            spec_out == axis_pass_seq::<A>(dims, data, dd, w@),
            out_data@.len() == total,
            forall|p: int|
                0 <= p < total && covered(p, block as int, st as int, i as int, 0, 0)
                    ==> out_data@[p] == spec_out[p],
            forall|p: int|
                0 <= p < total && !covered(p, block as int, st as int, i as int, 0, 0)
                    ==> out_data@[p] == A::sp_zero(),
        decreases outer - i,
    {
        let mut j: usize = 0;
        while j < st
            invariant
                j <= st,
                i < outer,
                n == dims[dd] && 0 <= dd < dlen && dlen == dims.len(),
                st >= 1 && outer >= 1 && n >= 1 && block == n * st,
                forall|q: int| 0 <= q < dlen ==> dims[q] >= 1,
                total == outer * block && total == data.len(),
                data == a.data@ && dims == a.dims@,
                st == stride_of(dims, dd),
                w@.len() == 2 * radius + 1 && radius < n,
                n + 2 * radius <= usize::MAX,
                spec_out == axis_pass_seq::<A>(dims, data, dd, w@),
                out_data@.len() == total,
                forall|p: int|
                    0 <= p < total && covered(p, block as int, st as int, i as int, j as int, 0)
                        ==> out_data@[p] == spec_out[p],
                forall|p: int|
                    0 <= p < total && !covered(p, block as int, st as int, i as int, j as int, 0)
                        ==> out_data@[p] == A::sp_zero(),
            decreases st - j,
        {
            proof {
                assert(i * block + j + (n - 1) * st < total) by (nonlinear_arith)
                    requires
                        0 <= i < outer,
                        0 <= j < st,
                        st >= 1 && n >= 1,
                        block == n * st,
                        total == outer * block;
            }
            let base = i * block + j;
            // gather the lane
            let mut lane: Vec<A> = Vec::new();
            let mut k: usize = 0;
            while k < n
                invariant
                    k <= n,
                    base + (n - 1) * st < total && total == data.len(),
                    data == a.data@,
                    st >= 1 && n >= 1,
                    lane@ =~= lane_seq(data, base as int, st as int, n as int).subrange(
                        0,
                        k as int,
                    ),
                decreases n - k,
            {
                proof {
                    assert(k * st <= (n - 1) * st) by (nonlinear_arith)
                        requires
                            0 <= k < n,
                            st >= 1;
                }
                lane.push(a.data[base + k * st]);
                k = k + 1;
            }
            proof {
                assert(lane@ =~= lane_seq(data, base as int, st as int, n as int));
            }
            let cv = convolve_lane(&lane, w, radius);
            // scatter the convolved lane
            let mut k: usize = 0;
            while k < n
                invariant
                    k <= n,
                    i < outer && j < st,
                    base == i * block + j,
                    n == dims[dd] && 0 <= dd < dlen && dlen == dims.len(),
                    st >= 1 && outer >= 1 && n >= 1 && block == n * st,
                    total == outer * block && total == data.len(),
                    data == a.data@ && dims == a.dims@,
                    st == stride_of(dims, dd),
                    spec_out == axis_pass_seq::<A>(dims, data, dd, w@),
                    cv@ == conv_lane(lane_seq(data, base as int, st as int, n as int), w@),
                    out_data@.len() == total,
                    forall|p: int|
                        0 <= p < total && covered(
                            p,
                            block as int,
                            st as int,
                            i as int,
                            j as int,
                            k as int,
                        ) ==> out_data@[p] == spec_out[p],
                    forall|p: int|
                        0 <= p < total && !covered(
                            p,
                            block as int,
                            st as int,
                            i as int,
                            j as int,
                            k as int,
                        ) ==> out_data@[p] == A::sp_zero(),
                decreases n - k,
            {
                proof {
                    assert(k * st <= (n - 1) * st && i * block + j + (n - 1) * st < total)
                        by (nonlinear_arith)
                        requires
                            0 <= k < n,
                            0 <= i < outer,
                            0 <= j < st,
                            st >= 1 && n >= 1,
                            block == n * st,
                            total == outer * block;
                }
                let pos = base + k * st;
                let ghost old_out = out_data@;
                out_data[pos] = cv[k];
                proof {
                    lemma_flat_compose(i as int, j as int, k as int, st as int, n as int);
                    assert(spec_out[pos as int] == cv@[k as int]);
                    assert forall|p: int|
                        0 <= p < total && covered(
                            p,
                            block as int,
                            st as int,
                            i as int,
                            j as int,
                            k + 1,
                        ) implies out_data@[p] == spec_out[p] by {
                        if p != pos {
                            if !covered(p, block as int, st as int, i as int, j as int, k as int) {
                                lemma_fundamental_div_mod(p, block as int);
                                lemma_mod_bound(p, block as int);
                                lemma_fundamental_div_mod(p % (block as int), st as int);
                                lemma_mod_bound(p % (block as int), st as int);
                                assert(p == pos) by (nonlinear_arith)
                                    requires
                                        p == (block as int) * (p / (block as int)) + p % (
                                        block as int),
                                        p % (block as int) == (st as int) * ((p % (block as int))
                                            / (st as int)) + (p % (block as int)) % (st as int),
                                        p / (block as int) == i as int,
                                        (p % (block as int)) / (st as int) == k as int,
                                        (p % (block as int)) % (st as int) == j as int,
                                        pos == i * block + k * st + j;
                            }
                        }
                    }
                    assert forall|p: int|
                        0 <= p < total && !covered(
                            p,
                            block as int,
                            st as int,
                            i as int,
                            j as int,
                            k + 1,
                        ) implies out_data@[p] == A::sp_zero() by {
                        assert(p != pos);
                        assert(!covered(p, block as int, st as int, i as int, j as int, k as int));
                    }
                }
                k = k + 1;
            }
            proof {
                assert forall|p: int| 0 <= p < total implies covered(
                    p,
                    block as int,
                    st as int,
                    i as int,
                    j as int,
                    n as int,
                ) == covered(p, block as int, st as int, i as int, j + 1, 0) by {
                    lemma_flat_bounds(p, st as int, n as int, outer as int);
                }
            }
            j = j + 1;
        }
        proof {
            assert forall|p: int| 0 <= p < total implies covered(
                p,
                block as int,
                st as int,
                i as int,
                st as int,
                0,
            ) == covered(p, block as int, st as int, i + 1, 0, 0) by {
                lemma_flat_bounds(p, st as int, n as int, outer as int);
            }
        }
        i = i + 1;
    }
    proof {
        assert forall|p: int| 0 <= p < total implies covered(
            p,
            block as int,
            st as int,
            outer as int,
            0,
            0,
        ) by {
            lemma_flat_bounds(p, st as int, n as int, outer as int);
        }
        assert(out_data@ =~= spec_out);
    }
    NdArray { dims: copy_dims(&a.dims), data: out_data }
}

} // verus!
