//! 1-D convolution of a lane with the kernel, over a reflect-extended
//! buffer.
//!
//! A lane of length `n` is first extended to a buffer of length
//! `n + 2 * radius`: the leading `radius` positions mirror the first
//! `radius` samples (without repeating the edge sample), the middle copies
//! the lane, and the trailing `radius` positions mirror the last `radius`
//! samples. Output sample `idx` is then the dot product of the kernel with
//! the buffer window starting at `idx`.

use vstd::prelude::*;
use crate::scalar::Scalar;
use crate::sum_seq;

verus! {

/// The lane index that position `i` of the reflect buffer draws from, for
/// a lane of length `n` and a kernel half-width `r`.
pub open spec fn reflect_src(i: int, n: int, r: int) -> int {
    if i < r {
        r - i - 1
    } else if i < r + n {
        i - r
    } else {
        2 * n + r - i - 1
    }
}

/// The reflect-extended buffer of a lane: length `n + 2 * r`, mirroring
/// the first and last `r` samples around the lane's two ends.
pub open spec fn reflect_seq<A>(lane: Seq<A>, r: int) -> Seq<A> {
    Seq::new((lane.len() + 2 * r) as nat, |i: int| lane[reflect_src(i, lane.len() as int, r)])
}

/// The dot product of two equal-length sequences, accumulated left to
/// right from zero, exactly as the executable loop does.
pub open spec fn dot_seq<A: Scalar>(xs: Seq<A>, ws: Seq<A>) -> A {
    sum_seq(Seq::new(ws.len(), |t: int| A::sp_mul(xs[t], ws[t])))
}

/// Output sample `idx` of a lane convolved with kernel `w`: the dot
/// product of `w` with the reflect-buffer window starting at `idx`.
pub open spec fn conv_at<A: Scalar>(lane: Seq<A>, w: Seq<A>, idx: int) -> A {
    let r = (w.len() - 1) / 2;
    dot_seq(reflect_seq(lane, r).subrange(idx, idx + w.len()), w)
}

/// A whole lane convolved with kernel `w`; the length is unchanged.
pub open spec fn conv_lane<A: Scalar>(lane: Seq<A>, w: Seq<A>) -> Seq<A> {
    Seq::new(lane.len(), |idx: int| conv_at(lane, w, idx))
}

/// Reflect-padding of a constant lane is constant: every position of the
/// buffer draws some sample of the lane, and they are all equal.
pub proof fn lemma_reflect_constant<A: Scalar>(lane: Seq<A>, r: int, c: A)
    requires
        0 <= r <= lane.len(),
        forall|k: int| 0 <= k < lane.len() ==> lane[k] == c,
    ensures
        forall|i: int| 0 <= i < lane.len() + 2 * r ==> reflect_seq(lane, r)[i] == c,
{
    assert forall|i: int| 0 <= i < lane.len() + 2 * r implies reflect_seq(lane, r)[i] == c by {
        assert(0 <= reflect_src(i, lane.len() as int, r) < lane.len());
    }
}

/// Convolving a constant lane gives a constant lane: every output sample is
/// the same fold of the kernel with an all-equal window, whatever that fold
/// computes to.
pub proof fn lemma_conv_constant<A: Scalar>(
    lane: Seq<A>,
    w: Seq<A>,
    radius: usize,
    c: A,
    idx1: int,
    idx2: int,
)
    requires
        w.len() == 2 * radius + 1,
        radius <= lane.len(),
        forall|k: int| 0 <= k < lane.len() ==> lane[k] == c,
        0 <= idx1 < lane.len(),
        0 <= idx2 < lane.len(),
    ensures
        conv_at(lane, w, idx1) == conv_at(lane, w, idx2),
{
    let r = (w.len() - 1) / 2;
    assert(r == radius);
    lemma_reflect_constant(lane, r, c);
    let win1 = reflect_seq(lane, r).subrange(idx1, idx1 + w.len());
    let win2 = reflect_seq(lane, r).subrange(idx2, idx2 + w.len());
    assert(Seq::new(w.len(), |t: int| A::sp_mul(win1[t], w[t])) =~= Seq::new(
        w.len(),
        |t: int| A::sp_mul(win2[t], w[t]),
    ));
}

/// Builds the reflect-extended buffer of a lane.
pub fn fill_buffer<A: Scalar>(lane: &Vec<A>, radius: usize) -> (buf: Vec<A>)
    requires
        radius < lane@.len(),
        lane@.len() + 2 * radius <= usize::MAX,
    ensures
        buf@ == reflect_seq(lane@, radius as int),
        buf@.len() == lane@.len() + 2 * radius,
{
    let n = lane.len();
    let len = n + 2 * radius;
    let mut buf: Vec<A> = Vec::new();
    let mut i: usize = 0;
    while i < len
        invariant
            i <= len,
            len == n + 2 * radius,
            n == lane@.len(),
            radius < n,
            buf@ =~= reflect_seq(lane@, radius as int).subrange(0, i as int),
        decreases len - i,
    {
        let src = if i < radius {
            radius - i - 1
        } else if i < radius + n {
            i - radius
        } else {
            n - (i - radius - n) - 1
        };
        assert(src == reflect_src(i as int, n as int, radius as int));
        buf.push(lane[src]);
        i = i + 1;
    }
    proof {
        assert(buf@ =~= reflect_seq(lane@, radius as int));
    }
    buf
}

/// Convolves one lane with the kernel over a reflect-extended buffer.
pub fn convolve_lane<A: Scalar>(lane: &Vec<A>, w: &Vec<A>, radius: usize) -> (out: Vec<A>)
    requires
        w@.len() == 2 * radius + 1,
        radius < lane@.len(),
        lane@.len() + 2 * radius <= usize::MAX,
    ensures
        out@ == conv_lane(lane@, w@),
        out@.len() == lane@.len(),
{
    let n = lane.len();
    let wlen = w.len();
    let buf = fill_buffer(lane, radius);
    let mut out: Vec<A> = Vec::new();
    let mut idx: usize = 0;
    while idx < n
        invariant
            idx <= n,
            n == lane@.len(),
            wlen == w@.len() == 2 * radius + 1,
            radius < n,
            buf@ == reflect_seq(lane@, radius as int),
            buf@.len() == n + 2 * radius,
            n + 2 * radius <= usize::MAX,
            out@ =~= conv_lane(lane@, w@).subrange(0, idx as int),
        decreases n - idx,
    {
        let mut acc = A::zero();
        let mut t: usize = 0;
        while t < wlen
            invariant
                t <= wlen,
                idx < n,
                n == lane@.len(),
                wlen == w@.len() == 2 * radius + 1,
                radius < n,
                buf@ == reflect_seq(lane@, radius as int),
                buf@.len() == n + 2 * radius,
                n + 2 * radius <= usize::MAX,
                acc == sum_seq(
                    Seq::new(t as nat, |u: int| A::sp_mul(buf@[idx + u], w@[u])),
                ),
            decreases wlen - t,
        {
            proof {
                assert(Seq::new(t as nat + 1, |u: int| A::sp_mul(buf@[idx + u], w@[u])).drop_last()
                    =~= Seq::new(t as nat, |u: int| A::sp_mul(buf@[idx + u], w@[u])));
            }
            acc = acc.add(buf[idx + t].mul(w[t]));
            t = t + 1;
        }
        proof {
            let window = reflect_seq(lane@, radius as int).subrange(
                idx as int,
                idx + w@.len(),
            );
            assert(Seq::new(wlen as nat, |u: int| A::sp_mul(buf@[idx + u], w@[u])) =~= Seq::new(
                w@.len(),
                |u: int| A::sp_mul(window[u], w@[u]),
            ));
            assert((w@.len() - 1) / 2 == radius);
            assert(acc == conv_at(lane@, w@, idx as int));
        }
        out.push(acc);
        idx = idx + 1;
    }
    proof {
        assert(out@ =~= conv_lane(lane@, w@));
    }
    out
}

} // verus!
