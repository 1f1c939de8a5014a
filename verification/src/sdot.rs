//! Kernels built on `SDOT`, which adds four products to each of four int32 lanes.
use crate::math;
use crate::math::{add_wrapping, mul_widening};
use crate::model;
use crate::neon;
use crate::neon::{vaddvq_s32, vdotq_s32, vdupq_n_s32, vld1q_s8, I32x4};
use crate::partition;
use crate::partition::column_ranges;
use vstd::prelude::*;

verus! {

/// The lanes of `acc` add up to the first `p` terms, modulo 2^32.
pub open spec fn holds_dot(acc: Seq<i32>, terms: spec_fn(int) -> int, p: int) -> bool {
    math::wrap(acc[0] + acc[1] + acc[2] + acc[3]) == math::wrap(math::sum(terms, p))
}

/// One `SDOT` on the sixteen bytes from `p` extends the dot product by sixteen terms.
pub proof fn lemma_dot_step(acc: Seq<i32>, x: Seq<i8>, x0: int, y: Seq<i8>, y0: int, p: int)
    requires
        holds_dot(acc, model::span_terms(x, x0, y, y0), p),
        0 <= p,
        0 <= x0,
        0 <= y0,
        x0 + p + 16 <= x.len(),
        y0 + p + 16 <= y.len(),
    ensures
        holds_dot(
            neon::sdot(acc, x.subrange(x0 + p, x0 + p + 16), y.subrange(y0 + p, y0 + p + 16)),
            model::span_terms(x, x0, y, y0),
            p + 16,
        ),
{
    let terms = model::span_terms(x, x0, y, y0);
    let xv = x.subrange(x0 + p, x0 + p + 16);
    let yv = y.subrange(y0 + p, y0 + p + 16);
    let d0 = neon::dot4(xv, 0, yv, 0);
    let d1 = neon::dot4(xv, 4, yv, 4);
    let d2 = neon::dot4(xv, 8, yv, 8);
    let d3 = neon::dot4(xv, 12, yv, 12);
    math::lemma_sum_8(terms, p);
    math::lemma_sum_8(terms, p + 8);
    assert(math::sum(terms, p + 16) == math::sum(terms, p) + (d0 + d1 + d2 + d3));
    math::lemma_wrap_add4(acc[0] + d0, acc[1] + d1, acc[2] + d2, acc[3] + d3);
    math::lemma_wrap_add(acc[0] + acc[1] + acc[2] + acc[3], d0 + d1 + d2 + d3);
    math::lemma_wrap_add(math::sum(terms, p), d0 + d1 + d2 + d3);
}

/// Adds up the lanes and the terms `kb..k` that make no whole vector.
pub fn finish_dot(acc: I32x4, x: &[i8], x0: usize, y: &[i8], y0: usize, kb: usize, k: usize) -> (r: i32)
    requires
        kb <= k,
        x0 + k <= x.len(),
        y0 + k <= y.len(),
        holds_dot(acc@, model::span_terms(x@, x0 as int, y@, y0 as int), kb as int),
    ensures
        r == math::wrap(
            math::sum(model::span_terms(x@, x0 as int, y@, y0 as int), k as int),
        ),
{
    let ghost terms = model::span_terms(x@, x0 as int, y@, y0 as int);
    let mut tail = vaddvq_s32(acc);
    let mut q: usize = kb;
    while q < k
        invariant
            q <= k,
            x0 + k <= x.len(),
            y0 + k <= y.len(),
            terms == model::span_terms(x@, x0 as int, y@, y0 as int),
            tail == math::wrap(math::sum(terms, q as int)),
        decreases k - q,
    {
        proof {
            math::lemma_wrap_add(math::sum(terms, q as int), terms(q as int));
        }
        tail = add_wrapping(tail, mul_widening(x[x0 + q], y[y0 + q]));
        q += 1;
    }
    tail
}

/// Row `i` of `m` rows `stride` apart starts in bounds.
pub proof fn lemma_row_bounds(m: int, stride: int, k: int, i: int, len: int)
    requires
        0 <= i < m,
        0 <= stride,
        0 <= k,
        (m - 1) * stride + k <= len,
    ensures
        0 <= i * stride,
        i * stride + k <= len,
{
    assert(0 <= i * stride <= (m - 1) * stride) by (nonlinear_arith)
        requires
            0 <= i < m,
            0 <= stride,
    ;
}

/// The rows of a dense matrix are `k` apart.
pub proof fn lemma_dense(m: int, k: int)
    ensures
        (m - 1) * k + k == m * k,
{
    assert((m - 1) * k + k == m * k) by (nonlinear_arith);
}

/// The column-range worker: the product restricted to columns `[j0, j1)`.
///
/// `bt` is packed as by `pack_b_transposed`, so that each column's k values are contiguous.
/// Entries of `c` outside the column range are left alone.
pub fn sdot_colrange(
    m: usize,
    n: usize,
    k: usize,
    kp: usize,
    a: &[i8],
    bt: &[i8],
    c: &mut [i32],
    j0: usize,
    j1: usize,
)
    requires
        j0 < j1 ==> m * k <= a.len(),
        m > 0 && j0 < j1 ==> (j1 - 1) * kp + k <= bt.len(),
        j1 <= n,
        m * n <= old(c).len(),
    ensures
        model::filled(
            old(c)@,
            final(c)@,
            n as int,
            model::window(m as int, j0 as int, j1 as int),
            model::row_value(a@, bt@, k as int, kp as int),
        ),
{
    let kb = k / 16 * 16;
    let ghost c0 = c@;
    let ghost value = model::row_value(a@, bt@, k as int, kp as int);
    proof {
        model::lemma_scan_start(c0, n as int, j0 as int, j1 as int, value);
    }
    let mut i: usize = 0;
    while i < m
        invariant
            i <= m,
            kb == k / 16 * 16,
            j0 < j1 ==> m * k <= a.len(),
            m > 0 && j0 < j1 ==> (j1 - 1) * kp + k <= bt.len(),
            j1 <= n,
            m * n <= c.len(),
            value == model::row_value(a@, bt@, k as int, kp as int),
            model::filled(
                c0,
                c@,
                n as int,
                model::scanned(i as int, j0 as int, j0 as int, j1 as int),
                value,
            ),
        decreases m - i,
    {
        let mut j: usize = j0;
        while j < j1
            invariant
                i < m,
                j0 <= j,
                j == j0 || j <= j1,
                kb == k / 16 * 16,
                j0 < j1 ==> m * k <= a.len(),
                m > 0 && j0 < j1 ==> (j1 - 1) * kp + k <= bt.len(),
                j1 <= n,
                m * n <= c.len(),
                value == model::row_value(a@, bt@, k as int, kp as int),
                model::filled(
                    c0,
                    c@,
                    n as int,
                    model::scanned(i as int, j as int, j0 as int, j1 as int),
                    value,
                ),
            decreases j1 - j,
        {
            proof {
                lemma_dense(m as int, k as int);
                lemma_row_bounds(m as int, k as int, k as int, i as int, a.len() as int);
                lemma_row_bounds(j1 as int, kp as int, k as int, j as int, bt.len() as int);
            }
            let arow = i * k;
            let brow = j * kp;
            let ghost terms = model::span_terms(a@, arow as int, bt@, brow as int);
            let mut acc = vdupq_n_s32(0);
            let mut p: usize = 0;
            while p < kb
                invariant
                    p <= kb,
                    p % 16 == 0,
                    kb % 16 == 0,
                    kb <= k,
                    arow + k <= a.len(),
                    brow + k <= bt.len(),
                    terms == model::span_terms(a@, arow as int, bt@, brow as int),
                    holds_dot(acc@, terms, p as int),
                decreases kb - p,
            {
                proof {
                    lemma_dot_step(acc@, a@, arow as int, bt@, brow as int, p as int);
                }
                acc = vdotq_s32(acc, vld1q_s8(a, arow + p), vld1q_s8(bt, brow + p));
                p += 16;
            }
            let tail = finish_dot(acc, a, arow, bt, brow, kb, k);
            proof {
                model::lemma_index_bound(m as int, n as int, i as int, j as int);
                model::lemma_scan_step(
                    c0,
                    c@,
                    n as int,
                    i as int,
                    j as int,
                    j0 as int,
                    j1 as int,
                    value,
                );
            }
            c[i * n + j] = tail;
            j += 1;
        }
        proof {
            model::lemma_region_ext(
                c0,
                c@,
                n as int,
                model::scanned(i as int, j as int, j0 as int, j1 as int),
                model::scanned(i + 1, j0 as int, j0 as int, j1 as int),
                value,
            );
        }
        i += 1;
    }
    proof {
        model::lemma_scan_end(c0, c@, n as int, m as int, j0 as int, j1 as int, value);
    }
}

/// NEON `SDOT`: 16 int8 lanes -> 4 int32 lanes, 4 products each, one output at a time.
///
/// `bt` must be packed as by `pack_b_transposed`, with the same `kp`.
pub fn gemm_sdot(
    m: usize,
    n: usize,
    k: usize,
    kp: usize,
    a: &[i8],
    bt: &[i8],
    c: &mut [i32],
)
    requires
        n > 0 ==> m * k <= a.len(),
        m > 0 && n > 0 ==> (n - 1) * kp + k <= bt.len(),
        m * n <= old(c).len(),
    ensures
        model::filled(
            old(c)@,
            final(c)@,
            n as int,
            model::window(m as int, 0, n as int),
            model::row_value(a@, bt@, k as int, kp as int),
        ),
{
    sdot_colrange(m, n, k, kp, a, bt, c, 0, n)
}

/// The product shared out over output columns among `threads` workers, like `gemm_smmla_mt`:
/// `sdot_colrange` on each of `column_ranges(n, threads)`.
pub fn gemm_sdot_mt(
    m: usize,
    n: usize,
    k: usize,
    kp: usize,
    a: &[i8],
    bt: &[i8],
    c: &mut [i32],
    threads: usize,
)
    requires
        n > 0 ==> m * k <= a.len(),
        m > 0 && n > 0 ==> (n - 1) * kp + k <= bt.len(),
        m * n <= old(c).len(),
    ensures
        model::filled(
            old(c)@,
            final(c)@,
            n as int,
            model::window(m as int, 0, n as int),
            model::row_value(a@, bt@, k as int, kp as int),
        ),
{
    let ranges = column_ranges(n, threads);
    let ghost c0 = c@;
    let ghost value = model::row_value(a@, bt@, k as int, kp as int);
    let mut t: usize = 0;
    let mut done: usize = 0;
    while t < ranges.len()
        invariant
            t <= ranges@.len(),
            done <= n,
            t < ranges@.len() ==> ranges@[t as int].0 == done,
            t == ranges@.len() ==> done == n,
            partition::is_partition(ranges@, n as int),
            forall|u: int| 0 <= u < ranges@.len() ==> (#[trigger] ranges@[u]).1 <= n,
            n > 0 ==> m * k <= a.len(),
            m > 0 && n > 0 ==> (n - 1) * kp + k <= bt.len(),
            m * n <= c.len(),
            value == model::row_value(a@, bt@, k as int, kp as int),
            model::filled(c0, c@, n as int, model::window(m as int, 0, done as int), value),
        decreases ranges@.len() - t,
    {
        let (j0, j1) = ranges[t];
        let ghost c1 = c@;
        proof {
            if m > 0 && j0 < j1 {
                lemma_row_bounds(n as int, kp as int, k as int, j1 - 1, bt.len() as int);
            }
        }
        sdot_colrange(m, n, k, kp, a, bt, c, j0, j1);
        proof {
            model::lemma_fill_adjacent(
                c0,
                c1,
                c@,
                n as int,
                m as int,
                0,
                j0 as int,
                j1 as int,
                value,
            );
            if t + 1 < ranges@.len() {
                assert(ranges@[t as int].1 == ranges@[t + 1].0);
            }
        }
        done = j1;
        t += 1;
    }
}

} // verus!
