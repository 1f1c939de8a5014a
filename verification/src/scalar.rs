//! The reference product.
use crate::math;
use crate::math::{add_wrapping, mul_widening};
use crate::model;
use vstd::prelude::*;

verus! {

/// Row-major `C[m][n] = sum_k A[m][k] * B[k][n]`, the reference result.
///
/// Sums are taken modulo 2^32, as the vector kernels take them; below 131072 terms they are exact.
/// What lies in `c` past the first `m * n` entries is left alone.
pub fn gemm_scalar(m: usize, n: usize, k: usize, a: &[i8], b: &[i8], c: &mut [i32])
    requires
        n > 0 ==> m * k <= a.len(),
        m > 0 ==> k * n <= b.len(),
        m * n <= old(c).len(),
    ensures
        model::filled(
            old(c)@,
            final(c)@,
            n as int,
            model::window(m as int, 0, n as int),
            model::product_value(a@, b@, n as int, k as int),
        ),
{
    let ghost c0 = c@;
    let ghost value = model::product_value(a@, b@, n as int, k as int);
    proof {
        model::lemma_scan_start(c0, n as int, 0, n as int, value);
    }
    let mut i: usize = 0;
    while i < m
        invariant
            i <= m,
            n > 0 ==> m * k <= a.len(),
            m > 0 ==> k * n <= b.len(),
            m * n <= c.len(),
            value == model::product_value(a@, b@, n as int, k as int),
            model::filled(c0, c@, n as int, model::scanned(i as int, 0, 0, n as int), value),
        decreases m - i,
    {
        let mut j: usize = 0;
        while j < n
            invariant
                i < m,
                j <= n,
                n > 0 ==> m * k <= a.len(),
                m > 0 ==> k * n <= b.len(),
                m * n <= c.len(),
                value == model::product_value(a@, b@, n as int, k as int),
                model::filled(
                    c0,
                    c@,
                    n as int,
                    model::scanned(i as int, j as int, 0, n as int),
                    value,
                ),
            decreases n - j,
        {
            let ghost terms = model::product_terms(a@, b@, n as int, k as int, i as int, j as int);
            let mut acc: i32 = 0;
            let mut p: usize = 0;
            while p < k
                invariant
                    i < m,
                    j < n,
                    p <= k,
                    m * k <= a.len(),
                    k * n <= b.len(),
                    terms == model::product_terms(
                        a@,
                        b@,
                        n as int,
                        k as int,
                        i as int,
                        j as int,
                    ),
                    acc == math::wrap(math::sum(terms, p as int)),
                decreases k - p,
            {
                proof {
                    model::lemma_index_bound(m as int, k as int, i as int, p as int);
                    model::lemma_index_bound(k as int, n as int, p as int, j as int);
                    math::lemma_wrap_add(math::sum(terms, p as int), terms(p as int));
                }
                acc = add_wrapping(acc, mul_widening(a[i * k + p], b[p * n + j]));
                p += 1;
            }
            proof {
                model::lemma_index_bound(m as int, n as int, i as int, j as int);
                model::lemma_scan_step(
                    c0,
                    c@,
                    n as int,
                    i as int,
                    j as int,
                    0,
                    n as int,
                    value,
                );
            }
            c[i * n + j] = acc;
            j += 1;
        }
        proof {
            model::lemma_scan_row(c0, c@, n as int, i as int, 0, n as int, value);
        }
        i += 1;
    }
    proof {
        model::lemma_scan_end(c0, c@, n as int, m as int, 0, n as int, value);
    }
}

} // verus!
