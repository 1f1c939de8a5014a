//! `SDOT` with a 4x4 register tile of outputs: eight loads feed sixteen instructions.
use crate::model;
use crate::neon;
use crate::neon::{vdotq_s32, vdupq_n_s32, vdupq_n_s8, vld1q_s8, I32x4, I8x16};
use crate::sdot;
use crate::sdot::finish_dot;
use vstd::prelude::*;

verus! {

/// The accumulators, row by row, hold the dot products of rows `i..i + nr` of `a` with rows
/// `j..j + nc` of `bt` over the first `p` elements.
pub open spec fn holds_dots(
    acc: Seq<I32x4>,
    a: Seq<i8>,
    bt: Seq<i8>,
    k: int,
    kp: int,
    i: int,
    nr: int,
    j: int,
    nc: int,
    p: int,
) -> bool {
    &&& acc.len() == 16
    &&& forall|t: int|
        0 <= t < 16 && t / 4 < nr && t % 4 < nc ==> sdot::holds_dot(
            (#[trigger] acc[t])@,
            model::span_terms(a, (i + t / 4) * k, bt, (j + t % 4) * kp),
            p,
        )
}

/// Sixteen elements from column `p` of each of the rows `first..first + count`, rows `stride` apart.
fn load_rows(s: &[i8], stride: usize, first: usize, count: usize, p: usize) -> (r: [I8x16; 4])
    requires
        1 <= count <= 4,
        (first + count - 1) * stride + p + 16 <= s.len(),
        first + count <= usize::MAX,
    ensures
        forall|t: int|
            0 <= t < count ==> (#[trigger] r@[t])@ == s@.subrange(
                (first + t) * stride + p,
                (first + t) * stride + p + 16,
            ),
{
    let mut r = [vdupq_n_s8(0);4];
    let mut t: usize = 0;
    while t < count
        invariant
            t <= count <= 4,
            (first + count - 1) * stride + p + 16 <= s.len(),
            first + count <= usize::MAX,
            forall|u: int|
                0 <= u < t ==> (#[trigger] r@[u])@ == s@.subrange(
                    (first + u) * stride + p,
                    (first + u) * stride + p + 16,
                ),
        decreases count - t,
    {
        proof {
            sdot::lemma_row_bounds(
                first + count,
                stride as int,
                p + 16,
                first + t,
                s.len() as int,
            );
        }
        r[t] = vld1q_s8(s, (first + t) * stride + p);
        t += 1;
    }
    r
}

/// Up to sixteen `SDOT`s: each of `nr` rows with each of `nc` columns.
fn multiply_rows(acc: &mut [I32x4; 16], av: &[I8x16; 4], bv: &[I8x16; 4], nr: usize, nc: usize)
    requires
        nr <= 4,
        nc <= 4,
    ensures
        forall|t: int|
            0 <= t < 16 ==> (#[trigger] final(acc)@[t])@ == if t / 4 < nr && t % 4 < nc {
                neon::sdot(old(acc)@[t]@, av@[t / 4]@, bv@[t % 4]@)
            } else {
                old(acc)@[t]@
            },
{
    let ghost acc0 = acc@;
    let mut t: usize = 0;
    while t < 16
        invariant
            t <= 16,
            nr <= 4,
            nc <= 4,
            forall|u: int| t <= u < 16 ==> #[trigger] acc@[u] == acc0[u],
            forall|u: int|
                0 <= u < t ==> (#[trigger] acc@[u])@ == if u / 4 < nr && u % 4 < nc {
                    neon::sdot(acc0[u]@, av@[u / 4]@, bv@[u % 4]@)
                } else {
                    acc0[u]@
                },
        decreases 16 - t,
    {
        if t / 4 < nr && t % 4 < nc {
            acc[t] = vdotq_s32(acc[t], av[t / 4], bv[t % 4]);
        }
        t += 1;
    }
}

/// The dot products of rows `i..i + nr` of `a` with rows `j..j + nc` of `bt` over the first `kb`
/// elements, a multiple of sixteen.
fn dots(
    k: usize,
    kp: usize,
    kb: usize,
    a: &[i8],
    bt: &[i8],
    i: usize,
    nr: usize,
    j: usize,
    nc: usize,
) -> (acc: [I32x4; 16])
    requires
        1 <= nr <= 4,
        1 <= nc <= 4,
        i + nr <= usize::MAX,
        j + nc <= usize::MAX,
        kb <= k,
        kb % 16 == 0,
        (i + nr - 1) * k + k <= a.len(),
        (j + nc - 1) * kp + k <= bt.len(),
    ensures
        holds_dots(
            acc@,
            a@,
            bt@,
            k as int,
            kp as int,
            i as int,
            nr as int,
            j as int,
            nc as int,
            kb as int,
        ),
{
    let mut acc = [vdupq_n_s32(0);16];
    let mut p: usize = 0;
    while p < kb
        invariant
            p <= kb <= k,
            p % 16 == 0,
            kb % 16 == 0,
            1 <= nr <= 4,
            1 <= nc <= 4,
            i + nr <= usize::MAX,
            j + nc <= usize::MAX,
            (i + nr - 1) * k + k <= a.len(),
            (j + nc - 1) * kp + k <= bt.len(),
            holds_dots(
                acc@,
                a@,
                bt@,
                k as int,
                kp as int,
                i as int,
                nr as int,
                j as int,
                nc as int,
                p as int,
            ),
        decreases kb - p,
    {
        let av = load_rows(a, k, i, nr, p);
        let bv = load_rows(bt, kp, j, nc, p);
        let ghost acc0 = acc@;
        multiply_rows(&mut acc, &av, &bv, nr, nc);
        proof {
            assert forall|t: int|
                0 <= t < 16 && t / 4 < nr && t % 4 < nc implies sdot::holds_dot(
                (#[trigger] acc@[t])@,
                model::span_terms(a@, (i + t / 4) * k, bt@, (j + t % 4) * kp),
                p + 16,
            ) by {
                let before = acc0[t];
                let x = av@[t / 4];
                let y = bv@[t % 4];
                sdot::lemma_row_bounds(
                    i + nr,
                    k as int,
                    k as int,
                    i + t / 4,
                    a.len() as int,
                );
                sdot::lemma_row_bounds(
                    j + nc,
                    kp as int,
                    k as int,
                    j + t % 4,
                    bt.len() as int,
                );
                sdot::lemma_dot_step(
                    before@,
                    a@,
                    (i + t / 4) * k,
                    bt@,
                    (j + t % 4) * kp,
                    p as int,
                );
            }
        }
        p += 16;
    }
    acc
}

/// The entries of `C` in rows `i..i + nr` and columns `j..j + nc`.
pub open spec fn block(i: int, nr: int, j: int, nc: int) -> spec_fn(int, int) -> bool {
    |r: int, s: int| i <= r < i + nr && j <= s < j + nc
}

/// Finishes and stores the dot products of rows `i..i + nr` of `a` with rows `j..j + nc` of `bt`.
fn store_dots(
    acc: &[I32x4; 16],
    m: usize,
    n: usize,
    k: usize,
    kp: usize,
    kb: usize,
    a: &[i8],
    bt: &[i8],
    i: usize,
    nr: usize,
    j: usize,
    nc: usize,
    c: &mut [i32],
)
    requires
        nr <= 4,
        nc <= 4,
        i + nr <= m,
        j + nc <= n,
        kb <= k,
        (i + nr - 1) * k + k <= a.len(),
        (j + nc - 1) * kp + k <= bt.len(),
        m * n <= old(c).len(),
        holds_dots(
            acc@,
            a@,
            bt@,
            k as int,
            kp as int,
            i as int,
            nr as int,
            j as int,
            nc as int,
            kb as int,
        ),
    ensures
        model::filled(
            old(c)@,
            final(c)@,
            n as int,
            block(i as int, nr as int, j as int, nc as int),
            model::row_value(a@, bt@, k as int, kp as int),
        ),
{
    let ghost c0 = c@;
    let ghost value = model::row_value(a@, bt@, k as int, kp as int);
    let ghost whole = block(i as int, nr as int, j as int, nc as int);
    let ghost mut region = |r: int, s: int| false;
    proof {
        model::lemma_fill_none(c@, n as int, region, value);
    }
    let mut t: usize = 0;
    while t < 16
        invariant
            t <= 16,
            nr <= 4,
            nc <= 4,
            i + nr <= m,
            j + nc <= n,
            kb <= k,
            (i + nr - 1) * k + k <= a.len(),
            (j + nc - 1) * kp + k <= bt.len(),
            m * n <= c.len(),
            holds_dots(
                acc@,
                a@,
                bt@,
                k as int,
                kp as int,
                i as int,
                nr as int,
                j as int,
                nc as int,
                kb as int,
            ),
            value == model::row_value(a@, bt@, k as int, kp as int),
            whole == block(i as int, nr as int, j as int, nc as int),
            model::filled(c0, c@, n as int, region, value),
            forall|r: int, s: int|
                0 <= r && 0 <= s < n ==> #[trigger] region(r, s) == (whole(r, s) && 4 * (r - i) + (s
                    - j) < t),
        decreases 16 - t,
    {
        if t / 4 < nr && t % 4 < nc {
            let row = i + t / 4;
            let col = j + t % 4;
            proof {
                sdot::lemma_row_bounds(
                    i + nr,
                    k as int,
                    k as int,
                    row as int,
                    a.len() as int,
                );
                sdot::lemma_row_bounds(
                    j + nc,
                    kp as int,
                    k as int,
                    col as int,
                    bt.len() as int,
                );
                let lanes = acc@[t as int];
                assert(sdot::holds_dot(
                    lanes@,
                    model::span_terms(a@, row * k, bt@, col * kp),
                    kb as int,
                ));
            }
            let r = finish_dot(acc[t], a, row * k, bt, col * kp, kb, k);
            proof {
                model::lemma_index_bound(m as int, n as int, row as int, col as int);
                model::lemma_fill_one(
                    c0,
                    c@,
                    n as int,
                    region,
                    value,
                    row as int,
                    col as int,
                );
                let old_region = region;
                region =
                |r: int, s: int| old_region(r, s) || (r == row as int && s == col as int);
            }
            c[row * n + col] = r;
        }
        t += 1;
    }
    proof {
        model::lemma_region_ext(c0, c@, n as int, region, whole, value);
    }
}

/// The product in 4x4 output tiles.
///
/// `bt` must be packed as by `pack_b_transposed`, with the same `kp`.
pub fn gemm_sdot_tiled(
    m: usize,
    n: usize,
    k: usize,
    kp: usize,
    a: &[i8],
    bt: &[i8],
    c: &mut [i32],
)
    requires
        n > 0 ==> m * k <= a.len(),
        m > 0 && n > 0 ==> (n - 1) * kp + k <= bt.len(),
        m * n <= old(c).len(),
    ensures
        model::filled(
            old(c)@,
            final(c)@,
            n as int,
            model::window(m as int, 0, n as int),
            model::row_value(a@, bt@, k as int, kp as int),
        ),
{
    let kb = k / 16 * 16;
    let ghost c0 = c@;
    let ghost value = model::row_value(a@, bt@, k as int, kp as int);
    let ghost n_int = n as int;
    proof {
        model::lemma_band_start(c0, n_int, m as int, 0, n_int, 0, value);
    }
    let mut i: usize = 0;
    while i < m
        invariant
            i <= m,
            kb == k / 16 * 16,
            n_int == n,
            n > 0 ==> m * k <= a.len(),
            m > 0 && n > 0 ==> (n - 1) * kp + k <= bt.len(),
            m * n <= c.len(),
            value == model::row_value(a@, bt@, k as int, kp as int),
            model::filled(
                c0,
                c@,
                n_int,
                model::banded(m as int, 0, n_int, i as int, 0, 0),
                value,
            ),
        decreases m - i,
    {
        let nr = if m - i > 4 {
            4
        } else {
            m - i
        };
        let ghost i1 = i + nr;
        proof {
            model::lemma_region_ext(
                c0,
                c@,
                n_int,
                model::banded(m as int, 0, n_int, i as int, 0, 0),
                model::banded(m as int, 0, n_int, i as int, i1, 0),
                value,
            );
        }
        let mut j: usize = 0;
        while j < n
            invariant
                i < m,
                1 <= nr <= 4,
                i + nr <= m,
                i1 == i + nr,
                j <= n,
                kb == k / 16 * 16,
                n_int == n,
                n > 0 ==> m * k <= a.len(),
                m > 0 && n > 0 ==> (n - 1) * kp + k <= bt.len(),
                m * n <= c.len(),
                value == model::row_value(a@, bt@, k as int, kp as int),
                model::filled(
                    c0,
                    c@,
                    n_int,
                    model::banded(m as int, 0, n_int, i as int, i1, j as int),
                    value,
                ),
            decreases n - j,
        {
            let nc = if n - j > 4 {
                4
            } else {
                n - j
            };
            proof {
                sdot::lemma_dense(m as int, k as int);
                sdot::lemma_row_bounds(
                    m as int,
                    k as int,
                    k as int,
                    i + nr - 1,
                    a.len() as int,
                );
                sdot::lemma_row_bounds(
                    n as int,
                    kp as int,
                    k as int,
                    j + nc - 1,
                    bt.len() as int,
                );
            }
            let acc = dots(k, kp, kb, a, bt, i, nr, j, nc);
            let ghost c1 = c@;
            store_dots(&acc, m, n, k, kp, kb, a, bt, i, nr, j, nc, c);
            proof {
                model::lemma_fill_more(
                    c0,
                    c1,
                    c@,
                    n_int,
                    model::banded(m as int, 0, n_int, i as int, i1, j as int),
                    block(i as int, nr as int, j as int, nc as int),
                    model::banded(m as int, 0, n_int, i as int, i1, j + nc),
                    value,
                    value,
                );
            }
            j += nc;
        }
        proof {
            model::lemma_band_next(
                c0,
                c@,
                n_int,
                m as int,
                0,
                n_int,
                i as int,
                i1,
                0,
                j as int,
                value,
            );
        }
        i += nr;
    }
    proof {
        model::lemma_band_end(c0, c@, n_int, m as int, 0, n_int, i as int, 0, value);
    }
}

} // verus!
