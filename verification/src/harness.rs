//! The same computation through every kernel, on the same reproducible operands.
//!
//! Shapes need no care: odd sizes, which exercise padding and tails, are proved along with the
//! rest.
use crate::fill;
use crate::fill::fill as fill_stream;
use crate::laws;
use crate::math;
use crate::model;
use crate::pack;
use crate::pack::{pack_a_smmla, pack_b_smmla, pack_b_transposed};
use crate::scalar::gemm_scalar;
use crate::sdot::{gemm_sdot, gemm_sdot_mt};
use crate::sdot_tiled::gemm_sdot_tiled;
use crate::smmla::{gemm_smmla, gemm_smmla_blocked, gemm_smmla_mt};
use crate::smmla_8x8::gemm_smmla_8x8;
use vstd::prelude::*;

verus! {

/// The seed of the stream that fills `A`.
pub const SEED_A: u64 = 0x9E3779B97F4A7C15;

/// The seed of the stream that fills `B`.
pub const SEED_B: u64 = 0xBF58476D1CE4E5B9;

/// The buffers of an `m` x `n` x `k` product, padded ones included, can be allocated.
pub open spec fn allocatable(m: int, n: int, k: int) -> bool {
    &&& m * k <= isize::MAX
    &&& k * n <= isize::MAX
    &&& 4 * (m * n) <= isize::MAX
    &&& math::round_up(m, 2) <= usize::MAX
    &&& math::round_up(n, 2) <= usize::MAX
    &&& math::round_up(k, 8) <= usize::MAX
    &&& math::round_up(m, 2) * math::round_up(k, 8) <= isize::MAX
    &&& math::round_up(n, 2) * math::round_up(k, 8) <= isize::MAX
}

/// `A * B` modulo 2^32, row-major.
pub open spec fn product_matrix(a: Seq<i8>, b: Seq<i8>, m: int, n: int, k: int) -> Seq<i32> {
    Seq::new((m * n) as nat, |x: int| math::wrap(model::product(a, b, n, k, x / n, x % n)))
}

/// The product of the reproducible operands of an `m` x `n` x `k` shape.
pub open spec fn expected(m: int, n: int, k: int) -> Seq<i32> {
    product_matrix(fill::stream(SEED_A, m * k), fill::stream(SEED_B, k * n), m, n, k)
}

/// A buffer of `m * n` entries that has been filled with the product is the product.
proof fn lemma_whole_product(
    before: Seq<i32>,
    c: Seq<i32>,
    a: Seq<i8>,
    b: Seq<i8>,
    m: int,
    n: int,
    k: int,
)
    requires
        0 <= m,
        0 <= n,
        c.len() == m * n,
        model::filled(before, c, n, model::window(m, 0, n), model::product_value(a, b, n, k)),
    ensures
        c == product_matrix(a, b, m, n, k),
{
    let want = product_matrix(a, b, m, n, k);
    assert forall|x: int| 0 <= x < c.len() implies #[trigger] c[x] == want[x] by {
        laws::lemma_row_of_index(m, n, x);
    }
    assert(c =~= want);
}

/// The product of the reproducible operands by the scalar reference, by `SDOT` and by `SMMLA`, in
/// that order.
///
/// The blocked, 8x8 and tiled-`SDOT` variants only reorder loops and reallocate registers: that
/// they agree too is checked here, before anything runs.
pub fn run_all(m: usize, n: usize, k: usize) -> (r: (Vec<i32>, Vec<i32>, Vec<i32>))
    requires
        allocatable(m as int, n as int, k as int),
    ensures
        r.0@ == expected(m as int, n as int, k as int),
        r.1@ == r.0@,
        r.2@ == r.0@,
{
    assert(0 <= m * k && 0 <= k * n && 0 <= m * n && n * k == k * n) by (nonlinear_arith);
    let mut a = vec![0i8;m * k];
    let mut b = vec![0i8;k * n];
    fill_stream(a.as_mut_slice(), SEED_A);
    fill_stream(b.as_mut_slice(), SEED_B);
    let ghost zero = Seq::new((m * n) as nat, |x: int| 0i32);

    let mut c_ref = vec![0i32;m * n];
    assert(c_ref@ =~= zero);
    gemm_scalar(m, n, k, a.as_slice(), b.as_slice(), c_ref.as_mut_slice());

    let bt = pack_b_transposed(n, k, k, b.as_slice());
    proof {
        if n > 0 {
            assert((n - 1) * k + k == n * k) by (nonlinear_arith);
        }
    }
    let mut c_dot = vec![0i32;m * n];
    assert(c_dot@ =~= zero);
    gemm_sdot(m, n, k, k, a.as_slice(), bt.as_slice(), c_dot.as_mut_slice());

    let (pa, mp, kp) = pack_a_smmla(m, k, a.as_slice());
    let (pb, np) = pack_b_smmla(n, k, b.as_slice());
    proof {
        pack::lemma_panel_sizes(m as int, k as int);
        pack::lemma_panel_sizes(n as int, k as int);
    }
    let mut c_mm = vec![0i32;m * n];
    assert(c_mm@ =~= zero);
    gemm_smmla(m, n, mp, np, kp, pa.as_slice(), pb.as_slice(), c_mm.as_mut_slice());

    let mut c_bl = vec![0i32;m * n];
    assert(c_bl@ =~= zero);
    gemm_smmla_blocked(m, n, mp, np, kp, pa.as_slice(), pb.as_slice(), c_bl.as_mut_slice());

    let mut c_dt = vec![0i32;m * n];
    assert(c_dt@ =~= zero);
    gemm_sdot_tiled(m, n, k, k, a.as_slice(), bt.as_slice(), c_dt.as_mut_slice());

    let mut c88 = vec![0i32;m * n];
    assert(c88@ =~= zero);
    gemm_smmla_8x8(m, n, mp, np, kp, pa.as_slice(), pb.as_slice(), c88.as_mut_slice());

    proof {
        let (mi, ni, ki) = (m as int, n as int, k as int);
        laws::law_sdot_matches_scalar(zero, c_ref@, c_dot@, a@, b@, mi, ni, ki, ki);
        laws::law_smmla_matches_scalar(zero, c_ref@, c_mm@, a@, b@, mi, ni, ki);
        laws::law_smmla_matches_scalar(zero, c_ref@, c_bl@, a@, b@, mi, ni, ki);
        laws::law_sdot_matches_scalar(zero, c_ref@, c_dt@, a@, b@, mi, ni, ki, ki);
        laws::law_smmla_matches_scalar(zero, c_ref@, c88@, a@, b@, mi, ni, ki);
        lemma_whole_product(zero, c_ref@, a@, b@, mi, ni, ki);
    }
    assert(c_bl@ == c_mm@);
    assert(c_dt@ == c_ref@);
    assert(c88@ == c_mm@);
    (c_ref, c_dot, c_mm)
}

/// Same computation through the shared-out kernels. Column partitioning is where overlapping tiles
/// would be silently corrupted, so both are held to the scalar reference too, for any number of
/// threads.
pub fn run_mt(m: usize, n: usize, k: usize, threads: usize) -> (r: (Vec<i32>, Vec<i32>, Vec<i32>))
    requires
        allocatable(m as int, n as int, k as int),
    ensures
        r.0@ == expected(m as int, n as int, k as int),
        r.1@ == r.0@,
        r.2@ == r.0@,
{
    assert(0 <= m * k && 0 <= k * n && 0 <= m * n && n * k == k * n) by (nonlinear_arith);
    let mut a = vec![0i8;m * k];
    let mut b = vec![0i8;k * n];
    fill_stream(a.as_mut_slice(), SEED_A);
    fill_stream(b.as_mut_slice(), SEED_B);
    let ghost zero = Seq::new((m * n) as nat, |x: int| 0i32);

    let mut c_ref = vec![0i32;m * n];
    assert(c_ref@ =~= zero);
    gemm_scalar(m, n, k, a.as_slice(), b.as_slice(), c_ref.as_mut_slice());

    let bt = pack_b_transposed(n, k, k, b.as_slice());
    proof {
        if n > 0 {
            assert((n - 1) * k + k == n * k) by (nonlinear_arith);
        }
    }
    let mut c_dot = vec![0i32;m * n];
    assert(c_dot@ =~= zero);
    gemm_sdot_mt(m, n, k, k, a.as_slice(), bt.as_slice(), c_dot.as_mut_slice(), threads);

    let (pa, mp, kp) = pack_a_smmla(m, k, a.as_slice());
    let (pb, np) = pack_b_smmla(n, k, b.as_slice());
    proof {
        pack::lemma_panel_sizes(m as int, k as int);
        pack::lemma_panel_sizes(n as int, k as int);
    }
    let mut c_mm = vec![0i32;m * n];
    assert(c_mm@ =~= zero);
    gemm_smmla_mt(m, n, mp, np, kp, pa.as_slice(), pb.as_slice(), c_mm.as_mut_slice(), threads);

    proof {
        let (mi, ni, ki) = (m as int, n as int, k as int);
        laws::law_sdot_matches_scalar(zero, c_ref@, c_dot@, a@, b@, mi, ni, ki, ki);
        laws::law_smmla_matches_scalar(zero, c_ref@, c_mm@, a@, b@, mi, ni, ki);
        lemma_whole_product(zero, c_ref@, a@, b@, mi, ni, ki);
    }
    (c_ref, c_dot, c_mm)
}

/// Whether two results are equal, entry for entry.
pub fn same(x: &[i32], y: &[i32]) -> (r: bool)
    ensures
        r == (x@ == y@),
{
    if x.len() != y.len() {
        return false;
    }
    let mut i: usize = 0;
    while i < x.len()
        invariant
            i <= x.len(),
            x.len() == y.len(),
            forall|p: int| 0 <= p < i ==> #[trigger] x@[p] == y@[p],
        decreases x.len() - i,
    {
        if x[i] != y[i] {
            return false;
        }
        i += 1;
    }
    assert(x@ =~= y@);
    true
}

/// Whether `SDOT` and whether `SMMLA` matched the reference.
pub fn matches_reference(r: &(Vec<i32>, Vec<i32>, Vec<i32>)) -> (matched: (bool, bool))
    ensures
        matched.0 == (r.1@ == r.0@),
        matched.1 == (r.2@ == r.0@),
{
    (same(r.1.as_slice(), r.0.as_slice()), same(r.2.as_slice(), r.0.as_slice()))
}

/// Whether both kernels matched on every shape: timings are reported only then.
pub fn all_matched(rows: &[(bool, bool)]) -> (ok: bool)
    ensures
        ok == (forall|i: int| 0 <= i < rows@.len() ==> (#[trigger] rows@[i]).0 && rows@[i].1),
{
    let mut ok = true;
    let mut i: usize = 0;
    while i < rows.len()
        invariant
            i <= rows.len(),
            ok == (forall|p: int| 0 <= p < i ==> (#[trigger] rows@[p]).0 && rows@[p].1),
        decreases rows.len() - i,
    {
        let (sdot, smmla) = rows[i];
        ok = ok && sdot && smmla;
        assert(rows@[i as int] == (sdot, smmla));
        i += 1;
    }
    ok
}

} // verus!
