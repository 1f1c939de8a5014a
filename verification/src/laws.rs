//! What holds of the kernels together.
use crate::fill;
use crate::math;
use crate::model;
use crate::neon;
use crate::neon::I32x4;
use crate::pack;
use crate::partition;
use crate::roofline;
use vstd::prelude::*;

verus! {

/// Dot products of the rows of `A` with the rows of transposed `B` are the entries of `A * B`.
pub proof fn law_sdot_entry(
    a: Seq<i8>,
    b: Seq<i8>,
    n: int,
    k: int,
    kp: int,
    i: int,
    j: int,
)
    requires
        0 <= k <= kp,
        0 <= j < n,
    ensures
        model::row_value(a, pack::transposed(b, n, k, kp), k, kp)(i, j) == model::product_value(
            a,
            b,
            n,
            k,
        )(i, j),
{
    let bt = pack::transposed(b, n, k, kp);
    let f = model::span_terms(a, i * k, bt, j * kp);
    let g = model::product_terms(a, b, n, k, i, j);
    assert forall|p: int| 0 <= p < k implies #[trigger] f(p) == g(p) by {
        model::lemma_index_bound(n, kp, j, p);
        model::lemma_row_col(kp, j, p);
    }
    math::lemma_sum_ext(f, g, k);
}

/// Dot products of the rows of packed `A` with the columns of packed `B` are the entries of
/// `A * B`: the padding adds nothing.
pub proof fn law_smmla_entry(
    a: Seq<i8>,
    b: Seq<i8>,
    m: int,
    n: int,
    k: int,
    i: int,
    j: int,
)
    requires
        0 <= k,
        0 <= i < m,
        0 <= j < n,
    ensures
        model::packed_value(
            pack::panels(m, k, pack::row_of(a, k)),
            pack::panels(n, k, pack::column_of(b, n)),
            math::round_up(k, 8) / 8,
        )(i, j) == model::product_value(a, b, n, k)(i, j),
{
    let kp = math::round_up(k, 8);
    let pa = pack::panels(m, k, pack::row_of(a, k));
    let pb = pack::panels(n, k, pack::column_of(b, n));
    let f = model::packed_terms(pa, pb, kp / 8, i, j);
    let g = model::product_terms(a, b, n, k, i, j);
    pack::lemma_panel_sizes(m, k);
    pack::lemma_panel_sizes(n, k);
    assert forall|p: int| 0 <= p < k implies #[trigger] f(p) == g(p) by {
        pack::lemma_packed_element(m, k, pack::row_of(a, k), i, p);
        pack::lemma_packed_element(n, k, pack::column_of(b, n), j, p);
    }
    assert forall|p: int| k <= p < kp implies #[trigger] f(p) == 0 by {
        pack::lemma_packed_element(m, k, pack::row_of(a, k), i, p);
        pack::lemma_packed_element(n, k, pack::column_of(b, n), j, p);
    }
    math::lemma_sum_zero_tail(f, k, kp);
    math::lemma_sum_ext(f, g, k);
}

/// Entry `(i, j)` of a filled region holds its value.
pub proof fn law_entry(
    before: Seq<i32>,
    after: Seq<i32>,
    n: int,
    region: spec_fn(int, int) -> bool,
    value: spec_fn(int, int) -> i32,
    i: int,
    j: int,
)
    requires
        model::filled(before, after, n, region, value),
        0 <= j < n,
        0 <= i * n + j < after.len(),
    ensures
        region(i, j) ==> after[i * n + j] == value(i, j),
        !region(i, j) ==> after[i * n + j] == before[i * n + j],
{
    model::lemma_row_col(n, i, j);
}

/// What a call leaves in `C` is fixed by what was there and by what the call's contract says: two
/// calls with the same contract agree entry for entry, in whatever order each did the work and into
/// however many ranges it was shared out.
pub proof fn law_result_unique(
    before: Seq<i32>,
    c1: Seq<i32>,
    c2: Seq<i32>,
    n: int,
    region: spec_fn(int, int) -> bool,
    value: spec_fn(int, int) -> i32,
)
    requires
        model::filled(before, c1, n, region, value),
        model::filled(before, c2, n, region, value),
    ensures
        c1 == c2,
{
    assert(c1 =~= c2);
}

/// A call that fills the first `m` rows with values equal to the entries of `A * B` leaves what
/// `gemm_scalar` leaves.
proof fn lemma_same_as_product(
    before: Seq<i32>,
    c: Seq<i32>,
    a: Seq<i8>,
    b: Seq<i8>,
    m: int,
    n: int,
    k: int,
    region: spec_fn(int, int) -> bool,
    value: spec_fn(int, int) -> i32,
)
    requires
        model::filled(before, c, n, region, value),
        forall|i: int, j: int|
            0 <= i && 0 <= j < n ==> #[trigger] region(i, j) == model::window(m, 0, n)(i, j),
        forall|i: int, j: int|
            0 <= i < m && 0 <= j < n ==> #[trigger] value(i, j) == model::product_value(a, b, n, k)(
                i,
                j,
            ),
    ensures
        model::filled(before, c, n, model::window(m, 0, n), model::product_value(a, b, n, k)),
{
    let want = model::product_value(a, b, n, k);
    assert forall|x: int| 0 <= x < c.len() implies #[trigger] c[x] == if n > 0 && model::window(
        m,
        0,
        n,
    )(x / n, x % n) {
        want(x / n, x % n)
    } else {
        before[x]
    } by {
        if n > 0 {
            vstd::arithmetic::div_mod::lemma_div_pos_is_pos(x, n);
            vstd::arithmetic::div_mod::lemma_fundamental_div_mod(x, n);
            assert(region(x / n, x % n) == model::window(m, 0, n)(x / n, x % n));
        }
    }
}

/// `SDOT` on transposed `B` leaves in `C` exactly what the scalar reference leaves, on every shape.
pub proof fn law_sdot_matches_scalar(
    before: Seq<i32>,
    scalar: Seq<i32>,
    sdot: Seq<i32>,
    a: Seq<i8>,
    b: Seq<i8>,
    m: int,
    n: int,
    k: int,
    kp: int,
)
    requires
        0 <= k,
        n > 0 ==> k <= kp,
        model::filled(
            before,
            scalar,
            n,
            model::window(m, 0, n),
            model::product_value(a, b, n, k),
        ),
        model::filled(
            before,
            sdot,
            n,
            model::window(m, 0, n),
            model::row_value(a, pack::transposed(b, n, k, kp), k, kp),
        ),
    ensures
        sdot == scalar,
{
    let value = model::row_value(a, pack::transposed(b, n, k, kp), k, kp);
    let want = model::product_value(a, b, n, k);
    assert forall|i: int, j: int| 0 <= i < m && 0 <= j < n implies #[trigger] value(i, j) == want(
        i,
        j,
    ) by {
        law_sdot_entry(a, b, n, k, kp, i, j);
    }
    lemma_same_as_product(before, sdot, a, b, m, n, k, model::window(m, 0, n), value);
    law_result_unique(before, scalar, sdot, n, model::window(m, 0, n), want);
}

/// `SMMLA` on packed `A` and packed `B` leaves in `C` exactly what the scalar reference leaves, on
/// every shape.
pub proof fn law_smmla_matches_scalar(
    before: Seq<i32>,
    scalar: Seq<i32>,
    smmla: Seq<i32>,
    a: Seq<i8>,
    b: Seq<i8>,
    m: int,
    n: int,
    k: int,
)
    requires
        0 <= m,
        0 <= n,
        0 <= k,
        model::filled(
            before,
            scalar,
            n,
            model::window(m, 0, n),
            model::product_value(a, b, n, k),
        ),
        model::filled(
            before,
            smmla,
            n,
            model::window(
                model::rows_reached(m, math::round_up(m, 2) / 2),
                0,
                2 * (math::round_up(n, 2) / 2),
            ),
            model::packed_value(
                pack::panels(m, k, pack::row_of(a, k)),
                pack::panels(n, k, pack::column_of(b, n)),
                math::round_up(k, 8) / 8,
            ),
        ),
    ensures
        smmla == scalar,
{
    let value = model::packed_value(
        pack::panels(m, k, pack::row_of(a, k)),
        pack::panels(n, k, pack::column_of(b, n)),
        math::round_up(k, 8) / 8,
    );
    let region = model::window(
        model::rows_reached(m, math::round_up(m, 2) / 2),
        0,
        2 * (math::round_up(n, 2) / 2),
    );
    let want = model::product_value(a, b, n, k);
    pack::lemma_panel_sizes(m, k);
    pack::lemma_panel_sizes(n, k);
    assert forall|i: int, j: int| 0 <= i < m && 0 <= j < n implies #[trigger] value(i, j) == want(
        i,
        j,
    ) by {
        law_smmla_entry(a, b, m, n, k, i, j);
    }
    lemma_same_as_product(before, smmla, a, b, m, n, k, region, value);
    law_result_unique(before, scalar, smmla, n, model::window(m, 0, n), want);
}

/// Choosing between `SDOT` and `SMMLA` never changes the result: both leave the same `C`.
pub proof fn law_choice_keeps_result(
    before: Seq<i32>,
    sdot: Seq<i32>,
    smmla: Seq<i32>,
    a: Seq<i8>,
    b: Seq<i8>,
    m: int,
    n: int,
    k: int,
    kp: int,
)
    requires
        0 <= m,
        0 <= n,
        0 <= k,
        n > 0 ==> k <= kp,
        model::filled(
            before,
            sdot,
            n,
            model::window(m, 0, n),
            model::row_value(a, pack::transposed(b, n, k, kp), k, kp),
        ),
        model::filled(
            before,
            smmla,
            n,
            model::window(
                model::rows_reached(m, math::round_up(m, 2) / 2),
                0,
                2 * (math::round_up(n, 2) / 2),
            ),
            model::packed_value(
                pack::panels(m, k, pack::row_of(a, k)),
                pack::panels(n, k, pack::column_of(b, n)),
                math::round_up(k, 8) / 8,
            ),
        ),
    ensures
        sdot == smmla,
{
    let want = model::product_value(a, b, n, k);
    let value = model::row_value(a, pack::transposed(b, n, k, kp), k, kp);
    assert forall|i: int, j: int| 0 <= i < m && 0 <= j < n implies #[trigger] value(i, j) == want(
        i,
        j,
    ) by {
        law_sdot_entry(a, b, n, k, kp, i, j);
    }
    lemma_same_as_product(before, sdot, a, b, m, n, k, model::window(m, 0, n), value);
    law_smmla_matches_scalar(before, sdot, smmla, a, b, m, n, k);
}

/// Below 131072 terms no sum leaves the 32-bit range: the kernels give the exact entries of `A * B`.
pub proof fn law_exact(a: Seq<i8>, b: Seq<i8>, n: int, k: int, i: int, j: int)
    requires
        0 <= k < 131072,
    ensures
        model::product_value(a, b, n, k)(i, j) == model::product(a, b, n, k, i, j),
{
    let terms = model::product_terms(a, b, n, k, i, j);
    assert forall|p: int| 0 <= p < k implies -16384 <= #[trigger] terms(p) <= 16384 by {
        let x = a[i * k + p];
        let y = b[p * n + j];
        assert(-16384 <= x * y <= 16384) by (nonlinear_arith)
            requires
                -128 <= x <= 127,
                -128 <= y <= 127,
        ;
    }
    math::lemma_sum_bound(terms, 16384, k);
    math::lemma_wrap_fits(math::sum(terms, k));
}

/// Packing `A` loses nothing: two matrices with the same packed bytes are the same matrix.
pub proof fn law_pack_a_lossless(a1: Seq<i8>, a2: Seq<i8>, m: int, k: int)
    requires
        0 <= m,
        0 <= k,
        a1.len() == m * k,
        a2.len() == m * k,
        pack::panels(m, k, pack::row_of(a1, k)) == pack::panels(m, k, pack::row_of(a2, k)),
    ensures
        a1 == a2,
{
    assert forall|x: int| 0 <= x < a1.len() implies #[trigger] a1[x] == a2[x] by {
        lemma_row_of_index(m, k, x);
        pack::lemma_panel_sizes(m, k);
        pack::lemma_packed_element(m, k, pack::row_of(a1, k), x / k, x % k);
        pack::lemma_packed_element(m, k, pack::row_of(a2, k), x / k, x % k);
    }
    assert(a1 =~= a2);
}

/// Packing `B` loses nothing: two matrices with the same packed bytes are the same matrix.
pub proof fn law_pack_b_lossless(b1: Seq<i8>, b2: Seq<i8>, n: int, k: int)
    requires
        0 <= n,
        0 <= k,
        b1.len() == k * n,
        b2.len() == k * n,
        pack::panels(n, k, pack::column_of(b1, n)) == pack::panels(n, k, pack::column_of(b2, n)),
    ensures
        b1 == b2,
{
    assert forall|x: int| 0 <= x < b1.len() implies #[trigger] b1[x] == b2[x] by {
        lemma_row_of_index(k, n, x);
        pack::lemma_panel_sizes(n, k);
        pack::lemma_packed_element(n, k, pack::column_of(b1, n), x % n, x / n);
        pack::lemma_packed_element(n, k, pack::column_of(b2, n), x % n, x / n);
    }
    assert(b1 =~= b2);
}

/// Transposing `B` loses nothing: two matrices with the same transposed bytes are the same matrix.
pub proof fn law_transpose_lossless(b1: Seq<i8>, b2: Seq<i8>, n: int, k: int, kp: int)
    requires
        0 <= n,
        0 <= k,
        n > 0 ==> k <= kp,
        b1.len() == k * n,
        b2.len() == k * n,
        pack::transposed(b1, n, k, kp) == pack::transposed(b2, n, k, kp),
    ensures
        b1 == b2,
{
    let t1 = pack::transposed(b1, n, k, kp);
    let t2 = pack::transposed(b2, n, k, kp);
    assert forall|x: int| 0 <= x < b1.len() implies #[trigger] b1[x] == b2[x] by {
        lemma_row_of_index(k, n, x);
        let p = x / n;
        let j = x % n;
        model::lemma_index_bound(n, kp, j, p);
        model::lemma_row_col(kp, j, p);
        assert(t1[j * kp + p] == b1[p * n + j]);
        assert(t2[j * kp + p] == b2[p * n + j]);
    }
    assert(b1 =~= b2);
}

/// Index `x` of a matrix of `rows` rows of length `len` is row `x / len`, column `x % len`.
pub proof fn lemma_row_of_index(rows: int, len: int, x: int)
    requires
        0 <= rows,
        0 <= len,
        0 <= x < rows * len,
    ensures
        len > 0,
        0 <= x / len < rows,
        0 <= x % len < len,
        (x / len) * len + x % len == x,
{
    if len == 0 {
        assert(rows * len == 0) by (nonlinear_arith)
            requires
                len == 0,
        ;
    }
    vstd::arithmetic::div_mod::lemma_fundamental_div_mod(x, len);
    vstd::arithmetic::div_mod::lemma_div_pos_is_pos(x, len);
    assert(x / len < rows && len * (x / len) == (x / len) * len) by (nonlinear_arith)
        requires
            x < rows * len,
            x == len * (x / len) + x % len,
            0 <= x % len,
            0 < len,
    ;
}

/// A padding row contributes nothing: the dot product of a row past the last real one with anything
/// is zero. At M=1 that is the second of the two rows that `SMMLA` always produces.
pub proof fn law_padding_row_is_zero(
    a: Seq<i8>,
    pb: Seq<i8>,
    m: int,
    k: int,
    i: int,
    j: int,
)
    requires
        0 <= m <= i < math::round_up(m, 2),
        0 <= k,
    ensures
        model::packed_value(
            pack::panels(m, k, pack::row_of(a, k)),
            pb,
            math::round_up(k, 8) / 8,
        )(i, j) == 0,
{
    let kp = math::round_up(k, 8);
    let f = model::packed_terms(pack::panels(m, k, pack::row_of(a, k)), pb, kp / 8, i, j);
    pack::lemma_panel_sizes(m, k);
    assert forall|p: int| 0 <= p < kp implies #[trigger] f(p) == 0 by {
        pack::lemma_packed_element(m, k, pack::row_of(a, k), i, p);
    }
    math::lemma_sum_zero_tail(f, 0, kp);
}

/// The ranges of a partition are in order.
proof fn lemma_ranges_ordered(ranges: Seq<(usize, usize)>, total: int, t: int, u: int)
    requires
        partition::is_partition(ranges, total),
        0 <= t < u < ranges.len(),
    ensures
        ranges[t].1 <= ranges[u].0,
    decreases u - t,
{
    if t + 1 < u {
        lemma_ranges_ordered(ranges, total, t, u - 1);
    }
    let before = ranges[u - 1];
    let this = ranges[u];
}

/// No column is in two ranges of a partition, so no entry of `C` is written by two workers.
///
/// `width` is the number of columns to a unit of the partition: one for `sdot_colrange`, two for
/// `smmla_colrange`.
pub proof fn law_ranges_disjoint(
    ranges: Seq<(usize, usize)>,
    total: int,
    width: int,
    t: int,
    u: int,
    column: int,
)
    requires
        partition::is_partition(ranges, total),
        0 < width,
        0 <= t < ranges.len(),
        0 <= u < ranges.len(),
        width * ranges[t].0 <= column < width * ranges[t].1,
        width * ranges[u].0 <= column < width * ranges[u].1,
    ensures
        t == u,
{
    if t < u {
        lemma_ranges_ordered(ranges, total, t, u);
        lemma_scaled(width, ranges[t].1 as int, ranges[u].0 as int);
    }
    if u < t {
        lemma_ranges_ordered(ranges, total, u, t);
        lemma_scaled(width, ranges[u].1 as int, ranges[t].0 as int);
    }
}

/// Scaling keeps order.
proof fn lemma_scaled(width: int, x: int, y: int)
    requires
        0 < width,
        x <= y,
    ensures
        width * x <= width * y,
{
    assert(width * x <= width * y) by (nonlinear_arith)
        requires
            0 < width,
            x <= y,
    ;
}

/// No range of a partition reaches past `total`.
proof fn lemma_range_end(ranges: Seq<(usize, usize)>, total: int, t: int)
    requires
        partition::is_partition(ranges, total),
        0 <= t < ranges.len(),
    ensures
        ranges[t].1 <= total,
{
    let last = ranges[ranges.len() - 1];
    if t + 1 < ranges.len() {
        lemma_ranges_ordered(ranges, total, t, ranges.len() - 1);
    }
}

/// Every column up to the end of range `last` is in a range of the partition.
proof fn lemma_range_of(
    ranges: Seq<(usize, usize)>,
    total: int,
    width: int,
    last: int,
    column: int,
) -> (t: int)
    requires
        partition::is_partition(ranges, total),
        0 <= last < ranges.len(),
        0 <= column < width * ranges[last].1,
    ensures
        0 <= t <= last,
        width * ranges[t].0 <= column < width * ranges[t].1,
    decreases last,
{
    if column >= width * ranges[last].0 {
        last
    } else {
        assert(width * 0 == 0) by (nonlinear_arith);
        assert(last > 0);
        assert(ranges[last - 1].1 == ranges[last].0);
        lemma_range_of(ranges, total, width, last - 1, column)
    }
}

/// Every column is in a range of the partition, so every entry of `C` is written by some worker.
pub proof fn law_ranges_cover(
    ranges: Seq<(usize, usize)>,
    total: int,
    width: int,
    column: int,
)
    requires
        partition::is_partition(ranges, total),
        0 < width,
        0 <= column < width * total,
    ensures
        exists|t: int|
            0 <= t < ranges.len() && width * (#[trigger] ranges[t]).0 <= column < width
                * ranges[t].1,
{
    let t = lemma_range_of(ranges, total, width, ranges.len() - 1, column);
    let range = ranges[t];
}

/// Workers that run all at once, however their writes interleave: as every entry has at most one
/// writer, `C` ends up with each worker's values in that worker's columns and with the rest as it
/// was, and that is the whole product.
pub proof fn law_all_at_once(
    before: Seq<i32>,
    after: Seq<i32>,
    ranges: Seq<(usize, usize)>,
    total: int,
    width: int,
    n: int,
    rows: int,
    value: spec_fn(int, int) -> i32,
)
    requires
        partition::is_partition(ranges, total),
        0 < width,
        after.len() == before.len(),
        forall|t: int, x: int|
            #![trigger ranges[t], after[x]]
            0 <= t < ranges.len() && 0 <= x < after.len() && n > 0 && model::window(
                rows,
                width * ranges[t].0,
                width * ranges[t].1,
            )(x / n, x % n) ==> after[x] == value(x / n, x % n),
        forall|x: int|
            0 <= x < after.len() && (n <= 0 || forall|t: int|
                0 <= t < ranges.len() ==> !model::window(
                    rows,
                    width * (#[trigger] ranges[t]).0,
                    width * ranges[t].1,
                )(x / n, x % n)) ==> #[trigger] after[x] == before[x],
    ensures
        model::filled(before, after, n, model::window(rows, 0, width * total), value),
{
    assert forall|x: int| 0 <= x < after.len() implies #[trigger] after[x] == if n > 0
        && model::window(rows, 0, width * total)(x / n, x % n) {
        value(x / n, x % n)
    } else {
        before[x]
    } by {
        if n > 0 && model::window(rows, 0, width * total)(x / n, x % n) {
            let t = lemma_range_of(ranges, total, width, ranges.len() - 1, x % n);
            let range = ranges[t];
            assert(model::window(rows, width * range.0, width * range.1)(x / n, x % n));
        } else if n > 0 {
            vstd::arithmetic::div_mod::lemma_fundamental_div_mod(x, n);
            assert forall|t: int| 0 <= t < ranges.len() implies !model::window(
                rows,
                width * (#[trigger] ranges[t]).0,
                width * ranges[t].1,
            )(x / n, x % n) by {
                lemma_range_end(ranges, total, t);
                lemma_scaled(width, ranges[t].1 as int, total);
            }
        }
    }
}

/// The entries in the ranges of the first `q` workers of `order`.
spec fn visited(
    ranges: Seq<(usize, usize)>,
    order: Seq<int>,
    width: int,
    rows: int,
    q: int,
) -> spec_fn(int, int) -> bool {
    |i: int, j: int|
        exists|u: int|
            0 <= u < q && i < rows && width * ranges[#[trigger] order[u]].0 <= j < width
                * ranges[order[u]].1
}

/// The first `q` workers have filled their ranges.
proof fn lemma_order_prefix(
    states: Seq<Seq<i32>>,
    ranges: Seq<(usize, usize)>,
    order: Seq<int>,
    width: int,
    n: int,
    rows: int,
    value: spec_fn(int, int) -> i32,
    q: int,
)
    requires
        states.len() == order.len() + 1,
        0 <= q <= order.len(),
        forall|u: int|
            0 <= u < order.len() ==> model::filled(
                states[u],
                states[u + 1],
                n,
                model::window(
                    rows,
                    width * ranges[#[trigger] order[u]].0,
                    width * ranges[order[u]].1,
                ),
                value,
            ),
    ensures
        model::filled(states[0], states[q], n, visited(ranges, order, width, rows, q), value),
    decreases q,
{
    if q == 0 {
        model::lemma_fill_none(states[0], n, visited(ranges, order, width, rows, 0), value);
    } else {
        lemma_order_prefix(states, ranges, order, width, n, rows, value, q - 1);
        let done = visited(ranges, order, width, rows, q - 1);
        let next = model::window(
            rows,
            width * ranges[order[q - 1]].0,
            width * ranges[order[q - 1]].1,
        );
        let both = visited(ranges, order, width, rows, q);
        assert forall|i: int, j: int|
            0 <= i && 0 <= j < n implies #[trigger] both(i, j) == (done(i, j) || next(i, j)) by {
            if next(i, j) {
                let last = order[q - 1];
            }
            if done(i, j) {
                let u = choose|u: int|
                    0 <= u < q - 1 && i < rows && width * ranges[#[trigger] order[u]].0 <= j
                        < width * ranges[order[u]].1;
                let seen = order[u];
            }
        }
        model::lemma_fill_more(
            states[0],
            states[q - 1],
            states[q],
            n,
            done,
            next,
            both,
            value,
            value,
        );
    }
}

/// Whatever the order in which the workers of a partition run, together they fill every column.
///
/// `order` names the workers as they come; `states` are the contents of `C` before the first,
/// between any two, and after the last.
pub proof fn law_any_order(
    states: Seq<Seq<i32>>,
    ranges: Seq<(usize, usize)>,
    order: Seq<int>,
    total: int,
    width: int,
    n: int,
    rows: int,
    value: spec_fn(int, int) -> i32,
)
    requires
        partition::is_partition(ranges, total),
        0 < width,
        states.len() == order.len() + 1,
        forall|u: int| 0 <= u < order.len() ==> 0 <= #[trigger] order[u] < ranges.len(),
        forall|t: int| 0 <= t < ranges.len() ==> order.contains(t),
        forall|u: int|
            0 <= u < order.len() ==> model::filled(
                states[u],
                states[u + 1],
                n,
                model::window(
                    rows,
                    width * ranges[#[trigger] order[u]].0,
                    width * ranges[order[u]].1,
                ),
                value,
            ),
    ensures
        model::filled(
            states[0],
            states[order.len() as int],
            n,
            model::window(rows, 0, width * total),
            value,
        ),
{
    let q = order.len() as int;
    let all = visited(ranges, order, width, rows, q);
    let whole = model::window(rows, 0, width * total);
    lemma_order_prefix(states, ranges, order, width, n, rows, value, q);
    assert forall|i: int, j: int| 0 <= i && 0 <= j < n implies #[trigger] all(i, j) == whole(
        i,
        j,
    ) by {
        if whole(i, j) {
            let t = lemma_range_of(ranges, total, width, ranges.len() - 1, j);
            assert(order.contains(t));
            let u = choose|u: int| 0 <= u < order.len() && order[u] == t;
            assert(order[u] == t);
        }
        if all(i, j) {
            let u = choose|u: int|
                0 <= u < q && i < rows && width * ranges[#[trigger] order[u]].0 <= j < width
                    * ranges[order[u]].1;
            let t = order[u];
            lemma_range_end(ranges, total, t);
            lemma_scaled(width, ranges[t].1 as int, total);
        }
    }
    model::lemma_region_ext(states[0], states[q], n, all, whole, value);
}

/// The generator never reaches state zero, from which it could not move on.
pub proof fn law_state_nonzero(seed: u64, steps: nat)
    ensures
        fill::state(seed, steps) != 0,
    decreases steps,
{
    if steps == 0 {
        assert(seed | 1 != 0) by (bit_vector);
    } else {
        law_state_nonzero(seed, (steps - 1) as nat);
        let s = fill::state(seed, (steps - 1) as nat);
        let s1 = s ^ (s << 13);
        let s2 = s1 ^ (s1 >> 7);
        assert(s != 0 ==> s ^ (s << 13) != 0) by (bit_vector);
        assert(s1 != 0 ==> s1 ^ (s1 >> 7) != 0) by (bit_vector);
        assert(s2 != 0 ==> s2 ^ (s2 << 17) != 0) by (bit_vector);
    }
}

/// The stream of a seed does not depend on how much of it is asked for: a shorter fill is the
/// beginning of a longer one.
pub proof fn law_stream_prefix(seed: u64, short: int, long: int)
    requires
        0 <= short <= long,
    ensures
        fill::stream(seed, short) == fill::stream(seed, long).subrange(0, short),
{
    assert(fill::stream(seed, short) =~= fill::stream(seed, long).subrange(0, short));
}

/// Seeds that differ only in their lowest bit give the same stream.
pub proof fn law_seed_low_bit(seed: u64, len: int)
    ensures
        fill::stream(seed, len) == fill::stream(seed | 1, len),
{
    assert(seed | 1 == (seed | 1) | 1) by (bit_vector);
    assert forall|i: int| #[trigger] fill::stream_byte(seed, i) == fill::stream_byte(
        seed | 1,
        i,
    ) by {
        lemma_state_low_bit(seed, (i + 1) as nat);
    }
    assert(fill::stream(seed, len) =~= fill::stream(seed | 1, len));
}

/// The states of seeds that differ only in their lowest bit are the same.
proof fn lemma_state_low_bit(seed: u64, steps: nat)
    ensures
        fill::state(seed, steps) == fill::state(seed | 1, steps),
    decreases steps,
{
    if steps == 0 {
        assert(seed | 1 == (seed | 1) | 1) by (bit_vector);
    } else {
        lemma_state_low_bit(seed, (steps - 1) as nat);
    }
}

/// All sixteen chains stand at `per_step * steps` in every lane, modulo 2^32.
pub open spec fn chains_at(acc: Seq<I32x4>, per_step: int, steps: int) -> bool {
    &&& acc.len() == 16
    &&& forall|t: int, l: int|
        0 <= t < 16 && 0 <= l < 4 ==> (#[trigger] acc[t]@[l]) == math::wrap(per_step * steps)
}

/// With all operand lanes one, each step of `smmla_chains` adds eight to every lane.
pub proof fn law_smmla_chain_step(
    acc0: Seq<I32x4>,
    acc1: Seq<I32x4>,
    a: Seq<i8>,
    b: Seq<i8>,
    steps: int,
)
    requires
        chains_at(acc0, 8, steps),
        acc1.len() == 16,
        a == Seq::new(16, |l: int| 1i8),
        b == Seq::new(16, |l: int| 1i8),
        forall|t: int| 0 <= t < 16 ==> (#[trigger] acc1[t])@ == neon::smmla(acc0[t]@, a, b),
    ensures
        chains_at(acc1, 8, steps + 1),
{
    assert forall|t: int, l: int| 0 <= t < 16 && 0 <= l < 4 implies (#[trigger] acc1[t]@[l])
        == math::wrap(8 * (steps + 1)) by {
        assert(acc0[t]@[l] == math::wrap(8 * steps));
        assert(neon::dot8(a, 8 * (l / 2), b, 8 * (l % 2)) == 8);
        math::lemma_wrap_add(8 * steps, 8);
    }
}

/// With all operand lanes one, each step of `sdot_chains` adds four to every lane.
pub proof fn law_sdot_chain_step(
    acc0: Seq<I32x4>,
    acc1: Seq<I32x4>,
    a: Seq<i8>,
    b: Seq<i8>,
    steps: int,
)
    requires
        chains_at(acc0, 4, steps),
        acc1.len() == 16,
        a == Seq::new(16, |l: int| 1i8),
        b == Seq::new(16, |l: int| 1i8),
        forall|t: int| 0 <= t < 16 ==> (#[trigger] acc1[t])@ == neon::sdot(acc0[t]@, a, b),
    ensures
        chains_at(acc1, 4, steps + 1),
{
    assert forall|t: int, l: int| 0 <= t < 16 && 0 <= l < 4 implies (#[trigger] acc1[t]@[l])
        == math::wrap(4 * (steps + 1)) by {
        assert(acc0[t]@[l] == math::wrap(4 * steps));
        assert(neon::dot4(a, 4 * l, b, 4 * l) == 4);
        math::lemma_wrap_add(4 * steps, 4);
    }
}

/// The sink of chains that all stand at `per_step * steps` is sixteen times that, modulo 2^32.
pub proof fn law_chain_sink(acc: Seq<I32x4>, per_step: int, steps: int)
    requires
        chains_at(acc, per_step, steps),
    ensures
        math::wrap(math::sum(roofline::first_lanes(acc), 16)) == math::wrap(
            16 * (per_step * steps),
        ),
{
    let f = roofline::first_lanes(acc);
    let lane = math::wrap(per_step * steps);
    assert forall|t: int| 0 <= t < 16 implies #[trigger] f(t) == lane by {
        assert(acc[t]@[0] == lane);
    }
    math::lemma_sum_8(f, 0);
    math::lemma_sum_8(f, 8);
    let four = lane + lane + lane + lane;
    let x = per_step * steps;
    math::lemma_wrap_add4(x, x, x, x);
    math::lemma_wrap_add4(four, four, four, four);
    math::lemma_wrap_add4(4 * x, 4 * x, 4 * x, 4 * x);
    assert(math::sum(f, 16) == four + four + four + four);
    assert(math::wrap(four) == math::wrap(4 * x));
}

} // verus!
