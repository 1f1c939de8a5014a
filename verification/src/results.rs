//! What each operation leaves, written out over its inputs: entries as sums of products, packed
//! bytes by the element they hold, ranges by their bounds, streams by their states.
//!
//! A sum is given by its partial sums: a sequence that starts at zero and grows by one product at
//! each step. An int32 is given by its value modulo 2^32, which fixes it.
use crate::fill;
use crate::harness;
use crate::math;
use crate::model;
use crate::neon;
use crate::pack;
use crate::partition;
use vstd::prelude::*;

verus! {

/// A sum is the last of its partial sums.
pub proof fn law_sum(f: spec_fn(int) -> int, k: int, s: Seq<int>)
    requires
        0 <= k,
        s.len() == k + 1,
        s[0] == 0,
        forall|p: int| 0 <= p < k ==> s[p + 1] == s[p] + #[trigger] f(p),
    ensures
        math::sum(f, k) == s[k],
    decreases k,
{
    if k > 0 {
        law_sum(f, k - 1, s.subrange(0, k));
        assert(s[k - 1 + 1] == s[k - 1] + f(k - 1));
    }
}

/// Wrapping picks, of all values congruent modulo 2^32, the one that fits in an int32.
pub proof fn law_wrap(x: int, r: i32)
    ensures
        r == math::wrap(x) <==> (r - x) % 0x1_0000_0000 == 0,
{
    math::lemma_wrap_congruent(x);
}

/// Rounding up gives the least multiple of `d` that is at least `x`.
pub proof fn law_round_up(x: int, d: int)
    requires
        0 < d,
    ensures
        x <= math::round_up(x, d) < x + d,
        math::round_up(x, d) % d == 0,
{
    vstd::arithmetic::div_mod::lemma_fundamental_div_mod(x + d - 1, d);
    let q = (x + d - 1) / d;
    assert(d * q == q * d) by (nonlinear_arith);
    vstd::arithmetic::div_mod::lemma_mod_multiples_basic(q, d);
}

/// The scalar reference: entry `(i, j)` is the sum over `p < k` of `A[i][p] * B[p][j]`, modulo 2^32.
pub proof fn law_scalar_entry(
    before: Seq<i32>,
    after: Seq<i32>,
    a: Seq<i8>,
    b: Seq<i8>,
    m: int,
    n: int,
    k: int,
    i: int,
    j: int,
    s: Seq<int>,
)
    requires
        model::filled(before, after, n, model::window(m, 0, n), model::product_value(a, b, n, k)),
        m * n <= before.len(),
        0 <= i < m,
        0 <= j < n,
        0 <= k,
        s.len() == k + 1,
        s[0] == 0,
        forall|p: int|
            #![trigger s[p]]
            0 <= p < k ==> s[p + 1] == s[p] + a[i * k + p] * b[p * n + j],
    ensures
        (after[i * n + j] - s[k]) % 0x1_0000_0000 == 0,
{
    let f = model::product_terms(a, b, n, k, i, j);
    assert forall|p: int| 0 <= p < k implies s[p + 1] == s[p] + #[trigger] f(p) by {
        let step = s[p];
    }
    law_sum(f, k, s);
    math::lemma_wrap_congruent(s[k]);
    model::lemma_index_bound(m, n, i, j);
    model::lemma_row_col(n, i, j);
}

/// `SDOT` over columns `j0..j1`: entry `(i, j)` is the sum over `p < k` of element `p` of row `i` of
/// `a`, rows `k` apart, times element `p` of row `j` of `bt`, rows `kp` apart, modulo 2^32.
pub proof fn law_sdot_result(
    before: Seq<i32>,
    after: Seq<i32>,
    a: Seq<i8>,
    bt: Seq<i8>,
    m: int,
    n: int,
    k: int,
    kp: int,
    j0: int,
    j1: int,
    i: int,
    j: int,
    s: Seq<int>,
)
    requires
        model::filled(before, after, n, model::window(m, j0, j1), model::row_value(a, bt, k, kp)),
        m * n <= before.len(),
        0 <= i < m,
        0 <= j < n,
        j0 <= j < j1,
        0 <= k,
        s.len() == k + 1,
        s[0] == 0,
        forall|p: int|
            #![trigger s[p]]
            0 <= p < k ==> s[p + 1] == s[p] + a[i * k + p] * bt[j * kp + p],
    ensures
        (after[i * n + j] - s[k]) % 0x1_0000_0000 == 0,
{
    let f = model::span_terms(a, i * k, bt, j * kp);
    assert forall|p: int| 0 <= p < k implies s[p + 1] == s[p] + #[trigger] f(p) by {
        let step = s[p];
    }
    law_sum(f, k, s);
    math::lemma_wrap_congruent(s[k]);
    model::lemma_index_bound(m, n, i, j);
    model::lemma_row_col(n, i, j);
}

/// `SMMLA` over column pairs `cp0..cp1`: entry `(i, j)` is the sum over all packed elements of row
/// `i` of `pa` times the same element of row `j` of `pb`, modulo 2^32. Element `p` of row `r` is byte
/// `p % 8` of half `r % 2` of tile `p / 8` of row pair `r / 2`.
pub proof fn law_smmla_result(
    before: Seq<i32>,
    after: Seq<i32>,
    pa: Seq<i8>,
    pb: Seq<i8>,
    m: int,
    n: int,
    mp: int,
    kp: int,
    cp0: int,
    cp1: int,
    i: int,
    j: int,
    s: Seq<int>,
)
    requires
        model::filled(
            before,
            after,
            n,
            model::window(model::rows_reached(m, mp / 2), 2 * cp0, 2 * cp1),
            model::packed_value(pa, pb, kp / 8),
        ),
        m * n <= before.len(),
        0 <= i < m,
        i < 2 * (mp / 2),
        0 <= j < n,
        2 * cp0 <= j < 2 * cp1,
        0 <= kp,
        s.len() == 8 * (kp / 8) + 1,
        s[0] == 0,
        forall|p: int|
            #![trigger s[p]]
            0 <= p < 8 * (kp / 8) ==> s[p + 1] == s[p] + pa[((i / 2) * (kp / 8) + p / 8) * 16 + (i
                % 2) * 8 + p % 8] * pb[((j / 2) * (kp / 8) + p / 8) * 16 + (j % 2) * 8 + p % 8],
    ensures
        (after[i * n + j] - s[8 * (kp / 8)]) % 0x1_0000_0000 == 0,
{
    let f = model::packed_terms(pa, pb, kp / 8, i, j);
    let k = 8 * (kp / 8);
    assert forall|p: int| 0 <= p < k implies s[p + 1] == s[p] + #[trigger] f(p) by {
        let step = s[p];
    }
    law_sum(f, k, s);
    math::lemma_wrap_congruent(s[k]);
    model::lemma_index_bound(m, n, i, j);
    model::lemma_row_col(n, i, j);
}

/// A kernel restricted to columns `j0..j1` of the first `rows` rows writes nothing else, and never
/// changes the length of `C`.
pub proof fn law_outside_untouched(
    before: Seq<i32>,
    after: Seq<i32>,
    n: int,
    rows: int,
    j0: int,
    j1: int,
    value: spec_fn(int, int) -> i32,
    x: int,
)
    requires
        model::filled(before, after, n, model::window(rows, j0, j1), value),
    ensures
        after.len() == before.len(),
        0 <= x < before.len() && (n <= 0 || x / n >= rows || x % n < j0 || x % n >= j1)
            ==> after[x] == before[x],
{
    if 0 <= x < before.len() {
        let entry = after[x];
    }
}

/// An `SMMLA` kernel writes only rows that `C` has and that the packed operand has.
pub proof fn law_smmla_rows(
    before: Seq<i32>,
    after: Seq<i32>,
    n: int,
    m: int,
    mp: int,
    j0: int,
    j1: int,
    value: spec_fn(int, int) -> i32,
    x: int,
)
    requires
        model::filled(
            before,
            after,
            n,
            model::window(model::rows_reached(m, mp / 2), j0, j1),
            value,
        ),
        0 <= x < before.len(),
        n > 0,
        x / n >= m || x / n >= 2 * (mp / 2),
    ensures
        after[x] == before[x],
{
    law_outside_untouched(
        before,
        after,
        n,
        model::rows_reached(m, mp / 2),
        j0,
        j1,
        value,
        x,
    );
}

/// A stored tile: lane `2u + v` lands at row `r + u`, column `c0 + v`, if that is in the first `m`
/// rows and `n` columns, and nothing else changes.
pub proof fn law_stored_tile(
    before: Seq<i32>,
    after: Seq<i32>,
    acc: Seq<i32>,
    r: int,
    c0: int,
    m: int,
    n: int,
    u: int,
    v: int,
    x: int,
)
    requires
        model::filled(
            before,
            after,
            n,
            model::tile(r, c0, m),
            model::tile_value(acc, r, c0),
        ),
        m * n <= before.len(),
        0 <= r,
        0 <= c0,
        0 <= u < 2,
        0 <= v < 2,
    ensures
        after.len() == before.len(),
        r + u < m && c0 + v < n ==> after[(r + u) * n + (c0 + v)] == acc[2 * u + v],
        0 <= x < before.len() && (n <= 0 || x / n < r || x / n >= r + 2 || x / n >= m || x % n < c0
            || x % n >= c0 + 2) ==> after[x] == before[x],
{
    if r + u < m && c0 + v < n {
        model::lemma_index_bound(m, n, r + u, c0 + v);
        model::lemma_row_col(n, r + u, c0 + v);
        let entry = after[(r + u) * n + (c0 + v)];
    }
    if 0 <= x < before.len() {
        let entry = after[x];
    }
}

/// Transposed `B`: byte `p` of column `j` is `B[p][j]`, and zero from `k` on.
pub proof fn law_transposed(b: Seq<i8>, n: int, k: int, kp: int, j: int, p: int)
    requires
        0 <= j < n,
        0 <= p < kp,
    ensures
        pack::transposed(b, n, k, kp).len() == n * kp,
        0 <= j * kp + p < n * kp,
        p < k ==> pack::transposed(b, n, k, kp)[j * kp + p] == b[p * n + j],
        p >= k ==> pack::transposed(b, n, k, kp)[j * kp + p] == 0,
{
    model::lemma_index_bound(n, kp, j, p);
    model::lemma_row_col(kp, j, p);
}

/// Packed `A`, with `m` rounded up to `mp` and `k` to `kp`: every element of `A` stands in its place
/// in its tile, and every place past the last row or element is zero.
pub proof fn law_packed_a(a: Seq<i8>, m: int, k: int, mp: int, kp: int, i: int, p: int)
    requires
        0 <= m <= mp < m + 2,
        mp % 2 == 0,
        0 <= k <= kp < k + 8,
        kp % 8 == 0,
        0 <= i < mp,
        0 <= p < kp,
    ensures
        ({
            let packed = pack::panels(m, k, pack::row_of(a, k));
            let x = ((i / 2) * (kp / 8) + p / 8) * 16 + (i % 2) * 8 + p % 8;
            &&& math::round_up(m, 2) == mp
            &&& math::round_up(k, 8) == kp
            &&& packed.len() == mp * kp
            &&& 0 <= x < packed.len()
            &&& i < m && p < k ==> packed[x] == a[i * k + p]
            &&& i >= m || p >= k ==> packed[x] == 0
        }),
{
    pack::lemma_panel_sizes(m, k);
    assert(math::round_up(m, 2) == mp);
    assert(math::round_up(k, 8) == kp);
    pack::lemma_packed_element(m, k, pack::row_of(a, k), i, p);
    assert(0 <= mp * kp) by (nonlinear_arith)
        requires
            0 <= mp,
            0 <= kp,
    ;
}

/// Packed `B`, with `n` rounded up to `np` and `k` to `kp`: every element of `B` stands in its place
/// in its tile, and every place past the last column or element is zero.
pub proof fn law_packed_b(b: Seq<i8>, n: int, k: int, np: int, kp: int, j: int, p: int)
    requires
        0 <= n <= np < n + 2,
        np % 2 == 0,
        0 <= k <= kp < k + 8,
        kp % 8 == 0,
        0 <= j < np,
        0 <= p < kp,
    ensures
        ({
            let packed = pack::panels(n, k, pack::column_of(b, n));
            let x = ((j / 2) * (kp / 8) + p / 8) * 16 + (j % 2) * 8 + p % 8;
            &&& math::round_up(n, 2) == np
            &&& math::round_up(k, 8) == kp
            &&& packed.len() == np * kp
            &&& 0 <= x < packed.len()
            &&& j < n && p < k ==> packed[x] == b[p * n + j]
            &&& j >= n || p >= k ==> packed[x] == 0
        }),
{
    pack::lemma_panel_sizes(n, k);
    assert(math::round_up(n, 2) == np);
    assert(math::round_up(k, 8) == kp);
    pack::lemma_packed_element(n, k, pack::column_of(b, n), j, p);
    assert(0 <= np * kp) by (nonlinear_arith)
        requires
            0 <= np,
            0 <= kp,
    ;
}

/// The bytes of packed `A` and packed `B` come in the numbers that the padded sizes say, also where
/// there are none.
pub proof fn law_packed_sizes(a: Seq<i8>, b: Seq<i8>, m: int, n: int, k: int)
    requires
        0 <= m,
        0 <= n,
        0 <= k,
    ensures
        pack::panels(m, k, pack::row_of(a, k)).len() == 16 * ((m + 1) / 2 * ((k + 7) / 8)),
        pack::panels(n, k, pack::column_of(b, n)).len() == 16 * ((n + 1) / 2 * ((k + 7) / 8)),
        math::round_up(m, 2) == 2 * ((m + 1) / 2),
        math::round_up(k, 8) == 8 * ((k + 7) / 8),
{
    pack::lemma_panel_sizes(m, k);
    pack::lemma_panel_sizes(n, k);
    let (x, y, z) = ((m + 1) / 2, (n + 1) / 2, (k + 7) / 8);
    assert((2 * x) * (8 * z) == 16 * (x * z) && 0 <= x * z) by (nonlinear_arith)
        requires
            0 <= x,
            0 <= z,
    ;
    assert((2 * y) * (8 * z) == 16 * (y * z) && 0 <= y * z) by (nonlinear_arith)
        requires
            0 <= y,
            0 <= z,
    ;
}

/// One `SDOT`: each lane gains the products of its four lanes, modulo 2^32.
pub proof fn law_sdot_lane(acc: Seq<i32>, a: Seq<i8>, b: Seq<i8>, l: int)
    requires
        0 <= l < 4,
    ensures
        neon::sdot(acc, a, b).len() == 4,
        (neon::sdot(acc, a, b)[l] - (acc[l] + a[4 * l] * b[4 * l] + a[4 * l + 1] * b[4 * l + 1]
            + a[4 * l + 2] * b[4 * l + 2] + a[4 * l + 3] * b[4 * l + 3])) % 0x1_0000_0000 == 0,
{
    math::lemma_wrap_congruent(acc[l] + neon::dot4(a, 4 * l, b, 4 * l));
}

/// One `SMMLA`: lane `2r + c` gains the eight products of row `r` of `a` with row `c` of `b`, modulo
/// 2^32.
pub proof fn law_smmla_lane(acc: Seq<i32>, a: Seq<i8>, b: Seq<i8>, r: int, c: int)
    requires
        0 <= r < 2,
        0 <= c < 2,
    ensures
        neon::smmla(acc, a, b).len() == 4,
        (neon::smmla(acc, a, b)[2 * r + c] - (acc[2 * r + c] + a[8 * r] * b[8 * c] + a[8 * r + 1]
            * b[8 * c + 1] + a[8 * r + 2] * b[8 * c + 2] + a[8 * r + 3] * b[8 * c + 3] + a[8 * r
            + 4] * b[8 * c + 4] + a[8 * r + 5] * b[8 * c + 5] + a[8 * r + 6] * b[8 * c + 6] + a[8
            * r + 7] * b[8 * c + 7])) % 0x1_0000_0000 == 0,
{
    let l = 2 * r + c;
    assert(l / 2 == r && l % 2 == c);
    math::lemma_wrap_congruent(acc[l] + neon::dot8(a, 8 * r, b, 8 * c));
}

/// Columns are shared out evenly among as many workers as are asked for and have something to do:
/// with `w` the smaller of `threads` and `total`, both taken as at least one, no range is longer than
/// `total / w` rounded up; and if `threads` divides `total`, there are `threads` ranges of equal
/// length.
pub proof fn law_ranges_even(ranges: Seq<(usize, usize)>, total: int, threads: int)
    requires
        0 <= total,
        0 <= threads,
        ranges.len() == partition::range_count(total, threads),
        forall|t: int|
            0 <= t < ranges.len() ==> (#[trigger] ranges[t]).0 == t * partition::chunk(
                total,
                threads,
            ) && ranges[t].1 == partition::range_end(total, threads, t),
    ensures
        ({
            let wanted = if threads > 1 {
                threads
            } else {
                1
            };
            let most = if total > 1 {
                total
            } else {
                1
            };
            let w = if wanted < most {
                wanted
            } else {
                most
            };
            &&& 1 <= ranges.len() <= w
            &&& forall|t: int|
                0 <= t < ranges.len() ==> (#[trigger] ranges[t]).1 - ranges[t].0 <= (total + w - 1)
                    / w
            &&& forall|t: int|
                0 <= t < ranges.len() - 1 ==> (#[trigger] ranges[t]).1 - ranges[t].0 == (total + w
                    - 1) / w
        }),
        0 < threads && 0 < total && total % threads == 0 ==> {
            &&& ranges.len() == threads
            &&& forall|t: int|
                0 <= t < ranges.len() ==> (#[trigger] ranges[t]).0 == t * (total / threads)
                    && ranges[t].1 == (t + 1) * (total / threads)
        },
{
    let w = partition::workers(total, threads);
    let size = partition::chunk(total, threads);
    let count = partition::range_count(total, threads);
    if w == 1 {
        vstd::arithmetic::div_mod::lemma_div_basics(total);
        assert(size == total);
        assert(count == 1);
        assert(0 * size == 0 && (0 + 1) * size == size) by (nonlinear_arith);
        assert forall|t: int| 0 <= t < ranges.len() implies (#[trigger] ranges[t]).1 - ranges[t].0
            <= size by {
            assert(t == 0);
        }
        if 0 < threads && 0 < total && total % threads == 0 {
            if threads > 1 {
                assert(total == 1);
                vstd::arithmetic::div_mod::lemma_small_mod(1, threads as nat);
                assert(false);
            }
            assert(threads == 1);
            assert(total / threads == total);
            assert forall|t: int| 0 <= t < ranges.len() implies (#[trigger] ranges[t]).0 == t * (
            total / threads) && ranges[t].1 == (t + 1) * (total / threads) by {
                assert(t == 0);
            }
        }
    } else {
        partition::lemma_chunks_reach(total, w);
        partition::lemma_chunk_starts(total, size, w);
        partition::lemma_chunk_starts(total, size, 0);
        assert(0 * size == 0) by (nonlinear_arith);
        assert forall|t: int| 0 <= t < ranges.len() implies (#[trigger] ranges[t]).1 - ranges[t].0
            <= size && (t < ranges.len() - 1 ==> ranges[t].1 - ranges[t].0 == size) by {
            assert((t + 1) * size == t * size + size) by (nonlinear_arith);
            partition::lemma_chunk_starts(total, size, t + 1);
        }
        if 0 < threads && 0 < total && total % threads == 0 {
            vstd::arithmetic::div_mod::lemma_fundamental_div_mod(total, threads);
            if threads > total {
                vstd::arithmetic::div_mod::lemma_small_mod(total as nat, threads as nat);
                assert(false);
            }
            let q = total / threads;
            assert(w == threads);
            assert(total + w - 1 == q * w + (w - 1)) by (nonlinear_arith)
                requires
                    total == threads * q,
                    w == threads,
            ;
            vstd::arithmetic::div_mod::lemma_fundamental_div_mod_converse(
                total + w - 1,
                w,
                q,
                w - 1,
            );
            assert(size == q);
            partition::lemma_chunk_starts(total, size, threads - 1);
            assert((threads - 1) * size < total) by (nonlinear_arith)
                requires
                    total == threads * size,
                    size >= 1,
            ;
            assert(ranges.len() == threads);
            assert forall|t: int| 0 <= t < ranges.len() implies (#[trigger] ranges[t]).0 == t * q
                && ranges[t].1 == (t + 1) * q by {
                assert((t + 1) * size <= total) by (nonlinear_arith)
                    requires
                        total == threads * size,
                        0 <= t < threads,
                        size >= 1,
                ;
            }
        }
    }
}

/// The ranges of a partition, written out: they start at 0, end at `total`, and each begins where
/// the one before it ends.
pub proof fn law_ranges_adjoin(ranges: Seq<(usize, usize)>, total: int, t: int)
    requires
        partition::is_partition(ranges, total),
        0 <= t < ranges.len(),
    ensures
        ranges[0].0 == 0,
        ranges[ranges.len() - 1].1 == total,
        ranges[t].0 <= ranges[t].1,
        t > 0 ==> ranges[t - 1].1 == ranges[t].0,
{
}

/// A fill, written out over the generator's states: the first state is the seed with its lowest bit
/// set, each state comes from the one before by three shifts and exclusive ors, and byte `i` is bits
/// 24 to 31 of the state after `i + 1` steps, however large `i` is.
pub proof fn law_stream_states(seed: u64, len: int, states: Seq<u64>, i: int)
    requires
        0 <= i < len,
        states.len() == len + 1,
        states[0] == seed | 1,
        forall|t: int, u: int|
            0 <= t < len && u == t + 1 ==> #[trigger] states[u] == ({
                let s = #[trigger] states[t];
                let s1 = s ^ (s << 13);
                let s2 = s1 ^ (s1 >> 7);
                s2 ^ (s2 << 17)
            }),
    ensures
        fill::stream(seed, len).len() == len,
        fill::stream(seed, len)[i] == (states[i + 1] >> 24) as i8,
{
    lemma_states(seed, len, states, i + 1);
}

/// The states of a stream are the generator's.
proof fn lemma_states(seed: u64, len: int, states: Seq<u64>, t: int)
    requires
        0 <= t <= len,
        states.len() == len + 1,
        states[0] == seed | 1,
        forall|t: int, u: int|
            0 <= t < len && u == t + 1 ==> #[trigger] states[u] == ({
                let s = #[trigger] states[t];
                let s1 = s ^ (s << 13);
                let s2 = s1 ^ (s1 >> 7);
                s2 ^ (s2 << 17)
            }),
    ensures
        fill::state(seed, t as nat) == states[t],
    decreases t,
{
    if t > 0 {
        lemma_states(seed, len, states, t - 1);
        let (x, y) = (states[t - 1], states[t]);
    }
}

/// What comes of a stream depends on the generator's state alone, not on how many bytes have come
/// before: from equal states, two streams go on alike.
pub proof fn law_stream_goes_on_alike(seed1: u64, t1: int, seed2: u64, t2: int, rest: int)
    requires
        0 <= t1,
        0 <= t2,
        0 <= rest,
        fill::state(seed1, t1 as nat) == fill::state(seed2, t2 as nat),
    ensures
        fill::stream(seed1, t1 + rest).subrange(t1, t1 + rest) == fill::stream(
            seed2,
            t2 + rest,
        ).subrange(t2, t2 + rest),
{
    let x = fill::stream(seed1, t1 + rest).subrange(t1, t1 + rest);
    let y = fill::stream(seed2, t2 + rest).subrange(t2, t2 + rest);
    assert forall|i: int| 0 <= i < rest implies #[trigger] x[i] == y[i] by {
        lemma_states_go_on_alike(seed1, t1, seed2, t2, i + 1);
    }
    assert(x =~= y);
}

/// From equal states, two generators go on alike.
proof fn lemma_states_go_on_alike(seed1: u64, t1: int, seed2: u64, t2: int, steps: int)
    requires
        0 <= t1,
        0 <= t2,
        0 <= steps,
        fill::state(seed1, t1 as nat) == fill::state(seed2, t2 as nat),
    ensures
        fill::state(seed1, (t1 + steps) as nat) == fill::state(seed2, (t2 + steps) as nat),
    decreases steps,
{
    if steps > 0 {
        lemma_states_go_on_alike(seed1, t1, seed2, t2, steps - 1);
    }
}

/// A stream restarted at a state that it has reached goes on where it was: from byte `t` on, the
/// stream of `seed` is the stream of its own state after `t` steps, whenever that state is odd and so
/// can be a first state.
pub proof fn law_stream_restarts(seed: u64, t: int, rest: int)
    requires
        0 <= t,
        0 <= rest,
        fill::state(seed, t as nat) | 1 == fill::state(seed, t as nat),
    ensures
        fill::stream(seed, t + rest).subrange(t, t + rest) == fill::stream(
            fill::state(seed, t as nat),
            rest,
        ),
{
    let restart = fill::state(seed, t as nat);
    law_stream_goes_on_alike(seed, t, restart, 0, rest);
    assert(fill::stream(restart, 0 + rest).subrange(0, 0 + rest) =~= fill::stream(restart, rest));
}

/// The value of a byte of the stream: congruent modulo 256 to the state divided by 2^24.
pub proof fn law_stream_value(seed: u64, len: int, i: int)
    requires
        0 <= i < len,
    ensures
        (fill::stream(seed, len)[i] - fill::state(seed, (i + 1) as nat) / 0x100_0000) % 256 == 0,
{
    let s = fill::state(seed, (i + 1) as nat);
    let low = ((s >> 24) as u8) as int;
    let byte = (s >> 24) as i8;
    assert((s >> 24) as u8 == (s / 0x100_0000) % 256) by (bit_vector);
    assert((s >> 24) as i8 == (s >> 24) as u8 || (s >> 24) as i8 == (s >> 24) as u8 - 256)
        by (bit_vector);
}

/// `run_all` and `run_mt`: with `a` and `b` the first `m * k` and `k * n` bytes of the streams of the
/// two seeds, entry `(i, j)` of the result is the sum over `p < k` of `a[i][p] * b[p][j]`, modulo
/// 2^32.
pub proof fn law_expected_entry(
    a: Seq<i8>,
    b: Seq<i8>,
    m: int,
    n: int,
    k: int,
    i: int,
    j: int,
    s: Seq<int>,
)
    requires
        a == fill::stream(0x9E3779B97F4A7C15, m * k),
        b == fill::stream(0xBF58476D1CE4E5B9, k * n),
        0 <= i < m,
        0 <= j < n,
        0 <= k,
        s.len() == k + 1,
        s[0] == 0,
        forall|p: int|
            #![trigger s[p]]
            0 <= p < k ==> s[p + 1] == s[p] + a[i * k + p] * b[p * n + j],
    ensures
        harness::expected(m, n, k).len() == m * n,
        0 <= i * n + j < m * n,
        (harness::expected(m, n, k)[i * n + j] - s[k]) % 0x1_0000_0000 == 0,
{
    let f = model::product_terms(a, b, n, k, i, j);
    assert forall|p: int| 0 <= p < k implies s[p + 1] == s[p] + #[trigger] f(p) by {
        let step = s[p];
    }
    law_sum(f, k, s);
    math::lemma_wrap_congruent(s[k]);
    model::lemma_index_bound(m, n, i, j);
    model::lemma_row_col(n, i, j);
}

/// `run_all` and `run_mt` give `m * n` entries, also where that is none.
pub proof fn law_expected_length(m: int, n: int, k: int)
    requires
        0 <= m,
        0 <= n,
    ensures
        harness::expected(m, n, k).len() == m * n,
{
    assert(0 <= m * n) by (nonlinear_arith)
        requires
            0 <= m,
            0 <= n,
    ;
}

/// Every shape whose buffers, rounded up to whole tiles, are no larger than an allocation can be, can
/// be run.
pub proof fn law_allocatable(m: int, n: int, k: int)
    requires
        0 <= m,
        0 <= n,
        0 <= k,
        (m + 1) * (k + 7) <= isize::MAX,
        (n + 1) * (k + 7) <= isize::MAX,
        4 * (m * n) <= isize::MAX,
    ensures
        harness::allocatable(m, n, k),
{
    pack::lemma_panel_sizes(m, k);
    pack::lemma_panel_sizes(n, k);
    let (mp, np, kp) = (math::round_up(m, 2), math::round_up(n, 2), math::round_up(k, 8));
    assert(mp * kp <= (m + 1) * (k + 7) && m * k <= (m + 1) * (k + 7) && m + 1 <= (m + 1) * (k + 7)
        && k + 7 <= (m + 1) * (k + 7)) by (nonlinear_arith)
        requires
            0 <= m <= mp <= m + 1,
            0 <= k <= kp <= k + 7,
    ;
    assert(np * kp <= (n + 1) * (k + 7) && k * n <= (n + 1) * (k + 7) && n + 1 <= (n + 1) * (k
        + 7)) by (nonlinear_arith)
        requires
            0 <= n <= np <= n + 1,
            0 <= k <= kp <= k + 7,
    ;
}

} // verus!
