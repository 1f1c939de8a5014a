//! What the kernels compute: entries of a matrix product, and which part of `C` a call writes.
//!
//! Matrices are row-major sequences. `C` has rows of length `n`, so index `x` of `C` is row
//! `x / n`, column `x % n`.
use crate::math;
use vstd::prelude::*;

verus! {

/// The terms of entry `(i, j)` of `A * B`, for `A` with rows of length `k` and `B` with rows of
/// length `n`: `A[i][p] * B[p][j]`.
pub open spec fn product_terms(
    a: Seq<i8>,
    b: Seq<i8>,
    n: int,
    k: int,
    i: int,
    j: int,
) -> spec_fn(int) -> int {
    |p: int| a[i * k + p] * b[p * n + j]
}

/// Entry `(i, j)` of `A * B`: the sum over `p < k` of `A[i][p] * B[p][j]`.
pub open spec fn product(a: Seq<i8>, b: Seq<i8>, n: int, k: int, i: int, j: int) -> int {
    math::sum(product_terms(a, b, n, k, i, j), k)
}

/// The entries of `A * B` modulo 2^32.
pub open spec fn product_value(a: Seq<i8>, b: Seq<i8>, n: int, k: int) -> spec_fn(
    int,
    int,
) -> i32 {
    |i: int, j: int| math::wrap(product(a, b, n, k, i, j))
}

/// The terms of the dot product of `x` from index `x0` with `y` from index `y0`.
pub open spec fn span_terms(x: Seq<i8>, x0: int, y: Seq<i8>, y0: int) -> spec_fn(int) -> int {
    |p: int| x[x0 + p] * y[y0 + p]
}

/// The dot products of the first `k` elements of row `i` of `a`, whose rows are `k` apart, and of
/// row `j` of `bt`, whose rows are `kp` apart, modulo 2^32.
pub open spec fn row_value(a: Seq<i8>, bt: Seq<i8>, k: int, kp: int) -> spec_fn(int, int) -> i32 {
    |i: int, j: int| math::wrap(math::sum(span_terms(a, i * k, bt, j * kp), k))
}

/// Where the packed `SMMLA` layout keeps element `p` of row `r`, with `kblocks` tiles of 16 bytes
/// to a row pair: tile `(r / 2, p / 8)`, half `r % 2`, byte `p % 8`.
pub open spec fn packed_index(kblocks: int, r: int, p: int) -> int {
    ((r / 2) * kblocks + p / 8) * 16 + (r % 2) * 8 + p % 8
}

/// The terms of the dot product of row `i` of `pa` with row `j` of `pb`, both packed for `SMMLA`.
pub open spec fn packed_terms(
    pa: Seq<i8>,
    pb: Seq<i8>,
    kblocks: int,
    i: int,
    j: int,
) -> spec_fn(int) -> int {
    |p: int| pa[packed_index(kblocks, i, p)] * pb[packed_index(kblocks, j, p)]
}

/// The dot products of row `i` of `pa` and row `j` of `pb`, both packed for `SMMLA`, modulo 2^32.
pub open spec fn packed_value(pa: Seq<i8>, pb: Seq<i8>, kblocks: int) -> spec_fn(int, int) -> i32 {
    |i: int, j: int| math::wrap(math::sum(packed_terms(pa, pb, kblocks, i, j), 8 * kblocks))
}

/// The entries in the first `rows` rows and in columns `j0..j1`.
pub open spec fn window(rows: int, j0: int, j1: int) -> spec_fn(int, int) -> bool {
    |i: int, j: int| i < rows && j0 <= j < j1
}

/// The part of columns `j0..j1` that a row by row scan has passed on reaching entry `(i, j)`.
pub open spec fn scanned(i: int, j: int, j0: int, j1: int) -> spec_fn(int, int) -> bool {
    |r: int, s: int| (r < i && j0 <= s < j1) || (r == i && j0 <= s < j)
}

/// The number of rows of `C` that `rowpairs` packed row pairs reach, when `C` has `m` rows.
pub open spec fn rows_reached(m: int, rowpairs: int) -> int {
    if m <= 2 * rowpairs {
        m
    } else {
        2 * rowpairs
    }
}

/// `after` holds `value(i, j)` at each entry of `region` and is otherwise what `before` was.
pub open spec fn filled(
    before: Seq<i32>,
    after: Seq<i32>,
    n: int,
    region: spec_fn(int, int) -> bool,
    value: spec_fn(int, int) -> i32,
) -> bool {
    &&& after.len() == before.len()
    &&& forall|x: int|
        0 <= x < after.len() ==> #[trigger] after[x] == if n > 0 && region(x / n, x % n) {
            value(x / n, x % n)
        } else {
            before[x]
        }
}

/// The 2x2 tile of `C` whose top left entry is `(r, s)`, as far as it lies in the first `m` rows.
pub open spec fn tile(r: int, s: int, m: int) -> spec_fn(int, int) -> bool {
    |i: int, j: int| r <= i < r + 2 && i < m && s <= j < s + 2
}

/// The lanes of an accumulator laid over that tile, in lane order `[r0c0, r0c1, r1c0, r1c1]`.
pub open spec fn tile_value(acc: Seq<i32>, r: int, s: int) -> spec_fn(int, int) -> i32 {
    |i: int, j: int| acc[2 * (i - r) + (j - s)]
}

/// Entries of either region.
pub open spec fn union(
    r1: spec_fn(int, int) -> bool,
    r2: spec_fn(int, int) -> bool,
) -> spec_fn(int, int) -> bool {
    |i: int, j: int| r1(i, j) || r2(i, j)
}

/// The part of a window that a scan in bands of rows has passed: all of the rows above `i0`, and
/// the columns before `j` of the rows from `i0` to `i1`.
pub open spec fn banded(
    rows: int,
    j0: int,
    j1: int,
    i0: int,
    i1: int,
    j: int,
) -> spec_fn(int, int) -> bool {
    |r: int, s: int| r < rows && j0 <= s < j1 && (r < i0 || (r < i1 && s < j))
}

/// Row and column of index `i * n + j`.
pub proof fn lemma_row_col(n: int, i: int, j: int)
    requires
        0 <= j < n,
    ensures
        (i * n + j) / n == i,
        (i * n + j) % n == j,
{
    vstd::arithmetic::div_mod::lemma_fundamental_div_mod_converse(i * n + j, n, i, j);
}

/// Index `i * n + j` lies below `m * n` for a row below `m` and a column below `n`.
pub proof fn lemma_index_bound(m: int, n: int, i: int, j: int)
    requires
        0 <= i < m,
        0 <= j < n,
    ensures
        0 <= i * n <= i * n + j < m * n,
        (i + 1) * n <= m * n,
        (i + 1) * n == i * n + n,
{
    assert(0 <= i * n && (i + 1) * n <= m * n && (i + 1) * n == i * n + n) by (nonlinear_arith)
        requires
            0 <= i < m,
            0 < n,
    ;
}

/// Storing `value(i, j)` at entry `(i, j)` adds that entry to the filled region.
pub proof fn lemma_fill_one(
    before: Seq<i32>,
    c: Seq<i32>,
    n: int,
    region: spec_fn(int, int) -> bool,
    value: spec_fn(int, int) -> i32,
    i: int,
    j: int,
)
    requires
        filled(before, c, n, region, value),
        0 <= j < n,
        0 <= i,
        0 <= i * n + j < c.len(),
    ensures
        filled(
            before,
            c.update(i * n + j, value(i, j)),
            n,
            |r: int, s: int| region(r, s) || (r == i && s == j),
            value,
        ),
{
    let c1 = c.update(i * n + j, value(i, j));
    let grown = |r: int, s: int| region(r, s) || (r == i && s == j);
    lemma_row_col(n, i, j);
    assert forall|x: int| 0 <= x < c1.len() implies #[trigger] c1[x] == if n > 0 && grown(
        x / n,
        x % n,
    ) {
        value(x / n, x % n)
    } else {
        before[x]
    } by {
        if x != i * n + j {
            assert(c1[x] == c[x]);
            vstd::arithmetic::div_mod::lemma_fundamental_div_mod(x, n);
            assert(n * (x / n) == (x / n) * n) by (nonlinear_arith);
            assert(!(x / n == i && x % n == j));
        }
    }
}

/// Regions that agree on every entry of `C` are filled alike.
pub proof fn lemma_region_ext(
    before: Seq<i32>,
    c: Seq<i32>,
    n: int,
    r1: spec_fn(int, int) -> bool,
    r2: spec_fn(int, int) -> bool,
    value: spec_fn(int, int) -> i32,
)
    requires
        filled(before, c, n, r1, value),
        forall|i: int, j: int|
            n > 0 && 0 <= i && 0 <= j < n && i * n + j < c.len() ==> #[trigger] r1(i, j) == r2(
                i,
                j,
            ),
    ensures
        filled(before, c, n, r2, value),
{
    assert forall|x: int| 0 <= x < c.len() implies #[trigger] c[x] == if n > 0 && r2(
        x / n,
        x % n,
    ) {
        value(x / n, x % n)
    } else {
        before[x]
    } by {
        if n > 0 {
            vstd::arithmetic::div_mod::lemma_fundamental_div_mod(x, n);
            assert(n * (x / n) == (x / n) * n) by (nonlinear_arith);
            vstd::arithmetic::div_mod::lemma_div_pos_is_pos(x, n);
            assert(r1(x / n, x % n) == r2(x / n, x % n));
        }
    }
}

/// Filling a second region with the values due there joins it to the first.
pub proof fn lemma_fill_more(
    c0: Seq<i32>,
    c1: Seq<i32>,
    c2: Seq<i32>,
    n: int,
    r1: spec_fn(int, int) -> bool,
    r2: spec_fn(int, int) -> bool,
    joined: spec_fn(int, int) -> bool,
    value: spec_fn(int, int) -> i32,
    value2: spec_fn(int, int) -> i32,
)
    requires
        filled(c0, c1, n, r1, value),
        filled(c1, c2, n, r2, value2),
        forall|i: int, j: int|
            0 <= i && 0 <= j < n && #[trigger] r2(i, j) ==> value2(i, j) == value(i, j),
        forall|i: int, j: int|
            0 <= i && 0 <= j < n ==> #[trigger] joined(i, j) == (r1(i, j) || r2(i, j)),
    ensures
        filled(c0, c2, n, joined, value),
{
    assert forall|x: int| 0 <= x < c2.len() implies #[trigger] c2[x] == if n > 0 && joined(
        x / n,
        x % n,
    ) {
        value(x / n, x % n)
    } else {
        c0[x]
    } by {
        let middle = c1[x];
        if n > 0 {
            vstd::arithmetic::div_mod::lemma_fundamental_div_mod(x, n);
            vstd::arithmetic::div_mod::lemma_div_pos_is_pos(x, n);
            assert(joined(x / n, x % n) == (r1(x / n, x % n) || r2(x / n, x % n)));
        }
    }
}

/// Nothing has been written yet.
pub proof fn lemma_fill_none(
    c: Seq<i32>,
    n: int,
    region: spec_fn(int, int) -> bool,
    value: spec_fn(int, int) -> i32,
)
    requires
        forall|i: int, j: int| !#[trigger] region(i, j),
    ensures
        filled(c, c, n, region, value),
{
}

/// A scan starts with nothing passed.
pub proof fn lemma_scan_start(c: Seq<i32>, n: int, j0: int, j1: int, value: spec_fn(int, int) -> i32)
    ensures
        filled(c, c, n, scanned(0, j0, j0, j1), value),
{
    let nothing = |r: int, s: int| false;
    lemma_fill_none(c, n, nothing, value);
    lemma_region_ext(c, c, n, nothing, scanned(0, j0, j0, j1), value);
}

/// Storing entry `(i, j)` moves a scan on by one column.
pub proof fn lemma_scan_step(
    before: Seq<i32>,
    c: Seq<i32>,
    n: int,
    i: int,
    j: int,
    j0: int,
    j1: int,
    value: spec_fn(int, int) -> i32,
)
    requires
        filled(before, c, n, scanned(i, j, j0, j1), value),
        0 <= i,
        0 <= j0 <= j < j1 <= n,
        0 <= i * n + j < c.len(),
    ensures
        filled(
            before,
            c.update(i * n + j, value(i, j)),
            n,
            scanned(i, j + 1, j0, j1),
            value,
        ),
{
    let region = scanned(i, j, j0, j1);
    lemma_fill_one(before, c, n, region, value, i, j);
    lemma_region_ext(
        before,
        c.update(i * n + j, value(i, j)),
        n,
        |r: int, s: int| region(r, s) || (r == i && s == j),
        scanned(i, j + 1, j0, j1),
        value,
    );
}

/// A scan that has passed the last column of a row stands at the next row.
pub proof fn lemma_scan_row(
    before: Seq<i32>,
    c: Seq<i32>,
    n: int,
    i: int,
    j0: int,
    j1: int,
    value: spec_fn(int, int) -> i32,
)
    requires
        filled(before, c, n, scanned(i, j1, j0, j1), value),
    ensures
        filled(before, c, n, scanned(i + 1, j0, j0, j1), value),
{
    lemma_region_ext(before, c, n, scanned(i, j1, j0, j1), scanned(i + 1, j0, j0, j1), value);
}

/// A scan that has passed every row has filled the window.
pub proof fn lemma_scan_end(
    before: Seq<i32>,
    c: Seq<i32>,
    n: int,
    m: int,
    j0: int,
    j1: int,
    value: spec_fn(int, int) -> i32,
)
    requires
        filled(before, c, n, scanned(m, j0, j0, j1), value),
    ensures
        filled(before, c, n, window(m, j0, j1), value),
{
    lemma_region_ext(before, c, n, scanned(m, j0, j0, j1), window(m, j0, j1), value);
}

/// A scan in bands starts with nothing passed.
pub proof fn lemma_band_start(
    c: Seq<i32>,
    n: int,
    rows: int,
    j0: int,
    j1: int,
    i1: int,
    value: spec_fn(int, int) -> i32,
)
    ensures
        filled(c, c, n, banded(rows, j0, j1, 0, i1, j0), value),
{
    let nothing = |r: int, s: int| false;
    lemma_fill_none(c, n, nothing, value);
    lemma_region_ext(c, c, n, nothing, banded(rows, j0, j1, 0, i1, j0), value);
}

/// A band passed to its last column is followed by the next band.
pub proof fn lemma_band_next(
    before: Seq<i32>,
    c: Seq<i32>,
    n: int,
    rows: int,
    j0: int,
    j1: int,
    i0: int,
    i1: int,
    i2: int,
    j: int,
    value: spec_fn(int, int) -> i32,
)
    requires
        filled(before, c, n, banded(rows, j0, j1, i0, i1, j), value),
        i0 <= i1,
        j1 <= j,
    ensures
        filled(before, c, n, banded(rows, j0, j1, i1, i2, j0), value),
{
    lemma_region_ext(
        before,
        c,
        n,
        banded(rows, j0, j1, i0, i1, j),
        banded(rows, j0, j1, i1, i2, j0),
        value,
    );
}

/// A scan in bands that has passed every row has filled the window.
pub proof fn lemma_band_end(
    before: Seq<i32>,
    c: Seq<i32>,
    n: int,
    rows: int,
    j0: int,
    j1: int,
    i0: int,
    i1: int,
    value: spec_fn(int, int) -> i32,
)
    requires
        filled(before, c, n, banded(rows, j0, j1, i0, i1, j0), value),
        rows <= i0,
    ensures
        filled(before, c, n, window(rows, j0, j1), value),
{
    lemma_region_ext(
        before,
        c,
        n,
        banded(rows, j0, j1, i0, i1, j0),
        window(rows, j0, j1),
        value,
    );
}

/// Filling columns `j0..j1` and then columns `j1..j2` fills columns `j0..j2`.
pub proof fn lemma_fill_adjacent(
    c0: Seq<i32>,
    c1: Seq<i32>,
    c2: Seq<i32>,
    n: int,
    rows: int,
    j0: int,
    j1: int,
    j2: int,
    value: spec_fn(int, int) -> i32,
)
    requires
        j0 <= j1 <= j2,
        filled(c0, c1, n, window(rows, j0, j1), value),
        filled(c1, c2, n, window(rows, j1, j2), value),
    ensures
        filled(c0, c2, n, window(rows, j0, j2), value),
{
    assert forall|x: int| 0 <= x < c2.len() implies #[trigger] c2[x] == if n > 0 && window(
        rows,
        j0,
        j2,
    )(x / n, x % n) {
        value(x / n, x % n)
    } else {
        c0[x]
    } by {
        let before = c1[x];
    }
}

} // verus!
