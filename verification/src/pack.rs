//! Operand layouts: `B` transposed for `SDOT`, and 2x8 tiles for `SMMLA`.
use crate::math;
use crate::math::div_ceil;
use crate::model;
use vstd::prelude::*;

verus! {

/// `B` with its columns laid out as rows, `kp` apart and zero from element `k` on:
/// `out[j][p] = B[p][j]`.
pub open spec fn transposed(b: Seq<i8>, n: int, k: int, kp: int) -> Seq<i8> {
    Seq::new(
        (n * kp) as nat,
        |x: int|
            if x % kp < k {
                b[(x % kp) * n + x / kp]
            } else {
                0
            },
    )
}

/// A matrix in 2-row x 8-deep tiles, `[row0 k0..k7, row1 k0..k7]` per 16 bytes, the tiles of one
/// row pair one after another. `elem(r, p)` is element `p` of row `r`; there are `rows` rows of `k`
/// elements, and rows and elements past those are zero.
pub open spec fn panels(rows: int, k: int, elem: spec_fn(int, int) -> i8) -> Seq<i8> {
    let kblocks = math::round_up(k, 8) / 8;
    Seq::new(
        (math::round_up(rows, 2) * math::round_up(k, 8)) as nat,
        |x: int|
            padded(
                rows,
                k,
                elem,
                2 * (x / 16 / kblocks) + x % 16 / 8,
                8 * (x / 16 % kblocks) + x % 8,
            ),
    )
}

/// Element `p` of row `r`, or zero past the last row or element.
pub open spec fn padded(
    rows: int,
    k: int,
    elem: spec_fn(int, int) -> i8,
    r: int,
    p: int,
) -> i8 {
    if r < rows && p < k {
        elem(r, p)
    } else {
        0
    }
}

/// Row `r` of `A`, whose rows are `k` long.
pub open spec fn row_of(a: Seq<i8>, k: int) -> spec_fn(int, int) -> i8 {
    |r: int, p: int| a[r * k + p]
}

/// Column `s` of `B`, whose rows are `n` long.
pub open spec fn column_of(b: Seq<i8>, n: int) -> spec_fn(int, int) -> i8 {
    |s: int, p: int| b[p * n + s]
}

/// B packed transposed so each column's k values are contiguous -- SDOT needs both operands' k axis
/// contiguous. Columns are `kp` apart, and zero past their `k` values.
pub fn pack_b_transposed(n: usize, k: usize, kp: usize, b: &[i8]) -> (out: Vec<i8>)
    requires
        n > 0 && k > 0 ==> k <= kp,
        k * n <= b.len(),
        n * kp <= isize::MAX,
    ensures
        out@ == transposed(b@, n as int, k as int, kp as int),
        out@.len() == n * kp,
        forall|x: int|
            0 <= x < out@.len() ==> #[trigger] out@[x] == if x % (kp as int) < k {
                b@[(x % (kp as int)) * n + x / (kp as int)]
            } else {
                0
            },
{
    let mut out = vec![0i8;n * kp];
    let mut j: usize = 0;
    while j < n
        invariant
            j <= n,
            n > 0 && k > 0 ==> k <= kp,
            k * n <= b.len(),
            out@.len() == n * kp,
            n * kp <= isize::MAX,
            forall|x: int|
                0 <= x < out@.len() ==> #[trigger] out@[x] == if kp > 0 && x / (kp as int) < j && x
                    % (kp as int) < k {
                    b@[(x % (kp as int)) * n + x / (kp as int)]
                } else {
                    0
                },
        decreases n - j,
    {
        let mut p: usize = 0;
        while p < k
            invariant
                j < n,
                p <= k <= kp || k == 0 && p == 0,
                k * n <= b.len(),
                out@.len() == n * kp,
                n * kp <= isize::MAX,
                forall|x: int|
                    0 <= x < out@.len() ==> #[trigger] out@[x] == if kp > 0 && (x / (kp as int) < j
                        && x % (kp as int) < k || x / (kp as int) == j && x % (kp as int) < p) {
                        b@[(x % (kp as int)) * n + x / (kp as int)]
                    } else {
                        0
                    },
            decreases k - p,
        {
            proof {
                model::lemma_index_bound(n as int, kp as int, j as int, p as int);
                model::lemma_index_bound(k as int, n as int, p as int, j as int);
                model::lemma_row_col(kp as int, j as int, p as int);
            }
            let ghost before = out@;
            out[j * kp + p] = b[p * n + j];
            proof {
                assert forall|x: int| 0 <= x < out@.len() implies #[trigger] out@[x] == if kp > 0
                    && (x / (kp as int) < j && x % (kp as int) < k || x / (kp as int) == j && x % (
                kp as int) < p + 1) {
                    b@[(x % (kp as int)) * n + x / (kp as int)]
                } else {
                    0
                } by {
                    if x != j * kp + p {
                        assert(out@[x] == before[x]);
                        vstd::arithmetic::div_mod::lemma_fundamental_div_mod(x, kp as int);
                        assert((kp as int) * (x / (kp as int)) == (x / (kp as int)) * (kp as int))
                            by (nonlinear_arith);
                        assert(!(x / (kp as int) == j && x % (kp as int) == p));
                    }
                }
            }
            p += 1;
        }
        j += 1;
    }
    proof {
        let want = transposed(b@, n as int, k as int, kp as int);
        assert(0 <= n * kp) by (nonlinear_arith);
        assert forall|x: int| 0 <= x < out@.len() implies #[trigger] out@[x] == want[x] by {
            if kp == 0 {
                assert(n * kp == 0) by (nonlinear_arith)
                    requires
                        kp == 0,
                ;
            }
            vstd::arithmetic::div_mod::lemma_fundamental_div_mod(x, kp as int);
            assert(x / (kp as int) < n) by (nonlinear_arith)
                requires
                    x < n * kp,
                    x == (kp as int) * (x / (kp as int)) + x % (kp as int),
                    0 <= x % (kp as int),
                    kp > 0,
            ;
        }
        assert(out@ =~= want);
    }
    out
}

/// `out` agrees with `want` up to `pos` and is zero from there on.
spec fn packed_to(out: Seq<i8>, want: Seq<i8>, pos: int) -> bool {
    &&& out.len() == want.len()
    &&& forall|x: int| 0 <= x < pos ==> #[trigger] out[x] == want[x]
    &&& forall|x: int| pos <= x < out.len() ==> #[trigger] out[x] == 0
}

/// The size of packed rows, in tiles.
pub proof fn lemma_panel_sizes(rows: int, k: int)
    requires
        0 <= rows,
        0 <= k,
    ensures
        rows <= math::round_up(rows, 2) < rows + 2,
        math::round_up(rows, 2) % 2 == 0,
        k <= math::round_up(k, 8) < k + 8,
        math::round_up(k, 8) % 8 == 0,
        math::round_up(rows, 2) * math::round_up(k, 8) == (math::round_up(rows, 2) / 2) * (
        math::round_up(k, 8) / 8) * 16,
{
    let mp = math::round_up(rows, 2);
    let kp = math::round_up(k, 8);
    assert(mp * kp == (mp / 2) * (kp / 8) * 16) by (nonlinear_arith)
        requires
            mp == 2 * (mp / 2),
            kp == 8 * (kp / 8),
    ;
}

/// Element `e` of half `r` of tile `kbi` of row pair `rp` is element `8 * kbi + e` of row
/// `2 * rp + r`.
pub proof fn lemma_panel_at(
    rows: int,
    k: int,
    elem: spec_fn(int, int) -> i8,
    rp: int,
    kbi: int,
    r: int,
    e: int,
)
    requires
        0 <= rows,
        0 <= k,
        0 <= rp < math::round_up(rows, 2) / 2,
        0 <= kbi < math::round_up(k, 8) / 8,
        0 <= r < 2,
        0 <= e < 8,
    ensures
        ({
            let x = (rp * (math::round_up(k, 8) / 8) + kbi) * 16 + r * 8 + e;
            &&& 0 <= x < panels(rows, k, elem).len()
            &&& panels(rows, k, elem)[x] == padded(rows, k, elem, 2 * rp + r, 8 * kbi + e)
        }),
{
    let kblocks = math::round_up(k, 8) / 8;
    let pairs = math::round_up(rows, 2) / 2;
    let x = (rp * kblocks + kbi) * 16 + r * 8 + e;
    lemma_panel_sizes(rows, k);
    model::lemma_index_bound(pairs, kblocks, rp, kbi);
    model::lemma_row_col(kblocks, rp, kbi);
    assert(x / 16 == rp * kblocks + kbi);
    assert(x % 16 / 8 == r);
    assert(x % 8 == e);
}

/// Element `p` of row `r` of a packed matrix.
pub proof fn lemma_packed_element(
    rows: int,
    k: int,
    elem: spec_fn(int, int) -> i8,
    r: int,
    p: int,
)
    requires
        0 <= rows,
        0 <= k,
        0 <= r < math::round_up(rows, 2),
        0 <= p < math::round_up(k, 8),
    ensures
        ({
            let x = model::packed_index(math::round_up(k, 8) / 8, r, p);
            &&& 0 <= x < panels(rows, k, elem).len()
            &&& panels(rows, k, elem)[x] == padded(rows, k, elem, r, p)
        }),
{
    lemma_panel_sizes(rows, k);
    lemma_panel_at(rows, k, elem, r / 2, p / 8, r % 2, p % 8);
}

/// Pack A into 2-row x 8-deep tiles: `[row0 k0..k7, row1 k0..k7]` per 16 bytes.
/// This is exactly the operand layout `SMMLA` expects.
///
/// Returns the packed bytes, the number of rows padded to even, and `k` padded to a multiple of 8.
pub fn pack_a_smmla(m: usize, k: usize, a: &[i8]) -> (packed: (Vec<i8>, usize, usize))
    requires
        m * k <= a.len(),
        math::round_up(m as int, 2) <= usize::MAX,
        math::round_up(k as int, 8) <= usize::MAX,
        math::round_up(m as int, 2) * math::round_up(k as int, 8) <= isize::MAX,
    ensures
        packed.0@ == panels(m as int, k as int, row_of(a@, k as int)),
        packed.1 == math::round_up(m as int, 2),
        packed.2 == math::round_up(k as int, 8),
{
    let mp = div_ceil(m, 2) * 2;
    let kp = div_ceil(k, 8) * 8;
    let ghost elem = row_of(a@, k as int);
    let ghost want = panels(m as int, k as int, elem);
    let ghost kblocks = kp as int / 8;
    proof {
        lemma_panel_sizes(m as int, k as int);
    }
    let mut out = vec![0i8;mp * kp];
    let mut rp: usize = 0;
    while rp < mp / 2
        invariant
            rp <= mp / 2,
            mp == math::round_up(m as int, 2),
            kp == math::round_up(k as int, 8),
            kblocks == kp as int / 8,
            m * k <= a.len(),
            mp * kp <= isize::MAX,
            elem == row_of(a@, k as int),
            want == panels(m as int, k as int, elem),
            packed_to(out@, want, rp * kblocks * 16),
        decreases mp / 2 - rp,
    {
        let mut kbi: usize = 0;
        while kbi < kp / 8
            invariant
                rp < mp / 2,
                kbi <= kp / 8,
                mp == math::round_up(m as int, 2),
                kp == math::round_up(k as int, 8),
                kblocks == kp as int / 8,
                m * k <= a.len(),
                mp * kp <= isize::MAX,
                elem == row_of(a@, k as int),
                want == panels(m as int, k as int, elem),
                packed_to(out@, want, (rp * kblocks + kbi) * 16),
            decreases kp / 8 - kbi,
        {
            proof {
                lemma_panel_at(m as int, k as int, elem, rp as int, kbi as int, 1, 7);
                model::lemma_index_bound(mp as int / 2, kblocks, rp as int, kbi as int);
                lemma_panel_sizes(m as int, k as int);
            }
            let base = (rp * (kp / 8) + kbi) * 16;
            let mut r: usize = 0;
            while r < 2
                invariant
                    rp < mp / 2,
                    kbi < kp / 8,
                    r <= 2,
                    base == (rp * kblocks + kbi) * 16,
                    base + 16 <= mp * kp,
                    mp == math::round_up(m as int, 2),
                    kp == math::round_up(k as int, 8),
                    kblocks == kp as int / 8,
                    m * k <= a.len(),
                    mp * kp <= isize::MAX,
                    elem == row_of(a@, k as int),
                    want == panels(m as int, k as int, elem),
                    packed_to(out@, want, base + r * 8),
                decreases 2 - r,
            {
                let row = rp * 2 + r;
                let mut e: usize = 0;
                while e < 8
                    invariant
                        rp < mp / 2,
                        kbi < kp / 8,
                        r < 2,
                        e <= 8,
                        row == rp * 2 + r,
                        base == (rp * kblocks + kbi) * 16,
                        base + 16 <= mp * kp,
                        mp == math::round_up(m as int, 2),
                        kp == math::round_up(k as int, 8),
                        kblocks == kp as int / 8,
                        m * k <= a.len(),
                        mp * kp <= isize::MAX,
                        elem == row_of(a@, k as int),
                        want == panels(m as int, k as int, elem),
                        packed_to(out@, want, base + r * 8 + e),
                    decreases 8 - e,
                {
                    let kk = kbi * 8 + e;
                    proof {
                        lemma_panel_at(
                            m as int,
                            k as int,
                            elem,
                            rp as int,
                            kbi as int,
                            r as int,
                            e as int,
                        );
                    }
                    if row < m && kk < k {
                        proof {
                            model::lemma_index_bound(m as int, k as int, row as int, kk as int);
                        }
                        out[base + r * 8 + e] = a[row * k + kk];
                    }
                    e += 1;
                }
                r += 1;
            }
            kbi += 1;
        }
        assert((rp * kblocks + kblocks) * 16 == (rp + 1) * kblocks * 16) by (nonlinear_arith);
        rp += 1;
    }
    proof {
        lemma_panel_sizes(m as int, k as int);
        assert(out@ =~= want);
    }
    (out, mp, kp)
}

/// Pack B into 2-col x 8-deep tiles: `[col0 k0..k7, col1 k0..k7]` per 16 bytes.
///
/// Returns the packed bytes and the number of columns padded to even.
pub fn pack_b_smmla(n: usize, k: usize, b: &[i8]) -> (packed: (Vec<i8>, usize))
    requires
        k * n <= b.len(),
        math::round_up(n as int, 2) <= usize::MAX,
        math::round_up(k as int, 8) <= usize::MAX,
        math::round_up(n as int, 2) * math::round_up(k as int, 8) <= isize::MAX,
    ensures
        packed.0@ == panels(n as int, k as int, column_of(b@, n as int)),
        packed.1 == math::round_up(n as int, 2),
{
    let np = div_ceil(n, 2) * 2;
    let kp = div_ceil(k, 8) * 8;
    let ghost elem = column_of(b@, n as int);
    let ghost want = panels(n as int, k as int, elem);
    let ghost kblocks = kp as int / 8;
    proof {
        lemma_panel_sizes(n as int, k as int);
    }
    let mut out = vec![0i8;np * kp];
    let mut cp: usize = 0;
    while cp < np / 2
        invariant
            cp <= np / 2,
            np == math::round_up(n as int, 2),
            kp == math::round_up(k as int, 8),
            kblocks == kp as int / 8,
            k * n <= b.len(),
            np * kp <= isize::MAX,
            elem == column_of(b@, n as int),
            want == panels(n as int, k as int, elem),
            packed_to(out@, want, cp * kblocks * 16),
        decreases np / 2 - cp,
    {
        let mut kbi: usize = 0;
        while kbi < kp / 8
            invariant
                cp < np / 2,
                kbi <= kp / 8,
                np == math::round_up(n as int, 2),
                kp == math::round_up(k as int, 8),
                kblocks == kp as int / 8,
                k * n <= b.len(),
                np * kp <= isize::MAX,
                elem == column_of(b@, n as int),
                want == panels(n as int, k as int, elem),
                packed_to(out@, want, (cp * kblocks + kbi) * 16),
            decreases kp / 8 - kbi,
        {
            proof {
                lemma_panel_at(n as int, k as int, elem, cp as int, kbi as int, 1, 7);
                model::lemma_index_bound(np as int / 2, kblocks, cp as int, kbi as int);
                lemma_panel_sizes(n as int, k as int);
            }
            let base = (cp * (kp / 8) + kbi) * 16;
            let mut cc: usize = 0;
            while cc < 2
                invariant
                    cp < np / 2,
                    kbi < kp / 8,
                    cc <= 2,
                    base == (cp * kblocks + kbi) * 16,
                    base + 16 <= np * kp,
                    np == math::round_up(n as int, 2),
                    kp == math::round_up(k as int, 8),
                    kblocks == kp as int / 8,
                    k * n <= b.len(),
                    np * kp <= isize::MAX,
                    elem == column_of(b@, n as int),
                    want == panels(n as int, k as int, elem),
                    packed_to(out@, want, base + cc * 8),
                decreases 2 - cc,
            {
                let col = cp * 2 + cc;
                let mut e: usize = 0;
                while e < 8
                    invariant
                        cp < np / 2,
                        kbi < kp / 8,
                        cc < 2,
                        e <= 8,
                        col == cp * 2 + cc,
                        base == (cp * kblocks + kbi) * 16,
                        base + 16 <= np * kp,
                        np == math::round_up(n as int, 2),
                        kp == math::round_up(k as int, 8),
                        kblocks == kp as int / 8,
                        k * n <= b.len(),
                        np * kp <= isize::MAX,
                        elem == column_of(b@, n as int),
                        want == panels(n as int, k as int, elem),
                        packed_to(out@, want, base + cc * 8 + e),
                    decreases 8 - e,
                {
                    let kk = kbi * 8 + e;
                    proof {
                        lemma_panel_at(
                            n as int,
                            k as int,
                            elem,
                            cp as int,
                            kbi as int,
                            cc as int,
                            e as int,
                        );
                    }
                    if col < n && kk < k {
                        proof {
                            model::lemma_index_bound(k as int, n as int, kk as int, col as int);
                        }
                        out[base + cc * 8 + e] = b[kk * n + col];
                    }
                    e += 1;
                }
                cc += 1;
            }
            kbi += 1;
        }
        assert((cp * kblocks + kblocks) * 16 == (cp + 1) * kblocks * 16) by (nonlinear_arith);
        cp += 1;
    }
    proof {
        lemma_panel_sizes(n as int, k as int);
        assert(out@ =~= want);
    }
    (out, np)
}

} // verus!
