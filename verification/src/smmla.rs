//! Kernels built on `SMMLA`, which multiplies a 2x8 tile by a 2x8 tile.
use crate::math;
use crate::model;
use crate::neon;
use crate::neon::{vdupq_n_s32, vgetq_lane_s32, vld1q_s8, vmmlaq_s32, I32x4};
use crate::partition;
use crate::partition::column_ranges;
use vstd::prelude::*;

verus! {

/// The lanes of `acc` are the four dot products of rows `i, i + 1` of `pa` with rows `j, j + 1` of
/// `pb`, over the first `kb` tiles.
pub open spec fn holds_tile(
    acc: Seq<i32>,
    pa: Seq<i8>,
    pb: Seq<i8>,
    kblocks: int,
    i: int,
    j: int,
    kb: int,
) -> bool {
    &&& acc.len() == 4
    &&& forall|l: int|
        0 <= l < 4 ==> #[trigger] acc[l] == math::wrap(
            math::sum(model::packed_terms(pa, pb, kblocks, i + l / 2, j + l % 2), 8 * kb),
        )
}

/// A zero accumulator holds the tile over no blocks.
pub proof fn lemma_tile_zero(acc: Seq<i32>, pa: Seq<i8>, pb: Seq<i8>, kblocks: int, i: int, j: int)
    requires
        acc == Seq::new(4, |l: int| 0i32),
    ensures
        holds_tile(acc, pa, pb, kblocks, i, j, 0),
{
}

/// The 16 bytes of tile `kb` of row pair `pair` lie inside `pairs` packed row pairs.
pub proof fn lemma_tile_bounds(pairs: int, kblocks: int, pair: int, kb: int)
    requires
        0 <= pair < pairs,
        0 <= kb < kblocks,
    ensures
        0 <= pair * kblocks <= pair * kblocks * 16,
        pair * kblocks * 16 + kb * 16 == (pair * kblocks + kb) * 16,
        pair * kblocks * 16 + kb * 16 + 16 <= pairs * kblocks * 16,
{
    model::lemma_index_bound(pairs, kblocks, pair, kb);
}

/// The start of row pair `pair` lies inside `pairs` packed row pairs.
pub proof fn lemma_pair_bounds(pairs: int, kblocks: int, pair: int)
    requires
        0 <= pair < pairs,
        0 <= kblocks,
    ensures
        0 <= pair * kblocks <= pair * kblocks * 16 <= pairs * kblocks * 16,
{
    assert(0 <= pair * kblocks <= pairs * kblocks) by (nonlinear_arith)
        requires
            0 <= pair < pairs,
            0 <= kblocks,
    ;
}

/// One `SMMLA` on tile `kb` of row pairs `rp` and `cp` extends the tile by one block.
pub proof fn lemma_tile_step(
    acc: Seq<i32>,
    pa: Seq<i8>,
    pb: Seq<i8>,
    kblocks: int,
    rp: int,
    cp: int,
    kb: int,
)
    requires
        holds_tile(acc, pa, pb, kblocks, 2 * rp, 2 * cp, kb),
        0 <= rp,
        0 <= cp,
        0 <= kb < kblocks,
        0 <= rp * kblocks,
        0 <= cp * kblocks,
        (rp * kblocks + kb) * 16 + 16 <= pa.len(),
        (cp * kblocks + kb) * 16 + 16 <= pb.len(),
    ensures
        holds_tile(
            neon::smmla(
                acc,
                pa.subrange((rp * kblocks + kb) * 16, (rp * kblocks + kb) * 16 + 16),
                pb.subrange((cp * kblocks + kb) * 16, (cp * kblocks + kb) * 16 + 16),
            ),
            pa,
            pb,
            kblocks,
            2 * rp,
            2 * cp,
            kb + 1,
        ),
{
    let av = pa.subrange((rp * kblocks + kb) * 16, (rp * kblocks + kb) * 16 + 16);
    let bv = pb.subrange((cp * kblocks + kb) * 16, (cp * kblocks + kb) * 16 + 16);
    let next = neon::smmla(acc, av, bv);
    assert forall|l: int| 0 <= l < 4 implies #[trigger] next[l] == math::wrap(
        math::sum(
            model::packed_terms(pa, pb, kblocks, 2 * rp + l / 2, 2 * cp + l % 2),
            8 * (kb + 1),
        ),
    ) by {
        let i = 2 * rp + l / 2;
        let j = 2 * cp + l % 2;
        let terms = model::packed_terms(pa, pb, kblocks, i, j);
        assert forall|e: int| 0 <= e < 8 implies #[trigger] terms(8 * kb + e) == av[8 * (l / 2)
            + e] * bv[8 * (l % 2) + e] by {
            assert(i / 2 == rp && i % 2 == l / 2);
            assert(j / 2 == cp && j % 2 == l % 2);
            assert((8 * kb + e) / 8 == kb && (8 * kb + e) % 8 == e);
            assert(model::packed_index(kblocks, i, 8 * kb + e) == (rp * kblocks + kb) * 16 + 8 * (l
                / 2) + e);
            assert(model::packed_index(kblocks, j, 8 * kb + e) == (cp * kblocks + kb) * 16 + 8 * (l
                % 2) + e);
        }
        math::lemma_sum_8(terms, 8 * kb);
        assert(terms(8 * kb + 0) == av[8 * (l / 2) + 0] * bv[8 * (l % 2) + 0]);
        assert(math::sum(terms, 8 * kb + 8) == math::sum(terms, 8 * kb) + neon::dot8(
            av,
            8 * (l / 2),
            bv,
            8 * (l % 2),
        ));
        assert(acc[l] == math::wrap(math::sum(terms, 8 * kb)));
        math::lemma_wrap_add(math::sum(terms, 8 * kb), neon::dot8(av, 8 * (l / 2), bv, 8 * (l % 2)));
    }
}

/// Stores an accumulator over the 2x2 tile at row `r`, column `c0`.
///
/// SMMLA lane order is `[r0c0, r0c1, r1c0, r1c1]`. Bounds-checked because the packed panels are
/// padded to even m/n but C is not.
pub fn store_tile(acc: I32x4, r: usize, c0: usize, m: usize, n: usize, c: &mut [i32])
    requires
        m * n <= old(c).len(),
        r < usize::MAX,
        c0 < usize::MAX,
    ensures
        model::filled(
            old(c)@,
            final(c)@,
            n as int,
            model::tile(r as int, c0 as int, m as int),
            model::tile_value(acc@, r as int, c0 as int),
        ),
{
    let ghost before = c@;
    let ghost value = model::tile_value(acc@, r as int, c0 as int);
    let ghost mut region = |i: int, j: int| false;
    proof {
        model::lemma_fill_none(c@, n as int, region, value);
    }
    let mut idx: usize = 0;
    while idx < 4
        invariant
            idx <= 4,
            m * n <= c.len(),
            r < usize::MAX,
            c0 < usize::MAX,
            value == model::tile_value(acc@, r as int, c0 as int),
            model::filled(before, c@, n as int, region, value),
            forall|i: int, j: int|
                0 <= i && 0 <= j < n ==> #[trigger] region(i, j) == (model::tile(
                    r as int,
                    c0 as int,
                    m as int,
                )(i, j) && 2 * (i - r) + (j - c0) < idx),
        decreases 4 - idx,
    {
        let dr = r + idx / 2;
        let dc = c0 + idx % 2;
        if dr < m && dc < n {
            proof {
                model::lemma_index_bound(m as int, n as int, dr as int, dc as int);
                model::lemma_fill_one(
                    before,
                    c@,
                    n as int,
                    region,
                    value,
                    dr as int,
                    dc as int,
                );
                let old_region = region;
                region = |i: int, j: int| old_region(i, j) || (i == dr as int && j == dc as int);
            }
            c[dr * n + dc] = vgetq_lane_s32(acc, idx);
        }
        idx += 1;
    }
    proof {
        model::lemma_region_ext(
            before,
            c@,
            n as int,
            region,
            model::tile(r as int, c0 as int, m as int),
            value,
        );
    }
}

/// Storing a finished tile joins it to the region filled so far.
pub proof fn lemma_store(
    c0: Seq<i32>,
    c1: Seq<i32>,
    c2: Seq<i32>,
    n: int,
    m: int,
    region: spec_fn(int, int) -> bool,
    acc: Seq<i32>,
    pa: Seq<i8>,
    pb: Seq<i8>,
    kblocks: int,
    i: int,
    j: int,
)
    requires
        model::filled(c0, c1, n, region, model::packed_value(pa, pb, kblocks)),
        model::filled(c1, c2, n, model::tile(i, j, m), model::tile_value(acc, i, j)),
        holds_tile(acc, pa, pb, kblocks, i, j, kblocks),
    ensures
        model::filled(
            c0,
            c2,
            n,
            model::union(region, model::tile(i, j, m)),
            model::packed_value(pa, pb, kblocks),
        ),
{
    let value = model::packed_value(pa, pb, kblocks);
    let value2 = model::tile_value(acc, i, j);
    assert forall|r: int, s: int|
        0 <= r && 0 <= s < n && #[trigger] model::tile(i, j, m)(r, s) implies value2(r, s) == value(
        r,
        s,
    ) by {
        let l = 2 * (r - i) + (s - j);
        assert(l / 2 == r - i && l % 2 == s - j);
        assert(acc[l] == math::wrap(
            math::sum(model::packed_terms(pa, pb, kblocks, i + l / 2, j + l % 2), 8 * kblocks),
        ));
    }
    model::lemma_fill_more(
        c0,
        c1,
        c2,
        n,
        region,
        model::tile(i, j, m),
        model::union(region, model::tile(i, j, m)),
        value,
        value2,
    );
}

/// The column-range worker: the product restricted to column pairs `[cp0, cp1)`, in 4x4 output
/// tiles -- four independent accumulators so the four SMMLAs in each k-step can issue back to back
/// instead of serialising on one accumulator.
///
/// `pa` and `pb` are packed as by `pack_a_smmla` and `pack_b_smmla`. Entries of `c` outside the
/// column range are left alone.
pub fn smmla_colrange(
    m: usize,
    n: usize,
    mp: usize,
    kp: usize,
    pa: &[i8],
    pb: &[i8],
    c: &mut [i32],
    cp0: usize,
    cp1: usize,
)
    requires
        mp / 2 * (kp / 8) * 16 <= pa.len(),
        cp1 * (kp / 8) * 16 <= pb.len(),
        2 * cp1 <= usize::MAX,
        m * n <= old(c).len(),
    ensures
        model::filled(
            old(c)@,
            final(c)@,
            n as int,
            model::window(model::rows_reached(m as int, mp as int / 2), 2 * cp0, 2 * cp1),
            model::packed_value(pa@, pb@, kp as int / 8),
        ),
{
    let kblocks = kp / 8;
    let rowpairs = mp / 2;
    let ghost c0 = c@;
    let ghost value = model::packed_value(pa@, pb@, kblocks as int);
    let ghost rows = model::rows_reached(m as int, rowpairs as int);
    let ghost j0 = 2 * cp0;
    let ghost j1 = 2 * cp1;
    proof {
        model::lemma_band_start(c0, n as int, rows, j0, j1, 4, value);
    }
    let mut rp: usize = 0;
    while rp < rowpairs
        invariant
            rp <= rowpairs + 1,
            2 * rowpairs <= usize::MAX,
            rowpairs * kblocks * 16 <= pa.len(),
            cp1 * kblocks * 16 <= pb.len(),
            2 * cp1 <= usize::MAX,
            m * n <= c.len(),
            rows == model::rows_reached(m as int, rowpairs as int),
            j0 == 2 * cp0,
            j1 == 2 * cp1,
            value == model::packed_value(pa@, pb@, kblocks as int),
            model::filled(
                c0,
                c@,
                n as int,
                model::banded(rows, j0, j1, 2 * rp, 2 * rp + 4, j0),
                value,
            ),
        decreases rowpairs + 1 - rp,
    {
        let two_rp = (rp + 1) < rowpairs;
        let mut cp: usize = cp0;
        while cp < cp1
            invariant
                rp < rowpairs,
                2 * rowpairs <= usize::MAX,
                two_rp == (rp + 1 < rowpairs),
                cp0 <= cp,
                cp0 < cp1 ==> cp <= cp1 + 1,
                rowpairs * kblocks * 16 <= pa.len(),
                cp1 * kblocks * 16 <= pb.len(),
                2 * cp1 <= usize::MAX,
                m * n <= c.len(),
                rows == model::rows_reached(m as int, rowpairs as int),
                j0 == 2 * cp0,
                j1 == 2 * cp1,
                value == model::packed_value(pa@, pb@, kblocks as int),
                model::filled(
                    c0,
                    c@,
                    n as int,
                    model::banded(rows, j0, j1, 2 * rp, 2 * rp + 4, 2 * cp),
                    value,
                ),
            decreases cp1 + 1 - cp,
        {
            let two_cp = (cp + 1) < cp1;

            let mut acc00 = vdupq_n_s32(0);
            let mut acc01 = vdupq_n_s32(0);
            let mut acc10 = vdupq_n_s32(0);
            let mut acc11 = vdupq_n_s32(0);

            let rp1 = if two_rp {
                rp + 1
            } else {
                rowpairs - 1
            };
            let cp_next = if two_cp {
                cp + 1
            } else {
                cp1 - 1
            };
            proof {
                lemma_pair_bounds(rowpairs as int, kblocks as int, rp as int);
                lemma_pair_bounds(rowpairs as int, kblocks as int, rp1 as int);
                lemma_pair_bounds(cp1 as int, kblocks as int, cp as int);
                lemma_pair_bounds(cp1 as int, kblocks as int, cp_next as int);
            }
            let a0 = rp * kblocks * 16;
            let a1 = rp1 * kblocks * 16;
            let b0 = cp * kblocks * 16;
            let b1 = cp_next * kblocks * 16;

            proof {
                lemma_tile_zero(acc00@, pa@, pb@, kblocks as int, 2 * rp, 2 * cp);
                lemma_tile_zero(acc01@, pa@, pb@, kblocks as int, 2 * rp, 2 * cp_next);
                lemma_tile_zero(acc10@, pa@, pb@, kblocks as int, 2 * rp1, 2 * cp);
                lemma_tile_zero(acc11@, pa@, pb@, kblocks as int, 2 * rp1, 2 * cp_next);
            }
            let mut kb: usize = 0;
            while kb < kblocks
                invariant
                    kb <= kblocks,
                    rp < rowpairs,
                    rp1 < rowpairs,
                    cp < cp1,
                    cp_next < cp1,
                    rowpairs * kblocks * 16 <= pa.len(),
                    cp1 * kblocks * 16 <= pb.len(),
                    a0 == rp * kblocks * 16,
                    a1 == rp1 * kblocks * 16,
                    b0 == cp * kblocks * 16,
                    b1 == cp_next * kblocks * 16,
                    holds_tile(
                        acc00@,
                        pa@,
                        pb@,
                        kblocks as int,
                        2 * rp,
                        2 * cp,
                        kb as int,
                    ),
                    two_cp ==> holds_tile(
                        acc01@,
                        pa@,
                        pb@,
                        kblocks as int,
                        2 * rp,
                        2 * cp_next,
                        kb as int,
                    ),
                    two_rp ==> holds_tile(
                        acc10@,
                        pa@,
                        pb@,
                        kblocks as int,
                        2 * rp1,
                        2 * cp,
                        kb as int,
                    ),
                    two_rp && two_cp ==> holds_tile(
                        acc11@,
                        pa@,
                        pb@,
                        kblocks as int,
                        2 * rp1,
                        2 * cp_next,
                        kb as int,
                    ),
                decreases kblocks - kb,
            {
                proof {
                    lemma_tile_bounds(rowpairs as int, kblocks as int, rp as int, kb as int);
                    lemma_tile_bounds(rowpairs as int, kblocks as int, rp1 as int, kb as int);
                    lemma_tile_bounds(cp1 as int, kblocks as int, cp as int, kb as int);
                    lemma_tile_bounds(cp1 as int, kblocks as int, cp_next as int, kb as int);
                }
                let off = kb * 16;
                let av0 = vld1q_s8(pa, a0 + off);
                let bv0 = vld1q_s8(pb, b0 + off);
                proof {
                    lemma_tile_step(
                        acc00@,
                        pa@,
                        pb@,
                        kblocks as int,
                        rp as int,
                        cp as int,
                        kb as int,
                    );
                }
                acc00 = vmmlaq_s32(acc00, av0, bv0);
                if two_cp {
                    proof {
                        lemma_tile_step(
                            acc01@,
                            pa@,
                            pb@,
                            kblocks as int,
                            rp as int,
                            cp_next as int,
                            kb as int,
                        );
                    }
                    acc01 = vmmlaq_s32(acc01, av0, vld1q_s8(pb, b1 + off));
                }
                if two_rp {
                    let av1 = vld1q_s8(pa, a1 + off);
                    proof {
                        lemma_tile_step(
                            acc10@,
                            pa@,
                            pb@,
                            kblocks as int,
                            rp1 as int,
                            cp as int,
                            kb as int,
                        );
                    }
                    acc10 = vmmlaq_s32(acc10, av1, bv0);
                    if two_cp {
                        proof {
                            lemma_tile_step(
                                acc11@,
                                pa@,
                                pb@,
                                kblocks as int,
                                rp1 as int,
                                cp_next as int,
                                kb as int,
                            );
                        }
                        acc11 = vmmlaq_s32(acc11, av1, vld1q_s8(pb, b1 + off));
                    }
                }
                kb += 1;
            }

            let ghost mut region = model::banded(rows, j0, j1, 2 * rp, 2 * rp + 4, 2 * cp);
            let ghost mut stored = c@;
            store_tile(acc00, rp * 2, cp * 2, m, n, c);
            proof {
                lemma_store(
                    c0,
                    stored,
                    c@,
                    n as int,
                    m as int,
                    region,
                    acc00@,
                    pa@,
                    pb@,
                    kblocks as int,
                    2 * rp,
                    2 * cp,
                );
                region = model::union(region, model::tile(2 * rp, 2 * cp, m as int));
                stored = c@;
            }
            if two_cp {
                store_tile(acc01, rp * 2, cp * 2 + 2, m, n, c);
                proof {
                    lemma_store(
                        c0,
                        stored,
                        c@,
                        n as int,
                        m as int,
                        region,
                        acc01@,
                        pa@,
                        pb@,
                        kblocks as int,
                        2 * rp,
                        2 * cp + 2,
                    );
                    region = model::union(region, model::tile(2 * rp, 2 * cp + 2, m as int));
                    stored = c@;
                }
            }
            if two_rp {
                store_tile(acc10, rp * 2 + 2, cp * 2, m, n, c);
                proof {
                    lemma_store(
                        c0,
                        stored,
                        c@,
                        n as int,
                        m as int,
                        region,
                        acc10@,
                        pa@,
                        pb@,
                        kblocks as int,
                        2 * rp + 2,
                        2 * cp,
                    );
                    region = model::union(region, model::tile(2 * rp + 2, 2 * cp, m as int));
                    stored = c@;
                }
            }
            if two_rp && two_cp {
                store_tile(acc11, rp * 2 + 2, cp * 2 + 2, m, n, c);
                proof {
                    lemma_store(
                        c0,
                        stored,
                        c@,
                        n as int,
                        m as int,
                        region,
                        acc11@,
                        pa@,
                        pb@,
                        kblocks as int,
                        2 * rp + 2,
                        2 * cp + 2,
                    );
                    region = model::union(region, model::tile(2 * rp + 2, 2 * cp + 2, m as int));
                }
            }
            proof {
                model::lemma_region_ext(
                    c0,
                    c@,
                    n as int,
                    region,
                    model::banded(rows, j0, j1, 2 * rp, 2 * rp + 4, 2 * (cp + 2)),
                    value,
                );
            }
            cp += 2;
        }
        proof {
            model::lemma_band_next(
                c0,
                c@,
                n as int,
                rows,
                j0,
                j1,
                2 * rp,
                2 * rp + 4,
                2 * rp + 8,
                2 * cp,
                value,
            );
        }
        rp += 2;
    }
    proof {
        model::lemma_band_end(c0, c@, n as int, rows, j0, j1, 2 * rp, 2 * rp + 4, value);
    }
}

/// The whole product of packed operands, in 4x4 output tiles.
///
/// `pa`, `mp` and `kp` as given by `pack_a_smmla`, `pb` and `np` as given by `pack_b_smmla`.
pub fn gemm_smmla(
    m: usize,
    n: usize,
    mp: usize,
    np: usize,
    kp: usize,
    pa: &[i8],
    pb: &[i8],
    c: &mut [i32],
)
    requires
        mp / 2 * (kp / 8) * 16 <= pa.len(),
        np / 2 * (kp / 8) * 16 <= pb.len(),
        m * n <= old(c).len(),
    ensures
        model::filled(
            old(c)@,
            final(c)@,
            n as int,
            model::window(model::rows_reached(m as int, mp as int / 2), 0, 2 * (np as int / 2)),
            model::packed_value(pa@, pb@, kp as int / 8),
        ),
{
    smmla_colrange(m, n, mp, kp, pa, pb, c, 0, np / 2)
}

/// Column pairs to a block in `gemm_smmla_blocked`: 256 columns.
pub const BLOCK_COLPAIRS: usize = 128;

/// The same product with N blocked at 256 columns, so that each block of packed B is used up before
/// the next is touched. Only the order of the work changes.
pub fn gemm_smmla_blocked(
    m: usize,
    n: usize,
    mp: usize,
    np: usize,
    kp: usize,
    pa: &[i8],
    pb: &[i8],
    c: &mut [i32],
)
    requires
        mp / 2 * (kp / 8) * 16 <= pa.len(),
        np / 2 * (kp / 8) * 16 <= pb.len(),
        m * n <= old(c).len(),
    ensures
        model::filled(
            old(c)@,
            final(c)@,
            n as int,
            model::window(model::rows_reached(m as int, mp as int / 2), 0, 2 * (np as int / 2)),
            model::packed_value(pa@, pb@, kp as int / 8),
        ),
{
    let colpairs = np / 2;
    let ghost c0 = c@;
    let ghost kblocks = kp as int / 8;
    let ghost value = model::packed_value(pa@, pb@, kblocks);
    let ghost rows = model::rows_reached(m as int, mp as int / 2);
    let mut cp: usize = 0;
    while cp < colpairs
        invariant
            cp <= colpairs,
            2 * colpairs <= usize::MAX,
            mp / 2 * (kp / 8) * 16 <= pa.len(),
            colpairs * (kp / 8) * 16 <= pb.len(),
            m * n <= c.len(),
            kblocks == kp as int / 8,
            value == model::packed_value(pa@, pb@, kblocks),
            rows == model::rows_reached(m as int, mp as int / 2),
            model::filled(c0, c@, n as int, model::window(rows, 0, 2 * cp), value),
        decreases colpairs - cp,
    {
        let end = if colpairs - cp > BLOCK_COLPAIRS {
            cp + BLOCK_COLPAIRS
        } else {
            colpairs
        };
        let ghost c1 = c@;
        assert(end * (kp / 8) <= colpairs * (kp / 8)) by (nonlinear_arith)
            requires
                end <= colpairs,
        ;
        smmla_colrange(m, n, mp, kp, pa, pb, c, cp, end);
        proof {
            model::lemma_fill_adjacent(
                c0,
                c1,
                c@,
                n as int,
                rows,
                0,
                2 * cp,
                2 * end,
                value,
            );
        }
        cp = end;
    }
}

/// The product shared out over output **columns** among `threads` workers: `smmla_colrange` on each
/// of `column_ranges(np / 2, threads)`.
///
/// Here the ranges are worked through one after another. Each writes only its own columns and reads
/// none that another writes, so a caller that has threads can run them all at once instead.
pub fn gemm_smmla_mt(
    m: usize,
    n: usize,
    mp: usize,
    np: usize,
    kp: usize,
    pa: &[i8],
    pb: &[i8],
    c: &mut [i32],
    threads: usize,
)
    requires
        mp / 2 * (kp / 8) * 16 <= pa.len(),
        np / 2 * (kp / 8) * 16 <= pb.len(),
        m * n <= old(c).len(),
    ensures
        model::filled(
            old(c)@,
            final(c)@,
            n as int,
            model::window(model::rows_reached(m as int, mp as int / 2), 0, 2 * (np as int / 2)),
            model::packed_value(pa@, pb@, kp as int / 8),
        ),
{
    let colpairs = np / 2;
    let ranges = column_ranges(colpairs, threads);
    let ghost c0 = c@;
    let ghost value = model::packed_value(pa@, pb@, kp as int / 8);
    let ghost rows = model::rows_reached(m as int, mp as int / 2);
    let mut t: usize = 0;
    let mut done: usize = 0;
    while t < ranges.len()
        invariant
            t <= ranges@.len(),
            done <= colpairs,
            2 * colpairs <= usize::MAX,
            t < ranges@.len() ==> ranges@[t as int].0 == done,
            t == ranges@.len() ==> done == colpairs,
            partition::is_partition(ranges@, colpairs as int),
            forall|u: int| 0 <= u < ranges@.len() ==> (#[trigger] ranges@[u]).1 <= colpairs,
            mp / 2 * (kp / 8) * 16 <= pa.len(),
            colpairs * (kp / 8) * 16 <= pb.len(),
            m * n <= c.len(),
            value == model::packed_value(pa@, pb@, kp as int / 8),
            rows == model::rows_reached(m as int, mp as int / 2),
            model::filled(c0, c@, n as int, model::window(rows, 0, 2 * done), value),
        decreases ranges@.len() - t,
    {
        let (cp0, cp1) = ranges[t];
        let ghost c1 = c@;
        assert(cp1 * (kp / 8) <= colpairs * (kp / 8)) by (nonlinear_arith)
            requires
                cp1 <= colpairs,
        ;
        smmla_colrange(m, n, mp, kp, pa, pb, c, cp0, cp1);
        proof {
            model::lemma_fill_adjacent(
                c0,
                c1,
                c@,
                n as int,
                rows,
                0,
                2 * cp0,
                2 * cp1,
                value,
            );
            if t + 1 < ranges@.len() {
                assert(ranges@[t as int].1 == ranges@[t + 1].0);
            }
        }
        done = cp1;
        t += 1;
    }
}

} // verus!
