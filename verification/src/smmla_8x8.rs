//! `SMMLA` with an 8x8 register tile: four row pairs by four column pairs, so that eight loads feed
//! sixteen instructions.
use crate::model;
use crate::neon;
use crate::neon::{vdupq_n_s32, vdupq_n_s8, vld1q_s8, vmmlaq_s32, I32x4, I8x16};
use crate::smmla;
use crate::smmla::store_tile;
use vstd::prelude::*;

verus! {

/// The accumulators, row pair by row pair, hold the tiles of row pairs `rp..rp + nr` and column
/// pairs `cp..cp + nc` over the first `kb` blocks.
pub open spec fn holds_tiles(
    acc: Seq<I32x4>,
    pa: Seq<i8>,
    pb: Seq<i8>,
    kblocks: int,
    rp: int,
    nr: int,
    cp: int,
    nc: int,
    kb: int,
) -> bool {
    &&& acc.len() == 16
    &&& forall|t: int|
        0 <= t < 16 && t / 4 < nr && t % 4 < nc ==> smmla::holds_tile(
            (#[trigger] acc[t])@,
            pa,
            pb,
            kblocks,
            2 * (rp + t / 4),
            2 * (cp + t % 4),
            kb,
        )
}

/// Tile `kb` of each of the row pairs `first..first + count` of a packed operand.
fn load_tiles(p: &[i8], kblocks: usize, first: usize, count: usize, kb: usize) -> (r: [I8x16; 4])
    requires
        1 <= count <= 4,
        kb < kblocks,
        (first + count) * kblocks * 16 <= p.len(),
        first + count <= usize::MAX,
    ensures
        forall|t: int|
            0 <= t < count ==> (#[trigger] r@[t])@ == p@.subrange(
                ((first + t) * kblocks + kb) * 16,
                ((first + t) * kblocks + kb) * 16 + 16,
            ),
{
    let mut r = [vdupq_n_s8(0);4];
    let mut t: usize = 0;
    while t < count
        invariant
            t <= count <= 4,
            kb < kblocks,
            (first + count) * kblocks * 16 <= p.len(),
            first + count <= usize::MAX,
            forall|u: int|
                0 <= u < t ==> (#[trigger] r@[u])@ == p@.subrange(
                    ((first + u) * kblocks + kb) * 16,
                    ((first + u) * kblocks + kb) * 16 + 16,
                ),
        decreases count - t,
    {
        proof {
            smmla::lemma_tile_bounds(first + count, kblocks as int, first + t, kb as int);
        }
        r[t] = vld1q_s8(p, ((first + t) * kblocks + kb) * 16);
        t += 1;
    }
    r
}

/// Up to sixteen `SMMLA`s: each of `nr` rows of tiles with each of `nc` columns of tiles.
fn multiply_tiles(
    acc: &mut [I32x4; 16],
    av: &[I8x16; 4],
    bv: &[I8x16; 4],
    nr: usize,
    nc: usize,
)
    requires
        nr <= 4,
        nc <= 4,
    ensures
        forall|t: int|
            0 <= t < 16 ==> (#[trigger] final(acc)@[t])@ == if t / 4 < nr && t % 4 < nc {
                neon::smmla(old(acc)@[t]@, av@[t / 4]@, bv@[t % 4]@)
            } else {
                old(acc)@[t]@
            },
{
    let ghost acc0 = acc@;
    let mut t: usize = 0;
    while t < 16
        invariant
            t <= 16,
            nr <= 4,
            nc <= 4,
            forall|u: int| t <= u < 16 ==> #[trigger] acc@[u] == acc0[u],
            forall|u: int|
                0 <= u < t ==> (#[trigger] acc@[u])@ == if u / 4 < nr && u % 4 < nc {
                    neon::smmla(acc0[u]@, av@[u / 4]@, bv@[u % 4]@)
                } else {
                    acc0[u]@
                },
        decreases 16 - t,
    {
        if t / 4 < nr && t % 4 < nc {
            acc[t] = vmmlaq_s32(acc[t], av[t / 4], bv[t % 4]);
        }
        t += 1;
    }
}

/// One step of `multiply_tiles` on block `kb` extends every tile by that block.
proof fn lemma_tiles_step(
    acc0: Seq<I32x4>,
    acc1: Seq<I32x4>,
    av: Seq<I8x16>,
    bv: Seq<I8x16>,
    pa: Seq<i8>,
    pb: Seq<i8>,
    kblocks: int,
    rp: int,
    nr: int,
    cp: int,
    nc: int,
    kb: int,
)
    requires
        holds_tiles(acc0, pa, pb, kblocks, rp, nr, cp, nc, kb),
        acc1.len() == 16,
        0 <= rp,
        0 <= cp,
        0 <= kb < kblocks,
        nr <= 4,
        nc <= 4,
        (rp + nr) * kblocks * 16 <= pa.len(),
        (cp + nc) * kblocks * 16 <= pb.len(),
        forall|t: int|
            0 <= t < nr ==> (#[trigger] av[t])@ == pa.subrange(
                ((rp + t) * kblocks + kb) * 16,
                ((rp + t) * kblocks + kb) * 16 + 16,
            ),
        forall|t: int|
            0 <= t < nc ==> (#[trigger] bv[t])@ == pb.subrange(
                ((cp + t) * kblocks + kb) * 16,
                ((cp + t) * kblocks + kb) * 16 + 16,
            ),
        forall|t: int|
            0 <= t < 16 ==> (#[trigger] acc1[t])@ == if t / 4 < nr && t % 4 < nc {
                neon::smmla(acc0[t]@, av[t / 4]@, bv[t % 4]@)
            } else {
                acc0[t]@
            },
    ensures
        holds_tiles(acc1, pa, pb, kblocks, rp, nr, cp, nc, kb + 1),
{
    assert forall|t: int|
        0 <= t < 16 && t / 4 < nr && t % 4 < nc implies smmla::holds_tile(
        (#[trigger] acc1[t])@,
        pa,
        pb,
        kblocks,
        2 * (rp + t / 4),
        2 * (cp + t % 4),
        kb + 1,
    ) by {
        let before = acc0[t];
        let x = av[t / 4];
        let y = bv[t % 4];
        smmla::lemma_tile_bounds(rp + nr, kblocks, rp + t / 4, kb);
        smmla::lemma_tile_bounds(cp + nc, kblocks, cp + t % 4, kb);
        smmla::lemma_tile_step(before@, pa, pb, kblocks, rp + t / 4, cp + t % 4, kb);
    }
}

/// The tiles of row pairs `rp..rp + nr` and column pairs `cp..cp + nc`, one block of k at a time.
fn tiles(
    pa: &[i8],
    pb: &[i8],
    kblocks: usize,
    rp: usize,
    nr: usize,
    cp: usize,
    nc: usize,
) -> (acc: [I32x4; 16])
    requires
        1 <= nr <= 4,
        1 <= nc <= 4,
        rp + nr <= usize::MAX,
        cp + nc <= usize::MAX,
        (rp + nr) * kblocks * 16 <= pa.len(),
        (cp + nc) * kblocks * 16 <= pb.len(),
    ensures
        holds_tiles(
            acc@,
            pa@,
            pb@,
            kblocks as int,
            rp as int,
            nr as int,
            cp as int,
            nc as int,
            kblocks as int,
        ),
{
    let mut acc = [vdupq_n_s32(0);16];
    let mut kb: usize = 0;
    while kb < kblocks
        invariant
            kb <= kblocks,
            1 <= nr <= 4,
            1 <= nc <= 4,
            rp + nr <= usize::MAX,
            cp + nc <= usize::MAX,
            (rp + nr) * kblocks * 16 <= pa.len(),
            (cp + nc) * kblocks * 16 <= pb.len(),
            holds_tiles(
                acc@,
                pa@,
                pb@,
                kblocks as int,
                rp as int,
                nr as int,
                cp as int,
                nc as int,
                kb as int,
            ),
        decreases kblocks - kb,
    {
        let av = load_tiles(pa, kblocks, rp, nr, kb);
        let bv = load_tiles(pb, kblocks, cp, nc, kb);
        let ghost acc0 = acc@;
        multiply_tiles(&mut acc, &av, &bv, nr, nc);
        proof {
            lemma_tiles_step(
                acc0,
                acc@,
                av@,
                bv@,
                pa@,
                pb@,
                kblocks as int,
                rp as int,
                nr as int,
                cp as int,
                nc as int,
                kb as int,
            );
        }
        kb += 1;
    }
    acc
}

/// The same tiles with k unrolled by two: the loads of two blocks come before the multiplications
/// of either, so that sixteen loads are outstanding instead of eight.
fn tiles_u2(
    pa: &[i8],
    pb: &[i8],
    kblocks: usize,
    rp: usize,
    nr: usize,
    cp: usize,
    nc: usize,
) -> (acc: [I32x4; 16])
    requires
        1 <= nr <= 4,
        1 <= nc <= 4,
        rp + nr <= usize::MAX,
        cp + nc <= usize::MAX,
        (rp + nr) * kblocks * 16 <= pa.len(),
        (cp + nc) * kblocks * 16 <= pb.len(),
    ensures
        holds_tiles(
            acc@,
            pa@,
            pb@,
            kblocks as int,
            rp as int,
            nr as int,
            cp as int,
            nc as int,
            kblocks as int,
        ),
{
    let mut acc = [vdupq_n_s32(0);16];
    let mut kb: usize = 0;
    while kb < kblocks
        invariant
            kb <= kblocks,
            1 <= nr <= 4,
            1 <= nc <= 4,
            rp + nr <= usize::MAX,
            cp + nc <= usize::MAX,
            (rp + nr) * kblocks * 16 <= pa.len(),
            (cp + nc) * kblocks * 16 <= pb.len(),
            holds_tiles(
                acc@,
                pa@,
                pb@,
                kblocks as int,
                rp as int,
                nr as int,
                cp as int,
                nc as int,
                kb as int,
            ),
        decreases kblocks - kb,
    {
        let av0 = load_tiles(pa, kblocks, rp, nr, kb);
        let bv0 = load_tiles(pb, kblocks, cp, nc, kb);
        let two_kb = kblocks - kb > 1;
        let kb1 = if two_kb {
            kb + 1
        } else {
            kb
        };
        let av1 = load_tiles(pa, kblocks, rp, nr, kb1);
        let bv1 = load_tiles(pb, kblocks, cp, nc, kb1);
        let ghost acc0 = acc@;
        multiply_tiles(&mut acc, &av0, &bv0, nr, nc);
        proof {
            lemma_tiles_step(
                acc0,
                acc@,
                av0@,
                bv0@,
                pa@,
                pb@,
                kblocks as int,
                rp as int,
                nr as int,
                cp as int,
                nc as int,
                kb as int,
            );
        }
        kb += 1;
        if two_kb {
            let ghost acc1 = acc@;
            multiply_tiles(&mut acc, &av1, &bv1, nr, nc);
            proof {
                lemma_tiles_step(
                    acc1,
                    acc@,
                    av1@,
                    bv1@,
                    pa@,
                    pb@,
                    kblocks as int,
                    rp as int,
                    nr as int,
                    cp as int,
                    nc as int,
                    kb as int,
                );
            }
            kb += 1;
        }
    }
    acc
}

/// The entries of `C` that row pairs `rp..rp + nr` and column pairs `cp..cp + nc` cover, as far as
/// they lie in the first `m` rows.
pub open spec fn block(rp: int, nr: int, cp: int, nc: int, m: int) -> spec_fn(int, int) -> bool {
    |i: int, j: int| 2 * rp <= i < 2 * (rp + nr) && i < m && 2 * cp <= j < 2 * (cp + nc)
}

/// The lanes of sixteen accumulators laid over that block.
pub open spec fn block_value(acc: Seq<I32x4>, rp: int, cp: int) -> spec_fn(int, int) -> i32 {
    |i: int, j: int| acc[4 * (i / 2 - rp) + (j / 2 - cp)]@[2 * (i % 2) + j % 2]
}

/// Which of the entries of a block lie in its tile `t`.
proof fn lemma_block_tile(
    rp: int,
    nr: int,
    cp: int,
    nc: int,
    m: int,
    t: int,
    i: int,
    j: int,
)
    requires
        nr <= 4,
        nc <= 4,
        0 <= t < 16,
        0 <= rp,
        0 <= cp,
        0 <= i,
        0 <= j,
    ensures
        block(rp, nr, cp, nc, m)(i, j) && 4 * (i / 2 - rp) + (j / 2 - cp) == t ==> t / 4 < nr && t
            % 4 < nc,
        t / 4 < nr && t % 4 < nc ==> (model::tile(2 * (rp + t / 4), 2 * (cp + t % 4), m)(i, j) <==> (
        block(rp, nr, cp, nc, m)(i, j) && 4 * (i / 2 - rp) + (j / 2 - cp) == t)),
        model::tile(2 * (rp + t / 4), 2 * (cp + t % 4), m)(i, j) ==> i / 2 == rp + t / 4 && j / 2
            == cp + t % 4,
{
}

/// Stores the tiles of row pairs `rp..rp + nr` and column pairs `cp..cp + nc`.
fn store_tiles(
    acc: &[I32x4; 16],
    rp: usize,
    nr: usize,
    cp: usize,
    nc: usize,
    m: usize,
    n: usize,
    c: &mut [i32],
)
    requires
        nr <= 4,
        nc <= 4,
        2 * (rp + nr) <= usize::MAX,
        2 * (cp + nc) <= usize::MAX,
        m * n <= old(c).len(),
    ensures
        model::filled(
            old(c)@,
            final(c)@,
            n as int,
            block(rp as int, nr as int, cp as int, nc as int, m as int),
            block_value(acc@, rp as int, cp as int),
        ),
{
    let ghost c0 = c@;
    let ghost whole = block(rp as int, nr as int, cp as int, nc as int, m as int);
    let ghost value = block_value(acc@, rp as int, cp as int);
    let ghost mut region = |i: int, j: int| false;
    proof {
        model::lemma_fill_none(c@, n as int, region, value);
    }
    let mut t: usize = 0;
    while t < 16
        invariant
            t <= 16,
            nr <= 4,
            nc <= 4,
            2 * (rp + nr) <= usize::MAX,
            2 * (cp + nc) <= usize::MAX,
            m * n <= c.len(),
            whole == block(rp as int, nr as int, cp as int, nc as int, m as int),
            value == block_value(acc@, rp as int, cp as int),
            model::filled(c0, c@, n as int, region, value),
            forall|i: int, j: int|
                0 <= i && 0 <= j < n ==> #[trigger] region(i, j) == (whole(i, j) && 4 * (i / 2 - rp)
                    + (j / 2 - cp) < t),
        decreases 16 - t,
    {
        let r = t / 4;
        let s = t % 4;
        if r < nr && s < nc {
            let ghost c1 = c@;
            let ghost old_region = region;
            let ghost i0 = 2 * (rp + r);
            let ghost j0 = 2 * (cp + s);
            let ghost placed = model::tile(i0, j0, m as int);
            store_tile(acc[t], (rp + r) * 2, (cp + s) * 2, m, n, c);
            proof {
                region = model::union(old_region, placed);
                let laid = model::tile_value(acc@[t as int]@, i0, j0);
                assert forall|i: int, j: int|
                    0 <= i && 0 <= j < n && #[trigger] placed(i, j) implies laid(i, j) == value(
                    i,
                    j,
                ) by {
                    lemma_block_tile(
                        rp as int,
                        nr as int,
                        cp as int,
                        nc as int,
                        m as int,
                        t as int,
                        i,
                        j,
                    );
                    assert(2 * (i - i0) + (j - j0) == 2 * (i % 2) + j % 2);
                }
                model::lemma_fill_more(
                    c0,
                    c1,
                    c@,
                    n as int,
                    old_region,
                    placed,
                    region,
                    value,
                    laid,
                );
            }
        }
        proof {
            assert forall|i: int, j: int| 0 <= i && 0 <= j < n implies #[trigger] region(i, j) == (
            whole(i, j) && 4 * (i / 2 - rp) + (j / 2 - cp) < t + 1) by {
                lemma_block_tile(
                    rp as int,
                    nr as int,
                    cp as int,
                    nc as int,
                    m as int,
                    t as int,
                    i,
                    j,
                );
            }
        }
        t += 1;
    }
    proof {
        model::lemma_region_ext(c0, c@, n as int, region, whole, value);
    }
}

/// The column-range worker in 8x8 output tiles, with k unrolled by two on request.
fn smmla_8x8_range(
    m: usize,
    n: usize,
    mp: usize,
    kp: usize,
    pa: &[i8],
    pb: &[i8],
    c: &mut [i32],
    cp0: usize,
    cp1: usize,
    unrolled: bool,
)
    requires
        mp / 2 * (kp / 8) * 16 <= pa.len(),
        cp1 * (kp / 8) * 16 <= pb.len(),
        2 * cp1 <= usize::MAX,
        m * n <= old(c).len(),
    ensures
        model::filled(
            old(c)@,
            final(c)@,
            n as int,
            model::window(model::rows_reached(m as int, mp as int / 2), 2 * cp0, 2 * cp1),
            model::packed_value(pa@, pb@, kp as int / 8),
        ),
{
    let kblocks = kp / 8;
    let rowpairs = mp / 2;
    let ghost c0 = c@;
    let ghost value = model::packed_value(pa@, pb@, kblocks as int);
    let ghost rows = model::rows_reached(m as int, rowpairs as int);
    let ghost j0 = 2 * cp0;
    let ghost j1 = 2 * cp1;
    proof {
        model::lemma_band_start(c0, n as int, rows, j0, j1, 0, value);
    }
    let mut rp: usize = 0;
    while rp < rowpairs
        invariant
            rp <= rowpairs,
            2 * rowpairs <= usize::MAX,
            rowpairs * kblocks * 16 <= pa.len(),
            cp1 * kblocks * 16 <= pb.len(),
            2 * cp1 <= usize::MAX,
            m * n <= c.len(),
            rows == model::rows_reached(m as int, rowpairs as int),
            j0 == 2 * cp0,
            j1 == 2 * cp1,
            value == model::packed_value(pa@, pb@, kblocks as int),
            model::filled(c0, c@, n as int, model::banded(rows, j0, j1, 2 * rp, 0, j0), value),
        decreases rowpairs - rp,
    {
        let nr = if rowpairs - rp > 4 {
            4
        } else {
            rowpairs - rp
        };
        let ghost i1 = 2 * (rp + nr);
        proof {
            model::lemma_region_ext(
                c0,
                c@,
                n as int,
                model::banded(rows, j0, j1, 2 * rp, 0, j0),
                model::banded(rows, j0, j1, 2 * rp, i1, 2 * cp0),
                value,
            );
        }
        let mut cp: usize = cp0;
        while cp < cp1
            invariant
                rp < rowpairs,
                1 <= nr <= 4,
                rp + nr <= rowpairs,
                2 * rowpairs <= usize::MAX,
                i1 == 2 * (rp + nr),
                cp0 <= cp,
                cp0 < cp1 ==> cp <= cp1,
                rowpairs * kblocks * 16 <= pa.len(),
                cp1 * kblocks * 16 <= pb.len(),
                2 * cp1 <= usize::MAX,
                m * n <= c.len(),
                rows == model::rows_reached(m as int, rowpairs as int),
                j0 == 2 * cp0,
                j1 == 2 * cp1,
                value == model::packed_value(pa@, pb@, kblocks as int),
                model::filled(
                    c0,
                    c@,
                    n as int,
                    model::banded(rows, j0, j1, 2 * rp, i1, 2 * cp),
                    value,
                ),
            decreases cp1 - cp,
        {
            let nc = if cp1 - cp > 4 {
                4
            } else {
                cp1 - cp
            };
            assert((rp + nr) * kblocks <= rowpairs * kblocks) by (nonlinear_arith)
                requires
                    rp + nr <= rowpairs,
            ;
            assert((cp + nc) * kblocks <= cp1 * kblocks) by (nonlinear_arith)
                requires
                    cp + nc <= cp1,
            ;
            let acc = if unrolled {
                tiles_u2(pa, pb, kblocks, rp, nr, cp, nc)
            } else {
                tiles(pa, pb, kblocks, rp, nr, cp, nc)
            };
            let ghost c1 = c@;
            store_tiles(&acc, rp, nr, cp, nc, m, n, c);
            proof {
                let placed = block(rp as int, nr as int, cp as int, nc as int, m as int);
                let laid = block_value(acc@, rp as int, cp as int);
                assert forall|i: int, j: int|
                    0 <= i && 0 <= j < n && #[trigger] placed(i, j) implies laid(i, j) == value(
                    i,
                    j,
                ) by {
                    let r = i / 2 - rp;
                    let s = j / 2 - cp;
                    let t = 4 * r + s;
                    let l = 2 * (i % 2) + j % 2;
                    assert(t / 4 == r && t % 4 == s);
                    assert(l / 2 == i % 2 && l % 2 == j % 2);
                    let lanes = acc@[t]@;
                    assert(lanes[l] == lanes[l]);
                    assert(2 * (rp + r) + l / 2 == i);
                    assert(2 * (cp + s) + l % 2 == j);
                }
                model::lemma_fill_more(
                    c0,
                    c1,
                    c@,
                    n as int,
                    model::banded(rows, j0, j1, 2 * rp, i1, 2 * cp),
                    placed,
                    model::banded(rows, j0, j1, 2 * rp, i1, 2 * (cp + nc)),
                    value,
                    laid,
                );
            }
            cp += nc;
        }
        proof {
            model::lemma_band_next(
                c0,
                c@,
                n as int,
                rows,
                j0,
                j1,
                2 * rp,
                i1,
                0,
                2 * cp,
                value,
            );
        }
        rp += nr;
    }
    proof {
        model::lemma_band_end(c0, c@, n as int, rows, j0, j1, 2 * rp, 0, value);
    }
}

/// The whole product of packed operands, in 8x8 output tiles.
///
/// `pa`, `mp` and `kp` as given by `pack_a_smmla`, `pb` and `np` as given by `pack_b_smmla`.
pub fn gemm_smmla_8x8(
    m: usize,
    n: usize,
    mp: usize,
    np: usize,
    kp: usize,
    pa: &[i8],
    pb: &[i8],
    c: &mut [i32],
)
    requires
        mp / 2 * (kp / 8) * 16 <= pa.len(),
        np / 2 * (kp / 8) * 16 <= pb.len(),
        m * n <= old(c).len(),
    ensures
        model::filled(
            old(c)@,
            final(c)@,
            n as int,
            model::window(model::rows_reached(m as int, mp as int / 2), 0, 2 * (np as int / 2)),
            model::packed_value(pa@, pb@, kp as int / 8),
        ),
{
    smmla_8x8_range(m, n, mp, kp, pa, pb, c, 0, np / 2, false)
}

/// The whole product in 8x8 output tiles with k unrolled by two: same tile, same bytes, twice the
/// loads in flight.
pub fn gemm_smmla_8x8_u2(
    m: usize,
    n: usize,
    mp: usize,
    np: usize,
    kp: usize,
    pa: &[i8],
    pb: &[i8],
    c: &mut [i32],
)
    requires
        mp / 2 * (kp / 8) * 16 <= pa.len(),
        np / 2 * (kp / 8) * 16 <= pb.len(),
        m * n <= old(c).len(),
    ensures
        model::filled(
            old(c)@,
            final(c)@,
            n as int,
            model::window(model::rows_reached(m as int, mp as int / 2), 0, 2 * (np as int / 2)),
            model::packed_value(pa@, pb@, kp as int / 8),
        ),
{
    smmla_8x8_range(m, n, mp, kp, pa, pb, c, 0, np / 2, true)
}

} // verus!
