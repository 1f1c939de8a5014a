use arm_quant_gemm::harness::{SEED_A, SEED_B};
use arm_quant_gemm::math::{add_wrapping, div_ceil, mul_widening};
use arm_quant_gemm::neon::{
    vaddvq_s32, vdotq_s32, vdupq_n_s32, vdupq_n_s8, vgetq_lane_s32, vld1q_s8, vmmlaq_s32, I32x4,
};
use arm_quant_gemm::roofline::{chain_sink, footprint, sdot_chains, smmla_chains, Unit};
use arm_quant_gemm::{
    column_ranges, fill, pack_a_smmla, pack_b_smmla, pack_b_transposed, store_tile,
};

#[test]
fn fill_is_reproducible() {
    let mut a = [0i8; 8];
    fill(&mut a, SEED_A);
    assert_eq!(a, [11, 2, -27, 54, -95, 78, -42, 26]);
    let mut b = [0i8; 8];
    fill(&mut b, SEED_B);
    assert_eq!(b, [-89, 59, -113, -119, -29, 86, 39, 67]);
}

#[test]
fn shorter_fill_is_a_prefix() {
    let mut long = [0i8; 100];
    let mut short = [0i8; 37];
    fill(&mut long, SEED_A);
    fill(&mut short, SEED_A);
    assert_eq!(short[..], long[..37]);
    fill(&mut [], SEED_A);
}

#[test]
fn seeds_are_made_odd() {
    let mut x = [0i8; 4];
    let mut y = [0i8; 4];
    fill(&mut x, 0);
    fill(&mut y, 1);
    assert_eq!(x, [64, 12, 110, 85]);
    assert_eq!(x, y);
}

#[test]
fn transposed_pack_keeps_columns_contiguous() {
    // B is 3 x 2.
    let b = [1i8, 2, 3, 4, 5, 6];
    assert_eq!(pack_b_transposed(2, 3, 3, &b), vec![1, 3, 5, 2, 4, 6]);
    assert_eq!(pack_b_transposed(2, 3, 5, &b), vec![1, 3, 5, 0, 0, 2, 4, 6, 0, 0]);
    assert_eq!(pack_b_transposed(0, 3, 5, &b), Vec::<i8>::new());
}

#[test]
fn pack_a_lays_out_two_by_eight_tiles() {
    // A is 3 x 9.
    let a: Vec<i8> = (1..28).collect();
    let (pa, mp, kp) = pack_a_smmla(3, 9, &a);
    assert_eq!((mp, kp), (4, 16));
    assert_eq!(
        pa,
        vec![
            1, 2, 3, 4, 5, 6, 7, 8, 10, 11, 12, 13, 14, 15, 16, 17, // rows 0 and 1, k 0..8
            9, 0, 0, 0, 0, 0, 0, 0, 18, 0, 0, 0, 0, 0, 0, 0, // rows 0 and 1, k 8..16
            19, 20, 21, 22, 23, 24, 25, 26, 0, 0, 0, 0, 0, 0, 0, 0, // row 2 and padding
            27, 0, 0, 0, 0, 0, 0, 0, 0, 0, 0, 0, 0, 0, 0, 0,
        ]
    );
}

#[test]
fn pack_b_lays_out_two_by_eight_tiles() {
    // B is 2 x 3.
    let b = [1i8, 2, 3, 4, 5, 6];
    let (pb, np) = pack_b_smmla(3, 2, &b);
    assert_eq!(np, 4);
    assert_eq!(
        pb,
        vec![
            1, 4, 0, 0, 0, 0, 0, 0, 2, 5, 0, 0, 0, 0, 0, 0, 3, 6, 0, 0, 0, 0, 0, 0, 0, 0, 0, 0, 0,
            0, 0, 0
        ]
    );
}

#[test]
fn second_row_is_padding_for_a_single_row() {
    let (pa, mp, kp) = pack_a_smmla(1, 8, &[1, 2, 3, 4, 5, 6, 7, 8]);
    assert_eq!((mp, kp), (2, 8));
    assert_eq!(pa[..8], [1, 2, 3, 4, 5, 6, 7, 8]);
    assert_eq!(pa[8..], [0; 8]);
    let acc = vmmlaq_s32(vdupq_n_s32(0), vld1q_s8(&pa, 0), vdupq_n_s8(1));
    assert_eq!(acc.lanes, [36, 36, 0, 0]);
}

#[test]
fn sdot_adds_four_products_to_each_lane() {
    let x: Vec<i8> = (0..16).collect();
    let acc = I32x4 { lanes: [100, 200, 300, i32::MAX] };
    let r = vdotq_s32(acc, vld1q_s8(&x, 0), vdupq_n_s8(2));
    assert_eq!(r.lanes, [112, 244, 376, i32::MIN + 107]);
}

#[test]
fn smmla_multiplies_two_by_eight_tiles() {
    let x: Vec<i8> = (0..16).collect();
    let mut y = vec![1i8; 8];
    y.extend_from_slice(&[0, 0, 0, 0, 0, 0, 0, -1]);
    let r = vmmlaq_s32(vdupq_n_s32(1), vld1q_s8(&x, 0), vld1q_s8(&y, 0));
    assert_eq!(r.lanes, [29, -6, 93, -14]);
    assert_eq!(vgetq_lane_s32(r, 2), 93);
    assert_eq!(vaddvq_s32(r), 102);
}

#[test]
fn loads_start_where_asked() {
    let x: Vec<i8> = (0..40).collect();
    assert_eq!(vld1q_s8(&x, 24).lanes[0], 24);
    assert_eq!(vld1q_s8(&x, 24).lanes[15], 39);
}

#[test]
fn tiles_are_clipped_to_c() {
    let acc = I32x4 { lanes: [1, 2, 3, 4] };
    let mut c = [0i32; 9];
    store_tile(acc, 0, 1, 3, 3, &mut c);
    assert_eq!(c, [0, 1, 2, 0, 3, 4, 0, 0, 0]);
    let mut c = [0i32; 9];
    store_tile(acc, 2, 2, 3, 3, &mut c);
    assert_eq!(c, [0, 0, 0, 0, 0, 0, 0, 0, 1]);
    let mut c = [0i32; 9];
    store_tile(acc, 4, 0, 3, 3, &mut c);
    assert_eq!(c, [0; 9]);
}

#[test]
fn ranges_follow_one_another() {
    assert_eq!(column_ranges(10, 1), vec![(0, 10)]);
    assert_eq!(column_ranges(10, 0), vec![(0, 10)]);
    assert_eq!(column_ranges(10, 3), vec![(0, 4), (4, 8), (8, 10)]);
    assert_eq!(column_ranges(9, 6), vec![(0, 2), (2, 4), (4, 6), (6, 8), (8, 9)]);
    assert_eq!(column_ranges(2, 16), vec![(0, 1), (1, 2)]);
    assert_eq!(column_ranges(0, 16), vec![(0, 0)]);
    for total in 1..40 {
        for threads in 0..45 {
            let ranges = column_ranges(total, threads);
            assert!(ranges.len() <= threads.max(1));
            let mut next = 0;
            for (start, end) in ranges {
                assert_eq!(start, next);
                assert!(start < end);
                next = end;
            }
            assert_eq!(next, total);
        }
    }
}

#[test]
fn chains_count_every_step() {
    let one = vdupq_n_s8(1);
    let mut acc = [vdupq_n_s32(0); 16];
    for _ in 0..5 {
        smmla_chains(&mut acc, one, one);
    }
    assert_eq!(acc[15].lanes, [40; 4]);
    assert_eq!(chain_sink(&acc), 640);
    let mut acc = [vdupq_n_s32(0); 16];
    for _ in 0..5 {
        sdot_chains(&mut acc, one, one);
    }
    assert_eq!(acc[0].lanes, [20; 4]);
    assert_eq!(chain_sink(&acc), 320);
}

#[test]
fn footprints_in_whole_units() {
    assert_eq!(footprint(64 << 10), (64, Unit::KiB));
    assert_eq!(footprint(4 << 20), (4, Unit::MiB));
    assert_eq!(footprint((1 << 20) - 1), (1023, Unit::KiB));
}

#[test]
fn arithmetic_helpers() {
    assert_eq!(div_ceil(0, 8), 0);
    assert_eq!(div_ceil(16, 8), 2);
    assert_eq!(div_ceil(17, 8), 3);
    assert_eq!(div_ceil(usize::MAX, 1), usize::MAX);
    assert_eq!(add_wrapping(i32::MAX, 1), i32::MIN);
    assert_eq!(mul_widening(-128, -128), 16384);
}

#[test]
fn packed_elements_can_be_found_again() {
    let (m, n, k) = (5usize, 3usize, 19usize);
    let mut a = vec![0i8; m * k];
    let mut b = vec![0i8; k * n];
    fill(&mut a, SEED_A);
    fill(&mut b, SEED_B);
    let (pa, _, kp) = pack_a_smmla(m, k, &a);
    let (pb, _) = pack_b_smmla(n, k, &b);
    let bt = pack_b_transposed(n, k, 24, &b);
    let at = |r: usize, p: usize| ((r / 2) * (kp / 8) + p / 8) * 16 + (r % 2) * 8 + p % 8;
    for p in 0..k {
        for i in 0..m {
            assert_eq!(pa[at(i, p)], a[i * k + p]);
        }
        for j in 0..n {
            assert_eq!(pb[at(j, p)], b[p * n + j]);
            assert_eq!(bt[j * 24 + p], b[p * n + j]);
        }
    }
}
