use arm_quant_gemm::harness::{same, SEED_A, SEED_B};
use arm_quant_gemm::{
    all_matched, choose_kernel, column_ranges, fill, gemm_scalar, gemm_sdot, gemm_sdot_mt,
    gemm_sdot_tiled, gemm_smmla, gemm_smmla_8x8, gemm_smmla_8x8_u2, gemm_smmla_blocked,
    gemm_smmla_mt, matches_reference, pack_a_smmla, pack_b_smmla, pack_b_transposed, run_all,
    run_mt, sdot_colrange, smmla_colrange, Kernel, SMMLA_MIN_ROWS,
};

struct Case {
    m: usize,
    n: usize,
    k: usize,
    a: Vec<i8>,
    bt: Vec<i8>,
    pa: Vec<i8>,
    pb: Vec<i8>,
    mp: usize,
    np: usize,
    kp: usize,
    reference: Vec<i32>,
}

fn case(m: usize, n: usize, k: usize) -> Case {
    let mut a = vec![0i8; m * k];
    let mut b = vec![0i8; k * n];
    fill(&mut a, SEED_A);
    fill(&mut b, SEED_B);
    let mut reference = vec![0i32; m * n];
    gemm_scalar(m, n, k, &a, &b, &mut reference);
    let bt = pack_b_transposed(n, k, k, &b);
    let (pa, mp, kp) = pack_a_smmla(m, k, &a);
    let (pb, np) = pack_b_smmla(n, k, &b);
    Case { m, n, k, a, bt, pa, pb, mp, np, kp, reference }
}

fn shapes() -> Vec<(usize, usize, usize)> {
    vec![
        (1, 1, 8),
        (2, 2, 8),
        (3, 5, 11),
        (7, 7, 7),
        (1, 64, 128),
        (17, 33, 65),
        (64, 64, 64),
        (63, 65, 129),
        (128, 128, 256),
        (0, 3, 4),
        (3, 0, 4),
        (3, 4, 0),
        (5, 1, 16),
        (9, 19, 17),
        (2, 515, 9),
    ]
}

#[test]
fn scalar_small_product() {
    let a = [1i8, 2, 3, 4, 5, 6];
    let b = [7i8, 8, 9, 10, 11, 12];
    let mut c = [0i32; 4];
    gemm_scalar(2, 2, 3, &a, &b, &mut c);
    assert_eq!(c, [58, 64, 139, 154]);
}

#[test]
fn scalar_leaves_the_rest_of_c_alone() {
    let mut c = [9i32; 6];
    gemm_scalar(2, 2, 1, &[1, -2], &[3, 4], &mut c);
    assert_eq!(c, [3, 4, -6, -8, 9, 9]);
}

#[test]
fn scalar_without_terms_gives_zero() {
    let mut c = [9i32; 4];
    gemm_scalar(2, 2, 0, &[], &[], &mut c);
    assert_eq!(c, [0; 4]);
}

#[test]
fn scalar_of_filled_operands() {
    assert_eq!(case(1, 1, 8).reference, vec![5331]);
    assert_eq!(case(2, 2, 8).reference, vec![2160, 4564, 8320, -7983]);
    assert_eq!(
        case(3, 5, 11).reference,
        vec![
            7001, 3766, -21412, -1451, 7342, -22147, -11494, -26012, -7057, 15187, -7362, -28078,
            3296, -5851, 16596
        ]
    );
    let sum: i32 = case(17, 33, 65).reference.iter().sum();
    assert_eq!(sum, 435203);
}

#[test]
fn sdot_matches_scalar_on_every_shape() {
    for (m, n, k) in shapes() {
        let s = case(m, n, k);
        let mut c = vec![-1i32; m * n];
        gemm_sdot(s.m, s.n, s.k, s.k, &s.a, &s.bt, &mut c);
        assert_eq!(c, s.reference, "{}x{}x{}", m, n, k);
    }
}

#[test]
fn tiled_sdot_matches_scalar_on_every_shape() {
    for (m, n, k) in shapes() {
        let s = case(m, n, k);
        let mut c = vec![-1i32; m * n];
        gemm_sdot_tiled(s.m, s.n, s.k, s.k, &s.a, &s.bt, &mut c);
        assert_eq!(c, s.reference, "{}x{}x{}", m, n, k);
    }
}

#[test]
fn smmla_matches_scalar_on_every_shape() {
    for (m, n, k) in shapes() {
        let s = case(m, n, k);
        let mut c = vec![-1i32; m * n];
        gemm_smmla(s.m, s.n, s.mp, s.np, s.kp, &s.pa, &s.pb, &mut c);
        assert_eq!(c, s.reference, "{}x{}x{}", m, n, k);
    }
}

#[test]
fn blocked_smmla_matches_scalar_on_every_shape() {
    for (m, n, k) in shapes() {
        let s = case(m, n, k);
        let mut c = vec![-1i32; m * n];
        gemm_smmla_blocked(s.m, s.n, s.mp, s.np, s.kp, &s.pa, &s.pb, &mut c);
        assert_eq!(c, s.reference, "{}x{}x{}", m, n, k);
    }
}

#[test]
fn smmla_8x8_matches_scalar_on_every_shape() {
    for (m, n, k) in shapes() {
        let s = case(m, n, k);
        let mut c = vec![-1i32; m * n];
        gemm_smmla_8x8(s.m, s.n, s.mp, s.np, s.kp, &s.pa, &s.pb, &mut c);
        assert_eq!(c, s.reference, "{}x{}x{}", m, n, k);
    }
}

#[test]
fn unrolled_smmla_8x8_is_bit_identical() {
    for (m, n, k) in shapes() {
        let s = case(m, n, k);
        let mut c0 = vec![-1i32; m * n];
        let mut c1 = vec![-2i32; m * n];
        gemm_smmla_8x8(s.m, s.n, s.mp, s.np, s.kp, &s.pa, &s.pb, &mut c0);
        gemm_smmla_8x8_u2(s.m, s.n, s.mp, s.np, s.kp, &s.pa, &s.pb, &mut c1);
        assert!(same(&c0, &c1), "{}x{}x{}", m, n, k);
    }
}

#[test]
fn shared_out_kernels_match_scalar_for_any_thread_count() {
    for t in [0usize, 1, 2, 3, 8, 16, 1000] {
        for (m, n, k) in [(1usize, 257usize, 128usize), (5, 64, 96), (64, 129, 130), (3, 0, 2)] {
            let s = case(m, n, k);
            let mut c = vec![-1i32; m * n];
            gemm_sdot_mt(m, n, k, k, &s.a, &s.bt, &mut c, t);
            assert_eq!(c, s.reference);
            let mut c = vec![-1i32; m * n];
            gemm_smmla_mt(m, n, s.mp, s.np, s.kp, &s.pa, &s.pb, &mut c, t);
            assert_eq!(c, s.reference);
        }
    }
}

#[test]
fn sums_wrap_alike_past_the_32_bit_range() {
    // 131072 products of -128 * -128 add up to 2^31.
    let (m, n, k) = (1, 2, 131072);
    let a = vec![-128i8; m * k];
    let b = vec![-128i8; k * n];
    let mut c = vec![0i32; m * n];
    gemm_scalar(m, n, k, &a, &b, &mut c);
    assert_eq!(c, vec![i32::MIN; 2]);
    let bt = pack_b_transposed(n, k, k, &b);
    let mut c = vec![0i32; m * n];
    gemm_sdot(m, n, k, k, &a, &bt, &mut c);
    assert_eq!(c, vec![i32::MIN; 2]);
    let (pa, mp, kp) = pack_a_smmla(m, k, &a);
    let (pb, np) = pack_b_smmla(n, k, &b);
    let mut c = vec![0i32; m * n];
    gemm_smmla(m, n, mp, np, kp, &pa, &pb, &mut c);
    assert_eq!(c, vec![i32::MIN; 2]);
}

#[test]
fn sums_are_exact_below_the_limit() {
    let k = 131071;
    let mut c = [0i32; 1];
    gemm_scalar(1, 1, k, &vec![-128i8; k], &vec![-128i8; k], &mut c);
    assert_eq!(c, [2147467264]);
}

#[test]
fn column_range_workers_write_only_their_columns() {
    let s = case(5, 11, 20);
    let mut c = vec![-7i32; 55];
    sdot_colrange(5, 11, 20, 20, &s.a, &s.bt, &mut c, 3, 6);
    for i in 0..5 {
        for j in 0..11 {
            let want = if (3..6).contains(&j) { s.reference[i * 11 + j] } else { -7 };
            assert_eq!(c[i * 11 + j], want);
        }
    }
    let mut c = vec![-7i32; 55];
    smmla_colrange(5, 11, s.mp, s.kp, &s.pa, &s.pb, &mut c, 2, 5);
    for i in 0..5 {
        for j in 0..11 {
            let want = if (4..10).contains(&j) { s.reference[i * 11 + j] } else { -7 };
            assert_eq!(c[i * 11 + j], want);
        }
    }
}

#[test]
fn workers_may_run_in_any_order() {
    let s = case(4, 21, 33);
    let ranges = column_ranges(s.np / 2, 4);
    assert_eq!(ranges, vec![(0, 3), (3, 6), (6, 9), (9, 11)]);
    let mut c = vec![0i32; 84];
    for t in [2usize, 0, 3, 1] {
        let (cp0, cp1) = ranges[t];
        smmla_colrange(4, 21, s.mp, s.kp, &s.pa, &s.pb, &mut c, cp0, cp1);
    }
    assert_eq!(c, s.reference);
}

#[test]
fn run_all_agrees_on_the_verification_shapes() {
    let mut rows = Vec::new();
    for (m, n, k) in shapes() {
        let r = run_all(m, n, k);
        rows.push(matches_reference(&r));
        assert_eq!(r.0, case(m, n, k).reference);
    }
    assert!(all_matched(&rows));
}

#[test]
fn run_mt_agrees_for_any_thread_count() {
    for t in [2usize, 3, 8, 16] {
        for (m, n, k) in [(1usize, 257usize, 128usize), (5, 64, 96), (64, 129, 130)] {
            let r = run_mt(m, n, k, t);
            assert_eq!(matches_reference(&r), (true, true));
            assert_eq!(r.0, case(m, n, k).reference);
        }
    }
}

#[test]
fn mismatches_are_reported() {
    let r = (vec![1, 2], vec![1, 2], vec![1, 3]);
    assert_eq!(matches_reference(&r), (true, false));
    let r = (vec![1, 2], vec![1], vec![1, 2]);
    assert_eq!(matches_reference(&r), (false, true));
    assert!(!all_matched(&[(true, true), (true, false)]));
    assert!(!all_matched(&[(false, true), (true, true)]));
    assert!(all_matched(&[]));
}

#[test]
fn decode_step_goes_to_sdot() {
    assert_eq!(SMMLA_MIN_ROWS, 2);
    assert_eq!(choose_kernel(0), Kernel::Sdot);
    assert_eq!(choose_kernel(1), Kernel::Sdot);
    assert_eq!(choose_kernel(2), Kernel::Smmla);
    assert_eq!(choose_kernel(8), Kernel::Smmla);
}
