//! The 128-bit NEON operations that the kernels are built from, lane by lane in portable code.
//!
//! Each function carries the name of the Arm intrinsic whose lanes it computes. Integer
//! accumulation is modulo 2^32 in every lane, as the instructions define it.
use crate::math;
use crate::math::{add_wrapping, mul_widening};
use vstd::prelude::*;

verus! {

/// Sixteen int8 lanes (`int8x16_t`).
#[derive(Clone, Copy, Debug)]
pub struct I8x16 {
    pub lanes: [i8; 16],
}

/// Four int32 lanes (`int32x4_t`).
#[derive(Clone, Copy, Debug)]
pub struct I32x4 {
    pub lanes: [i32; 4],
}

impl View for I8x16 {
    type V = Seq<i8>;

    open spec fn view(&self) -> Seq<i8> {
        self.lanes@
    }
}

impl View for I32x4 {
    type V = Seq<i32>;

    open spec fn view(&self) -> Seq<i32> {
        self.lanes@
    }
}

/// The dot product of four lanes of `a` from lane `oa` with four lanes of `b` from lane `ob`.
pub open spec fn dot4(a: Seq<i8>, oa: int, b: Seq<i8>, ob: int) -> int {
    a[oa] * b[ob] + a[oa + 1] * b[ob + 1] + a[oa + 2] * b[ob + 2] + a[oa + 3] * b[ob + 3]
}

/// The dot product of eight lanes of `a` from lane `oa` with eight lanes of `b` from lane `ob`.
pub open spec fn dot8(a: Seq<i8>, oa: int, b: Seq<i8>, ob: int) -> int {
    dot4(a, oa, b, ob) + dot4(a, oa + 4, b, ob + 4)
}

/// The accumulator after one `SDOT`: lane `l` gains the dot product of lanes `4l..4l+4`.
pub open spec fn sdot(acc: Seq<i32>, a: Seq<i8>, b: Seq<i8>) -> Seq<i32> {
    Seq::new(4, |l: int| math::wrap(acc[l] + dot4(a, 4 * l, b, 4 * l)))
}

/// The accumulator after one `SMMLA`: with `a` and `b` read as 2x8 tiles, lane `2r + s` gains the
/// dot product of row `r` of `a` with row `s` of `b`.
pub open spec fn smmla(acc: Seq<i32>, a: Seq<i8>, b: Seq<i8>) -> Seq<i32> {
    Seq::new(4, |l: int| math::wrap(acc[l] + dot8(a, 8 * (l / 2), b, 8 * (l % 2))))
}

/// All sixteen lanes set to `x`.
pub fn vdupq_n_s8(x: i8) -> (r: I8x16)
    ensures
        r@ == Seq::new(16, |l: int| x),
        forall|l: int| 0 <= l < 16 ==> #[trigger] r.lanes@[l] == x,
{
    I8x16 { lanes: [x; 16] }
}

/// All four lanes set to `x`.
pub fn vdupq_n_s32(x: i32) -> (r: I32x4)
    ensures
        r@ == Seq::new(4, |l: int| x),
        forall|l: int| 0 <= l < 4 ==> #[trigger] r.lanes@[l] == x,
{
    I32x4 { lanes: [x; 4] }
}

/// Sixteen consecutive bytes of `s`, from index `at`.
pub fn vld1q_s8(s: &[i8], at: usize) -> (r: I8x16)
    requires
        at + 16 <= s.len(),
    ensures
        r@ == s@.subrange(at as int, at + 16),
        forall|l: int| 0 <= l < 16 ==> #[trigger] r.lanes@[l] == s@[at + l],
{
    let r = I8x16 {
        lanes: [
            s[at],
            s[at + 1],
            s[at + 2],
            s[at + 3],
            s[at + 4],
            s[at + 5],
            s[at + 6],
            s[at + 7],
            s[at + 8],
            s[at + 9],
            s[at + 10],
            s[at + 11],
            s[at + 12],
            s[at + 13],
            s[at + 14],
            s[at + 15],
        ],
    };
    assert(r@ =~= s@.subrange(at as int, at + 16));
    r
}

/// `acc` plus the dot product of four lanes of `a` from `oa` with four lanes of `b` from `ob`.
fn accumulate4(acc: i32, a: &I8x16, oa: usize, b: &I8x16, ob: usize) -> (r: i32)
    requires
        oa + 4 <= 16,
        ob + 4 <= 16,
    ensures
        r == math::wrap(acc + dot4(a@, oa as int, b@, ob as int)),
{
    let p0 = mul_widening(a.lanes[oa], b.lanes[ob]);
    let p1 = mul_widening(a.lanes[oa + 1], b.lanes[ob + 1]);
    let p2 = mul_widening(a.lanes[oa + 2], b.lanes[ob + 2]);
    let p3 = mul_widening(a.lanes[oa + 3], b.lanes[ob + 3]);
    add_wrapping(acc, p0 + p1 + p2 + p3)
}

/// `SDOT`: four products into each of four int32 lanes.
pub fn vdotq_s32(acc: I32x4, a: I8x16, b: I8x16) -> (r: I32x4)
    ensures
        r@ == sdot(acc@, a@, b@),
        forall|l: int|
            0 <= l < 4 ==> (#[trigger] r.lanes@[l] - (acc.lanes@[l] + a.lanes@[4 * l] * b.lanes@[4
                * l] + a.lanes@[4 * l + 1] * b.lanes@[4 * l + 1] + a.lanes@[4 * l + 2]
                * b.lanes@[4 * l + 2] + a.lanes@[4 * l + 3] * b.lanes@[4 * l + 3]))
                % 0x1_0000_0000 == 0,
{
    let r = I32x4 {
        lanes: [
            accumulate4(acc.lanes[0], &a, 0, &b, 0),
            accumulate4(acc.lanes[1], &a, 4, &b, 4),
            accumulate4(acc.lanes[2], &a, 8, &b, 8),
            accumulate4(acc.lanes[3], &a, 12, &b, 12),
        ],
    };
    assert(r@ =~= sdot(acc@, a@, b@));
    r
}

/// `acc` plus the dot product of eight lanes of `a` from `oa` with eight lanes of `b` from `ob`.
fn accumulate8(acc: i32, a: &I8x16, oa: usize, b: &I8x16, ob: usize) -> (r: i32)
    requires
        oa + 8 <= 16,
        ob + 8 <= 16,
    ensures
        r == math::wrap(acc + dot8(a@, oa as int, b@, ob as int)),
{
    let half = accumulate4(acc, a, oa, b, ob);
    let r = accumulate4(half, a, oa + 4, b, ob + 4);
    proof {
        math::lemma_wrap_add(
            acc + dot4(a@, oa as int, b@, ob as int),
            dot4(a@, oa + 4, b@, ob + 4),
        );
    }
    r
}

/// `SMMLA`: a 2x2 int32 tile, eight products into each lane, in lane order
/// `[r0c0, r0c1, r1c0, r1c1]`.
pub fn vmmlaq_s32(acc: I32x4, a: I8x16, b: I8x16) -> (r: I32x4)
    ensures
        r@ == smmla(acc@, a@, b@),
        forall|l: int|
            0 <= l < 4 ==> ({
                let u = 8 * (l / 2);
                let v = 8 * (l % 2);
                (#[trigger] r.lanes@[l] - (acc.lanes@[l] + a.lanes@[u] * b.lanes@[v] + a.lanes@[u
                    + 1] * b.lanes@[v + 1] + a.lanes@[u + 2] * b.lanes@[v + 2] + a.lanes@[u + 3]
                    * b.lanes@[v + 3] + a.lanes@[u + 4] * b.lanes@[v + 4] + a.lanes@[u + 5]
                    * b.lanes@[v + 5] + a.lanes@[u + 6] * b.lanes@[v + 6] + a.lanes@[u + 7]
                    * b.lanes@[v + 7])) % 0x1_0000_0000 == 0
            }),
{
    let r = I32x4 {
        lanes: [
            accumulate8(acc.lanes[0], &a, 0, &b, 0),
            accumulate8(acc.lanes[1], &a, 0, &b, 8),
            accumulate8(acc.lanes[2], &a, 8, &b, 0),
            accumulate8(acc.lanes[3], &a, 8, &b, 8),
        ],
    };
    assert(r@ =~= smmla(acc@, a@, b@));
    r
}

/// The sum of all four lanes, modulo 2^32.
pub fn vaddvq_s32(v: I32x4) -> (r: i32)
    ensures
        r == math::wrap(v@[0] + v@[1] + v@[2] + v@[3]),
        (r - (v.lanes@[0] + v.lanes@[1] + v.lanes@[2] + v.lanes@[3])) % 0x1_0000_0000 == 0,
{
    let lo = add_wrapping(v.lanes[0], v.lanes[1]);
    let hi = add_wrapping(v.lanes[2], v.lanes[3]);
    proof {
        let (x, y) = (v@[0] + v@[1], v@[2] + v@[3]);
        math::lemma_wrap_add(x, hi as int);
        math::lemma_wrap_add(y, x);
        math::lemma_wrap_congruent(x + y);
    }
    add_wrapping(lo, hi)
}

/// Lane `l`.
pub fn vgetq_lane_s32(v: I32x4, l: usize) -> (r: i32)
    requires
        l < 4,
    ensures
        r == v@[l as int],
        r == v.lanes@[l as int],
{
    v.lanes[l]
}

} // verus!
