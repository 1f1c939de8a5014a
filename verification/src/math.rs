//! Finite sums and arithmetic modulo 2^32.
use vstd::prelude::*;

verus! {

/// `f(0) + f(1) + ... + f(k - 1)`.
pub open spec fn sum(f: spec_fn(int) -> int, k: int) -> int
    decreases k,
{
    if k <= 0 {
        0
    } else {
        sum(f, k - 1) + f(k - 1)
    }
}

/// The 32-bit two's complement value congruent to `x` modulo 2^32.
pub open spec fn wrap(x: int) -> i32 {
    ((x + 0x8000_0000) % 0x1_0000_0000 - 0x8000_0000) as i32
}

/// A value that fits in 32 bits is its own wrapped value.
pub proof fn lemma_wrap_fits(x: int)
    requires
        i32::MIN <= x <= i32::MAX,
    ensures
        wrap(x) == x,
{
}

/// A wrapped value differs from the value it stands for by a multiple of 2^32.
pub proof fn lemma_wrap_congruent(x: int)
    ensures
        (wrap(x) - x) % 0x1_0000_0000 == 0,
{
}

/// Wrapping a summand first does not change a wrapped sum.
pub proof fn lemma_wrap_add(x: int, y: int)
    ensures
        wrap(wrap(x) + y) == wrap(x + y),
{
}

/// Wrapping four summands first does not change their wrapped sum.
pub proof fn lemma_wrap_add4(x0: int, x1: int, x2: int, x3: int)
    ensures
        wrap(wrap(x0) + wrap(x1) + wrap(x2) + wrap(x3)) == wrap(x0 + x1 + x2 + x3),
{
    lemma_wrap_add(x0, wrap(x1) + wrap(x2) + wrap(x3));
    lemma_wrap_add(x1, x0 + wrap(x2) + wrap(x3));
    lemma_wrap_add(x2, x0 + x1 + wrap(x3));
    lemma_wrap_add(x3, x0 + x1 + x2);
}

/// Sums of terms that agree are equal.
pub proof fn lemma_sum_ext(f: spec_fn(int) -> int, g: spec_fn(int) -> int, k: int)
    requires
        forall|p: int| 0 <= p < k ==> #[trigger] f(p) == g(p),
    ensures
        sum(f, k) == sum(g, k),
    decreases k,
{
    if k > 0 {
        lemma_sum_ext(f, g, k - 1);
        assert(f(k - 1) == g(k - 1));
    }
}

/// Zero terms at the end of a sum can be dropped.
pub proof fn lemma_sum_zero_tail(f: spec_fn(int) -> int, k: int, kp: int)
    requires
        0 <= k <= kp,
        forall|p: int| k <= p < kp ==> #[trigger] f(p) == 0,
    ensures
        sum(f, kp) == sum(f, k),
    decreases kp,
{
    if k < kp {
        lemma_sum_zero_tail(f, k, kp - 1);
        assert(f(kp - 1) == 0);
    }
}

/// Eight terms at once.
pub proof fn lemma_sum_8(f: spec_fn(int) -> int, p: int)
    requires
        0 <= p,
    ensures
        sum(f, p + 8) == sum(f, p) + f(p) + f(p + 1) + f(p + 2) + f(p + 3) + f(p + 4) + f(p + 5)
            + f(p + 6) + f(p + 7),
{
    reveal_with_fuel(sum, 9);
}

/// A sum of `k` terms of absolute value at most `bound` is at most `bound * k` in absolute value.
pub proof fn lemma_sum_bound(f: spec_fn(int) -> int, bound: int, k: int)
    requires
        0 <= k,
        forall|p: int| 0 <= p < k ==> -bound <= #[trigger] f(p) <= bound,
    ensures
        -(bound * k) <= sum(f, k) <= bound * k,
    decreases k,
{
    if k > 0 {
        lemma_sum_bound(f, bound, k - 1);
        assert(-bound <= f(k - 1) <= bound);
        assert(bound * k == bound * (k - 1) + bound) by (nonlinear_arith);
    } else {
        assert(bound * k == 0) by (nonlinear_arith)
            requires
                k == 0,
        ;
    }
}

/// The least multiple of `d` that is at least `x`.
pub open spec fn round_up(x: int, d: int) -> int {
    (x + d - 1) / d * d
}

/// `x / d`, rounded up.
pub fn div_ceil(x: usize, d: usize) -> (r: usize)
    requires
        d > 0,
    ensures
        r == (x + d - 1) / d as int,
{
    let q = x / d;
    let r = x % d;
    proof {
        vstd::arithmetic::div_mod::lemma_fundamental_div_mod(x as int, d as int);
        let up = if r > 0 {
            q + 1
        } else {
            q as int
        };
        let rest = if r > 0 {
            r - 1
        } else {
            d - 1
        };
        assert(x + d - 1 == up * d + rest) by (nonlinear_arith)
            requires
                x == d * q + r,
                up == (if r > 0 { q + 1 } else { q as int }),
                rest == (if r > 0 { r - 1 } else { d - 1 }),
                r >= 0,
        ;
        vstd::arithmetic::div_mod::lemma_fundamental_div_mod_converse(
            x + d - 1,
            d as int,
            up,
            rest,
        );
        assert(r > 0 ==> d >= 2);
        assert(up <= usize::MAX) by (nonlinear_arith)
            requires
                x == d * q + r,
                r > 0 ==> d >= 2,
                d >= 1,
                0 <= r < d,
                up == (if r > 0 { q + 1 } else { q as int }),
                x <= usize::MAX,
                0 <= q,
        ;
    }
    if r > 0 {
        q + 1
    } else {
        q
    }
}

/// 32-bit addition modulo 2^32.
pub fn add_wrapping(x: i32, y: i32) -> (r: i32)
    ensures
        r == wrap(x + y),
        (r - (x + y)) % 0x1_0000_0000 == 0,
{
    x.wrapping_add(y)
}

/// The product of two bytes, which always fits.
pub fn mul_widening(x: i8, y: i8) -> (r: i32)
    ensures
        r == x * y,
        -16384 <= r <= 16384,
{
    assert(-16384 <= x * y <= 16384) by (nonlinear_arith)
        requires
            -128 <= x <= 127,
            -128 <= y <= 127,
    ;
    (x as i32) * (y as i32)
}

} // verus!
