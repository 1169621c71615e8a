//! Saturating fixed-point arithmetic with sixteen fractional bits.

use vstd::arithmetic::div_mod::{
    lemma_div_is_ordered, lemma_div_is_ordered_by_denominator, lemma_div_pos_is_pos,
};
use vstd::prelude::*;

verus! {

/// The raw value of the number one.
pub const ONE: i64 = 65536;

/// Largest magnitude that any stored quantity takes: 2^40 raw, 2^24 units.
pub const LIMIT: i64 = 1099511627776;

/// `v` brought into `[lo, hi]`.
pub open spec fn clamp_spec(v: int, lo: int, hi: int) -> int {
    if v < lo {
        lo
    } else if v > hi {
        hi
    } else {
        v
    }
}

/// `v` brought into `[-LIMIT, LIMIT]`.
pub open spec fn sat(v: int) -> int {
    clamp_spec(v, -(LIMIT as int), LIMIT as int)
}

/// Whether `v` is a magnitude that the library stores.
pub open spec fn in_range(v: int) -> bool {
    -(LIMIT as int) <= v <= LIMIT as int
}

/// Quotient rounded toward zero, for a positive divisor.
pub open spec fn trunc_div(a: int, b: int) -> int {
    if a >= 0 {
        a / b
    } else {
        -((-a) / b)
    }
}

/// Saturating sum.
pub open spec fn add_spec(a: int, b: int) -> int {
    sat(a + b)
}

/// Saturating fixed-point product, rounded toward zero.
pub open spec fn mul_spec(a: int, b: int) -> int {
    sat(trunc_div(a * b, ONE as int))
}

pub fn clamp(v: i64, lo: i64, hi: i64) -> (r: i64)
    requires
        lo <= hi,
    ensures
        r == clamp_spec(v as int, lo as int, hi as int),
        lo <= r <= hi,
{
    if v < lo {
        lo
    } else if v > hi {
        hi
    } else {
        v
    }
}

/// Brings a wide intermediate value back into the stored range.
pub fn saturate(v: i128) -> (r: i64)
    ensures
        r == sat(v as int),
        in_range(r as int),
{
    if v < -(LIMIT as i128) {
        -LIMIT
    } else if v > LIMIT as i128 {
        LIMIT
    } else {
        v as i64
    }
}

/// Quotient of a wide value by a positive divisor, rounded toward zero.
pub fn div_toward_zero(a: i128, b: i128) -> (r: i128)
    requires
        b > 0,
        a > i128::MIN,
    ensures
        r == trunc_div(a as int, b as int),
        a >= 0 ==> 0 <= r <= a,
        a <= 0 ==> a <= r <= 0,
{
    if a >= 0 {
        let q: i128 = a / b;
        proof {
            lemma_div_pos_is_pos(a as int, b as int);
            lemma_div_is_ordered_by_denominator(a as int, 1, b as int);
        }
        q
    } else {
        let m: i128 = -a;
        let q: i128 = m / b;
        proof {
            lemma_div_pos_is_pos(m as int, b as int);
            lemma_div_is_ordered_by_denominator(m as int, 1, b as int);
        }
        -q
    }
}

/// Saturating sum of two stored values.
pub fn fx_add(a: i64, b: i64) -> (r: i64)
    ensures
        r == add_spec(a as int, b as int),
        in_range(r as int),
{
    saturate(a as i128 + b as i128)
}

/// Saturating fixed-point product of two stored values.
pub fn fx_mul(a: i64, b: i64) -> (r: i64)
    ensures
        r == mul_spec(a as int, b as int),
        in_range(r as int),
{
    proof {
        lemma_product_bound(a as int, b as int, 0x8000_0000_0000_0000, 0x8000_0000_0000_0000);
    }
    let p: i128 = (a as i128) * (b as i128);
    saturate(div_toward_zero(p, ONE as i128))
}

/// Saturating fixed-point quotient by a positive divisor, rounded toward zero.
pub open spec fn div_spec(a: int, b: int) -> int {
    sat(trunc_div(sat(a) * ONE, b))
}

/// Saturating fixed-point quotient of two stored values.
pub fn fx_div(a: i64, b: i64) -> (r: i64)
    requires
        b > 0,
    ensures
        r == div_spec(a as int, b as int),
        in_range(r as int),
{
    let a: i64 = saturate(a as i128);
    let wide: i128 = (a as i128) * 65536;
    assert(wide == a * ONE);
    saturate(div_toward_zero(wide, b as i128))
}

/// A product is bounded by the product of bounds on its factors.
pub proof fn lemma_product_bound(a: int, b: int, ma: int, mb: int)
    requires
        -ma <= a <= ma,
        -mb <= b <= mb,
    ensures
        -(ma * mb) <= a * b <= ma * mb,
{
    assert(-(ma * mb) <= a * b <= ma * mb) by (nonlinear_arith)
        requires
            -ma <= a <= ma,
            -mb <= b <= mb,
    ;
}

/// Whether `r` is the integer square root of `v`, rounded down.
pub open spec fn is_sqrt(v: int, r: int) -> bool {
    r >= 0 && r * r <= v < (r + 1) * (r + 1)
}

/// The integer square root of a non-negative `v`, rounded down.
pub open spec fn sqrt_spec(v: int) -> int {
    choose|r: int| is_sqrt(v, r)
}

/// At most one number is the rounded-down square root of `v`.
pub proof fn lemma_sqrt_unique(v: int, r: int, s: int)
    requires
        is_sqrt(v, r),
        is_sqrt(v, s),
    ensures
        r == s,
{
    if r < s {
        assert((r + 1) * (r + 1) <= s * s) by (nonlinear_arith)
            requires
                0 <= r + 1 <= s,
        ;
    }
    if s < r {
        assert((s + 1) * (s + 1) <= r * r) by (nonlinear_arith)
            requires
                0 <= s + 1 <= r,
        ;
    }
}

/// A witness fixes the value of `sqrt_spec`.
pub proof fn lemma_sqrt_is(v: int, r: int)
    requires
        is_sqrt(v, r),
    ensures
        sqrt_spec(v) == r,
{
    lemma_sqrt_unique(v, r, sqrt_spec(v));
}

/// The rounded-down square root never decreases as its argument grows.
pub proof fn lemma_sqrt_monotone(v: int, w: int, r: int, s: int)
    requires
        v <= w,
        is_sqrt(v, r),
        is_sqrt(w, s),
    ensures
        r <= s,
{
    if s < r {
        assert((s + 1) * (s + 1) <= r * r) by (nonlinear_arith)
            requires
                0 <= s + 1 <= r,
        ;
    }
}

/// Integer square root, rounded down.
pub fn isqrt(v: u128) -> (r: u64)
    requires
        v < 0x4000_0000_0000_0000_0000_0000_0000_0000,
    ensures
        is_sqrt(v as int, r as int),
        r as int == sqrt_spec(v as int),
        r < 0x8000_0000_0000_0000,
{
    let mut lo: u64 = 0;
    let mut hi: u64 = 0x8000_0000_0000_0000;
    while hi - lo > 1
        invariant
            lo < hi <= 0x8000_0000_0000_0000,
            lo * lo <= v < hi * hi,
        decreases hi - lo,
    {
        let mid: u64 = lo + (hi - lo) / 2;
        assert(mid * mid < 0x4000_0000_0000_0000_0000_0000_0000_0000) by (nonlinear_arith)
            requires
                0 <= mid < 0x8000_0000_0000_0000,
        ;
        let sq: u128 = (mid as u128) * (mid as u128);
        if sq <= v {
            lo = mid;
        } else {
            hi = mid;
        }
    }
    proof {
        lemma_sqrt_is(v as int, lo as int);
    }
    lo
}

/// Fixed-point square root of a stored value; a negative value counts as zero.
pub open spec fn sqrt_fx_spec(x: int) -> int {
    if x <= 0 {
        0
    } else {
        sqrt_spec(x * ONE)
    }
}

/// Fixed-point square root, rounded down; zero for a negative argument.
pub fn fx_sqrt(x: i64) -> (r: i64)
    ensures
        r == sqrt_fx_spec(x as int),
        0 <= r,
        x <= LIMIT ==> r <= LIMIT,
{
    if x <= 0 {
        return 0;
    }
    let wide: u128 = (x as u128) * 65536;
    assert(wide == x * ONE);
    let root: u64 = isqrt(wide);
    proof {
        let rr = root as int;
        if x <= LIMIT && rr > LIMIT {
            assert(rr * rr > (x as int) * (ONE as int)) by (nonlinear_arith)
                requires
                    rr > LIMIT,
                    0 < x <= LIMIT,
                    LIMIT == 1099511627776,
                    ONE == 65536,
            ;
        }
    }
    root as i64
}

/// Number of binary digits of an exponent that `fx_pow` reads.
pub const POW_STEPS: u32 = 16;

/// The product that `steps` further digits of the exponent `rem` add to `acc`.
///
/// Each step replaces `root` by its square root and doubles `rem`; where the
/// doubled `rem` reaches one, the new root is multiplied into `acc`.
pub open spec fn pow_acc(acc: int, root: int, rem: int, steps: nat) -> int
    decreases steps,
{
    if steps == 0 {
        acc
    } else {
        let r = sqrt_fx_spec(root);
        if 2 * rem >= ONE {
            pow_acc(mul_spec(acc, r), r, 2 * rem - ONE, (steps - 1) as nat)
        } else {
            pow_acc(acc, r, 2 * rem, (steps - 1) as nat)
        }
    }
}

/// `x` raised to the exponent `e`, for `e` between zero and one.
///
/// A base that is not positive gives zero. An exponent of zero or less gives
/// one, an exponent of one or more gives the base itself.
pub open spec fn pow_spec(x: int, e: int) -> int {
    if x <= 0 {
        0
    } else if e <= 0 {
        ONE as int
    } else if e >= ONE {
        sat(x)
    } else {
        pow_acc(ONE as int, x, e, POW_STEPS as nat)
    }
}

/// Fixed-point power with an exponent between zero and one.
pub fn fx_pow(x: i64, e: i64) -> (r: i64)
    ensures
        r == pow_spec(x as int, e as int),
        0 <= r <= LIMIT,
{
    if x <= 0 {
        return 0;
    }
    if e <= 0 {
        return ONE;
    }
    if e >= ONE {
        return saturate(x as i128);
    }
    let mut acc: i64 = ONE;
    let mut root: i64 = x;
    let mut rem: i64 = e;
    let mut done: u32 = 0;
    while done < POW_STEPS
        invariant
            done <= POW_STEPS,
            0 <= rem < ONE,
            0 <= acc <= LIMIT,
            0 <= root,
            pow_acc(acc as int, root as int, rem as int, (POW_STEPS - done) as nat) == pow_acc(
                ONE as int,
                x as int,
                e as int,
                POW_STEPS as nat,
            ),
        decreases POW_STEPS - done,
    {
        let r: i64 = fx_sqrt(root);
        let doubled: i64 = rem + rem;
        if doubled >= ONE {
            let next: i64 = fx_mul(acc, r);
            proof {
                lemma_mul_sign(acc as int, r as int);
            }
            acc = next;
            rem = doubled - ONE;
        } else {
            rem = doubled;
        }
        root = r;
        done = done + 1;
    }
    acc
}

/// The fixed-point product of two non-negative values is non-negative.
pub proof fn lemma_mul_sign(a: int, b: int)
    requires
        a >= 0,
        b >= 0,
    ensures
        mul_spec(a, b) >= 0,
{
    assert(a * b >= 0) by (nonlinear_arith)
        requires
            a >= 0,
            b >= 0,
    ;
    lemma_div_pos_is_pos(a * b, ONE as int);
}

/// Every non-negative number has a rounded-down square root.
pub proof fn lemma_sqrt_exists(v: int)
    requires
        v >= 0,
    ensures
        is_sqrt(v, sqrt_spec(v)),
    decreases v,
{
    if v == 0 {
        assert(is_sqrt(0, 0));
    } else {
        lemma_sqrt_exists(v - 1);
        let r = sqrt_spec(v - 1);
        if (r + 1) * (r + 1) <= v {
            assert((r + 2) * (r + 2) > (r + 1) * (r + 1)) by (nonlinear_arith)
                requires
                    r >= 0,
            ;
            assert(is_sqrt(v, r + 1));
        } else {
            assert(is_sqrt(v, r));
        }
    }
}

/// The fixed-point square root never decreases as its argument grows.
pub proof fn lemma_sqrt_fx_monotone(x: int, y: int)
    requires
        x <= y,
    ensures
        0 <= sqrt_fx_spec(x) <= sqrt_fx_spec(y),
{
    if y > 0 {
        lemma_sqrt_exists(y * ONE);
        if x > 0 {
            lemma_sqrt_exists(x * ONE);
            lemma_sqrt_monotone(x * ONE, y * ONE, sqrt_spec(x * ONE), sqrt_spec(y * ONE));
        }
    }
}

/// Rounding toward zero keeps the order of two dividends.
pub proof fn lemma_trunc_div_monotone(a: int, b: int, d: int)
    requires
        a <= b,
        d > 0,
    ensures
        trunc_div(a, d) <= trunc_div(b, d),
{
    if a >= 0 {
        lemma_div_is_ordered(a, b, d);
    } else if b >= 0 {
        lemma_div_pos_is_pos(-a, d);
        lemma_div_pos_is_pos(b, d);
    } else {
        lemma_div_is_ordered(-b, -a, d);
    }
}

/// The fixed-point product of non-negative values grows with each factor.
pub proof fn lemma_mul_monotone(a: int, b: int, c: int, d: int)
    requires
        0 <= a <= c,
        0 <= b <= d,
    ensures
        0 <= mul_spec(a, b) <= mul_spec(c, d),
{
    assert(a * b <= c * d) by (nonlinear_arith)
        requires
            0 <= a <= c,
            0 <= b <= d,
    ;
    lemma_mul_sign(a, b);
    lemma_trunc_div_monotone(a * b, c * d, ONE as int);
}

/// `pow_acc` grows with its accumulator and with its root.
pub proof fn lemma_pow_acc_monotone(acc: int, root: int, acc2: int, root2: int, rem: int, steps: nat)
    requires
        0 <= acc <= acc2,
        root <= root2,
    ensures
        0 <= pow_acc(acc, root, rem, steps) <= pow_acc(acc2, root2, rem, steps),
    decreases steps,
{
    if steps > 0 {
        let r = sqrt_fx_spec(root);
        let r2 = sqrt_fx_spec(root2);
        lemma_sqrt_fx_monotone(root, root2);
        if 2 * rem >= ONE {
            lemma_mul_monotone(acc, r, acc2, r2);
            lemma_pow_acc_monotone(
                mul_spec(acc, r),
                r,
                mul_spec(acc2, r2),
                r2,
                2 * rem - ONE,
                (steps - 1) as nat,
            );
        } else {
            lemma_pow_acc_monotone(acc, r, acc2, r2, 2 * rem, (steps - 1) as nat);
        }
    }
}

/// For a fixed exponent, the power never decreases as the base grows, and
/// it is never negative.
pub proof fn lemma_pow_monotone(x: int, y: int, e: int)
    requires
        x <= y,
    ensures
        0 <= pow_spec(x, e) <= pow_spec(y, e),
{
    if y > 0 && 0 < e < ONE {
        if x > 0 {
            lemma_pow_acc_monotone(ONE as int, x, ONE as int, y, e, POW_STEPS as nat);
        } else {
            lemma_pow_acc_monotone(ONE as int, y, ONE as int, y, e, POW_STEPS as nat);
        }
    }
}

/// `pow_acc` stays in the stored range if its accumulator starts there.
pub proof fn lemma_pow_acc_bounded(acc: int, root: int, rem: int, steps: nat)
    requires
        0 <= acc <= LIMIT,
    ensures
        0 <= pow_acc(acc, root, rem, steps) <= LIMIT,
    decreases steps,
{
    if steps > 0 {
        let r = sqrt_fx_spec(root);
        lemma_sqrt_fx_monotone(root, root);
        if 2 * rem >= ONE {
            lemma_mul_sign(acc, r);
            lemma_pow_acc_bounded(mul_spec(acc, r), r, 2 * rem - ONE, (steps - 1) as nat);
        } else {
            lemma_pow_acc_bounded(acc, r, 2 * rem, (steps - 1) as nat);
        }
    }
}

/// A power is never negative and never above the stored range.
pub proof fn lemma_pow_bounded(x: int, e: int)
    ensures
        0 <= pow_spec(x, e) <= LIMIT,
{
    if x > 0 && 0 < e < ONE {
        lemma_pow_acc_bounded(ONE as int, x, e, POW_STEPS as nat);
    }
}

} // verus!
