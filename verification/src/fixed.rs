//! Fixed-point scalars: a real number `x` is held as the integer `x * SCALE`
//! rounded toward zero, in an `i128` word.

use vstd::prelude::*;

verus! {

/// Number of integer units per real unit: 16 fractional bits.
pub const SCALE: i128 = 65536;

/// Truncating (round toward zero) division, the rounding used throughout.
pub open spec fn tdiv(a: int, b: int) -> int
    recommends
        b >= 1,
{
    if a >= 0 {
        a / b
    } else {
        -((-a) / b)
    }
}

/// Magnitude bound for truncating division: the quotient never grows.
pub proof fn lemma_tdiv_bound(a: int, b: int, m: int)
    requires
        b >= 1,
        -m <= a <= m,
    ensures
        -m <= tdiv(a, b) * b <= m,
        -m <= tdiv(a, b) <= m,
        a >= 0 ==> 0 <= tdiv(a, b) && tdiv(a, b) <= a && tdiv(a, b) * b <= a,
        a < 0 ==> a <= tdiv(a, b) && tdiv(a, b) <= 0 && a <= tdiv(a, b) * b,
{
    if a >= 0 {
        vstd::arithmetic::div_mod::lemma_fundamental_div_mod(a, b);
        vstd::arithmetic::div_mod::lemma_mod_bound(a, b);
        let q = a / b;
        assert(0 <= q && q <= a && 0 <= q * b && q * b <= a) by (nonlinear_arith)
            requires
                b >= 1,
                a >= 0,
                a == b * q + a % b,
                0 <= a % b < b,
        ;
    } else {
        vstd::arithmetic::div_mod::lemma_fundamental_div_mod(-a, b);
        vstd::arithmetic::div_mod::lemma_mod_bound(-a, b);
        let q = (-a) / b;
        assert(0 <= q && q <= -a && 0 <= q * b && q * b <= -a) by (nonlinear_arith)
            requires
                b >= 1,
                -a >= 0,
                -a == b * q + (-a) % b,
                0 <= (-a) % b < b,
        ;
        vstd::arithmetic::mul::lemma_mul_unary_negation(q, b);
    }
}

/// Truncating division by `d` maps `[-m, m]` into `[-(m/d), m/d]`.
pub proof fn lemma_tdiv_le(x: int, m: int, d: int)
    requires
        d >= 1,
        0 <= m,
        -m <= x <= m,
    ensures
        -(m / d) <= tdiv(x, d) <= m / d,
{
    vstd::arithmetic::div_mod::lemma_div_pos_is_pos(m, d);
    if x >= 0 {
        vstd::arithmetic::div_mod::lemma_div_is_ordered(x, m, d);
        vstd::arithmetic::div_mod::lemma_div_pos_is_pos(x, d);
    } else {
        vstd::arithmetic::div_mod::lemma_div_is_ordered(-x, m, d);
        vstd::arithmetic::div_mod::lemma_div_pos_is_pos(-x, d);
    }
}

/// Exact division: when `b` divides `a`, truncating division is exact.
pub proof fn lemma_tdiv_exact(a: int, b: int)
    requires
        b >= 1,
        a % b == 0,
    ensures
        tdiv(a, b) * b == a,
{
    vstd::arithmetic::div_mod::lemma_fundamental_div_mod(a, b);
    assert(b * (a / b) == (a / b) * b) by (nonlinear_arith);
    if a < 0 {
        let q = a / b;
        assert(a == b * q);
        vstd::arithmetic::mul::lemma_mul_unary_negation(q, b);
        assert(-a == (-q) * b + 0);
        vstd::arithmetic::div_mod::lemma_fundamental_div_mod_converse(-a, b, -q, 0);
        assert(tdiv(a, b) == q);
        assert(tdiv(a, b) * b == a) by (nonlinear_arith)
            requires
                tdiv(a, b) == q,
                a == b * q,
        ;
    }
}

/// `SCALE * SCALE`, the divisor of a doubly scaled product.
pub const SCALE_SQ: i128 = 0x1_0000_0000;

/// The named square really is the square of the scale.
pub proof fn lemma_scale_sq()
    ensures
        SCALE_SQ as int == SCALE as int * SCALE as int,
{
    assert(SCALE as int * SCALE as int == 0x1_0000_0000) by (nonlinear_arith)
        requires
            SCALE == 65536i128,
    ;
}

/// Division by `SCALE` maps `[-65536 m, 65536 m]` into `[-m, m]`.
pub proof fn lemma_tdiv_scale_le(x: int, m: int)
    requires
        0 <= m,
        -(m * 65536) <= x <= m * 65536,
    ensures
        -m <= tdiv(x, SCALE as int) <= m,
{
    vstd::arithmetic::mul::lemma_mul_nonnegative(m, 65536);
    lemma_tdiv_le(x, m * 65536, SCALE as int);
    vstd::arithmetic::div_mod::lemma_div_multiples_vanish(m, 65536);
    assert(m * 65536 == 65536 * m) by (nonlinear_arith);
}

/// Division by `SCALE * SCALE` shrinks by the square of the scale.
pub proof fn lemma_tdiv_scale2_le(x: int, m: int)
    requires
        0 <= m,
        -(m * 0x1_0000_0000) <= x <= m * 0x1_0000_0000,
    ensures
        -m <= tdiv(x, SCALE as int * SCALE as int) <= m,
{
    lemma_scale_sq();
    vstd::arithmetic::mul::lemma_mul_nonnegative(m, 0x1_0000_0000);
    lemma_tdiv_le(x, m * 0x1_0000_0000, SCALE as int * SCALE as int);
    vstd::arithmetic::div_mod::lemma_div_multiples_vanish(m, 0x1_0000_0000);
    assert(m * 0x1_0000_0000 == 0x1_0000_0000 * m) by (nonlinear_arith);
}

/// Division by any divisor at least `l` maps `[-m l, m l]` into `[-m, m]`.
pub proof fn lemma_tdiv_den_le(x: int, m: int, l: int, d: int)
    requires
        1 <= l <= d,
        0 <= m,
        -(m * l) <= x <= m * l,
    ensures
        -m <= tdiv(x, d) <= m,
{
    vstd::arithmetic::mul::lemma_mul_nonnegative(m, l);
    lemma_tdiv_le(x, m * l, d);
    vstd::arithmetic::div_mod::lemma_div_is_ordered_by_denominator(m * l, l, d);
    vstd::arithmetic::div_mod::lemma_div_multiples_vanish(m, l);
    assert(m * l == l * m) by (nonlinear_arith);
}

/// A multiple of the divisor stays a multiple under negation.
pub proof fn lemma_neg_divisible(a: int, b: int)
    requires
        b >= 1,
        a % b == 0,
    ensures
        (-a) % b == 0,
{
    vstd::arithmetic::div_mod::lemma_fundamental_div_mod(a, b);
    vstd::arithmetic::mul::lemma_mul_unary_negation(a / b, b);
    assert(b * (a / b) == (a / b) * b) by (nonlinear_arith);
    vstd::arithmetic::div_mod::lemma_fundamental_div_mod_converse(-a, b, -(a / b), 0);
}

/// Truncating division recovers its argument to within one divisor.
pub proof fn lemma_tdiv_rem(x: int, d: int)
    requires
        d >= 1,
    ensures
        x - d < tdiv(x, d) * d <= x || x <= tdiv(x, d) * d < x + d,
        x - d < tdiv(x, d) * d < x + d,
{
    if x >= 0 {
        vstd::arithmetic::div_mod::lemma_fundamental_div_mod(x, d);
        vstd::arithmetic::div_mod::lemma_mod_bound(x, d);
        assert(d * (x / d) == (x / d) * d) by (nonlinear_arith);
    } else {
        vstd::arithmetic::div_mod::lemma_fundamental_div_mod(-x, d);
        vstd::arithmetic::div_mod::lemma_mod_bound(-x, d);
        let q = (-x) / d;
        assert(d * q == q * d) by (nonlinear_arith);
        vstd::arithmetic::mul::lemma_mul_unary_negation(q, d);
    }
}

/// A common factor of at least one cancels from an inequality.
pub proof fn lemma_cancel_factor(a: int, b: int, d: int)
    requires
        d >= 1,
        a * d <= b * d,
    ensures
        a <= b,
{
    assert(a <= b) by (nonlinear_arith)
        requires
            d >= 1,
            a * d <= b * d,
    ;
}

/// Executable truncating division of an `i128` by a positive divisor.
pub fn div_trunc(a: i128, b: i128) -> (r: i128)
    requires
        1 <= b,
        -0x4000_0000_0000_0000_0000_0000_0000_0000 < a,
    ensures
        r == tdiv(a as int, b as int),
{
    proof {
        lemma_tdiv_bound(a as int, b as int, 0x8000_0000_0000_0000_0000_0000_0000_0000);
    }
    if a >= 0 {
        let q: u128 = (a as u128) / (b as u128);
        q as i128
    } else {
        let m: u128 = (-a) as u128;
        let q: u128 = m / (b as u128);
        -(q as i128)
    }
}

/// The product of two fixed-point numbers: `tdiv(a * b, SCALE)`.
pub open spec fn fmul(a: int, b: int) -> int {
    tdiv(a * b, SCALE as int)
}

/// Executable fixed-point multiplication.
pub fn fp_mul(a: i128, b: i128) -> (r: i128)
    requires
        -0x1000_0000_0000_0000_0000_0000_0000_0000 <= a * b
            <= 0x1000_0000_0000_0000_0000_0000_0000_0000,
    ensures
        r == fmul(a as int, b as int),
        -0x1000_0000_0000_0000_0000_0000_0000_0000 <= r
            <= 0x1000_0000_0000_0000_0000_0000_0000_0000,
{
    proof {
        lemma_tdiv_bound(
            a as int * b as int,
            SCALE as int,
            0x1000_0000_0000_0000_0000_0000_0000_0000,
        );
    }
    div_trunc(a * b, SCALE)
}

/// The quotient of two fixed-point numbers: `tdiv(a * SCALE, b)`.
pub open spec fn fdiv(a: int, b: int) -> int {
    tdiv(a * SCALE as int, b)
}

/// Executable fixed-point division by a positive divisor.
pub fn fp_div(a: i128, b: i128) -> (r: i128)
    requires
        1 <= b,
        -0x1_0000_0000_0000_0000_0000_0000 <= a <= 0x1_0000_0000_0000_0000_0000_0000,
    ensures
        r == fdiv(a as int, b as int),
{
    proof {
        assert(
            -0x1_0000_0000_0000_0000_0000_0000_0000 <= (a as int * SCALE as int)
                <= 0x1_0000_0000_0000_0000_0000_0000_0000) by (nonlinear_arith)
            requires
                -0x1_0000_0000_0000_0000_0000_0000 <= a as int <= 0x1_0000_0000_0000_0000_0000_0000,
                SCALE == 65536,
        ;
    }
    div_trunc(a * SCALE, b)
}

/// The integer square root: the largest `r` with `r * r <= x`.
pub open spec fn sqrt_s(x: int) -> int
    decreases x,
{
    if x <= 0 {
        0
    } else {
        let p = sqrt_s(x - 1);
        if (p + 1) * (p + 1) <= x {
            p + 1
        } else {
            p
        }
    }
}

/// `sqrt_s(x)` squares to at most `x`, and is the largest such value.
pub proof fn lemma_sqrt_s(x: int)
    requires
        x >= 0,
    ensures
        0 <= sqrt_s(x),
        sqrt_s(x) * sqrt_s(x) <= x,
        x < (sqrt_s(x) + 1) * (sqrt_s(x) + 1),
    decreases x,
{
    if x > 0 {
        lemma_sqrt_s(x - 1);
        let p = sqrt_s(x - 1);
        if (p + 1) * (p + 1) <= x {
            assert(x < (p + 2) * (p + 2)) by (nonlinear_arith)
                requires
                    x - 1 < (p + 1) * (p + 1),
                    p >= 0,
            ;
        }
    }
}

/// Any `r` bracketed by the square-root inequalities equals `sqrt_s(x)`.
pub proof fn lemma_sqrt_unique(x: int, r: int)
    requires
        x >= 0,
        r >= 0,
        r * r <= x,
        x < (r + 1) * (r + 1),
    ensures
        r == sqrt_s(x),
{
    lemma_sqrt_s(x);
    let s = sqrt_s(x);
    assert(r == s) by (nonlinear_arith)
        requires
            r >= 0,
            s >= 0,
            r * r <= x,
            x < (r + 1) * (r + 1),
            s * s <= x,
            x < (s + 1) * (s + 1),
    ;
}

/// Executable integer square root by binary search.
pub fn isqrt(x: u128) -> (r: u128)
    ensures
        r as int == sqrt_s(x as int),
        r * r <= x,
        x < (r + 1) * (r + 1),
{
    let mut lo: u128 = 0;
    let mut hi: u128 = 0xffff_ffff_ffff_ffff;
    proof {
        assert((hi as int + 1) * (hi as int + 1) > x as int) by (nonlinear_arith)
            requires
                hi == 0xffff_ffff_ffff_ffffu128,
                x <= u128::MAX,
        ;
    }
    while lo < hi
        invariant
            lo <= hi <= 0xffff_ffff_ffff_ffff,
            lo * lo <= x,
            x < (hi + 1) * (hi + 1),
        decreases hi - lo,
    {
        let mid: u128 = lo + (hi - lo + 1) / 2;
        proof {
            assert(lo < mid <= hi);
            assert(mid * mid <= 0xffff_ffff_ffff_ffff * 0xffff_ffff_ffff_ffffu128)
                by (nonlinear_arith)
                requires
                    0 <= mid <= 0xffff_ffff_ffff_ffffu128,
            ;
        }
        if mid * mid <= x {
            lo = mid;
        } else {
            hi = mid - 1;
        }
    }
    proof {
        lemma_sqrt_unique(x as int, lo as int);
    }
    lo
}

/// The fixed-point square root: real `sqrt(x / SCALE)` is `sqrt(x * SCALE) / SCALE`,
/// so the representation of the root is the integer root of `x * SCALE`.
pub open spec fn fsqrt(x: int) -> int {
    sqrt_s(x * SCALE as int)
}

/// Executable fixed-point square root (rounded down).
pub fn fp_sqrt(x: i128) -> (r: i128)
    requires
        0 <= x <= 0x1000_0000_0000_0000_0000_0000_0000,
    ensures
        r == fsqrt(x as int),
        0 <= r <= 0x4000_0000_0000_0000,
        r * r <= x * SCALE,
{
    proof {
        assert(0 <= x as int * SCALE as int <= 0x1000_0000_0000_0000_0000_0000_0000 * 0x10000)
            by (nonlinear_arith)
            requires
                0 <= x as int <= 0x1000_0000_0000_0000_0000_0000_0000,
                SCALE == 65536,
        ;
        lemma_sqrt_s(x as int * SCALE as int);
        let s = sqrt_s(x as int * SCALE as int);
        assert(s <= 0x4000_0000_0000_0000) by (nonlinear_arith)
            requires
                s >= 0,
                s * s <= 0x1000_0000_0000_0000_0000_0000_0000 * 0x10000,
        ;
    }
    let p: u128 = (x as u128) * (SCALE as u128);
    let r: u128 = isqrt(p);
    r as i128
}

/// The fixed-point square root rounded up instead of down.
pub open spec fn fsqrt_up(x: int) -> int {
    if fsqrt(x) * fsqrt(x) == x * SCALE as int {
        fsqrt(x)
    } else {
        fsqrt(x) + 1
    }
}

/// Executable fixed-point square root, rounded up.
pub fn fp_sqrt_up(x: i128) -> (r: i128)
    requires
        0 <= x <= 0x1000_0000_0000_0000_0000_0000_0000,
    ensures
        r == fsqrt_up(x as int),
        0 <= r <= 0x4000_0000_0000_0001,
        x * SCALE <= r * r,
{
    let d = fp_sqrt(x);
    proof {
        assert(0 <= x as int * SCALE as int) by (nonlinear_arith)
            requires
                0 <= x as int,
                SCALE == 65536,
        ;
        lemma_sqrt_s(x as int * SCALE as int);
    }
    if d * d == x * SCALE {
        d
    } else {
        d + 1
    }
}

} // verus!
