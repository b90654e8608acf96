//! Three-component fixed-point vectors.

use vstd::prelude::*;
use crate::fixed::{tdiv, fmul, sqrt_s, SCALE, fp_mul, div_trunc, isqrt, lemma_tdiv_bound,
    lemma_sqrt_s};

verus! {

/// Component magnitude accepted by the vector routines.
pub const VLIM: i128 = 0x10_0000_0000_0000;

/// Component magnitude accepted for scene data: sphere centres and radii.
pub const SCENE_LIM: i128 = 0x100_0000_0000;

/// Component magnitude of ray origins and hit points during a walk.
pub const PLIM: i128 = 0x400_0000_0000;

/// Component magnitude of ray directions during a walk.
pub const DLIM: i128 = 0x1000_0000;

/// A vector of three fixed-point scalars.
#[derive(Clone, Copy, Debug, PartialEq, Eq, Structural)]
pub struct Vec3(pub i128, pub i128, pub i128);

/// Every component of `v` lies in `[-m, m]`.
pub open spec fn in_range(v: Vec3, m: int) -> bool {
    &&& -m <= v.0 <= m
    &&& -m <= v.1 <= m
    &&& -m <= v.2 <= m
}

/// A product of two bounded factors is bounded by the product of the bounds.
pub proof fn lemma_mul_bound(a: int, b: int, ma: int, mb: int)
    requires
        -ma <= a <= ma,
        -mb <= b <= mb,
        0 <= ma,
        0 <= mb,
    ensures
        -(ma * mb) <= a * b <= ma * mb,
{
    assert(-(ma * mb) <= a * b <= ma * mb) by (nonlinear_arith)
        requires
            -ma <= a <= ma,
            -mb <= b <= mb,
            0 <= ma,
            0 <= mb,
    ;
}

/// The component of `v` along axis `a`.
pub open spec fn axis(v: Vec3, a: int) -> int {
    if a == 0 {
        v.0 as int
    } else if a == 1 {
        v.1 as int
    } else {
        v.2 as int
    }
}

/// The unscaled inner product: `SCALE * SCALE` times the real inner product.
pub open spec fn raw_dot(a: Vec3, b: Vec3) -> int {
    a.0 * b.0 + a.1 * b.1 + a.2 * b.2
}

/// The unscaled squared length of `v`.
pub open spec fn raw_norm2(v: Vec3) -> int {
    raw_dot(v, v)
}

/// A squared length is never negative.
pub proof fn lemma_norm2_nonneg(v: Vec3)
    ensures
        raw_norm2(v) >= 0,
        v.0 * v.0 <= raw_norm2(v),
        v.1 * v.1 <= raw_norm2(v),
        v.2 * v.2 <= raw_norm2(v),
{
    assert(v.0 * v.0 >= 0 && v.1 * v.1 >= 0 && v.2 * v.2 >= 0) by (nonlinear_arith);
}

/// The fixed-point length of `v`: the integer root of the unscaled norm.
pub open spec fn len_s(v: Vec3) -> int {
    sqrt_s(raw_norm2(v))
}

/// `v` scaled by the fixed-point factor `k`, component by component.
pub open spec fn scale_s(k: int, v: Vec3) -> Vec3 {
    Vec3(
        fmul(k, v.0 as int) as i128,
        fmul(k, v.1 as int) as i128,
        fmul(k, v.2 as int) as i128,
    )
}

/// `v` normalised: each component times `SCALE`, divided by the length.
pub open spec fn normalize_s(v: Vec3) -> Vec3 {
    Vec3(
        tdiv(v.0 * SCALE as int, len_s(v)) as i128,
        tdiv(v.1 * SCALE as int, len_s(v)) as i128,
        tdiv(v.2 * SCALE as int, len_s(v)) as i128,
    )
}

impl Vec3 {
    /// The all-zero vector.
    pub fn zero() -> (r: Vec3)
        ensures
            r == (Vec3(0, 0, 0)),
    {
        Vec3(0, 0, 0)
    }

    /// The component along axis `a`.
    pub fn get(&self, a: usize) -> (r: i128)
        requires
            a < 3,
        ensures
            r == axis(*self, a as int),
    {
        if a == 0 {
            self.0
        } else if a == 1 {
            self.1
        } else {
            self.2
        }
    }

    /// Componentwise sum.
    pub fn add(self, o: Vec3) -> (r: Vec3)
        requires
            in_range(self, 16 * VLIM as int),
            in_range(o, 16 * VLIM as int),
        ensures
            r == (Vec3((self.0 + o.0) as i128, (self.1 + o.1) as i128, (self.2 + o.2) as i128)),
    {
        Vec3(self.0 + o.0, self.1 + o.1, self.2 + o.2)
    }

    /// Componentwise difference.
    pub fn sub(self, o: Vec3) -> (r: Vec3)
        requires
            in_range(self, 16 * VLIM as int),
            in_range(o, 16 * VLIM as int),
        ensures
            r == (Vec3((self.0 - o.0) as i128, (self.1 - o.1) as i128, (self.2 - o.2) as i128)),
    {
        Vec3(self.0 - o.0, self.1 - o.1, self.2 - o.2)
    }

    /// Componentwise negation.
    pub fn neg(self) -> (r: Vec3)
        requires
            in_range(self, 16 * VLIM as int),
        ensures
            r == (Vec3((-self.0) as i128, (-self.1) as i128, (-self.2) as i128)),
    {
        Vec3(-self.0, -self.1, -self.2)
    }

    /// The vector scaled by the fixed-point factor `k`.
    pub fn scale(self, k: i128) -> (r: Vec3)
        requires
            in_range(self, VLIM as int),
            -VLIM <= k <= VLIM,
        ensures
            r == scale_s(k as int, self),
            in_range(r, VLIM as int * VLIM as int),
    {
        proof {
            lemma_mul_bound(k as int, self.0 as int, VLIM as int, VLIM as int);
            lemma_mul_bound(k as int, self.1 as int, VLIM as int, VLIM as int);
            lemma_mul_bound(k as int, self.2 as int, VLIM as int, VLIM as int);
            lemma_tdiv_bound(k as int * self.0 as int, SCALE as int, VLIM as int * VLIM as int);
            lemma_tdiv_bound(k as int * self.1 as int, SCALE as int, VLIM as int * VLIM as int);
            lemma_tdiv_bound(k as int * self.2 as int, SCALE as int, VLIM as int * VLIM as int);
        }
        Vec3(fp_mul(k, self.0), fp_mul(k, self.1), fp_mul(k, self.2))
    }

    /// Componentwise (Hadamard) fixed-point product, used for colours.
    pub fn mul(self, o: Vec3) -> (r: Vec3)
        requires
            in_range(self, VLIM as int),
            in_range(o, VLIM as int),
        ensures
            r == (Vec3(
                fmul(self.0 as int, o.0 as int) as i128,
                fmul(self.1 as int, o.1 as int) as i128,
                fmul(self.2 as int, o.2 as int) as i128,
            )),
            in_range(r, VLIM as int * VLIM as int),
    {
        proof {
            lemma_mul_bound(self.0 as int, o.0 as int, VLIM as int, VLIM as int);
            lemma_mul_bound(self.1 as int, o.1 as int, VLIM as int, VLIM as int);
            lemma_mul_bound(self.2 as int, o.2 as int, VLIM as int, VLIM as int);
            lemma_tdiv_bound(self.0 as int * o.0 as int, SCALE as int, VLIM as int * VLIM as int);
            lemma_tdiv_bound(self.1 as int * o.1 as int, SCALE as int, VLIM as int * VLIM as int);
            lemma_tdiv_bound(self.2 as int * o.2 as int, SCALE as int, VLIM as int * VLIM as int);
        }
        Vec3(fp_mul(self.0, o.0), fp_mul(self.1, o.1), fp_mul(self.2, o.2))
    }

    /// The fixed-point squared length, `tdiv(raw_norm2, SCALE)`.
    pub fn squared_len(&self) -> (r: i128)
        requires
            in_range(*self, VLIM as int),
        ensures
            r == tdiv(raw_norm2(*self), SCALE as int),
            0 <= r,
    {
        proof {
            lemma_mul_bound(self.0 as int, self.0 as int, VLIM as int, VLIM as int);
            lemma_mul_bound(self.1 as int, self.1 as int, VLIM as int, VLIM as int);
            lemma_mul_bound(self.2 as int, self.2 as int, VLIM as int, VLIM as int);
            lemma_norm2_nonneg(*self);
            lemma_tdiv_bound(raw_norm2(*self), SCALE as int, 3 * (VLIM as int * VLIM as int));
        }
        div_trunc(self.0 * self.0 + self.1 * self.1 + self.2 * self.2, SCALE)
    }

    /// The fixed-point length: the integer root of the unscaled norm.
    pub fn len(&self) -> (r: i128)
        requires
            in_range(*self, VLIM as int),
        ensures
            r == len_s(*self),
            0 <= r <= 2 * VLIM,
            r * r <= raw_norm2(*self) < (r + 1) * (r + 1),
    {
        proof {
            lemma_mul_bound(self.0 as int, self.0 as int, VLIM as int, VLIM as int);
            lemma_mul_bound(self.1 as int, self.1 as int, VLIM as int, VLIM as int);
            lemma_mul_bound(self.2 as int, self.2 as int, VLIM as int, VLIM as int);
            lemma_norm2_nonneg(*self);
            lemma_sqrt_s(raw_norm2(*self));
            let s = sqrt_s(raw_norm2(*self));
            assert(s <= 2 * VLIM) by (nonlinear_arith)
                requires
                    s >= 0,
                    s * s <= 3 * (VLIM as int * VLIM as int),
                    VLIM == 0x10_0000_0000_0000i128,
            ;
        }
        let n: u128 = ((self.0 * self.0 + self.1 * self.1 + self.2 * self.2) as i128) as u128;
        isqrt(n) as i128
    }

    /// Scale the vector to unit length (all components end in `[-SCALE, SCALE]`).
    pub fn normalize(&mut self)
        requires
            in_range(*old(self), VLIM as int),
            raw_norm2(*old(self)) > 0,
        ensures
            *final(self) == normalize_s(*old(self)),
            in_range(*final(self), SCALE as int),
    {
        let l = self.len();
        proof {
            lemma_norm2_nonneg(*self);
            lemma_component_le_len(*self);
            lemma_mul_bound(self.0 as int, SCALE as int, 2 * VLIM as int, SCALE as int);
            lemma_mul_bound(self.1 as int, SCALE as int, 2 * VLIM as int, SCALE as int);
            lemma_mul_bound(self.2 as int, SCALE as int, 2 * VLIM as int, SCALE as int);
            lemma_unit_component(self.0 as int, l as int);
            lemma_unit_component(self.1 as int, l as int);
            lemma_unit_component(self.2 as int, l as int);
        }
        let x = div_trunc(self.0 * SCALE, l);
        let y = div_trunc(self.1 * SCALE, l);
        let z = div_trunc(self.2 * SCALE, l);
        *self = Vec3(x, y, z);
    }
}

/// Componentwise bound for a scaled vector.
pub proof fn lemma_scale_s_bound(k: int, v: Vec3, mk: int, mv: int, mr: int)
    requires
        -mk <= k <= mk,
        in_range(v, mv),
        0 <= mk,
        0 <= mv,
        0 <= mr,
        mk * mv <= mr * 65536,
    ensures
        in_range(scale_s(k, v), mr),
{
    lemma_mul_bound(k, v.0 as int, mk, mv);
    lemma_mul_bound(k, v.1 as int, mk, mv);
    lemma_mul_bound(k, v.2 as int, mk, mv);
    crate::fixed::lemma_tdiv_scale_le(k * v.0 as int, mr);
    crate::fixed::lemma_tdiv_scale_le(k * v.1 as int, mr);
    crate::fixed::lemma_tdiv_scale_le(k * v.2 as int, mr);
}

/// Each component is at most the length in magnitude.
pub proof fn lemma_component_le_len(v: Vec3)
    requires
        raw_norm2(v) > 0,
    ensures
        len_s(v) >= 1,
        -len_s(v) <= v.0 <= len_s(v),
        -len_s(v) <= v.1 <= len_s(v),
        -len_s(v) <= v.2 <= len_s(v),
{
    lemma_norm2_nonneg(v);
    lemma_sqrt_s(raw_norm2(v));
    let l = len_s(v);
    assert(l >= 1) by (nonlinear_arith)
        requires
            l >= 0,
            raw_norm2(v) < (l + 1) * (l + 1),
            raw_norm2(v) > 0,
    ;
    assert(-l <= v.0 <= l && -l <= v.1 <= l && -l <= v.2 <= l) by (nonlinear_arith)
        requires
            l >= 0,
            v.0 * v.0 <= raw_norm2(v),
            v.1 * v.1 <= raw_norm2(v),
            v.2 * v.2 <= raw_norm2(v),
            raw_norm2(v) < (l + 1) * (l + 1),
    ;
}

/// A component no longer than the length divides out to at most one unit.
pub proof fn lemma_unit_component(x: int, l: int)
    requires
        l >= 1,
        -l <= x <= l,
    ensures
        -SCALE <= tdiv(x * SCALE as int, l) <= SCALE,
{
    lemma_mul_bound(x, SCALE as int, l, SCALE as int);
    lemma_tdiv_bound(x * SCALE as int, l, l * SCALE as int);
    let q = tdiv(x * SCALE as int, l);
    assert(-SCALE <= q <= SCALE) by (nonlinear_arith)
        requires
            l >= 1,
            -(l * SCALE as int) <= q * l <= l * SCALE as int,
            -(l * SCALE as int) <= q <= l * SCALE as int,
            SCALE == 65536i128,
            q * l == tdiv(x * SCALE as int, l) * l,
            q == tdiv(x * SCALE as int, l),
    ;
}


/// Normalising cannot collapse the length: the result of `normalize` is at
/// least half a unit long.
pub proof fn lemma_normalized_len(v: Vec3)
    requires
        raw_norm2(v) > 0,
        in_range(v, VLIM as int),
    ensures
        len_s(normalize_s(v)) >= 32768,
        in_range(normalize_s(v), SCALE as int),
{
    let l = len_s(v);
    let n2 = raw_norm2(v);
    lemma_norm2_nonneg(v);
    lemma_sqrt_s(n2);
    lemma_component_le_len(v);
    lemma_unit_component(v.0 as int, l);
    lemma_unit_component(v.1 as int, l);
    lemma_unit_component(v.2 as int, l);
    let c0 = tdiv(v.0 * SCALE as int, l);
    let c1 = tdiv(v.1 * SCALE as int, l);
    let c2 = tdiv(v.2 * SCALE as int, l);
    crate::fixed::lemma_tdiv_rem(v.0 * SCALE as int, l);
    crate::fixed::lemma_tdiv_rem(v.1 * SCALE as int, l);
    crate::fixed::lemma_tdiv_rem(v.2 * SCALE as int, l);
    assert((c0 * l) * (c0 * l) >= (v.0 * SCALE as int) * (v.0 * SCALE as int) - 2 * (l * l)
        * SCALE as int) by (nonlinear_arith)
        requires
            (v.0 * SCALE as int) - l < c0 * l < (v.0 * SCALE as int) + l,
            -l <= v.0 <= l,
            l >= 1,
            SCALE == 65536i128,
    ;
    assert((c1 * l) * (c1 * l) >= (v.1 * SCALE as int) * (v.1 * SCALE as int) - 2 * (l * l)
        * SCALE as int) by (nonlinear_arith)
        requires
            (v.1 * SCALE as int) - l < c1 * l < (v.1 * SCALE as int) + l,
            -l <= v.1 <= l,
            l >= 1,
            SCALE == 65536i128,
    ;
    assert((c2 * l) * (c2 * l) >= (v.2 * SCALE as int) * (v.2 * SCALE as int) - 2 * (l * l)
        * SCALE as int) by (nonlinear_arith)
        requires
            (v.2 * SCALE as int) - l < c2 * l < (v.2 * SCALE as int) + l,
            -l <= v.2 <= l,
            l >= 1,
            SCALE == 65536i128,
    ;
    let w = normalize_s(v);
    assert(raw_norm2(w) == c0 * c0 + c1 * c1 + c2 * c2);
    assert((c0 * l) * (c0 * l) + (c1 * l) * (c1 * l) + (c2 * l) * (c2 * l) == (c0 * c0 + c1 * c1
        + c2 * c2) * (l * l)) by (nonlinear_arith);
    assert((v.0 * 65536) * (v.0 * 65536) + (v.1 * 65536) * (v.1 * 65536) + (v.2 * 65536) * (v.2
        * 65536) == raw_norm2(v) * (65536 * 65536)) by (nonlinear_arith)
        requires
            raw_norm2(v) == v.0 * v.0 + v.1 * v.1 + v.2 * v.2,
    ;
    assert(raw_norm2(v) * (65536 * 65536) >= (l * l) * (65536 * 65536)) by (nonlinear_arith)
        requires
            l * l <= raw_norm2(v),
    ;
    assert((l * l) * (65536 * 65536) - 6 * ((l * l) * 65536) == (65536 * 65536 - 6 * 65536) * (l
        * l)) by (nonlinear_arith);
    assert(2 * (l * l) * 65536 + 2 * (l * l) * 65536 + 2 * (l * l) * 65536 == 6 * ((l * l)
        * 65536)) by (nonlinear_arith);
    assert(raw_norm2(w) * (l * l) >= (65536 * 65536 - 6 * 65536) * (l * l));
    assert(raw_norm2(w) >= 65536 * 65536 - 6 * 65536) by (nonlinear_arith)
        requires
            raw_norm2(w) * (l * l) >= (65536 * 65536 - 6 * 65536) * (l * l),
            l >= 1,
    ;
    lemma_sqrt_s(raw_norm2(w));
    let lw = sqrt_s(raw_norm2(w));
    assert(lw >= 32768) by (nonlinear_arith)
        requires
            lw >= 0,
            raw_norm2(w) < (lw + 1) * (lw + 1),
            raw_norm2(w) >= 65536 * 65536 - 6 * 65536,
    ;
}

/// The fixed-point inner product of two vectors.
pub fn dot(lhs: Vec3, rhs: Vec3) -> (r: i128)
    requires
        in_range(lhs, VLIM as int),
        in_range(rhs, VLIM as int),
    ensures
        r == tdiv(raw_dot(lhs, rhs), SCALE as int),
{
    proof {
        lemma_mul_bound(lhs.0 as int, rhs.0 as int, VLIM as int, VLIM as int);
        lemma_mul_bound(lhs.1 as int, rhs.1 as int, VLIM as int, VLIM as int);
        lemma_mul_bound(lhs.2 as int, rhs.2 as int, VLIM as int, VLIM as int);
        lemma_tdiv_bound(raw_dot(lhs, rhs), SCALE as int, 3 * (VLIM as int * VLIM as int));
    }
    div_trunc(lhs.0 * rhs.0 + lhs.1 * rhs.1 + lhs.2 * rhs.2, SCALE)
}

/// The fixed-point cross product of two vectors.
pub fn cross(lhs: Vec3, rhs: Vec3) -> (r: Vec3)
    requires
        in_range(lhs, VLIM as int),
        in_range(rhs, VLIM as int),
    ensures
        r == (Vec3(
            tdiv(lhs.1 * rhs.2 - lhs.2 * rhs.1, SCALE as int) as i128,
            tdiv(lhs.2 * rhs.0 - lhs.0 * rhs.2, SCALE as int) as i128,
            tdiv(lhs.0 * rhs.1 - lhs.1 * rhs.0, SCALE as int) as i128,
        )),
{
    proof {
        lemma_mul_bound(lhs.0 as int, rhs.1 as int, VLIM as int, VLIM as int);
        lemma_mul_bound(lhs.0 as int, rhs.2 as int, VLIM as int, VLIM as int);
        lemma_mul_bound(lhs.1 as int, rhs.0 as int, VLIM as int, VLIM as int);
        lemma_mul_bound(lhs.1 as int, rhs.2 as int, VLIM as int, VLIM as int);
        lemma_mul_bound(lhs.2 as int, rhs.0 as int, VLIM as int, VLIM as int);
        lemma_mul_bound(lhs.2 as int, rhs.1 as int, VLIM as int, VLIM as int);
        lemma_tdiv_bound(
            lhs.1 as int * rhs.2 as int - lhs.2 as int * rhs.1 as int,
            SCALE as int,
            2 * (VLIM as int * VLIM as int),
        );
        lemma_tdiv_bound(
            lhs.2 as int * rhs.0 as int - lhs.0 as int * rhs.2 as int,
            SCALE as int,
            2 * (VLIM as int * VLIM as int),
        );
        lemma_tdiv_bound(
            lhs.0 as int * rhs.1 as int - lhs.1 as int * rhs.0 as int,
            SCALE as int,
            2 * (VLIM as int * VLIM as int),
        );
    }
    Vec3(
        div_trunc(lhs.1 * rhs.2 - lhs.2 * rhs.1, SCALE),
        div_trunc(lhs.2 * rhs.0 - lhs.0 * rhs.2, SCALE),
        div_trunc(lhs.0 * rhs.1 - lhs.1 * rhs.0, SCALE),
    )
}

/// A unit-length copy of `v`.
pub fn normalized(v: Vec3) -> (r: Vec3)
    requires
        in_range(v, VLIM as int),
        raw_norm2(v) > 0,
    ensures
        r == normalize_s(v),
        in_range(r, SCALE as int),
{
    let mut w = v;
    w.normalize();
    w
}

} // verus!
