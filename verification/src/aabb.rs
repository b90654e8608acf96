//! Axis-aligned bounding boxes and an exact slab test.
//!
//! The slab test works on rationals compared by cross-multiplication, so its
//! answer is exact: the box is reported hit exactly when some rational
//! parameter inside the query window sends the ray into the box.

use vstd::prelude::*;
use crate::fixed::SCALE;
use crate::ray::Ray;
use crate::vec3::{Vec3, in_range, VLIM};

verus! {

/// Magnitude accepted for the ends of a query window.
pub const TLIM: i128 = 0x1000_0000_0000_0000;

/// Magnitude bound for the numerators handled by the slab test.
pub const NLIM: i128 = 0x20_0000_0000_0000_0000;

/// An axis-aligned box, one corner of least and one of greatest coordinates.
#[derive(Clone, Copy, Debug, PartialEq, Eq, Structural)]
pub struct Aabb {
    pub min: Vec3,
    pub max: Vec3,
}

/// The box is ordered and its corners are in the accepted coordinate range.
pub open spec fn aabb_wf(b: Aabb) -> bool {
    &&& b.min.0 <= b.max.0
    &&& b.min.1 <= b.max.1
    &&& b.min.2 <= b.max.2
    &&& in_range(b.min, VLIM as int)
    &&& in_range(b.max, VLIM as int)
}

/// `big` contains `small`.
pub open spec fn box_contains_box(big: Aabb, small: Aabb) -> bool {
    &&& big.min.0 <= small.min.0 && small.max.0 <= big.max.0
    &&& big.min.1 <= small.min.1 && small.max.1 <= big.max.1
    &&& big.min.2 <= small.min.2 && small.max.2 <= big.max.2
}

/// `a/b <= c/d`, with positive denominators, by cross-multiplication.
pub open spec fn rat_le(an: int, ad: int, bn: int, bd: int) -> bool {
    an * bd <= bn * ad
}

/// `ln/ld <= p/q <= hn/hd`.
pub open spec fn rat_between(ln: int, ld: int, hn: int, hd: int, p: int, q: int) -> bool {
    rat_le(ln, ld, p, q) && rat_le(p, q, hn, hd)
}

/// At parameter `p/q`, the ray coordinate along one axis stays in `[mn, mx]`:
/// `mn <= o + (p/q) * d / SCALE <= mx`, multiplied out.
pub open spec fn slab_ok(mn: int, mx: int, o: int, d: int, p: int, q: int) -> bool {
    mn * q * SCALE as int <= o * q * SCALE as int + p * d
        && o * q * SCALE as int + p * d <= mx * q * SCALE as int
}

/// Some rational parameter `p/q` inside `[tmin, tmax]` places the ray in `b`.
pub open spec fn box_meets_ray(b: Aabb, o: Vec3, d: Vec3, tmin: int, tmax: int) -> bool {
    exists |p: int, q: int|
        {
            &&& q >= 1
            &&& tmin * q <= p <= tmax * q
            &&& #[trigger] slab_ok(b.min.0 as int, b.max.0 as int, o.0 as int, d.0 as int, p, q)
            &&& slab_ok(b.min.1 as int, b.max.1 as int, o.1 as int, d.1 as int, p, q)
            &&& slab_ok(b.min.2 as int, b.max.2 as int, o.2 as int, d.2 as int, p, q)
        }
}

/// The integer parameter `t` places the ray inside the box, exactly.
pub open spec fn ray_point_in_box(b: Aabb, o: Vec3, d: Vec3, t: int) -> bool {
    &&& slab_ok(b.min.0 as int, b.max.0 as int, o.0 as int, d.0 as int, t, 1)
    &&& slab_ok(b.min.1 as int, b.max.1 as int, o.1 as int, d.1 as int, t, 1)
    &&& slab_ok(b.min.2 as int, b.max.2 as int, o.2 as int, d.2 as int, t, 1)
}

/// An integer parameter in the window that is inside the box is a witness.
pub proof fn lemma_point_meets(b: Aabb, o: Vec3, d: Vec3, tmin: int, tmax: int, t: int)
    requires
        tmin <= t <= tmax,
        ray_point_in_box(b, o, d, t),
    ensures
        box_meets_ray(b, o, d, tmin, tmax),
{
    assert(1int >= 1 && tmin * 1 <= t <= tmax * 1 && slab_ok(
        b.min.0 as int,
        b.max.0 as int,
        o.0 as int,
        d.0 as int,
        t,
        1,
    ) && slab_ok(b.min.1 as int, b.max.1 as int, o.1 as int, d.1 as int, t, 1) && slab_ok(
        b.min.2 as int,
        b.max.2 as int,
        o.2 as int,
        d.2 as int,
        t,
        1,
    ));
}

/// A larger box is met whenever a smaller one is, on the same window.
pub proof fn lemma_meets_monotone(big: Aabb, small: Aabb, o: Vec3, d: Vec3, tmin: int, tmax: int)
    requires
        box_contains_box(big, small),
        box_meets_ray(small, o, d, tmin, tmax),
    ensures
        box_meets_ray(big, o, d, tmin, tmax),
{
    let (p, q) = choose |p: int, q: int|
        {
            &&& q >= 1
            &&& tmin * q <= p <= tmax * q
            &&& #[trigger] slab_ok(
                small.min.0 as int,
                small.max.0 as int,
                o.0 as int,
                d.0 as int,
                p,
                q,
            )
            &&& slab_ok(small.min.1 as int, small.max.1 as int, o.1 as int, d.1 as int, p, q)
            &&& slab_ok(small.min.2 as int, small.max.2 as int, o.2 as int, d.2 as int, p, q)
        };
    assert(slab_ok(big.min.0 as int, big.max.0 as int, o.0 as int, d.0 as int, p, q)
        && slab_ok(big.min.1 as int, big.max.1 as int, o.1 as int, d.1 as int, p, q)
        && slab_ok(big.min.2 as int, big.max.2 as int, o.2 as int, d.2 as int, p, q))
        by (nonlinear_arith)
        requires
            q >= 1,
            SCALE == 65536i128,
            box_contains_box(big, small),
            slab_ok(small.min.0 as int, small.max.0 as int, o.0 as int, d.0 as int, p, q),
            slab_ok(small.min.1 as int, small.max.1 as int, o.1 as int, d.1 as int, p, q),
            slab_ok(small.min.2 as int, small.max.2 as int, o.2 as int, d.2 as int, p, q),
    ;
}

/// `rat_le` is transitive over positive denominators.
proof fn lemma_rat_le_trans(an: int, ad: int, bn: int, bd: int, cn: int, cd: int)
    requires
        ad >= 1,
        bd >= 1,
        cd >= 1,
        rat_le(an, ad, bn, bd),
        rat_le(bn, bd, cn, cd),
    ensures
        rat_le(an, ad, cn, cd),
{
    assert(an * cd <= cn * ad) by (nonlinear_arith)
        requires
            ad >= 1,
            bd >= 1,
            cd >= 1,
            an * bd <= bn * ad,
            bn * cd <= cn * bd,
    ;
}

/// The running clip interval of the slab walk: a rational lower and upper end.
struct Clip {
    ln: i128,
    ld: i128,
    hn: i128,
    hd: i128,
    live: bool,
}

/// Numerators and denominators the clip state keeps in executable range.
spec fn clip_wf(c: Clip) -> bool {
    &&& -NLIM <= c.ln <= NLIM
    &&& -NLIM <= c.hn <= NLIM
    &&& 1 <= c.ld <= VLIM
    &&& 1 <= c.hd <= VLIM
}

/// Exact comparison of two rationals held as numerator and denominator.
fn le_frac(an: i128, ad: i128, bn: i128, bd: i128) -> (r: bool)
    requires
        -NLIM <= an <= NLIM,
        -NLIM <= bn <= NLIM,
        1 <= ad <= VLIM,
        1 <= bd <= VLIM,
    ensures
        r == rat_le(an as int, ad as int, bn as int, bd as int),
{
    proof {
        crate::vec3::lemma_mul_bound(an as int, bd as int, NLIM as int, VLIM as int);
        crate::vec3::lemma_mul_bound(bn as int, ad as int, NLIM as int, VLIM as int);
    }
    an * bd <= bn * ad
}

/// Pointwise account of one clipping step: with `d != 0`, a parameter lies in
/// the tightened interval exactly when it lies in the old interval and in the
/// axis slab.
proof fn lemma_clip_point(
    mn: int,
    mx: int,
    o: int,
    d: int,
    t0n: int,
    t0d: int,
    t1n: int,
    t1d: int,
    ln: int,
    ld: int,
    hn: int,
    hd: int,
    nln: int,
    nld: int,
    nhn: int,
    nhd: int,
    p: int,
    q: int,
)
    requires
        q >= 1,
        ld >= 1,
        hd >= 1,
        t0d >= 1,
        t1d >= 1,
        d != 0,
        d > 0 ==> t0n == (mn - o) * SCALE && t0d == d && t1n == (mx - o) * SCALE && t1d == d,
        d < 0 ==> t0n == (o - mx) * SCALE && t0d == -d && t1n == (o - mn) * SCALE && t1d == -d,
        if rat_le(ln, ld, t0n, t0d) {
            nln == t0n && nld == t0d
        } else {
            nln == ln && nld == ld
        },
        if rat_le(t1n, t1d, hn, hd) {
            nhn == t1n && nhd == t1d
        } else {
            nhn == hn && nhd == hd
        },
    ensures
        rat_between(nln, nld, nhn, nhd, p, q) <==> (rat_between(ln, ld, hn, hd, p, q) && slab_ok(
            mn,
            mx,
            o,
            d,
            p,
            q,
        )),
{
    assert(slab_ok(mn, mx, o, d, p, q) == (rat_le(t0n, t0d, p, q) && rat_le(p, q, t1n, t1d)))
        by (nonlinear_arith)
        requires
            q >= 1,
            SCALE == 65536i128,
            d != 0,
            d > 0 ==> t0n == (mn - o) * SCALE && t0d == d && t1n == (mx - o) * SCALE && t1d == d,
            d < 0 ==> t0n == (o - mx) * SCALE && t0d == -d && t1n == (o - mn) * SCALE && t1d == -d,
    ;
    // The tightened lower end is the larger of the two lower bounds ...
    if rat_le(ln, ld, t0n, t0d) {
        if rat_le(t0n, t0d, p, q) {
            lemma_rat_le_trans(ln, ld, t0n, t0d, p, q);
        }
    } else {
        if rat_le(ln, ld, p, q) {
            lemma_rat_le_trans(t0n, t0d, ln, ld, p, q);
        }
    }
    // ... and the upper end the smaller of the two upper bounds.
    if rat_le(t1n, t1d, hn, hd) {
        if rat_le(p, q, t1n, t1d) {
            lemma_rat_le_trans(p, q, t1n, t1d, hn, hd);
        }
    } else {
        if rat_le(p, q, hn, hd) {
            lemma_rat_le_trans(p, q, hn, hd, t1n, t1d);
        }
    }
}

/// Narrow the clip interval by the slab of one axis.
///
/// The two quantified clauses say, in the two directions, that a rational
/// parameter lies in the new interval exactly when it lies in the old one and
/// satisfies this axis' slab inequalities.
fn clip_axis(mn: i128, mx: i128, o: i128, d: i128, c: Clip) -> (r: Clip)
    requires
        clip_wf(c),
        -VLIM <= mn <= VLIM,
        -VLIM <= mx <= VLIM,
        -VLIM <= o <= VLIM,
        -VLIM <= d <= VLIM,
    ensures
        clip_wf(r),
        forall |p: int, q: int|
            q >= 1 && r.live && #[trigger] rat_between(
                r.ln as int,
                r.ld as int,
                r.hn as int,
                r.hd as int,
                p,
                q,
            ) ==> c.live && rat_between(c.ln as int, c.ld as int, c.hn as int, c.hd as int, p, q)
                && slab_ok(mn as int, mx as int, o as int, d as int, p, q),
        forall |p: int, q: int|
            q >= 1 && c.live && #[trigger] rat_between(
                c.ln as int,
                c.ld as int,
                c.hn as int,
                c.hd as int,
                p,
                q,
            ) && slab_ok(mn as int, mx as int, o as int, d as int, p, q) ==> r.live
                && rat_between(r.ln as int, r.ld as int, r.hn as int, r.hd as int, p, q),
{
    if !c.live {
        return Clip { ln: c.ln, ld: c.ld, hn: c.hn, hd: c.hd, live: false };
    }
    if d == 0 {
        let inside = mn <= o && o <= mx;
        let r = Clip { ln: c.ln, ld: c.ld, hn: c.hn, hd: c.hd, live: inside };
        assert forall |p: int, q: int| q >= 1 implies (slab_ok(
            mn as int, mx as int, o as int, d as int, p, q,
        ) == inside) by {
            assert(slab_ok(mn as int, mx as int, o as int, 0, p, q) == (mn <= o && o <= mx))
                by (nonlinear_arith)
                requires
                    q >= 1,
                    SCALE == 65536i128,
            ;
        }
        r
    } else {
        // With d != 0 the slab bounds the parameter between two rationals.
        let (t0n, t0d, t1n, t1d): (i128, i128, i128, i128) = if d > 0 {
            ((mn - o) * SCALE, d, (mx - o) * SCALE, d)
        } else {
            ((o - mx) * SCALE, -d, (o - mn) * SCALE, -d)
        };
        let pick_lo = le_frac(c.ln, c.ld, t0n, t0d);
        let (nln, nld): (i128, i128) = if pick_lo {
            (t0n, t0d)
        } else {
            (c.ln, c.ld)
        };
        let pick_hi = le_frac(t1n, t1d, c.hn, c.hd);
        let (nhn, nhd): (i128, i128) = if pick_hi {
            (t1n, t1d)
        } else {
            (c.hn, c.hd)
        };
        let r = Clip { ln: nln, ld: nld, hn: nhn, hd: nhd, live: true };
        assert forall |p: int, q: int|
            q >= 1 && r.live && #[trigger] rat_between(
                r.ln as int,
                r.ld as int,
                r.hn as int,
                r.hd as int,
                p,
                q,
            ) implies c.live && rat_between(c.ln as int, c.ld as int, c.hn as int, c.hd as int, p, q)
                && slab_ok(mn as int, mx as int, o as int, d as int, p, q) by {
            lemma_clip_point(
                mn as int, mx as int, o as int, d as int,
                t0n as int, t0d as int, t1n as int, t1d as int,
                c.ln as int, c.ld as int, c.hn as int, c.hd as int,
                nln as int, nld as int, nhn as int, nhd as int,
                p, q,
            );
        }
        assert forall |p: int, q: int|
            q >= 1 && c.live && #[trigger] rat_between(
                c.ln as int,
                c.ld as int,
                c.hn as int,
                c.hd as int,
                p,
                q,
            ) && slab_ok(mn as int, mx as int, o as int, d as int, p, q) implies r.live
                && rat_between(r.ln as int, r.ld as int, r.hn as int, r.hd as int, p, q) by {
            lemma_clip_point(
                mn as int, mx as int, o as int, d as int,
                t0n as int, t0d as int, t1n as int, t1d as int,
                c.ln as int, c.ld as int, c.hn as int, c.hd as int,
                nln as int, nld as int, nhn as int, nhd as int,
                p, q,
            );
        }
        r
    }
}

impl Aabb {
    /// Exact slab test: true exactly when some rational parameter in
    /// `[t_min, t_max]` places the ray inside the box.
    pub fn hit(&self, r: &Ray, t_min: i128, t_max: i128) -> (res: bool)
        requires
            in_range(self.min, VLIM as int),
            in_range(self.max, VLIM as int),
            in_range(r.point, VLIM as int),
            in_range(r.direction, VLIM as int),
            -TLIM <= t_min <= TLIM,
            -TLIM <= t_max <= TLIM,
        ensures
            res == box_meets_ray(*self, r.point, r.direction, t_min as int, t_max as int),
    {
        let c0 = Clip { ln: t_min, ld: 1, hn: t_max, hd: 1, live: true };
        let c1 = clip_axis(self.min.0, self.max.0, r.point.0, r.direction.0, c0);
        let c2 = clip_axis(self.min.1, self.max.1, r.point.1, r.direction.1, c1);
        let c3 = clip_axis(self.min.2, self.max.2, r.point.2, r.direction.2, c2);
        let res = c3.live && le_frac(c3.ln, c3.ld, c3.hn, c3.hd);
        proof {
            let o = r.point;
            let d = r.direction;
            if res {
                // The final lower end is itself a witness parameter.
                let p = c3.ln as int;
                let q = c3.ld as int;
                assert(rat_between(c3.ln as int, c3.ld as int, c3.hn as int, c3.hd as int, p, q));
                assert(rat_between(c2.ln as int, c2.ld as int, c2.hn as int, c2.hd as int, p, q)
                    && slab_ok(self.min.2 as int, self.max.2 as int, o.2 as int, d.2 as int, p, q));
                assert(rat_between(c1.ln as int, c1.ld as int, c1.hn as int, c1.hd as int, p, q)
                    && slab_ok(self.min.1 as int, self.max.1 as int, o.1 as int, d.1 as int, p, q));
                assert(rat_between(c0.ln as int, c0.ld as int, c0.hn as int, c0.hd as int, p, q)
                    && slab_ok(self.min.0 as int, self.max.0 as int, o.0 as int, d.0 as int, p, q));
                assert(t_min as int * q <= p <= t_max as int * q);
                assert(box_meets_ray(*self, o, d, t_min as int, t_max as int));
            } else {
                if box_meets_ray(*self, o, d, t_min as int, t_max as int) {
                    let (p, q) = choose |p: int, q: int|
                        {
                            &&& q >= 1
                            &&& t_min as int * q <= p <= t_max as int * q
                            &&& #[trigger] slab_ok(
                                self.min.0 as int,
                                self.max.0 as int,
                                o.0 as int,
                                d.0 as int,
                                p,
                                q,
                            )
                            &&& slab_ok(
                                self.min.1 as int,
                                self.max.1 as int,
                                o.1 as int,
                                d.1 as int,
                                p,
                                q,
                            )
                            &&& slab_ok(
                                self.min.2 as int,
                                self.max.2 as int,
                                o.2 as int,
                                d.2 as int,
                                p,
                                q,
                            )
                        };
                    assert(rat_between(c0.ln as int, c0.ld as int, c0.hn as int, c0.hd as int, p, q));
                    assert(c1.live && rat_between(
                        c1.ln as int, c1.ld as int, c1.hn as int, c1.hd as int, p, q,
                    ));
                    assert(c2.live && rat_between(
                        c2.ln as int, c2.ld as int, c2.hn as int, c2.hd as int, p, q,
                    ));
                    assert(c3.live && rat_between(
                        c3.ln as int, c3.ld as int, c3.hn as int, c3.hd as int, p, q,
                    ));
                    lemma_rat_le_trans(
                        c3.ln as int, c3.ld as int, p, q, c3.hn as int, c3.hd as int,
                    );
                    assert(false);
                }
            }
        }
        res
    }
}

/// The smallest box containing two boxes: componentwise least and greatest
/// corners.  The result contains both inputs, and any box containing both
/// inputs contains it — it is the tightest surrounding box.
pub fn surrounding_box(box0: &Aabb, box1: &Aabb) -> (r: Aabb)
    ensures
        r.min.0 == if box0.min.0 <= box1.min.0 { box0.min.0 } else { box1.min.0 },
        r.min.1 == if box0.min.1 <= box1.min.1 { box0.min.1 } else { box1.min.1 },
        r.min.2 == if box0.min.2 <= box1.min.2 { box0.min.2 } else { box1.min.2 },
        r.max.0 == if box0.max.0 >= box1.max.0 { box0.max.0 } else { box1.max.0 },
        r.max.1 == if box0.max.1 >= box1.max.1 { box0.max.1 } else { box1.max.1 },
        r.max.2 == if box0.max.2 >= box1.max.2 { box0.max.2 } else { box1.max.2 },
        box_contains_box(r, *box0),
        box_contains_box(r, *box1),
        forall |c: Aabb|
            box_contains_box(c, *box0) && box_contains_box(c, *box1)
                ==> #[trigger] box_contains_box(c, r),
        aabb_wf(*box0) && aabb_wf(*box1) ==> aabb_wf(r),
{
    let min = Vec3(
        if box0.min.0 <= box1.min.0 { box0.min.0 } else { box1.min.0 },
        if box0.min.1 <= box1.min.1 { box0.min.1 } else { box1.min.1 },
        if box0.min.2 <= box1.min.2 { box0.min.2 } else { box1.min.2 },
    );
    let max = Vec3(
        if box0.max.0 >= box1.max.0 { box0.max.0 } else { box1.max.0 },
        if box0.max.1 >= box1.max.1 { box0.max.1 } else { box1.max.1 },
        if box0.max.2 >= box1.max.2 { box0.max.2 } else { box1.max.2 },
    );
    Aabb { min, max }
}

} // verus!
