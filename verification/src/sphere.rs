//! The sphere primitive: intersection, bounding box, hit record.

use vstd::prelude::*;
use crate::fixed::{tdiv, fmul, fsqrt, fsqrt_up, SCALE, fp_mul, fp_sqrt, fp_sqrt_up,
    lemma_tdiv_scale_le, lemma_tdiv_rem, lemma_cancel_factor};
use crate::vec3::{Vec3, in_range, raw_dot, raw_norm2, normalize_s, normalized, dot,
    lemma_mul_bound, VLIM, SCENE_LIM, PLIM, DLIM};
use crate::ray::{Ray, point_at_s};
use crate::aabb::{Aabb, ray_point_in_box, slab_ok, aabb_wf, TLIM};
use crate::material::{Material, material_wf, sub_s};
use crate::hitable::HitRecord;

verus! {

/// A sphere: its centre, its squared radius, the (rounded up) radius of its
/// bounding box, and the surface it is made of.
#[derive(Clone, Copy, Debug, PartialEq, Eq, Structural)]
pub struct Sphere {
    pub centre: Vec3,
    pub radius_sq: i128,
    pub bbox_r: i128,
    pub material: Material,
}

/// The scene data a sphere must be built from.
pub open spec fn sphere_wf(s: Sphere) -> bool {
    &&& in_range(s.centre, SCENE_LIM as int)
    &&& 0 <= s.radius_sq <= SCENE_LIM
    &&& s.bbox_r == fsqrt_up(s.radius_sq as int)
    &&& 0 <= s.bbox_r <= 0x1000_0001
    &&& material_wf(s.material)
}

/// The box of the sphere: the centre pushed out by the rounded-up radius.
pub open spec fn sphere_bbox_s(s: Sphere) -> Aabb {
    Aabb {
        min: Vec3(
            (s.centre.0 - s.bbox_r) as i128,
            (s.centre.1 - s.bbox_r) as i128,
            (s.centre.2 - s.bbox_r) as i128,
        ),
        max: Vec3(
            (s.centre.0 + s.bbox_r) as i128,
            (s.centre.1 + s.bbox_r) as i128,
            (s.centre.2 + s.bbox_r) as i128,
        ),
    }
}

/// The intersection parameter the sphere reports against a ray, if any: the
/// near root of the half-form quadratic if it clears `t_min`, else the far
/// root; accepted only past `t_min` and only if the reached point really lies
/// in the sphere's bounding box.
pub open spec fn sphere_candidate(s: Sphere, r: Ray, t_min: int) -> Option<int> {
    let co = sub_s(s.centre, r.point);
    let nb = tdiv(raw_dot(co, r.direction), SCALE as int);
    let c = tdiv(raw_norm2(co), SCALE as int) - s.radius_sq;
    let disc = fmul(nb, nb) - c;
    if disc > 0 {
        let d = fsqrt(disc);
        let t = if nb - d < t_min {
            nb + d
        } else {
            nb - d
        };
        if t > t_min && ray_point_in_box(sphere_bbox_s(s), r.point, r.direction, t) {
            Some(t)
        } else {
            None
        }
    } else {
        None
    }
}

/// What `hit_record` reports for parameter `t`: the reached point and the
/// outward unit normal there (a fixed axis if the point is the centre).
pub open spec fn sphere_record_s(s: Sphere, r: Ray, t: int) -> HitRecord {
    let p = point_at_s(r, t);
    let d = sub_s(p, s.centre);
    let normal = if raw_norm2(d) > 0 {
        normalize_s(d)
    } else {
        Vec3(0, 0, SCALE)
    };
    HitRecord { point: p, normal }
}

/// The sphere that `new` builds from centre, radius and surface.
pub open spec fn sphere_new_s(centre: Vec3, radius: int, material: Material) -> Sphere {
    Sphere {
        centre,
        radius_sq: fmul(radius, radius) as i128,
        bbox_r: fsqrt_up(fmul(radius, radius)) as i128,
        material,
    }
}

impl Sphere {
    /// A sphere from centre, radius and surface.
    pub fn new(centre: Vec3, radius: i128, material: Material) -> (r: Sphere)
        requires
            in_range(centre, SCENE_LIM as int),
            0 <= radius <= 0x1000_0000,
            material_wf(material),
        ensures
            r == sphere_new_s(centre, radius as int, material),
            r.radius_sq == fmul(radius as int, radius as int),
            sphere_wf(r),
    {
        proof {
            lemma_mul_bound(radius as int, radius as int, 0x1000_0000, 0x1000_0000);
            vstd::arithmetic::mul::lemma_mul_nonnegative(radius as int, radius as int);
            lemma_tdiv_scale_le(radius as int * radius as int, 0x100_0000_0000);
            crate::fixed::lemma_tdiv_bound(
                radius as int * radius as int,
                SCALE as int,
                0x1000_0000_0000_0000,
            );
        }
        let radius_sq = fp_mul(radius, radius);
        let bbox_r = fp_sqrt_up(radius_sq);
        proof {
            crate::fixed::lemma_sqrt_s(radius_sq as int * SCALE as int);
            let sd = fsqrt(radius_sq as int);
            assert(sd <= 0x1000_0000) by (nonlinear_arith)
                requires
                    sd >= 0,
                    sd * sd <= radius_sq as int * SCALE as int,
                    0 <= radius_sq <= 0x100_0000_0000,
                    SCALE == 65536i128,
            ;
        }
        Sphere { centre, radius_sq, bbox_r, material }
    }

    /// The parameter at which the ray meets this sphere, if it does.
    pub fn candidate(&self, r: &Ray, t_min: i128) -> (res: Option<i128>)
        requires
            sphere_wf(*self),
            in_range(r.point, PLIM as int),
            in_range(r.direction, DLIM as int),
            -TLIM <= t_min <= TLIM,
        ensures
            match sphere_candidate(*self, *r, t_min as int) {
                Some(t) => res == Some(t as i128) && t_min < t
                    && -0x2000_0000_0000_0000 <= t <= 0x2000_0000_0000_0000 && ray_point_in_box(
                    sphere_bbox_s(*self),
                    r.point,
                    r.direction,
                    t,
                ),
                None => res is None,
            },
    {
        let co = self.centre.sub(r.point);
        proof {
            lemma_mul_bound(co.0 as int, r.direction.0 as int, 0x500_0000_0000, 0x1000_0000);
            lemma_mul_bound(co.1 as int, r.direction.1 as int, 0x500_0000_0000, 0x1000_0000);
            lemma_mul_bound(co.2 as int, r.direction.2 as int, 0x500_0000_0000, 0x1000_0000);
            lemma_tdiv_scale_le(raw_dot(co, r.direction), 0xf0_0000_0000_0000);
            lemma_mul_bound(co.0 as int, co.0 as int, 0x500_0000_0000, 0x500_0000_0000);
            lemma_mul_bound(co.1 as int, co.1 as int, 0x500_0000_0000, 0x500_0000_0000);
            lemma_mul_bound(co.2 as int, co.2 as int, 0x500_0000_0000, 0x500_0000_0000);
            lemma_tdiv_scale_le(raw_norm2(co), 0x4b_0000_0000_0000_0000);
        }
        let nb = dot(co, r.direction);
        let c = dot(co, co) - self.radius_sq;
        proof {
            lemma_mul_bound(nb as int, nb as int, 0xf0_0000_0000_0000, 0xf0_0000_0000_0000);
            lemma_tdiv_scale_le(nb as int * nb as int, 0xe1_0000_0000_0000_0000_0000_0000);
        }
        let disc = fp_mul(nb, nb) - c;
        if disc > 0 {
            let d = fp_sqrt(disc);
            proof {
                crate::fixed::lemma_sqrt_s(disc as int * SCALE as int);
                let sd = fsqrt(disc as int);
                assert(sd <= 0x1000_0000_0000_0000) by (nonlinear_arith)
                    requires
                        sd >= 0,
                        sd * sd <= disc as int * SCALE as int,
                        0 < disc <= 0xe2_0000_0000_0000_0000_0000_0000,
                        SCALE == 65536i128,
                ;
            }
            let t0 = nb - d;
            let t = if t0 < t_min {
                nb + d
            } else {
                t0
            };
            if t > t_min && in_sphere_box(self, r, t) {
                Some(t)
            } else {
                None
            }
        } else {
            None
        }
    }

    /// Intersection test against a shrinking window: `t_max` drops on a hit.
    pub fn hit(&self, r: &Ray, t_min: i128, t_max: &mut i128) -> (res: bool)
        requires
            sphere_wf(*self),
            in_range(r.point, PLIM as int),
            in_range(r.direction, DLIM as int),
            -TLIM <= t_min <= TLIM,
            -TLIM <= *old(t_max) <= TLIM,
        ensures
            match sphere_candidate(*self, *r, t_min as int) {
                Some(t) => if t < *old(t_max) {
                    res && *final(t_max) as int == t
                } else {
                    !res && *final(t_max) == *old(t_max)
                },
                None => !res && *final(t_max) == *old(t_max),
            },
    {
        match self.candidate(r, t_min) {
            Some(t) => {
                if t < *t_max {
                    *t_max = t;
                    true
                } else {
                    false
                }
            },
            None => false,
        }
    }

    /// Fill in the hit point and outward normal for parameter `t`.
    pub fn hit_record(&self, r: &Ray, t: i128, hit: &mut HitRecord)
        requires
            sphere_wf(*self),
            in_range(r.point, PLIM as int),
            in_range(r.direction, DLIM as int),
            0 <= t <= 0x1000_0000_0000,
            ray_point_in_box(sphere_bbox_s(*self), r.point, r.direction, t as int),
        ensures
            *final(hit) == sphere_record_s(*self, *r, t as int),
            in_range(final(hit).point, PLIM as int),
            in_range(final(hit).normal, SCALE as int),
    {
        proof {
            lemma_point_in_box_bounds(*self, *r, t as int);
        }
        let p = r.point_at(t);
        let dv = p.sub(self.centre);
        let normal: Vec3 = if dv.0 == 0 && dv.1 == 0 && dv.2 == 0 {
            proof {
                assert(raw_norm2(dv) == 0) by (nonlinear_arith)
                    requires
                        dv.0 == 0 && dv.1 == 0 && dv.2 == 0,
                ;
            }
            Vec3(0, 0, SCALE)
        } else {
            proof {
                assert(raw_norm2(dv) > 0) by (nonlinear_arith)
                    requires
                        !(dv.0 == 0 && dv.1 == 0 && dv.2 == 0),
                ;
            }
            normalized(dv)
        };
        *hit = HitRecord { point: p, normal };
    }

    /// The bounding box: always defined for a sphere.
    pub fn bbox(&self) -> (res: Option<Aabb>)
        requires
            sphere_wf(*self),
        ensures
            res == Some(sphere_bbox_s(*self)),
            aabb_wf(sphere_bbox_s(*self)),
    {
        Some(
            Aabb {
                min: Vec3(
                    self.centre.0 - self.bbox_r,
                    self.centre.1 - self.bbox_r,
                    self.centre.2 - self.bbox_r,
                ),
                max: Vec3(
                    self.centre.0 + self.bbox_r,
                    self.centre.1 + self.bbox_r,
                    self.centre.2 + self.bbox_r,
                ),
            },
        )
    }

    /// The surface the sphere is made of.
    pub fn material(&self) -> (res: &Material)
        ensures
            *res == self.material,
    {
        &self.material
    }
}

/// A parameter that reaches into the sphere's box lands the walk at a point
/// near the scene: the box corners bound each coordinate to within one unit.
pub proof fn lemma_point_in_box_bounds(s: Sphere, r: Ray, t: int)
    requires
        sphere_wf(s),
        in_range(r.point, PLIM as int),
        in_range(r.direction, DLIM as int),
        -TLIM <= t <= TLIM,
        ray_point_in_box(sphere_bbox_s(s), r.point, r.direction, t),
    ensures
        in_range(point_at_s(r, t), 0x200_0000_0000),
{
    let b = sphere_bbox_s(s);
    lemma_slab_point(b.min.0 as int, b.max.0 as int, r.point.0 as int, r.direction.0 as int, t);
    lemma_slab_point(b.min.1 as int, b.max.1 as int, r.point.1 as int, r.direction.1 as int, t);
    lemma_slab_point(b.min.2 as int, b.max.2 as int, r.point.2 as int, r.direction.2 as int, t);
}

/// One axis of the previous lemma: from the multiplied-out slab inequalities
/// to a bound on the computed coordinate.
proof fn lemma_slab_point(mn: int, mx: int, o: int, d: int, t: int)
    requires
        slab_ok(mn, mx, o, d, t, 1),
        -0x102_0000_0000 <= mn,
        mx <= 0x102_0000_0000,
    ensures
        mn - 1 <= o + tdiv(t * d, SCALE as int) <= mx + 1,
{
    lemma_tdiv_rem(t * d, SCALE as int);
    let q = tdiv(t * d, SCALE as int);
    // The slab inequalities say mn * SCALE <= o * SCALE + t * d <= mx * SCALE.
    assert(mn * 1 * SCALE as int == mn * SCALE as int && mx * 1 * SCALE as int == mx * SCALE as int
        && o * 1 * SCALE as int == o * SCALE as int) by (nonlinear_arith);
    assert(((mn - 1) * SCALE as int) < ((o + q) * SCALE as int)) by (nonlinear_arith)
        requires
            mn * SCALE as int <= o * SCALE as int + t * d,
            (t * d - SCALE as int) < (q * SCALE as int),
            SCALE == 65536i128,
    ;
    assert(((o + q) * SCALE as int) < ((mx + 1) * SCALE as int)) by (nonlinear_arith)
        requires
            o * SCALE as int + t * d <= mx * SCALE as int,
            (q * SCALE as int) < (t * d + SCALE as int),
            SCALE == 65536i128,
    ;
    lemma_cancel_factor(mn - 1, o + q, SCALE as int);
    lemma_cancel_factor(o + q, mx + 1, SCALE as int);
}

/// The executable form of the candidate's box guard.
fn in_sphere_box(s: &Sphere, r: &Ray, t: i128) -> (res: bool)
    requires
        sphere_wf(*s),
        in_range(r.point, PLIM as int),
        in_range(r.direction, DLIM as int),
        -0x2000_0000_0000_0000 <= t <= 0x2000_0000_0000_0000,
    ensures
        res == ray_point_in_box(sphere_bbox_s(*s), r.point, r.direction, t as int),
{
    proof {
        lemma_mul_bound(t as int, r.direction.0 as int, 0x2000_0000_0000_0000, 0x1000_0000);
        lemma_mul_bound(t as int, r.direction.1 as int, 0x2000_0000_0000_0000, 0x1000_0000);
        lemma_mul_bound(t as int, r.direction.2 as int, 0x2000_0000_0000_0000, 0x1000_0000);
        let b = sphere_bbox_s(*s);
        assert forall |mn: int, mx: int, o: int, d: int|
            -0x200_0000_0000 <= mn <= 0x200_0000_0000 && -0x200_0000_0000 <= mx
                <= 0x200_0000_0000 && -0x400_0000_0000 <= o <= 0x400_0000_0000 implies (#[trigger]
        slab_ok(mn, mx, o, d, t as int, 1) == (mn * SCALE as int <= o * SCALE as int + t * d && o
            * SCALE as int + t * d <= mx * SCALE as int)) by {
            assert(mn * 1 * SCALE as int == mn * SCALE as int && mx * 1 * SCALE as int == mx
                * SCALE as int && o * 1 * SCALE as int == o * SCALE as int) by (nonlinear_arith);
        }
    }
    let bmin0 = s.centre.0 - s.bbox_r;
    let bmin1 = s.centre.1 - s.bbox_r;
    let bmin2 = s.centre.2 - s.bbox_r;
    let bmax0 = s.centre.0 + s.bbox_r;
    let bmax1 = s.centre.1 + s.bbox_r;
    let bmax2 = s.centre.2 + s.bbox_r;
    let w0: i128 = r.point.0 * SCALE + t * r.direction.0;
    let w1: i128 = r.point.1 * SCALE + t * r.direction.1;
    let w2: i128 = r.point.2 * SCALE + t * r.direction.2;
    bmin0 * SCALE <= w0 && w0 <= bmax0 * SCALE && bmin1 * SCALE <= w1 && w1 <= bmax1 * SCALE
        && bmin2 * SCALE <= w2 && w2 <= bmax2 * SCALE
}

/// A ray cast from the centre of a sphere hits it at the fixed-point radius:
/// the reported parameter is the root of the stored squared radius, one ulp
/// below the exact radius at worst.
pub proof fn lemma_hit_from_centre(s: Sphere, r: Ray, t_min: int, rad: int)
    requires
        sphere_wf(s),
        r.point == s.centre,
        raw_norm2(r.direction) == 0x1_0000_0000,
        in_range(r.direction, SCALE as int),
        s.radius_sq > 0,
        s.radius_sq == fmul(rad, rad),
        0 <= rad,
        0 < t_min < fsqrt(s.radius_sq as int),
    ensures
        sphere_candidate(s, r, t_min) == Some(fsqrt(s.radius_sq as int)),
        fsqrt(s.radius_sq as int) <= rad,
        rad >= 32769 ==> fsqrt(s.radius_sq as int) >= rad - 1,
{
    let co = sub_s(s.centre, r.point);
    assert(co == Vec3(0, 0, 0));
    assert(raw_dot(co, r.direction) == 0) by (nonlinear_arith)
        requires
            co.0 == 0 && co.1 == 0 && co.2 == 0,
    ;
    assert(raw_norm2(co) == 0) by (nonlinear_arith)
        requires
            co.0 == 0 && co.1 == 0 && co.2 == 0,
    ;
    crate::fixed::lemma_tdiv_bound(0, SCALE as int, 0);
    let nb = tdiv(raw_dot(co, r.direction), SCALE as int);
    assert(nb == 0);
    let c = tdiv(raw_norm2(co), SCALE as int) - s.radius_sq;
    assert(c == -(s.radius_sq as int));
    assert(fmul(0, 0) == 0);
    let disc = fmul(nb, nb) - c;
    assert(disc == s.radius_sq);
    let d = fsqrt(disc);
    vstd::arithmetic::mul::lemma_mul_nonnegative(s.radius_sq as int, SCALE as int);
    crate::fixed::lemma_sqrt_s(s.radius_sq as int * SCALE as int);
    // The near root lies behind the window, so the far root is reported.
    assert(nb - d < t_min);
    let t = nb + d;
    assert(t == d && t > t_min);
    // The reached point stays in the box: the direction is unit length, so
    // each coordinate moves by at most the rounded-up radius.
    crate::vec3::lemma_norm2_nonneg(r.direction);
    crate::vec3::lemma_component_le_len(r.direction);
    crate::fixed::lemma_sqrt_unique(raw_norm2(r.direction), 65536);
    assert(crate::vec3::len_s(r.direction) == 65536);
    assert(d <= s.bbox_r) by {
        vstd::arithmetic::mul::lemma_mul_nonnegative(s.radius_sq as int, SCALE as int);
        assert(s.bbox_r * s.bbox_r >= s.radius_sq as int * SCALE as int);
        assert(d * d <= s.radius_sq as int * SCALE as int);
        assert(d <= s.bbox_r) by (nonlinear_arith)
            requires
                d >= 0,
                s.bbox_r >= 0,
                d * d <= s.radius_sq as int * SCALE as int,
                s.bbox_r * s.bbox_r >= s.radius_sq as int * SCALE as int,
        ;
    }
    let b = sphere_bbox_s(s);
    assert(slab_ok(b.min.0 as int, b.max.0 as int, r.point.0 as int, r.direction.0 as int, t, 1)
        && slab_ok(b.min.1 as int, b.max.1 as int, r.point.1 as int, r.direction.1 as int, t, 1)
        && slab_ok(b.min.2 as int, b.max.2 as int, r.point.2 as int, r.direction.2 as int, t, 1))
        by (nonlinear_arith)
        requires
            b.min.0 == s.centre.0 - s.bbox_r && b.max.0 == s.centre.0 + s.bbox_r,
            b.min.1 == s.centre.1 - s.bbox_r && b.max.1 == s.centre.1 + s.bbox_r,
            b.min.2 == s.centre.2 - s.bbox_r && b.max.2 == s.centre.2 + s.bbox_r,
            r.point == s.centre,
            -65536 <= r.direction.0 <= 65536,
            -65536 <= r.direction.1 <= 65536,
            -65536 <= r.direction.2 <= 65536,
            0 <= t,
            t <= s.bbox_r,
            SCALE == 65536i128,
            in_range(s.centre, SCENE_LIM as int),
            0 <= s.bbox_r <= 0x1000_0001,
    ;
    assert(sphere_candidate(s, r, t_min) == Some(t));
    // The reported root is the radius, up to the final rounding down.
    let x = fmul(rad, rad);
    vstd::arithmetic::mul::lemma_mul_nonnegative(rad, rad);
    crate::fixed::lemma_tdiv_rem(rad * rad, SCALE as int);
    assert(d <= rad) by {
        assert(x * SCALE as int <= rad * rad) by (nonlinear_arith)
            requires
                x * SCALE as int <= rad * rad + 0,
                ((rad * rad) - SCALE as int) < (x * SCALE as int),
                (x * SCALE as int) <= rad * rad,
        ;
        assert(d * d <= rad * rad);
        assert(d <= rad) by (nonlinear_arith)
            requires
                d >= 0,
                rad >= 0,
                d * d <= rad * rad,
        ;
    }
    if rad >= 32769 {
        assert((rad - 1) * (rad - 1) <= x * SCALE as int) by (nonlinear_arith)
            requires
                ((rad * rad) - SCALE as int) < (x * SCALE as int),
                rad >= 32769,
                SCALE == 65536i128,
        ;
        assert(d >= rad - 1) by {
            assert((x * SCALE as int) < ((d + 1) * (d + 1)));
            assert(d >= rad - 1) by (nonlinear_arith)
                requires
                    d >= 0,
                    rad >= 1,
                    (rad - 1) * (rad - 1) <= x * SCALE as int,
                    (x * SCALE as int) < ((d + 1) * (d + 1)),
            ;
        }
    }
}

/// When a ray from the centre meets the sphere at a parameter whose scaled
/// products divide out evenly, the reported normal is exactly the (unit) ray
/// direction.
pub proof fn lemma_centre_hit_normal(s: Sphere, r: Ray, t: int)
    requires
        r.point == s.centre,
        raw_norm2(r.direction) == 0x1_0000_0000,
        in_range(r.direction, SCALE as int),
        in_range(s.centre, SCENE_LIM as int),
        0 < t <= 0x1000_0000_0000,
        (t * r.direction.0) % (SCALE as int) == 0,
        (t * r.direction.1) % (SCALE as int) == 0,
        (t * r.direction.2) % (SCALE as int) == 0,
    ensures
        sphere_record_s(s, r, t).normal == r.direction,
{
    let sc = SCALE as int;
    let d0 = tdiv(t * r.direction.0, sc);
    let d1 = tdiv(t * r.direction.1, sc);
    let d2 = tdiv(t * r.direction.2, sc);
    crate::fixed::lemma_tdiv_exact(t * r.direction.0, sc);
    crate::fixed::lemma_tdiv_exact(t * r.direction.1, sc);
    crate::fixed::lemma_tdiv_exact(t * r.direction.2, sc);
    lemma_mul_bound(t, r.direction.0 as int, 0x1000_0000_0000, 0x1_0000);
    lemma_mul_bound(t, r.direction.1 as int, 0x1000_0000_0000, 0x1_0000);
    lemma_mul_bound(t, r.direction.2 as int, 0x1000_0000_0000, 0x1_0000);
    crate::fixed::lemma_tdiv_scale_le(t * r.direction.0, 0x1000_0000_0000);
    crate::fixed::lemma_tdiv_scale_le(t * r.direction.1, 0x1000_0000_0000);
    crate::fixed::lemma_tdiv_scale_le(t * r.direction.2, 0x1000_0000_0000);
    let p = point_at_s(r, t);
    assert(p.0 == s.centre.0 + d0 && p.1 == s.centre.1 + d1 && p.2 == s.centre.2 + d2);
    let dv = sub_s(p, s.centre);
    assert(dv.0 == d0 && dv.1 == d1 && dv.2 == d2);
    // The displacement has squared length exactly t squared.
    assert(d0 * d0 * (sc * sc) == (t * t) * (r.direction.0 * r.direction.0)) by (nonlinear_arith)
        requires
            d0 * sc == t * r.direction.0,
    ;
    assert(d1 * d1 * (sc * sc) == (t * t) * (r.direction.1 * r.direction.1)) by (nonlinear_arith)
        requires
            d1 * sc == t * r.direction.1,
    ;
    assert(d2 * d2 * (sc * sc) == (t * t) * (r.direction.2 * r.direction.2)) by (nonlinear_arith)
        requires
            d2 * sc == t * r.direction.2,
    ;
    assert((d0 * d0 + d1 * d1 + d2 * d2) * (sc * sc) == d0 * d0 * (sc * sc) + d1 * d1 * (sc * sc)
        + d2 * d2 * (sc * sc)) by (nonlinear_arith);
    assert((t * t) * (r.direction.0 * r.direction.0 + r.direction.1 * r.direction.1 + r.direction.2
        * r.direction.2) == (t * t) * (r.direction.0 * r.direction.0) + (t * t) * (r.direction.1
        * r.direction.1) + (t * t) * (r.direction.2 * r.direction.2)) by (nonlinear_arith);
    assert((t * t) * 0x1_0000_0000 == (t * t) * (sc * sc)) by (nonlinear_arith)
        requires
            sc == 65536,
    ;
    assert(raw_norm2(dv) * (sc * sc) == (t * t) * (sc * sc));
    assert(sc * sc >= 1) by (nonlinear_arith)
        requires
            sc == 65536,
    ;
    crate::fixed::lemma_cancel_factor(raw_norm2(dv), t * t, sc * sc);
    crate::fixed::lemma_cancel_factor(t * t, raw_norm2(dv), sc * sc);
    assert(raw_norm2(dv) == t * t);
    assert(t * t > 0) by (nonlinear_arith)
        requires
            t > 0,
    ;
    assert((t * t) < ((t + 1) * (t + 1))) by (nonlinear_arith)
        requires
            t >= 0,
    ;
    crate::fixed::lemma_sqrt_unique(t * t, t);
    assert(crate::vec3::len_s(dv) == t);
    // Each normal component divides out to the direction component.
    vstd::arithmetic::div_mod::lemma_mod_multiples_basic(r.direction.0 as int, t);
    vstd::arithmetic::div_mod::lemma_mod_multiples_basic(r.direction.1 as int, t);
    vstd::arithmetic::div_mod::lemma_mod_multiples_basic(r.direction.2 as int, t);
    assert(dv.0 * sc == r.direction.0 * t && dv.1 * sc == r.direction.1 * t && dv.2 * sc
        == r.direction.2 * t) by (nonlinear_arith)
        requires
            d0 * sc == t * r.direction.0,
            d1 * sc == t * r.direction.1,
            d2 * sc == t * r.direction.2,
            dv.0 == d0 && dv.1 == d1 && dv.2 == d2,
    ;
    crate::fixed::lemma_tdiv_exact(dv.0 * sc, t);
    crate::fixed::lemma_tdiv_exact(dv.1 * sc, t);
    crate::fixed::lemma_tdiv_exact(dv.2 * sc, t);
    assert(tdiv(dv.0 * sc, t) == r.direction.0 && tdiv(dv.1 * sc, t) == r.direction.1 && tdiv(
        dv.2 * sc,
        t,
    ) == r.direction.2) by (nonlinear_arith)
        requires
            tdiv(dv.0 * sc, t) * t == dv.0 * sc,
            tdiv(dv.1 * sc, t) * t == dv.1 * sc,
            tdiv(dv.2 * sc, t) * t == dv.2 * sc,
            dv.0 * sc == r.direction.0 * t,
            dv.1 * sc == r.direction.1 * t,
            dv.2 * sc == r.direction.2 * t,
            t >= 1,
    ;
    assert(normalize_s(dv) == r.direction);
}

} // verus!
