//! Scene primitives and the record a successful intersection produces.

use vstd::prelude::*;
use crate::fixed::SCALE;
use crate::vec3::{Vec3, in_range, SCENE_LIM, PLIM, DLIM};
use crate::ray::Ray;
use crate::aabb::{Aabb, ray_point_in_box, aabb_wf, TLIM};
use crate::material::{Material, material_wf};
use crate::sphere::{Sphere, sphere_wf, sphere_bbox_s, sphere_candidate, sphere_record_s,
    sphere_new_s};

verus! {

/// What a successful intersection reports: the struck point and the surface
/// normal there.
#[derive(Clone, Copy, Debug, PartialEq, Eq, Structural)]
pub struct HitRecord {
    pub point: Vec3,
    pub normal: Vec3,
}

/// The closed set of primitives a scene may hold.
#[derive(Clone, Copy, Debug, PartialEq, Eq, Structural)]
pub enum Hitable {
    Sphere { s: Sphere },
}

/// The scene data a primitive must be built from.
pub open spec fn hitable_wf(h: Hitable) -> bool {
    match h {
        Hitable::Sphere { s } => sphere_wf(s),
    }
}

/// The bounding box of a primitive.
pub open spec fn hitable_bbox_s(h: Hitable) -> Aabb {
    match h {
        Hitable::Sphere { s } => sphere_bbox_s(s),
    }
}

/// The intersection parameter a primitive reports, if any.
pub open spec fn hitable_candidate(h: Hitable, r: Ray, t_min: int) -> Option<int> {
    match h {
        Hitable::Sphere { s } => sphere_candidate(s, r, t_min),
    }
}

/// The hit record a primitive fills in for parameter `t`.
pub open spec fn hitable_record_s(h: Hitable, r: Ray, t: int) -> HitRecord {
    match h {
        Hitable::Sphere { s } => sphere_record_s(s, r, t),
    }
}

/// The surface a primitive is made of, at the spec level.
pub open spec fn hitable_material_s(h: Hitable) -> Material {
    match h {
        Hitable::Sphere { s } => s.material,
    }
}

impl Hitable {
    /// The parameter at which the ray meets this primitive, if it does.
    pub fn candidate(&self, r: &Ray, t_min: i128) -> (res: Option<i128>)
        requires
            hitable_wf(*self),
            in_range(r.point, PLIM as int),
            in_range(r.direction, DLIM as int),
            -TLIM <= t_min <= TLIM,
        ensures
            match hitable_candidate(*self, *r, t_min as int) {
                Some(t) => res == Some(t as i128) && t_min < t
                    && -0x2000_0000_0000_0000 <= t <= 0x2000_0000_0000_0000 && ray_point_in_box(
                    hitable_bbox_s(*self),
                    r.point,
                    r.direction,
                    t,
                ),
                None => res is None,
            },
    {
        match self {
            Hitable::Sphere { s } => s.candidate(r, t_min),
        }
    }

    /// Intersection test against a shrinking window: `t_max` drops on a hit.
    pub fn hit(&self, r: &Ray, t_min: i128, t_max: &mut i128) -> (res: bool)
        requires
            hitable_wf(*self),
            in_range(r.point, PLIM as int),
            in_range(r.direction, DLIM as int),
            -TLIM <= t_min <= TLIM,
            -TLIM <= *old(t_max) <= TLIM,
        ensures
            match hitable_candidate(*self, *r, t_min as int) {
                Some(t) => if t < *old(t_max) {
                    res && *final(t_max) as int == t
                } else {
                    !res && *final(t_max) == *old(t_max)
                },
                None => !res && *final(t_max) == *old(t_max),
            },
    {
        match self {
            Hitable::Sphere { s } => s.hit(r, t_min, t_max),
        }
    }

    /// Fill in the hit point and outward normal for parameter `t`.
    pub fn hit_record(&self, r: &Ray, t: i128, hit: &mut HitRecord)
        requires
            hitable_wf(*self),
            in_range(r.point, PLIM as int),
            in_range(r.direction, DLIM as int),
            0 <= t <= 0x1000_0000_0000,
            ray_point_in_box(hitable_bbox_s(*self), r.point, r.direction, t as int),
        ensures
            *final(hit) == hitable_record_s(*self, *r, t as int),
            in_range(final(hit).point, PLIM as int),
            in_range(final(hit).normal, SCALE as int),
    {
        match self {
            Hitable::Sphere { s } => s.hit_record(r, t, hit),
        }
    }

    /// The bounding box of this primitive, always defined.
    pub fn bbox(&self) -> (res: Option<Aabb>)
        requires
            hitable_wf(*self),
        ensures
            res == Some(hitable_bbox_s(*self)),
            aabb_wf(hitable_bbox_s(*self)),
    {
        match self {
            Hitable::Sphere { s } => s.bbox(),
        }
    }

    /// The surface the primitive is made of.
    pub fn material(&self) -> (res: &Material)
        ensures
            *res == hitable_material_s(*self),
    {
        match self {
            Hitable::Sphere { s } => s.material(),
        }
    }
}

/// A sphere primitive, ready to be put in a scene.
pub fn sphere(centre: Vec3, radius: i128, material: Material) -> (r: Hitable)
    requires
        in_range(centre, SCENE_LIM as int),
        0 <= radius <= 0x1000_0000,
        material_wf(material),
    ensures
        r == (Hitable::Sphere { s: sphere_new_s(centre, radius as int, material) }),
        hitable_wf(r),
{
    Hitable::Sphere { s: Sphere::new(centre, radius, material) }
}

} // verus!
