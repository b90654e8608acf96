//! Rays: an origin and a (not necessarily unit) direction.

use vstd::prelude::*;
use crate::fixed::{tdiv, SCALE, div_trunc};
use crate::vec3::{Vec3, in_range, lemma_mul_bound, VLIM};

verus! {

/// A ray `point + t * direction`.
#[derive(Clone, Copy, Debug, PartialEq, Eq, Structural)]
pub struct Ray {
    pub point: Vec3,
    pub direction: Vec3,
}

/// The point the ray reaches at parameter `t`, in fixed point.
pub open spec fn point_at_s(r: Ray, t: int) -> Vec3 {
    Vec3(
        (r.point.0 + tdiv(t * r.direction.0, SCALE as int)) as i128,
        (r.point.1 + tdiv(t * r.direction.1, SCALE as int)) as i128,
        (r.point.2 + tdiv(t * r.direction.2, SCALE as int)) as i128,
    )
}

impl Ray {
    /// Evaluate the ray at parameter `t`.
    pub fn point_at(&self, t: i128) -> (p: Vec3)
        requires
            in_range(self.point, VLIM as int),
            in_range(self.direction, VLIM as int),
            -VLIM <= t <= VLIM,
        ensures
            p == point_at_s(*self, t as int),
    {
        proof {
            lemma_mul_bound(t as int, self.direction.0 as int, VLIM as int, VLIM as int);
            lemma_mul_bound(t as int, self.direction.1 as int, VLIM as int, VLIM as int);
            lemma_mul_bound(t as int, self.direction.2 as int, VLIM as int, VLIM as int);
            crate::fixed::lemma_tdiv_bound(
                t as int * self.direction.0 as int,
                SCALE as int,
                VLIM as int * VLIM as int,
            );
            crate::fixed::lemma_tdiv_bound(
                t as int * self.direction.1 as int,
                SCALE as int,
                VLIM as int * VLIM as int,
            );
            crate::fixed::lemma_tdiv_bound(
                t as int * self.direction.2 as int,
                SCALE as int,
                VLIM as int * VLIM as int,
            );
        }
        Vec3(
            self.point.0 + div_trunc(t * self.direction.0, SCALE),
            self.point.1 + div_trunc(t * self.direction.1, SCALE),
            self.point.2 + div_trunc(t * self.direction.2, SCALE),
        )
    }
}

} // verus!
