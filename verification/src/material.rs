//! The three surface models: diffuse, metallic and refracting glass.
//!
//! Each `scatter` is pinned, draw by draw, to a spec-level mirror over the
//! generator state, so a bounce is a pure function of the surface, the ray,
//! the hit and the seed.

use vstd::prelude::*;
use crate::fixed::{tdiv, fmul, fdiv, fsqrt, SCALE, SCALE_SQ, fp_mul, fp_div, fp_sqrt, div_trunc,
    lemma_tdiv_scale_le, lemma_tdiv_scale2_le, lemma_tdiv_den_le, lemma_scale_sq};
use crate::vec3::{Vec3, in_range, raw_dot, raw_norm2, len_s, scale_s, normalize_s, normalized,
    lemma_mul_bound, lemma_scale_s_bound, dot, VLIM, PLIM};
use crate::ray::Ray;
use crate::rng::{Rng, rng_advance, rng_output};
use crate::hitable::HitRecord;

verus! {

/// Componentwise sum, at the spec level.
pub open spec fn add_s(a: Vec3, b: Vec3) -> Vec3 {
    Vec3((a.0 + b.0) as i128, (a.1 + b.1) as i128, (a.2 + b.2) as i128)
}

/// Componentwise difference, at the spec level.
pub open spec fn sub_s(a: Vec3, b: Vec3) -> Vec3 {
    Vec3((a.0 - b.0) as i128, (a.1 - b.1) as i128, (a.2 - b.2) as i128)
}

/// Componentwise fixed-point product, at the spec level.
pub open spec fn mul_s(a: Vec3, b: Vec3) -> Vec3 {
    Vec3(
        fmul(a.0 as int, b.0 as int) as i128,
        fmul(a.1 as int, b.1 as int) as i128,
        fmul(a.2 as int, b.2 as int) as i128,
    )
}

/// Componentwise negation, at the spec level.
pub open spec fn neg_s(a: Vec3) -> Vec3 {
    Vec3((-a.0) as i128, (-a.1) as i128, (-a.2) as i128)
}

/// A colour: every channel within `[0, 1]`.
pub open spec fn color_wf(c: Vec3) -> bool {
    &&& 0 <= c.0 <= SCALE
    &&& 0 <= c.1 <= SCALE
    &&& 0 <= c.2 <= SCALE
}

/// The mirror of `reflect`: `v - 2 * dot(v, n) * n`, with one rounding.
pub open spec fn reflect_s(v: Vec3, n: Vec3) -> Vec3 {
    Vec3(
        (v.0 - tdiv(2 * raw_dot(v, n) * n.0, SCALE_SQ as int)) as i128,
        (v.1 - tdiv(2 * raw_dot(v, n) * n.1, SCALE_SQ as int)) as i128,
        (v.2 - tdiv(2 * raw_dot(v, n) * n.2, SCALE_SQ as int)) as i128,
    )
}

/// Reflect `v` about the normal `n`.
pub fn reflect(v: Vec3, n: Vec3) -> (r: Vec3)
    requires
        in_range(v, 0x40_0000),
        in_range(n, 0x2_0000),
    ensures
        r == reflect_s(v, n),
        in_range(r, 0x640_0000),
{
    proof {
        lemma_mul_bound(v.0 as int, n.0 as int, 0x40_0000, 0x2_0000);
        lemma_mul_bound(v.1 as int, n.1 as int, 0x40_0000, 0x2_0000);
        lemma_mul_bound(v.2 as int, n.2 as int, 0x40_0000, 0x2_0000);
        lemma_mul_bound(2 * raw_dot(v, n), n.0 as int, 0x300_0000_0000, 0x2_0000);
        lemma_mul_bound(2 * raw_dot(v, n), n.1 as int, 0x300_0000_0000, 0x2_0000);
        lemma_mul_bound(2 * raw_dot(v, n), n.2 as int, 0x300_0000_0000, 0x2_0000);
        lemma_tdiv_scale2_le(2 * raw_dot(v, n) * n.0, 0x600_0000);
        lemma_tdiv_scale2_le(2 * raw_dot(v, n) * n.1, 0x600_0000);
        lemma_tdiv_scale2_le(2 * raw_dot(v, n) * n.2, 0x600_0000);
    }
    let rd: i128 = v.0 * n.0 + v.1 * n.1 + v.2 * n.2;
    Vec3(
        v.0 - div_trunc(2 * rd * n.0, SCALE_SQ),
        v.1 - div_trunc(2 * rd * n.1, SCALE_SQ),
        v.2 - div_trunc(2 * rd * n.2, SCALE_SQ),
    )
}

/// The mirror of `refract`.
#[verifier::opaque]
pub open spec fn refract_s(v: Vec3, n: Vec3, ni_over_nt: int) -> Option<Vec3> {
    let uv = normalize_s(v);
    let dt = tdiv(raw_dot(uv, n), SCALE as int);
    let disc = SCALE as int - fmul(fmul(ni_over_nt, ni_over_nt), SCALE as int - fmul(dt, dt));
    if disc > 0 {
        Some(
            sub_s(
                scale_s(ni_over_nt, sub_s(uv, scale_s(dt, n))),
                scale_s(fsqrt(disc), n),
            ),
        )
    } else {
        None
    }
}

/// Refract `v` through a surface of outward normal `n`; `None` means total
/// internal reflection.
pub fn refract(v: Vec3, n: Vec3, ni_over_nt: i128) -> (r: Option<Vec3>)
    requires
        in_range(v, VLIM as int),
        raw_norm2(v) > 0,
        in_range(n, 0x2_0000),
        1 <= ni_over_nt <= 0x40_0000,
    ensures
        r == refract_s(v, n, ni_over_nt as int),
        r matches Some(w) ==> in_range(w, 0x1000_0000),
{
    proof {
        reveal(refract_s);
    }
    let uv = normalized(v);
    proof {
        lemma_mul_bound(uv.0 as int, n.0 as int, 0x1_0000, 0x2_0000);
        lemma_mul_bound(uv.1 as int, n.1 as int, 0x1_0000, 0x2_0000);
        lemma_mul_bound(uv.2 as int, n.2 as int, 0x1_0000, 0x2_0000);
        lemma_tdiv_scale_le(raw_dot(uv, n), 0x6_0000);
    }
    let dt = dot(uv, n);
    proof {
        lemma_mul_bound(dt as int, dt as int, 0x6_0000, 0x6_0000);
        lemma_tdiv_scale_le(dt as int * dt as int, 0x24_0000);
        lemma_mul_bound(ni_over_nt as int, ni_over_nt as int, 0x40_0000, 0x40_0000);
        lemma_tdiv_scale_le(ni_over_nt as int * ni_over_nt as int, 0x1000_0000);
    }
    let t1 = fp_mul(dt, dt);
    let t2 = SCALE - t1;
    let nn = fp_mul(ni_over_nt, ni_over_nt);
    proof {
        lemma_mul_bound(nn as int, t2 as int, 0x1000_0000, 0x25_0000);
        lemma_tdiv_scale_le(nn as int * t2 as int, 0x2_5000_0000);
    }
    let t3 = fp_mul(nn, t2);
    let disc = SCALE - t3;
    if disc > 0 {
        let d = fp_sqrt(disc);
        proof {
            crate::fixed::lemma_sqrt_s(disc as int * SCALE as int);
            let sd = fsqrt(disc as int);
            assert(sd <= 0x200_0000) by (nonlinear_arith)
                requires
                    sd >= 0,
                    sd * sd <= disc as int * SCALE as int,
                    0 < disc <= 0x2_5001_0000,
                    SCALE == 65536i128,
            ;
            lemma_scale_s_bound(dt as int, n, 0x6_0000, 0x2_0000, 0xc_0000);
            lemma_scale_s_bound(
                ni_over_nt as int,
                sub_s(uv, scale_s(dt as int, n)),
                0x40_0000,
                0xd_0000,
                0x340_0000,
            );
            lemma_scale_s_bound(sd, n, 0x200_0000, 0x2_0000, 0x400_0000);
        }
        let w = uv.sub(n.scale(dt));
        let w2 = w.scale(ni_over_nt);
        let u = n.scale(d);
        Some(w2.sub(u))
    } else {
        None
    }
}

/// The mirror of `schlick`.
#[verifier::opaque]
pub open spec fn schlick_s(cosine: int, ref_idx: int) -> int {
    let r0a = fdiv(SCALE as int - ref_idx, SCALE as int + ref_idx);
    let r0 = fmul(r0a, r0a);
    let x = SCALE as int - cosine;
    let x2 = fmul(x, x);
    let x4 = fmul(x2, x2);
    let x5 = fmul(x4, x);
    r0 + fmul(SCALE as int - r0, x5)
}

/// The base reflectance of a surface of the given refractive index.
pub open spec fn schlick_r0(ref_idx: int) -> int {
    fmul(
        fdiv(SCALE as int - ref_idx, SCALE as int + ref_idx),
        fdiv(SCALE as int - ref_idx, SCALE as int + ref_idx),
    )
}

/// Schlick's reflectance approximation,
/// `r0 + (1 - r0) * (1 - cosine)^5` with `r0 = ((1-n)/(1+n))^2`.
pub fn schlick(cosine: i128, ref_idx: i128) -> (r: i128)
    requires
        -0x1000_0000 <= cosine <= 0x1000_0000,
        1 <= ref_idx <= 0x40_0000,
    ensures
        r == schlick_s(cosine as int, ref_idx as int),
{
    proof {
        reveal(schlick_s);
        lemma_mul_bound(SCALE as int - ref_idx as int, SCALE as int, 0x41_0000, 0x1_0000);
        lemma_tdiv_den_le(
            (SCALE as int - ref_idx as int) * SCALE as int,
            0x41_0000,
            0x1_0000,
            SCALE as int + ref_idx as int,
        );
    }
    let r0a = fp_div(SCALE - ref_idx, SCALE + ref_idx);
    proof {
        lemma_mul_bound(r0a as int, r0a as int, 0x41_0000, 0x41_0000);
        lemma_tdiv_scale_le(r0a as int * r0a as int, 0x1081_0000);
    }
    let r0 = fp_mul(r0a, r0a);
    let x = SCALE - cosine;
    proof {
        lemma_mul_bound(x as int, x as int, 0x1001_0000, 0x1001_0000);
        lemma_tdiv_scale_le(x as int * x as int, 0x100_2001_0000);
    }
    let x2 = fp_mul(x, x);
    proof {
        lemma_mul_bound(x2 as int, x2 as int, 0x100_2001_0000, 0x100_2001_0000);
        lemma_tdiv_scale_le(x2 as int * x2 as int, 0x1_0040_0600_4001_0000);
    }
    let x4 = fp_mul(x2, x2);
    proof {
        lemma_mul_bound(x4 as int, x as int, 0x1_0040_0600_4001_0000, 0x1001_0000);
        lemma_tdiv_scale_le(x4 as int * x as int, 0x1_0050_0a00_a005_0010_0000);
    }
    let x5 = fp_mul(x4, x);
    proof {
        lemma_mul_bound(
            SCALE as int - r0 as int,
            x5 as int,
            0x1082_0000,
            0x1_0050_0a00_a005_0010_0000,
        );
        lemma_tdiv_scale_le(
            (SCALE as int - r0 as int) * x5 as int,
            0x1_0872_9451_e519_28b0_8200_0000,
        );
    }
    r0 + fp_mul(SCALE - r0, x5)
}

/// One symmetric fixed-point draw in `(-1, 1)` from state `s`.
pub open spec fn sym_of(s: u64) -> int {
    rng_output(s) % 131071 - 65535
}

/// The rejection-sampled point in the unit ball that the draw sequence of `s`
/// produces within `fuel` attempts, with the state it leaves behind.
pub open spec fn unit_sample_s(s: u64, fuel: nat) -> (Vec3, u64)
    decreases fuel,
{
    if fuel == 0 {
        (Vec3(0, 0, 0), s)
    } else {
        let x = sym_of(s) as i128;
        let s1 = rng_advance(s);
        let y = sym_of(s1) as i128;
        let s2 = rng_advance(s1);
        let z = sym_of(s2) as i128;
        let s3 = rng_advance(s2);
        let p = Vec3(x, y, z);
        if raw_norm2(p) < SCALE_SQ {
            (p, s3)
        } else {
            unit_sample_s(s3, (fuel - 1) as nat)
        }
    }
}

/// Points in the unit ball are strictly shorter than one unit.
pub proof fn lemma_unit_sample(s: u64, fuel: nat)
    ensures
        raw_norm2(unit_sample_s(s, fuel).0) < SCALE_SQ,
        in_range(unit_sample_s(s, fuel).0, SCALE as int),
    decreases fuel,
{
    if fuel == 0 {
    } else {
        let x = sym_of(s) as i128;
        let s1 = rng_advance(s);
        let y = sym_of(s1) as i128;
        let s2 = rng_advance(s1);
        let z = sym_of(s2) as i128;
        let s3 = rng_advance(s2);
        let p = Vec3(x, y, z);
        if raw_norm2(p) < SCALE_SQ {
            crate::vec3::lemma_norm2_nonneg(p);
            assert(in_range(p, SCALE as int)) by (nonlinear_arith)
                requires
                    p.0 * p.0 <= raw_norm2(p),
                    p.1 * p.1 <= raw_norm2(p),
                    p.2 * p.2 <= raw_norm2(p),
                    raw_norm2(p) < SCALE_SQ,
                    SCALE == 65536i128,
                    SCALE_SQ == 0x1_0000_0000i128,
                    in_range(p, 65536),
            ;
        } else {
            lemma_unit_sample(s3, (fuel - 1) as nat);
        }
    }
}

/// Attempts made before the sampler falls back to the zero vector.
pub const SAMPLE_TRIES: u64 = 64;

/// Draw a point uniformly from the unit ball by rejection; after
/// `SAMPLE_TRIES` rejections the zero vector stands in.
pub fn random_in_unit_sphere(rng: &mut Rng) -> (p: Vec3)
    ensures
        p == unit_sample_s(old(rng)@, SAMPLE_TRIES as nat).0,
        final(rng)@ == unit_sample_s(old(rng)@, SAMPLE_TRIES as nat).1,
        raw_norm2(p) < SCALE_SQ,
        in_range(p, SCALE as int),
{
    proof {
        lemma_unit_sample(old(rng)@, SAMPLE_TRIES as nat);
    }
    let mut tries: u64 = 0;
    while tries < SAMPLE_TRIES
        invariant
            tries <= SAMPLE_TRIES,
            unit_sample_s(old(rng)@, SAMPLE_TRIES as nat) == unit_sample_s(
                rng@,
                (SAMPLE_TRIES - tries) as nat,
            ),
        decreases SAMPLE_TRIES - tries,
    {
        let x = rng.below(131071) as i128 - 65535;
        let y = rng.below(131071) as i128 - 65535;
        let z = rng.below(131071) as i128 - 65535;
        let p = Vec3(x, y, z);
        proof {
            lemma_mul_bound(x as int, x as int, 0x1_0000, 0x1_0000);
            lemma_mul_bound(y as int, y as int, 0x1_0000, 0x1_0000);
            lemma_mul_bound(z as int, z as int, 0x1_0000, 0x1_0000);
        }
        let n2: i128 = x * x + y * y + z * z;
        if n2 < SCALE_SQ {
            return p;
        }
        tries = tries + 1;
    }
    Vec3(0, 0, 0)
}

/// A diffuse surface.
#[derive(Clone, Copy, Debug, PartialEq, Eq, Structural)]
pub struct Lambertian {
    pub albedo: Vec3,
}

impl Lambertian {
    /// A diffuse surface of the given colour.
    pub fn new(albedo: Vec3) -> (r: Lambertian)
        requires
            color_wf(albedo),
        ensures
            r.albedo == albedo,
    {
        Lambertian { albedo }
    }
}

/// A reflecting surface; `fuzz` widens the reflection cone.
#[derive(Clone, Copy, Debug, PartialEq, Eq, Structural)]
pub struct Metal {
    pub albedo: Vec3,
    pub fuzz: i128,
}

impl Metal {
    /// A metallic surface; the fuzz factor is clamped into `[0, 1]`.
    pub fn new(albedo: Vec3, fuzz: i128) -> (r: Metal)
        requires
            color_wf(albedo),
        ensures
            r.albedo == albedo,
            r.fuzz == if fuzz < 0 {
                0i128
            } else if fuzz > SCALE {
                SCALE
            } else {
                fuzz
            },
            0 <= r.fuzz <= SCALE,
    {
        let f: i128 = if fuzz < 0 {
            0
        } else if fuzz > SCALE {
            SCALE
        } else {
            fuzz
        };
        Metal { albedo, fuzz: f }
    }
}

/// A clear refracting surface.
#[derive(Clone, Copy, Debug, PartialEq, Eq, Structural)]
pub struct Dielectric {
    pub ref_idx: i128,
}

impl Dielectric {
    /// A refracting surface of the given index, at least one.
    pub fn new(ref_idx: i128) -> (r: Dielectric)
        requires
            SCALE <= ref_idx <= 8 * SCALE,
        ensures
            r.ref_idx == ref_idx,
    {
        Dielectric { ref_idx }
    }
}

/// The closed set of surface models.
#[derive(Clone, Copy, Debug, PartialEq, Eq, Structural)]
pub enum Material {
    Lambertian(Lambertian),
    Metal(Metal),
    Dielectric(Dielectric),
}

/// Parameters every material is built with.
pub open spec fn material_wf(m: Material) -> bool {
    match m {
        Material::Lambertian(l) => color_wf(l.albedo),
        Material::Metal(mt) => color_wf(mt.albedo) && 0 <= mt.fuzz <= SCALE,
        Material::Dielectric(d) => SCALE <= d.ref_idx <= 8 * SCALE,
    }
}

/// The mirror of a diffuse bounce: the new direction is the normal plus a
/// point of the unit ball; the surface always scatters.
#[verifier::opaque]
pub open spec fn lambertian_scatter_s(albedo: Vec3, s: u64, hit: HitRecord) -> (Option<
    (Vec3, Ray),
>, u64) {
    let (smp, s1) = unit_sample_s(s, SAMPLE_TRIES as nat);
    (
        Some(
            (albedo, Ray { point: hit.point, direction: add_s(hit.normal, smp) }),
        ),
        s1,
    )
}

/// The mirror of a metallic bounce: reflect the unit incoming direction, widen
/// by the fuzz ball, absorb if the result leaves the surface inward.
#[verifier::opaque]
pub open spec fn metal_scatter_s(albedo: Vec3, fuzz: i128, s: u64, r_in: Ray, hit: HitRecord) -> (
    Option<(Vec3, Ray)>,
    u64,
) {
    let (smp, s1) = unit_sample_s(s, SAMPLE_TRIES as nat);
    let reflected = reflect_s(normalize_s(r_in.direction), hit.normal);
    let dir = add_s(reflected, scale_s(fuzz as int, smp));
    if tdiv(raw_dot(dir, hit.normal), SCALE as int) > 0 {
        (Some((albedo, Ray { point: hit.point, direction: dir })), s1)
    } else {
        (None, s1)
    }
}

/// The mirror of a glass bounce: pick the side being crossed, try to refract,
/// and choose between reflection and refraction by the Schlick coin.
#[verifier::opaque]
pub open spec fn dielectric_scatter_s(ref_idx: i128, s: u64, r_in: Ray, hit: HitRecord) -> (
    Option<(Vec3, Ray)>,
    u64,
) {
    let dnf = tdiv(raw_dot(r_in.direction, hit.normal), SCALE as int);
    let l = len_s(r_in.direction);
    let outward = if dnf > 0 {
        neg_s(hit.normal)
    } else {
        hit.normal
    };
    let ni = if dnf > 0 {
        ref_idx as int
    } else {
        tdiv(SCALE as int * SCALE as int, ref_idx as int)
    };
    let cosine = if dnf > 0 {
        tdiv(fmul(ref_idx as int, dnf) * SCALE as int, l)
    } else {
        tdiv((-dnf) * SCALE as int, l)
    };
    let refr = refract_s(r_in.direction, outward, ni);
    let prob = if refr is Some {
        schlick_s(cosine, ref_idx as int)
    } else {
        SCALE as int
    };
    let refracted = match refr {
        Some(w) => w,
        None => Vec3(0, 0, 0),
    };
    let coin = rng_output(s) % 65536;
    let s1 = rng_advance(s);
    let dir = if coin < prob {
        reflect_s(r_in.direction, hit.normal)
    } else {
        refracted
    };
    (
        Some(
            (Vec3(SCALE, SCALE, SCALE), Ray { point: hit.point, direction: dir }),
        ),
        s1,
    )
}

/// The mirror of `Material::scatter`.
pub open spec fn scatter_s(m: Material, s: u64, r_in: Ray, hit: HitRecord) -> (Option<
    (Vec3, Ray),
>, u64) {
    match m {
        Material::Lambertian(l) => lambertian_scatter_s(l.albedo, s, hit),
        Material::Metal(mt) => metal_scatter_s(mt.albedo, mt.fuzz, s, r_in, hit),
        Material::Dielectric(d) => dielectric_scatter_s(d.ref_idx, s, r_in, hit),
    }
}

/// Arguments under which a bounce is computed: the hit data and, for the
/// models that read it, a usable incoming direction.
pub open spec fn scatter_pre(m: Material, r_in: Ray, hit: HitRecord) -> bool {
    &&& material_wf(m)
    &&& in_range(hit.point, PLIM as int)
    &&& in_range(hit.normal, 0x2_0000)
    &&& in_range(r_in.point, PLIM as int)
    &&& in_range(r_in.direction, 0x2_0000)
    &&& !(m is Lambertian) ==> len_s(r_in.direction) >= 32768
}

impl Material {
    /// Decide whether and how a ray continues after striking this surface:
    /// the attenuation and the outgoing ray, or absorption.
    ///
    /// A diffuse surface always scatters; so does glass (reflected if it
    /// cannot refract).  A metal absorbs a ray that would leave inward.
    pub fn scatter(&self, rng: &mut Rng, r_in: &Ray, hit: &HitRecord) -> (res: Option<(Vec3, Ray)>)
        requires
            scatter_pre(*self, *r_in, *hit),
        ensures
            res == scatter_s(*self, old(rng)@, *r_in, *hit).0,
            final(rng)@ == scatter_s(*self, old(rng)@, *r_in, *hit).1,
            self is Lambertian ==> res is Some,
            self is Dielectric ==> res is Some,
            res matches Some((att, sc)) ==> color_wf(att) && sc.point == hit.point && in_range(
                sc.direction,
                0x1000_0000,
            ),
    {
        match self {
            Material::Lambertian(l) => {
                proof {
                    reveal(lambertian_scatter_s);
                }
                let smp = random_in_unit_sphere(rng);
                let target = hit.point.add(hit.normal).add(smp);
                let scattered = Ray { point: hit.point, direction: target.sub(hit.point) };
                Some((l.albedo, scattered))
            },
            Material::Metal(mt) => metal_scatter(mt, rng, r_in, hit),
            Material::Dielectric(d) => dielectric_scatter(d, rng, r_in, hit),
        }
    }
}

/// The metallic branch of `Material::scatter`.
fn metal_scatter(mt: &Metal, rng: &mut Rng, r_in: &Ray, hit: &HitRecord) -> (res: Option<
    (Vec3, Ray),
>)
    requires
        scatter_pre(Material::Metal(*mt), *r_in, *hit),
    ensures
        res == metal_scatter_s(mt.albedo, mt.fuzz, old(rng)@, *r_in, *hit).0,
        final(rng)@ == metal_scatter_s(mt.albedo, mt.fuzz, old(rng)@, *r_in, *hit).1,
        res matches Some((att, sc)) ==> color_wf(att) && sc.point == hit.point && in_range(
            sc.direction,
            0x1000_0000,
        ),
{
    proof {
        reveal(metal_scatter_s);
    }
    let smp = random_in_unit_sphere(rng);
    proof {
        lemma_len_pos(r_in.direction);
    }
    let unit_in = normalized(r_in.direction);
    let reflected = reflect(unit_in, hit.normal);
    proof {
        lemma_scale_s_bound(mt.fuzz as int, smp, 0x1_0000, 0x1_0000, 0x1_0000);
    }
    let fuzzed = reflected.add(smp.scale(mt.fuzz));
    let scattered = Ray { point: hit.point, direction: fuzzed };
    if dot(scattered.direction, hit.normal) > 0 {
        Some((mt.albedo, scattered))
    } else {
        None
    }
}

/// A direction of length at least half a unit has positive squared length.
proof fn lemma_len_pos(v: Vec3)
    requires
        len_s(v) >= 32768,
    ensures
        raw_norm2(v) > 0,
{
    crate::vec3::lemma_norm2_nonneg(v);
    crate::fixed::lemma_sqrt_s(raw_norm2(v));
    assert(raw_norm2(v) > 0) by (nonlinear_arith)
        requires
            len_s(v) >= 32768,
            len_s(v) * len_s(v) <= raw_norm2(v),
    ;
}

/// The glass branch of `Material::scatter`.
fn dielectric_scatter(d: &Dielectric, rng: &mut Rng, r_in: &Ray, hit: &HitRecord) -> (res: Option<
    (Vec3, Ray),
>)
    requires
        scatter_pre(Material::Dielectric(*d), *r_in, *hit),
    ensures
        res == dielectric_scatter_s(d.ref_idx, old(rng)@, *r_in, *hit).0,
        final(rng)@ == dielectric_scatter_s(d.ref_idx, old(rng)@, *r_in, *hit).1,
        res is Some,
        res matches Some((att, sc)) ==> color_wf(att) && sc.point == hit.point && in_range(
            sc.direction,
            0x1000_0000,
        ),
{
    proof {
        reveal(dielectric_scatter_s);
        lemma_len_pos(r_in.direction);
        lemma_mul_bound(r_in.direction.0 as int, hit.normal.0 as int, 0x2_0000, 0x2_0000);
        lemma_mul_bound(r_in.direction.1 as int, hit.normal.1 as int, 0x2_0000, 0x2_0000);
        lemma_mul_bound(r_in.direction.2 as int, hit.normal.2 as int, 0x2_0000, 0x2_0000);
        lemma_tdiv_scale_le(raw_dot(r_in.direction, hit.normal), 0xc_0000);
    }
    let attenuation = Vec3(SCALE, SCALE, SCALE);
    let dnf = dot(r_in.direction, hit.normal);
    let l = r_in.direction.len();
    let (outward, ni, cosine): (Vec3, i128, i128) = if dnf > 0 {
        proof {
            lemma_mul_bound(d.ref_idx as int, dnf as int, 0x8_0000, 0xc_0000);
            lemma_tdiv_scale_le(d.ref_idx as int * dnf as int, 0x60_0000);
        }
        let c0 = fp_mul(d.ref_idx, dnf);
        proof {
            lemma_mul_bound(c0 as int, SCALE as int, 0x60_0000, 0x1_0000);
            lemma_tdiv_den_le(c0 as int * SCALE as int, 0xc0_0000, 0x8000, l as int);
        }
        (hit.normal.neg(), d.ref_idx, fp_div(c0, l))
    } else {
        proof {
            lemma_scale_sq();
            lemma_mul_bound(SCALE as int, SCALE as int, 0x1_0000, 0x1_0000);
            lemma_tdiv_den_le(SCALE as int * SCALE as int, 0x1_0000, 0x1_0000, d.ref_idx as int);
            vstd::arithmetic::div_mod::lemma_div_is_ordered_by_denominator(
                0x1_0000_0000,
                d.ref_idx as int,
                0x8_0000,
            );
            lemma_mul_bound((-dnf) as int, SCALE as int, 0xc_0000, 0x1_0000);
            lemma_tdiv_den_le((-dnf) as int * SCALE as int, 0x18_0000, 0x8000, l as int);
        }
        (hit.normal, fp_div(SCALE, d.ref_idx), fp_div(-dnf, l))
    };
    let refr = refract(r_in.direction, outward, ni);
    let (refracted, reflect_prob): (Vec3, i128) = match refr {
        Some(w) => (w, schlick(cosine, d.ref_idx)),
        None => (Vec3(0, 0, 0), SCALE),
    };
    let coin = rng.below(65536);
    let scattered: Ray = if (coin as i128) < reflect_prob {
        let reflected = reflect(r_in.direction, hit.normal);
        Ray { point: hit.point, direction: reflected }
    } else {
        Ray { point: hit.point, direction: refracted }
    };
    Some((attenuation, scattered))
}

/// Reflection about a unit normal undoes itself: where the two roundings are
/// exact (the normal is unit length and the scaled projections divide out
/// evenly), reflecting twice returns the original vector, and one reflection
/// exactly negates the projection on the normal.
pub proof fn lemma_reflect_involutive(v: Vec3, n: Vec3)
    requires
        in_range(v, 0x40_0000),
        in_range(n, 0x2_0000),
        raw_norm2(n) == 0x1_0000_0000,
        (2 * raw_dot(v, n) * n.0) % 0x1_0000_0000 == 0,
        (2 * raw_dot(v, n) * n.1) % 0x1_0000_0000 == 0,
        (2 * raw_dot(v, n) * n.2) % 0x1_0000_0000 == 0,
    ensures
        raw_dot(reflect_s(v, n), n) == -raw_dot(v, n),
        reflect_s(reflect_s(v, n), n) == v,
{
    let q = 0x1_0000_0000int;
    let dd = raw_dot(v, n);
    lemma_mul_bound(v.0 as int, n.0 as int, 0x40_0000, 0x2_0000);
    lemma_mul_bound(v.1 as int, n.1 as int, 0x40_0000, 0x2_0000);
    lemma_mul_bound(v.2 as int, n.2 as int, 0x40_0000, 0x2_0000);
    let e0 = tdiv(2 * dd * n.0, q);
    let e1 = tdiv(2 * dd * n.1, q);
    let e2 = tdiv(2 * dd * n.2, q);
    crate::fixed::lemma_tdiv_exact(2 * dd * n.0, q);
    crate::fixed::lemma_tdiv_exact(2 * dd * n.1, q);
    crate::fixed::lemma_tdiv_exact(2 * dd * n.2, q);
    lemma_mul_bound(2 * dd, n.0 as int, 0x300_0000_0000, 0x2_0000);
    lemma_mul_bound(2 * dd, n.1 as int, 0x300_0000_0000, 0x2_0000);
    lemma_mul_bound(2 * dd, n.2 as int, 0x300_0000_0000, 0x2_0000);
    crate::fixed::lemma_tdiv_scale2_le(2 * dd * n.0, 0x600_0000);
    crate::fixed::lemma_tdiv_scale2_le(2 * dd * n.1, 0x600_0000);
    crate::fixed::lemma_tdiv_scale2_le(2 * dd * n.2, 0x600_0000);
    crate::fixed::lemma_scale_sq();
    let r = reflect_s(v, n);
    assert(r.0 == v.0 - e0 && r.1 == v.1 - e1 && r.2 == v.2 - e2);
    // The reflected projection: dot(r, n) = dot(v, n) - sum e_i n_i, and the
    // weighted sum of the exact corrections is twice the projection.
    assert((e0 * n.0) * q == (2 * dd) * (n.0 * n.0)) by (nonlinear_arith)
        requires
            e0 * q == 2 * dd * n.0,
    ;
    assert((e1 * n.1) * q == (2 * dd) * (n.1 * n.1)) by (nonlinear_arith)
        requires
            e1 * q == 2 * dd * n.1,
    ;
    assert((e2 * n.2) * q == (2 * dd) * (n.2 * n.2)) by (nonlinear_arith)
        requires
            e2 * q == 2 * dd * n.2,
    ;
    assert((e0 * n.0 + e1 * n.1 + e2 * n.2) * q == (2 * dd) * q) by (nonlinear_arith)
        requires
            (e0 * n.0) * q == (2 * dd) * (n.0 * n.0),
            (e1 * n.1) * q == (2 * dd) * (n.1 * n.1),
            (e2 * n.2) * q == (2 * dd) * (n.2 * n.2),
            n.0 * n.0 + n.1 * n.1 + n.2 * n.2 == q,
    ;
    crate::fixed::lemma_cancel_factor(e0 * n.0 + e1 * n.1 + e2 * n.2, 2 * dd, q);
    crate::fixed::lemma_cancel_factor(2 * dd, e0 * n.0 + e1 * n.1 + e2 * n.2, q);
    assert(raw_dot(r, n) == dd - (e0 * n.0 + e1 * n.1 + e2 * n.2)) by (nonlinear_arith)
        requires
            r.0 == v.0 - e0 && r.1 == v.1 - e1 && r.2 == v.2 - e2,
            raw_dot(r, n) == r.0 * n.0 + r.1 * n.1 + r.2 * n.2,
            raw_dot(v, n) == dd,
            dd == v.0 * n.0 + v.1 * n.1 + v.2 * n.2,
    ;
    // Second application: the corrections negate exactly.
    let dd2 = raw_dot(r, n);
    assert(dd2 == -dd);
    crate::fixed::lemma_neg_divisible(2 * dd * n.0, q);
    crate::fixed::lemma_neg_divisible(2 * dd * n.1, q);
    crate::fixed::lemma_neg_divisible(2 * dd * n.2, q);
    assert(2 * dd2 * n.0 == -(2 * dd * n.0) && 2 * dd2 * n.1 == -(2 * dd * n.1) && 2 * dd2 * n.2
        == -(2 * dd * n.2)) by (nonlinear_arith)
        requires
            dd2 == -dd,
    ;
    let f0 = tdiv(2 * dd2 * n.0, q);
    let f1 = tdiv(2 * dd2 * n.1, q);
    let f2 = tdiv(2 * dd2 * n.2, q);
    crate::fixed::lemma_tdiv_exact(2 * dd2 * n.0, q);
    crate::fixed::lemma_tdiv_exact(2 * dd2 * n.1, q);
    crate::fixed::lemma_tdiv_exact(2 * dd2 * n.2, q);
    assert(f0 == -e0 && f1 == -e1 && f2 == -e2) by (nonlinear_arith)
        requires
            f0 * q == 2 * dd2 * n.0,
            f1 * q == 2 * dd2 * n.1,
            f2 * q == 2 * dd2 * n.2,
            e0 * q == 2 * dd * n.0,
            e1 * q == 2 * dd * n.1,
            e2 * q == 2 * dd * n.2,
            2 * dd2 * n.0 == -(2 * dd * n.0),
            2 * dd2 * n.1 == -(2 * dd * n.1),
            2 * dd2 * n.2 == -(2 * dd * n.2),
            q >= 1,
    ;
    crate::fixed::lemma_tdiv_scale2_le(2 * dd2 * n.0, 0x600_0000);
    crate::fixed::lemma_tdiv_scale2_le(2 * dd2 * n.1, 0x600_0000);
    crate::fixed::lemma_tdiv_scale2_le(2 * dd2 * n.2, 0x600_0000);
    assert(reflect_s(r, n).0 == r.0 - f0);
    assert(reflect_s(r, n) == v);
}

/// At normal incidence (cosine one) the fifth-power term vanishes and the
/// reflectance is exactly the base reflectance.
pub proof fn lemma_schlick_normal_incidence(ref_idx: int)
    requires
        1 <= ref_idx,
    ensures
        schlick_s(SCALE as int, ref_idx) == schlick_r0(ref_idx),
{
    reveal(schlick_s);
    crate::fixed::lemma_tdiv_bound(0, SCALE as int, 0);
    let r0a = fdiv(SCALE as int - ref_idx, SCALE as int + ref_idx);
    let r0 = fmul(r0a, r0a);
    assert(fmul(0, 0) == 0);
    assert((SCALE as int - r0) * 0 == 0) by (nonlinear_arith);
    assert(fmul(SCALE as int - r0, 0) == 0);
}

/// At grazing incidence (cosine zero) the reflectance is exactly one.
pub proof fn lemma_schlick_grazing(ref_idx: int)
    requires
        1 <= ref_idx,
    ensures
        schlick_s(0, ref_idx) == SCALE as int,
{
    reveal(schlick_s);
    let r0a = fdiv(SCALE as int - ref_idx, SCALE as int + ref_idx);
    let r0 = fmul(r0a, r0a);
    lemma_fmul_of_scale(SCALE as int);
    let x2 = fmul(SCALE as int, SCALE as int);
    assert(x2 == SCALE as int);
    lemma_fmul_of_scale(SCALE as int - r0);
    assert(fmul(x2, x2) == SCALE as int);
    assert(fmul(fmul(x2, x2), SCALE as int) == SCALE as int) by {
        lemma_fmul_of_scale(SCALE as int);
    }
}

/// Multiplying by one is exact in fixed point.
pub proof fn lemma_fmul_of_scale(a: int)
    ensures
        fmul(a, SCALE as int) == a,
{
    vstd::arithmetic::div_mod::lemma_mod_multiples_basic(a, SCALE as int);
    crate::fixed::lemma_tdiv_exact(a * SCALE as int, SCALE as int);
    crate::fixed::lemma_cancel_factor(fmul(a, SCALE as int), a, SCALE as int);
    crate::fixed::lemma_cancel_factor(a, fmul(a, SCALE as int), SCALE as int);
}

/// With no fuzz, a metal that scatters reflects exactly: the outgoing
/// direction is the mirrored unit incoming direction.
pub proof fn lemma_metal_mirror(albedo: Vec3, s: u64, r_in: Ray, hit: HitRecord)
    ensures
        ({
            let (res, s1) = metal_scatter_s(albedo, 0, s, r_in, hit);
            res matches Some(p) ==> p.1.direction == reflect_s(
                normalize_s(r_in.direction),
                hit.normal,
            )
        }),
{
    reveal(metal_scatter_s);
    let (smp, s1) = unit_sample_s(s, SAMPLE_TRIES as nat);
    crate::fixed::lemma_tdiv_bound(0 * smp.0, SCALE as int, 0);
    crate::fixed::lemma_tdiv_bound(0 * smp.1, SCALE as int, 0);
    crate::fixed::lemma_tdiv_bound(0 * smp.2, SCALE as int, 0);
    let reflected = reflect_s(normalize_s(r_in.direction), hit.normal);
    assert(scale_s(0, smp) == Vec3(0, 0, 0));
    assert(add_s(reflected, Vec3(0, 0, 0)) == reflected);
}

} // verus!
