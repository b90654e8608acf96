use raytrace::aabb::{surrounding_box, Aabb};
use raytrace::fixed::{fp_div, fp_mul, fp_sqrt, SCALE};
use raytrace::hitable::HitRecord;
use raytrace::material::{reflect, schlick, Dielectric, Lambertian, Material, Metal};
use raytrace::ray::Ray;
use raytrace::rng::Rng;
use raytrace::sphere::Sphere;
use raytrace::vec3::{cross, dot, normalized, Vec3};

const ONE: i128 = SCALE;

#[test]
fn fixed_point_basics() {
    assert_eq!(fp_mul(ONE, ONE), ONE);
    assert_eq!(fp_mul(3 * ONE, 2 * ONE), 6 * ONE);
    assert_eq!(fp_mul(-3 * ONE, 2 * ONE), -6 * ONE);
    assert_eq!(fp_div(ONE, 2), ONE * ONE / 2);
    assert_eq!(fp_sqrt(4 * ONE), 2 * ONE);
    assert_eq!(fp_sqrt(ONE), ONE);
}

#[test]
fn vector_operations() {
    let a = Vec3(ONE, 2 * ONE, 3 * ONE);
    let b = Vec3(4 * ONE, 5 * ONE, 6 * ONE);
    assert_eq!(a.add(b), Vec3(5 * ONE, 7 * ONE, 9 * ONE));
    assert_eq!(b.sub(a), Vec3(3 * ONE, 3 * ONE, 3 * ONE));
    assert_eq!(dot(a, b), 32 * ONE);
    assert_eq!(cross(Vec3(ONE, 0, 0), Vec3(0, ONE, 0)), Vec3(0, 0, ONE));
    let n = normalized(Vec3(3 * ONE, 4 * ONE, 0));
    // A 3-4-5 triangle normalises exactly.
    assert_eq!(n, Vec3(3 * ONE / 5, 4 * ONE / 5, 0));
    assert_eq!(a.mul(b), Vec3(4 * ONE, 10 * ONE, 18 * ONE));
    assert_eq!(a.scale(2 * ONE), Vec3(2 * ONE, 4 * ONE, 6 * ONE));
    assert_eq!(Vec3(3 * ONE, 4 * ONE, 0).len(), 5 * ONE);
    assert_eq!(Vec3(3 * ONE, 4 * ONE, 0).squared_len(), 25 * ONE);
}

#[test]
fn surrounding_box_is_tightest() {
    let a = Aabb {
        min: Vec3(-ONE, 0, 2 * ONE),
        max: Vec3(ONE, 3 * ONE, 4 * ONE),
    };
    let b = Aabb {
        min: Vec3(-2 * ONE, ONE, 3 * ONE),
        max: Vec3(0, 2 * ONE, 6 * ONE),
    };
    let u = surrounding_box(&a, &b);
    // Componentwise least and greatest corners, nothing looser.
    assert_eq!(u.min, Vec3(-2 * ONE, 0, 2 * ONE));
    assert_eq!(u.max, Vec3(ONE, 3 * ONE, 6 * ONE));
}

#[test]
fn box_slab_test() {
    let b = Aabb {
        min: Vec3(-ONE, -ONE, -ONE),
        max: Vec3(ONE, ONE, ONE),
    };
    let through = Ray {
        point: Vec3(0, 0, 5 * ONE),
        direction: Vec3(0, 0, -ONE),
    };
    assert!(b.hit(&through, 0, 100 * ONE));
    let away = Ray {
        point: Vec3(0, 0, 5 * ONE),
        direction: Vec3(0, 0, ONE),
    };
    assert!(!b.hit(&away, 0, 100 * ONE));
    // Parallel to a slab: inside passes, outside fails.
    let parallel_in = Ray {
        point: Vec3(0, 0, 5 * ONE),
        direction: Vec3(0, 0, -ONE),
    };
    assert!(b.hit(&parallel_in, 0, 100 * ONE));
    let parallel_out = Ray {
        point: Vec3(2 * ONE, 0, 5 * ONE),
        direction: Vec3(0, 0, -ONE),
    };
    assert!(!b.hit(&parallel_out, 0, 100 * ONE));
    // A window that ends before the box is a miss.
    assert!(!b.hit(&through, 0, ONE));
}

fn grey() -> Material {
    Material::Lambertian(Lambertian::new(Vec3(ONE / 2, ONE / 2, ONE / 2)))
}

#[test]
fn sphere_hit_from_centre() {
    // A unit sphere; a ray cast from its centre hits at the radius and the
    // normal is the ray direction itself.
    let s = Sphere::new(Vec3(0, 0, 0), ONE, grey());
    let r = Ray {
        point: Vec3(0, 0, 0),
        direction: Vec3(ONE, 0, 0),
    };
    let c = s.candidate(&r, 66);
    assert_eq!(c, Some(ONE));
    let mut rec = HitRecord {
        point: Vec3(0, 0, 0),
        normal: Vec3(0, 0, 0),
    };
    s.hit_record(&r, ONE, &mut rec);
    assert_eq!(rec.point, Vec3(ONE, 0, 0));
    assert_eq!(rec.normal, Vec3(ONE, 0, 0));
}

#[test]
fn sphere_hit_and_window() {
    let s = Sphere::new(Vec3(0, 0, -5 * ONE), ONE, grey());
    let r = Ray {
        point: Vec3(0, 0, 0),
        direction: Vec3(0, 0, -ONE),
    };
    let mut t_max = 100 * ONE;
    assert!(s.hit(&r, 66, &mut t_max));
    // The near face is four units away.
    assert!((t_max - 4 * ONE).abs() <= 2);
    // A second test against the shrunken window reports no improvement.
    let mut t2 = t_max;
    assert!(!s.hit(&r, 66, &mut t2));
    assert_eq!(t2, t_max);
    // A ray pointing away misses.
    let r_away = Ray {
        point: Vec3(0, 0, 0),
        direction: Vec3(0, 0, ONE),
    };
    let mut t3 = 100 * ONE;
    assert!(!s.hit(&r_away, 66, &mut t3));
    assert_eq!(t3, 100 * ONE);
    let b = s.bbox().unwrap();
    assert_eq!(b.min, Vec3(-ONE, -ONE, -6 * ONE));
    assert_eq!(b.max, Vec3(ONE, ONE, -4 * ONE));
}

#[test]
fn reflect_is_self_inverse() {
    let n = Vec3(0, 0, ONE);
    let v = Vec3(12345, -678, 999);
    let r = reflect(v, n);
    assert_eq!(r, Vec3(12345, -678, -999));
    assert_eq!(reflect(r, n), v);
    // The projection on the normal is exactly negated.
    assert_eq!(dot(r, n), -dot(v, n));
}

#[test]
fn schlick_end_points() {
    let glass = 3 * ONE / 2;
    // cosine one: the fifth-power term vanishes, leaving the base term.
    let r0a = fp_div(ONE - glass, ONE + glass);
    let r0 = fp_mul(r0a, r0a);
    assert_eq!(schlick(ONE, glass), r0);
    assert_eq!(schlick(ONE, glass), 2621);
    // cosine zero: full reflectance.
    assert_eq!(schlick(0, glass), ONE);
}

#[test]
fn lambertian_always_scatters() {
    let albedo = Vec3(ONE / 2, ONE / 4, ONE / 8);
    let m = Material::Lambertian(Lambertian::new(albedo));
    let hit = HitRecord {
        point: Vec3(0, 0, -4 * ONE),
        normal: Vec3(0, 0, ONE),
    };
    let r = Ray {
        point: Vec3(0, 0, 0),
        direction: Vec3(0, 0, -ONE),
    };
    for seed in 0..32u64 {
        let mut rng = Rng::new(seed);
        let out = m.scatter(&mut rng, &r, &hit);
        let (att, sc) = out.expect("diffuse surfaces always scatter");
        assert_eq!(att, albedo);
        assert_eq!(sc.point, hit.point);
    }
}

#[test]
fn metal_zero_fuzz_mirrors() {
    let m = Material::Metal(Metal::new(Vec3(ONE, ONE, ONE), 0));
    let hit = HitRecord {
        point: Vec3(0, 0, -4 * ONE),
        normal: Vec3(0, 0, ONE),
    };
    let r = Ray {
        point: Vec3(0, 0, 0),
        direction: Vec3(0, 0, -ONE),
    };
    let mut rng = Rng::new(7);
    let (att, sc) = m.scatter(&mut rng, &r, &hit).expect("head-on metal reflects");
    assert_eq!(att, Vec3(ONE, ONE, ONE));
    assert_eq!(sc.direction, Vec3(0, 0, ONE));
    assert_eq!(dot(sc.direction, hit.normal), -dot(r.direction, hit.normal));
}

#[test]
fn metal_fuzz_is_clamped() {
    let m = Metal::new(Vec3(ONE, ONE, ONE), 5 * ONE);
    assert_eq!(m.fuzz, ONE);
    let m2 = Metal::new(Vec3(ONE, ONE, ONE), -3);
    assert_eq!(m2.fuzz, 0);
}

#[test]
fn dielectric_always_scatters() {
    let m = Material::Dielectric(Dielectric::new(3 * ONE / 2));
    let hit = HitRecord {
        point: Vec3(0, 0, -4 * ONE),
        normal: Vec3(0, 0, ONE),
    };
    let r = Ray {
        point: Vec3(0, 0, 0),
        direction: Vec3(0, 0, -ONE),
    };
    for seed in 0..32u64 {
        let mut rng = Rng::new(seed * 977 + 5);
        let (att, _sc) = m.scatter(&mut rng, &r, &hit).expect("glass always scatters");
        assert_eq!(att, Vec3(ONE, ONE, ONE));
    }
}

#[test]
fn rng_draws_stay_below_bound() {
    let mut rng = Rng::new(42);
    for _ in 0..1000 {
        let x = rng.below(3);
        assert!(x < 3);
        let y = rng.below(65536);
        assert!(y < 65536);
    }
    // The same seed replays the same words.
    let mut a = Rng::new(9);
    let mut b = Rng::new(9);
    for _ in 0..100 {
        assert_eq!(a.next_u64(), b.next_u64());
    }
}
