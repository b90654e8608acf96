use raytrace::fixed::SCALE;
use raytrace::hitable::{sphere, Hitable};
use raytrace::material::{Dielectric, Lambertian, Material, Metal};
use raytrace::ray::Ray;
use raytrace::rng::Rng;
use raytrace::vec3::Vec3;
use raytrace::world::{Stats, World, MAX_DEPTH, T_EPS, T_MAX};

const ONE: i128 = SCALE;

fn lamb(r: i128, g: i128, b: i128) -> Material {
    Material::Lambertian(Lambertian::new(Vec3(r, g, b)))
}

fn test_scene() -> Vec<Hitable> {
    vec![
        sphere(Vec3(0, -1000 * ONE, 0), 1000 * ONE, lamb(ONE / 2, ONE / 2, ONE / 2)),
        sphere(Vec3(0, ONE, 0), ONE, Material::Dielectric(Dielectric::new(3 * ONE / 2))),
        sphere(Vec3(-4 * ONE, ONE, 0), ONE, lamb(2 * ONE / 5, ONE / 5, ONE / 10)),
        sphere(
            Vec3(4 * ONE, ONE, 0),
            ONE,
            Material::Metal(Metal::new(Vec3(7 * ONE / 10, 3 * ONE / 5, ONE / 2), 0)),
        ),
        sphere(Vec3(ONE, ONE / 5, 2 * ONE), ONE / 5, lamb(ONE / 4, ONE / 3, ONE / 2)),
        sphere(Vec3(-ONE, 2 * ONE / 5, 2 * ONE), 2 * ONE / 5, lamb(ONE, ONE / 3, 0)),
    ]
}

/// Rays from a small camera bundle aimed across the scene.
fn test_rays() -> Vec<Ray> {
    let mut rays = Vec::new();
    let origin = Vec3(13 * ONE, 2 * ONE, 3 * ONE);
    for i in -6..7i128 {
        for j in -6..7i128 {
            let target = Vec3(i * ONE / 2, j * ONE / 2, 0);
            rays.push(Ray {
                point: origin,
                direction: Vec3(
                    (target.0 - origin.0) / 16,
                    (target.1 - origin.1) / 16,
                    (target.2 - origin.2) / 16,
                ),
            });
        }
    }
    rays
}

#[test]
fn tree_and_scan_agree() {
    let mut rng = Rng::new(2024);
    let world = World::new(test_scene(), &mut rng);
    for r in test_rays() {
        let mut t_tree = T_MAX;
        let mut t_scan = T_MAX;
        let mut e_tree: usize = usize::MAX;
        let mut e_scan: usize = usize::MAX;
        let mut stats = Stats::new();
        world.hit(&r, T_EPS, &mut t_tree, &mut e_tree, &mut stats);
        world.hit_linear(&r, T_EPS, &mut t_scan, &mut e_scan, &mut stats);
        assert_eq!(t_tree, t_scan);
        assert_eq!(e_tree, e_scan);
    }
}

#[test]
fn tree_and_scan_agree_single_sphere() {
    // One primitive still builds a (degenerate, two-leaf) tree.
    let mut rng = Rng::new(5);
    let world = World::new(
        vec![sphere(Vec3(0, 0, 0), ONE, lamb(ONE / 2, ONE / 2, ONE / 2))],
        &mut rng,
    );
    for r in test_rays() {
        let mut t_tree = T_MAX;
        let mut t_scan = T_MAX;
        let mut e_tree: usize = usize::MAX;
        let mut e_scan: usize = usize::MAX;
        let mut stats = Stats::new();
        world.hit(&r, T_EPS, &mut t_tree, &mut e_tree, &mut stats);
        world.hit_linear(&r, T_EPS, &mut t_scan, &mut e_scan, &mut stats);
        assert_eq!(t_tree, t_scan);
        assert_eq!(e_tree, e_scan);
    }
}

#[test]
fn miss_leaves_window_untouched() {
    let mut rng = Rng::new(1);
    let world = World::new(
        vec![sphere(Vec3(0, 0, -10 * ONE), ONE, lamb(ONE / 2, ONE / 2, ONE / 2))],
        &mut rng,
    );
    let r = Ray {
        point: Vec3(0, 0, 0),
        direction: Vec3(0, 0, ONE),
    };
    let mut t = T_MAX;
    let mut e: usize = usize::MAX;
    let mut stats = Stats::new();
    world.hit(&r, T_EPS, &mut t, &mut e, &mut stats);
    assert_eq!(t, T_MAX);
    assert_eq!(e, usize::MAX);
}

#[test]
fn colour_depth_one_is_direct() {
    // All-diffuse scene, budget of one bounce: a missing ray is exactly the
    // background, a hitting ray is exactly black.
    let mut rng = Rng::new(11);
    let world = World::new(
        vec![sphere(Vec3(0, 0, -5 * ONE), ONE, lamb(ONE / 2, ONE / 2, ONE / 2))],
        &mut rng,
    );
    let mut stats = Stats::new();
    let up = Ray {
        point: Vec3(0, 0, 0),
        direction: Vec3(0, ONE, 0),
    };
    // Straight up the blend weight is one: the colour is the sky tint.
    assert_eq!(world.color(up, 1, &mut rng, &mut stats), Vec3(32768, 45875, 65536));
    let hit = Ray {
        point: Vec3(0, 0, 0),
        direction: Vec3(0, 0, -ONE),
    };
    assert_eq!(world.color(hit, 1, &mut rng, &mut stats), Vec3(0, 0, 0));
}

#[test]
fn lone_sphere_darkens_centre_pixel() {
    // A grey unit sphere at the origin, viewed from (0, 0, 5): the averaged
    // centre colour is non-black and strictly darker than the background the
    // same ray would see without the sphere.
    let mut rng = Rng::new(3);
    let world = World::new(
        vec![sphere(Vec3(0, 0, 0), ONE, lamb(ONE / 2, ONE / 2, ONE / 2))],
        &mut rng,
    );
    let centre_ray = Ray {
        point: Vec3(0, 0, 5 * ONE),
        direction: Vec3(0, 0, -ONE),
    };
    // What the same ray sees with nothing in the way.
    let background = Vec3(49152, 55705, 65536);
    let samples: i128 = 200;
    let mut sum = Vec3(0, 0, 0);
    let mut stats = Stats::new();
    for _ in 0..samples {
        let c = world.color(centre_ray, MAX_DEPTH, &mut rng, &mut stats);
        sum = Vec3(sum.0 + c.0, sum.1 + c.1, sum.2 + c.2);
    }
    let avg = Vec3(sum.0 / samples, sum.1 / samples, sum.2 / samples);
    assert!(avg.0 > 0 && avg.1 > 0 && avg.2 > 0);
    assert!(avg.0 < background.0 && avg.1 < background.1 && avg.2 < background.2);
}

#[test]
fn fixed_seed_renders_identically() {
    // Same seed, same scene: every sampled colour matches byte for byte.
    let render = |seed: u64| -> Vec<Vec3> {
        let mut rng = Rng::new(seed);
        let world = World::new(test_scene(), &mut rng);
        let mut stats = Stats::new();
        test_rays()
            .into_iter()
            .map(|r| world.color(r, MAX_DEPTH, &mut rng, &mut stats))
            .collect()
    };
    let first = render(123_456_789);
    let second = render(123_456_789);
    assert_eq!(first, second);
    for c in &first {
        assert!(0 <= c.0 && c.0 <= ONE);
        assert!(0 <= c.1 && c.1 <= ONE);
        assert!(0 <= c.2 && c.2 <= ONE);
    }
}

#[test]
fn sampler_stays_in_unit_ball() {
    let mut rng = Rng::new(77);
    for _ in 0..200 {
        let p = raytrace::material::random_in_unit_sphere(&mut rng);
        assert!(p.0 * p.0 + p.1 * p.1 + p.2 * p.2 < ONE * ONE);
    }
}
