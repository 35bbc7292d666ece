use palette::Srgb;
use raytracer::{hit_world, ray_color};
use std::cell::Cell;

type V = (f64, f64, f64);

#[derive(Clone, Copy, Debug, PartialEq)]
struct Ray {
    origin: V,
    direction: V,
}

#[derive(Clone, Copy, Debug, PartialEq)]
struct Hit {
    t: f64,
    id: usize,
}

fn sky(r: Ray) -> Srgb {
    let (x, y, z) = r.direction;
    let len = (x * x + y * y + z * z).sqrt();
    let t: f32 = 0.5 * ((y / len) as f32 + 1.0);
    Srgb::new((1.0 - t) * 1.0 + t * 0.5, (1.0 - t) * 1.0 + t * 0.7, (1.0 - t) * 1.0 + t * 1.0)
}

fn mul(a: Srgb, c: Srgb) -> Srgb {
    Srgb::new(a.red * c.red, a.green * c.green, a.blue * c.blue)
}

fn black() -> Srgb {
    Srgb::new(0.0, 0.0, 0.0)
}

fn empty_world_color(direction: V, depth: i32) -> Srgb {
    let world: Vec<f64> = Vec::new();
    let r = Ray { origin: (0.0, 0.0, 0.0), direction };
    ray_color(
        r,
        depth,
        &|q: Ray| hit_world(&world, q, 0.001, f64::MAX, &|_s: &f64, _q: Ray, _a: f64, _b: f64| None::<Hit>, &|h: &Hit| h.t),
        &|_q: Ray, _h: Hit| None::<(Ray, Srgb)>,
        &|q: Ray| sky(q),
        &|a: Srgb, c: Srgb| mul(a, c),
        black(),
    )
}

#[test]
fn test_ray_color() {
    assert_eq!(empty_world_color((1.0, 0.0, 0.0), 2), Srgb::new(0.75, 0.85, 1.0));
}

#[test]
fn straight_up_ray_is_sky_blue() {
    for depth in [1, 2, 50] {
        assert_eq!(empty_world_color((0.0, 1.0, 0.0), depth), Srgb::new(0.5, 0.7, 1.0));
    }
}

#[test]
fn straight_down_ray_is_white() {
    assert_eq!(empty_world_color((0.0, -1.0, 0.0), 3), Srgb::new(1.0, 1.0, 1.0));
}

#[test]
fn zero_depth_is_black_even_on_a_hit() {
    let always_hit = |_q: Ray| Some(Hit { t: 1.0, id: 0 });
    let reflect = |q: Ray, _h: Hit| Some((q, Srgb::new(0.5, 0.5, 0.5)));
    let r = Ray { origin: (0.0, 0.0, 0.0), direction: (0.0, 0.0, -1.0) };
    for depth in [0, -1] {
        let c = ray_color(r, depth, &always_hit, &reflect, &|q: Ray| sky(q), &|a: Srgb, c: Srgb| mul(a, c), black());
        assert_eq!(c, black());
    }
}

#[test]
fn absorbed_ray_is_black() {
    let r = Ray { origin: (0.0, 0.0, 0.0), direction: (0.0, 1.0, 0.0) };
    let c = ray_color(
        r,
        5,
        &|_q: Ray| Some(Hit { t: 1.0, id: 0 }),
        &|_q: Ray, _h: Hit| None::<(Ray, Srgb)>,
        &|q: Ray| sky(q),
        &|a: Srgb, c: Srgb| mul(a, c),
        black(),
    );
    assert_eq!(c, black());
}

#[test]
fn scattered_ray_is_attenuated_per_bounce() {
    // Two bounces off a half-grey surface, then the ray leaves straight up.
    let bounces = Cell::new(0);
    let hit = |_q: Ray| {
        if bounces.get() < 2 {
            Some(Hit { t: 1.0, id: 0 })
        } else {
            None
        }
    };
    let scatter = |q: Ray, _h: Hit| {
        bounces.set(bounces.get() + 1);
        Some((Ray { origin: q.origin, direction: (0.0, 1.0, 0.0) }, Srgb::new(0.5, 0.5, 0.5)))
    };
    let r = Ray { origin: (0.0, 0.0, 0.0), direction: (1.0, 0.0, 0.0) };
    let c = ray_color(r, 10, &hit, &scatter, &|q: Ray| sky(q), &|a: Srgb, c: Srgb| mul(a, c), black());
    assert_eq!(c, Srgb::new(0.125, 0.175, 0.25));
    assert_eq!(bounces.get(), 2);
}

#[test]
fn depth_runs_out_before_the_sky() {
    let r = Ray { origin: (0.0, 0.0, 0.0), direction: (0.0, 1.0, 0.0) };
    let c = ray_color(
        r,
        3,
        &|_q: Ray| Some(Hit { t: 1.0, id: 0 }),
        &|q: Ray, _h: Hit| Some((q, Srgb::new(1.0, 1.0, 1.0))),
        &|q: Ray| sky(q),
        &|a: Srgb, c: Srgb| mul(a, c),
        black(),
    );
    assert_eq!(c, black());
}

/// Surfaces given as the ray parameter at which they would be hit.
fn nearest(world: &Vec<f64>, t_min: f64, t_max: f64) -> Option<Hit> {
    let ids: Vec<(usize, f64)> = world.iter().copied().enumerate().collect();
    let r = Ray { origin: (0.0, 0.0, 0.0), direction: (0.0, 0.0, -1.0) };
    hit_world(
        &ids,
        r,
        t_min,
        t_max,
        &|s: &(usize, f64), _q: Ray, lo: f64, hi: f64| {
            if s.1 > lo && s.1 < hi {
                Some(Hit { t: s.1, id: s.0 })
            } else {
                None
            }
        },
        &|h: &Hit| h.t,
    )
}

#[test]
fn hit_world_picks_the_closest() {
    assert_eq!(nearest(&vec![3.0, 0.5, 2.0, 0.7], 0.001, f64::MAX), Some(Hit { t: 0.5, id: 1 }));
    assert_eq!(nearest(&vec![0.5, 3.0], 0.001, f64::MAX), Some(Hit { t: 0.5, id: 0 }));
}

#[test]
fn hit_world_respects_bounds() {
    assert_eq!(nearest(&vec![0.0005, 4.0], 0.001, 3.0), None);
    assert_eq!(nearest(&vec![0.0005, 2.5, 4.0], 0.001, 3.0), Some(Hit { t: 2.5, id: 1 }));
}

#[test]
fn hit_world_on_empty_world_is_none() {
    assert_eq!(nearest(&Vec::new(), 0.001, f64::MAX), None);
}

#[test]
fn hit_world_tightens_the_bound_after_each_hit() {
    let seen = std::cell::RefCell::new(Vec::new());
    let world = vec![5.0, 2.0, 9.0];
    let r = Ray { origin: (0.0, 0.0, 0.0), direction: (0.0, 0.0, -1.0) };
    let found = hit_world(
        &world,
        r,
        0.001,
        10.0,
        &|s: &f64, _q: Ray, lo: f64, hi: f64| {
            seen.borrow_mut().push(hi);
            if *s > lo && *s < hi {
                Some(Hit { t: *s, id: 0 })
            } else {
                None
            }
        },
        &|h: &Hit| h.t,
    );
    assert_eq!(found, Some(Hit { t: 2.0, id: 0 }));
    assert_eq!(*seen.borrow(), vec![10.0, 5.0, 2.0]);
}
