use std::cell::RefCell;
use std::rc::Rc;

use rand::rngs::StdRng;
use rand::{Rng, SeedableRng};
use raytracer::config::RenderConfig;
use raytracer::image::Image;
use raytracer::material::Material;
use raytracer::ppm::{encode, Rgb8};
use raytracer::ppm_read::decode;
use raytracer::surface::{bits_of_key, key_of_bits, nearest_root, Window};
use raytracer::transport::resolve;
use raytracer::world::{Hit, World};

// A small floating-point scene around the library: vectors double as colours.

#[derive(Clone, Copy, Debug, PartialEq)]
struct V(f64, f64, f64);

fn add(a: V, b: V) -> V {
    V(a.0 + b.0, a.1 + b.1, a.2 + b.2)
}

fn sub(a: V, b: V) -> V {
    V(a.0 - b.0, a.1 - b.1, a.2 - b.2)
}

fn scale(a: V, k: f64) -> V {
    V(a.0 * k, a.1 * k, a.2 * k)
}

fn dot(a: V, b: V) -> f64 {
    a.0 * b.0 + a.1 * b.1 + a.2 * b.2
}

fn unit(a: V) -> V {
    scale(a, 1.0 / dot(a, a).sqrt())
}

fn reflect(d: V, n: V) -> V {
    sub(d, scale(n, 2.0 * dot(d, n)))
}

fn random_in_ball(rng: &RefCell<StdRng>) -> V {
    let mut rng = rng.borrow_mut();
    loop {
        let v = V(rng.gen_range(0.0..1.0), rng.gen_range(0.0..1.0), rng.gen_range(0.0..1.0));
        if dot(v, v) <= 1.0 {
            return v;
        }
    }
}

#[derive(Clone, Copy, Debug)]
struct Ray {
    origin: V,
    direction: V,
}

struct Ball {
    center: V,
    radius: f64,
    material: Rc<Material<V, f64>>,
}

struct Record {
    point: V,
    normal: V,
    material: Rc<Material<V, f64>>,
}

// An integer that orders as the float does, and the way back.
fn key(time: f64) -> u64 {
    key_of_bits(time.to_bits())
}

fn time(key: u64) -> f64 {
    f64::from_bits(bits_of_key(key))
}

fn ahead() -> Window {
    Window::ahead()
}

fn probe(ball: &Ball, ray: &Ray, window: &Window) -> Option<Hit<Record>> {
    let oc = sub(ray.origin, ball.center);
    let a = dot(ray.direction, ray.direction);
    let half_b = dot(oc, ray.direction);
    let c = dot(oc, oc) - ball.radius * ball.radius;
    let discriminant = half_b * half_b - a * c;
    if discriminant < 0.0 {
        return None;
    }
    let root = discriminant.sqrt();
    let nearest = nearest_root(key((-half_b - root) / a), key((-half_b + root) / a), window)?;
    let point = add(ray.origin, scale(ray.direction, time(nearest)));
    Some(Hit {
        time: nearest,
        record: Record {
            point,
            normal: scale(sub(point, ball.center), 1.0 / ball.radius),
            material: ball.material.clone(),
        },
    })
}

fn sky(ray: &Ray) -> V {
    let ratio = 0.5 * (unit(ray.direction).1 + 1.0);
    add(scale(V(0.5, 0.7, 1.0), ratio), scale(V(1.0, 1.0, 1.0), 1.0 - ratio))
}

fn attenuate(a: V, c: V) -> V {
    V(a.0 * c.0, a.1 * c.1, a.2 * c.2)
}

fn colour(world: &World<Ball>, ray: Ray, depth: usize, rng: &RefCell<StdRng>) -> V {
    let scatter = |ray: &Ray, hit: &Hit<Record>| {
        let record = &hit.record;
        record.material.scatter(
            &|| Ray {
                origin: record.point,
                direction: add(record.normal, unit(random_in_ball(rng))),
            },
            &|fuzziness: &f64| Ray {
                origin: record.point,
                direction: add(
                    reflect(unit(ray.direction), record.normal),
                    scale(unit(random_in_ball(rng)), *fuzziness),
                ),
            },
            &|out: &Ray| dot(out.direction, record.normal) > 0.0,
        )
    };
    resolve(world, ray, depth, V(0.0, 0.0, 0.0), &probe, &scatter, &sky, &attenuate)
}

fn camera_ray(u: f64, v: f64) -> Ray {
    let width = 16.0 / 9.0 * 2.0;
    let corner = V(-width / 2.0, -1.0, -1.0);
    Ray {
        origin: V(0.0, 0.0, 0.0),
        direction: add(corner, V(width * u, 2.0 * v, 0.0)),
    }
}

fn two_spheres() -> World<Ball> {
    World(vec![
        Ball {
            center: V(0.0, 0.0, -1.0),
            radius: 0.5,
            material: Rc::new(Material::Matte { albedo: V(0.8, 0.3, 0.3) }),
        },
        Ball {
            center: V(0.0, -100.5, -1.0),
            radius: 100.0,
            material: Rc::new(Material::Matte { albedo: V(0.8, 0.8, 0.0) }),
        },
    ])
}

struct Sample {
    ray: Ray,
    meets_a_surface: bool,
    colour: V,
}

fn render(seed: u64, depth: usize) -> (Image<V>, Vec<Sample>) {
    let config = RenderConfig::new(40, 22, 1, depth).unwrap();
    let world = two_spheres();
    let samples = RefCell::new(Vec::new());
    let estimate = |rng: StdRng, x: usize, y: usize| {
        let rng = RefCell::new(rng);
        let (du, dv): (f64, f64) = {
            let mut rng = rng.borrow_mut();
            (rng.gen_range(0.0..1.0), rng.gen_range(0.0..1.0))
        };
        let ray = camera_ray((x as f64 + du) / 39.0, (y as f64 + dv) / 21.0);
        let colour = colour(&world, ray, config.max_bounce_depth(), &rng);
        samples.borrow_mut().push(Sample {
            ray,
            meets_a_surface: world.hit(&ray, &ahead(), &probe).is_some(),
            colour,
        });
        colour
    };
    let mean = |total: V, count: usize| scale(total, 1.0 / count as f64);
    let image = Image::sample(&config, seed, V(0.0, 0.0, 0.0), &estimate, &add, &mean);
    (image, samples.into_inner())
}

fn quantize(c: &V) -> Rgb8 {
    let channel = |x: f64| (x.clamp(0.0, 1.0).sqrt() * 255.0) as u8;
    Rgb8 { red: channel(c.0), green: channel(c.1), blue: channel(c.2) }
}

#[test]
fn fixed_seed_renders_the_same_bytes() {
    let (first, _) = render(2024, 5);
    let (second, _) = render(2024, 5);
    let first = encode(&first.map(&quantize));
    let second = encode(&second.map(&quantize));
    assert!(first.starts_with(b"P3\n40 22\n255\n"));
    assert_eq!(first.iter().filter(|b| **b == b'\n').count(), 3 + 40 * 22);
    assert_eq!(first, second);
}

#[test]
fn another_seed_renders_other_bytes() {
    let (first, _) = render(2024, 5);
    let (second, _) = render(2025, 5);
    assert_ne!(encode(&first.map(&quantize)), encode(&second.map(&quantize)));
}

#[test]
fn centre_pixel_sees_the_sphere() {
    for depth in [1, 5] {
        let (image, samples) = render(7, depth);
        let centre = &samples[11 * 40 + 20];
        assert!(centre.meets_a_surface);
        assert_ne!(centre.colour, sky(&centre.ray));
        assert_eq!(image.get(20, 11), Some(&centre.colour));
    }
}

#[test]
fn top_rows_show_the_sky_gradient() {
    let (image, samples) = render(7, 5);
    for y in 20..22 {
        for x in 0..40 {
            let sample = &samples[y * 40 + x];
            assert!(!sample.meets_a_surface);
            assert_eq!(sample.colour, sky(&sample.ray));
            assert_eq!(image.get(x, y), Some(&sample.colour));
        }
    }
}

#[test]
fn top_rows_are_written_first() {
    let (image, _) = render(7, 5);
    let pixels = image.map(&quantize);
    let text = encode(&pixels);
    let back = decode(&text).unwrap();
    assert_eq!(back.lines(), pixels.lines());
    let first_line = text.split(|b| *b == b'\n').nth(3).unwrap();
    let top_left = pixels.get(0, 21).unwrap();
    let expected = format!("{} {} {}", top_left.red, top_left.green, top_left.blue);
    assert_eq!(first_line, expected.as_bytes());
}

#[test]
fn white_colours_are_written_as_full_channels() {
    let config = RenderConfig::new(3, 2, 1, 0).unwrap();
    let white = Image::sample(
        &config,
        0,
        V(0.0, 0.0, 0.0),
        &|_: StdRng, _, _| V(1.0, 1.0, 1.0),
        &add,
        &|total, _| total,
    );
    let text = encode(&white.map(&quantize));
    assert!(text.starts_with(b"P3\n3 2\n255\n"));
    let back = decode(&text).unwrap();
    assert_eq!(back.width(), 3);
    assert_eq!(back.height(), 2);
    for y in 0..2 {
        for x in 0..3 {
            assert_eq!(back.get(x, y), Some(&Rgb8 { red: 255, green: 255, blue: 255 }));
        }
    }
}

#[test]
fn no_bounce_depth_renders_black() {
    let (image, _) = render(7, 0);
    for y in 0..22 {
        for x in 0..40 {
            assert_eq!(image.get(x, y), Some(&V(0.0, 0.0, 0.0)));
        }
    }
}

#[test]
fn ray_at_the_centre_hits_at_distance_less_radius() {
    let world = two_spheres();
    let ray = Ray { origin: V(0.0, 0.0, 2.0), direction: V(0.0, 0.0, -1.0) };
    let hit = world.hit(&ray, &ahead(), &probe).unwrap();
    assert_eq!(time(hit.time), 3.0 - 0.5);
    assert_eq!(hit.record.point, V(0.0, 0.0, -0.5));
    assert_eq!(hit.record.normal, V(0.0, 0.0, 1.0));
    assert_eq!(hit.record.material.albedo(), V(0.8, 0.3, 0.3));
}

#[test]
fn ray_aimed_away_hits_nothing() {
    let world = two_spheres();
    let ray = Ray { origin: V(0.0, 0.0, 2.0), direction: V(0.0, 1.0, 1.0) };
    assert!(world.hit(&ray, &ahead(), &probe).is_none());
    assert_eq!(colour(&world, ray, 5, &RefCell::new(StdRng::seed_from_u64(1))), sky(&ray));
}

#[test]
fn nearer_sphere_hides_the_ground_behind_it() {
    let world = two_spheres();
    let ray = Ray { origin: V(0.0, 2.0, -1.0), direction: V(0.0, -1.0, 0.0) };
    // the small sphere's top is at height 0.5, the ground's at -0.5
    let hit = world.hit(&ray, &ahead(), &probe).unwrap();
    assert_eq!(time(hit.time), 1.5);
    assert_eq!(hit.record.material.albedo(), V(0.8, 0.3, 0.3));
    // listed the other way round, the same sphere is hit
    let mut other = two_spheres();
    other.0.reverse();
    let hit = other.hit(&ray, &ahead(), &probe).unwrap();
    assert_eq!(time(hit.time), 1.5);
    assert_eq!(hit.record.material.albedo(), V(0.8, 0.3, 0.3));
}

#[test]
fn keys_order_as_the_floats_do() {
    let floats = [f64::MIN, -100.5, -1.0, -0.001, 0.0, 0.001, 0.5, 1.0, 2.5, 100.0, f64::MAX];
    for pair in floats.windows(2) {
        assert!(key(pair[0]) < key(pair[1]));
    }
    for x in floats {
        assert_eq!(time(key(x)), x);
    }
    assert!(key(-0.0) < key(0.0));
    assert!(key(f64::NEG_INFINITY) < key(f64::MIN));
    assert!(key(f64::MAX) < key(f64::INFINITY));
    assert!(key(f64::INFINITY) < key(f64::NAN));
    assert!(!ahead().contains(key(0.0)));
    assert!(!ahead().contains(key(0.0009)));
    assert!(ahead().contains(key(0.001)));
    assert!(ahead().contains(key(f64::MAX)));
    assert!(!ahead().contains(key(f64::INFINITY)));
    assert!(!ahead().contains(key(f64::NAN)));
    assert!(!ahead().contains(key(-f64::NAN)));
}

#[test]
fn a_sphere_behind_the_ray_is_not_hit() {
    let world = two_spheres();
    let ray = Ray { origin: V(0.0, 0.0, -3.0), direction: V(0.0, 0.0, -1.0) };
    assert!(world.hit(&ray, &ahead(), &probe).is_none());
}

#[test]
fn from_inside_a_sphere_the_far_root_is_the_hit() {
    let world = two_spheres();
    let ray = Ray { origin: V(0.0, 0.0, -1.0), direction: V(0.0, 0.0, -1.0) };
    let hit = world.hit(&ray, &ahead(), &probe).unwrap();
    assert_eq!(time(hit.time), 0.5);
    assert_eq!(hit.record.point, V(0.0, 0.0, -1.5));
}
