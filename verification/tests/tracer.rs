use raytracer::hittable::{HitRecord, Hittable, HittableList, Sphere};
use raytracer::material::Material;
use raytracer::ray::Ray;
use raytracer::scalar::Scalar;
use raytracer::shading::{clamp, ray_color, ray_color_with, write_color};
use raytracer::vec3::{Color, Point3, Vec3};

fn s(x: f64) -> Scalar {
    Scalar::from_bits(x.to_bits())
}

fn f(x: Scalar) -> f64 {
    f64::from_bits(x.to_bits())
}

fn v(x: f64, y: f64, z: f64) -> Vec3 {
    Vec3::new(s(x), s(y), s(z))
}

fn bits(a: Vec3) -> [u64; 3] {
    [a.x.to_bits(), a.y.to_bits(), a.z.to_bits()]
}

fn fbits(a: [f64; 3]) -> [u64; 3] {
    [a[0].to_bits(), a[1].to_bits(), a[2].to_bits()]
}

fn diffuse(r: f64, g: f64, b: f64) -> Material {
    Material::Lambertian { albedo: v(r, g, b) }
}

fn mirror(r: f64, g: f64, b: f64) -> Material {
    Material::Metal { albedo: v(r, g, b) }
}

struct Gen(u64);

impl Gen {
    fn next(&mut self) -> u64 {
        let mut x = self.0;
        x ^= x << 13;
        x ^= x >> 7;
        x ^= x << 17;
        self.0 = x;
        x.wrapping_mul(0x2545_f491_4f6c_dd1d)
    }

    /// A number in `[-scale, scale)`.
    fn signed(&mut self, scale: f64) -> f64 {
        ((self.next() >> 11) as f64 / (1u64 << 53) as f64 * 2.0 - 1.0) * scale
    }
}

// The same formulas on the machine's doubles.

fn dot3(a: [f64; 3], b: [f64; 3]) -> f64 {
    a[0] * b[0] + a[1] * b[1] + a[2] * b[2]
}

fn sub3(a: [f64; 3], b: [f64; 3]) -> [f64; 3] {
    [a[0] - b[0], a[1] - b[1], a[2] - b[2]]
}

fn len3(a: [f64; 3]) -> f64 {
    dot3(a, a).sqrt()
}

struct Found {
    t: f64,
    p: [f64; 3],
    normal: [f64; 3],
    front: bool,
}

fn sphere_hit(c: [f64; 3], radius: f64, o: [f64; 3], d: [f64; 3], t_min: f64, t_max: f64) -> Option<Found> {
    let oc = sub3(o, c);
    let a = dot3(d, d);
    let half_b = dot3(oc, d);
    let cc = dot3(oc, oc) - radius * radius;
    let disc = half_b * half_b - a * cc;
    if disc < 0.0 {
        return None;
    }
    let sq = disc.sqrt();
    let rn = (-half_b - sq) / a;
    let rp = (-half_b + sq) / a;
    let t = if rn >= t_min && rn <= t_max {
        rn
    } else if rp >= t_min && rp <= t_max {
        rp
    } else {
        return None;
    };
    let p = [o[0] + d[0] * t, o[1] + d[1] * t, o[2] + d[2] * t];
    let off = sub3(p, c);
    let l = len3(off);
    if l == 0.0 {
        return None;
    }
    let out = [off[0] / l, off[1] / l, off[2] / l];
    let front = dot3(d, out) < 0.0;
    let normal = if front { out } else { [-out[0], -out[1], -out[2]] };
    Some(Found { t, p, normal, front })
}

fn sky(d: [f64; 3]) -> [f64; 3] {
    let l = len3(d);
    let y = d[1] / l;
    let t = 0.5 * (y + 1.0);
    [
        1.0 * (1.0 - t) + 0.5 * t,
        1.0 * (1.0 - t) + 0.7 * t,
        1.0 * (1.0 - t) + 1.0 * t,
    ]
}

#[test]
fn axis_ray_hits_at_distance_minus_radius() {
    for (r, d) in [(0.5, 3.0), (1.0, 5.0), (2.0, 2.5), (0.25, 100.0), (100.0, 100.5)] {
        let sphere = Sphere::new(v(0.0, 0.0, 0.0), s(r), diffuse(0.1, 0.2, 0.3));
        let ray = Ray::new(v(0.0, 0.0, -d), v(0.0, 0.0, 1.0));
        let rec = sphere.hit(&ray, s(0.0), s(f64::MAX)).unwrap();
        assert_eq!(rec.t.to_bits(), (d - r).to_bits());
        assert_eq!(bits(rec.p), bits(v(0.0, 0.0, -r)));
        assert_eq!(rec.normal, v(0.0, 0.0, -1.0));
        assert!(rec.front_face);
        // the unit vector from the center to the point that was hit
        assert_eq!(rec.normal, rec.p.minus(sphere.center()).unit_vector());
    }
}

#[test]
fn ray_from_inside_hits_the_far_side() {
    let sphere = Sphere::new(v(0.0, 0.0, 0.0), s(2.0), mirror(0.8, 0.8, 0.8));
    let ray = Ray::new(v(0.0, 0.5, 0.0), v(0.0, 1.0, 0.0));
    let rec = sphere.hit(&ray, s(0.0), s(f64::MAX)).unwrap();
    assert_eq!(rec.t.to_bits(), 1.5f64.to_bits());
    assert!(!rec.front_face);
    assert_eq!(rec.normal, v(0.0, -1.0, 0.0));
    // the near root lies before the interval, the far one outside it
    assert!(sphere.hit(&ray, s(0.0), s(1.25)).is_none());
}

#[test]
fn ray_past_the_sphere_misses() {
    let sphere = Sphere::new(v(0.0, 0.0, 0.0), s(1.0), diffuse(0.5, 0.5, 0.5));
    // the tangent direction from (0, 0, -2) has a slope of 1 / sqrt(3)
    let tangent = 1.0 / 3.0f64.sqrt();
    for k in 1..200 {
        let slope = tangent * (1.0 + k as f64 * 0.01);
        for d in [[slope, 0.0, 1.0], [0.0, slope, 1.0], [-slope, 0.0, 1.0], [0.0, -slope, 1.0]] {
            let ray = Ray::new(v(0.0, 0.0, -2.0), v(d[0], d[1], d[2]));
            assert!(sphere.hit(&ray, s(0.0), s(f64::MAX)).is_none());
            assert!(sphere.hit(&ray, s(f64::MIN), s(f64::MAX)).is_none());
        }
    }
    // pointing away: the roots are negative
    let away = Ray::new(v(0.0, 0.0, -2.0), v(0.0, 0.0, -1.0));
    assert!(sphere.hit(&away, s(0.0), s(f64::MAX)).is_none());
    assert!(sphere.hit(&away, s(-10.0), s(f64::MAX)).is_some());
}

#[test]
fn sphere_hit_matches_the_formulas() {
    let mut g = Gen(0x6a09_e667_f3bc_c908);
    let mut hits = 0;
    for i in 0..20_000 {
        let c = [g.signed(2.0), g.signed(2.0), g.signed(2.0)];
        let radius = g.signed(1.0).abs() + 0.01;
        let o = [g.signed(4.0), g.signed(4.0), g.signed(4.0)];
        let d = if i % 2 == 0 {
            [c[0] - o[0] + g.signed(radius), c[1] - o[1] + g.signed(radius), c[2] - o[2] + g.signed(radius)]
        } else {
            [g.signed(1.0), g.signed(1.0), g.signed(1.0)]
        };
        let t_min = if i % 3 == 0 { 0.001 } else { 0.0 };
        let t_max = if i % 5 == 0 { 3.0 } else { f64::MAX };
        let sphere = Sphere::new(v(c[0], c[1], c[2]), s(radius), mirror(0.9, 0.8, 0.7));
        let ray = Ray::new(v(o[0], o[1], o[2]), v(d[0], d[1], d[2]));
        let got = sphere.hit(&ray, s(t_min), s(t_max));
        let want = sphere_hit(c, radius, o, d, t_min, t_max);
        assert_eq!(got.is_some(), want.is_some());
        if let (Some(rec), Some(w)) = (got, want) {
            hits += 1;
            assert_eq!(rec.t.to_bits(), w.t.to_bits());
            assert_eq!(bits(rec.p), fbits(w.p));
            assert_eq!(bits(rec.normal), fbits(w.normal));
            assert_eq!(rec.front_face, w.front);
            // the normal runs against the ray
            assert!(ray.direction.dot(rec.normal).le(s(0.0)));
            assert!(rec.t.ge(s(t_min)) && rec.t.le(s(t_max)));
        }
    }
    assert!(hits > 5_000);
}

#[test]
fn first_of_two_coincident_spheres_wins() {
    let first = Sphere::new(v(0.0, 0.0, -1.0), s(0.5), diffuse(1.0, 0.0, 0.0));
    let second = Sphere::new(v(0.0, 0.0, -1.0), s(0.5), mirror(0.0, 1.0, 0.0));
    let ray = Ray::new(v(0.0, 0.0, 0.0), v(0.0, 0.0, -1.0));
    let is_first = |rec: &HitRecord| matches!(rec.material, Material::Lambertian { .. });

    let mut world = HittableList::new();
    world.add(first);
    world.add(second);
    let rec = world.hit(&ray, s(0.0), s(f64::MAX)).unwrap();
    assert_eq!(rec.t.to_bits(), 0.5f64.to_bits());
    assert!(is_first(&rec));

    let mut swapped = HittableList::new();
    swapped.add(second);
    swapped.add(first);
    let rec = swapped.hit(&ray, s(0.0), s(f64::MAX)).unwrap();
    assert!(!is_first(&rec));
}

#[test]
fn list_returns_the_nearest_hit() {
    let mut world = HittableList::new();
    assert_eq!(world.len(), 0);
    let ray = Ray::new(v(0.0, 0.0, 0.0), v(0.0, 0.0, -1.0));
    assert!(world.hit(&ray, s(0.0), s(f64::MAX)).is_none());
    world.add(Sphere::new(v(0.0, 0.0, -10.0), s(1.0), diffuse(0.1, 0.1, 0.1)));
    world.add(Sphere::new(v(0.0, 0.0, -4.0), s(1.0), diffuse(0.2, 0.2, 0.2)));
    world.add(Sphere::new(v(0.0, 0.0, -7.0), s(1.0), diffuse(0.3, 0.3, 0.3)));
    world.add(Sphere::new(v(0.0, 5.0, -7.0), s(1.0), diffuse(0.4, 0.4, 0.4)));
    assert_eq!(world.len(), 4);
    let rec = world.hit(&ray, s(0.0), s(f64::MAX)).unwrap();
    assert_eq!(rec.t.to_bits(), 3.0f64.to_bits());
    assert_eq!(rec.material.albedo(), v(0.2, 0.2, 0.2));
    // an interval that leaves out the nearest sphere
    let rec = world.hit(&ray, s(5.5), s(f64::MAX)).unwrap();
    assert_eq!(rec.t.to_bits(), 6.0f64.to_bits());
    // a hit exactly at the end of the interval counts
    let rec = world.hit(&ray, s(0.0), s(3.0)).unwrap();
    assert_eq!(rec.t.to_bits(), 3.0f64.to_bits());
    assert!(world.hit(&ray, s(0.0), s(2.9)).is_none());
}

#[test]
fn list_of_lists_is_searched_in_order() {
    let ray = Ray::new(v(0.0, 0.0, 0.0), v(0.0, 0.0, -1.0));
    let mut near = HittableList::new();
    near.add(Sphere::new(v(0.0, 0.0, -4.0), s(1.0), diffuse(0.2, 0.2, 0.2)));
    let mut far = HittableList::new();
    far.add(Sphere::new(v(0.0, 0.0, -10.0), s(1.0), diffuse(0.1, 0.1, 0.1)));
    far.add(Sphere::new(v(0.0, 0.0, -4.0), s(1.0), mirror(0.9, 0.9, 0.9)));
    let mut world = HittableList::new();
    world.add(far);
    world.add(near);
    // both lists are hit at the same distance: the one added first stays
    let rec = world.hit(&ray, s(0.0), s(f64::MAX)).unwrap();
    assert_eq!(rec.t.to_bits(), 3.0f64.to_bits());
    assert!(matches!(rec.material, Material::Metal { .. }));
}

#[test]
fn sphere_needs_a_radius_above_zero() {
    let m = diffuse(0.5, 0.5, 0.5);
    assert!(Sphere::try_new(v(0.0, 0.0, 0.0), s(0.0), m).is_none());
    assert!(Sphere::try_new(v(0.0, 0.0, 0.0), s(-1.0), m).is_none());
    assert!(Sphere::try_new(v(0.0, 0.0, 0.0), s(f64::NAN), m).is_none());
    let sphere = Sphere::try_new(v(1.0, 2.0, 3.0), s(0.5), m).unwrap();
    assert_eq!(sphere.center(), v(1.0, 2.0, 3.0));
    assert_eq!(sphere.radius(), s(0.5));
}

#[test]
fn empty_record_is_all_zero() {
    let rec = HitRecord::empty();
    assert_eq!(bits(rec.p), [0, 0, 0]);
    assert_eq!(bits(rec.normal), [0, 0, 0]);
    assert_eq!(rec.t.to_bits(), 0);
    assert!(rec.front_face);
    assert!(matches!(rec.material, Material::Lambertian { albedo } if bits(albedo) == [0, 0, 0]));
}

#[test]
fn record_normal_faces_the_ray() {
    let ray = Ray::new(v(0.0, 0.0, 0.0), v(0.0, 0.0, -1.0));
    let m = diffuse(0.5, 0.5, 0.5);
    let front = HitRecord::new(v(0.0, 0.0, -1.0), v(0.0, 0.0, 1.0), s(1.0), &ray, m);
    assert!(front.front_face);
    assert_eq!(bits(front.normal), bits(v(0.0, 0.0, 1.0)));
    let back = HitRecord::new(v(0.0, 0.0, -1.0), v(0.0, 0.0, -1.0), s(1.0), &ray, m);
    assert!(!back.front_face);
    assert_eq!(back.normal, v(0.0, 0.0, 1.0));
    assert_eq!(bits(back.normal), bits(v(-0.0, -0.0, 1.0)));
}

#[test]
fn lambertian_never_absorbs() {
    let mut rng = rand::thread_rng();
    let mut g = Gen(0xbb67_ae85_84ca_a73b);
    for _ in 0..10_000 {
        let albedo = v(g.signed(1.0).abs(), g.signed(1.0).abs(), g.signed(1.0).abs());
        let material = Material::Lambertian { albedo };
        let n = v(g.signed(1.0), g.signed(1.0), g.signed(1.0));
        if !n.is_normalizable() {
            continue;
        }
        let ray = Ray::new(v(g.signed(3.0), g.signed(3.0), g.signed(3.0)), v(g.signed(1.0), g.signed(1.0), 1.5));
        let p = v(g.signed(3.0), g.signed(3.0), g.signed(3.0));
        let rec = HitRecord::new(p, n.unit_vector(), s(1.0), &ray, material);
        let mut attenuation = v(7.0, 7.0, 7.0);
        let mut scattered = Ray::new(v(0.0, 0.0, 0.0), v(0.0, 0.0, 0.0));
        assert!(material.scatter(&ray, &rec, &mut attenuation, &mut scattered, &mut rng));
        assert_eq!(bits(attenuation), bits(albedo));
        assert_eq!(bits(scattered.origin), bits(p));
        assert!(scattered.is_well_formed());
        assert!(!scattered.direction.near_zero());
        // normal plus a unit vector
        assert!(f(scattered.direction.minus(rec.normal).length()) < 1.0 + 1e-12);
    }
}

#[test]
fn lambertian_falls_back_to_the_normal() {
    let material = diffuse(0.3, 0.6, 0.9);
    let ray = Ray::new(v(0.0, 0.0, 0.0), v(0.0, 0.0, -1.0));
    let rec = HitRecord::new(v(0.0, 0.0, -1.0), v(0.0, 0.0, 1.0), s(1.0), &ray, material);
    // a sample that cancels the normal
    let (_, out) = material.scatter_with(&ray, &rec, Some(v(0.0, 0.0, -1.0))).unwrap();
    assert_eq!(bits(out.direction), bits(rec.normal));
    let (_, out) = material.scatter_with(&ray, &rec, Some(v(1e-9, 0.0, -1.0))).unwrap();
    assert_eq!(bits(out.direction), bits(rec.normal));
    // no sample at all
    let (_, out) = material.scatter_with(&ray, &rec, None).unwrap();
    assert_eq!(bits(out.direction), bits(rec.normal));
    // an ordinary sample
    let (c, out) = material.scatter_with(&ray, &rec, Some(v(0.6, 0.0, 0.8))).unwrap();
    assert_eq!(bits(out.direction), fbits([0.0 + 0.6, 0.0 + 0.0, 1.0 + 0.8]));
    assert_eq!(bits(c), bits(v(0.3, 0.6, 0.9)));
}

#[test]
fn metal_absorbs_below_the_surface() {
    let material = mirror(0.8, 0.6, 0.2);
    let mut rng = rand::thread_rng();
    let mut attenuation = v(7.0, 7.0, 7.0);
    let mut scattered = Ray::new(v(9.0, 9.0, 9.0), v(9.0, 9.0, 9.0));
    // the record's normal points along the ray: the mirror image points into the surface
    let leaving = Ray::new(v(0.0, -1.0, 0.0), v(0.0, 1.0, 0.0));
    let rec = HitRecord {
        p: v(0.0, 0.0, 0.0),
        normal: v(0.0, 1.0, 0.0),
        t: s(1.0),
        front_face: true,
        material,
    };
    assert!(!material.scatter(&leaving, &rec, &mut attenuation, &mut scattered, &mut rng));
    assert_eq!(bits(attenuation), bits(v(7.0, 7.0, 7.0)));
    assert_eq!(bits(scattered.direction), bits(v(9.0, 9.0, 9.0)));
    assert!(material.scatter_with(&leaving, &rec, None).is_none());
    // grazing: the reflected direction lies in the surface
    let grazing = Ray::new(v(-1.0, 0.0, 0.0), v(1.0, 0.0, 0.0));
    assert!(material.scatter_with(&grazing, &rec, None).is_none());
    // arriving from above
    let arriving = Ray::new(v(-3.0, 4.0, 0.0), v(3.0, -4.0, 0.0));
    assert!(material.scatter(&arriving, &rec, &mut attenuation, &mut scattered, &mut rng));
    assert_eq!(bits(attenuation), bits(v(0.8, 0.6, 0.2)));
    assert_eq!(bits(scattered.origin), bits(rec.p));
    let unit = [3.0 / 5.0, -4.0 / 5.0, 0.0 / 5.0];
    let k = 2.0 * dot3(unit, [0.0, 1.0, 0.0]);
    assert_eq!(bits(scattered.direction), fbits([unit[0] - 0.0 * k, unit[1] - 1.0 * k, unit[2] - 0.0 * k]));
}

#[test]
fn metal_absorbs_exactly_when_the_reflection_does_not_leave() {
    let material = mirror(0.5, 0.5, 0.5);
    let mut g = Gen(0x3c6e_f372_fe94_f82b);
    let (mut kept, mut lost) = (0, 0);
    for _ in 0..10_000 {
        let n = v(g.signed(1.0), g.signed(1.0), g.signed(1.0)).unit_vector();
        let ray = Ray::new(v(0.0, 0.0, 0.0), v(g.signed(2.0), g.signed(2.0), g.signed(2.0)));
        let rec = HitRecord { p: v(1.0, 1.0, 1.0), normal: n, t: s(1.0), front_face: true, material };
        let reflected = ray.direction.unit_vector().reflect(n);
        let leaves = reflected.dot(n).gt(s(0.0));
        match material.scatter_with(&ray, &rec, None) {
            Some((c, out)) => {
                kept += 1;
                assert!(leaves);
                assert_eq!(bits(out.direction), bits(reflected));
                assert_eq!(bits(c), bits(v(0.5, 0.5, 0.5)));
            }
            None => {
                lost += 1;
                assert!(reflected.dot(n).le(s(0.0)));
            }
        }
    }
    assert!(kept > 1000 && lost > 1000);
}

#[test]
fn no_depth_left_gives_black() {
    let mut rng = rand::thread_rng();
    let mut world = HittableList::new();
    world.add(Sphere::new(v(0.0, 0.0, -1.0), s(0.5), diffuse(0.7, 0.3, 0.3)));
    let empty = HittableList::<Sphere>::new();
    for ray in [
        Ray::new(v(0.0, 0.0, 0.0), v(0.0, 0.0, -1.0)),
        Ray::new(v(0.0, 0.0, 0.0), v(0.0, 1.0, 0.0)),
        Ray::new(v(1.0, 2.0, 3.0), v(0.0, 0.0, 0.0)),
        Ray::new(v(f64::NAN, 0.0, 0.0), v(f64::INFINITY, 0.0, 0.0)),
    ] {
        assert_eq!(bits(ray_color(ray, &world, &mut rng, 0)), [0, 0, 0]);
        assert_eq!(bits(ray_color(ray, &empty, &mut rng, 0)), [0, 0, 0]);
        assert_eq!(bits(ray_color_with(ray, &world, &vec![], 0)), [0, 0, 0]);
    }
}

#[test]
fn a_ray_without_direction_gives_black() {
    let mut rng = rand::thread_rng();
    let mut world = HittableList::new();
    world.add(Sphere::new(v(0.0, 0.0, -1.0), s(0.5), mirror(0.7, 0.3, 0.3)));
    let empty = HittableList::<Sphere>::new();
    for d in [[0.0, 0.0, 0.0], [-0.0, 0.0, 0.0], [1e-200, -1e-200, 1e-200]] {
        let ray = Ray::new(v(0.0, 0.0, 0.0), v(d[0], d[1], d[2]));
        assert!(!ray.is_well_formed());
        assert_eq!(bits(ray_color(ray, &world, &mut rng, 5)), [0, 0, 0]);
        assert_eq!(bits(ray_color(ray, &empty, &mut rng, 5)), [0, 0, 0]);
        assert_eq!(bits(ray_color_with(ray, &empty, &vec![0; 15], 5)), [0, 0, 0]);
    }
}

#[test]
fn metal_keeps_a_reflection_however_short() {
    // the reflected direction is as short as the normal asks for: no test of its length
    let material = mirror(0.5, 0.5, 0.5);
    let ray = Ray::new(v(0.0, 1.0, 0.0), v(0.0, -1.0, 0.0));
    let rec = HitRecord { p: v(0.0, 0.0, 0.0), normal: v(0.0, 0.75, 0.0), t: s(1.0), front_face: true, material };
    let (_, out) = material.scatter_with(&ray, &rec, None).unwrap();
    // (0, -1, 0) - 2 * (-0.75) * (0, 0.75, 0)
    assert_eq!(out.direction, v(0.0, 0.125, 0.0));
}

#[test]
fn a_miss_gives_the_background() {
    let mut rng = rand::thread_rng();
    let empty = HittableList::<Sphere>::new();
    let up = Ray::new(v(0.0, 0.0, 0.0), v(0.0, 1.0, 0.0));
    assert_eq!(bits(ray_color(up, &empty, &mut rng, 5)), bits(v(0.5, 0.7, 1.0)));
    let up = Ray::new(v(3.0, -2.0, 1.0), v(0.0, 25.0, 0.0));
    assert_eq!(bits(ray_color(up, &empty, &mut rng, 1)), bits(v(0.5, 0.7, 1.0)));
    let down = Ray::new(v(0.0, 0.0, 0.0), v(0.0, -1.0, 0.0));
    assert_eq!(bits(ray_color(down, &empty, &mut rng, 5)), bits(v(1.0, 1.0, 1.0)));
    let level = Ray::new(v(0.0, 0.0, 0.0), v(1.0, 0.0, 0.0));
    assert_eq!(bits(ray_color(level, &empty, &mut rng, 5)), bits(v(0.75, 0.85, 1.0)));

    // aimed away from the only sphere
    let mut world = HittableList::new();
    world.add(Sphere::new(v(0.0, 0.0, -1.0), s(0.5), diffuse(0.7, 0.3, 0.3)));
    let mut g = Gen(0xa54f_f53a_5f1d_36f1);
    for _ in 0..2_000 {
        let d = [g.signed(1.0), g.signed(1.0), g.signed(1.0).abs() + 0.01];
        let ray = Ray::new(v(0.0, 0.0, 0.0), v(d[0], d[1], d[2]));
        assert_eq!(bits(ray_color(ray, &world, &mut rng, 50)), fbits(sky(d)));
        assert_eq!(bits(ray_color_with(ray, &world, &vec![0; 150], 50)), fbits(sky(d)));
    }
}

/// The color of a ray in a world of mirrors, on the machine's doubles.
fn mirror_world(spheres: &[([f64; 3], f64, [f64; 3])], o: [f64; 3], d: [f64; 3], depth: u8) -> [f64; 3] {
    if depth == 0 || len3(d) == 0.0 {
        return [0.0, 0.0, 0.0];
    }
    let mut best: Option<(Found, [f64; 3])> = None;
    let mut closest = f64::MAX;
    for (c, radius, albedo) in spheres {
        if let Some(h) = sphere_hit(*c, *radius, o, d, 0.0, closest) {
            if best.is_none() || h.t < closest {
                closest = h.t;
                best = Some((h, *albedo));
            }
        }
    }
    match best {
        None => sky(d),
        Some((h, albedo)) => {
            let l = len3(d);
            let unit = [d[0] / l, d[1] / l, d[2] / l];
            let k = 2.0 * dot3(unit, h.normal);
            let out = [unit[0] - h.normal[0] * k, unit[1] - h.normal[1] * k, unit[2] - h.normal[2] * k];
            if dot3(out, h.normal) > 0.0 {
                let rest = mirror_world(spheres, h.p, out, depth - 1);
                [albedo[0] * rest[0], albedo[1] * rest[1], albedo[2] * rest[2]]
            } else {
                [0.0, 0.0, 0.0]
            }
        }
    }
}

#[test]
fn mirrors_are_traced_as_by_hand() {
    let spheres = [
        ([0.0, -100.5, -1.0], 100.0, [0.8, 0.6, 0.2]),
        ([0.0, 0.0, -1.0], 0.5, [0.9, 0.9, 0.9]),
        ([-1.0, 0.0, -1.0], 0.5, [0.8, 0.8, 0.8]),
        ([1.0, 0.0, -1.0], 0.5, [0.7, 0.6, 0.5]),
    ];
    let mut world = HittableList::new();
    for (c, radius, albedo) in spheres {
        world.add(Sphere::new(v(c[0], c[1], c[2]), s(radius), mirror(albedo[0], albedo[1], albedo[2])));
    }
    let mut rng = rand::thread_rng();
    let mut g = Gen(0x510e_527f_ade6_82d1);
    let mut lit = 0;
    for i in 0..1_500 {
        let d = [g.signed(1.7), g.signed(1.0), -1.0];
        let ray = Ray::new(v(0.0, 0.0, 0.0), v(d[0], d[1], d[2]));
        let depth = if i % 3 == 0 { 1 } else { 12 };
        let want = mirror_world(&spheres, [0.0; 3], d, depth);
        if want != sky(d) && want != [0.0; 3] {
            lit += 1;
        }
        assert_eq!(bits(ray_color(ray, &world, &mut rng, depth)), fbits(want));
        assert_eq!(bits(ray_color_with(ray, &world, &vec![0; 36], depth)), fbits(want));
    }
    assert!(lit > 100);
}

#[test]
fn diffuse_bounce_uses_the_draws_given() {
    let mut world = HittableList::new();
    world.add(Sphere::new(v(0.0, 0.0, -1.0), s(0.5), diffuse(0.7, 0.3, 0.3)));
    let ray = Ray::new(v(0.0, 0.0, 0.0), v(0.0, 0.0, -1.0));
    let mut g = Gen(0x9b05_688c_2b3e_6c1f);
    for _ in 0..200 {
        let draws = vec![g.next(), g.next(), g.next(), g.next(), g.next(), g.next()];
        // two bounces left: the first uses the last three draws
        let sample = Vec3::unit_vector_from(draws[3], draws[4], draws[5]).unwrap();
        let rec = world.hit(&ray, s(0.0), s(f64::MAX)).unwrap();
        let (albedo, out) = rec.material.scatter_with(&ray, &rec, Some(sample)).unwrap();
        assert_eq!(bits(out.direction), bits(rec.normal.plus(sample)));
        let rest = ray_color_with(out, &world, &draws, 1);
        let got = ray_color_with(ray, &world, &draws, 2);
        assert_eq!(bits(got), bits(albedo.times(rest)));
        // the scattered ray starts on the sphere and may hit it again; either way it is no NaN
        assert!(f(got.x) >= 0.0 && f(got.x) <= 0.7);
    }
}

#[test]
fn traced_colors_stay_in_range() {
    let mut world = HittableList::new();
    world.add(Sphere::new(v(0.0, -100.5, -1.0), s(100.0), diffuse(0.8, 0.8, 0.0)));
    world.add(Sphere::new(v(0.0, 0.0, -1.0), s(0.5), diffuse(0.7, 0.3, 0.3)));
    world.add(Sphere::new(v(-1.0, 0.0, -1.0), s(0.5), mirror(0.8, 0.8, 0.8)));
    world.add(Sphere::new(v(1.0, 0.0, -1.0), s(0.5), mirror(0.8, 0.6, 0.2)));
    let mut rng = rand::thread_rng();
    let mut g = Gen(0x1f83_d9ab_fb41_bd6b);
    for _ in 0..300 {
        let ray = Ray::new(v(0.0, 0.0, 0.0), v(g.signed(1.7), g.signed(1.0), -1.0));
        let c = ray_color(ray, &world, &mut rng, 50);
        for x in [f(c.x), f(c.y), f(c.z)] {
            assert!((0.0..=1.0).contains(&x));
        }
    }
}

#[test]
fn ray_at_start_and_after_one_step() {
    let mut g = Gen(0x5be0_cd19_137e_2179);
    for _ in 0..5_000 {
        let o = [g.signed(1e3), g.signed(1e-3), g.signed(1.0)];
        let d = [g.signed(1.0), g.signed(1e6), g.signed(1e-9)];
        let ray = Ray::new(v(o[0], o[1], o[2]), v(d[0], d[1], d[2]));
        assert_eq!(ray.at(s(0.0)), ray.origin);
        assert_eq!(ray.at(s(1.0)), ray.origin + ray.direction);
        assert_eq!(bits(ray.at(s(1.0))), fbits([o[0] + d[0], o[1] + d[1], o[2] + d[2]]));
        let t = g.signed(50.0);
        assert_eq!(bits(ray.at(s(t))), fbits([o[0] + d[0] * t, o[1] + d[1] * t, o[2] + d[2] * t]));
    }
    let ray = Ray::new(v(-0.0, 0.0, 5.0), v(1.0, -1.0, 0.0));
    assert_eq!(ray.at(s(0.0)), ray.origin);
    assert_eq!(ray.at(s(-0.0)), ray.origin);
}

#[test]
fn clamp_holds_between_the_bounds() {
    assert_eq!(clamp(s(0.5), s(0.0), s(0.999)).to_bits(), 0.5f64.to_bits());
    assert_eq!(clamp(s(-0.5), s(0.0), s(0.999)).to_bits(), 0.0f64.to_bits());
    assert_eq!(clamp(s(1.5), s(0.0), s(0.999)).to_bits(), 0.999f64.to_bits());
    assert_eq!(clamp(s(0.999), s(0.0), s(0.999)).to_bits(), 0.999f64.to_bits());
    assert!(f(clamp(s(f64::NAN), s(0.0), s(0.999))).is_nan());
}

#[test]
fn pixel_bytes_apply_the_gamma() {
    fn byte(sum: f64, samples: u8) -> u8 {
        let scale = 1.0 / samples as f64;
        let x = (sum * scale).sqrt();
        let x = if x < 0.0 { 0.0 } else if x > 0.999 { 0.999 } else { x };
        (x * 256.0).floor() as u8
    }
    assert_eq!(write_color(&v(0.0, 100.0, 25.0), 100), [0, 255, 128]);
    assert_eq!(write_color(&v(1.0, 0.25, 0.0625), 1), [255, 128, 64]);
    let mut g = Gen(0xcbbb_9d5d_c105_9ed8);
    for i in 0..5_000 {
        let samples = (g.next() % 255) as u8 + 1;
        let c = [g.signed(1.0).abs() * samples as f64, g.signed(1.5) * samples as f64, i as f64 / 50.0];
        assert_eq!(
            write_color(&v(c[0], c[1], c[2]), samples),
            [byte(c[0], samples), byte(c[1], samples), byte(c[2], samples)]
        );
    }
}

#[test]
fn random_vectors_lie_where_they_should() {
    let mut rng = rand::thread_rng();
    for _ in 0..20_000 {
        let a = Vec3::random(&mut rng);
        for x in [f(a.x), f(a.y), f(a.z)] {
            assert!((0.0..1.0).contains(&x));
        }
        let b = Vec3::random_in_unit_sphere(&mut rng);
        assert!(f(b.length()) <= 1.0 + 1e-12);
        let c = Vec3::random_unit_vector(&mut rng).unwrap();
        assert!((f(c.length()) - 1.0).abs() < 1e-12);
    }
}

#[test]
fn unit_ball_point_follows_the_formula() {
    let mut g = Gen(0x629a_292a_367c_d507);
    let unit = |x: u64| (x >> 11) as f64 * (1.0 / (1u64 << 53) as f64);
    for _ in 0..20_000 {
        let (a, b, c) = (g.next(), g.next(), g.next());
        let (u, w, o) = (unit(a), unit(b), unit(c));
        assert_eq!(bits(Vec3::uniform_from(a, b, c)), fbits([u, w, o]));
        let r = o.cbrt();
        let z = r * (-2.0 * u + 1.0);
        let x = r * (1.0 - z * z).sqrt() * (2.0 * std::f64::consts::PI * w).cos();
        let y = r * (1.0 - z * z).sqrt() * (2.0 * std::f64::consts::PI * w).sin();
        let p = Vec3::in_unit_sphere_from(a, b, c);
        assert!((f(p.x) - x).abs() < 1e-14 && (f(p.y) - y).abs() < 1e-14 && (f(p.z) - z).abs() < 1e-14);
        let n = Vec3::unit_vector_from(a, b, c).unwrap();
        assert_eq!(bits(n), bits(p.unit_vector()));
    }
    // a radius of zero: the point is the origin and has no direction
    assert_eq!(bits(Vec3::in_unit_sphere_from(5, 7, 0)), [0, 0, 0]);
    assert!(Vec3::unit_vector_from(5 << 11, 7 << 11, 2047).is_none());
}
