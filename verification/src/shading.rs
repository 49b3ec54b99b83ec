//! The color that a ray brings back from a scene.
use crate::hittable::{HitRecord, Hittable};
use crate::material::Material;
use crate::ray::Ray;
use crate::scalar::{Scalar, MAX_FINITE_BITS};
use crate::vec3::{Color, Vec3};
use rand::rngs::ThreadRng;
use vstd::prelude::*;

verus! {

/// No light.
pub open spec fn black() -> Color {
    Vec3 { x: Scalar { bits: 0 }, y: Scalar { bits: 0 }, z: Scalar { bits: 0 } }
}

/// `(1, 1, 1)`
pub open spec fn white() -> Color {
    let one = Scalar { bits: 0x3ff0_0000_0000_0000 };
    Vec3 { x: one, y: one, z: one }
}

/// `(0.5, 0.7, 1.0)`
pub open spec fn sky_blue() -> Color {
    Vec3 {
        x: Scalar { bits: 0x3fe0_0000_0000_0000 },
        y: Scalar { bits: 0x3fe6_6666_6666_6666 },
        z: Scalar { bits: 0x3ff0_0000_0000_0000 },
    }
}

/// The color of the sky in the direction of the ray: with `t` half of one
/// plus the height of the unit direction, `(1 - t) * white + t * sky_blue`.
pub open spec fn background(ray: Ray) -> Color {
    let one = Scalar { bits: 0x3ff0_0000_0000_0000 };
    let t = Scalar { bits: 0x3fe0_0000_0000_0000 }.mul_spec(
        ray.direction.unit_spec().y.add_spec(one),
    );
    white().scaled(one.sub_spec(t)).plus_spec(sky_blue().scaled(t))
}

/// The random unit vector of the bounce with `depth` bounces left: the
/// three draws that stand before position `3 * depth`.
pub open spec fn sample_at(draws: Seq<u64>, depth: nat) -> Option<Vec3> {
    Vec3::unit_sample_spec(draws[3 * depth - 3], draws[3 * depth - 2], draws[3 * depth - 1])
}

/// The color that `ray` brings back with `depth` bounces left and the
/// given random draws: black with no bounce left, and for a ray without a
/// direction; the background where nothing is hit; black where the surface
/// absorbs; else the attenuation times the color brought back by the
/// scattered ray.
pub open spec fn color_spec<T: Hittable>(ray: Ray, world: &T, draws: Seq<u64>, depth: nat) -> Color
    decreases depth,
{
    if depth == 0 || !ray.well_formed() {
        black()
    } else {
        match world.hit_spec(&ray, Scalar { bits: 0 }, Scalar { bits: MAX_FINITE_BITS }) {
            None => background(ray),
            Some(rec) => match rec.material.scatter_spec(ray, rec, sample_at(draws, depth)) {
                None => black(),
                Some(pair) => pair.0.times_spec(
                    color_spec(pair.1, world, draws, (depth - 1) as nat),
                ),
            },
        }
    }
}

/// `x` held between `min` and `max`.
pub open spec fn clamp_spec(x: Scalar, min: Scalar, max: Scalar) -> Scalar {
    if x.lt_spec(min) {
        min
    } else if max.lt_spec(x) {
        max
    } else {
        x
    }
}

/// The byte of one channel of a pixel: the mean over the samples, its
/// square root for the gamma of two, held in `[0, 0.999]`, times `256`,
/// its whole part.
pub open spec fn channel_spec(sum: Scalar, scale: Scalar) -> u8 {
    clamp_spec(
        sum.mul_spec(scale).sqrt_spec(),
        Scalar { bits: 0 },
        Scalar { bits: 0x3fef_f7ce_d916_872b },
    ).mul_spec(Scalar { bits: 0x4070_0000_0000_0000 }).floor_u8_spec()
}

/// One over the number of samples.
pub open spec fn sample_scale(samples_per_pixel: u8) -> Scalar {
    Scalar { bits: 0x3ff0_0000_0000_0000 }.div_spec(Scalar::from_u8_spec(samples_per_pixel))
}

/// The color depends only on the draws of the bounces that are left.
pub proof fn lemma_color_depends_on_prefix<T: Hittable>(
    ray: Ray,
    world: &T,
    first: Seq<u64>,
    second: Seq<u64>,
    depth: nat,
)
    requires
        first.len() >= 3 * depth,
        second.len() >= 3 * depth,
        forall|i: int| 0 <= i < 3 * depth ==> first[i] == second[i],
    ensures
        color_spec(ray, world, first, depth) == color_spec(ray, world, second, depth),
    decreases depth,
{
    if depth > 0 {
        match world.hit_spec(&ray, Scalar { bits: 0 }, Scalar { bits: MAX_FINITE_BITS }) {
            None => {},
            Some(rec) => {
                assert(sample_at(first, depth) == sample_at(second, depth));
                match rec.material.scatter_spec(ray, rec, sample_at(first, depth)) {
                    None => {},
                    Some(pair) => {
                        lemma_color_depends_on_prefix(
                            pair.1,
                            world,
                            first,
                            second,
                            (depth - 1) as nat,
                        );
                    },
                }
            },
        }
    }
}

/// The draws of one more bounce, put behind those of the bounces that
/// follow it.
pub open spec fn with_bounce(tail: Seq<u64>, a: u64, b: u64, c: u64) -> Seq<u64> {
    tail + seq![a, b, c]
}

/// What a hit contributes: with the draws `a`, `b`, `c` for this bounce and
/// `tail` for those that follow, the color is black where the surface
/// absorbs, and else the attenuation times the color of the scattered ray.
pub proof fn lemma_color_of_hit<T: Hittable>(
    ray: Ray,
    world: &T,
    rec: HitRecord,
    tail: Seq<u64>,
    a: u64,
    b: u64,
    c: u64,
    depth: nat,
)
    requires
        depth > 0,
        ray.well_formed(),
        tail.len() == 3 * (depth - 1),
        world.hit_spec(&ray, Scalar { bits: 0 }, Scalar { bits: MAX_FINITE_BITS }) == Some(rec),
    ensures
        with_bounce(tail, a, b, c).len() == 3 * depth,
        color_spec(ray, world, with_bounce(tail, a, b, c), depth) == (match rec.material.scatter_spec(
            ray,
            rec,
            Vec3::unit_sample_spec(a, b, c),
        ) {
            None => black(),
            Some(pair) => pair.0.times_spec(color_spec(pair.1, world, tail, (depth - 1) as nat)),
        }),
{
    let all = with_bounce(tail, a, b, c);
    assert(all[3 * depth - 3] == a && all[3 * depth - 2] == b && all[3 * depth - 1] == c);
    assert(sample_at(all, depth) == Vec3::unit_sample_spec(a, b, c));
    match rec.material.scatter_spec(ray, rec, Vec3::unit_sample_spec(a, b, c)) {
        None => {},
        Some(pair) => {
            lemma_color_depends_on_prefix(pair.1, world, tail, all, (depth - 1) as nat);
        },
    }
}

/// With no bounce left every ray brings back black, and a ray that has a
/// direction and hits nothing brings back the background, whatever the
/// draws.
pub proof fn lemma_color_without_hit<T: Hittable>(ray: Ray, world: &T, draws: Seq<u64>, depth: nat)
    ensures
        depth == 0 ==> color_spec(ray, world, draws, depth) == black(),
        depth > 0 && !ray.well_formed() ==> color_spec(ray, world, draws, depth) == black(),
        depth > 0 && ray.well_formed() && world.hit_spec(
            &ray,
            Scalar { bits: 0 },
            Scalar { bits: MAX_FINITE_BITS },
        ) is None ==> color_spec(ray, world, draws, depth) == background(ray),
{
}

pub fn clamp(x: Scalar, min: Scalar, max: Scalar) -> (r: Scalar)
    ensures
        r == clamp_spec(x, min, max),
{
    if x.lt(min) {
        return min;
    }
    if x.gt(max) {
        return max;
    }
    return x;
}

fn channel(sum: Scalar, scale: Scalar) -> (r: u8)
    ensures
        r == channel_spec(sum, scale),
{
    clamp(
        sum.mul(scale).sqrt(),
        Scalar::zero(),
        Scalar::from_bits(0x3fef_f7ce_d916_872b),
    ).mul(Scalar::from_bits(0x4070_0000_0000_0000)).floor_u8()
}

/// The bytes of a pixel whose color was summed over `samples_per_pixel`
/// samples.
pub fn write_color(color: &Color, samples_per_pixel: u8) -> (rgb: [u8; 3])
    ensures
        rgb[0] == channel_spec(color.x, sample_scale(samples_per_pixel)),
        rgb[1] == channel_spec(color.y, sample_scale(samples_per_pixel)),
        rgb[2] == channel_spec(color.z, sample_scale(samples_per_pixel)),
{
    let scale: Scalar = Scalar::one().div(Scalar::from_u8(samples_per_pixel));
    let r: u8 = channel(color.x, scale);
    let g: u8 = channel(color.y, scale);
    let b: u8 = channel(color.z, scale);
    [r, g, b]
}

/// The color of the sky in the direction of a ray that hit nothing.
pub fn background_color(ray: &Ray) -> (c: Color)
    requires
        ray.well_formed(),
    ensures
        c == background(*ray),
{
    let unit_direction: Vec3 = ray.direction.unit_vector();
    let t: Scalar = Scalar::half().mul(unit_direction.y.add(Scalar::one()));
    Color::one().mul(Scalar::one().sub(t)).plus(
        Color::new(
            Scalar::half(),
            Scalar::from_bits(0x3fe6_6666_6666_6666),
            Scalar::one(),
        ).mul(t),
    )
}

/// The color that `ray` brings back, with the random draws given: the
/// bounce with `d` bounces left uses the three draws before position
/// `3 * d`.
pub fn ray_color_with<T: Hittable>(ray: Ray, world: &T, draws: &Vec<u64>, depth: u8) -> (c: Color)
    requires
        draws.len() >= 3 * depth,
    ensures
        c == color_spec(ray, world, draws@, depth as nat),
    decreases depth,
{
    if depth == 0 || !ray.is_well_formed() {
        return Color::new(Scalar::zero(), Scalar::zero(), Scalar::zero());
    }
    match world.hit(&ray, Scalar::zero(), Scalar::max_value()) {
        Some(rec) => {
            let at: usize = 3 * (depth as usize);
            let sample: Option<Vec3> = Vec3::unit_vector_from(
                draws[at - 3],
                draws[at - 2],
                draws[at - 1],
            );
            match rec.material.scatter_with(&ray, &rec, sample) {
                Some(pair) => pair.0.times(ray_color_with(pair.1, world, draws, depth - 1)),
                None => Color::new(Scalar::zero(), Scalar::zero(), Scalar::zero()),
            }
        },
        None => background_color(&ray),
    }
}

/// The color that `ray` brings back from `world` with at most `depth`
/// bounces, for some sequence of random draws.
pub fn ray_color<T: Hittable>(ray: Ray, world: &T, rng: &mut ThreadRng, depth: u8) -> (c: Color)
    ensures
        exists|draws: Seq<u64>|
            draws.len() == 3 * depth && c == #[trigger] color_spec(ray, world, draws, depth as nat),
        depth == 0 ==> c == black(),
        depth > 0 && ray.well_formed() && world.hit_spec(
            &ray,
            Scalar { bits: 0 },
            Scalar { bits: MAX_FINITE_BITS },
        ) is None ==> c == background(ray),
    decreases depth,
{
    let ghost zeros = Seq::new(3 * depth as nat, |i: int| 0u64);
    proof {
        lemma_color_without_hit(ray, world, zeros, depth as nat);
    }
    if depth == 0 || !ray.is_well_formed() {
        return Color::new(Scalar::zero(), Scalar::zero(), Scalar::zero());
    }
    match world.hit(&ray, Scalar::zero(), Scalar::max_value()) {
        Some(rec) => {
            let mut scattered: Ray = Ray::new(
                Vec3::new(Scalar::zero(), Scalar::zero(), Scalar::zero()),
                Vec3::new(Scalar::zero(), Scalar::zero(), Scalar::zero()),
            );
            let mut attenuation: Color = Color::new(Scalar::zero(), Scalar::zero(), Scalar::zero());
            let ghost before = (attenuation, scattered);
            let sent_on: bool = rec.material.scatter(
                &ray,
                &rec,
                &mut attenuation,
                &mut scattered,
                rng,
            );
            let ghost (a, b, c) = choose|a: u64, b: u64, c: u64|
                rec.material.scatter_outcome(
                    ray,
                    rec,
                    #[trigger] Vec3::unit_sample_spec(a, b, c),
                    sent_on,
                    before,
                    (attenuation, scattered),
                );
            if sent_on {
                let rest: Color = ray_color(scattered, world, rng, depth - 1);
                proof {
                    let tail = choose|draws: Seq<u64>|
                        draws.len() == 3 * (depth - 1) && rest == #[trigger] color_spec(
                            scattered,
                            world,
                            draws,
                            (depth - 1) as nat,
                        );
                    lemma_color_of_hit(ray, world, rec, tail, a, b, c, depth as nat);
                }
                return attenuation.times(rest);
            }
            proof {
                let tail = Seq::new(3 * (depth - 1) as nat, |i: int| 0u64);
                lemma_color_of_hit(ray, world, rec, tail, a, b, c, depth as nat);
            }
            return Color::new(Scalar::zero(), Scalar::zero(), Scalar::zero());
        },
        None => {
            return background_color(&ray);
        },
    }
}

} // verus!
