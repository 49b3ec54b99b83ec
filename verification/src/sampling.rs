//! Random vectors.
//!
//! The random bits come from the thread's generator of the `rand` crate.
//! Everything that is computed from them is a function of the bits drawn, so
//! each sampler has a twin that takes the bits as arguments.
use crate::scalar::Scalar;
use crate::vec3::Vec3;
use rand::rngs::ThreadRng;
use vstd::prelude::*;

verus! {

/// `rand::rngs::ThreadRng`, the generator of the thread. It is only handed
/// on to [`draw`]; nothing is known of what it holds.
#[verifier::external_type_specification]
#[verifier::external_body]
pub struct ExThreadRng(rand::rngs::ThreadRng);

/// `rand::Rng::gen::<u64>` on the thread's generator: sixty-four random
/// bits. Nothing is claimed of them.
#[verifier::external_body]
fn draw(rng: &mut ThreadRng) -> (bits: u64) {
    rand::Rng::gen::<u64>(rng)
}

impl Vec3 {
    /// The vector whose components are the scalars in `[0, 1)` made of the
    /// three draws.
    pub open spec fn uniform_spec(a: u64, b: u64, c: u64) -> Vec3 {
        Vec3 {
            x: Scalar::unit_interval_spec(a),
            y: Scalar::unit_interval_spec(b),
            z: Scalar::unit_interval_spec(c),
        }
    }

    /// The point of the unit ball that belongs to the three draws: with
    /// `u`, `v`, `o` the scalars in `[0, 1)` made of them, `r` the cube root
    /// of `o` and `z = r * (1 - 2u)`, it is
    /// `(r * sqrt(1 - z^2) * cos(2 pi v), r * sqrt(1 - z^2) * sin(2 pi v), z)`.
    pub open spec fn ball_spec(a: u64, b: u64, c: u64) -> Vec3 {
        let one = Scalar { bits: 0x3ff0_0000_0000_0000 };
        let u = Scalar::unit_interval_spec(a);
        let v = Scalar::unit_interval_spec(b);
        let o = Scalar::unit_interval_spec(c);
        let r = o.cbrt_spec();
        let z = r.mul_spec(Scalar { bits: 0xc000_0000_0000_0000 }.mul_spec(u).add_spec(one));
        let ring = r.mul_spec(one.sub_spec(z.mul_spec(z)).sqrt_spec());
        Vec3 { x: ring.mul_spec(v.cos_turns_spec()), y: ring.mul_spec(v.sin_turns_spec()), z }
    }

    /// The point of the unit ball brought to unit length; nothing where its
    /// length is zero.
    pub open spec fn unit_sample_spec(a: u64, b: u64, c: u64) -> Option<Vec3> {
        let p = Vec3::ball_spec(a, b, c);
        p.divided(p.length_spec())
    }

    pub fn uniform_from(a: u64, b: u64, c: u64) -> (r: Vec3)
        ensures
            r == Vec3::uniform_spec(a, b, c),
            r.x.in_unit_interval() && r.y.in_unit_interval() && r.z.in_unit_interval(),
    {
        Vec3::new(Scalar::unit_interval(a), Scalar::unit_interval(b), Scalar::unit_interval(c))
    }

    pub fn in_unit_sphere_from(a: u64, b: u64, c: u64) -> (r: Vec3)
        ensures
            r == Vec3::ball_spec(a, b, c),
    {
        let u: Scalar = Scalar::unit_interval(a);
        let v: Scalar = Scalar::unit_interval(b);
        let o: Scalar = Scalar::unit_interval(c);
        let o_c: Scalar = o.cbrt();
        let z: Scalar = o_c.mul(Scalar::from_bits(0xc000_0000_0000_0000).mul(u).add(Scalar::one()));
        let ring: Scalar = o_c.mul(Scalar::one().sub(z.mul(z)).sqrt());
        let x: Scalar = ring.mul(v.cos_turns());
        let y: Scalar = ring.mul(v.sin_turns());
        Vec3::new(x, y, z)
    }

    pub fn unit_vector_from(a: u64, b: u64, c: u64) -> (r: Option<Vec3>)
        ensures
            r == Vec3::unit_sample_spec(a, b, c),
    {
        let p: Vec3 = Vec3::in_unit_sphere_from(a, b, c);
        p.div(p.length())
    }

    /// A vector with each component uniform in `[0, 1)`.
    pub fn random(rng: &mut ThreadRng) -> (r: Vec3)
        ensures
            exists|a: u64, b: u64, c: u64| r == #[trigger] Vec3::uniform_spec(a, b, c),
            r.x.in_unit_interval() && r.y.in_unit_interval() && r.z.in_unit_interval(),
    {
        let a: u64 = draw(rng);
        let b: u64 = draw(rng);
        let c: u64 = draw(rng);
        Vec3::uniform_from(a, b, c)
    }

    /// A point of the unit ball.
    pub fn random_in_unit_sphere(rng: &mut ThreadRng) -> (r: Vec3)
        ensures
            exists|a: u64, b: u64, c: u64| r == #[trigger] Vec3::ball_spec(a, b, c),
    {
        let a: u64 = draw(rng);
        let b: u64 = draw(rng);
        let c: u64 = draw(rng);
        Vec3::in_unit_sphere_from(a, b, c)
    }

    /// A point of the unit ball brought to unit length; nothing where the
    /// point drawn has length zero.
    pub fn random_unit_vector(rng: &mut ThreadRng) -> (r: Option<Vec3>)
        ensures
            exists|a: u64, b: u64, c: u64| r == #[trigger] Vec3::unit_sample_spec(a, b, c),
    {
        let a: u64 = draw(rng);
        let b: u64 = draw(rng);
        let c: u64 = draw(rng);
        Vec3::unit_vector_from(a, b, c)
    }
}

} // verus!
