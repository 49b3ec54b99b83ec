//! Surface materials and how they scatter an incoming ray.
use crate::hittable::HitRecord;
use crate::ray::Ray;
use crate::scalar::Scalar;
use crate::vec3::{lemma_not_near_zero_has_length, Color, Vec3};
use rand::rngs::ThreadRng;
use vstd::prelude::*;

verus! {

/// How a surface scatters: evenly in all directions, or as a mirror.
#[derive(Debug, Clone, Copy)]
pub enum Material {
    Metal { albedo: Color },
    Lambertian { albedo: Color },
}

impl Material {
    /// The color that the surface gives to what it scatters.
    pub open spec fn albedo_spec(self) -> Color {
        match self {
            Material::Metal { albedo } => albedo,
            Material::Lambertian { albedo } => albedo,
        }
    }

    pub fn albedo(&self) -> (c: Color)
        ensures
            c == self.albedo_spec(),
    {
        match self {
            Material::Metal { albedo } => *albedo,
            Material::Lambertian { albedo } => *albedo,
        }
    }

    /// The direction in which a diffuse surface sends a ray on: the normal
    /// plus the sampled unit vector. Where there is no sample, or the sum
    /// is near zero, it is the normal itself.
    pub open spec fn diffuse_direction(normal: Vec3, sample: Option<Vec3>) -> Vec3 {
        match sample {
            None => normal,
            Some(s) => {
                let sum = normal.plus_spec(s);
                if sum.near_zero_spec() {
                    normal
                } else {
                    sum
                }
            },
        }
    }

    /// The direction in which a mirror sends a ray on: the incoming
    /// direction, brought to unit length, reflected about the normal.
    pub open spec fn mirror_direction(incoming: Vec3, normal: Vec3) -> Vec3 {
        incoming.unit_spec().reflect_spec(normal)
    }

    /// A mirror sends the ray on when the reflected direction leaves the
    /// surface: `dot(reflected, normal) > 0`.
    pub open spec fn mirror_leaves(reflected: Vec3, normal: Vec3) -> bool {
        Scalar { bits: 0 }.lt_spec(reflected.dot_spec(normal))
    }

    /// The attenuation and the scattered ray, or nothing where the ray is
    /// absorbed. `sample` is the random unit vector of a diffuse bounce.
    pub open spec fn scatter_spec(self, r_in: Ray, rec: HitRecord, sample: Option<Vec3>) -> Option<
        (Color, Ray),
    > {
        match self {
            Material::Lambertian { albedo } => Some(
                (
                    albedo,
                    Ray { origin: rec.p, direction: Material::diffuse_direction(rec.normal, sample) },
                ),
            ),
            Material::Metal { albedo } => {
                let reflected = Material::mirror_direction(r_in.direction, rec.normal);
                if Material::mirror_leaves(reflected, rec.normal) {
                    Some((albedo, Ray { origin: rec.p, direction: reflected }))
                } else {
                    None
                }
            },
        }
    }

    /// What [`Material::scatter`] leaves behind for a given sample: the
    /// outputs are written and `true` is returned where the ray is sent on,
    /// and they are left alone and `false` is returned where it is absorbed.
    pub open spec fn scatter_outcome(
        self,
        r_in: Ray,
        rec: HitRecord,
        sample: Option<Vec3>,
        sent_on: bool,
        before: (Color, Ray),
        after: (Color, Ray),
    ) -> bool {
        match self.scatter_spec(r_in, rec, sample) {
            Some(pair) => sent_on && after == pair,
            None => !sent_on && after == before,
        }
    }

    /// Scatters with a unit vector that was sampled beforehand.
    pub fn scatter_with(&self, r_in: &Ray, rec: &HitRecord, sample: Option<Vec3>) -> (out: Option<
        (Color, Ray),
    >)
        requires
            self is Metal ==> r_in.well_formed(),
        ensures
            out == self.scatter_spec(*r_in, *rec, sample),
            out matches Some(pair) ==> pair.0 == self.albedo_spec() && pair.1.origin == rec.p,
            self is Lambertian ==> out is Some,
            self is Lambertian && rec.normal.normalizable() ==> out->Some_0.1.well_formed(),
    {
        match self {
            Material::Lambertian { albedo } => {
                let direction: Vec3 = match sample {
                    None => rec.normal,
                    Some(s) => {
                        let mut scatter_direction: Vec3 = rec.normal.plus(s);
                        if scatter_direction.near_zero() {
                            scatter_direction = rec.normal;
                        } else {
                            proof {
                                lemma_not_near_zero_has_length(scatter_direction);
                            }
                        }
                        scatter_direction
                    },
                };
                Some((*albedo, Ray::new(rec.p, direction)))
            },
            Material::Metal { albedo } => {
                let reflected: Vec3 = r_in.direction.unit_vector().reflect(rec.normal);
                if Scalar::zero().lt(reflected.dot(rec.normal)) {
                    Some((*albedo, Ray::new(rec.p, reflected)))
                } else {
                    None
                }
            },
        }
    }

    /// Scatters `r_in` at the hit. A diffuse surface samples a random unit
    /// vector; a mirror draws nothing.
    pub fn scatter(
        &self,
        r_in: &Ray,
        hit_record: &HitRecord,
        attenuation: &mut Color,
        scattered: &mut Ray,
        rng: &mut ThreadRng,
    ) -> (sent_on: bool)
        requires
            self is Metal ==> r_in.well_formed(),
        ensures
            exists|a: u64, b: u64, c: u64|
                self.scatter_outcome(
                    *r_in,
                    *hit_record,
                    #[trigger] Vec3::unit_sample_spec(a, b, c),
                    sent_on,
                    (*old(attenuation), *old(scattered)),
                    (*final(attenuation), *final(scattered)),
                ),
            sent_on ==> *final(attenuation) == self.albedo_spec() && final(scattered).origin
                == hit_record.p,
            self is Lambertian ==> sent_on,
            self is Lambertian && hit_record.normal.normalizable() ==> final(scattered).well_formed(),
    {
        let sample: Option<Vec3> = match self {
            Material::Lambertian { .. } => Vec3::random_unit_vector(rng),
            Material::Metal { .. } => None,
        };
        proof {
            if self is Metal {
                // a mirror does not look at the sample
                assert(self.scatter_spec(*r_in, *hit_record, sample) == self.scatter_spec(
                    *r_in,
                    *hit_record,
                    Vec3::unit_sample_spec(0, 0, 0),
                ));
            }
        }
        match self.scatter_with(r_in, hit_record, sample) {
            Some(pair) => {
                *attenuation = pair.0;
                *scattered = pair.1;
                true
            },
            None => false,
        }
    }
}

/// A diffuse surface never absorbs: it sends every ray on, attenuated by
/// its albedo, from the point that was hit; and where the normal has a
/// length, so has the direction of the scattered ray.
pub proof fn lemma_diffuse_never_absorbs(
    albedo: Color,
    r_in: Ray,
    rec: HitRecord,
    sample: Option<Vec3>,
)
    ensures
        (Material::Lambertian { albedo }).scatter_spec(r_in, rec, sample) matches Some(pair)
            && pair.0 == albedo && pair.1.origin == rec.p && (rec.normal.normalizable()
            ==> pair.1.well_formed()),
{
    match sample {
        None => {},
        Some(s) => {
            if !rec.normal.plus_spec(s).near_zero_spec() {
                lemma_not_near_zero_has_length(rec.normal.plus_spec(s));
            }
        },
    }
}

/// A mirror absorbs exactly when the reflected direction does not leave
/// the surface, `dot(reflected, normal) <= 0`; this holds wherever that dot
/// product is a number.
pub proof fn lemma_mirror_absorbs(albedo: Color, r_in: Ray, rec: HitRecord, sample: Option<Vec3>)
    requires
        !Material::mirror_direction(r_in.direction, rec.normal).dot_spec(rec.normal).nan(),
    ensures
        (Material::Metal { albedo }).scatter_spec(r_in, rec, sample) is None
            <==> Material::mirror_direction(r_in.direction, rec.normal).dot_spec(
            rec.normal,
        ).le_spec(Scalar { bits: 0 }),
{
}

} // verus!
