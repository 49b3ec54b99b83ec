//! Rays: an origin and a direction, which need not have unit length.
use crate::arith::{lemma_add_nan, lemma_add_zero, lemma_mul_one, lemma_mul_zero};
use crate::scalar::Scalar;
use crate::vec3::{Point3, Vec3};
use vstd::prelude::*;

verus! {

/// The points `origin + t * direction`.
#[derive(Clone, Copy, Debug)]
pub struct Ray {
    pub origin: Vec3,
    pub direction: Vec3,
}

impl Ray {
    /// `origin + t * direction`
    pub open spec fn at_spec(self, t: Scalar) -> Point3 {
        self.origin.plus_spec(self.direction.scaled(t))
    }

    /// A ray can be traced when its direction has a length that is not
    /// zero, so that it can be brought to unit length.
    pub open spec fn well_formed(self) -> bool {
        self.direction.normalizable()
    }

    pub fn new(origin: Vec3, direction: Vec3) -> (r: Ray)
        ensures
            r == (Ray { origin, direction }),
    {
        Ray { origin, direction }
    }

    pub fn at(&self, t: Scalar) -> (p: Point3)
        ensures
            p == self.at_spec(t),
    {
        self.origin.plus(self.direction.mul(t))
    }

    pub fn is_well_formed(&self) -> (r: bool)
        ensures
            r == self.well_formed(),
    {
        self.direction.is_normalizable()
    }
}

/// At distance zero a ray is at its origin: for a direction with finite
/// components and an origin without NaN, `at(0)` has the value of the
/// origin.
pub proof fn lemma_at_zero(ray: Ray, t: Scalar)
    requires
        t.zero_valued(),
        ray.direction.finite(),
        ray.origin.free_of_nan(),
    ensures
        ray.at_spec(t).same_value(ray.origin),
{
    lemma_mul_zero(ray.direction.x, t);
    lemma_mul_zero(ray.direction.y, t);
    lemma_mul_zero(ray.direction.z, t);
    lemma_add_zero(ray.origin.x, ray.direction.x.mul_spec(t));
    lemma_add_zero(ray.origin.y, ray.direction.y.mul_spec(t));
    lemma_add_zero(ray.origin.z, ray.direction.z.mul_spec(t));
}

/// At distance one a ray is at `origin + direction`, bit for bit.
pub proof fn lemma_at_one(ray: Ray)
    ensures
        ray.at_spec(Scalar { bits: 0x3ff0_0000_0000_0000 }) == ray.origin.plus_spec(ray.direction),
{
    lemma_mul_one(ray.direction.x);
    lemma_mul_one(ray.direction.y);
    lemma_mul_one(ray.direction.z);
    let one = Scalar { bits: 0x3ff0_0000_0000_0000 };
    lemma_add_nan(ray.origin.x, ray.direction.x);
    lemma_add_nan(ray.origin.y, ray.direction.y);
    lemma_add_nan(ray.origin.z, ray.direction.z);
    lemma_add_nan(ray.origin.x, ray.direction.x.mul_spec(one));
    lemma_add_nan(ray.origin.y, ray.direction.y.mul_spec(one));
    lemma_add_nan(ray.origin.z, ray.direction.z.mul_spec(one));
}

} // verus!
