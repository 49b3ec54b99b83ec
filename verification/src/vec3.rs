//! Three-component vectors, used as points, directions and colors.
use crate::arith::{
    lemma_add_nan, lemma_add_opposites, lemma_add_without_sign, lemma_mul_neg, lemma_square,
};
use crate::root::lemma_sqrt_is_not_zero;
use crate::scalar::Scalar;
use vstd::prelude::*;
use vstd::std_specs::cmp::PartialEqSpecImpl;
use vstd::std_specs::ops::{AddSpecImpl, MulSpecImpl, NegSpecImpl, SubSpecImpl};

verus! {

/// The bits of `1e-8`: a component smaller than this counts as zero when a
/// direction is tested for being degenerate.
pub const NEAR_ZERO_BITS: u64 = 0x3e45_798e_e230_8c3a;

/// Three scalars.
#[derive(Clone, Copy, Debug)]
pub struct Vec3 {
    pub x: Scalar,
    pub y: Scalar,
    pub z: Scalar,
}

/// A place.
pub type Point3 = Vec3;

/// Red, green and blue.
pub type Color = Vec3;

impl Vec3 {
    /// Every component times `t`.
    pub open spec fn scaled(self, t: Scalar) -> Vec3 {
        Vec3 { x: self.x.mul_spec(t), y: self.y.mul_spec(t), z: self.z.mul_spec(t) }
    }

    /// Every component over `t`; nothing for a divisor that is zero.
    pub open spec fn divided(self, t: Scalar) -> Option<Vec3> {
        if t.zero_valued() {
            None
        } else {
            Some(Vec3 { x: self.x.div_spec(t), y: self.y.div_spec(t), z: self.z.div_spec(t) })
        }
    }

    /// `x * x + y * y + z * z`, summed from the left.
    pub open spec fn length_squared_spec(self) -> Scalar {
        self.x.mul_spec(self.x).add_spec(self.y.mul_spec(self.y)).add_spec(
            self.z.mul_spec(self.z),
        )
    }

    pub open spec fn length_spec(self) -> Scalar {
        self.length_squared_spec().sqrt_spec()
    }

    /// `x * x' + y * y' + z * z'`, summed from the left.
    pub open spec fn dot_spec(self, other: Vec3) -> Scalar {
        self.x.mul_spec(other.x).add_spec(self.y.mul_spec(other.y)).add_spec(
            self.z.mul_spec(other.z),
        )
    }

    pub open spec fn cross_spec(self, other: Vec3) -> Vec3 {
        Vec3 {
            x: self.y.mul_spec(other.z).sub_spec(self.z.mul_spec(other.y)),
            y: self.z.mul_spec(other.x).sub_spec(self.x.mul_spec(other.z)),
            z: self.x.mul_spec(other.y).sub_spec(self.y.mul_spec(other.x)),
        }
    }

    /// A vector can be brought to unit length when its length is not zero.
    pub open spec fn normalizable(self) -> bool {
        !self.length_spec().zero_valued()
    }

    /// The vector over its length.
    pub open spec fn unit_spec(self) -> Vec3 {
        let l = self.length_spec();
        Vec3 { x: self.x.div_spec(l), y: self.y.div_spec(l), z: self.z.div_spec(l) }
    }

    pub open spec fn plus_spec(self, other: Vec3) -> Vec3 {
        Vec3 {
            x: self.x.add_spec(other.x),
            y: self.y.add_spec(other.y),
            z: self.z.add_spec(other.z),
        }
    }

    pub open spec fn minus_spec(self, other: Vec3) -> Vec3 {
        Vec3 {
            x: self.x.sub_spec(other.x),
            y: self.y.sub_spec(other.y),
            z: self.z.sub_spec(other.z),
        }
    }

    /// The product component by component.
    pub open spec fn times_spec(self, other: Vec3) -> Vec3 {
        Vec3 {
            x: self.x.mul_spec(other.x),
            y: self.y.mul_spec(other.y),
            z: self.z.mul_spec(other.z),
        }
    }

    pub open spec fn negated_spec(self) -> Vec3 {
        Vec3 { x: self.x.neg_spec(), y: self.y.neg_spec(), z: self.z.neg_spec() }
    }

    /// `self - 2 * dot(self, n) * n`
    pub open spec fn reflect_spec(self, n: Vec3) -> Vec3 {
        let twice = Scalar { bits: 0x4000_0000_0000_0000 }.mul_spec(self.dot_spec(n));
        self.minus_spec(n.scaled(twice))
    }

    /// Every component is smaller than `1e-8` in size.
    pub open spec fn near_zero_spec(self) -> bool {
        let eps = Scalar { bits: NEAR_ZERO_BITS };
        self.x.abs_spec().lt_spec(eps) && self.y.abs_spec().lt_spec(eps) && self.z.abs_spec().lt_spec(
            eps,
        )
    }

    /// Every component is finite.
    pub open spec fn finite(self) -> bool {
        self.x.finite() && self.y.finite() && self.z.finite()
    }

    /// No component is NaN.
    pub open spec fn free_of_nan(self) -> bool {
        !self.x.nan() && !self.y.nan() && !self.z.nan()
    }

    /// Equal as numbers, component by component.
    pub open spec fn same_value(self, other: Vec3) -> bool {
        self.x.same_value(other.x) && self.y.same_value(other.y) && self.z.same_value(other.z)
    }

    pub fn new(x: Scalar, y: Scalar, z: Scalar) -> (r: Vec3)
        ensures
            r == (Vec3 { x, y, z }),
    {
        Vec3 { x, y, z }
    }

    pub fn mul(self, t: Scalar) -> (r: Vec3)
        ensures
            r == self.scaled(t),
    {
        Vec3 { x: self.x.mul(t), y: self.y.mul(t), z: self.z.mul(t) }
    }

    pub fn div(self, t: Scalar) -> (r: Option<Vec3>)
        ensures
            r == self.divided(t),
    {
        if t.is_zero() {
            None
        } else {
            Some(Vec3 { x: self.x.div(t), y: self.y.div(t), z: self.z.div(t) })
        }
    }

    pub fn length_squared(self) -> (r: Scalar)
        ensures
            r == self.length_squared_spec(),
    {
        self.x.mul(self.x).add(self.y.mul(self.y)).add(self.z.mul(self.z))
    }

    pub fn length(self) -> (r: Scalar)
        ensures
            r == self.length_spec(),
    {
        self.length_squared().sqrt()
    }

    pub fn dot(self, other: Vec3) -> (r: Scalar)
        ensures
            r == self.dot_spec(other),
    {
        self.x.mul(other.x).add(self.y.mul(other.y)).add(self.z.mul(other.z))
    }

    pub fn cross(self, other: Vec3) -> (r: Vec3)
        ensures
            r == self.cross_spec(other),
    {
        Vec3 {
            x: self.y.mul(other.z).sub(self.z.mul(other.y)),
            y: self.z.mul(other.x).sub(self.x.mul(other.z)),
            z: self.x.mul(other.y).sub(self.y.mul(other.x)),
        }
    }

    pub fn is_normalizable(self) -> (r: bool)
        ensures
            r == self.normalizable(),
    {
        !self.length().is_zero()
    }

    pub fn unit_vector(self) -> (r: Vec3)
        requires
            self.normalizable(),
        ensures
            r == self.unit_spec(),
            self.divided(self.length_spec()) == Some(r),
    {
        let l: Scalar = self.length();
        Vec3 { x: self.x.div(l), y: self.y.div(l), z: self.z.div(l) }
    }

    pub fn zero() -> (r: Vec3)
        ensures
            r.x.bits == 0,
            r.y.bits == 0,
            r.z.bits == 0,
    {
        Vec3::new(Scalar::zero(), Scalar::zero(), Scalar::zero())
    }

    pub fn one() -> (r: Vec3)
        ensures
            r.x.bits == 0x3ff0_0000_0000_0000,
            r.y.bits == 0x3ff0_0000_0000_0000,
            r.z.bits == 0x3ff0_0000_0000_0000,
    {
        Vec3::new(Scalar::one(), Scalar::one(), Scalar::one())
    }

    /// `self + other`, component by component.
    pub fn plus(self, other: Vec3) -> (r: Vec3)
        ensures
            r == self.plus_spec(other),
    {
        Vec3 { x: self.x.add(other.x), y: self.y.add(other.y), z: self.z.add(other.z) }
    }

    /// `self - other`, component by component.
    pub fn minus(self, other: Vec3) -> (r: Vec3)
        ensures
            r == self.minus_spec(other),
    {
        Vec3 { x: self.x.sub(other.x), y: self.y.sub(other.y), z: self.z.sub(other.z) }
    }

    /// `self * other`, component by component.
    pub fn times(self, other: Vec3) -> (r: Vec3)
        ensures
            r == self.times_spec(other),
    {
        Vec3 { x: self.x.mul(other.x), y: self.y.mul(other.y), z: self.z.mul(other.z) }
    }

    /// `-self`
    pub fn negated(self) -> (r: Vec3)
        ensures
            r == self.negated_spec(),
    {
        Vec3 { x: self.x.neg(), y: self.y.neg(), z: self.z.neg() }
    }

    pub fn reflect(self, n: Vec3) -> (r: Vec3)
        ensures
            r == self.reflect_spec(n),
    {
        let twice: Scalar = Scalar::two().mul(self.dot(n));
        self.minus(n.mul(twice))
    }

    pub fn near_zero(self) -> (r: bool)
        ensures
            r == self.near_zero_spec(),
    {
        let eps: Scalar = Scalar::from_bits(NEAR_ZERO_BITS);
        self.x.abs().lt(eps) && self.y.abs().lt(eps) && self.z.abs().lt(eps)
    }
}

impl core::ops::Add for Vec3 {
    type Output = Vec3;

    fn add(self, other: Vec3) -> (r: Vec3) {
        self.plus(other)
    }
}

impl AddSpecImpl for Vec3 {
    open spec fn obeys_add_spec() -> bool {
        true
    }

    open spec fn add_req(self, other: Vec3) -> bool {
        true
    }

    open spec fn add_spec(self, other: Vec3) -> Vec3 {
        self.plus_spec(other)
    }
}

impl core::ops::Sub for Vec3 {
    type Output = Vec3;

    fn sub(self, other: Vec3) -> (r: Vec3) {
        self.minus(other)
    }
}

impl SubSpecImpl for Vec3 {
    open spec fn obeys_sub_spec() -> bool {
        true
    }

    open spec fn sub_req(self, other: Vec3) -> bool {
        true
    }

    open spec fn sub_spec(self, other: Vec3) -> Vec3 {
        self.minus_spec(other)
    }
}

impl core::ops::Mul for Vec3 {
    type Output = Vec3;

    fn mul(self, other: Vec3) -> (r: Vec3) {
        self.times(other)
    }
}

impl MulSpecImpl for Vec3 {
    open spec fn obeys_mul_spec() -> bool {
        true
    }

    open spec fn mul_req(self, other: Vec3) -> bool {
        true
    }

    open spec fn mul_spec(self, other: Vec3) -> Vec3 {
        self.times_spec(other)
    }
}

impl core::ops::Neg for Vec3 {
    type Output = Vec3;

    fn neg(self) -> (r: Vec3) {
        self.negated()
    }
}

impl NegSpecImpl for Vec3 {
    open spec fn obeys_neg_spec() -> bool {
        true
    }

    open spec fn neg_req(self) -> bool {
        true
    }

    open spec fn neg_spec(self) -> Vec3 {
        self.negated_spec()
    }
}

impl PartialEq for Vec3 {
    fn eq(&self, other: &Vec3) -> (r: bool) {
        self.x == other.x && self.y == other.y && self.z == other.z
    }
}

impl PartialEqSpecImpl for Vec3 {
    open spec fn obeys_eq_spec() -> bool {
        true
    }

    open spec fn eq_spec(&self, other: &Vec3) -> bool {
        self.same_value(*other)
    }
}

/// A vector that is not near zero has a length: the test against `1e-8`
/// keeps the squares from vanishing.
pub proof fn lemma_not_near_zero_has_length(v: Vec3)
    requires
        !v.near_zero_spec(),
    ensures
        v.normalizable(),
{
    let (a, b, c) = (v.x.mul_spec(v.x), v.y.mul_spec(v.y), v.z.mul_spec(v.z));
    lemma_square(v.x);
    lemma_square(v.y);
    lemma_square(v.z);
    lemma_add_without_sign(a, b);
    lemma_add_without_sign(a.add_spec(b), c);
    lemma_sqrt_is_not_zero(v.length_squared_spec());
}

/// The dot product with the opposite vector is the opposite of the dot
/// product, where that is a number.
pub proof fn lemma_dot_negated(d: Vec3, n: Vec3)
    requires
        !d.dot_spec(n).nan(),
    ensures
        d.dot_spec(n).opposite(d.dot_spec(n.negated_spec())),
{
    let (a, b, c) = (d.x.mul_spec(n.x), d.y.mul_spec(n.y), d.z.mul_spec(n.z));
    let (a2, b2, c2) = (
        d.x.mul_spec(n.x.neg_spec()),
        d.y.mul_spec(n.y.neg_spec()),
        d.z.mul_spec(n.z.neg_spec()),
    );
    lemma_add_nan(a.add_spec(b), c);
    lemma_add_nan(a, b);
    lemma_mul_neg(d.x, n.x);
    lemma_mul_neg(d.y, n.y);
    lemma_mul_neg(d.z, n.z);
    lemma_add_opposites(a, b, a2, b2);
    lemma_add_opposites(a.add_spec(b), c, a2.add_spec(b2), c2);
}

} // verus!
