//! Double-precision numbers held by their bit pattern.
//!
//! A [`Scalar`] is one binary64 value: a sign bit, eleven exponent bits and
//! fifty-two fraction bits. Everything the tracer computes is done on these
//! patterns with integer arithmetic, so that every operation has an exact
//! mathematical statement.
//!
//! The model of a finite scalar is an integer: its value counted in units of
//! the smallest positive double, `2^-1074`. Every finite double is a whole
//! number of such units, see [`Scalar::units`].
use vstd::arithmetic::power2::*;
use vstd::prelude::*;
use vstd::std_specs::cmp::PartialEqSpecImpl;

verus! {

/// The sign bit.
pub const SIGN_BIT: u64 = 0x8000_0000_0000_0000;

/// Magnitude bits of infinity: all exponent bits set, no fraction bit.
pub const INFINITY_BITS: u64 = 0x7ff0_0000_0000_0000;

/// The implicit leading bit of a normal significand, `2^52`.
pub const HIDDEN_BIT: u64 = 0x0010_0000_0000_0000;

/// The pattern this library produces whenever a result is not a number.
pub const NAN_BITS: u64 = 0x7ff8_0000_0000_0000;

/// Magnitude bits of the largest finite double.
pub const MAX_FINITE_BITS: u64 = 0x7fef_ffff_ffff_ffff;

/// One double-precision number.
#[derive(Clone, Copy, Debug)]
pub struct Scalar {
    pub bits: u64,
}

impl Scalar {
    /// The pattern without its sign bit.
    pub open spec fn magnitude(self) -> u64 {
        if self.bits >= SIGN_BIT {
            (self.bits - SIGN_BIT) as u64
        } else {
            self.bits
        }
    }

    /// The sign bit is set.
    pub open spec fn negative(self) -> bool {
        self.bits >= SIGN_BIT
    }

    /// Not a number: all exponent bits set and some fraction bit.
    pub open spec fn nan(self) -> bool {
        self.magnitude() > INFINITY_BITS
    }

    /// Plus or minus infinity.
    pub open spec fn infinite(self) -> bool {
        self.magnitude() == INFINITY_BITS
    }

    /// A number that is not infinite: zero, subnormal or normal.
    pub open spec fn finite(self) -> bool {
        self.magnitude() < INFINITY_BITS
    }

    /// Plus or minus zero.
    pub open spec fn zero_valued(self) -> bool {
        self.magnitude() == 0
    }

    /// The eleven exponent bits, `0..=2047`.
    pub open spec fn exponent_field(self) -> nat {
        (self.magnitude() / HIDDEN_BIT) as nat
    }

    /// The fifty-two fraction bits.
    pub open spec fn fraction(self) -> nat {
        (self.magnitude() % HIDDEN_BIT) as nat
    }

    /// The integer significand: the fraction, with the implicit leading bit
    /// for every pattern whose exponent field is not zero.
    pub open spec fn significand(self) -> nat {
        if self.exponent_field() == 0 {
            self.fraction()
        } else {
            (HIDDEN_BIT + self.fraction()) as nat
        }
    }

    /// The power of two, counted from `2^-1074`, that the significand is
    /// multiplied by.
    pub open spec fn scale(self) -> nat {
        if self.exponent_field() == 0 {
            0
        } else {
            (self.exponent_field() - 1) as nat
        }
    }

    /// The size of the value in units of `2^-1074`:
    /// `significand * 2^scale`.
    pub open spec fn size(self) -> nat {
        self.significand() * pow2(self.scale())
    }

    /// The value in units of `2^-1074`. Meaningful for finite scalars; both
    /// zeros have `0` units.
    pub open spec fn units(self) -> int {
        if self.negative() {
            -(self.size() as int)
        } else {
            self.size() as int
        }
    }

    /// An integer that orders the scalars that are not NaN as their values
    /// are ordered; the two zeros share the key `0`.
    pub open spec fn key(self) -> int {
        if self.negative() {
            -(self.magnitude() as int)
        } else {
            self.magnitude() as int
        }
    }

    /// The scalar with the given sign and magnitude bits.
    pub open spec fn compose(negative: bool, magnitude: u64) -> Scalar {
        Scalar { bits: if negative { (magnitude + SIGN_BIT) as u64 } else { magnitude } }
    }

    /// The same magnitude with the other sign.
    pub open spec fn neg_spec(self) -> Scalar {
        Scalar::compose(!self.negative(), self.magnitude())
    }

    /// The same magnitude without a sign.
    pub open spec fn abs_spec(self) -> Scalar {
        Scalar { bits: self.magnitude() }
    }

    /// `self < other` as numbers: false when either is NaN.
    pub open spec fn lt_spec(self, other: Scalar) -> bool {
        !self.nan() && !other.nan() && self.key() < other.key()
    }

    /// `self <= other` as numbers: false when either is NaN.
    pub open spec fn le_spec(self, other: Scalar) -> bool {
        !self.nan() && !other.nan() && self.key() <= other.key()
    }

    /// `self == other` as numbers: false when either is NaN, true of the two
    /// zeros.
    pub open spec fn same_value(self, other: Scalar) -> bool {
        !self.nan() && !other.nan() && self.key() == other.key()
    }

    /// `other` has the value `-self`, and neither is NaN.
    pub open spec fn opposite(self, other: Scalar) -> bool {
        !self.nan() && !other.nan() && other.key() == -self.key()
    }

    /// Above zero.
    pub open spec fn positive(self) -> bool {
        Scalar { bits: 0 }.lt_spec(self)
    }

    pub fn from_bits(bits: u64) -> (r: Scalar)
        ensures
            r.bits == bits,
    {
        Scalar { bits }
    }

    pub fn to_bits(self) -> (r: u64)
        ensures
            r == self.bits,
    {
        self.bits
    }

    pub fn from_parts(negative: bool, magnitude: u64) -> (r: Scalar)
        requires
            magnitude < SIGN_BIT,
        ensures
            r == Scalar::compose(negative, magnitude),
            r.negative() == negative,
            r.magnitude() == magnitude,
    {
        if negative {
            Scalar { bits: magnitude + SIGN_BIT }
        } else {
            Scalar { bits: magnitude }
        }
    }

    pub fn magnitude_bits(self) -> (r: u64)
        ensures
            r == self.magnitude(),
            r < SIGN_BIT,
    {
        if self.bits >= SIGN_BIT {
            self.bits - SIGN_BIT
        } else {
            self.bits
        }
    }

    pub fn is_negative(self) -> (r: bool)
        ensures
            r == self.negative(),
    {
        self.bits >= SIGN_BIT
    }

    pub fn is_nan(self) -> (r: bool)
        ensures
            r == self.nan(),
    {
        self.magnitude_bits() > INFINITY_BITS
    }

    pub fn is_infinite(self) -> (r: bool)
        ensures
            r == self.infinite(),
    {
        self.magnitude_bits() == INFINITY_BITS
    }

    pub fn is_finite(self) -> (r: bool)
        ensures
            r == self.finite(),
    {
        self.magnitude_bits() < INFINITY_BITS
    }

    pub fn is_zero(self) -> (r: bool)
        ensures
            r == self.zero_valued(),
    {
        self.magnitude_bits() == 0
    }

    /// The significand and scale of a finite scalar.
    pub fn decompose(self) -> (r: (u64, u32))
        requires
            self.finite(),
        ensures
            r.0 == self.significand(),
            r.1 == self.scale(),
            r.0 < 2 * HIDDEN_BIT,
            r.1 <= 2045,
            r.1 > 0 ==> r.0 >= HIDDEN_BIT,
            self.magnitude() == r.1 * HIDDEN_BIT + r.0,
            r.0 == 0 <==> self.zero_valued(),
    {
        let m: u64 = self.magnitude_bits();
        let e: u64 = m / HIDDEN_BIT;
        let f: u64 = m % HIDDEN_BIT;
        if e == 0 {
            (f, 0)
        } else {
            (f + HIDDEN_BIT, (e - 1) as u32)
        }
    }

    /// `-self`: the same magnitude with the other sign, for every pattern.
    pub fn neg(self) -> (r: Scalar)
        ensures
            r == self.neg_spec(),
    {
        let m: u64 = self.magnitude_bits();
        Scalar::from_parts(!self.is_negative(), m)
    }

    /// `|self|`: the sign bit cleared.
    pub fn abs(self) -> (r: Scalar)
        ensures
            r == self.abs_spec(),
    {
        Scalar { bits: self.magnitude_bits() }
    }

    fn order_key(self) -> (r: i128)
        ensures
            r == self.key(),
    {
        let m: u64 = self.magnitude_bits();
        if self.is_negative() {
            -(m as i128)
        } else {
            m as i128
        }
    }

    pub fn lt(self, other: Scalar) -> (r: bool)
        ensures
            r == self.lt_spec(other),
    {
        !self.is_nan() && !other.is_nan() && self.order_key() < other.order_key()
    }

    pub fn le(self, other: Scalar) -> (r: bool)
        ensures
            r == self.le_spec(other),
    {
        !self.is_nan() && !other.is_nan() && self.order_key() <= other.order_key()
    }

    pub fn gt(self, other: Scalar) -> (r: bool)
        ensures
            r == other.lt_spec(self),
    {
        other.lt(self)
    }

    pub fn ge(self, other: Scalar) -> (r: bool)
        ensures
            r == other.le_spec(self),
    {
        other.le(self)
    }

    pub fn zero() -> (r: Scalar)
        ensures
            r.bits == 0,
    {
        Scalar { bits: 0 }
    }

    /// `1.0`
    pub fn one() -> (r: Scalar)
        ensures
            r.bits == 0x3ff0_0000_0000_0000,
    {
        Scalar { bits: 0x3ff0_0000_0000_0000 }
    }

    /// `2.0`
    pub fn two() -> (r: Scalar)
        ensures
            r.bits == 0x4000_0000_0000_0000,
    {
        Scalar { bits: 0x4000_0000_0000_0000 }
    }

    /// `0.5`
    pub fn half() -> (r: Scalar)
        ensures
            r.bits == 0x3fe0_0000_0000_0000,
    {
        Scalar { bits: 0x3fe0_0000_0000_0000 }
    }

    /// The largest finite double.
    pub fn max_value() -> (r: Scalar)
        ensures
            r.bits == MAX_FINITE_BITS,
    {
        Scalar { bits: MAX_FINITE_BITS }
    }

    /// The not-a-number pattern that failed operations return.
    pub fn not_a_number() -> (r: Scalar)
        ensures
            r.bits == NAN_BITS,
            r.nan(),
    {
        Scalar { bits: NAN_BITS }
    }

    pub fn infinity(negative: bool) -> (r: Scalar)
        ensures
            r == Scalar::compose(negative, INFINITY_BITS),
            r.infinite(),
            r.negative() == negative,
    {
        Scalar::from_parts(negative, INFINITY_BITS)
    }

    pub fn signed_zero(negative: bool) -> (r: Scalar)
        ensures
            r == Scalar::compose(negative, 0),
            r.zero_valued(),
            r.negative() == negative,
    {
        Scalar::from_parts(negative, 0)
    }
}

impl PartialEq for Scalar {
    fn eq(&self, other: &Scalar) -> (r: bool) {
        !self.is_nan() && !other.is_nan() && self.order_key() == other.order_key()
    }
}

impl PartialEqSpecImpl for Scalar {
    open spec fn obeys_eq_spec() -> bool {
        true
    }

    open spec fn eq_spec(&self, other: &Scalar) -> bool {
        self.same_value(*other)
    }
}

/// The parts of a finite scalar: the significand has at most fifty-three
/// binary digits, and exactly that many above the lowest scale; the
/// magnitude bits are `scale * 2^52 + significand`.
pub proof fn lemma_parts(x: Scalar)
    requires
        x.finite(),
    ensures
        x.significand() < 2 * HIDDEN_BIT,
        x.scale() <= 2045,
        x.scale() > 0 ==> x.significand() >= HIDDEN_BIT,
        x.magnitude() == x.scale() * HIDDEN_BIT + x.significand(),
        x.significand() == 0 <==> x.zero_valued(),
        x.size() == 0 <==> x.zero_valued(),
{
    lemma_pow2_pos(x.scale());
    let sig = x.significand();
    let p = pow2(x.scale());
    assert(sig * p == 0 <==> sig == 0) by (nonlinear_arith)
        requires
            p > 0,
            sig >= 0,
    ;
}

/// Among finite scalars, the magnitude bits are ordered as the sizes are:
/// comparing keys compares values.
pub proof fn lemma_order_of_sizes(a: Scalar, b: Scalar)
    requires
        a.finite(),
        b.finite(),
    ensures
        a.magnitude() < b.magnitude() <==> a.size() < b.size(),
        a.magnitude() == b.magnitude() <==> a.size() == b.size(),
{
    lemma_parts(a);
    lemma_parts(b);
    if a.magnitude() < b.magnitude() {
        lemma_sizes_ordered(a, b);
    }
    if b.magnitude() < a.magnitude() {
        lemma_sizes_ordered(b, a);
    }
}

proof fn lemma_sizes_ordered(a: Scalar, b: Scalar)
    requires
        a.finite(),
        b.finite(),
        a.magnitude() < b.magnitude(),
    ensures
        a.size() < b.size(),
{
    lemma_parts(a);
    lemma_parts(b);
    let (sa, ia) = (a.significand(), a.scale());
    let (sb, ib) = (b.significand(), b.scale());
    lemma_pow2_pos(ia);
    if ia == ib {
        assert(sa * pow2(ia) < sb * pow2(ia)) by (nonlinear_arith)
            requires
                sa < sb,
                pow2(ia) > 0,
        ;
    } else {
        assert(ia < ib);
        lemma_pow2_unfold(ia + 1);
        if ia + 1 < ib {
            lemma_pow2_strictly_increases(ia + 1, ib);
        }
        assert(sa * pow2(ia) < sb * pow2(ib)) by (nonlinear_arith)
            requires
                sa < 2 * HIDDEN_BIT,
                sb >= HIDDEN_BIT,
                2 * pow2(ia) <= pow2(ib),
                pow2(ia) > 0,
        ;
    }
}

/// A scalar is rebuilt from its sign and its magnitude.
pub proof fn lemma_compose_parts(x: Scalar)
    ensures
        Scalar::compose(x.negative(), x.magnitude()) == x,
        x.magnitude() < SIGN_BIT,
{
}

/// Negating twice gives the scalar back, and negation keeps the magnitude.
pub proof fn lemma_neg_involution(x: Scalar)
    ensures
        x.neg_spec().neg_spec() == x,
        x.neg_spec().magnitude() == x.magnitude(),
        x.neg_spec().negative() == !x.negative(),
        x.neg_spec().key() == -x.key(),
        x.neg_spec().units() == -x.units(),
{
}

} // verus!
