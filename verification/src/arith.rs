//! The four arithmetic operations on scalars.
//!
//! Each is the exact result, rounded once to the nearest double with ties to
//! even. The special values follow the usual rules: an operation on a NaN, a
//! difference of equal infinities, zero times infinity, zero over zero and
//! infinity over infinity are not numbers, and all of these give the one
//! pattern [`NAN_BITS`].
use crate::rounding::{
    bit_length, bit_length_u128, distance, lemma_bit_length_bounds, lemma_distance_scaled,
    lemma_nearest_absorbs, lemma_nearest_exact, lemma_nearest_is_nearest,
    lemma_nearest_is_not_zero, lemma_nearest_scaling, lemma_pow2_127, lemma_pow2_monotone,
    lemma_shifted_bound, nearest, pow2_u128, round_ratio, whole_denominator, whole_numerator,
};
use crate::scalar::{lemma_parts, Scalar, HIDDEN_BIT, INFINITY_BITS, NAN_BITS};
use vstd::arithmetic::div_mod::*;
use vstd::arithmetic::mul::*;
use vstd::arithmetic::power2::*;
use vstd::prelude::*;

verus! {

/// The scalar nearest to `v` units. A zero gets the sign given; the sum of
/// two zeros of which both are negative is the negative zero, every other
/// zero sum is positive.
pub open spec fn round_units(v: int, negative_zero: bool) -> Scalar {
    if v == 0 {
        Scalar::compose(negative_zero, 0)
    } else if v < 0 {
        Scalar::compose(true, nearest((-v) as nat, 1, 0) as u64)
    } else {
        Scalar::compose(false, nearest(v as nat, 1, 0) as u64)
    }
}

/// `hs * 2^hi` is `(hs * 2^(hi - li)) * 2^li`.
proof fn lemma_size_split(hs: nat, hi: nat, li: nat)
    requires
        li <= hi,
    ensures
        hs * pow2(hi) == (hs * pow2((hi - li) as nat)) * pow2(li),
{
    lemma_pow2_adds((hi - li) as nat, li);
    lemma_mul_is_associative(hs as int, pow2((hi - li) as nat) as int, pow2(li) as int);
}

impl Scalar {
    #[verifier::opaque]
    pub open spec fn add_spec(self, other: Scalar) -> Scalar {
        if self.nan() || other.nan() {
            Scalar { bits: NAN_BITS }
        } else if self.infinite() {
            if other.infinite() && self.negative() != other.negative() {
                Scalar { bits: NAN_BITS }
            } else {
                self
            }
        } else if other.infinite() {
            other
        } else {
            round_units(self.units() + other.units(), self.negative() && other.negative())
        }
    }

    pub open spec fn sub_spec(self, other: Scalar) -> Scalar {
        self.add_spec(other.neg_spec())
    }

    #[verifier::opaque]
    pub open spec fn mul_spec(self, other: Scalar) -> Scalar {
        let negative = self.negative() != other.negative();
        if self.nan() || other.nan() {
            Scalar { bits: NAN_BITS }
        } else if self.infinite() || other.infinite() {
            if self.zero_valued() || other.zero_valued() {
                Scalar { bits: NAN_BITS }
            } else {
                Scalar::compose(negative, INFINITY_BITS)
            }
        } else if self.zero_valued() || other.zero_valued() {
            Scalar::compose(negative, 0)
        } else {
            Scalar::compose(
                negative,
                nearest(
                    self.significand() * other.significand(),
                    1,
                    self.scale() + other.scale() - 1074,
                ) as u64,
            )
        }
    }

    /// The quotient of the significands is taken with `2^53` in the
    /// numerator, which makes it at least one.
    #[verifier::opaque]
    pub open spec fn div_spec(self, other: Scalar) -> Scalar {
        let negative = self.negative() != other.negative();
        if self.nan() || other.nan() {
            Scalar { bits: NAN_BITS }
        } else if self.infinite() {
            if other.infinite() {
                Scalar { bits: NAN_BITS }
            } else {
                Scalar::compose(negative, INFINITY_BITS)
            }
        } else if other.infinite() {
            Scalar::compose(negative, 0)
        } else if other.zero_valued() {
            if self.zero_valued() {
                Scalar { bits: NAN_BITS }
            } else {
                Scalar::compose(negative, INFINITY_BITS)
            }
        } else if self.zero_valued() {
            Scalar::compose(negative, 0)
        } else {
            Scalar::compose(
                negative,
                nearest(
                    self.significand() * pow2(53),
                    other.significand(),
                    self.scale() - other.scale() + 1021,
                ) as u64,
            )
        }
    }

    /// The sum of two finite scalars that are not zero, the first of which
    /// has the scale that is not smaller.
    fn add_ordered(self, low: Scalar) -> (r: Scalar)
        requires
            self.finite(),
            low.finite(),
            !self.zero_valued(),
            !low.zero_valued(),
            self.scale() >= low.scale(),
        ensures
            r == round_units(self.units() + low.units(), false),
    {
        let (hs, hi) = self.decompose();
        let (ls, li) = low.decompose();
        let gap: u32 = hi - li;
        let hneg: bool = self.is_negative();
        let lneg: bool = low.is_negative();
        proof {
            lemma2_to64();
            lemma2_to64_rest();
            lemma_pow2_127();
            lemma_size_split(hs as nat, hi as nat, li as nat);
            lemma_pow2_pos(li as nat);
            lemma_pow2_pos(gap as nat);
        }
        if gap > 64 {
            proof {
                let g = pow2(gap as nat);
                let c = pow2(li as nat);
                let up = hs as nat * g + ls as nat;
                let down = (hs as nat * g - ls as nat) as nat;
                lemma_pow2_monotone(64, gap as nat);
                assert(hs as nat * g > ls) by (nonlinear_arith)
                    requires
                        hs >= 1,
                        g >= 0x1_0000_0000_0000_0000,
                        ls < 0x1_0000_0000_0000_0000,
                ;
                lemma_nearest_absorbs(hs as nat, ls as nat, gap as nat, li as nat);
                lemma_nearest_scaling(up, 1, li as int, li as nat);
                lemma_nearest_scaling(down, 1, li as int, li as nat);
                assert(up * c == self.size() + low.size()) by (nonlinear_arith)
                    requires
                        up == hs as nat * g + ls as nat,
                        self.size() == (hs as nat * g) * c,
                        low.size() == ls as nat * c,
                ;
                assert(down * c == self.size() - low.size()) by (nonlinear_arith)
                    requires
                        down == hs as nat * g - ls as nat,
                        self.size() == (hs as nat * g) * c,
                        low.size() == ls as nat * c,
                ;
                assert(down * c > 0) by (nonlinear_arith)
                    requires
                        down > 0,
                        c > 0,
                ;
            }
            return self;
        }
        let g: u128 = pow2_u128(gap);
        proof {
            lemma_shifted_bound(hs as nat, 53, gap as nat, 117);
            lemma_pow2_monotone(117, 127);
        }
        let big: u128 = (hs as u128) * g;
        let lsw: u128 = ls as u128;
        let negative: bool;
        let v: u128;
        if hneg == lneg {
            v = big + lsw;
            negative = hneg;
        } else if big > lsw {
            v = big - lsw;
            negative = hneg;
        } else if big < lsw {
            v = lsw - big;
            negative = lneg;
        } else {
            proof {
                assert(self.size() == low.size());
            }
            return Scalar::signed_zero(false);
        }
        let m: u64 = round_ratio(v, 1, li as i32);
        proof {
            let c = pow2(li as nat);
            lemma_nearest_scaling(v as nat, 1, li as int, li as nat);
            assert(self.size() == big * c);
            assert(low.size() == lsw * c);
            if hneg == lneg {
                assert(v * c == self.size() + low.size()) by (nonlinear_arith)
                    requires
                        v == big + lsw,
                        self.size() == big * c,
                        low.size() == lsw * c,
                ;
            } else if big > lsw {
                assert(v * c == self.size() - low.size()) by (nonlinear_arith)
                    requires
                        v == big - lsw,
                        self.size() == big * c,
                        low.size() == lsw * c,
                ;
            } else {
                assert(v * c == low.size() - self.size()) by (nonlinear_arith)
                    requires
                        v == lsw - big,
                        self.size() == big * c,
                        low.size() == lsw * c,
                ;
            }
            assert(v * c > 0) by (nonlinear_arith)
                requires
                    v > 0,
                    c > 0,
            ;
        }
        Scalar::from_parts(negative, m)
    }

    /// `self + other`
    pub fn add(self, other: Scalar) -> (r: Scalar)
        ensures
            r == self.add_spec(other),
    {
        reveal(Scalar::add_spec);
        if self.is_nan() || other.is_nan() {
            return Scalar::not_a_number();
        }
        if self.is_infinite() {
            if other.is_infinite() && self.is_negative() != other.is_negative() {
                return Scalar::not_a_number();
            }
            return self;
        }
        if other.is_infinite() {
            return other;
        }
        let (sa, ia) = self.decompose();
        let (sb, ib) = other.decompose();
        proof {
            lemma_pow2_pos(ia as nat);
            lemma_pow2_pos(ib as nat);
            assert(sa == 0 ==> self.size() == 0) by (nonlinear_arith)
                requires
                    self.size() == sa as nat * pow2(ia as nat),
            ;
            assert(sb == 0 ==> other.size() == 0) by (nonlinear_arith)
                requires
                    other.size() == sb as nat * pow2(ib as nat),
            ;
            assert(sa > 0 ==> self.size() > 0) by (nonlinear_arith)
                requires
                    self.size() == sa as nat * pow2(ia as nat),
                    pow2(ia as nat) > 0,
            ;
            assert(sb > 0 ==> other.size() > 0) by (nonlinear_arith)
                requires
                    other.size() == sb as nat * pow2(ib as nat),
                    pow2(ib as nat) > 0,
            ;
        }
        if sa == 0 {
            if sb == 0 {
                return Scalar::signed_zero(self.is_negative() && other.is_negative());
            }
            proof {
                lemma_nearest_exact(sb as nat, ib as nat);
                lemma_pow2_pos(ib as nat);
                assert(other.size() > 0) by (nonlinear_arith)
                    requires
                        other.size() == sb as nat * pow2(ib as nat),
                        sb > 0,
                        pow2(ib as nat) > 0,
                ;
                assert(self.size() == 0) by (nonlinear_arith)
                    requires
                        self.size() == sa as nat * pow2(ia as nat),
                        sa == 0,
                ;
            }
            return other;
        }
        if sb == 0 {
            proof {
                lemma_nearest_exact(sa as nat, ia as nat);
                lemma_pow2_pos(ia as nat);
                assert(self.size() > 0) by (nonlinear_arith)
                    requires
                        self.size() == sa as nat * pow2(ia as nat),
                        sa > 0,
                        pow2(ia as nat) > 0,
                ;
                assert(other.size() == 0) by (nonlinear_arith)
                    requires
                        other.size() == sb as nat * pow2(ib as nat),
                        sb == 0,
                ;
            }
            return self;
        }
        if ia >= ib {
            self.add_ordered(other)
        } else {
            other.add_ordered(self)
        }
    }

    /// `self - other`
    pub fn sub(self, other: Scalar) -> (r: Scalar)
        ensures
            r == self.sub_spec(other),
    {
        self.add(other.neg())
    }

    /// `self * other`
    pub fn mul(self, other: Scalar) -> (r: Scalar)
        ensures
            r == self.mul_spec(other),
    {
        reveal(Scalar::mul_spec);
        let negative: bool = self.is_negative() != other.is_negative();
        if self.is_nan() || other.is_nan() {
            return Scalar::not_a_number();
        }
        if self.is_infinite() || other.is_infinite() {
            if self.is_zero() || other.is_zero() {
                return Scalar::not_a_number();
            }
            return Scalar::infinity(negative);
        }
        if self.is_zero() || other.is_zero() {
            return Scalar::signed_zero(negative);
        }
        let (sa, ia) = self.decompose();
        let (sb, ib) = other.decompose();
        proof {
            lemma2_to64();
            lemma2_to64_rest();
            lemma_pow2_127();
            assert(sa as nat * sb as nat <= 0x20_0000_0000_0000 * 0x20_0000_0000_0000)
                by (nonlinear_arith)
                requires
                    sa < 0x20_0000_0000_0000,
                    sb < 0x20_0000_0000_0000,
            ;
            assert(sa as nat * sb as nat >= 1) by (nonlinear_arith)
                requires
                    sa >= 1,
                    sb >= 1,
            ;
        }
        let p: u128 = (sa as u128) * (sb as u128);
        let t: i32 = (ia as i32) + (ib as i32) - 1074;
        let m: u64 = round_ratio(p, 1, t);
        Scalar::from_parts(negative, m)
    }

    /// `self / other`
    pub fn div(self, other: Scalar) -> (r: Scalar)
        ensures
            r == self.div_spec(other),
    {
        reveal(Scalar::div_spec);
        let negative: bool = self.is_negative() != other.is_negative();
        if self.is_nan() || other.is_nan() {
            return Scalar::not_a_number();
        }
        if self.is_infinite() {
            if other.is_infinite() {
                return Scalar::not_a_number();
            }
            return Scalar::infinity(negative);
        }
        if other.is_infinite() {
            return Scalar::signed_zero(negative);
        }
        if other.is_zero() {
            if self.is_zero() {
                return Scalar::not_a_number();
            }
            return Scalar::infinity(negative);
        }
        if self.is_zero() {
            return Scalar::signed_zero(negative);
        }
        let (sa, ia) = self.decompose();
        let (sb, ib) = other.decompose();
        let len: u32 = bit_length_u128(sa as u128);
        proof {
            lemma2_to64();
            lemma2_to64_rest();
            lemma_pow2_127();
            lemma_bit_length_bounds(sa as nat);
            if len > 53 {
                lemma_pow2_monotone(53, (len - 1) as nat);
            }
        }
        let z: u32 = 53 - len;
        let shift: u32 = z + 64;
        let g: u128 = pow2_u128(shift);
        proof {
            lemma_shifted_bound(sa as nat, len as nat, shift as nat, 117);
            lemma_pow2_monotone(117, 127);
            lemma_pow2_adds((len - 1) as nat, shift as nat);
            assert(sa as nat * g >= pow2((len - 1) as nat) * g) by (nonlinear_arith)
                requires
                    sa >= pow2((len - 1) as nat),
                    g >= 0,
            ;
            assert(pow2(116) == pow2(63) * pow2(53)) by {
                lemma_pow2_adds(63, 53);
            }
        }
        let n: u128 = (sa as u128) * g;
        let d: u128 = sb as u128;
        let t: i32 = (ia as i32) - (ib as i32) + 1010 - (z as i32);
        proof {
            // the quotient has at least sixty-four digits
            let bound = pow2(63) as int * d as int;
            assert(bound <= n) by (nonlinear_arith)
                requires
                    bound == pow2(63) as int * d as int,
                    n >= pow2(63) * pow2(53),
                    d < pow2(53),
                    pow2(63) > 0,
            ;
            lemma_div_is_ordered(bound, n as int, d as int);
            lemma_div_by_multiple(pow2(63) as int, d as int);
            // the same ratio as in the statement
            let j = (z + 11) as nat;
            lemma_pow2_adds(53, j);
            lemma_mul_is_associative(sa as int, pow2(53) as int, pow2(j) as int);
            assert(n == (sa as nat * pow2(53)) * pow2(j));
            assert(sa as nat * pow2(53) >= d) by (nonlinear_arith)
                requires
                    sa >= 1,
                    pow2(53) > d,
            ;
            lemma_nearest_scaling(
                sa as nat * pow2(53),
                d as nat,
                (ia as int) - (ib as int) + 1021,
                j,
            );
        }
        let m: u64 = round_ratio(n, d, t);
        Scalar::from_parts(negative, m)
    }
}

/// The sum of two finite scalars is a double nearest to their exact sum:
/// where it is finite, no finite double lies nearer.
pub proof fn lemma_add_is_nearest(a: Scalar, b: Scalar, other: Scalar)
    requires
        a.finite(),
        b.finite(),
        other.finite(),
        a.add_spec(b).finite(),
    ensures
        a.units() + b.units() >= 0 ==> distance(a.add_spec(b).size(), (a.units() + b.units()) as nat)
            <= distance(other.size(), (a.units() + b.units()) as nat),
        a.units() + b.units() < 0 ==> distance(a.add_spec(b).size(), (-(a.units() + b.units())) as nat)
            <= distance(other.size(), (-(a.units() + b.units())) as nat),
{
    reveal(Scalar::add_spec);
    lemma2_to64();
    let v = a.units() + b.units();
    if v == 0 {
        lemma_parts(Scalar { bits: 0 });
        lemma_parts(Scalar { bits: 0x8000_0000_0000_0000 });
    } else {
        let n = if v > 0 {
            v as nat
        } else {
            (-v) as nat
        };
        lemma_nearest_is_nearest(n, 1, 0, other);
        assert(n * pow2(0) == n) by (nonlinear_arith)
            requires
                pow2(0) == 1,
        ;
        let r = a.add_spec(b);
        assert(r.size() * 1 == r.size() && other.size() * 1 == other.size());
        assert(r.magnitude() == nearest(n, 1, 0));
        assert(r.size() == (Scalar { bits: nearest(n, 1, 0) as u64 }).size());
    }
}

/// Distances that are the same multiple of two others compare as they do.
proof fn lemma_compare_scaled(mine: nat, theirs: nat, c: nat, x: nat, y: nat)
    requires
        mine <= theirs,
        c > 0,
        x == c * mine,
        y == c * theirs,
    ensures
        x <= y,
{
    assert(c * mine <= c * theirs) by (nonlinear_arith)
        requires
            mine <= theirs,
            c > 0,
    ;
}

/// The product of two finite scalars that are not zero is a double nearest
/// to their exact product: where it is finite, no finite double lies nearer.
/// The sizes are in units of `2^-1074`, so the product of two sizes is
/// compared with `2^1074` times a size.
pub proof fn lemma_mul_is_nearest(a: Scalar, b: Scalar, other: Scalar)
    requires
        a.finite() && !a.zero_valued(),
        b.finite() && !b.zero_valued(),
        other.finite(),
        a.mul_spec(b).finite(),
    ensures
        distance(a.mul_spec(b).size() * pow2(1074), a.size() * b.size()) <= distance(
            other.size() * pow2(1074),
            a.size() * b.size(),
        ),
{
    reveal(Scalar::mul_spec);
    lemma2_to64();
    lemma_parts(a);
    lemma_parts(b);
    let (sa, ia) = (a.significand(), a.scale());
    let (sb, ib) = (b.significand(), b.scale());
    let p = sa * sb;
    let t = ia + ib - 1074;
    assert(p >= 1) by (nonlinear_arith)
        requires
            p == sa * sb,
            sa >= 1,
            sb >= 1,
    ;
    lemma_nearest_is_nearest(p, 1, t, other);
    let r = a.mul_spec(b);
    assert(r.size() == (Scalar { bits: nearest(p, 1, t) as u64 }).size());
    let top = whole_numerator(p, t);
    let bottom = whole_denominator(1, t);
    let mine = distance(r.size() * bottom, top);
    let theirs = distance(other.size() * bottom, top);
    // both sides of the claim are one multiple of these
    let c: nat = if t >= 0 {
        pow2(1074)
    } else {
        pow2(ia + ib)
    };
    lemma_pow2_pos(1074);
    lemma_pow2_pos(ia + ib);
    lemma_pow2_adds(ia, ib);
    if t >= 0 {
        lemma_pow2_adds(t as nat, 1074);
        assert(bottom * c == pow2(1074) && top * c == a.size() * b.size()) by (nonlinear_arith)
            requires
                bottom == 1,
                c == pow2(1074),
                top == p * pow2(t as nat),
                p == sa * sb,
                a.size() == sa * pow2(ia),
                b.size() == sb * pow2(ib),
                pow2(ia + ib) == pow2(ia) * pow2(ib),
                pow2(ia + ib) == pow2(t as nat) * pow2(1074),
        ;
    } else {
        lemma_pow2_adds((-t) as nat, ia + ib);
        assert(bottom * c == pow2(1074) && top * c == a.size() * b.size()) by (nonlinear_arith)
            requires
                bottom == 1 * pow2((-t) as nat),
                c == pow2(ia + ib),
                top == p,
                p == sa * sb,
                a.size() == sa * pow2(ia),
                b.size() == sb * pow2(ib),
                pow2(ia + ib) == pow2(ia) * pow2(ib),
                pow2(1074) == pow2((-t) as nat) * pow2(ia + ib),
        ;
    }
    lemma_distance_scaled(r.size() * bottom, top, c);
    lemma_distance_scaled(other.size() * bottom, top, c);
    lemma_mul_is_associative(r.size() as int, bottom as int, c as int);
    lemma_mul_is_associative(other.size() as int, bottom as int, c as int);
    lemma_compare_scaled(
        mine,
        theirs,
        c,
        distance(r.size() * pow2(1074), a.size() * b.size()),
        distance(other.size() * pow2(1074), a.size() * b.size()),
    );
}

/// The quotient of two finite scalars that are not zero is a double
/// nearest to their exact quotient: where it is finite, no finite double
/// times the divisor lies nearer to the dividend. The sizes are in units of
/// `2^-1074`, so a size times the divisor is compared with `2^1074` times
/// the dividend.
pub proof fn lemma_div_is_nearest(a: Scalar, b: Scalar, other: Scalar)
    requires
        a.finite() && !a.zero_valued(),
        b.finite() && !b.zero_valued(),
        other.finite(),
        a.div_spec(b).finite(),
    ensures
        distance(a.div_spec(b).size() * b.size(), a.size() * pow2(1074)) <= distance(
            other.size() * b.size(),
            a.size() * pow2(1074),
        ),
{
    reveal(Scalar::div_spec);
    lemma2_to64();
    lemma2_to64_rest();
    lemma_parts(a);
    lemma_parts(b);
    let (sa, ia) = (a.significand(), a.scale());
    let (sb, ib) = (b.significand(), b.scale());
    let n = sa * pow2(53);
    let t = ia - ib + 1021;
    assert(n >= sb) by (nonlinear_arith)
        requires
            n == sa * pow2(53),
            sa >= 1,
            pow2(53) > sb,
    ;
    lemma_nearest_is_nearest(n, sb, t, other);
    let r = a.div_spec(b);
    assert(r.size() == (Scalar { bits: nearest(n, sb, t) as u64 }).size());
    let top = whole_numerator(n, t);
    let bottom = whole_denominator(sb, t);
    let mine = distance(r.size() * bottom, top);
    let theirs = distance(other.size() * bottom, top);
    // both sides of the claim are one multiple of these
    let c: nat = if t >= 0 {
        pow2(ib)
    } else {
        pow2(ia + 1021)
    };
    lemma_pow2_pos(ib);
    lemma_pow2_pos(ia + 1021);
    lemma_pow2_adds(ia, 1074);
    lemma_pow2_adds(53, ia + 1021);
    if t >= 0 {
        lemma_pow2_adds(t as nat, ib);
        assert(bottom * c == b.size() && top * c == a.size() * pow2(1074)) by (nonlinear_arith)
            requires
                bottom == sb,
                c == pow2(ib),
                top == (sa * pow2(53)) * pow2(t as nat),
                a.size() == sa * pow2(ia),
                b.size() == sb * pow2(ib),
                pow2(ia + 1074) == pow2(ia) * pow2(1074),
                pow2(ia + 1074) == pow2(53) * pow2(ia + 1021),
                pow2(ia + 1021) == pow2(t as nat) * pow2(ib),
        ;
    } else {
        lemma_pow2_adds((-t) as nat, ia + 1021);
        assert(bottom * c == b.size() && top * c == a.size() * pow2(1074)) by (nonlinear_arith)
            requires
                bottom == sb * pow2((-t) as nat),
                c == pow2(ia + 1021),
                top == sa * pow2(53),
                a.size() == sa * pow2(ia),
                b.size() == sb * pow2(ib),
                pow2(ia + 1074) == pow2(ia) * pow2(1074),
                pow2(ia + 1074) == pow2(53) * pow2(ia + 1021),
                pow2(ib) == pow2((-t) as nat) * pow2(ia + 1021),
        ;
    }
    lemma_distance_scaled(r.size() * bottom, top, c);
    lemma_distance_scaled(other.size() * bottom, top, c);
    lemma_mul_is_associative(r.size() as int, bottom as int, c as int);
    lemma_mul_is_associative(other.size() as int, bottom as int, c as int);
    lemma_compare_scaled(
        mine,
        theirs,
        c,
        distance(r.size() * b.size(), a.size() * pow2(1074)),
        distance(other.size() * b.size(), a.size() * pow2(1074)),
    );
}

/// The sum does not depend on the order of its terms, bit for bit.
pub proof fn lemma_add_commutes(x: Scalar, y: Scalar)
    ensures
        x.add_spec(y) == y.add_spec(x),
{
    reveal(Scalar::add_spec);
}

/// The product does not depend on the order of its factors, bit for bit.
pub proof fn lemma_mul_commutes(x: Scalar, y: Scalar)
    ensures
        x.mul_spec(y) == y.mul_spec(x),
{
    reveal(Scalar::mul_spec);
    lemma_mul_is_commutative(x.significand() as int, y.significand() as int);
}

/// A finite scalar minus itself is the positive zero.
pub proof fn lemma_sub_self(x: Scalar)
    requires
        x.finite(),
    ensures
        x.sub_spec(x).bits == 0,
{
    reveal(Scalar::add_spec);
    lemma_parts(x);
    lemma_parts(x.neg_spec());
}

/// A square is never negative, and the square of a scalar that is not
/// smaller in size than `1e-8` is not zero.
pub proof fn lemma_square(c: Scalar)
    ensures
        !c.mul_spec(c).negative(),
        c.magnitude() >= 0x3e45_798e_e230_8c3a ==> !c.mul_spec(c).zero_valued(),
{
    reveal(Scalar::mul_spec);
    if c.finite() && c.magnitude() >= 0x3e45_798e_e230_8c3a {
        lemma_parts(c);
        lemma2_to64();
        lemma2_to64_rest();
        let sig = c.significand();
        let p = sig * sig;
        assert(c.exponent_field() >= 996);
        lemma_pow2_adds(52, 52);
        assert(p >= pow2(52) * pow2(52)) by (nonlinear_arith)
            requires
                p == sig * sig,
                sig >= pow2(52),
        ;
        assert(p / 1 == p);
        lemma_bit_length_bounds(p);
        if bit_length(p) <= 104 {
            lemma_pow2_monotone(bit_length(p), 104);
        }
        lemma_nearest_is_not_zero(p, 1, c.scale() + c.scale() - 1074);
    }
}

/// The sum of two scalars without a minus sign has none, and it is zero
/// only where both are.
pub proof fn lemma_add_without_sign(a: Scalar, b: Scalar)
    requires
        !a.negative(),
        !b.negative(),
    ensures
        !a.add_spec(b).negative(),
        !a.zero_valued() || !b.zero_valued() ==> !a.add_spec(b).zero_valued(),
{
    reveal(Scalar::add_spec);
    if a.finite() && b.finite() {
        lemma_parts(a);
        lemma_parts(b);
        let v = (a.size() + b.size()) as nat;
        if v > 0 {
            lemma_nearest_is_not_zero(v, 1, 0);
        }
    }
}

/// Adding a zero changes no value; it changes no bit of a scalar that is
/// not itself a zero.
pub proof fn lemma_add_zero(x: Scalar, z: Scalar)
    requires
        !x.nan(),
        z.zero_valued(),
    ensures
        x.add_spec(z).same_value(x),
        z.add_spec(x).same_value(x),
        !x.zero_valued() ==> x.add_spec(z) == x && z.add_spec(x) == x,
{
    reveal(Scalar::add_spec);
    if x.finite() {
        lemma_parts(x);
        lemma_parts(z);
        if !x.zero_valued() {
            lemma_nearest_exact(x.significand(), x.scale());
        }
    }
}

/// A finite scalar times a zero is a zero.
pub proof fn lemma_mul_zero(x: Scalar, z: Scalar)
    requires
        x.finite(),
        z.zero_valued(),
    ensures
        x.mul_spec(z).zero_valued(),
        z.mul_spec(x).zero_valued(),
{
    reveal(Scalar::mul_spec);
}

/// Multiplying by one changes nothing but the bits of a NaN.
pub proof fn lemma_mul_one(x: Scalar)
    ensures
        !x.nan() ==> x.mul_spec(Scalar { bits: 0x3ff0_0000_0000_0000 }) == x,
        x.nan() ==> x.mul_spec(Scalar { bits: 0x3ff0_0000_0000_0000 }).nan(),
{
    reveal(Scalar::mul_spec);
    let one = Scalar { bits: 0x3ff0_0000_0000_0000 };
    assert(one.magnitude() == 0x3ff0_0000_0000_0000);
    assert(one.exponent_field() == 1023 && one.fraction() == 0);
    assert(one.significand() == HIDDEN_BIT && one.scale() == 1022);
    if x.finite() && !x.zero_valued() {
        lemma_parts(x);
        lemma2_to64();
        lemma2_to64_rest();
        lemma_nearest_scaling(x.significand(), 1, x.scale() as int, 52);
        lemma_nearest_exact(x.significand(), x.scale());
    }
}

/// The product with the opposite factor is the opposite product.
pub proof fn lemma_mul_neg(a: Scalar, b: Scalar)
    ensures
        a.mul_spec(b).nan() <==> a.mul_spec(b.neg_spec()).nan(),
        !a.mul_spec(b).nan() ==> a.mul_spec(b.neg_spec()) == a.mul_spec(b).neg_spec(),
        !a.mul_spec(b).nan() ==> a.mul_spec(b).opposite(a.mul_spec(b.neg_spec())),
{
    reveal(Scalar::mul_spec);
}

/// Scalars of opposite value have opposite units.
proof fn lemma_opposite_units(x: Scalar, y: Scalar)
    requires
        x.opposite(y),
        x.finite(),
    ensures
        y.finite(),
        y.units() == -x.units(),
{
    lemma_parts(x);
    lemma_parts(y);
}

/// The sum of the opposites is the opposite of the sum.
pub proof fn lemma_add_opposites(x: Scalar, y: Scalar, x2: Scalar, y2: Scalar)
    requires
        x.opposite(x2),
        y.opposite(y2),
        !x.add_spec(y).nan(),
    ensures
        x.add_spec(y).opposite(x2.add_spec(y2)),
{
    reveal(Scalar::add_spec);
    if x.finite() && y.finite() {
        lemma_opposite_units(x, x2);
        lemma_opposite_units(y, y2);
    }
}

/// A sum with a NaN is the one NaN pattern, and every sum that is a NaN
/// is that pattern.
pub proof fn lemma_add_nan(x: Scalar, y: Scalar)
    ensures
        x.nan() || y.nan() ==> x.add_spec(y).bits == NAN_BITS,
        x.add_spec(y).nan() ==> x.add_spec(y).bits == NAN_BITS,
{
    reveal(Scalar::add_spec);
}

} // verus!
