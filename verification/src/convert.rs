//! Exact conversions between whole numbers and scalars.
use crate::rounding::{
    bit_length, lemma_bit_length_bounds, lemma_nearest_of_whole, lemma_pow2_monotone, nearest,
    pow2_u128, round_ratio,
};
use crate::scalar::{lemma_parts, Scalar, HIDDEN_BIT};
use vstd::arithmetic::power2::*;
use vstd::prelude::*;

verus! {

impl Scalar {
    /// The scalar with the value `n`.
    pub open spec fn from_u8_spec(n: u8) -> Scalar {
        if n == 0 {
            Scalar { bits: 0 }
        } else {
            Scalar { bits: nearest(n as nat, 1, 1074) as u64 }
        }
    }

    /// The scalar in `[0, 1)` made of the upper fifty-three bits of `x`:
    /// `(x / 2^11) * 2^-53`.
    pub open spec fn unit_interval_spec(x: u64) -> Scalar {
        if x / 2048 == 0 {
            Scalar { bits: 0 }
        } else {
            Scalar { bits: nearest((x / 2048) as nat, 1, 1021) as u64 }
        }
    }

    /// At least zero and below one.
    pub open spec fn in_unit_interval(self) -> bool {
        Scalar { bits: 0 }.le_spec(self) && self.lt_spec(Scalar { bits: 0x3ff0_0000_0000_0000 })
    }

    /// The whole part of a scalar as a byte: `0` for a NaN and for
    /// everything below one, `255` for everything from `255` on.
    pub open spec fn floor_u8_spec(self) -> u8 {
        if self.nan() || self.negative() || self.exponent_field() < 1023 {
            0
        } else if self.exponent_field() >= 1031 {
            255
        } else {
            (self.significand() / pow2((1075 - self.exponent_field()) as nat)) as u8
        }
    }

    pub fn from_u8(n: u8) -> (r: Scalar)
        ensures
            r == Scalar::from_u8_spec(n),
            r.units() == n * pow2(1074),
    {
        proof {
            lemma_from_u8_value(n);
        }
        if n == 0 {
            Scalar::zero()
        } else {
            Scalar::from_parts(false, round_ratio(n as u128, 1, 1074))
        }
    }

    pub fn unit_interval(x: u64) -> (r: Scalar)
        ensures
            r == Scalar::unit_interval_spec(x),
            r.units() == (x / 2048) * pow2(1021),
            r.in_unit_interval(),
    {
        proof {
            lemma_unit_interval_value(x);
        }
        let k: u64 = x / 2048;
        if k == 0 {
            Scalar::zero()
        } else {
            Scalar::from_parts(false, round_ratio(k as u128, 1, 1021))
        }
    }

    pub fn floor_u8(self) -> (r: u8)
        ensures
            r == self.floor_u8_spec(),
    {
        if self.is_nan() || self.is_negative() {
            return 0;
        }
        let m: u64 = self.magnitude_bits();
        let e: u64 = m / HIDDEN_BIT;
        if e < 1023 {
            return 0;
        }
        if e >= 1031 {
            return 255;
        }
        let sig: u64 = m % HIDDEN_BIT + HIDDEN_BIT;
        let shift: u32 = (1075 - e) as u32;
        let p: u128 = pow2_u128(shift);
        let whole: u128 = (sig as u128) / p;
        proof {
            // sig < 2^53 and p >= 2^45, so the quotient is below 2^8
            lemma2_to64();
            lemma2_to64_rest();
            lemma_pow2_monotone(45, shift as nat);
            assert(whole < 256) by (nonlinear_arith)
                requires
                    whole == sig as u128 / p,
                    sig < 0x20_0000_0000_0000,
                    p >= 0x2000_0000_0000,
            ;
        }
        whole as u8
    }
}

/// The scalar made of a byte has the value of the byte: `n * 2^1074`
/// units.
pub proof fn lemma_from_u8_value(n: u8)
    ensures
        Scalar::from_u8_spec(n).units() == n * pow2(1074),
        !Scalar::from_u8_spec(n).negative(),
{
    lemma2_to64();
    if n == 0 {
        lemma_parts(Scalar { bits: 0 });
    } else {
        lemma_bit_length_bounds(n as nat);
        if bit_length(n as nat) > 8 {
            lemma_pow2_monotone(8, (bit_length(n as nat) - 1) as nat);
        }
        lemma_nearest_of_whole(n as nat, 1074);
    }
}

/// The scalar made of the upper bits of a draw has the value
/// `(x / 2^11) * 2^-53`, which is `(x / 2^11) * 2^1021` units, and lies in
/// `[0, 1)`.
pub proof fn lemma_unit_interval_value(x: u64)
    ensures
        Scalar::unit_interval_spec(x).units() == (x / 2048) * pow2(1021),
        Scalar::unit_interval_spec(x).in_unit_interval(),
{
    lemma2_to64();
    lemma2_to64_rest();
    let k = (x / 2048) as nat;
    if k == 0 {
        lemma_parts(Scalar { bits: 0 });
    } else {
        lemma_bit_length_bounds(k);
        if bit_length(k) > 53 {
            lemma_pow2_monotone(53, (bit_length(k) - 1) as nat);
        }
        lemma_nearest_of_whole(k, 1021);
    }
}

} // verus!
