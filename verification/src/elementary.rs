//! The sine and the cosine of a part of a full turn.
//!
//! Neither is rounded correctly to the last place: each is the value of a
//! power series cut after ten terms, computed in double arithmetic, and the
//! contracts say which.
use crate::scalar::Scalar;
use vstd::prelude::*;

verus! {

/// `(-1)^k / (2k)!` for `k` from zero to nine.
pub const COSINE_SERIES: [u64; 10] = [
    0x3ff0_0000_0000_0000,
    0xbfe0_0000_0000_0000,
    0x3fa5_5555_5555_5555,
    0xbf56_c16c_16c1_6c17,
    0x3efa_01a0_1a01_a01a,
    0xbe92_7e4f_b778_9f5c,
    0x3e21_eed8_eff8_d898,
    0xbda9_3974_a8c0_7c9d,
    0x3d2a_e7f3_e733_b81f,
    0xbca6_8278_63b9_7d97,
];

/// `(-1)^k / (2k + 1)!` for `k` from zero to nine.
pub const SINE_SERIES: [u64; 10] = [
    0x3ff0_0000_0000_0000,
    0xbfc5_5555_5555_5555,
    0x3f81_1111_1111_1111,
    0xbf2a_01a0_1a01_a01a,
    0x3ec7_1de3_a556_c734,
    0xbe5a_e645_67f5_44e4,
    0x3de6_1246_13a8_6d09,
    0xbd6a_e7f3_e733_b81f,
    0x3ce9_52c7_7030_ad4a,
    0xbc62_f49b_4681_4157,
];

/// The bits of `2 * pi`.
pub const FULL_TURN_BITS: u64 = 0x4019_21fb_5444_2d18;

/// The polynomial `c[0] + x * (c[1] + x * (c[2] + ...))`, evaluated from the
/// inside out.
pub open spec fn series(coefficients: Seq<u64>, x: Scalar) -> Scalar
    decreases coefficients.len(),
{
    if coefficients.len() == 0 {
        Scalar { bits: 0 }
    } else {
        Scalar { bits: coefficients[0] }.add_spec(x.mul_spec(series(coefficients.skip(1), x)))
    }
}

/// The cosine of the angle `theta`, for an angle of at most an eighth of a
/// turn: its power series up to `theta^18`.
pub open spec fn cosine_near_zero(theta: Scalar) -> Scalar {
    series(COSINE_SERIES@, theta.mul_spec(theta))
}

/// The sine of the angle `theta`, for an angle of at most an eighth of a
/// turn: its power series up to `theta^19`.
pub open spec fn sine_near_zero(theta: Scalar) -> Scalar {
    theta.mul_spec(series(SINE_SERIES@, theta.mul_spec(theta)))
}

/// The quarter turn nearest to `v` turns, for `v` in `[0, 1)`: `0` to `4`.
pub open spec fn quarter_of(v: Scalar) -> nat {
    if v.lt_spec(Scalar { bits: 0x3fc0_0000_0000_0000 }) {
        0
    } else if v.lt_spec(Scalar { bits: 0x3fd8_0000_0000_0000 }) {
        1
    } else if v.lt_spec(Scalar { bits: 0x3fe4_0000_0000_0000 }) {
        2
    } else if v.lt_spec(Scalar { bits: 0x3fec_0000_0000_0000 }) {
        3
    } else {
        4
    }
}

/// The bits of `quarter / 4`.
pub open spec fn quarter_bits(quarter: nat) -> u64 {
    if quarter == 0 {
        0
    } else if quarter == 1 {
        0x3fd0_0000_0000_0000
    } else if quarter == 2 {
        0x3fe0_0000_0000_0000
    } else if quarter == 3 {
        0x3fe8_0000_0000_0000
    } else {
        0x3ff0_0000_0000_0000
    }
}

/// The angle left after the nearest quarter turn is taken away:
/// `2 * pi * (v - quarter / 4)`.
pub open spec fn residual_angle(v: Scalar) -> Scalar {
    Scalar { bits: FULL_TURN_BITS }.mul_spec(
        v.sub_spec(Scalar { bits: quarter_bits(quarter_of(v)) }),
    )
}

/// The polynomial with the given coefficients at `x`.
pub fn evaluate_series(coefficients: &[u64; 10], x: Scalar) -> (r: Scalar)
    ensures
        r == series(coefficients@, x),
{
    let mut acc: Scalar = Scalar::zero();
    let mut i: usize = 10;
    assert(coefficients@.skip(10) =~= Seq::<u64>::empty());
    while i > 0
        invariant
            i <= 10,
            acc == series(coefficients@.skip(i as int), x),
        decreases i,
    {
        i = i - 1;
        assert(coefficients@.skip(i as int).skip(1) =~= coefficients@.skip(i + 1));
        acc = Scalar::from_bits(coefficients[i]).add(x.mul(acc));
    }
    assert(coefficients@.skip(0) =~= coefficients@);
    acc
}

impl Scalar {
    /// The cosine of `self` turns, that is of the angle `2 * pi * self`.
    /// It is meant for `self` in `[0, 1)`.
    #[verifier::opaque]
    pub open spec fn cos_turns_spec(self) -> Scalar {
        let theta = residual_angle(self);
        let quarter = quarter_of(self);
        if quarter == 1 {
            sine_near_zero(theta).neg_spec()
        } else if quarter == 2 {
            cosine_near_zero(theta).neg_spec()
        } else if quarter == 3 {
            sine_near_zero(theta)
        } else {
            cosine_near_zero(theta)
        }
    }

    /// The sine of `self` turns, that is of the angle `2 * pi * self`.
    /// It is meant for `self` in `[0, 1)`.
    #[verifier::opaque]
    pub open spec fn sin_turns_spec(self) -> Scalar {
        let theta = residual_angle(self);
        let quarter = quarter_of(self);
        if quarter == 1 {
            cosine_near_zero(theta)
        } else if quarter == 2 {
            sine_near_zero(theta).neg_spec()
        } else if quarter == 3 {
            cosine_near_zero(theta).neg_spec()
        } else {
            sine_near_zero(theta)
        }
    }

    fn quarter(self) -> (q: u8)
        ensures
            q == quarter_of(self),
    {
        if self.lt(Scalar::from_bits(0x3fc0_0000_0000_0000)) {
            0
        } else if self.lt(Scalar::from_bits(0x3fd8_0000_0000_0000)) {
            1
        } else if self.lt(Scalar::from_bits(0x3fe4_0000_0000_0000)) {
            2
        } else if self.lt(Scalar::from_bits(0x3fec_0000_0000_0000)) {
            3
        } else {
            4
        }
    }

    fn residual(self, quarter: u8) -> (theta: Scalar)
        requires
            quarter == quarter_of(self),
        ensures
            theta == residual_angle(self),
    {
        let base: u64 = if quarter == 0 {
            0
        } else if quarter == 1 {
            0x3fd0_0000_0000_0000
        } else if quarter == 2 {
            0x3fe0_0000_0000_0000
        } else if quarter == 3 {
            0x3fe8_0000_0000_0000
        } else {
            0x3ff0_0000_0000_0000
        };
        Scalar::from_bits(FULL_TURN_BITS).mul(self.sub(Scalar::from_bits(base)))
    }

    fn cosine_small(self) -> (r: Scalar)
        ensures
            r == cosine_near_zero(self),
    {
        evaluate_series(&COSINE_SERIES, self.mul(self))
    }

    fn sine_small(self) -> (r: Scalar)
        ensures
            r == sine_near_zero(self),
    {
        self.mul(evaluate_series(&SINE_SERIES, self.mul(self)))
    }

    pub fn cos_turns(self) -> (r: Scalar)
        ensures
            r == self.cos_turns_spec(),
    {
        reveal(Scalar::cos_turns_spec);
        let quarter: u8 = self.quarter();
        let theta: Scalar = self.residual(quarter);
        if quarter == 1 {
            theta.sine_small().neg()
        } else if quarter == 2 {
            theta.cosine_small().neg()
        } else if quarter == 3 {
            theta.sine_small()
        } else {
            theta.cosine_small()
        }
    }

    pub fn sin_turns(self) -> (r: Scalar)
        ensures
            r == self.sin_turns_spec(),
    {
        reveal(Scalar::sin_turns_spec);
        let quarter: u8 = self.quarter();
        let theta: Scalar = self.residual(quarter);
        if quarter == 1 {
            theta.cosine_small()
        } else if quarter == 2 {
            theta.sine_small().neg()
        } else if quarter == 3 {
            theta.cosine_small().neg()
        } else {
            theta.sine_small()
        }
    }
}

} // verus!
