//! The square root of a scalar, rounded to the nearest double.
use crate::rounding::{
    bit_length, bit_length_u128, lemma_bit_length_bounds, lemma_bit_length_unique,
    lemma_bits_of_multiple, lemma_no_double_between, lemma_pow2_127, lemma_pow2_monotone,
    lemma_shifted_bound, pow2_u128,
};
use crate::scalar::{lemma_parts, Scalar, HIDDEN_BIT, INFINITY_BITS, NAN_BITS};
use vstd::arithmetic::div_mod::*;
use vstd::arithmetic::mul::*;
use vstd::arithmetic::power2::*;
use vstd::prelude::*;

verus! {

/// `r` is the whole part of the square root of `n`.
pub open spec fn is_root(r: nat, n: nat) -> bool {
    r * r <= n < (r + 1) * (r + 1)
}

/// The whole part of the square root of `n`.
pub open spec fn integer_root(n: nat) -> nat {
    choose|r: nat| is_root(r, n)
}

/// The magnitude bits of the double nearest to the square root of `n`, both
/// counted in units of `2^-1074`.
///
/// The whole part of the root is cut to fifty-three binary digits; it is
/// rounded up when `n` lies above the square of the midpoint to the next
/// double, which is compared in doubled form to stay in whole numbers.
pub open spec fn nearest_root(n: nat) -> nat {
    let r = integer_root(n);
    let len = bit_length(r);
    let s = if len > 53 {
        (len - 53) as nat
    } else {
        0
    };
    let sig = r / pow2(s);
    let mid = (2 * sig + 1) * pow2(s);
    let up: nat = if 4 * n > mid * mid || (4 * n == mid * mid && sig % 2 == 1) {
        1
    } else {
        0
    };
    (s * HIDDEN_BIT + sig + up) as nat
}

/// A number has one whole root only.
pub proof fn lemma_root_unique(r1: nat, r2: nat, n: nat)
    requires
        is_root(r1, n),
        is_root(r2, n),
    ensures
        r1 == r2,
{
    if r1 < r2 {
        assert((r1 + 1) * (r1 + 1) <= r2 * r2) by (nonlinear_arith)
            requires
                r1 + 1 <= r2,
        ;
    }
    if r2 < r1 {
        assert((r2 + 1) * (r2 + 1) <= r1 * r1) by (nonlinear_arith)
            requires
                r2 + 1 <= r1,
        ;
    }
}

/// Every number has a whole root.
pub proof fn lemma_root_exists(n: nat)
    ensures
        is_root(integer_root(n), n),
    decreases n,
{
    if n == 0 {
        assert(0nat * 0nat <= 0 < (0nat + 1) * (0nat + 1)) by (nonlinear_arith);
        assert(is_root(0, 0));
    } else {
        lemma_root_exists((n - 1) as nat);
        let r = integer_root((n - 1) as nat);
        if (r + 1) * (r + 1) <= n {
            assert((r + 2) * (r + 2) > (r + 1) * (r + 1)) by (nonlinear_arith);
            assert(is_root(r + 1, n));
        } else {
            assert(is_root(r, n));
        }
    }
}

/// The one `r` with `r * r <= n < (r + 1) * (r + 1)` is the root.
pub proof fn lemma_root_is(r: nat, n: nat)
    requires
        is_root(r, n),
    ensures
        integer_root(n) == r,
{
    lemma_root_unique(r, integer_root(n), n);
}

/// The root of `a * g * g` lies between `r * g` and `(r + 1) * g`, where `r`
/// is the root of `a`; so cutting it by `g` gives `r`.
pub proof fn lemma_root_scaled(a: nat, r: nat, g: nat)
    requires
        is_root(r, a),
        g > 0,
    ensures
        r * g <= integer_root(a * g * g) < (r + 1) * g,
        integer_root(a * g * g) / g == r,
{
    let n = a * g * g;
    let big = integer_root(n);
    lemma_root_exists(n);
    assert((r * g) * (r * g) <= n) by (nonlinear_arith)
        requires
            r * r <= a,
            n == a * g * g,
    ;
    assert(n < ((r + 1) * g) * ((r + 1) * g)) by (nonlinear_arith)
        requires
            a + 1 <= (r + 1) * (r + 1), 
            n == a * g * g,
            g > 0,
    ;
    if big < r * g {
        assert((big + 1) * (big + 1) <= (r * g) * (r * g)) by (nonlinear_arith)
            requires
                big + 1 <= r * g,
        ;
    }
    if big >= (r + 1) * g {
        assert(big * big >= ((r + 1) * g) * ((r + 1) * g)) by (nonlinear_arith)
            requires
                big >= (r + 1) * g,
        ;
    }
    assert((r + 1) * g == r * g + g) by (nonlinear_arith);
    lemma_fundamental_div_mod_converse(big as int, g as int, r as int, big - r * g);
}

/// The whole part of the square root of a number below `2^106`.
pub(crate) fn integer_root_u128(x: u128) -> (r: u128)
    requires
        x < 0x400_0000_0000_0000_0000_0000_0000,
    ensures
        r == integer_root(x as nat),
        is_root(r as nat, x as nat),
        r < 0x20_0000_0000_0000,
{
    let mut lo: u128 = 0;
    let mut hi: u128 = 0x20_0000_0000_0000;
    assert(0x20_0000_0000_0000u128 * 0x20_0000_0000_0000u128
        == 0x400_0000_0000_0000_0000_0000_0000u128) by (nonlinear_arith);
    while hi - lo > 1
        invariant
            lo < hi <= 0x20_0000_0000_0000,
            lo * lo <= x < hi * hi,
        decreases hi - lo,
    {
        let mid: u128 = lo + (hi - lo) / 2;
        assert(mid * mid < 0x20_0000_0000_0000 * 0x20_0000_0000_0000) by (nonlinear_arith)
            requires
                mid < 0x20_0000_0000_0000,
        ;
        if mid * mid <= x {
            lo = mid;
        } else {
            hi = mid;
        }
    }
    proof {
        assert(is_root(lo as nat, x as nat));
        lemma_root_is(lo as nat, x as nat);
    }
    lo
}

impl Scalar {
    /// The square root of a NaN or of a negative number is not a number;
    /// that of either zero is the same zero.
    #[verifier::opaque]
    pub open spec fn sqrt_spec(self) -> Scalar {
        if self.nan() {
            Scalar { bits: NAN_BITS }
        } else if self.zero_valued() {
            self
        } else if self.negative() {
            Scalar { bits: NAN_BITS }
        } else if self.infinite() {
            self
        } else {
            Scalar::compose(false, nearest_root(self.size() * pow2(1074)) as u64)
        }
    }

    /// The square root of `self`
    pub fn sqrt(self) -> (r: Scalar)
        ensures
            r == self.sqrt_spec(),
    {
        reveal(Scalar::sqrt_spec);
        if self.is_nan() {
            return Scalar::not_a_number();
        }
        if self.is_zero() {
            return self;
        }
        if self.is_negative() {
            return Scalar::not_a_number();
        }
        if self.is_infinite() {
            return self;
        }
        let (sa, ia) = self.decompose();
        let len: u32 = bit_length_u128(sa as u128);
        proof {
            lemma2_to64();
            lemma2_to64_rest();
            lemma_pow2_127();
            lemma_bit_length_bounds(sa as nat);
            if len > 53 {
                lemma_pow2_monotone(53, (len - 1) as nat);
            }
        }
        let z: u32 = 53 - len;
        // the value is `wide * 2^e2` units of `2^-2148`, with `e2` even
        let e: u32 = ia + 1074 - z;
        let odd: u32 = e % 2;
        let h: u32 = e / 2;
        let g: u128 = pow2_u128(z + odd);
        proof {
            lemma_shifted_bound(sa as nat, len as nat, (z + odd) as nat, 54);
            lemma_pow2_adds((len - 1) as nat, (z + odd) as nat);
            lemma_pow2_monotone(52, (52 + odd) as nat);
            assert(sa as nat * g >= pow2((len - 1) as nat) * g) by (nonlinear_arith)
                requires
                    sa >= pow2((len - 1) as nat),
                    g >= 0,
            ;
        }
        let wide: u128 = (sa as u128) * g;
        let a52: u128 = wide * 0x10_0000_0000_0000;
        let sig: u128 = integer_root_u128(a52);
        let a54: u128 = wide * 0x40_0000_0000_0000;
        let mid: u128 = 2 * sig + 1;
        assert(mid * mid < 0x40_0000_0000_0000 * 0x40_0000_0000_0000) by (nonlinear_arith)
            requires
                mid < 0x40_0000_0000_0000,
        ;
        let up: bool = a54 > mid * mid || (a54 == mid * mid && sig % 2 == 1);
        let s: u32 = h - 26;
        proof {
            let n = self.size() * pow2(1074);
            let gs = pow2(s as nat);
            lemma_pow2_pos(s as nat);
            // n == a52 * gs * gs
            lemma_pow2_adds(ia as nat, 1074);
            lemma_pow2_adds((z + odd) as nat, (2 * h) as nat);
            lemma_pow2_adds(52, (2 * s) as nat);
            lemma_pow2_adds(s as nat, s as nat);
            assert(n == a52 * gs * gs) by (nonlinear_arith)
                requires
                    n == (sa as nat * pow2(ia as nat)) * pow2(1074),
                    pow2((ia + 1074) as nat) == pow2(ia as nat) * pow2(1074),
                    pow2((ia + 1074) as nat) == pow2((z + odd) as nat) * pow2((2 * h) as nat),
                    pow2((2 * h) as nat) == pow2(52) * pow2((2 * s) as nat),
                    pow2((2 * s) as nat) == gs * gs,
                    a52 == (sa as nat * pow2((z + odd) as nat)) * pow2(52),
            ;
            lemma_root_scaled(a52 as nat, sig as nat, gs);
            let big = integer_root(n);
            // sig has fifty-three digits, so the root has fifty-three more than s
            assert(sig >= pow2(52)) by {
                if sig < pow2(52) {
                    assert((sig + 1) * (sig + 1) <= pow2(52) * pow2(52)) by (nonlinear_arith)
                        requires
                            sig + 1 <= pow2(52),
                    ;
                    assert(a52 >= pow2(52) * pow2(52)) by (nonlinear_arith)
                        requires
                            a52 == wide * pow2(52),
                            wide >= pow2(52),
                    ;
                }
            }
            lemma_pow2_adds(52, s as nat);
            lemma_pow2_adds(53, s as nat);
            assert(sig * gs >= pow2(52) * gs) by (nonlinear_arith)
                requires
                    sig >= pow2(52),
                    gs > 0,
            ;
            assert((sig + 1) * gs <= pow2(53) * gs) by (nonlinear_arith)
                requires
                    sig + 1 <= pow2(53),
                    gs > 0,
            ;
            lemma_bit_length_unique(big, (53 + s) as nat);
            // the comparison with the midpoint, cut by gs * gs
            let m2 = (2 * sig + 1) * gs;
            assert(4 * n == a54 * (gs * gs)) by (nonlinear_arith)
                requires
                    n == a52 * gs * gs,
                    a52 == wide * 0x10_0000_0000_0000,
                    a54 == wide * 0x40_0000_0000_0000,
            ;
            assert(m2 * m2 == (mid * mid) * (gs * gs)) by (nonlinear_arith)
                requires
                    m2 == mid * gs,
            ;
            lemma_mul_strictly_positive(gs as int, gs as int);
            let gg = gs * gs;
            let x = a54 as int;
            let y = (mid * mid) as int;
            assert((x * gg > y * gg <==> x > y) && (x * gg == y * gg <==> x == y))
                by (nonlinear_arith)
                requires
                    gg > 0,
            ;
        }
        let m: u64 = (s as u64) * HIDDEN_BIT + (sig as u64) + (if up {
            1u64
        } else {
            0u64
        });
        Scalar::from_parts(false, m)
    }
}

/// Rounding a square root gives a nearest double: the root of `n` lies on
/// the rounded side of the midpoint to every other finite double. The
/// midpoints are compared in doubled form, by their squares.
pub proof fn lemma_nearest_root_is_nearest(n: nat, other: Scalar)
    requires
        bit_length(integer_root(n)) > 53,
        nearest_root(n) < INFINITY_BITS,
        other.finite(),
    ensures
        ({
            let x = (Scalar { bits: nearest_root(n) as u64 }).size();
            let y = other.size();
            &&& y < x ==> (y + x) * (y + x) <= 4 * n
            &&& y > x ==> (y + x) * (y + x) >= 4 * n
        }),
{
    lemma2_to64();
    lemma2_to64_rest();
    let r = integer_root(n);
    let len = bit_length(r);
    let s = (len - 53) as nat;
    let g = pow2(s);
    let sig = r / g;
    let low = r % g;
    let mid = (2 * sig + 1) * g;
    let up: nat = if 4 * n > mid * mid || (4 * n == mid * mid && sig % 2 == 1) {
        1
    } else {
        0
    };
    let x = (Scalar { bits: nearest_root(n) as u64 }).size();
    let y = other.size();
    lemma_root_exists(n);
    lemma_bit_length_bounds(r);
    lemma_pow2_pos(s);
    lemma_pow2_adds(52, s);
    lemma_pow2_adds(53, s);
    lemma_fundamental_div_mod(r as int, g as int);
    lemma_mod_bound(r as int, g as int);
    assert(pow2(52) <= sig < pow2(53)) by (nonlinear_arith)
        requires
            r == g * sig + low,
            0 <= low < g,
            pow2(52) * g <= r < pow2(53) * g,
            g > 0,
    ;
    lemma_bits_of_multiple(s, sig + up);
    assert(x == (sig + up) * g);
    lemma_no_double_between(other, s, sig);
    // sig * g <= r < (sig + 1) * g
    assert(sig * g <= r && r + 1 <= (sig + 1) * g) by (nonlinear_arith)
        requires
            r == g * sig + low,
            0 <= low < g,
    ;
    assert((sig + 1) * g == sig * g + g) by (nonlinear_arith);
    assert(mid == sig * g + (sig + 1) * g) by (nonlinear_arith)
        requires
            mid == (2 * sig + 1) * g,
    ;
    let sum = y + x;
    if y < x {
        if up == 0 {
            assert(sum * sum <= 4 * (r * r)) by (nonlinear_arith)
                requires
                    sum <= 2 * r,
            ;
        } else {
            assert(sum * sum <= mid * mid) by (nonlinear_arith)
                requires
                    sum <= mid,
            ;
        }
    }
    if y > x {
        if up == 1 {
            assert(sum * sum >= 4 * ((r + 1) * (r + 1))) by (nonlinear_arith)
                requires
                    sum >= 2 * (r + 1),
            ;
        } else {
            assert(sum * sum >= mid * mid) by (nonlinear_arith)
                requires
                    sum >= mid,
            ;
        }
    }
}

/// The whole root of `size * 2^1074`, for the size of a finite scalar that
/// is not zero, has between 538 and 1586 binary digits, so that the bits of
/// the rounded root are those of a finite scalar above zero.
pub proof fn lemma_root_digits(x: Scalar)
    requires
        x.finite(),
        !x.zero_valued(),
    ensures
        538 <= bit_length(integer_root(x.size() * pow2(1074))) <= 1586,
        0 < nearest_root(x.size() * pow2(1074)) < 1540 * HIDDEN_BIT,
{
    lemma_parts(x);
    let n = x.size() * pow2(1074);
    let r = integer_root(n);
    let len = bit_length(r);
    lemma_root_exists(n);
    lemma2_to64();
    lemma2_to64_rest();
    lemma_pow2_adds(537, 537);
    lemma_pow2_pos(537);
    lemma_pow2_pos(1074);
    assert(n >= pow2(1074)) by (nonlinear_arith)
        requires
            n == x.size() * pow2(1074),
            x.size() >= 1,
            pow2(1074) > 0,
    ;
    if r < pow2(537) {
        assert((r + 1) * (r + 1) <= pow2(537) * pow2(537)) by (nonlinear_arith)
            requires
                r + 1 <= pow2(537),
        ;
    }
    lemma_bit_length_bounds(r);
    if len <= 537 {
        lemma_pow2_monotone(len, 537);
    }
    lemma_pow2_adds(53, x.scale());
    lemma_pow2_monotone(53 + x.scale(), 2098);
    lemma_pow2_adds(2098, 1074);
    lemma_pow2_adds(1586, 1586);
    lemma_pow2_pos(x.scale());
    assert(x.size() < pow2(53) * pow2(x.scale())) by (nonlinear_arith)
        requires
            x.size() == x.significand() * pow2(x.scale()),
            x.significand() < pow2(53),
            pow2(x.scale()) > 0,
    ;
    assert(n < pow2(3172)) by (nonlinear_arith)
        requires
            n == x.size() * pow2(1074),
            x.size() < pow2(2098),
            pow2(3172) == pow2(2098) * pow2(1074),
            pow2(1074) > 0,
    ;
    if len > 1586 {
        lemma_pow2_monotone(1586, (len - 1) as nat);
        assert(r * r >= pow2(1586) * pow2(1586)) by (nonlinear_arith)
            requires
                r >= pow2(1586),
        ;
    }
    let s = (len - 53) as nat;
    let sig = r / pow2(s);
    lemma_pow2_adds(53, s);
    lemma_pow2_pos(s);
    lemma_fundamental_div_mod(r as int, pow2(s) as int);
    lemma_mod_bound(r as int, pow2(s) as int);
    let low = r % pow2(s);
    assert(sig < pow2(53)) by (nonlinear_arith)
        requires
            r == pow2(s) * sig + low,
            low >= 0,
            r < pow2(53) * pow2(s),
            pow2(s) > 0,
    ;
}

/// The square root of a scalar that is not zero is not zero.
pub proof fn lemma_sqrt_is_not_zero(x: Scalar)
    requires
        !x.zero_valued(),
    ensures
        !x.sqrt_spec().zero_valued(),
{
    reveal(Scalar::sqrt_spec);
    if x.finite() && !x.negative() {
        lemma_root_digits(x);
    }
}

/// The square root of a finite scalar above zero is a double nearest to
/// the exact root: the exact root lies on its side of the midpoint to
/// every other finite double. The sizes are in units of `2^-1074`, so
/// squares of sizes are compared with `2^1074` times a size.
pub proof fn lemma_sqrt_is_nearest(x: Scalar, other: Scalar)
    requires
        x.finite(),
        !x.zero_valued(),
        !x.negative(),
        other.finite(),
    ensures
        ({
            let r = x.sqrt_spec().size();
            let y = other.size();
            &&& y < r ==> (y + r) * (y + r) <= 4 * (x.size() * pow2(1074))
            &&& y > r ==> (y + r) * (y + r) >= 4 * (x.size() * pow2(1074))
        }),
{
    reveal(Scalar::sqrt_spec);
    lemma_root_digits(x);
    lemma_nearest_root_is_nearest(x.size() * pow2(1074), other);
}

} // verus!
