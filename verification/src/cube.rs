//! The cube root of a scalar, rounded to the nearest double.
use crate::rounding::{
    bit_length, bit_length_u128, lemma_bit_length_bounds, lemma_bit_length_unique,
    lemma_bits_of_multiple, lemma_no_double_between, lemma_pow2_127, lemma_pow2_monotone,
    lemma_shifted_bound, pow2_u128,
};
use crate::scalar::{lemma_parts, Scalar, HIDDEN_BIT, INFINITY_BITS, NAN_BITS};
use vstd::arithmetic::div_mod::*;
use vstd::arithmetic::mul::*;
use vstd::arithmetic::power2::*;
use vstd::prelude::*;

verus! {

/// `r^3`
pub open spec fn cube(r: nat) -> nat {
    r * r * r
}

/// `r` is the whole part of the cube root of `n`.
pub open spec fn is_cube_root(r: nat, n: nat) -> bool {
    cube(r) <= n < cube(r + 1)
}

/// The whole part of the cube root of `n`.
pub open spec fn integer_cube_root(n: nat) -> nat {
    choose|r: nat| is_cube_root(r, n)
}

/// The magnitude bits of the double nearest to the cube root of `n`, both
/// counted in units of `2^-1074`.
///
/// The whole part of the root is cut to fifty-three binary digits; it is
/// rounded up when `n` lies above the cube of the midpoint to the next
/// double, which is compared in doubled form to stay in whole numbers.
pub open spec fn nearest_cube_root(n: nat) -> nat {
    let r = integer_cube_root(n);
    let len = bit_length(r);
    let s = if len > 53 {
        (len - 53) as nat
    } else {
        0
    };
    let sig = r / pow2(s);
    let mid = (2 * sig + 1) * pow2(s);
    let up: nat = if 8 * n > cube(mid) || (8 * n == cube(mid) && sig % 2 == 1) {
        1
    } else {
        0
    };
    (s * HIDDEN_BIT + sig + up) as nat
}

/// The cube grows with the number.
pub proof fn lemma_cube_increases(a: nat, b: nat)
    ensures
        a <= b ==> cube(a) <= cube(b),
        a < b ==> cube(a) < cube(b),
{
    if a <= b {
        assert(a * a <= b * b) by (nonlinear_arith)
            requires
                a <= b,
        ;
        assert(a * a * a <= b * b * b) by (nonlinear_arith)
            requires
                a <= b,
                a * a <= b * b,
        ;
    }
    if a < b {
        assert(a * a <= b * b) by (nonlinear_arith)
            requires
                a <= b,
        ;
        assert(a * a * a < b * b * b) by (nonlinear_arith)
            requires
                a < b,
                a * a <= b * b,
        ;
    }
}

/// `(r * g)^3 == r^3 * g^3`
pub proof fn lemma_cube_of_product(r: nat, g: nat)
    ensures
        cube(r * g) == cube(r) * cube(g),
{
    assert((r * g) * (r * g) * (r * g) == (r * r * r) * (g * g * g)) by (nonlinear_arith);
}

/// A number has one whole cube root only.
pub proof fn lemma_cube_root_unique(r1: nat, r2: nat, n: nat)
    requires
        is_cube_root(r1, n),
        is_cube_root(r2, n),
    ensures
        r1 == r2,
{
    lemma_cube_increases(r1 + 1, r2);
    lemma_cube_increases(r2 + 1, r1);
}

/// Every number has a whole cube root.
pub proof fn lemma_cube_root_exists(n: nat)
    ensures
        is_cube_root(integer_cube_root(n), n),
    decreases n,
{
    if n == 0 {
        assert(cube(0) == 0 && cube(1) == 1) by (nonlinear_arith);
        assert(is_cube_root(0, 0));
    } else {
        lemma_cube_root_exists((n - 1) as nat);
        let r = integer_cube_root((n - 1) as nat);
        if cube(r + 1) <= n {
            lemma_cube_increases(r + 1, r + 2);
            assert(is_cube_root(r + 1, n));
        } else {
            assert(is_cube_root(r, n));
        }
    }
}

/// The one `r` with `r^3 <= n < (r + 1)^3` is the cube root.
pub proof fn lemma_cube_root_is(r: nat, n: nat)
    requires
        is_cube_root(r, n),
    ensures
        integer_cube_root(n) == r,
{
    lemma_cube_root_exists(n);
    lemma_cube_root_unique(r, integer_cube_root(n), n);
}

/// The cube root of `a * g^3` lies between `r * g` and `(r + 1) * g`,
/// where `r` is the cube root of `a`; so cutting it by `g` gives `r`.
pub proof fn lemma_cube_root_scaled(a: nat, r: nat, g: nat)
    requires
        is_cube_root(r, a),
        g > 0,
    ensures
        r * g <= integer_cube_root(a * cube(g)) < (r + 1) * g,
        integer_cube_root(a * cube(g)) / g == r,
{
    let n = a * cube(g);
    let big = integer_cube_root(n);
    lemma_cube_root_exists(n);
    lemma_cube_of_product(r, g);
    lemma_cube_of_product(r + 1, g);
    lemma_cube_increases(1, g);
    assert(cube(1) == 1) by (nonlinear_arith);
    let c = cube(g);
    assert(cube(r) * c <= a * c) by (nonlinear_arith)
        requires
            cube(r) <= a,
            c >= 0,
    ;
    assert(a * c < cube(r + 1) * c) by (nonlinear_arith)
        requires
            a < cube(r + 1),
            c > 0,
    ;
    if big < r * g {
        lemma_cube_increases(big + 1, r * g);
    }
    if big >= (r + 1) * g {
        lemma_cube_increases((r + 1) * g, big);
    }
    assert((r + 1) * g == r * g + g) by (nonlinear_arith);
    lemma_fundamental_div_mod_converse(big as int, g as int, r as int, big - r * g);
}

/// Rounding a cube root gives a nearest double: the root of `n` lies on
/// the rounded side of the midpoint to every other finite double. The
/// midpoints are compared in doubled form, by their cubes.
pub proof fn lemma_nearest_cube_root_is_nearest(n: nat, other: Scalar)
    requires
        bit_length(integer_cube_root(n)) > 53,
        nearest_cube_root(n) < INFINITY_BITS,
        other.finite(),
    ensures
        ({
            let x = (Scalar { bits: nearest_cube_root(n) as u64 }).size();
            let y = other.size();
            &&& y < x ==> cube(y + x) <= 8 * n
            &&& y > x ==> cube(y + x) >= 8 * n
        }),
{
    lemma2_to64();
    lemma2_to64_rest();
    let r = integer_cube_root(n);
    let len = bit_length(r);
    let s = (len - 53) as nat;
    let g = pow2(s);
    let sig = r / g;
    let low = r % g;
    let mid = (2 * sig + 1) * g;
    let up: nat = if 8 * n > cube(mid) || (8 * n == cube(mid) && sig % 2 == 1) {
        1
    } else {
        0
    };
    let x = (Scalar { bits: nearest_cube_root(n) as u64 }).size();
    let y = other.size();
    lemma_cube_root_exists(n);
    lemma_bit_length_bounds(r);
    lemma_pow2_pos(s);
    lemma_pow2_adds(52, s);
    lemma_pow2_adds(53, s);
    lemma_fundamental_div_mod(r as int, g as int);
    lemma_mod_bound(r as int, g as int);
    assert(pow2(52) <= sig < pow2(53)) by (nonlinear_arith)
        requires
            r == g * sig + low,
            0 <= low < g,
            pow2(52) * g <= r < pow2(53) * g,
            g > 0,
    ;
    lemma_bits_of_multiple(s, sig + up);
    assert(x == (sig + up) * g);
    lemma_no_double_between(other, s, sig);
    assert(sig * g <= r && r + 1 <= (sig + 1) * g) by (nonlinear_arith)
        requires
            r == g * sig + low,
            0 <= low < g,
    ;
    assert((sig + 1) * g == sig * g + g) by (nonlinear_arith);
    assert(mid == sig * g + (sig + 1) * g) by (nonlinear_arith)
        requires
            mid == (2 * sig + 1) * g,
    ;
    let sum = y + x;
    assert(cube(2 * r) == 8 * cube(r)) by (nonlinear_arith);
    assert(cube(2 * (r + 1)) == 8 * cube(r + 1)) by (nonlinear_arith);
    if y < x {
        if up == 0 {
            lemma_cube_increases(sum, 2 * r);
        } else {
            lemma_cube_increases(sum, mid);
        }
    }
    if y > x {
        if up == 1 {
            lemma_cube_increases(2 * (r + 1), sum);
        } else {
            lemma_cube_increases(mid, sum);
        }
    }
}

/// The step from the cube root of `x` to that of `8 * x`: with
/// `x == r^3 + rem` and `x < (r + 1)^3`, the root of `8 * x` is `2 * r` or
/// `2 * r + 1`, the latter when `8 * rem` reaches `(2r + 1)^3 - (2r)^3`.
proof fn lemma_next_digit(x: nat, r: nat, rem: nat)
    requires
        x == cube(r) + rem,
        is_cube_root(r, x),
    ensures
        ({
            let step = 12 * r * r + 6 * r + 1;
            if 8 * rem >= step {
                8 * x == cube(2 * r + 1) + (8 * rem - step) && is_cube_root(2 * r + 1, 8 * x)
            } else {
                8 * x == cube(2 * r) + 8 * rem && is_cube_root(2 * r, 8 * x)
            }
        }),
{
    let step = 12 * r * r + 6 * r + 1;
    assert(cube(2 * r) == 8 * cube(r)) by (nonlinear_arith);
    assert(cube(2 * r + 1) == 8 * cube(r) + step) by (nonlinear_arith)
        requires
            step == 12 * r * r + 6 * r + 1,
    ;
    assert(cube(2 * r + 2) == 8 * cube(r + 1)) by (nonlinear_arith);
}

/// The cube root of a number below `2^55`, and what is left over.
fn small_cube_root(a: u128) -> (res: (u128, u128))
    requires
        a < 0x80_0000_0000_0000,
    ensures
        is_cube_root(res.0 as nat, a as nat),
        a == cube(res.0 as nat) + res.1,
        res.0 < 0x8_0000,
{
    let mut lo: u128 = 0;
    let mut hi: u128 = 0x8_0000;
    assert(cube(0) == 0) by (nonlinear_arith);
    assert(cube(0x8_0000) == 0x200_0000_0000_0000) by (nonlinear_arith);
    while hi - lo > 1
        invariant
            lo < hi <= 0x8_0000,
            cube(lo as nat) <= a < cube(hi as nat),
        decreases hi - lo,
    {
        let mid: u128 = lo + (hi - lo) / 2;
        proof {
            lemma_cube_increases(mid as nat, 0x8_0000);
            assert(mid * mid <= 0x8_0000 * 0x8_0000) by (nonlinear_arith)
                requires
                    mid <= 0x8_0000,
            ;
        }
        if mid * mid * mid <= a {
            lo = mid;
        } else {
            hi = mid;
        }
    }
    proof {
        lemma_cube_increases(lo as nat, 0x8_0000);
        assert(lo * lo <= 0x8_0000 * 0x8_0000) by (nonlinear_arith)
            requires
                lo <= 0x8_0000,
        ;
    }
    (lo, a - lo * lo * lo)
}

/// The cube root of `a * 8^36`, and what is left over.
fn wide_cube_root(a: u128) -> (res: (u128, u128))
    requires
        0x10_0000_0000_0000 <= a < 0x80_0000_0000_0000,
    ensures
        is_cube_root(res.0 as nat, a as nat * pow2(108)),
        a as nat * pow2(108) == cube(res.0 as nat) + res.1,
        0x20_0000_0000_0000 <= res.0 < 0x80_0000_0000_0000,
{
    let (r0, rem0) = small_cube_root(a);
    let mut r: u128 = r0;
    let mut rem: u128 = rem0;
    let mut i: u32 = 0;
    let ghost mut x: nat = a as nat;
    proof {
        lemma2_to64();
        lemma2_to64_rest();
        assert(a as nat * pow2(0) == a) by (nonlinear_arith)
            requires
                pow2(0) == 1,
        ;
    }
    while i < 36
        invariant
            i <= 36,
            x == a as nat * pow2((3 * i) as nat),
            x == cube(r as nat) + rem,
            is_cube_root(r as nat, x),
            r < pow2((19 + i) as nat),
        decreases 36 - i,
    {
        proof {
            lemma_next_digit(x, r as nat, rem as nat);
            lemma_pow2_adds((3 * i) as nat, 3);
            lemma_pow2_unfold((20 + i) as nat);
            lemma_pow2_monotone((19 + i) as nat, 55);
            lemma2_to64();
            lemma2_to64_rest();
            assert(a as nat * pow2((3 * i + 3) as nat) == 8 * x) by (nonlinear_arith)
                requires
                    x == a as nat * pow2((3 * i) as nat),
                    pow2((3 * i + 3) as nat) == pow2((3 * i) as nat) * 8,
            ;
            // what is left is below 3 r^2 + 3 r + 1
            assert(cube(r as nat + 1) == cube(r as nat) + 3 * r * r + 3 * r + 1)
                by (nonlinear_arith);
            assert(r * r < 0x80_0000_0000_0000 * 0x80_0000_0000_0000) by (nonlinear_arith)
                requires
                    r < 0x80_0000_0000_0000,
            ;
            let rr = r as nat * r as nat;
            assert(3 * (r as nat) * (r as nat) == 3 * rr && 12 * (r as nat) * (r as nat) == 12
                * rr) by (nonlinear_arith)
                requires
                    rr == r as nat * r as nat,
            ;
        }
        let square: u128 = r * r;
        let step: u128 = 12 * square + 6 * r + 1;
        if 8 * rem >= step {
            rem = 8 * rem - step;
            r = 2 * r + 1;
        } else {
            rem = 8 * rem;
            r = 2 * r;
        }
        i = i + 1;
        proof {
            x = 8 * x;
        }
    }
    proof {
        // the root has fifty-four or fifty-five digits
        lemma_pow2_adds(52, 108);
        lemma_pow2_adds(53, 53);
        lemma_pow2_adds(106, 53);
        lemma_pow2_adds(159, 1);
        assert(x >= pow2(160)) by (nonlinear_arith)
            requires
                x == a as nat * pow2(108),
                a >= pow2(52),
                pow2(160) == pow2(52) * pow2(108),
        ;
        if r < 0x20_0000_0000_0000 {
            lemma_cube_increases(r as nat + 1, 0x20_0000_0000_0000);
            assert(cube(0x20_0000_0000_0000) == pow2(53) * pow2(53) * pow2(53)) by (nonlinear_arith)
                requires
                    pow2(53) == 0x20_0000_0000_0000,
            ;
            assert(pow2(53) * pow2(53) * pow2(53) == pow2(159)) by (nonlinear_arith)
                requires
                    pow2(106) == pow2(53) * pow2(53),
                    pow2(159) == pow2(106) * pow2(53),
            ;
            assert(pow2(160) == 2 * pow2(159));
        }
    }
    (r, rem)
}

impl Scalar {
    /// The cube root of a NaN is not a number; that of a zero or an
    /// infinity is the same; that of a negative number is the opposite of
    /// that of its size.
    #[verifier::opaque]
    pub open spec fn cbrt_spec(self) -> Scalar {
        if self.nan() {
            Scalar { bits: NAN_BITS }
        } else if self.zero_valued() || self.infinite() {
            self
        } else {
            Scalar::compose(self.negative(), nearest_cube_root(self.size() * pow2(2148)) as u64)
        }
    }

    /// The cube root of `self`
    pub fn cbrt(self) -> (r: Scalar)
        ensures
            r == self.cbrt_spec(),
    {
        reveal(Scalar::cbrt_spec);
        if self.is_nan() {
            return Scalar::not_a_number();
        }
        if self.is_zero() || self.is_infinite() {
            return self;
        }
        let (sa, ia) = self.abs().decompose();
        let len: u32 = bit_length_u128(sa as u128);
        proof {
            lemma2_to64();
            lemma2_to64_rest();
            lemma_pow2_127();
            lemma_bit_length_bounds(sa as nat);
            if len > 53 {
                lemma_pow2_monotone(53, (len - 1) as nat);
            }
        }
        let z: u32 = 53 - len;
        // the value is `wide * 8^h` units of `2^-3222`
        let e: u32 = ia + 2148 - z;
        let rest: u32 = e % 3;
        let h: u32 = e / 3;
        let g: u128 = pow2_u128(z + rest);
        proof {
            lemma_shifted_bound(sa as nat, len as nat, (z + rest) as nat, 55);
            lemma_pow2_adds((len - 1) as nat, (z + rest) as nat);
            lemma_pow2_monotone(52, (52 + rest) as nat);
            assert(sa as nat * g >= pow2((len - 1) as nat) * g) by (nonlinear_arith)
                requires
                    sa >= pow2((len - 1) as nat),
                    g >= 0,
            ;
        }
        let wide: u128 = (sa as u128) * g;
        let (root, left) = wide_cube_root(wide);
        let long: bool = root >= 0x40_0000_0000_0000;
        let cut: u128 = if long {
            4
        } else {
            2
        };
        let sig: u128 = root / cut;
        let middle: u128 = sig * cut + cut / 2;
        let up: bool = root > middle || (root == middle && (left > 0 || sig % 2 == 1));
        let s: u32 = h - 36 + (if long {
            2u32
        } else {
            1u32
        });
        proof {
            assert(self.size() == self.abs_spec().size());
            lemma_lifted_radicand(sa as nat, ia as nat, (z + rest) as nat, h as nat);
            lemma_cut_of_cube_root(
                self.size() * pow2(2148),
                wide as nat * pow2(108),
                (h - 36) as nat,
                root as nat,
                left as nat,
            );
        }
        let m: u64 = (s as u64) * HIDDEN_BIT + (sig as u64) + (if up {
            1u64
        } else {
            0u64
        });
        Scalar::from_parts(self.is_negative(), m)
    }
}

/// The whole cube root of `size * 2^2148`, for the size of a finite scalar
/// that is not zero, has between 717 and 1416 binary digits, so that the
/// bits of the rounded root are those of a finite scalar above zero.
pub proof fn lemma_cube_root_digits(x: Scalar)
    requires
        x.finite(),
        !x.zero_valued(),
    ensures
        717 <= bit_length(integer_cube_root(x.size() * pow2(2148))) <= 1416,
        0 < nearest_cube_root(x.size() * pow2(2148)) < 1370 * HIDDEN_BIT,
{
    lemma_parts(x);
    let n = x.size() * pow2(2148);
    let r = integer_cube_root(n);
    let len = bit_length(r);
    lemma_cube_root_exists(n);
    lemma2_to64();
    lemma2_to64_rest();
    lemma_pow2_adds(716, 716);
    lemma_pow2_adds(1432, 716);
    lemma_pow2_pos(716);
    lemma_pow2_pos(2148);
    assert(cube(pow2(716)) == pow2(2148)) by (nonlinear_arith)
        requires
            pow2(1432) == pow2(716) * pow2(716),
            pow2(2148) == pow2(1432) * pow2(716),
            cube(pow2(716)) == pow2(716) * pow2(716) * pow2(716),
    ;
    assert(n >= pow2(2148)) by (nonlinear_arith)
        requires
            n == x.size() * pow2(2148),
            x.size() >= 1,
            pow2(2148) > 0,
    ;
    if r < pow2(716) {
        lemma_cube_increases(r + 1, pow2(716));
    }
    lemma_bit_length_bounds(r);
    if len <= 716 {
        lemma_pow2_monotone(len, 716);
    }
    lemma_pow2_adds(53, x.scale());
    lemma_pow2_monotone(53 + x.scale(), 2098);
    lemma_pow2_adds(2098, 2148);
    lemma_pow2_adds(1416, 1416);
    lemma_pow2_adds(2832, 1416);
    lemma_pow2_monotone(4246, 4248);
    lemma_pow2_pos(x.scale());
    assert(cube(pow2(1416)) == pow2(4248)) by (nonlinear_arith)
        requires
            pow2(2832) == pow2(1416) * pow2(1416),
            pow2(4248) == pow2(2832) * pow2(1416),
            cube(pow2(1416)) == pow2(1416) * pow2(1416) * pow2(1416),
    ;
    assert(x.size() < pow2(53) * pow2(x.scale())) by (nonlinear_arith)
        requires
            x.size() == x.significand() * pow2(x.scale()),
            x.significand() < pow2(53),
            pow2(x.scale()) > 0,
    ;
    assert(n < pow2(4246)) by (nonlinear_arith)
        requires
            n == x.size() * pow2(2148),
            x.size() < pow2(2098),
            pow2(4246) == pow2(2098) * pow2(2148),
            pow2(2148) > 0,
    ;
    if len > 1416 {
        lemma_pow2_monotone(1416, (len - 1) as nat);
        lemma_cube_increases(pow2(1416), r);
    }
    let s = (len - 53) as nat;
    let sig = r / pow2(s);
    lemma_pow2_adds(53, s);
    lemma_pow2_pos(s);
    lemma_fundamental_div_mod(r as int, pow2(s) as int);
    lemma_mod_bound(r as int, pow2(s) as int);
    let low = r % pow2(s);
    assert(sig < pow2(53)) by (nonlinear_arith)
        requires
            r == pow2(s) * sig + low,
            low >= 0,
            r < pow2(53) * pow2(s),
            pow2(s) > 0,
    ;
}

/// The cube root of a finite scalar that is not zero is a double nearest
/// to the exact root: the exact root lies on its side of the midpoint to
/// every other finite double. The sizes are in units of `2^-1074`, so
/// cubes of sizes are compared with `2^2148` times a size.
pub proof fn lemma_cbrt_is_nearest(x: Scalar, other: Scalar)
    requires
        x.finite(),
        !x.zero_valued(),
        other.finite(),
    ensures
        ({
            let r = x.cbrt_spec().size();
            let y = other.size();
            &&& y < r ==> cube(y + r) <= 8 * (x.size() * pow2(2148))
            &&& y > r ==> cube(y + r) >= 8 * (x.size() * pow2(2148))
        }),
{
    reveal(Scalar::cbrt_spec);
    lemma_cube_root_digits(x);
    lemma_nearest_cube_root_is_nearest(x.size() * pow2(2148), other);
    let m = nearest_cube_root(x.size() * pow2(2148));
    assert(x.cbrt_spec().magnitude() == m);
    assert(x.cbrt_spec().size() == (Scalar { bits: m as u64 }).size());
}

/// `sa * 2^(ia + 2148)` is `(sa * 2^shift) * 2^108` times the cube of
/// `2^(h - 36)`, where `shift + 3 * h == ia + 2148`.
proof fn lemma_lifted_radicand(sa: nat, ia: nat, shift: nat, h: nat)
    requires
        h >= 36,
        shift + 3 * h == ia + 2148,
    ensures
        (sa * pow2(ia)) * pow2(2148) == ((sa * pow2(shift)) * pow2(108)) * cube(
            pow2((h - 36) as nat),
        ),
{
    let lift = pow2((h - 36) as nat);
    lemma_pow2_adds(ia, 2148);
    lemma_pow2_adds(shift, 3 * h);
    lemma_pow2_adds(108, (3 * h - 108) as nat);
    lemma_pow2_adds((h - 36) as nat, (h - 36) as nat);
    lemma_pow2_adds((2 * h - 72) as nat, (h - 36) as nat);
    assert((sa * pow2(ia)) * pow2(2148) == ((sa * pow2(shift)) * pow2(108)) * (lift * lift * lift))
        by (nonlinear_arith)
        requires
            pow2(ia + 2148) == pow2(ia) * pow2(2148),
            pow2(ia + 2148) == pow2(shift) * pow2(3 * h),
            pow2(3 * h) == pow2(108) * pow2((3 * h - 108) as nat),
            pow2((2 * h - 72) as nat) == lift * lift,
            pow2((3 * h - 108) as nat) == pow2((2 * h - 72) as nat) * lift,
    ;
}

/// The rounding of the cube root of `n == a * (2^lift)^3` from the cube
/// root of `a`, which has fifty-four or fifty-five binary digits, and what
/// is left of `a` over its cube.
proof fn lemma_cut_of_cube_root(n: nat, a: nat, lift: nat, root: nat, left: nat)
    requires
        n == a * cube(pow2(lift)),
        is_cube_root(root, a),
        a == cube(root) + left,
        0x20_0000_0000_0000 <= root < 0x80_0000_0000_0000,
    ensures
        ({
            let long = root >= 0x40_0000_0000_0000;
            let cut: nat = if long {
                4
            } else {
                2
            };
            let sig = root / cut;
            let middle = sig * cut + cut / 2;
            let up: nat = if root > middle || (root == middle && (left > 0 || sig % 2 == 1)) {
                1
            } else {
                0
            };
            let s: nat = lift + if long {
                2nat
            } else {
                1nat
            };
            &&& nearest_cube_root(n) == s * HIDDEN_BIT + sig + up
            &&& HIDDEN_BIT <= sig < 2 * HIDDEN_BIT
        }),
{
    lemma2_to64();
    lemma2_to64_rest();
    let long = root >= 0x40_0000_0000_0000;
    let cut: nat = if long {
        4
    } else {
        2
    };
    let k: nat = if long {
        2
    } else {
        1
    };
    let sig = root / cut;
    let middle = sig * cut + cut / 2;
    let s = lift + k;
    let g = pow2(lift);
    let gs = pow2(s);
    let big = integer_cube_root(n);
    lemma_pow2_pos(lift);
    lemma_cube_root_scaled(a, root, g);
    // the root has fifty-three digits more than s
    lemma_pow2_adds(k, lift);
    lemma_pow2_adds(52 + k, lift);
    lemma_pow2_adds(53 + k, lift);
    assert(root * g >= pow2(52 + k) * g) by (nonlinear_arith)
        requires
            root >= pow2(52 + k),
            g > 0,
    ;
    assert((root + 1) * g <= pow2(53 + k) * g) by (nonlinear_arith)
        requires
            root + 1 <= pow2(53 + k),
            g > 0,
    ;
    lemma_bit_length_unique(big, 53 + s);
    // cutting the root by 2^s is cutting `root` by 2^k
    assert(gs == g * cut) by {
        lemma_mul_is_commutative(g as int, cut as int);
    }
    lemma_div_denominator(big as int, g as int, cut as int);
    assert(big / gs == sig);
    // the comparison with the midpoint, cut by g^3
    let mid: nat = (2 * sig + 1) * gs;
    let twice: nat = 2 * middle;
    assert(mid == twice * g) by (nonlinear_arith)
        requires
            mid == (2 * sig + 1) * gs,
            gs == g * cut,
            twice == 2 * (sig * cut + cut / 2),
            cut == 2 || cut == 4,
    ;
    lemma_cube_of_product(twice, g);
    assert(cube(twice) == 8 * cube(middle)) by (nonlinear_arith)
        requires
            twice == 2 * middle,
    ;
    let c = cube(g);
    lemma_cube_increases(0, g);
    assert(cube(0) == 0) by (nonlinear_arith);
    let x = a as int;
    let y = cube(middle) as int;
    assert(8 * n == (8 * x) * c) by (nonlinear_arith)
        requires
            n == a * c,
            x == a,
    ;
    assert(cube(mid) == (8 * y) * c);
    assert(((8 * x) * c > (8 * y) * c <==> x > y) && ((8 * x) * c == (8 * y) * c <==> x == y))
        by (nonlinear_arith)
        requires
            c > 0,
    ;
    // a against middle^3, by the root and what is left
    lemma_cube_increases(middle + 1, root);
    lemma_cube_increases(root + 1, middle);
    lemma_cube_increases(middle, middle + 1);
    assert(x > y <==> (root > middle || (root == middle && left > 0)));
    assert(x == y <==> (root == middle && left == 0));
}

} // verus!
