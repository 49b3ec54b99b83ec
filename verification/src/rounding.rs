//! Rounding to the nearest double, ties to even.
//!
//! Every arithmetic operation on scalars is an exact computation followed by
//! one rounding. The exact result is a rational `n / d` times a power of two
//! `2^t`, counted in units of `2^-1074`; [`nearest`] says which magnitude bits
//! the rounding gives, and [`round_ratio`] computes them.
//!
//! [`nearest`] is a formula. That it names a double nearest to the value is
//! [`lemma_nearest_is_nearest`]; that a tie goes to the even significand is
//! [`lemma_round_half_even_breaks_ties`]; that a double rounds to itself is
//! [`lemma_nearest_exact`].
use crate::scalar::{lemma_parts, Scalar, HIDDEN_BIT, INFINITY_BITS};
use vstd::arithmetic::div_mod::*;
use vstd::arithmetic::mul::*;
use vstd::arithmetic::power2::*;
use vstd::prelude::*;

verus! {

/// The number of binary digits of `n`: `0` for `0`, and otherwise the `l`
/// with `2^(l-1) <= n < 2^l`.
pub open spec fn bit_length(n: nat) -> nat
    decreases n,
{
    if n == 0 {
        0
    } else {
        1 + bit_length(n / 2)
    }
}

/// How far apart two whole numbers are.
pub open spec fn distance(a: nat, b: nat) -> nat {
    if a >= b {
        (a - b) as nat
    } else {
        (b - a) as nat
    }
}

/// `num / den` rounded to the nearest integer, a tie going to the even one.
pub open spec fn round_half_even(num: nat, den: nat) -> nat {
    let q = num / den;
    let rem = num % den;
    if 2 * rem > den || (2 * rem == den && q % 2 == 1) {
        q + 1
    } else {
        q
    }
}

/// The power of two, counted from `2^-1074`, of the last place of the double
/// nearest to `(n / d) * 2^t` units: the value is cut so that at most
/// fifty-three binary digits stand before the point, and never below one
/// unit.
pub open spec fn quantum(n: nat, d: nat, t: int) -> int {
    let len = bit_length(n / d) as int;
    if len + t > 53 {
        len + t - 53
    } else {
        0
    }
}

/// The magnitude bits of the double nearest to `(n / d) * 2^t` units, a tie
/// going to the even significand, and everything from half a last place
/// above the largest finite double going to infinity.
///
/// The value is divided by its quantum and rounded to an integer. Because the
/// exponent field sits directly above the fraction bits, adding that integer to
/// `quantum * 2^52` gives the bits, also where rounding carries into the
/// next exponent.
pub open spec fn nearest(n: nat, d: nat, t: int) -> nat
    recommends
        0 < d <= n,
{
    let s = quantum(n, d, t);
    let rounded = round_half_even(cut_numerator(n, d, t), cut_denominator(n, d, t));
    let m = s * HIDDEN_BIT + rounded;
    if m >= INFINITY_BITS {
        INFINITY_BITS as nat
    } else {
        m as nat
    }
}

/// The numerator of `(n / d) * 2^t` divided by its quantum, as a fraction
/// of whole numbers.
pub open spec fn cut_numerator(n: nat, d: nat, t: int) -> nat {
    let k = quantum(n, d, t) - t;
    if k >= 0 {
        n
    } else {
        n * pow2((-k) as nat)
    }
}

/// The denominator of `(n / d) * 2^t` divided by its quantum, as a
/// fraction of whole numbers.
pub open spec fn cut_denominator(n: nat, d: nat, t: int) -> nat {
    let k = quantum(n, d, t) - t;
    if k >= 0 {
        d * pow2(k as nat)
    } else {
        d
    }
}

/// The numerator of `(n / d) * 2^t` as a fraction of whole numbers.
pub open spec fn whole_numerator(n: nat, t: int) -> nat {
    if t >= 0 {
        n * pow2(t as nat)
    } else {
        n
    }
}

/// The denominator of `(n / d) * 2^t` as a fraction of whole numbers.
pub open spec fn whole_denominator(d: nat, t: int) -> nat {
    if t >= 0 {
        d
    } else {
        d * pow2((-t) as nat)
    }
}

/// A number lies below two to the power of its digit count, and not below
/// half of that.
pub proof fn lemma_bit_length_bounds(n: nat)
    ensures
        n < pow2(bit_length(n)),
        n > 0 ==> bit_length(n) > 0 && pow2((bit_length(n) - 1) as nat) <= n,
    decreases n,
{
    lemma2_to64();
    if n > 0 {
        lemma_bit_length_bounds(n / 2);
        let l = bit_length(n / 2);
        lemma_pow2_unfold(l + 1);
        if n / 2 > 0 {
            lemma_pow2_unfold(l);
        }
    }
}

/// A number between `2^(l-1)` and `2^l` has `l` binary digits.
pub proof fn lemma_bit_length_unique(n: nat, l: nat)
    requires
        l > 0,
        pow2((l - 1) as nat) <= n < pow2(l),
    ensures
        bit_length(n) == l,
{
    lemma_pow2_pos((l - 1) as nat);
    lemma_bit_length_bounds(n);
    let b = bit_length(n);
    if b < l {
        if b < l - 1 {
            lemma_pow2_strictly_increases(b, (l - 1) as nat);
        }
    }
    if b > l {
        if b - 1 > l {
            lemma_pow2_strictly_increases(l, (b - 1) as nat);
        }
    }
}

/// The powers of two grow with the exponent.
pub proof fn lemma_pow2_monotone(a: nat, b: nat)
    requires
        a <= b,
    ensures
        pow2(a) <= pow2(b),
        pow2(a) > 0,
{
    lemma_pow2_pos(a);
    if a < b {
        lemma_pow2_strictly_increases(a, b);
    }
}

/// The two largest powers of two that matter for 128-bit numbers.
pub proof fn lemma_pow2_127()
    ensures
        pow2(127) == 0x8000_0000_0000_0000_0000_0000_0000_0000,
        pow2(128) == 0x1_0000_0000_0000_0000_0000_0000_0000_0000,
{
    lemma2_to64();
    lemma2_to64_rest();
    lemma_pow2_adds(64, 63);
    lemma_pow2_adds(64, 64);
    let a = pow2(64);
    let b = pow2(63);
    assert(a * b == 0x8000_0000_0000_0000_0000_0000_0000_0000) by (nonlinear_arith)
        requires
            a == 0x1_0000_0000_0000_0000,
            b == 0x8000_0000_0000_0000,
    ;
    assert(a * a == 0x1_0000_0000_0000_0000_0000_0000_0000_0000) by (nonlinear_arith)
        requires
            a == 0x1_0000_0000_0000_0000,
    ;
}

/// `q * 2^j < 2^bound` when `q < 2^len` and `len + j <= bound`.
pub proof fn lemma_shifted_bound(q: nat, len: nat, j: nat, bound: nat)
    requires
        q < pow2(len),
        len + j <= bound,
    ensures
        q * pow2(j) < pow2(bound),
{
    lemma_pow2_adds(len, j);
    lemma_pow2_monotone(len + j, bound);
    lemma_pow2_pos(j);
    assert(q * pow2(j) < pow2(len) * pow2(j)) by (nonlinear_arith)
        requires
            q < pow2(len),
            pow2(j) > 0,
    ;
}

/// `2^e`
pub(crate) fn pow2_u128(e: u32) -> (r: u128)
    requires
        e <= 127,
    ensures
        r == pow2(e as nat),
        r > 0,
{
    let mut r: u128 = 1;
    let mut i: u32 = 0;
    proof {
        lemma2_to64();
    }
    while i < e
        invariant
            i <= e <= 127,
            r == pow2(i as nat),
            r > 0,
        decreases e - i,
    {
        proof {
            lemma_pow2_unfold((i + 1) as nat);
            lemma_pow2_monotone((i + 1) as nat, 127);
            lemma_pow2_127();
        }
        r = r * 2;
        i = i + 1;
    }
    r
}

/// The number of binary digits of `n`.
pub(crate) fn bit_length_u128(n: u128) -> (r: u32)
    ensures
        r == bit_length(n as nat),
        r <= 128,
{
    let mut r: u32 = 0;
    let mut x: u128 = n;
    proof {
        lemma_bit_length_bounds(n as nat);
        lemma_pow2_127();
        if bit_length(n as nat) > 128 {
            lemma_pow2_monotone(128, (bit_length(n as nat) - 1) as nat);
        }
    }
    while x > 0
        invariant
            r + bit_length(x as nat) == bit_length(n as nat),
            bit_length(n as nat) <= 128,
        decreases x,
    {
        x = x / 2;
        r = r + 1;
    }
    r
}

/// Rounding after a division in two steps: with `q = n / d` and
/// `q = (2 * sig + hb) * half + low`, the quotient `n / (d * 2 * half)` is
/// `sig`, and it is rounded up exactly when the half bit `hb` is set and
/// either something stands below it or `sig` is odd.
pub proof fn lemma_round_by_parts(n: nat, d: nat, half: nat)
    requires
        d > 0,
        half > 0,
    ensures
        ({
            let q = n / d;
            let r = n % d;
            let qh = q / half;
            let low = q % half;
            let sig = qh / 2;
            let hb = qh % 2;
            round_half_even(n, d * (2 * half)) == sig + if hb == 1 && (low > 0 || r > 0 || sig % 2
                == 1) {
                1nat
            } else {
                0nat
            }
        }),
{
    let q = n / d;
    let r = n % d;
    let qh = q / half;
    let low = q % half;
    let sig = qh / 2;
    let hb = qh % 2;
    let den = d * (2 * half);
    let rem = (hb * half + low) * d + r;
    lemma_fundamental_div_mod(n as int, d as int);
    lemma_fundamental_div_mod(q as int, half as int);
    lemma_mod_bound(n as int, d as int);
    lemma_mod_bound(q as int, half as int);
    assert(n == sig * den + rem) by (nonlinear_arith)
        requires
            n == d * q + r,
            q == half * qh + low,
            qh == 2 * sig + hb,
            den == d * (2 * half),
            rem == (hb * half + low) * d + r,
    ;
    assert(0 <= rem < den) by (nonlinear_arith)
        requires
            den == d * (2 * half),
            rem == (hb * half + low) * d + r,
            0 <= low < half,
            0 <= r < d,
            0 <= hb <= 1,
    ;
    lemma_fundamental_div_mod_converse(n as int, den as int, sig as int, rem as int);
    if hb == 0 {
        assert(2 * rem < den) by (nonlinear_arith)
            requires
                den == d * (2 * half),
                rem == (hb * half + low) * d + r,
                0 <= low < half,
                0 <= r < d,
                hb == 0,
        ;
    } else {
        assert(2 * rem - den == 2 * (low * d + r)) by (nonlinear_arith)
            requires
                den == d * (2 * half),
                rem == (hb * half + low) * d + r,
                hb == 1,
        ;
        assert(low * d + r > 0 <==> (low > 0 || r > 0)) by (nonlinear_arith)
            requires
                0 <= low,
                0 <= r,
                d > 0,
        ;
    }
}

/// Rounding sees only the ratio: a common factor of numerator and
/// denominator changes nothing.
pub proof fn lemma_round_common_factor(num: nat, den: nat, c: nat)
    requires
        den > 0,
        c > 0,
    ensures
        round_half_even(num * c, den * c) == round_half_even(num, den),
{
    let q = num / den;
    let rem = num % den;
    lemma_div_multiples_vanish_quotient(c as int, num as int, den as int);
    lemma_truncate_middle(num as int, c as int, den as int);
    lemma_mul_is_commutative(num as int, c as int);
    lemma_mul_is_commutative(den as int, c as int);
    assert((num * c) / (den * c) == q);
    assert((num * c) % (den * c) == c * rem);
    assert(2 * (c * rem) > den * c <==> 2 * rem > den) by (nonlinear_arith)
        requires
            c > 0,
    ;
    assert(2 * (c * rem) == den * c <==> 2 * rem == den) by (nonlinear_arith)
        requires
            c > 0,
    ;
}

/// Multiplying a ratio of at least one by `2^j` adds `j` binary digits to
/// its integer part.
pub proof fn lemma_bit_length_scaled(n: nat, d: nat, j: nat)
    requires
        0 < d <= n,
    ensures
        bit_length((n * pow2(j)) / d) == bit_length(n / d) + j,
{
    let q = n / d;
    let r = n % d;
    let c = pow2(j);
    let big = (n * c) / d;
    let rb = (n * c) % d;
    let len = bit_length(q);
    lemma_pow2_pos(j);
    lemma_div_non_zero(n as int, d as int);
    lemma_fundamental_div_mod(n as int, d as int);
    lemma_mod_bound(n as int, d as int);
    lemma_fundamental_div_mod((n * c) as int, d as int);
    lemma_mod_bound((n * c) as int, d as int);
    lemma_bit_length_bounds(q);
    lemma_pow2_adds((len - 1) as nat, j);
    lemma_pow2_adds(len, j);
    // q * c <= big < (q + 1) * c
    assert(big >= q * c) by (nonlinear_arith)
        requires
            n == d * q + r,
            0 <= r,
            n * c == d * big + rb,
            rb < d,
            d > 0,
            c > 0,
    ;
    assert(big < (q + 1) * c) by (nonlinear_arith)
        requires
            n == d * q + r,
            r < d,
            n * c == d * big + rb,
            0 <= rb,
            d > 0,
            c > 0,
    ;
    assert(q * c >= pow2((len - 1) as nat) * c) by (nonlinear_arith)
        requires
            q >= pow2((len - 1) as nat),
            c > 0,
    ;
    assert((q + 1) * c <= pow2(len) * c) by (nonlinear_arith)
        requires
            q + 1 <= pow2(len),
            c > 0,
    ;
    lemma_bit_length_unique(big, len + j);
}

/// Moving a power of two between the numerator and the exponent does not
/// change the value, so it does not change the rounding.
pub proof fn lemma_nearest_scaling(n: nat, d: nat, t: int, j: nat)
    requires
        0 < d <= n,
    ensures
        nearest(n * pow2(j), d, t - j) == nearest(n, d, t),
{
    let c = pow2(j);
    lemma_pow2_pos(j);
    lemma_bit_length_scaled(n, d, j);
    let s = quantum(n, d, t);
    assert(quantum(n * c, d, t - j) == s);
    let k = s - t;
    let k2 = k + j;
    if k >= 0 {
        lemma_pow2_adds(k as nat, j);
        lemma_pow2_pos(k as nat);
        lemma_mul_strictly_positive(d as int, pow2(k as nat) as int);
        lemma_round_common_factor(n, d * pow2(k as nat), c);
        lemma_mul_is_associative(d as int, pow2(k as nat) as int, c as int);
        assert(d * pow2(k2 as nat) == (d * pow2(k as nat)) * c);
    } else if k2 >= 0 {
        let e = pow2(k2 as nat);
        let num = n * pow2((-k) as nat);
        lemma_pow2_pos(k2 as nat);
        lemma_pow2_adds((-k) as nat, k2 as nat);
        lemma_round_common_factor(num, d, e);
        lemma_mul_is_associative(n as int, pow2((-k) as nat) as int, e as int);
        assert(n * c == num * e);
    } else {
        lemma_pow2_adds(j, (-k2) as nat);
        lemma_mul_is_associative(n as int, c as int, pow2((-k2) as nat) as int);
        assert((n * c) * pow2((-k2) as nat) == n * pow2((-k) as nat));
    }
}

/// A double's own value rounds to itself: `sig * 2^scale` units, with
/// `sig` below `2^53` and, above the lowest scale, at least `2^52`, has the
/// magnitude bits `scale * 2^52 + sig`.
pub proof fn lemma_nearest_exact(sig: nat, scale: nat)
    requires
        0 < sig < 2 * HIDDEN_BIT,
        scale > 0 ==> sig >= HIDDEN_BIT,
        scale <= 2045,
    ensures
        nearest(sig, 1, scale as int) == scale * HIDDEN_BIT + sig,
        nearest(sig * pow2(scale), 1, 0) == scale * HIDDEN_BIT + sig,
{
    lemma2_to64();
    lemma2_to64_rest();
    lemma_bit_length_bounds(sig);
    let len = bit_length(sig);
    if len > 53 {
        lemma_pow2_monotone(53, (len - 1) as nat);
    }
    if sig >= HIDDEN_BIT {
        lemma_bit_length_unique(sig, 53);
    }
    assert(sig / 1 == sig);
    let s = quantum(sig, 1, scale as int);
    assert(s == scale);
    assert(1 * pow2(0) == 1);
    assert(round_half_even(sig, 1) == sig);
    lemma_nearest_scaling(sig, 1, scale as int, scale);
}

/// Adding or subtracting something more than sixty-four binary places below
/// a normal double leaves that double: with `2^52 <= hs < 2^53`,
/// `0 < ls < 2^53` and `gap > 64`, the values `(hs * 2^gap + ls) * 2^t` and
/// `(hs * 2^gap - ls) * 2^t` both round to the bits of `hs * 2^(gap + t)`.
pub proof fn lemma_nearest_absorbs(hs: nat, ls: nat, gap: nat, t: nat)
    requires
        HIDDEN_BIT <= hs < 2 * HIDDEN_BIT,
        0 < ls < 2 * HIDDEN_BIT,
        gap > 64,
        gap + t <= 2045,
    ensures
        nearest(hs * pow2(gap) + ls, 1, t as int) == (gap + t) * HIDDEN_BIT + hs,
        nearest((hs * pow2(gap) - ls) as nat, 1, t as int) == (gap + t) * HIDDEN_BIT + hs,
{
    lemma2_to64();
    lemma2_to64_rest();
    let g = pow2(gap);
    lemma_pow2_monotone(64, gap);
    lemma_pow2_adds(52, gap);
    lemma_pow2_adds(53, gap);
    assert(pow2(52) == HIDDEN_BIT);
    assert(hs * g >= pow2(52 + gap)) by (nonlinear_arith)
        requires
            hs >= pow2(52),
            pow2(52 + gap) == pow2(52) * g,
            g > 0,
    ;
    assert((hs + 1) * g <= pow2(53 + gap)) by (nonlinear_arith)
        requires
            hs + 1 <= pow2(53),
            pow2(53 + gap) == pow2(53) * g,
            g > 0,
    ;
    assert((hs + 1) * g == hs * g + g) by (nonlinear_arith);
    assert(1 * g == g);
    // the sum
    {
        let w = hs * g + ls;
        lemma_bit_length_unique(w, 53 + gap);
        assert(w / 1 == w);
        assert(quantum(w, 1, t as int) == gap + t);
        lemma_fundamental_div_mod_converse(w as int, g as int, hs as int, ls as int);
        assert(round_half_even(w, 1 * g) == hs);
    }
    // the difference
    let w = (hs * g - ls) as nat;
    assert(w / 1 == w);
    if hs > HIDDEN_BIT {
        assert(hs * g - g >= pow2(52 + gap)) by (nonlinear_arith)
            requires
                hs - 1 >= pow2(52),
                pow2(52 + gap) == pow2(52) * g,
                g > 0,
        ;
        lemma_bit_length_unique(w, 53 + gap);
        assert(quantum(w, 1, t as int) == gap + t);
        assert(w == (hs - 1) * g + (g - ls)) by (nonlinear_arith)
            requires
                w == hs * g - ls,
        ;
        lemma_fundamental_div_mod_converse(w as int, g as int, hs - 1, g - ls);
        assert(round_half_even(w, 1 * g) == hs);
    } else {
        let h = pow2((gap - 1) as nat);
        lemma_pow2_unfold(gap);
        lemma_pow2_monotone(64, (gap - 1) as nat);
        lemma_pow2_adds(52, (gap - 1) as nat);
        lemma_pow2_adds(53, (gap - 1) as nat);
        assert(hs * g == pow2(53) * h) by (nonlinear_arith)
            requires
                hs == pow2(52),
                pow2(53) == 2 * pow2(52),
                g == 2 * h,
        ;
        assert(pow2(52) * h + h == pow2(53) * h - (pow2(52) - 1) * h) by (nonlinear_arith)
            requires
                pow2(53) == 2 * pow2(52),
        ;
        assert((pow2(52) - 1) * h >= h) by (nonlinear_arith)
            requires
                pow2(52) >= 2,
                h > 0,
        ;
        assert(w >= pow2(52) * h);
        lemma_bit_length_unique(w, 52 + gap);
        assert(quantum(w, 1, t as int) == gap + t - 1);
        assert(w == (pow2(53) - 1) * h + (h - ls)) by (nonlinear_arith)
            requires
                w == pow2(53) * h - ls,
        ;
        lemma_fundamental_div_mod_converse(w as int, h as int, pow2(53) - 1, h - ls);
        assert(1 * h == h);
        assert(round_half_even(w, 1 * h) == pow2(53));
    }
}

/// No whole number is nearer to `num / den` than `round_half_even` is.
pub proof fn lemma_round_half_even_is_nearest(num: nat, den: nat, other: nat)
    requires
        den > 0,
    ensures
        distance(round_half_even(num, den) * den, num) <= distance(other * den, num),
{
    let q = num / den;
    let rem = num % den;
    let r = round_half_even(num, den);
    lemma_fundamental_div_mod(num as int, den as int);
    lemma_mod_bound(num as int, den as int);
    assert(q * den == den * q) by (nonlinear_arith);
    assert((q + 1) * den == den * q + den) by (nonlinear_arith);
    if other <= q {
        assert(other * den <= q * den) by (nonlinear_arith)
            requires
                other <= q,
                den > 0,
        ;
    } else {
        assert(other * den >= (q + 1) * den) by (nonlinear_arith)
            requires
                other >= q + 1,
                den > 0,
        ;
    }
}

/// The value divided by its quantum has at most fifty-three binary digits
/// before the point, and exactly that many above the lowest quantum: the
/// rounded quotient lies in `[2^52, 2^53]` there, and in `[0, 2^53]` at the
/// lowest quantum.
pub proof fn lemma_quantum_cuts_to_precision(n: nat, d: nat, t: int)
    requires
        0 < d <= n,
    ensures
        ({
            let s = quantum(n, d, t);
            let whole = cut_numerator(n, d, t) / cut_denominator(n, d, t);
            let rounded = round_half_even(cut_numerator(n, d, t), cut_denominator(n, d, t));
            &&& cut_denominator(n, d, t) > 0
            &&& whole < 2 * HIDDEN_BIT
            &&& rounded <= 2 * HIDDEN_BIT
            &&& s > 0 ==> whole >= HIDDEN_BIT && rounded >= HIDDEN_BIT
        }),
{
    lemma2_to64();
    lemma2_to64_rest();
    let s = quantum(n, d, t);
    let k = s - t;
    let len = bit_length(n / d);
    lemma_div_non_zero(n as int, d as int);
    lemma_bit_length_bounds(n / d);
    if k >= 0 {
        let g = pow2(k as nat);
        lemma_pow2_pos(k as nat);
        lemma_mul_strictly_positive(d as int, g as int);
        lemma_div_denominator(n as int, d as int, g as int);
        let q = (n / d) / g;
        lemma_fundamental_div_mod((n / d) as int, g as int);
        lemma_mod_bound((n / d) as int, g as int);
        let low = (n / d) % g;
        if k <= len {
            lemma_pow2_adds((len - k) as nat, k as nat);
            lemma_pow2_monotone((len - k) as nat, 53);
            assert(q < pow2((len - k) as nat)) by (nonlinear_arith)
                requires
                    n / d == g * q + low,
                    0 <= low,
                    n / d < pow2((len - k) as nat) * g,
                    g > 0,
            ;
        } else {
            lemma_pow2_monotone(len, k as nat);
            assert(q == 0) by (nonlinear_arith)
                requires
                    n / d == g * q + low,
                    0 <= low,
                    n / d < g,
                    q >= 0,
            ;
        }
        if s > 0 {
            lemma_pow2_adds(52, k as nat);
            assert(q >= pow2(52)) by (nonlinear_arith)
                requires
                    n / d == g * q + low,
                    low < g,
                    n / d >= pow2(52) * g,
                    g > 0,
            ;
        }
    } else {
        let j = (-k) as nat;
        lemma_bit_length_scaled(n, d, j);
        let q = (n * pow2(j)) / d;
        lemma_bit_length_bounds(q);
        lemma_pow2_monotone(len + j, 53);
        lemma_pow2_pos(j);
        if s > 0 {
            assert(bit_length(q) == 53);
        }
    }
}

/// The bits `s * 2^52 + j` hold the value `j * 2^s` units, for every `j`
/// that a rounded quotient can be: at most `2^53`, and at least `2^52`
/// above the lowest quantum.
pub proof fn lemma_bits_of_multiple(s: nat, j: nat)
    requires
        j <= 2 * HIDDEN_BIT,
        s > 0 ==> j >= HIDDEN_BIT,
        s * HIDDEN_BIT + j <= INFINITY_BITS,
    ensures
        (Scalar { bits: (s * HIDDEN_BIT + j) as u64 }).size() == j * pow2(s),
{
    lemma2_to64();
    let x = Scalar { bits: (s * HIDDEN_BIT + j) as u64 };
    assert(x.magnitude() == s * HIDDEN_BIT + j);
    if j == 2 * HIDDEN_BIT {
        assert(x.exponent_field() == s + 2 && x.fraction() == 0);
        lemma_pow2_unfold(s + 1);
        assert(HIDDEN_BIT * pow2(s + 1) == j * pow2(s)) by (nonlinear_arith)
            requires
                pow2(s + 1) == 2 * pow2(s),
                j == 2 * HIDDEN_BIT,
        ;
    } else if j >= HIDDEN_BIT {
        assert(x.exponent_field() == s + 1 && x.fraction() == j - HIDDEN_BIT);
    } else {
        assert(x.exponent_field() == 0 && x.fraction() == j);
    }
}

/// A whole number of fewer than fifty-four binary digits, times a power of
/// two that keeps it a normal double, is held exactly: `k * 2^t` units
/// round to the bits with that very value.
pub proof fn lemma_nearest_of_whole(k: nat, t: nat)
    requires
        0 < k < 2 * HIDDEN_BIT,
        53 <= t,
        t + bit_length(k) <= 2098,
    ensures
        nearest(k, 1, t as int) == (t + bit_length(k) - 53) * HIDDEN_BIT + k * pow2(
            (53 - bit_length(k)) as nat,
        ),
        HIDDEN_BIT <= k * pow2((53 - bit_length(k)) as nat) < 2 * HIDDEN_BIT,
        (Scalar { bits: nearest(k, 1, t as int) as u64 }).size() == k * pow2(t),
{
    lemma2_to64();
    lemma2_to64_rest();
    let len = bit_length(k);
    lemma_bit_length_bounds(k);
    if len > 53 {
        lemma_pow2_monotone(53, (len - 1) as nat);
    }
    let j = (53 - len) as nat;
    let sig = k * pow2(j);
    let scale = (t - j) as nat;
    lemma_shifted_bound(k, len, j, 53);
    lemma_pow2_adds((len - 1) as nat, j);
    lemma_pow2_pos(j);
    assert(sig >= pow2((len - 1) as nat) * pow2(j)) by (nonlinear_arith)
        requires
            sig == k * pow2(j),
            k >= pow2((len - 1) as nat),
            pow2(j) > 0,
    ;
    lemma_nearest_scaling(k, 1, t as int, j);
    lemma_nearest_exact(sig, scale);
    lemma_bits_of_multiple(scale, sig);
    lemma_pow2_adds(j, scale);
    lemma_mul_is_associative(k as int, pow2(j) as int, pow2(scale) as int);
}

/// A value of at least one unit does not round to zero, and neither does
/// a value whose quantum lies above the lowest one.
pub proof fn lemma_nearest_is_not_zero(n: nat, d: nat, t: int)
    requires
        0 < d <= n,
        t >= 0 || quantum(n, d, t) > 0,
    ensures
        nearest(n, d, t) > 0,
{
    lemma2_to64();
    lemma2_to64_rest();
    lemma_quantum_cuts_to_precision(n, d, t);
    let s = quantum(n, d, t);
    if s == 0 {
        // the quotient itself is at least one
        let k = -t;
        lemma_pow2_pos(t as nat);
        let num = n * pow2(t as nat);
        assert(num >= n) by (nonlinear_arith)
            requires
                num == n * pow2(t as nat),
                pow2(t as nat) >= 1,
        ;
        lemma_div_non_zero(num as int, d as int);
        if t == 0 {
            assert(d * pow2(0) == d) by (nonlinear_arith)
                requires
                    pow2(0) == 1,
            ;
            assert(num == n) by (nonlinear_arith)
                requires
                    num == n * pow2(0),
                    pow2(0) == 1,
            ;
        }
    }
}

/// A tie goes to the even number: where `num / den` lies halfway between
/// two whole numbers, `round_half_even` is the even one of them.
pub proof fn lemma_round_half_even_breaks_ties(num: nat, den: nat)
    requires
        den > 0,
        2 * (num % den) == den,
    ensures
        round_half_even(num, den) % 2 == 0,
        round_half_even(num, den) == num / den || round_half_even(num, den) == num / den + 1,
{
}

/// Between two neighbouring multiples of a quantum with at least
/// fifty-three binary digits there is no double: the size of a finite
/// double is at most `sig * 2^s` or at least `(sig + 1) * 2^s`.
pub proof fn lemma_no_double_between(other: Scalar, s: nat, sig: nat)
    requires
        other.finite(),
        sig >= HIDDEN_BIT,
        s > 0,
    ensures
        other.size() <= sig * pow2(s) || other.size() >= (sig + 1) * pow2(s),
{
    lemma_parts(other);
    let g = pow2(s);
    let (m, scale) = (other.significand(), other.scale());
    lemma_pow2_pos(s);
    if scale >= s {
        let j = m * pow2((scale - s) as nat);
        lemma_pow2_adds((scale - s) as nat, s);
        lemma_mul_is_associative(m as int, pow2((scale - s) as nat) as int, g as int);
        if j <= sig {
            assert(j * g <= sig * g) by (nonlinear_arith)
                requires
                    j <= sig,
                    g > 0,
            ;
        } else {
            assert(j * g >= (sig + 1) * g) by (nonlinear_arith)
                requires
                    j >= sig + 1,
                    g > 0,
            ;
        }
    } else {
        lemma_pow2_unfold(s);
        lemma_pow2_monotone(scale, (s - 1) as nat);
        lemma_pow2_pos(scale);
        assert(m * pow2(scale) <= sig * g) by (nonlinear_arith)
            requires
                m < 2 * HIDDEN_BIT,
                sig >= HIDDEN_BIT,
                pow2(scale) <= pow2((s - 1) as nat),
                g == 2 * pow2((s - 1) as nat),
                pow2(scale) > 0,
        ;
    }
}

/// `distance(a * w, b * w)` is `w * distance(a, b)`.
pub proof fn lemma_distance_scaled(a: nat, b: nat, w: nat)
    ensures
        distance(a * w, b * w) == w * distance(a, b),
{
    if a >= b {
        assert(a * w >= b * w && a * w - b * w == w * (a - b)) by (nonlinear_arith)
            requires
                a >= b,
        ;
    } else {
        assert(b * w > a * w || w == 0) by (nonlinear_arith)
            requires
                b > a,
        ;
        assert(b * w - a * w == w * (b - a)) by (nonlinear_arith);
    }
}

/// Rounding gives a nearest double: where the result is finite, no finite
/// double lies nearer to `(n / d) * 2^t` units. The distances are compared
/// after multiplying them by the denominator of the value.
pub proof fn lemma_nearest_is_nearest(n: nat, d: nat, t: int, other: Scalar)
    requires
        0 < d <= n,
        nearest(n, d, t) < INFINITY_BITS,
        other.finite(),
    ensures
        distance(
            (Scalar { bits: nearest(n, d, t) as u64 }).size() * whole_denominator(d, t),
            whole_numerator(n, t),
        ) <= distance(other.size() * whole_denominator(d, t), whole_numerator(n, t)),
{
    lemma2_to64();
    lemma2_to64_rest();
    lemma_parts(other);
    let s = quantum(n, d, t) as nat;
    let k = s - t;
    let g = pow2(s);
    let num = cut_numerator(n, d, t);
    let den = cut_denominator(n, d, t);
    let top = whole_numerator(n, t);
    let bottom = whole_denominator(d, t);
    let rounded = round_half_even(num, den);
    let q = num / den;
    let x = Scalar { bits: nearest(n, d, t) as u64 };
    let w = g * bottom;
    lemma_pow2_pos(s);
    lemma_quantum_cuts_to_precision(n, d, t);
    lemma_bits_of_multiple(s, rounded);
    assert(x.size() == rounded * g);
    lemma_fundamental_div_mod(num as int, den as int);
    lemma_mod_bound(num as int, den as int);
    // the value over its quantum is `num / den`: top * den == num * (g * bottom)
    if t >= 0 {
        lemma_pow2_pos(t as nat);
        if k >= 0 {
            lemma_pow2_adds(k as nat, t as nat);
            assert(top * den == num * w) by (nonlinear_arith)
                requires
                    top == n * pow2(t as nat),
                    den == d * pow2(k as nat),
                    num == n,
                    w == g * d,
                    g == pow2(k as nat) * pow2(t as nat),
            ;
        } else {
            lemma_pow2_adds((-k) as nat, s);
            assert(top * den == num * w) by (nonlinear_arith)
                requires
                    top == n * pow2(t as nat),
                    den == d,
                    num == n * pow2((-k) as nat),
                    w == g * d,
                    pow2(t as nat) == pow2((-k) as nat) * g,
            ;
        }
    } else {
        lemma_pow2_pos((-t) as nat);
        lemma_pow2_adds(s, (-t) as nat);
        assert(top * den == num * w) by (nonlinear_arith)
            requires
                top == n,
                den == d * pow2(k as nat),
                num == n,
                w == g * (d * pow2((-t) as nat)),
                pow2(k as nat) == g * pow2((-t) as nat),
        ;
    }
    if t < 0 {
        lemma_mul_strictly_positive(d as int, pow2((-t) as nat) as int);
    }
    lemma_mul_strictly_positive(g as int, bottom as int);
    // den * distance(x.size() * bottom, top) == w * distance(rounded * den, num)
    let mine = distance(x.size() * bottom, top);
    lemma_distance_scaled(x.size() * bottom, top, den);
    lemma_distance_scaled(rounded * den, num, w);
    assert((x.size() * bottom) * den == (rounded * den) * w) by (nonlinear_arith)
        requires
            x.size() == rounded * g,
            w == g * bottom,
    ;
    assert(den * mine == w * distance(rounded * den, num));
    let (sig, scale) = (other.significand(), other.scale());
    let theirs = distance(other.size() * bottom, top);
    lemma_distance_scaled(other.size() * bottom, top, den);
    if scale >= s {
        // the other double is a multiple of the quantum
        let j = sig * pow2((scale - s) as nat);
        lemma_pow2_adds((scale - s) as nat, s);
        lemma_mul_is_associative(sig as int, pow2((scale - s) as nat) as int, g as int);
        assert(other.size() == j * g);
        lemma_round_half_even_is_nearest(num, den, j);
        lemma_distance_scaled(j * den, num, w);
        assert((other.size() * bottom) * den == (j * den) * w) by (nonlinear_arith)
            requires
                other.size() == j * g,
                w == g * bottom,
        ;
        assert(w * distance(rounded * den, num) <= w * distance(j * den, num)) by (nonlinear_arith)
            requires
                distance(rounded * den, num) <= distance(j * den, num),
                w > 0,
        ;
        assert(den * mine <= den * theirs);
    } else {
        // the other double lies below the cut of the value
        lemma_round_half_even_is_nearest(num, den, q);
        lemma_distance_scaled(q * den, num, w);
        lemma_pow2_unfold(s);
        lemma_pow2_monotone(scale, (s - 1) as nat);
        lemma_pow2_pos(scale);
        assert(other.size() <= q * g) by (nonlinear_arith)
            requires
                other.size() == sig * pow2(scale),
                sig < 2 * HIDDEN_BIT,
                q >= HIDDEN_BIT,
                pow2(scale) <= pow2((s - 1) as nat),
                g == 2 * pow2((s - 1) as nat),
                pow2(scale) > 0,
        ;
        assert(q * den <= num) by (nonlinear_arith)
            requires
                num == den * q + num % den,
                num % den >= 0,
        ;
        assert((other.size() * bottom) * den <= (q * den) * w) by (nonlinear_arith)
            requires
                other.size() <= q * g,
                w == g * bottom,
                den >= 0,
                bottom >= 0,
        ;
        assert((q * den) * w <= num * w) by (nonlinear_arith)
            requires
                q * den <= num,
                w >= 0,
        ;
        assert(w * distance(rounded * den, num) <= w * distance(q * den, num)) by (nonlinear_arith)
            requires
                distance(rounded * den, num) <= distance(q * den, num),
                w > 0,
        ;
        assert(den * mine <= den * theirs);
    }
    assert(mine <= theirs) by (nonlinear_arith)
        requires
            den * mine <= den * theirs,
            den > 0,
    ;
}

/// The magnitude bits of the double nearest to `(n / d) * 2^t` units.
///
/// The caller supplies a ratio of at least one. Where the denominator is not
/// one, the quotient must carry at least fifty-five digits, so that the
/// remainder of the division only ever decides whether something stands below
/// the half bit.
pub(crate) fn round_ratio(n: u128, d: u128, t: i32) -> (m: u64)
    requires
        0 < d <= n,
        d == 1 || n / d >= 0x40_0000_0000_0000,
        -5000 <= t <= 5000,
    ensures
        m == nearest(n as nat, d as nat, t as int),
        m <= INFINITY_BITS,
{
    let q: u128 = n / d;
    let r: u128 = n % d;
    let len32: u32 = bit_length_u128(q);
    let len: i32 = len32 as i32;
    let s: i32 = if len + t > 53 {
        len + t - 53
    } else {
        0
    };
    let k: i32 = s - t;
    let ghost rounded: nat = round_half_even(
        cut_numerator(n as nat, d as nat, t as int),
        cut_denominator(n as nat, d as nat, t as int),
    );
    proof {
        lemma2_to64();
        lemma2_to64_rest();
        lemma_div_non_zero(n as int, d as int);
        lemma_bit_length_bounds(q as nat);
        lemma_fundamental_div_mod(n as int, d as int);
        lemma_mod_bound(n as int, d as int);
        assert(q < pow2(len as nat));
        assert(q >= pow2((len - 1) as nat));
        if d > 1 {
            // fifty-five digits at least
            if len < 55 {
                lemma_pow2_monotone(len as nat, 54);
            }
            assert(len >= 55);
            assert(k >= 2);
        }
    }
    let sig: u128;
    let up: bool;
    if k <= 0 {
        let j: u32 = (-k) as u32;
        let p: u128 = pow2_u128(j);
        proof {
            assert(d == 1);
            assert(q == n);
            lemma_shifted_bound(q as nat, len as nat, j as nat, 53);
            lemma_pow2_monotone((len - 1) as nat, len as nat);
            if s > 0 {
                // q * 2^j >= 2^(len-1) * 2^j == 2^52
                lemma_pow2_adds((len - 1) as nat, j as nat);
                assert(q * p >= pow2((len - 1) as nat) * pow2(j as nat)) by (nonlinear_arith)
                    requires
                        q >= pow2((len - 1) as nat),
                        p == pow2(j as nat),
                ;
            }
        }
        sig = q * p;
        up = false;
        proof {
            let num = n as nat * pow2(j as nat);
            assert(num == sig) by (nonlinear_arith)
                requires
                    num == n as nat * pow2(j as nat),
                    sig == q * p,
                    q == n,
                    p == pow2(j as nat),
            ;
            assert(num / 1 == num && num % 1 == 0);
            if k == 0 {
                assert(d as nat * pow2(0) == 1);
                assert(num == n) by (nonlinear_arith)
                    requires
                        num == n as nat * pow2(j as nat),
                        pow2(j as nat) == 1,
                ;
                assert(rounded == round_half_even(n as nat, 1));
            } else {
                assert(rounded == round_half_even(num, 1));
            }
            assert(rounded == sig);
        }
    } else if k > len {
        sig = 0;
        up = false;
        proof {
            let den = d as nat * pow2(k as nat);
            lemma_pow2_unfold(k as nat);
            lemma_pow2_monotone(len as nat, (k - 1) as nat);
            assert(2 * n < den) by (nonlinear_arith)
                requires
                    n == d * q + r,
                    0 <= r < d,
                    q < pow2(len as nat),
                    pow2(len as nat) <= pow2((k - 1) as nat),
                    den == d as nat * (2 * pow2((k - 1) as nat)),
            ;
            lemma_fundamental_div_mod_converse(n as int, den as int, 0, n as int);
            assert(rounded == 0);
            assert(s == 0);
        }
    } else {
        let half: u128 = pow2_u128((k - 1) as u32);
        let qh: u128 = q / half;
        let low: u128 = q % half;
        sig = qh / 2;
        let hb: u128 = qh % 2;
        up = hb == 1 && (low > 0 || r > 0 || sig % 2 == 1);
        proof {
            lemma_pow2_unfold(k as nat);
            lemma_round_by_parts(n as nat, d as nat, half as nat);
            lemma_div_denominator(q as int, half as int, 2);
            assert(sig == q as nat / pow2(k as nat));
            // sig < 2^(len - k) <= 2^53
            lemma_pow2_adds((len - k) as nat, k as nat);
            lemma_pow2_monotone((len - k) as nat, 53);
            lemma_pow2_pos(k as nat);
            let pk = pow2(k as nat) as int;
            let rk = (q as int) % pk;
            lemma_fundamental_div_mod(q as int, pk);
            lemma_mod_bound(q as int, pk);
            assert(sig < pow2((len - k) as nat)) by (nonlinear_arith)
                requires
                    q == pk * sig + rk,
                    0 <= rk,
                    q < pow2((len - k) as nat) * pk,
                    pk > 0,
            ;
            if s > 0 {
                // k == len - 53, and q >= 2^(len-1) == 2^52 * 2^k
                lemma_pow2_adds(52, k as nat);
                assert(sig >= pow2(52)) by (nonlinear_arith)
                    requires
                        q == pk * sig + rk,
                        rk < pk,
                        q >= pow2(52) * pk,
                        pk > 0,
                ;
            }
        }
    }
    proof {
        assert(rounded == sig + if up {
            1nat
        } else {
            0nat
        });
        assert(sig < pow2(53));
        assert(s > 0 ==> sig >= pow2(52));
    }
    if s >= 2046 {
        INFINITY_BITS
    } else {
        let m: u64 = (s as u64) * HIDDEN_BIT + (sig as u64) + (if up {
            1u64
        } else {
            0u64
        });
        if m >= INFINITY_BITS {
            INFINITY_BITS
        } else {
            m
        }
    }
}

} // verus!
