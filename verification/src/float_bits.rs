//! IEEE-754 numbers as bit patterns.
//!
//! The codec carries a floating-point number as the bits of its binary32 or binary64
//! form and never computes with it. What it needs are the conversions between the two
//! widths and from integers, and the tests for "not a number" and infinity. They are
//! defined here by integer arithmetic on the fields of the pattern: a sign, a biased
//! exponent and a fraction.
use vstd::prelude::*;

verus! {

/// Two to the power `k`.
pub open spec fn exp2(k: nat) -> nat
    decreases k,
{
    if k == 0 {
        1
    } else {
        2 * exp2((k - 1) as nat)
    }
}

/// `m / d` rounded to the nearest integer, a tie going to the even one.
pub open spec fn round_half_even(m: nat, d: nat) -> nat {
    let q = m / d;
    let r = m % d;
    if 2 * r > d || (2 * r == d && q % 2 == 1) {
        q + 1
    } else {
        q
    }
}

/// How often `m` must be doubled to reach `limit`.
pub open spec fn up_shift(m: nat, limit: nat) -> nat
    decreases 2 * limit - m,
{
    if m == 0 || m >= limit {
        0
    } else {
        1 + up_shift(2 * m, limit)
    }
}

/// What `m` is once it has been doubled until it reaches `limit`.
pub open spec fn normalized(m: nat, limit: nat) -> nat
    decreases 2 * limit - m,
{
    if m == 0 || m >= limit {
        m
    } else {
        normalized(2 * m, limit)
    }
}

/// How often `n` must be halved to fall below `limit`.
pub open spec fn down_shift(n: nat, limit: nat) -> nat
    decreases n,
{
    if n < limit || n == 0 {
        0
    } else {
        1 + down_shift(n / 2, limit)
    }
}

/// The sign bit of a binary32 pattern.
pub open spec fn single_sign(b: u32) -> nat {
    b as nat / 0x8000_0000
}

/// The biased exponent of a binary32 pattern.
pub open spec fn single_exponent(b: u32) -> nat {
    (b as nat / 0x80_0000) % 0x100
}

/// The fraction of a binary32 pattern.
pub open spec fn single_fraction(b: u32) -> nat {
    b as nat % 0x80_0000
}

/// The sign bit of a binary64 pattern.
pub open spec fn double_sign(b: u64) -> nat {
    b as nat / 0x8000_0000_0000_0000
}

/// The biased exponent of a binary64 pattern.
pub open spec fn double_exponent(b: u64) -> nat {
    (b as nat / 0x10_0000_0000_0000) % 0x800
}

/// The fraction of a binary64 pattern.
pub open spec fn double_fraction(b: u64) -> nat {
    b as nat % 0x10_0000_0000_0000
}

/// Whether a binary32 pattern is "not a number".
pub open spec fn single_is_nan_spec(b: u32) -> bool {
    single_exponent(b) == 0xff && single_fraction(b) != 0
}

/// Whether a binary32 pattern is a number other than an infinity.
pub open spec fn single_is_finite_spec(b: u32) -> bool {
    single_exponent(b) != 0xff
}

/// Whether a binary64 pattern is "not a number".
pub open spec fn double_is_nan_spec(b: u64) -> bool {
    double_exponent(b) == 0x7ff && double_fraction(b) != 0
}

/// Whether a binary64 pattern is a number other than an infinity.
pub open spec fn double_is_finite_spec(b: u64) -> bool {
    double_exponent(b) != 0x7ff
}

/// The binary64 pattern of the number that a binary32 pattern denotes. The
/// conversion is exact. A subnormal binary32 number is normal in binary64: its
/// fraction is doubled until the leading bit reaches the hidden place, and the
/// exponent goes down by one for each doubling.
pub open spec fn widen_spec(b: u32) -> u64 {
    let sign = single_sign(b) * 0x8000_0000_0000_0000;
    let e = single_exponent(b);
    let f = single_fraction(b);
    if e == 0xff {
        (sign + 0x7ff0_0000_0000_0000 + f * 0x2000_0000) as u64
    } else if e == 0 {
        if f == 0 {
            sign as u64
        } else {
            (sign + (897 - up_shift(f, 0x80_0000)) * 0x10_0000_0000_0000 + (normalized(
                f,
                0x80_0000,
            ) - 0x80_0000) * 0x2000_0000) as u64
        }
    } else {
        (sign + (e + 896) * 0x10_0000_0000_0000 + f * 0x2000_0000) as u64
    }
}

/// The significand of a binary64 pattern, with the hidden bit of a normal number.
pub open spec fn double_significand(b: u64) -> nat {
    if double_exponent(b) == 0 {
        double_fraction(b)
    } else {
        double_fraction(b) + 0x10_0000_0000_0000
    }
}

/// The binary32 pattern, without the sign, of the number nearest to the finite
/// binary64 number `b`, a tie going to the even fraction. A number too large for
/// binary32 becomes an infinity.
pub open spec fn narrow_magnitude(b: u64) -> nat {
    let e = if double_exponent(b) == 0 {
        1
    } else {
        double_exponent(b)
    };
    let m = double_significand(b);
    if e >= 897 {
        let r = (e - 897) * 0x80_0000 + round_half_even(m, 0x2000_0000);
        if r >= 0x7f80_0000 {
            0x7f80_0000
        } else {
            r as nat
        }
    } else {
        round_half_even(m, exp2((926 - e) as nat))
    }
}

/// The binary32 pattern of the number nearest to the one that a binary64 pattern
/// denotes. An infinity stays one, and "not a number" stays so.
pub open spec fn narrow_spec(b: u64) -> u32 {
    let sign = double_sign(b) * 0x8000_0000;
    if double_exponent(b) == 0x7ff {
        if double_fraction(b) == 0 {
            (sign + 0x7f80_0000) as u32
        } else {
            (sign + 0x7fc0_0000) as u32
        }
    } else {
        (sign + narrow_magnitude(b)) as u32
    }
}

/// The binary64 pattern, without the sign, of the number nearest to the natural
/// number `n`, a tie going to the even fraction.
pub open spec fn magnitude_to_double(n: nat) -> nat {
    if n == 0 {
        0
    } else if n < 0x20_0000_0000_0000 {
        ((1075 - up_shift(n, 0x10_0000_0000_0000)) * 0x10_0000_0000_0000 + normalized(
            n,
            0x10_0000_0000_0000,
        ) - 0x10_0000_0000_0000) as nat
    } else {
        let k = down_shift(n, 0x20_0000_0000_0000);
        (1074 + k) * 0x10_0000_0000_0000 + round_half_even(n, exp2(k))
    }
}

/// The binary64 pattern of the number nearest to the integer `v`, which lies
/// between `-2^63` and `2^64 - 1`.
pub open spec fn int_to_double_spec(v: int) -> u64 {
    if v < 0 {
        (0x8000_0000_0000_0000 + magnitude_to_double((-v) as nat)) as u64
    } else {
        magnitude_to_double(v as nat) as u64
    }
}

/// The powers of two at the places where the fields of the patterns begin.
pub proof fn lemma_exp2_values()
    ensures
        exp2(0) == 1,
        exp2(29) == 0x2000_0000,
        exp2(30) == 0x4000_0000,
        exp2(52) == 0x10_0000_0000_0000,
        exp2(53) == 0x20_0000_0000_0000,
        exp2(54) == 0x40_0000_0000_0000,
        exp2(55) == 0x80_0000_0000_0000,
        exp2(63) == 0x8000_0000_0000_0000,
        exp2(64) == 0x1_0000_0000_0000_0000,
{
    reveal_with_fuel(exp2, 65);
}

/// A larger exponent gives no smaller power of two.
pub proof fn lemma_exp2_monotonic(a: nat, b: nat)
    requires
        a <= b,
    ensures
        exp2(a) <= exp2(b),
        exp2(a) > 0,
    decreases b,
{
    if a < b {
        lemma_exp2_monotonic(a, (b - 1) as nat);
    } else {
        lemma_exp2_positive(a);
    }
}

/// A power of two is positive.
pub proof fn lemma_exp2_positive(a: nat)
    ensures
        exp2(a) > 0,
    decreases a,
{
    if a > 0 {
        lemma_exp2_positive((a - 1) as nat);
    }
}

/// Below half the divisor, a number rounds to zero.
pub proof fn lemma_round_to_zero(m: nat, d: nat)
    requires
        2 * m < d,
    ensures
        round_half_even(m, d) == 0,
{
    assert(m / d == 0 && m % d == m) by (nonlinear_arith)
        requires
            2 * m < d,
    ;
}

/// The quotient of a rounding stays within the quotient's bound, plus one.
pub proof fn lemma_round_bound(m: nat, d: nat, bound: nat)
    requires
        d > 0,
        m < bound * d,
    ensures
        round_half_even(m, d) <= bound,
        m % d < d,
{
    assert(m / d < bound && m % d < d) by (nonlinear_arith)
        requires
            d > 0,
            m < bound * d,
    ;
}

/// Powers of two multiply by adding their exponents.
pub proof fn lemma_exp2_adds(a: nat, b: nat)
    ensures
        exp2(a + b) == exp2(a) * exp2(b),
    decreases a,
{
    if a > 0 {
        lemma_exp2_adds((a - 1) as nat, b);
        assert(exp2(a + b) == 2 * exp2((a - 1) as nat + b));
        assert(2 * (exp2((a - 1) as nat) * exp2(b)) == (2 * exp2((a - 1) as nat)) * exp2(b))
            by (nonlinear_arith);
    } else {
        assert(exp2(a + b) == exp2(b));
        assert(1 * exp2(b) == exp2(b));
    }
}

/// What doubling until the limit gives is the number times two to the number of
/// doublings, and lies between the limit and its double.
pub proof fn lemma_normalized_is_shifted(m: nat, limit: nat)
    requires
        0 < m,
    ensures
        normalized(m, limit) == m * exp2(up_shift(m, limit)),
        m < limit ==> limit <= normalized(m, limit) < 2 * limit,
    decreases 2 * limit - m,
{
    if m >= limit {
        assert(m * 1 == m);
    } else {
        lemma_normalized_is_shifted(2 * m, limit);
        let k = up_shift(2 * m, limit);
        assert((2 * m) * exp2(k) == m * (2 * exp2(k))) by (nonlinear_arith);
    }
}

/// Rounding goes to a nearest integer: the rounded quotient times the divisor is at
/// most half a divisor away from the number.
pub proof fn lemma_round_is_nearest(m: nat, d: nat)
    requires
        d > 0,
    ensures
        2 * (round_half_even(m, d) * d - m) <= d,
        2 * (m - round_half_even(m, d) * d) <= d,
{
    let q = m / d;
    let r = m % d;
    vstd::arithmetic::div_mod::lemma_fundamental_div_mod(m as int, d as int);
    assert(0 <= r < d);
    assert(m == d * q + r);
    assert(d * q == q * d) by (nonlinear_arith);
    assert((q + 1) * d == q * d + d) by (nonlinear_arith);
}

/// A multiple of the divisor rounds to its quotient.
pub proof fn lemma_round_exact(q: nat, d: nat)
    requires
        d > 0,
    ensures
        round_half_even(q * d, d) == q,
{
    vstd::arithmetic::div_mod::lemma_div_multiples_vanish(q as int, d as int);
    vstd::arithmetic::div_mod::lemma_mod_multiples_basic(q as int, d as int);
    assert(q * d == d * q) by (nonlinear_arith);
    assert((q * d) / d == q);
    assert((q * d) % d == 0);
}

/// Every binary32 number is a binary64 number, and comes back unchanged: narrowing
/// what was widened gives the pattern that one started from.
pub proof fn lemma_narrow_of_widen(b: u32)
    requires
        !single_is_nan_spec(b),
    ensures
        narrow_spec(widen_spec(b)) == b,
        single_is_finite_spec(b) ==> double_is_finite_spec(widen_spec(b)),
{
    let s = single_sign(b);
    let e = single_exponent(b);
    let f = single_fraction(b);
    let w = widen_spec(b);
    assert(b == s * 0x8000_0000 + e * 0x80_0000 + f);
    assert(s <= 1 && e <= 255 && f < 0x80_0000);
    lemma_exp2_values();
    if e == 0xff {
        assert(w == s * 0x8000_0000_0000_0000 + 0x7ff0_0000_0000_0000);
        assert(double_exponent(w) == 0x7ff);
        assert(double_fraction(w) == 0);
        assert(double_sign(w) == s);
    } else if e == 0 {
        if f == 0 {
            assert(w == s * 0x8000_0000_0000_0000);
            assert(double_exponent(w) == 0);
            assert(double_fraction(w) == 0);
            assert(double_sign(w) == s);
            lemma_exp2_positive(925);
            lemma_round_to_zero(0, exp2(925));
        } else {
            let k = up_shift(f, 0x80_0000);
            let m = normalized(f, 0x80_0000);
            lemma_normalized_is_shifted(f, 0x80_0000);
            lemma_subnormal_shift(f, k);
            assert(1 <= k <= 23);
            let fraction = ((m - 0x80_0000) * 0x2000_0000) as nat;
            assert(w == s * 0x8000_0000_0000_0000 + (897 - k) * 0x10_0000_0000_0000 + fraction);
            assert(fraction < 0x10_0000_0000_0000);
            assert(double_exponent(w) == 897 - k);
            assert(double_fraction(w) == fraction);
            assert(double_sign(w) == s);
            assert(double_significand(w) == m * 0x2000_0000);
            lemma_exp2_adds(k, 29);
            let d = exp2((29 + k) as nat);
            assert(d == exp2(k) * 0x2000_0000);
            assert(m * 0x2000_0000 == f * d) by (nonlinear_arith)
                requires
                    m == f * exp2(k),
                    d == exp2(k) * 0x2000_0000,
            ;
            lemma_exp2_positive((29 + k) as nat);
            lemma_round_exact(f, d);
            assert((926 - (897 - k)) as nat == (29 + k) as nat);
            assert(narrow_magnitude(w) == f);
        }
    } else {
        let fraction = f * 0x2000_0000;
        assert(w == s * 0x8000_0000_0000_0000 + (e + 896) * 0x10_0000_0000_0000 + fraction);
        assert(double_exponent(w) == e + 896);
        assert(double_fraction(w) == fraction);
        assert(double_sign(w) == s);
        assert(double_significand(w) == (f + 0x80_0000) * 0x2000_0000);
        lemma_round_exact(f + 0x80_0000, 0x2000_0000);
        assert(narrow_magnitude(w) == e * 0x80_0000 + f);
    }
}

/// A positive fraction of binary32 reaches the hidden place after one to
/// twenty-three doublings.
proof fn lemma_subnormal_shift(f: nat, k: nat)
    requires
        0 < f < 0x80_0000,
        k == up_shift(f, 0x80_0000),
    ensures
        1 <= k <= 23,
{
    lemma_normalized_is_shifted(f, 0x80_0000);
    reveal_with_fuel(exp2, 25);
    if k >= 24 {
        lemma_exp2_monotonic(24, k);
        assert(f * exp2(k) >= exp2(k)) by (nonlinear_arith)
            requires
                f >= 1,
        ;
    }
}

/// The magnitude of the finite binary32 number `b`, in units of `2^-149`, the
/// smallest positive binary32 number.
pub open spec fn single_magnitude(b: u32) -> nat {
    if single_exponent(b) == 0 {
        single_fraction(b)
    } else {
        (single_fraction(b) + 0x80_0000) * exp2((single_exponent(b) - 1) as nat)
    }
}

/// The magnitude of the finite binary64 number `b`, in units of `2^-1074`, the
/// smallest positive binary64 number.
pub open spec fn double_magnitude(b: u64) -> nat {
    if double_exponent(b) == 0 {
        double_fraction(b)
    } else {
        (double_fraction(b) + 0x10_0000_0000_0000) * exp2((double_exponent(b) - 1) as nat)
    }
}

/// Widening is exact: the binary64 number has the sign and the magnitude of the
/// binary32 number. (The units of the two magnitudes differ by the factor `2^925`.)
pub proof fn lemma_widen_is_exact(b: u32)
    requires
        single_is_finite_spec(b),
    ensures
        double_is_finite_spec(widen_spec(b)),
        double_sign(widen_spec(b)) == single_sign(b),
        double_magnitude(widen_spec(b)) == single_magnitude(b) * exp2(925),
{
    let s = single_sign(b);
    let e = single_exponent(b);
    let f = single_fraction(b);
    let w = widen_spec(b);
    assert(s <= 1 && e <= 254 && f < 0x80_0000);
    lemma_exp2_values();
    if e == 0 {
        if f == 0 {
            assert(w == s * 0x8000_0000_0000_0000);
            assert(double_exponent(w) == 0);
            assert(double_fraction(w) == 0);
            assert(0 * exp2(925) == 0);
        } else {
            let k = up_shift(f, 0x80_0000);
            let m = normalized(f, 0x80_0000);
            lemma_normalized_is_shifted(f, 0x80_0000);
            lemma_subnormal_shift(f, k);
            let fraction = ((m - 0x80_0000) * 0x2000_0000) as nat;
            assert(w == s * 0x8000_0000_0000_0000 + (897 - k) * 0x10_0000_0000_0000 + fraction);
            assert(fraction < 0x10_0000_0000_0000);
            assert(double_exponent(w) == 897 - k);
            assert(double_fraction(w) == fraction);
            assert(double_sign(w) == s);
            let rest = exp2((896 - k) as nat);
            lemma_exp2_adds(k, 29);
            lemma_exp2_adds((k + 29) as nat, (896 - k) as nat);
            assert((k + 29 + (896 - k)) as nat == 925);
            assert((fraction + 0x10_0000_0000_0000) * rest == f * exp2(925)) by (nonlinear_arith)
                requires
                    fraction + 0x10_0000_0000_0000 == m * 0x2000_0000,
                    m == f * exp2(k),
                    exp2((k + 29) as nat) == exp2(k) * 0x2000_0000,
                    exp2(925) == exp2((k + 29) as nat) * rest,
            ;
        }
    } else {
        let fraction = f * 0x2000_0000;
        assert(w == s * 0x8000_0000_0000_0000 + (e + 896) * 0x10_0000_0000_0000 + fraction);
        assert(double_exponent(w) == e + 896);
        assert(double_fraction(w) == fraction);
        assert(double_sign(w) == s);
        let low = exp2((e - 1) as nat);
        lemma_exp2_adds(29, (e + 895) as nat);
        lemma_exp2_adds((e - 1) as nat, 925);
        assert((29 + (e + 895)) as nat == ((e - 1) + 925) as nat);
        assert((fraction + 0x10_0000_0000_0000) * exp2((e + 895) as nat) == (f + 0x80_0000) * low
            * exp2(925)) by (nonlinear_arith)
            requires
                fraction == f * 0x2000_0000,
                0x2000_0000 * exp2((e + 895) as nat) == low * exp2(925),
        ;
    }
}

/// An integer below `2^53` is a binary64 number: converting it loses nothing.
pub proof fn lemma_small_integers_are_exact(n: nat)
    requires
        n < 0x20_0000_0000_0000,
    ensures
        magnitude_to_double(n) < 0x7ff0_0000_0000_0000,
        double_magnitude(magnitude_to_double(n) as u64) == n * exp2(1074),
{
    lemma_exp2_values();
    if n == 0 {
        assert(0 * exp2(1074) == 0);
    } else {
        let k = up_shift(n, 0x10_0000_0000_0000);
        let m = normalized(n, 0x10_0000_0000_0000);
        lemma_normalized_is_shifted(n, 0x10_0000_0000_0000);
        assert(0x10_0000_0000_0000 <= m < 0x20_0000_0000_0000);
        if k >= 53 {
            lemma_exp2_monotonic(53, k);
            assert(n * exp2(k) >= exp2(k)) by (nonlinear_arith)
                requires
                    n >= 1,
            ;
        }
        let bits = magnitude_to_double(n);
        assert(bits == (1075 - k) * 0x10_0000_0000_0000 + (m - 0x10_0000_0000_0000));
        assert(double_exponent(bits as u64) == 1075 - k);
        assert(double_fraction(bits as u64) == m - 0x10_0000_0000_0000);
        lemma_exp2_adds(k, (1074 - k) as nat);
        assert((k + (1074 - k)) as nat == 1074);
        assert(m * exp2((1074 - k) as nat) == n * exp2(1074)) by (nonlinear_arith)
            requires
                m == n * exp2(k),
                exp2(1074) == exp2(k) * exp2((1074 - k) as nat),
        ;
    }
}

/// Whether a binary32 pattern is "not a number".
#[verifier::when_used_as_spec(single_is_nan_spec)]
pub fn single_is_nan(b: u32) -> (r: bool)
    ensures
        r == single_is_nan_spec(b),
{
    (b / 0x80_0000) % 0x100 == 0xff && b % 0x80_0000 != 0
}

/// Whether a binary32 pattern is a number other than an infinity.
#[verifier::when_used_as_spec(single_is_finite_spec)]
pub fn single_is_finite(b: u32) -> (r: bool)
    ensures
        r == single_is_finite_spec(b),
{
    (b / 0x80_0000) % 0x100 != 0xff
}

/// Whether a binary64 pattern is "not a number".
#[verifier::when_used_as_spec(double_is_nan_spec)]
pub fn double_is_nan(b: u64) -> (r: bool)
    ensures
        r == double_is_nan_spec(b),
{
    (b / 0x10_0000_0000_0000) % 0x800 == 0x7ff && b % 0x10_0000_0000_0000 != 0
}

/// Whether a binary64 pattern is a number other than an infinity.
#[verifier::when_used_as_spec(double_is_finite_spec)]
pub fn double_is_finite(b: u64) -> (r: bool)
    ensures
        r == double_is_finite_spec(b),
{
    (b / 0x10_0000_0000_0000) % 0x800 != 0x7ff
}

/// Doubles `m` until it reaches `limit`, and counts the doublings.
fn normalize(m: u64, limit: u64) -> (r: (u64, u64))
    requires
        0 < m < limit,
        limit <= 0x10_0000_0000_0000,
    ensures
        r.0 == normalized(m as nat, limit as nat),
        r.1 == up_shift(m as nat, limit as nat),
        limit <= r.0 < 2 * limit,
        1 <= r.1 <= 52,
        exp2(r.1 as nat) <= r.0,
{
    let mut x = m;
    let mut k: u64 = 0;
    while x < limit
        invariant
            0 < x < 2 * limit,
            limit <= 0x10_0000_0000_0000,
            normalized(x as nat, limit as nat) == normalized(m as nat, limit as nat),
            k + up_shift(x as nat, limit as nat) == up_shift(m as nat, limit as nat),
            x >= exp2(k as nat),
            k <= 52,
            x >= limit ==> k >= 1,
            m < limit,
            k == 0 ==> x == m,
        decreases 2 * limit - x,
    {
        proof {
            lemma_exp2_values();
            if k >= 52 {
                lemma_exp2_monotonic(52, k as nat);
            }
        }
        x = x * 2;
        k = k + 1;
    }
    (x, k)
}

/// The binary64 pattern of the number that a binary32 pattern denotes.
#[verifier::when_used_as_spec(widen_spec)]
pub fn widen(b: u32) -> (r: u64)
    ensures
        r == widen_spec(b),
{
    let s: u64 = (b / 0x8000_0000) as u64;
    let e: u64 = ((b / 0x80_0000) % 0x100) as u64;
    let f: u64 = (b % 0x80_0000) as u64;
    let sign: u64 = s * 0x8000_0000_0000_0000;
    if e == 0xff {
        sign + 0x7ff0_0000_0000_0000 + f * 0x2000_0000
    } else if e == 0 {
        if f == 0 {
            sign
        } else {
            let (m, k) = normalize(f, 0x80_0000);
            proof {
                reveal_with_fuel(exp2, 25);
                if k >= 24 {
                    lemma_exp2_monotonic(24, k as nat);
                }
            }
            sign + (897 - k) * 0x10_0000_0000_0000 + (m - 0x80_0000) * 0x2000_0000
        }
    } else {
        sign + (e + 896) * 0x10_0000_0000_0000 + f * 0x2000_0000
    }
}

/// `2^k`, for `k` up to 63.
fn power_of_two(k: u64) -> (r: u64)
    requires
        k <= 63,
    ensures
        r == exp2(k as nat),
        r >= 1,
{
    let mut d: u64 = 1;
    let mut i: u64 = 0;
    while i < k
        invariant
            i <= k <= 63,
            d == exp2(i as nat),
            d >= 1,
        decreases k - i,
    {
        proof {
            lemma_exp2_values();
            lemma_exp2_monotonic(i as nat, 62);
            lemma_exp2_monotonic(62, 63);
            assert(exp2(63) == 2 * exp2(62));
        }
        d = d * 2;
        i = i + 1;
    }
    d
}

/// `m / d` rounded to the nearest integer, a tie going to the even one.
fn divide_half_even(m: u64, d: u64) -> (r: u64)
    requires
        d > 0,
        m < 0x8000_0000_0000_0000,
        d <= 0x4000_0000_0000_0000,
    ensures
        r == round_half_even(m as nat, d as nat),
{
    let q = m / d;
    let r = m % d;
    if 2 * r > d || (2 * r == d && q % 2 == 1) {
        q + 1
    } else {
        q
    }
}

/// The binary32 pattern of the number nearest to the one that a binary64 pattern
/// denotes.
#[verifier::when_used_as_spec(narrow_spec)]
pub fn narrow(b: u64) -> (r: u32)
    ensures
        r == narrow_spec(b),
{
    let s: u32 = (b / 0x8000_0000_0000_0000) as u32;
    let raw: u64 = (b / 0x10_0000_0000_0000) % 0x800;
    let f: u64 = b % 0x10_0000_0000_0000;
    let sign: u32 = s * 0x8000_0000;
    if raw == 0x7ff {
        if f == 0 {
            sign + 0x7f80_0000
        } else {
            sign + 0x7fc0_0000
        }
    } else {
        let e: u64 = if raw == 0 {
            1
        } else {
            raw
        };
        let m: u64 = if raw == 0 {
            f
        } else {
            f + 0x10_0000_0000_0000
        };
        proof {
            lemma_exp2_values();
        }
        if e >= 897 {
            proof {
                lemma_round_bound(m as nat, 0x2000_0000, 0x100_0000);
            }
            let rounded = divide_half_even(m, 0x2000_0000);
            let r: u64 = (e - 897) * 0x80_0000 + rounded;
            if r >= 0x7f80_0000 {
                sign + 0x7f80_0000
            } else {
                sign + (r as u32)
            }
        } else if 926 - e > 54 {
            proof {
                lemma_exp2_monotonic(55, (926 - e) as nat);
                lemma_round_to_zero(m as nat, exp2((926 - e) as nat));
            }
            sign
        } else {
            let d = power_of_two(926 - e);
            proof {
                lemma_exp2_monotonic(30, (926 - e) as nat);
                lemma_exp2_monotonic((926 - e) as nat, 54);
                lemma_round_bound(m as nat, d as nat, 0x80_0000);
            }
            let rounded = divide_half_even(m, d);
            sign + (rounded as u32)
        }
    }
}

/// Halves `n` until it falls below `2^53`, and counts the halvings.
fn halvings(n: u64) -> (k: u64)
    requires
        n >= 0x20_0000_0000_0000,
    ensures
        k == down_shift(n as nat, 0x20_0000_0000_0000),
        1 <= k <= 11,
        exp2(k as nat) * 0x10_0000_0000_0000 <= n,
        n < exp2(k as nat) * 0x20_0000_0000_0000,
{
    let mut t = n;
    let mut k: u64 = 0;
    let ghost mut d: nat = 1;
    proof {
        lemma_exp2_values();
    }
    while t >= 0x20_0000_0000_0000
        invariant
            k + down_shift(t as nat, 0x20_0000_0000_0000) == down_shift(
                n as nat,
                0x20_0000_0000_0000,
            ),
            d == exp2(k as nat),
            d * t <= n,
            n < d * (t + 1),
            t >= 0x10_0000_0000_0000,
            k <= 11,
            k == 0 ==> t == n,
            t < exp2((64 - k) as nat),
        decreases t,
    {
        proof {
            lemma_exp2_values();
            if k >= 11 {
                assert(exp2((64 - k) as nat) == exp2(53));
            }
            assert(exp2((64 - k) as nat) == 2 * exp2((63 - k) as nat));
            let t2 = (t / 2) as nat;
            assert((2 * d) * t2 <= n && n < (2 * d) * (t2 + 1)) by (nonlinear_arith)
                requires
                    d * t <= n,
                    n < d * (t + 1),
                    t2 == t / 2,
                    d >= 0,
            ;
        }
        t = t / 2;
        k = k + 1;
        proof {
            d = 2 * d;
        }
    }
    proof {
        assert(d * 0x10_0000_0000_0000 <= n && n < d * 0x20_0000_0000_0000) by (nonlinear_arith)
            requires
                d * t <= n,
                n < d * (t + 1),
                0x10_0000_0000_0000 <= t < 0x20_0000_0000_0000,
                d >= 0,
        ;
    }
    k
}

/// The binary64 pattern, without the sign, of the number nearest to `n`.
fn magnitude_bits(n: u64) -> (r: u64)
    ensures
        r == magnitude_to_double(n as nat),
        r < 0x8000_0000_0000_0000,
{
    if n == 0 {
        0
    } else if n < 0x20_0000_0000_0000 {
        if n >= 0x10_0000_0000_0000 {
            1075 * 0x10_0000_0000_0000 + n - 0x10_0000_0000_0000
        } else {
            let (m, k) = normalize(n, 0x10_0000_0000_0000);
            (1075 - k) * 0x10_0000_0000_0000 + m - 0x10_0000_0000_0000
        }
    } else {
        let k = halvings(n);
        let d = power_of_two(k);
        proof {
            lemma_exp2_values();
            lemma_exp2_monotonic(k as nat, 11);
            reveal_with_fuel(exp2, 12);
            lemma_round_bound(n as nat, d as nat, 0x20_0000_0000_0000);
        }
        if n >= 0x8000_0000_0000_0000 {
            // the dividend is too large for the rounding helper: halve both
            let q = n / d;
            let r = n % d;
            let up = r > d / 2 || (r == d / 2 && q % 2 == 1);
            proof {
                assert(d >= 2 && d % 2 == 0) by {
                    assert(exp2(k as nat) == 2 * exp2((k - 1) as nat));
                }
                assert(up == (2 * r > d || (2 * r == d && q % 2 == 1)));
            }
            if up {
                (1074 + k) * 0x10_0000_0000_0000 + q + 1
            } else {
                (1074 + k) * 0x10_0000_0000_0000 + q
            }
        } else {
            let rounded = divide_half_even(n, d);
            (1074 + k) * 0x10_0000_0000_0000 + rounded
        }
    }
}

/// The binary64 pattern of the number nearest to an unsigned integer.
pub fn unsigned_to_double(n: u64) -> (r: u64)
    ensures
        r == int_to_double_spec(n as int),
{
    magnitude_bits(n)
}

/// The binary64 pattern of the number nearest to a signed integer.
pub fn signed_to_double(n: i64) -> (r: u64)
    ensures
        r == int_to_double_spec(n as int),
{
    if n < 0 {
        let magnitude: u64 = ((-(n + 1)) as u64) + 1;
        0x8000_0000_0000_0000 + magnitude_bits(magnitude)
    } else {
        magnitude_bits(n as u64)
    }
}

} // verus!
