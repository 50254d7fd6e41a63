//! Exact integer helpers: fractions in billionths, floor division, integer
//! square roots, and the decoding of binary64 bit patterns.

use vstd::prelude::*;
use vstd::arithmetic::power2::{pow2, lemma_pow2_pos, lemma_pow2_adds, lemma_pow2_strictly_increases, lemma2_to64};
use vstd::bits::{lemma_u128_shr_is_div, lemma_u64_shr_is_div, lemma_u64_shl_is_mul};

verus! {

/// The denominator of every curve or probe parameter: a parameter `t`
/// stands for the fraction `t / UNIT`.
pub const UNIT: i64 = 1_000_000_000;

/// The sign bit of a binary64 bit pattern.
pub open spec fn sign_field(bits: u64) -> bool {
    bits / 0x8000_0000_0000_0000 == 1
}

/// The biased exponent of a binary64 bit pattern.
pub open spec fn exponent_field(bits: u64) -> nat {
    ((bits / 0x10_0000_0000_0000) % 2048) as nat
}

/// The significand of a normal binary64 bit pattern, hidden bit included.
pub open spec fn significand(bits: u64) -> nat {
    ((bits % 0x10_0000_0000_0000) + 0x10_0000_0000_0000) as nat
}

/// The number of billionths nearest the binary64 value `v` that `bits`
/// encodes, clamped to the unit interval: `0` where the sign bit is set or
/// `v` is zero, `UNIT` for `v >= 1` and for what is no number, else
/// `v * UNIT` rounded to the nearest integer.
pub open spec fn unit_fraction(bits: u64) -> int {
    let e = exponent_field(bits);
    if sign_field(bits) || e == 0 {
        0
    } else if e >= 1023 {
        UNIT as int
    } else {
        round_div(significand(bits) * UNIT, pow2((1075 - e) as nat) as int)
    }
}

/// The bound of whole parts: a magnitude of this much or more, and what is
/// no number, counts as this much.
pub const WHOLE_LIMIT: i64 = 0x8000_0000;

/// The whole part of the magnitude of the binary64 value that `bits`
/// encodes, at most `WHOLE_LIMIT`.
pub open spec fn whole_part(bits: u64) -> int {
    let e = exponent_field(bits);
    if e < 1023 {
        0
    } else if e >= 1054 {
        WHOLE_LIMIT as int
    } else {
        (significand(bits) / pow2((1075 - e) as nat)) as int
    }
}

/// Whether the binary64 value that `bits` encodes has a magnitude below
/// `WHOLE_LIMIT` that is no whole number.
pub open spec fn has_fraction(bits: u64) -> bool {
    let e = exponent_field(bits);
    if e == 0 {
        bits % 0x10_0000_0000_0000 != 0
    } else if e < 1023 {
        true
    } else if e >= 1054 {
        false
    } else {
        significand(bits) % pow2((1075 - e) as nat) != 0
    }
}

/// The greatest whole number that does not exceed the binary64 value that
/// `bits` encodes, between `-WHOLE_LIMIT` and `WHOLE_LIMIT`.
pub open spec fn floor_value(bits: u64) -> int {
    if sign_field(bits) {
        -whole_part(bits) - (if has_fraction(bits) { 1int } else { 0int })
    } else {
        whole_part(bits)
    }
}

/// The least whole number that the binary64 value that `bits` encodes
/// does not exceed, between `-WHOLE_LIMIT` and `WHOLE_LIMIT`.
pub open spec fn ceil_value(bits: u64) -> int {
    if sign_field(bits) {
        -whole_part(bits)
    } else {
        whole_part(bits) + (if has_fraction(bits) { 1int } else { 0int })
    }
}

/// Splits a binary64 bit pattern into the whole part of its magnitude and
/// whether a fraction is left.
fn decode_magnitude(bits: u64) -> (r: (i64, bool))
    ensures
        r.0 == whole_part(bits),
        r.1 == has_fraction(bits),
        0 <= r.0 <= WHOLE_LIMIT,
        r.0 == WHOLE_LIMIT ==> !r.1,
{
    let e: u64 = (bits >> 52) & 0x7ff;
    let f: u64 = bits & 0xf_ffff_ffff_ffff;
    proof {
        assert((bits >> 52) & 0x7ff == (bits / 0x10_0000_0000_0000) % 2048) by (bit_vector);
        assert(bits & 0xf_ffff_ffff_ffff == bits % 0x10_0000_0000_0000) by (bit_vector);
    }
    if e == 0 {
        (0, f != 0)
    } else if e < 1023 {
        (0, true)
    } else if e >= 1054 {
        (WHOLE_LIMIT, false)
    } else {
        let m: u64 = f + 0x10_0000_0000_0000;
        let shift: u64 = 1075 - e;
        let whole: u64 = m >> shift;
        proof {
            lemma_u64_shr_is_div(m, shift);
            lemma_pow2_pos(shift as nat);
            lemma2_to64();
            vstd::arithmetic::power2::lemma2_to64_rest();
            if shift > 22 {
                lemma_pow2_strictly_increases(22, shift as nat);
            }
            if shift < 52 {
                lemma_pow2_strictly_increases(shift as nat, 52);
            }
            let p = pow2(shift as nat) as int;
            vstd::arithmetic::div_mod::lemma_fundamental_div_mod(m as int, p);
            assert(0 <= m as int / p < 0x8000_0000) by (nonlinear_arith)
                requires
                    0 <= m < 0x20_0000_0000_0000,
                    p >= 0x40_0000,
            ;
            assert(whole * p <= m) by (nonlinear_arith)
                requires
                    m == p * (m as int / p) + (m as int % p),
                    0 <= m as int % p,
                    whole == m as int / p,
            ;
            lemma_u64_shl_is_mul(whole, shift);
        }
        let back: u64 = whole << shift;
        proof {
            let p = pow2(shift as nat) as int;
            assert(back == whole * p);
            assert((back != m) == (m as int % p != 0)) by (nonlinear_arith)
                requires
                    m == p * (m as int / p) + (m as int % p),
                    back == (m as int / p) * p,
            ;
        }
        (whole as i64, back != m)
    }
}

/// Rounds the value of a binary64 bit pattern down to a whole number.
pub fn decode_floor(bits: u64) -> (v: i64)
    ensures
        v == floor_value(bits),
        -WHOLE_LIMIT <= v <= WHOLE_LIMIT,
{
    let (whole, fraction) = decode_magnitude(bits);
    proof {
        assert(bits >> 63 == bits / 0x8000_0000_0000_0000) by (bit_vector);
    }
    if (bits >> 63) == 1 {
        if fraction {
            -whole - 1
        } else {
            -whole
        }
    } else {
        whole
    }
}

/// Rounds the value of a binary64 bit pattern up to a whole number.
pub fn decode_ceil(bits: u64) -> (v: i64)
    ensures
        v == ceil_value(bits),
        -WHOLE_LIMIT <= v <= WHOLE_LIMIT,
{
    let (whole, fraction) = decode_magnitude(bits);
    proof {
        assert(bits >> 63 == bits / 0x8000_0000_0000_0000) by (bit_vector);
    }
    if (bits >> 63) == 1 {
        -whole
    } else if fraction {
        whole + 1
    } else {
        whole
    }
}

/// `floor(a / b)` for a positive divisor.
pub open spec fn floor_div(a: int, b: int) -> int
    recommends
        b > 0,
{
    a / b
}

/// `a / b` rounded to the nearest integer, halves upwards.
pub open spec fn round_div(a: int, b: int) -> int
    recommends
        b > 0,
{
    (2 * a + b) / (2 * b)
}

proof fn lemma_pow2_85()
    ensures
        pow2(85) == 0x1_0000_0000_0000_0000_0000int * 0x20,
{
    lemma2_to64();
    lemma_pow2_adds(64, 21);
}

/// Rounding a quotient by a power of two: halve once less, add one, halve.
proof fn lemma_round_by_halving(x: int, h: int)
    requires
        0 <= x,
        0 < h,
    ensures
        round_div(x, 2 * h) == (x / h + 1) / 2,
{
    vstd::arithmetic::div_mod::lemma_div_multiples_vanish_quotient(2, x + h, 2 * h);
    assert(2 * (x + h) == 2 * x + 2 * h);
    vstd::arithmetic::div_mod::lemma_div_denominator(x + h, h, 2);
    vstd::arithmetic::div_mod::lemma_div_plus_one(x, h);
    assert(h * 2 == 2 * h);
}

/// A decoded fraction lies in the unit interval.
pub proof fn lemma_unit_fraction_range(bits: u64)
    ensures
        0 <= unit_fraction(bits) <= UNIT,
{
    let e = exponent_field(bits);
    if !(sign_field(bits) || e == 0) && e < 1023 {
        let d = pow2((1075 - e) as nat) as int;
        vstd::arithmetic::power2::lemma2_to64_rest();
        if 1075 - e > 53 {
            lemma_pow2_strictly_increases(53, (1075 - e) as nat);
        }
        let m = significand(bits) as int;
        assert(0 * d <= m * UNIT <= UNIT * d) by (nonlinear_arith)
            requires
                0 <= m < 0x20_0000_0000_0000,
                d >= 0x20_0000_0000_0000,
                UNIT == 1_000_000_000,
        ;
        lemma_round_div_bounds(m * UNIT, d, 0, UNIT as int);
    }
}

/// Decodes a binary64 bit pattern into billionths of the unit interval.
pub fn decode_unit_fraction(bits: u64) -> (t: i64)
    ensures
        t == unit_fraction(bits),
        0 <= t <= UNIT,
{
    let e: u64 = (bits >> 52) & 0x7ff;
    let f: u64 = bits & 0xf_ffff_ffff_ffff;
    let negative: bool = (bits >> 63) == 1;
    proof {
        assert((bits >> 52) & 0x7ff == (bits / 0x10_0000_0000_0000) % 2048) by (bit_vector);
        assert(bits & 0xf_ffff_ffff_ffff == bits % 0x10_0000_0000_0000) by (bit_vector);
        assert(bits >> 63 == bits / 0x8000_0000_0000_0000) by (bit_vector);
        lemma_unit_fraction_range(bits);
    }
    if negative || e == 0 {
        0
    } else if e >= 1023 {
        UNIT
    } else {
        let m: u128 = (f + 0x10_0000_0000_0000) as u128;
        let shift: u64 = 1075 - e;
        let product: u128 = m * 1_000_000_000u128;
        proof {
            lemma_pow2_pos(shift as nat);
            assert(product < 0x20_0000_0000_0000 * 1_000_000_000);
        }
        if shift >= 85 {
            proof {
                lemma_pow2_85();
                if shift > 85 {
                    lemma_pow2_strictly_increases(85, shift as nat);
                }
                let d = pow2(shift as nat) as int;
                assert(0 <= 2 * product + d < 2 * d);
                vstd::arithmetic::div_mod::lemma_basic_div(2 * product + d, 2 * d);
            }
            0
        } else {
            let halves: u128 = product >> ((shift - 1) as u128);
            proof {
                lemma_u128_shr_is_div(product, (shift - 1) as u128);
                lemma_pow2_pos((shift - 1) as nat);
                vstd::arithmetic::power2::lemma_pow2_unfold(shift as nat);
                lemma_round_by_halving(product as int, pow2((shift - 1) as nat) as int);
                vstd::arithmetic::div_mod::lemma_div_pos_is_pos(
                    product as int,
                    pow2((shift - 1) as nat) as int,
                );
                vstd::arithmetic::div_mod::lemma_div_is_ordered_by_denominator(
                    product as int,
                    1,
                    pow2((shift - 1) as nat) as int,
                );
            }
            ((halves + 1) / 2) as i64
        }
    }
}

/// Floor division by a positive divisor.
pub fn div_floor(a: i64, b: i64) -> (q: i64)
    requires
        b > 0,
    ensures
        q == floor_div(a as int, b as int),
{
    if a >= 0 {
        a / b
    } else {
        let n: i64 = -(a + 1);
        let qn: i64 = n / b;
        let rn: i64 = n % b;
        proof {
            vstd::arithmetic::div_mod::lemma_fundamental_div_mod(n as int, b as int);
            assert(a == (-(qn as int) - 1) * b + (b - rn - 1)) by (nonlinear_arith)
                requires
                    n == b * qn + rn,
                    a == -n - 1,
            ;
            vstd::arithmetic::div_mod::lemma_fundamental_div_mod_converse(
                a as int,
                b as int,
                -(qn as int) - 1,
                b - rn - 1,
            );
        }
        -qn - 1
    }
}

/// Division by a positive divisor, rounded to the nearest integer.
pub fn div_round(a: i64, b: i64) -> (q: i64)
    requires
        0 < b <= 0x2000_0000_0000_0000,
        -0x2000_0000_0000_0000 <= a <= 0x2000_0000_0000_0000,
    ensures
        q == round_div(a as int, b as int),
{
    div_floor(2 * a + b, 2 * b)
}

/// Floor division of wide integers by a positive divisor.
pub fn div_floor_wide(a: i128, b: i128) -> (q: i128)
    requires
        b > 0,
        a > i128::MIN,
    ensures
        q == floor_div(a as int, b as int),
{
    if a >= 0 {
        a / b
    } else {
        let n: i128 = -(a + 1);
        let qn: i128 = n / b;
        let rn: i128 = n % b;
        proof {
            vstd::arithmetic::div_mod::lemma_fundamental_div_mod(n as int, b as int);
            assert(a == (-(qn as int) - 1) * b + (b - rn - 1)) by (nonlinear_arith)
                requires
                    n == b * qn + rn,
                    a == -n - 1,
            ;
            vstd::arithmetic::div_mod::lemma_fundamental_div_mod_converse(
                a as int,
                b as int,
                -(qn as int) - 1,
                b - rn - 1,
            );
        }
        -qn - 1
    }
}

/// Division of wide integers by a positive divisor, rounded to the
/// nearest integer.
pub fn div_round_wide(a: i128, b: i128) -> (q: i128)
    requires
        0 < b <= 0x1_0000_0000_0000_0000_0000_0000,
        -0x1_0000_0000_0000_0000_0000_0000 <= a <= 0x1_0000_0000_0000_0000_0000_0000,
    ensures
        q == round_div(a as int, b as int),
{
    div_floor_wide(2 * a + b, 2 * b)
}

/// Adding a multiple of the divisor adds as much to the rounded quotient.
pub proof fn lemma_round_div_shift(x: int, d: int, k: int)
    requires
        d > 0,
    ensures
        round_div(x + k * d, d) == round_div(x, d) + k,
{
    let dd = 2 * d;
    let q = (2 * x + d) / dd;
    let r = (2 * x + d) % dd;
    vstd::arithmetic::div_mod::lemma_fundamental_div_mod(2 * x + d, dd);
    assert(2 * (x + k * d) + d == (q + k) * dd + r) by (nonlinear_arith)
        requires
            2 * x + d == dd * q + r,
            dd == 2 * d,
    ;
    vstd::arithmetic::div_mod::lemma_fundamental_div_mod_converse(
        2 * (x + k * d) + d,
        dd,
        q + k,
        r,
    );
}

/// A common positive factor of both parts leaves the rounded quotient as
/// it is.
pub proof fn lemma_round_div_scaled(x: int, d: int, k: int)
    requires
        d > 0,
        k > 0,
    ensures
        round_div(k * x, k * d) == round_div(x, d),
{
    let dd = 2 * d;
    let q = (2 * x + d) / dd;
    let r = (2 * x + d) % dd;
    vstd::arithmetic::div_mod::lemma_fundamental_div_mod(2 * x + d, dd);
    assert(2 * (k * x) + k * d == q * (2 * (k * d)) + k * r && 0 <= k * r < 2 * (k * d) && k * d
        > 0) by (nonlinear_arith)
        requires
            2 * x + d == dd * q + r,
            dd == 2 * d,
            0 <= r < dd,
            k > 0,
            d > 0,
    ;
    vstd::arithmetic::div_mod::lemma_fundamental_div_mod_converse(
        2 * (k * x) + k * d,
        2 * (k * d),
        q,
        k * r,
    );
}

/// A greater dividend gives no smaller rounded quotient.
pub proof fn lemma_round_div_ordered(x: int, y: int, d: int)
    requires
        d > 0,
        x <= y,
    ensures
        round_div(x, d) <= round_div(y, d),
{
    vstd::arithmetic::div_mod::lemma_div_is_ordered(2 * x + d, 2 * y + d, 2 * d);
}

/// A quotient rounded to nearest lies between any two integers that bound
/// the exact quotient.
pub proof fn lemma_round_div_bounds(x: int, d: int, lo: int, hi: int)
    requires
        d > 0,
        lo * d <= x <= hi * d,
    ensures
        lo <= round_div(x, d) <= hi,
{
    let dd: int = 2 * d;
    assert(lo * dd + d <= 2 * x + d <= hi * dd + d) by (nonlinear_arith)
        requires
            lo * d <= x <= hi * d,
            dd == 2 * d,
    ;
    vstd::arithmetic::div_mod::lemma_fundamental_div_mod_converse(lo * dd + d, dd, lo, d);
    vstd::arithmetic::div_mod::lemma_fundamental_div_mod_converse(hi * dd + d, dd, hi, d);
    vstd::arithmetic::div_mod::lemma_div_is_ordered(lo * dd + d, 2 * x + d, dd);
    vstd::arithmetic::div_mod::lemma_div_is_ordered(2 * x + d, hi * dd + d, dd);
}

/// The integer square root: the largest `r` with `r * r <= n`.
pub open spec fn is_floor_sqrt(n: int, r: int) -> bool {
    0 <= r && r * r <= n < (r + 1) * (r + 1)
}

/// The integer square root of `n`.
pub open spec fn sqrt_floor(n: int) -> int {
    choose|r: int| is_floor_sqrt(n, r)
}

/// A number has one integer square root.
pub proof fn lemma_floor_sqrt_unique(n: int, a: int, b: int)
    requires
        is_floor_sqrt(n, a),
        is_floor_sqrt(n, b),
    ensures
        a == b,
{
    if a < b {
        assert((a + 1) * (a + 1) <= b * b) by (nonlinear_arith)
            requires
                0 <= a + 1 <= b,
        ;
    } else if b < a {
        assert((b + 1) * (b + 1) <= a * a) by (nonlinear_arith)
            requires
                0 <= b + 1 <= a,
        ;
    }
}

/// Every number that is not negative has an integer square root.
pub proof fn lemma_sqrt_floor_exists(n: int)
    requires
        n >= 0,
    ensures
        is_floor_sqrt(n, sqrt_floor(n)),
    decreases n,
{
    if n == 0 {
        assert(is_floor_sqrt(0, 0));
    } else {
        lemma_sqrt_floor_exists(n - 1);
        let r = sqrt_floor(n - 1);
        if n < (r + 1) * (r + 1) {
            assert(is_floor_sqrt(n, r));
        } else {
            assert(n == (r + 1) * (r + 1));
            assert((r + 1) * (r + 1) < (r + 2) * (r + 2)) by (nonlinear_arith)
                requires
                    r >= 0,
            ;
            assert(is_floor_sqrt(n, r + 1));
        }
    }
}

/// The integer square root of a number below the square of `bound` is
/// below `bound`.
pub proof fn lemma_sqrt_floor_small(n: int, bound: int)
    requires
        0 <= n < bound * bound,
        0 <= bound,
    ensures
        0 <= sqrt_floor(n) < bound,
{
    lemma_sqrt_floor_exists(n);
    let r = sqrt_floor(n);
    if r >= bound {
        assert(r * r >= bound * bound) by (nonlinear_arith)
            requires
                r >= bound,
                bound >= 0,
        ;
    }
}

/// The square root of `n`, rounded up.
pub open spec fn sqrt_ceil(n: int) -> int {
    let r = sqrt_floor(n);
    if r * r == n {
        r
    } else {
        r + 1
    }
}

/// The square root rounded up is the least whole number whose square is
/// no less, and it exceeds every whole number whose square is less.
pub proof fn lemma_sqrt_ceil(n: int, below: int)
    requires
        n >= 0,
    ensures
        sqrt_ceil(n) >= 0,
        sqrt_ceil(n) * sqrt_ceil(n) >= n,
        n >= 1 ==> (sqrt_ceil(n) - 1) * (sqrt_ceil(n) - 1) < n,
        0 <= below && below * below < n ==> sqrt_ceil(n) > below,
        0 <= below && n <= below * below ==> sqrt_ceil(n) <= below,
{
    lemma_sqrt_floor_exists(n);
    let r = sqrt_floor(n);
    let c = sqrt_ceil(n);
    if r * r == n {
        if n >= 1 {
            assert((r - 1) * (r - 1) < r * r) by (nonlinear_arith)
                requires
                    r >= 1,
            ;
        }
    }
    if 0 <= below && below * below < n && c <= below {
        assert(c * c <= below * below) by (nonlinear_arith)
            requires
                0 <= c <= below,
        ;
    }
    if 0 <= below && n <= below * below && c > below {
        assert((c - 1) * (c - 1) >= below * below) by (nonlinear_arith)
            requires
                c - 1 >= below,
                below >= 0,
        ;
        if n == 0 {
            assert(r == 0) by (nonlinear_arith)
                requires
                    r >= 0,
                    r * r <= 0,
            ;
        }
    }
}

/// `a / b` rounded to the nearest integer, halves away from nought.
pub open spec fn round_div_away(a: int, b: int) -> int
    recommends
        b > 0,
{
    if a >= 0 {
        round_div(a, b)
    } else {
        -round_div(-a, b)
    }
}

/// `a / b` rounded towards nought.
pub open spec fn toward_zero_div(a: int, b: int) -> int
    recommends
        b > 0,
{
    if a >= 0 {
        a / b
    } else {
        -((-a) / b)
    }
}

/// A multiple of the divisor gives its factor.
pub proof fn lemma_round_div_away_exact(k: int, d: int)
    requires
        d > 0,
    ensures
        round_div_away(k * d, d) == k,
{
    assert((-k) * d == -(k * d)) by (nonlinear_arith);
    assert(k >= 0 <==> k * d >= 0) by (nonlinear_arith)
        requires
            d > 0,
    ;
    lemma_round_div_bounds(k * d, d, k, k);
    lemma_round_div_bounds((-k) * d, d, -k, -k);
}

/// The opposite dividend gives the opposite quotient.
pub proof fn lemma_round_div_away_negates(x: int, d: int)
    requires
        d > 0,
    ensures
        round_div_away(-x, d) == -round_div_away(x, d),
{
    assert(0 * d == 0);
    lemma_round_div_bounds(0, d, 0, 0);
}

/// A quotient rounded away from nought lies between any two integers on
/// either side of nought that bound the exact quotient.
pub proof fn lemma_round_div_away_bounds(x: int, d: int, lo: int, hi: int)
    requires
        d > 0,
        lo <= 0 <= hi,
        lo * d <= x <= hi * d,
    ensures
        lo <= round_div_away(x, d) <= hi,
{
    if x >= 0 {
        assert(0 * d <= x);
        lemma_round_div_bounds(x, d, 0, hi);
    } else {
        assert((-hi) * d == -(hi * d) && (-lo) * d == -(lo * d)) by (nonlinear_arith);
        assert(0 * d <= -x);
        lemma_round_div_bounds(-x, d, 0, -lo);
    }
}

/// Division rounded to the nearest integer, halves away from nought.
pub fn div_round_away(a: i64, b: i64) -> (q: i64)
    requires
        0 < b <= 0x2000_0000_0000_0000,
        -0x2000_0000_0000_0000 <= a <= 0x2000_0000_0000_0000,
    ensures
        q == round_div_away(a as int, b as int),
{
    if a >= 0 {
        div_round(a, b)
    } else {
        let up: i64 = div_round(-a, b);
        proof {
            assert(0 * b <= -a);
            assert(-(a as int) <= (-(a as int)) * b) by (nonlinear_arith)
                requires
                    -a >= 0,
                    b >= 1,
            ;
            lemma_round_div_bounds(-(a as int), b as int, 0, -(a as int));
        }
        -up
    }
}

/// Division rounded towards nought.
pub fn div_toward_zero(a: i64, b: i64) -> (q: i64)
    requires
        b > 0,
        a > i64::MIN,
    ensures
        q == toward_zero_div(a as int, b as int),
{
    if a >= 0 {
        a / b
    } else {
        let down: i64 = (-a) / b;
        proof {
            vstd::arithmetic::div_mod::lemma_div_pos_is_pos(-(a as int), b as int);
            vstd::arithmetic::div_mod::lemma_div_is_ordered_by_denominator(-(a as int), 1, b as int);
        }
        -down
    }
}

/// Computes the square root of `n`, rounded up.
pub fn ceil_sqrt(n: u64) -> (r: u64)
    requires
        n < 0x4000_0000_0000_0000,
    ensures
        r == sqrt_ceil(n as int),
        r <= 0x8000_0000,
{
    let down: u64 = floor_sqrt(n);
    assert(down * down <= 0x8000_0000 * 0x8000_0000) by (nonlinear_arith)
        requires
            0 <= down < 0x8000_0000,
    ;
    if down * down == n {
        down
    } else {
        down + 1
    }
}

/// Computes the integer square root of `n`.
pub fn floor_sqrt(n: u64) -> (r: u64)
    requires
        n < 0x4000_0000_0000_0000,
    ensures
        is_floor_sqrt(n as int, r as int),
        r == sqrt_floor(n as int),
        r < 0x8000_0000,
{
    let mut lo: u64 = 0;
    let mut hi: u64 = 0x8000_0000;
    assert(0x8000_0000u64 * 0x8000_0000u64 == 0x4000_0000_0000_0000u64) by (nonlinear_arith);
    while hi - lo > 1
        invariant
            lo < hi <= 0x8000_0000,
            lo * lo <= n < hi * hi,
        decreases hi - lo,
    {
        let mid: u64 = lo + (hi - lo) / 2;
        assert(mid * mid < 0x8000_0000 * 0x8000_0000) by (nonlinear_arith)
            requires
                mid < 0x8000_0000,
        ;
        if mid * mid <= n {
            lo = mid;
        } else {
            hi = mid;
        }
    }
    proof {
        lemma_floor_sqrt_unique(n as int, lo as int, sqrt_floor(n as int));
    }
    lo
}

} // verus!
