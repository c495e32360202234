//! Single-precision numbers as bit patterns.
//!
//! A tensor element is held as the `u32` whose bits are those of the IEEE 754
//! single-precision number. This module says what such a pattern means, and
//! converts, compares and rounds in integers. Arithmetic that needs a floating
//! point unit is asked of a [`FloatMath`].

use vstd::arithmetic::power2::{
    lemma2_to64, lemma2_to64_rest, lemma_pow2_adds, lemma_pow2_pos, lemma_pow2_strictly_increases,
    lemma_pow2_unfold, pow2,
};
use vstd::prelude::*;

verus! {

/// The bits of 0.0.
pub const ZERO: u32 = 0;

/// The bits of 1.0.
pub const ONE: u32 = 0x3f80_0000;

/// The bits of -1.0.
pub const NEG_ONE: u32 = 0xbf80_0000;

/// The bits of 2.0.
pub const TWO: u32 = 0x4000_0000;

/// The bits of -2.0.
pub const NEG_TWO: u32 = 0xc000_0000;

/// The bits of 1 / ln 2, the factor that turns a power of e into one of 2.
pub const LOG2_E: u32 = 0x3fb8_aa3b;

/// The bits of 1e9.
pub const BILLION: u32 = 0x4e6e_6b28;

/// The bits of -1e9.
pub const NEG_BILLION: u32 = 0xce6e_6b28;

/// The bit that carries the sign.
pub const SIGN_BIT: u32 = 0x8000_0000;

/// The bits of positive infinity.
pub const INFINITY: u32 = 0x7f80_0000;

/// Arithmetic on single-precision numbers that are given and returned as bits.
pub trait FloatMath {
    /// `a + b`
    fn add(&self, a: u32, b: u32) -> u32;

    /// `a * b`
    fn mul(&self, a: u32, b: u32) -> u32;

    /// `a / b`
    fn div(&self, a: u32, b: u32) -> u32;

    /// `a % b`
    fn rem(&self, a: u32, b: u32) -> u32;

    /// `a` to the power `b`
    fn pow(&self, a: u32, b: u32) -> u32;

    /// The square root of `a`
    fn sqrt(&self, a: u32) -> u32;

    /// The cosine of `a`
    fn cos(&self, a: u32) -> u32;

    /// The sine of `a`
    fn sin(&self, a: u32) -> u32;

    /// The hyperbolic tangent of `a`
    fn tanh(&self, a: u32) -> u32;
}

/// Whether the number is negative, or a negative zero.
pub open spec fn negative(b: u32) -> bool {
    b >= SIGN_BIT
}

/// The bits without the sign.
pub open spec fn unsigned(b: u32) -> u32 {
    if negative(b) {
        (b - SIGN_BIT) as u32
    } else {
        b
    }
}

/// Whether the pattern is not a number.
pub open spec fn nan(b: u32) -> bool {
    unsigned(b) > INFINITY
}

/// Whether the number is an infinity.
pub open spec fn infinite(b: u32) -> bool {
    unsigned(b) == INFINITY
}

/// The biased exponent.
pub open spec fn exponent(b: u32) -> nat {
    (unsigned(b) / 0x80_0000) as nat
}

/// The significand, as a whole number of units of the last place.
pub open spec fn significand(b: u32) -> nat {
    if exponent(b) == 0 {
        unsigned(b) as nat
    } else {
        (unsigned(b) % 0x80_0000 + 0x80_0000) as nat
    }
}

/// The absolute value of a finite number, without its fraction.
pub open spec fn whole_part(b: u32) -> nat {
    if exponent(b) >= 150 {
        significand(b) * pow2((exponent(b) - 150) as nat)
    } else if exponent(b) == 0 {
        0
    } else {
        significand(b) / pow2((150 - exponent(b)) as nat)
    }
}

/// `value` moved into the range from `low` to `high`.
pub open spec fn clamped(value: int, low: int, high: int) -> int {
    if value < low {
        low
    } else if value > high {
        high
    } else {
        value
    }
}

/// The integer between `low` and `high` that a cast of the number gives: the
/// fraction is cut off, what lies outside the range is moved to its end, and
/// what is no number becomes 0.
pub open spec fn truncated(b: u32, low: int, high: int) -> int {
    if nan(b) {
        0
    } else if infinite(b) {
        if negative(b) {
            low
        } else {
            high
        }
    } else if negative(b) {
        clamped(-(whole_part(b) as int), low, high)
    } else {
        clamped(whole_part(b) as int, low, high)
    }
}

/// The cast of the number to `i64`.
pub open spec fn as_i64(b: u32) -> i64 {
    truncated(b, i64::MIN as int, i64::MAX as int) as i64
}

/// The cast of the number to `i32`.
pub open spec fn as_i32(b: u32) -> i32 {
    truncated(b, i32::MIN as int, i32::MAX as int) as i32
}

/// The cast of the number to `usize`.
pub open spec fn as_usize(b: u32) -> usize {
    truncated(b, 0, usize::MAX as int) as usize
}

/// 2 to the power `e`.
pub fn power_of_two(e: u32) -> (p: u64)
    requires
        e < 64,
    ensures
        p == pow2(e as nat),
{
    let mut p: u64 = 1;
    let mut i: u32 = 0;
    proof {
        lemma2_to64();
    }
    while i < e
        invariant
            i <= e < 64,
            p == pow2(i as nat),
        decreases e - i,
    {
        proof {
            lemma_pow2_unfold((i + 1) as nat);
            lemma2_to64_rest();
            if i + 1 < 63 {
                lemma_pow2_strictly_increases((i + 1) as nat, 63);
            }
        }
        p = p * 2;
        i = i + 1;
    }
    p
}

/// The bits without the sign: the absolute value.
pub fn abs(b: u32) -> (r: u32)
    ensures
        r == unsigned(b),
{
    if b >= SIGN_BIT {
        b - SIGN_BIT
    } else {
        b
    }
}

/// The bits with the other sign: the negation.
pub open spec fn negated(b: u32) -> u32 {
    if negative(b) {
        unsigned(b)
    } else {
        (b + SIGN_BIT) as u32
    }
}

/// The negation.
pub fn neg(b: u32) -> (r: u32)
    ensures
        r == negated(b),
{
    if b >= SIGN_BIT {
        b - SIGN_BIT
    } else {
        b + SIGN_BIT
    }
}

/// Whether the pattern is not a number.
pub fn is_nan(b: u32) -> (r: bool)
    ensures
        r == nan(b),
{
    abs(b) > INFINITY
}

/// Whether the number is an infinity.
pub fn is_infinite(b: u32) -> (r: bool)
    ensures
        r == infinite(b),
{
    abs(b) == INFINITY
}

/// Whether the number differs from zero.
pub open spec fn nonzero(b: u32) -> bool {
    unsigned(b) != 0
}

/// Whether the number differs from zero.
pub fn is_nonzero(b: u32) -> (r: bool)
    ensures
        r == nonzero(b),
{
    abs(b) != 0
}

/// A whole number that orders what is a number as the numbers are ordered,
/// and is the same for both zeros.
pub open spec fn rank(b: u32) -> int {
    if negative(b) {
        -(unsigned(b) as int)
    } else {
        b as int
    }
}

/// Whether `a` is less than `b`.
pub open spec fn less(a: u32, b: u32) -> bool {
    !nan(a) && !nan(b) && rank(a) < rank(b)
}

/// Whether `a` equals `b`.
pub open spec fn same(a: u32, b: u32) -> bool {
    !nan(a) && !nan(b) && rank(a) == rank(b)
}

fn rank_of(b: u32) -> (r: i64)
    ensures
        r == rank(b),
{
    if b >= SIGN_BIT {
        -((b - SIGN_BIT) as i64)
    } else {
        b as i64
    }
}

/// Whether `a` is less than `b`.
pub fn lt(a: u32, b: u32) -> (r: bool)
    ensures
        r == less(a, b),
{
    !is_nan(a) && !is_nan(b) && rank_of(a) < rank_of(b)
}

/// Whether `a` equals `b`.
pub fn eq(a: u32, b: u32) -> (r: bool)
    ensures
        r == same(a, b),
{
    !is_nan(a) && !is_nan(b) && rank_of(a) == rank_of(b)
}

/// The bits of 1.0 for true and of 0.0 for false.
pub open spec fn indicator(holds: bool) -> u32 {
    if holds {
        ONE
    } else {
        ZERO
    }
}

/// The bits of 1.0 for true and of 0.0 for false.
pub fn from_bool(holds: bool) -> (r: u32)
    ensures
        r == indicator(holds),
{
    if holds {
        ONE
    } else {
        ZERO
    }
}

/// The number moved into the range from -1e9 to 1e9.
pub open spec fn clamped_to_billion(b: u32) -> u32 {
    if less(b, NEG_BILLION) {
        NEG_BILLION
    } else if less(BILLION, b) {
        BILLION
    } else {
        b
    }
}

/// The number moved into the range from -1e9 to 1e9.
pub fn clamp_to_billion(b: u32) -> (r: u32)
    ensures
        r == clamped_to_billion(b),
{
    if lt(b, NEG_BILLION) {
        NEG_BILLION
    } else if lt(BILLION, b) {
        BILLION
    } else {
        b
    }
}

/// The absolute value without its fraction, where that is below 2^64.
fn whole(b: u32) -> (w: Option<u64>)
    requires
        !nan(b),
        !infinite(b),
    ensures
        match w {
            Some(n) => n == whole_part(b),
            None => whole_part(b) >= 0x1_0000_0000_0000_0000,
        },
{
    let magnitude: u32 = abs(b);
    let e: u32 = magnitude / 0x80_0000;
    if e == 0 {
        return Some(0);
    }
    let m: u64 = (magnitude % 0x80_0000 + 0x80_0000) as u64;
    assert(0x80_0000 <= m < 0x100_0000);
    if e < 127 {
        proof {
            lemma2_to64();
            if 150 - e > 24 {
                lemma_pow2_strictly_increases(24, (150 - e) as nat);
            }
            assert(m as int / (pow2((150 - e) as nat) as int) == 0) by (nonlinear_arith)
                requires
                    0 <= m < 0x100_0000,
                    pow2((150 - e) as nat) >= 0x100_0000,
            ;
        }
        Some(0)
    } else if e < 150 {
        let p = power_of_two(150 - e);
        proof {
            lemma_pow2_pos((150 - e) as nat);
        }
        Some(m / p)
    } else if e < 191 {
        let p = power_of_two(e - 150);
        proof {
            lemma2_to64();
            lemma2_to64_rest();
            if e - 150 < 40 {
                lemma_pow2_strictly_increases((e - 150) as nat, 40);
            }
            assert(m * p < 0x1_0000_0000_0000_0000) by (nonlinear_arith)
                requires
                    0 <= m < 0x100_0000,
                    0 <= p <= 0x100_0000_0000,
            ;
        }
        Some(m * p)
    } else {
        proof {
            lemma2_to64();
            lemma2_to64_rest();
            if e - 150 > 41 {
                lemma_pow2_strictly_increases(41, (e - 150) as nat);
            }
            assert(m * pow2((e - 150) as nat) >= 0x1_0000_0000_0000_0000) by (nonlinear_arith)
                requires
                    m >= 0x80_0000,
                    pow2((e - 150) as nat) >= 0x200_0000_0000,
            ;
        }
        None
    }
}

/// The cast of the number to `i64`.
pub fn to_i64(b: u32) -> (v: i64)
    ensures
        v == as_i64(b),
{
    if is_nan(b) {
        return 0;
    }
    if is_infinite(b) {
        return if b >= SIGN_BIT { i64::MIN } else { i64::MAX };
    }
    match whole(b) {
        None => if b >= SIGN_BIT { i64::MIN } else { i64::MAX },
        Some(n) => if b >= SIGN_BIT {
            if n >= 0x8000_0000_0000_0000 {
                i64::MIN
            } else {
                -(n as i64)
            }
        } else if n > 0x7fff_ffff_ffff_ffff {
            i64::MAX
        } else {
            n as i64
        },
    }
}

/// The cast of the number to `i32`.
pub fn to_i32(b: u32) -> (v: i32)
    ensures
        v == as_i32(b),
{
    let wide: i64 = to_i64(b);
    if wide < -0x8000_0000 {
        i32::MIN
    } else if wide > 0x7fff_ffff {
        i32::MAX
    } else {
        wide as i32
    }
}

/// The cast of the number to `usize`.
pub fn to_usize(b: u32) -> (v: usize)
    ensures
        v == as_usize(b),
{
    if is_nan(b) {
        return 0;
    }
    if b >= SIGN_BIT {
        return 0;
    }
    if is_infinite(b) {
        return usize::MAX;
    }
    match whole(b) {
        None => usize::MAX,
        Some(n) => if n > usize::MAX as u64 {
            usize::MAX
        } else {
            n as usize
        },
    }
}

/// How many times a number can be halved before it is below 2.
pub open spec fn top_bit(n: nat) -> nat
    decreases n,
{
    if n < 2 {
        0
    } else {
        1 + top_bit(n / 2)
    }
}

/// The place of the first bit of a number.
pub proof fn lemma_top_bit(n: nat)
    requires
        n > 0,
    ensures
        pow2(top_bit(n)) <= n < pow2(top_bit(n) + 1),
    decreases n,
{
    lemma2_to64();
    if n >= 2 {
        lemma_top_bit(n / 2);
        lemma_pow2_unfold(top_bit(n));
        lemma_pow2_unfold(top_bit(n) + 1);
    }
}

/// `n` in units of `unit`, rounded to the nearest whole number of them, and to
/// the even one of two that are equally near.
pub open spec fn rounded(n: nat, unit: nat) -> nat {
    let q = n / unit;
    let r = n % unit;
    if 2 * r > unit || (2 * r == unit && q % 2 == 1) {
        q + 1
    } else {
        q
    }
}

fn round(n: u64, unit: u64) -> (r: u64)
    requires
        0 < unit <= 0x4000_0000_0000_0000,
        unit >= 2,
    ensures
        r == rounded(n as nat, unit as nat),
{
    let q: u64 = n / unit;
    let rest: u64 = n % unit;
    assert(q <= n as int / 2) by (nonlinear_arith)
        requires
            q == n as int / unit as int,
            unit >= 2,
    ;
    if 2 * rest > unit || (2 * rest == unit && q % 2 == 1) {
        q + 1
    } else {
        q
    }
}

/// The bits of the single-precision number that is nearest to `n`.
pub open spec fn nearest(n: nat) -> nat {
    if n == 0 {
        0
    } else if top_bit(n) <= 23 {
        (126 + top_bit(n)) * 0x80_0000 + n * pow2((23 - top_bit(n)) as nat)
    } else {
        (126 + top_bit(n)) * 0x80_0000 + rounded(n, pow2((top_bit(n) - 23) as nat))
    }
}

/// The bits of the single-precision number that is nearest to `v`.
pub open spec fn of_int(v: int) -> u32 {
    if v < 0 {
        (nearest((-v) as nat) + SIGN_BIT) as u32
    } else {
        nearest(v as nat) as u32
    }
}

/// The bits of the number that is nearest to `n`.
fn from_magnitude(n: u64) -> (b: u32)
    ensures
        b == nearest(n as nat),
        b < SIGN_BIT,
{
    if n == 0 {
        return 0;
    }
    let mut rest: u64 = n;
    let mut top: u32 = 0;
    proof {
        lemma2_to64();
    }
    while rest > 1
        invariant
            rest > 0,
            n > 0,
            top_bit(n as nat) == top + top_bit(rest as nat),
            rest as nat * pow2(top as nat) <= n,
            top <= 63,
        decreases rest,
    {
        proof {
            lemma_pow2_unfold((top + 1) as nat);
            let p = pow2(top as nat);
            assert((rest as nat / 2) * (2 * p) <= rest as nat * p) by (nonlinear_arith);
            if top == 63 {
                lemma2_to64_rest();
                assert(rest as nat * pow2(63) >= 0x1_0000_0000_0000_0000) by (nonlinear_arith)
                    requires
                        rest >= 2,
                        pow2(63) == 0x8000_0000_0000_0000,
                ;
            }
        }
        rest = rest / 2;
        top = top + 1;
    }
    proof {
        lemma_top_bit(n as nat);
        assert(top == top_bit(n as nat));
        lemma2_to64();
        lemma2_to64_rest();
    }
    let base: u32 = (126 + top) * 0x80_0000;
    if top <= 23 {
        let p = power_of_two(23 - top);
        proof {
            lemma_pow2_adds((top + 1) as nat, (23 - top) as nat);
            assert((n as nat) * p < pow2(top as nat + 1) * p) by (nonlinear_arith)
                requires
                    n < pow2(top as nat + 1),
                    p > 0,
            ;
            lemma_pow2_pos((23 - top) as nat);
        }
        base + (n * p) as u32
    } else {
        let unit = power_of_two(top - 23);
        proof {
            lemma_pow2_adds(24, (top - 23) as nat);
            lemma_pow2_unfold((top - 23) as nat);
            lemma_pow2_pos((top - 24) as nat);
            if top - 23 < 40 {
                lemma_pow2_strictly_increases((top - 23) as nat, 40);
            }
            assert((n as int) / (unit as int) < 0x100_0000) by (nonlinear_arith)
                requires
                    n < 0x100_0000 * unit,
                    unit > 0,
            ;
        }
        let q = round(n, unit);
        base + q as u32
    }
}

/// The bits of the number that is nearest to `v`.
pub fn from_i64(v: i64) -> (b: u32)
    ensures
        b == of_int(v as int),
{
    if v == i64::MIN {
        let b = from_magnitude(0x8000_0000_0000_0000);
        b + SIGN_BIT
    } else if v < 0 {
        let b = from_magnitude((-v) as u64);
        b + SIGN_BIT
    } else {
        from_magnitude(v as u64)
    }
}

/// The bits of the number that is nearest to `v`.
pub fn from_usize(v: usize) -> (b: u32)
    ensures
        b == of_int(v as int),
{
    from_magnitude(v as u64)
}

/// The bits of the single-precision number that is nearest to the
/// double-precision number with the bits `d`. What is not a number keeps its
/// sign and the leading bits of its payload.
pub open spec fn narrowed(d: u64) -> u32 {
    let sign: nat = if d >= 0x8000_0000_0000_0000 {
        SIGN_BIT as nat
    } else {
        0
    };
    let magnitude = (d % 0x8000_0000_0000_0000) as nat;
    let e = magnitude / 0x10_0000_0000_0000;
    let fraction = magnitude % 0x10_0000_0000_0000;
    let m = fraction + 0x10_0000_0000_0000;
    if e == 2047 {
        if fraction == 0 {
            (sign + INFINITY) as u32
        } else {
            (sign + 0x7fc0_0000 + fraction / 0x2000_0000 % 0x40_0000) as u32
        }
    } else if e >= 1151 {
        (sign + INFINITY) as u32
    } else if e >= 897 {
        (sign + (e - 897) * 0x80_0000 + rounded(m, 0x2000_0000)) as u32
    } else if e > 872 {
        (sign + rounded(m, pow2((926 - e) as nat))) as u32
    } else {
        sign as u32
    }
}

/// The bits of the single-precision number that is nearest to a
/// double-precision number.
pub fn narrow(d: u64) -> (b: u32)
    ensures
        b == narrowed(d),
{
    let sign: u32 = if d >= 0x8000_0000_0000_0000 { SIGN_BIT } else { 0 };
    let magnitude: u64 = d % 0x8000_0000_0000_0000;
    let e: u64 = magnitude / 0x10_0000_0000_0000;
    let fraction: u64 = magnitude % 0x10_0000_0000_0000;
    let m: u64 = fraction + 0x10_0000_0000_0000;
    if e == 2047 {
        if fraction == 0 {
            sign + INFINITY
        } else {
            sign + 0x7fc0_0000 + (fraction / 0x2000_0000 % 0x40_0000) as u32
        }
    } else if e >= 1151 {
        sign + INFINITY
    } else if e >= 897 {
        let q: u64 = round(m, 0x2000_0000);
        sign + (e - 897) as u32 * 0x80_0000 + q as u32
    } else if e > 872 {
        let unit = power_of_two((926 - e) as u32);
        proof {
            lemma2_to64();
            lemma2_to64_rest();
            if 926 - e > 30 {
                lemma_pow2_strictly_increases(30, (926 - e) as nat);
            }
            if 926 - e < 53 {
                lemma_pow2_strictly_increases((926 - e) as nat, 53);
            }
            assert((m as int) / (unit as int) < 0x80_0000) by (nonlinear_arith)
                requires
                    m < 0x20_0000_0000_0000,
                    unit >= 0x4000_0000,
            ;
        }
        let q: u64 = round(m, unit);
        sign + q as u32
    } else {
        sign
    }
}

/// A whole number of at most 24 bits is the number that its bits stand for:
/// the cast back gives it again.
pub proof fn law_whole_numbers_survive(v: int)
    requires
        -0x100_0000 <= v <= 0x100_0000,
    ensures
        as_i64(of_int(v)) == v,
{
    let n: nat = if v < 0 {
        (-v) as nat
    } else {
        v as nat
    };
    if n > 0 {
        lemma_top_bit(n);
        lemma2_to64();
        lemma2_to64_rest();
        let t = top_bit(n);
        if t > 24 {
            lemma_pow2_strictly_increases(24, t);
        }
        let b = nearest(n);
        if t <= 23 {
            let p = pow2((23 - t) as nat);
            lemma_pow2_adds(t, (23 - t) as nat);
            lemma_pow2_adds(t + 1, (23 - t) as nat);
            lemma_pow2_pos((23 - t) as nat);
            assert(0x80_0000 <= n * p < 0x100_0000) by (nonlinear_arith)
                requires
                    pow2(t) <= n < pow2(t + 1),
                    pow2(t) * p == 0x80_0000,
                    pow2(t + 1) * p == 0x100_0000,
                    p > 0,
            ;
            assert(b / 0x80_0000 == 127 + t);
            assert(b % 0x80_0000 == n * p - 0x80_0000);
            assert((n * p) / p == n) by (nonlinear_arith)
                requires
                    p > 0,
            ;
            assert(b < INFINITY);
            let bits = of_int(v);
            assert(unsigned(bits) == b);
            assert(exponent(bits) == 127 + t);
            assert(significand(bits) == n * p);
            if t < 23 {
                assert(p == pow2((150 - exponent(bits)) as nat));
            } else {
                assert(p == pow2((exponent(bits) - 150) as nat));
                assert(p == 1);
                assert(n * p == n && significand(bits) * p == n) by (nonlinear_arith)
                    requires
                        p == 1,
                        significand(bits) == n * p,
                ;
            }
        } else {
            assert(t == 24);
            assert(n == 0x100_0000);
            assert(rounded(n, 2) == 0x80_0000);
            assert(b == 150 * 0x80_0000 + 0x80_0000);
            let bits = of_int(v);
            assert(unsigned(bits) == b);
            assert(exponent(bits) == 151);
            assert(pow2((exponent(bits) - 150) as nat) == 2);
            assert(significand(bits) == 0x80_0000);
        }
    }
}

} // verus!
