//! What the bits of numbers stand for: their order, the whole numbers that they are cut
//! to, and the numbers that they are rounded from.

#[allow(unused_imports)]
use crate::bits::{
    as_i32, as_i64, as_usize, clamped_to_billion, infinite, lemma_top_bit, less, nan, narrowed,
    nearest, negated, negative, nonzero, of_int, rounded, same, significand, top_bit, truncated,
    unsigned, whole_part, BILLION, LOG2_E, NEG_BILLION,
};
#[allow(unused_imports)]
use crate::ops::activation::{ERF_A, ERF_B, GELU_A, GELU_B};
#[allow(unused_imports)]
use crate::ops::normalize::EPSILON;
#[allow(unused_imports)]
use crate::values::{lemma_nearest, lemma_number, lemma_signed, number, scaled};
#[allow(unused_imports)]
use vstd::arithmetic::div_mod::lemma_fundamental_div_mod;
#[allow(unused_imports)]
use vstd::arithmetic::power2::{
    lemma2_to64, lemma2_to64_rest, lemma_pow2_adds, lemma_pow2_pos, lemma_pow2_strictly_increases,
    pow2,
};
use vstd::prelude::*;

verus! {

/// Whether some bits stand for a finite number.
pub open spec fn finite(b: u32) -> bool {
    b % 0x8000_0000 < 0x7f80_0000
}

/// Numbers with a greater exponent are multiples of a unit, and the others are below as
/// many of them as the first such number is.
proof fn lemma_grid(u: u32, e: nat)
    requires
        u < 0x7f80_0000,
        1 <= e,
    ensures
        scaled(u) >= 0,
        u / 0x80_0000 >= e ==> scaled(u) == (u % 0x80_0000 + 0x80_0000) * pow2(
            (u / 0x80_0000 - e) as nat,
        ) * pow2((e - 1) as nat),
        u / 0x80_0000 < e ==> scaled(u) < 0x80_0000 * pow2((e - 1) as nat),
        u / 0x80_0000 >= e ==> scaled(u) >= 0x80_0000 * pow2((e - 1) as nat),
{
    let k = (u / 0x80_0000) as nat;
    let s = (u % 0x80_0000 + 0x80_0000) as nat;
    let g = pow2((e - 1) as nat);
    lemma_pow2_pos((e - 1) as nat);
    assert(u % 0x8000_0000 == u);
    lemma2_to64();
    if k >= e {
        let p = pow2((k - e) as nat);
        lemma_pow2_pos((k - e) as nat);
        lemma_pow2_adds((k - e) as nat, (e - 1) as nat);
        assert(s * (p * g) == s * p * g) by (nonlinear_arith);
        assert(s * p * g >= 0x80_0000 * g) by (nonlinear_arith)
            requires
                s >= 0x80_0000,
                p >= 1,
                g >= 1,
        ;
    } else if k == 0 {
        assert(0x80_0000 * g >= 0x80_0000) by (nonlinear_arith)
            requires
                g >= 1,
        ;
    } else {
        let h = pow2((k - 1) as nat);
        let p = pow2((e - 1 - k) as nat);
        lemma_pow2_pos((k - 1) as nat);
        lemma_pow2_pos((e - 1 - k) as nat);
        lemma_pow2_adds(k, (e - 1 - k) as nat);
        lemma_pow2_adds(1, (k - 1) as nat);
        assert(s * h < 0x80_0000 * ((2 * h) * p)) by (nonlinear_arith)
            requires
                s < 0x100_0000,
                h >= 1,
                p >= 1,
        ;
        assert(s * h >= 0) by (nonlinear_arith);
    }
}

/// Greater bits without a sign stand for a greater number.
proof fn lemma_monotone(a: u32, b: u32)
    requires
        a < b < 0x7f80_0000,
    ensures
        0 <= scaled(a) < scaled(b),
{
    let e = (b / 0x80_0000) as nat;
    if e == 0 {
        assert(a / 0x80_0000 == 0);
        assert(a % 0x80_0000 == a && b % 0x80_0000 == b);
    } else {
        lemma_grid(a, e);
        lemma_grid(b, e);
        if a / 0x80_0000 == e {
            let g = pow2((e - 1) as nat);
            lemma_pow2_pos((e - 1) as nat);
            let x = (a % 0x80_0000 + 0x80_0000) as int;
            let y = (b % 0x80_0000 + 0x80_0000) as int;
            assert(x < y);
            assert(x * g < y * g) by (nonlinear_arith)
                requires
                    x < y,
                    g > 0,
            ;
        }
    }
}

/// The number of units says how numbers are ordered.
proof fn lemma_ordered(a: u32, b: u32)
    ensures
        (number(a) < number(b)) == (scaled(a) < scaled(b)),
        (number(a) == number(b)) == (scaled(a) == scaled(b)),
{
    lemma_pow2_pos(149);
    let u = pow2(149) as real;
    let x = scaled(a) as real;
    let y = scaled(b) as real;
    assert((x / u < y / u) == (x < y) && (x / u == y / u) == (x == y)) by (nonlinear_arith)
        requires
            u > 0real,
    ;
}

/// The bits without the sign are those of the absolute value, and with the other sign
/// those of the negative.
pub proof fn law_absolute_and_negative(b: u32)
    ensures
        number(unsigned(b)) == if number(b) < 0real {
            0real - number(b)
        } else {
            number(b)
        },
        number(negated(b)) == 0real - number(b),
        nonzero(b) == (b % 0x8000_0000 != 0),
        finite(b) ==> nonzero(b) == (number(b) != 0real),
{
    let u = (b % 0x8000_0000) as u32;
    lemma_signed(u);
    assert(unsigned(b) == u);
    let e = u / 0x80_0000;
    let f = (u % 0x80_0000 + 0x80_0000) as int;
    if e > 0 {
        let p = pow2((e - 1) as nat);
        assert(f * p >= 0) by (nonlinear_arith)
            requires
                f >= 0,
                p >= 0,
        ;
    }
    assert(u % 0x8000_0000 == u && u % 0x80_0000 == b % 0x80_0000);
    assert(scaled(u) >= 0);
    assert(scaled(b) == scaled(u) || scaled(b) == -scaled(u));
    lemma_pow2_pos(149);
    let w = pow2(149) as real;
    let x = scaled(u) as real;
    assert((0real - x) / w == 0real - x / w && (x >= 0real ==> x / w >= 0real)) by (
    nonlinear_arith)
        requires
            w > 0real,
    ;
    if finite(b) {
        lemma_ordered(b, 0);
        assert(scaled(0) == 0);
        assert(0real / w == 0real) by (nonlinear_arith)
            requires
                w > 0real,
        ;
        if u > 0 {
            lemma_monotone(0, u);
        }
    }
}

/// Bits are compared as the numbers that they stand for, both zeros being the same.
/// What is no number is neither less than anything nor the same, and the infinities are
/// beyond all finite numbers.
pub proof fn law_order_of_numbers(a: u32, b: u32)
    ensures
        finite(a) && finite(b) ==> less(a, b) == (number(a) < number(b)),
        finite(a) && finite(b) ==> same(a, b) == (number(a) == number(b)),
        nan(a) || nan(b) ==> !less(a, b) && !same(a, b),
        nan(a) == (a % 0x8000_0000 > 0x7f80_0000),
        infinite(a) == (a == 0x7f80_0000 || a == 0xff80_0000),
        finite(a) ==> less(a, 0x7f80_0000) && !less(0x7f80_0000, a) && !same(a, 0x7f80_0000),
        finite(a) ==> less(0xff80_0000, a) && !less(a, 0xff80_0000) && !same(a, 0xff80_0000),
        less(0xff80_0000, 0x7f80_0000),
        !less(0x7f80_0000, 0xff80_0000),
        same(0x7f80_0000, 0x7f80_0000) && same(0xff80_0000, 0xff80_0000),
{
    let x = (a % 0x8000_0000) as u32;
    let y = (b % 0x8000_0000) as u32;
    assert(unsigned(a) == x && unsigned(b) == y);
    if finite(a) && finite(b) {
        lemma_ordered(a, b);
        lemma_signed(x);
        lemma_signed(y);
        assert(a == x || a == x + 0x8000_0000);
        assert(b == y || b == y + 0x8000_0000);
        assert(scaled(0) == 0);
        if x > 0 {
            lemma_monotone(0, x);
        }
        if y > 0 {
            lemma_monotone(0, y);
        }
        if x < y {
            lemma_monotone(x, y);
        }
        if y < x {
            lemma_monotone(y, x);
        }
    }
}

/// Whether a whole number from `low` to `high` is what is left of a number, given in
/// units of 1 / 2^149, without its fraction, or the end of the range that it lies beyond.
pub open spec fn is_cut(s: int, v: int, low: int, high: int) -> bool {
    let one = pow2(149) as int;
    if s >= (high + 1) * one {
        v == high
    } else if s <= (low - 1) * one {
        v == low
    } else if s >= 0 {
        v * one <= s < (v + 1) * one
    } else {
        (v - 1) * one < s <= v * one
    }
}

proof fn lemma_whole_part(b: u32)
    requires
        finite(b),
    ensures
        ({
            let one = pow2(149) as int;
            let s = scaled((b % 0x8000_0000) as u32);
            &&& 0 <= whole_part(b) * one <= s < (whole_part(b) + 1) * one
            &&& scaled(b) == if b < 0x8000_0000 {
                s
            } else {
                -s
            }
        }),
{
    let u = (b % 0x8000_0000) as u32;
    let e = (u / 0x80_0000) as nat;
    let one = pow2(149);
    lemma_pow2_pos(149);
    assert(unsigned(b) == u);
    assert(u % 0x8000_0000 == u && u % 0x80_0000 == b % 0x80_0000);
    lemma2_to64();
    if e >= 150 {
        let p = pow2((e - 150) as nat);
        lemma_pow2_adds((e - 150) as nat, 149);
        let m = significand(b);
        assert(m * (p * one) == (m * p) * one) by (nonlinear_arith);
        assert((m * p + 1) * one > (m * p) * one && (m * p) * one >= 0) by (nonlinear_arith)
            requires
                one > 0,
        ;
    } else if e == 0 {
        lemma_pow2_strictly_increases(23, 149);
        assert(0 * one == 0 && (0 + 1) * one == one) by (nonlinear_arith);
    } else {
        let p = pow2((150 - e) as nat);
        let h = pow2((e - 1) as nat);
        lemma_pow2_pos((150 - e) as nat);
        lemma_pow2_pos((e - 1) as nat);
        lemma_pow2_adds((150 - e) as nat, (e - 1) as nat);
        let m = significand(b);
        let w = m / p;
        lemma_fundamental_div_mod(m as int, p as int);
        assert(w * (p * h) <= m * h < (w + 1) * (p * h) && 0 <= w * (p * h)) by (nonlinear_arith)
            requires
                m == p * w + m % p,
                0 <= m % p < p,
                h > 0,
        ;
    }
}

proof fn lemma_cut(b: u32, low: int, high: int)
    requires
        finite(b),
        low <= 0 < high,
    ensures
        is_cut(scaled(b), truncated(b, low, high), low, high),
{
    lemma_whole_part(b);
    lemma_pow2_pos(149);
    let one = pow2(149) as int;
    let w = whole_part(b) as int;
    let s = scaled(b);
    assert(unsigned(b) == b % 0x8000_0000);
    assert(!nan(b) && !infinite(b));
    if b < 0x8000_0000 {
        if w > high {
            assert(w * one >= (high + 1) * one) by (nonlinear_arith)
                requires
                    w >= high + 1,
                    one > 0,
            ;
        } else {
            assert((w + 1) * one <= (high + 1) * one && (low - 1) * one < 0) by (nonlinear_arith)
                requires
                    w <= high,
                    low <= 0,
                    one > 0,
            ;
        }
    } else {
        assert((-w) * one == -(w * one) && (-w - 1) * one == -((w + 1) * one)) by (nonlinear_arith);
        if -w < low {
            assert((-w) * one <= (low - 1) * one && (low - 1) * one < (high + 1) * one) by (
            nonlinear_arith)
                requires
                    -w <= low - 1,
                    low <= 0 < high,
                    one > 0,
            ;
        } else {
            assert((-w - 1) * one >= (low - 1) * one && 0 < (high + 1) * one && 0 * one == 0) by (
            nonlinear_arith)
                requires
                    -w >= low,
                    0 < high,
                    one > 0,
            ;
            if s == 0 {
                assert(w == 0) by (nonlinear_arith)
                    requires
                        0 <= w * one <= 0,
                        one > 0,
                ;
            }
        }
    }
}

/// A cast to a whole number leaves what is left of a finite number without its fraction,
/// or the end of the range that it lies beyond. Infinities are beyond the ends, and what
/// is no number becomes 0.
pub proof fn law_casts_cut_fractions(b: u32)
    ensures
        finite(b) ==> {
            &&& is_cut(scaled(b), as_i64(b) as int, i64::MIN as int, i64::MAX as int)
            &&& is_cut(scaled(b), as_i32(b) as int, i32::MIN as int, i32::MAX as int)
            &&& is_cut(scaled(b), as_usize(b) as int, 0, usize::MAX as int)
        },
        b == 0x7f80_0000 ==> as_i64(b) == i64::MAX && as_i32(b) == i32::MAX && as_usize(b)
            == usize::MAX,
        b == 0xff80_0000 ==> as_i64(b) == i64::MIN && as_i32(b) == i32::MIN && as_usize(b) == 0,
        b % 0x8000_0000 > 0x7f80_0000 ==> as_i64(b) == 0 && as_i32(b) == 0 && as_usize(b) == 0,
{
    assert(unsigned(b) == b % 0x8000_0000);
    if finite(b) {
        lemma_cut(b, i64::MIN as int, i64::MAX as int);
        lemma_cut(b, i32::MIN as int, i32::MAX as int);
        lemma_cut(b, 0, usize::MAX as int);
    }
}

/// A number that is moved to a billion at most is a billion, or minus a billion, where
/// it lies beyond, the infinities included, and else stays what it is.
pub proof fn law_clamped_to_a_billion(b: u32)
    ensures
        number(BILLION) == 1_000_000_000real,
        number(NEG_BILLION) == 0real - 1_000_000_000real,
        finite(b) ==> clamped_to_billion(b) == if number(b) > 1_000_000_000real {
            BILLION
        } else if number(b) < 0real - 1_000_000_000real {
            NEG_BILLION
        } else {
            b
        },
        b == 0x7f80_0000 ==> clamped_to_billion(b) == BILLION,
        b == 0xff80_0000 ==> clamped_to_billion(b) == NEG_BILLION,
{
    lemma2_to64();
    lemma_pow2_adds(6, 149);
    let u = pow2(149);
    assert((0x6e_6b28 + 0x80_0000) * (64 * u) == 1_000_000_000 * u) by (nonlinear_arith);
    assert(scaled(BILLION) == (0x6e_6b28 + 0x80_0000) * pow2(155));
    lemma_number(BILLION, 1_000_000_000);
    lemma_signed(BILLION);
    assert(-(1_000_000_000 * u) == (-1_000_000_000) * u) by (nonlinear_arith);
    lemma_number(NEG_BILLION, -1_000_000_000);
    law_order_of_numbers(b, NEG_BILLION);
    law_order_of_numbers(BILLION, b);
    law_order_of_numbers(NEG_BILLION, b);
}

/// How far two whole numbers are apart.
pub open spec fn gap(a: int, b: int) -> int {
    if a < b {
        b - a
    } else {
        a - b
    }
}

/// No multiple of the unit is nearer than the rounded number, nor is what lies below
/// one that does not exceed it.
proof fn lemma_near(n: nat, unit: nat, f: nat, k: int, x: int)
    requires
        unit > 0,
        f > 0,
        x == k * (unit * f) || (x < k * (unit * f) && k * unit <= n),
    ensures
        ({
            let q = rounded(n, unit) as int;
            let target = (n * f) as int;
            &&& gap(q * (unit * f), target) <= gap(x, target)
            &&& gap(q * (unit * f), target) == gap(x, target) && x != q * (unit * f) ==> q % 2 == 0
        }),
{
    let q = rounded(n, unit) as int;
    let a = (n / unit) as int;
    let r = (n % unit) as int;
    let w = unit as int;
    lemma_fundamental_div_mod(n as int, w);
    let g = w * f;
    let t = r * f;
    assert(n * f == a * g + t) by (nonlinear_arith)
        requires
            n == w * a + r,
            g == w * f,
            t == r * f,
    ;
    assert(0 <= t < g && (2 * r > w ==> 2 * t > g) && (2 * r == w ==> 2 * t == g) && (2 * r < w
        ==> 2 * t < g)) by (nonlinear_arith)
        requires
            0 <= r < w,
            f > 0,
            g == w * f,
            t == r * f,
    ;
    assert((a + 1) * g == a * g + g) by (nonlinear_arith);
    assert((k <= a ==> k * g <= a * g) && (k >= a + 1 ==> k * g >= (a + 1) * g) && (k < a ==> k * g
        <= a * g - g) && (k > a + 1 ==> k * g >= (a + 1) * g + g)) by (nonlinear_arith)
        requires
            g > 0,
    ;
    if x != k * g {
        assert(k <= a) by (nonlinear_arith)
            requires
                k * w <= n,
                n == w * a + r,
                0 <= r < w,
        ;
    }
}

/// The bits for a whole number stand for the number that is nearest to it: no finite
/// number is nearer, and of two that are equally near it is the one whose last bit is 0.
pub proof fn law_whole_numbers_are_rounded(v: int, c: u32)
    requires
        -0x1_0000_0000_0000_0000 < v < 0x1_0000_0000_0000_0000,
        finite(c),
    ensures
        ({
            let b = of_int(v);
            let target = v * pow2(149);
            &&& finite(b)
            &&& gap(scaled(b), target) <= gap(scaled(c), target)
            &&& gap(scaled(b), target) == gap(scaled(c), target) && scaled(b) != scaled(c) ==> b % 2
                == 0
        }),
{
    let n: nat = if v < 0 {
        (-v) as nat
    } else {
        v as nat
    };
    let one = pow2(149);
    lemma_pow2_pos(149);
    let flipped = if v < 0 {
        negated(c)
    } else {
        c
    };
    let d = (c % 0x8000_0000) as u32;
    lemma_signed(d);
    assert(c == d || c == d + 0x8000_0000);
    let e = (flipped % 0x8000_0000) as u32;
    assert(e == d);
    assert(scaled(flipped) == if v < 0 {
        -scaled(c)
    } else {
        scaled(c)
    });
    assert(scaled(flipped) <= scaled(d)) by {
        lemma_grid(d, 1);
    }
    assert(0 * one == 0);
    if n > 0 {
        lemma_nearest(n);
        let bits = nearest(n) as u32;
        lemma_signed(bits);
        lemma_top_bit(n);
        let t = top_bit(n);
        assert(v < 0 ==> v * one == -(n * one)) by (nonlinear_arith)
            requires
                v < 0 ==> v == -n,
        ;
        if t > 23 {
            lemma2_to64();
            let unit = pow2((t - 23) as nat);
            lemma_pow2_pos((t - 23) as nat);
            lemma_pow2_adds((t - 23) as nat, 149);
            lemma_pow2_adds(23, (t - 23) as nat);
            let x = scaled(flipped);
            let exp = (127 + t) as nat;
            lemma_grid(d, exp);
            let k = if flipped == d && d / 0x80_0000 >= exp {
                (d % 0x80_0000 + 0x80_0000) * pow2((d / 0x80_0000 - exp) as nat)
            } else {
                0x80_0000
            };
            assert(0x80_0000 * (unit * one) > 0) by (nonlinear_arith)
                requires
                    unit > 0,
                    one > 0,
            ;
            lemma_near(n, unit, one, k, x);
        }
    }
}

/// The double-precision number with the given bits, if it is finite, in units of the
/// least positive one, which is 1 / 2^1074.
pub open spec fn scaled_double(d: u64) -> int {
    let e = (d % 0x8000_0000_0000_0000) / 0x10_0000_0000_0000;
    let f = d % 0x10_0000_0000_0000;
    let magnitude: int = if e == 0 {
        f as int
    } else {
        (f + 0x10_0000_0000_0000) * pow2((e - 1) as nat)
    };
    if d < 0x8000_0000_0000_0000 {
        magnitude
    } else {
        -magnitude
    }
}

/// What the bits of a positive double-precision number are rounded to.
proof fn lemma_narrowed(d: u64, c: int)
    requires
        d < 0x7ff0_0000_0000_0000,
        c < 0 || (exists|u: u32| u < 0x7f80_0000 && #[trigger] scaled(u) == c),
    ensures
        ({
            let b = narrowed(d);
            let target = scaled_double(d);
            let wide = pow2(925);
            &&& b <= 0x7f80_0000
            &&& (b == 0x7f80_0000) == (target >= 0x1ff_ffff * pow2(1177))
            &&& b < 0x7f80_0000 ==> {
                &&& gap(scaled(b) * wide, target) <= gap(c * wide, target)
                &&& gap(scaled(b) * wide, target) == gap(c * wide, target) && scaled(b) != c
                    ==> b % 2 == 0
            }
        }),
{
    let e = (d / 0x10_0000_0000_0000) as nat;
    let fraction = (d % 0x10_0000_0000_0000) as nat;
    let m = fraction + 0x10_0000_0000_0000;
    let b = narrowed(d);
    let wide = pow2(925);
    let target = scaled_double(d);
    assert(d % 0x8000_0000_0000_0000 == d);
    lemma2_to64();
    lemma2_to64_rest();
    lemma_pow2_pos(925);
    lemma_pow2_pos(1177);
    let limit = 0x1ff_ffff * pow2(1177);
    if e >= 1151 {
        lemma_pow2_adds(25, 1177);
        lemma_pow2_adds(52, 1150);
        let p = pow2(1150);
        lemma_pow2_pos(1150);
        let q = pow2((e - 1) as nat);
        if e > 1151 {
            lemma_pow2_strictly_increases(1150, (e - 1) as nat);
        }
        assert(m * q >= 0x10_0000_0000_0000 * p) by (nonlinear_arith)
            requires
                m >= 0x10_0000_0000_0000,
                q >= p,
        ;
        assert(target >= 0x200_0000 * pow2(1177));
    } else if e >= 897 {
        let unit = 0x2000_0000nat;
        let f = pow2((e - 1) as nat);
        lemma_pow2_pos((e - 1) as nat);
        let q = rounded(m, unit);
        assert(0x80_0000 <= q <= 0x100_0000);
        assert(target == m * f);
        let g = pow2((e - 897) as nat);
        lemma_pow2_pos((e - 897) as nat);
        lemma_pow2_adds((e - 897) as nat, 925);
        lemma_pow2_adds(29, (e - 1) as nat);
        assert(g * wide == unit * f);
        // The limit lies half a unit below the first number that is too great.
        lemma_pow2_adds(28, 1149);
        let z = pow2(1149);
        lemma_pow2_pos(1149);
        assert(limit == (0x1ff_ffff * 0x1000_0000) * z) by (nonlinear_arith)
            requires
                limit == 0x1ff_ffff * (0x1000_0000 * z),
        ;
        if e == 1150 {
            assert(f == z);
            assert((m * f >= limit) == (m >= 0x1ff_ffff * 0x1000_0000)) by (nonlinear_arith)
                requires
                    f == z,
                    z > 0,
                    limit == (0x1ff_ffff * 0x1000_0000) * z,
            ;
            assert((q == 0x100_0000) == (m >= 0x1ff_ffff * 0x1000_0000));
        } else {
            let y = pow2((1150 - e) as nat);
            lemma_pow2_adds((1150 - e) as nat, (e - 1) as nat);
            lemma_pow2_pos((1149 - e) as nat);
            lemma_pow2_adds(1, (1149 - e) as nat);
            assert(m * f < limit) by (nonlinear_arith)
                requires
                    m < 0x20_0000_0000_0000,
                    y * f == z,
                    y >= 2,
                    f > 0,
                    limit == (0x1ff_ffff * 0x1000_0000) * z,
            ;
        }
        if b < 0x7f80_0000 {
            if q < 0x100_0000 {
                assert(b / 0x80_0000 == e - 896);
                assert(b % 0x80_0000 == q - 0x80_0000);
                assert(scaled(b) == q * g);
            } else {
                assert(b / 0x80_0000 == e - 895);
                assert(b % 0x80_0000 == 0);
                lemma_pow2_adds(1, (e - 897) as nat);
                assert(0x80_0000 * (2 * g) == 0x100_0000 * g) by (nonlinear_arith);
                assert(scaled(b) == q * g);
            }
            assert(q * g * wide == q * (g * wide)) by (nonlinear_arith);
            assert(b % 2 == q % 2);
            let x = c * wide;
            let exp = (e - 896) as nat;
            if c >= 0 {
                let u = choose|u: u32| u < 0x7f80_0000 && #[trigger] scaled(u) == c;
                lemma_grid(u, exp);
                if u / 0x80_0000 >= exp {
                    let k = (u % 0x80_0000 + 0x80_0000) * pow2((u / 0x80_0000 - exp) as nat);
                    assert(c == k * g);
                    assert(k * g * wide == k * (g * wide)) by (nonlinear_arith);
                    lemma_near(m, unit, f, k, x);
                } else {
                    assert(c < 0x80_0000 * g);
                    assert(c * wide < 0x80_0000 * (g * wide)) by (nonlinear_arith)
                        requires
                            c < 0x80_0000 * g,
                            wide > 0,
                    ;
                    lemma_near(m, unit, f, 0x80_0000, x);
                }
            } else {
                assert(c * wide < 0 && 0x80_0000 * (g * wide) > 0) by (nonlinear_arith)
                    requires
                        c < 0,
                        wide > 0,
                        g > 0,
                ;
                lemma_near(m, unit, f, 0x80_0000, x);
            }
            assert(scaled(b) * wide == q * (unit * f));
            if scaled(b) != c {
                assert(c * wide != scaled(b) * wide) by (nonlinear_arith)
                    requires
                        c != scaled(b),
                        wide > 0,
                ;
            }
        }
    } else {
        // Below the numbers with an exponent of their own.
        lemma_pow2_adds(53, 895);
        lemma_pow2_adds(229, 948);
        lemma_pow2_adds(1, 947);
        lemma_pow2_pos(229);
        lemma_pow2_pos(948);
        let f = pow2((e - 1) as nat);
        assert(limit > pow2(948)) by (nonlinear_arith)
            requires
                limit == 0x1ff_ffff * (pow2(229) * pow2(948)),
                pow2(229) > 0,
                pow2(948) > 0,
        ;
        if e > 872 {
            let unit = pow2((926 - e) as nat);
            lemma_pow2_pos((926 - e) as nat);
            lemma_pow2_pos((e - 1) as nat);
            lemma_pow2_adds((926 - e) as nat, (e - 1) as nat);
            if 926 - e > 30 {
                lemma_pow2_strictly_increases(30, (926 - e) as nat);
            }
            let q = rounded(m, unit);
            assert(m / unit < 0x80_0000) by (nonlinear_arith)
                requires
                    m < 0x20_0000_0000_0000,
                    unit >= 0x4000_0000,
            ;
            assert(q <= 0x80_0000);
            assert(b == q);
            if q < 0x80_0000 {
                assert(b / 0x80_0000 == 0 && b % 0x80_0000 == q);
            } else {
                assert(b / 0x80_0000 == 1 && b % 0x80_0000 == 0);
                assert(pow2(0) == 1);
            }
            assert(scaled(b) == q);
            assert(target == m * f);
            if e < 896 {
                lemma_pow2_strictly_increases((e - 1) as nat, 895);
            }
            assert(m * f < 0x20_0000_0000_0000 * pow2(895)) by (nonlinear_arith)
                requires
                    m < 0x20_0000_0000_0000,
                    0 < f <= pow2(895),
            ;
            lemma_near(m, unit, f, c, c * wide);
            if scaled(b) != c {
                assert(c * wide != scaled(b) * wide) by (nonlinear_arith)
                    requires
                        c != scaled(b),
                        wide > 0,
                ;
            }
        } else {
            assert(b == 0 && scaled(b) == 0);
            lemma_pow2_adds(53, 871);
            lemma_pow2_adds(1, 924);
            let p = pow2(924);
            lemma_pow2_pos(924);
            lemma_pow2_pos(871);
            assert(0 <= target < p) by {
                if e == 0 {
                    lemma_pow2_strictly_increases(53, 924);
                } else {
                    lemma_pow2_pos((e - 1) as nat);
                    if e < 872 {
                        lemma_pow2_strictly_increases((e - 1) as nat, 871);
                    }
                    assert(0 <= m * f < 0x20_0000_0000_0000 * pow2(871)) by (nonlinear_arith)
                        requires
                            m < 0x20_0000_0000_0000,
                            0 < f <= pow2(871),
                    ;
                }
            }
            lemma_pow2_strictly_increases(924, 948);
            assert(0 * wide == 0 && (c >= 1 ==> c * wide >= wide) && (c <= -1 ==> c * wide
                <= -wide)) by (nonlinear_arith)
                requires
                    wide > 0,
            ;
        }
    }
}

/// The sign of a double-precision number is put before what its other bits become.
proof fn lemma_narrowed_sign(d: u64)
    ensures
        ({
            let plain = narrowed((d % 0x8000_0000_0000_0000) as u64);
            &&& plain < 0x8000_0000
            &&& narrowed(d) == if d >= 0x8000_0000_0000_0000 {
                (plain + 0x8000_0000) as u32
            } else {
                plain
            }
            &&& d % 0x8000_0000_0000_0000 > 0x7ff0_0000_0000_0000 ==> plain > 0x7f80_0000
            &&& d % 0x8000_0000_0000_0000 == 0x7ff0_0000_0000_0000 ==> plain == 0x7f80_0000
        }),
{
    let magnitude = (d % 0x8000_0000_0000_0000) as u64;
    assert(magnitude % 0x8000_0000_0000_0000 == magnitude);
    let e = magnitude / 0x10_0000_0000_0000;
    let m = (magnitude % 0x10_0000_0000_0000 + 0x10_0000_0000_0000) as nat;
    if e < 1151 && e >= 897 {
        assert(rounded(m, 0x2000_0000) <= 0x100_0000);
    } else if e < 897 && e > 872 {
        let unit = pow2((926 - e) as nat);
        lemma2_to64();
        if 926 - e > 30 {
            lemma_pow2_strictly_increases(30, (926 - e) as nat);
        }
        assert(m / unit < 0x80_0000) by (nonlinear_arith)
            requires
                m < 0x20_0000_0000_0000,
                unit >= 0x4000_0000,
        ;
        assert(rounded(m, unit) <= 0x80_0000);
    }
}

/// The sign of a double-precision number is that of the number of units.
proof fn lemma_double_sign(d: u64)
    ensures
        ({
            let plain = scaled_double((d % 0x8000_0000_0000_0000) as u64);
            &&& plain >= 0
            &&& scaled_double(d) == if d >= 0x8000_0000_0000_0000 {
                -plain
            } else {
                plain
            }
        }),
{
    let magnitude = (d % 0x8000_0000_0000_0000) as u64;
    assert(magnitude % 0x8000_0000_0000_0000 == magnitude);
    assert(magnitude % 0x10_0000_0000_0000 == d % 0x10_0000_0000_0000);
    let e = magnitude / 0x10_0000_0000_0000;
    let f = (magnitude % 0x10_0000_0000_0000 + 0x10_0000_0000_0000) as int;
    if e > 0 {
        let p = pow2((e - 1) as nat);
        assert(f * p >= 0) by (nonlinear_arith)
            requires
                f >= 0,
                p >= 0,
        ;
    }
}

/// A double-precision number becomes the nearest single-precision one: no finite number
/// is nearer, and of two that are equally near it is the one whose last bit is 0. What
/// is half a unit or more beyond the greatest finite number becomes an infinity, as the
/// infinities do, and what is no number stays none. The sign is kept.
pub proof fn law_doubles_are_rounded(d: u64, c: u32)
    requires
        finite(c),
    ensures
        ({
            let b = narrowed(d);
            let magnitude = d % 0x8000_0000_0000_0000;
            let target = scaled_double(d);
            let wide = pow2(925);
            &&& (b >= 0x8000_0000) == (d >= 0x8000_0000_0000_0000)
            &&& magnitude > 0x7ff0_0000_0000_0000 ==> b % 0x8000_0000 > 0x7f80_0000
            &&& magnitude == 0x7ff0_0000_0000_0000 ==> b % 0x8000_0000 == 0x7f80_0000
            &&& magnitude < 0x7ff0_0000_0000_0000 ==> {
                &&& b % 0x8000_0000 <= 0x7f80_0000
                &&& finite(b) == (gap(target, 0) < 0x1ff_ffff * pow2(1177))
                &&& finite(b) ==> {
                    &&& gap(scaled(b) * wide, target) <= gap(scaled(c) * wide, target)
                    &&& gap(scaled(b) * wide, target) == gap(scaled(c) * wide, target) && scaled(b)
                        != scaled(c) ==> b % 2 == 0
                }
            }
        }),
{
    let magnitude = (d % 0x8000_0000_0000_0000) as u64;
    let plain = narrowed(magnitude);
    lemma_narrowed_sign(d);
    lemma_double_sign(d);
    let negative = d >= 0x8000_0000_0000_0000;
    let b = narrowed(d);
    assert(b % 0x8000_0000 == plain && b % 2 == plain % 2);
    if magnitude < 0x7ff0_0000_0000_0000 {
        let wide = pow2(925);
        let u = (c % 0x8000_0000) as u32;
        lemma_signed(u);
        assert(c == u || c == u + 0x8000_0000);
        let y = scaled(c);
        let x = if negative {
            -y
        } else {
            y
        };
        assert(x < 0 || scaled(u) == x) by {
            lemma_grid(u, 1);
        }
        lemma_narrowed(magnitude, x);
        lemma_signed(plain);
        let s = scaled(plain);
        assert((-s) * wide == -(s * wide) && (-y) * wide == -(y * wide)) by (nonlinear_arith);
        let target = scaled_double(magnitude);
        assert(finite(b) == (plain < 0x7f80_0000));
        assert(gap(scaled_double(d), 0) == target);
        assert(gap(scaled(b) * wide, scaled_double(d)) == gap(s * wide, target));
        assert(gap(y * wide, scaled_double(d)) == gap(x * wide, target));
    }
}

/// Whether some bits stand for a positive number that is at most half a unit of its last
/// place away from `p / q`.
pub open spec fn is_near(b: u32, p: int, q: int) -> bool {
    2 * gap(scaled(b) * q, p * pow2(149)) <= q * pow2((b / 0x80_0000 - 1) as nat)
}

proof fn lemma_is_near(b: u32, p: int, q: int, e: nat, unit: int)
    requires
        b < 0x7f80_0000,
        b / 0x80_0000 == e,
        1 <= e < 150,
        unit == pow2((150 - e) as nat),
        q > 0,
        2 * gap((b % 0x80_0000 + 0x80_0000) * q, p * unit) <= q,
    ensures
        is_near(b, p, q),
{
    let s = (b % 0x80_0000 + 0x80_0000) as int;
    let g = pow2((e - 1) as nat) as int;
    lemma_pow2_pos((e - 1) as nat);
    lemma_pow2_adds((150 - e) as nat, (e - 1) as nat);
    assert(b % 0x8000_0000 == b);
    assert(s * g * q == (s * q) * g && p * (unit * g) == (p * unit) * g) by (nonlinear_arith);
    let x = s * q;
    let y = p * unit;
    assert(2 * gap(x * g, y * g) <= q * g) by {
        assert((x < y ==> x * g < y * g && 2 * (y * g - x * g) <= q * g) && (x >= y ==> x * g >= y
            * g && 2 * (x * g - y * g) <= q * g)) by (nonlinear_arith)
            requires
                g > 0,
                x < y ==> 2 * (y - x) <= q,
                x >= y ==> 2 * (x - y) <= q,
        ;
    }
}

/// The coefficients of the formulas are the single-precision numbers next to 1 / ln 2,
/// to 2.2567583342 and 0.0885, to 1.5957691216 and 0.044715, and to 0.00001.
pub proof fn law_coefficients()
    ensures
        is_near(LOG2_E, 14_426_950_408_889_634, 10_000_000_000_000_000),
        is_near(ERF_A, 22_567_583_342, 10_000_000_000),
        is_near(ERF_B, 885, 10_000),
        is_near(GELU_A, 15_957_691_216, 10_000_000_000),
        is_near(GELU_B, 44_715, 1_000_000),
        is_near(EPSILON, 1, 100_000),
{
    lemma2_to64();
    lemma2_to64_rest();
    lemma_is_near(LOG2_E, 14_426_950_408_889_634, 10_000_000_000_000_000, 127, 0x80_0000);
    lemma_is_near(ERF_A, 22_567_583_342, 10_000_000_000, 128, 0x40_0000);
    lemma_is_near(ERF_B, 885, 10_000, 123, 0x800_0000);
    lemma_is_near(GELU_A, 15_957_691_216, 10_000_000_000, 127, 0x80_0000);
    lemma_is_near(GELU_B, 44_715, 1_000_000, 122, 0x1000_0000);
    lemma_is_near(EPSILON, 1, 100_000, 110, 0x100_0000_0000);
}

} // verus!
