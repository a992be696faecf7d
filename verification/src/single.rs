//! Single-precision numbers as 32-bit patterns: what a pattern stands for, how
//! patterns compare, and how one rounds to a quantisation level.
//!
//! A pattern is one sign bit, eight exponent bits and twenty-three fraction
//! bits. Every number that a pattern stands for is a whole multiple of two to
//! the power of minus 149, so the integer [`scaled`] holds it exactly.

use vstd::arithmetic::div_mod::{
    lemma_basic_div, lemma_div_by_multiple, lemma_div_by_multiple_is_strongly_ordered,
    lemma_div_is_ordered, lemma_div_multiples_vanish_quotient, lemma_div_pos_is_pos,
    lemma_fundamental_div_mod, lemma_fundamental_div_mod_converse,
};
use vstd::arithmetic::power2::{
    lemma2_to64, lemma_pow2_adds, lemma_pow2_pos, lemma_pow2_strictly_increases,
    lemma_pow2_unfold, pow2,
};
use vstd::bits::{lemma_u32_shl_is_mul, lemma_u32_shr_is_div};
use vstd::prelude::*;

verus! {

/// Positive infinity.
pub const INFINITY: u32 = 0x7f80_0000;

/// Negative infinity.
pub const NEG_INFINITY: u32 = 0xff80_0000;

/// The number one.
pub const ONE: u32 = 0x3f80_0000;

/// The number fifteen, the highest level of four bits.
pub const FIFTEEN: u32 = 0x4170_0000;

/// The highest level of four bits, as an integer.
pub const MAX_LEVEL: u32 = 15;

/// A pattern without its sign bit.
pub open spec fn magnitude(b: u32) -> u32 {
    b % 0x8000_0000
}

/// The pattern stands for no number.
pub open spec fn is_nan(b: u32) -> bool {
    magnitude(b) > INFINITY
}

/// The exponent bits.
pub open spec fn exponent(b: u32) -> nat {
    (magnitude(b) / 0x80_0000) as nat
}

/// The fraction bits, with the leading one that a normal number leaves out.
pub open spec fn significand(b: u32) -> nat {
    if exponent(b) == 0 {
        (b % 0x80_0000) as nat
    } else {
        (b % 0x80_0000 + 0x80_0000) as nat
    }
}

/// The absolute value, in units of two to the power of minus 149. An infinity
/// counts as the number that would follow the largest finite one.
pub open spec fn scaled_magnitude(b: u32) -> nat {
    significand(b) * pow2(
        if exponent(b) == 0 {
            0
        } else {
            (exponent(b) - 1) as nat
        },
    )
}

/// The value, in units of two to the power of minus 149.
pub open spec fn scaled(b: u32) -> int {
    if b < 0x8000_0000 {
        scaled_magnitude(b) as int
    } else {
        -(scaled_magnitude(b) as int)
    }
}

/// The number one, in units of two to the power of minus 149.
pub open spec fn scaled_one() -> nat {
    pow2(149)
}

/// The first number is less than the second one. A pattern that stands for no
/// number is less than nothing, and nothing is less than it.
pub open spec fn less(a: u32, b: u32) -> bool {
    !is_nan(a) && !is_nan(b) && scaled(a) < scaled(b)
}

/// The level of a number: the nearest integer, a half rounding up, brought into
/// the range from 0 to 15. A pattern that stands for no number has level 0.
pub open spec fn level(b: u32) -> u32 {
    if is_nan(b) || scaled(b) < 0 {
        0
    } else {
        let nearest = (2 * scaled(b) + scaled_one()) / (2 * scaled_one() as int);
        if nearest > MAX_LEVEL {
            MAX_LEVEL
        } else {
            nearest as u32
        }
    }
}

/// A larger magnitude pattern stands for a larger absolute value.
pub proof fn scaled_magnitude_increases(a: u32, b: u32)
    requires
        magnitude(a) < magnitude(b),
    ensures
        scaled_magnitude(a) < scaled_magnitude(b),
{
    let (ea, eb) = (exponent(a), exponent(b));
    let (sa, sb) = (significand(a), significand(b));
    assert(ea <= eb);
    let pa: nat = if ea == 0 { 0 } else { (ea - 1) as nat };
    let pb: nat = if eb == 0 { 0 } else { (eb - 1) as nat };
    lemma_pow2_pos(pa);
    lemma_pow2_pos(pb);
    if pa == pb {
        assert(sa < sb);
        assert(sa * pow2(pa) < sb * pow2(pb)) by (nonlinear_arith)
            requires
                sa < sb,
                pa == pb,
                pow2(pa) > 0,
        ;
    } else {
        assert(pa < pb);
        lemma_pow2_unfold((pa + 1) as nat);
        if pa + 1 < pb {
            lemma_pow2_strictly_increases((pa + 1) as nat, pb);
        }
        assert(sa * pow2(pa) < sb * pow2(pb)) by (nonlinear_arith)
            requires
                sa < 0x100_0000,
                sb >= 0x80_0000,
                2 * pow2(pa) <= pow2(pb),
                pow2(pa) > 0,
        ;
    }
}

/// Equal magnitude patterns stand for equal absolute values.
proof fn scaled_magnitude_of_equals(a: u32, b: u32)
    requires
        magnitude(a) == magnitude(b),
    ensures
        scaled_magnitude(a) == scaled_magnitude(b),
{
    assert(a % 0x80_0000 == b % 0x80_0000);
}

/// Only the two zeros have the value zero.
pub proof fn scaled_zero(b: u32)
    ensures
        scaled(b) == 0 <==> magnitude(b) == 0,
{
    scaled_magnitude_of_zero();
    if magnitude(b) == 0 {
        scaled_magnitude_of_equals(b, 0);
    } else {
        scaled_magnitude_increases(0, b);
    }
}

proof fn scaled_magnitude_of_zero()
    ensures
        scaled_magnitude(0) == 0,
{
    assert(significand(0) == 0);
}

/// What patterns stand for. Without exponent bits it is the fraction; with
/// exponent bits `e` it is the fraction and a leading one, doubled `e - 1` times.
/// The sign bit negates.
pub proof fn values_of_patterns(e: nat, f: nat, b: u32)
    requires
        1 <= e <= 255,
        f < 0x80_0000,
        b < 0x8000_0000,
    ensures
        scaled(f as u32) == f,
        scaled((e * 0x80_0000 + f) as u32) == (0x80_0000 + f) * pow2((e - 1) as nat),
        scaled((b + 0x8000_0000) as u32) == -scaled(b),
        scaled_one() == pow2(149),
{
    let x = f as u32;
    assert(exponent(x) == 0 && significand(x) == f);
    assert(pow2(0) == 1) by {
        lemma2_to64();
    }
    assert(f * pow2(0) == f);
    let y = (e * 0x80_0000 + f) as u32;
    assert(magnitude(y) == y && exponent(y) == e && significand(y) == 0x80_0000 + f);
    scaled_magnitude_of_equals(b, (b + 0x8000_0000) as u32);
}

/// Which patterns stand for no number, for an infinity, and for a finite number.
pub proof fn kinds_of_patterns(b: u32)
    ensures
        is_nan(b) <==> b as int % 0x8000_0000 > 0x7f80_0000,
        is_finite(b) <==> b as int % 0x8000_0000 < 0x7f80_0000,
        INFINITY == 0x7f80_0000,
        NEG_INFINITY == 0xff80_0000,
{
}

/// Numbers are ordered by their values, and a pattern that stands for no number
/// is not ordered at all.
pub proof fn less_orders_values(a: u32, b: u32)
    ensures
        a as int % 0x8000_0000 > 0x7f80_0000 || b as int % 0x8000_0000 > 0x7f80_0000 ==> !less(
            a,
            b,
        ),
        a as int % 0x8000_0000 <= 0x7f80_0000 && b as int % 0x8000_0000 <= 0x7f80_0000 ==> (less(
            a,
            b,
        ) <==> scaled(a) < scaled(b)),
{
}

/// A number has level `k` exactly where it is at least `k` less a half, unless `k`
/// is 0, and below `k` and a half, unless `k` is 15. So a half rounds up. What is
/// no number has level 0.
pub proof fn level_covers_its_half_open_step(b: u32, k: u32)
    requires
        k <= 15,
    ensures
        is_nan(b) ==> level(b) == 0,
        !is_nan(b) ==> (level(b) == k <==> (k == 0 || 2 * scaled(b) >= (2 * k - 1) * pow2(149)) && (
        k == 15 || 2 * scaled(b) < (2 * k + 1) * pow2(149))),
{
    let one = scaled_one() as int;
    let v = scaled(b);
    lemma_pow2_pos(149);
    if !is_nan(b) {
        assert((2 * k - 1) * one == 2 * (k * one) - one) by (nonlinear_arith);
        assert((2 * k + 1) * one == 2 * (k * one) + one) by (nonlinear_arith);
        if v < 0 {
            if k > 0 {
                assert(k * one >= one) by (nonlinear_arith)
                    requires
                        k >= 1,
                        one > 0,
                ;
            }
        } else {
            let q = (2 * v + one) / (2 * one);
            let rest = (2 * v + one) % (2 * one);
            lemma_fundamental_div_mod(2 * v + one, 2 * one);
            lemma_div_pos_is_pos(2 * v + one, 2 * one);
            assert((2 * one) * q == 2 * (q * one)) by (nonlinear_arith);
            assert(0 <= rest < 2 * one);
            if q > k {
                assert(q * one >= k * one + one) by (nonlinear_arith)
                    requires
                        q >= k + 1,
                        one > 0,
                ;
            } else if q < k {
                assert(q * one <= k * one - one) by (nonlinear_arith)
                    requires
                        q <= k - 1,
                        one > 0,
                ;
            }
        }
    }
}

/// Whether `a` is less than `b` as a number.
pub fn is_less(a: u32, b: u32) -> (r: bool)
    ensures
        r == less(a, b),
{
    let ma: u32 = a % 0x8000_0000;
    let mb: u32 = b % 0x8000_0000;
    proof {
        scaled_magnitude_of_zero();
        if magnitude(a) < magnitude(b) {
            scaled_magnitude_increases(a, b);
        } else if magnitude(b) < magnitude(a) {
            scaled_magnitude_increases(b, a);
        } else {
            scaled_magnitude_of_equals(a, b);
        }
        scaled_zero(a);
        scaled_zero(b);
    }
    if ma > INFINITY || mb > INFINITY {
        false
    } else if a < 0x8000_0000 {
        b < 0x8000_0000 && ma < mb
    } else if b < 0x8000_0000 {
        ma > 0 || mb > 0
    } else {
        mb < ma
    }
}

/// Whether `b` is one of the two zeros.
pub fn is_zero(b: u32) -> (r: bool)
    ensures
        r == (!is_nan(b) && scaled(b) == 0),
{
    proof {
        scaled_zero(b);
    }
    b % 0x8000_0000 == 0
}

proof fn level_boundaries()
    ensures
        2 * scaled(0x3f00_0000) == scaled_one(),
        2 * scaled(0x4168_0000) == 29 * scaled_one(),
{
    lemma_pow2_adds(23, 125);
    lemma_pow2_unfold(149);
    lemma_pow2_adds(129, 20);
    assert(pow2(20) == 0x10_0000 && pow2(23) == 0x80_0000) by {
        lemma2_to64();
    }
    assert(exponent(0x3f00_0000) == 126 && significand(0x3f00_0000) == 0x80_0000);
    assert(exponent(0x4168_0000) == 130 && significand(0x4168_0000) == 0xe8_0000);
}

/// A number below one half has level zero.
proof fn level_of_small(b: u32)
    requires
        !is_nan(b),
        2 * scaled(b) < scaled_one(),
    ensures
        level(b) == 0,
{
    lemma_pow2_pos(149);
    if scaled(b) >= 0 {
        lemma_basic_div(2 * scaled(b) + scaled_one(), 2 * scaled_one() as int);
    }
}

/// A number from fourteen and a half on has the highest level.
proof fn level_of_large(b: u32)
    requires
        !is_nan(b),
        2 * scaled(b) >= 29 * scaled_one(),
    ensures
        level(b) == MAX_LEVEL,
{
    lemma_pow2_pos(149);
    let d = 2 * scaled_one() as int;
    lemma_div_is_ordered(15 * d, 2 * scaled(b) + scaled_one(), d);
    lemma_div_by_multiple(15, d);
}

/// The level of a number from one half up to fourteen and a half, by shifting
/// the significand.
proof fn level_by_shift(b: u32)
    requires
        0x3f00_0000 <= b < 0x4168_0000,
    ensures
        20 <= 150 - exponent(b) <= 24,
        level(b) == (significand(b) + pow2((149 - exponent(b)) as nat)) / pow2(
            (150 - exponent(b)) as nat,
        ),
{
    let e = exponent(b);
    let sig = significand(b) as int;
    let shift = (150 - e) as nat;
    assert(126 <= e <= 130);
    let c = pow2((e - 1) as nat) as int;
    let half = pow2((shift - 1) as nat) as int;
    let d = pow2(shift) as int;
    lemma_pow2_pos((e - 1) as nat);
    lemma_pow2_pos((shift - 1) as nat);
    lemma_pow2_adds((e - 1) as nat, shift);
    lemma_pow2_unfold(shift);
    assert(2 * (sig * c) + c * d == (2 * c) * (sig + half)) by (nonlinear_arith)
        requires
            d == 2 * half,
    ;
    assert(2 * (c * d) == (2 * c) * d) by (nonlinear_arith);
    lemma_div_multiples_vanish_quotient(2 * c, sig + half, d);
    level_boundaries();
    scaled_magnitude_increases(b, 0x4168_0000);
    let one = scaled_one() as int;
    lemma_div_by_multiple_is_strongly_ordered(2 * scaled(b) + one, 15 * (2 * one), 15, 2 * one);
    lemma_div_by_multiple(15, 2 * one);
}

/// The level of the number with pattern `b`.
pub fn round_to_level(b: u32) -> (r: u32)
    ensures
        r == level(b),
        r <= MAX_LEVEL,
{
    proof {
        level_boundaries();
        lemma_pow2_pos(149);
    }
    if b > INFINITY {
        proof {
            if b >= 0x8000_0000 && !is_nan(b) {
                level_of_small(b);
            }
        }
        0
    } else if b >= 0x4168_0000 {
        proof {
            if b > 0x4168_0000 {
                scaled_magnitude_increases(0x4168_0000, b);
            }
            level_of_large(b);
        }
        MAX_LEVEL
    } else if b < 0x3f00_0000 {
        proof {
            scaled_magnitude_increases(b, 0x3f00_0000);
            level_of_small(b);
        }
        0
    } else {
        let shift: u32 = 150 - b / 0x80_0000;
        let sig: u32 = b % 0x80_0000 + 0x80_0000;
        proof {
            level_by_shift(b);
            lemma2_to64();
            let x: u32 = (sig + (1u32 << ((shift - 1) as u32))) as u32;
            lemma_u32_shl_is_mul(1, (shift - 1) as u32);
            lemma_u32_shr_is_div(x, shift);
        }
        (sig + (1u32 << (shift - 1))) >> shift
    }
}

/// A level is at most fifteen.
pub proof fn level_in_range(b: u32)
    ensures
        level(b) <= MAX_LEVEL,
{
    lemma_pow2_pos(149);
    if scaled(b) >= 0 {
        lemma_div_pos_is_pos(2 * scaled(b) + scaled_one(), 2 * scaled_one() as int);
    }
}

/// A larger number has no smaller level.
pub proof fn level_increases(a: u32, b: u32)
    requires
        !is_nan(a),
        !is_nan(b),
        scaled(a) <= scaled(b),
    ensures
        level(a) <= level(b),
{
    let one = scaled_one() as int;
    lemma_pow2_pos(149);
    level_in_range(b);
    if scaled(a) >= 0 {
        lemma_div_is_ordered(2 * scaled(a) + one, 2 * scaled(b) + one, 2 * one);
        lemma_div_pos_is_pos(2 * scaled(a) + one, 2 * one);
    }
}

/// A number less than a half away from an integer has that integer as its
/// level.
pub proof fn level_of_close(b: u32, k: u32)
    requires
        !is_nan(b),
        k <= MAX_LEVEL,
        2 * distance(scaled(b), k * scaled_one()) < scaled_one(),
    ensures
        level(b) == k,
{
    let one = scaled_one() as int;
    let v = scaled(b);
    lemma_pow2_pos(149);
    if v >= 0 {
        let rest = 2 * v + one - k * (2 * one);
        assert(k * (2 * one) == 2 * (k * one)) by (nonlinear_arith);
        lemma_fundamental_div_mod_converse(2 * v + one, 2 * one, k as int, rest);
    } else if k > 0 {
        assert(k * one >= one) by (nonlinear_arith)
            requires
                k >= 1,
                one > 0,
        ;
    }
}

/// The values of the constants one and fifteen.
pub proof fn scaled_of_constants()
    ensures
        scaled(ONE) == scaled_one(),
        scaled(FIFTEEN) == 15 * scaled_one(),
{
    lemma_pow2_adds(23, 126);
    lemma_pow2_adds(20, 129);
    assert(pow2(20) == 0x10_0000 && pow2(23) == 0x80_0000) by {
        lemma2_to64();
    }
    assert(exponent(ONE) == 127 && significand(ONE) == 0x80_0000);
    assert(exponent(FIFTEEN) == 130 && significand(FIFTEEN) == 0xf0_0000);
}

/// The pattern stands for a finite number.
pub open spec fn is_finite(b: u32) -> bool {
    magnitude(b) < INFINITY
}

/// The pattern of a normal number with a given exponent and significand.
proof fn normal_pattern(e: nat, sig: nat) -> (x: u32)
    requires
        1 <= e <= 254,
        0x80_0000 <= sig < 0x100_0000,
    ensures
        x < INFINITY,
        scaled(x) == sig * pow2((e - 1) as nat),
{
    let x = (e * 0x80_0000 + (sig - 0x80_0000)) as u32;
    assert(magnitude(x) == x);
    assert(exponent(x) == e);
    assert(significand(x) == sig);
    x
}

/// An integer lies between two powers of two.
proof fn leading_power(v: nat) -> (e: nat)
    requires
        v > 0,
    ensures
        pow2(e) <= v < pow2(e + 1),
    decreases v,
{
    lemma2_to64();
    if v == 1 {
        0
    } else {
        let e = leading_power(v / 2);
        lemma_pow2_unfold(e + 1);
        lemma_pow2_unfold(e + 2);
        e + 1
    }
}

/// Every integer in the normal range has a pattern just below it.
pub proof fn pattern_below(v: nat) -> (x: u32)
    requires
        0x80_0000 <= v,
        v < pow2(277),
    ensures
        x < INFINITY,
        scaled(x) <= v,
        (v - scaled(x)) * 0x80_0000 <= v,
{
    lemma2_to64();
    let top = leading_power(v);
    if top < 23 {
        if top + 1 < 23 {
            lemma_pow2_strictly_increases(top + 1, 23);
        }
        assert(false);
    }
    if top >= 277 {
        if top > 277 {
            lemma_pow2_strictly_increases(277, top);
        }
        assert(false);
    }
    let shift = (top - 23) as nat;
    let d = pow2(shift) as int;
    lemma_pow2_pos(shift);
    lemma_pow2_adds(23, shift);
    lemma_pow2_adds(24, shift);
    let sig = v as int / d;
    lemma_fundamental_div_mod(v as int, d);
    lemma_div_is_ordered(0x80_0000 * d, v as int, d);
    lemma_div_by_multiple(0x80_0000, d);
    lemma_div_by_multiple_is_strongly_ordered(v as int, 0x100_0000 * d, 0x100_0000, d);
    lemma_div_by_multiple(0x100_0000, d);
    let x = normal_pattern(shift + 1, sig as nat);
    assert(d * sig == sig * d) by (nonlinear_arith);
    x
}

/// A pattern is a half-precision number: zero, or within the half-precision range
/// with a fraction of ten bits.
pub open spec fn is_half(b: u32) -> bool {
    magnitude(b) == 0 || (b % 0x2000 == 0 && 0x3380_0000 <= magnitude(b) <= 0x477f_e000)
}

/// The small multiples of a half-precision number have patterns.
pub proof fn multiple_of_half(s: u32, k: u32) -> (x: u32)
    requires
        is_half(s),
        scaled(s) > 0,
        k <= MAX_LEVEL,
    ensures
        x < INFINITY,
        scaled(x) == scaled(s) * k,
{
    scaled_zero(s);
    if k == 0 {
        scaled_zero(0);
        0
    } else {
        lemma2_to64();
        let e = exponent(s);
        let sig = significand(s);
        let base = pow2((e - 1) as nat) as int;
        assert(103 <= e <= 142);
        assert(sig % 0x2000 == 0);
        let m = sig / 0x2000;
        assert(sig == 0x2000 * m && 0x400 <= m < 0x800);
        let product = k * sig;
        assert(0x80_0000 <= product < 0x1000_0000) by (nonlinear_arith)
            requires
                product == k * sig,
                1 <= k <= 15,
                0x80_0000 <= sig < 0x100_0000,
        ;
        let km = k * m;
        assert(product == 0x2000 * km) by (nonlinear_arith)
            requires
                product == k * sig,
                sig == 0x2000 * m,
                km == k * m,
        ;
        let (j, d, reduced): (nat, int, int) = if product < 0x100_0000 {
            (0, 1, product)
        } else if product < 0x200_0000 {
            (1, 2, product / 2)
        } else if product < 0x400_0000 {
            (2, 4, product / 4)
        } else if product < 0x800_0000 {
            (3, 8, product / 8)
        } else {
            (4, 16, product / 16)
        };
        assert(pow2(j) == d);
        assert(reduced * d == product) by (nonlinear_arith)
            requires
                product == 0x2000 * km,
                d == 1 && reduced == product || d == 2 && reduced == product / 2 || d == 4
                    && reduced == product / 4 || d == 8 && reduced == product / 8 || d == 16
                    && reduced == product / 16,
        ;
        assert(0x80_0000 <= reduced < 0x100_0000);
        lemma_pow2_adds(j, (e - 1) as nat);
        assert(reduced * (d * base) == (sig * base) * k) by (nonlinear_arith)
            requires
                reduced * d == k * sig,
        ;
        normal_pattern(e + j, reduced as nat)
    }
}

/// A level is a nearest one: no other level is closer to the number.
pub proof fn level_is_nearest(b: u32, k: u32)
    requires
        !is_nan(b),
        k <= MAX_LEVEL,
    ensures
        level(b) <= MAX_LEVEL,
        distance(scaled(b), level(b) * scaled_one()) <= distance(scaled(b), k * scaled_one()),
{
    let one = scaled_one() as int;
    let v = scaled(b);
    lemma_pow2_pos(149);
    let n = level(b) as int;
    if v >= 0 {
        let q = (2 * v + one) / (2 * one);
        lemma_fundamental_div_mod(2 * v + one, 2 * one);
        lemma_div_pos_is_pos(2 * v + one, 2 * one);
        assert((2 * v + one) % (2 * one) < 2 * one && (2 * v + one) % (2 * one) >= 0);
        assert((2 * one) * q == 2 * (q * one)) by (nonlinear_arith);
        if k > n {
            assert(k * one >= n * one + one) by (nonlinear_arith)
                requires
                    k >= n + 1,
                    one > 0,
            ;
        } else if k < n {
            assert(k * one <= n * one - one) by (nonlinear_arith)
                requires
                    k <= n - 1,
                    one > 0,
            ;
            assert(n * one <= q * one) by (nonlinear_arith)
                requires
                    n <= q,
                    one > 0,
            ;
        }
    } else {
        assert(k * one >= 0) by (nonlinear_arith)
            requires
                one > 0,
        ;
    }
}

/// How far apart two integers are.
pub open spec fn distance(a: int, b: int) -> int {
    if a <= b {
        b - a
    } else {
        a - b
    }
}

} // verus!
