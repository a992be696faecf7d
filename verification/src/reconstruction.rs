//! How close the stored values are to the weights, where the arithmetic rounds to
//! nearest: the bias to the least weight, the scale to a fifteenth of the range,
//! and what a reader makes of scale, bias and levels to the weights themselves.

use crate::quantize::{FloatUnit, Quantized};
use crate::rounding::{
    finite_below, half_bounds, inverse_is_close, is_nearest, nearest_is_exact,
};
use crate::single::{
    distance, exponent, is_finite, is_half, is_nan, level, level_covers_its_half_open_step,
    level_is_nearest, magnitude, pattern_below, scaled, scaled_magnitude,
    scaled_magnitude_increases, scaled_of_constants, scaled_one, scaled_zero, significand,
    values_of_patterns, FIFTEEN, INFINITY, ONE,
};
use vstd::arithmetic::div_mod::lemma_fundamental_div_mod;
use vstd::arithmetic::power2::{
    lemma2_to64, lemma_pow2_adds, lemma_pow2_pos, lemma_pow2_strictly_increases, pow2,
};
use vstd::math::abs;
use vstd::prelude::*;

verus! {

/// The pattern stands for a finite number within the half-precision range: of
/// absolute value 65504 at most.
pub open spec fn in_half_range(b: u32) -> bool {
    magnitude(b) <= 0x477f_e000
}

/// The nearest number is close to the exact result, or within a unit of it.
proof fn nearest_is_near(r: u32, num: int, den: int)
    requires
        is_nearest(r, num, den),
        den > 0,
        abs(num) < pow2(277) * den,
    ensures
        !is_nan(r),
        abs(scaled(r) * den - num) * 0x40_0000 <= abs(num) + 0x40_0000 * den,
{
    reveal(is_nearest);
    let a = abs(num) as int;
    let v = a / den;
    let rest = a % den;
    lemma_fundamental_div_mod(a, den);
    let top = pow2(277) as int;
    assert(0 <= v < top) by (nonlinear_arith)
        requires
            a == den * v + rest,
            0 <= rest < den,
            0 <= a < top * den,
    ;
    let x: u32 = if v < 0x80_0000 {
        v as u32
    } else {
        pattern_below(v as nat)
    };
    if v < 0x80_0000 {
        values_of_patterns(1, v as nat, 0);
    }
    let b = scaled(x);
    values_of_patterns(1, 0, x);
    let y: u32 = if num >= 0 {
        x
    } else {
        (x + 0x8000_0000) as u32
    };
    let gap = v - b;
    assert(gap >= 0 && gap * 0x80_0000 <= v);
    assert(a - b * den == gap * den + rest) by (nonlinear_arith)
        requires
            a == den * v + rest,
            gap == v - b,
    ;
    assert((gap * den) * 0x80_0000 <= v * den && gap * den >= 0) by (nonlinear_arith)
        requires
            gap * 0x80_0000 <= v,
            gap >= 0,
            den > 0,
    ;
    assert(v * den == den * v) by (nonlinear_arith);
    assert((-b) * den == -(b * den)) by (nonlinear_arith);
    assert(!is_nan(y));
    assert(distance(scaled(r) * den, num) <= distance(scaled(y) * den, num));
}

/// A number below a large power of two is finite.
proof fn finite_by_value(r: u32)
    requires
        !is_nan(r),
        abs(scaled(r)) <= pow2(276),
    ensures
        is_finite(r),
{
    lemma2_to64();
    lemma_pow2_adds(23, 253);
    assert(exponent(0x7f00_0000) == 254 && significand(0x7f00_0000) == 0x80_0000);
    assert(scaled_magnitude(0x7f00_0000) == pow2(276));
    finite_below(r, 0x7f00_0000);
}

/// Numbers within the half-precision range are below two to the power of 16.
proof fn half_range_bound(b: u32)
    requires
        in_half_range(b),
    ensures
        abs(scaled(b)) < pow2(165),
{
    lemma2_to64();
    lemma_pow2_adds(23, 142);
    assert(exponent(0x4780_0000) == 143 && significand(0x4780_0000) == 0x80_0000);
    assert(scaled_magnitude(0x4780_0000) == pow2(165));
    scaled_magnitude_increases(b, 0x4780_0000);
}

/// How far a computed position is from the exact one. The offset, the inverse and
/// the product are each rounded.
proof fn position_error(d: int, off: int, inv: int, s: int, one: int, p: int)
    requires
        one > 0x80_0000,
        s > 0x100_0000,
        inv > 0,
        abs(off - d) * 0x40_0000 <= abs(d) + 0x40_0000,
        abs(inv * s - one * one) * 0x40_0000 <= one * one,
        abs(p * one - off * inv) * 0x40_0000 <= abs(off * inv) + 0x40_0000 * one,
    ensures
        abs(p * s - d * one) * 0x40_0000 <= one * (7 * abs(d) + s),
{
    let k = 0x40_0000int;
    let square = one * one;
    let dd = abs(d) as int;
    let oo = abs(off) as int;
    let e1 = off - d;
    let e2 = inv * s - square;
    let e3 = p * one - off * inv;
    let x = p * s - d * one;
    assert(oo <= 2 * dd + 1);
    let near = inv * s;
    let product = off * inv;
    assert(e1 * square == off * square - d * square) by (nonlinear_arith)
        requires
            e1 == off - d,
    ;
    assert(off * e2 == off * near - off * square) by (nonlinear_arith)
        requires
            e2 == near - square,
    ;
    assert(e3 * s == p * one * s - product * s) by (nonlinear_arith)
        requires
            e3 == p * one - product,
    ;
    assert(product * s == off * near) by (nonlinear_arith)
        requires
            product == off * inv,
            near == inv * s,
    ;
    assert(x * one == p * one * s - d * square) by (nonlinear_arith)
        requires
            x == p * s - d * one,
            square == one * one,
    ;
    assert(x * one == e1 * square + off * e2 + e3 * s);
    let a1 = abs(e1) as int;
    let a2 = abs(e2) as int;
    let a3 = abs(e3) as int;
    assert(square > 0) by (nonlinear_arith)
        requires
            square == one * one,
            one > 0,
    ;
    // The error of the offset.
    let t1 = a1 * square;
    assert(-t1 <= e1 * square <= t1) by (nonlinear_arith)
        requires
            t1 == a1 * square,
            -a1 <= e1 <= a1,
            square > 0,
    ;
    assert(t1 * k <= (dd + k) * square) by (nonlinear_arith)
        requires
            t1 == a1 * square,
            a1 * k <= dd + k,
            square > 0,
    ;
    // The error of the inverse.
    let t2 = oo * a2;
    assert(-t2 <= off * e2 <= t2) by (nonlinear_arith)
        requires
            t2 == oo * a2,
            -a2 <= e2 <= a2,
            -oo <= off <= oo,
    ;
    assert(t2 * k <= oo * square) by (nonlinear_arith)
        requires
            t2 == oo * a2,
            a2 * k <= square,
            oo >= 0,
    ;
    // The error of the product.
    let t3 = a3 * s;
    assert(-t3 <= e3 * s <= t3) by (nonlinear_arith)
        requires
            t3 == a3 * s,
            -a3 <= e3 <= a3,
            s > 0,
    ;
    let m = abs(off * inv) as int;
    assert(m <= oo * inv) by (nonlinear_arith)
        requires
            m == off * inv || m == -(off * inv),
            -oo <= off <= oo,
            inv > 0,
    ;
    assert(near <= 2 * square);
    assert(m * s <= oo * near) by (nonlinear_arith)
        requires
            m <= oo * inv,
            near == inv * s,
            s > 0,
    ;
    assert(oo * near <= 2 * (oo * square)) by (nonlinear_arith)
        requires
            near <= 2 * square,
            oo >= 0,
    ;
    assert(t3 * k <= m * s + k * (one * s)) by (nonlinear_arith)
        requires
            t3 == a3 * s,
            a3 * k <= m + k * one,
            s > 0,
    ;
    // Together.
    let ax = abs(x) as int;
    let total = t1 + t2 + t3;
    assert(ax * one <= total) by (nonlinear_arith)
        requires
            -total <= x * one <= total,
            ax == x || ax == -x,
    ;
    let os = oo * square;
    assert(total * k <= (dd + k) * square + 3 * os + k * (one * s)) by (nonlinear_arith)
        requires
            total == t1 + t2 + t3,
            t1 * k <= (dd + k) * square,
            t2 * k <= os,
            t3 * k <= 2 * os + k * (one * s),
    ;
    assert(os <= (2 * dd + 1) * square) by (nonlinear_arith)
        requires
            os == oo * square,
            oo <= 2 * dd + 1,
            square > 0,
    ;
    assert((dd + k) * square + 3 * ((2 * dd + 1) * square) == (7 * dd) * square + (k + 3) * square)
        by (nonlinear_arith);
    let half = s * square;
    assert(2 * ((k + 3) * square) <= half) by (nonlinear_arith)
        requires
            half == s * square,
            s >= 2 * (k + 3),
            square > 0,
    ;
    assert(2 * (k * (one * s)) <= half) by (nonlinear_arith)
        requires
            half == s * square,
            square == one * one,
            one >= 2 * k,
            s > 0,
            one > 0,
            k > 0,
    ;
    assert(total * k <= (7 * dd) * square + half);
    assert(ax * one * k <= (7 * dd) * square + half) by (nonlinear_arith)
        requires
            ax * one <= total,
            total * k <= (7 * dd) * square + half,
            k > 0,
    ;
    assert(ax * k <= one * (7 * dd + s)) by (nonlinear_arith)
        requires
            ax * one * k <= (7 * dd) * square + half,
            half == s * square,
            square == one * one,
            one > 0,
    ;
}

/// A level that is nearest to a computed position is nearest to the exact one, up
/// to the error of the position.
proof fn nearest_code(d: int, s: int, one: int, p: int, n: int, k: int)
    requires
        one > 0,
        s > 0,
        abs(p * s - d * one) * 0x40_0000 <= one * (7 * abs(d) + s),
        abs(p - n * one) <= abs(p - k * one),
    ensures
        abs(d - n * s) * 0x4_0000 <= abs(d - k * s) * 0x4_0000 + abs(d) + s,
{
    let c = 0x40_0000int;
    let dd = abs(d) as int;
    let x = p * s - d * one;
    let ax = abs(x) as int;
    let (u, v) = (p - n * one, p - k * one);
    let (au, av) = (abs(u) as int, abs(v) as int);
    let (y, z) = (d - n * s, d - k * s);
    let (ay, az) = (abs(y) as int, abs(z) as int);
    assert(y * one == u * s - x) by (nonlinear_arith)
        requires
            y == d - n * s,
            u == p - n * one,
            x == p * s - d * one,
    ;
    assert(v * s == z * one + x) by (nonlinear_arith)
        requires
            z == d - k * s,
            v == p - k * one,
            x == p * s - d * one,
    ;
    assert(ay * one <= au * s + ax) by (nonlinear_arith)
        requires
            y * one == u * s - x,
            ay == y || ay == -y,
            -au <= u <= au,
            -ax <= x <= ax,
            s > 0,
    ;
    assert(au * s <= av * s) by (nonlinear_arith)
        requires
            au <= av,
            s > 0,
    ;
    assert(av * s <= az * one + ax) by (nonlinear_arith)
        requires
            v * s == z * one + x,
            av == v || av == -v,
            -az <= z <= az,
            -ax <= x <= ax,
            one > 0,
    ;
    assert(ay * one <= az * one + 2 * ax);
    assert(one * (ay * c) <= one * (az * c + 14 * dd + 2 * s)) by (nonlinear_arith)
        requires
            ay * one <= az * one + 2 * ax,
            ax * c <= one * (7 * dd + s),
            c > 0,
    ;
    assert(ay * c <= az * c + 14 * dd + 2 * s) by (nonlinear_arith)
        requires
            one * (ay * c) <= one * (az * c + 14 * dd + 2 * s),
            one > 0,
    ;
}

/// The largest half-precision number.
proof fn largest_half()
    ensures
        scaled_magnitude(0x477f_e000) == 0xff_e000 * pow2(141),
{
    assert(exponent(0x477f_e000) == 142 && significand(0x477f_e000) == 0xff_e000);
}

/// A number that is not above the largest half is in the half-precision range.
proof fn in_half_range_by_value(b: u32)
    requires
        !is_nan(b),
        abs(scaled(b)) <= scaled_magnitude(0x477f_e000),
    ensures
        in_half_range(b),
{
    if magnitude(b) > 0x477f_e000 {
        scaled_magnitude_increases(0x477f_e000, b);
    }
}

/// A number in the half-precision range is not above the largest half.
proof fn value_in_half_range(b: u32)
    requires
        in_half_range(b),
    ensures
        abs(scaled(b)) <= scaled_magnitude(0x477f_e000),
{
    if magnitude(b) < 0x477f_e000 {
        scaled_magnitude_increases(b, 0x477f_e000);
    } else {
        assert(b % 0x80_0000 == 0x477f_e000u32 % 0x80_0000);
    }
}

/// The fifteenth of a range, through two roundings.
proof fn step_bounds(whole: int, range: int, step: int)
    requires
        whole > 0,
        range >= 0,
        step >= 0,
        abs(range - whole) * 0x40_0000 <= whole + 0x40_0000,
        abs(15 * step - range) * 0x40_0000 <= range + 15 * 0x40_0000,
    ensures
        range <= 2 * whole + 1,
        15 * step <= 3 * whole + 18,
        abs(15 * step - whole) * 0x20_0000 <= 2 * whole + 32 * 0x20_0000,
{
}

/// A scale near a step that is near a fifteenth of the range.
proof fn scale_bounds(whole: int, step: int, x: int, small: int)
    requires
        whole >= 15,
        step > 0,
        small >= 0x100_0000_0000,
        15 * step <= 3 * whole + 18,
        abs(15 * step - whole) * 0x20_0000 <= 2 * whole + 32 * 0x20_0000,
        abs(x - step) * 2048 <= step + small,
    ensures
        abs(15 * x - whole) * 1024 <= whole + 8 * small,
{
    assert(abs(15 * x - whole) <= 15 * abs(x - step) + abs(15 * step - whole));
}

/// A step of a group within the half-precision range is within that range.
proof fn step_in_half_range(low: u32, high: u32, step: u32)
    requires
        in_half_range(low),
        in_half_range(high),
        !is_nan(step),
        scaled(step) > 0,
        15 * scaled(step) <= 3 * (scaled(high) - scaled(low)) + 18,
    ensures
        in_half_range(step),
        step <= INFINITY,
{
    value_in_half_range(low);
    value_in_half_range(high);
    largest_half();
    lemma2_to64();
    lemma_pow2_strictly_increases(60, 141);
    in_half_range_by_value(step);
}

/// The computed range of a group.
proof fn range_is_near(low: u32, high: u32, range: u32)
    requires
        in_half_range(low),
        in_half_range(high),
        scaled(low) <= scaled(high),
        is_nearest(range, scaled(high) - scaled(low), 1),
    ensures
        is_finite(range),
        0 <= scaled(range) < pow2(276),
        scaled(low) == scaled(high) ==> scaled(range) == 0,
        abs(scaled(range) - (scaled(high) - scaled(low))) * 0x40_0000 <= (scaled(high) - scaled(
            low,
        )) + 0x40_0000,
{
    let whole = scaled(high) - scaled(low);
    half_range_bound(low);
    half_range_bound(high);
    lemma2_to64();
    lemma_pow2_adds(1, 165);
    lemma_pow2_adds(3, 165);
    lemma_pow2_strictly_increases(24, 165);
    lemma_pow2_strictly_increases(166, 277);
    lemma_pow2_strictly_increases(168, 276);
    if whole == 0 {
        scaled_zero(0);
        nearest_is_exact(range, 0, 1, 0);
    } else {
        nearest_is_near(range, whole, 1);
        assert(scaled(range) * 1 == scaled(range));
        finite_by_value(range);
    }
}

/// The computed fifteenth of a range.
proof fn step_is_near(range: u32, step: u32)
    requires
        0 <= scaled(range) < pow2(276),
        is_nearest(step, scaled(range) * scaled_one(), 15 * scaled_one() as int),
    ensures
        !is_nan(step),
        scaled(step) >= 0,
        scaled(range) == 0 ==> scaled(step) == 0,
        scaled(range) >= 8 ==> scaled(step) > 0,
        abs(15 * scaled(step) - scaled(range)) * 0x40_0000 <= scaled(range) + 15 * 0x40_0000,
{
    let one = scaled_one() as int;
    let (v, w) = (scaled(range), scaled(step));
    lemma_pow2_pos(149);
    lemma_pow2_strictly_increases(276, 277);
    let top = pow2(277) as int;
    assert(0 <= v * one < top * (15 * one)) by (nonlinear_arith)
        requires
            0 <= v < top,
            one > 0,
    ;
    nearest_is_near(step, v * one, 15 * one);
    let off = 15 * w - v;
    let product = off * one;
    assert(w * (15 * one) - v * one == product) by (nonlinear_arith)
        requires
            product == (15 * w - v) * one,
    ;
    let a = abs(off) as int;
    assert(abs(product) == a * one) by {
        if off >= 0 {
            assert(product >= 0) by (nonlinear_arith)
                requires
                    product == off * one,
                    off >= 0,
                    one > 0,
            ;
        } else {
            assert(product < 0 && (-off) * one == -product) by (nonlinear_arith)
                requires
                    product == off * one,
                    off < 0,
                    one > 0,
            ;
        }
    }
    assert(a * 0x40_0000 <= v + 15 * 0x40_0000) by (nonlinear_arith)
        requires
            (a * one) * 0x40_0000 <= v * one + 0x40_0000 * (15 * one),
            one > 0,
    ;
    reveal(is_nearest);
    values_of_patterns(1, 0, 0);
    values_of_patterns(1, 1, 0);
    let fifteen = 15 * one;
    assert(distance(w * fifteen, v * one) <= distance(scaled(0) * fifteen, v * one));
    assert(distance(w * fifteen, v * one) <= distance(scaled(1) * fifteen, v * one));
    assert(0 * fifteen == 0 && 1 * fifteen == fifteen);
    assert(w >= 0) by (nonlinear_arith)
        requires
            v * one - w * fifteen <= v * one,
            fifteen > 0,
    ;
    if v == 0 {
        assert(v * one == 0) by (nonlinear_arith)
            requires
                v == 0,
        ;
        assert(w <= 0) by (nonlinear_arith)
            requires
                w * fifteen <= 0,
                fifteen > 0,
        ;
    }
    if v >= 8 && w == 0 {
        assert(w * fifteen == 0);
        assert(v * one >= 8 * one) by (nonlinear_arith)
            requires
                v >= 8,
                one > 0,
        ;
    }
}

impl<
    Sub: Fn(u32, u32) -> u32,
    Mul: Fn(u32, u32) -> u32,
    Div: Fn(u32, u32) -> u32,
    Narrow: Fn(u32) -> u16,
    Widen: Fn(u16) -> u32,
> FloatUnit<Sub, Mul, Div, Narrow, Widen> {
    /// Narrowing a number of the half-precision range gives a nearest half, which
    /// is off by one part in 2048, or by two to the power of minus 25 where numbers
    /// are small. Widening a half gives a half-precision number.
    #[verifier::opaque]
    pub open spec fn narrow_is_nearest(&self) -> bool {
        &&& forall|a: u32, h: u16, x: u32| #[trigger]
            call_ensures(self.narrow, (a,), h) && #[trigger] call_ensures(self.widen, (h,), x)
                && in_half_range(a) ==> is_finite(x) && abs(scaled(x) - scaled(a)) * 2048 <= abs(
                scaled(a),
            ) + pow2(135)
        &&& forall|a: u32, h: u16, x: u32, k: u16, z: u32| #[trigger]
            call_ensures(self.narrow, (a,), h) && #[trigger] call_ensures(self.widen, (h,), x)
                && #[trigger] call_ensures(self.widen, (k,), z) && in_half_range(a) && is_finite(z)
                ==> abs(scaled(x) - scaled(a)) <= abs(scaled(z) - scaled(a))
        &&& forall|h: u16, x: u32| #[trigger]
            call_ensures(self.widen, (h,), x) && is_finite(x) ==> is_half(x)
    }

    proof fn narrowed(&self, a: u32, h: u16, x: u32)
        requires
            self.narrow_is_nearest(),
            call_ensures(self.narrow, (a,), h),
            call_ensures(self.widen, (h,), x),
            in_half_range(a),
        ensures
            is_finite(x),
            is_half(x),
            abs(scaled(x) - scaled(a)) * 2048 <= abs(scaled(a)) + pow2(135),
            forall|k: u16, z: u32| #[trigger]
                call_ensures(self.widen, (k,), z) && is_finite(z) ==> abs(scaled(x) - scaled(a))
                    <= abs(scaled(z) - scaled(a)),
    {
        reveal(FloatUnit::narrow_is_nearest);
    }

    /// What the least and the greatest number of a group are worth, and what is
    /// computed from them.
    proof fn group_values(
        &self,
        weights: Seq<u32>,
        q: Quantized,
        g: int,
        lo: int,
        hi: int,
    ) -> (r: (u32, u32, u32, u32))
        requires
            self.quantizes(weights, q),
            weights.len() % 64 == 0,
            0 <= g < weights.len() as int / 64,
            forall|i: int|
                64 * g <= i < 64 * g + 64 ==> in_half_range(#[trigger] weights[i]) && scaled(
                    weights[lo],
                ) <= scaled(weights[i]) <= scaled(weights[hi]),
            64 * g <= lo < 64 * g + 64,
            64 * g <= hi < 64 * g + 64,
        ensures
            ({
                let (low, high, range, step) = r;
                &&& in_half_range(low) && scaled(low) == scaled(weights[lo])
                &&& in_half_range(high) && scaled(high) == scaled(weights[hi])
                &&& call_ensures(self.narrow, (low,), q.biases@[g])
                &&& call_ensures(self.sub, (high, low), range)
                &&& call_ensures(self.div, (range, FIFTEEN), step)
                &&& !is_nan(step) && scaled(step) == 0 ==> call_ensures(
                    self.narrow,
                    (ONE,),
                    q.scales@[g],
                )
                &&& is_nan(step) || scaled(step) != 0 ==> call_ensures(
                    self.narrow,
                    (step,),
                    q.scales@[g],
                )
            }),
    {
        let r = self.stored_scale_and_bias(weights, q, g);
        let (low, high, range, step) = r;
        let x = weights[lo];
        let y = weights[hi];
        scaled_magnitude_increases(x, INFINITY);
        scaled_magnitude_increases(y, 0xff80_0000);
        assert(scaled(x) < scaled(INFINITY));
        assert(scaled(0xff80_0000) < scaled(y));
        assert(low != 0x7f80_0000);
        assert(high != 0xff80_0000);
        let i = choose|i: int| 64 * g <= i < 64 * g + 64 && #[trigger] weights[i] == low;
        let j = choose|j: int| 64 * g <= j < 64 * g + 64 && #[trigger] weights[j] == high;
        assert(scaled(weights[lo]) <= scaled(weights[i]));
        assert(scaled(weights[j]) <= scaled(weights[hi]));
        r
    }

    /// The scale that is stored for a group with given extremes.
    proof fn scale_of_extremes(&self, low: u32, high: u32, range: u32, step: u32, h: u16, s: u32)
        requires
            self.rounds_to_nearest(),
            self.narrow_is_nearest(),
            self.halving_keeps_sign(),
            in_half_range(low),
            in_half_range(high),
            scaled(low) <= scaled(high),
            call_ensures(self.sub, (high, low), range),
            call_ensures(self.div, (range, FIFTEEN), step),
            !is_nan(step) && scaled(step) == 0 ==> call_ensures(self.narrow, (ONE,), h),
            is_nan(step) || scaled(step) != 0 ==> call_ensures(self.narrow, (step,), h),
            call_ensures(self.widen, (h,), s),
        ensures
            is_finite(s),
            is_half(s),
            scaled(s) >= 0,
            scaled(low) == scaled(high) ==> abs(scaled(s) - pow2(149)) * 2048 <= pow2(149) + pow2(
                135,
            ),
            scaled(low) == scaled(high) ==> forall|k: u16, z: u32| #[trigger]
                call_ensures(self.widen, (k,), z) && is_finite(z) ==> abs(scaled(s) - pow2(149))
                    <= abs(scaled(z) - pow2(149)),
            scaled(high) - scaled(low) >= 15 ==> abs(
                15 * scaled(s) - (scaled(high) - scaled(low)),
            ) * 1024 <= (scaled(high) - scaled(low)) + pow2(138),
    {
        let whole = scaled(high) - scaled(low);
        scaled_of_constants();
        lemma_pow2_pos(149);
        self.sub_is_nearest(high, low, range);
        range_is_near(low, high, range);
        self.div_is_nearest(range, FIFTEEN, step);
        step_is_near(range, step);
        let (v, w) = (scaled(range), scaled(step));
        if whole > 0 {
            step_bounds(whole, v, w);
        }
        let stored = if w == 0 {
            ONE
        } else {
            step
        };
        if w != 0 {
            step_in_half_range(low, high, step);
        }
        assert(call_ensures(self.narrow, (stored,), h));
        self.narrowed(stored, h, s);
        assert(scaled(s) >= 0) by {
            reveal(FloatUnit::halving_keeps_sign);
        }
        if whole >= 15 {
            lemma2_to64();
            lemma_pow2_adds(3, 135);
            lemma_pow2_strictly_increases(64, 135);
            scale_bounds(whole, w, scaled(s), pow2(135) as int);
        }
    }

    /// The stored bias is a half nearest to the least weight of its group, and
    /// within half-precision rounding of it, whether or not that weight is itself
    /// a half.
    pub proof fn bias_is_near_least(
        &self,
        weights: Seq<u32>,
        q: Quantized,
        g: int,
        lo: int,
        b: u32,
    )
        requires
            self.narrow_is_nearest(),
            self.quantizes(weights, q),
            weights.len() % 64 == 0,
            0 <= g < weights.len() as int / 64,
            64 * g <= lo < 64 * g + 64,
            forall|i: int|
                64 * g <= i < 64 * g + 64 ==> in_half_range(#[trigger] weights[i]) && scaled(
                    weights[lo],
                ) <= scaled(weights[i]),
            call_ensures(self.widen, (q.biases@[g],), b),
        ensures
            is_finite(b),
            abs(scaled(b) - scaled(weights[lo])) * 2048 <= abs(scaled(weights[lo])) + pow2(135),
            forall|k: u16, z: u32| #[trigger]
                call_ensures(self.widen, (k,), z) && is_finite(z) ==> abs(
                    scaled(b) - scaled(weights[lo]),
                ) <= abs(scaled(z) - scaled(weights[lo])),
    {
        let (low, high, range, step) = self.stored_scale_and_bias(weights, q, g);
        let x = weights[lo];
        scaled_magnitude_increases(x, INFINITY);
        assert(scaled(x) < scaled(INFINITY));
        assert(low != 0x7f80_0000);
        let i = choose|i: int| 64 * g <= i < 64 * g + 64 && #[trigger] weights[i] == low;
        assert(scaled(weights[lo]) <= scaled(weights[i]));
        self.narrowed(low, q.biases@[g], b);
    }

    /// The stored scale is within half-precision rounding of a fifteenth of the
    /// range of its group. A group of equal weights has a half nearest to one. It
    /// is never negative.
    pub proof fn scale_is_near_fifteenth(
        &self,
        weights: Seq<u32>,
        q: Quantized,
        g: int,
        lo: int,
        hi: int,
        s: u32,
    )
        requires
            self.rounds_to_nearest(),
            self.narrow_is_nearest(),
            self.halving_keeps_sign(),
            self.quantizes(weights, q),
            weights.len() % 64 == 0,
            0 <= g < weights.len() as int / 64,
            64 * g <= lo < 64 * g + 64,
            64 * g <= hi < 64 * g + 64,
            forall|i: int|
                64 * g <= i < 64 * g + 64 ==> in_half_range(#[trigger] weights[i]) && scaled(
                    weights[lo],
                ) <= scaled(weights[i]) <= scaled(weights[hi]),
            call_ensures(self.widen, (q.scales@[g],), s),
        ensures
            is_finite(s),
            is_half(s),
            scaled(s) >= 0,
            ({
                let whole = scaled(weights[hi]) - scaled(weights[lo]);
                &&& whole == 0 ==> abs(scaled(s) - pow2(149)) * 2048 <= pow2(149) + pow2(135)
                &&& whole == 0 ==> forall|k: u16, z: u32| #[trigger]
                    call_ensures(self.widen, (k,), z) && is_finite(z) ==> abs(
                        scaled(s) - pow2(149),
                    ) <= abs(scaled(z) - pow2(149))
                &&& whole >= 15 ==> abs(15 * scaled(s) - whole) * 1024 <= whole + pow2(138)
            }),
    {
        let (low, high, range, step) = self.group_values(weights, q, g, lo, hi);
        assert(scaled(weights[lo]) <= scaled(weights[hi]));
        self.scale_of_extremes(low, high, range, step, q.scales@[g], s);
    }

    /// A stored level is a best one: with the scale and the bias that are stored,
    /// no other code comes closer to the weight, but for single-precision
    /// rounding.
    pub proof fn level_is_best_code(
        &self,
        weights: Seq<u32>,
        q: Quantized,
        i: int,
        s: u32,
        b: u32,
        k: int,
    )
        requires
            self.single_valued(),
            self.rounds_to_nearest(),
            self.narrow_is_nearest(),
            self.quantizes(weights, q),
            weights.len() % 64 == 0,
            0 <= i < weights.len(),
            in_half_range(weights[i]),
            call_ensures(self.widen, (q.scales@[i / 64],), s),
            call_ensures(self.widen, (q.biases@[i / 64],), b),
            is_finite(s),
            is_finite(b),
            scaled(s) > 0,
            0 <= k <= 15,
        ensures
            ({
                let n = ((q.packed_words@[i / 8] >> ((4 * (i % 8)) as u32)) & 0xf) as int;
                let d = scaled(weights[i]) - scaled(b);
                abs(d - n * scaled(s)) * 0x4_0000 <= abs(d - k * scaled(s)) * 0x4_0000 + abs(d)
                    + scaled(s)
            }),
    {
        let (scale, bias, inverse, offset, position) = self.stored_level(weights, q, i);
        assert(scale == s && bias == b);
        let n = (q.packed_words@[i / 8] >> ((4 * (i % 8)) as u32)) & 0xf;
        let one = scaled_one() as int;
        let (x, v) = (weights[i], scaled(s));
        let d = scaled(x) - scaled(b);
        assert(is_half(s) && is_half(b)) by {
            reveal(FloatUnit::narrow_is_nearest);
        }
        half_bounds(s);
        half_range_bound(x);
        half_range_bound(b);
        lemma2_to64();
        lemma_pow2_pos(149);
        scaled_of_constants();
        lemma_pow2_adds(1, 165);
        lemma_pow2_strictly_increases(166, 277);
        lemma_pow2_strictly_increases(24, 149);
        lemma_pow2_strictly_increases(24, 125);

        self.sub_is_nearest(x, b, offset);
        nearest_is_near(offset, d, 1);
        let off = scaled(offset);
        assert(off * 1 == off);
        assert(abs(off) <= pow2(168)) by {
            lemma_pow2_adds(3, 165);
        }
        lemma_pow2_strictly_increases(168, 276);
        finite_by_value(offset);

        self.div_is_nearest(ONE, s, inverse);
        inverse_is_close(s, inverse);
        let inv = scaled(inverse);

        self.mul_is_nearest(offset, inverse, position);
        let top = pow2(277) as int;
        assert(abs(off * inv) < top * one) by {
            lemma_pow2_adds(168, 174);
            lemma_pow2_adds(277, 149);
            lemma_pow2_strictly_increases(342, 426);
            let (m, c) = (pow2(168) as int, pow2(174) as int);
            assert(-(m * c) <= off * inv <= m * c) by (nonlinear_arith)
                requires
                    -m <= off <= m,
                    0 < inv < c,
            ;
        }
        nearest_is_near(position, off * inv, one);
        let p = scaled(position);
        position_error(d, off, inv, v, one, p);

        level_covers_its_half_open_step(position, n);
        assert(level(position) == n);
        level_is_nearest(position, k as u32);
        nearest_code(d, v, one, p, n as int, k);
    }

    /// Weights come back: what a reader makes of the stored bias, the stored scale
    /// and a level is at most half a scale from the weight, and further only by as
    /// much as the stored bias misses the least weight and fifteen stored scales
    /// miss the range, and by single-precision rounding.
    pub proof fn weights_come_back(
        &self,
        weights: Seq<u32>,
        q: Quantized,
        i: int,
        lo: int,
        hi: int,
        s: u32,
        b: u32,
    )
        requires
            self.single_valued(),
            self.rounds_to_nearest(),
            self.narrow_is_nearest(),
            self.halving_keeps_sign(),
            self.quantizes(weights, q),
            weights.len() % 64 == 0,
            0 <= i < weights.len(),
            i / 64 == lo / 64,
            i / 64 == hi / 64,
            0 <= lo,
            0 <= hi,
            forall|j: int|
                i / 64 == j / 64 ==> in_half_range(#[trigger] weights[j]) && scaled(weights[lo])
                    <= scaled(weights[j]) <= scaled(weights[hi]),
            call_ensures(self.widen, (q.scales@[i / 64],), s),
            call_ensures(self.widen, (q.biases@[i / 64],), b),
        ensures
            ({
                let n = ((q.packed_words@[i / 8] >> ((4 * (i % 8)) as u32)) & 0xf) as int;
                let (least, whole) = (
                    scaled(weights[lo]),
                    scaled(weights[hi]) - scaled(weights[lo]),
                );
                let error = abs(scaled(weights[i]) - (scaled(b) + scaled(s) * n));
                let missed = abs(scaled(b) - least) + abs(15 * scaled(s) - whole);
                &&& error * 0x8_0000 <= 0x4_0000 * scaled(s) + 0x8_0000 * missed + 2 * (abs(
                    scaled(weights[i]) - scaled(b),
                ) + scaled(s))
                &&& whole >= 15 ==> error * 2048 <= 1025 * scaled(s) + 2 * abs(least) + 3 * whole
                    + pow2(140)
            }),
    {
        let g = i / 64;
        let n = ((q.packed_words@[i / 8] >> ((4 * (i % 8)) as u32)) & 0xf) as int;
        let (least, whole) = (scaled(weights[lo]), scaled(weights[hi]) - scaled(weights[lo]));
        let x = scaled(weights[i]);
        let (v, c) = (scaled(s), scaled(b));
        let d = x - c;
        assert forall|j: int| 64 * g <= j < 64 * g + 64 implies in_half_range(
            #[trigger] weights[j],
        ) && scaled(weights[lo]) <= scaled(weights[j]) <= scaled(weights[hi]) by {
            assert(i / 64 == j / 64);
        }
        self.bias_is_near_least(weights, q, g, lo, b);
        self.scale_is_near_fifteenth(weights, q, g, lo, hi, s);
        assert(least <= x <= least + whole);
        let error = abs(x - (c + v * n)) as int;
        let missed = (abs(c - least) + abs(15 * v - whole)) as int;
        assert(v * n == n * v) by (nonlinear_arith);
        if v == 0 {
            assert(v * n == 0) by (nonlinear_arith)
                requires
                    v == 0,
            ;
        } else {
            let k: int = if d < 0 {
                0
            } else if d > 15 * v {
                15
            } else {
                nearest_multiple(d, v)
            };
            self.level_is_best_code(weights, q, i, s, b, k);
            assert(2 * abs(d - k * v) <= v + 2 * missed) by {
                if d < 0 {
                    assert(0 * v == 0);
                }
            }
        }
        if whole >= 15 {
            lemma2_to64();
            lemma_pow2_adds(3, 135);
            lemma_pow2_adds(5, 135);
        }
    }
}

/// The multiple of `v` that is nearest to `d`.
proof fn nearest_multiple(d: int, v: int) -> (k: int)
    requires
        v > 0,
        0 <= d <= 15 * v,
    ensures
        0 <= k <= 15,
        2 * abs(d - k * v) <= v,
{
    let q = d / v;
    let rest = d % v;
    lemma_fundamental_div_mod(d, v);
    assert(v * q == q * v && (q + 1) * v == q * v + v) by (nonlinear_arith);
    assert(0 <= q <= 15) by (nonlinear_arith)
        requires
            d == v * q + rest,
            0 <= rest < v,
            0 <= d <= 15 * v,
            v > 0,
    ;
    if 2 * rest <= v {
        q
    } else {
        assert(q <= 14) by (nonlinear_arith)
            requires
                d == v * q + rest,
                2 * rest > v,
                d <= 15 * v,
                v > 0,
        ;
        q + 1
    }
}

} // verus!
