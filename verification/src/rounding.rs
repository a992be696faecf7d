//! What holds of quantisation where the arithmetic behaves as single-precision
//! arithmetic does: levels keep the order of the weights, and quantising undoes
//! an exact dequantisation.

use crate::quantize::{
    lane, max_is_greatest, max_of, min_is_least, min_of, nonzero_scale, pack,
    FloatUnit, GroupTrace, Quantized,
};
use crate::single::{
    distance, exponent, is_finite, is_half, is_nan, level, level_increases, level_of_close,
    less, magnitude, multiple_of_half, pattern_below, scaled, scaled_magnitude,
    scaled_magnitude_increases, scaled_of_constants, scaled_one, scaled_zero, significand, FIFTEEN,
    INFINITY, MAX_LEVEL, ONE,
};
use vstd::arithmetic::div_mod::lemma_fundamental_div_mod;
use vstd::arithmetic::power2::{
    lemma2_to64, lemma_pow2_adds, lemma_pow2_pos, lemma_pow2_strictly_increases, pow2,
};
use vstd::prelude::*;

verus! {

/// Both are numbers, and the first is not above the second.
pub open spec fn at_most(a: u32, b: u32) -> bool {
    !is_nan(a) && !is_nan(b) && scaled(a) <= scaled(b)
}

/// A finite number of a group lies between the least and the greatest one, which
/// are finite too.
proof fn extremes_of_finite(group: Seq<u32>, k: int)
    requires
        forall|i: int| 0 <= i < group.len() ==> is_finite(#[trigger] group[i]),
        0 <= k < group.len(),
    ensures
        group.contains(min_of(group)),
        group.contains(max_of(group)),
        is_finite(min_of(group)),
        is_finite(max_of(group)),
        scaled(min_of(group)) <= scaled(group[k]) <= scaled(max_of(group)),
{
    min_is_least(group);
    max_is_greatest(group);
    let x = group[k];
    scaled_magnitude_increases(x, INFINITY);
    scaled_magnitude_increases(x, 0xff80_0000);
    assert(!less(x, min_of(group)));
    assert(!less(max_of(group), x));
    assert(scaled_magnitude(INFINITY) > scaled_magnitude(x));
    assert(scaled(INFINITY) > scaled(x));
    assert(scaled(0xff80_0000) < scaled(x));
    assert(group.contains(min_of(group)));
    assert(group.contains(max_of(group)));
}

impl<
    Sub: Fn(u32, u32) -> u32,
    Mul: Fn(u32, u32) -> u32,
    Div: Fn(u32, u32) -> u32,
    Narrow: Fn(u32) -> u16,
    Widen: Fn(u16) -> u32,
> FloatUnit<Sub, Mul, Div, Narrow, Widen> {
    /// Subtraction keeps the order of finite numbers, and their difference has
    /// the sign that it should.
    #[verifier::opaque]
    pub open spec fn sub_keeps_order(&self) -> bool {
        &&& forall|a: u32, b: u32, c: u32, r: u32, s: u32| #[trigger]
            call_ensures(self.sub, (a, c), r) && #[trigger] call_ensures(self.sub, (b, c), s)
                && is_finite(a) && is_finite(b) && !is_nan(c) && scaled(a) <= scaled(b) ==> at_most(
                r,
                s,
            )
        &&& forall|a: u32, b: u32, r: u32| #[trigger]
            call_ensures(self.sub, (a, b), r) && is_finite(a) && is_finite(b) && scaled(b)
                <= scaled(a) ==> !is_nan(r) && scaled(r) >= 0
    }

    /// Multiplication by a number without a sign keeps order. Only zero times
    /// infinity is no number; what is not positive, or is multiplied by zero,
    /// does not become positive.
    #[verifier::opaque]
    pub open spec fn mul_keeps_order(&self) -> bool {
        &&& forall|a: u32, b: u32, c: u32, r: u32, s: u32| #[trigger]
            call_ensures(self.mul, (a, c), r) && #[trigger] call_ensures(self.mul, (b, c), s)
                && at_most(a, b) && c <= INFINITY && !is_nan(r) && !is_nan(s) ==> scaled(r)
                <= scaled(s)
        &&& forall|a: u32, c: u32, r: u32| #[trigger]
            call_ensures(self.mul, (a, c), r) && !is_nan(a) && c <= INFINITY && is_nan(r)
                ==> scaled(a) == 0 || c == 0
        &&& forall|a: u32, c: u32, r: u32| #[trigger]
            call_ensures(self.mul, (a, c), r) && !is_nan(a) && c <= INFINITY && (scaled(a) <= 0
                || c == 0) ==> is_nan(r) || scaled(r) <= 0
    }

    /// A fifteenth of a number that is not negative is not negative, and one over
    /// a number without a sign has no sign.
    #[verifier::opaque]
    pub open spec fn div_keeps_sign(&self) -> bool {
        &&& forall|a: u32, r: u32| #[trigger]
            call_ensures(self.div, (a, FIFTEEN), r) && !is_nan(a) && scaled(a) >= 0 ==> !is_nan(r)
                && scaled(r) >= 0
        &&& forall|a: u32, r: u32| #[trigger]
            call_ensures(self.div, (ONE, a), r) && a <= INFINITY ==> r <= INFINITY
    }

    /// A number stays a number on its way through half precision, and gets no
    /// sign there.
    #[verifier::opaque]
    pub open spec fn halving_keeps_sign(&self) -> bool {
        forall|a: u32, h: u16, x: u32| #[trigger]
            call_ensures(self.narrow, (a,), h) && #[trigger] call_ensures(self.widen, (h,), x)
                && !is_nan(a) ==> !is_nan(x) && (a <= INFINITY ==> x <= INFINITY)
    }

    /// The arithmetic keeps the order and the signs of numbers.
    pub open spec fn keeps_order(&self) -> bool {
        &&& self.sub_keeps_order()
        &&& self.mul_keeps_order()
        &&& self.div_keeps_sign()
        &&& self.halving_keeps_sign()
    }

    /// What a group of finite weights is divided by has no sign.
    proof fn inverse_has_no_sign(&self, group: Seq<u32>, t: GroupTrace)
        requires
            self.keeps_order(),
            self.traces(group, t),
            group.len() > 0,
            forall|i: int| 0 <= i < group.len() ==> is_finite(#[trigger] group[i]),
        ensures
            t.inverse <= INFINITY,
            !is_nan(t.bias),
    {
        extremes_of_finite(group, 0);
        let (low, high) = (min_of(group), max_of(group));
        let nonzero = nonzero_scale(t.step);
        assert(!is_nan(t.range) && scaled(t.range) >= 0) by {
            reveal(FloatUnit::sub_keeps_order);
            assert(call_ensures(self.sub, (high, low), t.range));
        }
        assert(!is_nan(t.step) && scaled(t.step) >= 0) by {
            reveal(FloatUnit::div_keeps_sign);
            assert(call_ensures(self.div, (t.range, FIFTEEN), t.step));
        }
        assert(t.scale <= INFINITY && !is_nan(t.bias)) by {
            reveal(FloatUnit::halving_keeps_sign);
            assert(call_ensures(self.narrow, (nonzero,), t.scale_half));
            assert(call_ensures(self.widen, (t.scale_half,), t.scale));
            assert(call_ensures(self.narrow, (low,), t.bias_half));
            assert(call_ensures(self.widen, (t.bias_half,), t.bias));
        }
        assert(t.inverse <= INFINITY) by {
            reveal(FloatUnit::div_keeps_sign);
            assert(call_ensures(self.div, (ONE, t.scale), t.inverse));
        }
    }

    /// Products with a number without a sign have levels in the order of the
    /// factors.
    proof fn products_keep_order(&self, a: u32, b: u32, c: u32, r: u32, s: u32)
        requires
            self.mul_keeps_order(),
            call_ensures(self.mul, (a, c), r),
            call_ensures(self.mul, (b, c), s),
            at_most(a, b),
            c <= INFINITY,
        ensures
            level(r) <= level(s),
    {
        reveal(FloatUnit::mul_keeps_order);
        if !is_nan(r) {
            if !is_nan(s) {
                level_increases(r, s);
            } else {
                scaled_zero(0);
                level_increases(r, 0);
                level_of_zero();
            }
        }
    }

    /// The levels of a group of finite weights keep their order.
    proof fn steps_keep_order(&self, group: Seq<u32>, t: GroupTrace, x: int, y: int)
        requires
            self.keeps_order(),
            self.traces(group, t),
            forall|i: int| 0 <= i < group.len() ==> is_finite(#[trigger] group[i]),
            0 <= x < group.len(),
            0 <= y < group.len(),
            scaled(group[x]) <= scaled(group[y]),
        ensures
            level(t.steps[x]) <= level(t.steps[y]),
    {
        self.inverse_has_no_sign(group, t);
        let (a, b) = (t.offsets[x], t.offsets[y]);
        assert(call_ensures(self.sub, (group[x], t.bias), a));
        assert(call_ensures(self.sub, (group[y], t.bias), b));
        assert(at_most(a, b)) by {
            reveal(FloatUnit::sub_keeps_order);
        }
        self.products_keep_order(a, b, t.inverse, t.steps[x], t.steps[y]);
    }

    /// Within a group, levels keep the order of the weights: a larger weight has
    /// no smaller level.
    pub proof fn levels_keep_order(&self, weights: Seq<u32>, q: Quantized, i: int, j: int)
        requires
            self.keeps_order(),
            self.quantizes(weights, q),
            weights.len() % 64 == 0,
            0 <= i < weights.len(),
            0 <= j < weights.len(),
            i / 64 == j / 64,
            forall|k: int| 0 <= k < weights.len() ==> is_finite(#[trigger] weights[k]),
            scaled(weights[i]) <= scaled(weights[j]),
        ensures
            lane(q.packed_words@[i / 8], (i % 8) as nat) <= lane(
                q.packed_words@[j / 8],
                (j % 8) as nat,
            ),
    {
        let g = i / 64;
        let group = weights.subrange(64 * g, 64 * g + 64);
        let words = q.packed_words@.subrange(8 * g, 8 * g + 8);
        assert(self.quantizes_group(group, q.scales@[g], q.biases@[g], words));
        let t = choose|t: GroupTrace| #[trigger]
            self.traces(group, t) && t.scale_half == q.scales@[g] && t.bias_half == q.biases@[g]
                && words == pack(t.steps.map_values(|s: u32| level(s)));
        self.lanes_of_trace(weights, q, t, i);
        self.lanes_of_trace(weights, q, t, j);
        assert forall|k: int| 0 <= k < group.len() implies is_finite(#[trigger] group[k]) by {
            assert(group[k] == weights[64 * g + k]);
        }
        assert(group[i % 64] == weights[i] && group[j % 64] == weights[j]);
        self.steps_keep_order(group, t, i % 64, j % 64);
    }
}

proof fn level_of_zero()
    ensures
        level(0) == 0,
{
    scaled_zero(0);
    lemma_pow2_pos(149);
    level_of_close(0, 0);
}

/// No number is closer than `r` to `num / den`, in units of two to the power of
/// minus 149. Infinity counts as the number that would follow the largest finite
/// one.
#[verifier::opaque]
pub open spec fn is_nearest(r: u32, num: int, den: int) -> bool {
    &&& !is_nan(r)
    &&& forall|x: u32|
        !is_nan(x) ==> distance(scaled(r) * den, num) <= distance(#[trigger] scaled(x) * den, num)
}

impl<
    Sub: Fn(u32, u32) -> u32,
    Mul: Fn(u32, u32) -> u32,
    Div: Fn(u32, u32) -> u32,
    Narrow: Fn(u32) -> u16,
    Widen: Fn(u16) -> u32,
> FloatUnit<Sub, Mul, Div, Narrow, Widen> {
    /// On finite numbers, each operation gives a number nearest to the exact
    /// result. Nothing is said of division but by a positive number.
    #[verifier::opaque]
    pub open spec fn rounds_to_nearest(&self) -> bool {
        &&& forall|a: u32, b: u32, r: u32| #[trigger]
            call_ensures(self.sub, (a, b), r) && is_finite(a) && is_finite(b) ==> is_nearest(
                r,
                scaled(a) - scaled(b),
                1,
            )
        &&& forall|a: u32, b: u32, r: u32| #[trigger]
            call_ensures(self.mul, (a, b), r) && is_finite(a) && is_finite(b) ==> is_nearest(
                r,
                scaled(a) * scaled(b),
                scaled_one() as int,
            )
        &&& forall|a: u32, b: u32, r: u32| #[trigger]
            call_ensures(self.div, (a, b), r) && is_finite(a) && is_finite(b) && scaled(b) > 0
                ==> is_nearest(r, scaled(a) * scaled_one(), scaled(b))
    }

    /// Widening a finite half gives a half-precision number, and narrowing that
    /// number gives the half back. Of zero only the value comes back, since there
    /// are two of them.
    #[verifier::opaque]
    pub open spec fn narrow_undoes_widen(&self) -> bool {
        &&& forall|h: u16, x: u32| #[trigger]
            call_ensures(self.widen, (h,), x) && is_finite(x) ==> is_half(x)
        &&& forall|h: u16, x: u32, y: u32, k: u16| #[trigger]
            call_ensures(self.widen, (h,), x) && #[trigger] call_ensures(self.narrow, (y,), k)
                && is_finite(x) && is_finite(y) && scaled(y) == scaled(x) && scaled(x) != 0 ==> k
                == h
        &&& forall|h: u16, x: u32, y: u32, k: u16, z: u32| #[trigger]
            call_ensures(self.widen, (h,), x) && #[trigger] call_ensures(self.narrow, (y,), k)
                && #[trigger] call_ensures(self.widen, (k,), z) && is_finite(x) && is_finite(y)
                && scaled(y) == scaled(x) ==> is_finite(z) && scaled(z) == scaled(x)
    }
}

/// A number that is not above a finite one in absolute value is finite.
pub(crate) proof fn finite_below(x: u32, y: u32)
    requires
        !is_nan(x),
        is_finite(y),
        scaled_magnitude(x) <= scaled_magnitude(y),
    ensures
        is_finite(x),
{
    if magnitude(x) >= INFINITY {
        scaled_magnitude_increases(y, x);
    }
}

/// Where the exact result is a number, the nearest number is that one.
pub(crate) proof fn nearest_is_exact(r: u32, num: int, den: int, x: u32)
    requires
        is_nearest(r, num, den),
        den > 0,
        is_finite(x),
        scaled(x) * den == num,
    ensures
        is_finite(r),
        scaled(r) == scaled(x),
{
    reveal(is_nearest);
    let (a, b) = (scaled(r), scaled(x));
    assert(distance(a * den, num) <= distance(b * den, num));
    assert(a == b) by (nonlinear_arith)
        requires
            a * den == b * den,
            den > 0,
    ;
    finite_below(r, x);
}

/// In the normal range, the nearest number is close to the exact result.
proof fn nearest_is_close(r: u32, num: int, den: int)
    requires
        is_nearest(r, num, den),
        den > 0,
        0x80_0000 * den <= num,
        num < pow2(277) * den,
    ensures
        !is_nan(r),
        distance(scaled(r) * den, num) * 0x40_0000 <= num,
{
    reveal(is_nearest);
    let v = num / den;
    let rest = num % den;
    lemma_fundamental_div_mod(num, den);
    let top = pow2(277) as int;
    assert(0x80_0000 <= v) by (nonlinear_arith)
        requires
            num == den * v + rest,
            0 <= rest < den,
            0x80_0000 * den <= num,
    ;
    assert(v < top) by (nonlinear_arith)
        requires
            num == den * v + rest,
            0 <= rest < den,
            num < top * den,
    ;
    let x = pattern_below(v as nat);
    let b = scaled(x);
    let gap = v - b;
    assert(distance(scaled(r) * den, num) <= distance(b * den, num));
    assert(num - b * den == gap * den + rest) by (nonlinear_arith)
        requires
            num == den * v + rest,
            gap == v - b,
    ;
    assert(gap * den >= 0) by (nonlinear_arith)
        requires
            gap >= 0,
            den > 0,
    ;
    assert((gap * den) * 0x80_0000 <= v * den) by (nonlinear_arith)
        requires
            gap * 0x80_0000 <= v,
            den > 0,
    ;
    assert(v * den == den * v) by (nonlinear_arith);
}

/// A positive half-precision number lies between two powers of two.
pub(crate) proof fn half_bounds(s: u32)
    requires
        is_half(s),
        scaled(s) > 0,
    ensures
        pow2(125) <= scaled(s) < pow2(165),
{
    scaled_zero(s);
    lemma2_to64();
    lemma_pow2_adds(23, 102);
    lemma_pow2_adds(23, 142);
    assert(scaled_magnitude(0x3380_0000) == pow2(125)) by {
        assert(exponent(0x3380_0000) == 103 && significand(0x3380_0000) == 0x80_0000);
    }
    assert(scaled_magnitude(0x4780_0000) == pow2(165)) by {
        assert(exponent(0x4780_0000) == 143 && significand(0x4780_0000) == 0x80_0000);
    }
    if s != 0x3380_0000 {
        scaled_magnitude_increases(0x3380_0000, s);
    }
    scaled_magnitude_increases(s, 0x4780_0000);
}

/// The nearest number to one over a positive half-precision number is finite,
/// positive and close.
pub(crate) proof fn inverse_is_close(s: u32, r: u32)
    requires
        is_half(s),
        scaled(s) > 0,
        is_nearest(r, (scaled_one() * scaled_one()) as int, scaled(s)),
    ensures
        is_finite(r),
        0 < scaled(r) < pow2(174),
        distance(scaled(r) * scaled(s), (scaled_one() * scaled_one()) as int) * 0x40_0000
            <= scaled_one() * scaled_one(),
{
    let one = scaled_one() as int;
    let square = one * one;
    let den = scaled(s);
    half_bounds(s);
    lemma2_to64();
    lemma_pow2_adds(149, 149);
    assert(0x80_0000 * den <= square) by {
        lemma_pow2_adds(23, 165);
        lemma_pow2_strictly_increases(188, 298);
    }
    let top = pow2(277) as int;
    assert(square < top * den) by {
        lemma_pow2_adds(277, 125);
        lemma_pow2_strictly_increases(298, 402);
        assert(top * den >= top * pow2(125)) by (nonlinear_arith)
            requires
                den >= pow2(125),
                top >= 0,
        ;
    }
    nearest_is_close(r, square, den);
    let v = scaled(r);
    lemma_pow2_pos(298);
    assert(v * den > 0);
    assert(v > 0) by (nonlinear_arith)
        requires
            v * den > 0,
            den > 0,
    ;
    let bound = pow2(174) as int;
    assert(v < bound) by {
        lemma_pow2_adds(174, 125);
        lemma_pow2_adds(1, 298);
        let low = pow2(125) as int;
        lemma_pow2_pos(125);
        assert(v < bound) by (nonlinear_arith)
            requires
                v * den < bound * low,
                den >= low,
                low > 0,
                v > 0,
        ;
    }
    assert(scaled_magnitude(0x4c00_0000) == pow2(174)) by {
        lemma_pow2_adds(23, 151);
        assert(exponent(0x4c00_0000) == 152 && significand(0x4c00_0000) == 0x80_0000);
    }
    finite_below(r, 0x4c00_0000);
}

/// A multiple of a half-precision number, times the nearest number to one over
/// it, rounds to the factor.
proof fn product_rounds_to_factor(s: u32, inverse: u32, offset: u32, k: u32, r: u32)
    requires
        is_half(s),
        scaled(s) > 0,
        k <= MAX_LEVEL,
        is_nearest(inverse, (scaled_one() * scaled_one()) as int, scaled(s)),
        scaled(offset) == scaled(s) * k,
        is_nearest(r, scaled(offset) * scaled(inverse), scaled_one() as int),
    ensures
        level(r) == k,
{
    inverse_is_close(s, inverse);
    let one = scaled_one() as int;
    let square = one * one;
    let (a, b) = (scaled(s), scaled(inverse));
    let num = scaled(offset) * b;
    let v = scaled(r);
    lemma_pow2_pos(149);
    if k == 0 {
        assert(num == 0) by (nonlinear_arith)
            requires
                num == scaled(offset) * b,
                scaled(offset) == a * 0,
        ;
        scaled_zero(0);
        nearest_is_exact(r, num, one, 0);
        level_of_close(r, 0);
    } else {
        let near = b * a;
        assert(num == k * near) by (nonlinear_arith)
            requires
                num == (a * k) * b,
                near == b * a,
        ;
        lemma2_to64();
        lemma_pow2_adds(149, 149);
        assert(square >= 0x80_0000 * one * 2) by {
            lemma_pow2_strictly_increases(24, 149);
            assert(square >= 0x100_0000 * one) by (nonlinear_arith)
                requires
                    square == one * one,
                    one >= 0x100_0000,
            ;
        }
        assert(2 * near >= square && near <= 2 * square);
        assert(num >= near && num <= 15 * near) by (nonlinear_arith)
            requires
                num == k * near,
                1 <= k <= 15,
                near >= 0,
        ;
        let top = pow2(277) as int;
        assert(num < top * one) by {
            lemma_pow2_adds(277, 149);
            lemma_pow2_adds(5, 298);
            lemma_pow2_strictly_increases(303, 426);
        }
        nearest_is_close(r, num, one);
        let target = k * one;
        assert(k * square == target * one) by (nonlinear_arith)
            requires
                square == one * one,
                target == k * one,
        ;
        let gap = distance(near, square);
        assert(distance(num, k * square) == k * gap) by (nonlinear_arith)
            requires
                num == k * near,
                k >= 1,
                gap == near - square && near >= square || gap == square - near && near <= square,
                distance(num, k * square) == if num <= k * square {
                    k * square - num
                } else {
                    num - k * square
                },
        ;
        assert((k * gap) * 0x40_0000 <= 15 * square) by (nonlinear_arith)
            requires
                gap * 0x40_0000 <= square,
                0 <= k <= 15,
                gap >= 0,
        ;
        assert(2 * distance(v * one, target * one) < square);
        assert(2 * distance(v, target) < one) by (nonlinear_arith)
            requires
                2 * (v * one - target * one) < one * one,
                2 * (target * one - v * one) < one * one,
                one > 0,
                distance(v, target) == if v <= target {
                    target - v
                } else {
                    v - target
                },
        ;
        level_of_close(r, k);
    }
}

/// The codes of a group, from 0 to 15, among which both ends occur.
pub open spec fn spans_levels(codes: Seq<u32>) -> bool {
    &&& forall|i: int| 0 <= i < codes.len() ==> #[trigger] codes[i] <= MAX_LEVEL
    &&& codes.contains(0)
    &&& codes.contains(MAX_LEVEL)
}

/// The weights are exactly what the codes stand for with a given scale and bias.
pub open spec fn dequantizes(codes: Seq<u32>, scale: u32, bias: u32, weights: Seq<u32>) -> bool {
    &&& weights.len() == codes.len()
    &&& forall|i: int|
        0 <= i < weights.len() ==> is_finite(#[trigger] weights[i]) && scaled(weights[i])
            == scaled(bias) + scaled(scale) * codes[i]
}

/// The extremes of dequantised weights are those of the lowest and the highest
/// code.
proof fn extremes_of_dequantized(codes: Seq<u32>, scale: u32, bias: u32, weights: Seq<u32>)
    requires
        spans_levels(codes),
        dequantizes(codes, scale, bias, weights),
        scaled(scale) > 0,
    ensures
        is_finite(min_of(weights)),
        is_finite(max_of(weights)),
        scaled(min_of(weights)) == scaled(bias),
        scaled(max_of(weights)) == scaled(bias) + 15 * scaled(scale),
{
    let s = scaled(scale);
    let low = choose|i: int| 0 <= i < codes.len() && codes[i] == 0;
    let high = choose|i: int| 0 <= i < codes.len() && codes[i] == MAX_LEVEL;
    extremes_of_finite(weights, low);
    extremes_of_finite(weights, high);
    let i = choose|i: int| 0 <= i < weights.len() && weights[i] == min_of(weights);
    let j = choose|j: int| 0 <= j < weights.len() && weights[j] == max_of(weights);
    let (c, d) = (codes[i], codes[j]);
    assert(s * c >= 0 && s * d <= 15 * s) by (nonlinear_arith)
        requires
            s > 0,
            0 <= c,
            d <= 15,
    ;
    assert(scaled(weights[low]) == scaled(bias) + s * 0);
    assert(scaled(weights[high]) == scaled(bias) + s * 15);
}

impl<
    Sub: Fn(u32, u32) -> u32,
    Mul: Fn(u32, u32) -> u32,
    Div: Fn(u32, u32) -> u32,
    Narrow: Fn(u32) -> u16,
    Widen: Fn(u16) -> u32,
> FloatUnit<Sub, Mul, Div, Narrow, Widen> {
    pub(crate) proof fn sub_is_nearest(&self, a: u32, b: u32, r: u32)
        requires
            self.rounds_to_nearest(),
            call_ensures(self.sub, (a, b), r),
            is_finite(a),
            is_finite(b),
        ensures
            is_nearest(r, scaled(a) - scaled(b), 1),
    {
        reveal(FloatUnit::rounds_to_nearest);
    }

    pub(crate) proof fn mul_is_nearest(&self, a: u32, b: u32, r: u32)
        requires
            self.rounds_to_nearest(),
            call_ensures(self.mul, (a, b), r),
            is_finite(a),
            is_finite(b),
        ensures
            is_nearest(r, scaled(a) * scaled(b), scaled_one() as int),
    {
        reveal(FloatUnit::rounds_to_nearest);
    }

    pub(crate) proof fn div_is_nearest(&self, a: u32, b: u32, r: u32)
        requires
            self.rounds_to_nearest(),
            call_ensures(self.div, (a, b), r),
            is_finite(a),
            is_finite(b),
            scaled(b) > 0,
        ensures
            is_nearest(r, scaled(a) * scaled_one(), scaled(b)),
    {
        reveal(FloatUnit::rounds_to_nearest);
    }

    /// A half that is widened to `x` is found again from a number equal to `x`.
    proof fn half_comes_back(&self, h: u16, x: u32, y: u32, k: u16)
        requires
            self.narrow_undoes_widen(),
            call_ensures(self.widen, (h,), x),
            call_ensures(self.narrow, (y,), k),
            is_finite(x),
            is_finite(y),
            scaled(y) == scaled(x),
        ensures
            is_half(x),
            scaled(x) != 0 ==> k == h,
            forall|z: u32| #[trigger]
                call_ensures(self.widen, (k,), z) ==> is_finite(z) && is_half(z) && scaled(z)
                    == scaled(x),
    {
        reveal(FloatUnit::narrow_undoes_widen);
    }

    /// The scale, the bias and the inverse that arise while dequantised weights
    /// are quantised again.
    proof fn scale_of_dequantized(
        &self,
        group: Seq<u32>,
        t: GroupTrace,
        codes: Seq<u32>,
        scale: u16,
        bias: u16,
        s: u32,
        b: u32,
    )
        requires
            self.rounds_to_nearest(),
            self.narrow_undoes_widen(),
            self.traces(group, t),
            call_ensures(self.widen, (scale,), s),
            call_ensures(self.widen, (bias,), b),
            is_finite(s),
            is_finite(b),
            scaled(s) > 0,
            spans_levels(codes),
            dequantizes(codes, s, b, group),
        ensures
            is_half(s),
            t.scale_half == scale,
            scaled(b) != 0 ==> t.bias_half == bias,
            forall|z: u32| #[trigger]
                call_ensures(self.widen, (t.bias_half,), z) ==> is_finite(z) && scaled(z)
                    == scaled(b),
            is_half(t.scale),
            scaled(t.scale) == scaled(s),
            is_finite(t.bias),
            scaled(t.bias) == scaled(b),
            is_nearest(t.inverse, (scaled_one() * scaled_one()) as int, scaled(s)),
    {
        let one = scaled_one() as int;
        let v = scaled(s);
        let (low, high) = (min_of(group), max_of(group));
        extremes_of_dequantized(codes, s, b, group);
        self.half_comes_back(bias, b, low, t.bias_half);
        assert(call_ensures(self.widen, (t.bias_half,), t.bias));
        scaled_of_constants();
        lemma_pow2_pos(149);

        assert(is_half(s)) by {
            reveal(FloatUnit::narrow_undoes_widen);
        }
        let whole = multiple_of_half(s, MAX_LEVEL);
        self.sub_is_nearest(high, low, t.range);
        nearest_is_exact(t.range, 15 * v, 1, whole);
        assert(v * (15 * one) == (15 * v) * one) by (nonlinear_arith);
        self.div_is_nearest(t.range, FIFTEEN, t.step);
        nearest_is_exact(t.step, (15 * v) * one, 15 * one, s);
        assert(nonzero_scale(t.step) == t.step);
        self.half_comes_back(scale, s, t.step, t.scale_half);
        assert(call_ensures(self.widen, (t.scale_half,), t.scale));
        self.div_is_nearest(ONE, t.scale, t.inverse);
    }

    /// The levels that arise while dequantised weights are quantised again.
    proof fn level_of_dequantized(
        &self,
        group: Seq<u32>,
        t: GroupTrace,
        codes: Seq<u32>,
        s: u32,
        b: u32,
        i: int,
    )
        requires
            self.rounds_to_nearest(),
            self.traces(group, t),
            is_half(s),
            scaled(s) > 0,
            spans_levels(codes),
            dequantizes(codes, s, b, group),
            is_finite(t.bias),
            scaled(t.bias) == scaled(b),
            is_nearest(t.inverse, (scaled_one() * scaled_one()) as int, scaled(s)),
            0 <= i < group.len(),
        ensures
            level(t.steps[i]) == codes[i],
    {
        let k = codes[i];
        let x = group[i];
        let offset = t.offsets[i];
        let multiple = multiple_of_half(s, k);
        assert(call_ensures(self.sub, (x, t.bias), offset));
        self.sub_is_nearest(x, t.bias, offset);
        nearest_is_exact(offset, scaled(s) * k, 1, multiple);
        inverse_is_close(s, t.inverse);
        assert(call_ensures(self.mul, (offset, t.inverse), t.steps[i]));
        self.mul_is_nearest(offset, t.inverse, t.steps[i]);
        product_rounds_to_factor(s, t.inverse, offset, k, t.steps[i]);
    }

    /// Quantising undoes an exact dequantisation: where the weights of group `g`
    /// are the bias and the scale times codes from 0 to 15, both of which occur,
    /// the group gets that scale, that bias and those codes. A bias of zero comes
    /// back as one of the two zeros.
    pub proof fn dequantized_comes_back(
        &self,
        weights: Seq<u32>,
        q: Quantized,
        g: int,
        codes: Seq<u32>,
        scale: u16,
        bias: u16,
        s: u32,
        b: u32,
    )
        requires
            self.rounds_to_nearest(),
            self.narrow_undoes_widen(),
            self.quantizes(weights, q),
            weights.len() % 64 == 0,
            0 <= g < weights.len() / 64,
            call_ensures(self.widen, (scale,), s),
            call_ensures(self.widen, (bias,), b),
            is_finite(s),
            is_finite(b),
            scaled(s) > 0,
            spans_levels(codes),
            dequantizes(codes, s, b, weights.subrange(64 * g, 64 * g + 64)),
        ensures
            q.scales@[g] == scale,
            scaled(b) != 0 ==> q.biases@[g] == bias,
            exists|z: u32| #[trigger]
                call_ensures(self.widen, (q.biases@[g],), z) && scaled(z) == scaled(b),
            forall|z: u32| #[trigger]
                call_ensures(self.widen, (q.biases@[g],), z) ==> is_finite(z) && scaled(z)
                    == scaled(b),
            forall|i: int|
                0 <= i < 64 ==> lane(
                    q.packed_words@[8 * g + i / 8],
                    (i % 8) as nat,
                ) == #[trigger] codes[i],
    {
        let group = weights.subrange(64 * g, 64 * g + 64);
        let words = q.packed_words@.subrange(8 * g, 8 * g + 8);
        assert(self.quantizes_group(group, q.scales@[g], q.biases@[g], words));
        let t = choose|t: GroupTrace| #[trigger]
            self.traces(group, t) && t.scale_half == q.scales@[g] && t.bias_half == q.biases@[g]
                && words == pack(t.steps.map_values(|s: u32| level(s)));
        self.scale_of_dequantized(group, t, codes, scale, bias, s, b);
        assert(call_ensures(self.widen, (q.biases@[g],), t.bias));
        assert forall|i: int| 0 <= i < 64 implies lane(
            q.packed_words@[8 * g + i / 8],
            (i % 8) as nat,
        ) == #[trigger] codes[i] by {
            let at = 64 * g + i;
            assert(at / 64 == g && at % 64 == i && at / 8 == 8 * g + i / 8 && at % 8 == i % 8);
            self.lanes_of_trace(weights, q, t, at);
            self.level_of_dequantized(group, t, codes, s, b, i);
        }
    }
}

} // verus!
