//! Block quantisation to four bits: sixty-four weights share one scale and one
//! bias, and each weight becomes a level from 0 to 15.

use crate::single::{
    is_less, is_nan, is_zero, less, level, level_covers_its_half_open_step,
    level_in_range, round_to_level, scaled, FIFTEEN,
    INFINITY, MAX_LEVEL, NEG_INFINITY, ONE,
};
use vstd::arithmetic::div_mod::{
    lemma_div_denominator, lemma_fundamental_div_mod, lemma_fundamental_div_mod_converse,
};
use vstd::arithmetic::power::{lemma_pow_increases, pow};
use vstd::arithmetic::power2::{lemma2_to64, lemma_pow2_adds, lemma_pow2_pos, pow2};
use vstd::bits::lemma_u32_shr_is_div;
use vstd::prelude::*;
use vstd::slice::slice_subrange;

verus! {

/// Weights that share a scale and a bias.
pub const GROUP_SIZE: usize = 64;

/// Levels in a packed word, four bits each.
pub const LANES_PER_WORD: usize = 8;

/// Packed words of a group.
pub const WORDS_PER_GROUP: usize = 8;

/// Quantised weights. Scales and biases are half-precision bit patterns.
pub struct Quantized {
    /// `WORDS_PER_GROUP` words for each group, group after group.
    pub packed_words: Vec<u32>,
    /// One scale for each group.
    pub scales: Vec<u16>,
    /// One bias for each group.
    pub biases: Vec<u16>,
}

impl Quantized {
    /// The three parts describe the same number of groups.
    pub open spec fn wf(&self) -> bool {
        &&& self.biases@.len() == self.scales@.len()
        &&& self.packed_words@.len() == WORDS_PER_GROUP * self.scales@.len()
    }
}

/// The arithmetic that quantisation is computed with, on bit patterns: single
/// precision subtraction, multiplication and division, and the conversions to
/// and from half precision.
pub struct FloatUnit<Sub, Mul, Div, Narrow, Widen> {
    /// The first number less the second one.
    pub sub: Sub,
    /// The product.
    pub mul: Mul,
    /// The first number over the second one.
    pub div: Div,
    /// Single precision to half precision.
    pub narrow: Narrow,
    /// Half precision to single precision.
    pub widen: Widen,
}

impl<
    Sub: Fn(u32, u32) -> u32,
    Mul: Fn(u32, u32) -> u32,
    Div: Fn(u32, u32) -> u32,
    Narrow: Fn(u32) -> u16,
    Widen: Fn(u16) -> u32,
> FloatUnit<Sub, Mul, Div, Narrow, Widen> {
    /// Every operation accepts every operand.
    pub open spec fn total(&self) -> bool {
        &&& forall|a: u32, b: u32| call_requires(self.sub, (a, b))
        &&& forall|a: u32, b: u32| call_requires(self.mul, (a, b))
        &&& forall|a: u32, b: u32| call_requires(self.div, (a, b))
        &&& forall|a: u32| call_requires(self.narrow, (a,))
        &&& forall|h: u16| call_requires(self.widen, (h,))
    }
}

/// The least of the numbers, or positive infinity where there is none below it.
/// Of equal ones it is the first.
pub open spec fn min_of(xs: Seq<u32>) -> u32
    decreases xs.len(),
{
    if xs.len() == 0 {
        INFINITY
    } else {
        let m = min_of(xs.drop_last());
        if less(xs.last(), m) {
            xs.last()
        } else {
            m
        }
    }
}

/// The greatest of the numbers, or negative infinity where there is none above
/// it. Of equal ones it is the first.
pub open spec fn max_of(xs: Seq<u32>) -> u32
    decreases xs.len(),
{
    if xs.len() == 0 {
        NEG_INFINITY
    } else {
        let m = max_of(xs.drop_last());
        if less(m, xs.last()) {
            xs.last()
        } else {
            m
        }
    }
}

/// The least and the greatest of the numbers.
pub fn minmax(xs: &[u32]) -> (r: (u32, u32))
    ensures
        r.0 == min_of(xs@),
        r.1 == max_of(xs@),
{
    let mut mn: u32 = INFINITY;
    let mut mx: u32 = NEG_INFINITY;
    let mut i: usize = 0;
    assert(xs@.take(0) =~= Seq::empty());
    while i < xs.len()
        invariant
            i <= xs.len(),
            mn == min_of(xs@.take(i as int)),
            mx == max_of(xs@.take(i as int)),
        decreases xs.len() - i,
    {
        let x: u32 = xs[i];
        assert(xs@.take(i + 1).drop_last() =~= xs@.take(i as int));
        if is_less(x, mn) {
            mn = x;
        }
        if is_less(mx, x) {
            mx = x;
        }
        i = i + 1;
    }
    assert(xs@.take(i as int) =~= xs@);
    (mn, mx)
}

/// The scale that stands in for a computed one: one in place of zero.
pub open spec fn nonzero_scale(raw: u32) -> u32 {
    if !is_nan(raw) && scaled(raw) == 0 {
        ONE
    } else {
        raw
    }
}

/// The number whose base sixteen digits are the lanes, lowest digit first.
pub open spec fn word_of(lanes: Seq<u32>) -> nat
    decreases lanes.len(),
{
    if lanes.len() == 0 {
        0
    } else {
        lanes[0] as nat + 16 * word_of(lanes.skip(1))
    }
}

/// The words of a run of levels, eight levels to a word, lane `i` at bit `4 i`.
pub open spec fn pack(levels: Seq<u32>) -> Seq<u32> {
    Seq::new(
        levels.len() / 8,
        |w: int| word_of(levels.subrange(8 * w, 8 * w + 8)) as u32,
    )
}

/// The values that arise while one group is quantised.
pub struct GroupTrace {
    /// Greatest weight less least weight.
    pub range: u32,
    /// A fifteenth of the range.
    pub step: u32,
    /// The scale, at half precision.
    pub scale_half: u16,
    /// The bias, at half precision.
    pub bias_half: u16,
    /// The scale, back at single precision.
    pub scale: u32,
    /// The bias, back at single precision.
    pub bias: u32,
    /// One over the scale.
    pub inverse: u32,
    /// Each weight less the bias.
    pub offsets: Seq<u32>,
    /// Each offset times the inverse.
    pub steps: Seq<u32>,
}

impl<
    Sub: Fn(u32, u32) -> u32,
    Mul: Fn(u32, u32) -> u32,
    Div: Fn(u32, u32) -> u32,
    Narrow: Fn(u32) -> u16,
    Widen: Fn(u16) -> u32,
> FloatUnit<Sub, Mul, Div, Narrow, Widen> {
    /// The trace holds what the arithmetic may give for the group. Scale and
    /// bias go through half precision before a weight meets them, so that the
    /// levels are taken with the very values that are stored.
    pub open spec fn traces(&self, group: Seq<u32>, t: GroupTrace) -> bool {
        &&& call_ensures(self.sub, (max_of(group), min_of(group)), t.range)
        &&& call_ensures(self.div, (t.range, FIFTEEN), t.step)
        &&& call_ensures(self.narrow, (nonzero_scale(t.step),), t.scale_half)
        &&& call_ensures(self.narrow, (min_of(group),), t.bias_half)
        &&& call_ensures(self.widen, (t.scale_half,), t.scale)
        &&& call_ensures(self.widen, (t.bias_half,), t.bias)
        &&& call_ensures(self.div, (ONE, t.scale), t.inverse)
        &&& t.offsets.len() == group.len()
        &&& t.steps.len() == group.len()
        &&& forall|i: int|
            0 <= i < group.len() ==> call_ensures(
                self.sub,
                (#[trigger] group[i], t.bias),
                t.offsets[i],
            )
        &&& forall|i: int|
            0 <= i < group.len() ==> call_ensures(
                self.mul,
                (t.offsets[i], t.inverse),
                #[trigger] t.steps[i],
            )
    }

    /// The scale, the bias and the words are those of the group.
    pub open spec fn quantizes_group(
        &self,
        group: Seq<u32>,
        scale: u16,
        bias: u16,
        words: Seq<u32>,
    ) -> bool {
        exists|t: GroupTrace| #[trigger]
            self.traces(group, t) && t.scale_half == scale && t.bias_half == bias && words == pack(
                t.steps.map_values(|s: u32| level(s)),
            )
    }

    /// `q` is the quantisation of the weights, group by group.
    pub open spec fn quantizes(&self, weights: Seq<u32>, q: Quantized) -> bool {
        &&& q.wf()
        &&& q.scales@.len() == weights.len() / 64
        &&& forall|g: int|
            0 <= g < q.scales@.len() ==> self.quantizes_group(
                weights.subrange(64 * g, 64 * g + 64),
                #[trigger] q.scales@[g],
                q.biases@[g],
                q.packed_words@.subrange(8 * g, 8 * g + 8),
            )
    }
}

/// Eight lanes of four bits fill a word and no more.
proof fn word_of_bound(lanes: Seq<u32>)
    requires
        forall|i: int| 0 <= i < lanes.len() ==> #[trigger] lanes[i] <= MAX_LEVEL,
    ensures
        word_of(lanes) < pow(16, lanes.len()),
    decreases lanes.len(),
{
    reveal(pow);
    if lanes.len() > 0 {
        assert forall|i: int| 0 <= i < lanes.skip(1).len() implies #[trigger] lanes.skip(1)[i]
            <= MAX_LEVEL by {
            assert(lanes.skip(1)[i] == lanes[i + 1]);
        }
        word_of_bound(lanes.skip(1));
    }
}

/// The word of the eight levels from `start` on.
fn pack_word(levels: &[u32], start: usize) -> (word: u32)
    requires
        start + 8 <= levels@.len(),
        forall|i: int| 0 <= i < levels@.len() ==> #[trigger] levels@[i] <= MAX_LEVEL,
    ensures
        word == word_of(levels@.subrange(start as int, start + 8)),
{
    let mut word: u32 = 0;
    let mut lane: usize = LANES_PER_WORD;
    let ghost lanes = levels@.subrange(start as int, start + 8);
    assert(lanes.skip(8) =~= Seq::empty());
    while lane > 0
        invariant
            lane <= 8,
            start + 8 <= levels.len(),
            lanes == levels@.subrange(start as int, start + 8),
            forall|i: int| 0 <= i < levels@.len() ==> #[trigger] levels@[i] <= MAX_LEVEL,
            word == word_of(lanes.skip(lane as int)),
        decreases lane,
    {
        lane = lane - 1;
        proof {
            let tail = lanes.skip(lane as int);
            assert(tail.skip(1) =~= lanes.skip(lane + 1));
            assert(tail[0] == levels@[start + lane]);
            word_of_bound(tail);
            lemma_pow_increases(16, tail.len(), 8);
            assert(pow(16, 8) == 0x1_0000_0000) by {
                reveal_with_fuel(pow, 9);
            }
        }
        word = 16 * word + levels[start + lane];
    }
    assert(lanes.skip(0) =~= lanes);
    word
}

/// Appends the words of a run of levels, eight levels to a word. Levels after
/// the last whole word are left out.
pub fn push_packed(words: &mut Vec<u32>, levels: &[u32])
    requires
        forall|i: int| 0 <= i < levels@.len() ==> #[trigger] levels@[i] <= MAX_LEVEL,
    ensures
        final(words)@ == old(words)@ + pack(levels@),
{
    let n: usize = levels.len() / LANES_PER_WORD;
    let mut w: usize = 0;
    assert(words@ =~= old(words)@ + pack(levels@).take(0));
    while w < n
        invariant
            w <= n,
            n == levels.len() / 8,
            forall|i: int| 0 <= i < levels@.len() ==> #[trigger] levels@[i] <= MAX_LEVEL,
            words@ == old(words)@ + pack(levels@).take(w as int),
        decreases n - w,
    {
        let word: u32 = pack_word(levels, w * LANES_PER_WORD);
        words.push(word);
        assert(words@ =~= old(words)@ + pack(levels@).take(w + 1));
        w = w + 1;
    }
    assert(pack(levels@).take(n as int) =~= pack(levels@));
}

impl<
    Sub: Fn(u32, u32) -> u32,
    Mul: Fn(u32, u32) -> u32,
    Div: Fn(u32, u32) -> u32,
    Narrow: Fn(u32) -> u16,
    Widen: Fn(u16) -> u32,
> FloatUnit<Sub, Mul, Div, Narrow, Widen> {
    /// Quantises one group: appends its words and returns its scale and bias.
    fn quantize_group(&self, group: &[u32], words: &mut Vec<u32>) -> (r: (u16, u16))
        requires
            self.total(),
        ensures
            exists|t: GroupTrace| #[trigger]
                self.traces(group@, t) && t.scale_half == r.0 && t.bias_half == r.1
                    && final(words)@ == old(words)@ + pack(t.steps.map_values(|s: u32| level(s))),
    {
        let (mn, mx) = minmax(group);
        let range: u32 = (self.sub)(mx, mn);
        let step: u32 = (self.div)(range, FIFTEEN);
        let nonzero: u32 = if is_zero(step) {
            ONE
        } else {
            step
        };
        let scale_half: u16 = (self.narrow)(nonzero);
        let bias_half: u16 = (self.narrow)(mn);
        let scale: u32 = (self.widen)(scale_half);
        let bias: u32 = (self.widen)(bias_half);
        let inverse: u32 = (self.div)(ONE, scale);

        let mut levels: Vec<u32> = Vec::new();
        let ghost mut offsets: Seq<u32> = Seq::empty();
        let ghost mut steps: Seq<u32> = Seq::empty();
        let mut i: usize = 0;
        while i < group.len()
            invariant
                self.total(),
                i <= group.len(),
                offsets.len() == i,
                steps.len() == i,
                levels@.len() == i,
                forall|j: int|
                    0 <= j < i ==> call_ensures(
                        self.sub,
                        (#[trigger] group@[j], bias),
                        offsets[j],
                    ),
                forall|j: int|
                    0 <= j < i ==> call_ensures(
                        self.mul,
                        (offsets[j], inverse),
                        #[trigger] steps[j],
                    ),
                forall|j: int|
                    0 <= j < i ==> #[trigger] levels@[j] == level(steps[j]) && levels@[j]
                        <= MAX_LEVEL,
            decreases group.len() - i,
        {
            let offset: u32 = (self.sub)(group[i], bias);
            let position: u32 = (self.mul)(offset, inverse);
            levels.push(round_to_level(position));
            proof {
                offsets = offsets.push(offset);
                steps = steps.push(position);
            }
            i = i + 1;
        }
        push_packed(words, levels.as_slice());
        proof {
            let t = GroupTrace {
                range,
                step,
                scale_half,
                bias_half,
                scale,
                bias,
                inverse,
                offsets,
                steps,
            };
            assert(levels@ =~= steps.map_values(|s: u32| level(s)));
            assert(self.traces(group@, t));
        }
        (scale_half, bias_half)
    }
}

/// Quantises the weights, given as single-precision bit patterns, group by
/// group. In each group the scale is a fifteenth of the range, or one where that
/// is zero, and the bias is the least weight. Both are rounded to half precision
/// first; a weight's level is the nearest integer to its distance from the
/// rounded bias in rounded scales, kept within 0 to 15.
pub fn quantize_q4<
    Sub: Fn(u32, u32) -> u32,
    Mul: Fn(u32, u32) -> u32,
    Div: Fn(u32, u32) -> u32,
    Narrow: Fn(u32) -> u16,
    Widen: Fn(u16) -> u32,
>(weights: &[u32], unit: &FloatUnit<Sub, Mul, Div, Narrow, Widen>) -> (q: Quantized)
    requires
        weights@.len() % 64 == 0,
        unit.total(),
    ensures
        unit.quantizes(weights@, q),
{
    let n_groups: usize = weights.len() / GROUP_SIZE;
    let mut packed_words: Vec<u32> = Vec::new();
    let mut scales: Vec<u16> = Vec::new();
    let mut biases: Vec<u16> = Vec::new();
    let mut g: usize = 0;
    while g < n_groups
        invariant
            g <= n_groups,
            n_groups == weights.len() / 64,
            unit.total(),
            scales@.len() == g,
            biases@.len() == g,
            packed_words@.len() == 8 * g,
            forall|k: int|
                0 <= k < g ==> unit.quantizes_group(
                    weights@.subrange(64 * k, 64 * k + 64),
                    #[trigger] scales@[k],
                    biases@[k],
                    packed_words@.subrange(8 * k, 8 * k + 8),
                ),
        decreases n_groups - g,
    {
        let ghost words_before = packed_words@;
        let ghost scales_before = scales@;
        let ghost biases_before = biases@;
        let group: &[u32] = slice_subrange(weights, g * GROUP_SIZE, (g + 1) * GROUP_SIZE);
        let (scale, bias) = unit.quantize_group(group, &mut packed_words);
        scales.push(scale);
        biases.push(bias);
        proof {
            let t = choose|t: GroupTrace| #[trigger]
                unit.traces(group@, t) && t.scale_half == scale && t.bias_half == bias
                    && packed_words@ == words_before + pack(t.steps.map_values(|s: u32| level(s)));
            let words = pack(t.steps.map_values(|s: u32| level(s)));
            assert(packed_words@.subrange(8 * g as int, 8 * g + 8) =~= words);
            assert(unit.quantizes_group(group@, scale, bias, words));
            assert forall|k: int| 0 <= k < g + 1 implies unit.quantizes_group(
                weights@.subrange(64 * k, 64 * k + 64),
                #[trigger] scales@[k],
                biases@[k],
                packed_words@.subrange(8 * k, 8 * k + 8),
            ) by {
                if k < g {
                    assert(scales_before[k] == scales@[k]);
                    assert(packed_words@.subrange(8 * k, 8 * k + 8) =~= words_before.subrange(
                        8 * k,
                        8 * k + 8,
                    ));
                }
            }
        }
        g = g + 1;
    }
    Quantized { packed_words, scales, biases }
}

/// Lane `i` of a packed word, as a reader takes it out.
pub open spec fn lane(word: u32, i: nat) -> u32 {
    (word >> ((4 * i) as u32)) & 0xf
}

proof fn digit_of_word(lanes: Seq<u32>, i: nat)
    requires
        forall|j: int| 0 <= j < lanes.len() ==> #[trigger] lanes[j] <= MAX_LEVEL,
        i < lanes.len(),
    ensures
        (word_of(lanes) / pow2(4 * i)) % 16 == lanes[i as int],
    decreases i,
{
    let rest = lanes.skip(1);
    lemma2_to64();
    if i > 0 {
        assert forall|j: int| 0 <= j < rest.len() implies #[trigger] rest[j] <= MAX_LEVEL by {
            assert(rest[j] == lanes[j + 1]);
        }
        let k = (i - 1) as nat;
        digit_of_word(rest, k);
        lemma_pow2_adds(4, 4 * k);
        lemma_pow2_pos(4 * k);
        assert(word_of(lanes) / 16 == word_of(rest));
        lemma_div_denominator(word_of(lanes) as int, 16, pow2(4 * k) as int);
        assert(pow2(4 * i) == 16 * pow2(4 * k));
        assert(rest[k as int] == lanes[i as int]);
    } else {
        assert(pow2(4 * i) == 1);
        assert(word_of(lanes) / 1 == word_of(lanes));
    }
}

/// Packing loses nothing: each lane of a packed word is the level that was put
/// there.
pub proof fn lanes_read_back(lanes: Seq<u32>, i: nat)
    requires
        lanes.len() == LANES_PER_WORD,
        forall|j: int| 0 <= j < lanes.len() ==> #[trigger] lanes[j] <= MAX_LEVEL,
        i < LANES_PER_WORD,
    ensures
        word_of(lanes) <= u32::MAX,
        lane(word_of(lanes) as u32, i) == lanes[i as int],
{
    word_of_bound(lanes);
    assert(pow(16, 8) == 0x1_0000_0000) by {
        reveal_with_fuel(pow, 9);
    }
    let word = word_of(lanes) as u32;
    let shift = (4 * i) as u32;
    lemma_u32_shr_is_div(word, shift);
    let x = word >> shift;
    assert(x & 0xf == x % 16) by (bit_vector);
    digit_of_word(lanes, i);
}

/// The least number is not above any of them, and it is one of them unless it is
/// positive infinity.
pub proof fn min_is_least(xs: Seq<u32>)
    ensures
        forall|i: int| 0 <= i < xs.len() ==> !less(#[trigger] xs[i], min_of(xs)),
        min_of(xs) == INFINITY || xs.contains(min_of(xs)),
        !is_nan(min_of(xs)),
    decreases xs.len(),
{
    if xs.len() > 0 {
        let front = xs.drop_last();
        min_is_least(front);
        assert forall|i: int| 0 <= i < xs.len() implies !less(#[trigger] xs[i], min_of(xs)) by {
            if i < front.len() {
                assert(front[i] == xs[i]);
            }
        }
        if less(xs.last(), min_of(front)) {
            assert(xs[xs.len() - 1] == min_of(xs));
        } else if min_of(front) != INFINITY {
            let k = choose|k: int| 0 <= k < front.len() && front[k] == min_of(front);
            assert(xs[k] == min_of(xs));
        }
    }
}

/// The greatest number is not below any of them, and it is one of them unless it
/// is negative infinity.
pub proof fn max_is_greatest(xs: Seq<u32>)
    ensures
        forall|i: int| 0 <= i < xs.len() ==> !less(max_of(xs), #[trigger] xs[i]),
        max_of(xs) == NEG_INFINITY || xs.contains(max_of(xs)),
        !is_nan(max_of(xs)),
    decreases xs.len(),
{
    if xs.len() > 0 {
        let front = xs.drop_last();
        max_is_greatest(front);
        assert forall|i: int| 0 <= i < xs.len() implies !less(max_of(xs), #[trigger] xs[i]) by {
            if i < front.len() {
                assert(front[i] == xs[i]);
            }
        }
        if less(max_of(front), xs.last()) {
            assert(xs[xs.len() - 1] == max_of(xs));
        } else if max_of(front) != NEG_INFINITY {
            let k = choose|k: int| 0 <= k < front.len() && front[k] == max_of(front);
            assert(xs[k] == max_of(xs));
        }
    }
}

/// Of equal numbers the first one counts, for the least and for the greatest.
pub proof fn first_extreme_counts(xs: Seq<u32>, i: int)
    requires
        0 <= i < xs.len(),
        !is_nan(xs[i]),
        forall|j: int| 0 <= j < i ==> is_nan(#[trigger] xs[j]) || scaled(xs[j]) != scaled(xs[i]),
    ensures
        scaled(xs[i]) == scaled(min_of(xs)) ==> min_of(xs) == xs[i] || scaled(xs[i]) == scaled(
            INFINITY,
        ),
        scaled(xs[i]) == scaled(max_of(xs)) ==> max_of(xs) == xs[i] || scaled(xs[i]) == scaled(
            NEG_INFINITY,
        ),
    decreases xs.len(),
{
    let front = xs.drop_last();
    min_is_least(xs);
    max_is_greatest(xs);
    if i < front.len() {
        assert forall|j: int| 0 <= j < i implies is_nan(#[trigger] front[j]) || scaled(front[j])
            != scaled(front[i]) by {
            assert(front[j] == xs[j]);
        }
        first_extreme_counts(front, i);
        min_is_least(front);
        max_is_greatest(front);
        assert(!less(front[i], min_of(front)));
        assert(!less(max_of(front), front[i]));
    } else {
        min_is_least(front);
        max_is_greatest(front);
        if min_of(front) != INFINITY {
            let k = choose|k: int| 0 <= k < front.len() && front[k] == min_of(front);
            assert(xs[k] == front[k]);
        }
        if max_of(front) != NEG_INFINITY {
            let k = choose|k: int| 0 <= k < front.len() && front[k] == max_of(front);
            assert(xs[k] == front[k]);
        }
    }
}

/// A run of levels fills a word for every eight of them.
pub proof fn packed_len(levels: Seq<u32>)
    ensures
        pack(levels).len() == levels.len() as int / 8,
{
}

/// A run of levels is read back from its words: level `i` stands in word `i / 8`,
/// in the four bits from `4 (i % 8)` on.
pub proof fn packed_levels_read_back(levels: Seq<u32>, i: int)
    requires
        forall|j: int| 0 <= j < levels.len() ==> #[trigger] levels[j] <= 15,
        0 <= i < 8 * (levels.len() as int / 8),
    ensures
        pack(levels).len() == levels.len() as int / 8,
        (pack(levels)[i / 8] >> ((4 * (i % 8)) as u32)) & 0xf == levels[i],
{
    let w = i / 8;
    let lanes = levels.subrange(8 * w, 8 * w + 8);
    assert forall|j: int| 0 <= j < lanes.len() implies #[trigger] lanes[j] <= MAX_LEVEL by {
        assert(lanes[j] == levels[8 * w + j]);
    }
    lanes_read_back(lanes, (i % 8) as nat);
    assert(lanes[i % 8] == levels[i]);
}

/// Groups do not straddle rows: where a row is made of whole groups, the first
/// and the last weight of a group lie in the same row.
pub proof fn groups_stay_in_rows(num_cols: nat, g: nat)
    requires
        num_cols > 0,
        num_cols % GROUP_SIZE as nat == 0,
    ensures
        (GROUP_SIZE * g) / num_cols as int == (GROUP_SIZE * g + GROUP_SIZE - 1) / num_cols as int,
{
    let per_row = num_cols as int / 64;
    assert(num_cols == 64 * per_row);
    let row = g as int / per_row;
    let at = g as int % per_row;
    lemma_fundamental_div_mod(g as int, per_row);
    assert(64 * g == row * num_cols + 64 * at) by (nonlinear_arith)
        requires
            g == per_row * row + at,
            num_cols == 64 * per_row,
    ;
    lemma_fundamental_div_mod_converse(64 * g as int, num_cols as int, row, 64 * at);
    lemma_fundamental_div_mod_converse(64 * g as int + 63, num_cols as int, row, 64 * at + 63);
}

impl<
    Sub: Fn(u32, u32) -> u32,
    Mul: Fn(u32, u32) -> u32,
    Div: Fn(u32, u32) -> u32,
    Narrow: Fn(u32) -> u16,
    Widen: Fn(u16) -> u32,
> FloatUnit<Sub, Mul, Div, Narrow, Widen> {
    /// Every operation gives one result for given operands.
    pub open spec fn single_valued(&self) -> bool {
        &&& forall|a: u32, b: u32, r: u32, s: u32| #[trigger]
            call_ensures(self.sub, (a, b), r) && #[trigger] call_ensures(self.sub, (a, b), s)
                ==> r == s
        &&& forall|a: u32, b: u32, r: u32, s: u32| #[trigger]
            call_ensures(self.mul, (a, b), r) && #[trigger] call_ensures(self.mul, (a, b), s)
                ==> r == s
        &&& forall|a: u32, b: u32, r: u32, s: u32| #[trigger]
            call_ensures(self.div, (a, b), r) && #[trigger] call_ensures(self.div, (a, b), s)
                ==> r == s
        &&& forall|a: u32, r: u16, s: u16| #[trigger]
            call_ensures(self.narrow, (a,), r) && #[trigger] call_ensures(self.narrow, (a,), s)
                ==> r == s
        &&& forall|h: u16, r: u32, s: u32| #[trigger]
            call_ensures(self.widen, (h,), r) && #[trigger] call_ensures(self.widen, (h,), s)
                ==> r == s
    }

    proof fn trace_is_determined(&self, group: Seq<u32>, t: GroupTrace, u: GroupTrace)
        requires
            self.single_valued(),
            self.traces(group, t),
            self.traces(group, u),
        ensures
            t.scale_half == u.scale_half,
            t.bias_half == u.bias_half,
            t.steps == u.steps,
    {
        assert(t.range == u.range);
        assert(t.step == u.step);
        assert(t.scale_half == u.scale_half);
        assert(t.bias_half == u.bias_half);
        assert(t.scale == u.scale && t.bias == u.bias);
        assert(t.inverse == u.inverse);
        assert forall|i: int| 0 <= i < group.len() implies t.steps[i] == u.steps[i] by {
            let x = group[i];
            assert(t.offsets[i] == u.offsets[i]);
        }
        assert(t.steps =~= u.steps);
    }

    /// A group is quantised on its own: equal groups get equal scales, biases and
    /// words, wherever they stand.
    pub proof fn equal_groups_quantize_alike(
        &self,
        a: Seq<u32>,
        p: Quantized,
        g: int,
        b: Seq<u32>,
        q: Quantized,
        h: int,
    )
        requires
            self.single_valued(),
            self.quantizes(a, p),
            self.quantizes(b, q),
            0 <= g < p.scales@.len(),
            0 <= h < q.scales@.len(),
            a.subrange(64 * g, 64 * g + 64) == b.subrange(64 * h, 64 * h + 64),
        ensures
            p.scales@[g] == q.scales@[h],
            p.biases@[g] == q.biases@[h],
            p.packed_words@.subrange(8 * g, 8 * g + 8) == q.packed_words@.subrange(
                8 * h,
                8 * h + 8,
            ),
    {
        let group = a.subrange(64 * g, 64 * g + 64);
        let x = p.packed_words@.subrange(8 * g, 8 * g + 8);
        let y = q.packed_words@.subrange(8 * h, 8 * h + 8);
        assert(self.quantizes_group(group, p.scales@[g], p.biases@[g], x));
        assert(self.quantizes_group(group, q.scales@[h], q.biases@[h], y));
        let t = choose|t: GroupTrace| #[trigger]
            self.traces(group, t) && t.scale_half == p.scales@[g] && t.bias_half == p.biases@[g]
                && x == pack(t.steps.map_values(|s: u32| level(s)));
        let u = choose|u: GroupTrace| #[trigger]
            self.traces(group, u) && u.scale_half == q.scales@[h] && u.bias_half == q.biases@[h]
                && y == pack(u.steps.map_values(|s: u32| level(s)));
        self.trace_is_determined(group, t, u);
    }

    /// Equal runs of `n` whole groups get equal scales, biases and words, wherever
    /// they stand.
    pub proof fn equal_runs_quantize_alike(
        &self,
        a: Seq<u32>,
        p: Quantized,
        g: int,
        b: Seq<u32>,
        q: Quantized,
        h: int,
        n: int,
    )
        requires
            self.single_valued(),
            self.quantizes(a, p),
            self.quantizes(b, q),
            0 <= n,
            0 <= g,
            g + n <= p.scales@.len(),
            0 <= h,
            h + n <= q.scales@.len(),
            a.subrange(64 * g, 64 * (g + n)) == b.subrange(64 * h, 64 * (h + n)),
        ensures
            p.scales@.subrange(g, g + n) == q.scales@.subrange(h, h + n),
            p.biases@.subrange(g, g + n) == q.biases@.subrange(h, h + n),
            p.packed_words@.subrange(8 * g, 8 * (g + n)) == q.packed_words@.subrange(
                8 * h,
                8 * (h + n),
            ),
    {
        let run = a.subrange(64 * g, 64 * (g + n));
        let d = h - g;
        assert forall|k: int| g <= k < g + n implies #[trigger] p.scales@[k] == q.scales@[k + d]
            && p.biases@[k] == q.biases@[k + d] && p.packed_words@.subrange(8 * k, 8 * k + 8)
            == q.packed_words@.subrange(8 * (k + d), 8 * (k + d) + 8) by {
            assert(a.subrange(64 * k, 64 * k + 64) =~= run.subrange(
                64 * (k - g),
                64 * (k - g) + 64,
            ));
            assert(b.subrange(64 * (k + d), 64 * (k + d) + 64) =~= run.subrange(
                64 * (k - g),
                64 * (k - g) + 64,
            ));
            self.equal_groups_quantize_alike(a, p, k, b, q, k + d);
        }
        assert(p.scales@.subrange(g, g + n) =~= q.scales@.subrange(h, h + n));
        assert forall|k: int| g <= k < g + n implies #[trigger] p.biases@[k] == q.biases@[k + d] by {
            assert(p.scales@[k] == q.scales@[k + d]);
        }
        assert(p.biases@.subrange(g, g + n) =~= q.biases@.subrange(h, h + n));
        let x = p.packed_words@.subrange(8 * g, 8 * (g + n));
        let y = q.packed_words@.subrange(8 * h, 8 * (h + n));
        assert forall|w: int| 0 <= w < 8 * n implies x[w] == y[w] by {
            let k = g + w / 8;
            assert(p.scales@[k] == q.scales@[k + d]);
            assert(p.packed_words@.subrange(8 * k, 8 * k + 8)[w % 8] == x[w]);
            assert(q.packed_words@.subrange(8 * (k + d), 8 * (k + d) + 8)[w % 8] == y[w]);
        }
        assert(x =~= y);
    }

    /// Arithmetic that gives one result for given operands quantises weights in
    /// one way only.
    pub proof fn quantization_is_determined(&self, weights: Seq<u32>, p: Quantized, q: Quantized)
        requires
            self.single_valued(),
            self.quantizes(weights, p),
            self.quantizes(weights, q),
        ensures
            p.packed_words@ == q.packed_words@,
            p.scales@ == q.scales@,
            p.biases@ == q.biases@,
    {
        let n = p.scales@.len() as int;
        self.equal_runs_quantize_alike(weights, p, 0, weights, q, 0, n);
        assert(p.packed_words@.subrange(0, 8 * n) =~= p.packed_words@);
        assert(q.packed_words@.subrange(0, 8 * n) =~= q.packed_words@);
        assert(p.scales@.subrange(0, n) =~= p.scales@);
        assert(q.scales@.subrange(0, n) =~= q.scales@);
        assert(p.biases@.subrange(0, n) =~= p.biases@);
        assert(q.biases@.subrange(0, n) =~= q.biases@);
    }

    /// Quantising two joined runs of whole groups joins what quantising each of
    /// them gives.
    pub proof fn joined_runs_quantize_apart(
        &self,
        a: Seq<u32>,
        p: Quantized,
        b: Seq<u32>,
        q: Quantized,
        r: Quantized,
    )
        requires
            self.single_valued(),
            a.len() % 64 == 0,
            b.len() % 64 == 0,
            self.quantizes(a, p),
            self.quantizes(b, q),
            self.quantizes(a + b, r),
        ensures
            r.packed_words@ == p.packed_words@ + q.packed_words@,
            r.scales@ == p.scales@ + q.scales@,
            r.biases@ == p.biases@ + q.biases@,
    {
        let m = p.scales@.len() as int;
        let n = q.scales@.len() as int;
        assert((a + b).subrange(0, 64 * m) =~= a.subrange(0, 64 * m));
        assert((a + b).subrange(64 * m, 64 * (m + n)) =~= b.subrange(0, 64 * n));
        self.equal_runs_quantize_alike(a + b, r, 0, a, p, 0, m);
        self.equal_runs_quantize_alike(a + b, r, m, b, q, 0, n);
        assert(r.packed_words@ =~= r.packed_words@.subrange(0, 8 * m) + r.packed_words@.subrange(
            8 * m,
            8 * (m + n),
        ));
        assert(r.scales@ =~= r.scales@.subrange(0, m) + r.scales@.subrange(m, m + n));
        assert(r.biases@ =~= r.biases@.subrange(0, m) + r.biases@.subrange(m, m + n));
        assert(p.packed_words@.subrange(0, 8 * m) =~= p.packed_words@);
        assert(p.scales@.subrange(0, m) =~= p.scales@);
        assert(p.biases@.subrange(0, m) =~= p.biases@);
        assert(q.packed_words@.subrange(0, 8 * n) =~= q.packed_words@);
        assert(q.scales@.subrange(0, n) =~= q.scales@);
        assert(q.biases@.subrange(0, n) =~= q.biases@);
    }

    /// A row is quantised on its own: where rows are made of whole groups, two
    /// matrices that agree on a row have the same scales, biases and words there.
    pub proof fn equal_rows_quantize_alike(
        &self,
        a: Seq<u32>,
        p: Quantized,
        b: Seq<u32>,
        q: Quantized,
        num_cols: nat,
        row: nat,
    )
        requires
            self.single_valued(),
            self.quantizes(a, p),
            self.quantizes(b, q),
            num_cols % GROUP_SIZE as nat == 0,
            (row + 1) * num_cols <= a.len(),
            (row + 1) * num_cols <= b.len(),
            a.subrange((row * num_cols) as int, ((row + 1) * num_cols) as int) == b.subrange(
                (row * num_cols) as int,
                ((row + 1) * num_cols) as int,
            ),
        ensures
            ({
                let m = num_cols as int / 64;
                &&& 8 * ((row + 1) * m) <= p.packed_words@.len()
                &&& 8 * ((row + 1) * m) <= q.packed_words@.len()
                &&& p.scales@.subrange(row * m, (row + 1) * m) == q.scales@.subrange(
                    row * m,
                    (row + 1) * m,
                )
                &&& p.biases@.subrange(row * m, (row + 1) * m) == q.biases@.subrange(
                    row * m,
                    (row + 1) * m,
                )
                &&& p.packed_words@.subrange(8 * (row * m), 8 * ((row + 1) * m))
                    == q.packed_words@.subrange(8 * (row * m), 8 * ((row + 1) * m))
            }),
    {
        let m = num_cols as int / 64;
        let g = row * m;
        let end = (row + 1) * m;
        assert(num_cols == 64 * m);
        assert(row * num_cols == 64 * g && (row + 1) * num_cols == 64 * end && end == g + m && g
            >= 0) by (nonlinear_arith)
            requires
                num_cols == 64 * m,
                g == row * m,
                end == (row + 1) * m,
                m >= 0,
                row >= 0,
        ;
        self.equal_runs_quantize_alike(a, p, g, b, q, g, m);
    }

    /// Each lane of a group holds the level that the group's trace gives.
    pub proof fn lanes_of_trace(&self, weights: Seq<u32>, q: Quantized, t: GroupTrace, i: int)
        requires
            self.quantizes(weights, q),
            weights.len() % 64 == 0,
            0 <= i < weights.len(),
            t.steps.len() == 64,
            q.packed_words@.subrange(8 * (i / 64), 8 * (i / 64) + 8) == pack(
                t.steps.map_values(|s: u32| level(s)),
            ),
        ensures
            lane(q.packed_words@[i / 8], (i % 8) as nat) == level(t.steps[i % 64]),
    {
        let g = i / 64;
        let words = q.packed_words@.subrange(8 * g, 8 * g + 8);
        let levels = t.steps.map_values(|s: u32| level(s));
        let w = i / 8 - 8 * g;
        let lanes = levels.subrange(8 * w, 8 * w + 8);
        assert forall|j: int| 0 <= j < lanes.len() implies #[trigger] lanes[j] <= MAX_LEVEL by {
            level_in_range(t.steps[8 * w + j]);
        }
        lanes_read_back(lanes, (i % 8) as nat);
        assert(words[w] == q.packed_words@[i / 8]);
        assert(lanes[i % 8] == level(t.steps[i % 64]));
    }

    /// Sixty-four weights give one scale, one bias and eight words.
    pub proof fn quantization_sizes(&self, weights: Seq<u32>, q: Quantized)
        requires
            self.quantizes(weights, q),
            weights.len() % 64 == 0,
        ensures
            64 * q.scales@.len() == weights.len(),
            64 * q.biases@.len() == weights.len(),
            8 * q.packed_words@.len() == weights.len(),
    {
    }

    /// What is stored for group `g`. The bias is a least number of the group,
    /// narrowed. The scale is a fifteenth of the greatest less the least, or one
    /// in place of zero, narrowed. A group without numbers has infinities for its
    /// least and greatest.
    pub proof fn stored_scale_and_bias(&self, weights: Seq<u32>, q: Quantized, g: int) -> (r: (
        u32,
        u32,
        u32,
        u32,
    ))
        requires
            self.quantizes(weights, q),
            weights.len() % 64 == 0,
            0 <= g < weights.len() as int / 64,
        ensures
            ({
                let (low, high, range, step) = r;
                &&& !is_nan(low) && !is_nan(high)
                &&& forall|i: int|
                    64 * g <= i < 64 * g + 64 && !is_nan(#[trigger] weights[i]) ==> scaled(low)
                        <= scaled(weights[i]) <= scaled(high)
                &&& low == 0x7f80_0000 || exists|i: int|
                    64 * g <= i < 64 * g + 64 && #[trigger] weights[i] == low
                &&& high == 0xff80_0000 || exists|i: int|
                    64 * g <= i < 64 * g + 64 && #[trigger] weights[i] == high
                &&& call_ensures(self.narrow, (low,), q.biases@[g])
                &&& call_ensures(self.sub, (high, low), range)
                &&& call_ensures(self.div, (range, 0x4170_0000u32), step)
                &&& !is_nan(step) && scaled(step) == 0 ==> call_ensures(
                    self.narrow,
                    (0x3f80_0000u32,),
                    q.scales@[g],
                )
                &&& is_nan(step) || scaled(step) != 0 ==> call_ensures(
                    self.narrow,
                    (step,),
                    q.scales@[g],
                )
            }),
    {
        let group = weights.subrange(64 * g, 64 * g + 64);
        let words = q.packed_words@.subrange(8 * g, 8 * g + 8);
        assert(self.quantizes_group(group, q.scales@[g], q.biases@[g], words));
        let t = choose|t: GroupTrace| #[trigger]
            self.traces(group, t) && t.scale_half == q.scales@[g] && t.bias_half == q.biases@[g]
                && words == pack(t.steps.map_values(|s: u32| level(s)));
        let (low, high) = (min_of(group), max_of(group));
        min_is_least(group);
        max_is_greatest(group);
        assert forall|i: int|
            64 * g <= i < 64 * g + 64 && !is_nan(#[trigger] weights[i]) implies scaled(low)
            <= scaled(weights[i]) <= scaled(high) by {
            assert(group[i - 64 * g] == weights[i]);
            assert(!less(group[i - 64 * g], low));
            assert(!less(high, group[i - 64 * g]));
        }
        if low != INFINITY {
            let k = choose|k: int| 0 <= k < group.len() && group[k] == low;
            assert(weights[64 * g + k] == low);
        }
        if high != NEG_INFINITY {
            let k = choose|k: int| 0 <= k < group.len() && group[k] == high;
            assert(weights[64 * g + k] == high);
        }
        (low, high, t.range, t.step)
    }

    /// What is stored for weight `i`: its distance from the stored bias, times one
    /// over the stored scale, rounded to the nearest integer with a half rounding
    /// up and kept within 0 to 15. It stands in word `i / 8`, in the four bits
    /// from `4 (i % 8)` on.
    pub proof fn stored_level(&self, weights: Seq<u32>, q: Quantized, i: int) -> (r: (
        u32,
        u32,
        u32,
        u32,
        u32,
    ))
        requires
            self.quantizes(weights, q),
            weights.len() % 64 == 0,
            0 <= i < weights.len(),
        ensures
            ({
                let (scale, bias, inverse, offset, position) = r;
                let k = (q.packed_words@[i / 8] >> ((4 * (i % 8)) as u32)) & 0xf;
                &&& call_ensures(self.widen, (q.scales@[i / 64],), scale)
                &&& call_ensures(self.widen, (q.biases@[i / 64],), bias)
                &&& call_ensures(self.div, (0x3f80_0000u32, scale), inverse)
                &&& call_ensures(self.sub, (weights[i], bias), offset)
                &&& call_ensures(self.mul, (offset, inverse), position)
                &&& k <= 15
                &&& is_nan(position) ==> k == 0
                &&& !is_nan(position) ==> (k == 0 || 2 * scaled(position) >= (2 * k - 1) * pow2(
                    149,
                )) && (k == 15 || 2 * scaled(position) < (2 * k + 1) * pow2(149))
            }),
    {
        let g = i / 64;
        let group = weights.subrange(64 * g, 64 * g + 64);
        let words = q.packed_words@.subrange(8 * g, 8 * g + 8);
        assert(self.quantizes_group(group, q.scales@[g], q.biases@[g], words));
        let t = choose|t: GroupTrace| #[trigger]
            self.traces(group, t) && t.scale_half == q.scales@[g] && t.bias_half == q.biases@[g]
                && words == pack(t.steps.map_values(|s: u32| level(s)));
        self.lanes_of_trace(weights, q, t, i);
        let x = i % 64;
        let position = t.steps[x];
        assert(group[x] == weights[i]);
        level_in_range(position);
        level_covers_its_half_open_step(position, level(position));
        (t.scale, t.bias, t.inverse, t.offsets[x], position)
    }

    /// The level of weight `i` stands in lane `i % 8` of word `i / 8`, and it is
    /// the level of the weight's distance from the stored bias in stored scales.
    pub proof fn levels_read_back(&self, weights: Seq<u32>, q: Quantized, i: int)
        requires
            self.quantizes(weights, q),
            weights.len() % 64 == 0,
            0 <= i < weights.len(),
        ensures
            exists|t: GroupTrace| #[trigger]
                self.traces(weights.subrange(64 * (i / 64), 64 * (i / 64) + 64), t)
                    && t.scale_half == q.scales@[i / 64] && t.bias_half == q.biases@[i / 64]
                    && lane(q.packed_words@[i / 8], (i % 8) as nat) == level(t.steps[i % 64]),
    {
        let g = i / 64;
        let group = weights.subrange(64 * g, 64 * g + 64);
        let words = q.packed_words@.subrange(8 * g, 8 * g + 8);
        assert(self.quantizes_group(group, q.scales@[g], q.biases@[g], words));
        let t = choose|t: GroupTrace| #[trigger]
            self.traces(group, t) && t.scale_half == q.scales@[g] && t.bias_half == q.biases@[g]
                && words == pack(t.steps.map_values(|s: u32| level(s)));
        self.lanes_of_trace(weights, q, t, i);
        assert(self.traces(group, t));
    }
}

} // verus!
