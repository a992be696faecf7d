use half::f16;
use metal_llm_kernels::quantize::{
    minmax, push_packed, quantize_q4, FloatUnit, GROUP_SIZE, LANES_PER_WORD, WORDS_PER_GROUP,
};
use metal_llm_kernels::single::{
    is_less, is_zero, round_to_level, FIFTEEN, INFINITY, MAX_LEVEL, NEG_INFINITY, ONE,
};

fn unit() -> FloatUnit<
    impl Fn(u32, u32) -> u32,
    impl Fn(u32, u32) -> u32,
    impl Fn(u32, u32) -> u32,
    impl Fn(u32) -> u16,
    impl Fn(u16) -> u32,
> {
    FloatUnit {
        sub: |a: u32, b: u32| (f32::from_bits(a) - f32::from_bits(b)).to_bits(),
        mul: |a: u32, b: u32| (f32::from_bits(a) * f32::from_bits(b)).to_bits(),
        div: |a: u32, b: u32| (f32::from_bits(a) / f32::from_bits(b)).to_bits(),
        narrow: |a: u32| f16::from_f32(f32::from_bits(a)).to_bits(),
        widen: |h: u16| f16::from_bits(h).to_f32().to_bits(),
    }
}

fn bits(xs: &[f32]) -> Vec<u32> {
    xs.iter().map(|x| x.to_bits()).collect()
}

/// The levels, the scale and the bias of one group, in floating point.
fn by_floats(group: &[f32]) -> (Vec<u32>, u16, u16) {
    let mut mn = f32::INFINITY;
    let mut mx = f32::NEG_INFINITY;
    for &x in group {
        if x < mn {
            mn = x;
        }
        if x > mx {
            mx = x;
        }
    }
    let raw = (mx - mn) / 15.0;
    let scale_h = f16::from_f32(if raw == 0.0 { 1.0 } else { raw });
    let bias_h = f16::from_f32(mn);
    let inv = 1.0 / scale_h.to_f32();
    let levels = group
        .iter()
        .map(|v| ((v - bias_h.to_f32()) * inv).round().clamp(0.0, 15.0) as u32)
        .collect();
    (levels, scale_h.to_bits(), bias_h.to_bits())
}

fn lanes(words: &[u32]) -> Vec<u32> {
    let mut out = Vec::new();
    for w in words {
        for lane in 0..8 {
            out.push((w >> (4 * lane)) & 15);
        }
    }
    out
}

#[test]
fn constants_are_the_numbers_they_name() {
    assert_eq!(f32::from_bits(INFINITY), f32::INFINITY);
    assert_eq!(f32::from_bits(NEG_INFINITY), f32::NEG_INFINITY);
    assert_eq!(f32::from_bits(ONE), 1.0);
    assert_eq!(f32::from_bits(FIFTEEN), 15.0);
    assert_eq!(MAX_LEVEL, 15);
    assert_eq!(GROUP_SIZE, 64);
    assert_eq!(LANES_PER_WORD * WORDS_PER_GROUP, GROUP_SIZE);
}

#[test]
fn order_of_patterns_is_the_order_of_numbers() {
    let xs = [
        0.0f32,
        -0.0,
        1.0,
        -1.0,
        1.0e-45,
        -1.0e-45,
        f32::MAX,
        f32::MIN,
        f32::MIN_POSITIVE,
        f32::INFINITY,
        f32::NEG_INFINITY,
        f32::NAN,
        -f32::NAN,
        15.5,
    ];
    for a in xs {
        for b in xs {
            assert_eq!(is_less(a.to_bits(), b.to_bits()), a < b, "{a} {b}");
        }
        assert_eq!(is_zero(a.to_bits()), a == 0.0, "{a}");
    }
}

#[test]
fn levels_at_the_halves() {
    let cases: [(f32, u32); 14] = [
        (0.0, 0),
        (0.49999997, 0),
        (0.5, 1),
        (1.5, 2),
        (2.5, 3),
        (7.4999995, 7),
        (14.499999, 14),
        (14.5, 15),
        (15.5, 15),
        (1.0e30, 15),
        (-0.0, 0),
        (-3.0, 0),
        (f32::INFINITY, 15),
        (f32::NEG_INFINITY, 0),
    ];
    for (x, expected) in cases {
        assert_eq!(round_to_level(x.to_bits()), expected, "{x}");
    }
    assert_eq!(round_to_level(f32::NAN.to_bits()), 0);
    assert_eq!(round_to_level(0xffc0_0000), 0);
}

#[test]
fn levels_across_all_patterns() {
    let mut b: u32 = 0;
    loop {
        let x = f32::from_bits(b);
        assert_eq!(round_to_level(b), x.round().clamp(0.0, 15.0) as u32, "{b:#x}");
        match b.checked_add(40_009) {
            Some(next) => b = next,
            None => break,
        }
    }
}

#[test]
fn level_is_the_nearest_one() {
    for i in 0..1600u32 {
        let x = i as f32 / 100.0;
        let level = round_to_level(x.to_bits()) as f32;
        for k in 0..16 {
            assert!((x - level).abs() <= (x - k as f32).abs());
        }
    }
}

#[test]
fn least_and_greatest() {
    assert_eq!(minmax(&[]), (INFINITY, NEG_INFINITY));
    let xs = bits(&[3.0, -2.5, f32::NAN, 7.25, -2.5]);
    assert_eq!(minmax(&xs), ((-2.5f32).to_bits(), 7.25f32.to_bits()));
    let nans = bits(&[f32::NAN; 4]);
    assert_eq!(minmax(&nans), (INFINITY, NEG_INFINITY));
    // Of two zeros the first one stays.
    assert_eq!(minmax(&bits(&[-0.0, 0.0])), (0x8000_0000, 0x8000_0000));
    assert_eq!(minmax(&bits(&[0.0, -0.0])), (0, 0));
}

#[test]
fn lanes_of_packed_words() {
    let mut words = vec![7];
    push_packed(&mut words, &[1, 2, 3, 4, 5, 6, 7, 8, 15, 0, 0, 0, 0, 0, 0, 9, 4]);
    assert_eq!(words, vec![7, 0x8765_4321, 0x9000_000f]);
    assert_eq!(lanes(&words[1..]), vec![1, 2, 3, 4, 5, 6, 7, 8, 15, 0, 0, 0, 0, 0, 0, 9]);
}

#[test]
fn ramp_from_zero_to_fifteen() {
    // Four weights on each level: the scale is exactly one.
    let group: Vec<f32> = (0..64).map(|i| (i / 4) as f32).collect();
    let q = quantize_q4(&bits(&group), &unit());
    assert_eq!(q.scales, vec![0x3c00]);
    assert_eq!(q.biases, vec![0]);
    assert_eq!(
        q.packed_words,
        vec![
            0x1111_0000, 0x3333_2222, 0x5555_4444, 0x7777_6666, 0x9999_8888, 0xbbbb_aaaa,
            0xdddd_cccc, 0xffff_eeee,
        ]
    );
}

#[test]
fn equal_weights_get_scale_one() {
    let q = quantize_q4(&bits(&[0.25; 64]), &unit());
    assert_eq!(q.scales, vec![0x3c00]);
    assert_eq!(q.biases, vec![0x3400]);
    assert_eq!(q.packed_words, vec![0; 8]);
}

#[test]
fn levels_use_the_scale_that_is_stored() {
    // 63 / 15 is 4.2, which half precision rounds to 4.19921875.
    let group: Vec<f32> = (0..64).map(|i| i as f32).collect();
    let q = quantize_q4(&bits(&group), &unit());
    assert_eq!(q.scales, vec![f16::from_f32(4.2).to_bits()]);
    assert_eq!(f16::from_bits(q.scales[0]).to_f32(), 4.19921875);
    let found = lanes(&q.packed_words);
    for i in 0..64 {
        assert_eq!(found[i], (i as f32 / 4.19921875).round() as u32);
    }
}

#[test]
fn no_weights() {
    let q = quantize_q4(&[], &unit());
    assert_eq!((q.packed_words.len(), q.scales.len(), q.biases.len()), (0, 0, 0));
}

#[test]
fn groups_of_odd_numbers() {
    for group in [
        [f32::NAN; 64],
        [f32::INFINITY; 64],
        [f32::NEG_INFINITY; 64],
        [-0.0; 64],
        [1.0e-45; 64],
        [3.0e38; 64],
    ] {
        let (levels, _, bias) = by_floats(&group);
        let q = quantize_q4(&bits(&group), &unit());
        assert_eq!(lanes(&q.packed_words), levels);
        assert_eq!(q.biases, vec![bias]);
        assert_eq!(q.scales.len(), 1);
    }
}

#[test]
fn random_weights_match_floating_point() {
    let mut state: u32 = 12345;
    let mut weights: Vec<f32> = Vec::new();
    for i in 0..64 * 40 {
        state = state.wrapping_mul(1664525).wrapping_add(1013904223);
        let unit_interval = (state >> 8) as f32 / (1 << 24) as f32;
        let spread = 10f32.powi((i / 64) % 9 - 4);
        weights.push((unit_interval - 0.5) * spread);
    }
    let q = quantize_q4(&bits(&weights), &unit());
    let again = quantize_q4(&bits(&weights), &unit());
    assert_eq!(q.packed_words, again.packed_words);
    assert_eq!(q.scales.len(), 40);
    for g in 0..40 {
        let (levels, scale, bias) = by_floats(&weights[64 * g..64 * g + 64]);
        assert_eq!(q.scales[g], scale);
        assert_eq!(q.biases[g], bias);
        assert_eq!(lanes(&q.packed_words[8 * g..8 * g + 8]), levels);
    }
}

#[test]
fn groups_lie_within_rows() {
    // Two rows of 128 weights each: no group mixes the rows.
    let mut weights = vec![1.0f32; 128];
    weights.extend_from_slice(&[5.0; 128]);
    let q = quantize_q4(&bits(&weights), &unit());
    let (one, five) = (f16::from_f32(1.0).to_bits(), f16::from_f32(5.0).to_bits());
    assert_eq!(q.biases, vec![one, one, five, five]);
    assert_eq!(q.scales, vec![0x3c00; 4]);
    assert_eq!(q.packed_words, vec![0; 32]);
}

/// Numbers of every kind, small and large.
fn numbers() -> Vec<f32> {
    let mut xs = vec![0.0f32, -0.0, f32::INFINITY, f32::NEG_INFINITY, f32::MAX, f32::MIN];
    for x in [1.0e-45f32, 1.0e-38, 5.9e-8, 0.1, 0.5, 1.0, 1.5, 3.0, 15.0, 65504.0, 65520.0, 1.0e38] {
        xs.push(x);
        xs.push(-x);
    }
    xs
}

#[test]
fn levels_increase() {
    let mut xs = numbers();
    for i in 0..400 {
        xs.push(i as f32 * 0.0625 - 2.0);
    }
    for &a in &xs {
        for &b in &xs {
            if a <= b {
                assert!(round_to_level(a.to_bits()) <= round_to_level(b.to_bits()), "{a} {b}");
            }
        }
    }
}

#[test]
fn machine_arithmetic_keeps_order() {
    let xs = numbers();
    for &a in &xs {
        assert!(a < 0.0 || a / 15.0 >= 0.0);
        let half = f16::from_f32(a).to_f32();
        assert!(!half.is_nan() && (a.is_sign_negative() || half.is_sign_positive()));
        if a.is_sign_positive() {
            assert!((1.0 / a).is_sign_positive() && !(1.0 / a).is_nan());
        }
        for &b in &xs {
            if a.is_finite() && b.is_finite() && b <= a {
                assert!(a - b >= 0.0);
            }
            for &c in &xs {
                if a.is_finite() && b.is_finite() && a <= b {
                    assert!(a - c <= b - c, "{a} {b} {c}");
                }
                if c.is_sign_positive() && a <= b {
                    let (r, s) = (a * c, b * c);
                    assert!(r.is_nan() || s.is_nan() || r <= s, "{a} {b} {c}");
                    assert!(!r.is_nan() || a == 0.0 || c == 0.0);
                    assert!(a > 0.0 && c != 0.0 || r.is_nan() || r <= 0.0);
                }
            }
        }
    }
}

#[test]
fn machine_halves_come_back() {
    for h in 0..=u16::MAX {
        let x = f16::from_bits(h).to_f32();
        if x.is_finite() {
            let magnitude = x.to_bits() % 0x8000_0000;
            assert!(
                magnitude == 0
                    || x.to_bits() % 0x2000 == 0
                        && (0x3380_0000..=0x477f_e000).contains(&magnitude)
            );
            assert_eq!(f16::from_f32(x).to_bits(), h);
        }
    }
}

#[test]
fn machine_arithmetic_rounds_to_nearest() {
    let xs: Vec<f32> = numbers().into_iter().filter(|x| x.abs() > 1.0e-8 && x.abs() < 1.0e6).collect();
    for &a in &xs {
        for &b in &xs {
            let r = a * b;
            let exact = a as f64 * b as f64;
            for near in [f32::from_bits(r.to_bits() - 1), f32::from_bits(r.to_bits() + 1)] {
                assert!((r as f64 - exact).abs() <= (near as f64 - exact).abs(), "{a} {b}");
            }
        }
    }
}

#[test]
fn levels_keep_the_order_of_weights() {
    let mut state: u32 = 99;
    for round in 0..120 {
        let spread = 10f32.powi(round % 77 - 40);
        let base = if round % 3 == 0 { 0.0 } else { 10f32.powi(round % 71 - 34) };
        let mut group = Vec::new();
        for i in 0..64 {
            state = state.wrapping_mul(1664525).wrapping_add(1013904223);
            let x = ((state >> 8) as f32 / (1 << 24) as f32 - 0.5) * spread + base;
            group.push(if i % 17 == 0 { -x } else { x });
        }
        group[5] = 0.0;
        group[6] = -0.0;
        let found = lanes(&quantize_q4(&bits(&group), &unit()).packed_words);
        for i in 0..64 {
            for j in 0..64 {
                if group[i] <= group[j] {
                    assert!(found[i] <= found[j], "{} {}", group[i], group[j]);
                }
            }
        }
    }
}

#[test]
fn quantising_undoes_dequantising() {
    let codes: Vec<u32> = (0..64).map(|i| (i * 7 + 3) % 16).collect();
    let mut compared = 0;
    for h in (1..0x7c00u16).step_by(5) {
        let scale = f16::from_bits(h);
        for bias in [f16::from_f32(0.0), f16::from_f32(-1.0), f16::from_f32(0.125), scale] {
            let (s, b) = (scale.to_f32() as f64, bias.to_f32() as f64);
            let exact: Vec<f64> = codes.iter().map(|&c| b + s * c as f64).collect();
            if exact.iter().any(|&x| x as f32 as f64 != x) {
                continue;
            }
            let weights: Vec<f32> = exact.iter().map(|&x| x as f32).collect();
            let q = quantize_q4(&bits(&weights), &unit());
            assert_eq!(q.scales, vec![h]);
            assert_eq!(f16::from_bits(q.biases[0]), bias);
            assert_eq!(lanes(&q.packed_words), codes);
            compared += 1;
        }
    }
    assert!(compared > 10_000);
}

#[test]
fn joined_runs_are_quantised_apart() {
    let a: Vec<f32> = (0..128).map(|i| (i as f32 * 0.37).sin()).collect();
    let b: Vec<f32> = (0..192).map(|i| (i as f32 * 0.11).cos() * 40.0).collect();
    let (p, q) = (quantize_q4(&bits(&a), &unit()), quantize_q4(&bits(&b), &unit()));
    let r = quantize_q4(&bits(&[a, b].concat()), &unit());
    assert_eq!(r.packed_words, [p.packed_words, q.packed_words].concat());
    assert_eq!(r.scales, [p.scales, q.scales].concat());
    assert_eq!(r.biases, [p.biases, q.biases].concat());
}
