use rinha_fraude_vetorial::float32::{
    bound, clamp01, divide, from_i64, multiply, round, Float32,
};
use rinha_fraude_vetorial::quantize::{quantize_value, quantize_vector, VECTOR_DIMENSIONS};
use rinha_fraude_vetorial::sampling::SplitMix64;
use rinha_fraude_vetorial::search::squared_distance_i16;

fn single(value: f32) -> Float32 {
    Float32 { bits: value.to_bits() }
}

fn value(number: Float32) -> f32 {
    f32::from_bits(number.bits)
}

fn approx_eq(left: f32, right: f32) {
    assert!(
        (left - right).abs() < 0.000_01,
        "left={left}, right={right}"
    );
}

/// Numbers of every size: random patterns, numbers near one, and the edges.
fn sample_numbers() -> Vec<f32> {
    let mut numbers = vec![
        0.0,
        -0.0,
        1.0,
        -1.0,
        0.5,
        f32::MIN_POSITIVE,
        f32::from_bits(1),
        f32::from_bits(0x007f_ffff),
        f32::from_bits(0x3f7f_ffff),
        f32::from_bits(0x3f80_0001),
        f32::MAX,
        f32::MIN,
        f32::INFINITY,
        f32::NEG_INFINITY,
    ];
    let mut rng = SplitMix64::new(2026);
    for _ in 0..300 {
        numbers.push(f32::from_bits(rng.next_u64() as u32));
        numbers.push((rng.next_u64() % 20_001) as f32 / 10_000.0 - 1.0);
        numbers.push((rng.next_u64() % 1_000_000) as f32 / 100.0);
    }
    numbers.retain(|number| !number.is_nan());
    numbers
}

#[test]
fn clamp_handles_bounds_and_invalid_numbers() {
    approx_eq(value(clamp01(single(-0.2))), 0.0);
    approx_eq(value(clamp01(single(0.4))), 0.4);
    approx_eq(value(clamp01(single(2.0))), 1.0);
    approx_eq(value(clamp01(single(f32::NAN))), 0.0);
}

#[test]
fn clamping_keeps_order_and_is_idempotent() {
    assert_eq!(clamp01(single(-0.0)).bits, 0);
    assert_eq!(clamp01(single(f32::INFINITY)).bits, 0);
    assert_eq!(clamp01(single(f32::NEG_INFINITY)).bits, 0);
    let mut finite: Vec<f32> = sample_numbers();
    finite.retain(|number| number.is_finite());
    finite.sort_by(f32::total_cmp);
    let mut last = 0.0;
    for number in finite {
        let clamped = clamp01(single(number));
        assert_eq!(clamp01(clamped), clamped);
        assert!(value(clamped) >= last);
        last = value(clamped);
    }
    assert_eq!(last, 1.0);
}

#[test]
fn comparisons_agree_with_the_machine() {
    let mut numbers = sample_numbers();
    numbers.truncate(200);
    numbers.push(f32::NAN);
    for &left in &numbers {
        assert_eq!(single(left).is_finite(), left.is_finite());
        assert_eq!(single(left).is_positive(), left.is_finite() && left > 0.0);
        for &right in &numbers {
            assert_eq!(single(left).is_less(single(right)), left < right, "{left} {right}");
            assert_eq!(single(left) == single(right), left == right, "{left} {right}");
        }
    }
}

#[test]
fn division_agrees_with_the_machine() {
    let numbers = sample_numbers();
    let mut checked = 0;
    for &dividend in numbers.iter().take(300) {
        for &divisor in &numbers {
            if divisor.is_finite() && divisor > 0.0 {
                let quotient = divide(single(dividend), single(divisor));
                assert_eq!(
                    quotient.bits,
                    (dividend / divisor).to_bits(),
                    "{dividend} / {divisor}"
                );
                checked += 1;
            }
        }
    }
    assert!(checked > 50_000);
    assert!(value(divide(single(f32::NAN), single(2.0))).is_nan());
}

#[test]
fn whole_numbers_convert_as_on_the_machine() {
    let mut rng = SplitMix64::new(7);
    for shift in 0..64 {
        for _ in 0..40 {
            let number = (rng.next_u64() >> shift) as i64;
            assert_eq!(value(from_i64(number)), number as f32, "{number}");
            assert_eq!(value(from_i64(number.wrapping_neg())), number.wrapping_neg() as f32);
        }
    }
    for number in [0, 1, -1, i64::MAX, i64::MIN, 16_777_216, 16_777_217, 16_777_219] {
        assert_eq!(from_i64(number).bits, (number as f32).to_bits());
    }
}

#[test]
fn products_agree_with_the_machine() {
    for number in sample_numbers() {
        if number.is_finite() {
            assert_eq!(
                multiply(single(number), 10_000).bits,
                (number * 10_000.0).to_bits(),
                "{number}"
            );
            assert_eq!(multiply(single(number), 3).bits, (number * 3.0).to_bits());
        }
    }
}

#[test]
fn bounding_agrees_with_the_machine() {
    for number in sample_numbers() {
        let expected = if number.is_finite() { number.clamp(-1.0, 1.0) } else { 0.0 };
        assert_eq!(bound(single(number)).bits, expected.to_bits(), "{number}");
    }
    assert_eq!(bound(single(f32::NAN)).bits, 0);
}

#[test]
fn rounding_agrees_with_the_machine() {
    for half in -2_000..2_000 {
        let number = half as f32 / 2.0;
        assert_eq!(round(single(number)), number.round() as i16, "{number}");
    }
    for number in sample_numbers() {
        if number.abs() <= 32_767.0 {
            assert_eq!(round(single(number)), number.round() as i16, "{number}");
        }
    }
}

#[test]
fn quantisation_agrees_with_the_machine() {
    let expected = |number: f32| {
        let bounded = if number.is_finite() { number.clamp(-1.0, 1.0) } else { 0.0 };
        (bounded * 10_000.0).round() as i16
    };
    for number in sample_numbers() {
        assert_eq!(quantize_value(single(number)), expected(number), "{number}");
    }
    for step in -20_000..=20_000 {
        let middle = step as f32 / 20_000.0;
        for number in [middle.next_down(), middle, middle.next_up()] {
            assert_eq!(quantize_value(single(number)), expected(number), "{number}");
        }
    }
    assert_eq!(quantize_value(single(f32::NAN)), 0);
    assert_eq!(quantize_value(single(0.000_05)), 1);
}

#[test]
fn quantisation_keeps_order_and_ends() {
    assert_eq!(quantize_value(single(1.0)), 10_000);
    assert_eq!(quantize_value(single(-1.0)), -10_000);
    assert_eq!(quantize_value(single(0.0)), 0);
    assert_eq!(quantize_value(single(-0.0)), 0);
    assert_eq!(quantize_value(single(f32::INFINITY)), 0);
    let mut finite: Vec<f32> = sample_numbers();
    finite.retain(|number| number.is_finite());
    finite.sort_by(f32::total_cmp);
    let mut last = -10_000;
    for number in finite {
        let quantised = quantize_value(single(number));
        assert!(last <= quantised && quantised <= 10_000);
        last = quantised;
    }
}

#[test]
fn sentinel_negative_one_dominates_distance_to_zero_query() {
    let mut sentinel_vector = [single(0.5f32); VECTOR_DIMENSIONS];
    sentinel_vector[5] = single(-1.0);
    sentinel_vector[6] = single(-1.0);

    let quantized = quantize_vector(&sentinel_vector);
    assert_eq!(quantized[5], -10_000);
    assert_eq!(quantized[6], -10_000);

    let query = quantize_vector(&[single(0.5f32); VECTOR_DIMENSIONS]);
    let distance = squared_distance_i16(&query, &quantized);
    let expected = 2 * (15_000i64 * 15_000i64);
    assert_eq!(distance, expected);
}
