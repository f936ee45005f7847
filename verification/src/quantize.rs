//! Quantisation: a feature between minus one and one becomes a whole number of
//! ten-thousandths.
use crate::float32::{
    bound, bounded, lemma_infinity, lemma_nearest_exact, lemma_nearest_is_number,
    lemma_nearest_monotone, lemma_rounds_within, lemma_unit_numbers, multiple, multiply,
    nearest_integer, nearest_units, one_units, pattern_units, round, Float32, MINUS_ONE, ONE, ZERO,
};
use vstd::arithmetic::power2::{lemma2_to64, lemma_pow2_adds, lemma_pow2_pos, pow2};
use vstd::prelude::*;

verus! {

/// The number of features of a transaction.
pub const VECTOR_DIMENSIONS: usize = 14;

/// The whole number that stands for the feature value one.
pub const QUANTIZATION_SCALE: u16 = 10_000;

/// The quantised form of a feature value: held between minus one and one,
/// multiplied in single precision, rounded to a whole number.
pub open spec fn quantized(value: Float32) -> int {
    nearest_integer(multiple(bounded(value), QUANTIZATION_SCALE as nat))
}

/// The magnitude of a bounded number, multiplied by the scale.
proof fn lemma_scaled_magnitude(value: Float32)
    ensures
        ({
            let held = bounded(value);
            let scaled = multiple(held, QUANTIZATION_SCALE as nat);
            let units = nearest_units(
                pattern_units(held.pattern()) * QUANTIZATION_SCALE as nat,
                1,
            );
            &&& held.finite()
            &&& pattern_units(held.pattern()) <= one_units()
            &&& units <= 10_000 * pow2(149)
            &&& scaled.finite()
            &&& scaled.negative() == held.negative()
            &&& pattern_units(scaled.pattern()) == units
        }),
{
    lemma_unit_numbers();
    lemma2_to64();
    let held = bounded(value);
    let units = pattern_units(held.pattern());
    assert(units * 10_000 <= 10_000 * pow2(149)) by (nonlinear_arith)
        requires
            units <= pow2(149),
    ;
    lemma_nearest_monotone(units * 10_000, 10_000 * pow2(149), 1);
    lemma_nearest_exact(10_000, 149);
    lemma_nearest_is_number(held.negative(), units * 10_000, 1);
    lemma_infinity(multiple(held, QUANTIZATION_SCALE as nat), 10_000);
}

/// Quantises one feature value.
pub fn quantize_value(value: Float32) -> (quantised: i16)
    ensures
        quantised == quantized(value),
        -10_000 <= quantised <= 10_000,
{
    let scaled: Float32 = multiply(bound(value), QUANTIZATION_SCALE);
    proof {
        lemma_scaled_magnitude(value);
        lemma_pow2_pos(149);
        lemma_rounds_within(scaled, 10_000);
    }
    round(scaled)
}

/// Whether a vector is the quantised form of another.
pub open spec fn quantized_vector(vector: Seq<Float32>, quantised: Seq<i16>) -> bool {
    &&& quantised.len() == vector.len()
    &&& forall|i: int| 0 <= i < vector.len() ==> #[trigger] quantised[i] == quantized(vector[i])
}

/// Quantises every feature of a vector.
pub fn quantize_vector(vector: &[Float32; VECTOR_DIMENSIONS]) -> (quantised: [i16;
    VECTOR_DIMENSIONS])
    ensures
        quantized_vector(vector@, quantised@),
{
    let mut output: [i16; VECTOR_DIMENSIONS] = [0; VECTOR_DIMENSIONS];
    let mut dimension: usize = 0;
    while dimension < VECTOR_DIMENSIONS
        invariant
            dimension <= VECTOR_DIMENSIONS,
            forall|i: int| 0 <= i < dimension ==> #[trigger] output[i] == quantized(vector[i]),
        decreases VECTOR_DIMENSIONS - dimension,
    {
        output[dimension] = quantize_value(vector[dimension]);
        dimension = dimension + 1;
    }
    output
}

/// The quantised form of a bounded magnitude keeps the order of magnitudes.
proof fn lemma_magnitudes_keep_order(small: Float32, large: Float32)
    requires
        pattern_units(bounded(small).pattern()) <= pattern_units(bounded(large).pattern()),
        bounded(small).negative() == bounded(large).negative(),
    ensures
        bounded(large).negative() ==> quantized(large) <= quantized(small) <= 0,
        !bounded(large).negative() ==> 0 <= quantized(small) <= quantized(large),
{
    lemma_scaled_magnitude(small);
    lemma_scaled_magnitude(large);
    let a = pattern_units(bounded(small).pattern());
    let b = pattern_units(bounded(large).pattern());
    lemma_nearest_monotone(a * 10_000, b * 10_000, 1);
    let c = nearest_units(a * 10_000, 1);
    let d = nearest_units(b * 10_000, 1);
    lemma_pow2_pos(149);
    lemma_pow2_pos(150);
    vstd::arithmetic::div_mod::lemma_div_is_ordered(
        (2 * c + pow2(149)) as int,
        (2 * d + pow2(149)) as int,
        pow2(150) as int,
    );
    vstd::arithmetic::div_mod::lemma_div_pos_is_pos((2 * c + pow2(149)) as int, pow2(150) as int);
}

/// Quantisation keeps the order of numbers: of two finite values, the smaller
/// one never gets the larger whole number.
pub proof fn lemma_quantisation_keeps_order(small: Float32, large: Float32)
    requires
        small.finite(),
        large.finite(),
        small.units() <= large.units(),
    ensures
        quantized(small) <= quantized(large),
{
    lemma_unit_numbers();
    let a = bounded(small);
    let b = bounded(large);
    if a.negative() && b.negative() {
        lemma_magnitudes_keep_order(large, small);
    } else if !a.negative() && !b.negative() {
        lemma_magnitudes_keep_order(small, large);
    } else if a.negative() {
        lemma_magnitudes_keep_order(small, small);
        lemma_magnitudes_keep_order(large, large);
    } else {
        lemma_magnitudes_keep_order(small, small);
        lemma_magnitudes_keep_order(large, large);
        lemma_zero_is_kept(small);
        lemma_zero_is_kept(large);
    }
}

/// A value of zero, of either sign, is kept as zero.
proof fn lemma_zero_is_kept(value: Float32)
    requires
        value.finite(),
        value.units() == 0,
    ensures
        quantized(value) == 0,
{
    lemma_unit_numbers();
    lemma_scaled_magnitude(value);
    lemma2_to64();
    lemma_nearest_exact(0, 0);
    lemma_pow2_pos(149);
    lemma_pow2_adds(1, 149);
    vstd::arithmetic::div_mod::lemma_basic_div(pow2(149) as int, pow2(150) as int);
}

/// The ends of the range are kept exactly: one becomes the scale, the sentinel
/// minus one becomes minus the scale, and zero stays zero.
pub proof fn lemma_sentinel_is_kept()
    ensures
        quantized(Float32 { bits: ONE }) == QUANTIZATION_SCALE,
        quantized(Float32 { bits: MINUS_ONE }) == -QUANTIZATION_SCALE,
        quantized(Float32 { bits: ZERO }) == 0,
{
    lemma_unit_numbers();
    lemma2_to64();
    lemma_zero_is_kept(Float32 { bits: ZERO });
    lemma_scaled_magnitude(Float32 { bits: ONE });
    lemma_scaled_magnitude(Float32 { bits: MINUS_ONE });
    lemma_nearest_exact(10_000, 149);
    lemma_pow2_adds(1, 149);
    lemma_pow2_pos(149);
    let one = pow2(149);
    assert(one * 10_000 == 10_000 * one);
    assert((2 * (10_000 * one) + one) / (2 * one) == 10_000) by (nonlinear_arith)
        requires
            one > 0,
    ;
}

/// Whatever the value, its quantised form lies within the scale.
pub proof fn lemma_quantised_within_scale(value: Float32)
    ensures
        -QUANTIZATION_SCALE <= quantized(value) <= QUANTIZATION_SCALE,
{
    lemma_scaled_magnitude(value);
    lemma_rounds_within(multiple(bounded(value), QUANTIZATION_SCALE as nat), 10_000);
}

/// The quantised form of a vector has a value for every feature, and each is the
/// quantised form of that feature.
pub proof fn lemma_every_feature_is_quantised(vector: Seq<Float32>, quantised: Seq<i16>)
    requires
        quantized_vector(vector, quantised),
    ensures
        quantised.len() == vector.len(),
        forall|i: int| 0 <= i < vector.len() ==> #[trigger] quantised[i] == quantized(vector[i]),
{
}

} // verus!
