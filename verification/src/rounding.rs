//! What single-precision arithmetic is for: every result is the number that is
//! nearest to the exact one.
use crate::float32::{
    bounded, clamped01, half_even, infinity_units, lemma_assembled, lemma_assembled_pattern,
    lemma_doubles, lemma_nearest_is_number, lemma_patterns_are_ordered, lemma_rounded_significand,
    lemma_shift_monotone, lemma_shift_twice, lemma_spacing_holds, lemma_unit_numbers, multiple,
    nearest_integer, nearest_to_integer, nearest_units, pattern_units, quotient, signed, spacing,
    Float32, INFINITY,
};
use crate::quantize::quantized;
use vstd::arithmetic::power2::{lemma2_to64, lemma_pow2_adds, lemma_pow2_pos, pow2};
use vstd::prelude::*;

verus! {

/// How far apart two whole numbers are.
pub open spec fn off(a: int, b: int) -> int {
    if a < b {
        b - a
    } else {
        a - b
    }
}

/// A large magnitude is a whole multiple of the spacing below it.
proof fn lemma_multiple_of_spacing(pattern: nat, exponent: nat) -> (count: nat)
    requires
        pattern_units(pattern) >= 0x0080_0000 * pow2(exponent),
    ensures
        pattern_units(pattern) == count * pow2(exponent),
{
    lemma2_to64();
    let binade = pattern / 0x0080_0000;
    let fraction = pattern % 0x0080_0000;
    lemma_pow2_pos(exponent);
    if binade == 0 {
        lemma_shift_monotone(0x0080_0000, 0, exponent);
        assert(false);
        0
    } else {
        let high = (binade - 1) as nat;
        if high < exponent {
            lemma_shift_monotone(0x0100_0000, high, (exponent - 1) as nat);
            lemma_doubles((exponent - 1) as nat);
            lemma_pow2_pos(high);
            assert((fraction + 0x0080_0000) * pow2(high) < 0x0100_0000 * pow2(high))
                by (nonlinear_arith)
                requires
                    fraction < 0x0080_0000,
                    pow2(high) > 0,
            ;
            assert(false);
        }
        let rest = (high - exponent) as nat;
        lemma_shift_twice(fraction + 0x0080_0000, rest, exponent);
        (fraction + 0x0080_0000) * pow2(rest)
    }
}

/// No magnitude lies between two that are one spacing apart around a quotient.
proof fn lemma_no_magnitude_between(num: nat, den: nat, pattern: nat)
    requires
        den > 0,
    ensures
        ({
            let step = pow2(spacing(num, den));
            let floor = num / (den * step);
            &&& den * step > 0
            &&& pattern_units(pattern) <= floor * step || pattern_units(pattern) >= (floor + 1)
                * step
        }),
{
    lemma2_to64();
    let exponent = spacing(num, den);
    let step = pow2(exponent);
    let unit = den * step;
    let units = pattern_units(pattern);
    lemma_pow2_pos(exponent);
    assert(unit > 0) by (nonlinear_arith)
        requires
            den > 0,
            step > 0,
            unit == den * step,
    ;
    let floor = num / unit;
    if units > floor * step {
        if exponent == 0 {
            assert(floor * step == floor && (floor + 1) * step == floor + 1) by (nonlinear_arith)
                requires
                    step == 1,
            ;
        } else {
            lemma_spacing_holds(num, den);
            lemma_shift_twice(den, exponent, 23);
            assert(floor >= 0x0080_0000) by (nonlinear_arith)
                requires
                    floor == num / unit,
                    unit > 0,
                    num >= unit * 0x0080_0000,
            ;
            assert(floor * step >= 0x0080_0000 * step) by (nonlinear_arith)
                requires
                    floor >= 0x0080_0000,
            ;
            let count = lemma_multiple_of_spacing(pattern, exponent);
            assert(count >= floor + 1) by (nonlinear_arith)
                requires
                    count * step > floor * step,
                    step > 0,
            ;
            assert(count * step >= (floor + 1) * step) by (nonlinear_arith)
                requires
                    count >= floor + 1,
            ;
        }
    }
}

/// No magnitude is nearer to a quotient than the one that it is rounded to; if
/// another is equally near, the significand is even.
proof fn lemma_nearest_magnitude(num: nat, den: nat, pattern: nat)
    requires
        den > 0,
        nearest_units(num, den) < infinity_units(),
    ensures
        ({
            let rounded = nearest_units(num, den);
            let units = pattern_units(pattern);
            &&& off(num as int, (den * rounded) as int) <= off(num as int, (den * units) as int)
            &&& off(num as int, (den * rounded) as int) == off(num as int, (den * units) as int)
                && units != rounded ==> half_even(num, den * pow2(spacing(num, den))) % 2 == 0
        }),
{
    let step = pow2(spacing(num, den));
    let unit = den * step;
    lemma_no_magnitude_between(num, den, pattern);
    let floor = num / unit;
    let rest = num % unit;
    vstd::arithmetic::div_mod::lemma_fundamental_div_mod(num as int, unit as int);
    let units = pattern_units(pattern);
    let significand = half_even(num, unit);
    let rounded = significand * step;
    assert(den * rounded == unit * significand) by (nonlinear_arith)
        requires
            rounded == significand * step,
            unit == den * step,
    ;
    assert(unit * (floor + 1) == unit * floor + unit) by (nonlinear_arith);
    if units <= floor * step {
        assert(den * units <= unit * floor) by (nonlinear_arith)
            requires
                units <= floor * step,
                unit == den * step,
        ;
        if den * units == unit * floor {
            assert(units == floor * step) by (nonlinear_arith)
                requires
                    den * units == unit * floor,
                    unit == den * step,
                    den > 0,
            ;
        }
    } else {
        assert(den * units >= unit * (floor + 1)) by (nonlinear_arith)
            requires
                units >= (floor + 1) * step,
                unit == den * step,
        ;
        if den * units == unit * (floor + 1) {
            assert(units == (floor + 1) * step) by (nonlinear_arith)
                requires
                    den * units == unit * (floor + 1),
                    unit == den * step,
                    den > 0,
            ;
        }
    }
}

/// A quotient is rounded to infinity just when it is at least half a spacing
/// above the largest finite number.
proof fn lemma_overflow(num: nat, den: nat)
    requires
        den > 0,
    ensures
        nearest_units(num, den) == infinity_units() <==> 2 * num >= den * (0x01ff_ffff * pow2(
            253,
        )),
        nearest_units(num, den) <= infinity_units(),
{
    lemma2_to64();
    let exponent = spacing(num, den);
    let step = pow2(exponent);
    let unit = den * step;
    let significand = half_even(num, unit);
    let top = pow2(253);
    lemma_pow2_pos(253);
    lemma_pow2_pos(exponent);
    lemma_pow2_adds(24, 253);
    lemma_spacing_holds(num, den);
    lemma_rounded_significand(num, den);
    lemma_shift_twice(den, exponent, 24);
    assert(unit > 0) by (nonlinear_arith)
        requires
            den > 0,
            step > 0,
            unit == den * step,
    ;
    if exponent < 253 {
        lemma_doubles(252);
        lemma_shift_monotone(1, exponent, 252);
        assert(significand * step < 0x0100_0000 * top) by (nonlinear_arith)
            requires
                significand <= 0x0100_0000,
                2 * step <= top,
                step > 0,
        ;
        assert(2 * num < den * (0x01ff_ffff * top)) by (nonlinear_arith)
            requires
                num < unit * 0x0100_0000,
                unit == den * step,
                2 * step <= top,
                top > 0,
                den > 0,
        ;
    } else if exponent == 253 {
        vstd::arithmetic::div_mod::lemma_fundamental_div_mod(num as int, unit as int);
        let floor = num / unit;
        let rest = num % unit;
        assert(den * (0x01ff_ffff * top) == 0x01ff_ffff * unit) by (nonlinear_arith)
            requires
                unit == den * top,
        ;
        assert(floor < 0x0100_0000) by (nonlinear_arith)
            requires
                floor == num / unit,
                unit > 0,
                num < unit * 0x0100_0000,
        ;
        if floor < 0x00ff_ffff {
            assert(unit * floor <= unit * 0x00ff_fffe) by (nonlinear_arith)
                requires
                    floor <= 0x00ff_fffe,
                    unit > 0,
            ;
            assert(significand < 0x0100_0000);
            assert(2 * num < 0x01ff_ffff * unit);
        } else {
            assert(unit * floor == 0x00ff_ffff * unit) by (nonlinear_arith)
                requires
                    floor == 0x00ff_ffff,
            ;
            assert(2 * num >= 0x01ff_ffff * unit <==> 2 * rest >= unit);
            assert(significand == 0x0100_0000 <==> 2 * rest >= unit);
        }
        assert(significand < 0x0100_0000 ==> significand * top < 0x0100_0000 * top)
            by (nonlinear_arith)
            requires
                top > 0,
        ;
    } else {
        lemma_doubles(253);
        lemma_shift_monotone(1, 254, exponent);
        assert(significand * step >= 0x0100_0000 * top) by (nonlinear_arith)
            requires
                significand >= 0x0080_0000,
                step >= 2 * top,
                top > 0,
        ;
        lemma_shift_twice(den, exponent, 23);
        assert(2 * num >= den * (0x01ff_ffff * top)) by (nonlinear_arith)
            requires
                num >= unit * 0x0080_0000,
                unit == den * step,
                step >= 2 * top,
                top > 0,
                den > 0,
        ;
    }
}

/// Whether a number is what `num / den` units, with a sign, are rounded to: no
/// finite number is nearer, and where another is as near the pattern is even.
/// Beyond the largest finite number and half its spacing it is infinite.
pub open spec fn rounds(number: Float32, negative: bool, num: nat, den: nat) -> bool {
    let exact: int = if negative {
        -(num as int)
    } else {
        num as int
    };
    &&& number.negative() == negative
    &&& !number.nan()
    &&& number.finite() <==> 2 * num < den * (0x01ff_ffff * pow2(253))
    &&& number.finite() ==> forall|other: Float32| #[trigger]
        other.finite() ==> off(exact, den * number.units()) <= off(exact, den * other.units())
            && (off(exact, den * number.units()) == off(exact, den * other.units())
            && other.units() != number.units() ==> number.bits % 2 == 0)
}

/// Infinity is the number with the units that follow the largest finite number.
proof fn lemma_infinite(number: Float32)
    requires
        !number.nan(),
    ensures
        number.finite() <==> pattern_units(number.pattern()) < infinity_units(),
{
    lemma2_to64();
    lemma_pow2_adds(23, 254);
    lemma_assembled(0x0080_0000, 254, Float32 { bits: INFINITY });
    if number.pattern() < INFINITY {
        lemma_patterns_are_ordered(number.pattern(), INFINITY as nat);
    }
}

/// The number with the nearest magnitude is what a quotient is rounded to.
pub proof fn lemma_nearest_rounds(negative: bool, num: nat, den: nat)
    requires
        den > 0,
    ensures
        rounds(signed(negative, nearest_units(num, den)), negative, num, den),
{
    let number = signed(negative, nearest_units(num, den));
    let exact: int = if negative {
        -(num as int)
    } else {
        num as int
    };
    lemma_nearest_is_number(negative, num, den);
    lemma_infinite(number);
    lemma_overflow(num, den);
    let rounded = nearest_units(num, den);
    if number.finite() {
        let exponent = spacing(num, den);
        let significand = half_even(num, den * pow2(exponent));
        lemma_rounded_significand(num, den);
        lemma_assembled_pattern(significand, exponent);
        let assembled = exponent * 0x0080_0000 + significand;
        if assembled < number.pattern() {
            lemma_patterns_are_ordered(assembled, number.pattern());
        }
        if number.pattern() < assembled {
            lemma_patterns_are_ordered(number.pattern(), assembled);
        }
        assert(assembled == number.pattern());
        assert forall|other: Float32| #[trigger] other.finite() implies off(
            exact,
            den * number.units(),
        ) <= off(exact, den * other.units()) && (off(exact, den * number.units()) == off(
            exact,
            den * other.units(),
        ) && other.units() != number.units() ==> number.bits % 2 == 0) by {
            let units = pattern_units(other.pattern());
            lemma_nearest_magnitude(num, den, other.pattern());
            lemma_nearest_magnitude(num, den, 0);
            assert(den * 0 == 0);
            assert(den * (-(rounded as int)) == -(den * rounded)) by (nonlinear_arith);
            assert(den * (-(units as int)) == -(den * units)) by (nonlinear_arith);
            assert(den * units >= 0 && den * rounded >= 0) by (nonlinear_arith);
            if other.negative() != negative {
                assert(den * units > 0 || units == 0) by (nonlinear_arith)
                    requires
                        den > 0,
                ;
            }
        }
    }
}

/// The magnitudes start at zero, and each is followed by the next at a distance
/// that is the same within a binade and doubles from one to the next.
pub proof fn lemma_magnitudes_step(pattern: nat)
    ensures
        pattern_units(0) == 0,
        pattern_units(pattern + 1) == pattern_units(pattern) + pow2(
            (if pattern / 0x0080_0000 == 0 {
                0
            } else {
                pattern / 0x0080_0000 - 1
            }) as nat,
        ),
{
    lemma2_to64();
    let binade = pattern / 0x0080_0000;
    let fraction = pattern % 0x0080_0000;
    if fraction < 0x007f_ffff {
        assert((pattern + 1) / 0x0080_0000 == binade);
        assert((pattern + 1) % 0x0080_0000 == fraction + 1);
        if binade > 0 {
            let power = pow2((binade - 1) as nat);
            assert((fraction + 1 + 0x0080_0000) * power == (fraction + 0x0080_0000) * power
                + power) by (nonlinear_arith);
        }
    } else {
        assert((pattern + 1) / 0x0080_0000 == binade + 1);
        assert((pattern + 1) % 0x0080_0000 == 0);
        if binade > 0 {
            lemma_doubles((binade - 1) as nat);
            let power = pow2((binade - 1) as nat);
            let double = pow2(binade);
            assert(((binade - 1) as nat) + 1 == binade);
            assert(((binade + 1) - 1) as nat == binade);
            assert(pattern_units(pattern + 1) == 0x0080_0000 * double);
            assert(pattern_units(pattern) == 0x00ff_ffff * power);
        }
    }
}

/// What the bits of a pattern say: the sign is the highest, and the numbers
/// that are finite are those whose exponent is not all ones.
pub proof fn lemma_kinds(number: Float32)
    ensures
        number.negative() <==> number.bits >= 0x8000_0000,
        number.pattern() == number.bits % 0x8000_0000,
        number.finite() <==> number.bits / 0x0080_0000 % 256 != 255,
        number.nan() <==> number.bits / 0x0080_0000 % 256 == 255 && number.bits % 0x0080_0000 != 0,
        number.positive() <==> 0 < number.bits < 0x7f80_0000,
        number.negative() ==> number.units() == -pattern_units(number.pattern()),
        !number.negative() ==> number.units() == pattern_units(number.pattern()),
{
    if 0 < number.pattern() {
        lemma_patterns_are_ordered(0, number.pattern());
    }
}

/// Of two numbers either one is less than the other or they are equal. Without
/// signs the patterns are compared; with two of them, the other way round; zero
/// has no sign that counts. What is not a number compares as neither.
pub proof fn lemma_comparison(a: Float32, b: Float32)
    ensures
        a.nan() || b.nan() ==> !a.precedes(b) && !a.equals(b),
        !a.nan() && !b.nan() ==> {
            let x = a.bits % 0x8000_0000;
            let y = b.bits % 0x8000_0000;
            &&& a.bits < 0x8000_0000 && b.bits < 0x8000_0000 ==> (a.precedes(b) <==> x < y)
            &&& a.bits >= 0x8000_0000 && b.bits >= 0x8000_0000 ==> (a.precedes(b) <==> y < x)
            &&& a.bits >= 0x8000_0000 && b.bits < 0x8000_0000 ==> (a.precedes(b) <==> x != 0 || y
                != 0)
            &&& a.bits < 0x8000_0000 && b.bits >= 0x8000_0000 ==> !a.precedes(b)
            &&& a.equals(b) <==> a.bits == b.bits || x == 0 && y == 0
            &&& a.equals(b) <==> !a.precedes(b) && !b.precedes(a)
        },
{
    lemma_kinds(a);
    lemma_kinds(b);
    if a.pattern() < b.pattern() {
        lemma_patterns_are_ordered(a.pattern(), b.pattern());
    }
    if b.pattern() < a.pattern() {
        lemma_patterns_are_ordered(b.pattern(), a.pattern());
    }
    if 0 < a.pattern() {
        lemma_patterns_are_ordered(0, a.pattern());
    }
    if 0 < b.pattern() {
        lemma_patterns_are_ordered(0, b.pattern());
    }
}

/// A quotient by a positive number is the number nearest to the exact quotient.
/// What is not finite stays as it is.
pub proof fn lemma_quotient_is_nearest(dividend: Float32, divisor: Float32)
    requires
        divisor.positive(),
    ensures
        dividend.finite() ==> rounds(
            quotient(dividend, divisor),
            dividend.negative(),
            (off(dividend.units(), 0) * pow2(149)) as nat,
            divisor.units() as nat,
        ),
        !dividend.finite() ==> quotient(dividend, divisor) == dividend,
{
    if dividend.finite() {
        let num = pattern_units(dividend.pattern()) * pow2(149);
        lemma_nearest_rounds(dividend.negative(), num, pattern_units(divisor.pattern()));
        assert(pattern_units(dividend.pattern()) == off(dividend.units(), 0));
    }
}

/// Whether a number is what a whole number is rounded to.
pub open spec fn converts(number: Float32, value: int) -> bool {
    rounds(number, value < 0, (off(value, 0) * pow2(149)) as nat, 1)
}

/// A whole number becomes the number nearest to it.
pub proof fn lemma_conversion_is_nearest(value: int)
    ensures
        converts(nearest_to_integer(value), value),
{
    lemma_nearest_rounds(value < 0, (off(value, 0) * pow2(149)) as nat, 1);
}

/// A product with a whole number is the number nearest to the exact product.
pub proof fn lemma_product_is_nearest(value: Float32, factor: nat)
    requires
        value.finite(),
    ensures
        rounds(
            multiple(value, factor),
            value.negative(),
            (off(value.units(), 0) * factor) as nat,
            1,
        ),
{
    lemma_nearest_rounds(value.negative(), pattern_units(value.pattern()) * factor, 1);
    assert(pattern_units(value.pattern()) == off(value.units(), 0));
}

/// Whether a whole number is what a number is rounded to: none is nearer, and of
/// two that are equally near it is the one farther from zero.
pub open spec fn rounds_to_whole(number: Float32, whole: int) -> bool {
    let apart = off(number.units(), whole * pow2(149));
    &&& 2 * apart <= pow2(149)
    &&& 2 * apart == pow2(149) ==> off(whole * pow2(149), 0) > off(number.units(), 0)
}

/// A finite number is rounded to the whole number nearest to it, halves away
/// from zero.
pub proof fn lemma_whole_number_is_nearest(number: Float32)
    ensures
        rounds_to_whole(number, nearest_integer(number)),
{
    let units = pattern_units(number.pattern());
    let one = pow2(149);
    lemma_pow2_pos(149);
    lemma_doubles(149);
    let sum = 2 * units + one;
    let whole = sum / (2 * one);
    vstd::arithmetic::div_mod::lemma_fundamental_div_mod(sum as int, 2 * one as int);
    assert((2 * one) * whole == 2 * (whole * one)) by (nonlinear_arith);
    assert(whole * one >= 0) by (nonlinear_arith);
    assert((-(whole as int)) * one == -(whole * one)) by (nonlinear_arith);
}

/// Whether a number is the one nearest to another within a range, given in
/// units; zero where the other is not finite.
pub open spec fn held_within(held: Float32, value: Float32, low: int, high: int) -> bool {
    &&& held.finite()
    &&& low <= held.units() <= high
    &&& !value.finite() ==> held.bits == 0
    &&& value.finite() ==> forall|other: Float32| #[trigger]
        other.finite() && low <= other.units() <= high ==> off(value.units(), held.units())
            <= off(value.units(), other.units())
}

/// Clamping gives the nearest number from zero to one, and never a negative zero.
pub proof fn lemma_clamping_is_nearest(value: Float32)
    ensures
        held_within(clamped01(value), value, 0, pow2(149) as int),
        !clamped01(value).negative(),
{
    lemma_unit_numbers();
}

/// Bounding gives the nearest number from minus one to one, and keeps the sign.
pub proof fn lemma_bounding_is_nearest(value: Float32)
    ensures
        held_within(bounded(value), value, -pow2(149), pow2(149) as int),
        value.finite() ==> bounded(value).negative() == value.negative(),
{
    lemma_unit_numbers();
}

/// A feature is quantised in three steps: it is held between minus one and one,
/// multiplied by ten thousand in single precision, and rounded to a whole number.
pub proof fn lemma_quantisation_is_nearest(value: Float32)
    ensures
        exists|held: Float32, scaled: Float32|
            {
                &&& #[trigger] held_within(held, value, -pow2(149), pow2(149) as int)
                &&& #[trigger] rounds(
                    scaled,
                    held.negative(),
                    (off(held.units(), 0) * 10_000) as nat,
                    1,
                )
                &&& rounds_to_whole(scaled, quantized(value))
            },
{
    let held = bounded(value);
    let scaled = multiple(held, 10_000);
    lemma_bounding_is_nearest(value);
    lemma_product_is_nearest(held, 10_000);
    lemma_whole_number_is_nearest(scaled);
}

} // verus!
