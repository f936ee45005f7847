//! Single-precision numbers, held as their IEEE 754 bit patterns.
//!
//! The magnitude of every number is a whole multiple of the smallest positive
//! one, two to the power of -149. That multiple, the number's `units`, is the
//! mathematical model of a number here, and rounding is stated on it.
use vstd::arithmetic::power2::{
    lemma2_to64, lemma_pow2_adds, lemma_pow2_pos, lemma_pow2_strictly_increases,
    lemma_pow2_unfold, pow2,
};
use vstd::prelude::*;

verus! {

/// The first pattern with the sign bit set.
pub const SIGN: u32 = 0x8000_0000;

/// The pattern of positive infinity; the patterns between it and `SIGN` are
/// not numbers.
pub const INFINITY: u32 = 0x7f80_0000;

/// The number of patterns that share one exponent.
pub const BINADE: u32 = 0x0080_0000;

/// A single-precision number as its bit pattern. Compared with `==`, numbers are
/// equal as numbers: the two zeros are, and what is not a number equals nothing.
#[derive(Clone, Copy, Debug)]
pub struct Float32 {
    pub bits: u32,
}

/// The pattern of zero.
pub const ZERO: u32 = 0;

/// The pattern of one.
pub const ONE: u32 = 0x3f80_0000;

/// The pattern of minus one.
pub const MINUS_ONE: u32 = 0xbf80_0000;

/// The pattern of one half.
pub const HALF: u32 = 0x3f00_0000;

/// The magnitude of an unsigned pattern, as a multiple of the smallest
/// positive number. Infinity counts as the power of two that follows the
/// largest finite number.
pub open spec fn pattern_units(pattern: nat) -> nat {
    let exponent = pattern / 0x0080_0000;
    let fraction = pattern % 0x0080_0000;
    if exponent == 0 {
        fraction
    } else {
        (fraction + 0x0080_0000) * pow2((exponent - 1) as nat)
    }
}

/// The units of the number one.
pub open spec fn one_units() -> nat {
    pow2(149)
}

/// The units from which on a rounded magnitude is infinite.
pub open spec fn infinity_units() -> nat {
    pow2(277)
}

/// The exponent of the distance between neighbouring numbers around `num / den`
/// units: the least `e` for which `num / den` is below two to the power of `24 + e`.
pub open spec fn spacing(num: nat, den: nat) -> nat
    decreases (if num >= den * pow2(24) { num - den * pow2(24) + 1 } else { 0 }),
{
    if den == 0 || num < den * pow2(24) {
        0
    } else {
        proof {
            lemma_pow2_pos(24);
            assert(2 * den * pow2(24) > den * pow2(24)) by (nonlinear_arith)
                requires
                    den > 0,
                    pow2(24) > 0,
            ;
        }
        1 + spacing(num, 2 * den)
    }
}

/// The whole number nearest to `num / den`; of two equally near, the even one.
pub open spec fn half_even(num: nat, den: nat) -> nat {
    let floor = num / den;
    let rest = num % den;
    if 2 * rest < den {
        floor
    } else if 2 * rest > den {
        floor + 1
    } else {
        floor + floor % 2
    }
}

/// The units of the single-precision magnitude nearest to `num / den` units;
/// of two equally near, the one with the even significand.
pub open spec fn nearest_units(num: nat, den: nat) -> nat {
    let step = pow2(spacing(num, den));
    let rounded = half_even(num, den * step) * step;
    if rounded < infinity_units() {
        rounded
    } else {
        infinity_units()
    }
}

impl Float32 {
    /// The pattern without its sign.
    pub open spec fn pattern(self) -> nat {
        (self.bits % 0x8000_0000) as nat
    }

    pub open spec fn negative(self) -> bool {
        self.bits >= 0x8000_0000
    }

    pub open spec fn nan(self) -> bool {
        self.pattern() > 0x7f80_0000
    }

    pub open spec fn finite(self) -> bool {
        self.pattern() < 0x7f80_0000
    }

    /// The number itself, in units; meaningful unless `nan`.
    pub open spec fn units(self) -> int {
        if self.negative() {
            -(pattern_units(self.pattern()) as int)
        } else {
            pattern_units(self.pattern()) as int
        }
    }

    /// A finite number above zero.
    pub open spec fn positive(self) -> bool {
        self.finite() && self.units() > 0
    }

    /// Whether two numbers compare as less; false where either is not a number.
    pub open spec fn precedes(self, other: Float32) -> bool {
        !self.nan() && !other.nan() && self.units() < other.units()
    }

    /// Whether two numbers compare as equal; false where either is not a number.
    pub open spec fn equals(self, other: Float32) -> bool {
        !self.nan() && !other.nan() && self.units() == other.units()
    }

    /// Whether this is a finite number.
    pub fn is_finite(self) -> (answer: bool)
        ensures
            answer == self.finite(),
    {
        self.bits % SIGN < INFINITY
    }

    /// Whether this is a finite number above zero.
    pub fn is_positive(self) -> (answer: bool)
        ensures
            answer == self.positive(),
    {
        proof {
            if 0 < self.pattern() {
                lemma_patterns_are_ordered(0, self.pattern());
            }
        }
        0 < self.bits && self.bits < INFINITY
    }

    /// Whether this number is less than another.
    pub fn is_less(self, other: Float32) -> (answer: bool)
        ensures
            answer == self.precedes(other),
    {
        let left: u32 = self.bits % SIGN;
        let right: u32 = other.bits % SIGN;
        proof {
            if left < right {
                lemma_patterns_are_ordered(left as nat, right as nat);
            }
            if right < left {
                lemma_patterns_are_ordered(right as nat, left as nat);
            }
            if 0 < left {
                lemma_patterns_are_ordered(0, left as nat);
            }
            if 0 < right {
                lemma_patterns_are_ordered(0, right as nat);
            }
        }
        if left > INFINITY || right > INFINITY {
            false
        } else if self.bits < SIGN && other.bits < SIGN {
            left < right
        } else if self.bits < SIGN {
            false
        } else if other.bits < SIGN {
            left > 0 || right > 0
        } else {
            left > right
        }
    }
}

impl PartialEq for Float32 {
    fn eq(&self, other: &Float32) -> (answer: bool) {
        let left: u32 = self.bits % SIGN;
        let right: u32 = other.bits % SIGN;
        proof {
            if left < right {
                lemma_patterns_are_ordered(left as nat, right as nat);
            }
            if right < left {
                lemma_patterns_are_ordered(right as nat, left as nat);
            }
            if 0 < left {
                lemma_patterns_are_ordered(0, left as nat);
            }
        }
        if left > INFINITY || right > INFINITY {
            false
        } else {
            self.bits == other.bits || left == 0 && right == 0
        }
    }
}

impl vstd::std_specs::cmp::PartialEqSpecImpl for Float32 {
    open spec fn obeys_eq_spec() -> bool {
        true
    }

    open spec fn eq_spec(&self, other: &Float32) -> bool {
        self.equals(*other)
    }
}

/// Brings a number into the range from zero to one; what is not finite becomes zero.
pub open spec fn clamped01(value: Float32) -> Float32 {
    if !value.finite() || value.units() <= 0 {
        Float32 { bits: ZERO }
    } else if value.units() >= one_units() {
        Float32 { bits: ONE }
    } else {
        value
    }
}

/// Brings a number into the range from zero to one; what is not finite becomes zero.
pub fn clamp01(value: Float32) -> (clamped: Float32)
    ensures
        clamped == clamped01(value),
{
    proof {
        lemma_unit_numbers();
        if (ONE as nat) < value.pattern() {
            lemma_patterns_are_ordered(ONE as nat, value.pattern());
        }
        if value.pattern() < ONE as nat {
            lemma_patterns_are_ordered(value.pattern(), ONE as nat);
        }
    }
    if !value.is_positive() {
        Float32 { bits: ZERO }
    } else if value.bits >= ONE {
        Float32 { bits: ONE }
    } else {
        value
    }
}

/// Brings a number into the range from minus one to one; what is not finite
/// becomes zero.
pub open spec fn bounded(value: Float32) -> Float32 {
    if !value.finite() {
        Float32 { bits: ZERO }
    } else if value.units() > one_units() {
        Float32 { bits: ONE }
    } else if value.units() < -(one_units() as int) {
        Float32 { bits: MINUS_ONE }
    } else {
        value
    }
}

/// Brings a number into the range from minus one to one; what is not finite
/// becomes zero.
pub fn bound(value: Float32) -> (held: Float32)
    ensures
        held == bounded(value),
{
    let pattern: u32 = value.bits % SIGN;
    proof {
        lemma_unit_numbers();
        if (ONE as nat) < value.pattern() {
            lemma_patterns_are_ordered(ONE as nat, value.pattern());
        }
        if value.pattern() < ONE as nat {
            lemma_patterns_are_ordered(value.pattern(), ONE as nat);
        }
    }
    if pattern >= INFINITY {
        Float32 { bits: ZERO }
    } else if pattern <= ONE {
        value
    } else if value.bits < SIGN {
        Float32 { bits: ONE }
    } else {
        Float32 { bits: MINUS_ONE }
    }
}

/// The units of the named numbers.
pub proof fn lemma_unit_numbers()
    ensures
        (Float32 { bits: ZERO }).finite(),
        (Float32 { bits: ZERO }).units() == 0,
        (Float32 { bits: ONE }).finite(),
        (Float32 { bits: ONE }).units() == one_units(),
        (Float32 { bits: MINUS_ONE }).finite(),
        (Float32 { bits: MINUS_ONE }).units() == -(one_units() as int),
        (Float32 { bits: HALF }).finite(),
        2 * (Float32 { bits: HALF }).units() == one_units(),
        one_units() > 0,
{
    lemma2_to64();
    lemma_pow2_adds(23, 126);
    lemma_doubles(125);
    assert(pattern_units(HALF as nat) == 0x0080_0000 * pow2(125));
    lemma_pow2_pos(149);
}

/// A larger pattern stands for a larger magnitude.
pub proof fn lemma_patterns_are_ordered(small: nat, large: nat)
    requires
        small < large,
    ensures
        pattern_units(small) < pattern_units(large),
{
    let se: nat = small / 0x0080_0000;
    let sf: nat = small % 0x0080_0000;
    let le: nat = large / 0x0080_0000;
    let lf: nat = large % 0x0080_0000;
    if le > 0 {
        lemma_pow2_pos((le - 1) as nat);
        let lp = pow2((le - 1) as nat);
        assert((lf + 0x0080_0000) * lp >= 0x0080_0000 * lp) by (nonlinear_arith)
            requires
                lf >= 0,
                lp > 0,
        ;
        if se > 0 {
            let sp = pow2((se - 1) as nat);
            lemma_pow2_pos((se - 1) as nat);
            if se == le {
                assert((sf + 0x0080_0000) * sp < (lf + 0x0080_0000) * sp) by (nonlinear_arith)
                    requires
                        sf < lf,
                        sp > 0,
                ;
            } else {
                lemma_pow2_unfold(se);
                if se < le - 1 {
                    lemma_pow2_strictly_increases(se, (le - 1) as nat);
                }
                assert((sf + 0x0080_0000) * sp < 0x0100_0000 * sp) by (nonlinear_arith)
                    requires
                        sf < 0x0080_0000,
                        sp > 0,
                ;
            }
        }
    }
}

/// Numbers with the same units and the same sign are the same pattern.
pub proof fn lemma_units_identify(a: Float32, b: Float32)
    requires
        a.units() == b.units(),
        a.negative() == b.negative(),
    ensures
        a == b,
{
    if a.pattern() < b.pattern() {
        lemma_patterns_are_ordered(a.pattern(), b.pattern());
    }
    if b.pattern() < a.pattern() {
        lemma_patterns_are_ordered(b.pattern(), a.pattern());
    }
}

/// The spacing around a quotient that lies in a known binade.
proof fn lemma_spacing(num: nat, den: nat, exponent: nat)
    requires
        den > 0,
        num < den * pow2(24 + exponent),
        exponent > 0 ==> num >= den * pow2((23 + exponent) as nat),
    ensures
        spacing(num, den) == exponent,
    decreases exponent,
{
    if exponent > 0 {
        lemma_pow2_unfold(24 + exponent);
        if exponent > 1 {
            lemma_pow2_strictly_increases(24, (23 + exponent) as nat);
        }
        let p = pow2((23 + exponent) as nat);
        assert(den * p >= den * pow2(24)) by (nonlinear_arith)
            requires
                p >= pow2(24),
        ;
        assert(den * (2 * p) == (2 * den) * p) by (nonlinear_arith);
        if exponent > 1 {
            lemma_pow2_unfold((23 + exponent) as nat);
            let q = pow2((22 + exponent) as nat);
            assert(den * (2 * q) == (2 * den) * q) by (nonlinear_arith);
        }
        lemma_spacing(num, 2 * den, (exponent - 1) as nat);
    }
}

/// Rounding a quotient to a whole number does not depend on a common factor.
proof fn lemma_half_even_scales(num: nat, den: nat, factor: nat)
    requires
        den > 0,
        factor > 0,
    ensures
        half_even(num * factor, den * factor) == half_even(num, den),
{
    let floor: nat = num / den;
    let rest: nat = num % den;
    assert(num == den * floor + rest) by {
        vstd::arithmetic::div_mod::lemma_fundamental_div_mod(num as int, den as int);
    }
    assert(num * factor == floor * (den * factor) + rest * factor) by (nonlinear_arith)
        requires
            num == den * floor + rest,
    ;
    assert(0 <= rest * factor < den * factor) by (nonlinear_arith)
        requires
            0 <= rest < den,
            factor > 0,
    ;
    vstd::arithmetic::div_mod::lemma_fundamental_div_mod_converse(
        (num * factor) as int,
        (den * factor) as int,
        floor as int,
        (rest * factor) as int,
    );
    assert(2 * rest < den ==> 2 * (rest * factor) < den * factor) by (nonlinear_arith)
        requires
            factor > 0,
    ;
    assert(2 * rest > den ==> 2 * (rest * factor) > den * factor) by (nonlinear_arith)
        requires
            factor > 0,
    ;
    assert(2 * rest == den ==> 2 * (rest * factor) == den * factor) by (nonlinear_arith);
}

/// A product with a power of two is monotone in the exponent.
pub(crate) proof fn lemma_shift_monotone(value: nat, small: nat, large: nat)
    requires
        small <= large,
    ensures
        value * pow2(small) <= value * pow2(large),
{
    if small < large {
        lemma_pow2_strictly_increases(small, large);
    }
    assert(value * pow2(small) <= value * pow2(large)) by (nonlinear_arith)
        requires
            pow2(small) <= pow2(large),
    ;
}

/// Two factors that are powers of two are one factor.
pub(crate) proof fn lemma_shift_twice(value: nat, first: nat, second: nat)
    ensures
        (value * pow2(first)) * pow2(second) == value * pow2(first + second),
{
    lemma_pow2_adds(first, second);
    assert((value * pow2(first)) * pow2(second) == value * (pow2(first) * pow2(second)))
        by (nonlinear_arith);
}

/// Multiplies by a power of two.
fn shift_up(value: u128, by: u32) -> (shifted: u128)
    requires
        value * pow2(by as nat) <= u128::MAX,
    ensures
        shifted == value * pow2(by as nat),
{
    let mut shifted: u128 = value;
    let mut done: u32 = 0;
    proof {
        lemma2_to64();
    }
    while done < by
        invariant
            done <= by,
            shifted == value * pow2(done as nat),
            value * pow2(by as nat) <= u128::MAX,
        decreases by - done,
    {
        proof {
            lemma_shift_monotone(value as nat, (done + 1) as nat, by as nat);
            lemma_pow2_unfold((done + 1) as nat);
            assert(value * (2 * pow2(done as nat)) == 2 * (value * pow2(done as nat)))
                by (nonlinear_arith);
        }
        shifted = shifted * 2;
        done = done + 1;
    }
    shifted
}

/// The number of times `den` can be doubled before it exceeds `num`.
fn quotient_length(num: u128, den: u128) -> (length: u32)
    requires
        0 < den <= num,
        num < pow2(90),
    ensures
        0 < length <= 90,
        den * pow2(length as nat) > num,
        den * pow2((length - 1) as nat) <= num,
{
    let mut scaled: u128 = den;
    let mut length: u32 = 0;
    proof {
        lemma2_to64();
        lemma_pow2_adds(64, 26);
        lemma_shift_monotone(1, 0, 90);
    }
    while scaled <= num
        invariant
            0 < den <= num,
            num < pow2(90),
            pow2(90) == 0x1_0000_0000_0000_0000 * 0x400_0000,
            scaled == den * pow2(length as nat),
            length > 0 ==> den * pow2((length - 1) as nat) <= num,
            length <= 90,
        decreases 2 * num - scaled,
    {
        proof {
            if length >= 90 {
                lemma_shift_monotone(1, 90, length as nat);
                assert(den * pow2(length as nat) >= pow2(length as nat)) by (nonlinear_arith)
                    requires
                        den >= 1,
                ;
            }
            lemma_pow2_unfold((length + 1) as nat);
            assert(den * (2 * pow2(length as nat)) == 2 * (den * pow2(length as nat)))
                by (nonlinear_arith);
            lemma_pow2_pos(length as nat);
            assert(den * pow2(length as nat) > 0) by (nonlinear_arith)
                requires
                    den > 0,
                    pow2(length as nat) > 0,
            ;
        }
        scaled = scaled * 2;
        length = length + 1;
    }
    proof {
        assert(den * pow2(0) == den) by (nonlinear_arith)
            requires
                pow2(0) == 1,
        ;
    }
    length
}

/// Each power of two is twice the one before.
pub(crate) proof fn lemma_doubles(exponent: nat)
    ensures
        pow2(exponent + 1) == 2 * pow2(exponent),
{
    lemma_pow2_unfold(exponent + 1);
    assert(((exponent + 1) - 1) as nat == exponent);
}

/// The pattern with a given significand and exponent.
pub(crate) proof fn lemma_assembled_pattern(significand: nat, exponent: nat)
    requires
        significand <= 0x0100_0000,
        exponent > 0 ==> significand >= 0x0080_0000,
    ensures
        pattern_units(exponent * 0x0080_0000 + significand) == significand * pow2(exponent),
{
    lemma2_to64();
    let pattern = exponent * 0x0080_0000 + significand;
    let power = pow2(exponent);
    if significand < 0x0080_0000 {
        assert(significand * power == significand) by (nonlinear_arith)
            requires
                power == 1,
        ;
        assert(pattern_units(pattern) == significand * power);
    } else if significand < 0x0100_0000 {
        assert(pattern / 0x0080_0000 == exponent + 1);
        assert(pattern % 0x0080_0000 == significand - 0x0080_0000);
        assert(pattern_units(pattern) == significand * power);
    } else {
        assert(pattern / 0x0080_0000 == exponent + 2);
        assert(pattern % 0x0080_0000 == 0);
        lemma_doubles(exponent);
        assert(pattern_units(pattern) == 0x0080_0000 * pow2(exponent + 1));
        let double = pow2(exponent + 1);
        assert(0x0080_0000 * double == significand * power) by (nonlinear_arith)
            requires
                double == 2 * power,
                significand == 0x0100_0000,
        ;
    }
}

/// A rounded significand with its exponent, and the number that it makes.
pub(crate) proof fn lemma_assembled(significand: nat, exponent: nat, assembled: Float32)
    requires
        significand <= 0x0100_0000,
        exponent > 0 ==> significand >= 0x0080_0000,
        exponent >= 254 ==> assembled.bits == INFINITY,
        exponent < 254 ==> assembled.bits == exponent * 0x0080_0000 + significand,
    ensures
        !assembled.negative(),
        !assembled.nan(),
        assembled.units() == if significand * pow2(exponent) < infinity_units() {
            significand * pow2(exponent)
        } else {
            infinity_units()
        },
{
    lemma2_to64();
    lemma_pow2_adds(23, 254);
    lemma_pow2_adds(24, 253);
    let power = pow2(exponent);
    if exponent >= 254 {
        lemma_shift_monotone(0x0080_0000, 254, exponent);
        assert(significand * power >= 0x0080_0000 * power) by (nonlinear_arith)
            requires
                significand >= 0x0080_0000,
        ;
        lemma_assembled_pattern(0x0080_0000, 254);
    } else {
        lemma_assembled_pattern(significand, exponent);
        lemma_shift_monotone(0x0100_0000, exponent, 253);
        assert(significand * power <= 0x0100_0000 * power) by (nonlinear_arith)
            requires
                significand <= 0x0100_0000,
        ;
    }
}

/// What rounding `num / den * 2^shift` units amounts to, once the binade of
/// `num / den` is known: `drop` low bits of the quotient go.
proof fn lemma_rounding(num: nat, den: nat, shift: int, length: nat, exponent: nat, drop: nat)
    requires
        den > 0,
        length >= 24,
        den * pow2((length - 1) as nat) <= num < den * pow2(length),
        exponent == if length + shift > 24 { length + shift - 24 } else { 0 },
        drop == exponent - shift,
    ensures
        ({
            let n = if shift >= 0 { num * pow2(shift as nat) } else { num };
            let d = if shift >= 0 { den } else { den * pow2((-shift) as nat) };
            &&& d > 0
            &&& spacing(n, d) == exponent
            &&& half_even(n, d * pow2(exponent)) == half_even(num, den * pow2(drop))
        }),
        den * pow2(drop) > 0,
        num < (den * pow2(drop)) * 0x0100_0000,
        exponent > 0 ==> num >= (den * pow2(drop)) * 0x0080_0000,
{
    lemma2_to64();
    let n = if shift >= 0 { num * pow2(shift as nat) } else { num };
    let d = if shift >= 0 { den } else { den * pow2((-shift) as nat) };
    lemma_pow2_pos(drop);
    assert(den * pow2(drop) > 0) by (nonlinear_arith)
        requires
            den > 0,
            pow2(drop) > 0,
    ;
    lemma_shift_twice(den, drop, 24);
    lemma_shift_monotone(den, length, drop + 24);
    if exponent > 0 {
        lemma_shift_twice(den, drop, 23);
        assert(drop + 23 == length - 1);
    }
    if shift >= 0 {
        let s = shift as nat;
        lemma_pow2_pos(s);
        lemma_shift_twice(den, length, s);
        lemma_shift_twice(den, (length - 1) as nat, s);
        assert(num * pow2(s) < (den * pow2(length)) * pow2(s)) by (nonlinear_arith)
            requires
                num < den * pow2(length),
                pow2(s) > 0,
        ;
        assert((den * pow2((length - 1) as nat)) * pow2(s) <= num * pow2(s)) by (nonlinear_arith)
            requires
                den * pow2((length - 1) as nat) <= num,
                pow2(s) > 0,
        ;
        lemma_shift_monotone(den, length + s, 24 + exponent);
        if exponent > 0 {
            assert(length - 1 + s == 23 + exponent);
        }
        lemma_spacing(n, d, exponent);
        lemma_shift_twice(den, drop, s);
        lemma_half_even_scales(num, den * pow2(drop), pow2(s));
        assert(drop + s == exponent);
    } else {
        let s = (-shift) as nat;
        lemma_pow2_pos(s);
        assert(den * pow2(s) > 0) by (nonlinear_arith)
            requires
                den > 0,
                pow2(s) > 0,
        ;
        lemma_shift_twice(den, s, 24 + exponent);
        lemma_shift_monotone(den, length, s + (24 + exponent));
        if exponent > 0 {
            lemma_shift_twice(den, s, (23 + exponent) as nat);
            assert(s + (23 + exponent) == length - 1);
        }
        lemma_spacing(n, d, exponent);
        lemma_shift_twice(den, s, exponent);
        assert(s + exponent == drop);
    }
}

/// A quotient below one half rounds to zero.
proof fn lemma_vanishes(num: nat, den: nat, drop: nat)
    requires
        den > 0,
        drop > 90,
        num < pow2(90),
    ensures
        half_even(num, den * pow2(drop)) == 0,
{
    let power = pow2(drop);
    let unit = den * power;
    lemma_doubles(90);
    lemma_shift_monotone(1, 91, drop);
    assert(unit >= power) by (nonlinear_arith)
        requires
            den >= 1,
            power >= 0,
            unit == den * power,
    ;
    vstd::arithmetic::div_mod::lemma_basic_div(num as int, unit as int);
    vstd::arithmetic::div_mod::lemma_small_mod(num, unit);
}

/// The positive number nearest to `num / den * 2^shift` units.
fn round_quotient(num: u128, den: u128, shift: i32) -> (rounded: Float32)
    requires
        0 < den < 0x0100_0000,
        den * 0x0400_0000 <= num,
        num < pow2(90),
        -400 <= shift <= 400,
    ensures
        !rounded.negative(),
        !rounded.nan(),
        shift >= 0 ==> rounded.units() == nearest_units(
            (num * pow2(shift as nat)) as nat,
            den as nat,
        ),
        shift < 0 ==> rounded.units() == nearest_units(
            num as nat,
            (den * pow2((-shift) as nat)) as nat,
        ),
{
    let length: u32 = quotient_length(num, den);
    proof {
        lemma2_to64();
        if length <= 26 {
            lemma_shift_monotone(den as nat, length as nat, 26);
        }
    }
    let top: i32 = length as i32 + shift;
    let exponent: i32 = if top > 24 {
        top - 24
    } else {
        0
    };
    let drop: i32 = exponent - shift;
    proof {
        lemma_rounding(
            num as nat,
            den as nat,
            shift as int,
            length as nat,
            exponent as nat,
            drop as nat,
        );
        lemma_pow2_adds(90, 24);
        lemma_pow2_adds(64, 26);
    }
    if drop > 90 {
        proof {
            lemma_vanishes(num as nat, den as nat, drop as nat);
            let n = if shift >= 0 { num * pow2(shift as nat) } else { num as int };
            let d = if shift >= 0 { den as int } else { den * pow2((-shift) as nat) };
            assert(exponent == 0);
            assert(half_even(n as nat, d as nat * pow2(0)) == 0);
            lemma_pow2_pos(277);
            assert(nearest_units(n as nat, d as nat) == 0);
        }
        return Float32 { bits: 0 };
    }
    proof {
        lemma_shift_monotone(den as nat, drop as nat, 90);
        assert(den * pow2(90) <= 0x0100_0000 * pow2(90)) by (nonlinear_arith)
            requires
                den <= 0x0100_0000,
        ;
    }
    let unit: u128 = shift_up(den, drop as u32);
    let floor: u128 = num / unit;
    let rest: u128 = num % unit;
    let significand: u128 = if 2 * rest < unit {
        floor
    } else if 2 * rest > unit {
        floor + 1
    } else {
        floor + floor % 2
    };
    proof {
        assert(floor < 0x0100_0000) by (nonlinear_arith)
            requires
                floor == num / unit,
                unit > 0,
                num < unit * 0x0100_0000,
        ;
        assert(exponent > 0 ==> floor >= 0x0080_0000) by (nonlinear_arith)
            requires
                floor == num / unit,
                unit > 0,
                exponent > 0 ==> num >= unit * 0x0080_0000,
        ;
    }
    let rounded: Float32 = if exponent >= 254 {
        Float32 { bits: INFINITY }
    } else {
        Float32 { bits: exponent as u32 * BINADE + significand as u32 }
    };
    proof {
        lemma_assembled(significand as nat, exponent as nat, rounded);
    }
    rounded
}

/// The number with a given sign and magnitude.
pub open spec fn signed(negative: bool, units: nat) -> Float32 {
    choose|number: Float32|
        #![trigger number.units()]
        number.negative() == negative && !number.nan() && number.units() == if negative {
            -(units as int)
        } else {
            units as int
        }
}

/// A number is the one with its own sign and magnitude.
pub proof fn lemma_signed(number: Float32, negative: bool, units: nat)
    requires
        !number.nan(),
        number.negative() == negative,
        number.units() == if negative {
            -(units as int)
        } else {
            units as int
        },
    ensures
        signed(negative, units) == number,
{
    lemma_units_identify(signed(negative, units), number);
}

/// The single-precision quotient by a positive divisor. A dividend that is not
/// finite is its own quotient.
pub open spec fn quotient(dividend: Float32, divisor: Float32) -> Float32 {
    if dividend.finite() {
        signed(
            dividend.negative(),
            nearest_units(
                pattern_units(dividend.pattern()) * pow2(149),
                pattern_units(divisor.pattern()),
            ),
        )
    } else {
        dividend
    }
}

/// The single-precision number nearest to a whole number.
pub open spec fn nearest_to_integer(value: int) -> Float32 {
    signed(
        value < 0,
        nearest_units(
            (if value < 0 {
                -value
            } else {
                value
            }) as nat * pow2(149),
            1,
        ),
    )
}

/// The single-precision product with a whole number.
pub open spec fn multiple(value: Float32, factor: nat) -> Float32 {
    signed(value.negative(), nearest_units(pattern_units(value.pattern()) * factor, 1))
}

/// Zero rounds to zero.
proof fn lemma_nearest_zero(den: nat)
    requires
        den > 0,
    ensures
        nearest_units(0, den) == 0,
{
    lemma2_to64();
    lemma_pow2_pos(24);
    lemma_pow2_pos(277);
    assert(den * pow2(24) > 0) by (nonlinear_arith)
        requires
            den > 0,
            pow2(24) > 0,
    ;
    assert(den * pow2(0) == den) by (nonlinear_arith)
        requires
            pow2(0) == 1,
    ;
    vstd::arithmetic::div_mod::lemma_basic_div(0, den as int);
    vstd::arithmetic::div_mod::lemma_small_mod(0, den);
    assert(spacing(0, den) == 0);
    assert(half_even(0, den) == 0);
    assert(0 * pow2(0) == 0);
}

/// The spacing around a quotient does not depend on a common factor.
proof fn lemma_spacing_scales(num: nat, den: nat, factor: nat)
    requires
        den > 0,
        factor > 0,
    ensures
        spacing(num * factor, den * factor) == spacing(num, den),
    decreases (if num >= den * pow2(24) { num - den * pow2(24) + 1 } else { 0 }),
{
    lemma_pow2_pos(24);
    let p = pow2(24);
    assert(den * factor > 0) by (nonlinear_arith)
        requires
            den > 0,
            factor > 0,
    ;
    assert((den * factor) * p == (den * p) * factor) by (nonlinear_arith);
    assert(num < den * p <==> num * factor < (den * p) * factor) by (nonlinear_arith)
        requires
            factor > 0,
    ;
    if num >= den * p {
        assert((2 * den) * p > den * p) by (nonlinear_arith)
            requires
                den > 0,
                p > 0,
        ;
        assert((2 * den) * factor == 2 * (den * factor)) by (nonlinear_arith);
        lemma_spacing_scales(num, 2 * den, factor);
    }
}

/// The nearest number does not depend on a common factor.
pub(crate) proof fn lemma_nearest_scales(num: nat, den: nat, factor: nat)
    requires
        den > 0,
        factor > 0,
    ensures
        nearest_units(num * factor, den * factor) == nearest_units(num, den),
{
    lemma_spacing_scales(num, den, factor);
    let step = pow2(spacing(num, den));
    lemma_pow2_pos(spacing(num, den));
    assert(den * step > 0) by (nonlinear_arith)
        requires
            den > 0,
            step > 0,
    ;
    assert((den * factor) * step == (den * step) * factor) by (nonlinear_arith);
    lemma_half_even_scales(num, den * step, factor);
}

impl Float32 {
    /// The significand and the exponent of the magnitude.
    fn parts(self) -> (parts: (u32, u32))
        requires
            self.finite(),
        ensures
            pattern_units(self.pattern()) == parts.0 * pow2(parts.1 as nat),
            parts.0 < 0x0100_0000,
            parts.1 <= 253,
            parts.1 > 0 ==> parts.0 >= 0x0080_0000,
    {
        let pattern: u32 = self.bits % SIGN;
        let exponent: u32 = pattern / BINADE;
        let fraction: u32 = pattern % BINADE;
        if exponent == 0 {
            proof {
                lemma2_to64();
                assert(fraction * pow2(0) == fraction) by (nonlinear_arith)
                    requires
                        pow2(0) == 1,
                ;
            }
            (fraction, 0)
        } else {
            (fraction + BINADE, exponent - 1)
        }
    }

    /// This magnitude with a sign.
    fn with_sign(self, negative: bool) -> (number: Float32)
        requires
            !self.negative(),
        ensures
            number.negative() == negative,
            number.pattern() == self.pattern(),
    {
        if negative {
            Float32 { bits: self.bits + SIGN }
        } else {
            self
        }
    }
}

/// Divides by a positive number, rounding to the nearest.
pub fn divide(dividend: Float32, divisor: Float32) -> (result: Float32)
    requires
        divisor.positive(),
    ensures
        result == quotient(dividend, divisor),
{
    if !dividend.is_finite() {
        return dividend;
    }
    let (significand, exponent) = dividend.parts();
    let (divisor_significand, divisor_exponent) = divisor.parts();
    let ghost m = significand as nat;
    let ghost e = exponent as nat;
    let ghost d = divisor_significand as nat;
    let ghost g = divisor_exponent as nat;
    let ghost whole = pattern_units(dividend.pattern()) * pow2(149);
    let ghost part = pattern_units(divisor.pattern());
    proof {
        lemma2_to64();
        lemma_pow2_adds(64, 26);
        lemma_pow2_pos(e);
        lemma_pow2_pos(g);
        assert(d > 0) by (nonlinear_arith)
            requires
                d * pow2(g) > 0,
        ;
        lemma_shift_twice(m, e, 149);
    }
    if significand == 0 {
        proof {
            assert(m * pow2(e) == 0) by (nonlinear_arith)
                requires
                    m == 0,
            ;
            lemma_nearest_zero(part);
            lemma_signed(dividend, dividend.negative(), 0);
        }
        return dividend;
    }
    let shift: i32 = 99 + exponent as i32 - divisor_exponent as i32;
    let num: u128 = significand as u128 * 0x4_0000_0000_0000;
    let magnitude: Float32 = round_quotient(num, divisor_significand as u128, shift);
    let result: Float32 = magnitude.with_sign(dividend.bits >= SIGN);
    proof {
        assert(pow2(50) == 0x4_0000_0000_0000) by {
            lemma_pow2_adds(32, 18);
        }
        if shift >= 0 {
            let s = shift as nat;
            lemma_shift_twice(m, 50, s);
            lemma_shift_twice(m, 50 + s, g);
            assert(50 + s + g == e + 149);
            lemma_nearest_scales((m * pow2(50)) * pow2(s), d, pow2(g));
        } else {
            let s = (-shift) as nat;
            let c = (e + 99) as nat;
            lemma_pow2_pos(c);
            lemma_pow2_pos(s);
            lemma_shift_twice(m, 50, c);
            lemma_shift_twice(d, s, c);
            assert(50 + c == e + 149);
            assert(s + c == g);
            assert(d * pow2(s) > 0) by (nonlinear_arith)
                requires
                    d > 0,
                    pow2(s) > 0,
            ;
            lemma_nearest_scales(m * pow2(50), d * pow2(s), pow2(c));
        }
        lemma_signed(result, dividend.negative(), nearest_units(whole, part));
    }
    result
}

/// The number nearest to a whole number.
pub fn from_i64(value: i64) -> (number: Float32)
    ensures
        number == nearest_to_integer(value as int),
{
    let magnitude: u128 = if value < 0 {
        (-(value as i128)) as u128
    } else {
        value as u128
    };
    proof {
        lemma2_to64();
        lemma_pow2_adds(64, 26);
        lemma_shift_twice(magnitude as nat, 26, 123);
    }
    if magnitude == 0 {
        proof {
            lemma_nearest_zero(1);
            lemma_signed(Float32 { bits: ZERO }, false, 0);
        }
        return Float32 { bits: ZERO };
    }
    let rounded: Float32 = round_quotient(magnitude * 0x0400_0000, 1, 123);
    let number: Float32 = rounded.with_sign(value < 0);
    proof {
        lemma_signed(number, value < 0, nearest_units(magnitude as nat * pow2(149), 1));
    }
    number
}

/// Multiplies by a whole number, rounding to the nearest.
pub fn multiply(value: Float32, factor: u16) -> (result: Float32)
    requires
        value.finite(),
        factor > 0,
    ensures
        result == multiple(value, factor as nat),
{
    let (significand, exponent) = value.parts();
    let ghost m = significand as nat;
    let ghost e = exponent as nat;
    let ghost whole = pattern_units(value.pattern()) * factor as nat;
    if significand == 0 {
        proof {
            assert(m * pow2(e) == 0 && 0 * factor as nat == 0) by (nonlinear_arith)
                requires
                    m == 0,
            ;
            lemma_nearest_zero(1);
            lemma_signed(value, value.negative(), 0);
        }
        return value;
    }
    proof {
        lemma2_to64();
        lemma_pow2_adds(64, 26);
        assert(1 <= m * factor < 0x0100_0000 * 0x1_0000) by (nonlinear_arith)
            requires
                1 <= m < 0x0100_0000,
                1 <= factor < 0x1_0000,
        ;
    }
    let product: u128 = significand as u128 * factor as u128;
    let shift: i32 = exponent as i32 - 26;
    let magnitude: Float32 = round_quotient(product * 0x0400_0000, 1, shift);
    let result: Float32 = magnitude.with_sign(value.bits >= SIGN);
    proof {
        let f = factor as nat;
        let n = product as nat;
        assert((m * pow2(e)) * f == n * pow2(e)) by (nonlinear_arith)
            requires
                n == m * f,
        ;
        if shift >= 0 {
            lemma_shift_twice(n, 26, shift as nat);
            assert(26 + shift as nat == e);
        } else {
            let s = (-shift) as nat;
            lemma_shift_twice(n, e, s);
            assert(e + s == 26);
            lemma_pow2_pos(s);
            lemma_nearest_scales(whole, 1, pow2(s));
        }
        lemma_signed(result, value.negative(), nearest_units(whole, 1));
    }
    result
}

/// What the spacing says of the quotient: it is the least that holds it.
pub(crate) proof fn lemma_spacing_holds(num: nat, den: nat)
    requires
        den > 0,
    ensures
        num < den * pow2(24 + spacing(num, den)),
        spacing(num, den) > 0 ==> num >= den * pow2((23 + spacing(num, den)) as nat),
    decreases (if num >= den * pow2(24) { num - den * pow2(24) + 1 } else { 0 }),
{
    let p = pow2(24);
    lemma_pow2_pos(24);
    if num >= den * p {
        assert((2 * den) * p > den * p) by (nonlinear_arith)
            requires
                den > 0,
                p > 0,
        ;
        lemma_spacing_holds(num, 2 * den);
        let rest = spacing(num, 2 * den);
        lemma_doubles(24 + rest);
        let q = pow2(24 + rest);
        assert((2 * den) * q == den * (2 * q)) by (nonlinear_arith);
        assert(24 + (1 + rest) == 24 + rest + 1);
        if rest > 0 {
            lemma_doubles((23 + rest) as nat);
            let r = pow2((23 + rest) as nat);
            assert((2 * den) * r == den * (2 * r)) by (nonlinear_arith);
            assert(23 + (1 + rest) == 23 + rest + 1);
        }
    }
}

/// The spacing is not more than that of any binade that holds the quotient.
proof fn lemma_spacing_at_most(num: nat, den: nat, exponent: nat)
    requires
        den > 0,
        num < den * pow2(24 + exponent),
    ensures
        spacing(num, den) <= exponent,
{
    lemma_spacing_holds(num, den);
    let found = spacing(num, den);
    if found > exponent {
        lemma_shift_monotone(den, 24 + exponent, (23 + found) as nat);
    }
}

/// Rounding to a whole number keeps the order.
proof fn lemma_half_even_monotone(small: nat, large: nat, den: nat)
    requires
        small <= large,
        den > 0,
    ensures
        half_even(small, den) <= half_even(large, den),
{
    vstd::arithmetic::div_mod::lemma_div_is_ordered(small as int, large as int, den as int);
    vstd::arithmetic::div_mod::lemma_fundamental_div_mod(small as int, den as int);
    vstd::arithmetic::div_mod::lemma_fundamental_div_mod(large as int, den as int);
}

/// The significand that rounding yields.
pub(crate) proof fn lemma_rounded_significand(num: nat, den: nat)
    requires
        den > 0,
    ensures
        ({
            let step = pow2(spacing(num, den));
            &&& half_even(num, den * step) <= 0x0100_0000
            &&& spacing(num, den) > 0 ==> half_even(num, den * step) >= 0x0080_0000
        }),
{
    lemma2_to64();
    lemma_spacing_holds(num, den);
    let exponent = spacing(num, den);
    let step = pow2(exponent);
    let unit = den * step;
    lemma_pow2_pos(exponent);
    assert(unit > 0) by (nonlinear_arith)
        requires
            den > 0,
            step > 0,
            unit == den * step,
    ;
    lemma_shift_twice(den, exponent, 24);
    assert(num < unit * 0x0100_0000);
    assert(num / unit < 0x0100_0000) by (nonlinear_arith)
        requires
            unit > 0,
            num < unit * 0x0100_0000,
    ;
    if exponent > 0 {
        lemma_shift_twice(den, exponent, 23);
        assert(num >= unit * 0x0080_0000);
        assert(num / unit >= 0x0080_0000) by (nonlinear_arith)
            requires
                unit > 0,
                num >= unit * 0x0080_0000,
        ;
    }
}

/// Rounding to the nearest number keeps the order.
pub proof fn lemma_nearest_monotone(small: nat, large: nat, den: nat)
    requires
        small <= large,
        den > 0,
    ensures
        nearest_units(small, den) <= nearest_units(large, den),
{
    lemma2_to64();
    lemma_spacing_holds(large, den);
    let se = spacing(small, den);
    let le = spacing(large, den);
    lemma_spacing_at_most(small, den, le);
    lemma_rounded_significand(small, den);
    lemma_rounded_significand(large, den);
    let sp = pow2(se);
    let lp = pow2(le);
    lemma_pow2_pos(se);
    lemma_pow2_pos(le);
    let sh = half_even(small, den * sp);
    let lh = half_even(large, den * lp);
    if se == le {
        assert(den * sp > 0) by (nonlinear_arith)
            requires
                den > 0,
                sp > 0,
        ;
        lemma_half_even_monotone(small, large, den * sp);
        assert(sh * sp <= lh * sp) by (nonlinear_arith)
            requires
                sh <= lh,
                sp > 0,
        ;
    } else {
        lemma_doubles(se);
        lemma_shift_monotone(1, se + 1, le);
        assert(sh * sp <= lh * lp) by (nonlinear_arith)
            requires
                sh <= 0x0100_0000,
                lh >= 0x0080_0000,
                lp >= 2 * sp,
                sp > 0,
        ;
    }
}

/// A magnitude that has a short significand is its own nearest number.
pub proof fn lemma_nearest_exact(significand: nat, exponent: nat)
    requires
        significand < 0x0100_0000,
        exponent <= 253,
    ensures
        nearest_units(significand * pow2(exponent), 1) == significand * pow2(exponent),
{
    lemma2_to64();
    let whole = significand * pow2(exponent);
    lemma_pow2_pos(exponent);
    assert(whole < 0x0100_0000 * pow2(exponent)) by (nonlinear_arith)
        requires
            significand < 0x0100_0000,
            pow2(exponent) > 0,
            whole == significand * pow2(exponent),
    ;
    lemma_pow2_adds(24, exponent);
    lemma_spacing_at_most(whole, 1, exponent);
    let found = spacing(whole, 1);
    let step = pow2(found);
    lemma_pow2_pos(found);
    let rest = (exponent - found) as nat;
    lemma_pow2_adds(rest, found);
    let count = significand * pow2(rest);
    assert(whole == count * step) by (nonlinear_arith)
        requires
            whole == significand * pow2(exponent),
            pow2(exponent) == pow2(rest) * step,
            count == significand * pow2(rest),
    ;
    vstd::arithmetic::div_mod::lemma_fundamental_div_mod_converse(
        whole as int,
        step as int,
        count as int,
        0,
    );
    assert(half_even(whole, 1 * step) == count);
    lemma_pow2_adds(24, 253);
    lemma_shift_monotone(0x0100_0000, exponent, 253);
}

/// What rounding yields is a number, with either sign.
pub proof fn lemma_nearest_is_number(negative: bool, num: nat, den: nat)
    requires
        den > 0,
    ensures
        ({
            let number = signed(negative, nearest_units(num, den));
            &&& number.negative() == negative
            &&& !number.nan()
            &&& pattern_units(number.pattern()) == nearest_units(num, den)
        }),
{
    lemma_rounded_significand(num, den);
    let exponent = spacing(num, den);
    let significand = half_even(num, den * pow2(exponent));
    let bits = if exponent >= 254 {
        INFINITY
    } else {
        (exponent * 0x0080_0000 + significand) as u32
    };
    let unsigned = Float32 { bits };
    lemma_assembled(significand, exponent, unsigned);
    let number = if negative {
        Float32 { bits: (bits + SIGN) as u32 }
    } else {
        unsigned
    };
    lemma_signed(number, negative, nearest_units(num, den));
}

/// The whole number nearest to a number; of two equally near, the one farther
/// from zero.
pub open spec fn nearest_integer(number: Float32) -> int {
    let magnitude = (2 * pattern_units(number.pattern()) + pow2(149)) / pow2(150);
    if number.negative() {
        -(magnitude as int)
    } else {
        magnitude as int
    }
}

/// A number whose magnitude is at most a small whole number is finite.
pub proof fn lemma_infinity(number: Float32, limit: nat)
    requires
        pattern_units(number.pattern()) <= limit * pow2(149),
        limit < 0x1_0000_0000,
    ensures
        number.finite(),
{
    lemma2_to64();
    lemma_pow2_adds(128, 149);
    lemma_pow2_adds(64, 64);
    lemma_pow2_pos(149);
    assert(limit * pow2(149) < pow2(277)) by (nonlinear_arith)
        requires
            pow2(277) == pow2(128) * pow2(149),
            pow2(128) == 0x1_0000_0000_0000_0000 * 0x1_0000_0000_0000_0000,
            limit < 0x1_0000_0000,
            pow2(149) > 0,
    ;
    lemma_pow2_adds(23, 254);
    lemma_assembled(0x0080_0000, 254, Float32 { bits: INFINITY });
    if (INFINITY as nat) < number.pattern() {
        lemma_patterns_are_ordered(INFINITY as nat, number.pattern());
    }
}

/// A magnitude that is at most a whole number rounds to at most that number.
pub proof fn lemma_rounds_within(number: Float32, limit: nat)
    requires
        pattern_units(number.pattern()) <= limit * pow2(149),
    ensures
        -(limit as int) <= nearest_integer(number) <= limit,
{
    let units = pattern_units(number.pattern());
    let one = pow2(149);
    lemma_pow2_pos(149);
    lemma_doubles(149);
    assert((2 * units + one) / (2 * one) <= limit) by (nonlinear_arith)
        requires
            units <= limit * one,
            one > 0,
    ;
}

/// Rounding a significand with its exponent to a whole number of ones.
proof fn lemma_round(significand: nat, exponent: nat, drop: nat)
    requires
        significand < 0x0100_0000,
        exponent + drop == 149,
        drop > 0,
    ensures
        (2 * (significand * pow2(exponent)) + pow2(149)) / pow2(150) == (significand + pow2(
            (drop - 1) as nat,
        )) / pow2(drop),
        pow2(drop) == 2 * pow2((drop - 1) as nat),
        drop > 24 ==> (significand + pow2((drop - 1) as nat)) / pow2(drop) == 0,
{
    lemma2_to64();
    let half = pow2((drop - 1) as nat);
    let unit = pow2(exponent + 1);
    lemma_pow2_unfold(drop);
    lemma_doubles(exponent);
    lemma_pow2_adds((drop - 1) as nat, exponent + 1);
    lemma_pow2_adds(drop, exponent + 1);
    lemma_pow2_pos(exponent + 1);
    lemma_pow2_pos((drop - 1) as nat);
    lemma_pow2_pos(drop);
    assert(2 * (significand * pow2(exponent)) + half * unit == unit * (significand + half))
        by (nonlinear_arith)
        requires
            unit == 2 * pow2(exponent),
    ;
    assert(pow2(drop) * unit == unit * pow2(drop)) by (nonlinear_arith);
    vstd::arithmetic::div_mod::lemma_div_multiples_vanish_quotient(
        unit as int,
        (significand + half) as int,
        pow2(drop) as int,
    );
    if drop > 24 {
        lemma_shift_monotone(1, 24, (drop - 1) as nat);
        vstd::arithmetic::div_mod::lemma_basic_div(
            (significand + half) as int,
            pow2(drop) as int,
        );
    }
}

/// Rounds a number to a whole number, halves away from zero.
pub fn round(number: Float32) -> (rounded: i16)
    requires
        pattern_units(number.pattern()) <= 32_767 * pow2(149),
    ensures
        rounded == nearest_integer(number),
{
    proof {
        lemma_infinity(number, 32_767);
        lemma_rounds_within(number, 32_767);
    }
    let (significand, exponent) = number.parts();
    let ghost m = significand as nat;
    let ghost e = exponent as nat;
    proof {
        lemma2_to64();
        if exponent >= 141 {
            lemma_pow2_adds(23, 141);
            lemma_pow2_adds(15, 149);
            lemma_shift_monotone(0x0080_0000, 141, e);
            assert(m * pow2(e) >= 0x0080_0000 * pow2(e)) by (nonlinear_arith)
                requires
                    m >= 0x0080_0000,
            ;
            lemma_pow2_pos(149);
        }
    }
    let drop: u32 = 149 - exponent;
    proof {
        lemma_round(m, e, drop as nat);
    }
    let magnitude: i16 = if drop > 24 {
        0
    } else {
        proof {
            lemma_shift_monotone(1, (drop - 1) as nat, 24);
        }
        let half: u128 = shift_up(1, drop - 1);
        let whole: u128 = (significand as u128 + half) / (2 * half);
        whole as i16
    };
    if number.bits >= SIGN {
        -magnitude
    } else {
        magnitude
    }
}

/// Whole numbers of moderate size are numbers themselves.
pub proof fn lemma_small_integer(value: nat)
    requires
        value < 0x0100_0000,
    ensures
        nearest_to_integer(value as int).finite(),
        !nearest_to_integer(value as int).negative(),
        nearest_to_integer(value as int).units() == value * one_units(),
        value > 0 ==> nearest_to_integer(value as int).positive(),
{
    lemma_nearest_exact(value, 149);
    lemma_nearest_is_number(false, value * pow2(149), 1);
    lemma_infinity(nearest_to_integer(value as int), value);
    lemma_pow2_pos(149);
    assert(value > 0 ==> value * pow2(149) > 0) by (nonlinear_arith)
        requires
            pow2(149) > 0,
    ;
}

/// Clamping a clamped number changes nothing, and a clamped number lies between
/// zero and one.
pub proof fn lemma_clamped_stays(value: Float32)
    ensures
        clamped01(clamped01(value)) == clamped01(value),
        clamped01(value).finite(),
        0 <= clamped01(value).units() <= one_units(),
        !clamped01(value).negative(),
{
    lemma_unit_numbers();
}

/// Clamping keeps the order of finite numbers.
pub proof fn lemma_clamping_keeps_order(small: Float32, large: Float32)
    requires
        small.finite(),
        large.finite(),
        small.units() <= large.units(),
    ensures
        clamped01(small).units() <= clamped01(large).units(),
{
    lemma_unit_numbers();
}

/// A part of a whole, both whole numbers, is at most one; the whole itself is one.
pub proof fn lemma_fraction_at_most_one(part: nat, whole: nat)
    requires
        part <= whole,
        0 < whole < 0x0100_0000,
    ensures
        ({
            let fraction = quotient(
                nearest_to_integer(part as int),
                nearest_to_integer(whole as int),
            );
            &&& fraction.finite()
            &&& !fraction.negative()
            &&& 0 <= fraction.units() <= one_units()
            &&& part == whole ==> fraction.units() == one_units()
        }),
{
    lemma_small_integer(part);
    lemma_small_integer(whole);
    lemma2_to64();
    let one = pow2(149);
    let den = whole * one;
    lemma_pow2_pos(149);
    assert(part * one <= den && den > 0) by (nonlinear_arith)
        requires
            part <= whole,
            whole > 0,
            one > 0,
            den == whole * one,
    ;
    assert((part * one) * one <= den * one) by (nonlinear_arith)
        requires
            part * one <= den,
            one > 0,
    ;
    lemma_nearest_monotone((part * one) * one, den * one, den);
    lemma_nearest_scales(one, 1, den);
    assert(one * den == den * one) by (nonlinear_arith);
    assert(1 * one == one && 1 * den == den);
    lemma_nearest_exact(1, 149);
    lemma_nearest_is_number(false, (part * one) * one, den);
    lemma_infinity(signed(false, nearest_units((part * one) * one, den)), 1);
}

/// A quotient of whole numbers that lies between two sixteenths is rounded to a
/// number between them.
pub proof fn lemma_fraction_between(part: nat, whole: nat, low: nat, high: nat)
    requires
        part < 0x0100_0000,
        0 < whole < 0x0100_0000,
        low * whole <= 16 * part <= high * whole,
        high <= 16,
    ensures
        ({
            let fraction = quotient(
                nearest_to_integer(part as int),
                nearest_to_integer(whole as int),
            );
            &&& fraction.finite()
            &&& low * pow2(145) <= fraction.units() <= high * pow2(145)
        }),
{
    lemma_small_integer(part);
    lemma_small_integer(whole);
    lemma2_to64();
    lemma_pow2_adds(4, 145);
    lemma_pow2_pos(145);
    let sixteenth = pow2(145);
    let one = pow2(149);
    let den = whole * one;
    let num = (part * one) * one;
    lemma_pow2_pos(149);
    assert(den > 0) by (nonlinear_arith)
        requires
            whole > 0,
            one > 0,
            den == whole * one,
    ;
    assert((low * sixteenth) * den <= num <= (high * sixteenth) * den) by (nonlinear_arith)
        requires
            low * whole <= 16 * part <= high * whole,
            one == 16 * sixteenth,
            den == whole * one,
            num == (part * one) * one,
            sixteenth > 0,
    ;
    assert(low <= 16) by (nonlinear_arith)
        requires
            low * whole <= high * whole,
            high <= 16,
            whole > 0,
    ;
    lemma_nearest_monotone((low * sixteenth) * den, num, den);
    lemma_nearest_monotone(num, (high * sixteenth) * den, den);
    lemma_nearest_scales(low * sixteenth, 1, den);
    lemma_nearest_scales(high * sixteenth, 1, den);
    assert(1 * den == den);
    lemma_nearest_exact(low, 145);
    lemma_nearest_exact(high, 145);
    lemma_nearest_is_number(false, num, den);
    assert(high * sixteenth <= 1 * one) by (nonlinear_arith)
        requires
            high <= 16,
            one == 16 * sixteenth,
            sixteenth > 0,
    ;
    lemma_infinity(signed(false, nearest_units(num, den)), 1);
}

} // verus!
