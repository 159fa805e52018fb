//! Binary32 values carried as their bit patterns: the order IEEE 754 gives them is an order on
//! integers, so comparing them needs no floating-point arithmetic.
use vstd::arithmetic::div_mod::{
    lemma_div_is_ordered_by_denominator, lemma_fundamental_div_mod, lemma_fundamental_div_mod_converse,
};
use vstd::arithmetic::power2::{
    lemma2_to64, lemma2_to64_rest, lemma_pow2_adds, lemma_pow2_pos, lemma_pow2_strictly_increases, lemma_pow2_unfold, pow2,
};
use vstd::prelude::*;

verus! {

/// The bit pattern of `1.0`.
pub const ONE: u32 = 0x3F80_0000;

/// The magnitude part of a bit pattern.
pub open spec fn magnitude(value: u32) -> int {
    if value >= 0x8000_0000 {
        value - 0x8000_0000
    } else {
        value as int
    }
}

/// Whether a bit pattern is not a number.
pub open spec fn nan(value: u32) -> bool {
    magnitude(value) > 0x7F80_0000
}

/// Whether a bit pattern is neither infinite nor not a number.
pub open spec fn finite(value: u32) -> bool {
    magnitude(value) < 0x7F80_0000
}

/// Where a number stands in the order of binary32. Both zeros stand at zero.
pub open spec fn rank(value: u32) -> int {
    if value >= 0x8000_0000 {
        -magnitude(value)
    } else {
        magnitude(value)
    }
}

/// `left < right`. A comparison with a NaN is false.
pub open spec fn below(left: u32, right: u32) -> bool {
    !nan(left) && !nan(right) && rank(left) < rank(right)
}

/// `left == right` as numbers. A NaN is not equal to itself, and the two zeros are equal.
pub open spec fn same(left: u32, right: u32) -> bool {
    !nan(left) && !nan(right) && rank(left) == rank(right)
}

fn signed_rank(value: u32) -> (r: i64)
    ensures
        r == rank(value),
{
    if value >= 0x8000_0000 {
        -((value - 0x8000_0000) as i64)
    } else {
        value as i64
    }
}

/// Whether a bit pattern is not a number.
pub fn is_nan(value: u32) -> (answer: bool)
    ensures
        answer == nan(value),
{
    if value >= 0x8000_0000 {
        value - 0x8000_0000 > 0x7F80_0000
    } else {
        value > 0x7F80_0000
    }
}

/// Whether a bit pattern is neither infinite nor not a number.
pub fn is_finite(value: u32) -> (answer: bool)
    ensures
        answer == finite(value),
{
    if value >= 0x8000_0000 {
        value - 0x8000_0000 < 0x7F80_0000
    } else {
        value < 0x7F80_0000
    }
}

/// `left < right`.
pub fn less(left: u32, right: u32) -> (answer: bool)
    ensures
        answer == below(left, right),
{
    !is_nan(left) && !is_nan(right) && signed_rank(left) < signed_rank(right)
}

/// `left == right` as numbers.
pub fn equal(left: u32, right: u32) -> (answer: bool)
    ensures
        answer == same(left, right),
{
    !is_nan(left) && !is_nan(right) && signed_rank(left) == signed_rank(right)
}

/// `left >= right`. A comparison with a NaN is false.
pub open spec fn reaches(left: u32, right: u32) -> bool {
    !nan(left) && !nan(right) && rank(left) >= rank(right)
}

/// `left >= right`.
pub fn at_least(left: u32, right: u32) -> (answer: bool)
    ensures
        answer == reaches(left, right),
{
    !is_nan(left) && !is_nan(right) && signed_rank(left) >= signed_rank(right)
}

/// The smaller of two numbers. Where one is a NaN it is the other one.
pub open spec fn smaller(left: u32, right: u32) -> u32 {
    if nan(left) || (!nan(right) && below(right, left)) {
        right
    } else {
        left
    }
}

/// The larger of two numbers. Where one is a NaN it is the other one.
pub open spec fn larger(left: u32, right: u32) -> u32 {
    if nan(left) || (!nan(right) && below(left, right)) {
        right
    } else {
        left
    }
}

/// The smaller of two numbers.
pub fn lesser_of(left: u32, right: u32) -> (found: u32)
    ensures
        found == smaller(left, right),
{
    if is_nan(left) || (!is_nan(right) && less(right, left)) {
        right
    } else {
        left
    }
}

/// The larger of two numbers.
pub fn greater_of(left: u32, right: u32) -> (found: u32)
    ensures
        found == larger(left, right),
{
    if is_nan(left) || (!is_nan(right) && less(left, right)) {
        right
    } else {
        left
    }
}

/// A number held between two others. A NaN stays one.
pub open spec fn clamped(value: u32, low: u32, high: u32) -> u32 {
    if below(value, low) {
        low
    } else if below(high, value) {
        high
    } else {
        value
    }
}

/// A number held between two others.
pub fn clamp(value: u32, low: u32, high: u32) -> (kept: u32)
    ensures
        kept == clamped(value, low, high),
{
    if less(value, low) {
        low
    } else if less(high, value) {
        high
    } else {
        value
    }
}

/// The absolute value: the sign bit cleared.
pub open spec fn absolute(value: u32) -> u32 {
    magnitude(value) as u32
}

/// The absolute value.
pub fn abs(value: u32) -> (positive: u32)
    ensures
        positive == absolute(value),
{
    if value >= 0x8000_0000 {
        value - 0x8000_0000
    } else {
        value
    }
}

/// The negation: the sign bit flipped.
pub open spec fn opposite(value: u32) -> u32 {
    if value >= 0x8000_0000 {
        (value - 0x8000_0000) as u32
    } else {
        (value + 0x8000_0000) as u32
    }
}

/// The negation.
pub fn negate(value: u32) -> (negated: u32)
    ensures
        negated == opposite(value),
{
    if value >= 0x8000_0000 {
        value - 0x8000_0000
    } else {
        value + 0x8000_0000
    }
}

/// Negating twice gives the value back, and a negation is as large and ranks the other way.
pub proof fn negation_is_its_own_inverse(value: u32)
    ensures
        opposite(opposite(value)) == value,
        absolute(opposite(value)) == absolute(value),
        rank(opposite(value)) == -rank(value),
        nan(opposite(value)) == nan(value),
{
}

/// Of two numbers exactly one of less, equal and greater holds; of a pair with a NaN none does.
pub proof fn order_is_total_on_numbers(left: u32, right: u32)
    ensures
        nan(left) || nan(right) ==> !below(left, right) && !below(right, left) && !same(left, right),
        !nan(left) && !nan(right) ==> (below(left, right) || same(left, right) || below(right, left)),
        !(below(left, right) && below(right, left)),
        !(below(left, right) && same(left, right)),
{
}

// ---------------------------------------------------------------------------------------------
// The numbers bit patterns stand for.
// ---------------------------------------------------------------------------------------------
/// The number a bit pattern stands for, counted in the smallest step of binary32, which is `2^-149`: a sign bit,
/// eight bits of exponent and twenty-three of fraction, with a leading one unless the exponent is nothing. An
/// infinity stands past every finite number.
pub open spec fn number(value: u32) -> int {
    let fraction = value as int % 0x80_0000;
    let power = value as int / 0x80_0000 % 0x100;
    let size = if power == 0 {
        fraction
    } else {
        (0x80_0000 + fraction) * pow2((power - 1) as nat)
    };
    if value as int / 0x8000_0000 == 1 {
        -size
    } else {
        size
    }
}

proof fn a_larger_magnitude_is_a_larger_number(left: u32, right: u32)
    requires
        left < right < 0x8000_0000,
    ensures
        0 <= number(left) < number(right),
{
    let (f, g) = (left as int % 0x80_0000, right as int % 0x80_0000);
    let (e, d) = (left as int / 0x80_0000 % 0x100, right as int / 0x80_0000 % 0x100);
    assert(e == left as int / 0x80_0000 && d == right as int / 0x80_0000);
    assert(e <= d);
    if e > 0 {
        lemma_pow2_pos((e - 1) as nat);
        let p = pow2((e - 1) as nat) as int;
        assert(0 <= (0x80_0000 + f) * p < 0x100_0000 * p) by (nonlinear_arith)
            requires
                0 <= f < 0x80_0000,
                p > 0,
        ;
        if e == d {
            assert(f < g);
            assert((0x80_0000 + f) * p < (0x80_0000 + g) * p) by (nonlinear_arith)
                requires
                    f < g,
                    p > 0,
            ;
        } else {
            let q = pow2((d - 1) as nat) as int;
            lemma_pow2_unfold(e as nat);
            if e < d - 1 {
                lemma_pow2_strictly_increases(e as nat, (d - 1) as nat);
            }
            assert(0x100_0000 * p <= (0x80_0000 + g) * q) by (nonlinear_arith)
                requires
                    q >= 2 * p,
                    p > 0,
                    g >= 0,
            ;
        }
    } else if d > 0 {
        lemma_pow2_pos((d - 1) as nat);
        let q = pow2((d - 1) as nat) as int;
        assert(0x80_0000 <= (0x80_0000 + g) * q) by (nonlinear_arith)
            requires
                q >= 1,
                g >= 0,
        ;
    }
}

proof fn a_sign_mirrors_a_number(value: u32)
    requires
        value < 0x8000_0000,
    ensures
        number((value + 0x8000_0000) as u32) == -number(value),
        number(value) >= 0,
        value > 0 ==> number(value) > 0,
        number(0) == 0,
{
    let other = (value + 0x8000_0000) as u32;
    assert(other as int % 0x80_0000 == value as int % 0x80_0000);
    assert(other as int / 0x80_0000 == value as int / 0x80_0000 + 0x100);
    assert(other as int / 0x80_0000 % 0x100 == value as int / 0x80_0000 % 0x100);
    if value > 0 {
        a_larger_magnitude_is_a_larger_number(0, value);
    }
}

/// The order of bit patterns is the order of the numbers they stand for, and equality is equality of numbers.
pub proof fn order_is_by_number(left: u32, right: u32)
    requires
        !nan(left),
        !nan(right),
    ensures
        below(left, right) <==> number(left) < number(right),
        same(left, right) <==> number(left) == number(right),
        reaches(left, right) <==> number(left) >= number(right),
{
    let a = absolute(left);
    let b = absolute(right);
    a_sign_mirrors_a_number(a);
    a_sign_mirrors_a_number(b);
    if a < b {
        a_larger_magnitude_is_a_larger_number(a, b);
    } else if b < a {
        a_larger_magnitude_is_a_larger_number(b, a);
    }
}

/// The smaller and the larger of two numbers are one of the two and past neither of them; a NaN gives way.
pub proof fn extremes_are_by_number(left: u32, right: u32)
    ensures
        !nan(left) && !nan(right) ==> {
            &&& smaller(left, right) == left || smaller(left, right) == right
            &&& larger(left, right) == left || larger(left, right) == right
            &&& number(smaller(left, right)) <= number(left) && number(smaller(left, right)) <= number(right)
            &&& number(larger(left, right)) >= number(left) && number(larger(left, right)) >= number(right)
        },
        nan(left) ==> smaller(left, right) == right && larger(left, right) == right,
        nan(right) && !nan(left) ==> smaller(left, right) == left && larger(left, right) == left,
{
    if !nan(left) && !nan(right) {
        order_is_by_number(left, right);
        order_is_by_number(right, left);
    }
}

/// A number held between two others is the nearest of the numbers between them.
pub proof fn holding_is_by_number(value: u32, low: u32, high: u32)
    requires
        !nan(value) && !nan(low) && !nan(high),
        number(low) <= number(high),
    ensures
        number(low) <= number(clamped(value, low, high)) <= number(high),
        number(low) <= number(value) <= number(high) ==> clamped(value, low, high) == value,
        number(value) < number(low) ==> clamped(value, low, high) == low,
        number(value) > number(high) ==> clamped(value, low, high) == high,
{
    order_is_by_number(value, low);
    order_is_by_number(high, value);
}

/// A negation stands for the opposite number, and an absolute value for the distance from nothing.
pub proof fn signs_are_by_number(value: u32)
    ensures
        number(opposite(value)) == -number(value),
        number(absolute(value)) == (if number(value) < 0 {
            -number(value)
        } else {
            number(value)
        }),
        number(value) < 0 ==> negative(value),
        number(value) > 0 ==> !negative(value),
{
    a_sign_mirrors_a_number(absolute(value));
}

/// A finite value is its significand times its power of two: taken apart it is the number it stands for.
pub proof fn parts_make_the_number(value: u32)
    requires
        finite(value),
    ensures
        number(value) == (if negative(value) {
            -(significand(value) * pow2((exponent(value) + 149) as nat))
        } else {
            significand(value) * pow2((exponent(value) + 149) as nat)
        }),
        exponent(value) >= -149,
{
    a_sign_mirrors_a_number(absolute(value));
    lemma2_to64();
    let m = absolute(value);
    assert(m as int / 0x80_0000 % 0x100 == m as int / 0x80_0000);
    assert(magnitude(value) == m && significand(value) == significand(m) && exponent(value) == exponent(m));
    if m < 0x80_0000 {
        assert(m as int % 0x80_0000 == m);
        assert(pow2(0) == 1);
        assert(number(m) == m);
        assert(significand(m) * pow2(0) == m) by (nonlinear_arith)
            requires
                significand(m) == m,
                pow2(0) == 1,
        ;
    } else {
        assert(number(m) == (0x80_0000 + m as int % 0x80_0000) * pow2((m as int / 0x80_0000 - 1) as nat));
        assert(exponent(m) + 149 == m as int / 0x80_0000 - 1);
    }
    assert(negative(value) ==> value == m + 0x8000_0000);
    assert(!negative(value) ==> value == m);
}

/// Rounding a value times a power of two away from nothing gives the nearest whole number, and of two that are as
/// near the one further from nothing, counted in the step of binary32.
pub proof fn rounding_is_by_number(value: u32, shift: nat)
    requires
        finite(value),
    ensures
        ({
            let error = 2 * (number(value) * pow2(shift) - rounded_away(value, shift as int) * pow2(149));
            if negative(value) {
                -pow2(149) < error <= pow2(149)
            } else {
                -pow2(149) <= error < pow2(149)
            }
        }),
{
    parts_make_the_number(value);
    let (whole, power) = (significand(value), exponent(value) + shift);
    let unit = pow2(149) as int;
    let scale = pow2((exponent(value) + 149) as nat) as int;
    let grown = pow2((power + 149) as nat) as int;
    lemma_pow2_pos(149);
    lemma_pow2_pos((power + 149) as nat);
    lemma_pow2_adds((exponent(value) + 149) as nat, shift);
    let r = nearest_up(whole, power);
    let size = whole * grown;
    assert((whole * scale) * pow2(shift) == size) by (nonlinear_arith)
        requires
            grown == scale * pow2(shift),
            size == whole * grown,
    ;
    assert(-unit <= 2 * (size - r * unit) < unit) by {
        if power >= 0 {
            lemma_pow2_adds(power as nat, 149);
            let p = pow2(power as nat) as int;
            assert(size == r * unit) by (nonlinear_arith)
                requires
                    size == whole * grown,
                    grown == p * unit,
                    r == whole * p,
            ;
        } else {
            the_nearest_whole_is_within_a_half(whole, power);
            let parts = pow2((-power) as nat) as int;
            lemma_pow2_adds((-power) as nat, (power + 149) as nat);
            assert(-unit <= 2 * (whole * grown - r * unit) < unit) by (nonlinear_arith)
                requires
                    unit == parts * grown,
                    -parts <= 2 * whole - 2 * r * parts < parts,
                    grown > 0,
            ;
        }
    }
    let away = rounded_away(value, shift as int);
    if negative(value) {
        assert(number(value) * pow2(shift) - away * unit == -(size - r * unit)) by (nonlinear_arith)
            requires
                number(value) == -(whole * scale),
                (whole * scale) * pow2(shift) == size,
                away == -r,
        ;
    }
}

/// A floor is the largest whole number that is no more than the value, counted in the step of binary32.
pub proof fn whole_numbers_are_by_number(value: u32)
    requires
        finite(value),
    ensures
        floored(value) * pow2(149) <= number(value) < (floored(value) + 1) * pow2(149),
{
    parts_make_the_number(value);
    let (whole, power) = (significand(value), exponent(value));
    let unit = pow2(149) as int;
    lemma_pow2_pos(149);
    let scale = pow2((power + 149) as nat) as int;
    lemma_pow2_pos((power + 149) as nat);
    if power >= 0 {
        lemma_pow2_adds(power as nat, 149);
        let p = pow2(power as nat) as int;
        assert(whole * scale == (whole * p) * unit) by (nonlinear_arith)
            requires
                scale == p * unit,
        ;
        let f = floored(value);
        assert(number(value) == f * unit) by (nonlinear_arith)
            requires
                whole * scale == (whole * p) * unit,
                f == (if negative(value) {
                    -(whole * p)
                } else {
                    whole * p
                }),
                number(value) == (if negative(value) {
                    -(whole * scale)
                } else {
                    whole * scale
                }),
        ;
        assert(f * unit <= number(value) < (f + 1) * unit) by (nonlinear_arith)
            requires
                number(value) == f * unit,
                unit > 0,
        ;
    } else {
        a_floor_is_below_its_value(value);
        let parts = pow2((-power) as nat) as int;
        lemma_pow2_adds((-power) as nat, (power + 149) as nat);
        let signed = if negative(value) {
            -whole
        } else {
            whole
        };
        let f = floored(value);
        assert(number(value) == signed * scale) by (nonlinear_arith)
            requires
                number(value) == (if negative(value) {
                    -(whole * scale)
                } else {
                    whole * scale
                }),
                signed == (if negative(value) {
                    -whole
                } else {
                    whole
                }),
        ;
        assert(f * unit <= signed * scale < (f + 1) * unit) by (nonlinear_arith)
            requires
                unit == parts * scale,
                0 <= signed - f * parts < parts,
                scale > 0,
        ;
    }
}

// ---------------------------------------------------------------------------------------------
// Rounding to whole numbers.
// ---------------------------------------------------------------------------------------------
/// The whole number a finite value is a power of two times, its sign left out.
pub open spec fn significand(value: u32) -> int {
    let m = magnitude(value);
    if m < 0x80_0000 {
        m
    } else {
        m % 0x80_0000 + 0x80_0000
    }
}

/// The power of two a finite value is its significand times.
pub open spec fn exponent(value: u32) -> int {
    let m = magnitude(value);
    if m < 0x80_0000 {
        -149
    } else {
        m / 0x80_0000 - 150
    }
}

/// `whole * 2^power`, rounded to a whole number, halves up.
pub open spec fn nearest_up(whole: int, power: int) -> int {
    if power >= 0 {
        whole * pow2(power as nat)
    } else {
        (2 * whole + pow2((-power) as nat)) / (2 * pow2((-power) as nat)) as int
    }
}

/// `whole * 2^power`, the fraction dropped.
pub open spec fn whole_part(whole: int, power: int) -> int {
    if power >= 0 {
        whole * pow2(power as nat)
    } else {
        whole / pow2((-power) as nat) as int
    }
}

/// Whether a bit pattern has its sign bit set.
pub open spec fn negative(value: u32) -> bool {
    value >= 0x8000_0000
}

/// A finite value times `2^shift`, rounded to a whole number, halves away from zero.
pub open spec fn rounded_away(value: u32, shift: int) -> int {
    let size = nearest_up(significand(value), exponent(value) + shift);
    if negative(value) {
        -size
    } else {
        size
    }
}

/// The largest whole number that is no more than a finite value.
pub open spec fn floored(value: u32) -> int {
    let (whole, power) = (significand(value), exponent(value));
    if negative(value) {
        -(if power >= 0 {
            whole * pow2(power as nat)
        } else {
            (whole + pow2((-power) as nat) - 1) / pow2((-power) as nat) as int
        })
    } else {
        whole_part(whole, power)
    }
}

/// A whole number held between two others.
pub open spec fn between(low: int, number: int, high: int) -> int {
    if number < low {
        low
    } else if number > high {
        high
    } else {
        number
    }
}

fn power_of_two(power: u32) -> (result: u64)
    requires
        power <= 40,
    ensures
        result == pow2(power as nat),
        1 <= result <= 0x100_0000_0000,
{
    let mut result: u64 = 1;
    let mut next: u32 = 0;
    proof {
        lemma2_to64();
        a_small_power(power as nat);
    }
    while next < power
        invariant
            next <= power <= 40,
            result == pow2(next as nat),
            pow2(40) == 0x100_0000_0000,
        decreases power - next,
    {
        proof {
            lemma_pow2_unfold((next + 1) as nat);
            a_small_power((next + 1) as nat);
        }
        result = result * 2;
        next = next + 1;
    }
    result
}

proof fn a_small_power(power: nat)
    requires
        power <= 40,
    ensures
        1 <= pow2(power) <= pow2(40) == 0x100_0000_0000,
{
    lemma2_to64();
    lemma2_to64_rest();
    lemma_pow2_pos(power);
    if power < 40 {
        lemma_pow2_strictly_increases(power, 40);
    }
}

/// The significand and the exponent of a value.
fn taken_apart(value: u32) -> (parts: (u64, i64))
    requires
        finite(value),
    ensures
        parts.0 == significand(value),
        parts.1 == exponent(value),
        0 <= parts.0 < 0x100_0000,
        -149 <= parts.1 <= 104,
        parts.1 > -149 ==> parts.0 >= 0x80_0000,
{
    let size: u32 = if value >= 0x8000_0000 {
        value - 0x8000_0000
    } else {
        value
    };
    if size < 0x80_0000 {
        (size as u64, -149)
    } else {
        ((size % 0x80_0000 + 0x80_0000) as u64, (size / 0x80_0000) as i64 - 150)
    }
}

/// A small whole number is less than half of a large power of two.
proof fn small_against_a_power(whole: int, power: nat)
    requires
        0 <= whole < 0x100_0000,
        power > 24,
    ensures
        (2 * whole + pow2(power)) / (2 * pow2(power)) as int == 0,
        whole / pow2(power) as int == 0,
        whole > 0 ==> (whole + pow2(power) - 1) / pow2(power) as int == 1,
        whole == 0 ==> (whole + pow2(power) - 1) / pow2(power) as int == 0,
{
    lemma2_to64();
    let p = pow2(power) as int;
    lemma_pow2_strictly_increases(24, power);
    assert(p > 2 * whole) by {
        if power > 25 {
            lemma_pow2_strictly_increases(25, power);
        }
    }
    assert((2 * whole + p) / (2 * p) == 0) by {
        lemma_fundamental_div_mod_converse(2 * whole + p, 2 * p, 0, 2 * whole + p);
    }
    assert(whole / p == 0) by {
        lemma_fundamental_div_mod_converse(whole, p, 0, whole);
    }
    if whole > 0 {
        lemma_fundamental_div_mod_converse(whole + p - 1, p, 1, whole - 1);
    } else {
        lemma_fundamental_div_mod_converse(whole + p - 1, p, 0, p - 1);
    }
}

/// A large power of two takes a normal significand past every `i64`.
proof fn large_against_a_power(whole: int, power: nat)
    requires
        whole >= 0x80_0000,
        power >= 40,
    ensures
        whole * pow2(power) > i64::MAX,
{
    lemma2_to64();
    lemma2_to64_rest();
    if power > 40 {
        lemma_pow2_strictly_increases(40, power);
    }
    assert(whole * pow2(power) >= 0x80_0000 * 0x100_0000_0000) by (nonlinear_arith)
        requires
            whole >= 0x80_0000,
            pow2(power) >= 0x100_0000_0000,
    ;
}

/// A finite value times `2^shift`, rounded to a whole number, halves away from zero, and held to the numbers of
/// an `i64`.
pub fn round_away(value: u32, shift: u32) -> (rounded: i64)
    requires
        finite(value),
        shift <= 8,
    ensures
        rounded == between(i64::MIN as int, rounded_away(value, shift as int), i64::MAX as int),
{
    let (whole, power): (u64, i64) = taken_apart(value);
    let total: i64 = power + shift as i64;
    if total >= 40 {
        proof {
            large_against_a_power(whole as int, total as nat);
        }
        return if value >= 0x8000_0000 {
            -0x8000_0000_0000_0000
        } else {
            0x7fff_ffff_ffff_ffff
        };
    }
    let size: u64 = if total >= 0 {
        let scale: u64 = power_of_two(total as u32);
        proof {
            lemma2_to64_rest();
            if total < 39 {
                lemma_pow2_strictly_increases(total as nat, 39);
            }
            assert(whole * scale < 0x100_0000 * 0x80_0000_0000) by (nonlinear_arith)
                requires
                    0 <= whole < 0x100_0000,
                    1 <= scale <= 0x80_0000_0000,
            ;
            assert(whole * scale >= 0) by (nonlinear_arith)
                requires
                    0 <= whole,
                    1 <= scale,
            ;
        }
        whole * scale
    } else if total < -24 {
        proof {
            small_against_a_power(whole as int, (-total) as nat);
        }
        0
    } else {
        let scale: u64 = power_of_two((-total) as u32);
        (2 * whole + scale) / (2 * scale)
    };
    proof {
        assert(size == nearest_up(significand(value), exponent(value) + shift));
        assert(size <= i64::MAX) by {
            if total < 0 && total >= -24 {
                let scale = pow2((-total) as nat) as int;
                a_small_power((-total) as nat);
                lemma_div_is_ordered_by_denominator(2 * whole + scale, 1, 2 * scale);
                vstd::arithmetic::div_mod::lemma_div_basics_2(2 * whole + scale);
            }
        }
    }
    if value >= 0x8000_0000 {
        -(size as i64)
    } else {
        size as i64
    }
}

/// The largest whole number that is no more than a finite value, held to the numbers of an `i64`.
pub fn floor_wide(value: u32) -> (whole: i64)
    requires
        finite(value),
    ensures
        whole == between(i64::MIN as int, floored(value), i64::MAX as int),
{
    let (whole, power): (u64, i64) = taken_apart(value);
    let below_zero: bool = value >= 0x8000_0000;
    if power >= 40 {
        proof {
            large_against_a_power(whole as int, power as nat);
        }
        return if below_zero {
            -0x8000_0000_0000_0000
        } else {
            0x7fff_ffff_ffff_ffff
        };
    }
    let size: u64 = if power >= 0 {
        let scale: u64 = power_of_two(power as u32);
        proof {
            lemma2_to64_rest();
            if power < 39 {
                lemma_pow2_strictly_increases(power as nat, 39);
            }
            assert(0 <= whole * scale < 0x100_0000 * 0x80_0000_0000) by (nonlinear_arith)
                requires
                    0 <= whole < 0x100_0000,
                    1 <= scale <= 0x80_0000_0000,
            ;
        }
        whole * scale
    } else if power < -24 {
        proof {
            small_against_a_power(whole as int, (-power) as nat);
        }
        if below_zero && whole > 0 {
            1
        } else {
            0
        }
    } else {
        let scale: u64 = power_of_two((-power) as u32);
        proof {
            let s = scale as int;
            lemma_div_is_ordered_by_denominator(whole as int, 1, s);
            lemma_div_is_ordered_by_denominator(whole + s - 1, 1, s);
            vstd::arithmetic::div_mod::lemma_div_basics_2(whole as int);
            vstd::arithmetic::div_mod::lemma_div_basics_2(whole + s - 1);
        }
        if below_zero {
            (whole + (scale - 1)) / scale
        } else {
            whole / scale
        }
    };
    if below_zero {
        -(size as i64)
    } else {
        size as i64
    }
}

/// The largest whole number that is no more than a finite value, held to the numbers of an `i32`.
pub fn floor_of(value: u32) -> (whole: i32)
    requires
        finite(value),
    ensures
        whole == between(i32::MIN as int, floored(value), i32::MAX as int),
{
    let wide: i64 = floor_wide(value);
    if wide < -0x8000_0000 {
        -0x8000_0000
    } else if wide > 0x7fff_ffff {
        0x7fff_ffff
    } else {
        wide as i32
    }
}

/// Rounding goes to the nearest whole number, and a half goes up: twice the error, counted in the parts the
/// number is made of, is from one whole down to short of one.
pub proof fn the_nearest_whole_is_within_a_half(whole: int, power: int)
    requires
        whole >= 0,
        power < 0,
    ensures
        ({
            let parts = pow2((-power) as nat);
            -parts <= 2 * whole - 2 * nearest_up(whole, power) * parts < parts
        }),
{
    let parts = pow2((-power) as nat) as int;
    lemma_pow2_pos((-power) as nat);
    lemma_fundamental_div_mod(2 * whole + parts, 2 * parts);
    let (q, r) = ((2 * whole + parts) / (2 * parts), (2 * whole + parts) % (2 * parts));
    assert(-parts <= 2 * whole - 2 * q * parts < parts) by (nonlinear_arith)
        requires
            2 * whole + parts == 2 * parts * q + r,
            0 <= r < 2 * parts,
    ;
}

/// The floor of a value is no more than it, and less than one below it: counted in the parts the value is made
/// of, the value is past its floor by fewer parts than a whole has.
pub proof fn a_floor_is_below_its_value(value: u32)
    requires
        exponent(value) < 0,
    ensures
        ({
            let parts = pow2((-exponent(value)) as nat);
            let number = if negative(value) {
                -significand(value)
            } else {
                significand(value)
            };
            0 <= number - floored(value) * parts < parts
        }),
{
    let whole = significand(value);
    let parts = pow2((-exponent(value)) as nat) as int;
    lemma_pow2_pos((-exponent(value)) as nat);
    if negative(value) {
        lemma_fundamental_div_mod(whole + parts - 1, parts);
        let (q, r) = ((whole + parts - 1) / parts, (whole + parts - 1) % parts);
        assert(0 <= -whole - (-q) * parts < parts) by (nonlinear_arith)
            requires
                whole + parts - 1 == parts * q + r,
                0 <= r < parts,
        ;
    } else {
        lemma_fundamental_div_mod(whole, parts);
        let (q, r) = (whole / parts, whole % parts);
        assert(0 <= whole - q * parts < parts) by (nonlinear_arith)
            requires
                whole == parts * q + r,
                0 <= r < parts,
        ;
    }
}

/// A finite value that is not below nothing has a floor that is not.
pub proof fn a_floor_keeps_its_sign(value: u32)
    requires
        finite(value),
        !below(value, 0),
    ensures
        floored(value) >= 0,
{
    let (whole, power) = (significand(value), exponent(value));
    assert(whole >= 0);
    if power >= 0 {
        lemma_pow2_pos(power as nat);
        assert(whole * pow2(power as nat) >= 0) by (nonlinear_arith)
            requires
                whole >= 0,
                pow2(power as nat) > 0,
        ;
    } else {
        let parts = pow2((-power) as nat) as int;
        lemma_pow2_pos((-power) as nat);
        if negative(value) {
            assert(magnitude(value) == 0);
            lemma_fundamental_div_mod_converse(parts - 1, parts, 0, parts - 1);
        } else {
            vstd::arithmetic::div_mod::lemma_div_pos_is_pos(whole, parts);
        }
    }
}

} // verus!
