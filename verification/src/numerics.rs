//! Scalar helpers: clamping, and what can be read off a double-precision
//! number without computing with it.
//!
//! A double is stored in 64 bits: a sign bit, an 11-bit exponent field and a
//! 52-bit fraction field. Sign bit aside, the pattern read as an integer is
//! the number's *magnitude*; it grows with the absolute value of the number.
//! An exponent field of all ones marks the infinities (fraction zero) and
//! the not-a-number patterns (any other fraction). Every other pattern
//! stands for the number
//!
//! ```text
//! ± significand × 2^(exponent − 1075)
//! ```
//!
//! where the significand is the fraction plus 2^52, except that an exponent
//! field of zero stands for exponent 1 and adds nothing to the fraction.
//!
//! From the pattern alone, and exactly, this module tells the order of two
//! numbers, whether a number is zero or nearly zero, whether it rounds down
//! to an even whole number, and which level of 0..=255 it rounds to. Sums,
//! products and roots are not formed here.
use vstd::arithmetic::power2::{
    lemma2_to64, lemma2_to64_rest, lemma_pow2_pos, lemma_pow2_strictly_increases, pow2,
};
use vstd::bits::lemma_u64_shl_is_mul;
use vstd::prelude::*;

verus! {

/// The pattern whose only set bit is the sign bit: negative zero.
pub const SIGN_BIT: u64 = 0x8000_0000_0000_0000;

/// The magnitude of the infinities: exponent field all ones, fraction zero.
pub const INFINITY: u64 = 0x7ff0_0000_0000_0000;

/// Two to the power of 52: one step of the exponent field.
pub const FRACTION_RANGE: u64 = 0x10_0000_0000_0000;

/// The magnitude of the tolerance 0.00001, below which a number counts as
/// zero.
pub const EPSILON: u64 = 0x3ee4_f8b5_88e3_68f1;

/// The pattern without its sign bit.
pub open spec fn magnitude(bits: u64) -> nat {
    if bits < SIGN_BIT {
        bits as nat
    } else {
        (bits - SIGN_BIT) as nat
    }
}

/// Whether the sign bit is set. Negative zero is negative in this sense.
pub open spec fn is_negative(bits: u64) -> bool {
    bits >= SIGN_BIT
}

/// Whether the pattern stands for no number at all.
pub open spec fn is_nan(bits: u64) -> bool {
    magnitude(bits) > INFINITY
}

/// Whether the pattern stands for a number that is not infinite.
pub open spec fn is_finite(bits: u64) -> bool {
    magnitude(bits) < INFINITY
}

/// The pattern of the number with the opposite sign.
pub open spec fn negation(bits: u64) -> u64 {
    if bits < SIGN_BIT {
        (bits + SIGN_BIT) as u64
    } else {
        (bits - SIGN_BIT) as u64
    }
}

/// The order key: the magnitude with the sign of the number, and the least
/// value of all for a pattern that stands for no number.
pub open spec fn key_of(bits: u64) -> int {
    if is_nan(bits) {
        i64::MIN as int
    } else if is_negative(bits) {
        -magnitude(bits)
    } else {
        magnitude(bits) as int
    }
}

/// The order key of the double-precision number with the given bit pattern.
///
/// Keys order as the numbers do: of two numbers the greater has the greater
/// key, and equal numbers have equal keys. Both zeros, `+0.0` and `-0.0`,
/// get the key zero, positive numbers positive keys, negative numbers
/// negative keys. A pattern that stands for no number gets a key below all
/// others, so that it is never found greater than, or equal to, a number.
pub fn order_key(bits: u64) -> (key: i64)
    ensures
        key == key_of(bits),
        key == 0 <==> magnitude(bits) == 0,
        key > 0 <==> 0 < bits <= INFINITY,
{
    let magnitude: u64 = if bits < SIGN_BIT {
        bits
    } else {
        bits - SIGN_BIT
    };
    if magnitude > INFINITY {
        i64::MIN
    } else if bits < SIGN_BIT {
        magnitude as i64
    } else {
        -(magnitude as i64)
    }
}

/// The number with the opposite sign has the opposite key, and the
/// infinities have keys beyond those of all finite numbers.
pub proof fn lemma_keys_of_negations_and_infinities(bits: u64)
    requires
        !is_nan(bits),
    ensures
        key_of(negation(bits)) == -key_of(bits),
        key_of(negation(INFINITY)) <= key_of(bits) <= key_of(INFINITY),
        is_finite(bits) ==> key_of(negation(INFINITY)) < key_of(bits) < key_of(INFINITY),
{
}

/// Whether the first number is less than the second: whether `a < b` holds
/// of them. Nothing is less than, or greater than, a pattern that stands
/// for no number.
pub open spec fn is_less(first: u64, second: u64) -> bool {
    !is_nan(first) && !is_nan(second) && key_of(first) < key_of(second)
}

/// Whether the first number is less than the second.
pub fn less_than(first: u64, second: u64) -> (less: bool)
    ensures
        less == is_less(first, second),
{
    let first_key: i64 = order_key(first);
    let second_key: i64 = order_key(second);
    first_key != i64::MIN && second_key != i64::MIN && first_key < second_key
}

/// The number limited to the range from `min` to `max`.
///
/// Below `min` the result is `min`; otherwise, above `max` it is `max`;
/// otherwise it is `number` itself. The lower bound is tested first, so with
/// `min > max` every `number < min` still yields `min`. A pattern that
/// stands for no number is neither below `min` nor above `max` and comes
/// back as it is.
pub open spec fn clamped(number: u64, min: u64, max: u64) -> u64 {
    if is_less(number, min) {
        min
    } else if is_less(max, number) {
        max
    } else {
        number
    }
}

/// Limits `number` to the range from `min` to `max`.
pub fn clamp_number(number: u64, min: u64, max: u64) -> (limited: u64)
    ensures
        limited == clamped(number, min, max),
{
    if less_than(number, min) {
        min
    } else if less_than(max, number) {
        max
    } else {
        number
    }
}

/// A number limited to a range lies within the range whenever the bounds
/// are ordered, limiting a number that lies within the range already
/// changes nothing, and limiting twice is the same as limiting once.
pub proof fn lemma_clamped_is_within(number: u64, min: u64, max: u64)
    requires
        !is_nan(number),
        !is_nan(min),
        !is_nan(max),
        key_of(min) <= key_of(max),
    ensures
        key_of(min) <= key_of(clamped(number, min, max)) <= key_of(max),
        key_of(min) <= key_of(number) <= key_of(max) ==> clamped(number, min, max) == number,
        clamped(clamped(number, min, max), min, max) == clamped(number, min, max),
{
}

/// The two roots of a quadratic equation in ascending order, or none.
///
/// A quadratic equation has real roots unless its discriminant is less than
/// zero. `first` and `second` are the two roots as computed from the
/// discriminant, in any order; they are not read when there are none.
pub open spec fn roots_in_order(discriminant: u64, first: u64, second: u64) -> Option<(u64, u64)> {
    if is_less(discriminant, 0) {
        None
    } else if is_less(second, first) {
        Some((second, first))
    } else {
        Some((first, second))
    }
}

/// Decides whether a quadratic equation has real roots and puts them in
/// ascending order. Equal roots, of an equation with discriminant zero, are
/// both reported.
pub fn ordered_roots(discriminant: u64, first: u64, second: u64) -> (roots: Option<(u64, u64)>)
    ensures
        roots == roots_in_order(discriminant, first, second),
        roots matches Some((lower, upper)) ==> !is_less(upper, lower),
{
    if less_than(discriminant, 0) {
        None
    } else if less_than(second, first) {
        Some((second, first))
    } else {
        Some((first, second))
    }
}

/// Whether the number differs from zero: whether `x != 0.0` holds of it.
/// That is so for every pattern but the two zeros, not-a-number included.
pub fn is_nonzero(bits: u64) -> (nonzero: bool)
    ensures
        nonzero == (magnitude(bits) != 0),
{
    bits != 0 && bits != SIGN_BIT
}

/// Whether the number lies within the tolerance of zero: whether its
/// absolute value is less than 0.00001.
pub open spec fn is_approx_zero(bits: u64) -> bool {
    magnitude(bits) < EPSILON
}

/// Whether the number lies within the tolerance of zero.
///
/// Two numbers count as equal when their difference does.
pub fn approx_zero(bits: u64) -> (near: bool)
    ensures
        near == is_approx_zero(bits),
{
    if bits < SIGN_BIT {
        bits < EPSILON
    } else {
        bits - SIGN_BIT < EPSILON
    }
}

/// Being nearly zero does not depend on the sign, and both zeros are nearly
/// zero. So equality up to the tolerance is symmetric, a difference taken
/// the other way round having the opposite sign, and reflexive, the
/// difference of a finite number to itself being zero.
pub proof fn lemma_approx_zero_ignores_sign(bits: u64)
    ensures
        is_approx_zero(negation(bits)) == is_approx_zero(bits),
        magnitude(bits) == 0 ==> is_approx_zero(bits),
        is_approx_zero(bits) ==> is_finite(bits),
{
}

/// The exponent: the exponent field, with 1 in place of 0.
pub open spec fn exponent(bits: u64) -> nat {
    let field = magnitude(bits) / (FRACTION_RANGE as nat);
    if field == 0 {
        1
    } else {
        field
    }
}

/// The significand: the fraction field, plus 2^52 unless the exponent field
/// is zero.
pub open spec fn significand(bits: u64) -> nat {
    let field = magnitude(bits) / (FRACTION_RANGE as nat);
    let fraction = magnitude(bits) % (FRACTION_RANGE as nat);
    if field == 0 {
        fraction
    } else {
        fraction + FRACTION_RANGE as nat
    }
}

/// The significand with the sign of the number.
pub open spec fn signed_significand(bits: u64) -> int {
    if is_negative(bits) {
        -significand(bits)
    } else {
        significand(bits) as int
    }
}

/// The absolute value of the finite number with this pattern, counted in
/// units of 2^-1074, the least positive double. Every finite double is a
/// whole number of these units.
pub open spec fn units_of_magnitude(bits: u64) -> nat {
    significand(bits) * pow2((exponent(bits) - 1) as nat)
}

/// The finite number with this pattern, counted in units of 2^-1074.
pub open spec fn units(bits: u64) -> int {
    if is_negative(bits) {
        -units_of_magnitude(bits)
    } else {
        units_of_magnitude(bits) as int
    }
}

/// The number one, counted in units of 2^-1074.
pub open spec fn one() -> nat {
    pow2(1074)
}

/// The greatest whole number that is not greater than the finite number
/// with this pattern.
pub open spec fn floor_of(bits: u64) -> int {
    units(bits) / (one() as int)
}

/// The whole number nearest to the absolute value of the finite number with
/// this pattern; of two that are equally near, the greater.
pub open spec fn round_of_magnitude(bits: u64) -> nat {
    (2 * units_of_magnitude(bits) + one()) / (2 * one())
}

/// The whole number nearest to the finite number with this pattern; a number
/// halfway between two whole numbers goes to the one farther from zero.
pub open spec fn round_of(bits: u64) -> int {
    if is_negative(bits) {
        -round_of_magnitude(bits)
    } else {
        round_of_magnitude(bits) as int
    }
}

/// Whether the number is finite and rounds down to an even whole number.
pub open spec fn floor_is_even(bits: u64) -> bool {
    is_finite(bits) && floor_of(bits) % 2 == 0
}

/// The pattern of the number 255.
pub const FULL_SCALE: u64 = 0x406f_e000_0000_0000;

/// The level of 0..=255 that the number rounds to: the number limited to
/// the range from 0 to 255 and then rounded. A pattern that stands for no
/// number gives level 0.
pub open spec fn level_of(bits: u64) -> int {
    let limited = clamped(bits, 0, FULL_SCALE);
    if is_nan(limited) {
        0
    } else {
        round_of(limited)
    }
}

proof fn lemma_fraction_range()
    ensures
        pow2(52) == FRACTION_RANGE,
        pow2(53) == 2 * FRACTION_RANGE,
        pow2(54) == 4 * FRACTION_RANGE,
{
    lemma2_to64();
    lemma2_to64_rest();
}

proof fn lemma_pow2_doubles(e: nat)
    ensures
        pow2(e + 1) == 2 * pow2(e),
        pow2(e) > 0,
{
    vstd::arithmetic::power2::lemma_pow2_unfold(e + 1);
    lemma_pow2_pos(e);
}

/// Floor division of a negated number: `-(a / d)` if `d` divides `a`, else
/// one less.
proof fn lemma_floor_of_negative(a: int, d: int)
    requires
        0 <= a,
        0 < d,
    ensures
        (-a) / d == if a % d == 0 {
            -(a / d)
        } else {
            -(a / d) - 1
        },
{
    vstd::arithmetic::div_mod::lemma_fundamental_div_mod(a, d);
    vstd::arithmetic::div_mod::lemma_fundamental_div_mod(-a, d);
    let q = a / d;
    let r = a % d;
    if r == 0 {
        assert(-a == d * (-q) + 0) by (nonlinear_arith)
            requires
                a == d * q + r,
                r == 0,
        ;
        vstd::arithmetic::div_mod::lemma_fundamental_div_mod_converse(-a, d, -q, 0);
    } else {
        assert(-a == d * (-q - 1) + (d - r)) by (nonlinear_arith)
            requires
                a == d * q + r,
        ;
        vstd::arithmetic::div_mod::lemma_fundamental_div_mod_converse(-a, d, -q - 1, d - r);
    }
}

/// How the units split at the number one: a number with exponent 1075 or
/// more is a whole number, and below that, its significand is divided by a
/// power of two.
proof fn lemma_units_by_cases(bits: u64)
    ensures
        exponent(bits) >= 1075 ==> units_of_magnitude(bits) == (significand(bits) * pow2(
            (exponent(bits) - 1075) as nat,
        )) * one(),
        exponent(bits) < 1075 ==> one() == pow2((exponent(bits) - 1) as nat) * pow2(
            (1075 - exponent(bits)) as nat,
        ) && units_of_magnitude(bits) == pow2((exponent(bits) - 1) as nat) * significand(bits),
        one() > 0,
{
    let e = exponent(bits);
    let m = significand(bits) as int;
    lemma_pow2_pos(1074);
    if e >= 1075 {
        let doublings = (e - 1075) as nat;
        vstd::arithmetic::power2::lemma_pow2_adds(doublings, 1074);
        assert(pow2((e - 1) as nat) == pow2(doublings) * pow2(1074));
        vstd::arithmetic::mul::lemma_mul_is_associative(
            m,
            pow2(doublings) as int,
            pow2(1074) as int,
        );
    } else {
        let halvings = (1075 - e) as nat;
        vstd::arithmetic::power2::lemma_pow2_adds((e - 1) as nat, halvings);
        vstd::arithmetic::mul::lemma_mul_is_commutative(m, pow2((e - 1) as nat) as int);
    }
}

/// Rounding down, by cases: whole numbers stay, and below exponent 1075 the
/// signed significand is divided by a power of two, rounding down.
proof fn lemma_floor_by_cases(bits: u64)
    ensures
        exponent(bits) >= 1075 ==> floor_of(bits) == signed_significand(bits) * pow2(
            (exponent(bits) - 1075) as nat,
        ),
        exponent(bits) < 1075 ==> floor_of(bits) == signed_significand(bits) / (pow2(
            (1075 - exponent(bits)) as nat,
        ) as int),
{
    let e = exponent(bits);
    let m = significand(bits) as int;
    let unit = one() as int;
    lemma_units_by_cases(bits);
    if e >= 1075 {
        let whole = m * pow2((e - 1075) as nat);
        assert(whole >= 0) by (nonlinear_arith)
            requires
                whole == m * pow2((e - 1075) as nat),
                m >= 0,
        ;
        vstd::arithmetic::div_mod::lemma_div_by_multiple(whole, unit);
        if is_negative(bits) {
            vstd::arithmetic::div_mod::lemma_mod_multiples_basic(whole, unit);
            lemma_floor_of_negative(whole * unit, unit);
            assert((-m) * pow2((e - 1075) as nat) == -whole) by (nonlinear_arith)
                requires
                    whole == m * pow2((e - 1075) as nat),
            ;
        }
    } else {
        let shared = pow2((e - 1) as nat) as int;
        let divisor = pow2((1075 - e) as nat) as int;
        lemma_pow2_pos((e - 1) as nat);
        lemma_pow2_pos((1075 - e) as nat);
        vstd::arithmetic::div_mod::lemma_div_multiples_vanish_quotient(shared, m, divisor);
        if is_negative(bits) {
            vstd::arithmetic::div_mod::lemma_truncate_middle(m, shared, divisor);
            lemma_floor_of_negative(shared * m, unit);
            lemma_floor_of_negative(m, divisor);
            assert((shared * (m % divisor) == 0) == (m % divisor == 0)) by (nonlinear_arith)
                requires
                    shared > 0,
            ;
        }
    }
}

/// Rounding to the nearest, by cases: whole numbers stay, and below
/// exponent 1075 the significand is divided by a power of two, a remainder
/// of one half or more rounding up.
proof fn lemma_round_by_cases(bits: u64)
    ensures
        exponent(bits) >= 1075 ==> round_of_magnitude(bits) == significand(bits) * pow2(
            (exponent(bits) - 1075) as nat,
        ),
        exponent(bits) < 1075 ==> round_of_magnitude(bits) == (2 * significand(bits) + pow2(
            (1075 - exponent(bits)) as nat,
        )) / (2 * pow2((1075 - exponent(bits)) as nat)),
{
    let e = exponent(bits);
    let m = significand(bits) as int;
    let unit = one() as int;
    lemma_units_by_cases(bits);
    if e >= 1075 {
        let whole = m * pow2((e - 1075) as nat);
        assert(whole >= 0) by (nonlinear_arith)
            requires
                whole == m * pow2((e - 1075) as nat),
                m >= 0,
        ;
        assert(2 * (whole * unit) + unit == whole * (2 * unit) + unit) by (nonlinear_arith);
        vstd::arithmetic::div_mod::lemma_fundamental_div_mod_converse(
            2 * (whole * unit) + unit,
            2 * unit,
            whole,
            unit,
        );
    } else {
        let shared = pow2((e - 1) as nat) as int;
        let divisor = pow2((1075 - e) as nat) as int;
        lemma_pow2_pos((e - 1) as nat);
        lemma_pow2_pos((1075 - e) as nat);
        assert(2 * (shared * m) + shared * divisor == shared * (2 * m + divisor))
            by (nonlinear_arith);
        assert(2 * (shared * divisor) == shared * (2 * divisor)) by (nonlinear_arith);
        vstd::arithmetic::div_mod::lemma_div_multiples_vanish_quotient(
            shared,
            2 * m + divisor,
            2 * divisor,
        );
    }
}

/// Among finite numbers that are not negative, the greater magnitude
/// belongs to the greater number.
proof fn lemma_units_grow_with_magnitude(first: u64, second: u64)
    requires
        is_finite(first),
        is_finite(second),
        magnitude(first) < magnitude(second),
    ensures
        units_of_magnitude(first) < units_of_magnitude(second),
{
    lemma_fraction_range();
    let range = FRACTION_RANGE as nat;
    let first_field = magnitude(first) / range;
    let second_field = magnitude(second) / range;
    let m1 = significand(first) as int;
    let m2 = significand(second) as int;
    let e1 = exponent(first);
    let e2 = exponent(second);
    let p1 = pow2((e1 - 1) as nat) as int;
    let p2 = pow2((e2 - 1) as nat) as int;
    lemma_pow2_pos((e1 - 1) as nat);
    lemma_pow2_pos((e2 - 1) as nat);
    assert(first_field <= second_field);
    if e1 == e2 {
        assert(m1 < m2);
        vstd::arithmetic::mul::lemma_mul_strict_inequality(m1, m2, p1);
    } else {
        assert(e1 < e2);
        assert(m1 < 2 * range);
        assert(m2 >= range);
        lemma_pow2_doubles((e1 - 1) as nat);
        if e1 < e2 - 1 {
            lemma_pow2_strictly_increases(e1, (e2 - 1) as nat);
        }
        assert(2 * p1 <= p2);
        assert(m1 * p1 < m2 * p2) by (nonlinear_arith)
            requires
                0 <= m1 < 2 * range,
                m2 >= range,
                range > 0,
                0 < p1,
                2 * p1 <= p2,
        ;
    }
}

/// Keys order as the numbers do: of two finite numbers, the one with the
/// greater key is the greater number, and two with the same key are the same
/// number.
pub proof fn lemma_keys_order_as_numbers(first: u64, second: u64)
    requires
        is_finite(first),
        is_finite(second),
    ensures
        key_of(first) < key_of(second) <==> units(first) < units(second),
        key_of(first) == key_of(second) <==> units(first) == units(second),
{
    if magnitude(first) < magnitude(second) {
        lemma_units_grow_with_magnitude(first, second);
    } else if magnitude(second) < magnitude(first) {
        lemma_units_grow_with_magnitude(second, first);
    }
    lemma_zero_has_no_units(first);
    lemma_zero_has_no_units(second);
}

/// Only the two zeros stand for the number zero.
proof fn lemma_zero_has_no_units(bits: u64)
    requires
        is_finite(bits),
    ensures
        units_of_magnitude(bits) == 0 <==> magnitude(bits) == 0,
{
    lemma_fraction_range();
    let m = significand(bits) as int;
    let p = pow2((exponent(bits) - 1) as nat) as int;
    lemma_pow2_pos((exponent(bits) - 1) as nat);
    if magnitude(bits) == 0 {
        assert(m == 0);
        assert(m * p == 0) by (nonlinear_arith)
            requires
                m == 0,
        ;
    } else {
        assert(m > 0);
        assert(m * p > 0) by (nonlinear_arith)
            requires
                m > 0,
                p > 0,
        ;
    }
}

/// The tolerance is the number 0.00001: a finite number lies within the
/// tolerance of zero exactly if its absolute value is less than that of the
/// number with the pattern `EPSILON`.
pub proof fn lemma_approx_zero_is_below_epsilon(bits: u64)
    requires
        is_finite(bits),
    ensures
        is_approx_zero(bits) <==> units_of_magnitude(bits) < units_of_magnitude(EPSILON),
{
    if magnitude(bits) < magnitude(EPSILON) {
        lemma_units_grow_with_magnitude(bits, EPSILON);
    } else if magnitude(EPSILON) < magnitude(bits) {
        lemma_units_grow_with_magnitude(EPSILON, bits);
    } else {
        assert(magnitude(bits) == magnitude(EPSILON));
    }
}

/// What the named patterns stand for: `FULL_SCALE` for the number 255
/// exactly, and `EPSILON` for the double nearest to one hundred-thousandth.
/// Doubles of the size of `EPSILON` lie `2^1005` units apart, and a hundred
/// thousand times `EPSILON` misses the number one by less than a hundred
/// thousand times half that step.
pub proof fn lemma_named_patterns()
    ensures
        units(FULL_SCALE) == 255 * one(),
        exponent(EPSILON) == 1006,
        -(100000 * pow2(1005)) < 2 * (100000 * units(EPSILON) - one()) < 100000 * pow2(1005),
{
    lemma2_to64();
    lemma2_to64_rest();
    lemma_fraction_range();
    assert(magnitude(FULL_SCALE) / (FRACTION_RANGE as nat) == 1030);
    assert(magnitude(FULL_SCALE) % (FRACTION_RANGE as nat) == 0xf_e000_0000_0000);
    assert(significand(FULL_SCALE) == 255 * 0x2000_0000_0000);
    assert(pow2(45) == 0x2000_0000_0000);
    vstd::arithmetic::power2::lemma_pow2_adds(45, 1029);
    assert(255 * pow2(45) * pow2(1029) == 255 * (pow2(45) * pow2(1029))) by (nonlinear_arith);
    assert(magnitude(EPSILON) / (FRACTION_RANGE as nat) == 1006);
    assert(magnitude(EPSILON) % (FRACTION_RANGE as nat) == 0x4_f8b5_88e3_68f1);
    assert(significand(EPSILON) == 0x14_f8b5_88e3_68f1);
    vstd::arithmetic::power2::lemma_pow2_adds(64, 5);
    assert(pow2(69) == 0x20_0000_0000_0000_0000);
    vstd::arithmetic::power2::lemma_pow2_adds(69, 1005);
    let step = pow2(1005) as int;
    lemma_pow2_pos(1005);
    assert(100000 * (0x14_f8b5_88e3_68f1 * step) - 0x20_0000_0000_0000_0000 * step == 48288 * step)
        by (nonlinear_arith);
    assert(2 * (48288 * step) < 100000 * step) by (nonlinear_arith)
        requires
            step > 0,
    ;
}

/// Whether the number is finite and rounds down to an even whole number.
///
/// This is the case for 0.5 (which rounds down to 0) and for -1.5 (to -2),
/// not for 1.0 nor for -0.5 (to -1), and for no infinity.
pub fn rounds_down_to_even(bits: u64) -> (even: bool)
    ensures
        even == floor_is_even(bits),
{
    let negative = bits >= SIGN_BIT;
    let magnitude: u64 = if negative {
        bits - SIGN_BIT
    } else {
        bits
    };
    if magnitude >= INFINITY {
        return false;
    }
    let field: u64 = magnitude / FRACTION_RANGE;
    let fraction: u64 = magnitude % FRACTION_RANGE;
    let significand: u64 = if field == 0 {
        fraction
    } else {
        fraction + FRACTION_RANGE
    };
    let exponent: u64 = if field == 0 {
        1
    } else {
        field
    };
    proof {
        lemma_fraction_range();
        assert(significand == self::significand(bits));
        assert(exponent == self::exponent(bits));
        lemma_floor_by_cases(bits);
    }
    if exponent >= 1076 {
        proof {
            let doublings = (exponent - 1075) as nat;
            lemma_pow2_doubles((doublings - 1) as nat);
            let half = pow2((doublings - 1) as nat) as int;
            assert(signed_significand(bits) * (2 * half) == 2 * (signed_significand(bits) * half))
                by (nonlinear_arith);
        }
        true
    } else if exponent == 1075 {
        proof {
            lemma2_to64();
            assert(signed_significand(bits) * 1 == signed_significand(bits));
        }
        significand % 2 == 0
    } else {
        let halvings: u64 = 1075 - exponent;
        if halvings >= 54 {
            proof {
                lemma_pow2_strictly_increases(53, halvings as nat);
                let divisor = pow2(halvings as nat) as int;
                assert(0 <= significand < divisor);
                vstd::arithmetic::div_mod::lemma_basic_div(significand as int, divisor);
                vstd::arithmetic::div_mod::lemma_small_mod(significand as nat, divisor as nat);
                if negative {
                    lemma_floor_of_negative(significand as int, divisor);
                }
            }
            !(negative && significand > 0)
        } else {
            proof {
                vstd::bits::lemma_u64_pow2_no_overflow(halvings as nat);
                lemma_u64_shl_is_mul(1, halvings);
            }
            let divisor: u64 = 1u64 << halvings;
            let quotient: u64 = significand / divisor;
            let remainder: u64 = significand % divisor;
            proof {
                assert(divisor == pow2(halvings as nat));
                if negative {
                    lemma_floor_of_negative(significand as int, divisor as int);
                }
            }
            if !negative || remainder == 0 {
                quotient % 2 == 0
            } else {
                quotient % 2 == 1
            }
        }
    }
}

proof fn lemma_round_of_zero()
    ensures
        round_of(0) == 0,
        round_of(SIGN_BIT) == 0,
{
    assert(exponent(0) == 1 && significand(0) == 0);
    assert(exponent(SIGN_BIT) == 1 && significand(SIGN_BIT) == 0);
    lemma_pow2_pos(1074);
    vstd::arithmetic::div_mod::lemma_basic_div(pow2(1074) as int, 2 * pow2(1074) as int);
}

/// Levels follow the numbers: every level lies in 0..=255, and of two
/// numbers the greater never gets the smaller level.
pub proof fn lemma_level_is_monotone(first: u64, second: u64)
    requires
        !is_nan(first),
        !is_nan(second),
        key_of(first) <= key_of(second),
    ensures
        0 <= level_of(first) <= level_of(second) <= 255,
{
    let low = clamped(first, 0, FULL_SCALE);
    let high = clamped(second, 0, FULL_SCALE);
    lemma_round_of_zero();
    lemma_named_patterns();
    lemma_pow2_pos(1074);
    let unit = one() as int;
    // Both lie between zero and 255, and in the order of the numbers.
    assert(key_of(low) <= key_of(high));
    assert(magnitude(low) <= magnitude(high) <= magnitude(FULL_SCALE));
    if magnitude(low) < magnitude(high) {
        lemma_units_grow_with_magnitude(low, high);
    }
    if magnitude(high) < magnitude(FULL_SCALE) {
        lemma_units_grow_with_magnitude(high, FULL_SCALE);
    }
    let a = units_of_magnitude(low) as int;
    let b = units_of_magnitude(high) as int;
    assert(0 <= a <= b <= 255 * unit);
    vstd::arithmetic::div_mod::lemma_div_is_ordered(2 * a + unit, 2 * b + unit, 2 * unit);
    vstd::arithmetic::div_mod::lemma_div_is_ordered(
        2 * b + unit,
        2 * (255 * unit) + unit,
        2 * unit,
    );
    assert(2 * (255 * unit) + unit == 255 * (2 * unit) + unit) by (nonlinear_arith);
    vstd::arithmetic::div_mod::lemma_fundamental_div_mod_converse(
        2 * (255 * unit) + unit,
        2 * unit,
        255,
        unit,
    );
    vstd::arithmetic::div_mod::lemma_div_pos_is_pos(2 * a + unit, 2 * unit);
}

/// The level of 0..=255 that the number rounds to.
///
/// Numbers below 0 give level 0 and numbers above 255 level 255; in between
/// a number gives the nearest whole number, 0.5 giving 1 and 254.5 giving
/// 255.
pub fn level(bits: u64) -> (level: u8)
    ensures
        level == level_of(bits),
{
    let limited: u64 = clamp_number(bits, 0, FULL_SCALE);
    proof {
        lemma_round_of_zero();
    }
    if limited >= SIGN_BIT {
        // Negative zero, or no number.
        assert(limited == SIGN_BIT || is_nan(limited));
        return 0;
    }
    if limited > INFINITY {
        return 0;
    }
    assert(limited <= FULL_SCALE);
    assert(!is_negative(limited) && !is_nan(limited));
    let field: u64 = limited / FRACTION_RANGE;
    let fraction: u64 = limited % FRACTION_RANGE;
    let significand: u64 = if field == 0 {
        fraction
    } else {
        fraction + FRACTION_RANGE
    };
    let exponent: u64 = if field == 0 {
        1
    } else {
        field
    };
    proof {
        lemma_fraction_range();
        assert(significand == self::significand(limited));
        assert(exponent == self::exponent(limited));
        assert(exponent <= 1030);
        lemma_round_by_cases(limited);
    }
    let halvings: u64 = 1075 - exponent;
    if halvings >= 55 {
        proof {
            lemma_pow2_strictly_increases(54, halvings as nat);
            let unit = pow2(halvings as nat) as int;
            assert(0 <= 2 * significand + unit < 2 * unit);
            vstd::arithmetic::div_mod::lemma_basic_div(2 * significand + unit, 2 * unit);
        }
        0
    } else {
        proof {
            vstd::bits::lemma_u64_pow2_no_overflow(halvings as nat);
            lemma_u64_shl_is_mul(1, halvings);
            lemma_pow2_strictly_increases(halvings as nat, 55);
            lemma2_to64_rest();
        }
        let unit: u64 = 1u64 << halvings;
        let rounded: u64 = (2 * significand + unit) / (2 * unit);
        proof {
            assert(pow2(45) == 0x2000_0000_0000);
            if halvings == 45 {
                assert(unit == 0x2000_0000_0000);
                assert(significand <= 255 * 0x2000_0000_0000);
            } else {
                lemma_pow2_strictly_increases(45, halvings as nat);
                assert(unit >= 0x4000_0000_0000) by {
                    vstd::arithmetic::power2::lemma_pow2_unfold(46);
                    if halvings > 46 {
                        lemma_pow2_strictly_increases(46, halvings as nat);
                    }
                }
                assert(significand < 0x20_0000_0000_0000);
            }
            assert(2 * significand + unit < 256 * (2 * unit));
            assert((2 * significand + unit) / (2 * unit) < 256) by (nonlinear_arith)
                requires
                    0 <= 2 * significand + unit < 256 * (2 * unit),
                    unit > 0,
            ;
            assert(rounded == round_of_magnitude(limited));
        }
        rounded as u8
    }
}

} // verus!
