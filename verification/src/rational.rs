//! Fractions and the conversion of timestamps between time bases.
use vstd::arithmetic::div_mod::{
    lemma_div_is_ordered, lemma_div_pos_is_pos, lemma_fundamental_div_mod,
};
use vstd::prelude::*;

verus! {

/// A fraction: a numerator and a denominator.
#[derive(Clone, Copy, Debug, PartialEq, Eq, Structural)]
pub struct Rational(pub i32, pub i32);

/// `numerator / denominator`, rounded to the nearest integer, halves upwards.
pub open spec fn round_div(numerator: int, denominator: int) -> int {
    (numerator + denominator / 2) / denominator
}

/// Whether timestamps can be converted between two time bases: the factor
/// between them is a fraction that is not negative.
pub open spec fn convertible(from: Rational, to: Rational) -> bool {
    from.0 * to.1 >= 0 && from.1 * to.0 > 0
}

/// `value` times the factor from one time base to another, rounded to the
/// nearest integer, halves away from zero.
pub open spec fn scaled(value: int, from: Rational, to: Rational) -> int {
    let numerator = from.0 * to.1;
    let denominator = from.1 * to.0;
    if value >= 0 {
        round_div(value * numerator, denominator)
    } else {
        -round_div(-value * numerator, denominator)
    }
}

/// A timestamp in another time base. `i64::MIN` stands for a conversion that
/// has no result, or none that fits into 64 bits.
pub open spec fn rescale_spec(value: int, from: Rational, to: Rational) -> int {
    if convertible(from, to) && i64::MIN <= scaled(value, from, to) <= i64::MAX {
        scaled(value, from, to)
    } else {
        i64::MIN as int
    }
}

/// Converts a timestamp from one time base to another.
pub fn rescale(value: i64, from: Rational, to: Rational) -> (converted: i64)
    ensures
        converted == rescale_spec(value as int, from, to),
{
    proof {
        lemma_product_bound(from.0 as int, to.1 as int);
        lemma_product_bound(from.1 as int, to.0 as int);
    }
    let numerator: i64 = from.0 as i64 * to.1 as i64;
    let denominator: i64 = from.1 as i64 * to.0 as i64;
    if numerator < 0 || denominator <= 0 {
        return i64::MIN;
    }
    let magnitude: u128 = if value >= 0 {
        value as u128
    } else {
        (-(value as i128)) as u128
    };
    let factor: u128 = numerator as u128;
    let divisor: u128 = denominator as u128;
    proof {
        lemma_magnitude_bound(magnitude as int, factor as int);
    }
    let rounded: u128 = (magnitude * factor + divisor / 2) / divisor;
    proof {
        assert(rounded == round_div(magnitude * factor, divisor as int));
        assert(value < 0 ==> -value * numerator == magnitude * factor);
        assert(value >= 0 ==> value * numerator == magnitude * factor);
    }
    if rounded > i64::MAX as u128 {
        i64::MIN
    } else if value >= 0 {
        rounded as i64
    } else {
        -(rounded as i64)
    }
}

proof fn lemma_product_bound(a: int, b: int)
    by (nonlinear_arith)
    requires
        -0x8000_0000 <= a < 0x8000_0000,
        -0x8000_0000 <= b < 0x8000_0000,
    ensures
        -0x4000_0000_0000_0000 <= a * b <= 0x4000_0000_0000_0000,
{
}

proof fn lemma_magnitude_bound(magnitude: int, factor: int)
    by (nonlinear_arith)
    requires
        0 <= magnitude <= 0x8000_0000_0000_0000,
        0 <= factor <= 0x4000_0000_0000_0000,
    ensures
        0 <= magnitude * factor <= 0x2000_0000_0000_0000_0000_0000_0000_0000,
{
}

proof fn lemma_round_div(numerator: int, denominator: int)
    requires
        numerator >= 0,
        denominator > 0,
    ensures
        round_div(numerator, denominator) >= 0,
        2 * numerator - denominator < 2 * (round_div(numerator, denominator) * denominator),
        2 * (round_div(numerator, denominator) * denominator) <= 2 * numerator + denominator,
{
    let sum = numerator + denominator / 2;
    lemma_fundamental_div_mod(sum, denominator);
    lemma_div_pos_is_pos(sum, denominator);
    assert(denominator * (sum / denominator) == (sum / denominator) * denominator)
        by (nonlinear_arith);
}

/// A conversion is off by at most half a tick of the time base that it goes
/// to.
pub proof fn law_rescale_is_nearest(value: int, from: Rational, to: Rational)
    requires
        convertible(from, to),
    ensures
        2 * (value * (from.0 * to.1)) - from.1 * to.0 <= 2 * (scaled(value, from, to) * (from.1
            * to.0)),
        2 * (scaled(value, from, to) * (from.1 * to.0)) <= 2 * (value * (from.0 * to.1)) + from.1
            * to.0,
{
    let numerator = from.0 * to.1;
    let denominator = from.1 * to.0;
    let magnitude = if value >= 0 {
        value
    } else {
        -value
    };
    assert(magnitude * numerator >= 0) by (nonlinear_arith)
        requires
            magnitude >= 0,
            numerator >= 0,
    ;
    lemma_round_div(magnitude * numerator, denominator);
    let rounded = round_div(magnitude * numerator, denominator);
    if value < 0 {
        assert(-value * numerator == -(value * numerator)) by (nonlinear_arith);
        assert((-rounded) * denominator == -(rounded * denominator)) by (nonlinear_arith);
    }
}

/// Later timestamps stay later or equal: conversion keeps the order of
/// timestamps that are not negative.
pub proof fn law_rescale_is_monotonic(a: int, b: int, from: Rational, to: Rational)
    requires
        convertible(from, to),
        0 <= a <= b,
    ensures
        0 <= scaled(a, from, to) <= scaled(b, from, to),
{
    let numerator = from.0 * to.1;
    let denominator = from.1 * to.0;
    assert(0 <= a * numerator <= b * numerator) by (nonlinear_arith)
        requires
            0 <= a <= b,
            numerator >= 0,
    ;
    lemma_round_div(a * numerator, denominator);
    lemma_div_is_ordered(
        a * numerator + denominator / 2,
        b * numerator + denominator / 2,
        denominator,
    );
}

/// Converting a timestamp gives the nearest integer wherever there is one: for
/// a factor that is a fraction and a result that fits into 64 bits, the result
/// is off by at most half a unit, and a value half way goes away from zero.
pub proof fn law_conversion_is_nearest(value: int, from: Rational, to: Rational, nearest: int)
    requires
        from.0 * to.1 >= 0,
        from.1 * to.0 > 0,
        i64::MIN <= nearest <= i64::MAX,
        value >= 0 ==> -(from.1 * to.0) < 2 * (nearest * (from.1 * to.0) - value * (from.0 * to.1))
            <= from.1 * to.0,
        value < 0 ==> -(from.1 * to.0) <= 2 * (nearest * (from.1 * to.0) - value * (from.0 * to.1))
            < from.1 * to.0,
    ensures
        rescale_spec(value, from, to) == nearest,
{
    let n = from.0 * to.1;
    let d = from.1 * to.0;
    if value >= 0 {
        lemma_nearest_is_unique(value * n, d, nearest);
    } else {
        assert(-value * n == -(value * n)) by (nonlinear_arith);
        assert((-nearest) * d == -(nearest * d)) by (nonlinear_arith);
        lemma_nearest_is_unique(-value * n, d, -nearest);
    }
}

proof fn lemma_nearest_is_unique(numerator: int, d: int, nearest: int)
    requires
        d > 0,
        -d < 2 * (nearest * d - numerator) <= d,
    ensures
        round_div(numerator, d) == nearest,
{
    let sum = numerator + d / 2;
    let q = sum / d;
    lemma_fundamental_div_mod(sum, d);
    assert(q == nearest) by (nonlinear_arith)
        requires
            d > 0,
            sum == d * q + sum % d,
            0 <= sum % d < d,
            sum == numerator + d / 2,
            2 * (d / 2) <= d,
            d <= 2 * (d / 2) + 1,
            -d < 2 * (nearest * d - numerator) <= d,
    ;
}

/// Without a factor that is a fraction, and where no 64-bit number is near the
/// result, there is no conversion.
pub proof fn law_impossible_conversions_have_no_result(
    value: int,
    from: Rational,
    to: Rational,
)
    ensures
        from.0 * to.1 < 0 || from.1 * to.0 <= 0 ==> rescale_spec(value, from, to) == i64::MIN,
        from.0 * to.1 >= 0 && from.1 * to.0 > 0 && value >= 0 && value * (from.0 * to.1) >= (
        i64::MAX + 1) * (from.1 * to.0) ==> rescale_spec(value, from, to) == i64::MIN,
{
    let n = from.0 * to.1;
    let d = from.1 * to.0;
    if n >= 0 && d > 0 && value >= 0 && value * n >= (i64::MAX + 1) * d {
        let sum = value * n + d / 2;
        lemma_fundamental_div_mod(sum, d);
        let q = sum / d;
        assert(q >= i64::MAX + 1) by (nonlinear_arith)
            requires
                d > 0,
                sum == d * q + sum % d,
                0 <= sum % d < d,
                sum >= (i64::MAX + 1) * d,
        ;
    }
}

} // verus!
