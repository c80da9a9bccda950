//! Measurements, held as the bit patterns of 64-bit floating-point numbers.
//!
//! A pattern is a sign bit, eleven bits of exponent and fifty-two bits of fraction.
//! Patterns of one sign are ordered as the numbers they stand for, so everything this
//! library decides about a measurement is decided on integers.

use vstd::prelude::*;

verus! {

/// The weight of the sign bit.
pub const SIGN: u64 = 0x8000_0000_0000_0000;

/// The least pattern without sign that stands for no finite number.
pub const INFINITE: u64 = 0x7ff0_0000_0000_0000;

/// The pattern without its sign.
pub open spec fn magnitude(bits: u64) -> int {
    if bits >= SIGN {
        bits - SIGN
    } else {
        bits as int
    }
}

/// Whether the pattern stands for a finite number.
pub open spec fn finite(bits: u64) -> bool {
    magnitude(bits) < INFINITE
}

/// Whether the pattern stands for no number at all.
pub open spec fn not_a_number(bits: u64) -> bool {
    magnitude(bits) > INFINITE
}

/// An integer by which numbers are ordered; both zeros have the same one.
pub open spec fn order(bits: u64) -> int {
    if bits >= SIGN {
        -magnitude(bits)
    } else {
        magnitude(bits)
    }
}

/// Whether `a` stands for a smaller number than `b`.
pub open spec fn less(a: u64, b: u64) -> bool {
    !not_a_number(a) && !not_a_number(b) && order(a) < order(b)
}

/// Whether `a` and `b` stand for the same number.
pub open spec fn same(a: u64, b: u64) -> bool {
    !not_a_number(a) && !not_a_number(b) && order(a) == order(b)
}

/// Whether the pattern stands for a number that is not above zero.
pub open spec fn not_above_zero(bits: u64) -> bool {
    !not_a_number(bits) && order(bits) <= 0
}

/// Whether the pattern stands for a finite number above zero.
pub open spec fn finite_positive(bits: u64) -> bool {
    0 < bits < INFINITE
}

/// Whether the pattern stands for a finite number that is not below zero.
pub open spec fn finite_not_negative(bits: u64) -> bool {
    bits < INFINITE || bits == SIGN
}

/// A position in the order of all patterns, in which `-0` stands before `+0`.
pub open spec fn total_order(bits: u64) -> int {
    if bits >= SIGN {
        -magnitude(bits) - 1
    } else {
        magnitude(bits)
    }
}

/// Whether the pattern stands for a finite number.
pub fn is_finite(bits: u64) -> (res: bool)
    ensures
        res == finite(bits),
{
    if bits >= SIGN {
        bits - SIGN < INFINITE
    } else {
        bits < INFINITE
    }
}

/// Whether the pattern stands for no number at all.
pub fn is_nan(bits: u64) -> (res: bool)
    ensures
        res == not_a_number(bits),
{
    if bits >= SIGN {
        bits - SIGN > INFINITE
    } else {
        bits > INFINITE
    }
}

/// Whether the pattern stands for a number that is not above zero.
pub fn is_not_above_zero(bits: u64) -> (res: bool)
    ensures
        res == not_above_zero(bits),
{
    bits == 0 || (bits >= SIGN && bits - SIGN <= INFINITE)
}

/// Whether the pattern stands for a finite number above zero.
pub fn is_finite_positive(bits: u64) -> (res: bool)
    ensures
        res == finite_positive(bits),
        res == (finite(bits) && less(0, bits)),
{
    0 < bits && bits < INFINITE
}

/// Whether the pattern stands for a finite number that is not below zero.
pub fn is_finite_not_negative(bits: u64) -> (res: bool)
    ensures
        res == finite_not_negative(bits),
        res == (finite(bits) && !less(bits, 0)),
{
    bits < INFINITE || bits == SIGN
}

fn order_of(bits: u64) -> (res: i64)
    ensures
        res == order(bits),
{
    if bits >= SIGN {
        -((bits - SIGN) as i64)
    } else {
        bits as i64
    }
}

/// Whether `a` stands for a smaller number than `b`.
pub fn is_less(a: u64, b: u64) -> (res: bool)
    ensures
        res == less(a, b),
{
    let left = order_of(a);
    let right = order_of(b);
    let bound: i64 = 0x7ff0_0000_0000_0000;
    -bound <= left && left <= bound && -bound <= right && right <= bound && left < right
}

/// Whether `a` and `b` stand for the same number.
pub fn is_same(a: u64, b: u64) -> (res: bool)
    ensures
        res == same(a, b),
{
    let left = order_of(a);
    let right = order_of(b);
    let bound: i64 = 0x7ff0_0000_0000_0000;
    -bound <= left && left <= bound && left == right
}

/// Whether `a` stands before `b` in the order of all patterns.
pub fn is_before(a: u64, b: u64) -> (res: bool)
    ensures
        res == (total_order(a) < total_order(b)),
{
    if a >= SIGN {
        if b >= SIGN {
            a > b
        } else {
            true
        }
    } else if b >= SIGN {
        false
    } else {
        a < b
    }
}

/// Numbers are ordered as they are meant: by their patterns where they are not negative, the
/// other way round where they are, negative ones before the others. What is no number is neither
/// smaller nor larger than anything, nor the same as anything; the two zeros are the same.
pub proof fn law_numbers_are_ordered(a: u64, b: u64, c: u64)
    ensures
        !less(a, a),
        less(a, b) && less(b, c) ==> less(a, c),
        !not_a_number(a) && !not_a_number(b) ==> less(a, b) || less(b, a) || same(a, b),
        less(a, b) ==> !same(a, b) && !less(b, a),
        a <= 0x7ff0_0000_0000_0000 && b <= 0x7ff0_0000_0000_0000 ==> (less(a, b) <==> a < b),
        0x8000_0000_0000_0000 <= a <= 0xfff0_0000_0000_0000 && 0x8000_0000_0000_0000 <= b
            <= 0xfff0_0000_0000_0000 ==> (less(a, b) <==> b < a),
        0x8000_0000_0000_0000 < a <= 0xfff0_0000_0000_0000 && b <= 0x7ff0_0000_0000_0000 ==> less(
            a,
            b,
        ),
        not_a_number(a) <==> 0x7ff0_0000_0000_0000 < a < 0x8000_0000_0000_0000 || a
            > 0xfff0_0000_0000_0000,
        not_a_number(a) ==> !less(a, b) && !less(b, a) && !same(a, b),
        same(0, 0x8000_0000_0000_0000),
        finite(a) <==> a < 0x7ff0_0000_0000_0000 || 0x8000_0000_0000_0000 <= a
            < 0xfff0_0000_0000_0000,
{
}

/// A number that is above zero is not not above zero; what is finite and above zero, or not below
/// it, is so in the order of numbers.
pub proof fn law_signs_are_those_of_the_order(a: u64)
    ensures
        not_above_zero(a) <==> !not_a_number(a) && !less(0, a),
        finite_positive(a) <==> finite(a) && less(0, a),
        finite_not_negative(a) <==> finite(a) && !less(a, 0),
{
}

/// The order of all patterns is the order of numbers, with the negative zero before the other,
/// and tells any two patterns apart.
pub proof fn law_all_patterns_are_ordered(a: u64, b: u64)
    ensures
        less(a, b) ==> total_order(a) < total_order(b),
        total_order(a) == total_order(b) <==> a == b,
        total_order(0x8000_0000_0000_0000) < total_order(0),
{
}

} // verus!
