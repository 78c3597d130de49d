//! Prices as bit patterns of IEEE 754 doubles: which are numbers, and how they
//! compare.
use vstd::prelude::*;

verus! {

/// The bit pattern of positive infinity.
pub const INFINITY: u64 = 0x7ff0_0000_0000_0000;

/// The bit pattern of negative infinity.
pub const NEG_INFINITY: u64 = 0xfff0_0000_0000_0000;

/// The sign bit.
pub const SIGN: u64 = 0x8000_0000_0000_0000;

/// The bit pattern without its sign.
pub open spec fn unsigned(bits: u64) -> int {
    bits as int % SIGN as int
}

/// The pattern stands for no number.
pub open spec fn is_nan(bits: u64) -> bool {
    unsigned(bits) > INFINITY
}

/// The pattern stands for a number that is not infinite.
pub open spec fn is_finite(bits: u64) -> bool {
    unsigned(bits) < INFINITY
}

/// A number that orders patterns as their values: the unsigned patterns order as
/// the sizes do, and the two zeros are one.
pub open spec fn rank(bits: u64) -> int {
    if bits >= SIGN {
        -unsigned(bits)
    } else {
        unsigned(bits)
    }
}

/// The value of `a` is less than the value of `b`. No pattern that stands for no
/// number compares.
pub open spec fn price_lt(a: u64, b: u64) -> bool {
    !is_nan(a) && !is_nan(b) && rank(a) < rank(b)
}

/// Whether a pattern stands for a number that is not infinite.
pub fn finite(bits: u64) -> (r: bool)
    ensures
        r == is_finite(bits),
{
    bits % SIGN < INFINITY
}

/// Whether the value of `a` is less than the value of `b`.
pub fn less(a: u64, b: u64) -> (r: bool)
    ensures
        r == price_lt(a, b),
{
    let x: u64 = a % SIGN;
    let y: u64 = b % SIGN;
    if x > INFINITY || y > INFINITY {
        false
    } else if a >= SIGN {
        if b >= SIGN {
            y < x
        } else {
            x != 0 || y != 0
        }
    } else {
        b < SIGN && x < y
    }
}

/// The value of `a` is not less than the value of `b`, and both are numbers.
pub open spec fn price_ge(a: u64, b: u64) -> bool {
    !is_nan(a) && !is_nan(b) && rank(a) >= rank(b)
}

/// Whether the value of `a` is not less than the value of `b`.
pub fn not_below(a: u64, b: u64) -> (r: bool)
    ensures
        r == price_ge(a, b),
{
    a % SIGN <= INFINITY && b % SIGN <= INFINITY && !less(a, b)
}

/// The values of `a` and `b` are the same number. The two zeros are, and no pattern
/// that stands for no number is, not even as itself.
pub open spec fn price_eq(a: u64, b: u64) -> bool {
    !is_nan(a) && !is_nan(b) && rank(a) == rank(b)
}

/// Whether the values of `a` and `b` are the same number.
pub fn same(a: u64, b: u64) -> (r: bool)
    ensures
        r == price_eq(a, b),
{
    a % SIGN <= INFINITY && b % SIGN <= INFINITY && (a == b || (a % SIGN == 0 && b % SIGN == 0))
}

/// How values compare, read off the patterns. Patterns without the sign order as
/// numbers, those with it the other way round; one with it lies below one without it,
/// except that the two zeros are the same. What has all bits of the exponent set is
/// infinite or no number, and what is no number never compares.
pub proof fn law_values_order_as_patterns(a: u64, b: u64)
    ensures
        ({
            let sign = 0x8000_0000_0000_0000u64;
            let numbers = !is_nan(a) && !is_nan(b);
            &&& is_finite(a) <==> (a / 0x10_0000_0000_0000) % 2048 != 2047
            &&& is_nan(a) <==> (a / 0x10_0000_0000_0000) % 2048 == 2047 && a % 0x10_0000_0000_0000
                != 0
            &&& numbers && a < sign && b < sign ==> (price_lt(a, b) <==> a < b)
            &&& numbers && a >= sign && b >= sign ==> (price_lt(a, b) <==> a > b)
            &&& numbers && a >= sign && b < sign ==> (price_lt(a, b) <==> a != sign || b != 0)
            &&& a < sign && b >= sign ==> !price_lt(a, b)
            &&& !numbers ==> !price_lt(a, b) && !price_ge(a, b) && !price_eq(a, b)
            &&& numbers ==> (price_ge(a, b) <==> !price_lt(a, b))
            &&& numbers ==> (price_eq(a, b) <==> !price_lt(a, b) && !price_lt(b, a))
            &&& price_eq(a, b) <==> numbers && (a == b || (a % sign == 0 && b % sign == 0))
        }),
{
}

} // verus!
