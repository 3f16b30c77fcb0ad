//! Comparisons of 32-bit IEEE numbers given by their bit patterns.
//!
//! A pattern is a sign bit above a 31-bit magnitude. The magnitudes are ordered
//! like the absolute values they stand for; those above the pattern of infinity
//! are not numbers.

use vstd::prelude::*;

verus! {

/// Pattern of `1.0`.
pub const ONE_BITS: u32 = 0x3f80_0000;

/// Pattern of `-1.0`.
pub const NEG_ONE_BITS: u32 = 0xbf80_0000;

/// Pattern of `2.0`.
pub const TWO_BITS: u32 = 0x4000_0000;

/// Pattern of `1e-12`.
pub const TINY_BITS: u32 = 0x2b8c_bccc;

/// Pattern of positive infinity.
pub const INFINITY_BITS: u32 = 0x7f80_0000;

/// Pattern of negative zero, and the weight of the sign bit.
pub const SIGN_BIT: u32 = 0x8000_0000;

/// Whether the sign bit is set.
pub open spec fn is_negative(bits: u32) -> bool {
    bits >= SIGN_BIT
}

/// The pattern without its sign bit.
pub open spec fn magnitude(bits: u32) -> int {
    if is_negative(bits) {
        bits - SIGN_BIT
    } else {
        bits as int
    }
}

/// Whether the pattern is not a number.
pub open spec fn is_nan(bits: u32) -> bool {
    magnitude(bits) > INFINITY_BITS
}

/// Position of a number on the number line; both zeros stand at 0.
pub open spec fn value_rank(bits: u32) -> int {
    if is_negative(bits) {
        -magnitude(bits)
    } else {
        magnitude(bits)
    }
}

/// Position of any pattern in the total order: negative NaNs first, then the
/// numbers with -0 below +0, then positive NaNs.
pub open spec fn total_rank(bits: u32) -> int {
    if is_negative(bits) {
        -magnitude(bits) - 1
    } else {
        magnitude(bits)
    }
}

/// IEEE `a < b`.
pub open spec fn less(a: u32, b: u32) -> bool {
    !is_nan(a) && !is_nan(b) && value_rank(a) < value_rank(b)
}

/// IEEE `a >= b`.
pub open spec fn at_least(a: u32, b: u32) -> bool {
    !is_nan(a) && !is_nan(b) && value_rank(a) >= value_rank(b)
}

/// The pattern with its sign bit cleared.
pub open spec fn absolute(bits: u32) -> u32 {
    magnitude(bits) as u32
}

/// The pattern with its sign bit turned over.
pub open spec fn opposite(bits: u32) -> u32 {
    if is_negative(bits) {
        (bits - SIGN_BIT) as u32
    } else {
        (bits + SIGN_BIT) as u32
    }
}

/// Whether the pattern is a number other than the infinities.
pub open spec fn is_finite(bits: u32) -> bool {
    magnitude(bits) < INFINITY_BITS
}

/// The larger of a number and zero; zero where the pattern is not a number.
pub open spec fn at_least_zero(bits: u32) -> u32 {
    if less(0, bits) {
        bits
    } else {
        0
    }
}

/// Whether the pattern is not a number.
pub fn nan(bits: u32) -> (r: bool)
    ensures
        r == is_nan(bits),
{
    if bits >= SIGN_BIT {
        bits - SIGN_BIT > INFINITY_BITS
    } else {
        bits > INFINITY_BITS
    }
}

/// Absolute value.
pub fn abs(bits: u32) -> (r: u32)
    ensures
        r == absolute(bits),
{
    if bits >= SIGN_BIT {
        bits - SIGN_BIT
    } else {
        bits
    }
}

/// Negation.
pub fn neg(bits: u32) -> (r: u32)
    ensures
        r == opposite(bits),
{
    if bits >= SIGN_BIT {
        bits - SIGN_BIT
    } else {
        bits + SIGN_BIT
    }
}

/// Whether the pattern is a number other than the infinities.
pub fn finite(bits: u32) -> (r: bool)
    ensures
        r == is_finite(bits),
{
    abs(bits) < INFINITY_BITS
}

/// The larger of a number and zero; zero where the pattern is not a number.
pub fn max_zero(bits: u32) -> (r: u32)
    ensures
        r == at_least_zero(bits),
{
    if lt(0, bits) {
        bits
    } else {
        0
    }
}

/// Maps the total order on patterns to the order of unsigned integers.
pub fn total_key(bits: u32) -> (r: u32)
    ensures
        r == total_rank(bits) + SIGN_BIT,
{
    if bits >= SIGN_BIT {
        0xffff_ffffu32 - bits
    } else {
        bits + SIGN_BIT
    }
}

/// IEEE `a < b` on patterns.
pub fn lt(a: u32, b: u32) -> (r: bool)
    ensures
        r == less(a, b),
{
    if nan(a) || nan(b) {
        false
    } else if a >= SIGN_BIT {
        if b >= SIGN_BIT {
            a > b
        } else {
            a > SIGN_BIT || b > 0
        }
    } else {
        b < SIGN_BIT && a < b
    }
}

/// IEEE `a >= b` on patterns.
pub fn ge(a: u32, b: u32) -> (r: bool)
    ensures
        r == at_least(a, b),
{
    !nan(a) && !nan(b) && !lt(a, b)
}

/// The total order tells any two patterns apart.
pub proof fn total_rank_injective(a: u32, b: u32)
    requires
        total_rank(a) == total_rank(b),
    ensures
        a == b,
{
}

/// A number below another stands before it in the total order.
pub proof fn less_is_earlier(a: u32, b: u32)
    requires
        less(a, b),
    ensures
        total_rank(a) < total_rank(b),
{
}

/// No pattern that stands later in the total order is below an earlier one.
pub proof fn later_is_not_less(a: u32, b: u32)
    requires
        total_rank(b) <= total_rank(a),
    ensures
        !less(a, b),
{
}

/// `less` is a strict order on numbers, and of two numbers that differ in value
/// one is below the other.
pub proof fn less_is_strict_order(a: u32, b: u32, c: u32)
    ensures
        !less(a, a),
        less(a, b) && less(b, c) ==> less(a, c),
        !is_nan(a) && !is_nan(b) ==> (less(a, b) || less(b, a) || value_rank(a) == value_rank(b)),
{
}

/// How patterns are ordered: patterns without the sign bit like the integers that they are,
/// patterns with it the other way round and below those without. Only a zero is not below
/// the other zero, and what is not a number is below nothing and above nothing. The total
/// order goes by the same rules, puts the zero with the sign bit below the other, and leaves
/// out no pattern.
pub proof fn patterns_are_ordered_by_sign_and_size(a: u32, b: u32)
    ensures
        ({
            let (x, y) = (a as int, b as int);
            let sign = 0x8000_0000int;
            let numbers = x % sign <= 0x7f80_0000 && y % sign <= 0x7f80_0000;
            let below = if x < sign && y < sign {
                x < y
            } else if x >= sign && y >= sign {
                x > y
            } else {
                x >= sign
            };
            &&& less(a, b) == (numbers && below && !(x == sign && y == 0))
            &&& at_least(a, b) == (numbers && !less(a, b))
            &&& (total_rank(a) < total_rank(b)) == below
            &&& is_nan(a) == (x % sign > 0x7f80_0000)
            &&& is_finite(a) == (x % sign < 0x7f80_0000)
            &&& absolute(a) == x % sign
            &&& opposite(a) == (x + sign) % (2 * sign)
        }),
{
}

} // verus!
