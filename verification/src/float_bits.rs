//! Single-precision numbers, represented by their IEEE 754 bits.
//!
//! Distances, scores and quantization parameters are kept as `u32` bit patterns: the sign in
//! the top bit, then eight bits of exponent, then the fraction. Order, sign and finiteness are
//! integer questions on those bits.
use vstd::prelude::*;

verus! {

/// The sign bit.
pub const SIGN: u32 = 0x8000_0000;

/// The bits of positive infinity.
pub const INFINITY: u32 = 0x7f80_0000;

/// The bits of positive zero.
pub const ZERO: u32 = 0;

/// The bits without the sign.
pub open spec fn magnitude(x: u32) -> int {
    if x < SIGN {
        x as int
    } else {
        x - SIGN
    }
}

/// Whether the bits are those of a NaN.
pub open spec fn is_nan_bits(x: u32) -> bool {
    magnitude(x) > INFINITY
}

/// Whether the bits are neither those of a NaN nor those of an infinity.
pub open spec fn is_finite_bits(x: u32) -> bool {
    magnitude(x) < INFINITY
}

/// A number that orders the bits by numeric value: both zeros map to 0.
pub open spec fn value_rank(x: u32) -> int {
    if x < SIGN {
        magnitude(x)
    } else {
        -magnitude(x)
    }
}

/// A number that orders all bits totally: numeric order, with negative zero before positive
/// zero, and NaNs outside the infinities on the side of their sign.
pub open spec fn total_rank(x: u32) -> int {
    if x < SIGN {
        magnitude(x)
    } else {
        -magnitude(x) - 1
    }
}

/// `x >= y` as a floating-point comparison: false as soon as one side is a NaN.
pub open spec fn float_ge(x: u32, y: u32) -> bool {
    !is_nan_bits(x) && !is_nan_bits(y) && value_rank(x) >= value_rank(y)
}

/// `x < y` as a floating-point comparison: false as soon as one side is a NaN.
pub open spec fn float_lt(x: u32, y: u32) -> bool {
    !is_nan_bits(x) && !is_nan_bits(y) && value_rank(x) < value_rank(y)
}

/// The bits with the sign turned.
pub open spec fn negated(x: u32) -> u32 {
    if x < SIGN {
        (x + SIGN) as u32
    } else {
        (x - SIGN) as u32
    }
}

/// The larger of `x` and positive zero, for an `x` that is not a NaN.
pub open spec fn clamped(x: u32) -> u32 {
    if x < SIGN {
        x
    } else {
        ZERO
    }
}

/// Whether the bits are those of a finite number.
pub fn is_finite(x: u32) -> (r: bool)
    ensures
        r == is_finite_bits(x),
{
    if x < SIGN {
        x < INFINITY
    } else {
        x - SIGN < INFINITY
    }
}

/// Whether the bits are those of a NaN.
pub fn is_nan(x: u32) -> (r: bool)
    ensures
        r == is_nan_bits(x),
{
    if x < SIGN {
        x > INFINITY
    } else {
        x - SIGN > INFINITY
    }
}

/// Floating-point `x >= y`.
pub fn ge(x: u32, y: u32) -> (r: bool)
    ensures
        r == float_ge(x, y),
{
    if is_nan(x) || is_nan(y) {
        return false;
    }
    let a: i64 = if x < SIGN { x as i64 } else { -((x - SIGN) as i64) };
    let b: i64 = if y < SIGN { y as i64 } else { -((y - SIGN) as i64) };
    a >= b
}

/// Floating-point `x < y`.
pub fn lt(x: u32, y: u32) -> (r: bool)
    ensures
        r == float_lt(x, y),
{
    if is_nan(x) || is_nan(y) {
        return false;
    }
    !ge(x, y)
}

/// Whether `x` comes strictly before `y` in the total order.
pub fn total_lt(x: u32, y: u32) -> (r: bool)
    ensures
        r == (total_rank(x) < total_rank(y)),
{
    let a: i64 = if x < SIGN { x as i64 } else { -((x - SIGN) as i64) - 1 };
    let b: i64 = if y < SIGN { y as i64 } else { -((y - SIGN) as i64) - 1 };
    a < b
}

/// Turns the sign.
pub fn negate(x: u32) -> (r: u32)
    ensures
        r == negated(x),
{
    if x < SIGN {
        x + SIGN
    } else {
        x - SIGN
    }
}

/// The larger of `x` and positive zero, for an `x` that is not a NaN.
pub fn clamp_at_zero(x: u32) -> (r: u32)
    ensures
        r == clamped(x),
{
    if x < SIGN {
        x
    } else {
        ZERO
    }
}

/// The total order is total and separates different bit patterns.
pub proof fn law_total_rank_separates(x: u32, y: u32)
    ensures
        total_rank(x) == total_rank(y) <==> x == y,
{
}

/// Away from NaNs, the total order refines the numeric one.
pub proof fn law_total_order_refines_numeric(x: u32, y: u32)
    requires
        !is_nan_bits(x),
        !is_nan_bits(y),
    ensures
        float_lt(x, y) ==> total_rank(x) < total_rank(y),
        total_rank(x) <= total_rank(y) ==> float_ge(y, x),
{
}

/// Turning the sign reverses the total order, and turning it twice changes nothing.
pub proof fn law_negation_reverses(x: u32, y: u32)
    ensures
        total_rank(negated(x)) < total_rank(negated(y)) <==> total_rank(y) < total_rank(x),
        negated(negated(x)) == x,
        is_finite_bits(negated(x)) == is_finite_bits(x),
{
}

/// The clamped number is the numeric maximum with zero, and clamping respects the total order.
pub proof fn law_clamp_is_maximum(x: u32, y: u32)
    requires
        !is_nan_bits(x),
        !is_nan_bits(y),
    ensures
        float_ge(clamped(x), x),
        float_ge(clamped(x), ZERO),
        float_ge(x, ZERO) ==> value_rank(clamped(x)) == value_rank(x),
        total_rank(x) <= total_rank(y) ==> total_rank(clamped(x)) <= total_rank(clamped(y)),
{
}

} // verus!
