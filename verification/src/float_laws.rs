//! What the bits of a single-precision number stand for, and that comparing bits compares numbers.
use crate::float_bits::{
    clamped, float_ge, float_lt, is_finite_bits, is_nan_bits, magnitude, negated, total_rank,
    value_rank,
};
use vstd::arithmetic::power2::{lemma_pow2_pos, lemma_pow2_strictly_increases, lemma_pow2_unfold, pow2};
use vstd::prelude::*;

verus! {

/// The exponent field: the eight bits below the sign.
pub open spec fn exponent_field(x: u32) -> int {
    (x as int / 8388608) % 256
}

/// The fraction field: the lowest 23 bits.
pub open spec fn fraction_field(x: u32) -> int {
    x as int % 8388608
}

/// The absolute value of the number that the fields stand for, counted in the smallest positive
/// number that there is. An exponent field of zero has no leading bit.
pub open spec fn size_of_fields(exponent: int, fraction: int) -> int {
    if exponent <= 0 {
        fraction
    } else {
        (8388608 + fraction) * pow2((exponent - 1) as nat)
    }
}

/// The number that the bits stand for, counted in the smallest positive number that there is. What
/// an infinity gives lies beyond every finite number.
pub open spec fn numeric(x: u32) -> int {
    if x as int / 2147483648 == 0 {
        size_of_fields(exponent_field(x), fraction_field(x))
    } else {
        -size_of_fields(exponent_field(x), fraction_field(x))
    }
}

proof fn lemma_size_is_nat(e: int, f: int)
    requires
        0 <= e,
        0 <= f,
    ensures
        0 <= size_of_fields(e, f),
        size_of_fields(e, f) == 0 <==> e == 0 && f == 0,
{
    if e > 0 {
        lemma_pow2_pos((e - 1) as nat);
        let p = pow2((e - 1) as nat) as int;
        assert((8388608 + f) * p > 0) by (nonlinear_arith)
            requires
                0 <= f,
                p > 0,
        ;
    }
}

proof fn lemma_size_grows(e: int, f: int, g: int, h: int)
    requires
        0 <= e,
        0 <= f < 8388608,
        0 <= h < 8388608,
        e < g || (e == g && f < h),
    ensures
        size_of_fields(e, f) < size_of_fields(g, h),
{
    if e == g {
        if e > 0 {
            lemma_pow2_pos((e - 1) as nat);
            let p = pow2((e - 1) as nat) as int;
            assert((8388608 + f) * p < (8388608 + h) * p) by (nonlinear_arith)
                requires
                    f < h,
                    p > 0,
            ;
        }
    } else {
        let q = pow2((g - 1) as nat) as int;
        lemma_pow2_pos((g - 1) as nat);
        assert(8388608 * q <= (8388608 + h) * q) by (nonlinear_arith)
            requires
                0 <= h,
                q > 0,
        ;
        if e > 0 {
            let p = pow2((e - 1) as nat) as int;
            lemma_pow2_pos((e - 1) as nat);
            lemma_pow2_unfold(e as nat);
            if e < g - 1 {
                lemma_pow2_strictly_increases(e as nat, (g - 1) as nat);
            }
            assert(pow2(e as nat) <= q);
            assert((8388608 + f) * p < 16777216 * p) by (nonlinear_arith)
                requires
                    f < 8388608,
                    p > 0,
            ;
            assert(16777216 * p <= 8388608 * q);
        } else {
            assert(f < 8388608 * q) by (nonlinear_arith)
                requires
                    f < 8388608,
                    q >= 1,
            ;
        }
    }
}

proof fn lemma_fields(x: u32)
    ensures
        magnitude(x) == 8388608 * exponent_field(x) + fraction_field(x),
        0 <= exponent_field(x) < 256,
        0 <= fraction_field(x) < 8388608,
        magnitude(x) == x as int % 2147483648,
        x < 0x8000_0000 <==> x as int / 2147483648 == 0,
{
}

proof fn lemma_size_orders(x: u32, y: u32)
    ensures
        magnitude(x) < magnitude(y) <==> size_of_fields(exponent_field(x), fraction_field(x))
            < size_of_fields(exponent_field(y), fraction_field(y)),
        magnitude(x) == magnitude(y) <==> size_of_fields(exponent_field(x), fraction_field(x))
            == size_of_fields(exponent_field(y), fraction_field(y)),
{
    lemma_fields(x);
    lemma_fields(y);
    if magnitude(x) < magnitude(y) {
        lemma_size_grows(
            exponent_field(x),
            fraction_field(x),
            exponent_field(y),
            fraction_field(y),
        );
    } else if magnitude(y) < magnitude(x) {
        lemma_size_grows(
            exponent_field(y),
            fraction_field(y),
            exponent_field(x),
            fraction_field(x),
        );
    }
}

/// NaNs are the patterns with all exponent bits and some bit of the fraction set, and finite numbers
/// those with an exponent bit clear.
pub proof fn law_fields_tell_kinds(x: u32)
    ensures
        is_nan_bits(x) <==> exponent_field(x) == 255 && fraction_field(x) != 0,
        is_finite_bits(x) <==> exponent_field(x) != 255,
        magnitude(x) == x as int % 2147483648,
{
    lemma_fields(x);
}

/// Comparing bits compares numbers: of two patterns that are not NaNs, one is less than the other
/// exactly if its number is, and a NaN is neither less than anything nor at least anything.
pub proof fn law_comparison_is_numeric(x: u32, y: u32)
    ensures
        float_lt(x, y) <==> !is_nan_bits(x) && !is_nan_bits(y) && numeric(x) < numeric(y),
        float_ge(x, y) <==> !is_nan_bits(x) && !is_nan_bits(y) && numeric(x) >= numeric(y),
        value_rank(x) < value_rank(y) <==> numeric(x) < numeric(y),
        value_rank(x) == value_rank(y) <==> numeric(x) == numeric(y),
{
    lemma_fields(x);
    lemma_fields(y);
    lemma_size_is_nat(exponent_field(x), fraction_field(x));
    lemma_size_is_nat(exponent_field(y), fraction_field(y));
    lemma_size_orders(x, y);
}

/// The total order: patterns without the sign bit go by their bits, those with it come before them
/// and go the other way round.
pub proof fn law_total_order_of_bits(x: u32, y: u32)
    ensures
        total_rank(x) < total_rank(y) <==> if x < 0x8000_0000 {
            y < 0x8000_0000 && x < y
        } else {
            y < 0x8000_0000 || y < x
        },
        total_rank(x) == total_rank(y) <==> x == y,
{
}

/// Turning the sign turns the number, and changes the top bit alone.
pub proof fn law_negation_is_numeric(x: u32)
    ensures
        numeric(negated(x)) == -numeric(x),
        negated(x) as int % 2147483648 == x as int % 2147483648,
        negated(x) as int / 2147483648 + x as int / 2147483648 == 1,
{
    lemma_fields(x);
    lemma_fields(negated(x));
}

/// Clamping gives the larger of the number and zero, and leaves every pattern without the sign bit
/// as it is.
pub proof fn law_clamp_is_numeric(x: u32)
    ensures
        numeric(clamped(x)) == if numeric(x) > 0 {
            numeric(x)
        } else {
            0
        },
        x < 0x8000_0000 ==> clamped(x) == x,
        x >= 0x8000_0000 ==> clamped(x) == 0,
{
    lemma_fields(x);
    lemma_size_is_nat(exponent_field(x), fraction_field(x));
}

} // verus!
