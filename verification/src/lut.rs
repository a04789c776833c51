//! The integer side of the lookup tables that a query is turned into.
//!
//! A table holds, for every four dimensions, the sixteen sums that a nibble of a binary code can
//! select. Its values are quantized to eight bits, or to sixteen for many dimensions.
use crate::float_bits::{is_nan, is_nan_bits, magnitude, total_lt, total_rank, SIGN, ZERO};
use vstd::prelude::*;

verus! {

/// Dimensions beyond which eight bits per table value are not enough.
pub const HIGH_ACCURACY_ABOVE: usize = 2048;

/// The bits of the smallest difference from 1 that a 32-bit float can have.
pub const EPSILON: u32 = 0x34000000;

/// Whether a query of `padded_dim` dimensions takes the table with sixteen bits per value.
pub fn use_highacc(padded_dim: usize) -> (r: bool)
    ensures
        r == (padded_dim > HIGH_ACCURACY_ABOVE),
        r <==> padded_dim >= 2049,
{
    padded_dim > HIGH_ACCURACY_ABOVE
}

/// Number of values of the table with eight bits per value, if it can be addressed.
pub fn lut_len(padded_dim: usize) -> (r: Option<usize>)
    ensures
        r == if padded_dim * 4 <= usize::MAX {
            Some((padded_dim * 4) as usize)
        } else {
            None::<usize>
        },
{
    padded_dim.checked_mul(4)
}

/// Number of values of the table with sixteen bits per value, if it can be addressed: sixteen for
/// every four dimensions, repeated for every 32 dimensions.
pub fn highacc_lut_len(padded_dim: usize) -> (r: Option<usize>)
    ensures
        r == if (padded_dim / 4) * 16 * (padded_dim / 32) <= usize::MAX {
            Some(((padded_dim / 4) * 16 * (padded_dim / 32)) as usize)
        } else {
            None::<usize>
        },
{
    let wide: u128 = (padded_dim as u128 / 4) * 16;
    let words: u128 = padded_dim as u128 / 32;
    proof {
        assert(0 <= wide * words <= 0x8_0000_0000_0000_0000 * 0x800_0000_0000_0000) by (
        nonlinear_arith)
            requires
                0 <= wide <= 0x8_0000_0000_0000_0000,
                0 <= words <= 0x800_0000_0000_0000,
        ;
    }
    let total: u128 = wide * words;
    if total <= usize::MAX as u128 {
        Some(total as usize)
    } else {
        None
    }
}

/// The least and the greatest value in the total order; both are zero for an empty table.
pub open spec fn is_range(values: Seq<u32>, low: u32, high: u32) -> bool {
    if values.len() == 0 {
        low == ZERO && high == ZERO
    } else {
        &&& values.contains(low)
        &&& values.contains(high)
        &&& forall|i: int|
            0 <= i < values.len() ==> total_rank(low) <= total_rank(#[trigger] values[i])
                <= total_rank(high)
    }
}

/// The range of a table.
pub fn lut_range(values: &[u32]) -> (r: (u32, u32))
    ensures
        is_range(values@, r.0, r.1),
{
    if values.len() == 0 {
        return (ZERO, ZERO);
    }
    let mut low: u32 = values[0];
    let mut high: u32 = values[0];
    let mut i: usize = 1;
    while i < values.len()
        invariant
            1 <= i <= values@.len(),
            values@.contains(low),
            values@.contains(high),
            forall|j: int|
                0 <= j < i ==> total_rank(low) <= total_rank(#[trigger] values@[j]) <= total_rank(
                    high,
                ),
        decreases values@.len() - i,
    {
        let v: u32 = values[i];
        assert(values@[i as int] == v);
        if total_lt(v, low) {
            low = v;
        }
        if total_lt(high, v) {
            high = v;
        }
        i += 1;
    }
    (low, high)
}

/// Whether all values are closer to zero than the smallest step at 1.
pub fn all_negligible(values: &[u32]) -> (r: bool)
    ensures
        r == (forall|i: int| 0 <= i < values@.len() ==> magnitude(#[trigger] values@[i]) < EPSILON),
        r <==> forall|i: int|
            0 <= i < values@.len() ==> (#[trigger] values@[i]) as int % 2147483648 < 0x3400_0000,
{
    let mut i: usize = 0;
    while i < values.len()
        invariant
            i <= values@.len(),
            forall|j: int| 0 <= j < i ==> magnitude(#[trigger] values@[j]) < EPSILON,
        decreases values@.len() - i,
    {
        let v: u32 = values[i];
        let size: u32 = if v < SIGN { v } else { v - SIGN };
        assert(magnitude(values@[i as int]) == size);
        if size >= EPSILON {
            return false;
        }
        i += 1;
    }
    true
}

/// The largest absolute value; NaNs count for nothing.
pub open spec fn is_peak(values: Seq<u32>, peak: u32) -> bool {
    &&& forall|i: int|
        0 <= i < values.len() ==> is_nan_bits(#[trigger] values[i]) || magnitude(values[i]) <= peak
    &&& peak != ZERO ==> exists|i: int|
        0 <= i < values.len() && !is_nan_bits(#[trigger] values[i]) && magnitude(values[i]) == peak
}

/// The largest absolute value of a table.
pub fn lut_peak(values: &[u32]) -> (peak: u32)
    ensures
        is_peak(values@, peak),
{
    let mut peak: u32 = ZERO;
    let mut i: usize = 0;
    while i < values.len()
        invariant
            i <= values@.len(),
            is_peak(values@.take(i as int), peak),
        decreases values@.len() - i,
    {
        let ghost before = values@.take(i as int);
        let ghost after = values@.take(i + 1);
        let ghost old_peak = peak;
        let v: u32 = values[i];
        let size: u32 = if v < SIGN { v } else { v - SIGN };
        let nan: bool = is_nan(v);
        if !nan && size > peak {
            peak = size;
        }
        proof {
            assert(after[i as int] == v);
            assert forall|j: int| 0 <= j < after.len() implies is_nan_bits(#[trigger] after[j])
                || magnitude(after[j]) <= peak by {
                if j < i {
                    assert(before[j] == after[j]);
                }
            }
            if peak != ZERO && peak == old_peak {
                let j = choose|j: int|
                    0 <= j < before.len() && !is_nan_bits(#[trigger] before[j]) && magnitude(
                        before[j],
                    ) == peak;
                assert(after[j] == before[j]);
            }
        }
        i += 1;
    }
    assert(values@.take(i as int) =~= values@);
    peak
}

/// An eight-bit value as the signed byte with the same bits.
pub open spec fn signed_byte(v: u8) -> int {
    if v < 128 {
        v as int
    } else {
        v - 256
    }
}

/// The table values as signed bytes.
pub fn wrap_bytes(values: &[u8]) -> (r: Vec<i8>)
    ensures
        r@.len() == values@.len(),
        forall|i: int| 0 <= i < r@.len() ==> #[trigger] r@[i] == signed_byte(values@[i]),
{
    let mut r: Vec<i8> = Vec::new();
    let mut i: usize = 0;
    while i < values.len()
        invariant
            i <= values@.len(),
            r@.len() == i,
            forall|j: int| 0 <= j < i ==> #[trigger] r@[j] == signed_byte(values@[j]),
        decreases values@.len() - i,
    {
        let v: u8 = values[i];
        let s: i8 = if v < 128 { v as i8 } else { (v as i16 - 256) as i8 };
        r.push(s);
        i += 1;
    }
    r
}

/// The low byte of a sixteen-bit value that was shifted to be unsigned.
pub open spec fn low8(v: i16) -> int {
    (v + 32768) % 256
}

/// The high byte of a sixteen-bit value that was shifted to be unsigned.
pub open spec fn high8(v: i16) -> int {
    (v + 32768) / 256
}

/// Splits the table values into their low and their high bytes.
pub fn split_bytes(values: &[i16]) -> (r: (Vec<u8>, Vec<u8>))
    ensures
        r.0@.len() == values@.len(),
        r.1@.len() == values@.len(),
        forall|i: int| 0 <= i < values@.len() ==> #[trigger] r.0@[i] == low8(values@[i]),
        forall|i: int| 0 <= i < values@.len() ==> #[trigger] r.1@[i] == high8(values@[i]),
{
    let mut low: Vec<u8> = Vec::new();
    let mut high: Vec<u8> = Vec::new();
    let mut i: usize = 0;
    while i < values.len()
        invariant
            i <= values@.len(),
            low@.len() == i,
            high@.len() == i,
            forall|j: int| 0 <= j < i ==> #[trigger] low@[j] == low8(values@[j]),
            forall|j: int| 0 <= j < i ==> #[trigger] high@[j] == high8(values@[j]),
        decreases values@.len() - i,
    {
        let shifted: u32 = (values[i] as i32 + 32768) as u32;
        low.push((shifted % 256) as u8);
        high.push((shifted / 256) as u8);
        i += 1;
    }
    (low, high)
}

/// Splitting loses nothing: the two bytes of a value give it back, and both are bytes.
pub proof fn law_split_recombines(v: i16)
    ensures
        256 * high8(v) + low8(v) - 32768 == v,
        0 <= low8(v) < 256,
        0 <= high8(v) < 256,
{
}

/// The range of a table is unique.
pub proof fn law_range_is_unique(values: Seq<u32>, a: (u32, u32), b: (u32, u32))
    requires
        is_range(values, a.0, a.1),
        is_range(values, b.0, b.1),
    ensures
        a == b,
{
    if values.len() > 0 {
        let i = choose|i: int| 0 <= i < values.len() && values[i] == a.0;
        let j = choose|j: int| 0 <= j < values.len() && values[j] == b.0;
        let k = choose|k: int| 0 <= k < values.len() && values[k] == a.1;
        let l = choose|l: int| 0 <= l < values.len() && values[l] == b.1;
        assert(total_rank(a.0) == total_rank(b.0));
        assert(total_rank(a.1) == total_rank(b.1));
    }
}

} // verus!
