//! What the codes of a vector say: sign bits, extended codes, and where they stand in a batch.
use crate::cluster::slot_at;
use crate::fastscan::{bit_weight, code_bits, code_byte, lane, with_code};
use crate::fetch::{joined_code, two_to};
use vstd::arithmetic::power2::{lemma2_to64, lemma_pow2_pos, lemma_pow2_unfold, pow2};
use vstd::prelude::*;

verus! {

/// The sign bit of dimension `d` of a packed code: eight to a byte, the most significant first, and
/// clear behind the last byte.
pub open spec fn sign_bit(code: Seq<u8>, d: int) -> int {
    if d / 8 < code.len() {
        (code[d / 8] as int / pow2((7 - d % 8) as nat) as int) % 2
    } else {
        0
    }
}

proof fn lemma_weights(k: int)
    requires
        0 <= k < 8,
    ensures
        bit_weight(k) == pow2((7 - k) as nat),
{
    lemma2_to64();
}

proof fn lemma_two_to(n: int)
    requires
        0 <= n,
    ensures
        two_to(n) == pow2(n as nat),
    decreases n,
{
    if n == 0 {
        lemma2_to64();
    } else {
        lemma_two_to(n - 1);
        lemma_pow2_unfold(n as nat);
    }
}

/// Unpacking gives the sign bits: one for each dimension, in order.
pub proof fn law_unpacking_gives_sign_bits(code: Seq<u8>, padded_dim: int, d: int)
    requires
        0 <= d < padded_dim,
    ensures
        code_bits(code, padded_dim).len() == padded_dim,
        code_bits(code, padded_dim)[d] == sign_bit(code, d),
        code_bits(code, padded_dim)[d] == 0 || code_bits(code, padded_dim)[d] == 1,
{
    lemma_weights(d % 8);
}

/// The code of a dimension gives both its parts back: its sign bit above the extended bits, and below
/// them its extended code, or zero where there are no extended bits.
pub proof fn law_joined_code_gives_parts(
    code: Seq<u8>,
    ex: Seq<u16>,
    padded_dim: int,
    ex_bits: int,
    d: int,
)
    requires
        0 <= ex_bits <= 15,
        0 <= d < padded_dim,
        ex_bits > 0 ==> d < ex.len() && ex[d] < pow2(ex_bits as nat),
    ensures
        ({
            let whole = joined_code(code, ex, padded_dim, ex_bits)[d] as int;
            &&& joined_code(code, ex, padded_dim, ex_bits).len() == padded_dim
            &&& whole / pow2(ex_bits as nat) as int == sign_bit(code, d)
            &&& ex_bits > 0 ==> whole % pow2(ex_bits as nat) as int == ex[d]
            &&& ex_bits == 0 ==> whole % pow2(ex_bits as nat) as int == 0
        }),
{
    let w = pow2(ex_bits as nat) as int;
    let bit = code_bits(code, padded_dim)[d];
    let low = if ex_bits > 0 {
        ex[d]
    } else {
        0
    };
    law_unpacking_gives_sign_bits(code, padded_dim, d);
    lemma_two_to(ex_bits);
    lemma2_to64();
    lemma_pow2_pos(ex_bits as nat);
    assert(w <= 32768) by {
        if ex_bits < 15 {
            vstd::arithmetic::power2::lemma_pow2_strictly_increases(ex_bits as nat, 15);
        }
    }
    assert(0 <= low < w);
    assert(bit * w == if bit == 1 {
        w
    } else {
        0
    });
    let whole = joined_code(code, ex, padded_dim, ex_bits)[d] as int;
    assert(whole == low + bit * w);
    assert(whole / w == bit && whole % w == low) by (nonlinear_arith)
        requires
            whole == low + bit * w,
            0 <= low < w,
            0 <= bit,
    ;
}

// ----------------------------------------------------------------------------
// The layout of a batch
// ----------------------------------------------------------------------------

/// The byte of a half column that belongs to a vector of a batch: of the first and of the second
/// sixteen vectors, the first eight take the even bytes and the others the odd ones.
pub open spec fn half_column_byte(slot: int) -> int {
    if slot % 16 < 8 {
        2 * (slot % 16)
    } else {
        2 * (slot % 16) - 15
    }
}

/// The half of a byte that belongs to a vector of a batch: the lower one for the first sixteen
/// vectors, the upper one for the others.
pub open spec fn half_byte(b: u8, slot: int) -> int {
    if slot < 16 {
        b as int % 16
    } else {
        b as int / 16
    }
}

/// Where a code stands: byte `col` of the code of a vector lies in the 32 bytes from `32 * col` on,
/// its upper half in the first sixteen and its lower half in the last, for writing and for reading.
pub proof fn law_codes_stand_in_columns(data: Seq<u8>, base: int, slot: int, code: Seq<u8>, col: int)
    requires
        0 <= slot < 32,
        0 <= base,
        base + 32 * code.len() <= data.len(),
        0 <= col < code.len(),
    ensures
        ({
            let after = with_code(data, base, slot, code);
            let at = base + 32 * col + half_column_byte(slot);
            &&& after.len() == data.len()
            &&& half_byte(after[at], slot) == code[col] as int / 16
            &&& half_byte(after[at + 16], slot) == code[col] as int % 16
            &&& code_byte(data, base, slot, col) == 16 * half_byte(data[at], slot) + half_byte(
                data[at + 16],
                slot,
            )
        }),
{
    let at = 32 * col + half_column_byte(slot);
    assert(half_column_byte(slot) == lane(slot));
    assert(at % 16 == lane(slot) && at / 32 == col && at % 32 < 16);
    assert((at + 16) % 16 == lane(slot) && (at + 16) / 32 == col && (at + 16) % 32 >= 16);
}

/// The number whose four bytes stand at `at`, least significant first.
pub open spec fn word_at(b: Seq<u8>, at: int) -> int {
    b[at] + 256 * b[at + 1] + 65536 * b[at + 2] + 16777216 * b[at + 3]
}

/// Where the parameters of a packed vector are read: the batch of vector `k` starts behind `k / 32`
/// others of `4 * padded_dim + 384` bytes each; behind the codes come, four bytes for each of the 32
/// vectors, the additive terms, then the factors, then the error bounds.
pub proof fn law_parameters_stand_behind_codes(data: Seq<u8>, padded_dim: int, k: int)
    requires
        0 <= padded_dim,
        0 <= k,
    ensures
        ({
            let at = (k / 32) * (4 * padded_dim + 384) + 4 * padded_dim + 4 * (k % 32);
            let slot = slot_at(data, padded_dim, k);
            &&& slot.f_add == word_at(data, at)
            &&& slot.f_rescale == word_at(data, at + 128)
            &&& slot.f_error == word_at(data, at + 256)
            &&& slot.code.len() == padded_dim / 8
            &&& forall|col: int|
                0 <= col < padded_dim / 8 ==> #[trigger] slot.code[col] == code_byte(
                    data,
                    (k / 32) * (4 * padded_dim + 384),
                    k % 32,
                    col,
                )
        }),
{
}

} // verus!
