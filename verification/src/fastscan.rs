//! The FastScan layout of binary codes: 32 vectors interleaved nibble by nibble.
//!
//! A batch holds one 32-byte column for each byte of a code. The first half of a column holds
//! the upper nibbles of that byte, the second half the lower nibbles. Byte `j` of a half
//! belongs to the two vectors `lane(s) == j` and `lane(s) == j` of the upper sixteen: the first
//! in its lower nibble, the second in its upper nibble.
use vstd::prelude::*;

verus! {

/// Number of vectors in a batch.
pub const FASTSCAN_BATCH_SIZE: usize = 32;

/// The byte of a half column that holds the nibble of vector `slot`: vectors 0 to 7 take the
/// even bytes, vectors 8 to 15 the odd ones, and vectors 16 to 31 share them in that order.
pub open spec fn lane(slot: int) -> int {
    let s = slot % 16;
    if s < 8 {
        2 * s
    } else {
        2 * (s - 8) + 1
    }
}

/// One nibble of a byte.
pub open spec fn nibble(b: u8, upper: bool) -> int {
    if upper {
        b as int / 16
    } else {
        b as int % 16
    }
}

/// Byte `col` of the code of vector `slot` in the batch that starts at `base`.
pub open spec fn code_byte(data: Seq<u8>, base: int, slot: int, col: int) -> u8 {
    (16 * nibble(data[base + 32 * col + lane(slot)], slot >= 16) + nibble(
        data[base + 32 * col + 16 + lane(slot)],
        slot >= 16,
    )) as u8
}

/// The code of vector `slot` in the batch that starts at `base`.
pub open spec fn code_at(data: Seq<u8>, base: int, slot: int, dim_bytes: int) -> Seq<u8> {
    Seq::new(dim_bytes as nat, |col: int| code_byte(data, base, slot, col))
}

proof fn lemma_lanes(a: int, b: int)
    requires
        0 <= a < 32,
        0 <= b < 32,
    ensures
        0 <= lane(a) < 16,
        lane(a) == lane(b) && (a >= 16) == (b >= 16) ==> a == b,
{
}

fn lane_of(slot: usize) -> (j: usize)
    requires
        slot < 32,
    ensures
        j == lane(slot as int),
        j < 16,
{
    let s: usize = slot % 16;
    if s < 8 {
        2 * s
    } else {
        2 * (s - 8) + 1
    }
}

/// A byte with one nibble replaced.
pub open spec fn replaced(b: u8, upper: bool, v: int) -> u8 {
    if upper {
        (16 * v + b as int % 16) as u8
    } else {
        (16 * (b as int / 16) + v) as u8
    }
}

/// Bytes with a code written as vector `slot` of the batch that starts at `base`: of each column,
/// one nibble of one byte in either half changes.
pub open spec fn with_code(data: Seq<u8>, base: int, slot: int, code: Seq<u8>) -> Seq<u8> {
    Seq::new(
        data.len(),
        |p: int|
            {
                let at = p - base;
                if 0 <= at < 32 * code.len() && at % 16 == lane(slot) {
                    let value = code[at / 32] as int;
                    replaced(
                        data[p],
                        slot >= 16,
                        if at % 32 < 16 {
                            value / 16
                        } else {
                            value % 16
                        },
                    )
                } else {
                    data[p]
                }
            },
    )
}

fn with_nibble(b: u8, upper: bool, v: u8) -> (r: u8)
    requires
        v < 16,
    ensures
        r == replaced(b, upper, v as int),
{
    if upper {
        v * 16 + b % 16
    } else {
        (b / 16) * 16 + v
    }
}

fn nibble_of(b: u8, upper: bool) -> (r: u8)
    ensures
        r == nibble(b, upper),
        r < 16,
{
    if upper {
        b / 16
    } else {
        b % 16
    }
}

proof fn lemma_one_more_column(
    start: Seq<u8>,
    before: Seq<u8>,
    after: Seq<u8>,
    base: int,
    slot: int,
    code: Seq<u8>,
    col: int,
)
    requires
        0 <= slot < 32,
        0 <= base,
        0 <= col < code.len(),
        base + 32 * code.len() <= start.len(),
        before == with_code(start, base, slot, code.take(col)),
        ({
            let p = base + 32 * col + lane(slot);
            after == before.update(
                p,
                replaced(start[p], slot >= 16, code[col] as int / 16),
            ).update(p + 16, replaced(start[p + 16], slot >= 16, code[col] as int % 16))
        }),
    ensures
        after == with_code(start, base, slot, code.take(col + 1)),
{
    let few = code.take(col);
    let more = code.take(col + 1);
    let target = with_code(start, base, slot, more);
    assert(0 <= lane(slot) < 16);
    assert(after.len() == start.len());
    assert forall|p: int| 0 <= p < start.len() implies after[p] == target[p] by {
        let at = p - base;
        if 0 <= at < 32 * col {
            assert(few[at / 32] == more[at / 32]);
        } else if 32 * col <= at < 32 * col + 32 {
            assert(at / 32 == col);
        }
    }
    assert(after =~= target);
}

proof fn lemma_nibble_replaced(b: u8, upper: bool, v: int)
    requires
        0 <= v < 16,
    ensures
        nibble(replaced(b, upper, v), upper) == v,
        nibble(replaced(b, upper, v), !upper) == nibble(b, !upper),
{
}

/// The byte at place `j` of either half of column `c` after a code was written.
proof fn lemma_column_byte(data: Seq<u8>, base: int, slot: int, code: Seq<u8>, c: int, j: int)
    requires
        0 <= slot < 32,
        0 <= base,
        base + 32 * code.len() <= data.len(),
        0 <= c < code.len(),
        0 <= j < 16,
    ensures
        with_code(data, base, slot, code)[base + 32 * c + j] == if j == lane(slot) {
            replaced(data[base + 32 * c + j], slot >= 16, code[c] as int / 16)
        } else {
            data[base + 32 * c + j]
        },
        with_code(data, base, slot, code)[base + 32 * c + 16 + j] == if j == lane(slot) {
            replaced(data[base + 32 * c + 16 + j], slot >= 16, code[c] as int % 16)
        } else {
            data[base + 32 * c + 16 + j]
        },
{
    let at = 32 * c + j;
    assert(at % 16 == j && at / 32 == c && at % 32 < 16);
    assert((at + 16) % 16 == j && (at + 16) / 32 == c && (at + 16) % 32 >= 16);
}

proof fn lemma_code_byte_written(data: Seq<u8>, base: int, slot: int, code: Seq<u8>, s: int, c: int)
    requires
        0 <= slot < 32,
        0 <= base,
        base + 32 * code.len() <= data.len(),
        0 <= s < 32,
        0 <= c < code.len(),
    ensures
        code_byte(with_code(data, base, slot, code), base, s, c) == if s == slot {
            code[c]
        } else {
            code_byte(data, base, s, c)
        },
{
    let high = base + 32 * c + lane(s);
    let low = base + 32 * c + 16 + lane(s);
    lemma_lanes(s, slot);
    lemma_column_byte(data, base, slot, code, c, lane(s));
    lemma_nibble_replaced(data[high], slot >= 16, code[c] as int / 16);
    lemma_nibble_replaced(data[low], slot >= 16, code[c] as int % 16);
}

/// A code that was written is the one that is read, and the codes of the other vectors of the
/// batch stay as they are.
pub proof fn lemma_code_written(data: Seq<u8>, base: int, slot: int, code: Seq<u8>)
    requires
        0 <= slot < 32,
        0 <= base,
        base + 32 * code.len() <= data.len(),
    ensures
        code_at(with_code(data, base, slot, code), base, slot, code.len() as int) == code,
        forall|s: int, c: int|
            0 <= s < 32 && s != slot && 0 <= c < code.len() ==> #[trigger] code_byte(
                with_code(data, base, slot, code),
                base,
                s,
                c,
            ) == code_byte(data, base, s, c),
{
    let after = with_code(data, base, slot, code);
    assert forall|s: int, c: int| 0 <= s < 32 && 0 <= c < code.len() implies #[trigger] code_byte(
        after,
        base,
        s,
        c,
    ) == if s == slot {
        code[c]
    } else {
        code_byte(data, base, s, c)
    } by {
        lemma_code_byte_written(data, base, slot, code, s, c);
    }
    assert(code_at(after, base, slot, code.len() as int) =~= code);
}

/// Writes the code of vector `slot` into the batch that starts at `base`. The codes of the
/// other vectors of the batch, and all bytes outside its columns, stay as they are.
pub fn store_code(data: &mut Vec<u8>, base: usize, slot: usize, code: &[u8])
    requires
        slot < 32,
        base + 32 * code@.len() <= old(data)@.len(),
    ensures
        final(data)@ == with_code(old(data)@, base as int, slot as int, code@),
{
    let j: usize = lane_of(slot);
    let upper: bool = slot >= 16;
    let total: usize = data.len();
    let mut col: usize = 0;
    assert(data@ =~= with_code(data@, base as int, slot as int, code@.take(0)));
    while col < code.len()
        invariant
            slot < 32,
            data@.len() == total,
            j == lane(slot as int),
            j < 16,
            upper == (slot >= 16),
            col <= code@.len(),
            base + 32 * code@.len() <= old(data)@.len(),
            data@.len() == old(data)@.len(),
            data@ == with_code(old(data)@, base as int, slot as int, code@.take(col as int)),
        decreases code@.len() - col,
    {
        let ghost before = data@;
        let p: usize = base + 32 * col + j;
        let value: u8 = code[col];
        let high: u8 = with_nibble(data[p], upper, value / 16);
        data.set(p, high);
        let low: u8 = with_nibble(data[p + 16], upper, value % 16);
        data.set(p + 16, low);
        proof {
            assert(before[p as int] == old(data)@[p as int]);
            assert(before[p + 16] == old(data)@[p + 16]);
            lemma_one_more_column(
                old(data)@,
                before,
                data@,
                base as int,
                slot as int,
                code@,
                col as int,
            );
        }
        col += 1;
    }
    assert(code@.take(col as int) =~= code@);
}

/// Reads the code of vector `slot` out of the batch that starts at `base`.
pub fn load_code(data: &[u8], base: usize, slot: usize, dim_bytes: usize) -> (code: Vec<u8>)
    requires
        slot < 32,
        base + 32 * dim_bytes <= data@.len(),
    ensures
        code@ == code_at(data@, base as int, slot as int, dim_bytes as int),
{
    let j: usize = lane_of(slot);
    let upper: bool = slot >= 16;
    let total: usize = data.len();
    let mut code: Vec<u8> = Vec::with_capacity(dim_bytes);
    let mut col: usize = 0;
    while col < dim_bytes
        invariant
            slot < 32,
            data@.len() == total,
            j == lane(slot as int),
            j < 16,
            upper == (slot >= 16),
            col <= dim_bytes,
            base + 32 * dim_bytes <= data@.len(),
            code@ == code_at(data@, base as int, slot as int, col as int),
        decreases dim_bytes - col,
    {
        let p: usize = base + 32 * col + j;
        let high: u8 = nibble_of(data[p], upper);
        let low: u8 = nibble_of(data[p + 16], upper);
        code.push(16 * high + low);
        col += 1;
        assert(code@ =~= code_at(data@, base as int, slot as int, col as int));
    }
    code
}

/// The value of bit `k` of a byte, counted from the most significant.
pub open spec fn bit_weight(k: int) -> int {
    if k == 0 {
        128
    } else if k == 1 {
        64
    } else if k == 2 {
        32
    } else if k == 3 {
        16
    } else if k == 4 {
        8
    } else if k == 5 {
        4
    } else if k == 6 {
        2
    } else {
        1
    }
}

/// Bit `d` of a packed code, most significant bit of each byte first; 0 past its end.
pub open spec fn code_bit(code: Seq<u8>, d: int) -> u8 {
    if d / 8 < code.len() {
        ((code[d / 8] as int / bit_weight(d % 8)) % 2) as u8
    } else {
        0
    }
}

/// The first `padded_dim` bits of a packed code, one byte each.
pub open spec fn code_bits(code: Seq<u8>, padded_dim: int) -> Seq<u8> {
    Seq::new(padded_dim as nat, |d: int| code_bit(code, d))
}

fn bit_weight_of(k: usize) -> (w: u8)
    requires
        k < 8,
    ensures
        w == bit_weight(k as int),
{
    match k {
        0 => 128,
        1 => 64,
        2 => 32,
        3 => 16,
        4 => 8,
        5 => 4,
        6 => 2,
        _ => 1,
    }
}

/// Spreads a packed code into one byte per dimension.
pub fn unpack_bits(code: &[u8], padded_dim: usize) -> (bits: Vec<u8>)
    ensures
        bits@ == code_bits(code@, padded_dim as int),
{
    let mut bits: Vec<u8> = Vec::with_capacity(padded_dim);
    let mut d: usize = 0;
    while d < padded_dim
        invariant
            d <= padded_dim,
            bits@ == code_bits(code@, d as int),
        decreases padded_dim - d,
    {
        if d / 8 < code.len() {
            let w: u8 = bit_weight_of(d % 8);
            bits.push((code[d / 8] / w) % 2);
        } else {
            bits.push(0);
        }
        d += 1;
        assert(bits@ =~= code_bits(code@, d as int));
    }
    bits
}

/// Unpacks the code of one vector of a batch that starts at the beginning of `batch`, one byte
/// per dimension.
pub fn unpack_single_vector(batch: &[u8], slot: usize, padded_dim: usize) -> (bits: Vec<u8>)
    requires
        slot < 32,
        32 * (padded_dim / 8) <= batch@.len(),
    ensures
        bits@ == code_bits(
            code_at(batch@, 0, slot as int, padded_dim as int / 8),
            padded_dim as int,
        ),
{
    let code: Vec<u8> = load_code(batch, 0, slot, padded_dim / 8);
    unpack_bits(code.as_slice(), padded_dim)
}

} // verus!
