//! The CRC-32 checksum that closes every persisted file.
use vstd::prelude::*;

verus! {

/// One bit of the division by the reflected IEEE polynomial.
pub open spec fn crc_bit(c: u32) -> u32 {
    if c & 1 == 1 {
        (c >> 1) ^ 0xEDB8_8320
    } else {
        c >> 1
    }
}

/// Four bits of it.
pub open spec fn crc_nibble(c: u32) -> u32 {
    crc_bit(crc_bit(crc_bit(crc_bit(c))))
}

/// The register after one more byte.
pub open spec fn crc_byte(c: u32, b: u8) -> u32 {
    crc_nibble(crc_nibble(c ^ (b as u32)))
}

/// The register after all bytes of `data`. It starts with every bit set.
pub open spec fn crc_register(data: Seq<u8>) -> u32
    decreases data.len(),
{
    if data.len() == 0 {
        0xFFFF_FFFF
    } else {
        crc_byte(crc_register(data.drop_last()), data.last())
    }
}

/// The CRC-32 (IEEE) checksum of a byte sequence: the complement of the register behind the last
/// byte.
#[verifier::opaque]
pub open spec fn crc32_of(data: Seq<u8>) -> u32 {
    !crc_register(data)
}

/// Calls `crc32fast::hash`. The contract claims that the result is the CRC-32 (IEEE) checksum of
/// the bytes.
#[verifier::external_body]
pub(crate) fn crc32(data: &[u8]) -> (sum: u32)
    ensures
        sum == crc32_of(data@),
{
    crc32fast::hash(data)
}

proof fn lemma_bit_tells(c: u32, d: u32)
    requires
        c != d,
    ensures
        crc_bit(c) != crc_bit(d),
{
    assert(crc_bit(c) != crc_bit(d)) by (bit_vector)
        requires
            c != d,
    ;
}

proof fn lemma_nibble_tells(c: u32, d: u32)
    requires
        c != d,
    ensures
        crc_nibble(c) != crc_nibble(d),
{
    lemma_bit_tells(c, d);
    lemma_bit_tells(crc_bit(c), crc_bit(d));
    lemma_bit_tells(crc_bit(crc_bit(c)), crc_bit(crc_bit(d)));
    lemma_bit_tells(crc_bit(crc_bit(crc_bit(c))), crc_bit(crc_bit(crc_bit(d))));
}

proof fn lemma_byte_tells(c: u32, d: u32, a: u8, b: u8)
    requires
        c == d <==> a != b,
    ensures
        crc_byte(c, a) != crc_byte(d, b),
{
    let x = c ^ (a as u32);
    let y = d ^ (b as u32);
    assert(c ^ (a as u32) != d ^ (b as u32)) by (bit_vector)
        requires
            c == d <==> a != b,
    ;
    lemma_nibble_tells(x, y);
    lemma_nibble_tells(crc_nibble(x), crc_nibble(y));
}

proof fn lemma_register_tells(data: Seq<u8>, i: int, v: u8)
    requires
        0 <= i < data.len(),
        v != data[i],
    ensures
        crc_register(data) != crc_register(data.update(i, v)),
    decreases data.len(),
{
    let other = data.update(i, v);
    if i == data.len() - 1 {
        assert(other.drop_last() =~= data.drop_last());
    } else {
        assert(other.drop_last() =~= data.drop_last().update(i, v));
        lemma_register_tells(data.drop_last(), i, v);
    }
    lemma_byte_tells(
        crc_register(data.drop_last()),
        crc_register(other.drop_last()),
        data.last(),
        other.last(),
    );
}

/// The checksum tells every change of a single byte.
pub proof fn law_checksum_tells_one_byte(data: Seq<u8>, i: int, v: u8)
    requires
        0 <= i < data.len(),
        v != data[i],
    ensures
        crc32_of(data) != crc32_of(data.update(i, v)),
{
    reveal(crc32_of);
    lemma_register_tells(data, i, v);
    let c = crc_register(data);
    let d = crc_register(data.update(i, v));
    assert(!c != !d) by (bit_vector)
        requires
            c != d,
    ;
}

} // verus!
