//! Little-endian encoding of integers, and a cursor that reads them back.
use crate::error::{IoFailure, RabitqError};
use vstd::prelude::*;

verus! {

/// The four bytes of `x`, least significant first.
pub open spec fn le32(x: u32) -> Seq<u8> {
    seq![
        (x % 256) as u8,
        ((x / 256) % 256) as u8,
        ((x / 65536) % 256) as u8,
        (x / 16777216) as u8,
    ]
}

/// The eight bytes of `x`, least significant first.
pub open spec fn le64(x: u64) -> Seq<u8> {
    le32((x % 4294967296) as u32) + le32((x / 4294967296) as u32)
}

/// The number whose four bytes stand at `pos` in `b`, least significant first.
pub open spec fn u32_at(b: Seq<u8>, pos: int) -> u32 {
    (b[pos] + 256 * b[pos + 1] + 65536 * b[pos + 2] + 16777216 * b[pos + 3]) as u32
}

/// The number whose eight bytes stand at `pos` in `b`, least significant first.
pub open spec fn u64_at(b: Seq<u8>, pos: int) -> u64 {
    (u32_at(b, pos) + 4294967296 * u32_at(b, pos + 4)) as u64
}

/// Reading at the place where `le32(x)` was written gives `x` back.
pub proof fn lemma_u32_at_le32(b: Seq<u8>, pos: int, x: u32)
    requires
        0 <= pos,
        pos + 4 <= b.len(),
        b.subrange(pos, pos + 4) == le32(x),
    ensures
        u32_at(b, pos) == x,
{
    let s = b.subrange(pos, pos + 4);
    assert(s[0] == b[pos] && s[1] == b[pos + 1] && s[2] == b[pos + 2] && s[3] == b[pos + 3]);
}

/// Reading at the place where `le64(x)` was written gives `x` back.
pub proof fn lemma_u64_at_le64(b: Seq<u8>, pos: int, x: u64)
    requires
        0 <= pos,
        pos + 8 <= b.len(),
        b.subrange(pos, pos + 8) == le64(x),
    ensures
        u64_at(b, pos) == x,
{
    let s = b.subrange(pos, pos + 8);
    assert(b.subrange(pos, pos + 4) =~= s.subrange(0, 4));
    assert(s.subrange(0, 4) =~= le32((x % 4294967296) as u32));
    assert(b.subrange(pos + 4, pos + 8) =~= s.subrange(4, 8));
    assert(s.subrange(4, 8) =~= le32((x / 4294967296) as u32));
    lemma_u32_at_le32(b, pos, (x % 4294967296) as u32);
    lemma_u32_at_le32(b, pos + 4, (x / 4294967296) as u32);
}

/// The bytes of the numbers of `s`, one after the other.
pub open spec fn le32s(s: Seq<u32>) -> Seq<u8> {
    Seq::new(4 * s.len(), |i: int| le32(s[i / 4])[i % 4])
}

/// The bytes of the numbers of `s`, one after the other.
pub open spec fn le64s(s: Seq<u64>) -> Seq<u8> {
    Seq::new(8 * s.len(), |i: int| le64(s[i / 8])[i % 8])
}

/// The `n` four-byte numbers that stand at `pos` in `b`.
pub open spec fn u32s_at(b: Seq<u8>, pos: int, n: int) -> Seq<u32> {
    Seq::new(n as nat, |i: int| u32_at(b, pos + 4 * i))
}

/// The `n` eight-byte numbers that stand at `pos` in `b`.
pub open spec fn u64s_at(b: Seq<u8>, pos: int, n: int) -> Seq<u64> {
    Seq::new(n as nat, |i: int| u64_at(b, pos + 8 * i))
}

proof fn lemma_le32s_push(s: Seq<u32>, x: u32)
    ensures
        le32s(s.push(x)) == le32s(s) + le32(x),
{
    let t = s.push(x);
    assert forall|i: int| 0 <= i < 4 * t.len() implies le32s(t)[i] == (le32s(s) + le32(x))[i] by {
        if i < 4 * s.len() {
            assert(t[i / 4] == s[i / 4]);
        } else {
            assert(i / 4 == s.len());
            assert(i % 4 == i - 4 * s.len());
        }
    }
    assert(le32s(t) =~= le32s(s) + le32(x));
}

proof fn lemma_le64s_push(s: Seq<u64>, x: u64)
    ensures
        le64s(s.push(x)) == le64s(s) + le64(x),
{
    let t = s.push(x);
    assert forall|i: int| 0 <= i < 8 * t.len() implies le64s(t)[i] == (le64s(s) + le64(x))[i] by {
        if i < 8 * s.len() {
            assert(t[i / 8] == s[i / 8]);
        } else {
            assert(i / 8 == s.len());
            assert(i % 8 == i - 8 * s.len());
        }
    }
    assert(le64s(t) =~= le64s(s) + le64(x));
}

/// Reading at the place where `le32s(s)` was written gives `s` back.
pub proof fn lemma_u32s_at_le32s(b: Seq<u8>, pos: int, s: Seq<u32>)
    requires
        0 <= pos,
        pos + 4 * s.len() <= b.len(),
        b.subrange(pos, pos + 4 * s.len()) == le32s(s),
    ensures
        u32s_at(b, pos, s.len() as int) == s,
{
    let t = b.subrange(pos, pos + 4 * s.len());
    assert forall|i: int| 0 <= i < s.len() implies u32_at(b, pos + 4 * i) == s[i] by {
        assert forall|k: int| 0 <= k < 4 implies b[pos + 4 * i + k] == le32(s[i])[k] by {
            assert(t[4 * i + k] == b[pos + 4 * i + k]);
            assert((4 * i + k) / 4 == i && (4 * i + k) % 4 == k);
        }
        assert(b.subrange(pos + 4 * i, pos + 4 * i + 4) =~= le32(s[i]));
        lemma_u32_at_le32(b, pos + 4 * i, s[i]);
    }
    assert(u32s_at(b, pos, s.len() as int) =~= s);
}

/// Reading at the place where `le64s(s)` was written gives `s` back.
pub proof fn lemma_u64s_at_le64s(b: Seq<u8>, pos: int, s: Seq<u64>)
    requires
        0 <= pos,
        pos + 8 * s.len() <= b.len(),
        b.subrange(pos, pos + 8 * s.len()) == le64s(s),
    ensures
        u64s_at(b, pos, s.len() as int) == s,
{
    let t = b.subrange(pos, pos + 8 * s.len());
    assert forall|i: int| 0 <= i < s.len() implies u64_at(b, pos + 8 * i) == s[i] by {
        assert forall|k: int| 0 <= k < 8 implies b[pos + 8 * i + k] == le64(s[i])[k] by {
            assert(t[8 * i + k] == b[pos + 8 * i + k]);
            assert((8 * i + k) / 8 == i && (8 * i + k) % 8 == k);
        }
        assert(b.subrange(pos + 8 * i, pos + 8 * i + 8) =~= le64(s[i]));
        lemma_u64_at_le64(b, pos + 8 * i, s[i]);
    }
    assert(u64s_at(b, pos, s.len() as int) =~= s);
}

/// Appends a number, least significant byte first.
pub fn write_u32(out: &mut Vec<u8>, value: u32)
    ensures
        final(out)@ == old(out)@ + le32(value),
{
    out.push((value % 256) as u8);
    out.push(((value / 256) % 256) as u8);
    out.push(((value / 65536) % 256) as u8);
    out.push((value / 16777216) as u8);
    assert(out@ =~= old(out)@ + le32(value));
}

/// Appends a number, least significant byte first.
pub fn write_u64(out: &mut Vec<u8>, value: u64)
    ensures
        final(out)@ == old(out)@ + le64(value),
{
    write_u32(out, (value % 4294967296) as u32);
    write_u32(out, (value / 4294967296) as u32);
    assert(out@ =~= old(out)@ + le64(value));
}

/// Appends the bytes of `data`.
pub fn write_bytes(out: &mut Vec<u8>, data: &[u8])
    ensures
        final(out)@ == old(out)@ + data@,
{
    out.extend_from_slice(data);
    assert(out@ =~= old(out)@ + data@);
}

/// Appends single-precision numbers, each given by its bits.
pub fn write_f32s(out: &mut Vec<u8>, values: &[u32])
    ensures
        final(out)@ == old(out)@ + le32s(values@),
{
    let mut i: usize = 0;
    assert(out@ =~= old(out)@ + le32s(values@.take(0)));
    while i < values.len()
        invariant
            i <= values@.len(),
            out@ == old(out)@ + le32s(values@.take(i as int)),
        decreases values@.len() - i,
    {
        let ghost before = out@;
        write_u32(out, values[i]);
        proof {
            lemma_le32s_push(values@.take(i as int), values@[i as int]);
            assert(values@.take(i + 1) =~= values@.take(i as int).push(values@[i as int]));
            assert(out@ =~= old(out)@ + le32s(values@.take(i + 1)));
        }
        i += 1;
    }
    assert(values@.take(i as int) =~= values@);
}

/// Appends vector ids.
pub fn write_u64s(out: &mut Vec<u8>, values: &[u64])
    ensures
        final(out)@ == old(out)@ + le64s(values@),
{
    let mut i: usize = 0;
    assert(out@ =~= old(out)@ + le64s(values@.take(0)));
    while i < values.len()
        invariant
            i <= values@.len(),
            out@ == old(out)@ + le64s(values@.take(i as int)),
        decreases values@.len() - i,
    {
        write_u64(out, values[i]);
        proof {
            lemma_le64s_push(values@.take(i as int), values@[i as int]);
            assert(values@.take(i + 1) =~= values@.take(i as int).push(values@[i as int]));
            assert(out@ =~= old(out)@ + le64s(values@.take(i + 1)));
        }
        i += 1;
    }
    assert(values@.take(i as int) =~= values@);
}

/// The error of a read that runs past the end of the data.
pub open spec fn eof() -> RabitqError {
    RabitqError::Io(IoFailure::UnexpectedEof)
}

/// How a read of `n` bytes at `before` moves the position: to `before + n` if the data
/// reaches that far, else not at all, with the error of an early end.
pub open spec fn advances<T>(
    data: Seq<u8>,
    before: int,
    after: int,
    n: int,
    result: Result<T, RabitqError>,
    value: T,
) -> bool {
    if before + n <= data.len() {
        after == before + n && result == Ok::<T, RabitqError>(value)
    } else {
        after == before && result == Err::<T, RabitqError>(eof())
    }
}

/// Reads one byte.
pub fn read_u8(data: &[u8], pos: &mut usize) -> (result: Result<u8, RabitqError>)
    requires
        *old(pos) <= data@.len(),
    ensures
        advances(data@, *old(pos) as int, *final(pos) as int, 1, result, data@[*old(pos) as int]),
{
    if data.len() - *pos < 1 {
        return Err(RabitqError::Io(IoFailure::UnexpectedEof));
    }
    let value: u8 = data[*pos];
    *pos += 1;
    Ok(value)
}

/// Reads a four-byte number.
pub fn read_u32(data: &[u8], pos: &mut usize) -> (result: Result<u32, RabitqError>)
    requires
        *old(pos) <= data@.len(),
    ensures
        advances(
            data@,
            *old(pos) as int,
            *final(pos) as int,
            4,
            result,
            u32_at(data@, *old(pos) as int),
        ),
{
    if data.len() - *pos < 4 {
        return Err(RabitqError::Io(IoFailure::UnexpectedEof));
    }
    let p: usize = *pos;
    let value: u32 = data[p] as u32 + 256 * data[p + 1] as u32 + 65536 * data[p + 2] as u32
        + 16777216 * data[p + 3] as u32;
    *pos += 4;
    Ok(value)
}

/// Reads an eight-byte number.
pub fn read_u64(data: &[u8], pos: &mut usize) -> (result: Result<u64, RabitqError>)
    requires
        *old(pos) <= data@.len(),
    ensures
        advances(
            data@,
            *old(pos) as int,
            *final(pos) as int,
            8,
            result,
            u64_at(data@, *old(pos) as int),
        ),
{
    if data.len() - *pos < 8 {
        return Err(RabitqError::Io(IoFailure::UnexpectedEof));
    }
    let low: u32 = read_u32(data, pos)?;
    let high: u32 = read_u32(data, pos)?;
    Ok(low as u64 + 4294967296 * high as u64)
}

/// Reads `n` bytes.
pub fn read_bytes(data: &[u8], pos: &mut usize, n: usize) -> (result: Result<Vec<u8>, RabitqError>)
    requires
        *old(pos) <= data@.len(),
    ensures
        reads_seq(
            data@,
            *old(pos) as int,
            *final(pos) as int,
            n as int,
            result,
            data@.subrange(*old(pos) as int, *old(pos) + n),
        ),
{
    if data.len() - *pos < n {
        return Err(RabitqError::Io(IoFailure::UnexpectedEof));
    }
    let value: Vec<u8> = vstd::slice::slice_to_vec(
        vstd::slice::slice_subrange(data, *pos, *pos + n),
    );
    *pos += n;
    Ok(value)
}

/// As `advances`, for a read that yields a vector.
pub open spec fn reads_seq<T>(
    data: Seq<u8>,
    before: int,
    after: int,
    n: int,
    result: Result<Vec<T>, RabitqError>,
    value: Seq<T>,
) -> bool {
    if before + n <= data.len() {
        after == before + n && result is Ok && result->Ok_0@ == value
    } else {
        after == before && result == Err::<Vec<T>, RabitqError>(eof())
    }
}

/// Reads `n` single-precision numbers as their bits.
pub fn read_f32s(data: &[u8], pos: &mut usize, n: usize) -> (result: Result<Vec<u32>, RabitqError>)
    requires
        *old(pos) <= data@.len(),
    ensures
        reads_seq(
            data@,
            *old(pos) as int,
            *final(pos) as int,
            4 * n,
            result,
            u32s_at(data@, *old(pos) as int, n as int),
        ),
{
    if (data.len() - *pos) / 4 < n {
        return Err(RabitqError::Io(IoFailure::UnexpectedEof));
    }
    let mut values: Vec<u32> = Vec::with_capacity(n);
    let mut i: usize = 0;
    while i < n
        invariant
            i <= n,
            *old(pos) + 4 * n <= data@.len(),
            *pos == *old(pos) + 4 * i,
            values@ == u32s_at(data@, *old(pos) as int, i as int),
        decreases n - i,
    {
        let value: u32 = read_u32(data, pos)?;
        values.push(value);
        i += 1;
        assert(values@ =~= u32s_at(data@, *old(pos) as int, i as int));
    }
    Ok(values)
}

/// Reads `n` vector ids.
pub fn read_u64s(data: &[u8], pos: &mut usize, n: usize) -> (result: Result<Vec<u64>, RabitqError>)
    requires
        *old(pos) <= data@.len(),
    ensures
        reads_seq(
            data@,
            *old(pos) as int,
            *final(pos) as int,
            8 * n,
            result,
            u64s_at(data@, *old(pos) as int, n as int),
        ),
{
    if (data.len() - *pos) / 8 < n {
        return Err(RabitqError::Io(IoFailure::UnexpectedEof));
    }
    let mut values: Vec<u64> = Vec::with_capacity(n);
    let mut i: usize = 0;
    while i < n
        invariant
            i <= n,
            *old(pos) + 8 * n <= data@.len(),
            *pos == *old(pos) + 8 * i,
            values@ == u64s_at(data@, *old(pos) as int, i as int),
        decreases n - i,
    {
        let value: u64 = read_u64(data, pos)?;
        values.push(value);
        i += 1;
        assert(values@ =~= u64s_at(data@, *old(pos) as int, i as int));
    }
    Ok(values)
}

/// Whether `x` stands at `pos` in `b`.
pub open spec fn stands_at(b: Seq<u8>, pos: int, x: Seq<u8>) -> bool {
    &&& 0 <= pos
    &&& pos + x.len() <= b.len()
    &&& b.subrange(pos, pos + x.len()) == x
}

/// A sequence stands at the start of what begins with it.
pub proof fn lemma_prefix_stands(x: Seq<u8>, rest: Seq<u8>)
    ensures
        stands_at(x + rest, 0, x),
{
    assert((x + rest).subrange(0, x.len() as int) =~= x);
}

/// Where a concatenation stands, its two parts stand one behind the other.
pub proof fn lemma_stands_split(b: Seq<u8>, pos: int, x: Seq<u8>, y: Seq<u8>)
    requires
        stands_at(b, pos, x + y),
    ensures
        stands_at(b, pos, x),
        stands_at(b, pos + x.len(), y),
{
    let whole = b.subrange(pos, pos + (x + y).len());
    assert(whole =~= x + y);
    assert(b.subrange(pos, pos + x.len()) =~= x) by {
        assert forall|i: int| 0 <= i < x.len() implies b[pos + i] == x[i] by {
            assert(whole[i] == (x + y)[i]);
        }
    }
    assert(b.subrange(pos + x.len(), pos + x.len() + y.len()) =~= y) by {
        assert forall|i: int| 0 <= i < y.len() implies b[pos + x.len() + i] == y[i] by {
            assert(whole[x.len() + i] == (x + y)[x.len() + i]);
        }
    }
}

/// A number that stands somewhere is read there.
pub proof fn lemma_read_le32(b: Seq<u8>, pos: int, x: u32)
    requires
        stands_at(b, pos, le32(x)),
    ensures
        pos + 4 <= b.len(),
        u32_at(b, pos) == x,
{
    lemma_u32_at_le32(b, pos, x);
}

/// A number that stands somewhere is read there.
pub proof fn lemma_read_le64(b: Seq<u8>, pos: int, x: u64)
    requires
        stands_at(b, pos, le64(x)),
    ensures
        pos + 8 <= b.len(),
        u64_at(b, pos) == x,
{
    lemma_u64_at_le64(b, pos, x);
}

/// Numbers that stand somewhere are read there.
pub proof fn lemma_read_le32s(b: Seq<u8>, pos: int, s: Seq<u32>)
    requires
        stands_at(b, pos, le32s(s)),
    ensures
        pos + 4 * s.len() <= b.len(),
        u32s_at(b, pos, s.len() as int) == s,
{
    lemma_u32s_at_le32s(b, pos, s);
}

/// Numbers that stand somewhere are read there.
pub proof fn lemma_read_le64s(b: Seq<u8>, pos: int, s: Seq<u64>)
    requires
        stands_at(b, pos, le64s(s)),
    ensures
        pos + 8 * s.len() <= b.len(),
        u64s_at(b, pos, s.len() as int) == s,
{
    lemma_u64s_at_le64s(b, pos, s);
}

/// The parts of a file that is made of a front, a checked body of two parts, and a sum.
pub proof fn lemma_file_parts(
    b: Seq<u8>,
    front: Seq<u8>,
    header: Seq<u8>,
    tail: Seq<u8>,
    sum: Seq<u8>,
)
    requires
        stands_at(b, 0, front + (header + tail) + sum),
    ensures
        stands_at(b, 0, front + header),
        stands_at(b, (front.len() + header.len()) as int, tail),
        stands_at(b, (front.len() + header.len() + tail.len()) as int, sum),
        b.subrange(
            front.len() as int,
            (front.len() + header.len() + tail.len()) as int,
        ) == header + tail,
{
    let body = header + tail;
    lemma_stands_split(b, 0, front + body, sum);
    assert(front + body =~= front + header + tail);
    lemma_stands_split(b, 0, front + header, tail);
    lemma_stands_split(b, 0, front, body);
}

} // verus!
