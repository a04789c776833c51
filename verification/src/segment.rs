//! The file of one segment of a cluster.
use crate::bytes::{
    eof, le32, le32s, le64, le64s, lemma_file_parts, lemma_prefix_stands, lemma_read_le32,
    lemma_read_le32s, lemma_read_le64, lemma_read_le64s, lemma_stands_split, read_bytes, read_f32s,
    read_u32, read_u64, read_u64s, read_u8, stands_at, u32_at, u32s_at, u64_at, u64s_at,
    write_bytes, write_f32s, write_u32, write_u64, write_u64s,
};
use crate::checksum::{crc32, crc32_of};
use crate::error::RabitqError;
use crate::manifest::uf64;
use crate::persist::{broken, ex_codes_bytes, write_ex_codes};
use crate::quantized::{lemma_nested_push, nested};
use vstd::prelude::*;

verus! {

/// The four bytes that open a segment.
pub const V4_SEGMENT_MAGIC: [u8; 4] = [83, 69, 71, 49];

/// The contents of a segment.
#[derive(Debug)]
pub struct ClusterSegmentData {
    pub cluster_id: u32,
    pub centroid: Vec<u32>,
    pub padded_dim: usize,
    pub ex_bits: usize,
    pub ids: Vec<u64>,
    pub batch_data: Vec<u8>,
    pub ex_codes_packed: Vec<Vec<u8>>,
    pub f_add_ex: Vec<u32>,
    pub f_rescale_ex: Vec<u32>,
    pub delta: Vec<u32>,
    pub vl: Vec<u32>,
}

/// What a segment holds.
#[verifier::ext_equal]
pub struct SegmentModel {
    pub cluster_id: u32,
    pub centroid: Seq<u32>,
    pub padded_dim: usize,
    pub ex_bits: usize,
    pub ids: Seq<u64>,
    pub batch_data: Seq<u8>,
    pub ex_codes: Seq<Seq<u8>>,
    pub f_add_ex: Seq<u32>,
    pub f_rescale_ex: Seq<u32>,
    pub delta: Seq<u32>,
    pub vl: Seq<u32>,
}

impl View for ClusterSegmentData {
    type V = SegmentModel;

    open spec fn view(&self) -> SegmentModel {
        SegmentModel {
            cluster_id: self.cluster_id,
            centroid: self.centroid@,
            padded_dim: self.padded_dim,
            ex_bits: self.ex_bits,
            ids: self.ids@,
            batch_data: self.batch_data@,
            ex_codes: nested(self.ex_codes_packed@),
            f_add_ex: self.f_add_ex@,
            f_rescale_ex: self.f_rescale_ex@,
            delta: self.delta@,
            vl: self.vl@,
        }
    }
}

/// The first 21 bytes of a segment without the magic.
pub open spec fn segment_header_bytes(s: SegmentModel, version: u32) -> Seq<u8> {
    le32(s.cluster_id) + le32(version) + le32(s.padded_dim as u32) + seq![s.ex_bits as u8] + le32(
        s.ids.len() as u32,
    )
}

/// The part of a segment behind the header that the checksum covers.
pub open spec fn segment_tail_bytes(s: SegmentModel) -> Seq<u8> {
    le32s(s.centroid) + le64s(s.ids) + le64(s.batch_data.len() as u64) + s.batch_data + le32(
        s.ex_codes.len() as u32,
    ) + ex_codes_bytes(s.ex_codes) + le32s(s.f_add_ex) + le32s(s.f_rescale_ex) + le32s(s.delta)
        + le32s(s.vl)
}

/// A segment file: magic, header and contents, and their checksum.
pub open spec fn segment_bytes(s: SegmentModel, version: u32) -> Seq<u8> {
    let body = segment_header_bytes(s, version) + segment_tail_bytes(s);
    V4_SEGMENT_MAGIC@ + body + le32(crc32_of(body))
}

fn write_segment_header(out: &mut Vec<u8>, seg: &ClusterSegmentData, version: u32)
    ensures
        final(out)@ == old(out)@ + segment_header_bytes(seg@, version),
{
    write_u32(out, seg.cluster_id);
    write_u32(out, version);
    write_u32(out, seg.padded_dim as u32);
    out.push(seg.ex_bits as u8);
    write_u32(out, seg.ids.len() as u32);
    assert(out@ =~= old(out)@ + segment_header_bytes(seg@, version));
}

fn write_segment_tail(out: &mut Vec<u8>, seg: &ClusterSegmentData)
    ensures
        final(out)@ == old(out)@ + segment_tail_bytes(seg@),
{
    write_f32s(out, seg.centroid.as_slice());
    write_u64s(out, seg.ids.as_slice());
    write_u64(out, seg.batch_data.len() as u64);
    write_bytes(out, seg.batch_data.as_slice());
    write_u32(out, seg.ex_codes_packed.len() as u32);
    write_ex_codes(out, &seg.ex_codes_packed);
    write_f32s(out, seg.f_add_ex.as_slice());
    write_f32s(out, seg.f_rescale_ex.as_slice());
    write_f32s(out, seg.delta.as_slice());
    write_f32s(out, seg.vl.as_slice());
    assert(out@ =~= old(out)@ + segment_tail_bytes(seg@));
}

/// The bytes of a segment file. Numbers that do not fit their place in the format are cut off.
pub fn write_segment(seg: &ClusterSegmentData, version: u32) -> (bytes: Vec<u8>)
    ensures
        bytes@ == segment_bytes(seg@, version),
{
    let mut body: Vec<u8> = Vec::new();
    write_segment_header(&mut body, seg, version);
    write_segment_tail(&mut body, seg);
    let sum: u32 = crc32(body.as_slice());
    let mut out: Vec<u8> = Vec::new();
    write_bytes(&mut out, V4_SEGMENT_MAGIC.as_slice());
    write_bytes(&mut out, body.as_slice());
    write_u32(&mut out, sum);
    proof {
        assert(body@ =~= segment_header_bytes(seg@, version) + segment_tail_bytes(seg@));
        assert(out@ =~= V4_SEGMENT_MAGIC@ + body@ + le32(sum));
    }
    out
}

/// The first `n` extended codes that stand at `pos`, of any length, and the position behind them.
pub open spec fn code_list_at(b: Seq<u8>, pos: int, n: int) -> Result<
    (Seq<Seq<u8>>, int),
    RabitqError,
>
    decreases n,
{
    if n <= 0 {
        Ok((Seq::empty(), pos))
    } else {
        match code_list_at(b, pos, n - 1) {
            Err(e) => Err(e),
            Ok((codes, p)) => if p + 8 > b.len() {
                Err(eof())
            } else if u64_at(b, p) > usize::MAX {
                broken("value exceeds usize")
            } else if p + 8 + u64_at(b, p) > b.len() {
                Err(eof())
            } else {
                Ok(
                    (
                        codes.push(b.subrange(p + 8, p + 8 + u64_at(b, p))),
                        p + 8 + u64_at(b, p),
                    ),
                )
            },
        }
    }
}

/// The segment that a file holds, or why it holds none.
pub open spec fn segment_of_bytes(b: Seq<u8>) -> Result<SegmentModel, RabitqError> {
    let padded_dim = u32_at(b, 12) as int;
    let count = u32_at(b, 17) as int;
    let p_ids = 21 + 4 * padded_dim;
    let p_len = p_ids + 8 * count;
    let p_data = p_len + 8;
    let p_codes = p_data + u64_at(b, p_len);
    if b.len() < 4 {
        Err(eof())
    } else if b.subrange(0, 4) != V4_SEGMENT_MAGIC@ {
        broken("not a V4 segment")
    } else if b.len() < 21 {
        Err(eof())
    } else if b.len() < p_data {
        Err(eof())
    } else if u64_at(b, p_len) > usize::MAX {
        broken("value exceeds usize")
    } else if b.len() < p_codes + 4 {
        Err(eof())
    } else {
        match code_list_at(b, p_codes + 4, u32_at(b, p_codes) as int) {
            Err(e) => Err(e),
            Ok((codes, p)) => if b.len() < p + 16 * count + 4 {
                Err(eof())
            } else if u32_at(b, p + 16 * count) != crc32_of(b.subrange(4, p + 16 * count)) {
                broken("segment checksum mismatch")
            } else {
                Ok(
                    SegmentModel {
                        cluster_id: u32_at(b, 4),
                        centroid: u32s_at(b, 21, padded_dim),
                        padded_dim: padded_dim as usize,
                        ex_bits: b[16] as usize,
                        ids: u64s_at(b, p_ids, count),
                        batch_data: b.subrange(p_data, p_codes),
                        ex_codes: codes,
                        f_add_ex: u32s_at(b, p, count),
                        f_rescale_ex: u32s_at(b, p + 4 * count, count),
                        delta: u32s_at(b, p + 8 * count, count),
                        vl: u32s_at(b, p + 12 * count, count),
                    },
                )
            },
        }
    }
}

proof fn lemma_code_list_error(b: Seq<u8>, pos: int, few: int, many: int)
    requires
        0 <= few <= many,
        code_list_at(b, pos, few) is Err,
    ensures
        code_list_at(b, pos, many) == code_list_at(b, pos, few),
    decreases many,
{
    if few < many {
        lemma_code_list_error(b, pos, few, many - 1);
    }
}

fn read_code_list(data: &[u8], pos: &mut usize, n: u32) -> (result: Result<
    Vec<Vec<u8>>,
    RabitqError,
>)
    requires
        *old(pos) <= data@.len(),
    ensures
        *old(pos) <= *final(pos) <= data@.len(),
        match code_list_at(data@, *old(pos) as int, n as int) {
            Err(e) => result == Err::<Vec<Vec<u8>>, RabitqError>(e),
            Ok((codes, p)) => result is Ok && nested(result->Ok_0@) == codes && *final(pos) == p,
        },
{
    let ghost start = *pos as int;
    let mut codes: Vec<Vec<u8>> = Vec::new();
    let mut i: u32 = 0;
    assert(nested(codes@) =~= Seq::empty());
    while i < n
        invariant
            i <= n,
            start == *old(pos),
            start <= *pos <= data@.len(),
            code_list_at(data@, start, i as int) == Ok::<(Seq<Seq<u8>>, int), RabitqError>(
                (nested(codes@), *pos as int),
            ),
        decreases n - i,
    {
        let ghost step = code_list_at(data@, start, i + 1);
        proof {
            if step is Err {
                lemma_code_list_error(data@, start, i + 1, n as int);
            }
        }
        let raw: u64 = read_u64(data, pos)?;
        let len: usize = uf64(raw)?;
        let code: Vec<u8> = read_bytes(data, pos, len)?;
        proof {
            lemma_nested_push(codes@, code);
        }
        codes.push(code);
        i += 1;
    }
    Ok(codes)
}

/// Whether the first four bytes are the magic of a segment.
fn is_segment_magic(magic: &[u8]) -> (r: bool)
    requires
        magic@.len() == 4,
    ensures
        r == (magic@ == V4_SEGMENT_MAGIC@),
{
    let r: bool = magic[0] == V4_SEGMENT_MAGIC[0] && magic[1] == V4_SEGMENT_MAGIC[1] && magic[2]
        == V4_SEGMENT_MAGIC[2] && magic[3] == V4_SEGMENT_MAGIC[3];
    proof {
        if r {
            assert(magic@ =~= V4_SEGMENT_MAGIC@);
        }
    }
    r
}

/// Reads a segment file.
pub fn read_segment_full(data: &[u8]) -> (result: Result<ClusterSegmentData, RabitqError>)
    ensures
        match segment_of_bytes(data@) {
            Err(e) => result == Err::<ClusterSegmentData, RabitqError>(e),
            Ok(s) => result is Ok && result->Ok_0@ == s,
        },
{
    let mut pos: usize = 0;
    let magic: Vec<u8> = read_bytes(data, &mut pos, 4)?;
    if !is_segment_magic(magic.as_slice()) {
        return Err(RabitqError::InvalidPersistence("not a V4 segment"));
    }
    let cluster_id: u32 = read_u32(data, &mut pos)?;
    let _version: u32 = read_u32(data, &mut pos)?;
    let padded_dim: u32 = read_u32(data, &mut pos)?;
    let ex_bits: u8 = read_u8(data, &mut pos)?;
    let count: u32 = read_u32(data, &mut pos)?;
    let centroid: Vec<u32> = read_f32s(data, &mut pos, padded_dim as usize)?;
    let ids: Vec<u64> = read_u64s(data, &mut pos, count as usize)?;
    let raw_len: u64 = read_u64(data, &mut pos)?;
    let len: usize = uf64(raw_len)?;
    let batch_data: Vec<u8> = read_bytes(data, &mut pos, len)?;
    let code_count: u32 = read_u32(data, &mut pos)?;
    let ex_codes_packed: Vec<Vec<u8>> = read_code_list(data, &mut pos, code_count)?;
    let f_add_ex: Vec<u32> = read_f32s(data, &mut pos, count as usize)?;
    let f_rescale_ex: Vec<u32> = read_f32s(data, &mut pos, count as usize)?;
    let delta: Vec<u32> = read_f32s(data, &mut pos, count as usize)?;
    let vl: Vec<u32> = read_f32s(data, &mut pos, count as usize)?;
    let computed: u32 = crc32(vstd::slice::slice_subrange(data, 4, pos));
    let stored: u32 = read_u32(data, &mut pos)?;
    if computed != stored {
        return Err(RabitqError::InvalidPersistence("segment checksum mismatch"));
    }
    Ok(
        ClusterSegmentData {
            cluster_id,
            centroid,
            padded_dim: padded_dim as usize,
            ex_bits: ex_bits as usize,
            ids,
            batch_data,
            ex_codes_packed,
            f_add_ex,
            f_rescale_ex,
            delta,
            vl,
        },
    )
}

/// The cluster id and the centroid that a segment opens with.
pub open spec fn centroid_of_bytes(b: Seq<u8>, padded_dim: int) -> Result<
    (u32, Seq<u32>),
    RabitqError,
> {
    if b.len() < 21 + 4 * padded_dim {
        broken("segment too short")
    } else {
        Ok((u32_at(b, 4), u32s_at(b, 21, padded_dim)))
    }
}

/// Reads the cluster id and the centroid out of the first `21 + 4 * padded_dim` bytes of a segment
/// file. What follows is not looked at.
pub fn read_segment_centroid(data: &[u8], padded_dim: usize) -> (result: Result<
    (u32, Vec<u32>),
    RabitqError,
>)
    ensures
        match centroid_of_bytes(data@, padded_dim as int) {
            Err(e) => result == Err::<(u32, Vec<u32>), RabitqError>(e),
            Ok((cluster_id, centroid)) => result is Ok && result->Ok_0.0 == cluster_id
                && result->Ok_0.1@ == centroid,
        },
{
    if data.len() < 21 || (data.len() - 21) / 4 < padded_dim {
        return Err(RabitqError::InvalidPersistence("segment too short"));
    }
    let mut pos: usize = 4;
    let cluster_id: u32 = read_u32(data, &mut pos)?;
    pos = 21;
    let centroid: Vec<u32> = read_f32s(data, &mut pos, padded_dim)?;
    Ok((cluster_id, centroid))
}

// ----------------------------------------------------------------------------
// What is written is read
// ----------------------------------------------------------------------------

/// A segment that fits the format: one entry of the parameters for each id, and numbers within
/// their range.
pub open spec fn segment_fits(s: SegmentModel) -> bool {
    &&& s.padded_dim <= u32::MAX
    &&& s.ex_bits <= u8::MAX
    &&& s.centroid.len() == s.padded_dim
    &&& s.ids.len() <= u32::MAX
    &&& s.batch_data.len() <= usize::MAX
    &&& s.ex_codes.len() <= u32::MAX
    &&& forall|i: int| 0 <= i < s.ex_codes.len() ==> (#[trigger] s.ex_codes[i]).len() <= usize::MAX
    &&& s.f_add_ex.len() == s.ids.len()
    &&& s.f_rescale_ex.len() == s.ids.len()
    &&& s.delta.len() == s.ids.len()
    &&& s.vl.len() == s.ids.len()
}

proof fn lemma_code_list_read(b: Seq<u8>, pos: int, codes: Seq<Seq<u8>>)
    requires
        stands_at(b, pos, ex_codes_bytes(codes)),
        forall|i: int| 0 <= i < codes.len() ==> (#[trigger] codes[i]).len() <= usize::MAX,
    ensures
        code_list_at(b, pos, codes.len() as int) == Ok::<(Seq<Seq<u8>>, int), RabitqError>(
            (codes, pos + ex_codes_bytes(codes).len()),
        ),
    decreases codes.len(),
{
    if codes.len() == 0 {
        assert(codes =~= Seq::empty());
    } else {
        let init = codes.drop_last();
        let code = codes.last();
        let p = pos + ex_codes_bytes(init).len();
        assert(code == codes[codes.len() - 1]);
        lemma_stands_split(b, pos, ex_codes_bytes(init) + le64(code.len() as u64), code);
        lemma_stands_split(b, pos, ex_codes_bytes(init), le64(code.len() as u64));
        lemma_code_list_read(b, pos, init);
        lemma_read_le64(b, p, code.len() as u64);
        assert(b.subrange(p + 8, p + 8 + code.len()) =~= code);
        assert(init.push(code) =~= codes);
    }
}

proof fn lemma_segment_header_read(b: Seq<u8>, s: SegmentModel, version: u32)
    requires
        segment_fits(s),
        stands_at(b, 4, segment_header_bytes(s, version)),
    ensures
        b.len() >= 21,
        u32_at(b, 4) == s.cluster_id,
        u32_at(b, 8) == version,
        u32_at(b, 12) == s.padded_dim,
        b[16] == s.ex_bits,
        u32_at(b, 17) == s.ids.len(),
        segment_header_bytes(s, version).len() == 17,
{
    let tag = seq![s.ex_bits as u8];
    let x1 = le32(s.cluster_id);
    let x2 = x1 + le32(version);
    let x3 = x2 + le32(s.padded_dim as u32);
    let x4 = x3 + tag;
    lemma_stands_split(b, 4, x4, le32(s.ids.len() as u32));
    lemma_stands_split(b, 4, x3, tag);
    lemma_stands_split(b, 4, x2, le32(s.padded_dim as u32));
    lemma_stands_split(b, 4, x1, le32(version));
    lemma_read_le32(b, 4, s.cluster_id);
    lemma_read_le32(b, 8, version);
    lemma_read_le32(b, 12, s.padded_dim as u32);
    assert(b.subrange(16, 17)[0] == b[16]);
    lemma_read_le32(b, 17, s.ids.len() as u32);
}

#[verifier::rlimit(40)]
proof fn lemma_segment_tail_read(b: Seq<u8>, s: SegmentModel)
    requires
        segment_fits(s),
        stands_at(b, 21, segment_tail_bytes(s)),
    ensures
        ({
            let n = s.ids.len() as int;
            let p_ids = 21 + 4 * s.padded_dim;
            let p_len = p_ids + 8 * n;
            let p_codes = p_len + 8 + s.batch_data.len();
            let p = p_codes + 4 + ex_codes_bytes(s.ex_codes).len();
            &&& p + 16 * n == 21 + segment_tail_bytes(s).len()
            &&& u32s_at(b, 21, s.padded_dim as int) == s.centroid
            &&& u64s_at(b, p_ids, n) == s.ids
            &&& u64_at(b, p_len) == s.batch_data.len()
            &&& b.subrange(p_len + 8, p_codes) == s.batch_data
            &&& u32_at(b, p_codes) == s.ex_codes.len()
            &&& code_list_at(b, p_codes + 4, s.ex_codes.len() as int) == Ok::<
                (Seq<Seq<u8>>, int),
                RabitqError,
            >((s.ex_codes, p))
            &&& u32s_at(b, p, n) == s.f_add_ex
            &&& u32s_at(b, p + 4 * n, n) == s.f_rescale_ex
            &&& u32s_at(b, p + 8 * n, n) == s.delta
            &&& u32s_at(b, p + 12 * n, n) == s.vl
        }),
{
    let x1 = le32s(s.centroid);
    let x2 = x1 + le64s(s.ids);
    let x3 = x2 + le64(s.batch_data.len() as u64);
    let x4 = x3 + s.batch_data;
    let x5 = x4 + le32(s.ex_codes.len() as u32);
    let x6 = x5 + ex_codes_bytes(s.ex_codes);
    let x7 = x6 + le32s(s.f_add_ex);
    let x8 = x7 + le32s(s.f_rescale_ex);
    let x9 = x8 + le32s(s.delta);
    let n = s.ids.len() as int;
    assert(x1.len() == 4 * s.padded_dim);
    assert(x2.len() == x1.len() + 8 * n);
    assert(x3.len() == x2.len() + 8);
    assert(x5.len() == x4.len() + 4);
    assert(x7.len() == x6.len() + 4 * n);
    assert(x8.len() == x7.len() + 4 * n);
    assert(x9.len() == x8.len() + 4 * n);
    lemma_stands_split(b, 21, x9, le32s(s.vl));
    lemma_stands_split(b, 21, x8, le32s(s.delta));
    lemma_stands_split(b, 21, x7, le32s(s.f_rescale_ex));
    lemma_stands_split(b, 21, x6, le32s(s.f_add_ex));
    lemma_stands_split(b, 21, x5, ex_codes_bytes(s.ex_codes));
    lemma_stands_split(b, 21, x4, le32(s.ex_codes.len() as u32));
    lemma_stands_split(b, 21, x3, s.batch_data);
    lemma_stands_split(b, 21, x2, le64(s.batch_data.len() as u64));
    lemma_stands_split(b, 21, x1, le64s(s.ids));
    lemma_read_le32s(b, 21, s.centroid);
    lemma_read_le64s(b, 21 + x1.len() as int, s.ids);
    lemma_read_le64(b, 21 + x2.len() as int, s.batch_data.len() as u64);
    lemma_read_le32(b, 21 + x4.len() as int, s.ex_codes.len() as u32);
    lemma_code_list_read(b, 21 + x5.len() as int, s.ex_codes);
    lemma_read_le32s(b, 21 + x6.len() as int, s.f_add_ex);
    lemma_read_le32s(b, 21 + x7.len() as int, s.f_rescale_ex);
    lemma_read_le32s(b, 21 + x8.len() as int, s.delta);
    lemma_read_le32s(b, 21 + x9.len() as int, s.vl);
}

#[verifier::rlimit(40)]
proof fn lemma_segment_read(
    b: Seq<u8>,
    s: SegmentModel,
    version: u32,
    header: Seq<u8>,
    tail: Seq<u8>,
    sum: u32,
)
    requires
        segment_fits(s),
        header == segment_header_bytes(s, version),
        tail == segment_tail_bytes(s),
        sum == crc32_of(header + tail),
        stands_at(b, 0, V4_SEGMENT_MAGIC@ + (header + tail) + le32(sum)),
    ensures
        segment_of_bytes(b) == Ok::<SegmentModel, RabitqError>(s),
        centroid_of_bytes(b, s.padded_dim as int) == Ok::<(u32, Seq<u32>), RabitqError>(
            (s.cluster_id, s.centroid),
        ),
{
    let front = V4_SEGMENT_MAGIC@;
    assert(front.len() == 4);
    lemma_file_parts(b, front, header, tail, le32(sum));
    lemma_stands_split(b, 0, front, header);
    lemma_segment_header_read(b, s, version);
    lemma_segment_tail_read(b, s);
    lemma_read_le32(b, 21 + tail.len() as int, sum);
}

/// What is written is read: the bytes of a segment that fits the format, whatever follows them,
/// read back as that segment, and the centroid alone reads as that of the whole.
pub proof fn law_segment_round_trip(s: SegmentModel, version: u32, rest: Seq<u8>)
    requires
        segment_fits(s),
    ensures
        segment_of_bytes(segment_bytes(s, version) + rest) == Ok::<SegmentModel, RabitqError>(s),
        centroid_of_bytes(segment_bytes(s, version) + rest, s.padded_dim as int) == Ok::<
            (u32, Seq<u32>),
            RabitqError,
        >((s.cluster_id, s.centroid)),
{
    let header = segment_header_bytes(s, version);
    let tail = segment_tail_bytes(s);
    lemma_prefix_stands(segment_bytes(s, version), rest);
    lemma_segment_read(
        segment_bytes(s, version) + rest,
        s,
        version,
        header,
        tail,
        crc32_of(header + tail),
    );
}

/// The centroid that is read from the front of a segment file is that of the whole segment.
pub proof fn law_centroid_of_segment(b: Seq<u8>)
    ensures
        segment_of_bytes(b) matches Ok(s) ==> centroid_of_bytes(b, s.padded_dim as int) == Ok::<
            (u32, Seq<u32>),
            RabitqError,
        >((s.cluster_id, s.centroid)),
{
}

} // verus!
