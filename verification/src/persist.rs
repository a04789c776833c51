//! The single-file format of an index.
use crate::bytes::{
    eof, le32, le32s, le64, le64s, lemma_file_parts, lemma_prefix_stands, lemma_read_le32,
    lemma_read_le32s, lemma_read_le64, lemma_read_le64s, lemma_stands_split, read_bytes,
    read_f32s, read_u32, read_u64, read_u64s, read_u8, stands_at, u32_at, u32s_at, u64_at, u64s_at,
    write_bytes, write_f32s, write_u32, write_u64, write_u64s,
};
use crate::checksum::{crc32, crc32_of};
use crate::cluster::{batches, stride, ClusterData, ClusterModel};
use crate::error::RabitqError;
use crate::index::{cluster_models, vector_total, IndexModel, IvfRabitqIndex};
use crate::quantized::{lemma_nested_push, nested};
use crate::types::{
    metric_of_tag, metric_tag, metric_to_tag, rotator_of_tag, rotator_tag, tag_to_metric, Metric,
    Rotator, RotatorType,
};
use vstd::prelude::*;

verus! {

/// The four bytes that open an index file.
pub const PERSIST_MAGIC: [u8; 4] = [82, 66, 81, 49];

/// The version of the format.
pub const PERSIST_VERSION: u32 = 3;

/// The largest cluster that is taken for intact.
pub const MAX_CLUSTER_SIZE: usize = 1_000_000;

/// The error of persisted data that does not hold together.
pub open spec fn broken<T>(why: &'static str) -> Result<T, RabitqError> {
    Err(RabitqError::InvalidPersistence(why))
}

/// A number of a file as a `usize`.
pub fn usize_from_u64(value: u64) -> (r: Result<usize, RabitqError>)
    ensures
        value <= usize::MAX ==> r == Ok::<usize, RabitqError>(value as usize),
        value > usize::MAX ==> r == broken::<usize>("value exceeds platform limits"),
{
    if value > usize::MAX as u64 {
        Err(RabitqError::InvalidPersistence("value exceeds platform limits"))
    } else {
        Ok(value as usize)
    }
}

/// Extended codes in a file: each with its length in front.
pub open spec fn ex_codes_bytes(codes: Seq<Seq<u8>>) -> Seq<u8>
    decreases codes.len(),
{
    if codes.len() == 0 {
        Seq::empty()
    } else {
        ex_codes_bytes(codes.drop_last()) + le64(codes.last().len() as u64) + codes.last()
    }
}

/// A cluster in an index file.
pub open spec fn cluster_bytes(c: ClusterModel) -> Seq<u8> {
    le32s(c.centroid) + le64(c.num_vectors as u64) + le64s(c.ids) + le64(
        c.batch_data.len() as u64,
    ) + c.batch_data + ex_codes_bytes(c.ex_codes) + le32s(c.f_add_ex) + le32s(c.f_rescale_ex)
        + le32s(c.delta) + le32s(c.vl)
}

/// Clusters in an index file, one after the other.
pub open spec fn clusters_bytes(clusters: Seq<ClusterModel>) -> Seq<u8>
    decreases clusters.len(),
{
    if clusters.len() == 0 {
        Seq::empty()
    } else {
        clusters_bytes(clusters.drop_last()) + cluster_bytes(clusters.last())
    }
}

/// The part of an index file in front of the clusters that the checksum covers.
pub open spec fn header_bytes(m: IndexModel) -> Seq<u8> {
    le32(m.dim as u32) + le32(m.padded_dim as u32) + seq![
        metric_tag(m.metric),
        rotator_tag(m.rotator_type),
        m.ex_bits as u8,
        (m.ex_bits + 1) as u8,
    ] + le64(vector_total(m.clusters) as u64) + le64(m.clusters.len() as u64) + le64(
        m.rotator_data.len() as u64,
    ) + m.rotator_data
}

/// An index file: magic and version, the header and the clusters, and their checksum.
pub open spec fn index_bytes(m: IndexModel) -> Seq<u8> {
    let body = header_bytes(m) + clusters_bytes(m.clusters);
    PERSIST_MAGIC@ + le32(PERSIST_VERSION) + body + le32(crc32_of(body))
}

/// The first cluster that cannot be saved, and why; `None` where all can.
pub open spec fn cluster_fault(clusters: Seq<ClusterModel>, padded_dim: usize, from: int) -> Option<
    &'static str,
>
    decreases clusters.len() - from,
{
    if from < 0 || from >= clusters.len() {
        None
    } else if clusters[from].centroid.len() != padded_dim {
        Some("cluster centroid dimension mismatch")
    } else if clusters[from].ids.len() != clusters[from].num_vectors {
        Some("cluster id/vector count mismatch")
    } else {
        cluster_fault(clusters, padded_dim, from + 1)
    }
}

/// Why an index cannot be saved; `None` where it can.
pub open spec fn save_fault(m: IndexModel) -> Option<&'static str> {
    if m.dim > u32::MAX {
        Some("dimension exceeds persistence limits")
    } else if m.padded_dim > u32::MAX {
        Some("padded_dim exceeds persistence limits")
    } else if m.ex_bits > u8::MAX {
        Some("ex_bits exceeds persistence limits")
    } else if m.ex_bits + 1 > u8::MAX {
        Some("total_bits exceeds persistence limits")
    } else {
        cluster_fault(m.clusters, m.padded_dim, 0)
    }
}

pub(crate) fn write_ex_codes(out: &mut Vec<u8>, codes: &Vec<Vec<u8>>)
    ensures
        final(out)@ == old(out)@ + ex_codes_bytes(nested(codes@)),
{
    let ghost all = nested(codes@);
    let mut i: usize = 0;
    assert(out@ =~= old(out)@ + ex_codes_bytes(all.take(0)));
    while i < codes.len()
        invariant
            i <= codes@.len(),
            all == nested(codes@),
            out@ == old(out)@ + ex_codes_bytes(all.take(i as int)),
        decreases codes@.len() - i,
    {
        write_u64(out, codes[i].len() as u64);
        write_bytes(out, codes[i].as_slice());
        proof {
            let next = all.take(i + 1);
            assert(next.drop_last() =~= all.take(i as int));
            assert(next.last() == codes@[i as int]@);
            assert(out@ =~= old(out)@ + ex_codes_bytes(next));
        }
        i += 1;
    }
    assert(all.take(i as int) =~= all);
}

fn write_cluster(out: &mut Vec<u8>, c: &ClusterData)
    ensures
        final(out)@ == old(out)@ + cluster_bytes(c@),
{
    write_f32s(out, c.centroid.as_slice());
    write_u64(out, c.num_vectors as u64);
    write_u64s(out, c.ids.as_slice());
    write_u64(out, c.batch_data.len() as u64);
    write_bytes(out, c.batch_data.as_slice());
    write_ex_codes(out, &c.ex_codes_packed);
    write_f32s(out, c.f_add_ex.as_slice());
    write_f32s(out, c.f_rescale_ex.as_slice());
    write_f32s(out, c.delta.as_slice());
    write_f32s(out, c.vl.as_slice());
    assert(out@ =~= old(out)@ + cluster_bytes(c@));
}

impl IvfRabitqIndex {
    fn header(&self) -> (header: Vec<u8>)
        requires
            vector_total(self@.clusters) <= usize::MAX,
            self@.ex_bits + 1 <= u8::MAX,
        ensures
            header@ == header_bytes(self@),
    {
        let mut out: Vec<u8> = Vec::new();
        write_u32(&mut out, self.dim as u32);
        write_u32(&mut out, self.padded_dim as u32);
        out.push(metric_to_tag(self.metric));
        out.push(self.rotator.rotator_type.to_u8());
        out.push(self.ex_bits as u8);
        out.push((self.ex_bits + 1) as u8);
        write_u64(&mut out, self.len() as u64);
        write_u64(&mut out, self.clusters.len() as u64);
        write_u64(&mut out, self.rotator.data.len() as u64);
        write_bytes(&mut out, self.rotator.data.as_slice());
        assert(out@ =~= header_bytes(self@));
        out
    }

    /// Appends the index to `writer` in the single-file format. Where a part of it does not fit
    /// the format, nothing is written.
    pub fn save_to_writer(&self, writer: &mut Vec<u8>) -> (r: Result<(), RabitqError>)
        requires
            vector_total(self@.clusters) <= usize::MAX,
        ensures
            match save_fault(self@) {
                Some(why) => r == broken::<()>(why) && final(writer)@ == old(writer)@,
                None => r == Ok::<(), RabitqError>(()) && final(writer)@ == old(writer)@
                    + index_bytes(self@),
            },
    {
        if self.dim > u32::MAX as usize {
            return Err(RabitqError::InvalidPersistence("dimension exceeds persistence limits"));
        }
        if self.padded_dim > u32::MAX as usize {
            return Err(RabitqError::InvalidPersistence("padded_dim exceeds persistence limits"));
        }
        if self.ex_bits > u8::MAX as usize {
            return Err(RabitqError::InvalidPersistence("ex_bits exceeds persistence limits"));
        }
        if self.ex_bits + 1 > u8::MAX as usize {
            return Err(RabitqError::InvalidPersistence("total_bits exceeds persistence limits"));
        }
        let mut body: Vec<u8> = self.header();
        let ghost m = self@;
        let mut i: usize = 0;
        assert(body@ =~= header_bytes(m) + clusters_bytes(m.clusters.take(0)));
        while i < self.clusters.len()
            invariant
                i <= self.clusters@.len(),
                m == self@,
                m.ex_bits + 1 <= u8::MAX,
                m.dim <= u32::MAX,
                m.padded_dim <= u32::MAX,
                cluster_fault(m.clusters, m.padded_dim, i as int) == cluster_fault(
                    m.clusters,
                    m.padded_dim,
                    0,
                ),
                writer@ == old(writer)@,
                body@ == header_bytes(m) + clusters_bytes(m.clusters.take(i as int)),
            decreases self.clusters@.len() - i,
        {
            let cluster = &self.clusters[i];
            assert(m.clusters[i as int] == cluster@);
            if cluster.centroid.len() != self.padded_dim {
                return Err(
                    RabitqError::InvalidPersistence("cluster centroid dimension mismatch"),
                );
            }
            if cluster.ids.len() != cluster.num_vectors {
                return Err(RabitqError::InvalidPersistence("cluster id/vector count mismatch"));
            }
            write_cluster(&mut body, cluster);
            proof {
                let next = m.clusters.take(i + 1);
                assert(next.drop_last() =~= m.clusters.take(i as int));
                assert(next.last() == cluster@);
                assert(body@ =~= header_bytes(m) + clusters_bytes(next));
            }
            i += 1;
        }
        assert(m.clusters.take(i as int) =~= m.clusters);
        let sum: u32 = crc32(body.as_slice());
        write_bytes(writer, PERSIST_MAGIC.as_slice());
        write_u32(writer, PERSIST_VERSION);
        write_bytes(writer, body.as_slice());
        write_u32(writer, sum);
        assert(writer@ =~= old(writer)@ + index_bytes(m));
        Ok(())
    }
}

/// The length of an extended code.
pub open spec fn ex_code_len(padded_dim: int, ex_bits: int) -> int {
    if ex_bits > 0 {
        padded_dim * ex_bits / 8
    } else {
        0
    }
}

/// The first `n` extended codes that stand at `pos`, and the position behind them.
pub open spec fn ex_codes_at(b: Seq<u8>, pos: int, n: int, len: int) -> Result<
    (Seq<Seq<u8>>, int),
    RabitqError,
>
    decreases n,
{
    if n <= 0 {
        Ok((Seq::empty(), pos))
    } else {
        match ex_codes_at(b, pos, n - 1, len) {
            Err(e) => Err(e),
            Ok((codes, p)) => if p + 8 > b.len() {
                Err(eof())
            } else if u64_at(b, p) > usize::MAX {
                broken("value exceeds platform limits")
            } else if u64_at(b, p) != len {
                broken(
                    "ex_code_packed length mismatch - possible corruption or version incompatibility",
                )
            } else if p + 8 + len > b.len() {
                Err(eof())
            } else {
                Ok((codes.push(b.subrange(p + 8, p + 8 + len)), p + 8 + len))
            },
        }
    }
}

/// The cluster that stands at `pos`, and the position behind it.
pub open spec fn cluster_at(b: Seq<u8>, pos: int, padded_dim: usize, ex_bits: usize) -> Result<
    (ClusterModel, int),
    RabitqError,
> {
    let p_count = pos + 4 * padded_dim;
    let p_ids = p_count + 8;
    let count = u64_at(b, p_count);
    let p_len = p_ids + 8 * count;
    let p_data = p_len + 8;
    let data_len = u64_at(b, p_len);
    let p_codes = p_data + data_len;
    if p_ids > b.len() {
        Err(eof())
    } else if count > usize::MAX {
        broken("value exceeds platform limits")
    } else if count > MAX_CLUSTER_SIZE {
        broken("cluster size exceeds reasonable limits - possible corruption")
    } else if p_data > b.len() {
        Err(eof())
    } else if data_len > usize::MAX {
        broken("value exceeds platform limits")
    } else if data_len != batches(count as int) * stride(padded_dim as int) {
        broken("batch_data length mismatch - possible corruption or version incompatibility")
    } else if p_codes > b.len() {
        Err(eof())
    } else {
        match ex_codes_at(
            b,
            p_codes,
            count as int,
            ex_code_len(padded_dim as int, ex_bits as int),
        ) {
            Err(e) => Err(e),
            Ok((codes, p)) => if p + 16 * count > b.len() {
                Err(eof())
            } else {
                Ok(
                    (
                        ClusterModel {
                            centroid: u32s_at(b, pos, padded_dim as int),
                            ids: u64s_at(b, p_ids, count as int),
                            batch_data: b.subrange(p_data, p_codes),
                            ex_codes: codes,
                            f_add_ex: u32s_at(b, p, count as int),
                            f_rescale_ex: u32s_at(b, p + 4 * count, count as int),
                            delta: u32s_at(b, p + 8 * count, count as int),
                            vl: u32s_at(b, p + 12 * count, count as int),
                            num_vectors: count as usize,
                            padded_dim,
                            ex_bits,
                            pending_ids: Seq::empty(),
                            pending: Seq::empty(),
                        },
                        p + 16 * count,
                    ),
                )
            },
        }
    }
}

/// The first `n` clusters that stand at `pos`, and the position behind them.
pub open spec fn clusters_at(
    b: Seq<u8>,
    pos: int,
    n: int,
    padded_dim: usize,
    ex_bits: usize,
) -> Result<(Seq<ClusterModel>, int), RabitqError>
    decreases n,
{
    if n <= 0 {
        Ok((Seq::empty(), pos))
    } else {
        match clusters_at(b, pos, n - 1, padded_dim, ex_bits) {
            Err(e) => Err(e),
            Ok((clusters, p)) => match cluster_at(b, p, padded_dim, ex_bits) {
                Err(e) => Err(e),
                Ok((c, q)) => Ok((clusters.push(c), q)),
            },
        }
    }
}

/// The header of an index file.
#[verifier::ext_equal]
pub struct HeaderModel {
    pub dim: usize,
    pub padded_dim: usize,
    pub metric: Metric,
    pub rotator_type: RotatorType,
    pub ex_bits: usize,
    pub vector_count: usize,
    pub cluster_count: usize,
    pub rotator_data: Seq<u8>,
}

/// The header that an index file opens with.
pub open spec fn header_at(b: Seq<u8>) -> Result<HeaderModel, RabitqError> {
    if b.len() < 4 {
        Err(eof())
    } else if b.subrange(0, 4) != PERSIST_MAGIC@ {
        broken("unrecognized file header")
    } else if b.len() < 8 {
        Err(eof())
    } else if u32_at(b, 4) != PERSIST_VERSION {
        broken("unsupported index format version (expected V3 with unified memory layout)")
    } else if b.len() < 12 {
        Err(eof())
    } else if u32_at(b, 8) == 0 {
        broken("dimension must be positive")
    } else if b.len() < 16 {
        Err(eof())
    } else if u32_at(b, 12) < u32_at(b, 8) {
        broken("padded_dim must be >= dim")
    } else if b.len() < 17 {
        Err(eof())
    } else if metric_of_tag(b[16]) is None {
        broken("unknown metric tag")
    } else if b.len() < 18 {
        Err(eof())
    } else if rotator_of_tag(b[17]) is None {
        broken("unknown rotator type tag")
    } else if b.len() < 19 {
        Err(eof())
    } else if b[18] > 16 {
        broken("ex_bits out of range")
    } else if b.len() < 20 {
        Err(eof())
    } else if b[19] == 0 || b[19] > 16 {
        broken("total_bits out of range")
    } else if b[19] - 1 != b[18] {
        broken("total_bits does not match ex_bits")
    } else if b.len() < 28 {
        Err(eof())
    } else if u64_at(b, 20) > usize::MAX {
        broken("value exceeds platform limits")
    } else if b.len() < 36 {
        Err(eof())
    } else if u64_at(b, 28) > usize::MAX {
        broken("value exceeds platform limits")
    } else if b.len() < 44 {
        Err(eof())
    } else if u64_at(b, 36) > usize::MAX {
        broken("value exceeds platform limits")
    } else if b.len() < 44 + u64_at(b, 36) {
        Err(eof())
    } else {
        Ok(
            HeaderModel {
                dim: u32_at(b, 8) as usize,
                padded_dim: u32_at(b, 12) as usize,
                metric: metric_of_tag(b[16])->0,
                rotator_type: rotator_of_tag(b[17])->0,
                ex_bits: b[18] as usize,
                vector_count: u64_at(b, 20) as usize,
                cluster_count: u64_at(b, 28) as usize,
                rotator_data: b.subrange(44, 44 + u64_at(b, 36)),
            },
        )
    }
}

/// The index that a file holds, or why it holds none.
pub open spec fn index_of_bytes(b: Seq<u8>) -> Result<IndexModel, RabitqError> {
    match header_at(b) {
        Err(e) => Err(e),
        Ok(h) => match clusters_at(
            b,
            44 + h.rotator_data.len() as int,
            h.cluster_count as int,
            h.padded_dim,
            h.ex_bits,
        ) {
            Err(e) => Err(e),
            Ok((clusters, p)) => if vector_total(clusters) != h.vector_count {
                broken("vector count metadata mismatch")
            } else if p + 4 > b.len() {
                Err(eof())
            } else if u32_at(b, p) != crc32_of(b.subrange(8, p)) {
                broken("checksum mismatch")
            } else {
                Ok(
                    IndexModel {
                        dim: h.dim,
                        padded_dim: h.padded_dim,
                        metric: h.metric,
                        rotator_type: h.rotator_type,
                        rotator_data: h.rotator_data,
                        clusters,
                        ex_bits: h.ex_bits,
                    },
                )
            },
        },
    }
}

/// How a reader that stops at `after` and returns `result` follows a description `want` of what
/// stands in the data.
pub open spec fn follows<A, M>(
    result: Result<A, RabitqError>,
    view: spec_fn(A) -> M,
    after: int,
    want: Result<(M, int), RabitqError>,
) -> bool {
    match want {
        Err(e) => result == Err::<A, RabitqError>(e),
        Ok((m, p)) => result is Ok && view(result->Ok_0) == m && after == p,
    }
}

proof fn lemma_ex_codes_error(b: Seq<u8>, pos: int, few: int, many: int, len: int)
    requires
        0 <= few <= many,
        ex_codes_at(b, pos, few, len) is Err,
    ensures
        ex_codes_at(b, pos, many, len) == ex_codes_at(b, pos, few, len),
    decreases many,
{
    if few < many {
        lemma_ex_codes_error(b, pos, few, many - 1, len);
    }
}

fn read_ex_codes(data: &[u8], pos: &mut usize, n: usize, len: u64) -> (result: Result<
    Vec<Vec<u8>>,
    RabitqError,
>)
    requires
        *old(pos) <= data@.len(),
    ensures
        follows(
            result,
            |codes: Vec<Vec<u8>>| nested(codes@),
            *final(pos) as int,
            ex_codes_at(data@, *old(pos) as int, n as int, len as int),
        ),
        *old(pos) <= *final(pos) <= data@.len(),
{
    let ghost start = *pos as int;
    let mut codes: Vec<Vec<u8>> = Vec::new();
    let mut i: usize = 0;
    assert(nested(codes@) =~= Seq::empty());
    while i < n
        invariant
            i <= n,
            start <= *pos <= data@.len(),
            ex_codes_at(data@, start, i as int, len as int) == Ok::<
                (Seq<Seq<u8>>, int),
                RabitqError,
            >((nested(codes@), *pos as int)),
            start == *old(pos),
        decreases n - i,
    {
        let ghost step = ex_codes_at(data@, start, i + 1, len as int);
        proof {
            if step is Err {
                lemma_ex_codes_error(data@, start, i + 1, n as int, len as int);
            }
        }
        let raw: u64 = read_u64(data, pos)?;
        let found: usize = usize_from_u64(raw)?;
        if found as u64 != len {
            return Err(
                RabitqError::InvalidPersistence(
                    "ex_code_packed length mismatch - possible corruption or version incompatibility",
                ),
            );
        }
        let code: Vec<u8> = read_bytes(data, pos, found)?;
        proof {
            lemma_nested_push(codes@, code);
        }
        codes.push(code);
        i += 1;
    }
    Ok(codes)
}

fn read_cluster(data: &[u8], pos: &mut usize, padded_dim: usize, ex_bits: usize) -> (result: Result<
    ClusterData,
    RabitqError,
>)
    requires
        *old(pos) <= data@.len(),
        padded_dim <= u32::MAX,
        ex_bits <= 16,
    ensures
        follows(
            result,
            |c: ClusterData| c@,
            *final(pos) as int,
            cluster_at(data@, *old(pos) as int, padded_dim, ex_bits),
        ),
        *final(pos) <= data@.len(),
        result matches Ok(c) ==> *final(pos) >= *old(pos) + 8 * c@.num_vectors && c@.total()
            == c@.num_vectors,
{
    let centroid: Vec<u32> = read_f32s(data, pos, padded_dim)?;
    let raw_count: u64 = read_u64(data, pos)?;
    let num_vectors: usize = usize_from_u64(raw_count)?;
    if num_vectors > MAX_CLUSTER_SIZE {
        return Err(
            RabitqError::InvalidPersistence(
                "cluster size exceeds reasonable limits - possible corruption",
            ),
        );
    }
    let ids: Vec<u64> = read_u64s(data, pos, num_vectors)?;
    let raw_len: u64 = read_u64(data, pos)?;
    let batch_data_len: usize = usize_from_u64(raw_len)?;
    let total_batches: u64 = (num_vectors as u64 + 31) / 32;
    let batch_bytes: u64 = 4 * padded_dim as u64 + 384;
    proof {
        assert(total_batches * batch_bytes <= 31250 * 17179869568) by (nonlinear_arith)
            requires
                0 <= total_batches <= 31250,
                0 <= batch_bytes <= 17179869568,
        ;
    }
    if batch_data_len as u64 != total_batches * batch_bytes {
        return Err(
            RabitqError::InvalidPersistence(
                "batch_data length mismatch - possible corruption or version incompatibility",
            ),
        );
    }
    let batch_data: Vec<u8> = read_bytes(data, pos, batch_data_len)?;
    proof {
        assert(0 <= padded_dim * ex_bits <= 4294967295 * 16) by (nonlinear_arith)
            requires
                0 <= padded_dim <= 4294967295,
                0 <= ex_bits <= 16,
        ;
    }
    let code_len: u64 = if ex_bits > 0 { padded_dim as u64 * ex_bits as u64 / 8 } else { 0 };
    let ex_codes_packed: Vec<Vec<u8>> = read_ex_codes(data, pos, num_vectors, code_len)?;
    let f_add_ex: Vec<u32> = read_f32s(data, pos, num_vectors)?;
    let f_rescale_ex: Vec<u32> = read_f32s(data, pos, num_vectors)?;
    let delta: Vec<u32> = read_f32s(data, pos, num_vectors)?;
    let vl: Vec<u32> = read_f32s(data, pos, num_vectors)?;
    let c = ClusterData {
        centroid,
        ids,
        batch_data,
        ex_codes_packed,
        f_add_ex,
        f_rescale_ex,
        delta,
        vl,
        num_vectors,
        padded_dim,
        ex_bits,
        pending_ids: Vec::new(),
        pending_vectors: Vec::new(),
    };
    assert(c@.pending =~= Seq::empty());
    Ok(c)
}

/// The header of an index file as it is read.
struct Header {
    dim: usize,
    padded_dim: usize,
    metric: Metric,
    rotator_type: RotatorType,
    ex_bits: usize,
    vector_count: usize,
    cluster_count: usize,
    rotator_data: Vec<u8>,
}

impl Header {
    spec fn model(self) -> HeaderModel {
        HeaderModel {
            dim: self.dim,
            padded_dim: self.padded_dim,
            metric: self.metric,
            rotator_type: self.rotator_type,
            ex_bits: self.ex_bits,
            vector_count: self.vector_count,
            cluster_count: self.cluster_count,
            rotator_data: self.rotator_data@,
        }
    }
}

/// Whether the first four bytes are the magic of an index file.
fn is_index_magic(magic: &[u8]) -> (r: bool)
    requires
        magic@.len() == 4,
    ensures
        r == (magic@ == PERSIST_MAGIC@),
{
    let r: bool = magic[0] == PERSIST_MAGIC[0] && magic[1] == PERSIST_MAGIC[1] && magic[2]
        == PERSIST_MAGIC[2] && magic[3] == PERSIST_MAGIC[3];
    proof {
        if r {
            assert(magic@ =~= PERSIST_MAGIC@);
        }
    }
    r
}

fn read_header(data: &[u8], pos: &mut usize) -> (result: Result<Header, RabitqError>)
    requires
        *old(pos) == 0,
    ensures
        match header_at(data@) {
            Err(e) => result == Err::<Header, RabitqError>(e),
            Ok(h) => result is Ok && result->Ok_0.model() == h && *final(pos) == 44
                + h.rotator_data.len() && h.padded_dim <= u32::MAX && h.ex_bits <= 16,
        },
        *final(pos) <= data@.len(),
{
    let magic: Vec<u8> = read_bytes(data, pos, 4)?;
    if !is_index_magic(magic.as_slice()) {
        return Err(RabitqError::InvalidPersistence("unrecognized file header"));
    }
    let version: u32 = read_u32(data, pos)?;
    if version != PERSIST_VERSION {
        return Err(
            RabitqError::InvalidPersistence(
                "unsupported index format version (expected V3 with unified memory layout)",
            ),
        );
    }
    let dim: u32 = read_u32(data, pos)?;
    if dim == 0 {
        return Err(RabitqError::InvalidPersistence("dimension must be positive"));
    }
    let padded_dim: u32 = read_u32(data, pos)?;
    if padded_dim < dim {
        return Err(RabitqError::InvalidPersistence("padded_dim must be >= dim"));
    }
    let metric_byte: u8 = read_u8(data, pos)?;
    let metric: Metric = match tag_to_metric(metric_byte) {
        Some(metric) => metric,
        None => {
            return Err(RabitqError::InvalidPersistence("unknown metric tag"));
        },
    };
    let rotator_byte: u8 = read_u8(data, pos)?;
    let rotator_type: RotatorType = match RotatorType::from_u8(rotator_byte) {
        Some(rotator_type) => rotator_type,
        None => {
            return Err(RabitqError::InvalidPersistence("unknown rotator type tag"));
        },
    };
    let ex_bits: u8 = read_u8(data, pos)?;
    if ex_bits > 16 {
        return Err(RabitqError::InvalidPersistence("ex_bits out of range"));
    }
    let total_bits: u8 = read_u8(data, pos)?;
    if total_bits == 0 || total_bits > 16 {
        return Err(RabitqError::InvalidPersistence("total_bits out of range"));
    }
    if total_bits - 1 != ex_bits {
        return Err(RabitqError::InvalidPersistence("total_bits does not match ex_bits"));
    }
    let raw_vectors: u64 = read_u64(data, pos)?;
    let vector_count: usize = usize_from_u64(raw_vectors)?;
    let raw_clusters: u64 = read_u64(data, pos)?;
    let cluster_count: usize = usize_from_u64(raw_clusters)?;
    let raw_rotator: u64 = read_u64(data, pos)?;
    let rotator_len: usize = usize_from_u64(raw_rotator)?;
    let rotator_data: Vec<u8> = read_bytes(data, pos, rotator_len)?;
    Ok(
        Header {
            dim: dim as usize,
            padded_dim: padded_dim as usize,
            metric,
            rotator_type,
            ex_bits: ex_bits as usize,
            vector_count,
            cluster_count,
            rotator_data,
        },
    )
}

proof fn lemma_clusters_error(
    b: Seq<u8>,
    pos: int,
    few: int,
    many: int,
    padded_dim: usize,
    ex_bits: usize,
)
    requires
        0 <= few <= many,
        clusters_at(b, pos, few, padded_dim, ex_bits) is Err,
    ensures
        clusters_at(b, pos, many, padded_dim, ex_bits) == clusters_at(
            b,
            pos,
            few,
            padded_dim,
            ex_bits,
        ),
    decreases many,
{
    if few < many {
        lemma_clusters_error(b, pos, few, many - 1, padded_dim, ex_bits);
    }
}

impl IvfRabitqIndex {
    /// Reads an index out of the bytes of an index file. Bytes behind the checksum are not
    /// looked at.
    pub fn load_from_reader(reader: &[u8]) -> (result: Result<IvfRabitqIndex, RabitqError>)
        ensures
            match index_of_bytes(reader@) {
                Err(e) => result == Err::<IvfRabitqIndex, RabitqError>(e),
                Ok(m) => result is Ok && result->Ok_0@ == m,
            },
    {
        let ghost b = reader@;
        let mut pos: usize = 0;
        let header: Header = read_header(reader, &mut pos)?;
        let ghost h = header.model();
        let ghost start = pos as int;
        let mut clusters: Vec<ClusterData> = Vec::new();
        let mut count: usize = 0;
        let mut i: usize = 0;
        let total_len: usize = reader.len();
        assert(cluster_models(clusters@) =~= Seq::empty());
        while i < header.cluster_count
            invariant
                b == reader@,
                total_len == b.len(),
                h == header.model(),
                header_at(b) == Ok::<HeaderModel, RabitqError>(h),
                start == 44 + h.rotator_data.len(),
                h.padded_dim <= u32::MAX,
                h.ex_bits <= 16,
                i <= header.cluster_count,
                start <= pos <= b.len(),
                clusters_at(b, start, i as int, h.padded_dim, h.ex_bits) == Ok::<
                    (Seq<ClusterModel>, int),
                    RabitqError,
                >((cluster_models(clusters@), pos as int)),
                count == vector_total(cluster_models(clusters@)),
                8 * count <= pos,
            decreases header.cluster_count - i,
        {
            let ghost step = clusters_at(b, start, i + 1, h.padded_dim, h.ex_bits);
            proof {
                if step is Err {
                    lemma_clusters_error(
                        b,
                        start,
                        i + 1,
                        header.cluster_count as int,
                        h.padded_dim,
                        h.ex_bits,
                    );
                }
            }
            let c: ClusterData = read_cluster(reader, &mut pos, header.padded_dim, header.ex_bits)?;
            count = count + c.num_vectors;
            proof {
                let more = cluster_models(clusters@).push(c@);
                assert(cluster_models(clusters@.push(c)) =~= more);
                assert(more.drop_last() =~= cluster_models(clusters@));
            }
            clusters.push(c);
            i += 1;
        }
        if count != header.vector_count {
            return Err(RabitqError::InvalidPersistence("vector count metadata mismatch"));
        }
        let computed: u32 = crc32(vstd::slice::slice_subrange(reader, 8, pos));
        let stored: u32 = read_u32(reader, &mut pos)?;
        if computed != stored {
            return Err(RabitqError::InvalidPersistence("checksum mismatch"));
        }
        Ok(
            IvfRabitqIndex {
                dim: header.dim,
                padded_dim: header.padded_dim,
                metric: header.metric,
                rotator: Rotator {
                    rotator_type: header.rotator_type,
                    data: header.rotator_data,
                },
                clusters,
                ex_bits: header.ex_bits,
            },
        )
    }
}

/// A cluster that an index file can hold and give back: well formed, without pending vectors,
/// of a size that is taken for intact, and with extended codes of the expected length.
pub open spec fn cluster_persistable(c: ClusterModel) -> bool {
    &&& c.well_formed()
    &&& c.pending.len() == 0
    &&& c.num_vectors <= MAX_CLUSTER_SIZE
    &&& c.batch_data.len() <= usize::MAX
    &&& forall|i: int|
        0 <= i < c.ex_codes.len() ==> {
            &&& (#[trigger] c.ex_codes[i]).len() == ex_code_len(
                c.padded_dim as int,
                c.ex_bits as int,
            )
            &&& c.ex_codes[i].len() <= usize::MAX
        }
}

/// An index that an index file can hold and give back.
pub open spec fn persistable(m: IndexModel) -> bool {
    &&& m.well_formed()
    &&& header_persistable(m)
    &&& forall|i: int| 0 <= i < m.clusters.len() ==> cluster_persistable(#[trigger] m.clusters[i])
}

proof fn lemma_ex_codes_read(b: Seq<u8>, pos: int, codes: Seq<Seq<u8>>, len: int)
    requires
        stands_at(b, pos, ex_codes_bytes(codes)),
        forall|i: int|
            0 <= i < codes.len() ==> (#[trigger] codes[i]).len() == len && codes[i].len()
                <= usize::MAX,
    ensures
        ex_codes_at(b, pos, codes.len() as int, len) == Ok::<(Seq<Seq<u8>>, int), RabitqError>(
            (codes, pos + ex_codes_bytes(codes).len()),
        ),
    decreases codes.len(),
{
    if codes.len() == 0 {
        assert(codes =~= Seq::empty());
    } else {
        let init = codes.drop_last();
        let code = codes.last();
        let p = pos + ex_codes_bytes(init).len();
        lemma_stands_split(b, pos, ex_codes_bytes(init) + le64(code.len() as u64), code);
        lemma_stands_split(b, pos, ex_codes_bytes(init), le64(code.len() as u64));
        lemma_ex_codes_read(b, pos, init, len);
        lemma_read_le64(b, p, code.len() as u64);
        assert(codes[codes.len() - 1].len() == len);
        assert(b.subrange(p + 8, p + 8 + len) =~= code);
        assert(init.push(code) =~= codes);
    }
}

/// The first half of a cluster in an index file: centroid, ids and batches.
spec fn cluster_front(c: ClusterModel) -> Seq<u8> {
    le32s(c.centroid) + le64(c.num_vectors as u64) + le64s(c.ids) + le64(
        c.batch_data.len() as u64,
    ) + c.batch_data
}

#[verifier::rlimit(40)]
proof fn lemma_cluster_front_read(b: Seq<u8>, pos: int, c: ClusterModel)
    requires
        stands_at(b, pos, cluster_front(c)),
        cluster_persistable(c),
    ensures
        ({
            let n = c.num_vectors as int;
            let p_count = pos + 4 * c.padded_dim;
            let p_data = p_count + 16 + 8 * n;
            &&& cluster_front(c).len() == 4 * c.padded_dim + 16 + 8 * n + c.batch_data.len()
            &&& u32s_at(b, pos, c.padded_dim as int) == c.centroid
            &&& u64_at(b, p_count) == n
            &&& u64s_at(b, p_count + 8, n) == c.ids
            &&& u64_at(b, p_data - 8) == c.batch_data.len()
            &&& b.subrange(p_data, p_data + c.batch_data.len()) == c.batch_data
        }),
{
    let x1 = le32s(c.centroid);
    let x2 = x1 + le64(c.num_vectors as u64);
    let x3 = x2 + le64s(c.ids);
    let x4 = x3 + le64(c.batch_data.len() as u64);
    assert(x1.len() == 4 * c.padded_dim);
    lemma_stands_split(b, pos, x4, c.batch_data);
    lemma_stands_split(b, pos, x3, le64(c.batch_data.len() as u64));
    lemma_stands_split(b, pos, x2, le64s(c.ids));
    lemma_stands_split(b, pos, x1, le64(c.num_vectors as u64));
    lemma_read_le32s(b, pos, c.centroid);
    lemma_read_le64(b, pos + x1.len(), c.num_vectors as u64);
    lemma_read_le64s(b, pos + x2.len(), c.ids);
    lemma_read_le64(b, pos + x3.len(), c.batch_data.len() as u64);
}

/// The last part of a cluster in an index file: the parameters of each vector.
spec fn cluster_params(c: ClusterModel) -> Seq<u8> {
    le32s(c.f_add_ex) + le32s(c.f_rescale_ex) + le32s(c.delta) + le32s(c.vl)
}

proof fn lemma_cluster_params_read(b: Seq<u8>, p: int, c: ClusterModel)
    requires
        stands_at(b, p, cluster_params(c)),
        c.well_formed(),
    ensures
        ({
            let n = c.num_vectors as int;
            &&& cluster_params(c).len() == 16 * n
            &&& u32s_at(b, p, n) == c.f_add_ex
            &&& u32s_at(b, p + 4 * n, n) == c.f_rescale_ex
            &&& u32s_at(b, p + 8 * n, n) == c.delta
            &&& u32s_at(b, p + 12 * n, n) == c.vl
        }),
{
    let x1 = le32s(c.f_add_ex);
    let x2 = x1 + le32s(c.f_rescale_ex);
    let x3 = x2 + le32s(c.delta);
    lemma_stands_split(b, p, x3, le32s(c.vl));
    lemma_stands_split(b, p, x2, le32s(c.delta));
    lemma_stands_split(b, p, x1, le32s(c.f_rescale_ex));
    lemma_read_le32s(b, p, c.f_add_ex);
    lemma_read_le32s(b, p + x1.len(), c.f_rescale_ex);
    lemma_read_le32s(b, p + x2.len(), c.delta);
    lemma_read_le32s(b, p + x3.len(), c.vl);
}

proof fn lemma_cluster_parts(b: Seq<u8>, pos: int, c: ClusterModel)
    requires
        stands_at(b, pos, cluster_bytes(c)),
    ensures
        stands_at(b, pos, cluster_front(c)),
        stands_at(b, pos + cluster_front(c).len(), ex_codes_bytes(c.ex_codes)),
        stands_at(
            b,
            pos + cluster_front(c).len() + ex_codes_bytes(c.ex_codes).len(),
            cluster_params(c),
        ),
        cluster_bytes(c).len() == cluster_front(c).len() + ex_codes_bytes(c.ex_codes).len()
            + cluster_params(c).len(),
{
    let front = cluster_front(c);
    let codes = ex_codes_bytes(c.ex_codes);
    let params = cluster_params(c);
    assert(cluster_bytes(c) =~= (front + codes) + params);
    lemma_stands_split(b, pos, front + codes, params);
    lemma_stands_split(b, pos, front, codes);
}

#[verifier::rlimit(40)]
proof fn lemma_cluster_read(b: Seq<u8>, pos: int, c: ClusterModel)
    requires
        stands_at(b, pos, cluster_bytes(c)),
        cluster_persistable(c),
    ensures
        cluster_at(b, pos, c.padded_dim, c.ex_bits) == Ok::<(ClusterModel, int), RabitqError>(
            (c, pos + cluster_bytes(c).len()),
        ),
{
    lemma_cluster_parts(b, pos, c);
    lemma_cluster_front_read(b, pos, c);
    let p_codes = pos + cluster_front(c).len();
    lemma_ex_codes_read(
        b,
        p_codes,
        c.ex_codes,
        ex_code_len(c.padded_dim as int, c.ex_bits as int),
    );
    lemma_cluster_params_read(b, p_codes + ex_codes_bytes(c.ex_codes).len(), c);
    assert(c.pending_ids =~= Seq::empty());
    assert(c.pending =~= Seq::empty());
}

proof fn lemma_clusters_read(
    b: Seq<u8>,
    pos: int,
    clusters: Seq<ClusterModel>,
    padded_dim: usize,
    ex_bits: usize,
)
    requires
        stands_at(b, pos, clusters_bytes(clusters)),
        forall|i: int|
            0 <= i < clusters.len() ==> {
                &&& cluster_persistable(#[trigger] clusters[i])
                &&& clusters[i].padded_dim == padded_dim
                &&& clusters[i].ex_bits == ex_bits
            },
    ensures
        clusters_at(b, pos, clusters.len() as int, padded_dim, ex_bits) == Ok::<
            (Seq<ClusterModel>, int),
            RabitqError,
        >((clusters, pos + clusters_bytes(clusters).len())),
    decreases clusters.len(),
{
    if clusters.len() == 0 {
        assert(clusters =~= Seq::empty());
    } else {
        let init = clusters.drop_last();
        let c = clusters.last();
        assert(c == clusters[clusters.len() - 1]);
        lemma_stands_split(b, pos, clusters_bytes(init), cluster_bytes(c));
        lemma_clusters_read(b, pos, init, padded_dim, ex_bits);
        lemma_cluster_read(b, pos + clusters_bytes(init).len(), c);
        assert(init.push(c) =~= clusters);
    }
}

/// A header that an index file can hold and give back.
pub open spec fn header_persistable(m: IndexModel) -> bool {
    &&& vector_total(m.clusters) <= usize::MAX
    &&& 0 < m.dim <= m.padded_dim <= u32::MAX
    &&& m.ex_bits <= 15
    &&& m.clusters.len() <= usize::MAX
    &&& m.rotator_data.len() <= usize::MAX
}

#[verifier::rlimit(40)]
proof fn lemma_header_read(b: Seq<u8>, m: IndexModel)
    requires
        header_persistable(m),
        stands_at(b, 0, PERSIST_MAGIC@ + le32(PERSIST_VERSION) + header_bytes(m)),
    ensures
        header_at(b) == Ok::<HeaderModel, RabitqError>(
            HeaderModel {
                dim: m.dim,
                padded_dim: m.padded_dim,
                metric: m.metric,
                rotator_type: m.rotator_type,
                ex_bits: m.ex_bits,
                vector_count: vector_total(m.clusters) as usize,
                cluster_count: m.clusters.len() as usize,
                rotator_data: m.rotator_data,
            },
        ),
        header_bytes(m).len() == 36 + m.rotator_data.len(),
{
    let tags = seq![
        metric_tag(m.metric),
        rotator_tag(m.rotator_type),
        m.ex_bits as u8,
        (m.ex_bits + 1) as u8,
    ];
    let total = vector_total(m.clusters) as u64;
    let x1 = le32(m.dim as u32);
    let x2 = x1 + le32(m.padded_dim as u32);
    let x3 = x2 + tags;
    let x4 = x3 + le64(total);
    let x5 = x4 + le64(m.clusters.len() as u64);
    let x6 = x5 + le64(m.rotator_data.len() as u64);
    lemma_total_is_nat(m.clusters);
    assert(PERSIST_MAGIC@.len() == 4);
    lemma_stands_split(b, 0, PERSIST_MAGIC@ + le32(PERSIST_VERSION), header_bytes(m));
    lemma_stands_split(b, 0, PERSIST_MAGIC@, le32(PERSIST_VERSION));
    lemma_read_le32(b, 4, PERSIST_VERSION);
    lemma_stands_split(b, 8, x6, m.rotator_data);
    lemma_stands_split(b, 8, x5, le64(m.rotator_data.len() as u64));
    lemma_stands_split(b, 8, x4, le64(m.clusters.len() as u64));
    lemma_stands_split(b, 8, x3, le64(total));
    lemma_stands_split(b, 8, x2, tags);
    lemma_stands_split(b, 8, x1, le32(m.padded_dim as u32));
    lemma_read_le32(b, 8, m.dim as u32);
    lemma_read_le32(b, 12, m.padded_dim as u32);
    assert forall|i: int| 0 <= i < 4 implies b[16 + i] == tags[i] by {
        assert(b.subrange(16, 20)[i] == b[16 + i]);
    }
    lemma_read_le64(b, 20, total);
    lemma_read_le64(b, 28, m.clusters.len() as u64);
    lemma_read_le64(b, 36, m.rotator_data.len() as u64);
    assert(b[16] == tags[0] && b[17] == tags[1] && b[18] == tags[2] && b[19] == tags[3]) by {
        assert(b[16int + 0] == tags[0]);
        assert(b[16int + 1] == tags[1]);
        assert(b[16int + 2] == tags[2]);
        assert(b[16int + 3] == tags[3]);
    }
}

proof fn lemma_total_is_nat(clusters: Seq<ClusterModel>)
    ensures
        0 <= vector_total(clusters),
    decreases clusters.len(),
{
    if clusters.len() > 0 {
        lemma_total_is_nat(clusters.drop_last());
    }
}

/// Whether clusters can stand in the file of an index.
spec fn clusters_persistable(
    clusters: Seq<ClusterModel>,
    padded_dim: usize,
    ex_bits: usize,
) -> bool {
    forall|i: int|
        0 <= i < clusters.len() ==> {
            &&& cluster_persistable(#[trigger] clusters[i])
            &&& clusters[i].padded_dim == padded_dim
            &&& clusters[i].ex_bits == ex_bits
        }
}

#[verifier::rlimit(40)]
proof fn lemma_parts_read(
    b: Seq<u8>,
    m: IndexModel,
    clusters: Seq<ClusterModel>,
    header: Seq<u8>,
    tail: Seq<u8>,
    sum: u32,
)
    requires
        header_persistable(m),
        clusters_persistable(clusters, m.padded_dim, m.ex_bits),
        header == header_bytes(m),
        tail == clusters_bytes(clusters),
        stands_at(b, 0, PERSIST_MAGIC@ + le32(PERSIST_VERSION) + (header + tail) + le32(sum)),
    ensures
        header_at(b) == Ok::<HeaderModel, RabitqError>(
            HeaderModel {
                dim: m.dim,
                padded_dim: m.padded_dim,
                metric: m.metric,
                rotator_type: m.rotator_type,
                ex_bits: m.ex_bits,
                vector_count: vector_total(m.clusters) as usize,
                cluster_count: m.clusters.len() as usize,
                rotator_data: m.rotator_data,
            },
        ),
        clusters_at(
            b,
            44 + m.rotator_data.len() as int,
            clusters.len() as int,
            m.padded_dim,
            m.ex_bits,
        ) == Ok::<(Seq<ClusterModel>, int), RabitqError>(
            (clusters, 44 + m.rotator_data.len() as int + tail.len()),
        ),
        44 + m.rotator_data.len() + tail.len() + 4 <= b.len(),
        u32_at(b, 44 + m.rotator_data.len() as int + tail.len()) == sum,
        b.subrange(8, 44 + m.rotator_data.len() as int + tail.len()) == header + tail,
{
    let front = PERSIST_MAGIC@ + le32(PERSIST_VERSION);
    assert(front.len() == 8);
    lemma_file_parts(b, front, header, tail, le32(sum));
    lemma_header_read(b, m);
    lemma_clusters_read(b, 8 + header.len() as int, clusters, m.padded_dim, m.ex_bits);
    lemma_read_le32(b, 8 + header.len() as int + tail.len(), sum);
}

#[verifier::rlimit(40)]
proof fn lemma_index_read(b: Seq<u8>, m: IndexModel)
    requires
        persistable(m),
        stands_at(b, 0, index_bytes(m)),
    ensures
        index_of_bytes(b) == Ok::<IndexModel, RabitqError>(m),
{
    let header = header_bytes(m);
    let tail = clusters_bytes(m.clusters);
    lemma_total_is_nat(m.clusters);
    lemma_parts_read(b, m, m.clusters, header, tail, crc32_of(header + tail));
}

/// What is saved is loaded: the bytes of a persistable index, whatever follows them, read back
/// as that index.
pub proof fn law_load_of_save(m: IndexModel, rest: Seq<u8>)
    requires
        persistable(m),
    ensures
        save_fault(m) is None,
        index_of_bytes(index_bytes(m) + rest) == Ok::<IndexModel, RabitqError>(m),
{
    lemma_no_cluster_fault(m, 0);
    lemma_prefix_stands(index_bytes(m), rest);
    lemma_index_read(index_bytes(m) + rest, m);
}

proof fn lemma_no_cluster_fault(m: IndexModel, from: int)
    requires
        persistable(m),
        0 <= from,
    ensures
        cluster_fault(m.clusters, m.padded_dim, from) is None,
    decreases m.clusters.len() - from,
{
    if from < m.clusters.len() {
        assert(cluster_persistable(m.clusters[from]));
        lemma_no_cluster_fault(m, from + 1);
    }
}

proof fn lemma_ex_codes_lengths(b: Seq<u8>, pos: int, n: int, len: int)
    requires
        0 <= n,
        0 <= len,
        0 <= pos,
        ex_codes_at(b, pos, n, len) is Ok,
    ensures
        ex_codes_at(b, pos, n, len)->Ok_0.0.len() == n,
        forall|i: int|
            0 <= i < n ==> (#[trigger] ex_codes_at(b, pos, n, len)->Ok_0.0[i]).len() == len && len
                <= usize::MAX,
        pos <= ex_codes_at(b, pos, n, len)->Ok_0.1,
        n > 0 ==> ex_codes_at(b, pos, n, len)->Ok_0.1 <= b.len(),
    decreases n,
{
    if n > 0 {
        lemma_ex_codes_lengths(b, pos, n - 1, len);
    }
}

proof fn lemma_clusters_persistable(b: Seq<u8>, pos: int, n: int, padded_dim: usize, ex_bits: usize)
    requires
        0 <= n,
        0 <= pos,
        clusters_at(b, pos, n, padded_dim, ex_bits) is Ok,
    ensures
        clusters_at(b, pos, n, padded_dim, ex_bits)->Ok_0.0.len() == n,
        pos <= clusters_at(b, pos, n, padded_dim, ex_bits)->Ok_0.1,
        forall|i: int|
            0 <= i < n ==> {
                let c = #[trigger] clusters_at(b, pos, n, padded_dim, ex_bits)->Ok_0.0[i];
                cluster_persistable(c) && c.padded_dim == padded_dim && c.ex_bits == ex_bits
            },
    decreases n,
{
    if n > 0 {
        lemma_clusters_persistable(b, pos, n - 1, padded_dim, ex_bits);
        let p = clusters_at(b, pos, n - 1, padded_dim, ex_bits)->Ok_0.1;
        let count = u64_at(b, p + 4 * padded_dim);
        let p_data = p + 4 * padded_dim + 16 + 8 * count;
        let len = ex_code_len(padded_dim as int, ex_bits as int);
        assert(0 <= padded_dim * ex_bits) by (nonlinear_arith);
        lemma_ex_codes_lengths(
            b,
            p_data + u64_at(b, p_data - 8),
            count as int,
            len,
        );
    }
}

/// What is loaded can be saved and loaded again: every index that an index file gives is
/// persistable, hence well formed and without pending vectors.
pub proof fn law_loaded_is_persistable(b: Seq<u8>)
    ensures
        index_of_bytes(b) matches Ok(m) ==> persistable(m),
{
    if let Ok(m) = index_of_bytes(b) {
        let h = header_at(b)->Ok_0;
        lemma_clusters_persistable(
            b,
            44 + h.rotator_data.len() as int,
            h.cluster_count as int,
            h.padded_dim,
            h.ex_bits,
        );
        assert forall|i: int| 0 <= i < m.clusters.len() implies cluster_persistable(
            #[trigger] m.clusters[i],
        ) && m.clusters[i].padded_dim == m.padded_dim && m.clusters[i].ex_bits == m.ex_bits by {}
    }
}

// ----------------------------------------------------------------------------
// Pending vectors
// ----------------------------------------------------------------------------

/// A cluster without its pending vectors.
pub open spec fn packed_part(c: ClusterModel) -> ClusterModel {
    ClusterModel { pending_ids: Seq::empty(), pending: Seq::empty(), ..c }
}

/// An index without its pending vectors.
pub open spec fn packed_index(m: IndexModel) -> IndexModel {
    IndexModel { clusters: m.clusters.map_values(|c: ClusterModel| packed_part(c)), ..m }
}

proof fn lemma_packed_parts(clusters: Seq<ClusterModel>)
    ensures
        clusters_bytes(clusters.map_values(|c: ClusterModel| packed_part(c))) == clusters_bytes(
            clusters,
        ),
        vector_total(clusters.map_values(|c: ClusterModel| packed_part(c))) <= vector_total(
            clusters,
        ),
        (exists|i: int| 0 <= i < clusters.len() && (#[trigger] clusters[i]).pending_ids.len() > 0)
            ==> vector_total(clusters.map_values(|c: ClusterModel| packed_part(c)))
            < vector_total(clusters),
    decreases clusters.len(),
{
    let parts = clusters.map_values(|c: ClusterModel| packed_part(c));
    if clusters.len() > 0 {
        let init = clusters.drop_last();
        lemma_packed_parts(init);
        assert(parts.drop_last() =~= init.map_values(|c: ClusterModel| packed_part(c)));
        assert(parts.last() == packed_part(clusters.last()));
        if exists|i: int|
            0 <= i < clusters.len() && (#[trigger] clusters[i]).pending_ids.len() > 0 {
            let i = choose|i: int|
                0 <= i < clusters.len() && (#[trigger] clusters[i]).pending_ids.len() > 0;
            if i < clusters.len() - 1 {
                assert(init[i].pending_ids.len() > 0);
            }
        }
    }
}

/// Pending vectors are not lost in silence: an index file that was saved while a vector was
/// pending is refused when it is loaded.
#[verifier::rlimit(40)]
pub proof fn law_unflushed_save_is_refused(m: IndexModel, rest: Seq<u8>, i: int)
    requires
        m.well_formed(),
        persistable(packed_index(m)),
        0 <= i < m.clusters.len(),
        m.clusters[i].pending_ids.len() > 0,
    ensures
        index_of_bytes(index_bytes(m) + rest) == broken::<IndexModel>(
            "vector count metadata mismatch",
        ),
{
    let header = header_bytes(m);
    let tail = clusters_bytes(m.clusters);
    let parts = packed_index(m).clusters;
    lemma_packed_parts(m.clusters);
    lemma_total_is_nat(m.clusters);
    lemma_prefix_stands(index_bytes(m), rest);
    assert forall|j: int| 0 <= j < parts.len() implies {
        &&& cluster_persistable(#[trigger] parts[j])
        &&& parts[j].padded_dim == m.padded_dim
        &&& parts[j].ex_bits == m.ex_bits
    } by {
        assert(m.clusters[j].well_formed());
    }
    lemma_parts_read(
        index_bytes(m) + rest,
        m,
        parts,
        header,
        tail,
        crc32_of(header + tail),
    );
}

} // verus!
