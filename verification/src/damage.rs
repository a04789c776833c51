//! What a changed byte of a file comes to.
//!
//! Every file closes with a checksum of what it holds. Where a file can be loaded and one byte of
//! its data is changed, it is refused for its checksum. Data are the bytes that do not decide
//! where the others stand: lengths and counts are judged before the checksum is.
use crate::bytes::{u32_at, u64_at};
use crate::checksum::{crc32_of, law_checksum_tells_one_byte};
use crate::cluster::ClusterModel;
use crate::error::RabitqError;
use crate::index::{vector_total, IndexModel};
use crate::persist::{
    broken, cluster_at, clusters_at, ex_code_len, ex_codes_at, header_at, index_of_bytes,
    HeaderModel,
};
use crate::segment::{code_list_at, segment_of_bytes, SegmentModel};
use vstd::prelude::*;

verus! {

/// Whether two sequences are alike but for one byte.
pub open spec fn differ_at(b: Seq<u8>, c: Seq<u8>, i: int) -> bool {
    &&& b.len() == c.len()
    &&& 0 <= i < b.len()
    &&& b[i] != c[i]
    &&& forall|k: int| 0 <= k < b.len() && k != i ==> #[trigger] b[k] == c[k]
}

proof fn lemma_same_u32(b: Seq<u8>, c: Seq<u8>, i: int, pos: int)
    requires
        differ_at(b, c, i),
        0 <= pos,
        pos + 4 <= b.len(),
        i < pos || pos + 4 <= i,
    ensures
        u32_at(b, pos) == u32_at(c, pos),
{
    assert(b[pos] == c[pos] && b[pos + 1] == c[pos + 1] && b[pos + 2] == c[pos + 2] && b[pos + 3]
        == c[pos + 3]);
}

proof fn lemma_same_u64(b: Seq<u8>, c: Seq<u8>, i: int, pos: int)
    requires
        differ_at(b, c, i),
        0 <= pos,
        pos + 8 <= b.len(),
        i < pos || pos + 8 <= i,
    ensures
        u64_at(b, pos) == u64_at(c, pos),
{
    lemma_same_u32(b, c, i, pos);
    lemma_same_u32(b, c, i, pos + 4);
}

proof fn lemma_other_u32(b: Seq<u8>, c: Seq<u8>, i: int, pos: int)
    requires
        differ_at(b, c, i),
        0 <= pos,
        pos + 4 <= b.len(),
        pos <= i < pos + 4,
    ensures
        u32_at(b, pos) != u32_at(c, pos),
{
    let j = i - pos;
    assert(j != 0 ==> b[pos] == c[pos]);
    assert(j != 1 ==> b[pos + 1] == c[pos + 1]);
    assert(j != 2 ==> b[pos + 2] == c[pos + 2]);
    assert(j != 3 ==> b[pos + 3] == c[pos + 3]);
}

/// The checksum that stands at `end` does not fit a part that begins at `from` once a byte of
/// either is changed.
proof fn lemma_sum_fails(b: Seq<u8>, c: Seq<u8>, i: int, from: int, end: int)
    requires
        differ_at(b, c, i),
        0 <= from <= i < end + 4,
        from <= end,
        end + 4 <= b.len(),
        u32_at(b, end) == crc32_of(b.subrange(from, end)),
    ensures
        u32_at(c, end) != crc32_of(c.subrange(from, end)),
{
    if i < end {
        let part = b.subrange(from, end);
        assert(part[i - from] == b[i]);
        assert(c.subrange(from, end) =~= part.update(i - from, c[i]));
        law_checksum_tells_one_byte(part, i - from, c[i]);
        lemma_same_u32(b, c, i, end);
    } else {
        assert(c.subrange(from, end) =~= b.subrange(from, end));
        lemma_other_u32(b, c, i, end);
    }
}

// ----------------------------------------------------------------------------
// The index file
// ----------------------------------------------------------------------------

/// Whether the byte at `i` belongs to one of the first `n` extended codes at `pos`, not to a
/// length in front of one.
pub open spec fn is_ex_code_byte(b: Seq<u8>, pos: int, n: int, len: int, i: int) -> bool
    decreases n,
{
    &&& n > 0
    &&& (is_ex_code_byte(b, pos, n - 1, len, i) || (ex_codes_at(b, pos, n - 1, len) matches Ok(
        (_, p),
    ) && p + 8 <= i < p + 8 + len))
}

proof fn lemma_ex_code_byte_inside(b: Seq<u8>, pos: int, n: int, len: int, i: int)
    requires
        ex_codes_at(b, pos, n, len) is Ok,
        0 <= pos <= b.len(),
        0 <= len,
    ensures
        pos <= ex_codes_at(b, pos, n, len)->Ok_0.1 <= b.len(),
        is_ex_code_byte(b, pos, n, len, i) ==> pos <= i < ex_codes_at(b, pos, n, len)->Ok_0.1,
    decreases n,
{
    if n > 0 {
        lemma_ex_code_byte_inside(b, pos, n - 1, len, i);
    }
}

proof fn lemma_same_ex_codes(b: Seq<u8>, c: Seq<u8>, i: int, pos: int, n: int, len: int)
    requires
        differ_at(b, c, i),
        0 <= pos <= b.len(),
        0 <= len,
        ex_codes_at(b, pos, n, len) is Ok,
        i < pos || ex_codes_at(b, pos, n, len)->Ok_0.1 <= i || is_ex_code_byte(b, pos, n, len, i),
    ensures
        ex_codes_at(c, pos, n, len) is Ok,
        ex_codes_at(c, pos, n, len)->Ok_0.1 == ex_codes_at(b, pos, n, len)->Ok_0.1,
    decreases n,
{
    if n > 0 {
        lemma_ex_code_byte_inside(b, pos, n - 1, len, i);
        lemma_same_ex_codes(b, c, i, pos, n - 1, len);
        lemma_same_u64(b, c, i, ex_codes_at(b, pos, n - 1, len)->Ok_0.1);
    }
}

/// Whether the byte at `i` is one of the centroid, the ids, the batches, the extended codes or the
/// parameters of the cluster that stands at `pos`.
pub open spec fn is_cluster_data(
    b: Seq<u8>,
    pos: int,
    padded_dim: usize,
    ex_bits: usize,
    i: int,
) -> bool {
    let p_count = pos + 4 * padded_dim;
    let p_ids = p_count + 8;
    let count = u64_at(b, p_count) as int;
    let p_len = p_ids + 8 * count;
    let p_data = p_len + 8;
    let p_codes = p_data + u64_at(b, p_len);
    let len = ex_code_len(padded_dim as int, ex_bits as int);
    ||| pos <= i < p_count
    ||| p_ids <= i < p_len
    ||| p_data <= i < p_codes
    ||| is_ex_code_byte(b, p_codes, count, len, i)
    ||| (ex_codes_at(b, p_codes, count, len) matches Ok((_, p)) && p <= i < p + 16 * count)
}

proof fn lemma_ex_code_len(padded_dim: usize, ex_bits: usize)
    ensures
        0 <= ex_code_len(padded_dim as int, ex_bits as int),
{
    assert(0 <= padded_dim * ex_bits) by (nonlinear_arith);
}

proof fn lemma_cluster_data_inside(
    b: Seq<u8>,
    pos: int,
    padded_dim: usize,
    ex_bits: usize,
    i: int,
)
    requires
        0 <= pos,
        cluster_at(b, pos, padded_dim, ex_bits) is Ok,
    ensures
        pos <= cluster_at(b, pos, padded_dim, ex_bits)->Ok_0.1 <= b.len(),
        is_cluster_data(b, pos, padded_dim, ex_bits, i) ==> pos <= i < cluster_at(
            b,
            pos,
            padded_dim,
            ex_bits,
        )->Ok_0.1,
{
    let p_count = pos + 4 * padded_dim;
    let count = u64_at(b, p_count) as int;
    let p_len = p_count + 8 + 8 * count;
    let p_codes = p_len + 8 + u64_at(b, p_len);
    let len = ex_code_len(padded_dim as int, ex_bits as int);
    lemma_ex_code_len(padded_dim, ex_bits);
    lemma_ex_code_byte_inside(b, p_codes, count, len, i);
}

proof fn lemma_same_cluster(
    b: Seq<u8>,
    c: Seq<u8>,
    i: int,
    pos: int,
    padded_dim: usize,
    ex_bits: usize,
)
    requires
        differ_at(b, c, i),
        0 <= pos,
        cluster_at(b, pos, padded_dim, ex_bits) is Ok,
        i < pos || cluster_at(b, pos, padded_dim, ex_bits)->Ok_0.1 <= i || is_cluster_data(
            b,
            pos,
            padded_dim,
            ex_bits,
            i,
        ),
    ensures
        cluster_at(c, pos, padded_dim, ex_bits) is Ok,
        cluster_at(c, pos, padded_dim, ex_bits)->Ok_0.1 == cluster_at(
            b,
            pos,
            padded_dim,
            ex_bits,
        )->Ok_0.1,
        cluster_at(c, pos, padded_dim, ex_bits)->Ok_0.0.total() == cluster_at(
            b,
            pos,
            padded_dim,
            ex_bits,
        )->Ok_0.0.total(),
{
    let p_count = pos + 4 * padded_dim;
    let count = u64_at(b, p_count) as int;
    let p_len = p_count + 8 + 8 * count;
    let p_codes = p_len + 8 + u64_at(b, p_len);
    let len = ex_code_len(padded_dim as int, ex_bits as int);
    lemma_ex_code_len(padded_dim, ex_bits);
    lemma_ex_code_byte_inside(b, p_codes, count, len, i);
    lemma_same_u64(b, c, i, p_count);
    lemma_same_u64(b, c, i, p_len);
    lemma_same_ex_codes(b, c, i, p_codes, count, len);
}

/// Whether the byte at `i` is one of the data of the first `n` clusters at `pos`.
pub open spec fn is_clusters_data(
    b: Seq<u8>,
    pos: int,
    n: int,
    padded_dim: usize,
    ex_bits: usize,
    i: int,
) -> bool
    decreases n,
{
    &&& n > 0
    &&& (is_clusters_data(b, pos, n - 1, padded_dim, ex_bits, i) || (clusters_at(
        b,
        pos,
        n - 1,
        padded_dim,
        ex_bits,
    ) matches Ok((_, p)) && is_cluster_data(b, p, padded_dim, ex_bits, i)))
}

proof fn lemma_clusters_data_inside(
    b: Seq<u8>,
    pos: int,
    n: int,
    padded_dim: usize,
    ex_bits: usize,
    i: int,
)
    requires
        0 <= pos <= b.len(),
        clusters_at(b, pos, n, padded_dim, ex_bits) is Ok,
    ensures
        pos <= clusters_at(b, pos, n, padded_dim, ex_bits)->Ok_0.1 <= b.len(),
        is_clusters_data(b, pos, n, padded_dim, ex_bits, i) ==> pos <= i < clusters_at(
            b,
            pos,
            n,
            padded_dim,
            ex_bits,
        )->Ok_0.1,
    decreases n,
{
    if n > 0 {
        lemma_clusters_data_inside(b, pos, n - 1, padded_dim, ex_bits, i);
        lemma_cluster_data_inside(
            b,
            clusters_at(b, pos, n - 1, padded_dim, ex_bits)->Ok_0.1,
            padded_dim,
            ex_bits,
            i,
        );
    }
}

proof fn lemma_total_push(clusters: Seq<ClusterModel>, c: ClusterModel)
    ensures
        vector_total(clusters.push(c)) == vector_total(clusters) + c.total(),
{
    assert(clusters.push(c).drop_last() =~= clusters);
}

proof fn lemma_same_clusters(
    b: Seq<u8>,
    c: Seq<u8>,
    i: int,
    pos: int,
    n: int,
    padded_dim: usize,
    ex_bits: usize,
)
    requires
        differ_at(b, c, i),
        0 <= pos <= b.len(),
        clusters_at(b, pos, n, padded_dim, ex_bits) is Ok,
        i < pos || clusters_at(b, pos, n, padded_dim, ex_bits)->Ok_0.1 <= i || is_clusters_data(
            b,
            pos,
            n,
            padded_dim,
            ex_bits,
            i,
        ),
    ensures
        clusters_at(c, pos, n, padded_dim, ex_bits) is Ok,
        clusters_at(c, pos, n, padded_dim, ex_bits)->Ok_0.1 == clusters_at(
            b,
            pos,
            n,
            padded_dim,
            ex_bits,
        )->Ok_0.1,
        vector_total(clusters_at(c, pos, n, padded_dim, ex_bits)->Ok_0.0) == vector_total(
            clusters_at(b, pos, n, padded_dim, ex_bits)->Ok_0.0,
        ),
    decreases n,
{
    if n > 0 {
        let few = clusters_at(b, pos, n - 1, padded_dim, ex_bits)->Ok_0;
        let last = cluster_at(b, few.1, padded_dim, ex_bits)->Ok_0.0;
        lemma_clusters_data_inside(b, pos, n - 1, padded_dim, ex_bits, i);
        lemma_cluster_data_inside(b, few.1, padded_dim, ex_bits, i);
        lemma_same_clusters(b, c, i, pos, n - 1, padded_dim, ex_bits);
        lemma_same_cluster(b, c, i, few.1, padded_dim, ex_bits);
        lemma_total_push(few.0, last);
        lemma_total_push(
            clusters_at(c, pos, n - 1, padded_dim, ex_bits)->Ok_0.0,
            cluster_at(c, few.1, padded_dim, ex_bits)->Ok_0.0,
        );
    }
}

/// Whether the byte at `i` is one of the rotator, of the data of a cluster or of the checksum of an
/// index file.
pub open spec fn is_index_data(b: Seq<u8>, i: int) -> bool {
    match header_at(b) {
        Err(_) => false,
        Ok(h) => {
            let start = 44 + h.rotator_data.len() as int;
            let n = h.cluster_count as int;
            ||| 44 <= i < start
            ||| is_clusters_data(b, start, n, h.padded_dim, h.ex_bits, i)
            ||| (clusters_at(b, start, n, h.padded_dim, h.ex_bits) matches Ok((_, p)) && p <= i < p
                + 4)
        },
    }
}

/// Whether two headers describe clusters of the same number and shape that start at the same
/// place.
spec fn same_shape(g: HeaderModel, h: HeaderModel) -> bool {
    &&& g.padded_dim == h.padded_dim
    &&& g.ex_bits == h.ex_bits
    &&& g.vector_count == h.vector_count
    &&& g.cluster_count == h.cluster_count
    &&& g.rotator_data.len() == h.rotator_data.len()
}

proof fn lemma_same_front(b: Seq<u8>, c: Seq<u8>, i: int)
    requires
        differ_at(b, c, i),
        44 <= b.len(),
        i == 16 || i == 17 || 44 <= i,
    ensures
        c.subrange(0, 4) == b.subrange(0, 4),
        u32_at(c, 4) == u32_at(b, 4),
        u32_at(c, 8) == u32_at(b, 8),
        u32_at(c, 12) == u32_at(b, 12),
        u64_at(c, 20) == u64_at(b, 20),
        u64_at(c, 28) == u64_at(b, 28),
        u64_at(c, 36) == u64_at(b, 36),
{
    assert(c.subrange(0, 4) =~= b.subrange(0, 4));
    lemma_same_u32(b, c, i, 4);
    lemma_same_u32(b, c, i, 8);
    lemma_same_u32(b, c, i, 12);
    lemma_same_u64(b, c, i, 20);
    lemma_same_u64(b, c, i, 28);
    lemma_same_u64(b, c, i, 36);
}

proof fn lemma_same_header(b: Seq<u8>, c: Seq<u8>, i: int)
    requires
        differ_at(b, c, i),
        header_at(b) is Ok,
        44 <= i,
    ensures
        header_at(c) is Ok,
        same_shape(header_at(c)->Ok_0, header_at(b)->Ok_0),
{
    lemma_same_front(b, c, i);
    assert(b[16] == c[16] && b[17] == c[17] && b[18] == c[18] && b[19] == c[19]);
}

proof fn lemma_index_sum_fails(b: Seq<u8>, c: Seq<u8>, h: HeaderModel, g: HeaderModel, i: int)
    requires
        differ_at(b, c, i),
        index_of_bytes(b) is Ok,
        header_at(b) == Ok::<HeaderModel, RabitqError>(h),
        header_at(c) == Ok::<HeaderModel, RabitqError>(g),
        same_shape(g, h),
        8 <= i,
        i < 44 + h.rotator_data.len() || is_index_data(b, i),
    ensures
        index_of_bytes(c) == broken::<IndexModel>("checksum mismatch"),
{
    let start = 44 + h.rotator_data.len() as int;
    let n = h.cluster_count as int;
    let end = clusters_at(b, start, n, h.padded_dim, h.ex_bits)->Ok_0.1;
    lemma_clusters_data_inside(b, start, n, h.padded_dim, h.ex_bits, i);
    lemma_same_clusters(b, c, i, start, n, h.padded_dim, h.ex_bits);
    lemma_sum_fails(b, c, i, 8, end);
}

/// Damaged data is refused: where a file can be loaded and one byte of its rotator, of a centroid,
/// an id, a batch, an extended code or a parameter, or of its checksum is changed, the file is
/// refused for its checksum.
pub proof fn law_damaged_index_is_refused(b: Seq<u8>, i: int, v: u8)
    requires
        index_of_bytes(b) is Ok,
        is_index_data(b, i),
        v != b[i],
    ensures
        index_of_bytes(b.update(i, v)) == broken::<IndexModel>("checksum mismatch"),
{
    let c = b.update(i, v);
    let h = header_at(b)->Ok_0;
    let start = 44 + h.rotator_data.len() as int;
    lemma_clusters_data_inside(b, start, h.cluster_count as int, h.padded_dim, h.ex_bits, i);
    assert(differ_at(b, c, i));
    lemma_same_header(b, c, i);
    lemma_index_sum_fails(b, c, h, header_at(c)->Ok_0, i);
}

/// A damaged header is refused: where a file can be loaded and one byte of its magic, its version,
/// its tags, its bit counts or its number of vectors is changed, it can no longer be loaded.
pub proof fn law_damaged_header_is_refused(b: Seq<u8>, i: int, v: u8)
    requires
        index_of_bytes(b) is Ok,
        0 <= i < 8 || 16 <= i < 28,
        v != b[i],
    ensures
        index_of_bytes(b.update(i, v)) is Err,
{
    let c = b.update(i, v);
    assert(differ_at(b, c, i));
    let h = header_at(b)->Ok_0;
    if i < 4 {
        assert(c.subrange(0, 4)[i] != b.subrange(0, 4)[i]);
    } else if i < 8 {
        lemma_other_u32(b, c, i, 4);
    } else if i < 18 {
        lemma_same_front(b, c, i);
        if header_at(c) is Ok {
            lemma_index_sum_fails(b, c, h, header_at(c)->Ok_0, i);
        }
    } else if 20 <= i {
        lemma_other_count(b, c, i);
    }
}

proof fn lemma_other_count(b: Seq<u8>, c: Seq<u8>, i: int)
    requires
        differ_at(b, c, i),
        index_of_bytes(b) is Ok,
        20 <= i < 28,
    ensures
        index_of_bytes(c) is Err,
{
    let h = header_at(b)->Ok_0;
    let start = 44 + h.rotator_data.len() as int;
    if i < 24 {
        lemma_other_u32(b, c, i, 20);
        lemma_same_u32(b, c, i, 24);
    } else {
        lemma_same_u32(b, c, i, 20);
        lemma_other_u32(b, c, i, 24);
    }
    assert(u64_at(b, 20) != u64_at(c, 20));
    lemma_same_u32(b, c, i, 4);
    lemma_same_u32(b, c, i, 8);
    lemma_same_u32(b, c, i, 12);
    lemma_same_u64(b, c, i, 28);
    lemma_same_u64(b, c, i, 36);
    lemma_same_clusters(b, c, i, start, h.cluster_count as int, h.padded_dim, h.ex_bits);
}

// ----------------------------------------------------------------------------
// The segment file
// ----------------------------------------------------------------------------

/// Whether the byte at `i` belongs to one of the first `n` extended codes at `pos`, not to a
/// length in front of one. The codes may be of any length.
pub open spec fn is_code_byte(b: Seq<u8>, pos: int, n: int, i: int) -> bool
    decreases n,
{
    &&& n > 0
    &&& (is_code_byte(b, pos, n - 1, i) || (code_list_at(b, pos, n - 1) matches Ok((_, p)) && p + 8
        <= i < p + 8 + u64_at(b, p)))
}

proof fn lemma_code_byte_inside(b: Seq<u8>, pos: int, n: int, i: int)
    requires
        code_list_at(b, pos, n) is Ok,
        0 <= pos <= b.len(),
    ensures
        pos <= code_list_at(b, pos, n)->Ok_0.1 <= b.len(),
        is_code_byte(b, pos, n, i) ==> pos <= i < code_list_at(b, pos, n)->Ok_0.1,
    decreases n,
{
    if n > 0 {
        lemma_code_byte_inside(b, pos, n - 1, i);
    }
}

proof fn lemma_same_code_list(b: Seq<u8>, c: Seq<u8>, i: int, pos: int, n: int)
    requires
        differ_at(b, c, i),
        0 <= pos <= b.len(),
        code_list_at(b, pos, n) is Ok,
        i < pos || code_list_at(b, pos, n)->Ok_0.1 <= i || is_code_byte(b, pos, n, i),
    ensures
        code_list_at(c, pos, n) is Ok,
        code_list_at(c, pos, n)->Ok_0.1 == code_list_at(b, pos, n)->Ok_0.1,
    decreases n,
{
    if n > 0 {
        lemma_code_byte_inside(b, pos, n - 1, i);
        lemma_same_code_list(b, c, i, pos, n - 1);
        lemma_same_u64(b, c, i, code_list_at(b, pos, n - 1)->Ok_0.1);
    }
}

/// Whether the byte at `i` is one of the cluster id, the version, the bit count, the centroid, the
/// ids, the batches, the extended codes, the parameters or the checksum of a segment.
pub open spec fn is_segment_data(b: Seq<u8>, i: int) -> bool {
    let count = u32_at(b, 17) as int;
    let p_len = 21 + 4 * u32_at(b, 12) + 8 * count;
    let p_data = p_len + 8;
    let p_codes = p_data + u64_at(b, p_len);
    let codes = u32_at(b, p_codes) as int;
    ||| 4 <= i < 12
    ||| i == 16
    ||| 21 <= i < p_len
    ||| p_data <= i < p_codes
    ||| is_code_byte(b, p_codes + 4, codes, i)
    ||| (code_list_at(b, p_codes + 4, codes) matches Ok((_, p)) && p <= i < p + 16 * count + 4)
}

/// Damaged data is refused: where a segment can be read and one byte of its cluster id, version or
/// bit count, of the centroid, an id, a batch, an extended code or a parameter, or of its checksum
/// is changed, the segment is refused for its checksum.
pub proof fn law_damaged_segment_is_refused(b: Seq<u8>, i: int, v: u8)
    requires
        segment_of_bytes(b) is Ok,
        is_segment_data(b, i),
        v != b[i],
    ensures
        segment_of_bytes(b.update(i, v)) == broken::<SegmentModel>("segment checksum mismatch"),
{
    let c = b.update(i, v);
    let count = u32_at(b, 17) as int;
    let p_len = 21 + 4 * u32_at(b, 12) + 8 * count;
    let p_codes = p_len + 8 + u64_at(b, p_len);
    let codes = u32_at(b, p_codes) as int;
    let p = code_list_at(b, p_codes + 4, codes)->Ok_0.1;
    lemma_code_byte_inside(b, p_codes + 4, codes, i);
    assert(differ_at(b, c, i));
    assert(c.subrange(0, 4) =~= b.subrange(0, 4));
    lemma_same_u32(b, c, i, 12);
    lemma_same_u32(b, c, i, 17);
    lemma_same_u64(b, c, i, p_len);
    lemma_same_u32(b, c, i, p_codes);
    lemma_same_code_list(b, c, i, p_codes + 4, codes);
    lemma_sum_fails(b, c, i, 4, p + 16 * count);
}

} // verus!
