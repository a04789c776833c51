//! Where every number stands in a file, and which contents a file can hold.
use crate::bytes::{le32, le32s, le64, le64s, u32_at, u32s_at, u64_at, u64s_at};
use crate::checksum::crc32_of;
use crate::cluster::ClusterModel;
use crate::code_laws::word_at;
use crate::error::RabitqError;
use crate::index::{vector_total, IndexModel};
use crate::manifest::{
    checked_part, entry_at, entries_at, header_fits, key_order, manifest_of_bytes, map_fits,
    record_at, records_at, EntryModel, ManifestHeaderModel,
};
use crate::persist::{
    cluster_at, cluster_persistable, clusters_at, ex_code_len, ex_codes_at, header_at, index_bytes,
    index_of_bytes, law_load_of_save, save_fault,
};
use crate::segment::{code_list_at, segment_fits, segment_of_bytes, SegmentModel};
use crate::types::{Metric, RotatorType};
use crate::v4::{cluster_fits_v4, entry_of, fits_v4, segment_of};
use vstd::prelude::*;
use vstd::utf8::{decode_utf8, encode_utf8, valid_utf8};

verus! {

// ----------------------------------------------------------------------------
// Numbers
// ----------------------------------------------------------------------------

/// The number whose eight bytes stand at `at`, least significant first.
pub open spec fn long_at(b: Seq<u8>, at: int) -> int {
    word_at(b, at) + 4294967296 * word_at(b, at + 4)
}

/// Numbers are written and read least significant byte first: the bytes of a number add up to it by
/// powers of 256, and so does what is read.
pub proof fn law_numbers_are_little_endian(x: u32, y: u64, b: Seq<u8>, at: int)
    ensures
        le32(x).len() == 4,
        word_at(le32(x), 0) == x,
        le64(y).len() == 8,
        long_at(le64(y), 0) == y,
        u32_at(b, at) == word_at(b, at),
        u64_at(b, at) == long_at(b, at),
{
    lemma_word_written(x);
    lemma_long_written(y);
    lemma_numbers_read(b, at);
}

proof fn lemma_word_written(x: u32)
    ensures
        le32(x).len() == 4,
        word_at(le32(x), 0) == x,
{
}

proof fn lemma_long_written(y: u64)
    ensures
        le64(y).len() == 8,
        long_at(le64(y), 0) == y,
{
    let low = le32((y % 4294967296) as u32);
    let high = le32((y / 4294967296) as u32);
    let s = low + high;
    lemma_word_written((y % 4294967296) as u32);
    lemma_word_written((y / 4294967296) as u32);
    assert(s[0] == low[0] && s[1] == low[1] && s[2] == low[2] && s[3] == low[3]);
    assert(s[4] == high[0] && s[5] == high[1] && s[6] == high[2] && s[7] == high[3]);
}

proof fn lemma_numbers_read(b: Seq<u8>, at: int)
    ensures
        u32_at(b, at) == word_at(b, at),
        u64_at(b, at) == long_at(b, at),
{
}

/// Rows of numbers stand one behind the other.
pub proof fn law_rows_of_numbers(xs: Seq<u32>, ys: Seq<u64>, b: Seq<u8>, at: int, n: int, i: int)
    ensures
        le32s(xs).len() == 4 * xs.len(),
        le64s(ys).len() == 8 * ys.len(),
        0 <= i < xs.len() ==> word_at(le32s(xs), 4 * i) == xs[i],
        0 <= i < ys.len() ==> long_at(le64s(ys), 8 * i) == ys[i],
        0 <= i < n ==> u32s_at(b, at, n)[i] == word_at(b, at + 4 * i),
        0 <= i < n ==> u64s_at(b, at, n)[i] == long_at(b, at + 8 * i),
        0 <= n ==> u32s_at(b, at, n).len() == n && u64s_at(b, at, n).len() == n,
{
    if 0 <= i < xs.len() {
        law_numbers_are_little_endian(xs[i], 0, b, at);
        let s = le32s(xs);
        assert((4 * i) / 4 == i && (4 * i) % 4 == 0);
        assert((4 * i + 1) / 4 == i && (4 * i + 1) % 4 == 1);
        assert((4 * i + 2) / 4 == i && (4 * i + 2) % 4 == 2);
        assert((4 * i + 3) / 4 == i && (4 * i + 3) % 4 == 3);
        assert(s[4 * i] == le32(xs[i])[0] && s[4 * i + 1] == le32(xs[i])[1] && s[4 * i + 2] == le32(
            xs[i],
        )[2] && s[4 * i + 3] == le32(xs[i])[3]);
    }
    if 0 <= i < ys.len() {
        law_numbers_are_little_endian(0, ys[i], b, at);
        let s = le64s(ys);
        assert forall|k: int| 0 <= k < 8 implies #[trigger] s[8 * i + k] == le64(ys[i])[k] by {
            assert((8 * i + k) / 8 == i && (8 * i + k) % 8 == k);
        }
        assert(s[8 * i + 0] == le64(ys[i])[0]);
        assert(s[8 * i + 1] == le64(ys[i])[1]);
        assert(s[8 * i + 2] == le64(ys[i])[2]);
        assert(s[8 * i + 3] == le64(ys[i])[3]);
        assert(s[8 * i + 4] == le64(ys[i])[4]);
        assert(s[8 * i + 5] == le64(ys[i])[5]);
        assert(s[8 * i + 6] == le64(ys[i])[6]);
        assert(s[8 * i + 7] == le64(ys[i])[7]);
    }
}

// ----------------------------------------------------------------------------
// The index file
// ----------------------------------------------------------------------------

/// Where the header of an index file stands: the four letters of the magic, the version 3, the two
/// dimensions, one byte each for the metric, the rotator, the extended bits and all bits, the numbers
/// of vectors and clusters, and the rotator behind its length.
pub proof fn law_index_header_layout(b: Seq<u8>)
    ensures
        header_at(b) matches Ok(h) ==> {
            &&& b[0] == 82 && b[1] == 66 && b[2] == 81 && b[3] == 49
            &&& word_at(b, 4) == 3
            &&& h.dim == word_at(b, 8)
            &&& h.padded_dim == word_at(b, 12)
            &&& h.metric == if b[16] == 0 {
                Metric::L2
            } else {
                Metric::InnerProduct
            }
            &&& b[16] <= 1
            &&& h.rotator_type == if b[17] == 0 {
                RotatorType::MatrixRotator
            } else {
                RotatorType::FhtKacRotator
            }
            &&& b[17] <= 1
            &&& h.ex_bits == b[18]
            &&& b[19] == b[18] + 1
            &&& h.vector_count == long_at(b, 20)
            &&& h.cluster_count == long_at(b, 28)
            &&& h.rotator_data == b.subrange(44, 44 + long_at(b, 36))
        },
{
    if let Ok(h) = header_at(b) {
        let magic = b.subrange(0, 4);
        assert(magic[0] == b[0] && magic[1] == b[1] && magic[2] == b[2] && magic[3] == b[3]);
        law_numbers_are_little_endian(0, 0, b, 4);
        law_numbers_are_little_endian(0, 0, b, 8);
        law_numbers_are_little_endian(0, 0, b, 12);
        law_numbers_are_little_endian(0, 0, b, 20);
        law_numbers_are_little_endian(0, 0, b, 28);
        law_numbers_are_little_endian(0, 0, b, 36);
    }
}

/// Where extended codes stand in an index file: one behind the other, each behind its length.
pub proof fn law_index_codes_layout(b: Seq<u8>, pos: int, n: int, len: int, i: int)
    requires
        0 <= n,
        0 <= len,
    ensures
        ex_codes_at(b, pos, n, len) matches Ok((codes, end)) ==> {
            &&& codes.len() == n
            &&& end == pos + n * (8 + len)
            &&& 0 <= i < n ==> {
                &&& long_at(b, pos + i * (8 + len)) == len
                &&& codes[i] == b.subrange(
                    pos + i * (8 + len) + 8,
                    pos + i * (8 + len) + 8 + len,
                )
            }
        },
    decreases n,
{
    if n > 0 {
        law_index_codes_layout(b, pos, n - 1, len, i);
        if let Ok((codes, end)) = ex_codes_at(b, pos, n - 1, len) {
            law_numbers_are_little_endian(0, 0, b, end);
            assert(n * (8 + len) == (n - 1) * (8 + len) + (8 + len)) by (nonlinear_arith);
        }
    } else {
        assert(0 * (8 + len) == 0);
    }
}

/// Where a cluster stands in an index file: the centroid, the number of vectors, the ids, the batches
/// behind their length, the extended codes, and four parameters of each vector, each kind in a row.
#[verifier::rlimit(30)]
pub proof fn law_index_cluster_layout(
    b: Seq<u8>,
    pos: int,
    padded_dim: usize,
    ex_bits: usize,
    i: int,
)
    requires
        0 <= pos,
    ensures
        cluster_at(b, pos, padded_dim, ex_bits) matches Ok((c, end)) ==> {
            let n = c.num_vectors as int;
            let len = if ex_bits > 0 {
                (padded_dim * ex_bits) / 8
            } else {
                0
            };
            let ids = pos + 4 * padded_dim + 8;
            let data = ids + 8 * n + 8;
            let codes = data + c.batch_data.len();
            let rows = codes + n * (8 + len);
            &&& end == rows + 16 * n
            &&& n == long_at(b, pos + 4 * padded_dim)
            &&& n <= 1_000_000
            &&& c.batch_data == b.subrange(data, data + long_at(b, data - 8))
            &&& c.batch_data.len() == ((n + 31) / 32) * (4 * padded_dim + 384)
            &&& c.padded_dim == padded_dim
            &&& c.ex_bits == ex_bits
            &&& c.pending.len() == 0
            &&& c.pending_ids.len() == 0
            &&& c.centroid.len() == padded_dim
            &&& c.ids.len() == n
            &&& c.ex_codes.len() == n
            &&& 0 <= i < padded_dim ==> c.centroid[i] == word_at(b, pos + 4 * i)
            &&& 0 <= i < n ==> {
                &&& c.ids[i] == long_at(b, ids + 8 * i)
                &&& c.ex_codes[i] == b.subrange(
                    codes + i * (8 + len) + 8,
                    codes + i * (8 + len) + 8 + len,
                )
                &&& c.f_add_ex[i] == word_at(b, rows + 4 * i)
                &&& c.f_rescale_ex[i] == word_at(b, rows + 4 * n + 4 * i)
                &&& c.delta[i] == word_at(b, rows + 8 * n + 4 * i)
                &&& c.vl[i] == word_at(b, rows + 12 * n + 4 * i)
            }
        },
{
    if let Ok((c, end)) = cluster_at(b, pos, padded_dim, ex_bits) {
        let n = c.num_vectors as int;
        let len = ex_code_len(padded_dim as int, ex_bits as int);
        assert(0 <= padded_dim * ex_bits) by (nonlinear_arith);
        let at = pos + 4 * padded_dim;
        let codes = at + 16 + 8 * n + c.batch_data.len();
        law_numbers_are_little_endian(0, 0, b, at);
        law_numbers_are_little_endian(0, 0, b, at + 8 + 8 * n);
        law_index_codes_layout(b, codes, n, len, i);
        let rows = codes + n * (8 + len);
        law_rows_of_numbers(Seq::empty(), Seq::empty(), b, pos, padded_dim as int, i);
        law_rows_of_numbers(Seq::empty(), Seq::empty(), b, at + 8, n, i);
        law_rows_of_numbers(Seq::empty(), Seq::empty(), b, rows, n, i);
        law_rows_of_numbers(Seq::empty(), Seq::empty(), b, rows + 4 * n, n, i);
        law_rows_of_numbers(Seq::empty(), Seq::empty(), b, rows + 8 * n, n, i);
        law_rows_of_numbers(Seq::empty(), Seq::empty(), b, rows + 12 * n, n, i);
    }
}

/// Clusters stand one behind the other: the next one starts where the ones before it end.
pub proof fn law_index_clusters_layout(
    b: Seq<u8>,
    pos: int,
    n: int,
    padded_dim: usize,
    ex_bits: usize,
    k: int,
)
    requires
        0 <= k < n,
    ensures
        clusters_at(b, pos, n, padded_dim, ex_bits) matches Ok((clusters, _)) ==> {
            &&& clusters.len() == n
            &&& clusters_at(b, pos, k, padded_dim, ex_bits) matches Ok((few, p)) && cluster_at(
                b,
                p,
                padded_dim,
                ex_bits,
            ) matches Ok((c, _)) && clusters[k] == c
            &&& clusters_at(b, pos, 0, padded_dim, ex_bits) == Ok::<
                (Seq<ClusterModel>, int),
                RabitqError,
            >((Seq::empty(), pos))
        },
    decreases n,
{
    if clusters_at(b, pos, n, padded_dim, ex_bits) is Ok {
        if k < n - 1 {
            law_index_clusters_layout(b, pos, n - 1, padded_dim, ex_bits, k);
        } else if n > 1 {
            law_index_clusters_layout(b, pos, n - 1, padded_dim, ex_bits, 0);
        }
    }
}

/// What an index file gives: the contents of its header, all clusters behind the rotator, and it
/// closes with the checksum of everything behind the version.
pub proof fn law_index_file_layout(b: Seq<u8>)
    ensures
        index_of_bytes(b) matches Ok(m) ==> {
            &&& header_at(b) matches Ok(h)
            &&& m.dim == h.dim
            &&& m.padded_dim == h.padded_dim
            &&& m.metric == h.metric
            &&& m.rotator_type == h.rotator_type
            &&& m.rotator_data == h.rotator_data
            &&& m.ex_bits == h.ex_bits
            &&& m.clusters.len() == h.cluster_count
            &&& clusters_at(
                b,
                44 + h.rotator_data.len() as int,
                h.cluster_count as int,
                h.padded_dim,
                h.ex_bits,
            ) matches Ok((clusters, p))
            &&& m.clusters == clusters
            &&& word_at(b, p) == crc32_of(b.subrange(8, p))
        },
{
    if let Ok(m) = index_of_bytes(b) {
        let h = header_at(b)->Ok_0;
        let start = 44 + h.rotator_data.len() as int;
        let n = h.cluster_count as int;
        let p = clusters_at(b, start, n, h.padded_dim, h.ex_bits)->Ok_0.1;
        law_numbers_are_little_endian(0, 0, b, p);
        if n > 0 {
            law_index_clusters_layout(b, start, n, h.padded_dim, h.ex_bits, 0);
        }
    }
}

/// Whether a cluster holds together: one entry of everything for each packed vector, nothing pending,
/// and batches of 32 vectors with codes of one bit and three parameters each.
pub open spec fn is_whole(c: ClusterModel, padded_dim: usize, ex_bits: usize) -> bool {
    let n = c.num_vectors as int;
    &&& c.padded_dim == padded_dim
    &&& c.ex_bits == ex_bits
    &&& c.centroid.len() == padded_dim
    &&& c.ids.len() == n
    &&& c.batch_data.len() == ((n + 31) / 32) * (4 * padded_dim + 384)
    &&& c.batch_data.len() <= usize::MAX
    &&& c.ex_codes.len() == n
    &&& c.f_add_ex.len() == n
    &&& c.f_rescale_ex.len() == n
    &&& c.delta.len() == n
    &&& c.vl.len() == n
    &&& c.pending.len() == 0
    &&& c.pending_ids.len() == 0
}

/// Every sound index comes back from its file: with dimensions of up to 32 bits, up to 16 bits in all,
/// clusters of up to a million vectors, and extended codes of whole bytes.
pub proof fn law_sound_indexes_come_back(m: IndexModel, rest: Seq<u8>)
    requires
        0 < m.dim <= m.padded_dim <= 0xffff_ffff,
        m.ex_bits <= 15,
        m.rotator_data.len() <= usize::MAX,
        m.clusters.len() <= usize::MAX,
        vector_total(m.clusters) <= usize::MAX,
        forall|k: int|
            0 <= k < m.clusters.len() ==> {
                &&& is_whole(#[trigger] m.clusters[k], m.padded_dim, m.ex_bits)
                &&& m.clusters[k].num_vectors <= 1_000_000
                &&& forall|i: int|
                    0 <= i < m.clusters[k].ex_codes.len() ==> {
                        &&& (#[trigger] m.clusters[k].ex_codes[i]).len() <= usize::MAX
                        &&& m.ex_bits > 0 ==> m.clusters[k].ex_codes[i].len() == (m.padded_dim
                            * m.ex_bits) / 8
                        &&& m.ex_bits == 0 ==> m.clusters[k].ex_codes[i].len() == 0
                    }
            },
    ensures
        save_fault(m) is None,
        index_of_bytes(index_bytes(m) + rest) == Ok::<IndexModel, RabitqError>(m),
{
    assert forall|k: int| 0 <= k < m.clusters.len() implies cluster_persistable(
        #[trigger] m.clusters[k],
    ) && m.clusters[k].padded_dim == m.padded_dim && m.clusters[k].ex_bits == m.ex_bits by {
        assert(is_whole(m.clusters[k], m.padded_dim, m.ex_bits));
    }
    law_load_of_save(m, rest);
}

// ----------------------------------------------------------------------------
// The segment file
// ----------------------------------------------------------------------------

/// Where a segment stands: the four letters of the magic, the cluster, the version, the dimension, the
/// extended bits, the number of vectors, the centroid, the ids, the batches behind their length, the
/// number of extended codes and these, and four parameters of each vector, each kind in a row. It
/// closes with the checksum of everything behind the magic.
#[verifier::rlimit(30)]
pub proof fn law_segment_layout(b: Seq<u8>, i: int)
    ensures
        segment_of_bytes(b) matches Ok(s) ==> {
            let n = word_at(b, 17);
            let ids = 21 + 4 * s.padded_dim;
            let data = ids + 8 * n + 8;
            let count = data + s.batch_data.len();
            &&& b[0] == 83 && b[1] == 69 && b[2] == 71 && b[3] == 49
            &&& s.cluster_id == word_at(b, 4)
            &&& s.padded_dim == word_at(b, 12)
            &&& s.ex_bits == b[16]
            &&& s.centroid.len() == s.padded_dim
            &&& s.ids.len() == n
            &&& s.batch_data == b.subrange(data, data + long_at(b, data - 8))
            &&& 0 <= i < s.padded_dim ==> s.centroid[i] == word_at(b, 21 + 4 * i)
            &&& 0 <= i < n ==> s.ids[i] == long_at(b, ids + 8 * i)
            &&& code_list_at(b, count + 4, word_at(b, count)) matches Ok((codes, rows)) && {
                &&& s.ex_codes == codes
                &&& 0 <= i < n ==> {
                    &&& s.f_add_ex[i] == word_at(b, rows + 4 * i)
                    &&& s.f_rescale_ex[i] == word_at(b, rows + 4 * n + 4 * i)
                    &&& s.delta[i] == word_at(b, rows + 8 * n + 4 * i)
                    &&& s.vl[i] == word_at(b, rows + 12 * n + 4 * i)
                }
                &&& word_at(b, rows + 16 * n) == crc32_of(b.subrange(4, rows + 16 * n))
            }
        },
{
    if let Ok(s) = segment_of_bytes(b) {
        let magic = b.subrange(0, 4);
        assert(magic[0] == b[0] && magic[1] == b[1] && magic[2] == b[2] && magic[3] == b[3]);
        let n = u32_at(b, 17) as int;
        let ids = 21 + 4 * s.padded_dim;
        let data = ids + 8 * n + 8;
        let count = data + s.batch_data.len();
        law_numbers_are_little_endian(0, 0, b, 4);
        law_numbers_are_little_endian(0, 0, b, 12);
        law_numbers_are_little_endian(0, 0, b, 17);
        law_numbers_are_little_endian(0, 0, b, data - 8);
        law_numbers_are_little_endian(0, 0, b, count);
        let rows = code_list_at(b, count + 4, u32_at(b, count) as int)->Ok_0.1;
        law_numbers_are_little_endian(0, 0, b, rows + 16 * n);
        law_rows_of_numbers(Seq::empty(), Seq::empty(), b, 21, s.padded_dim as int, i);
        law_rows_of_numbers(Seq::empty(), Seq::empty(), b, ids, n, i);
        law_rows_of_numbers(Seq::empty(), Seq::empty(), b, rows, n, i);
        law_rows_of_numbers(Seq::empty(), Seq::empty(), b, rows + 4 * n, n, i);
        law_rows_of_numbers(Seq::empty(), Seq::empty(), b, rows + 8 * n, n, i);
        law_rows_of_numbers(Seq::empty(), Seq::empty(), b, rows + 12 * n, n, i);
    }
}

/// Where the extended codes of a segment stand: one behind the other, each behind its own length.
pub proof fn law_segment_codes_layout(b: Seq<u8>, pos: int, n: int, k: int)
    requires
        0 <= k < n,
    ensures
        code_list_at(b, pos, n) matches Ok((codes, _)) ==> {
            &&& codes.len() == n
            &&& code_list_at(b, pos, 0) == Ok::<(Seq<Seq<u8>>, int), RabitqError>(
                (Seq::empty(), pos),
            )
            &&& code_list_at(b, pos, k) matches Ok((_, p))
            &&& codes[k] == b.subrange(p + 8, p + 8 + long_at(b, p))
            &&& code_list_at(b, pos, k + 1) matches Ok((_, e))
            &&& e == p + 8 + long_at(b, p)
        },
    decreases n,
{
    if code_list_at(b, pos, n) is Ok {
        let p = code_list_at(b, pos, n - 1)->Ok_0.1;
        law_numbers_are_little_endian(0, 0, b, p);
        if k < n - 1 {
            law_segment_codes_layout(b, pos, n - 1, k);
        } else if n > 1 {
            law_segment_codes_layout(b, pos, n - 1, 0);
        }
    }
}

/// Every sound segment can be held by a file: with a dimension and numbers of up to 32 bits.
pub proof fn law_sound_segments_fit(s: SegmentModel)
    requires
        s.padded_dim <= 0xffff_ffff,
        s.ex_bits <= 255,
        s.centroid.len() == s.padded_dim,
        s.ids.len() <= 0xffff_ffff,
        s.batch_data.len() <= usize::MAX,
        s.ex_codes.len() <= 0xffff_ffff,
        forall|i: int|
            0 <= i < s.ex_codes.len() ==> (#[trigger] s.ex_codes[i]).len() <= usize::MAX,
        s.f_add_ex.len() == s.ids.len(),
        s.f_rescale_ex.len() == s.ids.len(),
        s.delta.len() == s.ids.len(),
        s.vl.len() == s.ids.len(),
    ensures
        segment_fits(s),
{
}

/// Every sound index can be held by a manifest and segments: with dimensions, clusters and vectors of
/// up to 32 bits.
pub proof fn law_sound_indexes_fit_v4(m: IndexModel)
    requires
        m.dim <= 0xffff_ffff,
        m.padded_dim <= 0xffff_ffff,
        m.ex_bits <= 15,
        m.rotator_data.len() <= usize::MAX,
        m.clusters.len() <= 0xffff_ffff,
        vector_total(m.clusters) <= usize::MAX,
        forall|k: int|
            0 <= k < m.clusters.len() ==> {
                &&& is_whole(#[trigger] m.clusters[k], m.padded_dim, m.ex_bits)
                &&& m.clusters[k].num_vectors <= 0xffff_ffff
                &&& forall|i: int|
                    0 <= i < m.clusters[k].ex_codes.len() ==> (
                    #[trigger] m.clusters[k].ex_codes[i]).len() <= usize::MAX
            },
    ensures
        fits_v4(m),
{
    assert forall|k: int| 0 <= k < m.clusters.len() implies cluster_fits_v4(
        #[trigger] m.clusters[k],
    ) && m.clusters[k].padded_dim == m.padded_dim && m.clusters[k].ex_bits == m.ex_bits by {
        assert(is_whole(m.clusters[k], m.padded_dim, m.ex_bits));
    }
}

// ----------------------------------------------------------------------------
// The manifest
// ----------------------------------------------------------------------------

/// Where an entry of a manifest stands: the version, the number of vectors, the size of the file, and
/// the name of the file behind its length.
pub proof fn law_manifest_entry_layout(b: Seq<u8>, pos: int, cluster_id: u32)
    ensures
        entry_at(b, pos, cluster_id) matches Ok((e, end)) ==> {
            &&& e.cluster_id == cluster_id
            &&& e.version == word_at(b, pos)
            &&& e.num_vectors == word_at(b, pos + 4)
            &&& e.file_size == long_at(b, pos + 8)
            &&& end == pos + 20 + word_at(b, pos + 16)
            &&& valid_utf8(b.subrange(pos + 20, end))
            &&& e.filename == decode_utf8(b.subrange(pos + 20, end))
        },
{
    law_numbers_are_little_endian(0, 0, b, pos);
    law_numbers_are_little_endian(0, 0, b, pos + 4);
    law_numbers_are_little_endian(0, 0, b, pos + 8);
    law_numbers_are_little_endian(0, 0, b, pos + 16);
}

/// Where a cluster of a manifest stands: its number, the number of its segments, and these one behind
/// the other. A manifest with one segment per cluster leaves their number out.
pub proof fn law_manifest_record_layout(b: Seq<u8>, pos: int, single: bool)
    ensures
        record_at(b, pos, single) matches Ok((id, entries, end)) ==> {
            &&& id == word_at(b, pos)
            &&& !single ==> entries_at(b, pos + 8, id, word_at(b, pos + 4)) == Ok::<
                (Seq<EntryModel>, int),
                RabitqError,
            >((entries, end))
            &&& single ==> entries_at(b, pos + 4, id, 1) == Ok::<
                (Seq<EntryModel>, int),
                RabitqError,
            >((entries, end))
        },
{
    law_numbers_are_little_endian(0, 0, b, pos);
    law_numbers_are_little_endian(0, 0, b, pos + 4);
}

/// Where the entries of a cluster stand: one behind the other, and as many as stated.
pub proof fn law_manifest_entries_layout(b: Seq<u8>, pos: int, cluster_id: u32, n: int, k: int)
    requires
        0 <= k < n,
    ensures
        entries_at(b, pos, cluster_id, n) matches Ok((entries, _)) ==> {
            &&& entries.len() == n
            &&& entries_at(b, pos, cluster_id, 0) == Ok::<(Seq<EntryModel>, int), RabitqError>(
                (Seq::empty(), pos),
            )
            &&& entries_at(b, pos, cluster_id, k) matches Ok((_, p))
            &&& entry_at(b, p, cluster_id) matches Ok((e, end))
            &&& entries[k] == e
            &&& entries_at(b, pos, cluster_id, k + 1) matches Ok((_, q))
            &&& q == end
        },
    decreases n,
{
    if entries_at(b, pos, cluster_id, n) is Ok {
        if k < n - 1 {
            law_manifest_entries_layout(b, pos, cluster_id, n - 1, k);
        } else if n > 1 {
            law_manifest_entries_layout(b, pos, cluster_id, n - 1, 0);
        }
    }
}

/// Where the header of a manifest stands: the four letters of the magic, the version 1 or 2, the two
/// dimensions, one byte each for the metric, the rotator, the extended bits and all bits, eight bytes
/// that count as zeros, the rotator behind its length, and the number of clusters.
pub proof fn law_manifest_layout(b: Seq<u8>)
    ensures
        manifest_of_bytes(b) matches Ok((h, map)) ==> {
            let count = 36 + long_at(b, 28);
            &&& b[0] == 82 && b[1] == 66 && b[2] == 81 && b[3] == 51
            &&& word_at(b, 4) == 1 || word_at(b, 4) == 2
            &&& h.dim == word_at(b, 8)
            &&& h.padded_dim == word_at(b, 12)
            &&& h.metric == if b[16] == 0 {
                Metric::L2
            } else {
                Metric::InnerProduct
            }
            &&& b[16] <= 1
            &&& h.rotator_type == if b[17] == 0 {
                RotatorType::MatrixRotator
            } else {
                RotatorType::FhtKacRotator
            }
            &&& b[17] <= 1
            &&& h.ex_bits == b[18]
            &&& h.total_bits == b[19]
            &&& h.rotator_data == b.subrange(36, count)
            &&& records_at(b, count + 4, word_at(b, count), word_at(b, 4) == 1) matches Ok((r, p))
                && map == r && word_at(b, p) == crc32_of(checked_part(b, p))
        },
{
    if let Ok((h, map)) = manifest_of_bytes(b) {
        let magic = b.subrange(0, 4);
        assert(magic[0] == b[0] && magic[1] == b[1] && magic[2] == b[2] && magic[3] == b[3]);
        let count = 36 + u64_at(b, 28) as int;
        law_numbers_are_little_endian(0, 0, b, 4);
        law_numbers_are_little_endian(0, 0, b, 8);
        law_numbers_are_little_endian(0, 0, b, 12);
        law_numbers_are_little_endian(0, 0, b, 28);
        law_numbers_are_little_endian(0, 0, b, count);
        let single = u32_at(b, 4) == 1;
        let p = records_at(b, count + 4, u32_at(b, count) as int, single)->Ok_0.1;
        law_numbers_are_little_endian(0, 0, b, p);
    }
}

/// Every sound manifest can be written and read: numbers of up to 32 bits, bit counts of up to eight,
/// and names of files whose lengths can be written.
pub proof fn law_sound_manifests_fit(h: ManifestHeaderModel, map: Map<u32, Seq<EntryModel>>)
    requires
        h.dim <= 0xffff_ffff,
        h.padded_dim <= 0xffff_ffff,
        h.ex_bits <= 255,
        h.total_bits <= 255,
        h.rotator_data.len() <= usize::MAX,
        key_order(map.dom()).len() <= 0xffff_ffff,
        forall|key: u32| #[trigger]
            map.contains_key(key) ==> {
                &&& map[key].len() <= 0xffff_ffff
                &&& forall|i: int|
                    0 <= i < map[key].len() ==> {
                        &&& (#[trigger] map[key][i]).cluster_id == key
                        &&& encode_utf8(map[key][i].filename).len() <= 0xffff_ffff
                    }
            },
    ensures
        header_fits(h),
        map_fits(map, false),
{
}

/// What a cluster is saved as: its own numbers, and an entry that says how many vectors there are.
pub proof fn law_saved_clusters_are_whole(
    cluster_id: u32,
    version: u32,
    c: ClusterModel,
    padded_dim: usize,
    ex_bits: usize,
)
    requires
        c.num_vectors <= 0xffff_ffff,
    ensures
        ({
            let s = segment_of(cluster_id, c, padded_dim, ex_bits);
            &&& s.cluster_id == cluster_id
            &&& s.padded_dim == padded_dim
            &&& s.ex_bits == ex_bits
            &&& s.centroid == c.centroid
            &&& s.ids == c.ids
            &&& s.batch_data == c.batch_data
            &&& s.ex_codes == c.ex_codes
            &&& s.f_add_ex == c.f_add_ex
            &&& s.f_rescale_ex == c.f_rescale_ex
            &&& s.delta == c.delta
            &&& s.vl == c.vl
        }),
        entry_of(cluster_id, version, c, padded_dim, ex_bits).cluster_id == cluster_id,
        entry_of(cluster_id, version, c, padded_dim, ex_bits).version == version,
        entry_of(cluster_id, version, c, padded_dim, ex_bits).num_vectors == c.num_vectors,
{
}

} // verus!
