//! What clusters, segments and counters hold, number by number.
use crate::bytes::{le32, le64};
use crate::checksum::crc32_of;
use crate::cluster::{get_or, is_packed_cluster, stored, zero_slot, ClusterModel};
use crate::code_laws::{law_parameters_stand_behind_codes, word_at};
use crate::error::RabitqError;
use crate::fetch::{
    lemma_places, lemma_position, packed_place, pending_place, place_of, position, vector_at,
    VectorPlace,
};
use crate::filter::filter_ids;
use crate::index::{IndexModel, IvfRabitqIndex};
use crate::insert::same_but_clusters;
use crate::insert_laws::{kept_as, law_packing_keeps_vectors};
use crate::layout_laws::law_numbers_are_little_endian;
use crate::manifest::{
    checked_part, filename_of, key_order, keys_below, lemma_keys_below, manifest_bytes,
    manifest_header_bytes, records_bytes, EntryModel, ManifestHeaderModel,
};
use crate::persist::{cluster_fault, save_fault};
use crate::quantized::QuantizedModel;
use crate::search::{
    answers, counts_on, scan_model, scan_terms, HeapCandidate, ScanModel, SearchDiagnostics,
    SearchResult,
};
use crate::segment::{centroid_of_bytes, segment_bytes, segment_header_bytes, SegmentModel};
use crate::train::{builds, TrainedParts};
use crate::types::Metric;
use crate::v4::{header_of, saved_map, segment_of, SegmentFile};
use crate::v4_flush::{
    entries_of, flushed_file, flushed_map, held, next_entry, next_segment, next_version,
};
use crate::v4_load::{
    cluster_of, delta_count, join_fault, joined_ids, joined_vectors, joins, load_fault, loads,
    LoadedModel,
};
use roaring::RoaringBitmap;
use vstd::prelude::*;

verus! {

// ----------------------------------------------------------------------------
// Clusters
// ----------------------------------------------------------------------------

/// What is read of a packed vector: its code and three parameters out of its slot, and the rest
/// out of
/// its place in each row.
pub proof fn law_packed_vectors_are_read(c: ClusterModel, i: int)
    requires
        c.well_formed(),
        0 <= i < c.num_vectors,
    ensures
        ({
            let q = c.packed(i);
            let at = (i / 32) * (4 * c.padded_dim + 384) + 4 * c.padded_dim + 4 * (i % 32);
            &&& q.ex_code == c.ex_codes[i]
            &&& q.delta == c.delta[i]
            &&& q.vl == c.vl[i]
            &&& q.f_add_ex == c.f_add_ex[i]
            &&& q.f_rescale_ex == c.f_rescale_ex[i]
            &&& q.f_add == word_at(c.batch_data, at)
            &&& q.f_rescale == word_at(c.batch_data, at + 128)
            &&& q.f_error == word_at(c.batch_data, at + 256)
            &&& q.code.len() >= c.padded_dim / 8
            &&& forall|b: int|
                0 <= b < c.padded_dim / 8 ==> #[trigger] q.code[b] == c.slot(i).code[b]
            &&& q.dim == c.padded_dim
            &&& c.contents()[i] == q
            &&& c.all_ids()[i] == c.ids[i]
        }),
{
    law_parameters_stand_behind_codes(c.batch_data, c.padded_dim as int, i);
}

/// Flushing keeps every vector: packed ones stay where they are, and pending ones come behind
/// them, in
/// order, under their ids and as they came.
pub proof fn law_flush_keeps_each(before: ClusterModel, after: ClusterModel, i: int, j: int)
    requires
        before.well_formed(),
        before.flushes(after),
        0 <= i < before.num_vectors,
        0 <= j < before.pending.len(),
    ensures
        after.pending.len() == 0,
        after.pending_ids.len() == 0,
        after.num_vectors == before.num_vectors + before.pending.len(),
        after.ids[i] == before.ids[i],
        after.packed(i) == before.packed(i),
        after.ids[before.num_vectors + j] == before.pending_ids[j],
        kept_as(after.packed(before.num_vectors + j), before.pending[j], before.ex_bits),
{
    let n = before.num_vectors as int;
    assert(after.packed_vectors()[i] == before.packed_vectors()[i]);
    assert(after.packed_vectors()[i] == after.packed(i));
    assert(after.packed_vectors()[n + j] == after.packed(n + j));
    assert(after.packed_vectors()[n + j] == stored(
        before.pending[j],
        before.padded_dim,
        before.ex_bits,
    ));
    law_packing_keeps_vectors(before.pending[j], before.padded_dim, before.ex_bits);
}

/// Appending buffers up to 31 vectors: with fewer waiting, the new one waits behind them and the
/// batches
/// stay as they are; the one that makes 32 has all of them packed.
pub proof fn law_append_buffers_up_to_31(
    before: ClusterModel,
    after: ClusterModel,
    id: u64,
    q: QuantizedModel,
)
    requires
        before.well_formed(),
        before.appends(after, id, q),
    ensures
        before.pending.len() < 31 ==> {
            &&& after.pending == before.pending.push(q)
            &&& after.pending_ids == before.pending_ids.push(id)
            &&& after.num_vectors == before.num_vectors
            &&& after.ids == before.ids
            &&& after.batch_data == before.batch_data
        },
        before.pending.len() == 31 ==> {
            &&& after.pending.len() == 0
            &&& after.pending_ids.len() == 0
            &&& after.num_vectors == before.num_vectors + 32
            &&& after.ids.last() == id
        },
{
}

/// Slots behind the last vector hold zeros.
pub proof fn law_padding_is_zero(c: ClusterModel, k: int)
    requires
        c.zero_padded(),
        c.num_vectors <= k < 32 * ((c.num_vectors + 31) / 32),
    ensures
        ({
            let at = (k / 32) * (4 * c.padded_dim + 384) + 4 * c.padded_dim + 4 * (k % 32);
            &&& word_at(c.batch_data, at) == 0
            &&& word_at(c.batch_data, at + 128) == 0
            &&& word_at(c.batch_data, at + 256) == 0
            &&& forall|b: int| 0 <= b < c.padded_dim / 8 ==> #[trigger] c.slot(k).code[b] == 0
        }),
{
    law_parameters_stand_behind_codes(c.batch_data, c.padded_dim as int, k);
    assert(c.slot(k) == zero_slot(c.padded_dim as int));
}

/// A cluster that is made of vectors holds each of them under its id, as it came.
pub proof fn law_made_clusters_keep_each(
    c: ClusterModel,
    centroid: Seq<u32>,
    ids: Seq<u64>,
    vectors: Seq<QuantizedModel>,
    padded_dim: usize,
    ex_bits: usize,
    k: int,
)
    requires
        is_packed_cluster(c, centroid, ids, vectors, padded_dim, ex_bits),
        0 <= k < vectors.len(),
    ensures
        c.centroid == centroid,
        c.ids == ids,
        c.num_vectors == vectors.len(),
        c.padded_dim == padded_dim,
        c.ex_bits == ex_bits,
        c.pending.len() == 0,
        kept_as(c.packed(k), vectors[k], ex_bits),
{
    assert(c.packed_vectors()[k] == c.packed(k));
    assert(c.packed_vectors()[k] == stored(vectors[k], padded_dim, ex_bits));
    law_packing_keeps_vectors(vectors[k], padded_dim, ex_bits);
}

/// Room for more vectors is room for their batches.
pub proof fn law_room_is_for_batches(c: ClusterModel, extra: int)
    ensures
        c.has_room(extra) <==> c.num_vectors + extra + 31 <= usize::MAX && ((c.num_vectors + extra
            + 31) / 32) * (4 * c.padded_dim + 384) <= usize::MAX,
{
}

/// A batch of vectors fills the waiting ones up to 31: as often as there are 32 of them they are
/// packed.
pub proof fn law_batch_leaves_up_to_31(
    before: ClusterModel,
    after: ClusterModel,
    ids: Seq<u64>,
    qs: Seq<QuantizedModel>,
)
    requires
        before.receives(after, ids, qs),
        before.pending.len() < 32,
    ensures
        after.pending.len() < 32,
        (after.pending.len() - before.pending.len() - qs.len()) % 32 == 0,
        after.centroid == before.centroid,
        after.all_ids() == before.all_ids() + ids,
{
}

/// Which batches there are, and what stands for what is not there.
pub proof fn law_batches_end_with_the_data(c: ClusterModel, b: int, s: Seq<u32>, default: u32)
    ensures
        c.has_batch(b) <==> 0 <= b && (b + 1) * (4 * c.padded_dim + 384) <= c.batch_data.len(),
        0 <= b < s.len() ==> get_or(s, b, default) == s[b],
        b < 0 || s.len() <= b ==> get_or(s, b, default) == default,
{
    let w = 4 * c.padded_dim + 384;
    assert((b + 1) * w == b * w + w) by (nonlinear_arith);
}

/// What changes in its clusters alone keeps everything else.
pub proof fn law_only_clusters_change(a: IndexModel, b: IndexModel)
    ensures
        same_but_clusters(a, b) <==> b.dim == a.dim && b.padded_dim == a.padded_dim && b.metric
            == a.metric && b.rotator_type == a.rotator_type && b.rotator_data == a.rotator_data
            && b.ex_bits == a.ex_bits,
{
}

/// What stands at a place.
pub proof fn law_places_name_vectors(m: IndexModel, cluster: usize, index: usize)
    ensures
        vector_at(m, VectorPlace::Packed { cluster, index }) == m.clusters[cluster as int].packed(
            index as int,
        ),
        vector_at(m, VectorPlace::Pending { cluster, index })
            == m.clusters[cluster as int].pending[index as int],
{
}

/// An id that is kept more than once is found where it comes first: among the packed vectors, in the
/// first cluster that has it, and there at the first place; among the pending ones only where no
/// packed
/// vector has it.
pub proof fn law_first_place_is_found(m: IndexModel, id: u64, c: int, k: int)
    requires
        m.clusters.len() <= usize::MAX,
        forall|c: int|
            0 <= c < m.clusters.len() ==> (#[trigger] m.clusters[c]).ids.len() <= usize::MAX
                && m.clusters[c].pending_ids.len() <= usize::MAX,
        0 <= c < m.clusters.len(),
    ensures
        0 <= k < m.clusters[c].ids.len() && m.clusters[c].ids[k] == id ==> {
            &&& place_of(m, id) matches Some(VectorPlace::Packed { cluster, index })
            &&& cluster < c || cluster == c && index <= k
            &&& m.clusters[cluster as int].ids[index as int] == id
        },
        0 <= k < m.clusters[c].pending_ids.len() && m.clusters[c].pending_ids[k] == id ==> {
            match place_of(m, id) {
                Some(VectorPlace::Packed { cluster, index }) => {
                    m.clusters[cluster as int].ids[index as int] == id
                },
                Some(VectorPlace::Pending { cluster, index }) => {
                    &&& cluster < c || cluster == c && index <= k
                    &&& m.clusters[cluster as int].pending_ids[index as int] == id
                },
                None => false,
            }
        },
{
    lemma_places(m.clusters, id, 0);
    if 0 <= k < m.clusters[c].ids.len() && m.clusters[c].ids[k] == id {
        lemma_first_packed(m.clusters, id, 0, c, k);
    }
    if 0 <= k < m.clusters[c].pending_ids.len() && m.clusters[c].pending_ids[k] == id {
        lemma_first_pending(m.clusters, id, 0, c, k);
    }
}

proof fn lemma_first_packed(clusters: Seq<ClusterModel>, id: u64, from: int, c: int, k: int)
    requires
        clusters.len() <= usize::MAX,
        0 <= from <= c < clusters.len(),
        0 <= k < clusters[c].ids.len(),
        clusters[c].ids[k] == id,
        forall|c: int|
            0 <= c < clusters.len() ==> (#[trigger] clusters[c]).ids.len() <= usize::MAX,
    ensures
        packed_place(clusters, id, from) matches Some(VectorPlace::Packed { cluster, index }) && (
        cluster < c || cluster == c && index <= k),
    decreases clusters.len() - from,
{
    lemma_position(clusters[from].ids, id, 0);
    if position(clusters[from].ids, id, 0) is None {
        assert(from < c);
        lemma_first_packed(clusters, id, from + 1, c, k);
    }
}

proof fn lemma_first_pending(clusters: Seq<ClusterModel>, id: u64, from: int, c: int, k: int)
    requires
        clusters.len() <= usize::MAX,
        0 <= from <= c < clusters.len(),
        0 <= k < clusters[c].pending_ids.len(),
        clusters[c].pending_ids[k] == id,
        forall|c: int|
            0 <= c < clusters.len() ==> (#[trigger] clusters[c]).pending_ids.len() <= usize::MAX,
    ensures
        pending_place(clusters, id, from) matches Some(VectorPlace::Pending { cluster, index }) && (
        cluster < c || cluster == c && index <= k),
    decreases clusters.len() - from,
{
    lemma_position(clusters[from].pending_ids, id, 0);
    if position(clusters[from].pending_ids, id, 0) is None {
        assert(from < c);
        lemma_first_pending(clusters, id, from + 1, c, k);
    }
}

/// Building either fails with the fault of its input, or gives the index with the numbers that were
/// handed in and one cluster for each centroid.
pub proof fn law_building_goes_by_its_fault(
    r: Result<IvfRabitqIndex, RabitqError>,
    fault: Option<&'static str>,
    dim: usize,
    metric: Metric,
    parts: TrainedParts,
    total_bits: usize,
    c: int,
)
    requires
        builds(r, fault, dim, metric, parts, total_bits),
    ensures
        r is Ok <==> fault is None,
        fault matches Some(why) ==> r == Err::<IvfRabitqIndex, RabitqError>(
            RabitqError::InvalidConfig(why),
        ),
        fault is None ==> {
            let m = r->Ok_0@;
            &&& m.dim == dim
            &&& m.metric == metric
            &&& m.padded_dim == parts.padded_dim
            &&& m.rotator_type == parts.rotator.rotator_type
            &&& m.rotator_data == parts.rotator.data@
            &&& m.ex_bits == total_bits - 1
            &&& m.clusters.len() == parts.rotated_centroids@.len()
            &&& 0 <= c < m.clusters.len() ==> m.clusters[c].centroid == parts.rotated_centroids@[c]@
                && m.clusters[c].pending.len() == 0
        },
{
}

// ----------------------------------------------------------------------------
// Counters
// ----------------------------------------------------------------------------

/// Which counter counts what.
pub proof fn law_counters_have_their_names(
    heap: Seq<HeapCandidate>,
    d: SearchDiagnostics,
    after: SearchDiagnostics,
    s: ScanModel,
)
    ensures
        scan_model(heap, d).heap == heap,
        scan_model(heap, d).estimated == d.estimated,
        scan_model(heap, d).skipped == d.skipped_by_lower_bound,
        scan_model(heap, d).extended == d.extended_evaluations,
        counts_on(d, after, s) <==> {
            &&& after.estimated == d.estimated + s.estimated
            &&& after.skipped_by_lower_bound == d.skipped_by_lower_bound + s.skipped
            &&& after.extended_evaluations == d.extended_evaluations + s.extended
        },
{
}

/// A search answers with what it found, best first, or with its error.
pub proof fn law_answers_are_what_was_found(
    r: Result<Vec<SearchResult>, RabitqError>,
    outcome: Result<ScanModel, RabitqError>,
    i: int,
)
    requires
        answers(r, outcome),
    ensures
        r is Ok <==> outcome is Ok,
        outcome matches Err(e) ==> r matches Err(f) && f == e,
        outcome matches Ok(s) ==> {
            &&& r->Ok_0@.len() == s.heap.len()
            &&& 0 <= i < s.heap.len() ==> r->Ok_0@[i].id == s.heap[i].id && r->Ok_0@[i].score
                == s.heap[i].score
        },
{
}

/// A search goes by its filter, by the metric and the bits of the index, and by the wanted number.
pub proof fn law_search_goes_by_its_terms(
    filter: Option<&RoaringBitmap>,
    m: IndexModel,
    top_k: usize,
)
    ensures
        scan_terms(filter, m, top_k).filter == filter_ids(filter),
        scan_terms(filter, m, top_k).metric == m.metric,
        scan_terms(filter, m, top_k).ex_bits == m.ex_bits,
        scan_terms(filter, m, top_k).top_k == top_k,
{
}

// ----------------------------------------------------------------------------
// Segments and manifests
// ----------------------------------------------------------------------------

/// A segment file states its version behind the cluster.
pub proof fn law_segments_state_their_version(s: SegmentModel, version: u32)
    ensures
        segment_bytes(s, version).len() >= 21,
        word_at(segment_bytes(s, version), 4) == s.cluster_id,
        word_at(segment_bytes(s, version), 8) == version,
{
    let b = segment_bytes(s, version);
    let header = segment_header_bytes(s, version);
    let id = le32(s.cluster_id);
    let v = le32(version);
    assert(header.len() == 17);
    assert(b[4] == id[0] && b[5] == id[1] && b[6] == id[2] && b[7] == id[3]);
    assert(b[8] == v[0] && b[9] == v[1] && b[10] == v[2] && b[11] == v[3]);
    law_numbers_are_little_endian(s.cluster_id, 0, b, 4);
    law_numbers_are_little_endian(version, 0, b, 8);
}

/// A manifest names its format, keeps eight zero bytes behind the bit counts, and ends in four
/// bytes of
/// checksum.
pub proof fn law_manifests_open_and_close(
    h: ManifestHeaderModel,
    map: Map<u32, Seq<EntryModel>>,
    single: bool,
)
    ensures
        ({
            let b = manifest_bytes(h, map, single);
            let end = b.len() - 4;
            &&& end >= 40
            &&& b[0] == 82 && b[1] == 66 && b[2] == 81 && b[3] == 51
            &&& word_at(b, 4) == if single {
                1int
            } else {
                2
            }
            &&& forall|k: int| 20 <= k < 28 ==> #[trigger] b[k] == 0
            &&& word_at(b, end) == crc32_of(b.subrange(8, end))
        }),
{
    let b = manifest_bytes(h, map, single);
    let keys = key_order(map.dom());
    let header = manifest_header_bytes(h, keys.len() as u32);
    let body = header + records_bytes(keys, map, single);
    let version: u32 = if single {
        1
    } else {
        2
    };
    let end = b.len() - 4;
    let v = le32(version);
    assert(b.subrange(8, end) =~= body);
    assert(b[4] == v[0] && b[5] == v[1] && b[6] == v[2] && b[7] == v[3]);
    law_numbers_are_little_endian(version, 0, b, 4);
    let sum = crc32_of(body);
    let s = le32(sum);
    assert(b[end] == s[0] && b[end + 1] == s[1] && b[end + 2] == s[2] && b[end + 3] == s[3]);
    law_numbers_are_little_endian(sum, 0, b, end);
    let zeros = le64(0);
    law_numbers_are_little_endian(0, 0, zeros, 0);
    assert forall|k: int| 20 <= k < 28 implies #[trigger] b[k] == 0 by {
        assert(b[k] == header[k - 8]);
        assert(header[k - 8] == zeros[k - 20]);
    }
}

/// The centroid of a segment is read out of its first bytes: the cluster number behind the magic,
/// then
/// one number for each dimension behind the header. Only a file that ends before them is refused.
pub proof fn law_centroids_open_segments(b: Seq<u8>, padded_dim: int, i: int)
    requires
        0 <= i < padded_dim,
    ensures
        centroid_of_bytes(b, padded_dim) is Err <==> b.len() < 21 + 4 * padded_dim,
        centroid_of_bytes(b, padded_dim) matches Ok((id, centroid)) ==> {
            &&& id == word_at(b, 4)
            &&& centroid.len() == padded_dim
            &&& centroid[i] == word_at(b, 21 + 4 * i)
        },
{
    if b.len() >= 21 + 4 * padded_dim {
        law_numbers_are_little_endian(0, 0, b, 4);
        law_numbers_are_little_endian(0, 0, b, 21 + 4 * i);
    }
}

/// The clusters of a manifest come in the order of their numbers, each of them once.
pub proof fn law_keys_come_in_order(keys: Set<u32>, k: u32)
    ensures
        key_order(keys).contains(k) <==> keys.contains(k),
        forall|i: int, j: int|
            0 <= i < j < key_order(keys).len() ==> (#[trigger] key_order(keys)[i]) < (
            #[trigger] key_order(keys)[j]),
{
    lemma_keys_below(keys, 4294967296);
    lemma_keys_increase(keys, 4294967296);
}

proof fn lemma_keys_increase(keys: Set<u32>, n: int)
    requires
        0 <= n <= 4294967296,
    ensures
        forall|i: int| 0 <= i < keys_below(keys, n).len() ==> (#[trigger] keys_below(keys, n)[i]) < n,
        forall|i: int, j: int|
            0 <= i < j < keys_below(keys, n).len() ==> (#[trigger] keys_below(keys, n)[i]) < (
            #[trigger] keys_below(keys, n)[j]),
    decreases n,
{
    if n > 0 {
        lemma_keys_increase(keys, n - 1);
        let before = keys_below(keys, n - 1);
        let after = keys_below(keys, n);
        assert forall|i: int| 0 <= i < after.len() implies (#[trigger] after[i]) < n by {
            if i < before.len() {
                assert(after[i] == before[i]);
            }
        }
        assert forall|i: int, j: int| 0 <= i < j < after.len() implies (#[trigger] after[i]) < (
        #[trigger] after[j]) by {
            assert(after[i] == before[i]);
            if j < before.len() {
                assert(after[j] == before[j]);
            }
        }
    }
}

/// What the checksum of a manifest covers: everything behind the version, with zeros in place of the
/// eight bytes behind the bit counts.
pub proof fn law_manifest_checksum_covers(b: Seq<u8>, end: int, i: int)
    requires
        28 <= end <= b.len(),
        0 <= i < end - 8,
    ensures
        checked_part(b, end).len() == end - 8,
        checked_part(b, end)[i] == if 12 <= i < 20 {
            0
        } else {
            b[8 + i]
        },
{
}

/// The header of a saved index says what the index says.
pub proof fn law_saved_headers_are_whole(m: IndexModel)
    requires
        m.ex_bits < usize::MAX,
    ensures
        header_of(m).dim == m.dim,
        header_of(m).padded_dim == m.padded_dim,
        header_of(m).metric == m.metric,
        header_of(m).rotator_type == m.rotator_type,
        header_of(m).rotator_data == m.rotator_data,
        header_of(m).ex_bits == m.ex_bits,
        header_of(m).total_bits == m.ex_bits + 1,
{
}

/// The entries of a saved index: one for each cluster, of version 0, that names the file of the
/// segment, how many vectors it has, and how many bytes.
pub proof fn law_saved_entries_are_whole(m: IndexModel, k: u32)
    requires
        k < m.clusters.len() <= 0xffff_ffff,
        m.clusters[k as int].num_vectors <= 0xffff_ffff,
    ensures
        ({
            let n = m.clusters.len() as int;
            let s = segment_of(k, m.clusters[k as int], m.padded_dim, m.ex_bits);
            &&& saved_map(m, n).contains_key(k)
            &&& saved_map(m, n)[k].len() == 1
            &&& saved_map(m, n)[k][0].cluster_id == k
            &&& saved_map(m, n)[k][0].version == 0
            &&& saved_map(m, n)[k][0].num_vectors == m.clusters[k as int].num_vectors
            &&& saved_map(m, n)[k][0].filename == filename_of(k, 0)
            &&& segment_bytes(s, 0).len() <= u64::MAX ==> saved_map(m, n)[k][0].file_size
                == segment_bytes(s, 0).len()
        }),
{
}

/// The cluster of a segment has the numbers of the segment.
pub proof fn law_loaded_clusters_are_whole(s: LoadedModel, padded_dim: usize, ex_bits: usize)
    ensures
        ({
            let c = cluster_of(s, padded_dim, ex_bits);
            &&& c.centroid == s.data.centroid
            &&& c.ids == s.data.ids
            &&& c.batch_data == s.data.batch_data
            &&& c.ex_codes == s.data.ex_codes
            &&& c.f_add_ex == s.data.f_add_ex
            &&& c.f_rescale_ex == s.data.f_rescale_ex
            &&& c.delta == s.data.delta
            &&& c.vl == s.data.vl
            &&& c.num_vectors == s.num_vectors
            &&& c.padded_dim == padded_dim
            &&& c.ex_bits == ex_bits
            &&& c.pending.len() == 0
            &&& c.pending_ids.len() == 0
        }),
{
}

/// Whether a segment holds together: one entry of everything for each of its vectors.
pub open spec fn segment_is_whole(s: LoadedModel, padded_dim: usize) -> bool {
    let n = s.num_vectors as int;
    &&& s.data.centroid.len() == padded_dim
    &&& s.data.ids.len() == n
    &&& s.data.batch_data.len() == ((n + 31) / 32) * (4 * padded_dim + 384)
    &&& s.data.ex_codes.len() == n
    &&& s.data.f_add_ex.len() == n
    &&& s.data.f_rescale_ex.len() == n
    &&& s.data.delta.len() == n
    &&& s.data.vl.len() == n
}

/// Which segments make a cluster: one alone always does; several do where each of them holds together
/// and their batches can be addressed.
pub proof fn law_segments_make_clusters(
    segments: Seq<LoadedModel>,
    padded_dim: usize,
    ex_bits: usize,
)
    ensures
        segments.len() == 0 ==> join_fault(segments, padded_dim, ex_bits) is Some,
        segments.len() == 1 ==> join_fault(segments, padded_dim, ex_bits) is None,
        segments.len() > 1 ==> (join_fault(segments, padded_dim, ex_bits) is None <==> {
            let all = segments[0].num_vectors + delta_count(segments, segments.len() as int);
            &&& forall|i: int|
                0 <= i < segments.len() ==> segment_is_whole(#[trigger] segments[i], padded_dim)
            &&& all + 31 <= usize::MAX
            &&& ((all + 31) / 32) * (4 * padded_dim + 384) <= usize::MAX
        }),
{
    if segments.len() > 1 {
        assert forall|i: int| 0 <= i < segments.len() implies (cluster_of(
            #[trigger] segments[i],
            padded_dim,
            ex_bits,
        ).well_formed() <==> segment_is_whole(segments[i], padded_dim)) by {}
        if forall|i: int|
            0 <= i < segments.len() ==> segment_is_whole(#[trigger] segments[i], padded_dim) {
            assert forall|i: int| 0 <= i < segments.len() implies cluster_of(
                #[trigger] segments[i],
                padded_dim,
                ex_bits,
            ).well_formed() by {
                assert(segment_is_whole(segments[i], padded_dim));
            }
        } else {
            let i = choose|i: int|
                0 <= i < segments.len() && !segment_is_whole(#[trigger] segments[i], padded_dim);
            assert(!cluster_of(segments[i], padded_dim, ex_bits).well_formed());
        }
    }
}

/// Segments add up: one more brings its ids behind those before, and its vectors to their number.
pub proof fn law_segments_add_up(segments: Seq<LoadedModel>, n: int)
    requires
        1 <= n < segments.len(),
    ensures
        joined_ids(segments, 1) == segments[0].data.ids,
        joined_ids(segments, n + 1) == joined_ids(segments, n) + segments[n].data.ids,
        delta_count(segments, 1) == 0,
        delta_count(segments, n + 1) == delta_count(segments, n) + segments[n].num_vectors,
{
}

/// Where the vectors of a segment start in the cluster that is made of several.
pub open spec fn segment_start(segments: Seq<LoadedModel>, s: int) -> int {
    if s <= 0 {
        0
    } else {
        segments[0].num_vectors + delta_count(segments, s)
    }
}

proof fn lemma_segments_placed(
    segments: Seq<LoadedModel>,
    padded_dim: usize,
    ex_bits: usize,
    n: int,
    s: int,
    k: int,
)
    requires
        1 <= n <= segments.len(),
        0 <= s < n,
        0 <= k < segments[s].num_vectors,
        forall|i: int|
            0 <= i < n ==> segment_is_whole(#[trigger] segments[i], padded_dim),
    ensures
        ({
            let at = segment_start(segments, s) + k;
            let all = joined_vectors(segments, padded_dim, ex_bits, n);
            let q = cluster_of(segments[s], padded_dim, ex_bits).packed(k);
            &&& joined_ids(segments, n).len() == segment_start(segments, n)
            &&& all.len() == segment_start(segments, n)
            &&& 0 <= at < segment_start(segments, n)
            &&& joined_ids(segments, n)[at] == segments[s].data.ids[k]
            &&& all[at].delta == q.delta
            &&& all[at].vl == q.vl
            &&& all[at].f_add == q.f_add
            &&& all[at].f_rescale == q.f_rescale
            &&& all[at].f_error == q.f_error
            &&& ex_bits > 0 || s == 0 ==> all[at].ex_code == q.ex_code && all[at].f_add_ex
                == q.f_add_ex && all[at].f_rescale_ex == q.f_rescale_ex
        }),
    decreases n,
{
    assert(segment_is_whole(segments[0], padded_dim));
    assert(segment_is_whole(segments[n - 1], padded_dim));
    if n > 1 {
        if s < n - 1 {
            lemma_segments_placed(segments, padded_dim, ex_bits, n - 1, s, k);
        } else {
            lemma_joined_lengths(segments, padded_dim, ex_bits, n - 1);
        }
    }
}

proof fn lemma_joined_lengths(
    segments: Seq<LoadedModel>,
    padded_dim: usize,
    ex_bits: usize,
    n: int,
)
    requires
        1 <= n <= segments.len(),
        forall|i: int|
            0 <= i < n ==> segment_is_whole(#[trigger] segments[i], padded_dim),
    ensures
        joined_ids(segments, n).len() == segment_start(segments, n),
        joined_vectors(segments, padded_dim, ex_bits, n).len() == segment_start(segments, n),
        delta_count(segments, n) >= 0,
    decreases n,
{
    assert(segment_is_whole(segments[n - 1], padded_dim));
    if n > 1 {
        lemma_joined_lengths(segments, padded_dim, ex_bits, n - 1);
    }
}

/// A cluster that is made of segments has the vectors of each of them, in order, behind those of the
/// segments before.
pub proof fn law_loaded_vectors_come_from_segments(
    c: ClusterModel,
    segments: Seq<LoadedModel>,
    padded_dim: usize,
    ex_bits: usize,
    s: int,
    k: int,
)
    requires
        joins(c, segments, padded_dim, ex_bits, segments.len() as int),
        0 <= s < segments.len(),
        0 <= k < segments[s].num_vectors,
        forall|i: int|
            0 <= i < segments.len() ==> segment_is_whole(#[trigger] segments[i], padded_dim),
    ensures
        ({
            let at = segment_start(segments, s) + k;
            let q = cluster_of(segments[s], padded_dim, ex_bits).packed(k);
            &&& c.num_vectors == segment_start(segments, segments.len() as int)
            &&& 0 <= at < c.num_vectors
            &&& c.pending.len() == 0
            &&& c.centroid == segments[0].data.centroid
            &&& c.ids[at] == segments[s].data.ids[k]
            &&& c.packed(at).delta == segments[s].data.delta[k]
            &&& c.packed(at).vl == segments[s].data.vl[k]
            &&& c.packed(at).f_add == q.f_add
            &&& c.packed(at).f_rescale == q.f_rescale
            &&& c.packed(at).f_error == q.f_error
            &&& ex_bits > 0 ==> {
                &&& c.packed(at).ex_code == segments[s].data.ex_codes[k]
                &&& c.packed(at).f_add_ex == segments[s].data.f_add_ex[k]
                &&& c.packed(at).f_rescale_ex == segments[s].data.f_rescale_ex[k]
            }
        }),
{
    let n = segments.len() as int;
    let at = segment_start(segments, s) + k;
    lemma_segments_placed(segments, padded_dim, ex_bits, n, s, k);
    assert(segment_is_whole(segments[s], padded_dim));
    assert(segment_is_whole(segments[0], padded_dim));
    if n > 1 {
        assert(c.packed_vectors()[at] == c.packed(at));
    }
}

/// A saved index is refused exactly if one of its clusters is, and loads with the numbers of its
/// header and one cluster for each list of segments.
pub proof fn law_index_loads_by_clusters(
    m: IndexModel,
    h: ManifestHeaderModel,
    clusters: Seq<Seq<LoadedModel>>,
    i: int,
)
    requires
        0 <= i < clusters.len(),
    ensures
        load_fault(clusters, h.padded_dim, h.ex_bits, 0) is None <==> forall|k: int|
            0 <= k < clusters.len() ==> join_fault(
                #[trigger] clusters[k],
                h.padded_dim,
                h.ex_bits,
            ) is None,
        loads(m, h, clusters) ==> {
            &&& m.dim == h.dim
            &&& m.padded_dim == h.padded_dim
            &&& m.metric == h.metric
            &&& m.rotator_type == h.rotator_type
            &&& m.rotator_data == h.rotator_data
            &&& m.ex_bits == h.ex_bits
            &&& m.clusters.len() == clusters.len()
            &&& joins(
                m.clusters[i],
                clusters[i],
                h.padded_dim,
                h.ex_bits,
                clusters[i].len() as int,
            )
        },
{
    lemma_faults_add_up(clusters, h.padded_dim, h.ex_bits, 0);
}

proof fn lemma_faults_add_up(
    clusters: Seq<Seq<LoadedModel>>,
    padded_dim: usize,
    ex_bits: usize,
    from: int,
)
    requires
        0 <= from <= clusters.len(),
    ensures
        load_fault(clusters, padded_dim, ex_bits, from) is None <==> forall|k: int|
            from <= k < clusters.len() ==> join_fault(
                #[trigger] clusters[k],
                padded_dim,
                ex_bits,
            ) is None,
    decreases clusters.len() - from,
{
    if from < clusters.len() {
        lemma_faults_add_up(clusters, padded_dim, ex_bits, from + 1);
        let here = clusters[from];
    }
}

// ----------------------------------------------------------------------------
// Flushes
// ----------------------------------------------------------------------------

/// A flush writes, for each dirty cluster, one file more, which is the one that the manifest
/// names, and
/// which states the cluster and the version that the manifest states.
pub proof fn law_flushed_files_are_named(
    file: SegmentFile,
    map: Map<u32, Seq<EntryModel>>,
    m: IndexModel,
    new_only: bool,
    dirty: Seq<u32>,
    i: int,
)
    requires
        0 <= i < dirty.len(),
        flushed_file(file, map, m, new_only, dirty, i),
    ensures
        ({
            let cid = dirty[i];
            let before = flushed_map(map, m, new_only, dirty, i);
            let after = flushed_map(map, m, new_only, dirty, i + 1);
            let old = if before.contains_key(cid) {
                before[cid]
            } else {
                Seq::empty()
            };
            let entry = after[cid].last();
            &&& after.contains_key(cid)
            &&& after[cid] == old.push(entry)
            &&& entry.cluster_id == cid
            &&& entry.filename == file.filename@
            &&& file.filename@ == filename_of(cid, entry.version)
            &&& file.bytes@ == segment_bytes(next_segment(old, m, new_only, cid), entry.version)
            &&& word_at(file.bytes@, 4) == cid
            &&& word_at(file.bytes@, 8) == entry.version
        }),
{
    let cid = dirty[i];
    let before = flushed_map(map, m, new_only, dirty, i);
    let old = entries_of(before, cid);
    let entry = next_entry(old, m, new_only, cid);
    assert(flushed_map(map, m, new_only, dirty, i + 1) == before.insert(cid, old.push(entry)));
    assert(old.push(entry).last() == entry);
    law_segments_state_their_version(next_segment(old, m, new_only, cid), next_version(old));
}

/// Where the new vectors of a cluster start: behind those that its files hold, or at the front where
/// the index has new vectors alone.
pub open spec fn new_vectors_start(
    entries: Seq<EntryModel>,
    c: ClusterModel,
    new_only: bool,
) -> int {
    if new_only {
        0
    } else if held(entries) < c.num_vectors {
        held(entries)
    } else {
        c.num_vectors as int
    }
}

/// The next file of a cluster has its new vectors, and all of them, and the manifest states how many
/// they are and how long the file is.
pub proof fn law_next_segment_has_the_new(
    entries: Seq<EntryModel>,
    m: IndexModel,
    new_only: bool,
    cid: u32,
    k: int,
)
    requires
        cid < m.clusters.len(),
        m.clusters[cid as int].well_formed(),
        0 <= k,
        0 <= new_vectors_start(entries, m.clusters[cid as int], new_only),
        new_vectors_start(entries, m.clusters[cid as int], new_only) + k
            < m.clusters[cid as int].num_vectors,
    ensures
        ({
            let c = m.clusters[cid as int];
            let from = new_vectors_start(entries, c, new_only);
            let s = next_segment(entries, m, new_only, cid);
            let e = next_entry(entries, m, new_only, cid);
            let written = segment_bytes(s, e.version).len();
            &&& s.padded_dim == m.padded_dim
            &&& s.ex_bits == m.ex_bits
            &&& s.centroid == c.centroid
            &&& s.ids.len() == c.num_vectors - from
            &&& s.ids[k] == c.ids[from + k]
            &&& s.ex_codes[k] == c.ex_codes[from + k]
            &&& s.f_add_ex[k] == c.f_add_ex[from + k]
            &&& s.f_rescale_ex[k] == c.f_rescale_ex[from + k]
            &&& s.delta[k] == c.delta[from + k]
            &&& s.vl[k] == c.vl[from + k]
            &&& s.ids.len() <= 0xffff_ffff ==> e.num_vectors == s.ids.len()
            &&& written <= u64::MAX ==> e.file_size == written
        }),
{
}

/// Which indexes are saved: those whose numbers fit the format and whose clusters have a centroid of
/// all dimensions and as many ids as vectors.
pub proof fn law_saves_need(m: IndexModel)
    ensures
        save_fault(m) is None <==> {
            &&& m.dim <= 0xffff_ffff
            &&& m.padded_dim <= 0xffff_ffff
            &&& m.ex_bits <= 254
            &&& forall|k: int|
                0 <= k < m.clusters.len() ==> (#[trigger] m.clusters[k]).centroid.len()
                    == m.padded_dim && m.clusters[k].ids.len() == m.clusters[k].num_vectors
        },
{
    lemma_cluster_faults(m.clusters, m.padded_dim, 0);
}

proof fn lemma_cluster_faults(clusters: Seq<ClusterModel>, padded_dim: usize, from: int)
    requires
        0 <= from <= clusters.len(),
    ensures
        cluster_fault(clusters, padded_dim, from) is None <==> forall|k: int|
            from <= k < clusters.len() ==> (#[trigger] clusters[k]).centroid.len() == padded_dim
                && clusters[k].ids.len() == clusters[k].num_vectors,
    decreases clusters.len() - from,
{
    if from < clusters.len() {
        lemma_cluster_faults(clusters, padded_dim, from + 1);
        let here = clusters[from];
    }
}

} // verus!
