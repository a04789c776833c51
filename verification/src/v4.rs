//! An index as a manifest and one file per segment.
use crate::cluster::{ClusterData, ClusterModel};
use crate::decimal::{decimal, decimal4};
use crate::error::RabitqError;
use crate::index::{IndexModel, IvfRabitqIndex};
use crate::manifest::{
    entries_fit, entry_models, filename_of, key_order, law_manifest_round_trip,
    lemma_keys_below_unique, manifest_bytes, manifest_of_bytes, save_manifest, segment_filename,
    segment_map, ClusterManifestEntry, EntryModel, ManifestHeader, ManifestHeaderModel,
};
use crate::quantized::nested;
use crate::segment::{
    law_segment_round_trip, segment_bytes, segment_of_bytes, write_segment, ClusterSegmentData,
    SegmentModel,
};
use crate::v4_load::{cluster_of, joins, load_fault, loads, LoadedModel};
use std::collections::BTreeMap;
use vstd::prelude::*;
use vstd::utf8::encode_utf8;

verus! {

/// A file to be written.
#[derive(Debug)]
pub struct SegmentFile {
    pub filename: String,
    pub bytes: Vec<u8>,
}

/// The files that are written when an index is saved or flushed.
#[derive(Debug)]
pub struct V4Files {
    /// The segments, in order.
    pub segments: Vec<SegmentFile>,
    /// The manifest, to be written when all segments are.
    pub manifest: Vec<u8>,
}

/// The segment that a cluster is saved as.
pub open spec fn segment_of(
    cluster_id: u32,
    c: ClusterModel,
    padded_dim: usize,
    ex_bits: usize,
) -> SegmentModel {
    SegmentModel {
        cluster_id,
        centroid: c.centroid,
        padded_dim,
        ex_bits,
        ids: c.ids,
        batch_data: c.batch_data,
        ex_codes: c.ex_codes,
        f_add_ex: c.f_add_ex,
        f_rescale_ex: c.f_rescale_ex,
        delta: c.delta,
        vl: c.vl,
    }
}

/// The entry of a cluster that is saved as one segment.
pub open spec fn entry_of(
    cluster_id: u32,
    version: u32,
    c: ClusterModel,
    padded_dim: usize,
    ex_bits: usize,
) -> EntryModel {
    EntryModel {
        cluster_id,
        filename: filename_of(cluster_id, version),
        version,
        num_vectors: c.num_vectors as u32,
        file_size: segment_bytes(
            segment_of(cluster_id, c, padded_dim, ex_bits),
            version,
        ).len() as u64,
    }
}

/// The header of an index.
pub open spec fn header_of(m: IndexModel) -> ManifestHeaderModel {
    ManifestHeaderModel {
        dim: m.dim,
        padded_dim: m.padded_dim,
        metric: m.metric,
        rotator_type: m.rotator_type,
        rotator_data: m.rotator_data,
        ex_bits: m.ex_bits,
        total_bits: (m.ex_bits + 1) as usize,
    }
}

/// The map of an index whose first `n` clusters are saved as base segments.
pub open spec fn saved_map(m: IndexModel, n: int) -> Map<u32, Seq<EntryModel>> {
    Map::new(
        |k: u32| k < n,
        |k: u32| seq![entry_of(k, 0, m.clusters[k as int], m.padded_dim, m.ex_bits)],
    )
}

/// Copies codes.
pub(crate) fn copy_codes(codes: &[Vec<u8>]) -> (r: Vec<Vec<u8>>)
    ensures
        nested(r@) == nested(codes@),
{
    let mut r: Vec<Vec<u8>> = Vec::new();
    let mut i: usize = 0;
    assert(nested(r@) =~= nested(codes@).take(0));
    while i < codes.len()
        invariant
            i <= codes@.len(),
            nested(r@) == nested(codes@).take(i as int),
        decreases codes@.len() - i,
    {
        let code: Vec<u8> = vstd::slice::slice_to_vec(codes[i].as_slice());
        proof {
            crate::quantized::lemma_nested_push(r@, code);
        }
        r.push(code);
        i += 1;
        assert(nested(r@) =~= nested(codes@).take(i as int));
    }
    assert(nested(codes@).take(i as int) =~= nested(codes@));
    r
}

fn copy_bits(values: &Vec<u32>) -> (r: Vec<u32>)
    ensures
        r@ == values@,
{
    vstd::slice::slice_to_vec(values.as_slice())
}

impl ClusterSegmentData {
    /// The segment that a cluster is saved as. Pending vectors are not part of it.
    pub fn from_cluster_data(
        cluster_id: u32,
        cluster: &ClusterData,
        padded_dim: usize,
        ex_bits: usize,
    ) -> (seg: ClusterSegmentData)
        ensures
            seg@ == segment_of(cluster_id, cluster@, padded_dim, ex_bits),
    {
        ClusterSegmentData {
            cluster_id,
            centroid: copy_bits(&cluster.centroid),
            padded_dim,
            ex_bits,
            ids: vstd::slice::slice_to_vec(cluster.ids.as_slice()),
            batch_data: vstd::slice::slice_to_vec(cluster.batch_data.as_slice()),
            ex_codes_packed: copy_codes(cluster.ex_codes_packed.as_slice()),
            f_add_ex: copy_bits(&cluster.f_add_ex),
            f_rescale_ex: copy_bits(&cluster.f_rescale_ex),
            delta: copy_bits(&cluster.delta),
            vl: copy_bits(&cluster.vl),
        }
    }
}

/// The file and the entry of a segment of `num_vectors` vectors.
pub(crate) fn segment_file(seg: &ClusterSegmentData, num_vectors: usize, version: u32) -> (r: (
    SegmentFile,
    ClusterManifestEntry,
))
    ensures
        r.0.filename@ == filename_of(seg@.cluster_id, version),
        r.0.bytes@ == segment_bytes(seg@, version),
        r.1@ == (EntryModel {
            cluster_id: seg@.cluster_id,
            filename: filename_of(seg@.cluster_id, version),
            version,
            num_vectors: num_vectors as u32,
            file_size: segment_bytes(seg@, version).len() as u64,
        }),
{
    let bytes: Vec<u8> = write_segment(seg, version);
    let entry = ClusterManifestEntry {
        cluster_id: seg.cluster_id,
        segment_filename: segment_filename(seg.cluster_id, version),
        segment_version: version,
        num_vectors: num_vectors as u32,
        file_size: bytes.len() as u64,
    };
    (SegmentFile { filename: segment_filename(seg.cluster_id, version), bytes }, entry)
}

impl IvfRabitqIndex {
    /// The header of the index.
    pub(crate) fn manifest_header(&self) -> (header: ManifestHeader)
        requires
            self@.ex_bits < usize::MAX,
        ensures
            header@ == header_of(self@),
    {
        ManifestHeader {
            dim: self.dim,
            padded_dim: self.padded_dim,
            metric: self.metric,
            rotator_type: self.rotator.rotator_type,
            rotator_data: vstd::slice::slice_to_vec(self.rotator.data.as_slice()),
            ex_bits: self.ex_bits,
            total_bits: self.ex_bits + 1,
        }
    }

    /// The files that the index is saved as: a base segment for each cluster, and the manifest.
    pub fn save_to_v4_dir(&self) -> (files: V4Files)
        requires
            self@.clusters.len() <= u32::MAX,
            self@.ex_bits < usize::MAX,
        ensures
            files.manifest@ == manifest_bytes(
                header_of(self@),
                saved_map(self@, self@.clusters.len() as int),
                false,
            ),
            files.segments@.len() == self@.clusters.len(),
            forall|i: int|
                0 <= i < files.segments@.len() ==> {
                    &&& (#[trigger] files.segments@[i]).filename@ == filename_of(i as u32, 0)
                    &&& files.segments@[i].bytes@ == segment_bytes(
                        segment_of(
                            i as u32,
                            self@.clusters[i],
                            self@.padded_dim,
                            self@.ex_bits,
                        ),
                        0,
                    )
                },
    {
        broadcast use vstd::std_specs::btree::group_btree_axioms;

        let header: ManifestHeader = self.manifest_header();
        let ghost m = self@;
        let mut map: BTreeMap<u32, Vec<ClusterManifestEntry>> = BTreeMap::new();
        let mut segments: Vec<SegmentFile> = Vec::new();
        let mut i: usize = 0;
        assert(segment_map(map@) =~= saved_map(m, 0));
        while i < self.clusters.len()
            invariant
                i <= self.clusters@.len(),
                m == self@,
                m.clusters.len() <= u32::MAX,
                segment_map(map@) == saved_map(m, i as int),
                segments@.len() == i,
                forall|j: int|
                    0 <= j < segments@.len() ==> {
                        &&& (#[trigger] segments@[j]).filename@ == filename_of(j as u32, 0)
                        &&& segments@[j].bytes@ == segment_bytes(
                            segment_of(j as u32, m.clusters[j], m.padded_dim, m.ex_bits),
                            0,
                        )
                    },
            decreases self.clusters@.len() - i,
        {
            broadcast use vstd::std_specs::btree::group_btree_axioms;

            let cid: u32 = i as u32;
            let cluster = &self.clusters[i];
            assert(m.clusters[i as int] == cluster@);
            let seg: ClusterSegmentData = ClusterSegmentData::from_cluster_data(
                cid,
                cluster,
                self.padded_dim,
                self.ex_bits,
            );
            let made: (SegmentFile, ClusterManifestEntry) = segment_file(
                &seg,
                cluster.num_vectors,
                0,
            );
            let mut list: Vec<ClusterManifestEntry> = Vec::new();
            list.push(made.1);
            proof {
                assert(entry_models(list@) =~= seq![made.1@]);
                assert(segment_map(map@.insert(cid, list)) =~= segment_map(map@).insert(
                    cid,
                    entry_models(list@),
                ));
                assert(saved_map(m, i as int).insert(cid, entry_models(list@)) =~= saved_map(
                    m,
                    i + 1,
                ));
            }
            map.insert(cid, list);
            segments.push(made.0);
            i += 1;
        }
        V4Files { segments, manifest: save_manifest(&header, &map) }
    }
}

// ----------------------------------------------------------------------------
// What is saved is loaded
// ----------------------------------------------------------------------------

/// A cluster that a segment can hold and give back.
pub open spec fn cluster_fits_v4(c: ClusterModel) -> bool {
    &&& c.well_formed()
    &&& c.pending.len() == 0
    &&& c.num_vectors <= u32::MAX
    &&& c.batch_data.len() <= usize::MAX
    &&& forall|i: int| 0 <= i < c.ex_codes.len() ==> (#[trigger] c.ex_codes[i]).len() <= usize::MAX
}

/// An index that a manifest and segments can hold and give back.
pub open spec fn fits_v4(m: IndexModel) -> bool {
    &&& m.well_formed()
    &&& m.dim <= u32::MAX
    &&& m.padded_dim <= u32::MAX
    &&& m.ex_bits < u8::MAX
    &&& m.rotator_data.len() <= usize::MAX
    &&& m.clusters.len() <= u32::MAX
    &&& forall|i: int| 0 <= i < m.clusters.len() ==> cluster_fits_v4(#[trigger] m.clusters[i])
}

proof fn lemma_decimal_length(n: int)
    requires
        0 <= n <= u32::MAX,
    ensures
        decimal4(n).len() <= 10,
{
    reveal_with_fuel(decimal, 10);
}

proof fn lemma_encoded_length(chars: Seq<char>)
    ensures
        encode_utf8(chars).len() <= 4 * chars.len(),
    decreases chars.len(),
{
    if chars.len() > 0 {
        lemma_encoded_length(chars.drop_first());
    }
}

/// The name of a segment file fits the format.
pub proof fn lemma_filename_fits(cluster_id: u32, version: u32)
    ensures
        encode_utf8(filename_of(cluster_id, version)).len() <= u32::MAX,
{
    lemma_decimal_length(cluster_id as int);
    lemma_decimal_length(version as int);
    reveal_strlit("cluster_");
    reveal_strlit("_v");
    reveal_strlit(".seg");
    assert(filename_of(cluster_id, version).len() <= 40);
    lemma_encoded_length(filename_of(cluster_id, version));
}

proof fn lemma_saved_keys(m: IndexModel, n: int)
    requires
        0 <= n <= u32::MAX,
    ensures
        key_order(saved_map(m, n).dom()) == Seq::new(n as nat, |i: int| i as u32),
{
    let s = Seq::new(n as nat, |i: int| i as u32);
    let keys = saved_map(m, n).dom();
    assert forall|k: u32| k < 4294967296 implies (#[trigger] keys.contains(k) <==> s.contains(
        k,
    )) by {
        if keys.contains(k) {
            assert(s[k as int] == k);
        }
    }
    lemma_keys_below_unique(s, keys, 4294967296);
}

/// The segments of an index that was saved, as they are read back.
pub open spec fn saved_segments(m: IndexModel) -> Seq<Seq<LoadedModel>> {
    Seq::new(
        m.clusters.len(),
        |i: int|
            seq![
                LoadedModel {
                    num_vectors: saved_map(m, m.clusters.len() as int)[i as u32][0].num_vectors,
                    data: segment_of(i as u32, m.clusters[i], m.padded_dim, m.ex_bits),
                },
            ],
    )
}

proof fn lemma_no_load_fault(m: IndexModel, from: int)
    requires
        0 <= from,
    ensures
        load_fault(saved_segments(m), m.padded_dim, m.ex_bits, from) is None,
    decreases m.clusters.len() - from,
{
    if from < m.clusters.len() {
        lemma_no_load_fault(m, from + 1);
    }
}

proof fn lemma_manifest_reads_back(m: IndexModel)
    requires
        fits_v4(m),
    ensures
        manifest_of_bytes(
            manifest_bytes(header_of(m), saved_map(m, m.clusters.len() as int), false),
        ) == Ok::<(ManifestHeaderModel, Map<u32, Seq<EntryModel>>), RabitqError>(
            (header_of(m), saved_map(m, m.clusters.len() as int)),
        ),
{
    let n = m.clusters.len() as int;
    let map = saved_map(m, n);
    lemma_saved_keys(m, n);
    assert forall|key: u32| map.contains_key(key) implies entries_fit(key, #[trigger] map[key]) by {
        lemma_filename_fits(key, 0);
    }
    law_manifest_round_trip(header_of(m), map, false, Seq::empty());
    let bytes = manifest_bytes(header_of(m), map, false);
    assert(bytes + Seq::<u8>::empty() =~= bytes);
}

/// The file of a cluster that fits reads back as its segment.
pub proof fn lemma_segment_reads_back(
    cid: u32,
    version: u32,
    c: ClusterModel,
    padded_dim: usize,
    ex_bits: usize,
)
    requires
        cluster_fits_v4(c),
        c.padded_dim == padded_dim,
        padded_dim <= u32::MAX,
        ex_bits <= u8::MAX,
    ensures
        segment_of_bytes(segment_bytes(segment_of(cid, c, padded_dim, ex_bits), version)) == Ok::<
            SegmentModel,
            RabitqError,
        >(segment_of(cid, c, padded_dim, ex_bits)),
{
    let s = segment_of(cid, c, padded_dim, ex_bits);
    law_segment_round_trip(s, version, Seq::empty());
    assert(segment_bytes(s, version) + Seq::<u8>::empty() =~= segment_bytes(s, version));
}

/// The base segment of a cluster stands for it.
pub proof fn lemma_saved_segment(m: IndexModel, i: int)
    requires
        fits_v4(m),
        0 <= i < m.clusters.len(),
    ensures
        saved_segments(m)[i].len() == 1,
        saved_segments(m)[i][0].data == segment_of(
            i as u32,
            m.clusters[i],
            m.padded_dim,
            m.ex_bits,
        ),
        cluster_of(saved_segments(m)[i][0], m.padded_dim, m.ex_bits) == m.clusters[i],
{
    assert(cluster_fits_v4(m.clusters[i]));
    let c = cluster_of(saved_segments(m)[i][0], m.padded_dim, m.ex_bits);
    assert(c =~= m.clusters[i]);
}

#[verifier::rlimit(40)]
proof fn lemma_loads_back(m: IndexModel, loaded: IndexModel)
    requires
        fits_v4(m),
        loads(loaded, header_of(m), saved_segments(m)),
    ensures
        loaded == m,
{
    assert forall|i: int| 0 <= i < m.clusters.len() implies loaded.clusters[i]
        == m.clusters[i] by {
        lemma_saved_segment(m, i);
        assert(joins(
            loaded.clusters[i],
            saved_segments(m)[i],
            m.padded_dim,
            m.ex_bits,
            saved_segments(m)[i].len() as int,
        ));
    }
    assert(loaded.clusters =~= m.clusters);
    assert(loaded =~= m);
}

/// What is saved is loaded: the manifest of an index reads back as its header and map, the clusters
/// stand there in order, each segment file reads back as its cluster, and the index that these
/// load as is the one that was saved.
#[verifier::rlimit(40)]
pub proof fn law_load_of_v4_save(m: IndexModel, loaded: IndexModel)
    requires
        fits_v4(m),
        loads(loaded, header_of(m), saved_segments(m)),
    ensures
        manifest_of_bytes(
            manifest_bytes(header_of(m), saved_map(m, m.clusters.len() as int), false),
        ) == Ok::<(ManifestHeaderModel, Map<u32, Seq<EntryModel>>), RabitqError>(
            (header_of(m), saved_map(m, m.clusters.len() as int)),
        ),
        key_order(saved_map(m, m.clusters.len() as int).dom()) == Seq::new(
            m.clusters.len(),
            |i: int| i as u32,
        ),
        forall|i: int|
            0 <= i < m.clusters.len() ==> segment_of_bytes(
                segment_bytes(
                    segment_of(i as u32, #[trigger] m.clusters[i], m.padded_dim, m.ex_bits),
                    0,
                ),
            ) == Ok::<SegmentModel, RabitqError>(saved_segments(m)[i][0].data),
        load_fault(saved_segments(m), m.padded_dim, m.ex_bits, 0) is None,
        loaded == m,
{
    lemma_saved_keys(m, m.clusters.len() as int);
    lemma_no_load_fault(m, 0);
    lemma_manifest_reads_back(m);
    lemma_loads_back(m, loaded);
    assert forall|i: int| 0 <= i < m.clusters.len() implies segment_of_bytes(
        segment_bytes(
            segment_of(i as u32, #[trigger] m.clusters[i], m.padded_dim, m.ex_bits),
            0,
        ),
    ) == Ok::<SegmentModel, RabitqError>(saved_segments(m)[i][0].data) by {
        lemma_saved_segment(m, i);
        lemma_segment_reads_back(i as u32, 0, m.clusters[i], m.padded_dim, m.ex_bits);
    }
}

} // verus!
