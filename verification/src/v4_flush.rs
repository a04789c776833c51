//! Bringing saved files up to date: each flush adds segments with the vectors that are new, and
//! leaves the segments that stand as they are.
use crate::cluster::{
    batches, empty_cluster, lemma_slots_push, slot_of, stride, with_slots, ClusterData,
    ClusterModel,
};
use crate::index::{IndexModel, IvfRabitqIndex};
use crate::manifest::{
    entry_models, filename_of, key_order, manifest_bytes, ordered_keys, save_manifest, segment_map,
    ClusterManifestEntry, EntryModel, ManifestHeader,
};
use crate::quantized::{nested, QuantizedVector};
use crate::segment::{segment_bytes, ClusterSegmentData, SegmentModel};
use crate::types::Rotator;
use crate::v4::{
    copy_codes, entry_of, header_of, segment_file, segment_of, SegmentFile, V4Files,
};
use std::collections::BTreeMap;
use vstd::prelude::*;

verus! {

// ----------------------------------------------------------------------------
// What is new
// ----------------------------------------------------------------------------

/// The entries of a cluster in a map.
pub open spec fn entries_of(map: Map<u32, Seq<EntryModel>>, cid: u32) -> Seq<EntryModel> {
    if map.contains_key(cid) {
        map[cid]
    } else {
        Seq::empty()
    }
}

/// Number of vectors that the segments of entries hold together.
pub open spec fn held(entries: Seq<EntryModel>) -> int
    decreases entries.len(),
{
    if entries.len() == 0 {
        0
    } else {
        held(entries.drop_last()) + entries.last().num_vectors
    }
}

/// Number of vectors that the segments of some clusters hold together.
pub open spec fn held_by(map: Map<u32, Seq<EntryModel>>, keys: Seq<u32>) -> int
    decreases keys.len(),
{
    if keys.len() == 0 {
        0
    } else {
        held_by(map, keys.drop_last()) + held(map[keys.last()])
    }
}

/// Number of packed vectors of a cluster that its segments already hold: the first ones.
pub open spec fn saved_count(entries: Seq<EntryModel>, c: ClusterModel) -> int {
    if held(entries) < c.num_vectors {
        held(entries)
    } else {
        c.num_vectors as int
    }
}

/// The packed vectors of a cluster from `from` on, as a cluster of their own. Without any left out
/// the batches stay as they are; else the vectors are packed anew.
pub open spec fn delta_of(c: ClusterModel, from: int) -> ClusterModel {
    let n = c.num_vectors as int;
    ClusterModel {
        centroid: c.centroid,
        ids: c.ids.subrange(from, n),
        batch_data: if from == 0 {
            c.batch_data
        } else {
            with_slots(Seq::empty(), c.padded_dim as int, 0, c.slots_from(from))
        },
        ex_codes: c.ex_codes.subrange(from, n),
        f_add_ex: c.f_add_ex.subrange(from, n),
        f_rescale_ex: c.f_rescale_ex.subrange(from, n),
        delta: c.delta.subrange(from, n),
        vl: c.vl.subrange(from, n),
        num_vectors: (n - from) as usize,
        padded_dim: c.padded_dim,
        ex_bits: c.ex_bits,
        pending_ids: Seq::empty(),
        pending: Seq::empty(),
    }
}

/// Whether a version is in use.
pub open spec fn in_use(entries: Seq<EntryModel>, version: int) -> bool {
    exists|j: int| 0 <= j < entries.len() && (#[trigger] entries[j]).version == version
}

/// The first version from `from` on that is not in use.
pub open spec fn free_from(entries: Seq<EntryModel>, from: int) -> int
    decreases 4294967295 - from,
{
    if from >= 4294967295 || !in_use(entries, from) {
        from
    } else {
        free_from(entries, from + 1)
    }
}

/// The largest version among entries.
pub open spec fn newest(entries: Seq<EntryModel>) -> u32
    decreases entries.len(),
{
    if entries.len() == 0 {
        0
    } else if entries.len() == 1 || newest(entries.drop_last()) < entries.last().version {
        entries.last().version
    } else {
        newest(entries.drop_last())
    }
}

/// The version of the next segment of a cluster: 0 for a cluster without segments, else one above
/// the newest. Behind the largest number it starts over with the first that is not in use.
pub open spec fn next_version(entries: Seq<EntryModel>) -> u32 {
    if entries.len() == 0 {
        0
    } else if newest(entries) < u32::MAX {
        (newest(entries) + 1) as u32
    } else {
        free_from(entries, 0) as u32
    }
}

/// The new vectors of a cluster that has been saved as `entries`: those behind the saved ones, or
/// all where the index holds new vectors only.
pub open spec fn next_delta(
    entries: Seq<EntryModel>,
    c: ClusterModel,
    new_only: bool,
) -> ClusterModel {
    delta_of(
        c,
        if new_only {
            0
        } else {
            saved_count(entries, c)
        },
    )
}

/// The segment of the new vectors of a cluster that has been saved as `entries`.
pub open spec fn next_segment(
    entries: Seq<EntryModel>,
    m: IndexModel,
    new_only: bool,
    cid: u32,
) -> SegmentModel {
    segment_of(cid, next_delta(entries, m.clusters[cid as int], new_only), m.padded_dim, m.ex_bits)
}

/// The entry of that segment.
pub open spec fn next_entry(
    entries: Seq<EntryModel>,
    m: IndexModel,
    new_only: bool,
    cid: u32,
) -> EntryModel {
    entry_of(
        cid,
        next_version(entries),
        next_delta(entries, m.clusters[cid as int], new_only),
        m.padded_dim,
        m.ex_bits,
    )
}

/// The map after the first `n` dirty clusters have been flushed: each has one entry more.
pub open spec fn flushed_map(
    map: Map<u32, Seq<EntryModel>>,
    m: IndexModel,
    new_only: bool,
    dirty: Seq<u32>,
    n: int,
) -> Map<u32, Seq<EntryModel>>
    decreases n,
{
    if n <= 0 {
        map
    } else {
        let before = flushed_map(map, m, new_only, dirty, n - 1);
        let cid = dirty[n - 1];
        let entries = entries_of(before, cid);
        before.insert(cid, entries.push(next_entry(entries, m, new_only, cid)))
    }
}

/// File `i` of a flush: the segment of the new vectors of its cluster, under the next version.
pub open spec fn flushed_file(
    file: SegmentFile,
    map: Map<u32, Seq<EntryModel>>,
    m: IndexModel,
    new_only: bool,
    dirty: Seq<u32>,
    i: int,
) -> bool {
    let cid = dirty[i];
    let entries = entries_of(flushed_map(map, m, new_only, dirty, i), cid);
    &&& file.filename@ == filename_of(cid, next_version(entries))
    &&& file.bytes@ == segment_bytes(
        next_segment(entries, m, new_only, cid),
        next_version(entries),
    )
}

// ----------------------------------------------------------------------------
// Flushing changed clusters
// ----------------------------------------------------------------------------

fn newest_version(entries: &Vec<ClusterManifestEntry>) -> (v: u32)
    requires
        entries@.len() > 0,
    ensures
        v == newest(entry_models(entries@)),
{
    let ghost all = entry_models(entries@);
    let mut best: u32 = entries[0].segment_version;
    let mut i: usize = 1;
    proof {
        let one = all.take(1);
        assert(one.last() == entries@[0]@);
    }
    while i < entries.len()
        invariant
            1 <= i <= entries@.len(),
            all == entry_models(entries@),
            best == newest(all.take(i as int)),
        decreases entries@.len() - i,
    {
        proof {
            let next = all.take(i + 1);
            assert(next.drop_last() =~= all.take(i as int));
            assert(next.last() == entries@[i as int]@);
        }
        if best < entries[i].segment_version {
            best = entries[i].segment_version;
        }
        i += 1;
    }
    assert(all.take(i as int) =~= all);
    best
}

fn is_in_use(entries: &Vec<ClusterManifestEntry>, version: u32) -> (r: bool)
    ensures
        r == in_use(entry_models(entries@), version as int),
{
    let ghost all = entry_models(entries@);
    let mut i: usize = 0;
    while i < entries.len()
        invariant
            i <= entries@.len(),
            all == entry_models(entries@),
            forall|j: int| 0 <= j < i ==> (#[trigger] all[j]).version != version,
        decreases entries@.len() - i,
    {
        if entries[i].segment_version == version {
            assert(all[i as int].version == version);
            return true;
        }
        i += 1;
    }
    false
}

fn find_next_version(entries: &Vec<ClusterManifestEntry>) -> (v: u32)
    ensures
        v == next_version(entry_models(entries@)),
{
    if entries.len() == 0 {
        return 0;
    }
    let last: u32 = newest_version(entries);
    if last < u32::MAX {
        return last + 1;
    }
    let ghost all = entry_models(entries@);
    let mut v: u32 = 0;
    while v < u32::MAX && is_in_use(entries, v)
        invariant
            all == entry_models(entries@),
            free_from(all, 0) == free_from(all, v as int),
        decreases u32::MAX - v,
    {
        v += 1;
    }
    v
}

fn count_saved(entries: &Vec<ClusterManifestEntry>, num_vectors: usize) -> (from: usize)
    ensures
        from == if held(entry_models(entries@)) < num_vectors {
            held(entry_models(entries@))
        } else {
            num_vectors as int
        },
{
    let ghost all = entry_models(entries@);
    let mut left: usize = num_vectors;
    let mut i: usize = 0;
    assert(all.take(0) =~= Seq::empty());
    while i < entries.len()
        invariant
            i <= entries@.len(),
            all == entry_models(entries@),
            0 <= held(all.take(i as int)),
            left == if held(all.take(i as int)) < num_vectors {
                num_vectors - held(all.take(i as int))
            } else {
                0
            },
        decreases entries@.len() - i,
    {
        proof {
            let next = all.take(i + 1);
            assert(next.drop_last() =~= all.take(i as int));
            assert(next.last() == entries@[i as int]@);
        }
        let count: usize = entries[i].num_vectors as usize;
        left = if left < count { 0 } else { left - count };
        i += 1;
    }
    assert(all.take(i as int) =~= all);
    num_vectors - left
}

/// A part of what can be addressed can be addressed.
pub proof fn lemma_room_for_part(n: int, part: int, padded_dim: int)
    requires
        0 <= part <= n,
        0 <= padded_dim,
        batches(n) * stride(padded_dim) <= usize::MAX,
    ensures
        part + 31 <= usize::MAX,
        batches(part) * stride(padded_dim) <= usize::MAX,
{
    let st = stride(padded_dim);
    assert(batches(part) * st <= batches(n) * st && 384 * batches(n) <= batches(n) * st)
        by (nonlinear_arith)
        requires
            0 <= batches(part) <= batches(n),
            384 <= st,
    ;
    assert(n <= 32 * batches(n));
}

impl ClusterData {
    /// Packs the vectors from `from` on anew.
    fn packed_anew(&self, from: usize) -> (data: Vec<u8>)
        requires
            self@.well_formed(),
            from <= self@.num_vectors,
        ensures
            data@ == with_slots(
                Seq::empty(),
                self@.padded_dim as int,
                0,
                self@.slots_from(from as int),
            ),
    {
        let n: usize = self.num_vectors;
        let ghost slots = self@.slots_from(from as int);
        let centroid: Vec<u32> = vstd::slice::slice_to_vec(self.centroid.as_slice());
        let mut fresh = ClusterData::new(centroid, self.padded_dim, self.ex_bits);
        let mut i: usize = from;
        assert(slots.take(0) =~= Seq::empty());
        assert(self.batch_data.len() == self@.batch_data.len());
        assert(0 * stride(self@.padded_dim as int) == 0);
        while i < n
            invariant
                from <= i <= n,
                n == self@.num_vectors,
                self@.well_formed(),
                self@.batch_data.len() <= usize::MAX,
                slots == self@.slots_from(from as int),
                fresh@.well_formed(),
                fresh@.num_vectors == i - from,
                fresh@.padded_dim == self@.padded_dim,
                fresh@.batch_data == with_slots(
                    Seq::empty(),
                    self@.padded_dim as int,
                    0,
                    slots.take(i - from),
                ),
            decreases n - i,
        {
            proof {
                crate::cluster::lemma_has_batch(self@, i as int);
                lemma_room_for_part(n as int, i - from + 1, self@.padded_dim as int);
            }
            let mut q: QuantizedVector = self.packed_vector(i);
            if self.padded_dim % 8 != 0 {
                q.binary_code_packed.pop();
            }
            proof {
                assert(q@.code =~= self@.slot(i as int).code);
                assert(slot_of(q@) =~= slots[i - from]);
                lemma_slots_push(
                    Seq::empty(),
                    self@.padded_dim as int,
                    0,
                    slots.take(i - from),
                    slot_of(q@),
                );
                assert(slots.take(i - from + 1) =~= slots.take(i - from).push(slot_of(q@)));
            }
            fresh.pack_vector(self.ids[i], &q);
            i += 1;
        }
        assert(slots.take(i - from) =~= slots);
        fresh.batch_data
    }
}

fn tail_bits(values: &Vec<u32>, from: usize, n: usize) -> (r: Vec<u32>)
    requires
        from <= n <= values@.len(),
    ensures
        r@ == values@.subrange(from as int, n as int),
{
    vstd::slice::slice_to_vec(vstd::slice::slice_subrange(values.as_slice(), from, n))
}

impl ClusterSegmentData {
    /// The segment of the packed vectors of a cluster from `from` on.
    pub fn delta_of_cluster(
        cluster_id: u32,
        cluster: &ClusterData,
        from: usize,
        padded_dim: usize,
        ex_bits: usize,
    ) -> (seg: ClusterSegmentData)
        requires
            cluster@.well_formed(),
            from <= cluster@.num_vectors,
        ensures
            seg@ == segment_of(cluster_id, delta_of(cluster@, from as int), padded_dim, ex_bits),
    {
        let n: usize = cluster.num_vectors;
        let batch_data: Vec<u8> = if from == 0 {
            vstd::slice::slice_to_vec(cluster.batch_data.as_slice())
        } else {
            cluster.packed_anew(from)
        };
        let codes = vstd::slice::slice_subrange(cluster.ex_codes_packed.as_slice(), from, n);
        assert(nested(codes@) =~= nested(cluster.ex_codes_packed@).subrange(from as int, n as int));
        let seg = ClusterSegmentData {
            cluster_id,
            centroid: vstd::slice::slice_to_vec(cluster.centroid.as_slice()),
            padded_dim,
            ex_bits,
            ids: vstd::slice::slice_to_vec(
                vstd::slice::slice_subrange(cluster.ids.as_slice(), from, n),
            ),
            batch_data,
            ex_codes_packed: copy_codes(codes),
            f_add_ex: tail_bits(&cluster.f_add_ex, from, n),
            f_rescale_ex: tail_bits(&cluster.f_rescale_ex, from, n),
            delta: tail_bits(&cluster.delta, from, n),
            vl: tail_bits(&cluster.vl, from, n),
        };
        assert(seg@ =~= segment_of(
            cluster_id,
            delta_of(cluster@, from as int),
            padded_dim,
            ex_bits,
        ));
        seg
    }
}

impl IvfRabitqIndex {
    /// Adds the segment of the new vectors of a cluster to its entries.
    fn add_segment(
        &self,
        list: &mut Vec<ClusterManifestEntry>,
        new_only: bool,
        cid: u32,
    ) -> (file: SegmentFile)
        requires
            self@.well_formed(),
            cid < self@.clusters.len(),
        ensures
            entry_models(final(list)@) == entry_models(old(list)@).push(
                next_entry(entry_models(old(list)@), self@, new_only, cid),
            ),
            file.filename@ == filename_of(cid, next_version(entry_models(old(list)@))),
            file.bytes@ == segment_bytes(
                next_segment(entry_models(old(list)@), self@, new_only, cid),
                next_version(entry_models(old(list)@)),
            ),
    {
        let ghost before = list@;
        let cluster = &self.clusters[cid as usize];
        assert(self@.clusters[cid as int] == cluster@);
        let version: u32 = find_next_version(list);
        let from: usize = if new_only { 0 } else { count_saved(list, cluster.num_vectors) };
        let seg: ClusterSegmentData = ClusterSegmentData::delta_of_cluster(
            cid,
            cluster,
            from,
            self.padded_dim,
            self.ex_bits,
        );
        let made: (SegmentFile, ClusterManifestEntry) = segment_file(
            &seg,
            cluster.num_vectors - from,
            version,
        );
        list.push(made.1);
        assert(entry_models(list@) =~= entry_models(before).push(made.1@));
        made.0
    }

    /// The files of a flush.
    fn flush_files(
        &self,
        cluster_map: BTreeMap<u32, Vec<ClusterManifestEntry>>,
        new_only: bool,
        dirty_cids: &[u32],
    ) -> (files: V4Files)
        requires
            self@.well_formed(),
            self@.ex_bits < usize::MAX,
            forall|i: int|
                0 <= i < dirty_cids@.len() ==> (#[trigger] dirty_cids@[i]) < self@.clusters.len(),
        ensures
            files.manifest@ == manifest_bytes(
                header_of(self@),
                flushed_map(
                    segment_map(cluster_map@),
                    self@,
                    new_only,
                    dirty_cids@,
                    dirty_cids@.len() as int,
                ),
                false,
            ),
            files.segments@.len() == dirty_cids@.len(),
            forall|i: int|
                0 <= i < files.segments@.len() ==> flushed_file(
                    #[trigger] files.segments@[i],
                    segment_map(cluster_map@),
                    self@,
                    new_only,
                    dirty_cids@,
                    i,
                ),
    {
        let ghost start = segment_map(cluster_map@);
        let ghost m = self@;
        let mut map: BTreeMap<u32, Vec<ClusterManifestEntry>> = cluster_map;
        let mut segments: Vec<SegmentFile> = Vec::new();
        let mut i: usize = 0;
        while i < dirty_cids.len()
            invariant
                i <= dirty_cids@.len(),
                m == self@,
                m.well_formed(),
                forall|j: int|
                    0 <= j < dirty_cids@.len() ==> (#[trigger] dirty_cids@[j]) < m.clusters.len(),
                segment_map(map@) == flushed_map(start, m, new_only, dirty_cids@, i as int),
                segments@.len() == i,
                forall|j: int|
                    0 <= j < segments@.len() ==> flushed_file(
                        #[trigger] segments@[j],
                        start,
                        m,
                        new_only,
                        dirty_cids@,
                        j,
                    ),
            decreases dirty_cids@.len() - i,
        {
            broadcast use vstd::std_specs::btree::group_btree_axioms;

            let cid: u32 = dirty_cids[i];
            let ghost before = map@;
            let ghost models = segment_map(before);
            let mut list: Vec<ClusterManifestEntry> = match map.remove(&cid) {
                Some(list) => list,
                None => Vec::new(),
            };
            let ghost entries = entry_models(list@);
            proof {
                if before.contains_key(cid) {
                    assert(models[cid] == entries);
                } else {
                    assert(entries =~= Seq::empty());
                }
                assert(entries == entries_of(models, cid));
            }
            let file: SegmentFile = self.add_segment(&mut list, new_only, cid);
            proof {
                assert(segment_map(map@.insert(cid, list)) =~= models.insert(
                    cid,
                    entries.push(next_entry(entries, m, new_only, cid)),
                ));
            }
            map.insert(cid, list);
            segments.push(file);
            i += 1;
        }
        let header: ManifestHeader = self.manifest_header();
        V4Files { segments, manifest: save_manifest(&header, &map) }
    }

    /// The files that bring a saved index up to date. Each dirty cluster gets one segment more,
    /// with the packed vectors that its segments do not hold yet; pending vectors wait until they
    /// are packed. The segments that stand are neither read nor written nor removed, and the
    /// manifest names them and the new ones.
    pub fn flush_v4(
        &self,
        cluster_map: BTreeMap<u32, Vec<ClusterManifestEntry>>,
        dirty_cids: &[u32],
    ) -> (files: V4Files)
        requires
            self@.well_formed(),
            self@.ex_bits < usize::MAX,
            forall|i: int|
                0 <= i < dirty_cids@.len() ==> (#[trigger] dirty_cids@[i]) < self@.clusters.len(),
        ensures
            files.manifest@ == manifest_bytes(
                header_of(self@),
                flushed_map(
                    segment_map(cluster_map@),
                    self@,
                    false,
                    dirty_cids@,
                    dirty_cids@.len() as int,
                ),
                false,
            ),
            files.segments@.len() == dirty_cids@.len(),
            forall|i: int|
                0 <= i < files.segments@.len() ==> flushed_file(
                    #[trigger] files.segments@[i],
                    segment_map(cluster_map@),
                    self@,
                    false,
                    dirty_cids@,
                    i,
                ),
    {
        self.flush_files(cluster_map, false, dirty_cids)
    }

    /// The files that add an index of new vectors to a saved one. Each dirty cluster gets one
    /// segment more, with all packed vectors; pending vectors wait until they are packed. The
    /// segments that stand are neither read nor written nor removed, and the manifest names them
    /// and the new ones.
    pub fn flush_inserted(
        &self,
        cluster_map: BTreeMap<u32, Vec<ClusterManifestEntry>>,
        dirty_cids: &[u32],
    ) -> (files: V4Files)
        requires
            self@.well_formed(),
            self@.ex_bits < usize::MAX,
            forall|i: int|
                0 <= i < dirty_cids@.len() ==> (#[trigger] dirty_cids@[i]) < self@.clusters.len(),
        ensures
            files.manifest@ == manifest_bytes(
                header_of(self@),
                flushed_map(
                    segment_map(cluster_map@),
                    self@,
                    true,
                    dirty_cids@,
                    dirty_cids@.len() as int,
                ),
                false,
            ),
            files.segments@.len() == dirty_cids@.len(),
            forall|i: int|
                0 <= i < files.segments@.len() ==> flushed_file(
                    #[trigger] files.segments@[i],
                    segment_map(cluster_map@),
                    self@,
                    true,
                    dirty_cids@,
                    i,
                ),
    {
        self.flush_files(cluster_map, true, dirty_cids)
    }

    /// An index of a header and centroids without vectors, ready for insertion.
    pub fn from_centroids(header: ManifestHeader, centroids: Vec<Vec<u32>>) -> (index:
        IvfRabitqIndex)
        ensures
            index@ == (IndexModel {
                dim: header@.dim,
                padded_dim: header@.padded_dim,
                metric: header@.metric,
                rotator_type: header@.rotator_type,
                rotator_data: header@.rotator_data,
                clusters: Seq::new(
                    centroids@.len(),
                    |c: int|
                        empty_cluster(centroids@[c]@, header@.padded_dim, header@.ex_bits),
                ),
                ex_bits: header@.ex_bits,
            }),
    {
        let padded_dim: usize = header.padded_dim;
        let ex_bits: usize = header.ex_bits;
        let mut clusters: Vec<ClusterData> = Vec::new();
        for centroid in it: centroids
            invariant
                it.seq() == centroids@,
                clusters@.len() == it.index(),
                forall|c: int|
                    0 <= c < clusters@.len() ==> (#[trigger] clusters@[c])@ == empty_cluster(
                        centroids@[c]@,
                        padded_dim,
                        ex_bits,
                    ),
        {
            clusters.push(ClusterData::new(centroid, padded_dim, ex_bits));
        }
        let index = IvfRabitqIndex {
            dim: header.dim,
            padded_dim,
            metric: header.metric,
            rotator: Rotator { rotator_type: header.rotator_type, data: header.rotator_data },
            clusters,
            ex_bits,
        };
        assert(index@.clusters =~= Seq::new(
            centroids@.len(),
            |c: int| empty_cluster(centroids@[c]@, padded_dim, ex_bits),
        ));
        index
    }
}

// ----------------------------------------------------------------------------
// What there is to count
// ----------------------------------------------------------------------------

proof fn lemma_held_grows(entries: Seq<EntryModel>, few: int)
    requires
        0 <= few <= entries.len(),
    ensures
        0 <= held(entries.take(few)) <= held(entries),
    decreases entries.len(),
{
    if few == entries.len() {
        assert(entries.take(few) =~= entries);
        if few > 0 {
            lemma_held_grows(entries.drop_last(), few - 1);
        }
    } else {
        lemma_held_grows(entries.drop_last(), few);
        assert(entries.drop_last().take(few) =~= entries.take(few));
    }
}

proof fn lemma_held_by_grows(map: Map<u32, Seq<EntryModel>>, keys: Seq<u32>, few: int)
    requires
        0 <= few <= keys.len(),
    ensures
        0 <= held_by(map, keys.take(few)) <= held_by(map, keys),
    decreases keys.len(),
{
    if keys.len() > 0 {
        lemma_held_grows(map[keys.last()], map[keys.last()].len() as int);
        assert(map[keys.last()].take(map[keys.last()].len() as int) =~= map[keys.last()]);
    }
    if few == keys.len() {
        assert(keys.take(few) =~= keys);
        if few > 0 {
            lemma_held_by_grows(map, keys.drop_last(), few - 1);
        }
    } else {
        lemma_held_by_grows(map, keys.drop_last(), few);
        assert(keys.drop_last().take(few) =~= keys.take(few));
    }
}

/// Adds the vectors that the segments of entries hold to a sum; `None` where it grows too large.
fn add_held(sum: u64, entries: &Vec<ClusterManifestEntry>) -> (r: Option<u64>)
    ensures
        match r {
            Some(n) => n == sum + held(entry_models(entries@)),
            None => sum + held(entry_models(entries@)) > u64::MAX,
        },
{
    let ghost all = entry_models(entries@);
    let mut n: u64 = sum;
    let mut i: usize = 0;
    assert(all.take(0) =~= Seq::empty());
    while i < entries.len()
        invariant
            i <= entries@.len(),
            all == entry_models(entries@),
            n == sum + held(all.take(i as int)),
        decreases entries@.len() - i,
    {
        let more: u64 = entries[i].num_vectors as u64;
        proof {
            let next = all.take(i + 1);
            assert(next.drop_last() =~= all.take(i as int));
            assert(next.last() == entries@[i as int]@);
            lemma_held_grows(all, i + 1);
        }
        if n > u64::MAX - more {
            return None;
        }
        n = n + more;
        i += 1;
    }
    assert(all.take(i as int) =~= all);
    Some(n)
}

/// Number of vectors that all segments of a map hold together; `None` where it is too large.
pub fn saved_vectors(map: &BTreeMap<u32, Vec<ClusterManifestEntry>>) -> (r: Option<u64>)
    ensures
        match r {
            Some(n) => n == held_by(segment_map(map@), key_order(map@.dom())),
            None => held_by(segment_map(map@), key_order(map@.dom())) > u64::MAX,
        },
{
    let ghost all = segment_map(map@);
    let keys: Vec<u32> = ordered_keys(map);
    let mut sum: u64 = 0;
    let mut i: usize = 0;
    assert(keys@.take(0) =~= Seq::empty());
    while i < keys.len()
        invariant
            i <= keys@.len(),
            all == segment_map(map@),
            keys@ == key_order(map@.dom()),
            forall|j: int| 0 <= j < keys@.len() ==> map@.contains_key(#[trigger] keys@[j]),
            sum == held_by(all, keys@.take(i as int)),
        decreases keys@.len() - i,
    {
        broadcast use vstd::std_specs::btree::group_btree_axioms;

        let key: u32 = keys[i];
        proof {
            let next = keys@.take(i + 1);
            assert(map@.contains_key(keys@[i as int]));
            assert(next.drop_last() =~= keys@.take(i as int));
            assert(next.last() == key);
            lemma_held_by_grows(all, keys@, i + 1);
        }
        if let Some(entries) = map.get(&key) {
            assert(all[key] == entry_models(entries@));
            match add_held(sum, entries) {
                Some(n) => {
                    sum = n;
                },
                None => {
                    return None;
                },
            }
        }
        i += 1;
    }
    assert(keys@.take(i as int) =~= keys@);
    Some(sum)
}

impl IvfRabitqIndex {
    /// The clusters that hold vectors, packed or pending, in order.
    pub fn clusters_with_vectors(&self) -> (r: Vec<u32>)
        requires
            self@.clusters.len() <= u32::MAX,
        ensures
            forall|i: int, j: int|
                0 <= i < j < r@.len() ==> (#[trigger] r@[i]) < (#[trigger] r@[j]),
            forall|cid: u32| #[trigger]
                r@.contains(cid) <==> cid < self@.clusters.len()
                    && self@.clusters[cid as int].total() > 0,
    {
        let mut found: Vec<u32> = Vec::new();
        let mut i: usize = 0;
        while i < self.clusters.len()
            invariant
                i <= self.clusters@.len(),
                self@.clusters.len() <= u32::MAX,
                self@.clusters.len() == self.clusters@.len(),
                forall|x: int, y: int|
                    0 <= x < y < found@.len() ==> (#[trigger] found@[x]) < (#[trigger] found@[y]),
                forall|x: int| 0 <= x < found@.len() ==> (#[trigger] found@[x]) < i,
                forall|cid: u32| #[trigger]
                    found@.contains(cid) <==> cid < i && self@.clusters[cid as int].total() > 0,
            decreases self.clusters@.len() - i,
        {
            let c = &self.clusters[i];
            let ghost before = found@;
            assert(self@.clusters[i as int] == c@);
            if c.num_vectors > 0 || c.pending_ids.len() > 0 {
                found.push(i as u32);
                proof {
                    assert forall|cid: u32| #[trigger]
                        found@.contains(cid) <==> cid < i + 1 && self@.clusters[cid as int].total()
                            > 0 by {
                        if before.contains(cid) {
                            let x = choose|x: int| 0 <= x < before.len() && before[x] == cid;
                            assert(found@[x] == cid);
                        }
                        if cid == i {
                            assert(found@[before.len() as int] == cid);
                        }
                        if found@.contains(cid) {
                            let x = choose|x: int| 0 <= x < found@.len() && found@[x] == cid;
                            assert(x < before.len() ==> before[x] == cid);
                        }
                    }
                }
            }
            i += 1;
        }
        found
    }
}

} // verus!
