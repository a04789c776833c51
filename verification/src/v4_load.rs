//! An index from a manifest and its segments.
use crate::cluster::{
    batches, lemma_has_batch, lemma_packs, lemma_slots_push, slot_of, stored, stored_all, stride,
    with_slots, ClusterData, ClusterModel,
};
use crate::error::RabitqError;
use crate::index::{vector_total, IndexModel, IvfRabitqIndex};
use crate::manifest::{ManifestHeader, ManifestHeaderModel};
use crate::persist::broken;
use crate::quantized::{QuantizedModel, QuantizedVector};
use crate::segment::{ClusterSegmentData, SegmentModel};
use crate::types::Rotator;
use vstd::prelude::*;

verus! {

/// A segment that has been read, with the number of vectors that its manifest entry states.
#[derive(Debug)]
pub struct LoadedSegment {
    pub num_vectors: u32,
    pub data: ClusterSegmentData,
}

/// What a segment that has been read holds.
#[verifier::ext_equal]
pub struct LoadedModel {
    pub num_vectors: u32,
    pub data: SegmentModel,
}

impl View for LoadedSegment {
    type V = LoadedModel;

    open spec fn view(&self) -> LoadedModel {
        LoadedModel { num_vectors: self.num_vectors, data: self.data@ }
    }
}

/// What the segments of a sequence hold.
pub open spec fn loaded_models(segments: Seq<LoadedSegment>) -> Seq<LoadedModel> {
    segments.map_values(|s: LoadedSegment| s@)
}

/// The cluster that one segment stands for, with the dimensions of the index.
pub open spec fn cluster_of(s: LoadedModel, padded_dim: usize, ex_bits: usize) -> ClusterModel {
    ClusterModel {
        centroid: s.data.centroid,
        ids: s.data.ids,
        batch_data: s.data.batch_data,
        ex_codes: s.data.ex_codes,
        f_add_ex: s.data.f_add_ex,
        f_rescale_ex: s.data.f_rescale_ex,
        delta: s.data.delta,
        vl: s.data.vl,
        num_vectors: s.num_vectors as usize,
        padded_dim,
        ex_bits,
        pending_ids: Seq::empty(),
        pending: Seq::empty(),
    }
}

/// The packed vectors of a cluster, with their codes as the batches hold them.
pub open spec fn slot_vectors(c: ClusterModel) -> Seq<QuantizedModel> {
    Seq::new(
        c.num_vectors as nat,
        |i: int| (QuantizedModel { code: c.slot(i).code, ..c.packed(i) }),
    )
}

impl ClusterModel {
    /// This cluster with the packed vectors of another one packed behind its own.
    pub open spec fn absorbs(self, after: ClusterModel, other: ClusterModel) -> bool {
        &&& after.well_formed()
        &&& after.centroid == self.centroid
        &&& after.ids == self.ids + other.ids
        &&& after.num_vectors == self.num_vectors + other.num_vectors
        &&& after.padded_dim == self.padded_dim
        &&& after.ex_bits == self.ex_bits
        &&& after.pending_ids == self.pending_ids
        &&& after.pending == self.pending
        &&& after.packed_vectors() == self.packed_vectors() + stored_all(
            slot_vectors(other),
            self.padded_dim,
            self.ex_bits,
        )
        &&& after.batch_data == with_slots(
            self.batch_data,
            self.padded_dim as int,
            self.num_vectors as int,
            other.slots_from(0),
        )
        &&& self.zero_padded() ==> after.zero_padded()
    }
}

impl ClusterData {
    /// Packs the packed vectors of another cluster behind those of this one.
    pub fn absorb(&mut self, other: &ClusterData)
        requires
            old(self)@.well_formed(),
            other@.well_formed(),
            other@.padded_dim == old(self)@.padded_dim,
            old(self)@.has_room(other@.num_vectors as int),
        ensures
            old(self)@.absorbs(final(self)@, other@),
    {
        let ghost start = self@;
        let ghost added = stored_all(slot_vectors(other@), start.padded_dim, start.ex_bits);
        let mut i: usize = 0;
        assert(self@.ids =~= start.ids + other@.ids.take(0));
        assert(self@.packed_vectors() =~= start.packed_vectors() + added.take(0));
        assert(other@.slots_from(0).take(0) =~= Seq::empty());
        while i < other.num_vectors
            invariant
                i <= other@.num_vectors,
                other@.well_formed(),
                other@.padded_dim == start.padded_dim,
                start.has_room(other@.num_vectors as int),
                added == stored_all(slot_vectors(other@), start.padded_dim, start.ex_bits),
                self@.well_formed(),
                self@.centroid == start.centroid,
                self@.ids == start.ids + other@.ids.take(i as int),
                self@.num_vectors == start.num_vectors + i,
                self@.padded_dim == start.padded_dim,
                self@.ex_bits == start.ex_bits,
                self@.pending_ids == start.pending_ids,
                self@.pending == start.pending,
                self@.packed_vectors() == start.packed_vectors() + added.take(i as int),
                self@.batch_data == with_slots(
                    start.batch_data,
                    start.padded_dim as int,
                    start.num_vectors as int,
                    other@.slots_from(0).take(i as int),
                ),
                start.zero_padded() ==> self@.zero_padded(),
            decreases other.num_vectors - i,
        {
            let ghost before = self@;
            proof {
                lemma_has_batch(other@, i as int);
                let few = batches(before.num_vectors + 1);
                let all = batches(start.num_vectors + other@.num_vectors);
                assert(few * stride(start.padded_dim as int) <= all * stride(
                    start.padded_dim as int,
                )) by (nonlinear_arith)
                    requires
                        0 <= few <= all,
                        0 <= stride(start.padded_dim as int),
                ;
            }
            let mut q: QuantizedVector = other.packed_vector(i);
            if self.padded_dim % 8 != 0 {
                q.binary_code_packed.pop();
            }
            proof {
                assert(q@.code =~= other@.slot(i as int).code);
                assert(q@ =~= slot_vectors(other@)[i as int]);
            }
            self.pack_vector(other.ids[i], &q);
            proof {
                lemma_packs(before, self@, other.ids@[i as int], q@);
                assert(added[i as int] == stored(q@, start.padded_dim, start.ex_bits));
                assert(slot_of(q@) =~= other@.slots_from(0)[i as int]);
                lemma_slots_push(
                    start.batch_data,
                    start.padded_dim as int,
                    start.num_vectors as int,
                    other@.slots_from(0).take(i as int),
                    slot_of(q@),
                );
                assert(other@.slots_from(0).take(i + 1) =~= other@.slots_from(0).take(
                    i as int,
                ).push(slot_of(q@)));
                assert(self@.ids =~= start.ids + other@.ids.take(i + 1));
                assert(self@.packed_vectors() =~= start.packed_vectors() + added.take(i + 1));
            }
            i += 1;
        }
        assert(other@.ids.take(i as int) =~= other@.ids);
        assert(added.take(i as int) =~= added);
        assert(other@.slots_from(0).take(i as int) =~= other@.slots_from(0));
    }
}

/// Number of vectors in segments `1..n`.
pub open spec fn delta_count(segments: Seq<LoadedModel>, n: int) -> int
    decreases n,
{
    if n <= 1 {
        0
    } else {
        delta_count(segments, n - 1) + segments[n - 1].num_vectors
    }
}

/// The ids of the first `n` segments, one behind the other.
pub open spec fn joined_ids(segments: Seq<LoadedModel>, n: int) -> Seq<u64>
    decreases n,
{
    if n <= 1 {
        segments[0].data.ids
    } else {
        joined_ids(segments, n - 1) + segments[n - 1].data.ids
    }
}

/// The vectors of the first `n` segments, one behind the other.
pub open spec fn joined_vectors(
    segments: Seq<LoadedModel>,
    padded_dim: usize,
    ex_bits: usize,
    n: int,
) -> Seq<QuantizedModel>
    decreases n,
{
    if n <= 1 {
        cluster_of(segments[0], padded_dim, ex_bits).packed_vectors()
    } else {
        joined_vectors(segments, padded_dim, ex_bits, n - 1) + stored_all(
            slot_vectors(cluster_of(segments[n - 1], padded_dim, ex_bits)),
            padded_dim,
            ex_bits,
        )
    }
}

/// The batches of the first `n` segments, with the vectors of each packed behind those before.
pub open spec fn joined_bytes(
    segments: Seq<LoadedModel>,
    padded_dim: usize,
    ex_bits: usize,
    n: int,
) -> Seq<u8>
    decreases n,
{
    if n <= 1 {
        segments[0].data.batch_data
    } else {
        with_slots(
            joined_bytes(segments, padded_dim, ex_bits, n - 1),
            padded_dim as int,
            segments[0].num_vectors + delta_count(segments, n - 1),
            cluster_of(segments[n - 1], padded_dim, ex_bits).slots_from(0),
        )
    }
}

/// The cluster that the first `n` segments stand for. A single segment is taken as it is; the
/// vectors of further ones are packed behind it, in order, around its centroid.
pub open spec fn joins(
    c: ClusterModel,
    segments: Seq<LoadedModel>,
    padded_dim: usize,
    ex_bits: usize,
    n: int,
) -> bool {
    let base = cluster_of(segments[0], padded_dim, ex_bits);
    if n <= 1 {
        c == base
    } else {
        &&& c.well_formed()
        &&& c.centroid == base.centroid
        &&& c.ids == joined_ids(segments, n)
        &&& c.num_vectors == base.num_vectors + delta_count(segments, n)
        &&& c.padded_dim == padded_dim
        &&& c.ex_bits == ex_bits
        &&& c.pending_ids == Seq::<u64>::empty()
        &&& c.pending == Seq::<QuantizedModel>::empty()
        &&& c.packed_vectors() == joined_vectors(segments, padded_dim, ex_bits, n)
        &&& c.batch_data == joined_bytes(segments, padded_dim, ex_bits, n)
        &&& base.zero_padded() ==> c.zero_padded()
    }
}

/// Whether the first `n` segments hold together.
pub open spec fn segments_hold(
    segments: Seq<LoadedModel>,
    padded_dim: usize,
    ex_bits: usize,
    n: int,
) -> bool {
    forall|i: int|
        0 <= i < n ==> cluster_of(#[trigger] segments[i], padded_dim, ex_bits).well_formed()
}

/// Why segments stand for no cluster, if so. A single segment always stands for one.
pub open spec fn join_fault(
    segments: Seq<LoadedModel>,
    padded_dim: usize,
    ex_bits: usize,
) -> Option<
    &'static str,
> {
    if segments.len() == 0 {
        Some("cluster without segments")
    } else if segments.len() == 1 {
        None
    } else if !segments_hold(segments, padded_dim, ex_bits, segments.len() as int) {
        Some("segment layout mismatch")
    } else if !cluster_of(segments[0], padded_dim, ex_bits).has_room(
        delta_count(segments, segments.len() as int),
    ) {
        Some("cluster exceeds usize")
    } else {
        None
    }
}

impl LoadedSegment {
    /// The cluster that this segment stands for.
    fn into_cluster(self, padded_dim: usize, ex_bits: usize) -> (c: ClusterData)
        ensures
            c@ == cluster_of(self@, padded_dim, ex_bits),
    {
        let c = ClusterData {
            centroid: self.data.centroid,
            ids: self.data.ids,
            batch_data: self.data.batch_data,
            ex_codes_packed: self.data.ex_codes_packed,
            f_add_ex: self.data.f_add_ex,
            f_rescale_ex: self.data.f_rescale_ex,
            delta: self.data.delta,
            vl: self.data.vl,
            num_vectors: self.num_vectors as usize,
            padded_dim,
            ex_bits,
            pending_ids: Vec::new(),
            pending_vectors: Vec::new(),
        };
        assert(c@ =~= cluster_of(self@, padded_dim, ex_bits));
        c
    }
}

proof fn lemma_delta_count_grows(segments: Seq<LoadedModel>, n: int, m: int)
    requires
        1 <= n <= m,
    ensures
        0 <= delta_count(segments, n) <= delta_count(segments, m),
    decreases m,
{
    if n < m {
        lemma_delta_count_grows(segments, n, m - 1);
    } else if n > 1 {
        lemma_delta_count_grows(segments, n - 1, n - 1);
    }
}

proof fn lemma_room_for_prefix(c: ClusterModel, few: int, all: int)
    requires
        0 <= few <= all,
        c.has_room(all),
    ensures
        c.has_room(few),
{
    let st = stride(c.padded_dim as int);
    let a = batches(c.num_vectors + few);
    let b = batches(c.num_vectors + all);
    assert(a * st <= b * st) by (nonlinear_arith)
        requires
            a <= b,
            0 <= st,
    ;
}

proof fn lemma_join_step(
    before: ClusterModel,
    after: ClusterModel,
    segments: Seq<LoadedModel>,
    padded_dim: usize,
    ex_bits: usize,
    n: int,
)
    requires
        1 <= n < segments.len(),
        joins(before, segments, padded_dim, ex_bits, n),
        before.absorbs(after, cluster_of(segments[n], padded_dim, ex_bits)),
    ensures
        joins(after, segments, padded_dim, ex_bits, n + 1),
{
    assert(delta_count(segments, n + 1) == delta_count(segments, n) + segments[n].num_vectors);
    assert(joined_ids(segments, n + 1) == joined_ids(segments, n) + segments[n].data.ids);
    assert(joined_vectors(segments, padded_dim, ex_bits, n + 1) == joined_vectors(
        segments,
        padded_dim,
        ex_bits,
        n,
    ) + stored_all(
        slot_vectors(cluster_of(segments[n], padded_dim, ex_bits)),
        padded_dim,
        ex_bits,
    ));
    assert(delta_count(segments, 1) == 0);
    assert(joined_bytes(segments, padded_dim, ex_bits, 1) == segments[0].data.batch_data);
    assert(before.num_vectors == segments[0].num_vectors + delta_count(segments, n));
    assert(joined_bytes(segments, padded_dim, ex_bits, n + 1) == with_slots(
        joined_bytes(segments, padded_dim, ex_bits, n),
        padded_dim as int,
        segments[0].num_vectors + delta_count(segments, n),
        cluster_of(segments[n], padded_dim, ex_bits).slots_from(0),
    ));
}

/// Joins the segments of one cluster.
pub fn load_cluster(segments: Vec<LoadedSegment>, padded_dim: usize, ex_bits: usize) -> (result:
    Result<ClusterData, RabitqError>)
    ensures
        match join_fault(loaded_models(segments@), padded_dim, ex_bits) {
            Some(why) => result == broken::<ClusterData>(why),
            None => result is Ok && joins(
                result->Ok_0@,
                loaded_models(segments@),
                padded_dim,
                ex_bits,
                segments@.len() as int,
            ),
        },
{
    let ghost all = loaded_models(segments@);
    let count: usize = segments.len();
    if count == 0 {
        return Err(RabitqError::InvalidPersistence("cluster without segments"));
    }
    let mut parts: Vec<ClusterData> = Vec::new();
    for segment in it: segments
        invariant
            it.seq() == segments@,
            all == loaded_models(segments@),
            parts@.len() == it.index(),
            forall|j: int|
                0 <= j < parts@.len() ==> (#[trigger] parts@[j])@ == cluster_of(
                    all[j],
                    padded_dim,
                    ex_bits,
                ),
    {
        assert(segment@ == all[it.index() as int]);
        parts.push(segment.into_cluster(padded_dim, ex_bits));
    }
    let mut joined: ClusterData = parts.remove(0);
    let ghost base = joined@;
    if count == 1 {
        return Ok(joined);
    }
    if !joined.is_well_formed() {
        assert(!cluster_of(all[0], padded_dim, ex_bits).well_formed());
        return Err(RabitqError::InvalidPersistence("segment layout mismatch"));
    }
    let mut i: usize = 0;
    while i < parts.len()
        invariant
            i <= parts@.len(),
            all.len() == parts@.len() + 1,
            forall|j: int|
                0 <= j < parts@.len() ==> (#[trigger] parts@[j])@ == cluster_of(
                    all[j + 1],
                    padded_dim,
                    ex_bits,
                ),
            base == cluster_of(all[0], padded_dim, ex_bits),
            base.well_formed(),
            segments_hold(all, padded_dim, ex_bits, i + 1),
            all == loaded_models(segments@),
        ensures
            i == parts@.len(),
        decreases parts@.len() - i,
    {
        if !parts[i].is_well_formed() {
            assert(!cluster_of(all[i + 1], padded_dim, ex_bits).well_formed());
            return Err(RabitqError::InvalidPersistence("segment layout mismatch"));
        }
        i += 1;
    }
    let mut k: usize = 0;
    let mut extra: usize = 0;
    while k < parts.len()
        invariant
            k <= parts@.len(),
            all.len() == parts@.len() + 1,
            all.len() >= 2,
            forall|j: int|
                0 <= j < parts@.len() ==> (#[trigger] parts@[j])@ == cluster_of(
                    all[j + 1],
                    padded_dim,
                    ex_bits,
                ),
            base == cluster_of(all[0], padded_dim, ex_bits),
            segments_hold(all, padded_dim, ex_bits, all.len() as int),
            extra == delta_count(all, k + 1),
            all == loaded_models(segments@),
        ensures
            k == parts@.len(),
        decreases parts@.len() - k,
    {
        let more: usize = parts[k].num_vectors;
        assert(parts@[k as int]@ == cluster_of(all[k + 1], padded_dim, ex_bits));
        if extra > usize::MAX - more {
            proof {
                lemma_delta_count_grows(all, k + 2, all.len() as int);
            }
            return Err(RabitqError::InvalidPersistence("cluster exceeds usize"));
        }
        extra += more;
        k += 1;
    }
    if !joined.has_room_for(extra) {
        return Err(RabitqError::InvalidPersistence("cluster exceeds usize"));
    }
    let mut m: usize = 0;
    while m < parts.len()
        invariant
            m <= parts@.len(),
            all.len() == parts@.len() + 1,
            all.len() >= 2,
            forall|j: int|
                0 <= j < parts@.len() ==> (#[trigger] parts@[j])@ == cluster_of(
                    all[j + 1],
                    padded_dim,
                    ex_bits,
                ),
            base == cluster_of(all[0], padded_dim, ex_bits),
            base.well_formed(),
            base.has_room(delta_count(all, all.len() as int)),
            segments_hold(all, padded_dim, ex_bits, all.len() as int),
            joined@.well_formed(),
            joins(joined@, all, padded_dim, ex_bits, m + 1),
        decreases parts@.len() - m,
    {
        let ghost before = joined@;
        proof {
            let part = parts@[m as int]@;
            assert(part == cluster_of(all[m + 1], padded_dim, ex_bits));
            assert(part.well_formed());
            lemma_delta_count_grows(all, m + 2, all.len() as int);
            lemma_room_for_prefix(
                base,
                delta_count(all, m + 2),
                delta_count(all, all.len() as int),
            );
            assert(delta_count(all, m + 2) == delta_count(all, m + 1) + all[m + 1].num_vectors);
            assert(before.num_vectors == base.num_vectors + delta_count(all, m + 1)) by {
                if m == 0 {
                    assert(delta_count(all, 1) == 0);
                }
            }
            assert(before.num_vectors + part.num_vectors == base.num_vectors + delta_count(
                all,
                m + 2,
            ));
            assert(before.has_room(part.num_vectors as int));
        }
        joined.absorb(&parts[m]);
        proof {
            lemma_join_step(before, joined@, all, padded_dim, ex_bits, m + 1);
        }
        m += 1;
    }
    Ok(joined)
}

/// Why clusters of segments stand for no index, if so: the fault of the first cluster that has
/// one, from cluster `from` on.
pub open spec fn load_fault(
    clusters: Seq<Seq<LoadedModel>>,
    padded_dim: usize,
    ex_bits: usize,
    from: int,
) -> Option<&'static str>
    decreases clusters.len() - from,
{
    if from >= clusters.len() {
        None
    } else {
        match join_fault(clusters[from], padded_dim, ex_bits) {
            Some(why) => Some(why),
            None => load_fault(clusters, padded_dim, ex_bits, from + 1),
        }
    }
}

/// What the clusters of segments of a sequence hold.
pub open spec fn loaded_clusters(clusters: Seq<Vec<LoadedSegment>>) -> Seq<Seq<LoadedModel>> {
    clusters.map_values(|s: Vec<LoadedSegment>| loaded_models(s@))
}

/// The index that a header and clusters of segments stand for.
pub open spec fn loads(
    m: IndexModel,
    h: ManifestHeaderModel,
    clusters: Seq<Seq<LoadedModel>>,
) -> bool {
    &&& m.dim == h.dim
    &&& m.padded_dim == h.padded_dim
    &&& m.metric == h.metric
    &&& m.rotator_type == h.rotator_type
    &&& m.rotator_data == h.rotator_data
    &&& m.ex_bits == h.ex_bits
    &&& m.clusters.len() == clusters.len()
    &&& forall|i: int|
        0 <= i < clusters.len() ==> joins(
            #[trigger] m.clusters[i],
            clusters[i],
            h.padded_dim,
            h.ex_bits,
            clusters[i].len() as int,
        )
}

impl IvfRabitqIndex {
    /// The index of a manifest whose segments have been read, cluster by cluster in the order of
    /// the cluster ids.
    pub fn load_from_v4_dir(header: ManifestHeader, clusters: Vec<Vec<LoadedSegment>>) -> (result:
        Result<IvfRabitqIndex, RabitqError>)
        ensures
            match load_fault(
                loaded_clusters(clusters@),
                header@.padded_dim,
                header@.ex_bits,
                0,
            ) {
                Some(why) => result == broken::<IvfRabitqIndex>(why),
                None => result is Ok && loads(
                    result->Ok_0@,
                    header@,
                    loaded_clusters(clusters@),
                ),
            },
    {
        let ghost all = loaded_clusters(clusters@);
        let padded_dim: usize = header.padded_dim;
        let ex_bits: usize = header.ex_bits;
        let mut built: Vec<ClusterData> = Vec::new();
        for segments in it: clusters
            invariant
                it.seq() == clusters@,
                all == loaded_clusters(clusters@),
                padded_dim == header@.padded_dim,
                ex_bits == header@.ex_bits,
                built@.len() == it.index(),
                load_fault(all, padded_dim, ex_bits, 0) == load_fault(
                    all,
                    padded_dim,
                    ex_bits,
                    it.index() as int,
                ),
                forall|j: int|
                    0 <= j < built@.len() ==> joins(
                        (#[trigger] built@[j])@,
                        all[j],
                        padded_dim,
                        ex_bits,
                        all[j].len() as int,
                    ),
        {
            assert(loaded_models(segments@) == all[it.index() as int]);
            let cluster: ClusterData = match load_cluster(segments, padded_dim, ex_bits) {
                Ok(cluster) => cluster,
                Err(e) => return Err(e),
            };
            built.push(cluster);
        }
        let rotator = Rotator { rotator_type: header.rotator_type, data: header.rotator_data };
        let index = IvfRabitqIndex {
            dim: header.dim,
            padded_dim,
            metric: header.metric,
            rotator,
            clusters: built,
            ex_bits,
        };
        proof {
            assert forall|i: int| 0 <= i < all.len() implies joins(
                #[trigger] index@.clusters[i],
                all[i],
                padded_dim,
                ex_bits,
                all[i].len() as int,
            ) by {
                assert(index@.clusters[i] == index.clusters@[i]@);
            }
        }
        Ok(index)
    }
}

// ----------------------------------------------------------------------------
// What joining keeps
// ----------------------------------------------------------------------------

/// The packed vectors of the first `n` segments, each read on its own.
pub open spec fn segment_vectors(
    segments: Seq<LoadedModel>,
    padded_dim: usize,
    ex_bits: usize,
    n: int,
) -> Seq<QuantizedModel>
    decreases n,
{
    if n <= 0 {
        Seq::empty()
    } else {
        segment_vectors(segments, padded_dim, ex_bits, n - 1) + cluster_of(
            segments[n - 1],
            padded_dim,
            ex_bits,
        ).packed_vectors()
    }
}

/// A segment without extended codes says nothing in their place.
pub open spec fn plain(s: LoadedModel) -> bool {
    &&& forall|i: int| 0 <= i < s.data.ex_codes.len() ==> (#[trigger] s.data.ex_codes[i]).len() == 0
    &&& forall|i: int| 0 <= i < s.data.f_add_ex.len() ==> (#[trigger] s.data.f_add_ex[i]) == 0
    &&& forall|i: int|
        0 <= i < s.data.f_rescale_ex.len() ==> (#[trigger] s.data.f_rescale_ex[i]) == 0
}

proof fn lemma_restored(s: LoadedModel, padded_dim: usize, ex_bits: usize)
    requires
        cluster_of(s, padded_dim, ex_bits).well_formed(),
        ex_bits == 0 ==> plain(s),
    ensures
        stored_all(slot_vectors(cluster_of(s, padded_dim, ex_bits)), padded_dim, ex_bits)
            == cluster_of(s, padded_dim, ex_bits).packed_vectors(),
{
    let c = cluster_of(s, padded_dim, ex_bits);
    let restored = stored_all(slot_vectors(c), padded_dim, ex_bits);
    assert forall|i: int| 0 <= i < c.num_vectors implies restored[i] == c.packed_vectors()[i] by {
        if ex_bits == 0 {
            assert(s.data.ex_codes[i].len() == 0);
            assert(s.data.ex_codes[i] =~= Seq::empty());
            assert(s.data.f_add_ex[i] == 0);
            assert(s.data.f_rescale_ex[i] == 0);
        }
        assert(restored[i] =~= c.packed(i));
    }
    assert(restored =~= c.packed_vectors());
}

/// Joining loses nothing and adds nothing: a joined cluster holds the vectors of its segments,
/// each as its own segment gives it, one segment behind the other.
pub proof fn law_join_keeps_vectors(
    segments: Seq<LoadedModel>,
    padded_dim: usize,
    ex_bits: usize,
    n: int,
)
    requires
        1 <= n <= segments.len(),
        segments_hold(segments, padded_dim, ex_bits, n),
        ex_bits == 0 ==> forall|i: int| 0 <= i < n ==> plain(#[trigger] segments[i]),
    ensures
        joined_vectors(segments, padded_dim, ex_bits, n) == segment_vectors(
            segments,
            padded_dim,
            ex_bits,
            n,
        ),
    decreases n,
{
    if n == 1 {
        assert(segment_vectors(segments, padded_dim, ex_bits, 0) =~= Seq::empty());
        assert(segment_vectors(segments, padded_dim, ex_bits, 1) =~= cluster_of(
            segments[0],
            padded_dim,
            ex_bits,
        ).packed_vectors());
    } else {
        law_join_keeps_vectors(segments, padded_dim, ex_bits, n - 1);
        lemma_restored(segments[n - 1], padded_dim, ex_bits);
    }
}

/// An index whose segments hold together is well formed, as long as its vectors can be counted.
pub proof fn law_loaded_is_well_formed(
    m: IndexModel,
    h: ManifestHeaderModel,
    clusters: Seq<Seq<LoadedModel>>,
)
    requires
        loads(m, h, clusters),
        load_fault(clusters, h.padded_dim, h.ex_bits, 0) is None,
        forall|i: int|
            0 <= i < clusters.len() ==> segments_hold(
                #[trigger] clusters[i],
                h.padded_dim,
                h.ex_bits,
                clusters[i].len() as int,
            ),
        vector_total(m.clusters) <= usize::MAX,
    ensures
        m.well_formed(),
{
    assert forall|i: int| 0 <= i < m.clusters.len() implies {
        &&& (#[trigger] m.clusters[i]).well_formed()
        &&& m.clusters[i].padded_dim == m.padded_dim
        &&& m.clusters[i].ex_bits == m.ex_bits
    } by {
        lemma_no_fault_at(clusters, h.padded_dim, h.ex_bits, 0, i);
        assert(segments_hold(
            clusters[i],
            h.padded_dim,
            h.ex_bits,
            clusters[i].len() as int,
        ));
        assert(cluster_of(clusters[i][0], h.padded_dim, h.ex_bits).well_formed());
    }
}

proof fn lemma_no_fault_at(
    clusters: Seq<Seq<LoadedModel>>,
    padded_dim: usize,
    ex_bits: usize,
    from: int,
    i: int,
)
    requires
        0 <= from <= i < clusters.len(),
        load_fault(clusters, padded_dim, ex_bits, from) is None,
    ensures
        join_fault(clusters[i], padded_dim, ex_bits) is None,
        clusters[i].len() > 0,
    decreases i - from,
{
    if from < i {
        lemma_no_fault_at(clusters, padded_dim, ex_bits, from + 1, i);
    }
}

} // verus!
