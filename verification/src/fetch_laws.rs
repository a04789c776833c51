//! What is read back of what was stored.
use crate::cluster::{
    law_append_adds_one, law_flush_keeps_contents, packable, stored, stored_all, ClusterModel,
};
use crate::fastscan::code_bits;
use crate::fetch::{
    is_place, law_place_iff_held, lemma_places, lemma_position, packed_place, pending_place,
    place_of, position, vector_at, VectorPlace,
};
use crate::index::IndexModel;
use crate::insert::{ids_from, law_members_are_the_assigned, members, same_but_clusters, vectors_at};
use crate::quantized::{models, QuantizedModel};
use crate::train::{
    assignments_valid, built_cluster, built_index, law_built_index_holds_all, TrainedParts,
};
use crate::types::Metric;
use vstd::prelude::*;

verus! {

/// The cluster of a place.
pub open spec fn cluster_at(p: VectorPlace) -> int {
    match p {
        VectorPlace::Packed { cluster, index } => cluster as int,
        VectorPlace::Pending { cluster, index } => cluster as int,
    }
}

/// Whether two vectors read back alike: the same sign bits, the same extended code where there is
/// one, and the same parameters of reconstruction.
pub open spec fn reads_alike(
    a: QuantizedModel,
    b: QuantizedModel,
    padded_dim: usize,
    ex_bits: usize,
) -> bool {
    &&& code_bits(a.code, padded_dim as int) == code_bits(b.code, padded_dim as int)
    &&& ex_bits > 0 ==> a.ex_code == b.ex_code
    &&& a.delta == b.delta
    &&& a.vl == b.vl
}

/// Where entry `k` of the vectors of cluster `c`, packed and pending, is kept.
spec fn entry_place(cluster: ClusterModel, c: int, k: int) -> VectorPlace {
    if k < cluster.ids.len() {
        VectorPlace::Packed { cluster: c as usize, index: k as usize }
    } else {
        VectorPlace::Pending { cluster: c as usize, index: (k - cluster.ids.len()) as usize }
    }
}

/// Whether the lengths of an index can be counted.
pub open spec fn countable(m: IndexModel) -> bool {
    &&& m.clusters.len() <= usize::MAX
    &&& forall|c: int|
        0 <= c < m.clusters.len() ==> (#[trigger] m.clusters[c]).ids.len() <= usize::MAX
            && m.clusters[c].pending_ids.len() <= usize::MAX
}

proof fn lemma_position_is(ids: Seq<u64>, id: u64, k: int)
    requires
        0 <= k < ids.len(),
        ids[k] == id,
        forall|j: int| 0 <= j < k ==> #[trigger] ids[j] != id,
    ensures
        position(ids, id, 0) == Some(k),
{
    lemma_position(ids, id, 0);
    match position(ids, id, 0) {
        Some(i) => {
            if i < k {
                assert(ids[i] != id);
            }
        },
        None => {
            assert(ids[k] != id);
        },
    }
}

proof fn lemma_absent(ids: Seq<u64>, id: u64)
    requires
        !ids.contains(id),
    ensures
        position(ids, id, 0) is None,
{
    lemma_position(ids, id, 0);
}

proof fn lemma_packed_from(clusters: Seq<ClusterModel>, id: u64, c: int, from: int)
    requires
        0 <= from <= c <= clusters.len(),
        forall|d: int| from <= d < c ==> !(#[trigger] clusters[d]).ids.contains(id),
    ensures
        packed_place(clusters, id, from) == packed_place(clusters, id, c),
    decreases c - from,
{
    if from < c {
        lemma_absent(clusters[from].ids, id);
        lemma_packed_from(clusters, id, c, from + 1);
    }
}

proof fn lemma_pending_from(clusters: Seq<ClusterModel>, id: u64, c: int, from: int)
    requires
        0 <= from <= c <= clusters.len(),
        forall|d: int| from <= d < c ==> !(#[trigger] clusters[d]).pending_ids.contains(id),
    ensures
        pending_place(clusters, id, from) == pending_place(clusters, id, c),
    decreases c - from,
{
    if from < c {
        lemma_absent(clusters[from].pending_ids, id);
        lemma_pending_from(clusters, id, c, from + 1);
    }
}

/// Where the first cluster that holds an id holds it first as entry `k`, packed or in an index
/// that holds the id nowhere packed, that entry is found.
proof fn lemma_found_at(m: IndexModel, id: u64, c: int, k: int)
    requires
        countable(m),
        0 <= c < m.clusters.len(),
        0 <= k < m.clusters[c].all_ids().len(),
        m.clusters[c].all_ids()[k] == id,
        forall|j: int| 0 <= j < k ==> #[trigger] m.clusters[c].all_ids()[j] != id,
        forall|d: int| 0 <= d < c ==> !(#[trigger] m.clusters[d]).all_ids().contains(id),
        k >= m.clusters[c].ids.len() ==> forall|d: int|
            0 <= d < m.clusters.len() ==> !(#[trigger] m.clusters[d]).ids.contains(id),
    ensures
        place_of(m, id) == Some(entry_place(m.clusters[c], c, k)),
        is_place(m, entry_place(m.clusters[c], c, k)),
{
    let cl = m.clusters[c];
    let n = cl.ids.len() as int;
    assert forall|d: int| 0 <= d < c implies !(#[trigger] m.clusters[d]).ids.contains(id)
        && !m.clusters[d].pending_ids.contains(id) by {
        let other = m.clusters[d];
        assert(!other.all_ids().contains(id));
        if other.ids.contains(id) {
            let i = choose|i: int| 0 <= i < other.ids.len() && other.ids[i] == id;
            assert(other.all_ids()[i] == id);
        }
        if other.pending_ids.contains(id) {
            let i = choose|i: int| 0 <= i < other.pending_ids.len() && other.pending_ids[i] == id;
            assert(other.all_ids()[other.ids.len() + i] == id);
        }
    }
    if k < n {
        assert forall|j: int| 0 <= j < k implies #[trigger] cl.ids[j] != id by {
            assert(cl.all_ids()[j] == cl.ids[j]);
        }
        lemma_position_is(cl.ids, id, k);
        lemma_packed_from(m.clusters, id, c, 0);
    } else {
        let i = k - n;
        assert(cl.pending_ids[i] == id);
        assert forall|j: int| 0 <= j < i implies #[trigger] cl.pending_ids[j] != id by {
            assert(cl.all_ids()[n + j] == cl.pending_ids[j]);
        }
        lemma_position_is(cl.pending_ids, id, i);
        lemma_packed_from(m.clusters, id, m.clusters.len() as int, 0);
        lemma_pending_from(m.clusters, id, c, 0);
    }
}

proof fn lemma_stored_reads_alike(q: QuantizedModel, padded_dim: usize, ex_bits: usize)
    requires
        q.code.len() == padded_dim / 8,
    ensures
        reads_alike(stored(q, padded_dim, ex_bits), q, padded_dim, ex_bits),
{
    let s = stored(q, padded_dim, ex_bits);
    assert(code_bits(s.code, padded_dim as int) =~= code_bits(q.code, padded_dim as int));
}

/// Entry `k` of the contents of a cluster is read back at its place.
proof fn lemma_entry_reads_alike(m: IndexModel, c: int, k: int)
    requires
        countable(m),
        m.well_formed(),
        0 <= c < m.clusters.len(),
        0 <= k < m.clusters[c].all_ids().len(),
    ensures
        reads_alike(
            vector_at(m, entry_place(m.clusters[c], c, k)),
            m.clusters[c].contents()[k],
            m.padded_dim,
            m.ex_bits,
        ),
{
    let cl = m.clusters[c];
    assert(cl.well_formed());
    if k < cl.ids.len() {
        assert(cl.contents()[k] == cl.packed(k));
    } else {
        let i = k - cl.ids.len();
        let pending = stored_all(cl.pending, cl.padded_dim, cl.ex_bits);
        assert(cl.contents()[k] == pending[i]);
        assert(pending[i] == stored(cl.pending[i], cl.padded_dim, cl.ex_bits));
        lemma_stored_reads_alike(cl.pending[i], cl.padded_dim, cl.ex_bits);
    }
}

/// A found vector is the first entry of its cluster under its id.
proof fn lemma_place_entry(m: IndexModel, id: u64) -> (k: int)
    requires
        countable(m),
        place_of(m, id) is Some,
    ensures
        0 <= cluster_at(place_of(m, id)->0) < m.clusters.len(),
        ({
            let c = cluster_at(place_of(m, id)->0);
            let cl = m.clusters[c];
            &&& 0 <= k < cl.all_ids().len()
            &&& cl.all_ids()[k] == id
            &&& forall|j: int| 0 <= j < k ==> #[trigger] cl.all_ids()[j] != id
            &&& place_of(m, id) == Some(entry_place(cl, c, k))
        }),
{
    lemma_places(m.clusters, id, 0);
    let p = place_of(m, id)->0;
    let c = cluster_at(p);
    let cl = m.clusters[c];
    let n = cl.ids.len() as int;
    let k = match p {
        VectorPlace::Packed { cluster, index } => index as int,
        VectorPlace::Pending { cluster, index } => n + index,
    };
    lemma_first_in_cluster(m.clusters, id, 0);
    assert forall|j: int| 0 <= j < k implies #[trigger] cl.all_ids()[j] != id by {
        if j < n {
            assert(cl.all_ids()[j] == cl.ids[j]);
            if p is Pending {
                assert(!cl.ids.contains(id));
                assert(cl.ids.contains(cl.ids[j]));
            }
        } else {
            assert(cl.all_ids()[j] == cl.pending_ids[j - n]);
        }
    }
    k
}

proof fn lemma_first_in_cluster(clusters: Seq<ClusterModel>, id: u64, from: int)
    requires
        0 <= from,
        clusters.len() <= usize::MAX,
        forall|c: int|
            0 <= c < clusters.len() ==> (#[trigger] clusters[c]).ids.len() <= usize::MAX
                && clusters[c].pending_ids.len() <= usize::MAX,
    ensures
        packed_place(clusters, id, from) matches Some(VectorPlace::Packed { cluster, index })
            ==> forall|j: int|
            0 <= j < index ==> #[trigger] clusters[cluster as int].ids[j] != id,
        pending_place(clusters, id, from) matches Some(VectorPlace::Pending { cluster, index })
            ==> forall|j: int|
            0 <= j < index ==> #[trigger] clusters[cluster as int].pending_ids[j] != id,
    decreases clusters.len() - from,
{
    if from < clusters.len() {
        lemma_position(clusters[from].ids, id, 0);
        lemma_position(clusters[from].pending_ids, id, 0);
        lemma_first_in_cluster(clusters, id, from + 1);
    }
}

/// What was inserted is read back: under an id that the index did not hold before, the new vector
/// is found in the cluster that it went to.
pub proof fn law_fetch_after_insert(
    before: IndexModel,
    after: IndexModel,
    cid: int,
    id: u64,
    q: QuantizedModel,
)
    requires
        before.well_formed(),
        after.well_formed(),
        countable(before),
        countable(after),
        same_but_clusters(before, after),
        after.clusters.len() == before.clusters.len(),
        0 <= cid < before.clusters.len(),
        q.code.len() == before.padded_dim / 8,
        before.clusters[cid].appends(after.clusters[cid], id, q),
        forall|i: int|
            0 <= i < before.clusters.len() && i != cid ==> #[trigger] after.clusters[i]
                == before.clusters[i],
        place_of(before, id) is None,
    ensures
        place_of(after, id) matches Some(p) && is_place(after, p) && cluster_at(p) == cid
            && reads_alike(vector_at(after, p), q, after.padded_dim, after.ex_bits),
{
    law_place_iff_held(before, id);
    let b = before.clusters[cid];
    let a = after.clusters[cid];
    let k = b.all_ids().len() as int;
    assert(b.well_formed() && a.well_formed());
    law_append_adds_one(b, a, id, q);
    assert(!b.all_ids().contains(id));
    assert forall|j: int| 0 <= j < k implies #[trigger] a.all_ids()[j] != id by {
        assert(a.all_ids()[j] == b.all_ids()[j]);
        assert(b.all_ids().contains(b.all_ids()[j]));
    }
    assert forall|d: int| 0 <= d < cid implies !(
    #[trigger] after.clusters[d]).all_ids().contains(id) by {
        assert(!before.clusters[d].all_ids().contains(id));
    }
    if k >= a.ids.len() {
        assert forall|d: int| 0 <= d < after.clusters.len() implies !(
        #[trigger] after.clusters[d]).ids.contains(id) by {
            let other = after.clusters[d];
            if other.ids.contains(id) {
                let i = choose|i: int| 0 <= i < other.ids.len() && other.ids[i] == id;
                assert(other.all_ids()[i] == id);
                assert(d == cid ==> i < k);
                assert(!before.clusters[d].all_ids().contains(id));
                assert(other.all_ids().contains(id));
            }
        }
    }
    lemma_found_at(after, id, cid, k);
    lemma_entry_reads_alike(after, cid, k);
    assert(b.contents().len() == k);
    assert(a.contents()[k] == stored(q, b.padded_dim, b.ex_bits));
    lemma_stored_reads_alike(q, before.padded_dim, before.ex_bits);
}

/// What an index was built from is read back: each training vector is found, under its index as
/// its id, in the cluster that it was assigned to.
pub proof fn law_fetch_after_build(
    m: IndexModel,
    dim: usize,
    metric: Metric,
    parts: TrainedParts,
    total_bits: usize,
    i: int,
)
    requires
        built_index(m, dim, metric, parts, total_bits),
        assignments_valid(parts.assignments@, parts.rotated_centroids@.len() as int),
        packable(models(parts.quantized@), parts.padded_dim as int),
        parts.assignments@.len() == parts.quantized@.len(),
        countable(m),
        0 <= i < parts.assignments@.len(),
    ensures
        place_of(m, i as u64) matches Some(p) && is_place(m, p) && cluster_at(p)
            == parts.assignments@[i] && reads_alike(
            vector_at(m, p),
            models(parts.quantized@)[i],
            m.padded_dim,
            m.ex_bits,
        ),
{
    let n = parts.assignments@.len() as int;
    let id = i as u64;
    let all = models(parts.quantized@);
    let c = parts.assignments@[i] as int;
    law_built_index_holds_all(m, dim, metric, parts, total_bits);
    assert(parts.assignments.len() == n);
    let group = members(parts.assignments@, c, n);
    assert(built_cluster(m.clusters[c], parts, c, total_bits));
    law_members_are_the_assigned(parts.assignments@, c, n);
    assert(group.contains(i));
    let k = choose|k: int| 0 <= k < group.len() && group[k] == i;
    let cl = m.clusters[c];
    assert(cl.all_ids() =~= ids_from(0, group));
    assert forall|j: int| 0 <= j < k implies #[trigger] cl.all_ids()[j] != id by {
        assert(group[j] < group[k]);
    }
    assert forall|d: int| 0 <= d < c implies !(#[trigger] m.clusters[d]).all_ids().contains(id) by {
        let other = m.clusters[d];
        let others = members(parts.assignments@, d, n);
        assert(built_cluster(other, parts, d, total_bits));
        law_members_are_the_assigned(parts.assignments@, d, n);
        assert(other.all_ids() =~= ids_from(0, others));
        if other.all_ids().contains(id) {
            let j = choose|j: int| 0 <= j < other.all_ids().len() && other.all_ids()[j] == id;
            assert(others[j] == i);
            assert(parts.assignments@[others[j]] == d);
        }
    }
    lemma_found_at(m, id, c, k);
    lemma_entry_reads_alike(m, c, k);
    let vectors = vectors_at(all, group);
    assert(cl.contents() =~= stored_all(vectors, cl.padded_dim, cl.ex_bits));
    assert(cl.contents()[k] == stored(all[i], cl.padded_dim, cl.ex_bits));
    lemma_stored_reads_alike(all[i], cl.padded_dim, cl.ex_bits);
}

/// Flushing changes nothing that is read: an id is found after it exactly if it was found before,
/// and, where the vector was found in the first cluster that holds its id, so is the one found
/// afterwards, and the two read alike.
pub proof fn law_fetch_after_flush(before: IndexModel, after: IndexModel, id: u64)
    requires
        before.well_formed(),
        after.well_formed(),
        countable(before),
        countable(after),
        same_but_clusters(before, after),
        after.clusters.len() == before.clusters.len(),
        forall|c: int|
            0 <= c < before.clusters.len() ==> before.clusters[c].flushes(
                #[trigger] after.clusters[c],
            ),
    ensures
        place_of(before, id) is Some <==> place_of(after, id) is Some,
        place_of(before, id) matches Some(p) ==> (forall|c: int|
            0 <= c < cluster_at(p) ==> !(#[trigger] before.clusters[c]).all_ids().contains(id))
            ==> {
            let q = place_of(after, id)->0;
            &&& cluster_at(q) == cluster_at(p)
            &&& reads_alike(
                vector_at(after, q),
                vector_at(before, p),
                before.padded_dim,
                before.ex_bits,
            )
        },
{
    law_place_iff_held(before, id);
    law_place_iff_held(after, id);
    assert forall|c: int| 0 <= c < before.clusters.len() implies (
    #[trigger] after.clusters[c]).all_ids() == before.clusters[c].all_ids()
        && after.clusters[c].contents() == before.clusters[c].contents()
        && after.clusters[c].ids == before.clusters[c].all_ids() by {
        assert(before.clusters[c].well_formed());
        law_flush_keeps_contents(before.clusters[c], after.clusters[c]);
    }
    if let Some(p) = place_of(before, id) {
        let c = cluster_at(p);
        let b = before.clusters[c];
        let a = after.clusters[c];
        assert(a.all_ids() == b.all_ids() && a.ids == b.all_ids() && a.contents() == b.contents());
        let k = lemma_place_entry(before, id);
        assert(a.all_ids()[k] == id);
        if forall|d: int|
            0 <= d < c ==> !(#[trigger] before.clusters[d]).all_ids().contains(id) {
            assert forall|d: int| 0 <= d < c implies !(
            #[trigger] after.clusters[d]).all_ids().contains(id) by {
                assert(!before.clusters[d].all_ids().contains(id));
            }
            lemma_found_at(after, id, c, k);
            lemma_entry_reads_alike(after, c, k);
            lemma_entry_reads_alike(before, c, k);
        }
    } else {
        assert forall|c: int| 0 <= c < after.clusters.len() implies !(
        #[trigger] after.clusters[c]).all_ids().contains(id) by {
            assert(!before.clusters[c].all_ids().contains(id));
        }
    }
}

} // verus!
