//! Which indexes can be saved, and that building, inserting and flushing lead to such.
use crate::cluster::{
    batches, law_append_adds_one, law_flush_keeps_contents, stored, stored_all, stride,
    ClusterModel,
};
use crate::index::{vector_total, IndexModel};
use crate::insert::{
    batch_received, ids_from, law_batch_insert_adds_all, law_flush_all_keeps_vectors,
    law_insert_adds_one, lemma_members_len, members, same_but_clusters, vectors_at,
};
use crate::persist::{
    cluster_persistable, ex_code_len, header_persistable, persistable, MAX_CLUSTER_SIZE,
};
use crate::quantized::{models, QuantizedModel};
use crate::train::{
    build_fault, built_cluster, built_index, law_built_index_holds_all, parts_fit, TrainedParts,
};
use crate::types::Metric;
use crate::v4::{cluster_fits_v4, fits_v4};
use vstd::prelude::*;

verus! {

/// The length of the extended code of a vector as a cluster with `ex_bits` extended bits keeps it.
pub open spec fn kept_code_len(q: QuantizedModel, ex_bits: usize) -> int {
    if ex_bits > 0 {
        q.ex_code.len() as int
    } else {
        0
    }
}

/// Whether the extended codes of a cluster, packed and pending, have the length that an index file
/// holds.
pub open spec fn codes_fit(c: ClusterModel) -> bool {
    forall|i: int|
        0 <= i < c.contents().len() ==> {
            &&& (#[trigger] c.contents()[i]).ex_code.len() == ex_code_len(
                c.padded_dim as int,
                c.ex_bits as int,
            )
            &&& c.contents()[i].ex_code.len() <= usize::MAX
        }
}

/// A cluster that an index file can hold once its pending vectors are packed.
pub open spec fn cluster_savable(c: ClusterModel) -> bool {
    &&& c.well_formed()
    &&& c.total() <= MAX_CLUSTER_SIZE
    &&& c.has_room(c.pending.len() as int)
    &&& codes_fit(c)
}

/// An index that an index file can hold once it is flushed.
pub open spec fn savable(m: IndexModel) -> bool {
    &&& m.well_formed()
    &&& header_persistable(m)
    &&& forall|i: int| 0 <= i < m.clusters.len() ==> cluster_savable(#[trigger] m.clusters[i])
}

/// A cluster that a segment can hold once its pending vectors are packed.
pub open spec fn cluster_savable_v4(c: ClusterModel) -> bool {
    &&& c.well_formed()
    &&& c.total() <= u32::MAX
    &&& c.has_room(c.pending.len() as int)
    &&& forall|i: int|
        0 <= i < c.contents().len() ==> (#[trigger] c.contents()[i]).ex_code.len() <= usize::MAX
}

/// An index that a manifest and segments can hold once it is flushed.
pub open spec fn savable_v4(m: IndexModel) -> bool {
    &&& m.well_formed()
    &&& m.dim <= u32::MAX
    &&& m.padded_dim <= u32::MAX
    &&& m.ex_bits < u8::MAX
    &&& m.rotator_data.len() <= usize::MAX
    &&& m.clusters.len() <= u32::MAX
    &&& forall|i: int| 0 <= i < m.clusters.len() ==> cluster_savable_v4(#[trigger] m.clusters[i])
}

/// Where nothing is pending, the contents of a cluster show its extended codes.
proof fn lemma_codes_of_contents(c: ClusterModel)
    requires
        c.well_formed(),
        c.pending.len() == 0,
    ensures
        c.contents().len() == c.ex_codes.len(),
        forall|i: int|
            0 <= i < c.ex_codes.len() ==> #[trigger] c.ex_codes[i] == c.contents()[i].ex_code,
{
    assert(c.contents() =~= c.packed_vectors());
    assert forall|i: int| 0 <= i < c.ex_codes.len() implies #[trigger] c.ex_codes[i]
        == c.contents()[i].ex_code by {
        assert(c.contents()[i] == c.packed(i));
    }
}

proof fn lemma_savable_is_persistable(c: ClusterModel)
    requires
        cluster_savable(c),
        c.pending.len() == 0,
    ensures
        cluster_persistable(c),
{
    lemma_codes_of_contents(c);
    assert forall|i: int| 0 <= i < c.ex_codes.len() implies {
        &&& (#[trigger] c.ex_codes[i]).len() == ex_code_len(c.padded_dim as int, c.ex_bits as int)
        &&& c.ex_codes[i].len() <= usize::MAX
    } by {
        assert(c.contents()[i].ex_code == c.ex_codes[i]);
    }
}

proof fn lemma_persistable_is_savable(c: ClusterModel)
    requires
        cluster_persistable(c),
    ensures
        cluster_savable(c),
{
    lemma_codes_of_contents(c);
    assert forall|i: int| 0 <= i < c.contents().len() implies {
        &&& (#[trigger] c.contents()[i]).ex_code.len() == ex_code_len(
            c.padded_dim as int,
            c.ex_bits as int,
        )
        &&& c.contents()[i].ex_code.len() <= usize::MAX
    } by {
        assert(c.ex_codes[i] == c.contents()[i].ex_code);
    }
}

proof fn lemma_savable_fits_v4(c: ClusterModel)
    requires
        cluster_savable_v4(c),
        c.pending.len() == 0,
    ensures
        cluster_fits_v4(c),
{
    lemma_codes_of_contents(c);
    assert forall|i: int| 0 <= i < c.ex_codes.len() implies (#[trigger] c.ex_codes[i]).len()
        <= usize::MAX by {
        assert(c.contents()[i].ex_code == c.ex_codes[i]);
    }
}

/// An index can be saved as it is exactly where it can be saved once flushed and nothing is
/// pending.
pub proof fn law_persistable_is_flushed_savable(m: IndexModel)
    ensures
        persistable(m) <==> savable(m) && forall|i: int|
            0 <= i < m.clusters.len() ==> (#[trigger] m.clusters[i]).pending.len() == 0,
{
    if persistable(m) {
        assert forall|i: int| 0 <= i < m.clusters.len() implies cluster_savable(
            #[trigger] m.clusters[i],
        ) by {
            lemma_persistable_is_savable(m.clusters[i]);
        }
    }
    if savable(m) && forall|i: int|
        0 <= i < m.clusters.len() ==> (#[trigger] m.clusters[i]).pending.len() == 0 {
        assert forall|i: int| 0 <= i < m.clusters.len() implies cluster_persistable(
            #[trigger] m.clusters[i],
        ) by {
            lemma_savable_is_persistable(m.clusters[i]);
        }
    }
}

/// What an index file can hold, a manifest and segments can hold too, where the clusters can be
/// numbered.
pub proof fn law_savable_is_savable_v4(m: IndexModel)
    requires
        savable(m),
        m.clusters.len() <= u32::MAX,
    ensures
        savable_v4(m),
{
    assert forall|i: int| 0 <= i < m.clusters.len() implies cluster_savable_v4(
        #[trigger] m.clusters[i],
    ) by {
        assert(cluster_savable(m.clusters[i]));
    }
}

// ----------------------------------------------------------------------------
// Building
// ----------------------------------------------------------------------------

/// Whether every extended code of the parts has the length that an index file holds.
pub open spec fn part_codes_fit(parts: TrainedParts, ex_bits: usize) -> bool {
    forall|i: int|
        0 <= i < parts.quantized@.len() ==> kept_code_len(
            (#[trigger] parts.quantized@[i])@,
            ex_bits,
        ) == ex_code_len(parts.padded_dim as int, ex_bits as int)
}

/// Whether no cluster of the parts gets more than `limit` vectors.
pub open spec fn groups_within(parts: TrainedParts, limit: int) -> bool {
    forall|c: int|
        0 <= c < parts.rotated_centroids@.len() ==> (#[trigger] members(
            parts.assignments@,
            c,
            parts.assignments@.len() as int,
        )).len() <= limit
}

proof fn lemma_members_inside(assignments: Seq<usize>, cid: int, n: int, j: int)
    requires
        0 <= j < members(assignments, cid, n).len(),
    ensures
        0 <= members(assignments, cid, n)[j] < n,
    decreases n,
{
    if n > 0 && j < members(assignments, cid, n - 1).len() {
        lemma_members_inside(assignments, cid, n - 1, j);
    }
}

proof fn lemma_room_for_fewer(few: int, many: int, padded_dim: int)
    requires
        0 <= few <= many,
        0 <= padded_dim,
    ensures
        batches(few) * stride(padded_dim) <= batches(many) * stride(padded_dim),
{
    let st = stride(padded_dim);
    let a = batches(few);
    let b = batches(many);
    assert(a * st <= b * st) by (nonlinear_arith)
        requires
            a <= b,
            0 <= st,
    ;
}

/// What a built cluster holds, read off its contents.
proof fn lemma_built_contents(
    cluster: ClusterModel,
    parts: TrainedParts,
    c: int,
    total_bits: usize,
    i: int,
)
    requires
        built_cluster(cluster, parts, c, total_bits),
        parts.quantized@.len() == parts.assignments@.len(),
        0 <= i < cluster.contents().len(),
    ensures
        cluster.contents().len() == members(
            parts.assignments@,
            c,
            parts.assignments@.len() as int,
        ).len(),
        ({
            let k = members(parts.assignments@, c, parts.assignments@.len() as int)[i];
            &&& 0 <= k < parts.quantized@.len()
            &&& cluster.contents()[i].ex_code.len() == kept_code_len(
                parts.quantized@[k]@,
                (total_bits - 1) as usize,
            )
            &&& cluster.contents()[i].ex_code.len() <= usize::MAX
        }),
{
    let n = parts.assignments@.len() as int;
    let group = members(parts.assignments@, c, n);
    assert(cluster.contents() =~= cluster.packed_vectors());
    lemma_members_inside(parts.assignments@, c, n, i);
    let k = group[i];
    assert(vectors_at(models(parts.quantized@), group)[i] == parts.quantized@[k]@);
    assert(parts.quantized@[k].ex_code_packed.len() <= usize::MAX);
}

proof fn lemma_built_room(cluster: ClusterModel, parts: TrainedParts, c: int, total_bits: usize)
    requires
        built_cluster(cluster, parts, c, total_bits),
        parts.quantized@.len() == parts.assignments@.len(),
        parts_fit(parts),
    ensures
        cluster.has_room(0),
{
    let n = parts.assignments@.len() as int;
    lemma_members_len(parts.assignments@, c, n);
    lemma_room_for_fewer(cluster.num_vectors as int, n, parts.padded_dim as int);
}

/// A built index can be saved in one file: where the dimensions fit the format, the extended codes
/// have the length that the file holds, and no cluster is too large to be taken for intact.
pub proof fn law_built_index_is_persistable(
    m: IndexModel,
    dim: usize,
    metric: Metric,
    parts: TrainedParts,
    total_bits: usize,
)
    requires
        built_index(m, dim, metric, parts, total_bits),
        build_fault(
            parts.assignments@,
            parts.quantized@.len() as int,
            parts.rotated_centroids@.len() as int,
            total_bits,
        ) is None,
        parts_fit(parts),
        0 < dim <= parts.padded_dim <= u32::MAX,
        part_codes_fit(parts, (total_bits - 1) as usize),
        groups_within(parts, MAX_CLUSTER_SIZE as int),
    ensures
        persistable(m),
{
    law_built_index_holds_all(m, dim, metric, parts, total_bits);
    assert(parts.rotated_centroids.len() <= usize::MAX);
    assert(parts.rotator.data.len() <= usize::MAX);
    assert forall|c: int| 0 <= c < m.clusters.len() implies cluster_persistable(
        #[trigger] m.clusters[c],
    ) by {
        let cluster = m.clusters[c];
        assert(built_cluster(cluster, parts, c, total_bits));
        lemma_built_room(cluster, parts, c, total_bits);
        assert forall|i: int| 0 <= i < cluster.contents().len() implies {
            &&& (#[trigger] cluster.contents()[i]).ex_code.len() == ex_code_len(
                cluster.padded_dim as int,
                cluster.ex_bits as int,
            )
            &&& cluster.contents()[i].ex_code.len() <= usize::MAX
        } by {
            lemma_built_contents(cluster, parts, c, total_bits, i);
        }
        lemma_savable_is_persistable(cluster);
    }
}

/// A built index can be saved as a manifest and segments: where the dimensions fit the format, and
/// clusters and their vectors can be numbered.
pub proof fn law_built_index_fits_v4(
    m: IndexModel,
    dim: usize,
    metric: Metric,
    parts: TrainedParts,
    total_bits: usize,
)
    requires
        built_index(m, dim, metric, parts, total_bits),
        build_fault(
            parts.assignments@,
            parts.quantized@.len() as int,
            parts.rotated_centroids@.len() as int,
            total_bits,
        ) is None,
        parts_fit(parts),
        dim <= u32::MAX,
        parts.padded_dim <= u32::MAX,
        parts.rotated_centroids@.len() <= u32::MAX,
        groups_within(parts, u32::MAX as int),
    ensures
        fits_v4(m),
{
    law_built_index_holds_all(m, dim, metric, parts, total_bits);
    assert(parts.rotator.data.len() <= usize::MAX);
    assert forall|c: int| 0 <= c < m.clusters.len() implies cluster_fits_v4(
        #[trigger] m.clusters[c],
    ) by {
        let cluster = m.clusters[c];
        assert(built_cluster(cluster, parts, c, total_bits));
        lemma_built_room(cluster, parts, c, total_bits);
        assert forall|i: int| 0 <= i < cluster.contents().len() implies (
        #[trigger] cluster.contents()[i]).ex_code.len() <= usize::MAX by {
            lemma_built_contents(cluster, parts, c, total_bits, i);
        }
        lemma_savable_fits_v4(cluster);
    }
}

// ----------------------------------------------------------------------------
// Inserting
// ----------------------------------------------------------------------------

proof fn lemma_grown_savable(before: ClusterModel, after: ClusterModel, qs: Seq<QuantizedModel>)
    requires
        cluster_savable(before),
        after.well_formed(),
        after.padded_dim == before.padded_dim,
        after.ex_bits == before.ex_bits,
        after.contents() == before.contents() + stored_all(qs, before.padded_dim, before.ex_bits),
        after.total() == before.total() + qs.len(),
        after.total() <= MAX_CLUSTER_SIZE,
        before.has_room((before.pending.len() + qs.len()) as int),
        forall|i: int|
            0 <= i < qs.len() ==> {
                &&& kept_code_len(#[trigger] qs[i], before.ex_bits) == ex_code_len(
                    before.padded_dim as int,
                    before.ex_bits as int,
                )
                &&& qs[i].ex_code.len() <= usize::MAX
            },
    ensures
        cluster_savable(after),
{
    let n = before.contents().len();
    assert forall|i: int| 0 <= i < after.contents().len() implies {
        &&& (#[trigger] after.contents()[i]).ex_code.len() == ex_code_len(
            after.padded_dim as int,
            after.ex_bits as int,
        )
        &&& after.contents()[i].ex_code.len() <= usize::MAX
    } by {
        if i < n {
            assert(after.contents()[i] == before.contents()[i]);
        } else {
            assert(after.contents()[i] == stored(
                qs[i - n],
                before.padded_dim,
                before.ex_bits,
            ));
        }
    }
}

/// An insertion keeps an index savable: where the cluster has room for one more vector, and the
/// vector brings an extended code of the length that the file holds.
pub proof fn law_insert_keeps_savable(
    before: IndexModel,
    after: IndexModel,
    cid: int,
    id: u64,
    q: QuantizedModel,
)
    requires
        savable(before),
        vector_total(before.clusters) + 1 <= usize::MAX,
        same_but_clusters(before, after),
        after.clusters.len() == before.clusters.len(),
        0 <= cid < before.clusters.len(),
        after.clusters[cid].well_formed(),
        before.clusters[cid].appends(after.clusters[cid], id, q),
        forall|i: int|
            0 <= i < before.clusters.len() && i != cid ==> #[trigger] after.clusters[i]
                == before.clusters[i],
        before.clusters[cid].has_room(before.clusters[cid].pending.len() + 1int),
        before.clusters[cid].total() < MAX_CLUSTER_SIZE,
        kept_code_len(q, before.ex_bits) == ex_code_len(
            before.padded_dim as int,
            before.ex_bits as int,
        ),
        q.ex_code.len() <= usize::MAX,
    ensures
        savable(after),
{
    let a = before.clusters[cid];
    let b = after.clusters[cid];
    law_insert_adds_one(before, after, cid, id, q);
    law_append_adds_one(a, b, id, q);
    assert(stored_all(seq![q], a.padded_dim, a.ex_bits) =~= seq![
        stored(q, a.padded_dim, a.ex_bits),
    ]);
    assert(b.contents() =~= a.contents() + stored_all(seq![q], a.padded_dim, a.ex_bits));
    lemma_grown_savable(a, b, seq![q]);
    assert forall|i: int| 0 <= i < after.clusters.len() implies cluster_savable(
        #[trigger] after.clusters[i],
    ) by {
        assert(cluster_savable(before.clusters[i]));
    }
}

/// A batch keeps an index savable: where every cluster has room for the vectors that it gets, and
/// these bring extended codes of the length that the file holds.
pub proof fn law_batch_insert_keeps_savable(
    before: IndexModel,
    after: IndexModel,
    cids: Seq<usize>,
    start_id: u64,
    vectors: Seq<QuantizedModel>,
)
    requires
        savable(before),
        vector_total(before.clusters) + vectors.len() <= usize::MAX,
        cids.len() == vectors.len(),
        forall|i: int| 0 <= i < cids.len() ==> (#[trigger] cids[i]) < before.clusters.len(),
        same_but_clusters(before, after),
        batch_received(
            before.clusters,
            after.clusters,
            cids,
            start_id,
            vectors,
            vectors.len() as int,
        ),
        forall|c: int|
            0 <= c < before.clusters.len() ==> {
                let more = members(cids, c, vectors.len() as int).len() as int;
                &&& (#[trigger] before.clusters[c]).has_room(
                    before.clusters[c].pending.len() + more,
                )
                &&& before.clusters[c].total() + more <= MAX_CLUSTER_SIZE
            },
        forall|i: int|
            0 <= i < vectors.len() ==> {
                &&& kept_code_len(#[trigger] vectors[i], before.ex_bits) == ex_code_len(
                    before.padded_dim as int,
                    before.ex_bits as int,
                )
                &&& vectors[i].ex_code.len() <= usize::MAX
            },
    ensures
        savable(after),
{
    let n = vectors.len() as int;
    law_batch_insert_adds_all(before, after, cids, start_id, vectors);
    assert forall|c: int| 0 <= c < after.clusters.len() implies cluster_savable(
        #[trigger] after.clusters[c],
    ) by {
        let group = members(cids, c, n);
        let qs = vectors_at(vectors, group);
        assert(cluster_savable(before.clusters[c]));
        assert(before.clusters[c].receives(after.clusters[c], ids_from(start_id, group), qs));
        assert forall|i: int| 0 <= i < qs.len() implies {
            &&& kept_code_len(#[trigger] qs[i], before.ex_bits) == ex_code_len(
                before.padded_dim as int,
                before.ex_bits as int,
            )
            &&& qs[i].ex_code.len() <= usize::MAX
        } by {
            lemma_members_inside(cids, c, n, i);
            assert(qs[i] == vectors[group[i]]);
        }
        lemma_grown_savable(before.clusters[c], after.clusters[c], qs);
    }
}

// ----------------------------------------------------------------------------
// Flushing
// ----------------------------------------------------------------------------

/// A flushed index can be saved in one file.
pub proof fn law_flushed_index_is_persistable(before: IndexModel, after: IndexModel)
    requires
        savable(before),
        same_but_clusters(before, after),
        after.clusters.len() == before.clusters.len(),
        forall|c: int|
            0 <= c < before.clusters.len() ==> before.clusters[c].flushes(
                #[trigger] after.clusters[c],
            ),
    ensures
        persistable(after),
{
    law_flush_all_keeps_vectors(before, after);
    assert forall|c: int| 0 <= c < after.clusters.len() implies cluster_persistable(
        #[trigger] after.clusters[c],
    ) by {
        let a = before.clusters[c];
        let b = after.clusters[c];
        assert(cluster_savable(a));
        assert(a.flushes(b));
        law_flush_keeps_contents(a, b);
        lemma_savable_is_persistable(b);
    }
}

/// A flushed index can be saved as a manifest and segments.
pub proof fn law_flushed_index_fits_v4(before: IndexModel, after: IndexModel)
    requires
        savable_v4(before),
        same_but_clusters(before, after),
        after.clusters.len() == before.clusters.len(),
        forall|c: int|
            0 <= c < before.clusters.len() ==> before.clusters[c].flushes(
                #[trigger] after.clusters[c],
            ),
    ensures
        fits_v4(after),
{
    law_flush_all_keeps_vectors(before, after);
    assert forall|c: int| 0 <= c < after.clusters.len() implies cluster_fits_v4(
        #[trigger] after.clusters[c],
    ) by {
        let a = before.clusters[c];
        let b = after.clusters[c];
        assert(cluster_savable_v4(a));
        assert(a.flushes(b));
        law_flush_keeps_contents(a, b);
        lemma_savable_fits_v4(b);
    }
}

} // verus!
