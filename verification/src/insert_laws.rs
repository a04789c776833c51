//! Where inserted and trained vectors go, and that they are kept as they came.
use crate::cluster::{stored, stored_all, ClusterModel};
use crate::float_bits::{float_lt, is_nan_bits, INFINITY};
use crate::float_laws::{
    exponent_field, fraction_field, law_comparison_is_numeric, law_fields_tell_kinds, numeric,
};
use crate::index::IndexModel;
use crate::insert::{
    batch_cids, batch_received, floored, floored_all, ids_from, law_members_are_the_assigned,
    law_nearest_is_first_minimum, members, nearest, same_but_clusters, vectors_at,
};
use crate::quantized::{models, QuantizedModel};
use crate::train::{build_fault, built_cluster, built_index, TrainedParts};
use crate::types::Metric;
use vstd::prelude::*;

verus! {

/// Whether bits are those of a number, not of a NaN.
pub open spec fn is_number(d: u32) -> bool {
    exponent_field(d) != 255 || fraction_field(d) == 0
}

/// Whether bits are those of a number below infinity.
pub open spec fn is_below_infinity(d: u32) -> bool {
    is_number(d) && d != 0x7f80_0000
}

/// The larger of a number and zero.
pub open spec fn not_below_zero(n: int) -> int {
    if n < 0 {
        0
    } else {
        n
    }
}

proof fn lemma_below_infinity(d: u32)
    ensures
        float_lt(d, INFINITY) <==> is_below_infinity(d),
        is_nan_bits(d) <==> !is_number(d),
{
    law_fields_tell_kinds(d);
    law_fields_tell_kinds(INFINITY);
}

/// Raising to zero changes the numbers below zero alone: these become zero, and everything else stays
/// bit for bit what it was.
pub proof fn law_floor_changes_negatives_alone(d: u32)
    ensures
        is_number(d) && numeric(d) < 0 ==> floored(d) == 0,
        !is_number(d) || numeric(d) >= 0 ==> floored(d) == d,
        is_number(d) ==> numeric(floored(d)) == not_below_zero(numeric(d)),
{
    law_fields_tell_kinds(d);
    law_fields_tell_kinds(0);
    law_comparison_is_numeric(d, 0);
    assert(numeric(0) == 0);
}

/// An inserted vector goes to the nearest cluster: where some distance is a number below infinity, so
/// is that of the chosen cluster, no distance is less, and those of the clusters before it are
/// greater. What is no number does not count.
pub proof fn law_insert_goes_to_nearest(distances: Seq<u32>, k: int)
    requires
        0 <= k < distances.len(),
        is_below_infinity(distances[k]),
    ensures
        ({
            let c = nearest(distances);
            &&& 0 <= c < distances.len()
            &&& is_below_infinity(distances[c])
            &&& numeric(distances[c]) <= numeric(distances[k])
            &&& k < c ==> numeric(distances[c]) < numeric(distances[k])
        }),
{
    let c = nearest(distances);
    law_nearest_is_first_minimum(distances);
    lemma_below_infinity(distances[k]);
    assert(float_lt(distances[k], INFINITY));
    lemma_below_infinity(distances[c]);
    law_comparison_is_numeric(distances[k], distances[c]);
    law_comparison_is_numeric(distances[c], distances[k]);
}

/// A vector of a batch goes to the nearest cluster, distances below zero counting as zero: where some
/// distance is a number below infinity, so is that of the chosen cluster, no distance counts less,
/// and those of the clusters before it count more.
pub proof fn law_batch_goes_to_nearest(distances: Seq<Vec<u32>>, i: int, k: int)
    requires
        0 <= i < distances.len(),
        0 <= k < distances[i]@.len(),
        is_below_infinity(distances[i]@[k]),
    ensures
        ({
            let c = batch_cids(distances)[i] as int;
            let own = distances[i]@;
            &&& batch_cids(distances).len() == distances.len()
            &&& 0 <= c < own.len()
            &&& is_below_infinity(own[c])
            &&& not_below_zero(numeric(own[c])) <= not_below_zero(numeric(own[k]))
            &&& k < c ==> not_below_zero(numeric(own[c])) < not_below_zero(numeric(own[k]))
        }),
{
    let own = distances[i]@;
    let raised = floored_all(own);
    law_floor_changes_negatives_alone(own[k]);
    assert(raised[k] == floored(own[k]));
    assert(is_below_infinity(raised[k]));
    law_insert_goes_to_nearest(raised, k);
    let c = nearest(raised);
    assert(raised[c] == floored(own[c]));
    law_floor_changes_negatives_alone(own[c]);
    assert(distances[i].len() <= usize::MAX);
}

/// Whether a stored vector is as it came: the bytes of its code, its parameters and, where there are
/// extended bits, its extended code with its parameters.
pub open spec fn kept_as(a: QuantizedModel, q: QuantizedModel, ex_bits: usize) -> bool {
    &&& a.code.len() >= q.code.len()
    &&& forall|b: int| 0 <= b < q.code.len() ==> #[trigger] a.code[b] == q.code[b]
    &&& a.delta == q.delta
    &&& a.vl == q.vl
    &&& a.f_add == q.f_add
    &&& a.f_rescale == q.f_rescale
    &&& a.f_error == q.f_error
    &&& ex_bits > 0 ==> {
        &&& a.ex_code == q.ex_code
        &&& a.f_add_ex == q.f_add_ex
        &&& a.f_rescale_ex == q.f_rescale_ex
    }
    &&& ex_bits == 0 ==> {
        &&& a.ex_code.len() == 0
        &&& a.f_add_ex == 0
        &&& a.f_rescale_ex == 0
    }
}

/// Packing keeps a vector as it came.
pub proof fn law_packing_keeps_vectors(q: QuantizedModel, padded_dim: usize, ex_bits: usize)
    ensures
        kept_as(stored(q, padded_dim, ex_bits), q, ex_bits),
        stored(q, padded_dim, ex_bits).dim == padded_dim,
        ex_bits < 256 ==> stored(q, padded_dim, ex_bits).ex_bits == ex_bits,
{
}

/// Whether entry `k` of a cluster, packed and pending, is a vector under an id.
pub open spec fn holds_at(c: ClusterModel, k: int, id: u64, q: QuantizedModel) -> bool {
    &&& 0 <= k < c.ids.len() + c.pending_ids.len()
    &&& (if k < c.ids.len() {
        c.ids[k]
    } else {
        c.pending_ids[k - c.ids.len()]
    }) == id
    &&& if k < c.num_vectors {
        kept_as(c.packed(k), q, c.ex_bits)
    } else {
        kept_as(
            stored(c.pending[k - c.num_vectors], c.padded_dim, c.ex_bits),
            q,
            c.ex_bits,
        )
    }
}

proof fn lemma_holds_entry(c: ClusterModel, k: int, q: QuantizedModel)
    requires
        c.well_formed(),
        0 <= k < c.contents().len(),
        c.contents()[k] == stored(q, c.padded_dim, c.ex_bits),
    ensures
        holds_at(c, k, c.all_ids()[k], q),
{
    law_packing_keeps_vectors(q, c.padded_dim, c.ex_bits);
    if k < c.num_vectors {
        assert(c.contents()[k] == c.packed(k));
    } else {
        assert(c.contents()[k] == stored(
            c.pending[k - c.num_vectors],
            c.padded_dim,
            c.ex_bits,
        ));
    }
}

/// A batch arrives whole: vector `i` is found, under the `i`-th id from the first on, in the cluster
/// that it was sent to, as it came.
pub proof fn law_batch_insert_keeps_each(
    before: IndexModel,
    after: IndexModel,
    cids: Seq<usize>,
    start_id: u64,
    vectors: Seq<QuantizedModel>,
    i: int,
)
    requires
        before.well_formed(),
        same_but_clusters(before, after),
        cids.len() == vectors.len(),
        start_id + vectors.len() <= u64::MAX + 1,
        batch_received(
            before.clusters,
            after.clusters,
            cids,
            start_id,
            vectors,
            vectors.len() as int,
        ),
        0 <= i < vectors.len(),
        cids[i] < before.clusters.len(),
    ensures
        after.clusters.len() == before.clusters.len(),
        exists|k: int|
            #[trigger] holds_at(
                after.clusters[cids[i] as int],
                k,
                (start_id + i) as u64,
                vectors[i],
            ),
{
    let c = cids[i] as int;
    let n = vectors.len() as int;
    let a = before.clusters[c];
    let b = after.clusters[c];
    let group = members(cids, c, n);
    assert(a.well_formed());
    assert(a.receives(b, ids_from(start_id, group), vectors_at(vectors, group)));
    law_members_are_the_assigned(cids, c, n);
    assert(group.contains(i));
    let g = choose|g: int| 0 <= g < group.len() && group[g] == i;
    let k = a.contents().len() + g;
    assert(a.contents().len() == a.all_ids().len());
    assert(b.all_ids()[k] == ids_from(start_id, group)[g]);
    assert(b.contents()[k] == stored_all(vectors_at(vectors, group), a.padded_dim, a.ex_bits)[g]);
    assert(b.contents()[k] == stored(vectors[i], b.padded_dim, b.ex_bits));
    lemma_holds_entry(b, k, vectors[i]);
    assert(holds_at(b, k, (start_id + i) as u64, vectors[i]));
}

/// A trained index holds what it was trained on: vector `i` is found, under its index as its id, in
/// the cluster that it was assigned to, as it came; and each cluster has its own centroid.
pub proof fn law_training_keeps_each(
    m: IndexModel,
    dim: usize,
    metric: Metric,
    parts: TrainedParts,
    total_bits: usize,
    i: int,
)
    requires
        built_index(m, dim, metric, parts, total_bits),
        parts.assignments@.len() == parts.quantized@.len(),
        1 <= total_bits <= 16,
        0 <= i < parts.assignments@.len(),
        parts.assignments@[i] < parts.rotated_centroids@.len(),
    ensures
        m.dim == dim,
        m.metric == metric,
        m.ex_bits + 1 == total_bits,
        m.padded_dim == parts.padded_dim,
        m.rotator_type == parts.rotator.rotator_type,
        m.rotator_data == parts.rotator.data@,
        m.clusters.len() == parts.rotated_centroids@.len(),
        m.clusters[parts.assignments@[i] as int].centroid
            == parts.rotated_centroids@[parts.assignments@[i] as int]@,
        exists|k: int|
            #[trigger] holds_at(
                m.clusters[parts.assignments@[i] as int],
                k,
                i as u64,
                parts.quantized@[i]@,
            ),
{
    let n = parts.assignments@.len() as int;
    let c = parts.assignments@[i] as int;
    let b = m.clusters[c];
    let all = models(parts.quantized@);
    let group = members(parts.assignments@, c, n);
    assert(built_cluster(b, parts, c, total_bits));
    law_members_are_the_assigned(parts.assignments@, c, n);
    assert(group.contains(i));
    let k = choose|k: int| 0 <= k < group.len() && group[k] == i;
    assert(b.contents() =~= b.packed_vectors());
    assert(b.all_ids() =~= b.ids);
    assert(b.contents()[k] == stored(all[i], b.padded_dim, b.ex_bits));
    assert(ids_from(0, group)[k] == i as u64);
    lemma_holds_entry(b, k, all[i]);
    assert(holds_at(b, k, i as u64, parts.quantized@[i]@));
}

/// What makes the parts of training fit to build from: as many assignments as vectors, between one
/// and sixteen bits, at least one centroid, and assignments to centroids that there are. Each of
/// these is asked for in turn, and nothing else is.
pub proof fn law_build_needs(
    assignments: Seq<usize>,
    vector_count: int,
    centroid_count: int,
    total_bits: usize,
)
    requires
        0 <= centroid_count,
    ensures
        build_fault(assignments, vector_count, centroid_count, total_bits) is None <==> {
            &&& assignments.len() == vector_count
            &&& 1 <= total_bits <= 16
            &&& centroid_count >= 1
            &&& forall|i: int| 0 <= i < assignments.len()
                ==> (#[trigger] assignments[i]) < centroid_count
        },
{
}

} // verus!
