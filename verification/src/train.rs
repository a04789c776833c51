//! Building an index from training data.
//!
//! K-means, rotation and quantization are done elsewhere. Here their inputs are checked, and
//! their outputs are grouped into clusters.
use crate::cluster::{
    batches, is_packed_cluster, packable, stride, ClusterData, ClusterModel,
};
use crate::error::RabitqError;
use crate::index::{vector_total, IndexModel, IvfRabitqIndex};
use crate::insert::{
    ids_from, law_members_are_the_assigned, law_members_partition, lemma_members_len, member_count,
    members, vectors_at,
};
use crate::quantized::{lemma_models_push, models, QuantizedVector};
use crate::types::{Metric, Rotator};
use vstd::prelude::*;

verus! {

/// Whether all vectors have the dimension of the first one.
pub open spec fn same_dims(dims: Seq<usize>, dim: usize) -> bool {
    forall|i: int| 0 <= i < dims.len() ==> #[trigger] dims[i] == dim
}

/// Why training cannot start on vectors of dimensions `dims`; `None` where it can.
pub open spec fn train_fault(dims: Seq<usize>, nlist: usize, total_bits: usize) -> Option<
    &'static str,
> {
    if dims.len() == 0 {
        Some("training data must be non-empty")
    } else if nlist == 0 {
        Some("nlist must be positive")
    } else if total_bits == 0 || total_bits > 16 {
        Some("total_bits must be between 1 and 16")
    } else if !same_dims(dims, dims[0]) {
        Some("input vectors must share the same dimension")
    } else if nlist > dims.len() {
        Some("nlist cannot exceed number of vectors")
    } else {
        None
    }
}

/// Whether all assignments name one of `nlist` clusters.
pub open spec fn assignments_valid(assignments: Seq<usize>, nlist: int) -> bool {
    forall|i: int| 0 <= i < assignments.len() ==> (#[trigger] assignments[i]) < nlist
}

/// Why training cannot start on vectors and centroids of the given dimensions; `None` where it
/// can.
pub open spec fn train_with_clusters_fault(
    dims: Seq<usize>,
    centroid_dims: Seq<usize>,
    assignments: Seq<usize>,
    total_bits: usize,
) -> Option<&'static str> {
    if dims.len() == 0 {
        Some("training data must be non-empty")
    } else if centroid_dims.len() == 0 {
        Some("centroids must be non-empty")
    } else if assignments.len() != dims.len() {
        Some("assignments length must match data length")
    } else if total_bits == 0 || total_bits > 16 {
        Some("total_bits must be between 1 and 16")
    } else if !same_dims(dims, dims[0]) {
        Some("input vectors must share the same dimension")
    } else if !same_dims(centroid_dims, dims[0]) {
        Some("centroids must match the data dimensionality")
    } else if centroid_dims.len() > dims.len() {
        Some("nlist cannot exceed number of vectors")
    } else if !assignments_valid(assignments, centroid_dims.len() as int) {
        Some("assignments reference invalid cluster ids")
    } else {
        None
    }
}

/// Why clusters cannot be built; `None` where they can.
pub open spec fn build_fault(
    assignments: Seq<usize>,
    vector_count: int,
    centroid_count: int,
    total_bits: usize,
) -> Option<&'static str> {
    if assignments.len() != vector_count {
        Some("assignments length must match number of vectors")
    } else if total_bits == 0 || total_bits > 16 {
        Some("total_bits must be between 1 and 16")
    } else if centroid_count == 0 {
        Some("nlist must be positive")
    } else if !assignments_valid(assignments, centroid_count) {
        Some("assignments reference invalid cluster ids")
    } else {
        None
    }
}

/// The outcome of a check: the dimension, or why there is none.
pub open spec fn checked(fault: Option<&'static str>, dims: Seq<usize>) -> Result<
    usize,
    RabitqError,
> {
    match fault {
        Some(why) => Err(RabitqError::InvalidConfig(why)),
        None => Ok(dims[0]),
    }
}

fn all_equal(dims: &[usize], dim: usize) -> (r: bool)
    ensures
        r == same_dims(dims@, dim),
{
    let mut i: usize = 0;
    while i < dims.len()
        invariant
            i <= dims@.len(),
            forall|j: int| 0 <= j < i ==> #[trigger] dims@[j] == dim,
        decreases dims@.len() - i,
    {
        if dims[i] != dim {
            assert(dims@[i as int] != dim);
            return false;
        }
        i += 1;
    }
    true
}

fn all_below(assignments: &[usize], nlist: usize) -> (r: bool)
    ensures
        r == assignments_valid(assignments@, nlist as int),
{
    let mut i: usize = 0;
    while i < assignments.len()
        invariant
            i <= assignments@.len(),
            forall|j: int| 0 <= j < i ==> (#[trigger] assignments@[j]) < nlist,
        decreases assignments@.len() - i,
    {
        if assignments[i] >= nlist {
            assert(!(assignments@[i as int] < nlist));
            return false;
        }
        i += 1;
    }
    true
}

/// Checks the parameters of training on vectors of dimensions `dims`, and gives their dimension.
pub fn check_train(dims: &[usize], nlist: usize, total_bits: usize) -> (r: Result<
    usize,
    RabitqError,
>)
    ensures
        r == checked(train_fault(dims@, nlist, total_bits), dims@),
{
    if dims.len() == 0 {
        return Err(RabitqError::InvalidConfig("training data must be non-empty"));
    }
    if nlist == 0 {
        return Err(RabitqError::InvalidConfig("nlist must be positive"));
    }
    if total_bits == 0 || total_bits > 16 {
        return Err(RabitqError::InvalidConfig("total_bits must be between 1 and 16"));
    }
    let dim: usize = dims[0];
    if !all_equal(dims, dim) {
        return Err(RabitqError::InvalidConfig("input vectors must share the same dimension"));
    }
    if nlist > dims.len() {
        return Err(RabitqError::InvalidConfig("nlist cannot exceed number of vectors"));
    }
    Ok(dim)
}

/// Checks the parameters of training with given centroids and assignments, and gives the
/// dimension of the vectors.
pub fn check_train_with_clusters(
    dims: &[usize],
    centroid_dims: &[usize],
    assignments: &[usize],
    total_bits: usize,
) -> (r: Result<usize, RabitqError>)
    ensures
        r == checked(
            train_with_clusters_fault(dims@, centroid_dims@, assignments@, total_bits),
            dims@,
        ),
{
    if dims.len() == 0 {
        return Err(RabitqError::InvalidConfig("training data must be non-empty"));
    }
    if centroid_dims.len() == 0 {
        return Err(RabitqError::InvalidConfig("centroids must be non-empty"));
    }
    if assignments.len() != dims.len() {
        return Err(RabitqError::InvalidConfig("assignments length must match data length"));
    }
    if total_bits == 0 || total_bits > 16 {
        return Err(RabitqError::InvalidConfig("total_bits must be between 1 and 16"));
    }
    let dim: usize = dims[0];
    if !all_equal(dims, dim) {
        return Err(RabitqError::InvalidConfig("input vectors must share the same dimension"));
    }
    if !all_equal(centroid_dims, dim) {
        return Err(RabitqError::InvalidConfig("centroids must match the data dimensionality"));
    }
    if centroid_dims.len() > dims.len() {
        return Err(RabitqError::InvalidConfig("nlist cannot exceed number of vectors"));
    }
    if !all_below(assignments, centroid_dims.len()) {
        return Err(RabitqError::InvalidConfig("assignments reference invalid cluster ids"));
    }
    Ok(dim)
}

/// What the numeric stages of training give: the rotated centroids, the cluster of each vector,
/// and each vector quantized against the centroid of its cluster.
#[derive(Debug)]
pub struct TrainedParts {
    pub padded_dim: usize,
    pub rotator: Rotator,
    pub rotated_centroids: Vec<Vec<u32>>,
    pub assignments: Vec<usize>,
    pub quantized: Vec<QuantizedVector>,
}

/// Whether the parts are those of `n` vectors and `nlist` centroids.
pub open spec fn parts_of(parts: TrainedParts, n: int, nlist: int) -> bool {
    &&& parts.assignments@.len() == n
    &&& parts.quantized@.len() == n
    &&& parts.rotated_centroids@.len() == nlist
}

/// Whether the parts fit together: centroids and codes of the padded dimension, and clusters
/// that can be addressed.
pub open spec fn parts_fit(parts: TrainedParts) -> bool {
    &&& packable(models(parts.quantized@), parts.padded_dim as int)
    &&& forall|c: int|
        0 <= c < parts.rotated_centroids@.len() ==> (#[trigger] parts.rotated_centroids@[c])@.len()
            == parts.padded_dim
    &&& parts.quantized@.len() + 31 <= usize::MAX
    &&& batches(parts.quantized@.len() as int) * stride(parts.padded_dim as int) <= usize::MAX
}

/// The cluster around centroid `c`: the vectors that are assigned to it, in order, each under its
/// index as its id.
pub open spec fn built_cluster(
    cluster: ClusterModel,
    parts: TrainedParts,
    c: int,
    total_bits: usize,
) -> bool {
    let group = members(parts.assignments@, c, parts.assignments@.len() as int);
    is_packed_cluster(
        cluster,
        parts.rotated_centroids@[c]@,
        ids_from(0, group),
        vectors_at(models(parts.quantized@), group),
        parts.padded_dim,
        (total_bits - 1) as usize,
    )
}

/// The index that is built from the parts.
pub open spec fn built_index(
    m: IndexModel,
    dim: usize,
    metric: Metric,
    parts: TrainedParts,
    total_bits: usize,
) -> bool {
    &&& m.dim == dim
    &&& m.padded_dim == parts.padded_dim
    &&& m.metric == metric
    &&& m.rotator_type == parts.rotator.rotator_type
    &&& m.rotator_data == parts.rotator.data@
    &&& m.ex_bits == total_bits - 1
    &&& m.clusters.len() == parts.rotated_centroids@.len()
    &&& forall|c: int|
        0 <= c < m.clusters.len() ==> built_cluster(#[trigger] m.clusters[c], parts, c, total_bits)
}

/// What building comes to: an error, or the index.
pub open spec fn builds(
    r: Result<IvfRabitqIndex, RabitqError>,
    fault: Option<&'static str>,
    dim: usize,
    metric: Metric,
    parts: TrainedParts,
    total_bits: usize,
) -> bool {
    match fault {
        Some(why) => r == Err::<IvfRabitqIndex, RabitqError>(RabitqError::InvalidConfig(why)),
        None => r is Ok && built_index(r->Ok_0@, dim, metric, parts, total_bits),
    }
}

/// Groups the vector indices by cluster.
fn group_by_cluster(assignments: &[usize], cluster_count: usize) -> (groups: Vec<Vec<usize>>)
    requires
        assignments_valid(assignments@, cluster_count as int),
    ensures
        groups@.len() == cluster_count,
        forall|c: int|
            0 <= c < cluster_count ==> is_group(
                (#[trigger] groups@[c])@,
                members(assignments@, c, assignments@.len() as int),
            ),
{
    let mut groups: Vec<Vec<usize>> = Vec::new();
    let mut k: usize = 0;
    while k < cluster_count
        invariant
            k <= cluster_count,
            groups@.len() == k,
            forall|c: int| 0 <= c < k ==> (#[trigger] groups@[c])@.len() == 0,
        decreases cluster_count - k,
    {
        groups.push(Vec::new());
        k += 1;
    }
    let mut i: usize = 0;
    while i < assignments.len()
        invariant
            i <= assignments@.len(),
            assignments_valid(assignments@, cluster_count as int),
            groups@.len() == cluster_count,
            forall|c: int|
                0 <= c < cluster_count ==> is_group(
                    (#[trigger] groups@[c])@,
                    members(assignments@, c, i as int),
                ),
        decreases assignments@.len() - i,
    {
        let ghost before = groups@;
        let cid: usize = assignments[i];
        groups[cid].push(i);
        proof {
            assert forall|c: int| 0 <= c < cluster_count implies is_group(
                (#[trigger] groups@[c])@,
                members(assignments@, c, i + 1),
            ) by {
                assert(is_group(before[c]@, members(assignments@, c, i as int)));
                if c != cid {
                    assert(groups@[c] == before[c]);
                }
            }
        }
        i += 1;
    }
    groups
}

/// Whether a vector of indices holds the given ones.
spec fn is_group(group: Seq<usize>, indices: Seq<int>) -> bool {
    &&& group.len() == indices.len()
    &&& forall|j: int| 0 <= j < group.len() ==> #[trigger] group[j] == indices[j]
}

impl IvfRabitqIndex {
    /// Builds the clusters of an index from the outputs of the numeric stages.
    pub fn build_from_rotated(
        dim: usize,
        metric: Metric,
        parts: TrainedParts,
        total_bits: usize,
    ) -> (r: Result<
        IvfRabitqIndex,
        RabitqError,
    >)
        requires
            build_fault(
                parts.assignments@,
                parts.quantized@.len() as int,
                parts.rotated_centroids@.len() as int,
                total_bits,
            ) is None ==> parts_fit(parts),
        ensures
            builds(
                r,
                build_fault(
                    parts.assignments@,
                    parts.quantized@.len() as int,
                    parts.rotated_centroids@.len() as int,
                    total_bits,
                ),
                dim,
                metric,
                parts,
                total_bits,
            ),
    {
        if parts.assignments.len() != parts.quantized.len() {
            return Err(
                RabitqError::InvalidConfig("assignments length must match number of vectors"),
            );
        }
        if total_bits == 0 || total_bits > 16 {
            return Err(RabitqError::InvalidConfig("total_bits must be between 1 and 16"));
        }
        let cluster_count: usize = parts.rotated_centroids.len();
        if cluster_count == 0 {
            return Err(RabitqError::InvalidConfig("nlist must be positive"));
        }
        if !all_below(parts.assignments.as_slice(), cluster_count) {
            return Err(RabitqError::InvalidConfig("assignments reference invalid cluster ids"));
        }
        let groups: Vec<Vec<usize>> = group_by_cluster(
            parts.assignments.as_slice(),
            cluster_count,
        );
        let mut clusters: Vec<ClusterData> = Vec::new();
        let mut c: usize = 0;
        while c < cluster_count
            invariant
                c <= cluster_count,
                cluster_count == parts.rotated_centroids@.len(),
                parts.assignments@.len() == parts.quantized@.len(),
                parts_fit(parts),
                1 <= total_bits <= 16,
                groups@.len() == cluster_count,
                forall|d: int|
                    0 <= d < cluster_count ==> is_group(
                        (#[trigger] groups@[d])@,
                        members(parts.assignments@, d, parts.assignments@.len() as int),
                    ),
                clusters@.len() == c,
                forall|d: int|
                    0 <= d < c ==> built_cluster((#[trigger] clusters@[d])@, parts, d, total_bits),
            decreases cluster_count - c,
        {
            let built: ClusterData = gather_cluster(&parts, &groups[c], c, total_bits);
            clusters.push(built);
            c += 1;
        }
        let padded_dim: usize = parts.padded_dim;
        let r = IvfRabitqIndex {
            dim,
            padded_dim,
            metric,
            rotator: parts.rotator,
            clusters,
            ex_bits: total_bits - 1,
        };
        assert forall|d: int| 0 <= d < r@.clusters.len() implies built_cluster(
            #[trigger] r@.clusters[d],
            parts,
            d,
            total_bits,
        ) by {
            assert(r@.clusters[d] == clusters@[d]@);
        }
        Ok(r)
    }

    /// Trains an index on vectors of dimensions `dims`, given what the numeric stages make of
    /// them.
    pub fn train(
        dims: &[usize],
        nlist: usize,
        total_bits: usize,
        metric: Metric,
        parts: TrainedParts,
    ) -> (r: Result<IvfRabitqIndex, RabitqError>)
        requires
            train_fault(dims@, nlist, total_bits) is None ==> parts_of(
                parts,
                dims@.len() as int,
                nlist as int,
            ),
            train_fault(dims@, nlist, total_bits) is None && build_fault(
                parts.assignments@,
                parts.quantized@.len() as int,
                parts.rotated_centroids@.len() as int,
                total_bits,
            ) is None ==> parts_fit(parts),
        ensures
            builds(
                r,
                match train_fault(dims@, nlist, total_bits) {
                    Some(why) => Some(why),
                    None => build_fault(
                        parts.assignments@,
                        parts.quantized@.len() as int,
                        parts.rotated_centroids@.len() as int,
                        total_bits,
                    ),
                },
                dims@[0],
                metric,
                parts,
                total_bits,
            ),
            r matches Ok(index) ==> {
                &&& index@.well_formed()
                &&& index@.clusters.len() == nlist
                &&& vector_total(index@.clusters) == dims@.len()
            },
    {
        let dim: usize = check_train(dims, nlist, total_bits)?;
        let r = Self::build_from_rotated(dim, metric, parts, total_bits);
        proof {
            if let Ok(index) = &r {
                law_built_index_holds_all(index@, dim, metric, parts, total_bits);
            }
        }
        r
    }

    /// Trains an index on vectors of dimensions `dims` with given centroids and assignments, given
    /// what the numeric stages make of them.
    pub fn train_with_clusters(
        dims: &[usize],
        centroid_dims: &[usize],
        total_bits: usize,
        metric: Metric,
        parts: TrainedParts,
    ) -> (r: Result<IvfRabitqIndex, RabitqError>)
        requires
            train_with_clusters_fault(
                dims@,
                centroid_dims@,
                parts.assignments@,
                total_bits,
            ) is None ==> parts_of(parts, dims@.len() as int, centroid_dims@.len() as int),
            train_with_clusters_fault(dims@, centroid_dims@, parts.assignments@, total_bits) is None
                && build_fault(
                parts.assignments@,
                parts.quantized@.len() as int,
                parts.rotated_centroids@.len() as int,
                total_bits,
            ) is None ==> parts_fit(parts),
        ensures
            builds(
                r,
                match train_with_clusters_fault(
                    dims@,
                    centroid_dims@,
                    parts.assignments@,
                    total_bits,
                ) {
                    Some(why) => Some(why),
                    None => build_fault(
                        parts.assignments@,
                        parts.quantized@.len() as int,
                        parts.rotated_centroids@.len() as int,
                        total_bits,
                    ),
                },
                dims@[0],
                metric,
                parts,
                total_bits,
            ),
            r matches Ok(index) ==> {
                &&& index@.well_formed()
                &&& index@.clusters.len() == centroid_dims@.len()
                &&& vector_total(index@.clusters) == dims@.len()
            },
    {
        let dim: usize = check_train_with_clusters(
            dims,
            centroid_dims,
            parts.assignments.as_slice(),
            total_bits,
        )?;
        let r = Self::build_from_rotated(dim, metric, parts, total_bits);
        proof {
            if let Ok(index) = &r {
                law_built_index_holds_all(index@, dim, metric, parts, total_bits);
            }
        }
        r
    }
}

/// Builds the cluster around centroid `c` from the vectors at the given indices.
fn gather_cluster(
    parts: &TrainedParts,
    group: &Vec<usize>,
    c: usize,
    total_bits: usize,
) -> (cluster: ClusterData)
    requires
        c < parts.rotated_centroids@.len(),
        parts.assignments@.len() == parts.quantized@.len(),
        parts_fit(*parts),
        1 <= total_bits <= 16,
        is_group(
            group@,
            members(parts.assignments@, c as int, parts.assignments@.len() as int),
        ),
    ensures
        built_cluster(cluster@, *parts, c as int, total_bits),
{
    let ghost indices = members(parts.assignments@, c as int, parts.assignments@.len() as int);
    let ghost all = models(parts.quantized@);
    let mut ids: Vec<u64> = Vec::new();
    let mut vectors: Vec<QuantizedVector> = Vec::new();
    let mut j: usize = 0;
    proof {
        law_members_are_the_assigned(
            parts.assignments@,
            c as int,
            parts.assignments@.len() as int,
        );
        lemma_members_len(parts.assignments@, c as int, parts.assignments@.len() as int);
        assert(ids@ =~= ids_from(0, indices.take(0)));
        assert(models(vectors@) =~= vectors_at(all, indices.take(0)));
    }
    while j < group.len()
        invariant
            j <= group@.len(),
            is_group(group@, indices),
            parts.assignments@.len() == parts.quantized@.len(),
            all == models(parts.quantized@),
            forall|i: int|
                0 <= i < indices.len() ==> 0 <= #[trigger] indices[i] < parts.assignments@.len(),
            ids@ == ids_from(0, indices.take(j as int)),
            models(vectors@) == vectors_at(all, indices.take(j as int)),
        decreases group@.len() - j,
    {
        let idx: usize = group[j];
        let ghost sofar = vectors@;
        assert(idx == indices[j as int]);
        ids.push(idx as u64);
        let q: QuantizedVector = parts.quantized[idx].duplicate();
        vectors.push(q);
        proof {
            lemma_models_push(sofar, q);
            assert(indices.take(j + 1) =~= indices.take(j as int).push(indices[j as int]));
            assert(ids@ =~= ids_from(0, indices.take(j + 1)));
            assert(models(vectors@) =~= vectors_at(all, indices.take(j + 1)));
        }
        j += 1;
    }
    proof {
        assert(indices.take(j as int) =~= indices);
        assert forall|i: int| 0 <= i < vectors_at(all, indices).len() implies (
        #[trigger] vectors_at(all, indices)[i]).code.len() == parts.padded_dim / 8 by {
            assert(vectors_at(all, indices)[i] == all[indices[i]]);
        }
        let n = parts.quantized@.len() as int;
        let st = stride(parts.padded_dim as int);
        assert(batches(indices.len() as int) * st <= batches(n) * st) by (nonlinear_arith)
            requires
                batches(indices.len() as int) <= batches(n),
                0 <= st,
        ;
    }
    let centroid: Vec<u32> = vstd::slice::slice_to_vec(parts.rotated_centroids[c].as_slice());
    ClusterData::from_quantized_vectors(centroid, ids, vectors, parts.padded_dim, total_bits - 1)
}

proof fn lemma_total_of_built(m: IndexModel, parts: TrainedParts, total_bits: usize, k: int)
    requires
        0 <= k <= m.clusters.len(),
        forall|c: int|
            0 <= c < m.clusters.len() ==> built_cluster(
                #[trigger] m.clusters[c],
                parts,
                c,
                total_bits,
            ),
    ensures
        vector_total(m.clusters.take(k)) == member_count(
            parts.assignments@,
            k,
            parts.assignments@.len() as int,
        ),
    decreases k,
{
    if k > 0 {
        lemma_total_of_built(m, parts, total_bits, k - 1);
        assert(m.clusters.take(k).drop_last() =~= m.clusters.take(k - 1));
        assert(built_cluster(m.clusters[k - 1], parts, k - 1, total_bits));
    } else {
        assert(m.clusters.take(0) =~= Seq::empty());
    }
}

/// A built index is well formed and holds as many vectors as were assigned, none of them pending.
pub proof fn law_built_index_holds_all(
    m: IndexModel,
    dim: usize,
    metric: Metric,
    parts: TrainedParts,
    total_bits: usize,
)
    requires
        built_index(m, dim, metric, parts, total_bits),
        assignments_valid(parts.assignments@, parts.rotated_centroids@.len() as int),
    ensures
        m.well_formed(),
        vector_total(m.clusters) == parts.assignments@.len(),
        forall|c: int|
            0 <= c < m.clusters.len() ==> (#[trigger] m.clusters[c]).pending.len() == 0,
{
    let k = m.clusters.len() as int;
    lemma_total_of_built(m, parts, total_bits, k);
    law_members_partition(parts.assignments@, k, parts.assignments@.len() as int);
    assert(m.clusters.take(k) =~= m.clusters);
    assert(parts.assignments.len() == parts.assignments@.len());
    assert forall|c: int| 0 <= c < m.clusters.len() implies {
        &&& (#[trigger] m.clusters[c]).pending.len() == 0
        &&& m.clusters[c].well_formed()
        &&& m.clusters[c].padded_dim == m.padded_dim
        &&& m.clusters[c].ex_bits == m.ex_bits
    } by {
        assert(built_cluster(m.clusters[c], parts, c, total_bits));
    }
}

} // verus!
