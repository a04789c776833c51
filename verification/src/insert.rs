//! Adding vectors to an index.
use crate::cluster::{
    law_append_adds_one, law_flush_keeps_contents, lemma_receives_nothing,
    lemma_receives_one_more, lemma_room_left, packable, ClusterModel,
};
use crate::error::RabitqError;
use crate::float_bits::{float_lt, lt, INFINITY, ZERO};
use crate::index::{vector_total, IndexModel, IvfRabitqIndex};
use crate::quantized::{models, QuantizedModel, QuantizedVector};
use vstd::prelude::*;

verus! {

/// The nearest of the first `n` centroids and its distance: the first one of the smallest
/// distance. Distances that are not below infinity do not count; without any that counts, the
/// answer is cluster 0.
pub open spec fn nearest_of(distances: Seq<u32>, n: int) -> (int, u32)
    decreases n,
{
    if n <= 0 {
        (0, INFINITY)
    } else {
        let (cid, best) = nearest_of(distances, n - 1);
        if float_lt(distances[n - 1], best) {
            (n - 1, distances[n - 1])
        } else {
            (cid, best)
        }
    }
}

/// The nearest centroid.
pub open spec fn nearest(distances: Seq<u32>) -> int {
    nearest_of(distances, distances.len() as int).0
}

/// Finds the nearest cluster by the distances to all centroids.
pub fn find_nearest_cluster_id(distances: &[u32]) -> (cid: usize)
    ensures
        cid == nearest(distances@),
        distances@.len() > 0 ==> cid < distances@.len(),
{
    let mut best_cid: usize = 0;
    let mut best_dist: u32 = INFINITY;
    let mut i: usize = 0;
    while i < distances.len()
        invariant
            i <= distances@.len(),
            (best_cid as int, best_dist) == nearest_of(distances@, i as int),
            i > 0 ==> best_cid < i,
            i == 0 ==> best_cid == 0,
        decreases distances@.len() - i,
    {
        if lt(distances[i], best_dist) {
            best_dist = distances[i];
            best_cid = i;
        }
        i += 1;
    }
    best_cid
}

proof fn lemma_nearest(distances: Seq<u32>, n: int)
    requires
        0 <= n <= distances.len(),
    ensures
        ({
            let (cid, best) = nearest_of(distances, n);
            &&& n > 0 ==> 0 <= cid < n
            &&& best == INFINITY || float_lt(best, INFINITY)
            &&& best == INFINITY ==> cid == 0
            &&& best != INFINITY ==> cid < n && distances[cid] == best
            &&& forall|i: int| 0 <= i < n ==> !float_lt(#[trigger] distances[i], best)
            &&& forall|i: int|
                0 <= i < cid && best != INFINITY ==> !float_lt(#[trigger] distances[i], best)
                    && (crate::float_bits::is_nan_bits(distances[i]) || float_lt(
                    best,
                    distances[i],
                ))
        }),
    decreases n,
{
    if n > 0 {
        lemma_nearest(distances, n - 1);
    }
}

/// The nearest cluster is one of smallest distance, and the first of these: no distance is below
/// its distance, and those of earlier clusters are above it (or no numbers). Where no distance is
/// below infinity, it is cluster 0.
pub proof fn law_nearest_is_first_minimum(distances: Seq<u32>)
    requires
        distances.len() > 0,
    ensures
        ({
            let cid = nearest(distances);
            &&& 0 <= cid < distances.len()
            &&& (exists|i: int|
                0 <= i < distances.len() && float_lt(#[trigger] distances[i], INFINITY)) ==> {
                &&& float_lt(distances[cid], INFINITY)
                &&& forall|i: int|
                    0 <= i < distances.len() ==> !float_lt(#[trigger] distances[i], distances[cid])
                &&& forall|i: int|
                    0 <= i < cid ==> crate::float_bits::is_nan_bits(#[trigger] distances[i])
                        || float_lt(distances[cid], distances[i])
            }
            &&& !(exists|i: int|
                0 <= i < distances.len() && float_lt(#[trigger] distances[i], INFINITY)) ==> cid
                == 0
        }),
{
    lemma_nearest(distances, distances.len() as int);
}

/// A distance that is not below zero.
pub open spec fn floored(distance: u32) -> u32 {
    if float_lt(distance, ZERO) {
        ZERO
    } else {
        distance
    }
}

/// Distances that are not below zero.
pub open spec fn floored_all(distances: Seq<u32>) -> Seq<u32> {
    distances.map_values(|d: u32| floored(d))
}

/// Raises distances below zero to zero.
pub fn floor_distances(distances: &[u32]) -> (r: Vec<u32>)
    ensures
        r@ == floored_all(distances@),
{
    let mut r: Vec<u32> = Vec::new();
    let mut i: usize = 0;
    assert(r@ =~= floored_all(distances@).take(0));
    while i < distances.len()
        invariant
            i <= distances@.len(),
            r@ == floored_all(distances@).take(i as int),
        decreases distances@.len() - i,
    {
        if lt(distances[i], ZERO) {
            r.push(ZERO);
        } else {
            r.push(distances[i]);
        }
        i += 1;
        assert(r@ =~= floored_all(distances@).take(i as int));
    }
    assert(floored_all(distances@).take(i as int) =~= floored_all(distances@));
    r
}

/// The indices below `n` that are assigned to cluster `cid`, in order.
pub open spec fn members(assignments: Seq<usize>, cid: int, n: int) -> Seq<int>
    decreases n,
{
    if n <= 0 {
        Seq::empty()
    } else if assignments[n - 1] == cid {
        members(assignments, cid, n - 1).push(n - 1)
    } else {
        members(assignments, cid, n - 1)
    }
}

/// An index that differs from `self` in its clusters alone.
pub open spec fn same_but_clusters(a: IndexModel, b: IndexModel) -> bool {
    b == (IndexModel { clusters: b.clusters, ..a })
}

impl IvfRabitqIndex {
    /// Inserts one vector into the cluster nearest to it. The caller gives the dimension of the
    /// vector, its distances to all centroids, and the vector quantized against the nearest one.
    pub fn insert(
        &mut self,
        vector_id: u64,
        vector_dim: usize,
        distances: &[u32],
        quantized: QuantizedVector,
    ) -> (r: Result<u32, RabitqError>)
        requires
            vector_dim == old(self)@.dim ==> {
                let c = old(self)@.clusters[nearest(distances@)];
                &&& old(self)@.clusters.len() > 0
                &&& distances@.len() == old(self)@.clusters.len()
                &&& c.well_formed()
                &&& quantized@.code.len() == c.padded_dim / 8
                &&& c.has_room(c.pending.len() + 1int)
            },
        ensures
            if vector_dim != old(self)@.dim {
                &&& r == Err::<u32, RabitqError>(
                    RabitqError::DimensionMismatch { expected: old(self)@.dim, got: vector_dim },
                )
                &&& *final(self) == *old(self)
            } else {
                let cid = nearest(distances@);
                &&& r == Ok::<u32, RabitqError>(cid as u32)
                &&& same_but_clusters(old(self)@, final(self)@)
                &&& final(self)@.clusters.len() == old(self)@.clusters.len()
                &&& final(self)@.clusters[cid].well_formed()
                &&& old(self)@.clusters[cid].appends(
                    final(self)@.clusters[cid],
                    vector_id,
                    quantized@,
                )
                &&& forall|i: int|
                    0 <= i < old(self)@.clusters.len() && i != cid
                        ==> #[trigger] final(self)@.clusters[i] == old(self)@.clusters[i]
            },
    {
        if vector_dim != self.dim {
            return Err(
                RabitqError::DimensionMismatch { expected: self.dim, got: vector_dim },
            );
        }
        let cid: usize = find_nearest_cluster_id(distances);
        assert(self@.clusters[cid as int] == self.clusters@[cid as int]@);
        self.clusters[cid].append_vector(vector_id, quantized);
        Ok(cid as u32)
    }
}

/// The cluster that each vector of a batch goes to.
pub open spec fn batch_cids(distances: Seq<Vec<u32>>) -> Seq<usize> {
    distances.map_values(|d: Vec<u32>| nearest(floored_all(d@)) as usize)
}

/// The ids of the vectors of a batch at the given indices.
pub open spec fn ids_from(start_id: u64, indices: Seq<int>) -> Seq<u64> {
    indices.map_values(|i: int| (start_id + i) as u64)
}

/// The vectors of a batch at the given indices.
pub open spec fn vectors_at(
    vectors: Seq<QuantizedModel>,
    indices: Seq<int>,
) -> Seq<QuantizedModel> {
    indices.map_values(|i: int| vectors[i])
}

/// All clusters after the first `n` vectors of a batch: each has received those that are nearest
/// to it, in order.
pub open spec fn batch_received(
    before: Seq<ClusterModel>,
    after: Seq<ClusterModel>,
    cids: Seq<usize>,
    start_id: u64,
    vectors: Seq<QuantizedModel>,
    n: int,
) -> bool {
    &&& after.len() == before.len()
    &&& forall|c: int|
        0 <= c < before.len() ==> before[c].receives(
            #[trigger] after[c],
            ids_from(start_id, members(cids, c, n)),
            vectors_at(vectors, members(cids, c, n)),
        )
}

impl IvfRabitqIndex {
    /// Inserts a batch of vectors under consecutive ids, each into the cluster nearest to it. The
    /// caller gives the distances of each vector to all centroids, and each vector quantized
    /// against the nearest one. Distances below zero count as zero.
    pub fn batch_insert(
        &mut self,
        start_id: u64,
        distances: &[Vec<u32>],
        quantized: &[QuantizedVector],
    ) -> (r: Result<(), RabitqError>)
        requires
            distances@.len() == quantized@.len(),
            quantized@.len() > 0 ==> {
                &&& old(self)@.well_formed()
                &&& old(self)@.clusters.len() > 0
                &&& start_id + quantized@.len() <= u64::MAX + 1
                &&& packable(models(quantized@), old(self)@.padded_dim as int)
                &&& forall|i: int|
                    0 <= i < distances@.len() ==> (#[trigger] distances@[i])@.len()
                        == old(self)@.clusters.len()
                &&& forall|c: int|
                    0 <= c < old(self)@.clusters.len() ==> (#[trigger] old(
                        self,
                    )@.clusters[c]).has_room(
                        old(self)@.clusters[c].pending.len() + quantized@.len() as int,
                    )
            },
        ensures
            r == Ok::<(), RabitqError>(()),
            quantized@.len() == 0 ==> *final(self) == *old(self),
            quantized@.len() > 0 ==> same_but_clusters(old(self)@, final(self)@)
                && batch_received(
                old(self)@.clusters,
                final(self)@.clusters,
                batch_cids(distances@),
                start_id,
                models(quantized@),
                quantized@.len() as int,
            ),
    {
        if quantized.len() == 0 {
            return Ok(());
        }
        let ghost before = self@.clusters;
        let ghost cids = batch_cids(distances@);
        let ghost qs = models(quantized@);
        proof {
            assert forall|c: int| 0 <= c < before.len() implies before[c].receives(
                #[trigger] self@.clusters[c],
                ids_from(start_id, members(cids, c, 0)),
                vectors_at(qs, members(cids, c, 0)),
            ) by {
                lemma_receives_nothing(before[c]);
                assert(ids_from(start_id, members(cids, c, 0)) =~= Seq::empty());
                assert(vectors_at(qs, members(cids, c, 0)) =~= Seq::empty());
            }
        }
        let mut i: usize = 0;
        while i < quantized.len()
            invariant
                i <= quantized@.len(),
                distances@.len() == quantized@.len(),
                old(self)@.well_formed(),
                before == old(self)@.clusters,
                before.len() > 0,
                cids == batch_cids(distances@),
                qs == models(quantized@),
                start_id + quantized@.len() <= u64::MAX + 1,
                packable(qs, old(self)@.padded_dim as int),
                forall|j: int|
                    0 <= j < distances@.len() ==> (#[trigger] distances@[j])@.len() == before.len(),
                forall|c: int|
                    0 <= c < before.len() ==> (#[trigger] before[c]).has_room(
                        before[c].pending.len() + quantized@.len() as int,
                    ),
                same_but_clusters(old(self)@, self@),
                batch_received(before, self@.clusters, cids, start_id, qs, i as int),
            decreases quantized@.len() - i,
        {
            let ghost current = self@.clusters;
            let floored: Vec<u32> = floor_distances(distances[i].as_slice());
            let cid: usize = find_nearest_cluster_id(floored.as_slice());
            let ghost c = cid as int;
            proof {
                assert(cids[i as int] == cid);
                assert(current[c] == self.clusters@[c]@);
                assert(before[c].receives(
                    current[c],
                    ids_from(start_id, members(cids, c, i as int)),
                    vectors_at(qs, members(cids, c, i as int)),
                ));
                lemma_members_len(cids, c, i as int);
                lemma_room_left(before[c], current[c], quantized@.len() as int);
                assert(qs[i as int] == quantized@[i as int]@);
            }
            let id: u64 = start_id + i as u64;
            self.clusters[cid].append_vector(id, quantized[i].duplicate());
            proof {
                let after = self@.clusters;
                assert(after.len() == current.len());
                assert forall|d: int| 0 <= d < before.len() implies before[d].receives(
                    #[trigger] after[d],
                    ids_from(start_id, members(cids, d, i + 1)),
                    vectors_at(qs, members(cids, d, i + 1)),
                ) by {
                    assert(before[d].receives(
                        current[d],
                        ids_from(start_id, members(cids, d, i as int)),
                        vectors_at(qs, members(cids, d, i as int)),
                    ));
                    if d == c {
                        let some = members(cids, d, i as int);
                        lemma_receives_one_more(
                            before[d],
                            current[d],
                            after[d],
                            ids_from(start_id, some),
                            vectors_at(qs, some),
                            id,
                            qs[i as int],
                        );
                        assert(ids_from(start_id, some.push(i as int)) =~= ids_from(
                            start_id,
                            some,
                        ).push(id));
                        assert(vectors_at(qs, some.push(i as int)) =~= vectors_at(qs, some).push(
                            qs[i as int],
                        ));
                    } else {
                        assert(after[d] == current[d]);
                    }
                }
            }
            i += 1;
        }
        Ok(())
    }

    /// Packs the pending vectors of all clusters, so that all vectors are in the batches.
    pub fn flush_all_pending(&mut self)
        requires
            forall|c: int|
                0 <= c < old(self)@.clusters.len() ==> {
                    &&& (#[trigger] old(self)@.clusters[c]).well_formed()
                    &&& old(self)@.clusters[c].has_room(
                        old(self)@.clusters[c].pending.len() as int,
                    )
                },
        ensures
            same_but_clusters(old(self)@, final(self)@),
            final(self)@.clusters.len() == old(self)@.clusters.len(),
            forall|c: int|
                0 <= c < old(self)@.clusters.len() ==> old(self)@.clusters[c].flushes(
                    #[trigger] final(self)@.clusters[c],
                ),
    {
        let ghost before = self@.clusters;
        let mut i: usize = 0;
        while i < self.clusters.len()
            invariant
                i <= self.clusters@.len(),
                before == old(self)@.clusters,
                forall|c: int|
                    0 <= c < before.len() ==> {
                        &&& (#[trigger] before[c]).well_formed()
                        &&& before[c].has_room(before[c].pending.len() as int)
                    },
                same_but_clusters(old(self)@, self@),
                self@.clusters.len() == before.len(),
                forall|c: int| 0 <= c < i ==> before[c].flushes(#[trigger] self@.clusters[c]),
                forall|c: int| i <= c < before.len() ==> #[trigger] self@.clusters[c] == before[c],
            decreases self.clusters@.len() - i,
        {
            let ghost current = self@.clusters;
            assert(current[i as int] == self.clusters@[i as int]@);
            assert(before[i as int].well_formed());
            self.clusters[i].flush_pending();
            proof {
                let after = self@.clusters;
                assert forall|c: int| 0 <= c < i + 1 implies before[c].flushes(
                    #[trigger] after[c],
                ) by {
                    if c < i {
                        assert(after[c] == current[c]);
                    }
                }
                assert forall|c: int| i + 1 <= c < before.len() implies #[trigger] after[c]
                    == before[c] by {
                    assert(after[c] == current[c]);
                }
            }
            i += 1;
        }
    }
}

/// A group has no more members than there are indices.
pub proof fn lemma_members_len(assignments: Seq<usize>, cid: int, n: int)
    requires
        0 <= n,
    ensures
        members(assignments, cid, n).len() <= n,
    decreases n,
{
    if n > 0 {
        lemma_members_len(assignments, cid, n - 1);
    }
}

proof fn lemma_total_of_change(a: Seq<ClusterModel>, b: Seq<ClusterModel>, cid: int)
    requires
        a.len() == b.len(),
        0 <= cid < a.len(),
        forall|i: int| 0 <= i < a.len() && i != cid ==> #[trigger] b[i] == a[i],
    ensures
        vector_total(b) == vector_total(a) - a[cid].total() + b[cid].total(),
    decreases a.len(),
{
    if cid == a.len() - 1 {
        assert(a.drop_last() =~= b.drop_last());
    } else {
        assert(b[b.len() - 1] == a[a.len() - 1]);
        lemma_total_of_change(a.drop_last(), b.drop_last(), cid);
    }
}

/// An insertion adds exactly one vector to the index, in exactly one cluster: the nearest, at the
/// end and under the new id. All other clusters stay as they are, and a well-formed index stays
/// well formed.
pub proof fn law_insert_adds_one(
    before: IndexModel,
    after: IndexModel,
    cid: int,
    id: u64,
    q: QuantizedModel,
)
    requires
        before.well_formed(),
        vector_total(before.clusters) + 1 <= usize::MAX,
        same_but_clusters(before, after),
        after.clusters.len() == before.clusters.len(),
        0 <= cid < before.clusters.len(),
        after.clusters[cid].well_formed(),
        before.clusters[cid].appends(after.clusters[cid], id, q),
        forall|i: int|
            0 <= i < before.clusters.len() && i != cid ==> #[trigger] after.clusters[i]
                == before.clusters[i],
    ensures
        after.well_formed(),
        vector_total(after.clusters) == vector_total(before.clusters) + 1,
        after.clusters[cid].all_ids() == before.clusters[cid].all_ids().push(id),
        after.clusters[cid].contents() == before.clusters[cid].contents().push(
            crate::cluster::stored(q, before.padded_dim, before.ex_bits),
        ),
{
    assert(before.clusters[cid].well_formed());
    law_append_adds_one(before.clusters[cid], after.clusters[cid], id, q);
    lemma_total_of_change(before.clusters, after.clusters, cid);
    assert forall|i: int| 0 <= i < after.clusters.len() implies {
        &&& (#[trigger] after.clusters[i]).well_formed()
        &&& after.clusters[i].padded_dim == after.padded_dim
        &&& after.clusters[i].ex_bits == after.ex_bits
    } by {
        assert(before.clusters[i].well_formed());
    }
}

proof fn lemma_total_of_flushed(a: Seq<ClusterModel>, b: Seq<ClusterModel>)
    requires
        a.len() == b.len(),
        forall|c: int| 0 <= c < a.len() ==> a[c].flushes(#[trigger] b[c]),
    ensures
        vector_total(b) == vector_total(a),
    decreases a.len(),
{
    if a.len() > 0 {
        let x = a.drop_last();
        let y = b.drop_last();
        assert forall|c: int| 0 <= c < x.len() implies x[c].flushes(#[trigger] y[c]) by {
            assert(y[c] == b[c]);
        }
        lemma_total_of_flushed(x, y);
        assert(a.last().flushes(b[b.len() - 1]));
    }
}

/// Flushing leaves no vector pending and loses none: number, ids and contents stay, cluster by
/// cluster, and a well-formed index stays well formed.
pub proof fn law_flush_all_keeps_vectors(before: IndexModel, after: IndexModel)
    requires
        before.well_formed(),
        same_but_clusters(before, after),
        after.clusters.len() == before.clusters.len(),
        forall|c: int|
            0 <= c < before.clusters.len() ==> before.clusters[c].flushes(
                #[trigger] after.clusters[c],
            ),
    ensures
        after.well_formed(),
        vector_total(after.clusters) == vector_total(before.clusters),
        forall|c: int|
            0 <= c < after.clusters.len() ==> {
                &&& (#[trigger] after.clusters[c]).pending.len() == 0
                &&& after.clusters[c].all_ids() == before.clusters[c].all_ids()
                &&& after.clusters[c].contents() == before.clusters[c].contents()
            },
{
    lemma_total_of_flushed(before.clusters, after.clusters);
    assert forall|c: int| 0 <= c < after.clusters.len() implies {
        &&& (#[trigger] after.clusters[c]).pending.len() == 0
        &&& after.clusters[c].all_ids() == before.clusters[c].all_ids()
        &&& after.clusters[c].contents() == before.clusters[c].contents()
        &&& after.clusters[c].well_formed()
        &&& after.clusters[c].padded_dim == after.padded_dim
        &&& after.clusters[c].ex_bits == after.ex_bits
    } by {
        assert(before.clusters[c].well_formed());
        law_flush_keeps_contents(before.clusters[c], after.clusters[c]);
    }
}

/// Number of indices below `n` that are assigned to one of the first `k` clusters.
pub open spec fn member_count(assignments: Seq<usize>, k: int, n: int) -> int
    decreases k,
{
    if k <= 0 {
        0
    } else {
        member_count(assignments, k - 1, n) + members(assignments, k - 1, n).len()
    }
}

proof fn lemma_member_count_step(assignments: Seq<usize>, k: int, n: int)
    requires
        0 <= k,
        0 < n,
    ensures
        member_count(assignments, k, n) == member_count(assignments, k, n - 1) + if assignments[n
            - 1] < k {
            1int
        } else {
            0
        },
    decreases k,
{
    if k > 0 {
        lemma_member_count_step(assignments, k - 1, n);
    }
}

/// Grouping by cluster is a partition: where all assignments name one of `k` clusters, the groups
/// of these clusters have `n` members together.
pub proof fn law_members_partition(assignments: Seq<usize>, k: int, n: int)
    requires
        0 <= n <= assignments.len(),
        0 <= k,
        forall|i: int| 0 <= i < n ==> (#[trigger] assignments[i]) < k,
    ensures
        member_count(assignments, k, n) == n,
    decreases n,
{
    if n == 0 {
        lemma_no_members(assignments, k);
    } else {
        law_members_partition(assignments, k, n - 1);
        lemma_member_count_step(assignments, k, n);
    }
}

proof fn lemma_no_members(assignments: Seq<usize>, k: int)
    ensures
        member_count(assignments, k, 0) == 0,
    decreases k,
{
    if k > 0 {
        lemma_no_members(assignments, k - 1);
    }
}

/// The members of a group are the indices that are assigned to it, each once, in order.
pub proof fn law_members_are_the_assigned(assignments: Seq<usize>, cid: int, n: int)
    requires
        0 <= n <= assignments.len(),
    ensures
        forall|j: int|
            0 <= j < members(assignments, cid, n).len() ==> 0 <= #[trigger] members(
                assignments,
                cid,
                n,
            )[j] < n && assignments[members(assignments, cid, n)[j]] == cid,
        forall|i: int|
            0 <= i < n && #[trigger] assignments[i] == cid ==> members(
                assignments,
                cid,
                n,
            ).contains(i),
        forall|a: int, b: int|
            0 <= a < b < members(assignments, cid, n).len() ==> #[trigger] members(
                assignments,
                cid,
                n,
            )[a] < #[trigger] members(assignments, cid, n)[b],
    decreases n,
{
    if n > 0 {
        law_members_are_the_assigned(assignments, cid, n - 1);
        let before = members(assignments, cid, n - 1);
        let after = members(assignments, cid, n);
        assert forall|i: int| 0 <= i < n && #[trigger] assignments[i] == cid implies after.contains(
            i,
        ) by {
            if i == n - 1 {
                assert(after[after.len() - 1] == i);
            } else {
                assert(before.contains(i));
                let j = choose|j: int| 0 <= j < before.len() && before[j] == i;
                assert(after[j] == i);
            }
        }
        assert forall|j: int| 0 <= j < after.len() implies 0 <= #[trigger] after[j] < n
            && assignments[after[j]] == cid by {
            if j < before.len() {
                assert(after[j] == before[j]);
            }
        }
        assert forall|a: int, b: int| 0 <= a < b < after.len() implies #[trigger] after[a]
            < #[trigger] after[b] by {
            assert(after[a] == before[a]);
            if b < before.len() {
                assert(after[b] == before[b]);
            }
        }
    }
}

proof fn lemma_total_of_batch(
    before: Seq<ClusterModel>,
    after: Seq<ClusterModel>,
    cids: Seq<usize>,
    start_id: u64,
    vectors: Seq<QuantizedModel>,
    n: int,
    k: int,
)
    requires
        batch_received(before, after, cids, start_id, vectors, n),
        0 <= k <= before.len(),
    ensures
        vector_total(after.take(k)) == vector_total(before.take(k)) + member_count(cids, k, n),
    decreases k,
{
    if k > 0 {
        lemma_total_of_batch(before, after, cids, start_id, vectors, n, k - 1);
        assert(after.take(k).drop_last() =~= after.take(k - 1));
        assert(before.take(k).drop_last() =~= before.take(k - 1));
        assert(before[k - 1].receives(
            after[k - 1],
            ids_from(start_id, members(cids, k - 1, n)),
            vectors_at(vectors, members(cids, k - 1, n)),
        ));
    } else {
        assert(after.take(0) =~= Seq::empty());
        assert(before.take(0) =~= Seq::empty());
    }
}

/// A batch adds exactly its vectors to the index, and keeps it well formed.
pub proof fn law_batch_insert_adds_all(
    before: IndexModel,
    after: IndexModel,
    cids: Seq<usize>,
    start_id: u64,
    vectors: Seq<QuantizedModel>,
)
    requires
        before.well_formed(),
        vector_total(before.clusters) + vectors.len() <= usize::MAX,
        cids.len() == vectors.len(),
        forall|i: int| 0 <= i < cids.len() ==> (#[trigger] cids[i]) < before.clusters.len(),
        same_but_clusters(before, after),
        batch_received(
            before.clusters,
            after.clusters,
            cids,
            start_id,
            vectors,
            vectors.len() as int,
        ),
    ensures
        after.well_formed(),
        vector_total(after.clusters) == vector_total(before.clusters) + vectors.len(),
{
    let k = before.clusters.len() as int;
    let n = vectors.len() as int;
    lemma_total_of_batch(before.clusters, after.clusters, cids, start_id, vectors, n, k);
    law_members_partition(cids, k, n);
    assert(before.clusters.take(k) =~= before.clusters);
    assert(after.clusters.take(k) =~= after.clusters);
    assert forall|c: int| 0 <= c < after.clusters.len() implies {
        &&& (#[trigger] after.clusters[c]).well_formed()
        &&& after.clusters[c].padded_dim == after.padded_dim
        &&& after.clusters[c].ex_bits == after.ex_bits
    } by {
        assert(before.clusters[c].well_formed());
        assert(before.clusters[c].receives(
            after.clusters[c],
            ids_from(start_id, members(cids, c, n)),
            vectors_at(vectors, members(cids, c, n)),
        ));
    }
}

} // verus!
