//! The index: clusters of quantized vectors around centroids.
use crate::cluster::{ClusterData, ClusterModel};
use crate::types::{Metric, Rotator, RotatorType};
use vstd::prelude::*;

verus! {

/// An IVF index over RaBitQ-quantized vectors.
#[derive(Debug)]
pub struct IvfRabitqIndex {
    /// Dimension of the vectors.
    pub dim: usize,
    /// Dimension after rotation and padding.
    pub padded_dim: usize,
    pub metric: Metric,
    pub rotator: Rotator,
    pub clusters: Vec<ClusterData>,
    /// Extended bits per dimension.
    pub ex_bits: usize,
}

/// What an index holds.
#[verifier::ext_equal]
pub struct IndexModel {
    pub dim: usize,
    pub padded_dim: usize,
    pub metric: Metric,
    pub rotator_type: RotatorType,
    pub rotator_data: Seq<u8>,
    pub clusters: Seq<ClusterModel>,
    pub ex_bits: usize,
}

/// What the clusters of a sequence hold.
pub open spec fn cluster_models(clusters: Seq<ClusterData>) -> Seq<ClusterModel> {
    clusters.map_values(|c: ClusterData| c@)
}

impl View for IvfRabitqIndex {
    type V = IndexModel;

    open spec fn view(&self) -> IndexModel {
        IndexModel {
            dim: self.dim,
            padded_dim: self.padded_dim,
            metric: self.metric,
            rotator_type: self.rotator.rotator_type,
            rotator_data: self.rotator.data@,
            clusters: cluster_models(self.clusters@),
            ex_bits: self.ex_bits,
        }
    }
}

/// Number of vectors in clusters, packed and pending.
pub open spec fn vector_total(clusters: Seq<ClusterModel>) -> int
    decreases clusters.len(),
{
    if clusters.len() == 0 {
        0
    } else {
        vector_total(clusters.drop_last()) + clusters.last().total()
    }
}

impl IndexModel {
    /// All clusters hold together and share the dimensions of the index.
    pub open spec fn well_formed(self) -> bool {
        &&& vector_total(self.clusters) <= usize::MAX
        &&& forall|i: int|
            0 <= i < self.clusters.len() ==> {
                &&& (#[trigger] self.clusters[i]).well_formed()
                &&& self.clusters[i].padded_dim == self.padded_dim
                &&& self.clusters[i].ex_bits == self.ex_bits
            }
    }
}

/// A prefix of the clusters holds no more vectors than all of them.
pub proof fn lemma_total_of_prefix(clusters: Seq<ClusterModel>, n: int)
    requires
        0 <= n <= clusters.len(),
    ensures
        0 <= vector_total(clusters.take(n)) <= vector_total(clusters),
    decreases clusters.len(),
{
    if n == clusters.len() {
        assert(clusters.take(n) =~= clusters);
        if n > 0 {
            lemma_total_of_prefix(clusters.drop_last(), n - 1);
        }
    } else {
        lemma_total_of_prefix(clusters.drop_last(), n);
        assert(clusters.drop_last().take(n) =~= clusters.take(n));
    }
}

impl IvfRabitqIndex {
    /// Number of stored vectors.
    pub fn len(&self) -> (n: usize)
        requires
            vector_total(self@.clusters) <= usize::MAX,
        ensures
            n == vector_total(self@.clusters),
    {
        let mut sum: usize = 0;
        let mut i: usize = 0;
        assert(self@.clusters.take(0) =~= Seq::empty());
        while i < self.clusters.len()
            invariant
                i <= self.clusters@.len(),
                vector_total(self@.clusters) <= usize::MAX,
                sum == vector_total(self@.clusters.take(i as int)),
            decreases self.clusters@.len() - i,
        {
            proof {
                let next = self@.clusters.take(i + 1);
                lemma_total_of_prefix(self@.clusters, i + 1);
                assert(next.drop_last() =~= self@.clusters.take(i as int));
                assert(next.last() == self.clusters@[i as int]@);
                lemma_total_of_prefix(self@.clusters, i as int);
            }
            sum = sum + self.clusters[i].total_vectors();
            i += 1;
        }
        assert(self@.clusters.take(i as int) =~= self@.clusters);
        sum
    }

    /// Whether the index holds no vector.
    pub fn is_empty(&self) -> (r: bool)
        requires
            vector_total(self@.clusters) <= usize::MAX,
        ensures
            r == (vector_total(self@.clusters) == 0),
    {
        self.len() == 0
    }

    /// Number of clusters.
    pub fn cluster_count(&self) -> (n: usize)
        ensures
            n == self@.clusters.len(),
    {
        self.clusters.len()
    }
}

impl IvfRabitqIndex {
    /// Whether all clusters hold together and share the dimensions of the index.
    pub fn is_well_formed(&self) -> (r: bool)
        ensures
            r == self@.well_formed(),
    {
        let mut sum: usize = 0;
        let mut i: usize = 0;
        assert(self@.clusters.take(0) =~= Seq::empty());
        while i < self.clusters.len()
            invariant
                i <= self.clusters@.len(),
                sum == vector_total(self@.clusters.take(i as int)),
                forall|j: int|
                    0 <= j < i ==> {
                        &&& (#[trigger] self@.clusters[j]).well_formed()
                        &&& self@.clusters[j].padded_dim == self@.padded_dim
                        &&& self@.clusters[j].ex_bits == self@.ex_bits
                    },
            decreases self.clusters@.len() - i,
        {
            let c = &self.clusters[i];
            proof {
                let next = self@.clusters.take(i + 1);
                lemma_total_of_prefix(self@.clusters, i + 1);
                assert(next.drop_last() =~= self@.clusters.take(i as int));
                assert(next.last() == c@);
                assert(self@.clusters[i as int] == c@);
            }
            if c.padded_dim != self.padded_dim || c.ex_bits != self.ex_bits
                || !c.is_well_formed() {
                return false;
            }
            if c.num_vectors > usize::MAX - c.pending_ids.len() {
                return false;
            }
            let total: usize = c.total_vectors();
            if sum > usize::MAX - total {
                return false;
            }
            sum = sum + total;
            i += 1;
        }
        assert(self@.clusters.take(i as int) =~= self@.clusters);
        true
    }
}

} // verus!
