//! Search: choosing clusters, scanning them with pruning, and ranking what is found.
//!
//! Distances are computed elsewhere and handed in as bits; what happens to them is decided
//! here.
use crate::cluster::{ClusterData, ClusterModel};
use crate::error::RabitqError;
use crate::filter::{admits, filter_ids, passes};
use crate::float_bits::{
    clamp_at_zero, clamped, float_ge, ge, is_finite, is_finite_bits, negate, negated, total_lt,
    total_rank, INFINITY,
};
use crate::index::{vector_total, IndexModel, IvfRabitqIndex};
use crate::ranking::{first, is_ranked, offered, ranked, ranked_with};
use crate::types::Metric;
use roaring::RoaringBitmap;
use vstd::prelude::*;

verus! {

/// Parameters of a search.
#[derive(Debug, Clone, Copy)]
pub struct SearchParams {
    /// Number of results wanted.
    pub top_k: usize,
    /// Number of clusters to scan.
    pub nprobe: usize,
}

impl SearchParams {
    pub fn new(top_k: usize, nprobe: usize) -> (r: SearchParams)
        ensures
            r.top_k == top_k,
            r.nprobe == nprobe,
    {
        SearchParams { top_k, nprobe }
    }
}

/// One result of a search. The score is given by its bits: the distance for L2, the estimated
/// inner product otherwise.
#[derive(Debug, Clone, Copy, PartialEq, Eq, Structural)]
pub struct SearchResult {
    pub id: u64,
    pub score: u32,
}

/// What a search did.
#[derive(Debug, Clone, Copy, PartialEq, Eq, Structural)]
pub struct SearchDiagnostics {
    /// Vectors whose distance was taken into account.
    pub estimated: usize,
    /// Vectors that their lower bound ruled out.
    pub skipped_by_lower_bound: usize,
    /// Vectors whose distance was refined.
    pub extended_evaluations: usize,
}

impl Default for SearchDiagnostics {
    fn default() -> (r: SearchDiagnostics)
        ensures
            r == (SearchDiagnostics {
                estimated: 0,
                skipped_by_lower_bound: 0,
                extended_evaluations: 0,
            }),
    {
        SearchDiagnostics { estimated: 0, skipped_by_lower_bound: 0, extended_evaluations: 0 }
    }
}

/// A vector that a search has found so far.
#[derive(Debug, Clone, Copy, PartialEq, Eq, Structural)]
pub struct HeapCandidate {
    pub id: u64,
    pub distance: u32,
    pub score: u32,
}

/// What the distance kernels give for one cluster: for each packed vector a lower bound of its
/// distance, the one-bit estimate and the refined distance, and for each pending vector its
/// distance. All numbers are given by their bits.
#[derive(Debug)]
pub struct ClusterEstimates {
    pub lower_bounds: Vec<u32>,
    pub est_distances: Vec<u32>,
    pub refined_distances: Vec<u32>,
    pub pending_distances: Vec<u32>,
}

/// What the distance kernels give for one query: its dimension, its score against each
/// centroid, and the estimates of each cluster. The estimates of clusters that are not scanned
/// may be empty.
#[derive(Debug)]
pub struct QueryEstimates {
    pub dim: usize,
    pub centroid_scores: Vec<u32>,
    pub clusters: Vec<ClusterEstimates>,
}

/// What `ClusterEstimates` holds.
#[verifier::ext_equal]
pub struct EstimatesModel {
    pub lower_bounds: Seq<u32>,
    pub est_distances: Seq<u32>,
    pub refined_distances: Seq<u32>,
    pub pending_distances: Seq<u32>,
}

impl View for ClusterEstimates {
    type V = EstimatesModel;

    open spec fn view(&self) -> EstimatesModel {
        EstimatesModel {
            lower_bounds: self.lower_bounds@,
            est_distances: self.est_distances@,
            refined_distances: self.refined_distances@,
            pending_distances: self.pending_distances@,
        }
    }
}

/// What `QueryEstimates` holds.
#[verifier::ext_equal]
pub struct QueryModel {
    pub dim: usize,
    pub centroid_scores: Seq<u32>,
    pub clusters: Seq<EstimatesModel>,
}

impl View for QueryEstimates {
    type V = QueryModel;

    open spec fn view(&self) -> QueryModel {
        QueryModel {
            dim: self.dim,
            centroid_scores: self.centroid_scores@,
            clusters: self.clusters@.map_values(|e: ClusterEstimates| e@),
        }
    }
}

// ----------------------------------------------------------------------------
// Choosing clusters
// ----------------------------------------------------------------------------

/// The rank of a cluster: small distances first for L2, large products first otherwise.
pub open spec fn probe_rank(metric: Metric, score: u32) -> int {
    match metric {
        Metric::L2 => total_rank(score),
        Metric::InnerProduct => -total_rank(score),
    }
}

/// The rank of cluster `cid` by the scores of all clusters.
pub open spec fn cid_rank(metric: Metric, scores: Seq<u32>) -> spec_fn(usize) -> int {
    |cid: usize| probe_rank(metric, scores[cid as int])
}

/// The first `n` cluster ids.
pub open spec fn cids(n: int) -> Seq<usize> {
    Seq::new(n as nat, |i: int| i as usize)
}

/// The clusters to scan, best first: the `nprobe` best scores, at least one cluster where there
/// is one; equal scores go by cluster id.
pub open spec fn probes(metric: Metric, scores: Seq<u32>, nprobe: int) -> Seq<usize> {
    first(
        ranked(cids(scores.len() as int), cid_rank(metric, scores)),
        if nprobe < 1 {
            1
        } else {
            nprobe
        },
    )
}

/// Whether a score is better than another one.
pub fn probe_before(metric: Metric, a: u32, b: u32) -> (r: bool)
    ensures
        r == (probe_rank(metric, a) < probe_rank(metric, b)),
{
    match metric {
        Metric::L2 => total_lt(a, b),
        Metric::InnerProduct => total_lt(b, a),
    }
}

/// Selects the clusters to scan.
pub fn select_clusters(metric: Metric, scores: &[u32], nprobe: usize) -> (order: Vec<usize>)
    ensures
        order@ == probes(metric, scores@, nprobe as int),
{
    let limit: usize = if nprobe < 1 { 1 } else { nprobe };
    let ghost rank = cid_rank(metric, scores@);
    let mut order: Vec<usize> = Vec::new();
    let mut cid: usize = 0;
    assert(cids(0) =~= Seq::empty());
    assert(order@ =~= first(ranked(cids(0), rank), limit as int));
    while cid < scores.len()
        invariant
            1 <= limit,
            cid <= scores@.len(),
            rank == cid_rank(metric, scores@),
            order@ == first(ranked(cids(cid as int), rank), limit as int),
            forall|i: int| 0 <= i < order@.len() ==> (#[trigger] order@[i]) < cid,
        decreases scores@.len() - cid,
    {
        let ghost before = order@;
        proof {
            crate::ranking::law_ranked_sorts(cids(cid as int), rank);
            crate::ranking::lemma_first_ranked(ranked(cids(cid as int), rank), rank, limit as int);
            crate::ranking::lemma_offer_is_best(
                ranked(cids(cid as int), rank),
                cid,
                rank,
                limit as int,
            );
            assert(cids(cid + 1).drop_last() =~= cids(cid as int));
            assert(cids(cid + 1).last() == cid);
        }
        let mut at: usize = order.len();
        while at > 0 && probe_before(metric, scores[cid], scores[order[at - 1]])
            invariant
                at <= order@.len(),
                order@ == before,
                cid < scores@.len(),
                rank == cid_rank(metric, scores@),
                is_ranked(before, rank),
                forall|i: int| 0 <= i < before.len() ==> (#[trigger] before[i]) < cid,
                forall|i: int| at <= i < before.len() ==> rank(#[trigger] before[i]) > rank(cid),
            decreases at,
        {
            at -= 1;
        }
        proof {
            assert forall|i: int| 0 <= i < at implies rank(#[trigger] before[i]) <= rank(cid) by {
                assert(rank(before[i]) <= rank(before[at - 1]));
            }
            crate::ranking::lemma_place_unique(before, rank(cid), rank, at as int);
        }
        order.insert(at, cid);
        if order.len() > limit {
            order.truncate(limit);
        }
        cid += 1;
        assert(order@ == offered(before, (cid - 1) as usize, rank, limit as int));
        proof {
            let placed = before.insert(at as int, (cid - 1) as usize);
            assert forall|i: int| 0 <= i < order@.len() implies (#[trigger] order@[i]) < cid by {
                assert(order@[i] == placed[i]);
                if i < at {
                    assert(placed[i] == before[i]);
                } else if i > at {
                    assert(placed[i] == before[i - 1]);
                }
            }
        }
    }
    order
}

// ----------------------------------------------------------------------------
// Scanning clusters
// ----------------------------------------------------------------------------

/// Candidates rank by distance.
pub open spec fn by_distance() -> spec_fn(HeapCandidate) -> int {
    |c: HeapCandidate| total_rank(c.distance)
}

/// The candidate that a vector with a finite distance gives: L2 distances are not negative, and
/// the score of an inner product is the negated distance.
pub open spec fn candidate(metric: Metric, id: u64, distance: u32) -> HeapCandidate {
    match metric {
        Metric::L2 => HeapCandidate { id, distance: clamped(distance), score: clamped(distance) },
        Metric::InnerProduct => HeapCandidate { id, distance, score: negated(distance) },
    }
}

/// The distance that a vector has to stay below: that of the last of `k` candidates, or
/// infinity while there are fewer.
pub open spec fn kth_distance(heap: Seq<HeapCandidate>, k: int) -> u32 {
    if heap.len() < k || heap.len() == 0 {
        INFINITY
    } else {
        heap.last().distance
    }
}

/// The state of a scan.
#[verifier::ext_equal]
pub struct ScanModel {
    pub heap: Seq<HeapCandidate>,
    pub estimated: int,
    pub skipped: int,
    pub extended: int,
}

/// What a scan looks for.
#[verifier::ext_equal]
pub struct ScanTerms {
    pub filter: Option<Set<u32>>,
    pub metric: Metric,
    pub ex_bits: usize,
    pub top_k: int,
}

/// One packed vector scanned. A vector that does not pass the filter is not looked at. One whose
/// lower bound reaches the distance to stay below is skipped. The others are refined where there
/// are extended bits, and join the candidates where their distance is finite.
pub open spec fn scan_step(
    s: ScanModel,
    t: ScanTerms,
    id: u64,
    lower_bound: u32,
    distance: u32,
) -> ScanModel {
    if !passes(t.filter, id) {
        s
    } else if float_ge(lower_bound, kth_distance(s.heap, t.top_k)) {
        ScanModel { skipped: s.skipped + 1, ..s }
    } else {
        let extended = if t.ex_bits > 0 {
            s.extended + 1
        } else {
            s.extended
        };
        if !is_finite_bits(distance) {
            ScanModel { extended, ..s }
        } else {
            ScanModel {
                heap: offered(s.heap, candidate(t.metric, id, distance), by_distance(), t.top_k),
                estimated: s.estimated + 1,
                extended,
                ..s
            }
        }
    }
}

/// The candidates after one pending vector: it is scanned without a lower bound, and without a
/// trace in the diagnostics.
pub open spec fn pending_step(
    heap: Seq<HeapCandidate>,
    t: ScanTerms,
    id: u64,
    distance: u32,
) -> Seq<HeapCandidate> {
    if passes(t.filter, id) && is_finite_bits(distance) {
        offered(heap, candidate(t.metric, id, distance), by_distance(), t.top_k)
    } else {
        heap
    }
}

/// The distances that count: the refined ones where there are extended bits.
pub open spec fn distances(e: EstimatesModel, ex_bits: usize) -> Seq<u32> {
    if ex_bits > 0 {
        e.refined_distances
    } else {
        e.est_distances
    }
}

/// The first `n` packed vectors of a cluster scanned.
pub open spec fn scan_packed(
    s: ScanModel,
    t: ScanTerms,
    c: ClusterModel,
    e: EstimatesModel,
    n: int,
) -> ScanModel
    decreases n,
{
    if n <= 0 {
        s
    } else {
        scan_step(
            scan_packed(s, t, c, e, n - 1),
            t,
            c.ids[n - 1],
            e.lower_bounds[n - 1],
            distances(e, t.ex_bits)[n - 1],
        )
    }
}

/// The candidates after the first `n` pending vectors of a cluster.
pub open spec fn scan_pending(
    heap: Seq<HeapCandidate>,
    t: ScanTerms,
    c: ClusterModel,
    e: EstimatesModel,
    n: int,
) -> Seq<HeapCandidate>
    decreases n,
{
    if n <= 0 {
        heap
    } else {
        pending_step(
            scan_pending(heap, t, c, e, n - 1),
            t,
            c.pending_ids[n - 1],
            e.pending_distances[n - 1],
        )
    }
}

/// A cluster scanned: its packed vectors and then its pending ones.
pub open spec fn scan_cluster(
    s: ScanModel,
    t: ScanTerms,
    c: ClusterModel,
    e: EstimatesModel,
) -> ScanModel {
    let packed = scan_packed(s, t, c, e, c.num_vectors as int);
    ScanModel {
        heap: scan_pending(packed.heap, t, c, e, c.pending_ids.len() as int),
        ..packed
    }
}

/// Whether the estimates cover all vectors of a cluster.
pub open spec fn covers(e: EstimatesModel, c: ClusterModel, ex_bits: usize) -> bool {
    &&& c.num_vectors <= c.ids.len()
    &&& c.num_vectors <= e.lower_bounds.len()
    &&& c.num_vectors <= distances(e, ex_bits).len()
    &&& c.pending_ids.len() <= e.pending_distances.len()
}

/// The state that a list of candidates and counters stand for.
pub open spec fn scan_model(heap: Seq<HeapCandidate>, d: SearchDiagnostics) -> ScanModel {
    ScanModel {
        heap,
        estimated: d.estimated as int,
        skipped: d.skipped_by_lower_bound as int,
        extended: d.extended_evaluations as int,
    }
}

fn offer(heap: &mut Vec<HeapCandidate>, c: HeapCandidate, top_k: usize)
    requires
        is_ranked(old(heap)@, by_distance()),
        old(heap)@.len() <= top_k,
    ensures
        final(heap)@ == offered(old(heap)@, c, by_distance(), top_k as int),
        is_ranked(final(heap)@, by_distance()),
        final(heap)@.len() <= top_k,
{
    let ghost before = heap@;
    let ghost rank = by_distance();
    let mut at: usize = heap.len();
    while at > 0 && total_lt(c.distance, heap[at - 1].distance)
        invariant
            at <= heap@.len(),
            heap@ == before,
            rank == by_distance(),
            is_ranked(before, rank),
            forall|i: int| at <= i < before.len() ==> rank(#[trigger] before[i]) > rank(c),
        decreases at,
    {
        at -= 1;
    }
    proof {
        assert forall|i: int| 0 <= i < at implies rank(#[trigger] before[i]) <= rank(c) by {
            assert(rank(before[i]) <= rank(before[at - 1]));
        }
        crate::ranking::lemma_place_unique(before, rank(c), rank, at as int);
        crate::ranking::lemma_ranked_with(before, c, rank);
        crate::ranking::lemma_first_ranked(ranked_with(before, c, rank), rank, top_k as int);
    }
    heap.insert(at, c);
    if heap.len() > top_k {
        heap.truncate(top_k);
    }
}

fn make_candidate(metric: Metric, id: u64, distance: u32) -> (c: HeapCandidate)
    ensures
        c == candidate(metric, id, distance),
{
    match metric {
        Metric::L2 => {
            let d: u32 = clamp_at_zero(distance);
            HeapCandidate { id, distance: d, score: d }
        },
        Metric::InnerProduct => HeapCandidate { id, distance, score: negate(distance) },
    }
}

fn current_bound(heap: &Vec<HeapCandidate>, top_k: usize) -> (d: u32)
    ensures
        d == kth_distance(heap@, top_k as int),
{
    if heap.len() < top_k || heap.len() == 0 {
        INFINITY
    } else {
        heap[heap.len() - 1].distance
    }
}

impl IvfRabitqIndex {
    /// Scans one cluster: its packed vectors with pruning by lower bounds, and then its pending
    /// vectors.
    pub fn search_cluster_v2_batched(
        &self,
        cluster: &ClusterData,
        estimates: &ClusterEstimates,
        filter: Option<&RoaringBitmap>,
        heap: &mut Vec<HeapCandidate>,
        top_k: usize,
        diagnostics: &mut SearchDiagnostics,
    )
        requires
            covers(estimates@, cluster@, self@.ex_bits),
            is_ranked(old(heap)@, by_distance()),
            old(heap)@.len() <= top_k,
            old(diagnostics).estimated + cluster@.num_vectors <= usize::MAX,
            old(diagnostics).skipped_by_lower_bound + cluster@.num_vectors <= usize::MAX,
            old(diagnostics).extended_evaluations + cluster@.num_vectors <= usize::MAX,
        ensures
            scan_model(final(heap)@, *final(diagnostics)) == scan_cluster(
                scan_model(old(heap)@, *old(diagnostics)),
                scan_terms(filter, self@, top_k),
                cluster@,
                estimates@,
            ),
            is_ranked(final(heap)@, by_distance()),
            final(heap)@.len() <= top_k,
            final(diagnostics).estimated <= old(diagnostics).estimated + cluster@.num_vectors,
            final(diagnostics).skipped_by_lower_bound <= old(diagnostics).skipped_by_lower_bound
                + cluster@.num_vectors,
            final(diagnostics).extended_evaluations <= old(diagnostics).extended_evaluations
                + cluster@.num_vectors,
    {
        let ghost start = scan_model(heap@, *diagnostics);
        let ghost terms = scan_terms(filter, self@, top_k);
        let mut i: usize = 0;
        while i < cluster.num_vectors
            invariant
                i <= cluster.num_vectors,
                covers(estimates@, cluster@, self@.ex_bits),
                terms == scan_terms(filter, self@, top_k),
                start == scan_model(old(heap)@, *old(diagnostics)),
                scan_model(heap@, *diagnostics) == scan_packed(
                    start,
                    terms,
                    cluster@,
                    estimates@,
                    i as int,
                ),
                is_ranked(heap@, by_distance()),
                heap@.len() <= top_k,
                old(diagnostics).estimated + cluster@.num_vectors <= usize::MAX,
                old(diagnostics).skipped_by_lower_bound + cluster@.num_vectors <= usize::MAX,
                old(diagnostics).extended_evaluations + cluster@.num_vectors <= usize::MAX,
                diagnostics.estimated <= old(diagnostics).estimated + i,
                diagnostics.skipped_by_lower_bound <= old(diagnostics).skipped_by_lower_bound + i,
                diagnostics.extended_evaluations <= old(diagnostics).extended_evaluations + i,
            decreases cluster.num_vectors - i,
        {
            let id: u64 = cluster.ids[i];
            if admits(filter, id) {
                if ge(estimates.lower_bounds[i], current_bound(heap, top_k)) {
                    diagnostics.skipped_by_lower_bound = diagnostics.skipped_by_lower_bound + 1;
                } else {
                    let distance: u32 = if self.ex_bits > 0 {
                        diagnostics.extended_evaluations = diagnostics.extended_evaluations + 1;
                        estimates.refined_distances[i]
                    } else {
                        estimates.est_distances[i]
                    };
                    if is_finite(distance) {
                        diagnostics.estimated = diagnostics.estimated + 1;
                        offer(heap, make_candidate(self.metric, id, distance), top_k);
                    }
                }
            }
            i += 1;
        }
        self.search_pending_vectors(cluster, estimates, filter, heap, top_k);
    }
}

/// What a search of an index looks for.
pub open spec fn scan_terms(
    filter: Option<&RoaringBitmap>,
    m: IndexModel,
    top_k: usize,
) -> ScanTerms {
    ScanTerms {
        filter: filter_ids(filter),
        metric: m.metric,
        ex_bits: m.ex_bits,
        top_k: top_k as int,
    }
}

impl IvfRabitqIndex {
    /// Scans the pending vectors of a cluster one by one.
    fn search_pending_vectors(
        &self,
        cluster: &ClusterData,
        estimates: &ClusterEstimates,
        filter: Option<&RoaringBitmap>,
        heap: &mut Vec<HeapCandidate>,
        top_k: usize,
    )
        requires
            covers(estimates@, cluster@, self@.ex_bits),
            is_ranked(old(heap)@, by_distance()),
            old(heap)@.len() <= top_k,
        ensures
            final(heap)@ == scan_pending(
                old(heap)@,
                scan_terms(filter, self@, top_k),
                cluster@,
                estimates@,
                cluster@.pending_ids.len() as int,
            ),
            is_ranked(final(heap)@, by_distance()),
            final(heap)@.len() <= top_k,
    {
        let ghost start = heap@;
        let ghost terms = scan_terms(filter, self@, top_k);
        let mut i: usize = 0;
        while i < cluster.pending_ids.len()
            invariant
                i <= cluster.pending_ids@.len(),
                covers(estimates@, cluster@, self@.ex_bits),
                terms == scan_terms(filter, self@, top_k),
                heap@ == scan_pending(
                    start,
                    terms,
                    cluster@,
                    estimates@,
                    i as int,
                ),
                is_ranked(heap@, by_distance()),
                heap@.len() <= top_k,
            decreases cluster.pending_ids@.len() - i,
        {
            let id: u64 = cluster.pending_ids[i];
            let distance: u32 = estimates.pending_distances[i];
            if admits(filter, id) && is_finite(distance) {
                offer(heap, make_candidate(self.metric, id, distance), top_k);
            }
            i += 1;
        }
    }
}

// ----------------------------------------------------------------------------
// Searching the index
// ----------------------------------------------------------------------------

/// The first `n` clusters of `order` scanned.
pub open spec fn scan_clusters(
    s: ScanModel,
    t: ScanTerms,
    m: IndexModel,
    q: QueryModel,
    order: Seq<usize>,
    n: int,
) -> ScanModel
    decreases n,
{
    if n <= 0 {
        s
    } else {
        let cid = order[n - 1] as int;
        scan_cluster(
            scan_clusters(s, t, m, q, order, n - 1),
            t,
            m.clusters[cid],
            q.clusters[cid],
        )
    }
}

/// A scan that has not started.
pub open spec fn fresh_scan() -> ScanModel {
    ScanModel { heap: Seq::empty(), estimated: 0, skipped: 0, extended: 0 }
}

/// The clusters that a query scans.
pub open spec fn query_probes(m: IndexModel, q: QueryModel, params: SearchParams) -> Seq<usize> {
    probes(m.metric, q.centroid_scores, params.nprobe as int)
}

/// What a search comes to: an error for an empty index or for a query of another dimension, else
/// the state behind the last scanned cluster. No cluster is scanned for no results.
pub open spec fn search_outcome(
    m: IndexModel,
    q: QueryModel,
    params: SearchParams,
    filter: Option<Set<u32>>,
) -> Result<ScanModel, RabitqError> {
    if vector_total(m.clusters) == 0 {
        Err(RabitqError::EmptyIndex)
    } else if q.dim != m.dim {
        Err(RabitqError::DimensionMismatch { expected: m.dim, got: q.dim })
    } else if params.top_k == 0 {
        Ok(fresh_scan())
    } else {
        let order = query_probes(m, q, params);
        Ok(
            scan_clusters(
                fresh_scan(),
                ScanTerms {
                    filter,
                    metric: m.metric,
                    ex_bits: m.ex_bits,
                    top_k: params.top_k as int,
                },
                m,
                q,
                order,
                order.len() as int,
            ),
        )
    }
}

/// The results that candidates give, best first.
pub open spec fn results(heap: Seq<HeapCandidate>) -> Seq<SearchResult> {
    heap.map_values(|c: HeapCandidate| SearchResult { id: c.id, score: c.score })
}

/// Whether the estimates of a query suffice for a search: one score and one set of estimates for
/// each cluster, and estimates for all vectors of the clusters that are scanned. Nothing is asked
/// of a query that scans no cluster.
pub open spec fn answerable(m: IndexModel, q: QueryModel, params: SearchParams) -> bool {
    vector_total(m.clusters) != 0 && q.dim == m.dim && params.top_k != 0 ==> {
        &&& q.centroid_scores.len() == m.clusters.len()
        &&& q.clusters.len() == m.clusters.len()
        &&& forall|i: int|
            0 <= i < query_probes(m, q, params).len() ==> {
                let cid = #[trigger] query_probes(m, q, params)[i] as int;
                covers(q.clusters[cid], m.clusters[cid], m.ex_bits)
            }
    }
}

/// The order of the scanned clusters is determined: they are different clusters of the index, and
/// each comes before the next by a better score, or by its id where the scores are equal. No
/// cluster that is left out has a better place than the last.
pub proof fn law_probes_in_order(metric: Metric, scores: Seq<u32>, nprobe: int)
    requires
        scores.len() <= usize::MAX,
    ensures
        ({
            let order = probes(metric, scores, nprobe);
            let wanted = if nprobe < 1 {
                1
            } else {
                nprobe
            };
            &&& order.len() == if scores.len() <= wanted {
                scores.len() as int
            } else {
                wanted
            }
            &&& forall|i: int| 0 <= i < order.len() ==> (#[trigger] order[i]) < scores.len()
            &&& forall|i: int, j: int|
                0 <= i < j < order.len() ==> probe_precedes(
                    metric,
                    scores,
                    #[trigger] order[i],
                    #[trigger] order[j],
                )
            &&& forall|cid: usize|
                cid < scores.len() && !order.contains(cid) ==> order.len() > 0
                    && #[trigger] probe_precedes(metric, scores, order.last(), cid)
        }),
{
    let rank = cid_rank(metric, scores);
    let tie = |c: usize| c as int;
    let items = cids(scores.len() as int);
    let all = ranked(items, rank);
    let order = probes(metric, scores, nprobe);
    crate::ranking::law_ranked_sorts(items, rank);
    assert forall|i: int| 0 <= i < all.len() implies (#[trigger] all[i]) < scores.len() by {
        crate::ranking::lemma_ranked_contents(items, rank, i);
    }
    assert forall|i: int, j: int| 0 <= i < j < all.len() implies probe_precedes(
        metric,
        scores,
        #[trigger] all[i],
        #[trigger] all[j],
    ) by {
        assert(rank(all[i]) <= rank(all[j]));
        if rank(all[i]) == rank(all[j]) {
            crate::ranking::law_ranked_is_stable(items, rank, tie, i, j);
        }
    }
    assert forall|i: int, j: int| 0 <= i < j < order.len() implies probe_precedes(
        metric,
        scores,
        #[trigger] order[i],
        #[trigger] order[j],
    ) by {
        assert(order[i] == all[i] && order[j] == all[j]);
    }
    assert forall|cid: usize| cid < scores.len() && !order.contains(cid) implies order.len() > 0
        && #[trigger] probe_precedes(metric, scores, order.last(), cid) by {
        broadcast use vstd::seq_lib::group_to_multiset_ensures;

        assert(items[cid as int] == cid);
        assert(items.contains(cid));
        assert(items.to_multiset().count(cid) > 0);
        assert(all.contains(cid));
        let j = choose|j: int| 0 <= j < all.len() && all[j] == cid;
        if j < order.len() {
            assert(order[j] == cid);
        }
        assert(order.last() == all[order.len() - 1]);
    }
}

/// Whether cluster `a` comes strictly before cluster `b`: by a better score, or by its id where
/// the scores are equal.
pub open spec fn probe_precedes(metric: Metric, scores: Seq<u32>, a: usize, b: usize) -> bool {
    let ra = probe_rank(metric, scores[a as int]);
    let rb = probe_rank(metric, scores[b as int]);
    ra < rb || (ra == rb && a < b)
}

/// Number of packed vectors in the first `n` clusters of `order`.
pub open spec fn scanned(clusters: Seq<ClusterModel>, order: Seq<usize>, n: int) -> int
    decreases n,
{
    if n <= 0 {
        0
    } else {
        scanned(clusters, order, n - 1) + clusters[order[n - 1] as int].num_vectors
    }
}

proof fn lemma_scanned_without(clusters: Seq<ClusterModel>, order: Seq<usize>, j: int)
    requires
        0 <= j < order.len(),
    ensures
        scanned(clusters, order, order.len() as int) == scanned(
            clusters,
            order.remove(j),
            order.len() - 1,
        ) + clusters[order[j] as int].num_vectors,
    decreases order.len(),
{
    let n = order.len() as int;
    let rest = order.remove(j);
    if j == n - 1 {
        lemma_scanned_prefix(clusters, order, rest, n - 1);
    } else {
        let init = order.drop_last();
        lemma_scanned_without(clusters, init, j);
        lemma_scanned_prefix(clusters, order, init, n - 1);
        assert(rest.drop_last() =~= init.remove(j));
        lemma_scanned_prefix(clusters, rest, init.remove(j), n - 2);
        assert(rest[n - 2] == order[n - 1]);
    }
}

proof fn lemma_scanned_prefix(clusters: Seq<ClusterModel>, a: Seq<usize>, b: Seq<usize>, n: int)
    requires
        forall|i: int| 0 <= i < n ==> #[trigger] a[i] == b[i],
    ensures
        scanned(clusters, a, n) == scanned(clusters, b, n),
    decreases n,
{
    if n > 0 {
        lemma_scanned_prefix(clusters, a, b, n - 1);
    }
}

proof fn lemma_scanned_bound(clusters: Seq<ClusterModel>, order: Seq<usize>, count: int)
    requires
        0 <= count <= clusters.len(),
        forall|i: int| 0 <= i < order.len() ==> (#[trigger] order[i]) < count,
        order.no_duplicates(),
    ensures
        0 <= scanned(clusters, order, order.len() as int) <= vector_total(clusters.take(count)),
    decreases count,
{
    if count == 0 {
        assert(order.len() == 0) by {
            if order.len() > 0 {
                assert(order[0] < 0);
            }
        }
    } else {
        let some = clusters.take(count);
        assert(some.drop_last() =~= clusters.take(count - 1));
        if exists|j: int| 0 <= j < order.len() && order[j] == count - 1 {
            let j = choose|j: int| 0 <= j < order.len() && order[j] == count - 1;
            let rest = order.remove(j);
            lemma_scanned_without(clusters, order, j);
            assert forall|i: int| 0 <= i < rest.len() implies (#[trigger] rest[i]) < count - 1 by {
                let k = if i < j {
                    i
                } else {
                    i + 1
                };
                assert(rest[i] == order[k]);
                assert(order[k] != order[j]);
            }
            assert(rest.no_duplicates()) by {
                assert forall|x: int, y: int|
                    0 <= x < rest.len() && 0 <= y < rest.len() && x != y implies rest[x]
                    != rest[y] by {
                    let kx = if x < j {
                        x
                    } else {
                        x + 1
                    };
                    let ky = if y < j {
                        y
                    } else {
                        y + 1
                    };
                    assert(rest[x] == order[kx] && rest[y] == order[ky]);
                }
            }
            lemma_scanned_bound(clusters, rest, count - 1);
        } else {
            assert forall|i: int| 0 <= i < order.len() implies (#[trigger] order[i]) < count
                - 1 by {
                assert(order[i] != count - 1);
            }
            lemma_scanned_bound(clusters, order, count - 1);
        }
    }
}

proof fn lemma_scanned_grows(clusters: Seq<ClusterModel>, order: Seq<usize>, few: int, many: int)
    requires
        few <= many,
    ensures
        scanned(clusters, order, few) <= scanned(clusters, order, many),
    decreases many,
{
    if few < many && many > 0 {
        lemma_scanned_grows(clusters, order, few, many - 1);
    }
}

/// Whether the counters can take in one search: each has room for the packed vectors of the
/// clusters that are scanned. Nothing is asked of a query that scans no cluster.
pub open spec fn has_counter_room(
    m: IndexModel,
    q: QueryModel,
    params: SearchParams,
    d: SearchDiagnostics,
) -> bool {
    vector_total(m.clusters) != 0 && q.dim == m.dim && params.top_k != 0 ==> {
        let order = query_probes(m, q, params);
        let n = scanned(m.clusters, order, order.len() as int);
        &&& d.estimated + n <= usize::MAX
        &&& d.skipped_by_lower_bound + n <= usize::MAX
        &&& d.extended_evaluations + n <= usize::MAX
    }
}

/// Whether counters have grown by those of a scan.
pub open spec fn counts_on(
    before: SearchDiagnostics,
    after: SearchDiagnostics,
    s: ScanModel,
) -> bool {
    &&& after.estimated == before.estimated + s.estimated
    &&& after.skipped_by_lower_bound == before.skipped_by_lower_bound + s.skipped
    &&& after.extended_evaluations == before.extended_evaluations + s.extended
}

proof fn lemma_scanned_fits(m: IndexModel, q: QueryModel, params: SearchParams)
    requires
        q.centroid_scores.len() == m.clusters.len(),
        m.clusters.len() <= usize::MAX,
    ensures
        ({
            let order = query_probes(m, q, params);
            0 <= scanned(m.clusters, order, order.len() as int) <= vector_total(m.clusters)
        }),
{
    let order = query_probes(m, q, params);
    law_probes_in_order(m.metric, q.centroid_scores, params.nprobe as int);
    assert(order.no_duplicates()) by {
        assert forall|i: int, j: int|
            0 <= i < order.len() && 0 <= j < order.len() && i != j implies order[i]
            != order[j] by {
            if i < j {
                assert(probe_precedes(m.metric, q.centroid_scores, order[i], order[j]));
            } else {
                assert(probe_precedes(m.metric, q.centroid_scores, order[j], order[i]));
            }
        }
    }
    lemma_scanned_bound(m.clusters, order, m.clusters.len() as int);
    assert(m.clusters.take(m.clusters.len() as int) =~= m.clusters);
}

/// Counters that stand at zero have room for every search of an index whose vectors can be
/// counted.
pub proof fn law_new_counters_have_room(
    m: IndexModel,
    q: QueryModel,
    params: SearchParams,
    d: SearchDiagnostics,
)
    requires
        vector_total(m.clusters) <= usize::MAX,
        m.clusters.len() <= usize::MAX,
        answerable(m, q, params),
        d.estimated == 0,
        d.skipped_by_lower_bound == 0,
        d.extended_evaluations == 0,
    ensures
        has_counter_room(m, q, params, d),
{
    if vector_total(m.clusters) != 0 && q.dim == m.dim && params.top_k != 0 {
        lemma_scanned_fits(m, q, params);
    }
}

impl IvfRabitqIndex {
    /// Searches the index: chooses the clusters to scan, scans them, and returns what was found,
    /// best first. The counters of `diagnostics` grow by what this search did; a refused search
    /// and one for no results leave them as they are.
    pub fn search_fastscan(
        &self,
        query: &QueryEstimates,
        params: SearchParams,
        diagnostics: &mut SearchDiagnostics,
        filter: Option<&RoaringBitmap>,
    ) -> (r: Result<Vec<SearchResult>, RabitqError>)
        requires
            vector_total(self@.clusters) <= usize::MAX,
            answerable(self@, query@, params),
            has_counter_room(self@, query@, params, *old(diagnostics)),
        ensures
            match search_outcome(self@, query@, params, filter_ids(filter)) {
                Err(e) => r == Err::<Vec<SearchResult>, RabitqError>(e) && *final(diagnostics)
                    == *old(diagnostics),
                Ok(s) => {
                    &&& r is Ok
                    &&& r->Ok_0@ == results(s.heap)
                    &&& counts_on(*old(diagnostics), *final(diagnostics), s)
                },
            },
    {
        if self.is_empty() {
            return Err(RabitqError::EmptyIndex);
        }
        if query.dim != self.dim {
            return Err(
                RabitqError::DimensionMismatch { expected: self.dim, got: query.dim },
            );
        }
        if params.top_k == 0 {
            let none: Vec<SearchResult> = Vec::new();
            assert(none@ =~= results(Seq::empty()));
            return Ok(none);
        }
        let ghost m = self@;
        let ghost q = query@;
        let ghost terms = scan_terms(filter, m, params.top_k);
        let order: Vec<usize> = select_clusters(
            self.metric,
            query.centroid_scores.as_slice(),
            params.nprobe,
        );
        proof {
            assert(q.centroid_scores.len() == self.clusters.len());
            law_probes_in_order(m.metric, q.centroid_scores, params.nprobe as int);
            lemma_scanned_fits(m, q, params);
        }
        let mut counts = SearchDiagnostics::default();
        let mut heap: Vec<HeapCandidate> = Vec::new();
        let mut i: usize = 0;
        while i < order.len()
            invariant
                i <= order@.len(),
                m == self@,
                q == query@,
                terms == scan_terms(filter, m, params.top_k),
                order@ == query_probes(m, q, params),
                vector_total(m.clusters) <= usize::MAX,
                scanned(m.clusters, order@, order@.len() as int) <= vector_total(m.clusters),
                vector_total(m.clusters) != 0,
                q.dim == m.dim,
                params.top_k != 0,
                answerable(m, q, params),
                forall|j: int|
                    0 <= j < order@.len() ==> (#[trigger] order@[j]) < q.centroid_scores.len(),
                scan_model(heap@, counts) == scan_clusters(
                    fresh_scan(),
                    terms,
                    m,
                    q,
                    order@,
                    i as int,
                ),
                is_ranked(heap@, by_distance()),
                heap@.len() <= params.top_k,
                counts.estimated <= scanned(m.clusters, order@, i as int),
                counts.skipped_by_lower_bound <= scanned(m.clusters, order@, i as int),
                counts.extended_evaluations <= scanned(m.clusters, order@, i as int),
            decreases order@.len() - i,
        {
            let cid: usize = order[i];
            proof {
                lemma_scanned_grows(m.clusters, order@, i + 1, order@.len() as int);
                assert(covers(q.clusters[cid as int], m.clusters[cid as int], m.ex_bits));
                assert(q.clusters[cid as int] == query.clusters@[cid as int]@);
                assert(m.clusters[cid as int] == self.clusters@[cid as int]@);
            }
            self.search_cluster_v2_batched(
                &self.clusters[cid],
                &query.clusters[cid],
                filter,
                &mut heap,
                params.top_k,
                &mut counts,
            );
            i += 1;
        }
        diagnostics.estimated += counts.estimated;
        diagnostics.skipped_by_lower_bound += counts.skipped_by_lower_bound;
        diagnostics.extended_evaluations += counts.extended_evaluations;
        let mut found: Vec<SearchResult> = Vec::new();
        let mut j: usize = 0;
        assert(found@ =~= results(heap@.take(0)));
        while j < heap.len()
            invariant
                j <= heap@.len(),
                found@ == results(heap@.take(j as int)),
            decreases heap@.len() - j,
        {
            let c: HeapCandidate = heap[j];
            found.push(SearchResult { id: c.id, score: c.score });
            j += 1;
            assert(found@ =~= results(heap@.take(j as int)));
        }
        assert(heap@.take(j as int) =~= heap@);
        Ok(found)
    }
}

/// Whether what a search returned is what it comes to.
pub open spec fn answers(
    r: Result<Vec<SearchResult>, RabitqError>,
    outcome: Result<ScanModel, RabitqError>,
) -> bool {
    match outcome {
        Err(e) => r == Err::<Vec<SearchResult>, RabitqError>(e),
        Ok(s) => r is Ok && r->Ok_0@ == results(s.heap),
    }
}

impl IvfRabitqIndex {
    /// Searches for the nearest neighbours of a query.
    pub fn search(&self, query: &QueryEstimates, params: SearchParams) -> (r: Result<
        Vec<SearchResult>,
        RabitqError,
    >)
        requires
            vector_total(self@.clusters) <= usize::MAX,
            answerable(self@, query@, params),
        ensures
            answers(r, search_outcome(self@, query@, params, None)),
    {
        let mut diagnostics = SearchDiagnostics::default();
        proof {
            assert(self@.clusters.len() == self.clusters.len());
            law_new_counters_have_room(self@, query@, params, diagnostics);
        }
        self.search_fastscan(query, params, &mut diagnostics, None)
    }

    /// Searches for the nearest neighbours of a query among the vectors whose id is in the
    /// filter.
    pub fn search_filtered(
        &self,
        query: &QueryEstimates,
        params: SearchParams,
        filter: &RoaringBitmap,
    ) -> (r: Result<Vec<SearchResult>, RabitqError>)
        requires
            vector_total(self@.clusters) <= usize::MAX,
            answerable(self@, query@, params),
        ensures
            answers(r, search_outcome(self@, query@, params, filter_ids(Some(filter)))),
    {
        let mut diagnostics = SearchDiagnostics::default();
        proof {
            assert(self@.clusters.len() == self.clusters.len());
            law_new_counters_have_room(self@, query@, params, diagnostics);
        }
        self.search_fastscan(query, params, &mut diagnostics, Some(filter))
    }

    /// Searches for the nearest neighbours of several queries. The results come in the order of
    /// the queries.
    pub fn batch_search(&self, queries: &[QueryEstimates], params: SearchParams) -> (r: Vec<
        Result<Vec<SearchResult>, RabitqError>,
    >)
        requires
            vector_total(self@.clusters) <= usize::MAX,
            forall|i: int|
                0 <= i < queries@.len() ==> answerable(self@, (#[trigger] queries@[i])@, params),
        ensures
            r@.len() == queries@.len(),
            forall|i: int|
                0 <= i < r@.len() ==> answers(
                    #[trigger] r@[i],
                    search_outcome(self@, queries@[i]@, params, None),
                ),
    {
        let mut all: Vec<Result<Vec<SearchResult>, RabitqError>> = Vec::new();
        let mut i: usize = 0;
        while i < queries.len()
            invariant
                i <= queries@.len(),
                vector_total(self@.clusters) <= usize::MAX,
                forall|j: int|
                    0 <= j < queries@.len() ==> answerable(
                        self@,
                        (#[trigger] queries@[j])@,
                        params,
                    ),
                all@.len() == i,
                forall|j: int|
                    0 <= j < i ==> answers(
                        #[trigger] all@[j],
                        search_outcome(self@, queries@[j]@, params, None),
                    ),
            decreases queries@.len() - i,
        {
            all.push(self.search(&queries[i], params));
            i += 1;
        }
        all
    }

    /// Searches and reports what the search did.
    pub fn search_with_diagnostics(
        &self,
        query: &QueryEstimates,
        params: SearchParams,
    ) -> (r: Result<
        (Vec<SearchResult>, SearchDiagnostics),
        RabitqError,
    >)
        requires
            vector_total(self@.clusters) <= usize::MAX,
            answerable(self@, query@, params),
        ensures
            match search_outcome(self@, query@, params, None) {
                Err(e) => r == Err::<(Vec<SearchResult>, SearchDiagnostics), RabitqError>(e),
                Ok(s) => {
                    &&& r is Ok
                    &&& r->Ok_0.0@ == results(s.heap)
                    &&& scan_model(s.heap, r->Ok_0.1) == s
                },
            },
    {
        let mut diagnostics = SearchDiagnostics::default();
        proof {
            assert(self@.clusters.len() == self.clusters.len());
            law_new_counters_have_room(self@, query@, params, diagnostics);
        }
        let found: Vec<SearchResult> = self.search_fastscan(query, params, &mut diagnostics, None)?;
        Ok((found, diagnostics))
    }
}

impl IvfRabitqIndex {
    /// Whether the estimates of a query suffice for a search.
    pub fn is_answerable(&self, query: &QueryEstimates, params: SearchParams) -> (r: bool)
        requires
            vector_total(self@.clusters) <= usize::MAX,
        ensures
            r == answerable(self@, query@, params),
    {
        if self.is_empty() || query.dim != self.dim || params.top_k == 0 {
            return true;
        }
        if query.centroid_scores.len() != self.clusters.len() || query.clusters.len()
            != self.clusters.len() {
            return false;
        }
        let ghost m = self@;
        let ghost q = query@;
        let order: Vec<usize> = select_clusters(
            self.metric,
            query.centroid_scores.as_slice(),
            params.nprobe,
        );
        proof {
            law_probes_in_order(m.metric, q.centroid_scores, params.nprobe as int);
        }
        let mut i: usize = 0;
        while i < order.len()
            invariant
                i <= order@.len(),
                m == self@,
                q == query@,
                order@ == query_probes(m, q, params),
                vector_total(m.clusters) != 0,
                q.dim == m.dim,
                params.top_k != 0,
                query.clusters@.len() == self.clusters@.len(),
                forall|j: int|
                    0 <= j < order@.len() ==> (#[trigger] order@[j]) < self.clusters@.len(),
                forall|j: int|
                    0 <= j < i ==> {
                        let cid = #[trigger] order@[j] as int;
                        covers(q.clusters[cid], m.clusters[cid], m.ex_bits)
                    },
            decreases order@.len() - i,
        {
            let cid: usize = order[i];
            let c = &self.clusters[cid];
            let e = &query.clusters[cid];
            let refined: usize = if self.ex_bits > 0 {
                e.refined_distances.len()
            } else {
                e.est_distances.len()
            };
            proof {
                assert(m.clusters[cid as int] == c@);
                assert(q.clusters[cid as int] == e@);
            }
            if c.num_vectors > c.ids.len() || c.num_vectors > e.lower_bounds.len() || c.num_vectors
                > refined || c.pending_ids.len() > e.pending_distances.len() {
                assert(!covers(q.clusters[cid as int], m.clusters[cid as int], m.ex_bits));
                assert(query_probes(m, q, params)[i as int] == cid);
                return false;
            }
            i += 1;
        }
        true
    }
}

} // verus!
