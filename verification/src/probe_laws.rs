//! Which clusters a search scans, when it succeeds, and what its counters say.
use crate::cluster::ClusterModel;
use crate::error::RabitqError;
use crate::float_bits::{float_ge, INFINITY};
use crate::float_laws::{
    exponent_field, fraction_field, law_comparison_is_numeric, law_fields_tell_kinds, numeric,
};
use crate::index::{vector_total, IndexModel};
use crate::result_laws::{at_least_as_good, handed_in, lemma_rank_is_order, wanted};
use crate::search::{
    answerable, covers, law_probes_in_order, probe_precedes, probes, query_probes, scan_packed,
    search_outcome, EstimatesModel, QueryModel, ScanModel, ScanTerms, SearchParams,
};
use crate::search_naive::naive_outcome;
use crate::types::Metric;
use vstd::prelude::*;

verus! {

/// The best clusters are scanned: as many as asked for, at least one and at most all; they are
/// different clusters of the index, and none of them has a worse score than one that comes behind it
/// or is left out. Equal scores go by the number of the cluster.
pub proof fn law_best_clusters_are_scanned(metric: Metric, scores: Seq<u32>, nprobe: int, cid: usize)
    requires
        scores.len() <= usize::MAX,
    ensures
        ({
            let order = probes(metric, scores, nprobe);
            &&& order.len() <= scores.len()
            &&& order.len() == scores.len() || order.len() == 1 || order.len() == nprobe
            &&& scores.len() > 0 ==> order.len() >= 1
            &&& nprobe <= scores.len() && nprobe >= 1 ==> order.len() == nprobe
            &&& nprobe >= scores.len() ==> order.len() == scores.len()
            &&& nprobe < 1 && scores.len() > 0 ==> order.len() == 1
            &&& forall|i: int| 0 <= i < order.len() ==> (#[trigger] order[i]) < scores.len()
            &&& forall|i: int, j: int|
                0 <= i < j < order.len() ==> {
                    &&& at_least_as_good(
                        metric,
                        scores[#[trigger] order[i] as int],
                        scores[#[trigger] order[j] as int],
                    )
                    &&& scores[order[i] as int] == scores[order[j] as int] ==> order[i] < order[j]
                }
            &&& cid < scores.len() && !order.contains(cid) ==> forall|i: int|
                0 <= i < order.len() ==> {
                    &&& at_least_as_good(
                        metric,
                        scores[#[trigger] order[i] as int],
                        scores[cid as int],
                    )
                    &&& scores[order[i] as int] == scores[cid as int] ==> order[i] < cid
                }
        }),
{
    let order = probes(metric, scores, nprobe);
    law_probes_in_order(metric, scores, nprobe);
    assert forall|i: int, j: int| 0 <= i < j < order.len() implies {
        &&& at_least_as_good(
            metric,
            scores[#[trigger] order[i] as int],
            scores[#[trigger] order[j] as int],
        )
        &&& scores[order[i] as int] == scores[order[j] as int] ==> order[i] < order[j]
    } by {
        assert(probe_precedes(metric, scores, order[i], order[j]));
        lemma_rank_is_order(metric, scores[order[i] as int], scores[order[j] as int]);
    }
    if cid < scores.len() && !order.contains(cid) {
        assert(probe_precedes(metric, scores, order.last(), cid));
        assert forall|i: int| 0 <= i < order.len() implies {
            &&& at_least_as_good(metric, scores[#[trigger] order[i] as int], scores[cid as int])
            &&& scores[order[i] as int] == scores[cid as int] ==> order[i] < cid
        } by {
            if i < order.len() - 1 {
                assert(probe_precedes(metric, scores, order[i], order[order.len() - 1]));
            }
            lemma_rank_is_order(metric, scores[order[i] as int], scores[cid as int]);
        }
    }
}

/// Whether no cluster holds a vector, packed or pending.
pub open spec fn holds_nothing(m: IndexModel) -> bool {
    forall|c: int|
        0 <= c < m.clusters.len() ==> (#[trigger] m.clusters[c]).num_vectors == 0
            && m.clusters[c].pending_ids.len() == 0
}

proof fn lemma_total_zero(clusters: Seq<ClusterModel>)
    ensures
        0 <= vector_total(clusters),
        vector_total(clusters) == 0 <==> forall|c: int|
            0 <= c < clusters.len() ==> (#[trigger] clusters[c]).num_vectors == 0
                && clusters[c].pending_ids.len() == 0,
    decreases clusters.len(),
{
    if clusters.len() > 0 {
        let init = clusters.drop_last();
        lemma_total_zero(init);
        assert(clusters.last() == clusters[clusters.len() - 1]);
        assert forall|c: int| 0 <= c < init.len() implies #[trigger] init[c] == clusters[c] by {}
        if vector_total(clusters) == 0 {
            assert forall|c: int| 0 <= c < clusters.len() implies (
            #[trigger] clusters[c]).num_vectors == 0 && clusters[c].pending_ids.len() == 0 by {
                if c < init.len() {
                    assert(init[c] == clusters[c]);
                }
            }
        } else if vector_total(init) != 0 {
            let c = choose|c: int|
                0 <= c < init.len() && !((#[trigger] init[c]).num_vectors == 0
                    && init[c].pending_ids.len() == 0);
            assert(init[c] == clusters[c]);
        }
    }
}

/// When a search succeeds: an index without vectors is refused, then a query of another dimension,
/// and nothing else is; with shortcuts, without them, and with any filter.
pub proof fn law_searches_succeed(
    m: IndexModel,
    q: QueryModel,
    params: SearchParams,
    filter: Option<Set<u32>>,
)
    ensures
        holds_nothing(m) ==> search_outcome(m, q, params, filter) == Err::<ScanModel, RabitqError>(
            RabitqError::EmptyIndex,
        ) && naive_outcome(m, q, params) matches Err(RabitqError::EmptyIndex),
        !holds_nothing(m) && q.dim != m.dim ==> {
            &&& search_outcome(m, q, params, filter) matches Err(e) && e
                == (RabitqError::DimensionMismatch { expected: m.dim, got: q.dim })
            &&& naive_outcome(m, q, params) matches Err(e) && e
                == (RabitqError::DimensionMismatch { expected: m.dim, got: q.dim })
        },
        !holds_nothing(m) && q.dim == m.dim ==> search_outcome(m, q, params, filter) is Ok
            && naive_outcome(m, q, params) is Ok,
{
    lemma_total_zero(m.clusters);
}

/// Estimates for all vectors suffice: where there is one score for each cluster, and for each packed
/// vector an id, a lower bound and the distance that counts, and for each pending vector a distance,
/// every search can be answered.
pub proof fn law_full_estimates_suffice(m: IndexModel, q: QueryModel, params: SearchParams)
    requires
        q.centroid_scores.len() == m.clusters.len(),
        q.clusters.len() == m.clusters.len() <= usize::MAX,
        forall|c: int|
            0 <= c < m.clusters.len() ==> {
                let e = #[trigger] q.clusters[c];
                &&& e.lower_bounds.len() >= m.clusters[c].num_vectors
                &&& m.ex_bits > 0 ==> e.refined_distances.len() >= m.clusters[c].num_vectors
                &&& m.ex_bits == 0 ==> e.est_distances.len() >= m.clusters[c].num_vectors
                &&& e.pending_distances.len() >= m.clusters[c].pending_ids.len()
                &&& m.clusters[c].ids.len() >= m.clusters[c].num_vectors
            },
    ensures
        answerable(m, q, params),
{
    law_probes_in_order(m.metric, q.centroid_scores, params.nprobe as int);
    let order = query_probes(m, q, params);
    assert forall|i: int| 0 <= i < order.len() implies {
        let cid = #[trigger] order[i] as int;
        covers(q.clusters[cid], m.clusters[cid], m.ex_bits)
    } by {
        assert(q.clusters[order[i] as int].lower_bounds.len()
            >= m.clusters[order[i] as int].num_vectors);
    }
}

/// Whether a lower bound rules a vector out while the candidates are those of `s`: there are as many
/// as wanted, and the bound is a number that is not below the distance of the last. A bound of
/// infinity rules out in any case.
pub open spec fn rules_out(s: ScanModel, top_k: int, bound: u32) -> bool {
    ||| bound == 0x7f80_0000
    ||| {
        &&& s.heap.len() >= top_k
        &&& s.heap.len() > 0
        &&& !(exponent_field(bound) == 255 && fraction_field(bound) != 0)
        &&& numeric(bound) >= numeric(s.heap.last().distance)
    }
}

/// What one more packed vector does to a scan: one that is not wanted leaves no trace; one that its
/// bound rules out is counted as skipped and changes nothing else; any other is counted as refined
/// where there are extended bits, and as estimated where its distance is finite.
pub proof fn law_counters_go_by_vectors(
    s: ScanModel,
    t: ScanTerms,
    c: ClusterModel,
    e: EstimatesModel,
    n: int,
)
    requires
        0 < n,
        0 < t.top_k,
        forall|i: int|
            0 <= i < scan_packed(s, t, c, e, n - 1).heap.len() ==> exponent_field(
                (#[trigger] scan_packed(s, t, c, e, n - 1).heap[i]).distance,
            ) != 255,
    ensures
        ({
            let a = scan_packed(s, t, c, e, n - 1);
            let b = scan_packed(s, t, c, e, n);
            let d = handed_in(e, t.ex_bits, n - 1);
            if !wanted(t.filter, c.ids[n - 1]) {
                b == a
            } else if rules_out(a, t.top_k, e.lower_bounds[n - 1]) {
                &&& b.heap == a.heap
                &&& b.skipped == a.skipped + 1
                &&& b.estimated == a.estimated
                &&& b.extended == a.extended
            } else {
                &&& b.skipped == a.skipped
                &&& t.ex_bits > 0 ==> b.extended == a.extended + 1
                &&& t.ex_bits == 0 ==> b.extended == a.extended
                &&& exponent_field(d) != 255 ==> b.estimated == a.estimated + 1
                &&& exponent_field(d) == 255 ==> b.estimated == a.estimated && b.heap == a.heap
            }
        }),
{
    let a = scan_packed(s, t, c, e, n - 1);
    let bound = e.lower_bounds[n - 1];
    let d = handed_in(e, t.ex_bits, n - 1);
    law_fields_tell_kinds(bound);
    law_fields_tell_kinds(d);
    law_fields_tell_kinds(INFINITY);
    law_comparison_is_numeric(bound, INFINITY);
    assert(float_ge(bound, INFINITY) <==> bound == 0x7f80_0000);
    if a.heap.len() > 0 {
        assert(a.heap.last() == a.heap[a.heap.len() - 1]);
        law_fields_tell_kinds(a.heap.last().distance);
        law_comparison_is_numeric(bound, a.heap.last().distance);
        law_comparison_is_numeric(INFINITY, a.heap.last().distance);
        law_comparison_is_numeric(a.heap.last().distance, INFINITY);
    }
}

} // verus!
