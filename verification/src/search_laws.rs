//! What holds of every search: what is found, that pruning loses nothing, and what is counted.
use crate::cluster::ClusterModel;
use crate::filter::passes;
use crate::float_bits::{float_ge, is_finite_bits, is_nan_bits, negated, value_rank, SIGN};
use crate::index::IndexModel;
use crate::ranking::{first, is_ranked, offered, place, ranked, ranked_with};
use crate::search::{
    by_distance, candidate, distances, fresh_scan, kth_distance, probe_rank, query_probes, results,
    scan_clusters, scan_packed, scan_pending, search_outcome, EstimatesModel,
    HeapCandidate, QueryModel, ScanModel, ScanTerms, SearchParams, SearchResult,
};
use crate::types::Metric;
use vstd::prelude::*;

verus! {

/// The terms on which a search scans the clusters.
pub open spec fn terms_of(
    m: IndexModel,
    params: SearchParams,
    filter: Option<Set<u32>>,
) -> ScanTerms {
    ScanTerms { filter, metric: m.metric, ex_bits: m.ex_bits, top_k: params.top_k as int }
}

// ----------------------------------------------------------------------------
// What every search keeps
// ----------------------------------------------------------------------------

/// What holds of the candidates of a scan: there are at most `top_k` of them, ranked by distance;
/// each passes the filter and is finite, L2 distances are not negative, and the score goes with
/// the distance.
pub open spec fn sound_heap(heap: Seq<HeapCandidate>, t: ScanTerms) -> bool {
    &&& heap.len() <= t.top_k
    &&& is_ranked(heap, by_distance())
    &&& forall|i: int| 0 <= i < heap.len() ==> sound_candidate(#[trigger] heap[i], t)
}

/// What holds of each candidate of a scan.
pub open spec fn sound_candidate(c: HeapCandidate, t: ScanTerms) -> bool {
    &&& passes(t.filter, c.id)
    &&& is_finite_bits(c.distance)
    &&& t.metric == Metric::L2 ==> c.distance < SIGN && c.score == c.distance
    &&& t.metric == Metric::InnerProduct ==> c.score == negated(c.distance)
}

proof fn lemma_offer_sound(heap: Seq<HeapCandidate>, t: ScanTerms, c: HeapCandidate)
    requires
        0 <= t.top_k,
        sound_heap(heap, t),
        sound_candidate(c, t),
    ensures
        sound_heap(offered(heap, c, by_distance(), t.top_k), t),
{
    let rank = by_distance();
    let after = offered(heap, c, rank, t.top_k);
    let placed = ranked_with(heap, c, rank);
    let p = place(heap, rank(c), rank);
    crate::ranking::lemma_place(heap, rank(c), rank);
    crate::ranking::lemma_ranked_with(heap, c, rank);
    crate::ranking::lemma_first_ranked(placed, rank, t.top_k);
    assert forall|i: int| 0 <= i < after.len() implies sound_candidate(#[trigger] after[i], t) by {
        assert(after[i] == placed[i]);
        if i < p {
            assert(placed[i] == heap[i]);
        } else if i == p {
            assert(placed[i] == c);
        } else {
            assert(placed[i] == heap[i - 1]);
        }
    }
}

proof fn lemma_packed_sound(s: ScanModel, t: ScanTerms, c: ClusterModel, e: EstimatesModel, n: int)
    requires
        0 <= t.top_k,
        sound_heap(s.heap, t),
    ensures
        sound_heap(scan_packed(s, t, c, e, n).heap, t),
    decreases n,
{
    if n > 0 {
        lemma_packed_sound(s, t, c, e, n - 1);
        let before = scan_packed(s, t, c, e, n - 1);
        let d = distances(e, t.ex_bits)[n - 1];
        let id = c.ids[n - 1];
        if passes(t.filter, id) && is_finite_bits(d) {
            lemma_offer_sound(before.heap, t, candidate(t.metric, id, d));
        }
    }
}

proof fn lemma_pending_sound(
    heap: Seq<HeapCandidate>,
    t: ScanTerms,
    c: ClusterModel,
    e: EstimatesModel,
    n: int,
)
    requires
        0 <= t.top_k,
        sound_heap(heap, t),
    ensures
        sound_heap(scan_pending(heap, t, c, e, n), t),
    decreases n,
{
    if n > 0 {
        lemma_pending_sound(heap, t, c, e, n - 1);
        let before = scan_pending(heap, t, c, e, n - 1);
        let d = e.pending_distances[n - 1];
        let id = c.pending_ids[n - 1];
        if passes(t.filter, id) && is_finite_bits(d) {
            lemma_offer_sound(before, t, candidate(t.metric, id, d));
        }
    }
}

proof fn lemma_clusters_sound(
    s: ScanModel,
    t: ScanTerms,
    m: IndexModel,
    q: QueryModel,
    order: Seq<usize>,
    n: int,
)
    requires
        0 <= t.top_k,
        sound_heap(s.heap, t),
    ensures
        sound_heap(scan_clusters(s, t, m, q, order, n).heap, t),
    decreases n,
{
    if n > 0 {
        lemma_clusters_sound(s, t, m, q, order, n - 1);
        let before = scan_clusters(s, t, m, q, order, n - 1);
        let cid = order[n - 1] as int;
        let c = m.clusters[cid];
        let e = q.clusters[cid];
        lemma_packed_sound(before, t, c, e, c.num_vectors as int);
        lemma_pending_sound(
            scan_packed(before, t, c, e, c.num_vectors as int).heap,
            t,
            c,
            e,
            c.pending_ids.len() as int,
        );
    }
}

/// Whatever the estimates are, a search returns at most `top_k` results, all of them from within
/// the filter and with finite scores, in order: distances from small to large and not negative
/// for L2, inner products from large to small. A filter that contains nothing gives no results.
pub proof fn law_search_results(
    m: IndexModel,
    q: QueryModel,
    params: SearchParams,
    filter: Option<Set<u32>>,
)
    ensures
        search_outcome(m, q, params, filter) matches Ok(s) ==> {
            let found = results(s.heap);
            &&& found.len() <= params.top_k
            &&& forall|i: int|
                0 <= i < found.len() ==> {
                    &&& passes(filter, (#[trigger] found[i]).id)
                    &&& is_finite_bits(found[i].score)
                    &&& m.metric == Metric::L2 ==> found[i].score < SIGN
                }
            &&& forall|i: int, j: int|
                0 <= i <= j < found.len() ==> probe_rank(m.metric, (#[trigger] found[i]).score)
                    <= probe_rank(m.metric, (#[trigger] found[j]).score)
            &&& filter == Some(Set::<u32>::empty()) ==> found.len() == 0
        },
{
    if let Ok(s) = search_outcome(m, q, params, filter) {
        let t = terms_of(m, params, filter);
        let order = query_probes(m, q, params);
        let found = results(s.heap);
        if params.top_k != 0 {
            lemma_clusters_sound(fresh_scan(), t, m, q, order, order.len() as int);
        }
        assert(sound_heap(s.heap, t));
        assert forall|i: int| 0 <= i < found.len() implies {
            &&& passes(filter, (#[trigger] found[i]).id)
            &&& is_finite_bits(found[i].score)
            &&& m.metric == Metric::L2 ==> found[i].score < SIGN
        } by {
            assert(sound_candidate(s.heap[i], t));
        }
        assert forall|i: int, j: int| 0 <= i <= j < found.len() implies probe_rank(
            m.metric,
            (#[trigger] found[i]).score,
        ) <= probe_rank(m.metric, (#[trigger] found[j]).score) by {
            let rank = by_distance();
            assert(sound_candidate(s.heap[i], t));
            assert(sound_candidate(s.heap[j], t));
            assert(rank(s.heap[i]) <= rank(s.heap[j]));
        }
        if filter == Some(Set::<u32>::empty()) && found.len() > 0 {
            assert(passes(filter, found[0].id));
        }
    }
}

// ----------------------------------------------------------------------------
// Pruning loses nothing
// ----------------------------------------------------------------------------

/// Whether a lower bound is one: a NaN rules nothing out, and any other number is not above the
/// distance. (A bound of zero does not count for a distance of negative zero, which ranks before
/// zero though it equals it.)
pub open spec fn sound_bound(lower_bound: u32, distance: u32) -> bool {
    is_nan_bits(lower_bound) || (value_rank(lower_bound) <= value_rank(distance) && !(distance
        == SIGN && value_rank(lower_bound) == 0))
}

/// Whether the lower bounds of a cluster are ones for all vectors that can become candidates.
pub open spec fn bounds_hold(t: ScanTerms, c: ClusterModel, e: EstimatesModel) -> bool {
    forall|i: int|
        0 <= i < c.num_vectors && passes(t.filter, c.ids[i]) && is_finite_bits(
            distances(e, t.ex_bits)[i],
        ) ==> sound_bound(
            #[trigger] e.lower_bounds[i],
            candidate(t.metric, c.ids[i], distances(e, t.ex_bits)[i]).distance,
        )
}

/// The candidates among the first `n` packed vectors of a cluster, without pruning.
pub open spec fn packed_candidates(t: ScanTerms, c: ClusterModel, e: EstimatesModel, n: int) -> Seq<
    HeapCandidate,
>
    decreases n,
{
    if n <= 0 {
        Seq::empty()
    } else {
        let before = packed_candidates(t, c, e, n - 1);
        let d = distances(e, t.ex_bits)[n - 1];
        if passes(t.filter, c.ids[n - 1]) && is_finite_bits(d) {
            before.push(candidate(t.metric, c.ids[n - 1], d))
        } else {
            before
        }
    }
}

/// The candidates among the first `n` pending vectors of a cluster.
pub open spec fn pending_candidates(
    t: ScanTerms,
    c: ClusterModel,
    e: EstimatesModel,
    n: int,
) -> Seq<
    HeapCandidate,
>
    decreases n,
{
    if n <= 0 {
        Seq::empty()
    } else {
        let before = pending_candidates(t, c, e, n - 1);
        let d = e.pending_distances[n - 1];
        if passes(t.filter, c.pending_ids[n - 1]) && is_finite_bits(d) {
            before.push(candidate(t.metric, c.pending_ids[n - 1], d))
        } else {
            before
        }
    }
}

/// All candidates in the first `n` clusters of `order`, in the order in which they are scanned.
pub open spec fn all_candidates(
    t: ScanTerms,
    m: IndexModel,
    q: QueryModel,
    order: Seq<usize>,
    n: int,
) -> Seq<HeapCandidate>
    decreases n,
{
    if n <= 0 {
        Seq::empty()
    } else {
        let cid = order[n - 1] as int;
        let c = m.clusters[cid];
        all_candidates(t, m, q, order, n - 1) + packed_candidates(
            t,
            c,
            q.clusters[cid],
            c.num_vectors as int,
        ) + pending_candidates(t, c, q.clusters[cid], c.pending_ids.len() as int)
    }
}

/// The best `k` of a sequence of candidates.
pub open spec fn best(items: Seq<HeapCandidate>, k: int) -> Seq<HeapCandidate> {
    first(ranked(items, by_distance()), k)
}

proof fn lemma_best_push(items: Seq<HeapCandidate>, x: HeapCandidate, k: int)
    requires
        0 <= k,
    ensures
        best(items.push(x), k) == offered(best(items, k), x, by_distance(), k),
{
    let rank = by_distance();
    crate::ranking::law_ranked_sorts(items, rank);
    crate::ranking::lemma_offer_is_best(ranked(items, rank), x, rank, k);
    assert(items.push(x).drop_last() =~= items);
}

proof fn lemma_packed_best(
    prefix: Seq<HeapCandidate>,
    s: ScanModel,
    t: ScanTerms,
    c: ClusterModel,
    e: EstimatesModel,
    n: int,
)
    requires
        0 < t.top_k,
        s.heap == best(prefix, t.top_k),
        bounds_hold(t, c, e),
        0 <= n <= c.num_vectors,
    ensures
        scan_packed(s, t, c, e, n).heap == best(
            prefix + packed_candidates(t, c, e, n),
            t.top_k,
        ),
    decreases n,
{
    let rank = by_distance();
    if n == 0 {
        assert(prefix + packed_candidates(t, c, e, n) =~= prefix);
    } else {
        lemma_packed_best(prefix, s, t, c, e, n - 1);
        let before = scan_packed(s, t, c, e, n - 1);
        let items = prefix + packed_candidates(t, c, e, n - 1);
        let d = distances(e, t.ex_bits)[n - 1];
        let id = c.ids[n - 1];
        let lb = e.lower_bounds[n - 1];
        if passes(t.filter, id) && is_finite_bits(d) {
            let x = candidate(t.metric, id, d);
            lemma_best_push(items, x, t.top_k);
            assert(prefix + packed_candidates(t, c, e, n) =~= items.push(x));
            assert(sound_bound(lb, x.distance));
            if float_ge(lb, kth_distance(before.heap, t.top_k)) {
                crate::ranking::law_ranked_sorts(items, rank);
                assert(before.heap.len() == t.top_k);
                crate::ranking::lemma_offer_in_vain(before.heap, x, rank, t.top_k);
            }
        }
    }
}

proof fn lemma_pending_best(
    prefix: Seq<HeapCandidate>,
    heap: Seq<HeapCandidate>,
    t: ScanTerms,
    c: ClusterModel,
    e: EstimatesModel,
    n: int,
)
    requires
        0 < t.top_k,
        heap == best(prefix, t.top_k),
    ensures
        scan_pending(heap, t, c, e, n) == best(
            prefix + pending_candidates(t, c, e, n),
            t.top_k,
        ),
    decreases n,
{
    if n <= 0 {
        assert(prefix + pending_candidates(t, c, e, n) =~= prefix);
    } else {
        lemma_pending_best(prefix, heap, t, c, e, n - 1);
        let items = prefix + pending_candidates(t, c, e, n - 1);
        let d = e.pending_distances[n - 1];
        let id = c.pending_ids[n - 1];
        if passes(t.filter, id) && is_finite_bits(d) {
            let x = candidate(t.metric, id, d);
            lemma_best_push(items, x, t.top_k);
            assert(prefix + pending_candidates(t, c, e, n) =~= items.push(x));
        }
    }
}

proof fn lemma_clusters_best(
    t: ScanTerms,
    m: IndexModel,
    q: QueryModel,
    order: Seq<usize>,
    n: int,
)
    requires
        0 < t.top_k,
        0 <= n <= order.len(),
        forall|i: int|
            0 <= i < n ==> bounds_hold(
                t,
                m.clusters[#[trigger] order[i] as int],
                q.clusters[order[i] as int],
            ),
    ensures
        scan_clusters(fresh_scan(), t, m, q, order, n).heap == best(
            all_candidates(t, m, q, order, n),
            t.top_k,
        ),
    decreases n,
{
    if n > 0 {
        lemma_clusters_best(t, m, q, order, n - 1);
        let before = scan_clusters(fresh_scan(), t, m, q, order, n - 1);
        let cid = order[n - 1] as int;
        let c = m.clusters[cid];
        let e = q.clusters[cid];
        let prefix = all_candidates(t, m, q, order, n - 1);
        lemma_packed_best(prefix, before, t, c, e, c.num_vectors as int);
        lemma_pending_best(
            prefix + packed_candidates(t, c, e, c.num_vectors as int),
            scan_packed(before, t, c, e, c.num_vectors as int).heap,
            t,
            c,
            e,
            c.pending_ids.len() as int,
        );
    }
}

/// Pruning loses nothing: where the lower bounds of the scanned clusters hold, a search returns
/// the best `top_k` of all their candidates.
pub proof fn law_pruning_is_exact(
    m: IndexModel,
    q: QueryModel,
    params: SearchParams,
    filter: Option<Set<u32>>,
)
    requires
        forall|i: int|
            0 <= i < query_probes(m, q, params).len() ==> bounds_hold(
                terms_of(m, params, filter),
                m.clusters[#[trigger] query_probes(m, q, params)[i] as int],
                q.clusters[query_probes(m, q, params)[i] as int],
            ),
    ensures
        search_outcome(m, q, params, filter) matches Ok(s) ==> s.heap == best(
            all_candidates(
                terms_of(m, params, filter),
                m,
                q,
                query_probes(m, q, params),
                query_probes(m, q, params).len() as int,
            ),
            params.top_k as int,
        ),
{
    if let Ok(s) = search_outcome(m, q, params, filter) {
        let t = terms_of(m, params, filter);
        let order = query_probes(m, q, params);
        if params.top_k != 0 {
            lemma_clusters_best(t, m, q, order, order.len() as int);
        } else {
            let items = all_candidates(t, m, q, order, order.len() as int);
            crate::ranking::law_ranked_sorts(items, by_distance());
            assert(best(items, 0) =~= Seq::empty());
        }
    }
}

// ----------------------------------------------------------------------------
// What a filter keeps
// ----------------------------------------------------------------------------

/// The terms of a search without its filter.
spec fn unfiltered(t: ScanTerms) -> ScanTerms {
    ScanTerms { filter: None, ..t }
}

/// Whether a candidate passes the filter.
spec fn admitted(t: ScanTerms) -> spec_fn(HeapCandidate) -> bool {
    |c: HeapCandidate| passes(t.filter, c.id)
}

proof fn lemma_filter_push(items: Seq<HeapCandidate>, x: HeapCandidate, t: ScanTerms)
    ensures
        items.push(x).filter(admitted(t)) == if passes(t.filter, x.id) {
            items.filter(admitted(t)).push(x)
        } else {
            items.filter(admitted(t))
        },
{
    reveal(Seq::filter);
    assert(items.push(x).drop_last() =~= items);
}

proof fn lemma_packed_filtered(t: ScanTerms, c: ClusterModel, e: EstimatesModel, n: int)
    ensures
        packed_candidates(t, c, e, n) == packed_candidates(unfiltered(t), c, e, n).filter(
            admitted(t),
        ),
    decreases n,
{
    if n <= 0 {
        reveal(Seq::filter);
    } else {
        lemma_packed_filtered(t, c, e, n - 1);
        let d = distances(e, t.ex_bits)[n - 1];
        if is_finite_bits(d) {
            lemma_filter_push(
                packed_candidates(unfiltered(t), c, e, n - 1),
                candidate(t.metric, c.ids[n - 1], d),
                t,
            );
        }
    }
}

proof fn lemma_pending_filtered(t: ScanTerms, c: ClusterModel, e: EstimatesModel, n: int)
    ensures
        pending_candidates(t, c, e, n) == pending_candidates(unfiltered(t), c, e, n).filter(
            admitted(t),
        ),
    decreases n,
{
    if n <= 0 {
        reveal(Seq::filter);
    } else {
        lemma_pending_filtered(t, c, e, n - 1);
        let d = e.pending_distances[n - 1];
        if is_finite_bits(d) {
            lemma_filter_push(
                pending_candidates(unfiltered(t), c, e, n - 1),
                candidate(t.metric, c.pending_ids[n - 1], d),
                t,
            );
        }
    }
}

proof fn lemma_candidates_filtered(
    t: ScanTerms,
    m: IndexModel,
    q: QueryModel,
    order: Seq<usize>,
    n: int,
)
    ensures
        all_candidates(t, m, q, order, n) == all_candidates(unfiltered(t), m, q, order, n).filter(
            admitted(t),
        ),
    decreases n,
{
    if n <= 0 {
        reveal(Seq::filter);
    } else {
        lemma_candidates_filtered(t, m, q, order, n - 1);
        let cid = order[n - 1] as int;
        let c = m.clusters[cid];
        let e = q.clusters[cid];
        lemma_packed_filtered(t, c, e, c.num_vectors as int);
        lemma_pending_filtered(t, c, e, c.pending_ids.len() as int);
        let all = all_candidates(unfiltered(t), m, q, order, n - 1);
        let packed = packed_candidates(unfiltered(t), c, e, c.num_vectors as int);
        let pending = pending_candidates(unfiltered(t), c, e, c.pending_ids.len() as int);
        Seq::filter_distributes_over_add(all + packed, pending, admitted(t));
        Seq::filter_distributes_over_add(all, packed, admitted(t));
    }
}

proof fn lemma_results_filtered(heap: Seq<HeapCandidate>, t: ScanTerms)
    ensures
        results(heap).filter(|r: SearchResult| passes(t.filter, r.id)) == results(
            heap.filter(admitted(t)),
        ),
    decreases heap.len(),
{
    reveal(Seq::filter);
    let keep = |r: SearchResult| passes(t.filter, r.id);
    if heap.len() == 0 {
        assert(results(heap).filter(keep) =~= results(heap.filter(admitted(t))));
    } else {
        let init = heap.drop_last();
        lemma_results_filtered(init, t);
        assert(results(heap).drop_last() =~= results(init));
        assert(results(heap).filter(keep) =~= results(heap.filter(admitted(t))));
    }
}

/// A filter only leaves out: where the lower bounds hold, what it lets through of the results
/// without a filter comes first, in the same order and with the same scores, in the results with
/// it. Where the search without a filter found fewer than `top_k`, there is nothing else in them.
pub proof fn law_filter_only_leaves_out(
    m: IndexModel,
    q: QueryModel,
    params: SearchParams,
    filter: Option<Set<u32>>,
)
    requires
        forall|i: int|
            0 <= i < query_probes(m, q, params).len() ==> bounds_hold(
                terms_of(m, params, None),
                m.clusters[#[trigger] query_probes(m, q, params)[i] as int],
                q.clusters[query_probes(m, q, params)[i] as int],
            ),
    ensures
        search_outcome(m, q, params, None) is Ok <==> search_outcome(m, q, params, filter) is Ok,
        search_outcome(m, q, params, None) matches Ok(u) ==> {
            let found = results((search_outcome(m, q, params, filter)->Ok_0).heap);
            let kept = results(u.heap).filter(|r: SearchResult| passes(filter, r.id));
            &&& kept.len() <= found.len()
            &&& kept == found.take(kept.len() as int)
            &&& u.heap.len() < params.top_k ==> kept == found
        },
{
    if let Ok(u) = search_outcome(m, q, params, None) {
        let f = search_outcome(m, q, params, filter)->Ok_0;
        let t = terms_of(m, params, filter);
        let order = query_probes(m, q, params);
        let n = order.len() as int;
        let rank = by_distance();
        let k = params.top_k as int;
        assert(unfiltered(t) == terms_of(m, params, None));
        assert forall|i: int| 0 <= i < order.len() implies bounds_hold(
            t,
            m.clusters[#[trigger] order[i] as int],
            q.clusters[order[i] as int],
        ) by {
            assert(bounds_hold(
                unfiltered(t),
                m.clusters[order[i] as int],
                q.clusters[order[i] as int],
            ));
        }
        law_pruning_is_exact(m, q, params, None);
        law_pruning_is_exact(m, q, params, filter);
        let all = all_candidates(unfiltered(t), m, q, order, n);
        lemma_candidates_filtered(t, m, q, order, n);
        crate::ranking::law_ranking_commutes_with_filtering(all, rank, admitted(t));
        crate::ranking::lemma_filter_of_first(ranked(all, rank), admitted(t), k);
        lemma_results_filtered(u.heap, t);
        let kept = u.heap.filter(admitted(t));
        assert(results(kept) =~= results(f.heap).take(kept.len() as int));
        if u.heap.len() < k {
            assert(results(kept) =~= results(f.heap));
        }
    }
}

// ----------------------------------------------------------------------------
// What is counted
// ----------------------------------------------------------------------------

proof fn lemma_packed_counts(s: ScanModel, t: ScanTerms, c: ClusterModel, e: EstimatesModel, n: int)
    ensures
        t.ex_bits == 0 ==> scan_packed(s, t, c, e, n).extended == s.extended,
        t.ex_bits > 0 ==> scan_packed(s, t, c, e, n).estimated - s.estimated <= scan_packed(
            s,
            t,
            c,
            e,
            n,
        ).extended - s.extended,
    decreases n,
{
    if n > 0 {
        lemma_packed_counts(s, t, c, e, n - 1);
    }
}

proof fn lemma_cluster_counts(
    s: ScanModel,
    t: ScanTerms,
    m: IndexModel,
    q: QueryModel,
    order: Seq<usize>,
    n: int,
)
    ensures
        t.ex_bits == 0 ==> scan_clusters(s, t, m, q, order, n).extended == s.extended,
        t.ex_bits > 0 ==> scan_clusters(s, t, m, q, order, n).estimated - s.estimated
            <= scan_clusters(s, t, m, q, order, n).extended - s.extended,
    decreases n,
{
    if n > 0 {
        lemma_cluster_counts(s, t, m, q, order, n - 1);
        let cid = order[n - 1] as int;
        let c = m.clusters[cid];
        lemma_packed_counts(
            scan_clusters(s, t, m, q, order, n - 1),
            t,
            c,
            q.clusters[cid],
            c.num_vectors as int,
        );
    }
}

/// An index with one bit per dimension refines no distance, and one with more refines every
/// distance of a packed vector that it takes into account.
pub proof fn law_refinement_counts(
    m: IndexModel,
    q: QueryModel,
    params: SearchParams,
    filter: Option<Set<u32>>,
)
    ensures
        search_outcome(m, q, params, filter) matches Ok(s) ==> {
            &&& m.ex_bits == 0 ==> s.extended == 0
            &&& m.ex_bits > 0 ==> s.estimated <= s.extended
        },
{
    let t = terms_of(m, params, filter);
    let order = query_probes(m, q, params);
    lemma_cluster_counts(fresh_scan(), t, m, q, order, order.len() as int);
}

} // verus!
