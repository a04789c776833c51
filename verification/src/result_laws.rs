//! What the results of a search say of the distances that were handed in: every result belongs to a
//! stored vector and carries its distance, and no better vector is left out.
use crate::cluster::ClusterModel;
use crate::filter::{bitmap_ids, filter_ids, passes};
use crate::float_laws::{
    exponent_field, fraction_field, law_comparison_is_numeric, law_fields_tell_kinds,
    law_total_order_of_bits, numeric,
};
use crate::float_bits::{float_ge, is_finite_bits, total_rank, INFINITY};
use crate::index::{vector_total, IndexModel};
use crate::ranking::{is_ranked, offered, place, ranked, ranked_with};
use crate::search::{
    answerable, by_distance, candidate, distances, fresh_scan, law_probes_in_order, probe_rank,
    query_probes, results, scan_clusters, scan_packed, scan_pending, search_outcome,
    EstimatesModel, HeapCandidate, QueryModel, ScanModel, ScanTerms, SearchParams, SearchResult,
};
use crate::search_coverage::{all_measured, law_everything_is_found, measured, returns_id};
use crate::search_laws::{
    all_candidates, best, bounds_hold, law_pruning_is_exact, law_search_results,
    packed_candidates, pending_candidates, sound_bound, terms_of,
};
use crate::types::Metric;
use roaring::RoaringBitmap;
use vstd::prelude::*;

verus! {

/// The distance that was handed in for packed vector `j` of a cluster: the refined one where there
/// are extended bits, the one-bit estimate otherwise.
pub open spec fn handed_in(e: EstimatesModel, ex_bits: usize, j: int) -> u32 {
    if ex_bits > 0 {
        e.refined_distances[j]
    } else {
        e.est_distances[j]
    }
}

/// The bits with the top bit turned.
pub open spec fn sign_turned(d: u32) -> u32 {
    if d < 0x8000_0000 {
        (d + 0x8000_0000) as u32
    } else {
        (d - 0x8000_0000) as u32
    }
}

/// The score of a vector at distance `d`: for L2 the distance, and zero where it is negative; for
/// inner products the distance with its sign turned.
pub open spec fn score_at(metric: Metric, d: u32) -> u32 {
    match metric {
        Metric::L2 => if d < 0x8000_0000 {
            d
        } else {
            0
        },
        Metric::InnerProduct => sign_turned(d),
    }
}

/// The score of a vector at distance `d` in a search without shortcuts: an L2 distance stays as it
/// is.
pub open spec fn plain_score_at(metric: Metric, d: u32) -> u32 {
    match metric {
        Metric::L2 => d,
        Metric::InnerProduct => sign_turned(d),
    }
}

/// Whether bits come no later than others in the order of all numbers, negative zero before zero.
pub open spec fn bits_le(a: u32, b: u32) -> bool {
    if a < 0x8000_0000 {
        b < 0x8000_0000 && a <= b
    } else {
        b < 0x8000_0000 || b <= a
    }
}

/// Whether a score is at least as good as another one: for L2 no larger, for inner products no
/// smaller.
pub open spec fn at_least_as_good(metric: Metric, a: u32, b: u32) -> bool {
    match metric {
        Metric::L2 => bits_le(a, b),
        Metric::InnerProduct => bits_le(b, a),
    }
}

/// Whether an id may be returned: any without a filter, else those of its numbers.
pub open spec fn wanted(filter: Option<Set<u32>>, id: u64) -> bool {
    filter matches Some(ids) ==> id < 0x1_0000_0000 && ids.contains(id as u32)
}

/// Whether vector `j` of cluster `cid`, packed or pending, can be returned at all: it is wanted, and
/// the distance that was handed in for it is finite.
pub open spec fn eligible(
    m: IndexModel,
    q: QueryModel,
    filter: Option<Set<u32>>,
    cid: int,
    j: int,
    pending: bool,
) -> bool {
    &&& 0 <= j < if pending {
        m.clusters[cid].pending_ids.len() as int
    } else {
        m.clusters[cid].num_vectors as int
    }
    &&& wanted(filter, id_at(m, cid, j, pending))
    &&& exponent_field(distance_at(m, q, cid, j, pending)) != 255
}

/// The id of vector `j` of cluster `cid`, packed or pending.
pub open spec fn id_at(m: IndexModel, cid: int, j: int, pending: bool) -> u64 {
    if pending {
        m.clusters[cid].pending_ids[j]
    } else {
        m.clusters[cid].ids[j]
    }
}

/// The distance that was handed in for vector `j` of cluster `cid`, packed or pending.
pub open spec fn distance_at(m: IndexModel, q: QueryModel, cid: int, j: int, pending: bool) -> u32 {
    if pending {
        q.clusters[cid].pending_distances[j]
    } else {
        handed_in(q.clusters[cid], m.ex_bits, j)
    }
}

/// Whether a result is that of an eligible vector of one of the clusters: its id, and the score that
/// goes with the distance handed in for it.
pub open spec fn stems_from(
    m: IndexModel,
    q: QueryModel,
    filter: Option<Set<u32>>,
    order: Seq<usize>,
    r: SearchResult,
) -> bool {
    exists|n: int, j: int, pending: bool|
        0 <= n < order.len() && #[trigger] eligible(m, q, filter, order[n] as int, j, pending)
            && r.id == id_at(m, order[n] as int, j, pending) && r.score == score_at(
            m.metric,
            distance_at(m, q, order[n] as int, j, pending),
        )
}

// ----------------------------------------------------------------------------
// Every result stems from a vector
// ----------------------------------------------------------------------------

/// Whether a candidate is that of an eligible vector of one of the first `n` clusters.
spec fn grown_from(
    m: IndexModel,
    q: QueryModel,
    filter: Option<Set<u32>>,
    order: Seq<usize>,
    c: HeapCandidate,
) -> bool {
    stems_from(m, q, filter, order, SearchResult { id: c.id, score: c.score })
}

proof fn lemma_offer_keeps(
    heap: Seq<HeapCandidate>,
    x: HeapCandidate,
    k: int,
    good: spec_fn(HeapCandidate) -> bool,
)
    requires
        0 <= k,
        is_ranked(heap, by_distance()),
        forall|i: int| 0 <= i < heap.len() ==> good(#[trigger] heap[i]),
        good(x),
    ensures
        is_ranked(offered(heap, x, by_distance(), k), by_distance()),
        forall|i: int|
            0 <= i < offered(heap, x, by_distance(), k).len() ==> good(
                #[trigger] offered(heap, x, by_distance(), k)[i],
            ),
{
    let rank = by_distance();
    let after = offered(heap, x, rank, k);
    let placed = ranked_with(heap, x, rank);
    let p = place(heap, rank(x), rank);
    crate::ranking::lemma_place(heap, rank(x), rank);
    crate::ranking::lemma_ranked_with(heap, x, rank);
    crate::ranking::lemma_first_ranked(placed, rank, k);
    assert forall|i: int| 0 <= i < after.len() implies good(#[trigger] after[i]) by {
        assert(after[i] == placed[i]);
        if i < p {
            assert(placed[i] == heap[i]);
        } else if i > p {
            assert(placed[i] == heap[i - 1]);
        }
    }
}

/// A finite distance, in bits and in fields.
proof fn lemma_finite(d: u32)
    ensures
        is_finite_bits(d) <==> exponent_field(d) != 255,
{
    law_fields_tell_kinds(d);
}

/// What passes is what is wanted.
proof fn lemma_wanted(filter: Option<Set<u32>>, id: u64)
    ensures
        passes(filter, id) == wanted(filter, id),
{
}

proof fn lemma_candidate_stems(
    m: IndexModel,
    q: QueryModel,
    filter: Option<Set<u32>>,
    order: Seq<usize>,
    n: int,
    j: int,
    pending: bool,
)
    requires
        0 <= n < order.len(),
        eligible(m, q, filter, order[n] as int, j, pending),
    ensures
        grown_from(
            m,
            q,
            filter,
            order,
            candidate(
                m.metric,
                id_at(m, order[n] as int, j, pending),
                distance_at(m, q, order[n] as int, j, pending),
            ),
        ),
{
}

proof fn lemma_packed_stems(
    m: IndexModel,
    q: QueryModel,
    t: ScanTerms,
    order: Seq<usize>,
    s: ScanModel,
    k: int,
    n: int,
)
    requires
        0 <= t.top_k,
        t.metric == m.metric,
        t.ex_bits == m.ex_bits,
        0 <= k < order.len(),
        n <= m.clusters[order[k] as int].num_vectors,
        is_ranked(s.heap, by_distance()),
        forall|i: int|
            0 <= i < s.heap.len() ==> grown_from(m, q, t.filter, order, #[trigger] s.heap[i]),
    ensures
        ({
            let cid = order[k] as int;
            let heap = scan_packed(s, t, m.clusters[cid], q.clusters[cid], n).heap;
            &&& is_ranked(heap, by_distance())
            &&& forall|i: int|
                0 <= i < heap.len() ==> grown_from(m, q, t.filter, order, #[trigger] heap[i])
        }),
    decreases n,
{
    if n > 0 {
        let cid = order[k] as int;
        let c = m.clusters[cid];
        let e = q.clusters[cid];
        lemma_packed_stems(m, q, t, order, s, k, n - 1);
        let before = scan_packed(s, t, c, e, n - 1);
        let d = distances(e, t.ex_bits)[n - 1];
        let id = c.ids[n - 1];
        lemma_finite(d);
        lemma_wanted(t.filter, id);
        if passes(t.filter, id) && is_finite_bits(d) {
            assert(eligible(m, q, t.filter, cid, n - 1, false));
            lemma_candidate_stems(m, q, t.filter, order, k, n - 1, false);
            lemma_offer_keeps(
                before.heap,
                candidate(t.metric, id, d),
                t.top_k,
                |x: HeapCandidate| grown_from(m, q, t.filter, order, x),
            );
        }
    }
}

proof fn lemma_pending_stems(
    m: IndexModel,
    q: QueryModel,
    t: ScanTerms,
    order: Seq<usize>,
    heap: Seq<HeapCandidate>,
    k: int,
    n: int,
)
    requires
        0 <= t.top_k,
        t.metric == m.metric,
        0 <= k < order.len(),
        n <= m.clusters[order[k] as int].pending_ids.len(),
        is_ranked(heap, by_distance()),
        forall|i: int|
            0 <= i < heap.len() ==> grown_from(m, q, t.filter, order, #[trigger] heap[i]),
    ensures
        ({
            let cid = order[k] as int;
            let after = scan_pending(heap, t, m.clusters[cid], q.clusters[cid], n);
            &&& is_ranked(after, by_distance())
            &&& forall|i: int|
                0 <= i < after.len() ==> grown_from(m, q, t.filter, order, #[trigger] after[i])
        }),
    decreases n,
{
    if n > 0 {
        let cid = order[k] as int;
        let c = m.clusters[cid];
        let e = q.clusters[cid];
        lemma_pending_stems(m, q, t, order, heap, k, n - 1);
        let before = scan_pending(heap, t, c, e, n - 1);
        let d = e.pending_distances[n - 1];
        let id = c.pending_ids[n - 1];
        lemma_finite(d);
        lemma_wanted(t.filter, id);
        if passes(t.filter, id) && is_finite_bits(d) {
            assert(eligible(m, q, t.filter, cid, n - 1, true));
            lemma_candidate_stems(m, q, t.filter, order, k, n - 1, true);
            lemma_offer_keeps(
                before,
                candidate(t.metric, id, d),
                t.top_k,
                |x: HeapCandidate| grown_from(m, q, t.filter, order, x),
            );
        }
    }
}

proof fn lemma_clusters_stem(
    m: IndexModel,
    q: QueryModel,
    t: ScanTerms,
    order: Seq<usize>,
    n: int,
)
    requires
        0 <= t.top_k,
        t.metric == m.metric,
        t.ex_bits == m.ex_bits,
        n <= order.len(),
    ensures
        ({
            let heap = scan_clusters(fresh_scan(), t, m, q, order, n).heap;
            &&& is_ranked(heap, by_distance())
            &&& forall|i: int|
                0 <= i < heap.len() ==> grown_from(m, q, t.filter, order, #[trigger] heap[i])
        }),
    decreases n,
{
    if n > 0 {
        lemma_clusters_stem(m, q, t, order, n - 1);
        let before = scan_clusters(fresh_scan(), t, m, q, order, n - 1);
        let cid = order[n - 1] as int;
        let c = m.clusters[cid];
        let e = q.clusters[cid];
        lemma_packed_stems(m, q, t, order, before, n - 1, c.num_vectors as int);
        lemma_pending_stems(
            m,
            q,
            t,
            order,
            scan_packed(before, t, c, e, c.num_vectors as int).heap,
            n - 1,
            c.pending_ids.len() as int,
        );
    }
}

/// Every result is that of a vector: whatever the estimates are, each result of a search has the id
/// of a wanted vector of a scanned cluster and, bit for bit, the score of the finite distance that
/// was handed in for it. There are at most `top_k`, the better ones first.
pub proof fn law_results_carry_distances(
    m: IndexModel,
    q: QueryModel,
    params: SearchParams,
    filter: Option<Set<u32>>,
)
    ensures
        search_outcome(m, q, params, filter) matches Ok(s) ==> {
            let found = results(s.heap);
            &&& found.len() <= params.top_k
            &&& forall|i: int|
                0 <= i < found.len() ==> stems_from(
                    m,
                    q,
                    filter,
                    query_probes(m, q, params),
                    #[trigger] found[i],
                )
            &&& forall|i: int, j: int|
                0 <= i <= j < found.len() ==> at_least_as_good(
                    m.metric,
                    (#[trigger] found[i]).score,
                    (#[trigger] found[j]).score,
                )
        },
{
    if let Ok(s) = search_outcome(m, q, params, filter) {
        let t = terms_of(m, params, filter);
        let order = query_probes(m, q, params);
        let found = results(s.heap);
        law_search_results(m, q, params, filter);
        if params.top_k != 0 {
            lemma_clusters_stem(m, q, t, order, order.len() as int);
            assert forall|i: int| 0 <= i < found.len() implies stems_from(
                m,
                q,
                filter,
                order,
                #[trigger] found[i],
            ) by {
                assert(grown_from(m, q, filter, order, s.heap[i]));
            }
        }
        assert forall|i: int, j: int| 0 <= i <= j < found.len() implies at_least_as_good(
            m.metric,
            (#[trigger] found[i]).score,
            (#[trigger] found[j]).score,
        ) by {
            lemma_rank_is_order(m.metric, found[i].score, found[j].score);
        }
    }
}

/// Ranks order scores as their bits do.
pub proof fn lemma_rank_is_order(metric: Metric, a: u32, b: u32)
    ensures
        probe_rank(metric, a) <= probe_rank(metric, b) <==> at_least_as_good(metric, a, b),
        probe_rank(metric, a) == probe_rank(metric, b) <==> a == b,
{
    law_total_order_of_bits(a, b);
    law_total_order_of_bits(b, a);
}

// ----------------------------------------------------------------------------
// No better vector is left out
// ----------------------------------------------------------------------------

/// Whether a number is a lower bound of the distance that a vector competes with: its score for L2,
/// the distance itself otherwise. A NaN rules nothing out. (Zero is no bound of negative zero, which
/// comes before zero though it equals it.)
pub open spec fn is_lower_bound(metric: Metric, bound: u32, d: u32) -> bool {
    ||| exponent_field(bound) == 255 && fraction_field(bound) != 0
    ||| match metric {
        Metric::L2 => numeric(bound) <= 0 || numeric(bound) <= numeric(d),
        Metric::InnerProduct => numeric(bound) <= numeric(d) && !(d == 0x8000_0000 && numeric(bound)
            == 0),
    }
}

/// Whether the lower bounds of a cluster are ones for its eligible vectors.
pub open spec fn bounded_below(
    m: IndexModel,
    q: QueryModel,
    filter: Option<Set<u32>>,
    cid: int,
) -> bool {
    forall|j: int|
        #![trigger q.clusters[cid].lower_bounds[j]]
        eligible(m, q, filter, cid, j, false) ==> is_lower_bound(
            m.metric,
            q.clusters[cid].lower_bounds[j],
            handed_in(q.clusters[cid], m.ex_bits, j),
        )
}

proof fn lemma_bound_is_sound(metric: Metric, id: u64, bound: u32, d: u32)
    requires
        is_lower_bound(metric, bound, d),
    ensures
        sound_bound(bound, candidate(metric, id, d).distance),
{
    let x = candidate(metric, id, d).distance;
    law_fields_tell_kinds(bound);
    law_comparison_is_numeric(bound, x);
    law_comparison_is_numeric(x, bound);
    law_comparison_is_numeric(bound, 0);
    law_comparison_is_numeric(0, bound);
    law_comparison_is_numeric(0, d);
    law_comparison_is_numeric(d, 0);
    law_comparison_is_numeric(bound, d);
    law_comparison_is_numeric(d, bound);
    assert(numeric(0) == 0);
}

proof fn lemma_bounds(m: IndexModel, q: QueryModel, t: ScanTerms, cid: int)
    requires
        t.metric == m.metric,
        t.ex_bits == m.ex_bits,
        bounded_below(m, q, t.filter, cid),
    ensures
        bounds_hold(t, m.clusters[cid], q.clusters[cid]),
{
    let c = m.clusters[cid];
    let e = q.clusters[cid];
    assert forall|i: int|
        0 <= i < c.num_vectors && passes(t.filter, c.ids[i]) && is_finite_bits(
            distances(e, t.ex_bits)[i],
        ) implies sound_bound(
        #[trigger] e.lower_bounds[i],
        candidate(t.metric, c.ids[i], distances(e, t.ex_bits)[i]).distance,
    ) by {
        lemma_finite(distances(e, t.ex_bits)[i]);
        lemma_wanted(t.filter, c.ids[i]);
        assert(eligible(m, q, t.filter, cid, i, false));
        lemma_bound_is_sound(t.metric, c.ids[i], e.lower_bounds[i], distances(e, t.ex_bits)[i]);
    }
}

proof fn lemma_packed_listed(m: IndexModel, q: QueryModel, t: ScanTerms, cid: int, n: int, j: int)
    requires
        t.metric == m.metric,
        t.ex_bits == m.ex_bits,
        eligible(m, q, t.filter, cid, j, false),
        j < n,
    ensures
        packed_candidates(t, m.clusters[cid], q.clusters[cid], n).contains(
            candidate(m.metric, id_at(m, cid, j, false), distance_at(m, q, cid, j, false)),
        ),
    decreases n,
{
    let c = m.clusters[cid];
    let e = q.clusters[cid];
    let x = candidate(m.metric, id_at(m, cid, j, false), distance_at(m, q, cid, j, false));
    let before = packed_candidates(t, c, e, n - 1);
    let after = packed_candidates(t, c, e, n);
    if j == n - 1 {
        lemma_finite(distances(e, t.ex_bits)[j]);
        lemma_wanted(t.filter, c.ids[j]);
        assert(after[before.len() as int] == x);
    } else {
        lemma_packed_listed(m, q, t, cid, n - 1, j);
        let i = choose|i: int| 0 <= i < before.len() && before[i] == x;
        assert(after[i] == x);
    }
}

proof fn lemma_pending_listed(m: IndexModel, q: QueryModel, t: ScanTerms, cid: int, n: int, j: int)
    requires
        t.metric == m.metric,
        eligible(m, q, t.filter, cid, j, true),
        j < n,
    ensures
        pending_candidates(t, m.clusters[cid], q.clusters[cid], n).contains(
            candidate(m.metric, id_at(m, cid, j, true), distance_at(m, q, cid, j, true)),
        ),
    decreases n,
{
    let c = m.clusters[cid];
    let e = q.clusters[cid];
    let x = candidate(m.metric, id_at(m, cid, j, true), distance_at(m, q, cid, j, true));
    let before = pending_candidates(t, c, e, n - 1);
    let after = pending_candidates(t, c, e, n);
    if j == n - 1 {
        lemma_finite(e.pending_distances[j]);
        lemma_wanted(t.filter, c.pending_ids[j]);
        assert(after[before.len() as int] == x);
    } else {
        lemma_pending_listed(m, q, t, cid, n - 1, j);
        let i = choose|i: int| 0 <= i < before.len() && before[i] == x;
        assert(after[i] == x);
    }
}

proof fn lemma_all_listed(
    m: IndexModel,
    q: QueryModel,
    t: ScanTerms,
    order: Seq<usize>,
    n: int,
    k: int,
    j: int,
    pending: bool,
)
    requires
        t.metric == m.metric,
        t.ex_bits == m.ex_bits,
        0 <= k < n <= order.len(),
        eligible(m, q, t.filter, order[k] as int, j, pending),
    ensures
        all_candidates(t, m, q, order, n).contains(
            candidate(
                m.metric,
                id_at(m, order[k] as int, j, pending),
                distance_at(m, q, order[k] as int, j, pending),
            ),
        ),
    decreases n,
{
    let cid = order[n - 1] as int;
    let c = m.clusters[cid];
    let e = q.clusters[cid];
    let x = candidate(
        m.metric,
        id_at(m, order[k] as int, j, pending),
        distance_at(m, q, order[k] as int, j, pending),
    );
    let a = all_candidates(t, m, q, order, n - 1);
    let b = packed_candidates(t, c, e, c.num_vectors as int);
    let d = pending_candidates(t, c, e, c.pending_ids.len() as int);
    let all = a + b + d;
    if k < n - 1 {
        lemma_all_listed(m, q, t, order, n - 1, k, j, pending);
        let i = choose|i: int| 0 <= i < a.len() && a[i] == x;
        assert(all[i] == x);
    } else if pending {
        lemma_pending_listed(m, q, t, cid, c.pending_ids.len() as int, j);
        let i = choose|i: int| 0 <= i < d.len() && d[i] == x;
        assert(all[a.len() + b.len() + i] == x);
    } else {
        lemma_packed_listed(m, q, t, cid, c.num_vectors as int, j);
        let i = choose|i: int| 0 <= i < b.len() && b[i] == x;
        assert(all[a.len() + i] == x);
    }
}

proof fn lemma_best_or_beaten(items: Seq<HeapCandidate>, x: HeapCandidate, k: int)
    requires
        0 <= k,
        items.contains(x),
    ensures
        best(items, k).contains(x) || (best(items, k).len() == k && forall|i: int|
            0 <= i < k ==> total_rank((#[trigger] best(items, k)[i]).distance) <= total_rank(
                x.distance,
            )),
{
    broadcast use vstd::seq_lib::group_to_multiset_ensures;

    let rank = by_distance();
    let all = ranked(items, rank);
    crate::ranking::law_ranked_sorts(items, rank);
    assert(items.to_multiset().count(x) > 0);
    assert(all.contains(x));
    let p = choose|p: int| 0 <= p < all.len() && all[p] == x;
    if p < best(items, k).len() {
        assert(best(items, k)[p] == x);
    } else {
        assert forall|i: int| 0 <= i < k implies total_rank(
            (#[trigger] best(items, k)[i]).distance,
        ) <= total_rank(x.distance) by {
            assert(best(items, k)[i] == all[i]);
            assert(rank(all[i]) <= rank(all[p]));
        }
    }
}

/// Whether some result has an id and a score.
pub open spec fn is_returned(found: Seq<SearchResult>, id: u64, score: u32) -> bool {
    exists|i: int| 0 <= i < found.len() && #[trigger] found[i] == (SearchResult { id, score })
}

/// No better vector is left out: where the lower bounds of the scanned clusters hold, every wanted
/// vector of a scanned cluster whose distance is finite is returned, with the score of that
/// distance, or there are `top_k` results that are all at least as good.
pub proof fn law_best_are_returned(
    m: IndexModel,
    q: QueryModel,
    params: SearchParams,
    filter: Option<Set<u32>>,
    n: int,
    j: int,
    pending: bool,
)
    requires
        forall|i: int|
            0 <= i < query_probes(m, q, params).len() ==> bounded_below(
                m,
                q,
                filter,
                #[trigger] query_probes(m, q, params)[i] as int,
            ),
        0 <= n < query_probes(m, q, params).len(),
        eligible(m, q, filter, query_probes(m, q, params)[n] as int, j, pending),
    ensures
        search_outcome(m, q, params, filter) matches Ok(s) ==> {
            let cid = query_probes(m, q, params)[n] as int;
            let found = results(s.heap);
            let score = score_at(m.metric, distance_at(m, q, cid, j, pending));
            ||| is_returned(found, id_at(m, cid, j, pending), score)
            ||| found.len() == params.top_k && forall|i: int|
                0 <= i < found.len() ==> at_least_as_good(
                    m.metric,
                    (#[trigger] found[i]).score,
                    score,
                )
        },
{
    if let Ok(s) = search_outcome(m, q, params, filter) {
        let t = terms_of(m, params, filter);
        let order = query_probes(m, q, params);
        let cid = order[n] as int;
        let found = results(s.heap);
        let d = distance_at(m, q, cid, j, pending);
        let x = candidate(m.metric, id_at(m, cid, j, pending), d);
        let score = score_at(m.metric, d);
        assert forall|i: int| 0 <= i < order.len() implies bounds_hold(
            terms_of(m, params, filter),
            m.clusters[#[trigger] order[i] as int],
            q.clusters[order[i] as int],
        ) by {
            assert(bounded_below(m, q, filter, query_probes(m, q, params)[i] as int));
            lemma_bounds(m, q, t, order[i] as int);
        }
        law_pruning_is_exact(m, q, params, filter);
        lemma_all_listed(m, q, t, order, order.len() as int, n, j, pending);
        let items = all_candidates(t, m, q, order, order.len() as int);
        lemma_best_or_beaten(items, x, params.top_k as int);
        if s.heap.contains(x) {
            let i = choose|i: int| 0 <= i < s.heap.len() && s.heap[i] == x;
            assert(found[i] == (SearchResult { id: x.id, score }));
        } else {
            law_results_carry_distances(m, q, params, filter);
            if params.top_k != 0 {
                lemma_clusters_go(m, q, t, order, order.len() as int);
            }
            assert forall|i: int| 0 <= i < found.len() implies at_least_as_good(
                m.metric,
                (#[trigger] found[i]).score,
                score,
            ) by {
                assert(goes_together(m.metric, s.heap[i]));
                assert(total_rank(s.heap[i].distance) <= total_rank(x.distance));
                law_total_order_of_bits(s.heap[i].distance, x.distance);
                law_total_order_of_bits(x.distance, s.heap[i].distance);
            }
        }
    }
}

/// Whether the score of a candidate goes with its distance.
spec fn goes_together(metric: Metric, c: HeapCandidate) -> bool {
    c.score == match metric {
        Metric::L2 => c.distance,
        Metric::InnerProduct => sign_turned(c.distance),
    }
}

proof fn lemma_clusters_go(m: IndexModel, q: QueryModel, t: ScanTerms, order: Seq<usize>, n: int)
    requires
        0 <= t.top_k,
        t.metric == m.metric,
        t.ex_bits == m.ex_bits,
        n <= order.len(),
    ensures
        ({
            let heap = scan_clusters(fresh_scan(), t, m, q, order, n).heap;
            &&& is_ranked(heap, by_distance())
            &&& forall|i: int| 0 <= i < heap.len() ==> goes_together(m.metric, #[trigger] heap[i])
        }),
    decreases n,
{
    if n > 0 {
        lemma_clusters_go(m, q, t, order, n - 1);
        let before = scan_clusters(fresh_scan(), t, m, q, order, n - 1);
        let cid = order[n - 1] as int;
        let c = m.clusters[cid];
        let e = q.clusters[cid];
        lemma_packed_go(t, c, e, before, c.num_vectors as int);
        lemma_pending_go(
            t,
            c,
            e,
            scan_packed(before, t, c, e, c.num_vectors as int).heap,
            c.pending_ids.len() as int,
        );
    }
}

proof fn lemma_packed_go(t: ScanTerms, c: ClusterModel, e: EstimatesModel, s: ScanModel, n: int)
    requires
        0 <= t.top_k,
        is_ranked(s.heap, by_distance()),
        forall|i: int| 0 <= i < s.heap.len() ==> goes_together(t.metric, #[trigger] s.heap[i]),
    ensures
        ({
            let heap = scan_packed(s, t, c, e, n).heap;
            &&& is_ranked(heap, by_distance())
            &&& forall|i: int| 0 <= i < heap.len() ==> goes_together(t.metric, #[trigger] heap[i])
        }),
    decreases n,
{
    if n > 0 {
        lemma_packed_go(t, c, e, s, n - 1);
        lemma_offer_keeps(
            scan_packed(s, t, c, e, n - 1).heap,
            candidate(t.metric, c.ids[n - 1], distances(e, t.ex_bits)[n - 1]),
            t.top_k,
            |x: HeapCandidate| goes_together(t.metric, x),
        );
    }
}

proof fn lemma_pending_go(
    t: ScanTerms,
    c: ClusterModel,
    e: EstimatesModel,
    heap: Seq<HeapCandidate>,
    n: int,
)
    requires
        0 <= t.top_k,
        is_ranked(heap, by_distance()),
        forall|i: int| 0 <= i < heap.len() ==> goes_together(t.metric, #[trigger] heap[i]),
    ensures
        ({
            let after = scan_pending(heap, t, c, e, n);
            &&& is_ranked(after, by_distance())
            &&& forall|i: int|
                0 <= i < after.len() ==> goes_together(t.metric, #[trigger] after[i])
        }),
    decreases n,
{
    if n > 0 {
        lemma_pending_go(t, c, e, heap, n - 1);
        lemma_offer_keeps(
            scan_pending(heap, t, c, e, n - 1),
            candidate(t.metric, c.pending_ids[n - 1], e.pending_distances[n - 1]),
            t.top_k,
            |x: HeapCandidate| goes_together(t.metric, x),
        );
    }
}

// ----------------------------------------------------------------------------
// With room for all, all are found
// ----------------------------------------------------------------------------

/// A filtered search finds what the filter holds: where all clusters are scanned, all distances are
/// finite and there is room for all vectors, every stored vector whose id is among the numbers of
/// the bitmap is returned, and nothing else is.
pub proof fn law_filtered_vectors_are_found(
    m: IndexModel,
    q: QueryModel,
    params: SearchParams,
    bitmap: &RoaringBitmap,
    c: int,
    id: u64,
)
    requires
        m.well_formed(),
        answerable(m, q, params),
        q.dim == m.dim,
        0 <= c < m.clusters.len() <= params.nprobe,
        vector_total(m.clusters) <= params.top_k,
        forall|d: int, j: int|
            0 <= d < m.clusters.len() && 0 <= j < m.clusters[d].num_vectors ==> exponent_field(
                #[trigger] handed_in(q.clusters[d], m.ex_bits, j),
            ) != 255,
        forall|d: int, j: int|
            0 <= d < m.clusters.len() && 0 <= j < m.clusters[d].num_vectors ==> (
            #[trigger] q.clusters[d].lower_bounds[j]) != 0x7f80_0000,
        forall|d: int, j: int|
            0 <= d < m.clusters.len() && 0 <= j < m.clusters[d].pending_ids.len()
                ==> exponent_field(#[trigger] q.clusters[d].pending_distances[j]) != 255,
        m.clusters[c].ids.contains(id) || m.clusters[c].pending_ids.contains(id),
        id < 0x1_0000_0000,
        bitmap_ids(*bitmap).contains(id as u32),
    ensures
        search_outcome(m, q, params, filter_ids(Some(bitmap))) matches Ok(s) && returns_id(
            results(s.heap),
            id,
        ),
        search_outcome(m, q, params, filter_ids(Some(bitmap))) matches Ok(s) ==> forall|i: int|
            0 <= i < results(s.heap).len() ==> {
                &&& (#[trigger] results(s.heap)[i]).id < 0x1_0000_0000
                &&& bitmap_ids(*bitmap).contains(results(s.heap)[i].id as u32)
            },
{
    let filter = filter_ids(Some(bitmap));
    let order = query_probes(m, q, params);
    crate::filter::law_filter_is_membership(bitmap, id);
    let cl = m.clusters[c];
    assert(cl.all_ids().contains(id)) by {
        if cl.ids.contains(id) {
            let j = choose|j: int| 0 <= j < cl.ids.len() && cl.ids[j] == id;
            assert(cl.all_ids()[j] == id);
        } else {
            let j = choose|j: int| 0 <= j < cl.pending_ids.len() && cl.pending_ids[j] == id;
            assert(cl.all_ids()[cl.ids.len() + j] == id);
        }
    }
    lemma_held_total(m, c);
    law_probes_in_order(m.metric, q.centroid_scores, params.nprobe as int);
    assert(all_measured(m, q, params)) by {
        assert forall|i: int| 0 <= i < order.len() implies measured(
            m.clusters[#[trigger] order[i] as int],
            q.clusters[order[i] as int],
            m.ex_bits,
        ) by {
            let d = order[i] as int;
            lemma_measured(m, q, d);
        }
    }
    law_everything_is_found(m, q, params, filter, c, id);
    law_search_results(m, q, params, filter);
}

proof fn lemma_held_total(m: IndexModel, c: int)
    requires
        m.well_formed(),
        0 <= c < m.clusters.len(),
        m.clusters[c].all_ids().len() > 0,
    ensures
        vector_total(m.clusters) > 0,
{
    assert(m.clusters[c].well_formed());
    let k = c + 1;
    assert(m.clusters.take(k).drop_last() =~= m.clusters.take(c));
    assert(m.clusters.take(k).last() == m.clusters[c]);
    crate::index::lemma_total_of_prefix(m.clusters, k);
    crate::index::lemma_total_of_prefix(m.clusters, c);
}

proof fn lemma_measured(m: IndexModel, q: QueryModel, d: int)
    requires
        forall|j: int|
            0 <= j < m.clusters[d].num_vectors ==> exponent_field(
                #[trigger] handed_in(q.clusters[d], m.ex_bits, j),
            ) != 255,
        forall|j: int|
            0 <= j < m.clusters[d].num_vectors ==> (
            #[trigger] q.clusters[d].lower_bounds[j]) != 0x7f80_0000,
        forall|j: int|
            0 <= j < m.clusters[d].pending_ids.len() ==> exponent_field(
                #[trigger] q.clusters[d].pending_distances[j],
            ) != 255,
    ensures
        measured(m.clusters[d], q.clusters[d], m.ex_bits),
{
    let c = m.clusters[d];
    let e = q.clusters[d];
    assert forall|j: int| 0 <= j < c.num_vectors implies is_finite_bits(
        #[trigger] distances(e, m.ex_bits)[j],
    ) by {
        assert(exponent_field(handed_in(e, m.ex_bits, j)) != 255);
        lemma_finite(distances(e, m.ex_bits)[j]);
    }
    assert forall|j: int| 0 <= j < c.num_vectors implies !float_ge(
        #[trigger] e.lower_bounds[j],
        INFINITY,
    ) by {
        law_comparison_is_numeric(e.lower_bounds[j], INFINITY);
        law_fields_tell_kinds(e.lower_bounds[j]);
    }
    assert forall|j: int| 0 <= j < c.pending_ids.len() implies is_finite_bits(
        #[trigger] e.pending_distances[j],
    ) by {
        lemma_finite(e.pending_distances[j]);
    }
}

} // verus!
