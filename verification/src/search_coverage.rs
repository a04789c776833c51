//! What a search reaches: the vectors of the clusters that it scans, each once, and all of them
//! where there is room.
use crate::cluster::{law_append_adds_one, ClusterModel};
use crate::error::RabitqError;
use crate::filter::passes;
use crate::float_bits::{float_ge, is_finite_bits, INFINITY};
use crate::index::{lemma_total_of_prefix, vector_total, IndexModel};
use crate::insert::same_but_clusters;
use crate::quantized::QuantizedModel;
use crate::ranking::{first, is_ranked, offered, place, ranked, ranked_with};
use crate::search::{
    answerable, by_distance, candidate, cid_rank, cids, covers, distances, fresh_scan,
    kth_distance, query_probes, results, scan_clusters, scan_packed, scan_pending, scan_step,
    search_outcome, EstimatesModel, HeapCandidate, QueryModel, ScanModel, ScanTerms, SearchParams,
    SearchResult,
};
use crate::search_laws::{
    all_candidates, packed_candidates, pending_candidates, terms_of,
};
use vstd::prelude::*;

verus! {

/// The ids of the vectors of a cluster that a scan looks at.
pub open spec fn cluster_ids(c: ClusterModel) -> Seq<u64> {
    c.ids.take(c.num_vectors as int) + c.pending_ids
}

/// The ids of the vectors in the first `n` clusters of `order`.
pub open spec fn scanned_ids(m: IndexModel, order: Seq<usize>, n: int) -> Seq<u64>
    decreases n,
{
    if n <= 0 {
        Seq::empty()
    } else {
        scanned_ids(m, order, n - 1) + cluster_ids(m.clusters[order[n - 1] as int])
    }
}

/// The ids of candidates.
pub open spec fn candidate_ids(heap: Seq<HeapCandidate>) -> Seq<u64> {
    heap.map_values(|c: HeapCandidate| c.id)
}

// ----------------------------------------------------------------------------
// Nothing is found that is not there, and nothing twice
// ----------------------------------------------------------------------------

/// Whether candidates are some of the vectors with the given ids, none of them more often.
spec fn drawn_from(heap: Seq<HeapCandidate>, ids: Seq<u64>) -> bool {
    candidate_ids(heap).to_multiset().subset_of(ids.to_multiset())
}

proof fn lemma_drawn_more(heap: Seq<HeapCandidate>, ids: Seq<u64>, id: u64)
    requires
        drawn_from(heap, ids),
    ensures
        drawn_from(heap, ids.push(id)),
{
    broadcast use vstd::seq_lib::group_to_multiset_ensures;

    assert(ids.push(id).to_multiset() =~= ids.to_multiset().insert(id));
}

proof fn lemma_drawn_offer(heap: Seq<HeapCandidate>, ids: Seq<u64>, x: HeapCandidate, k: int)
    requires
        0 <= k,
        is_ranked(heap, by_distance()),
        drawn_from(heap, ids),
    ensures
        drawn_from(offered(heap, x, by_distance(), k), ids.push(x.id)),
        is_ranked(offered(heap, x, by_distance(), k), by_distance()),
{
    broadcast use vstd::seq_lib::group_to_multiset_ensures;

    let rank = by_distance();
    let all = ranked_with(heap, x, rank);
    let p = place(heap, rank(x), rank);
    crate::ranking::lemma_place(heap, rank(x), rank);
    crate::ranking::lemma_ranked_with(heap, x, rank);
    crate::ranking::lemma_first_ranked(all, rank, k);
    assert(candidate_ids(all) =~= candidate_ids(heap).insert(p, x.id));
    let few = candidate_ids(first(all, k));
    let n = few.len() as int;
    let rest = candidate_ids(all).subrange(n, all.len() as int);
    assert(candidate_ids(all) =~= few + rest);
    vstd::seq_lib::lemma_multiset_commutative(few, rest);
    let bag = candidate_ids(heap).to_multiset();
    assert(candidate_ids(all).to_multiset() =~= bag.insert(x.id));
    assert(few.to_multiset().add(rest.to_multiset()) =~= bag.insert(x.id));
    let seen = ids.push(x.id).to_multiset();
    assert(seen =~= ids.to_multiset().insert(x.id));
    assert forall|v: u64| few.to_multiset().count(v) <= seen.count(v) by {
        assert(few.to_multiset().add(rest.to_multiset()).count(v) == bag.insert(x.id).count(v));
        assert(bag.count(v) <= ids.to_multiset().count(v));
    }
}

proof fn lemma_packed_drawn(
    seen: Seq<u64>,
    s: ScanModel,
    t: ScanTerms,
    c: ClusterModel,
    e: EstimatesModel,
    n: int,
)
    requires
        0 <= t.top_k,
        is_ranked(s.heap, by_distance()),
        drawn_from(s.heap, seen),
        0 <= n <= c.ids.len(),
    ensures
        drawn_from(scan_packed(s, t, c, e, n).heap, seen + c.ids.take(n)),
        is_ranked(scan_packed(s, t, c, e, n).heap, by_distance()),
    decreases n,
{
    if n == 0 {
        assert(seen + c.ids.take(0) =~= seen);
    } else {
        lemma_packed_drawn(seen, s, t, c, e, n - 1);
        let before = scan_packed(s, t, c, e, n - 1);
        let ids = seen + c.ids.take(n - 1);
        let id = c.ids[n - 1];
        assert(seen + c.ids.take(n) =~= ids.push(id));
        lemma_drawn_more(before.heap, ids, id);
        lemma_drawn_offer(
            before.heap,
            ids,
            candidate(t.metric, id, distances(e, t.ex_bits)[n - 1]),
            t.top_k,
        );
    }
}

proof fn lemma_pending_drawn(
    seen: Seq<u64>,
    heap: Seq<HeapCandidate>,
    t: ScanTerms,
    c: ClusterModel,
    e: EstimatesModel,
    n: int,
)
    requires
        0 <= t.top_k,
        is_ranked(heap, by_distance()),
        drawn_from(heap, seen),
        0 <= n <= c.pending_ids.len(),
    ensures
        drawn_from(scan_pending(heap, t, c, e, n), seen + c.pending_ids.take(n)),
        is_ranked(scan_pending(heap, t, c, e, n), by_distance()),
    decreases n,
{
    if n == 0 {
        assert(seen + c.pending_ids.take(0) =~= seen);
    } else {
        lemma_pending_drawn(seen, heap, t, c, e, n - 1);
        let before = scan_pending(heap, t, c, e, n - 1);
        let ids = seen + c.pending_ids.take(n - 1);
        let id = c.pending_ids[n - 1];
        assert(seen + c.pending_ids.take(n) =~= ids.push(id));
        lemma_drawn_more(before, ids, id);
        lemma_drawn_offer(
            before,
            ids,
            candidate(t.metric, id, e.pending_distances[n - 1]),
            t.top_k,
        );
    }
}

proof fn lemma_clusters_drawn(
    t: ScanTerms,
    m: IndexModel,
    q: QueryModel,
    order: Seq<usize>,
    n: int,
)
    requires
        0 <= t.top_k,
        0 <= n <= order.len(),
        forall|i: int|
            0 <= i < n ==> {
                let c = m.clusters[#[trigger] order[i] as int];
                c.num_vectors <= c.ids.len()
            },
    ensures
        drawn_from(
            scan_clusters(fresh_scan(), t, m, q, order, n).heap,
            scanned_ids(m, order, n),
        ),
        is_ranked(scan_clusters(fresh_scan(), t, m, q, order, n).heap, by_distance()),
    decreases n,
{
    if n == 0 {
        assert(candidate_ids(fresh_scan().heap) =~= Seq::empty());
        assert(scanned_ids(m, order, 0) =~= Seq::empty());
    } else {
        lemma_clusters_drawn(t, m, q, order, n - 1);
        let before = scan_clusters(fresh_scan(), t, m, q, order, n - 1);
        let cid = order[n - 1] as int;
        let c = m.clusters[cid];
        let e = q.clusters[cid];
        let seen = scanned_ids(m, order, n - 1);
        let k = c.num_vectors as int;
        assert(c.num_vectors <= c.ids.len());
        lemma_packed_drawn(seen, before, t, c, e, k);
        lemma_pending_drawn(
            seen + c.ids.take(k),
            scan_packed(before, t, c, e, k).heap,
            t,
            c,
            e,
            c.pending_ids.len() as int,
        );
        assert(c.pending_ids.take(c.pending_ids.len() as int) =~= c.pending_ids);
        assert(seen + c.ids.take(k) + c.pending_ids =~= scanned_ids(m, order, n));
    }
}

/// Whether no two vectors of an index have the same id.
pub open spec fn distinct_ids(m: IndexModel) -> bool {
    forall|c: int, i: int, d: int, j: int|
        0 <= c < m.clusters.len() && 0 <= d < m.clusters.len() && 0 <= i
            < m.clusters[c].all_ids().len() && 0 <= j < m.clusters[d].all_ids().len() && (c != d
            || i != j) ==> #[trigger] m.clusters[c].all_ids()[i]
            != #[trigger] m.clusters[d].all_ids()[j]
}

/// Entry `i` of what a scan looks at is one of the entries of the cluster.
proof fn lemma_cluster_entry(c: ClusterModel, i: int) -> (j: int)
    requires
        c.num_vectors <= c.ids.len(),
        0 <= i < cluster_ids(c).len(),
    ensures
        0 <= j < c.all_ids().len(),
        c.all_ids()[j] == cluster_ids(c)[i],
        i < c.num_vectors ==> j == i,
        i >= c.num_vectors ==> j == c.ids.len() + (i - c.num_vectors),
{
    if i < c.num_vectors {
        i
    } else {
        c.ids.len() + (i - c.num_vectors)
    }
}

proof fn lemma_scanned_is_held(m: IndexModel, order: Seq<usize>, n: int, k: int) -> (i: int)
    requires
        0 <= n <= order.len(),
        forall|i: int|
            0 <= i < n ==> {
                let c = m.clusters[#[trigger] order[i] as int];
                c.num_vectors <= c.ids.len()
            },
        0 <= k < scanned_ids(m, order, n).len(),
    ensures
        0 <= i < n,
        m.clusters[order[i] as int].all_ids().contains(scanned_ids(m, order, n)[k]),
    decreases n,
{
    let before = scanned_ids(m, order, n - 1);
    let c = m.clusters[order[n - 1] as int];
    if k < before.len() {
        let i = lemma_scanned_is_held(m, order, n - 1, k);
        i
    } else {
        assert(c.num_vectors <= c.ids.len());
        let j = lemma_cluster_entry(c, k - before.len());
        assert(c.all_ids()[j] == scanned_ids(m, order, n)[k]);
        n - 1
    }
}

proof fn lemma_scanned_distinct(m: IndexModel, order: Seq<usize>, n: int)
    requires
        distinct_ids(m),
        0 <= n <= order.len(),
        forall|i: int|
            0 <= i < order.len() ==> {
                let c = m.clusters[#[trigger] order[i] as int];
                order[i] < m.clusters.len() && c.num_vectors <= c.ids.len()
            },
        order.no_duplicates(),
    ensures
        scanned_ids(m, order, n).no_duplicates(),
    decreases n,
{
    if n > 0 {
        lemma_scanned_distinct(m, order, n - 1);
        let before = scanned_ids(m, order, n - 1);
        let cid = order[n - 1] as int;
        let c = m.clusters[cid];
        let part = cluster_ids(c);
        let all = scanned_ids(m, order, n);
        assert(c.num_vectors <= c.ids.len());
        assert forall|i: int, j: int| 0 <= i < j < all.len() implies all[i] != all[j] by {
            let k = before.len() as int;
            if j < k {
                assert(all[i] == before[i] && all[j] == before[j]);
            } else {
                let b = lemma_cluster_entry(c, j - k);
                if i < k {
                    let o = lemma_scanned_is_held(m, order, n - 1, i);
                    let d = order[o] as int;
                    assert(order[o] < m.clusters.len());
                    assert(order[o] != order[n - 1]);
                    let a = choose|a: int|
                        0 <= a < m.clusters[d].all_ids().len() && m.clusters[d].all_ids()[a]
                            == before[i];
                    assert(m.clusters[d].all_ids()[a] != m.clusters[cid].all_ids()[b]);
                } else {
                    let a = lemma_cluster_entry(c, i - k);
                    assert(m.clusters[cid].all_ids()[a] != m.clusters[cid].all_ids()[b]);
                }
            }
        }
    }
}

/// Whether an id is stored in one of the clusters of `order`.
pub open spec fn stored_in(m: IndexModel, order: Seq<usize>, id: u64) -> bool {
    exists|j: int|
        0 <= j < order.len() && m.clusters[#[trigger] order[j] as int].all_ids().contains(id)
}

/// Nothing is found that is not there, and nothing twice: whatever the estimates are, every id that
/// a search returns is stored in a cluster that it scans, and no id comes twice where none is
/// stored twice.
#[verifier::rlimit(30)]
pub proof fn law_results_are_stored(
    m: IndexModel,
    q: QueryModel,
    params: SearchParams,
    filter: Option<Set<u32>>,
)
    requires
        answerable(m, q, params),
        m.clusters.len() <= usize::MAX,
    ensures
        search_outcome(m, q, params, filter) matches Ok(s) ==> {
            let found = results(s.heap);
            let order = query_probes(m, q, params);
            &&& forall|i: int|
                0 <= i < found.len() ==> stored_in(m, order, (#[trigger] found[i]).id)
            &&& distinct_ids(m) ==> forall|i: int, j: int|
                0 <= i < j < found.len() ==> (#[trigger] found[i]).id != (#[trigger] found[j]).id
        },
{
    if let Ok(s) = search_outcome(m, q, params, filter) {
        if params.top_k != 0 {
            broadcast use vstd::seq_lib::group_to_multiset_ensures;

            let t = terms_of(m, params, filter);
            let order = query_probes(m, q, params);
            let n = order.len() as int;
            let found = results(s.heap);
            let ids = candidate_ids(s.heap);
            let seen = scanned_ids(m, order, n);
            crate::search::law_probes_in_order(
                m.metric,
                q.centroid_scores,
                params.nprobe as int,
            );
            assert forall|i: int| 0 <= i < order.len() implies {
                let c = m.clusters[#[trigger] order[i] as int];
                order[i] < m.clusters.len() && c.num_vectors <= c.ids.len()
            } by {
                assert(covers(
                    q.clusters[order[i] as int],
                    m.clusters[order[i] as int],
                    m.ex_bits,
                ));
            }
            lemma_clusters_drawn(t, m, q, order, n);
            assert forall|i: int| 0 <= i < found.len() implies stored_in(
                m,
                order,
                (#[trigger] found[i]).id,
            ) by {
                assert(ids.contains(ids[i]));
                assert(ids.to_multiset().count(ids[i]) > 0);
                assert(seen.contains(ids[i]));
                let k = choose|k: int| 0 <= k < seen.len() && seen[k] == ids[i];
                let j = lemma_scanned_is_held(m, order, n, k);
                assert(m.clusters[order[j] as int].all_ids().contains(found[i].id));
            }
            if distinct_ids(m) {
                assert(order.no_duplicates()) by {
                    assert forall|i: int, j: int| 0 <= i < j < order.len() implies order[i]
                        != order[j] by {
                        assert(crate::search::probe_precedes(
                            m.metric,
                            q.centroid_scores,
                            order[i],
                            order[j],
                        ));
                    }
                }
                lemma_scanned_distinct(m, order, n);
                seen.lemma_multiset_has_no_duplicates();
                assert forall|id: u64| ids.to_multiset().contains(id) implies #[trigger]
                    ids.to_multiset().count(id) == 1 by {
                    assert(seen.to_multiset().contains(id));
                }
                ids.lemma_multiset_has_no_duplicates_conv();
                assert forall|i: int, j: int| 0 <= i < j < found.len() implies (
                #[trigger] found[i]).id != (#[trigger] found[j]).id by {
                    assert(ids[i] != ids[j]);
                }
            }
        }
    }
}

// ----------------------------------------------------------------------------
// How many are found
// ----------------------------------------------------------------------------

/// Whether the estimates of a cluster are finite where they count: each distance is, and no lower
/// bound rules a vector out while there is room.
pub open spec fn measured(c: ClusterModel, e: EstimatesModel, ex_bits: usize) -> bool {
    &&& forall|i: int|
        0 <= i < c.num_vectors ==> is_finite_bits(#[trigger] distances(e, ex_bits)[i])
    &&& forall|i: int|
        0 <= i < c.num_vectors ==> !float_ge(#[trigger] e.lower_bounds[i], INFINITY)
    &&& forall|i: int|
        0 <= i < c.pending_ids.len() ==> is_finite_bits(#[trigger] e.pending_distances[i])
}

/// The smaller of two numbers.
pub open spec fn at_most(n: int, k: int) -> int {
    if n < k {
        n
    } else {
        k
    }
}

proof fn lemma_packed_count(
    p: int,
    s: ScanModel,
    t: ScanTerms,
    c: ClusterModel,
    e: EstimatesModel,
    n: int,
)
    requires
        0 < t.top_k,
        0 <= p,
        s.heap.len() == at_most(p, t.top_k),
        measured(c, e, t.ex_bits),
        0 <= n <= c.num_vectors,
    ensures
        scan_packed(s, t, c, e, n).heap.len() == at_most(
            p + packed_candidates(t, c, e, n).len(),
            t.top_k,
        ),
    decreases n,
{
    if n > 0 {
        lemma_packed_count(p, s, t, c, e, n - 1);
        let before = scan_packed(s, t, c, e, n - 1);
        let d = distances(e, t.ex_bits)[n - 1];
        let lb = e.lower_bounds[n - 1];
        let id = c.ids[n - 1];
        assert(is_finite_bits(d));
        assert(!float_ge(lb, INFINITY));
        if passes(t.filter, id) && !float_ge(lb, kth_distance(before.heap, t.top_k)) {
            let x = candidate(t.metric, id, d);
            let rank = by_distance();
            lemma_place_within(before.heap, rank(x));
            assert(scan_packed(s, t, c, e, n) == scan_step(before, t, id, lb, d));
        }
    }
}

proof fn lemma_place_within(heap: Seq<HeapCandidate>, r: int)
    ensures
        0 <= place(heap, r, by_distance()) <= heap.len(),
    decreases heap.len(),
{
    if heap.len() > 0 {
        lemma_place_within(heap.drop_last(), r);
    }
}

proof fn lemma_pending_count(
    p: int,
    heap: Seq<HeapCandidate>,
    t: ScanTerms,
    c: ClusterModel,
    e: EstimatesModel,
    n: int,
)
    requires
        0 < t.top_k,
        0 <= p,
        heap.len() == at_most(p, t.top_k),
    ensures
        scan_pending(heap, t, c, e, n).len() == at_most(
            p + pending_candidates(t, c, e, n).len(),
            t.top_k,
        ),
    decreases n,
{
    if n > 0 {
        lemma_pending_count(p, heap, t, c, e, n - 1);
        let before = scan_pending(heap, t, c, e, n - 1);
        let rank = by_distance();
        let x = candidate(t.metric, c.pending_ids[n - 1], e.pending_distances[n - 1]);
        lemma_place_within(before, rank(x));
    }
}

proof fn lemma_clusters_count(
    t: ScanTerms,
    m: IndexModel,
    q: QueryModel,
    order: Seq<usize>,
    n: int,
)
    requires
        0 < t.top_k,
        0 <= n <= order.len(),
        forall|i: int|
            0 <= i < n ==> measured(
                m.clusters[#[trigger] order[i] as int],
                q.clusters[order[i] as int],
                t.ex_bits,
            ),
    ensures
        scan_clusters(fresh_scan(), t, m, q, order, n).heap.len() == at_most(
            all_candidates(t, m, q, order, n).len() as int,
            t.top_k,
        ),
    decreases n,
{
    if n > 0 {
        lemma_clusters_count(t, m, q, order, n - 1);
        let before = scan_clusters(fresh_scan(), t, m, q, order, n - 1);
        let cid = order[n - 1] as int;
        let c = m.clusters[cid];
        let e = q.clusters[cid];
        let p = all_candidates(t, m, q, order, n - 1).len() as int;
        let k = c.num_vectors as int;
        assert(measured(c, e, t.ex_bits));
        lemma_packed_count(p, before, t, c, e, k);
        lemma_pending_count(
            p + packed_candidates(t, c, e, k).len(),
            scan_packed(before, t, c, e, k).heap,
            t,
            c,
            e,
            c.pending_ids.len() as int,
        );
    }
}

/// Whether an id passes a filter.
pub open spec fn let_through(filter: Option<Set<u32>>) -> spec_fn(u64) -> bool {
    |id: u64| passes(filter, id)
}

proof fn lemma_filter_push(ids: Seq<u64>, id: u64, keep: spec_fn(u64) -> bool)
    ensures
        ids.push(id).filter(keep) == if keep(id) {
            ids.filter(keep).push(id)
        } else {
            ids.filter(keep)
        },
{
    reveal(Seq::filter);
    assert(ids.push(id).drop_last() =~= ids);
}

proof fn lemma_packed_ids(t: ScanTerms, c: ClusterModel, e: EstimatesModel, n: int)
    requires
        measured(c, e, t.ex_bits),
        0 <= n <= c.num_vectors <= c.ids.len(),
    ensures
        candidate_ids(packed_candidates(t, c, e, n)) == c.ids.take(n).filter(let_through(t.filter)),
    decreases n,
{
    if n == 0 {
        reveal(Seq::filter);
        assert(candidate_ids(packed_candidates(t, c, e, 0)) =~= Seq::empty());
        assert(c.ids.take(0) =~= Seq::empty());
    } else {
        lemma_packed_ids(t, c, e, n - 1);
        assert(is_finite_bits(distances(e, t.ex_bits)[n - 1]));
        assert(c.ids.take(n) =~= c.ids.take(n - 1).push(c.ids[n - 1]));
        lemma_filter_push(c.ids.take(n - 1), c.ids[n - 1], let_through(t.filter));
        assert(candidate_ids(packed_candidates(t, c, e, n)) =~= c.ids.take(n).filter(
            let_through(t.filter),
        ));
    }
}

proof fn lemma_pending_ids(t: ScanTerms, c: ClusterModel, e: EstimatesModel, n: int)
    requires
        measured(c, e, t.ex_bits),
        0 <= n <= c.pending_ids.len(),
    ensures
        candidate_ids(pending_candidates(t, c, e, n)) == c.pending_ids.take(n).filter(
            let_through(t.filter),
        ),
    decreases n,
{
    if n == 0 {
        reveal(Seq::filter);
        assert(candidate_ids(pending_candidates(t, c, e, 0)) =~= Seq::empty());
        assert(c.pending_ids.take(0) =~= Seq::empty());
    } else {
        lemma_pending_ids(t, c, e, n - 1);
        assert(is_finite_bits(e.pending_distances[n - 1]));
        assert(c.pending_ids.take(n) =~= c.pending_ids.take(n - 1).push(c.pending_ids[n - 1]));
        lemma_filter_push(c.pending_ids.take(n - 1), c.pending_ids[n - 1], let_through(t.filter));
        assert(candidate_ids(pending_candidates(t, c, e, n)) =~= c.pending_ids.take(n).filter(
            let_through(t.filter),
        ));
    }
}

/// Where all estimates are finite, the candidates are the vectors that pass the filter.
proof fn lemma_all_ids(t: ScanTerms, m: IndexModel, q: QueryModel, order: Seq<usize>, n: int)
    requires
        0 <= n <= order.len(),
        forall|i: int|
            0 <= i < n ==> {
                let c = m.clusters[#[trigger] order[i] as int];
                measured(c, q.clusters[order[i] as int], t.ex_bits) && c.num_vectors
                    <= c.ids.len()
            },
    ensures
        candidate_ids(all_candidates(t, m, q, order, n)) == scanned_ids(m, order, n).filter(
            let_through(t.filter),
        ),
    decreases n,
{
    let keep = let_through(t.filter);
    if n == 0 {
        reveal(Seq::filter);
        assert(candidate_ids(all_candidates(t, m, q, order, 0)) =~= Seq::empty());
    } else {
        lemma_all_ids(t, m, q, order, n - 1);
        let cid = order[n - 1] as int;
        let c = m.clusters[cid];
        let e = q.clusters[cid];
        let k = c.num_vectors as int;
        assert(measured(c, e, t.ex_bits) && c.num_vectors <= c.ids.len());
        lemma_packed_ids(t, c, e, k);
        lemma_pending_ids(t, c, e, c.pending_ids.len() as int);
        assert(c.pending_ids.take(c.pending_ids.len() as int) =~= c.pending_ids);
        Seq::filter_distributes_over_add(c.ids.take(k), c.pending_ids, keep);
        Seq::filter_distributes_over_add(scanned_ids(m, order, n - 1), cluster_ids(c), keep);
        assert(candidate_ids(all_candidates(t, m, q, order, n)) =~= candidate_ids(
            all_candidates(t, m, q, order, n - 1),
        ) + (candidate_ids(packed_candidates(t, c, e, k)) + candidate_ids(
            pending_candidates(t, c, e, c.pending_ids.len() as int),
        )));
    }
}

/// Number of vectors of a cluster that pass a filter.
pub open spec fn passing(c: ClusterModel, filter: Option<Set<u32>>) -> int {
    cluster_ids(c).filter(let_through(filter)).len() as int
}

/// Number of vectors in the clusters of `order` that pass a filter.
pub open spec fn passing_in(
    m: IndexModel,
    order: Seq<usize>,
    filter: Option<Set<u32>>,
) -> int
    decreases order.len(),
{
    if order.len() == 0 {
        0
    } else {
        passing_in(m, order.drop_last(), filter) + passing(
            m.clusters[order.last() as int],
            filter,
        )
    }
}

/// Number of vectors of an index that pass a filter.
pub open spec fn passing_total(m: IndexModel, filter: Option<Set<u32>>) -> int {
    passing_in(m, cids(m.clusters.len() as int), filter)
}

proof fn lemma_passing_scanned(
    m: IndexModel,
    order: Seq<usize>,
    filter: Option<Set<u32>>,
    n: int,
)
    requires
        0 <= n <= order.len(),
    ensures
        scanned_ids(m, order, n).filter(let_through(filter)).len() == passing_in(
            m,
            order.take(n),
            filter,
        ),
    decreases n,
{
    if n == 0 {
        reveal(Seq::filter);
    } else {
        lemma_passing_scanned(m, order, filter, n - 1);
        assert(order.take(n).drop_last() =~= order.take(n - 1));
        Seq::filter_distributes_over_add(
            scanned_ids(m, order, n - 1),
            cluster_ids(m.clusters[order[n - 1] as int]),
            let_through(filter),
        );
    }
}

proof fn lemma_passing_insert(
    m: IndexModel,
    order: Seq<usize>,
    filter: Option<Set<u32>>,
    at: int,
    cid: usize,
)
    requires
        0 <= at <= order.len(),
    ensures
        passing_in(m, order.insert(at, cid), filter) == passing_in(m, order, filter) + passing(
            m.clusters[cid as int],
            filter,
        ),
    decreases order.len(),
{
    let longer = order.insert(at, cid);
    if at == order.len() {
        assert(longer.drop_last() =~= order);
    } else {
        lemma_passing_insert(m, order.drop_last(), filter, at, cid);
        assert(longer.drop_last() =~= order.drop_last().insert(at, cid));
        assert(longer.last() == order.last());
    }
}

/// It does not matter in which order clusters are counted.
proof fn lemma_passing_ranked(
    m: IndexModel,
    items: Seq<usize>,
    filter: Option<Set<u32>>,
    rank: spec_fn(usize) -> int,
)
    ensures
        passing_in(m, ranked(items, rank), filter) == passing_in(m, items, filter),
    decreases items.len(),
{
    if items.len() > 0 {
        let init = items.drop_last();
        let s = ranked(init, rank);
        lemma_passing_ranked(m, init, filter, rank);
        crate::ranking::law_ranked_sorts(init, rank);
        crate::ranking::lemma_place(s, rank(items.last()), rank);
        lemma_passing_insert(m, s, filter, place(s, rank(items.last()), rank), items.last());
    }
}

/// Without a filter everything passes.
pub proof fn law_everything_passes_no_filter(m: IndexModel)
    requires
        m.well_formed(),
        m.clusters.len() <= usize::MAX,
    ensures
        passing_total(m, None) == vector_total(m.clusters),
{
    lemma_total_passes(m, m.clusters.len() as int);
    assert(m.clusters.take(m.clusters.len() as int) =~= m.clusters);
}

proof fn lemma_all_pass(ids: Seq<u64>)
    ensures
        ids.filter(let_through(None)) == ids,
    decreases ids.len(),
{
    reveal(Seq::filter);
    if ids.len() > 0 {
        lemma_all_pass(ids.drop_last());
        assert(ids.drop_last().push(ids.last()) =~= ids);
    }
}

proof fn lemma_total_passes(m: IndexModel, n: int)
    requires
        m.well_formed(),
        0 <= n <= m.clusters.len() <= usize::MAX,
    ensures
        passing_in(m, cids(n), None) == vector_total(m.clusters.take(n)),
    decreases n,
{
    if n > 0 {
        lemma_total_passes(m, n - 1);
        let c = m.clusters[n - 1];
        assert(c.well_formed());
        lemma_all_pass(cluster_ids(c));
        assert(cids(n).drop_last() =~= cids(n - 1));
        assert(cids(n).last() == n - 1);
        assert(m.clusters.take(n).drop_last() =~= m.clusters.take(n - 1));
        assert(m.clusters.take(n).last() == c);
    } else {
        assert(cids(0) =~= Seq::empty());
        assert(m.clusters.take(0) =~= Seq::empty());
    }
}

/// Whether the estimates of all clusters that a query scans are finite where they count.
pub open spec fn all_measured(m: IndexModel, q: QueryModel, params: SearchParams) -> bool {
    forall|i: int|
        0 <= i < query_probes(m, q, params).len() ==> measured(
            m.clusters[#[trigger] query_probes(m, q, params)[i] as int],
            q.clusters[query_probes(m, q, params)[i] as int],
            m.ex_bits,
        )
}

proof fn lemma_probes_cover(m: IndexModel, q: QueryModel, params: SearchParams)
    requires
        answerable(m, q, params),
        vector_total(m.clusters) != 0 && q.dim == m.dim && params.top_k != 0,
    ensures
        forall|i: int|
            0 <= i < query_probes(m, q, params).len() ==> {
                let c = m.clusters[#[trigger] query_probes(m, q, params)[i] as int];
                c.num_vectors <= c.ids.len()
            },
{
    let order = query_probes(m, q, params);
    assert forall|i: int| 0 <= i < order.len() implies {
        let c = m.clusters[#[trigger] order[i] as int];
        c.num_vectors <= c.ids.len()
    } by {
        assert(covers(q.clusters[order[i] as int], m.clusters[order[i] as int], m.ex_bits));
    }
}

/// A search fills up: where the estimates are finite, it returns `top_k` results, or as many as
/// there are vectors that pass the filter in the clusters that it scans. With as many probes as
/// clusters, these are the vectors of the index that pass.
#[verifier::rlimit(30)]
pub proof fn law_result_count(
    m: IndexModel,
    q: QueryModel,
    params: SearchParams,
    filter: Option<Set<u32>>,
)
    requires
        answerable(m, q, params),
        all_measured(m, q, params),
    ensures
        search_outcome(m, q, params, filter) matches Ok(s) ==> {
            &&& results(s.heap).len() == at_most(
                passing_in(m, query_probes(m, q, params), filter),
                params.top_k as int,
            )
            &&& m.clusters.len() <= params.nprobe && params.top_k != 0 ==> results(s.heap).len()
                == at_most(passing_total(m, filter), params.top_k as int)
        },
{
    let order = query_probes(m, q, params);
    let n = order.len() as int;
    assert(order.take(n) =~= order);
    lemma_passing_scanned(m, order, filter, n);
    if let Ok(s) = search_outcome(m, q, params, filter) {
        if params.top_k != 0 {
            let t = terms_of(m, params, filter);
            let rank = cid_rank(m.metric, q.centroid_scores);
            let items = cids(m.clusters.len() as int);
            lemma_probes_cover(m, q, params);
            assert forall|i: int| 0 <= i < n implies {
                let c = m.clusters[#[trigger] order[i] as int];
                measured(c, q.clusters[order[i] as int], t.ex_bits) && c.num_vectors
                    <= c.ids.len()
            } by {}
            lemma_clusters_count(t, m, q, order, n);
            lemma_all_ids(t, m, q, order, n);
            assert(candidate_ids(all_candidates(t, m, q, order, n)).len() == all_candidates(
                t,
                m,
                q,
                order,
                n,
            ).len());
            if m.clusters.len() <= params.nprobe {
                crate::ranking::law_ranked_sorts(items, rank);
                assert(order == ranked(items, rank));
                lemma_passing_ranked(m, items, filter, rank);
            }
        }
    }
}

// ----------------------------------------------------------------------------
// Where there is room, everything is found
// ----------------------------------------------------------------------------

proof fn lemma_ranked_push(items: Seq<HeapCandidate>, x: HeapCandidate, k: int)
    requires
        items.len() < k,
    ensures
        offered(ranked(items, by_distance()), x, by_distance(), k) == ranked(
            items.push(x),
            by_distance(),
        ),
{
    let rank = by_distance();
    crate::ranking::law_ranked_sorts(items, rank);
    crate::ranking::lemma_ranked_with(ranked(items, rank), x, rank);
    assert(items.push(x).drop_last() =~= items);
}

proof fn lemma_packed_roomy(
    prefix: Seq<HeapCandidate>,
    s: ScanModel,
    t: ScanTerms,
    c: ClusterModel,
    e: EstimatesModel,
    n: int,
)
    requires
        s.heap == ranked(prefix, by_distance()),
        measured(c, e, t.ex_bits),
        0 <= n <= c.num_vectors,
        prefix.len() + packed_candidates(t, c, e, n).len() <= t.top_k,
    ensures
        scan_packed(s, t, c, e, n).heap == ranked(
            prefix + packed_candidates(t, c, e, n),
            by_distance(),
        ),
    decreases n,
{
    if n == 0 {
        assert(prefix + packed_candidates(t, c, e, n) =~= prefix);
    } else {
        lemma_packed_roomy(prefix, s, t, c, e, n - 1);
        let before = scan_packed(s, t, c, e, n - 1);
        let items = prefix + packed_candidates(t, c, e, n - 1);
        let d = distances(e, t.ex_bits)[n - 1];
        let lb = e.lower_bounds[n - 1];
        let id = c.ids[n - 1];
        assert(is_finite_bits(d));
        assert(!float_ge(lb, INFINITY));
        if passes(t.filter, id) {
            let x = candidate(t.metric, id, d);
            crate::ranking::law_ranked_sorts(items, by_distance());
            lemma_ranked_push(items, x, t.top_k);
            assert(prefix + packed_candidates(t, c, e, n) =~= items.push(x));
        }
    }
}

proof fn lemma_pending_roomy(
    prefix: Seq<HeapCandidate>,
    heap: Seq<HeapCandidate>,
    t: ScanTerms,
    c: ClusterModel,
    e: EstimatesModel,
    n: int,
)
    requires
        heap == ranked(prefix, by_distance()),
        prefix.len() + pending_candidates(t, c, e, n).len() <= t.top_k,
    ensures
        scan_pending(heap, t, c, e, n) == ranked(
            prefix + pending_candidates(t, c, e, n),
            by_distance(),
        ),
    decreases n,
{
    if n <= 0 {
        assert(prefix + pending_candidates(t, c, e, n) =~= prefix);
    } else {
        lemma_pending_roomy(prefix, heap, t, c, e, n - 1);
        let items = prefix + pending_candidates(t, c, e, n - 1);
        let d = e.pending_distances[n - 1];
        let id = c.pending_ids[n - 1];
        if passes(t.filter, id) && is_finite_bits(d) {
            let x = candidate(t.metric, id, d);
            lemma_ranked_push(items, x, t.top_k);
            assert(prefix + pending_candidates(t, c, e, n) =~= items.push(x));
        }
    }
}

proof fn lemma_clusters_roomy(
    t: ScanTerms,
    m: IndexModel,
    q: QueryModel,
    order: Seq<usize>,
    n: int,
)
    requires
        0 <= n <= order.len(),
        forall|i: int|
            0 <= i < n ==> measured(
                m.clusters[#[trigger] order[i] as int],
                q.clusters[order[i] as int],
                t.ex_bits,
            ),
        all_candidates(t, m, q, order, n).len() <= t.top_k,
    ensures
        scan_clusters(fresh_scan(), t, m, q, order, n).heap == ranked(
            all_candidates(t, m, q, order, n),
            by_distance(),
        ),
    decreases n,
{
    if n > 0 {
        let cid = order[n - 1] as int;
        let c = m.clusters[cid];
        let e = q.clusters[cid];
        let k = c.num_vectors as int;
        let prefix = all_candidates(t, m, q, order, n - 1);
        let packed = packed_candidates(t, c, e, k);
        let before = scan_clusters(fresh_scan(), t, m, q, order, n - 1);
        assert(measured(c, e, t.ex_bits));
        lemma_clusters_roomy(t, m, q, order, n - 1);
        lemma_packed_roomy(prefix, before, t, c, e, k);
        lemma_pending_roomy(
            prefix + packed,
            scan_packed(before, t, c, e, k).heap,
            t,
            c,
            e,
            c.pending_ids.len() as int,
        );
    }
}

proof fn lemma_scanned_holds(m: IndexModel, order: Seq<usize>, n: int, i: int, id: u64)
    requires
        0 <= i < n <= order.len(),
        cluster_ids(m.clusters[order[i] as int]).contains(id),
    ensures
        scanned_ids(m, order, n).contains(id),
    decreases n,
{
    let before = scanned_ids(m, order, n - 1);
    let part = cluster_ids(m.clusters[order[n - 1] as int]);
    let all = scanned_ids(m, order, n);
    if i < n - 1 {
        lemma_scanned_holds(m, order, n - 1, i, id);
        let k = choose|k: int| 0 <= k < before.len() && before[k] == id;
        assert(all[k] == id);
    } else {
        let k = choose|k: int| 0 <= k < part.len() && part[k] == id;
        assert(all[before.len() + k] == id);
    }
}

/// Whether an id is among results.
pub open spec fn returns_id(found: Seq<SearchResult>, id: u64) -> bool {
    exists|i: int| 0 <= i < found.len() && (#[trigger] found[i]).id == id
}

/// A search of all clusters looks at as many vectors as the index has.
#[verifier::rlimit(30)]
proof fn lemma_all_counted(m: IndexModel, order: Seq<usize>, rank: spec_fn(usize) -> int)
    requires
        m.well_formed(),
        m.clusters.len() <= usize::MAX,
        order == ranked(cids(m.clusters.len() as int), rank),
    ensures
        scanned_ids(m, order, order.len() as int).len() == vector_total(m.clusters),
{
    let n = order.len() as int;
    lemma_all_pass(scanned_ids(m, order, n));
    assert(order.take(n) =~= order);
    lemma_passing_scanned(m, order, None, n);
    lemma_passing_ranked(m, cids(m.clusters.len() as int), None, rank);
    law_everything_passes_no_filter(m);
}

/// A search of all clusters looks at every vector of the index, and at no more.
#[verifier::rlimit(30)]
proof fn lemma_all_scanned(m: IndexModel, q: QueryModel, params: SearchParams, c: int, id: u64)
    requires
        m.well_formed(),
        q.centroid_scores.len() == m.clusters.len() <= params.nprobe,
        0 <= c < m.clusters.len(),
        m.clusters[c].all_ids().contains(id),
    ensures
        ({
            let order = query_probes(m, q, params);
            let seen = scanned_ids(m, order, order.len() as int);
            seen.contains(id) && seen.len() == vector_total(m.clusters)
        }),
{
    let order = query_probes(m, q, params);
    let rank = cid_rank(m.metric, q.centroid_scores);
    let items = cids(m.clusters.len() as int);
    crate::ranking::law_ranked_sorts(items, rank);
    assert(order == ranked(items, rank));
    lemma_all_counted(m, order, rank);
    let i = lemma_probed(items, rank, c);
    assert(cluster_ids(m.clusters[c]) =~= m.clusters[c].all_ids()) by {
        assert(m.clusters[c].well_formed());
    }
    lemma_scanned_holds(m, order, order.len() as int, i, id);
}

/// An id that passes the filter is one of the candidates' where a scan looks at it.
proof fn lemma_seen_is_candidate(
    t: ScanTerms,
    m: IndexModel,
    q: QueryModel,
    order: Seq<usize>,
    id: u64,
) -> (a: int)
    requires
        forall|i: int|
            0 <= i < order.len() ==> {
                let c = m.clusters[#[trigger] order[i] as int];
                measured(c, q.clusters[order[i] as int], t.ex_bits) && c.num_vectors
                    <= c.ids.len()
            },
        scanned_ids(m, order, order.len() as int).contains(id),
        passes(t.filter, id),
    ensures
        all_candidates(t, m, q, order, order.len() as int).len() <= scanned_ids(
            m,
            order,
            order.len() as int,
        ).len(),
        0 <= a < all_candidates(t, m, q, order, order.len() as int).len(),
        all_candidates(t, m, q, order, order.len() as int)[a].id == id,
{
    let n = order.len() as int;
    let seen = scanned_ids(m, order, n);
    let keep = let_through(t.filter);
    lemma_all_ids(t, m, q, order, n);
    seen.lemma_filter_len(keep);
    let k = choose|k: int| 0 <= k < seen.len() && seen[k] == id;
    assert(keep(seen[k]));
    seen.lemma_filter_contains(keep, k);
    let all = all_candidates(t, m, q, order, n);
    let ids = candidate_ids(all);
    assert(ids.contains(id));
    assert(ids.len() == all.len());
    let a = choose|a: int| 0 <= a < ids.len() && ids[a] == id;
    assert(all[a].id == id);
    a
}

/// Where there is room, everything is found: a search of all clusters that may return as many
/// results as there are vectors, with finite estimates, returns every stored id that passes the
/// filter, whether its vector is packed or pending. Nothing is asked of the lower bounds but that
/// they are below infinity.
#[verifier::rlimit(30)]
pub proof fn law_everything_is_found(
    m: IndexModel,
    q: QueryModel,
    params: SearchParams,
    filter: Option<Set<u32>>,
    c: int,
    id: u64,
)
    requires
        m.well_formed(),
        answerable(m, q, params),
        all_measured(m, q, params),
        q.dim == m.dim,
        0 <= c < m.clusters.len() <= params.nprobe,
        vector_total(m.clusters) <= params.top_k,
        m.clusters[c].all_ids().contains(id),
        passes(filter, id),
    ensures
        search_outcome(m, q, params, filter) matches Ok(s) && returns_id(
            results(s.heap),
            id,
        ),
{
    let t = terms_of(m, params, filter);
    let order = query_probes(m, q, params);
    let n = order.len() as int;
    lemma_total_positive(m, c);
    lemma_probes_cover(m, q, params);
    lemma_all_scanned(m, q, params, c, id);
    assert forall|j: int| 0 <= j < n implies {
        let x = m.clusters[#[trigger] order[j] as int];
        measured(x, q.clusters[order[j] as int], t.ex_bits) && x.num_vectors <= x.ids.len()
    } by {}
    let a = lemma_seen_is_candidate(t, m, q, order, id);
    lemma_clusters_roomy(t, m, q, order, n);
    let all = all_candidates(t, m, q, order, n);
    let heap = ranked(all, by_distance());
    lemma_ranked_holds(all, a);
    let b = choose|b: int| 0 <= b < heap.len() && heap[b] == all[a];
    let s = scan_clusters(fresh_scan(), t, m, q, order, n);
    assert(search_outcome(m, q, params, filter) == Ok::<ScanModel, RabitqError>(s));
    assert(s.heap == heap);
    assert(results(s.heap)[b].id == id);
    assert(returns_id(results(s.heap), id));
}

proof fn lemma_total_positive(m: IndexModel, c: int)
    requires
        m.well_formed(),
        0 <= c < m.clusters.len(),
        m.clusters[c].all_ids().len() > 0,
    ensures
        vector_total(m.clusters) > 0,
{
    assert(m.clusters[c].well_formed());
    lemma_total_of_prefix(m.clusters, c);
    lemma_total_of_prefix(m.clusters, c + 1);
    assert(m.clusters.take(c + 1).drop_last() =~= m.clusters.take(c));
}

proof fn lemma_probed(items: Seq<usize>, rank: spec_fn(usize) -> int, c: int) -> (i: int)
    requires
        items == cids(items.len() as int),
        0 <= c < items.len() <= usize::MAX,
    ensures
        0 <= i < ranked(items, rank).len(),
        ranked(items, rank)[i] == c,
{
    broadcast use vstd::seq_lib::group_to_multiset_ensures;

    crate::ranking::law_ranked_sorts(items, rank);
    assert(items[c] == c as usize);
    assert(items.contains(c as usize));
    assert(ranked(items, rank).to_multiset().count(c as usize) > 0);
    assert(ranked(items, rank).contains(c as usize));
    choose|i: int| 0 <= i < ranked(items, rank).len() && ranked(items, rank)[i] == c as usize
}

proof fn lemma_ranked_holds(items: Seq<HeapCandidate>, a: int)
    requires
        0 <= a < items.len(),
    ensures
        ranked(items, by_distance()).contains(items[a]),
{
    broadcast use vstd::seq_lib::group_to_multiset_ensures;

    crate::ranking::law_ranked_sorts(items, by_distance());
    assert(items.contains(items[a]));
    assert(ranked(items, by_distance()).to_multiset().count(items[a]) > 0);
}

/// A vector is found as soon as it is inserted, while it is pending as well as later: a search of
/// all clusters that may return as many results as there are vectors, with finite estimates,
/// returns its id.
pub proof fn law_inserted_is_found(
    before: IndexModel,
    after: IndexModel,
    cid: int,
    id: u64,
    v: QuantizedModel,
    q: QueryModel,
    params: SearchParams,
)
    requires
        before.well_formed(),
        after.well_formed(),
        same_but_clusters(before, after),
        0 <= cid < before.clusters.len() == after.clusters.len() <= usize::MAX,
        before.clusters[cid].appends(after.clusters[cid], id, v),
        answerable(after, q, params),
        all_measured(after, q, params),
        q.dim == after.dim,
        after.clusters.len() <= params.nprobe,
        vector_total(after.clusters) <= params.top_k,
    ensures
        search_outcome(after, q, params, None) matches Ok(s) && returns_id(
            results(s.heap),
            id,
        ),
{
    let b = before.clusters[cid];
    let a = after.clusters[cid];
    assert(b.well_formed() && a.well_formed());
    law_append_adds_one(b, a, id, v);
    assert(a.all_ids()[b.all_ids().len() as int] == id);
    law_everything_is_found(after, q, params, None, cid, id);
}

} // verus!
