//! Search without shortcuts, and that search with them finds the same.
use crate::cluster::ClusterModel;
use crate::error::RabitqError;
use crate::float_bits::{is_finite, is_finite_bits, negate, negated, total_rank, SIGN};
use crate::index::{vector_total, IndexModel, IvfRabitqIndex};
use crate::ranking::{first, is_ranked, offered, place, ranked, ranked_with};
use crate::search::{
    answerable, by_distance, candidate, covers, distances, law_probes_in_order, probe_before,
    probe_rank, query_probes, results, search_outcome, select_clusters, EstimatesModel,
    HeapCandidate, QueryEstimates, QueryModel, ScanTerms, SearchParams, SearchResult,
};
use crate::search_laws::{
    all_candidates, best, bounds_hold, law_pruning_is_exact, packed_candidates, pending_candidates,
};
use crate::types::Metric;
use vstd::prelude::*;

verus! {

/// Results rank as clusters do: by small distance or by large product.
pub open spec fn by_score(metric: Metric) -> spec_fn(SearchResult) -> int {
    |r: SearchResult| probe_rank(metric, r.score)
}

/// The result that a vector with a finite distance gives without shortcuts.
pub open spec fn naive_result(metric: Metric, id: u64, distance: u32) -> SearchResult {
    match metric {
        Metric::L2 => SearchResult { id, score: distance },
        Metric::InnerProduct => SearchResult { id, score: negated(distance) },
    }
}

/// The results among the first `n` packed vectors of a cluster.
pub open spec fn naive_packed(
    metric: Metric,
    ex_bits: usize,
    c: ClusterModel,
    e: EstimatesModel,
    n: int,
) -> Seq<SearchResult>
    decreases n,
{
    if n <= 0 {
        Seq::empty()
    } else {
        let before = naive_packed(metric, ex_bits, c, e, n - 1);
        let d = distances(e, ex_bits)[n - 1];
        if is_finite_bits(d) {
            before.push(naive_result(metric, c.ids[n - 1], d))
        } else {
            before
        }
    }
}

/// The results among all packed vectors of the first `n` clusters of `order`.
pub open spec fn naive_all(m: IndexModel, q: QueryModel, order: Seq<usize>, n: int) -> Seq<
    SearchResult,
>
    decreases n,
{
    if n <= 0 {
        Seq::empty()
    } else {
        let cid = order[n - 1] as int;
        let c = m.clusters[cid];
        naive_all(m, q, order, n - 1) + naive_packed(
            m.metric,
            m.ex_bits,
            c,
            q.clusters[cid],
            c.num_vectors as int,
        )
    }
}

/// What a search without pruning, filter and pending vectors comes to.
pub open spec fn naive_outcome(m: IndexModel, q: QueryModel, params: SearchParams) -> Result<
    Seq<SearchResult>,
    RabitqError,
> {
    if vector_total(m.clusters) == 0 {
        Err(RabitqError::EmptyIndex)
    } else if q.dim != m.dim {
        Err(RabitqError::DimensionMismatch { expected: m.dim, got: q.dim })
    } else {
        let order = query_probes(m, q, params);
        Ok(
            first(
                ranked(naive_all(m, q, order, order.len() as int), by_score(m.metric)),
                params.top_k as int,
            ),
        )
    }
}

fn offer_result(metric: Metric, found: &mut Vec<SearchResult>, r: SearchResult, top_k: usize)
    requires
        is_ranked(old(found)@, by_score(metric)),
        old(found)@.len() <= top_k,
    ensures
        final(found)@ == offered(old(found)@, r, by_score(metric), top_k as int),
        is_ranked(final(found)@, by_score(metric)),
        final(found)@.len() <= top_k,
{
    let ghost before = found@;
    let ghost rank = by_score(metric);
    let mut at: usize = found.len();
    while at > 0 && probe_before(metric, r.score, found[at - 1].score)
        invariant
            at <= found@.len(),
            found@ == before,
            rank == by_score(metric),
            is_ranked(before, rank),
            forall|i: int| at <= i < before.len() ==> rank(#[trigger] before[i]) > rank(r),
        decreases at,
    {
        at -= 1;
    }
    proof {
        assert forall|i: int| 0 <= i < at implies rank(#[trigger] before[i]) <= rank(r) by {
            assert(rank(before[i]) <= rank(before[at - 1]));
        }
        crate::ranking::lemma_place_unique(before, rank(r), rank, at as int);
        crate::ranking::lemma_ranked_with(before, r, rank);
        crate::ranking::lemma_first_ranked(ranked_with(before, r, rank), rank, top_k as int);
    }
    found.insert(at, r);
    if found.len() > top_k {
        found.truncate(top_k);
    }
}

proof fn lemma_naive_push(
    metric: Metric,
    items: Seq<SearchResult>,
    r: SearchResult,
    k: int,
)
    requires
        0 <= k,
    ensures
        first(ranked(items.push(r), by_score(metric)), k) == offered(
            first(ranked(items, by_score(metric)), k),
            r,
            by_score(metric),
            k,
        ),
{
    let rank = by_score(metric);
    crate::ranking::law_ranked_sorts(items, rank);
    crate::ranking::lemma_offer_is_best(ranked(items, rank), r, rank, k);
    assert(items.push(r).drop_last() =~= items);
}

impl IvfRabitqIndex {
    /// Searches without shortcuts: every packed vector of the scanned clusters is ranked by its
    /// distance as it is.
    pub fn search_naive(&self, query: &QueryEstimates, params: SearchParams) -> (r: Result<
        Vec<SearchResult>,
        RabitqError,
    >)
        requires
            vector_total(self@.clusters) <= usize::MAX,
            vector_total(self@.clusters) != 0 && query@.dim == self@.dim ==> answerable(
                self@,
                query@,
                SearchParams { top_k: 1, nprobe: params.nprobe },
            ),
        ensures
            match naive_outcome(self@, query@, params) {
                Err(e) => r == Err::<Vec<SearchResult>, RabitqError>(e),
                Ok(found) => r is Ok && r->Ok_0@ == found,
            },
    {
        if self.is_empty() {
            return Err(RabitqError::EmptyIndex);
        }
        if query.dim != self.dim {
            return Err(
                RabitqError::DimensionMismatch { expected: self.dim, got: query.dim },
            );
        }
        let ghost m = self@;
        let ghost q = query@;
        let ghost one = SearchParams { top_k: 1, nprobe: params.nprobe };
        let ghost rank = by_score(m.metric);
        let ghost k = params.top_k as int;
        let order: Vec<usize> = select_clusters(
            self.metric,
            query.centroid_scores.as_slice(),
            params.nprobe,
        );
        proof {
            assert(q.centroid_scores.len() == self.clusters.len());
            law_probes_in_order(m.metric, q.centroid_scores, params.nprobe as int);
            assert(query_probes(m, q, one) == order@);
        }
        let mut found: Vec<SearchResult> = Vec::new();
        let mut i: usize = 0;
        assert(found@ =~= first(ranked(naive_all(m, q, order@, 0), rank), k));
        while i < order.len()
            invariant
                i <= order@.len(),
                m == self@,
                q == query@,
                one == (SearchParams { top_k: 1, nprobe: params.nprobe }),
                rank == by_score(m.metric),
                k == params.top_k,
                order@ == query_probes(m, q, one),
                vector_total(m.clusters) != 0,
                q.dim == m.dim,
                answerable(m, q, one),
                forall|j: int|
                    0 <= j < order@.len() ==> (#[trigger] order@[j]) < q.centroid_scores.len(),
                found@ == first(ranked(naive_all(m, q, order@, i as int), rank), k),
                is_ranked(found@, rank),
                found@.len() <= params.top_k,
            decreases order@.len() - i,
        {
            let cid: usize = order[i];
            let ghost c = m.clusters[cid as int];
            let ghost e = q.clusters[cid as int];
            proof {
                assert(covers(q.clusters[cid as int], m.clusters[cid as int], m.ex_bits));
                assert(e == query.clusters@[cid as int]@);
                assert(c == self.clusters@[cid as int]@);
            }
            let cluster = &self.clusters[cid];
            let estimates = &query.clusters[cid];
            let ghost prefix = naive_all(m, q, order@, i as int);
            let mut v: usize = 0;
            assert(prefix + naive_packed(m.metric, m.ex_bits, c, e, 0) =~= prefix);
            while v < cluster.num_vectors
                invariant
                    v <= cluster.num_vectors,
                    m == self@,
                    c == cluster@,
                    e == estimates@,
                    covers(e, c, m.ex_bits),
                    rank == by_score(m.metric),
                    k == params.top_k,
                    found@ == first(
                        ranked(
                            prefix + naive_packed(m.metric, m.ex_bits, c, e, v as int),
                            rank,
                        ),
                        k,
                    ),
                    is_ranked(found@, rank),
                    found@.len() <= params.top_k,
                decreases cluster.num_vectors - v,
            {
                let ghost items = prefix + naive_packed(m.metric, m.ex_bits, c, e, v as int);
                let distance: u32 = if self.ex_bits > 0 {
                    estimates.refined_distances[v]
                } else {
                    estimates.est_distances[v]
                };
                if is_finite(distance) {
                    let score: u32 = match self.metric {
                        Metric::L2 => distance,
                        Metric::InnerProduct => negate(distance),
                    };
                    let r = SearchResult { id: cluster.ids[v], score };
                    proof {
                        lemma_naive_push(m.metric, items, r, k);
                        assert(prefix + naive_packed(m.metric, m.ex_bits, c, e, v + 1)
                            =~= items.push(r));
                    }
                    offer_result(self.metric, &mut found, r, params.top_k);
                }
                v += 1;
            }
            i += 1;
        }
        Ok(found)
    }
}

proof fn lemma_naive_packed(t: ScanTerms, c: ClusterModel, e: EstimatesModel, n: int)
    requires
        t.filter is None,
        t.metric == Metric::L2 ==> forall|i: int|
            0 <= i < n ==> #[trigger] distances(e, t.ex_bits)[i] < SIGN,
    ensures
        results(packed_candidates(t, c, e, n)) == naive_packed(t.metric, t.ex_bits, c, e, n),
    decreases n,
{
    if n <= 0 {
        assert(results(packed_candidates(t, c, e, n)) =~= naive_packed(
            t.metric,
            t.ex_bits,
            c,
            e,
            n,
        ));
    } else {
        lemma_naive_packed(t, c, e, n - 1);
        let before = packed_candidates(t, c, e, n - 1);
        let d = distances(e, t.ex_bits)[n - 1];
        if is_finite_bits(d) {
            let x = candidate(t.metric, c.ids[n - 1], d);
            assert(results(before.push(x)) =~= results(before).push(
                naive_result(t.metric, c.ids[n - 1], d),
            ));
        }
    }
}

proof fn lemma_naive_clusters(t: ScanTerms, m: IndexModel, q: QueryModel, order: Seq<usize>, n: int)
    requires
        t.filter is None,
        t.metric == m.metric,
        t.ex_bits == m.ex_bits,
        0 <= n <= order.len(),
        forall|i: int| 0 <= i < n ==> plain_cluster(m, q, #[trigger] order[i] as int),
    ensures
        results(all_candidates(t, m, q, order, n)) == naive_all(m, q, order, n),
    decreases n,
{
    if n <= 0 {
        assert(results(all_candidates(t, m, q, order, n)) =~= naive_all(m, q, order, n));
    } else {
        lemma_naive_clusters(t, m, q, order, n - 1);
        let cid = order[n - 1] as int;
        let c = m.clusters[cid];
        let e = q.clusters[cid];
        assert(plain_cluster(m, q, order[n - 1] as int));
        lemma_naive_packed(t, c, e, c.num_vectors as int);
        let a = all_candidates(t, m, q, order, n - 1);
        let b = packed_candidates(t, c, e, c.num_vectors as int);
        assert(pending_candidates(t, c, e, 0) =~= Seq::empty());
        assert(all_candidates(t, m, q, order, n) =~= a + b);
        assert(results(a + b) =~= results(a) + results(b));
    }
}

/// A cluster of a query without pending vectors and, for L2, without negative distances.
pub open spec fn plain_cluster(m: IndexModel, q: QueryModel, cid: int) -> bool {
    &&& m.clusters[cid].pending_ids.len() == 0
    &&& m.metric == Metric::L2 ==> forall|i: int|
        0 <= i < m.clusters[cid].num_vectors ==> #[trigger] distances(
            q.clusters[cid],
            m.ex_bits,
        )[i] < SIGN
}

proof fn lemma_ranked_results(metric: Metric, items: Seq<HeapCandidate>)
    requires
        scores_go(metric, items),
    ensures
        results(ranked(items, by_distance())) == ranked(results(items), by_score(metric)),
    decreases items.len(),
{
    if items.len() == 0 {
        assert(results(ranked(items, by_distance())) =~= ranked(
            results(items),
            by_score(metric),
        ));
    } else {
        let init = items.drop_last();
        let x = items.last();
        let r = SearchResult { id: x.id, score: x.score };
        assert forall|i: int| 0 <= i < init.len() implies score_goes(
            metric,
            #[trigger] init[i],
        ) by {
            assert(init[i] == items[i]);
        }
        lemma_ranked_results(metric, init);
        let s = ranked(init, by_distance());
        crate::ranking::law_ranked_sorts(init, by_distance());
        assert(results(items).drop_last() =~= results(init));
        assert(results(items).last() == r);
        assert(x == items[items.len() - 1]);
        assert forall|i: int| 0 <= i < s.len() implies probe_rank(
            metric,
            (#[trigger] s[i]).score,
        ) - probe_rank(metric, r.score) <= 0 <==> total_rank(s[i].distance) <= total_rank(
            x.distance,
        ) by {
            crate::ranking::lemma_ranked_contents(init, by_distance(), i);
            assert(score_goes(metric, s[i]) && score_goes(metric, x));
        }
        lemma_same_place(metric, s, x);
        let p = place(s, total_rank(x.distance), by_distance());
        crate::ranking::lemma_place(s, total_rank(x.distance), by_distance());
        assert(results(s.insert(p, x)) =~= results(s).insert(p, r));
    }
}

proof fn lemma_same_place(metric: Metric, s: Seq<HeapCandidate>, x: HeapCandidate)
    requires
        forall|i: int|
            0 <= i < s.len() ==> (probe_rank(metric, (#[trigger] s[i]).score) - probe_rank(
                metric,
                x.score,
            ) <= 0 <==> total_rank(s[i].distance) <= total_rank(x.distance)),
    ensures
        place(results(s), probe_rank(metric, x.score), by_score(metric)) == place(
            s,
            total_rank(x.distance),
            by_distance(),
        ),
    decreases s.len(),
{
    if s.len() > 0 {
        let t = s.drop_last();
        assert(s.last() == s[s.len() - 1]);
        assert(results(s).last().score == s.last().score);
        if total_rank(s.last().distance) <= total_rank(x.distance) {
        } else {
            assert forall|i: int| 0 <= i < t.len() implies (probe_rank(
                metric,
                (#[trigger] t[i]).score,
            ) - probe_rank(metric, x.score) <= 0 <==> total_rank(t[i].distance) <= total_rank(
                x.distance,
            )) by {
                assert(t[i] == s[i]);
            }
            lemma_same_place(metric, t, x);
            assert(results(s).drop_last() =~= results(t));
        }
    }
}

/// Whether the score of each candidate goes with its distance.
spec fn scores_go(metric: Metric, items: Seq<HeapCandidate>) -> bool {
    forall|i: int| 0 <= i < items.len() ==> score_goes(metric, #[trigger] items[i])
}

spec fn score_goes(metric: Metric, c: HeapCandidate) -> bool {
    c.score == match metric {
        Metric::L2 => c.distance,
        Metric::InnerProduct => negated(c.distance),
    }
}

proof fn lemma_scores_go(t: ScanTerms, m: IndexModel, q: QueryModel, order: Seq<usize>, n: int)
    ensures
        scores_go(t.metric, all_candidates(t, m, q, order, n)),
    decreases n,
{
    if n > 0 {
        lemma_scores_go(t, m, q, order, n - 1);
        let cid = order[n - 1] as int;
        let c = m.clusters[cid];
        let e = q.clusters[cid];
        lemma_packed_scores(t, c, e, c.num_vectors as int);
        lemma_pending_scores(t, c, e, c.pending_ids.len() as int);
        let x = all_candidates(t, m, q, order, n - 1);
        let y = packed_candidates(t, c, e, c.num_vectors as int);
        let z = pending_candidates(t, c, e, c.pending_ids.len() as int);
        assert forall|i: int| 0 <= i < (x + y + z).len() implies score_goes(
            t.metric,
            #[trigger] (x + y + z)[i],
        ) by {
            if i < x.len() {
                assert((x + y + z)[i] == x[i]);
            } else if i < x.len() + y.len() {
                assert((x + y + z)[i] == y[i - x.len()]);
            } else {
                assert((x + y + z)[i] == z[i - x.len() - y.len()]);
            }
        }
    }
}

proof fn lemma_packed_scores(t: ScanTerms, c: ClusterModel, e: EstimatesModel, n: int)
    ensures
        scores_go(t.metric, packed_candidates(t, c, e, n)),
    decreases n,
{
    if n > 0 {
        lemma_packed_scores(t, c, e, n - 1);
        let before = packed_candidates(t, c, e, n - 1);
        let after = packed_candidates(t, c, e, n);
        assert forall|i: int| 0 <= i < after.len() implies score_goes(
            t.metric,
            #[trigger] after[i],
        ) by {
            if i < before.len() {
                assert(after[i] == before[i]);
            }
        }
    }
}

proof fn lemma_pending_scores(t: ScanTerms, c: ClusterModel, e: EstimatesModel, n: int)
    ensures
        scores_go(t.metric, pending_candidates(t, c, e, n)),
    decreases n,
{
    if n > 0 {
        lemma_pending_scores(t, c, e, n - 1);
        let before = pending_candidates(t, c, e, n - 1);
        let after = pending_candidates(t, c, e, n);
        assert forall|i: int| 0 <= i < after.len() implies score_goes(
            t.metric,
            #[trigger] after[i],
        ) by {
            if i < before.len() {
                assert(after[i] == before[i]);
            }
        }
    }
}

/// The search with all its shortcuts finds what the search without them finds: where the lower
/// bounds hold, the scanned clusters have no pending vectors, and L2 distances are not negative,
/// both return the same results.
pub proof fn law_fastscan_matches_naive(m: IndexModel, q: QueryModel, params: SearchParams)
    requires
        forall|i: int|
            0 <= i < query_probes(m, q, params).len() ==> {
                let cid = #[trigger] query_probes(m, q, params)[i] as int;
                &&& plain_cluster(m, q, cid)
                &&& bounds_hold(
                    ScanTerms {
                        filter: None,
                        metric: m.metric,
                        ex_bits: m.ex_bits,
                        top_k: params.top_k as int,
                    },
                    m.clusters[cid],
                    q.clusters[cid],
                )
            },
    ensures
        match search_outcome(m, q, params, None) {
            Ok(s) => naive_outcome(m, q, params) == Ok::<Seq<SearchResult>, RabitqError>(
                results(s.heap),
            ),
            Err(e) => naive_outcome(m, q, params) == Err::<Seq<SearchResult>, RabitqError>(e),
        },
{
    if let Ok(s) = search_outcome(m, q, params, None) {
        let t = ScanTerms {
            filter: None,
            metric: m.metric,
            ex_bits: m.ex_bits,
            top_k: params.top_k as int,
        };
        let order = query_probes(m, q, params);
        let items = all_candidates(t, m, q, order, order.len() as int);
        law_pruning_is_exact(m, q, params, None);
        assert forall|i: int| 0 <= i < order.len() implies plain_cluster(
            m,
            q,
            #[trigger] order[i] as int,
        ) by {
            assert(order[i] == query_probes(m, q, params)[i]);
        }
        lemma_naive_clusters(t, m, q, order, order.len() as int);
        lemma_scores_go(t, m, q, order, order.len() as int);
        lemma_ranked_results(m.metric, items);
        crate::ranking::law_ranked_sorts(items, by_distance());
        assert(results(best(items, t.top_k)) =~= first(
            results(ranked(items, by_distance())),
            t.top_k,
        ));
    }
}

} // verus!
