//! What the results of a search without shortcuts say of the distances that were handed in.
use crate::float_laws::law_fields_tell_kinds;
use crate::index::IndexModel;
use crate::ranking::ranked;
use crate::result_laws::{
    at_least_as_good, eligible, handed_in, is_returned, lemma_rank_is_order, plain_score_at,
};
use crate::search::{distances, query_probes, QueryModel, SearchParams, SearchResult};
use crate::search_naive::{by_score, naive_all, naive_outcome, naive_packed, naive_result};
use vstd::prelude::*;

verus! {

/// Whether a result is that of a packed vector of one of the clusters whose distance is finite: its
/// id, and the score that goes with the distance handed in for it.
pub open spec fn plainly_stems_from(
    m: IndexModel,
    q: QueryModel,
    order: Seq<usize>,
    r: SearchResult,
) -> bool {
    exists|n: int, j: int|
        0 <= n < order.len() && #[trigger] eligible(m, q, None, order[n] as int, j, false)
            && r.id == m.clusters[order[n] as int].ids[j] && r.score == plain_score_at(
            m.metric,
            handed_in(q.clusters[order[n] as int], m.ex_bits, j),
        )
}

proof fn lemma_packed_entry(m: IndexModel, q: QueryModel, order: Seq<usize>, k: int, n: int, i: int)
    requires
        0 <= k < order.len(),
        n <= m.clusters[order[k] as int].num_vectors,
        ({
            let cid = order[k] as int;
            0 <= i < naive_packed(m.metric, m.ex_bits, m.clusters[cid], q.clusters[cid], n).len()
        }),
    ensures
        ({
            let cid = order[k] as int;
            plainly_stems_from(
                m,
                q,
                order,
                naive_packed(m.metric, m.ex_bits, m.clusters[cid], q.clusters[cid], n)[i],
            )
        }),
    decreases n,
{
    let cid = order[k] as int;
    let c = m.clusters[cid];
    let e = q.clusters[cid];
    if n > 0 {
        let before = naive_packed(m.metric, m.ex_bits, c, e, n - 1);
        let d = distances(e, m.ex_bits)[n - 1];
        law_fields_tell_kinds(d);
        if i < before.len() {
            lemma_packed_entry(m, q, order, k, n - 1, i);
        } else {
            assert(eligible(m, q, None, cid, n - 1, false));
        }
    }
}

proof fn lemma_entry(m: IndexModel, q: QueryModel, order: Seq<usize>, n: int, i: int)
    requires
        n <= order.len(),
        0 <= i < naive_all(m, q, order, n).len(),
    ensures
        plainly_stems_from(m, q, order, naive_all(m, q, order, n)[i]),
    decreases n,
{
    if n > 0 {
        let cid = order[n - 1] as int;
        let c = m.clusters[cid];
        let before = naive_all(m, q, order, n - 1);
        if i < before.len() {
            lemma_entry(m, q, order, n - 1, i);
        } else {
            lemma_packed_entry(m, q, order, n - 1, c.num_vectors as int, i - before.len());
        }
    }
}

/// Every result is that of a vector: each result of a search without shortcuts has the id of a packed
/// vector of a scanned cluster and, bit for bit, the score of the finite distance that was handed in
/// for it. There are at most `top_k`, the better ones first.
pub proof fn law_naive_results_carry_distances(m: IndexModel, q: QueryModel, params: SearchParams)
    ensures
        naive_outcome(m, q, params) matches Ok(found) ==> {
            &&& found.len() <= params.top_k
            &&& forall|i: int|
                0 <= i < found.len() ==> plainly_stems_from(
                    m,
                    q,
                    query_probes(m, q, params),
                    #[trigger] found[i],
                )
            &&& forall|i: int, j: int|
                0 <= i <= j < found.len() ==> at_least_as_good(
                    m.metric,
                    (#[trigger] found[i]).score,
                    (#[trigger] found[j]).score,
                )
        },
{
    if let Ok(found) = naive_outcome(m, q, params) {
        let order = query_probes(m, q, params);
        let n = order.len() as int;
        let items = naive_all(m, q, order, n);
        let rank = by_score(m.metric);
        let all = ranked(items, rank);
        crate::ranking::law_ranked_sorts(items, rank);
        assert forall|i: int| 0 <= i < found.len() implies plainly_stems_from(
            m,
            q,
            order,
            #[trigger] found[i],
        ) by {
            assert(found[i] == all[i]);
            crate::ranking::lemma_ranked_contents(items, rank, i);
            let k = choose|k: int| 0 <= k < items.len() && items[k] == all[i];
            lemma_entry(m, q, order, n, k);
        }
        assert forall|i: int, j: int| 0 <= i <= j < found.len() implies at_least_as_good(
            m.metric,
            (#[trigger] found[i]).score,
            (#[trigger] found[j]).score,
        ) by {
            assert(found[i] == all[i] && found[j] == all[j]);
            assert(rank(all[i]) <= rank(all[j]));
            lemma_rank_is_order(m.metric, found[i].score, found[j].score);
        }
    }
}

proof fn lemma_packed_has(m: IndexModel, q: QueryModel, cid: int, n: int, j: int)
    requires
        eligible(m, q, None, cid, j, false),
        j < n,
    ensures
        naive_packed(m.metric, m.ex_bits, m.clusters[cid], q.clusters[cid], n).contains(
            naive_result(
                m.metric,
                m.clusters[cid].ids[j],
                handed_in(q.clusters[cid], m.ex_bits, j),
            ),
        ),
    decreases n,
{
    let c = m.clusters[cid];
    let e = q.clusters[cid];
    let x = naive_result(m.metric, c.ids[j], handed_in(e, m.ex_bits, j));
    let before = naive_packed(m.metric, m.ex_bits, c, e, n - 1);
    let after = naive_packed(m.metric, m.ex_bits, c, e, n);
    if j == n - 1 {
        law_fields_tell_kinds(handed_in(e, m.ex_bits, j));
        assert(after[before.len() as int] == x);
    } else {
        lemma_packed_has(m, q, cid, n - 1, j);
        let i = choose|i: int| 0 <= i < before.len() && before[i] == x;
        assert(after[i] == x);
    }
}

proof fn lemma_all_has(m: IndexModel, q: QueryModel, order: Seq<usize>, n: int, k: int, j: int)
    requires
        0 <= k < n <= order.len(),
        eligible(m, q, None, order[k] as int, j, false),
    ensures
        naive_all(m, q, order, n).contains(
            naive_result(
                m.metric,
                m.clusters[order[k] as int].ids[j],
                handed_in(q.clusters[order[k] as int], m.ex_bits, j),
            ),
        ),
    decreases n,
{
    let cid = order[n - 1] as int;
    let c = m.clusters[cid];
    let e = q.clusters[cid];
    let x = naive_result(
        m.metric,
        m.clusters[order[k] as int].ids[j],
        handed_in(q.clusters[order[k] as int], m.ex_bits, j),
    );
    let a = naive_all(m, q, order, n - 1);
    let b = naive_packed(m.metric, m.ex_bits, c, e, c.num_vectors as int);
    if k < n - 1 {
        lemma_all_has(m, q, order, n - 1, k, j);
        let i = choose|i: int| 0 <= i < a.len() && a[i] == x;
        assert((a + b)[i] == x);
    } else {
        lemma_packed_has(m, q, cid, c.num_vectors as int, j);
        let i = choose|i: int| 0 <= i < b.len() && b[i] == x;
        assert((a + b)[a.len() + i] == x);
    }
}

/// No better vector is left out: every packed vector of a scanned cluster whose distance is finite is
/// returned by a search without shortcuts, with the score of that distance, or there are `top_k`
/// results that are all at least as good.
pub proof fn law_naive_best_are_returned(
    m: IndexModel,
    q: QueryModel,
    params: SearchParams,
    n: int,
    j: int,
)
    requires
        0 <= n < query_probes(m, q, params).len(),
        eligible(m, q, None, query_probes(m, q, params)[n] as int, j, false),
    ensures
        naive_outcome(m, q, params) matches Ok(found) ==> {
            let cid = query_probes(m, q, params)[n] as int;
            let score = plain_score_at(m.metric, handed_in(q.clusters[cid], m.ex_bits, j));
            ||| is_returned(found, m.clusters[cid].ids[j], score)
            ||| found.len() == params.top_k && forall|i: int|
                0 <= i < found.len() ==> at_least_as_good(
                    m.metric,
                    (#[trigger] found[i]).score,
                    score,
                )
        },
{
    broadcast use vstd::seq_lib::group_to_multiset_ensures;

    if let Ok(found) = naive_outcome(m, q, params) {
        let order = query_probes(m, q, params);
        let cid = order[n] as int;
        let d = handed_in(q.clusters[cid], m.ex_bits, j);
        let score = plain_score_at(m.metric, d);
        let x = naive_result(m.metric, m.clusters[cid].ids[j], d);
        let items = naive_all(m, q, order, order.len() as int);
        let rank = by_score(m.metric);
        let all = ranked(items, rank);
        lemma_all_has(m, q, order, order.len() as int, n, j);
        crate::ranking::law_ranked_sorts(items, rank);
        assert(items.to_multiset().count(x) > 0);
        assert(all.contains(x));
        assert(x == (SearchResult { id: m.clusters[cid].ids[j], score }));
        let p = choose|p: int| 0 <= p < all.len() && all[p] == x;
        if p < found.len() {
            assert(found[p] == x);
        } else {
            assert forall|i: int| 0 <= i < found.len() implies at_least_as_good(
                m.metric,
                (#[trigger] found[i]).score,
                score,
            ) by {
                assert(found[i] == all[i]);
                assert(rank(all[i]) <= rank(all[p]));
                lemma_rank_is_order(m.metric, found[i].score, score);
            }
        }
    }
}

} // verus!
