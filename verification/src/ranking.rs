//! Stable ranking: keeping the best of a stream of items in order.
use vstd::prelude::*;

verus! {

/// Where an item of rank `r` goes in a ranked sequence: behind all items that do not rank
/// after it.
pub open spec fn place<T>(s: Seq<T>, r: int, rank: spec_fn(T) -> int) -> int
    decreases s.len(),
{
    if s.len() == 0 || rank(s.last()) <= r {
        s.len() as int
    } else {
        place(s.drop_last(), r, rank)
    }
}

/// A ranked sequence with one more item.
pub open spec fn ranked_with<T>(s: Seq<T>, x: T, rank: spec_fn(T) -> int) -> Seq<T> {
    s.insert(place(s, rank(x), rank), x)
}

/// The items of a sequence by rank; items of equal rank keep their order.
pub open spec fn ranked<T>(items: Seq<T>, rank: spec_fn(T) -> int) -> Seq<T>
    decreases items.len(),
{
    if items.len() == 0 {
        Seq::empty()
    } else {
        ranked_with(ranked(items.drop_last(), rank), items.last(), rank)
    }
}

/// The first `k` items of a sequence, or all where it has fewer.
pub open spec fn first<T>(s: Seq<T>, k: int) -> Seq<T> {
    if s.len() <= k {
        s
    } else {
        s.take(k)
    }
}

/// A ranked sequence of at most `k` items after one more has been offered to it.
pub open spec fn offered<T>(s: Seq<T>, x: T, rank: spec_fn(T) -> int, k: int) -> Seq<T> {
    first(ranked_with(s, x, rank), k)
}

/// No item ranks after one that stands behind it.
pub open spec fn is_ranked<T>(s: Seq<T>, rank: spec_fn(T) -> int) -> bool {
    forall|i: int, j: int| 0 <= i <= j < s.len() ==> rank(#[trigger] s[i]) <= rank(#[trigger] s[j])
}

/// The place splits a ranked sequence into what does not rank after `r` and what does.
pub proof fn lemma_place<T>(s: Seq<T>, r: int, rank: spec_fn(T) -> int)
    requires
        is_ranked(s, rank),
    ensures
        0 <= place(s, r, rank) <= s.len(),
        forall|i: int| 0 <= i < place(s, r, rank) ==> rank(#[trigger] s[i]) <= r,
        forall|i: int| place(s, r, rank) <= i < s.len() ==> rank(#[trigger] s[i]) > r,
    decreases s.len(),
{
    if s.len() == 0 {
    } else if rank(s.last()) <= r {
        assert forall|i: int| 0 <= i < s.len() implies rank(#[trigger] s[i]) <= r by {
            assert(rank(s[i]) <= rank(s[s.len() - 1]));
        }
    } else {
        let t = s.drop_last();
        assert(is_ranked(t, rank)) by {
            assert forall|i: int, j: int| 0 <= i <= j < t.len() implies rank(#[trigger] t[i])
                <= rank(#[trigger] t[j]) by {
                assert(t[i] == s[i] && t[j] == s[j]);
            }
        }
        lemma_place(t, r, rank);
        let p = place(t, r, rank);
        assert forall|i: int| 0 <= i < p implies rank(#[trigger] s[i]) <= r by {
            assert(t[i] == s[i]);
        }
        assert forall|i: int| p <= i < s.len() implies rank(#[trigger] s[i]) > r by {
            if i < t.len() {
                assert(t[i] == s[i]);
            }
        }
    }
}

/// A position that splits a ranked sequence so is the place.
pub proof fn lemma_place_unique<T>(s: Seq<T>, r: int, rank: spec_fn(T) -> int, p: int)
    requires
        is_ranked(s, rank),
        0 <= p <= s.len(),
        forall|i: int| 0 <= i < p ==> rank(#[trigger] s[i]) <= r,
        forall|i: int| p <= i < s.len() ==> rank(#[trigger] s[i]) > r,
    ensures
        place(s, r, rank) == p,
{
    lemma_place(s, r, rank);
    let q = place(s, r, rank);
    if p < q {
        assert(rank(s[p]) <= r);
        assert(rank(s[p]) > r);
    }
    if q < p {
        assert(rank(s[q]) <= r);
        assert(rank(s[q]) > r);
    }
}

/// One more item leaves a ranked sequence ranked.
pub proof fn lemma_ranked_with<T>(s: Seq<T>, x: T, rank: spec_fn(T) -> int)
    requires
        is_ranked(s, rank),
    ensures
        is_ranked(ranked_with(s, x, rank), rank),
        ranked_with(s, x, rank).len() == s.len() + 1,
        ranked_with(s, x, rank).to_multiset() == s.to_multiset().insert(x),
{
    lemma_place(s, rank(x), rank);
    let p = place(s, rank(x), rank);
    let t = s.insert(p, x);
    assert forall|i: int, j: int| 0 <= i <= j < t.len() implies rank(#[trigger] t[i]) <= rank(
        #[trigger] t[j],
    ) by {
        let a = if i < p {
            s[i]
        } else if i == p {
            x
        } else {
            s[i - 1]
        };
        let b = if j < p {
            s[j]
        } else if j == p {
            x
        } else {
            s[j - 1]
        };
        assert(t[i] == a && t[j] == b);
    }
    broadcast use vstd::seq_lib::group_to_multiset_ensures;

}

/// A prefix of a ranked sequence is ranked.
pub proof fn lemma_first_ranked<T>(s: Seq<T>, rank: spec_fn(T) -> int, k: int)
    requires
        is_ranked(s, rank),
        0 <= k,
    ensures
        is_ranked(first(s, k), rank),
{
    let t = first(s, k);
    assert forall|i: int, j: int| 0 <= i <= j < t.len() implies rank(#[trigger] t[i]) <= rank(
        #[trigger] t[j],
    ) by {
        assert(t[i] == s[i] && t[j] == s[j]);
    }
}

/// Ranking a sequence sorts it, without loss.
pub proof fn law_ranked_sorts<T>(items: Seq<T>, rank: spec_fn(T) -> int)
    ensures
        is_ranked(ranked(items, rank), rank),
        ranked(items, rank).len() == items.len(),
        ranked(items, rank).to_multiset() == items.to_multiset(),
    decreases items.len(),
{
    broadcast use vstd::seq_lib::group_to_multiset_ensures;

    if items.len() == 0 {
        assert(ranked(items, rank) =~= items);
    } else {
        let init = items.drop_last();
        law_ranked_sorts(init, rank);
        lemma_ranked_with(ranked(init, rank), items.last(), rank);
        assert(items =~= init.push(items.last()));
    }
}

/// Offering to the best `k` gives the best `k`: what was left out before cannot come back.
pub proof fn lemma_offer_is_best<T>(s: Seq<T>, x: T, rank: spec_fn(T) -> int, k: int)
    requires
        is_ranked(s, rank),
        0 <= k,
    ensures
        offered(first(s, k), x, rank, k) == first(ranked_with(s, x, rank), k),
{
    let r = rank(x);
    let t = first(s, k);
    lemma_place(s, r, rank);
    lemma_first_ranked(s, rank, k);
    let p = place(s, r, rank);
    if s.len() > k {
        let q = if p < k {
            p
        } else {
            k
        };
        assert forall|i: int| 0 <= i < q implies rank(#[trigger] t[i]) <= r by {
            assert(t[i] == s[i]);
        }
        assert forall|i: int| q <= i < t.len() implies rank(#[trigger] t[i]) > r by {
            assert(t[i] == s[i]);
        }
        lemma_place_unique(t, r, rank, q);
        assert(offered(t, x, rank, k) =~= first(ranked_with(s, x, rank), k));
    }
}

/// An item that does not rank before the last of a full sequence is left out.
pub proof fn lemma_offer_in_vain<T>(s: Seq<T>, x: T, rank: spec_fn(T) -> int, k: int)
    requires
        0 < k == s.len(),
        rank(s.last()) <= rank(x),
    ensures
        offered(s, x, rank, k) == s,
{
    assert(offered(s, x, rank, k) =~= s);
}

/// Everything that ranks is one of the items.
pub proof fn lemma_ranked_contents<T>(items: Seq<T>, rank: spec_fn(T) -> int, i: int)
    requires
        0 <= i < ranked(items, rank).len(),
    ensures
        items.contains(ranked(items, rank)[i]),
{
    broadcast use vstd::seq_lib::group_to_multiset_ensures;

    law_ranked_sorts(items, rank);
    let x = ranked(items, rank)[i];
    assert(ranked(items, rank).contains(x));
    assert(items.to_multiset().count(x) > 0);
}

/// Items of equal rank keep their order: where `tie` grows along the items, it grows along
/// every run of equal rank.
pub proof fn law_ranked_is_stable<T>(
    items: Seq<T>,
    rank: spec_fn(T) -> int,
    tie: spec_fn(T) -> int,
    i: int,
    j: int,
)
    requires
        forall|a: int, b: int|
            0 <= a < b < items.len() ==> tie(#[trigger] items[a]) < tie(#[trigger] items[b]),
        0 <= i < j < items.len(),
        rank(ranked(items, rank)[i]) == rank(ranked(items, rank)[j]),
    ensures
        tie(ranked(items, rank)[i]) < tie(ranked(items, rank)[j]),
    decreases items.len(),
{
    let init = items.drop_last();
    let x = items.last();
    let s = ranked(init, rank);
    law_ranked_sorts(init, rank);
    lemma_place(s, rank(x), rank);
    let p = place(s, rank(x), rank);
    let t = s.insert(p, x);
    assert(t == ranked(items, rank));
    let si = if i < p {
        i
    } else {
        i - 1
    };
    let sj = if j < p {
        j
    } else {
        j - 1
    };
    if i == p {
        assert(t[i] == x && t[j] == s[j - 1]);
        assert(rank(s[j - 1]) > rank(x));
    } else if j == p {
        assert(t[j] == x && t[i] == s[i]);
        lemma_ranked_contents(init, rank, i);
        let a = choose|a: int| 0 <= a < init.len() && init[a] == s[i];
        assert(items[a] == s[i]);
        assert(items[items.len() - 1] == x);
    } else {
        assert(t[i] == s[si] && t[j] == s[sj]);
        assert forall|a: int, b: int| 0 <= a < b < init.len() implies tie(#[trigger] init[a]) < tie(
            #[trigger] init[b],
        ) by {
            assert(init[a] == items[a] && init[b] == items[b]);
        }
        law_ranked_is_stable(init, rank, tie, si, sj);
    }
}

/// A part of a ranked sequence is ranked.
proof fn lemma_ranked_part<T>(s: Seq<T>, rank: spec_fn(T) -> int, from: int, to: int)
    requires
        is_ranked(s, rank),
        0 <= from <= to <= s.len(),
    ensures
        is_ranked(s.subrange(from, to), rank),
{
    let t = s.subrange(from, to);
    assert forall|i: int, j: int| 0 <= i <= j < t.len() implies rank(#[trigger] t[i]) <= rank(
        #[trigger] t[j],
    ) by {
        assert(t[i] == s[from + i] && t[j] == s[from + j]);
    }
}

/// Everything that a predicate keeps of a sequence is in it.
proof fn lemma_kept_is_held<T>(s: Seq<T>, keep: spec_fn(T) -> bool, i: int) -> (j: int)
    requires
        0 <= i < s.filter(keep).len(),
    ensures
        0 <= j < s.len(),
        s[j] == s.filter(keep)[i],
{
    let x = s.filter(keep)[i];
    assert(s.filter(keep).contains(x));
    s.lemma_filter_contains_rev(keep, x);
    choose|j: int| 0 <= j < s.len() && s[j] == x
}

/// What a predicate keeps of a ranked sequence is ranked.
proof fn lemma_filter_ranked<T>(s: Seq<T>, rank: spec_fn(T) -> int, keep: spec_fn(T) -> bool)
    requires
        is_ranked(s, rank),
    ensures
        is_ranked(s.filter(keep), rank),
    decreases s.len(),
{
    reveal(Seq::filter);
    if s.len() > 0 {
        let init = s.drop_last();
        let kept = init.filter(keep);
        let all = s.filter(keep);
        assert(init =~= s.subrange(0, s.len() - 1));
        lemma_ranked_part(s, rank, 0, s.len() - 1);
        lemma_filter_ranked(init, rank, keep);
        assert forall|i: int, j: int| 0 <= i <= j < all.len() implies rank(#[trigger] all[i])
            <= rank(#[trigger] all[j]) by {
            if j < kept.len() {
                assert(all[i] == kept[i] && all[j] == kept[j]);
            } else if i < kept.len() {
                assert(all[i] == kept[i]);
                let a = lemma_kept_is_held(init, keep, i);
                assert(rank(s[a]) <= rank(s[s.len() - 1]));
            }
        }
    }
}

proof fn lemma_filter_one<T>(x: T, keep: spec_fn(T) -> bool)
    ensures
        seq![x].filter(keep) == if keep(x) {
            seq![x]
        } else {
            Seq::empty()
        },
{
    reveal(Seq::filter);
    let s = seq![x];
    assert(s.drop_last() =~= Seq::empty());
    assert(s.drop_last().filter(keep) =~= Seq::empty());
    assert(Seq::<T>::empty().push(x) =~= seq![x]);
}

/// One more item and a predicate can come in either order.
#[verifier::spinoff_prover]
#[verifier::rlimit(60)]
proof fn lemma_filter_ranked_with<T>(
    s: Seq<T>,
    x: T,
    rank: spec_fn(T) -> int,
    keep: spec_fn(T) -> bool,
)
    requires
        is_ranked(s, rank),
    ensures
        ranked_with(s, x, rank).filter(keep) == if keep(x) {
            ranked_with(s.filter(keep), x, rank)
        } else {
            s.filter(keep)
        },
{
    let r = rank(x);
    let p = place(s, r, rank);
    lemma_place(s, r, rank);
    let a = s.subrange(0, p);
    let b = s.subrange(p, s.len() as int);
    lemma_filter_ranked(s, rank, keep);
    lemma_filter_one(x, keep);
    assert(s =~= a + b);
    assert(ranked_with(s, x, rank) =~= (a + seq![x]) + b);
    Seq::filter_distributes_over_add(a, b, keep);
    Seq::filter_distributes_over_add(a + seq![x], b, keep);
    Seq::filter_distributes_over_add(a, seq![x], keep);
    let fa = a.filter(keep);
    let fb = b.filter(keep);
    let fs = s.filter(keep);
    assert(fs == fa + fb);
    if keep(x) {
        assert forall|i: int| 0 <= i < fa.len() implies rank(#[trigger] fs[i]) <= r by {
            let j = lemma_kept_is_held(a, keep, i);
            assert(fs[i] == a[j] && a[j] == s[j]);
        }
        assert forall|i: int| fa.len() <= i < fs.len() implies rank(#[trigger] fs[i]) > r by {
            let j = lemma_kept_is_held(b, keep, i - fa.len());
            assert(fs[i] == b[j] && b[j] == s[p + j]);
        }
        lemma_place_unique(fs, r, rank, fa.len() as int);
        assert(fs.insert(fa.len() as int, x) =~= fa + seq![x] + fb);
    } else {
        assert(fa + Seq::<T>::empty() =~= fa);
    }
}

/// Ranking and choosing can come in either order: what a predicate keeps of the ranked items is
/// what it keeps of the items, ranked.
pub proof fn law_ranking_commutes_with_filtering<T>(
    items: Seq<T>,
    rank: spec_fn(T) -> int,
    keep: spec_fn(T) -> bool,
)
    ensures
        ranked(items, rank).filter(keep) == ranked(items.filter(keep), rank),
    decreases items.len(),
{
    reveal(Seq::filter);
    if items.len() == 0 {
        assert(ranked(items, rank) =~= Seq::empty());
        assert(items.filter(keep) =~= Seq::empty());
    } else {
        let init = items.drop_last();
        let x = items.last();
        law_ranking_commutes_with_filtering(init, rank, keep);
        law_ranked_sorts(init, rank);
        lemma_filter_ranked_with(ranked(init, rank), x, rank, keep);
        if keep(x) {
            let kept = init.filter(keep);
            assert(items.filter(keep) =~= kept.push(x));
            assert(kept.push(x).drop_last() =~= kept);
        }
    }
}

/// What a predicate keeps of the first items comes first in what it keeps of all.
pub proof fn lemma_filter_of_first<T>(s: Seq<T>, keep: spec_fn(T) -> bool, k: int)
    requires
        0 <= k,
    ensures
        first(s, k).filter(keep).len() <= s.filter(keep).len(),
        first(s, k).filter(keep) == s.filter(keep).take(first(s, k).filter(keep).len() as int),
        first(s, k).filter(keep).len() <= k,
{
    let t = first(s, k);
    let rest = s.subrange(t.len() as int, s.len() as int);
    assert(s =~= t + rest);
    Seq::filter_distributes_over_add(t, rest, keep);
    t.lemma_filter_len(keep);
    assert(t.filter(keep) =~= s.filter(keep).take(t.filter(keep).len() as int));
}

} // verus!
