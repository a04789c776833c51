//! Figures that the programs report.
use crate::decimal::{decimal, digit_char, push_decimal};
use vstd::prelude::*;

verus! {

/// The quotient rounded to the nearest integer, and to the even one between two.
pub open spec fn half_even(num: int, den: int) -> int {
    let q = num / den;
    let r = num % den;
    if 2 * r > den || (2 * r == den && q % 2 == 1) {
        q + 1
    } else {
        q
    }
}

/// The distance between neighbouring double-precision floats around `n`, at least 1.
pub open spec fn spacing(n: int) -> int
    decreases n,
{
    if n < 9007199254740992 {
        1
    } else {
        2 * spacing(n / 2)
    }
}

/// The double-precision float nearest to `n`.
pub open spec fn as_double(n: int) -> int {
    half_even(n, spacing(n)) * spacing(n)
}

/// A number of tenths with one decimal.
pub open spec fn tenths_text(t: int) -> Seq<char> {
    decimal(t / 10) + "."@ + seq![digit_char(t % 10)]
}

/// A number of bytes for reading: whole bytes, or kilobytes or megabytes with one decimal.
pub open spec fn bytes_text(n: int) -> Seq<char> {
    if n < 1024 {
        decimal(n) + " B"@
    } else if n < 1048576 {
        tenths_text(half_even(10 * n, 1024)) + " KB"@
    } else {
        tenths_text(half_even(10 * as_double(n), 1048576)) + " MB"@
    }
}

fn round_half_even(num: u128, den: u128) -> (r: u128)
    requires
        0 < den <= 0x1_0000_0000_0000_0000,
        num <= 0x100_0000_0000_0000_0000,
    ensures
        r == half_even(num as int, den as int),
        r <= num + 1,
{
    let q: u128 = num / den;
    let rest: u128 = num % den;
    proof {
        assert(num / den <= num) by (nonlinear_arith)
            requires
                den > 0,
                num >= 0,
        ;
    }
    if 2 * rest > den || (2 * rest == den && q % 2 == 1) {
        q + 1
    } else {
        q
    }
}

proof fn lemma_spacing(n: int)
    requires
        0 <= n,
    ensures
        1 <= spacing(n),
        n < 9007199254740992 * spacing(n),
        spacing(n) <= 1 || spacing(n) <= n,
    decreases n,
{
    if n >= 9007199254740992 {
        lemma_spacing(n / 2);
    }
}

fn nearest_double(n: u64) -> (r: u128)
    ensures
        r == as_double(n as int),
        r <= 0x2_0000_0000_0000_0000,
{
    let mut m: u64 = n;
    let mut step: u128 = 1;
    proof {
        lemma_spacing(n as int);
    }
    while m >= 9007199254740992
        invariant
            spacing(n as int) == step * spacing(m as int),
            1 <= step,
            1 <= spacing(m as int),
            step * m <= n,
        decreases m,
    {
        proof {
            lemma_spacing(m as int / 2);
            let s = step as int;
            let h = m as int / 2;
            let t = spacing(h);
            assert(s * (2 * t) == (2 * s) * t) by (nonlinear_arith);
            assert((2 * s) * h <= s * m) by (nonlinear_arith)
                requires
                    2 * h <= m,
                    0 <= s,
            ;
            assert(s <= s * m) by (nonlinear_arith)
                requires
                    1 <= m,
                    0 <= s,
            ;
        }
        m = m / 2;
        step = 2 * step;
    }
    assert(spacing(m as int) == 1);
    assert(step * 1 == step);
    proof {
        assert(step <= 0x1_0000_0000_0000_0000) by {
            if m >= 1 {
                assert(step <= step * m) by (nonlinear_arith)
                    requires
                        1 <= m,
                        0 <= step,
                ;
            } else {
                lemma_spacing(n as int);
            }
        }
    }
    let q: u128 = round_half_even(n as u128, step);
    proof {
        let d = n as int / step as int;
        assert(d * step <= n) by (nonlinear_arith)
            requires
                d == n as int / step as int,
                step >= 1,
        ;
        assert(q * step <= (d + 1) * step) by (nonlinear_arith)
            requires
                q <= d + 1,
                step >= 1,
        ;
        assert((d + 1) * step == d * step + step) by (nonlinear_arith);
        assert(0 <= q * step) by (nonlinear_arith)
            requires
                0 <= q,
                0 <= step,
        ;
    }
    q * step
}

fn push_tenths(out: &mut String, t: u64)
    ensures
        final(out)@ == old(out)@ + tenths_text(t as int),
{
    push_decimal(out, t / 10);
    out.append(".");
    push_decimal(out, t % 10);
    assert(out@ =~= old(out)@ + tenths_text(t as int));
}

/// A number of bytes for reading: whole bytes, or kilobytes or megabytes with one decimal.
pub fn fmt_bytes(n: u64) -> (text: String)
    ensures
        text@ == bytes_text(n as int),
{
    let mut out: String = String::new();
    if n < 1024 {
        push_decimal(&mut out, n);
        out.append(" B");
    } else if n < 1048576 {
        let t: u128 = round_half_even(10 * (n as u128), 1024);
        assert(t <= 10 * n + 1);
        push_tenths(&mut out, t as u64);
        out.append(" KB");
    } else {
        let d: u128 = nearest_double(n);
        let t: u128 = round_half_even(10 * d, 1048576);
        assert(t <= 10 * d / 1048576 + 1);
        push_tenths(&mut out, t as u64);
        out.append(" MB");
    }
    assert(out@ =~= bytes_text(n as int));
    out
}

// ----------------------------------------------------------------------------
// Input and output of a store
// ----------------------------------------------------------------------------

/// Bytes that are read of each segment to get at its centroid.
pub open spec fn centroid_bytes(padded_dim: int) -> int {
    21 + 4 * padded_dim
}

/// Approximate bytes of a manifest.
pub open spec fn manifest_estimate(clusters: int) -> int {
    200 + 45 * clusters
}

/// Approximate bytes that loading the centroids of an index reads.
pub open spec fn load_estimate(clusters: int, padded_dim: int) -> int {
    manifest_estimate(clusters) + clusters * centroid_bytes(padded_dim)
}

/// Approximate bytes of a segment of `n` vectors.
pub open spec fn segment_estimate(n: int, padded_dim: int) -> int {
    21 + 4 * padded_dim + 8 * n + (n + 31) / 32 * 4224 + 736 * n + 4
}

/// Approximate bytes that saving an index writes: a segment of average size for each cluster, and
/// the manifest.
pub open spec fn save_estimate(vectors: int, clusters: int, padded_dim: int) -> int {
    let average = if clusters > 0 {
        vectors / clusters
    } else {
        0
    };
    clusters * segment_estimate(average, padded_dim) + manifest_estimate(clusters)
}

fn narrowed(v: u128) -> (r: Option<u64>)
    ensures
        r == if v <= u64::MAX {
            Some(v as u64)
        } else {
            None::<u64>
        },
{
    if v <= u64::MAX as u128 {
        Some(v as u64)
    } else {
        None
    }
}

/// Approximate bytes that loading the centroids of an index reads, if they can be counted.
pub fn estimate_load(clusters: u32, padded_dim: u32) -> (r: Option<u64>)
    ensures
        r == if load_estimate(clusters as int, padded_dim as int) <= u64::MAX {
            Some(load_estimate(clusters as int, padded_dim as int) as u64)
        } else {
            None::<u64>
        },
{
    let each: u128 = 21 + 4 * (padded_dim as u128);
    proof {
        assert(0 <= clusters * each <= 0x1_0000_0000 * 0x8_0000_0000) by (nonlinear_arith)
            requires
                0 <= clusters <= 0x1_0000_0000,
                0 <= each <= 0x8_0000_0000,
        ;
    }
    narrowed(200 + 45 * (clusters as u128) + clusters as u128 * each)
}

/// Approximate bytes that saving an index writes, if they can be counted.
pub fn estimate_save(vectors: u64, clusters: u32, padded_dim: u32) -> (r: Option<u64>)
    ensures
        r == if save_estimate(vectors as int, clusters as int, padded_dim as int) <= u64::MAX {
            Some(save_estimate(vectors as int, clusters as int, padded_dim as int) as u64)
        } else {
            None::<u64>
        },
{
    let average: u64 = if clusters > 0 { vectors / (clusters as u64) } else { 0 };
    let n: u128 = average as u128;
    let each: u128 = 21 + 4 * (padded_dim as u128) + 8 * n + (n + 31) / 32 * 4224 + 736 * n + 4;
    proof {
        assert(0 <= clusters * each <= 0x1_0000_0000 * 0x1000_0000_0000_0000_0000) by (
        nonlinear_arith)
            requires
                0 <= clusters <= 0x1_0000_0000,
                0 <= each <= 0x1000_0000_0000_0000_0000,
        ;
    }
    narrowed(clusters as u128 * each + 200 + 45 * (clusters as u128))
}

// ----------------------------------------------------------------------------
// Recall
// ----------------------------------------------------------------------------

/// Whether `k` is the depth that a benchmark compares at: the wanted one, or the depth of the
/// shortest row of the ground truth where that is less.
pub open spec fn is_effective_topk(k: usize, depths: Seq<usize>, topk: usize) -> bool {
    &&& k <= topk
    &&& forall|i: int| 0 <= i < depths.len() ==> k <= #[trigger] depths[i]
    &&& k == topk || exists|i: int| 0 <= i < depths.len() && k == #[trigger] depths[i]
}

/// The depth that a benchmark compares at.
pub fn effective_topk(depths: &[usize], topk: usize) -> (k: usize)
    ensures
        is_effective_topk(k, depths@, topk),
{
    let mut k: usize = topk;
    let mut i: usize = 0;
    while i < depths.len()
        invariant
            i <= depths@.len(),
            k <= topk,
            forall|j: int| 0 <= j < i ==> k <= #[trigger] depths@[j],
            k == topk || exists|j: int| 0 <= j < depths@.len() && k == #[trigger] depths@[j],
        decreases depths@.len() - i,
    {
        let d: usize = depths[i];
        assert(d == depths@[i as int]);
        if d < k {
            k = d;
        }
        i += 1;
    }
    k
}

/// Number of the first `n` results that are among the first `k` of the ground truth.
pub open spec fn hits_of(results: Seq<u64>, truth: Seq<u64>, k: int, n: int) -> int
    decreases n,
{
    if n <= 0 {
        0
    } else {
        hits_of(results, truth, k, n - 1) + if among(truth, k, results[n - 1]) {
            1int
        } else {
            0
        }
    }
}

/// Whether an id is among the first `k` of the ground truth.
pub open spec fn among(truth: Seq<u64>, k: int, id: u64) -> bool {
    exists|j: int| 0 <= j < k && j < truth.len() && #[trigger] truth[j] == id
}

/// Number of results that are among the first `k` of the ground truth.
pub fn count_hits(results: &[u64], truth: &[u64], k: usize) -> (hits: usize)
    ensures
        hits == hits_of(results@, truth@, k as int, results@.len() as int),
        hits <= results@.len(),
{
    let mut hits: usize = 0;
    let mut i: usize = 0;
    while i < results.len()
        invariant
            i <= results@.len(),
            hits <= i,
            hits == hits_of(results@, truth@, k as int, i as int),
        decreases results@.len() - i,
    {
        let id: u64 = results[i];
        let mut j: usize = 0;
        let mut found: bool = false;
        while j < truth.len() && j < k && !found
            invariant
                j <= truth@.len(),
                j <= k,
                found ==> among(truth@, k as int, id),
                !found ==> forall|l: int| 0 <= l < j ==> #[trigger] truth@[l] != id,
            decreases truth@.len() - j + if found {
                0int
            } else {
                1int
            },
        {
            if truth[j] == id {
                assert(truth@[j as int] == id);
                found = true;
            } else {
                j += 1;
            }
        }
        assert(found == among(truth@, k as int, id));
        if found {
            hits += 1;
        }
        i += 1;
    }
    hits
}

/// The probe counts that a benchmark tries.
pub const PROBE_COUNTS: [usize; 15] = [
    1, 2, 4, 8, 16, 32, 64, 96, 128, 192, 256, 384, 512, 768, 1024,
];

/// How many of the first `n` probe counts a sweep over an index of `clusters` clusters tries: up to
/// the last one that is not larger than the index, and up to 64 where all are.
pub open spec fn sweep_length(clusters: usize, n: int) -> int
    decreases n,
{
    if n <= 0 {
        7
    } else if PROBE_COUNTS@[n - 1] <= clusters {
        n
    } else {
        sweep_length(clusters, n - 1)
    }
}

/// The probe counts of a sweep over an index of `clusters` clusters, in order.
pub fn probe_sweep(clusters: usize) -> (sweep: Vec<usize>)
    ensures
        sweep@ == PROBE_COUNTS@.take(sweep_length(clusters, 15)),
{
    let mut n: usize = 15;
    while n > 0 && PROBE_COUNTS[n - 1] > clusters
        invariant
            n <= 15,
            sweep_length(clusters, 15) == sweep_length(clusters, n as int),
        decreases n,
    {
        n -= 1;
    }
    if n == 0 {
        n = 7;
    }
    let mut sweep: Vec<usize> = Vec::new();
    let mut k: usize = 0;
    assert(PROBE_COUNTS@.take(0) =~= Seq::empty());
    while k < n
        invariant
            k <= n <= 15,
            sweep@ == PROBE_COUNTS@.take(k as int),
        decreases n - k,
    {
        sweep.push(PROBE_COUNTS[k]);
        k += 1;
        assert(sweep@ =~= PROBE_COUNTS@.take(k as int));
    }
    sweep
}

} // verus!
