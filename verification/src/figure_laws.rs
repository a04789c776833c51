//! What numerals, figures and sums stand for.
use crate::cluster::{batches, empty_cluster, stride, ClusterModel};
use crate::decimal::{
    all_digits, decimal, decimal4, digit_char, is_digit, law_decimal_value, number_of,
    numeral_value, unsigned,
};
use crate::float_bits::{is_nan_bits, magnitude};
use crate::float_laws::{law_fields_tell_kinds, law_total_order_of_bits};
use crate::index::vector_total;
use crate::layout_laws::is_whole;
use crate::lut::{is_peak, is_range, signed_byte};
use crate::manifest::{filename_of, EntryModel};
use crate::memory::{capped, clusters_memory, packed_memory, pending_memory, sum_of, SizesModel};
use crate::report::{
    among, as_double, bytes_text, half_even, hits_of, is_effective_topk, load_estimate,
    save_estimate, spacing, sweep_length, tenths_text, PROBE_COUNTS,
};
use crate::result_laws::bits_le;
use crate::train::{checked, train_fault, train_with_clusters_fault};
use crate::error::RabitqError;
use crate::v4_flush::{held, held_by, newest, next_version, saved_count};
use vstd::arithmetic::power::{lemma_pow0, lemma_pow_positive, pow};
use vstd::arithmetic::power2::{lemma2_to64, lemma_pow2_pos, lemma_pow2_unfold, pow2};
use vstd::prelude::*;

verus! {

// ----------------------------------------------------------------------------
// Numerals
// ----------------------------------------------------------------------------

proof fn lemma_digit(d: int)
    requires
        0 <= d < 10,
    ensures
        digit_char(d) as int == 48 + d,
{
}

proof fn lemma_tenfold(n: int, k: nat)
    requires
        0 <= n,
        0 < k,
    ensures
        n / pow(10, k) == (n / 10) / pow(10, (k - 1) as nat),
{
    lemma_pow_positive(10, (k - 1) as nat);
    assert(pow(10, k) == 10 * pow(10, (k - 1) as nat)) by {
        reveal(pow);
    }
    vstd::arithmetic::div_mod::lemma_div_denominator(n, 10, pow(10, (k - 1) as nat));
}

/// The digits of a numeral: from the right, digit `k` is what the number holds of the `k`-th power of
/// ten, and there is no digit in front that the number does not need.
pub proof fn law_digits_of_numerals(n: int, k: int)
    requires
        0 <= n,
        0 <= k < decimal(n).len(),
    ensures
        decimal(n)[decimal(n).len() - 1 - k] as int == 48 + (n / pow(10, k as nat)) % 10,
        n < pow(10, decimal(n).len()),
        n > 0 ==> decimal(n)[0] != '0',
    decreases n,
{
    let s = decimal(n);
    lemma_pow0(10);
    if n < 10 {
        lemma_digit(n);
        assert(pow(10, 1) == 10) by {
            reveal(pow);
            assert(pow(10, 0) == 1);
        }
        assert(n / 1 == n);
    } else {
        let t = decimal(n / 10);
        lemma_digit(n % 10);
        law_decimal_value(n / 10);
        law_digits_of_numerals(n / 10, 0);
        assert(pow(10, s.len()) == 10 * pow(10, t.len())) by {
            reveal(pow);
        }
        if k == 0 {
            assert(n / 1 == n);
        } else {
            law_digits_of_numerals(n / 10, k - 1);
            lemma_tenfold(n, k as nat);
            assert(s[s.len() - 1 - k] == t[t.len() - 1 - (k - 1)]);
        }
    }
}

/// A numeral of at least four digits is the numeral behind zeros.
pub proof fn law_numerals_of_four_digits(n: int)
    requires
        0 <= n,
    ensures
        decimal4(n).len() >= 4,
        decimal4(n).len() == 4 || decimal4(n) == decimal(n),
        decimal(n).len() <= decimal4(n).len(),
        decimal4(n).subrange(
            decimal4(n).len() - decimal(n).len(),
            decimal4(n).len() as int,
        ) == decimal(n),
        forall|i: int|
            0 <= i < decimal4(n).len() - decimal(n).len() ==> #[trigger] decimal4(n)[i] == '0',
{
    reveal_with_fuel(decimal, 4);
    let zeros = decimal4(n).len() - decimal(n).len();
    law_decimal_value(n);
    assert(decimal4(n).subrange(zeros, decimal4(n).len() as int) =~= decimal(n));
    if n >= 1000 {
        law_decimal_value(n / 10);
        law_decimal_value(n / 100);
        law_decimal_value(n / 1000);
        assert((n / 10) / 10 == n / 100);
        assert((n / 100) / 10 == n / 1000);
    }
}

/// The name of a segment: `cluster_`, the number of the cluster, `_v`, the version, `.seg`.
pub proof fn law_segment_names(cluster_id: u32, version: u32)
    ensures
        filename_of(cluster_id, version) == "cluster_"@ + decimal4(cluster_id as int) + "_v"@
            + decimal4(version as int) + ".seg"@,
{
}

/// Whether a text is digits alone, at least one.
pub open spec fn digits_alone(s: Seq<char>) -> bool {
    s.len() > 0 && forall|i: int| 0 <= i < s.len() ==> 48 <= (#[trigger] s[i]) as int <= 57
}

proof fn lemma_digits_alone(s: Seq<char>)
    requires
        s.len() > 0,
    ensures
        digits_alone(s) ==> all_digits(s) && unsigned(s) == s,
        all_digits(s) ==> digits_alone(s),
{
    if digits_alone(s) {
        assert(48 <= s[0] as int);
    }
    if all_digits(s) {
        assert forall|i: int| 0 <= i < s.len() implies 48 <= (#[trigger] s[i]) as int <= 57 by {
            assert(is_digit(s[i]));
        }
    }
}

/// Reading a number digit by digit: a single digit stands for itself, and one more digit behind a
/// number makes ten times the number and the digit.
pub proof fn law_numbers_grow_by_digits(s: Seq<char>, c: char, max: int)
    requires
        48 <= c as int <= 57,
    ensures
        c as int - 48 <= max ==> number_of(seq![c], max) == Some(c as int - 48),
        digits_alone(s) ==> number_of(s.push(c), max) == match number_of(s, max) {
            Some(v) => if 10 * v + (c as int - 48) <= max {
                Some(10 * v + (c as int - 48))
            } else {
                None
            },
            None => None,
        },
{
    let one = seq![c];
    assert(one.drop_last() =~= Seq::empty());
    assert(digits_alone(one));
    lemma_digits_alone(one);
    assert(numeral_value(one.drop_last()) == 0);
    if digits_alone(s) {
        let t = s.push(c);
        assert(t.drop_last() =~= s);
        assert forall|i: int| 0 <= i < t.len() implies 48 <= (#[trigger] t[i]) as int <= 57 by {
            if i < s.len() {
                assert(t[i] == s[i]);
            }
        }
        lemma_digits_alone(s);
        lemma_digits_alone(t);
        lemma_value_is_nat(s);
    }
}

proof fn lemma_value_is_nat(s: Seq<char>)
    requires
        all_digits(s),
    ensures
        0 <= numeral_value(s),
    decreases s.len(),
{
    if s.len() > 0 {
        assert forall|i: int| 0 <= i < s.len() - 1 implies is_digit(
            #[trigger] s.drop_last()[i],
        ) by {
            assert(s.drop_last()[i] == s[i]);
        }
        lemma_value_is_nat(s.drop_last());
        assert(is_digit(s[s.len() - 1]));
    }
}

/// What reads as a number: digits alone, at least one, possibly behind one plus sign; and nothing
/// above the limit.
pub proof fn law_what_reads_as_number(s: Seq<char>, max: int)
    ensures
        number_of(s, max) matches Some(v) ==> 0 <= v <= max && (digits_alone(s) || (s.len() > 1
            && s[0] == '+' && digits_alone(s.skip(1)))),
        digits_alone(s) ==> number_of(seq!['+'] + s, max) == number_of(s, max),
{
    if let Some(v) = number_of(s, max) {
        let d = unsigned(s);
        lemma_digits_alone(d);
        lemma_value_is_nat(d);
    }
    if digits_alone(s) {
        let p = seq!['+'] + s;
        lemma_digits_alone(s);
        assert(p.skip(1) =~= s);
    }
}

// ----------------------------------------------------------------------------
// Figures
// ----------------------------------------------------------------------------

/// The distance of two numbers.
pub open spec fn apart(a: int, b: int) -> int {
    if a < b {
        b - a
    } else {
        a - b
    }
}

/// Rounding gives a nearest integer, and the even one of two.
pub proof fn law_rounding_is_nearest(num: int, den: int)
    requires
        0 <= num,
        0 < den,
    ensures
        2 * apart(half_even(num, den) * den, num) <= den,
        2 * apart(half_even(num, den) * den, num) == den ==> half_even(num, den) % 2 == 0,
{
    let q = num / den;
    let r = num % den;
    vstd::arithmetic::div_mod::lemma_fundamental_div_mod(num, den);
    assert(num == den * q + r);
    assert(0 <= r < den) by {
        vstd::arithmetic::div_mod::lemma_mod_bound(num, den);
    }
    assert(den * q == q * den) by (nonlinear_arith);
    assert((q + 1) * den == q * den + den) by (nonlinear_arith);
}

proof fn lemma_spacing_is_power(n: int) -> (e: nat)
    requires
        0 <= n,
    ensures
        spacing(n) == pow2(e),
        n < 9007199254740992 * pow2(e),
        e == 0 || 4503599627370496 * pow2(e) <= n,
    decreases n,
{
    lemma2_to64();
    if n < 9007199254740992 {
        0
    } else {
        let d = lemma_spacing_is_power(n / 2);
        lemma_pow2_unfold(d + 1);
        if d == 0 {
            assert(pow2(1) == 2);
        }
        (d + 1) as nat
    }
}

/// Whether `e` is the exponent of the doubles around `n`: these lie `2^e` apart, with 53 bits in
/// front.
pub open spec fn doubles_lie_apart(n: int, e: nat) -> bool {
    n < 9007199254740992 * pow2(e) && (e == 0 || 4503599627370496 * pow2(e) <= n)
}

/// The nearest double: up to 53 bits every number is its own, and beyond it is the nearest multiple
/// of the distance between doubles, the even one of two.
pub proof fn law_doubles_are_nearest(n: int)
    requires
        0 <= n,
    ensures
        n < 9007199254740992 ==> as_double(n) == n,
        exists|e: nat| #[trigger]
            doubles_lie_apart(n, e) && as_double(n) % pow2(e) as int == 0 && 2 * apart(
                as_double(n),
                n,
            ) <= pow2(e) && (2 * apart(as_double(n), n) == pow2(e) ==> (as_double(n)
                / pow2(e) as int) % 2 == 0),
{
    let e = lemma_spacing_is_power(n);
    lemma_pow2_pos(e);
    let s = pow2(e) as int;
    law_rounding_is_nearest(n, s);
    let h = half_even(n, s);
    assert((h * s) % s == 0) by {
        vstd::arithmetic::div_mod::lemma_mod_multiples_basic(h, s);
    }
    assert((h * s) / s == h) by {
        vstd::arithmetic::div_mod::lemma_div_multiples_vanish(h, s);
        assert(h * s == s * h) by (nonlinear_arith);
    }
    assert(doubles_lie_apart(n, e));
    if n < 9007199254740992 {
        assert(n / 1 == n && n % 1 == 0);
        assert(n * 1 == n);
    }
}

/// Whether a text shows a number of tenths in a unit.
pub open spec fn shows_tenths(text: Seq<char>, t: int, unit: Seq<char>) -> bool {
    0 <= t && text == decimal(t / 10) + "."@ + seq![((48 + t % 10) as char)] + unit
}

proof fn lemma_tenths(t: int, unit: Seq<char>)
    requires
        0 <= t,
    ensures
        shows_tenths(tenths_text(t) + unit, t, unit),
{
    lemma_digit(t % 10);
    assert(digit_char(t % 10) == ((48 + t % 10) as char));
}

proof fn lemma_half_is_nat(num: int, den: int)
    requires
        0 <= num,
        0 < den,
    ensures
        0 <= half_even(num, den),
{
    assert(0 <= num / den) by (nonlinear_arith)
        requires
            0 <= num,
            0 < den,
    ;
}

/// How a number of bytes is shown: as it is below 1024, to the nearest tenth of 1024 bytes below
/// 1024 times 1024, and from there on to the nearest tenth of that.
pub proof fn law_bytes_are_shown(n: int)
    requires
        0 <= n,
    ensures
        n < 1024 ==> bytes_text(n) == decimal(n) + " B"@,
        1024 <= n < 1048576 ==> exists|t: int| #[trigger]
            shows_tenths(bytes_text(n), t, " KB"@) && 2 * apart(t * 1024, 10 * n) <= 1024,
        1048576 <= n ==> exists|t: int| #[trigger]
            shows_tenths(bytes_text(n), t, " MB"@) && 2 * apart(t * 1048576, 10 * as_double(n))
                <= 1048576,
{
    if 1024 <= n < 1048576 {
        let t = half_even(10 * n, 1024);
        law_rounding_is_nearest(10 * n, 1024);
        lemma_half_is_nat(10 * n, 1024);
        lemma_tenths(t, " KB"@);
        assert(shows_tenths(bytes_text(n), t, " KB"@));
    } else if 1048576 <= n {
        law_doubles_are_nearest(n);
        let e = lemma_spacing_is_power(n);
        lemma_pow2_pos(e);
        lemma_half_is_nat(n, spacing(n));
        assert(0 <= as_double(n)) by (nonlinear_arith)
            requires
                0 <= half_even(n, spacing(n)),
                0 <= spacing(n),
                as_double(n) == half_even(n, spacing(n)) * spacing(n),
        ;
        let t = half_even(10 * as_double(n), 1048576);
        law_rounding_is_nearest(10 * as_double(n), 1048576);
        lemma_half_is_nat(10 * as_double(n), 1048576);
        lemma_tenths(t, " MB"@);
        assert(shows_tenths(bytes_text(n), t, " MB"@));
    }
}

/// What loading is estimated to read: 200 bytes, and for each cluster 66 bytes and a centroid.
pub proof fn law_load_estimate_grows(clusters: int, padded_dim: int)
    ensures
        load_estimate(0, padded_dim) == 200,
        load_estimate(clusters + 1, padded_dim) == load_estimate(clusters, padded_dim) + 66 + 4
            * padded_dim,
{
    let each = 21 + 4 * padded_dim;
    assert((clusters + 1) * each == clusters * each + each) by (nonlinear_arith);
    assert(0 * each == 0);
}

/// What saving is estimated to write: 200 bytes, and for each cluster 70 bytes, a centroid, 4224
/// bytes
/// for every 32 vectors begun, and 744 bytes for each vector, where all clusters have the average.
pub proof fn law_save_estimate_grows(vectors: int, clusters: int, padded_dim: int, average: int)
    requires
        0 < clusters,
        average * clusters <= vectors < (average + 1) * clusters,
    ensures
        save_estimate(vectors, 0, padded_dim) == 200,
        save_estimate(vectors, clusters, padded_dim) == 200 + clusters * (70 + 4 * padded_dim + 4224
            * ((average + 31) / 32) + 744 * average),
{
    assert(vectors / clusters == average) by {
        let r = vectors - average * clusters;
        assert((average + 1) * clusters == average * clusters + clusters) by (nonlinear_arith);
        assert(vectors == average * clusters + r);
        vstd::arithmetic::div_mod::lemma_fundamental_div_mod_converse(
            vectors,
            clusters,
            average,
            r,
        );
    }
    let a = 25 + 4 * padded_dim + 4224 * ((average + 31) / 32) + 744 * average;
    assert(clusters * a + 45 * clusters == clusters * (a + 45)) by (nonlinear_arith);
}

/// Recall counts the results that are among the first of the ground truth.
pub proof fn law_hits_are_counted(results: Seq<u64>, truth: Seq<u64>, k: int, n: int)
    requires
        0 <= n <= results.len(),
        0 <= k <= truth.len(),
    ensures
        hits_of(results, truth, k, n) == results.take(n).filter(
            |id: u64| truth.take(k).contains(id),
        ).len(),
    decreases n,
{
    let keep = |id: u64| truth.take(k).contains(id);
    reveal(Seq::filter);
    if n > 0 {
        law_hits_are_counted(results, truth, k, n - 1);
        let t = results.take(n);
        let id = results[n - 1];
        assert(t.drop_last() =~= results.take(n - 1));
        assert(t.last() == id);
        if among(truth, k, id) {
            let j = choose|j: int| 0 <= j < k && j < truth.len() && #[trigger] truth[j] == id;
            assert(truth.take(k)[j] == id);
        }
        if keep(id) {
            let j = choose|j: int| 0 <= j < truth.take(k).len() && truth.take(k)[j] == id;
            assert(truth[j] == id);
        }
    }
}

/// The depth that a benchmark compares at is the largest that neither the wanted one nor a row of the
/// ground truth is below.
pub proof fn law_depth_is_largest(k: usize, depths: Seq<usize>, topk: usize, other: usize)
    requires
        is_effective_topk(k, depths, topk),
    ensures
        k <= topk,
        forall|i: int| 0 <= i < depths.len() ==> k <= #[trigger] depths[i],
        other > k ==> other > topk || exists|i: int|
            0 <= i < depths.len() && other > #[trigger] depths[i],
{
}

/// Which probe counts a sweep tries: those of the list that are not larger than the index, and up to
/// 64 for an index without clusters.
pub proof fn law_sweeps_stay_within(clusters: usize)
    ensures
        PROBE_COUNTS@ == seq![
            1usize,
            2,
            4,
            8,
            16,
            32,
            64,
            96,
            128,
            192,
            256,
            384,
            512,
            768,
            1024,
        ],
        ({
            let n = sweep_length(clusters, 15);
            &&& 1 <= n <= 15
            &&& clusters == 0 ==> n == 7
            &&& clusters > 0 ==> forall|i: int|
                0 <= i < 15 ==> (i < n <==> (#[trigger] PROBE_COUNTS@[i]) <= clusters)
        }),
{
    reveal_with_fuel(sweep_length, 16);
}

// ----------------------------------------------------------------------------
// Sums
// ----------------------------------------------------------------------------

/// Memory is counted by bytes: four for each single-precision number, eight for each id, one for each
/// byte of batches and codes, and the structs by their sizes.
pub proof fn law_memory_counts_bytes(s: SizesModel, struct_size: int, vec_size: int)
    ensures
        packed_memory(s, struct_size, vec_size) == struct_size + 4 * (s.centroid_len + s.f_add_ex
            + s.f_rescale_ex + s.delta + s.vl) + 8 * s.ids + s.batch_data + vec_size * s.ex_codes
            + sum_of(s.ex_code_bytes),
        pending_memory(s) == sum_of(s.pending_bytes) + 8 * s.pending_ids_len,
{
}

/// Sums go item by item, and no further than the largest size.
pub proof fn law_sums_go_item_by_item(
    values: Seq<usize>,
    x: usize,
    sizes: Seq<SizesModel>,
    s: SizesModel,
    struct_size: int,
    vec_size: int,
    n: int,
)
    requires
        0 <= n,
    ensures
        sum_of(Seq::empty()) == 0,
        sum_of(values.push(x)) == sum_of(values) + x,
        clusters_memory(Seq::empty(), struct_size, vec_size) == 0,
        clusters_memory(sizes.push(s), struct_size, vec_size) == clusters_memory(
            sizes,
            struct_size,
            vec_size,
        ) + packed_memory(s, struct_size, vec_size) + pending_memory(s),
        capped(n) <= n,
        capped(n) == n || (capped(n) == usize::MAX && n > usize::MAX),
{
    assert(values.push(x).drop_last() =~= values);
    assert(sizes.push(s).drop_last() =~= sizes);
}

/// The vectors of an index are those of its clusters, packed and pending.
pub proof fn law_total_goes_by_clusters(clusters: Seq<ClusterModel>, c: ClusterModel)
    ensures
        vector_total(Seq::empty()) == 0,
        vector_total(clusters.push(c)) == vector_total(clusters) + c.num_vectors
            + c.pending_ids.len(),
        c.total() == c.num_vectors + c.pending_ids.len(),
{
    assert(clusters.push(c).drop_last() =~= clusters);
}

/// The vectors of saved segments are those that the entries state.
pub proof fn law_saved_goes_by_entries(
    entries: Seq<EntryModel>,
    e: EntryModel,
    map: Map<u32, Seq<EntryModel>>,
    keys: Seq<u32>,
    key: u32,
    c: ClusterModel,
)
    ensures
        held(Seq::empty()) == 0,
        held(entries.push(e)) == held(entries) + e.num_vectors,
        held_by(map, Seq::empty()) == 0,
        held_by(map, keys.push(key)) == held_by(map, keys) + held(map[key]),
        saved_count(entries, c) == held(entries) || saved_count(entries, c) == c.num_vectors,
        saved_count(entries, c) <= held(entries),
        saved_count(entries, c) <= c.num_vectors,
{
    assert(entries.push(e).drop_last() =~= entries);
    assert(keys.push(key).drop_last() =~= keys);
}

proof fn lemma_newest(entries: Seq<EntryModel>)
    requires
        entries.len() > 0,
    ensures
        exists|j: int| 0 <= j < entries.len() && (#[trigger] entries[j]).version == newest(entries),
        forall|j: int| 0 <= j < entries.len() ==> (#[trigger] entries[j]).version <= newest(entries),
    decreases entries.len(),
{
    let init = entries.drop_last();
    assert(entries.last() == entries[entries.len() - 1]);
    if entries.len() > 1 {
        lemma_newest(init);
        let k = choose|j: int| 0 <= j < init.len() && (#[trigger] init[j]).version == newest(init);
        assert(entries[k] == init[k]);
        assert forall|j: int| 0 <= j < entries.len() implies (#[trigger] entries[j]).version
            <= newest(entries) by {
            if j < init.len() {
                assert(init[j] == entries[j]);
            }
        }
    }
}

/// Each flush raises the version by one: a cluster without segments starts with 0, and the next
/// version is one above the largest, as long as there is one.
pub proof fn law_versions_go_up_by_one(entries: Seq<EntryModel>)
    requires
        forall|j: int| 0 <= j < entries.len() ==> (#[trigger] entries[j]).version < 0xffff_ffff,
    ensures
        entries.len() == 0 ==> next_version(entries) == 0,
        forall|j: int|
            0 <= j < entries.len() ==> (#[trigger] entries[j]).version < next_version(entries),
        entries.len() > 0 ==> exists|j: int|
            0 <= j < entries.len() && (#[trigger] entries[j]).version + 1 == next_version(entries),
{
    if entries.len() > 0 {
        lemma_newest(entries);
    }
}

/// The range of some numbers: two of them, with all others between. Without numbers it is zero.
pub proof fn law_range_spans_the_numbers(values: Seq<u32>, low: u32, high: u32)
    requires
        is_range(values, low, high),
    ensures
        values.len() == 0 ==> low == 0 && high == 0,
        values.len() > 0 ==> values.contains(low) && values.contains(high),
        forall|i: int|
            0 <= i < values.len() ==> bits_le(low, #[trigger] values[i]) && bits_le(
                values[i],
                high,
            ),
{
    assert forall|i: int| 0 <= i < values.len() implies bits_le(low, #[trigger] values[i])
        && bits_le(values[i], high) by {
        law_total_order_of_bits(low, values[i]);
        law_total_order_of_bits(values[i], high);
    }
}

/// The peak of some numbers: no number but a NaN is larger without its sign, and one of them is as
/// large, unless the peak is zero.
pub proof fn law_peak_is_largest(values: Seq<u32>, peak: u32)
    requires
        is_peak(values, peak),
    ensures
        forall|i: int|
            0 <= i < values.len() && (#[trigger] values[i]) as int % 2147483648 <= 0x7f80_0000
                ==> values[i] as int % 2147483648 <= peak,
        peak != 0 ==> exists|i: int|
            0 <= i < values.len() && (#[trigger] values[i]) as int % 2147483648 == peak && peak
                <= 0x7f80_0000,
{
    assert forall|i: int|
        0 <= i < values.len() && (#[trigger] values[i]) as int % 2147483648
            <= 0x7f80_0000 implies values[i] as int % 2147483648 <= peak by {
        law_fields_tell_kinds(values[i]);
    }
    if peak != 0 {
        let i = choose|i: int|
            0 <= i < values.len() && !is_nan_bits(#[trigger] values[i]) && magnitude(values[i])
                == peak;
        law_fields_tell_kinds(values[i]);
        assert(values[i] as int % 2147483648 == peak);
    }
}

/// A byte of a table as a signed byte: the number from -128 to 127 that differs from it by a
/// multiple of 256.
pub proof fn law_signed_bytes_wrap(v: u8)
    ensures
        -128 <= signed_byte(v) <= 127,
        (v - signed_byte(v)) % 256 == 0,
{
}

/// Batches hold 32 vectors each, as few as suffice, and each has the bytes of 32 one-bit codes and of
/// three parameters of each vector.
pub proof fn law_batches_hold_32(n: int, padded_dim: int)
    requires
        0 <= n,
        0 <= padded_dim,
    ensures
        n <= 32 * batches(n) < n + 32,
        stride(padded_dim) == 32 * padded_dim / 8 + 32 * 3 * 4,
{
}

/// A cluster without pending vectors is well formed exactly if it is whole.
pub proof fn law_well_formed_is_whole(c: ClusterModel)
    requires
        c.pending.len() == 0,
        c.pending_ids.len() == 0,
        c.batch_data.len() <= usize::MAX,
    ensures
        c.well_formed() <==> is_whole(c, c.padded_dim, c.ex_bits),
{
}

/// A new cluster has its centroid and no vector.
pub proof fn law_new_clusters_are_empty(centroid: Seq<u32>, padded_dim: usize, ex_bits: usize)
    ensures
        ({
            let c = empty_cluster(centroid, padded_dim, ex_bits);
            &&& c.centroid == centroid
            &&& c.num_vectors == 0
            &&& c.pending_ids.len() == 0
            &&& centroid.len() == padded_dim ==> is_whole(c, padded_dim, ex_bits)
        }),
{
}

// ----------------------------------------------------------------------------
// What training needs
// ----------------------------------------------------------------------------

/// What training needs: vectors of one dimension, between one and sixteen bits, and at least one and
/// no more clusters than vectors. Nothing else is asked for, and the dimension is that of the
/// vectors.
pub proof fn law_training_needs(dims: Seq<usize>, nlist: usize, total_bits: usize)
    ensures
        train_fault(dims, nlist, total_bits) is None <==> {
            &&& dims.len() >= 1
            &&& 1 <= nlist <= dims.len()
            &&& 1 <= total_bits <= 16
            &&& forall|i: int| 0 <= i < dims.len() ==> #[trigger] dims[i] == dims[0]
        },
        train_fault(dims, nlist, total_bits) is None ==> checked(
            train_fault(dims, nlist, total_bits),
            dims,
        ) == Ok::<usize, RabitqError>(dims[0]),
{
}

/// What training with given clusters needs: vectors and centroids of one dimension, one assignment
/// for
/// each vector, between one and sixteen bits, no more clusters than vectors, and assignments to
/// clusters that there are. Nothing else is asked for.
pub proof fn law_training_with_clusters_needs(
    dims: Seq<usize>,
    centroid_dims: Seq<usize>,
    assignments: Seq<usize>,
    total_bits: usize,
)
    ensures
        train_with_clusters_fault(dims, centroid_dims, assignments, total_bits) is None <==> {
            &&& dims.len() >= 1
            &&& 1 <= centroid_dims.len() <= dims.len()
            &&& assignments.len() == dims.len()
            &&& 1 <= total_bits <= 16
            &&& forall|i: int| 0 <= i < dims.len() ==> #[trigger] dims[i] == dims[0]
            &&& forall|i: int|
                0 <= i < centroid_dims.len() ==> #[trigger] centroid_dims[i] == dims[0]
            &&& forall|i: int|
                0 <= i < assignments.len() ==> (#[trigger] assignments[i]) < centroid_dims.len()
        },
{
}

} // verus!
