//! What holds of every flush: it only adds, and what it leaves loads as the index.
use crate::cluster::{batches, stored_all, stride, with_slots, zero_slot, ClusterModel};
use crate::error::RabitqError;
use crate::growth::{law_growth_is_reflexive, lemma_packed_tells, lemma_slots_written};
use crate::index::IndexModel;
use crate::manifest::{
    entries_fit, filename_of, key_order, law_manifest_round_trip, law_segment_filenames_differ,
    manifest_bytes, manifest_of_bytes, map_fits, EntryModel, ManifestHeaderModel,
};
use crate::segment::{segment_bytes, segment_of_bytes, SegmentModel};
use crate::v4::{
    cluster_fits_v4, fits_v4, header_of, lemma_filename_fits, lemma_saved_segment,
    lemma_segment_reads_back, saved_map, saved_segments, segment_of,
};
use crate::v4_flush::{
    delta_of, entries_of, flushed_map, free_from, held, in_use, lemma_room_for_part, newest,
    next_entry, next_segment, next_version, saved_count,
};
use crate::v4_load::{
    cluster_of, delta_count, join_fault, joined_bytes, joined_ids, joined_vectors, joins,
    load_fault, loads, segments_hold, slot_vectors, LoadedModel,
};
use vstd::prelude::*;
use vstd::utf8::encode_utf8;

verus! {

// ----------------------------------------------------------------------------
// A flush only adds
// ----------------------------------------------------------------------------

/// A flush only adds: the entries that a cluster had stay, in front and in order, no cluster is
/// lost, and clusters that are not dirty stay as they are. A cluster that is dirty once gets one
/// entry: that of the segment of its new vectors, under the next version.
pub proof fn law_flush_only_adds(
    map: Map<u32, Seq<EntryModel>>,
    m: IndexModel,
    new_only: bool,
    dirty: Seq<u32>,
    n: int,
    key: u32,
)
    requires
        0 <= n <= dirty.len(),
    ensures
        ({
            let after = flushed_map(map, m, new_only, dirty, n);
            let before = entries_of(map, key);
            &&& map.contains_key(key) || dirty.take(n).contains(key) <==> after.contains_key(key)
            &&& before.len() <= entries_of(after, key).len() <= before.len() + n
            &&& entries_of(after, key).take(before.len() as int) == before
            &&& !dirty.take(n).contains(key) ==> entries_of(after, key) == before
            &&& dirty.take(n).contains(key) && dirty.no_duplicates() ==> entries_of(after, key)
                == before.push(next_entry(before, m, new_only, key))
        }),
    decreases n,
{
    let before = entries_of(map, key);
    if n > 0 {
        law_flush_only_adds(map, m, new_only, dirty, n - 1, key);
        let few = dirty.take(n - 1);
        let all = dirty.take(n);
        assert(all[n - 1] == dirty[n - 1]);
        if few.contains(key) {
            let j = choose|j: int| 0 <= j < few.len() && few[j] == key;
            assert(all[j] == key);
            assert(dirty[j] == key);
        }
        if all.contains(key) && key != dirty[n - 1] {
            let j = choose|j: int| 0 <= j < all.len() && all[j] == key;
            assert(few[j] == key);
        }
        let then = entries_of(flushed_map(map, m, new_only, dirty, n - 1), key);
        if key == dirty[n - 1] {
            let now = then.push(next_entry(then, m, new_only, key));
            assert(now.take(before.len() as int) =~= then.take(before.len() as int));
        }
    } else {
        assert(before.take(before.len() as int) =~= before);
        assert(dirty.take(0) =~= Seq::empty());
    }
}

proof fn lemma_newest_is_newest(entries: Seq<EntryModel>, j: int)
    requires
        0 <= j < entries.len(),
    ensures
        entries[j].version <= newest(entries),
    decreases entries.len(),
{
    if j < entries.len() - 1 {
        lemma_newest_is_newest(entries.drop_last(), j);
        assert(entries.drop_last()[j] == entries[j]);
    }
}

proof fn lemma_newest_is_in_use(entries: Seq<EntryModel>)
    requires
        entries.len() > 0,
    ensures
        in_use(entries, newest(entries) as int),
    decreases entries.len(),
{
    if entries.len() == 1 || newest(entries.drop_last()) < entries.last().version {
        assert(entries[entries.len() - 1].version == newest(entries));
    } else {
        let init = entries.drop_last();
        lemma_newest_is_in_use(init);
        let j = choose|j: int| 0 <= j < init.len() && (#[trigger] init[j]).version == newest(init);
        assert(entries[j] == init[j]);
    }
}

proof fn lemma_free_from(entries: Seq<EntryModel>, from: int)
    requires
        0 <= from <= 4294967295,
    ensures
        from <= free_from(entries, from) <= 4294967295,
        forall|v: int| from <= v < free_from(entries, from) ==> #[trigger] in_use(entries, v),
        free_from(entries, from) < 4294967295 ==> !in_use(entries, free_from(entries, from)),
    decreases 4294967295 - from,
{
    if from < 4294967295 && in_use(entries, from) {
        lemma_free_from(entries, from + 1);
    }
}

/// Where all numbers below `n` are in use, there are at least `n` entries.
proof fn lemma_pigeonhole(entries: Seq<EntryModel>, n: int)
    requires
        0 <= n,
        forall|v: int| 0 <= v < n ==> #[trigger] in_use(entries, v),
    ensures
        n <= entries.len(),
{
    let versions = entries.map_values(|e: EntryModel| e.version as int);
    let all = vstd::set_lib::set_int_range(0, n);
    vstd::set_lib::lemma_int_range(0, n);
    versions.lemma_cardinality_of_set();
    vstd::seq_lib::seq_to_set_is_finite(versions);
    assert(all.subset_of(versions.to_set())) by {
        assert forall|v: int| all.contains(v) implies versions.to_set().contains(v) by {
            assert(in_use(entries, v));
            let j = choose|j: int|
                0 <= j < entries.len() && (#[trigger] entries[j]).version == v;
            assert(versions[j] == v);
        }
    }
    vstd::set_lib::lemma_len_subset(all, versions.to_set());
}

/// A flush never writes a file that stands: the version of the next segment is not in use, and its
/// file is none of those that are named after their versions.
pub proof fn law_next_segment_is_new(entries: Seq<EntryModel>, cid: u32, j: int)
    requires
        entries.len() <= u32::MAX,
        0 <= j < entries.len(),
    ensures
        next_version(entries) != entries[j].version,
        filename_of(cid, next_version(entries)) != filename_of(cid, entries[j].version),
{
    lemma_newest_is_newest(entries, j);
    if newest(entries) == u32::MAX {
        lemma_free_from(entries, 0);
        lemma_newest_is_in_use(entries);
        if free_from(entries, 0) == 4294967295 {
            assert forall|v: int| 0 <= v < 4294967296 implies #[trigger] in_use(entries, v) by {}
            lemma_pigeonhole(entries, 4294967296);
        }
        if next_version(entries) == entries[j].version {
            assert(in_use(entries, free_from(entries, 0)));
        }
    }
    if filename_of(cid, next_version(entries)) == filename_of(cid, entries[j].version) {
        law_segment_filenames_differ(cid, next_version(entries), cid, entries[j].version);
    }
}

/// Whether the files of a map are named after their clusters and versions.
pub open spec fn named(map: Map<u32, Seq<EntryModel>>) -> bool {
    forall|key: u32, j: int|
        map.contains_key(key) && 0 <= j < map[key].len() ==> (#[trigger] map[key][j]).filename
            == filename_of(key, map[key][j].version)
}

proof fn lemma_flushed_named(
    map: Map<u32, Seq<EntryModel>>,
    m: IndexModel,
    new_only: bool,
    dirty: Seq<u32>,
    n: int,
)
    requires
        named(map),
    ensures
        named(flushed_map(map, m, new_only, dirty, n)),
    decreases n,
{
    if n > 0 {
        lemma_flushed_named(map, m, new_only, dirty, n - 1);
        let before = flushed_map(map, m, new_only, dirty, n - 1);
        let after = flushed_map(map, m, new_only, dirty, n);
        let cid = dirty[n - 1];
        assert forall|key: u32, j: int|
            after.contains_key(key) && 0 <= j < after[key].len() implies (
        #[trigger] after[key][j]).filename == filename_of(key, after[key][j].version) by {
            if key != cid || j < entries_of(before, cid).len() {
                assert(before.contains_key(key));
                assert(after[key][j] == before[key][j]);
            }
        }
    }
}

/// A flush leaves all files that stand as they are: file `i` of a flush is none that the map names
/// before it, so neither one that stood nor one that the same flush has written. The map that is
/// left names its files in the same way.
pub proof fn law_flushed_files_are_new(
    map: Map<u32, Seq<EntryModel>>,
    m: IndexModel,
    new_only: bool,
    dirty: Seq<u32>,
    i: int,
    key: u32,
    j: int,
)
    requires
        named(map),
        0 <= i < dirty.len() <= u32::MAX,
        forall|k: u32| #[trigger] map.contains_key(k) ==> map[k].len() + dirty.len() <= u32::MAX,
        flushed_map(map, m, new_only, dirty, i).contains_key(key),
        0 <= j < flushed_map(map, m, new_only, dirty, i)[key].len(),
    ensures
        ({
            let before = flushed_map(map, m, new_only, dirty, i);
            filename_of(dirty[i], next_version(entries_of(before, dirty[i])))
                != before[key][j].filename
        }),
        named(flushed_map(map, m, new_only, dirty, i + 1)),
{
    let cid = dirty[i];
    let before = flushed_map(map, m, new_only, dirty, i);
    let entries = entries_of(before, cid);
    lemma_flushed_named(map, m, new_only, dirty, i);
    lemma_flushed_named(map, m, new_only, dirty, i + 1);
    law_flush_only_adds(map, m, new_only, dirty, i, cid);
    let old = before[key][j];
    assert(old.filename == filename_of(key, old.version));
    if filename_of(cid, next_version(entries)) == filename_of(key, old.version) {
        law_segment_filenames_differ(cid, next_version(entries), key, old.version);
        law_next_segment_is_new(entries, cid, j);
    }
}

// ----------------------------------------------------------------------------
// What is left is read
// ----------------------------------------------------------------------------

/// The manifest of a flush reads back as the header of the index and the flushed map, as long as
/// the numbers of clusters and of segments fit the format.
pub proof fn law_flushed_manifest_reads_back(
    map: Map<u32, Seq<EntryModel>>,
    m: IndexModel,
    new_only: bool,
    dirty: Seq<u32>,
)
    requires
        m.dim <= u32::MAX,
        m.padded_dim <= u32::MAX,
        m.ex_bits < u8::MAX,
        m.rotator_data.len() <= usize::MAX,
        map_fits(map, false),
        dirty.len() <= u32::MAX,
        forall|k: u32| #[trigger] map.contains_key(k) ==> map[k].len() + dirty.len() <= u32::MAX,
        key_order(flushed_map(map, m, new_only, dirty, dirty.len() as int).dom()).len() <= u32::MAX,
    ensures
        manifest_of_bytes(
            manifest_bytes(
                header_of(m),
                flushed_map(map, m, new_only, dirty, dirty.len() as int),
                false,
            ),
        ) == Ok::<(ManifestHeaderModel, Map<u32, Seq<EntryModel>>), RabitqError>(
            (header_of(m), flushed_map(map, m, new_only, dirty, dirty.len() as int)),
        ),
{
    let n = dirty.len() as int;
    let after = flushed_map(map, m, new_only, dirty, n);
    assert forall|key: u32| after.contains_key(key) implies entries_fit(
        key,
        #[trigger] after[key],
    ) by {
        law_flush_only_adds(map, m, new_only, dirty, n, key);
        lemma_flushed_entries_fit(map, m, new_only, dirty, n, key);
    }
    law_manifest_round_trip(header_of(m), after, false, Seq::empty());
    let bytes = manifest_bytes(header_of(m), after, false);
    assert(bytes + Seq::<u8>::empty() =~= bytes);
}

proof fn lemma_flushed_entries_fit(
    map: Map<u32, Seq<EntryModel>>,
    m: IndexModel,
    new_only: bool,
    dirty: Seq<u32>,
    n: int,
    key: u32,
)
    requires
        map_fits(map, false),
        0 <= n <= dirty.len(),
    ensures
        ({
            let after = entries_of(flushed_map(map, m, new_only, dirty, n), key);
            forall|i: int|
                0 <= i < after.len() ==> {
                    &&& (#[trigger] after[i]).cluster_id == key
                    &&& encode_utf8(after[i].filename).len() <= u32::MAX
                }
        }),
    decreases n,
{
    if n <= 0 {
        if map.contains_key(key) {
            assert(entries_fit(key, map[key]));
        }
    } else {
        lemma_flushed_entries_fit(map, m, new_only, dirty, n - 1, key);
        let before = entries_of(flushed_map(map, m, new_only, dirty, n - 1), key);
        let after = entries_of(flushed_map(map, m, new_only, dirty, n), key);
        lemma_filename_fits(key, next_version(before));
        assert forall|i: int| 0 <= i < after.len() implies {
            &&& (#[trigger] after[i]).cluster_id == key
            &&& encode_utf8(after[i].filename).len() <= u32::MAX
        } by {
            if i < before.len() {
                assert(after[i] == before[i]);
            }
        }
    }
}

// ----------------------------------------------------------------------------
// What is left loads as the index
// ----------------------------------------------------------------------------

/// Whether segments are those of entries: as many, with as many vectors each.
pub open spec fn segments_of(entries: Seq<EntryModel>, segments: Seq<LoadedModel>) -> bool {
    &&& entries.len() == segments.len()
    &&& forall|i: int|
        0 <= i < entries.len() ==> (#[trigger] entries[i]).num_vectors == segments[i].num_vectors
}

/// Whether the segments of a cluster stand for `c`.
pub open spec fn stand_for(segments: Seq<LoadedModel>, c: ClusterModel) -> bool {
    &&& segments_hold(segments, c.padded_dim, c.ex_bits, segments.len() as int)
    &&& join_fault(segments, c.padded_dim, c.ex_bits) is None
    &&& joins(c, segments, c.padded_dim, c.ex_bits, segments.len() as int)
}

/// The new segment of a cluster as it is read back.
pub open spec fn next_loaded(
    entries: Seq<EntryModel>,
    m: IndexModel,
    new_only: bool,
    cid: u32,
) -> LoadedModel {
    LoadedModel {
        num_vectors: next_entry(entries, m, new_only, cid).num_vectors,
        data: next_segment(entries, m, new_only, cid),
    }
}

proof fn lemma_held(entries: Seq<EntryModel>, segments: Seq<LoadedModel>)
    requires
        segments_of(entries, segments),
        segments.len() > 0,
    ensures
        held(entries) == segments[0].num_vectors + delta_count(segments, segments.len() as int),
    decreases entries.len(),
{
    let n = entries.len() as int;
    assert(entries[n - 1].num_vectors == segments[n - 1].num_vectors);
    if n == 1 {
        assert(held(entries.drop_last()) == 0);
        assert(delta_count(segments, 1) == 0);
    } else {
        let e = entries.drop_last();
        let s = segments.drop_last();
        assert forall|i: int| 0 <= i < e.len() implies (#[trigger] e[i]).num_vectors
            == s[i].num_vectors by {
            assert(entries[i].num_vectors == segments[i].num_vectors);
        }
        lemma_held(e, s);
        lemma_prefix(s, segments.last(), 0, 0, n - 1);
        assert(s.push(segments.last()) =~= segments);
    }
}

/// One segment more changes nothing about the first `n`.
proof fn lemma_prefix(
    segments: Seq<LoadedModel>,
    more: LoadedModel,
    padded_dim: usize,
    ex_bits: usize,
    n: int,
)
    requires
        1 <= n <= segments.len(),
    ensures
        delta_count(segments.push(more), n) == delta_count(segments, n),
        joined_ids(segments.push(more), n) == joined_ids(segments, n),
        joined_vectors(segments.push(more), padded_dim, ex_bits, n) == joined_vectors(
            segments,
            padded_dim,
            ex_bits,
            n,
        ),
        joined_bytes(segments.push(more), padded_dim, ex_bits, n) == joined_bytes(
            segments,
            padded_dim,
            ex_bits,
            n,
        ),
    decreases n,
{
    assert(segments.push(more)[0] == segments[0]);
    if n > 1 {
        lemma_prefix(segments, more, padded_dim, ex_bits, n - 1);
        assert(segments.push(more)[n - 1] == segments[n - 1]);
    }
}

/// What a delta holds: it is well formed, and slot by slot and vector by vector what the cluster
/// has from `from` on.
#[verifier::rlimit(30)]
proof fn lemma_delta(c: ClusterModel, from: int)
    requires
        c.well_formed(),
        0 <= from <= c.num_vectors,
        c.ex_bits == 0 ==> c.plain_from(from),
    ensures
        delta_of(c, from).well_formed(),
        delta_of(c, from).slots_from(0) == c.slots_from(from),
        stored_all(slot_vectors(delta_of(c, from)), c.padded_dim, c.ex_bits)
            == c.packed_vectors().subrange(from, c.num_vectors as int),
{
    let d = delta_of(c, from);
    let pd = c.padded_dim as int;
    let n = c.num_vectors as int;
    assert(0 * stride(pd) == 0);
    if from > 0 {
        lemma_slots_written(Seq::empty(), pd, 0, c.slots_from(from));
    }
    assert(d.well_formed());
    assert forall|i: int| 0 <= i < n - from implies #[trigger] d.slot(i) == c.slot(from + i) by {
        if from > 0 {
            assert(d.slot(i) == c.slots_from(from)[i]);
        }
    }
    assert(d.slots_from(0) =~= c.slots_from(from));
    let all = stored_all(slot_vectors(d), c.padded_dim, c.ex_bits);
    let target = c.packed_vectors().subrange(from, n);
    assert forall|i: int| 0 <= i < n - from implies all[i] == target[i] by {
        assert(d.slot(i) == c.slot(from + i));
        assert(d.ex_codes[i] == c.ex_codes[from + i]);
        if c.ex_bits == 0 {
            assert(c.ex_codes[from + i].len() == 0);
            assert(c.ex_codes[from + i] =~= Seq::empty());
        }
        assert(all[i] =~= c.packed(from + i));
    }
    assert(all =~= target);
}

/// What a cluster has from one that it grew out of.
#[verifier::rlimit(30)]
proof fn lemma_grown_vectors(b: ClusterModel, c: ClusterModel)
    requires
        c.grew_from(b),
    ensures
        c.packed_vectors() == b.packed_vectors() + c.packed_vectors().subrange(
            b.num_vectors as int,
            c.num_vectors as int,
        ),
        c.ids == b.ids + c.ids.subrange(b.num_vectors as int, c.num_vectors as int),
        b.zero_padded() ==> c.zero_padded(),
{
    let n = b.num_vectors as int;
    let pd = b.padded_dim as int;
    let new = c.slots_from(n);
    lemma_slots_written(b.batch_data, pd, n, new);
    assert forall|k: int| 0 <= k < n implies c.packed(k) == b.packed(k) by {
        assert(c.slot(k) == b.slot(k));
        assert(c.ex_codes.take(n)[k] == b.ex_codes[k]);
        assert(c.f_add_ex.take(n)[k] == b.f_add_ex[k]);
        assert(c.f_rescale_ex.take(n)[k] == b.f_rescale_ex[k]);
        assert(c.delta.take(n)[k] == b.delta[k]);
        assert(c.vl.take(n)[k] == b.vl[k]);
    }
    assert(c.packed_vectors() =~= b.packed_vectors() + c.packed_vectors().subrange(
        n,
        c.num_vectors as int,
    ));
    assert(c.ids =~= c.ids.take(n) + c.ids.subrange(n, c.num_vectors as int));
    if b.zero_padded() {
        assert forall|k: int|
            c.num_vectors <= k < 32 * batches(c.num_vectors as int) implies #[trigger] c.slot(k)
            == zero_slot(c.padded_dim as int) by {
            if k < 32 * batches(n) {
                assert(b.slot(k) == zero_slot(pd));
            }
        }
    }
}

#[verifier::rlimit(30)]
proof fn lemma_delta_joins(
    segments: Seq<LoadedModel>,
    b: ClusterModel,
    c: ClusterModel,
    cid: u32,
    more: LoadedModel,
)
    requires
        cluster_fits_v4(c),
        c.grew_from(b),
        segments.len() > 0,
        stand_for(segments, b),
        more.num_vectors == c.num_vectors - b.num_vectors,
        more.data == segment_of(
            cid,
            delta_of(c, b.num_vectors as int),
            c.padded_dim,
            c.ex_bits,
        ),
    ensures
        joins(
            c,
            segments.push(more),
            c.padded_dim,
            c.ex_bits,
            segments.push(more).len() as int,
        ),
{
    let pd = c.padded_dim;
    let eb = c.ex_bits;
    let k = segments.len() as int;
    let n = b.num_vectors as int;
    let all = segments.push(more);
    let d = delta_of(c, n);
    lemma_delta(c, n);
    lemma_grown_vectors(b, c);
    lemma_prefix(segments, more, pd, eb, k);
    assert(cluster_of(more, pd, eb) =~= d);
    assert(all[k] == more && all[0] == segments[0]);
    assert(c.pending =~= Seq::empty() && c.pending_ids =~= Seq::empty());
    assert(delta_count(segments, 1) == 0);
    assert(n == segments[0].num_vectors + delta_count(segments, k));
    assert(delta_count(all, k + 1) == delta_count(all, k) + more.num_vectors);
    assert(joined_ids(all, k + 1) == joined_ids(all, k) + more.data.ids);
    assert(joined_vectors(all, pd, eb, k + 1) == joined_vectors(all, pd, eb, k) + stored_all(
        slot_vectors(cluster_of(more, pd, eb)),
        pd,
        eb,
    ));
    assert(joined_bytes(all, pd, eb, k + 1) == with_slots(
        joined_bytes(all, pd, eb, k),
        pd as int,
        all[0].num_vectors + delta_count(all, k),
        cluster_of(more, pd, eb).slots_from(0),
    ));
}

/// Base and deltas load as the cluster: where the segments of a cluster stand for what it grew out
/// of, they stand, with the segment of its new vectors behind them, for the cluster. A cluster
/// without segments is saved as a whole. The new segment file reads back as the segment.
#[verifier::rlimit(30)]
pub proof fn law_load_of_delta(
    entries: Seq<EntryModel>,
    segments: Seq<LoadedModel>,
    b: ClusterModel,
    m: IndexModel,
    cid: u32,
)
    requires
        fits_v4(m),
        cid < m.clusters.len(),
        segments_of(entries, segments),
        segments.len() > 0 ==> stand_for(segments, b) && m.clusters[cid as int].grew_from(b),
    ensures
        segments_of(
            entries.push(next_entry(entries, m, false, cid)),
            segments.push(next_loaded(entries, m, false, cid)),
        ),
        stand_for(segments.push(next_loaded(entries, m, false, cid)), m.clusters[cid as int]),
        segment_of_bytes(segment_bytes(next_segment(entries, m, false, cid), next_version(entries)))
            == Ok::<SegmentModel, RabitqError>(next_segment(entries, m, false, cid)),
{
    let c = m.clusters[cid as int];
    let pd = c.padded_dim;
    let eb = c.ex_bits;
    let k = segments.len() as int;
    let more = next_loaded(entries, m, false, cid);
    let all = segments.push(more);
    let from = saved_count(entries, c);
    assert(cluster_fits_v4(c));
    assert(pd == m.padded_dim && eb == m.ex_bits);
    let longer = entries.push(next_entry(entries, m, false, cid));
    assert forall|i: int| 0 <= i < longer.len() implies (#[trigger] longer[i]).num_vectors
        == all[i].num_vectors by {
        if i < k {
            assert(longer[i] == entries[i] && all[i] == segments[i]);
        }
    }
    if k == 0 {
        assert(held(entries) == 0);
        assert(from == 0);
        assert(delta_of(c, 0) =~= c);
        assert(cluster_of(more, pd, eb) =~= c);
        assert(segments_hold(all, pd, eb, 1)) by {
            assert(all[0] == more);
        }
    } else {
        lemma_held(entries, segments);
        assert(delta_count(segments, 1) == 0);
        assert(from == b.num_vectors);
        lemma_delta(c, from);
        assert(cluster_of(more, pd, eb) =~= delta_of(c, from));
        lemma_delta_joins(segments, b, c, cid, more);
        assert forall|i: int| 0 <= i < k + 1 implies cluster_of(
            #[trigger] all[i],
            pd,
            eb,
        ).well_formed() by {
            if i < k {
                assert(all[i] == segments[i]);
            }
        }
        lemma_prefix(segments, more, pd, eb, k);
        assert(delta_count(all, k + 1) == delta_count(all, k) + more.num_vectors);
        assert(all[0] == segments[0]);
        let base = cluster_of(all[0], pd, eb);
        assert(base.num_vectors + delta_count(all, k + 1) == c.num_vectors);
        lemma_room_for_part(c.num_vectors as int, c.num_vectors as int, pd as int);
    }
    lemma_delta_fits(c, from);
    lemma_segment_reads_back(cid, next_version(entries), delta_of(c, from), pd, eb);
}

/// New vectors load behind those that are saved: where the segments of a cluster stand for `b`,
/// they stand, with the segment of an index of new vectors behind them, for what `b` holds and
/// then these.
#[verifier::rlimit(30)]
pub proof fn law_load_of_inserted(
    entries: Seq<EntryModel>,
    segments: Seq<LoadedModel>,
    b: ClusterModel,
    m: IndexModel,
    cid: u32,
    loaded: ClusterModel,
)
    requires
        fits_v4(m),
        cid < m.clusters.len(),
        segments.len() > 0,
        stand_for(segments, b),
        b.padded_dim == m.padded_dim,
        b.ex_bits == m.ex_bits,
        b.has_room(m.clusters[cid as int].num_vectors as int),
        m.ex_bits == 0 ==> m.clusters[cid as int].plain_from(0),
    ensures
        ({
            let c = m.clusters[cid as int];
            let all = segments.push(next_loaded(entries, m, true, cid));
            &&& segment_of_bytes(
                segment_bytes(next_segment(entries, m, true, cid), next_version(entries)),
            ) == Ok::<SegmentModel, RabitqError>(next_segment(entries, m, true, cid))
            &&& join_fault(all, m.padded_dim, m.ex_bits) is None
            &&& joins(loaded, all, m.padded_dim, m.ex_bits, all.len() as int) ==> {
                &&& loaded.centroid == b.centroid
                &&& loaded.ids == b.ids + c.ids
                &&& loaded.packed_vectors() == b.packed_vectors() + c.packed_vectors()
            }
        }),
{
    let c = m.clusters[cid as int];
    let pd = m.padded_dim;
    let eb = m.ex_bits;
    let more = next_loaded(entries, m, true, cid);
    assert(cluster_fits_v4(c));
    assert(c.padded_dim == pd && c.ex_bits == eb);
    assert(delta_of(c, 0) =~= c);
    assert(cluster_of(more, pd, eb) =~= c);
    lemma_inserted_fits(segments, b, c, more);
    let all = segments.push(more);
    if joins(loaded, all, pd, eb, all.len() as int) {
        lemma_inserted_vectors(segments, b, c, more, loaded);
    }
    lemma_segment_reads_back(cid, next_version(entries), c, pd, eb);
}

proof fn lemma_inserted_fits(
    segments: Seq<LoadedModel>,
    b: ClusterModel,
    c: ClusterModel,
    more: LoadedModel,
)
    requires
        segments.len() > 0,
        stand_for(segments, b),
        c.well_formed(),
        c.padded_dim == b.padded_dim,
        c.ex_bits == b.ex_bits,
        cluster_of(more, c.padded_dim, c.ex_bits) == c,
        b.has_room(c.num_vectors as int),
    ensures
        join_fault(segments.push(more), c.padded_dim, c.ex_bits) is None,
{
    let pd = c.padded_dim;
    let eb = c.ex_bits;
    let k = segments.len() as int;
    let all = segments.push(more);
    lemma_prefix(segments, more, pd, eb, k);
    assert(all[k] == more && all[0] == segments[0]);
    assert(delta_count(segments, 1) == 0);
    assert(delta_count(all, k + 1) == delta_count(all, k) + more.num_vectors);
    assert(b.num_vectors == segments[0].num_vectors + delta_count(segments, k));
    assert forall|i: int| 0 <= i < k + 1 implies cluster_of(
        #[trigger] all[i],
        pd,
        eb,
    ).well_formed() by {
        if i < k {
            assert(all[i] == segments[i]);
        }
    }
}

proof fn lemma_inserted_vectors(
    segments: Seq<LoadedModel>,
    b: ClusterModel,
    c: ClusterModel,
    more: LoadedModel,
    loaded: ClusterModel,
)
    requires
        segments.len() > 0,
        stand_for(segments, b),
        c.well_formed(),
        c.padded_dim == b.padded_dim,
        c.ex_bits == b.ex_bits,
        c.ex_bits == 0 ==> c.plain_from(0),
        cluster_of(more, c.padded_dim, c.ex_bits) == c,
        delta_of(c, 0) == c,
        joins(
            loaded,
            segments.push(more),
            c.padded_dim,
            c.ex_bits,
            segments.push(more).len() as int,
        ),
    ensures
        loaded.centroid == b.centroid,
        loaded.ids == b.ids + c.ids,
        loaded.packed_vectors() == b.packed_vectors() + c.packed_vectors(),
{
    let pd = c.padded_dim;
    let eb = c.ex_bits;
    let k = segments.len() as int;
    let all = segments.push(more);
    lemma_delta(c, 0);
    assert(c.packed_vectors().subrange(0, c.num_vectors as int) =~= c.packed_vectors());
    lemma_prefix(segments, more, pd, eb, k);
    assert(all[k] == more && all[0] == segments[0]);
    assert(joined_ids(all, k + 1) == joined_ids(all, k) + more.data.ids);
    assert(joined_vectors(all, pd, eb, k + 1) == joined_vectors(all, pd, eb, k) + stored_all(
        slot_vectors(cluster_of(more, pd, eb)),
        pd,
        eb,
    ));
    assert(more.data.ids == c.ids);
}

proof fn lemma_delta_fits(c: ClusterModel, from: int)
    requires
        cluster_fits_v4(c),
        0 <= from <= c.num_vectors,
    ensures
        cluster_fits_v4(delta_of(c, from)),
{
    let d = delta_of(c, from);
    let pd = c.padded_dim as int;
    let n = c.num_vectors as int;
    assert(0 * stride(pd) == 0);
    if from > 0 {
        lemma_slots_written(Seq::empty(), pd, 0, c.slots_from(from));
    }
    lemma_room_for_part(n, n - from, pd);
    assert(d.well_formed());
    assert forall|i: int| 0 <= i < d.ex_codes.len() implies (#[trigger] d.ex_codes[i]).len()
        <= usize::MAX by {
        assert(d.ex_codes[i] == c.ex_codes[from + i]);
    }
}

/// The segments of all clusters after the first `n` dirty ones have been flushed, as they are read
/// back.
pub open spec fn flushed_segments(
    segments: Seq<Seq<LoadedModel>>,
    map: Map<u32, Seq<EntryModel>>,
    m: IndexModel,
    dirty: Seq<u32>,
    n: int,
) -> Seq<Seq<LoadedModel>>
    decreases n,
{
    if n <= 0 {
        segments
    } else {
        let before = flushed_segments(segments, map, m, dirty, n - 1);
        let cid = dirty[n - 1];
        let entries = entries_of(flushed_map(map, m, false, dirty, n - 1), cid);
        before.update(cid as int, before[cid as int].push(next_loaded(entries, m, false, cid)))
    }
}

/// Whether saved files are those of an index that `m` grew out of: for each cluster, the segments
/// are those of its entries, and stand for `base`, out of which the cluster of `m` has grown. A
/// cluster may have no segments yet.
pub open spec fn saved_before(
    segments: Seq<Seq<LoadedModel>>,
    map: Map<u32, Seq<EntryModel>>,
    base: Seq<ClusterModel>,
    m: IndexModel,
) -> bool {
    &&& segments.len() == m.clusters.len()
    &&& base.len() == m.clusters.len()
    &&& forall|c: int|
        0 <= c < segments.len() ==> {
            &&& segments_of(entries_of(map, c as u32), #[trigger] segments[c])
            &&& segments[c].len() > 0 ==> stand_for(segments[c], base[c])
                && m.clusters[c].grew_from(base[c])
        }
}

proof fn lemma_flushed_stand(
    segments: Seq<Seq<LoadedModel>>,
    map: Map<u32, Seq<EntryModel>>,
    base: Seq<ClusterModel>,
    m: IndexModel,
    dirty: Seq<u32>,
    n: int,
    c: int,
)
    requires
        fits_v4(m),
        saved_before(segments, map, base, m),
        0 <= n <= dirty.len(),
        forall|i: int| 0 <= i < dirty.len() ==> (#[trigger] dirty[i]) < m.clusters.len(),
        0 <= c < m.clusters.len(),
    ensures
        flushed_segments(segments, map, m, dirty, n).len() == segments.len(),
        segments_of(
            entries_of(flushed_map(map, m, false, dirty, n), c as u32),
            flushed_segments(segments, map, m, dirty, n)[c],
        ),
        dirty.take(n).contains(c as u32) ==> stand_for(
            flushed_segments(segments, map, m, dirty, n)[c],
            m.clusters[c],
        ) && flushed_segments(segments, map, m, dirty, n)[c].len() > 0,
        !dirty.take(n).contains(c as u32) ==> flushed_segments(segments, map, m, dirty, n)[c]
            == segments[c],
    decreases n,
{
    let key = c as u32;
    if n > 0 {
        lemma_flushed_stand(segments, map, base, m, dirty, n - 1, c);
        let before = flushed_segments(segments, map, m, dirty, n - 1);
        let entries = entries_of(flushed_map(map, m, false, dirty, n - 1), key);
        let few = dirty.take(n - 1);
        let all = dirty.take(n);
        assert(all[n - 1] == dirty[n - 1]);
        if few.contains(key) {
            let j = choose|j: int| 0 <= j < few.len() && few[j] == key;
            assert(all[j] == key);
        }
        if all.contains(key) && key != dirty[n - 1] {
            let j = choose|j: int| 0 <= j < all.len() && all[j] == key;
            assert(few[j] == key);
        }
        if dirty[n - 1] == key {
            assert(cluster_fits_v4(m.clusters[c]));
            let b = if few.contains(key) {
                m.clusters[c]
            } else {
                base[c]
            };
            if few.contains(key) {
                law_growth_is_reflexive(m.clusters[c]);
            }
            law_load_of_delta(entries, before[c], b, m, key);
        }
    } else {
        assert(dirty.take(0) =~= Seq::empty());
    }
}

/// Segments stand for one cluster only.
proof fn lemma_join_is_unique(
    a: ClusterModel,
    b: ClusterModel,
    segments: Seq<LoadedModel>,
    padded_dim: usize,
    ex_bits: usize,
)
    requires
        joins(a, segments, padded_dim, ex_bits, segments.len() as int),
        joins(b, segments, padded_dim, ex_bits, segments.len() as int),
    ensures
        a == b,
{
    if segments.len() > 1 {
        assert forall|i: int| 0 <= i < a.num_vectors implies {
            &&& #[trigger] a.ex_codes[i] == b.ex_codes[i]
            &&& a.f_add_ex[i] == b.f_add_ex[i]
            &&& a.f_rescale_ex[i] == b.f_rescale_ex[i]
            &&& a.delta[i] == b.delta[i]
            &&& a.vl[i] == b.vl[i]
        } by {
            assert(a.packed_vectors()[i] == b.packed_vectors()[i]);
            lemma_packed_tells(a, i, b, i);
        }
        assert(a.ex_codes =~= b.ex_codes);
        assert forall|i: int| 0 <= i < a.num_vectors implies #[trigger] a.f_add_ex[i]
            == b.f_add_ex[i] by {
            assert(a.ex_codes[i] == b.ex_codes[i]);
        }
        assert(a.f_add_ex =~= b.f_add_ex);
        assert forall|i: int| 0 <= i < a.num_vectors implies #[trigger] a.f_rescale_ex[i]
            == b.f_rescale_ex[i] by {
            assert(a.ex_codes[i] == b.ex_codes[i]);
        }
        assert(a.f_rescale_ex =~= b.f_rescale_ex);
        assert forall|i: int| 0 <= i < a.num_vectors implies #[trigger] a.delta[i]
            == b.delta[i] by {
            assert(a.ex_codes[i] == b.ex_codes[i]);
        }
        assert(a.delta =~= b.delta);
        assert forall|i: int| 0 <= i < a.num_vectors implies #[trigger] a.vl[i] == b.vl[i] by {
            assert(a.ex_codes[i] == b.ex_codes[i]);
        }
        assert(a.vl =~= b.vl);
        assert(a =~= b);
    }
}

proof fn lemma_no_fault(
    clusters: Seq<Seq<LoadedModel>>,
    padded_dim: usize,
    ex_bits: usize,
    from: int,
)
    requires
        0 <= from,
        forall|c: int|
            0 <= c < clusters.len() ==> join_fault(
                #[trigger] clusters[c],
                padded_dim,
                ex_bits,
            ) is None,
    ensures
        load_fault(clusters, padded_dim, ex_bits, from) is None,
    decreases clusters.len() - from,
{
    if from < clusters.len() {
        lemma_no_fault(clusters, padded_dim, ex_bits, from + 1);
    }
}

/// The files that a flush leaves load as the index: where the saved files are those of what the
/// index grew out of, and every cluster that differs from what its segments stand for is dirty,
/// the manifest and the segments, old and new, load without a fault, and as nothing but the index.
/// The next flush can start from there.
#[verifier::rlimit(30)]
pub proof fn law_load_of_flush(
    segments: Seq<Seq<LoadedModel>>,
    map: Map<u32, Seq<EntryModel>>,
    base: Seq<ClusterModel>,
    m: IndexModel,
    dirty: Seq<u32>,
    loaded: IndexModel,
)
    requires
        fits_v4(m),
        saved_before(segments, map, base, m),
        forall|i: int| 0 <= i < dirty.len() ==> (#[trigger] dirty[i]) < m.clusters.len(),
        forall|c: int|
            0 <= c < m.clusters.len() && !dirty.contains(c as u32) ==> (
            #[trigger] segments[c]).len() > 0 && m.clusters[c] == base[c],
    ensures
        load_fault(
            flushed_segments(segments, map, m, dirty, dirty.len() as int),
            m.padded_dim,
            m.ex_bits,
            0,
        ) is None,
        loads(m, header_of(m), flushed_segments(segments, map, m, dirty, dirty.len() as int)),
        loads(loaded, header_of(m), flushed_segments(segments, map, m, dirty, dirty.len() as int))
            ==> loaded == m,
        saved_before(
            flushed_segments(segments, map, m, dirty, dirty.len() as int),
            flushed_map(map, m, false, dirty, dirty.len() as int),
            m.clusters,
            m,
        ),
{
    let n = dirty.len() as int;
    let after = flushed_segments(segments, map, m, dirty, n);
    assert(dirty.take(n) =~= dirty);
    lemma_flushed_len(segments, map, m, dirty, n);
    assert forall|c: int| 0 <= c < m.clusters.len() implies stand_for(
        #[trigger] after[c],
        m.clusters[c],
    ) by {
        lemma_flushed_stand(segments, map, base, m, dirty, n, c);
        assert(segments_of(entries_of(map, c as u32), segments[c]));
    }
    assert forall|c: int| 0 <= c < after.len() implies join_fault(
        #[trigger] after[c],
        m.padded_dim,
        m.ex_bits,
    ) is None by {
        assert(stand_for(after[c], m.clusters[c]));
        assert(m.clusters[c].well_formed());
    }
    lemma_no_fault(after, m.padded_dim, m.ex_bits, 0);
    assert forall|c: int| 0 <= c < after.len() implies joins(
        #[trigger] m.clusters[c],
        after[c],
        m.padded_dim,
        m.ex_bits,
        after[c].len() as int,
    ) by {
        assert(stand_for(after[c], m.clusters[c]));
    }
    assert forall|c: int| 0 <= c < after.len() implies {
        &&& segments_of(
            entries_of(flushed_map(map, m, false, dirty, n), c as u32),
            #[trigger] after[c],
        )
        &&& stand_for(after[c], m.clusters[c])
        &&& m.clusters[c].grew_from(m.clusters[c])
    } by {
        lemma_flushed_stand(segments, map, base, m, dirty, n, c);
        assert(stand_for(after[c], m.clusters[c]));
        assert(m.clusters[c].well_formed());
        law_growth_is_reflexive(m.clusters[c]);
    }
    if loads(loaded, header_of(m), after) {
        assert forall|c: int| 0 <= c < m.clusters.len() implies loaded.clusters[c]
            == m.clusters[c] by {
            assert(joins(m.clusters[c], after[c], m.padded_dim, m.ex_bits, after[c].len() as int));
            lemma_join_is_unique(
                loaded.clusters[c],
                m.clusters[c],
                after[c],
                m.padded_dim,
                m.ex_bits,
            );
        }
        assert(loaded.clusters =~= m.clusters);
        assert(loaded =~= m);
    }
}

/// Flushing can start from a saved index: its files are those that it grows out of.
pub proof fn law_flush_starts_from_save(m: IndexModel)
    requires
        fits_v4(m),
    ensures
        saved_before(
            saved_segments(m),
            saved_map(m, m.clusters.len() as int),
            m.clusters,
            m,
        ),
{
    let map = saved_map(m, m.clusters.len() as int);
    let segments = saved_segments(m);
    assert forall|c: int| 0 <= c < segments.len() implies {
        &&& segments_of(entries_of(map, c as u32), #[trigger] segments[c])
        &&& stand_for(segments[c], m.clusters[c])
        &&& m.clusters[c].grew_from(m.clusters[c])
    } by {
        let cl = m.clusters[c];
        assert(cluster_fits_v4(cl));
        assert(m.clusters[c].well_formed() && cl.padded_dim == m.padded_dim);
        law_growth_is_reflexive(cl);
        lemma_saved_segment(m, c);
        assert(segments_hold(segments[c], cl.padded_dim, cl.ex_bits, 1));
    }
}

proof fn lemma_flushed_len(
    segments: Seq<Seq<LoadedModel>>,
    map: Map<u32, Seq<EntryModel>>,
    m: IndexModel,
    dirty: Seq<u32>,
    n: int,
)
    requires
        0 <= n <= dirty.len(),
        forall|i: int| 0 <= i < dirty.len() ==> (#[trigger] dirty[i]) < segments.len(),
    ensures
        flushed_segments(segments, map, m, dirty, n).len() == segments.len(),
    decreases n,
{
    if n > 0 {
        lemma_flushed_len(segments, map, m, dirty, n - 1);
        assert(dirty[n - 1] < segments.len());
    }
}

} // verus!
