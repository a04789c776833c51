//! The manifest of an index that is kept as one file per segment.
//!
//! The manifest names the segments of each cluster: a base segment and the segments that were
//! added to it. Version 1 of the format knows one segment per cluster; it is still read.
use crate::bytes::{
    eof, le32, le64, lemma_file_parts, lemma_prefix_stands, lemma_read_le32, lemma_read_le64,
    lemma_stands_split, read_bytes, read_u32, read_u64, read_u8, stands_at, u32_at, u64_at,
    write_bytes, write_u32, write_u64,
};
use crate::checksum::{crc32, crc32_of, law_checksum_tells_one_byte};
use crate::decimal::{
    decimal4, is_digit, lemma_decimal4_value, push_decimal4,
};
use crate::error::RabitqError;
use crate::persist::broken;
use crate::types::{
    metric_of_tag, metric_tag, metric_to_tag, rotator_of_tag, rotator_tag, tag_to_metric, Metric,
    RotatorType,
};
use std::collections::BTreeMap;
use vstd::prelude::*;
use vstd::std_specs::cmp::OrdSpec;
use vstd::std_specs::iter::IteratorSpec;
use vstd::utf8::{decode_utf8, encode_utf8, valid_utf8};

verus! {

/// The four bytes that open a manifest.
pub const V4_MANIFEST_MAGIC: [u8; 4] = [82, 66, 81, 51];

/// The version of manifests that are written.
pub const V4_MANIFEST_VERSION: u32 = 2;

/// The version of manifests with one segment per cluster.
pub const V4_MANIFEST_VERSION_SINGLE: u32 = 1;

/// The name of the manifest.
pub const MANIFEST_FILENAME: &'static str = "manifest.bin";

/// A length as a number of a file.
pub fn u2u64(v: usize) -> (r: Result<u64, RabitqError>)
    ensures
        r == Ok::<u64, RabitqError>(v as u64),
{
    Ok(v as u64)
}

/// A number of a file as a length.
pub fn uf64(v: u64) -> (r: Result<usize, RabitqError>)
    ensures
        v <= usize::MAX ==> r == Ok::<usize, RabitqError>(v as usize),
        v > usize::MAX ==> r == broken::<usize>("value exceeds usize"),
{
    if v > usize::MAX as u64 {
        Err(RabitqError::InvalidPersistence("value exceeds usize"))
    } else {
        Ok(v as usize)
    }
}

/// The byte that stands for a metric.
pub fn mt(m: Metric) -> (tag: u8)
    ensures
        tag == metric_tag(m),
{
    metric_to_tag(m)
}

/// The metric that a byte stands for.
pub fn tm(tag: u8) -> (m: Option<Metric>)
    ensures
        m == metric_of_tag(tag),
{
    tag_to_metric(tag)
}

/// One segment of a cluster.
#[derive(Debug)]
pub struct ClusterManifestEntry {
    pub cluster_id: u32,
    pub segment_filename: String,
    pub segment_version: u32,
    pub num_vectors: u32,
    pub file_size: u64,
}

/// What a manifest says of the index as a whole.
#[derive(Debug)]
pub struct ManifestHeader {
    pub dim: usize,
    pub padded_dim: usize,
    pub metric: Metric,
    pub rotator_type: RotatorType,
    pub rotator_data: Vec<u8>,
    pub ex_bits: usize,
    pub total_bits: usize,
}

/// What an entry holds.
#[verifier::ext_equal]
pub struct EntryModel {
    pub cluster_id: u32,
    pub filename: Seq<char>,
    pub version: u32,
    pub num_vectors: u32,
    pub file_size: u64,
}

impl View for ClusterManifestEntry {
    type V = EntryModel;

    open spec fn view(&self) -> EntryModel {
        EntryModel {
            cluster_id: self.cluster_id,
            filename: self.segment_filename@,
            version: self.segment_version,
            num_vectors: self.num_vectors,
            file_size: self.file_size,
        }
    }
}

/// What a header holds.
#[verifier::ext_equal]
pub struct ManifestHeaderModel {
    pub dim: usize,
    pub padded_dim: usize,
    pub metric: Metric,
    pub rotator_type: RotatorType,
    pub rotator_data: Seq<u8>,
    pub ex_bits: usize,
    pub total_bits: usize,
}

impl View for ManifestHeader {
    type V = ManifestHeaderModel;

    open spec fn view(&self) -> ManifestHeaderModel {
        ManifestHeaderModel {
            dim: self.dim,
            padded_dim: self.padded_dim,
            metric: self.metric,
            rotator_type: self.rotator_type,
            rotator_data: self.rotator_data@,
            ex_bits: self.ex_bits,
            total_bits: self.total_bits,
        }
    }
}

/// What the entries of a sequence hold.
pub open spec fn entry_models(entries: Seq<ClusterManifestEntry>) -> Seq<EntryModel> {
    entries.map_values(|e: ClusterManifestEntry| e@)
}

/// The segments of each cluster.
pub open spec fn segment_map(m: Map<u32, Vec<ClusterManifestEntry>>) -> Map<u32, Seq<EntryModel>> {
    m.map_values(|v: Vec<ClusterManifestEntry>| entry_models(v@))
}

// ----------------------------------------------------------------------------
// File names
// ----------------------------------------------------------------------------

/// The name of the file of a segment.
pub open spec fn filename_of(cluster_id: u32, version: u32) -> Seq<char> {
    "cluster_"@ + decimal4(cluster_id as int) + "_v"@ + decimal4(version as int) + ".seg"@
}

/// The name of the file of a segment: `cluster_`, the cluster, `_v`, the version, `.seg`, both
/// numbers with at least four digits.
pub fn segment_filename(cluster_id: u32, version: u32) -> (name: String)
    ensures
        name@ == filename_of(cluster_id, version),
{
    let mut name: String = String::from_str("cluster_");
    push_decimal4(&mut name, cluster_id as u64);
    name.append("_v");
    push_decimal4(&mut name, version as u64);
    name.append(".seg");
    name
}

/// Different segments have different files.
pub proof fn law_segment_filenames_differ(c1: u32, v1: u32, c2: u32, v2: u32)
    requires
        filename_of(c1, v1) == filename_of(c2, v2),
    ensures
        c1 == c2,
        v1 == v2,
{
    reveal_strlit("cluster_");
    reveal_strlit("_v");
    reveal_strlit(".seg");
    let a1 = decimal4(c1 as int);
    let a2 = decimal4(c2 as int);
    let b1 = decimal4(v1 as int);
    let b2 = decimal4(v2 as int);
    let s = filename_of(c1, v1);
    let t = filename_of(c2, v2);
    lemma_decimal4_value(c1 as int);
    lemma_decimal4_value(c2 as int);
    lemma_decimal4_value(v1 as int);
    lemma_decimal4_value(v2 as int);
    assert(s[8 + a1.len() as int] == '_');
    assert(t[8 + a2.len() as int] == '_');
    if a1.len() < a2.len() {
        assert(t[8 + a1.len() as int] == a2[a1.len() as int]);
        assert(is_digit(a2[a1.len() as int]));
    }
    if a2.len() < a1.len() {
        assert(s[8 + a2.len() as int] == a1[a2.len() as int]);
        assert(is_digit(a1[a2.len() as int]));
    }
    assert(a1 =~= a2) by {
        assert forall|i: int| 0 <= i < a1.len() implies a1[i] == a2[i] by {
            assert(s[8 + i] == a1[i]);
            assert(t[8 + i] == a2[i]);
        }
    }
    assert(s.len() == 8 + a1.len() + 2 + b1.len() + 4);
    assert(t.len() == 8 + a2.len() + 2 + b2.len() + 4);
    assert(b1 =~= b2) by {
        let off = 10 + a1.len() as int;
        assert forall|i: int| 0 <= i < b1.len() implies b1[i] == b2[i] by {
            assert(s[off + i] == b1[i]);
            assert(t[off + i] == b2[i]);
        }
    }
}

// ----------------------------------------------------------------------------
// Maps in the order of their keys
// ----------------------------------------------------------------------------

/// The numbers below `n` that a set contains, in order.
pub open spec fn keys_below(keys: Set<u32>, n: int) -> Seq<u32>
    decreases n,
{
    if n <= 0 {
        Seq::empty()
    } else if n <= 4294967296 && keys.contains((n - 1) as u32) {
        keys_below(keys, n - 1).push((n - 1) as u32)
    } else {
        keys_below(keys, n - 1)
    }
}

/// The numbers that a set contains, in order.
pub open spec fn key_order(keys: Set<u32>) -> Seq<u32> {
    keys_below(keys, 4294967296)
}

/// Whether numbers increase along a sequence.
pub open spec fn increasing(s: Seq<u32>) -> bool {
    forall|i: int, j: int| 0 <= i < j < s.len() ==> (#[trigger] s[i]) < (#[trigger] s[j])
}

/// An increasing sequence of the numbers that a set contains is the one in order.
pub proof fn lemma_keys_below_unique(s: Seq<u32>, keys: Set<u32>, n: int)
    requires
        0 <= n <= 4294967296,
        increasing(s),
        forall|i: int| 0 <= i < s.len() ==> (#[trigger] s[i]) < n,
        forall|k: u32| k < n ==> (#[trigger] keys.contains(k) <==> s.contains(k)),
    ensures
        s == keys_below(keys, n),
    decreases n,
{
    if n == 0 {
        if s.len() > 0 {
            assert(s[0] < 0);
        }
        assert(s =~= Seq::empty());
    } else {
        let k = (n - 1) as u32;
        if keys.contains(k) {
            assert(s.contains(k));
            let j = choose|j: int| 0 <= j < s.len() && s[j] == k;
            if j < s.len() - 1 {
                assert(s[j] < s[s.len() - 1]);
            }
            let t = s.drop_last();
            assert forall|i: int| 0 <= i < t.len() implies (#[trigger] t[i]) < n - 1 by {
                assert(s[i] < s[s.len() - 1]);
            }
            assert forall|x: u32| x < n - 1 implies (#[trigger] keys.contains(x) <==> t.contains(
                x,
            )) by {
                if s.contains(x) {
                    let y = choose|y: int| 0 <= y < s.len() && s[y] == x;
                    assert(t[y] == x);
                }
                if t.contains(x) {
                    let y = choose|y: int| 0 <= y < t.len() && t[y] == x;
                    assert(s[y] == x);
                }
            }
            assert(increasing(t));
            lemma_keys_below_unique(t, keys, n - 1);
            assert(s =~= t.push(k));
        } else {
            assert forall|i: int| 0 <= i < s.len() implies (#[trigger] s[i]) < n - 1 by {
                if s[i] == k {
                    assert(s.contains(k));
                }
            }
            lemma_keys_below_unique(s, keys, n - 1);
        }
    }
}

/// The keys of a map, in order.
pub fn ordered_keys(map: &BTreeMap<u32, Vec<ClusterManifestEntry>>) -> (keys: Vec<u32>)
    ensures
        keys@ == key_order(map@.dom()),
        keys@.len() == map@.dom().len(),
        forall|i: int| 0 <= i < keys@.len() ==> map@.contains_key(#[trigger] keys@[i]),
{
    broadcast use vstd::std_specs::btree::group_btree_axioms;

    let mut keys: Vec<u32> = Vec::new();
    let iter = map.iter();
    let ghost items = iter.remaining();
    let ghost order = items.map_values(|kv: (&u32, &Vec<ClusterManifestEntry>)| *kv.0);
    for kv in it: iter
        invariant
            it.seq() == items,
            keys@.len() == it.index(),
            forall|i: int| 0 <= i < keys@.len() ==> #[trigger] keys@[i] == *items[i].0,
    {
        keys.push(*kv.0);
    }
    proof {
        assert(vstd::std_specs::btree::increasing_seq(order));
        assert forall|i: int, j: int| 0 <= i < j < order.len() implies (#[trigger] order[i]) < (
        #[trigger] order[j]) by {
            assert(order[i].cmp_spec(&order[j]) is Less);
        }
        assert(keys@ =~= order);
        assert forall|k: u32| map@.dom().contains(k) implies keys@.contains(k) by {
            assert(items.contains((&k, &map@[k])));
            let j = choose|j: int| 0 <= j < items.len() && items[j] == (&k, &map@[k]);
            assert(keys@[j] == k);
        }
        assert forall|k: u32| keys@.contains(k) implies map@.dom().contains(k) by {
            let j = choose|j: int| 0 <= j < keys@.len() && keys@[j] == k;
            assert(map@.contains_key(*items[j].0));
        }
        lemma_keys_below_unique(keys@, map@.dom(), 4294967296);
        assert forall|i: int| 0 <= i < keys@.len() implies map@.contains_key(
            #[trigger] keys@[i],
        ) by {
            assert(keys@.contains(keys@[i]));
        }
    }
    keys
}

// ----------------------------------------------------------------------------
// Writing
// ----------------------------------------------------------------------------

/// A segment in a manifest.
pub open spec fn entry_bytes(e: EntryModel) -> Seq<u8> {
    le32(e.version) + le32(e.num_vectors) + le64(e.file_size) + le32(
        encode_utf8(e.filename).len() as u32,
    ) + encode_utf8(e.filename)
}

/// The segments of a cluster in a manifest, one after the other.
pub open spec fn entries_bytes(entries: Seq<EntryModel>) -> Seq<u8>
    decreases entries.len(),
{
    if entries.len() == 0 {
        Seq::empty()
    } else {
        entries_bytes(entries.drop_last()) + entry_bytes(entries.last())
    }
}

/// A cluster in a manifest: its id, the number of its segments, and these. A manifest with one
/// segment per cluster leaves the number out.
pub open spec fn record_bytes(cluster_id: u32, entries: Seq<EntryModel>, single: bool) -> Seq<u8> {
    le32(cluster_id) + (if single {
        Seq::empty()
    } else {
        le32(entries.len() as u32)
    }) + entries_bytes(entries)
}

/// The clusters `keys` of a map in a manifest, one after the other.
pub open spec fn records_bytes(keys: Seq<u32>, map: Map<u32, Seq<EntryModel>>, single: bool) -> Seq<
    u8,
>
    decreases keys.len(),
{
    if keys.len() == 0 {
        Seq::empty()
    } else {
        records_bytes(keys.drop_last(), map, single) + record_bytes(
            keys.last(),
            map[keys.last()],
            single,
        )
    }
}

/// The header of a manifest, up to the number of clusters.
pub open spec fn manifest_header_bytes(h: ManifestHeaderModel, cluster_count: u32) -> Seq<u8> {
    le32(h.dim as u32) + le32(h.padded_dim as u32) + seq![
        metric_tag(h.metric),
        rotator_tag(h.rotator_type),
        h.ex_bits as u8,
        h.total_bits as u8,
    ] + le64(0) + le64(h.rotator_data.len() as u64) + h.rotator_data + le32(cluster_count)
}

/// A manifest: magic and version, the header, the clusters in the order of their ids, and the
/// checksum of header and clusters.
pub open spec fn manifest_bytes(
    h: ManifestHeaderModel,
    map: Map<u32, Seq<EntryModel>>,
    single: bool,
) -> Seq<u8> {
    let keys = key_order(map.dom());
    let body = manifest_header_bytes(h, keys.len() as u32) + records_bytes(keys, map, single);
    V4_MANIFEST_MAGIC@ + le32(
        if single {
            V4_MANIFEST_VERSION_SINGLE
        } else {
            V4_MANIFEST_VERSION
        },
    ) + body + le32(crc32_of(body))
}

fn write_entry(out: &mut Vec<u8>, e: &ClusterManifestEntry)
    ensures
        final(out)@ == old(out)@ + entry_bytes(e@),
{
    write_u32(out, e.segment_version);
    write_u32(out, e.num_vectors);
    write_u64(out, e.file_size);
    let name: &[u8] = e.segment_filename.as_str().as_bytes();
    write_u32(out, name.len() as u32);
    write_bytes(out, name);
    assert(out@ =~= old(out)@ + entry_bytes(e@));
}

fn write_record(out: &mut Vec<u8>, cluster_id: u32, entries: &Vec<ClusterManifestEntry>)
    ensures
        final(out)@ == old(out)@ + record_bytes(cluster_id, entry_models(entries@), false),
{
    let ghost all = entry_models(entries@);
    write_u32(out, cluster_id);
    write_u32(out, entries.len() as u32);
    let ghost start = out@;
    let mut i: usize = 0;
    assert(out@ =~= start + entries_bytes(all.take(0)));
    while i < entries.len()
        invariant
            i <= entries@.len(),
            all == entry_models(entries@),
            out@ == start + entries_bytes(all.take(i as int)),
        decreases entries@.len() - i,
    {
        write_entry(out, &entries[i]);
        proof {
            let next = all.take(i + 1);
            assert(next.drop_last() =~= all.take(i as int));
            assert(next.last() == entries@[i as int]@);
            assert(out@ =~= start + entries_bytes(next));
        }
        i += 1;
    }
    assert(all.take(i as int) =~= all);
    assert(out@ =~= old(out)@ + record_bytes(cluster_id, all, false));
}

fn write_header(out: &mut Vec<u8>, header: &ManifestHeader, cluster_count: u32)
    ensures
        final(out)@ == old(out)@ + manifest_header_bytes(header@, cluster_count),
{
    write_u32(out, header.dim as u32);
    write_u32(out, header.padded_dim as u32);
    out.push(mt(header.metric));
    out.push(header.rotator_type.to_u8());
    out.push(header.ex_bits as u8);
    out.push(header.total_bits as u8);
    write_u64(out, 0);
    write_u64(out, header.rotator_data.len() as u64);
    write_bytes(out, header.rotator_data.as_slice());
    write_u32(out, cluster_count);
    assert(out@ =~= old(out)@ + manifest_header_bytes(header@, cluster_count));
}

/// The bytes of a manifest. Numbers that do not fit their place in the format are cut off.
pub fn save_manifest(
    header: &ManifestHeader,
    cluster_map: &BTreeMap<u32, Vec<ClusterManifestEntry>>,
) -> (bytes: Vec<u8>)
    ensures
        bytes@ == manifest_bytes(header@, segment_map(cluster_map@), false),
{
    broadcast use vstd::std_specs::btree::group_btree_axioms;

    let ghost map = segment_map(cluster_map@);
    let keys: Vec<u32> = ordered_keys(cluster_map);
    let mut body: Vec<u8> = Vec::new();
    write_header(&mut body, header, keys.len() as u32);
    let ghost head = body@;
    assert(map.dom() =~= cluster_map@.dom());
    let mut i: usize = 0;
    assert(body@ =~= head + records_bytes(keys@.take(0), map, false));
    while i < keys.len()
        invariant
            i <= keys@.len(),
            map == segment_map(cluster_map@),
            forall|j: int| 0 <= j < keys@.len() ==> cluster_map@.contains_key(#[trigger] keys@[j]),
            body@ == head + records_bytes(keys@.take(i as int), map, false),
        decreases keys@.len() - i,
    {
        broadcast use vstd::std_specs::btree::group_btree_axioms;

        let key: u32 = keys[i];
        assert(cluster_map@.contains_key(keys@[i as int]));
        if let Some(entries) = cluster_map.get(&key) {
            assert(map[key] == entry_models(entries@));
            write_record(&mut body, key, entries);
        }
        proof {
            let next = keys@.take(i + 1);
            assert(next.drop_last() =~= keys@.take(i as int));
            assert(next.last() == key);
            assert(body@ =~= head + records_bytes(next, map, false));
        }
        i += 1;
    }
    assert(keys@.take(i as int) =~= keys@);
    let sum: u32 = crc32(body.as_slice());
    let mut out: Vec<u8> = Vec::new();
    write_bytes(&mut out, V4_MANIFEST_MAGIC.as_slice());
    write_u32(&mut out, V4_MANIFEST_VERSION);
    write_bytes(&mut out, body.as_slice());
    write_u32(&mut out, sum);
    assert(out@ =~= manifest_bytes(header@, map, false));
    out
}

// ----------------------------------------------------------------------------
// Reading
// ----------------------------------------------------------------------------

/// The segment that stands at `pos` and belongs to `cluster_id`, and the position behind it.
pub open spec fn entry_at(b: Seq<u8>, pos: int, cluster_id: u32) -> Result<
    (EntryModel, int),
    RabitqError,
> {
    let len = u32_at(b, pos + 16) as int;
    if pos + 20 > b.len() {
        Err(eof())
    } else if pos + 20 + len > b.len() {
        Err(eof())
    } else if !valid_utf8(b.subrange(pos + 20, pos + 20 + len)) {
        broken("non-UTF8 filename")
    } else {
        Ok(
            (
                EntryModel {
                    cluster_id,
                    filename: decode_utf8(b.subrange(pos + 20, pos + 20 + len)),
                    version: u32_at(b, pos),
                    num_vectors: u32_at(b, pos + 4),
                    file_size: u64_at(b, pos + 8),
                },
                pos + 20 + len,
            ),
        )
    }
}

/// The first `n` segments that stand at `pos` and belong to `cluster_id`, and the position behind
/// them.
pub open spec fn entries_at(b: Seq<u8>, pos: int, cluster_id: u32, n: int) -> Result<
    (Seq<EntryModel>, int),
    RabitqError,
>
    decreases n,
{
    if n <= 0 {
        Ok((Seq::empty(), pos))
    } else {
        match entries_at(b, pos, cluster_id, n - 1) {
            Err(e) => Err(e),
            Ok((entries, p)) => match entry_at(b, p, cluster_id) {
                Err(e) => Err(e),
                Ok((entry, q)) => Ok((entries.push(entry), q)),
            },
        }
    }
}

/// The cluster that stands at `pos` in a manifest, and the position behind it. In a manifest with
/// one segment per cluster, the number of segments is left out.
pub open spec fn record_at(b: Seq<u8>, pos: int, single: bool) -> Result<
    (u32, Seq<EntryModel>, int),
    RabitqError,
> {
    let cluster_id = u32_at(b, pos);
    let start = if single {
        pos + 4
    } else {
        pos + 8
    };
    let count = if single {
        1
    } else {
        u32_at(b, pos + 4) as int
    };
    if start > b.len() {
        Err(eof())
    } else {
        match entries_at(b, start, cluster_id, count) {
            Err(e) => Err(e),
            Ok((entries, p)) => Ok((cluster_id, entries, p)),
        }
    }
}

/// The first `n` clusters that stand at `pos` in a manifest, and the position behind them. Of two
/// with the same id, the later one counts.
pub open spec fn records_at(b: Seq<u8>, pos: int, n: int, single: bool) -> Result<
    (Map<u32, Seq<EntryModel>>, int),
    RabitqError,
>
    decreases n,
{
    if n <= 0 {
        Ok((Map::empty(), pos))
    } else {
        match records_at(b, pos, n - 1, single) {
            Err(e) => Err(e),
            Ok((map, p)) => match record_at(b, p, single) {
                Err(e) => Err(e),
                Ok((cluster_id, entries, q)) => Ok((map.insert(cluster_id, entries), q)),
            },
        }
    }
}

/// The checked part of a manifest that ends at `end`. The eight bytes of the placeholder count as
/// zeros, whatever they are.
pub open spec fn checked_part(b: Seq<u8>, end: int) -> Seq<u8> {
    b.subrange(8, 20) + le64(0) + b.subrange(28, end)
}

/// What a manifest holds, or why it holds nothing.
pub open spec fn manifest_of_bytes(b: Seq<u8>) -> Result<
    (ManifestHeaderModel, Map<u32, Seq<EntryModel>>),
    RabitqError,
> {
    let rotator_len = u64_at(b, 28) as int;
    let p_count = 36 + rotator_len;
    let single = u32_at(b, 4) == V4_MANIFEST_VERSION_SINGLE;
    if b.len() < 4 {
        Err(eof())
    } else if b.subrange(0, 4) != V4_MANIFEST_MAGIC@ {
        broken("not a V4 manifest")
    } else if b.len() < 8 {
        Err(eof())
    } else if !single && u32_at(b, 4) != V4_MANIFEST_VERSION {
        broken("unsupported manifest version")
    } else if b.len() < 36 {
        Err(eof())
    } else if rotator_len > usize::MAX {
        broken("value exceeds usize")
    } else if b.len() < p_count + 4 {
        Err(eof())
    } else {
        match records_at(b, p_count + 4, u32_at(b, p_count) as int, single) {
            Err(e) => Err(e),
            Ok((map, p)) => if p + 4 > b.len() {
                Err(eof())
            } else if u32_at(b, p) != crc32_of(checked_part(b, p)) {
                broken("manifest checksum mismatch")
            } else if metric_of_tag(b[16]) is None {
                broken("unknown metric tag")
            } else if rotator_of_tag(b[17]) is None {
                broken("unknown rotator type")
            } else {
                Ok(
                    (
                        ManifestHeaderModel {
                            dim: u32_at(b, 8) as usize,
                            padded_dim: u32_at(b, 12) as usize,
                            metric: metric_of_tag(b[16])->0,
                            rotator_type: rotator_of_tag(b[17])->0,
                            rotator_data: b.subrange(36, p_count),
                            ex_bits: b[18] as usize,
                            total_bits: b[19] as usize,
                        },
                        map,
                    ),
                )
            },
        }
    }
}

/// Calls `String::from_utf8`. The contract claims that it accepts exactly valid UTF-8, and that
/// the string has the characters that the bytes encode.
#[verifier::external_body]
fn utf8_string(bytes: Vec<u8>) -> (r: Option<String>)
    ensures
        match r {
            Some(s) => valid_utf8(bytes@) && s@ == decode_utf8(bytes@),
            None => !valid_utf8(bytes@),
        },
{
    String::from_utf8(bytes).ok()
}

fn read_entry(data: &[u8], pos: &mut usize, cluster_id: u32) -> (result: Result<
    ClusterManifestEntry,
    RabitqError,
>)
    requires
        *old(pos) <= data@.len(),
    ensures
        *old(pos) <= *final(pos) <= data@.len(),
        match entry_at(data@, *old(pos) as int, cluster_id) {
            Err(e) => result == Err::<ClusterManifestEntry, RabitqError>(e),
            Ok((entry, p)) => result is Ok && result->Ok_0@ == entry && *final(pos) == p,
        },
{
    let version: u32 = read_u32(data, pos)?;
    let num_vectors: u32 = read_u32(data, pos)?;
    let file_size: u64 = read_u64(data, pos)?;
    let len: u32 = read_u32(data, pos)?;
    let name: Vec<u8> = read_bytes(data, pos, len as usize)?;
    match utf8_string(name) {
        Some(segment_filename) => Ok(
            ClusterManifestEntry {
                cluster_id,
                segment_filename,
                segment_version: version,
                num_vectors,
                file_size,
            },
        ),
        None => Err(RabitqError::InvalidPersistence("non-UTF8 filename")),
    }
}

proof fn lemma_entries_error(b: Seq<u8>, pos: int, cluster_id: u32, few: int, many: int)
    requires
        0 <= few <= many,
        entries_at(b, pos, cluster_id, few) is Err,
    ensures
        entries_at(b, pos, cluster_id, many) == entries_at(b, pos, cluster_id, few),
    decreases many,
{
    if few < many {
        lemma_entries_error(b, pos, cluster_id, few, many - 1);
    }
}

fn read_entries(data: &[u8], pos: &mut usize, cluster_id: u32, n: u32) -> (result: Result<
    Vec<ClusterManifestEntry>,
    RabitqError,
>)
    requires
        *old(pos) <= data@.len(),
    ensures
        *old(pos) <= *final(pos) <= data@.len(),
        match entries_at(data@, *old(pos) as int, cluster_id, n as int) {
            Err(e) => result == Err::<Vec<ClusterManifestEntry>, RabitqError>(e),
            Ok((entries, p)) => result is Ok && entry_models(result->Ok_0@) == entries
                && *final(pos) == p,
        },
{
    let ghost start = *pos as int;
    let mut entries: Vec<ClusterManifestEntry> = Vec::new();
    let mut i: u32 = 0;
    assert(entry_models(entries@) =~= Seq::empty());
    while i < n
        invariant
            i <= n,
            start == *old(pos),
            start <= *pos <= data@.len(),
            entries_at(data@, start, cluster_id, i as int) == Ok::<
                (Seq<EntryModel>, int),
                RabitqError,
            >((entry_models(entries@), *pos as int)),
        decreases n - i,
    {
        let ghost step = entries_at(data@, start, cluster_id, i + 1);
        proof {
            if step is Err {
                lemma_entries_error(data@, start, cluster_id, i + 1, n as int);
            }
        }
        let entry: ClusterManifestEntry = read_entry(data, pos, cluster_id)?;
        assert(entry_models(entries@.push(entry)) =~= entry_models(entries@).push(entry@));
        entries.push(entry);
        i += 1;
    }
    Ok(entries)
}

fn read_record(data: &[u8], pos: &mut usize, single: bool) -> (result: Result<
    (u32, Vec<ClusterManifestEntry>),
    RabitqError,
>)
    requires
        *old(pos) <= data@.len(),
    ensures
        *old(pos) <= *final(pos) <= data@.len(),
        match record_at(data@, *old(pos) as int, single) {
            Err(e) => result == Err::<(u32, Vec<ClusterManifestEntry>), RabitqError>(e),
            Ok((cluster_id, entries, p)) => result is Ok && result->Ok_0.0 == cluster_id
                && entry_models(result->Ok_0.1@) == entries && *final(pos) == p,
        },
{
    let cluster_id: u32 = read_u32(data, pos)?;
    let count: u32 = if single { 1 } else { read_u32(data, pos)? };
    let entries: Vec<ClusterManifestEntry> = read_entries(data, pos, cluster_id, count)?;
    Ok((cluster_id, entries))
}

proof fn lemma_records_error(b: Seq<u8>, pos: int, few: int, many: int, single: bool)
    requires
        0 <= few <= many,
        records_at(b, pos, few, single) is Err,
    ensures
        records_at(b, pos, many, single) == records_at(b, pos, few, single),
    decreases many,
{
    if few < many {
        lemma_records_error(b, pos, few, many - 1, single);
    }
}

fn read_records(data: &[u8], pos: &mut usize, n: u32, single: bool) -> (result: Result<
    BTreeMap<u32, Vec<ClusterManifestEntry>>,
    RabitqError,
>)
    requires
        *old(pos) <= data@.len(),
    ensures
        *old(pos) <= *final(pos) <= data@.len(),
        match records_at(data@, *old(pos) as int, n as int, single) {
            Err(e) => result == Err::<BTreeMap<u32, Vec<ClusterManifestEntry>>, RabitqError>(e),
            Ok((map, p)) => result is Ok && segment_map(result->Ok_0@) == map && *final(pos) == p,
        },
{
    broadcast use vstd::std_specs::btree::group_btree_axioms;

    let ghost start = *pos as int;
    let mut map: BTreeMap<u32, Vec<ClusterManifestEntry>> = BTreeMap::new();
    let mut i: u32 = 0;
    assert(segment_map(map@) =~= Map::empty());
    while i < n
        invariant
            i <= n,
            start == *old(pos),
            start <= *pos <= data@.len(),
            records_at(data@, start, i as int, single) == Ok::<
                (Map<u32, Seq<EntryModel>>, int),
                RabitqError,
            >((segment_map(map@), *pos as int)),
        decreases n - i,
    {
        broadcast use vstd::std_specs::btree::group_btree_axioms;

        let ghost step = records_at(data@, start, i + 1, single);
        proof {
            if step is Err {
                lemma_records_error(data@, start, i + 1, n as int, single);
            }
        }
        let record: (u32, Vec<ClusterManifestEntry>) = read_record(data, pos, single)?;
        assert(segment_map(map@.insert(record.0, record.1)) =~= segment_map(map@).insert(
            record.0,
            entry_models(record.1@),
        ));
        map.insert(record.0, record.1);
        i += 1;
    }
    Ok(map)
}

/// Whether the first four bytes are the magic of a manifest.
fn is_manifest_magic(magic: &[u8]) -> (r: bool)
    requires
        magic@.len() == 4,
    ensures
        r == (magic@ == V4_MANIFEST_MAGIC@),
{
    let r: bool = magic[0] == V4_MANIFEST_MAGIC[0] && magic[1] == V4_MANIFEST_MAGIC[1] && magic[2]
        == V4_MANIFEST_MAGIC[2] && magic[3] == V4_MANIFEST_MAGIC[3];
    proof {
        if r {
            assert(magic@ =~= V4_MANIFEST_MAGIC@);
        }
    }
    r
}

/// The checksum of the checked part of a manifest that ends at `end`.
fn checked_sum(data: &[u8], end: usize) -> (sum: u32)
    requires
        28 <= end <= data@.len(),
    ensures
        sum == crc32_of(checked_part(data@, end as int)),
{
    let mut part: Vec<u8> = Vec::new();
    write_bytes(&mut part, vstd::slice::slice_subrange(data, 8, 20));
    write_u64(&mut part, 0);
    write_bytes(&mut part, vstd::slice::slice_subrange(data, 28, end));
    assert(part@ =~= checked_part(data@, end as int));
    crc32(part.as_slice())
}

/// Reads a manifest. A manifest with one segment per cluster comes out as one with lists of one
/// segment.
pub fn load_manifest(data: &[u8]) -> (result: Result<
    (ManifestHeader, BTreeMap<u32, Vec<ClusterManifestEntry>>),
    RabitqError,
>)
    ensures
        match manifest_of_bytes(data@) {
            Err(e) => result == Err::<
                (ManifestHeader, BTreeMap<u32, Vec<ClusterManifestEntry>>),
                RabitqError,
            >(e),
            Ok((header, map)) => {
                &&& result is Ok
                &&& result->Ok_0.0@ == header
                &&& segment_map(result->Ok_0.1@) == map
            },
        },
{
    let mut pos: usize = 0;
    let magic: Vec<u8> = read_bytes(data, &mut pos, 4)?;
    if !is_manifest_magic(magic.as_slice()) {
        return Err(RabitqError::InvalidPersistence("not a V4 manifest"));
    }
    let version: u32 = read_u32(data, &mut pos)?;
    let single: bool = version == V4_MANIFEST_VERSION_SINGLE;
    if !single && version != V4_MANIFEST_VERSION {
        return Err(RabitqError::InvalidPersistence("unsupported manifest version"));
    }
    let dim: u32 = read_u32(data, &mut pos)?;
    let padded_dim: u32 = read_u32(data, &mut pos)?;
    let metric_byte: u8 = read_u8(data, &mut pos)?;
    let rotator_byte: u8 = read_u8(data, &mut pos)?;
    let ex_bits: u8 = read_u8(data, &mut pos)?;
    let total_bits: u8 = read_u8(data, &mut pos)?;
    let _placeholder: u64 = read_u64(data, &mut pos)?;
    let raw_len: u64 = read_u64(data, &mut pos)?;
    let rotator_len: usize = uf64(raw_len)?;
    let rotator_data: Vec<u8> = read_bytes(data, &mut pos, rotator_len)?;
    let count: u32 = read_u32(data, &mut pos)?;
    let map: BTreeMap<u32, Vec<ClusterManifestEntry>> = read_records(
        data,
        &mut pos,
        count,
        single,
    )?;
    let computed: u32 = checked_sum(data, pos);
    let stored: u32 = read_u32(data, &mut pos)?;
    if computed != stored {
        return Err(RabitqError::InvalidPersistence("manifest checksum mismatch"));
    }
    let metric: Metric = match tm(metric_byte) {
        Some(metric) => metric,
        None => {
            return Err(RabitqError::InvalidPersistence("unknown metric tag"));
        },
    };
    let rotator_type: RotatorType = match RotatorType::from_u8(rotator_byte) {
        Some(rotator_type) => rotator_type,
        None => {
            return Err(RabitqError::InvalidPersistence("unknown rotator type"));
        },
    };
    Ok(
        (
            ManifestHeader {
                dim: dim as usize,
                padded_dim: padded_dim as usize,
                metric,
                rotator_type,
                rotator_data,
                ex_bits: ex_bits as usize,
                total_bits: total_bits as usize,
            },
            map,
        ),
    )
}

// ----------------------------------------------------------------------------
// What is written is read
// ----------------------------------------------------------------------------

/// A header that fits the format.
pub open spec fn header_fits(h: ManifestHeaderModel) -> bool {
    &&& h.dim <= u32::MAX
    &&& h.padded_dim <= u32::MAX
    &&& h.ex_bits <= u8::MAX
    &&& h.total_bits <= u8::MAX
    &&& h.rotator_data.len() <= usize::MAX
}

/// Segments of cluster `key` that fit the format.
pub open spec fn entries_fit(key: u32, entries: Seq<EntryModel>) -> bool {
    &&& entries.len() <= u32::MAX
    &&& forall|i: int|
        0 <= i < entries.len() ==> {
            &&& (#[trigger] entries[i]).cluster_id == key
            &&& encode_utf8(entries[i].filename).len() <= u32::MAX
        }
}

/// A map of segments that fits the format.
pub open spec fn map_fits(map: Map<u32, Seq<EntryModel>>, single: bool) -> bool {
    &&& key_order(map.dom()).len() <= u32::MAX
    &&& forall|key: u32|
        map.contains_key(key) ==> entries_fit(key, #[trigger] map[key]) && (single
            ==> map[key].len() == 1)
}

proof fn lemma_entry_read(b: Seq<u8>, pos: int, e: EntryModel)
    requires
        stands_at(b, pos, entry_bytes(e)),
        encode_utf8(e.filename).len() <= u32::MAX,
    ensures
        entry_at(b, pos, e.cluster_id) == Ok::<(EntryModel, int), RabitqError>(
            (e, pos + entry_bytes(e).len()),
        ),
{
    let name = encode_utf8(e.filename);
    let x1 = le32(e.version);
    let x2 = x1 + le32(e.num_vectors);
    let x3 = x2 + le64(e.file_size);
    let x4 = x3 + le32(name.len() as u32);
    lemma_stands_split(b, pos, x4, name);
    lemma_stands_split(b, pos, x3, le32(name.len() as u32));
    lemma_stands_split(b, pos, x2, le64(e.file_size));
    lemma_stands_split(b, pos, x1, le32(e.num_vectors));
    lemma_read_le32(b, pos, e.version);
    lemma_read_le32(b, pos + 4, e.num_vectors);
    lemma_read_le64(b, pos + 8, e.file_size);
    lemma_read_le32(b, pos + 16, name.len() as u32);
    assert(b.subrange(pos + 20, pos + 20 + name.len()) =~= name);
    vstd::utf8::encode_utf8_valid_utf8(e.filename);
    vstd::utf8::encode_utf8_decode_utf8(e.filename);
}

proof fn lemma_entries_read(b: Seq<u8>, pos: int, key: u32, entries: Seq<EntryModel>)
    requires
        stands_at(b, pos, entries_bytes(entries)),
        entries_fit(key, entries),
    ensures
        entries_at(b, pos, key, entries.len() as int) == Ok::<(Seq<EntryModel>, int), RabitqError>(
            (entries, pos + entries_bytes(entries).len()),
        ),
    decreases entries.len(),
{
    if entries.len() == 0 {
        assert(entries =~= Seq::empty());
    } else {
        let init = entries.drop_last();
        let e = entries.last();
        assert(e == entries[entries.len() - 1]);
        assert(entries_fit(key, init)) by {
            assert forall|i: int| 0 <= i < init.len() implies {
                &&& (#[trigger] init[i]).cluster_id == key
                &&& encode_utf8(init[i].filename).len() <= u32::MAX
            } by {
                assert(init[i] == entries[i]);
            }
        }
        lemma_stands_split(b, pos, entries_bytes(init), entry_bytes(e));
        lemma_entries_read(b, pos, key, init);
        lemma_entry_read(b, pos + entries_bytes(init).len(), e);
        assert(init.push(e) =~= entries);
    }
}

proof fn lemma_record_read(b: Seq<u8>, pos: int, key: u32, entries: Seq<EntryModel>, single: bool)
    requires
        stands_at(b, pos, record_bytes(key, entries, single)),
        entries_fit(key, entries),
        single ==> entries.len() == 1,
    ensures
        record_at(b, pos, single) == Ok::<(u32, Seq<EntryModel>, int), RabitqError>(
            (key, entries, pos + record_bytes(key, entries, single).len()),
        ),
{
    let count = if single {
        Seq::<u8>::empty()
    } else {
        le32(entries.len() as u32)
    };
    lemma_stands_split(b, pos, le32(key) + count, entries_bytes(entries));
    lemma_stands_split(b, pos, le32(key), count);
    lemma_read_le32(b, pos, key);
    if !single {
        lemma_read_le32(b, pos + 4, entries.len() as u32);
    }
    lemma_entries_read(b, pos + (le32(key) + count).len(), key, entries);
}

/// The part of a map at the given keys.
pub open spec fn part_at(map: Map<u32, Seq<EntryModel>>, keys: Seq<u32>) -> Map<
    u32,
    Seq<EntryModel>,
> {
    Map::new(|k: u32| keys.contains(k), |k: u32| map[k])
}

#[verifier::rlimit(40)]
proof fn lemma_records_read(
    b: Seq<u8>,
    pos: int,
    keys: Seq<u32>,
    map: Map<u32, Seq<EntryModel>>,
    single: bool,
)
    requires
        stands_at(b, pos, records_bytes(keys, map, single)),
        map_fits(map, single),
        forall|i: int| 0 <= i < keys.len() ==> map.contains_key(#[trigger] keys[i]),
    ensures
        records_at(b, pos, keys.len() as int, single) == Ok::<
            (Map<u32, Seq<EntryModel>>, int),
            RabitqError,
        >((part_at(map, keys), pos + records_bytes(keys, map, single).len())),
    decreases keys.len(),
{
    if keys.len() == 0 {
        assert(part_at(map, keys) =~= Map::empty());
    } else {
        let init = keys.drop_last();
        let key = keys.last();
        assert(key == keys[keys.len() - 1]);
        assert(map.contains_key(key));
        assert(entries_fit(key, map[key]));
        assert forall|i: int| 0 <= i < init.len() implies map.contains_key(#[trigger] init[i]) by {
            assert(init[i] == keys[i]);
        }
        lemma_stands_split(
            b,
            pos,
            records_bytes(init, map, single),
            record_bytes(key, map[key], single),
        );
        lemma_records_read(b, pos, init, map, single);
        lemma_record_read(
            b,
            pos + records_bytes(init, map, single).len(),
            key,
            map[key],
            single,
        );
        assert(part_at(map, init).insert(key, map[key]) =~= part_at(map, keys)) by {
            assert forall|k: u32| keys.contains(k) <==> init.contains(k) || k == key by {
                if keys.contains(k) {
                    let j = choose|j: int| 0 <= j < keys.len() && keys[j] == k;
                    if j < init.len() {
                        assert(init[j] == k);
                    }
                }
                if init.contains(k) {
                    let j = choose|j: int| 0 <= j < init.len() && init[j] == k;
                    assert(keys[j] == k);
                }
            }
        }
    }
}

pub proof fn lemma_keys_below(keys: Set<u32>, n: int)
    requires
        0 <= n <= 4294967296,
    ensures
        forall|k: u32| #[trigger] keys_below(keys, n).contains(k) <==> (k < n && keys.contains(k)),
    decreases n,
{
    if n > 0 {
        lemma_keys_below(keys, n - 1);
        let before = keys_below(keys, n - 1);
        let after = keys_below(keys, n);
        assert forall|k: u32| #[trigger] after.contains(k) <==> (k < n && keys.contains(k)) by {
            assert(before.contains(k) <==> (k < n - 1 && keys.contains(k)));
            if keys.contains((n - 1) as u32) {
                if after.contains(k) {
                    let j = choose|j: int| 0 <= j < after.len() && after[j] == k;
                    if j < before.len() {
                        assert(before[j] == k);
                        assert(before.contains(k));
                    }
                }
                if k < n && keys.contains(k) {
                    if k == n - 1 {
                        assert(after[after.len() - 1] == k);
                    } else {
                        assert(before.contains(k));
                        let j = choose|j: int| 0 <= j < before.len() && before[j] == k;
                        assert(after[j] == k);
                    }
                }
            }
        }
    }
}

#[verifier::rlimit(40)]
proof fn lemma_manifest_header_read(b: Seq<u8>, h: ManifestHeaderModel, count: u32)
    requires
        header_fits(h),
        stands_at(b, 8, manifest_header_bytes(h, count)),
    ensures
        b.len() >= 40 + h.rotator_data.len(),
        u32_at(b, 8) == h.dim,
        u32_at(b, 12) == h.padded_dim,
        b[16] == metric_tag(h.metric),
        b[17] == rotator_tag(h.rotator_type),
        b[18] == h.ex_bits,
        b[19] == h.total_bits,
        b.subrange(20, 28) == le64(0),
        u64_at(b, 28) == h.rotator_data.len(),
        b.subrange(36, 36int + h.rotator_data.len()) == h.rotator_data,
        u32_at(b, 36int + h.rotator_data.len()) == count,
        manifest_header_bytes(h, count).len() == 32 + h.rotator_data.len(),
{
    let tags = seq![
        metric_tag(h.metric),
        rotator_tag(h.rotator_type),
        h.ex_bits as u8,
        h.total_bits as u8,
    ];
    let len = h.rotator_data.len() as u64;
    let x1 = le32(h.dim as u32);
    let x2 = x1 + le32(h.padded_dim as u32);
    let x3 = x2 + tags;
    let x4 = x3 + le64(0);
    let x5 = x4 + le64(len);
    let x6 = x5 + h.rotator_data;
    lemma_stands_split(b, 8, x6, le32(count));
    lemma_stands_split(b, 8, x5, h.rotator_data);
    lemma_stands_split(b, 8, x4, le64(len));
    lemma_stands_split(b, 8, x3, le64(0));
    lemma_stands_split(b, 8, x2, tags);
    lemma_stands_split(b, 8, x1, le32(h.padded_dim as u32));
    lemma_read_le32(b, 8, h.dim as u32);
    lemma_read_le32(b, 12, h.padded_dim as u32);
    assert(b.subrange(16, 20) == tags);
    assert(b.subrange(16, 20)[0] == b[16] && b.subrange(16, 20)[1] == b[17] && b.subrange(
        16,
        20,
    )[2] == b[18] && b.subrange(16, 20)[3] == b[19]);
    lemma_read_le64(b, 28, len);
    lemma_read_le32(b, 36 + h.rotator_data.len() as int, count);
}

proof fn lemma_all_records_read(
    b: Seq<u8>,
    pos: int,
    map: Map<u32, Seq<EntryModel>>,
    single: bool,
)
    requires
        map_fits(map, single),
        stands_at(b, pos, records_bytes(key_order(map.dom()), map, single)),
    ensures
        records_at(b, pos, key_order(map.dom()).len() as int, single) == Ok::<
            (Map<u32, Seq<EntryModel>>, int),
            RabitqError,
        >((map, pos + records_bytes(key_order(map.dom()), map, single).len())),
{
    let keys = key_order(map.dom());
    lemma_keys_below(map.dom(), 4294967296);
    assert forall|i: int| 0 <= i < keys.len() implies map.contains_key(#[trigger] keys[i]) by {
        assert(keys.contains(keys[i]));
    }
    lemma_records_read(b, pos, keys, map, single);
    assert(part_at(map, keys) =~= map);
}

#[verifier::rlimit(40)]
proof fn lemma_manifest_front(
    b: Seq<u8>,
    version: u32,
    header: Seq<u8>,
    tail: Seq<u8>,
    sum: u32,
)
    requires
        stands_at(b, 0, V4_MANIFEST_MAGIC@ + le32(version) + (header + tail) + le32(sum)),
    ensures
        b.len() >= 8int + header.len() + tail.len() + 4,
        b.subrange(0, 4) == V4_MANIFEST_MAGIC@,
        u32_at(b, 4) == version,
        stands_at(b, 8, header),
        stands_at(b, 8 + header.len() as int, tail),
        b.subrange(8, 8int + header.len() + tail.len()) == header + tail,
        u32_at(b, 8int + header.len() + tail.len()) == sum,
{
    let front = V4_MANIFEST_MAGIC@ + le32(version);
    assert(front.len() == 8);
    lemma_file_parts(b, front, header, tail, le32(sum));
    lemma_stands_split(b, 0, front, header);
    lemma_stands_split(b, 0, V4_MANIFEST_MAGIC@, le32(version));
    lemma_read_le32(b, 4, version);
    lemma_read_le32(b, 8int + header.len() + tail.len(), sum);
}

#[verifier::rlimit(40)]
proof fn lemma_manifest_read(
    b: Seq<u8>,
    h: ManifestHeaderModel,
    map: Map<u32, Seq<EntryModel>>,
    single: bool,
    version: u32,
    header: Seq<u8>,
    tail: Seq<u8>,
    sum: u32,
)
    requires
        header_fits(h),
        map_fits(map, single),
        version == if single {
            V4_MANIFEST_VERSION_SINGLE
        } else {
            V4_MANIFEST_VERSION
        },
        header == manifest_header_bytes(h, key_order(map.dom()).len() as u32),
        tail == records_bytes(key_order(map.dom()), map, single),
        sum == crc32_of(header + tail),
        stands_at(b, 0, V4_MANIFEST_MAGIC@ + le32(version) + (header + tail) + le32(sum)),
    ensures
        manifest_of_bytes(b) == Ok::<
            (ManifestHeaderModel, Map<u32, Seq<EntryModel>>),
            RabitqError,
        >((h, map)),
{
    lemma_manifest_front(b, version, header, tail, sum);
    lemma_manifest_header_read(b, h, key_order(map.dom()).len() as u32);
    lemma_all_records_read(b, 8 + header.len() as int, map, single);
    lemma_checked_part(b, 8int + header.len() + tail.len());
}

proof fn lemma_checked_part(b: Seq<u8>, end: int)
    requires
        28 <= end <= b.len(),
        b.subrange(20, 28) == le64(0),
    ensures
        checked_part(b, end) == b.subrange(8, end),
{
    assert forall|i: int| 0 <= i < end - 8 implies checked_part(b, end)[i] == b.subrange(
        8,
        end,
    )[i] by {
        if 12 <= i < 20 {
            assert(b.subrange(20, 28)[i - 12] == b[i + 8]);
        }
    }
    assert(checked_part(b, end) =~= b.subrange(8, end));
}

/// What is written is read: the bytes of a manifest, whatever follows them, read back as the same
/// header and segments. This holds of both versions; one segment per cluster comes back as a list
/// of one segment.
pub proof fn law_manifest_round_trip(
    h: ManifestHeaderModel,
    map: Map<u32, Seq<EntryModel>>,
    single: bool,
    rest: Seq<u8>,
)
    requires
        header_fits(h),
        map_fits(map, single),
    ensures
        manifest_of_bytes(manifest_bytes(h, map, single) + rest) == Ok::<
            (ManifestHeaderModel, Map<u32, Seq<EntryModel>>),
            RabitqError,
        >((h, map)),
{
    let keys = key_order(map.dom());
    let header = manifest_header_bytes(h, keys.len() as u32);
    let tail = records_bytes(keys, map, single);
    lemma_prefix_stands(manifest_bytes(h, map, single), rest);
    lemma_manifest_read(
        manifest_bytes(h, map, single) + rest,
        h,
        map,
        single,
        if single {
            V4_MANIFEST_VERSION_SINGLE
        } else {
            V4_MANIFEST_VERSION
        },
        header,
        tail,
        crc32_of(header + tail),
    );
}

/// A changed header is refused, whatever was changed: where one of the bytes of the dimensions, the
/// tags and the bit counts differs from what was written, the manifest is refused for its
/// checksum, before any tag is judged.
pub proof fn law_changed_header_is_refused(
    h: ManifestHeaderModel,
    map: Map<u32, Seq<EntryModel>>,
    single: bool,
    i: int,
    v: u8,
)
    requires
        header_fits(h),
        map_fits(map, single),
        8 <= i < 20,
        v != manifest_bytes(h, map, single)[i],
    ensures
        manifest_of_bytes(manifest_bytes(h, map, single).update(i, v)) == broken::<
            (ManifestHeaderModel, Map<u32, Seq<EntryModel>>),
        >("manifest checksum mismatch"),
{
    let keys = key_order(map.dom());
    let header = manifest_header_bytes(h, keys.len() as u32);
    let tail = records_bytes(keys, map, single);
    let b = manifest_bytes(h, map, single);
    let c = b.update(i, v);
    lemma_prefix_stands(b, Seq::empty());
    assert(b + Seq::<u8>::empty() =~= b);
    let version = if single {
        V4_MANIFEST_VERSION_SINGLE
    } else {
        V4_MANIFEST_VERSION
    };
    lemma_header_byte_tells(b, version, h, keys.len() as u32, tail, i, v);
    lemma_changed_header(
        b,
        c,
        h,
        map,
        single,
        header,
        tail,
        crc32_of(header + tail),
        i,
        v,
    );
    lemma_checksum_refuses(
        c,
        map,
        single,
        h.rotator_data.len() as int,
        8int + header.len() + tail.len(),
    );
}

proof fn lemma_header_byte_tells(
    b: Seq<u8>,
    version: u32,
    h: ManifestHeaderModel,
    cluster_count: u32,
    tail: Seq<u8>,
    i: int,
    v: u8,
)
    requires
        ({
            let body = manifest_header_bytes(h, cluster_count) + tail;
            stands_at(b, 0, V4_MANIFEST_MAGIC@ + le32(version) + body + le32(crc32_of(body)))
        }),
        8 <= i < 20,
        v != b[i],
    ensures
        ({
            let body = manifest_header_bytes(h, cluster_count) + tail;
            crc32_of(body.update(i - 8, v)) != crc32_of(body)
        }),
{
    let header = manifest_header_bytes(h, cluster_count);
    lemma_manifest_front(b, version, header, tail, crc32_of(header + tail));
    assert(header.len() >= 12);
    assert(b[i] == b.subrange(8, 8int + header.len() + tail.len())[i - 8]);
    law_checksum_tells_one_byte(header + tail, i - 8, v);
}

#[verifier::rlimit(40)]
proof fn lemma_changed_header(
    b: Seq<u8>,
    c: Seq<u8>,
    h: ManifestHeaderModel,
    map: Map<u32, Seq<EntryModel>>,
    single: bool,
    header: Seq<u8>,
    tail: Seq<u8>,
    sum: u32,
    i: int,
    v: u8,
)
    requires
        header_fits(h),
        map_fits(map, single),
        8 <= i < 20,
        header == manifest_header_bytes(h, key_order(map.dom()).len() as u32),
        tail == records_bytes(key_order(map.dom()), map, single),
        crc32_of((header + tail).update(i - 8, v)) != sum,
        stands_at(
            b,
            0,
            V4_MANIFEST_MAGIC@ + le32(
                if single {
                    V4_MANIFEST_VERSION_SINGLE
                } else {
                    V4_MANIFEST_VERSION
                },
            ) + (header + tail) + le32(sum),
        ),
        c == b.update(i, v),
    ensures
        40 + h.rotator_data.len() <= c.len(),
        c.subrange(0, 4) == V4_MANIFEST_MAGIC@,
        u32_at(c, 4) == if single {
            V4_MANIFEST_VERSION_SINGLE
        } else {
            V4_MANIFEST_VERSION
        },
        u64_at(c, 28) == h.rotator_data.len(),
        records_at(
            c,
            40int + h.rotator_data.len(),
            u32_at(c, 36int + h.rotator_data.len()) as int,
            single,
        ) == Ok::<(Map<u32, Seq<EntryModel>>, int), RabitqError>(
            (map, 8int + header.len() + tail.len()),
        ),
        8 + header.len() + tail.len() + 4 <= c.len(),
        u32_at(c, 8int + header.len() + tail.len()) != crc32_of(
            checked_part(c, 8int + header.len() + tail.len()),
        ),
{
    let count = key_order(map.dom()).len();
    let version = if single {
        V4_MANIFEST_VERSION_SINGLE
    } else {
        V4_MANIFEST_VERSION
    };
    let start = 8 + header.len() as int;
    let end = start + tail.len();
    lemma_manifest_front(b, version, header, tail, sum);
    lemma_manifest_header_read(b, h, count as u32);
    lemma_changed_parts(b, c, i, v, start, tail, end);
    lemma_all_records_read(c, start, map, single);
    lemma_checked_part(c, end);
}

proof fn lemma_checksum_refuses(
    b: Seq<u8>,
    map: Map<u32, Seq<EntryModel>>,
    single: bool,
    rotator_len: int,
    end: int,
)
    requires
        40 + rotator_len <= b.len(),
        0 <= rotator_len <= usize::MAX,
        b.subrange(0, 4) == V4_MANIFEST_MAGIC@,
        u32_at(b, 4) == if single {
            V4_MANIFEST_VERSION_SINGLE
        } else {
            V4_MANIFEST_VERSION
        },
        u64_at(b, 28) == rotator_len,
        records_at(b, 40 + rotator_len, u32_at(b, 36 + rotator_len) as int, single) == Ok::<
            (Map<u32, Seq<EntryModel>>, int),
            RabitqError,
        >((map, end)),
        end + 4 <= b.len(),
        u32_at(b, end) != crc32_of(checked_part(b, end)),
    ensures
        manifest_of_bytes(b) == broken::<
            (ManifestHeaderModel, Map<u32, Seq<EntryModel>>),
        >("manifest checksum mismatch"),
{
}

proof fn lemma_changed_parts(
    b: Seq<u8>,
    c: Seq<u8>,
    i: int,
    v: u8,
    start: int,
    tail: Seq<u8>,
    end: int,
)
    requires
        c == b.update(i, v),
        8 <= i < 20,
        40 <= start,
        end == start + tail.len(),
        end + 4 <= b.len(),
        stands_at(b, start, tail),
    ensures
        c.subrange(0, 4) == b.subrange(0, 4),
        u32_at(c, 4) == u32_at(b, 4),
        c.subrange(20, 28) == b.subrange(20, 28),
        u64_at(c, 28) == u64_at(b, 28),
        u32_at(c, start - 4) == u32_at(b, start - 4),
        u32_at(c, end) == u32_at(b, end),
        stands_at(c, start, tail),
        c.subrange(8, end) == b.subrange(8, end).update(i - 8, v),
{
    assert(c.subrange(8, end) =~= b.subrange(8, end).update(i - 8, v));
    assert(c.subrange(0, 4) =~= b.subrange(0, 4));
    assert(c.subrange(20, 28) =~= b.subrange(20, 28));
    assert(c.subrange(start, end) =~= b.subrange(start, end));
}

} // verus!
