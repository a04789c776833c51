//! Index files, manifests and segments, byte by byte.
use rabitq_ivf::cluster::ClusterData;
use rabitq_ivf::error::{IoFailure, RabitqError};
use rabitq_ivf::index::IvfRabitqIndex;
use rabitq_ivf::manifest::{
    load_manifest, mt, ordered_keys, save_manifest, segment_filename, tm, u2u64, uf64,
    ClusterManifestEntry, ManifestHeader, MANIFEST_FILENAME, V4_MANIFEST_MAGIC,
    V4_MANIFEST_VERSION,
};
use rabitq_ivf::quantized::QuantizedVector;
use rabitq_ivf::segment::{
    read_segment_centroid, read_segment_full, write_segment, ClusterSegmentData, V4_SEGMENT_MAGIC,
};
use rabitq_ivf::types::{metric_to_tag, tag_to_metric, Metric, Rotator, RotatorType};
use rabitq_ivf::v4_flush::saved_vectors;
use rabitq_ivf::v4_load::{load_cluster, LoadedSegment};
use std::collections::BTreeMap;

fn vector(seed: u8, padded_dim: usize, ex_bits: usize) -> QuantizedVector {
    QuantizedVector {
        binary_code_packed: (0..padded_dim / 8).map(|i| seed.wrapping_mul(31) ^ i as u8).collect(),
        ex_code_packed: vec![seed; (padded_dim * ex_bits + 7) / 8],
        ex_bits: ex_bits as u8,
        dim: padded_dim,
        delta: seed as u32 + 1,
        vl: seed as u32 + 2,
        f_add: seed as u32 + 3,
        f_rescale: seed as u32 + 4,
        f_error: seed as u32 + 5,
        residual_norm: 0,
        f_add_ex: if ex_bits > 0 { seed as u32 + 6 } else { 0 },
        f_rescale_ex: if ex_bits > 0 { seed as u32 + 7 } else { 0 },
    }
}

fn cluster(first: u8, n: u8, padded_dim: usize, ex_bits: usize) -> ClusterData {
    ClusterData::from_quantized_vectors(
        (0..padded_dim as u32).map(|d| d + first as u32).collect(),
        (0..n as u64).map(|i| first as u64 + i).collect(),
        (0..n).map(|i| vector(first + i, padded_dim, ex_bits)).collect(),
        padded_dim,
        ex_bits,
    )
}

fn index(sizes: &[u8], padded_dim: usize, ex_bits: usize) -> IvfRabitqIndex {
    let mut clusters = Vec::new();
    let mut first = 0u8;
    for &n in sizes {
        clusters.push(cluster(first, n, padded_dim, ex_bits));
        first += n;
    }
    IvfRabitqIndex {
        dim: padded_dim,
        padded_dim,
        metric: Metric::InnerProduct,
        rotator: Rotator { rotator_type: RotatorType::FhtKacRotator, data: vec![9, 8, 7] },
        clusters,
        ex_bits,
    }
}

fn saved(index: &IvfRabitqIndex) -> Vec<u8> {
    let mut out = Vec::new();
    index.save_to_writer(&mut out).unwrap();
    out
}

fn sealed(mut bytes: Vec<u8>) -> Vec<u8> {
    let end = bytes.len() - 4;
    let sum = crc32fast::hash(&bytes[8..end]);
    bytes[end..].copy_from_slice(&sum.to_le_bytes());
    bytes
}

fn reason(r: Result<IvfRabitqIndex, RabitqError>) -> &'static str {
    match r {
        Err(RabitqError::InvalidPersistence(why)) => why,
        Err(RabitqError::Io(IoFailure::UnexpectedEof)) => "end of input",
        other => panic!("{other:?}"),
    }
}

#[test]
fn an_index_file_has_the_stated_layout() {
    let index = index(&[1], 8, 0);
    let bytes = saved(&index);
    assert_eq!(&bytes[0..4], b"RBQ1");
    assert_eq!(&bytes[4..8], &3u32.to_le_bytes());
    assert_eq!(&bytes[8..12], &8u32.to_le_bytes());
    assert_eq!(&bytes[12..16], &8u32.to_le_bytes());
    assert_eq!(&bytes[16..20], &[1, 1, 0, 1]);
    assert_eq!(&bytes[20..28], &1u64.to_le_bytes());
    assert_eq!(&bytes[28..36], &1u64.to_le_bytes());
    assert_eq!(&bytes[36..44], &3u64.to_le_bytes());
    assert_eq!(&bytes[44..47], &[9, 8, 7]);
    // Centroid, count, ids and batches of one stride.
    assert_eq!(&bytes[47..51], &0u32.to_le_bytes());
    assert_eq!(&bytes[79..87], &1u64.to_le_bytes());
    assert_eq!(&bytes[95..103], &416u64.to_le_bytes());
    assert_eq!(bytes.len(), 103 + 416 + 8 + 16 + 4);
    let end = bytes.len() - 4;
    assert_eq!(&bytes[end..], &crc32fast::hash(&bytes[8..end]).to_le_bytes());
}

#[test]
fn an_index_file_comes_back_whatever_follows() {
    let index = index(&[40, 0, 3], 16, 2);
    let mut bytes = saved(&index);
    let length = bytes.len();
    bytes.extend_from_slice(&[1, 2, 3]);
    let back = IvfRabitqIndex::load_from_reader(&bytes).unwrap();
    assert!(back.is_well_formed());
    assert_eq!(back.len(), 43);
    assert_eq!(back.clusters[0].ids, index.clusters[0].ids);
    assert_eq!(back.clusters[2].batch_data, index.clusters[2].batch_data);
    assert_eq!(saved(&back), &bytes[..length]);
}

#[test]
fn a_cut_index_file_ends_too_early() {
    let bytes = saved(&index(&[2], 8, 1));
    for cut in [0, 3, 7, 11, 15, 16, 17, 18, 19, 27, 35, 43, 46, 60, bytes.len() - 5, bytes.len() - 1] {
        assert_eq!(reason(IvfRabitqIndex::load_from_reader(&bytes[..cut])), "end of input");
    }
}

#[test]
fn smart_loader_rejects_invalid_magic() {
    let mut buffer = vec![b'X', b'X', b'X', b'X'];
    buffer.extend_from_slice(&[0u8; 100]);
    let why = reason(IvfRabitqIndex::load_from_reader(&buffer));
    assert!(
        why.contains("unrecognized") || why.contains("magic"),
        "error message should mention magic header"
    );
}

#[test]
fn each_fault_of_an_index_file_has_its_reason() {
    let good = saved(&index(&[2], 8, 1));
    let with = |at: usize, value: u8| {
        let mut bytes = good.clone();
        bytes[at] = value;
        reason(IvfRabitqIndex::load_from_reader(&sealed(bytes)))
    };
    assert_eq!(with(0, b'X'), "unrecognized file header");
    assert_eq!(
        with(4, 2),
        "unsupported index format version (expected V3 with unified memory layout)"
    );
    assert_eq!(with(8, 0), "dimension must be positive");
    assert_eq!(with(12, 7), "padded_dim must be >= dim");
    assert_eq!(with(16, 2), "unknown metric tag");
    assert_eq!(with(17, 9), "unknown rotator type tag");
    assert_eq!(with(18, 17), "ex_bits out of range");
    assert_eq!(with(19, 0), "total_bits out of range");
    assert_eq!(with(19, 17), "total_bits out of range");
    assert_eq!(with(19, 3), "total_bits does not match ex_bits");
    assert_eq!(with(20, 3), "vector count metadata mismatch");
    assert_eq!(
        with(79 + 5, 1),
        "cluster size exceeds reasonable limits - possible corruption"
    );
    assert_eq!(
        with(79 + 8 + 16, 1),
        "batch_data length mismatch - possible corruption or version incompatibility"
    );
    assert_eq!(
        with(79 + 8 + 16 + 8 + 416, 2),
        "ex_code_packed length mismatch - possible corruption or version incompatibility"
    );
    let mut spoiled = good.clone();
    spoiled[44] ^= 1;
    assert_eq!(reason(IvfRabitqIndex::load_from_reader(&spoiled)), "checksum mismatch");
}

#[test]
fn an_index_that_does_not_fit_is_not_saved() {
    let refused = |index: &IvfRabitqIndex| {
        let mut out = vec![5];
        let r = index.save_to_writer(&mut out);
        assert_eq!(out, vec![5]);
        match r {
            Err(RabitqError::InvalidPersistence(why)) => why,
            other => panic!("{other:?}"),
        }
    };
    let mut wide = index(&[1], 8, 0);
    wide.dim = 1 << 32;
    assert_eq!(refused(&wide), "dimension exceeds persistence limits");
    let mut wide = index(&[1], 8, 0);
    wide.padded_dim = 1 << 32;
    assert_eq!(refused(&wide), "padded_dim exceeds persistence limits");
    let mut wide = index(&[1], 8, 0);
    wide.ex_bits = 256;
    assert_eq!(refused(&wide), "ex_bits exceeds persistence limits");
    wide.ex_bits = 255;
    assert_eq!(refused(&wide), "total_bits exceeds persistence limits");
    let mut wrong = index(&[1], 8, 0);
    wrong.clusters[0].centroid.pop();
    assert_eq!(refused(&wrong), "cluster centroid dimension mismatch");
    let mut wrong = index(&[1], 8, 0);
    wrong.clusters[0].ids.push(4);
    assert_eq!(refused(&wrong), "cluster id/vector count mismatch");
}

#[test]
fn tags_stand_for_metrics() {
    assert_eq!(metric_to_tag(Metric::L2), 0);
    assert_eq!(metric_to_tag(Metric::InnerProduct), 1);
    assert_eq!(tag_to_metric(1), Some(Metric::InnerProduct));
    assert_eq!(tag_to_metric(2), None);
    assert_eq!(mt(Metric::InnerProduct), 1);
    assert_eq!(tm(0), Some(Metric::L2));
    assert_eq!(tm(7), None);
    assert_eq!(u2u64(77).unwrap(), 77);
    assert_eq!(uf64(78).unwrap(), 78);
    assert_eq!(RotatorType::from_u8(1), Some(RotatorType::FhtKacRotator));
    assert_eq!(RotatorType::from_u8(2), None);
}

#[test]
fn a_file_that_was_saved_with_pending_vectors_is_refused() {
    let mut unflushed = index(&[2, 1], 8, 1);
    unflushed.clusters[1].append_vector(9, vector(9, 8, 1));
    let bytes = saved(&unflushed);
    assert_eq!(
        reason(IvfRabitqIndex::load_from_reader(&bytes)),
        "vector count metadata mismatch"
    );
    unflushed.flush_all_pending();
    let back = IvfRabitqIndex::load_from_reader(&saved(&unflushed)).unwrap();
    assert_eq!(back.clusters[1].ids, vec![2, 9]);
}

// ---- manifests ----

fn entry(cluster_id: u32, version: u32, n: u32) -> ClusterManifestEntry {
    ClusterManifestEntry {
        cluster_id,
        segment_filename: segment_filename(cluster_id, version),
        segment_version: version,
        num_vectors: n,
        file_size: 1000 + n as u64,
    }
}

fn header() -> ManifestHeader {
    ManifestHeader {
        dim: 10,
        padded_dim: 16,
        metric: Metric::L2,
        rotator_type: RotatorType::MatrixRotator,
        rotator_data: vec![1, 2, 3, 4],
        ex_bits: 6,
        total_bits: 7,
    }
}

fn manifest_reason(bytes: &[u8]) -> &'static str {
    match load_manifest(bytes) {
        Err(RabitqError::InvalidPersistence(why)) => why,
        Err(RabitqError::Io(IoFailure::UnexpectedEof)) => "end of input",
        other => panic!("{other:?}"),
    }
}

#[test]
fn file_names_are_padded_and_distinct() {
    assert_eq!(MANIFEST_FILENAME, "manifest.bin");
    assert_eq!(segment_filename(0, 0), "cluster_0000_v0000.seg");
    assert_eq!(segment_filename(42, 1), "cluster_0042_v0001.seg");
    assert_eq!(segment_filename(12345, 678), "cluster_12345_v0678.seg");
    assert_eq!(segment_filename(u32::MAX, 10000), "cluster_4294967295_v10000.seg");
    assert_ne!(segment_filename(1, 10), segment_filename(11, 0));
}

#[test]
fn a_manifest_has_the_stated_layout() {
    let mut map = BTreeMap::new();
    map.insert(3, vec![entry(3, 0, 5)]);
    let bytes = save_manifest(&header(), &map);
    assert_eq!(&bytes[0..4], b"RBQ3");
    assert_eq!(bytes[0..4], V4_MANIFEST_MAGIC);
    assert_eq!(&bytes[4..8], &2u32.to_le_bytes());
    assert_eq!(V4_MANIFEST_VERSION, 2);
    assert_eq!(&bytes[8..12], &10u32.to_le_bytes());
    assert_eq!(&bytes[12..16], &16u32.to_le_bytes());
    assert_eq!(&bytes[16..20], &[0, 0, 6, 7]);
    assert_eq!(&bytes[20..28], &[0; 8]);
    assert_eq!(&bytes[28..36], &4u64.to_le_bytes());
    assert_eq!(&bytes[36..40], &[1, 2, 3, 4]);
    assert_eq!(&bytes[40..44], &1u32.to_le_bytes());
    assert_eq!(&bytes[44..48], &3u32.to_le_bytes());
    assert_eq!(&bytes[48..52], &1u32.to_le_bytes());
    assert_eq!(&bytes[52..56], &0u32.to_le_bytes());
    assert_eq!(&bytes[56..60], &5u32.to_le_bytes());
    assert_eq!(&bytes[60..68], &1005u64.to_le_bytes());
    assert_eq!(&bytes[68..72], &22u32.to_le_bytes());
    assert_eq!(&bytes[72..94], b"cluster_0003_v0000.seg");
    assert_eq!(&bytes[94..], &crc32fast::hash(&bytes[8..94]).to_le_bytes());
}

#[test]
fn a_manifest_comes_back_with_all_segments() {
    let mut map = BTreeMap::new();
    map.insert(9, vec![entry(9, 0, 5), entry(9, 1, 2), entry(9, 4, 1)]);
    map.insert(2, vec![entry(2, 0, 8)]);
    map.insert(5, Vec::new());
    let mut bytes = save_manifest(&header(), &map);
    bytes.push(77);
    let (h, back) = load_manifest(&bytes).unwrap();
    assert_eq!((h.dim, h.padded_dim, h.ex_bits, h.total_bits), (10, 16, 6, 7));
    assert_eq!(h.metric, Metric::L2);
    assert_eq!(h.rotator_type, RotatorType::MatrixRotator);
    assert_eq!(h.rotator_data, vec![1, 2, 3, 4]);
    assert_eq!(ordered_keys(&back), vec![2, 5, 9]);
    assert_eq!(back[&9].len(), 3);
    assert_eq!(back[&9][2].segment_filename, "cluster_0009_v0004.seg");
    assert_eq!(back[&9][2].segment_version, 4);
    assert_eq!(back[&9][2].cluster_id, 9);
    assert_eq!(back[&2][0].num_vectors, 8);
    assert_eq!(back[&2][0].file_size, 1008);
    assert!(back[&5].is_empty());
}

#[test]
fn a_manifest_of_the_first_version_is_read_as_single_segments() {
    let mut body = Vec::new();
    body.extend_from_slice(&10u32.to_le_bytes());
    body.extend_from_slice(&16u32.to_le_bytes());
    body.extend_from_slice(&[1, 1, 6, 7]);
    body.extend_from_slice(&0u64.to_le_bytes());
    body.extend_from_slice(&0u64.to_le_bytes());
    body.extend_from_slice(&1u32.to_le_bytes());
    body.extend_from_slice(&4u32.to_le_bytes());
    body.extend_from_slice(&6u32.to_le_bytes());
    body.extend_from_slice(&11u32.to_le_bytes());
    body.extend_from_slice(&12u64.to_le_bytes());
    body.extend_from_slice(&5u32.to_le_bytes());
    body.extend_from_slice(b"a.seg");
    let mut bytes = b"RBQ3".to_vec();
    bytes.extend_from_slice(&1u32.to_le_bytes());
    bytes.extend_from_slice(&body);
    bytes.extend_from_slice(&crc32fast::hash(&body).to_le_bytes());
    let (h, map) = load_manifest(&bytes).unwrap();
    assert_eq!(h.metric, Metric::InnerProduct);
    assert_eq!(map.len(), 1);
    assert_eq!(map[&4].len(), 1);
    assert_eq!(map[&4][0].segment_filename, "a.seg");
    assert_eq!(map[&4][0].segment_version, 6);
    assert_eq!(map[&4][0].num_vectors, 11);
    assert_eq!(map[&4][0].file_size, 12);
}

#[test]
fn each_fault_of_a_manifest_has_its_reason() {
    let mut map = BTreeMap::new();
    map.insert(3, vec![entry(3, 0, 5)]);
    let good = save_manifest(&header(), &map);
    let with = |at: usize, value: u8| {
        let mut bytes = good.clone();
        bytes[at] = value;
        let bytes = sealed(bytes);
        manifest_reason(&bytes)
    };
    assert_eq!(with(0, b'X'), "not a V4 manifest");
    assert_eq!(with(4, 3), "unsupported manifest version");
    assert_eq!(with(16, 2), "unknown metric tag");
    assert_eq!(with(17, 2), "unknown rotator type");
    assert_eq!(with(72, 0xff), "non-UTF8 filename");
    let mut spoiled = good.clone();
    spoiled[60] ^= 1;
    assert_eq!(manifest_reason(&spoiled), "manifest checksum mismatch");
    for cut in [0, 3, 7, 35, 40, 43, 50, 80, good.len() - 1] {
        assert_eq!(manifest_reason(&good[..cut]), "end of input");
    }
}

// ---- segments ----

fn segment_reason<T>(r: Result<T, RabitqError>) -> &'static str {
    match r {
        Err(RabitqError::InvalidPersistence(why)) => why,
        Err(RabitqError::Io(IoFailure::UnexpectedEof)) => "end of input",
        _ => panic!("no fault"),
    }
}

#[test]
fn a_segment_has_the_stated_layout() {
    let c = cluster(4, 2, 8, 1);
    let seg = ClusterSegmentData::from_cluster_data(7, &c, 8, 1);
    let bytes = write_segment(&seg, 3);
    assert_eq!(&bytes[0..4], b"SEG1");
    assert_eq!(bytes[0..4], V4_SEGMENT_MAGIC);
    assert_eq!(&bytes[4..8], &7u32.to_le_bytes());
    assert_eq!(&bytes[8..12], &3u32.to_le_bytes());
    assert_eq!(&bytes[12..16], &8u32.to_le_bytes());
    assert_eq!(bytes[16], 1);
    assert_eq!(&bytes[17..21], &2u32.to_le_bytes());
    assert_eq!(&bytes[21..25], &4u32.to_le_bytes());
    assert_eq!(&bytes[53..61], &4u64.to_le_bytes());
    assert_eq!(&bytes[69..77], &416u64.to_le_bytes());
    let codes = 77 + 416;
    assert_eq!(&bytes[codes..codes + 4], &2u32.to_le_bytes());
    assert_eq!(&bytes[codes + 4..codes + 12], &1u64.to_le_bytes());
    assert_eq!(bytes[codes + 12], 4);
    let end = bytes.len() - 4;
    assert_eq!(end, codes + 4 + 18 + 32);
    assert_eq!(&bytes[end..], &crc32fast::hash(&bytes[4..end]).to_le_bytes());
}

#[test]
fn a_segment_comes_back_and_so_does_its_centroid() {
    let c = cluster(4, 33, 16, 2);
    let seg = ClusterSegmentData::from_cluster_data(7, &c, 16, 2);
    let bytes = write_segment(&seg, 3);
    let back = read_segment_full(&bytes).unwrap();
    assert_eq!(back.cluster_id, 7);
    assert_eq!(back.centroid, c.centroid);
    assert_eq!(back.ids, c.ids);
    assert_eq!(back.batch_data, c.batch_data);
    assert_eq!(back.ex_codes_packed, c.ex_codes_packed);
    assert_eq!(back.f_add_ex, c.f_add_ex);
    assert_eq!(back.f_rescale_ex, c.f_rescale_ex);
    assert_eq!(back.delta, c.delta);
    assert_eq!(back.vl, c.vl);
    assert_eq!(write_segment(&back, 3), bytes);
    let front = &bytes[..21 + 64];
    assert_eq!(read_segment_centroid(front, 16).unwrap(), (7, c.centroid.clone()));
    assert_eq!(segment_reason(read_segment_centroid(&front[..84], 16)), "segment too short");
}

#[test]
fn each_fault_of_a_segment_has_its_reason() {
    let c = cluster(4, 2, 8, 1);
    let bytes = write_segment(&ClusterSegmentData::from_cluster_data(7, &c, 8, 1), 3);
    let mut wrong = bytes.clone();
    wrong[3] = b'2';
    assert_eq!(segment_reason(read_segment_full(&wrong)), "not a V4 segment");
    let mut wrong = bytes.clone();
    wrong[30] ^= 1;
    assert_eq!(segment_reason(read_segment_full(&wrong)), "segment checksum mismatch");
    for cut in [0, 3, 20, 60, 76, 400, bytes.len() - 30, bytes.len() - 1] {
        assert_eq!(segment_reason(read_segment_full(&bytes[..cut])), "end of input");
    }
}

// ---- whole directories ----

fn load_back(manifest: &[u8], files: &BTreeMap<String, Vec<u8>>) -> Result<IvfRabitqIndex, RabitqError> {
    let (header, map) = load_manifest(manifest)?;
    let mut clusters = Vec::new();
    for key in ordered_keys(&map) {
        let mut segments = Vec::new();
        for e in &map[&key] {
            let data = read_segment_full(&files[&e.segment_filename])?;
            assert_eq!(files[&e.segment_filename].len() as u64, e.file_size);
            segments.push(LoadedSegment { num_vectors: e.num_vectors, data });
        }
        clusters.push(segments);
    }
    IvfRabitqIndex::load_from_v4_dir(header, clusters)
}

fn stored(index: &IvfRabitqIndex) -> (Vec<u8>, BTreeMap<String, Vec<u8>>) {
    let files = index.save_to_v4_dir();
    let segments = files.segments.into_iter().map(|f| (f.filename, f.bytes)).collect();
    (files.manifest, segments)
}

#[test]
fn a_directory_gives_the_saved_index_back() {
    let index = index(&[40, 0, 3], 16, 2);
    let (manifest, files) = stored(&index);
    assert_eq!(files.len(), 3);
    assert!(files.contains_key("cluster_0002_v0000.seg"));
    let back = load_back(&manifest, &files).unwrap();
    assert!(back.is_well_formed());
    assert_eq!(saved(&back), saved(&index));
}

#[test]
fn a_flush_adds_the_new_vectors_only() {
    for (padded_dim, ex_bits) in [(16, 2), (12, 0), (12, 3)] {
        let mut index = index(&[40, 2, 3, 0], padded_dim, ex_bits);
        let (mut manifest, mut files) = stored(&index);
        let mut next = 100u64;
        for round in 1..4u32 {
            let standing = files.clone();
            for (cid, more) in [(1usize, 3u8), (3, 35)] {
                for i in 0..more {
                    let q = vector(200u8.wrapping_add(i), padded_dim, ex_bits);
                    index.clusters[cid].append_vector(next, q);
                    next += 1;
                }
            }
            index.flush_all_pending();
            let (_, map) = load_manifest(&manifest).unwrap();
            let before: usize = map.values().map(|entries| entries.len()).sum();
            let flushed = index.flush_v4(map, &[1, 3]);
            assert_eq!(flushed.segments.len(), 2);
            assert_eq!(flushed.segments[0].filename, format!("cluster_0001_v{round:04}.seg"));
            assert_eq!(flushed.segments[1].filename, format!("cluster_0003_v{round:04}.seg"));
            let delta = read_segment_full(&flushed.segments[0].bytes).unwrap();
            assert_eq!(delta.ids, index.clusters[1].ids[index.clusters[1].ids.len() - 3..]);
            assert_eq!(delta.batch_data.len(), ClusterData::batch_stride(padded_dim));
            for file in flushed.segments {
                assert!(files.insert(file.filename, file.bytes).is_none());
            }
            manifest = flushed.manifest;
            for (name, bytes) in &standing {
                assert_eq!(&files[name], bytes);
            }
            let (_, map) = load_manifest(&manifest).unwrap();
            assert_eq!(map.values().map(|entries| entries.len()).sum::<usize>(), before + 2);
            assert_eq!(map[&1].last().unwrap().segment_version, round);
            assert_eq!(map[&1].last().unwrap().num_vectors, 3);
            assert_eq!(map[&0].len(), 1);
            let back = load_back(&manifest, &files).unwrap();
            assert_eq!(back.len(), index.len());
            assert_eq!(saved(&back), saved(&index));
        }
    }
}

#[test]
fn a_flush_takes_a_version_that_is_not_in_use() {
    let index = index(&[1, 1], 8, 0);
    let mut map = BTreeMap::new();
    map.insert(0, vec![entry(0, 0, 1), entry(0, 7, 1), entry(0, 3, 1)]);
    map.insert(1, vec![entry(1, u32::MAX, 1)]);
    let flushed = index.flush_v4(map, &[0, 1, 0, 1]);
    let names: Vec<&str> = flushed.segments.iter().map(|f| f.filename.as_str()).collect();
    assert_eq!(
        names,
        vec![
            "cluster_0000_v0008.seg",
            "cluster_0001_v0000.seg",
            "cluster_0000_v0009.seg",
            "cluster_0001_v0001.seg"
        ]
    );
    // The entries say that nothing is new.
    for file in &flushed.segments {
        assert!(read_segment_full(&file.bytes).unwrap().ids.is_empty());
    }
    let (_, map) = load_manifest(&flushed.manifest).unwrap();
    let versions: Vec<u32> = map[&1].iter().map(|e| e.segment_version).collect();
    assert_eq!(versions, vec![u32::MAX, 0, 1]);
    // A cluster without segments is written as a whole.
    let fresh = index.flush_v4(BTreeMap::new(), &[1]);
    assert_eq!(fresh.segments[0].filename, "cluster_0001_v0000.seg");
    let whole = read_segment_full(&fresh.segments[0].bytes).unwrap();
    assert_eq!(whole.batch_data, index.clusters[1].batch_data);
}

#[test]
fn new_vectors_are_added_to_centroids_alone() {
    let mut whole = index(&[40, 2, 3], 16, 2);
    let (manifest, mut files) = stored(&whole);
    let (header, map) = load_manifest(&manifest).unwrap();
    let mut centroids = Vec::new();
    for key in ordered_keys(&map) {
        let front = &files[&map[&key][0].segment_filename][..21 + 4 * 16];
        centroids.push(read_segment_centroid(front, 16).unwrap().1);
    }
    let mut new = IvfRabitqIndex::from_centroids(header, centroids);
    assert_eq!((new.len(), new.cluster_count(), new.ex_bits), (0, 3, 2));
    for i in 0..33u8 {
        new.clusters[1].append_vector(100 + i as u64, vector(200 + i, 16, 2));
        whole.clusters[1].append_vector(100 + i as u64, vector(200 + i, 16, 2));
    }
    new.flush_all_pending();
    whole.flush_all_pending();
    let added = new.flush_inserted(map, &[1]);
    assert_eq!(added.segments.len(), 1);
    assert_eq!(added.segments[0].filename, "cluster_0001_v0001.seg");
    assert_eq!(read_segment_full(&added.segments[0].bytes).unwrap().ids.len(), 33);
    for file in added.segments {
        assert!(files.insert(file.filename, file.bytes).is_none());
    }
    let back = load_back(&added.manifest, &files).unwrap();
    assert_eq!(saved(&back), saved(&whole));
}

#[test]
fn a_changed_header_is_refused_for_its_checksum() {
    let (manifest, _) = stored(&index(&[2], 8, 1));
    for i in 8..20 {
        let mut wrong = manifest.clone();
        wrong[i] ^= 0x55;
        assert!(matches!(
            load_manifest(&wrong),
            Err(RabitqError::InvalidPersistence("manifest checksum mismatch"))
        ));
    }
}

fn loaded(c: &ClusterData) -> LoadedSegment {
    LoadedSegment {
        num_vectors: c.num_vectors as u32,
        data: ClusterSegmentData::from_cluster_data(0, c, c.padded_dim, c.ex_bits),
    }
}

#[test]
fn base_and_delta_segments_join_to_one_cluster() {
    for (padded_dim, ex_bits) in [(16, 2), (12, 0), (12, 3)] {
        let parts = [
            cluster(0, 30, padded_dim, ex_bits),
            cluster(30, 5, padded_dim, ex_bits),
            cluster(35, 0, padded_dim, ex_bits),
            cluster(35, 33, padded_dim, ex_bits),
        ];
        let joined =
            load_cluster(parts.iter().map(loaded).collect(), padded_dim, ex_bits).unwrap();
        assert!(joined.is_well_formed());
        assert_eq!(joined.num_vectors, 68);
        assert_eq!(joined.ids, (0..68).collect::<Vec<u64>>());
        assert_eq!(joined.centroid, parts[0].centroid);
        let whole = cluster(0, 68, padded_dim, ex_bits);
        assert_eq!(joined.batch_data, whole.batch_data);
        assert_eq!(joined.ex_codes_packed, whole.ex_codes_packed);
        assert_eq!(joined.f_add_ex, whole.f_add_ex);
        assert_eq!(joined.vl, whole.vl);
    }
}

#[test]
fn segments_that_do_not_hold_together_are_not_joined() {
    let c = cluster(0, 3, 8, 0);
    assert_eq!(segment_reason(load_cluster(Vec::new(), 8, 0)), "cluster without segments");
    let mut short = loaded(&c);
    short.num_vectors = 4;
    assert_eq!(
        segment_reason(load_cluster(vec![loaded(&c), short], 8, 0)),
        "segment layout mismatch"
    );
    let mut odd = loaded(&c);
    odd.data.delta.pop();
    assert_eq!(
        segment_reason(load_cluster(vec![odd, loaded(&c)], 8, 0)),
        "segment layout mismatch"
    );
    // A single segment is taken as it is.
    let mut alone = loaded(&c);
    alone.num_vectors = 2;
    let taken = load_cluster(vec![alone], 8, 0).unwrap();
    assert_eq!(taken.num_vectors, 2);
    assert_eq!(taken.ids.len(), 3);
    let h = header();
    assert_eq!(
        reason(IvfRabitqIndex::load_from_v4_dir(h, vec![vec![loaded(&c)], Vec::new()])),
        "cluster without segments"
    );
}

// ---- checksums and damage ----

fn bitwise_crc32(data: &[u8]) -> u32 {
    let mut c = 0xFFFF_FFFFu32;
    for &b in data {
        c ^= b as u32;
        for _ in 0..8 {
            c = if c & 1 == 1 { (c >> 1) ^ 0xEDB8_8320 } else { c >> 1 };
        }
    }
    !c
}

#[test]
fn checksums_are_those_of_the_ieee_polynomial() {
    assert_eq!(bitwise_crc32(b"123456789"), 0xCBF4_3926);
    for sizes in [&[][..], &[0][..], &[1][..], &[33][..], &[40, 0, 60][..], &[90, 90][..]] {
        let index = index(sizes, 24, 3);
        let bytes = saved(&index);
        let end = bytes.len() - 4;
        assert_eq!(&bytes[end..], &bitwise_crc32(&bytes[8..end]).to_le_bytes());
        for c in &index.clusters {
            let bytes = write_segment(&ClusterSegmentData::from_cluster_data(5, c, 24, 3), 1);
            let end = bytes.len() - 4;
            assert_eq!(&bytes[end..], &bitwise_crc32(&bytes[4..end]).to_le_bytes());
        }
    }
}

#[test]
fn every_changed_byte_of_the_data_of_an_index_file_is_refused() {
    let bytes = saved(&index(&[2], 8, 1));
    // Lengths and counts: of the cluster, of its batches, and of its two extended codes.
    let fixed = [79..87, 103..111, 527..535, 536..544];
    assert_eq!(&bytes[527..535], &1u64.to_le_bytes());
    assert_eq!(&bytes[536..544], &1u64.to_le_bytes());
    assert_eq!(bytes.len(), 545 + 32 + 4);
    for i in 44..bytes.len() {
        let mut wrong = bytes.clone();
        wrong[i] ^= 0x21;
        let why = reason(IvfRabitqIndex::load_from_reader(&wrong));
        if !fixed.iter().any(|f| f.contains(&i)) {
            assert_eq!(why, "checksum mismatch", "byte {i}");
        }
    }
}

#[test]
fn a_changed_header_of_an_index_file_is_refused() {
    let bytes = saved(&index(&[2], 8, 1));
    for i in (0..8).chain(16..28) {
        for v in 0..=255u8 {
            let mut changed = bytes.clone();
            changed[i] = v;
            assert_eq!(
                IvfRabitqIndex::load_from_reader(&changed).is_ok(),
                v == bytes[i],
                "byte {i}"
            );
        }
    }
    // Another metric that is known is told by the checksum alone.
    let mut changed = bytes.clone();
    changed[16] = 0;
    assert_eq!(reason(IvfRabitqIndex::load_from_reader(&changed)), "checksum mismatch");
}

#[test]
fn every_changed_byte_of_the_data_of_a_segment_is_refused() {
    let c = cluster(4, 2, 8, 1);
    let bytes = write_segment(&ClusterSegmentData::from_cluster_data(7, &c, 8, 1), 3);
    // The dimension, the counts of vectors and codes, and the lengths.
    let fixed = [12..16, 17..21, 69..77, 493..497, 497..505, 506..514];
    for i in 4..bytes.len() {
        if fixed.iter().any(|f| f.contains(&i)) {
            continue;
        }
        let mut wrong = bytes.clone();
        wrong[i] ^= 0x84;
        assert_eq!(
            segment_reason(read_segment_full(&wrong)),
            "segment checksum mismatch",
            "byte {i}"
        );
    }
}

// ---- counts ----

#[test]
fn the_vectors_of_all_segments_are_counted() {
    let mut map = BTreeMap::new();
    assert_eq!(saved_vectors(&map), Some(0));
    map.insert(0, vec![entry(0, 0, 5), entry(0, 1, 7)]);
    map.insert(3, Vec::new());
    map.insert(u32::MAX, vec![entry(9, 0, u32::MAX)]);
    assert_eq!(saved_vectors(&map), Some(12 + u32::MAX as u64));
    let (manifest, _) = stored(&index(&[40, 0, 3], 16, 2));
    assert_eq!(saved_vectors(&load_manifest(&manifest).unwrap().1), Some(43));
}

#[test]
fn clusters_with_vectors_are_named_in_order() {
    let mut index = index(&[0, 2, 0, 1, 0], 8, 0);
    assert_eq!(index.clusters_with_vectors(), vec![1, 3]);
    index.clusters[4].append_vector(50, vector(50, 8, 0));
    assert_eq!(index.clusters_with_vectors(), vec![1, 3, 4]);
    index.flush_all_pending();
    assert_eq!(index.clusters_with_vectors(), vec![1, 3, 4]);
    index.clusters.clear();
    assert!(index.clusters_with_vectors().is_empty());
}
