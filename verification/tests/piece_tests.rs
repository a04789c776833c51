//! The pieces of the index, one by one.
use rabitq_ivf::args::{
    parse_args, parse_bench_args, parse_mstg_args, ArgsError, SaveFormat, StoreType,
};
use rabitq_ivf::cluster::ClusterData;
use rabitq_ivf::decimal::parse_number;
use rabitq_ivf::error::RabitqError;
use rabitq_ivf::fastscan::{load_code, store_code, unpack_bits, unpack_single_vector};
use rabitq_ivf::fetch::{join_code, VectorPlace};
use rabitq_ivf::float_bits::{clamp_at_zero, ge, is_finite, is_nan, lt, negate, total_lt};
use rabitq_ivf::fvecs::{read_rows, BatchReader};
use rabitq_ivf::index::IvfRabitqIndex;
use rabitq_ivf::insert::find_nearest_cluster_id;
use rabitq_ivf::lut::{
    all_negligible, highacc_lut_len, lut_len, lut_peak, lut_range, split_bytes, use_highacc,
    wrap_bytes,
};
use rabitq_ivf::memory::{capped_sum, index_memory, ClusterSizes};
use rabitq_ivf::quantized::QuantizedVector;
use rabitq_ivf::report::{
    count_hits, effective_topk, estimate_load, estimate_save, fmt_bytes, probe_sweep,
};
use rabitq_ivf::search::{
    select_clusters, ClusterEstimates, QueryEstimates, SearchParams, SearchResult,
};
use rabitq_ivf::train::{check_train, check_train_with_clusters, TrainedParts};
use rabitq_ivf::types::{Metric, Rotator, RotatorType};
use rand::rngs::StdRng;
use rand::{Rng, SeedableRng};
use roaring::RoaringBitmap;

fn vector(seed: u8, padded_dim: usize, ex_bits: usize) -> QuantizedVector {
    QuantizedVector {
        binary_code_packed: (0..padded_dim / 8).map(|i| seed.wrapping_mul(31) ^ i as u8).collect(),
        ex_code_packed: vec![seed; (padded_dim * ex_bits + 7) / 8],
        ex_bits: ex_bits as u8,
        dim: padded_dim,
        delta: seed as u32 + 1,
        vl: seed as u32 + 2,
        f_add: seed as u32 + 3,
        f_rescale: seed as u32 + 4,
        f_error: seed as u32 + 5,
        residual_norm: seed as u32 + 9,
        f_add_ex: seed as u32 + 6,
        f_rescale_ex: seed as u32 + 7,
    }
}

fn cluster(n: u8, padded_dim: usize, ex_bits: usize) -> ClusterData {
    ClusterData::from_quantized_vectors(
        vec![0; padded_dim],
        (0..n as u64).collect(),
        (0..n).map(|i| vector(i, padded_dim, ex_bits)).collect(),
        padded_dim,
        ex_bits,
    )
}

// ---- codes ----

#[test]
fn codes_stand_in_the_fastscan_layout() {
    let mut data = vec![0u8; 32 * 2];
    for slot in 0..32u8 {
        store_code(&mut data, 0, slot as usize, &[slot, 0xf0 | slot % 16]);
    }
    for slot in 0..32u8 {
        assert_eq!(load_code(&data, 0, slot as usize, 2), vec![slot, 0xf0 | slot % 16]);
    }
    // The first byte pair of a code: high nibbles of the slots 0 and 16 share a byte, then the low
    // ones sixteen bytes on.
    let mut data = vec![0u8; 32];
    store_code(&mut data, 0, 0, &[0xab]);
    store_code(&mut data, 0, 16, &[0xcd]);
    assert_eq!(data[0], 0xca);
    assert_eq!(data[16], 0xdb);
    store_code(&mut data, 0, 1, &[0x12]);
    assert_eq!(data[2], 0x01);
    store_code(&mut data, 0, 8, &[0x34]);
    assert_eq!(data[1], 0x03);
}

#[test]
fn bits_are_read_from_the_most_significant_on() {
    assert_eq!(unpack_bits(&[0b1010_0000, 1], 16)[..4], [1, 0, 1, 0]);
    assert_eq!(unpack_bits(&[0b1010_0000, 1], 16)[15], 1);
    let mut batch = vec![0u8; 64];
    store_code(&mut batch, 0, 5, &[0x80, 0x01]);
    let bits = unpack_single_vector(&batch, 5, 16);
    assert_eq!(bits.iter().map(|&b| b as u32).sum::<u32>(), 2);
    assert_eq!((bits[0], bits[15]), (1, 1));
    assert_eq!(join_code(&[0b1000_0000], &[3, 1, 0, 0, 0, 0, 0, 2], 8, 2), [7, 1, 0, 0, 0, 0, 0, 2]);
}

#[test]
fn a_table_accumulates_to_the_dot_product() {
    let dim = 64;
    let mut rng = StdRng::seed_from_u64(12345);
    let data: Vec<f32> = (0..dim).map(|_| rng.gen::<f32>() * 2.0 - 1.0).collect();
    let query: Vec<f32> = (0..dim).map(|_| rng.gen::<f32>() * 2.0 - 1.0).collect();
    let mut code = vec![0u8; dim / 8];
    for d in 0..dim {
        if data[d] >= 0.0 {
            code[d / 8] |= 1 << (7 - d % 8);
        }
    }
    let direct: f32 =
        unpack_bits(&code, dim).iter().zip(&query).map(|(&b, q)| b as f32 * q).sum();

    let mut table = vec![0.0f32; lut_len(dim).unwrap()];
    for book in 0..dim / 4 {
        for pick in 0..16 {
            table[book * 16 + pick] = (0..4)
                .filter(|bit| pick >> (3 - bit) & 1 == 1)
                .map(|bit| query[book * 4 + bit])
                .sum();
        }
    }
    let bits: Vec<u32> = table.iter().map(|v| v.to_bits()).collect();
    let (low, high) = lut_range(&bits);
    let vl = f32::from_bits(low);
    let delta = (f32::from_bits(high) - vl) / 255.0;
    let bytes: Vec<u8> =
        table.iter().map(|v| ((v - vl) / delta).round().clamp(0.0, 255.0) as u8).collect();
    let signed = wrap_bytes(&bytes);

    let mut batch = vec![0u8; 32 * dim / 8];
    store_code(&mut batch, 0, 0, &code);
    let unpacked = unpack_single_vector(&batch, 0, dim);
    let mut accumulated = 0u16;
    for book in 0..dim / 4 {
        let pick = (0..4).fold(0, |p, bit| p << 1 | unpacked[book * 4 + bit] as usize);
        accumulated += signed[book * 16 + pick] as u8 as u16;
    }
    let through_table = delta * accumulated as f32 + vl * (table.len() / 16) as f32;
    let diff = (direct - through_table).abs();
    // Each of the sixteen picks is off by half a step at most.
    assert!(
        diff < delta * (dim / 8) as f32 + 1e-4,
        "LUT-based result {through_table} doesn't match direct dot {direct}"
    );
}

#[test]
fn tables_are_measured_and_split() {
    let bits = |v: &[f32]| v.iter().map(|x| x.to_bits()).collect::<Vec<u32>>();
    assert_eq!(lut_range(&[]), (0, 0));
    assert_eq!(lut_range(&bits(&[1.0, -2.0, 0.5])), ((-2.0f32).to_bits(), 1.0f32.to_bits()));
    assert_eq!(lut_range(&bits(&[0.0, -0.0])), ((-0.0f32).to_bits(), 0));
    assert_eq!(lut_peak(&bits(&[1.0, -2.0, f32::NAN])), 2.0f32.to_bits());
    assert_eq!(lut_peak(&[]), 0);
    assert!(all_negligible(&bits(&[0.0, 1e-8, -1e-8])));
    assert!(!all_negligible(&bits(&[0.0, f32::EPSILON])));
    assert!(!all_negligible(&bits(&[f32::NAN])));
    assert!(!use_highacc(2048));
    assert!(use_highacc(2049));
    assert_eq!(lut_len(64), Some(256));
    assert_eq!(highacc_lut_len(64), Some(16 * 16 * 2));
    assert_eq!(highacc_lut_len(usize::MAX), None);
    assert_eq!(wrap_bytes(&[0, 127, 128, 255]), vec![0, 127, -128, -1]);
    let (low, high) = split_bytes(&[i16::MIN, -1, 0, i16::MAX]);
    assert_eq!(low, vec![0, 255, 0, 255]);
    assert_eq!(high, vec![0, 127, 128, 255]);
    for v in [i16::MIN, -12345, 0, 1, 254, 255, 256, i16::MAX] {
        let (low, high) = split_bytes(&[v]);
        assert_eq!(256 * high[0] as i32 + low[0] as i32 - 32768, v as i32);
    }
}

// ---- floats ----

#[test]
fn bits_compare_as_floats_do() {
    let values = [
        f32::NEG_INFINITY, -1.5, -0.0, 0.0, 1e-40, 1.5, f32::MAX, f32::INFINITY, f32::NAN, -f32::NAN,
    ];
    for a in values {
        for b in values {
            let (x, y) = (a.to_bits(), b.to_bits());
            assert_eq!(ge(x, y), a >= b);
            assert_eq!(lt(x, y), a < b);
            assert_eq!(total_lt(x, y), a.total_cmp(&b).is_lt());
        }
        assert_eq!(is_finite(a.to_bits()), a.is_finite());
        assert_eq!(is_nan(a.to_bits()), a.is_nan());
        assert_eq!(negate(a.to_bits()), (-a).to_bits());
        if !a.is_nan() {
            assert_eq!(f32::from_bits(clamp_at_zero(a.to_bits())), a.max(0.0));
        }
    }
}

// ---- clusters ----

#[test]
fn a_cluster_gives_its_vectors_back() {
    for (padded_dim, ex_bits) in [(64, 6), (64, 0), (12, 2)] {
        let c = cluster(70, padded_dim, ex_bits);
        assert!(c.is_well_formed());
        assert_eq!(c.total_vectors(), 70);
        assert_eq!(c.num_complete_batches(), 2);
        assert_eq!(c.num_remainder_vectors(), 6);
        assert_eq!(c.batch_data.len(), 3 * (4 * padded_dim + 384));
        assert_eq!(ClusterData::batch_stride(padded_dim), 4 * padded_dim + 384);
        let back = c.collect_quantized_vectors();
        assert_eq!(back.len(), 70);
        for (i, q) in back.iter().enumerate() {
            let want = vector(i as u8, padded_dim, ex_bits);
            assert_eq!(q.binary_code_packed[..padded_dim / 8], want.binary_code_packed[..]);
            assert_eq!((q.f_add, q.f_rescale, q.f_error), (want.f_add, want.f_rescale, want.f_error));
            assert_eq!((q.delta, q.vl), (want.delta, want.vl));
            if ex_bits > 0 {
                assert_eq!(q.ex_code_packed, want.ex_code_packed);
                assert_eq!((q.f_add_ex, q.f_rescale_ex), (want.f_add_ex, want.f_rescale_ex));
            } else {
                assert!(q.ex_code_packed.is_empty());
                assert_eq!((q.f_add_ex, q.f_rescale_ex), (0, 0));
            }
            assert_eq!(c.get_vector_f_add(i), want.f_add);
            assert_eq!(c.get_vector_f_rescale(i), want.f_rescale);
        }
        assert_eq!(c.batch_f_add(2)[5], vector(69, padded_dim, ex_bits).f_add);
        assert_eq!(c.batch_f_rescale(2)[6..], [0; 26]);
        assert_eq!(c.batch_f_error(0)[31], 36);
        assert_eq!(c.batch_bin_codes(1).len(), 4 * padded_dim);
    }
}

#[test]
fn the_thirty_second_pending_vector_flushes_the_buffer() {
    let mut c = cluster(3, 16, 2);
    for i in 3..34u8 {
        c.append_vector(i as u64, vector(i, 16, 2));
    }
    assert_eq!((c.num_vectors, c.pending_ids.len()), (3, 31));
    assert_eq!(c.total_vectors(), 34);
    c.append_vector(34, vector(34, 16, 2));
    assert_eq!((c.num_vectors, c.pending_ids.len()), (35, 0));
    assert_eq!(c.batch_data, cluster(35, 16, 2).batch_data);
    assert_eq!(c.ids, (0..35).collect::<Vec<u64>>());
    c.append_vector(35, vector(35, 16, 2));
    assert_eq!(c.total_vectors(), 36);
    assert_eq!(c.collect_quantized_vectors().len(), 36);
    c.flush_pending();
    assert_eq!(c.batch_data, cluster(36, 16, 2).batch_data);
    assert_eq!(c.f_add_ex, cluster(36, 16, 2).f_add_ex);
    c.flush_pending();
    assert_eq!(c.num_vectors, 36);
}

#[test]
fn clusters_that_do_not_hold_together_are_told() {
    let mut c = cluster(3, 16, 2);
    assert!(c.has_room_for(1000));
    assert!(!c.has_room_for(usize::MAX));
    assert!(!c.has_room_for(usize::MAX / 10));
    c.vl.pop();
    assert!(!c.is_well_formed());
    let mut c = cluster(3, 16, 2);
    c.batch_data.push(0);
    assert!(!c.is_well_formed());
    let mut c = cluster(3, 16, 2);
    c.append_vector(9, vector(9, 16, 2));
    assert!(c.is_well_formed());
    c.pending_vectors[0].binary_code_packed.pop();
    assert!(!c.is_well_formed());
}

// ---- searching ----

fn bits(values: &[f32]) -> Vec<u32> {
    values.iter().map(|v| v.to_bits()).collect()
}

#[test]
fn the_best_clusters_are_probed_and_ties_go_by_id() {
    let scores = bits(&[3.0, 1.0, 2.0, 1.0]);
    assert_eq!(select_clusters(Metric::L2, &scores, 3), vec![1, 3, 2]);
    assert_eq!(select_clusters(Metric::InnerProduct, &scores, 2), vec![0, 2]);
    assert_eq!(select_clusters(Metric::L2, &scores, 0), vec![1]);
    assert_eq!(select_clusters(Metric::L2, &scores, 99), vec![1, 3, 2, 0]);
    assert_eq!(find_nearest_cluster_id(&scores), 1);
    assert_eq!(find_nearest_cluster_id(&bits(&[f32::NAN, f32::NAN])), 0);
}

fn small_index(metric: Metric) -> IvfRabitqIndex {
    IvfRabitqIndex {
        dim: 8,
        padded_dim: 8,
        metric,
        rotator: Rotator { rotator_type: RotatorType::MatrixRotator, data: Vec::new() },
        clusters: vec![cluster(4, 8, 1)],
        ex_bits: 1,
    }
}

fn query(lower: &[f32], refined: &[f32]) -> QueryEstimates {
    QueryEstimates {
        dim: 8,
        centroid_scores: vec![0],
        clusters: vec![ClusterEstimates {
            lower_bounds: bits(lower),
            est_distances: bits(&vec![0.0; lower.len()]),
            refined_distances: bits(refined),
            pending_distances: Vec::new(),
        }],
    }
}

fn found(id: u64, score: f32) -> SearchResult {
    SearchResult { id, score: score.to_bits() }
}

#[test]
fn a_scan_skips_refines_and_ranks() {
    let index = small_index(Metric::L2);
    let q = query(&[0.0, 0.0, 2.5, 0.0], &[2.0, -1.0, 0.5, f32::NAN]);
    let (results, diag) = index.search_with_diagnostics(&q, SearchParams::new(2, 1)).unwrap();
    // The third vector is ruled out by its lower bound, the fourth has no distance.
    assert_eq!(results, vec![found(1, 0.0), found(0, 2.0)]);
    assert_eq!(diag.skipped_by_lower_bound, 1);
    assert_eq!(diag.extended_evaluations, 3);
    assert_eq!(diag.estimated, 2);
    let naive = index.search_naive(&q, SearchParams::new(2, 1)).unwrap();
    assert_eq!(naive, vec![found(1, -1.0), found(2, 0.5)]);
    assert!(index.is_answerable(&q, SearchParams::new(2, 1)));
    let short = query(&[0.0; 4], &[0.0; 3]);
    assert!(!index.is_answerable(&short, SearchParams::new(2, 1)));
    assert!(index.is_answerable(&short, SearchParams::new(0, 1)));
}

#[test]
fn inner_products_rank_from_the_largest_score() {
    let index = small_index(Metric::InnerProduct);
    let q = query(&[-9.0; 4], &[-2.0, -1.0, 0.5, -3.0]);
    let results = index.search(&q, SearchParams::new(3, 1)).unwrap();
    assert_eq!(results, vec![found(3, 3.0), found(0, 2.0), found(1, 1.0)]);
    assert_eq!(index.search_naive(&q, SearchParams::new(3, 1)).unwrap(), results);
}

#[test]
fn a_vector_is_located_by_its_first_place() {
    let mut index = small_index(Metric::L2);
    index.clusters[0].append_vector(77, vector(9, 8, 1));
    assert_eq!(index.locate(2), Some(VectorPlace::Packed { cluster: 0, index: 2 }));
    assert_eq!(index.locate(77), Some(VectorPlace::Pending { cluster: 0, index: 0 }));
    assert_eq!(index.locate(78), None);
    let code = index.fetch_embedding(2, &[1; 8]).unwrap();
    assert_eq!(code.code, vec![1, 1, 3, 3, 3, 3, 3, 1]);
    assert_eq!((code.cluster, code.delta, code.vl), (0, 3, 4));
}

#[test]
fn an_inserted_vector_is_read_back_before_and_after_a_flush() {
    let mut index = small_index(Metric::L2);
    assert_eq!(index.insert(77, 8, &bits(&[1.0]), vector(9, 8, 1)).unwrap(), 0);
    let pending = index.fetch_embedding(77, &[1; 8]).unwrap();
    // Code 9 * 31 mod 256 = 23 = 0b0001_0111, and an extended bit of one everywhere.
    assert_eq!(pending.code, vec![1, 1, 1, 3, 1, 3, 3, 3]);
    assert_eq!((pending.cluster, pending.delta, pending.vl), (0, 10, 11));
    index.flush_all_pending();
    assert_eq!(index.locate(77), Some(VectorPlace::Packed { cluster: 0, index: 4 }));
    let packed = index.fetch_embedding(77, &[1; 8]).unwrap();
    assert_eq!(packed.code, pending.code);
    assert_eq!((packed.cluster, packed.delta, packed.vl), (0, 10, 11));
}

#[test]
fn a_filter_only_leaves_results_out() {
    let index = small_index(Metric::L2);
    let q = query(&[0.0; 4], &[3.0, 1.0, 4.0, 2.0]);
    let mut filter = RoaringBitmap::new();
    filter.insert(0);
    filter.insert(1);
    let all = index.search(&q, SearchParams::new(3, 1)).unwrap();
    assert_eq!(all, vec![found(1, 1.0), found(3, 2.0), found(0, 3.0)]);
    let some = index.search_filtered(&q, SearchParams::new(3, 1), &filter).unwrap();
    assert_eq!(some, vec![found(1, 1.0), found(0, 3.0)]);
}

#[test]
fn a_pending_vector_is_found_at_once() {
    let mut index = small_index(Metric::L2);
    assert_eq!(index.insert((1 << 32) + 5, 8, &bits(&[1.0]), vector(9, 8, 1)).unwrap(), 0);
    let mut q = query(&[9.0; 4], &[3.0, 1.0, 4.0, 2.0]);
    q.clusters[0].pending_distances = bits(&[2.5]);
    // Lower bounds above the distances do no harm while there is room.
    let all = index.search(&q, SearchParams::new(5, 1)).unwrap();
    let ids: Vec<u64> = all.iter().map(|r| r.id).collect();
    assert_eq!(ids, vec![1, 3, (1 << 32) + 5, 0, 2]);
    let mut filter = RoaringBitmap::new();
    filter.insert(5);
    filter.insert(2);
    let some = index.search_filtered(&q, SearchParams::new(5, 1), &filter).unwrap();
    assert_eq!(some, vec![found(2, 4.0)]);
    // Three results where four vectors pass, and all where two do.
    let q = query(&[0.0; 4], &[3.0, 1.0, 4.0, 2.0]);
    let index = small_index(Metric::L2);
    assert_eq!(index.search(&q, SearchParams::new(3, 1)).unwrap().len(), 3);
    filter.insert(3);
    assert_eq!(index.search_filtered(&q, SearchParams::new(3, 1), &filter).unwrap().len(), 2);
}

#[test]
fn a_flush_leaves_full_batches_alone() {
    let mut c = cluster(32, 8, 1);
    let before = c.batch_data.clone();
    for i in 0..20u8 {
        c.append_vector(100 + i as u64, vector(100 + i, 8, 1));
    }
    c.flush_pending();
    assert_eq!(c.num_vectors, 52);
    assert_eq!(c.batch_data.len(), before.len() + ClusterData::batch_stride(8));
    assert_eq!(c.batch_data[..before.len()], before);
}

#[test]
fn a_file_comes_whole_whatever_the_batches() {
    let mut bytes = Vec::new();
    for i in 0..7u32 {
        bytes.extend_from_slice(&2u32.to_le_bytes());
        bytes.extend_from_slice(&(10 * i).to_le_bytes());
        bytes.extend_from_slice(&(10 * i + 1).to_le_bytes());
    }
    for limit in [None, Some(5), Some(7), Some(9), Some(0)] {
        let wanted = limit.unwrap_or(7).min(7);
        for size in 1..9usize {
            let mut reader = BatchReader::new(2, size, limit);
            let mut pos = 0;
            let mut all = Vec::new();
            let mut lengths = Vec::new();
            while let Some(batch) = reader.next_batch(&bytes, &mut pos) {
                lengths.push(batch.len());
                all.extend(batch);
            }
            assert_eq!(lengths.len(), (wanted + size - 1) / size);
            assert!(lengths.iter().rev().skip(1).all(|&n| n == 2 * size));
            assert!(lengths.iter().all(|&n| n > 0));
            let expected: Vec<u32> =
                (0..wanted as u32).flat_map(|i| [10 * i, 10 * i + 1]).collect();
            assert_eq!(all, expected);
            assert!(reader.next_batch(&bytes, &mut pos).is_none());
            assert!(reader.next_batch(&bytes, &mut pos).is_none());
        }
    }
}

// ---- training ----

fn config_reason<T>(r: Result<T, RabitqError>) -> &'static str {
    match r {
        Err(RabitqError::InvalidConfig(why)) => why,
        _ => panic!("no fault"),
    }
}

fn parts(centroids: usize, assignments: &[usize], padded_dim: usize) -> TrainedParts {
    TrainedParts {
        padded_dim,
        rotator: Rotator { rotator_type: RotatorType::FhtKacRotator, data: vec![1] },
        rotated_centroids: vec![vec![0; padded_dim]; centroids],
        assignments: assignments.to_vec(),
        quantized: (0..assignments.len()).map(|i| vector(i as u8, padded_dim, 2)).collect(),
    }
}

#[test]
fn each_fault_of_training_has_its_reason() {
    assert_eq!(config_reason(check_train(&[], 1, 3)), "training data must be non-empty");
    assert_eq!(config_reason(check_train(&[4], 0, 3)), "nlist must be positive");
    assert_eq!(config_reason(check_train(&[4], 1, 0)), "total_bits must be between 1 and 16");
    assert_eq!(config_reason(check_train(&[4], 1, 17)), "total_bits must be between 1 and 16");
    assert_eq!(
        config_reason(check_train(&[4, 5], 1, 3)),
        "input vectors must share the same dimension"
    );
    assert_eq!(config_reason(check_train(&[4], 2, 3)), "nlist cannot exceed number of vectors");
    assert_eq!(check_train(&[4, 4], 2, 16).unwrap(), 4);

    let check = check_train_with_clusters;
    assert_eq!(config_reason(check(&[], &[4], &[], 3)), "training data must be non-empty");
    assert_eq!(config_reason(check(&[4], &[], &[0], 3)), "centroids must be non-empty");
    assert_eq!(
        config_reason(check(&[4], &[4], &[], 3)),
        "assignments length must match data length"
    );
    assert_eq!(config_reason(check(&[4], &[4], &[0], 0)), "total_bits must be between 1 and 16");
    assert_eq!(
        config_reason(check(&[4, 5], &[4], &[0, 0], 3)),
        "input vectors must share the same dimension"
    );
    assert_eq!(
        config_reason(check(&[4], &[5], &[0], 3)),
        "centroids must match the data dimensionality"
    );
    assert_eq!(
        config_reason(check(&[4], &[4, 4], &[0], 3)),
        "nlist cannot exceed number of vectors"
    );
    assert_eq!(
        config_reason(check(&[4], &[4], &[1], 3)),
        "assignments reference invalid cluster ids"
    );
    assert_eq!(check(&[4], &[4], &[0], 1).unwrap(), 4);

    let build = IvfRabitqIndex::build_from_rotated;
    let mut uneven = parts(1, &[0, 0], 8);
    uneven.quantized.pop();
    assert_eq!(
        config_reason(build(8, Metric::L2, uneven, 3)),
        "assignments length must match number of vectors"
    );
    assert_eq!(
        config_reason(build(8, Metric::L2, parts(1, &[0], 8), 0)),
        "total_bits must be between 1 and 16"
    );
    assert_eq!(
        config_reason(build(8, Metric::L2, parts(0, &[], 8), 3)),
        "nlist must be positive"
    );
    assert_eq!(
        config_reason(build(8, Metric::L2, parts(1, &[1], 8), 3)),
        "assignments reference invalid cluster ids"
    );
}

#[test]
fn vectors_go_to_the_clusters_they_are_assigned_to() {
    let index = IvfRabitqIndex::train(&[6; 5], 2, 3, Metric::L2, parts(2, &[1, 0, 1, 1, 0], 8))
        .unwrap();
    assert_eq!((index.dim, index.padded_dim, index.ex_bits), (6, 8, 2));
    assert_eq!(index.clusters[0].ids, vec![1, 4]);
    assert_eq!(index.clusters[1].ids, vec![0, 2, 3]);
    assert_eq!(index.clusters[1].packed_vector(1).f_add, 5);
    assert_eq!(index.cluster_count(), 2);
    assert_eq!(index.len(), 5);
    assert!(!index.is_empty());
    assert!(index.is_well_formed());
}

// ---- numbers and reports ----

#[test]
fn numbers_are_read_as_std_reads_them() {
    for text in ["0", "7", "007", "+5", "18446744073709551615", "18446744073709551616", "", "+", "-0", "1 ", "1e3", "\u{661}"] {
        assert_eq!(parse_number(text, u64::MAX), text.parse::<u64>().ok(), "{text:?}");
    }
    assert_eq!(parse_number("255", 255), Some(255));
    assert_eq!(parse_number("256", 255), None);
}

fn float_text(n: u64) -> String {
    if n < 1024 {
        format!("{n} B")
    } else if n < 1024 * 1024 {
        format!("{:.1} KB", n as f64 / 1024.0)
    } else {
        format!("{:.1} MB", n as f64 / (1024.0 * 1024.0))
    }
}

#[test]
fn byte_counts_read_as_rounded_floats() {
    assert_eq!(fmt_bytes(0), "0 B");
    assert_eq!(fmt_bytes(1023), "1023 B");
    assert_eq!(fmt_bytes(1024), "1.0 KB");
    assert_eq!(fmt_bytes(1536), "1.5 KB");
    assert_eq!(fmt_bytes(1048575), "1024.0 KB");
    assert_eq!(fmt_bytes(1048576), "1.0 MB");
    for n in 1000..60_000u64 {
        assert_eq!(fmt_bytes(n), float_text(n));
    }
    let mut rng = StdRng::seed_from_u64(1);
    for _ in 0..20_000 {
        let n = rng.gen::<u64>() >> rng.gen_range(0..64);
        assert_eq!(fmt_bytes(n), float_text(n));
    }
    for n in [u64::MAX, 1 << 53, (1 << 53) + 1, (1 << 60) + 12345, 1048576 + 52429, 1048576 * 3 / 2] {
        assert_eq!(fmt_bytes(n), float_text(n));
    }
    // Halfway cases go to the even digit.
    assert_eq!(fmt_bytes(1280), "1.2 KB");
    assert_eq!(fmt_bytes(1792), "1.8 KB");
}

#[test]
fn transfers_are_estimated() {
    assert_eq!(estimate_load(10, 64), Some(200 + 450 + 10 * (21 + 256)));
    let each = 21 + 256 + 105 * 8 + 4 * 4224 + 105 * 736 + 4;
    assert_eq!(estimate_save(1050, 10, 64), Some(10 * each + 200 + 450));
    assert_eq!(estimate_save(5, 0, 64), Some(200));
    assert_eq!(estimate_save(u64::MAX, 1, 64), None);
}

#[test]
fn recall_is_counted() {
    assert_eq!(effective_topk(&[100, 30, 50], 60), 30);
    assert_eq!(effective_topk(&[100, 70], 60), 60);
    assert_eq!(effective_topk(&[], 60), 60);
    assert_eq!(count_hits(&[1, 2, 3, 2], &[2, 9, 3], 2), 2);
    assert_eq!(count_hits(&[1, 2, 3], &[2, 9, 3], 99), 2);
    assert_eq!(count_hits(&[], &[2], 1), 0);
    assert_eq!(probe_sweep(5), vec![1, 2, 4]);
    assert_eq!(probe_sweep(64), vec![1, 2, 4, 8, 16, 32, 64]);
    assert_eq!(probe_sweep(0), vec![1, 2, 4, 8, 16, 32, 64]);
    assert_eq!(probe_sweep(100).last(), Some(&96));
    assert_eq!(probe_sweep(5000).len(), 15);
}

#[test]
fn memory_is_summed_up() {
    let sizes = ClusterSizes {
        centroid_len: 1,
        ids: 10,
        batch_data: 100,
        ex_codes: 2,
        ex_code_bytes: vec![3, 4],
        f_add_ex: 1,
        f_rescale_ex: 2,
        delta: 3,
        vl: 4,
        pending_bytes: vec![1000, 2000],
        pending_ids_len: 5,
    };
    assert_eq!(sizes.packed_memory(50, 24), 50 + 4 + 80 + 100 + 48 + 7 + 40);
    assert_eq!(sizes.pending_memory(), 3040);
    assert_eq!(index_memory(&[sizes], 7, 50, 24), 7 + 329 + 3040);
    assert_eq!(capped_sum(&[usize::MAX, 1]), usize::MAX);
    assert_eq!(capped_sum(&[1, 2, 3]), 6);
}

// ---- vector files ----

fn record(d: u32, values: &[f32]) -> Vec<u8> {
    let mut out = d.to_le_bytes().to_vec();
    for v in values {
        out.extend_from_slice(&v.to_le_bytes());
    }
    out
}

#[test]
fn fvecs_reader_parses_vectors() {
    let mut bytes = record(3, &[1.0, 2.0, 3.0]);
    bytes.extend(record(3, &[4.0, 5.0, 6.0]));
    let mut reader = BatchReader::new(3, 10, None);
    let mut pos = 0;
    let batch = reader.next_batch(&bytes, &mut pos).expect("read fvecs");
    assert_eq!(batch, bits(&[1.0, 2.0, 3.0, 4.0, 5.0, 6.0]));
    assert_eq!(pos, 32);
    assert!(reader.next_batch(&bytes, &mut pos).is_none());

    let mut limited = BatchReader::new(3, 10, Some(1));
    let mut pos = 0;
    assert_eq!(limited.next_batch(&bytes, &mut pos).expect("read fvecs limit").len(), 3);
    assert!(limited.next_batch(&bytes, &mut pos).is_none());
}

#[test]
fn batches_pad_cut_and_follow_each_other() {
    let mut bytes = record(1, &[1.0]);
    bytes.extend(record(4, &[2.0, 3.0, 4.0, 5.0]));
    bytes.extend(record(2, &[6.0, 7.0]));
    bytes.extend(record(2, &[8.0]));
    let mut reader = BatchReader::new(2, 2, None);
    let mut pos = 0;
    assert_eq!(reader.next_batch(&bytes, &mut pos), Some(bits(&[1.0, 0.0, 2.0, 3.0])));
    assert_eq!(pos, 28);
    assert_eq!(reader.next_batch(&bytes, &mut pos), Some(bits(&[6.0, 7.0, 8.0, 0.0])));
    assert_eq!(pos, bytes.len());
    assert_eq!(reader.next_batch(&bytes, &mut pos), None);

    let mut reader = BatchReader::new(2, 2, None);
    assert!(reader.wants_record());
    assert_eq!(reader.push_record(5, &bytes[12..20]), 12);
    assert_eq!(reader.push_record(1, &bytes[4..8]), 0);
    assert!(!reader.wants_record());
    assert_eq!(reader.take_batch(), Some(bits(&[2.0, 3.0, 1.0, 0.0])));
    assert_eq!(reader.take_batch(), None);
}

fn numbers(rows: &[&[i32]]) -> Vec<u8> {
    let mut out = Vec::new();
    for row in rows {
        out.extend_from_slice(&(row.len() as i32).to_le_bytes());
        for v in *row {
            out.extend_from_slice(&v.to_le_bytes());
        }
    }
    out
}

#[test]
fn ivecs_reader_parses_vectors() {
    let rows = read_rows(&numbers(&[&[7, 8], &[1, 9]]), None);
    assert_eq!(rows, vec![vec![7, 8], vec![1, 9]]);

    let ids = read_rows(&numbers(&[&[5], &[6], &[11]]), None);
    assert_eq!(ids.concat(), vec![5, 6, 11]);

    let groundtruth = read_rows(&numbers(&[&[0, 1, 2], &[3, 4]]), None);
    assert_eq!(groundtruth, vec![vec![0, 1, 2], vec![3, 4]]);

    let bytes = numbers(&[&[0, 1, 2], &[3, 4]]);
    assert_eq!(read_rows(&bytes, Some(1)), vec![vec![0, 1, 2]]);
    assert_eq!(read_rows(&bytes[..bytes.len() - 2], None), vec![vec![0, 1, 2], vec![3]]);
    assert!(read_rows(&[1, 0], None).is_empty());
}

// ---- command lines ----

fn args(line: &str) -> (Vec<String>, Vec<bool>) {
    let texts: Vec<String> = line.split_whitespace().map(|s| s.to_string()).collect();
    let floats = texts.iter().map(|s| s.parse::<f32>().is_ok()).collect();
    (texts, floats)
}

fn build(line: &str) -> Result<rabitq_ivf::args::Args, ArgsError> {
    let (texts, floats) = args(line);
    parse_args(&texts, &floats)
}

#[test]
fn the_builder_reads_its_command_line() {
    let a = build("p --base b.fvecs --nlist 4096 --bits 7 --save index.bin").unwrap();
    assert_eq!(a.base.as_deref(), Some("b.fvecs"));
    assert_eq!(a.nlist, Some(4096));
    assert_eq!((a.bits, a.seed, a.limit, a.stream_batch_size), (7, 42, None, 100_000));
    assert_eq!((a.format, a.store_type, a.metric), (SaveFormat::V3, StoreType::Fs, Metric::L2));
    assert!(!a.faster_config && !a.stream && a.s3_allow_http);
    assert_eq!(a.s3_endpoint, "http://localhost:9000");
    assert_eq!(a.s3_bucket, "");
    let a = build(
        "p --load x --format v4 --store s3 --s3-bucket b --ip --seed 1 --seed 9 --limit 5 \
         --s3-endpoint e --faster-config --stream --insert new.fvecs --bits 3",
    )
    .unwrap();
    assert_eq!((a.format, a.store_type), (SaveFormat::V4, StoreType::S3));
    assert_eq!((a.metric, a.seed, a.limit, a.bits), (Metric::InnerProduct, 9, Some(5), 3));
    assert_eq!(a.insert.as_deref(), Some("new.fvecs"));
    assert_eq!(a.s3_endpoint, "e");
    assert!(a.faster_config && a.stream && a.save.is_none());
}

#[test]
fn each_fault_of_a_command_line_is_told() {
    assert!(matches!(build("p --what"), Err(ArgsError::UnknownArgument(s)) if s == "--what"));
    assert!(matches!(build("p --format v5"), Err(ArgsError::UnknownFormat(s)) if s == "v5"));
    assert!(matches!(build("p --store x"), Err(ArgsError::UnknownStore(s)) if s == "x"));
    assert!(matches!(build("p --ip --base"), Err(ArgsError::MissingValue(s)) if s == "--base"));
    assert!(matches!(build("p --nlist -4"), Err(ArgsError::InvalidNumber(s)) if s == "-4"));
    assert!(matches!(build("p --save s"), Err(ArgsError::Required("--base required"))));
    assert!(matches!(build("p --base s"), Err(ArgsError::Required("--save required"))));
    assert!(matches!(
        build("p --load s --store s3"),
        Err(ArgsError::Required("--s3-bucket required for S3 store"))
    ));
    // The first fault counts.
    assert!(matches!(build("p --bits x --what"), Err(ArgsError::InvalidNumber(_))));

    let bench = |line: &str| {
        let (texts, floats) = args(line);
        parse_bench_args(&texts, &floats)
    };
    let a = bench("p --index i --queries q --gt g --topk 10 --v4").unwrap();
    assert_eq!((a.index.as_str(), a.queries.as_str(), a.gt.as_str()), ("i", "q", "g"));
    assert!(a.v4 && a.topk == 10 && a.store_type == StoreType::Fs);
    assert_eq!(bench("p --index i --queries q --gt g").unwrap().topk, 100);
    assert!(matches!(bench("p"), Err(ArgsError::Required("--index <path> is required"))));
    assert!(matches!(bench("p --index i"), Err(ArgsError::Required("--queries <path> is required"))));
    assert!(matches!(
        bench("p --index i --queries q"),
        Err(ArgsError::Required("--gt <path> is required"))
    ));

    let mstg = |line: &str| {
        let (texts, floats) = args(line);
        parse_mstg_args(&texts, &floats)
    };
    let a = mstg("p --closure-epsilon 0.5 --max-replicas 3").unwrap();
    assert_eq!((a.closure_epsilon.as_str(), a.max_replicas), ("0.5", 3));
    assert_eq!((a.max_posting_size, a.topk, a.bits), (5000, 100, 7));
    assert_eq!((a.save.as_str(), a.centroid_precision.as_str()), ("data/gist/mstg_7bit", "bf16"));
    assert_eq!(mstg("p").unwrap().closure_epsilon, "0.02");
    assert!(matches!(mstg("p --closure-epsilon x"), Err(ArgsError::InvalidFloat(s)) if s == "x"));
}
