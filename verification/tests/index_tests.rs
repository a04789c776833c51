//! Training, searching and reading back whole indexes.
//!
//! The floating-point side is a small reference: the rotation pads with zeros, the quantizer
//! scales each residual to its largest entry, and the lower bounds hold for certain.
use rabitq_ivf::cluster::ClusterData;
use rabitq_ivf::error::RabitqError;
use rabitq_ivf::index::IvfRabitqIndex;
use rabitq_ivf::quantized::QuantizedVector;
use rabitq_ivf::search::{
    ClusterEstimates, HeapCandidate, QueryEstimates, SearchDiagnostics, SearchParams, SearchResult,
};
use rabitq_ivf::train::{check_train, check_train_with_clusters, TrainedParts};
use rabitq_ivf::types::{Metric, Rotator, RotatorType};
use rand::rngs::StdRng;
use rand::{Rng, SeedableRng};
use roaring::RoaringBitmap;

fn random_vector(dim: usize, rng: &mut StdRng) -> Vec<f32> {
    (0..dim).map(|_| rng.gen::<f32>() * 2.0 - 1.0).collect()
}

fn random_data(dim: usize, total: usize, seed: u64) -> Vec<Vec<f32>> {
    let mut rng = StdRng::seed_from_u64(seed);
    (0..total).map(|_| random_vector(dim, &mut rng)).collect()
}

fn padded(dim: usize) -> usize {
    (dim + 63) / 64 * 64
}

fn rotate(v: &[f32], padded_dim: usize) -> Vec<f32> {
    let mut r = v.to_vec();
    r.resize(padded_dim, 0.0);
    r
}

fn dot(a: &[f32], b: &[f32]) -> f32 {
    a.iter().zip(b).map(|(x, y)| x * y).sum()
}

fn l2_distance_sqr(a: &[f32], b: &[f32]) -> f32 {
    a.iter().zip(b).map(|(x, y)| (x - y) * (x - y)).sum()
}

fn floats(bits: &[u32]) -> Vec<f32> {
    bits.iter().map(|&b| f32::from_bits(b)).collect()
}

fn to_bits(values: &[f32]) -> Vec<u32> {
    values.iter().map(|v| v.to_bits()).collect()
}

fn nearest(v: &[f32], centroids: &[Vec<f32>]) -> usize {
    let mut best = 0;
    for c in 1..centroids.len() {
        if l2_distance_sqr(v, &centroids[c]) < l2_distance_sqr(v, &centroids[best]) {
            best = c;
        }
    }
    best
}

fn run_kmeans(
    data: &[Vec<f32>],
    k: usize,
    rounds: usize,
    rng: &mut StdRng,
) -> (Vec<Vec<f32>>, Vec<usize>) {
    let dim = data[0].len();
    let first = rng.gen_range(0..data.len());
    let mut centroids: Vec<Vec<f32>> =
        (0..k).map(|c| data[(first + c * data.len() / k) % data.len()].clone()).collect();
    let mut assignments: Vec<usize> = data.iter().map(|v| nearest(v, &centroids)).collect();
    for _ in 0..rounds {
        for c in 0..k {
            let members: Vec<&Vec<f32>> =
                data.iter().zip(&assignments).filter(|(_, &a)| a == c).map(|(v, _)| v).collect();
            if !members.is_empty() {
                centroids[c] = (0..dim)
                    .map(|d| members.iter().map(|m| m[d]).sum::<f32>() / members.len() as f32)
                    .collect();
            }
        }
        assignments = data.iter().map(|v| nearest(v, &centroids)).collect();
    }
    (centroids, assignments)
}

/// Packs `bits` bits of each value, least significant first.
fn pack_ex_code(values: &[u16], bits: usize) -> Vec<u8> {
    let mut out = vec![0u8; (values.len() * bits + 7) / 8];
    for (i, &v) in values.iter().enumerate() {
        for b in 0..bits {
            if v >> b & 1 == 1 {
                out[(i * bits + b) / 8] |= 1 << ((i * bits + b) % 8);
            }
        }
    }
    out
}

fn unpack_ex_code(code: &[u8], dim: usize, bits: usize) -> Vec<u16> {
    (0..dim)
        .map(|i| {
            (0..bits)
                .map(|b| ((code[(i * bits + b) / 8] >> ((i * bits + b) % 8) & 1) as u16) << b)
                .sum()
        })
        .collect()
}

fn unpack_binary(code: &[u8], dim: usize) -> Vec<f32> {
    (0..dim).map(|d| (code[d / 8] >> (7 - d % 8) & 1) as f32).collect()
}

fn factors(
    residual: &[f32],
    centroid: &[f32],
    xu: &[f32],
    metric: Metric,
) -> (f32, f32, Vec<f32>) {
    let norm = dot(residual, residual);
    let along = dot(residual, xu);
    let ratio = if along.abs() > 1e-12 { norm / along } else { 0.0 };
    let error: Vec<f32> = residual.iter().zip(xu).map(|(r, x)| r - ratio * x).collect();
    match metric {
        Metric::L2 => (norm + 2.0 * ratio * dot(centroid, xu), -2.0 * ratio, error),
        Metric::InnerProduct => {
            (1.0 - dot(residual, centroid) + ratio * dot(centroid, xu), -ratio, error)
        }
    }
}

fn quantize_with_centroid(
    v: &[f32],
    centroid: &[f32],
    total_bits: usize,
    metric: Metric,
) -> QuantizedVector {
    let ex_bits = total_bits - 1;
    let dim = v.len();
    let residual: Vec<f32> = v.iter().zip(centroid).map(|(a, b)| a - b).collect();
    let reach = residual.iter().fold(1e-20f32, |m, r| m.max(r.abs()));
    let steps = (1u32 << total_bits) as f32;
    let codes: Vec<u16> = residual
        .iter()
        .map(|r| (((r / reach + 1.0) / 2.0 * steps).floor()).clamp(0.0, steps - 1.0) as u16)
        .collect();
    let cb = (1u32 << ex_bits) as f32 - 0.5;
    let xu: Vec<f32> =
        codes.iter().map(|c| if c >> ex_bits & 1 == 1 { 0.5 } else { -0.5 }).collect();
    let xu_ex: Vec<f32> = codes.iter().map(|&c| c as f32 - cb).collect();
    let (f_add, f_rescale, error) = factors(&residual, centroid, &xu, metric);
    let (f_add_ex, f_rescale_ex, error_ex) = factors(&residual, centroid, &xu_ex, metric);
    let size = dot(&error, &error).sqrt() + dot(&error_ex, &error_ex).sqrt();
    let delta = dot(&residual, &xu_ex) / dot(&xu_ex, &xu_ex);
    let mut binary = vec![0u8; dim / 8];
    for (d, x) in xu.iter().enumerate() {
        if *x > 0.0 {
            binary[d / 8] |= 1 << (7 - d % 8);
        }
    }
    let ex: Vec<u16> = codes.iter().map(|c| c & ((1 << ex_bits) - 1)).collect();
    QuantizedVector {
        binary_code_packed: binary,
        ex_code_packed: pack_ex_code(&ex, ex_bits),
        ex_bits: ex_bits as u8,
        dim,
        delta: delta.to_bits(),
        vl: (-delta * cb).to_bits(),
        f_add: f_add.to_bits(),
        f_rescale: f_rescale.to_bits(),
        f_error: (2.0 * size + 1e-3).to_bits(),
        residual_norm: dot(&residual, &residual).sqrt().to_bits(),
        f_add_ex: f_add_ex.to_bits(),
        f_rescale_ex: f_rescale_ex.to_bits(),
    }
}

fn parts_of(
    data: &[Vec<f32>],
    centroids: &[Vec<f32>],
    assignments: &[usize],
    total_bits: usize,
    metric: Metric,
    rotator_type: RotatorType,
) -> TrainedParts {
    let padded_dim = padded(data[0].len());
    let rotated_centroids: Vec<Vec<f32>> =
        centroids.iter().map(|c| rotate(c, padded_dim)).collect();
    let quantized = data
        .iter()
        .zip(assignments)
        .map(|(v, &c)| {
            quantize_with_centroid(&rotate(v, padded_dim), &rotated_centroids[c], total_bits, metric)
        })
        .collect();
    TrainedParts {
        padded_dim,
        rotator: Rotator { rotator_type, data: vec![1, 2, 3] },
        rotated_centroids: rotated_centroids.iter().map(|c| to_bits(c)).collect(),
        assignments: assignments.to_vec(),
        quantized,
    }
}

fn dims(data: &[Vec<f32>]) -> Vec<usize> {
    data.iter().map(|v| v.len()).collect()
}

fn train(
    data: &[Vec<f32>],
    nlist: usize,
    total_bits: usize,
    metric: Metric,
    rotator_type: RotatorType,
    seed: u64,
) -> IvfRabitqIndex {
    check_train(&dims(data), nlist, total_bits).expect("train index");
    let mut rng = StdRng::seed_from_u64(seed);
    let (centroids, assignments) = run_kmeans(data, nlist, 15, &mut rng);
    let parts = parts_of(data, &centroids, &assignments, total_bits, metric, rotator_type);
    IvfRabitqIndex::train(&dims(data), nlist, total_bits, metric, parts).expect("train index")
}

fn distance_of(index: &IvfRabitqIndex, q: &QuantizedVector, query: &[f32], g_add: f32) -> [f32; 2] {
    let sum: f32 = query.iter().sum();
    let binary_dot = dot(&unpack_binary(&q.binary_code_packed, index.padded_dim), query);
    let estimate = f32::from_bits(q.f_add)
        + g_add
        + f32::from_bits(q.f_rescale) * (binary_dot - 0.5 * sum);
    if index.ex_bits == 0 {
        return [estimate, estimate];
    }
    let scale = (1u32 << index.ex_bits) as f32;
    let ex: Vec<f32> = unpack_ex_code(&q.ex_code_packed, index.padded_dim, index.ex_bits)
        .iter()
        .map(|&v| v as f32)
        .collect();
    let term = scale * binary_dot + dot(&ex, query) - (scale - 0.5) * sum;
    [estimate, f32::from_bits(q.f_add_ex) + g_add + f32::from_bits(q.f_rescale_ex) * term]
}

fn cluster_estimates(index: &IvfRabitqIndex, cluster: &ClusterData, query: &[f32]) -> ClusterEstimates {
    let centroid = floats(&cluster.centroid);
    let distance = l2_distance_sqr(query, &centroid);
    let g_add = match index.metric {
        Metric::L2 => distance,
        Metric::InnerProduct => -dot(query, &centroid),
    };
    let mut e = ClusterEstimates {
        lower_bounds: Vec::new(),
        est_distances: Vec::new(),
        refined_distances: Vec::new(),
        pending_distances: Vec::new(),
    };
    for i in 0..cluster.num_vectors {
        let q = cluster.packed_vector(i);
        let [estimate, refined] = distance_of(index, &q, query, g_add);
        let slack = f32::from_bits(q.f_error) * distance.sqrt() + 1e-3;
        e.lower_bounds.push((estimate - slack).to_bits());
        e.est_distances.push(estimate.to_bits());
        e.refined_distances.push(refined.to_bits());
    }
    for q in &cluster.pending_vectors {
        let [_, refined] = distance_of(index, q, query, g_add);
        e.pending_distances.push(refined.to_bits());
    }
    e
}

fn estimates(index: &IvfRabitqIndex, query: &[f32]) -> QueryEstimates {
    let rotated = rotate(query, index.padded_dim);
    QueryEstimates {
        dim: query.len(),
        centroid_scores: index
            .clusters
            .iter()
            .map(|c| {
                let centroid = floats(&c.centroid);
                match index.metric {
                    Metric::L2 => l2_distance_sqr(&rotated, &centroid).to_bits(),
                    Metric::InnerProduct => dot(&rotated, &centroid).to_bits(),
                }
            })
            .collect(),
        clusters: index
            .clusters
            .iter()
            .map(|c| cluster_estimates(index, c, &rotated))
            .collect(),
    }
}

fn search(index: &IvfRabitqIndex, query: &[f32], params: SearchParams) -> Vec<SearchResult> {
    index.search(&estimates(index, query), params).expect("search")
}

fn score(r: &SearchResult) -> f32 {
    f32::from_bits(r.score)
}

fn approx_eq(a: f32, b: f32, rel_tol: f32, abs_tol: f32) -> bool {
    let diff = (a - b).abs();
    if diff <= abs_tol {
        return true;
    }
    let max_val = a.abs().max(b.abs());
    if max_val < 1e-6 {
        return diff < abs_tol * 10.0;
    }
    diff / max_val <= rel_tol
}

fn score_acceptable_1bit(fs: f32, nv: f32) -> bool {
    approx_eq(fs, nv, 0.05, 0.2)
}

fn score_acceptable_3bit(fs: f32, nv: f32) -> bool {
    approx_eq(fs, nv, 0.08, 0.3)
}

fn score_acceptable_7bit(fs: f32, nv: f32) -> bool {
    approx_eq(fs, nv, 0.03, 0.15)
}

fn expect_matches_naive(
    index: &IvfRabitqIndex,
    queries: &[Vec<f32>],
    params: SearchParams,
    acceptable: fn(f32, f32) -> bool,
) {
    for (query_idx, query) in queries.iter().enumerate() {
        let e = estimates(index, query);
        let (fastscan, _) = index.search_with_diagnostics(&e, params).expect("fastscan search");
        let naive = index.search_naive(&e, params).expect("naive search");
        assert_eq!(fastscan.len(), naive.len(), "Result count mismatch for query {}", query_idx);
        for (i, nv) in naive.iter().enumerate() {
            match fastscan.iter().find(|fs| fs.id == nv.id) {
                Some(fs) => assert!(
                    acceptable(score(fs), score(nv)),
                    "Query {} pos {}: fastscan={}, naive={}",
                    query_idx,
                    i,
                    score(fs),
                    score(nv)
                ),
                None => assert!(
                    i >= params.top_k - 2,
                    "Query {}: ID {} missing from FastScan results at position {}",
                    query_idx,
                    nv.id,
                    i
                ),
            }
        }
    }
}

#[test]
fn ivf_search_recovers_identical_vectors() {
    let data = random_data(32, 256, 4321);
    let index = train(&data, 32, 7, Metric::L2, RotatorType::FhtKacRotator, 7777);
    let params = SearchParams::new(20, 32);
    for (idx, vector) in data.iter().take(16).enumerate() {
        let results = search(&index, vector, params);
        assert!(!results.is_empty(), "no results returned for query {idx}");
        let target = results.iter().find(|r| r.id == idx as u64);
        assert!(target.is_some(), "failed to find vector {idx} in top-{} results", params.top_k);
        assert!(score(target.unwrap()) < 150.0);
    }
}

#[test]
fn fastscan_matches_naive_l2() {
    let data = random_data(48, 320, 2468);
    let index = train(&data, 40, 1, Metric::L2, RotatorType::FhtKacRotator, 1357);
    expect_matches_naive(&index, &data[..12], SearchParams::new(5, 12), score_acceptable_1bit);
}

#[test]
fn fastscan_matches_naive_ip() {
    let data = random_data(24, 200, 9753);
    let index = train(&data, 25, 1, Metric::InnerProduct, RotatorType::FhtKacRotator, 8642);
    expect_matches_naive(&index, &data[..12], SearchParams::new(7, 10), score_acceptable_1bit);
}

#[test]
fn one_bit_search_has_no_extended_pruning() {
    let data = random_data(20, 120, 4242);
    let index = train(&data, 16, 1, Metric::L2, RotatorType::FhtKacRotator, 2024);
    let params = SearchParams::new(4, 10);
    for query in data.iter().take(6) {
        let e = estimates(&index, query);
        let (fastscan, diag) = index.search_with_diagnostics(&e, params).expect("fastscan search");
        let naive = index.search_naive(&e, params).expect("naive search");
        assert_eq!(fastscan.len(), naive.len(), "result count mismatch");
        for (fs, nv) in fastscan.iter().zip(naive.iter()) {
            assert!(
                score_acceptable_1bit(score(fs), score(nv)),
                "Score mismatch: fastscan ID={} score={}, naive ID={} score={}",
                fs.id,
                score(fs),
                nv.id,
                score(nv)
            );
        }
        assert_eq!(
            diag.extended_evaluations, 0,
            "extended path should not be evaluated when ex_bits=0"
        );
        assert!(diag.estimated > 0, "no candidates were fully estimated in one-bit search");
    }
}

#[test]
fn index_persistence_roundtrip() {
    let data = random_data(24, 200, 7412);
    let index = train(&data, 32, 7, Metric::InnerProduct, RotatorType::FhtKacRotator, 9999);
    let mut buffer = Vec::new();
    index.save_to_writer(&mut buffer).expect("serialize index");
    let restored = IvfRabitqIndex::load_from_reader(buffer.as_slice()).expect("deserialize index");
    assert_eq!(restored.len(), index.len(), "vector count changed after reload");
    let params = SearchParams::new(5, 12);
    for query in data.iter().take(5) {
        let original = search(&index, query, params);
        let roundtrip = search(&restored, query, params);
        assert_eq!(original, roundtrip, "round-tripped results diverged");
    }
    let mut again = Vec::new();
    restored.save_to_writer(&mut again).expect("serialize index");
    assert_eq!(buffer, again);
}

#[test]
fn index_persistence_detects_corruption() {
    let data = random_data(16, 128, 0xFACE);
    let index = train(&data, 24, 7, Metric::L2, RotatorType::FhtKacRotator, 4242);
    let mut buffer = Vec::new();
    index.save_to_writer(&mut buffer).expect("serialize index");
    let checksum_offset = buffer.len().saturating_sub(4);
    assert!(checksum_offset > 0, "buffer too small for checksum test");
    buffer[checksum_offset - 1] ^= 0xAA;
    match IvfRabitqIndex::load_from_reader(buffer.as_slice()) {
        Err(RabitqError::InvalidPersistence(_msg)) => {}
        other => panic!("expected InvalidPersistence error, got {other:?}"),
    }
}

#[test]
fn index_persistence_validates_vector_count() {
    let data = random_data(12, 96, 0xC0FFEE);
    let index = train(&data, 16, 3, Metric::InnerProduct, RotatorType::FhtKacRotator, 9001);
    let mut buffer = Vec::new();
    index.save_to_writer(&mut buffer).expect("serialize index");
    let vector_count_offset = 4 + 4 + 4 + 4 + 1 + 1 + 1 + 1;
    let checksum_offset = buffer.len().saturating_sub(4);
    assert!(checksum_offset > vector_count_offset + 8);
    let mut raw = [0u8; 8];
    raw.copy_from_slice(&buffer[vector_count_offset..vector_count_offset + 8]);
    let original = u64::from_le_bytes(raw);
    let updated = original + 1;
    buffer[vector_count_offset..vector_count_offset + 8].copy_from_slice(&updated.to_le_bytes());
    let mut hasher = crc32fast::Hasher::new();
    hasher.update(&buffer[8..checksum_offset]);
    let new_checksum = hasher.finalize();
    buffer[checksum_offset..].copy_from_slice(&new_checksum.to_le_bytes());
    match IvfRabitqIndex::load_from_reader(buffer.as_slice()) {
        Err(RabitqError::InvalidPersistence(msg)) => {
            assert_eq!(msg, "vector count metadata mismatch", "unexpected error message");
        }
        other => panic!("expected vector count mismatch, got {other:?}"),
    }
}

fn train_preclustered(
    data: &[Vec<f32>],
    k: usize,
    rounds: usize,
    kmeans_seed: u64,
    metric: Metric,
) -> IvfRabitqIndex {
    let mut rng = StdRng::seed_from_u64(kmeans_seed);
    let (centroids, assignments) = run_kmeans(data, k, rounds, &mut rng);
    check_train_with_clusters(&dims(data), &dims(&centroids), &assignments, 7)
        .expect("train with clusters");
    let parts =
        parts_of(data, &centroids, &assignments, 7, metric, RotatorType::FhtKacRotator);
    IvfRabitqIndex::train_with_clusters(&dims(data), &dims(&centroids), 7, metric, parts)
        .expect("train with clusters")
}

fn expect_close_to_naive(
    index: &IvfRabitqIndex,
    queries: &[Vec<f32>],
    params: SearchParams,
    rel_tol: f32,
) {
    for query in queries {
        let e = estimates(index, query);
        let (fastscan, _) = index.search_with_diagnostics(&e, params).expect("fastscan search");
        let naive = index.search_naive(&e, params).expect("naive search");
        assert_eq!(fastscan.len(), naive.len(), "Result count mismatch");
        for (fs, nv) in fastscan.iter().zip(naive.iter()) {
            let diff = (score(fs) - score(nv)).abs();
            let acceptable = if score(nv).abs() < 0.1 {
                diff < 0.1
            } else {
                diff / score(nv).abs() < rel_tol || diff < 1e-5
            };
            assert!(acceptable, "fastscan={}, naive={}", score(fs), score(nv));
        }
    }
}

#[test]
fn preclustered_training_matches_naive_l2() {
    let data = random_data(28, 240, 0xA51CE);
    let index = train_preclustered(&data, 32, 25, 0x5EED, Metric::L2);
    expect_close_to_naive(&index, &data[..8], SearchParams::new(6, 16), 0.01);
}

#[test]
fn preclustered_training_matches_naive_ip() {
    let data = random_data(18, 180, 0xDEADBEEF);
    let index = train_preclustered(&data, 24, 30, 0xB16B00B5, Metric::InnerProduct);
    expect_close_to_naive(&index, &data[..10], SearchParams::new(5, 12), 0.02);
}

#[test]
fn filtered_search_respects_bitmap() {
    let data = random_data(32, 100, 9999);
    let index = train(&data, 16, 7, Metric::L2, RotatorType::FhtKacRotator, 1111);
    let mut filter = RoaringBitmap::new();
    for id in 10..20 {
        filter.insert(id);
    }
    let params = SearchParams::new(5, 16);
    let results = index
        .search_filtered(&estimates(&index, &data[0]), params, &filter)
        .expect("filtered search");
    assert_eq!(results.len(), 5);
    for result in &results {
        assert!(filter.contains(result.id as u32), "result id {} not in filter", result.id);
    }
}

#[test]
fn filtered_search_returns_correct_results() {
    let total = 200;
    let data = random_data(32, total, 8888);
    let index = train(&data, 20, 7, Metric::L2, RotatorType::FhtKacRotator, 2222);
    let mut filter = RoaringBitmap::new();
    for id in (0..total).step_by(2) {
        filter.insert(id as u32);
    }
    let params = SearchParams::new(10, 20);
    let e = estimates(&index, &data[50]);
    let filtered_results = index.search_filtered(&e, params, &filter).expect("filtered search");
    let unfiltered_results = index.search(&e, params).expect("unfiltered search");
    for result in &filtered_results {
        assert!(
            filter.contains(result.id as u32),
            "filtered result id {} not in filter",
            result.id
        );
    }
    for result in &filtered_results {
        assert_eq!(
            result.id % 2,
            0,
            "filtered result id {} is odd but should be even",
            result.id
        );
    }
    let unfiltered_filtered_ids: Vec<u64> = unfiltered_results
        .iter()
        .filter(|r| filter.contains(r.id as u32))
        .map(|r| r.id)
        .collect();
    let filtered_ids: Vec<u64> = filtered_results.iter().map(|r| r.id).collect();
    let min_len = filtered_ids.len().min(unfiltered_filtered_ids.len());
    assert_eq!(
        &filtered_ids[..min_len],
        &unfiltered_filtered_ids[..min_len],
        "filtered search results differ from manually filtered unfiltered results"
    );
}

#[test]
fn filtered_search_with_empty_filter() {
    let data = random_data(32, 50, 7777);
    let index = train(&data, 10, 7, Metric::L2, RotatorType::FhtKacRotator, 3333);
    let filter = RoaringBitmap::new();
    let results = index
        .search_filtered(&estimates(&index, &data[0]), SearchParams::new(5, 10), &filter)
        .expect("filtered search");
    assert!(
        results.is_empty(),
        "expected empty results with empty filter, got {}",
        results.len()
    );
}

#[test]
fn fastscan_matches_naive_bits3_l2() {
    let data = random_data(48, 256, 3333);
    let index = train(&data, 32, 3, Metric::L2, RotatorType::FhtKacRotator, 7777);
    expect_matches_naive(&index, &data[..10], SearchParams::new(10, 16), score_acceptable_3bit);
}

#[test]
fn fastscan_matches_naive_bits3_ip() {
    let data = random_data(32, 200, 3344);
    let index = train(&data, 25, 3, Metric::InnerProduct, RotatorType::FhtKacRotator, 8888);
    expect_matches_naive(&index, &data[..10], SearchParams::new(8, 12), score_acceptable_3bit);
}

fn score_acceptable_bits7_l2(fs: f32, nv: f32) -> bool {
    let diff = (fs - nv).abs();
    if nv.abs() < 0.1 {
        diff < 0.2
    } else {
        diff / nv.abs() < 0.02 || diff < 0.2
    }
}

#[test]
fn fastscan_matches_naive_bits7_l2() {
    let data = random_data(64, 200, 7777);
    let index = train(&data, 20, 7, Metric::L2, RotatorType::FhtKacRotator, 9999);
    expect_matches_naive(&index, &data[..8], SearchParams::new(5, 12), score_acceptable_bits7_l2);
}

#[test]
fn fastscan_matches_naive_bits7_ip() {
    let data = random_data(56, 180, 7788);
    let index = train(&data, 18, 7, Metric::InnerProduct, RotatorType::FhtKacRotator, 1111);
    expect_matches_naive(&index, &data[..8], SearchParams::new(6, 10), score_acceptable_7bit);
}

#[test]
fn test_simple_serialization() {
    let mut rng = StdRng::seed_from_u64(42);
    let dim = 16;
    let num_clusters = 2;
    let num_vectors = 10;
    let vectors: Vec<Vec<f32>> = (0..num_vectors)
        .map(|_| (0..dim).map(|_| rng.gen::<f32>() * 10.0 - 5.0).collect())
        .collect();
    let index = train(&vectors, num_clusters, 3, Metric::L2, RotatorType::FhtKacRotator, 42);
    let mut buffer = Vec::new();
    index.save_to_writer(&mut buffer).expect("Failed to save");
    let loaded_index = IvfRabitqIndex::load_from_reader(&buffer[..]).expect("Failed to load");
    assert_eq!(index.len(), loaded_index.len());
    assert_eq!(loaded_index.len(), 10);
}

fn fetch(index: &IvfRabitqIndex, id: u64, dim: usize) -> Option<Vec<f32>> {
    let place = index.locate(id)?;
    let stored = index.stored_vector(place);
    let ex = unpack_ex_code(&stored.ex_code_packed, index.padded_dim, index.ex_bits);
    let found = index.fetch_embedding(id, &ex)?;
    let centroid = floats(&index.clusters[found.cluster].centroid);
    let delta = f32::from_bits(found.delta);
    let vl = f32::from_bits(found.vl);
    let mut v: Vec<f32> =
        centroid.iter().zip(&found.code).map(|(c, &k)| c + delta * k as f32 + vl).collect();
    v.truncate(dim);
    Some(v)
}

fn relative_error(original: &[f32], other: &[f32]) -> f32 {
    let norm = dot(original, original).sqrt();
    l2_distance_sqr(original, other).sqrt() / norm.max(f32::EPSILON)
}

#[test]
fn test_fetch_embedding_reconstruction() {
    let dim = 64;
    let num_vectors = 100;
    let data = random_data(dim, num_vectors, 42);
    let index = train(&data, 4, 7, Metric::L2, RotatorType::MatrixRotator, 12345);
    for (vector_id, original) in data.iter().enumerate() {
        let reconstructed = fetch(&index, vector_id as u64, dim)
            .unwrap_or_else(|| panic!("Failed to fetch embedding for vector {}", vector_id));
        assert_eq!(reconstructed.len(), dim, "Reconstructed vector has wrong dimension");
        let rel_error = relative_error(original, &reconstructed);
        assert!(rel_error < 2.0, "Reconstruction error too high for vector {}", vector_id);
        // The reference quantizer keeps seven bits of each coordinate.
        assert!(rel_error < 0.05);
    }
    assert!(
        index.locate(num_vectors as u64 + 10).is_none(),
        "fetch_embedding should return None for non-existent ID"
    );
    let zeros = vec![0u16; index.padded_dim];
    assert!(index.fetch_embedding(num_vectors as u64 + 10, &zeros).is_none());
}

#[test]
fn test_fetch_embedding_fht_rotator() {
    let dim = 128;
    let mut rng = StdRng::seed_from_u64(99);
    let num_vectors = 50;
    let data: Vec<Vec<f32>> = (0..num_vectors).map(|_| random_vector(dim, &mut rng)).collect();
    let index = train(&data, 8, 7, Metric::L2, RotatorType::FhtKacRotator, 54321);
    for _ in 0..10 {
        let vector_id = rng.gen_range(0..num_vectors);
        let reconstructed = fetch(&index, vector_id as u64, dim)
            .unwrap_or_else(|| panic!("Failed to fetch embedding for vector {}", vector_id));
        assert_eq!(reconstructed.len(), dim);
        let rel_error = relative_error(&data[vector_id], &reconstructed);
        assert!(rel_error < 2.0, "FHT: Reconstruction error too high: {}", rel_error);
    }
}

fn one_cluster(
    num_vectors: usize,
    metric: Metric,
    seed: u64,
) -> (IvfRabitqIndex, Vec<f32>) {
    let dim = 64;
    let padded_dim = 64;
    let mut rng = StdRng::seed_from_u64(seed);
    let centroid = vec![0.0f32; padded_dim];
    let data: Vec<Vec<f32>> = (0..num_vectors).map(|_| random_vector(dim, &mut rng)).collect();
    let quantized: Vec<QuantizedVector> =
        data.iter().map(|v| quantize_with_centroid(v, &centroid, 1, metric)).collect();
    let ids: Vec<u64> = (0..num_vectors as u64).collect();
    let cluster =
        ClusterData::from_quantized_vectors(to_bits(&centroid), ids, quantized, padded_dim, 0);
    let query = random_vector(dim, &mut rng);
    let index = IvfRabitqIndex {
        dim,
        padded_dim,
        metric,
        rotator: Rotator { rotator_type: RotatorType::FhtKacRotator, data: Vec::new() },
        clusters: vec![cluster],
        ex_bits: 0,
    };
    (index, query)
}

fn scan_one_cluster(index: &IvfRabitqIndex, query: &[f32], top_k: usize) -> Vec<HeapCandidate> {
    let e = cluster_estimates(index, &index.clusters[0], query);
    let mut heap: Vec<HeapCandidate> = Vec::new();
    let mut diag = SearchDiagnostics::default();
    index.search_cluster_v2_batched(&index.clusters[0], &e, None, &mut heap, top_k, &mut diag);
    assert_eq!(
        diag.estimated + diag.skipped_by_lower_bound,
        index.clusters[0].num_vectors,
        "every vector is either estimated or skipped"
    );
    heap
}

#[test]
fn test_batch_search_matches_per_vector_l2() {
    let (index, query) = one_cluster(96, Metric::L2, 12345);
    let top_k = 10;
    let results = scan_one_cluster(&index, &query, top_k);
    assert!(!results.is_empty(), "Should find at least one result");
    assert!(results.len() <= top_k, "Should not exceed top_k");
    for r in &results {
        assert!(f32::from_bits(r.distance).is_finite(), "Distance should be finite");
        assert!(f32::from_bits(r.distance) >= 0.0, "L2 distance should be non-negative");
    }
    for i in 0..results.len().saturating_sub(1) {
        assert!(
            f32::from_bits(results[i].distance) <= f32::from_bits(results[i + 1].distance),
            "Results should be sorted by distance ascending"
        );
    }
}

#[test]
fn test_batch_search_matches_per_vector_ip() {
    let (index, query) = one_cluster(64, Metric::InnerProduct, 54321);
    let top_k = 5;
    let mut results = scan_one_cluster(&index, &query, top_k);
    results.sort_by(|a, b| f32::from_bits(b.score).total_cmp(&f32::from_bits(a.score)));
    assert!(!results.is_empty(), "Should find at least one result");
    assert!(results.len() <= top_k, "Should not exceed top_k");
    for r in &results {
        assert!(f32::from_bits(r.score).is_finite(), "Score should be finite");
        assert!(f32::from_bits(r.distance).is_finite(), "Distance should be finite");
    }
    for i in 0..results.len().saturating_sub(1) {
        assert!(
            f32::from_bits(results[i].score) >= f32::from_bits(results[i + 1].score),
            "Results should be sorted by score descending"
        );
    }
}

#[test]
fn a_search_adds_to_the_counters_it_is_handed() {
    let data = random_data(16, 90, 5);
    let index = train(&data, 6, 3, Metric::L2, RotatorType::FhtKacRotator, 6);
    let params = SearchParams::new(4, 3);
    let mut diag = SearchDiagnostics {
        estimated: 7,
        skipped_by_lower_bound: 8,
        extended_evaluations: 9,
    };
    let (mut estimated, mut skipped, mut extended) = (7, 8, 9);
    for v in &data[..5] {
        let q = estimates(&index, v);
        let (alone, once) = index.search_with_diagnostics(&q, params).expect("search");
        let found = index.search_fastscan(&q, params, &mut diag, None).expect("search");
        assert_eq!(found, alone);
        assert!(once.estimated > 0);
        estimated += once.estimated;
        skipped += once.skipped_by_lower_bound;
        extended += once.extended_evaluations;
        assert_eq!(diag.estimated, estimated);
        assert_eq!(diag.skipped_by_lower_bound, skipped);
        assert_eq!(diag.extended_evaluations, extended);
    }
    // No results and another dimension leave the counters as they are.
    let mut q = estimates(&index, &data[0]);
    let none = index.search_fastscan(&q, SearchParams::new(0, 3), &mut diag, None).expect("search");
    assert!(none.is_empty());
    q.dim += 1;
    assert!(index.search_fastscan(&q, params, &mut diag, None).is_err());
    assert_eq!(diag.estimated, estimated);
    assert_eq!(diag.skipped_by_lower_bound, skipped);
    assert_eq!(diag.extended_evaluations, extended);
}

#[test]
fn batch_search_answers_each_query_alone() {
    let data = random_data(16, 90, 5);
    let index = train(&data, 6, 3, Metric::L2, RotatorType::FhtKacRotator, 6);
    let params = SearchParams::new(4, 3);
    let queries: Vec<QueryEstimates> = data[..5].iter().map(|v| estimates(&index, v)).collect();
    let together = index.batch_search(&queries, params);
    assert_eq!(together.len(), 5);
    for (r, q) in together.iter().zip(&queries) {
        let alone = index.search(q, params).expect("search");
        assert_eq!(r.as_ref().expect("batch search"), &alone);
    }
}

#[test]
fn inserted_vectors_are_found_before_and_after_a_flush() {
    let data = random_data(16, 120, 77);
    let (old, new) = data.split_at(80);
    let mut index = train(old, 5, 7, Metric::L2, RotatorType::FhtKacRotator, 3);
    let centroids: Vec<Vec<f32>> = index.clusters.iter().map(|c| floats(&c.centroid)).collect();
    let (first, rest) = new.split_at(1);
    let v = rotate(&first[0], index.padded_dim);
    let distances: Vec<u32> =
        centroids.iter().map(|c| l2_distance_sqr(&v, c).to_bits()).collect();
    let home = nearest(&v, &centroids);
    let q = quantize_with_centroid(&v, &centroids[home], 7, Metric::L2);
    assert_eq!(index.insert(80, 16, &distances, q).unwrap(), home as u32);

    let mut all_distances = Vec::new();
    let mut quantized = Vec::new();
    for v in rest {
        let v = rotate(v, index.padded_dim);
        all_distances
            .push(centroids.iter().map(|c| l2_distance_sqr(&v, c).to_bits()).collect::<Vec<u32>>());
        let home = nearest(&v, &centroids);
        quantized.push(quantize_with_centroid(&v, &centroids[home], 7, Metric::L2));
    }
    index.batch_insert(81, &all_distances, &quantized).unwrap();
    assert_eq!(index.len(), 120);
    assert!(index.is_well_formed());

    let params = SearchParams::new(3, 5);
    let before: Vec<Vec<SearchResult>> = data.iter().map(|v| search(&index, v, params)).collect();
    for (i, results) in before.iter().enumerate() {
        assert_eq!(results[0].id, i as u64);
    }
    index.flush_all_pending();
    assert_eq!(index.len(), 120);
    assert!(index.clusters.iter().all(|c| c.pending_ids.is_empty()));
    for (i, v) in data.iter().enumerate() {
        assert_eq!(search(&index, v, params), before[i]);
    }
    let mut buffer = Vec::new();
    index.save_to_writer(&mut buffer).unwrap();
    let restored = IvfRabitqIndex::load_from_reader(&buffer).unwrap();
    assert_eq!(restored.len(), 120);
    assert_eq!(search(&restored, &data[100], params), before[100]);
}

#[test]
fn a_pending_vector_can_be_fetched() {
    let data = random_data(16, 40, 8);
    let mut index = train(&data[..39], 2, 7, Metric::L2, RotatorType::FhtKacRotator, 3);
    let v = rotate(&data[39], index.padded_dim);
    let centroids: Vec<Vec<f32>> = index.clusters.iter().map(|c| floats(&c.centroid)).collect();
    let distances: Vec<u32> = centroids.iter().map(|c| l2_distance_sqr(&v, c).to_bits()).collect();
    let home = nearest(&v, &centroids);
    let q = quantize_with_centroid(&v, &centroids[home], 7, Metric::L2);
    index.insert(39, 16, &distances, q).unwrap();
    let reconstructed = fetch(&index, 39, 16).expect("pending vector");
    assert!(relative_error(&data[39], &reconstructed) < 0.05);
}

#[test]
fn searching_reports_empty_indexes_and_wrong_dimensions() {
    let data = random_data(16, 20, 9);
    let index = train(&data, 2, 3, Metric::L2, RotatorType::FhtKacRotator, 3);
    let mut e = estimates(&index, &data[0]);
    e.dim = 15;
    let params = SearchParams::new(3, 2);
    assert!(matches!(
        index.search(&e, params),
        Err(RabitqError::DimensionMismatch { expected: 16, got: 15 })
    ));
    assert!(matches!(
        index.search_naive(&e, params),
        Err(RabitqError::DimensionMismatch { expected: 16, got: 15 })
    ));
    let e = estimates(&index, &data[0]);
    assert!(index.search(&e, SearchParams::new(0, 2)).unwrap().is_empty());
    let empty = IvfRabitqIndex {
        dim: 16,
        padded_dim: 64,
        metric: Metric::L2,
        rotator: Rotator { rotator_type: RotatorType::MatrixRotator, data: Vec::new() },
        clusters: Vec::new(),
        ex_bits: 2,
    };
    assert!(empty.is_empty());
    assert!(matches!(empty.search(&e, params), Err(RabitqError::EmptyIndex)));
    assert!(matches!(empty.search_naive(&e, params), Err(RabitqError::EmptyIndex)));
}

#[test]
fn inserting_a_vector_of_the_wrong_dimension_is_refused() {
    let data = random_data(16, 20, 9);
    let mut index = train(&data, 2, 3, Metric::L2, RotatorType::FhtKacRotator, 3);
    let v = rotate(&data[0], index.padded_dim);
    let q = quantize_with_centroid(&v, &vec![0.0; index.padded_dim], 3, Metric::L2);
    assert!(matches!(
        index.insert(20, 17, &[0, 0], q),
        Err(RabitqError::DimensionMismatch { expected: 16, got: 17 })
    ));
    assert_eq!(index.len(), 20);
    index.batch_insert(20, &[], &[]).unwrap();
    assert_eq!(index.len(), 20);
}

#[test]
fn no_filter_contains_an_id_beyond_32_bits() {
    let data = random_data(16, 4, 10);
    let mut index = train(&data, 1, 3, Metric::L2, RotatorType::FhtKacRotator, 3);
    index.clusters[0].ids[2] = (1u64 << 32) + 7;
    let mut filter = RoaringBitmap::new();
    filter.insert(7);
    let results = index
        .search_filtered(&estimates(&index, &data[0]), SearchParams::new(4, 1), &filter)
        .unwrap();
    assert!(results.is_empty());
    index.clusters[0].ids[2] = 7;
    let results = index
        .search_filtered(&estimates(&index, &data[0]), SearchParams::new(4, 1), &filter)
        .unwrap();
    assert_eq!(results.len(), 1);
    assert_eq!(results[0].id, 7);
}

#[test]
fn an_index_takes_at_least_the_memory_of_its_vectors() {
    let data = random_data(16, 64, 11);
    let index = train(&data, 2, 3, Metric::L2, RotatorType::FhtKacRotator, 3);
    let codes: usize = index.clusters.iter().map(|c| c.batch_data.len() + 8 * c.ids.len()).sum();
    let used = index.memory_usage();
    assert!(used > codes);
    assert!(used < 100 * codes);
}
