use nodes::distance::{key_bits, order_key, DistanceError, DistanceMetric, VectorSpace};
use nodes::hnsw::{select_neighbors_simple, sort_by_distance, HnswConfig, HnswIndex};

struct F32Space;

fn widen(v: &[u32]) -> Vec<f64> {
    v.iter().map(|&b| f32::from_bits(b) as f64).collect()
}

impl VectorSpace for F32Space {
    fn distance(&self, metric: DistanceMetric, a: &Vec<u32>, b: &Vec<u32>) -> u32 {
        let a = widen(a);
        let b = widen(b);
        let d = match metric {
            DistanceMetric::Euclidean => {
                a.iter().zip(&b).map(|(x, y)| (x - y) * (x - y)).sum::<f64>().sqrt()
            }
            DistanceMetric::Cosine => {
                let dot: f64 = a.iter().zip(&b).map(|(x, y)| x * y).sum();
                let ma = a.iter().map(|x| x * x).sum::<f64>().sqrt();
                let mb = b.iter().map(|x| x * x).sum::<f64>().sqrt();
                1.0 - dot / (ma * mb)
            }
        };
        order_key((d as f32).to_bits())
    }
}

fn bits(v: &[f32]) -> Vec<u32> {
    v.iter().map(|x| x.to_bits()).collect()
}

fn value(key: u32) -> f32 {
    f32::from_bits(key_bits(key))
}

fn pairs(v: Vec<(u64, Vec<f32>)>) -> Vec<(u64, Vec<u32>)> {
    v.into_iter().map(|(id, x)| (id, bits(&x))).collect()
}

fn config(metric: DistanceMetric) -> HnswConfig {
    HnswConfig {
        m: 8,
        max_m: 8,
        max_m_l: 16,
        ml: (1.0 / (2.0_f64).ln()).to_bits(),
        ef_construction: 100,
        metric,
    }
}

#[test]
fn test_hnsw_basic_operations() {
    let mut index = HnswIndex::with_default_config(F32Space);

    let vector1 = vec![1.0, 2.0, 3.0];
    let vector2 = vec![4.0, 5.0, 6.0];

    assert!(index.insert(1, bits(&vector1)).is_ok());
    assert!(index.insert(2, bits(&vector2)).is_ok());

    assert_eq!(index.len(), 2);
    assert!(!index.is_empty());

    let query = vec![1.5, 2.5, 3.5];
    let results = index.search(&bits(&query), 1, 10).unwrap();

    assert_eq!(results.len(), 1);
    assert_eq!(results[0].0, 1);
}

#[test]
fn test_hnsw_build_from_vectors() {
    let mut index = HnswIndex::with_default_config(F32Space);

    let vectors = pairs(vec![
        (1, vec![1.0, 0.0]),
        (2, vec![0.0, 1.0]),
        (3, vec![-1.0, 0.0]),
        (4, vec![0.0, -1.0]),
    ]);

    assert!(index.build_from_vectors(vectors).is_ok());
    assert_eq!(index.len(), 4);

    let results = index.search(&bits(&[1.0, 0.0]), 2, 10).unwrap();
    assert_eq!(results.len(), 2);
    assert_eq!(results[0].0, 1);
}

#[test]
fn test_hnsw_euclidean_integration() {
    let mut index = HnswIndex::new(config(DistanceMetric::Euclidean), F32Space);

    let vectors = pairs(vec![
        (1, vec![0.0, 0.0]),
        (2, vec![1.0, 0.0]),
        (3, vec![0.0, 1.0]),
        (4, vec![1.0, 1.0]),
        (5, vec![-1.0, 0.0]),
        (6, vec![0.0, -1.0]),
        (7, vec![2.0, 0.0]),
        (8, vec![0.0, 2.0]),
    ]);

    assert!(index.build_from_vectors(vectors).is_ok());
    assert_eq!(index.len(), 8);

    let results = index.search(&bits(&[0.1, 0.1]), 3, 50).unwrap();
    assert_eq!(results.len(), 3);
    assert_eq!(results[0].0, 1);

    let results = index.search(&bits(&[0.9, 0.1]), 2, 50).unwrap();
    assert_eq!(results.len(), 2);
    assert_eq!(results[0].0, 2);

    let results = index.search(&bits(&[1.0, 1.0]), 1, 50).unwrap();
    assert_eq!(results.len(), 1);
    assert_eq!(results[0].0, 4);
    assert!(value(results[0].1) < 0.001);
}

#[test]
fn test_hnsw_cosine_integration() {
    let mut index = HnswIndex::new(config(DistanceMetric::Cosine), F32Space);

    let vectors = pairs(vec![
        (1, vec![1.0, 0.0, 0.0]),
        (2, vec![2.0, 0.0, 0.0]),
        (3, vec![0.0, 1.0, 0.0]),
        (4, vec![0.0, 0.0, 1.0]),
        (5, vec![1.0, 1.0, 0.0]),
        (6, vec![1.0, 0.0, 1.0]),
    ]);

    assert!(index.build_from_vectors(vectors).is_ok());
    assert_eq!(index.len(), 6);

    let results = index.search(&bits(&[3.0, 0.0, 0.0]), 2, 50).unwrap();
    assert_eq!(results.len(), 2);
    assert!(value(results[0].1) < 0.1);
    assert!(value(results[1].1) < 0.1);
}

#[test]
fn test_hnsw_empty_index() {
    let index = HnswIndex::with_default_config(F32Space);

    assert!(index.is_empty());
    assert_eq!(index.len(), 0);
    assert!(index.entry_point().is_none());

    let results = index.search(&bits(&[1.0, 2.0, 3.0]), 5, 10).unwrap();
    assert!(results.is_empty());
}

#[test]
fn test_hnsw_single_vector() {
    let mut index = HnswIndex::with_default_config(F32Space);

    let vector = vec![1.0, 2.0, 3.0];
    assert!(index.insert(42, bits(&vector)).is_ok());

    assert!(!index.is_empty());
    assert_eq!(index.len(), 1);
    assert_eq!(index.entry_point(), Some(42));

    let results = index.search(&bits(&[1.1, 2.1, 3.1]), 1, 10).unwrap();
    assert_eq!(results.len(), 1);
    assert_eq!(results[0].0, 42);
}

#[test]
fn test_hnsw_duplicate_insertion() {
    let mut index = HnswIndex::with_default_config(F32Space);

    let vector = vec![1.0, 2.0, 3.0];

    assert!(index.insert(1, bits(&vector)).is_ok());
    assert_eq!(index.len(), 1);

    assert!(index.insert(1, bits(&vector)).is_ok());
    assert_eq!(index.len(), 1);
}

#[test]
fn duplicate_id_keeps_the_first_vector() {
    let mut index = HnswIndex::with_default_config(F32Space);
    index.insert(1, bits(&[0.0, 0.0])).unwrap();
    index.insert(1, bits(&[5.0, 5.0])).unwrap();
    let results = index.search(&bits(&[0.0, 0.0]), 1, 10).unwrap();
    assert_eq!(results[0].0, 1);
    assert_eq!(value(results[0].1), 0.0);
    // a duplicate id is accepted even with a vector of another length
    assert!(index.insert(1, bits(&[1.0])).is_ok());
    assert_eq!(index.len(), 1);
}

#[test]
fn empty_index_search_ignores_the_query() {
    let index = HnswIndex::new(config(DistanceMetric::Cosine), F32Space);
    assert!(index.search(&bits(&[0.0, 0.0]), 3, 3).unwrap().is_empty());
    assert!(index.search(&Vec::new(), 0, 0).unwrap().is_empty());
}

#[test]
fn single_vector_search_is_near_zero() {
    let mut index = HnswIndex::with_default_config(F32Space);
    index.insert(42, bits(&[1.0, 2.0, 3.0])).unwrap();
    let results = index.search(&bits(&[1.0, 2.0, 3.01]), 5, 10).unwrap();
    assert_eq!(results.len(), 1);
    assert_eq!(results[0].0, 42);
    assert!(value(results[0].1) < 0.02);
}

#[test]
fn axis_points_exact_match() {
    let mut index = HnswIndex::new(config(DistanceMetric::Euclidean), F32Space);
    let vectors = pairs(vec![
        (1, vec![0.0, 0.0]),
        (2, vec![1.0, 0.0]),
        (3, vec![0.0, 1.0]),
        (4, vec![1.0, 1.0]),
    ]);
    index.build_from_vectors(vectors).unwrap();
    let results = index.search(&bits(&[1.0, 1.0]), 1, 10).unwrap();
    assert_eq!(results.len(), 1);
    assert_eq!(results[0].0, 4);
    assert!(value(results[0].1) < 0.001);
}

#[test]
fn insert_dimension_mismatch_changes_nothing() {
    let mut index = HnswIndex::with_default_config(F32Space);
    index.insert(1, bits(&[1.0, 2.0, 3.0])).unwrap();
    assert_eq!(
        index.insert(2, bits(&[1.0, 2.0])),
        Err(DistanceError::DimensionMismatch { len1: 2, len2: 3 })
    );
    assert_eq!(index.len(), 1);
    assert_eq!(index.entry_point(), Some(1));
}

#[test]
fn search_dimension_mismatch() {
    let mut index = HnswIndex::with_default_config(F32Space);
    index.insert(1, bits(&[1.0, 2.0, 3.0])).unwrap();
    assert_eq!(
        index.search(&bits(&[1.0]), 1, 10),
        Err(DistanceError::DimensionMismatch { len1: 1, len2: 3 })
    );
}

#[test]
fn cosine_rejects_zero_vectors() {
    let mut index = HnswIndex::new(config(DistanceMetric::Cosine), F32Space);
    assert_eq!(index.insert(1, bits(&[0.0, 0.0])), Err(DistanceError::ZeroMagnitude));
    assert!(index.is_empty());
    index.insert(2, bits(&[1.0, 0.0])).unwrap();
    assert_eq!(index.insert(3, bits(&[0.0, -0.0])), Err(DistanceError::ZeroMagnitude));
    assert_eq!(index.search(&bits(&[0.0, 0.0]), 1, 1), Err(DistanceError::ZeroMagnitude));
    assert_eq!(index.len(), 1);
}

#[test]
fn build_stops_at_the_first_error() {
    let mut index = HnswIndex::with_default_config(F32Space);
    let vectors = pairs(vec![(1, vec![1.0, 2.0]), (2, vec![1.0]), (3, vec![3.0, 4.0])]);
    assert_eq!(
        index.build_from_vectors(vectors),
        Err(DistanceError::DimensionMismatch { len1: 1, len2: 2 })
    );
    assert_eq!(index.len(), 1);
}

#[test]
fn build_counts_distinct_ids() {
    let mut index = HnswIndex::with_default_config(F32Space);
    let vectors = pairs(vec![
        (7, vec![1.0, 2.0]),
        (8, vec![2.0, 2.0]),
        (7, vec![9.0, 9.0]),
        (9, vec![3.0, 1.0]),
        (8, vec![0.0, 0.0]),
    ]);
    assert!(index.build_from_vectors(vectors).is_ok());
    assert_eq!(index.len(), 3);
}

fn grid_index(seed: u64) -> HnswIndex<F32Space> {
    let mut index = HnswIndex::with_seed(config(DistanceMetric::Euclidean), F32Space, seed);
    let mut vectors = Vec::new();
    for i in 0..10u64 {
        for j in 0..6u64 {
            vectors.push((i * 6 + j, vec![i as f32 * 0.7, j as f32 * 1.3 + (i % 3) as f32]));
        }
    }
    index.build_from_vectors(pairs(vectors)).unwrap();
    index
}

#[test]
fn results_are_sorted_and_bounded() {
    let index = grid_index(7);
    assert_eq!(index.len(), 60);
    for k in [0usize, 1, 3, 10, 59, 60, 100] {
        for ef in [1usize, 5, 50] {
            let results = index.search(&bits(&[2.2, 3.3]), k, ef).unwrap();
            assert!(results.len() <= k.min(index.len()));
            for w in results.windows(2) {
                assert!(w[0].1 <= w[1].1);
                assert!(value(w[0].1) <= value(w[1].1));
            }
            let mut ids: Vec<u64> = results.iter().map(|r| r.0).collect();
            ids.sort();
            ids.dedup();
            assert_eq!(ids.len(), results.len());
            if k > 0 {
                assert!(!results.is_empty());
            }
        }
    }
}

#[test]
fn seeded_indexes_agree() {
    let a = grid_index(11);
    let b = grid_index(11);
    let q = bits(&[4.0, 1.0]);
    assert_eq!(a.search(&q, 5, 20).unwrap(), b.search(&q, 5, 20).unwrap());
}

#[test]
fn higher_layer_becomes_entry_point() {
    let mut index = HnswIndex::with_default_config(F32Space);
    index.insert_at_layer(1, bits(&[0.0, 0.0]), 0).unwrap();
    index.insert_at_layer(2, bits(&[1.0, 0.0]), 2).unwrap();
    assert_eq!(index.entry_point(), Some(2));
    index.insert_at_layer(3, bits(&[2.0, 0.0]), 1).unwrap();
    assert_eq!(index.entry_point(), Some(2));
    index.insert_at_layer(4, bits(&[3.0, 0.0]), 2).unwrap();
    assert_eq!(index.entry_point(), Some(2));
    // the new top node is connected, so every node stays reachable
    let results = index.search(&bits(&[3.0, 0.0]), 4, 10).unwrap();
    assert_eq!(results.len(), 4);
    assert_eq!(results[0].0, 4);
    assert!(index.graph().has_edge(2, 1));
}

#[test]
fn pruning_caps_degrees() {
    let mut cfg = config(DistanceMetric::Euclidean);
    cfg.m = 2;
    cfg.max_m = 2;
    let mut index = HnswIndex::new(cfg, F32Space);
    for i in 0..12u64 {
        index.insert_at_layer(i, bits(&[i as f32, 0.0]), 0).unwrap();
    }
    let graph = index.graph();
    for i in 0..12u64 {
        let n = graph.get_neighbors(i).unwrap();
        assert!(n.len() <= 3, "node {} has {} neighbours", i, n.len());
        assert!(!n.contains(&i));
    }
}

#[test]
fn default_config_values() {
    let c = HnswConfig::default();
    assert_eq!(c.m, 16);
    assert_eq!(c.max_m, 16);
    assert_eq!(c.max_m_l, 16);
    assert_eq!(c.ef_construction, 200);
    assert_eq!(c.metric, DistanceMetric::Euclidean);
    assert_eq!(f64::from_bits(c.ml), 1.0 / (2.0_f64).ln());
    let index = HnswIndex::with_default_config(F32Space);
    assert_eq!(*index.config(), c);
}

#[test]
fn sorting_and_selection() {
    let mut v = vec![(1u64, 30u32), (2, 10), (3, 20), (4, 10)];
    sort_by_distance(&mut v);
    assert_eq!(v.iter().map(|c| c.1).collect::<Vec<_>>(), vec![10, 10, 20, 30]);
    let picked = select_neighbors_simple(&vec![(1, 30), (2, 10), (3, 20), (4, 5)], 2, 4);
    assert_eq!(picked, vec![(2, 10), (3, 20)]);
    let all = select_neighbors_simple(&vec![(1, 30), (2, 10)], 5, 9);
    assert_eq!(all, vec![(2, 10), (1, 30)]);
}
