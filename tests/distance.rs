use nodes::distance::{
    check_pair, distance_between, is_zero, key_bits, order_key, DistanceError, DistanceMetric,
    VectorSpace,
};

struct F32Space;

fn widen(v: &[u32]) -> Vec<f64> {
    v.iter().map(|&b| f32::from_bits(b) as f64).collect()
}

impl VectorSpace for F32Space {
    fn distance(&self, metric: DistanceMetric, a: &Vec<u32>, b: &Vec<u32>) -> u32 {
        let a = widen(a);
        let b = widen(b);
        let d = match metric {
            DistanceMetric::Euclidean => {
                a.iter().zip(&b).map(|(x, y)| (x - y) * (x - y)).sum::<f64>().sqrt()
            }
            DistanceMetric::Cosine => {
                let dot: f64 = a.iter().zip(&b).map(|(x, y)| x * y).sum();
                let ma = a.iter().map(|x| x * x).sum::<f64>().sqrt();
                let mb = b.iter().map(|x| x * x).sum::<f64>().sqrt();
                1.0 - dot / (ma * mb)
            }
        };
        order_key((d as f32).to_bits())
    }
}

fn bits(v: &[f32]) -> Vec<u32> {
    v.iter().map(|x| x.to_bits()).collect()
}

fn value(key: u32) -> f32 {
    f32::from_bits(key_bits(key))
}

#[test]
fn test_cosine_similarity_dimension_mismatch() {
    let vec1 = bits(&[1.0, 2.0, 3.0]);
    let vec2 = bits(&[4.0, 5.0]);

    let result = check_pair(DistanceMetric::Cosine, &vec1, &vec2);
    assert!(result.is_err());

    match result.unwrap_err() {
        DistanceError::DimensionMismatch { len1, len2 } => {
            assert_eq!(len1, 3);
            assert_eq!(len2, 2);
        }
        _ => panic!("Expected DimensionMismatch error"),
    }
}

#[test]
fn test_cosine_similarity_zero_magnitude() {
    let vec1 = bits(&[0.0, 0.0, 0.0]);
    let vec2 = bits(&[1.0, 2.0, 3.0]);

    let result = check_pair(DistanceMetric::Cosine, &vec1, &vec2);
    assert!(result.is_err());

    match result.unwrap_err() {
        DistanceError::ZeroMagnitude => {}
        _ => panic!("Expected ZeroMagnitude error"),
    }
}

#[test]
fn test_l2_distance_dimension_mismatch() {
    let vec1 = bits(&[1.0, 2.0, 3.0]);
    let vec2 = bits(&[4.0, 5.0]);

    let result = check_pair(DistanceMetric::Euclidean, &vec1, &vec2);
    assert!(result.is_err());

    match result.unwrap_err() {
        DistanceError::DimensionMismatch { len1, len2 } => {
            assert_eq!(len1, vec1.len());
            assert_eq!(len2, vec2.len());
        }
        _ => panic!("Expected DimensionMismatch error"),
    }
}

#[test]
fn zero_vector_either_side_and_negative_zero() {
    let zero = bits(&[0.0, -0.0]);
    let other = bits(&[1.0, 0.0]);
    assert_eq!(check_pair(DistanceMetric::Cosine, &other, &zero), Err(DistanceError::ZeroMagnitude));
    assert_eq!(check_pair(DistanceMetric::Cosine, &zero, &other), Err(DistanceError::ZeroMagnitude));
    assert!(is_zero(&zero));
    assert!(!is_zero(&other));
    assert!(is_zero(&Vec::new()));
}

#[test]
fn euclidean_accepts_zero_vectors() {
    let zero = bits(&[0.0, 0.0]);
    assert_eq!(check_pair(DistanceMetric::Euclidean, &zero, &zero), Ok(()));
}

#[test]
fn mismatch_is_reported_before_zero_magnitude() {
    let zero = bits(&[0.0]);
    let other = bits(&[1.0, 2.0]);
    assert_eq!(
        check_pair(DistanceMetric::Cosine, &zero, &other),
        Err(DistanceError::DimensionMismatch { len1: 1, len2: 2 })
    );
}

#[test]
fn distance_between_uses_the_space_when_comparable() {
    let a = bits(&[2.0, 3.0]);
    let b = bits(&[5.0, 7.0]);
    let d = distance_between(&F32Space, DistanceMetric::Euclidean, &a, &b).unwrap();
    assert_eq!(value(d), 5.0);
    let short = bits(&[5.0]);
    assert_eq!(
        distance_between(&F32Space, DistanceMetric::Euclidean, &a, &short),
        Err(DistanceError::DimensionMismatch { len1: 2, len2: 1 })
    );
}

#[test]
fn order_keys_round_trip_and_follow_the_order() {
    let values = [-3.5f32, -1.0, -0.0, 0.0, 1e-30, 0.5, 1.0, 2.0, 1e30];
    for w in values.windows(2) {
        assert!(order_key(w[0].to_bits()) <= order_key(w[1].to_bits()));
    }
    for v in values {
        assert_eq!(key_bits(order_key(v.to_bits())), v.to_bits());
        assert_eq!(value(order_key(v.to_bits())), v);
    }
    assert_eq!(order_key(0), 0x8000_0000);
    assert_eq!(order_key(0x8000_0000), 0x7fff_ffff);
}
