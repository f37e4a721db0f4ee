use ternary_clustering::{
    compute_centroid, dbscan, hamming_distance, hierarchical, kmeans, nearest_centroid, ternary_sq_distance,
    Linkage, Merge, Ternary,
};

fn t(v: i8) -> Ternary {
    Ternary::from_i8(v)
}

fn tv(vals: &[i8]) -> Vec<Ternary> {
    vals.iter().map(|&v| t(v)).collect()
}

#[test]
fn test_ternary_to_i8() {
    assert_eq!(Ternary::Neg.to_i8(), -1);
    assert_eq!(Ternary::Zero.to_i8(), 0);
    assert_eq!(Ternary::Pos.to_i8(), 1);
}

#[test]
fn test_ternary_from_i8() {
    assert_eq!(Ternary::from_i8(-1), Ternary::Neg);
    assert_eq!(Ternary::from_i8(0), Ternary::Zero);
    assert_eq!(Ternary::from_i8(1), Ternary::Pos);
    assert_eq!(Ternary::from_i8(5), Ternary::Pos);
    assert_eq!(Ternary::from_i8(-5), Ternary::Neg);
}

#[test]
fn test_sq_distance_identical() {
    let a = tv(&[1, 0, -1, 1]);
    assert_eq!(ternary_sq_distance(&a, &a), 0);
}

#[test]
fn test_sq_distance_different() {
    let a = tv(&[1, 0, -1]);
    let b = tv(&[-1, 0, 1]);
    // (1-(-1))^2 + (0-0)^2 + (-1-1)^2 = 4 + 0 + 4 = 8
    assert_eq!(ternary_sq_distance(&a, &b), 8);
}

#[test]
fn test_hamming_distance() {
    let a = tv(&[1, 0, -1]);
    let b = tv(&[1, 0, 0]);
    assert_eq!(hamming_distance(&a, &b), 1);
}

#[test]
fn test_hamming_distance_all_same() {
    let a = tv(&[1, -1, 0, 1]);
    assert_eq!(hamming_distance(&a, &a), 0);
}

#[test]
fn test_compute_centroid() {
    let points = vec![tv(&[1, 1]), tv(&[1, 1]), tv(&[-1, -1])];
    let c = compute_centroid(&points);
    // mean[0] = (1+1-1)/3 = 1/3, mean[1] = 1/3; 1/3 < 0.5, so Zero for both
    assert_eq!(c, tv(&[0, 0]));
}

#[test]
fn test_compute_centroid_empty() {
    let c = compute_centroid(&[]);
    assert!(c.is_empty());
}

#[test]
fn test_nearest_centroid() {
    let point = tv(&[1, 1]);
    let centroids = vec![tv(&[-1, -1]), tv(&[1, 1]), tv(&[0, 0])];
    assert_eq!(nearest_centroid(&point, &centroids), 1);
}

#[test]
fn test_kmeans_simple() {
    let data = vec![tv(&[1, 1, 1]), tv(&[1, 1, 0]), tv(&[-1, -1, -1]), tv(&[-1, -1, 0])];
    let (assignments, centroids) = kmeans(&data, 2, 100);
    assert_eq!(assignments.len(), 4);
    assert_eq!(centroids.len(), 2);
    // First two should be in same cluster, last two in same cluster
    assert_eq!(assignments[0], assignments[1]);
    assert_eq!(assignments[2], assignments[3]);
    assert_ne!(assignments[0], assignments[2]);
}

#[test]
fn test_kmeans_empty() {
    let (a, c) = kmeans(&[], 2, 10);
    assert!(a.is_empty());
    assert!(c.is_empty());
}

#[test]
fn test_kmeans_k_zero() {
    let (a, c) = kmeans(&[tv(&[1])], 0, 10);
    assert!(a.is_empty());
    assert!(c.is_empty());
}

#[test]
fn test_dbscan_two_clusters() {
    let data = vec![tv(&[1, 1, 1]), tv(&[1, 1, 0]), tv(&[-1, -1, -1]), tv(&[-1, -1, 0])];
    let labels = dbscan(&data, 1, 2);
    assert_eq!(labels.len(), 4);
    // First two should be in one cluster, last two in another
    assert!(labels[0].is_some());
    assert!(labels[1].is_some());
    assert!(labels[2].is_some());
    assert!(labels[3].is_some());
    assert_eq!(labels[0], labels[1]);
    assert_eq!(labels[2], labels[3]);
    assert_ne!(labels[0], labels[2]);
}

#[test]
fn test_dbscan_noise() {
    let data = vec![tv(&[1, 1, 1]), tv(&[-1, -1, -1]), tv(&[0, 0, 0])];
    let labels = dbscan(&data, 0, 2);
    // With eps=0, each point is only its own neighbor, so no clusters formed
    assert!(labels.iter().all(|l| l.is_none()));
}

#[test]
fn test_dbscan_empty() {
    let labels = dbscan(&[], 1, 2);
    assert!(labels.is_empty());
}

#[test]
fn test_hierarchical_single() {
    let data = vec![tv(&[1, 1]), tv(&[1, 0]), tv(&[-1, -1])];
    let merges = hierarchical(&data, Linkage::Single);
    assert_eq!(merges.len(), 2); // n-1 merges
    // First merge should be between closest pair (0, 1) with distance 1
    assert_eq!(merges[0].dist_num as f64 / merges[0].dist_den as f64, 1.0);
}

#[test]
fn test_hierarchical_complete() {
    let data = vec![tv(&[1, 1]), tv(&[1, 0]), tv(&[-1, -1])];
    let merges = hierarchical(&data, Linkage::Complete);
    assert_eq!(merges.len(), 2);
}

#[test]
fn test_hierarchical_average() {
    let data = vec![tv(&[1, 1]), tv(&[1, 0]), tv(&[-1, -1])];
    let merges = hierarchical(&data, Linkage::Average);
    assert_eq!(merges.len(), 2);
}

#[test]
fn test_hierarchical_single_point() {
    let data = vec![tv(&[1, 1])];
    let merges = hierarchical(&data, Linkage::Single);
    assert!(merges.is_empty());
}
