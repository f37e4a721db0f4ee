use ternary_clustering::{
    cluster_spreads, davies_bouldin_terms, silhouette_coefficient, silhouette_inputs_of, SilhouetteInput, Ternary,
};

fn tv(vals: &[i8]) -> Vec<Ternary> {
    vals.iter().map(|&v| Ternary::from_i8(v)).collect()
}

/// The mean silhouette coefficient, from the library's exact per-point coefficients.
fn silhouette_score(data: &[Vec<Ternary>], assignments: &[usize]) -> f64 {
    let inputs = match silhouette_inputs_of(data, assignments) {
        None => return 0.0,
        Some(inputs) => inputs,
    };
    let mut total = 0.0f64;
    for p in &inputs {
        let (negative, num, den) = silhouette_coefficient(p);
        let s = num as f64 / den as f64;
        total += if negative { -s } else { s };
    }
    total / data.len() as f64
}

/// The Davies-Bouldin index, from the library's exact worst ratios.
fn davies_bouldin_index(data: &[Vec<Ternary>], assignments: &[usize], centroids: &[Vec<Ternary>]) -> f64 {
    match davies_bouldin_terms(data, assignments, centroids) {
        None => 0.0,
        Some((terms, non_empty)) => {
            terms.iter().map(|&(num, den)| num as f64 / den as f64).sum::<f64>() / non_empty as f64
        }
    }
}

#[test]
fn test_silhouette_perfect_clusters() {
    // Two well-separated clusters
    let data = vec![tv(&[1, 1, 1]), tv(&[1, 1, 0]), tv(&[-1, -1, -1]), tv(&[-1, -1, 0])];
    let assignments = vec![0, 0, 1, 1];
    let score = silhouette_score(&data, &assignments);
    assert!(score > 0.5, "Silhouette should be high for well-separated clusters, got {}", score);
}

#[test]
fn test_silhouette_single_cluster() {
    let data = vec![tv(&[1, 0]), tv(&[-1, 0])];
    let assignments = vec![0, 0];
    let score = silhouette_score(&data, &assignments);
    assert_eq!(score, 0.0); // Only one cluster => silhouette = 0
}

#[test]
fn test_davies_bouldin() {
    let data = vec![tv(&[1, 1]), tv(&[1, 0]), tv(&[-1, -1]), tv(&[-1, 0])];
    let assignments = vec![0, 0, 1, 1];
    let centroids = vec![tv(&[1, 1]), tv(&[-1, -1])];
    let db = davies_bouldin_index(&data, &assignments, &centroids);
    assert!(db >= 0.0);
}

#[test]
fn test_davies_bouldin_single_cluster() {
    let data = vec![tv(&[1, 0])];
    let assignments = vec![0];
    let centroids = vec![tv(&[1, 0])];
    let db = davies_bouldin_index(&data, &assignments, &centroids);
    assert_eq!(db, 0.0);
}

#[test]
fn test_silhouette_inputs_exact() {
    let data = vec![tv(&[1, 1, 1]), tv(&[1, 1, 0]), tv(&[-1, -1, -1]), tv(&[-1, -1, 0])];
    let inputs = silhouette_inputs_of(&data, &[0, 0, 1, 1]).unwrap();
    let p0 = SilhouetteInput { own_sum: 1, own_count: 1, other_sum: 6, other_count: 2 };
    assert_eq!(inputs[0], p0);
    let p3 = SilhouetteInput { own_sum: 1, own_count: 1, other_sum: 5, other_count: 2 };
    assert_eq!(inputs[3], p3);
}

#[test]
fn test_silhouette_inputs_nearest_other_cluster() {
    // Point 0 is at mean distance 2 from cluster 1 and 3/2 from cluster 2.
    let data = vec![tv(&[0, 0, 0]), tv(&[1, 1, 0]), tv(&[1, 0, 0]), tv(&[0, 1, 1])];
    let inputs = silhouette_inputs_of(&data, &[0, 1, 2, 2]).unwrap();
    assert_eq!(inputs[0], SilhouetteInput { own_sum: 0, own_count: 0, other_sum: 3, other_count: 2 });
    assert_eq!(inputs[1].other_count, 2);
}

#[test]
fn test_silhouette_inputs_trivial() {
    assert!(silhouette_inputs_of(&[tv(&[1])], &[3]).is_none());
    assert!(silhouette_inputs_of(&[tv(&[1]), tv(&[0])], &[0, 0]).is_none());
    assert!(silhouette_inputs_of(&[], &[]).is_none());
}

#[test]
fn test_cluster_spreads_exact() {
    let data = vec![tv(&[1, 1]), tv(&[1, 0]), tv(&[-1, -1]), tv(&[-1, 0])];
    let centroids = vec![tv(&[1, 1]), tv(&[-1, -1]), tv(&[0, 0])];
    let (sums, counts) = cluster_spreads(&data, &[0, 0, 1, 1], &centroids);
    assert_eq!(sums, vec![1, 1, 0]);
    assert_eq!(counts, vec![2, 2, 0]);
}

#[test]
fn test_silhouette_single_nonzero_label() {
    // One cluster, labelled 1: the score is 0, as for any single cluster.
    let data = vec![tv(&[1, 0]), tv(&[-1, 0])];
    assert!(silhouette_inputs_of(&data, &[1, 1]).is_none());
    assert_eq!(silhouette_score(&data, &[1, 1]), 0.0);
}

#[test]
fn test_davies_bouldin_terms_exact() {
    // Both spreads are 1/2 and the centroids are 2 apart: each ratio is (1*2 + 1*2) / (2*2*2).
    let data = vec![tv(&[1, 1]), tv(&[1, 0]), tv(&[-1, -1]), tv(&[-1, 0])];
    let centroids = vec![tv(&[1, 1]), tv(&[-1, -1])];
    let (terms, count) = davies_bouldin_terms(&data, &[0, 0, 1, 1], &centroids).unwrap();
    assert_eq!(terms, vec![(4, 8), (4, 8)]);
    assert_eq!(count, 2);
    assert_eq!(davies_bouldin_index(&data, &[0, 0, 1, 1], &centroids), 0.5);
}

#[test]
fn test_davies_bouldin_terms_skips_empty_and_coincident() {
    // Cluster 1 is empty; clusters 0 and 2 share a centroid, so neither has a partner.
    let data = vec![tv(&[1, 1]), tv(&[1, 0])];
    let centroids = vec![tv(&[1, 1]), tv(&[-1, -1]), tv(&[1, 1])];
    let (terms, count) = davies_bouldin_terms(&data, &[0, 2], &centroids).unwrap();
    assert_eq!(terms, vec![(0, 1), (0, 1)]);
    assert_eq!(count, 2);
}

#[test]
fn test_davies_bouldin_terms_trivial() {
    let one = vec![tv(&[1, 0])];
    assert!(davies_bouldin_terms(&one, &[0], &one).is_none());
    let centroids = vec![tv(&[1, 0]), tv(&[0, 1])];
    assert!(davies_bouldin_terms(&[], &[], &centroids).is_none());
}

#[test]
fn test_silhouette_coefficient_exact() {
    // a = 1, b = 3: (3 - 1) / 3.
    let p = SilhouetteInput { own_sum: 1, own_count: 1, other_sum: 6, other_count: 2 };
    assert_eq!(silhouette_coefficient(&p), (false, 4, 6));
    // a = 2, b = 1: (1 - 2) / 2.
    let q = SilhouetteInput { own_sum: 4, own_count: 2, other_sum: 1, other_count: 1 };
    assert_eq!(silhouette_coefficient(&q), (true, 2, 4));
    // A point alone in its cluster, with no other cluster: both means are 0.
    let r = SilhouetteInput { own_sum: 0, own_count: 0, other_sum: 0, other_count: 0 };
    assert_eq!(silhouette_coefficient(&r), (false, 0, 1));
    // A single-member cluster: a = 0, so the coefficient is 1.
    let t = SilhouetteInput { own_sum: 0, own_count: 0, other_sum: 3, other_count: 2 };
    assert_eq!(silhouette_coefficient(&t), (false, 3, 3));
}
