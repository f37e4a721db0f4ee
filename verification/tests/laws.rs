use ternary_clustering::{
    compute_centroid, dbscan, hamming_distance, hierarchical, kmeans, nearest_centroid, ternary_sq_distance,
    Linkage, Merge, Ternary,
};

fn tv(vals: &[i8]) -> Vec<Ternary> {
    vals.iter().map(|&v| Ternary::from_i8(v)).collect()
}

fn merge(left: usize, right: usize, dist_num: u128, dist_den: u128) -> Merge {
    Merge { left, right, dist_num, dist_den }
}

#[test]
fn test_from_to_i8_roundtrip() {
    for t in [Ternary::Neg, Ternary::Zero, Ternary::Pos] {
        assert_eq!(Ternary::from_i8(t.to_i8()), t);
    }
    for v in [-1i8, 0, 1] {
        assert_eq!(Ternary::from_i8(v).to_i8(), v);
    }
    assert_eq!(Ternary::from_i8(i8::MIN), Ternary::Neg);
    assert_eq!(Ternary::from_i8(i8::MAX), Ternary::Pos);
}

#[test]
fn test_distances_symmetric_and_bounded() {
    let a = tv(&[1, 0, -1, -1, 1]);
    let b = tv(&[-1, 0, 0, -1, 0]);
    let h = hamming_distance(&a, &b);
    let s = ternary_sq_distance(&a, &b);
    assert_eq!(h, 3);
    assert_eq!(s, 4 + 1 + 1);
    assert_eq!(hamming_distance(&b, &a), h);
    assert_eq!(ternary_sq_distance(&b, &a), s);
    assert!(h as i64 <= s && s <= 4 * h as i64);
    assert!(s <= 4 * 5);
}

#[test]
fn test_distances_compare_common_prefix() {
    let a = tv(&[1, -1, 1]);
    let b = tv(&[-1]);
    assert_eq!(hamming_distance(&a, &b), 1);
    assert_eq!(ternary_sq_distance(&a, &b), 4);
    assert_eq!(hamming_distance(&a, &[]), 0);
    assert_eq!(ternary_sq_distance(&[], &b), 0);
}

#[test]
fn test_nearest_centroid_first_on_tie() {
    let point = tv(&[0, 0]);
    let centroids = vec![tv(&[1, 0]), tv(&[0, -1]), tv(&[0, 0])];
    assert_eq!(nearest_centroid(&point, &centroids), 2);
    let tied = vec![tv(&[1, 1]), tv(&[1, 0]), tv(&[0, -1])];
    assert_eq!(nearest_centroid(&point, &tied), 1);
}

#[test]
fn test_nearest_centroid_no_centroids() {
    assert_eq!(nearest_centroid(&tv(&[1]), &[]), 0);
}

#[test]
fn test_compute_centroid_rounding() {
    // 2/3 > 1/2 rounds to +1; exactly 1/2 stays 0; -2/3 rounds to -1.
    assert_eq!(compute_centroid(&[tv(&[1]), tv(&[1]), tv(&[0])]), tv(&[1]));
    assert_eq!(compute_centroid(&[tv(&[1]), tv(&[0])]), tv(&[0]));
    assert_eq!(compute_centroid(&[tv(&[-1]), tv(&[-1]), tv(&[0])]), tv(&[-1]));
    assert_eq!(compute_centroid(&[tv(&[-1]), tv(&[0])]), tv(&[0]));
}

#[test]
fn test_compute_centroid_short_points() {
    // A shorter point adds nothing at the positions it lacks, but still counts.
    assert_eq!(compute_centroid(&[tv(&[1, 1]), tv(&[1])]), tv(&[1, 0]));
    assert_eq!(compute_centroid(&[tv(&[1, 1, -1]), tv(&[1, 1]), tv(&[])]), tv(&[1, 1, 0]));
}

#[test]
fn test_compute_centroid_of_copies() {
    let p = tv(&[1, 0, -1, 1]);
    let points = vec![p.clone(), p.clone(), p.clone()];
    assert_eq!(compute_centroid(&points), p);
}

#[test]
fn test_kmeans_no_iterations() {
    let data = vec![tv(&[1, 1]), tv(&[1, 0]), tv(&[-1, -1]), tv(&[-1, 0])];
    let (a, c) = kmeans(&data, 2, 0);
    assert_eq!(a, vec![0, 0, 0, 0]);
    // Starting centroids are the points at c * n / k.
    assert_eq!(c, vec![tv(&[1, 1]), tv(&[-1, -1])]);
}

#[test]
fn test_kmeans_exact_run() {
    let data = vec![tv(&[1, 1, 1]), tv(&[1, 1, 0]), tv(&[-1, -1, -1]), tv(&[-1, -1, 0])];
    let (a, c) = kmeans(&data, 2, 100);
    assert_eq!(a, vec![0, 0, 1, 1]);
    assert_eq!(c, vec![tv(&[1, 1, 0]), tv(&[-1, -1, 0])]);
}

#[test]
fn test_kmeans_k_capped() {
    let data = vec![tv(&[1]), tv(&[-1])];
    let (a, c) = kmeans(&data, 5, 10);
    assert_eq!(c.len(), 2);
    assert_eq!(a, vec![0, 1]);
}

#[test]
fn test_kmeans_stable_result_is_final() {
    let data = vec![tv(&[1, 1, 1]), tv(&[1, 0, 1]), tv(&[0, -1, -1]), tv(&[-1, -1, 0]), tv(&[1, 1, 0])];
    let r3 = kmeans(&data, 2, 3);
    let r50 = kmeans(&data, 2, 50);
    assert_eq!(r3, r50);
    for (i, p) in data.iter().enumerate() {
        assert_eq!(nearest_centroid(p, &r50.1), r50.0[i]);
    }
}

#[test]
fn test_kmeans_unchanged_run_is_stable() {
    let data = vec![tv(&[1, 1, 1]), tv(&[1, 0, 1]), tv(&[0, -1, -1]), tv(&[-1, -1, 0]), tv(&[1, 1, 0])];
    for m in 0..6 {
        let r = kmeans(&data, 2, m);
        if r == kmeans(&data, 2, m + 1) {
            for (i, p) in data.iter().enumerate() {
                assert_eq!(nearest_centroid(p, &r.1), r.0[i]);
            }
        }
    }
}

#[test]
fn test_distance_zero_iff_common_prefix_equal() {
    let a = tv(&[1, 0, -1, 1]);
    let b = tv(&[1, 0, -1]);
    assert_eq!(ternary_sq_distance(&a, &b), 0);
    assert_eq!(hamming_distance(&a, &b), 0);
    let c = tv(&[1, -1, -1]);
    assert!(ternary_sq_distance(&a, &c) > 0);
    assert!(hamming_distance(&a, &c) > 0);
}

#[test]
fn test_dbscan_border_joins_first_cluster() {
    // Points 0,1 form one dense group, 3,4 another; point 2 is within eps of 1 and 3.
    let data = vec![
        tv(&[1, 1, 1, 1]),
        tv(&[1, 1, 1, 0]),
        tv(&[1, 1, 0, 0]),
        tv(&[1, 0, 0, 0]),
        tv(&[0, 0, 0, 0]),
    ];
    let labels = dbscan(&data, 1, 3);
    // Cores: 1 (neighbours 0,1,2), 2 (1,2,3), 3 (2,3,4): all connected.
    assert_eq!(labels, vec![Some(0), Some(0), Some(0), Some(0), Some(0)]);
    let labels = dbscan(&data, 1, 4);
    assert_eq!(labels, vec![None, None, None, None, None]);
}

#[test]
fn test_dbscan_numbering_and_noise() {
    let data = vec![
        tv(&[-1, -1, -1]),
        tv(&[1, 1, 1]),
        tv(&[-1, -1, 0]),
        tv(&[1, 1, 0]),
        tv(&[0, 1, -1]),
    ];
    let labels = dbscan(&data, 1, 2);
    assert_eq!(labels, vec![Some(0), Some(1), Some(0), Some(1), None]);
}

#[test]
fn test_dbscan_min_pts_one_no_noise() {
    let data = vec![tv(&[1, 1]), tv(&[-1, -1]), tv(&[0, 1])];
    let labels = dbscan(&data, 0, 1);
    assert_eq!(labels, vec![Some(0), Some(1), Some(2)]);
}

#[test]
fn test_dbscan_shared_border() {
    // Point 2 neighbours both dense groups; it is a border point of the first one.
    let data = vec![
        tv(&[1, 1, 1, 1, 1, 1]),
        tv(&[1, 1, 1, 1, 1, 0]),
        tv(&[1, 1, 1, 0, 0, 0]),
        tv(&[1, 0, 0, 0, 0, 0]),
        tv(&[0, 0, 0, 0, 0, 0]),
    ];
    let labels = dbscan(&data, 3, 3);
    assert_eq!(labels[0], Some(0));
    assert_eq!(labels[1], Some(0));
    assert_eq!(labels[2], Some(0));
}

#[test]
fn test_hierarchical_exact_merges() {
    let data = vec![tv(&[1, 1]), tv(&[1, 0]), tv(&[-1, -1])];
    assert_eq!(hierarchical(&data, Linkage::Single), vec![merge(0, 1, 1, 1), merge(3, 2, 2, 1)]);
    assert_eq!(hierarchical(&data, Linkage::Complete), vec![merge(0, 1, 1, 1), merge(3, 2, 2, 1)]);
    assert_eq!(hierarchical(&data, Linkage::Average), vec![merge(0, 1, 1, 1), merge(3, 2, 4, 2)]);
}

#[test]
fn test_hierarchical_linkages_differ() {
    let data = vec![tv(&[1, 1, 1]), tv(&[1, 1, 0]), tv(&[1, 0, 0]), tv(&[-1, -1, -1])];
    let single = hierarchical(&data, Linkage::Single);
    let complete = hierarchical(&data, Linkage::Complete);
    let average = hierarchical(&data, Linkage::Average);
    assert_eq!(single.len(), 3);
    assert_eq!(single[0], merge(0, 1, 1, 1));
    assert_eq!(single[1], merge(4, 2, 1, 1));
    assert_eq!(complete[1], merge(4, 2, 2, 1));
    assert_eq!(average[1], merge(4, 2, 3, 2));
    assert_eq!(single[2], merge(5, 3, 3, 1));
    assert_eq!(complete[2], merge(5, 3, 3, 1));
    assert_eq!(average[2], merge(5, 3, 9, 3));
}

#[test]
fn test_hierarchical_first_merge_is_closest_pair() {
    let data = vec![tv(&[1, 1, 1]), tv(&[-1, 0, 1]), tv(&[0, 0, 0]), tv(&[-1, 0, 0])];
    for link in [Linkage::Single, Linkage::Complete, Linkage::Average] {
        let merges = hierarchical(&data, link);
        assert_eq!(merges[0], merge(1, 3, 1, 1));
    }
}

#[test]
fn test_hierarchical_empty() {
    assert!(hierarchical(&[], Linkage::Average).is_empty());
}

#[test]
fn test_hierarchical_distances_never_decrease() {
    let data = vec![
        tv(&[1, 1, 1, 0]),
        tv(&[1, 1, 0, 0]),
        tv(&[-1, 0, 1, 1]),
        tv(&[0, 0, 0, 0]),
        tv(&[-1, -1, -1, 1]),
        tv(&[1, -1, 1, -1]),
    ];
    for link in [Linkage::Single, Linkage::Complete, Linkage::Average] {
        let merges = hierarchical(&data, link);
        assert_eq!(merges.len(), data.len() - 1);
        for w in merges.windows(2) {
            // w[0].dist <= w[1].dist, compared exactly.
            assert!(w[0].dist_num * w[1].dist_den <= w[1].dist_num * w[0].dist_den);
        }
        if link != Linkage::Average {
            assert!(merges.iter().all(|m| m.dist_den == 1));
        }
    }
}

#[test]
fn test_kmeans_quick_start() {
    let data = vec![
        vec![Ternary::Pos, Ternary::Pos, Ternary::Neg],
        vec![Ternary::Pos, Ternary::Zero, Ternary::Neg],
        vec![Ternary::Neg, Ternary::Neg, Ternary::Pos],
        vec![Ternary::Neg, Ternary::Neg, Ternary::Zero],
    ];
    let (assignments, centroids) = kmeans(&data, 2, 10);
    assert_eq!(assignments, vec![0, 0, 1, 1]);
    assert_eq!(centroids, vec![tv(&[1, 0, -1]), tv(&[-1, -1, 0])]);
}
