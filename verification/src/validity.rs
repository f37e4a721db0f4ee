//! The exact integer quantities behind the cluster validity indices.
//!
//! The silhouette of a point compares `a`, its mean Hamming distance to the other
//! members of its cluster, with `b`, the least mean distance to the members of another
//! cluster. The Davies-Bouldin index compares each cluster's mean distance to its
//! centroid with the distances between centroids. Means are given here as exact
//! (sum, count) pairs; turning them into a floating-point score is left to the caller.

use vstd::prelude::*;
use crate::ternary::{Ternary, rows};
use crate::distance::{hamming, hamming_distance, common_len, lemma_distance_ranges};
use crate::fraction::{frac_lt, frac_less, lemma_frac_lt_le, lemma_frac_le_lt};

verus! {

/// The largest cluster label, 0 for no labels.
pub open spec fn label_max(a: Seq<usize>) -> nat
    decreases a.len(),
{
    if a.len() == 0 {
        0
    } else {
        let m = label_max(a.drop_last());
        if a.last() > m {
            a.last() as nat
        } else {
            m
        }
    }
}

/// Over the points `j < m` of cluster `c`, other than `i`: the sum of their distances
/// from point `i`, and their number.
pub open spec fn cluster_stats_upto(d: Seq<Seq<Ternary>>, a: Seq<usize>, i: int, c: int, m: nat) -> (int, int)
    decreases m,
{
    if m == 0 {
        (0, 0)
    } else {
        let p = cluster_stats_upto(d, a, i, c, (m - 1) as nat);
        let j = m - 1;
        if j != i && a[j] == c {
            (p.0 + hamming(d[i], d[j]), p.1 + 1)
        } else {
            p
        }
    }
}

/// Distance sum and number of the points of cluster `c` other than `i`.
pub open spec fn cluster_stats(d: Seq<Seq<Ternary>>, a: Seq<usize>, i: int, c: int) -> (int, int) {
    cluster_stats_upto(d, a, i, c, d.len())
}

/// Among the non-empty clusters `c < k` other than point `i`'s own: the (sum, count) of
/// the first one at the least mean distance from `i`; `(0, 0)` when there is none.
pub open spec fn nearest_other_upto(d: Seq<Seq<Ternary>>, a: Seq<usize>, i: int, k: nat) -> (int, int)
    decreases k,
{
    if k == 0 {
        (0, 0)
    } else {
        let prev = nearest_other_upto(d, a, i, (k - 1) as nat);
        let c = k - 1;
        let cur = cluster_stats(d, a, i, c);
        if c == a[i] || cur.1 == 0 {
            prev
        } else if prev.1 == 0 || frac_lt(cur, prev) {
            cur
        } else {
            prev
        }
    }
}

/// All of the first `n` points carry the same label.
pub open spec fn single_label(a: Seq<usize>, n: nat) -> bool {
    forall|j: int| 0 <= j < n ==> #[trigger] a[j] == a[0]
}

/// Per point: the own-cluster (sum, count) and the nearest other cluster's (sum, count);
/// `None` when the silhouette is 0 by definition: one point or fewer, or only one cluster
/// (all labels 0, or a single label among the points).
pub open spec fn silhouette_inputs(d: Seq<Seq<Ternary>>, a: Seq<usize>) -> Option<Seq<(int, int, int, int)>> {
    let k = label_max(a) + 1;
    if d.len() <= 1 || k <= 1 || single_label(a, d.len()) {
        None
    } else {
        Some(
            Seq::new(
                d.len(),
                |i: int|
                    {
                        let own = cluster_stats(d, a, i, a[i] as int);
                        let other = nearest_other_upto(d, a, i, k);
                        (own.0, own.1, other.0, other.1)
                    },
            ),
        )
    }
}

/// What the silhouette of one point is computed from.
#[derive(Clone, Copy, Debug, PartialEq, Eq)]
pub struct SilhouetteInput {
    /// Sum of the distances to the other members of the point's cluster.
    pub own_sum: u128,
    /// Number of the other members of the point's cluster.
    pub own_count: usize,
    /// Sum of the distances to the members of the nearest other cluster.
    pub other_sum: u128,
    /// Number of members of the nearest other cluster; 0 when there is no other cluster.
    pub other_count: usize,
}

/// The mathematical view of a silhouette input.
pub open spec fn silhouette_input_view(s: SilhouetteInput) -> (int, int, int, int) {
    (s.own_sum as int, s.own_count as int, s.other_sum as int, s.other_count as int)
}

/// The silhouette can be computed without overflow or a missing label.
pub open spec fn silhouette_defined(n: nat, a: Seq<usize>) -> bool {
    n <= 1 || ((forall|j: int| 0 <= j < a.len() ==> #[trigger] a[j] < usize::MAX) && (label_max(a) == 0 || a.len()
        >= n))
}

proof fn lemma_label_max_bound(a: Seq<usize>)
    ensures
        forall|j: int| 0 <= j < a.len() ==> #[trigger] a[j] <= label_max(a),
        a.len() > 0 ==> exists|j: int| 0 <= j < a.len() && #[trigger] a[j] == label_max(a),
        a.len() == 0 ==> label_max(a) == 0,
    decreases a.len(),
{
    if a.len() > 0 {
        lemma_label_max_bound(a.drop_last());
        let m = label_max(a.drop_last());
        assert forall|j: int| 0 <= j < a.len() implies #[trigger] a[j] <= label_max(a) by {
            if j < a.len() - 1 {
                assert(a[j] == a.drop_last()[j]);
            }
        }
        if a.last() > m {
            assert(a[a.len() - 1] == label_max(a));
        } else if a.len() > 1 {
            let j = choose|j: int| 0 <= j < a.drop_last().len() && #[trigger] a.drop_last()[j] == m;
            assert(a[j] == label_max(a));
        } else {
            assert(a[0] == label_max(a));
        }
    }
}

/// Sum and count of the points of cluster `c`, other than `i`, with their distances from `i`.
fn cluster_stats_exec(data: &[Vec<Ternary>], assignments: &[usize], i: usize, c: usize) -> (r: (u128, usize))
    requires
        i < data@.len(),
        assignments@.len() >= data@.len(),
    ensures
        (r.0 as int, r.1 as int) == cluster_stats(rows(data@), assignments@, i as int, c as int),
        r.1 <= data@.len(),
{
    let ghost d = rows(data@);
    let n = data.len();
    let mut sum: u128 = 0;
    let mut count: usize = 0;
    let mut j: usize = 0;
    while j < n
        invariant
            d == rows(data@),
            n == data@.len(),
            i < n,
            assignments@.len() >= n,
            j <= n,
            (sum as int, count as int) == cluster_stats_upto(d, assignments@, i as int, c as int, j as nat),
            count <= j,
            sum <= j * usize::MAX,
        decreases n - j,
    {
        if j != i && assignments[j] == c {
            let h = hamming_distance(data[i].as_slice(), data[j].as_slice());
            proof {
                assert(j * usize::MAX + usize::MAX == (j + 1) * usize::MAX) by (nonlinear_arith);
                assert((j + 1) * usize::MAX <= usize::MAX * usize::MAX + usize::MAX) by (nonlinear_arith)
                    requires
                        j < usize::MAX,
                ;
            }
            sum = sum + h as u128;
            count = count + 1;
        } else {
            proof {
                assert(j * usize::MAX <= (j + 1) * usize::MAX) by (nonlinear_arith);
            }
        }
        j = j + 1;
    }
    (sum, count)
}

/// The exact quantities that the silhouette score of a clustering is computed from:
/// for every point, the (sum, count) of its distances to the other members of its
/// cluster and to the members of the nearest other cluster.
///
/// Returns `None` when the score is 0 by definition: one point or fewer, or only one
/// cluster (all labels 0, or one label shared by all the points).
pub fn silhouette_inputs_of(data: &[Vec<Ternary>], assignments: &[usize]) -> (r: Option<Vec<SilhouetteInput>>)
    requires
        silhouette_defined(data@.len(), assignments@),
    ensures
        match r {
            None => silhouette_inputs(rows(data@), assignments@) is None,
            Some(v) => silhouette_inputs(rows(data@), assignments@) == Some(
                v@.map_values(|s: SilhouetteInput| silhouette_input_view(s)),
            ),
        },
{
    let ghost d = rows(data@);
    let ghost a = assignments@;
    let n = data.len();
    if n <= 1 {
        return None;
    }
    let mut top: usize = 0;
    let mut t: usize = 0;
    while t < assignments.len()
        invariant
            a == assignments@,
            t <= a.len(),
            top == label_max(a.take(t as int)),
        decreases a.len() - t,
    {
        proof {
            assert(a.take(t + 1).drop_last() =~= a.take(t as int));
            assert(a.take(t + 1).last() == a[t as int]);
        }
        if assignments[t] > top {
            top = assignments[t];
        }
        t = t + 1;
    }
    proof {
        assert(a.take(a.len() as int) =~= a);
        lemma_label_max_bound(a);
        if a.len() > 0 {
            let j = choose|j: int| 0 <= j < a.len() && #[trigger] a[j] == label_max(a);
            assert(a[j] < usize::MAX);
        }
    }
    let k: usize = top + 1;
    if k <= 1 {
        return None;
    }
    let first = assignments[0];
    let mut same = true;
    let mut t: usize = 1;
    while t < n
        invariant
            a == assignments@,
            n == data@.len(),
            a.len() >= n,
            first == a[0],
            1 <= t <= n,
            same == single_label(a, t as nat),
        decreases n - t,
    {
        if assignments[t] != first {
            same = false;
        }
        t = t + 1;
    }
    if same {
        return None;
    }
    let ghost target = silhouette_inputs(d, a).unwrap();
    let mut out: Vec<SilhouetteInput> = Vec::new();
    let mut i: usize = 0;
    while i < n
        invariant
            d == rows(data@),
            a == assignments@,
            n == data@.len(),
            n > 1,
            a.len() >= n,
            k == label_max(a) + 1,
            k > 1,
            !single_label(a, n as nat),
            target == silhouette_inputs(d, a).unwrap(),
            target.len() == n,
            i <= n,
            out@.len() == i,
            forall|x: int| 0 <= x < i ==> silhouette_input_view(#[trigger] out@[x]) == target[x],
        decreases n - i,
    {
        let ci = assignments[i];
        let (own_sum, own_count) = cluster_stats_exec(data, assignments, i, ci);
        let mut best_sum: u128 = 0;
        let mut best_count: usize = 0;
        let mut c: usize = 0;
        while c < k
            invariant
                d == rows(data@),
                a == assignments@,
                n == data@.len(),
                i < n,
                a.len() >= n,
                ci == a[i as int],
                c <= k,
                (best_sum as int, best_count as int) == nearest_other_upto(d, a, i as int, c as nat),
                best_count <= n,
            decreases k - c,
        {
            if c != ci {
                let (s, cnt) = cluster_stats_exec(data, assignments, i, c);
                if cnt > 0 {
                    let take = if best_count == 0 {
                        true
                    } else {
                        frac_less(s, cnt as u128, best_sum, best_count as u128)
                    };
                    if take {
                        best_sum = s;
                        best_count = cnt;
                    }
                }
            }
            c = c + 1;
        }
        out.push(SilhouetteInput { own_sum, own_count, other_sum: best_sum, other_count: best_count });
        i = i + 1;
    }
    proof {
        assert(out@.map_values(|s: SilhouetteInput| silhouette_input_view(s)) =~= target);
    }
    Some(out)
}

/// A point's two mean distances, `a` to its own cluster and `b` to the nearest other,
/// scaled to a common denominator: `(x, y)` with `a = x / (c_a * c_b)` and
/// `b = y / (c_a * c_b)`; a cluster with no members counts as a mean of 0 over 1.
pub open spec fn scaled_means(p: (int, int, int, int)) -> (int, int) {
    let a_sum = if p.1 == 0 { 0 } else { p.0 };
    let a_cnt = if p.1 == 0 { 1 } else { p.1 };
    let b_sum = if p.3 == 0 { 0 } else { p.2 };
    let b_cnt = if p.3 == 0 { 1 } else { p.3 };
    (a_sum * b_cnt, b_sum * a_cnt)
}

/// A point's silhouette coefficient `(b - a) / max(a, b)`, 0 when both means are 0, as
/// (is negative, numerator, denominator).
pub open spec fn coefficient(p: (int, int, int, int)) -> (bool, int, int) {
    let (x, y) = scaled_means(p);
    if x == 0 && y == 0 {
        (false, 0, 1)
    } else if x <= y {
        (false, y - x, y)
    } else {
        (true, x - y, x)
    }
}

/// The scaled means of a silhouette input fit in 128 bits.
pub open spec fn coefficient_fits(p: (int, int, int, int)) -> bool {
    scaled_means(p).0 <= u128::MAX && scaled_means(p).1 <= u128::MAX
}

/// The silhouette coefficient of one point, `(b - a) / max(a, b)` with `a` the mean
/// distance to the other members of its cluster and `b` the mean distance to the
/// nearest other cluster (each 0 when there are no such points), or 0 when both are 0:
/// exactly, as (is negative, numerator, denominator).
pub fn silhouette_coefficient(p: &SilhouetteInput) -> (r: (bool, u128, u128))
    requires
        coefficient_fits(silhouette_input_view(*p)),
    ensures
        (r.0, r.1 as int, r.2 as int) == coefficient(silhouette_input_view(*p)),
        r.2 > 0,
{
    let a_sum: u128 = if p.own_count == 0 { 0 } else { p.own_sum };
    let a_cnt: u128 = if p.own_count == 0 { 1 } else { p.own_count as u128 };
    let b_sum: u128 = if p.other_count == 0 { 0 } else { p.other_sum };
    let b_cnt: u128 = if p.other_count == 0 { 1 } else { p.other_count as u128 };
    let x = a_sum * b_cnt;
    let y = b_sum * a_cnt;
    if x == 0 && y == 0 {
        (false, 0, 1)
    } else if x <= y {
        (false, y - x, y)
    } else {
        (true, x - y, x)
    }
}

/// For each cluster `c < k` of the points `j < m`: the sum of their distances to the
/// cluster's centroid, and their number.
pub open spec fn spread_upto(d: Seq<Seq<Ternary>>, a: Seq<usize>, cents: Seq<Seq<Ternary>>, c: int, m: nat) -> (int, int)
    decreases m,
{
    if m == 0 {
        (0, 0)
    } else {
        let p = spread_upto(d, a, cents, c, (m - 1) as nat);
        if a[m - 1] == c {
            (p.0 + hamming(d[m - 1], cents[c]), p.1 + 1)
        } else {
            p
        }
    }
}

/// Every point's cluster has a centroid.
pub open spec fn spreads_defined(n: nat, a: Seq<usize>, k: nat) -> bool {
    a.len() >= n && forall|j: int| 0 <= j < n ==> #[trigger] a[j] < k
}

/// For every cluster `c` (one per centroid): the sum of the Hamming distances of its
/// points to its centroid, and the number of its points.
#[verifier::spinoff_prover]
pub fn cluster_spreads(data: &[Vec<Ternary>], assignments: &[usize], centroids: &[Vec<Ternary>]) -> (r: (
    Vec<u128>,
    Vec<usize>,
))
    requires
        spreads_defined(data@.len(), assignments@, centroids@.len()),
    ensures
        r.0@.len() == centroids@.len(),
        r.1@.len() == centroids@.len(),
        forall|c: int|
            0 <= c < centroids@.len() ==> (#[trigger] r.0@[c] as int, r.1@[c] as int) == spread_upto(
                rows(data@),
                assignments@,
                rows(centroids@),
                c,
                data@.len(),
            ),
{
    let ghost d = rows(data@);
    let ghost cs = rows(centroids@);
    let k = centroids.len();
    let n = data.len();
    let mut sums: Vec<u128> = Vec::new();
    let mut counts: Vec<usize> = Vec::new();
    let mut c: usize = 0;
    while c < k
        invariant
            c <= k,
            k == centroids@.len(),
            sums@.len() == c,
            counts@.len() == c,
            forall|x: int| 0 <= x < c ==> #[trigger] sums@[x] == 0,
            forall|x: int| 0 <= x < c ==> #[trigger] counts@[x] == 0,
        decreases k - c,
    {
        sums.push(0);
        counts.push(0);
        c = c + 1;
    }
    let mut i: usize = 0;
    proof {
        assert forall|x: int| 0 <= x < k implies #[trigger] counts@[x] <= i && sums@[x] <= i * usize::MAX by {
            assert(sums@[x] == 0 && counts@[x] == 0);
        }
    }
    while i < n
        invariant
            d == rows(data@),
            cs == rows(centroids@),
            n == data@.len(),
            k == centroids@.len(),
            spreads_defined(n as nat, assignments@, k as nat),
            i <= n,
            sums@.len() == k,
            counts@.len() == k,
            forall|x: int|
                0 <= x < k ==> (#[trigger] sums@[x] as int, counts@[x] as int) == spread_upto(d, assignments@, cs, x, i as nat),
            forall|x: int| 0 <= x < k ==> #[trigger] counts@[x] <= i && sums@[x] <= i * usize::MAX,
        decreases n - i,
    {
        let c = assignments[i];
        assert(c < k);
        let h = hamming_distance(data[i].as_slice(), centroids[c].as_slice());
        proof {
            assert(sums@[c as int] <= i * usize::MAX);
            assert(i * usize::MAX + usize::MAX == (i + 1) * usize::MAX) by (nonlinear_arith);
            assert((i + 1) * usize::MAX <= usize::MAX * usize::MAX + usize::MAX) by (nonlinear_arith)
                requires
                    i < usize::MAX,
            ;
            assert forall|x: int| 0 <= x < k implies #[trigger] sums@[x] <= (i + 1) * usize::MAX by {
                assert(i * usize::MAX <= (i + 1) * usize::MAX) by (nonlinear_arith);
            }
        }
        let ghost old_sums = sums@;
        let ghost old_counts = counts@;
        let s = sums[c];
        sums[c] = s + h as u128;
        let cnt = counts[c];
        counts[c] = cnt + 1;
        proof {
            assert forall|x: int|
                0 <= x < k implies (#[trigger] sums@[x] as int, counts@[x] as int) == spread_upto(d, assignments@, cs, x, (i + 1) as nat) by {
                if x != c {
                    assert(sums@[x] == old_sums[x]);
                    assert(counts@[x] == old_counts[x]);
                }
            }
        }
        i = i + 1;
    }
    (sums, counts)
}


/// The (distance sum, count) of cluster `c`'s points around its centroid.
pub open spec fn spread(d: Seq<Seq<Ternary>>, a: Seq<usize>, cents: Seq<Seq<Ternary>>, c: int) -> (int, int) {
    spread_upto(d, a, cents, c, d.len())
}

/// The Davies-Bouldin ratio of clusters `i` and `j`, `(s_i + s_j) / h(c_i, c_j)` with
/// `s` the mean distance to the centroid, as the exact fraction
/// `(S_i*C_j + S_j*C_i) / (C_i*C_j*h(c_i, c_j))`.
pub open spec fn db_ratio(d: Seq<Seq<Ternary>>, a: Seq<usize>, cents: Seq<Seq<Ternary>>, i: int, j: int) -> (int, int) {
    let si = spread(d, a, cents, i);
    let sj = spread(d, a, cents, j);
    (si.0 * sj.1 + sj.0 * si.1, si.1 * sj.1 * hamming(cents[i], cents[j]))
}

/// Cluster `j` is compared with cluster `i`: another cluster, with members, whose
/// centroid differs from `i`'s.
pub open spec fn db_partner(d: Seq<Seq<Ternary>>, a: Seq<usize>, cents: Seq<Seq<Ternary>>, i: int, j: int) -> bool {
    j != i && spread(d, a, cents, j).1 > 0 && hamming(cents[i], cents[j]) > 0
}

/// The largest ratio of cluster `i` with its partners among the first `m` clusters,
/// `0 / 1` when there is none (the first one wins a tie).
pub open spec fn worst_ratio_upto(d: Seq<Seq<Ternary>>, a: Seq<usize>, cents: Seq<Seq<Ternary>>, i: int, m: nat) -> (int, int)
    decreases m,
{
    if m == 0 {
        (0, 1)
    } else {
        let prev = worst_ratio_upto(d, a, cents, i, (m - 1) as nat);
        let j = m - 1;
        if db_partner(d, a, cents, i, j) && frac_lt(prev, db_ratio(d, a, cents, i, j)) {
            db_ratio(d, a, cents, i, j)
        } else {
            prev
        }
    }
}

/// The worst ratio of each cluster with members, among the first `m` clusters, in order.
pub open spec fn db_terms_upto(d: Seq<Seq<Ternary>>, a: Seq<usize>, cents: Seq<Seq<Ternary>>, m: nat) -> Seq<(int, int)>
    decreases m,
{
    if m == 0 {
        Seq::empty()
    } else {
        let prev = db_terms_upto(d, a, cents, (m - 1) as nat);
        if spread(d, a, cents, m - 1).1 > 0 {
            prev.push(worst_ratio_upto(d, a, cents, m - 1, cents.len()))
        } else {
            prev
        }
    }
}

/// The terms of the Davies-Bouldin index: each non-empty cluster's worst ratio, and the
/// number of non-empty clusters; `None` when the index is 0 by definition (at most one
/// centroid, or no cluster with members).
pub open spec fn db_terms(d: Seq<Seq<Ternary>>, a: Seq<usize>, cents: Seq<Seq<Ternary>>) -> Option<(Seq<(int, int)>, nat)> {
    let t = db_terms_upto(d, a, cents, cents.len());
    if cents.len() <= 1 || t.len() == 0 {
        None
    } else {
        Some((t, t.len()))
    }
}

/// The exact ratios fit in 128 bits: `2 * n * n * D` is below 2^128 for every centroid
/// length `D`.
pub open spec fn ratios_fit(n: nat, cents: Seq<Seq<Ternary>>) -> bool {
    forall|c: int| 0 <= c < cents.len() ==> 2 * n * n * #[trigger] cents[c].len() <= u128::MAX
}

/// A cluster's count is at most the number of points, and its distance sum at most the
/// count times the centroid's length.
proof fn lemma_spread_bounds(d: Seq<Seq<Ternary>>, a: Seq<usize>, cents: Seq<Seq<Ternary>>, c: int, m: nat)
    requires
        m <= d.len(),
        0 <= c < cents.len(),
    ensures
        0 <= spread_upto(d, a, cents, c, m).1 <= m,
        0 <= spread_upto(d, a, cents, c, m).0 <= spread_upto(d, a, cents, c, m).1 * cents[c].len(),
    decreases m,
{
    if m > 0 {
        lemma_spread_bounds(d, a, cents, c, (m - 1) as nat);
        lemma_distance_ranges(d[m - 1], cents[c]);
        let p = spread_upto(d, a, cents, c, (m - 1) as nat);
        assert(p.1 * cents[c].len() + cents[c].len() == (p.1 + 1) * cents[c].len()) by (nonlinear_arith);
    }
}

/// The terms of the Davies-Bouldin index, computed exactly: for each cluster with
/// members (in order), the largest ratio `(s_i + s_j) / h(c_i, c_j)` over the other
/// clusters with members whose centroids differ from its own (`0 / 1` when there is
/// none), and the number of clusters with members.
///
/// Returns `None` when the index is 0 by definition: at most one centroid, or no cluster
/// with members.
#[verifier::spinoff_prover]
pub fn davies_bouldin_terms(data: &[Vec<Ternary>], assignments: &[usize], centroids: &[Vec<Ternary>]) -> (r: Option<(Vec<(u128, u128)>, usize)>)
    requires
        centroids@.len() <= 1 || (spreads_defined(data@.len(), assignments@, centroids@.len()) && ratios_fit(
            data@.len(),
            rows(centroids@),
        )),
    ensures
        match r {
            None => db_terms(rows(data@), assignments@, rows(centroids@)) is None,
            Some(t) => db_terms(rows(data@), assignments@, rows(centroids@)) == Some(
                (t.0@.map_values(|x: (u128, u128)| (x.0 as int, x.1 as int)), t.1 as nat),
            ),
        },
{
    let ghost d = rows(data@);
    let ghost a = assignments@;
    let ghost cs = rows(centroids@);
    let k = centroids.len();
    let n = data.len();
    if k <= 1 {
        return None;
    }
    let (sums, counts) = cluster_spreads(data, assignments, centroids);
    let mut terms: Vec<(u128, u128)> = Vec::new();
    let mut i: usize = 0;
    while i < k
        invariant
            d == rows(data@),
            a == assignments@,
            cs == rows(centroids@),
            k == centroids@.len(),
            n == data@.len(),
            ratios_fit(n as nat, cs),
            sums@.len() == k,
            counts@.len() == k,
            forall|x: int| 0 <= x < k ==> (#[trigger] sums@[x] as int, counts@[x] as int) == spread(d, a, cs, x),
            i <= k,
            terms@.map_values(|x: (u128, u128)| (x.0 as int, x.1 as int)) == db_terms_upto(d, a, cs, i as nat),
        decreases k - i,
    {
        let ghost before = terms@;
        proof {
            assert((sums@[i as int] as int, counts@[i as int] as int) == spread(d, a, cs, i as int));
        }
        if counts[i] > 0 {
            let mut wn: u128 = 0;
            let mut wd: u128 = 1;
            let mut j: usize = 0;
            while j < k
                invariant
                    d == rows(data@),
                    a == assignments@,
                    cs == rows(centroids@),
                    k == centroids@.len(),
                    n == data@.len(),
                    ratios_fit(n as nat, cs),
                    sums@.len() == k,
                    counts@.len() == k,
                    forall|x: int| 0 <= x < k ==> (#[trigger] sums@[x] as int, counts@[x] as int) == spread(d, a, cs, x),
                    i < k,
                    counts@[i as int] > 0,
                    j <= k,
                    wd > 0,
                    (wn as int, wd as int) == worst_ratio_upto(d, a, cs, i as int, j as nat),
                decreases k - j,
            {
                if j != i && counts[j] > 0 {
                    let h = hamming_distance(centroids[i].as_slice(), centroids[j].as_slice());
                    if h > 0 {
                        let si = sums[i];
                        let ci = counts[i] as u128;
                        let sj = sums[j];
                        let cj = counts[j] as u128;
                        proof {
                            assert(sums@[i as int] as int == spread(d, a, cs, i as int).0);
                            assert(sums@[j as int] as int == spread(d, a, cs, j as int).0);
                            lemma_spread_bounds(d, a, cs, i as int, n as nat);
                            lemma_spread_bounds(d, a, cs, j as int, n as nat);
                            lemma_distance_ranges(cs[i as int], cs[j as int]);
                            let li = cs[i as int].len();
                            let lj = cs[j as int].len();
                            assert(2 * n * n * li <= u128::MAX);
                            assert(2 * n * n * lj <= u128::MAX);
                            let nnli = n * n * li;
                            let nnlj = n * n * lj;
                            assert(2 * nnli <= u128::MAX) by (nonlinear_arith)
                                requires
                                    2 * n * n * li <= u128::MAX,
                                    nnli == n * n * li,
                            ;
                            assert(2 * nnlj <= u128::MAX) by (nonlinear_arith)
                                requires
                                    2 * n * n * lj <= u128::MAX,
                                    nnlj == n * n * lj,
                            ;
                            assert(si * cj <= nnli) by (nonlinear_arith)
                                requires
                                    si <= ci * li,
                                    ci <= n,
                                    cj <= n,
                                    nnli == n * n * li,
                                    si >= 0,
                            ;
                            assert(sj * ci <= nnlj) by (nonlinear_arith)
                                requires
                                    sj <= cj * lj,
                                    ci <= n,
                                    cj <= n,
                                    nnlj == n * n * lj,
                                    sj >= 0,
                            ;
                            assert(h <= li);
                            assert(ci * cj * h <= nnli) by (nonlinear_arith)
                                requires
                                    h <= li,
                                    ci <= n,
                                    cj <= n,
                                    nnli == n * n * li,
                            ;
                            assert(ci * cj <= nnli) by (nonlinear_arith)
                                requires
                                    h <= li,
                                    h > 0,
                                    ci <= n,
                                    cj <= n,
                                    nnli == n * n * li,
                            ;
                            assert(ci * cj * h > 0) by (nonlinear_arith)
                                requires
                                    h > 0,
                                    ci > 0,
                                    cj > 0,
                            ;
                        }
                        let num = si * cj + sj * ci;
                        let den = ci * cj * (h as u128);
                        if frac_less(wn, wd, num, den) {
                            wn = num;
                            wd = den;
                        }
                    }
                }
                j = j + 1;
            }
            terms.push((wn, wd));
            proof {
                assert(cs.len() == k);
                assert((wn as int, wd as int) == worst_ratio_upto(d, a, cs, i as int, cs.len()));
                assert(db_terms_upto(d, a, cs, (i + 1) as nat) == db_terms_upto(d, a, cs, i as nat).push(
                    worst_ratio_upto(d, a, cs, i as int, cs.len()),
                ));
                assert(terms@.map_values(|x: (u128, u128)| (x.0 as int, x.1 as int)) =~= before.map_values(
                    |x: (u128, u128)| (x.0 as int, x.1 as int),
                ).push((wn as int, wd as int)));
            }
        } else {
            proof {
                assert(db_terms_upto(d, a, cs, (i + 1) as nat) == db_terms_upto(d, a, cs, i as nat));
            }
        }
        i = i + 1;
    }
    if terms.len() == 0 {
        return None;
    }
    let count = terms.len();
    Some((terms, count))
}

/// A cluster with members other than point `i` has one of them labelled with it.
proof fn lemma_stats_member(d: Seq<Seq<Ternary>>, a: Seq<usize>, i: int, c: int, m: nat)
    ensures
        cluster_stats_upto(d, a, i, c, m).1 >= 0,
        cluster_stats_upto(d, a, i, c, m).1 > 0 ==> exists|j: int| 0 <= j < m && j != i && a[j] == c,
    decreases m,
{
    if m > 0 {
        lemma_stats_member(d, a, i, c, (m - 1) as nat);
    }
}

/// Among the clusters `c < k`, the nearest other cluster of point `i` has the least mean
/// distance of all the other clusters with members.
proof fn lemma_nearest_other_upto(d: Seq<Seq<Ternary>>, a: Seq<usize>, i: int, k: nat)
    ensures
        nearest_other_upto(d, a, i, k).1 == 0 || exists|c: int|
            0 <= c < k && c != a[i] && cluster_stats(d, a, i, c).1 > 0 && nearest_other_upto(d, a, i, k)
                == #[trigger] cluster_stats(d, a, i, c),
        forall|c: int|
            0 <= c < k && c != a[i] && #[trigger] cluster_stats(d, a, i, c).1 > 0 ==> nearest_other_upto(d, a, i, k).1
                > 0 && !frac_lt(cluster_stats(d, a, i, c), nearest_other_upto(d, a, i, k)),
    decreases k,
{
    if k > 0 {
        lemma_nearest_other_upto(d, a, i, (k - 1) as nat);
        let prev = nearest_other_upto(d, a, i, (k - 1) as nat);
        let c = k - 1;
        let cur = cluster_stats(d, a, i, c);
        lemma_stats_member(d, a, i, c, d.len());
        if c == a[i] || cur.1 == 0 {
        } else if prev.1 == 0 || frac_lt(cur, prev) {
            assert forall|c2: int|
                0 <= c2 < k && c2 != a[i] && #[trigger] cluster_stats(d, a, i, c2).1 > 0 implies !frac_lt(
                cluster_stats(d, a, i, c2),
                cur,
            ) by {
                if c2 < k - 1 {
                    lemma_frac_lt_le(cur, prev, cluster_stats(d, a, i, c2));
                }
            }
        }
    }
}

/// The silhouette's `b` is taken from the nearest other cluster: for every point, its
/// own-cluster sum and count are those of its own cluster, and its other-cluster sum and
/// count are those of a cluster other than its own, with members, whose mean distance
/// from the point is no larger than that of any other cluster with members; they are
/// (0, 0) only when no other cluster has members.
pub proof fn lemma_silhouette_nearest_other(d: Seq<Seq<Ternary>>, a: Seq<usize>)
    requires
        silhouette_defined(d.len(), a),
    ensures
        match silhouette_inputs(d, a) {
            None => true,
            Some(v) => forall|i: int|
                0 <= i < d.len() ==> {
                    let s = #[trigger] v[i];
                    &&& (s.0, s.1) == cluster_stats(d, a, i, a[i] as int)
                    &&& forall|c: int|
                        0 <= c && c != a[i] && #[trigger] cluster_stats(d, a, i, c).1 > 0 ==> s.3 > 0 && !frac_lt(
                            cluster_stats(d, a, i, c),
                            (s.2, s.3),
                        )
                    &&& s.3 == 0 || exists|c: int|
                        0 <= c && c != a[i] && cluster_stats(d, a, i, c).1 > 0 && (s.2, s.3)
                            == #[trigger] cluster_stats(d, a, i, c)
                },
        },
{
    if silhouette_inputs(d, a) is Some {
        let k = label_max(a) + 1;
        let v = silhouette_inputs(d, a).unwrap();
        lemma_label_max_bound(a);
        assert(a.len() >= d.len());
        assert forall|i: int| 0 <= i < d.len() implies {
            let s = #[trigger] v[i];
            &&& (s.0, s.1) == cluster_stats(d, a, i, a[i] as int)
            &&& forall|c: int|
                0 <= c && c != a[i] && #[trigger] cluster_stats(d, a, i, c).1 > 0 ==> s.3 > 0 && !frac_lt(
                    cluster_stats(d, a, i, c),
                    (s.2, s.3),
                )
            &&& s.3 == 0 || exists|c: int|
                0 <= c && c != a[i] && cluster_stats(d, a, i, c).1 > 0 && (s.2, s.3) == #[trigger] cluster_stats(
                    d,
                    a,
                    i,
                    c,
                )
        } by {
            lemma_nearest_other_upto(d, a, i, k);
            let r = nearest_other_upto(d, a, i, k);
            assert((v[i].2, v[i].3) == r);
            assert forall|c: int|
                0 <= c && c != a[i] && #[trigger] cluster_stats(d, a, i, c).1 > 0 implies r.1 > 0 && !frac_lt(
                cluster_stats(d, a, i, c),
                r,
            ) by {
                lemma_stats_member(d, a, i, c, d.len());
                let j = choose|j: int| 0 <= j < d.len() && j != i && a[j] == c;
                assert(a[j] <= label_max(a));
            }
        }
    }
}

/// `w` is the largest Davies-Bouldin ratio `(s_i + s_j) / h(c_i, c_j)` of cluster `i`:
/// no ratio with another cluster `j` that has members and a centroid at a positive
/// distance is larger, and `w` is one of those ratios, or `0 / 1`.
pub open spec fn is_worst_ratio(d: Seq<Seq<Ternary>>, a: Seq<usize>, cents: Seq<Seq<Ternary>>, i: int, w: (int, int)) -> bool {
    let si = spread(d, a, cents, i);
    &&& forall|j: int|
        0 <= j < cents.len() && j != i && #[trigger] spread(d, a, cents, j).1 > 0 && hamming(cents[i], cents[j]) > 0
            ==> !frac_lt(
            w,
            (
                si.0 * spread(d, a, cents, j).1 + spread(d, a, cents, j).0 * si.1,
                si.1 * spread(d, a, cents, j).1 * hamming(cents[i], cents[j]),
            ),
        )
    &&& w == (0int, 1int) || exists|j: int|
        0 <= j < cents.len() && j != i && #[trigger] spread(d, a, cents, j).1 > 0 && hamming(cents[i], cents[j]) > 0
            && w == (
            si.0 * spread(d, a, cents, j).1 + spread(d, a, cents, j).0 * si.1,
            si.1 * spread(d, a, cents, j).1 * hamming(cents[i], cents[j]),
        )
}

/// A ratio of a cluster with members and a partner has a positive denominator.
proof fn lemma_db_ratio_den(d: Seq<Seq<Ternary>>, a: Seq<usize>, cents: Seq<Seq<Ternary>>, i: int, j: int)
    requires
        0 <= i < cents.len(),
        0 <= j < cents.len(),
        spread(d, a, cents, i).1 > 0,
        db_partner(d, a, cents, i, j),
    ensures
        db_ratio(d, a, cents, i, j).1 > 0,
{
    let x = spread(d, a, cents, i).1;
    let y = spread(d, a, cents, j).1;
    let h = hamming(cents[i], cents[j]) as int;
    assert(x * y * h > 0) by (nonlinear_arith)
        requires
            x > 0,
            y > 0,
            h > 0,
    ;
}

proof fn lemma_worst_ratio_upto(d: Seq<Seq<Ternary>>, a: Seq<usize>, cents: Seq<Seq<Ternary>>, i: int, m: nat)
    requires
        0 <= i < cents.len(),
        m <= cents.len(),
        spread(d, a, cents, i).1 > 0,
    ensures
        worst_ratio_upto(d, a, cents, i, m).1 > 0,
        forall|j: int|
            0 <= j < m && #[trigger] db_partner(d, a, cents, i, j) ==> !frac_lt(
                worst_ratio_upto(d, a, cents, i, m),
                db_ratio(d, a, cents, i, j),
            ),
        worst_ratio_upto(d, a, cents, i, m) == (0int, 1int) || exists|j: int|
            0 <= j < m && #[trigger] db_partner(d, a, cents, i, j) && worst_ratio_upto(d, a, cents, i, m) == db_ratio(
                d,
                a,
                cents,
                i,
                j,
            ),
    decreases m,
{
    if m > 0 {
        lemma_worst_ratio_upto(d, a, cents, i, (m - 1) as nat);
        let prev = worst_ratio_upto(d, a, cents, i, (m - 1) as nat);
        let j = m - 1;
        if frac_lt(prev, db_ratio(d, a, cents, i, j)) && db_partner(d, a, cents, i, j) {
            let r = db_ratio(d, a, cents, i, j);
            lemma_db_ratio_den(d, a, cents, i, j);
            assert forall|j2: int| 0 <= j2 < m && #[trigger] db_partner(d, a, cents, i, j2) implies !frac_lt(
                r,
                db_ratio(d, a, cents, i, j2),
            ) by {
                if j2 < m - 1 {
                    lemma_db_ratio_den(d, a, cents, i, j2);
                    lemma_frac_le_lt(r, prev, db_ratio(d, a, cents, i, j2));
                }
            }
        }
    }
}

/// Each cluster with members has as its worst ratio the largest of its ratios.
pub proof fn lemma_db_worst_ratio(d: Seq<Seq<Ternary>>, a: Seq<usize>, cents: Seq<Seq<Ternary>>, i: int)
    requires
        0 <= i < cents.len(),
        spread(d, a, cents, i).1 > 0,
    ensures
        is_worst_ratio(d, a, cents, i, worst_ratio_upto(d, a, cents, i, cents.len())),
{
    lemma_worst_ratio_upto(d, a, cents, i, cents.len());
    let w = worst_ratio_upto(d, a, cents, i, cents.len());
    assert forall|j: int|
        0 <= j < cents.len() && j != i && #[trigger] spread(d, a, cents, j).1 > 0 && hamming(cents[i], cents[j]) > 0
            implies !frac_lt(
        w,
        (
            spread(d, a, cents, i).0 * spread(d, a, cents, j).1 + spread(d, a, cents, j).0 * spread(d, a, cents, i).1,
            spread(d, a, cents, i).1 * spread(d, a, cents, j).1 * hamming(cents[i], cents[j]),
        ),
    ) by {
        assert(db_partner(d, a, cents, i, j));
    }
    if w != (0int, 1int) {
        let j = choose|j: int| 0 <= j < cents.len() && #[trigger] db_partner(d, a, cents, i, j) && w == db_ratio(d, a, cents, i, j);
        assert(spread(d, a, cents, j).1 > 0);
    }
}

/// The clusters whose worst ratios make up the terms, in order.
proof fn lemma_terms_index(d: Seq<Seq<Ternary>>, a: Seq<usize>, cents: Seq<Seq<Ternary>>, m: nat) -> (idx: Seq<int>)
    requires
        m <= cents.len(),
    ensures
        idx.len() == db_terms_upto(d, a, cents, m).len(),
        forall|x: int|
            0 <= x < idx.len() ==> 0 <= #[trigger] idx[x] < m && spread(d, a, cents, idx[x]).1 > 0
                && db_terms_upto(d, a, cents, m)[x] == worst_ratio_upto(d, a, cents, idx[x], cents.len()),
        forall|x: int, y: int| 0 <= x < y < idx.len() ==> #[trigger] idx[x] < #[trigger] idx[y],
        forall|c: int|
            0 <= c < m && #[trigger] spread(d, a, cents, c).1 > 0 ==> exists|x: int| 0 <= x < idx.len() && #[trigger] idx[x] == c,
    decreases m,
{
    if m == 0 {
        Seq::empty()
    } else {
        let p = lemma_terms_index(d, a, cents, (m - 1) as nat);
        let c = m - 1;
        if spread(d, a, cents, c).1 > 0 {
            let r = p.push(c);
            assert forall|x: int| 0 <= x < r.len() implies 0 <= #[trigger] r[x] < m && spread(d, a, cents, r[x]).1 > 0
                && db_terms_upto(d, a, cents, m)[x] == worst_ratio_upto(d, a, cents, r[x], cents.len()) by {
                if x < p.len() {
                    assert(r[x] == p[x]);
                }
            }
            assert forall|x: int, y: int| 0 <= x < y < r.len() implies #[trigger] r[x] < #[trigger] r[y] by {
                if y < p.len() {
                    assert(r[x] == p[x] && r[y] == p[y]);
                } else {
                    assert(r[x] == p[x]);
                }
            }
            assert forall|c2: int| 0 <= c2 < m && #[trigger] spread(d, a, cents, c2).1 > 0 implies exists|x: int|
                0 <= x < r.len() && #[trigger] r[x] == c2 by {
                if c2 < m - 1 {
                    let x = choose|x: int| 0 <= x < p.len() && #[trigger] p[x] == c2;
                    assert(r[x] == c2);
                } else {
                    assert(r[p.len() as int] == c2);
                }
            }
            r
        } else {
            p
        }
    }
}

/// `idx` lists, in increasing order, every cluster with members and only those, and
/// term `x` is the worst ratio of cluster `idx[x]`.
pub open spec fn terms_indexed(
    d: Seq<Seq<Ternary>>,
    a: Seq<usize>,
    cents: Seq<Seq<Ternary>>,
    t: Seq<(int, int)>,
    idx: Seq<int>,
) -> bool {
    &&& idx.len() == t.len()
    &&& forall|x: int|
        0 <= x < idx.len() ==> 0 <= #[trigger] idx[x] < cents.len() && spread(d, a, cents, idx[x]).1 > 0
            && is_worst_ratio(d, a, cents, idx[x], t[x])
    &&& forall|x: int, y: int| 0 <= x < y < idx.len() ==> #[trigger] idx[x] < #[trigger] idx[y]
    &&& forall|c: int|
        0 <= c < cents.len() && #[trigger] spread(d, a, cents, c).1 > 0 ==> exists|x: int|
            0 <= x < idx.len() && #[trigger] idx[x] == c
}

/// The terms of the Davies-Bouldin index: there are none (the index is 0) exactly when
/// there is at most one centroid or no cluster has members. Otherwise the terms are the
/// worst ratios of the clusters with members, one per such cluster and in cluster
/// order, and the count is their number.
pub proof fn lemma_davies_bouldin_terms(d: Seq<Seq<Ternary>>, a: Seq<usize>, cents: Seq<Seq<Ternary>>)
    ensures
        db_terms(d, a, cents) is None <==> (cents.len() <= 1 || forall|c: int|
            0 <= c < cents.len() ==> #[trigger] spread(d, a, cents, c).1 == 0),
        match db_terms(d, a, cents) {
            None => true,
            Some(r) => r.1 == r.0.len() && exists|idx: Seq<int>| #[trigger] terms_indexed(d, a, cents, r.0, idx),
        },
{
    let idx = lemma_terms_index(d, a, cents, cents.len());
    let t = db_terms_upto(d, a, cents, cents.len());
    assert forall|c: int| 0 <= c < cents.len() implies #[trigger] spread(d, a, cents, c).1 >= 0 by {
        lemma_spread_bounds(d, a, cents, c, d.len());
    }
    if t.len() == 0 {
        assert forall|c: int| 0 <= c < cents.len() implies #[trigger] spread(d, a, cents, c).1 == 0 by {
            if spread(d, a, cents, c).1 > 0 {
                let x = choose|x: int| 0 <= x < idx.len() && #[trigger] idx[x] == c;
            }
        }
    } else {
        assert(0 <= idx[0] < cents.len() && spread(d, a, cents, idx[0]).1 > 0);
    }
    assert forall|x: int| 0 <= x < idx.len() implies 0 <= #[trigger] idx[x] < cents.len() && spread(d, a, cents, idx[x]).1 > 0
        && is_worst_ratio(d, a, cents, idx[x], t[x]) by {
        lemma_db_worst_ratio(d, a, cents, idx[x]);
    }
    assert(terms_indexed(d, a, cents, t, idx));
}

} // verus!
