//! Centroids: finding the nearest one, and computing one from a group of points.

use vstd::prelude::*;
use crate::ternary::{Ternary, tval, rows};
use crate::distance::{sq_dist, sq_dist_fits, ternary_sq_distance};

verus! {

/// Index of the first centroid, among the first `m`, at the least squared distance
/// from `p` (0 when `m` is 0 or 1).
pub open spec fn nearest_upto(p: Seq<Ternary>, cs: Seq<Seq<Ternary>>, m: nat) -> nat
    decreases m,
{
    if m <= 1 {
        0
    } else {
        let b = nearest_upto(p, cs, (m - 1) as nat);
        if sq_dist(p, cs[m - 1]) < sq_dist(p, cs[b as int]) {
            (m - 1) as nat
        } else {
            b
        }
    }
}

/// Index of the nearest centroid; the first one wins a tie, and 0 stands for "none".
pub open spec fn nearest_index(p: Seq<Ternary>, cs: Seq<Seq<Ternary>>) -> nat {
    nearest_upto(p, cs, cs.len())
}

/// `r` indexes a centroid at the least squared distance from `p`, and no earlier
/// centroid is as near.
pub open spec fn is_first_nearest(p: Seq<Ternary>, cs: Seq<Seq<Ternary>>, r: int) -> bool {
    &&& 0 <= r < cs.len()
    &&& forall|j: int| 0 <= j < cs.len() ==> sq_dist(p, cs[r]) <= #[trigger] sq_dist(p, cs[j])
    &&& forall|j: int| 0 <= j < r ==> #[trigger] sq_dist(p, cs[j]) > sq_dist(p, cs[r])
}

/// Every centroid can be compared with `p` without the distance leaving `i64`.
pub open spec fn all_fit(p: Seq<Ternary>, cs: Seq<Seq<Ternary>>) -> bool {
    forall|j: int| 0 <= j < cs.len() ==> sq_dist_fits(p, #[trigger] cs[j])
}

/// The prefix argmin is the first nearest centroid among the first `m`.
pub proof fn lemma_nearest_upto(p: Seq<Ternary>, cs: Seq<Seq<Ternary>>, m: nat)
    requires
        0 < m <= cs.len(),
    ensures
        is_first_nearest(p, cs.take(m as int), nearest_upto(p, cs, m) as int),
    decreases m,
{
    if m > 1 {
        lemma_nearest_upto(p, cs, (m - 1) as nat);
        let prev = cs.take((m - 1) as int);
        let cur = cs.take(m as int);
        assert forall|j: int| 0 <= j < m - 1 implies cur[j] == prev[j] by {}
    }
}

/// The nearest index is the first index of least distance, whenever there are centroids.
pub proof fn lemma_nearest_index(p: Seq<Ternary>, cs: Seq<Seq<Ternary>>)
    requires
        cs.len() > 0,
    ensures
        is_first_nearest(p, cs, nearest_index(p, cs) as int),
{
    lemma_nearest_upto(p, cs, cs.len());
    assert(cs.take(cs.len() as int) =~= cs);
}

/// Only one index is the first of least distance.
pub proof fn lemma_first_nearest_unique(p: Seq<Ternary>, cs: Seq<Seq<Ternary>>, r1: int, r2: int)
    requires
        is_first_nearest(p, cs, r1),
        is_first_nearest(p, cs, r2),
    ensures
        r1 == r2,
{
    if r1 < r2 {
        assert(sq_dist(p, cs[r1]) > sq_dist(p, cs[r2]));
    } else if r2 < r1 {
        assert(sq_dist(p, cs[r2]) > sq_dist(p, cs[r1]));
    }
}

/// Compute the nearest ternary centroid for a given point.
/// Returns the index of the closest centroid.
pub fn nearest_centroid(point: &[Ternary], centroids: &[Vec<Ternary>]) -> (r: usize)
    requires
        all_fit(point@, rows(centroids@)),
    ensures
        r == nearest_index(point@, rows(centroids@)),
        centroids@.len() == 0 ==> r == 0,
        centroids@.len() > 0 ==> is_first_nearest(point@, rows(centroids@), r as int),
{
    let ghost cs = rows(centroids@);
    if centroids.len() == 0 {
        return 0;
    }
    assert(sq_dist_fits(point@, cs[0]));
    let mut best: usize = 0;
    let mut best_d: i64 = ternary_sq_distance(point, centroids[0].as_slice());
    let mut i: usize = 1;
    while i < centroids.len()
        invariant
            cs == rows(centroids@),
            all_fit(point@, cs),
            1 <= i <= centroids@.len(),
            best == nearest_upto(point@, cs, i as nat),
            best < i,
            best_d == sq_dist(point@, cs[best as int]),
        decreases centroids@.len() - i,
    {
        assert(sq_dist_fits(point@, cs[i as int]));
        let d = ternary_sq_distance(point, centroids[i].as_slice());
        if d < best_d {
            best = i;
            best_d = d;
        }
        i = i + 1;
    }
    proof {
        lemma_nearest_index(point@, cs);
    }
    best
}

/// Sum of the values at position `d` over the first `m` points; a point too short to
/// have position `d` adds nothing.
pub open spec fn column_sum(pts: Seq<Seq<Ternary>>, d: int, m: nat) -> int
    decreases m,
{
    if m == 0 {
        0
    } else {
        column_sum(pts, d, (m - 1) as nat) + if 0 <= d < pts[m - 1].len() {
            tval(pts[m - 1][d])
        } else {
            0
        }
    }
}

/// Rounds the mean `sum / count` to the nearest ternary value: below -1/2 is -1,
/// above 1/2 is +1, anything else 0.
pub open spec fn round_mean(sum: int, count: int) -> Ternary {
    if 2 * sum < -count {
        Ternary::Neg
    } else if 2 * sum > count {
        Ternary::Pos
    } else {
        Ternary::Zero
    }
}

/// The centroid of a group of points: the per-position mean of the values, rounded to
/// ternary, with as many positions as the first point has (empty for no points).
pub open spec fn centroid(pts: Seq<Seq<Ternary>>) -> Seq<Ternary> {
    if pts.len() == 0 {
        Seq::empty()
    } else {
        Seq::new(pts[0].len(), |d: int| round_mean(column_sum(pts, d, pts.len()), pts.len() as int))
    }
}

/// No point is longer than the first one (a longer one has no place in the mean).
pub open spec fn no_longer_than_first(pts: Seq<Seq<Ternary>>) -> bool {
    forall|i: int| 0 <= i < pts.len() ==> #[trigger] pts[i].len() <= pts[0].len()
}

/// A column sum over `m` points lies between `-m` and `m`.
pub proof fn lemma_column_sum_bounds(pts: Seq<Seq<Ternary>>, d: int, m: nat)
    requires
        m <= pts.len(),
    ensures
        -(m as int) <= column_sum(pts, d, m) <= m,
    decreases m,
{
    if m > 0 {
        lemma_column_sum_bounds(pts, d, (m - 1) as nat);
    }
}

/// Round a mean, given as the sum of `count` ternary values, to the nearest ternary value.
fn round_to_ternary(sum: i128, count: usize) -> (t: Ternary)
    requires
        -(count as int) <= sum <= count,
    ensures
        t == round_mean(sum as int, count as int),
{
    let c: i128 = count as i128;
    if 2 * sum < -c {
        Ternary::Neg
    } else if 2 * sum > c {
        Ternary::Pos
    } else {
        Ternary::Zero
    }
}

/// Compute the mean of a set of ternary vectors, then round to ternary.
pub fn compute_centroid(points: &[Vec<Ternary>]) -> (c: Vec<Ternary>)
    requires
        no_longer_than_first(rows(points@)),
    ensures
        c@ == centroid(rows(points@)),
{
    let ghost pts = rows(points@);
    if points.len() == 0 {
        return Vec::new();
    }
    let n: usize = points.len();
    let dim: usize = points[0].len();
    let mut out: Vec<Ternary> = Vec::new();
    let mut d: usize = 0;
    while d < dim
        invariant
            pts == rows(points@),
            n == pts.len(),
            n > 0,
            dim == pts[0].len(),
            d <= dim,
            out@.len() == d,
            forall|e: int| 0 <= e < d ==> #[trigger] out@[e] == round_mean(column_sum(pts, e, n as nat), n as int),
        decreases dim - d,
    {
        let mut s: i128 = 0;
        let mut j: usize = 0;
        while j < n
            invariant
                pts == rows(points@),
                n == pts.len(),
                j <= n,
                d < dim,
                s == column_sum(pts, d as int, j as nat),
            decreases n - j,
        {
            proof {
                lemma_column_sum_bounds(pts, d as int, j as nat);
            }
            if d < points[j].len() {
                s = s + points[j][d].to_i8() as i128;
            }
            j = j + 1;
        }
        proof {
            lemma_column_sum_bounds(pts, d as int, n as nat);
        }
        let t = round_to_ternary(s, n);
        out.push(t);
        d = d + 1;
    }
    assert(out@ =~= centroid(pts));
    out
}

/// The centroid of copies of one point is that point.
pub proof fn lemma_centroid_of_copies(pts: Seq<Seq<Ternary>>, p: Seq<Ternary>)
    requires
        pts.len() > 0,
        forall|i: int| 0 <= i < pts.len() ==> #[trigger] pts[i] == p,
    ensures
        centroid(pts) == p,
{
    assert forall|d: int| 0 <= d < p.len() implies #[trigger] centroid(pts)[d] == p[d] by {
        lemma_column_sum_of_copies(pts, p, d, pts.len());
    }
    assert(centroid(pts) =~= p);
}

/// Over `m` copies of `p`, the column sum at `d` is `m` times the value at `d`.
proof fn lemma_column_sum_of_copies(pts: Seq<Seq<Ternary>>, p: Seq<Ternary>, d: int, m: nat)
    requires
        m <= pts.len(),
        0 <= d < p.len(),
        forall|i: int| 0 <= i < pts.len() ==> #[trigger] pts[i] == p,
    ensures
        column_sum(pts, d, m) == (m as int) * tval(p[d]),
    decreases m,
{
    if m > 0 {
        lemma_column_sum_of_copies(pts, p, d, (m - 1) as nat);
        assert(pts[m - 1] == p);
        let v = tval(p[d]);
        assert((m - 1) as int * v + v == (m as int) * v) by (nonlinear_arith);
    } else {
        let v = tval(p[d]);
        assert(0 * v == 0) by (nonlinear_arith);
    }
}

} // verus!
