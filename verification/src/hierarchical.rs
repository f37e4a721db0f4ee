//! Agglomerative (bottom-up) hierarchical clustering over the Hamming distance.
//!
//! Every point starts as a cluster of its own, labelled by its index. Each step merges
//! the two active clusters at the least linkage distance (the first such pair in index
//! order), gives the merged cluster the next free label (`n`, `n + 1`, ...) and records
//! the step. Linkage distances are exact fractions `num / den`: the single and complete
//! linkages are whole numbers (`den == 1`), the average linkage is the sum of the
//! pairwise distances over the number of pairs.

use vstd::prelude::*;
use crate::ternary::{Ternary, rows};
use crate::distance::{hamming, hamming_distance, lemma_distances_symmetric, lemma_distances_self};
use crate::fraction::{frac_lt, frac_less, lemma_frac_lt_le};

verus! {

/// Linkage criterion for hierarchical clustering.
#[derive(Clone, Copy, Debug, PartialEq)]
pub enum Linkage {
    /// Minimum distance between clusters (single linkage).
    Single,
    /// Maximum distance between clusters (complete linkage).
    Complete,
    /// Average distance between clusters (average linkage).
    Average,
}

/// One merge step of the dendrogram: the labels of the two merged clusters and the
/// linkage distance between them, `dist_num / dist_den`.
#[derive(Clone, Copy, Debug, PartialEq, Eq)]
pub struct Merge {
    pub left: usize,
    pub right: usize,
    pub dist_num: u128,
    pub dist_den: u128,
}

/// The mathematical view of a merge step.
pub open spec fn merge_view(m: Merge) -> (int, int, int, int) {
    (m.left as int, m.right as int, m.dist_num as int, m.dist_den as int)
}

/// The matrix of pairwise Hamming distances.
pub open spec fn distance_matrix(d: Seq<Seq<Ternary>>) -> Seq<Seq<int>> {
    Seq::new(d.len(), |i: int| Seq::new(d.len(), |j: int| hamming(d[i], d[j]) as int))
}

/// The least distance from point `x` to the points of `b` (`b` non-empty).
pub open spec fn row_min(dm: Seq<Seq<int>>, x: int, b: Seq<usize>) -> int
    decreases b.len(),
{
    if b.len() <= 1 {
        dm[x][b[0] as int]
    } else {
        let m = row_min(dm, x, b.drop_last());
        let v = dm[x][b.last() as int];
        if v < m { v } else { m }
    }
}

/// The greatest distance from point `x` to the points of `b` (`b` non-empty).
pub open spec fn row_max(dm: Seq<Seq<int>>, x: int, b: Seq<usize>) -> int
    decreases b.len(),
{
    if b.len() <= 1 {
        dm[x][b[0] as int]
    } else {
        let m = row_max(dm, x, b.drop_last());
        let v = dm[x][b.last() as int];
        if v > m { v } else { m }
    }
}

/// The sum of the distances from point `x` to the points of `b`.
pub open spec fn row_sum(dm: Seq<Seq<int>>, x: int, b: Seq<usize>) -> int
    decreases b.len(),
{
    if b.len() == 0 {
        0
    } else {
        row_sum(dm, x, b.drop_last()) + dm[x][b.last() as int]
    }
}

/// The least distance between a point of `a` and a point of `b` (both non-empty).
pub open spec fn pairs_min(dm: Seq<Seq<int>>, a: Seq<usize>, b: Seq<usize>) -> int
    decreases a.len(),
{
    if a.len() <= 1 {
        row_min(dm, a[0] as int, b)
    } else {
        let m = pairs_min(dm, a.drop_last(), b);
        let v = row_min(dm, a.last() as int, b);
        if v < m { v } else { m }
    }
}

/// The greatest distance between a point of `a` and a point of `b` (both non-empty).
pub open spec fn pairs_max(dm: Seq<Seq<int>>, a: Seq<usize>, b: Seq<usize>) -> int
    decreases a.len(),
{
    if a.len() <= 1 {
        row_max(dm, a[0] as int, b)
    } else {
        let m = pairs_max(dm, a.drop_last(), b);
        let v = row_max(dm, a.last() as int, b);
        if v > m { v } else { m }
    }
}

/// The sum of the distances over all pairs of a point of `a` and a point of `b`.
pub open spec fn pairs_sum(dm: Seq<Seq<int>>, a: Seq<usize>, b: Seq<usize>) -> int
    decreases a.len(),
{
    if a.len() == 0 {
        0
    } else {
        pairs_sum(dm, a.drop_last(), b) + row_sum(dm, a.last() as int, b)
    }
}

/// The linkage distance between clusters `a` and `b`, as a fraction `(num, den)`.
pub open spec fn linkage_dist(dm: Seq<Seq<int>>, a: Seq<usize>, b: Seq<usize>, link: Linkage) -> (int, int) {
    match link {
        Linkage::Single => (pairs_min(dm, a, b), 1),
        Linkage::Complete => (pairs_max(dm, a, b), 1),
        Linkage::Average => (pairs_sum(dm, a, b), (a.len() * b.len()) as int),
    }
}

/// The largest number of pairs between two clusters that the run can meet.
const MAX_DEN: u128 = 0x1000_0000_0000_0000;

/// The clusters during the run: which are active, their member points, their labels,
/// and the next label to give.
pub struct ClusterState {
    pub active: Seq<bool>,
    pub members: Seq<Seq<usize>>,
    pub label: Seq<int>,
    pub next_label: int,
}

/// Every point a cluster of its own, labelled by its index.
pub open spec fn initial_state(n: nat) -> ClusterState {
    ClusterState {
        active: Seq::new(n, |i: int| true),
        members: Seq::new(n, |i: int| seq![i as usize]),
        label: Seq::new(n, |i: int| i),
        next_label: n as int,
    }
}

/// `(i, j)`, with `i < j`, is a pair of active clusters.
pub open spec fn active_pair(s: ClusterState, i: int, j: int) -> bool {
    0 <= i < j < s.active.len() && s.active[i] && s.active[j]
}

/// The linkage distance between clusters `i` and `j`.
pub open spec fn cluster_dist(dm: Seq<Seq<int>>, link: Linkage, s: ClusterState, i: int, j: int) -> (int, int) {
    linkage_dist(dm, s.members[i], s.members[j], link)
}

/// `(i1, j1)` comes before `(i2, j2)` in the scan order.
pub open spec fn pair_before(i1: int, j1: int, i2: int, j2: int) -> bool {
    i1 < i2 || (i1 == i2 && j1 < j2)
}

/// `(bi, bj)` is an active pair at the least linkage distance, and the first such pair in
/// index order.
pub open spec fn is_best_pair(dm: Seq<Seq<int>>, link: Linkage, s: ClusterState, bi: int, bj: int) -> bool {
    &&& active_pair(s, bi, bj)
    &&& forall|i: int, j: int|
        #[trigger] active_pair(s, i, j) ==> !frac_lt(cluster_dist(dm, link, s, i, j), cluster_dist(dm, link, s, bi, bj))
    &&& forall|i: int, j: int|
        #[trigger] active_pair(s, i, j) && pair_before(i, j, bi, bj) ==> frac_lt(
            cluster_dist(dm, link, s, bi, bj),
            cluster_dist(dm, link, s, i, j),
        )
}

/// The pair that the next step merges.
pub open spec fn best_pair(dm: Seq<Seq<int>>, link: Linkage, s: ClusterState) -> (int, int) {
    choose|p: (int, int)| is_best_pair(dm, link, s, p.0, p.1)
}

/// Merging cluster `bj` into cluster `bi`, which takes the next label.
pub open spec fn merge_step(s: ClusterState, bi: int, bj: int) -> ClusterState {
    ClusterState {
        active: s.active.update(bj, false),
        members: s.members.update(bi, s.members[bi] + s.members[bj]),
        label: s.label.update(bi, s.next_label),
        next_label: s.next_label + 1,
    }
}

/// The record of `steps` further merge steps from state `s`.
pub open spec fn merges_from(dm: Seq<Seq<int>>, link: Linkage, s: ClusterState, steps: nat) -> Seq<(int, int, int, int)>
    decreases steps,
{
    if steps == 0 {
        Seq::empty()
    } else {
        let p = best_pair(dm, link, s);
        let dist = cluster_dist(dm, link, s, p.0, p.1);
        seq![(s.label[p.0], s.label[p.1], dist.0, dist.1)] + merges_from(dm, link, merge_step(s, p.0, p.1), (steps - 1) as nat)
    }
}

/// The dendrogram of the data: `n - 1` merge steps from singleton clusters (none for one
/// point or fewer).
pub open spec fn dendrogram(d: Seq<Seq<Ternary>>, link: Linkage) -> Seq<(int, int, int, int)> {
    if d.len() <= 1 {
        Seq::empty()
    } else {
        merges_from(distance_matrix(d), link, initial_state(d.len()), (d.len() - 1) as nat)
    }
}

/// The `n * n` matrix of distances that the run keeps fits in memory.
pub open spec fn matrix_fits(n: nat) -> bool {
    n * n * 8 <= isize::MAX
}

/// Only one pair is the best.
pub proof fn lemma_best_pair_unique(dm: Seq<Seq<int>>, link: Linkage, s: ClusterState, i1: int, j1: int, i2: int, j2: int)
    requires
        is_best_pair(dm, link, s, i1, j1),
        is_best_pair(dm, link, s, i2, j2),
    ensures
        i1 == i2 && j1 == j2,
{
    if pair_before(i1, j1, i2, j2) {
        assert(active_pair(s, i1, j1));
    } else if pair_before(i2, j2, i1, j1) {
        assert(active_pair(s, i2, j2));
    }
}


/// Computes the matrix of pairwise Hamming distances, each pair once.
fn distance_table(data: &[Vec<Ternary>]) -> (t: Vec<Vec<usize>>)
    ensures
        t@.len() == data@.len(),
        forall|i: int| 0 <= i < data@.len() ==> #[trigger] t@[i]@.len() == data@.len(),
        forall|i: int, j: int|
            0 <= i < data@.len() && 0 <= j < data@.len() ==> #[trigger] t@[i]@[j] as int
                == distance_matrix(rows(data@))[i][j],
{
    let ghost d = rows(data@);
    let ghost dm = distance_matrix(d);
    let n = data.len();
    let mut t: Vec<Vec<usize>> = Vec::new();
    let mut i: usize = 0;
    while i < n
        invariant
            d == rows(data@),
            dm == distance_matrix(d),
            n == data@.len(),
            i <= n,
            t@.len() == i,
            forall|x: int| 0 <= x < i ==> #[trigger] t@[x]@.len() == n,
            forall|x: int, y: int| 0 <= x < i && 0 <= y < n ==> #[trigger] t@[x]@[y] as int == dm[x][y],
        decreases n - i,
    {
        let mut row: Vec<usize> = Vec::new();
        let mut j: usize = 0;
        while j < n
            invariant
                d == rows(data@),
                dm == distance_matrix(d),
                n == data@.len(),
                i < n,
                j <= n,
                t@.len() == i,
                forall|x: int| 0 <= x < i ==> #[trigger] t@[x]@.len() == n,
                forall|x: int, y: int| 0 <= x < i && 0 <= y < n ==> #[trigger] t@[x]@[y] as int == dm[x][y],
                row@.len() == j,
                forall|y: int| 0 <= y < j ==> #[trigger] row@[y] as int == dm[i as int][y],
            decreases n - j,
        {
            let v: usize = if j < i {
                proof {
                    lemma_distances_symmetric(d[j as int], d[i as int]);
                    assert(t@[j as int]@[i as int] as int == dm[j as int][i as int]);
                }
                t[j][i]
            } else if j == i {
                proof {
                    lemma_distances_self(d[i as int]);
                }
                0
            } else {
                hamming_distance(data[i].as_slice(), data[j].as_slice())
            };
            row.push(v);
            j = j + 1;
        }
        t.push(row);
        i = i + 1;
    }
    t
}

/// The table holds the distance matrix `dm` of `n` points.
spec fn table_holds(t: Seq<Vec<usize>>, dm: Seq<Seq<int>>, n: nat) -> bool {
    &&& t.len() == n
    &&& forall|i: int| 0 <= i < n ==> #[trigger] t[i]@.len() == n
    &&& forall|i: int, j: int| 0 <= i < n && 0 <= j < n ==> #[trigger] t[i]@[j] as int == dm[i][j]
}

/// Every index in `a` is below `n`.
spec fn indices_below(a: Seq<usize>, n: nat) -> bool {
    forall|k: int| 0 <= k < a.len() ==> #[trigger] a[k] < n
}

/// Bound on a row sum of entries that fit in `usize`.
proof fn lemma_row_sum_bound(dm: Seq<Seq<int>>, x: int, b: Seq<usize>, n: nat)
    requires
        0 <= x < n,
        indices_below(b, n),
        forall|i: int, j: int| 0 <= i < n && 0 <= j < n ==> 0 <= #[trigger] dm[i][j] <= usize::MAX,
    ensures
        0 <= row_sum(dm, x, b) <= b.len() * usize::MAX,
    decreases b.len(),
{
    if b.len() > 0 {
        lemma_row_sum_bound(dm, x, b.drop_last(), n);
        assert(dm[x][b.last() as int] <= usize::MAX);
        assert((b.len() - 1) * usize::MAX + usize::MAX == b.len() * usize::MAX) by (nonlinear_arith);
    }
}

/// Bound on a pair sum of entries that fit in `usize`.
proof fn lemma_pairs_sum_bound(dm: Seq<Seq<int>>, a: Seq<usize>, b: Seq<usize>, n: nat)
    requires
        indices_below(a, n),
        indices_below(b, n),
        forall|i: int, j: int| 0 <= i < n && 0 <= j < n ==> 0 <= #[trigger] dm[i][j] <= usize::MAX,
    ensures
        0 <= pairs_sum(dm, a, b) <= a.len() * b.len() * usize::MAX,
    decreases a.len(),
{
    if a.len() > 0 {
        lemma_pairs_sum_bound(dm, a.drop_last(), b, n);
        lemma_row_sum_bound(dm, a.last() as int, b, n);
        assert((a.len() - 1) * b.len() * usize::MAX + b.len() * usize::MAX == a.len() * b.len() * usize::MAX)
            by (nonlinear_arith);
    }
}

/// The distances from point `x` to the points of `b`: least, greatest and total.
fn row_stats(x: usize, b: &Vec<usize>, table: &Vec<Vec<usize>>, Ghost(dm): Ghost<Seq<Seq<int>>>) -> (r: (usize, usize, u128))
    requires
        b@.len() > 0,
        x < table@.len(),
        indices_below(b@, table@.len()),
        table_holds(table@, dm, table@.len()),
    ensures
        r.0 as int == row_min(dm, x as int, b@),
        r.1 as int == row_max(dm, x as int, b@),
        r.2 as int == row_sum(dm, x as int, b@),
{
    let ghost n = table@.len();
    proof {
        assert forall|i: int, j: int| 0 <= i < n && 0 <= j < n implies 0 <= #[trigger] dm[i][j] <= usize::MAX by {
            assert(table@[i]@[j] as int == dm[i][j]);
        }
    }
    let first = table[x][b[0]];
    let mut mn: usize = first;
    let mut mx: usize = first;
    let mut sm: u128 = first as u128;
    proof {
        assert(b@.take(1).drop_last() =~= Seq::<usize>::empty());
        assert(b@.take(1)[0] == b@[0]);
        assert(row_sum(dm, x as int, b@.take(1).drop_last()) == 0);
    }
    let mut k: usize = 1;
    while k < b.len()
        invariant
            n == table@.len(),
            x < n,
            indices_below(b@, n),
            table_holds(table@, dm, n),
            forall|i: int, j: int| 0 <= i < n && 0 <= j < n ==> 0 <= #[trigger] dm[i][j] <= usize::MAX,
            1 <= k <= b@.len(),
            mn as int == row_min(dm, x as int, b@.take(k as int)),
            mx as int == row_max(dm, x as int, b@.take(k as int)),
            sm as int == row_sum(dm, x as int, b@.take(k as int)),
        decreases b@.len() - k,
    {
        let v = table[x][b[k]];
        let ghost pre = b@.take(k as int);
        let ghost cur = b@.take(k + 1);
        proof {
            assert(cur.drop_last() =~= pre);
            assert(cur.last() == b@[k as int]);
            assert(indices_below(pre, n));
            lemma_row_sum_bound(dm, x as int, pre, n);
            assert(pre.len() * usize::MAX <= usize::MAX * usize::MAX) by (nonlinear_arith)
                requires
                    pre.len() <= usize::MAX,
            ;
        }
        if v < mn {
            mn = v;
        }
        if v > mx {
            mx = v;
        }
        sm = sm + v as u128;
        k = k + 1;
    }
    proof {
        assert(b@.take(b@.len() as int) =~= b@);
    }
    (mn, mx, sm)
}

/// The linkage distance between two clusters, as a fraction `(num, den)`.
fn cluster_distance(
    a: &Vec<usize>,
    b: &Vec<usize>,
    table: &Vec<Vec<usize>>,
    linkage: Linkage,
    Ghost(dm): Ghost<Seq<Seq<int>>>,
) -> (r: (u128, u128))
    requires
        a@.len() > 0,
        b@.len() > 0,
        a@.len() * b@.len() <= MAX_DEN,
        indices_below(a@, table@.len()),
        indices_below(b@, table@.len()),
        table_holds(table@, dm, table@.len()),
    ensures
        (r.0 as int, r.1 as int) == linkage_dist(dm, a@, b@, linkage),
        r.1 > 0,
        r.1 <= MAX_DEN,
{
    let ghost n = table@.len();
    proof {
        assert forall|i: int, j: int| 0 <= i < n && 0 <= j < n implies 0 <= #[trigger] dm[i][j] <= usize::MAX by {
            assert(table@[i]@[j] as int == dm[i][j]);
        }
    }
    let (m0, x0, s0) = row_stats(a[0], b, table, Ghost(dm));
    let mut mn: usize = m0;
    let mut mx: usize = x0;
    let mut sm: u128 = s0;
    proof {
        assert(a@.take(1).drop_last() =~= Seq::<usize>::empty());
        assert(a@.take(1)[0] == a@[0]);
        assert(pairs_sum(dm, a@.take(1).drop_last(), b@) == 0);
    }
    let mut k: usize = 1;
    while k < a.len()
        invariant
            n == table@.len(),
            b@.len() > 0,
            a@.len() * b@.len() <= MAX_DEN,
            indices_below(a@, n),
            indices_below(b@, n),
            table_holds(table@, dm, n),
            forall|i: int, j: int| 0 <= i < n && 0 <= j < n ==> 0 <= #[trigger] dm[i][j] <= usize::MAX,
            1 <= k <= a@.len(),
            mn as int == pairs_min(dm, a@.take(k as int), b@),
            mx as int == pairs_max(dm, a@.take(k as int), b@),
            sm as int == pairs_sum(dm, a@.take(k as int), b@),
        decreases a@.len() - k,
    {
        let (rm, rx, rs) = row_stats(a[k], b, table, Ghost(dm));
        let ghost pre = a@.take(k as int);
        let ghost cur = a@.take(k + 1);
        proof {
            assert(cur.drop_last() =~= pre);
            assert(cur.last() == a@[k as int]);
            assert(indices_below(cur, n));
            lemma_pairs_sum_bound(dm, cur, b@, n);
            assert(cur.len() * b@.len() <= a@.len() * b@.len()) by (nonlinear_arith)
                requires
                    cur.len() <= a@.len(),
            ;
            assert(cur.len() * b@.len() * usize::MAX <= MAX_DEN * usize::MAX) by (nonlinear_arith)
                requires
                    cur.len() * b@.len() <= MAX_DEN,
            ;
        }
        if rm < mn {
            mn = rm;
        }
        if rx > mx {
            mx = rx;
        }
        sm = sm + rs;
        k = k + 1;
    }
    proof {
        assert(a@.take(a@.len() as int) =~= a@);
        assert(a@.len() * b@.len() > 0) by (nonlinear_arith)
            requires
                a@.len() > 0,
                b@.len() > 0,
        ;
    }
    match linkage {
        Linkage::Single => (mn as u128, 1),
        Linkage::Complete => (mx as u128, 1),
        Linkage::Average => {
            let count: u128 = (a.len() as u128) * (b.len() as u128);
            (sm, count)
        },
    }
}


/// The pair `(x, y)` lies before position `(i, j)` of the scan.
spec fn scanned(x: int, y: int, i: int, j: int) -> bool {
    x < i || (x == i && y < j)
}

/// Every active cluster has members.
spec fn members_nonempty(s: ClusterState) -> bool {
    forall|i: int| 0 <= i < s.active.len() && #[trigger] s.active[i] ==> s.members[i].len() > 0
}

/// The search has seen the pairs before `(i, j)`; if it has found one, `(bi, bj)` is the
/// first of the least distance among them, at distance `best`.
spec fn scan_ok(
    dm: Seq<Seq<int>>,
    link: Linkage,
    s: ClusterState,
    found: bool,
    bi: int,
    bj: int,
    best: (int, int),
    i: int,
    j: int,
) -> bool {
    &&& found ==> {
        &&& active_pair(s, bi, bj)
        &&& scanned(bi, bj, i, j)
        &&& best == cluster_dist(dm, link, s, bi, bj)
        &&& forall|x: int, y: int|
            #[trigger] active_pair(s, x, y) && scanned(x, y, i, j) ==> !frac_lt(cluster_dist(dm, link, s, x, y), best)
        &&& forall|x: int, y: int|
            #[trigger] active_pair(s, x, y) && scanned(x, y, i, j) && pair_before(x, y, bi, bj) ==> frac_lt(
                best,
                cluster_dist(dm, link, s, x, y),
            )
    }
    &&& !found ==> forall|x: int, y: int| #[trigger] active_pair(s, x, y) ==> !scanned(x, y, i, j)
}

/// Linkage distances of active clusters have positive denominators.
proof fn lemma_dist_den_positive(dm: Seq<Seq<int>>, link: Linkage, s: ClusterState, x: int, y: int)
    requires
        members_nonempty(s),
        active_pair(s, x, y),
    ensures
        cluster_dist(dm, link, s, x, y).1 > 0,
{
    assert(s.active[x]);
    assert(s.active[y]);
    let a = s.members[x];
    let b = s.members[y];
    assert(a.len() * b.len() > 0) by (nonlinear_arith)
        requires
            a.len() > 0,
            b.len() > 0,
    ;
}

/// Looking at the active pair `(i, j)` with distance `dij` keeps the search invariant.
proof fn lemma_scan_pair(
    dm: Seq<Seq<int>>,
    link: Linkage,
    s: ClusterState,
    found: bool,
    bi: int,
    bj: int,
    best: (int, int),
    i: int,
    j: int,
    take: bool,
)
    requires
        scan_ok(dm, link, s, found, bi, bj, best, i, j),
        members_nonempty(s),
        active_pair(s, i, j),
        take == (!found || frac_lt(cluster_dist(dm, link, s, i, j), best)),
    ensures
        take ==> scan_ok(dm, link, s, true, i, j, cluster_dist(dm, link, s, i, j), i, j + 1),
        !take ==> scan_ok(dm, link, s, found, bi, bj, best, i, j + 1),
{
    let dij = cluster_dist(dm, link, s, i, j);
    lemma_dist_den_positive(dm, link, s, i, j);
    if found {
        lemma_dist_den_positive(dm, link, s, bi, bj);
    }
    if take {
        assert forall|x: int, y: int| #[trigger] active_pair(s, x, y) && scanned(x, y, i, j + 1) implies !frac_lt(
            cluster_dist(dm, link, s, x, y),
            dij,
        ) && (pair_before(x, y, i, j) ==> frac_lt(dij, cluster_dist(dm, link, s, x, y))) by {
            if x == i && y == j {
                assert(!frac_lt(dij, dij));
            } else {
                assert(found);
                lemma_dist_den_positive(dm, link, s, x, y);
                lemma_frac_lt_le(dij, best, cluster_dist(dm, link, s, x, y));
            }
        }
    } else {
        assert forall|x: int, y: int| #[trigger] active_pair(s, x, y) && scanned(x, y, i, j + 1) implies !frac_lt(
            cluster_dist(dm, link, s, x, y),
            best,
        ) by {
            if x == i && y == j {
            } else {
                assert(scanned(x, y, i, j));
            }
        }
        assert forall|x: int, y: int|
            #[trigger] active_pair(s, x, y) && scanned(x, y, i, j + 1) && pair_before(x, y, bi, bj) implies frac_lt(
            best,
            cluster_dist(dm, link, s, x, y),
        ) by {
            assert(scanned(x, y, i, j));
        }
    }
}


/// Number of active clusters among the first `m`.
spec fn count_active(active: Seq<bool>, m: nat) -> nat
    decreases m,
{
    if m == 0 {
        0
    } else {
        count_active(active, (m - 1) as nat) + if active[m - 1] { 1nat } else { 0nat }
    }
}

/// Total number of member points of the active clusters among the first `m`.
spec fn total_size(s: ClusterState, m: nat) -> nat
    decreases m,
{
    if m == 0 {
        0
    } else {
        total_size(s, (m - 1) as nat) + if s.active[m - 1] { s.members[m - 1].len() } else { 0nat }
    }
}

/// The state after `step` merges of `n` points: `n - step` active clusters, holding
/// the `n` points between them, the next label `n + step`.
spec fn state_ok(s: ClusterState, n: nat, step: nat) -> bool {
    &&& s.active.len() == n
    &&& s.members.len() == n
    &&& s.label.len() == n
    &&& count_active(s.active, n) + step == n
    &&& total_size(s, n) == n
    &&& members_nonempty(s)
    &&& forall|i: int| 0 <= i < n ==> indices_below(#[trigger] s.members[i], n)
    &&& s.next_label == n + step
}

proof fn lemma_count_deactivate(active: Seq<bool>, b: int, m: nat)
    requires
        0 <= b < active.len(),
        m <= active.len(),
        active[b],
    ensures
        count_active(active.update(b, false), m) + (if b < m { 1nat } else { 0nat }) == count_active(active, m),
    decreases m,
{
    if m > 0 {
        lemma_count_deactivate(active, b, (m - 1) as nat);
    }
}

proof fn lemma_count_one(active: Seq<bool>, m: nat)
    requires
        m <= active.len(),
        count_active(active, m) >= 1,
    ensures
        exists|i: int| 0 <= i < m && #[trigger] active[i],
    decreases m,
{
    if !active[m - 1] {
        lemma_count_one(active, (m - 1) as nat);
        let i = choose|i: int| 0 <= i < m - 1 && #[trigger] active[i];
        assert(0 <= i < m && active[i]);
    } else {
        assert(active[m - 1]);
    }
}

proof fn lemma_count_two(active: Seq<bool>, m: nat)
    requires
        m <= active.len(),
        count_active(active, m) >= 2,
    ensures
        exists|i: int, j: int| 0 <= i < j < m && #[trigger] active[i] && #[trigger] active[j],
    decreases m,
{
    if active[m - 1] {
        lemma_count_one(active, (m - 1) as nat);
        let i = choose|i: int| 0 <= i < m - 1 && #[trigger] active[i];
        assert(active[i] && active[m - 1]);
    } else {
        lemma_count_two(active, (m - 1) as nat);
        let (i, j) = choose|i: int, j: int| 0 <= i < j < m - 1 && #[trigger] active[i] && #[trigger] active[j];
        assert(active[i] && active[j]);
    }
}

proof fn lemma_total_merge(s: ClusterState, bi: int, bj: int, m: nat)
    requires
        s.active.len() == s.members.len(),
        0 <= bi < s.active.len(),
        0 <= bj < s.active.len(),
        bi != bj,
        s.active[bi],
        s.active[bj],
        m <= s.active.len(),
    ensures
        total_size(merge_step(s, bi, bj), m) + (if bj < m { s.members[bj].len() } else { 0nat }) == total_size(s, m)
            + (if bi < m { s.members[bj].len() } else { 0nat }),
    decreases m,
{
    if m > 0 {
        lemma_total_merge(s, bi, bj, (m - 1) as nat);
    }
}

proof fn lemma_size_le_total(s: ClusterState, i: int, m: nat)
    requires
        s.active.len() == s.members.len(),
        0 <= i < m <= s.active.len(),
        s.active[i],
    ensures
        s.members[i].len() <= total_size(s, m),
    decreases m,
{
    if i < m - 1 {
        lemma_size_le_total(s, i, (m - 1) as nat);
    }
}

proof fn lemma_initial_counts(n: nat, m: nat)
    requires
        m <= n,
    ensures
        count_active(initial_state(n).active, m) == m,
        total_size(initial_state(n), m) == m,
    decreases m,
{
    if m > 0 {
        lemma_initial_counts(n, (m - 1) as nat);
    }
}

/// Singleton clusters form a valid starting state.
proof fn lemma_initial_ok(n: nat)
    ensures
        state_ok(initial_state(n), n, 0),
{
    lemma_initial_counts(n, n);
    let s = initial_state(n);
    assert forall|i: int| 0 <= i < n implies indices_below(#[trigger] s.members[i], n) by {
        assert(s.members[i] == seq![i as usize]);
    }
}

/// Merging the best pair keeps the state valid, one step further.
proof fn lemma_merge_ok(s: ClusterState, n: nat, step: nat, bi: int, bj: int)
    requires
        state_ok(s, n, step),
        active_pair(s, bi, bj),
    ensures
        state_ok(merge_step(s, bi, bj), n, step + 1),
{
    let s2 = merge_step(s, bi, bj);
    lemma_count_deactivate(s.active, bj, n);
    lemma_total_merge(s, bi, bj, n);
    assert forall|i: int| 0 <= i < n implies indices_below(#[trigger] s2.members[i], n) by {
        if i == bi {
            assert(indices_below(s.members[bi], n));
            assert(indices_below(s.members[bj], n));
            assert forall|k: int| 0 <= k < s2.members[i].len() implies #[trigger] s2.members[i][k] < n by {
                if k < s.members[bi].len() {
                    assert(s2.members[i][k] == s.members[bi][k]);
                } else {
                    assert(s2.members[i][k] == s.members[bj][k - s.members[bi].len()]);
                }
            }
        } else {
            assert(s2.members[i] == s.members[i]);
        }
    }
    assert forall|i: int| 0 <= i < s2.active.len() && #[trigger] s2.active[i] implies s2.members[i].len() > 0 by {
        assert(s.active[i]);
    }
}


/// The clusters that the run's vectors describe.
spec fn state_of(active: Seq<bool>, members: Seq<Vec<usize>>, labels: Seq<usize>, next_label: usize) -> ClusterState {
    ClusterState {
        active: active,
        members: members.map_values(|v: Vec<usize>| v@),
        label: labels.map_values(|x: usize| x as int),
        next_label: next_label as int,
    }
}

/// Finds the active pair at the least linkage distance, the first one on a tie.
fn find_best_pair(
    active: &Vec<bool>,
    members: &Vec<Vec<usize>>,
    table: &Vec<Vec<usize>>,
    linkage: Linkage,
    Ghost(dm): Ghost<Seq<Seq<int>>>,
    Ghost(s): Ghost<ClusterState>,
    Ghost(step): Ghost<nat>,
) -> (r: (usize, usize, u128, u128))
    requires
        s.active == active@,
        s.members == members@.map_values(|v: Vec<usize>| v@),
        state_ok(s, table@.len(), step),
        step + 1 < table@.len(),
        table@.len() * table@.len() <= MAX_DEN,
        table_holds(table@, dm, table@.len()),
    ensures
        is_best_pair(dm, linkage, s, r.0 as int, r.1 as int),
        (r.2 as int, r.3 as int) == cluster_dist(dm, linkage, s, r.0 as int, r.1 as int),
{
    let n = active.len();
    let mut found = false;
    let mut bi: usize = 0;
    let mut bj: usize = 0;
    let mut bn: u128 = 0;
    let mut bd: u128 = 1;
    let mut i: usize = 0;
    while i < n
        invariant
            n == active@.len(),
            n == table@.len(),
            s.active == active@,
            s.members == members@.map_values(|v: Vec<usize>| v@),
            state_ok(s, n as nat, step),
            n * n <= MAX_DEN,
            table_holds(table@, dm, n as nat),
            i <= n,
            scan_ok(dm, linkage, s, found, bi as int, bj as int, (bn as int, bd as int), i as int, 0),
            found ==> 0 < bd <= MAX_DEN,
        decreases n - i,
    {
        if active[i] {
            let mut j: usize = i + 1;
            assert(scan_ok(dm, linkage, s, found, bi as int, bj as int, (bn as int, bd as int), i as int, j as int));
            while j < n
                invariant
                    n == active@.len(),
                    n == table@.len(),
                    s.active == active@,
                    s.members == members@.map_values(|v: Vec<usize>| v@),
                    state_ok(s, n as nat, step),
                    n * n <= MAX_DEN,
                    table_holds(table@, dm, n as nat),
                    i < n,
                    active@[i as int],
                    i < j <= n,
                    scan_ok(dm, linkage, s, found, bi as int, bj as int, (bn as int, bd as int), i as int, j as int),
                    found ==> 0 < bd <= MAX_DEN,
                decreases n - j,
            {
                if active[j] {
                    proof {
                        assert(s.members[i as int] == members@[i as int]@);
                        assert(s.members[j as int] == members@[j as int]@);
                        assert(indices_below(s.members[i as int], n as nat));
                        assert(indices_below(s.members[j as int], n as nat));
                        lemma_size_le_total(s, i as int, n as nat);
                        lemma_size_le_total(s, j as int, n as nat);
                        assert(members@[i as int]@.len() * members@[j as int]@.len() <= n * n) by (nonlinear_arith)
                            requires
                                members@[i as int]@.len() <= n,
                                members@[j as int]@.len() <= n,
                        ;
                    }
                    let (nu, de) = cluster_distance(&members[i], &members[j], table, linkage, Ghost(dm));
                    let take = if !found { true } else { frac_less(nu, de, bn, bd) };
                    proof {
                        lemma_scan_pair(dm, linkage, s, found, bi as int, bj as int, (bn as int, bd as int), i as int, j as int, take);
                    }
                    if take {
                        found = true;
                        bi = i;
                        bj = j;
                        bn = nu;
                        bd = de;
                    }
                } else {
                    assert forall|x: int, y: int| #[trigger] active_pair(s, x, y) && scanned(x, y, i as int, j + 1)
                        implies scanned(x, y, i as int, j as int) by {}
                }
                j = j + 1;
            }
        } else {
            assert forall|x: int, y: int| #[trigger] active_pair(s, x, y) && scanned(x, y, i + 1, 0)
                implies scanned(x, y, i as int, 0) by {}
        }
        i = i + 1;
    }
    proof {
        lemma_count_two(active@, n as nat);
        let (x, y) = choose|x: int, y: int| 0 <= x < y < n && #[trigger] active@[x] && #[trigger] active@[y];
        assert(active_pair(s, x, y));
        assert(found);
    }
    (bi, bj, bn, bd)
}

/// Concatenates two index lists.
fn concat(a: &Vec<usize>, b: &Vec<usize>) -> (r: Vec<usize>)
    ensures
        r@ == a@ + b@,
{
    let mut r: Vec<usize> = Vec::new();
    let mut k: usize = 0;
    while k < a.len()
        invariant
            k <= a@.len(),
            r@ == a@.take(k as int),
        decreases a@.len() - k,
    {
        r.push(a[k]);
        k = k + 1;
        assert(r@ =~= a@.take(k as int));
    }
    let mut k: usize = 0;
    while k < b.len()
        invariant
            k <= b@.len(),
            r@ == a@ + b@.take(k as int),
        decreases b@.len() - k,
    {
        r.push(b[k]);
        k = k + 1;
        assert(r@ =~= a@ + b@.take(k as int));
    }
    assert(a@.take(a@.len() as int) =~= a@);
    assert(b@.take(b@.len() as int) =~= b@);
    r
}

/// Agglomerative hierarchical clustering for ternary data.
///
/// Returns a dendrogram as a sequence of merge steps: the labels of the two merged
/// clusters and their linkage distance.
pub fn hierarchical(data: &[Vec<Ternary>], linkage: Linkage) -> (merges: Vec<Merge>)
    requires
        matrix_fits(data@.len()),
    ensures
        merges@.map_values(|m: Merge| merge_view(m)) == dendrogram(rows(data@), linkage),
{
    let n = data.len();
    if n <= 1 {
        let merges: Vec<Merge> = Vec::new();
        assert(merges@.map_values(|m: Merge| merge_view(m)) =~= Seq::<(int, int, int, int)>::empty());
        return merges;
    }
    let ghost d = rows(data@);
    let ghost dm = distance_matrix(d);
    let table = distance_table(data);
    let mut active: Vec<bool> = Vec::new();
    let mut members: Vec<Vec<usize>> = Vec::new();
    let mut labels: Vec<usize> = Vec::new();
    let mut t: usize = 0;
    while t < n
        invariant
            t <= n,
            active@.len() == t,
            members@.len() == t,
            labels@.len() == t,
            forall|x: int| 0 <= x < t ==> #[trigger] active@[x],
            forall|x: int| 0 <= x < t ==> #[trigger] members@[x]@ == seq![x as usize],
            forall|x: int| 0 <= x < t ==> #[trigger] labels@[x] == x,
        decreases n - t,
    {
        active.push(true);
        let mut single: Vec<usize> = Vec::new();
        single.push(t);
        members.push(single);
        labels.push(t);
        t = t + 1;
    }
    let mut next_label: usize = n;
    proof {
        lemma_initial_ok(n as nat);
        let s0 = state_of(active@, members@, labels@, next_label);
        let i0 = initial_state(n as nat);
        assert(s0.active =~= i0.active);
        assert(s0.members =~= i0.members);
        assert(s0.label =~= i0.label);
        assert(s0 == i0);
        assert(n * n <= MAX_DEN);
        assert(n <= 0x4000_0000) by (nonlinear_arith)
            requires
                n * n <= MAX_DEN,
        ;
    }
    let ghost target = dendrogram(d, linkage);
    let mut merges: Vec<Merge> = Vec::new();
    let mut step: usize = 0;
    while step < n - 1
        invariant
            d == rows(data@),
            dm == distance_matrix(d),
            n == data@.len(),
            1 < n <= 0x4000_0000,
            n * n <= MAX_DEN,
            table_holds(table@, dm, n as nat),
            target == dendrogram(d, linkage),
            step <= n - 1,
            next_label == n + step,
            active@.len() == n,
            members@.len() == n,
            labels@.len() == n,
            state_ok(state_of(active@, members@, labels@, next_label), n as nat, step as nat),
            target == merges@.map_values(|m: Merge| merge_view(m)) + merges_from(
                dm,
                linkage,
                state_of(active@, members@, labels@, next_label),
                (n - 1 - step) as nat,
            ),
        decreases n - 1 - step,
    {
        let ghost s = state_of(active@, members@, labels@, next_label);
        let (bi, bj, bn, bd) = find_best_pair(&active, &members, &table, linkage, Ghost(dm), Ghost(s), Ghost(step as nat));
        proof {
            let w: (int, int) = (bi as int, bj as int);
            assert(is_best_pair(dm, linkage, s, w.0, w.1));
            let p = best_pair(dm, linkage, s);
            lemma_best_pair_unique(dm, linkage, s, p.0, p.1, bi as int, bj as int);
        }
        let m = Merge { left: labels[bi], right: labels[bj], dist_num: bn, dist_den: bd };
        let ghost old_view = merges@.map_values(|m: Merge| merge_view(m));
        merges.push(m);
        let merged = concat(&members[bi], &members[bj]);
        let ghost old_members = members@;
        let ghost old_labels = labels@;
        members[bi] = merged;
        labels[bi] = next_label;
        active[bj] = false;
        next_label = next_label + 1;
        step = step + 1;
        proof {
            let s2 = state_of(active@, members@, labels@, next_label);
            assert(s2.members =~= s.members.update(bi as int, s.members[bi as int] + s.members[bj as int]));
            assert(s2.label =~= s.label.update(bi as int, s.next_label));
            assert(s2.active =~= s.active.update(bj as int, false));
            assert(s2 == merge_step(s, bi as int, bj as int));
            lemma_merge_ok(s, n as nat, (step - 1) as nat, bi as int, bj as int);
            assert(merges@.map_values(|m: Merge| merge_view(m)) =~= old_view.push(merge_view(m)));
            assert(merge_view(m) == (s.label[bi as int], s.label[bj as int], bn as int, bd as int));
            assert(target =~= merges@.map_values(|m: Merge| merge_view(m)) + merges_from(dm, linkage, s2, (n - 1 - step) as nat));
        }
    }
    proof {
        assert(merges@.map_values(|m: Merge| merge_view(m)) + Seq::<(int, int, int, int)>::empty() =~= merges@.map_values(|m: Merge| merge_view(m)));
    }
    merges
}


proof fn lemma_merges_from_shape(dm: Seq<Seq<int>>, link: Linkage, s: ClusterState, steps: nat)
    ensures
        merges_from(dm, link, s, steps).len() == steps,
        link != Linkage::Average ==> forall|k: int|
            0 <= k < steps ==> (#[trigger] merges_from(dm, link, s, steps)[k]).3 == 1,
    decreases steps,
{
    if steps > 0 {
        let p = best_pair(dm, link, s);
        let rest = merges_from(dm, link, merge_step(s, p.0, p.1), (steps - 1) as nat);
        lemma_merges_from_shape(dm, link, merge_step(s, p.0, p.1), (steps - 1) as nat);
        let all = merges_from(dm, link, s, steps);
        if link != Linkage::Average {
            assert forall|k: int| 0 <= k < steps implies (#[trigger] all[k]).3 == 1 by {
                if k > 0 {
                    assert(all[k] == rest[k - 1]);
                }
            }
        }
    }
}

/// The dendrogram of `n >= 1` points has `n - 1` merge steps; with single or complete
/// linkage every distance is a whole number (denominator 1).
pub proof fn lemma_dendrogram_shape(d: Seq<Seq<Ternary>>, link: Linkage)
    requires
        d.len() >= 1,
    ensures
        dendrogram(d, link).len() == d.len() - 1,
        link != Linkage::Average ==> forall|k: int|
            0 <= k < d.len() - 1 ==> (#[trigger] dendrogram(d, link)[k]).3 == 1,
{
    if d.len() > 1 {
        lemma_merges_from_shape(distance_matrix(d), link, initial_state(d.len()), (d.len() - 1) as nat);
    }
}

/// The first merge joins two points at the least Hamming distance between any two
/// points (as a whole number), whatever the linkage.
pub proof fn lemma_dendrogram_first_merge(d: Seq<Seq<Ternary>>, link: Linkage)
    requires
        2 <= d.len() <= usize::MAX,
    ensures
        dendrogram(d, link)[0].3 == 1,
        0 <= dendrogram(d, link)[0].0 < dendrogram(d, link)[0].1 < d.len(),
        dendrogram(d, link)[0].2 == hamming(d[dendrogram(d, link)[0].0], d[dendrogram(d, link)[0].1]),
        forall|i: int, j: int|
            0 <= i < j < d.len() ==> dendrogram(d, link)[0].2 <= #[trigger] hamming(d[i], #[trigger] d[j]),
{
    let dm = distance_matrix(d);
    let s = initial_state(d.len());
    let n = d.len();
    // Between singletons every linkage is the distance of the two points.
    assert forall|i: int, j: int| 0 <= i < n && 0 <= j < n implies #[trigger] cluster_dist(dm, link, s, i, j) == (
    dm[i][j], 1int) by {
        assert(s.members[i] == seq![i as usize]);
        assert(s.members[j] == seq![j as usize]);
        let a = s.members[i];
        let b = s.members[j];
        assert(b[0] as int == j);
        assert(a[0] as int == i);
        assert(row_sum(dm, i, b.drop_last()) == 0);
        assert(pairs_sum(dm, a.drop_last(), b) == 0);
    }
    // Some pair is the best one: take the first closest pair.
    lemma_exists_best_initial(dm, link, s, n);
    let p = best_pair(dm, link, s);
    assert(is_best_pair(dm, link, s, p.0, p.1));
    assert(s.label[p.0] == p.0);
    assert(s.label[p.1] == p.1);
    let first = dendrogram(d, link)[0];
    assert(dendrogram(d, link) == merges_from(dm, link, s, (n - 1) as nat));
    assert(first == (p.0, p.1, cluster_dist(dm, link, s, p.0, p.1).0, cluster_dist(dm, link, s, p.0, p.1).1));
    assert forall|i: int, j: int| 0 <= i < j < n implies first.2 <= #[trigger] hamming(d[i], #[trigger] d[j]) by {
        assert(active_pair(s, i, j));
        assert(!frac_lt(cluster_dist(dm, link, s, i, j), cluster_dist(dm, link, s, p.0, p.1)));
        assert(dm[i][j] == hamming(d[i], d[j]));
    }
}

/// In the starting state some active pair is the best one.
proof fn lemma_exists_best_initial(dm: Seq<Seq<int>>, link: Linkage, s: ClusterState, n: nat)
    requires
        n >= 2,
        s == initial_state(n),
        forall|i: int, j: int| 0 <= i < n && 0 <= j < n ==> #[trigger] cluster_dist(dm, link, s, i, j) == (dm[i][j], 1int),
    ensures
        exists|p: (int, int)| is_best_pair(dm, link, s, p.0, p.1),
{
    lemma_initial_ok(n);
    lemma_count_two(s.active, n);
    lemma_best_exists(dm, link, s, n);
}

/// Continues the scan of row `i` from column `j` to the end of the row.
proof fn lemma_scan_row(
    dm: Seq<Seq<int>>,
    link: Linkage,
    s: ClusterState,
    n: nat,
    found: bool,
    bi: int,
    bj: int,
    best: (int, int),
    i: int,
    j: int,
) -> (r: (bool, int, int, (int, int)))
    requires
        s.active.len() == n,
        s.members.len() == n,
        members_nonempty(s),
        0 <= i < n,
        i < j <= n,
        scan_ok(dm, link, s, found, bi, bj, best, i, j),
    ensures
        scan_ok(dm, link, s, r.0, r.1, r.2, r.3, i, n as int),
    decreases n - j,
{
    if j == n {
        (found, bi, bj, best)
    } else if s.active[i] && s.active[j] {
        let take = !found || frac_lt(cluster_dist(dm, link, s, i, j), best);
        lemma_scan_pair(dm, link, s, found, bi, bj, best, i, j, take);
        if take {
            lemma_scan_row(dm, link, s, n, true, i, j, cluster_dist(dm, link, s, i, j), i, j + 1)
        } else {
            lemma_scan_row(dm, link, s, n, found, bi, bj, best, i, j + 1)
        }
    } else {
        assert forall|x: int, y: int| #[trigger] active_pair(s, x, y) && scanned(x, y, i, j + 1) implies scanned(
            x,
            y,
            i,
            j,
        ) by {}
        lemma_scan_row(dm, link, s, n, found, bi, bj, best, i, j + 1)
    }
}

/// Continues the scan from row `i` to the last row.
proof fn lemma_scan_rows(
    dm: Seq<Seq<int>>,
    link: Linkage,
    s: ClusterState,
    n: nat,
    found: bool,
    bi: int,
    bj: int,
    best: (int, int),
    i: int,
) -> (r: (bool, int, int, (int, int)))
    requires
        s.active.len() == n,
        s.members.len() == n,
        members_nonempty(s),
        0 <= i <= n,
        scan_ok(dm, link, s, found, bi, bj, best, i, 0),
    ensures
        scan_ok(dm, link, s, r.0, r.1, r.2, r.3, n as int, 0),
    decreases n - i,
{
    if i == n {
        (found, bi, bj, best)
    } else {
        assert(scan_ok(dm, link, s, found, bi, bj, best, i, i + 1));
        let r1 = lemma_scan_row(dm, link, s, n, found, bi, bj, best, i, i + 1);
        assert forall|x: int, y: int| #[trigger] active_pair(s, x, y) && scanned(x, y, i + 1, 0) implies scanned(
            x,
            y,
            i,
            n as int,
        ) by {}
        assert forall|x: int, y: int| #[trigger] active_pair(s, x, y) && scanned(x, y, i, n as int) implies scanned(
            x,
            y,
            i + 1,
            0,
        ) by {}
        lemma_scan_rows(dm, link, s, n, r1.0, r1.1, r1.2, r1.3, i + 1)
    }
}

/// Whenever two clusters are active, some pair of them is the best one.
proof fn lemma_best_exists(dm: Seq<Seq<int>>, link: Linkage, s: ClusterState, n: nat)
    requires
        s.active.len() == n,
        s.members.len() == n,
        members_nonempty(s),
        exists|i: int, j: int| 0 <= i < j < n && #[trigger] s.active[i] && #[trigger] s.active[j],
    ensures
        exists|p: (int, int)| is_best_pair(dm, link, s, p.0, p.1),
{
    let r = lemma_scan_rows(dm, link, s, n, false, 0, 0, (0, 1), 0);
    let (x, y) = choose|i: int, j: int| 0 <= i < j < n && #[trigger] s.active[i] && #[trigger] s.active[j];
    assert(active_pair(s, x, y));
    assert(r.0);
    let w: (int, int) = (r.1, r.2);
    assert(is_best_pair(dm, link, s, w.0, w.1));
}


/// `dm` is a symmetric `n * n` matrix of non-negative entries.
spec fn symmetric_matrix(dm: Seq<Seq<int>>, n: nat) -> bool {
    &&& dm.len() == n
    &&& forall|i: int| 0 <= i < n ==> #[trigger] dm[i].len() == n
    &&& forall|i: int, j: int| 0 <= i < n && 0 <= j < n ==> #[trigger] dm[i][j] == dm[j][i] && dm[i][j] >= 0
}

proof fn lemma_row_min_attained(dm: Seq<Seq<int>>, x: int, b: Seq<usize>)
    requires
        b.len() > 0,
    ensures
        forall|j: int| 0 <= j < b.len() ==> row_min(dm, x, b) <= #[trigger] dm[x][b[j] as int],
        exists|j: int| 0 <= j < b.len() && row_min(dm, x, b) == #[trigger] dm[x][b[j] as int],
    decreases b.len(),
{
    if b.len() > 1 {
        let b0 = b.drop_last();
        lemma_row_min_attained(dm, x, b0);
        assert forall|j: int| 0 <= j < b.len() implies row_min(dm, x, b) <= #[trigger] dm[x][b[j] as int] by {
            if j < b.len() - 1 {
                assert(b[j] == b0[j]);
            }
        }
        if dm[x][b.last() as int] < row_min(dm, x, b0) {
            assert(row_min(dm, x, b) == dm[x][b[b.len() - 1] as int]);
        } else {
            let j = choose|j: int| 0 <= j < b0.len() && row_min(dm, x, b0) == #[trigger] dm[x][b0[j] as int];
            assert(b[j] == b0[j]);
        }
    } else {
        assert(row_min(dm, x, b) == dm[x][b[0] as int]);
    }
}

proof fn lemma_row_max_attained(dm: Seq<Seq<int>>, x: int, b: Seq<usize>)
    requires
        b.len() > 0,
    ensures
        forall|j: int| 0 <= j < b.len() ==> row_max(dm, x, b) >= #[trigger] dm[x][b[j] as int],
        exists|j: int| 0 <= j < b.len() && row_max(dm, x, b) == #[trigger] dm[x][b[j] as int],
    decreases b.len(),
{
    if b.len() > 1 {
        let b0 = b.drop_last();
        lemma_row_max_attained(dm, x, b0);
        assert forall|j: int| 0 <= j < b.len() implies row_max(dm, x, b) >= #[trigger] dm[x][b[j] as int] by {
            if j < b.len() - 1 {
                assert(b[j] == b0[j]);
            }
        }
        if dm[x][b.last() as int] > row_max(dm, x, b0) {
            assert(row_max(dm, x, b) == dm[x][b[b.len() - 1] as int]);
        } else {
            let j = choose|j: int| 0 <= j < b0.len() && row_max(dm, x, b0) == #[trigger] dm[x][b0[j] as int];
            assert(b[j] == b0[j]);
        }
    } else {
        assert(row_max(dm, x, b) == dm[x][b[0] as int]);
    }
}

/// The single linkage is the least distance of a pair, and some pair has it.
proof fn lemma_pairs_min_attained(dm: Seq<Seq<int>>, a: Seq<usize>, b: Seq<usize>)
    requires
        a.len() > 0,
        b.len() > 0,
    ensures
        forall|i: int, j: int|
            0 <= i < a.len() && 0 <= j < b.len() ==> pairs_min(dm, a, b) <= #[trigger] dm[a[i] as int][b[j] as int],
        exists|i: int, j: int|
            0 <= i < a.len() && 0 <= j < b.len() && pairs_min(dm, a, b) == #[trigger] dm[a[i] as int][b[j] as int],
    decreases a.len(),
{
    let x = a.last() as int;
    lemma_row_min_attained(dm, x, b);
    if a.len() > 1 {
        let a0 = a.drop_last();
        lemma_pairs_min_attained(dm, a0, b);
        assert forall|i: int, j: int| 0 <= i < a.len() && 0 <= j < b.len() implies pairs_min(dm, a, b)
            <= #[trigger] dm[a[i] as int][b[j] as int] by {
            if i < a.len() - 1 {
                assert(a[i] == a0[i]);
            } else {
                assert(row_min(dm, x, b) <= dm[x][b[j] as int]);
            }
        }
        if row_min(dm, x, b) < pairs_min(dm, a0, b) {
            let j = choose|j: int| 0 <= j < b.len() && row_min(dm, x, b) == #[trigger] dm[x][b[j] as int];
            assert(pairs_min(dm, a, b) == dm[a[a.len() - 1] as int][b[j] as int]);
        } else {
            let (i, j) = choose|i: int, j: int|
                0 <= i < a0.len() && 0 <= j < b.len() && pairs_min(dm, a0, b) == #[trigger] dm[a0[i] as int][b[j] as int];
            assert(a[i] == a0[i]);
            assert(pairs_min(dm, a, b) == dm[a[i] as int][b[j] as int]);
        }
    } else {
        let j = choose|j: int| 0 <= j < b.len() && row_min(dm, x, b) == #[trigger] dm[x][b[j] as int];
        assert(pairs_min(dm, a, b) == dm[a[0] as int][b[j] as int]);
        assert forall|i: int, j2: int| 0 <= i < a.len() && 0 <= j2 < b.len() implies pairs_min(dm, a, b)
            <= #[trigger] dm[a[i] as int][b[j2] as int] by {
            assert(i == 0);
        }
    }
}

/// The complete linkage is the greatest distance of a pair, and some pair has it.
proof fn lemma_pairs_max_attained(dm: Seq<Seq<int>>, a: Seq<usize>, b: Seq<usize>)
    requires
        a.len() > 0,
        b.len() > 0,
    ensures
        forall|i: int, j: int|
            0 <= i < a.len() && 0 <= j < b.len() ==> pairs_max(dm, a, b) >= #[trigger] dm[a[i] as int][b[j] as int],
        exists|i: int, j: int|
            0 <= i < a.len() && 0 <= j < b.len() && pairs_max(dm, a, b) == #[trigger] dm[a[i] as int][b[j] as int],
    decreases a.len(),
{
    let x = a.last() as int;
    lemma_row_max_attained(dm, x, b);
    if a.len() > 1 {
        let a0 = a.drop_last();
        lemma_pairs_max_attained(dm, a0, b);
        assert forall|i: int, j: int| 0 <= i < a.len() && 0 <= j < b.len() implies pairs_max(dm, a, b)
            >= #[trigger] dm[a[i] as int][b[j] as int] by {
            if i < a.len() - 1 {
                assert(a[i] == a0[i]);
            } else {
                assert(row_max(dm, x, b) >= dm[x][b[j] as int]);
            }
        }
        if row_max(dm, x, b) > pairs_max(dm, a0, b) {
            let j = choose|j: int| 0 <= j < b.len() && row_max(dm, x, b) == #[trigger] dm[x][b[j] as int];
            assert(pairs_max(dm, a, b) == dm[a[a.len() - 1] as int][b[j] as int]);
        } else {
            let (i, j) = choose|i: int, j: int|
                0 <= i < a0.len() && 0 <= j < b.len() && pairs_max(dm, a0, b) == #[trigger] dm[a0[i] as int][b[j] as int];
            assert(a[i] == a0[i]);
            assert(pairs_max(dm, a, b) == dm[a[i] as int][b[j] as int]);
        }
    } else {
        let j = choose|j: int| 0 <= j < b.len() && row_max(dm, x, b) == #[trigger] dm[x][b[j] as int];
        assert(pairs_max(dm, a, b) == dm[a[0] as int][b[j] as int]);
        assert forall|i: int, j2: int| 0 <= i < a.len() && 0 <= j2 < b.len() implies pairs_max(dm, a, b)
            >= #[trigger] dm[a[i] as int][b[j2] as int] by {
            assert(i == 0);
        }
    }
}


proof fn lemma_row_sum_concat(dm: Seq<Seq<int>>, x: int, b: Seq<usize>, b2: Seq<usize>)
    ensures
        row_sum(dm, x, b + b2) == row_sum(dm, x, b) + row_sum(dm, x, b2),
    decreases b2.len(),
{
    if b2.len() == 0 {
        assert(b + b2 =~= b);
    } else {
        lemma_row_sum_concat(dm, x, b, b2.drop_last());
        assert((b + b2).drop_last() =~= b + b2.drop_last());
        assert((b + b2).last() == b2.last());
    }
}

proof fn lemma_pairs_sum_concat_left(dm: Seq<Seq<int>>, a: Seq<usize>, a2: Seq<usize>, b: Seq<usize>)
    ensures
        pairs_sum(dm, a + a2, b) == pairs_sum(dm, a, b) + pairs_sum(dm, a2, b),
    decreases a2.len(),
{
    if a2.len() == 0 {
        assert(a + a2 =~= a);
    } else {
        lemma_pairs_sum_concat_left(dm, a, a2.drop_last(), b);
        assert((a + a2).drop_last() =~= a + a2.drop_last());
        assert((a + a2).last() == a2.last());
    }
}

proof fn lemma_pairs_sum_concat_right(dm: Seq<Seq<int>>, a: Seq<usize>, b: Seq<usize>, b2: Seq<usize>)
    ensures
        pairs_sum(dm, a, b + b2) == pairs_sum(dm, a, b) + pairs_sum(dm, a, b2),
    decreases a.len(),
{
    if a.len() > 0 {
        lemma_pairs_sum_concat_right(dm, a.drop_last(), b, b2);
        lemma_row_sum_concat(dm, a.last() as int, b, b2);
    }
}

/// Summing the distances from the points of `a` to `y` by rows or by columns agrees.
proof fn lemma_pairs_sum_column(dm: Seq<Seq<int>>, a: Seq<usize>, y: usize, n: nat)
    requires
        symmetric_matrix(dm, n),
        indices_below(a, n),
        y < n,
    ensures
        pairs_sum(dm, a, seq![y]) == row_sum(dm, y as int, a),
    decreases a.len(),
{
    if a.len() > 0 {
        let a0 = a.drop_last();
        assert(indices_below(a0, n));
        lemma_pairs_sum_column(dm, a0, y, n);
        let x = a.last() as int;
        assert(seq![y].drop_last() =~= Seq::<usize>::empty());
        assert(row_sum(dm, x, seq![y].drop_last()) == 0);
        assert(row_sum(dm, x, seq![y]) == dm[x][y as int]);
        assert(a[a.len() - 1] < n);
        assert(dm[x][y as int] == dm[y as int][x]);
    }
}

/// The sum over all pairs does not depend on which cluster comes first.
proof fn lemma_pairs_sum_symmetric(dm: Seq<Seq<int>>, a: Seq<usize>, b: Seq<usize>, n: nat)
    requires
        symmetric_matrix(dm, n),
        indices_below(a, n),
        indices_below(b, n),
    ensures
        pairs_sum(dm, a, b) == pairs_sum(dm, b, a),
    decreases b.len(),
{
    if b.len() == 0 {
        assert(pairs_sum(dm, a, b) == 0) by {
            lemma_pairs_sum_empty(dm, a, b);
        }
    } else {
        let b0 = b.drop_last();
        let y = b.last();
        assert(indices_below(b0, n));
        lemma_pairs_sum_symmetric(dm, a, b0, n);
        assert(b0 + seq![y] =~= b);
        lemma_pairs_sum_concat_right(dm, a, b0, seq![y]);
        lemma_pairs_sum_column(dm, a, y, n);
    }
}

proof fn lemma_pairs_sum_empty(dm: Seq<Seq<int>>, a: Seq<usize>, b: Seq<usize>)
    requires
        b.len() == 0,
    ensures
        pairs_sum(dm, a, b) == 0,
    decreases a.len(),
{
    if a.len() > 0 {
        lemma_pairs_sum_empty(dm, a.drop_last(), b);
    }
}


/// After the best pair merges, no pair of active clusters is nearer than that pair was.
proof fn lemma_merge_no_nearer(
    dm: Seq<Seq<int>>,
    link: Linkage,
    s: ClusterState,
    n: nat,
    step: nat,
    bi: int,
    bj: int,
    x: int,
    y: int,
)
    requires
        symmetric_matrix(dm, n),
        state_ok(s, n, step),
        is_best_pair(dm, link, s, bi, bj),
        active_pair(merge_step(s, bi, bj), x, y),
    ensures
        !frac_lt(cluster_dist(dm, link, merge_step(s, bi, bj), x, y), cluster_dist(dm, link, s, bi, bj)),
{
    let s2 = merge_step(s, bi, bj);
    let delta = cluster_dist(dm, link, s, bi, bj);
    let mi = s.members[bi];
    let mj = s.members[bj];
    assert(s.active[x] && s.active[y]);
    assert(x != bj && y != bj);
    assert(indices_below(mi, n));
    assert(indices_below(mj, n));
    assert(indices_below(s.members[x], n));
    assert(indices_below(s.members[y], n));
    assert(mi.len() > 0 && mj.len() > 0);
    assert(s.members[x].len() > 0 && s.members[y].len() > 0);
    if x != bi && y != bi {
        assert(s2.members[x] == s.members[x]);
        assert(s2.members[y] == s.members[y]);
        assert(active_pair(s, x, y));
    } else if x == bi {
        let my = s.members[y];
        assert(s2.members[x] == mi + mj);
        assert(s2.members[y] == my);
        assert(active_pair(s, bi, y));
        let mij = mi + mj;
        if bj < y {
            assert(active_pair(s, bj, y));
        } else {
            assert(active_pair(s, y, bj));
        }
        match link {
            Linkage::Single => {
                lemma_pairs_min_attained(dm, mij, my);
                lemma_pairs_min_attained(dm, mi, my);
                lemma_pairs_min_attained(dm, mj, my);
                lemma_pairs_min_attained(dm, my, mj);
                let (i0, j0) = choose|i: int, j: int|
                    0 <= i < mij.len() && 0 <= j < my.len() && pairs_min(dm, mij, my) == #[trigger] dm[mij[i] as int][my[j] as int];
                if i0 < mi.len() {
                    assert(mij[i0] == mi[i0]);
                    assert(pairs_min(dm, mi, my) <= dm[mi[i0] as int][my[j0] as int]);
                } else {
                    let k = i0 - mi.len();
                    assert(mij[i0] == mj[k]);
                    if bj < y {
                        assert(pairs_min(dm, mj, my) <= dm[mj[k] as int][my[j0] as int]);
                    } else {
                        assert(mj[k] < n && my[j0] < n);
                        assert(dm[my[j0] as int][mj[k] as int] == dm[mj[k] as int][my[j0] as int]);
                        assert(pairs_min(dm, my, mj) <= dm[my[j0] as int][mj[k] as int]);
                    }
                }
            },
            Linkage::Complete => {
                lemma_pairs_max_attained(dm, mij, my);
                lemma_pairs_max_attained(dm, mi, my);
                let (i1, j1) = choose|i: int, j: int|
                    0 <= i < mi.len() && 0 <= j < my.len() && pairs_max(dm, mi, my) == #[trigger] dm[mi[i] as int][my[j] as int];
                assert(mij[i1] == mi[i1]);
                assert(pairs_max(dm, mij, my) >= dm[mij[i1] as int][my[j1] as int]);
            },
            Linkage::Average => {
                lemma_pairs_sum_concat_left(dm, mi, mj, my);
                let s1 = pairs_sum(dm, mi, my);
                let c1 = mi.len() * my.len();
                let s2v = pairs_sum(dm, mj, my);
                let c2 = mj.len() * my.len();
                if y < bj {
                    lemma_pairs_sum_symmetric(dm, my, mj, n);
                    assert(my.len() * mj.len() == c2) by (nonlinear_arith)
                        requires
                            c2 == mj.len() * my.len(),
                    ;
                }
                assert(s1 * delta.1 >= delta.0 * c1);
                assert(s2v * delta.1 >= delta.0 * c2);
                assert(mij.len() * my.len() == c1 + c2) by (nonlinear_arith)
                    requires
                        mij.len() == mi.len() + mj.len(),
                        c1 == mi.len() * my.len(),
                        c2 == mj.len() * my.len(),
                ;
                assert((s1 + s2v) * delta.1 >= delta.0 * (c1 + c2)) by (nonlinear_arith)
                    requires
                        s1 * delta.1 >= delta.0 * c1,
                        s2v * delta.1 >= delta.0 * c2,
                ;
            },
        }
    } else {
        assert(y == bi);
        let mx = s.members[x];
        assert(s2.members[y] == mi + mj);
        assert(s2.members[x] == mx);
        assert(active_pair(s, x, bi));
        assert(active_pair(s, x, bj));
        let mij = mi + mj;
        match link {
            Linkage::Single => {
                lemma_pairs_min_attained(dm, mx, mij);
                lemma_pairs_min_attained(dm, mx, mi);
                lemma_pairs_min_attained(dm, mx, mj);
                let (i0, j0) = choose|i: int, j: int|
                    0 <= i < mx.len() && 0 <= j < mij.len() && pairs_min(dm, mx, mij) == #[trigger] dm[mx[i] as int][mij[j] as int];
                if j0 < mi.len() {
                    assert(mij[j0] == mi[j0]);
                    assert(pairs_min(dm, mx, mi) <= dm[mx[i0] as int][mi[j0] as int]);
                } else {
                    let k = j0 - mi.len();
                    assert(mij[j0] == mj[k]);
                    assert(pairs_min(dm, mx, mj) <= dm[mx[i0] as int][mj[k] as int]);
                }
            },
            Linkage::Complete => {
                lemma_pairs_max_attained(dm, mx, mij);
                lemma_pairs_max_attained(dm, mx, mi);
                let (i1, j1) = choose|i: int, j: int|
                    0 <= i < mx.len() && 0 <= j < mi.len() && pairs_max(dm, mx, mi) == #[trigger] dm[mx[i] as int][mi[j] as int];
                assert(mij[j1] == mi[j1]);
                assert(pairs_max(dm, mx, mij) >= dm[mx[i1] as int][mij[j1] as int]);
            },
            Linkage::Average => {
                lemma_pairs_sum_concat_right(dm, mx, mi, mj);
                let s1 = pairs_sum(dm, mx, mi);
                let c1 = mx.len() * mi.len();
                let s2v = pairs_sum(dm, mx, mj);
                let c2 = mx.len() * mj.len();
                assert(s1 * delta.1 >= delta.0 * c1);
                assert(s2v * delta.1 >= delta.0 * c2);
                assert(mx.len() * mij.len() == c1 + c2) by (nonlinear_arith)
                    requires
                        mij.len() == mi.len() + mj.len(),
                        c1 == mx.len() * mi.len(),
                        c2 == mx.len() * mj.len(),
                ;
                assert((s1 + s2v) * delta.1 >= delta.0 * (c1 + c2)) by (nonlinear_arith)
                    requires
                        s1 * delta.1 >= delta.0 * c1,
                        s2v * delta.1 >= delta.0 * c2,
                ;
            },
        }
    }
}


/// The linkage distance recorded in a merge step.
pub open spec fn step_dist(m: (int, int, int, int)) -> (int, int) {
    (m.2, m.3)
}

/// While two clusters are active the next merge is of the best pair.
proof fn lemma_best_of_state(dm: Seq<Seq<int>>, link: Linkage, s: ClusterState, n: nat, step: nat)
    requires
        state_ok(s, n, step),
        step + 2 <= n,
    ensures
        is_best_pair(dm, link, s, best_pair(dm, link, s).0, best_pair(dm, link, s).1),
{
    lemma_count_two(s.active, n);
    lemma_best_exists(dm, link, s, n);
}

proof fn lemma_merges_monotone(dm: Seq<Seq<int>>, link: Linkage, s: ClusterState, n: nat, step: nat, steps: nat)
    requires
        symmetric_matrix(dm, n),
        state_ok(s, n, step),
        step + steps + 1 <= n,
    ensures
        forall|k: int|
            1 <= k < steps ==> !frac_lt(
                step_dist(#[trigger] merges_from(dm, link, s, steps)[k]),
                step_dist(merges_from(dm, link, s, steps)[k - 1]),
            ),
    decreases steps,
{
    if steps >= 2 {
        lemma_best_of_state(dm, link, s, n, step);
        let p = best_pair(dm, link, s);
        let s2 = merge_step(s, p.0, p.1);
        lemma_merge_ok(s, n, step, p.0, p.1);
        lemma_merges_monotone(dm, link, s2, n, step + 1, (steps - 1) as nat);
        lemma_best_of_state(dm, link, s2, n, step + 1);
        let p2 = best_pair(dm, link, s2);
        lemma_merge_no_nearer(dm, link, s, n, step, p.0, p.1, p2.0, p2.1);
        let all = merges_from(dm, link, s, steps);
        let rest = merges_from(dm, link, s2, (steps - 1) as nat);
        lemma_merges_from_shape(dm, link, s2, (steps - 1) as nat);
        assert forall|k: int| 1 <= k < steps implies !frac_lt(
            step_dist(#[trigger] all[k]),
            step_dist(all[k - 1]),
        ) by {
            assert(all[k] == rest[k - 1]);
            if k > 1 {
                assert(all[k - 1] == rest[k - 2]);
            } else {
                let d2 = cluster_dist(dm, link, s2, p2.0, p2.1);
                let d1 = cluster_dist(dm, link, s, p.0, p.1);
                assert(rest[0] == (s2.label[p2.0], s2.label[p2.1], d2.0, d2.1));
                assert(all[0] == (s.label[p.0], s.label[p.1], d1.0, d1.1));
            }
        }
    }
}

/// The matrix of Hamming distances is symmetric and non-negative.
proof fn lemma_distance_matrix_symmetric(d: Seq<Seq<Ternary>>)
    ensures
        symmetric_matrix(distance_matrix(d), d.len()),
{
    let dm = distance_matrix(d);
    assert forall|i: int, j: int| 0 <= i < d.len() && 0 <= j < d.len() implies #[trigger] dm[i][j] == dm[j][i]
        && dm[i][j] >= 0 by {
        lemma_distances_symmetric(d[i], d[j]);
    }
}

/// No inversions: with each of the three linkages the merge distances never decrease
/// along the dendrogram.
pub proof fn lemma_dendrogram_monotone(d: Seq<Seq<Ternary>>, link: Linkage)
    requires
        1 <= d.len(),
    ensures
        forall|k: int|
            1 <= k < d.len() - 1 ==> !frac_lt(
                step_dist(#[trigger] dendrogram(d, link)[k]),
                step_dist(dendrogram(d, link)[k - 1]),
            ),
{
    if d.len() > 1 {
        lemma_distance_matrix_symmetric(d);
        lemma_initial_ok(d.len());
        lemma_merges_monotone(distance_matrix(d), link, initial_state(d.len()), d.len(), 0, (d.len() - 1) as nat);
    }
}

} // verus!
