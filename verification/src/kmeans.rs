//! K-means adapted to ternary data.
//!
//! The run starts from `k` (capped at the number of points) evenly spaced data points
//! as centroids and every point assigned to cluster 0. Each round assigns every point
//! to its nearest centroid (by squared distance, first one on a tie); when no
//! assignment changed the run stops, otherwise every cluster that has members gets
//! their ternary-rounded mean as its new centroid. At most `max_iters` rounds run.

use vstd::prelude::*;
use crate::ternary::{Ternary, rows};
use crate::distance::sq_dist_fits;
use crate::centroid::{
    nearest_index, is_first_nearest, centroid, no_longer_than_first, nearest_centroid,
    compute_centroid, lemma_nearest_index,
};

verus! {

/// The number of clusters used: `k`, but no more than there are points.
pub open spec fn effective_k(n: nat, k: nat) -> nat {
    if k <= n {
        k
    } else {
        n
    }
}

/// The starting centroids: the points at indices `c * n / k` for `c < k`.
pub open spec fn initial_centroids(data: Seq<Seq<Ternary>>, k: nat) -> Seq<Seq<Ternary>> {
    Seq::new(k, |c: int| data[c * data.len() / (k as int)])
}

/// Every point assigned to cluster 0.
pub open spec fn initial_assignments(n: nat) -> Seq<usize> {
    Seq::new(n, |i: int| 0usize)
}

/// Each point's nearest centroid.
pub open spec fn assign_all(data: Seq<Seq<Ternary>>, cents: Seq<Seq<Ternary>>) -> Seq<usize> {
    Seq::new(data.len(), |i: int| nearest_index(data[i], cents) as usize)
}

/// The points among the first `m` that are assigned to cluster `c`, in index order.
pub open spec fn members_upto(data: Seq<Seq<Ternary>>, assign: Seq<usize>, c: int, m: nat) -> Seq<Seq<Ternary>>
    decreases m,
{
    if m == 0 {
        Seq::empty()
    } else {
        let prev = members_upto(data, assign, c, (m - 1) as nat);
        if assign[m - 1] == c {
            prev.push(data[m - 1])
        } else {
            prev
        }
    }
}

/// The points assigned to cluster `c`, in index order.
pub open spec fn members(data: Seq<Seq<Ternary>>, assign: Seq<usize>, c: int) -> Seq<Seq<Ternary>> {
    members_upto(data, assign, c, data.len())
}

/// New centroids: the centroid of its members for every cluster that has some; the old
/// centroid for an empty cluster.
pub open spec fn update_centroids(
    data: Seq<Seq<Ternary>>,
    assign: Seq<usize>,
    cents: Seq<Seq<Ternary>>,
) -> Seq<Seq<Ternary>> {
    Seq::new(
        cents.len(),
        |c: int|
            if members(data, assign, c).len() > 0 {
                centroid(members(data, assign, c))
            } else {
                cents[c]
            },
    )
}

/// The state (assignments, centroids) after at most `iters` more rounds.
pub open spec fn kmeans_iterate(
    data: Seq<Seq<Ternary>>,
    assign: Seq<usize>,
    cents: Seq<Seq<Ternary>>,
    iters: nat,
) -> (Seq<usize>, Seq<Seq<Ternary>>)
    decreases iters,
{
    if iters == 0 {
        (assign, cents)
    } else {
        let next = assign_all(data, cents);
        if next == assign {
            (assign, cents)
        } else {
            kmeans_iterate(data, next, update_centroids(data, next, cents), (iters - 1) as nat)
        }
    }
}

/// What K-means returns: empty results for no data or `k == 0`, else the state after
/// the run.
pub open spec fn kmeans_result(data: Seq<Seq<Ternary>>, k: nat, max_iters: nat) -> (
    Seq<usize>,
    Seq<Seq<Ternary>>,
) {
    if data.len() == 0 || k == 0 {
        (Seq::empty(), Seq::empty())
    } else {
        kmeans_iterate(
            data,
            initial_assignments(data.len()),
            initial_centroids(data, effective_k(data.len(), k)),
            max_iters,
        )
    }
}

/// Every cluster's members can be averaged: no member is longer than the cluster's
/// first member.
pub open spec fn members_averageable(data: Seq<Seq<Ternary>>, assign: Seq<usize>, k: nat) -> bool {
    forall|c: int| 0 <= c < k ==> no_longer_than_first(#[trigger] members(data, assign, c))
}

/// Every centroid update of the remaining `iters` rounds can average its members.
pub open spec fn iterate_averageable(
    data: Seq<Seq<Ternary>>,
    assign: Seq<usize>,
    cents: Seq<Seq<Ternary>>,
    iters: nat,
) -> bool
    decreases iters,
{
    if iters == 0 {
        true
    } else {
        let next = assign_all(data, cents);
        if next == assign {
            true
        } else {
            members_averageable(data, next, cents.len()) && iterate_averageable(
                data,
                next,
                update_centroids(data, next, cents),
                (iters - 1) as nat,
            )
        }
    }
}

/// The run can average the members of every cluster it updates.
pub open spec fn kmeans_averageable(data: Seq<Seq<Ternary>>, k: nat, max_iters: nat) -> bool {
    data.len() == 0 || k == 0 || iterate_averageable(
        data,
        initial_assignments(data.len()),
        initial_centroids(data, effective_k(data.len(), k)),
        max_iters,
    )
}

/// No point is so long that a squared distance from it could leave `i64`.
pub open spec fn rows_fit(data: Seq<Seq<Ternary>>) -> bool {
    forall|i: int| 0 <= i < data.len() ==> #[trigger] data[i].len() * 4 <= i64::MAX
}

/// All points have the same length.
pub open spec fn same_length(data: Seq<Seq<Ternary>>) -> bool {
    forall|i: int| 0 <= i < data.len() ==> #[trigger] data[i].len() == data[0].len()
}

/// Copy a ternary vector.
fn copy_row(v: &Vec<Ternary>) -> (r: Vec<Ternary>)
    ensures
        r@ == v@,
{
    let mut r: Vec<Ternary> = Vec::new();
    let mut i: usize = 0;
    while i < v.len()
        invariant
            i <= v@.len(),
            r@ == v@.take(i as int),
        decreases v@.len() - i,
    {
        r.push(v[i]);
        i = i + 1;
        assert(r@ =~= v@.take(i as int));
    }
    assert(v@.take(v@.len() as int) =~= v@);
    r
}

/// When all points have the same length, so do the members of every cluster.
pub proof fn lemma_members_same_length(data: Seq<Seq<Ternary>>, assign: Seq<usize>, c: int, m: nat)
    requires
        m <= data.len(),
        same_length(data),
    ensures
        forall|j: int|
            0 <= j < members_upto(data, assign, c, m).len() ==> #[trigger] members_upto(data, assign, c, m)[j].len()
                == data[0].len(),
    decreases m,
{
    if m > 0 {
        lemma_members_same_length(data, assign, c, (m - 1) as nat);
        let prev = members_upto(data, assign, c, (m - 1) as nat);
        let cur = members_upto(data, assign, c, m);
        assert forall|j: int| 0 <= j < cur.len() implies #[trigger] cur[j].len() == data[0].len() by {
            if j < prev.len() {
                assert(cur[j] == prev[j]);
            } else {
                assert(cur[j] == data[m - 1]);
            }
        }
    }
}

/// When all points have the same length, every cluster's members can be averaged.
pub proof fn lemma_same_length_averageable(data: Seq<Seq<Ternary>>, assign: Seq<usize>, k: nat)
    requires
        same_length(data),
    ensures
        members_averageable(data, assign, k),
{
    assert forall|c: int| 0 <= c < k implies no_longer_than_first(#[trigger] members(data, assign, c)) by {
        lemma_members_same_length(data, assign, c, data.len());
    }
}

/// When all points have the same length, every K-means run can average its clusters.
pub proof fn lemma_same_length_kmeans_averageable(data: Seq<Seq<Ternary>>, k: nat, max_iters: nat)
    requires
        same_length(data),
    ensures
        kmeans_averageable(data, k, max_iters),
{
    if data.len() > 0 && k > 0 {
        lemma_same_length_iterate(
            data,
            initial_assignments(data.len()),
            initial_centroids(data, effective_k(data.len(), k)),
            max_iters,
        );
    }
}

proof fn lemma_same_length_iterate(
    data: Seq<Seq<Ternary>>,
    assign: Seq<usize>,
    cents: Seq<Seq<Ternary>>,
    iters: nat,
)
    requires
        same_length(data),
    ensures
        iterate_averageable(data, assign, cents, iters),
    decreases iters,
{
    if iters > 0 {
        let next = assign_all(data, cents);
        if next != assign {
            lemma_same_length_averageable(data, next, cents.len());
            lemma_same_length_iterate(data, next, update_centroids(data, next, cents), (iters - 1) as nat);
        }
    }
}


/// `c * n / k` is an index of a point when `c < k <= n`.
proof fn lemma_spread_index(c: int, n: int, k: int)
    requires
        0 <= c < k,
        0 < k <= n,
    ensures
        0 <= c * n / k < n,
{
    assert(c * n < k * n) by (nonlinear_arith)
        requires
            0 <= c < k,
            0 < n,
    ;
    assert(0 <= c * n) by (nonlinear_arith)
        requires
            0 <= c,
            0 < n,
    ;
    assert(c * n / k < n) by (nonlinear_arith)
        requires
            0 <= c * n < k * n,
            0 < k,
    ;
    assert(0 <= c * n / k) by (nonlinear_arith)
        requires
            0 <= c * n,
            0 < k,
    ;
}

/// Compute each point's nearest centroid into `assignments`; says whether any changed.
fn assign_points(data: &[Vec<Ternary>], centroids: &Vec<Vec<Ternary>>, assignments: &mut Vec<usize>) -> (changed: bool)
    requires
        rows_fit(rows(data@)),
        old(assignments)@.len() == data@.len(),
    ensures
        final(assignments)@ == assign_all(rows(data@), rows(centroids@)),
        changed == (final(assignments)@ != old(assignments)@),
{
    let ghost d = rows(data@);
    let ghost cs = rows(centroids@);
    let ghost before = assignments@;
    let ghost target = assign_all(d, cs);
    let n = data.len();
    let mut changed = false;
    let mut i: usize = 0;
    while i < n
        invariant
            d == rows(data@),
            cs == rows(centroids@),
            target == assign_all(d, cs),
            n == data@.len(),
            rows_fit(d),
            i <= n,
            assignments@.len() == n,
            before.len() == n,
            forall|j: int| 0 <= j < i ==> #[trigger] assignments@[j] == target[j],
            forall|j: int| i <= j < n ==> #[trigger] assignments@[j] == before[j],
            changed == (exists|j: int| 0 <= j < i && #[trigger] before[j] != target[j]),
        decreases n - i,
    {
        proof {
            assert(d[i as int].len() * 4 <= i64::MAX);
            assert forall|j: int| 0 <= j < cs.len() implies sq_dist_fits(d[i as int], #[trigger] cs[j]) by {}
        }
        let a = nearest_centroid(data[i].as_slice(), centroids.as_slice());
        assert(a == target[i as int]);
        if assignments[i] != a {
            assignments[i] = a;
            changed = true;
        }
        i = i + 1;
    }
    proof {
        assert(assignments@ =~= target);
        if changed {
            let j = choose|j: int| 0 <= j < n && #[trigger] before[j] != target[j];
            assert(before[j] != assignments@[j]);
        } else {
            assert(before =~= target);
        }
    }
    changed
}

/// Collect the points assigned to cluster `c`.
fn collect_members(data: &[Vec<Ternary>], assignments: &Vec<usize>, c: usize) -> (ms: Vec<Vec<Ternary>>)
    requires
        assignments@.len() == data@.len(),
    ensures
        rows(ms@) == members(rows(data@), assignments@, c as int),
{
    let ghost d = rows(data@);
    let n = data.len();
    let mut ms: Vec<Vec<Ternary>> = Vec::new();
    let mut i: usize = 0;
    while i < n
        invariant
            d == rows(data@),
            n == data@.len(),
            assignments@.len() == n,
            i <= n,
            rows(ms@) == members_upto(d, assignments@, c as int, i as nat),
        decreases n - i,
    {
        if assignments[i] == c {
            let row = copy_row(&data[i]);
            let ghost prev = ms@;
            ms.push(row);
            assert(rows(ms@) =~= rows(prev).push(d[i as int]));
        }
        i = i + 1;
    }
    ms
}

/// K-means clustering adapted for ternary data.
///
/// Returns cluster assignments (one per data point) and the computed centroids.
pub fn kmeans(data: &[Vec<Ternary>], k: usize, max_iters: usize) -> (r: (Vec<usize>, Vec<Vec<Ternary>>))
    requires
        rows_fit(rows(data@)),
        kmeans_averageable(rows(data@), k as nat, max_iters as nat),
    ensures
        (r.0@, rows(r.1@)) == kmeans_result(rows(data@), k as nat, max_iters as nat),
{
    let ghost d = rows(data@);
    if data.len() == 0 || k == 0 {
        let a: Vec<usize> = Vec::new();
        let c: Vec<Vec<Ternary>> = Vec::new();
        assert(rows(c@) =~= Seq::<Seq<Ternary>>::empty());
        return (a, c);
    }
    let n = data.len();
    let kk: usize = if k < n { k } else { n };
    let ghost init = initial_centroids(d, kk as nat);
    let mut centroids: Vec<Vec<Ternary>> = Vec::new();
    let mut c: usize = 0;
    while c < kk
        invariant
            d == rows(data@),
            n == data@.len(),
            0 < kk <= n,
            init == initial_centroids(d, kk as nat),
            c <= kk,
            rows(centroids@) == init.take(c as int),
        decreases kk - c,
    {
        proof {
            lemma_spread_index(c as int, n as int, kk as int);
            assert((c as u128) * (n as u128) <= 0xffff_ffff_ffff_ffffu128 * 0xffff_ffff_ffff_ffffu128) by (nonlinear_arith)
                requires
                    c <= 0xffff_ffff_ffff_ffffu128,
                    n <= 0xffff_ffff_ffff_ffffu128,
            ;
        }
        let prod: u128 = (c as u128) * (n as u128);
        let at: u128 = prod / (kk as u128);
        let idx: usize = at as usize;
        assert(idx == c * n / (kk as int));
        let row = copy_row(&data[idx]);
        let ghost prev = centroids@;
        centroids.push(row);
        proof {
            assert(rows(centroids@) =~= rows(prev).push(d[idx as int]));
            assert(init[c as int] == d[idx as int]);
        }
        c = c + 1;
        assert(rows(centroids@) =~= init.take(c as int));
    }
    assert(init.take(kk as int) =~= init);
    let mut assignments: Vec<usize> = Vec::new();
    let mut t: usize = 0;
    while t < n
        invariant
            t <= n,
            assignments@ == initial_assignments(t as nat),
        decreases n - t,
    {
        assignments.push(0);
        t = t + 1;
        assert(assignments@ =~= initial_assignments(t as nat));
    }
    let ghost target = kmeans_result(d, k as nat, max_iters as nat);
    let mut it: usize = 0;
    let mut settled = false;
    while it < max_iters && !settled
        invariant
            d == rows(data@),
            n == data@.len(),
            rows_fit(d),
            0 < kk <= n,
            it <= max_iters,
            assignments@.len() == n,
            centroids@.len() == kk,
            target == kmeans_iterate(d, assignments@, rows(centroids@), (max_iters - it) as nat),
            iterate_averageable(d, assignments@, rows(centroids@), (max_iters - it) as nat),
            settled ==> target == (assignments@, rows(centroids@)),
        decreases max_iters - it + if settled { 0int } else { 1int },
    {
        let ghost a0 = assignments@;
        let ghost c0 = rows(centroids@);
        let changed = assign_points(data, &centroids, &mut assignments);
        if !changed {
            settled = true;
        } else {
            let ghost next = assignments@;
            let ghost upd = update_centroids(d, next, c0);
            let mut cl: usize = 0;
            while cl < kk
                invariant
                    d == rows(data@),
                    n == data@.len(),
                    assignments@ == next,
                    next.len() == n,
                    c0.len() == kk,
                    upd == update_centroids(d, next, c0),
                    members_averageable(d, next, kk as nat),
                    cl <= kk,
                    centroids@.len() == kk,
                    forall|j: int| 0 <= j < cl ==> #[trigger] rows(centroids@)[j] == upd[j],
                    forall|j: int| cl <= j < kk ==> #[trigger] rows(centroids@)[j] == c0[j],
                decreases kk - cl,
            {
                let ms = collect_members(data, &assignments, cl);
                let ghost prev = centroids@;
                if ms.len() > 0 {
                    proof {
                        assert(no_longer_than_first(members(d, next, cl as int)));
                    }
                    let cent = compute_centroid(ms.as_slice());
                    let ghost cv = cent@;
                    centroids[cl] = cent;
                    proof {
                        assert(rows(centroids@) =~= rows(prev).update(cl as int, cv));
                        assert(upd[cl as int] == cv);
                    }
                } else {
                    assert(upd[cl as int] == c0[cl as int]);
                }
                cl = cl + 1;
            }
            assert(rows(centroids@) =~= upd);
            it = it + 1;
        }
    }
    (assignments, centroids)
}


/// The rounds keep the shape of the state: as many assignments as points, `k` centroids,
/// and every assignment below `k`.
proof fn lemma_iterate_shape(data: Seq<Seq<Ternary>>, assign: Seq<usize>, cents: Seq<Seq<Ternary>>, iters: nat)
    requires
        cents.len() > 0,
        assign.len() == data.len(),
        forall|i: int| 0 <= i < assign.len() ==> #[trigger] assign[i] < cents.len(),
    ensures
        kmeans_iterate(data, assign, cents, iters).0.len() == data.len(),
        kmeans_iterate(data, assign, cents, iters).1.len() == cents.len(),
        forall|i: int|
            0 <= i < data.len() ==> #[trigger] kmeans_iterate(data, assign, cents, iters).0[i] < cents.len(),
    decreases iters,
{
    if iters > 0 {
        let next = assign_all(data, cents);
        if next != assign {
            assert forall|i: int| 0 <= i < next.len() implies #[trigger] next[i] < cents.len() by {
                lemma_nearest_index(data[i], cents);
            }
            lemma_iterate_shape(data, next, update_centroids(data, next, cents), (iters - 1) as nat);
        }
    }
}

/// On non-empty data and `k > 0`, K-means returns one assignment per point, `min(k, n)`
/// centroids, and assignments that index those centroids.
pub proof fn lemma_kmeans_shape(data: Seq<Seq<Ternary>>, k: nat, max_iters: nat)
    requires
        data.len() > 0,
        k > 0,
    ensures
        kmeans_result(data, k, max_iters).0.len() == data.len(),
        kmeans_result(data, k, max_iters).1.len() == effective_k(data.len(), k),
        forall|i: int|
            0 <= i < data.len() ==> #[trigger] kmeans_result(data, k, max_iters).0[i] < effective_k(
                data.len(),
                k,
            ),
{
    let kk = effective_k(data.len(), k);
    lemma_iterate_shape(data, initial_assignments(data.len()), initial_centroids(data, kk), max_iters);
}

/// A state is stable when every point is assigned to its nearest centroid.
pub open spec fn is_stable(data: Seq<Seq<Ternary>>, state: (Seq<usize>, Seq<Seq<Ternary>>)) -> bool {
    assign_all(data, state.1) == state.0
}

proof fn lemma_iterate_stable(
    data: Seq<Seq<Ternary>>,
    assign: Seq<usize>,
    cents: Seq<Seq<Ternary>>,
    m: nat,
    m2: nat,
)
    requires
        m <= m2,
        is_stable(data, kmeans_iterate(data, assign, cents, m)),
    ensures
        kmeans_iterate(data, assign, cents, m2) == kmeans_iterate(data, assign, cents, m),
    decreases m,
{
    if m == 0 {
        if m2 > 0 {
            assert(assign_all(data, cents) == assign);
        }
    } else {
        let next = assign_all(data, cents);
        if next != assign {
            lemma_iterate_stable(data, next, update_centroids(data, next, cents), (m - 1) as nat, (m2 - 1) as nat);
        }
    }
}

/// Once a run reaches a stable state, more rounds change nothing: the result with any
/// larger round budget is the same.
pub proof fn lemma_kmeans_stable_is_final(data: Seq<Seq<Ternary>>, k: nat, m: nat, m2: nat)
    requires
        data.len() > 0,
        k > 0,
        m <= m2,
        is_stable(data, kmeans_result(data, k, m)),
    ensures
        kmeans_result(data, k, m2) == kmeans_result(data, k, m),
{
    let kk = effective_k(data.len(), k);
    lemma_iterate_stable(data, initial_assignments(data.len()), initial_centroids(data, kk), m, m2);
}

/// In a stable result every point is assigned to a centroid at the least squared
/// distance from it, and to the first such centroid.
pub proof fn lemma_kmeans_stable_nearest(data: Seq<Seq<Ternary>>, k: nat, m: nat)
    requires
        0 < data.len() <= usize::MAX,
        k > 0,
        is_stable(data, kmeans_result(data, k, m)),
    ensures
        forall|i: int|
            0 <= i < data.len() ==> is_first_nearest(
                data[i],
                kmeans_result(data, k, m).1,
                #[trigger] kmeans_result(data, k, m).0[i] as int,
            ),
{
    let r = kmeans_result(data, k, m);
    lemma_kmeans_shape(data, k, m);
    assert forall|i: int| 0 <= i < data.len() implies is_first_nearest(data[i], r.1, #[trigger] r.0[i] as int) by {
        lemma_nearest_index(data[i], r.1);
        assert(r.0[i] == assign_all(data, r.1)[i]);
        assert(nearest_index(data[i], r.1) < r.1.len());
    }
}

proof fn lemma_iterate_fixpoint(data: Seq<Seq<Ternary>>, assign: Seq<usize>, cents: Seq<Seq<Ternary>>, m: nat)
    requires
        kmeans_iterate(data, assign, cents, m) == kmeans_iterate(data, assign, cents, m + 1),
    ensures
        is_stable(data, kmeans_iterate(data, assign, cents, m)),
    decreases m,
{
    let next = assign_all(data, cents);
    if next != assign {
        let upd = update_centroids(data, next, cents);
        assert(kmeans_iterate(data, assign, cents, m + 1) == kmeans_iterate(data, next, upd, m));
        if m == 0 {
            assert(kmeans_iterate(data, next, upd, 0) == (next, upd));
        } else {
            lemma_iterate_fixpoint(data, next, upd, (m - 1) as nat);
        }
    }
}

/// A run that one more round would not change has stopped changing: when the results
/// for `m` and `m + 1` rounds are equal, every point of the result is assigned to its
/// nearest centroid.
pub proof fn lemma_kmeans_unchanged_is_stable(data: Seq<Seq<Ternary>>, k: nat, m: nat)
    requires
        data.len() == 0 || k > 0,
        kmeans_result(data, k, m) == kmeans_result(data, k, m + 1),
    ensures
        is_stable(data, kmeans_result(data, k, m)),
{
    if data.len() == 0 {
        assert(assign_all(data, kmeans_result(data, k, m).1) =~= Seq::<usize>::empty());
    } else {
        let kk = effective_k(data.len(), k);
        lemma_iterate_fixpoint(data, initial_assignments(data.len()), initial_centroids(data, kk), m);
    }
}

/// K-means starts from evenly spaced data points: with no rounds, every point is in
/// cluster 0, there are `min(k, n)` centroids, and centroid `c` is the point at the
/// index `j` with `j * min(k, n) <= c * n < (j + 1) * min(k, n)`.
pub proof fn lemma_kmeans_start(data: Seq<Seq<Ternary>>, k: nat, c: int)
    requires
        data.len() > 0,
        k > 0,
    ensures
        kmeans_result(data, k, 0).0.len() == data.len(),
        forall|i: int| 0 <= i < data.len() ==> #[trigger] kmeans_result(data, k, 0).0[i] == 0,
        kmeans_result(data, k, 0).1.len() == (if k <= data.len() { k } else { data.len() }),
        0 <= c < kmeans_result(data, k, 0).1.len() ==> exists|j: int|
            0 <= j < data.len() && j * kmeans_result(data, k, 0).1.len() <= c * data.len() < (j + 1)
                * kmeans_result(data, k, 0).1.len() && kmeans_result(data, k, 0).1[c] == #[trigger] data[j],
{
    let n = data.len() as int;
    let kk = effective_k(data.len(), k) as int;
    let cs = kmeans_result(data, k, 0).1;
    assert(cs.len() == kk);
    if 0 <= c < kk {
        let j = c * n / kk;
        lemma_spread_index(c, n, kk);
        vstd::arithmetic::div_mod::lemma_fundamental_div_mod(c * n, kk);
        vstd::arithmetic::div_mod::lemma_mod_pos_bound(c * n, kk);
        assert(c * n >= 0) by (nonlinear_arith)
            requires
                c >= 0,
                n >= 0,
        ;
        assert(j * kk <= c * n < (j + 1) * kk) by (nonlinear_arith)
            requires
                c * n == kk * j + (c * n) % kk,
                0 <= (c * n) % kk < kk,
        ;
        assert(cs[c] == data[j]);
    }
}

/// The state one more round reaches from `(assign, cents)`.
proof fn lemma_iterate_step(data: Seq<Seq<Ternary>>, assign: Seq<usize>, cents: Seq<Seq<Ternary>>, m: nat)
    ensures
        ({
            let s = kmeans_iterate(data, assign, cents, m);
            let nx = assign_all(data, s.1);
            kmeans_iterate(data, assign, cents, m + 1) == if nx == s.0 {
                s
            } else {
                (nx, update_centroids(data, nx, s.1))
            }
        }),
    decreases m,
{
    let next = assign_all(data, cents);
    let upd = update_centroids(data, next, cents);
    if next != assign {
        assert(kmeans_iterate(data, assign, cents, m + 1) == kmeans_iterate(data, next, upd, m));
        if m > 0 {
            assert(kmeans_iterate(data, assign, cents, m) == kmeans_iterate(data, next, upd, (m - 1) as nat));
            lemma_iterate_step(data, next, upd, (m - 1) as nat);
        } else {
            assert(kmeans_iterate(data, next, upd, 0) == (next, upd));
        }
    }
}

/// One more round of K-means: if every point of the result for `m` rounds is already
/// assigned to its nearest centroid, the result for `m + 1` rounds is the same;
/// otherwise its assignments are each point's nearest centroid of the `m`-round result,
/// every cluster with members gets the centroid of its members, and a cluster without
/// members keeps its centroid.
pub proof fn lemma_kmeans_round(data: Seq<Seq<Ternary>>, k: nat, m: nat)
    requires
        data.len() > 0,
        k > 0,
    ensures
        ({
            let (a, cs) = kmeans_result(data, k, m);
            let (a2, cs2) = kmeans_result(data, k, m + 1);
            &&& assign_all(data, cs) == a ==> a2 == a && cs2 == cs
            &&& assign_all(data, cs) != a ==> {
                &&& a2 == assign_all(data, cs)
                &&& cs2.len() == cs.len()
                &&& forall|c: int|
                    0 <= c < cs.len() ==> #[trigger] cs2[c] == if members(data, a2, c).len() > 0 {
                        centroid(members(data, a2, c))
                    } else {
                        cs[c]
                    }
            }
        }),
{
    let kk = effective_k(data.len(), k);
    lemma_iterate_step(data, initial_assignments(data.len()), initial_centroids(data, kk), m);
}

proof fn lemma_iterate_dimension(data: Seq<Seq<Ternary>>, assign: Seq<usize>, cents: Seq<Seq<Ternary>>, iters: nat)
    requires
        data.len() > 0,
        same_length(data),
        forall|c: int| 0 <= c < cents.len() ==> #[trigger] cents[c].len() == data[0].len(),
    ensures
        forall|c: int|
            0 <= c < kmeans_iterate(data, assign, cents, iters).1.len() ==> #[trigger] kmeans_iterate(
                data,
                assign,
                cents,
                iters,
            ).1[c].len() == data[0].len(),
    decreases iters,
{
    if iters > 0 {
        let next = assign_all(data, cents);
        if next != assign {
            let upd = update_centroids(data, next, cents);
            assert forall|c: int| 0 <= c < upd.len() implies #[trigger] upd[c].len() == data[0].len() by {
                if members(data, next, c).len() > 0 {
                    lemma_members_same_length(data, next, c, data.len());
                    assert(members(data, next, c)[0].len() == data[0].len());
                }
            }
            lemma_iterate_dimension(data, next, upd, (iters - 1) as nat);
            assert(kmeans_iterate(data, assign, cents, iters) == kmeans_iterate(data, next, upd, (iters - 1) as nat));
        }
    }
}

/// When all points have the same length, every centroid K-means returns has that
/// length too.
pub proof fn lemma_kmeans_centroid_dimension(data: Seq<Seq<Ternary>>, k: nat, m: nat)
    requires
        data.len() > 0,
        k > 0,
        same_length(data),
    ensures
        forall|c: int|
            0 <= c < kmeans_result(data, k, m).1.len() ==> #[trigger] kmeans_result(data, k, m).1[c].len()
                == data[0].len(),
{
    let kk = effective_k(data.len(), k);
    let c0 = initial_centroids(data, kk);
    assert forall|c: int| 0 <= c < c0.len() implies #[trigger] c0[c].len() == data[0].len() by {
        lemma_spread_index(c, data.len() as int, kk as int);
    }
    lemma_iterate_dimension(data, initial_assignments(data.len()), c0, m);
}

} // verus!
