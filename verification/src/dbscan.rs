//! DBSCAN: density-based clustering over the Hamming distance.
//!
//! A point's neighbourhood is every point (itself included) within `eps` of it. A
//! point is a core point when its neighbourhood has at least `min_pts` members.
//! Clusters grow from core points; a point that is neither core nor near a core
//! point is noise (`None`).

use vstd::prelude::*;
use crate::ternary::{Ternary, rows};
use crate::distance::{hamming, hamming_distance, lemma_distances_symmetric, lemma_distances_self};

verus! {

/// Points `i` and `j` are within `eps` of each other.
pub open spec fn near(d: Seq<Seq<Ternary>>, eps: usize, i: int, j: int) -> bool {
    hamming(d[i], d[j]) <= eps
}

/// The indices `j < m` of the points within `eps` of point `i`, in increasing order.
pub open spec fn neighbors_upto(d: Seq<Seq<Ternary>>, eps: usize, i: int, m: nat) -> Seq<usize>
    decreases m,
{
    if m == 0 {
        Seq::empty()
    } else {
        let prev = neighbors_upto(d, eps, i, (m - 1) as nat);
        if near(d, eps, i, m - 1) {
            prev.push((m - 1) as usize)
        } else {
            prev
        }
    }
}

/// The neighbourhood of point `i`: every point within `eps` of it, in index order.
pub open spec fn neighbors(d: Seq<Seq<Ternary>>, eps: usize, i: int) -> Seq<usize> {
    neighbors_upto(d, eps, i, d.len())
}

/// Point `i` is a core point: its neighbourhood has at least `min_pts` members.
pub open spec fn is_core(d: Seq<Seq<Ternary>>, eps: usize, min_pts: usize, i: int) -> bool {
    neighbors(d, eps, i).len() >= min_pts
}

/// Every core point belongs to a cluster.
pub open spec fn cores_clustered(d: Seq<Seq<Ternary>>, eps: usize, min_pts: usize, l: Seq<Option<usize>>) -> bool {
    forall|i: int| 0 <= i < d.len() && #[trigger] is_core(d, eps, min_pts, i) ==> l[i] is Some
}

/// Every point near a clustered core point is clustered too, in a cluster numbered no
/// higher than that core point's (a point near several clusters joins the first).
pub open spec fn core_neighbors_clustered(d: Seq<Seq<Ternary>>, eps: usize, min_pts: usize, l: Seq<Option<usize>>) -> bool {
    forall|p: int, q: int|
        0 <= p < d.len() && 0 <= q < d.len() && l[p] is Some && is_core(d, eps, min_pts, p)
            && #[trigger] near(d, eps, p, q) ==> l[q] is Some && l[q]->0 <= l[p]->0
}

/// A clustered point that is not a core point lies near a core point of its cluster.
pub open spec fn borders_supported(d: Seq<Seq<Ternary>>, eps: usize, min_pts: usize, l: Seq<Option<usize>>) -> bool {
    forall|q: int|
        0 <= q < d.len() && #[trigger] l[q] is Some && !is_core(d, eps, min_pts, q) ==> exists|p: int|
            0 <= p < d.len() && is_core(d, eps, min_pts, p) && #[trigger] near(d, eps, p, q) && l[p] == l[q]
}

/// Clusters are numbered from 0 in the order of their first core point: a core point of
/// cluster `c > 0` has a core point of cluster `c - 1` before it.
pub open spec fn clusters_numbered(d: Seq<Seq<Ternary>>, eps: usize, min_pts: usize, l: Seq<Option<usize>>) -> bool {
    forall|j: int|
        0 <= j < d.len() && is_core(d, eps, min_pts, j) && #[trigger] l[j] is Some && l[j]->0 > 0
            ==> exists|i: int|
            0 <= i < j && #[trigger] is_core(d, eps, min_pts, i) && l[i] == Some((l[j]->0 - 1) as usize)
}

/// `j` is the first core point of its cluster.
pub open spec fn is_cluster_root(d: Seq<Seq<Ternary>>, eps: usize, min_pts: usize, l: Seq<Option<usize>>, j: int) -> bool {
    forall|i: int| 0 <= i < d.len() && #[trigger] is_core(d, eps, min_pts, i) && l[i] == l[j] ==> j <= i
}

/// Core point `par[p]` is near `p`, in `p`'s cluster, and of lower rank.
pub open spec fn has_parent(
    d: Seq<Seq<Ternary>>,
    eps: usize,
    min_pts: usize,
    l: Seq<Option<usize>>,
    par: Seq<int>,
    rank: Seq<nat>,
    p: int,
) -> bool {
    &&& 0 <= par[p] < d.len()
    &&& is_core(d, eps, min_pts, par[p])
    &&& near(d, eps, par[p], p)
    &&& l[par[p]] == l[p]
    &&& rank[par[p]] < rank[p]
}

/// Witnesses that every core point of a cluster descends, through core points near each
/// other and of strictly falling rank, to the first core point of the cluster.
pub open spec fn chain_witness(
    d: Seq<Seq<Ternary>>,
    eps: usize,
    min_pts: usize,
    l: Seq<Option<usize>>,
    par: Seq<int>,
    rank: Seq<nat>,
) -> bool {
    &&& par.len() == d.len()
    &&& rank.len() == d.len()
    &&& forall|j: int|
        0 <= j < d.len() && #[trigger] is_core(d, eps, min_pts, j) && l[j] is Some ==> is_cluster_root(
            d,
            eps,
            min_pts,
            l,
            j,
        ) || has_parent(d, eps, min_pts, l, par, rank, j)
}

/// The core points of one cluster are connected through chains of core points near each
/// other.
pub open spec fn cores_connected(d: Seq<Seq<Ternary>>, eps: usize, min_pts: usize, l: Seq<Option<usize>>) -> bool {
    exists|par: Seq<int>, rank: Seq<nat>| chain_witness(d, eps, min_pts, l, par, rank)
}

/// The labelling that DBSCAN produces.
pub open spec fn is_dbscan_labelling(d: Seq<Seq<Ternary>>, eps: usize, min_pts: usize, l: Seq<Option<usize>>) -> bool {
    &&& l.len() == d.len()
    &&& cores_clustered(d, eps, min_pts, l)
    &&& core_neighbors_clustered(d, eps, min_pts, l)
    &&& borders_supported(d, eps, min_pts, l)
    &&& clusters_numbered(d, eps, min_pts, l)
    &&& cores_connected(d, eps, min_pts, l)
}

/// Membership in a prefix neighbourhood.
pub proof fn lemma_neighbors_upto(d: Seq<Seq<Ternary>>, eps: usize, i: int, m: nat)
    requires
        m <= usize::MAX,
    ensures
        neighbors_upto(d, eps, i, m).len() <= m,
        forall|k: int|
            0 <= k < neighbors_upto(d, eps, i, m).len() ==> {
                let j = #[trigger] neighbors_upto(d, eps, i, m)[k];
                j < m && near(d, eps, i, j as int)
            },
        forall|j: int|
            0 <= j < m && #[trigger] near(d, eps, i, j) ==> exists|k: int|
                0 <= k < neighbors_upto(d, eps, i, m).len() && #[trigger] neighbors_upto(d, eps, i, m)[k]
                    == j,
    decreases m,
{
    if m > 0 {
        lemma_neighbors_upto(d, eps, i, (m - 1) as nat);
        let prev = neighbors_upto(d, eps, i, (m - 1) as nat);
        let cur = neighbors_upto(d, eps, i, m);
        assert forall|j: int| 0 <= j < m && #[trigger] near(d, eps, i, j) implies exists|k: int|
            0 <= k < cur.len() && #[trigger] cur[k] == j by {
            if j < m - 1 {
                let k = choose|k: int| 0 <= k < prev.len() && #[trigger] prev[k] == j;
                assert(cur[k] == prev[k]);
            } else {
                assert(cur[prev.len() as int] == j);
            }
        }
    }
}

/// The neighbourhood of `i` lists exactly the points within `eps` of `i`.
pub proof fn lemma_neighbors(d: Seq<Seq<Ternary>>, eps: usize, i: int)
    requires
        d.len() <= usize::MAX,
    ensures
        neighbors(d, eps, i).len() <= d.len(),
        forall|k: int|
            0 <= k < neighbors(d, eps, i).len() ==> {
                let j = #[trigger] neighbors(d, eps, i)[k];
                j < d.len() && near(d, eps, i, j as int)
            },
        forall|j: int|
            0 <= j < d.len() && #[trigger] near(d, eps, i, j) ==> exists|k: int|
                0 <= k < neighbors(d, eps, i).len() && #[trigger] neighbors(d, eps, i)[k] == j,
{
    lemma_neighbors_upto(d, eps, i, d.len());
}

/// Number of unlabelled points.
spec fn count_none(l: Seq<Option<usize>>) -> nat
    decreases l.len(),
{
    if l.len() == 0 {
        0
    } else {
        count_none(l.drop_last()) + if l.last() is None { 1nat } else { 0nat }
    }
}

/// Labelling an unlabelled point lowers the count of unlabelled points by one.
proof fn lemma_count_none_update(l: Seq<Option<usize>>, p: int, x: usize)
    requires
        0 <= p < l.len(),
        l[p] is None,
    ensures
        count_none(l.update(p, Some(x))) + 1 == count_none(l),
    decreases l.len(),
{
    let l2 = l.update(p, Some(x));
    if p == l.len() - 1 {
        assert(l2.drop_last() =~= l.drop_last());
    } else {
        lemma_count_none_update(l.drop_last(), p, x);
        assert(l2.drop_last() =~= l.drop_last().update(p, Some(x)));
    }
}


/// Every clustered point other than the first core point of its cluster has a parent.
spec fn parents_ok(
    d: Seq<Seq<Ternary>>,
    eps: usize,
    min_pts: usize,
    l: Seq<Option<usize>>,
    par: Seq<int>,
    rank: Seq<nat>,
    starts: Seq<int>,
) -> bool {
    forall|p: int|
        0 <= p < d.len() && #[trigger] l[p] is Some && p != starts[l[p]->0 as int] ==> has_parent(
            d,
            eps,
            min_pts,
            l,
            par,
            rank,
            p,
        )
}

/// `starts[c]` is the first core point of cluster `c`; starts lie below `bound` and
/// increase with the cluster number.
spec fn starts_ok(
    d: Seq<Seq<Ternary>>,
    eps: usize,
    min_pts: usize,
    l: Seq<Option<usize>>,
    starts: Seq<int>,
    bound: int,
) -> bool {
    &&& forall|c: int|
        0 <= c < starts.len() ==> 0 <= #[trigger] starts[c] < bound && is_core(d, eps, min_pts, starts[c])
            && l[starts[c]] == Some(c as usize)
    &&& forall|c1: int, c2: int| 0 <= c1 < c2 < starts.len() ==> #[trigger] starts[c1] < #[trigger] starts[c2]
    &&& forall|p: int|
        0 <= p < d.len() && #[trigger] l[p] is Some && is_core(d, eps, min_pts, p) ==> l[p]->0 < starts.len()
            && starts[l[p]->0 as int] <= p
}

/// What holds of the labelling between two points of the scan, `i` being the next one.
#[verifier::opaque]
spec fn scan_inv(
    d: Seq<Seq<Ternary>>,
    eps: usize,
    min_pts: usize,
    l: Seq<Option<usize>>,
    par: Seq<int>,
    rank: Seq<nat>,
    clock: nat,
    starts: Seq<int>,
    i: int,
    cid: usize,
) -> bool {
    &&& l.len() == d.len()
    &&& par.len() == d.len()
    &&& rank.len() == d.len()
    &&& starts.len() == cid
    &&& 0 <= cid <= i <= d.len()
    &&& forall|p: int| 0 <= p < d.len() && #[trigger] l[p] is Some ==> l[p]->0 < cid && rank[p] < clock
    &&& core_neighbors_clustered(d, eps, min_pts, l)
    &&& forall|p: int| 0 <= p < i && #[trigger] is_core(d, eps, min_pts, p) ==> l[p] is Some
    &&& parents_ok(d, eps, min_pts, l, par, rank, starts)
    &&& starts_ok(d, eps, min_pts, l, starts, i)
}

/// What holds while the cluster `cid`, started at core point `i`, grows from the seed
/// list; `l0` is the labelling before the cluster started.
#[verifier::opaque]
spec fn grow_inv(
    d: Seq<Seq<Ternary>>,
    eps: usize,
    min_pts: usize,
    l0: Seq<Option<usize>>,
    l: Seq<Option<usize>>,
    par: Seq<int>,
    rank: Seq<nat>,
    clock: nat,
    starts: Seq<int>,
    i: int,
    cid: usize,
    seeds: Seq<usize>,
    reached_from: Seq<int>,
    idx: int,
) -> bool {
    &&& l.len() == d.len()
    &&& l0.len() == d.len()
    &&& par.len() == d.len()
    &&& rank.len() == d.len()
    &&& 0 <= i < d.len()
    &&& 0 <= cid <= i
    &&& starts.len() == cid + 1
    &&& starts[cid as int] == i
    &&& is_core(d, eps, min_pts, i)
    &&& l[i] == Some(cid)
    &&& l0[i] is None
    &&& core_neighbors_clustered(d, eps, min_pts, l0)
    &&& forall|p: int| 0 <= p < d.len() && #[trigger] l0[p] is Some ==> l0[p]->0 < cid
    &&& forall|p: int| 0 <= p < i && #[trigger] is_core(d, eps, min_pts, p) ==> l0[p] is Some
    &&& starts_ok(d, eps, min_pts, l0, starts.drop_last(), i)
    &&& forall|p: int|
        0 <= p < d.len() ==> (l0[p] is Some ==> #[trigger] l[p] == l0[p]) && (l0[p] is None && l[p] is Some
            ==> l[p] == Some(cid))
    &&& parents_ok(d, eps, min_pts, l, par, rank, starts)
    &&& forall|p: int| 0 <= p < d.len() && #[trigger] l[p] is Some ==> rank[p] < clock
    &&& reached_from.len() == seeds.len()
    &&& 0 <= idx <= seeds.len()
    &&& forall|k: int|
        0 <= k < seeds.len() ==> #[trigger] seeds[k] < d.len() && 0 <= reached_from[k] < d.len() && is_core(
            d,
            eps,
            min_pts,
            reached_from[k],
        ) && l[reached_from[k]] == Some(cid) && near(d, eps, reached_from[k], seeds[k] as int)
    &&& forall|k: int| 0 <= k < idx ==> l[#[trigger] seeds[k] as int] is Some
    &&& forall|k: int, q: int|
        0 <= k < idx && 0 <= q < d.len() && is_core(d, eps, min_pts, seeds[k] as int) && #[trigger] near(
            d,
            eps,
            seeds[k] as int,
            q,
        ) ==> l[q] is Some
    &&& forall|p: int|
        0 <= p < d.len() && #[trigger] l[p] == Some(cid) && p != i ==> exists|k: int|
            0 <= k < seeds.len() && #[trigger] seeds[k] == p
    &&& forall|q: int|
        0 <= q < d.len() && #[trigger] near(d, eps, i, q) && q != i ==> exists|k: int|
            0 <= k < seeds.len() && #[trigger] seeds[k] == q
}

/// Computes the neighbourhood of every point.
fn build_neighborhoods(data: &[Vec<Ternary>], eps: usize) -> (nbh: Vec<Vec<usize>>)
    ensures
        nbh@.len() == data@.len(),
        forall|p: int| 0 <= p < data@.len() ==> #[trigger] nbh@[p]@ == neighbors(rows(data@), eps, p),
{
    let ghost d = rows(data@);
    let n = data.len();
    let mut nbh: Vec<Vec<usize>> = Vec::new();
    let mut i: usize = 0;
    while i < n
        invariant
            d == rows(data@),
            n == data@.len(),
            i <= n,
            nbh@.len() == i,
            forall|p: int| 0 <= p < i ==> #[trigger] nbh@[p]@ == neighbors(d, eps, p),
        decreases n - i,
    {
        let mut row: Vec<usize> = Vec::new();
        let mut j: usize = 0;
        while j < n
            invariant
                d == rows(data@),
                n == data@.len(),
                i < n,
                j <= n,
                row@ == neighbors_upto(d, eps, i as int, j as nat),
            decreases n - j,
        {
            if hamming_distance(data[i].as_slice(), data[j].as_slice()) <= eps {
                row.push(j);
            }
            j = j + 1;
        }
        nbh.push(row);
        i = i + 1;
    }
    nbh
}



/// Passing over a point that is already clustered, or is not a core point, keeps the
/// scan invariant.
proof fn lemma_scan_skip(
    d: Seq<Seq<Ternary>>,
    eps: usize,
    min_pts: usize,
    l: Seq<Option<usize>>,
    par: Seq<int>,
    rank: Seq<nat>,
    clock: nat,
    starts: Seq<int>,
    i: int,
    cid: usize,
)
    requires
        scan_inv(d, eps, min_pts, l, par, rank, clock, starts, i, cid),
        0 <= i < d.len(),
        l[i] is Some || !is_core(d, eps, min_pts, i),
    ensures
        scan_inv(d, eps, min_pts, l, par, rank, clock, starts, i + 1, cid),
{
    reveal(scan_inv);
    let sok = starts_ok(d, eps, min_pts, l, starts, i + 1);
    assert(sok);
}

/// Opening cluster `cid` at core point `i` with its seed list establishes the growth
/// invariant.
proof fn lemma_grow_start(
    d: Seq<Seq<Ternary>>,
    eps: usize,
    min_pts: usize,
    l0: Seq<Option<usize>>,
    par: Seq<int>,
    rank0: Seq<nat>,
    clock0: nat,
    starts0: Seq<int>,
    i: int,
    cid: usize,
    seeds: Seq<usize>,
    reached_from: Seq<int>,
)
    requires
        scan_inv(d, eps, min_pts, l0, par, rank0, clock0, starts0, i, cid),
        0 <= i < d.len(),
        l0[i] is None,
        is_core(d, eps, min_pts, i),
        reached_from.len() == seeds.len(),
        forall|k: int|
            0 <= k < seeds.len() ==> #[trigger] seeds[k] < d.len() && reached_from[k] == i && near(
                d,
                eps,
                i,
                seeds[k] as int,
            ),
        forall|q: int|
            0 <= q < d.len() && #[trigger] near(d, eps, i, q) && q != i ==> exists|k: int|
                0 <= k < seeds.len() && #[trigger] seeds[k] == q,
    ensures
        grow_inv(
            d,
            eps,
            min_pts,
            l0,
            l0.update(i, Some(cid)),
            par,
            rank0.update(i, clock0),
            clock0 + 1,
            starts0.push(i),
            i,
            cid,
            seeds,
            reached_from,
            0,
        ),
{
    reveal(scan_inv);
    reveal(grow_inv);
    let l = l0.update(i, Some(cid));
    let rank = rank0.update(i, clock0);
    let starts = starts0.push(i);
    assert(starts.drop_last() =~= starts0);
    assert forall|p: int|
        0 <= p < d.len() && #[trigger] l[p] is Some && p != starts[l[p]->0 as int] implies has_parent(
        d,
        eps,
        min_pts,
        l,
        par,
        rank,
        p,
    ) by {
        assert(p != i);
        assert(l0[p] is Some);
        assert(l0[p]->0 < cid);
        assert(starts[l[p]->0 as int] == starts0[l0[p]->0 as int]);
        assert(has_parent(d, eps, min_pts, l0, par, rank0, p));
        assert(l0[par[p]] is Some);
    }
}

/// Labelling the seed at position `idx` keeps the growth invariant.
proof fn lemma_grow_label_seed(
    d: Seq<Seq<Ternary>>,
    eps: usize,
    min_pts: usize,
    l0: Seq<Option<usize>>,
    l: Seq<Option<usize>>,
    par: Seq<int>,
    rank: Seq<nat>,
    clock: nat,
    starts: Seq<int>,
    i: int,
    cid: usize,
    seeds: Seq<usize>,
    reached_from: Seq<int>,
    idx: int,
)
    requires
        grow_inv(d, eps, min_pts, l0, l, par, rank, clock, starts, i, cid, seeds, reached_from, idx),
        0 <= idx < seeds.len(),
        l[seeds[idx] as int] is None,
    ensures
        grow_inv(
            d,
            eps,
            min_pts,
            l0,
            l.update(seeds[idx] as int, Some(cid)),
            par.update(seeds[idx] as int, reached_from[idx]),
            rank.update(seeds[idx] as int, clock),
            clock + 1,
            starts,
            i,
            cid,
            seeds,
            reached_from,
            idx,
        ),
{
    reveal(grow_inv);
    let q = seeds[idx] as int;
    let l2 = l.update(q, Some(cid));
    let par2 = par.update(q, reached_from[idx]);
    let rank2 = rank.update(q, clock);
    assert(l0[q] is None);
    assert forall|p: int|
        0 <= p < d.len() && #[trigger] l2[p] is Some && p != starts[l2[p]->0 as int] implies has_parent(
        d,
        eps,
        min_pts,
        l2,
        par2,
        rank2,
        p,
    ) by {
        if p == q {
            assert(l[reached_from[idx]] == Some(cid));
        } else {
            assert(has_parent(d, eps, min_pts, l, par, rank, p));
            assert(l[par[p]] is Some);
        }
    }
    assert forall|p: int|
        0 <= p < d.len() && #[trigger] l2[p] == Some(cid) && p != i implies exists|k: int|
        0 <= k < seeds.len() && #[trigger] seeds[k] == p by {
        if p == q {
            assert(seeds[idx] == p);
        } else {
            assert(l[p] == Some(cid));
        }
    }
    assert forall|k: int| 0 <= k < seeds.len() implies #[trigger] l2[reached_from[k]] == Some(cid) by {
        assert(seeds[k] < d.len());
        assert(l[reached_from[k]] == Some(cid));
    }
}

/// Adding neighbour `nb` of the core point `q` (the seed being expanded) to the cluster
/// and to the seed list keeps the growth invariant.
#[verifier::rlimit(60)]
#[verifier::spinoff_prover]
proof fn lemma_grow_push(
    d: Seq<Seq<Ternary>>,
    eps: usize,
    min_pts: usize,
    l0: Seq<Option<usize>>,
    l: Seq<Option<usize>>,
    par: Seq<int>,
    rank: Seq<nat>,
    clock: nat,
    starts: Seq<int>,
    i: int,
    cid: usize,
    seeds: Seq<usize>,
    reached_from: Seq<int>,
    idx: int,
    nb: usize,
)
    requires
        grow_inv(d, eps, min_pts, l0, l, par, rank, clock, starts, i, cid, seeds, reached_from, idx),
        0 <= idx < seeds.len(),
        l[seeds[idx] as int] is Some,
        is_core(d, eps, min_pts, seeds[idx] as int),
        nb < d.len(),
        near(d, eps, seeds[idx] as int, nb as int),
        l[nb as int] is None,
    ensures
        grow_inv(
            d,
            eps,
            min_pts,
            l0,
            l.update(nb as int, Some(cid)),
            par.update(nb as int, seeds[idx] as int),
            rank.update(nb as int, clock),
            clock + 1,
            starts,
            i,
            cid,
            seeds.push(nb),
            reached_from.push(seeds[idx] as int),
            idx,
        ),
{
    reveal(grow_inv);
    let q = seeds[idx] as int;
    let l2 = l.update(nb as int, Some(cid));
    let par2 = par.update(nb as int, q);
    let rank2 = rank.update(nb as int, clock);
    let seeds2 = seeds.push(nb);
    let rf2 = reached_from.push(q);
    assert(l0[nb as int] is None);
    if l0[q] is Some {
        assert(l0[nb as int] is Some);
    }
    assert(l[q] == Some(cid));
    assert forall|p: int|
        0 <= p < d.len() && #[trigger] l2[p] is Some && p != starts[l2[p]->0 as int] implies has_parent(
        d,
        eps,
        min_pts,
        l2,
        par2,
        rank2,
        p,
    ) by {
        if p != nb {
            assert(has_parent(d, eps, min_pts, l, par, rank, p));
            assert(l[par[p]] is Some);
        }
    }
    assert forall|p: int|
        0 <= p < d.len() && #[trigger] l2[p] == Some(cid) && p != i implies exists|k: int|
        0 <= k < seeds2.len() && #[trigger] seeds2[k] == p by {
        if p == nb {
            assert(seeds2[seeds.len() as int] == nb);
        } else {
            assert(l[p] == Some(cid));
            let k = choose|k: int| 0 <= k < seeds.len() && #[trigger] seeds[k] == p;
            assert(seeds2[k] == seeds[k]);
        }
    }
    assert forall|x: int|
        0 <= x < d.len() && #[trigger] near(d, eps, i, x) && x != i implies exists|k: int|
        0 <= k < seeds2.len() && #[trigger] seeds2[k] == x by {
        let k = choose|k: int| 0 <= k < seeds.len() && #[trigger] seeds[k] == x;
        assert(seeds2[k] == seeds[k]);
    }
    assert forall|k: int| 0 <= k < seeds2.len() implies #[trigger] seeds2[k] < d.len() && 0 <= rf2[k] < d.len()
        && is_core(d, eps, min_pts, rf2[k]) && l2[rf2[k]] == Some(cid) && near(
        d,
        eps,
        rf2[k],
        seeds2[k] as int,
    ) by {
        if k < seeds.len() {
            assert(seeds2[k] == seeds[k]);
            assert(rf2[k] == reached_from[k]);
        }
    }
    assert forall|k: int| 0 <= k < idx implies l2[#[trigger] seeds2[k] as int] is Some by {
        assert(seeds2[k] == seeds[k]);
    }
    assert forall|k: int, x: int|
        0 <= k < idx && 0 <= x < d.len() && is_core(d, eps, min_pts, seeds2[k] as int) && #[trigger] near(
            d,
            eps,
            seeds2[k] as int,
            x,
        ) implies l2[x] is Some by {
        assert(seeds2[k] == seeds[k]);
    }
}

/// Moving past an expanded seed keeps the growth invariant.
proof fn lemma_grow_advance(
    d: Seq<Seq<Ternary>>,
    eps: usize,
    min_pts: usize,
    l0: Seq<Option<usize>>,
    l: Seq<Option<usize>>,
    par: Seq<int>,
    rank: Seq<nat>,
    clock: nat,
    starts: Seq<int>,
    i: int,
    cid: usize,
    seeds: Seq<usize>,
    reached_from: Seq<int>,
    idx: int,
)
    requires
        grow_inv(d, eps, min_pts, l0, l, par, rank, clock, starts, i, cid, seeds, reached_from, idx),
        0 <= idx < seeds.len(),
        l[seeds[idx] as int] is Some,
        is_core(d, eps, min_pts, seeds[idx] as int) ==> forall|x: int|
            0 <= x < d.len() && #[trigger] near(d, eps, seeds[idx] as int, x) ==> l[x] is Some,
    ensures
        grow_inv(d, eps, min_pts, l0, l, par, rank, clock, starts, i, cid, seeds, reached_from, idx + 1),
{
    reveal(grow_inv);
}

/// When every seed has been expanded the cluster is complete, and the scan invariant
/// holds past point `i`.
proof fn lemma_grow_finish(
    d: Seq<Seq<Ternary>>,
    eps: usize,
    min_pts: usize,
    l0: Seq<Option<usize>>,
    l: Seq<Option<usize>>,
    par: Seq<int>,
    rank: Seq<nat>,
    clock: nat,
    starts: Seq<int>,
    i: int,
    cid: usize,
    seeds: Seq<usize>,
    reached_from: Seq<int>,
)
    requires
        grow_inv(d, eps, min_pts, l0, l, par, rank, clock, starts, i, cid, seeds, reached_from, seeds.len() as int),
        cid < usize::MAX,
    ensures
        scan_inv(d, eps, min_pts, l, par, rank, clock, starts, i + 1, (cid + 1) as usize),
{
    reveal(grow_inv);
    reveal(scan_inv);
    let starts0 = starts.drop_last();
    assert forall|p: int, q: int|
        0 <= p < d.len() && 0 <= q < d.len() && l[p] is Some && is_core(d, eps, min_pts, p)
            && #[trigger] near(d, eps, p, q) implies l[q] is Some && l[q]->0 <= l[p]->0 by {
        if l0[p] is Some {
            assert(l0[q] is Some);
        } else {
            assert(l[p] == Some(cid));
            if p == i {
                if q != i {
                    let k = choose|k: int| 0 <= k < seeds.len() && #[trigger] seeds[k] == q;
                }
            } else {
                let k = choose|k: int| 0 <= k < seeds.len() && #[trigger] seeds[k] == p;
                assert(near(d, eps, seeds[k] as int, q));
            }
            if l0[q] is Some {
            } else {
                assert(l[q] == Some(cid));
            }
        }
    }
    assert forall|c: int|
        0 <= c < starts.len() implies 0 <= #[trigger] starts[c] < i + 1 && is_core(d, eps, min_pts, starts[c])
        && l[starts[c]] == Some(c as usize) by {
        if c < cid {
            assert(starts[c] == starts0[c]);
        }
    }
    assert forall|c1: int, c2: int| 0 <= c1 < c2 < starts.len() implies #[trigger] starts[c1] < #[trigger] starts[c2] by {
        assert(starts[c1] == starts0[c1]);
        if c2 < cid {
            assert(starts[c2] == starts0[c2]);
        }
    }
    assert forall|p: int|
        0 <= p < d.len() && #[trigger] l[p] is Some && is_core(d, eps, min_pts, p) implies l[p]->0 < starts.len()
        && starts[l[p]->0 as int] <= p by {
        if l0[p] is Some {
            assert(starts[l0[p]->0 as int] == starts0[l0[p]->0 as int]);
        } else {
            assert(l[p] == Some(cid));
            if p < i {
                assert(l0[p] is Some);
            }
        }
    }
    assert forall|p: int| 0 <= p < i + 1 && #[trigger] is_core(d, eps, min_pts, p) implies l[p] is Some by {
        if p < i {
            assert(l0[p] is Some);
        }
    }
    assert forall|p: int| 0 <= p < d.len() && #[trigger] l[p] is Some implies l[p]->0 < cid + 1 && rank[p] < clock by {
        if l0[p] is Some {
        }
    }
}

/// At the end of the scan, the labelling is the one DBSCAN specifies.
proof fn lemma_scan_complete(
    d: Seq<Seq<Ternary>>,
    eps: usize,
    min_pts: usize,
    l: Seq<Option<usize>>,
    par: Seq<int>,
    rank: Seq<nat>,
    clock: nat,
    starts: Seq<int>,
    cid: usize,
)
    requires
        scan_inv(d, eps, min_pts, l, par, rank, clock, starts, d.len() as int, cid),
    ensures
        is_dbscan_labelling(d, eps, min_pts, l),
{
    reveal(scan_inv);
    assert forall|q: int|
        0 <= q < d.len() && #[trigger] l[q] is Some && !is_core(d, eps, min_pts, q) implies exists|p: int|
        0 <= p < d.len() && is_core(d, eps, min_pts, p) && #[trigger] near(d, eps, p, q) && l[p] == l[q] by {
        assert(has_parent(d, eps, min_pts, l, par, rank, q));
    }
    assert forall|j: int|
        0 <= j < d.len() && is_core(d, eps, min_pts, j) && #[trigger] l[j] is Some && l[j]->0 > 0 implies exists|i: int|
        0 <= i < j && #[trigger] is_core(d, eps, min_pts, i) && l[i] == Some((l[j]->0 - 1) as usize) by {
        let c = l[j]->0 as int;
        assert(starts[c - 1] < starts[c]);
        assert(is_core(d, eps, min_pts, starts[c - 1]));
    }
    assert forall|j: int|
        0 <= j < d.len() && #[trigger] is_core(d, eps, min_pts, j) && l[j] is Some implies is_cluster_root(
        d,
        eps,
        min_pts,
        l,
        j,
    ) || has_parent(d, eps, min_pts, l, par, rank, j) by {
        let c = l[j]->0 as int;
        if j == starts[c] {
            assert forall|x: int| 0 <= x < d.len() && #[trigger] is_core(d, eps, min_pts, x) && l[x] == l[j] implies j <= x by {
                assert(l[x] is Some);
            }
        }
    }
    assert(chain_witness(d, eps, min_pts, l, par, rank));
}

/// DBSCAN clustering for ternary data using Hamming distance.
///
/// Returns cluster assignments where `None` indicates noise.
pub fn dbscan(data: &[Vec<Ternary>], eps: usize, min_pts: usize) -> (labels: Vec<Option<usize>>)
    ensures
        is_dbscan_labelling(rows(data@), eps, min_pts, labels@),
{
    let ghost d = rows(data@);
    let n = data.len();
    if n == 0 {
        let labels: Vec<Option<usize>> = Vec::new();
        proof {
            let par = Seq::<int>::empty();
            let rank = Seq::<nat>::empty();
            assert(chain_witness(d, eps, min_pts, labels@, par, rank));
        }
        return labels;
    }
    let mut labels: Vec<Option<usize>> = Vec::new();
    let mut t: usize = 0;
    while t < n
        invariant
            t <= n,
            labels@.len() == t,
            forall|p: int| 0 <= p < t ==> #[trigger] labels@[p] is None,
        decreases n - t,
    {
        labels.push(None);
        t = t + 1;
    }
    let neighborhoods = build_neighborhoods(data, eps);
    let mut cluster_id: usize = 0;
    let ghost mut par: Seq<int> = Seq::new(n as nat, |p: int| 0int);
    let ghost mut rank: Seq<nat> = Seq::new(n as nat, |p: int| 0nat);
    let ghost mut clock: nat = 0;
    let ghost mut starts: Seq<int> = Seq::empty();
    proof {
        reveal(scan_inv);
    }
    let mut i: usize = 0;
    while i < n
        invariant
            d == rows(data@),
            n == data@.len(),
            neighborhoods@.len() == n,
            forall|p: int| 0 <= p < n ==> #[trigger] neighborhoods@[p]@ == neighbors(d, eps, p),
            scan_inv(d, eps, min_pts, labels@, par, rank, clock, starts, i as int, cluster_id),
            labels@.len() == n,
            cluster_id <= i,
        decreases n - i,
    {
        proof {
            reveal(scan_inv);
        }
        if labels[i].is_some() {
            proof {
                lemma_scan_skip(d, eps, min_pts, labels@, par, rank, clock, starts, i as int, cluster_id);
            }
            i = i + 1;
            continue;
        }
        if neighborhoods[i].len() < min_pts {
            proof {
                lemma_scan_skip(d, eps, min_pts, labels@, par, rank, clock, starts, i as int, cluster_id);
            }
            i = i + 1;
            continue;
        }
        let ghost l0 = labels@;
        let ghost rank0 = rank;
        let ghost clock0 = clock;
        let ghost starts0 = starts;
        labels[i] = Some(cluster_id);
        let nb_i = &neighborhoods[i];
        let mut seeds: Vec<usize> = Vec::new();
        let ghost mut reached_from: Seq<int> = Seq::empty();
        let mut t: usize = 0;
        while t < nb_i.len()
            invariant
                d == rows(data@),
                n == data@.len(),
                i < n,
                nb_i@ == neighbors(d, eps, i as int),
                t <= nb_i@.len(),
                reached_from.len() == seeds@.len(),
                forall|k: int|
                    0 <= k < seeds@.len() ==> #[trigger] seeds@[k] < n && reached_from[k] == i && near(
                        d,
                        eps,
                        i as int,
                        seeds@[k] as int,
                    ),
                forall|w: int|
                    0 <= w < t && #[trigger] nb_i@[w] != i ==> exists|k: int|
                        0 <= k < seeds@.len() && #[trigger] seeds@[k] == nb_i@[w],
            decreases nb_i@.len() - t,
        {
            let j = nb_i[t];
            proof {
                lemma_neighbors(d, eps, i as int);
                assert(nb_i@[t as int] == j);
            }
            if j != i {
                let ghost old_seeds = seeds@;
                seeds.push(j);
                proof {
                    reached_from = reached_from.push(i as int);
                    assert forall|w: int| 0 <= w < t + 1 && #[trigger] nb_i@[w] != i implies exists|k: int|
                        0 <= k < seeds@.len() && #[trigger] seeds@[k] == nb_i@[w] by {
                        if w < t {
                            let k = choose|k: int| 0 <= k < old_seeds.len() && #[trigger] old_seeds[k] == nb_i@[w];
                            assert(seeds@[k] == old_seeds[k]);
                        } else {
                            assert(seeds@[old_seeds.len() as int] == j);
                        }
                    }
                }
            }
            t = t + 1;
        }
        proof {
            lemma_neighbors(d, eps, i as int);
            assert forall|q: int| 0 <= q < n && #[trigger] near(d, eps, i as int, q) && q != i implies exists|k: int|
                0 <= k < seeds@.len() && #[trigger] seeds@[k] == q by {
                let w = choose|w: int| 0 <= w < nb_i@.len() && #[trigger] nb_i@[w] == q;
                assert(nb_i@[w] != i);
            }
            lemma_grow_start(d, eps, min_pts, l0, par, rank0, clock0, starts0, i as int, cluster_id, seeds@, reached_from);
            rank = rank.update(i as int, clock);
            clock = clock + 1;
            starts = starts.push(i as int);
            assert(labels@ == l0.update(i as int, Some(cluster_id)));
        }
        let mut idx: usize = 0;
        while idx < seeds.len()
            invariant
                d == rows(data@),
                n == data@.len(),
                neighborhoods@.len() == n,
                forall|p: int| 0 <= p < n ==> #[trigger] neighborhoods@[p]@ == neighbors(d, eps, p),
                grow_inv(d, eps, min_pts, l0, labels@, par, rank, clock, starts, i as int, cluster_id, seeds@, reached_from, idx as int),
                labels@.len() == n,
                forall|k: int| 0 <= k < seeds@.len() ==> #[trigger] seeds@[k] < n,
                cluster_id <= i,
                i < n,
                idx <= seeds@.len(),
            decreases seeds@.len() - idx + 2 * count_none(labels@),
        {
            let q = seeds[idx];
            if labels[q].is_none() {
                let ghost lb = labels@;
                labels[q] = Some(cluster_id);
                proof {
                    lemma_grow_label_seed(d, eps, min_pts, l0, lb, par, rank, clock, starts, i as int, cluster_id, seeds@, reached_from, idx as int);
                    lemma_count_none_update(lb, q as int, cluster_id);
                    par = par.update(q as int, reached_from[idx as int]);
                    rank = rank.update(q as int, clock);
                    clock = clock + 1;
                    assert(labels@ == lb.update(q as int, Some(cluster_id)));
                }
            }
            let q_nb = &neighborhoods[q];
            let ghost m0 = seeds@.len() + 2 * count_none(labels@);
            if q_nb.len() >= min_pts {
                let mut u: usize = 0;
                while u < q_nb.len()
                    invariant
                        d == rows(data@),
                        n == data@.len(),
                        grow_inv(d, eps, min_pts, l0, labels@, par, rank, clock, starts, i as int, cluster_id, seeds@, reached_from, idx as int),
                        labels@.len() == n,
                        forall|k: int| 0 <= k < seeds@.len() ==> #[trigger] seeds@[k] < n,
                        idx < seeds@.len(),
                        q == seeds@[idx as int],
                        q < n,
                        labels@[q as int] is Some,
                        is_core(d, eps, min_pts, q as int),
                        q_nb@ == neighbors(d, eps, q as int),
                        u <= q_nb@.len(),
                        forall|w: int| 0 <= w < u ==> #[trigger] q_nb@[w] < n && labels@[q_nb@[w] as int] is Some,
                        seeds@.len() + 2 * count_none(labels@) <= m0,
                    decreases q_nb@.len() - u,
                {
                    let nb = q_nb[u];
                    proof {
                        lemma_neighbors(d, eps, q as int);
                        assert(q_nb@[u as int] == nb);
                    }
                    if labels[nb].is_none() {
                        let ghost lb = labels@;
                        let ghost old_seeds = seeds@;
                        labels[nb] = Some(cluster_id);
                        seeds.push(nb);
                        proof {
                            lemma_grow_push(d, eps, min_pts, l0, lb, par, rank, clock, starts, i as int, cluster_id, old_seeds, reached_from, idx as int, nb);
                            lemma_count_none_update(lb, nb as int, cluster_id);
                            par = par.update(nb as int, q as int);
                            rank = rank.update(nb as int, clock);
                            clock = clock + 1;
                            reached_from = reached_from.push(q as int);
                            assert(labels@ == lb.update(nb as int, Some(cluster_id)));
                            assert(seeds@ == old_seeds.push(nb));
                        }
                    }
                    u = u + 1;
                }
                proof {
                    lemma_neighbors(d, eps, q as int);
                    assert forall|x: int| 0 <= x < n && #[trigger] near(d, eps, q as int, x) implies labels@[x] is Some by {
                        let w = choose|w: int| 0 <= w < q_nb@.len() && #[trigger] q_nb@[w] == x;
                    }
                }
            }
            proof {
                lemma_grow_advance(d, eps, min_pts, l0, labels@, par, rank, clock, starts, i as int, cluster_id, seeds@, reached_from, idx as int);
            }
            idx = idx + 1;
        }
        proof {
            lemma_grow_finish(d, eps, min_pts, l0, labels@, par, rank, clock, starts, i as int, cluster_id, seeds@, reached_from);
        }
        cluster_id = cluster_id + 1;
        i = i + 1;
    }
    proof {
        lemma_scan_complete(d, eps, min_pts, labels@, par, rank, clock, starts, cluster_id);
    }
    labels
}


/// Being within `eps` is symmetric, and every point is within `eps` of itself.
pub proof fn lemma_near_symmetric(d: Seq<Seq<Ternary>>, eps: usize, i: int, j: int)
    ensures
        near(d, eps, i, j) == near(d, eps, j, i),
        near(d, eps, i, i),
{
    lemma_distances_symmetric(d[i], d[j]);
    lemma_distances_self(d[i]);
}

/// Two core points within `eps` of each other are in the same cluster.
pub proof fn lemma_dbscan_near_cores_share_cluster(
    d: Seq<Seq<Ternary>>,
    eps: usize,
    min_pts: usize,
    l: Seq<Option<usize>>,
    p: int,
    q: int,
)
    requires
        is_dbscan_labelling(d, eps, min_pts, l),
        0 <= p < d.len(),
        0 <= q < d.len(),
        is_core(d, eps, min_pts, p),
        is_core(d, eps, min_pts, q),
        near(d, eps, p, q),
    ensures
        l[p] is Some,
        l[p] == l[q],
{
    lemma_near_symmetric(d, eps, p, q);
    assert(near(d, eps, q, p));
}

/// A point is noise exactly when it is not a core point and no core point is within
/// `eps` of it.
pub proof fn lemma_dbscan_noise(d: Seq<Seq<Ternary>>, eps: usize, min_pts: usize, l: Seq<Option<usize>>, q: int)
    requires
        is_dbscan_labelling(d, eps, min_pts, l),
        0 <= q < d.len(),
    ensures
        l[q] is None <==> (!is_core(d, eps, min_pts, q) && forall|p: int|
            0 <= p < d.len() && #[trigger] is_core(d, eps, min_pts, p) ==> !near(d, eps, p, q)),
{
    if l[q] is Some && !is_core(d, eps, min_pts, q) {
        let p = choose|p: int| 0 <= p < d.len() && is_core(d, eps, min_pts, p) && #[trigger] near(d, eps, p, q) && l[p] == l[q];
    }
    if l[q] is None {
        assert forall|p: int| 0 <= p < d.len() && #[trigger] is_core(d, eps, min_pts, p) implies !near(d, eps, p, q) by {
            assert(l[p] is Some);
        }
    }
}

/// With `min_pts` at most 1 every point is a core point, so no point is noise.
pub proof fn lemma_dbscan_no_noise(d: Seq<Seq<Ternary>>, eps: usize, min_pts: usize, l: Seq<Option<usize>>, q: int)
    requires
        is_dbscan_labelling(d, eps, min_pts, l),
        d.len() <= usize::MAX,
        min_pts <= 1,
        0 <= q < d.len(),
    ensures
        is_core(d, eps, min_pts, q),
        l[q] is Some,
{
    lemma_near_symmetric(d, eps, q, q);
    lemma_neighbors(d, eps, q);
    let k = choose|k: int| 0 <= k < neighbors(d, eps, q).len() && #[trigger] neighbors(d, eps, q)[k] == q;
    assert(is_core(d, eps, min_pts, q));
}


/// Following parents from core point `p` ends at the first core point of `p`'s cluster;
/// core points along the way share their cluster in any DBSCAN labelling `l2` too.
proof fn lemma_descend(
    d: Seq<Seq<Ternary>>,
    eps: usize,
    min_pts: usize,
    l1: Seq<Option<usize>>,
    l2: Seq<Option<usize>>,
    par: Seq<int>,
    rank: Seq<nat>,
    p: int,
) -> (r: int)
    requires
        is_dbscan_labelling(d, eps, min_pts, l1),
        is_dbscan_labelling(d, eps, min_pts, l2),
        chain_witness(d, eps, min_pts, l1, par, rank),
        0 <= p < d.len(),
        is_core(d, eps, min_pts, p),
    ensures
        0 <= r < d.len(),
        is_core(d, eps, min_pts, r),
        is_cluster_root(d, eps, min_pts, l1, r),
        l1[r] == l1[p],
        l2[r] == l2[p],
    decreases rank[p],
{
    assert(l1[p] is Some);
    if is_cluster_root(d, eps, min_pts, l1, p) {
        p
    } else {
        assert(has_parent(d, eps, min_pts, l1, par, rank, p));
        let q = par[p];
        let r = lemma_descend(d, eps, min_pts, l1, l2, par, rank, q);
        lemma_dbscan_near_cores_share_cluster(d, eps, min_pts, l2, q, p);
        r
    }
}

/// A core point of cluster `f` has, at or before it, a core point of every cluster
/// `c <= f`.
proof fn lemma_earlier_clusters(
    d: Seq<Seq<Ternary>>,
    eps: usize,
    min_pts: usize,
    l: Seq<Option<usize>>,
    j: int,
    c: nat,
)
    requires
        is_dbscan_labelling(d, eps, min_pts, l),
        0 <= j < d.len(),
        is_core(d, eps, min_pts, j),
        l[j] is Some,
        c <= l[j]->0,
    ensures
        exists|i: int| 0 <= i <= j && #[trigger] is_core(d, eps, min_pts, i) && l[i] == Some(c as usize),
    decreases l[j]->0 - c,
{
    if l[j]->0 == c {
        assert(is_core(d, eps, min_pts, j));
    } else {
        let i = choose|i: int| 0 <= i < j && #[trigger] is_core(d, eps, min_pts, i) && l[i] == Some((l[j]->0 - 1) as usize);
        lemma_earlier_clusters(d, eps, min_pts, l, i, c);
        let i2 = choose|i2: int| 0 <= i2 <= i && #[trigger] is_core(d, eps, min_pts, i2) && l[i2] == Some(c as usize);
        assert(0 <= i2 <= j);
    }
}

/// If two DBSCAN labellings agree on the core points of every cluster below `c`, a core
/// point of cluster `c` in the first is in cluster `c` in the second.
proof fn lemma_cluster_number_agrees(
    d: Seq<Seq<Ternary>>,
    eps: usize,
    min_pts: usize,
    l1: Seq<Option<usize>>,
    l2: Seq<Option<usize>>,
    c: nat,
    p: int,
)
    requires
        is_dbscan_labelling(d, eps, min_pts, l1),
        is_dbscan_labelling(d, eps, min_pts, l2),
        forall|x: int|
            0 <= x < d.len() && #[trigger] is_core(d, eps, min_pts, x) && (l1[x]->0 < c || l2[x]->0 < c) ==> l1[x]
                == l2[x],
        0 <= p < d.len(),
        is_core(d, eps, min_pts, p),
        l1[p] == Some(c as usize),
        c <= usize::MAX,
    ensures
        l2[p] == Some(c as usize),
{
    assert(l2[p] is Some);
    let e = l2[p]->0;
    if e < c {
        assert(l1[p] == l2[p]);
    } else if e > c {
        let (par, rank) = choose|par: Seq<int>, rank: Seq<nat>| chain_witness(d, eps, min_pts, l1, par, rank);
        let r1 = lemma_descend(d, eps, min_pts, l1, l2, par, rank, p);
        assert(l2[r1] == Some(e));
        let i = choose|i: int| 0 <= i < r1 && #[trigger] is_core(d, eps, min_pts, i) && l2[i] == Some((e - 1) as usize);
        assert(l1[i] is Some);
        let f = l1[i]->0;
        if f < c {
            assert(l1[i] == l2[i]);
        } else if f == c {
            assert(r1 <= i);
        } else {
            lemma_earlier_clusters(d, eps, min_pts, l1, i, c);
            let i2 = choose|i2: int| 0 <= i2 <= i && #[trigger] is_core(d, eps, min_pts, i2) && l1[i2] == Some(c as usize);
            assert(r1 <= i2);
        }
    }
}

/// Two DBSCAN labellings put every core point in the same cluster, for clusters up to `c`.
proof fn lemma_core_labels_agree_upto(
    d: Seq<Seq<Ternary>>,
    eps: usize,
    min_pts: usize,
    l1: Seq<Option<usize>>,
    l2: Seq<Option<usize>>,
    c: nat,
)
    requires
        is_dbscan_labelling(d, eps, min_pts, l1),
        is_dbscan_labelling(d, eps, min_pts, l2),
        c <= usize::MAX + 1,
    ensures
        forall|x: int|
            0 <= x < d.len() && #[trigger] is_core(d, eps, min_pts, x) && (l1[x]->0 < c || l2[x]->0 < c) ==> l1[x]
                == l2[x],
    decreases c,
{
    if c > 0 {
        let c1 = (c - 1) as nat;
        lemma_core_labels_agree_upto(d, eps, min_pts, l1, l2, c1);
        assert forall|x: int|
            0 <= x < d.len() && #[trigger] is_core(d, eps, min_pts, x) && (l1[x]->0 < c || l2[x]->0 < c) implies l1[x]
            == l2[x] by {
            assert(l1[x] is Some);
            assert(l2[x] is Some);
            if l1[x]->0 < c1 || l2[x]->0 < c1 {
            } else if l1[x]->0 == c1 {
                lemma_cluster_number_agrees(d, eps, min_pts, l1, l2, c1, x);
            } else {
                assert(l2[x]->0 == c1);
                lemma_cluster_number_agrees(d, eps, min_pts, l2, l1, c1, x);
            }
        }
    }
}

/// Two DBSCAN labellings that agree on the core points agree on every point.
proof fn lemma_border_agrees(
    d: Seq<Seq<Ternary>>,
    eps: usize,
    min_pts: usize,
    l1: Seq<Option<usize>>,
    l2: Seq<Option<usize>>,
    q: int,
)
    requires
        is_dbscan_labelling(d, eps, min_pts, l1),
        is_dbscan_labelling(d, eps, min_pts, l2),
        forall|x: int| 0 <= x < d.len() && #[trigger] is_core(d, eps, min_pts, x) ==> l1[x] == l2[x],
        0 <= q < d.len(),
        !is_core(d, eps, min_pts, q),
    ensures
        l1[q] == l2[q],
{
    lemma_dbscan_noise(d, eps, min_pts, l1, q);
    lemma_dbscan_noise(d, eps, min_pts, l2, q);
    if l1[q] is Some {
        assert(l2[q] is Some);
        let p1 = choose|p: int|
            0 <= p < d.len() && is_core(d, eps, min_pts, p) && #[trigger] near(d, eps, p, q) && l1[p] == l1[q];
        let p2 = choose|p: int|
            0 <= p < d.len() && is_core(d, eps, min_pts, p) && #[trigger] near(d, eps, p, q) && l2[p] == l2[q];
        assert(l1[p1] == l2[p1]);
        assert(l1[p2] == l2[p2]);
        assert(l1[q]->0 <= l1[p2]->0);
        assert(l2[q]->0 <= l2[p1]->0);
    }
}

/// The labelling DBSCAN specifies is unique: any two labellings that meet the
/// specification are equal, so the specification fixes DBSCAN's result.
pub proof fn lemma_dbscan_labelling_unique(
    d: Seq<Seq<Ternary>>,
    eps: usize,
    min_pts: usize,
    l1: Seq<Option<usize>>,
    l2: Seq<Option<usize>>,
)
    requires
        is_dbscan_labelling(d, eps, min_pts, l1),
        is_dbscan_labelling(d, eps, min_pts, l2),
    ensures
        l1 == l2,
{
    lemma_core_labels_agree_upto(d, eps, min_pts, l1, l2, (usize::MAX + 1) as nat);
    assert forall|x: int| 0 <= x < d.len() && #[trigger] is_core(d, eps, min_pts, x) implies l1[x] == l2[x] by {
        assert(l1[x] is Some);
    }
    assert forall|q: int| 0 <= q < d.len() implies l1[q] == l2[q] by {
        if !is_core(d, eps, min_pts, q) {
            lemma_border_agrees(d, eps, min_pts, l1, l2, q);
        }
    }
    assert(l1 =~= l2);
}

/// The neighbourhood of a point is its Hamming ball: point `j` is in the neighbourhood
/// of point `i` exactly when the two differ in at most `eps` positions of their common
/// prefix.
pub proof fn lemma_neighbourhood_is_hamming_ball(d: Seq<Seq<Ternary>>, eps: usize, i: int, j: int)
    requires
        d.len() <= usize::MAX,
        0 <= i < d.len(),
        0 <= j < d.len(),
    ensures
        neighbors(d, eps, i).contains(j as usize) <==> hamming(d[i], d[j]) <= eps,
{
    lemma_neighbors(d, eps, i);
    let s = neighbors(d, eps, i);
    if hamming(d[i], d[j]) <= eps {
        assert(near(d, eps, i, j));
        let k = choose|k: int| 0 <= k < s.len() && #[trigger] s[k] == j;
        assert(s[k] == j as usize);
    }
    if s.contains(j as usize) {
        let k = choose|k: int| 0 <= k < s.len() && s[k] == j as usize;
        assert(near(d, eps, i, s[k] as int));
    }
}

/// A neighbourhood that holds two different points has at least two members.
proof fn lemma_two_members(d: Seq<Seq<Ternary>>, eps: usize, p: int, q: int)
    requires
        d.len() <= usize::MAX,
        0 <= p < d.len(),
        0 <= q < d.len(),
        p != q,
        hamming(d[p], d[q]) <= eps,
    ensures
        neighbors(d, eps, p).len() >= 2,
{
    lemma_neighbourhood_is_hamming_ball(d, eps, p, p);
    lemma_neighbourhood_is_hamming_ball(d, eps, p, q);
    lemma_distances_self(d[p]);
    let s = neighbors(d, eps, p);
    let k1 = choose|k: int| 0 <= k < s.len() && s[k] == p as usize;
    let k2 = choose|k: int| 0 <= k < s.len() && s[k] == q as usize;
    assert(k1 != k2);
}

/// With `min_pts <= 2`, two different points that differ in at most `eps` positions are
/// both clustered, and in the same cluster, in the DBSCAN labelling.
pub proof fn lemma_dbscan_hamming_close_pair(
    d: Seq<Seq<Ternary>>,
    eps: usize,
    min_pts: usize,
    l: Seq<Option<usize>>,
    p: int,
    q: int,
)
    requires
        d.len() <= usize::MAX,
        is_dbscan_labelling(d, eps, min_pts, l),
        min_pts <= 2,
        0 <= p < d.len(),
        0 <= q < d.len(),
        p != q,
        hamming(d[p], d[q]) <= eps,
    ensures
        l[p] is Some,
        l[q] is Some,
        l[p] == l[q],
{
    lemma_distances_symmetric(d[p], d[q]);
    lemma_two_members(d, eps, p, q);
    lemma_two_members(d, eps, q, p);
    assert(near(d, eps, p, q));
    lemma_dbscan_near_cores_share_cluster(d, eps, min_pts, l, p, q);
}

} // verus!
