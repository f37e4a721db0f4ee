//! Distances between ternary vectors.
//!
//! Both distances compare the vectors position by position over their common
//! prefix (the shorter length), as zipping the two vectors does.

use vstd::prelude::*;
use crate::ternary::{Ternary, tval};

verus! {

/// The number of positions that two vectors are compared on.
pub open spec fn common_len(a: Seq<Ternary>, b: Seq<Ternary>) -> nat {
    if a.len() <= b.len() { a.len() } else { b.len() }
}

/// The squared difference of two ternary values.
pub open spec fn sq_diff(x: Ternary, y: Ternary) -> int {
    (tval(x) - tval(y)) * (tval(x) - tval(y))
}

/// Sum of squared differences over the first `m` positions.
pub open spec fn sq_dist_upto(a: Seq<Ternary>, b: Seq<Ternary>, m: nat) -> int
    decreases m,
{
    if m == 0 {
        0
    } else {
        sq_dist_upto(a, b, (m - 1) as nat) + sq_diff(a[m - 1], b[m - 1])
    }
}

/// Squared Euclidean distance: the sum of `(a_i - b_i)^2` over the common prefix.
pub open spec fn sq_dist(a: Seq<Ternary>, b: Seq<Ternary>) -> int {
    sq_dist_upto(a, b, common_len(a, b))
}

/// Number of differing positions among the first `m`.
pub open spec fn hamming_upto(a: Seq<Ternary>, b: Seq<Ternary>, m: nat) -> nat
    decreases m,
{
    if m == 0 {
        0
    } else {
        hamming_upto(a, b, (m - 1) as nat) + if a[m - 1] != b[m - 1] { 1nat } else { 0nat }
    }
}

/// Hamming distance: the number of positions of the common prefix where the vectors differ.
pub open spec fn hamming(a: Seq<Ternary>, b: Seq<Ternary>) -> nat {
    hamming_upto(a, b, common_len(a, b))
}

/// The largest common length for which the squared distance is sure to fit in an `i64`.
pub open spec fn sq_dist_fits(a: Seq<Ternary>, b: Seq<Ternary>) -> bool {
    common_len(a, b) * 4 <= i64::MAX
}

/// Squares of the differences that two ternary values can have.
proof fn lemma_small_square(d: int)
    requires
        -2 <= d <= 2,
    ensures
        d * d == (if d == 0 { 0int } else if d == 1 || d == -1 { 1int } else { 4int }),
{
    if d == 0 {
    } else if d == 1 {
    } else if d == -1 {
    } else if d == 2 {
        assert(d * d == 4) by (nonlinear_arith) requires d == 2;
    } else {
        assert(d * d == 4) by (nonlinear_arith) requires d == -2;
    }
}

/// A squared difference of ternary values is 0 (equal), 1 (adjacent) or 4 (opposite).
pub proof fn lemma_sq_diff_values(x: Ternary, y: Ternary)
    ensures
        x == y ==> sq_diff(x, y) == 0,
        x != y ==> (sq_diff(x, y) == 1 || sq_diff(x, y) == 4),
        sq_diff(x, y) == sq_diff(y, x),
        0 <= sq_diff(x, y) <= 4,
{
    lemma_small_square(tval(x) - tval(y));
    lemma_small_square(tval(y) - tval(x));
}

/// Bounds on the prefix sums: each position adds 0, 1 or 4, and 0 exactly where the
/// values agree.
pub proof fn lemma_upto_bounds(a: Seq<Ternary>, b: Seq<Ternary>, m: nat)
    requires
        m <= common_len(a, b),
    ensures
        hamming_upto(a, b, m) <= m,
        hamming_upto(a, b, m) <= sq_dist_upto(a, b, m) <= 4 * hamming_upto(a, b, m),
        sq_dist_upto(a, b, m) == sq_dist_upto(b, a, m),
        hamming_upto(a, b, m) == hamming_upto(b, a, m),
    decreases m,
{
    if m > 0 {
        lemma_upto_bounds(a, b, (m - 1) as nat);
        lemma_sq_diff_values(a[m - 1], b[m - 1]);
    }
}

/// Compute the squared Euclidean distance between two ternary vectors.
pub fn ternary_sq_distance(a: &[Ternary], b: &[Ternary]) -> (d: i64)
    requires
        sq_dist_fits(a@, b@),
    ensures
        d == sq_dist(a@, b@),
{
    let n: usize = if a.len() <= b.len() { a.len() } else { b.len() };
    let mut s: i64 = 0;
    let mut i: usize = 0;
    while i < n
        invariant
            n == common_len(a@, b@),
            n * 4 <= i64::MAX,
            i <= n,
            s == sq_dist_upto(a@, b@, i as nat),
            0 <= s <= 4 * i,
        decreases n - i,
    {
        let x: i64 = a[i].to_i8() as i64;
        let y: i64 = b[i].to_i8() as i64;
        let diff: i64 = x - y;
        proof {
            lemma_sq_diff_values(a@[i as int], b@[i as int]);
        }
        assert(diff * diff == sq_diff(a@[i as int], b@[i as int]));
        s = s + diff * diff;
        i = i + 1;
    }
    s
}

/// Compute Hamming distance between two ternary vectors (count of differing positions).
pub fn hamming_distance(a: &[Ternary], b: &[Ternary]) -> (d: usize)
    ensures
        d == hamming(a@, b@),
{
    let n: usize = if a.len() <= b.len() { a.len() } else { b.len() };
    let mut count: usize = 0;
    let mut i: usize = 0;
    while i < n
        invariant
            n == common_len(a@, b@),
            i <= n,
            count == hamming_upto(a@, b@, i as nat),
        decreases n - i,
    {
        proof {
            lemma_upto_bounds(a@, b@, i as nat);
        }
        if a[i] != b[i] {
            count = count + 1;
        }
        i = i + 1;
    }
    count
}

} // verus!

verus! {

/// Both distances are symmetric.
pub proof fn lemma_distances_symmetric(a: Seq<Ternary>, b: Seq<Ternary>)
    ensures
        hamming(a, b) == hamming(b, a),
        sq_dist(a, b) == sq_dist(b, a),
{
    lemma_upto_bounds(a, b, common_len(a, b));
}

/// A vector is at distance 0 from itself, in both distances.
pub proof fn lemma_distances_self(a: Seq<Ternary>)
    ensures
        hamming(a, a) == 0,
        sq_dist(a, a) == 0,
{
    lemma_self_upto(a, a.len());
}

proof fn lemma_self_upto(a: Seq<Ternary>, m: nat)
    requires
        m <= a.len(),
    ensures
        hamming_upto(a, a, m) == 0,
        sq_dist_upto(a, a, m) == 0,
    decreases m,
{
    if m > 0 {
        lemma_self_upto(a, (m - 1) as nat);
        lemma_sq_diff_values(a[m - 1], a[m - 1]);
    }
}

/// Ranges of the distances over `D` compared positions: the Hamming distance lies in
/// `[0, D]`, the squared distance in `[0, 4D]`, and the squared distance lies between
/// the Hamming distance and four times it.
pub proof fn lemma_distance_ranges(a: Seq<Ternary>, b: Seq<Ternary>)
    ensures
        hamming(a, b) <= common_len(a, b),
        0 <= sq_dist(a, b) <= 4 * common_len(a, b),
        hamming(a, b) <= sq_dist(a, b) <= 4 * hamming(a, b),
{
    lemma_upto_bounds(a, b, common_len(a, b));
}

/// The Hamming count over the first `m` positions is 0 exactly where the vectors agree
/// on all of them.
proof fn lemma_hamming_upto_zero(a: Seq<Ternary>, b: Seq<Ternary>, m: nat)
    requires
        m <= common_len(a, b),
    ensures
        hamming_upto(a, b, m) == 0 <==> forall|i: int| 0 <= i < m ==> #[trigger] a[i] == b[i],
    decreases m,
{
    if m > 0 {
        lemma_hamming_upto_zero(a, b, (m - 1) as nat);
        if hamming_upto(a, b, m) == 0 {
            assert forall|i: int| 0 <= i < m implies #[trigger] a[i] == b[i] by {
                if i < m - 1 {
                    assert(0 <= i < m - 1);
                }
            }
        }
    }
}

/// Both distances are 0 exactly when the vectors agree on their common prefix.
pub proof fn lemma_distance_zero(a: Seq<Ternary>, b: Seq<Ternary>)
    ensures
        hamming(a, b) == 0 <==> a.take(common_len(a, b) as int) == b.take(common_len(a, b) as int),
        sq_dist(a, b) == 0 <==> a.take(common_len(a, b) as int) == b.take(common_len(a, b) as int),
{
    let m = common_len(a, b);
    lemma_hamming_upto_zero(a, b, m);
    lemma_distance_ranges(a, b);
    if hamming(a, b) == 0 {
        assert(a.take(m as int) =~= b.take(m as int));
    }
    if a.take(m as int) == b.take(m as int) {
        assert forall|i: int| 0 <= i < m implies #[trigger] a[i] == b[i] by {
            assert(a.take(m as int)[i] == b.take(m as int)[i]);
        }
    }
}

} // verus!
