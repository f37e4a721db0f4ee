//! Exact comparison of non-negative fractions.

use vstd::prelude::*;

verus! {

/// `x < y` for fractions with positive denominators.
pub open spec fn frac_lt(x: (int, int), y: (int, int)) -> bool {
    x.0 * y.1 < y.0 * x.1
}

/// Comparing fractions by whole parts first and then by the remainders agrees with
/// comparing the cross products.
pub proof fn lemma_frac_lt_by_parts(n1: int, d1: int, n2: int, d2: int)
    requires
        n1 >= 0,
        n2 >= 0,
        d1 > 0,
        d2 > 0,
    ensures
        frac_lt((n1, d1), (n2, d2)) == (n1 / d1 < n2 / d2 || (n1 / d1 == n2 / d2 && (n1 % d1) * d2 < (n2 % d2) * d1)),
{
    let q1 = n1 / d1;
    let r1 = n1 % d1;
    let q2 = n2 / d2;
    let r2 = n2 % d2;
    assert(n1 == q1 * d1 + r1 && 0 <= r1 < d1) by (nonlinear_arith)
        requires
            d1 > 0,
            q1 == n1 / d1,
            r1 == n1 % d1,
    ;
    assert(n2 == q2 * d2 + r2 && 0 <= r2 < d2) by (nonlinear_arith)
        requires
            d2 > 0,
            q2 == n2 / d2,
            r2 == n2 % d2,
    ;
    assert(n1 * d2 == q1 * d1 * d2 + r1 * d2) by (nonlinear_arith)
        requires
            n1 == q1 * d1 + r1,
    ;
    assert(n2 * d1 == q2 * d1 * d2 + r2 * d1) by (nonlinear_arith)
        requires
            n2 == q2 * d2 + r2,
    ;
    assert(0 <= r1 * d2 < d1 * d2) by (nonlinear_arith)
        requires
            0 <= r1 < d1,
            d2 > 0,
    ;
    assert(0 <= r2 * d1 < d1 * d2) by (nonlinear_arith)
        requires
            0 <= r2 < d2,
            d1 > 0,
    ;
    if q1 < q2 {
        assert(q1 * d1 * d2 + d1 * d2 <= q2 * d1 * d2) by (nonlinear_arith)
            requires
                q1 < q2,
                d1 > 0,
                d2 > 0,
        ;
    } else if q1 > q2 {
        assert(q2 * d1 * d2 + d1 * d2 <= q1 * d1 * d2) by (nonlinear_arith)
            requires
                q2 < q1,
                d1 > 0,
                d2 > 0,
        ;
    }
}

/// `n1 / d1 < n2 / d2`, for any positive denominators: whole parts are compared first,
/// then the remainders, by comparing the reciprocal fractions (as in Euclid's algorithm),
/// so no product is ever formed.
pub fn frac_less(n1: u128, d1: u128, n2: u128, d2: u128) -> (r: bool)
    requires
        d1 > 0,
        d2 > 0,
    ensures
        r == frac_lt((n1 as int, d1 as int), (n2 as int, d2 as int)),
    decreases d1 + d2,
{
    proof {
        lemma_frac_lt_by_parts(n1 as int, d1 as int, n2 as int, d2 as int);
    }
    let q1 = n1 / d1;
    let q2 = n2 / d2;
    if q1 != q2 {
        return q1 < q2;
    }
    let r1 = n1 % d1;
    let r2 = n2 % d2;
    if r2 == 0 {
        assert(r1 * d2 >= 0 && r2 * d1 == 0) by (nonlinear_arith)
            requires
                r1 >= 0,
                d2 > 0,
                r2 == 0,
        ;
        false
    } else if r1 == 0 {
        assert(r2 * d1 > 0 && r1 * d2 == 0) by (nonlinear_arith)
            requires
                r2 > 0,
                d1 > 0,
                r1 == 0,
        ;
        true
    } else {
        assert(r1 * d2 == d2 * r1 && r2 * d1 == d1 * r2) by (nonlinear_arith);
        frac_less(d2, r2, d1, r1)
    }
}

/// `x < y <= z` gives `x < z`, for fractions with positive denominators.
pub proof fn lemma_frac_lt_le(x: (int, int), y: (int, int), z: (int, int))
    requires
        x.1 > 0,
        y.1 > 0,
        z.1 > 0,
        frac_lt(x, y),
        !frac_lt(z, y),
    ensures
        frac_lt(x, z),
        !frac_lt(z, x),
{
    assert(x.0 * z.1 < z.0 * x.1) by (nonlinear_arith)
        requires
            x.0 * y.1 < y.0 * x.1,
            z.0 * y.1 >= y.0 * z.1,
            x.1 > 0,
            y.1 > 0,
            z.1 > 0,
    ;
}

/// `z <= y < x` gives `z < x`, for fractions with positive denominators.
pub proof fn lemma_frac_le_lt(x: (int, int), y: (int, int), z: (int, int))
    requires
        x.1 > 0,
        y.1 > 0,
        z.1 > 0,
        !frac_lt(y, z),
        frac_lt(y, x),
    ensures
        frac_lt(z, x),
        !frac_lt(x, z),
{
    assert(z.0 * x.1 < x.0 * z.1) by (nonlinear_arith)
        requires
            y.0 * z.1 >= z.0 * y.1,
            y.0 * x.1 < x.0 * y.1,
            x.1 > 0,
            y.1 > 0,
            z.1 > 0,
    ;
}

} // verus!
