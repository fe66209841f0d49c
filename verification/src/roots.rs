//! Integer square roots.

use vstd::arithmetic::div_mod::{lemma_fundamental_div_mod, lemma_mod_bound};
use vstd::prelude::*;

verus! {

/// `r` is the integer square root of `n`: the largest natural number whose
/// square does not exceed `n`.
pub open spec fn is_floor_sqrt(n: int, r: int) -> bool {
    0 <= r && r * r <= n < (r + 1) * (r + 1)
}

/// The integer square root of a natural number `n`.
pub open spec fn floor_sqrt(n: int) -> int {
    choose|r: int| is_floor_sqrt(n, r)
}

/// A number has at most one integer square root, so whatever meets
/// `is_floor_sqrt` is `floor_sqrt`.
pub proof fn lemma_floor_sqrt_unique(n: int, r: int)
    requires
        is_floor_sqrt(n, r),
    ensures
        r == floor_sqrt(n),
{
    let s = floor_sqrt(n);
    assert(is_floor_sqrt(n, s));
    if r < s {
        assert((r + 1) * (r + 1) <= s * s) by (nonlinear_arith)
            requires
                0 <= r,
                r + 1 <= s,
        ;
    }
    if s < r {
        assert((s + 1) * (s + 1) <= r * r) by (nonlinear_arith)
            requires
                0 <= s,
                s + 1 <= r,
        ;
    }
}

/// For a positive `m`, comparing `m` with the quotient `n / m` decides
/// whether the square of `m` exceeds `n`.
pub proof fn lemma_square_le_iff_quotient(m: int, n: int)
    requires
        0 < m,
        0 <= n,
    ensures
        m * m <= n <==> m <= n / m,
{
    lemma_fundamental_div_mod(n, m);
    lemma_mod_bound(n, m);
    let q = n / m;
    if m <= q {
        assert(m * m <= m * q) by (nonlinear_arith)
            requires
                0 < m <= q,
        ;
    } else {
        assert(m * (q + 1) <= m * m) by (nonlinear_arith)
            requires
                0 < m,
                q + 1 <= m,
        ;
        assert(m * (q + 1) == m * q + m) by (nonlinear_arith);
    }
}

/// Computes the integer square root of `n` by bisection.
pub fn integer_sqrt(n: usize) -> (r: usize)
    ensures
        is_floor_sqrt(n as int, r as int),
        r == floor_sqrt(n as int),
{
    let mut lo: usize = 0;
    let mut hi: usize = n;
    assert((n + 1) * (n + 1) > n) by (nonlinear_arith);
    while lo < hi
        invariant
            lo <= hi <= n,
            lo * lo <= n,
            n < (hi + 1) * (hi + 1),
        decreases hi - lo,
    {
        let mid: usize = hi - (hi - lo) / 2;
        proof {
            lemma_square_le_iff_quotient(mid as int, n as int);
        }
        if mid <= n / mid {
            lo = mid;
        } else {
            hi = mid - 1;
        }
    }
    proof {
        lemma_floor_sqrt_unique(n as int, lo as int);
    }
    lo
}

} // verus!
