//! The exponent with which a prime occurs in a number, and what it says
//! about products and divisors.

use crate::divisibility::{
    divides, is_prime, lemma_divides_quotient, lemma_divisor_bounds, lemma_multiple_divides,
    lemma_prime_divides_product, lemma_prime_divisor_of_prime, lemma_prime_factor_exists,
    lemma_quotient_decreases, lemma_small_not_divisible,
};
use vstd::arithmetic::power::{lemma_pow0, pow};
use vstd::prelude::*;

verus! {

/// How many times `p` can be divided out of `n`: the exponent of `p` in `n`.
/// It is zero where `n` is not positive or `p` is less than two.
pub open spec fn multiplicity(n: int, p: int) -> nat
    decreases n,
{
    if 2 <= p && 1 <= n && n % p == 0 {
        proof {
            lemma_quotient_decreases(p, n);
        }
        1 + multiplicity(n / p, p)
    } else {
        0
    }
}

/// What is left of `n` once every factor `p` has been divided out.
pub open spec fn without_factor(n: int, p: int) -> int
    decreases n,
{
    if 2 <= p && 1 <= n && n % p == 0 {
        proof {
            lemma_quotient_decreases(p, n);
        }
        without_factor(n / p, p)
    } else {
        n
    }
}

/// No prime occurs in `x` more often than in `n`.
pub open spec fn exponents_bounded(x: int, n: int) -> bool {
    forall|q: int| is_prime(q) ==> #[trigger] multiplicity(x, q) <= multiplicity(n, q)
}

/// Multiplying by `p` raises the exponent of `p` by one and leaves the rest
/// alone.
pub proof fn lemma_multiplicity_times_base(a: int, p: int)
    requires
        1 <= a,
        2 <= p,
    ensures
        multiplicity(a * p, p) == multiplicity(a, p) + 1,
        without_factor(a * p, p) == without_factor(a, p),
{
    assert(a * p == p * a) by (nonlinear_arith);
    assert(1 <= p * a) by (nonlinear_arith)
        requires
            1 <= a,
            2 <= p,
    ;
    lemma_multiple_divides(p, a);
}

/// A number splits into a power of `p` and a positive rest that `p` does not
/// divide.
pub proof fn lemma_factor_split(n: int, p: int)
    requires
        1 <= n,
        2 <= p,
    ensures
        n == without_factor(n, p) * pow(p, multiplicity(n, p)),
        1 <= without_factor(n, p) <= n,
        !divides(p, without_factor(n, p)),
        multiplicity(without_factor(n, p), p) == 0,
    decreases n,
{
    if n % p == 0 {
        lemma_quotient_decreases(p, n);
        let m = n / p;
        lemma_factor_split(m, p);
        let r = without_factor(m, p);
        let e = multiplicity(m, p);
        assert(pow(p, e + 1) == p * pow(p, e)) by {
            reveal(pow);
        }
        assert(n == r * pow(p, e + 1)) by (nonlinear_arith)
            requires
                n == p * m,
                m == r * pow(p, e),
                pow(p, e + 1) == p * pow(p, e),
        ;
    } else {
        lemma_pow0(p);
    }
}

/// Where `p` does not divide `d`, the product of `d` with the `i`-th power of
/// `p` holds `p` exactly `i` times, and dividing `p` out gives `d` back.
pub proof fn lemma_multiplicity_times_power(d: int, p: int, i: nat)
    requires
        1 <= d,
        2 <= p,
        !divides(p, d),
    ensures
        1 <= d * pow(p, i),
        multiplicity(d * pow(p, i), p) == i,
        without_factor(d * pow(p, i), p) == d,
    decreases i,
{
    if i == 0 {
        lemma_pow0(p);
        assert(d * 1 == d);
    } else {
        let j = (i - 1) as nat;
        lemma_multiplicity_times_power(d, p, j);
        assert(pow(p, i) == p * pow(p, j)) by {
            reveal(pow);
        }
        assert(d * pow(p, i) == (d * pow(p, j)) * p) by (nonlinear_arith)
            requires
                pow(p, i) == p * pow(p, j),
        ;
        lemma_multiplicity_times_base(d * pow(p, j), p);
        assert(1 <= (d * pow(p, j)) * p) by (nonlinear_arith)
            requires
                1 <= d * pow(p, j),
                2 <= p,
        ;
    }
}

/// Multiplying by a prime `p` does not change the exponent of another prime
/// `q`.
pub proof fn lemma_multiplicity_times_other_prime(a: int, p: int, q: int)
    requires
        1 <= a,
        is_prime(p),
        is_prime(q),
        p != q,
    ensures
        multiplicity(a * p, q) == multiplicity(a, q),
    decreases a,
{
    assert(1 <= a * p) by (nonlinear_arith)
        requires
            1 <= a,
            2 <= p,
    ;
    if a % q == 0 {
        lemma_quotient_decreases(q, a);
        let b = a / q;
        lemma_multiplicity_times_other_prime(b, p, q);
        assert(a * p == q * (b * p)) by (nonlinear_arith)
            requires
                a == q * b,
        ;
        lemma_multiple_divides(q, b * p);
    } else {
        if (a * p) % q == 0 {
            lemma_prime_divides_product(q, a, p);
            lemma_prime_divisor_of_prime(q, p);
        }
    }
}

/// Multiplying by a power of a prime `p` does not change the exponent of
/// another prime `q`.
pub proof fn lemma_multiplicity_times_other_power(d: int, p: int, i: nat, q: int)
    requires
        1 <= d,
        is_prime(p),
        is_prime(q),
        p != q,
    ensures
        1 <= d * pow(p, i),
        multiplicity(d * pow(p, i), q) == multiplicity(d, q),
    decreases i,
{
    if i == 0 {
        lemma_pow0(p);
        assert(d * 1 == d);
    } else {
        let j = (i - 1) as nat;
        lemma_multiplicity_times_other_power(d, p, j, q);
        assert(pow(p, i) == p * pow(p, j)) by {
            reveal(pow);
        }
        assert(d * pow(p, i) == (d * pow(p, j)) * p) by (nonlinear_arith)
            requires
                pow(p, i) == p * pow(p, j),
        ;
        lemma_multiplicity_times_other_prime(d * pow(p, j), p, q);
        assert(1 <= (d * pow(p, j)) * p) by (nonlinear_arith)
            requires
                1 <= d * pow(p, j),
                2 <= p,
        ;
    }
}

/// The exponent of a prime in a product is the sum of its exponents in the
/// factors.
pub proof fn lemma_multiplicity_of_product(a: int, b: int, q: int)
    requires
        1 <= a,
        1 <= b,
        is_prime(q),
    ensures
        multiplicity(a * b, q) == multiplicity(a, q) + multiplicity(b, q),
    decreases b,
{
    if b == 1 {
        assert(a * 1 == a);
        lemma_small_not_divisible(q, 1);
    } else {
        let r = lemma_prime_factor_exists(b);
        lemma_quotient_decreases(r, b);
        let c = b / r;
        lemma_multiplicity_of_product(a, c, q);
        assert(1 <= a * c) by (nonlinear_arith)
            requires
                1 <= a,
                1 <= c,
        ;
        assert(a * b == (a * c) * r && b == c * r) by (nonlinear_arith)
            requires
                b == r * c,
        ;
        if r == q {
            lemma_multiplicity_times_base(a * c, q);
            lemma_multiplicity_times_base(c, q);
        } else {
            lemma_multiplicity_times_other_prime(a * c, r, q);
            lemma_multiplicity_times_other_prime(c, r, q);
        }
    }
}

/// The only positive number in which no prime occurs is one.
pub proof fn lemma_no_prime_means_one(x: int)
    requires
        1 <= x,
        forall|q: int| is_prime(q) ==> #[trigger] multiplicity(x, q) == 0,
    ensures
        x == 1,
{
    if x >= 2 {
        let r = lemma_prime_factor_exists(x);
        assert(multiplicity(x, r) >= 1);
    }
}

/// Among positive numbers, `x` divides `n` exactly when no prime occurs in
/// `x` more often than in `n`.
pub proof fn lemma_divides_iff_exponents_bounded(x: int, n: int)
    requires
        1 <= x,
        1 <= n,
    ensures
        divides(x, n) <==> exponents_bounded(x, n),
{
    if divides(x, n) {
        lemma_divisor_bounds(x, n);
        lemma_divides_quotient(x, n);
        let c = n / x;
        assert forall|q: int| is_prime(q) implies #[trigger] multiplicity(x, q) <= multiplicity(
            n,
            q,
        ) by {
            lemma_multiplicity_of_product(x, c, q);
        }
    }
    if exponents_bounded(x, n) {
        lemma_exponents_bounded_divides(x, n);
    }
}

/// The harder half of `lemma_divides_iff_exponents_bounded`: a number in
/// which no prime occurs more often than in `n` divides `n`.
proof fn lemma_exponents_bounded_divides(x: int, n: int)
    requires
        1 <= x,
        1 <= n,
        exponents_bounded(x, n),
    ensures
        divides(x, n),
    decreases x,
{
    if x == 1 {
        assert(n % 1 == 0);
    } else {
        // A prime `r` of `x` occurs in `n` too; divide it out of both.
        let r = lemma_prime_factor_exists(x);
        assert(multiplicity(x, r) >= 1);
        assert(multiplicity(n, r) >= 1);
        lemma_quotient_decreases(r, x);
        lemma_quotient_decreases(r, n);
        let y = x / r;
        let m = n / r;
        assert(x == y * r && n == m * r) by (nonlinear_arith)
            requires
                x == r * y,
                n == r * m,
        ;
        assert forall|q: int| is_prime(q) implies #[trigger] multiplicity(y, q) <= multiplicity(
            m,
            q,
        ) by {
            assert(multiplicity(x, q) <= multiplicity(n, q));
            if q == r {
                lemma_multiplicity_times_base(y, r);
                lemma_multiplicity_times_base(m, r);
            } else {
                lemma_multiplicity_times_other_prime(y, r, q);
                lemma_multiplicity_times_other_prime(m, r, q);
            }
        }
        lemma_exponents_bounded_divides(y, m);
        lemma_divides_quotient(y, m);
        let c = m / y;
        assert(n == x * c) by (nonlinear_arith)
            requires
                n == r * m,
                x == r * y,
                m == y * c,
        ;
        lemma_multiple_divides(x, c);
    }
}

} // verus!
