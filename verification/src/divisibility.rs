//! Divisibility and primality over the integers, with the lemmas that the
//! rest of the crate builds on.

use vstd::arithmetic::div_mod::{
    lemma_fundamental_div_mod, lemma_fundamental_div_mod_converse, lemma_small_mod,
};
use vstd::prelude::*;

verus! {

/// `d` is a positive divisor of `n`.
pub open spec fn divides(d: int, n: int) -> bool {
    0 < d && n % d == 0
}

/// `p` is a prime number: at least two, with no divisor strictly between one
/// and itself.
pub open spec fn is_prime(p: int) -> bool {
    &&& 2 <= p
    &&& forall|d: int| 1 < d < p ==> !#[trigger] divides(d, p)
}

/// `p` is the least prime that divides `n`.
pub open spec fn is_smallest_prime_factor(n: int, p: int) -> bool {
    &&& is_prime(p)
    &&& divides(p, n)
    &&& forall|q: int| is_prime(q) && #[trigger] divides(q, n) ==> p <= q
}

/// A number has at most one smallest prime factor.
pub proof fn lemma_smallest_prime_factor_unique(n: int, p: int, q: int)
    requires
        is_smallest_prime_factor(n, p),
        is_smallest_prime_factor(n, q),
    ensures
        p == q,
{
}

/// A number that `d` divides is `d` times its quotient by `d`.
pub proof fn lemma_divides_quotient(d: int, n: int)
    requires
        divides(d, n),
    ensures
        n == d * (n / d),
{
    lemma_fundamental_div_mod(n, d);
}

/// Every multiple `d * q` of a positive `d` is divisible by `d`, with
/// quotient `q`.
pub proof fn lemma_multiple_divides(d: int, q: int)
    requires
        0 < d,
    ensures
        divides(d, d * q),
        (d * q) / d == q,
{
    assert(d * q == q * d + 0) by (nonlinear_arith);
    lemma_fundamental_div_mod_converse(d * q, d, q, 0);
}

/// Divisibility is transitive.
pub proof fn lemma_divides_transitive(a: int, b: int, c: int)
    requires
        divides(a, b),
        divides(b, c),
    ensures
        divides(a, c),
{
    lemma_divides_quotient(a, b);
    lemma_divides_quotient(b, c);
    let x = b / a;
    let y = c / b;
    assert(c == a * (x * y)) by (nonlinear_arith)
        requires
            b == a * x,
            c == b * y,
    ;
    lemma_multiple_divides(a, x * y);
}

/// A divisor of a positive number is at most that number, and so is the
/// quotient, which is positive.
pub proof fn lemma_divisor_bounds(d: int, n: int)
    requires
        divides(d, n),
        0 < n,
    ensures
        d <= n,
        1 <= n / d <= n,
{
    lemma_divides_quotient(d, n);
    let q = n / d;
    assert(1 <= q && d <= n && q <= n) by (nonlinear_arith)
        requires
            n == d * q,
            0 < d,
            0 < n,
    ;
}

/// Dividing a positive number by a divisor from two on gives a positive
/// quotient that is strictly smaller.
pub proof fn lemma_quotient_decreases(d: int, n: int)
    requires
        divides(d, n),
        0 < n,
        2 <= d,
    ensures
        1 <= n / d < n,
        n == d * (n / d),
{
    lemma_divides_quotient(d, n);
    let q = n / d;
    assert(1 <= q < n) by (nonlinear_arith)
        requires
            n == d * q,
            2 <= d,
            0 < n,
    ;
}

/// A number strictly between zero and `d` is not divisible by `d`.
pub proof fn lemma_small_not_divisible(d: int, r: int)
    requires
        0 < r < d,
    ensures
        !divides(d, r),
{
    lemma_small_mod(r as nat, d as nat);
}

/// The only prime that divides a prime `p` is `p` itself.
pub proof fn lemma_prime_divisor_of_prime(q: int, p: int)
    requires
        is_prime(p),
        is_prime(q),
        divides(q, p),
    ensures
        q == p,
{
    lemma_divisor_bounds(q, p);
}

/// Every number from two on has a prime divisor; the lemma hands one out.
pub proof fn lemma_prime_factor_exists(n: int) -> (p: int)
    requires
        2 <= n,
    ensures
        is_prime(p),
        divides(p, n),
    decreases n,
{
    if is_prime(n) {
        lemma_multiple_divides(n, 1);
        n
    } else {
        let d = choose|d: int| 1 < d < n && divides(d, n);
        let p = lemma_prime_factor_exists(d);
        lemma_divides_transitive(p, d, n);
        p
    }
}

/// Euclid's lemma: a prime that divides a product of two natural numbers
/// divides one of them.
pub proof fn lemma_prime_divides_product(p: int, a: int, b: int)
    requires
        is_prime(p),
        0 <= a,
        0 <= b,
        divides(p, a * b),
    ensures
        divides(p, a) || divides(p, b),
    decreases a,
{
    if a % p != 0 {
        lemma_divides_quotient(p, a * b);
        let w = (a * b) / p;
        if a >= p {
            // Replace `a` by its remainder modulo `p`.
            lemma_fundamental_div_mod(a, p);
            let r = a % p;
            let s = a / p;
            assert(r * b == p * (w - s * b)) by (nonlinear_arith)
                requires
                    a == p * s + r,
                    a * b == p * w,
            ;
            lemma_multiple_divides(p, w - s * b);
            lemma_prime_divides_product(p, r, b);
            lemma_small_not_divisible(p, r);
        } else {
            // Replace `a` by the remainder of `p` modulo `a`.
            lemma_fundamental_div_mod(p, a);
            let t = p % a;
            let s = p / a;
            if t == 0 {
                assert(divides(a, p));
                assert(a == 1);
                assert(a * b == b) by (nonlinear_arith)
                    requires
                        a == 1,
                ;
            } else {
                assert(t * b == p * (b - s * w)) by (nonlinear_arith)
                    requires
                        p == a * s + t,
                        a * b == p * w,
                ;
                lemma_multiple_divides(p, b - s * w);
                lemma_prime_divides_product(p, t, b);
                lemma_small_not_divisible(p, t);
            }
        }
    }
}

} // verus!
