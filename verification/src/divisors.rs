//! The divisors of a square that lie below its root.

use crate::divisibility::{
    divides, is_prime, lemma_divides_quotient, lemma_divisor_bounds, lemma_multiple_divides,
    lemma_quotient_decreases, lemma_small_not_divisible,
};
use crate::factorization::prime_factorization;
use crate::multiplicity::{
    exponents_bounded, lemma_divides_iff_exponents_bounded, lemma_factor_split,
    lemma_multiplicity_of_product, lemma_multiplicity_times_other_power,
    lemma_multiplicity_times_power, lemma_no_prime_means_one, multiplicity, without_factor,
};
use crate::sieve::is_sieve_table;
use vstd::arithmetic::power::{lemma_pow0, lemma_pow_increases, pow};
use vstd::prelude::*;
use vstd::relations::injective_on;
use vstd::set_lib::{
    lemma_int_range, lemma_map_size, lemma_set_disjoint_lens, lemma_set_subset_finite,
    set_int_range,
};
use vstd::std_specs::hash::*;
use vstd::std_specs::iter::IteratorSpec;

verus! {

/// `d` is a divisor of the square of `k` that is smaller than `k`.
pub open spec fn is_small_square_divisor(d: int, k: int) -> bool {
    divides(d, k * k) && d < k
}

/// The positive divisors of `n`.
pub open spec fn divisors_of(n: int) -> Set<int> {
    Set::new(|d: int| divides(d, n))
}

/// The most often that a prime `q` may occur in a divisor built from the
/// primes in `done`: twice as often as in `k` for those primes, never for
/// the others.
spec fn exponent_cap(k: int, done: Set<int>, q: int) -> nat {
    if done.contains(q) {
        2 * multiplicity(k, q)
    } else {
        0
    }
}

/// Every prime occurs in `x` at most as often as `exponent_cap` allows.
spec fn within_caps(x: int, k: int, done: Set<int>) -> bool {
    forall|q: int| is_prime(q) ==> #[trigger] multiplicity(x, q) <= exponent_cap(k, done, q)
}

/// Twice the exponent of `p` in a positive `n` is at most `n`.
proof fn lemma_double_multiplicity_bound(n: int, p: int)
    requires
        1 <= n,
    ensures
        2 * multiplicity(n, p) <= n,
    decreases n,
{
    if 2 <= p && n % p == 0 {
        lemma_quotient_decreases(p, n);
        let m = n / p;
        lemma_double_multiplicity_bound(m, p);
        if m == 1 {
            lemma_small_not_divisible(p, 1);
        } else {
            assert(2 * m <= n) by (nonlinear_arith)
                requires
                    n == p * m,
                    2 <= p,
                    1 <= m,
            ;
        }
    }
}

/// One is the only positive number that is within the caps of no prime at
/// all.
proof fn lemma_within_no_caps(x: int, k: int)
    requires
        1 <= x,
    ensures
        within_caps(x, k, Set::empty()) <==> x == 1,
{
    if within_caps(x, k, Set::empty()) {
        assert forall|q: int| is_prime(q) implies #[trigger] multiplicity(x, q) == 0 by {
            assert(multiplicity(x, q) <= exponent_cap(k, Set::empty(), q));
        }
        lemma_no_prime_means_one(x);
    }
    if x == 1 {
        assert forall|q: int| is_prime(q) implies #[trigger] multiplicity(x, q) <= exponent_cap(
            k,
            Set::empty(),
            q,
        ) by {
            lemma_small_not_divisible(q, 1);
        }
    }
}

/// Admitting one more prime `p` admits exactly the numbers that hold `p` at
/// most twice as often as `k` does and whose rest was admitted before.
proof fn lemma_within_caps_step(x: int, k: int, done: Set<int>, p: int)
    requires
        1 <= x,
        is_prime(p),
        !done.contains(p),
    ensures
        within_caps(x, k, done.insert(p)) <==> multiplicity(x, p) <= 2 * multiplicity(k, p)
            && within_caps(without_factor(x, p), k, done),
{
    lemma_factor_split(x, p);
    let rest = without_factor(x, p);
    let e = multiplicity(x, p);
    assert forall|q: int| is_prime(q) && q != p implies multiplicity(x, q) == multiplicity(
        rest,
        q,
    ) by {
        lemma_multiplicity_times_other_power(rest, p, e, q);
    }
    if within_caps(x, k, done.insert(p)) {
        assert(multiplicity(x, p) <= exponent_cap(k, done.insert(p), p));
        assert forall|q: int| is_prime(q) implies #[trigger] multiplicity(rest, q) <= exponent_cap(
            k,
            done,
            q,
        ) by {
            if q != p {
                assert(multiplicity(x, q) <= exponent_cap(k, done.insert(p), q));
            }
        }
    }
    if multiplicity(x, p) <= 2 * multiplicity(k, p) && within_caps(rest, k, done) {
        assert forall|q: int| is_prime(q) implies #[trigger] multiplicity(x, q) <= exponent_cap(
            k,
            done.insert(p),
            q,
        ) by {
            if q != p {
                assert(multiplicity(rest, q) <= exponent_cap(k, done, q));
            }
        }
    }
}

/// Once every prime of `k` is admitted, the admitted numbers are the
/// divisors of the square of `k`.
proof fn lemma_within_all_caps(x: int, k: int, done: Set<int>)
    requires
        1 <= x,
        1 <= k,
        forall|q: int| is_prime(q) && multiplicity(k, q) >= 1 ==> done.contains(q),
    ensures
        within_caps(x, k, done) <==> divides(x, k * k),
{
    assert(1 <= k * k) by (nonlinear_arith)
        requires
            1 <= k,
    ;
    lemma_divides_iff_exponents_bounded(x, k * k);
    assert forall|q: int| is_prime(q) implies exponent_cap(k, done, q) == multiplicity(
        k * k,
        q,
    ) by {
        lemma_multiplicity_of_product(k, k, q);
    }
    if within_caps(x, k, done) {
        assert forall|q: int| is_prime(q) implies #[trigger] multiplicity(x, q) <= multiplicity(
            k * k,
            q,
        ) by {
            assert(multiplicity(x, q) <= exponent_cap(k, done, q));
        }
    }
    if exponents_bounded(x, k * k) {
        assert forall|q: int| is_prime(q) implies #[trigger] multiplicity(x, q) <= exponent_cap(
            k,
            done,
            q,
        ) by {
            assert(multiplicity(x, q) <= multiplicity(k * k, q));
        }
    }
}

/// A number below `k` whose rest without `p` is `d` holds `p` less than `i`
/// times, once `d` times the `i`-th power of `p` has reached `k`.
proof fn lemma_exponent_below(x: int, d: int, p: int, i: nat, k: int)
    requires
        1 <= x < k,
        2 <= p,
        without_factor(x, p) == d,
        d * pow(p, i) >= k,
    ensures
        multiplicity(x, p) < i,
{
    lemma_factor_split(x, p);
    let e = multiplicity(x, p);
    if e >= i {
        lemma_pow_increases(p as nat, i, e);
        assert(d * pow(p, i) <= d * pow(p, e)) by (nonlinear_arith)
            requires
                1 <= d,
                pow(p, i) <= pow(p, e),
        ;
    }
}

/// The divisor `(k * k) / d` that goes with a divisor `d` of the square of
/// `k` lies on the other side of `k`, and `d` goes with it in turn.
proof fn lemma_mirror_divisor(d: int, k: int)
    requires
        1 <= k,
        divides(d, k * k),
    ensures
        divides((k * k) / d, k * k),
        (k * k) / ((k * k) / d) == d,
        d < k <==> (k * k) / d > k,
        d > k <==> (k * k) / d < k,
{
    let n = k * k;
    let q = n / d;
    assert(1 <= n) by (nonlinear_arith)
        requires
            n == k * k,
            1 <= k,
    ;
    lemma_divisor_bounds(d, n);
    lemma_divides_quotient(d, n);
    assert(n == q * d) by (nonlinear_arith)
        requires
            n == d * q,
    ;
    lemma_multiple_divides(q, d);
    assert((d < k ==> q > k) && (q > k ==> d < k) && (d > k ==> q < k) && (q < k ==> d > k))
        by (nonlinear_arith)
        requires
            d * q == k * k,
            1 <= d,
            1 <= q,
            1 <= k,
    ;
}

/// The divisors of the square of a positive `k` are finitely many, and the
/// ones below `k` are half of those other than `k`: whatever lists each
/// divisor below `k` once is half as long as the count of all divisors, less
/// one.
pub proof fn lemma_small_square_divisors_are_half(k: usize, listed: Seq<usize>)
    requires
        1 <= k,
        listed.no_duplicates(),
        forall|d: usize| listed.contains(d) <==> is_small_square_divisor(d as int, k as int),
    ensures
        divisors_of(k * k).finite(),
        divisors_of(k * k).len() == 2 * listed.len() + 1,
{
    broadcast use vstd::seq_lib::group_seq_properties;

    let n = k * k;
    let all = divisors_of(n);
    assert(1 <= n) by (nonlinear_arith)
        requires
            n == k * k,
            1 <= k,
    ;
    assert(all.finite()) by {
        lemma_int_range(1, n + 1);
        assert forall|d: int| all.contains(d) implies set_int_range(1, n + 1).contains(d) by {
            lemma_divisor_bounds(d, n);
        }
        assert(all.subset_of(set_int_range(1, n + 1)));
        lemma_set_subset_finite(set_int_range(1, n + 1), all);
    }
    let keys = listed.to_set();
    listed.unique_seq_to_set();
    let widen = |d: usize| d as int;
    let small = keys.map(widen);
    assert(injective_on(widen, keys));
    lemma_map_size(keys, small, widen);
    assert forall|x: int| small.contains(x) <==> is_small_square_divisor(x, k as int) by {
        if small.contains(x) {
            let d = choose|d: usize| keys.contains(d) && x == widen(d);
            assert(listed.contains(d));
        }
        if is_small_square_divisor(x, k as int) {
            let d = x as usize;
            assert(listed.contains(d));
            assert(keys.contains(d) && x == widen(d));
        }
    }
    let mirror = |d: int| n / d;
    let large = small.map(mirror);
    assert(injective_on(mirror, small)) by {
        assert forall|x1: int, x2: int|
            small.contains(x1) && small.contains(x2) && #[trigger] mirror(x1) == #[trigger] mirror(
                x2,
            ) implies x1 == x2 by {
            lemma_mirror_divisor(x1, k as int);
            lemma_mirror_divisor(x2, k as int);
        }
    }
    lemma_map_size(small, large, mirror);
    assert forall|y: int| large.contains(y) <==> divides(y, n) && y > k by {
        if large.contains(y) {
            let x = choose|x: int| small.contains(x) && y == mirror(x);
            lemma_mirror_divisor(x, k as int);
        }
        if divides(y, n) && y > k {
            lemma_mirror_divisor(y, k as int);
            let x = n / y;
            assert(small.contains(x) && y == mirror(x));
        }
    }
    assert(divides(k as int, n)) by {
        lemma_multiple_divides(k as int, k as int);
    }
    assert(all =~= (small + large).insert(k as int));
    assert(small.disjoint(large));
    lemma_set_disjoint_lens(small, large);
}

/// `x` is a number below `k` that holds `p` at most `cap` times and is, but
/// for its factors `p`, one of `sources`.
spec fn is_expansion(x: usize, sources: Seq<usize>, p: int, cap: int, k: int) -> bool {
    &&& 1 <= x < k
    &&& multiplicity(x as int, p) <= cap
    &&& sources.contains(without_factor(x as int, p) as usize)
}

/// `x` is a number below `k` that holds `p` less than `i` times and is, but
/// for its factors `p`, the number `d`.
spec fn is_power_multiple(x: usize, d: int, p: int, i: int, k: int) -> bool {
    &&& 1 <= x < k
    &&& multiplicity(x as int, p) < i
    &&& without_factor(x as int, p) == d
}

/// What a sequence holds after a push is what it held before and the new
/// item.
proof fn lemma_contains_after_push(before: Seq<usize>, item: usize, x: usize)
    ensures
        before.push(item).contains(x) <==> before.contains(x) || x == item,
{
    let after = before.push(item);
    if before.contains(x) {
        let j = choose|j: int| 0 <= j < before.len() && before[j] == x;
        assert(after[j] == x);
    }
    if x == item {
        assert(after[before.len() as int] == x);
    }
}

/// Multiplies every divisor in `old` by the powers of `prime` up to twice
/// `exponent`, and lists the products below `k`. Since the products of one
/// divisor grow with the exponent, the walk through the powers ends at the
/// first product that reaches `k` or leaves the machine word.
fn expand_by_prime(old: &Vec<usize>, prime: usize, exponent: usize, k: usize) -> (new: Vec<usize>)
    requires
        is_prime(prime as int),
        2 * exponent < usize::MAX,
        old@.no_duplicates(),
        forall|j: int|
            0 <= j < old@.len() ==> 1 <= #[trigger] old@[j] < k && !divides(
                prime as int,
                old@[j] as int,
            ),
    ensures
        new@.no_duplicates(),
        forall|x: usize|
            #[trigger] new@.contains(x) <==> is_expansion(
                x,
                old@,
                prime as int,
                2 * exponent,
                k as int,
            ),
{
    let ghost p = prime as int;
    let cap = 2 * exponent;
    let mut new_divisors: Vec<usize> = Vec::new();
    let mut a: usize = 0;
    while a < old.len()
        invariant
            0 <= a <= old@.len(),
            p == prime,
            is_prime(p),
            cap < usize::MAX,
            old@.no_duplicates(),
            forall|j: int|
                0 <= j < old@.len() ==> 1 <= #[trigger] old@[j] < k && !divides(p, old@[j] as int),
            new_divisors@.no_duplicates(),
            forall|x: usize|
                #[trigger] new_divisors@.contains(x) <==> is_expansion(
                    x,
                    old@.take(a as int),
                    p,
                    cap as int,
                    k as int,
                ),
        decreases old@.len() - a,
    {
        let divisor = old[a];
        let ghost d = divisor as int;
        let ghost earlier = old@.take(a as int);
        let mut product = divisor;
        let mut i: usize = 0;
        let mut fits = true;
        proof {
            lemma_pow0(p);
            assert(d * 1 == d);
            assert(!earlier.contains(divisor)) by {
                if earlier.contains(divisor) {
                    let j = choose|j: int| 0 <= j < earlier.len() && earlier[j] == divisor;
                    assert(old@[j] == old@[a as int]);
                }
            }
        }
        while fits && i <= cap && product < k
            invariant
                d == divisor,
                1 <= d < k,
                !divides(p, d),
                is_prime(p),
                p == prime,
                cap < usize::MAX,
                i <= cap + 1,
                !earlier.contains(divisor),
                fits ==> product == d * pow(p, i as nat),
                !fits ==> d * pow(p, i as nat) >= k,
                new_divisors@.no_duplicates(),
                forall|x: usize|
                    #[trigger] new_divisors@.contains(x) <==> is_expansion(
                        x,
                        earlier,
                        p,
                        cap as int,
                        k as int,
                    ) || is_power_multiple(x, d, p, i as int, k as int),
            decreases cap + 1 - i,
        {
            let ghost before = new_divisors@;
            proof {
                lemma_multiplicity_times_power(d, p, i as nat);
                assert(!before.contains(product));
            }
            new_divisors.push(product);
            proof {
                assert(pow(p, (i + 1) as nat) == p * pow(p, i as nat)) by {
                    reveal(pow);
                }
                assert(d * pow(p, (i + 1) as nat) == product * prime) by (nonlinear_arith)
                    requires
                        pow(p, (i + 1) as nat) == p * pow(p, i as nat),
                        product == d * pow(p, i as nat),
                        p == prime,
                ;
                assert forall|x: usize|
                    #[trigger] new_divisors@.contains(x) <==> is_expansion(
                        x,
                        earlier,
                        p,
                        cap as int,
                        k as int,
                    ) || is_power_multiple(x, d, p, i + 1, k as int) by {
                    lemma_contains_after_push(before, product, x);
                    assert(before.contains(x) <==> is_expansion(x, earlier, p, cap as int, k as int)
                        || is_power_multiple(x, d, p, i as int, k as int));
                    if is_power_multiple(x, d, p, i + 1, k as int) && multiplicity(x as int, p)
                        == i {
                        lemma_factor_split(x as int, p);
                    }
                }
            }
            match product.checked_mul(prime) {
                Some(next) => {
                    product = next;
                },
                None => {
                    fits = false;
                },
            }
            i += 1;
        }
        proof {
            assert(old@.take(a + 1) == earlier.push(divisor));
            assert forall|x: usize|
                #[trigger] new_divisors@.contains(x) <==> is_expansion(
                    x,
                    old@.take(a + 1),
                    p,
                    cap as int,
                    k as int,
                ) by {
                lemma_contains_after_push(earlier, divisor, without_factor(x as int, p) as usize);
                if 1 <= x {
                    lemma_factor_split(x as int, p);
                }
                if 1 <= x < k && without_factor(x as int, p) == d && i <= cap {
                    lemma_exponent_below(x as int, d, p, i as nat, k as int);
                }
            }
        }
        a += 1;
    }
    proof {
        assert(old@.take(a as int) == old@);
    }
    new_divisors
}

/// Lists, each once and in no particular order, the divisors of the square
/// of `k` that are smaller than `k`, given a table of smallest prime factors
/// that reaches `k`. The list starts from the divisor one and is expanded by
/// one prime of `k` after the other; for zero and one, which have no such
/// divisor, it is empty.
pub fn small_square_divisors(k: usize, spf: &Vec<usize>) -> (divisors: Vec<usize>)
    requires
        is_sieve_table(spf@),
        k < spf.len(),
    ensures
        divisors@.no_duplicates(),
        forall|d: usize|
            #![trigger divisors@.contains(d)]
            #![trigger is_small_square_divisor(d as int, k as int)]
            divisors@.contains(d) <==> is_small_square_divisor(d as int, k as int),
        1 <= k ==> divisors_of(k * k).finite() && divisors_of(k * k).len() == 2
            * divisors@.len() + 1,
{
    broadcast use group_hash_axioms;

    let mut divisors: Vec<usize> = Vec::new();
    if 1 < k {
        divisors.push(1);
    }
    let factors = prime_factorization(k, spf);
    let ghost entries = spec_hash_map_iter(&factors).remaining();
    let ghost mut done: Set<int> = Set::empty();
    proof {
        assert forall|x: usize|
            #[trigger] divisors@.contains(x) <==> 1 <= x < k && within_caps(
                x as int,
                k as int,
                done,
            ) by {
            if 1 <= x {
                lemma_within_no_caps(x as int, k as int);
            }
            if 1 < k {
                assert(divisors@[0] == 1);
            }
        }
    }
    for (prime, exponent) in it: factors.iter()
        invariant
            it.seq() == entries,
            entries.no_duplicates(),
            k < usize::MAX,
            forall|p: usize|
                #[trigger] factors@.contains_key(p) <==> 1 <= k && is_prime(p as int) && divides(
                    p as int,
                    k as int,
                ),
            forall|p: usize|
                #[trigger] factors@.contains_key(p) ==> factors@[p] == multiplicity(
                    k as int,
                    p as int,
                ),
            forall|j: int|
                0 <= j < entries.len() ==> factors@.contains_key(*(#[trigger] entries[j]).0)
                    && factors@[*entries[j].0] == *entries[j].1,
            forall|q: int|
                done.contains(q) <==> exists|j: int|
                    0 <= j < it.index() && *(#[trigger] entries[j]).0 == q,
            divisors@.no_duplicates(),
            forall|x: usize|
                #[trigger] divisors@.contains(x) <==> 1 <= x < k && within_caps(
                    x as int,
                    k as int,
                    done,
                ),
    {
        let ghost p = *prime as int;
        let ghost n = it.index();
        proof {
            assert(entries[n] == (prime, exponent));
            assert(factors@.contains_key(*prime));
            // No key comes twice, so this prime is new.
            assert(!done.contains(p)) by {
                if done.contains(p) {
                    let j = choose|j: int| 0 <= j < n && *(#[trigger] entries[j]).0 == p;
                    assert(factors@[*entries[j].0] == *entries[j].1);
                    assert(entries[j] == entries[n]);
                }
            }
            lemma_double_multiplicity_bound(k as int, p);
            assert forall|j: int| 0 <= j < divisors@.len() implies 1 <= #[trigger] divisors@[j]
                < k && !divides(p, divisors@[j] as int) by {
                let x = divisors@[j];
                assert(divisors@.contains(x));
                assert(multiplicity(x as int, p) <= exponent_cap(k as int, done, p));
            }
        }
        let expanded = expand_by_prime(&divisors, *prime, *exponent, k);
        proof {
            assert forall|x: usize|
                #[trigger] expanded@.contains(x) <==> 1 <= x < k && within_caps(
                    x as int,
                    k as int,
                    done.insert(p),
                ) by {
                assert(expanded@.contains(x) <==> is_expansion(
                    x,
                    divisors@,
                    p,
                    2 * *exponent,
                    k as int,
                ));
                if 1 <= x {
                    lemma_factor_split(x as int, p);
                    lemma_within_caps_step(x as int, k as int, done, p);
                }
            }
            assert forall|q: int|
                done.insert(p).contains(q) <==> exists|j: int|
                    0 <= j < n + 1 && *(#[trigger] entries[j]).0 == q by {
                if done.contains(q) {
                    let j = choose|j: int| 0 <= j < n && *(#[trigger] entries[j]).0 == q;
                    assert(0 <= j < n + 1 && *entries[j].0 == q);
                }
                if q == p {
                    assert(0 <= n < n + 1 && *entries[n].0 == q);
                }
            }
            done = done.insert(p);
        }
        divisors = expanded;
    }
    proof {
        if 1 <= k {
            // Every prime of `k` is a key, and every key has had its turn.
            assert forall|q: int| is_prime(q) && multiplicity(k as int, q) >= 1 implies
                done.contains(q) by {
                lemma_divisor_bounds(q, k as int);
                let key = q as usize;
                assert(factors@.contains_key(key));
                let pair = (&key, &factors@[key]);
                assert(entries.contains(pair));
                let j = choose|j: int| 0 <= j < entries.len() && entries[j] == pair;
                assert(*entries[j].0 == q);
            }
            assert forall|d: usize|
                divisors@.contains(d) <==> is_small_square_divisor(d as int, k as int) by {
                if 1 <= d {
                    lemma_within_all_caps(d as int, k as int, done);
                }
            }
            lemma_small_square_divisors_are_half(k, divisors@);
        }
    }
    divisors
}

} // verus!
