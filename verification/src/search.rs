//! The search for progressive squares: the squares that a base proposes
//! together with a small divisor of its own square, and their sum.

use crate::divisors::{is_small_square_divisor, small_square_divisors};
use crate::roots::{floor_sqrt, integer_sqrt};
use crate::sieve::{is_sieve_table, smallest_prime_factors};
use std::collections::HashSet;
use vstd::arithmetic::div_mod::{lemma_div_nonincreasing, lemma_div_pos_is_pos};
use vstd::prelude::*;
use vstd::std_specs::hash::*;

verus! {

/// The square of `j`.
pub open spec fn square(j: int) -> int {
    j * j
}

/// `v` is the square of one of the numbers from one to `count`.
pub open spec fn is_square_upto(v: int, count: int) -> bool {
    exists|j: int| 1 <= j <= count && #[trigger] square(j) == v
}

/// The first value that a base proposes together with a divisor of its
/// square: the divisor plus the base times the quotient of the square by the
/// divisor.
pub open spec fn first_candidate(base: int, divisor: int) -> int {
    divisor + base * ((base * base) / divisor)
}

/// The second value that a base proposes together with a divisor of its
/// square: the base plus the divisor times the quotient of the square by the
/// divisor.
pub open spec fn second_candidate(base: int, divisor: int) -> int {
    base + divisor * ((base * base) / divisor)
}

/// `v` is one of the two values that `base` proposes together with
/// `divisor`, a divisor of the square of `base` that is smaller than `base`.
pub open spec fn is_proposed_by(v: int, base: int, divisor: int) -> bool {
    &&& is_small_square_divisor(divisor, base)
    &&& (v == first_candidate(base, divisor) || v == second_candidate(base, divisor))
}

/// `v` is proposed by some base from one to `root`.
pub open spec fn is_progressive(v: int, root: int) -> bool {
    exists|base: int, divisor: int|
        1 <= base <= root && #[trigger] is_proposed_by(v, base, divisor)
}

/// The sum of those squares of the numbers from one to `count` that belong
/// to `hits`.
pub open spec fn sum_of_squares_in(hits: Set<int>, count: int) -> int
    decreases count,
{
    if count <= 0 {
        0
    } else {
        sum_of_squares_in(hits, count - 1) + if hits.contains(square(count)) {
            square(count)
        } else {
            0
        }
    }
}

/// The sum of the squares of the numbers from one to `root` that some base
/// from one to `root` proposes, each square counted once.
pub open spec fn progressive_square_total(root: int) -> int {
    sum_of_squares_in(Set::new(|v: int| is_progressive(v, root)), root)
}

/// Two natural numbers with the same square are equal.
proof fn lemma_square_injective(a: int, b: int)
    requires
        0 <= a,
        0 <= b,
        square(a) == square(b),
    ensures
        a == b,
{
    if a < b {
        assert(a * a < b * b) by (nonlinear_arith)
            requires
                0 <= a < b,
        ;
    }
    if b < a {
        assert(b * b < a * a) by (nonlinear_arith)
            requires
                0 <= b < a,
        ;
    }
}

/// The squares up to `count` are those up to `count - 1` and the square of
/// `count`.
proof fn lemma_square_upto_step(v: int, count: int)
    requires
        1 <= count,
    ensures
        is_square_upto(v, count) <==> is_square_upto(v, count - 1) || v == square(count),
{
    if is_square_upto(v, count) {
        let j = choose|j: int| 1 <= j <= count && #[trigger] square(j) == v;
        if j < count {
            assert(1 <= j <= count - 1 && square(j) == v);
        }
    }
    if is_square_upto(v, count - 1) {
        let j = choose|j: int| 1 <= j <= count - 1 && #[trigger] square(j) == v;
        assert(1 <= j <= count && square(j) == v);
    }
    if v == square(count) {
        assert(1 <= count <= count && square(count) == v);
    }
}

/// A square of a number from one to `count` lies between one and the square
/// of `count`.
proof fn lemma_square_upto_bounds(v: int, count: int)
    requires
        is_square_upto(v, count),
    ensures
        1 <= v <= square(count),
{
    let j = choose|j: int| 1 <= j <= count && #[trigger] square(j) == v;
    assert(1 <= j * j <= count * count) by (nonlinear_arith)
        requires
            1 <= j <= count,
    ;
}

/// The sum over no hits at all is zero.
proof fn lemma_sum_of_nothing(count: int)
    ensures
        sum_of_squares_in(Set::empty(), count) == 0,
    decreases count,
{
    if count > 0 {
        lemma_sum_of_nothing(count - 1);
    }
}

/// Adding a value to `hits` adds it to the sum where it is one of the
/// squares summed over and was not among the hits before, and changes
/// nothing otherwise.
proof fn lemma_sum_insert(hits: Set<int>, c: int, count: int)
    requires
        0 <= count,
    ensures
        sum_of_squares_in(hits.insert(c), count) == sum_of_squares_in(hits, count) + (
        if is_square_upto(c, count) && !hits.contains(c) {
            c
        } else {
            0
        }),
    decreases count,
{
    if count > 0 {
        lemma_sum_insert(hits, c, count - 1);
        lemma_square_upto_step(c, count);
        if c == square(count) && is_square_upto(c, count - 1) {
            let j = choose|j: int| 1 <= j <= count - 1 && #[trigger] square(j) == c;
            lemma_square_injective(j, count);
        }
    } else {
        if is_square_upto(c, count) {
            let j = choose|j: int| 1 <= j <= count && #[trigger] square(j) == c;
        }
    }
}

/// The sum over the squares up to `count` is at most `count` times the
/// largest of them.
proof fn lemma_sum_bound(hits: Set<int>, count: int)
    requires
        0 <= count,
    ensures
        0 <= sum_of_squares_in(hits, count) <= count * square(count),
    decreases count,
{
    if count > 0 {
        lemma_sum_bound(hits, count - 1);
        assert((count - 1) * square(count - 1) + square(count) <= count * square(count) && 0
            <= square(count)) by (nonlinear_arith)
            requires
                1 <= count,
        ;
    } else {
        assert(count * square(count) == 0) by (nonlinear_arith)
            requires
                count == 0,
        ;
    }
}

/// `v` is proposed by `base` together with one of the listed divisors.
spec fn is_proposed_among(v: int, base: int, divisors: Seq<usize>) -> bool {
    exists|s: int|
        0 <= s < divisors.len() && #[trigger] is_proposed_by(v, base, divisors[s] as int)
}

/// Listing one more divisor adds what `base` proposes with it.
proof fn lemma_proposed_among_step(v: int, base: int, divisors: Seq<usize>, t: int)
    requires
        0 <= t < divisors.len(),
    ensures
        is_proposed_among(v, base, divisors.take(t + 1)) <==> is_proposed_among(
            v,
            base,
            divisors.take(t),
        ) || is_proposed_by(v, base, divisors[t] as int),
{
    let shorter = divisors.take(t);
    let longer = divisors.take(t + 1);
    if is_proposed_among(v, base, shorter) {
        let s = choose|s: int|
            0 <= s < shorter.len() && #[trigger] is_proposed_by(v, base, shorter[s] as int);
        assert(0 <= s < longer.len() && is_proposed_by(v, base, longer[s] as int));
    }
    if is_proposed_by(v, base, divisors[t] as int) {
        assert(0 <= t < longer.len() && is_proposed_by(v, base, longer[t] as int));
    }
    if is_proposed_among(v, base, longer) {
        let s = choose|s: int|
            0 <= s < longer.len() && #[trigger] is_proposed_by(v, base, longer[s] as int);
        if s < t {
            assert(0 <= s < shorter.len() && is_proposed_by(v, base, shorter[s] as int));
        }
    }
}

/// Admitting one more base admits what it proposes with the small divisors
/// of its square, given a list that holds exactly those divisors.
proof fn lemma_progressive_step(v: int, base: usize, divisors: Seq<usize>)
    requires
        1 <= base,
        forall|d: usize| divisors.contains(d) <==> is_small_square_divisor(d as int, base as int),
    ensures
        is_progressive(v, base as int) <==> is_progressive(v, base - 1) || is_proposed_among(
            v,
            base as int,
            divisors,
        ),
{
    if is_progressive(v, base - 1) {
        let (b, d) = choose|b: int, d: int|
            1 <= b <= base - 1 && #[trigger] is_proposed_by(v, b, d);
        assert(1 <= b <= base && is_proposed_by(v, b, d));
    }
    if is_proposed_among(v, base as int, divisors) {
        let s = choose|s: int|
            0 <= s < divisors.len() && #[trigger] is_proposed_by(
                v,
                base as int,
                divisors[s] as int,
            );
        assert(1 <= base <= base && is_proposed_by(v, base as int, divisors[s] as int));
    }
    if is_progressive(v, base as int) {
        let (b, d) = choose|b: int, d: int| 1 <= b <= base && #[trigger] is_proposed_by(v, b, d);
        if b < base {
            assert(1 <= b <= base - 1 && is_proposed_by(v, b, d));
        } else {
            assert(divisors.contains(d as usize));
            let s = choose|s: int| 0 <= s < divisors.len() && divisors[s] == d as usize;
            assert(is_proposed_by(v, base as int, divisors[s] as int));
        }
    }
}

/// The total depends on the bound alone: whatever two runs on the same bound
/// return is the same number.
pub proof fn lemma_total_is_repeatable(n: usize, first: u128, second: u128)
    requires
        first == progressive_square_total(floor_sqrt(n as int)),
        second == progressive_square_total(floor_sqrt(n as int)),
    ensures
        first == second,
{
}

/// `relevant` holds the squares of the numbers from one to `root` that are
/// not among the values in `found`.
spec fn holds_unfound_squares(relevant: Set<usize>, found: Set<int>, root: int) -> bool {
    forall|v: usize|
        #[trigger] relevant.contains(v) <==> is_square_upto(v as int, root) && !found.contains(
            v as int,
        )
}

/// Looks `candidate` up among the squares not found so far; where it is one
/// of them, adds it to `total` and takes it out, so that it counts once.
fn count_once(
    relevant: &mut HashSet<usize>,
    total: &mut u128,
    candidate: u128,
    Ghost(found): Ghost<Set<int>>,
    Ghost(root): Ghost<int>,
)
    requires
        0 <= root <= usize::MAX,
        square(root) <= usize::MAX,
        holds_unfound_squares(old(relevant)@, found, root),
        *old(total) == sum_of_squares_in(found, root),
    ensures
        holds_unfound_squares(final(relevant)@, found.insert(candidate as int), root),
        *final(total) == sum_of_squares_in(found.insert(candidate as int), root),
{
    broadcast use group_hash_axioms;

    proof {
        lemma_sum_insert(found, candidate as int, root);
        lemma_sum_bound(found.insert(candidate as int), root);
        if is_square_upto(candidate as int, root) {
            lemma_square_upto_bounds(candidate as int, root);
        }
        assert(root * square(root) <= usize::MAX * usize::MAX) by (nonlinear_arith)
            requires
                0 <= root <= usize::MAX,
                0 <= square(root) <= usize::MAX,
        ;
        assert(usize::MAX * usize::MAX <= u128::MAX) by (nonlinear_arith)
            requires
                usize::MAX <= 0xffff_ffff_ffff_ffff,
                u128::MAX == 0xffff_ffff_ffff_ffff_ffff_ffff_ffff_ffff,
        ;
    }
    if candidate <= usize::MAX as u128 {
        let key = candidate as usize;
        if relevant.contains(&key) {
            *total += candidate;
            relevant.remove(&key);
        }
    }
}

/// Computes the two values that `base` proposes together with `divisor`, in
/// 128 bits, which hold them wherever the square of `base` fits a machine
/// word.
pub fn proposed_values(base: usize, divisor: usize) -> (values: (u128, u128))
    requires
        0 < divisor,
        base * base <= usize::MAX,
    ensures
        values.0 == first_candidate(base as int, divisor as int),
        values.1 == second_candidate(base as int, divisor as int),
{
    proof {
        let quotient = (base * base) / (divisor as int);
        assert(0 <= base * base) by (nonlinear_arith);
        lemma_div_nonincreasing(base * base, divisor as int);
        lemma_div_pos_is_pos(base * base, divisor as int);
        assert(0 <= base * quotient <= usize::MAX * usize::MAX && 0 <= divisor * quotient
            <= usize::MAX * usize::MAX) by (nonlinear_arith)
            requires
                0 <= base <= usize::MAX,
                0 <= divisor <= usize::MAX,
                0 <= quotient <= usize::MAX,
        ;
        assert(usize::MAX * usize::MAX + usize::MAX <= u128::MAX) by (nonlinear_arith)
            requires
                usize::MAX <= 0xffff_ffff_ffff_ffff,
                u128::MAX == 0xffff_ffff_ffff_ffff_ffff_ffff_ffff_ffff,
        ;
    }
    let quotient = (base * base) / divisor;
    (
        divisor as u128 + (base as u128) * (quotient as u128),
        base as u128 + (divisor as u128) * (quotient as u128),
    )
}

/// Sums the progressive squares up to `n`. For every base from one to the
/// integer square root of `n`, and every divisor of its square below the
/// base, the two proposed values are looked up among the squares of the
/// numbers from one to the root; a square that is found is added to the
/// total and struck out, so that it counts once however often it is
/// proposed.
pub fn progressive_square_sum(n: usize) -> (total: u128)
    ensures
        total == progressive_square_total(floor_sqrt(n as int)),
{
    broadcast use group_hash_axioms;

    let root = integer_sqrt(n);
    proof {
        assert(root <= n && (root == n ==> n <= 1)) by (nonlinear_arith)
            requires
                root * root <= n,
        ;
    }
    let spf = smallest_prime_factors(root);
    let mut relevant_squares: HashSet<usize> = HashSet::new();
    let mut j: usize = 1;
    while j <= root
        invariant
            1 <= j <= root + 1,
            root < usize::MAX,
            root * root <= n,
            forall|v: usize|
                #[trigger] relevant_squares@.contains(v) <==> is_square_upto(v as int, j - 1),
        decreases root + 1 - j,
    {
        proof {
            assert(j * j <= n) by (nonlinear_arith)
                requires
                    j <= root,
                    root * root <= n,
            ;
            assert forall|v: usize|
                relevant_squares@.insert((j * j) as usize).contains(v) <==> is_square_upto(
                    v as int,
                    j as int,
                ) by {
                lemma_square_upto_step(v as int, j as int);
            }
        }
        relevant_squares.insert(j * j);
        j += 1;
    }
    let mut total: u128 = 0;
    let ghost mut found: Set<int> = Set::empty();
    proof {
        lemma_sum_of_nothing(root as int);
    }
    let mut i: usize = 1;
    while i <= root
        invariant
            1 <= i <= root + 1,
            root < usize::MAX,
            root * root <= n,
            root <= n,
            spf@.len() == root + 1,
            is_sieve_table(spf@),
            holds_unfound_squares(relevant_squares@, found, root as int),
            total == sum_of_squares_in(found, root as int),
            forall|v: int| found.contains(v) <==> is_progressive(v, i - 1),
        decreases root + 1 - i,
    {
        proof {
            assert(i * i <= n) by (nonlinear_arith)
                requires
                    i <= root,
                    root * root <= n,
            ;
        }
        let divisors = small_square_divisors(i, &spf);
        let mut t: usize = 0;
        while t < divisors.len()
            invariant
                0 <= t <= divisors@.len(),
                1 <= i <= root,
                i * i <= n,
                root <= n,
                root * root <= n,
                forall|d: usize|
                    divisors@.contains(d) <==> is_small_square_divisor(d as int, i as int),
                holds_unfound_squares(relevant_squares@, found, root as int),
                total == sum_of_squares_in(found, root as int),
                forall|v: int|
                    found.contains(v) <==> is_progressive(v, i - 1) || is_proposed_among(
                        v,
                        i as int,
                        divisors@.take(t as int),
                    ),
            decreases divisors@.len() - t,
        {
            let divisor = divisors[t];
            proof {
                assert(divisors@.contains(divisor));
                assert(is_small_square_divisor(divisor as int, i as int));
            }
            let (first, second) = proposed_values(i, divisor);
            count_once(&mut relevant_squares, &mut total, first, Ghost(found), Ghost(root as int));
            proof {
                found = found.insert(first as int);
            }
            count_once(&mut relevant_squares, &mut total, second, Ghost(found), Ghost(root as int));
            proof {
                found = found.insert(second as int);
                assert forall|v: int|
                    found.contains(v) <==> is_progressive(v, i - 1) || is_proposed_among(
                        v,
                        i as int,
                        divisors@.take(t + 1),
                    ) by {
                    lemma_proposed_among_step(v, i as int, divisors@, t as int);
                }
            }
            t += 1;
        }
        proof {
            assert(divisors@.take(t as int) == divisors@);
            assert forall|v: int| found.contains(v) <==> is_progressive(v, i as int) by {
                lemma_progressive_step(v, i, divisors@);
            }
        }
        i += 1;
    }
    proof {
        assert(found =~= Set::new(|v: int| is_progressive(v, root as int)));
    }
    total
}

} // verus!
