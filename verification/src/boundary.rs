//! The correction for the products of two large primes.
//!
//! Two walks over the primes work together. One descends from the square
//! root of `n` to just above its cube root and yields the smaller factor
//! `p`; the other ascends from the square root, never turning back, and
//! takes in the primes up to `n / p`, a bound that grows as `p` shrinks.

use crate::identity::{correction, correction_term, lemma_correction_gap};
use crate::integer::{add_assign, from_u64, integer_value, product};
use crate::numbers::{is_prime, lemma_prime_square_sum_gap, prime_square_sum};
use crate::table::PrimeTable;
use vstd::arithmetic::div_mod::{lemma_div_is_ordered_by_denominator, lemma_fundamental_div_mod};
use vstd::prelude::*;

verus! {

/// `next` is the first prime after `after`, or lies beyond `limit` where
/// no prime follows `after` up to `limit`.
pub open spec fn is_successor(after: int, limit: int, next: int) -> bool {
    &&& after < next
    &&& next <= limit ==> is_prime(next) && forall|k: int| after < k < next ==> !is_prime(k)
    &&& next > limit ==> forall|k: int| after < k <= limit ==> !is_prime(k)
}

/// The first prime after `after` that the table holds, and `u64::MAX`
/// where it holds none.
pub fn successor(table: &PrimeTable, after: u64) -> (next: u64)
    requires
        table.wf(),
        table.limit() < u64::MAX,
        after <= table.limit(),
    ensures
        is_successor(after as int, table.limit(), next as int),
{
    match table.next_prime(after) {
        Some(p) => p,
        None => u64::MAX,
    }
}

/// Takes into `sum` the squares of the primes after `reached` up to
/// `bound`, and moves `reached` and `next` on.
fn absorb(
    table: &PrimeTable,
    sum: &mut rug::Integer,
    reached: &mut u64,
    next: &mut u64,
    bound: u64,
)
    requires
        table.wf(),
        table.limit() < u64::MAX,
        *old(reached) <= bound <= table.limit(),
        is_successor(*old(reached) as int, table.limit(), *old(next) as int),
    ensures
        *old(reached) <= *final(reached) <= bound < *final(next),
        is_successor(*final(reached) as int, table.limit(), *final(next) as int),
        prime_square_sum(*final(reached) as int) == prime_square_sum(bound as int),
        integer_value(*final(sum)) == integer_value(*old(sum)) + prime_square_sum(bound as int)
            - prime_square_sum(*old(reached) as int),
{
    let ghost start = *reached as int;
    let ghost before = integer_value(*sum);
    while *next <= bound
        invariant
            table.wf(),
            table.limit() < u64::MAX,
            start <= *reached <= bound <= table.limit(),
            is_successor(*reached as int, table.limit(), *next as int),
            integer_value(*sum) == before + prime_square_sum(*reached as int) - prime_square_sum(
                start,
            ),
        decreases bound + 1 - *reached,
    {
        let prime = *next;
        let factor = from_u64(prime);
        let square = product(&factor, &factor);
        add_assign(sum, &square);
        proof {
            lemma_prime_square_sum_gap(*reached as int, prime - 1);
        }
        *reached = prime;
        *next = successor(table, prime);
    }
    proof {
        lemma_prime_square_sum_gap(*reached as int, bound as int);
    }
}

/// The sum of the squares of the products `p * r <= n` of two primes with
/// `cbrt < p <= sqrt` and `p <= r`.
///
/// `sqrt` is the square root of `n`, rounded down; `cbrt` is any number up
/// to it, in use the cube root. The table must reach as far as the primes
/// that are asked of it: to `sqrt` and to `n / (cbrt + 1)`.
pub fn two_prime_correction(n: u64, cbrt: u64, sqrt: u64, table: &PrimeTable) -> (r:
    rug::Integer)
    requires
        table.wf(),
        table.limit() < u64::MAX,
        cbrt <= sqrt,
        sqrt * sqrt <= n,
        sqrt <= table.limit(),
        n / ((cbrt + 1) as u64) <= table.limit(),
    ensures
        integer_value(r) == correction(n as int, cbrt as int, sqrt as int),
{
    let mut total = from_u64(0);
    let mut sum = from_u64(0);
    let mut reached = sqrt;
    let mut next = successor(table, sqrt);
    let mut p = table.prev_prime(sqrt + 1);
    let ghost mut lo = sqrt as int;
    while p > cbrt
        invariant
            table.wf(),
            table.limit() < u64::MAX,
            cbrt <= sqrt,
            sqrt * sqrt <= n,
            sqrt <= table.limit(),
            n / ((cbrt + 1) as u64) <= table.limit(),
            cbrt <= lo <= sqrt <= reached <= table.limit(),
            reached * lo <= n,
            p <= lo,
            p == 0 || is_prime(p as int),
            forall|k: int| p < k <= lo ==> !is_prime(k),
            is_successor(reached as int, table.limit(), next as int),
            integer_value(sum) == prime_square_sum(reached as int) - prime_square_sum(lo),
            integer_value(total) == correction(n as int, lo, sqrt as int),
        decreases p,
    {
        let bound = n / p;
        proof {
            lemma_fundamental_div_mod(n as int, p as int);
            assert(p * p <= n) by (nonlinear_arith)
                requires
                    0 < p <= sqrt,
                    sqrt * sqrt <= n,
            ;
            assert(reached <= bound) by (nonlinear_arith)
                requires
                    reached * lo <= n,
                    0 < p <= lo,
                    reached >= 0,
                    n == p * bound + n % p,
                    n % p < p,
            ;
            lemma_div_is_ordered_by_denominator(n as int, cbrt + 1, p as int);
        }
        let square = from_u64(p * p);
        add_assign(&mut sum, &square);
        absorb(table, &mut sum, &mut reached, &mut next, bound);
        let term = product(&sum, &square);
        add_assign(&mut total, &term);
        proof {
            lemma_prime_square_sum_gap(p as int, lo);
            lemma_correction_gap(n as int, p as int, lo, sqrt as int);
            assert(correction(n as int, p - 1, sqrt as int) == correction(
                n as int,
                p as int,
                sqrt as int,
            ) + correction_term(n as int, p as int));
            let a = prime_square_sum(bound as int) - prime_square_sum(p - 1);
            assert(a * (p * p) == p * p * a) by (nonlinear_arith);
            assert(reached * (p - 1) <= n) by (nonlinear_arith)
                requires
                    reached <= bound,
                    n == p * bound + n % p,
                    n % p >= 0,
                    p >= 1,
                    reached >= 0,
            ;
            lo = p - 1;
        }
        p = table.prev_prime(p);
    }
    proof {
        lemma_correction_gap(n as int, cbrt as int, lo, sqrt as int);
    }
    total
}

} // verus!
