//! Why the method is right: the identity that ties the sum over the numbers
//! without small prime factors to the sum over the primes.
//!
//! A number up to `n` that no prime up to the cube root of `n` divides is 1,
//! a prime, or a product of two primes above the cube root. So the sum over
//! the primes is the sum over those numbers, less 1, plus the squares of the
//! small primes, less the squares of the products of two large primes.

use crate::coprime::{coprime_square_sum, coprime_to, lemma_quotient_step};
use crate::numbers::{
    is_prime, lemma_divisor, lemma_multiple, lemma_prime_divides_prime,
    lemma_prime_divides_product, lemma_prime_factor, lemma_small_prime_factor,
    prime_square_sum,
};
use crate::table::{lemma_primes_to, primes_to};
use vstd::arithmetic::div_mod::{lemma_fundamental_div_mod, lemma_small_mod};
use vstd::prelude::*;

verus! {

/// No prime up to `t` divides `k`.
pub open spec fn rough(k: int, t: int) -> bool {
    forall|q: int| is_prime(q) && q <= t ==> #[trigger] (k % q) != 0
}

/// The sum of `k * k` over the `k` in `1..=m` that no prime up to `t`
/// divides.
pub open spec fn rough_square_sum(m: int, t: int) -> int
    decreases m,
{
    if m <= 0 {
        0
    } else {
        rough_square_sum(m - 1, t) + (if rough(m, t) {
            m * m
        } else {
            0
        })
    }
}

/// For a prime `p`: the sum of `(p * r) * (p * r)` over the primes `r` from
/// `p` to `n / p`. For any other `p`: zero.
pub open spec fn correction_term(n: int, p: int) -> int {
    if is_prime(p) {
        p * p * (prime_square_sum(n / p) - prime_square_sum(p - 1))
    } else {
        0
    }
}

/// The sum of the squares of the products `p * r <= n` of two primes with
/// `lo < p <= hi` and `p <= r`.
pub open spec fn correction(n: int, lo: int, hi: int) -> int
    decreases hi - lo,
{
    if lo >= hi {
        0
    } else {
        correction(n, lo + 1, hi) + correction_term(n, lo + 1)
    }
}

/// The sum of the squares of the entries.
pub open spec fn squares_total(primes: Seq<u64>) -> int
    decreases primes.len(),
{
    if primes.len() == 0 {
        0
    } else {
        squares_total(primes.drop_last()) + primes.last() * primes.last()
    }
}

/// The squares of the primes up to a bound add up to the sum over the
/// primes up to it.
pub proof fn lemma_squares_of_primes(bound: int)
    requires
        bound <= u64::MAX,
    ensures
        squares_total(primes_to(bound)) == prime_square_sum(bound),
    decreases bound,
{
    if bound >= 2 {
        lemma_squares_of_primes(bound - 1);
        if is_prime(bound) {
            let list = primes_to(bound);
            assert(list.drop_last() =~= primes_to(bound - 1));
        }
    } else if bound >= 1 {
        assert(prime_square_sum(0) == 0);
    }
}

/// Where an interval holds no prime, it adds nothing to the correction.
pub proof fn lemma_correction_gap(n: int, lo: int, mid: int, hi: int)
    requires
        lo <= mid <= hi,
        forall|k: int| lo < k <= mid ==> !is_prime(k),
    ensures
        correction(n, lo, hi) == correction(n, mid, hi),
    decreases mid - lo,
{
    if lo < mid {
        lemma_correction_gap(n, lo + 1, mid, hi);
    }
}

/// The list of the primes up to `c` divides what the primes up to `c`
/// divide.
pub proof fn lemma_coprime_is_rough(k: int, c: int)
    requires
        c <= u64::MAX,
    ensures
        coprime_to(k, primes_to(c)) <==> rough(k, c),
{
    lemma_primes_to(c);
    let list = primes_to(c);
    if coprime_to(k, list) {
        assert forall|q: int| is_prime(q) && q <= c implies #[trigger] (k % q) != 0 by {
            let i = choose|i: int| 0 <= i < list.len() && #[trigger] list[i] == q;
            assert(k % (list[i] as int) != 0);
        }
    }
    if rough(k, c) {
        assert forall|j: int| 0 <= j < list.len() implies #[trigger] (k % (list[j] as int))
            != 0 by {
            assert(is_prime(list[j] as int));
            assert(2 <= list[j] <= c);
        }
    }
}

/// The sum over the numbers that the list of the primes up to `c` leaves
/// standing is the sum over the numbers that no prime up to `c` divides.
pub proof fn lemma_coprime_sum_is_rough_sum(m: int, c: int)
    requires
        c <= u64::MAX,
    ensures
        coprime_square_sum(m, primes_to(c)) == rough_square_sum(m, c),
    decreases m,
{
    if m > 0 {
        lemma_coprime_sum_is_rough_sum(m - 1, c);
        lemma_coprime_is_rough(m, c);
    }
}

/// Legendre's identity, by thresholds: raising the threshold to a prime `t`
/// removes the multiples of `t` that the threshold below left standing, and
/// raising it to any other number changes nothing.
pub proof fn lemma_rough_step(m: int, t: int)
    requires
        m >= 0,
        t >= 1,
    ensures
        rough_square_sum(m, t) == rough_square_sum(m, t - 1) - (if is_prime(t) {
            t * t * rough_square_sum(m / t, t - 1)
        } else {
            0
        }),
    decreases m,
{
    if m == 0 {
        assert(0int / t == 0);
        assert(t * t * 0 == 0) by (nonlinear_arith);
    } else {
        lemma_rough_step(m - 1, t);
        if rough(m, t - 1) && !(is_prime(t) && m % t == 0) {
            assert forall|q: int| is_prime(q) && q <= t implies #[trigger] (m % q) != 0 by {}
        }
        assert(rough(m, t) <==> rough(m, t - 1) && !(is_prime(t) && m % t == 0));
        if is_prime(t) {
            lemma_quotient_step(m, t);
            if m % t == 0 {
                let j = m / t;
                lemma_divisor(m, t);
                assert(j >= 1) by (nonlinear_arith)
                    requires
                        m == t * j,
                        m >= 1,
                        t >= 2,
                ;
                if rough(j, t - 1) {
                    assert forall|q: int| is_prime(q) && q <= t - 1 implies #[trigger] (m % q)
                        != 0 by {
                        if m % q == 0 {
                            assert((t * j) % q == 0);
                            lemma_prime_divides_product(q, t, j);
                            if t % q == 0 {
                                lemma_prime_divides_prime(q, t);
                            }
                            assert(j % q != 0);
                        }
                    }
                }
                if rough(m, t - 1) {
                    assert forall|q: int| is_prime(q) && q <= t - 1 implies #[trigger] (j % q)
                        != 0 by {
                        if j % q == 0 {
                            lemma_divisor(j, q);
                            let u = j / q;
                            assert(m == q * (t * u)) by (nonlinear_arith)
                                requires
                                    m == t * j,
                                    j == q * u,
                            ;
                            lemma_multiple(q, t * u);
                            assert(m % q != 0);
                        }
                    }
                }
                assert(rough(m, t - 1) <==> rough(j, t - 1));
                assert(t * t * (rough_square_sum(j - 1, t - 1) + j * j) == t * t
                    * rough_square_sum(j - 1, t - 1) + m * m) by (nonlinear_arith)
                    requires
                        m == t * j,
                ;
                assert(t * t * (rough_square_sum(j - 1, t - 1) + 0) == t * t * rough_square_sum(
                    j - 1,
                    t - 1,
                ));
            }
        }
    }
}

/// Up to the threshold itself, only 1 is left standing.
pub proof fn lemma_rough_below(m: int, t: int)
    requires
        1 <= m <= t,
    ensures
        rough_square_sum(m, t) == 1,
    decreases m,
{
    if m == 1 {
        assert(rough_square_sum(0, t) == 0);
        assert forall|q: int| is_prime(q) && q <= t implies #[trigger] (1int % q) != 0 by {
            lemma_small_mod(1, q as nat);
        }
    } else {
        lemma_rough_below(m - 1, t);
        let q = lemma_prime_factor(m);
        assert(m % q == 0);
        assert(!rough(m, t));
    }
}

/// Below the square of the next number after the threshold, what is left
/// standing above the threshold is the primes.
pub proof fn lemma_rough_small(m: int, t: int)
    requires
        1 <= t <= m,
        m < (t + 1) * (t + 1),
    ensures
        rough_square_sum(m, t) == 1 + prime_square_sum(m) - prime_square_sum(t),
    decreases m,
{
    if m == t {
        lemma_rough_below(m, t);
    } else {
        assert(m - 1 < (t + 1) * (t + 1));
        lemma_rough_small(m - 1, t);
        if is_prime(m) {
            assert forall|q: int| is_prime(q) && q <= t implies #[trigger] (m % q) != 0 by {
                if m % q == 0 {
                    lemma_prime_divides_prime(q, m);
                }
            }
        } else {
            let p = lemma_small_prime_factor(m);
            assert(p <= t) by (nonlinear_arith)
                requires
                    p * p <= m,
                    m < (t + 1) * (t + 1),
                    p >= 2,
                    t >= 1,
            ;
            assert(!rough(m, t));
        }
    }
}

/// From a threshold at or above the cube root up to the square root, the
/// sums differ by the squares of the primes between and by the correction
/// for the products of two primes.
pub proof fn lemma_telescope(n: int, c: int, lo: int, s: int)
    requires
        n >= 1,
        1 <= c <= lo <= s,
        s * s <= n,
        n < (c + 1) * (c + 1) * (c + 1),
    ensures
        rough_square_sum(n, lo) == rough_square_sum(n, s) + prime_square_sum(s)
            - prime_square_sum(lo) + correction(n, lo, s),
    decreases s - lo,
{
    if lo < s {
        let t = lo + 1;
        lemma_telescope(n, c, t, s);
        lemma_rough_step(n, t);
        if is_prime(t) {
            lemma_fundamental_div_mod(n, t);
            let q = n / t;
            assert(t * t <= n) by (nonlinear_arith)
                requires
                    2 <= t <= s,
                    s * s <= n,
            ;
            assert(q >= t) by (nonlinear_arith)
                requires
                    n == t * q + n % t,
                    n % t < t,
                    t * t <= n,
                    t >= 2,
            ;
            assert(n < t * t * t) by (nonlinear_arith)
                requires
                    n < (c + 1) * (c + 1) * (c + 1),
                    1 <= c,
                    c + 1 <= t,
            ;
            assert(q < t * t) by (nonlinear_arith)
                requires
                    n == t * q + n % t,
                    n % t >= 0,
                    n < t * t * t,
                    t >= 2,
            ;
            lemma_rough_small(q, t - 1);
            let a = prime_square_sum(q);
            let b = prime_square_sum(t - 1);
            assert(t * t * (1 + a - b) == t * t + t * t * (a - b)) by (nonlinear_arith);
        }
    }
}

/// The identity of the method. With `c` the cube root of `n` and `s` its
/// square root, both rounded down: the sum over the primes up to `n` is the
/// sum over the numbers up to `n` that the primes up to `c` leave standing,
/// less 1, plus the sum over the primes up to `c`, less the correction for
/// the products of two primes above `c`.
pub proof fn lemma_prime_sum_identity(n: int, c: int, s: int)
    requires
        1 <= n,
        0 <= c <= u64::MAX,
        0 <= s,
        c * c * c <= n < (c + 1) * (c + 1) * (c + 1),
        s * s <= n < (s + 1) * (s + 1),
    ensures
        1 <= c <= s <= n,
        prime_square_sum(n) == coprime_square_sum(n, primes_to(c)) - 1 + prime_square_sum(c)
            - correction(n, c, s),
{
    assert(c >= 1) by (nonlinear_arith)
        requires
            1 <= n < (c + 1) * (c + 1) * (c + 1),
            c >= 0,
    ;
    assert(s >= 1) by (nonlinear_arith)
        requires
            1 <= n < (s + 1) * (s + 1),
            s >= 0,
    ;
    assert(c <= s) by (nonlinear_arith)
        requires
            c * c * c <= n,
            n < (s + 1) * (s + 1),
            c >= 1,
            s >= 1,
    ;
    assert(s <= n) by (nonlinear_arith)
        requires
            s * s <= n,
            s >= 1,
    ;
    lemma_coprime_sum_is_rough_sum(n, c);
    lemma_telescope(n, c, c, s);
    lemma_rough_small(n, s);
}

} // verus!
