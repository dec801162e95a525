//! Primes and divisibility: the definitions that the contracts of this
//! crate are stated over, and the facts about them that the proofs use.

use vstd::arithmetic::div_mod::{
    lemma_div_multiples_vanish, lemma_fundamental_div_mod, lemma_fundamental_div_mod_converse,
    lemma_mod_multiples_basic,
};
use vstd::prelude::*;

verus! {

/// `p` is a prime number.
pub open spec fn is_prime(p: int) -> bool {
    p >= 2 && forall|d: int| 1 < d < p ==> #[trigger] (p % d) != 0
}

/// The sum of `p * p` over the primes `p <= n`.
pub open spec fn prime_square_sum(n: int) -> int
    decreases n,
{
    if n <= 0 {
        0
    } else {
        prime_square_sum(n - 1) + (if is_prime(n) {
            n * n
        } else {
            0
        })
    }
}

/// The sum `1 + 4 + 9 + ... + x * x`.
pub open spec fn square_sum(x: int) -> int
    decreases x,
{
    if x <= 0 {
        0
    } else {
        square_sum(x - 1) + x * x
    }
}

/// A multiple of `d` leaves no remainder, and dividing it by `d` gives the
/// other factor back.
pub proof fn lemma_multiple(d: int, q: int)
    requires
        d > 0,
    ensures
        (d * q) % d == 0,
        (q * d) % d == 0,
        (d * q) / d == q,
        (q * d) / d == q,
{
    lemma_mod_multiples_basic(q, d);
    lemma_div_multiples_vanish(q, d);
    assert(d * q == q * d) by (nonlinear_arith);
}

/// A number that `d` divides is `d` times its quotient.
pub proof fn lemma_divisor(k: int, d: int)
    requires
        d > 0,
        k % d == 0,
    ensures
        k == d * (k / d),
        k == (k / d) * d,
{
    lemma_fundamental_div_mod(k, d);
    assert(d * (k / d) == (k / d) * d) by (nonlinear_arith);
}

/// Divisibility passes along a chain: `a | b` and `b | c` give `a | c`.
pub proof fn lemma_divides_transitive(a: int, b: int, c: int)
    requires
        a > 0,
        b > 0,
        b % a == 0,
        c % b == 0,
    ensures
        c % a == 0,
{
    lemma_divisor(b, a);
    lemma_divisor(c, b);
    let q = b / a;
    let r = c / b;
    assert(c == a * (q * r)) by (nonlinear_arith)
        requires
            c == b * r,
            b == a * q,
    ;
    lemma_multiple(a, q * r);
}

/// A positive multiple of `d` is at least `d`.
pub proof fn lemma_divisor_bound(k: int, d: int)
    requires
        d > 0,
        k > 0,
        k % d == 0,
    ensures
        d <= k,
        k / d >= 1,
{
    lemma_divisor(k, d);
    let q = k / d;
    assert(q >= 1) by (nonlinear_arith)
        requires
            k == d * q,
            k > 0,
            d > 0,
    ;
    assert(d <= k) by (nonlinear_arith)
        requires
            k == d * q,
            q >= 1,
            d > 0,
    ;
}

/// Between two consecutive multiples of `d` no number is a multiple of `d`.
pub proof fn lemma_no_multiple_between(c: int, m: int, d: int)
    requires
        d > 0,
        c % d == 0,
        c < m < c + d,
    ensures
        m % d != 0,
{
    lemma_divisor(c, d);
    lemma_fundamental_div_mod_converse(m, d, c / d, m - c);
}

/// Every number from 2 on has a prime divisor.
pub proof fn lemma_prime_factor(k: int) -> (p: int)
    requires
        k >= 2,
    ensures
        is_prime(p),
        k % p == 0,
        2 <= p <= k,
    decreases k,
{
    if is_prime(k) {
        lemma_multiple(k, 1);
        k
    } else {
        let d = choose|d: int| 1 < d < k && #[trigger] (k % d) == 0;
        let p = lemma_prime_factor(d);
        lemma_divides_transitive(p, d, k);
        p
    }
}

/// A number from 2 on that is not prime has a prime divisor whose square does
/// not exceed it.
pub proof fn lemma_small_prime_factor(k: int) -> (p: int)
    requires
        k >= 2,
        !is_prime(k),
    ensures
        is_prime(p),
        k % p == 0,
        p * p <= k,
{
    let d = choose|d: int| 1 < d < k && #[trigger] (k % d) == 0;
    lemma_divisor(k, d);
    let e = k / d;
    assert(1 < e) by (nonlinear_arith)
        requires
            k == d * e,
            1 < d < k,
    ;
    lemma_multiple(e, d);
    assert(k == e * d) by (nonlinear_arith)
        requires
            k == d * e,
    ;
    let m = if d <= e {
        d
    } else {
        e
    };
    assert(m * m <= k) by (nonlinear_arith)
        requires
            k == d * e,
            m == d || m == e,
            m <= d,
            m <= e,
            m > 0,
    ;
    let p = lemma_prime_factor(m);
    lemma_divides_transitive(p, m, k);
    assert(p * p <= m * m) by (nonlinear_arith)
        requires
            2 <= p <= m,
    ;
    p
}

/// A prime that divides a product divides one of the factors.
pub proof fn lemma_prime_divides_product(p: int, a: int, b: int)
    requires
        is_prime(p),
        a >= 0,
        b >= 0,
        (a * b) % p == 0,
    ensures
        a % p == 0 || b % p == 0,
    decreases a,
{
    if a == 0 {
    } else if a >= p {
        let r = a % p;
        let q = a / p;
        lemma_fundamental_div_mod(a, p);
        lemma_divisor(a * b, p);
        let t = (a * b) / p;
        assert(r * b == p * (t - q * b)) by (nonlinear_arith)
            requires
                a == p * q + r,
                a * b == p * t,
        ;
        lemma_multiple(p, t - q * b);
        assert((r * b) % p == 0);
        lemma_prime_divides_product(p, r, b);
        if r % p == 0 {
            if r > 0 {
                lemma_divisor_bound(r, p);
            }
            assert(r == 0);
        }
    } else if a == 1 {
        assert(a * b == b) by (nonlinear_arith)
            requires
                a == 1,
        ;
    } else {
        let r = p % a;
        let q = p / a;
        lemma_fundamental_div_mod(p, a);
        assert(r != 0);
        lemma_divisor(a * b, p);
        let t = (a * b) / p;
        assert(r * b == p * (b - q * t)) by (nonlinear_arith)
            requires
                p == a * q + r,
                a * b == p * t,
        ;
        lemma_multiple(p, b - q * t);
        assert((r * b) % p == 0);
        lemma_prime_divides_product(p, r, b);
        if r % p == 0 {
            lemma_divisor_bound(r, p);
        }
    }
}

/// One prime divides another only when the two are equal.
pub proof fn lemma_prime_divides_prime(q: int, p: int)
    requires
        is_prime(q),
        is_prime(p),
        p % q == 0,
    ensures
        q == p,
{
    lemma_divisor_bound(p, q);
}

/// The closed form of the sum of squares: six times the sum is
/// `x (x + 1) (2x + 1)`.
pub proof fn lemma_square_sum_closed(x: int)
    requires
        x >= 0,
    ensures
        6 * square_sum(x) == x * (x + 1) * (2 * x + 1),
        square_sum(x) == (x * (x + 1) * (2 * x + 1)) / 6,
        square_sum(x) >= 0,
    decreases x,
{
    if x > 0 {
        lemma_square_sum_closed(x - 1);
        assert(6 * (square_sum(x - 1) + x * x) == x * (x + 1) * (2 * x + 1)) by (nonlinear_arith)
            requires
                6 * square_sum(x - 1) == (x - 1) * (x - 1 + 1) * (2 * (x - 1) + 1),
        ;
        assert(x * x >= 0) by (nonlinear_arith);
    } else {
        assert(x * (x + 1) * (2 * x + 1) == 0) by (nonlinear_arith)
            requires
                x == 0,
        ;
    }
    lemma_multiple(6, square_sum(x));
}

/// The sum over the primes only grows with its bound, and never is negative.
pub proof fn lemma_prime_square_sum_monotonic(m: int, n: int)
    requires
        m <= n,
    ensures
        0 <= prime_square_sum(m) <= prime_square_sum(n),
    decreases n - m, n,
{
    if m < n {
        lemma_prime_square_sum_monotonic(m, n - 1);
        if n > 0 {
            assert(n * n >= 0) by (nonlinear_arith);
        }
    } else if n > 0 {
        lemma_prime_square_sum_monotonic(n - 1, n - 1);
        assert(n * n >= 0) by (nonlinear_arith);
    }
}

/// Where an interval holds no prime, the sum over the primes is the same at
/// both of its ends.
pub proof fn lemma_prime_square_sum_gap(m: int, n: int)
    requires
        m <= n,
        forall|k: int| m < k <= n ==> !is_prime(k),
    ensures
        prime_square_sum(m) == prime_square_sum(n),
    decreases n - m,
{
    if m < n {
        lemma_prime_square_sum_gap(m, n - 1);
        if n <= 0 {
            assert(prime_square_sum(n) == 0);
            assert(prime_square_sum(n - 1) == 0);
        }
    }
}

} // verus!
