//! Sums of squares over the numbers that a list of primes leaves standing,
//! and Legendre's identity for them.

use crate::numbers::{
    is_prime, lemma_divisor, lemma_multiple, lemma_prime_divides_prime,
    lemma_prime_divides_product, square_sum,
};
use vstd::arithmetic::div_mod::{lemma_fundamental_div_mod, lemma_fundamental_div_mod_converse};
use vstd::prelude::*;

verus! {

/// Every entry is prime, and the entries grow strictly.
pub open spec fn ascending_primes(primes: Seq<u64>) -> bool {
    &&& forall|i: int| 0 <= i < primes.len() ==> is_prime(#[trigger] primes[i] as int)
    &&& forall|i: int, j: int| 0 <= i < j < primes.len() ==> primes[i] < primes[j]
}

/// No entry of `primes` divides `k`.
pub open spec fn coprime_to(k: int, primes: Seq<u64>) -> bool {
    forall|j: int| 0 <= j < primes.len() ==> #[trigger] (k % (primes[j] as int)) != 0
}

/// The sum of `k * k` over the `k` in `1..=x` that no entry of `primes`
/// divides.
pub open spec fn coprime_square_sum(x: int, primes: Seq<u64>) -> int
    decreases x,
{
    if x <= 0 {
        0
    } else {
        coprime_square_sum(x - 1, primes) + (if coprime_to(x, primes) {
            x * x
        } else {
            0
        })
    }
}

/// A prefix of a list of ascending primes is one too.
pub proof fn lemma_ascending_prefix(primes: Seq<u64>, k: int)
    requires
        ascending_primes(primes),
        0 <= k <= primes.len(),
    ensures
        ascending_primes(primes.take(k)),
{
    let t = primes.take(k);
    assert forall|i: int| 0 <= i < t.len() implies is_prime(#[trigger] t[i] as int) by {
        assert(t[i] == primes[i]);
    }
}

/// With no primes to avoid, the sum runs over every number.
pub proof fn lemma_coprime_to_none(x: int, primes: Seq<u64>)
    requires
        primes.len() == 0,
    ensures
        coprime_square_sum(x, primes) == square_sum(x),
    decreases x,
{
    if x > 0 {
        lemma_coprime_to_none(x - 1, primes);
    }
}

/// Stepping from `x - 1` to `x` moves the quotient by `p` exactly when `p`
/// divides `x`.
pub proof fn lemma_quotient_step(x: int, p: int)
    requires
        x >= 1,
        p >= 1,
    ensures
        x % p == 0 ==> x / p == (x - 1) / p + 1,
        x % p != 0 ==> x / p == (x - 1) / p,
{
    lemma_fundamental_div_mod(x, p);
    let q = x / p;
    let r = x % p;
    if r == 0 {
        assert(x - 1 == (q - 1) * p + (p - 1)) by (nonlinear_arith)
            requires
                x == p * q + r,
                r == 0,
        ;
        lemma_fundamental_div_mod_converse(x - 1, p, q - 1, p - 1);
    } else {
        assert(x - 1 == q * p + (r - 1)) by (nonlinear_arith)
            requires
                x == p * q + r,
        ;
        lemma_fundamental_div_mod_converse(x - 1, p, q, r - 1);
    }
}

/// For a prime `p` that is none of `primes`: the entries of `primes` divide
/// `p * j` exactly when they divide `j`.
pub proof fn lemma_coprime_to_multiple(j: int, p: int, primes: Seq<u64>)
    requires
        j >= 0,
        is_prime(p),
        forall|i: int| 0 <= i < primes.len() ==> is_prime(#[trigger] primes[i] as int),
        forall|i: int| 0 <= i < primes.len() ==> #[trigger] primes[i] != p,
    ensures
        coprime_to(p * j, primes) <==> coprime_to(j, primes),
{
    assert(p * j >= 0) by (nonlinear_arith)
        requires
            p >= 2,
            j >= 0,
    ;
    if coprime_to(j, primes) {
        assert forall|i: int| 0 <= i < primes.len() implies #[trigger] ((p * j) % (
        primes[i] as int)) != 0 by {
            let q = primes[i] as int;
            assert(is_prime(primes[i] as int));
            if (p * j) % q == 0 {
                lemma_prime_divides_product(q, p, j);
                if p % q == 0 {
                    lemma_prime_divides_prime(q, p);
                    assert(primes[i] != p);
                }
                assert(j % (primes[i] as int) != 0);
            }
        }
    }
    if coprime_to(p * j, primes) {
        assert forall|i: int| 0 <= i < primes.len() implies #[trigger] (j % (primes[i] as int))
            != 0 by {
            let q = primes[i] as int;
            assert(is_prime(primes[i] as int));
            if j % q == 0 {
                lemma_divisor(j, q);
                let t = j / q;
                assert(p * j == q * (p * t)) by (nonlinear_arith)
                    requires
                        j == q * t,
                ;
                lemma_multiple(q, p * t);
                assert((p * j) % (primes[i] as int) != 0);
            }
        }
    }
}

/// Legendre's identity: taking one more prime into the list removes from the
/// sum the multiples of that prime which the list so far left standing.
pub proof fn lemma_legendre(x: int, primes: Seq<u64>, k: int)
    requires
        x >= 0,
        ascending_primes(primes),
        0 <= k < primes.len(),
    ensures
        coprime_square_sum(x, primes.take(k + 1)) == coprime_square_sum(x, primes.take(k))
            - primes[k] * primes[k] * coprime_square_sum(x / (primes[k] as int), primes.take(k)),
    decreases x,
{
    let p = primes[k] as int;
    let less = primes.take(k);
    let more = primes.take(k + 1);
    assert(is_prime(primes[k] as int));
    if x == 0 {
        assert(0int / p == 0);
        assert(p * p * 0 == 0) by (nonlinear_arith);
    } else {
        lemma_legendre(x - 1, primes, k);
        lemma_quotient_step(x, p);
        assert(more[k] == primes[k]);
        // what `x` adds to the sum over the longer list
        if coprime_to(x, more) {
            assert(x % (more[k] as int) != 0);
            assert forall|j: int| 0 <= j < less.len() implies #[trigger] (x % (less[j] as int))
                != 0 by {
                assert(less[j] == more[j]);
                assert(x % (more[j] as int) != 0);
            }
            assert(coprime_to(x, less));
        }
        if coprime_to(x, less) && x % p != 0 {
            assert forall|j: int| 0 <= j < more.len() implies #[trigger] (x % (more[j] as int))
                != 0 by {
                if j < k {
                    assert(less[j] == more[j]);
                    assert(x % (less[j] as int) != 0);
                }
            }
            assert(coprime_to(x, more));
        }
        assert(coprime_to(x, more) <==> coprime_to(x, less) && x % p != 0);
        if x % p == 0 {
            let j = x / p;
            lemma_divisor(x, p);
            assert(j >= 1) by (nonlinear_arith)
                requires
                    x == p * j,
                    x >= 1,
                    p >= 2,
            ;
            assert forall|i: int| 0 <= i < less.len() implies is_prime(
                #[trigger] less[i] as int,
            ) by {
                assert(less[i] == primes[i]);
            }
            assert forall|i: int| 0 <= i < less.len() implies #[trigger] less[i] != p by {
                assert(less[i] == primes[i]);
            }
            lemma_coprime_to_multiple(j, p, less);
            assert(p * p * (coprime_square_sum(j - 1, less) + j * j) == p * p
                * coprime_square_sum(j - 1, less) + x * x) by (nonlinear_arith)
                requires
                    x == p * j,
            ;
            assert(p * p * (coprime_square_sum(j - 1, less) + 0) == p * p * coprime_square_sum(
                j - 1,
                less,
            ));
        }
    }
}

} // verus!
