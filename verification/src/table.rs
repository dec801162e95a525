//! A table of the primes up to a limit, made by the sieve of Eratosthenes,
//! with the walks over it that the summation needs: all primes up to a
//! bound in ascending order, the next prime after a number, and the last
//! prime before one.

use crate::coprime::ascending_primes;
use crate::numbers::{
    is_prime, lemma_divides_transitive, lemma_divisor, lemma_divisor_bound, lemma_multiple,
    lemma_no_multiple_between, lemma_small_prime_factor,
};
use vstd::arithmetic::div_mod::{lemma_fundamental_div_mod, lemma_mod_adds};
use vstd::prelude::*;

verus! {

/// The primes up to `bound`, in ascending order.
pub open spec fn primes_to(bound: int) -> Seq<u64>
    decreases bound,
{
    if bound < 2 {
        Seq::empty()
    } else if is_prime(bound) {
        primes_to(bound - 1).push(bound as u64)
    } else {
        primes_to(bound - 1)
    }
}

/// The list holds every prime up to the bound and nothing else, each once
/// and in ascending order.
pub proof fn lemma_primes_to(bound: int)
    requires
        bound <= u64::MAX,
    ensures
        ascending_primes(primes_to(bound)),
        forall|i: int| 0 <= i < primes_to(bound).len() ==> 2 <= #[trigger] primes_to(bound)[i]
            <= bound,
        forall|p: int|
            is_prime(p) && p <= bound ==> exists|i: int|
                0 <= i < primes_to(bound).len() && #[trigger] primes_to(bound)[i] == p,
        primes_to(bound).len() <= bound || bound < 0,
    decreases bound,
{
    if bound >= 2 {
        lemma_primes_to(bound - 1);
        let before = primes_to(bound - 1);
        let now = primes_to(bound);
        assert forall|p: int| is_prime(p) && p <= bound implies exists|i: int|
            0 <= i < now.len() && #[trigger] now[i] == p by {
            if p < bound {
                let i = choose|i: int| 0 <= i < before.len() && #[trigger] before[i] == p;
                assert(now[i] == p);
            } else {
                assert(now[now.len() - 1] == p);
            }
        }
    }
}

/// `k` is at least 2 and has no divisor `d` with `2 <= d < i` other than
/// itself: what the sieve has not struck when it reaches `i`.
pub open spec fn unstruck(k: int, i: int) -> bool {
    k >= 2 && forall|d: int| 2 <= d < i && d < k ==> #[trigger] (k % d) != 0
}

/// With the multiples of `i` from `i * i` on struck, the sieve is done
/// with `i`.
pub proof fn lemma_sieve_step(k: int, i: int)
    requires
        i >= 2,
        k >= 0,
    ensures
        unstruck(i, i) ==> (unstruck(k, i + 1) <==> unstruck(k, i) && !(k % i == 0 && i * i
            <= k)),
        !unstruck(i, i) ==> (unstruck(k, i + 1) <==> unstruck(k, i)),
{
    if unstruck(k, i) && k % i == 0 && i < k {
        lemma_divisor(k, i);
        let t = k / i;
        assert(t >= 2) by (nonlinear_arith)
            requires
                k == i * t,
                i < k,
                i >= 2,
        ;
        lemma_multiple(t, i);
        assert(k == t * i) by (nonlinear_arith)
            requires
                k == i * t,
        ;
        assert(k % t == 0);
        assert(t < k) by (nonlinear_arith)
            requires
                k == i * t,
                i >= 2,
                t >= 2,
        ;
        if t < i {
            assert(false);
        }
        assert(i * i <= k) by (nonlinear_arith)
            requires
                k == i * t,
                t >= i,
                i >= 2,
        ;
        if !unstruck(i, i) {
            let d = choose|d: int| 2 <= d < i && d < i && #[trigger] (i % d) == 0;
            lemma_divides_transitive(d, i, k);
            assert(false);
        }
    }
    if k % i == 0 && i * i <= k {
        assert(i < k) by (nonlinear_arith)
            requires
                i * i <= k,
                i >= 2,
        ;
    }
}

/// Once the square of `i` exceeds a number, what the sieve has left of it
/// tells whether it is prime.
pub proof fn lemma_sieve_done(k: int, i: int)
    requires
        i >= 2,
        0 <= k < i * i,
    ensures
        unstruck(k, i) <==> is_prime(k),
{
    if unstruck(k, i) && !is_prime(k) {
        let p = lemma_small_prime_factor(k);
        assert(p < i) by (nonlinear_arith)
            requires
                p * p <= k,
                k < i * i,
                p >= 2,
                i >= 2,
        ;
        lemma_divisor_bound(k, p);
        if p == k {
            assert(false) by (nonlinear_arith)
                requires
                    p * p <= k,
                    p == k,
                    p >= 2,
            ;
        }
    }
}

/// Strikes from the table the multiples of `i` from `i * i` on. For an odd
/// `i` every other multiple is even, and struck already: those are passed
/// over.
fn strike_multiples(flags: &mut Vec<bool>, i: usize, limit: usize)
    requires
        2 <= i,
        i * i <= limit,
        2 * limit < usize::MAX,
        unstruck(i as int, i as int),
        old(flags)@.len() == limit + 1,
        forall|k: int| 0 <= k <= limit ==> #[trigger] old(flags)@[k] == unstruck(k, i as int),
    ensures
        final(flags)@.len() == limit + 1,
        forall|k: int| 0 <= k <= limit ==> #[trigger] final(flags)@[k] == unstruck(k, i + 1),
{
    proof {
        assert(2 * i <= i * i) by (nonlinear_arith)
            requires
                i >= 2,
        ;
        lemma_multiple(i as int, i as int);
        if i > 2 {
            assert(i as int % 2 != 0);
            let m = i as int / 2;
            assert(i * i == 2 * (2 * m * m + 2 * m) + 1) by (nonlinear_arith)
                requires
                    i == 2 * m + 1,
            ;
        }
    }
    let step: usize = if i == 2 {
        2
    } else {
        2 * i
    };
    let mut j: usize = i * i;
    while j <= limit
        invariant
            2 <= i,
            2 * i <= limit,
            i * i <= j,
            i * i <= limit,
            j <= limit + step,
            j % i == 0,
            i > 2 ==> i % 2 == 1 && j % 2 == 1,
            step == (if i == 2 {
                2
            } else {
                2 * i
            }),
            2 * limit < usize::MAX,
            flags@.len() == limit + 1,
            unstruck(i as int, i as int),
            forall|k: int|
                0 <= k <= limit ==> #[trigger] flags@[k] == (unstruck(k, i as int) && !(k % (
                i as int) == 0 && i * i <= k < j)),
        decreases limit + step - j,
    {
        let ghost before = flags@;
        flags[j] = false;
        proof {
            lemma_mod_adds(j as int, i as int, i as int);
            lemma_mod_adds(j + i, i as int, i as int);
            assert(i % i == 0) by (nonlinear_arith)
                requires
                    i >= 2,
            ;
            assert forall|k: int| 0 <= k <= limit implies #[trigger] flags@[k] == (unstruck(
                k,
                i as int,
            ) && !(k % (i as int) == 0 && i * i <= k < j + step)) by {
                assert(before[k] == (unstruck(k, i as int) && !(k % (i as int) == 0 && i * i <= k
                    < j)));
                if j < k < j + i {
                    lemma_no_multiple_between(j as int, k, i as int);
                } else if k == j + i && i > 2 {
                    assert(k % 2 == 0);
                    assert(!unstruck(k, i as int));
                } else if j + i < k < j + step {
                    lemma_no_multiple_between(j + i, k, i as int);
                }
            }
        }
        j = j + step;
    }
    proof {
        assert forall|k: int| 0 <= k <= limit implies #[trigger] flags@[k] == unstruck(
            k,
            i + 1,
        ) by {
            lemma_sieve_step(k, i as int);
        }
    }
}

/// A table that tells, for each number up to a limit, whether it is prime.
pub struct PrimeTable {
    flags: Vec<bool>,
}

impl PrimeTable {
    /// The largest number that the table covers.
    pub closed spec fn limit(&self) -> int {
        self.flags@.len() - 1
    }

    /// The table is right about every number it covers.
    pub closed spec fn wf(&self) -> bool {
        &&& 1 <= self.flags@.len() <= usize::MAX
        &&& forall|k: int| 0 <= k < self.flags@.len() ==> #[trigger] self.flags@[k] == is_prime(k)
    }

    /// The table for the numbers up to `limit`.
    pub fn sieve(limit: usize) -> (r: Self)
        requires
            2 * limit < usize::MAX,
        ensures
            r.wf(),
            r.limit() == limit,
    {
        let mut flags: Vec<bool> = Vec::new();
        flags.resize(limit + 1, true);
        flags[0] = false;
        if limit >= 1 {
            flags[1] = false;
        }
        let mut i: usize = 2;
        while i <= limit / i
            invariant
                2 <= i,
                2 * limit < usize::MAX,
                flags@.len() == limit + 1,
                forall|k: int| 0 <= k <= limit ==> #[trigger] flags@[k] == unstruck(k, i as int),
            decreases limit - i,
        {
            proof {
                lemma_fundamental_div_mod(limit as int, i as int);
                assert(i * i <= limit) by (nonlinear_arith)
                    requires
                        i <= limit / i,
                        limit == i * (limit / i) + limit % i,
                        limit % i >= 0,
                        i >= 2,
                ;
                assert(i < limit) by (nonlinear_arith)
                    requires
                        i * i <= limit,
                        i >= 2,
                ;
            }
            if flags[i] {
                strike_multiples(&mut flags, i, limit);
            } else {
                proof {
                    assert forall|k: int| 0 <= k <= limit implies #[trigger] flags@[k] == unstruck(
                        k,
                        i + 1,
                    ) by {
                        lemma_sieve_step(k, i as int);
                    }
                }
            }
            i = i + 1;
        }
        proof {
            lemma_fundamental_div_mod(limit as int, i as int);
            assert(limit < i * i) by (nonlinear_arith)
                requires
                    i > limit / i,
                    limit == i * (limit / i) + limit % i,
                    limit % i < i,
                    i >= 2,
            ;
            assert forall|k: int| 0 <= k <= limit implies #[trigger] flags@[k] == is_prime(k) by {
                lemma_sieve_done(k, i as int);
            }
        }
        PrimeTable { flags }
    }

    /// The primes up to `bound`, in ascending order.
    pub fn primes_up_to(&self, bound: u64) -> (r: Vec<u64>)
        requires
            self.wf(),
            bound <= self.limit(),
        ensures
            r@ == primes_to(bound as int),
    {
        let mut primes: Vec<u64> = Vec::new();
        let mut k: u64 = 2;
        while k <= bound
            invariant
                self.wf(),
                bound <= self.limit(),
                2 <= k,
                k <= bound + 1 || k == 2,
                primes@ == primes_to(k - 1),
            decreases bound + 1 - k,
        {
            if self.flags[k as usize] {
                primes.push(k);
            }
            k = k + 1;
        }
        primes
    }

    /// The least prime above `after`, where the table holds one.
    pub fn next_prime(&self, after: u64) -> (r: Option<u64>)
        requires
            self.wf(),
        ensures
            match r {
                Some(p) => after < p <= self.limit() && is_prime(p as int) && forall|k: int|
                    after < k < p ==> !is_prime(k),
                None => forall|k: int| after < k <= self.limit() ==> !is_prime(k),
            },
    {
        if after as u128 + 1 >= self.flags.len() as u128 {
            return None;
        }
        let mut k: usize = after as usize + 1;
        while k < self.flags.len()
            invariant
                self.wf(),
                after < k <= self.flags@.len(),
                forall|m: int| after < m < k ==> !is_prime(m),
            decreases self.flags@.len() - k,
        {
            if self.flags[k] {
                return Some(k as u64);
            }
            k = k + 1;
        }
        None
    }

    /// The greatest prime below `before` that the table holds, and zero
    /// where there is none.
    pub fn prev_prime(&self, before: u64) -> (r: u64)
        requires
            self.wf(),
        ensures
            r < before || r == 0,
            r <= self.limit(),
            r == 0 || is_prime(r as int),
            forall|k: int| r < k < before && k <= self.limit() ==> !is_prime(k),
    {
        let mut k: usize = if before as u128 >= self.flags.len() as u128 {
            self.flags.len() - 1
        } else if before == 0 {
            0
        } else {
            before as usize - 1
        };
        while k > 0
            invariant
                self.wf(),
                k < self.flags@.len(),
                k < before || k == 0,
                forall|m: int| k < m < before && m <= self.limit() ==> !is_prime(m),
            decreases k,
        {
            if self.flags[k] {
                return k as u64;
            }
            k = k - 1;
        }
        0
    }
}

} // verus!
