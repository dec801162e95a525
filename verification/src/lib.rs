//! The sum of the squares of the primes up to a bound, in time well below
//! the bound itself.
//!
//! The sum over all numbers up to `n` that no prime up to the cube root of
//! `n` divides is taken apart by inclusion and exclusion ([`phi`]). The
//! parts with small bounds are put off as queries, sorted ([`batch`]), and
//! answered together in one sweep of an incremental sieve ([`sweep`], with
//! its queue in [`wheel`] and its running sums in [`tree`]). What that sum
//! holds besides the primes is then taken out ([`boundary`]). That the
//! outcome is the sum over the primes is proved in [`identity`].
//!
//! The primes themselves come from a sieve of Eratosthenes ([`table`]),
//! proved against the definition of a prime in [`numbers`]. The arithmetic
//! on large numbers is that of `rug`; what is taken on trust of it is
//! stated in [`integer`].

use vstd::arithmetic::div_mod::lemma_div_is_ordered_by_denominator;
use vstd::arithmetic::power::pow;
use vstd::prelude::*;

pub mod batch;
pub mod boundary;
pub mod coprime;
pub mod identity;
pub mod integer;
pub mod numbers;
pub mod phi;
pub mod query;
pub mod sweep;
pub mod table;
pub mod tree;
pub mod wheel;

verus! {

/// The square root of `n`, rounded down.
pub fn floor_sqrt(n: u64) -> (r: u64)
    ensures
        r * r <= n < (r + 1) * (r + 1),
{
    let root = integer::sqrt(integer::from_u64(n));
    let ghost v = integer::integer_value(root);
    proof {
        assert(v <= n) by (nonlinear_arith)
            requires
                v * v <= n,
                v >= 0,
        ;
    }
    // the root of a `u64` is no larger than the number, so it always fits
    match integer::to_u64(&root) {
        Some(r) => r,
        None => 0,
    }
}

/// The cube root of `n`, rounded down.
pub fn floor_cbrt(n: u64) -> (r: u64)
    ensures
        r * r * r <= n < (r + 1) * (r + 1) * (r + 1),
{
    let root = integer::root(integer::from_u64(n), 3);
    let ghost v = integer::integer_value(root);
    proof {
        assert(pow(v, 3) == v * (v * (v * 1)) && pow(v + 1, 3) == (v + 1) * ((v + 1) * ((v + 1)
            * 1))) by {
            reveal_with_fuel(pow, 4);
        }
        assert(v * (v * (v * 1)) == v * v * v) by (nonlinear_arith);
        assert((v + 1) * ((v + 1) * ((v + 1) * 1)) == (v + 1) * (v + 1) * (v + 1))
            by (nonlinear_arith);
        assert(v <= n) by (nonlinear_arith)
            requires
                v * v * v <= n,
                v >= 0,
        ;
    }
    // the root of a `u64` is no larger than the number, so it always fits
    match integer::to_u64(&root) {
        Some(r) => r,
        None => 0,
    }
}

/// The sum of the squares of the entries.
pub fn sum_of_squares(primes: &[u64]) -> (r: rug::Integer)
    ensures
        integer::integer_value(r) == identity::squares_total(primes@),
{
    let mut total = integer::from_u64(0);
    let mut i: usize = 0;
    proof {
        assert(primes@.take(0) =~= Seq::<u64>::empty());
    }
    while i < primes.len()
        invariant
            0 <= i <= primes@.len(),
            integer::integer_value(total) == identity::squares_total(primes@.take(i as int)),
        decreases primes@.len() - i,
    {
        let factor = integer::from_u64(primes[i]);
        let square = integer::product(&factor, &factor);
        integer::add_assign(&mut total, &square);
        proof {
            let longer = primes@.take(i + 1);
            assert(longer.drop_last() =~= primes@.take(i as int));
            assert(longer.last() == primes@[i as int]);
        }
        i += 1;
    }
    proof {
        assert(primes@.take(i as int) =~= primes@);
    }
    total
}

/// The machine can index what the computation for `n` keeps in memory: its
/// words are 64 bits wide, or `n` is small enough for narrower ones.
pub open spec fn addressable(n: u64) -> bool {
    usize::MAX == u64::MAX || 4 * n + 4 <= usize::MAX
}

/// What [`addressable`] gives: the sizes of the prime table, the sieve
/// queue and the accumulator fit the machine's words.
pub proof fn lemma_sizes_fit(n: int, c: int, s: int)
    requires
        1 <= n <= u64::MAX,
        usize::MAX == u64::MAX || 4 * n + 4 <= usize::MAX,
        1 <= c <= s,
        c * c * c <= n,
        s * s <= n,
    ensures
        3 * s <= u64::MAX,
        c * (3 * s + 1) + 1 <= usize::MAX,
        3 * (c + 1) <= usize::MAX,
        2 * s < usize::MAX,
        2 * (n / (c + 1)) < usize::MAX,
        n / (c + 1) < u64::MAX,
{
    lemma_div_is_ordered_by_denominator(n, 2, c + 1);
    assert(c * s <= n) by (nonlinear_arith)
        requires
            1 <= c <= s,
            s * s <= n,
    ;
    assert(s <= n) by (nonlinear_arith)
        requires
            1 <= s,
            s * s <= n,
    ;
    assert(c * (3 * s + 1) + 1 == 3 * (c * s) + c + 1) by (nonlinear_arith);
    if usize::MAX == u64::MAX {
        assert(s < 0x1_0000_0000) by (nonlinear_arith)
            requires
                s * s <= n,
                n <= 0xffff_ffff_ffff_ffff,
                s >= 1,
        ;
        assert(c < 0x40_0000) by (nonlinear_arith)
            requires
                c * c * c <= n,
                n <= 0xffff_ffff_ffff_ffff,
                c >= 1,
        ;
        assert(c * s <= 0x40_0000 * 0x1_0000_0000) by (nonlinear_arith)
            requires
                1 <= c < 0x40_0000,
                1 <= s < 0x1_0000_0000,
        ;
    }
}

/// The sum of the squares of the primes up to `n`.
///
/// For `n` of zero there is nothing to sum. Otherwise, with `c` the cube
/// root of `n` and `s` its square root: the sum over the numbers up to `n`
/// that no prime up to `c` divides, computed by [`phi::phi`] and
/// [`sweep::resolve_queries`], less 1, plus the squares of the primes up to
/// `c`, less [`boundary::two_prime_correction`].
pub fn sum_primes_squared(n: u64) -> (r: rug::Integer)
    requires
        addressable(n),
    ensures
        integer::integer_value(r) == numbers::prime_square_sum(n as int),
{
    if n == 0 {
        return integer::from_u64(0);
    }
    let cbrt = floor_cbrt(n);
    let sqrt = floor_sqrt(n);
    proof {
        identity::lemma_prime_sum_identity(n as int, cbrt as int, sqrt as int);
        lemma_sizes_fit(n as int, cbrt as int, sqrt as int);
        table::lemma_primes_to(cbrt as int);
        identity::lemma_squares_of_primes(cbrt as int);
    }
    let reach = n / (cbrt + 1);
    let limit = if sqrt > reach {
        sqrt
    } else {
        reach
    };
    let table = table::PrimeTable::sieve(limit as usize);
    let small_primes = table.primes_up_to(cbrt);
    let y = sqrt * 3;
    let mut queries: Vec<query::Query> = Vec::new();
    let mut total = phi::phi(n, small_primes.as_slice(), false, 1, y, &mut queries);
    let ghost deferred = queries@;
    batch::sort_queries(&mut queries);
    proof {
        let primes = small_primes@;
        assert(query::queries_value(queries@, primes) == query::queries_value(deferred, primes));
        batch::lemma_permutation_members(deferred, queries@);
        assert forall|t: int| 0 <= t < queries@.len() implies (#[trigger] queries@[t]).i
            <= primes.len() && queries@[t].x < y by {
            let q = queries@[t];
            assert(deferred.contains(q));
            let k = choose|k: int| 0 <= k < deferred.len() && deferred[k] == q;
            assert(deferred[k].x < y);
        }
        if queries@.len() > 0 {
            let last = queries@[queries@.len() - 1];
            assert(last.x < y);
            if primes.len() > 0 {
                assert(primes[primes.len() - 1] <= cbrt);
            }
            assert(wheel::stride(primes) * (last.x + 2) <= cbrt * (3 * sqrt + 1))
                by (nonlinear_arith)
                requires
                    0 <= wheel::stride(primes) <= cbrt,
                    0 <= last.x + 2 <= 3 * sqrt + 1,
            ;
        }
    }
    let resolved = sweep::resolve_queries(&queries, small_primes.as_slice());
    integer::add_assign(&mut total, &resolved);
    let one = integer::from_u64(1);
    integer::sub_assign(&mut total, &one);
    let squares = sum_of_squares(small_primes.as_slice());
    integer::add_assign(&mut total, &squares);
    let correction = boundary::two_prime_correction(n, cbrt, sqrt, &table);
    integer::sub_assign(&mut total, &correction);
    proof {
        let sum = coprime::coprime_square_sum(n as int, small_primes@);
        assert(sum * 1 * 1 == sum) by (nonlinear_arith);
    }
    total
}

/// Whether the machine can index what the computation for `n` keeps in
/// memory.
pub fn is_addressable(n: u64) -> (b: bool)
    ensures
        b == addressable(n),
{
    usize::MAX as u128 == u64::MAX as u128 || 4 * (n as u128) + 4 <= usize::MAX as u128
}

/// The sum of the squares of the primes up to `n`, where the machine can
/// index what the computation keeps in memory, and `None` where it cannot.
pub fn checked_sum_primes_squared(n: u64) -> (r: Option<rug::Integer>)
    ensures
        r is Some <==> addressable(n),
        r is Some ==> integer::integer_value(r->0) == numbers::prime_square_sum(n as int),
{
    if is_addressable(n) {
        Some(sum_primes_squared(n))
    } else {
        None
    }
}

/// The sum only grows with its bound, and from `n` to `n + 1` it grows
/// exactly when `n + 1` is prime.
pub proof fn lemma_sum_grows_at_primes(n: int)
    requires
        0 <= n,
    ensures
        numbers::prime_square_sum(n) <= numbers::prime_square_sum(n + 1),
        numbers::prime_square_sum(n) < numbers::prime_square_sum(n + 1) <==> numbers::is_prime(
            n + 1,
        ),
{
    assert((n + 1) * (n + 1) > 0) by (nonlinear_arith)
        requires
            n >= 0,
    ;
}

/// The sum for a smaller bound is no larger.
pub proof fn lemma_sum_monotonic(m: int, n: int)
    requires
        0 <= m <= n,
    ensures
        numbers::prime_square_sum(m) <= numbers::prime_square_sum(n),
{
    numbers::lemma_prime_square_sum_monotonic(m, n);
}

/// Two results for the same bound hold the same number.
pub proof fn lemma_same_bound_same_sum(m: u64, n: u64, a: rug::Integer, b: rug::Integer)
    requires
        m == n,
        integer::integer_value(a) == numbers::prime_square_sum(m as int),
        integer::integer_value(b) == numbers::prime_square_sum(n as int),
    ensures
        integer::integer_value(a) == integer::integer_value(b),
{
}

} // verus!
