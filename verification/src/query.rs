//! Deferred queries: sums that the decomposition leaves for the sieve sweep.

use crate::coprime::coprime_square_sum;
use vstd::prelude::*;

verus! {

/// A sum put off until the sieve has reached `x`: the sum of the squares of
/// the numbers up to `x` that none of the first `i` small primes divides,
/// scaled by `w * w` and negated when `sign` is set.
#[derive(Clone, Copy, Debug, PartialEq, Eq, Hash, Structural)]
pub struct Query {
    pub x: u64,
    pub i: usize,
    pub sign: bool,
    pub w: u64,
}

/// `v` scaled by `w * w`, negated when `sign` is set.
pub open spec fn weighted(sign: bool, w: int, v: int) -> int {
    if sign {
        -(v * w * w)
    } else {
        v * w * w
    }
}

/// What a query contributes to the total, given the small primes.
pub open spec fn query_value(q: Query, primes: Seq<u64>) -> int {
    weighted(q.sign, q.w as int, coprime_square_sum(q.x as int, primes.take(q.i as int)))
}

/// What a batch of queries contributes to the total.
pub open spec fn queries_value(queries: Seq<Query>, primes: Seq<u64>) -> int
    decreases queries.len(),
{
    if queries.len() == 0 {
        0
    } else {
        queries_value(queries.drop_last(), primes) + query_value(queries.last(), primes)
    }
}

/// The value of two batches put together is the sum of their values.
pub proof fn lemma_queries_value_concat(a: Seq<Query>, b: Seq<Query>, primes: Seq<u64>)
    ensures
        queries_value(a + b, primes) == queries_value(a, primes) + queries_value(b, primes),
    decreases b.len(),
{
    if b.len() == 0 {
        assert(a + b =~= a);
    } else {
        lemma_queries_value_concat(a, b.drop_last(), primes);
        assert((a + b).drop_last() =~= a + b.drop_last());
        assert((a + b).last() == b.last());
    }
}

/// Scaling by `w * w` spreads over a difference, and a factor `p * p` can
/// move into the weight at the price of the sign.
pub proof fn lemma_weighted_step(sign: bool, w: int, p: int, a: int, b: int)
    ensures
        weighted(sign, w, a - p * p * b) == weighted(sign, w, a) + weighted(!sign, w * p, b),
{
    assert((a - p * p * b) * w * w == a * w * w - b * (w * p) * (w * p)) by (nonlinear_arith);
}

} // verus!
