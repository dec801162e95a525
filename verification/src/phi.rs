//! The weighted Legendre decomposition.
//!
//! [`phi`] computes, for a bound `x` and a list of primes, the sum of the
//! squares of the numbers up to `x` that none of the primes divides, scaled
//! by `w * w` and signed. It does so by inclusion and exclusion; below the
//! threshold `y` it does not descend further but leaves a [`Query`] for the
//! sieve sweep to answer.

use crate::coprime::{
    ascending_primes, coprime_square_sum, lemma_ascending_prefix, lemma_coprime_to_none,
    lemma_legendre,
};
use crate::integer::{add_assign, from_u64, integer_value, negate, product, quotient};
use crate::numbers::{lemma_square_sum_closed, square_sum};
use crate::query::{
    lemma_queries_value_concat, lemma_weighted_step, queries_value, query_value, weighted, Query,
};
use vstd::arithmetic::div_mod::lemma_fundamental_div_mod;
use vstd::prelude::*;

verus! {

/// What [`phi`] returns: the part of the sum that it computes at once.
pub open spec fn phi_direct(x: int, primes: Seq<u64>, sign: bool, w: int, y: int) -> int
    decreases primes.len(), primes.len() + 1,
{
    if x >= y || primes.len() == 0 {
        weighted(sign, w, square_sum(x)) + phi_direct_below(
            x,
            primes,
            sign,
            w,
            y,
            primes.len() as int,
        )
    } else {
        0
    }
}

/// The direct parts of the first `k` descents from one call of [`phi`]: the
/// `j`-th of them divides `x` by `primes[j]` and keeps the primes before it.
pub open spec fn phi_direct_below(
    x: int,
    primes: Seq<u64>,
    sign: bool,
    w: int,
    y: int,
    k: int,
) -> int
    decreases primes.len(), k,
{
    if k <= 0 || k > primes.len() {
        0
    } else {
        phi_direct_below(x, primes, sign, w, y, k - 1) + phi_direct(
            x / (primes[k - 1] as int),
            primes.take(k - 1),
            !sign,
            w * primes[k - 1],
            y,
        )
    }
}

/// The queries that [`phi`] leaves behind, in the order in which it does.
pub open spec fn phi_deferred(x: int, primes: Seq<u64>, sign: bool, w: int, y: int) -> Seq<
    Query,
>
    decreases primes.len(), primes.len() + 1,
{
    if x >= y || primes.len() == 0 {
        phi_deferred_below(x, primes, sign, w, y, primes.len() as int)
    } else {
        seq![Query { x: x as u64, i: primes.len() as usize, sign, w: w as u64 }]
    }
}

/// The queries left behind by the first `k` descents from one call of
/// [`phi`].
pub open spec fn phi_deferred_below(
    x: int,
    primes: Seq<u64>,
    sign: bool,
    w: int,
    y: int,
    k: int,
) -> Seq<Query>
    decreases primes.len(), k,
{
    if k <= 0 || k > primes.len() {
        Seq::empty()
    } else {
        phi_deferred_below(x, primes, sign, w, y, k - 1) + phi_deferred(
            x / (primes[k - 1] as int),
            primes.take(k - 1),
            !sign,
            w * primes[k - 1],
            y,
        )
    }
}

/// What [`phi`] may be called with: every prime lies in `1..=y`, and the
/// numbers are small enough for the weights of all descents to fit.
pub open spec fn phi_inputs(x: int, primes: Seq<u64>, w: int, y: int) -> bool {
    &&& 0 <= x
    &&& 0 <= w
    &&& x * w <= u64::MAX
    &&& x <= u64::MAX
    &&& w <= u64::MAX
    &&& primes.len() <= usize::MAX
    &&& forall|j: int| 0 <= j < primes.len() ==> 1 <= #[trigger] primes[j] <= y
}

/// A descent from a call with acceptable inputs has acceptable inputs.
pub proof fn lemma_phi_inputs_descend(x: int, primes: Seq<u64>, w: int, y: int, k: int)
    requires
        phi_inputs(x, primes, w, y),
        x >= y,
        0 <= k < primes.len(),
    ensures
        phi_inputs(x / (primes[k] as int), primes.take(k), w * primes[k], y),
        w * primes[k] <= u64::MAX,
        0 <= x / (primes[k] as int) <= x,
{
    let p = primes[k] as int;
    assert(1 <= primes[k] <= y);
    lemma_fundamental_div_mod(x, p);
    let q = x / p;
    assert(0 <= q <= x) by (nonlinear_arith)
        requires
            x == p * q + x % p,
            0 <= x % p < p,
            p >= 1,
            x >= 0,
    ;
    assert(q * (w * p) <= x * w) by (nonlinear_arith)
        requires
            x == p * q + x % p,
            0 <= x % p,
            w >= 0,
    ;
    assert(w * p <= x * w) by (nonlinear_arith)
        requires
            1 <= p <= x,
            w >= 0,
    ;
    assert(0 <= w * p) by (nonlinear_arith)
        requires
            1 <= p,
            w >= 0,
    ;
    let t = primes.take(k);
    assert forall|j: int| 0 <= j < t.len() implies 1 <= #[trigger] t[j] <= y by {
        assert(t[j] == primes[j]);
    }
}

/// The decomposition is exact: what [`phi`] computes at once and what its
/// queries stand for add up to the weighted sum over the numbers up to `x`
/// that none of `primes` divides. The queries count primes from the front of
/// `all`, a list that `primes` begins.
pub proof fn lemma_phi_exact(
    x: int,
    primes: Seq<u64>,
    sign: bool,
    w: int,
    y: int,
    all: Seq<u64>,
)
    requires
        phi_inputs(x, primes, w, y),
        ascending_primes(all),
        primes.len() <= all.len(),
        primes == all.take(primes.len() as int),
    ensures
        phi_direct(x, primes, sign, w, y) + queries_value(
            phi_deferred(x, primes, sign, w, y),
            all,
        ) == weighted(sign, w, coprime_square_sum(x, primes)),
    decreases primes.len(), primes.len() + 1,
{
    if x >= y || primes.len() == 0 {
        lemma_phi_exact_below(x, primes, sign, w, y, all, primes.len() as int);
        assert(primes.take(primes.len() as int) =~= primes);
    } else {
        let q = Query { x: x as u64, i: primes.len() as usize, sign, w: w as u64 };
        let s = seq![q];
        assert(s.drop_last() =~= Seq::<Query>::empty());
        assert(s.last() == q);
        assert(queries_value(s.drop_last(), all) == 0);
        assert(queries_value(s, all) == query_value(q, all));
    }
}

/// The first `k` descents of a call, together with the closed form that the
/// call starts from, give the weighted sum over the numbers that none of the
/// first `k` primes divides.
pub proof fn lemma_phi_exact_below(
    x: int,
    primes: Seq<u64>,
    sign: bool,
    w: int,
    y: int,
    all: Seq<u64>,
    k: int,
)
    requires
        phi_inputs(x, primes, w, y),
        ascending_primes(all),
        primes.len() <= all.len(),
        primes == all.take(primes.len() as int),
        x >= y || primes.len() == 0,
        0 <= k <= primes.len(),
    ensures
        weighted(sign, w, square_sum(x)) + phi_direct_below(x, primes, sign, w, y, k)
            + queries_value(phi_deferred_below(x, primes, sign, w, y, k), all) == weighted(
            sign,
            w,
            coprime_square_sum(x, primes.take(k)),
        ),
    decreases primes.len(), k,
{
    if k == 0 {
        lemma_coprime_to_none(x, primes.take(0));
        assert(queries_value(Seq::<Query>::empty(), all) == 0);
    } else {
        let p = primes[k - 1] as int;
        let head = primes.take(k - 1);
        lemma_phi_exact_below(x, primes, sign, w, y, all, k - 1);
        lemma_phi_inputs_descend(x, primes, w, y, k - 1);
        assert(head =~= all.take(k - 1));
        lemma_phi_exact(x / p, head, !sign, w * p, y, all);
        lemma_queries_value_concat(
            phi_deferred_below(x, primes, sign, w, y, k - 1),
            phi_deferred(x / p, head, !sign, w * p, y),
            all,
        );
        lemma_ascending_prefix(all, primes.len() as int);
        lemma_legendre(x, primes, k - 1);
        lemma_weighted_step(
            sign,
            w,
            p,
            coprime_square_sum(x, head),
            coprime_square_sum(x / p, head),
        );
    }
}

/// Every query that [`phi`] leaves behind has a bound below the threshold
/// and counts at least one prime and at most all of them.
pub proof fn lemma_phi_deferred_bounds(x: int, primes: Seq<u64>, sign: bool, w: int, y: int)
    requires
        phi_inputs(x, primes, w, y),
    ensures
        forall|t: int|
            0 <= t < phi_deferred(x, primes, sign, w, y).len() ==> (#[trigger] phi_deferred(
                x,
                primes,
                sign,
                w,
                y,
            )[t]).x < y && 1 <= phi_deferred(x, primes, sign, w, y)[t].i <= primes.len(),
    decreases primes.len(), primes.len() + 1,
{
    let left = phi_deferred(x, primes, sign, w, y);
    if x >= y || primes.len() == 0 {
        lemma_phi_deferred_below_bounds(x, primes, sign, w, y, primes.len() as int);
        assert(left == phi_deferred_below(x, primes, sign, w, y, primes.len() as int));
    } else {
        let q = Query { x: x as u64, i: primes.len() as usize, sign, w: w as u64 };
        assert(left.len() == 1);
        assert(left[0] == q);
    }
    assert forall|t: int| 0 <= t < left.len() implies (#[trigger] left[t]).x < y && 1
        <= left[t].i <= primes.len() by {
        if x >= y || primes.len() == 0 {
            let below = phi_deferred_below(x, primes, sign, w, y, primes.len() as int);
            assert(left[t] == below[t]);
        }
    }
}

/// The same of the queries left behind by the first `k` descents.
pub proof fn lemma_phi_deferred_below_bounds(
    x: int,
    primes: Seq<u64>,
    sign: bool,
    w: int,
    y: int,
    k: int,
)
    requires
        phi_inputs(x, primes, w, y),
        x >= y || primes.len() == 0,
        0 <= k <= primes.len(),
    ensures
        forall|t: int|
            0 <= t < phi_deferred_below(x, primes, sign, w, y, k).len() ==> (
            #[trigger] phi_deferred_below(x, primes, sign, w, y, k)[t]).x < y && 1
                <= phi_deferred_below(x, primes, sign, w, y, k)[t].i <= primes.len(),
    decreases primes.len(), k,
{
    if k > 0 {
        let p = primes[k - 1] as int;
        let head = primes.take(k - 1);
        lemma_phi_deferred_below_bounds(x, primes, sign, w, y, k - 1);
        lemma_phi_inputs_descend(x, primes, w, y, k - 1);
        lemma_phi_deferred_bounds(x / p, head, !sign, w * p, y);
        let below = phi_deferred_below(x, primes, sign, w, y, k - 1);
        let here = phi_deferred(x / p, head, !sign, w * p, y);
        let all = phi_deferred_below(x, primes, sign, w, y, k);
        assert(all == below + here);
        assert forall|t: int| 0 <= t < all.len() implies (#[trigger] all[t]).x < y && 1
            <= all[t].i <= primes.len() by {
            if t < below.len() {
                assert(all[t] == below[t]);
            } else {
                assert(all[t] == here[t - below.len()]);
            }
        }
    }
}

/// The sum `1 + 4 + ... + x * x` by its closed form `x (x + 1) (2x + 1) / 6`,
/// in which the division leaves no remainder.
pub fn square_pyramid(x: u64) -> (r: rug::Integer)
    ensures
        integer_value(r) == square_sum(x as int),
{
    let a = from_u64(x);
    let one = from_u64(1);
    let six = from_u64(6);
    let mut b = from_u64(x);
    add_assign(&mut b, &one);
    let mut c = from_u64(x);
    add_assign(&mut c, &b);
    let ab = product(&a, &b);
    let abc = product(&ab, &c);
    proof {
        lemma_square_sum_closed(x as int);
        assert(x * (x + 1) * (2 * x + 1) >= 0) by (nonlinear_arith)
            requires
                x >= 0,
        ;
    }
    quotient(&abc, &six)
}

/// `v` scaled by `w * w`, and negated when `sign` is set.
pub fn apply_weight(v: rug::Integer, sign: bool, w: u64) -> (r: rug::Integer)
    ensures
        integer_value(r) == weighted(sign, w as int, integer_value(v)),
{
    let weight = from_u64(w);
    let once = product(&v, &weight);
    let twice = product(&once, &weight);
    if sign {
        negate(twice)
    } else {
        twice
    }
}

/// The weighted sum of the squares of the numbers up to `x` that none of
/// `primes` divides, less what is put off: returns the part computed at once
/// and appends to `queries` one query for each part left to the sieve.
///
/// With `x` below `y` and a prime to avoid, the whole sum is put off and zero
/// returned. Otherwise the closed form for all numbers up to `x` is corrected,
/// for each prime in turn, by the sum for `x` divided by that prime and the
/// primes before it, with the sign turned and the weight multiplied by the
/// prime.
pub fn phi(x: u64, primes: &[u64], sign: bool, w: u64, y: u64, queries: &mut Vec<Query>) -> (r:
    rug::Integer)
    requires
        phi_inputs(x as int, primes@, w as int, y as int),
    ensures
        integer_value(r) == phi_direct(x as int, primes@, sign, w as int, y as int),
        final(queries)@ == old(queries)@ + phi_deferred(
            x as int,
            primes@,
            sign,
            w as int,
            y as int,
        ),
        ascending_primes(primes@) ==> integer_value(r) + queries_value(
            phi_deferred(x as int, primes@, sign, w as int, y as int),
            primes@,
        ) == weighted(sign, w as int, coprime_square_sum(x as int, primes@)),
        forall|t: int|
            old(queries)@.len() <= t < final(queries)@.len() ==> (#[trigger] final(queries)@[t]).x
                < y && 1 <= final(queries)@[t].i <= primes@.len(),
    decreases primes@.len(),
{
    let ghost before = queries@;
    proof {
        lemma_phi_deferred_bounds(x as int, primes@, sign, w as int, y as int);
        let left = phi_deferred(x as int, primes@, sign, w as int, y as int);
        assert forall|t: int| before.len() <= t < (before + left).len() implies (#[trigger] (
        before + left)[t]).x < y && 1 <= (before + left)[t].i <= primes@.len() by {
            assert((before + left)[t] == left[t - before.len()]);
        }
        if ascending_primes(primes@) {
            assert(primes@.take(primes@.len() as int) =~= primes@);
            lemma_phi_exact(x as int, primes@, sign, w as int, y as int, primes@);
        }
    }
    if x >= y || primes.len() == 0 {
        let mut o = apply_weight(square_pyramid(x), sign, w);
        let mut i: usize = 0;
        while i < primes.len()
            invariant
                0 <= i <= primes@.len(),
                phi_inputs(x as int, primes@, w as int, y as int),
                x >= y || primes@.len() == 0,
                integer_value(o) == weighted(sign, w as int, square_sum(x as int))
                    + phi_direct_below(x as int, primes@, sign, w as int, y as int, i as int),
                queries@ == before + phi_deferred_below(
                    x as int,
                    primes@,
                    sign,
                    w as int,
                    y as int,
                    i as int,
                ),
            decreases primes@.len() - i,
        {
            let p = primes[i];
            proof {
                lemma_phi_inputs_descend(x as int, primes@, w as int, y as int, i as int);
                assert(primes@.subrange(0, i as int) =~= primes@.take(i as int));
            }
            let part = phi(x / p, &primes[0..i], !sign, w * p, y, queries);
            add_assign(&mut o, &part);
            proof {
                let below = phi_deferred_below(
                    x as int,
                    primes@,
                    sign,
                    w as int,
                    y as int,
                    i as int,
                );
                let here = phi_deferred(
                    x as int / (p as int),
                    primes@.take(i as int),
                    !sign,
                    w as int * (p as int),
                    y as int,
                );
                assert(queries@ =~= before + (below + here));
            }
            i += 1;
        }
        o
    } else {
        queries.push(Query { x, i: primes.len(), sign, w });
        proof {
            assert(queries@ =~= before + seq![
                Query { x: x as int as u64, i: primes@.len() as usize, sign, w: w as int as u64 },
            ]);
        }
        from_u64(0)
    }
}

} // verus!
