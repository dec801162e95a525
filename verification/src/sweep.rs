//! The sieve sweep: answers a batch of queries in one pass over the numbers
//! from zero up, sieving as it goes.

use crate::coprime::{coprime_square_sum, coprime_to};
use crate::integer::{add_assign, from_u64, integer_value, product};
use crate::phi::apply_weight;
use crate::query::{queries_value, query_value, Query};
use crate::tree::{lemma_span_update, lemma_span_zeros, span_sum, Accumulator};
use crate::wheel::{
    ascending_from_two, elimination_class, lemma_class_of_survivor, lemma_first_divisor, stride,
    Wheel,
};
use vstd::prelude::*;

verus! {

/// For each class, the sum of the squares of the numbers up to `x` in it.
pub open spec fn class_sums(x: int, primes: Seq<u64>) -> Seq<int>
    decreases x + 1,
{
    if x < 0 {
        Seq::new(primes.len() + 1, |c: int| 0int)
    } else {
        let before = class_sums(x - 1, primes);
        let class = elimination_class(x, primes);
        before.update(class, before[class] + x * x)
    }
}

/// The queries come in the order of their bounds.
pub open spec fn ordered_by_bound(queries: Seq<Query>) -> bool {
    forall|i: int, j: int| 0 <= i <= j < queries.len() ==> queries[i].x <= queries[j].x
}

/// There is one sum for each prime and one for the survivors.
pub proof fn lemma_class_sums_len(x: int, primes: Seq<u64>)
    ensures
        class_sums(x, primes).len() == primes.len() + 1,
    decreases x + 1,
{
    if x >= 0 {
        lemma_class_sums_len(x - 1, primes);
        lemma_first_divisor(x, primes, 0);
    }
}

/// The classes from `i` on hold between them the numbers that none of the
/// first `i` primes divides.
pub proof fn lemma_class_sums_suffix(x: int, primes: Seq<u64>, i: int)
    requires
        0 <= i <= primes.len(),
    ensures
        span_sum(class_sums(x, primes), i, primes.len() as int + 1) == coprime_square_sum(
            x,
            primes.take(i),
        ),
    decreases x + 1,
{
    let sums = class_sums(x, primes);
    if x < 0 {
        lemma_span_zeros(sums, i, primes.len() as int + 1);
    } else {
        let before = class_sums(x - 1, primes);
        let class = elimination_class(x, primes);
        lemma_class_sums_suffix(x - 1, primes, i);
        lemma_class_sums_len(x - 1, primes);
        lemma_first_divisor(x, primes, 0);
        lemma_span_update(before, class, x * x, i, primes.len() as int + 1);
        if x >= 1 {
            lemma_class_of_survivor(x, primes, i);
            let head = primes.take(i);
            if coprime_to(x, head) {
                assert forall|j: int| 0 <= j < i implies #[trigger] (x % (primes[j] as int))
                    != 0 by {
                    assert(head[j] == primes[j]);
                    assert(x % (head[j] as int) != 0);
                }
            }
            if class >= i {
                assert forall|j: int| 0 <= j < head.len() implies #[trigger] (x % (
                head[j] as int)) != 0 by {
                    assert(head[j] == primes[j]);
                    assert(x % (primes[j] as int) != 0);
                }
            }
            assert(coprime_to(x, head) <==> class >= i);
        }
    }
}

/// The total of what the queries stand for.
///
/// Walks the numbers from zero up. Each number is put by the sieve queue in
/// its elimination class, and its square is added to that class's running
/// sum. A query is answered when the walk stands on its bound: its answer is
/// the sum over the classes from `i` on, weighted and signed. The walk ends
/// with the last query.
pub fn resolve_queries(queries: &Vec<Query>, primes: &[u64]) -> (total: rug::Integer)
    requires
        ascending_from_two(primes@),
        ordered_by_bound(queries@),
        forall|t: int| 0 <= t < queries@.len() ==> #[trigger] queries@[t].i <= primes@.len(),
        queries@.len() > 0 ==> queries@.last().x < u64::MAX,
        queries@.len() > 0 ==> stride(primes@) * (queries@.last().x + 2) + 1 <= usize::MAX,
        3 * (primes@.len() + 1) <= usize::MAX,
    ensures
        integer_value(total) == queries_value(queries@, primes@),
{
    let mut total = from_u64(0);
    if queries.len() == 0 {
        return total;
    }
    let ghost last = queries@.last().x as int;
    proof {
        assert(stride(primes@) <= stride(primes@) * (last + 2)) by (nonlinear_arith)
            requires
                last >= 0,
                stride(primes@) >= 0,
        ;
    }
    let mut accumulator = Accumulator::new(primes.len() + 1);
    let mut wheel = Wheel::new(primes);
    let mut x: u64 = 0;
    let mut next: usize = 0;
    proof {
        assert(accumulator@ =~= class_sums(-1, primes@));
        assert(queries@.take(0) =~= Seq::<Query>::empty());
    }
    while next < queries.len()
        invariant
            ascending_from_two(primes@),
            ordered_by_bound(queries@),
            forall|t: int| 0 <= t < queries@.len() ==> #[trigger] queries@[t].i <= primes@.len(),
            queries@.len() > 0,
            last == queries@.last().x,
            last < u64::MAX,
            stride(primes@) * (last + 2) + 1 <= usize::MAX,
            0 <= next <= queries@.len(),
            next < queries@.len() ==> x <= queries@[next as int].x,
            x <= last + 1,
            wheel.wf(primes@),
            wheel.position() == x,
            accumulator.wf(),
            accumulator@ == class_sums(x - 1, primes@),
            integer_value(total) == queries_value(queries@.take(next as int), primes@),
        decreases last + 1 - x,
    {
        proof {
            assert(queries@[next as int].x <= queries@[queries@.len() - 1].x);
            assert(stride(primes@) * (x + 2) <= stride(primes@) * (last + 2)) by (nonlinear_arith)
                requires
                    x <= last,
                    stride(primes@) >= 0,
            ;
            lemma_class_sums_len(x - 1, primes@);
            lemma_first_divisor(x as int, primes@, 0);
        }
        let class = wheel.advance(primes);
        let number = from_u64(x);
        let square = product(&number, &number);
        accumulator.add(class, &square);
        while next < queries.len() && queries[next].x == x
            invariant
                forall|t: int|
                    0 <= t < queries@.len() ==> #[trigger] queries@[t].i <= primes@.len(),
                ordered_by_bound(queries@),
                0 <= next <= queries@.len(),
                next < queries@.len() ==> x <= queries@[next as int].x,
                accumulator.wf(),
                accumulator@ == class_sums(x as int, primes@),
                integer_value(total) == queries_value(queries@.take(next as int), primes@),
            decreases queries@.len() - next,
        {
            let query = queries[next];
            proof {
                lemma_class_sums_len(x as int, primes@);
                lemma_class_sums_suffix(x as int, primes@, query.i as int);
                let longer = queries@.take(next + 1);
                assert(longer.drop_last() =~= queries@.take(next as int));
                assert(longer.last() == query);
                assert(queries_value(longer, primes@) == queries_value(
                    queries@.take(next as int),
                    primes@,
                ) + query_value(query, primes@));
            }
            let reply = accumulator.suffix_sum(query.i);
            let term = apply_weight(reply, query.sign, query.w);
            add_assign(&mut total, &term);
            next += 1;
            proof {
                if next < queries@.len() {
                    assert(queries@[next - 1].x <= queries@[next as int].x);
                }
            }
        }
        x += 1;
    }
    proof {
        assert(queries@.take(next as int) =~= queries@);
    }
    total
}

} // verus!
