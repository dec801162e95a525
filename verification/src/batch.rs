//! The batch of queries, put in the order in which the sweep answers them.

use crate::query::{lemma_queries_value_concat, queries_value, query_value, Query};
use crate::sweep::ordered_by_bound;
use vstd::prelude::*;

verus! {

/// The queries come in the order of their bounds, and those with equal
/// bounds in the order of their prime counts.
pub open spec fn ordered_by_key(queries: Seq<Query>) -> bool {
    forall|i: int, j: int|
        0 <= i <= j < queries.len() ==> queries[i].x < queries[j].x || (queries[i].x
            == queries[j].x && queries[i].i <= queries[j].i)
}

/// Taking one query out of a batch takes its value out of the batch's.
pub proof fn lemma_queries_value_remove(queries: Seq<Query>, k: int, primes: Seq<u64>)
    requires
        0 <= k < queries.len(),
    ensures
        queries_value(queries, primes) == queries_value(queries.remove(k), primes) + query_value(
            queries[k],
            primes,
        ),
{
    let head = queries.take(k);
    let upto = queries.take(k + 1);
    let tail = queries.skip(k + 1);
    assert(queries =~= upto + tail);
    assert(queries.remove(k) =~= head + tail);
    assert(upto.drop_last() =~= head);
    assert(upto.last() == queries[k]);
    lemma_queries_value_concat(upto, tail, primes);
    lemma_queries_value_concat(head, tail, primes);
}

/// The value of a batch does not depend on the order of its queries.
pub proof fn lemma_queries_value_permutation(a: Seq<Query>, b: Seq<Query>, primes: Seq<u64>)
    requires
        a.to_multiset() == b.to_multiset(),
    ensures
        queries_value(a, primes) == queries_value(b, primes),
    decreases a.len(),
{
    a.to_multiset_ensures();
    b.to_multiset_ensures();
    if a.len() == 0 {
        assert(b.len() == 0);
    } else {
        let last = a.last();
        let rest = a.drop_last();
        assert(a[a.len() - 1] == last);
        assert(a.contains(last));
        assert(a.to_multiset().count(last) > 0);
        assert(b.to_multiset().count(last) > 0);
        assert(b.contains(last));
        let k = choose|k: int| 0 <= k < b.len() && b[k] == last;
        assert(a.remove(a.len() - 1) =~= rest);
        lemma_queries_value_permutation(rest, b.remove(k), primes);
        lemma_queries_value_remove(b, k, primes);
    }
}

/// Every query of a reordered batch was in the batch before.
pub proof fn lemma_permutation_members(a: Seq<Query>, b: Seq<Query>)
    requires
        a.to_multiset() == b.to_multiset(),
    ensures
        forall|t: int| 0 <= t < b.len() ==> a.contains(#[trigger] b[t]),
{
    a.to_multiset_ensures();
    b.to_multiset_ensures();
    assert forall|t: int| 0 <= t < b.len() implies a.contains(#[trigger] b[t]) by {
        assert(b.contains(b[t]));
        assert(b.to_multiset().count(b[t]) > 0);
        assert(a.to_multiset().count(b[t]) > 0);
    }
}

/// `sort_by_key` of the standard library, with the key `(x, i)`: the same
/// queries afterwards, in ascending order of their keys.
#[verifier::external_body]
fn sort_by_bound_and_count(queries: &mut Vec<Query>)
    ensures
        final(queries)@.to_multiset() == old(queries)@.to_multiset(),
        ordered_by_key(final(queries)@),
{
    queries.sort_by_key(|query| (query.x, query.i));
}

/// Puts the queries in ascending order of their bounds, and those with
/// equal bounds in ascending order of their prime counts. No query is lost
/// or made, and the batch keeps its value.
pub fn sort_queries(queries: &mut Vec<Query>)
    ensures
        final(queries)@.to_multiset() == old(queries)@.to_multiset(),
        ordered_by_key(final(queries)@),
        ordered_by_bound(final(queries)@),
        forall|primes: Seq<u64>| #[trigger]
            queries_value(final(queries)@, primes) == queries_value(old(queries)@, primes),
{
    let ghost before = queries@;
    sort_by_bound_and_count(queries);
    proof {
        assert forall|primes: Seq<u64>| #[trigger]
            queries_value(queries@, primes) == queries_value(before, primes) by {
            lemma_queries_value_permutation(queries@, before, primes);
        }
    }
}

} // verus!
