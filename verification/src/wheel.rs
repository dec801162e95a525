//! The sieve queue: an incremental sieve of Eratosthenes that tells, for one
//! number after the other, the first of the small primes that divides it.
//!
//! Each prime owns one claim, which sits on a multiple of the prime in a
//! queue of slots, one slot for each number to come. Popping the front slot
//! yields the claim on the current number, if there is one; that claim then
//! moves on to a later multiple. Where two claims meet, the one of the
//! earlier prime keeps the slot and the other moves on.

use crate::numbers::lemma_no_multiple_between;
use std::collections::VecDeque;
use vstd::arithmetic::div_mod::lemma_mod_adds;
use vstd::prelude::*;

verus! {

/// The mark of a slot that no prime claims.
pub const VACANT: usize = usize::MAX;

/// Every entry is at least 2, and the entries grow strictly.
pub open spec fn ascending_from_two(primes: Seq<u64>) -> bool {
    &&& forall|i: int| 0 <= i < primes.len() ==> #[trigger] primes[i] >= 2
    &&& forall|i: int, j: int| 0 <= i < j < primes.len() ==> primes[i] < primes[j]
}

/// The largest entry, or zero where there is none.
pub open spec fn stride(primes: Seq<u64>) -> int {
    if primes.len() == 0 {
        0
    } else {
        primes.last() as int
    }
}

/// The index, from `from` on, of the first entry that divides `k`; the
/// length of the list where none does.
pub open spec fn first_divisor(k: int, primes: Seq<u64>, from: int) -> int
    decreases primes.len() - from,
{
    if from < 0 || from >= primes.len() {
        primes.len() as int
    } else if k % (primes[from] as int) == 0 {
        from
    } else {
        first_divisor(k, primes, from + 1)
    }
}

/// The class that the sieve puts `k` in: the index of the first prime that
/// divides it, and the number of primes where none does. Zero, which the
/// sieve never strikes, is in the class of the survivors.
pub open spec fn elimination_class(k: int, primes: Seq<u64>) -> int {
    if k <= 0 {
        primes.len() as int
    } else {
        first_divisor(k, primes, 0)
    }
}

/// What [`first_divisor`] finds divides `k`, and nothing before it does.
pub proof fn lemma_first_divisor(k: int, primes: Seq<u64>, from: int)
    requires
        0 <= from <= primes.len(),
    ensures
        from <= first_divisor(k, primes, from) <= primes.len(),
        first_divisor(k, primes, from) < primes.len() ==> k % (primes[first_divisor(
            k,
            primes,
            from,
        )] as int) == 0,
        forall|j: int|
            from <= j < first_divisor(k, primes, from) ==> #[trigger] (k % (primes[j] as int))
                != 0,
    decreases primes.len() - from,
{
    if from < primes.len() && k % (primes[from] as int) != 0 {
        lemma_first_divisor(k, primes, from + 1);
    }
}

/// A number that the prime of index `i` divides is in class `i` at most.
pub proof fn lemma_class_at_most(m: int, primes: Seq<u64>, i: int)
    requires
        m >= 1,
        0 <= i < primes.len(),
        m % (primes[i] as int) == 0,
    ensures
        0 <= elimination_class(m, primes) <= i,
{
    lemma_first_divisor(m, primes, 0);
}

/// The class of a number is the number of primes exactly when none of them
/// divides it.
pub proof fn lemma_class_of_survivor(m: int, primes: Seq<u64>, i: int)
    requires
        m >= 1,
        0 <= i <= primes.len(),
    ensures
        elimination_class(m, primes) >= i <==> (forall|j: int|
            0 <= j < i ==> #[trigger] (m % (primes[j] as int)) != 0),
{
    lemma_first_divisor(m, primes, 0);
    let f = first_divisor(m, primes, 0);
    if f < i {
        assert(m % (primes[f] as int) == 0);
    }
}

/// Between `from` and `to`, every multiple of the prime of index `i` is in
/// the class of an earlier prime.
pub open spec fn skipped(primes: Seq<u64>, i: int, from: int, to: int) -> bool {
    forall|m: int|
        from <= m < to && 1 <= m && #[trigger] (m % (primes[i] as int)) == 0
            ==> elimination_class(m, primes) < i
}

/// Each slot is vacant or holds a claim that is not in hand and sits there.
pub open spec fn slots_ok(
    queue: Seq<usize>,
    position: int,
    places: Seq<int>,
    primes: Seq<u64>,
    hand: int,
) -> bool {
    forall|d: int|
        0 <= d < queue.len() ==> #[trigger] queue[d] == VACANT || (queue[d] < primes.len()
            && queue[d] != hand && places[queue[d] as int] == position + d)
}

/// The claim of the prime of index `i` sits in the queue on a multiple of
/// its prime, and every multiple it has passed over belongs to an earlier
/// prime.
pub open spec fn claim_ok(
    queue: Seq<usize>,
    position: int,
    places: Seq<int>,
    primes: Seq<u64>,
    i: int,
) -> bool {
    &&& 1 <= places[i]
    &&& position <= places[i] < position + queue.len()
    &&& queue[places[i] - position] == i
    &&& places[i] % (primes[i] as int) == 0
    &&& skipped(primes, i, position, places[i])
}

/// Every claim but the one in hand is in order.
pub open spec fn claims_ok(
    queue: Seq<usize>,
    position: int,
    places: Seq<int>,
    primes: Seq<u64>,
    hand: int,
) -> bool {
    forall|i: int|
        0 <= i < primes.len() && i != hand ==> #[trigger] claim_ok(
            queue,
            position,
            places,
            primes,
            i,
        )
}

/// The claim in hand may be put down on `c`.
pub open spec fn in_hand(primes: Seq<u64>, k: int, position: int, c: int) -> bool {
    &&& 1 <= position <= c
    &&& c % (primes[k] as int) == 0
    &&& skipped(primes, k, position, c)
}

/// The front slot tells the class of the current number.
pub proof fn lemma_front_class(
    queue: Seq<usize>,
    position: int,
    places: Seq<int>,
    primes: Seq<u64>,
)
    requires
        ascending_from_two(primes),
        places.len() == primes.len(),
        primes.len() < VACANT,
        position >= 0,
        slots_ok(queue, position, places, primes, -1),
        claims_ok(queue, position, places, primes, -1),
    ensures
        queue.len() > 0 && queue[0] != VACANT ==> queue[0] < primes.len() && elimination_class(
            position,
            primes,
        ) == queue[0],
        queue.len() == 0 || queue[0] == VACANT ==> elimination_class(position, primes)
            == primes.len(),
{
    lemma_first_divisor(position, primes, 0);
    let f = first_divisor(position, primes, 0);
    if queue.len() > 0 && queue[0] != VACANT {
        let i = queue[0] as int;
        assert(places[i] == position + 0);
        assert(claim_ok(queue, position, places, primes, i));
        assert(position >= 1);
        assert(position % (primes[i] as int) == 0);
        if f < i {
            assert(claim_ok(queue, position, places, primes, f));
            assert(places[f] != position);
            assert(elimination_class(position, primes) < f);
        }
    } else if position >= 1 {
        if f < primes.len() {
            assert(claim_ok(queue, position, places, primes, f));
            assert(places[f] != position);
            assert(elimination_class(position, primes) < f);
        }
    }
}

/// With the front slot popped, the claims still in the queue are in order
/// for the next number, and the claim that was popped may be put down one
/// step of its prime further on.
pub proof fn lemma_popped(queue: Seq<usize>, position: int, places: Seq<int>, primes: Seq<u64>)
    requires
        ascending_from_two(primes),
        places.len() == primes.len(),
        primes.len() < VACANT,
        position >= 0,
        queue.len() > 0,
        slots_ok(queue, position, places, primes, -1),
        claims_ok(queue, position, places, primes, -1),
    ensures
        ({
            let hand = if queue[0] == VACANT {
                -1
            } else {
                queue[0] as int
            };
            let rest = queue.subrange(1, queue.len() as int);
            &&& slots_ok(rest, position + 1, places, primes, hand)
            &&& claims_ok(rest, position + 1, places, primes, hand)
            &&& hand >= 0 ==> hand < primes.len() && in_hand(
                primes,
                hand,
                position + 1,
                position + primes[hand],
            )
        }),
{
    let hand = if queue[0] == VACANT {
        -1
    } else {
        queue[0] as int
    };
    let rest = queue.subrange(1, queue.len() as int);
    assert forall|d: int| 0 <= d < rest.len() implies #[trigger] rest[d] == VACANT || (rest[d]
        < primes.len() && rest[d] != hand && places[rest[d] as int] == position + 1 + d) by {
        assert(rest[d] == queue[d + 1]);
        if rest[d] != VACANT && rest[d] == hand {
            assert(places[queue[0] as int] == position + 0);
        }
    }
    assert forall|i: int| 0 <= i < primes.len() && i != hand implies #[trigger] claim_ok(
        rest,
        position + 1,
        places,
        primes,
        i,
    ) by {
        assert(claim_ok(queue, position, places, primes, i));
        assert(places[i] != position);
        assert(rest[places[i] - (position + 1)] == queue[places[i] - position]);
    }
    if hand >= 0 {
        let p = primes[hand] as int;
        assert(places[hand] == position + 0);
        assert(claim_ok(queue, position, places, primes, hand));
        lemma_mod_adds(position, p, p);
        assert(p % p == 0) by (nonlinear_arith)
            requires
                p >= 2,
        ;
        assert forall|m: int|
            position + 1 <= m < position + p && 1 <= m && #[trigger] (m % p)
                == 0 implies elimination_class(m, primes) < hand by {
            lemma_no_multiple_between(position, m, p);
        }
    }
}

/// A claim in hand that meets the claim of a later prime takes its slot,
/// and picks that claim up instead.
pub proof fn lemma_take_slot(
    queue: Seq<usize>,
    position: int,
    places: Seq<int>,
    primes: Seq<u64>,
    k: int,
    j: int,
)
    requires
        ascending_from_two(primes),
        places.len() == primes.len(),
        primes.len() < VACANT,
        0 <= k < primes.len(),
        0 <= j < queue.len(),
        queue[j] != VACANT,
        queue[j] > k,
        slots_ok(queue, position, places, primes, k),
        claims_ok(queue, position, places, primes, k),
        in_hand(primes, k, position, position + j),
    ensures
        queue[j] < primes.len(),
        slots_ok(
            queue.update(j, k as usize),
            position,
            places.update(k, position + j),
            primes,
            queue[j] as int,
        ),
        claims_ok(
            queue.update(j, k as usize),
            position,
            places.update(k, position + j),
            primes,
            queue[j] as int,
        ),
        in_hand(primes, queue[j] as int, position, position + j + primes[queue[j] as int]),
{
    let other = queue[j] as int;
    let queue2 = queue.update(j, k as usize);
    let places2 = places.update(k, position + j);
    let c = position + j;
    assert(places[other] == c);
    assert(claim_ok(queue, position, places, primes, other));
    assert forall|d: int| 0 <= d < queue2.len() implies #[trigger] queue2[d] == VACANT || (
    queue2[d] < primes.len() && queue2[d] != other && places2[queue2[d] as int] == position
        + d) by {
        if d != j {
            assert(queue2[d] == queue[d]);
        }
    }
    assert forall|i: int| 0 <= i < primes.len() && i != other implies #[trigger] claim_ok(
        queue2,
        position,
        places2,
        primes,
        i,
    ) by {
        if i != k {
            assert(claim_ok(queue, position, places, primes, i));
            assert(places[i] - position != j);
        }
    }
    let p = primes[other] as int;
    lemma_mod_adds(c, p, p);
    assert(p % p == 0) by (nonlinear_arith)
        requires
            p >= 2,
    ;
    assert forall|m: int|
        position <= m < c + p && 1 <= m && #[trigger] (m % p) == 0 implies elimination_class(
            m,
            primes,
        ) < other by {
        if m == c {
            lemma_class_at_most(c, primes, k);
        } else if m > c {
            lemma_no_multiple_between(c, m, p);
        }
    }
}

/// A claim in hand that meets the claim of an earlier prime moves on.
pub proof fn lemma_pass_slot(
    queue: Seq<usize>,
    position: int,
    places: Seq<int>,
    primes: Seq<u64>,
    k: int,
    j: int,
)
    requires
        ascending_from_two(primes),
        places.len() == primes.len(),
        primes.len() < VACANT,
        0 <= k < primes.len(),
        0 <= j < queue.len(),
        queue[j] != VACANT,
        queue[j] <= k,
        slots_ok(queue, position, places, primes, k),
        claims_ok(queue, position, places, primes, k),
        in_hand(primes, k, position, position + j),
    ensures
        in_hand(primes, k, position, position + j + primes[k]),
{
    let other = queue[j] as int;
    let c = position + j;
    let p = primes[k] as int;
    assert(other < k);
    assert(places[other] == c);
    assert(claim_ok(queue, position, places, primes, other));
    lemma_mod_adds(c, p, p);
    assert(p % p == 0) by (nonlinear_arith)
        requires
            p >= 2,
    ;
    assert forall|m: int|
        position <= m < c + p && 1 <= m && #[trigger] (m % p) == 0 implies elimination_class(
            m,
            primes,
        ) < k by {
        if m == c {
            lemma_class_at_most(c, primes, other);
        } else if m > c {
            lemma_no_multiple_between(c, m, p);
        }
    }
}

/// Vacant slots added behind the queue disturb nothing.
pub proof fn lemma_extend(
    queue: Seq<usize>,
    longer: Seq<usize>,
    position: int,
    places: Seq<int>,
    primes: Seq<u64>,
    hand: int,
)
    requires
        slots_ok(queue, position, places, primes, hand),
        claims_ok(queue, position, places, primes, hand),
        queue.len() <= longer.len(),
        forall|d: int| 0 <= d < queue.len() ==> longer[d] == queue[d],
        forall|d: int| queue.len() <= d < longer.len() ==> longer[d] == VACANT,
    ensures
        slots_ok(longer, position, places, primes, hand),
        claims_ok(longer, position, places, primes, hand),
{
    assert forall|d: int| 0 <= d < longer.len() implies #[trigger] longer[d] == VACANT || (
    longer[d] < primes.len() && longer[d] != hand && places[longer[d] as int] == position
        + d) by {
        if d < queue.len() {
            assert(longer[d] == queue[d]);
        }
    }
    assert forall|i: int| 0 <= i < primes.len() && i != hand implies #[trigger] claim_ok(
        longer,
        position,
        places,
        primes,
        i,
    ) by {
        assert(claim_ok(queue, position, places, primes, i));
    }
}

/// A claim in hand that reaches a vacant slot is put down there, and then
/// every claim is in order.
pub proof fn lemma_settle(
    queue: Seq<usize>,
    position: int,
    places: Seq<int>,
    primes: Seq<u64>,
    k: int,
    j: int,
)
    requires
        ascending_from_two(primes),
        places.len() == primes.len(),
        primes.len() < VACANT,
        0 <= k < primes.len(),
        0 <= j < queue.len(),
        queue[j] == VACANT,
        slots_ok(queue, position, places, primes, k),
        claims_ok(queue, position, places, primes, k),
        in_hand(primes, k, position, position + j),
    ensures
        slots_ok(queue.update(j, k as usize), position, places.update(k, position + j), primes, -1),
        claims_ok(
            queue.update(j, k as usize),
            position,
            places.update(k, position + j),
            primes,
            -1,
        ),
{
    let queue2 = queue.update(j, k as usize);
    let places2 = places.update(k, position + j);
    assert forall|d: int| 0 <= d < queue2.len() implies #[trigger] queue2[d] == VACANT || (
    queue2[d] < primes.len() && queue2[d] != -1 && places2[queue2[d] as int] == position
        + d) by {
        if d != j {
            assert(queue2[d] == queue[d]);
        }
    }
    assert forall|i: int| 0 <= i < primes.len() && i != -1 implies #[trigger] claim_ok(
        queue2,
        position,
        places2,
        primes,
        i,
    ) by {
        if i != k {
            assert(claim_ok(queue, position, places, primes, i));
            assert(places[i] - position != j);
        }
    }
}

/// No entry of an ascending list exceeds the last.
pub proof fn lemma_stride(primes: Seq<u64>, i: int)
    requires
        ascending_from_two(primes),
        0 <= i < primes.len(),
    ensures
        2 <= primes[i] <= stride(primes),
{
}

/// `VecDeque`'s index assignment: the slot `j`, which must exist, takes the
/// value `v`, and no other slot changes.
#[verifier::external_body]
fn replace_slot(queue: &mut VecDeque<usize>, j: usize, v: usize)
    requires
        j < old(queue)@.len(),
    ensures
        final(queue)@ == old(queue)@.update(j as int, v),
{
    queue[j] = v;
}

/// The sieve queue, standing before one number.
pub struct Wheel {
    queue: VecDeque<usize>,
    position: u64,
    places: Ghost<Seq<int>>,
}

impl Wheel {
    /// The number that the queue stands before: the next to be classed.
    pub closed spec fn position(&self) -> int {
        self.position as int
    }

    /// The queue is in order for the given primes: each prime's claim sits
    /// at or after the current number on a multiple of the prime, and has
    /// passed over no number that it should have claimed.
    pub closed spec fn wf(&self, primes: Seq<u64>) -> bool {
        &&& ascending_from_two(primes)
        &&& primes.len() < VACANT
        &&& self.places@.len() == primes.len()
        &&& slots_ok(self.queue@, self.position as int, self.places@, primes, -1)
        &&& claims_ok(self.queue@, self.position as int, self.places@, primes, -1)
        &&& self.queue@.len() <= stride(primes) * (self.position + 1) + 1
    }

    /// The queue before the number zero: each prime claims itself.
    pub fn new(primes: &[u64]) -> (r: Self)
        requires
            ascending_from_two(primes@),
            primes@.len() < usize::MAX,
            stride(primes@) < usize::MAX,
        ensures
            r.wf(primes@),
            r.position() == 0,
    {
        let top: u64 = if primes.len() == 0 {
            0
        } else {
            primes[primes.len() - 1]
        };
        let mut queue: VecDeque<usize> = VecDeque::new();
        queue.resize(top as usize + 1, VACANT);
        let mut i: usize = 0;
        while i < primes.len()
            invariant
                0 <= i <= primes@.len(),
                ascending_from_two(primes@),
                primes@.len() < usize::MAX,
                top == stride(primes@),
                top < usize::MAX,
                queue@.len() == top + 1,
                forall|t: int| 0 <= t < i ==> queue@[primes@[t] as int] == t,
                forall|d: int|
                    0 <= d < queue@.len() ==> #[trigger] queue@[d] == VACANT || (queue@[d] < i
                        && primes@[queue@[d] as int] == d),
            decreases primes@.len() - i,
        {
            proof {
                lemma_stride(primes@, i as int);
            }
            let ghost before = queue@;
            replace_slot(&mut queue, primes[i] as usize, i);
            proof {
                assert forall|t: int| 0 <= t < i + 1 implies queue@[primes@[t] as int] == t by {
                    if t < i {
                        assert(before[primes@[t] as int] == t);
                    }
                }
            }
            i += 1;
        }
        let ghost places = Seq::new(primes@.len(), |t: int| primes@[t] as int);
        let r = Wheel { queue, position: 0, places: Ghost(places) };
        proof {
            assert forall|t: int| 0 <= t < primes@.len() implies #[trigger] claim_ok(
                r.queue@,
                0,
                places,
                primes@,
                t,
            ) by {
                lemma_stride(primes@, t);
                let p = primes@[t] as int;
                assert(p % p == 0) by (nonlinear_arith)
                    requires
                        p >= 2,
                ;
                assert forall|m: int|
                    0 <= m < p && 1 <= m && #[trigger] (m % p) == 0 implies elimination_class(
                        m,
                        primes@,
                    ) < t by {
                    lemma_no_multiple_between(0, m, p);
                }
            }
            assert(stride(primes@) * (0 + 1) + 1 == top + 1) by (nonlinear_arith)
                requires
                    stride(primes@) == top,
            ;
        }
        r
    }

    /// Tells the class of the current number and steps to the next: pops
    /// the front slot and, where it held a claim, moves that claim on to
    /// the next multiple of its prime that it may have.
    pub fn advance(&mut self, primes: &[u64]) -> (class: usize)
        requires
            old(self).wf(primes@),
            old(self).position() < u64::MAX,
            stride(primes@) * (old(self).position() + 2) + 1 <= usize::MAX,
        ensures
            final(self).wf(primes@),
            final(self).position() == old(self).position() + 1,
            class == elimination_class(old(self).position(), primes@),
    {
        let ghost start = self.position as int;
        let ghost top = stride(primes@);
        proof {
            lemma_front_class(self.queue@, start, self.places@, primes@);
            if self.queue@.len() > 0 {
                lemma_popped(self.queue@, start, self.places@, primes@);
            } else if primes@.len() > 0 {
                assert(claim_ok(self.queue@, start, self.places@, primes@, 0));
            }
            assert(top * (start + 2) == top * (start + 1) + top) by (nonlinear_arith);
            assert(top * (start + 1) >= 0) by (nonlinear_arith)
                requires
                    top >= 0,
                    start >= 0,
            ;
        }
        let front = self.queue.pop_front();
        self.position = self.position + 1;
        match front {
            Some(first) => {
                if first != VACANT {
                    let mut k = first;
                    proof {
                        lemma_stride(primes@, k as int);
                    }
                    let mut j: usize = (primes[k] - 1) as usize;
                    let ghost len = self.queue@.len();
                    while j < self.queue.len() && self.queue[j] != VACANT
                        invariant
                            ascending_from_two(primes@),
                            primes@.len() < VACANT,
                            top == stride(primes@),
                            self.position == start + 1,
                            self.places@.len() == primes@.len(),
                            self.queue@.len() == len,
                            len + top <= usize::MAX,
                            0 <= k < primes@.len(),
                            j < len + top,
                            slots_ok(self.queue@, start + 1, self.places@, primes@, k as int),
                            claims_ok(self.queue@, start + 1, self.places@, primes@, k as int),
                            in_hand(primes@, k as int, start + 1, start + 1 + j),
                        decreases len + top - j,
                    {
                        let other = self.queue[j];
                        if other > k {
                            proof {
                                lemma_take_slot(
                                    self.queue@,
                                    start + 1,
                                    self.places@,
                                    primes@,
                                    k as int,
                                    j as int,
                                );
                            }
                            replace_slot(&mut self.queue, j, k);
                            self.places = Ghost(self.places@.update(k as int, start + 1 + j));
                            k = other;
                        } else {
                            proof {
                                lemma_pass_slot(
                                    self.queue@,
                                    start + 1,
                                    self.places@,
                                    primes@,
                                    k as int,
                                    j as int,
                                );
                            }
                        }
                        proof {
                            lemma_stride(primes@, k as int);
                        }
                        j = j + primes[k] as usize;
                    }
                    if j >= self.queue.len() {
                        let ghost shorter = self.queue@;
                        self.queue.resize(j + 1, VACANT);
                        proof {
                            assert forall|d: int| 0 <= d < shorter.len() implies self.queue@[d]
                                == shorter[d] by {
                                assert(self.queue@.subrange(0, shorter.len() as int)[d]
                                    == shorter[d]);
                            }
                            lemma_extend(
                                shorter,
                                self.queue@,
                                start + 1,
                                self.places@,
                                primes@,
                                k as int,
                            );
                        }
                    }
                    proof {
                        lemma_settle(
                            self.queue@,
                            start + 1,
                            self.places@,
                            primes@,
                            k as int,
                            j as int,
                        );
                    }
                    replace_slot(&mut self.queue, j, k);
                    self.places = Ghost(self.places@.update(k as int, start + 1 + j));
                    proof {
                        assert(top * (start + 1 + 1) == top * (start + 1) + top) by (nonlinear_arith);
                    }
                    first
                } else {
                    proof {
                        assert(top * (start + 1 + 1) == top * (start + 1) + top) by (nonlinear_arith);
                    }
                    primes.len()
                }
            },
            None => primes.len(),
        }
    }
}

} // verus!
