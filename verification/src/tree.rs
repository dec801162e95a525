//! The accumulator of the sieve sweep: one running sum for each elimination
//! class, kept in an array-backed binary tree so that the sum over all
//! classes from a given one on is read in logarithmic time.

use crate::integer::{add_assign, from_u64, integer_value};
use vstd::prelude::*;

verus! {

/// The power `2^d`.
pub open spec fn two_to(d: nat) -> int
    decreases d,
{
    if d == 0 {
        1
    } else {
        2 * two_to((d - 1) as nat)
    }
}

/// The sum of the entries of `s` whose index lies in `lo..hi`; indices
/// outside `s` count as zero.
pub open spec fn span_sum(s: Seq<int>, lo: int, hi: int) -> int
    decreases hi - lo,
{
    if hi <= lo {
        0
    } else {
        span_sum(s, lo, hi - 1) + (if 0 <= hi - 1 < s.len() {
            s[hi - 1]
        } else {
            0
        })
    }
}

/// In a tree of height `h`, `node` lies `d` levels above the leaves.
pub open spec fn at_depth(h: nat, node: int, d: nat) -> bool {
    d <= h && two_to((h - d) as nat) <= node < 2 * two_to((h - d) as nat)
}

/// The first leaf below `node`, counted from the leftmost leaf of the tree.
pub open spec fn first_leaf(base: int, node: int, d: nat) -> int {
    node * two_to(d) - base
}

/// `node` holds the sum of the leaves below it.
pub open spec fn node_holds(values: Seq<int>, leaves: Seq<int>, base: int, node: int, d: nat)
    -> bool {
    values[node] == span_sum(leaves, first_leaf(base, node, d), first_leaf(base, node + 1, d))
}

pub proof fn lemma_two_to_positive(d: nat)
    ensures
        two_to(d) >= 1,
    decreases d,
{
    if d > 0 {
        lemma_two_to_positive((d - 1) as nat);
    }
}

pub proof fn lemma_two_to_monotonic(a: nat, b: nat)
    requires
        a <= b,
    ensures
        two_to(a) <= two_to(b),
        a < b ==> 2 * two_to(a) <= two_to(b),
    decreases b,
{
    lemma_two_to_positive(a);
    if a < b {
        lemma_two_to_monotonic(a, (b - 1) as nat);
    }
}

/// A span is the sum of its two parts.
pub proof fn lemma_span_split(s: Seq<int>, lo: int, mid: int, hi: int)
    requires
        lo <= mid <= hi,
    ensures
        span_sum(s, lo, hi) == span_sum(s, lo, mid) + span_sum(s, mid, hi),
    decreases hi - mid,
{
    if mid < hi {
        lemma_span_split(s, lo, mid, hi - 1);
    }
}

/// A span that lies wholly outside the sequence sums to zero.
pub proof fn lemma_span_outside(s: Seq<int>, lo: int, hi: int)
    requires
        hi <= 0 || lo >= s.len(),
    ensures
        span_sum(s, lo, hi) == 0,
    decreases hi - lo,
{
    if lo < hi {
        lemma_span_outside(s, lo, hi - 1);
    }
}

/// Raising one entry raises by as much each span that holds it, and no
/// other.
pub proof fn lemma_span_update(s: Seq<int>, c: int, v: int, lo: int, hi: int)
    requires
        0 <= c < s.len(),
    ensures
        span_sum(s.update(c, s[c] + v), lo, hi) == span_sum(s, lo, hi) + (if lo <= c < hi {
            v
        } else {
            0
        }),
    decreases hi - lo,
{
    if lo < hi {
        lemma_span_update(s, c, v, lo, hi - 1);
    }
}

/// Over a sequence of zeros every span sums to zero.
pub proof fn lemma_span_zeros(s: Seq<int>, lo: int, hi: int)
    requires
        forall|i: int| 0 <= i < s.len() ==> s[i] == 0,
    ensures
        span_sum(s, lo, hi) == 0,
    decreases hi - lo,
{
    if lo < hi {
        lemma_span_zeros(s, lo, hi - 1);
    }
}

/// A leaf is the only leaf below itself.
pub proof fn lemma_leaf(base: int, node: int)
    ensures
        first_leaf(base, node, 0) == node - base,
        first_leaf(base, node + 1, 0) == node + 1 - base,
{
    assert(two_to(0) == 1);
    assert(node * 1 == node) by (nonlinear_arith);
    assert((node + 1) * 1 == node + 1) by (nonlinear_arith);
}

/// The leaves below a node are those below its two children.
pub proof fn lemma_children(base: int, node: int, d: nat)
    requires
        d >= 1,
    ensures
        first_leaf(base, node, d) == first_leaf(base, 2 * node, (d - 1) as nat),
        first_leaf(base, node + 1, d) == first_leaf(base, 2 * node + 2, (d - 1) as nat),
{
    let w = two_to((d - 1) as nat);
    assert(two_to(d) == 2 * w);
    assert(node * (2 * w) == (2 * node) * w) by (nonlinear_arith);
    assert((node + 1) * (2 * w) == (2 * node + 2) * w) by (nonlinear_arith);
}

/// Leaves grow with the node, level by level.
pub proof fn lemma_first_leaf_monotonic(base: int, m: int, n: int, d: nat)
    requires
        m <= n,
    ensures
        first_leaf(base, m, d) <= first_leaf(base, n, d),
        first_leaf(base, n, d) < first_leaf(base, n + 1, d),
{
    lemma_two_to_positive(d);
    let w = two_to(d);
    assert(m * w <= n * w) by (nonlinear_arith)
        requires
            m <= n,
            w >= 1,
    ;
    assert(n * w < (n + 1) * w) by (nonlinear_arith)
        requires
            w >= 1,
    ;
}

/// A node's parent lies one level higher.
pub proof fn lemma_parent_depth(h: nat, node: int, d: nat)
    requires
        at_depth(h, node, d),
    ensures
        node >= 1,
        d < h ==> at_depth(h, node / 2, d + 1) && node >= 2,
        d == h ==> node == 1,
        node == 1 ==> d == h,
{
    lemma_two_to_positive((h - d) as nat);
    if d < h {
        assert(two_to((h - d) as nat) == 2 * two_to((h - d - 1) as nat));
        lemma_two_to_positive((h - d - 1) as nat);
    }
}

/// A node belongs to one level only.
pub proof fn lemma_depth_unique(h: nat, node: int, d: nat, e: nat)
    requires
        at_depth(h, node, d),
        at_depth(h, node, e),
    ensures
        d == e,
{
    if d < e {
        lemma_two_to_monotonic((h - e) as nat, (h - d) as nat);
    }
    if e < d {
        lemma_two_to_monotonic((h - d) as nat, (h - e) as nat);
    }
}

/// Running sums for a fixed number of classes.
pub struct Accumulator {
    tree: Vec<rug::Integer>,
    base: usize,
    height: Ghost<nat>,
}

impl View for Accumulator {
    type V = Seq<int>;

    /// The running sum of each class.
    closed spec fn view(&self) -> Seq<int> {
        Seq::new(
            (self.tree@.len() - self.base) as nat,
            |c: int| integer_value(self.tree@[self.base + c]),
        )
    }
}

impl Accumulator {
    /// What each node of the tree holds.
    pub closed spec fn values(&self) -> Seq<int> {
        Seq::new(self.tree@.len(), |m: int| integer_value(self.tree@[m]))
    }

    /// The leaves start at a power of two, every class has its leaf, and
    /// every node holds the sum of the leaves below it.
    pub closed spec fn wf(&self) -> bool {
        &&& self.base == two_to(self.height@)
        &&& self.base < self.tree@.len() <= 2 * self.base
        &&& forall|m: int, e: nat| #[trigger]
            at_depth(self.height@, m, e) && m < self.tree@.len() ==> node_holds(
                self.values(),
                self@,
                self.base as int,
                m,
                e,
            )
    }

    /// An accumulator for `classes` classes, all sums zero. The leaves start
    /// at the least power of two that is not below `classes`.
    pub fn new(classes: usize) -> (r: Self)
        requires
            1 <= classes,
            3 * classes <= usize::MAX,
        ensures
            r.wf(),
            r@.len() == classes,
            forall|c: int| 0 <= c < classes ==> r@[c] == 0,
    {
        let mut base: usize = 1;
        let ghost mut h: nat = 0;
        while base < classes
            invariant
                base == two_to(h),
                1 <= base < 2 * classes,
                3 * classes <= usize::MAX,
            decreases 2 * classes - base,
        {
            base = base * 2;
            proof {
                h = h + 1;
            }
        }
        let mut tree: Vec<rug::Integer> = Vec::new();
        let mut k: usize = 0;
        while k < base + classes
            invariant
                k <= base + classes,
                base + classes <= usize::MAX,
                tree@.len() == k,
                forall|m: int| 0 <= m < k ==> integer_value(#[trigger] tree@[m]) == 0,
            decreases base + classes - k,
        {
            tree.push(from_u64(0));
            k += 1;
        }
        let r = Accumulator { tree, base, height: Ghost(h) };
        proof {
            assert forall|m: int, e: nat| #[trigger]
                at_depth(h, m, e) && m < r.tree@.len() implies node_holds(
                r.values(),
                r@,
                base as int,
                m,
                e,
            ) by {
                lemma_parent_depth(h, m, e);
                lemma_span_zeros(r@, first_leaf(base as int, m, e), first_leaf(base as int, m + 1, e));
            }
        }
        r
    }

    /// Adds `v` to the sum of one class.
    pub fn add(&mut self, class: usize, v: &rug::Integer)
        requires
            old(self).wf(),
            class < old(self)@.len(),
        ensures
            final(self).wf(),
            final(self)@ == old(self)@.update(
                class as int,
                old(self)@[class as int] + integer_value(*v),
            ),
    {
        let ghost leaves = self@;
        let ghost after = leaves.update(class as int, leaves[class as int] + integer_value(*v));
        let ghost h = self.height@;
        let ghost base = self.base as int;
        let ghost len = self.tree@.len();
        assert(self@.len() == len - base && self.tree.len() == len);
        let mut node = self.base + class;
        let ghost mut d: nat = 0;
        proof {
            lemma_two_to_positive(h);
            assert(at_depth(h, node as int, 0));
            lemma_leaf(base, node as int);
        }
        while node != 0
            invariant
                self.base == base,
                self.height@ == h,
                self.tree@.len() == len,
                base == two_to(h),
                base < len <= 2 * base,
                leaves.len() == len - base,
                0 <= class < leaves.len(),
                after == leaves.update(class as int, leaves[class as int] + integer_value(*v)),
                node < len,
                node == 0 ==> d == h + 1,
                node != 0 ==> at_depth(h, node as int, d) && first_leaf(base, node as int, d)
                    <= class < first_leaf(base, node + 1, d),
                forall|m: int, e: nat| #[trigger]
                    at_depth(h, m, e) && m < len ==> node_holds(
                        self.values(),
                        if e < d {
                            after
                        } else {
                            leaves
                        },
                        base,
                        m,
                        e,
                    ),
            decreases node,
        {
            let ghost before = self.values();
            add_assign(&mut self.tree[node], v);
            proof {
                let now = self.values();
                assert(now[node as int] == before[node as int] + integer_value(*v));
                assert forall|m: int| 0 <= m < len && m != node implies now[m] == before[m] by {}
                lemma_parent_depth(h, node as int, d);
                assert forall|m: int, e: nat| #[trigger]
                    at_depth(h, m, e) && m < len implies node_holds(
                    now,
                    if e < d + 1 {
                        after
                    } else {
                        leaves
                    },
                    base,
                    m,
                    e,
                ) by {
                    lemma_parent_depth(h, m, e);
                    assert(node_holds(
                        before,
                        if e < d {
                            after
                        } else {
                            leaves
                        },
                        base,
                        m,
                        e,
                    ));
                    let lo = first_leaf(base, m, e);
                    let hi = first_leaf(base, m + 1, e);
                    if e == d {
                        lemma_span_update(leaves, class as int, integer_value(*v), lo, hi);
                        if m < node {
                            lemma_first_leaf_monotonic(base, m + 1, node as int, d);
                        } else if m > node {
                            lemma_first_leaf_monotonic(base, node + 1, m, d);
                        }
                    } else {
                        if m == node {
                            lemma_depth_unique(h, m, e, d);
                        }
                    }
                }
                if d < h {
                    lemma_children(base, node as int / 2, d + 1);
                    lemma_first_leaf_monotonic(base, 2 * (node as int / 2), node as int, d);
                    lemma_first_leaf_monotonic(base, node + 1, 2 * (node as int / 2) + 2, d);
                }
            }
            node = node / 2;
            proof {
                d = d + 1;
            }
        }
        proof {
            assert forall|m: int, e: nat| #[trigger]
                at_depth(h, m, e) && m < len implies node_holds(self.values(), after, base, m, e) by {
                assert(e < d);
            }
            assert forall|c: int| 0 <= c < after.len() implies self@[c] == after[c] by {
                lemma_two_to_positive(h);
                assert(at_depth(h, base + c, 0));
                assert(node_holds(self.values(), after, base, base + c, 0));
                lemma_leaf(base, base + c);
                assert(span_sum(after, c, c) == 0);
                assert(span_sum(after, c, c + 1) == after[c]);
            }
            assert(self@ =~= after);
        }
    }

    /// The sum, over the classes from `class` on, of their running sums.
    pub fn suffix_sum(&self, class: usize) -> (r: rug::Integer)
        requires
            self.wf(),
            class < self@.len(),
        ensures
            integer_value(r) == span_sum(self@, class as int, self@.len() as int),
    {
        let ghost leaves = self@;
        let ghost h = self.height@;
        let ghost base = self.base as int;
        let ghost len = self.tree@.len();
        assert(self@.len() == len - base && self.tree.len() == len);
        let mut node = self.base + class;
        let mut reply = from_u64(0);
        add_assign(&mut reply, &self.tree[node]);
        let ghost mut d: nat = 0;
        proof {
            lemma_two_to_positive(h);
            assert(at_depth(h, node as int, 0));
            assert(node_holds(self.values(), leaves, base, node as int, 0));
            lemma_leaf(base, node as int);
        }
        while node != 0
            invariant
                self.wf(),
                self.base == base,
                self.height@ == h,
                self.tree@.len() == len,
                leaves == self@,
                base == two_to(h),
                base < len <= 2 * base,
                0 <= class < leaves.len(),
                node < len,
                node == 0 ==> integer_value(reply) == span_sum(leaves, class as int, base),
                node != 0 ==> at_depth(h, node as int, d) && first_leaf(base, node as int, d)
                    <= class < first_leaf(base, node + 1, d) && integer_value(reply) == span_sum(
                    leaves,
                    class as int,
                    first_leaf(base, node + 1, d),
                ),
            decreases node,
        {
            proof {
                lemma_parent_depth(h, node as int, d);
                lemma_two_to_positive((h - d) as nat);
                lemma_first_leaf_monotonic(base, node as int, node + 1, d);
            }
            if node % 2 == 0 {
                proof {
                    assert(at_depth(h, node + 1, d));
                    lemma_span_split(
                        leaves,
                        class as int,
                        first_leaf(base, node + 1, d),
                        first_leaf(base, node + 2, d),
                    );
                }
                if node + 1 < self.tree.len() {
                    proof {
                        assert(node_holds(self.values(), leaves, base, node + 1, d));
                    }
                    add_assign(&mut reply, &self.tree[node + 1]);
                } else {
                    proof {
                        if d >= 1 {
                            lemma_two_to_monotonic((h - d + 1) as nat, h);
                        }
                        assert(d == 0);
                        lemma_leaf(base, node + 1);
                        lemma_span_outside(
                            leaves,
                            first_leaf(base, node + 1, d),
                            first_leaf(base, node + 2, d),
                        );
                    }
                }
            }
            proof {
                if d < h {
                    lemma_children(base, node as int / 2, d + 1);
                    lemma_first_leaf_monotonic(base, 2 * (node as int / 2), node as int, d);
                } else {
                    assert(first_leaf(base, 2, h) == base);
                }
            }
            node = node / 2;
            proof {
                d = d + 1;
            }
        }
        proof {
            lemma_span_split(leaves, class as int, leaves.len() as int, base);
            lemma_span_outside(leaves, leaves.len() as int, base);
        }
        reply
    }
}

} // verus!
