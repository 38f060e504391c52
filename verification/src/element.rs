//! The grid model: Elements ("superpositions"), each holding the candidate
//! patterns still possible at its chunk position, and the entropy measure
//! that drives the collapse order.

use crate::helpers::Vector2;
use crate::helpers::is_subsequence;
use crate::patterns::Pattern;
use crate::patterns::PatternV;
use crate::patterns::patterns_view;
use vstd::prelude::*;

verus! {

/// One cell of the output grid at chunk granularity. `values` holds the
/// indexes into the pattern catalog of the candidates this cell may still
/// take — its superposition — in ascending order. One candidate means the
/// element is collapsed; none means a contradiction.
#[derive(Debug, Clone)]
pub struct Element {
    pub values: Vec<usize>,
    pub position: Vector2,
}

impl Element {
    pub fn new(values: Vec<usize>, position: Vector2) -> (e: Element)
        ensures
            e.values == values,
            e.position == position,
    {
        Element { values, position }
    }

    pub fn is_collapsed(&self) -> (r: bool)
        ensures
            r <==> self.values@.len() == 1,
    {
        self.values.len() == 1
    }
}

/// A well-formed candidate set over a catalog of `n_patterns` patterns:
/// strictly ascending indexes into the catalog, so no pattern twice.
pub open spec fn element_wf(values: Seq<usize>, n_patterns: nat) -> bool {
    &&& forall|k: int| 0 <= k < values.len() ==> #[trigger] values[k] < n_patterns
    &&& forall|k: int| 0 <= k < values.len() - 1 ==> #[trigger] values[k] < values[k + 1]
}

/// Every member of a subsequence is a member of the longer sequence.
pub proof fn lemma_subsequence_contains(a: Seq<usize>, b: Seq<usize>)
    requires
        is_subsequence(a, b),
    ensures
        forall|k: int| 0 <= k < a.len() ==> b.contains(#[trigger] a[k]),
    decreases b.len(),
{
    if a.len() == 0 {
    } else if a.last() == b.last() {
        lemma_subsequence_contains(a.drop_last(), b.drop_last());
        assert forall|k: int| 0 <= k < a.len() implies b.contains(#[trigger] a[k]) by {
            if k < a.len() - 1 {
                assert(b.drop_last().contains(a.drop_last()[k]));
                let j = choose|j: int|
                    0 <= j < b.drop_last().len() && b.drop_last()[j] == a.drop_last()[k];
                assert(b[j] == a[k]);
            } else {
                assert(b[b.len() - 1] == a[k]);
            }
        }
    } else {
        lemma_subsequence_contains(a, b.drop_last());
        assert forall|k: int| 0 <= k < a.len() implies b.contains(#[trigger] a[k]) by {
            assert(b.drop_last().contains(a[k]));
            let j = choose|j: int| 0 <= j < b.drop_last().len() && b.drop_last()[j] == a[k];
            assert(b[j] == a[k]);
        }
    }
}

/// A subsequence of a strictly ascending sequence is strictly ascending,
/// and ends no later than the longer sequence does.
pub proof fn lemma_subsequence_ascending(a: Seq<usize>, b: Seq<usize>)
    requires
        is_subsequence(a, b),
        forall|k: int| 0 <= k < b.len() - 1 ==> #[trigger] b[k] < b[k + 1],
    ensures
        forall|k: int| 0 <= k < a.len() - 1 ==> #[trigger] a[k] < a[k + 1],
        a.len() > 0 && b.len() > 0 ==> a.last() <= b.last(),
    decreases b.len(),
{
    if a.len() == 0 {
    } else if a.last() == b.last() {
        let a2 = a.drop_last();
        let b2 = b.drop_last();
        assert(forall|k: int| 0 <= k < b2.len() - 1 ==> #[trigger] b2[k] < b2[k + 1]);
        crate::helpers::lemma_subsequence_len(a2, b2);
        lemma_subsequence_ascending(a2, b2);
        assert forall|k: int| 0 <= k < a.len() - 1 implies #[trigger] a[k] < a[k + 1] by {
            if k < a.len() - 2 {
                assert(a2[k] < a2[k + 1]);
            } else {
                assert(a2.len() > 0);
                assert(b2.len() > 0);
                assert(a2.last() <= b2.last());
                assert(a[k] == a2.last());
                assert(b[b.len() - 2] < b[b.len() - 1]);
            }
        }
    } else {
        let b2 = b.drop_last();
        assert(forall|k: int| 0 <= k < b2.len() - 1 ==> #[trigger] b2[k] < b2[k + 1]);
        crate::helpers::lemma_subsequence_len(a, b2);
        lemma_subsequence_ascending(a, b2);
        assert(b2.len() > 0);
        assert(a.last() <= b2.last());
        assert(b2.last() == b[b.len() - 2]);
        assert(b[b.len() - 2] < b[b.len() - 1]);
    }
}

/// A subsequence of a well-formed candidate set is well formed.
pub proof fn lemma_subsequence_element_wf(a: Seq<usize>, b: Seq<usize>, n: nat)
    requires
        is_subsequence(a, b),
        element_wf(b, n),
    ensures
        element_wf(a, n),
{
    lemma_subsequence_contains(a, b);
    lemma_subsequence_ascending(a, b);
    assert forall|k: int| 0 <= k < a.len() implies #[trigger] a[k] < n by {
        assert(b.contains(a[k]));
        let j = choose|j: int| 0 <= j < b.len() && b[j] == a[k];
        assert(b[j] < n);
    }
}

/// The floor of the base-2 logarithm; zero for zero.
pub open spec fn log2_floor(n: nat) -> nat
    decreases n,
{
    if n <= 1 {
        0
    } else {
        1 + log2_floor(n / 2)
    }
}

/// The floor logarithm grows by less than its argument.
proof fn lemma_log2_floor_small(n: nat)
    ensures
        n >= 1 ==> log2_floor(n) < n,
    decreases n,
{
    if n >= 2 {
        lemma_log2_floor_small(n / 2);
    }
}

fn log2_floor_exec(n: u64) -> (r: u64)
    ensures
        r as nat == log2_floor(n as nat),
{
    let mut m = n;
    let mut r: u64 = 0;
    proof {
        lemma_log2_floor_small(n as nat);
    }
    while m > 1
        invariant
            log2_floor(n as nat) == r + log2_floor(m as nat),
            r <= log2_floor(n as nat),
            log2_floor(n as nat) < u64::MAX,
        decreases m,
    {
        m = m / 2;
        r = r + 1;
    }
    r
}

/// The sum saturated at the largest 64-bit value.
pub open spec fn sat64(x: nat) -> nat {
    if x > u64::MAX {
        u64::MAX as nat
    } else {
        x
    }
}

fn sat_add(a: u64, b: u64) -> (r: u64)
    ensures
        r as nat == sat64(a as nat + b as nat),
{
    if a > u64::MAX - b {
        u64::MAX
    } else {
        a + b
    }
}

fn sat_mul(a: u64, b: u64) -> (r: u64)
    ensures
        r as nat == sat64(a as nat * b as nat),
{
    if a == 0 {
        proof {
            assert(0 * b == 0) by (nonlinear_arith);
        }
        return 0;
    }
    let q = u64::MAX / a;
    if b > q {
        proof {
            vstd::arithmetic::div_mod::lemma_fundamental_div_mod(u64::MAX as int, a as int);
            assert(a as int * ((u64::MAX as int) / (a as int)) == (a as int) * (q as int));
            assert(a as nat * b as nat > u64::MAX) by (nonlinear_arith)
                requires
                    a >= 1,
                    b > q,
                    u64::MAX == a * q + (u64::MAX as int) % (a as int),
                    (u64::MAX as int) % (a as int) < a,
            ;
        }
        u64::MAX
    } else {
        proof {
            vstd::arithmetic::div_mod::lemma_fundamental_div_mod(u64::MAX as int, a as int);
            assert(a as nat * b as nat <= u64::MAX) by (nonlinear_arith)
                requires
                    a >= 1,
                    b <= q,
                    u64::MAX == a * q + (u64::MAX as int) % (a as int),
                    (u64::MAX as int) % (a as int) >= 0,
            ;
        }
        a * b
    }
}

/// The entropy contribution of one candidate with occurrence count `c` out
/// of `total` source windows: the rarer the candidate, the more doubt it
/// leaves, so the count is weighted by how far its magnitude falls below
/// the total's. The weight stays at least one, so that any remaining
/// candidate keeps the element selectable.
pub open spec fn entropy_term(c: nat, total: nat) -> nat {
    if log2_floor(c) <= log2_floor(total) {
        c * ((1 + log2_floor(total) - log2_floor(c)) as nat)
    } else {
        c
    }
}

/// The entropy of a candidate set, saturated at the largest 64-bit value:
/// the sum of the terms of its candidates' counts.
pub open spec fn entropy_sum(patterns: Seq<PatternV>, values: Seq<usize>, total: nat) -> nat
    decreases values.len(),
{
    if values.len() == 0 {
        0
    } else {
        sat64(
            entropy_sum(patterns, values.drop_last(), total) + sat64(
                entropy_term(patterns[values.last() as int].count as nat, total),
            ),
        )
    }
}

proof fn lemma_entropy_term_positive(c: nat, total: nat)
    requires
        c >= 1,
    ensures
        entropy_term(c, total) >= 1,
{
    if log2_floor(c) <= log2_floor(total) {
        let f = (1 + log2_floor(total) - log2_floor(c)) as nat;
        assert(c * f >= c * 1) by (nonlinear_arith)
            requires
                c >= 1,
                f >= 1,
        ;
    }
}

/// The entropy of a candidate set is bounded by the largest 64-bit value,
/// and vanishes exactly on the empty set (a contradiction).
pub proof fn lemma_entropy_zero_iff(patterns: Seq<PatternV>, values: Seq<usize>, total: nat)
    requires
        forall|k: int|
            0 <= k < values.len() ==> 0 <= #[trigger] values[k] < patterns.len() && patterns[
                values[k] as int
            ].count >= 1,
    ensures
        entropy_sum(patterns, values, total) <= u64::MAX,
        entropy_sum(patterns, values, total) == 0 <==> values.len() == 0,
    decreases values.len(),
{
    if values.len() > 0 {
        lemma_entropy_zero_iff(patterns, values.drop_last(), total);
        lemma_entropy_term_positive(patterns[values.last() as int].count as nat, total);
    }
}

/// Entropy monotonicity: a candidate set that is a subsequence of another,
/// both drawn from the same catalog, has entropy at most the other's.
pub proof fn lemma_entropy_monotone(
    patterns: Seq<PatternV>,
    a: Seq<usize>,
    b: Seq<usize>,
    total: nat,
)
    requires
        is_subsequence(a, b),
    ensures
        entropy_sum(patterns, a, total) <= entropy_sum(patterns, b, total),
    decreases b.len(),
{
    if a.len() == 0 {
    } else if a.last() == b.last() {
        lemma_entropy_monotone(patterns, a.drop_last(), b.drop_last(), total);
    } else {
        lemma_entropy_monotone(patterns, a, b.drop_last(), total);
    }
}

impl Element {
    /// The entropy of this element's superposition: zero exactly on a
    /// contradiction, and never larger for a narrower candidate set.
    pub fn entropy(&self, patterns: &Vec<Pattern>, patterns_total: usize) -> (e: u64)
        requires
            forall|k: int|
                0 <= k < self.values@.len() ==> #[trigger] self.values@[k] < patterns@.len()
                    && patterns@[self.values@[k] as int]@.count >= 1,
        ensures
            e as nat == entropy_sum(
                patterns_view(patterns@),
                self.values@,
                patterns_total as nat,
            ),
            e == 0 <==> self.values@.len() == 0,
    {
        let ghost pv = patterns_view(patterns@);
        let ghost total = patterns_total as nat;
        let total_log = log2_floor_exec(patterns_total as u64);
        proof {
            lemma_log2_floor_small(total);
            assert(entropy_sum(pv, self.values@.take(0), total) == 0) by {
                assert(self.values@.take(0) =~= Seq::<usize>::empty());
            }
        }
        let mut e: u64 = 0;
        for k in 0..self.values.len()
            invariant
                pv == patterns_view(patterns@),
                total == patterns_total as nat,
                total_log as nat == log2_floor(total),
                total_log < u64::MAX,
                forall|n: int|
                    0 <= n < self.values@.len() ==> #[trigger] self.values@[n] < patterns@.len()
                        && patterns@[self.values@[n] as int]@.count >= 1,
                e as nat == entropy_sum(pv, self.values@.take(k as int), total),
        {
            let id = self.values[k];
            let count = patterns[id].count;
            proof {
                assert(pv[id as int] == patterns@[id as int]@);
                lemma_log2_floor_small(count as nat);
            }
            let count_log = log2_floor_exec(count as u64);
            let term: u64 = if count_log <= total_log {
                sat_mul(count as u64, 1 + total_log - count_log)
            } else {
                proof {
                    assert(sat64(count as nat) == count as nat);
                }
                count as u64
            };
            proof {
                assert(term as nat == sat64(entropy_term(pv[id as int].count as nat, total)));
            }
            e = sat_add(e, term);
            proof {
                let t = self.values@.take(k + 1);
                assert(t.drop_last() =~= self.values@.take(k as int));
                assert(t.last() == self.values@[k as int]);
            }
        }
        proof {
            assert(self.values@.take(self.values@.len() as int) =~= self.values@);
            lemma_entropy_zero_iff(pv, self.values@, total);
        }
        e
    }
}

} // verus!