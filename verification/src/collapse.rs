//! The collapse engine: entropy-driven selection of one element, a
//! weighted or uniform random commit, and the driving loop that repeats
//! the step until the grid is fully collapsed, restarting on
//! contradictions.

use crate::Flags;
use crate::Wave;
use crate::count_uncollapsed;
use crate::element::Element;
use crate::element::element_wf;
use crate::element::entropy_sum;
use crate::helpers::copy_row;
use crate::helpers::is_subsequence;
use crate::helpers::lemma_singleton_subsequence;
use crate::helpers::lemma_subsequence_trans;
use crate::history::Record;
use crate::patterns::PatternV;
use crate::patterns::patterns_view;
use crate::propagate::positions_view;
use crate::propagate::propagate_from;
use crate::propagate::vals_view;
use crate::propagate::wave_limit;
use crate::rng::random_below;
use vstd::prelude::*;

verus! {

pub(crate) fn has_flag(flags: &Vec<Flags>, f: Flags) -> (r: bool)
    ensures
        r <==> flags@.contains(f),
{
    for k in 0..flags.len()
        invariant
            forall|n: int| 0 <= n < k ==> flags@[n] != f,
    {
        if flags[k] == f {
            return true;
        }
    }
    false
}

/// The count-weight of the first `j` candidates of a set.
spec fn weight_sum(patterns: Seq<PatternV>, values: Seq<usize>, j: int) -> int
    decreases j,
{
    if j <= 0 {
        0
    } else {
        weight_sum(patterns, values, j - 1) + patterns[values[j - 1] as int].count
    }
}

proof fn lemma_weight_sum_bounds(patterns: Seq<PatternV>, values: Seq<usize>, j: int)
    requires
        0 <= j <= values.len(),
        forall|k: int| 0 <= k < values.len() ==> #[trigger] values[k] < patterns.len(),
        forall|k: int|
            0 <= k < values.len() ==> patterns[#[trigger] values[k] as int].count >= 1,
    ensures
        j <= weight_sum(patterns, values, j) <= j * (u64::MAX as int),
    decreases j,
{
    if j > 0 {
        lemma_weight_sum_bounds(patterns, values, j - 1);
        assert(patterns[values[j - 1] as int].count <= u64::MAX);
        assert((j - 1) * (u64::MAX as int) + u64::MAX == j * (u64::MAX as int))
            by (nonlinear_arith);
    }
}

/// Counting never falls when every element collapsed in `b` was collapsed
/// in `a` too.
proof fn lemma_count_uncollapsed_mono(a: Seq<Element>, b: Seq<Element>, i_end: int)
    requires
        a.len() == b.len(),
        i_end <= a.len(),
        forall|j: int|
            0 <= j < a.len() ==> ((#[trigger] b[j]).values@.len() != 1 ==> a[j].values@.len()
                != 1),
    ensures
        count_uncollapsed(b, i_end) <= count_uncollapsed(a, i_end),
    decreases i_end,
{
    if i_end > 0 {
        lemma_count_uncollapsed_mono(a, b, i_end - 1);
    }
}

/// Collapsing the uncollapsed element at `i` lowers the count by one.
proof fn lemma_count_collapse_at(a: Seq<Element>, b: Seq<Element>, i: int, i_end: int)
    requires
        a.len() == b.len(),
        0 <= i < a.len(),
        a[i].values@.len() != 1,
        b[i].values@.len() == 1,
        forall|j: int| 0 <= j < a.len() && j != i ==> (#[trigger] b[j]).values@ == a[j].values@,
    ensures
        i < i_end <= a.len() ==> count_uncollapsed(b, i_end) + 1 == count_uncollapsed(a, i_end),
        i_end <= i ==> count_uncollapsed(b, i_end) == count_uncollapsed(a, i_end),
    decreases i_end,
{
    if i_end > 0 {
        lemma_count_collapse_at(a, b, i, i_end - 1);
    }
}

impl Wave {
    /// A state `collapse_once` can act on without aborting: an empty grid,
    /// or one with a selectable element, or at least a first element that
    /// still holds a candidate to re-commit.
    pub open spec fn collapse_ready(self) -> bool {
        ||| self.elements@.len() == 0
        ||| exists|i: int|
            0 <= i < self.elements@.len() && (#[trigger] self.elements@[i]).values@.len() >= 2
        ||| self.elements@[0].values@.len() >= 1
    }

    /// Finds the uncollapsed elements of greatest entropy and picks one
    /// of them uniformly at random; on a grid with nothing selectable the
    /// first element stands in.
    fn select_element(&self) -> (sel: usize)
        requires
            self.wf(),
            self.collapse_ready(),
            self.elements@.len() > 0,
        ensures
            sel < self.elements@.len(),
            self.elements@[sel as int].values@.len() >= 1,
            (!self.has_contradiction() && !self.fully_collapsed())
                ==> self.elements@[sel as int].values@.len() >= 2,
            (!self.has_contradiction() && !self.fully_collapsed()) ==> forall|j: int|
                0 <= j < self.elements@.len() && (#[trigger] self.elements@[j]).values@.len() != 1
                    ==> entropy_sum(
                    patterns_view(self.patterns@),
                    self.elements@[j].values@,
                    self.patterns_total as nat,
                ) <= entropy_sum(
                    patterns_view(self.patterns@),
                    self.elements@[sel as int].values@,
                    self.patterns_total as nat,
                ),
    {
        let ghost pv = patterns_view(self.patterns@);
        let ghost total = self.patterns_total as nat;
        let mut selected_elements: Vec<usize> = Vec::new();
        selected_elements.push(0);
        let mut greatest_entropy: u64 = 0;

        for i in 0..self.elements.len()
            invariant
                self.wf(),
                pv == patterns_view(self.patterns@),
                total == self.patterns_total as nat,
                self.elements@.len() > 0,
                selected_elements@.len() >= 1,
                forall|n: int|
                    0 <= n < selected_elements@.len() ==> #[trigger] selected_elements@[n]
                        < self.elements@.len(),
                greatest_entropy == 0 ==> selected_elements@ =~= seq![0usize],
                greatest_entropy > 0 <==> (exists|j: int|
                    0 <= j < i && (#[trigger] self.elements@[j]).values@.len() >= 2),
                greatest_entropy > 0 ==> forall|n: int|
                    0 <= n < selected_elements@.len()
                        ==> self.elements@[#[trigger] selected_elements@[n] as int].values@.len()
                        >= 2,
                forall|j: int|
                    0 <= j < i && (#[trigger] self.elements@[j]).values@.len() >= 2
                        ==> entropy_sum(pv, self.elements@[j].values@, total) <= greatest_entropy,
                greatest_entropy > 0 ==> forall|n: int|
                    0 <= n < selected_elements@.len() ==> entropy_sum(
                        pv,
                        self.elements@[#[trigger] selected_elements@[n] as int].values@,
                        total,
                    ) == greatest_entropy,
        {
            proof {
                assert(self.grid_element_ok(i as int));
                assert forall|k: int|
                    0 <= k < self.elements@[i as int].values@.len() implies #[trigger] self.elements@[i as int].values@[k]
                    < self.patterns@.len() && self.patterns@[self.elements@[i as int].values@[k] as int]@.count
                    >= 1 by {
                    assert(element_wf(self.elements@[i as int].values@, self.patterns@.len()));
                    assert(patterns_view(self.patterns@)[self.elements@[i as int].values@[k] as int]
                        == self.patterns@[self.elements@[i as int].values@[k] as int]@);
                }
            }
            let collapsed = self.elements[i].is_collapsed();
            if !collapsed {
                let ent = self.elements[i].entropy(&self.patterns, self.patterns_total);
                proof {
                    if self.elements@[i as int].values@.len() >= 2 {
                        assert(ent != 0);
                    }
                }
                if ent != 0 {
                    assert(self.elements@[i as int].values@.len() >= 2);
                    if ent > greatest_entropy {
                        greatest_entropy = ent;
                        let mut fresh: Vec<usize> = Vec::new();
                        fresh.push(i);
                        selected_elements = fresh;
                    } else if ent == greatest_entropy {
                        selected_elements.push(i);
                    }
                }
            }
        }

        let pick = random_below(selected_elements.len() as u128);
        let selected_element = selected_elements[pick as usize];
        proof {
            if greatest_entropy == 0 {
                assert(selected_element == 0);
                assert(!(exists|j: int|
                    0 <= j < self.elements@.len() && (#[trigger] self.elements@[j]).values@.len()
                        >= 2));
                assert(self.elements@[0].values@.len() >= 1);
            }
            if !self.has_contradiction() && !self.fully_collapsed() {
                assert(exists|j: int|
                    0 <= j < self.elements@.len() && (#[trigger] self.elements@[j]).values@.len()
                        != 1);
                let w = choose|j: int|
                    0 <= j < self.elements@.len() && (#[trigger] self.elements@[j]).values@.len()
                        != 1;
                assert(self.elements@[w].values@.len() != 0);
                assert(self.elements@[w].values@.len() >= 2);
                assert(greatest_entropy > 0);
                assert(entropy_sum(pv, self.elements@[selected_element as int].values@, total)
                    == greatest_entropy);
                assert forall|j: int|
                    0 <= j < self.elements@.len() && (#[trigger] self.elements@[j]).values@.len()
                        != 1 implies entropy_sum(pv, self.elements@[j].values@, total)
                    <= entropy_sum(
                    pv,
                    self.elements@[selected_element as int].values@,
                    total,
                ) by {
                    assert(self.elements@[j].values@.len() != 0);
                    assert(self.elements@[j].values@.len() >= 2);
                }
            }
        }
        selected_element
    }

    /// Picks the index of one candidate of the element at `sel`: weighted
    /// by pattern counts, or uniformly when `NoWeights` is set.
    #[verifier::rlimit(100)]
    fn choose_candidate(&self, selected_element: usize) -> (k: usize)
        requires
            self.wf(),
            selected_element < self.elements@.len(),
            self.elements@[selected_element as int].values@.len() >= 1,
        ensures
            k < self.elements@[selected_element as int].values@.len(),
    {
        let ghost pv = patterns_view(self.patterns@);
        let ghost sel = selected_element as int;
        proof {
            assert(self.grid_element_ok(sel));
            assert(element_wf(self.elements@[sel].values@, self.patterns@.len()));
        }
        let n_values = self.elements[selected_element].values.len();
        let weighted = !has_flag(&self.flags, Flags::NoWeights);

        if !weighted {
            let c = random_below(n_values as u128);
            return c as usize;
        }
        // draw a weight threshold and take the first candidate whose
        // cumulative count passes it
        let mut total: u128 = 0;
        proof {
            assert forall|k: int|
                0 <= k < self.elements@[sel].values@.len() implies #[trigger] self.elements@[sel].values@[k]
                < pv.len() && pv[self.elements@[sel].values@[k] as int].count >= 1 by {
                assert(patterns_view(self.patterns@)[self.elements@[sel].values@[k] as int]
                    == self.patterns@[self.elements@[sel].values@[k] as int]@);
            }
        }
        for j in 0..n_values
            invariant
                self.wf(),
                pv == patterns_view(self.patterns@),
                sel < self.elements@.len(),
                selected_element as int == sel,
                n_values == self.elements@[sel].values@.len(),
                forall|k: int|
                    0 <= k < self.elements@[sel].values@.len()
                        ==> #[trigger] self.elements@[sel].values@[k] < pv.len() && pv[
                        self.elements@[sel].values@[k] as int
                    ].count >= 1,
                total == weight_sum(pv, self.elements@[sel].values@, j as int),
                total <= j * (u64::MAX as int),
        {
            let id = self.elements[selected_element].values[j];
            proof {
                assert(pv[id as int] == self.patterns@[id as int]@);
                assert((j as int) * (u64::MAX as int) + u64::MAX == (j + 1) * (
                u64::MAX as int)) by (nonlinear_arith);
                assert((j + 1) * (u64::MAX as int) <= (n_values as int) * (u64::MAX as int))
                    by (nonlinear_arith)
                    requires
                        j + 1 <= n_values,
                ;
                assert((n_values as int) * (u64::MAX as int) < u128::MAX)
                    by (nonlinear_arith)
                    requires
                        n_values <= u64::MAX,
                ;
            }
            let c = self.patterns[id].count;
            total = total + (c as u128);
        }
        proof {
            lemma_weight_sum_bounds(pv, self.elements@[sel].values@, n_values as int);
        }
        let t = random_below(total);

        let mut k: usize = 0;
        let mut acc: u128 = 0;
        let mut found = false;
        for j in 0..n_values
            invariant
                self.wf(),
                pv == patterns_view(self.patterns@),
                sel < self.elements@.len(),
                selected_element as int == sel,
                n_values == self.elements@[sel].values@.len(),
                n_values >= 1,
                forall|kk: int|
                    0 <= kk < self.elements@[sel].values@.len()
                        ==> #[trigger] self.elements@[sel].values@[kk] < pv.len() && pv[
                        self.elements@[sel].values@[kk] as int
                    ].count >= 1,
                t < weight_sum(pv, self.elements@[sel].values@, n_values as int),
                weight_sum(pv, self.elements@[sel].values@, n_values as int) <= u128::MAX,
                !found ==> acc == weight_sum(pv, self.elements@[sel].values@, j as int),
                !found ==> acc <= t,
                found ==> k < n_values,
        {
            if !found {
                let id = self.elements[selected_element].values[j];
                proof {
                    assert(pv[id as int] == self.patterns@[id as int]@);
                    lemma_weight_sum_bounds(pv, self.elements@[sel].values@, j as int);
                    lemma_weight_sum_bounds(pv, self.elements@[sel].values@, n_values as int);
                    assert(weight_sum(pv, self.elements@[sel].values@, j as int)
                        <= weight_sum(pv, self.elements@[sel].values@, n_values as int)) by {
                        lemma_weight_sum_increases(
                            pv,
                            self.elements@[sel].values@,
                            j as int,
                            n_values as int,
                        );
                    }
                }
                let c = self.patterns[id].count;
                if t < acc + (c as u128) {
                    k = j;
                    found = true;
                } else {
                    acc = acc + (c as u128);
                }
            }
        }
        proof {
            if !found {
                assert(acc == weight_sum(pv, self.elements@[sel].values@, n_values as int));
                assert(false);
            }
        }
        k
    }

    /// Causes the wave to perform one collapse: among the uncollapsed
    /// elements of greatest entropy one is chosen at random, committed to
    /// a single candidate — weighted by pattern counts unless `NoWeights`
    /// is set — and the consequences are propagated outward. The contract
    /// names the committed element and value: the final candidate sets are
    /// exactly `propagate_from` of the commit, the committed element was
    /// of maximal entropy among the uncollapsed, and the decision is
    /// appended to the history unless `NoHistory` is set. Candidate sets
    /// only ever shrink, and on a grid that is neither collapsed nor
    /// contradicted the number of uncollapsed elements falls unless a
    /// contradiction arises.
    #[verifier::rlimit(100)]
    pub fn collapse_once(&mut self)
        requires
            old(self).wf(),
            old(self).collapse_ready(),
        ensures
            final(self).wf(),
            final(self).patterns == old(self).patterns,
            final(self).patterns_total == old(self).patterns_total,
            final(self).chunk_size == old(self).chunk_size,
            final(self).chunk_fill_size == old(self).chunk_fill_size,
            final(self).flags == old(self).flags,
            final(self).iterations == old(self).iterations,
            final(self).elements@.len() == old(self).elements@.len(),
            forall|i: int|
                0 <= i < final(self).elements@.len() ==> (#[trigger] final(self).elements@[i]).position
                    == old(self).elements@[i].position,
            forall|i: int|
                0 <= i < final(self).elements@.len() ==> is_subsequence(
                    (#[trigger] final(self).elements@[i]).values@,
                    old(self).elements@[i].values@,
                ),
            old(self).elements@.len() == 0 ==> *final(self) == *old(self),
            (old(self).elements@.len() > 0 && !old(self).has_contradiction() && !old(
                self,
            ).fully_collapsed()) ==> (final(self).has_contradiction() || count_uncollapsed(
                final(self).elements@,
                final(self).elements@.len() as int,
            ) < count_uncollapsed(old(self).elements@, old(self).elements@.len() as int)),
            old(self).elements@.len() > 0 && old(self).flags@.contains(Flags::NoHistory)
                ==> final(self).history == old(self).history,
            old(self).elements@.len() == 0 ==> final(self).history == old(self).history,
            old(self).elements@.len() > 0 ==> exists|i: int, c: usize|
                #![trigger old(self).elements@[i].values@.contains(c)]
                {
                    &&& 0 <= i < old(self).elements@.len()
                    &&& old(self).elements@[i].values@.contains(c)
                    &&& vals_view(final(self).elements@) == propagate_from(
                        patterns_view(old(self).patterns@),
                        positions_view(old(self).elements@),
                        vals_view(old(self).elements@).update(i, seq![c]),
                        i,
                        wave_limit(old(self).chunk_fill_size),
                    )
                    &&& ((!old(self).has_contradiction() && !old(self).fully_collapsed()) ==> {
                        &&& old(self).elements@[i].values@.len() >= 2
                        &&& forall|j: int|
                            0 <= j < old(self).elements@.len()
                                && (#[trigger] old(self).elements@[j]).values@.len() != 1
                                ==> entropy_sum(
                                patterns_view(old(self).patterns@),
                                old(self).elements@[j].values@,
                                old(self).patterns_total as nat,
                            ) <= entropy_sum(
                                patterns_view(old(self).patterns@),
                                old(self).elements@[i].values@,
                                old(self).patterns_total as nat,
                            )
                    })
                    &&& (!old(self).flags@.contains(Flags::NoHistory) ==> {
                        let r = final(self).history@.last();
                        &&& final(self).history@.len() == old(self).history@.len() + 1
                        &&& (forall|n: int|
                            0 <= n < old(self).history@.len() ==> #[trigger] final(self).history@[n]
                                == old(self).history@[n])
                        &&& r.element_location == old(self).elements@[i].position
                        &&& r.previous_pattern_ids@ == old(self).elements@[i].values@
                        &&& r.chosen_pattern_id == c
                        &&& r.iteration == old(self).iterations
                        &&& !r.undone
                    })
                },
    {
        if self.elements.len() == 0 {
            return;
        }

        let selected_element = self.select_element();
        let ghost sel = selected_element as int;
        let choice_idx = self.choose_candidate(selected_element);
        proof {
            assert(self.grid_element_ok(sel));
            assert(element_wf(self.elements@[sel].values@, self.patterns@.len()));
        }

        // finish collapse!
        let chosen = self.elements[selected_element].values[choice_idx];
        proof {
            lemma_singleton_subsequence(self.elements@[sel].values@, choice_idx as int);
        }

        let keep_history = !has_flag(&self.flags, Flags::NoHistory);
        if keep_history {
            let record = Record {
                element_location: self.elements[selected_element].position,
                chosen_pattern_id: chosen,
                previous_pattern_ids: copy_row(&self.elements[selected_element].values),
                iteration: self.iterations,
                undone: false,
            };
            self.history.push(record);
            proof {
                assert(element_wf(self.elements@[sel].values@, self.patterns@.len()));
                assert forall|n: int| 0 <= n < self.history@.len() implies {
                    let r = #[trigger] self.history@[n];
                    &&& r.chosen_pattern_id < self.patterns@.len()
                    &&& element_wf(r.previous_pattern_ids@, self.patterns@.len())
                } by {
                    if n < old(self).history@.len() {
                        assert(old(self).history_wf());
                    }
                }
                assert(self.history_wf());
            }
        }

        let ghost pre_self = *self;
        let mut borrow = self.elements.remove(selected_element);
        let mut single: Vec<usize> = Vec::new();
        single.push(chosen);
        borrow.values = single;
        self.elements.insert(selected_element, borrow);
        proof {
            assert(self.elements@ =~= pre_self.elements@.update(sel, self.elements@[sel]));
            assert forall|j: int|
                0 <= j < self.elements@.len() implies #[trigger] self.grid_element_ok(j) by {
                assert(old(self).grid_element_ok(j));
                assert(pre_self.grid_element_ok(j));
                if j == sel {
                    assert(self.elements@[j].values@ =~= seq![chosen]);
                    assert(element_wf(self.elements@[j].values@, self.patterns@.len()));
                }
            }
            assert(self.grid_wf());
            assert forall|j: int|
                0 <= j < self.elements@.len() implies is_subsequence(
                (#[trigger] self.elements@[j]).values@,
                old(self).elements@[j].values@,
            ) by {
                if j == sel {
                    assert(self.elements@[j].values@ =~= seq![old(self).elements@[sel].values@[choice_idx as int]]);
                } else {
                    crate::helpers::lemma_subsequence_refl(self.elements@[j].values@);
                }
            }
        }
        let ghost mid_self = *self;

        // propagate changes
        self.propagate(selected_element);

        proof {
            assert(old(self).elements@[sel].values@[choice_idx as int] == chosen);
            assert(old(self).elements@[sel].values@.contains(chosen));
            assert(positions_view(mid_self.elements@) =~= positions_view(old(self).elements@));
            assert(vals_view(mid_self.elements@) =~= vals_view(old(self).elements@).update(
                sel,
                seq![chosen],
            ));
            assert(vals_view(self.elements@) == propagate_from(
                patterns_view(old(self).patterns@),
                positions_view(old(self).elements@),
                vals_view(old(self).elements@).update(sel, seq![chosen]),
                sel,
                wave_limit(old(self).chunk_fill_size),
            ));
            assert forall|j: int|
                0 <= j < self.elements@.len() implies is_subsequence(
                (#[trigger] self.elements@[j]).values@,
                old(self).elements@[j].values@,
            ) by {
                lemma_subsequence_trans(
                    self.elements@[j].values@,
                    mid_self.elements@[j].values@,
                    old(self).elements@[j].values@,
                );
            }
            if !old(self).has_contradiction() && !old(self).fully_collapsed() {
                assert(old(self).elements@[sel].values@.len() >= 2);
                lemma_count_collapse_at(
                    old(self).elements@,
                    mid_self.elements@,
                    sel,
                    old(self).elements@.len() as int,
                );
                if !self.has_contradiction() {
                    assert forall|j: int|
                        0 <= j < self.elements@.len() && (#[trigger] self.elements@[j]).values@.len()
                        != 1 implies mid_self.elements@[j].values@.len() != 1 by {
                        crate::helpers::lemma_subsequence_len(
                            self.elements@[j].values@,
                            mid_self.elements@[j].values@,
                        );
                        assert(self.elements@[j].values@.len() >= 1);
                    }
                    lemma_count_uncollapsed_mono(
                        mid_self.elements@,
                        self.elements@,
                        self.elements@.len() as int,
                    );
                }
            }
        }
    }
}

impl Wave {
    /// Collapses continuously until the wave function either completely
    /// collapses or the max number of contradictions (attempts) has been
    /// reached. After each step the optional callback receives the number
    /// of iterations and failures so far and the current state of the
    /// wave; the iteration count resets after a failed attempt, the
    /// failure count never does. When an error is returned, the state at
    /// which it occurred is preserved in the wave.
    pub fn collapse_all<F: Fn(usize, usize, Vec<Vec<Vec<usize>>>)>(
        &mut self,
        max_contradictions: usize,
        callback: Option<F>,
    ) -> (r: Result<(), String>)
        requires
            old(self).wf(),
            old(self).collapse_ready(),
            max_contradictions >= 1,
            callback matches Some(f) ==> forall|x: usize, y: usize, z: Vec<Vec<Vec<usize>>>|
                #[trigger] f.requires((x, y, z)),
        ensures
            final(self).wf(),
            final(self).patterns == old(self).patterns,
            final(self).patterns_total == old(self).patterns_total,
            final(self).chunk_size == old(self).chunk_size,
            final(self).chunk_fill_size == old(self).chunk_fill_size,
            final(self).flags == old(self).flags,
            r is Ok ==> final(self).fully_collapsed(),
            r matches Err(m) ==> (m@ == no_patterns_error() || m@ == not_filled_error() || m@
                == max_contradictions_error() || m@ == crate::fill_width_error() || m@
                == crate::fill_height_error()),
            r matches Err(m) && m@ == no_patterns_error() <==> old(self).patterns@.len() == 0,
            r matches Err(m) && m@ == not_filled_error() <==> (old(self).patterns@.len() > 0 && (
            old(self).chunk_fill_size.x == 0 || old(self).chunk_fill_size.y == 0)),
            r matches Err(m) && (m@ == no_patterns_error() || m@ == not_filled_error())
                ==> *final(self) == *old(self),
            r matches Err(m) && m@ == max_contradictions_error()
                ==> final(self).has_contradiction(),
            old(self).chunk_size.x > 0 && old(self).chunk_size.y > 0 ==> !(r matches Err(m) && (m@
                == crate::fill_width_error() || m@ == crate::fill_height_error())),
    {
        proof {
            lemma_collapse_error_texts_distinct();
        }
        if self.patterns.len() == 0 {
            return Err(
                "The number of rules identified was zero. The input was flawed or the wave was configured incorrectly.".to_owned(),
            );
        }
        if self.chunk_fill_size.x == 0 || self.chunk_fill_size.y == 0 {
            return Err("The superpositions are empty or were not filled properly".to_owned());
        }
        proof {
            assert(self.elements@.len() > 0) by (nonlinear_arith)
                requires
                    self.elements@.len() == self.chunk_fill_size.x * self.chunk_fill_size.y,
                    self.chunk_fill_size.x >= 1,
                    self.chunk_fill_size.y >= 1,
            ;
        }

        let mut failures: usize = 0;

        while !self.completely_collapsed()
            invariant
                self.wf(),
                self.collapse_ready(),
                self.patterns == old(self).patterns,
                self.patterns@.len() > 0,
                self.patterns_total == old(self).patterns_total,
                self.chunk_size == old(self).chunk_size,
                self.chunk_fill_size == old(self).chunk_fill_size,
                self.flags == old(self).flags,
                self.chunk_fill_size.x >= 1,
                self.chunk_fill_size.y >= 1,
                self.elements@.len() > 0,
                failures < max_contradictions,
                callback matches Some(f) ==> forall|x: usize, y: usize, z: Vec<Vec<Vec<usize>>>|
                    #[trigger] f.requires((x, y, z)),
            decreases
                    max_contradictions - failures,
                    count_uncollapsed(self.elements@, self.elements@.len() as int),
        {
            proof {
                lemma_collapse_error_texts_distinct();
            }
            let ghost pre = *self;
            self.collapse_once();

            if self.has_contradiction_occurred() {
                failures = failures + 1;

                if failures == max_contradictions {
                    return Err("The max number of contradictions has been reached".to_owned());
                }

                let size = self.true_size();
                let ghost pre_fill = *self;
                let fill_result = self.fill(size);
                match fill_result {
                    Ok(()) => {
                        proof {
                            vstd::arithmetic::div_mod::lemma_div_multiples_vanish(
                                pre_fill.chunk_fill_size.x as int,
                                pre_fill.chunk_size.x as int,
                            );
                            vstd::arithmetic::div_mod::lemma_div_multiples_vanish(
                                pre_fill.chunk_fill_size.y as int,
                                pre_fill.chunk_size.y as int,
                            );
                            assert(pre_fill.chunk_fill_size.x * pre_fill.chunk_size.x
                                == pre_fill.chunk_size.x * pre_fill.chunk_fill_size.x)
                                by (nonlinear_arith);
                            assert(pre_fill.chunk_fill_size.y * pre_fill.chunk_size.y
                                == pre_fill.chunk_size.y * pre_fill.chunk_fill_size.y)
                                by (nonlinear_arith);
                            assert(self.chunk_fill_size.x == pre_fill.chunk_fill_size.x);
                            assert(self.chunk_fill_size.y == pre_fill.chunk_fill_size.y);
                        }
                    },
                    Err(m) => {
                        proof {
                            assert(m@ == crate::fill_width_error() || m@
                                == crate::fill_height_error());
                            if self.chunk_size.x > 0 && self.chunk_size.y > 0 {
                                vstd::arithmetic::div_mod::lemma_mod_multiples_basic(
                                    pre_fill.chunk_fill_size.x as int,
                                    pre_fill.chunk_size.x as int,
                                );
                                vstd::arithmetic::div_mod::lemma_mod_multiples_basic(
                                    pre_fill.chunk_fill_size.y as int,
                                    pre_fill.chunk_size.y as int,
                                );
                                assert(false);
                            }
                        }
                        return Err(m);
                    },
                }
                let ghost before_reset = *self;
                self.iterations = 0;
                proof {
                    before_reset.lemma_wf_frame(*self);
                    assert(self.elements@.len() > 0) by (nonlinear_arith)
                        requires
                            self.elements@.len() == self.chunk_fill_size.x
                                * self.chunk_fill_size.y,
                            self.chunk_fill_size.x >= 1,
                            self.chunk_fill_size.y >= 1,
                    ;
                    assert(self.elements@[0].values@.len() == self.patterns@.len());
                }
            } else {
                let ghost before_step = *self;
                if self.iterations < usize::MAX {
                    self.iterations = self.iterations + 1;
                }
                proof {
                    before_step.lemma_wf_frame(*self);
                    // a contradiction present before the step would have
                    // survived it: empty candidate sets only stay empty
                    if pre.has_contradiction() {
                        let w = choose|i: int|
                            0 <= i < pre.elements@.len() && (#[trigger] pre.elements@[i]).values@.len()
                                == 0;
                        crate::helpers::lemma_subsequence_len(
                            self.elements@[w].values@,
                            pre.elements@[w].values@,
                        );
                        assert(false);
                    }
                    assert(!pre.fully_collapsed());
                    assert(count_uncollapsed(self.elements@, self.elements@.len() as int)
                        < count_uncollapsed(pre.elements@, pre.elements@.len() as int));
                    assert forall|i: int|
                        0 <= i < self.elements@.len() implies (#[trigger] self.elements@[i]).values@.len()
                        >= 1 by {
                        assert(!(self.elements@[i].values@.len() == 0));
                    }
                }
            }

            match &callback {
                Some(cb) => {
                    let state = self.current_state();
                    cb(self.iterations, failures, state);
                },
                None => {},
            }
        }

        Ok(())
    }
}

/// The five messages `collapse_all` can fail with are pairwise distinct.
proof fn lemma_collapse_error_texts_distinct()
    ensures
        no_patterns_error() != not_filled_error(),
        no_patterns_error() != max_contradictions_error(),
        no_patterns_error() != crate::fill_width_error(),
        no_patterns_error() != crate::fill_height_error(),
        not_filled_error() != max_contradictions_error(),
        not_filled_error() != crate::fill_width_error(),
        not_filled_error() != crate::fill_height_error(),
        max_contradictions_error() != crate::fill_width_error(),
        max_contradictions_error() != crate::fill_height_error(),
        crate::fill_width_error() != crate::fill_height_error(),
{
    reveal_strlit(
        "The number of rules identified was zero. The input was flawed or the wave was configured incorrectly.",
    );
    reveal_strlit("The superpositions are empty or were not filled properly");
    reveal_strlit("The max number of contradictions has been reached");
    reveal_strlit("The output width must be a factor of the chunk size");
    reveal_strlit("The output height must be a factor of the chunk size");
    assert(no_patterns_error().len() == 101);
    assert(not_filled_error().len() == 56);
    assert(max_contradictions_error().len() == 49);
    assert(crate::fill_width_error().len() == 51);
    assert(crate::fill_height_error().len() == 52);
}

/// The message `collapse_all` fails with when no patterns were identified.
pub open spec fn no_patterns_error() -> Seq<char> {
    "The number of rules identified was zero. The input was flawed or the wave was configured incorrectly."@
}

/// The message `collapse_all` fails with when the grid was never filled.
pub open spec fn not_filled_error() -> Seq<char> {
    "The superpositions are empty or were not filled properly"@
}

/// The message `collapse_all` fails with when the contradiction budget is
/// exhausted.
pub open spec fn max_contradictions_error() -> Seq<char> {
    "The max number of contradictions has been reached"@
}

proof fn lemma_weight_sum_increases(patterns: Seq<PatternV>, values: Seq<usize>, j: int, m: int)
    requires
        0 <= j <= m <= values.len(),
        forall|k: int| 0 <= k < values.len() ==> #[trigger] values[k] < patterns.len(),
        forall|k: int|
            0 <= k < values.len() ==> patterns[#[trigger] values[k] as int].count >= 1,
    ensures
        weight_sum(patterns, values, j) <= weight_sum(patterns, values, m),
    decreases m,
{
    if j < m {
        lemma_weight_sum_increases(patterns, values, j, m - 1);
    }
}

} // verus!
