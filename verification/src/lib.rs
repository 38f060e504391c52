//! Wave Function Collapse: learns local adjacency rules from a sample grid
//! and generates new grids of arbitrary size that locally resemble the
//! sample. The catalog of patterns is built once per sample by `analyze`;
//! `fill` lays out the output grid as superpositions over the whole
//! catalog; `collapse_once` commits one element and propagates the
//! consequences; `collapse_all` drives the search to completion, restarting
//! on contradictions.

pub mod analyze;
pub mod collapse;
pub mod element;
pub mod errors;
pub mod helpers;
pub mod history;
pub mod patterns;
pub mod propagate;
pub mod rng;
pub mod sampling;
pub mod stringtools;
pub mod transform;

use crate::element::Element;
use crate::element::element_wf;
use crate::helpers::Vector2;
use crate::history::Record;
use crate::patterns::Pattern;
use crate::patterns::patterns_view;
use vstd::prelude::*;

verus! {

/// Flags for the `Wave`.
#[derive(PartialEq, Eq, Structural, Clone, Copy, Debug)]
pub enum Flags {
    /// Pick patterns uniformly instead of weighting them by their counts.
    NoWeights,
    /// Do not synthesize mirrored pattern variants during analysis.
    NoTransforms,
    /// Do not keep a decision log during collapses.
    NoHistory,
    /// Drop patterns with few rules or with no rule in some direction.
    PruneDeadweight,
}

/// Encapsulation for the Wave Function Collapse implementation.
///
/// The fields are public so that specifications can speak of them, and so
/// tests and shells can inspect the state. The contracts assume the
/// well-formedness `wf`, which every method preserves; writing fields
/// directly can break it, and the catalog is meant to be read, not
/// written, once the analysis has built it.
#[derive(Clone, Debug)]
pub struct Wave {
    pub flags: Vec<Flags>,
    pub patterns: Vec<Pattern>,
    pub patterns_total: usize,
    pub elements: Vec<Element>,
    pub chunk_size: Vector2,
    pub chunk_fill_size: Vector2,
    pub iterations: usize,
    pub history: Vec<Record>,
}

impl Wave {
    /// Every pattern of the catalog has a positive count and contents of
    /// exactly the chunk dimensions.
    pub open spec fn catalog_wf(self) -> bool {
        forall|i: int|
            0 <= i < self.patterns@.len() ==> {
                let p = #[trigger] patterns_view(self.patterns@)[i];
                &&& p.count >= 1
                &&& p.contents.len() == self.chunk_size.x
                &&& forall|j: int|
                    0 <= j < p.contents.len() ==> (#[trigger] p.contents[j]).len()
                        == self.chunk_size.y
            }
    }

    /// What holds of the element at index `i`: it sits at the chunk
    /// position its index encodes, and its candidates are ascending
    /// indexes into the catalog.
    pub open spec fn grid_element_ok(self, i: int) -> bool {
        let e = self.elements@[i];
        &&& self.chunk_fill_size.y > 0
        &&& e.position.x == i / (self.chunk_fill_size.y as int)
        &&& e.position.y == i % (self.chunk_fill_size.y as int)
        &&& element_wf(e.values@, self.patterns@.len())
    }

    /// The element grid covers every chunk position exactly once, in
    /// column-major order, and each element's state is as its index says.
    pub open spec fn grid_wf(self) -> bool {
        &&& self.elements@.len() == self.chunk_fill_size.x * self.chunk_fill_size.y
        &&& self.chunk_fill_size.x * self.chunk_size.x <= usize::MAX
        &&& self.chunk_fill_size.y * self.chunk_size.y <= usize::MAX
        &&& forall|i: int| 0 <= i < self.elements@.len() ==> #[trigger] self.grid_element_ok(i)
    }

    /// Every record of the history points into the catalog.
    pub open spec fn history_wf(self) -> bool {
        forall|i: int|
            0 <= i < self.history@.len() ==> {
                let r = #[trigger] self.history@[i];
                &&& r.chosen_pattern_id < self.patterns@.len()
                &&& element_wf(r.previous_pattern_ids@, self.patterns@.len())
            }
    }

    pub open spec fn wf(self) -> bool {
        self.catalog_wf() && self.grid_wf() && self.history_wf()
    }

    /// Well-formedness does not depend on the iteration counter or the
    /// flags: it carries over to any wave that keeps the other fields.
    pub proof fn lemma_wf_frame(self, other: Wave)
        requires
            self.wf(),
            other.patterns == self.patterns,
            other.elements == self.elements,
            other.chunk_size == self.chunk_size,
            other.chunk_fill_size == self.chunk_fill_size,
            other.history == self.history,
        ensures
            other.wf(),
    {
        assert forall|j: int|
            0 <= j < other.elements@.len() implies #[trigger] other.grid_element_ok(j) by {
            assert(self.grid_element_ok(j));
        }
        assert(other.grid_wf());
        assert(other.catalog_wf());
        assert(other.history_wf());
    }

    /// Some element has lost every candidate.
    pub open spec fn has_contradiction(self) -> bool {
        exists|i: int|
            0 <= i < self.elements@.len() && (#[trigger] self.elements@[i]).values@.len() == 0
    }

    /// Every element holds exactly one candidate.
    pub open spec fn fully_collapsed(self) -> bool {
        forall|i: int|
            0 <= i < self.elements@.len() ==> (#[trigger] self.elements@[i]).values@.len() == 1
    }

    pub fn new() -> (w: Wave)
        ensures
            w.wf(),
            w.flags@.len() == 0,
            w.patterns@.len() == 0,
            w.patterns_total == 0,
            w.elements@.len() == 0,
            w.chunk_size == (Vector2 { x: 0, y: 0 }),
            w.chunk_fill_size == (Vector2 { x: 0, y: 0 }),
            w.iterations == 0,
            w.history@.len() == 0,
    {
        let w = Wave {
            flags: Vec::new(),
            patterns: Vec::new(),
            patterns_total: 0,
            elements: Vec::new(),
            chunk_size: Vector2::new(0, 0),
            chunk_fill_size: Vector2::new(0, 0),
            iterations: 0,
            history: Vec::new(),
        };
        proof {
            assert(w.chunk_fill_size.x * w.chunk_fill_size.y == 0 && w.chunk_fill_size.x
                * w.chunk_size.x == 0 && w.chunk_fill_size.y * w.chunk_size.y == 0)
                by (nonlinear_arith)
                requires
                    w.chunk_fill_size.x == 0,
                    w.chunk_fill_size.y == 0,
            ;
        }
        w
    }

    /// Whether some element has been pruned down to no candidate at all.
    pub fn has_contradiction_occurred(&self) -> (r: bool)
        ensures
            r == self.has_contradiction(),
    {
        for i in 0..self.elements.len()
            invariant
                forall|n: int|
                    0 <= n < i ==> (#[trigger] self.elements@[n]).values@.len() != 0,
        {
            if self.elements[i].values.len() == 0 {
                return true;
            }
        }
        false
    }

    /// Whether every element has been collapsed to a single candidate.
    pub fn completely_collapsed(&self) -> (r: bool)
        ensures
            r == self.fully_collapsed(),
    {
        for i in 0..self.elements.len()
            invariant
                forall|n: int|
                    0 <= n < i ==> (#[trigger] self.elements@[n]).values@.len() == 1,
        {
            if self.elements[i].values.len() != 1 {
                return false;
            }
        }
        true
    }

    /// The number of collapsed elements.
    pub fn collapsed_count(&self) -> (n: usize)
        ensures
            n == count_collapsed(self.elements@, self.elements@.len() as int),
    {
        let mut n: usize = 0;
        for i in 0..self.elements.len()
            invariant
                n == count_collapsed(self.elements@, i as int),
                n <= i,
        {
            if self.elements[i].values.len() == 1 {
                n = n + 1;
            }
        }
        n
    }

    /// The pattern catalog built by the last analysis.
    pub fn patterns(&self) -> (r: &Vec<Pattern>)
        ensures
            r == &self.patterns,
    {
        &self.patterns
    }

    /// The number of source windows the analysis drew patterns from: the
    /// denominator of the entropy weights.
    pub fn patterns_total(&self) -> (r: usize)
        ensures
            r == self.patterns_total,
    {
        self.patterns_total
    }

    /// The output size, in cells, that the grid was filled for.
    fn true_size(&self) -> (size: Vector2)
        requires
            self.grid_wf(),
        ensures
            size.x == self.chunk_fill_size.x * self.chunk_size.x,
            size.y == self.chunk_fill_size.y * self.chunk_size.y,
    {
        Vector2::new(
            self.chunk_fill_size.x * self.chunk_size.x,
            self.chunk_fill_size.y * self.chunk_size.y,
        )
    }

    /// Clears any existing elements and creates one per chunk-grid cell,
    /// each initialized with the entire pattern catalog as its candidate
    /// set: every pattern is a candidate everywhere before propagation
    /// narrows anything. The requested size must tile exactly in chunk
    /// units, else the fill fails and the wave is left unchanged.
    pub fn fill(&mut self, size: Vector2) -> (r: Result<(), String>)
        requires
            old(self).wf(),
        ensures
            final(self).wf(),
            r is Ok <==> (old(self).chunk_size.x > 0 && old(self).chunk_size.y > 0 && (size.x as int)
                % (old(self).chunk_size.x as int) == 0 && (size.y as int) % (old(self).chunk_size.y as int) == 0),
            r is Err ==> *final(self) == *old(self),
            r matches Err(m) ==> (m@ == fill_width_error() || m@ == fill_height_error()),
            r matches Err(m) && m@ == fill_width_error() <==> !(old(self).chunk_size.x > 0
                && (size.x as int) % (old(self).chunk_size.x as int) == 0),
            r is Ok ==> {
                &&& final(self).chunk_fill_size.x == (size.x as int) / (old(self).chunk_size.x as int)
                &&& final(self).chunk_fill_size.y == (size.y as int) / (old(self).chunk_size.y as int)
                &&& final(self).elements@.len() == final(self).chunk_fill_size.x * final(self).chunk_fill_size.y
                &&& forall|i: int|
                    0 <= i < final(self).elements@.len() ==> (#[trigger] final(self).elements@[i]).values@
                        == full_candidates(old(self).patterns@.len() as int)
                &&& final(self).history@.len() == 0
                &&& final(self).iterations == 0
            },
            final(self).patterns == old(self).patterns,
            final(self).patterns_total == old(self).patterns_total,
            final(self).chunk_size == old(self).chunk_size,
            final(self).flags == old(self).flags,
    {
        if self.chunk_size.x == 0 || size.x % self.chunk_size.x != 0 {
            return Err("The output width must be a factor of the chunk size".to_owned());
        }
        if self.chunk_size.y == 0 || size.y % self.chunk_size.y != 0 {
            let msg = "The output height must be a factor of the chunk size".to_owned();
            proof {
                reveal_strlit("The output width must be a factor of the chunk size");
                reveal_strlit("The output height must be a factor of the chunk size");
                assert(fill_width_error().len() == 51);
                assert(fill_height_error().len() == 52);
                assert(msg@ == fill_height_error());
            }
            return Err(msg);
        }

        self.elements.clear();
        self.history.clear();
        self.iterations = 0;

        let values_preset = candidate_ids(self.patterns.len());

        let cfs_x = size.x / self.chunk_size.x;
        let cfs_y = size.y / self.chunk_size.y;
        proof {
            vstd::arithmetic::div_mod::lemma_fundamental_div_mod(
                size.x as int,
                self.chunk_size.x as int,
            );
            vstd::arithmetic::div_mod::lemma_fundamental_div_mod(
                size.y as int,
                self.chunk_size.y as int,
            );
            vstd::arithmetic::div_mod::lemma_mod_bound(size.x as int, self.chunk_size.x as int);
            vstd::arithmetic::div_mod::lemma_mod_bound(size.y as int, self.chunk_size.y as int);
            assert(cfs_x * self.chunk_size.x <= size.x && cfs_y * self.chunk_size.y <= size.y)
                by (nonlinear_arith)
                requires
                    size.x as int == self.chunk_size.x as int * (cfs_x as int) + (size.x as int) % (
                    self.chunk_size.x as int),
                    size.y as int == self.chunk_size.y as int * (cfs_y as int) + (size.y as int) % (
                    self.chunk_size.y as int),
                    (size.x as int) % (self.chunk_size.x as int) >= 0,
                    (size.y as int) % (self.chunk_size.y as int) >= 0,
            ;
            assert(0 * cfs_y == 0) by (nonlinear_arith);
        }
        let ghost n_patterns = self.patterns@.len();

        for x in 0..cfs_x
            invariant
                self.elements@.len() == x * cfs_y,
                self.patterns@.len() == n_patterns,
                self.patterns == old(self).patterns,
                self.patterns_total == old(self).patterns_total,
                self.chunk_size == old(self).chunk_size,
                self.flags == old(self).flags,
                self.history@.len() == 0,
                self.iterations == 0,
                values_preset@ == full_candidates(n_patterns as int),
                element_wf(values_preset@, n_patterns),
                forall|i: int|
                    0 <= i < self.elements@.len() ==> {
                        let e = #[trigger] self.elements@[i];
                        &&& cfs_y > 0
                        &&& e.position.x == i / (cfs_y as int)
                        &&& e.position.y == i % (cfs_y as int)
                        &&& e.values@ == full_candidates(n_patterns as int)
                    },
        {
            for y in 0..cfs_y
                invariant
                    x < cfs_x,
                    self.elements@.len() == x * cfs_y + y,
                    self.patterns@.len() == n_patterns,
                    self.patterns == old(self).patterns,
                    self.patterns_total == old(self).patterns_total,
                    self.chunk_size == old(self).chunk_size,
                    self.flags == old(self).flags,
                    self.history@.len() == 0,
                    self.iterations == 0,
                    values_preset@ == full_candidates(n_patterns as int),
                    element_wf(values_preset@, n_patterns),
                    forall|i: int|
                        0 <= i < self.elements@.len() ==> {
                            let e = #[trigger] self.elements@[i];
                            &&& cfs_y > 0
                            &&& e.position.x == i / (cfs_y as int)
                            &&& e.position.y == i % (cfs_y as int)
                            &&& e.values@ == full_candidates(n_patterns as int)
                        },
            {
                proof {
                    lemma_grid_index_bound(x as int, y as int, cfs_x as int, cfs_y as int);
                    assert(self.elements@.len() <= usize::MAX) by {
                        assert(self.elements.len() == self.elements@.len());
                    }
                }
                let values = crate::helpers::copy_row(&values_preset);
                let position = Vector2::new(x, y);
                let element = Element::new(values, position);
                self.elements.push(element);
                proof {
                    vstd::arithmetic::div_mod::lemma_fundamental_div_mod_converse(
                        (x * cfs_y + y) as int,
                        cfs_y as int,
                        x as int,
                        y as int,
                    );
                }
            }
            proof {
                assert((x + 1) * cfs_y == x * cfs_y + cfs_y) by (nonlinear_arith);
            }
        }

        self.chunk_fill_size = Vector2::new(cfs_x, cfs_y);
        proof {
            assert(self.elements@.len() <= usize::MAX) by {
                assert(self.elements.len() == self.elements@.len());
            }
            vstd::arithmetic::div_mod::lemma_fundamental_div_mod(
                size.x as int,
                self.chunk_size.x as int,
            );
            vstd::arithmetic::div_mod::lemma_fundamental_div_mod(
                size.y as int,
                self.chunk_size.y as int,
            );
            assert(self.catalog_wf());
            assert(self.elements@.len() == self.chunk_fill_size.x * self.chunk_fill_size.y);
            assert(self.chunk_fill_size.x * self.chunk_size.x <= usize::MAX);
            assert(self.chunk_fill_size.y * self.chunk_size.y <= usize::MAX);
            assert forall|i: int| 0 <= i < self.elements@.len() implies #[trigger] self.grid_element_ok(i) by {
                assert(self.elements@[i].values@ == full_candidates(n_patterns as int));
                assert(element_wf(values_preset@, n_patterns));
            }
            assert(self.grid_wf());
            assert(self.history_wf());
        }
        Ok(())
    }
}

impl Wave {
    /// The index of the element that covers output cell `(x, y)`.
    pub open spec fn element_index_at(self, x: int, y: int) -> int {
        (x / (self.chunk_size.x as int)) * (self.chunk_fill_size.y as int) + y / (
        self.chunk_size.y as int)
    }

    /// The collapsed value at output cell `(x, y)`: the cell of the single
    /// remaining pattern of the element covering it.
    pub open spec fn cell_value(self, x: int, y: int) -> usize {
        let e = self.elements@[self.element_index_at(x, y)];
        let p = patterns_view(self.patterns@)[e.values@[0] as int];
        p.contents[x % (self.chunk_size.x as int)][y % (self.chunk_size.y as int)]
    }

    /// The values still possible at output cell `(x, y)`: one per candidate
    /// pattern of the element covering it, in candidate order.
    pub open spec fn cell_candidates(self, x: int, y: int) -> Seq<usize> {
        let e = self.elements@[self.element_index_at(x, y)];
        Seq::new(
            e.values@.len(),
            |k: int|
                patterns_view(self.patterns@)[e.values@[k] as int].contents[x % (
                self.chunk_size.x as int)][y % (self.chunk_size.y as int)],
        )
    }

    /// Projects the fully collapsed element grid back into a
    /// cell-granularity array of values: one entry per original sample
    /// unit, not per chunk. Fails unless the grid is filled, free of
    /// contradictions and completely collapsed.
    pub fn perfect_rep(&self) -> (r: Result<Vec<Vec<usize>>, String>)
        requires
            self.wf(),
        ensures
            r is Ok <==> (self.elements@.len() > 0 && !self.has_contradiction()
                && self.fully_collapsed()),
            r matches Err(m) ==> (m@ == rep_empty_error() || m@ == rep_contradiction_error()
                || m@ == rep_uncollapsed_error()),
            r matches Err(m) && m@ == rep_empty_error() <==> self.elements@.len() == 0,
            r matches Err(m) && m@ == rep_contradiction_error() <==> (self.elements@.len() > 0
                && self.has_contradiction()),
            r matches Err(m) && m@ == rep_uncollapsed_error() <==> (self.elements@.len() > 0
                && !self.has_contradiction() && !self.fully_collapsed()),
            r matches Ok(g) ==> {
                &&& g@.len() == self.chunk_fill_size.x * self.chunk_size.x
                &&& forall|i: int|
                    0 <= i < g@.len() ==> (#[trigger] g@[i])@.len() == self.chunk_fill_size.y
                        * self.chunk_size.y
                &&& forall|x: int, y: int|
                    0 <= x < g@.len() && 0 <= y < g@[x]@.len() ==> g@[x]@[y] == #[trigger] self.cell_value(x, y)
            },
    {
        proof {
            reveal_strlit("There are no superpositions to create a representation from");
            reveal_strlit(
                "A contradiction occurred preventing the formation of a perfect representation",
            );
            reveal_strlit("The superpositions aren't completely collapsed yet");
            assert(rep_empty_error().len() == 59);
            assert(rep_contradiction_error().len() == 77);
            assert(rep_uncollapsed_error().len() == 50);
        }
        if self.elements.len() == 0 {
            return Err("There are no superpositions to create a representation from".to_owned());
        }
        if self.has_contradiction_occurred() {
            return Err(
                "A contradiction occurred preventing the formation of a perfect representation".to_owned(),
            );
        }
        if !self.completely_collapsed() {
            return Err("The superpositions aren't completely collapsed yet".to_owned());
        }

        let size = self.true_size();
        let mut result: Vec<Vec<usize>> = Vec::new();

        for gx in 0..size.x
            invariant
                self.wf(),
                self.fully_collapsed(),
                size.x == self.chunk_fill_size.x * self.chunk_size.x,
                size.y == self.chunk_fill_size.y * self.chunk_size.y,
                result@.len() == gx,
                forall|i: int|
                    0 <= i < gx ==> (#[trigger] result@[i])@.len() == size.y,
                forall|x: int, y: int|
                    0 <= x < gx && 0 <= y < size.y ==> result@[x]@[y] == #[trigger] self.cell_value(
                        x,
                        y,
                    ),
        {
            let mut column: Vec<usize> = Vec::new();
            for gy in 0..size.y
                invariant
                    self.wf(),
                    self.fully_collapsed(),
                    gx < size.x,
                    size.x == self.chunk_fill_size.x * self.chunk_size.x,
                    size.y == self.chunk_fill_size.y * self.chunk_size.y,
                    column@.len() == gy,
                    forall|y: int|
                        0 <= y < gy ==> column@[y] == #[trigger] self.cell_value(gx as int, y),
            {
                proof {
                    lemma_cell_bounds(
                        gx as int,
                        gy as int,
                        self.chunk_size.x as int,
                        self.chunk_size.y as int,
                        self.chunk_fill_size.x as int,
                        self.chunk_fill_size.y as int,
                    );
                }
                let ex = gx / self.chunk_size.x;
                let ey = gy / self.chunk_size.y;
                proof {
                    assert(self.elements@.len() <= usize::MAX) by {
                        assert(self.elements.len() == self.elements@.len());
                    }
                }
                let idx = ex * self.chunk_fill_size.y + ey;
                proof {
                    assert(self.grid_element_ok(idx as int));
                    assert(self.elements@[idx as int].values@.len() == 1);
                    vstd::arithmetic::div_mod::lemma_mod_bound(
                        gx as int,
                        self.chunk_size.x as int,
                    );
                    vstd::arithmetic::div_mod::lemma_mod_bound(
                        gy as int,
                        self.chunk_size.y as int,
                    );
                }
                let element = &self.elements[idx];
                let id = element.values[0];
                let mx = gx % self.chunk_size.x;
                let my = gy % self.chunk_size.y;
                proof {
                    assert(element_wf(element.values@, self.patterns@.len()));
                    assert(patterns_view(self.patterns@)[id as int] == self.patterns@[id as int]@);
                    assert(patterns_view(self.patterns@)[id as int].contents.len()
                        == self.chunk_size.x);
                    assert(patterns_view(self.patterns@)[id as int].contents[mx as int]
                        == self.patterns@[id as int].contents@[mx as int]@);
                }
                let value = self.patterns[id].contents[mx][my];
                column.push(value);
            }
            result.push(column);
        }
        Ok(result)
    }

    /// Projects the element grid, collapsed or not, into a
    /// cell-granularity array of candidate values: per cell, the
    /// deduplicated sorted union of the values its element's candidates
    /// would put there. Useful for work-in-progress visualization.
    pub fn current_rep(&self) -> (rep: Vec<Vec<Vec<usize>>>)
        requires
            self.wf(),
        ensures
            self.elements@.len() == 0 ==> rep@.len() == 0,
            self.elements@.len() > 0 ==> {
                &&& rep@.len() == self.chunk_fill_size.x * self.chunk_size.x
                &&& forall|i: int|
                    0 <= i < rep@.len() ==> (#[trigger] rep@[i])@.len() == self.chunk_fill_size.y
                        * self.chunk_size.y
                &&& forall|x: int, y: int|
                    0 <= x < rep@.len() && 0 <= y < rep@[x]@.len() ==> (#[trigger] rep@[x]@[y])@
                        == crate::helpers::ids_dedup(
                        crate::helpers::ids_sort(self.cell_candidates(x, y)),
                    )
            },
    {
        let mut rep: Vec<Vec<Vec<usize>>> = Vec::new();
        if self.elements.len() == 0 {
            return rep;
        }

        let size = self.true_size();

        for gx in 0..size.x
            invariant
                self.wf(),
                self.elements@.len() > 0,
                size.x == self.chunk_fill_size.x * self.chunk_size.x,
                size.y == self.chunk_fill_size.y * self.chunk_size.y,
                rep@.len() == gx,
                forall|i: int|
                    0 <= i < gx ==> (#[trigger] rep@[i])@.len() == size.y,
                forall|x: int, y: int|
                    0 <= x < gx && 0 <= y < size.y ==> (#[trigger] rep@[x]@[y])@
                        == crate::helpers::ids_dedup(
                        crate::helpers::ids_sort(self.cell_candidates(x, y)),
                    ),
        {
            let mut column: Vec<Vec<usize>> = Vec::new();
            for gy in 0..size.y
                invariant
                    self.wf(),
                    self.elements@.len() > 0,
                    gx < size.x,
                    size.x == self.chunk_fill_size.x * self.chunk_size.x,
                    size.y == self.chunk_fill_size.y * self.chunk_size.y,
                    column@.len() == gy,
                    forall|y: int|
                        0 <= y < gy ==> (#[trigger] column@[y])@ == crate::helpers::ids_dedup(
                            crate::helpers::ids_sort(self.cell_candidates(gx as int, y)),
                        ),
            {
                proof {
                    lemma_cell_bounds(
                        gx as int,
                        gy as int,
                        self.chunk_size.x as int,
                        self.chunk_size.y as int,
                        self.chunk_fill_size.x as int,
                        self.chunk_fill_size.y as int,
                    );
                }
                let ex = gx / self.chunk_size.x;
                let ey = gy / self.chunk_size.y;
                proof {
                    assert(self.elements@.len() <= usize::MAX) by {
                        assert(self.elements.len() == self.elements@.len());
                    }
                }
                let idx = ex * self.chunk_fill_size.y + ey;
                proof {
                    assert(self.grid_element_ok(idx as int));
                    assert(self.element_index_at(gx as int, gy as int) == idx as int);
                    vstd::arithmetic::div_mod::lemma_mod_bound(
                        gx as int,
                        self.chunk_size.x as int,
                    );
                    vstd::arithmetic::div_mod::lemma_mod_bound(
                        gy as int,
                        self.chunk_size.y as int,
                    );
                }
                let element = &self.elements[idx];
                let mut cell: Vec<usize> = Vec::new();

                for k in 0..element.values.len()
                    invariant
                        self.wf(),
                        element == &self.elements@[idx as int],
                        idx < self.elements@.len(),
                        self.grid_element_ok(idx as int),
                        self.element_index_at(gx as int, gy as int) == idx as int,
                        self.cell_candidates(gx as int, gy as int).len() == element.values@.len(),
                        self.chunk_size.x > 0,
                        self.chunk_size.y > 0,
                        gx % self.chunk_size.x < self.chunk_size.x,
                        gy % self.chunk_size.y < self.chunk_size.y,
                        cell@.len() == k,
                        forall|n: int|
                            0 <= n < k ==> cell@[n] == self.cell_candidates(gx as int, gy as int)[n],
                {
                    let id = element.values[k];
                    let mx = gx % self.chunk_size.x;
                    let my = gy % self.chunk_size.y;
                    proof {
                        assert(element_wf(element.values@, self.patterns@.len()));
                        assert(patterns_view(self.patterns@)[id as int] == self.patterns@[id as int]@);
                        assert(patterns_view(self.patterns@)[id as int].contents.len()
                            == self.chunk_size.x);
                        assert(patterns_view(self.patterns@)[id as int].contents[mx as int]
                            == self.patterns@[id as int].contents@[mx as int]@);
                    }
                    let value = self.patterns[id].contents[mx][my];
                    cell.push(value);
                    proof {
                        assert(cell@[k as int] == self.cell_candidates(gx as int, gy as int)[
                            k as int
                        ]);
                    }
                }
                proof {
                    assert(cell@ =~= self.cell_candidates(gx as int, gy as int));
                }
                let sorted = crate::helpers::sort_ids(cell);
                let deduped = crate::helpers::dedup_ids(sorted);
                column.push(deduped);
            }
            rep.push(column);
        }
        rep
    }

    /// The same work-in-progress projection as `current_rep`, under the
    /// name the progress callback reports it by.
    pub fn current_state(&self) -> (rep: Vec<Vec<Vec<usize>>>)
        requires
            self.wf(),
        ensures
            self.elements@.len() == 0 ==> rep@.len() == 0,
            self.elements@.len() > 0 ==> {
                &&& rep@.len() == self.chunk_fill_size.x * self.chunk_size.x
                &&& forall|i: int|
                    0 <= i < rep@.len() ==> (#[trigger] rep@[i])@.len() == self.chunk_fill_size.y
                        * self.chunk_size.y
                &&& forall|x: int, y: int|
                    0 <= x < rep@.len() && 0 <= y < rep@[x]@.len() ==> (#[trigger] rep@[x]@[y])@
                        == crate::helpers::ids_dedup(
                        crate::helpers::ids_sort(self.cell_candidates(x, y)),
                    )
            },
    {
        self.current_rep()
    }

    /// The perfect projection where one exists, and the empty grid where
    /// the elements are missing, contradicted or not yet collapsed.
    pub fn finalize(&self) -> (g: Vec<Vec<usize>>)
        requires
            self.wf(),
        ensures
            !(self.elements@.len() > 0 && !self.has_contradiction() && self.fully_collapsed())
                ==> g@.len() == 0,
            self.elements@.len() > 0 && !self.has_contradiction() && self.fully_collapsed() ==> {
                &&& g@.len() == self.chunk_fill_size.x * self.chunk_size.x
                &&& forall|i: int|
                    0 <= i < g@.len() ==> (#[trigger] g@[i])@.len() == self.chunk_fill_size.y
                        * self.chunk_size.y
                &&& forall|x: int, y: int|
                    0 <= x < g@.len() && 0 <= y < g@[x]@.len() ==> g@[x]@[y]
                        == #[trigger] self.cell_value(x, y)
            },
    {
        match self.perfect_rep() {
            Ok(g) => g,
            Err(_) => Vec::new(),
        }
    }
}

/// The message `perfect_rep` fails with on an unfilled grid.
pub open spec fn rep_empty_error() -> Seq<char> {
    "There are no superpositions to create a representation from"@
}

/// The message `perfect_rep` fails with on a contradicted grid.
pub open spec fn rep_contradiction_error() -> Seq<char> {
    "A contradiction occurred preventing the formation of a perfect representation"@
}

/// The message `perfect_rep` fails with on a grid not yet fully collapsed.
pub open spec fn rep_uncollapsed_error() -> Seq<char> {
    "The superpositions aren't completely collapsed yet"@
}

/// Bounds for addressing the element grid from an output cell: with
/// `x < cfs_x * cw` and `y < cfs_y * ch`, the chunk coordinates lie inside
/// the element grid and the flat element index below its area.
proof fn lemma_cell_bounds(x: int, y: int, cw: int, ch: int, cfs_x: int, cfs_y: int)
    requires
        0 <= x < cfs_x * cw,
        0 <= y < cfs_y * ch,
        cfs_x >= 0,
        cfs_y >= 0,
    ensures
        cw > 0 && ch > 0,
        0 <= x / cw < cfs_x,
        0 <= y / ch < cfs_y,
        (x / cw) * cfs_y + y / ch < cfs_x * cfs_y,
        (x / cw) * cfs_y <= (x / cw) * cfs_y + y / ch,
{
    assert(cw > 0 && ch > 0) by (nonlinear_arith)
        requires
            0 <= x < cfs_x * cw,
            0 <= y < cfs_y * ch,
            cfs_x >= 0,
            cfs_y >= 0,
    ;
    vstd::arithmetic::div_mod::lemma_fundamental_div_mod(x, cw);
    vstd::arithmetic::div_mod::lemma_mod_bound(x, cw);
    vstd::arithmetic::div_mod::lemma_fundamental_div_mod(y, ch);
    vstd::arithmetic::div_mod::lemma_mod_bound(y, ch);
    assert(0 <= x / cw && 0 <= y / ch) by (nonlinear_arith)
        requires
            x == cw * (x / cw) + x % cw,
            y == ch * (y / ch) + y % ch,
            0 <= x % cw < cw,
            0 <= y % ch < ch,
            x >= 0,
            y >= 0,
            cw > 0,
            ch > 0,
    ;
    assert(x / cw < cfs_x && y / ch < cfs_y) by (nonlinear_arith)
        requires
            x == cw * (x / cw) + x % cw,
            y == ch * (y / ch) + y % ch,
            0 <= x % cw < cw,
            0 <= y % ch < ch,
            x < cfs_x * cw,
            y < cfs_y * ch,
            x / cw >= 0,
            y / ch >= 0,
            cw > 0,
            ch > 0,
    ;
    lemma_grid_index_bound(x / cw, y / ch, cfs_x, cfs_y);
}

/// The candidate list that a fresh fill hands every element: every catalog
/// index, in ascending order.
pub open spec fn full_candidates(n: int) -> Seq<usize> {
    Seq::new(n as nat, |i: int| i as usize)
}

/// The number of elements among the first `i_end` that hold exactly one
/// candidate.
pub open spec fn count_collapsed(els: Seq<Element>, i_end: int) -> nat
    decreases i_end,
{
    if i_end <= 0 {
        0
    } else {
        count_collapsed(els, i_end - 1) + if els[i_end - 1].values@.len() == 1 {
            1nat
        } else {
            0nat
        }
    }
}

/// The number of elements among the first `i_end` that are not collapsed:
/// they hold no candidate or more than one.
pub open spec fn count_uncollapsed(els: Seq<Element>, i_end: int) -> nat
    decreases i_end,
{
    if i_end <= 0 {
        0
    } else {
        count_uncollapsed(els, i_end - 1) + if els[i_end - 1].values@.len() != 1 {
            1nat
        } else {
            0nat
        }
    }
}

/// The message `fill` fails with when the width does not tile.
pub open spec fn fill_width_error() -> Seq<char> {
    "The output width must be a factor of the chunk size"@
}

/// The message `fill` fails with when the height does not tile.
pub open spec fn fill_height_error() -> Seq<char> {
    "The output height must be a factor of the chunk size"@
}

/// Builds the ascending list of every catalog index.
fn candidate_ids(n: usize) -> (r: Vec<usize>)
    ensures
        r@ == full_candidates(n as int),
        element_wf(r@, n as nat),
{
    let mut r: Vec<usize> = Vec::new();
    for i in 0..n
        invariant
            r@.len() == i,
            forall|k: int| 0 <= k < i ==> #[trigger] r@[k] == k as usize,
    {
        r.push(i);
    }
    proof {
        assert(r@ =~= full_candidates(n as int));
    }
    r
}

/// Within a `cfs_x` by `cfs_y` grid laid out column-major, the flat index
/// of cell `(x, y)` lies below the grid's area.
proof fn lemma_grid_index_bound(x: int, y: int, cfs_x: int, cfs_y: int)
    by (nonlinear_arith)
    requires
        0 <= x < cfs_x,
        0 <= y < cfs_y,
    ensures
        x * cfs_y + y < cfs_x * cfs_y,
        (x + 1) * cfs_y == x * cfs_y + cfs_y,
{
}

} // verus!
