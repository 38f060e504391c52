//! Analysis: builds the pattern catalog from a sample grid. Every
//! chunk-sized window becomes a pattern with one rule per in-bounds
//! neighbour; duplicates are counted, then merged; mirrored variants are
//! synthesized unless disabled; and deadweight patterns are pruned when
//! asked for.

use crate::Flags;
use crate::Wave;
use crate::collapse::has_flag;
use crate::helpers::BorderMode;
use crate::helpers::Vector2;
use crate::helpers::adjacency_matches;
use crate::helpers::copy_grid;
use crate::helpers::grid_height;
use crate::helpers::grid_view;
use crate::helpers::is_rectangular;
use crate::helpers::kept_roots;
use crate::helpers::kept_col_upto;
use crate::helpers::kept_roots_upto;
use crate::helpers::neighbour_origin;
use crate::helpers::overlapping_adjacencies;
use crate::helpers::subgrid;
use crate::helpers::window_in_bounds;
use crate::patterns::Pattern;
use crate::patterns::PatternV;
use crate::patterns::Rule;
use crate::patterns::RuleV;
use crate::patterns::count_patterns;
use crate::patterns::counted_pattern;
use crate::patterns::dedup_patterns;
use crate::patterns::dedup_patterns_spec;
use crate::patterns::lemma_dedup_patterns_spec_all;
use crate::patterns::lemma_matches_upto_bound;
use crate::patterns::patterns_view;
use crate::patterns::prune_lone_patterns;
use crate::patterns::prune_spec;
use crate::patterns::prune_upto;
use crate::patterns::rules_view;
use crate::transform::mirror_pattern_x;
use crate::transform::mirror_pattern_xy;
use crate::transform::mirror_pattern_y;
use crate::transform::mirror_x_pattern;
use crate::transform::mirror_xy_pattern;
use crate::transform::mirror_y_pattern;
use vstd::prelude::*;

verus! {

/// The rule the root at `(x, y)` gains from direction `i`, when the
/// neighbouring window lies in bounds.
pub open spec fn rule_for(
    g: Seq<Seq<usize>>,
    cw: int,
    ch: int,
    x: int,
    y: int,
    i: int,
) -> Seq<RuleV> {
    let (ox, oy) = neighbour_origin(x, y, cw, ch, i);
    if window_in_bounds(g.len() as int, grid_height(g) as int, cw, ch, ox, oy) {
        seq![
            RuleV { direction: i as u8, content: subgrid(g, ox, oy, cw as nat, ch as nat) },
        ]
    } else {
        Seq::empty()
    }
}

/// The rules of the root at `(x, y)` from the directions below `d_end`.
pub open spec fn rules_of_root_upto(
    g: Seq<Seq<usize>>,
    cw: int,
    ch: int,
    x: int,
    y: int,
    d_end: int,
) -> Seq<RuleV>
    decreases d_end,
{
    if d_end <= 0 {
        Seq::empty()
    } else {
        rules_of_root_upto(g, cw, ch, x, y, d_end - 1) + rule_for(g, cw, ch, x, y, d_end - 1)
    }
}

/// The pattern a kept root contributes before counting and merging.
pub open spec fn base_pattern(
    g: Seq<Seq<usize>>,
    cw: int,
    ch: int,
    root: (int, int),
    id: int,
) -> PatternV {
    PatternV {
        id: id as usize,
        is_transform: false,
        count: 1,
        contents: subgrid(g, root.0, root.1, cw as nat, ch as nat),
        rules: rules_of_root_upto(g, cw, ch, root.0, root.1, 4),
    }
}

/// The windows the analysis draws patterns from: none for a degenerate
/// chunk size, else the kept roots of the extraction.
pub open spec fn source_windows(g: Seq<Seq<usize>>, chunk: Vector2, mode: BorderMode) -> Seq<
    (int, int),
> {
    if chunk.x < 1 || chunk.y < 1 {
        Seq::empty()
    } else {
        kept_roots(g, chunk, mode)
    }
}

/// One pattern per source window, with ids following the window order.
pub open spec fn base_patterns(g: Seq<Seq<usize>>, chunk: Vector2, mode: BorderMode) -> Seq<
    PatternV,
> {
    Seq::new(
        source_windows(g, chunk, mode).len(),
        |i: int|
            base_pattern(
                g,
                chunk.x as int,
                chunk.y as int,
                source_windows(g, chunk, mode)[i],
                i,
            ),
    )
}

/// The three mirrored variants of each of the first `j_end` patterns,
/// with fresh ids counting on from `base_id`.
pub open spec fn transforms_upto(s: Seq<PatternV>, base_id: int, j_end: int) -> Seq<PatternV>
    decreases j_end,
{
    if j_end <= 0 {
        Seq::empty()
    } else {
        transforms_upto(s, base_id, j_end - 1) + seq![
            mirror_x_pattern(s[j_end - 1], (base_id + 3 * (j_end - 1)) as usize),
            mirror_y_pattern(s[j_end - 1], (base_id + 3 * (j_end - 1) + 1) as usize),
            mirror_xy_pattern(s[j_end - 1], (base_id + 3 * (j_end - 1) + 2) as usize),
        ]
    }
}

/// What a full analysis leaves in the catalog.
pub open spec fn analyze_spec(
    g: Seq<Seq<usize>>,
    chunk: Vector2,
    mode: BorderMode,
    no_transforms: bool,
    prune: bool,
) -> Seq<PatternV> {
    let base = base_patterns(g, chunk, mode);
    let counted = Seq::new(base.len(), |i: int| counted_pattern(base, i));
    let dd = dedup_patterns_spec(counted);
    let all = if no_transforms {
        dd
    } else {
        dd + transforms_upto(dd, base.len() as int, dd.len() as int)
    };
    let dd2 = dedup_patterns_spec(all);
    if prune {
        prune_spec(dd2)
    } else {
        dd2
    }
}

proof fn lemma_kept_col_bound(
    mode: BorderMode,
    w: int,
    h: int,
    cw: int,
    ch: int,
    x: int,
    y_end: int,
)
    ensures
        y_end >= 0 ==> kept_col_upto(mode, w, h, cw, ch, x, y_end).len() <= y_end,
    decreases y_end,
{
    if y_end > 0 {
        lemma_kept_col_bound(mode, w, h, cw, ch, x, y_end - 1);
    }
}

proof fn lemma_kept_roots_bound(
    mode: BorderMode,
    w: int,
    h: int,
    cw: int,
    ch: int,
    ry: int,
    x_end: int,
)
    requires
        ry >= 0,
    ensures
        x_end >= 0 ==> kept_roots_upto(mode, w, h, cw, ch, ry, x_end).len() <= x_end * ry,
    decreases x_end,
{
    if x_end > 0 {
        lemma_kept_roots_bound(mode, w, h, cw, ch, ry, x_end - 1);
        lemma_kept_col_bound(mode, w, h, cw, ch, x_end - 1, ry);
        assert((x_end - 1) * ry + ry == x_end * ry) by (nonlinear_arith);
    }
}

/// All mirrored variants keep any property the originals share that is
/// itself closed under the three mirrors.
proof fn lemma_transforms_all(
    s: Seq<PatternV>,
    base_id: int,
    j_end: int,
    p: spec_fn(PatternV) -> bool,
)
    requires
        j_end <= s.len(),
        forall|i: int| 0 <= i < s.len() ==> p(#[trigger] s[i]),
        forall|q: PatternV, id: usize| p(q) ==> #[trigger] p(mirror_x_pattern(q, id)),
        forall|q: PatternV, id: usize| p(q) ==> #[trigger] p(mirror_y_pattern(q, id)),
        forall|q: PatternV, id: usize| p(q) ==> #[trigger] p(mirror_xy_pattern(q, id)),
    ensures
        transforms_upto(s, base_id, j_end).len() == 3 * j_end || j_end < 0,
        forall|i: int|
            0 <= i < transforms_upto(s, base_id, j_end).len() ==> p(
                #[trigger] transforms_upto(s, base_id, j_end)[i],
            ),
    decreases j_end,
{
    if j_end > 0 {
        lemma_transforms_all(s, base_id, j_end - 1, p);
    }
}

proof fn lemma_prune_all(s: Seq<PatternV>, i_end: int, p: spec_fn(PatternV) -> bool)
    requires
        i_end <= s.len(),
        forall|i: int| 0 <= i < s.len() ==> p(#[trigger] s[i]),
    ensures
        i_end >= 0 ==> prune_upto(s, i_end).len() <= i_end,
        forall|i: int| 0 <= i < prune_upto(s, i_end).len() ==> p(#[trigger] prune_upto(s, i_end)[i]),
    decreases i_end,
{
    if i_end > 0 {
        lemma_prune_all(s, i_end - 1, p);
    }
}

impl Wave {
    /// Builds the pattern catalog from the sample: extracts every
    /// chunk-sized window with its in-bounds neighbours, counts natural
    /// frequencies before deduplicating, merges duplicate patterns' rule
    /// sets, adds the mirrored variants unless `NoTransforms` is set,
    /// deduplicates again, and prunes deadweight patterns when
    /// `PruneDeadweight` is set. The element grid is cleared: a new fill
    /// is needed before collapsing. Please note, the flags must be set at
    /// this point for them to be registered.
    #[verifier::rlimit(100)]
    pub fn analyze(&mut self, input: Vec<Vec<usize>>, chunk_size: Vector2, border_mode: BorderMode)
        requires
            is_rectangular(grid_view(input)),
            chunk_size.x >= 1 && chunk_size.y >= 1 ==> input@.len() >= 1 && grid_height(
                grid_view(input),
            ) >= 1,
            input@.len() * grid_height(grid_view(input)) <= usize::MAX as int / 4,
        ensures
            final(self).wf(),
            patterns_view(final(self).patterns@) == analyze_spec(
                grid_view(input),
                chunk_size,
                border_mode,
                old(self).flags@.contains(Flags::NoTransforms),
                old(self).flags@.contains(Flags::PruneDeadweight),
            ),
            final(self).patterns_total == source_windows(
                grid_view(input),
                chunk_size,
                border_mode,
            ).len(),
            final(self).chunk_size == chunk_size,
            final(self).flags == old(self).flags,
            final(self).elements@.len() == 0,
            final(self).chunk_fill_size == (Vector2 { x: 0, y: 0 }),
            final(self).history@.len() == 0,
            final(self).iterations == 0,
    {
        let ghost g = grid_view(input);
        let ghost windows = source_windows(g, chunk_size, border_mode);
        let ghost base = base_patterns(g, chunk_size, border_mode);

        let adjacencies = overlapping_adjacencies(input, chunk_size, border_mode);
        let initial_count = adjacencies.len();
        proof {
            assert(initial_count == windows.len());
            if chunk_size.x >= 1 && chunk_size.y >= 1 {
                let w = g.len() as int;
                let h = grid_height(g) as int;
                let cw = chunk_size.x as int;
                let ch = chunk_size.y as int;
                let rx: int = if w >= cw {
                    w - cw + 1
                } else {
                    0
                };
                let ry: int = if h >= ch {
                    h - ch + 1
                } else {
                    0
                };
                lemma_kept_roots_bound(border_mode, w, h, cw, ch, ry, rx);
                assert(rx * ry <= w * h) by (nonlinear_arith)
                    requires
                        0 <= rx <= w,
                        0 <= ry <= h,
                ;
            }
            assert(windows.len() <= usize::MAX as int / 4);
        }

        let mut patterns: Vec<Pattern> = Vec::new();
        let mut id_counter: usize = 0;

        for a_i in 0..adjacencies.len()
            invariant
                g == grid_view(input),
                windows == source_windows(g, chunk_size, border_mode),
                base == base_patterns(g, chunk_size, border_mode),
                adjacencies@.len() == windows.len(),
                windows.len() <= usize::MAX as int / 4,
                forall|k: int|
                    0 <= k < windows.len() ==> adjacency_matches(
                        #[trigger] adjacencies@[k],
                        g,
                        chunk_size.x as int,
                        chunk_size.y as int,
                        windows[k].0,
                        windows[k].1,
                    ),
                id_counter == a_i,
                patterns@.len() == a_i,
                forall|k: int|
                    0 <= k < a_i ==> patterns_view(patterns@)[k] == base[k],
        {
            let ghost (x, y) = windows[a_i as int];
            let ghost cw = chunk_size.x as int;
            let ghost ch = chunk_size.y as int;
            proof {
                assert(adjacency_matches(adjacencies@[a_i as int], g, cw, ch, x, y));
            }
            let adjacency = &adjacencies[a_i];
            let contents = copy_grid(&adjacency.origin_content);
            let mut rules: Vec<Rule> = Vec::new();

            for d in 0..4usize
                invariant
                    g == grid_view(input),
                    cw == chunk_size.x as int,
                    ch == chunk_size.y as int,
                    a_i < adjacencies@.len(),
                    adjacency == &adjacencies@[a_i as int],
                    adjacency_matches(adjacencies@[a_i as int], g, cw, ch, x, y),
                    rules_view(rules@) == rules_of_root_upto(g, cw, ch, x, y, d as int),
            {
                proof {
                    assert(adjacencies@[a_i as int].neighbours_content@.len() == 4);
                }
                match &adjacency.neighbours_content[d] {
                    Some(neighbour) => {
                        let rule = Rule::new(d as u8, copy_grid(neighbour));
                        rules.push(rule);
                        proof {
                            assert(rules_view(rules@) =~= rules_of_root_upto(
                                g,
                                cw,
                                ch,
                                x,
                                y,
                                d + 1,
                            ));
                        }
                    },
                    None => {
                        proof {
                            assert(rules_view(rules@) =~= rules_of_root_upto(
                                g,
                                cw,
                                ch,
                                x,
                                y,
                                d + 1,
                            ));
                        }
                    },
                }
            }

            let pattern = Pattern {
                id: id_counter,
                is_transform: false,
                count: 1,
                contents,
                rules,
            };
            patterns.push(pattern);
            id_counter = id_counter + 1;
            proof {
                assert(patterns_view(patterns@)[a_i as int] == patterns@[a_i as int]@);
                assert(patterns@[a_i as int]@ == base[a_i as int]);
            }
        }
        proof {
            assert(patterns_view(patterns@) =~= base);
        }

        let ghost counted = Seq::new(base.len(), |i: int| counted_pattern(base, i));
        proof {
            assert forall|n: int|
                0 <= n < patterns@.len() implies (#[trigger] patterns@[n]).count + patterns@.len()
                <= usize::MAX by {
                assert(patterns_view(patterns@)[n] == patterns@[n]@);
            }
        }
        count_patterns(&mut patterns);
        proof {
            assert(patterns_view(patterns@) =~= counted);
        }

        let ghost dd = dedup_patterns_spec(counted);
        dedup_patterns(&mut patterns);

        proof {
            lemma_dedup_patterns_spec_all(counted, |q: PatternV| true);
            assert(patterns@.len() == dd.len());
            assert(dd.len() <= counted.len());
        }

        let no_transforms = has_flag(&self.flags, Flags::NoTransforms);
        if !no_transforms {
            let mut new_patterns: Vec<Pattern> = Vec::new();
            let dd_len = patterns.len();

            for j in 0..dd_len
                invariant
                    patterns_view(patterns@) == dd,
                    dd_len == dd.len(),
                    dd.len() <= windows.len(),
                    windows.len() <= usize::MAX as int / 4,
                    initial_count == windows.len(),
                    id_counter == initial_count + 3 * j,
                    new_patterns@.len() == 3 * j,
                    patterns_view(new_patterns@) == transforms_upto(
                        dd,
                        initial_count as int,
                        j as int,
                    ),
            {
                proof {
                    vstd::arithmetic::div_mod::lemma_fundamental_div_mod(usize::MAX as int, 4);
                    vstd::arithmetic::div_mod::lemma_mod_bound(usize::MAX as int, 4);
                    assert(4 * (usize::MAX as int / 4) <= usize::MAX as int);
                    assert(id_counter + 3 <= usize::MAX);
                    assert(patterns_view(patterns@)[j as int] == patterns@[j as int]@);
                }
                let mirrored_x = mirror_pattern_x(&patterns[j], id_counter);
                let mirrored_y = mirror_pattern_y(&patterns[j], id_counter + 1);
                let combination = mirror_pattern_xy(&patterns[j], id_counter + 2);
                new_patterns.push(mirrored_x);
                new_patterns.push(mirrored_y);
                new_patterns.push(combination);
                id_counter = id_counter + 3;
                proof {
                    assert(patterns_view(new_patterns@) =~= transforms_upto(
                        dd,
                        initial_count as int,
                        j + 1,
                    ));
                }
            }

            patterns.append(&mut new_patterns);
            proof {
                assert(patterns_view(patterns@) =~= dd + transforms_upto(
                    dd,
                    initial_count as int,
                    dd.len() as int,
                ));
            }
        }

        let ghost all = if old(self).flags@.contains(Flags::NoTransforms) {
            dd
        } else {
            dd + transforms_upto(dd, initial_count as int, dd.len() as int)
        };
        proof {
            assert(patterns_view(patterns@) == all);
        }

        dedup_patterns(&mut patterns);
        let ghost dd2 = dedup_patterns_spec(all);

        self.patterns = patterns;
        self.patterns_total = initial_count;
        self.chunk_size = chunk_size;
        self.elements = Vec::new();
        self.chunk_fill_size = Vector2::new(0, 0);
        self.history = Vec::new();
        self.iterations = 0;

        let prune = has_flag(&self.flags, Flags::PruneDeadweight);
        if prune {
            prune_lone_patterns(&mut self.patterns);
        }

        proof {
            let p_cat = |q: PatternV|
                {
                    &&& q.count >= 1
                    &&& q.contents.len() == chunk_size.x
                    &&& forall|j: int|
                        0 <= j < q.contents.len() ==> (#[trigger] q.contents[j]).len()
                            == chunk_size.y
                };
            assert forall|i: int| 0 <= i < base.len() implies p_cat(#[trigger] base[i]) by {
                assert(base[i].contents.len() == chunk_size.x);
            }
            assert forall|i: int| 0 <= i < counted.len() implies p_cat(#[trigger] counted[i]) by {
                lemma_matches_upto_bound(base, i, base.len() as int);
                assert(base[i].count + base.len() <= usize::MAX);
                assert(counted[i].contents == base[i].contents);
            }
            lemma_dedup_patterns_spec_all(counted, p_cat);
            assert forall|q: PatternV, id: usize| p_cat(q) implies #[trigger] p_cat(
                mirror_x_pattern(q, id),
            ) by {
                assert(mirror_x_pattern(q, id).contents.len() == q.contents.len());
                assert forall|j: int|
                    0 <= j < mirror_x_pattern(q, id).contents.len() implies (
                #[trigger] mirror_x_pattern(q, id).contents[j]).len() == chunk_size.y by {
                    assert(mirror_x_pattern(q, id).contents[j] == q.contents[q.contents.len() - 1
                        - j]);
                }
            }
            assert forall|q: PatternV, id: usize| p_cat(q) implies #[trigger] p_cat(
                mirror_y_pattern(q, id),
            ) by {
                assert forall|j: int|
                    0 <= j < mirror_y_pattern(q, id).contents.len() implies (
                #[trigger] mirror_y_pattern(q, id).contents[j]).len() == chunk_size.y by {
                    assert(mirror_y_pattern(q, id).contents[j] == q.contents[j].reverse());
                }
            }
            assert forall|q: PatternV, id: usize| p_cat(q) implies #[trigger] p_cat(
                mirror_xy_pattern(q, id),
            ) by {
                assert forall|j: int|
                    0 <= j < mirror_xy_pattern(q, id).contents.len() implies (
                #[trigger] mirror_xy_pattern(q, id).contents[j]).len() == chunk_size.y by {
                    assert(mirror_xy_pattern(q, id).contents[j] == crate::transform::x_grid(
                        q.contents,
                    )[j].reverse());
                    assert(crate::transform::x_grid(q.contents)[j] == q.contents[q.contents.len()
                        - 1 - j]);
                }
            }
            lemma_transforms_all(dd, initial_count as int, dd.len() as int, p_cat);
            assert forall|i: int| 0 <= i < all.len() implies p_cat(#[trigger] all[i]) by {
                if i >= dd.len() {
                    assert(all[i] == transforms_upto(dd, initial_count as int, dd.len() as int)[i
                        - dd.len()]);
                }
            }
            lemma_dedup_patterns_spec_all(all, p_cat);
            lemma_prune_all(dd2, dd2.len() as int, p_cat);

            assert forall|i: int|
                0 <= i < self.patterns@.len() implies {
                let q = #[trigger] patterns_view(self.patterns@)[i];
                &&& q.count >= 1
                &&& q.contents.len() == self.chunk_size.x
                &&& forall|j: int|
                    0 <= j < q.contents.len() ==> (#[trigger] q.contents[j]).len()
                        == self.chunk_size.y
            } by {
                assert(p_cat(patterns_view(self.patterns@)[i]));
            }
            assert(self.catalog_wf());
            assert(self.elements@.len() == 0);
            assert(self.chunk_fill_size.x * self.chunk_fill_size.y == 0) by (nonlinear_arith)
                requires
                    self.chunk_fill_size.x == 0,
            ;
            assert(self.chunk_fill_size.x * self.chunk_size.x == 0) by (nonlinear_arith)
                requires
                    self.chunk_fill_size.x == 0,
            ;
            assert(self.chunk_fill_size.y * self.chunk_size.y == 0) by (nonlinear_arith)
                requires
                    self.chunk_fill_size.y == 0,
            ;
            assert(self.grid_wf());
            assert(self.history_wf());
        }
    }
}

} // verus!
