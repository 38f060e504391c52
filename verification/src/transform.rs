//! The symmetry transforms: mirroring pattern contents and rules
//! horizontally, vertically, or on both axes. Mirroring a rule couples a
//! content mirror with a direction swap, so that the mirrored rule is
//! antisymmetric to the original.

use crate::helpers::grid_view;
use crate::patterns::Pattern;
use crate::patterns::PatternV;
use crate::patterns::Rule;
use crate::patterns::RuleV;
use crate::patterns::rules_view;
use vstd::prelude::*;

verus! {

/// The direction swap of the horizontal mirror: right and left trade
/// places, up and down stay.
pub open spec fn x_direction(d: u8) -> u8 {
    if d == 1 {
        3
    } else if d == 3 {
        1
    } else {
        d
    }
}

/// The direction swap of the vertical mirror: up and down trade places.
pub open spec fn y_direction(d: u8) -> u8 {
    if d == 0 {
        2
    } else if d == 2 {
        0
    } else {
        d
    }
}

/// A rule mirrored horizontally: its neighbour content reversed column by
/// column, and its direction swapped right for left.
pub open spec fn x_rule(r: RuleV) -> RuleV {
    RuleV { direction: x_direction(r.direction), content: r.content.reverse() }
}

/// A rule mirrored vertically: each column of its neighbour content
/// reversed, and its direction swapped up for down.
pub open spec fn y_rule(r: RuleV) -> RuleV {
    RuleV {
        direction: y_direction(r.direction),
        content: r.content.map(|i: int, c: Seq<usize>| c.reverse()),
    }
}

/// A grid mirrored horizontally: the order of its columns reversed.
pub open spec fn x_grid(g: Seq<Seq<usize>>) -> Seq<Seq<usize>> {
    g.reverse()
}

/// A grid mirrored vertically: each of its columns reversed.
pub open spec fn y_grid(g: Seq<Seq<usize>>) -> Seq<Seq<usize>> {
    g.map(|i: int, c: Seq<usize>| c.reverse())
}

/// A pattern mirrored horizontally, marked as a transform, under a new id.
pub open spec fn mirror_x_pattern(p: PatternV, id: usize) -> PatternV {
    PatternV {
        id,
        is_transform: true,
        count: p.count,
        contents: x_grid(p.contents),
        rules: p.rules.map(|i: int, r: RuleV| x_rule(r)),
    }
}

/// A pattern mirrored vertically, marked as a transform, under a new id.
pub open spec fn mirror_y_pattern(p: PatternV, id: usize) -> PatternV {
    PatternV {
        id,
        is_transform: true,
        count: p.count,
        contents: y_grid(p.contents),
        rules: p.rules.map(|i: int, r: RuleV| y_rule(r)),
    }
}

/// A pattern mirrored on both axes, marked as a transform, under a new id.
pub open spec fn mirror_xy_pattern(p: PatternV, id: usize) -> PatternV {
    PatternV {
        id,
        is_transform: true,
        count: p.count,
        contents: y_grid(x_grid(p.contents)),
        rules: p.rules.map(|i: int, r: RuleV| y_rule(x_rule(r))),
    }
}

fn reverse_row(v: &Vec<usize>) -> (r: Vec<usize>)
    ensures
        r@ == v@.reverse(),
{
    let mut r: Vec<usize> = Vec::new();
    let len = v.len();
    for i in 0..len
        invariant
            len == v@.len(),
            r@.len() == i,
            forall|n: int| 0 <= n < i ==> r@[n] == v@[len - 1 - n],
    {
        r.push(v[len - 1 - i]);
    }
    proof {
        assert(r@ =~= v@.reverse());
    }
    r
}

fn reverse_grid(g: &Vec<Vec<usize>>) -> (r: Vec<Vec<usize>>)
    ensures
        grid_view(r) == x_grid(grid_view(*g)),
{
    let mut r: Vec<Vec<usize>> = Vec::new();
    let len = g.len();
    for i in 0..len
        invariant
            len == g@.len(),
            r@.len() == i,
            forall|n: int| 0 <= n < i ==> (#[trigger] r@[n])@ == grid_view(*g)[len - 1 - n],
    {
        let row = crate::helpers::copy_row(&g[len - 1 - i]);
        r.push(row);
        proof {
            assert(grid_view(*g)[len - 1 - i as int] == g@[len - 1 - i as int]@);
        }
    }
    proof {
        assert(grid_view(r) =~= x_grid(grid_view(*g)));
    }
    r
}

fn reverse_rows(g: &Vec<Vec<usize>>) -> (r: Vec<Vec<usize>>)
    ensures
        grid_view(r) == y_grid(grid_view(*g)),
{
    let mut r: Vec<Vec<usize>> = Vec::new();
    let len = g.len();
    for i in 0..len
        invariant
            len == g@.len(),
            r@.len() == i,
            forall|n: int| 0 <= n < i ==> (#[trigger] r@[n])@ == grid_view(*g)[n].reverse(),
    {
        let row = reverse_row(&g[i]);
        r.push(row);
        proof {
            assert(grid_view(*g)[i as int] == g@[i as int]@);
        }
    }
    proof {
        assert(grid_view(r) =~= y_grid(grid_view(*g)));
    }
    r
}

/// Mirrors a rule horizontally: the content is reversed column by column
/// and only the horizontal directions are swapped in place.
pub fn x_transform_rule(rule: &Rule) -> (r: Rule)
    ensures
        r@ == x_rule(rule@),
{
    let direction: u8 = if rule.direction == 1 {
        3
    } else if rule.direction == 3 {
        1
    } else {
        rule.direction
    };
    Rule { direction, content: reverse_grid(&rule.content) }
}

/// Mirrors a rule vertically: each column of the content is reversed and
/// the top and bottom directions are swapped.
pub fn y_transform_rule(rule: &Rule) -> (r: Rule)
    ensures
        r@ == y_rule(rule@),
{
    let direction: u8 = if rule.direction == 0 {
        2
    } else if rule.direction == 2 {
        0
    } else {
        rule.direction
    };
    Rule { direction, content: reverse_rows(&rule.content) }
}

fn map_rules_x(rules: &Vec<Rule>) -> (r: Vec<Rule>)
    ensures
        rules_view(r@) == rules_view(rules@).map(|i: int, x: RuleV| x_rule(x)),
{
    let mut r: Vec<Rule> = Vec::new();
    for k in 0..rules.len()
        invariant
            r@.len() == k,
            forall|n: int| 0 <= n < k ==> rules_view(r@)[n] == x_rule(rules_view(rules@)[n]),
    {
        let m = x_transform_rule(&rules[k]);
        let ghost pre = r@;
        r.push(m);
        proof {
            assert forall|n: int| 0 <= n < k + 1 implies rules_view(r@)[n] == x_rule(
                rules_view(rules@)[n],
            ) by {
                if n < k as int {
                    assert(rules_view(pre)[n] == pre[n]@);
                    assert(r@[n] == pre[n]);
                } else {
                    assert(r@[n] == m);
                }
                assert(rules_view(r@)[n] == r@[n]@);
                assert(rules_view(rules@)[n] == rules@[n]@);
            }
        }
    }
    proof {
        assert(rules_view(r@) =~= rules_view(rules@).map(|i: int, x: RuleV| x_rule(x)));
    }
    r
}

fn map_rules_y(rules: &Vec<Rule>) -> (r: Vec<Rule>)
    ensures
        rules_view(r@) == rules_view(rules@).map(|i: int, x: RuleV| y_rule(x)),
{
    let mut r: Vec<Rule> = Vec::new();
    for k in 0..rules.len()
        invariant
            r@.len() == k,
            forall|n: int| 0 <= n < k ==> rules_view(r@)[n] == y_rule(rules_view(rules@)[n]),
    {
        let m = y_transform_rule(&rules[k]);
        let ghost pre = r@;
        r.push(m);
        proof {
            assert forall|n: int| 0 <= n < k + 1 implies rules_view(r@)[n] == y_rule(
                rules_view(rules@)[n],
            ) by {
                if n < k as int {
                    assert(rules_view(pre)[n] == pre[n]@);
                    assert(r@[n] == pre[n]);
                } else {
                    assert(r@[n] == m);
                }
                assert(rules_view(r@)[n] == r@[n]@);
                assert(rules_view(rules@)[n] == rules@[n]@);
            }
        }
    }
    proof {
        assert(rules_view(r@) =~= rules_view(rules@).map(|i: int, x: RuleV| y_rule(x)));
    }
    r
}

/// The horizontally mirrored variant of a pattern, under a fresh id.
pub fn mirror_pattern_x(p: &Pattern, id: usize) -> (m: Pattern)
    ensures
        m@ == mirror_x_pattern(p@, id),
{
    Pattern {
        id,
        is_transform: true,
        count: p.count,
        contents: reverse_grid(&p.contents),
        rules: map_rules_x(&p.rules),
    }
}

/// The vertically mirrored variant of a pattern, under a fresh id.
pub fn mirror_pattern_y(p: &Pattern, id: usize) -> (m: Pattern)
    ensures
        m@ == mirror_y_pattern(p@, id),
{
    Pattern {
        id,
        is_transform: true,
        count: p.count,
        contents: reverse_rows(&p.contents),
        rules: map_rules_y(&p.rules),
    }
}

/// The variant of a pattern mirrored on both axes, under a fresh id.
pub fn mirror_pattern_xy(p: &Pattern, id: usize) -> (m: Pattern)
    ensures
        m@ == mirror_xy_pattern(p@, id),
{
    let contents = reverse_rows(&reverse_grid(&p.contents));
    let rules_x = map_rules_x(&p.rules);
    let rules = map_rules_y(&rules_x);
    proof {
        assert(rules_view(rules@) =~= p@.rules.map(|i: int, r: RuleV| y_rule(x_rule(r))));
    }
    Pattern { id, is_transform: true, count: p.count, contents, rules }
}

/// Mirroring a pattern horizontally twice returns the original contents,
/// and the coupled x-transform applied to a rule twice returns the original
/// rule — in particular its original direction.
pub proof fn lemma_mirror_x_round_trip(p: PatternV, id1: usize, id2: usize, r: RuleV)
    ensures
        mirror_x_pattern(mirror_x_pattern(p, id1), id2).contents == p.contents,
        x_direction(x_direction(r.direction)) == r.direction,
        x_rule(x_rule(r)) == r,
{
    assert(p.contents.reverse().reverse() =~= p.contents);
    assert(r.content.reverse().reverse() =~= r.content);
}

} // verus!
