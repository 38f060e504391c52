//! The pattern catalog: distinct chunk contents observed in the sample,
//! each with its directional adjacency rules and its occurrence count,
//! together with the counting, deduplication and ordering passes.

use crate::helpers::copy_grid;
use crate::helpers::grid_view;
use vstd::prelude::*;

verus! {

/// The mathematical value of a `Rule`.
pub ghost struct RuleV {
    pub direction: u8,
    pub content: Seq<Seq<usize>>,
}

/// A directional constraint: in direction `direction` (0 up, 1 right,
/// 2 down, 3 left), the neighbour content `content` is legal.
#[derive(Debug, Clone, PartialEq)]
pub struct Rule {
    pub direction: u8,
    /// The valid neighbour for the originating pattern of this rule.
    pub content: Vec<Vec<usize>>,
}

impl View for Rule {
    type V = RuleV;

    open spec fn view(&self) -> RuleV {
        RuleV { direction: self.direction, content: grid_view(self.content) }
    }
}

impl Rule {
    pub fn new(direction: u8, content: Vec<Vec<usize>>) -> (r: Rule)
        ensures
            r@ == (RuleV { direction, content: grid_view(content) }),
    {
        Rule { direction, content }
    }
}

/// The mathematical value of a `Pattern`.
pub ghost struct PatternV {
    pub id: usize,
    pub is_transform: bool,
    pub count: usize,
    pub contents: Seq<Seq<usize>>,
    pub rules: Seq<RuleV>,
}

/// A distinct chunk content observed in the sample (or derived from one by
/// mirroring), with its adjacency rules and its occurrence count.
#[derive(Debug, Clone, PartialEq)]
pub struct Pattern {
    pub id: usize,
    pub is_transform: bool,
    pub count: usize,
    pub contents: Vec<Vec<usize>>,
    pub rules: Vec<Rule>,
}

pub open spec fn rules_view(v: Seq<Rule>) -> Seq<RuleV> {
    v.map(|i: int, r: Rule| r@)
}

impl View for Pattern {
    type V = PatternV;

    open spec fn view(&self) -> PatternV {
        PatternV {
            id: self.id,
            is_transform: self.is_transform,
            count: self.count,
            contents: grid_view(self.contents),
            rules: rules_view(self.rules@),
        }
    }
}

pub open spec fn patterns_view(v: Seq<Pattern>) -> Seq<PatternV> {
    v.map(|i: int, p: Pattern| p@)
}

impl Pattern {
    pub fn new(id: usize, contents: Vec<Vec<usize>>) -> (p: Pattern)
        ensures
            p@ == (PatternV {
                id,
                is_transform: false,
                count: 1,
                contents: grid_view(contents),
                rules: Seq::empty(),
            }),
    {
        let p = Pattern { id, is_transform: false, count: 1, contents, rules: Vec::new() };
        proof {
            assert(rules_view(p.rules@) =~= Seq::<RuleV>::empty());
        }
        p
    }
}

/// Two patterns count as the same for deduplication when their contents,
/// rules and count agree; identity and provenance are ignored.
pub open spec fn pattern_like(a: PatternV, b: PatternV) -> bool {
    a.contents == b.contents && a.rules == b.rules && a.count == b.count
}

/// Compares two cell columns lexicographically: -1, 0 or 1.
pub open spec fn lex_cmp_row(a: Seq<usize>, b: Seq<usize>) -> int
    decreases a.len(),
{
    if a.len() == 0 && b.len() == 0 {
        0
    } else if a.len() == 0 {
        -1
    } else if b.len() == 0 {
        1
    } else if a[0] < b[0] {
        -1
    } else if a[0] > b[0] {
        1
    } else {
        lex_cmp_row(a.drop_first(), b.drop_first())
    }
}

/// Compares two grids lexicographically, column by column.
pub open spec fn lex_cmp_grid(a: Seq<Seq<usize>>, b: Seq<Seq<usize>>) -> int
    decreases a.len(),
{
    if a.len() == 0 && b.len() == 0 {
        0
    } else if a.len() == 0 {
        -1
    } else if b.len() == 0 {
        1
    } else if lex_cmp_row(a[0], b[0]) != 0 {
        lex_cmp_row(a[0], b[0])
    } else {
        lex_cmp_grid(a.drop_first(), b.drop_first())
    }
}

/// The order rules are sorted by: direction first, then content.
pub open spec fn rule_cmp(a: RuleV, b: RuleV) -> int {
    if a.direction < b.direction {
        -1
    } else if a.direction > b.direction {
        1
    } else {
        lex_cmp_grid(a.content, b.content)
    }
}

fn cmp_rows(a: &Vec<usize>, b: &Vec<usize>) -> (c: i8)
    ensures
        c as int == lex_cmp_row(a@, b@),
{
    let mut k: usize = 0;
    proof {
        assert(a@.skip(0) =~= a@);
        assert(b@.skip(0) =~= b@);
    }
    while k < a.len() && k < b.len()
        invariant
            k <= a@.len(),
            k <= b@.len(),
            lex_cmp_row(a@, b@) == lex_cmp_row(a@.skip(k as int), b@.skip(k as int)),
        decreases a@.len() - k,
    {
        let x = a[k];
        let y = b[k];
        if x < y {
            proof {
                assert(a@.skip(k as int)[0] == a@[k as int]);
                assert(b@.skip(k as int)[0] == b@[k as int]);
            }
            return -1;
        }
        if x > y {
            proof {
                assert(a@.skip(k as int)[0] == a@[k as int]);
                assert(b@.skip(k as int)[0] == b@[k as int]);
            }
            return 1;
        }
        proof {
            assert(a@.skip(k as int)[0] == a@[k as int]);
            assert(b@.skip(k as int)[0] == b@[k as int]);
            assert(a@.skip(k as int).drop_first() =~= a@.skip(k + 1));
            assert(b@.skip(k as int).drop_first() =~= b@.skip(k + 1));
        }
        k = k + 1;
    }
    if a.len() == b.len() {
        0
    } else if a.len() < b.len() {
        -1
    } else {
        1
    }
}

fn cmp_grids(a: &Vec<Vec<usize>>, b: &Vec<Vec<usize>>) -> (c: i8)
    ensures
        c as int == lex_cmp_grid(grid_view(*a), grid_view(*b)),
{
    let ghost ga = grid_view(*a);
    let ghost gb = grid_view(*b);
    let mut k: usize = 0;
    proof {
        assert(ga.skip(0) =~= ga);
        assert(gb.skip(0) =~= gb);
    }
    while k < a.len() && k < b.len()
        invariant
            ga == grid_view(*a),
            gb == grid_view(*b),
            k <= ga.len(),
            k <= gb.len(),
            lex_cmp_grid(ga, gb) == lex_cmp_grid(ga.skip(k as int), gb.skip(k as int)),
        decreases ga.len() - k,
    {
        proof {
            assert(ga.skip(k as int)[0] == ga[k as int] && ga[k as int] == a@[k as int]@);
            assert(gb.skip(k as int)[0] == gb[k as int] && gb[k as int] == b@[k as int]@);
        }
        let c = cmp_rows(&a[k], &b[k]);
        if c != 0 {
            return c;
        }
        proof {
            assert(ga.skip(k as int).drop_first() =~= ga.skip(k + 1));
            assert(gb.skip(k as int).drop_first() =~= gb.skip(k + 1));
        }
        k = k + 1;
    }
    if a.len() == b.len() {
        0
    } else if a.len() < b.len() {
        -1
    } else {
        1
    }
}

fn cmp_rules(a: &Rule, b: &Rule) -> (c: i8)
    ensures
        c as int == rule_cmp(a@, b@),
{
    if a.direction < b.direction {
        -1
    } else if a.direction > b.direction {
        1
    } else {
        cmp_grids(&a.content, &b.content)
    }
}

/// Compares two rule lists lexicographically, rule by rule.
pub open spec fn rules_cmp(a: Seq<RuleV>, b: Seq<RuleV>) -> int
    decreases a.len(),
{
    if a.len() == 0 && b.len() == 0 {
        0
    } else if a.len() == 0 {
        -1
    } else if b.len() == 0 {
        1
    } else if rule_cmp(a[0], b[0]) != 0 {
        rule_cmp(a[0], b[0])
    } else {
        rules_cmp(a.drop_first(), b.drop_first())
    }
}

/// The deduplication order of patterns: by contents, then rules, then
/// count.
pub open spec fn pattern_cmp(a: PatternV, b: PatternV) -> int {
    if lex_cmp_grid(a.contents, b.contents) != 0 {
        lex_cmp_grid(a.contents, b.contents)
    } else if rules_cmp(a.rules, b.rules) != 0 {
        rules_cmp(a.rules, b.rules)
    } else if a.count < b.count {
        -1
    } else if a.count > b.count {
        1
    } else {
        0
    }
}

fn cmp_rule_lists(a: &Vec<Rule>, b: &Vec<Rule>) -> (c: i8)
    ensures
        c as int == rules_cmp(rules_view(a@), rules_view(b@)),
{
    let ghost ra = rules_view(a@);
    let ghost rb = rules_view(b@);
    let mut k: usize = 0;
    proof {
        assert(ra.skip(0) =~= ra);
        assert(rb.skip(0) =~= rb);
    }
    while k < a.len() && k < b.len()
        invariant
            ra == rules_view(a@),
            rb == rules_view(b@),
            k <= ra.len(),
            k <= rb.len(),
            rules_cmp(ra, rb) == rules_cmp(ra.skip(k as int), rb.skip(k as int)),
        decreases ra.len() - k,
    {
        proof {
            assert(ra.skip(k as int)[0] == ra[k as int] && ra[k as int] == a@[k as int]@);
            assert(rb.skip(k as int)[0] == rb[k as int] && rb[k as int] == b@[k as int]@);
        }
        let c = cmp_rules(&a[k], &b[k]);
        if c != 0 {
            return c;
        }
        proof {
            assert(ra.skip(k as int).drop_first() =~= ra.skip(k + 1));
            assert(rb.skip(k as int).drop_first() =~= rb.skip(k + 1));
        }
        k = k + 1;
    }
    if a.len() == b.len() {
        0
    } else if a.len() < b.len() {
        -1
    } else {
        1
    }
}

fn cmp_patterns(a: &Pattern, b: &Pattern) -> (c: i8)
    ensures
        c as int == pattern_cmp(a@, b@),
{
    let c1 = cmp_grids(&a.contents, &b.contents);
    if c1 != 0 {
        return c1;
    }
    let c2 = cmp_rule_lists(&a.rules, &b.rules);
    if c2 != 0 {
        return c2;
    }
    if a.count < b.count {
        -1
    } else if a.count > b.count {
        1
    } else {
        0
    }
}

fn rows_equal(a: &Vec<usize>, b: &Vec<usize>) -> (r: bool)
    ensures
        r <==> a@ == b@,
{
    if a.len() != b.len() {
        return false;
    }
    for k in 0..a.len()
        invariant
            a@.len() == b@.len(),
            forall|n: int| 0 <= n < k ==> a@[n] == b@[n],
    {
        if a[k] != b[k] {
            return false;
        }
    }
    proof {
        assert(a@ =~= b@);
    }
    true
}

pub(crate) fn grids_equal(a: &Vec<Vec<usize>>, b: &Vec<Vec<usize>>) -> (r: bool)
    ensures
        r <==> grid_view(*a) == grid_view(*b),
{
    let ghost ga = grid_view(*a);
    let ghost gb = grid_view(*b);
    if a.len() != b.len() {
        assert(ga.len() != gb.len());
        return false;
    }
    for k in 0..a.len()
        invariant
            ga == grid_view(*a),
            gb == grid_view(*b),
            ga.len() == gb.len(),
            a@.len() == ga.len(),
            forall|n: int| 0 <= n < k ==> ga[n] == gb[n],
    {
        proof {
            assert(ga[k as int] == a@[k as int]@);
            assert(gb[k as int] == b@[k as int]@);
        }
        if !rows_equal(&a[k], &b[k]) {
            assert(ga[k as int] != gb[k as int]);
            return false;
        }
    }
    proof {
        assert(ga =~= gb);
    }
    true
}

fn rules_equal(a: &Rule, b: &Rule) -> (r: bool)
    ensures
        r <==> a@ == b@,
{
    let r = a.direction == b.direction && grids_equal(&a.content, &b.content);
    proof {
        if a@.direction == b@.direction && a@.content == b@.content {
            assert(a@ == b@);
        }
    }
    r
}

/// Whether `rules` already holds a rule with the same value.
pub open spec fn contains_rule(s: Seq<RuleV>, x: RuleV) -> bool {
    exists|k: int| 0 <= k < s.len() && s[k] == x
}

fn rule_in(rules: &Vec<Rule>, x: &Rule) -> (r: bool)
    ensures
        r <==> contains_rule(rules_view(rules@), x@),
{
    for k in 0..rules.len()
        invariant
            forall|n: int| 0 <= n < k ==> rules_view(rules@)[n] != x@,
    {
        proof {
            assert(rules_view(rules@)[k as int] == rules@[k as int]@);
        }
        if rules_equal(&rules[k], x) {
            return true;
        }
    }
    false
}

pub(crate) fn copy_rule(r: &Rule) -> (c: Rule)
    ensures
        c@ == r@,
{
    Rule { direction: r.direction, content: copy_grid(&r.content) }
}

pub(crate) fn copy_rules(v: &Vec<Rule>) -> (c: Vec<Rule>)
    ensures
        rules_view(c@) == rules_view(v@),
{
    let mut c: Vec<Rule> = Vec::new();
    for k in 0..v.len()
        invariant
            c@.len() == k,
            forall|n: int| 0 <= n < k ==> rules_view(c@)[n] == rules_view(v@)[n],
    {
        let r = copy_rule(&v[k]);
        c.push(r);
        proof {
            assert(rules_view(c@)[k as int] == c@[k as int]@);
            assert(rules_view(v@)[k as int] == v@[k as int]@);
        }
    }
    proof {
        assert(rules_view(c@) =~= rules_view(v@));
    }
    c
}

pub(crate) fn copy_pattern(p: &Pattern) -> (c: Pattern)
    ensures
        c@ == p@,
{
    Pattern {
        id: p.id,
        is_transform: p.is_transform,
        count: p.count,
        contents: copy_grid(&p.contents),
        rules: copy_rules(&p.rules),
    }
}

/// `x` placed before the first element of the sorted sequence `s` that
/// compares strictly greater: a stable insertion.
pub open spec fn rule_insert(s: Seq<RuleV>, x: RuleV) -> Seq<RuleV>
    decreases s.len(),
{
    if s.len() == 0 {
        seq![x]
    } else if rule_cmp(s[0], x) > 0 {
        seq![x] + s
    } else {
        seq![s[0]] + rule_insert(s.drop_first(), x)
    }
}

/// A stable insertion sort of rules, by direction and then content.
pub open spec fn rule_sort(s: Seq<RuleV>) -> Seq<RuleV>
    decreases s.len(),
{
    if s.len() == 0 {
        Seq::empty()
    } else {
        rule_insert(rule_sort(s.drop_last()), s.last())
    }
}

/// Removes every rule equal to the one kept just before it.
pub open spec fn rule_dedup(s: Seq<RuleV>) -> Seq<RuleV>
    decreases s.len(),
{
    if s.len() == 0 {
        Seq::empty()
    } else {
        let rest = rule_dedup(s.drop_last());
        if rest.len() > 0 && rest.last() == s.last() {
            rest
        } else {
            rest.push(s.last())
        }
    }
}

/// Inserting at the scan position the executable code finds is the stable
/// insertion the specification describes.
proof fn lemma_rule_insert_at(s: Seq<RuleV>, x: RuleV, idx: int)
    requires
        0 <= idx <= s.len(),
        forall|n: int| 0 <= n < idx ==> rule_cmp(#[trigger] s[n], x) <= 0,
        idx < s.len() ==> rule_cmp(s[idx], x) > 0,
    ensures
        rule_insert(s, x) == s.insert(idx, x),
    decreases s.len(),
{
    if s.len() == 0 {
        assert(rule_insert(s, x) =~= s.insert(0, x));
    } else if idx == 0 {
        assert(rule_insert(s, x) =~= s.insert(0, x));
    } else {
        lemma_rule_insert_at(s.drop_first(), x, idx - 1);
        assert(seq![s[0]] + s.drop_first().insert(idx - 1, x) =~= s.insert(idx, x));
    }
}

fn insert_rule_sorted(sorted: &mut Vec<Rule>, x: Rule)
    ensures
        rules_view(final(sorted)@) == rule_insert(rules_view(old(sorted)@), x@),
{
    let ghost sv = rules_view(sorted@);
    let mut i: usize = 0;
    while i < sorted.len() && cmp_rules(&sorted[i], &x) <= 0
        invariant
            sv == rules_view(sorted@),
            i <= sorted@.len(),
            forall|n: int| 0 <= n < i ==> rule_cmp(#[trigger] sv[n], x@) <= 0,
        decreases sorted@.len() - i,
    {
        proof {
            assert(sv[i as int] == sorted@[i as int]@);
        }
        i = i + 1;
    }
    proof {
        assert(i < sorted@.len() ==> rule_cmp(sv[i as int], x@) > 0);
        lemma_rule_insert_at(sv, x@, i as int);
    }
    sorted.insert(i, x);
    proof {
        assert(rules_view(sorted@) =~= sv.insert(i as int, x@));
    }
}

/// Sorts the rules, stably, by direction and then content.
fn sort_rules(rules: Vec<Rule>) -> (sorted: Vec<Rule>)
    ensures
        rules_view(sorted@) == rule_sort(rules_view(rules@)),
{
    let ghost orig = rules_view(rules@);
    let mut rest = rules;
    let total = rest.len();
    let mut sorted: Vec<Rule> = Vec::new();
    let mut k: usize = 0;
    proof {
        assert(orig.take(0) =~= Seq::<RuleV>::empty());
        assert(rules_view(rest@) =~= orig.skip(0));
    }
    while rest.len() > 0
        invariant
            orig.len() == total,
            k + rest@.len() == orig.len(),
            rules_view(rest@) == orig.skip(k as int),
            rules_view(sorted@) == rule_sort(orig.take(k as int)),
        decreases rest@.len(),
    {
        let ghost pre = rules_view(rest@);
        let r = rest.remove(0);
        proof {
            assert(pre[0] == r@);
            assert(rules_view(rest@) =~= pre.drop_first());
            assert(pre.drop_first() =~= orig.skip(k + 1));
            assert(orig.take(k + 1).drop_last() =~= orig.take(k as int));
            assert(orig.take(k + 1).last() == orig[k as int]);
            assert(orig[k as int] == pre[0]);
        }
        insert_rule_sorted(&mut sorted, r);
        k = k + 1;
    }
    proof {
        assert(orig.take(orig.len() as int) =~= orig);
    }
    sorted
}

/// Removes the rules equal to the one kept just before them.
fn dedup_rules(rules: Vec<Rule>) -> (deduped: Vec<Rule>)
    ensures
        rules_view(deduped@) == rule_dedup(rules_view(rules@)),
{
    let ghost orig = rules_view(rules@);
    let mut rest = rules;
    let total = rest.len();
    let mut deduped: Vec<Rule> = Vec::new();
    let mut k: usize = 0;
    proof {
        assert(orig.take(0) =~= Seq::<RuleV>::empty());
        assert(rules_view(rest@) =~= orig.skip(0));
        assert(rule_dedup(orig.take(0)) =~= Seq::<RuleV>::empty());
    }
    while rest.len() > 0
        invariant
            orig.len() == total,
            k + rest@.len() == orig.len(),
            rules_view(rest@) == orig.skip(k as int),
            rules_view(deduped@) == rule_dedup(orig.take(k as int)),
        decreases rest@.len(),
    {
        let ghost pre = rules_view(rest@);
        let r = rest.remove(0);
        proof {
            assert(pre[0] == r@);
            assert(rules_view(rest@) =~= pre.drop_first());
            assert(pre.drop_first() =~= orig.skip(k + 1));
            assert(orig.take(k + 1).drop_last() =~= orig.take(k as int));
            assert(orig.take(k + 1).last() == orig[k as int]);
            assert(orig[k as int] == pre[0]);
        }
        let keep = if deduped.len() == 0 {
            true
        } else {
            proof {
                assert(rules_view(deduped@).last() == deduped@[deduped@.len() - 1]@);
            }
            !rules_equal(&deduped[deduped.len() - 1], &r)
        };
        if keep {
            deduped.push(r);
            proof {
                assert(rules_view(deduped@) =~= rule_dedup(orig.take(k + 1)));
            }
        }
        k = k + 1;
    }
    proof {
        assert(orig.take(orig.len() as int) =~= orig);
    }
    deduped
}

/// `x` placed before the first pattern that compares strictly greater
/// under `(contents, rules, count)`: a stable insertion.
pub open spec fn pattern_insert(s: Seq<PatternV>, x: PatternV) -> Seq<PatternV>
    decreases s.len(),
{
    if s.len() == 0 {
        seq![x]
    } else if pattern_cmp(s[0], x) > 0 {
        seq![x] + s
    } else {
        seq![s[0]] + pattern_insert(s.drop_first(), x)
    }
}

/// A stable insertion sort of patterns, by `(contents, rules, count)`.
pub open spec fn pattern_sort(s: Seq<PatternV>) -> Seq<PatternV>
    decreases s.len(),
{
    if s.len() == 0 {
        Seq::empty()
    } else {
        pattern_insert(pattern_sort(s.drop_last()), s.last())
    }
}

/// Removes every pattern that is `pattern_like` the one kept just before it.
pub open spec fn pattern_dedup(s: Seq<PatternV>) -> Seq<PatternV>
    decreases s.len(),
{
    if s.len() == 0 {
        Seq::empty()
    } else {
        let rest = pattern_dedup(s.drop_last());
        if rest.len() > 0 && pattern_like(rest.last(), s.last()) {
            rest
        } else {
            rest.push(s.last())
        }
    }
}

proof fn lemma_pattern_insert_at(s: Seq<PatternV>, x: PatternV, idx: int)
    requires
        0 <= idx <= s.len(),
        forall|n: int| 0 <= n < idx ==> pattern_cmp(#[trigger] s[n], x) <= 0,
        idx < s.len() ==> pattern_cmp(s[idx], x) > 0,
    ensures
        pattern_insert(s, x) == s.insert(idx, x),
    decreases s.len(),
{
    if s.len() == 0 {
        assert(pattern_insert(s, x) =~= s.insert(0, x));
    } else if idx == 0 {
        assert(pattern_insert(s, x) =~= s.insert(0, x));
    } else {
        lemma_pattern_insert_at(s.drop_first(), x, idx - 1);
        assert(seq![s[0]] + s.drop_first().insert(idx - 1, x) =~= s.insert(idx, x));
    }
}

fn insert_pattern_sorted(sorted: &mut Vec<Pattern>, x: Pattern)
    ensures
        patterns_view(final(sorted)@) == pattern_insert(patterns_view(old(sorted)@), x@),
{
    let ghost sv = patterns_view(sorted@);
    let mut i: usize = 0;
    while i < sorted.len() && cmp_patterns(&sorted[i], &x) <= 0
        invariant
            sv == patterns_view(sorted@),
            i <= sorted@.len(),
            forall|n: int| 0 <= n < i ==> pattern_cmp(#[trigger] sv[n], x@) <= 0,
        decreases sorted@.len() - i,
    {
        proof {
            assert(sv[i as int] == sorted@[i as int]@);
        }
        i = i + 1;
    }
    proof {
        assert(i < sorted@.len() ==> sv[i as int] == sorted@[i as int]@);
        lemma_pattern_insert_at(sv, x@, i as int);
    }
    sorted.insert(i, x);
    proof {
        assert(patterns_view(sorted@) =~= sv.insert(i as int, x@));
    }
}

/// Sorts the patterns, stably, by their contents.
fn sort_patterns(patterns: Vec<Pattern>) -> (sorted: Vec<Pattern>)
    ensures
        patterns_view(sorted@) == pattern_sort(patterns_view(patterns@)),
{
    let ghost orig = patterns_view(patterns@);
    let mut rest = patterns;
    let total = rest.len();
    let mut sorted: Vec<Pattern> = Vec::new();
    let mut k: usize = 0;
    proof {
        assert(orig.take(0) =~= Seq::<PatternV>::empty());
        assert(patterns_view(rest@) =~= orig.skip(0));
    }
    while rest.len() > 0
        invariant
            orig.len() == total,
            k + rest@.len() == orig.len(),
            patterns_view(rest@) == orig.skip(k as int),
            patterns_view(sorted@) == pattern_sort(orig.take(k as int)),
        decreases rest@.len(),
    {
        let ghost pre = patterns_view(rest@);
        let r = rest.remove(0);
        proof {
            assert(pre[0] == r@);
            assert(patterns_view(rest@) =~= pre.drop_first());
            assert(pre.drop_first() =~= orig.skip(k + 1));
            assert(orig.take(k + 1).drop_last() =~= orig.take(k as int));
            assert(orig.take(k + 1).last() == orig[k as int]);
            assert(orig[k as int] == pre[0]);
        }
        insert_pattern_sorted(&mut sorted, r);
        k = k + 1;
    }
    proof {
        assert(orig.take(orig.len() as int) =~= orig);
    }
    sorted
}

fn patterns_like(a: &Pattern, b: &Pattern) -> (r: bool)
    ensures
        r <==> pattern_like(a@, b@),
{
    if !grids_equal(&a.contents, &b.contents) {
        return false;
    }
    if a.count != b.count {
        return false;
    }
    if a.rules.len() != b.rules.len() {
        proof {
            assert(rules_view(a.rules@).len() == a.rules@.len());
            assert(rules_view(b.rules@).len() == b.rules@.len());
        }
        return false;
    }
    for k in 0..a.rules.len()
        invariant
            rules_view(a.rules@).len() == rules_view(b.rules@).len(),
            forall|n: int| 0 <= n < k ==> rules_view(a.rules@)[n] == rules_view(b.rules@)[n],
    {
        proof {
            assert(rules_view(a.rules@)[k as int] == a.rules@[k as int]@);
            assert(rules_view(b.rules@)[k as int] == b.rules@[k as int]@);
        }
        if !rules_equal(&a.rules[k], &b.rules[k]) {
            return false;
        }
    }
    proof {
        assert(rules_view(a.rules@) =~= rules_view(b.rules@));
    }
    true
}

/// Removes the patterns `pattern_like` the one kept just before them.
fn dedup_adjacent_patterns(patterns: Vec<Pattern>) -> (deduped: Vec<Pattern>)
    ensures
        patterns_view(deduped@) == pattern_dedup(patterns_view(patterns@)),
{
    let ghost orig = patterns_view(patterns@);
    let mut rest = patterns;
    let total = rest.len();
    let mut deduped: Vec<Pattern> = Vec::new();
    let mut k: usize = 0;
    proof {
        assert(orig.take(0) =~= Seq::<PatternV>::empty());
        assert(patterns_view(rest@) =~= orig.skip(0));
        assert(pattern_dedup(orig.take(0)) =~= Seq::<PatternV>::empty());
    }
    while rest.len() > 0
        invariant
            orig.len() == total,
            k + rest@.len() == orig.len(),
            patterns_view(rest@) == orig.skip(k as int),
            patterns_view(deduped@) == pattern_dedup(orig.take(k as int)),
        decreases rest@.len(),
    {
        let ghost pre = patterns_view(rest@);
        let r = rest.remove(0);
        proof {
            assert(pre[0] == r@);
            assert(patterns_view(rest@) =~= pre.drop_first());
            assert(pre.drop_first() =~= orig.skip(k + 1));
            assert(orig.take(k + 1).drop_last() =~= orig.take(k as int));
            assert(orig.take(k + 1).last() == orig[k as int]);
            assert(orig[k as int] == pre[0]);
        }
        let keep = if deduped.len() == 0 {
            true
        } else {
            proof {
                assert(patterns_view(deduped@).last() == deduped@[deduped@.len() - 1]@);
            }
            !patterns_like(&deduped[deduped.len() - 1], &r)
        };
        if keep {
            deduped.push(r);
            proof {
                assert(patterns_view(deduped@) =~= pattern_dedup(orig.take(k + 1)));
            }
        }
        k = k + 1;
    }
    proof {
        assert(orig.take(orig.len() as int) =~= orig);
    }
    deduped
}

/// `acc` extended, in order, by the rules of `extra` it does not hold yet.
pub open spec fn append_missing(acc: Seq<RuleV>, extra: Seq<RuleV>) -> Seq<RuleV>
    decreases extra.len(),
{
    if extra.len() == 0 {
        acc
    } else if contains_rule(acc, extra[0]) {
        append_missing(acc, extra.drop_first())
    } else {
        append_missing(acc.push(extra[0]), extra.drop_first())
    }
}

proof fn lemma_append_missing_push(acc: Seq<RuleV>, extra: Seq<RuleV>, z: RuleV)
    ensures
        append_missing(acc, extra.push(z)) == {
            let r = append_missing(acc, extra);
            if contains_rule(r, z) {
                r
            } else {
                r.push(z)
            }
        },
    decreases extra.len(),
{
    if extra.len() == 0 {
        assert(extra.push(z)[0] == z);
        assert(extra.push(z).drop_first() =~= Seq::<RuleV>::empty());
        assert(append_missing(acc, Seq::<RuleV>::empty()) == acc);
        assert(append_missing(acc.push(z), Seq::<RuleV>::empty()) == acc.push(z));
        assert(append_missing(acc, extra) == acc);
    } else {
        assert(extra.push(z)[0] == extra[0]);
        assert(extra.push(z).drop_first() =~= extra.drop_first().push(z));
        if contains_rule(acc, extra[0]) {
            lemma_append_missing_push(acc, extra.drop_first(), z);
        } else {
            lemma_append_missing_push(acc.push(extra[0]), extra.drop_first(), z);
        }
    }
}

/// The rules of pattern `i` after every pattern among the first `j_end`
/// with the same contents but another id has contributed its missing rules.
pub open spec fn merge_rules_upto(s: Seq<PatternV>, i: int, j_end: int) -> Seq<RuleV>
    decreases j_end,
{
    if j_end <= 0 {
        s[i].rules
    } else {
        let prev = merge_rules_upto(s, i, j_end - 1);
        if s[j_end - 1].contents == s[i].contents && s[j_end - 1].id != s[i].id {
            append_missing(prev, s[j_end - 1].rules)
        } else {
            prev
        }
    }
}

/// Pattern `i` with its rules merged from every duplicate, then sorted
/// and deduplicated.
pub open spec fn merged_pattern(s: Seq<PatternV>, i: int) -> PatternV {
    PatternV {
        rules: rule_dedup(rule_sort(merge_rules_upto(s, i, s.len() as int))),
        ..s[i]
    }
}

/// What one pass of pattern deduplication yields: every pattern's rules
/// merged across duplicates, sorted and deduplicated, then the whole list
/// sorted by contents and stripped of adjacent duplicates.
pub open spec fn dedup_patterns_spec(s: Seq<PatternV>) -> Seq<PatternV> {
    pattern_dedup(pattern_sort(Seq::new(s.len(), |i: int| merged_pattern(s, i))))
}

/// For every pair of patterns with identical contents, merges their rule
/// sets into one another; then sorts and deduplicates each pattern's rules,
/// and finally sorts and deduplicates the full pattern list by
/// `(contents, rules, count)`.
pub fn dedup_patterns(patterns: &mut Vec<Pattern>)
    ensures
        patterns_view(final(patterns)@) == dedup_patterns_spec(patterns_view(old(patterns)@)),
{
    let ghost orig = patterns_view(old(patterns)@);
    let len = patterns.len();
    let mut merged: Vec<Pattern> = Vec::new();

    for i in 0..len
        invariant
            orig == patterns_view(patterns@),
            len == orig.len(),
            merged@.len() == i,
            forall|n: int| 0 <= n < i ==> patterns_view(merged@)[n] == merged_pattern(orig, n),
    {
        proof {
            assert(orig[i as int] == patterns@[i as int]@);
        }
        let mut acc: Vec<Rule> = copy_rules(&patterns[i].rules);

        for j in 0..len
            invariant
                orig == patterns_view(patterns@),
                len == orig.len(),
                i < len,
                orig[i as int] == patterns@[i as int]@,
                rules_view(acc@) == merge_rules_upto(orig, i as int, j as int),
        {
            proof {
                assert(orig[j as int] == patterns@[j as int]@);
            }
            if patterns[j].id != patterns[i].id && grids_equal(
                &patterns[j].contents,
                &patterns[i].contents,
            ) {
                let extra = &patterns[j].rules;
                let ghost ev = rules_view(extra@);
                let ghost acc0 = rules_view(acc@);
                proof {
                    assert(ev.take(0) =~= Seq::<RuleV>::empty());
                    assert(append_missing(acc0, ev.take(0)) == acc0);
                }
                for k in 0..extra.len()
                    invariant
                        ev == rules_view(extra@),
                        rules_view(acc@) == append_missing(acc0, ev.take(k as int)),
                {
                    proof {
                        assert(ev[k as int] == extra@[k as int]@);
                        assert(ev.take(k + 1) =~= ev.take(k as int).push(ev[k as int]));
                        lemma_append_missing_push(acc0, ev.take(k as int), ev[k as int]);
                    }
                    if !rule_in(&acc, &extra[k]) {
                        let r = copy_rule(&extra[k]);
                        acc.push(r);
                        proof {
                            assert(rules_view(acc@) =~= append_missing(acc0, ev.take(k as int)).push(ev[k as int]));
                        }
                    }
                }
                proof {
                    assert(ev.take(ev.len() as int) =~= ev);
                    assert(ev == orig[j as int].rules);
                }
            }
        }

        let cleaned = dedup_rules(sort_rules(acc));
        let base = &patterns[i];
        let p = Pattern {
            id: base.id,
            is_transform: base.is_transform,
            count: base.count,
            contents: copy_grid(&base.contents),
            rules: cleaned,
        };
        merged.push(p);
        proof {
            assert(patterns_view(merged@)[i as int] == merged@[i as int]@);
            assert(merged@[i as int]@ == merged_pattern(orig, i as int));
        }
    }

    proof {
        assert(patterns_view(merged@) =~= Seq::new(orig.len(), |n: int| merged_pattern(orig, n)));
    }
    let sorted = sort_patterns(merged);
    let deduped = dedup_adjacent_patterns(sorted);
    *patterns = deduped;
}

/// How many other non-transform patterns among the first `j_end` share the
/// contents of pattern `i` without sharing its id.
pub open spec fn matches_upto(s: Seq<PatternV>, i: int, j_end: int) -> nat
    decreases j_end,
{
    if j_end <= 0 {
        0
    } else {
        matches_upto(s, i, j_end - 1) + if !s[j_end - 1].is_transform && s[j_end - 1].contents
            == s[i].contents && s[j_end - 1].id != s[i].id {
            1nat
        } else {
            0nat
        }
    }
}

pub proof fn lemma_matches_upto_bound(s: Seq<PatternV>, i: int, j_end: int)
    requires
        j_end >= 0,
    ensures
        matches_upto(s, i, j_end) <= j_end,
    decreases j_end,
{
    if j_end > 0 {
        lemma_matches_upto_bound(s, i, j_end - 1);
    }
}

/// Pattern `i` with its count raised by its number of duplicates; transform
/// patterns are left alone, as they are not part of the original sample.
pub open spec fn counted_pattern(s: Seq<PatternV>, i: int) -> PatternV {
    if s[i].is_transform {
        s[i]
    } else {
        PatternV { count: (s[i].count + matches_upto(s, i, s.len() as int)) as usize, ..s[i] }
    }
}

/// Increments the count of each non-transform pattern once for every other
/// non-transform pattern with the same contents. Always count up patterns
/// before deduplicating them: deduplication collapses the very duplicates
/// being counted.
pub fn count_patterns(patterns: &mut Vec<Pattern>)
    requires
        forall|n: int|
            0 <= n < old(patterns)@.len() ==> (#[trigger] old(patterns)@[n]).count + old(
                patterns,
            )@.len() <= usize::MAX,
    ensures
        patterns_view(final(patterns)@).len() == patterns_view(old(patterns)@).len(),
        forall|n: int|
            0 <= n < old(patterns)@.len() ==> patterns_view(final(patterns)@)[n]
                == counted_pattern(patterns_view(old(patterns)@), n),
{
    let ghost orig = patterns_view(old(patterns)@);
    let len = patterns.len();
    let mut counted: Vec<Pattern> = Vec::new();

    for i in 0..len
        invariant
            orig == patterns_view(patterns@),
            len == orig.len(),
            forall|n: int|
                0 <= n < len ==> (#[trigger] patterns@[n]).count + len <= usize::MAX,
            counted@.len() == i,
            forall|n: int| 0 <= n < i ==> patterns_view(counted@)[n] == counted_pattern(orig, n),
    {
        proof {
            assert(orig[i as int] == patterns@[i as int]@);
        }
        let mut p = copy_pattern(&patterns[i]);
        if !p.is_transform {
            let mut extra: usize = 0;
            for j in 0..len
                invariant
                    orig == patterns_view(patterns@),
                    len == orig.len(),
                    i < len,
                    orig[i as int] == patterns@[i as int]@,
                    extra == matches_upto(orig, i as int, j as int),
                    extra <= j,
            {
                proof {
                    assert(orig[j as int] == patterns@[j as int]@);
                    lemma_matches_upto_bound(orig, i as int, j as int);
                }
                if !patterns[j].is_transform && patterns[j].id != patterns[i].id && grids_equal(
                    &patterns[j].contents,
                    &patterns[i].contents,
                ) {
                    extra = extra + 1;
                }
            }
            proof {
                assert(patterns@[i as int].count + len <= usize::MAX);
                assert(p@ == orig[i as int]);
            }
            p.count = p.count + extra;
        }
        counted.push(p);
        proof {
            assert(patterns_view(counted@)[i as int] == counted@[i as int]@);
            assert(counted@[i as int]@ == counted_pattern(orig, i as int));
        }
    }
    proof {
        assert(patterns_view(counted@) =~= patterns_view(counted@));
    }
    *patterns = counted;
}

/// A stable insertion adds one pattern and keeps any property the
/// inserted and present patterns share.
pub proof fn lemma_pattern_insert_all(s: Seq<PatternV>, x: PatternV, p: spec_fn(PatternV) -> bool)
    requires
        forall|i: int| 0 <= i < s.len() ==> p(#[trigger] s[i]),
        p(x),
    ensures
        pattern_insert(s, x).len() == s.len() + 1,
        forall|i: int| 0 <= i < pattern_insert(s, x).len() ==> p(#[trigger] pattern_insert(s, x)[i]),
    decreases s.len(),
{
    if s.len() == 0 {
    } else if pattern_cmp(s[0], x) > 0 {
    } else {
        assert(forall|i: int| 0 <= i < s.drop_first().len() ==> p(#[trigger] s.drop_first()[i]));
        lemma_pattern_insert_all(s.drop_first(), x, p);
        assert forall|i: int|
            0 <= i < pattern_insert(s, x).len() implies p(#[trigger] pattern_insert(s, x)[i]) by {
            if i > 0 {
                assert(pattern_insert(s, x)[i] == pattern_insert(s.drop_first(), x)[i - 1]);
            }
        }
    }
}

/// Sorting preserves the length and any property all patterns share.
pub proof fn lemma_pattern_sort_all(s: Seq<PatternV>, p: spec_fn(PatternV) -> bool)
    requires
        forall|i: int| 0 <= i < s.len() ==> p(#[trigger] s[i]),
    ensures
        pattern_sort(s).len() == s.len(),
        forall|i: int| 0 <= i < pattern_sort(s).len() ==> p(#[trigger] pattern_sort(s)[i]),
    decreases s.len(),
{
    if s.len() > 0 {
        assert(forall|i: int| 0 <= i < s.drop_last().len() ==> p(#[trigger] s.drop_last()[i]));
        lemma_pattern_sort_all(s.drop_last(), p);
        lemma_pattern_insert_all(pattern_sort(s.drop_last()), s.last(), p);
    }
}

/// Deduplication never grows the list and keeps any shared property.
pub proof fn lemma_pattern_dedup_all(s: Seq<PatternV>, p: spec_fn(PatternV) -> bool)
    requires
        forall|i: int| 0 <= i < s.len() ==> p(#[trigger] s[i]),
    ensures
        pattern_dedup(s).len() <= s.len(),
        forall|i: int| 0 <= i < pattern_dedup(s).len() ==> p(#[trigger] pattern_dedup(s)[i]),
    decreases s.len(),
{
    if s.len() > 0 {
        assert(forall|i: int| 0 <= i < s.drop_last().len() ==> p(#[trigger] s.drop_last()[i]));
        lemma_pattern_dedup_all(s.drop_last(), p);
    }
}

/// The full deduplication pass never grows the list, and keeps any
/// property that all patterns share and that does not depend on their
/// rules.
pub proof fn lemma_dedup_patterns_spec_all(s: Seq<PatternV>, p: spec_fn(PatternV) -> bool)
    requires
        forall|i: int| 0 <= i < s.len() ==> p(#[trigger] s[i]),
        forall|q: PatternV, rs: Seq<RuleV>| p(q) ==> #[trigger] p(PatternV { rules: rs, ..q }),
    ensures
        dedup_patterns_spec(s).len() <= s.len(),
        forall|i: int|
            0 <= i < dedup_patterns_spec(s).len() ==> p(#[trigger] dedup_patterns_spec(s)[i]),
{
    let merged = Seq::new(s.len(), |i: int| merged_pattern(s, i));
    assert forall|i: int| 0 <= i < merged.len() implies p(#[trigger] merged[i]) by {
        assert(p(s[i]));
        assert(merged[i] == (PatternV { rules: merged[i].rules, ..s[i] }));
    }
    lemma_pattern_sort_all(merged, p);
    lemma_pattern_dedup_all(pattern_sort(merged), p);
}

/// Appending rules that are all present already changes nothing.
proof fn lemma_append_missing_self(acc: Seq<RuleV>, extra: Seq<RuleV>)
    requires
        forall|k: int| 0 <= k < extra.len() ==> contains_rule(acc, #[trigger] extra[k]),
    ensures
        append_missing(acc, extra) == acc,
    decreases extra.len(),
{
    if extra.len() > 0 {
        assert(contains_rule(acc, extra[0]));
        assert(forall|k: int|
            0 <= k < extra.drop_first().len() ==> #[trigger] extra.drop_first()[k] == extra[k
                + 1]);
        lemma_append_missing_self(acc, extra.drop_first());
    }
}

/// Sorting an already pairwise-sorted rule list changes nothing.
proof fn lemma_rule_sort_of_sorted(s: Seq<RuleV>)
    requires
        forall|n: int, m: int|
            0 <= n <= m < s.len() ==> rule_cmp(#[trigger] s[n], #[trigger] s[m]) <= 0,
    ensures
        rule_sort(s) == s,
    decreases s.len(),
{
    if s.len() > 0 {
        let front = s.drop_last();
        assert(forall|n: int, m: int|
            0 <= n <= m < front.len() ==> rule_cmp(#[trigger] front[n], #[trigger] front[m])
                <= 0);
        lemma_rule_sort_of_sorted(front);
        assert(forall|n: int| 0 <= n < front.len() ==> rule_cmp(#[trigger] front[n], s.last())
            <= 0);
        lemma_rule_insert_at(front, s.last(), front.len() as int);
        assert(front.insert(front.len() as int, s.last()) =~= s);
    }
}

/// Deduplicating a rule list with no adjacent duplicates changes nothing.
proof fn lemma_rule_dedup_of_distinct(s: Seq<RuleV>)
    requires
        forall|n: int| 0 <= n < s.len() - 1 ==> #[trigger] s[n] != s[n + 1],
    ensures
        rule_dedup(s) == s,
    decreases s.len(),
{
    if s.len() > 0 {
        let front = s.drop_last();
        assert(forall|n: int| 0 <= n < front.len() - 1 ==> #[trigger] front[n] != front[n + 1]);
        lemma_rule_dedup_of_distinct(front);
        if front.len() > 0 {
            assert(front.last() == s[s.len() - 2]);
        }
        assert(front.push(s.last()) =~= s);
    }
}

/// Sorting an already pairwise-sorted catalog changes nothing.
proof fn lemma_pattern_sort_of_sorted(s: Seq<PatternV>)
    requires
        forall|n: int, m: int|
            0 <= n <= m < s.len() ==> pattern_cmp(#[trigger] s[n], #[trigger] s[m]) <= 0,
    ensures
        pattern_sort(s) == s,
    decreases s.len(),
{
    if s.len() > 0 {
        let front = s.drop_last();
        assert(forall|n: int, m: int|
            0 <= n <= m < front.len() ==> pattern_cmp(#[trigger] front[n], #[trigger] front[m])
                <= 0);
        lemma_pattern_sort_of_sorted(front);
        assert(forall|n: int|
            0 <= n < front.len() ==> pattern_cmp(#[trigger] front[n], s.last()) <= 0);
        lemma_pattern_insert_at(front, s.last(), front.len() as int);
        assert(front.insert(front.len() as int, s.last()) =~= s);
    }
}

/// Deduplicating a catalog with no adjacent duplicates changes nothing.
proof fn lemma_pattern_dedup_of_distinct(s: Seq<PatternV>)
    requires
        forall|n: int| 0 <= n < s.len() - 1 ==> !pattern_like(#[trigger] s[n], s[n + 1]),
    ensures
        pattern_dedup(s) == s,
    decreases s.len(),
{
    if s.len() > 0 {
        let front = s.drop_last();
        assert(forall|n: int|
            0 <= n < front.len() - 1 ==> !pattern_like(#[trigger] front[n], front[n + 1]));
        lemma_pattern_dedup_of_distinct(front);
        if front.len() > 0 {
            assert(front.last() == s[s.len() - 2]);
        }
        assert(front.push(s.last()) =~= s);
    }
}

/// On a deduplicated catalog the rule merge gathers nothing new.
proof fn lemma_merge_stable(s: Seq<PatternV>, i: int, j_end: int)
    requires
        0 <= i < s.len(),
        j_end <= s.len(),
        forall|a: int, b: int|
            0 <= a < s.len() && 0 <= b < s.len() && (#[trigger] s[a]).contents == (
            #[trigger] s[b]).contents && s[a].id != s[b].id ==> s[a].rules == s[b].rules,
    ensures
        merge_rules_upto(s, i, j_end) == s[i].rules,
    decreases j_end,
{
    if j_end > 0 {
        lemma_merge_stable(s, i, j_end - 1);
        if s[j_end - 1].contents == s[i].contents && s[j_end - 1].id != s[i].id {
            assert(s[j_end - 1].rules == s[i].rules);
            assert forall|k: int|
                0 <= k < s[j_end - 1].rules.len() implies contains_rule(
                s[i].rules,
                #[trigger] s[j_end - 1].rules[k],
            ) by {
                assert(s[i].rules[k] == s[j_end - 1].rules[k]);
            }
            lemma_append_missing_self(s[i].rules, s[j_end - 1].rules);
        }
    }
}

/// Dedup idempotence: running the deduplication pass on an
/// already-deduplicated catalog yields an identical catalog — no further
/// merges. A catalog is deduplicated when it is sorted by
/// `(contents, rules, count)` with no two adjacent patterns alike,
/// patterns sharing contents under different ids share their rules, and
/// every rule list is sorted with no adjacent duplicates — the shape one
/// pass leaves behind when pattern ids are pairwise distinct.
pub proof fn lemma_dedup_patterns_idempotent(s: Seq<PatternV>)
    requires
        forall|n: int, m: int|
            0 <= n <= m < s.len() ==> pattern_cmp(#[trigger] s[n], #[trigger] s[m]) <= 0,
        forall|n: int| 0 <= n < s.len() - 1 ==> !pattern_like(#[trigger] s[n], s[n + 1]),
        forall|a: int, b: int|
            0 <= a < s.len() && 0 <= b < s.len() && (#[trigger] s[a]).contents == (
            #[trigger] s[b]).contents && s[a].id != s[b].id ==> s[a].rules == s[b].rules,
        forall|i: int, n: int, m: int|
            0 <= i < s.len() && 0 <= n <= m < (#[trigger] s[i]).rules.len() ==> rule_cmp(
                #[trigger] s[i].rules[n],
                #[trigger] s[i].rules[m],
            ) <= 0,
        forall|i: int, n: int|
            0 <= i < s.len() && 0 <= n < (#[trigger] s[i]).rules.len() - 1
                ==> #[trigger] s[i].rules[n] != s[i].rules[n + 1],
    ensures
        dedup_patterns_spec(s) == s,
{
    let merged = Seq::new(s.len(), |i: int| merged_pattern(s, i));
    assert forall|i: int| 0 <= i < s.len() implies merged[i] == s[i] by {
        lemma_merge_stable(s, i, s.len() as int);
        assert(forall|n: int, m: int|
            0 <= n <= m < s[i].rules.len() ==> rule_cmp(
                #[trigger] s[i].rules[n],
                #[trigger] s[i].rules[m],
            ) <= 0);
        lemma_rule_sort_of_sorted(s[i].rules);
        assert(forall|n: int|
            0 <= n < s[i].rules.len() - 1 ==> #[trigger] s[i].rules[n] != s[i].rules[n + 1]);
        lemma_rule_dedup_of_distinct(s[i].rules);
    }
    assert(merged =~= s);
    lemma_pattern_sort_of_sorted(s);
    lemma_pattern_dedup_of_distinct(s);
}

/// Whether the pattern holds at least one rule pointing in direction `d`.
pub open spec fn has_rule_in_direction(p: PatternV, d: u8) -> bool {
    exists|k: int| 0 <= k < p.rules.len() && (#[trigger] p.rules[k]).direction == d
}

/// A deadweight pattern: fewer than 5 rules in total, or no rule at all in
/// some cardinal direction. Such border-only patterns rarely propagate
/// usefully.
pub open spec fn pattern_is_deadweight(p: PatternV) -> bool {
    ||| p.rules.len() < 5
    ||| !(has_rule_in_direction(p, 0) && has_rule_in_direction(p, 1) && has_rule_in_direction(p, 2)
        && has_rule_in_direction(p, 3))
}

/// The patterns among the first `i_end` that are not deadweight, in order.
pub open spec fn prune_upto(s: Seq<PatternV>, i_end: int) -> Seq<PatternV>
    decreases i_end,
{
    if i_end <= 0 {
        Seq::empty()
    } else {
        let prev = prune_upto(s, i_end - 1);
        if pattern_is_deadweight(s[i_end - 1]) {
            prev
        } else {
            prev.push(s[i_end - 1])
        }
    }
}

/// The catalog stripped of its deadweight patterns.
pub open spec fn prune_spec(s: Seq<PatternV>) -> Seq<PatternV> {
    prune_upto(s, s.len() as int)
}

/// Drops every deadweight pattern from the catalog: a heuristic that
/// avoids keeping degenerate border-only patterns.
pub fn prune_lone_patterns(patterns: &mut Vec<Pattern>)
    ensures
        patterns_view(final(patterns)@) == prune_spec(patterns_view(old(patterns)@)),
{
    let ghost orig = patterns_view(old(patterns)@);
    let len = patterns.len();
    let mut kept: Vec<Pattern> = Vec::new();

    for i in 0..len
        invariant
            orig == patterns_view(patterns@),
            len == orig.len(),
            patterns_view(kept@) == prune_upto(orig, i as int),
    {
        proof {
            assert(orig[i as int] == patterns@[i as int]@);
        }
        let p = &patterns[i];
        let keep: bool = if p.rules.len() < 5 {
            false
        } else {
            let mut found0 = false;
            let mut found1 = false;
            let mut found2 = false;
            let mut found3 = false;
            for k in 0..p.rules.len()
                invariant
                    orig == patterns_view(patterns@),
                    i < len,
                    len == orig.len(),
                    orig[i as int] == patterns@[i as int]@,
                    p == &patterns@[i as int],
                    found0 <==> exists|n: int|
                        0 <= n < k && (#[trigger] orig[i as int].rules[n]).direction == 0,
                    found1 <==> exists|n: int|
                        0 <= n < k && (#[trigger] orig[i as int].rules[n]).direction == 1,
                    found2 <==> exists|n: int|
                        0 <= n < k && (#[trigger] orig[i as int].rules[n]).direction == 2,
                    found3 <==> exists|n: int|
                        0 <= n < k && (#[trigger] orig[i as int].rules[n]).direction == 3,
            {
                proof {
                    assert(orig[i as int].rules[k as int] == p.rules@[k as int]@);
                }
                let d = p.rules[k].direction;
                if d == 0 {
                    found0 = true;
                } else if d == 1 {
                    found1 = true;
                } else if d == 2 {
                    found2 = true;
                } else if d == 3 {
                    found3 = true;
                }
            }
            found0 && found1 && found2 && found3
        };
        proof {
            assert(orig[i as int].rules.len() == patterns@[i as int].rules@.len());
            assert(keep == !pattern_is_deadweight(orig[i as int]));
        }
        if keep {
            let c = copy_pattern(&patterns[i]);
            kept.push(c);
            proof {
                assert(patterns_view(kept@) =~= prune_upto(orig, i + 1));
            }
        }
    }
    *patterns = kept;
}

} // verus!
