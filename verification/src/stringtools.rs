//! Text tools: turning a grid-like string into an integer-tagged sample
//! with a symbol table, and rendering collapsed or in-progress grids back
//! into text.

use vstd::prelude::*;
use vstd::string::StrSliceExecFns;

verus! {

/// Whether a character carries the Unicode `White_Space` property.
pub open spec fn is_ws_char(c: char) -> bool {
    ||| c == '\u{9}'
    ||| c == '\u{A}'
    ||| c == '\u{B}'
    ||| c == '\u{C}'
    ||| c == '\u{D}'
    ||| c == ' '
    ||| c == '\u{85}'
    ||| c == '\u{A0}'
    ||| c == '\u{1680}'
    ||| c == '\u{2000}'
    ||| c == '\u{2001}'
    ||| c == '\u{2002}'
    ||| c == '\u{2003}'
    ||| c == '\u{2004}'
    ||| c == '\u{2005}'
    ||| c == '\u{2006}'
    ||| c == '\u{2007}'
    ||| c == '\u{2008}'
    ||| c == '\u{2009}'
    ||| c == '\u{200A}'
    ||| c == '\u{2028}'
    ||| c == '\u{2029}'
    ||| c == '\u{202F}'
    ||| c == '\u{205F}'
    ||| c == '\u{3000}'
}

/// Tests the Unicode `White_Space` property.
pub fn is_whitespace_char(c: char) -> (r: bool)
    ensures
        r == is_ws_char(c),
{
    c == '\u{9}' || c == '\u{A}' || c == '\u{B}' || c == '\u{C}' || c == '\u{D}' || c == ' ' || c
        == '\u{85}' || c == '\u{A0}' || c == '\u{1680}' || (c >= '\u{2000}' && c <= '\u{200A}') || c
        == '\u{2028}' || c == '\u{2029}' || c == '\u{202F}' || c == '\u{205F}' || c == '\u{3000}'
}

/// The characters of a string, in order.
pub fn chars_of(s: &str) -> (r: Vec<char>)
    ensures
        r@ == s@,
{
    let n = s.unicode_len();
    let mut r: Vec<char> = Vec::new();
    for i in 0..n
        invariant
            n == s@.len(),
            r@ =~= s@.take(i as int),
    {
        r.push(s.get_char(i));
    }
    proof {
        assert(s@.take(n as int) =~= s@);
    }
    r
}

/// The number of characters before the first line break, or all of them.
pub open spec fn first_newline(s: Seq<char>) -> nat
    decreases s.len(),
{
    if s.len() == 0 {
        0
    } else if s[0] == '\n' {
        0
    } else {
        1 + first_newline(s.drop_first())
    }
}

/// A line with its trailing carriage return, if any, stripped.
pub open spec fn strip_cr(l: Seq<char>) -> Seq<char> {
    if l.len() > 0 && l.last() == '\r' {
        l.drop_last()
    } else {
        l
    }
}

/// The lines of a string, split on line feeds, each without a trailing
/// carriage return; a trailing line feed adds no final empty line.
pub open spec fn split_lines(s: Seq<char>) -> Seq<Seq<char>>
    decreases s.len(),
{
    if s.len() == 0 {
        Seq::empty()
    } else {
        let i = first_newline(s);
        if i >= s.len() {
            seq![strip_cr(s)]
        } else {
            seq![strip_cr(s.take(i as int))] + split_lines(s.skip(i as int + 1))
        }
    }
}

proof fn lemma_first_newline_bounds(s: Seq<char>)
    ensures
        first_newline(s) <= s.len(),
        forall|k: int| 0 <= k < first_newline(s) ==> s[k] != '\n',
        first_newline(s) < s.len() ==> s[first_newline(s) as int] == '\n',
    decreases s.len(),
{
    if s.len() > 0 && s[0] != '\n' {
        lemma_first_newline_bounds(s.drop_first());
        assert forall|k: int| 0 <= k < first_newline(s) implies s[k] != '\n' by {
            if k > 0 {
                assert(s.drop_first()[k - 1] != '\n');
            }
        }
    }
}

proof fn lemma_first_newline_at(s: Seq<char>, j: int)
    requires
        0 <= j <= s.len(),
        forall|k: int| 0 <= k < j ==> s[k] != '\n',
        j < s.len() ==> s[j] == '\n',
    ensures
        first_newline(s) == j,
    decreases s.len(),
{
    if s.len() > 0 {
        if j == 0 {
        } else {
            assert forall|k: int| 0 <= k < j - 1 implies s.drop_first()[k] != '\n' by {
                assert(s[k + 1] != '\n');
            }
            lemma_first_newline_at(s.drop_first(), j - 1);
        }
    }
}

/// The characters of a line that survive the whitespace filter.
pub open spec fn kept(l: Seq<char>, use_whitespace: bool) -> Seq<char>
    decreases l.len(),
{
    if l.len() == 0 {
        Seq::empty()
    } else if use_whitespace || !is_ws_char(l.last()) {
        kept(l.drop_last(), use_whitespace).push(l.last())
    } else {
        kept(l.drop_last(), use_whitespace)
    }
}

/// The kept characters of all the lines, line by line.
pub open spec fn all_chars(lines: Seq<Seq<char>>, use_whitespace: bool) -> Seq<char>
    decreases lines.len(),
{
    if lines.len() == 0 {
        Seq::empty()
    } else {
        all_chars(lines.drop_last(), use_whitespace) + kept(lines.last(), use_whitespace)
    }
}

/// The distinct characters of a sequence, by first occurrence.
pub open spec fn distinct_chars(s: Seq<char>) -> Seq<char>
    decreases s.len(),
{
    if s.len() == 0 {
        Seq::empty()
    } else {
        let d = distinct_chars(s.drop_last());
        if d.contains(s.last()) {
            d
        } else {
            d.push(s.last())
        }
    }
}

/// The position of a character in a symbol list.
pub open spec fn index_of(d: Seq<char>, c: char) -> int
    decreases d.len(),
{
    if d.len() == 0 {
        0
    } else if d[0] == c {
        0
    } else {
        1 + index_of(d.drop_first(), c)
    }
}

/// The longest kept line length: the width of the resulting grid.
pub open spec fn max_kept(lines: Seq<Seq<char>>, use_whitespace: bool) -> int
    decreases lines.len(),
{
    if lines.len() == 0 {
        0
    } else {
        let rest = max_kept(lines.drop_last(), use_whitespace);
        let last = kept(lines.last(), use_whitespace).len() as int;
        if last > rest {
            last
        } else {
            rest
        }
    }
}

/// Column `x` of the deconstructed sample: the symbol ids of the `x`-th
/// kept character of every line long enough to have one, in line order.
pub open spec fn column_ids(
    lines: Seq<Seq<char>>,
    use_whitespace: bool,
    x: int,
    d: Seq<char>,
) -> Seq<usize>
    decreases lines.len(),
{
    if lines.len() == 0 {
        Seq::empty()
    } else {
        let rest = column_ids(lines.drop_last(), use_whitespace, x, d);
        let k = kept(lines.last(), use_whitespace);
        if k.len() > x {
            rest.push(index_of(d, k[x]) as usize)
        } else {
            rest
        }
    }
}

/// The grid a string deconstructs to: one column per kept character
/// position, cells tagged with first-occurrence symbol ids.
pub open spec fn deconstruct_grid(s: Seq<char>, use_whitespace: bool) -> Seq<Seq<usize>> {
    let lines = split_lines(s);
    let d = distinct_chars(all_chars(lines, use_whitespace));
    Seq::new(
        max_kept(lines, use_whitespace) as nat,
        |x: int| column_ids(lines, use_whitespace, x, d),
    )
}

/// The symbol table a string deconstructs to: ids in order of first
/// occurrence.
pub open spec fn deconstruct_map(s: Seq<char>, use_whitespace: bool) -> Seq<(usize, char)> {
    let d = distinct_chars(all_chars(split_lines(s), use_whitespace));
    Seq::new(d.len(), |i: int| (i as usize, d[i]))
}

proof fn lemma_distinct_contains(s: Seq<char>, c: char)
    ensures
        distinct_chars(s).contains(c) <==> s.contains(c),
    decreases s.len(),
{
    if s.len() > 0 {
        let front = s.drop_last();
        let d = distinct_chars(front);
        lemma_distinct_contains(front, c);
        lemma_distinct_contains(front, s.last());
        assert(s.contains(c) <==> (front.contains(c) || s.last() == c)) by {
            if s.contains(c) {
                let w = choose|w: int| 0 <= w < s.len() && s[w] == c;
                if w < s.len() - 1 {
                    assert(front[w] == c);
                }
            }
            if front.contains(c) {
                let w = choose|w: int| 0 <= w < front.len() && front[w] == c;
                assert(s[w] == c);
            }
            if s.last() == c {
                assert(s[s.len() - 1] == c);
            }
        }
        if d.contains(s.last()) {
        } else {
            assert(distinct_chars(s) == d.push(s.last()));
            assert(distinct_chars(s).contains(c) <==> (d.contains(c) || s.last() == c)) by {
                if d.contains(c) {
                    let w = choose|w: int| 0 <= w < d.len() && d[w] == c;
                    assert(d.push(s.last())[w] == c);
                }
                if s.last() == c {
                    assert(d.push(s.last())[d.len() as int] == c);
                }
                if d.push(s.last()).contains(c) {
                    let w = choose|w: int|
                        0 <= w < d.push(s.last()).len() && d.push(s.last())[w] == c;
                    if w < d.len() {
                        assert(d[w] == c);
                    }
                }
            }
        }
    }
}

proof fn lemma_distinct_nodup(s: Seq<char>)
    ensures
        forall|i: int, j: int|
            0 <= i < j < distinct_chars(s).len() ==> #[trigger] distinct_chars(s)[i]
                != #[trigger] distinct_chars(s)[j],
    decreases s.len(),
{
    if s.len() > 0 {
        lemma_distinct_nodup(s.drop_last());
        let d = distinct_chars(s.drop_last());
        if !d.contains(s.last()) {
            assert forall|i: int, j: int|
                0 <= i < j < distinct_chars(s).len() implies #[trigger] distinct_chars(s)[i]
                != #[trigger] distinct_chars(s)[j] by {
                if j < d.len() {
                } else {
                    assert(distinct_chars(s)[j] == s.last());
                    assert(distinct_chars(s)[i] == d[i]);
                    assert(!d.contains(s.last()));
                }
            }
        }
    }
}

proof fn lemma_index_of_found(d: Seq<char>, c: char, i: int)
    requires
        forall|a: int, b: int| 0 <= a < b < d.len() ==> #[trigger] d[a] != #[trigger] d[b],
        0 <= i < d.len(),
        d[i] == c,
    ensures
        index_of(d, c) == i,
    decreases d.len(),
{
    if d[0] == c {
        if i != 0 {
            assert(d[0] != d[i]);
        }
    } else {
        assert(forall|a: int, b: int|
            0 <= a < b < d.drop_first().len() ==> #[trigger] d.drop_first()[a]
                != #[trigger] d.drop_first()[b]);
        lemma_index_of_found(d.drop_first(), c, i - 1);
    }
}

proof fn lemma_index_of_push(d: Seq<char>, c: char, z: char)
    requires
        d.contains(c),
    ensures
        index_of(d.push(z), c) == index_of(d, c),
    decreases d.len(),
{
    if d[0] == c {
    } else {
        assert(d.push(z).drop_first() =~= d.drop_first().push(z));
        let w = choose|w: int| 0 <= w < d.len() && d[w] == c;
        assert(d.drop_first()[w - 1] == c);
        lemma_index_of_push(d.drop_first(), c, z);
    }
}

proof fn lemma_all_chars_member(lines: Seq<Seq<char>>, use_ws: bool, li: int, ci: int)
    requires
        0 <= li < lines.len(),
        0 <= ci < kept(lines[li], use_ws).len(),
    ensures
        all_chars(lines, use_ws).contains(kept(lines[li], use_ws)[ci]),
    decreases lines.len(),
{
    let c = kept(lines[li], use_ws)[ci];
    if li == lines.len() - 1 {
        let prefix = all_chars(lines.drop_last(), use_ws);
        assert(all_chars(lines, use_ws)[prefix.len() + ci] == c);
    } else {
        lemma_all_chars_member(lines.drop_last(), use_ws, li, ci);
        let prev = all_chars(lines.drop_last(), use_ws);
        let w = choose|w: int| 0 <= w < prev.len() && prev[w] == c;
        assert(all_chars(lines, use_ws)[w] == c);
    }
}

proof fn lemma_column_stable(lines: Seq<Seq<char>>, use_ws: bool, x: int, d: Seq<char>, z: char)
    requires
        x >= 0,
        forall|li: int, ci: int|
            0 <= li < lines.len() && 0 <= ci < kept(#[trigger] lines[li], use_ws).len()
                ==> d.contains(#[trigger] kept(lines[li], use_ws)[ci]),
    ensures
        column_ids(lines, use_ws, x, d.push(z)) == column_ids(lines, use_ws, x, d),
    decreases lines.len(),
{
    if lines.len() > 0 {
        assert(forall|li: int, ci: int|
            0 <= li < lines.drop_last().len() && 0 <= ci < kept(
                #[trigger] lines.drop_last()[li],
                use_ws,
            ).len() ==> d.contains(#[trigger] kept(lines.drop_last()[li], use_ws)[ci]));
        lemma_column_stable(lines.drop_last(), use_ws, x, d, z);
        let k = kept(lines.last(), use_ws);
        if k.len() > x {
            assert(d.contains(kept(lines[lines.len() - 1], use_ws)[x]));
            lemma_index_of_push(d, k[x], z);
        }
    }
}

proof fn lemma_column_beyond(lines: Seq<Seq<char>>, use_ws: bool, x: int, d: Seq<char>)
    requires
        x >= max_kept(lines, use_ws),
    ensures
        column_ids(lines, use_ws, x, d) == Seq::<usize>::empty(),
    decreases lines.len(),
{
    if lines.len() > 0 {
        lemma_column_beyond(lines.drop_last(), use_ws, x, d);
    }
}

proof fn lemma_index_of_new(d: Seq<char>, c: char)
    requires
        !d.contains(c),
    ensures
        index_of(d.push(c), c) == d.len(),
    decreases d.len(),
{
    if d.len() > 0 {
        assert(d.push(c).drop_first() =~= d.drop_first().push(c));
        assert(!d.drop_first().contains(c)) by {
            if d.drop_first().contains(c) {
                let w = choose|w: int| 0 <= w < d.drop_first().len() && d.drop_first()[w] == c;
                assert(d[w + 1] == c);
            }
        }
        lemma_index_of_new(d.drop_first(), c);
    }
}

/// The view of a list of lines.
pub open spec fn lines_view(v: Seq<Vec<char>>) -> Seq<Seq<char>> {
    v.map(|i: int, l: Vec<char>| l@)
}

fn split_exec(chars: &Vec<char>) -> (lines: Vec<Vec<char>>)
    ensures
        lines_view(lines@) == split_lines(chars@),
{
    let mut lines: Vec<Vec<char>> = Vec::new();
    let mut pos: usize = 0;
    let n = chars.len();
    proof {
        assert(chars@.skip(0) =~= chars@);
        assert(lines_view(lines@) =~= Seq::<Seq<char>>::empty());
    }
    while pos < n
        invariant
            pos <= n,
            n == chars@.len(),
            split_lines(chars@) == lines_view(lines@) + split_lines(chars@.skip(pos as int)),
        decreases n - pos,
    {
        let mut j = pos;
        while j < n && chars[j] != '\n'
            invariant
                pos <= j <= n,
                n == chars@.len(),
                forall|k: int| pos <= k < j ==> chars@[k] != '\n',
            decreases n - j,
        {
            j = j + 1;
        }
        let mut line: Vec<char> = Vec::new();
        let mut k = pos;
        while k < j
            invariant
                pos <= k <= j <= n,
                n == chars@.len(),
                line@ =~= chars@.subrange(pos as int, k as int),
            decreases j - k,
        {
            line.push(chars[k]);
            k = k + 1;
        }
        proof {
            assert(line@ =~= chars@.subrange(pos as int, j as int));
        }
        if line.len() > 0 && line[line.len() - 1] == '\r' {
            line.pop();
        }
        let ghost pre_lines = lines_view(lines@);
        let ghost suf = chars@.skip(pos as int);
        proof {
            assert(suf.len() == n - pos);
            assert forall|k2: int| 0 <= k2 < j - pos implies suf[k2] != '\n' by {
                assert(suf[k2] == chars@[pos + k2]);
            }
            if j < n {
                assert(suf[j - pos] == chars@[j as int]);
            }
            lemma_first_newline_at(suf, j - pos);
            assert(suf.take(j - pos) =~= chars@.subrange(pos as int, j as int));
            assert(line@ =~= strip_cr(suf.take(j - pos)));
            if j - pos == suf.len() {
                assert(suf.take(j - pos) =~= suf);
                assert(split_lines(suf) == seq![strip_cr(suf)]);
            } else {
                assert(suf.skip(j - pos + 1) =~= chars@.skip(j + 1));
            }
        }
        lines.push(line);
        if j < n {
            pos = j + 1;
        } else {
            pos = j;
        }
        proof {
            assert(lines_view(lines@) =~= pre_lines.push(line@));
            if pos == n {
                assert(chars@.skip(n as int) =~= Seq::<char>::empty());
                assert(split_lines(chars@.skip(pos as int)) =~= Seq::<Seq<char>>::empty());
            }
            assert(pre_lines.push(line@) + split_lines(chars@.skip(pos as int)) =~= pre_lines + (
            seq![line@] + split_lines(chars@.skip(pos as int))));
        }
    }
    proof {
        assert(chars@.skip(n as int) =~= Seq::<char>::empty());
        assert(lines_view(lines@) + split_lines(chars@.skip(n as int)) =~= lines_view(lines@));
    }
    lines
}

/// The symbol table built over a list of distinct characters.
pub open spec fn map_model(d: Seq<char>) -> Seq<(usize, char)> {
    Seq::new(d.len(), |i: int| (i as usize, d[i]))
}

/// Deconstructs a list of characters into a column-major grid of
/// first-occurrence symbol ids and the symbol table relating ids back to
/// characters.
#[verifier::rlimit(100)]
pub fn deconstruct_core(chars: &Vec<char>, use_whitespace: bool) -> (r: (
    Vec<Vec<usize>>,
    Vec<(usize, char)>,
))
    ensures
        crate::helpers::grid_view(r.0) == deconstruct_grid(chars@, use_whitespace),
        r.1@ == deconstruct_map(chars@, use_whitespace),
{
    let lines = split_exec(chars);
    let ghost lv = lines_view(lines@);
    let ghost uw = use_whitespace;
    let mut grid: Vec<Vec<usize>> = Vec::new();
    let mut map: Vec<(usize, char)> = Vec::new();

    proof {
        assert(lv.take(0) =~= Seq::<Seq<char>>::empty());
        assert(map@ =~= map_model(distinct_chars(all_chars(lv.take(0), uw))));
    }

    for y in 0..lines.len()
        invariant
            lv == lines_view(lines@),
            uw == use_whitespace,
            map@ == map_model(distinct_chars(all_chars(lv.take(y as int), uw))),
            grid@.len() == max_kept(lv.take(y as int), uw),
            forall|x: int|
                0 <= x < grid@.len() ==> (#[trigger] grid@[x])@ == column_ids(
                    lv.take(y as int),
                    uw,
                    x,
                    distinct_chars(all_chars(lv.take(y as int), uw)),
                ),
    {
        let ghost prev_lines = lv.take(y as int);
        let ghost d0 = distinct_chars(all_chars(prev_lines, uw));
        let line = &lines[y];
        proof {
            assert(lv[y as int] == line@);
        }

        let mut keptv: Vec<char> = Vec::new();
        for li in 0..line.len()
            invariant
                keptv@ == kept(line@.take(li as int), use_whitespace),
        {
            proof {
                assert(line@.take(li + 1).drop_last() =~= line@.take(li as int));
                assert(line@.take(li + 1).last() == line@[li as int]);
            }
            let c = line[li];
            if use_whitespace || !is_whitespace_char(c) {
                keptv.push(c);
            }
        }
        proof {
            assert(line@.take(line@.len() as int) =~= line@);
        }

        let mut ids: Vec<usize> = Vec::new();
        for k in 0..keptv.len()
            invariant
                lv == lines_view(lines@),
                uw == use_whitespace,
                y < lv.len(),
                prev_lines == lv.take(y as int),
                keptv@ == kept(lv[y as int], uw),
                map@ == map_model(
                    distinct_chars(all_chars(prev_lines, uw) + keptv@.take(k as int)),
                ),
                ids@.len() == k,
                forall|k2: int|
                    0 <= k2 < k ==> {
                        let d = distinct_chars(all_chars(prev_lines, uw) + keptv@.take(k as int));
                        &&& d.contains(#[trigger] keptv@[k2])
                        &&& ids@[k2] == index_of(d, keptv@[k2]) as usize
                    },
                grid@.len() == max_kept(prev_lines, uw),
                forall|x: int|
                    0 <= x < grid@.len() ==> (#[trigger] grid@[x])@ == column_ids(
                        prev_lines,
                        uw,
                        x,
                        distinct_chars(all_chars(prev_lines, uw) + keptv@.take(k as int)),
                    ),
        {
            let ghost flat = all_chars(prev_lines, uw) + keptv@.take(k as int);
            let ghost d = distinct_chars(flat);
            let c = keptv[k];

            let mut found: Option<usize> = None;
            for mi in 0..map.len()
                invariant
                    map@ == map_model(d),
                    found is None ==> forall|n: int| 0 <= n < mi ==> d[n] != c,
                    found matches Some(id) ==> id < d.len() && d[id as int] == c,
            {
                if found.is_none() && map[mi].1 == c {
                    found = Some(map[mi].0);
                    proof {
                        assert(map@[mi as int] == (mi as usize, d[mi as int]));
                    }
                }
            }

            proof {
                assert(flat.push(c) =~= all_chars(prev_lines, uw) + keptv@.take(k + 1)) by {
                    assert(keptv@.take(k + 1) =~= keptv@.take(k as int).push(keptv@[k as int]));
                }
                assert(distinct_chars(flat.push(c)).drop_last() == distinct_chars(flat) || distinct_chars(
                    flat.push(c),
                ) == distinct_chars(flat)) by {
                    assert(flat.push(c).drop_last() =~= flat);
                }
            }
            let id: usize = match found {
                Some(found_id) => {
                    proof {
                        lemma_distinct_nodup(flat);
                        lemma_index_of_found(d, c, found_id as int);
                        assert(flat.push(c).drop_last() =~= flat);
                        assert(distinct_chars(flat.push(c)) == d);
                    }
                    found_id
                },
                None => {
                    let nid = map.len();
                    proof {
                        assert(map@.len() == d.len());
                        assert(!d.contains(c)) by {
                            if d.contains(c) {
                                let w = choose|w: int| 0 <= w < d.len() && d[w] == c;
                            }
                        }
                        assert(flat.push(c).drop_last() =~= flat);
                        assert(distinct_chars(flat.push(c)) == d.push(c));
                        lemma_index_of_new(d, c);
                        assert forall|li2: int, ci: int|
                            0 <= li2 < prev_lines.len() && 0 <= ci < kept(
                                #[trigger] prev_lines[li2],
                                uw,
                            ).len() implies d.contains(#[trigger] kept(prev_lines[li2], uw)[ci]) by {
                            lemma_all_chars_member(prev_lines, uw, li2, ci);
                            let ac = all_chars(prev_lines, uw);
                            let w = choose|w: int|
                                0 <= w < ac.len() && ac[w] == kept(prev_lines[li2], uw)[ci];
                            assert(flat[w] == kept(prev_lines[li2], uw)[ci]);
                            lemma_distinct_contains(flat, kept(prev_lines[li2], uw)[ci]);
                        }
                        assert forall|x: int|
                            0 <= x < grid@.len() implies (#[trigger] grid@[x])@ == column_ids(
                            prev_lines,
                            uw,
                            x,
                            d.push(c),
                        ) by {
                            lemma_column_stable(prev_lines, uw, x, d, c);
                        }
                        assert forall|k2: int|
                            0 <= k2 < k implies {
                            &&& d.push(c).contains(#[trigger] keptv@[k2])
                            &&& ids@[k2] == index_of(d.push(c), keptv@[k2]) as usize
                        } by {
                            assert(d.contains(keptv@[k2]));
                            lemma_index_of_push(d, keptv@[k2], c);
                            let w = choose|w: int| 0 <= w < d.len() && d[w] == keptv@[k2];
                            assert(d.push(c)[w] == keptv@[k2]);
                        }
                    }
                    map.push((nid, c));
                    proof {
                        assert(map@ =~= map_model(d.push(c)));
                    }
                    nid
                },
            };
            ids.push(id);
            proof {
                let d2 = distinct_chars(all_chars(prev_lines, uw) + keptv@.take(k + 1));
                assert(d2.contains(c)) by {
                    lemma_distinct_contains(flat.push(c), c);
                    assert(flat.push(c)[flat.len() as int] == c);
                }
                lemma_distinct_nodup(flat.push(c));
            }
        }
        proof {
            assert(keptv@.take(keptv@.len() as int) =~= keptv@);
        }

        let ghost d_line = distinct_chars(all_chars(prev_lines, uw) + keptv@);
        proof {
            assert(all_chars(lv.take(y + 1), uw) =~= all_chars(prev_lines, uw) + keptv@) by {
                assert(lv.take(y + 1).drop_last() =~= prev_lines);
                assert(lv.take(y + 1).last() == lv[y as int]);
            }
        }

        for x in 0..ids.len()
            invariant
                lv == lines_view(lines@),
                uw == use_whitespace,
                y < lv.len(),
                prev_lines == lv.take(y as int),
                keptv@ == kept(lv[y as int], uw),
                ids@.len() == keptv@.len(),
                forall|k2: int|
                    0 <= k2 < ids@.len() ==> #[trigger] ids@[k2] == index_of(
                        d_line,
                        keptv@[k2],
                    ) as usize,
                grid@.len() == if ids@.len() <= max_kept(prev_lines, uw) {
                    max_kept(prev_lines, uw)
                } else if x as int > max_kept(prev_lines, uw) {
                    x as int
                } else {
                    max_kept(prev_lines, uw)
                },
                forall|x2: int|
                    0 <= x2 < x ==> (#[trigger] grid@[x2])@ == column_ids(
                        lv.take(y + 1),
                        uw,
                        x2,
                        d_line,
                    ),
                forall|x2: int|
                    x <= x2 < grid@.len() ==> (#[trigger] grid@[x2])@ == column_ids(
                        prev_lines,
                        uw,
                        x2,
                        d_line,
                    ),
        {
            if grid.len() == x {
                grid.push(Vec::new());
                proof {
                    lemma_column_beyond(prev_lines, uw, x as int, d_line);
                }
            }
            let mut col = grid.remove(x);
            col.push(ids[x]);
            grid.insert(x, col);
            proof {
                assert(column_ids(lv.take(y + 1), uw, x as int, d_line) == column_ids(
                    prev_lines,
                    uw,
                    x as int,
                    d_line,
                ).push(index_of(d_line, keptv@[x as int]) as usize)) by {
                    assert(lv.take(y + 1).drop_last() =~= prev_lines);
                    assert(lv.take(y + 1).last() == lv[y as int]);
                }
                assert(grid@[x as int]@ == column_ids(lv.take(y + 1), uw, x as int, d_line));
            }
        }
        proof {
            assert(max_kept(lv.take(y + 1), uw) == if keptv@.len() as int > max_kept(
                prev_lines,
                uw,
            ) {
                keptv@.len() as int
            } else {
                max_kept(prev_lines, uw)
            }) by {
                assert(lv.take(y + 1).drop_last() =~= prev_lines);
                assert(lv.take(y + 1).last() == lv[y as int]);
            }
            assert forall|x2: int|
                0 <= x2 < grid@.len() implies (#[trigger] grid@[x2])@ == column_ids(
                lv.take(y + 1),
                uw,
                x2,
                d_line,
            ) by {
                if x2 >= ids@.len() {
                    assert(lv.take(y + 1).drop_last() =~= prev_lines);
                    assert(lv.take(y + 1).last() == lv[y as int]);
                    assert(column_ids(lv.take(y + 1), uw, x2, d_line) == column_ids(
                        prev_lines,
                        uw,
                        x2,
                        d_line,
                    ));
                }
            }
        }
    }
    proof {
        assert(lv.take(lv.len() as int) =~= lv);
        assert(crate::helpers::grid_view(grid) =~= deconstruct_grid(chars@, use_whitespace));
        assert(map@ =~= deconstruct_map(chars@, use_whitespace));
    }
    (grid, map)
}

/// Relies on `String::push`: appends the given character to the end of
/// the string.
#[verifier::external_body]
fn push_char(s: &mut String, c: char)
    ensures
        final(s)@ == old(s)@ + seq![c],
{
    s.push(c);
}

/// The character an id stands for: the first matching entry of the table.
pub open spec fn lookup_char(map: Seq<(usize, char)>, id: usize) -> char
    decreases map.len(),
{
    if map.len() == 0 {
        ' '
    } else if map[0].0 == id {
        map[0].1
    } else {
        lookup_char(map.drop_first(), id)
    }
}

/// Whether the table holds an entry for the id.
pub open spec fn has_id(map: Seq<(usize, char)>, id: usize) -> bool {
    exists|k: int| 0 <= k < map.len() && (#[trigger] map[k]).0 == id
}

fn lookup_exec(map: &Vec<(usize, char)>, id: usize) -> (c: char)
    requires
        has_id(map@, id),
    ensures
        c == lookup_char(map@, id),
{
    let ghost m = map@;
    let mut k: usize = 0;
    proof {
        assert(lookup_char(m, id) == lookup_char(m.skip(0), id)) by {
            assert(m.skip(0) =~= m);
        }
    }
    while k < map.len() && map[k].0 != id
        invariant
            m == map@,
            k <= m.len(),
            has_id(m, id),
            lookup_char(m, id) == lookup_char(m.skip(k as int), id),
            exists|j: int| k <= j < m.len() && (#[trigger] m[j]).0 == id,
        decreases m.len() - k,
    {
        proof {
            assert(m.skip(k as int)[0] == m[k as int]);
            assert(m.skip(k as int).drop_first() =~= m.skip(k + 1));
            let j = choose|j: int| k <= j < m.len() && (#[trigger] m[j]).0 == id;
            assert(j != k);
        }
        k = k + 1;
    }
    proof {
        assert(m.skip(k as int)[0] == m[k as int]);
    }
    map[k].1
}

/// The rows of a column-major grid: entry `y` holds the `y`-th cell of
/// every column.
pub open spec fn transposed(g: Seq<Seq<usize>>) -> Seq<Seq<usize>> {
    Seq::new(crate::helpers::grid_height(g), |y: int| Seq::new(g.len(), |x: int| g[x][y]))
}

/// The colour code a symbol is rendered with.
pub open spec fn color_code(c: char) -> Seq<char> {
    if c == 'S' {
        "34m"@
    } else if c == 'C' {
        "33m"@
    } else if c == 'L' {
        "32m"@
    } else {
        "35m"@
    }
}

/// The text one cell renders to: its colour escape when colouring, then
/// the symbol and a separating comma.
pub open spec fn cell_text(c: char, use_color: bool) -> Seq<char> {
    let color: Seq<char> = if use_color {
        "\u{1b}["@ + color_code(c)
    } else {
        Seq::empty()
    };
    color + seq![c] + ", "@
}

/// The text one row of ids renders to.
pub open spec fn row_text(row: Seq<usize>, map: Seq<(usize, char)>, use_color: bool) -> Seq<char>
    decreases row.len(),
{
    if row.len() == 0 {
        Seq::empty()
    } else {
        row_text(row.drop_last(), map, use_color) + cell_text(
            lookup_char(map, row.last()),
            use_color,
        )
    }
}

/// The text the rows render to, joined by line breaks.
pub open spec fn body_text(
    rows: Seq<Seq<usize>>,
    map: Seq<(usize, char)>,
    use_color: bool,
) -> Seq<char>
    decreases rows.len(),
{
    if rows.len() == 0 {
        Seq::empty()
    } else if rows.len() == 1 {
        row_text(rows[0], map, use_color)
    } else {
        body_text(rows.drop_last(), map, use_color) + seq!['\n'] + row_text(
            rows.last(),
            map,
            use_color,
        )
    }
}

/// What `reconstruct_string` produces: the transposed grid rendered row
/// by row, wrapped in the requested styling escapes.
pub open spec fn reconstruct_text(
    g: Seq<Seq<usize>>,
    map: Seq<(usize, char)>,
    use_color: bool,
    bold: bool,
) -> Seq<char> {
    let prefix: Seq<char> = if bold {
        "\u{1b}[1m"@
    } else {
        Seq::empty()
    };
    let suffix: Seq<char> = if bold || use_color {
        "\u{1b}[0m"@
    } else {
        Seq::empty()
    };
    prefix + body_text(transposed(g), map, use_color) + suffix
}

/// Renders a collapsed symbol-id grid back into text, one sample row per
/// line, each symbol followed by a comma; colour and bold terminal
/// escapes wrap the output when asked for.
pub fn reconstruct_string(
    input: Vec<Vec<usize>>,
    source_map: &Vec<(usize, char)>,
    use_color: bool,
    bold: bool,
) -> (r: String)
    requires
        input@.len() > 0,
        crate::helpers::is_rectangular(crate::helpers::grid_view(input)),
        forall|x: int, y: int|
            0 <= x < input@.len() && 0 <= y < input@[x]@.len() ==> has_id(
                source_map@,
                #[trigger] input@[x]@[y],
            ),
    ensures
        r@ == reconstruct_text(crate::helpers::grid_view(input), source_map@, use_color, bold),
{
    let ghost g = crate::helpers::grid_view(input);
    let ghost rows = transposed(g);
    let mut output = String::new();

    if bold {
        output.append("\u{1b}[1m");
    }
    let ghost prefix = output@;

    let size = crate::helpers::dimensions_of(&input);

    for y in 0..size.y
        invariant
            g == crate::helpers::grid_view(input),
            rows == transposed(g),
            crate::helpers::is_rectangular(g),
            size.x == g.len(),
            size.y == crate::helpers::grid_height(g),
            rows.len() == size.y,
            forall|x: int, y2: int|
                0 <= x < input@.len() && 0 <= y2 < input@[x]@.len() ==> has_id(
                    source_map@,
                    #[trigger] input@[x]@[y2],
                ),
            prefix == if bold {
                "\u{1b}[1m"@
            } else {
                Seq::<char>::empty()
            },
            output@ == prefix + body_text(rows.take(y as int), source_map@, use_color),
    {
        if y > 0 {
            push_char(&mut output, '\n');
        }
        let ghost row_start = output@;

        for x in 0..size.x
            invariant
                g == crate::helpers::grid_view(input),
                rows == transposed(g),
                crate::helpers::is_rectangular(g),
                size.x == g.len(),
                size.y == crate::helpers::grid_height(g),
                rows.len() == size.y,
                y < size.y,
                forall|x2: int, y2: int|
                    0 <= x2 < input@.len() && 0 <= y2 < input@[x2]@.len() ==> has_id(
                        source_map@,
                        #[trigger] input@[x2]@[y2],
                    ),
                row_start == output@.take(row_start.len() as int),
                output@ == row_start + row_text(
                    rows[y as int].take(x as int),
                    source_map@,
                    use_color,
                ),
        {
            proof {
                assert(g[x as int] == input@[x as int]@);
                assert(g[x as int].len() == size.y);
                assert(rows[y as int][x as int] == g[x as int][y as int]);
            }
            let id = input[x][y];
            let real_val = lookup_exec(source_map, id);

            if use_color {
                output.append("\u{1b}[");
                if real_val == 'S' {
                    output.append("34m");
                } else if real_val == 'C' {
                    output.append("33m");
                } else if real_val == 'L' {
                    output.append("32m");
                } else {
                    output.append("35m");
                }
            }
            push_char(&mut output, real_val);
            output.append(", ");
            proof {
                assert(rows[y as int].take(x + 1).drop_last() =~= rows[y as int].take(x as int));
                assert(rows[y as int].take(x + 1).last() == rows[y as int][x as int]);
                assert(output@ =~= row_start + row_text(
                    rows[y as int].take(x + 1),
                    source_map@,
                    use_color,
                ));
            }
        }
        proof {
            assert(rows[y as int].take(rows[y as int].len() as int) =~= rows[y as int]);
            assert(rows.take(y + 1).drop_last() =~= rows.take(y as int));
            assert(rows.take(y + 1).last() == rows[y as int]);
            assert(output@ =~= prefix + body_text(rows.take(y + 1), source_map@, use_color));
        }
    }

    proof {
        assert(rows.take(rows.len() as int) =~= rows);
    }
    if bold || use_color {
        // reset terminal style
        output.append("\u{1b}[0m");
    }
    proof {
        assert(output@ =~= reconstruct_text(g, source_map@, use_color, bold));
    }
    output
}


/// A character placed before the first strictly greater one of a sorted
/// list, comparing by code point.
pub open spec fn chars_insert(s: Seq<char>, x: char) -> Seq<char>
    decreases s.len(),
{
    if s.len() == 0 {
        seq![x]
    } else if s[0] as u32 > x as u32 {
        seq![x] + s
    } else {
        seq![s[0]] + chars_insert(s.drop_first(), x)
    }
}

/// An insertion sort of characters, ascending by code point.
pub open spec fn chars_sort(s: Seq<char>) -> Seq<char>
    decreases s.len(),
{
    if s.len() == 0 {
        Seq::empty()
    } else {
        chars_insert(chars_sort(s.drop_last()), s.last())
    }
}

proof fn lemma_chars_insert_at(s: Seq<char>, x: char, idx: int)
    requires
        0 <= idx <= s.len(),
        forall|n: int| 0 <= n < idx ==> (#[trigger] s[n]) as u32 <= x as u32,
        idx < s.len() ==> s[idx] as u32 > x as u32,
    ensures
        chars_insert(s, x) == s.insert(idx, x),
    decreases s.len(),
{
    if s.len() == 0 {
        assert(chars_insert(s, x) =~= s.insert(0, x));
    } else if idx == 0 {
        assert(chars_insert(s, x) =~= s.insert(0, x));
    } else {
        lemma_chars_insert_at(s.drop_first(), x, idx - 1);
        assert(seq![s[0]] + s.drop_first().insert(idx - 1, x) =~= s.insert(idx, x));
    }
}

/// Sorts characters ascending by code point.
fn sort_chars(v: Vec<char>) -> (sorted: Vec<char>)
    ensures
        sorted@ == chars_sort(v@),
{
    let mut sorted: Vec<char> = Vec::new();
    proof {
        assert(v@.take(0) =~= Seq::<char>::empty());
    }
    for k in 0..v.len()
        invariant
            sorted@ == chars_sort(v@.take(k as int)),
    {
        let x = v[k];
        let ghost sv = sorted@;
        let mut i: usize = 0;
        while i < sorted.len() && (sorted[i] as u32) <= (x as u32)
            invariant
                sv == sorted@,
                i <= sorted@.len(),
                forall|n: int| 0 <= n < i ==> (#[trigger] sv[n]) as u32 <= x as u32,
            decreases sorted@.len() - i,
        {
            i = i + 1;
        }
        proof {
            lemma_chars_insert_at(sv, x, i as int);
        }
        sorted.insert(i, x);
        proof {
            assert(sorted@ =~= sv.insert(i as int, x));
            assert(v@.take(k + 1).drop_last() =~= v@.take(k as int));
            assert(v@.take(k + 1).last() == v@[k as int]);
        }
    }
    proof {
        assert(v@.take(v@.len() as int) =~= v@);
    }
    sorted
}

/// The view of a grid of candidate lists.
pub open spec fn candidates_view(v: Vec<Vec<Vec<usize>>>) -> Seq<Seq<Seq<usize>>> {
    v@.map(|i: int, c: Vec<Vec<usize>>| c@.map(|j: int, cell: Vec<usize>| cell@))
}

/// The height of a grid of candidate lists.
pub open spec fn candidates_height(g: Seq<Seq<Seq<usize>>>) -> nat {
    if g.len() == 0 {
        0
    } else {
        g[0].len()
    }
}

/// The rows of a column-major grid of candidate lists.
pub open spec fn transposed_candidates(g: Seq<Seq<Seq<usize>>>) -> Seq<Seq<Seq<usize>>> {
    Seq::new(candidates_height(g), |y: int| Seq::new(g.len(), |x: int| g[x][y]))
}

/// The largest number of candidates any cell holds in one row.
pub open spec fn row_max_len(row: Seq<Seq<usize>>) -> int
    decreases row.len(),
{
    if row.len() == 0 {
        0
    } else {
        let rest = row_max_len(row.drop_last());
        if row.last().len() as int > rest {
            row.last().len() as int
        } else {
            rest
        }
    }
}

/// The largest number of candidates any cell holds in the grid.
pub open spec fn grid_max_len(g: Seq<Seq<Seq<usize>>>) -> int
    decreases g.len(),
{
    if g.len() == 0 {
        0
    } else {
        let rest = grid_max_len(g.drop_last());
        if row_max_len(g.last()) > rest {
            row_max_len(g.last())
        } else {
            rest
        }
    }
}

/// A sorted candidate list padded with spaces up to the widest cell.
pub open spec fn padded(s: Seq<char>, n: int) -> Seq<char> {
    Seq::new(
        if n >= 0 {
            n as nat
        } else {
            0
        },
        |i: int|
            if i < s.len() {
                s[i]
            } else {
                ' '
            },
    )
}

/// The symbols a cell's candidates map to, in candidate order.
pub open spec fn mapped_chars(cell: Seq<usize>, map: Seq<(usize, char)>) -> Seq<char> {
    Seq::new(cell.len(), |k: int| lookup_char(map, cell[k]))
}

/// The text one work-in-progress cell renders to: its candidates'
/// symbols, sorted and padded, in parentheses.
pub open spec fn wip_cell_text(cell: Seq<usize>, map: Seq<(usize, char)>, max_vals: int) -> Seq<
    char,
> {
    seq!['('] + padded(chars_sort(mapped_chars(cell, map)), max_vals) + seq![')']
}

/// The text one row of work-in-progress cells renders to.
pub open spec fn wip_row_text(
    row: Seq<Seq<usize>>,
    map: Seq<(usize, char)>,
    max_vals: int,
) -> Seq<char>
    decreases row.len(),
{
    if row.len() == 0 {
        Seq::empty()
    } else {
        wip_row_text(row.drop_last(), map, max_vals) + wip_cell_text(row.last(), map, max_vals)
    }
}

/// What `construct_wip_string` produces: each transposed row on its own
/// line, every line starting on a line break.
pub open spec fn wip_text(
    rows: Seq<Seq<Seq<usize>>>,
    map: Seq<(usize, char)>,
    max_vals: int,
) -> Seq<char>
    decreases rows.len(),
{
    if rows.len() == 0 {
        Seq::empty()
    } else {
        wip_text(rows.drop_last(), map, max_vals) + seq!['\n'] + wip_row_text(
            rows.last(),
            map,
            max_vals,
        )
    }
}

/// Renders a not-necessarily-collapsed grid of candidate lists into text:
/// per cell, the sorted symbols of its remaining candidates in
/// parentheses, padded to the widest cell; each sample row starts on its
/// own line.
#[verifier::rlimit(100)]
pub fn construct_wip_string(input: Vec<Vec<Vec<usize>>>, source_map: &Vec<(usize, char)>) -> (r:
    String)
    requires
        input@.len() > 0,
        forall|x: int|
            0 <= x < input@.len() ==> (#[trigger] input@[x])@.len() == input@[0]@.len(),
        forall|x: int, y: int, k: int|
            0 <= x < input@.len() && 0 <= y < input@[x]@.len() && 0 <= k < input@[x]@[y]@.len()
                ==> has_id(source_map@, #[trigger] input@[x]@[y]@[k]),
    ensures
        r@ == wip_text(
            transposed_candidates(candidates_view(input)),
            source_map@,
            grid_max_len(candidates_view(input)),
        ),
{
    let ghost g = candidates_view(input);
    let ghost rows = transposed_candidates(g);
    let width = input.len();
    let height = input[0].len();
    proof {
        assert(g.len() == width);
        assert(g[0] == input@[0]@.map(|j: int, cell: Vec<usize>| cell@));
        assert(candidates_height(g) == height);
    }

    let mut max_vals_in_pos: usize = 0;
    proof {
        assert(g.take(0) =~= Seq::<Seq<Seq<usize>>>::empty());
    }
    for x in 0..width
        invariant
            g == candidates_view(input),
            width == input@.len(),
            height == input@[0]@.len(),
            forall|x2: int|
                0 <= x2 < input@.len() ==> (#[trigger] input@[x2])@.len() == input@[0]@.len(),
            max_vals_in_pos as int == grid_max_len(g.take(x as int)),
    {
        proof {
            assert(g[x as int] == input@[x as int]@.map(|j: int, cell: Vec<usize>| cell@));
            assert(g[x as int].take(0) =~= Seq::<Seq<usize>>::empty());
        }
        for y in 0..height
            invariant
                g == candidates_view(input),
                width == input@.len(),
                height == input@[0]@.len(),
                x < width,
                forall|x2: int|
                    0 <= x2 < input@.len() ==> (#[trigger] input@[x2])@.len() == input@[0]@.len(),
                g[x as int] == input@[x as int]@.map(|j: int, cell: Vec<usize>| cell@),
                max_vals_in_pos as int == if row_max_len(g[x as int].take(y as int))
                    > grid_max_len(g.take(x as int)) {
                    row_max_len(g[x as int].take(y as int))
                } else {
                    grid_max_len(g.take(x as int))
                },
        {
            proof {
                assert(g[x as int][y as int] == input@[x as int]@[y as int]@);
                assert(g[x as int].take(y + 1).drop_last() =~= g[x as int].take(y as int));
                assert(g[x as int].take(y + 1).last() == g[x as int][y as int]);
            }
            if input[x][y].len() > max_vals_in_pos {
                max_vals_in_pos = input[x][y].len();
            }
        }
        proof {
            assert(g[x as int].len() == height);
            assert(g[x as int].take(g[x as int].len() as int) =~= g[x as int]);
            assert(g.take(x + 1).drop_last() =~= g.take(x as int));
            assert(g.take(x + 1).last() == g[x as int]);
        }
    }
    proof {
        assert(g.take(g.len() as int) =~= g);
    }
    let ghost max_vals = grid_max_len(g);

    let mut output = String::new();

    for y in 0..height
        invariant
            g == candidates_view(input),
            rows == transposed_candidates(g),
            width == input@.len(),
            height == input@[0]@.len(),
            rows.len() == height,
            forall|x2: int|
                0 <= x2 < input@.len() ==> (#[trigger] input@[x2])@.len() == input@[0]@.len(),
            forall|x2: int, y2: int, k: int|
                0 <= x2 < input@.len() && 0 <= y2 < input@[x2]@.len() && 0 <= k
                    < input@[x2]@[y2]@.len() ==> has_id(source_map@, #[trigger] input@[x2]@[y2]@[k]),
            max_vals == grid_max_len(g),
            max_vals_in_pos as int == max_vals,
            output@ == wip_text(rows.take(y as int), source_map@, max_vals),
    {
        push_char(&mut output, '\n');
        let ghost row_start = output@;

        for x in 0..width
            invariant
                g == candidates_view(input),
                rows == transposed_candidates(g),
                width == input@.len(),
                height == input@[0]@.len(),
                rows.len() == height,
                y < height,
                forall|x2: int|
                    0 <= x2 < input@.len() ==> (#[trigger] input@[x2])@.len() == input@[0]@.len(),
                forall|x2: int, y2: int, k: int|
                    0 <= x2 < input@.len() && 0 <= y2 < input@[x2]@.len() && 0 <= k
                        < input@[x2]@[y2]@.len() ==> has_id(
                        source_map@,
                        #[trigger] input@[x2]@[y2]@[k],
                    ),
                max_vals == grid_max_len(g),
                max_vals_in_pos as int == max_vals,
                row_start == output@.take(row_start.len() as int),
                output@ == row_start + wip_row_text(
                    rows[y as int].take(x as int),
                    source_map@,
                    max_vals,
                ),
        {
            proof {
                assert(g[x as int] == input@[x as int]@.map(|j: int, cell: Vec<usize>| cell@));
                assert(g[x as int][y as int] == input@[x as int]@[y as int]@);
                assert(rows[y as int][x as int] == g[x as int][y as int]);
            }
            let cell = &input[x][y];
            let ghost cv = cell@;

            let mut mapped: Vec<char> = Vec::new();
            for k in 0..cell.len()
                invariant
                    cv == cell@,
                    x < width,
                    y < height,
                    width == input@.len(),
                    height == input@[0]@.len(),
                    forall|x2: int|
                        0 <= x2 < input@.len() ==> (#[trigger] input@[x2])@.len()
                            == input@[0]@.len(),
                    cell == &input@[x as int]@[y as int],
                    forall|x2: int, y2: int, k2: int|
                        0 <= x2 < input@.len() && 0 <= y2 < input@[x2]@.len() && 0 <= k2
                            < input@[x2]@[y2]@.len() ==> has_id(
                            source_map@,
                            #[trigger] input@[x2]@[y2]@[k2],
                        ),
                    mapped@ =~= mapped_chars(cv, source_map@).take(k as int),
            {
                proof {
                    assert(has_id(source_map@, input@[x as int]@[y as int]@[k as int]));
                }
                let c = lookup_exec(source_map, cell[k]);
                mapped.push(c);
                proof {
                    assert(mapped@ =~= mapped_chars(cv, source_map@).take(k + 1));
                }
            }
            proof {
                assert(mapped_chars(cv, source_map@).take(mapped_chars(cv, source_map@).len() as int)
                    =~= mapped_chars(cv, source_map@));
            }
            let sorted = sort_chars(mapped);

            push_char(&mut output, '(');
            let ghost cell_start = output@;
            for i in 0..max_vals_in_pos
                invariant
                    sorted@ == chars_sort(mapped_chars(cv, source_map@)),
                    max_vals == max_vals_in_pos as int,
                    cell_start == output@.take(cell_start.len() as int),
                    output@ == cell_start + padded(sorted@, max_vals).take(i as int),
            {
                proof {
                    assert(padded(sorted@, max_vals).take(i + 1) =~= padded(
                        sorted@,
                        max_vals,
                    ).take(i as int).push(padded(sorted@, max_vals)[i as int]));
                }
                if i < sorted.len() {
                    push_char(&mut output, sorted[i]);
                } else {
                    push_char(&mut output, ' ');
                }
                proof {
                    assert(output@ =~= cell_start + padded(sorted@, max_vals).take(i + 1));
                }
            }
            push_char(&mut output, ')');
            proof {
                assert(padded(sorted@, max_vals).take(max_vals) =~= padded(sorted@, max_vals));
                assert(rows[y as int].take(x + 1).drop_last() =~= rows[y as int].take(x as int));
                assert(rows[y as int].take(x + 1).last() == rows[y as int][x as int]);
                assert(output@ =~= row_start + wip_row_text(
                    rows[y as int].take(x + 1),
                    source_map@,
                    max_vals,
                ));
            }
        }
        proof {
            assert(rows[y as int].take(rows[y as int].len() as int) =~= rows[y as int]);
            assert(rows.take(y + 1).drop_last() =~= rows.take(y as int));
            assert(rows.take(y + 1).last() == rows[y as int]);
            assert(output@ =~= wip_text(rows.take(y + 1), source_map@, max_vals));
        }
    }
    proof {
        assert(rows.take(rows.len() as int) =~= rows);
    }
    output
}

/// Convert string input into a usable symbol-id sample: a column-major
/// grid of first-occurrence ids, and the table relating each id to its
/// character. Whitespace is skipped unless `use_whitespace` keeps it.
pub fn deconstruct_string(input: &String, use_whitespace: bool) -> (r: (
    Vec<Vec<usize>>,
    Vec<(usize, char)>,
))
    ensures
        crate::helpers::grid_view(r.0) == deconstruct_grid(input@, use_whitespace),
        r.1@ == deconstruct_map(input@, use_whitespace),
{
    let chars = chars_of(input.as_str());
    deconstruct_core(&chars, use_whitespace)
}

} // verus!
