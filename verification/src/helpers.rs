//! Grid geometry utilities: dimension queries, overlapping sub-rectangle
//! extraction, orthogonal-neighbour computation and index removal helpers.

use vstd::prelude::*;

verus! {

/// A pair of grid coordinates (or extents), `x` horizontal and `y` vertical.
#[derive(Clone, Copy, Debug, PartialEq, Eq, Structural)]
pub struct Vector2 {
    pub x: usize,
    pub y: usize,
}

impl Vector2 {
    pub fn new(x: usize, y: usize) -> (v: Vector2)
        ensures
            v.x == x,
            v.y == y,
    {
        Vector2 { x, y }
    }
}

/// The view of a grid as a sequence of columns, each a sequence of cells.
pub open spec fn grid_view(g: Vec<Vec<usize>>) -> Seq<Seq<usize>> {
    g@.map(|i: int, row: Vec<usize>| row@)
}

/// A grid is rectangular when all its columns have the same length.
pub open spec fn is_rectangular(g: Seq<Seq<usize>>) -> bool {
    forall|i: int| 0 <= i < g.len() ==> #[trigger] g[i].len() == grid_height(g)
}

/// The height of a grid: the length of its first column, or zero when empty.
pub open spec fn grid_height(g: Seq<Seq<usize>>) -> nat {
    if g.len() == 0 {
        0
    } else {
        g[0].len()
    }
}

/// This function finds the width and height of the given 2D array.
pub fn dimensions_of(input: &Vec<Vec<usize>>) -> (size: Vector2)
    ensures
        size.x == input@.len(),
        size.y == grid_height(grid_view(*input)),
{
    let y: usize = if input.len() > 0 {
        input[0].len()
    } else {
        0
    };
    Vector2::new(input.len(), y)
}

/// The cells of `input` that were tagged with column `x`, in input order.
pub open spec fn column_of(input: Seq<(usize, Vector2)>, x: int) -> Seq<usize>
    decreases input.len(),
{
    if input.len() == 0 {
        Seq::empty()
    } else if input.last().1.x == x {
        column_of(input.drop_last(), x).push(input.last().0)
    } else {
        column_of(input.drop_last(), x)
    }
}

/// Converts the given flat vector of value and `Vector2` pairs into a
/// 2-dimensional vector of just the values, grouping by the `x` coordinate.
pub fn arrayify(input: Vec<(usize, Vector2)>, size: &Vector2) -> (formatted: Vec<Vec<usize>>)
    requires
        forall|k: int| 0 <= k < input@.len() ==> (#[trigger] input@[k]).1.x < size.x,
    ensures
        formatted@.len() == size.x,
        forall|i: int| 0 <= i < size.x ==> (#[trigger] formatted@[i])@ == column_of(input@, i),
{
    let mut formatted: Vec<Vec<usize>> = Vec::new();

    for i in 0..size.x
        invariant
            formatted@.len() == i,
            forall|j: int| 0 <= j < i ==> (#[trigger] formatted@[j])@ == Seq::<usize>::empty(),
    {
        formatted.push(vec![]);
    }

    assert(forall|j: int| 0 <= j < size.x ==>
        (#[trigger] formatted@[j])@ == column_of(input@.take(0), j));

    for k in 0..input.len()
        invariant
            formatted@.len() == size.x,
            forall|n: int| 0 <= n < input@.len() ==> (#[trigger] input@[n]).1.x < size.x,
            forall|j: int| 0 <= j < size.x ==>
                (#[trigger] formatted@[j])@ == column_of(input@.take(k as int), j),
    {
        let (value, loc) = input[k];
        let mut row: Vec<usize> = formatted.remove(loc.x);
        row.push(value);
        formatted.insert(loc.x, row);
        proof {
            assert(input@.take(k + 1).drop_last() =~= input@.take(k as int));
            assert(input@.take(k + 1).last() == input@[k as int]);
        }
    }
    proof {
        assert(input@.take(input@.len() as int) =~= input@);
    }

    formatted
}

/// Holds when `a` can be obtained from `b` by deleting elements, keeping order.
pub open spec fn is_subsequence<T>(a: Seq<T>, b: Seq<T>) -> bool
    decreases b.len(),
{
    if a.len() == 0 {
        true
    } else if b.len() == 0 {
        false
    } else if a.last() == b.last() {
        is_subsequence(a.drop_last(), b.drop_last())
    } else {
        is_subsequence(a, b.drop_last())
    }
}

pub proof fn lemma_subsequence_refl<T>(a: Seq<T>)
    ensures
        is_subsequence(a, a),
    decreases a.len(),
{
    if a.len() > 0 {
        lemma_subsequence_refl(a.drop_last());
    }
}

pub proof fn lemma_subsequence_len<T>(a: Seq<T>, b: Seq<T>)
    requires
        is_subsequence(a, b),
    ensures
        a.len() <= b.len(),
    decreases b.len(),
{
    if a.len() > 0 {
        if a.last() == b.last() {
            lemma_subsequence_len(a.drop_last(), b.drop_last());
        } else {
            lemma_subsequence_len(a, b.drop_last());
        }
    }
}

/// A subsequence stays one after dropping its own last element.
pub proof fn lemma_subsequence_shrink<T>(a: Seq<T>, b: Seq<T>)
    requires
        is_subsequence(a, b),
        a.len() > 0,
    ensures
        is_subsequence(a.drop_last(), b),
    decreases b.len(),
{
    let a2 = a.drop_last();
    if a.last() == b.last() {
        if a2.len() > 0 {
            if a2.last() == b.last() {
                lemma_subsequence_shrink(a2, b.drop_last());
                assert(a2.drop_last() =~= a.drop_last().drop_last());
            }
        }
    } else {
        lemma_subsequence_shrink(a, b.drop_last());
        if a2.len() > 0 && a2.last() == b.last() {
            lemma_subsequence_shrink(a2, b.drop_last());
        }
    }
}

/// A sequence stays a subsequence when the longer one grows by one on the right.
pub proof fn lemma_subsequence_push<T>(a: Seq<T>, b: Seq<T>, z: T)
    requires
        is_subsequence(a, b),
    ensures
        is_subsequence(a, b.push(z)),
{
    assert(b.push(z).drop_last() =~= b);
    if a.len() > 0 && a.last() == z {
        lemma_subsequence_shrink(a, b);
    }
}

/// A sequence stays a subsequence when the longer one grows on the right.
pub proof fn lemma_subsequence_extend<T>(a: Seq<T>, b: Seq<T>, c: Seq<T>)
    requires
        is_subsequence(a, b),
    ensures
        is_subsequence(a, b + c),
    decreases c.len(),
{
    if c.len() == 0 {
        assert(b + c =~= b);
    } else {
        lemma_subsequence_extend(a, b, c.drop_last());
        lemma_subsequence_push(a, b + c.drop_last(), c.last());
        assert((b + c.drop_last()).push(c.last()) =~= b + c);
    }
}

/// Removing one index of a sequence leaves a subsequence.
pub proof fn lemma_remove_is_subsequence<T>(s: Seq<T>, i: int)
    requires
        0 <= i < s.len(),
    ensures
        is_subsequence(s.remove(i), s),
    decreases s.len(),
{
    if i == s.len() - 1 {
        assert(s.remove(i) =~= s.drop_last());
        lemma_subsequence_refl(s);
        lemma_subsequence_shrink(s, s);
    } else {
        let r = s.remove(i);
        assert(r.last() == s.last());
        lemma_remove_is_subsequence(s.drop_last(), i);
        assert(r.drop_last() =~= s.drop_last().remove(i));
        assert(is_subsequence(r.drop_last(), s.drop_last()));
    }
}

pub proof fn lemma_subsequence_trans<T>(a: Seq<T>, b: Seq<T>, c: Seq<T>)
    requires
        is_subsequence(a, b),
        is_subsequence(b, c),
    ensures
        is_subsequence(a, c),
    decreases c.len(),
{
    lemma_subsequence_len(a, b);
    lemma_subsequence_len(b, c);
    if a.len() == 0 {
    } else if b.len() == 0 {
    } else if b.last() == c.last() {
        if a.last() == b.last() {
            lemma_subsequence_trans(a.drop_last(), b.drop_last(), c.drop_last());
        } else {
            lemma_subsequence_trans(a, b.drop_last(), c.drop_last());
            lemma_subsequence_extend(a, c.drop_last(), seq![c.last()]);
            assert(c.drop_last() + seq![c.last()] =~= c);
        }
    } else {
        lemma_subsequence_trans(a, b, c.drop_last());
        lemma_subsequence_extend(a, c.drop_last(), seq![c.last()]);
        assert(c.drop_last() + seq![c.last()] =~= c);
    }
}

/// A single member of a sequence, on its own, is a subsequence of it.
pub proof fn lemma_singleton_subsequence<T>(s: Seq<T>, k: int)
    requires
        0 <= k < s.len(),
    ensures
        is_subsequence(seq![s[k]], s),
    decreases s.len(),
{
    if k == s.len() - 1 {
        assert(seq![s[k]].last() == s.last());
        assert(seq![s[k]].drop_last() =~= Seq::<T>::empty());
        assert(is_subsequence(Seq::<T>::empty(), s.drop_last()));
    } else {
        lemma_singleton_subsequence(s.drop_last(), k);
        assert(seq![s.drop_last()[k]] =~= seq![s[k]]);
        if seq![s[k]].last() == s.last() {
            assert(seq![s[k]].drop_last() =~= Seq::<T>::empty());
            assert(is_subsequence(Seq::<T>::empty(), s.drop_last()));
        }
    }
}

/// The result of removing, left to right, the elements of `s` that stand at
/// `idxs[0] - off`, then `idxs[1] - (off + 1)`, and so on.
pub open spec fn remove_seq<T>(s: Seq<T>, idxs: Seq<usize>, off: nat) -> Seq<T>
    decreases idxs.len(),
{
    if idxs.len() == 0 {
        s
    } else {
        remove_seq(s.remove(idxs[0] - off), idxs.drop_first(), off + 1)
    }
}

/// In a strictly ascending sequence, the entry at position `n` is at least `n`
/// more than the shift `off` it started from.
pub proof fn lemma_ascending_lower_bound(idxs: Seq<usize>)
    requires
        forall|k: int| 0 <= k < idxs.len() - 1 ==> #[trigger] idxs[k] < idxs[k + 1],
    ensures
        forall|n: int| 0 <= n < idxs.len() ==> n <= #[trigger] idxs[n],
    decreases idxs.len(),
{
    if idxs.len() > 0 {
        let front = idxs.drop_last();
        lemma_ascending_lower_bound(front);
        assert(forall|n: int| 0 <= n < front.len() ==> #[trigger] idxs[n] == front[n]);
        if idxs.len() >= 2 {
            assert(idxs[idxs.len() - 2] < idxs[idxs.len() - 1]);
        }
    }
}

pub proof fn lemma_remove_seq_len<T>(s: Seq<T>, idxs: Seq<usize>, off: nat)
    requires
        forall|k: int| 0 <= k < idxs.len() ==> off + k <= #[trigger] idxs[k] < s.len() + off,
        forall|k: int| 0 <= k < idxs.len() - 1 ==> #[trigger] idxs[k] < idxs[k + 1],
    ensures
        remove_seq(s, idxs, off).len() == s.len() - idxs.len(),
        is_subsequence(remove_seq(s, idxs, off), s),
    decreases idxs.len(),
{
    if idxs.len() == 0 {
        lemma_subsequence_refl(s);
    } else {
        let s2 = s.remove(idxs[0] - off);
        assert(idxs.drop_first() =~= idxs.skip(1));
        assert(forall|k: int| 0 <= k < idxs.drop_first().len() ==>
            #[trigger] idxs.drop_first()[k] == idxs[k + 1]);
        lemma_remove_seq_len(s2, idxs.drop_first(), off + 1);
        lemma_remove_is_subsequence(s, idxs[0] - off);
        lemma_subsequence_trans(remove_seq(s, idxs, off), s2, s);
    }
}

/// Removes from `vec` the elements at the given strictly ascending indexes,
/// in a single pass without index drift.
pub fn remove_indexes<T>(vec: &mut Vec<T>, indexes: &Vec<usize>)
    requires
        forall|k: int| 0 <= k < indexes@.len() ==> #[trigger] indexes@[k] < old(vec)@.len(),
        forall|k: int| 0 <= k < indexes@.len() - 1 ==> #[trigger] indexes@[k] < indexes@[k + 1],
    ensures
        final(vec)@ == remove_seq(old(vec)@, indexes@, 0),
        final(vec)@.len() == old(vec)@.len() - indexes@.len(),
        is_subsequence(final(vec)@, old(vec)@),
{
    proof {
        lemma_ascending_lower_bound(indexes@);
        lemma_remove_seq_len(old(vec)@, indexes@, 0);
        assert(indexes@.skip(0) =~= indexes@);
    }
    let mut removed: usize = 0;

    for k in 0..indexes.len()
        invariant
            removed == k,
            forall|n: int| 0 <= n < indexes@.len() ==> n <= #[trigger] indexes@[n] < old(vec)@.len(),
            forall|n: int| 0 <= n < indexes@.len() - 1 ==> #[trigger] indexes@[n] < indexes@[n + 1],
            vec@.len() == old(vec)@.len() - k,
            remove_seq(vec@, indexes@.skip(k as int), k as nat) == remove_seq(old(vec)@, indexes@, 0),
    {
        proof {
            assert(indexes@.skip(k as int)[0] == indexes@[k as int]);
            assert(indexes@.skip(k as int).drop_first() =~= indexes@.skip(k + 1));
        }
        vec.remove(indexes[k] - removed);
        removed = removed + 1;
    }
    proof {
        assert(indexes@.skip(indexes@.len() as int) =~= Seq::<usize>::empty());
    }
}

/// The direction from `origin` towards `point`: 0 is up (greater `y`),
/// 1 right, 2 down, 3 left, with `x` taking precedence over `y`.
pub open spec fn orthog_direction_spec(origin: Vector2, point: Vector2) -> u8 {
    if point.x < origin.x {
        3
    } else if point.x > origin.x {
        1
    } else if point.y < origin.y {
        2
    } else {
        0
    }
}

/// Classifies `point` relative to `origin` into one of the 4 cardinal
/// directions used by `Rule`. A point equal to its origin reads as up.
pub fn orthog_direction(origin: &Vector2, point: &Vector2) -> (d: u8)
    ensures
        d == orthog_direction_spec(*origin, *point),
{
    if point.x < origin.x {
        3
    } else if point.x > origin.x {
        1
    } else if point.y < origin.y {
        2
    } else {
        0
    }
}

/// The 4 orthogonal neighbours of `origin` that have non-negative
/// coordinates, in the order down, right, up, left.
pub open spec fn noneg_neighbours_spec(o: Vector2) -> Seq<Vector2> {
    let down: Seq<Vector2> = if o.y > 0 {
        seq![Vector2 { x: o.x, y: (o.y - 1) as usize }]
    } else {
        Seq::empty()
    };
    let left: Seq<Vector2> = if o.x > 0 {
        seq![Vector2 { x: (o.x - 1) as usize, y: o.y }]
    } else {
        Seq::empty()
    };
    down + seq![Vector2 { x: (o.x + 1) as usize, y: o.y }]
        + seq![Vector2 { x: o.x, y: (o.y + 1) as usize }] + left
}

/// The orthogonal integer-grid neighbours of a point, filtered to those with
/// non-negative coordinates (no wraparound).
pub fn noneg_neighbours(origin: &Vector2) -> (r: Vec<Vector2>)
    requires
        origin.x < usize::MAX,
        origin.y < usize::MAX,
    ensures
        r@ == noneg_neighbours_spec(*origin),
{
    let mut val: Vec<Vector2> = Vec::new();
    if origin.y > 0 {
        val.push(Vector2::new(origin.x, origin.y - 1));
    }
    val.push(Vector2::new(origin.x + 1, origin.y));
    val.push(Vector2::new(origin.x, origin.y + 1));
    if origin.x > 0 {
        val.push(Vector2::new(origin.x - 1, origin.y));
    }
    proof {
        assert(val@ =~= noneg_neighbours_spec(*origin));
    }
    val
}

/// Swaps the two axes of a rectangular grid: column-major becomes row-major.
pub fn xy_swap(input: Vec<Vec<usize>>) -> (r: Vec<Vec<usize>>)
    requires
        input@.len() > 0,
        is_rectangular(grid_view(input)),
    ensures
        r@.len() == grid_height(grid_view(input)),
        forall|i: int| 0 <= i < r@.len() ==> (#[trigger] r@[i])@.len() == input@.len(),
        forall|i: int, j: int|
            0 <= i < r@.len() && 0 <= j < input@.len() ==> r@[i]@[j] == #[trigger] input@[j]@[i],
{
    let rlen = input.len();
    let clen = input[0].len();
    let mut list: Vec<Vec<usize>> = Vec::new();

    for c in 0..clen
        invariant
            rlen == input@.len(),
            clen == grid_height(grid_view(input)),
            input@.len() > 0,
            is_rectangular(grid_view(input)),
            list@.len() == c,
            forall|i: int| 0 <= i < c ==> (#[trigger] list@[i])@.len() == rlen,
            forall|i: int, j: int|
                0 <= i < c && 0 <= j < rlen ==> list@[i]@[j] == #[trigger] input@[j]@[i],
    {
        let mut row: Vec<usize> = Vec::new();
        for r in 0..rlen
            invariant
                rlen == input@.len(),
                clen == grid_height(grid_view(input)),
                c < clen,
                is_rectangular(grid_view(input)),
                row@.len() == r,
                forall|j: int| 0 <= j < r ==> row@[j] == #[trigger] input@[j]@[c as int],
        {
            assert(grid_view(input)[r as int].len() == clen);
            row.push(input[r][c]);
        }
        list.push(row);
    }
    list
}

/// Swaps the two axes of a rectangular grid (the older name of `xy_swap`,
/// kept for its callers).
pub fn swap_layers(input: Vec<Vec<usize>>) -> (r: Vec<Vec<usize>>)
    requires
        input@.len() > 0,
        is_rectangular(grid_view(input)),
    ensures
        r@.len() == grid_height(grid_view(input)),
        forall|i: int| 0 <= i < r@.len() ==> (#[trigger] r@[i])@.len() == input@.len(),
        forall|i: int, j: int|
            0 <= i < r@.len() && 0 <= j < input@.len() ==> r@[i]@[j] == #[trigger] input@[j]@[i],
{
    xy_swap(input)
}

/// Copies a column of cells.
pub(crate) fn copy_row(v: &Vec<usize>) -> (r: Vec<usize>)
    ensures
        r@ == v@,
{
    let mut r: Vec<usize> = Vec::new();
    for i in 0..v.len()
        invariant
            r@ =~= v@.take(i as int),
    {
        r.push(v[i]);
    }
    proof {
        assert(v@.take(v@.len() as int) =~= v@);
    }
    r
}

/// Copies a whole grid of cells.
pub(crate) fn copy_grid(g: &Vec<Vec<usize>>) -> (r: Vec<Vec<usize>>)
    ensures
        grid_view(r) == grid_view(*g),
        r@.len() == g@.len(),
{
    let mut r: Vec<Vec<usize>> = Vec::new();
    for i in 0..g.len()
        invariant
            r@.len() == i,
            forall|j: int| 0 <= j < i ==> (#[trigger] r@[j])@ == g@[j]@,
    {
        r.push(copy_row(&g[i]));
    }
    proof {
        assert(grid_view(r) =~= grid_view(*g));
    }
    r
}

/// One single shift of the grid: every cell takes the value of its
/// predecessor along the enabled axes, wrapping at the border. The row
/// wrap uses the grid's height and the column wrap its width, as the
/// dimensions are read.
pub open spec fn roll_once(g: Seq<Seq<usize>>, x_axis: bool, y_axis: bool) -> Seq<Seq<usize>> {
    Seq::new(
        g.len(),
        |i: int|
            Seq::new(
                g[i].len(),
                |j: int|
                    {
                        let si: int = if y_axis {
                            if i == 0 {
                                grid_height(g) - 1
                            } else {
                                i - 1
                            }
                        } else {
                            i
                        };
                        let sj: int = if x_axis {
                            if j == 0 {
                                g.len() - 1
                            } else {
                                j - 1
                            }
                        } else {
                            j
                        };
                        g[si][sj]
                    },
            ),
    )
}

/// The grid after `shifts` single shifts.
pub open spec fn roll_n(g: Seq<Seq<usize>>, shifts: nat, x_axis: bool, y_axis: bool) -> Seq<
    Seq<usize>,
>
    decreases shifts,
{
    if shifts == 0 {
        g
    } else {
        roll_once(roll_n(g, (shifts - 1) as nat, x_axis, y_axis), x_axis, y_axis)
    }
}

/// Shifts the given grid by the number of times specified along the
/// different axes: `x_axis` shifts along the rows and `y_axis` along the
/// columns.
pub fn roll(input: &mut Vec<Vec<usize>>, shifts: usize, x_axis: bool, y_axis: bool)
    requires
        is_rectangular(grid_view(*old(input))),
        x_axis && grid_height(grid_view(*old(input))) > 0 ==> old(input)@.len() <= grid_height(
            grid_view(*old(input)),
        ),
        y_axis && grid_height(grid_view(*old(input))) > 0 ==> grid_height(grid_view(*old(input)))
            <= old(input)@.len(),
    ensures
        grid_view(*final(input)) == roll_n(grid_view(*old(input)), shifts as nat, x_axis, y_axis),
        final(input)@.len() == old(input)@.len(),
        is_rectangular(grid_view(*final(input))),
        grid_height(grid_view(*final(input))) == grid_height(grid_view(*old(input))),
{
    let width = input.len();
    let height = if width > 0 {
        input[0].len()
    } else {
        0
    };

    for s in 0..shifts
        invariant
            grid_view(*input) == roll_n(grid_view(*old(input)), s as nat, x_axis, y_axis),
            input@.len() == width,
            width == old(input)@.len(),
            height == grid_height(grid_view(*old(input))),
            grid_height(grid_view(*input)) == height,
            is_rectangular(grid_view(*input)),
            x_axis && height > 0 ==> width <= height,
            y_axis && height > 0 ==> height <= width,
    {
        let input_copy = copy_grid(input);
        let mut rolled: Vec<Vec<usize>> = Vec::new();

        for i in 0..width
            invariant
                input_copy@.len() == width,
                grid_view(input_copy) == grid_view(*input),
                grid_height(grid_view(input_copy)) == height,
                is_rectangular(grid_view(input_copy)),
                x_axis && height > 0 ==> width <= height,
                y_axis && height > 0 ==> height <= width,
                rolled@.len() == i,
                forall|n: int| 0 <= n < i ==>
                    (#[trigger] rolled@[n])@ == roll_once(grid_view(input_copy), x_axis, y_axis)[n],
        {
            let row_len = input_copy[i].len();
            assert(grid_view(input_copy)[i as int] == input_copy@[i as int]@);
            assert(row_len == height);
            let mut row: Vec<usize> = Vec::new();

            for j in 0..row_len
                invariant
                    input_copy@.len() == width,
                    grid_height(grid_view(input_copy)) == height,
                    is_rectangular(grid_view(input_copy)),
                    x_axis && height > 0 ==> width <= height,
                    y_axis && height > 0 ==> height <= width,
                    i < width,
                    row_len == height,
                    row@.len() == j,
                    forall|n: int| 0 <= n < j ==>
                        row@[n] == roll_once(grid_view(input_copy), x_axis, y_axis)[i as int][n],
            {
                let si: usize = if y_axis {
                    if i == 0 {
                        height - 1
                    } else {
                        i - 1
                    }
                } else {
                    i
                };
                let sj: usize = if x_axis {
                    if j == 0 {
                        width - 1
                    } else {
                        j - 1
                    }
                } else {
                    j
                };
                assert(grid_view(input_copy)[si as int].len() == height);
                row.push(input_copy[si][sj]);
            }
            rolled.push(row);
        }
        proof {
            assert(grid_view(rolled) =~= roll_once(grid_view(input_copy), x_axis, y_axis));
        }
        *input = rolled;
    }
}

/// The axis pair used by the shift set: rows only, columns only, then both.
pub open spec fn shift_axes(a: int) -> (bool, bool) {
    if a == 0 {
        (true, false)
    } else if a == 1 {
        (false, true)
    } else {
        (true, true)
    }
}

/// Returns all the possible shifted possibilities of the given 2D array:
/// for each axis pair, every iterate of a whole-grid shift.
pub fn all_possible_shifts(input: Vec<Vec<usize>>) -> (sets: Vec<Vec<Vec<usize>>>)
    requires
        is_rectangular(grid_view(input)),
        input@.len() > 0 && grid_height(grid_view(input)) > 0 ==> input@.len() == grid_height(
            grid_view(input),
        ),
    ensures
        input@.len() == 0 || grid_height(grid_view(input)) == 0 ==> sets@.len() == 0,
        input@.len() > 0 && grid_height(grid_view(input)) > 0 ==> {
            &&& sets@.len() == 3 * input@.len()
            &&& forall|a: int, sc: int|
                0 <= a < 3 && 0 <= sc < input@.len() ==> grid_view(
                    #[trigger] sets@[a * input@.len() + sc],
                ) == roll_n(
                    grid_view(input),
                    ((sc + 1) * input@.len()) as nat,
                    shift_axes(a).0,
                    shift_axes(a).1,
                )
        },
{
    if input.len() == 0 || input[0].len() == 0 {
        let empty: Vec<Vec<Vec<usize>>> = Vec::new();
        return empty;
    }

    let mut sets: Vec<Vec<Vec<usize>>> = Vec::new();
    let shifts = input.len();
    let ghost g = grid_view(input);
    proof {
        assert(0 * shifts == 0) by (nonlinear_arith);
    }

    for a in 0..3usize
        invariant
            is_rectangular(g),
            g == grid_view(input),
            shifts == input@.len(),
            shifts > 0,
            grid_height(g) == shifts,
            sets@.len() == a * shifts,
            forall|b: int, sc: int|
                0 <= b < a && 0 <= sc < shifts ==> grid_view(#[trigger] sets@[b * shifts + sc])
                    == roll_n(g, ((sc + 1) * shifts) as nat, shift_axes(b).0, shift_axes(b).1),
    {
        let x_axis = a == 0 || a == 2;
        let y_axis = a == 1 || a == 2;
        assert((x_axis, y_axis) == shift_axes(a as int));

        for shift_count in 0..shifts
            invariant
                is_rectangular(g),
                g == grid_view(input),
                shifts == input@.len(),
                shifts > 0,
                grid_height(g) == shifts,
                a < 3,
                (x_axis, y_axis) == shift_axes(a as int),
                sets@.len() == a * shifts + shift_count,
                forall|b: int, sc: int|
                    0 <= b < a && 0 <= sc < shifts ==> grid_view(#[trigger] sets@[b * shifts + sc])
                        == roll_n(g, ((sc + 1) * shifts) as nat, shift_axes(b).0, shift_axes(b).1),
                forall|sc: int|
                    0 <= sc < shift_count ==> grid_view(
                        #[trigger] sets@[a as int * shifts + sc],
                    ) == roll_n(g, ((sc + 1) * shifts) as nat, x_axis, y_axis),
        {
            let mut new_set = copy_grid(&input);
            proof {
                assert(0 * shifts == 0) by (nonlinear_arith);
            }

            for r in 0..(shift_count + 1)
                invariant
                    is_rectangular(grid_view(new_set)),
                    grid_height(grid_view(new_set)) == shifts,
                    new_set@.len() == shifts,
                    shifts > 0,
                    grid_view(new_set) == roll_n(g, (r * shifts) as nat, x_axis, y_axis),
                    is_rectangular(g),
                    grid_height(g) == shifts,
                    g.len() == shifts,
            {
                proof {
                    lemma_roll_n_add(g, (r * shifts) as nat, shifts as nat, x_axis, y_axis);
                }
                roll(&mut new_set, shifts, x_axis, y_axis);
                proof {
                    assert((r as int + 1) * shifts == r as int * shifts + shifts)
                        by (nonlinear_arith);
                }
            }

            sets.push(new_set);
            proof {
                assert forall|b: int, sc2: int|
                    0 <= b < a && 0 <= sc2 < shifts implies grid_view(
                    #[trigger] sets@[b * shifts + sc2],
                ) == roll_n(
                    g,
                    ((sc2 + 1) * shifts) as nat,
                    shift_axes(b).0,
                    shift_axes(b).1,
                ) by {
                    lemma_mul_index_bound(b, a as int, sc2, shifts as int);
                }
            }
        }
        proof {
            assert((a as int + 1) * shifts == a as int * shifts + shifts) by (nonlinear_arith);
            assert forall|b: int, sc: int|
                0 <= b < a as int + 1 && 0 <= sc < shifts implies grid_view(
                #[trigger] sets@[b * shifts + sc],
            ) == roll_n(
                g,
                ((sc + 1) * shifts) as nat,
                shift_axes(b).0,
                shift_axes(b).1,
            ) by {
                lemma_mul_index_bound(b, a as int + 1, sc, shifts as int);
            }
        }
    }
    sets
}

/// With `0 <= i < n * d`, the quotient `i / d` lies below `n`.
pub proof fn lemma_div_bound(i: int, d: int, n: int)
    requires
        0 <= i < n * d,
        n >= 0,
    ensures
        d > 0,
        0 <= i / d < n,
{
    assert(d > 0) by (nonlinear_arith)
        requires
            0 <= i < n * d,
            n >= 0,
    ;
    vstd::arithmetic::div_mod::lemma_fundamental_div_mod(i, d);
    vstd::arithmetic::div_mod::lemma_mod_bound(i, d);
    assert(0 <= i / d && i / d < n) by (nonlinear_arith)
        requires
            i == d * (i / d) + i % d,
            0 <= i % d < d,
            0 <= i < n * d,
            d > 0,
    ;
}

/// With `0 <= b < a` and `0 <= sc < s`, the flat index `b * s + sc` lies
/// below `a * s`.
proof fn lemma_mul_index_bound(b: int, a: int, sc: int, s: int)
    by (nonlinear_arith)
    requires
        0 <= b < a,
        0 <= sc < s,
    ensures
        0 <= b * s + sc < a * s,
{
}

/// Shifting `m` times and then `n` times is shifting `m + n` times.
proof fn lemma_roll_n_add(g: Seq<Seq<usize>>, m: nat, n: nat, x_axis: bool, y_axis: bool)
    ensures
        roll_n(roll_n(g, m, x_axis, y_axis), n, x_axis, y_axis) == roll_n(
            g,
            m + n,
            x_axis,
            y_axis,
        ),
    decreases n,
{
    if n > 0 {
        lemma_roll_n_add(g, m, (n - 1) as nat, x_axis, y_axis);
    }
}

/// Various modes for analyzing adjacencies at the border of a 2d array.
#[derive(PartialEq, Eq, Structural, Clone, Copy, Debug)]
pub enum BorderMode {
    /// Don't include border chunks.
    Exclude,
    /// Include border chunks and their neighbours.
    Clamp,
}

/// The 8 compass directions around a grid point.
#[derive(PartialEq, Eq, Structural, Clone, Copy, Debug)]
pub enum Direction {
    UpLeft,
    Up,
    UpRight,
    Right,
    DownRight,
    Down,
    DownLeft,
    Left,
}

/// Adjacency information and data about a given chunk: the chunk's own
/// contents and, for each of the 4 cardinal directions (up, right, down,
/// left), the contents of the neighbouring chunk if it lies in bounds.
#[derive(Debug, Clone, PartialEq)]
pub struct Adjacency {
    pub origin_content: Vec<Vec<usize>>,
    /// Holds values for the up, right, down and left neighbours, in that order.
    pub neighbours_content: Vec<Option<Vec<Vec<usize>>>>,
}

impl Adjacency {
    pub fn new(origin: Vec<Vec<usize>>) -> (a: Adjacency)
        ensures
            a.origin_content == origin,
            a.neighbours_content@ =~= seq![
                Option::<Vec<Vec<usize>>>::None,
                Option::<Vec<Vec<usize>>>::None,
                Option::<Vec<Vec<usize>>>::None,
                Option::<Vec<Vec<usize>>>::None,
            ],
    {
        Adjacency { origin_content: origin, neighbours_content: vec![None, None, None, None] }
    }
}

/// `x` placed before the first strictly greater id of the sorted sequence.
pub open spec fn ids_insert(s: Seq<usize>, x: usize) -> Seq<usize>
    decreases s.len(),
{
    if s.len() == 0 {
        seq![x]
    } else if s[0] > x {
        seq![x] + s
    } else {
        seq![s[0]] + ids_insert(s.drop_first(), x)
    }
}

/// An insertion sort of ids, ascending.
pub open spec fn ids_sort(s: Seq<usize>) -> Seq<usize>
    decreases s.len(),
{
    if s.len() == 0 {
        Seq::empty()
    } else {
        ids_insert(ids_sort(s.drop_last()), s.last())
    }
}

/// Removes every id equal to the one kept just before it.
pub open spec fn ids_dedup(s: Seq<usize>) -> Seq<usize>
    decreases s.len(),
{
    if s.len() == 0 {
        Seq::empty()
    } else {
        let rest = ids_dedup(s.drop_last());
        if rest.len() > 0 && rest.last() == s.last() {
            rest
        } else {
            rest.push(s.last())
        }
    }
}

proof fn lemma_ids_insert_at(s: Seq<usize>, x: usize, idx: int)
    requires
        0 <= idx <= s.len(),
        forall|n: int| 0 <= n < idx ==> #[trigger] s[n] <= x,
        idx < s.len() ==> s[idx] > x,
    ensures
        ids_insert(s, x) == s.insert(idx, x),
    decreases s.len(),
{
    if s.len() == 0 {
        assert(ids_insert(s, x) =~= s.insert(0, x));
    } else if idx == 0 {
        assert(ids_insert(s, x) =~= s.insert(0, x));
    } else {
        lemma_ids_insert_at(s.drop_first(), x, idx - 1);
        assert(seq![s[0]] + s.drop_first().insert(idx - 1, x) =~= s.insert(idx, x));
    }
}

/// Sorts a list of ids ascending.
pub(crate) fn sort_ids(v: Vec<usize>) -> (sorted: Vec<usize>)
    ensures
        sorted@ == ids_sort(v@),
{
    let mut sorted: Vec<usize> = Vec::new();
    proof {
        assert(v@.take(0) =~= Seq::<usize>::empty());
    }
    for k in 0..v.len()
        invariant
            sorted@ == ids_sort(v@.take(k as int)),
    {
        let x = v[k];
        let ghost sv = sorted@;
        let mut i: usize = 0;
        while i < sorted.len() && sorted[i] <= x
            invariant
                sv == sorted@,
                i <= sorted@.len(),
                forall|n: int| 0 <= n < i ==> #[trigger] sv[n] <= x,
            decreases sorted@.len() - i,
        {
            i = i + 1;
        }
        proof {
            lemma_ids_insert_at(sv, x, i as int);
        }
        sorted.insert(i, x);
        proof {
            assert(sorted@ =~= sv.insert(i as int, x));
            assert(v@.take(k + 1).drop_last() =~= v@.take(k as int));
            assert(v@.take(k + 1).last() == v@[k as int]);
        }
    }
    proof {
        assert(v@.take(v@.len() as int) =~= v@);
    }
    sorted
}

/// Removes adjacent duplicate ids.
pub(crate) fn dedup_ids(v: Vec<usize>) -> (deduped: Vec<usize>)
    ensures
        deduped@ == ids_dedup(v@),
{
    let mut deduped: Vec<usize> = Vec::new();
    proof {
        assert(v@.take(0) =~= Seq::<usize>::empty());
        assert(ids_dedup(v@.take(0)) =~= Seq::<usize>::empty());
    }
    for k in 0..v.len()
        invariant
            deduped@ == ids_dedup(v@.take(k as int)),
    {
        let x = v[k];
        let keep = deduped.len() == 0 || deduped[deduped.len() - 1] != x;
        proof {
            assert(v@.take(k + 1).drop_last() =~= v@.take(k as int));
            assert(v@.take(k + 1).last() == v@[k as int]);
        }
        if keep {
            deduped.push(x);
        }
    }
    proof {
        assert(v@.take(v@.len() as int) =~= v@);
    }
    deduped
}

/// The `w` by `h` window of `g` whose top-left cell is `(ox, oy)`.
pub open spec fn subgrid(g: Seq<Seq<usize>>, ox: int, oy: int, w: nat, h: nat) -> Seq<Seq<usize>> {
    Seq::new(w, |i: int| Seq::new(h, |j: int| g[ox + i][oy + j]))
}

/// Extracts the window of `input` at `(ox, oy)` of size `chunk`.
pub(crate) fn subgrid_exec(input: &Vec<Vec<usize>>, ox: usize, oy: usize, chunk: Vector2) -> (r: Vec<
    Vec<usize>,
>)
    requires
        is_rectangular(grid_view(*input)),
        ox + chunk.x <= input@.len(),
        oy + chunk.y <= grid_height(grid_view(*input)),
    ensures
        grid_view(r) == subgrid(grid_view(*input), ox as int, oy as int, chunk.x as nat, chunk.y as nat),
        r@.len() == chunk.x,
        forall|i: int| 0 <= i < r@.len() ==> (#[trigger] r@[i])@.len() == chunk.y,
{
    let ghost g = grid_view(*input);
    let size = dimensions_of(input);
    let mut r: Vec<Vec<usize>> = Vec::new();
    for i in 0..chunk.x
        invariant
            g == grid_view(*input),
            is_rectangular(g),
            g.len() == size.x,
            grid_height(g) == size.y,
            ox + chunk.x <= g.len(),
            oy + chunk.y <= grid_height(g),
            r@.len() == i,
            forall|n: int| 0 <= n < i ==>
                (#[trigger] r@[n])@ == subgrid(g, ox as int, oy as int, chunk.x as nat, chunk.y as nat)[n],
            forall|n: int| 0 <= n < i ==> (#[trigger] r@[n])@.len() == chunk.y,
    {
        let mut row: Vec<usize> = Vec::new();
        for j in 0..chunk.y
            invariant
                g == grid_view(*input),
                is_rectangular(g),
                g.len() == size.x,
                grid_height(g) == size.y,
                ox + chunk.x <= g.len(),
                oy + chunk.y <= grid_height(g),
                i < chunk.x,
                row@.len() == j,
                forall|n: int| 0 <= n < j ==> row@[n] == g[ox + i][oy + n],
        {
            assert(grid_view(*input)[ox + i] == input@[ox + i]@);
            assert(g[ox + i].len() == grid_height(g));
            row.push(input[ox + i][oy + j]);
        }
        r.push(row);
        proof {
            assert(r@[i as int]@ =~= subgrid(g, ox as int, oy as int, chunk.x as nat, chunk.y as nat)[i as int]);
        }
    }
    r
}

/// The origin of the neighbouring window in direction `i` (0 up, 1 right,
/// 2 down, 3 left), as a signed point: up adds `y`, right adds `x`.
pub open spec fn neighbour_origin(x: int, y: int, cw: int, ch: int, i: int) -> (int, int) {
    if i == 0 {
        (x, y + ch)
    } else if i == 1 {
        (x + cw, y)
    } else if i == 2 {
        (x, y - ch)
    } else {
        (x - cw, y)
    }
}

/// Whether the window at `(ox, oy)` lies fully inside a `w` by `h` grid.
pub open spec fn window_in_bounds(w: int, h: int, cw: int, ch: int, ox: int, oy: int) -> bool {
    &&& ox >= 0
    &&& oy >= 0
    &&& ox + cw <= w
    &&& oy + ch <= h
}

/// In `Exclude` mode a root is discarded when any of its 4 neighbouring
/// windows lies out of bounds.
pub open spec fn root_scrapped(w: int, h: int, cw: int, ch: int, x: int, y: int) -> bool {
    ||| !window_in_bounds(w, h, cw, ch, neighbour_origin(x, y, cw, ch, 0).0, neighbour_origin(x, y, cw, ch, 0).1)
    ||| !window_in_bounds(w, h, cw, ch, neighbour_origin(x, y, cw, ch, 1).0, neighbour_origin(x, y, cw, ch, 1).1)
    ||| !window_in_bounds(w, h, cw, ch, neighbour_origin(x, y, cw, ch, 2).0, neighbour_origin(x, y, cw, ch, 2).1)
    ||| !window_in_bounds(w, h, cw, ch, neighbour_origin(x, y, cw, ch, 3).0, neighbour_origin(x, y, cw, ch, 3).1)
}

pub open spec fn root_kept(
    mode: BorderMode,
    w: int,
    h: int,
    cw: int,
    ch: int,
    x: int,
    y: int,
) -> bool {
    mode == BorderMode::Clamp || !root_scrapped(w, h, cw, ch, x, y)
}

/// The kept roots of column `x` whose `y` lies below `y_end`, in order.
pub open spec fn kept_col_upto(
    mode: BorderMode,
    w: int,
    h: int,
    cw: int,
    ch: int,
    x: int,
    y_end: int,
) -> Seq<(int, int)>
    decreases y_end,
{
    if y_end <= 0 {
        Seq::empty()
    } else if root_kept(mode, w, h, cw, ch, x, y_end - 1) {
        kept_col_upto(mode, w, h, cw, ch, x, y_end - 1).push((x, y_end - 1))
    } else {
        kept_col_upto(mode, w, h, cw, ch, x, y_end - 1)
    }
}

/// The kept roots of all columns below `x_end`, column by column.
pub open spec fn kept_roots_upto(
    mode: BorderMode,
    w: int,
    h: int,
    cw: int,
    ch: int,
    ry: int,
    x_end: int,
) -> Seq<(int, int)>
    decreases x_end,
{
    if x_end <= 0 {
        Seq::empty()
    } else {
        kept_roots_upto(mode, w, h, cw, ch, ry, x_end - 1) + kept_col_upto(
            mode,
            w,
            h,
            cw,
            ch,
            x_end - 1,
            ry,
        )
    }
}

/// The kept roots of the whole extraction, in the order they are visited.
pub open spec fn kept_roots(g: Seq<Seq<usize>>, chunk: Vector2, mode: BorderMode) -> Seq<
    (int, int),
> {
    let rx: int = if g.len() >= chunk.x {
        g.len() - chunk.x + 1
    } else {
        0
    };
    let ry: int = if grid_height(g) >= chunk.y {
        grid_height(g) - chunk.y + 1
    } else {
        0
    };
    kept_roots_upto(mode, g.len() as int, grid_height(g) as int, chunk.x as int, chunk.y as int, ry, rx)
}

/// What one extracted `Adjacency` holds for the root at `(x, y)`: the root
/// window itself, and for each direction the neighbouring window exactly
/// when it lies fully in bounds.
pub open spec fn adjacency_matches(
    a: Adjacency,
    g: Seq<Seq<usize>>,
    cw: int,
    ch: int,
    x: int,
    y: int,
) -> bool {
    &&& grid_view(a.origin_content) == subgrid(g, x, y, cw as nat, ch as nat)
    &&& a.neighbours_content@.len() == 4
    &&& forall|i: int|
        0 <= i < 4 ==> {
            let (ox, oy) = neighbour_origin(x, y, cw, ch, i);
            if window_in_bounds(g.len() as int, grid_height(g) as int, cw, ch, ox, oy) {
                &&& (#[trigger] a.neighbours_content@[i]) is Some
                &&& grid_view(a.neighbours_content@[i]->Some_0) == subgrid(g, ox, oy, cw as nat, ch as nat)
            } else {
                a.neighbours_content@[i] is None
            }
        }
}

/// This function finds all possible rectangles of the specified
/// `chunk_size` in the input, and then finds all their adjacent rectangles
/// (where those exist). With `BorderMode::Exclude`, a root is discarded
/// whole as soon as any of its neighbouring windows lies out of bounds;
/// with `BorderMode::Clamp` the root is kept and only the out-of-bounds
/// neighbours are omitted.
pub fn overlapping_adjacencies(
    input: Vec<Vec<usize>>,
    chunk_size: Vector2,
    border_mode: BorderMode,
) -> (list: Vec<Adjacency>)
    requires
        is_rectangular(grid_view(input)),
        chunk_size.x >= 1 && chunk_size.y >= 1 ==> input@.len() >= 1 && grid_height(
            grid_view(input),
        ) >= 1,
    ensures
        chunk_size.x < 1 || chunk_size.y < 1 ==> list@.len() == 0,
        chunk_size.x >= 1 && chunk_size.y >= 1 ==> {
            let roots = kept_roots(grid_view(input), chunk_size, border_mode);
            &&& list@.len() == roots.len()
            &&& forall|k: int|
                0 <= k < roots.len() ==> adjacency_matches(
                    #[trigger] list@[k],
                    grid_view(input),
                    chunk_size.x as int,
                    chunk_size.y as int,
                    roots[k].0,
                    roots[k].1,
                )
            &&& forall|k: int|
                0 <= k < roots.len() ==> grid_view(#[trigger] list@[k].origin_content).len()
                    == chunk_size.x && grid_height(grid_view(list@[k].origin_content))
                    == chunk_size.y
        },
{
    let mut list: Vec<Adjacency> = Vec::new();

    if chunk_size.x < 1 || chunk_size.y < 1 {
        return list;
    }

    let ghost g = grid_view(input);
    let w = input.len();
    let h = input[0].len();
    assert(h == grid_height(g));
    let cw = chunk_size.x;
    let ch = chunk_size.y;

    let rx: usize = if w >= cw {
        w - cw + 1
    } else {
        0
    };
    let ry: usize = if h >= ch {
        h - ch + 1
    } else {
        0
    };

    for x in 0..rx
        invariant
            g == grid_view(input),
            is_rectangular(g),
            w == g.len(),
            h == grid_height(g),
            w >= 1,
            h >= 1,
            cw == chunk_size.x,
            ch == chunk_size.y,
            cw >= 1,
            ch >= 1,
            rx == if w >= cw { w - cw + 1 } else { 0 },
            ry == if h >= ch { h - ch + 1 } else { 0 },
            list@.len() == kept_roots_upto(border_mode, w as int, h as int, cw as int, ch as int, ry as int, x as int).len(),
            forall|k: int|
                0 <= k < list@.len() ==> adjacency_matches(
                    #[trigger] list@[k],
                    g,
                    cw as int,
                    ch as int,
                    kept_roots_upto(border_mode, w as int, h as int, cw as int, ch as int, ry as int, x as int)[k].0,
                    kept_roots_upto(border_mode, w as int, h as int, cw as int, ch as int, ry as int, x as int)[k].1,
                ),
    {
        let ghost prev = kept_roots_upto(border_mode, w as int, h as int, cw as int, ch as int, ry as int, x as int);
        for y in 0..ry
            invariant
                g == grid_view(input),
                is_rectangular(g),
                w == g.len(),
                h == grid_height(g),
                w >= 1,
                h >= 1,
                cw == chunk_size.x,
                ch == chunk_size.y,
                cw >= 1,
                ch >= 1,
                x < rx,
                rx == if w >= cw { w - cw + 1 } else { 0 },
                ry == if h >= ch { h - ch + 1 } else { 0 },
                prev == kept_roots_upto(border_mode, w as int, h as int, cw as int, ch as int, ry as int, x as int),
                list@.len() == prev.len() + kept_col_upto(border_mode, w as int, h as int, cw as int, ch as int, x as int, y as int).len(),
                forall|k: int|
                    0 <= k < list@.len() ==> adjacency_matches(
                        #[trigger] list@[k],
                        g,
                        cw as int,
                        ch as int,
                        (prev + kept_col_upto(border_mode, w as int, h as int, cw as int, ch as int, x as int, y as int))[k].0,
                        (prev + kept_col_upto(border_mode, w as int, h as int, cw as int, ch as int, x as int, y as int))[k].1,
                    ),
        {
            let ghost col_prev = kept_col_upto(border_mode, w as int, h as int, cw as int, ch as int, x as int, y as int);

            // Whether each of the 4 neighbouring windows lies fully in
            // bounds, written over unsigned values.
            let up_ok = y + ch <= h - ch;
            let right_ok = x + cw <= w - cw;
            let down_ok = y >= ch;
            let left_ok = x >= cw;
            proof {
                assert(up_ok == window_in_bounds(w as int, h as int, cw as int, ch as int, x as int, y + ch));
                assert(right_ok == window_in_bounds(w as int, h as int, cw as int, ch as int, x + cw, y as int));
                assert(down_ok == window_in_bounds(w as int, h as int, cw as int, ch as int, x as int, y - ch));
                assert(left_ok == window_in_bounds(w as int, h as int, cw as int, ch as int, x - cw, y as int));
            }
            let scrap_chunk = border_mode == BorderMode::Exclude && !(up_ok && right_ok && down_ok
                && left_ok);
            assert(scrap_chunk == !root_kept(border_mode, w as int, h as int, cw as int, ch as int, x as int, y as int));

            if !scrap_chunk {
                let origin = subgrid_exec(&input, x, y, chunk_size);
                let mut adjacency = Adjacency::new(origin);

                let mut neighbours: Vec<Option<Vec<Vec<usize>>>> = Vec::new();
                // up (adding y), right (adding x), down (subtracting y),
                // left (subtracting x)
                if up_ok {
                    neighbours.push(Some(subgrid_exec(&input, x, y + ch, chunk_size)));
                } else {
                    neighbours.push(None);
                }
                if right_ok {
                    neighbours.push(Some(subgrid_exec(&input, x + cw, y, chunk_size)));
                } else {
                    neighbours.push(None);
                }
                if down_ok {
                    neighbours.push(Some(subgrid_exec(&input, x, y - ch, chunk_size)));
                } else {
                    neighbours.push(None);
                }
                if left_ok {
                    neighbours.push(Some(subgrid_exec(&input, x - cw, y, chunk_size)));
                } else {
                    neighbours.push(None);
                }
                adjacency.neighbours_content = neighbours;

                proof {
                    assert(adjacency_matches(adjacency, g, cw as int, ch as int, x as int, y as int));
                }
                list.push(adjacency);
            }
        }
        proof {
            assert(kept_roots_upto(border_mode, w as int, h as int, cw as int, ch as int, ry as int, x + 1) == prev + kept_col_upto(border_mode, w as int, h as int, cw as int, ch as int, x as int, ry as int));
        }
    }
    proof {
        let roots = kept_roots(g, chunk_size, border_mode);
        assert(roots == kept_roots_upto(border_mode, w as int, h as int, cw as int, ch as int, ry as int, rx as int));
        assert forall|k: int| 0 <= k < roots.len() implies grid_view(
            #[trigger] list@[k].origin_content,
        ).len() == chunk_size.x && grid_height(grid_view(list@[k].origin_content))
            == chunk_size.y by {
            assert(adjacency_matches(list@[k], g, cw as int, ch as int, roots[k].0, roots[k].1));
        }
    }
    list
}

} // verus!
