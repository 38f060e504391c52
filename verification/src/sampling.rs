//! Sample ingestion: scanning a grid for overlapping tiles with their
//! neighbours, and turning a text sample into an integer-tagged grid with
//! a symbol table.

use crate::helpers::Vector2;
use crate::helpers::dimensions_of;
use crate::helpers::grid_height;
use crate::helpers::grid_view;
use crate::helpers::is_rectangular;
use crate::helpers::subgrid;
use crate::helpers::subgrid_exec;
use crate::helpers::window_in_bounds;
use crate::stringtools::chars_of;
use crate::stringtools::deconstruct_core;
use crate::stringtools::deconstruct_grid;
use crate::stringtools::deconstruct_map;
use vstd::prelude::*;

verus! {

/// Adjacency information about one tile of a sample scan: the tile's own
/// data, and for the up, right, down and left neighbours (in that order)
/// the neighbouring tile's data where it lies fully in bounds.
#[derive(Debug, Clone, PartialEq)]
pub struct Adjacency {
    pub root_data: Vec<Vec<usize>>,
    pub neighbours_data: Vec<Option<Vec<Vec<usize>>>>,
}

/// The origin of the neighbouring tile in direction `i`: whether up means
/// a greater `y` is the caller's choice.
pub open spec fn tile_origin(x: int, y: int, cw: int, ch: int, i: int, up_is_greater: bool) -> (
    int,
    int,
) {
    if i == 0 {
        (x, if up_is_greater { y + ch } else { y - ch })
    } else if i == 1 {
        (x + cw, y)
    } else if i == 2 {
        (x, if up_is_greater { y - ch } else { y + ch })
    } else {
        (x - cw, y)
    }
}

/// What one scanned tile holds for the root at `(x, y)`.
pub open spec fn tile_matches(
    a: Adjacency,
    g: Seq<Seq<usize>>,
    cw: int,
    ch: int,
    x: int,
    y: int,
    up_is_greater: bool,
) -> bool {
    &&& grid_view(a.root_data) == subgrid(g, x, y, cw as nat, ch as nat)
    &&& a.neighbours_data@.len() == 4
    &&& forall|i: int|
        0 <= i < 4 ==> {
            let (ox, oy) = tile_origin(x, y, cw, ch, i, up_is_greater);
            if window_in_bounds(g.len() as int, grid_height(g) as int, cw, ch, ox, oy) {
                &&& (#[trigger] a.neighbours_data@[i]) is Some
                &&& grid_view(a.neighbours_data@[i]->Some_0) == subgrid(g, ox, oy, cw as nat, ch as nat)
            } else {
                a.neighbours_data@[i] is None
            }
        }
}

/// Returns all the possible overlapping adjacent tiles in the input grid,
/// root by root in column-major order; `up_is_greater` decides whether a
/// greater `y` counts as up. A neighbour is reported only where its whole
/// tile lies in bounds.
pub fn adjacencies(input: &Vec<Vec<usize>>, chunk_size: Vector2, up_is_greater: bool) -> (list:
    Vec<Adjacency>)
    requires
        is_rectangular(grid_view(*input)),
        chunk_size.x >= 1 && chunk_size.y >= 1 ==> chunk_size.x <= input@.len() && chunk_size.y
            <= grid_height(grid_view(*input)),
    ensures
        chunk_size.x < 1 || chunk_size.y < 1 ==> list@.len() == 0,
        chunk_size.x >= 1 && chunk_size.y >= 1 ==> {
            let rx = input@.len() - chunk_size.x + 1;
            let ry = grid_height(grid_view(*input)) - chunk_size.y + 1;
            &&& list@.len() == rx * ry
            &&& forall|x: int, y: int|
                0 <= x < rx && 0 <= y < ry ==> tile_matches(
                    #[trigger] list@[x * ry + y],
                    grid_view(*input),
                    chunk_size.x as int,
                    chunk_size.y as int,
                    x,
                    y,
                    up_is_greater,
                )
        },
{
    let mut list: Vec<Adjacency> = Vec::new();
    if chunk_size.x < 1 || chunk_size.y < 1 {
        return list;
    }
    let ghost g = grid_view(*input);
    let size = dimensions_of(input);
    let cw = chunk_size.x;
    let ch = chunk_size.y;
    let rx = size.x - cw + 1;
    let ry = size.y - ch + 1;
    proof {
        assert(0 * ry == 0) by (nonlinear_arith);
    }

    for x in 0..rx
        invariant
            g == grid_view(*input),
            is_rectangular(g),
            size.x == g.len(),
            size.y == grid_height(g),
            cw == chunk_size.x,
            ch == chunk_size.y,
            cw >= 1,
            ch >= 1,
            cw <= size.x,
            ch <= size.y,
            rx == size.x - cw + 1,
            ry == size.y - ch + 1,
            list@.len() == x * ry,
            forall|a: int, b: int|
                0 <= a < x && 0 <= b < ry ==> tile_matches(
                    #[trigger] list@[a * ry + b],
                    g,
                    cw as int,
                    ch as int,
                    a,
                    b,
                    up_is_greater,
                ),
    {
        for y in 0..ry
            invariant
                g == grid_view(*input),
                is_rectangular(g),
                size.x == g.len(),
                size.y == grid_height(g),
                cw == chunk_size.x,
                ch == chunk_size.y,
                cw >= 1,
                ch >= 1,
                cw <= size.x,
                ch <= size.y,
                x < rx,
                rx == size.x - cw + 1,
                ry == size.y - ch + 1,
                list@.len() == x * ry + y,
                forall|a: int, b: int|
                    0 <= a < x && 0 <= b < ry ==> tile_matches(
                        #[trigger] list@[a * ry + b],
                        g,
                        cw as int,
                        ch as int,
                        a,
                        b,
                        up_is_greater,
                    ),
                forall|b: int|
                    0 <= b < y ==> tile_matches(
                        #[trigger] list@[x as int * ry + b],
                        g,
                        cw as int,
                        ch as int,
                        x as int,
                        b,
                        up_is_greater,
                    ),
        {
            let root = subgrid_exec(input, x, y, chunk_size);
            let mut neighbours: Vec<Option<Vec<Vec<usize>>>> = Vec::new();

            // up, right, down, left
            let up_ok = if up_is_greater {
                y + ch <= size.y - ch
            } else {
                y >= ch
            };
            if up_ok {
                let oy = if up_is_greater {
                    y + ch
                } else {
                    y - ch
                };
                neighbours.push(Some(subgrid_exec(input, x, oy, chunk_size)));
            } else {
                neighbours.push(None);
            }
            if x + cw <= size.x - cw {
                neighbours.push(Some(subgrid_exec(input, x + cw, y, chunk_size)));
            } else {
                neighbours.push(None);
            }
            let down_ok = if up_is_greater {
                y >= ch
            } else {
                y + ch <= size.y - ch
            };
            if down_ok {
                let oy = if up_is_greater {
                    y - ch
                } else {
                    y + ch
                };
                neighbours.push(Some(subgrid_exec(input, x, oy, chunk_size)));
            } else {
                neighbours.push(None);
            }
            if x >= cw {
                neighbours.push(Some(subgrid_exec(input, x - cw, y, chunk_size)));
            } else {
                neighbours.push(None);
            }

            let formed = Adjacency { root_data: root, neighbours_data: neighbours };
            proof {
                assert(tile_matches(formed, g, cw as int, ch as int, x as int, y as int, up_is_greater));
            }
            list.push(formed);
            proof {
                lemma_flat_index(x as int, y as int, ry as int);
            }
        }
        proof {
            assert((x + 1) * ry == x * ry + ry) by (nonlinear_arith);
        }
    }
    list
}

/// The flat index of `(x, y)` addresses the cell just pushed, and earlier
/// cells keep their addresses.
proof fn lemma_flat_index(x: int, y: int, ry: int)
    requires
        0 <= y < ry,
    ensures
        forall|a: int, b: int|
            0 <= a && 0 <= b < ry && (a < x || (a == x && b < y)) ==> #[trigger] (a * ry + b) < x
                * ry + y,
        x >= 0 ==> x * ry + y >= 0,
{
    assert forall|a: int, b: int|
        0 <= a && 0 <= b < ry && (a < x || (a == x && b < y)) implies #[trigger] (a * ry + b) < x
        * ry + y by {
        if a < x {
            assert(a * ry + ry <= x * ry) by (nonlinear_arith)
                requires
                    a < x,
                    ry > 0,
            ;
        }
    }
    if x >= 0 {
        assert(x * ry + y >= 0) by (nonlinear_arith)
            requires
                0 <= y,
                0 <= x,
                0 < ry,
        ;
    }
}

/// Returns in the order up (0), right, bottom, left, taking up to have an
/// incremented y-value.
pub fn orthogonal(o: &Vector2) -> (r: Vec<Vector2>)
    requires
        o.x >= 1,
        o.y >= 1,
        o.x < usize::MAX,
        o.y < usize::MAX,
    ensures
        r@ =~= seq![
            Vector2 { x: o.x, y: (o.y + 1) as usize },
            Vector2 { x: (o.x + 1) as usize, y: o.y },
            Vector2 { x: o.x, y: (o.y - 1) as usize },
            Vector2 { x: (o.x - 1) as usize, y: o.y },
        ],
{
    let mut r: Vec<Vector2> = Vec::new();
    r.push(Vector2::new(o.x, o.y + 1));
    r.push(Vector2::new(o.x + 1, o.y));
    r.push(Vector2::new(o.x, o.y - 1));
    r.push(Vector2::new(o.x - 1, o.y));
    r
}

/// An integer-tagged sample grid with its symbol table: `grid` holds one
/// id per cell, column by column, and `map` relates each id back to the
/// character it stands for.
#[derive(Debug, Clone, PartialEq)]
pub struct Sample {
    pub grid: Vec<Vec<usize>>,
    pub map: Vec<(usize, char)>,
}

/// Converts a given grid-like string into an xy-oriented vector of symbol
/// ids along with a map relating these ids to their original characters.
/// Whitespace is skipped unless `use_whitespace` asks to keep it.
pub fn deconstruct_string(input: &str, use_whitespace: bool) -> (s: Sample)
    ensures
        grid_view(s.grid) == deconstruct_grid(input@, use_whitespace),
        s.map@ == deconstruct_map(input@, use_whitespace),
{
    let chars = chars_of(input);
    let (grid, map) = deconstruct_core(&chars, use_whitespace);
    Sample { grid, map }
}

} // verus!
