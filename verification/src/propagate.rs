//! Constraint propagation: the breadth-first sweep that removes
//! now-illegal candidates from elements reachable from a just-collapsed
//! element.

use crate::Wave;
use crate::element::Element;
use crate::element::element_wf;
use crate::element::lemma_subsequence_element_wf;
use crate::helpers::Vector2;
use crate::helpers::copy_row;
use crate::helpers::is_subsequence;
use crate::helpers::lemma_div_bound;
use crate::helpers::lemma_subsequence_push;
use crate::helpers::lemma_subsequence_refl;
use crate::helpers::lemma_subsequence_trans;
use crate::helpers::noneg_neighbours;
use crate::helpers::noneg_neighbours_spec;
use crate::helpers::orthog_direction;
use crate::helpers::orthog_direction_spec;
use crate::patterns::Pattern;
use crate::patterns::PatternV;
use crate::patterns::grids_equal;
use crate::patterns::patterns_view;
use vstd::prelude::*;

verus! {

/// The candidate values of each element, in grid order.
pub open spec fn vals_view(els: Seq<Element>) -> Seq<Seq<usize>> {
    els.map(|i: int, e: Element| e.values@)
}

/// The position of each element, in grid order.
pub open spec fn positions_view(els: Seq<Element>) -> Seq<Vector2> {
    els.map(|i: int, e: Element| e.position)
}

/// The view of a reference list: each processed location with the
/// candidate ids it still allowed.
pub open spec fn refs_view(rs: Seq<(Vector2, Vec<usize>)>) -> Seq<(Vector2, Seq<usize>)> {
    rs.map(|i: int, p: (Vector2, Vec<usize>)| (p.0, p.1@))
}

/// The view of the banned-location window.
pub open spec fn banned_view(b: Seq<Vec<Vector2>>) -> Seq<Seq<Vector2>> {
    b.map(|i: int, v: Vec<Vector2>| v@)
}

/// Whether the reference candidate set `ids` validates a candidate with
/// the given contents from direction `dir`: some rule of some pattern
/// there, in that direction, carries exactly those contents.
pub open spec fn reference_validates(
    pv: Seq<PatternV>,
    ids: Seq<usize>,
    dir: u8,
    contents: Seq<Seq<usize>>,
) -> bool {
    exists|s: int, k: int|
        0 <= s < ids.len() && 0 <= k < pv[ids[s] as int].rules.len() && (#[trigger] pv[ids[
            s
        ] as int].rules[k]).direction == dir && pv[ids[s] as int].rules[k].content == contents
}

/// A candidate survives a wave only when every reference adjacent to the
/// element validates it; with no adjacent reference nothing certifies its
/// absence and it stays.
pub open spec fn candidate_supported(
    pv: Seq<PatternV>,
    refs: Seq<(Vector2, Seq<usize>)>,
    pos: Vector2,
    cand: usize,
) -> bool {
    forall|r: int|
        0 <= r < refs.len() && noneg_neighbours_spec(pos).contains((#[trigger] refs[r]).0)
            ==> reference_validates(
            pv,
            refs[r].1,
            orthog_direction_spec(refs[r].0, pos),
            pv[cand as int].contents,
        )
}

/// The candidates of one element that survive the wave, in order.
pub open spec fn kept_candidates(
    pv: Seq<PatternV>,
    refs: Seq<(Vector2, Seq<usize>)>,
    pos: Vector2,
    values: Seq<usize>,
) -> Seq<usize>
    decreases values.len(),
{
    if values.len() == 0 {
        Seq::empty()
    } else {
        let rest = kept_candidates(pv, refs, pos, values.drop_last());
        if candidate_supported(pv, refs, pos, values.last()) {
            rest.push(values.last())
        } else {
            rest
        }
    }
}

/// The indexes of the elements standing at `loc`, among the first
/// `i_end`, ascending.
pub open spec fn indexes_at(positions: Seq<Vector2>, loc: Vector2, i_end: int) -> Seq<usize>
    decreases i_end,
{
    if i_end <= 0 {
        Seq::empty()
    } else {
        let rest = indexes_at(positions, loc, i_end - 1);
        if positions[i_end - 1] == loc {
            rest.push((i_end - 1) as usize)
        } else {
            rest
        }
    }
}

/// The element indexes one wave visits: frontier location by location,
/// each scanning the whole grid in order.
pub open spec fn wave_indexes(positions: Seq<Vector2>, frontier: Seq<Vector2>) -> Seq<usize>
    decreases frontier.len(),
{
    if frontier.len() == 0 {
        Seq::empty()
    } else {
        wave_indexes(positions, frontier.drop_last()) + indexes_at(
            positions,
            frontier.last(),
            positions.len() as int,
        )
    }
}

/// The candidate values after one wave prunes every element standing on
/// the frontier against the references.
pub open spec fn pruned_values(
    pv: Seq<PatternV>,
    refs: Seq<(Vector2, Seq<usize>)>,
    positions: Seq<Vector2>,
    vals: Seq<Seq<usize>>,
    frontier: Seq<Vector2>,
) -> Seq<Seq<usize>> {
    Seq::new(
        vals.len(),
        |i: int|
            if frontier.contains(positions[i]) {
                kept_candidates(pv, refs, positions[i], vals[i])
            } else {
                vals[i]
            },
    )
}

/// The references the next wave checks against: each visited element's
/// position with its surviving candidates, in visiting order.
pub open spec fn next_references(
    positions: Seq<Vector2>,
    vals2: Seq<Seq<usize>>,
    idxs: Seq<usize>,
) -> Seq<(Vector2, Seq<usize>)> {
    Seq::new(idxs.len(), |n: int| (positions[idxs[n] as int], vals2[idxs[n] as int]))
}

/// The banned window after a wave: the frontier joins it and the oldest
/// entry leaves once a third would be held.
pub open spec fn next_banned(banned: Seq<Seq<Vector2>>, frontier: Seq<Vector2>) -> Seq<
    Seq<Vector2>,
> {
    let b = banned.push(frontier);
    if b.len() == 3 {
        b.drop_first()
    } else {
        b
    }
}

/// The neighbours of the visited elements, in visiting order.
pub open spec fn gathered_neighbours(positions: Seq<Vector2>, idxs: Seq<usize>) -> Seq<Vector2>
    decreases idxs.len(),
{
    if idxs.len() == 0 {
        Seq::empty()
    } else {
        gathered_neighbours(positions, idxs.drop_last()) + noneg_neighbours_spec(
            positions[idxs.last() as int],
        )
    }
}

/// Whether some banned set holds the location.
pub open spec fn banned_holds(banned: Seq<Seq<Vector2>>, loc: Vector2) -> bool {
    exists|j: int| 0 <= j < banned.len() && (#[trigger] banned[j]).contains(loc)
}

/// The gathered locations with the banned ones dropped.
pub open spec fn ban_filtered(cands: Seq<Vector2>, banned: Seq<Seq<Vector2>>) -> Seq<Vector2>
    decreases cands.len(),
{
    if cands.len() == 0 {
        Seq::empty()
    } else {
        let rest = ban_filtered(cands.drop_last(), banned);
        if banned_holds(banned, cands.last()) {
            rest
        } else {
            rest.push(cands.last())
        }
    }
}

/// Adjacent duplicate locations removed.
pub open spec fn locs_dedup(s: Seq<Vector2>) -> Seq<Vector2>
    decreases s.len(),
{
    if s.len() == 0 {
        Seq::empty()
    } else {
        let rest = locs_dedup(s.drop_last());
        if rest.len() > 0 && rest.last() == s.last() {
            rest
        } else {
            rest.push(s.last())
        }
    }
}

/// The candidate values once the sweep has run its waves: each wave
/// prunes the elements on the frontier against the previous wave's
/// references, then advances the frontier past the 2-wave banned window,
/// until a frontier holds no element or the wave budget runs out.
pub open spec fn propagate_waves(
    pv: Seq<PatternV>,
    positions: Seq<Vector2>,
    vals: Seq<Seq<usize>>,
    refs: Seq<(Vector2, Seq<usize>)>,
    banned: Seq<Seq<Vector2>>,
    frontier: Seq<Vector2>,
    fuel: nat,
) -> Seq<Seq<usize>>
    decreases fuel,
{
    if fuel == 0 {
        vals
    } else {
        let idxs = wave_indexes(positions, frontier);
        if idxs.len() == 0 {
            vals
        } else {
            let vals2 = pruned_values(pv, refs, positions, vals, frontier);
            let refs2 = next_references(positions, vals2, idxs);
            let banned2 = next_banned(banned, frontier);
            let frontier2 = locs_dedup(
                ban_filtered(gathered_neighbours(positions, idxs), banned2),
            );
            propagate_waves(pv, positions, vals2, refs2, banned2, frontier2, (fuel - 1) as nat)
        }
    }
}

/// How many waves the sweep allows: enough to carry the frontier beyond
/// any rectangular grid, since every wave moves it one step further out.
pub open spec fn wave_limit(cfs: Vector2) -> nat {
    if cfs.y > usize::MAX - 2 || cfs.x > usize::MAX - 2 - cfs.y {
        usize::MAX as nat
    } else {
        (cfs.x + cfs.y + 2) as nat
    }
}

/// What the sweep from the element at `center` leaves of the candidate
/// values: the first frontier holds the center's orthogonal neighbours,
/// the first reference its own candidates, and its own location opens the
/// banned window.
pub open spec fn propagate_from(
    pv: Seq<PatternV>,
    positions: Seq<Vector2>,
    vals: Seq<Seq<usize>>,
    center: int,
    fuel: nat,
) -> Seq<Seq<usize>> {
    propagate_waves(
        pv,
        positions,
        vals,
        seq![(positions[center], vals[center])],
        seq![seq![positions[center]]],
        noneg_neighbours_spec(positions[center]),
        fuel,
    )
}

/// What survives a wave is a subsequence of what entered it.
pub proof fn lemma_kept_subsequence(
    pv: Seq<PatternV>,
    refs: Seq<(Vector2, Seq<usize>)>,
    pos: Vector2,
    values: Seq<usize>,
)
    ensures
        is_subsequence(kept_candidates(pv, refs, pos, values), values),
    decreases values.len(),
{
    if values.len() == 0 {
    } else {
        lemma_kept_subsequence(pv, refs, pos, values.drop_last());
        let rest = kept_candidates(pv, refs, pos, values.drop_last());
        if candidate_supported(pv, refs, pos, values.last()) {
            assert(rest.push(values.last()).last() == values.last());
            assert(rest.push(values.last()).drop_last() =~= rest);
        } else {
            lemma_subsequence_push(rest, values.drop_last(), values.last());
            assert(values.drop_last().push(values.last()) =~= values);
        }
    }
}

/// Lengths never change across the sweep's waves.
proof fn lemma_propagate_waves_len(
    pv: Seq<PatternV>,
    positions: Seq<Vector2>,
    vals: Seq<Seq<usize>>,
    refs: Seq<(Vector2, Seq<usize>)>,
    banned: Seq<Seq<Vector2>>,
    frontier: Seq<Vector2>,
    fuel: nat,
)
    ensures
        propagate_waves(pv, positions, vals, refs, banned, frontier, fuel).len() == vals.len(),
    decreases fuel,
{
    if fuel > 0 {
        let idxs = wave_indexes(positions, frontier);
        if idxs.len() > 0 {
            let vals2 = pruned_values(pv, refs, positions, vals, frontier);
            lemma_propagate_waves_len(
                pv,
                positions,
                vals2,
                next_references(positions, vals2, idxs),
                next_banned(banned, frontier),
                locs_dedup(
                    ban_filtered(gathered_neighbours(positions, idxs), next_banned(banned, frontier)),
                ),
                (fuel - 1) as nat,
            );
        }
    }
}

/// Candidate sets only ever shrink across the sweep's waves.
proof fn lemma_propagate_waves_shrink(
    pv: Seq<PatternV>,
    positions: Seq<Vector2>,
    vals: Seq<Seq<usize>>,
    refs: Seq<(Vector2, Seq<usize>)>,
    banned: Seq<Seq<Vector2>>,
    frontier: Seq<Vector2>,
    fuel: nat,
)
    ensures
        forall|i: int|
            0 <= i < vals.len() ==> is_subsequence(
                #[trigger] propagate_waves(pv, positions, vals, refs, banned, frontier, fuel)[i],
                vals[i],
            ),
    decreases fuel,
{
    lemma_propagate_waves_len(pv, positions, vals, refs, banned, frontier, fuel);
    if fuel == 0 {
        assert forall|i: int|
            0 <= i < vals.len() implies is_subsequence(
            #[trigger] propagate_waves(pv, positions, vals, refs, banned, frontier, fuel)[i],
            vals[i],
        ) by {
            lemma_subsequence_refl(vals[i]);
        }
    } else {
        let idxs = wave_indexes(positions, frontier);
        if idxs.len() == 0 {
            assert forall|i: int|
                0 <= i < vals.len() implies is_subsequence(
                #[trigger] propagate_waves(pv, positions, vals, refs, banned, frontier, fuel)[i],
                vals[i],
            ) by {
                lemma_subsequence_refl(vals[i]);
            }
        } else {
            let vals2 = pruned_values(pv, refs, positions, vals, frontier);
            let refs2 = next_references(positions, vals2, idxs);
            let banned2 = next_banned(banned, frontier);
            let frontier2 = locs_dedup(
                ban_filtered(gathered_neighbours(positions, idxs), banned2),
            );
            lemma_propagate_waves_shrink(
                pv,
                positions,
                vals2,
                refs2,
                banned2,
                frontier2,
                (fuel - 1) as nat,
            );
            lemma_propagate_waves_len(pv, positions, vals2, refs2, banned2, frontier2, (fuel - 1) as nat);
            assert forall|i: int|
                0 <= i < vals.len() implies is_subsequence(
                #[trigger] propagate_waves(pv, positions, vals, refs, banned, frontier, fuel)[i],
                vals[i],
            ) by {
                assert(is_subsequence(
                    propagate_waves(pv, positions, vals2, refs2, banned2, frontier2, (fuel - 1) as nat)[i],
                    vals2[i],
                ));
                if frontier.contains(positions[i]) {
                    lemma_kept_subsequence(pv, refs, positions[i], vals[i]);
                } else {
                    lemma_subsequence_refl(vals[i]);
                }
                lemma_subsequence_trans(
                    propagate_waves(pv, positions, vals2, refs2, banned2, frontier2, (fuel - 1) as nat)[i],
                    vals2[i],
                    vals[i],
                );
            }
        }
    }
}

/// Whatever the sweep leaves in an element orthogonally adjacent to the
/// collapsed center is validated by the center's own candidates: every
/// surviving candidate there is supported by a rule of the center's
/// committed value, in the matching direction. This is the rule-legality
/// the first wave enforces; later waves only shrink it further.
pub proof fn lemma_propagate_licenses_neighbours(
    pv: Seq<PatternV>,
    positions: Seq<Vector2>,
    vals: Seq<Seq<usize>>,
    center: int,
    fuel: nat,
    j: int,
)
    requires
        fuel >= 1,
        0 <= center < positions.len(),
        vals.len() == positions.len(),
        positions.len() <= usize::MAX,
        0 <= j < positions.len(),
        noneg_neighbours_spec(positions[center]).contains(positions[j]),
    ensures
        forall|k: int|
            0 <= k < propagate_from(pv, positions, vals, center, fuel)[j].len()
                ==> candidate_supported(
                pv,
                seq![(positions[center], vals[center])],
                positions[j],
                #[trigger] propagate_from(pv, positions, vals, center, fuel)[j][k],
            ),
{
    let refs0 = seq![(positions[center], vals[center])];
    let banned0 = seq![seq![positions[center]]];
    let frontier0 = noneg_neighbours_spec(positions[center]);
    let idxs = wave_indexes(positions, frontier0);
    lemma_wave_indexes_membership(positions, frontier0, j);
    assert(idxs.contains(j as usize));
    assert(idxs.len() > 0);

    let vals2 = pruned_values(pv, refs0, positions, vals, frontier0);
    let refs2 = next_references(positions, vals2, idxs);
    let banned2 = next_banned(banned0, frontier0);
    let frontier2 = locs_dedup(ban_filtered(gathered_neighbours(positions, idxs), banned2));
    let result = propagate_from(pv, positions, vals, center, fuel);
    assert(result == propagate_waves(
        pv,
        positions,
        vals2,
        refs2,
        banned2,
        frontier2,
        (fuel - 1) as nat,
    ));
    lemma_propagate_waves_shrink(pv, positions, vals2, refs2, banned2, frontier2, (fuel - 1) as nat);
    assert(vals2[j] == kept_candidates(pv, refs0, positions[j], vals[j]));
    lemma_kept_all_supported(pv, refs0, positions[j], vals[j]);
    assert(is_subsequence(result[j], vals2[j]));
    crate::element::lemma_subsequence_contains(result[j], vals2[j]);
    assert forall|k: int|
        0 <= k < result[j].len() implies candidate_supported(
        pv,
        refs0,
        positions[j],
        #[trigger] result[j][k],
    ) by {
        assert(vals2[j].contains(result[j][k]));
        let w = choose|w: int| 0 <= w < vals2[j].len() && vals2[j][w] == result[j][k];
        assert(candidate_supported(pv, refs0, positions[j], vals2[j][w]));
    }
}

fn contains_loc(v: &Vec<Vector2>, p: Vector2) -> (r: bool)
    ensures
        r <==> v@.contains(p),
{
    for k in 0..v.len()
        invariant
            forall|n: int| 0 <= n < k ==> v@[n] != p,
    {
        if v[k].x == p.x && v[k].y == p.y {
            return true;
        }
    }
    false
}

fn banned_contains(banned: &Vec<Vec<Vector2>>, p: Vector2) -> (r: bool)
    ensures
        r <==> banned_holds(banned_view(banned@), p),
{
    for j in 0..banned.len()
        invariant
            forall|n: int| 0 <= n < j ==> !(#[trigger] banned_view(banned@)[n]).contains(p),
    {
        proof {
            assert(banned_view(banned@)[j as int] == banned@[j as int]@);
        }
        if contains_loc(&banned[j], p) {
            return true;
        }
    }
    false
}

/// Removes adjacent duplicate locations from a frontier.
fn dedup_adjacent_locs(v: Vec<Vector2>) -> (r: Vec<Vector2>)
    ensures
        r@ == locs_dedup(v@),
{
    let mut r: Vec<Vector2> = Vec::new();
    proof {
        assert(v@.take(0) =~= Seq::<Vector2>::empty());
        assert(locs_dedup(v@.take(0)) =~= Seq::<Vector2>::empty());
    }
    for k in 0..v.len()
        invariant
            r@ == locs_dedup(v@.take(k as int)),
    {
        proof {
            assert(v@.take(k + 1).drop_last() =~= v@.take(k as int));
            assert(v@.take(k + 1).last() == v@[k as int]);
        }
        let keep = r.len() == 0 || !(r[r.len() - 1].x == v[k].x && r[r.len() - 1].y == v[k].y);
        if keep {
            r.push(v[k]);
        }
    }
    proof {
        assert(v@.take(v@.len() as int) =~= v@);
    }
    r
}

/// Finds the element indexes one wave visits, frontier location by
/// location.
fn wave_indexes_exec(elements: &Vec<Element>, locs: &Vec<Vector2>) -> (idxs: Vec<usize>)
    ensures
        idxs@ == wave_indexes(positions_view(elements@), locs@),
        forall|n: int| 0 <= n < idxs@.len() ==> #[trigger] idxs@[n] < elements@.len(),
{
    let ghost positions = positions_view(elements@);
    let mut idxs: Vec<usize> = Vec::new();
    proof {
        assert(locs@.take(0) =~= Seq::<Vector2>::empty());
        assert(idxs@ =~= wave_indexes(positions, locs@.take(0)));
    }
    for li in 0..locs.len()
        invariant
            positions == positions_view(elements@),
            idxs@ == wave_indexes(positions, locs@.take(li as int)),
            forall|n: int| 0 <= n < idxs@.len() ==> #[trigger] idxs@[n] < elements@.len(),
    {
        let loc = locs[li];
        let ghost before = idxs@;
        proof {
            assert(idxs@ =~= before + indexes_at(positions, loc, 0));
        }
        for i in 0..elements.len()
            invariant
                positions == positions_view(elements@),
                loc == locs@[li as int],
                idxs@ == before + indexes_at(positions, loc, i as int),
                forall|n: int| 0 <= n < idxs@.len() ==> #[trigger] idxs@[n] < elements@.len(),
        {
            proof {
                assert(positions[i as int] == elements@[i as int].position);
            }
            if elements[i].position.x == loc.x && elements[i].position.y == loc.y {
                idxs.push(i);
                proof {
                    assert(idxs@ =~= before + indexes_at(positions, loc, i + 1));
                }
            } else {
                proof {
                    assert(idxs@ =~= before + indexes_at(positions, loc, i + 1));
                }
            }
        }
        proof {
            assert(locs@.take(li + 1).drop_last() =~= locs@.take(li as int));
            assert(locs@.take(li + 1).last() == locs@[li as int]);
            assert(idxs@ =~= wave_indexes(positions, locs@.take(li + 1)));
        }
    }
    proof {
        assert(locs@.take(locs@.len() as int) =~= locs@);
    }
    idxs
}

/// A visited index names an element standing on the frontier, and every
/// element standing on the frontier is visited.
proof fn lemma_wave_indexes_membership(positions: Seq<Vector2>, frontier: Seq<Vector2>, i: int)
    requires
        0 <= i < positions.len(),
        positions.len() <= usize::MAX,
    ensures
        wave_indexes(positions, frontier).contains(i as usize) <==> frontier.contains(
            positions[i],
        ),
    decreases frontier.len(),
{
    if frontier.len() == 0 {
    } else {
        let front = frontier.drop_last();
        lemma_wave_indexes_membership(positions, front, i);
        lemma_indexes_at_membership(positions, frontier.last(), positions.len() as int, i);
        let whole = wave_indexes(positions, frontier);
        let a = wave_indexes(positions, front);
        let b = indexes_at(positions, frontier.last(), positions.len() as int);
        assert(whole == a + b);
        if a.contains(i as usize) {
            let w = choose|w: int| 0 <= w < a.len() && a[w] == i as usize;
            assert(whole[w] == i as usize);
        }
        if b.contains(i as usize) {
            let w = choose|w: int| 0 <= w < b.len() && b[w] == i as usize;
            assert(whole[a.len() + w] == i as usize);
        }
        if whole.contains(i as usize) {
            let w = choose|w: int| 0 <= w < whole.len() && whole[w] == i as usize;
            if w < a.len() {
                assert(a[w] == i as usize);
            } else {
                assert(b[w - a.len()] == i as usize);
            }
        }
        if frontier.contains(positions[i]) {
            let w = choose|w: int| 0 <= w < frontier.len() && frontier[w] == positions[i];
            if w < frontier.len() - 1 {
                assert(front[w] == positions[i]);
            }
        }
        if front.contains(positions[i]) {
            let w = choose|w: int| 0 <= w < front.len() && front[w] == positions[i];
            assert(frontier[w] == positions[i]);
        }
    }
}

proof fn lemma_indexes_at_membership(positions: Seq<Vector2>, loc: Vector2, i_end: int, i: int)
    requires
        0 <= i < positions.len(),
        i_end <= positions.len(),
        positions.len() <= usize::MAX,
    ensures
        indexes_at(positions, loc, i_end).contains(i as usize) <==> (i < i_end && positions[i]
            == loc),
    decreases i_end,
{
    if i_end > 0 {
        lemma_indexes_at_membership(positions, loc, i_end - 1, i);
        let rest = indexes_at(positions, loc, i_end - 1);
        let whole = indexes_at(positions, loc, i_end);
        if positions[i_end - 1] == loc {
            assert(whole == rest.push((i_end - 1) as usize));
            if rest.contains(i as usize) {
                let w = choose|w: int| 0 <= w < rest.len() && rest[w] == i as usize;
                assert(whole[w] == i as usize);
            }
            if whole.contains(i as usize) {
                let w = choose|w: int| 0 <= w < whole.len() && whole[w] == i as usize;
                if w < rest.len() {
                    assert(rest[w] == i as usize);
                } else {
                    assert(whole[w] == (i_end - 1) as usize);
                    assert(i == i_end - 1);
                }
            }
            if i == i_end - 1 {
                assert(whole.last() == i as usize);
            }
        } else {
            assert(whole == rest);
        }
    }
}

/// Everything a wave keeps is already supported, so pruning twice with
/// the same references prunes no further.
proof fn lemma_kept_idempotent(
    pv: Seq<PatternV>,
    refs: Seq<(Vector2, Seq<usize>)>,
    pos: Vector2,
    values: Seq<usize>,
)
    ensures
        kept_candidates(pv, refs, pos, kept_candidates(pv, refs, pos, values))
            == kept_candidates(pv, refs, pos, values),
    decreases values.len(),
{
    lemma_kept_all_supported(pv, refs, pos, values);
    lemma_kept_of_supported(pv, refs, pos, kept_candidates(pv, refs, pos, values));
}

proof fn lemma_kept_all_supported(
    pv: Seq<PatternV>,
    refs: Seq<(Vector2, Seq<usize>)>,
    pos: Vector2,
    values: Seq<usize>,
)
    ensures
        forall|k: int|
            0 <= k < kept_candidates(pv, refs, pos, values).len() ==> candidate_supported(
                pv,
                refs,
                pos,
                #[trigger] kept_candidates(pv, refs, pos, values)[k],
            ),
    decreases values.len(),
{
    if values.len() > 0 {
        lemma_kept_all_supported(pv, refs, pos, values.drop_last());
        let rest = kept_candidates(pv, refs, pos, values.drop_last());
        let whole = kept_candidates(pv, refs, pos, values);
        assert forall|k: int|
            0 <= k < whole.len() implies candidate_supported(pv, refs, pos, #[trigger] whole[k]) by {
            if k < rest.len() {
                assert(whole[k] == rest[k]);
            } else {
                assert(whole[k] == values.last());
            }
        }
    }
}

proof fn lemma_kept_of_supported(
    pv: Seq<PatternV>,
    refs: Seq<(Vector2, Seq<usize>)>,
    pos: Vector2,
    values: Seq<usize>,
)
    requires
        forall|k: int|
            0 <= k < values.len() ==> candidate_supported(pv, refs, pos, #[trigger] values[k]),
    ensures
        kept_candidates(pv, refs, pos, values) == values,
    decreases values.len(),
{
    if values.len() > 0 {
        assert(forall|k: int|
            0 <= k < values.drop_last().len() ==> candidate_supported(
                pv,
                refs,
                pos,
                #[trigger] values.drop_last()[k],
            ));
        lemma_kept_of_supported(pv, refs, pos, values.drop_last());
        assert(candidate_supported(pv, refs, pos, values.last()));
        assert(values.drop_last().push(values.last()) =~= values);
    }
}

/// Prunes one element's candidates: a candidate stays only when every
/// reference adjacent to the element validates it with a rule in the
/// matching direction.
fn prune_element(
    patterns: &Vec<Pattern>,
    references: &Vec<(Vector2, Vec<usize>)>,
    element_neighbours: &Vec<Vector2>,
    position: Vector2,
    values: &Vec<usize>,
) -> (kept: Vec<usize>)
    requires
        element_neighbours@ == noneg_neighbours_spec(position),
        forall|r: int|
            0 <= r < references@.len() ==> element_wf(
                (#[trigger] references@[r]).1@,
                patterns@.len(),
            ),
        element_wf(values@, patterns@.len()),
    ensures
        kept@ == kept_candidates(patterns_view(patterns@), refs_view(references@), position, values@),
        is_subsequence(kept@, values@),
        element_wf(kept@, patterns@.len()),
{
    let ghost pv = patterns_view(patterns@);
    let ghost rv = refs_view(references@);
    let mut kept: Vec<usize> = Vec::new();
    proof {
        assert(values@.take(0) =~= Seq::<usize>::empty());
        assert(kept@ =~= kept_candidates(pv, rv, position, values@.take(0)));
    }

    for value_idx in 0..values.len()
        invariant
            pv == patterns_view(patterns@),
            rv == refs_view(references@),
            element_neighbours@ == noneg_neighbours_spec(position),
            forall|r: int|
                0 <= r < references@.len() ==> element_wf(
                    (#[trigger] references@[r]).1@,
                    patterns@.len(),
                ),
            element_wf(values@, patterns@.len()),
            kept@ == kept_candidates(pv, rv, position, values@.take(value_idx as int)),
    {
        let value_id = values[value_idx];
        let ghost contents = pv[value_id as int].contents;
        proof {
            assert(pv[value_id as int] == patterns@[value_id as int]@);
        }

        let mut supported = true;
        let mut ri: usize = 0;
        while ri < references.len() && supported
            invariant
                pv == patterns_view(patterns@),
                rv == refs_view(references@),
                element_neighbours@ == noneg_neighbours_spec(position),
                forall|r: int|
                    0 <= r < references@.len() ==> element_wf(
                        (#[trigger] references@[r]).1@,
                        patterns@.len(),
                    ),
                value_id < patterns@.len(),
                contents == pv[value_id as int].contents,
                ri <= rv.len(),
                supported <==> (forall|r: int|
                    0 <= r < ri && noneg_neighbours_spec(position).contains((#[trigger] rv[r]).0)
                        ==> reference_validates(
                        pv,
                        rv[r].1,
                        orthog_direction_spec(rv[r].0, position),
                        contents,
                    )),
            decreases rv.len() - ri,
        {
            proof {
                assert(rv[ri as int] == (references@[ri as int].0, references@[ri as int].1@));
            }
            if contains_loc(element_neighbours, references[ri].0) {
                let direction = orthog_direction(&references[ri].0, &position);
                let ghost ids = rv[ri as int].1;

                let mut validates = false;
                let mut rsi: usize = 0;
                while rsi < references[ri].1.len() && !validates
                    invariant
                        pv == patterns_view(patterns@),
                        rv == refs_view(references@),
                        ri < rv.len(),
                        ids == rv[ri as int].1,
                        ids == references@[ri as int].1@,
                        element_wf(ids, patterns@.len()),
                        value_id < patterns@.len(),
                        contents == pv[value_id as int].contents,
                        direction == orthog_direction_spec(rv[ri as int].0, position),
                        rsi <= ids.len(),
                        validates ==> reference_validates(pv, ids, direction, contents),
                        !validates ==> forall|s: int, k: int|
                            0 <= s < rsi && 0 <= k < pv[ids[s] as int].rules.len() ==> !((
                            #[trigger] pv[ids[s] as int].rules[k]).direction == direction && pv[
                                ids[s] as int
                            ].rules[k].content == contents),
                    decreases ids.len() - rsi,
                {
                    let rule_source = references[ri].1[rsi];
                    proof {
                        assert(ids[rsi as int] == rule_source);
                        assert(pv[rule_source as int] == patterns@[rule_source as int]@);
                    }
                    let rule_count = patterns[rule_source].rules.len();
                    let mut rki: usize = 0;
                    while rki < rule_count && !validates
                        invariant
                            pv == patterns_view(patterns@),
                            rule_source < patterns@.len(),
                            pv[rule_source as int] == patterns@[rule_source as int]@,
                            rule_count == pv[rule_source as int].rules.len(),
                            value_id < patterns@.len(),
                            contents == pv[value_id as int].contents,
                            rki <= rule_count,
                            ids[rsi as int] == rule_source,
                            rsi < ids.len(),
                            validates ==> exists|k: int|
                                0 <= k < pv[rule_source as int].rules.len() && (#[trigger] pv[
                                    rule_source as int
                                ].rules[k]).direction == direction && pv[rule_source as int].rules[
                                    k
                                ].content == contents,
                            !validates ==> forall|k: int|
                                0 <= k < rki ==> !((#[trigger] pv[rule_source as int].rules[
                                    k
                                ]).direction == direction && pv[rule_source as int].rules[k].content
                                    == contents),
                        decreases rule_count - rki,
                    {
                        let rule = &patterns[rule_source].rules[rki];
                        proof {
                            assert(pv[rule_source as int].rules[rki as int]
                                == patterns@[rule_source as int].rules@[rki as int]@);
                        }
                        if rule.direction == direction && grids_equal(
                            &rule.content,
                            &patterns[value_id].contents,
                        ) {
                            validates = true;
                        }
                        rki = rki + 1;
                    }
                    rsi = rsi + 1;
                }
                if !validates {
                    supported = false;
                    proof {
                        assert(!reference_validates(pv, ids, direction, contents));
                    }
                } else {
                    proof {
                        assert(reference_validates(
                            pv,
                            rv[ri as int].1,
                            orthog_direction_spec(rv[ri as int].0, position),
                            contents,
                        ));
                    }
                }
            }
            ri = ri + 1;
        }

        proof {
            assert(supported == candidate_supported(pv, rv, position, value_id)) by {
                if supported {
                    assert(ri == rv.len());
                }
            }
            assert(values@.take(value_idx + 1).drop_last() =~= values@.take(value_idx as int));
            assert(values@.take(value_idx + 1).last() == values@[value_idx as int]);
        }
        if supported {
            kept.push(value_id);
        }
    }
    proof {
        assert(values@.take(values@.len() as int) =~= values@);
        lemma_kept_subsequence(pv, rv, position, values@);
        lemma_subsequence_element_wf(kept@, values@, patterns@.len());
    }
    kept
}

/// The neighbour sets of the visited elements, concatenated in order,
/// are the wave's gathered locations.
proof fn lemma_gathered_from_sets(
    positions: Seq<Vector2>,
    idxs: Seq<usize>,
    sets: Seq<Seq<Vector2>>,
)
    requires
        sets.len() == idxs.len(),
        forall|n: int|
            0 <= n < idxs.len() ==> #[trigger] sets[n] == noneg_neighbours_spec(
                positions[idxs[n] as int],
            ),
    ensures
        concat_locs(sets) == gathered_neighbours(positions, idxs),
    decreases idxs.len(),
{
    if idxs.len() > 0 {
        assert(sets.drop_last().len() == idxs.drop_last().len());
        assert(forall|n: int|
            0 <= n < idxs.drop_last().len() ==> #[trigger] sets.drop_last()[n]
                == noneg_neighbours_spec(positions[idxs.drop_last()[n] as int]));
        lemma_gathered_from_sets(positions, idxs.drop_last(), sets.drop_last());
    }
}

/// A list of location sets, flattened in order.
pub open spec fn concat_locs(sets: Seq<Seq<Vector2>>) -> Seq<Vector2>
    decreases sets.len(),
{
    if sets.len() == 0 {
        Seq::empty()
    } else {
        concat_locs(sets.drop_last()) + sets.last()
    }
}

impl Wave {
    /// An element's position lies strictly inside the chunk-fill bounds.
    proof fn lemma_position_in_bounds(self, i: int)
        requires
            self.grid_wf(),
            0 <= i < self.elements@.len(),
        ensures
            self.elements@[i].position.x < self.chunk_fill_size.x,
            self.elements@[i].position.y < self.chunk_fill_size.y,
            self.elements@[i].position.x < usize::MAX,
            self.elements@[i].position.y < usize::MAX,
    {
        assert(self.grid_element_ok(i));
        lemma_div_bound(i, self.chunk_fill_size.y as int, self.chunk_fill_size.x as int);
        vstd::arithmetic::div_mod::lemma_mod_bound(i, self.chunk_fill_size.y as int);
    }

    /// The breadth-first constraint-tightening sweep from the element at
    /// `center_element`, computing exactly `propagate_from`: wave by wave,
    /// a candidate of a frontier element survives only when every
    /// reference adjacent to it holds a rule, in the matching direction,
    /// whose content matches the candidate — a candidate with no adjacent
    /// reference is not pruned. A rolling window of the last 2 frontiers
    /// is kept off the next frontier, and the sweep stops at a quiet
    /// frontier or after the wave budget `wave_limit`, which the frontier
    /// of a rectangular grid cannot outlast. No candidate set ever grows,
    /// and the grid's layout and catalog stay as they were.
    #[verifier::rlimit(100)]
    pub fn propagate(&mut self, center_element: usize)
        requires
            old(self).wf(),
            center_element < old(self).elements@.len(),
        ensures
            final(self).wf(),
            final(self).patterns == old(self).patterns,
            final(self).patterns_total == old(self).patterns_total,
            final(self).chunk_size == old(self).chunk_size,
            final(self).chunk_fill_size == old(self).chunk_fill_size,
            final(self).flags == old(self).flags,
            final(self).history == old(self).history,
            final(self).iterations == old(self).iterations,
            final(self).elements@.len() == old(self).elements@.len(),
            forall|i: int|
                0 <= i < final(self).elements@.len() ==> (#[trigger] final(self).elements@[i]).position
                    == old(self).elements@[i].position,
            forall|i: int|
                0 <= i < final(self).elements@.len() ==> is_subsequence(
                    (#[trigger] final(self).elements@[i]).values@,
                    old(self).elements@[i].values@,
                ),
            vals_view(final(self).elements@) == propagate_from(
                patterns_view(old(self).patterns@),
                positions_view(old(self).elements@),
                vals_view(old(self).elements@),
                center_element as int,
                wave_limit(old(self).chunk_fill_size),
            ),
    {
        let ghost pv = patterns_view(self.patterns@);
        let ghost positions = positions_view(old(self).elements@);
        let ghost target = propagate_from(
            pv,
            positions,
            vals_view(old(self).elements@),
            center_element as int,
            wave_limit(old(self).chunk_fill_size),
        );
        proof {
            assert(old(self).grid_element_ok(center_element as int));
            self.lemma_position_in_bounds(center_element as int);
            assert forall|i: int| 0 <= i < self.elements@.len() implies is_subsequence(
                (#[trigger] self.elements@[i]).values@,
                old(self).elements@[i].values@,
            ) by {
                lemma_subsequence_refl(self.elements@[i].values@);
            }
        }
        let center = &self.elements[center_element];
        let center_pos = center.position;

        let mut current_locs = noneg_neighbours(&center_pos);

        let first_reference: (Vector2, Vec<usize>) = (center_pos, copy_row(&center.values));
        let mut references: Vec<(Vector2, Vec<usize>)> = Vec::new();
        references.push(first_reference);

        let mut banned_locs: Vec<Vec<Vector2>> = Vec::new();
        let mut first_banned: Vec<Vector2> = Vec::new();
        first_banned.push(center_pos);
        banned_locs.push(first_banned);

        let limit: usize = if self.chunk_fill_size.y > usize::MAX - 2 || self.chunk_fill_size.x
            > usize::MAX - 2 - self.chunk_fill_size.y {
            usize::MAX
        } else {
            self.chunk_fill_size.x + self.chunk_fill_size.y + 2
        };
        let mut waves: usize = 0;
        proof {
            assert(limit == wave_limit(old(self).chunk_fill_size));
            assert(positions[center_element as int] == old(self).elements@[center_element as int].position);
            assert(vals_view(old(self).elements@)[center_element as int] == old(self).elements@[center_element as int].values@);
            assert(refs_view(references@) =~= seq![
                (positions[center_element as int], vals_view(old(self).elements@)[center_element as int]),
            ]);
            assert(banned_view(banned_locs@) =~= seq![seq![positions[center_element as int]]]);
            assert(current_locs@ == noneg_neighbours_spec(positions[center_element as int]));
            assert(vals_view(self.elements@) =~= vals_view(old(self).elements@));
        }

        while waves < limit
            invariant
                self.catalog_wf(),
                self.grid_wf(),
                self.history_wf(),
                pv == patterns_view(self.patterns@),
                positions == positions_view(old(self).elements@),
                positions == positions_view(self.elements@),
                target == propagate_from(
                    pv,
                    positions,
                    vals_view(old(self).elements@),
                    center_element as int,
                    wave_limit(old(self).chunk_fill_size),
                ),
                self.patterns == old(self).patterns,
                self.patterns_total == old(self).patterns_total,
                self.chunk_size == old(self).chunk_size,
                self.chunk_fill_size == old(self).chunk_fill_size,
                self.flags == old(self).flags,
                self.history == old(self).history,
                self.iterations == old(self).iterations,
                self.elements@.len() == old(self).elements@.len(),
                banned_locs@.len() <= 2,
                waves <= limit,
                forall|i: int|
                    0 <= i < self.elements@.len() ==> (#[trigger] self.elements@[i]).position
                        == old(self).elements@[i].position,
                forall|i: int|
                    0 <= i < self.elements@.len() ==> is_subsequence(
                        (#[trigger] self.elements@[i]).values@,
                        old(self).elements@[i].values@,
                    ),
                forall|r: int|
                    0 <= r < references@.len() ==> element_wf(
                        (#[trigger] references@[r]).1@,
                        self.patterns@.len(),
                    ),
                target == propagate_waves(
                    pv,
                    positions,
                    vals_view(self.elements@),
                    refs_view(references@),
                    banned_view(banned_locs@),
                    current_locs@,
                    (limit - waves) as nat,
                ),
            decreases limit - waves,
        {
            let indexes = wave_indexes_exec(&self.elements, &current_locs);
            proof {
                assert(positions_view(self.elements@) == positions);
            }

            if indexes.len() == 0 {
                // propagation finished: the frontier holds no element
                proof {
                    assert(target == vals_view(self.elements@));
                }
                return;
            }

            let ghost pre_vals = vals_view(self.elements@);
            let ghost pre_refs = refs_view(references@);
            let ghost vals2 = pruned_values(pv, pre_refs, positions, pre_vals, current_locs@);
            let ghost idxs = indexes@;

            let mut new_references: Vec<(Vector2, Vec<usize>)> = Vec::new();
            let mut new_locs: Vec<Vec<Vector2>> = Vec::new();

            for ii in 0..indexes.len()
                invariant
                    self.catalog_wf(),
                    self.grid_wf(),
                    self.history_wf(),
                    pv == patterns_view(self.patterns@),
                    positions == positions_view(old(self).elements@),
                    positions == positions_view(self.elements@),
                    self.patterns == old(self).patterns,
                    self.patterns_total == old(self).patterns_total,
                    self.chunk_size == old(self).chunk_size,
                    self.chunk_fill_size == old(self).chunk_fill_size,
                    self.flags == old(self).flags,
                    self.history == old(self).history,
                    self.iterations == old(self).iterations,
                    self.elements@.len() == old(self).elements@.len(),
                    idxs == indexes@,
                    idxs == wave_indexes(positions, current_locs@),
                    forall|n: int| 0 <= n < idxs.len() ==> #[trigger] idxs[n] < self.elements@.len(),
                    pre_refs == refs_view(references@),
                    pre_vals.len() == self.elements@.len(),
                    vals2 == pruned_values(pv, pre_refs, positions, pre_vals, current_locs@),
                    vals2.len() == self.elements@.len(),
                    forall|i: int|
                        0 <= i < self.elements@.len() ==> (#[trigger] self.elements@[i]).position
                            == old(self).elements@[i].position,
                    forall|i: int|
                        0 <= i < self.elements@.len() ==> is_subsequence(
                            (#[trigger] self.elements@[i]).values@,
                            old(self).elements@[i].values@,
                        ),
                    forall|r: int|
                        0 <= r < references@.len() ==> element_wf(
                            (#[trigger] references@[r]).1@,
                            self.patterns@.len(),
                        ),
                    forall|i: int|
                        0 <= i < self.elements@.len() ==> #[trigger] vals_view(self.elements@)[i]
                            == (if idxs.take(ii as int).contains(i as usize) {
                            vals2[i]
                        } else {
                            pre_vals[i]
                        }),
                    new_references@.len() == ii,
                    forall|r: int|
                        0 <= r < new_references@.len() ==> element_wf(
                            (#[trigger] new_references@[r]).1@,
                            self.patterns@.len(),
                        ),
                    forall|n: int|
                        0 <= n < ii ==> #[trigger] refs_view(new_references@)[n] == (
                        positions[idxs[n] as int],
                        vals2[idxs[n] as int],
                        ),
                    new_locs@.len() == ii,
                    forall|n: int|
                        0 <= n < ii ==> (#[trigger] new_locs@[n])@ == noneg_neighbours_spec(
                            positions[idxs[n] as int],
                        ),
            {
                let i = indexes[ii];
                let ghost pre_self = *self;
                proof {
                    assert(pre_self.grid_element_ok(i as int));
                    pre_self.lemma_position_in_bounds(i as int);
                }
                let mut element = self.elements.remove(i);
                let ghost entry_values = element.values@;
                proof {
                    assert(element_wf(entry_values, self.patterns@.len()));
                }
                let element_neighbours = noneg_neighbours(&element.position);
                proof {
                    assert(element.position == positions[i as int]);
                }

                let kept = prune_element(
                    &self.patterns,
                    &references,
                    &element_neighbours,
                    element.position,
                    &element.values,
                );
                element.values = kept;

                let reference = (element.position, copy_row(&element.values));
                let ghost refs_before = new_references@;
                let ghost locs_before = new_locs@;
                new_references.push(reference);
                new_locs.push(noneg_neighbours(&element.position));

                let ghost new_values = element.values@;
                self.elements.insert(i, element);
                proof {
                    assert(self.elements@ =~= pre_self.elements@.update(
                        i as int,
                        self.elements@[i as int],
                    ));
                    assert(entry_values == vals_view(pre_self.elements@)[i as int]);
                    assert(positions.len() <= usize::MAX) by {
                        assert(self.elements.len() == self.elements@.len());
                    }
                    assert(current_locs@.contains(positions[i as int])) by {
                        lemma_wave_indexes_membership(positions, current_locs@, i as int);
                        assert(idxs[ii as int] == i);
                        assert(idxs.contains(i));
                    }
                    assert(vals2[i as int] == kept_candidates(
                        pv,
                        pre_refs,
                        positions[i as int],
                        pre_vals[i as int],
                    ));
                    // the element's entry values were either the wave's
                    // own earlier output or untouched; pruning again with
                    // the same references changes nothing
                    if idxs.take(ii as int).contains(i) {
                        assert(entry_values == vals2[i as int]);
                        lemma_kept_idempotent(pv, pre_refs, positions[i as int], pre_vals[i as int]);
                        assert(new_values == kept_candidates(
                            pv,
                            pre_refs,
                            positions[i as int],
                            entry_values,
                        ));
                        assert(new_values == vals2[i as int]);
                    } else {
                        assert(entry_values == pre_vals[i as int]);
                        assert(new_values == kept_candidates(
                            pv,
                            pre_refs,
                            positions[i as int],
                            entry_values,
                        ));
                        assert(new_values == vals2[i as int]);
                    }
                    assert(idxs.take(ii + 1).drop_last() =~= idxs.take(ii as int));
                    assert(idxs.take(ii + 1).last() == idxs[ii as int]);
                    assert forall|j: int|
                        0 <= j < self.elements@.len() implies #[trigger] vals_view(
                        self.elements@,
                    )[j] == (if idxs.take(ii + 1).contains(j as usize) {
                        vals2[j]
                    } else {
                        pre_vals[j]
                    }) by {
                        assert(vals_view(self.elements@)[j] == self.elements@[j].values@);
                        assert(vals_view(pre_self.elements@)[j] == pre_self.elements@[j].values@);
                        assert(j as usize as int == j);
                        if j == i as int {
                            assert(self.elements@[j].values@ == new_values);
                            assert(idxs.take(ii + 1)[ii as int] == i);
                            assert(idxs.take(ii + 1).contains(j as usize));
                        } else {
                            assert(self.elements@[j] == pre_self.elements@[j]);
                            assert(vals_view(pre_self.elements@)[j] == (if idxs.take(
                                ii as int,
                            ).contains(j as usize) {
                                vals2[j]
                            } else {
                                pre_vals[j]
                            }));
                            if idxs.take(ii + 1).contains(j as usize) {
                                let w = choose|w: int|
                                    0 <= w < idxs.take(ii + 1).len() && #[trigger] idxs.take(
                                        ii + 1,
                                    )[w] == j as usize;
                                assert(idxs.take(ii + 1)[ii as int] == i);
                                assert(w != ii as int);
                                assert(idxs.take(ii as int)[w] == j as usize);
                                assert(idxs.take(ii as int).contains(j as usize));
                            }
                            if idxs.take(ii as int).contains(j as usize) {
                                let w = choose|w: int|
                                    0 <= w < idxs.take(ii as int).len() && #[trigger] idxs.take(
                                        ii as int,
                                    )[w] == j as usize;
                                assert(idxs.take(ii + 1)[w] == j as usize);
                                assert(idxs.take(ii + 1).contains(j as usize));
                            }
                        }
                    }
                    lemma_subsequence_trans(
                        new_values,
                        entry_values,
                        old(self).elements@[i as int].values@,
                    );
                    assert forall|j: int|
                        0 <= j < self.elements@.len() implies #[trigger] self.grid_element_ok(
                        j,
                    ) by {
                        assert(pre_self.grid_element_ok(j));
                        if j == i as int {
                            assert(element_wf(self.elements@[j].values@, self.patterns@.len()));
                        }
                    }
                    assert(self.grid_wf());
                    assert(positions_view(self.elements@) =~= positions);
                    assert forall|n: int|
                        0 <= n < ii + 1 implies #[trigger] refs_view(new_references@)[n] == (
                        positions[idxs[n] as int],
                        vals2[idxs[n] as int],
                        ) by {
                        assert(refs_view(new_references@)[n] == (
                            new_references@[n].0,
                            new_references@[n].1@,
                        ));
                        if n == ii as int {
                            assert(new_references@[n] == reference);
                            assert(i == idxs[n as int]);
                            assert(reference.0 == positions[idxs[n] as int]);
                            assert(reference.1@ == new_values);
                            assert(reference.1@ == vals2[idxs[n] as int]);
                        } else {
                            assert(new_references@[n] == refs_before[n]);
                            assert(refs_view(refs_before)[n] == (
                                refs_before[n].0,
                                refs_before[n].1@,
                            ));
                        }
                    }
                    assert forall|n: int|
                        0 <= n < ii + 1 implies (#[trigger] new_locs@[n])@
                        == noneg_neighbours_spec(positions[idxs[n] as int]) by {
                        if n == ii as int {
                            assert(new_locs@[n]@ == noneg_neighbours_spec(element.position));
                        } else {
                            assert(new_locs@[n] == locs_before[n]);
                        }
                    }
                }
            }

            proof {
                assert(idxs.take(idxs.len() as int) =~= idxs);
                assert(positions.len() <= usize::MAX) by {
                    assert(self.elements.len() == self.elements@.len());
                }
                assert forall|i: int|
                    0 <= i < self.elements@.len() implies #[trigger] vals_view(self.elements@)[i]
                    == vals2[i] by {
                    lemma_wave_indexes_membership(positions, current_locs@, i);
                    assert(i as usize as int == i);
                    if current_locs@.contains(positions[i]) {
                        assert(idxs.contains(i as usize));
                    } else {
                        assert(!idxs.contains(i as usize));
                        assert(vals2[i] == pre_vals[i]);
                    }
                }
                assert(vals_view(self.elements@) =~= vals2);
                assert(refs_view(new_references@) =~= next_references(positions, vals2, idxs));
            }

            // clean up and prepare the next frontier
            references = new_references;
            let ghost pre_banned = banned_view(banned_locs@);
            let ghost frontier = current_locs@;
            banned_locs.push(current_locs);
            if banned_locs.len() == 3 {
                banned_locs.remove(0);
            }
            proof {
                assert(banned_view(banned_locs@) =~= next_banned(pre_banned, frontier));
            }
            let ghost banned2 = next_banned(pre_banned, frontier);
            let ghost gathered = gathered_neighbours(positions, idxs);

            current_locs = Vec::new();
            proof {
                assert forall|n: int|
                    0 <= n < new_locs@.len() implies #[trigger] banned_view(new_locs@)[n]
                    == noneg_neighbours_spec(positions[idxs[n] as int]) by {
                    assert(banned_view(new_locs@)[n] == new_locs@[n]@);
                }
                lemma_gathered_from_sets(positions, idxs, banned_view(new_locs@));
                assert(concat_locs(banned_view(new_locs@).take(0)) =~= Seq::<Vector2>::empty());
                assert(ban_filtered(Seq::<Vector2>::empty(), banned2) =~= Seq::<
                    Vector2,
                >::empty());
                assert(current_locs@ =~= ban_filtered(
                    concat_locs(banned_view(new_locs@).take(0)),
                    banned2,
                ));
            }

            for si in 0..new_locs.len()
                invariant
                    banned_locs@.len() <= 2,
                    banned2 == banned_view(banned_locs@),
                    gathered == concat_locs(banned_view(new_locs@)),
                    current_locs@ == ban_filtered(
                        concat_locs(banned_view(new_locs@).take(si as int)),
                        banned2,
                    ),
            {
                let ghost set_prefix = concat_locs(banned_view(new_locs@).take(si as int));
                let set = &new_locs[si];
                for ni in 0..set.len()
                    invariant
                        banned_locs@.len() <= 2,
                        banned2 == banned_view(banned_locs@),
                        si < new_locs@.len(),
                        set == &new_locs@[si as int],
                        set_prefix == concat_locs(banned_view(new_locs@).take(si as int)),
                        current_locs@ == ban_filtered(
                            set_prefix + set@.take(ni as int),
                            banned2,
                        ),
                {
                    proof {
                        assert((set_prefix + set@.take(ni + 1)).drop_last() =~= set_prefix
                            + set@.take(ni as int));
                        assert((set_prefix + set@.take(ni + 1)).last() == set@[ni as int]);
                    }
                    let loc = set[ni];
                    if !banned_contains(&banned_locs, loc) {
                        current_locs.push(loc);
                    }
                }
                proof {
                    assert(set@.take(set@.len() as int) =~= set@);
                    assert(banned_view(new_locs@).take(si + 1).drop_last() =~= banned_view(
                        new_locs@,
                    ).take(si as int));
                    assert(banned_view(new_locs@).take(si + 1).last() == new_locs@[si as int]@);
                    assert(set_prefix + new_locs@[si as int]@ =~= concat_locs(
                        banned_view(new_locs@).take(si + 1),
                    ));
                }
            }
            proof {
                assert(banned_view(new_locs@).take(new_locs@.len() as int) =~= banned_view(
                    new_locs@,
                ));
            }

            current_locs = dedup_adjacent_locs(current_locs);

            proof {
                let fuel = (limit - waves) as nat;
                assert(fuel >= 1);
                assert(wave_indexes(positions, frontier) == idxs);
                assert(idxs.len() > 0);
                assert(propagate_waves(pv, positions, pre_vals, pre_refs, pre_banned, frontier, fuel)
                    == propagate_waves(
                    pv,
                    positions,
                    vals2,
                    next_references(positions, vals2, idxs),
                    banned2,
                    locs_dedup(ban_filtered(gathered, banned2)),
                    (fuel - 1) as nat,
                ));
                assert(current_locs@ == locs_dedup(ban_filtered(gathered, banned2)));
                assert(refs_view(references@) == next_references(positions, vals2, idxs));
                assert(vals_view(self.elements@) == vals2);
                assert(banned_view(banned_locs@) == banned2);
            }
            waves = waves + 1;
        }
        proof {
            assert(target == vals_view(self.elements@));
        }
    }
}

} // verus!
