//! Which contact points a manifold keeps.
//!
//! A manifold keeps the points that reach furthest along four diagonal
//! directions of the surface, each once: a point near one that is kept already
//! adds nothing. Points stay in the order in which they are found, which keeps
//! contact identities stable.

use vstd::prelude::*;

use super::pair::{leader, leads, one_gap_leads, the_leading_gap_is_the_greatest};
use crate::double::Double;
use crate::exact::{all_double_patterns_stand_in_a_row, doubles_compare_as_their_values};

verus! {

/// Most points that a manifold keeps without choosing among them.
pub const MANIFOLD_POINTS: usize = 5;

/// Whether every list covers the points.
pub open spec fn covers<T>(lists: Seq<Vec<T>>, points: int) -> bool {
    forall|d: int| #![trigger lists[d]] 0 <= d < lists.len() ==> lists[d]@.len() == points
}

/// Whether points are measured against each other.
pub open spec fn pairwise(near: Seq<Vec<bool>>, points: int) -> bool {
    near.len() == points && covers(near, points)
}

/// Whether a point is near one that is kept.
pub open spec fn near_kept(kept: Seq<usize>, near: Seq<Vec<bool>>, point: int) -> bool {
    exists|k: int| 0 <= k < kept.len() && #[trigger] near[kept[k] as int]@[point]
}

/// The first `count` picks without those near an earlier one that is kept.
pub open spec fn thinned(picks: Seq<usize>, near: Seq<Vec<bool>>, count: int) -> Seq<usize>
    decreases count,
{
    if count <= 0 {
        Seq::empty()
    } else {
        let before = thinned(picks, near, count - 1);
        if near_kept(before, near, picks[count - 1] as int) {
            before
        } else {
            before.push(picks[count - 1])
        }
    }
}

/// Kept points are among the picks, and no more than they are.
proof fn lemma_thinned(picks: Seq<usize>, near: Seq<Vec<bool>>, count: int, points: int)
    requires
        0 <= count <= picks.len(),
        forall|i: int| #![trigger picks[i]] 0 <= i < picks.len() ==> picks[i] < points,
    ensures
        thinned(picks, near, count).len() <= count,
        forall|k: int|
            #![trigger thinned(picks, near, count)[k]]
            0 <= k < thinned(picks, near, count).len() ==> thinned(picks, near, count)[k] < points,
    decreases count,
{
    if count > 0 {
        lemma_thinned(picks, near, count - 1, points);
    }
}

/// No kept point is near one that was kept before it.
pub proof fn kept_points_stand_apart(picks: Seq<usize>, near: Seq<Vec<bool>>, a: int, b: int)
    requires
        0 <= a < b < thinned(picks, near, picks.len() as int).len(),
    ensures
        !near[thinned(picks, near, picks.len() as int)[a] as int]@[thinned(
            picks,
            near,
            picks.len() as int,
        )[b] as int],
{
    lemma_apart(picks, near, picks.len() as int, a, b);
}

proof fn lemma_apart(picks: Seq<usize>, near: Seq<Vec<bool>>, count: int, a: int, b: int)
    requires
        0 <= a < b < thinned(picks, near, count).len(),
    ensures
        !near[thinned(picks, near, count)[a] as int]@[thinned(picks, near, count)[b] as int],
    decreases count,
{
    let before = thinned(picks, near, count - 1);
    if b < before.len() {
        lemma_apart(picks, near, count - 1, a, b);
    }
}

/// Every pick is kept or near a point that is kept.
pub proof fn dropped_points_have_a_neighbour(picks: Seq<usize>, near: Seq<Vec<bool>>, i: int)
    requires
        0 <= i < picks.len(),
    ensures
        thinned(picks, near, picks.len() as int).contains(picks[i]) || near_kept(
            thinned(picks, near, picks.len() as int),
            near,
            picks[i] as int,
        ),
{
    lemma_neighbour(picks, near, picks.len() as int, i);
}

proof fn lemma_neighbour(picks: Seq<usize>, near: Seq<Vec<bool>>, count: int, i: int)
    requires
        0 <= i < count <= picks.len(),
    ensures
        thinned(picks, near, count).contains(picks[i]) || near_kept(
            thinned(picks, near, count),
            near,
            picks[i] as int,
        ),
    decreases count,
{
    let before = thinned(picks, near, count - 1);
    let after = thinned(picks, near, count);
    if i == count - 1 {
        if !near_kept(before, near, picks[i] as int) {
            assert(after[before.len() as int] == picks[i]);
        }
    } else {
        lemma_neighbour(picks, near, count - 1, i);
        assert forall|k: int| 0 <= k < before.len() implies after[k] == before[k] by {}
        if before.contains(picks[i]) {
            let k = choose|k: int| 0 <= k < before.len() && before[k] == picks[i];
            assert(after[k] == picks[i]);
        } else {
            let k = choose|k: int|
                0 <= k < before.len() && #[trigger] near[before[k] as int]@[picks[i] as int];
            assert(near[after[k] as int]@[picks[i] as int]);
        }
    }
}

/// Whether a point is near one that is kept.
fn is_near_kept(kept: &Vec<usize>, near: &Vec<Vec<bool>>, point: usize) -> (held: bool)
    requires
        pairwise(near@, near@.len() as int),
        point < near@.len(),
        forall|k: int| #![trigger kept@[k]] 0 <= k < kept@.len() ==> kept@[k] < near@.len(),
    ensures
        held == near_kept(kept@, near@, point as int),
{
    let mut k: usize = 0;
    while k < kept.len()
        invariant
            k <= kept@.len(),
            pairwise(near@, near@.len() as int),
            point < near@.len(),
            forall|j: int| #![trigger kept@[j]] 0 <= j < kept@.len() ==> kept@[j] < near@.len(),
            forall|j: int|
                0 <= j < k ==> !#[trigger] near@[kept@[j] as int]@[point as int],
        decreases kept@.len() - k,
    {
        let row: usize = kept[k];
        assert(near@[row as int]@.len() == near@.len());
        if near[row][point] {
            assert(near@[kept@[k as int] as int]@[point as int]);
            return true;
        }
        k += 1;
    }
    false
}

/// The picks without those near an earlier one that is kept.
fn thin(picks: &Vec<usize>, near: &Vec<Vec<bool>>) -> (kept: Vec<usize>)
    requires
        pairwise(near@, near@.len() as int),
        forall|i: int| #![trigger picks@[i]] 0 <= i < picks@.len() ==> picks@[i] < near@.len(),
    ensures
        kept@ == thinned(picks@, near@, picks@.len() as int),
{
    let mut kept: Vec<usize> = Vec::new();
    let mut i: usize = 0;
    while i < picks.len()
        invariant
            i <= picks@.len(),
            pairwise(near@, near@.len() as int),
            forall|j: int| #![trigger picks@[j]] 0 <= j < picks@.len() ==> picks@[j] < near@.len(),
            kept@ == thinned(picks@, near@, i as int),
        decreases picks@.len() - i,
    {
        proof {
            lemma_thinned(picks@, near@, i as int, near@.len() as int);
        }
        if !is_near_kept(&kept, near, picks[i]) {
            kept.push(picks[i]);
        }
        i += 1;
    }
    kept
}

/// Whether picks reach furthest along each direction.
pub open spec fn reach_furthest(heights: Seq<Vec<Double>>, picks: Seq<usize>) -> bool {
    &&& picks.len() == heights.len()
    &&& forall|d: int|
        #![trigger picks[d]]
        0 <= d < picks.len() ==> leads(heights[d]@, picks[d] as int)
}

/// Only one list of picks reaches furthest.
pub proof fn furthest_points_are_unique(
    heights: Seq<Vec<Double>>,
    first: Seq<usize>,
    second: Seq<usize>,
)
    requires
        reach_furthest(heights, first),
        reach_furthest(heights, second),
    ensures
        first == second,
{
    assert forall|d: int| 0 <= d < first.len() implies first[d] == second[d] by {
        one_gap_leads(heights[d]@, first[d] as int, second[d] as int);
    }
    assert(first =~= second);
}

/// The points of a clipped polygon that a manifold keeps: the first one that
/// reaches furthest along each direction, each once.
///
/// `heights` holds every point's height along each direction and `near` which
/// points stand close together.
pub fn spread_points(heights: &Vec<Vec<Double>>, near: &Vec<Vec<bool>>) -> (kept: Vec<usize>)
    requires
        near@.len() > 0,
        covers(heights@, near@.len() as int),
        pairwise(near@, near@.len() as int),
    ensures
        exists|picks: Seq<usize>| #[trigger]
            reach_furthest(heights@, picks) && kept@ == thinned(
                picks,
                near@,
                picks.len() as int,
            ),
        kept@.len() <= heights@.len(),
        forall|k: int| #![trigger kept@[k]] 0 <= k < kept@.len() ==> kept@[k] < near@.len(),
{
    let mut picks: Vec<usize> = Vec::new();
    let mut d: usize = 0;
    while d < heights.len()
        invariant
            d <= heights@.len(),
            near@.len() > 0,
            covers(heights@, near@.len() as int),
            picks@.len() == d,
            forall|j: int|
                #![trigger picks@[j]]
                0 <= j < d ==> leads(heights@[j]@, picks@[j] as int),
        decreases heights@.len() - d,
    {
        assert(heights@[d as int]@.len() == near@.len());
        let at: usize = leader(&heights[d]);
        picks.push(at);
        d += 1;
    }
    proof {
        assert forall|i: int| #![trigger picks@[i]] 0 <= i < picks@.len() implies picks@[i]
            < near@.len() by {
            assert(heights@[i]@.len() == near@.len());
        }
        lemma_thinned(picks@, near@, picks@.len() as int, near@.len() as int);
        assert(reach_furthest(heights@, picks@));
    }
    thin(&picks, near)
}

/// The position of the first kept point that a candidate is near.
pub open spec fn first_near(kept: Seq<usize>, near: Seq<Vec<bool>>, candidate: int, k: int) -> bool {
    &&& 0 <= k < kept.len()
    &&& near[kept[k] as int]@[candidate]
    &&& forall|j: int| 0 <= j < k ==> !#[trigger] near[kept[j] as int]@[candidate]
}

/// The first `count` candidates, merged: one near a kept point takes its place
/// if it lies deeper and is dropped otherwise.
pub open spec fn merged(separations: Seq<Double>, near: Seq<Vec<bool>>, count: int) -> Seq<usize>
    decreases count,
{
    if count <= 0 {
        Seq::empty()
    } else {
        let before = merged(separations, near, count - 1);
        let candidate = count - 1;
        if near_kept(before, near, candidate) {
            let at = choose|k: int| first_near(before, near, candidate, k);
            if separations[candidate].below(separations[before[at] as int]) {
                before.update(at, candidate as usize)
            } else {
                before
            }
        } else {
            before.push(candidate as usize)
        }
    }
}

/// A candidate that is near a kept point is near a first one.
proof fn lemma_first_near(kept: Seq<usize>, near: Seq<Vec<bool>>, candidate: int, k: int)
    requires
        0 <= k < kept.len(),
        near[kept[k] as int]@[candidate],
    ensures
        exists|at: int| first_near(kept, near, candidate, at),
    decreases k,
{
    if exists|j: int| 0 <= j < k && #[trigger] near[kept[j] as int]@[candidate] {
        let j = choose|j: int| 0 <= j < k && #[trigger] near[kept[j] as int]@[candidate];
        lemma_first_near(kept, near, candidate, j);
    } else {
        assert(first_near(kept, near, candidate, k));
    }
}

/// Merged candidates are rows, no more than there are.
proof fn lemma_merged(separations: Seq<Double>, near: Seq<Vec<bool>>, count: int)
    requires
        0 <= count <= usize::MAX,
    ensures
        merged(separations, near, count).len() <= count,
        count > 0 ==> merged(separations, near, count).len() > 0,
        forall|k: int|
            #![trigger merged(separations, near, count)[k]]
            0 <= k < merged(separations, near, count).len() ==> merged(separations, near, count)[k]
                < count,
    decreases count,
{
    if count > 0 {
        lemma_merged(separations, near, count - 1);
        let before = merged(separations, near, count - 1);
        if near_kept(before, near, count - 1) {
            let k = choose|k: int|
                0 <= k < before.len() && #[trigger] near[before[k] as int]@[count - 1];
            lemma_first_near(before, near, count - 1, k);
        }
        assert forall|k: int|
            #![trigger merged(separations, near, count)[k]]
            0 <= k < merged(separations, near, count).len() implies merged(
            separations,
            near,
            count,
        )[k] < count by {
            if k < before.len() {
                assert(before[k] < count - 1);
            }
        }
    }
}

/// The first kept point that a candidate is near, if it is near any.
fn find_near(kept: &Vec<usize>, near: &Vec<Vec<bool>>, candidate: usize) -> (at: Option<usize>)
    requires
        pairwise(near@, near@.len() as int),
        candidate < near@.len(),
        forall|k: int| #![trigger kept@[k]] 0 <= k < kept@.len() ==> kept@[k] < near@.len(),
    ensures
        match at {
            Some(k) => first_near(kept@, near@, candidate as int, k as int),
            None => !near_kept(kept@, near@, candidate as int),
        },
{
    let mut k: usize = 0;
    while k < kept.len()
        invariant
            k <= kept@.len(),
            pairwise(near@, near@.len() as int),
            candidate < near@.len(),
            forall|j: int| #![trigger kept@[j]] 0 <= j < kept@.len() ==> kept@[j] < near@.len(),
            forall|j: int|
                0 <= j < k ==> !#[trigger] near@[kept@[j] as int]@[candidate as int],
        decreases kept@.len() - k,
    {
        let row: usize = kept[k];
        assert(near@[row as int]@.len() == near@.len());
        if near[row][candidate] {
            return Some(k);
        }
        k += 1;
    }
    None
}

/// Candidates, merged.
fn merge_near(separations: &Vec<Double>, near: &Vec<Vec<bool>>) -> (kept: Vec<usize>)
    requires
        separations@.len() == near@.len(),
        pairwise(near@, near@.len() as int),
    ensures
        kept@ == merged(separations@, near@, separations@.len() as int),
{
    let mut kept: Vec<usize> = Vec::new();
    let mut i: usize = 0;
    while i < separations.len()
        invariant
            i <= separations@.len(),
            separations@.len() == near@.len(),
            pairwise(near@, near@.len() as int),
            kept@ == merged(separations@, near@, i as int),
        decreases separations@.len() - i,
    {
        proof {
            lemma_merged(separations@, near@, i as int);
        }
        let ghost before = kept@;
        match find_near(&kept, near, i) {
            Some(at) => {
                proof {
                    assert(near@[before[at as int] as int]@[i as int]);
                    assert(near_kept(before, near@, i as int));
                    let chosen = choose|k: int| first_near(before, near@, i as int, k);
                    assert(first_near(before, near@, i as int, at as int));
                    assert(first_near(before, near@, i as int, chosen));
                    assert(chosen == at) by {
                        if chosen < at {
                            assert(!near@[before[chosen] as int]@[i as int]);
                        } else if at < chosen {
                            assert(!near@[before[at as int] as int]@[i as int]);
                        }
                    }
                }
                let held: usize = kept[at];
                if separations[i].less(separations[held]) {
                    kept.set(at, i);
                }
            },
            None => {
                kept.push(i);
            },
        }
        i += 1;
    }
    kept
}

/// Whether a kept point stands highest in the order of all patterns, last among equals.
pub open spec fn tops(heights: Seq<Double>, kept: Seq<usize>, pick: usize) -> bool {
    exists|at: int|
        #![trigger kept[at]]
        0 <= at < kept.len() && kept[at] == pick && forall|j: int|
            #![trigger kept[j]]
            0 <= j < kept.len() ==> heights[kept[j] as int].total_key()
                <= heights[pick as int].total_key() && (j > at ==> heights[kept[j] as int].total_key()
                < heights[pick as int].total_key())
}

/// Whether a kept point stands lowest in the order of all patterns, first among equals.
pub open spec fn bottoms(heights: Seq<Double>, kept: Seq<usize>, pick: usize) -> bool {
    exists|at: int|
        #![trigger kept[at]]
        0 <= at < kept.len() && kept[at] == pick && forall|j: int|
            #![trigger kept[j]]
            0 <= j < kept.len() ==> heights[pick as int].total_key()
                <= heights[kept[j] as int].total_key() && (j < at ==> heights[pick as int].total_key()
                < heights[kept[j] as int].total_key())
}

/// The kept point that stands highest.
fn highest(heights: &Vec<Double>, kept: &Vec<usize>) -> (pick: usize)
    requires
        kept@.len() > 0,
        forall|k: int| #![trigger kept@[k]] 0 <= k < kept@.len() ==> kept@[k] < heights@.len(),
    ensures
        tops(heights@, kept@, pick),
        pick < heights@.len(),
{
    let mut at: usize = 0;
    let mut k: usize = 1;
    while k < kept.len()
        invariant
            1 <= k <= kept@.len(),
            at < k,
            forall|j: int| #![trigger kept@[j]] 0 <= j < kept@.len() ==> kept@[j] < heights@.len(),
            forall|j: int|
                #![trigger kept@[j]]
                0 <= j < k ==> heights@[kept@[j] as int].total_key()
                    <= heights@[kept@[at as int] as int].total_key() && (j > at
                    ==> heights@[kept@[j] as int].total_key()
                    < heights@[kept@[at as int] as int].total_key()),
        decreases kept@.len() - k,
    {
        let held: usize = kept[at];
        let next: usize = kept[k];
        if heights[held].total_less_or_equal(heights[next]) {
            at = k;
        }
        k += 1;
    }
    kept[at]
}

/// The kept point that stands lowest.
fn lowest(heights: &Vec<Double>, kept: &Vec<usize>) -> (pick: usize)
    requires
        kept@.len() > 0,
        forall|k: int| #![trigger kept@[k]] 0 <= k < kept@.len() ==> kept@[k] < heights@.len(),
    ensures
        bottoms(heights@, kept@, pick),
        pick < heights@.len(),
{
    let mut at: usize = 0;
    let mut k: usize = 1;
    while k < kept.len()
        invariant
            1 <= k <= kept@.len(),
            at < k,
            forall|j: int| #![trigger kept@[j]] 0 <= j < kept@.len() ==> kept@[j] < heights@.len(),
            forall|j: int|
                #![trigger kept@[j]]
                0 <= j < k ==> heights@[kept@[at as int] as int].total_key()
                    <= heights@[kept@[j] as int].total_key() && (j < at
                    ==> heights@[kept@[at as int] as int].total_key()
                    < heights@[kept@[j] as int].total_key()),
        decreases kept@.len() - k,
    {
        let held: usize = kept[at];
        let next: usize = kept[k];
        if !heights[held].total_less_or_equal(heights[next]) {
            at = k;
        }
        k += 1;
    }
    kept[at]
}

/// Whether picks are the extremes along each direction, then the deepest point.
pub open spec fn extremes(
    separations: Seq<Double>,
    heights: Seq<Vec<Double>>,
    kept: Seq<usize>,
    picks: Seq<usize>,
) -> bool {
    &&& picks.len() == heights.len() + 1
    &&& forall|d: int|
        #![trigger picks[d]]
        0 <= d < heights.len() ==> tops(heights[d]@, kept, picks[d])
    &&& bottoms(separations, kept, picks[heights.len() as int])
}

/// The points that a curved support keeps: the merged candidates, or their
/// extremes along each direction and the deepest one where they are many.
///
/// `separations` holds every candidate's separation, `heights` its height along
/// each direction and `near` which candidates stand close together.
pub fn reduce(separations: &Vec<Double>, heights: &Vec<Vec<Double>>, near: &Vec<Vec<bool>>) -> (kept:
    Vec<usize>)
    requires
        separations@.len() == near@.len(),
        covers(heights@, near@.len() as int),
        pairwise(near@, near@.len() as int),
    ensures
        ({
            let unique = merged(separations@, near@, separations@.len() as int);
            if unique.len() <= MANIFOLD_POINTS {
                kept@ == unique
            } else {
                exists|picks: Seq<usize>| #[trigger]
                    extremes(separations@, heights@, unique, picks) && kept@ == thinned(
                        picks,
                        near@,
                        picks.len() as int,
                    )
            }
        }),
        forall|k: int| #![trigger kept@[k]] 0 <= k < kept@.len() ==> kept@[k] < near@.len(),
        heights@.len() < MANIFOLD_POINTS ==> kept@.len() <= MANIFOLD_POINTS,
{
    let unique: Vec<usize> = merge_near(separations, near);
    proof {
        assert(separations@.len() == separations.len());
        lemma_merged(separations@, near@, separations@.len() as int);
    }
    if unique.len() <= MANIFOLD_POINTS {
        return unique;
    }
    let mut picks: Vec<usize> = Vec::new();
    let mut d: usize = 0;
    while d < heights.len()
        invariant
            d <= heights@.len(),
            unique@.len() > 0,
            covers(heights@, near@.len() as int),
            forall|k: int|
                #![trigger unique@[k]]
                0 <= k < unique@.len() ==> unique@[k] < near@.len(),
            picks@.len() == d,
            forall|j: int| #![trigger picks@[j]] 0 <= j < d ==> picks@[j] < near@.len(),
            forall|j: int|
                #![trigger picks@[j]]
                0 <= j < d ==> tops(heights@[j]@, unique@, picks@[j]),
        decreases heights@.len() - d,
    {
        assert(heights@[d as int]@.len() == near@.len());
        let pick: usize = highest(&heights[d], &unique);
        picks.push(pick);
        d += 1;
    }
    let deepest: usize = lowest(separations, &unique);
    picks.push(deepest);
    proof {
        lemma_thinned(picks@, near@, picks@.len() as int, near@.len() as int);
        assert(extremes(separations@, heights@, unique@, picks@));
    }
    thin(&picks, near)
}

/// Merging takes candidates one by one: one that is near none of those kept so
/// far is kept behind them; any other takes the place of a kept one near it, and
/// only if it lies deeper, or is dropped. Five points need no choice among them.
pub proof fn merging_keeps_the_deeper_of_neighbours(
    separations: Seq<Double>,
    near: Seq<Vec<bool>>,
    count: int,
)
    requires
        0 < count <= separations.len() <= usize::MAX,
        forall|j: int| #![trigger separations[j]] 0 <= j < separations.len() ==> separations[j].finite(),
    ensures
        ({
            let before = merged(separations, near, count - 1);
            let now = merged(separations, near, count);
            let candidate = count - 1;
            if forall|k: int|
                #![trigger before[k]]
                0 <= k < before.len() ==> !near[before[k] as int]@[candidate] {
                now == before.push(candidate as usize)
            } else {
                ||| now == before && exists|k: int|
                    #![trigger before[k]]
                    0 <= k < before.len() && near[before[k] as int]@[candidate]
                        && separations[before[k] as int].units() <= separations[candidate].units()
                ||| exists|k: int|
                    #![trigger before[k]]
                    0 <= k < before.len() && near[before[k] as int]@[candidate]
                        && separations[candidate].units() < separations[before[k] as int].units()
                        && now == before.update(k, candidate as usize)
            }
        }),
        MANIFOLD_POINTS == 5,
{
    let before = merged(separations, near, count - 1);
    let now = merged(separations, near, count);
    let candidate = count - 1;
    lemma_merged(separations, near, count - 1);
    if near_kept(before, near, candidate) {
        let k = choose|k: int| 0 <= k < before.len() && #[trigger] near[before[k] as int]@[candidate];
        lemma_first_near(before, near, candidate, k);
        let at = choose|k: int| first_near(before, near, candidate, k);
        assert(first_near(before, near, candidate, at));
        assert(before[at] < count - 1);
        assert(near[before[at] as int]@[candidate]);
        doubles_compare_as_their_values(
            separations[candidate],
            separations[before[at] as int],
        );
        let here = before[k];
    }
}

/// The extremes of many points are the highest along each direction, the last of
/// equal ones, and the deepest of all, the first of equal ones.
pub proof fn extremes_reach_furthest(
    separations: Seq<Double>,
    heights: Seq<Vec<Double>>,
    kept: Seq<usize>,
    picks: Seq<usize>,
    d: int,
    j: int,
)
    requires
        extremes(separations, heights, kept, picks),
        0 <= j < kept.len(),
        separations[kept[j] as int].finite(),
        separations[picks.last() as int].finite(),
    ensures
        kept.contains(picks.last()),
        separations[picks.last() as int].units() <= separations[kept[j] as int].units(),
        0 <= d < heights.len() && heights[d]@[picks[d] as int].finite()
            && heights[d]@[kept[j] as int].finite() ==> kept.contains(picks[d])
            && heights[d]@[kept[j] as int].units() <= heights[d]@[picks[d] as int].units(),
        separations[kept[j] as int] == separations[picks.last() as int] ==> exists|at: int|
            0 <= at <= j && #[trigger] kept[at] == picks.last(),
        0 <= d < heights.len() && heights[d]@[kept[j] as int] == heights[d]@[picks[d] as int]
            ==> exists|at: int| j <= at < kept.len() && #[trigger] kept[at] == picks[d],
{
    let last = picks.last();
    assert(bottoms(separations, kept, last));
    all_double_patterns_stand_in_a_row(separations[kept[j] as int], separations[last as int]);
    doubles_compare_as_their_values(separations[kept[j] as int], separations[last as int]);
    let here = kept[j];
    if 0 <= d < heights.len() {
        assert(tops(heights[d]@, kept, picks[d]));
    }
    if 0 <= d < heights.len() && heights[d]@[picks[d] as int].finite()
        && heights[d]@[kept[j] as int].finite() {
        assert(tops(heights[d]@, kept, picks[d]));
        all_double_patterns_stand_in_a_row(
            heights[d]@[picks[d] as int],
            heights[d]@[kept[j] as int],
        );
        doubles_compare_as_their_values(
            heights[d]@[picks[d] as int],
            heights[d]@[kept[j] as int],
        );
    }
}

/// The picks of a polygon reach furthest along each direction.
pub proof fn picks_reach_furthest(
    heights: Seq<Vec<Double>>,
    picks: Seq<usize>,
    d: int,
    j: int,
)
    requires
        reach_furthest(heights, picks),
        0 <= d < heights.len(),
        0 <= j < heights[d]@.len(),
        heights[d]@[picks[d] as int].finite(),
        heights[d]@[j].finite(),
    ensures
        picks[d] < heights[d]@.len(),
        heights[d]@[j].units() <= heights[d]@[picks[d] as int].units(),
        j < picks[d] ==> heights[d]@[j].units() < heights[d]@[picks[d] as int].units(),
{
    let pick = picks[d];
    assert(leads(heights[d]@, pick as int));
    the_leading_gap_is_the_greatest(heights[d]@, pick as int, j);
}

} // verus!
