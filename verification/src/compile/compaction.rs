//! Merging grid-aligned boxes of one material into fewer boxes.
//!
//! Touching, axis-aligned boxes of one rigid body and one exact material merge
//! along x, then y, then z. Mass properties were integrated from the source
//! geometry already, so this changes only the collision decomposition.

use vstd::prelude::*;

use crate::ids::PartId;
use crate::scalar::Scalar;
use crate::exact::{
    all_patterns_stand_in_a_row, coded, lemma_encoded, numbers_compare_as_their_values, rounds,
    signs_are_those_of_values,
};

verus! {

/// Largest difference of two bounds that still counts as none, in metres: 1e-6.
pub const BOUND_TOLERANCE: u32 = 0x3586_37BD;

/// Smallest component of an axis that still runs along a world axis: 1 - 1e-5.
pub const ALIGNED_COMPONENT: u32 = 0x3F7F_FF58;

/// How boxes are ordered before a merge along one axis.
#[derive(Clone, Copy, Debug, PartialEq, Eq, PartialOrd, Ord)]
pub struct CompactCuboidKey {
    /// Exact material response.
    pub material: [u32; 6],
    /// Bounds across the axis, in micrometres.
    pub other_bounds: [i64; 4],
    /// Lower bound along the axis, in micrometres.
    pub along_minimum: i64,
}

impl CompactCuboidKey {
    /// The key's numbers, the weightiest first.
    pub open spec fn digits(self) -> Seq<int> {
        Seq::new(
            11,
            |i: int|
                if i < 6 {
                    self.material@[i] as int
                } else if i < 10 {
                    self.other_bounds@[i - 6] as int
                } else {
                    self.along_minimum as int
                },
        )
    }

    /// The number at a position.
    fn digit(&self, i: usize) -> (digit: i64)
        requires
            i < 11,
        ensures
            digit == self.digits()[i as int],
    {
        if i < 6 {
            self.material[i] as i64
        } else if i < 10 {
            self.other_bounds[i - 6]
        } else {
            self.along_minimum
        }
    }
}

/// Whether numbers agree before a position and the first is smaller there.
pub open spec fn smaller_at(a: Seq<int>, b: Seq<int>, at: int) -> bool {
    &&& 0 <= at < a.len()
    &&& a[at] < b[at]
    &&& forall|j: int| #![trigger a[j]] 0 <= j < at ==> a[j] == b[j]
}

/// Whether a key comes before another.
pub open spec fn key_before(a: CompactCuboidKey, b: CompactCuboidKey) -> bool {
    exists|at: int| #[trigger] smaller_at(a.digits(), b.digits(), at)
}

/// Whether a row comes before another: by key, then as listed.
pub open spec fn row_before(keys: Seq<CompactCuboidKey>, a: int, b: int) -> bool {
    key_before(keys[a], keys[b]) || (keys[a].digits() == keys[b].digits() && a < b)
}

/// Whether rows are listed once each, in order.
pub open spec fn rows_ordered(keys: Seq<CompactCuboidKey>, order: Seq<usize>) -> bool {
    &&& order.len() == keys.len()
    &&& forall|i: int| #![trigger order[i]] 0 <= i < order.len() ==> order[i] < keys.len()
    &&& forall|i: int, j: int|
        #![trigger order[i], order[j]]
        0 <= i < j < order.len() ==> row_before(keys, order[i] as int, order[j] as int)
}

/// No row comes before itself, and of two rows one comes first.
proof fn lemma_row_order(keys: Seq<CompactCuboidKey>, a: int, b: int)
    ensures
        !row_before(keys, a, a),
        !(row_before(keys, a, b) && row_before(keys, b, a)),
        a == b || row_before(keys, a, b) || row_before(keys, b, a),
{
    let x = keys[a].digits();
    let y = keys[b].digits();
    if key_before(keys[a], keys[a]) {
        let at = choose|at: int| #[trigger] smaller_at(x, x, at);
        assert(false);
    }
    if key_before(keys[a], keys[b]) {
        let at = choose|at: int| #[trigger] smaller_at(x, y, at);
        if key_before(keys[b], keys[a]) {
            let other = choose|at: int| #[trigger] smaller_at(y, x, at);
            if at < other {
                assert(y[at] == x[at]);
            } else if other < at {
                assert(x[other] == y[other]);
            }
            assert(false);
        }
        assert(x != y);
    } else if key_before(keys[b], keys[a]) {
        let at = choose|at: int| #[trigger] smaller_at(y, x, at);
        assert(x != y);
    } else {
        lemma_equal_digits(keys[a], keys[b], 11);
        assert(x =~= y);
    }
}

/// Keys neither of which comes first agree.
proof fn lemma_equal_digits(a: CompactCuboidKey, b: CompactCuboidKey, count: int)
    requires
        !key_before(a, b),
        !key_before(b, a),
        0 <= count <= 11,
    ensures
        forall|j: int|
            #![trigger a.digits()[j]]
            0 <= j < count ==> a.digits()[j] == b.digits()[j],
    decreases count,
{
    if count > 0 {
        lemma_equal_digits(a, b, count - 1);
        let at = count - 1;
        if a.digits()[at] < b.digits()[at] {
            assert(smaller_at(a.digits(), b.digits(), at));
        } else if b.digits()[at] < a.digits()[at] {
            assert forall|j: int| #![trigger b.digits()[j]] 0 <= j < at implies b.digits()[j]
                == a.digits()[j] by {
                assert(a.digits()[j] == b.digits()[j]);
            }
            assert(smaller_at(b.digits(), a.digits(), at));
        }
    }
}

/// What comes before a row comes before everything behind that row.
proof fn lemma_row_transitive(keys: Seq<CompactCuboidKey>, a: int, b: int, c: int)
    requires
        row_before(keys, a, b),
        row_before(keys, b, c),
    ensures
        row_before(keys, a, c),
{
    let x = keys[a].digits();
    let y = keys[b].digits();
    let z = keys[c].digits();
    if key_before(keys[a], keys[b]) && key_before(keys[b], keys[c]) {
        let first = choose|at: int| #[trigger] smaller_at(x, y, at);
        let second = choose|at: int| #[trigger] smaller_at(y, z, at);
        let at = if first < second {
            first
        } else {
            second
        };
        assert forall|j: int| #![trigger x[j]] 0 <= j < at implies x[j] == z[j] by {
            assert(x[j] == y[j]);
            assert(y[j] == z[j]);
        }
        if first < second {
            assert(y[first] == z[first]);
        } else if second < first {
            assert(x[second] == y[second]);
        }
        assert(smaller_at(x, z, at));
    } else if key_before(keys[a], keys[b]) {
        let at = choose|at: int| #[trigger] smaller_at(x, y, at);
        assert(smaller_at(x, z, at));
    } else if key_before(keys[b], keys[c]) {
        let at = choose|at: int| #[trigger] smaller_at(y, z, at);
        assert(smaller_at(x, z, at));
    }
}

/// Whether a row comes before another.
fn comes_before(keys: &Vec<CompactCuboidKey>, a: usize, b: usize) -> (before: bool)
    requires
        a < keys@.len(),
        b < keys@.len(),
    ensures
        before == row_before(keys@, a as int, b as int),
{
    let ghost x = keys@[a as int].digits();
    let ghost y = keys@[b as int].digits();
    let mut i: usize = 0;
    while i < 11
        invariant
            i <= 11,
            a < keys@.len(),
            b < keys@.len(),
            x == keys@[a as int].digits(),
            y == keys@[b as int].digits(),
            forall|j: int| #![trigger x[j]] 0 <= j < i ==> x[j] == y[j],
        decreases 11 - i,
    {
        let left: i64 = keys[a].digit(i);
        let right: i64 = keys[b].digit(i);
        if left < right {
            assert(smaller_at(x, y, i as int));
            return true;
        }
        if right < left {
            proof {
                assert forall|at: int| !#[trigger] smaller_at(x, y, at) by {
                    if 0 <= at < i {
                        assert(x[at] == y[at]);
                    } else if i < at {
                        assert(x[i as int] != y[i as int]);
                    }
                }
                assert(x[i as int] != y[i as int]);
            }
            return false;
        }
        i += 1;
    }
    proof {
        assert(x =~= y);
        assert forall|at: int| !#[trigger] smaller_at(x, y, at) by {}
    }
    a < b
}

/// Orders rows by key; rows of one key stay as listed.
pub fn order_rows(keys: &Vec<CompactCuboidKey>) -> (order: Vec<usize>)
    ensures
        rows_ordered(keys@, order@),
{
    let mut order: Vec<usize> = Vec::new();
    let mut row: usize = 0;
    while row < keys.len()
        invariant
            row <= keys@.len(),
            order@.len() == row,
            forall|i: int| #![trigger order@[i]] 0 <= i < order@.len() ==> order@[i] < row,
            forall|i: int, j: int|
                #![trigger order@[i], order@[j]]
                0 <= i < j < order@.len() ==> row_before(
                    keys@,
                    order@[i] as int,
                    order@[j] as int,
                ),
        decreases keys@.len() - row,
    {
        let mut at: usize = order.len();
        while at > 0 && comes_before(keys, row, order[at - 1])
            invariant
                row < keys@.len(),
                at <= order@.len(),
                order@.len() == row,
                forall|i: int| #![trigger order@[i]] 0 <= i < order@.len() ==> order@[i] < row,
                forall|i: int|
                    #![trigger order@[i]]
                    at <= i < order@.len() ==> row_before(keys@, row as int, order@[i] as int),
            decreases at,
        {
            at -= 1;
        }
        let ghost before = order@;
        proof {
            assert forall|i: int| #![trigger before[i]] 0 <= i < at implies row_before(
                keys@,
                before[i] as int,
                row as int,
            ) by {
                lemma_row_order(keys@, before[at - 1] as int, row as int);
                if i < at - 1 {
                    assert(row_before(keys@, before[i] as int, before[at - 1] as int));
                    lemma_row_transitive(
                        keys@,
                        before[i] as int,
                        before[at - 1] as int,
                        row as int,
                    );
                }
            }
        }
        order.insert(at, row);
        proof {
            assert(order@ =~= before.insert(at as int, row));
            assert forall|i: int, j: int|
                #![trigger order@[i], order@[j]]
                0 <= i < j < order@.len() implies row_before(
                keys@,
                order@[i] as int,
                order@[j] as int,
            ) by {
                let a = if i < at {
                    i
                } else {
                    i - 1
                };
                let b = if j < at {
                    j
                } else {
                    j - 1
                };
                if i == at {
                    assert(order@[j] == before[b]);
                } else if j == at {
                    assert(order@[i] == before[a]);
                } else {
                    assert(order@[i] == before[a]);
                    assert(order@[j] == before[b]);
                    assert(row_before(keys@, before[a] as int, before[b] as int));
                }
            }
            assert forall|i: int| #![trigger order@[i]] 0 <= i < order@.len() implies order@[i]
                < row + 1 by {
                if i < at {
                    assert(order@[i] == before[i]);
                } else if i > at {
                    assert(order@[i] == before[i - 1]);
                }
            }
        }
        row += 1;
    }
    order
}

/// Whether a row comes from geometry that makes this one row.
pub open spec fn single(sources: Seq<PartId>, i: int) -> bool {
    forall|j: int| #![trigger sources[j]] 0 <= j < sources.len() && sources[j] == sources[i] ==> j
        == i
}

/// Whether a row may merge: a box along the axes that its part makes alone.
pub open spec fn mergeable(sources: Seq<PartId>, aligned: Seq<bool>, i: int) -> bool {
    single(sources, i) && aligned[i]
}

/// The first `count` rows that may merge, or that may not, as listed.
pub open spec fn rows_where(sources: Seq<PartId>, aligned: Seq<bool>, merging: bool, count: int) -> Seq<
    usize,
>
    decreases count,
{
    if count <= 0 {
        Seq::empty()
    } else {
        let before = rows_where(sources, aligned, merging, count - 1);
        if mergeable(sources, aligned, count - 1) == merging {
            before.push((count - 1) as usize)
        } else {
            before
        }
    }
}

/// Every row is in exactly one of the two lists.
pub proof fn rows_are_split(sources: Seq<PartId>, aligned: Seq<bool>, count: int)
    requires
        0 <= count,
    ensures
        rows_where(sources, aligned, true, count).len() + rows_where(
            sources,
            aligned,
            false,
            count,
        ).len() == count,
    decreases count,
{
    if count > 0 {
        rows_are_split(sources, aligned, count - 1);
    }
}

/// Collider rows by what happens to them.
#[derive(Debug, PartialEq, Eq)]
pub struct CompactionPlan {
    /// Rows that may merge.
    pub boxes: Vec<usize>,
    /// Rows that stay as they are, behind the boxes.
    pub preserved: Vec<usize>,
}

/// Whether a row's part makes that row alone.
fn is_single(sources: &Vec<PartId>, i: usize) -> (alone: bool)
    requires
        i < sources@.len(),
    ensures
        alone == single(sources@, i as int),
{
    let mut j: usize = 0;
    while j < sources.len()
        invariant
            j <= sources@.len(),
            i < sources@.len(),
            forall|k: int|
                #![trigger sources@[k]]
                0 <= k < j && sources@[k] == sources@[i as int] ==> k == i,
        decreases sources@.len() - j,
    {
        if j != i && sources[j] == sources[i] {
            assert(sources@[j as int] == sources@[i as int]);
            return false;
        }
        j += 1;
    }
    true
}

/// Splits collider rows into boxes that may merge and rows that stay. Several
/// rows of one part are one decomposition and stay untouched.
pub fn plan_compaction(sources: &Vec<PartId>, aligned: &Vec<bool>) -> (plan: CompactionPlan)
    requires
        sources@.len() == aligned@.len(),
    ensures
        plan.boxes@ == rows_where(sources@, aligned@, true, sources@.len() as int),
        plan.preserved@ == rows_where(sources@, aligned@, false, sources@.len() as int),
{
    let mut boxes: Vec<usize> = Vec::new();
    let mut preserved: Vec<usize> = Vec::new();
    let mut i: usize = 0;
    while i < sources.len()
        invariant
            i <= sources@.len(),
            sources@.len() == aligned@.len(),
            boxes@ == rows_where(sources@, aligned@, true, i as int),
            preserved@ == rows_where(sources@, aligned@, false, i as int),
        decreases sources@.len() - i,
    {
        if is_single(sources, i) && aligned[i] {
            boxes.push(i);
        } else {
            preserved.push(i);
        }
        i += 1;
    }
    CompactionPlan { boxes, preserved }
}

/// What is compared of two boxes that might merge.
#[derive(Clone, Copy, Debug, PartialEq, Eq)]
pub struct LanePair {
    /// The bodies of the two.
    pub compounds: (u32, u32),
    /// The material of the first.
    pub first_material: [u32; 6],
    /// The material of the second.
    pub second_material: [u32; 6],
    /// How far apart their four bounds across the axis lie.
    pub across: [Scalar; 4],
    /// How far the second's low end lies from the first's high end.
    pub along: Scalar,
}

/// Whether a distance counts as none.
pub open spec fn negligible(distance: Scalar) -> bool {
    distance.unsigned().at_most(Scalar { bits: BOUND_TOLERANCE })
}

/// Whether two boxes merge: one body, one material, equal bounds across the
/// axis, and touching along it.
pub open spec fn merges(pair: LanePair) -> bool {
    &&& pair.compounds.0 == pair.compounds.1
    &&& pair.first_material@ == pair.second_material@
    &&& negligible(pair.across@[0]) && negligible(pair.across@[1]) && negligible(pair.across@[2])
        && negligible(pair.across@[3])
    &&& negligible(pair.along)
}

/// Whether a distance counts as none.
fn is_negligible(distance: Scalar) -> (none: bool)
    ensures
        none == negligible(distance),
{
    distance.absolute().less_or_equal(Scalar::from_bits(BOUND_TOLERANCE))
}

/// Whether two boxes merge.
pub fn can_merge(pair: LanePair) -> (merge: bool)
    ensures
        merge == merges(pair),
{
    let first: [u32; 6] = pair.first_material;
    let second: [u32; 6] = pair.second_material;
    let same: bool = first[0] == second[0] && first[1] == second[1] && first[2] == second[2]
        && first[3] == second[3] && first[4] == second[4] && first[5] == second[5];
    proof {
        if same {
            assert(first@ =~= second@);
        }
    }
    pair.compounds.0 == pair.compounds.1 && same && is_negligible(pair.across[0])
        && is_negligible(pair.across[1]) && is_negligible(pair.across[2]) && is_negligible(
        pair.across[3],
    ) && is_negligible(pair.along)
}

/// The last of the components that are largest in the order of all patterns.
pub open spec fn dominant(components: Seq<Scalar>, at: int) -> bool {
    &&& 0 <= at < 3
    &&& forall|j: int|
        #![trigger components[j]]
        0 <= j < 3 ==> components[j].total_key() <= components[at].total_key() && (j > at
            ==> components[j].total_key() < components[at].total_key())
}

/// Whether a turned axis runs along a world axis.
pub open spec fn runs_along(components: Seq<Scalar>, at: int) -> bool {
    dominant(components, at) && !components[at].below(Scalar { bits: ALIGNED_COMPONENT })
}

/// Whether three turned axes run along three different world axes.
pub open spec fn axes_along(axes: Seq<[Scalar; 3]>, world: (int, int, int)) -> bool {
    &&& runs_along(axes[0]@, world.0)
    &&& runs_along(axes[1]@, world.1)
    &&& runs_along(axes[2]@, world.2)
    &&& world.0 != world.1
    &&& world.0 != world.2
    &&& world.1 != world.2
}

/// The world axis that a turned axis is most along.
fn dominant_axis(components: [Scalar; 3]) -> (at: usize)
    ensures
        dominant(components@, at as int),
{
    let mut at: usize = 0;
    if components[0].total_less_or_equal(components[1]) {
        at = 1;
    }
    if components[at].total_less_or_equal(components[2]) {
        at = 2;
    }
    at
}

/// Whether a turned box stands along the world axes, from the magnitudes of its
/// three axes' components.
pub fn axes_aligned(axes: [[Scalar; 3]; 3]) -> (aligned: bool)
    ensures
        aligned == exists|world: (int, int, int)| #[trigger] axes_along(axes@, world),
{
    let bar: Scalar = Scalar::from_bits(ALIGNED_COMPONENT);
    let first: [Scalar; 3] = axes[0];
    let second: [Scalar; 3] = axes[1];
    let third: [Scalar; 3] = axes[2];
    let a: usize = dominant_axis(first);
    let b: usize = dominant_axis(second);
    let c: usize = dominant_axis(third);
    let aligned: bool = !first[a].less(bar) && !second[b].less(bar) && !third[c].less(bar) && a != b
        && a != c && b != c;
    proof {
        if aligned {
            assert(axes_along(axes@, (a as int, b as int, c as int)));
        }
        assert forall|world: (int, int, int)| #[trigger] axes_along(axes@, world) implies aligned by {
            lemma_one_dominant(first@, world.0, a as int);
            lemma_one_dominant(second@, world.1, b as int);
            lemma_one_dominant(third@, world.2, c as int);
        }
    }
    aligned
}

/// Only one component is dominant.
proof fn lemma_one_dominant(components: Seq<Scalar>, a: int, b: int)
    requires
        dominant(components, a),
        dominant(components, b),
    ensures
        a == b,
{
    assert(components[a].total_key() <= components[b].total_key());
    assert(components[b].total_key() <= components[a].total_key());
}

/// A distance counts as none up to a millionth, whichever way it points; what is
/// no number never does.
pub proof fn a_millionth_counts_as_none(distance: Scalar)
    ensures
        distance.finite() ==> (negligible(distance) <==> -coded(BOUND_TOLERANCE)
            <= distance.units() <= coded(BOUND_TOLERANCE)),
        distance.nan() ==> !negligible(distance),
        rounds(BOUND_TOLERANCE, 1, 1_000_000),
        rounds(ALIGNED_COMPONENT, 99_999, 100_000),
{
    let tolerance = Scalar { bits: BOUND_TOLERANCE };
    if distance.finite() {
        signs_are_those_of_values(distance);
        numbers_compare_as_their_values(distance.unsigned(), tolerance);
    }
    vstd::arithmetic::power2::lemma2_to64();
    vstd::arithmetic::power2::lemma_pow2_adds(32, 11);
    lemma_encoded(BOUND_TOLERANCE, 1, 1_000_000, 43);
    lemma_encoded(ALIGNED_COMPONENT, 99_999, 100_000, 24);
}

/// Boxes merge only within one body and one material, with all four bounds
/// across the axis agreeing and the ends along it meeting; and then they do.
pub proof fn boxes_merge_when_they_meet(pair: LanePair)
    ensures
        merges(pair) ==> pair.compounds.0 == pair.compounds.1,
        merges(pair) ==> forall|i: int|
            #![trigger pair.first_material@[i]]
            0 <= i < 6 ==> pair.first_material@[i] == pair.second_material@[i],
        merges(pair) ==> forall|i: int|
            #![trigger pair.across@[i]]
            0 <= i < 4 ==> negligible(pair.across@[i]),
        merges(pair) ==> negligible(pair.along),
        pair.compounds.0 == pair.compounds.1 && pair.first_material == pair.second_material && (
        forall|i: int| #![trigger pair.across@[i]] 0 <= i < 4 ==> negligible(pair.across@[i]))
            && negligible(pair.along) ==> merges(pair),
{
    let bounds = pair.across@;
    assert(bounds.len() == 4);
    if forall|i: int| #![trigger pair.across@[i]] 0 <= i < 4 ==> negligible(pair.across@[i]) {
        assert(negligible(pair.across@[0]) && negligible(pair.across@[1]) && negligible(
            pair.across@[2],
        ) && negligible(pair.across@[3]));
    }
}

/// Boxes are brought together by material, then by the bounds across the axis,
/// then by the low end along it; boxes of one key stay as listed.
pub proof fn boxes_are_ordered_by_material_then_bounds(
    keys: Seq<CompactCuboidKey>,
    order: Seq<usize>,
    i: int,
    j: int,
)
    requires
        rows_ordered(keys, order),
        0 <= i < j < order.len(),
    ensures
        ({
            let a = keys[order[i] as int];
            let b = keys[order[j] as int];
            &&& order[i] != order[j]
            &&& a.material@ == b.material@ && a.other_bounds@ == b.other_bounds@ ==> a.along_minimum
                <= b.along_minimum
            &&& a.material@ == b.material@ ==> a.other_bounds@[0] <= b.other_bounds@[0]
            &&& a.material@[0] <= b.material@[0]
            &&& a.material@ == b.material@ && a.other_bounds@ == b.other_bounds@ && a.along_minimum
                == b.along_minimum ==> order[i] < order[j]
        }),
{
    let a = keys[order[i] as int];
    let b = keys[order[j] as int];
    assert(row_before(keys, order[i] as int, order[j] as int));
    assert forall|k: int| #![trigger a.digits()[k]] 0 <= k < 6 implies a.digits()[k]
        == a.material@[k] as int && b.digits()[k] == b.material@[k] as int by {}
    assert forall|k: int| #![trigger a.digits()[k]] 6 <= k < 10 implies a.digits()[k]
        == a.other_bounds@[k - 6] as int && b.digits()[k] == b.other_bounds@[k - 6] as int by {}
    if key_before(a, b) {
        let at = choose|at: int| #[trigger] smaller_at(a.digits(), b.digits(), at);
        assert(a.digits()[at] < b.digits()[at]);
        assert(a.digits()[0] <= b.digits()[0]) by {
            if at > 0 {
                assert(a.digits()[0] == b.digits()[0]);
            }
        }
        if a.material@ == b.material@ {
            assert(at >= 6) by {
                if at < 6 {
                    assert(a.digits()[at] == b.digits()[at]);
                }
            }
            assert(a.digits()[6] <= b.digits()[6]) by {
                if at > 6 {
                    assert(a.digits()[6] == b.digits()[6]);
                }
            }
            if a.other_bounds@ == b.other_bounds@ {
                assert(at >= 10) by {
                    if at < 10 {
                        assert(a.digits()[at] == b.digits()[at]);
                    }
                }
            }
        }
    } else {
        assert(a.digits() == b.digits());
        assert(a.digits()[0] == b.digits()[0]);
        assert(a.digits()[6] == b.digits()[6]);
        assert(a.digits()[10] == b.digits()[10]);
    }
}

/// A row may merge exactly when it stands along the axes and is the only one of
/// its part, and otherwise stays; either list keeps the rows' order.
pub proof fn only_single_boxes_may_merge(
    sources: Seq<PartId>,
    aligned: Seq<bool>,
    count: int,
    row: usize,
)
    requires
        0 <= count <= sources.len() <= usize::MAX,
        sources.len() == aligned.len(),
    ensures
        rows_where(sources, aligned, true, count).contains(row) <==> row < count
            && aligned[row as int] && (forall|j: int|
            #![trigger sources[j]]
            0 <= j < sources.len() && j != row ==> sources[j] != sources[row as int]),
        rows_where(sources, aligned, false, count).contains(row) <==> row < count && !(
        aligned[row as int] && (forall|j: int|
            #![trigger sources[j]]
            0 <= j < sources.len() && j != row ==> sources[j] != sources[row as int])),
        forall|i: int, j: int, merging: bool|
            #![trigger rows_where(sources, aligned, merging, count)[i], rows_where(sources, aligned, merging, count)[j]]
            0 <= i < j < rows_where(sources, aligned, merging, count).len() ==> rows_where(
                sources,
                aligned,
                merging,
                count,
            )[i] < rows_where(sources, aligned, merging, count)[j] < count,
    decreases count,
{
    if count > 0 {
        only_single_boxes_may_merge(sources, aligned, count - 1, row);
        assert forall|merging: bool, i: int|
            #![trigger rows_where(sources, aligned, merging, count - 1)[i]]
            0 <= i < rows_where(sources, aligned, merging, count - 1).len() implies rows_where(
            sources,
            aligned,
            merging,
            count - 1,
        )[i] < count - 1 by {
            let listed = rows_where(sources, aligned, merging, count - 1);
            assert(listed.contains(listed[i]));
            only_single_boxes_may_merge(sources, aligned, count - 1, listed[i]);
        }
        assert forall|i: int, j: int, merging: bool|
            #![trigger rows_where(sources, aligned, merging, count)[i], rows_where(sources, aligned, merging, count)[j]]
            0 <= i < j < rows_where(sources, aligned, merging, count).len() implies rows_where(
            sources,
            aligned,
            merging,
            count,
        )[i] < rows_where(sources, aligned, merging, count)[j] < count by {
            let before = rows_where(sources, aligned, merging, count - 1);
            let now = rows_where(sources, aligned, merging, count);
            assert(now[i] == before[i]);
            if j < before.len() {
                assert(now[j] == before[j]);
            }
        }
        broadcast use vstd::seq_lib::group_seq_properties;

    }
}

/// A turned box stands along the world when each of its axes does: its largest
/// component no more than a hundred-thousandth short of one, and no two axes
/// along the same world axis.
pub proof fn aligned_axes_run_along_the_world(axes: Seq<[Scalar; 3]>, world: (int, int, int), axis: int, j: int)
    requires
        axes.len() == 3,
        axes_along(axes, world),
        0 <= axis < 3,
        0 <= j < 3,
        forall|k: int, l: int|
            #![trigger axes[k]@[l]]
            0 <= k < 3 && 0 <= l < 3 ==> axes[k]@[l].finite(),
    ensures
        ({
            let along = if axis == 0 {
                world.0
            } else if axis == 1 {
                world.1
            } else {
                world.2
            };
            &&& 0 <= along < 3
            &&& axes[axis]@[j].units() <= axes[axis]@[along].units()
            &&& j > along ==> axes[axis]@[j] != axes[axis]@[along]
            &&& coded(ALIGNED_COMPONENT) <= axes[axis]@[along].units()
        }),
        world.0 + world.1 + world.2 == 3,
{
    let along = if axis == 0 {
        world.0
    } else if axis == 1 {
        world.1
    } else {
        world.2
    };
    assert(runs_along(axes[axis]@, along));
    let largest = axes[axis]@[along];
    let other = axes[axis]@[j];
    let limit = Scalar { bits: ALIGNED_COMPONENT };
    numbers_compare_as_their_values(largest, limit);
    numbers_compare_as_their_values(largest, other);
    all_patterns_stand_in_a_row(largest, other);
}

} // verus!
