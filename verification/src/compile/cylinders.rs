//! Where the collider rows of whole cylinders stand.
//!
//! Merging boxes moves the rows that stay behind them. The rows of one cylinder
//! stay together and in order, so its first row tells where all of them are.

use vstd::prelude::*;

use super::assembly::CompiledBody;
use super::colliders::CYLINDER_COLLIDER_COUNT;
use super::compaction::{mergeable, rows_where, single};
use super::emission::ColliderSource;
use crate::ids::PartId;

verus! {

/// Collider rows of one whole cylinder.
#[derive(Clone, Copy, Debug, PartialEq, Eq, Structural)]
pub struct CylinderRows {
    /// Source editable part.
    pub part: PartId,
    /// First of the rows that stand for the cylinder.
    pub first_collider: u32,
}

/// The part that a source's rows name.
pub open spec fn named_part(source: ColliderSource) -> PartId {
    match source {
        ColliderSource::Part { part, .. } => part,
        ColliderSource::EvaluatedPart { part } => part,
        ColliderSource::Region { part, .. } => part,
        ColliderSource::EvaluatedRegion { part, .. } => part,
    }
}

/// Rows that the first `count` sources emit.
pub open spec fn emitted_before(counts: Seq<usize>, count: int) -> int
    decreases count,
{
    if count <= 0 {
        0
    } else {
        emitted_before(counts, count - 1) + counts[count - 1]
    }
}

/// The part that each row of the first `count` sources names, before boxes merge.
pub open spec fn emitted_parts(
    sources: Seq<ColliderSource>,
    counts: Seq<usize>,
    count: int,
) -> Seq<PartId>
    decreases count,
{
    if count <= 0 {
        Seq::empty()
    } else {
        emitted_parts(sources, counts, count - 1) + Seq::new(
            counts[count - 1] as nat,
            |k: int| named_part(sources[count - 1]),
        )
    }
}

/// Whether a source's rows stand for one whole cylinder.
pub open spec fn whole_cylinder(source: ColliderSource, rows: usize) -> bool {
    source matches ColliderSource::Part { round: true, .. } && rows == CYLINDER_COLLIDER_COUNT
}

/// How many of the first `count` emitted rows stay as they are.
pub open spec fn stay_before(parts: Seq<PartId>, aligned: Seq<bool>, count: int) -> int {
    rows_where(parts, aligned, false, count).len() as int
}

/// Whether a body's row is the emitted one: the rows that stay stand behind the
/// `boxes` boxes that merging leaves, in the order in which they were emitted.
pub open spec fn row_is(
    parts: Seq<PartId>,
    aligned: Seq<bool>,
    boxes: int,
    row: int,
    emitted: int,
) -> bool {
    let stay = rows_where(parts, aligned, false, parts.len() as int);
    boxes <= row < boxes + stay.len() && stay[row - boxes] == emitted
}

/// Whole cylinders among the first `count` sources, with their first rows behind
/// `first`.
pub open spec fn cylinders_of(
    sources: Seq<ColliderSource>,
    counts: Seq<usize>,
    aligned: Seq<bool>,
    boxes: int,
    first: int,
    count: int,
) -> Seq<CylinderRows>
    decreases count,
{
    if count <= 0 {
        Seq::empty()
    } else {
        let before = cylinders_of(sources, counts, aligned, boxes, first, count - 1);
        let parts = emitted_parts(sources, counts, sources.len() as int);
        if whole_cylinder(sources[count - 1], counts[count - 1]) {
            before.push(
                CylinderRows {
                    part: named_part(sources[count - 1]),
                    first_collider: (first + boxes + stay_before(
                        parts,
                        aligned,
                        emitted_before(counts, count - 1),
                    )) as u32,
                },
            )
        } else {
            before
        }
    }
}

/// As many rows are emitted as are counted.
proof fn lemma_emitted(sources: Seq<ColliderSource>, counts: Seq<usize>, count: int)
    requires
        0 <= count,
    ensures
        emitted_parts(sources, counts, count).len() == emitted_before(counts, count),
        0 <= emitted_before(counts, count),
    decreases count,
{
    if count > 0 {
        lemma_emitted(sources, counts, count - 1);
    }
}

/// The rows of a source name its part.
proof fn lemma_emitted_row(
    sources: Seq<ColliderSource>,
    counts: Seq<usize>,
    count: int,
    s: int,
    k: int,
)
    requires
        0 <= s < count,
        0 <= k < counts[s],
    ensures
        emitted_before(counts, s) + k < emitted_before(counts, count),
        emitted_parts(sources, counts, count)[emitted_before(counts, s) + k] == named_part(
            sources[s],
        ),
    decreases count,
{
    lemma_emitted(sources, counts, s);
    lemma_emitted(sources, counts, count - 1);
    if s < count - 1 {
        lemma_emitted_row(sources, counts, count - 1, s, k);
    }
}

/// Rows that stay keep their order, whatever follows them.
proof fn lemma_stay_prefix(parts: Seq<PartId>, aligned: Seq<bool>, short: int, long: int)
    requires
        0 <= short <= long,
    ensures
        stay_before(parts, aligned, short) <= stay_before(parts, aligned, long),
        0 <= stay_before(parts, aligned, short) <= short,
        forall|i: int|
            #![trigger rows_where(parts, aligned, false, long)[i]]
            0 <= i < stay_before(parts, aligned, short) ==> rows_where(
                parts,
                aligned,
                false,
                long,
            )[i] == rows_where(parts, aligned, false, short)[i],
    decreases long,
{
    if short < long {
        lemma_stay_prefix(parts, aligned, short, long - 1);
    } else if short > 0 {
        lemma_stay_prefix(parts, aligned, short - 1, short - 1);
    }
}

/// Rows in a run that cannot merge stay one behind the other.
proof fn lemma_run_stays(parts: Seq<PartId>, aligned: Seq<bool>, start: int, k: int)
    requires
        0 <= start,
        0 <= k,
        start + k < parts.len() <= usize::MAX,
        forall|j: int| start <= j <= start + k ==> !#[trigger] mergeable(parts, aligned, j),
    ensures
        stay_before(parts, aligned, start + k) == stay_before(parts, aligned, start) + k,
        stay_before(parts, aligned, start) + k < stay_before(parts, aligned, parts.len() as int),
        rows_where(parts, aligned, false, parts.len() as int)[stay_before(parts, aligned, start) + k]
            == start + k,
    decreases k,
{
    if k > 0 {
        lemma_run_stays(parts, aligned, start, k - 1);
        assert(!mergeable(parts, aligned, start + k - 1));
    }
    assert(!mergeable(parts, aligned, start + k));
    let next = rows_where(parts, aligned, false, start + k + 1);
    assert(next[stay_before(parts, aligned, start + k)] == start + k);
    lemma_stay_prefix(parts, aligned, start + k + 1, parts.len() as int);
}

/// The rows of a whole cylinder stay together behind the boxes that merging
/// leaves, in the order in which they were emitted.
pub proof fn cylinder_rows_stay_together(
    sources: Seq<ColliderSource>,
    counts: Seq<usize>,
    aligned: Seq<bool>,
    boxes: int,
    s: int,
    k: int,
)
    requires
        0 <= s < sources.len(),
        0 <= boxes,
        whole_cylinder(sources[s], counts[s]),
        emitted_before(counts, sources.len() as int) <= usize::MAX,
        0 <= k < CYLINDER_COLLIDER_COUNT,
    ensures
        ({
            let parts = emitted_parts(sources, counts, sources.len() as int);
            let start = emitted_before(counts, s);
            &&& parts[start + k] == named_part(sources[s])
            &&& row_is(
                parts,
                aligned,
                boxes,
                boxes + stay_before(parts, aligned, start) + k,
                start + k,
            )
        }),
{
    let n = sources.len() as int;
    let parts = emitted_parts(sources, counts, n);
    let start = emitted_before(counts, s);
    lemma_emitted(sources, counts, n);
    lemma_emitted(sources, counts, s);
    lemma_emitted_row(sources, counts, n, s, k);
    assert forall|j: int| start <= j <= start + k implies !#[trigger] mergeable(
        parts,
        aligned,
        j,
    ) by {
        lemma_emitted_row(sources, counts, n, s, j - start);
        let other = if j == start {
            1int
        } else {
            0int
        };
        lemma_emitted_row(sources, counts, n, s, other);
        assert(parts[start + other] == parts[j]);
        assert(!single(parts, j));
    }
    lemma_stay_prefix(parts, aligned, start, start);
    lemma_run_stays(parts, aligned, start, k);
}

/// The part that a source's rows name.
fn part_named(source: ColliderSource) -> (part: PartId)
    ensures
        part == named_part(source),
{
    match source {
        ColliderSource::Part { part, .. } => part,
        ColliderSource::EvaluatedPart { part } => part,
        ColliderSource::Region { part, .. } => part,
        ColliderSource::EvaluatedRegion { part, .. } => part,
    }
}

/// The part that each emitted row names.
pub fn emit_parts(sources: &Vec<ColliderSource>, counts: &Vec<usize>) -> (parts: Vec<PartId>)
    requires
        counts@.len() == sources@.len(),
    ensures
        parts@ == emitted_parts(sources@, counts@, sources@.len() as int),
{
    let mut parts: Vec<PartId> = Vec::new();
    let mut s: usize = 0;
    while s < sources.len()
        invariant
            s <= sources@.len() == counts@.len(),
            parts@ == emitted_parts(sources@, counts@, s as int),
        decreases sources@.len() - s,
    {
        let part: PartId = part_named(sources[s]);
        let ghost before = parts@;
        let mut k: usize = 0;
        while k < counts[s]
            invariant
                s < sources@.len() == counts@.len(),
                k <= counts@[s as int],
                part == named_part(sources@[s as int]),
                parts@ =~= before + Seq::new(k as nat, |k: int| named_part(sources@[s as int])),
            decreases counts@[s as int] - k,
        {
            parts.push(part);
            k += 1;
        }
        assert(parts@ =~= emitted_parts(sources@, counts@, s + 1));
        s += 1;
    }
    parts
}

impl CompiledBody {
    /// Finds the first collider row of every whole cylinder of this body.
    ///
    /// `counts` says how many rows each source emits, `aligned` which of them
    /// are boxes along the axes, and `boxes` how many boxes merging leaves.
    pub fn cylinder_rows(&self, counts: &Vec<usize>, aligned: &Vec<bool>, boxes: usize) -> (rows: Vec<
        CylinderRows,
    >)
        requires
            counts@.len() == self.sources@.len(),
            aligned@.len() == emitted_before(counts@, counts@.len() as int),
            self.first_collider + boxes + aligned@.len() <= u32::MAX,
        ensures
            rows@ == cylinders_of(
                self.sources@,
                counts@,
                aligned@,
                boxes as int,
                self.first_collider as int,
                self.sources@.len() as int,
            ),
            forall|c: int, k: int|
                #![trigger self.row_named(counts@, aligned@, boxes as int, rows@[c], k)]
                0 <= c < rows@.len() && 0 <= k < CYLINDER_COLLIDER_COUNT ==> self.row_named(
                    counts@,
                    aligned@,
                    boxes as int,
                    rows@[c],
                    k,
                ),
    {
        let ghost n = self.sources@.len() as int;
        let parts: Vec<PartId> = emit_parts(&self.sources, counts);
        let ghost all = parts@;
        proof {
            lemma_emitted(self.sources@, counts@, n);
        }
        let mut rows: Vec<CylinderRows> = Vec::new();
        let mut stay: usize = 0;
        let mut row: usize = 0;
        let mut s: usize = 0;
        while s < self.sources.len()
            invariant
                n == self.sources@.len(),
                s <= n == counts@.len(),
                all == parts@,
                all == emitted_parts(self.sources@, counts@, n),
                all.len() == aligned@.len() == emitted_before(counts@, n),
                self.first_collider + boxes + aligned@.len() <= u32::MAX,
                row == emitted_before(counts@, s as int),
                stay == stay_before(all, aligned@, row as int),
                rows@ == cylinders_of(
                    self.sources@,
                    counts@,
                    aligned@,
                    boxes as int,
                    self.first_collider as int,
                    s as int,
                ),
                forall|c: int, k: int|
                    #![trigger self.row_named(counts@, aligned@, boxes as int, rows@[c], k)]
                    0 <= c < rows@.len() && 0 <= k < CYLINDER_COLLIDER_COUNT ==> self.row_named(
                        counts@,
                        aligned@,
                        boxes as int,
                        rows@[c],
                        k,
                    ),
            decreases n - s,
        {
            proof {
                lemma_counts_grow(counts@, s + 1, n);
                lemma_stay_prefix(all, aligned@, row as int, row as int);
            }
            let round: bool = match self.sources[s] {
                ColliderSource::Part { round, .. } => round,
                _ => false,
            };
            if round && counts[s] == CYLINDER_COLLIDER_COUNT {
                let first_collider: u32 = self.first_collider + boxes as u32 + stay as u32;
                let ghost held = rows@;
                let found = CylinderRows { part: part_named(self.sources[s]), first_collider };
                rows.push(found);
                proof {
                    assert forall|c: int, k: int|
                        #![trigger self.row_named(counts@, aligned@, boxes as int, rows@[c], k)]
                        0 <= c < rows@.len() && 0 <= k
                            < CYLINDER_COLLIDER_COUNT implies self.row_named(
                        counts@,
                        aligned@,
                        boxes as int,
                        rows@[c],
                        k,
                    ) by {
                        if c < held.len() {
                            assert(rows@[c] == held[c]);
                            assert(self.row_named(
                                counts@,
                                aligned@,
                                boxes as int,
                                held[c],
                                k,
                            ));
                        } else {
                            cylinder_rows_stay_together(
                                self.sources@,
                                counts@,
                                aligned@,
                                boxes as int,
                                s as int,
                                k,
                            );
                            let start = emitted_before(counts@, s as int);
                            assert(rows@[c] == found);
                            assert(row_is(
                                all,
                                aligned@,
                                boxes as int,
                                rows@[c].first_collider - self.first_collider + k,
                                start + k,
                            ));
                        }
                    }
                }
            }
            let mut k: usize = 0;
            while k < counts[s]
                invariant
                    s < n == counts@.len(),
                    k <= counts@[s as int],
                    all == parts@,
                    all.len() == aligned@.len() <= u32::MAX,
                    row == emitted_before(counts@, s as int) + k,
                    emitted_before(counts@, s as int) + counts@[s as int] <= aligned@.len(),
                    0 <= stay <= row,
                    stay == stay_before(all, aligned@, row as int),
                decreases counts@[s as int] - k,
            {
                let merges: bool = is_mergeable(&parts, aligned, row);
                if !merges {
                    stay += 1;
                }
                row += 1;
                k += 1;
            }
            s += 1;
        }
        rows
    }

    /// Whether row `k` of a cylinder is one that its part emitted, the `k`th of a run.
    pub open spec fn row_named(
        &self,
        counts: Seq<usize>,
        aligned: Seq<bool>,
        boxes: int,
        cylinder: CylinderRows,
        k: int,
    ) -> bool {
        let parts = emitted_parts(self.sources@, counts, self.sources@.len() as int);
        exists|s: int|
            0 <= s < self.sources@.len() && whole_cylinder(self.sources@[s], counts[s])
                && named_part(self.sources@[s]) == cylinder.part && #[trigger] row_is(
                parts,
                aligned,
                boxes,
                cylinder.first_collider - self.first_collider + k,
                emitted_before(counts, s) + k,
            )
    }
}

/// Whether an emitted row may merge.
fn is_mergeable(parts: &Vec<PartId>, aligned: &Vec<bool>, row: usize) -> (merges: bool)
    requires
        row < parts@.len() == aligned@.len(),
    ensures
        merges == mergeable(parts@, aligned@, row as int),
{
    if !aligned[row] {
        return false;
    }
    let mut j: usize = 0;
    while j < parts.len()
        invariant
            j <= parts@.len(),
            row < parts@.len() == aligned@.len(),
            aligned@[row as int],
            forall|k: int|
                #![trigger parts@[k]]
                0 <= k < j && parts@[k] == parts@[row as int] ==> k == row,
        decreases parts@.len() - j,
    {
        if j != row && parts[j] == parts[row] {
            assert(parts@[j as int] == parts@[row as int]);
            return false;
        }
        j += 1;
    }
    true
}

/// More sources never emit fewer rows.
proof fn lemma_counts_grow(counts: Seq<usize>, short: int, long: int)
    requires
        0 <= short <= long,
    ensures
        0 <= emitted_before(counts, short) <= emitted_before(counts, long),
    decreases long,
{
    if short < long {
        lemma_counts_grow(counts, short, long - 1);
    } else if short > 0 {
        lemma_counts_grow(counts, short - 1, long - 1);
    }
}

/// Every source gives as many rows as it counts, one behind the other, all
/// naming its part.
pub proof fn sources_give_their_rows_in_turn(
    sources: Seq<ColliderSource>,
    counts: Seq<usize>,
    s: int,
    row: int,
)
    requires
        sources.len() == counts.len(),
        0 <= s < sources.len(),
    ensures
        emitted_before(counts, 0) == 0,
        emitted_before(counts, s + 1) == emitted_before(counts, s) + counts[s],
        emitted_parts(sources, counts, sources.len() as int).len() == emitted_before(
            counts,
            counts.len() as int,
        ),
        emitted_before(counts, s) <= row < emitted_before(counts, s + 1) ==> {
            let named = emitted_parts(sources, counts, sources.len() as int)[row];
            match sources[s] {
                ColliderSource::Part { part, .. } => named == part,
                ColliderSource::EvaluatedPart { part } => named == part,
                ColliderSource::Region { part, .. } => named == part,
                ColliderSource::EvaluatedRegion { part, .. } => named == part,
            }
        },
{
    lemma_emitted(sources, counts, sources.len() as int);
    lemma_emitted(sources, counts, s);
    if emitted_before(counts, s) <= row < emitted_before(counts, s + 1) {
        lemma_emitted_row(
            sources,
            counts,
            sources.len() as int,
            s,
            row - emitted_before(counts, s),
        );
    }
}

/// A cylinder is listed for every round part that gives sixteen rows and for
/// nothing else, in the order of the sources.
pub proof fn round_parts_of_sixteen_rows_are_cylinders(
    sources: Seq<ColliderSource>,
    counts: Seq<usize>,
    aligned: Seq<bool>,
    boxes: int,
    first: int,
    count: int,
)
    requires
        0 <= count < sources.len(),
    ensures
        cylinders_of(sources, counts, aligned, boxes, first, 0).len() == 0,
        ({
            let before = cylinders_of(sources, counts, aligned, boxes, first, count);
            let now = cylinders_of(sources, counts, aligned, boxes, first, count + 1);
            &&& sources[count] is Part && sources[count]->round && counts[count] == 16 ==> now.len()
                == before.len() + 1 && now.drop_last() == before && now.last().part
                == sources[count]->Part_part
            &&& !(sources[count] is Part && sources[count]->round && counts[count] == 16) ==> now
                == before
        }),
{
    let before = cylinders_of(sources, counts, aligned, boxes, first, count);
    let now = cylinders_of(sources, counts, aligned, boxes, first, count + 1);
    if sources[count] is Part && sources[count]->round && counts[count] == 16 {
        assert(now.drop_last() =~= before);
    }
}

} // verus!
