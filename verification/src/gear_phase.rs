//! The order in which toothed parts are phased.
//!
//! Racks keep their teeth where they are cut and the gears on them turn to
//! suit; among gears, the lowest part of each train stays and the rest follow
//! it mesh by mesh. A train that closes on itself, such as a planetary set, is
//! phased along one path through it.

use vstd::prelude::*;

verus! {

/// The part and the mesh that a part is phased by.
#[derive(Clone, Copy, Debug, PartialEq, Eq, Structural)]
pub struct PhaseLead {
    /// The step that phased the partner.
    pub step: usize,
    /// The mesh between the two.
    pub edge: usize,
}

/// One part that is phased.
#[derive(Clone, Copy, Debug, PartialEq, Eq, Structural)]
pub struct PhaseStep {
    /// The part's row.
    pub part: usize,
    /// What it follows; the first part of a train stays where it is.
    pub lead: Option<PhaseLead>,
}

/// A mesh whose teeth interleave, between two part rows.
#[derive(Clone, Copy, Debug, PartialEq, Eq, Structural)]
pub struct MeshEdge {
    pub first: usize,
    pub second: usize,
}

/// Whether a mesh joins two rows.
pub open spec fn joins(edge: MeshEdge, a: int, b: int) -> bool {
    (edge.first == a && edge.second == b) || (edge.first == b && edge.second == a)
}

/// Whether meshes name rows.
pub open spec fn edges_listed(edges: Seq<MeshEdge>, rows: int) -> bool {
    forall|e: int|
        #![trigger edges[e]]
        0 <= e < edges.len() ==> edges[e].first < rows && edges[e].second < rows
}

/// Whether a row is phased by one of the first `count` steps.
pub open spec fn phased(steps: Seq<PhaseStep>, row: int, count: int) -> bool {
    exists|k: int| 0 <= k < count && #[trigger] steps[k].part == row
}

/// Whether one mesh of an earlier step comes before another: the earlier step
/// first, then the earlier mesh.
pub open spec fn leads_before(a: PhaseLead, b: PhaseLead) -> bool {
    a.step < b.step || (a.step == b.step && a.edge < b.edge)
}

/// Whether a part may start a train before another: racks first, then lower rows.
pub open spec fn starts_before(racks: Seq<bool>, a: int, b: int) -> bool {
    (racks[a] && !racks[b]) || (racks[a] == racks[b] && a < b)
}

/// Whether no part is phased twice.
pub open spec fn phased_once(steps: Seq<PhaseStep>) -> bool {
    forall|i: int, j: int|
        #![trigger steps[i], steps[j]]
        0 <= i < j < steps.len() ==> steps[i].part != steps[j].part
}

/// Whether a step follows a mesh with an earlier step.
pub open spec fn follows(steps: Seq<PhaseStep>, edges: Seq<MeshEdge>, k: int) -> bool {
    steps[k].lead is Some ==> {
        let lead = steps[k].lead->0;
        &&& lead.step < k
        &&& lead.edge < edges.len()
        &&& joins(
            edges[lead.edge as int],
            steps[lead.step as int].part as int,
            steps[k].part as int,
        )
    }
}

/// Whether no mesh of an earlier step reaches a step's part before the one that
/// it follows.
pub open spec fn follows_first(steps: Seq<PhaseStep>, edges: Seq<MeshEdge>, k: int) -> bool {
    forall|j: int, e: int|
        #![trigger steps[j], edges[e]]
        0 <= j < k && 0 <= e < edges.len() && joins(
            edges[e],
            steps[j].part as int,
            steps[k].part as int,
        ) ==> steps[k].lead is Some && !(j < steps[k].lead->0.step || (j == steps[k].lead->0.step
            && e < steps[k].lead->0.edge))
}

/// Whether followers come in the order of the meshes that they follow.
pub open spec fn follows_in_order(steps: Seq<PhaseStep>) -> bool {
    forall|i: int, j: int|
        #![trigger steps[i], steps[j]]
        0 <= i < j < steps.len() && steps[i].lead is Some && steps[j].lead is Some
            ==> leads_before(steps[i].lead->0, steps[j].lead->0)
}

/// Whether a train is phased whole before the next one starts.
pub open spec fn trains_whole(steps: Seq<PhaseStep>) -> bool {
    forall|i: int, j: int|
        #![trigger steps[i], steps[j]]
        0 <= i < j < steps.len() && steps[i].lead is None && steps[j].lead is Some ==> i
            <= steps[j].lead->0.step
}

/// Whether meshes of phased parts reach phased parts alone.
pub open spec fn trains_closed(steps: Seq<PhaseStep>, edges: Seq<MeshEdge>) -> bool {
    forall|j: int, e: int, row: int|
        #![trigger steps[j], joins(edges[e], steps[j].part as int, row)]
        0 <= j < steps.len() && 0 <= e < edges.len() && joins(
            edges[e],
            steps[j].part as int,
            row,
        ) ==> phased(steps, row, steps.len() as int)
}

/// Whether a step that follows nothing is the first part that may start a train.
pub open spec fn starts_first(
    racks: Seq<bool>,
    gears: Seq<bool>,
    steps: Seq<PhaseStep>,
    k: int,
) -> bool {
    steps[k].lead is None ==> {
        &&& racks[steps[k].part as int] || gears[steps[k].part as int]
        &&& forall|row: int|
            #![trigger racks[row]]
            0 <= row < racks.len() && (racks[row] || gears[row]) && starts_before(
                racks,
                row,
                steps[k].part as int,
            ) ==> phased(steps, row, k)
    }
}

/// Whether a step stands where the order wants it.
pub open spec fn step_stands(
    racks: Seq<bool>,
    gears: Seq<bool>,
    edges: Seq<MeshEdge>,
    steps: Seq<PhaseStep>,
    k: int,
) -> bool {
    &&& steps[k].part < racks.len()
    &&& follows(steps, edges, k)
    &&& follows_first(steps, edges, k)
    &&& starts_first(racks, gears, steps, k)
}

/// Whether steps phase every toothed part once, in order.
pub open spec fn phase_ordered(
    racks: Seq<bool>,
    gears: Seq<bool>,
    edges: Seq<MeshEdge>,
    steps: Seq<PhaseStep>,
) -> bool {
    &&& phased_once(steps)
    &&& follows_in_order(steps)
    &&& trains_whole(steps)
    &&& trains_closed(steps, edges)
    &&& forall|k: int|
        0 <= k < steps.len() ==> #[trigger] step_stands(racks, gears, edges, steps, k)
    &&& forall|row: int|
        0 <= row < racks.len() && (racks[row] || gears[row]) ==> #[trigger] phased(
            steps,
            row,
            steps.len() as int,
        )
}

/// What is known of steps while a train is phased: meshes of steps before
/// `head` reach phased rows alone, and of step `head` those before `edge` do.
spec fn phasing(
    racks: Seq<bool>,
    gears: Seq<bool>,
    edges: Seq<MeshEdge>,
    steps: Seq<PhaseStep>,
    placed: Seq<bool>,
    head: int,
    edge: int,
) -> bool {
    &&& placed.len() == racks.len()
    &&& phased_once(steps)
    &&& follows_in_order(steps)
    &&& trains_whole(steps)
    &&& forall|k: int|
        #![trigger steps[k]]
        0 <= k < steps.len() && steps[k].lead is None ==> k <= head
    &&& forall|k: int|
        0 <= k < steps.len() ==> #[trigger] step_stands(racks, gears, edges, steps, k)
    &&& forall|row: int|
        #![trigger placed[row]]
        0 <= row < placed.len() ==> (placed[row] <==> phased(steps, row, steps.len() as int))
    &&& forall|j: int, e: int|
        #![trigger steps[j], edges[e]]
        0 <= j < steps.len() && 0 <= e < edges.len() && (j < head || (j == head && e < edge)) ==> {
            &&& edges[e].first == steps[j].part ==> placed[edges[e].second as int]
            &&& edges[e].second == steps[j].part ==> placed[edges[e].first as int]
        }
    &&& forall|k: int|
        #![trigger steps[k]]
        0 <= k < steps.len() && steps[k].lead is Some ==> steps[k].lead->0.step < head || (
        steps[k].lead->0.step == head && steps[k].lead->0.edge < edge)
}

/// A row that is phased stays so when more steps follow.
proof fn lemma_phased_push(steps: Seq<PhaseStep>, step: PhaseStep, row: int)
    ensures
        phased(steps.push(step), row, steps.len() as int) <==> phased(
            steps,
            row,
            steps.len() as int,
        ),
        phased(steps.push(step), row, steps.len() as int + 1) <==> phased(steps, row, steps.len() as int)
            || row == step.part,
        forall|k: int|
            0 <= k <= steps.len() ==> (#[trigger] phased(steps.push(step), row, k) <==> phased(
                steps,
                row,
                k,
            )),
{
    let longer = steps.push(step);
    assert forall|k: int| 0 <= k <= steps.len() implies (#[trigger] phased(longer, row, k)
        <==> phased(steps, row, k)) by {
        if phased(longer, row, k) {
            let at = choose|at: int| 0 <= at < k && #[trigger] longer[at].part == row;
            assert(steps[at].part == row);
        }
        if phased(steps, row, k) {
            let at = choose|at: int| 0 <= at < k && #[trigger] steps[at].part == row;
            assert(longer[at].part == row);
        }
    }
    if phased(longer, row, steps.len() as int + 1) {
        let at = choose|at: int| 0 <= at < steps.len() + 1 && #[trigger] longer[at].part == row;
        if at < steps.len() {
            assert(steps[at].part == row);
        }
    }
    if phased(steps, row, steps.len() as int) {
        let at = choose|at: int| 0 <= at < steps.len() && #[trigger] steps[at].part == row;
        assert(longer[at].part == row);
    }
    if row == step.part {
        assert(longer[steps.len() as int].part == row);
    }
}

/// Steps stand where they stood when one more follows.
proof fn lemma_steps_stand(
    racks: Seq<bool>,
    gears: Seq<bool>,
    edges: Seq<MeshEdge>,
    steps: Seq<PhaseStep>,
    step: PhaseStep,
    k: int,
)
    requires
        0 <= k < steps.len(),
        step_stands(racks, gears, edges, steps, k),
    ensures
        step_stands(racks, gears, edges, steps.push(step), k),
{
    let longer = steps.push(step);
    assert(longer[k] == steps[k]);
    if steps[k].lead is Some {
        assert(longer[steps[k].lead->0.step as int] == steps[steps[k].lead->0.step as int]);
    }
    assert forall|j: int, e: int| #![trigger longer[j], edges[e]]
        0 <= j < k && 0 <= e < edges.len() && joins(
        edges[e],
        longer[j].part as int,
        longer[k].part as int,
    ) implies longer[k].lead is Some && !(j < longer[k].lead->0.step || (j
        == longer[k].lead->0.step && e < longer[k].lead->0.edge)) by {
        assert(longer[j] == steps[j]);
    }
    if steps[k].lead is None {
        assert forall|row: int| #![trigger racks[row]]
            0 <= row < racks.len() && (racks[row] || gears[row]) && starts_before(
            racks,
            row,
            longer[k].part as int,
        ) implies phased(longer, row, k) by {
            lemma_phased_push(steps, step, row);
            assert(phased(steps, row, k));
        }
    }
}

/// A row that no step phases may be phased next, by the mesh that reaches it.
proof fn lemma_follow(
    racks: Seq<bool>,
    gears: Seq<bool>,
    edges: Seq<MeshEdge>,
    steps: Seq<PhaseStep>,
    placed: Seq<bool>,
    head: usize,
    edge: usize,
    row: usize,
)
    requires
        edges_listed(edges, racks.len() as int),
        phasing(racks, gears, edges, steps, placed, head as int, edge as int),
        head < steps.len(),
        edge < edges.len(),
        row < racks.len(),
        !placed[row as int],
        joins(edges[edge as int], steps[head as int].part as int, row as int),
    ensures
        ({
            let step = PhaseStep { part: row, lead: Some(PhaseLead { step: head, edge }) };
            phasing(
                racks,
                gears,
                edges,
                steps.push(step),
                placed.update(row as int, true),
                head as int,
                edge + 1,
            )
        }),
{
    let step = PhaseStep { part: row, lead: Some(PhaseLead { step: head, edge }) };
    let longer = steps.push(step);
    let after = placed.update(row as int, true);
    let n = steps.len() as int;
    assert forall|k: int| 0 <= k < longer.len() implies #[trigger] step_stands(
        racks,
        gears,
        edges,
        longer,
        k,
    ) by {
        if k < n {
            lemma_steps_stand(racks, gears, edges, steps, step, k);
        } else {
            assert(longer[head as int] == steps[head as int]);
            assert forall|j: int, e: int| #![trigger longer[j], edges[e]]
                0 <= j < k && 0 <= e < edges.len() && joins(
                edges[e],
                longer[j].part as int,
                longer[k].part as int,
            ) implies longer[k].lead is Some && !(j < longer[k].lead->0.step || (j
                == longer[k].lead->0.step && e < longer[k].lead->0.edge)) by {
                assert(longer[j] == steps[j]);
            }
        }
    }
    assert forall|i: int, j: int| #![trigger longer[i], longer[j]]
        0 <= i < j < longer.len() implies longer[i].part != longer[j].part by {
        assert(longer[i] == steps[i]);
        if j < n {
            assert(longer[j] == steps[j]);
        } else if steps[i].part == row {
            assert(phased(steps, row as int, n));
        }
    }
    assert forall|i: int, j: int| #![trigger longer[i], longer[j]]
        0 <= i < j < longer.len() && longer[i].lead is Some && longer[j].lead
            is Some implies leads_before(longer[i].lead->0, longer[j].lead->0) by {
        assert(longer[i] == steps[i]);
        if j < n {
            assert(longer[j] == steps[j]);
        }
    }
    assert forall|r: int| #![trigger after[r]] 0 <= r < after.len() implies (after[r] <==> phased(
        longer,
        r,
        longer.len() as int,
    )) by {
        lemma_phased_push(steps, step, r);
        assert(placed[r] <==> phased(steps, r, n));
    }
    assert forall|j: int, e: int| #![trigger longer[j], edges[e]]
        0 <= j < longer.len() && 0 <= e < edges.len() && (j < head || (j == head && e < edge
            + 1)) implies {
        &&& edges[e].first == longer[j].part ==> after[edges[e].second as int]
        &&& edges[e].second == longer[j].part ==> after[edges[e].first as int]
    } by {
        assert(longer[j] == steps[j]);
    }
    assert forall|i: int, j: int| #![trigger longer[i], longer[j]]
        0 <= i < j < longer.len() && longer[i].lead is None && longer[j].lead is Some implies i
        <= longer[j].lead->0.step by {
        assert(longer[i] == steps[i]);
        if j < n {
            assert(longer[j] == steps[j]);
        }
    }
    assert forall|k: int| #![trigger longer[k]] 0 <= k < longer.len() && longer[k].lead is None implies k
        <= head by {
        assert(longer[k] == steps[k]);
    }
    assert forall|k: int| #![trigger longer[k]]
        0 <= k < longer.len() && longer[k].lead is Some implies longer[k].lead->0.step < head || (
    longer[k].lead->0.step == head && longer[k].lead->0.edge < edge + 1) by {
        if k < n {
            assert(longer[k] == steps[k]);
        }
    }
}

/// The first part that may start a train may be phased next.
proof fn lemma_start(
    racks: Seq<bool>,
    gears: Seq<bool>,
    edges: Seq<MeshEdge>,
    steps: Seq<PhaseStep>,
    placed: Seq<bool>,
    row: usize,
)
    requires
        racks.len() == gears.len(),
        edges_listed(edges, racks.len() as int),
        phasing(racks, gears, edges, steps, placed, steps.len() as int, 0),
        row < racks.len(),
        !placed[row as int],
        racks[row as int] || gears[row as int],
        forall|other: int|
            #![trigger racks[other]]
            0 <= other < racks.len() && (racks[other] || gears[other]) && starts_before(
                racks,
                other,
                row as int,
            ) ==> placed[other],
    ensures
        phasing(
            racks,
            gears,
            edges,
            steps.push(PhaseStep { part: row, lead: None }),
            placed.update(row as int, true),
            steps.len() as int,
            0,
        ),
{
    let step = PhaseStep { part: row, lead: None };
    let longer = steps.push(step);
    let after = placed.update(row as int, true);
    let n = steps.len() as int;
    assert forall|k: int| 0 <= k < longer.len() implies #[trigger] step_stands(
        racks,
        gears,
        edges,
        longer,
        k,
    ) by {
        if k < n {
            lemma_steps_stand(racks, gears, edges, steps, step, k);
        } else {
            assert forall|j: int, e: int| #![trigger longer[j], edges[e]]
                0 <= j < k && 0 <= e < edges.len() && joins(
                edges[e],
                longer[j].part as int,
                longer[k].part as int,
            ) implies false by {
                assert(longer[j] == steps[j]);
                assert(steps[j].part == edges[e].first ==> placed[edges[e].second as int]);
            }
            assert forall|other: int| #![trigger racks[other]]
                0 <= other < racks.len() && (racks[other] || gears[other]) && starts_before(
                racks,
                other,
                row as int,
            ) implies phased(longer, other, k) by {
                assert(placed[other]);
                lemma_phased_push(steps, step, other);
            }
        }
    }
    assert forall|i: int, j: int| #![trigger longer[i], longer[j]]
        0 <= i < j < longer.len() implies longer[i].part != longer[j].part by {
        assert(longer[i] == steps[i]);
        if j < n {
            assert(longer[j] == steps[j]);
        } else if steps[i].part == row {
            assert(phased(steps, row as int, n));
        }
    }
    assert forall|i: int, j: int| #![trigger longer[i], longer[j]]
        0 <= i < j < longer.len() && longer[i].lead is Some && longer[j].lead
            is Some implies leads_before(longer[i].lead->0, longer[j].lead->0) by {
        assert(longer[i] == steps[i]);
        assert(longer[j] == steps[j]);
    }
    assert forall|r: int| #![trigger after[r]] 0 <= r < after.len() implies (after[r] <==> phased(
        longer,
        r,
        longer.len() as int,
    )) by {
        lemma_phased_push(steps, step, r);
        assert(placed[r] <==> phased(steps, r, n));
    }
    assert forall|j: int, e: int| #![trigger longer[j], edges[e]]
        0 <= j < longer.len() && 0 <= e < edges.len() && (j < n || (j == n && e < 0)) implies {
        &&& edges[e].first == longer[j].part ==> after[edges[e].second as int]
        &&& edges[e].second == longer[j].part ==> after[edges[e].first as int]
    } by {
        assert(longer[j] == steps[j]);
    }
    assert forall|i: int, j: int| #![trigger longer[i], longer[j]]
        0 <= i < j < longer.len() && longer[i].lead is None && longer[j].lead is Some implies i
        <= longer[j].lead->0.step by {
        assert(longer[i] == steps[i]);
        assert(longer[j] == steps[j]);
    }
    assert forall|k: int| #![trigger longer[k]]
        0 <= k < longer.len() && longer[k].lead is Some implies longer[k].lead->0.step < n || (
    longer[k].lead->0.step == n && longer[k].lead->0.edge < 0) by {
        assert(longer[k] == steps[k]);
    }
}

/// Steps are no more than rows.
proof fn lemma_steps_fit(steps: Seq<PhaseStep>, rows: int)
    requires
        phased_once(steps),
        forall|k: int| #![trigger steps[k]] 0 <= k < steps.len() ==> steps[k].part < rows,
        0 <= rows,
    ensures
        steps.len() <= rows,
{
    let parts = steps.map_values(|step: PhaseStep| step.part as int);
    assert forall|i: int, j: int| 0 <= i < parts.len() && 0 <= j < parts.len() && i != j implies parts[i]
        != parts[j] by {
        if i < j {
            assert(steps[i].part != steps[j].part);
        } else {
            assert(steps[j].part != steps[i].part);
        }
    }
    assert(parts.no_duplicates());
    parts.unique_seq_to_set();
    let range = vstd::set_lib::set_int_range(0, rows);
    vstd::set_lib::lemma_int_range(0, rows);
    assert forall|x: int| parts.to_set().contains(x) implies #[trigger] range.contains(x) by {
        let k = parts.index_of(x);
        assert(parts[k] == x);
        assert(steps[k].part < rows);
    }
    vstd::set_lib::lemma_len_subset(parts.to_set(), range);
}

/// Phases every part that a train reaches.
fn phase_train(
    racks: &Vec<bool>,
    gears: &Vec<bool>,
    edges: &Vec<MeshEdge>,
    steps: &mut Vec<PhaseStep>,
    placed: &mut Vec<bool>,
    start: usize,
)
    requires
        racks@.len() == gears@.len(),
        edges_listed(edges@, racks@.len() as int),
        phasing(racks@, gears@, edges@, old(steps)@, old(placed)@, start as int, 0),
        start <= old(steps)@.len(),
    ensures
        phasing(
            racks@,
            gears@,
            edges@,
            final(steps)@,
            final(placed)@,
            final(steps)@.len() as int,
            0,
        ),
        forall|row: int|
            #![trigger old(placed)@[row]]
            0 <= row < racks@.len() && old(placed)@[row] ==> final(placed)@[row],
{
    let ghost before = placed@;
    let mut head: usize = start;
    while head < steps.len()
        invariant
            racks@.len() == gears@.len(),
            edges_listed(edges@, racks@.len() as int),
            phasing(racks@, gears@, edges@, steps@, placed@, head as int, 0),
            head <= steps@.len(),
            before == old(placed)@,
            before.len() == racks@.len(),
            forall|row: int|
                #![trigger before[row]]
                0 <= row < racks@.len() && before[row] ==> placed@[row],
        decreases racks@.len() - head,
    {
        proof {
            assert forall|k: int| #![trigger steps@[k]] 0 <= k < steps@.len() implies steps@[k].part
                < racks@.len() by {
                assert(step_stands(racks@, gears@, edges@, steps@, k));
            }
            lemma_steps_fit(steps@, racks@.len() as int);
        }
        let part: usize = steps[head].part;
        let mut edge: usize = 0;
        while edge < edges.len()
            invariant
                racks@.len() == gears@.len(),
                edges_listed(edges@, racks@.len() as int),
                phasing(racks@, gears@, edges@, steps@, placed@, head as int, edge as int),
                head < steps@.len(),
                edge <= edges@.len(),
                steps@[head as int].part == part,
                part < racks@.len(),
                before == old(placed)@,
                before.len() == racks@.len(),
                forall|row: int|
                    #![trigger before[row]]
                    0 <= row < racks@.len() && before[row] ==> placed@[row],
            decreases edges@.len() - edge,
        {
            let mesh: MeshEdge = edges[edge];
            assert(edges@[edge as int].first < racks@.len());
            let other: Option<usize> = if mesh.first == part {
                Some(mesh.second)
            } else if mesh.second == part {
                Some(mesh.first)
            } else {
                None
            };
            let ghost held = steps@;
            match other {
                Some(row) => {
                    if !placed[row] {
                        proof {
                            lemma_follow(
                                racks@,
                                gears@,
                                edges@,
                                steps@,
                                placed@,
                                head,
                                edge,
                                row,
                            );
                        }
                        steps.push(
                            PhaseStep { part: row, lead: Some(PhaseLead { step: head, edge }) },
                        );
                        placed.set(row, true);
                        assert(steps@[head as int] == held[head as int]);
                    } else {
                        proof {
                            lemma_pass(
                                racks@,
                                gears@,
                                edges@,
                                steps@,
                                placed@,
                                head as int,
                                edge as int,
                            );
                        }
                    }
                },
                None => {
                    proof {
                        lemma_pass(
                            racks@,
                            gears@,
                            edges@,
                            steps@,
                            placed@,
                            head as int,
                            edge as int,
                        );
                    }
                },
            }
            edge += 1;
        }
        proof {
            lemma_next_head(racks@, gears@, edges@, steps@, placed@, head as int);
        }
        head += 1;
    }
}

/// A mesh that reaches no new row is passed over.
proof fn lemma_pass(
    racks: Seq<bool>,
    gears: Seq<bool>,
    edges: Seq<MeshEdge>,
    steps: Seq<PhaseStep>,
    placed: Seq<bool>,
    head: int,
    edge: int,
)
    requires
        phasing(racks, gears, edges, steps, placed, head, edge),
        0 <= head < steps.len(),
        0 <= edge < edges.len(),
        edges[edge].first == steps[head].part ==> placed[edges[edge].second as int],
        edges[edge].second == steps[head].part ==> placed[edges[edge].first as int],
    ensures
        phasing(racks, gears, edges, steps, placed, head, edge + 1),
{
}

/// A step whose meshes are all looked at makes way for the next one.
proof fn lemma_next_head(
    racks: Seq<bool>,
    gears: Seq<bool>,
    edges: Seq<MeshEdge>,
    steps: Seq<PhaseStep>,
    placed: Seq<bool>,
    head: int,
)
    requires
        phasing(racks, gears, edges, steps, placed, head, edges.len() as int),
        0 <= head < steps.len(),
    ensures
        phasing(racks, gears, edges, steps, placed, head + 1, 0),
{
}

/// Starts a train at every rack, or at every gear, that none reached before.
fn start_trains(
    racks: &Vec<bool>,
    gears: &Vec<bool>,
    edges: &Vec<MeshEdge>,
    steps: &mut Vec<PhaseStep>,
    placed: &mut Vec<bool>,
    at_racks: bool,
)
    requires
        racks@.len() == gears@.len(),
        edges_listed(edges@, racks@.len() as int),
        phasing(
            racks@,
            gears@,
            edges@,
            old(steps)@,
            old(placed)@,
            old(steps)@.len() as int,
            0,
        ),
        !at_racks ==> forall|row: int|
            #![trigger racks@[row]]
            0 <= row < racks@.len() && racks@[row] ==> old(placed)@[row],
    ensures
        phasing(
            racks@,
            gears@,
            edges@,
            final(steps)@,
            final(placed)@,
            final(steps)@.len() as int,
            0,
        ),
        forall|row: int|
            #![trigger racks@[row]]
            0 <= row < racks@.len() && racks@[row] ==> final(placed)@[row],
        !at_racks ==> forall|row: int|
            #![trigger gears@[row]]
            0 <= row < gears@.len() && gears@[row] ==> final(placed)@[row],
{
    let mut row: usize = 0;
    while row < racks.len()
        invariant
            row <= racks@.len(),
            racks@.len() == gears@.len(),
            edges_listed(edges@, racks@.len() as int),
            phasing(racks@, gears@, edges@, steps@, placed@, steps@.len() as int, 0),
            !at_racks ==> forall|other: int|
                #![trigger racks@[other]]
                0 <= other < racks@.len() && racks@[other] ==> placed@[other],
            forall|other: int|
                #![trigger racks@[other]]
                0 <= other < row && racks@[other] ==> placed@[other],
            !at_racks ==> forall|other: int|
                #![trigger gears@[other]]
                0 <= other < row && gears@[other] ==> placed@[other],
        decreases racks@.len() - row,
    {
        let starts: bool = if at_racks {
            racks[row]
        } else {
            gears[row]
        };
        if starts && !placed[row] {
            let ghost held = placed@;
            proof {
                assert forall|other: int| #![trigger racks@[other]]
                    0 <= other < racks@.len() && (racks@[other] || gears@[other]) && starts_before(
                    racks@,
                    other,
                    row as int,
                ) implies placed@[other] by {
                    if !racks@[other] {
                        assert(gears@[other]);
                    }
                }
                lemma_start(racks@, gears@, edges@, steps@, placed@, row);
            }
            let start: usize = steps.len();
            steps.push(PhaseStep { part: row, lead: None });
            placed.set(row, true);
            let ghost middle = placed@;
            phase_train(racks, gears, edges, steps, placed, start);
            proof {
                assert forall|other: int| 0 <= other < racks@.len() && #[trigger] held[other] implies placed@[other] by {
                    assert(middle[other]);
                }
                assert(middle[row as int]);
            }
        }
        row += 1;
    }
}

/// The order in which toothed parts are phased, from the rows that are racks,
/// the rows that are gears, and the meshes whose teeth interleave.
pub fn phase_order(racks: &Vec<bool>, gears: &Vec<bool>, edges: &Vec<MeshEdge>) -> (steps: Vec<
    PhaseStep,
>)
    requires
        racks@.len() == gears@.len(),
        edges_listed(edges@, racks@.len() as int),
    ensures
        phase_ordered(racks@, gears@, edges@, steps@),
{
    let mut steps: Vec<PhaseStep> = Vec::new();
    let mut placed: Vec<bool> = Vec::new();
    while placed.len() < racks.len()
        invariant
            placed@.len() <= racks@.len(),
            forall|row: int| #![trigger placed@[row]] 0 <= row < placed@.len() ==> !placed@[row],
        decreases racks@.len() - placed@.len(),
    {
        placed.push(false);
    }
    start_trains(racks, gears, edges, &mut steps, &mut placed, true);
    start_trains(racks, gears, edges, &mut steps, &mut placed, false);
    proof {
        assert forall|row: int| 0 <= row < racks@.len() && (racks@[row] || gears@[row]) implies #[trigger] phased(
            steps@,
            row,
            steps@.len() as int,
        ) by {
            assert(placed@[row]);
        }
        assert forall|j: int, e: int, row: int|
            #![trigger steps@[j], joins(edges@[e], steps@[j].part as int, row)]
            0 <= j < steps@.len() && 0 <= e < edges@.len() && joins(
            edges@[e],
            steps@[j].part as int,
            row,
        ) implies phased(steps@, row, steps@.len() as int) by {
            assert(edges@[e].first < racks@.len() && edges@[e].second < racks@.len());
            assert(placed@[row]);
        }
    }
    steps
}

/// A step of one order whose part another order, the same up to there, phases
/// no sooner, is no earlier follower.
proof fn lemma_no_sooner(
    racks: Seq<bool>,
    gears: Seq<bool>,
    edges: Seq<MeshEdge>,
    a: Seq<PhaseStep>,
    b: Seq<PhaseStep>,
    k: int,
)
    requires
        phase_ordered(racks, gears, edges, a),
        phase_ordered(racks, gears, edges, b),
        0 <= k < a.len(),
        k <= b.len(),
        a.take(k) == b.take(k),
        a[k].lead is Some,
    ensures
        k < b.len(),
        b[k].lead is Some,
        !leads_before(a[k].lead->0, b[k].lead->0),
{
    let lead = a[k].lead->0;
    let j = lead.step as int;
    let e = lead.edge as int;
    let part = a[k].part as int;
    assert(step_stands(racks, gears, edges, a, k));
    assert(follows(a, edges, k));
    assert(a.take(k)[j] == a[j]);
    assert(b.take(k)[j] == b[j]);
    assert(joins(edges[e], b[j].part as int, part));
    assert(phased(b, part, b.len() as int));
    let at = choose|at: int| 0 <= at < b.len() && #[trigger] b[at].part == part;
    if at < k {
        assert(a.take(k)[at] == a[at]);
        assert(b.take(k)[at] == b[at]);
        assert(a[at].part == a[k].part);
    }
    assert(step_stands(racks, gears, edges, b, at));
    assert(joins(edges[e], b[j].part as int, b[at].part as int));
    assert(b[at].lead is Some);
    if k < at {
        let found = b[at].lead->0;
        if b[k].lead is None {
            assert(k <= found.step);
        } else {
            assert(leads_before(b[k].lead->0, found));
        }
    }
}

/// Two orders that phase the same parts by the same meshes are one.
pub proof fn phase_order_is_unique(
    racks: Seq<bool>,
    gears: Seq<bool>,
    edges: Seq<MeshEdge>,
    a: Seq<PhaseStep>,
    b: Seq<PhaseStep>,
)
    requires
        phase_ordered(racks, gears, edges, a),
        phase_ordered(racks, gears, edges, b),
    ensures
        a == b,
{
    lemma_orders_agree(racks, gears, edges, a, b, a.len() as int);
    lemma_orders_agree(racks, gears, edges, b, a, b.len() as int);
    assert(a.take(a.len() as int) =~= a);
    assert(b.take(b.len() as int) =~= b);
}

/// Two orders agree on their first `count` steps.
proof fn lemma_orders_agree(
    racks: Seq<bool>,
    gears: Seq<bool>,
    edges: Seq<MeshEdge>,
    a: Seq<PhaseStep>,
    b: Seq<PhaseStep>,
    count: int,
)
    requires
        phase_ordered(racks, gears, edges, a),
        phase_ordered(racks, gears, edges, b),
        0 <= count <= a.len(),
    ensures
        count <= b.len(),
        a.take(count) == b.take(count),
    decreases count,
{
    if count == 0 {
        assert(a.take(0) =~= b.take(0));
    } else {
        let k = count - 1;
        lemma_orders_agree(racks, gears, edges, a, b, k);
        assert(step_stands(racks, gears, edges, a, k));
        if a[k].lead is Some {
            lemma_no_sooner(racks, gears, edges, a, b, k);
            assert(step_stands(racks, gears, edges, b, k));
            lemma_no_sooner(racks, gears, edges, b, a, k);
            let lead = a[k].lead->0;
            assert(lead == b[k].lead->0);
            assert(a.take(k)[lead.step as int] == b.take(k)[lead.step as int]);
            assert(a[k] == b[k]);
        } else {
            let row = a[k].part as int;
            assert(phased(b, row, b.len() as int));
            let at = choose|at: int| 0 <= at < b.len() && #[trigger] b[at].part == row;
            if at < k {
                assert(a.take(k)[at] == b.take(k)[at]);
                assert(a[at].part == a[k].part);
            }
            if b[k].lead is Some {
                lemma_no_sooner(racks, gears, edges, b, a, k);
            }
            assert(step_stands(racks, gears, edges, b, k));
            let other = b[k].part as int;
            assert(racks[row] || gears[row]);
            assert(racks[other] || gears[other]);
            if starts_before(racks, other, row) {
                assert(phased(a, other, k));
                let found = choose|found: int| 0 <= found < k && #[trigger] a[found].part == other;
                assert(a.take(k)[found] == b.take(k)[found]);
                assert(b[found].part == b[k].part);
            }
            if starts_before(racks, row, other) {
                assert(phased(b, row, k));
                let found = choose|found: int| 0 <= found < k && #[trigger] b[found].part == row;
                assert(a.take(k)[found] == b.take(k)[found]);
                assert(a[found].part == a[k].part);
            }
            assert(row == other);
            assert(a[k] == b[k]);
        }
        assert(a.take(count) =~= a.take(k).push(a[k]));
        assert(b.take(count) =~= b.take(k).push(b[k]));
    }
}

/// A train starts at a rack while there is one that no train reached, and else
/// at a gear; of either the one in the lowest row comes first.
pub proof fn trains_start_at_racks(
    racks: Seq<bool>,
    gears: Seq<bool>,
    edges: Seq<MeshEdge>,
    steps: Seq<PhaseStep>,
    k: int,
    row: int,
)
    requires
        phase_ordered(racks, gears, edges, steps),
        racks.len() == gears.len(),
        0 <= k < steps.len(),
        steps[k].lead is None,
        0 <= row < racks.len(),
        forall|j: int| #![trigger steps[j]] 0 <= j < k ==> steps[j].part != row,
        row != steps[k].part,
    ensures
        racks[row] ==> racks[steps[k].part as int] && steps[k].part < row,
        gears[row] && !racks[steps[k].part as int] ==> steps[k].part < row,
        racks[steps[k].part as int] || gears[steps[k].part as int],
{
    assert(step_stands(racks, gears, edges, steps, k));
    assert(starts_first(racks, gears, steps, k));
    if racks[row] || gears[row] {
        if starts_before(racks, row, steps[k].part as int) {
            assert(phased(steps, row, k));
            let j = choose|j: int| 0 <= j < k && #[trigger] steps[j].part == row;
            assert(steps[j].part != row);
        }
    }
}

/// Every other part meshes with the one it is phased by, which was phased
/// before it, and with none that was phased sooner than that.
pub proof fn parts_are_phased_by_what_they_mesh_with(
    racks: Seq<bool>,
    gears: Seq<bool>,
    edges: Seq<MeshEdge>,
    steps: Seq<PhaseStep>,
    k: int,
    j: int,
    e: int,
)
    requires
        phase_ordered(racks, gears, edges, steps),
        0 <= k < steps.len(),
        0 <= j < k,
        0 <= e < edges.len(),
    ensures
        steps[k].lead matches Some(lead) ==> {
            let edge = edges[lead.edge as int];
            let by = steps[lead.step as int].part;
            &&& lead.step < k && lead.edge < edges.len()
            &&& (edge.first == by && edge.second == steps[k].part) || (edge.first == steps[k].part
                && edge.second == by)
            &&& j < lead.step || (j == lead.step && e < lead.edge) ==> !(edges[e].first
                == steps[j].part && edges[e].second == steps[k].part) && !(edges[e].first == steps[k].part && edges[e].second
                == steps[j].part)
        },
        steps[k].lead is None ==> !(edges[e].first == steps[j].part && edges[e].second
            == steps[k].part) && !(edges[e].first == steps[k].part && edges[e].second
            == steps[j].part),
        steps[j].part != steps[k].part,
{
    assert(step_stands(racks, gears, edges, steps, k));
    assert(follows(steps, edges, k));
    assert(follows_first(steps, edges, k));
    if joins(edges[e], steps[j].part as int, steps[k].part as int) {
        assert(steps[k].lead is Some);
    }
}

/// Every toothed part is phased, and so is everything that meshes with it.
pub proof fn every_toothed_part_is_phased(
    racks: Seq<bool>,
    gears: Seq<bool>,
    edges: Seq<MeshEdge>,
    steps: Seq<PhaseStep>,
    row: int,
    e: int,
)
    requires
        phase_ordered(racks, gears, edges, steps),
        edges_listed(edges, racks.len() as int),
        0 <= row < racks.len(),
        racks[row] || gears[row],
    ensures
        exists|k: int| 0 <= k < steps.len() && #[trigger] steps[k].part == row,
        0 <= e < edges.len() && edges[e].first == row ==> exists|k: int|
            0 <= k < steps.len() && #[trigger] steps[k].part == edges[e].second,
        0 <= e < edges.len() && edges[e].second == row ==> exists|k: int|
            0 <= k < steps.len() && #[trigger] steps[k].part == edges[e].first,
{
    assert(phased(steps, row, steps.len() as int));
    let k = choose|k: int| 0 <= k < steps.len() && #[trigger] steps[k].part == row;
    if 0 <= e < edges.len() {
        let other = if edges[e].first == row {
            edges[e].second as int
        } else {
            edges[e].first as int
        };
        if edges[e].first == row || edges[e].second == row {
            assert(joins(edges[e], steps[k].part as int, other));
            assert(phased(steps, other, steps.len() as int));
        }
    }
}

/// A train is phased outwards: followers come in the order of the parts that
/// they follow, and of one part in the order of its meshes; the next train starts
/// only once the one before is whole.
pub proof fn trains_are_phased_outwards(
    racks: Seq<bool>,
    gears: Seq<bool>,
    edges: Seq<MeshEdge>,
    steps: Seq<PhaseStep>,
    i: int,
    j: int,
)
    requires
        phase_ordered(racks, gears, edges, steps),
        0 <= i < j < steps.len(),
        steps[j].lead is Some,
    ensures
        steps[i].lead is Some ==> steps[i].lead->0.step <= steps[j].lead->0.step,
        steps[i].lead is Some && steps[i].lead->0.step == steps[j].lead->0.step
            ==> steps[i].lead->0.edge < steps[j].lead->0.edge,
        steps[i].lead is None ==> steps[j].lead->0.step >= i,
{
}

} // verus!
