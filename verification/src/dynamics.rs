//! Immutable schedules shared by numerical dynamics backends.

use vstd::prelude::*;

use crate::compile::model::{CompiledBearing, MechanismBodyTopology};
use crate::compile::topology::LoopTopology;
use crate::compile::tree::rows_connect_within;
use crate::ids::{handle_rank, lemma_handle_rank, BearingId};
use crate::ordered::{OrderedSet, Ranked};

verus! {

/// A contiguous run of rows.
#[derive(Clone, Copy, Debug, PartialEq, Eq, Structural)]
pub struct Span {
    /// First row.
    pub start: usize,
    /// Row behind the last.
    pub end: usize,
}

/// Contiguous runs of the compiled traversal and generalized velocity rows.
#[derive(Clone, Copy, Debug, PartialEq, Eq, Structural)]
pub struct DynamicsComponent {
    /// Bodies in root-before-child order, as positions in the traversal.
    pub bodies: Span,
    /// Six velocities per floating root and one per permitted joint motion.
    pub velocities: Span,
}

/// Compressed loop Jacobian sparsity: two ancestor chains in the elimination tree.
/// Common columns are combined by subtraction, never duplicated as constraints.
#[derive(Clone, Copy, Debug, PartialEq, Eq)]
pub struct LoopConstraintPattern {
    /// Index into the compiled joint rows.
    pub bearing: usize,
    /// Last velocity row of each end; follow elimination parents to its root.
    pub branch_heads: [Option<usize>; 2],
}

/// Reusable symbolic dynamics data, linear in bodies and joints.
#[derive(Debug, PartialEq, Eq)]
pub struct CompiledDynamics {
    /// Parent joint row of each body, absent for roots.
    pub body_bearings: Vec<Option<usize>>,
    /// Joint row of each mechanism coordinate.
    pub coordinate_bearings: Vec<usize>,
    /// Generalized velocity row of each tree coordinate.
    pub coordinate_velocities: Vec<usize>,
    /// Parent-before-child body order, grouped by component.
    pub preorder: Vec<usize>,
    /// Child-before-parent order, suitable for inertia accumulation.
    pub postorder: Vec<usize>,
    /// Generalized velocity rows owned by each body: none, one, or six.
    pub body_velocities: Vec<Span>,
    /// Symbolic factor elimination tree. Rows are eliminated in descending order.
    pub elimination_parent: Vec<Option<usize>>,
    /// Component runs of the shared schedules.
    pub components: Vec<DynamicsComponent>,
    /// Loop equation sparsity without expanding long ancestor chains.
    pub loops: Vec<LoopConstraintPattern>,
}

/// A body at its place in the traversal.
#[derive(Clone, Copy, Debug, PartialEq, Eq, Structural)]
pub struct Visit {
    /// Position in the traversal.
    pub position: u32,
    /// Body row.
    pub body: u32,
}

impl Ranked for Visit {
    open spec fn rank(self) -> int {
        handle_rank(self.position, self.body)
    }

    proof fn rank_identifies(a: Self, b: Self) {
        lemma_handle_rank(a.position, a.body, b.position, b.body);
    }

    fn precedes(self, other: Self) -> (before: bool) {
        proof {
            lemma_handle_rank(self.position, self.body, other.position, other.body);
        }
        self.position < other.position || (self.position == other.position && self.body
            < other.body)
    }
}

/// Velocity rows that a body owns: six for a floating root, none for a fixed
/// one, and one for a body that a joint carries.
pub open spec fn rows_owned(meta: Seq<MechanismBodyTopology>, fixed: Seq<bool>, x: int) -> int {
    if !meta[x].is_root {
        1
    } else if fixed[x] {
        0
    } else {
        6
    }
}

/// Velocity rows of the first `k` bodies in traversal order.
pub open spec fn velocity_start(
    meta: Seq<MechanismBodyTopology>,
    fixed: Seq<bool>,
    order: Seq<usize>,
    k: int,
) -> int
    decreases k,
{
    if k <= 0 {
        0
    } else {
        velocity_start(meta, fixed, order, k - 1) + rows_owned(meta, fixed, order[k - 1] as int)
    }
}

/// The last row of a span.
pub open spec fn last_row(span: Span) -> Option<usize> {
    if span.start < span.end {
        Some((span.end - 1) as usize)
    } else {
        None
    }
}

/// The last row of a span.
fn last_of(span: Span) -> (row: Option<usize>)
    ensures
        row == last_row(span),
{
    if span.start < span.end {
        Some(span.end - 1)
    } else {
        None
    }
}

/// The row that follows velocity row `r` in elimination: the row before it in
/// the same body, or the last row of the parent body.
pub open spec fn eliminated_into(
    meta: Seq<MechanismBodyTopology>,
    velocities: Seq<Span>,
    x: int,
    r: int,
) -> Option<usize> {
    if r > velocities[x].start {
        Some((r - 1) as usize)
    } else if meta[x].is_root {
        None
    } else {
        last_row(velocities[meta[x].parent_body as int])
    }
}

/// Whether the body at position `k` owns its rows.
pub open spec fn rows_assigned(
    meta: Seq<MechanismBodyTopology>,
    fixed: Seq<bool>,
    order: Seq<usize>,
    velocities: Seq<Span>,
    elimination: Seq<Option<usize>>,
    k: int,
) -> bool {
    let x = order[k] as int;
    &&& velocities[x].start == velocity_start(meta, fixed, order, k)
    &&& velocities[x].end == velocity_start(meta, fixed, order, k + 1)
    &&& velocities[x].end <= elimination.len()
    &&& forall|r: int|
        #![trigger elimination[r]]
        velocities[x].start <= r < velocities[x].end ==> elimination[r] == eliminated_into(
            meta,
            velocities,
            x,
            r,
        )
}

/// Whether a run of the traversal lists a component's bodies in preorder.
pub open spec fn lists_component(
    meta: Seq<MechanismBodyTopology>,
    order: Seq<usize>,
    span: Span,
    component: Seq<u32>,
) -> bool {
    &&& span.start <= span.end <= order.len()
    &&& forall|i: int, j: int|
        #![trigger order[i], order[j]]
        span.start <= i < j < span.end ==> meta[order[i] as int].preorder_index
            < meta[order[j] as int].preorder_index
    &&& forall|i: int| #![trigger order[i]] span.start <= i < span.end ==> order[i] <= u32::MAX
    &&& forall|i: int|
        span.start <= i < span.end ==> #[trigger] component.contains(order[i] as u32)
    &&& forall|i: int|
        0 <= i < component.len() ==> #[trigger] order.subrange(
            span.start as int,
            span.end as int,
        ).contains(component[i] as usize)
}

/// Whether a joint row carries `id`.
pub open spec fn row_named(bearings: Seq<CompiledBearing>, id: BearingId) -> bool {
    exists|e: int| 0 <= e < bearings.len() && (#[trigger] bearings[e]).source_bearing == id
}

/// Whether no two joint rows carry the same joint.
pub open spec fn joints_distinct(bearings: Seq<CompiledBearing>) -> bool {
    forall|e: int, f: int|
        #![trigger bearings[e], bearings[f]]
        0 <= e < bearings.len() && 0 <= f < bearings.len() && bearings[e].source_bearing
            == bearings[f].source_bearing ==> e == f
}

/// Whether no body stands in two places among the components.
pub open spec fn components_disjoint(components: Seq<Vec<u32>>) -> bool {
    forall|c: int, i: int, d: int, j: int|
        #![trigger components[c]@[i], components[d]@[j]]
        0 <= c < components.len() && 0 <= i < components[c]@.len() && 0 <= d < components.len()
            && 0 <= j < components[d]@.len() && components[c]@[i] == components[d]@[j] ==> c == d
            && i == j
}

/// Whether a carried body's parent stands in its component, earlier in the traversal.
pub open spec fn parent_earlier(
    meta: Seq<MechanismBodyTopology>,
    component: Seq<u32>,
    x: int,
) -> bool {
    meta[x].is_root || (component.contains(meta[x].parent_body)
        && meta[meta[x].parent_body as int].preorder_index < meta[x].preorder_index)
}

/// Whether a forest can be scheduled: its rows name each other, and parents
/// come before their children.
pub open spec fn schedulable(
    fixed: Seq<bool>,
    bearings: Seq<CompiledBearing>,
    topology: LoopTopology,
) -> bool {
    let meta = topology.body_parents@;
    let components = topology.mechanism_components@;
    &&& meta.len() == fixed.len()
    &&& meta.len() <= u32::MAX
    &&& 6 * meta.len() <= usize::MAX
    &&& topology.tree_bearings@.len() <= u32::MAX
    &&& rows_connect_within(bearings, meta.len() as int)
    &&& joints_distinct(bearings)
    &&& coordinates_distinct(bearings)
    &&& forall|e: int|
        #![trigger bearings[e]]
        0 <= e < bearings.len() && bearings[e].coordinate_index is Some
            ==> bearings[e].coordinate_index->0 < topology.tree_bearings@.len()
    &&& forall|x: int|
        #![trigger meta[x]]
        0 <= x < meta.len() && meta[x].tree_bearing is Some ==> row_named(
            bearings,
            meta[x].tree_bearing->0,
        )
    &&& forall|x: int, y: int|
        #![trigger meta[x], meta[y]]
        0 <= x < meta.len() && 0 <= y < meta.len() && x != y ==> meta[x].preorder_index
            != meta[y].preorder_index && (meta[x].tree_bearing is Some ==> meta[x].tree_bearing
            != meta[y].tree_bearing)
    &&& forall|k: int|
        #![trigger topology.tree_bearings@[k]]
        0 <= k < topology.tree_bearings@.len() ==> row_named(bearings, topology.tree_bearings@[k])
    &&& forall|k: int|
        #![trigger topology.closure_bearings@[k]]
        0 <= k < topology.closure_bearings@.len() ==> row_named(
            bearings,
            topology.closure_bearings@[k],
        )
    &&& components_disjoint(components)
    &&& forall|c: int, i: int|
        #![trigger components[c]@[i]]
        0 <= c < components.len() && 0 <= i < components[c]@.len() ==> components[c]@[i]
            < meta.len()
    &&& forall|c: int, i: int|
        0 <= c < components.len() && 0 <= i < components[c]@.len() ==> #[trigger] parent_earlier(
            meta,
            components[c]@,
            components[c]@[i] as int,
        )
    &&& forall|x: int|
        0 <= x < meta.len() ==> #[trigger] in_components(components, components.len() as int, x)
}

/// Whether body `x` stands in one of the first `count` components.
pub open spec fn in_components(components: Seq<Vec<u32>>, count: int, x: int) -> bool {
    exists|c: int|
        0 <= c < count && c < components.len() && (#[trigger] components[c])@.contains(x as u32)
}

/// The joint row that carries `id`.
fn find_row(bearings: &Vec<CompiledBearing>, id: BearingId) -> (row: usize)
    requires
        row_named(bearings@, id),
    ensures
        row < bearings@.len(),
        bearings@[row as int].source_bearing == id,
{
    let mut e: usize = 0;
    while e < bearings.len()
        invariant
            e <= bearings@.len(),
            row_named(bearings@, id),
            forall|k: int|
                #![trigger bearings@[k]]
                0 <= k < e ==> bearings@[k].source_bearing != id,
        decreases bearings@.len() - e,
    {
        if bearings[e].source_bearing == id {
            return e;
        }
        e += 1;
    }
    assert(false);
    0
}

/// Bodies of a component in traversal order.
fn order_component(meta: &Vec<MechanismBodyTopology>, component: &Vec<u32>) -> (order: Vec<usize>)
    requires
        meta@.len() <= u32::MAX,
        forall|i: int|
            #![trigger component@[i]]
            0 <= i < component@.len() ==> component@[i] < meta@.len(),
        forall|x: int, y: int|
            #![trigger meta@[x], meta@[y]]
            0 <= x < meta@.len() && 0 <= y < meta@.len() && x != y ==> meta@[x].preorder_index
                != meta@[y].preorder_index,
    ensures
        forall|i: int, j: int|
            #![trigger order@[i], order@[j]]
            0 <= i < j < order@.len() ==> meta@[order@[i] as int].preorder_index
                < meta@[order@[j] as int].preorder_index,
        forall|i: int| #![trigger order@[i]] 0 <= i < order@.len() ==> order@[i] < meta@.len(),
        forall|i: int|
            0 <= i < order@.len() ==> #[trigger] component@.contains(order@[i] as u32),
        forall|i: int|
            0 <= i < component@.len() ==> #[trigger] order@.contains(component@[i] as usize),
{
    let mut visits: OrderedSet<Visit> = OrderedSet::new();
    let mut i: usize = 0;
    while i < component.len()
        invariant
            i <= component@.len(),
            visits.wf(),
            forall|i: int|
                #![trigger component@[i]]
                0 <= i < component@.len() ==> component@[i] < meta@.len(),
            forall|visit: Visit| #[trigger]
                visits.holds(visit) ==> component@.contains(visit.body) && visit.body < meta@.len()
                    && visit.position == meta@[visit.body as int].preorder_index,
            forall|k: int|
                #![trigger component@[k]]
                0 <= k < i ==> visits.holds(
                    (Visit {
                        position: meta@[component@[k] as int].preorder_index,
                        body: component@[k],
                    }),
                ),
        decreases component@.len() - i,
    {
        let body: u32 = component[i];
        assert(component@.contains(body)) by {
            assert(component@[i as int] == body);
        }
        visits.insert(Visit { position: meta[body as usize].preorder_index, body });
        i += 1;
    }
    let mut order: Vec<usize> = Vec::new();
    let mut k: usize = 0;
    while k < visits.len()
        invariant
            k <= visits@.len(),
            order@.len() == k,
            visits.wf(),
            meta@.len() <= u32::MAX,
            forall|visit: Visit| #[trigger]
                visits.holds(visit) ==> component@.contains(visit.body) && visit.body < meta@.len()
                    && visit.position == meta@[visit.body as int].preorder_index,
            forall|j: int|
                #![trigger order@[j]]
                0 <= j < k ==> order@[j] == visits@[j].body && visits.holds(visits@[j]),
        decreases visits@.len() - k,
    {
        let visit: Visit = visits.item(k);
        assert(visits.holds(visit)) by {
            assert(visits@[k as int] == visit);
        }
        order.push(visit.body as usize);
        k += 1;
    }
    proof {
        assert forall|i: int, j: int| #![trigger order@[i], order@[j]]
            0 <= i < j < order@.len() implies meta@[order@[i] as int].preorder_index
            < meta@[order@[j] as int].preorder_index by {
            let p = visits@[i];
            let q = visits@[j];
            assert(visits.holds(p) && visits.holds(q));
            assert(p.rank() < q.rank());
            lemma_handle_rank(p.position, p.body, q.position, q.body);
            if p.position == q.position && p.body != q.body {
                assert(meta@[p.body as int].preorder_index != meta@[q.body as int].preorder_index);
            }
        }
        assert forall|i: int| 0 <= i < component@.len() implies #[trigger] order@.contains(
            component@[i] as usize,
        ) by {
            let visit = Visit {
                position: meta@[component@[i] as int].preorder_index,
                body: component@[i],
            };
            assert(visits.holds(visit));
            let j = visits@.index_of(visit);
            assert(visits@[j] == visit);
            assert(order@[j] == component@[i]);
        }
    }
    order
}

/// Rows of a longer traversal do not move the rows of its beginning.
proof fn lemma_start_prefix(
    meta: Seq<MechanismBodyTopology>,
    fixed: Seq<bool>,
    order: Seq<usize>,
    longer: Seq<usize>,
    k: int,
)
    requires
        k <= order.len() <= longer.len(),
        forall|i: int| #![trigger longer[i]] 0 <= i < order.len() ==> longer[i] == order[i],
    ensures
        velocity_start(meta, fixed, longer, k) == velocity_start(meta, fixed, order, k),
    decreases k,
{
    if k > 0 {
        lemma_start_prefix(meta, fixed, order, longer, k - 1);
    }
}

/// Rows never run out of the space six for each body give.
proof fn lemma_start_bound(
    meta: Seq<MechanismBodyTopology>,
    fixed: Seq<bool>,
    order: Seq<usize>,
    k: int,
)
    requires
        0 <= k,
    ensures
        0 <= velocity_start(meta, fixed, order, k) <= 6 * k,
    decreases k,
{
    if k > 0 {
        lemma_start_bound(meta, fixed, order, k - 1);
    }
}

/// Distinct rows below a bound are no more than the bound.
proof fn lemma_distinct_rows_fit(order: Seq<usize>, count: int)
    requires
        order.no_duplicates(),
        forall|k: int| #![trigger order[k]] 0 <= k < order.len() ==> order[k] < count,
        0 <= count,
    ensures
        order.len() <= count,
{
    let ints = order.map_values(|x: usize| x as int);
    assert forall|i: int, j: int| 0 <= i < ints.len() && 0 <= j < ints.len() && i != j implies ints[i]
        != ints[j] by {
        assert(order[i] != order[j]);
    }
    assert(ints.no_duplicates());
    let rows = ints.to_set();
    ints.unique_seq_to_set();
    let all = vstd::set_lib::set_int_range(0, count);
    vstd::set_lib::lemma_int_range(0, count);
    assert forall|x: int| rows.contains(x) implies #[trigger] all.contains(x) by {
        let k = choose|k: int| 0 <= k < ints.len() && ints[k] == x;
        assert(order[k] < count);
    }
    vstd::set_lib::lemma_len_subset(rows, all);
}

/// Whether the schedule of the listed bodies is complete.
pub open spec fn scheduled(
    meta: Seq<MechanismBodyTopology>,
    fixed: Seq<bool>,
    order: Seq<usize>,
    velocities: Seq<Span>,
    elimination: Seq<Option<usize>>,
) -> bool {
    &&& velocities.len() == meta.len()
    &&& elimination.len() == velocity_start(meta, fixed, order, order.len() as int)
    &&& order.no_duplicates()
    &&& forall|k: int| #![trigger order[k]] 0 <= k < order.len() ==> order[k] < meta.len()
    &&& forall|k: int|
        #![trigger rows_assigned(meta, fixed, order, velocities, elimination, k)]
        0 <= k < order.len() ==> rows_assigned(meta, fixed, order, velocities, elimination, k)
    &&& forall|k: int|
        0 <= k < order.len() && !meta[order[k] as int].is_root ==> #[trigger] parent_listed(
            meta,
            order,
            k,
        )
}

/// Whether the parent of the body at position `k` stands before it.
pub open spec fn parent_listed(
    meta: Seq<MechanismBodyTopology>,
    order: Seq<usize>,
    k: int,
) -> bool {
    order.take(k).contains(meta[order[k] as int].parent_body as usize)
}

/// A body whose parent is listed takes the next rows.
proof fn lemma_schedule_next(
    meta: Seq<MechanismBodyTopology>,
    fixed: Seq<bool>,
    order: Seq<usize>,
    velocities: Seq<Span>,
    elimination: Seq<Option<usize>>,
    x: usize,
    after: Seq<Span>,
    wider: Seq<Option<usize>>,
)
    requires
        scheduled(meta, fixed, order, velocities, elimination),
        x < meta.len(),
        !order.contains(x),
        meta[x as int].is_root || order.contains(meta[x as int].parent_body as usize),
        after == velocities.update(
            x as int,
            Span { start: elimination.len() as usize, end: wider.len() as usize },
        ),
        wider.len() == elimination.len() + rows_owned(meta, fixed, x as int),
        wider.len() <= usize::MAX,
        forall|r: int| #![trigger wider[r]] 0 <= r < elimination.len() ==> wider[r] == elimination[r],
        forall|r: int|
            #![trigger wider[r]]
            elimination.len() <= r < wider.len() ==> wider[r] == eliminated_into(
                meta,
                after,
                x as int,
                r,
            ),
    ensures
        scheduled(meta, fixed, order.push(x), after, wider),
{
    let longer = order.push(x);
    let n = order.len() as int;
    lemma_start_prefix(meta, fixed, order, longer, n);
    assert(velocity_start(meta, fixed, longer, n + 1) == velocity_start(meta, fixed, longer, n)
        + rows_owned(meta, fixed, x as int));
    assert(longer.no_duplicates()) by {
        assert forall|i: int, j: int| 0 <= i < longer.len() && 0 <= j < longer.len() && i != j implies longer[i]
            != longer[j] by {
            if i < n && j == n {
                assert(order.contains(order[i]));
            } else if j < n && i == n {
                assert(order.contains(order[j]));
            }
        }
    }
    assert forall|k: int| 0 <= k < longer.len() && !meta[longer[k] as int].is_root implies #[trigger] parent_listed(
        meta,
        longer,
        k,
    ) by {
        assert(longer.take(k) =~= order.take(k));
        if k < n {
            assert(parent_listed(meta, order, k));
        } else {
            assert(order.take(n) =~= order);
        }
    }
    assert forall|k: int| #![trigger rows_assigned(meta, fixed, longer, after, wider, k)]
        0 <= k < longer.len() implies rows_assigned(meta, fixed, longer, after, wider, k) by {
        if k < n {
            assert(rows_assigned(meta, fixed, order, velocities, elimination, k));
            lemma_start_prefix(meta, fixed, order, longer, k);
            lemma_start_prefix(meta, fixed, order, longer, k + 1);
            let y = order[k] as int;
            assert(order.contains(order[k]));
            assert(after[y] == velocities[y]);
            if !meta[y].is_root {
                assert(parent_listed(meta, order, k));
                let p = meta[y].parent_body as usize;
                let j = order.take(k).index_of(p);
                assert(order.take(k)[j] == p);
                assert(order[j] == p);
                assert(order.contains(p));
                assert(p < meta.len());
                assert(after[p as int] == velocities[p as int]);
            }
            assert forall|r: int| #![trigger wider[r]] after[y].start <= r < after[y].end implies wider[r]
                == eliminated_into(meta, after, y, r) by {
                assert(wider[r] == elimination[r]);
            }
        }
    }
}

/// Whether no two joint rows carry the same coordinate.
pub open spec fn coordinates_distinct(bearings: Seq<CompiledBearing>) -> bool {
    forall|e: int, f: int|
        #![trigger bearings[e], bearings[f]]
        0 <= e < bearings.len() && 0 <= f < bearings.len() && bearings[e].coordinate_index is Some
            && bearings[e].coordinate_index == bearings[f].coordinate_index ==> e == f
}

/// Where run `c` starts: behind the run before it.
pub open spec fn run_start(runs: Seq<DynamicsComponent>, c: int) -> usize {
    if c == 0 {
        0
    } else {
        runs[c - 1].bodies.end
    }
}

/// Whether the runs of the first components fill the traversal.
spec fn runs_listed(
    meta: Seq<MechanismBodyTopology>,
    fixed: Seq<bool>,
    order: Seq<usize>,
    runs: Seq<DynamicsComponent>,
    components: Seq<Vec<u32>>,
) -> bool {
    &&& order.len() == if runs.len() == 0 {
        0
    } else {
        runs[runs.len() - 1].bodies.end as nat
    }
    &&& forall|c: int|
        #![trigger runs[c]]
        0 <= c < runs.len() ==> {
            &&& lists_component(meta, order, runs[c].bodies, components[c]@)
            &&& runs[c].velocities.start == velocity_start(
                meta,
                fixed,
                order,
                runs[c].bodies.start as int,
            )
            &&& runs[c].velocities.end == velocity_start(
                meta,
                fixed,
                order,
                runs[c].bodies.end as int,
            )
        }
    &&& forall|c: int| 0 <= c < runs.len() ==> #[trigger] run_start(runs, c) == runs[c].bodies.start
}

/// A run stays what it was when the traversal grows.
proof fn lemma_run_stays(
    meta: Seq<MechanismBodyTopology>,
    order: Seq<usize>,
    longer: Seq<usize>,
    span: Span,
    component: Seq<u32>,
)
    requires
        lists_component(meta, order, span, component),
        order.len() <= longer.len(),
        forall|i: int| #![trigger longer[i]] 0 <= i < order.len() ==> longer[i] == order[i],
    ensures
        lists_component(meta, longer, span, component),
{
    assert(longer.subrange(span.start as int, span.end as int) =~= order.subrange(
        span.start as int,
        span.end as int,
    ));
    assert forall|i: int, j: int| #![trigger longer[i], longer[j]]
        span.start <= i < j < span.end implies meta[longer[i] as int].preorder_index
        < meta[longer[j] as int].preorder_index by {
        assert(meta[order[i] as int].preorder_index < meta[order[j] as int].preorder_index);
    }
    assert forall|i: int| #![trigger longer[i]] span.start <= i < span.end implies longer[i]
        <= u32::MAX by {
        assert(order[i] <= u32::MAX);
    }
    assert forall|i: int| span.start <= i < span.end implies #[trigger] component.contains(
        longer[i] as u32,
    ) by {
        assert(component.contains(order[i] as u32));
    }
    assert forall|i: int| 0 <= i < component.len() implies #[trigger] longer.subrange(
        span.start as int,
        span.end as int,
    ).contains(component[i] as usize) by {
        assert(order.subrange(span.start as int, span.end as int).contains(component[i] as usize));
    }
}

/// A component's bodies in traversal order make the next run.
proof fn lemma_run_listed(
    meta: Seq<MechanismBodyTopology>,
    fixed: Seq<bool>,
    before: Seq<usize>,
    order: Seq<usize>,
    runs: Seq<DynamicsComponent>,
    components: Seq<Vec<u32>>,
    c: int,
    run: DynamicsComponent,
)
    requires
        meta.len() <= u32::MAX,
        runs.len() == c,
        0 <= c < components.len(),
        runs_listed(meta, fixed, before, runs, components),
        forall|i: int, j: int|
            #![trigger order[i], order[j]]
            0 <= i < j < order.len() ==> meta[order[i] as int].preorder_index
                < meta[order[j] as int].preorder_index,
        forall|i: int| #![trigger order[i]] 0 <= i < order.len() ==> order[i] < meta.len(),
        forall|i: int|
            0 <= i < order.len() ==> #[trigger] components[c]@.contains(order[i] as u32),
        forall|i: int|
            0 <= i < components[c]@.len() ==> #[trigger] order.contains(
                components[c]@[i] as usize,
            ),
        run.bodies.start == before.len(),
        run.bodies.end == (before + order).len(),
        run.velocities.start == velocity_start(meta, fixed, before, before.len() as int),
        run.velocities.end == velocity_start(
            meta,
            fixed,
            before + order,
            (before + order).len() as int,
        ),
    ensures
        runs_listed(meta, fixed, before + order, runs.push(run), components),
{
    let longer = before + order;
    let wider = runs.push(run);
    let n = before.len() as int;
    assert(longer.subrange(n, longer.len() as int) =~= order);
    assert forall|d: int| #![trigger wider[d]] 0 <= d < wider.len() implies ({
        &&& lists_component(meta, longer, wider[d].bodies, components[d]@)
        &&& wider[d].velocities.start == velocity_start(
            meta,
            fixed,
            longer,
            wider[d].bodies.start as int,
        )
        &&& wider[d].velocities.end == velocity_start(
            meta,
            fixed,
            longer,
            wider[d].bodies.end as int,
        )
    }) by {
        lemma_start_prefix(meta, fixed, before, longer, n);
        if d < c {
            assert(wider[d] == runs[d]);
            lemma_run_stays(meta, before, longer, runs[d].bodies, components[d]@);
            lemma_start_prefix(meta, fixed, before, longer, runs[d].bodies.start as int);
            lemma_start_prefix(meta, fixed, before, longer, runs[d].bodies.end as int);
        } else {
            assert(wider[d] == run);
            assert forall|i: int, j: int| #![trigger longer[i], longer[j]]
                n <= i < j < longer.len() implies meta[longer[i] as int].preorder_index
                < meta[longer[j] as int].preorder_index by {
                assert(longer[i] == order[i - n]);
                assert(longer[j] == order[j - n]);
            }
            assert forall|i: int| #![trigger longer[i]] n <= i < longer.len() implies longer[i]
                <= u32::MAX by {
                assert(longer[i] == order[i - n]);
            }
            assert forall|i: int| n <= i < longer.len() implies #[trigger] components[d]@.contains(
                longer[i] as u32,
            ) by {
                let j = i - n;
                assert(longer[i] == order[j]);
                assert(components[c]@.contains(order[j] as u32));
            }
            assert forall|i: int| 0 <= i < components[d]@.len() implies #[trigger] longer.subrange(
                run.bodies.start as int,
                run.bodies.end as int,
            ).contains(components[d]@[i] as usize) by {
                assert(order.contains(components[c]@[i] as usize));
            }
        }
    }
    assert forall|d: int| 0 <= d < wider.len() implies #[trigger] run_start(wider, d)
        == wider[d].bodies.start by {
        if d < c {
            assert(run_start(runs, d) == runs[d].bodies.start);
            assert(wider[d] == runs[d]);
            assert(d > 0 ==> wider[d - 1] == runs[d - 1]);
        } else {
            assert(wider[d] == run);
            assert(d > 0 ==> wider[d - 1] == runs[d - 1]);
        }
    }
}

/// The next body of a component has not been listed, and its parent has.
proof fn lemma_next_is_due(
    meta: Seq<MechanismBodyTopology>,
    components: Seq<Vec<u32>>,
    c: int,
    before: Seq<usize>,
    order: Seq<usize>,
    i: int,
    listed: Seq<usize>,
)
    requires
        meta.len() <= u32::MAX,
        components_disjoint(components),
        0 <= c < components.len(),
        0 <= i < order.len(),
        listed == before + order.take(i),
        listed.no_duplicates(),
        forall|k: int| #![trigger listed[k]] 0 <= k < listed.len() ==> listed[k] < meta.len(),
        forall|k: int|
            #![trigger before[k]]
            0 <= k < before.len() ==> in_components(components, c, before[k] as int) && before[k]
                < meta.len(),
        forall|i: int, j: int|
            #![trigger order[i], order[j]]
            0 <= i < j < order.len() ==> meta[order[i] as int].preorder_index
                < meta[order[j] as int].preorder_index,
        forall|i: int| #![trigger order[i]] 0 <= i < order.len() ==> order[i] < meta.len(),
        forall|i: int|
            0 <= i < order.len() ==> #[trigger] components[c]@.contains(order[i] as u32),
        forall|i: int|
            0 <= i < components[c]@.len() ==> #[trigger] order.contains(
                components[c]@[i] as usize,
            ),
        forall|i: int|
            0 <= i < components[c]@.len() ==> #[trigger] parent_earlier(
                meta,
                components[c]@,
                components[c]@[i] as int,
            ),
    ensures
        !listed.contains(order[i]),
        listed.push(order[i]).no_duplicates(),
        forall|k: int|
            #![trigger listed.push(order[i])[k]]
            0 <= k < listed.push(order[i]).len() ==> listed.push(order[i])[k] < meta.len(),
        meta[order[i] as int].is_root || listed.contains(
            meta[order[i] as int].parent_body as usize,
        ),
{
    let body = order[i];
    let component = components[c]@;
    assert(component.contains(order[i] as u32));
    let at = component.index_of(body as u32);
    assert(component[at] == body as u32);
    if listed.contains(body) {
        let k = listed.index_of(body);
        assert(listed[k] == body);
        if k < before.len() {
            assert(before[k] == body);
            let d = choose|d: int|
                0 <= d < c && d < components.len() && (#[trigger] components[d])@.contains(
                    before[k] as u32,
                );
            let j = components[d]@.index_of(body as u32);
            assert(components[d]@[j] == components[c]@[at]);
        } else {
            assert(order[k - before.len()] == body);
        }
    }
    let longer = listed.push(body);
    assert forall|p: int, q: int| 0 <= p < longer.len() && 0 <= q < longer.len() && p != q implies longer[p]
        != longer[q] by {
        if p < listed.len() && q == listed.len() {
            assert(listed.contains(listed[p]));
        } else if q < listed.len() && p == listed.len() {
            assert(listed.contains(listed[q]));
        }
    }
    if !meta[body as int].is_root {
        assert(parent_earlier(meta, component, component[at] as int));
        let parent = meta[body as int].parent_body;
        let j = component.index_of(parent);
        assert(component[j] == parent);
        assert(order.contains(component[j] as usize));
        let q = order.index_of(parent as usize);
        assert(order[q] == parent as usize);
        if q >= i {
            if q > i {
                assert(meta[order[i] as int].preorder_index < meta[order[q] as int].preorder_index);
            }
            assert(false);
        }
        assert(listed[before.len() + q] == parent as usize);
    }
}

/// Once every component is listed, every body is.
proof fn lemma_all_listed(
    meta: Seq<MechanismBodyTopology>,
    fixed: Seq<bool>,
    order: Seq<usize>,
    runs: Seq<DynamicsComponent>,
    components: Seq<Vec<u32>>,
)
    requires
        meta.len() <= u32::MAX,
        order.no_duplicates(),
        forall|k: int| #![trigger order[k]] 0 <= k < order.len() ==> order[k] < meta.len(),
        runs_listed(meta, fixed, order, runs, components),
        runs.len() == components.len(),
        forall|x: int|
            0 <= x < meta.len() ==> #[trigger] in_components(components, components.len() as int, x),
    ensures
        order.len() == meta.len(),
{
    lemma_distinct_rows_fit(order, meta.len() as int);
    let n = meta.len() as int;
    assert forall|x: int| 0 <= x < n implies order.contains(#[trigger] (x as usize)) by {
        assert(in_components(components, components.len() as int, x));
        let c = choose|c: int|
            0 <= c < components.len() && c < components.len() && (
            #[trigger] components[c])@.contains(x as u32);
        let i = components[c]@.index_of(x as u32);
        assert(components[c]@[i] == x);
        assert(lists_component(meta, order, runs[c].bodies, components[c]@));
        let span = runs[c].bodies;
        let run = order.subrange(span.start as int, span.end as int);
        assert(run.contains(components[c]@[i] as usize));
        let j = run.index_of(x as usize);
        assert(run[j] == x as usize);
        assert(order[span.start + j] == x as usize);
    }
    let all = vstd::set_lib::set_int_range(0, n);
    vstd::set_lib::lemma_int_range(0, n);
    let ints = order.map_values(|x: usize| x as int);
    assert forall|i: int, j: int| 0 <= i < ints.len() && 0 <= j < ints.len() && i != j implies ints[i]
        != ints[j] by {
        assert(order[i] != order[j]);
    }
    ints.unique_seq_to_set();
    assert forall|x: int| all.contains(x) implies #[trigger] ints.to_set().contains(x) by {
        assert(order.contains(x as usize));
        let k = order.index_of(x as usize);
        assert(order[k] == x as usize);
        assert(ints[k] == x);
    }
    vstd::set_lib::lemma_len_subset(all, ints.to_set());
}

/// Bodies and velocity rows in traversal order.
struct Schedule {
    preorder: Vec<usize>,
    body_velocities: Vec<Span>,
    elimination_parent: Vec<Option<usize>>,
    components: Vec<DynamicsComponent>,
}

/// Gives the next body its velocity rows.
fn schedule_body(
    meta: &Vec<MechanismBodyTopology>,
    fixed: &Vec<bool>,
    schedule: &mut Schedule,
    body: usize,
)
    requires
        meta@.len() == fixed@.len(),
        6 * meta@.len() <= usize::MAX,
        scheduled(
            meta@,
            fixed@,
            old(schedule).preorder@,
            old(schedule).body_velocities@,
            old(schedule).elimination_parent@,
        ),
        old(schedule).preorder@.len() < meta@.len(),
        body < meta@.len(),
        !old(schedule).preorder@.contains(body),
        meta@[body as int].is_root || old(schedule).preorder@.contains(
            meta@[body as int].parent_body as usize,
        ),
    ensures
        final(schedule).preorder@ == old(schedule).preorder@.push(body),
        final(schedule).components == old(schedule).components,
        scheduled(
            meta@,
            fixed@,
            final(schedule).preorder@,
            final(schedule).body_velocities@,
            final(schedule).elimination_parent@,
        ),
{
    let row: MechanismBodyTopology = meta[body];
    let ghost order = schedule.preorder@;
    let ghost listed = schedule.elimination_parent@;
    let ghost spans = schedule.body_velocities@;
    proof {
        lemma_start_bound(meta@, fixed@, order, order.len() as int);
    }
    let start: usize = schedule.elimination_parent.len();
    let owned: usize = if row.is_root {
        if fixed[body] {
            0
        } else {
            6
        }
    } else {
        1
    };
    let mut previous: Option<usize> = if row.is_root {
        None
    } else {
        proof {
            let p = row.parent_body as usize;
            let j = order.index_of(p);
            assert(order[j] == p);
        }
        last_of(schedule.body_velocities[row.parent_body as usize])
    };
    let span = Span { start, end: start + owned };
    let ghost after = spans.update(body as int, span);
    let mut r: usize = start;
    while r < start + owned
        invariant
            start <= r <= start + owned,
            start + owned <= usize::MAX,
            body < meta@.len(),
            after.len() == meta@.len(),
            after[body as int].start == start,
            listed.len() == start,
            schedule.preorder@ == order,
            schedule.body_velocities@ == spans,
            schedule.components == old(schedule).components,
            schedule.elimination_parent@.len() == r,
            forall|q: int|
                #![trigger schedule.elimination_parent@[q]]
                0 <= q < listed.len() ==> schedule.elimination_parent@[q] == listed[q],
            forall|q: int|
                #![trigger schedule.elimination_parent@[q]]
                start <= q < r ==> schedule.elimination_parent@[q] == eliminated_into(
                    meta@,
                    after,
                    body as int,
                    q,
                ),
            previous == eliminated_into(meta@, after, body as int, r as int),
        decreases start + owned - r,
    {
        schedule.elimination_parent.push(previous);
        previous = Some(r);
        r += 1;
    }
    schedule.body_velocities.set(body, span);
    schedule.preorder.push(body);
    proof {
        lemma_schedule_next(
            meta@,
            fixed@,
            order,
            spans,
            listed,
            body,
            schedule.body_velocities@,
            schedule.elimination_parent@,
        );
    }
}

/// Whether a component's bodies come with their parents, in traversal order.
spec fn component_ordered(
    meta: Seq<MechanismBodyTopology>,
    component: Seq<u32>,
    order: Seq<usize>,
) -> bool {
    &&& forall|i: int, j: int|
        #![trigger order[i], order[j]]
        0 <= i < j < order.len() ==> meta[order[i] as int].preorder_index
            < meta[order[j] as int].preorder_index
    &&& forall|i: int| #![trigger order[i]] 0 <= i < order.len() ==> order[i] < meta.len()
    &&& forall|i: int| 0 <= i < order.len() ==> #[trigger] component.contains(order[i] as u32)
    &&& forall|i: int|
        0 <= i < component.len() ==> #[trigger] order.contains(component[i] as usize)
    &&& forall|i: int|
        0 <= i < component.len() ==> #[trigger] parent_earlier(
            meta,
            component,
            component[i] as int,
        )
}

/// Whether every listed body stands in an earlier component.
spec fn listed_earlier(
    meta: Seq<MechanismBodyTopology>,
    components: Seq<Vec<u32>>,
    c: int,
    order: Seq<usize>,
) -> bool {
    forall|k: int|
        #![trigger order[k]]
        0 <= k < order.len() ==> in_components(components, c, order[k] as int) && order[k]
            < meta.len()
}

/// Schedules the bodies of one component.
fn schedule_component(
    meta: &Vec<MechanismBodyTopology>,
    fixed: &Vec<bool>,
    components: &Vec<Vec<u32>>,
    c: usize,
    order: &Vec<usize>,
    schedule: &mut Schedule,
)
    requires
        meta@.len() == fixed@.len(),
        meta@.len() <= u32::MAX,
        6 * meta@.len() <= usize::MAX,
        components_disjoint(components@),
        c < components@.len(),
        component_ordered(meta@, components@[c as int]@, order@),
        listed_earlier(meta@, components@, c as int, old(schedule).preorder@),
        scheduled(
            meta@,
            fixed@,
            old(schedule).preorder@,
            old(schedule).body_velocities@,
            old(schedule).elimination_parent@,
        ),
    ensures
        final(schedule).preorder@ == old(schedule).preorder@ + order@,
        final(schedule).components == old(schedule).components,
        scheduled(
            meta@,
            fixed@,
            final(schedule).preorder@,
            final(schedule).body_velocities@,
            final(schedule).elimination_parent@,
        ),
{
    let ghost before = schedule.preorder@;
    let mut i: usize = 0;
    assert(before + order@.take(0) =~= before);
    while i < order.len()
        invariant
            meta@.len() == fixed@.len(),
            meta@.len() <= u32::MAX,
            6 * meta@.len() <= usize::MAX,
            components_disjoint(components@),
            c < components@.len(),
            component_ordered(meta@, components@[c as int]@, order@),
            listed_earlier(meta@, components@, c as int, before),
            i <= order@.len(),
            schedule.preorder@ == before + order@.take(i as int),
            schedule.components == old(schedule).components,
            scheduled(
                meta@,
                fixed@,
                schedule.preorder@,
                schedule.body_velocities@,
                schedule.elimination_parent@,
            ),
        decreases order@.len() - i,
    {
        let body: usize = order[i];
        proof {
            lemma_next_is_due(
                meta@,
                components@,
                c as int,
                before,
                order@,
                i as int,
                schedule.preorder@,
            );
            lemma_distinct_rows_fit(schedule.preorder@.push(body), meta@.len() as int);
        }
        schedule_body(meta, fixed, schedule, body);
        proof {
            assert((before + order@.take(i as int)).push(body) =~= before + order@.take(i + 1));
        }
        i += 1;
    }
    assert(order@.take(order@.len() as int) =~= order@);
}

/// Schedules every component.
fn schedule_forest(
    meta: &Vec<MechanismBodyTopology>,
    fixed: &Vec<bool>,
    components: &Vec<Vec<u32>>,
) -> (schedule: Schedule)
    requires
        meta@.len() == fixed@.len(),
        meta@.len() <= u32::MAX,
        6 * meta@.len() <= usize::MAX,
        components_disjoint(components@),
        forall|x: int, y: int|
            #![trigger meta@[x], meta@[y]]
            0 <= x < meta@.len() && 0 <= y < meta@.len() && x != y ==> meta@[x].preorder_index
                != meta@[y].preorder_index,
        forall|c: int, i: int|
            #![trigger components@[c]@[i]]
            0 <= c < components@.len() && 0 <= i < components@[c]@.len() ==> components@[c]@[i]
                < meta@.len(),
        forall|c: int, i: int|
            0 <= c < components@.len() && 0 <= i < components@[c]@.len()
                ==> #[trigger] parent_earlier(
                meta@,
                components@[c]@,
                components@[c]@[i] as int,
            ),
        forall|x: int|
            0 <= x < meta@.len() ==> #[trigger] in_components(
                components@,
                components@.len() as int,
                x,
            ),
    ensures
        scheduled(
            meta@,
            fixed@,
            schedule.preorder@,
            schedule.body_velocities@,
            schedule.elimination_parent@,
        ),
        schedule.preorder@.len() == meta@.len(),
        schedule.components@.len() == components@.len(),
        runs_listed(meta@, fixed@, schedule.preorder@, schedule.components@, components@),
{
    let mut body_velocities: Vec<Span> = Vec::new();
    let mut x: usize = 0;
    while x < meta.len()
        invariant
            x <= meta@.len(),
            body_velocities@.len() == x,
        decreases meta@.len() - x,
    {
        body_velocities.push(Span { start: 0, end: 0 });
        x += 1;
    }
    let mut schedule = Schedule {
        preorder: Vec::new(),
        body_velocities,
        elimination_parent: Vec::new(),
        components: Vec::new(),
    };
    let mut c: usize = 0;
    while c < components.len()
        invariant
            meta@.len() == fixed@.len(),
            meta@.len() <= u32::MAX,
            6 * meta@.len() <= usize::MAX,
            components_disjoint(components@),
            forall|x: int, y: int|
                #![trigger meta@[x], meta@[y]]
                0 <= x < meta@.len() && 0 <= y < meta@.len() && x != y ==> meta@[x].preorder_index
                    != meta@[y].preorder_index,
            forall|c: int, i: int|
                #![trigger components@[c]@[i]]
                0 <= c < components@.len() && 0 <= i < components@[c]@.len() ==> components@[c]@[i]
                    < meta@.len(),
            forall|c: int, i: int|
                0 <= c < components@.len() && 0 <= i < components@[c]@.len()
                    ==> #[trigger] parent_earlier(
                    meta@,
                    components@[c]@,
                    components@[c]@[i] as int,
                ),
            c <= components@.len(),
            schedule.components@.len() == c,
            scheduled(
                meta@,
                fixed@,
                schedule.preorder@,
                schedule.body_velocities@,
                schedule.elimination_parent@,
            ),
            listed_earlier(meta@, components@, c as int, schedule.preorder@),
            runs_listed(meta@, fixed@, schedule.preorder@, schedule.components@, components@),
        decreases components@.len() - c,
    {
        let first_body: usize = schedule.preorder.len();
        let first_velocity: usize = schedule.elimination_parent.len();
        let ghost before = schedule.preorder@;
        let ghost runs = schedule.components@;
        proof {
            assert forall|i: int| #![trigger components@[c as int]@[i]]
                0 <= i < components@[c as int]@.len() implies components@[c as int]@[i]
                < meta@.len() by {}
        }
        let order: Vec<usize> = order_component(meta, &components[c]);
        assert(component_ordered(meta@, components@[c as int]@, order@));
        schedule_component(meta, fixed, components, c, &order, &mut schedule);
        let run = DynamicsComponent {
            bodies: Span { start: first_body, end: schedule.preorder.len() },
            velocities: Span { start: first_velocity, end: schedule.elimination_parent.len() },
        };
        schedule.components.push(run);
        proof {
            lemma_run_listed(
                meta@,
                fixed@,
                before,
                order@,
                runs,
                components@,
                c as int,
                run,
            );
            lemma_listed_next(meta@, components@, c as int, before, order@);
        }
        c += 1;
    }
    proof {
        lemma_all_listed(
            meta@,
            fixed@,
            schedule.preorder@,
            schedule.components@,
            components@,
        );
    }
    schedule
}

/// Listing a component leaves only later ones.
proof fn lemma_listed_next(
    meta: Seq<MechanismBodyTopology>,
    components: Seq<Vec<u32>>,
    c: int,
    before: Seq<usize>,
    order: Seq<usize>,
)
    requires
        0 <= c < components.len(),
        listed_earlier(meta, components, c, before),
        component_ordered(meta, components[c]@, order),
    ensures
        listed_earlier(meta, components, c + 1, before + order),
{
    let longer = before + order;
    assert forall|k: int| #![trigger longer[k]] 0 <= k < longer.len() implies in_components(
        components,
        c + 1,
        longer[k] as int,
    ) && longer[k] < meta.len() by {
        if k < before.len() {
            assert(longer[k] == before[k]);
            assert(in_components(components, c, before[k] as int));
            let d = choose|d: int|
                0 <= d < c && d < components.len() && (#[trigger] components[d])@.contains(
                    before[k] as u32,
                );
            assert(components[d]@.contains(longer[k] as u32));
        } else {
            let i = k - before.len();
            assert(longer[k] == order[i]);
            assert(components[c]@.contains(order[i] as u32));
        }
    }
}

impl CompiledDynamics {
    /// Whether schedules fit a forest.
    pub open spec fn fits(
        &self,
        fixed: Seq<bool>,
        bearings: Seq<CompiledBearing>,
        topology: LoopTopology,
    ) -> bool {
        let meta = topology.body_parents@;
        let components = topology.mechanism_components@;
        &&& self.body_bearings@.len() == meta.len()
        &&& forall|x: int|
            #![trigger self.body_bearings@[x]]
            0 <= x < meta.len() ==> match meta[x].tree_bearing {
                Some(id) => self.body_bearings@[x] is Some && self.body_bearings@[x]->0
                    < bearings.len() && bearings[self.body_bearings@[x]->0 as int].source_bearing
                    == id,
                None => self.body_bearings@[x] is None,
            }
        &&& self.coordinate_bearings@.len() == topology.tree_bearings@.len()
        &&& forall|k: int|
            #![trigger self.coordinate_bearings@[k]]
            0 <= k < self.coordinate_bearings@.len() ==> self.coordinate_bearings@[k]
                < bearings.len() && bearings[self.coordinate_bearings@[k] as int].source_bearing
                == topology.tree_bearings@[k]
        &&& scheduled(
            meta,
            fixed,
            self.preorder@,
            self.body_velocities@,
            self.elimination_parent@,
        )
        &&& self.preorder@.len() == meta.len()
        &&& self.postorder@ == self.preorder@.reverse()
        &&& self.components@.len() == components.len()
        &&& forall|c: int|
            #![trigger self.components@[c]]
            0 <= c < components.len() ==> {
                &&& lists_component(
                    meta,
                    self.preorder@,
                    self.components@[c].bodies,
                    components[c]@,
                )
                &&& self.components@[c].velocities.start == velocity_start(
                    meta,
                    fixed,
                    self.preorder@,
                    self.components@[c].bodies.start as int,
                )
                &&& self.components@[c].velocities.end == velocity_start(
                    meta,
                    fixed,
                    self.preorder@,
                    self.components@[c].bodies.end as int,
                )
            }
        &&& forall|c: int|
            0 <= c < components.len() ==> #[trigger] run_start(self.components@, c)
                == self.components@[c].bodies.start
        &&& self.coordinate_velocities@.len() == topology.tree_bearings@.len()
        &&& forall|k: int|
            #![trigger self.coordinate_velocities@[k]]
            0 <= k < self.coordinate_velocities@.len() ==> self.velocity_moves(
                bearings,
                k,
                meta.len() as int,
            )
        &&& self.loops@.len() == topology.closure_bearings@.len()
        &&& forall|k: int|
            #![trigger self.loops@[k]]
            0 <= k < self.loops@.len() ==> {
                let row = self.loops@[k].bearing as int;
                &&& row < bearings.len()
                &&& bearings[row].source_bearing == topology.closure_bearings@[k]
                &&& self.loops@[k].branch_heads@ == seq![
                    last_row(self.body_velocities@[bearings[row].compound_a as int]),
                    last_row(self.body_velocities@[bearings[row].compound_b as int]),
                ]
            }
    }

    /// Whether body `x` is carried by coordinate `k`.
    pub open spec fn carries(&self, bearings: Seq<CompiledBearing>, k: int, x: int) -> bool {
        self.body_bearings@[x] is Some && bearings[self.body_bearings@[x]->0 as int].coordinate_index
            == Some(k as u32)
    }

    /// Whether coordinate `k` knows the velocity row of the body it carries;
    /// a coordinate that carries none names row zero.
    pub open spec fn velocity_moves(
        &self,
        bearings: Seq<CompiledBearing>,
        k: int,
        count: int,
    ) -> bool {
        &&& forall|x: int|
            0 <= x < count && #[trigger] self.carries(bearings, k, x)
                ==> self.coordinate_velocities@[k] == self.body_velocities@[x].start
        &&& (forall|x: int| 0 <= x < count ==> !#[trigger] self.carries(bearings, k, x))
            ==> self.coordinate_velocities@[k] == 0
    }

    /// Compiles the schedules of a forest.
    pub fn compile(
        fixed: &Vec<bool>,
        bearings: &Vec<CompiledBearing>,
        topology: &LoopTopology,
    ) -> (dynamics: Self)
        requires
            schedulable(fixed@, bearings@, *topology),
        ensures
            dynamics.fits(fixed@, bearings@, *topology),
    {
        let meta: &Vec<MechanismBodyTopology> = &topology.body_parents;
        let count: usize = meta.len();
        let mut body_bearings: Vec<Option<usize>> = Vec::new();
        let mut x: usize = 0;
        while x < count
            invariant
                forall|x: int|
                    #![trigger meta@[x]]
                    0 <= x < meta@.len() && meta@[x].tree_bearing is Some ==> row_named(
                        bearings@,
                        meta@[x].tree_bearing->0,
                    ),
                meta@ == topology.body_parents@,
                count == meta@.len(),
                x <= count,
                body_bearings@.len() == x,
                forall|y: int|
                    #![trigger body_bearings@[y]]
                    0 <= y < x ==> match meta@[y].tree_bearing {
                        Some(id) => body_bearings@[y] is Some && body_bearings@[y]->0
                            < bearings@.len()
                            && bearings@[body_bearings@[y]->0 as int].source_bearing == id,
                        None => body_bearings@[y] is None,
                    },
            decreases count - x,
        {
            let row: Option<usize> = match meta[x].tree_bearing {
                Some(id) => Some(find_row(bearings, id)),
                None => None,
            };
            body_bearings.push(row);
            x += 1;
        }
        let mut coordinate_bearings: Vec<usize> = Vec::new();
        let mut k: usize = 0;
        while k < topology.tree_bearings.len()
            invariant
                forall|k: int|
                    #![trigger topology.tree_bearings@[k]]
                    0 <= k < topology.tree_bearings@.len() ==> row_named(
                        bearings@,
                        topology.tree_bearings@[k],
                    ),
                k <= topology.tree_bearings@.len(),
                coordinate_bearings@.len() == k,
                forall|j: int|
                    #![trigger coordinate_bearings@[j]]
                    0 <= j < k ==> coordinate_bearings@[j] < bearings@.len()
                        && bearings@[coordinate_bearings@[j] as int].source_bearing
                        == topology.tree_bearings@[j],
            decreases topology.tree_bearings@.len() - k,
        {
            let row: usize = find_row(bearings, topology.tree_bearings[k]);
            coordinate_bearings.push(row);
            k += 1;
        }
        let schedule: Schedule = schedule_forest(
            meta,
            fixed,
            &topology.mechanism_components,
        );
        let Schedule { preorder, body_velocities, elimination_parent, components } = schedule;
        let mut postorder: Vec<usize> = Vec::new();
        let mut left: usize = preorder.len();
        while left > 0
            invariant
                left <= preorder@.len(),
                postorder@.len() == preorder@.len() - left,
                forall|i: int|
                    #![trigger postorder@[i]]
                    0 <= i < postorder@.len() ==> postorder@[i] == preorder@[preorder@.len() - 1
                        - i],
            decreases left,
        {
            left -= 1;
            postorder.push(preorder[left]);
        }
        assert(postorder@ =~= preorder@.reverse());
        let mut dynamics = CompiledDynamics {
            body_bearings,
            coordinate_bearings,
            coordinate_velocities: Vec::new(),
            preorder,
            postorder,
            body_velocities,
            elimination_parent,
            components,
            loops: Vec::new(),
        };
        dynamics.trace_loops(bearings, topology);
        dynamics.place_coordinates(bearings, topology);
        dynamics
    }

    /// Finds the velocity row that each coordinate moves.
    fn place_coordinates(&mut self, bearings: &Vec<CompiledBearing>, topology: &LoopTopology)
        requires
            old(self).body_bearings@.len() == topology.body_parents@.len(),
            old(self).body_velocities@.len() == topology.body_parents@.len(),
            joints_distinct(bearings@),
            forall|x: int|
                #![trigger old(self).body_bearings@[x]]
                0 <= x < old(self).body_bearings@.len() ==> match topology.body_parents@[x].tree_bearing {
                    Some(id) => old(self).body_bearings@[x] is Some && old(self).body_bearings@[x]->0
                        < bearings@.len()
                        && bearings@[old(self).body_bearings@[x]->0 as int].source_bearing == id,
                    None => old(self).body_bearings@[x] is None,
                },
            forall|x: int, y: int|
                #![trigger topology.body_parents@[x], topology.body_parents@[y]]
                0 <= x < topology.body_parents@.len() && 0 <= y < topology.body_parents@.len() && x
                    != y && topology.body_parents@[x].tree_bearing is Some
                    ==> topology.body_parents@[x].tree_bearing
                    != topology.body_parents@[y].tree_bearing,
            forall|e: int|
                #![trigger bearings@[e]]
                0 <= e < bearings@.len() && bearings@[e].coordinate_index is Some
                    ==> bearings@[e].coordinate_index->0 < topology.tree_bearings@.len(),
            coordinates_distinct(bearings@),
            topology.tree_bearings@.len() <= u32::MAX,
        ensures
            *final(self) == (CompiledDynamics {
                coordinate_velocities: final(self).coordinate_velocities,
                ..*old(self)
            }),
            final(self).coordinate_velocities@.len() == topology.tree_bearings@.len(),
            forall|k: int|
                #![trigger final(self).coordinate_velocities@[k]]
                0 <= k < final(self).coordinate_velocities@.len() ==> final(self).velocity_moves(
                    bearings@,
                    k,
                    topology.body_parents@.len() as int,
                ),
    {
        let ghost start = *self;
        let ghost meta = topology.body_parents@;
        let mut rows: Vec<usize> = Vec::new();
        let mut k: usize = 0;
        while k < topology.tree_bearings.len()
            invariant
                k <= topology.tree_bearings@.len(),
                rows@.len() == k,
                forall|j: int| #![trigger rows@[j]] 0 <= j < k ==> rows@[j] == 0,
            decreases topology.tree_bearings@.len() - k,
        {
            rows.push(0);
            k += 1;
        }
        self.coordinate_velocities = rows;
        let mut x: usize = 0;
        proof {
            assert forall|k: int| #![trigger self.coordinate_velocities@[k]]
                0 <= k < self.coordinate_velocities@.len() implies self.velocity_moves(
                bearings@,
                k,
                0,
            ) by {}
        }
        while x < self.body_bearings.len()
            invariant
                *self == (CompiledDynamics {
                    coordinate_velocities: self.coordinate_velocities,
                    ..start
                }),
                meta == topology.body_parents@,
                self.body_bearings@.len() == meta.len(),
                self.body_velocities@.len() == meta.len(),
                x <= meta.len(),
                joints_distinct(bearings@),
                coordinates_distinct(bearings@),
                topology.tree_bearings@.len() <= u32::MAX,
                self.coordinate_velocities@.len() == topology.tree_bearings@.len(),
                forall|x: int|
                    #![trigger start.body_bearings@[x]]
                    0 <= x < start.body_bearings@.len() ==> match meta[x].tree_bearing {
                        Some(id) => start.body_bearings@[x] is Some && start.body_bearings@[x]->0
                            < bearings@.len()
                            && bearings@[start.body_bearings@[x]->0 as int].source_bearing == id,
                        None => start.body_bearings@[x] is None,
                    },
                forall|x: int, y: int|
                    #![trigger meta[x], meta[y]]
                    0 <= x < meta.len() && 0 <= y < meta.len() && x != y && meta[x].tree_bearing is Some
                        ==> meta[x].tree_bearing != meta[y].tree_bearing,
                forall|e: int|
                    #![trigger bearings@[e]]
                    0 <= e < bearings@.len() && bearings@[e].coordinate_index is Some
                        ==> bearings@[e].coordinate_index->0 < topology.tree_bearings@.len(),
                forall|k: int|
                    #![trigger self.coordinate_velocities@[k]]
                    0 <= k < self.coordinate_velocities@.len() ==> self.velocity_moves(
                        bearings@,
                        k,
                        x as int,
                    ),
            decreases meta.len() - x,
        {
            let ghost before = *self;
            assert(start.body_bearings@[x as int] == self.body_bearings@[x as int]);
            if let Some(row) = self.body_bearings[x] {
                if let Some(coordinate) = bearings[row].coordinate_index {
                    let first: usize = self.body_velocities[x].start;
                    self.coordinate_velocities.set(coordinate as usize, first);
                }
            }
            proof {
                assert forall|k: int| #![trigger self.coordinate_velocities@[k]]
                    0 <= k < self.coordinate_velocities@.len() implies self.velocity_moves(
                    bearings@,
                    k,
                    x + 1,
                ) by {
                    assert(before.coordinate_velocities@[k] == before.coordinate_velocities@[k]);
                    assert(before.velocity_moves(bearings@, k, x as int));
                    assert forall|y: int| 0 <= y < x + 1 && #[trigger] self.carries(
                        bearings@,
                        k,
                        y,
                    ) implies self.coordinate_velocities@[k] == self.body_velocities@[y].start by {
                        assert(start.body_bearings@[y] == self.body_bearings@[y]);
                        if y < x {
                            assert(before.carries(bearings@, k, y));
                            if self.carries(bearings@, k, x as int) {
                                let e = self.body_bearings@[y]->0 as int;
                                let f = self.body_bearings@[x as int]->0 as int;
                                assert(bearings@[e].coordinate_index
                                    == bearings@[f].coordinate_index);
                                assert(e == f);
                                assert(meta[y].tree_bearing == meta[x as int].tree_bearing);
                                assert(false);
                            }
                        }
                    }
                    if forall|y: int|
                        0 <= y < x + 1 ==> !#[trigger] self.carries(bearings@, k, y) {
                        assert(!self.carries(bearings@, k, x as int));
                        assert forall|y: int| 0 <= y < x implies !#[trigger] before.carries(
                            bearings@,
                            k,
                            y,
                        ) by {
                            assert(!self.carries(bearings@, k, y));
                        }
                    }
                }
            }
            x += 1;
        }
    }

    /// Names the velocity rows that each loop closes over.
    fn trace_loops(&mut self, bearings: &Vec<CompiledBearing>, topology: &LoopTopology)
        requires
            rows_connect_within(bearings@, old(self).body_velocities@.len() as int),
            forall|k: int|
                #![trigger topology.closure_bearings@[k]]
                0 <= k < topology.closure_bearings@.len() ==> row_named(
                    bearings@,
                    topology.closure_bearings@[k],
                ),
        ensures
            *final(self) == (CompiledDynamics { loops: final(self).loops, ..*old(self) }),
            final(self).loops@.len() == topology.closure_bearings@.len(),
            forall|k: int|
                #![trigger final(self).loops@[k]]
                0 <= k < final(self).loops@.len() ==> {
                    let row = final(self).loops@[k].bearing as int;
                    &&& row < bearings@.len()
                    &&& bearings@[row].source_bearing == topology.closure_bearings@[k]
                    &&& final(self).loops@[k].branch_heads@ == seq![
                        last_row(final(self).body_velocities@[bearings@[row].compound_a as int]),
                        last_row(final(self).body_velocities@[bearings@[row].compound_b as int]),
                    ]
                },
    {
        let ghost start = *self;
        let mut loops: Vec<LoopConstraintPattern> = Vec::new();
        let mut k: usize = 0;
        while k < topology.closure_bearings.len()
            invariant
                *self == start,
                k <= topology.closure_bearings@.len(),
                loops@.len() == k,
                rows_connect_within(bearings@, self.body_velocities@.len() as int),
                forall|k: int|
                    #![trigger topology.closure_bearings@[k]]
                    0 <= k < topology.closure_bearings@.len() ==> row_named(
                        bearings@,
                        topology.closure_bearings@[k],
                    ),
                forall|j: int|
                    #![trigger loops@[j]]
                    0 <= j < k ==> {
                        let row = loops@[j].bearing as int;
                        &&& row < bearings@.len()
                        &&& bearings@[row].source_bearing == topology.closure_bearings@[j]
                        &&& loops@[j].branch_heads@ == seq![
                            last_row(self.body_velocities@[bearings@[row].compound_a as int]),
                            last_row(self.body_velocities@[bearings@[row].compound_b as int]),
                        ]
                    },
            decreases topology.closure_bearings@.len() - k,
        {
            let row: usize = find_row(bearings, topology.closure_bearings[k]);
            let bearing: CompiledBearing = bearings[row];
            assert(bearings@[row as int].compound_a < self.body_velocities@.len());
            let head_a: Option<usize> = last_of(self.body_velocities[bearing.compound_a as usize]);
            let head_b: Option<usize> = last_of(self.body_velocities[bearing.compound_b as usize]);
            let pattern = LoopConstraintPattern { bearing: row, branch_heads: [head_a, head_b] };
            assert(pattern.branch_heads@ =~= seq![head_a, head_b]);
            loops.push(pattern);
            k += 1;
        }
        self.loops = loops;
    }
}

/// A floating root has six velocities, a fixed one none, and a body that a joint
/// carries has one; the bodies' velocities follow each other without a gap, in
/// the order in which the bodies are visited.
pub proof fn bodies_have_six_one_or_no_velocities(
    dynamics: CompiledDynamics,
    fixed: Seq<bool>,
    bearings: Seq<CompiledBearing>,
    topology: LoopTopology,
    k: int,
)
    requires
        dynamics.fits(fixed, bearings, topology),
        0 <= k < dynamics.preorder@.len(),
    ensures
        ({
            let x = dynamics.preorder@[k] as int;
            let body = topology.body_parents@[x];
            let span = dynamics.body_velocities@[x];
            let next = dynamics.preorder@[k + 1] as int;
            let count = span.end - span.start;
            &&& body.is_root && !fixed[x] ==> count == 6
            &&& body.is_root && fixed[x] ==> count == 0
            &&& !body.is_root ==> count == 1
            &&& k == 0 ==> span.start == 0
            &&& k + 1 < dynamics.preorder@.len() ==> dynamics.body_velocities@[next].start
                == span.end
            &&& k + 1 == dynamics.preorder@.len() ==> span.end
                == dynamics.elimination_parent@.len()
            &&& dynamics.postorder@.len() == dynamics.preorder@.len()
            &&& dynamics.postorder@[dynamics.preorder@.len() - 1 - k] == dynamics.preorder@[k]
        }),
{
    let meta = topology.body_parents@;
    let order = dynamics.preorder@;
    let velocities = dynamics.body_velocities@;
    let elimination = dynamics.elimination_parent@;
    assert(rows_assigned(meta, fixed, order, velocities, elimination, k));
    assert(velocity_start(meta, fixed, order, 0) == 0);
    assert(velocity_start(meta, fixed, order, k + 1) == velocity_start(meta, fixed, order, k)
        + rows_owned(meta, fixed, order[k] as int));
    if k + 1 < order.len() {
        assert(rows_assigned(meta, fixed, order, velocities, elimination, k + 1));
    }
}

/// Velocities are eliminated into the one before them in the same body, and the
/// first of a body into the last of the body that carries it; a root's first,
/// and that of a body carried by a fixed root, into none.
pub proof fn velocities_are_eliminated_towards_the_root(
    dynamics: CompiledDynamics,
    fixed: Seq<bool>,
    bearings: Seq<CompiledBearing>,
    topology: LoopTopology,
    k: int,
    r: int,
)
    requires
        dynamics.fits(fixed, bearings, topology),
        0 <= k < dynamics.preorder@.len(),
        ({
            let span = dynamics.body_velocities@[dynamics.preorder@[k] as int];
            span.start <= r < span.end
        }),
    ensures
        ({
            let x = dynamics.preorder@[k] as int;
            let body = topology.body_parents@[x];
            let span = dynamics.body_velocities@[x];
            let carrier = dynamics.body_velocities@[body.parent_body as int];
            let into = dynamics.elimination_parent@[r];
            &&& r > span.start ==> into == Some((r - 1) as usize)
            &&& r == span.start && body.is_root ==> into is None
            &&& r == span.start && !body.is_root && carrier.start == carrier.end ==> into is None
            &&& r == span.start && !body.is_root && carrier.start < carrier.end ==> into is Some
                && into->0 + 1 == carrier.end
        }),
{
    let meta = topology.body_parents@;
    let order = dynamics.preorder@;
    let velocities = dynamics.body_velocities@;
    let elimination = dynamics.elimination_parent@;
    assert(rows_assigned(meta, fixed, order, velocities, elimination, k));
    assert(elimination[r] == eliminated_into(meta, velocities, order[k] as int, r));
}

/// Every component's bodies and velocities follow those of the component before
/// it, and parents are visited before what they carry.
pub proof fn components_follow_each_other(
    dynamics: CompiledDynamics,
    fixed: Seq<bool>,
    bearings: Seq<CompiledBearing>,
    topology: LoopTopology,
    c: int,
    k: int,
)
    requires
        dynamics.fits(fixed, bearings, topology),
        0 <= c < dynamics.components@.len(),
    ensures
        c == 0 ==> dynamics.components@[c].bodies.start == 0
            && dynamics.components@[c].velocities.start == 0,
        c > 0 ==> dynamics.components@[c].bodies.start == dynamics.components@[c - 1].bodies.end
            && dynamics.components@[c].velocities.start
            == dynamics.components@[c - 1].velocities.end,
        dynamics.components@[c].bodies.start <= k < dynamics.components@[c].bodies.end ==> {
            let span = dynamics.body_velocities@[dynamics.preorder@[k] as int];
            &&& dynamics.components@[c].velocities.start <= span.start
            &&& span.end <= dynamics.components@[c].velocities.end
        },
        0 <= k < dynamics.preorder@.len() && !topology.body_parents@[dynamics.preorder@[k] as int].is_root
            ==> exists|j: int|
            0 <= j < k && #[trigger] dynamics.preorder@[j]
                == topology.body_parents@[dynamics.preorder@[k] as int].parent_body,
{
    let meta = topology.body_parents@;
    let order = dynamics.preorder@;
    let velocities = dynamics.body_velocities@;
    let elimination = dynamics.elimination_parent@;
    let run = dynamics.components@[c];
    assert(run_start(dynamics.components@, c) == run.bodies.start);
    assert(velocity_start(meta, fixed, order, 0) == 0);
    if c > 0 {
        let earlier = dynamics.components@[c - 1];
    }
    if run.bodies.start <= k < run.bodies.end {
        assert(rows_assigned(meta, fixed, order, velocities, elimination, k));
        lemma_start_grows(meta, fixed, order, run.bodies.start as int, k);
        lemma_start_grows(meta, fixed, order, k + 1, run.bodies.end as int);
    }
    if 0 <= k < order.len() && !meta[order[k] as int].is_root {
        assert(parent_listed(meta, order, k));
        let parent = meta[order[k] as int].parent_body as usize;
        let j = order.take(k).index_of(parent);
        assert(order.take(k)[j] == parent);
        assert(order[j] == parent);
    }
}

/// Later bodies start no earlier.
proof fn lemma_start_grows(
    meta: Seq<MechanismBodyTopology>,
    fixed: Seq<bool>,
    order: Seq<usize>,
    i: int,
    j: int,
)
    requires
        0 <= i <= j,
    ensures
        velocity_start(meta, fixed, order, i) <= velocity_start(meta, fixed, order, j),
    decreases j - i,
{
    if i < j {
        lemma_start_grows(meta, fixed, order, i, j - 1);
    }
}

/// A coordinate's velocity is that of the body that its joint carries, a body's
/// joint is the one that carries it in the tree, and a closed loop runs from the
/// last velocity of either side of its joint.
pub proof fn coordinates_move_the_bodies_they_carry(
    dynamics: CompiledDynamics,
    fixed: Seq<bool>,
    bearings: Seq<CompiledBearing>,
    topology: LoopTopology,
    x: int,
    k: int,
)
    requires
        dynamics.fits(fixed, bearings, topology),
        0 <= x < topology.body_parents@.len(),
    ensures
        topology.body_parents@[x].tree_bearing is Some <==> dynamics.body_bearings@[x] is Some,
        dynamics.body_bearings@[x] is Some ==> {
            let joint = bearings[dynamics.body_bearings@[x]->0 as int];
            &&& topology.body_parents@[x].tree_bearing == Some(joint.source_bearing)
            &&& 0 <= k < dynamics.coordinate_velocities@.len() <= u32::MAX && joint.coordinate_index
                == Some(k as u32) ==> dynamics.coordinate_velocities@[k]
                == dynamics.body_velocities@[x].start
        },
        0 <= k < dynamics.coordinate_bearings@.len()
            ==> bearings[dynamics.coordinate_bearings@[k] as int].source_bearing
            == topology.tree_bearings@[k],
        0 <= k < dynamics.loops@.len() ==> {
            let joint = bearings[dynamics.loops@[k].bearing as int];
            let near = dynamics.body_velocities@[joint.compound_a as int];
            let far = dynamics.body_velocities@[joint.compound_b as int];
            let heads = dynamics.loops@[k].branch_heads@;
            &&& joint.source_bearing == topology.closure_bearings@[k]
            &&& near.start < near.end ==> heads[0] == Some((near.end - 1) as usize)
            &&& near.start >= near.end ==> heads[0] is None
            &&& far.start < far.end ==> heads[1] == Some((far.end - 1) as usize)
            &&& far.start >= far.end ==> heads[1] is None
        },
{
    let meta = topology.body_parents@;
    let row = dynamics.body_bearings@[x];
    if 0 <= k < dynamics.coordinate_velocities@.len() {
        let here = dynamics.coordinate_velocities@[k];
        assert(dynamics.velocity_moves(bearings, k, meta.len() as int));
        if row is Some && bearings[row->0 as int].coordinate_index == Some(k as u32) {
            assert(dynamics.carries(bearings, k, x));
        }
    }
    if 0 <= k < dynamics.coordinate_bearings@.len() {
        let here = dynamics.coordinate_bearings@[k];
    }
    if 0 <= k < dynamics.loops@.len() {
        let here = dynamics.loops@[k];
    }
}

} // verus!
