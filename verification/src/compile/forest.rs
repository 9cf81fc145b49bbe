//! Choosing which joints carry independent coordinates.
//!
//! Joints are considered driven first, each kind in row order. A joint enters
//! the forest unless its sides are already joined, or unless it would join two
//! trees that each hold a fixed body.

use vstd::prelude::*;

use super::disjoint_set::{
    canonical, closed_under, connected, links_within, merged, merging_represents_one_more_link,
    represents, separate_rows_represent_no_links, DisjointSet, Link,
};

verus! {

/// One physical joint between two compounds.
#[derive(Clone, Copy, Debug, PartialEq, Eq, Structural)]
pub struct JointEdge {
    /// Source compound row.
    pub a: u32,
    /// Target compound row.
    pub b: u32,
    /// Whether a drive is wired to the joint.
    pub driven: bool,
}

/// Whether every joint connects rows below `count`.
pub open spec fn edges_within(edges: Seq<JointEdge>, count: int) -> bool {
    forall|e: int|
        #![trigger edges[e]]
        0 <= e < edges.len() ==> edges[e].a < count && edges[e].b < count
}

/// The links that the joints listed in `rows` make.
pub open spec fn links_of(edges: Seq<JointEdge>, rows: Seq<int>) -> Seq<Link> {
    Seq::new(rows.len(), |k: int| (edges[rows[k]].a as int, edges[rows[k]].b as int))
}

/// The links that every joint makes.
pub open spec fn all_links(edges: Seq<JointEdge>) -> Seq<Link> {
    Seq::new(edges.len(), |k: int| (edges[k].a as int, edges[k].b as int))
}

/// The first `count` rows whose joint is driven, or those whose joint is not.
pub open spec fn rows_where(edges: Seq<JointEdge>, driven: bool, count: int) -> Seq<int>
    decreases count,
{
    if count <= 0 {
        Seq::empty()
    } else if edges[count - 1].driven == driven {
        rows_where(edges, driven, count - 1).push(count - 1)
    } else {
        rows_where(edges, driven, count - 1)
    }
}

/// The order in which joints are considered.
pub open spec fn driven_first(edges: Seq<JointEdge>) -> Seq<int> {
    rows_where(edges, true, edges.len() as int) + rows_where(edges, false, edges.len() as int)
}

/// Whether `links` tie row `x` to a fixed body.
pub open spec fn anchored(links: Seq<Link>, fixed: Seq<bool>, x: int) -> bool {
    exists|f: int| 0 <= f < fixed.len() && #[trigger] fixed[f] && connected(links, x, f)
}

/// Whether a joint may enter the forest that `links` make.
pub open spec fn admits(links: Seq<Link>, fixed: Seq<bool>, edge: JointEdge) -> bool {
    &&& !connected(links, edge.a as int, edge.b as int)
    &&& !(anchored(links, fixed, edge.a as int) && anchored(links, fixed, edge.b as int))
}

/// The joints that enter the forest when `order` is gone through once.
pub open spec fn forest(edges: Seq<JointEdge>, fixed: Seq<bool>, order: Seq<int>) -> Seq<int>
    decreases order.len(),
{
    if order.len() == 0 {
        Seq::empty()
    } else {
        let chosen = forest(edges, fixed, order.drop_last());
        if admits(links_of(edges, chosen), fixed, edges[order.last()]) {
            chosen.push(order.last())
        } else {
            chosen
        }
    }
}

/// The rows of the joints that carry a coordinate.
pub open spec fn tree_rows(edges: Seq<JointEdge>, fixed: Seq<bool>) -> Seq<int> {
    forest(edges, fixed, driven_first(edges))
}

/// More links never separate what was joined.
pub proof fn lemma_connected_push(links: Seq<Link>, link: Link, a: int, b: int)
    requires
        connected(links, a, b),
    ensures
        connected(links.push(link), a, b),
{
    assert forall|group: Set<int>| #[trigger] closed_under(group, links.push(link)) implies (
    group.contains(a) <==> group.contains(b)) by {
        assert(closed_under(group, links)) by {
            assert forall|k: int| #![trigger links[k]] 0 <= k < links.len() implies (
            group.contains(links[k].0) <==> group.contains(links[k].1)) by {
                assert(links.push(link)[k] == links[k]);
            }
        }
    }
}

/// A link joins its two ends.
pub proof fn lemma_link_connects(links: Seq<Link>, k: int)
    requires
        0 <= k < links.len(),
    ensures
        connected(links, links[k].0, links[k].1),
{
    assert forall|group: Set<int>| #[trigger] closed_under(group, links) implies (group.contains(
        links[k].0,
    ) <==> group.contains(links[k].1)) by {}
}

/// More links never lose an anchor.
pub proof fn lemma_anchored_push(links: Seq<Link>, link: Link, fixed: Seq<bool>, x: int)
    requires
        anchored(links, fixed, x),
    ensures
        anchored(links.push(link), fixed, x),
{
    let f = choose|f: int| 0 <= f < fixed.len() && #[trigger] fixed[f] && connected(links, x, f);
    lemma_connected_push(links, link, x, f);
}

/// Listing one more joint adds its link.
proof fn lemma_links_push(edges: Seq<JointEdge>, rows: Seq<int>, row: int)
    ensures
        links_of(edges, rows.push(row)) == links_of(edges, rows).push(
            (edges[row].a as int, edges[row].b as int),
        ),
{
    assert(links_of(edges, rows.push(row)) =~= links_of(edges, rows).push(
        (edges[row].a as int, edges[row].b as int),
    ));
}

/// The rows of one pass are the rows of that kind, each once.
pub proof fn lemma_rows_where(edges: Seq<JointEdge>, driven: bool, count: int)
    requires
        0 <= count <= edges.len(),
    ensures
        forall|e: int|
            0 <= e < count ==> (#[trigger] rows_where(edges, driven, count).contains(e)
                <==> edges[e].driven == driven),
        forall|k: int|
            #![trigger rows_where(edges, driven, count)[k]]
            0 <= k < rows_where(edges, driven, count).len() ==> 0 <= rows_where(
                edges,
                driven,
                count,
            )[k] < count && edges[rows_where(edges, driven, count)[k]].driven == driven,
    decreases count,
{
    if count > 0 {
        lemma_rows_where(edges, driven, count - 1);
        let shorter = rows_where(edges, driven, count - 1);
        let rows = rows_where(edges, driven, count);
        assert forall|e: int| 0 <= e < count implies (#[trigger] rows.contains(e)
            <==> edges[e].driven == driven) by {
            if e == count - 1 {
                if edges[e].driven == driven {
                    assert(rows[rows.len() - 1] == e);
                } else {
                    assert(!shorter.contains(e));
                }
            } else {
                assert(shorter.contains(e) <==> edges[e].driven == driven);
                if edges[count - 1].driven == driven {
                    if shorter.contains(e) {
                        let k = shorter.index_of(e);
                        assert(rows[k] == e);
                    }
                    if rows.contains(e) {
                        let k = rows.index_of(e);
                        assert(shorter[k] == e);
                    }
                }
            }
        }
        assert forall|k: int| #![trigger rows[k]] 0 <= k < rows.len() implies 0 <= rows[k] < count
            && edges[rows[k]].driven == driven by {
            if k < shorter.len() {
                assert(rows[k] == shorter[k]);
            }
        }
    }
}

/// Whether every row of `order` names a joint.
pub open spec fn rows_within(order: Seq<int>, count: int) -> bool {
    forall|k: int| #![trigger order[k]] 0 <= k < order.len() ==> 0 <= order[k] < count
}

/// Every joint is considered.
pub proof fn lemma_driven_first(edges: Seq<JointEdge>)
    ensures
        rows_within(driven_first(edges), edges.len() as int),
        forall|e: int|
            0 <= e < edges.len() ==> #[trigger] driven_first(edges).contains(e),
{
    let n = edges.len() as int;
    lemma_rows_where(edges, true, n);
    lemma_rows_where(edges, false, n);
    let first = rows_where(edges, true, n);
    let second = rows_where(edges, false, n);
    let order = driven_first(edges);
    assert forall|k: int| #![trigger order[k]] 0 <= k < order.len() implies 0 <= order[k] < n by {
        if k < first.len() {
            assert(order[k] == first[k]);
        } else {
            assert(order[k] == second[k - first.len()]);
        }
    }
    assert forall|e: int| 0 <= e < n implies #[trigger] order.contains(e) by {
        if edges[e].driven {
            assert(first.contains(e));
            let k = first.index_of(e);
            assert(order[k] == e);
        } else {
            assert(second.contains(e));
            let k = second.index_of(e);
            assert(order[first.len() + k] == e);
        }
    }
}

/// The forest holds rows of `order` only.
pub proof fn lemma_forest_within(edges: Seq<JointEdge>, fixed: Seq<bool>, order: Seq<int>)
    requires
        rows_within(order, edges.len() as int),
        edges_within(edges, fixed.len() as int),
    ensures
        rows_within(forest(edges, fixed, order), edges.len() as int),
        links_within(links_of(edges, forest(edges, fixed, order)), fixed.len() as int),
    decreases order.len(),
{
    let chosen = forest(edges, fixed, order);
    if order.len() > 0 {
        lemma_forest_within(edges, fixed, order.drop_last());
        assert(order[order.len() - 1] == order.last());
    }
    assert forall|k: int| #![trigger links_of(edges, chosen)[k]]
        0 <= k < links_of(edges, chosen).len() implies 0 <= links_of(edges, chosen)[k].0
        < fixed.len() && 0 <= links_of(edges, chosen)[k].1 < fixed.len() by {
        assert(0 <= chosen[k] < edges.len());
    }
}

/// A joint that the forest leaves out could not have entered it: its sides are
/// already joined by the forest, or both are tied to fixed bodies.
pub proof fn forest_is_maximal(edges: Seq<JointEdge>, fixed: Seq<bool>, order: Seq<int>, k: int)
    requires
        0 <= k < order.len(),
    ensures
        ({
            let links = links_of(edges, forest(edges, fixed, order));
            let edge = edges[order[k]];
            connected(links, edge.a as int, edge.b as int) || (anchored(
                links,
                fixed,
                edge.a as int,
            ) && anchored(links, fixed, edge.b as int))
        }),
    decreases order.len(),
{
    let shorter = forest(edges, fixed, order.drop_last());
    let links = links_of(edges, shorter);
    let last = edges[order.last()];
    let link = (last.a as int, last.b as int);
    let edge = edges[order[k]];
    lemma_links_push(edges, shorter, order.last());
    if k == order.len() - 1 {
        if admits(links, fixed, last) {
            lemma_link_connects(links.push(link), links.len() as int);
        }
    } else {
        assert(order.drop_last()[k] == order[k]);
        forest_is_maximal(edges, fixed, order.drop_last(), k);
        if admits(links, fixed, last) {
            if connected(links, edge.a as int, edge.b as int) {
                lemma_connected_push(links, link, edge.a as int, edge.b as int);
            } else {
                lemma_anchored_push(links, link, fixed, edge.a as int);
                lemma_anchored_push(links, link, fixed, edge.b as int);
            }
        }
    }
}

/// What one more link joins: what was joined, and what lay on its two sides.
pub proof fn lemma_connected_split(links: Seq<Link>, link: Link, x: int, y: int)
    requires
        connected(links.push(link), x, y),
    ensures
        connected(links, x, y) || (connected(links, x, link.0) && connected(links, link.1, y)) || (
        connected(links, x, link.1) && connected(links, link.0, y)),
{
    if !connected(links, x, y) {
        let wider = links.push(link);
        // The rows joined to `x`, directly or across the new link.
        let reach = Set::new(
            |z: int|
                connected(links, x, z) || (connected(links, x, link.0) && connected(
                    links,
                    link.1,
                    z,
                )) || (connected(links, x, link.1) && connected(links, link.0, z)),
        );
        assert(closed_under(reach, wider)) by {
            assert forall|k: int| #![trigger wider[k]] 0 <= k < wider.len() implies (
            reach.contains(wider[k].0) <==> reach.contains(wider[k].1)) by {
                let (p, q) = wider[k];
                if k < links.len() {
                    assert(wider[k] == links[k]);
                    lemma_link_connects(links, k);
                    lemma_connected_chain(links, x, p, q);
                    lemma_connected_chain(links, link.1, p, q);
                    lemma_connected_chain(links, link.0, p, q);
                } else {
                    assert(wider[k] == link);
                    lemma_connected_self(links, link.0);
                    lemma_connected_self(links, link.1);
                    lemma_connected_chain(links, x, p, q);
                }
            }
        }
        lemma_connected_self(links, x);
        assert(reach.contains(x));
        assert(reach.contains(y));
    }
}

/// Every row is joined to itself.
pub proof fn lemma_connected_self(links: Seq<Link>, x: int)
    ensures
        connected(links, x, x),
{
}

/// Being joined carries along joined rows.
pub proof fn lemma_connected_chain(links: Seq<Link>, x: int, p: int, q: int)
    ensures
        connected(links, p, q) ==> (connected(links, x, p) <==> connected(links, x, q)),
        connected(links, p, q) <==> connected(links, q, p),
{
    if connected(links, p, q) {
        if connected(links, x, p) {
            assert forall|group: Set<int>| #[trigger] closed_under(group, links) implies (
            group.contains(x) <==> group.contains(q)) by {
                assert(group.contains(x) <==> group.contains(p));
                assert(group.contains(p) <==> group.contains(q));
            }
        }
        if connected(links, x, q) {
            assert forall|group: Set<int>| #[trigger] closed_under(group, links) implies (
            group.contains(x) <==> group.contains(p)) by {
                assert(group.contains(x) <==> group.contains(q));
                assert(group.contains(p) <==> group.contains(q));
            }
        }
        assert forall|group: Set<int>| #[trigger] closed_under(group, links) implies (
        group.contains(q) <==> group.contains(p)) by {
            assert(group.contains(p) <==> group.contains(q));
        }
    }
    if connected(links, q, p) {
        assert forall|group: Set<int>| #[trigger] closed_under(group, links) implies (
        group.contains(p) <==> group.contains(q)) by {
            assert(group.contains(q) <==> group.contains(p));
        }
    }
}

/// No tree of the forest holds two fixed bodies.
pub proof fn forest_joins_no_two_fixed_bodies(
    edges: Seq<JointEdge>,
    fixed: Seq<bool>,
    order: Seq<int>,
    f: int,
    g: int,
)
    requires
        rows_within(order, edges.len() as int),
        edges_within(edges, fixed.len() as int),
        0 <= f < fixed.len(),
        0 <= g < fixed.len(),
        fixed[f],
        fixed[g],
        connected(links_of(edges, forest(edges, fixed, order)), f, g),
    ensures
        f == g,
    decreases order.len(),
{
    if order.len() == 0 {
        let links = links_of(edges, forest(edges, fixed, order));
        assert(links.len() == 0);
        let only = set![f];
        assert(closed_under(only, links));
        assert(only.contains(g));
    } else {
        let shorter = forest(edges, fixed, order.drop_last());
        let links = links_of(edges, shorter);
        let last = edges[order.last()];
        let link = (last.a as int, last.b as int);
        lemma_links_push(edges, shorter, order.last());
        if !admits(links, fixed, last) || connected(links, f, g) {
            forest_joins_no_two_fixed_bodies(edges, fixed, order.drop_last(), f, g);
        } else {
            lemma_connected_split(links, link, f, g);
            lemma_connected_chain(links, f, f, link.0);
            lemma_connected_chain(links, f, f, link.1);
            if connected(links, f, link.0) {
                assert(connected(links, link.0, f));
                assert(anchored(links, fixed, link.0));
                assert(connected(links, link.1, g));
                assert(anchored(links, fixed, link.1));
            } else {
                assert(connected(links, link.1, f));
                assert(anchored(links, fixed, link.1));
                assert(connected(links, link.0, g));
                assert(anchored(links, fixed, link.0));
            }
        }
    }
}

/// Passive joints never cost a driven joint its coordinate: what the forest
/// keeps of the driven joints is what it would keep if they were alone.
pub proof fn passive_joints_displace_no_drive(edges: Seq<JointEdge>, fixed: Seq<bool>, e: int)
    requires
        0 <= e < edges.len(),
        edges[e].driven,
    ensures
        tree_rows(edges, fixed).contains(e) <==> forest(
            edges,
            fixed,
            rows_where(edges, true, edges.len() as int),
        ).contains(e),
{
    let n = edges.len() as int;
    let first = rows_where(edges, true, n);
    let second = rows_where(edges, false, n);
    lemma_rows_where(edges, false, n);
    assert(first + second.take(0) =~= first);
    assert(second.take(second.len() as int) =~= second);
    lemma_later_rows(edges, fixed, first, second, second.len() as int, e);
}

/// Rows considered later do not change whether an earlier row was chosen.
proof fn lemma_later_rows(
    edges: Seq<JointEdge>,
    fixed: Seq<bool>,
    first: Seq<int>,
    second: Seq<int>,
    count: int,
    e: int,
)
    requires
        0 <= count <= second.len(),
        forall|k: int| #![trigger second[k]] 0 <= k < second.len() ==> second[k] != e,
    ensures
        forest(edges, fixed, first + second.take(count)).contains(e) <==> forest(
            edges,
            fixed,
            first,
        ).contains(e),
    decreases count,
{
    if count == 0 {
        assert(first + second.take(0) =~= first);
    } else {
        lemma_later_rows(edges, fixed, first, second, count - 1, e);
        let order = first + second.take(count);
        assert(order.drop_last() =~= first + second.take(count - 1));
        assert(order.last() == second[count - 1]);
        let shorter = forest(edges, fixed, order.drop_last());
        let longer = forest(edges, fixed, order);
        if shorter.contains(e) {
            let k = shorter.index_of(e);
            assert(longer[k] == e);
        }
        if longer.contains(e) {
            let k = longer.index_of(e);
            if k < shorter.len() {
                assert(shorter[k] == e);
            }
        }
    }
}

/// The forest is acyclic: no chosen joint joins two rows that the joints
/// chosen before it had already joined.
pub proof fn forest_is_acyclic(edges: Seq<JointEdge>, fixed: Seq<bool>, order: Seq<int>, k: int)
    requires
        0 <= k < forest(edges, fixed, order).len(),
    ensures
        ({
            let chosen = forest(edges, fixed, order);
            let edge = edges[chosen[k]];
            !connected(links_of(edges, chosen.take(k)), edge.a as int, edge.b as int)
        }),
    decreases order.len(),
{
    let chosen = forest(edges, fixed, order);
    let shorter = forest(edges, fixed, order.drop_last());
    if k < shorter.len() {
        forest_is_acyclic(edges, fixed, order.drop_last(), k);
        assert(chosen.take(k) =~= shorter.take(k));
        assert(chosen[k] == shorter[k]);
    } else {
        assert(chosen.take(k) =~= shorter);
    }
}

/// Whether `fixed_root` says of each set's label whether the set holds a fixed body.
spec fn roots_know_fixed(labels: Seq<int>, fixed: Seq<bool>, fixed_root: Seq<bool>) -> bool {
    forall|x: int|
        #![trigger labels[x]]
        0 <= x < labels.len() ==> (fixed_root[labels[x]] <==> exists|f: int|
            0 <= f < fixed.len() && #[trigger] fixed[f] && labels[f] == labels[x])
}

/// The root of a merged set knows what either root knew.
proof fn lemma_joined_roots(
    labels: Seq<int>,
    fixed: Seq<bool>,
    fixed_root: Seq<bool>,
    a: int,
    b: int,
)
    requires
        canonical(labels),
        labels.len() == fixed.len() == fixed_root.len(),
        roots_know_fixed(labels, fixed, fixed_root),
        0 <= a < labels.len(),
        0 <= b < labels.len(),
        labels[a] != labels[b],
    ensures
        roots_know_fixed(
            merged(labels, a, b),
            fixed,
            fixed_root.update(
                if labels[a] < labels[b] {
                    labels[a]
                } else {
                    labels[b]
                },
                fixed_root[labels[a]] || fixed_root[labels[b]],
            ),
        ),
{
    let joined = if labels[a] < labels[b] {
        labels[a]
    } else {
        labels[b]
    };
    let has_fixed = fixed_root[labels[a]] || fixed_root[labels[b]];
    let after = merged(labels, a, b);
    let now = fixed_root.update(joined, has_fixed);
    assert forall|x: int| #![trigger after[x]] 0 <= x < after.len() implies (now[after[x]]
        <==> exists|f: int| 0 <= f < fixed.len() && #[trigger] fixed[f] && after[f] == after[x]) by {
        if after[x] == joined {
            if fixed_root[labels[a]] {
                let f = choose|f: int|
                    0 <= f < fixed.len() && #[trigger] fixed[f] && labels[f] == labels[a];
                assert(after[f] == joined);
            } else if fixed_root[labels[b]] {
                let f = choose|f: int|
                    0 <= f < fixed.len() && #[trigger] fixed[f] && labels[f] == labels[b];
                assert(after[f] == joined);
            } else {
                assert forall|f: int| 0 <= f < fixed.len() && #[trigger] fixed[f] implies after[f]
                    != after[x] by {
                    assert(labels[f] != labels[a]);
                    assert(labels[f] != labels[b]);
                }
            }
        } else {
            assert(after[x] == labels[x]);
            assert(now[after[x]] == fixed_root[labels[x]]);
            if fixed_root[labels[x]] {
                let f = choose|f: int|
                    0 <= f < fixed.len() && #[trigger] fixed[f] && labels[f] == labels[x];
                assert(after[f] == after[x]);
            } else {
                assert forall|f: int| 0 <= f < fixed.len() && #[trigger] fixed[f] implies after[f]
                    != after[x] by {
                    assert(labels[f] != labels[x]);
                }
            }
        }
    }
}

/// Considers one joint.
fn consider(
    sets: &mut DisjointSet,
    fixed_root: &mut Vec<bool>,
    edge: JointEdge,
    Ghost(fixed): Ghost<Seq<bool>>,
    Ghost(links): Ghost<Seq<Link>>,
) -> (kept: bool)
    requires
        old(sets).wf(),
        old(sets)@.len() == fixed.len(),
        old(fixed_root)@.len() == fixed.len(),
        edge.a < fixed.len(),
        edge.b < fixed.len(),
        represents(old(sets)@, links),
        roots_know_fixed(old(sets)@, fixed, old(fixed_root)@),
    ensures
        kept == admits(links, fixed, edge),
        final(sets).wf(),
        final(sets)@.len() == fixed.len(),
        final(fixed_root)@.len() == fixed.len(),
        kept ==> represents(final(sets)@, links.push((edge.a as int, edge.b as int))),
        !kept ==> represents(final(sets)@, links),
        roots_know_fixed(final(sets)@, fixed, final(fixed_root)@),
{
    let ghost labels = sets@;
    let ghost before = fixed_root@;
    let a: usize = edge.a as usize;
    let b: usize = edge.b as usize;
    let root_a: usize = sets.find(a);
    let root_b: usize = sets.find(b);
    proof {
        assert(labels[a as int] == root_a);
        assert(labels[b as int] == root_b);
        assert(labels[root_a as int] == root_a);
        assert(labels[root_b as int] == root_b);
        lemma_anchor_known(labels, links, fixed, before, a as int);
        lemma_anchor_known(labels, links, fixed, before, b as int);
    }
    if root_a == root_b || (fixed_root[root_a] && fixed_root[root_b]) {
        return false;
    }
    let has_fixed: bool = fixed_root[root_a] || fixed_root[root_b];
    sets.union(a, b);
    let joined: usize = if root_a < root_b { root_a } else { root_b };
    fixed_root.set(joined, has_fixed);
    proof {
        merging_represents_one_more_link(labels, links, a as int, b as int);
        lemma_joined_roots(labels, fixed, before, a as int, b as int);
    }
    true
}

/// What the roots know of fixed bodies is whether a row is anchored.
#[verifier::spinoff_prover]
#[verifier::rlimit(30)]
proof fn lemma_anchor_known(
    labels: Seq<int>,
    links: Seq<Link>,
    fixed: Seq<bool>,
    fixed_root: Seq<bool>,
    x: int,
)
    requires
        labels.len() == fixed.len(),
        represents(labels, links),
        roots_know_fixed(labels, fixed, fixed_root),
        0 <= x < labels.len(),
    ensures
        fixed_root[labels[x]] <==> anchored(links, fixed, x),
{
    if fixed_root[labels[x]] {
        let f = choose|f: int|
            0 <= f < fixed.len() && #[trigger] fixed[f] && labels[f] == labels[x];
        assert(labels[x] == labels[f]);
        assert(connected(links, x, f));
    }
    if anchored(links, fixed, x) {
        let f = choose|f: int|
            0 <= f < fixed.len() && #[trigger] fixed[f] && connected(links, x, f);
        assert(labels[x] == labels[f]);
        assert(fixed[f]);
    }
}

/// Marks the joints that carry independent coordinates.
pub fn choose_tree_edges(edges: &Vec<JointEdge>, fixed: &Vec<bool>) -> (kept: Vec<bool>)
    requires
        edges_within(edges@, fixed@.len() as int),
    ensures
        kept@.len() == edges@.len(),
        forall|e: int|
            0 <= e < edges@.len() ==> (#[trigger] kept@[e] <==> tree_rows(
                edges@,
                fixed@,
            ).contains(e)),
{
    let count: usize = edges.len();
    let ghost order = driven_first(edges@);
    let ghost mut seen: int = 0;
    let mut sets = DisjointSet::new(fixed.len());
    let mut fixed_root: Vec<bool> = Vec::new();
    let mut i: usize = 0;
    while i < fixed.len()
        invariant
            i <= fixed@.len(),
            fixed_root@ =~= fixed@.take(i as int),
        decreases fixed@.len() - i,
    {
        fixed_root.push(fixed[i]);
        i += 1;
    }
    assert(fixed_root@ =~= fixed@);
    let mut kept: Vec<bool> = Vec::new();
    let mut j: usize = 0;
    while j < count
        invariant
            j <= count,
            kept@.len() == j,
            forall|e: int| #![trigger kept@[e]] 0 <= e < j ==> !kept@[e],
        decreases count - j,
    {
        kept.push(false);
        j += 1;
    }
    proof {
        separate_rows_represent_no_links(fixed@.len());
        assert(links_of(edges@, Seq::<int>::empty()) =~= Seq::<Link>::empty());
        assert(order.take(0) =~= Seq::<int>::empty());
        assert(roots_know_fixed(sets@, fixed@, fixed_root@)) by {
            assert forall|x: int| #![trigger sets@[x]] 0 <= x < sets@.len() implies (
            fixed_root@[sets@[x]] <==> exists|f: int|
                0 <= f < fixed@.len() && #[trigger] fixed@[f] && sets@[f] == sets@[x]) by {
                if fixed@[x] {
                    assert(sets@[x] == x);
                }
            }
        }
    }
    let mut pass: u8 = 0;
    while pass < 2
        invariant
            pass <= 2,
            count == edges@.len(),
            edges_within(edges@, fixed@.len() as int),
            order == driven_first(edges@),
            seen == (if pass == 0 {
                0
            } else if pass == 1 {
                rows_where(edges@, true, count as int).len() as int
            } else {
                order.len() as int
            }),
            sets.wf(),
            sets@.len() == fixed@.len(),
            fixed_root@.len() == fixed@.len(),
            kept@.len() == count,
            represents(sets@, links_of(edges@, forest(edges@, fixed@, order.take(seen)))),
            roots_know_fixed(sets@, fixed@, fixed_root@),
            forall|e: int|
                #![trigger kept@[e]]
                0 <= e < count ==> (kept@[e] <==> forest(
                    edges@,
                    fixed@,
                    order.take(seen),
                ).contains(e)),
        decreases 2 - pass,
    {
        let driven: bool = pass == 0;
        let ghost start = seen;
        let mut e: usize = 0;
        while e < count
            invariant
                e <= count,
                pass < 2,
                driven == (pass == 0),
                count == edges@.len(),
                edges_within(edges@, fixed@.len() as int),
                order == driven_first(edges@),
                start == (if pass == 0 {
                    0
                } else {
                    rows_where(edges@, true, count as int).len() as int
                }),
                seen == start + rows_where(edges@, driven, e as int).len(),
                sets.wf(),
                sets@.len() == fixed@.len(),
                fixed_root@.len() == fixed@.len(),
                kept@.len() == count,
                represents(sets@, links_of(edges@, forest(edges@, fixed@, order.take(seen)))),
                roots_know_fixed(sets@, fixed@, fixed_root@),
                forall|e: int|
                    #![trigger kept@[e]]
                    0 <= e < count ==> (kept@[e] <==> forest(
                        edges@,
                        fixed@,
                        order.take(seen),
                    ).contains(e)),
            decreases count - e,
        {
            if edges[e].driven == driven {
                let ghost chosen = forest(edges@, fixed@, order.take(seen));
                let taken: bool = consider(
                    &mut sets,
                    &mut fixed_root,
                    edges[e],
                    Ghost(fixed@),
                    Ghost(links_of(edges@, chosen)),
                );
                proof {
                    lemma_row_position(edges@, driven, e as int);
                    let longer = order.take(seen + 1);
                    assert(longer.drop_last() =~= order.take(seen));
                    assert(longer.last() == e);
                    lemma_links_push(edges@, chosen, e as int);
                }
                if taken {
                    kept.set(e, true);
                    proof {
                        let longer = forest(edges@, fixed@, order.take(seen + 1));
                        assert(longer == chosen.push(e as int));
                        assert(longer[longer.len() - 1] == e);
                        assert forall|x: int| #![trigger kept@[x]] 0 <= x < count implies (kept@[x]
                            <==> longer.contains(x)) by {
                            if x != e {
                                if chosen.contains(x) {
                                    let k = chosen.index_of(x);
                                    assert(longer[k] == x);
                                }
                                if longer.contains(x) {
                                    let k = longer.index_of(x);
                                    assert(chosen[k] == x);
                                }
                            }
                        }
                    }
                }
                proof {
                    seen = seen + 1;
                }
            }
            e += 1;
        }
        proof {
            lemma_passes_cover(edges@);
        }
        pass += 1;
    }
    assert(order.take(order.len() as int) =~= order);
    kept
}

/// Row `e` stands in the considered order right after the rows of its pass before it.
proof fn lemma_row_position(edges: Seq<JointEdge>, driven: bool, e: int)
    requires
        0 <= e < edges.len(),
        edges[e].driven == driven,
    ensures
        ({
            let start = if driven {
                0
            } else {
                rows_where(edges, true, edges.len() as int).len() as int
            };
            let at = start + rows_where(edges, driven, e).len();
            0 <= at < driven_first(edges).len() && driven_first(edges)[at] == e
        }),
{
    lemma_rows_prefix(edges, driven, e + 1, edges.len() as int);
    let rows = rows_where(edges, driven, edges.len() as int);
    let upto = rows_where(edges, driven, e + 1);
    let k = rows_where(edges, driven, e).len() as int;
    assert(upto[k] == e);
    assert(rows[k] == upto[k]);
}

/// Looking at more joints only appends rows.
proof fn lemma_rows_prefix(edges: Seq<JointEdge>, driven: bool, short: int, long: int)
    requires
        0 <= short <= long <= edges.len(),
    ensures
        rows_where(edges, driven, short).len() <= rows_where(edges, driven, long).len(),
        forall|k: int|
            #![trigger rows_where(edges, driven, short)[k]]
            0 <= k < rows_where(edges, driven, short).len() ==> rows_where(edges, driven, short)[k]
                == rows_where(edges, driven, long)[k],
    decreases long - short,
{
    if short < long {
        lemma_rows_prefix(edges, driven, short, long - 1);
    }
}

/// The two passes make up the whole order.
proof fn lemma_passes_cover(edges: Seq<JointEdge>)
    ensures
        driven_first(edges).len() == rows_where(edges, true, edges.len() as int).len()
            + rows_where(edges, false, edges.len() as int).len(),
{
}

/// Joints are considered driven ones first, each kind in joint order, and none
/// twice.
pub proof fn driven_joints_are_considered_first(edges: Seq<JointEdge>, i: int, j: int)
    requires
        0 <= i < j < driven_first(edges).len(),
    ensures
        ({
            let a = driven_first(edges)[i];
            let b = driven_first(edges)[j];
            &&& 0 <= a < edges.len() && 0 <= b < edges.len()
            &&& edges[b].driven ==> edges[a].driven
            &&& edges[a].driven == edges[b].driven ==> a < b
        }),
{
    let n = edges.len() as int;
    let first = rows_where(edges, true, n);
    let second = rows_where(edges, false, n);
    let order = driven_first(edges);
    lemma_rows_where(edges, true, n);
    lemma_rows_where(edges, false, n);
    lemma_rows_ascend(edges, true, n);
    lemma_rows_ascend(edges, false, n);
    if j < first.len() {
        assert(order[i] == first[i] && order[j] == first[j]);
    } else if i < first.len() {
        assert(order[i] == first[i] && order[j] == second[j - first.len()]);
    } else {
        assert(order[i] == second[i - first.len()] && order[j] == second[j - first.len()]);
    }
}

/// The rows of one pass ascend.
proof fn lemma_rows_ascend(edges: Seq<JointEdge>, driven: bool, count: int)
    requires
        0 <= count <= edges.len(),
    ensures
        forall|i: int, j: int|
            #![trigger rows_where(edges, driven, count)[i], rows_where(edges, driven, count)[j]]
            0 <= i < j < rows_where(edges, driven, count).len() ==> rows_where(
                edges,
                driven,
                count,
            )[i] < rows_where(edges, driven, count)[j],
    decreases count,
{
    if count > 0 {
        lemma_rows_ascend(edges, driven, count - 1);
        lemma_rows_where(edges, driven, count - 1);
        let before = rows_where(edges, driven, count - 1);
        let rows = rows_where(edges, driven, count);
        assert forall|i: int, j: int| #![trigger rows[i], rows[j]] 0 <= i < j < rows.len() implies rows[i]
            < rows[j] by {
            assert(rows[i] == before[i]);
            if j < before.len() {
                assert(rows[j] == before[j]);
            }
        }
    }
}

} // verus!
