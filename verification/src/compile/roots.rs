//! Where each mechanism component is rooted.

use vstd::prelude::*;

use super::classes::Classes;
use super::disjoint_set::{closed_under, connected, represents, Link};
use super::forest::{
    all_links, anchored, edges_within, forest_is_maximal, forest_joins_no_two_fixed_bodies,
    lemma_connected_chain, lemma_connected_self, lemma_driven_first, lemma_forest_within,
    lemma_link_connects, links_of, driven_first, tree_rows, JointEdge,
};
use super::model::CompiledBearing;
use super::tree::{joined_to_root, rooted, tree_links};
use crate::scalar::Scalar;
use crate::exact::numbers_compare_as_their_values;

verus! {

/// The fixed bodies among the first `count` of a component, in row order.
pub open spec fn fixed_members(component: Seq<u32>, fixed: Seq<bool>, count: int) -> Seq<u32>
    decreases count,
{
    if count <= 0 {
        Seq::empty()
    } else if fixed[component[count - 1] as int] {
        fixed_members(component, fixed, count - 1).push(component[count - 1])
    } else {
        fixed_members(component, fixed, count - 1)
    }
}

/// The body that no later body of the first `count` outweighs when the
/// component is gone through once, each heavier body taking over.
pub open spec fn heaviest(component: Seq<u32>, masses: Seq<Scalar>, count: int) -> u32
    decreases count,
{
    if count <= 1 {
        component[0]
    } else {
        let root = heaviest(component, masses, count - 1);
        if masses[root as int].below(masses[component[count - 1] as int]) {
            component[count - 1]
        } else {
            root
        }
    }
}

/// The roots of one component: every fixed body, or the heaviest when none is fixed.
pub open spec fn roots_of(component: Seq<u32>, fixed: Seq<bool>, masses: Seq<Scalar>) -> Seq<u32> {
    let anchors = fixed_members(component, fixed, component.len() as int);
    if anchors.len() > 0 {
        anchors
    } else if component.len() > 0 {
        seq![heaviest(component, masses, component.len() as int)]
    } else {
        Seq::empty()
    }
}

/// Among numbers, the floating root is the first of the heaviest bodies.
pub proof fn floating_root_is_first_heaviest(component: Seq<u32>, masses: Seq<Scalar>, count: int)
    requires
        0 < count <= component.len(),
        forall|k: int|
            #![trigger component[k]]
            0 <= k < component.len() ==> !masses[component[k] as int].nan(),
    ensures
        exists|p: int|
            0 <= p < count && #[trigger] component[p] == heaviest(component, masses, count) && (
            forall|k: int|
                #![trigger component[k]]
                0 <= k < count ==> masses[component[k] as int].at_most(
                    masses[component[p] as int],
                )) && (forall|k: int|
                #![trigger component[k]]
                0 <= k < p ==> masses[component[k] as int].below(masses[component[p] as int])),
    decreases count,
{
    if count == 1 {
        assert(component[0] == heaviest(component, masses, count));
    } else {
        floating_root_is_first_heaviest(component, masses, count - 1);
        let root = heaviest(component, masses, count - 1);
        let q = choose|p: int|
            0 <= p < count - 1 && #[trigger] component[p] == root && (forall|k: int|
                #![trigger component[k]]
                0 <= k < count - 1 ==> masses[component[k] as int].at_most(
                    masses[component[p] as int],
                )) && (forall|k: int|
                #![trigger component[k]]
                0 <= k < p ==> masses[component[k] as int].below(masses[component[p] as int]));
        let last = component[count - 1];
        if masses[root as int].below(masses[last as int]) {
            assert(component[count - 1] == heaviest(component, masses, count));
        } else {
            assert(component[q] == heaviest(component, masses, count));
            assert(masses[last as int].at_most(masses[component[q] as int]));
        }
    }
}

/// Fixed members are members that are fixed, and all of them, in order.
pub proof fn lemma_fixed_members(component: Seq<u32>, fixed: Seq<bool>, count: int)
    requires
        0 <= count <= component.len(),
    ensures
        forall|k: int|
            #![trigger fixed_members(component, fixed, count)[k]]
            0 <= k < fixed_members(component, fixed, count).len() ==> {
                let body = fixed_members(component, fixed, count)[k];
                fixed[body as int] && exists|i: int| 0 <= i < count && #[trigger] component[i] == body
            },
        forall|i: int|
            #![trigger component[i]]
            0 <= i < count && fixed[component[i] as int] ==> fixed_members(
                component,
                fixed,
                count,
            ).contains(component[i]),
        (forall|i: int, j: int|
            #![trigger component[i], component[j]]
            0 <= i < j < count ==> component[i] < component[j]) ==> (forall|i: int, j: int|
            #![trigger fixed_members(component, fixed, count)[i], fixed_members(component, fixed, count)[j]]
            0 <= i < j < fixed_members(component, fixed, count).len() ==> fixed_members(
                component,
                fixed,
                count,
            )[i] < fixed_members(component, fixed, count)[j]),
    decreases count,
{
    if count > 0 {
        lemma_fixed_members(component, fixed, count - 1);
        let fewer = fixed_members(component, fixed, count - 1);
        let members = fixed_members(component, fixed, count);
        assert forall|k: int| #![trigger members[k]] 0 <= k < members.len() implies fixed[members[k] as int]
            && exists|i: int| 0 <= i < count && #[trigger] component[i] == members[k] by {
            if k < fewer.len() {
                assert(members[k] == fewer[k]);
                let i = choose|i: int| 0 <= i < count - 1 && #[trigger] component[i] == fewer[k];
                assert(component[i] == members[k]);
            } else {
                assert(component[count - 1] == members[k]);
            }
        }
        assert forall|i: int| #![trigger component[i]] 0 <= i < count && fixed[component[i] as int] implies members.contains(
            component[i],
        ) by {
            if i == count - 1 {
                assert(members[members.len() - 1] == component[i]);
            } else {
                assert(fewer.contains(component[i]));
                let k = fewer.index_of(component[i]);
                assert(members[k] == component[i]);
            }
        }
        if forall|i: int, j: int|
            #![trigger component[i], component[j]]
            0 <= i < j < count ==> component[i] < component[j] {
            assert forall|i: int, j: int| #![trigger members[i], members[j]]
                0 <= i < j < members.len() implies members[i] < members[j] by {
                assert(members[i] == fewer[i]);
                if j < fewer.len() {
                    assert(members[j] == fewer[j]);
                } else {
                    let p = choose|p: int| 0 <= p < count - 1 && #[trigger] component[p] == fewer[i];
                    assert(component[p] < component[count - 1]);
                }
            }
        }
    }
}

/// The heaviest body is a member.
pub proof fn lemma_heaviest_member(component: Seq<u32>, masses: Seq<Scalar>, count: int)
    requires
        0 < count <= component.len(),
    ensures
        exists|i: int|
            0 <= i < count && #[trigger] component[i] == heaviest(component, masses, count),
    decreases count,
{
    if count > 1 {
        lemma_heaviest_member(component, masses, count - 1);
        let i = choose|i: int|
            0 <= i < count - 1 && #[trigger] component[i] == heaviest(
                component,
                masses,
                count - 1,
            );
        assert(component[i] == heaviest(component, masses, count - 1));
        assert(component[count - 1] == component[count - 1]);
    } else {
        assert(component[0] == heaviest(component, masses, count));
    }
}

/// Whether every member of every component is a row below `count`.
pub open spec fn components_within(components: Seq<Vec<u32>>, count: int) -> bool {
    forall|c: int, i: int|
        #![trigger components[c]@[i]]
        0 <= c < components.len() && 0 <= i < components[c]@.len() ==> components[c]@[i] < count
}

/// The first heaviest body of a component.
fn floating_component_root(component: &Vec<u32>, masses: &Vec<Scalar>) -> (root: Option<u32>)
    requires
        forall|i: int|
            #![trigger component@[i]]
            0 <= i < component@.len() ==> component@[i] < masses@.len(),
    ensures
        component@.len() == 0 ==> root is None,
        component@.len() > 0 ==> root == Some(
            heaviest(component@, masses@, component@.len() as int),
        ),
{
    if component.len() == 0 {
        return None;
    }
    let mut root: u32 = component[0];
    let mut i: usize = 1;
    while i < component.len()
        invariant
            1 <= i <= component@.len(),
            root == heaviest(component@, masses@, i as int),
            root < masses@.len(),
            forall|i: int|
                #![trigger component@[i]]
                0 <= i < component@.len() ==> component@[i] < masses@.len(),
        decreases component@.len() - i,
    {
        let candidate: u32 = component[i];
        if masses[root as usize].less(masses[candidate as usize]) {
            root = candidate;
        }
        i += 1;
    }
    Some(root)
}

/// The roots of every component.
pub fn component_roots(
    components: &Vec<Vec<u32>>,
    fixed: &Vec<bool>,
    masses: &Vec<Scalar>,
) -> (roots: Vec<Vec<u32>>)
    requires
        fixed@.len() == masses@.len(),
        components_within(components@, fixed@.len() as int),
    ensures
        roots@.len() == components@.len(),
        forall|c: int|
            #![trigger roots@[c]]
            0 <= c < roots@.len() ==> roots@[c]@ == roots_of(components@[c]@, fixed@, masses@),
{
    let mut roots: Vec<Vec<u32>> = Vec::new();
    let mut c: usize = 0;
    while c < components.len()
        invariant
            c <= components@.len(),
            roots@.len() == c,
            fixed@.len() == masses@.len(),
            components_within(components@, fixed@.len() as int),
            forall|d: int|
                #![trigger roots@[d]]
                0 <= d < c ==> roots@[d]@ == roots_of(components@[d]@, fixed@, masses@),
        decreases components@.len() - c,
    {
        let component: &Vec<u32> = &components[c];
        let mut anchors: Vec<u32> = Vec::new();
        let mut i: usize = 0;
        while i < component.len()
            invariant
                c < components@.len(),
                *component == components@[c as int],
                i <= component@.len(),
                components_within(components@, fixed@.len() as int),
                anchors@ == fixed_members(component@, fixed@, i as int),
            decreases component@.len() - i,
        {
            assert(components@[c as int]@[i as int] < fixed@.len());
            if fixed[component[i] as usize] {
                anchors.push(component[i]);
            }
            i += 1;
        }
        if anchors.len() == 0 {
            assert forall|i: int| #![trigger component@[i]] 0 <= i < component@.len() implies component@[i]
                < masses@.len() by {
                assert(components@[c as int]@[i] < fixed@.len());
            }
            match floating_component_root(component, masses) {
                Some(root) => anchors.push(root),
                None => {},
            }
            assert(anchors@ =~= roots_of(component@, fixed@, masses@));
        }
        roots.push(anchors);
        c += 1;
    }
    roots
}

/// Whether joint rows describe the edges, with coordinates on the tree rows alone.
pub open spec fn rows_describe(
    edges: Seq<JointEdge>,
    fixed: Seq<bool>,
    bearings: Seq<CompiledBearing>,
) -> bool {
    &&& bearings.len() == edges.len()
    &&& forall|e: int|
        #![trigger bearings[e]]
        0 <= e < edges.len() ==> {
            &&& bearings[e].compound_a == edges[e].a
            &&& bearings[e].compound_b == edges[e].b
            &&& bearings[e].coordinate_index is Some <==> tree_rows(edges, fixed).contains(e)
        }
}

/// Whether components are the sets that `classes` lists.
pub open spec fn components_list(classes: Classes, components: Seq<Vec<u32>>) -> bool {
    &&& components.len() == classes.groups@.len()
    &&& forall|c: int|
        #![trigger components[c]]
        0 <= c < components.len() ==> components[c]@.len() == classes.groups@[c]@.len()
    &&& forall|c: int, i: int|
        #![trigger components[c]@[i]]
        0 <= c < components.len() && 0 <= i < components[c]@.len() ==> components[c]@[i]
            == classes.groups@[c]@[i]
}

/// Links whose ends other links join add nothing to them.
pub proof fn lemma_connected_through(links: Seq<Link>, others: Seq<Link>, x: int, y: int)
    requires
        forall|k: int|
            #![trigger links[k]]
            0 <= k < links.len() ==> connected(others, links[k].0, links[k].1),
        connected(links, x, y),
    ensures
        connected(others, x, y),
{
    assert forall|group: Set<int>| #[trigger] closed_under(group, others) implies (group.contains(x)
        <==> group.contains(y)) by {
        assert(closed_under(group, links)) by {
            assert forall|k: int| #![trigger links[k]] 0 <= k < links.len() implies (group.contains(
                links[k].0,
            ) <==> group.contains(links[k].1)) by {
                assert(connected(others, links[k].0, links[k].1));
            }
        }
    }
}

/// The tree joints link bodies as the chosen forest does.
proof fn lemma_tree_links_agree(
    edges: Seq<JointEdge>,
    fixed: Seq<bool>,
    bearings: Seq<CompiledBearing>,
    x: int,
    y: int,
)
    requires
        rows_describe(edges, fixed, bearings),
        edges_within(edges, fixed.len() as int),
    ensures
        connected(tree_links(bearings), x, y) <==> connected(
            links_of(edges, tree_rows(edges, fixed)),
            x,
            y,
        ),
{
    let rows = tree_rows(edges, fixed);
    let chosen = links_of(edges, rows);
    let links = tree_links(bearings);
    lemma_driven_first(edges);
    lemma_forest_within(edges, fixed, driven_first(edges));
    assert forall|k: int| #![trigger chosen[k]] 0 <= k < chosen.len() implies connected(
        links,
        chosen[k].0,
        chosen[k].1,
    ) by {
        let e = rows[k];
        assert(rows.contains(e));
        assert(bearings[e].coordinate_index is Some);
        assert(links[e] == chosen[k]);
        lemma_link_connects(links, e);
    }
    assert forall|e: int| #![trigger links[e]] 0 <= e < links.len() implies connected(
        chosen,
        links[e].0,
        links[e].1,
    ) by {
        if bearings[e].coordinate_index is Some {
            let k = rows.index_of(e);
            assert(rows[k] == e);
            assert(chosen[k] == links[e]);
            lemma_link_connects(chosen, k);
        } else {
            lemma_connected_self(chosen, links[e].0);
        }
    }
    if connected(links, x, y) {
        lemma_connected_through(links, chosen, x, y);
    }
    if connected(chosen, x, y) {
        lemma_connected_through(chosen, links, x, y);
    }
}

/// What the forest joins, the joints join.
proof fn lemma_forest_joins_less(edges: Seq<JointEdge>, fixed: Seq<bool>, x: int, y: int)
    requires
        edges_within(edges, fixed.len() as int),
        connected(links_of(edges, tree_rows(edges, fixed)), x, y),
    ensures
        connected(all_links(edges), x, y),
{
    let rows = tree_rows(edges, fixed);
    let chosen = links_of(edges, rows);
    let all = all_links(edges);
    lemma_driven_first(edges);
    lemma_forest_within(edges, fixed, driven_first(edges));
    assert forall|k: int| #![trigger chosen[k]] 0 <= k < chosen.len() implies connected(
        all,
        chosen[k].0,
        chosen[k].1,
    ) by {
        let e = rows[k];
        assert(all[e] == chosen[k]);
        lemma_link_connects(all, e);
    }
    lemma_connected_through(chosen, all, x, y);
}

/// A joint that crosses out of a tree has a fixed body in that tree.
proof fn lemma_tree_is_closed(edges: Seq<JointEdge>, fixed: Seq<bool>, x: int)
    requires
        edges_within(edges, fixed.len() as int),
        !anchored(links_of(edges, tree_rows(edges, fixed)), fixed, x),
    ensures
        closed_under(
            Set::new(|y: int| connected(links_of(edges, tree_rows(edges, fixed)), x, y)),
            all_links(edges),
        ),
{
    let chosen = links_of(edges, tree_rows(edges, fixed));
    let all = all_links(edges);
    let tree = Set::new(|y: int| connected(chosen, x, y));
    lemma_driven_first(edges);
    assert forall|e: int| #![trigger all[e]] 0 <= e < all.len() implies (tree.contains(all[e].0)
        <==> tree.contains(all[e].1)) by {
        let order = driven_first(edges);
        assert(order.contains(e));
        let k = order.index_of(e);
        assert(order[k] == e);
        forest_is_maximal(edges, fixed, order, k);
        let (a, b) = all[e];
        if connected(chosen, a, b) {
            lemma_connected_chain(chosen, x, a, b);
        } else {
            if tree.contains(a) {
                lemma_anchor_carries(chosen, fixed, x, a);
            }
            if tree.contains(b) {
                lemma_anchor_carries(chosen, fixed, x, b);
            }
        }
    }
}

/// A row joined to an anchored row is anchored.
proof fn lemma_anchor_carries(links: Seq<Link>, fixed: Seq<bool>, x: int, a: int)
    requires
        connected(links, x, a),
        anchored(links, fixed, a),
    ensures
        anchored(links, fixed, x),
{
    let f = choose|f: int| 0 <= f < fixed.len() && #[trigger] fixed[f] && connected(links, a, f);
    lemma_connected_chain(links, x, a, f);
    assert(fixed[f] && connected(links, x, f));
}

/// The component that holds body `x`, and `x`'s place in it.
proof fn lemma_component_of(
    classes: Classes,
    labels: Seq<int>,
    components: Seq<Vec<u32>>,
    x: int,
) -> (at: (int, int))
    requires
        classes.lists(labels),
        components_list(classes, components),
        labels.len() <= u32::MAX,
        0 <= x < labels.len(),
    ensures
        0 <= at.0 < components.len(),
        at.0 == classes.group_of@[x],
        0 <= at.1 < components[at.0]@.len(),
        components[at.0]@[at.1] == x,
{
    let c = classes.group_of@[x] as int;
    let i = classes.groups@[c]@.index_of(x as usize);
    assert(classes.groups@[c]@[i] == x);
    assert(components[c]@[i] == classes.groups@[c]@[i]);
    (c, i)
}

/// A listed root is a member of its component, fixed unless the component floats.
proof fn lemma_root_is_member(
    component: Seq<u32>,
    fixed: Seq<bool>,
    masses: Seq<Scalar>,
    i: int,
) -> (at: int)
    requires
        0 <= i < roots_of(component, fixed, masses).len(),
    ensures
        0 <= at < component.len(),
        component[at] == roots_of(component, fixed, masses)[i],
        fixed[component[at] as int] || (i == 0 && roots_of(component, fixed, masses).len() == 1
            && forall|k: int|
            #![trigger component[k]]
            0 <= k < component.len() ==> !fixed[component[k] as int]),
{
    let n = component.len() as int;
    lemma_fixed_members(component, fixed, n);
    let anchors = fixed_members(component, fixed, n);
    if anchors.len() > 0 {
        assert(roots_of(component, fixed, masses) == anchors);
        choose|p: int| 0 <= p < n && #[trigger] component[p] == anchors[i]
    } else {
        lemma_heaviest_member(component, masses, n);
        assert forall|k: int| #![trigger component[k]] 0 <= k < n implies !fixed[component[k] as int] by {
            if fixed[component[k] as int] {
                assert(anchors.contains(component[k]));
            }
        }
        choose|p: int| 0 <= p < n && #[trigger] component[p] == heaviest(component, masses, n)
    }
}

/// Every body hangs from exactly one root: the forest spans each component
/// from its fixed bodies, one to a tree, or from its heaviest body.
pub proof fn every_body_has_one_root(
    edges: Seq<JointEdge>,
    fixed: Seq<bool>,
    masses: Seq<Scalar>,
    bearings: Seq<CompiledBearing>,
    classes: Classes,
    labels: Seq<int>,
    components: Seq<Vec<u32>>,
    roots: Seq<Vec<u32>>,
)
    requires
        edges_within(edges, fixed.len() as int),
        rows_describe(edges, fixed, bearings),
        represents(labels, all_links(edges)),
        labels.len() == fixed.len(),
        labels.len() <= u32::MAX,
        classes.lists(labels),
        components_list(classes, components),
        roots.len() == components.len(),
        forall|c: int|
            #![trigger roots[c]]
            0 <= c < roots.len() ==> roots[c]@ == roots_of(components[c]@, fixed, masses),
    ensures
        rooted(tree_links(bearings), roots, fixed.len() as int),
{
    let links = tree_links(bearings);
    let chosen = links_of(edges, tree_rows(edges, fixed));
    let n = fixed.len() as int;
    assert forall|c: int, i: int|
        #![trigger roots[c]@[i]]
        0 <= c < roots.len() && 0 <= i < roots[c]@.len() implies roots[c]@[i] < n
        && classes.group_of@[roots[c]@[i] as int] == c by {
        let p = lemma_root_is_member(components[c]@, fixed, masses, i);
        assert(components[c]@[p] == classes.groups@[c]@[p]);
    }
    assert forall|c: int, i: int, d: int, j: int|
        #![trigger roots[c]@[i], roots[d]@[j]]
        0 <= c < roots.len() && 0 <= i < roots[c]@.len() && 0 <= d < roots.len() && 0 <= j
            < roots[d]@.len() && connected(links, roots[c]@[i] as int, roots[d]@[j] as int) implies c
        == d && i == j by {
        let x = roots[c]@[i] as int;
        let y = roots[d]@[j] as int;
        lemma_tree_links_agree(edges, fixed, bearings, x, y);
        lemma_forest_joins_less(edges, fixed, x, y);
        assert(labels[x] == labels[y]);
        classes.lemma_same_group(labels, x, y);
        assert(c == d);
        let p = lemma_root_is_member(components[c]@, fixed, masses, i);
        let q = lemma_root_is_member(components[c]@, fixed, masses, j);
        if fixed[x] && fixed[y] {
            lemma_driven_first(edges);
            forest_joins_no_two_fixed_bodies(edges, fixed, driven_first(edges), x, y);
            let component = components[c]@;
            assert forall|k: int, l: int| #![trigger component[k], component[l]]
                0 <= k < l < component.len() implies component[k] < component[l] by {
                assert(classes.groups@[c]@[k] < classes.groups@[c]@[l]);
            }
            lemma_fixed_members(component, fixed, component.len() as int);
            let anchors = fixed_members(component, fixed, component.len() as int);
            assert(component[p] == roots[c]@[i]);
            assert(anchors.contains(component[p]));
            assert(roots[c]@ == anchors);
            if i < j {
                assert(anchors[i] < anchors[j]);
            } else if j < i {
                assert(anchors[j] < anchors[i]);
            }
        } else {
            assert(component_of_floating(components[c]@, fixed, p, q));
        }
    }
    assert forall|x: int| 0 <= x < n implies #[trigger] joined_to_root(links, roots, x) by {
        let (c, at) = lemma_component_of(classes, labels, components, x);
        let component = components[c]@;
        lemma_fixed_members(component, fixed, component.len() as int);
        let anchors = fixed_members(component, fixed, component.len() as int);
        if anchors.len() > 0 {
            assert(roots[c]@ == anchors);
            if !anchored(chosen, fixed, x) {
                let p = choose|p: int| 0 <= p < component.len() && #[trigger] component[p] == anchors[0];
                let f = anchors[0] as int;
                assert(classes.groups@[c]@[p] == f);
                lemma_tree_is_closed(edges, fixed, x);
                let tree = Set::new(|y: int| connected(chosen, x, y));
                classes.lemma_same_group(labels, x, f);
                assert(labels[x] == labels[f]);
                assert(connected(all_links(edges), x, f));
                lemma_connected_self(chosen, x);
                assert(tree.contains(x));
                assert(tree.contains(f));
                assert(fixed[f]);
            }
            let f = choose|f: int| 0 <= f < fixed.len() && #[trigger] fixed[f] && connected(chosen, x, f);
            lemma_forest_joins_less(edges, fixed, x, f);
            assert(labels[x] == labels[f]);
            classes.lemma_same_group(labels, x, f);
            let (cf, pf) = lemma_component_of(classes, labels, components, f);
            assert(component[pf] == f);
            assert(anchors.contains(component[pf]));
            let i = anchors.index_of(component[pf]);
            assert(roots[c]@[i] == f);
            lemma_connected_chain(chosen, f, f, x);
            lemma_connected_chain(chosen, x, x, f);
            lemma_tree_links_agree(edges, fixed, bearings, f, x);
            assert(connected(links, roots[c]@[i] as int, x));
        } else {
            assert(component.len() > 0);
            let r = heaviest(component, masses, component.len() as int) as int;
            assert(roots[c]@[0] == r);
            let p = lemma_root_is_member(component, fixed, masses, 0);
            assert(classes.groups@[c]@[p] == r);
            assert(!anchored(chosen, fixed, r)) by {
                if anchored(chosen, fixed, r) {
                    let f = choose|f: int|
                        0 <= f < fixed.len() && #[trigger] fixed[f] && connected(chosen, r, f);
                    lemma_forest_joins_less(edges, fixed, r, f);
                    assert(labels[r] == labels[f]);
                    classes.lemma_same_group(labels, r, f);
                    let (cf, pf) = lemma_component_of(classes, labels, components, f);
                    assert(component[pf] == f);
                    assert(anchors.contains(component[pf]));
                }
            }
            lemma_tree_is_closed(edges, fixed, r);
            let tree = Set::new(|y: int| connected(chosen, r, y));
            lemma_connected_self(chosen, r);
            classes.lemma_same_group(labels, r, x);
            assert(labels[r] == labels[x]);
            assert(connected(all_links(edges), r, x));
            assert(tree.contains(r));
            assert(tree.contains(x));
            lemma_tree_links_agree(edges, fixed, bearings, r, x);
            assert(connected(links, roots[c]@[0] as int, x));
        }
    }
}

/// Whether one of two members is not fixed.
spec fn component_of_floating(component: Seq<u32>, fixed: Seq<bool>, p: int, q: int) -> bool {
    !fixed[component[p] as int] || !fixed[component[q] as int]
}

/// A component is rooted in each of its fixed bodies and in nothing else; one
/// without any is rooted in its first heaviest body alone.
pub proof fn components_are_rooted_in_what_is_fixed(
    component: Seq<u32>,
    fixed: Seq<bool>,
    masses: Seq<Scalar>,
    i: int,
)
    requires
        0 <= i < component.len(),
        forall|k: int|
            #![trigger component[k]]
            0 <= k < component.len() ==> masses[component[k] as int].finite(),
    ensures
        fixed[component[i] as int] ==> roots_of(component, fixed, masses).contains(component[i]),
        (exists|k: int| 0 <= k < component.len() && fixed[#[trigger] component[k] as int]) ==> (
        forall|r: int|
            #![trigger roots_of(component, fixed, masses)[r]]
            0 <= r < roots_of(component, fixed, masses).len()
                ==> fixed[roots_of(component, fixed, masses)[r] as int] && component.contains(
                roots_of(component, fixed, masses)[r],
            )),
        (forall|k: int|
            #![trigger component[k]]
            0 <= k < component.len() ==> !fixed[component[k] as int]) ==> {
            let roots = roots_of(component, fixed, masses);
            &&& roots.len() == 1
            &&& component.contains(roots[0])
            &&& masses[component[i] as int].units() <= masses[roots[0] as int].units()
        },
{
    let n = component.len() as int;
    let anchors = fixed_members(component, fixed, n);
    let roots = roots_of(component, fixed, masses);
    lemma_fixed_members(component, fixed, n);
    if exists|k: int| 0 <= k < n && fixed[#[trigger] component[k] as int] {
        let k = choose|k: int| 0 <= k < n && fixed[#[trigger] component[k] as int];
        assert(anchors.contains(component[k]));
        assert(roots == anchors);
        assert forall|r: int| #![trigger roots[r]] 0 <= r < roots.len() implies fixed[roots[r] as int]
            && component.contains(roots[r]) by {
            let at = choose|at: int| 0 <= at < n && #[trigger] component[at] == anchors[r];
        }
    } else {
        if anchors.len() > 0 {
            let body = anchors[0];
            let at = choose|at: int| 0 <= at < n && #[trigger] component[at] == anchors[0];
            assert(fixed[component[at] as int]);
        }
        floating_root_is_first_heaviest(component, masses, n);
        let p = choose|p: int|
            0 <= p < n && #[trigger] component[p] == heaviest(component, masses, n) && (forall|k: int|
                #![trigger component[k]]
                0 <= k < n ==> masses[component[k] as int].at_most(masses[component[p] as int])) && (
            forall|k: int|
                #![trigger component[k]]
                0 <= k < p ==> masses[component[k] as int].below(masses[component[p] as int]));
        assert(roots[0] == component[p]);
        numbers_compare_as_their_values(
            masses[component[i] as int],
            masses[component[p] as int],
        );
    }
}

} // verus!
