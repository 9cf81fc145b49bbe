//! Parents, depths and traversal orders of the joint forest.

use vstd::prelude::*;

use super::disjoint_set::{closed_under, connected, Link};
use super::forest::{
    lemma_connected_chain, lemma_connected_self, lemma_link_connects,
};
use super::model::{CompiledBearing, MechanismBodyTopology};
use crate::ids::{lemma_handle_rank, BearingId};
use crate::ordered::{OrderedSet, Ranked};

verus! {

/// A step across a tree joint to a neighbouring body.
#[derive(Clone, Copy, Debug, PartialEq, Eq, Structural)]
pub struct Hop {
    /// Body that the step reaches.
    pub body: u32,
    /// Joint that the step crosses.
    pub bearing: BearingId,
    /// Zero from the joint's source to its target, one the other way.
    pub direction: u32,
}

impl Ranked for Hop {
    /// Steps stand in the order of body, then joint, then direction.
    open spec fn rank(self) -> int {
        (self.body * 0x1_0000_0000_0000_0000 + self.bearing.rank()) * 0x1_0000_0000
            + self.direction
    }

    proof fn rank_identifies(a: Self, b: Self) {
        lemma_handle_rank(
            a.bearing.index,
            a.bearing.generation,
            b.bearing.index,
            b.bearing.generation,
        );
    }

    fn precedes(self, other: Self) -> (before: bool) {
        proof {
            lemma_handle_rank(
                self.bearing.index,
                self.bearing.generation,
                other.bearing.index,
                other.bearing.generation,
            );
        }
        if self.body != other.body {
            self.body < other.body
        } else if self.bearing.index != other.bearing.index {
            self.bearing.index < other.bearing.index
        } else if self.bearing.generation != other.bearing.generation {
            self.bearing.generation < other.bearing.generation
        } else {
            self.direction < other.direction
        }
    }
}

/// Whether `hop` is the step that joint row `e` offers from body `x`.
pub open spec fn row_offers(bearings: Seq<CompiledBearing>, e: int, x: int, hop: Hop) -> bool {
    let row = bearings[e];
    &&& row.coordinate_index is Some
    &&& {
        ||| row.compound_a == x && hop == (Hop {
            body: row.compound_b,
            bearing: row.source_bearing,
            direction: 0,
        })
        ||| row.compound_b == x && hop == (Hop {
            body: row.compound_a,
            bearing: row.source_bearing,
            direction: 1,
        })
    }
}

/// Whether some tree joint offers `hop` from body `x`.
pub open spec fn is_hop(bearings: Seq<CompiledBearing>, x: int, hop: Hop) -> bool {
    exists|e: int| 0 <= e < bearings.len() && #[trigger] row_offers(bearings, e, x, hop)
}

/// Whether every joint row connects bodies below `count`.
pub open spec fn rows_connect_within(bearings: Seq<CompiledBearing>, count: int) -> bool {
    forall|e: int|
        #![trigger bearings[e]]
        0 <= e < bearings.len() ==> bearings[e].compound_a < count && bearings[e].compound_b < count
}

/// The links of the tree joints. A joint without a coordinate links its source to itself alone.
pub open spec fn tree_links(bearings: Seq<CompiledBearing>) -> Seq<Link> {
    Seq::new(
        bearings.len(),
        |e: int|
            if bearings[e].coordinate_index is Some {
                (bearings[e].compound_a as int, bearings[e].compound_b as int)
            } else {
                (bearings[e].compound_a as int, bearings[e].compound_a as int)
            },
    )
}

/// Lists the steps from every body.
fn hops_by_body(bearings: &Vec<CompiledBearing>, count: usize) -> (hops: Vec<OrderedSet<Hop>>)
    requires
        rows_connect_within(bearings@, count as int),
        count <= u32::MAX,
    ensures
        hops@.len() == count,
        forall|x: int|
            #![trigger hops@[x]]
            0 <= x < count ==> hops@[x].wf() && forall|hop: Hop|
                #[trigger] hops@[x].holds(hop) <==> is_hop(bearings@, x, hop),
{
    let mut hops: Vec<OrderedSet<Hop>> = Vec::new();
    let mut x: usize = 0;
    while x < count
        invariant
            x <= count,
            hops@.len() == x,
            forall|y: int|
                #![trigger hops@[y]]
                0 <= y < x ==> hops@[y].wf() && hops@[y]@ == Seq::<Hop>::empty(),
        decreases count - x,
    {
        hops.push(OrderedSet::new());
        x += 1;
    }
    let mut e: usize = 0;
    while e < bearings.len()
        invariant
            e <= bearings@.len(),
            rows_connect_within(bearings@, count as int),
            count <= u32::MAX,
            hops@.len() == count,
            forall|y: int|
                #![trigger hops@[y]]
                0 <= y < count ==> hops@[y].wf() && forall|hop: Hop|
                    #[trigger] hops@[y].holds(hop) <==> exists|d: int|
                        0 <= d < e && #[trigger] row_offers(bearings@, d, y, hop),
        decreases bearings@.len() - e,
    {
        let row = bearings[e];
        let ghost before = hops@;
        if row.coordinate_index.is_some() {
            let a: usize = row.compound_a as usize;
            let b: usize = row.compound_b as usize;
            let forward = Hop { body: row.compound_b, bearing: row.source_bearing, direction: 0 };
            let backward = Hop { body: row.compound_a, bearing: row.source_bearing, direction: 1 };
            hops[a].insert(forward);
            let ghost middle = hops@;
            hops[b].insert(backward);
            proof {
                assert forall|y: int| #![trigger hops@[y]] 0 <= y < count implies hops@[y].wf()
                    && forall|hop: Hop|
                    #[trigger] hops@[y].holds(hop) <==> exists|d: int|
                        0 <= d < e + 1 && #[trigger] row_offers(bearings@, d, y, hop) by {
                    assert(before[y].wf());
                    assert(middle[y].wf());
                    assert forall|hop: Hop| #[trigger] hops@[y].holds(hop) <==> exists|d: int|
                        0 <= d < e + 1 && #[trigger] row_offers(bearings@, d, y, hop) by {
                        assert(middle[y].holds(hop) <==> before[y].holds(hop) || (y == a && hop
                            == forward));
                        assert(hops@[y].holds(hop) <==> middle[y].holds(hop) || (y == b && hop
                            == backward));
                        assert(row_offers(bearings@, e as int, y, hop) <==> (y == a && hop
                            == forward) || (y == b && hop == backward));
                        if before[y].holds(hop) {
                            let d = choose|d: int|
                                0 <= d < e && #[trigger] row_offers(bearings@, d, y, hop);
                            assert(row_offers(bearings@, d, y, hop));
                        }
                    }
                }
            }
        } else {
            proof {
                assert forall|y: int| #![trigger hops@[y]] 0 <= y < count implies hops@[y].wf()
                    && forall|hop: Hop|
                    #[trigger] hops@[y].holds(hop) <==> exists|d: int|
                        0 <= d < e + 1 && #[trigger] row_offers(bearings@, d, y, hop) by {
                    assert forall|hop: Hop| #[trigger] hops@[y].holds(hop) <==> exists|d: int|
                        0 <= d < e + 1 && #[trigger] row_offers(bearings@, d, y, hop) by {
                        assert(!row_offers(bearings@, e as int, y, hop));
                        assert(before[y].holds(hop) == hops@[y].holds(hop));
                        if before[y].holds(hop) {
                            let d = choose|d: int|
                                0 <= d < e && #[trigger] row_offers(bearings@, d, y, hop);
                            assert(row_offers(bearings@, d, y, hop));
                        }
                    }
                }
            }
        }
        e += 1;
    }
    hops
}

/// Whether the body at position `k` of the traversal is a root.
pub open spec fn root_at(meta: Seq<MechanismBodyTopology>, order: Seq<usize>, k: int) -> bool {
    meta[order[k] as int].is_root
}

/// The position of the parent of the body at position `k`.
pub open spec fn parent_at(meta: Seq<MechanismBodyTopology>, order: Seq<usize>, k: int) -> int {
    meta[meta[order[k] as int].parent_body as int].preorder_index as int
}

/// Whether bodies know their position in the traversal.
pub open spec fn positions_agree(meta: Seq<MechanismBodyTopology>, order: Seq<usize>) -> bool {
    forall|k: int|
        #![trigger order[k]]
        0 <= k < order.len() ==> order[k] < meta.len() && meta[order[k] as int].preorder_index == k
}

/// The step that reaches body `x` from its parent.
pub open spec fn entry_hop(meta: Seq<MechanismBodyTopology>, x: int) -> Hop {
    Hop {
        body: x as u32,
        bearing: meta[x].tree_bearing->0,
        direction: meta[x].bearing_direction,
    }
}

/// Whether the row of the body at position `k` describes a root, or the least
/// step from a parent that stands earlier.
pub open spec fn row_fits(
    bearings: Seq<CompiledBearing>,
    meta: Seq<MechanismBodyTopology>,
    order: Seq<usize>,
    k: int,
) -> bool {
    let x = order[k] as int;
    let row = meta[x];
    if row.is_root {
        &&& row.parent_body == x
        &&& row.tree_bearing is None
        &&& row.bearing_direction == 0
        &&& row.depth == 0
    } else {
        let parent = row.parent_body as int;
        &&& parent < meta.len()
        &&& parent_at(meta, order, k) < k
        &&& order[parent_at(meta, order, k)] == parent
        &&& row.depth == meta[parent].depth + 1
        &&& row.component_index == meta[parent].component_index
        &&& row.tree_bearing is Some
        &&& is_hop(bearings, parent, entry_hop(meta, x))
        &&& forall|hop: Hop| #[trigger]
            is_hop(bearings, parent, hop) && hop.body == x ==> entry_hop(meta, x).rank()
                <= hop.rank()
    }
}

/// Whether no root stands from position `i` to position `j`.
pub open spec fn same_tree(
    meta: Seq<MechanismBodyTopology>,
    order: Seq<usize>,
    i: int,
    j: int,
) -> bool {
    forall|r: int| #![trigger root_at(meta, order, r)] i <= r <= j ==> !root_at(meta, order, r)
}

/// Whether each tree stands in one run behind its root, nearer bodies first:
/// children follow in the order of their parents, siblings in row order.
pub open spec fn breadth_first(meta: Seq<MechanismBodyTopology>, order: Seq<usize>) -> bool {
    &&& forall|k: int|
        #![trigger order[k]]
        0 <= k < order.len() && !root_at(meta, order, k) ==> same_tree(
            meta,
            order,
            parent_at(meta, order, k) + 1,
            k,
        )
    &&& forall|i: int, j: int|
        #![trigger order[i], order[j]]
        0 <= i < j < order.len() && same_tree(meta, order, i, j) ==> {
            &&& parent_at(meta, order, i) <= parent_at(meta, order, j)
            &&& parent_at(meta, order, i) == parent_at(meta, order, j) ==> order[i] < order[j]
        }
}

/// Whether a root before position `k` is joined to the body there.
spec fn reached(links: Seq<Link>, meta: Seq<MechanismBodyTopology>, order: Seq<usize>, k: int) -> bool {
    exists|r: int|
        0 <= r <= k && #[trigger] root_at(meta, order, r) && connected(
            links,
            order[r] as int,
            order[k] as int,
        )
}

/// A traversal that has taken every step from its first `head` bodies.
#[verifier::opaque]
spec fn walk(
    bearings: Seq<CompiledBearing>,
    meta: Seq<MechanismBodyTopology>,
    visited: Seq<bool>,
    order: Seq<usize>,
    head: int,
) -> bool {
    &&& meta.len() == visited.len()
    &&& meta.len() <= u32::MAX
    &&& 0 <= head <= order.len()
    &&& positions_agree(meta, order)
    &&& forall|x: int|
        #![trigger visited[x]]
        0 <= x < visited.len() && visited[x] ==> meta[x].preorder_index < order.len()
            && order[meta[x].preorder_index as int] == x
    &&& forall|k: int| #![trigger order[k]] 0 <= k < order.len() ==> visited[order[k] as int]
    &&& forall|k: int|
        #![trigger row_fits(bearings, meta, order, k)]
        0 <= k < order.len() ==> row_fits(bearings, meta, order, k) && meta[order[k] as int].depth
            <= k
    &&& forall|k: int|
        #![trigger order[k]]
        0 <= k < order.len() && !root_at(meta, order, k) ==> parent_at(meta, order, k) <= head
    &&& breadth_first(meta, order)
    &&& forall|r: int| #![trigger root_at(meta, order, r)] head < r < order.len() ==> !root_at(meta, order, r)
    &&& forall|k: int, hop: Hop|
        #![trigger is_hop(bearings, order[k] as int, hop)]
        0 <= k < head && is_hop(bearings, order[k] as int, hop) ==> hop.body < visited.len()
            && visited[hop.body as int]
    &&& forall|k: int|
        #![trigger reached(tree_links(bearings), meta, order, k)]
        0 <= k < order.len() ==> reached(tree_links(bearings), meta, order, k)
}

/// A traversal lists every body at most once, so it is no longer than the bodies.
proof fn lemma_walk_len(
    bearings: Seq<CompiledBearing>,
    meta: Seq<MechanismBodyTopology>,
    visited: Seq<bool>,
    order: Seq<usize>,
    head: int,
)
    requires
        walk(bearings, meta, visited, order, head),
    ensures
        order.len() <= meta.len(),
        order.len() == meta.len() <==> (forall|x: int|
            #![trigger visited[x]]
            0 <= x < visited.len() ==> visited[x]),
{
    reveal(walk);
    assert(order.no_duplicates()) by {
        assert forall|i: int, j: int|
            0 <= i < order.len() && 0 <= j < order.len() && i != j implies order[i] != order[j] by {
            assert(meta[order[i] as int].preorder_index == i);
            assert(meta[order[j] as int].preorder_index == j);
        }
    }
    let listed = order.to_set();
    order.unique_seq_to_set();
    let all = Set::new(|x: usize| 0 <= x < meta.len());
    lemma_range_set(meta.len());
    assert(listed.subset_of(all));
    vstd::set_lib::lemma_len_subset(listed, all);
    if order.len() == meta.len() {
        vstd::set_lib::lemma_subset_equality(listed, all);
        assert forall|x: int| #![trigger visited[x]] 0 <= x < visited.len() implies visited[x] by {
            assert(all.contains(x as usize));
            assert(listed.contains(x as usize));
            let k = order.index_of(x as usize);
            assert(order[k] == x);
        }
    }
    if forall|x: int| #![trigger visited[x]] 0 <= x < visited.len() ==> visited[x] {
        assert(all.subset_of(listed)) by {
            assert forall|x: usize| #[trigger] all.contains(x) implies listed.contains(x) by {
                assert(visited[x as int]);
                assert(order[meta[x as int].preorder_index as int] == x);
            }
        }
        assert(all =~= listed);
    }
}

/// The rows below `count` are `count` rows.
proof fn lemma_range_set(count: nat)
    requires
        count <= u32::MAX,
    ensures
        Set::new(|x: usize| 0 <= x < count).finite(),
        Set::new(|x: usize| 0 <= x < count).len() == count,
    decreases count,
{
    let all = Set::new(|x: usize| 0 <= x < count);
    if count == 0 {
        assert(all =~= Set::empty());
    } else {
        let fewer = Set::new(|x: usize| 0 <= x < count - 1);
        lemma_range_set((count - 1) as nat);
        assert(fewer =~= Set::new(|x: usize| 0 <= x < (count - 1) as nat));
        assert(all =~= fewer.insert((count - 1) as usize));
    }
}

/// What a row must say before its body joins the traversal.
spec fn joins(
    bearings: Seq<CompiledBearing>,
    meta: Seq<MechanismBodyTopology>,
    order: Seq<usize>,
    head: int,
    child: int,
    row: MechanismBodyTopology,
) -> bool {
    &&& row.preorder_index == order.len()
    &&& if row.is_root {
        &&& head == order.len()
        &&& row.parent_body == child
        &&& row.tree_bearing is None
        &&& row.bearing_direction == 0
        &&& row.depth == 0
    } else {
        let parent = order[head] as int;
        let entry = Hop {
            body: child as u32,
            bearing: row.tree_bearing->0,
            direction: row.bearing_direction,
        };
        &&& head < order.len()
        &&& row.parent_body == parent
        &&& row.depth == meta[parent].depth + 1
        &&& row.component_index == meta[parent].component_index
        &&& row.tree_bearing is Some
        &&& is_hop(bearings, parent, entry)
        &&& forall|hop: Hop| #[trigger]
            is_hop(bearings, parent, hop) && hop.body == child ==> entry.rank() <= hop.rank()
        &&& forall|k: int|
            #![trigger order[k]]
            0 <= k < order.len() && !root_at(meta, order, k) && parent_at(meta, order, k) == head
                ==> order[k] < child
    }
}

/// A step joins its two ends.
proof fn lemma_hop_connects(bearings: Seq<CompiledBearing>, x: int, hop: Hop)
    requires
        is_hop(bearings, x, hop),
    ensures
        connected(tree_links(bearings), x, hop.body as int),
        connected(tree_links(bearings), hop.body as int, x),
{
    let e = choose|e: int| 0 <= e < bearings.len() && #[trigger] row_offers(bearings, e, x, hop);
    let links = tree_links(bearings);
    lemma_link_connects(links, e);
    lemma_connected_chain(links, x, x, hop.body as int);
    lemma_connected_chain(links, hop.body as int, hop.body as int, x);
}

/// What a joining body leaves as it was: the rows of listed bodies.
proof fn lemma_join_keeps(
    bearings: Seq<CompiledBearing>,
    meta: Seq<MechanismBodyTopology>,
    visited: Seq<bool>,
    order: Seq<usize>,
    head: int,
    child: usize,
    row: MechanismBodyTopology,
)
    requires
        walk(bearings, meta, visited, order, head),
        child < meta.len(),
        !visited[child as int],
        joins(bearings, meta, order, head, child as int, row),
    ensures
        forall|k: int|
            #![trigger order.push(child)[k]]
            0 <= k < order.len() ==> {
                &&& order.push(child)[k] == order[k]
                &&& order[k] != child
                &&& order[k] < meta.len()
                &&& root_at(meta.update(child as int, row), order.push(child), k) == root_at(
                    meta,
                    order,
                    k,
                )
                &&& !root_at(meta, order, k) ==> parent_at(
                    meta.update(child as int, row),
                    order.push(child),
                    k,
                ) == parent_at(meta, order, k)
            },
        !row.is_root ==> parent_at(
            meta.update(child as int, row),
            order.push(child),
            order.len() as int,
        ) == head,
{
    reveal(walk);
    let meta1 = meta.update(child as int, row);
    let order1 = order.push(child);
    let last = order.len() as int;
    assert forall|k: int| 0 <= k < order.len() implies #[trigger] order[k] != child by {
        assert(visited[order[k] as int]);
    }
    assert forall|k: int| #![trigger order1[k]] 0 <= k < order.len() implies {
        &&& order1[k] == order[k]
        &&& order[k] != child
        &&& order[k] < meta.len()
        &&& root_at(meta1, order1, k) == root_at(meta, order, k)
        &&& !root_at(meta, order, k) ==> parent_at(meta1, order1, k) == parent_at(meta, order, k)
    } by {
        assert(order[k] < meta.len());
        if !root_at(meta, order, k) {
            assert(row_fits(bearings, meta, order, k));
            let q = parent_at(meta, order, k);
            assert(order[q] == meta[order[k] as int].parent_body);
            assert(order[q] != child);
        }
    }
    if !row.is_root {
        assert(order[head] != child);
        assert(meta[order[head] as int].preorder_index == head);
    }
}

/// Rows still fit once a body has joined.
proof fn lemma_join_row(
    bearings: Seq<CompiledBearing>,
    meta: Seq<MechanismBodyTopology>,
    visited: Seq<bool>,
    order: Seq<usize>,
    head: int,
    child: usize,
    row: MechanismBodyTopology,
    k: int,
)
    requires
        0 <= k <= order.len(),
        walk(bearings, meta, visited, order, head),
        child < meta.len(),
        !visited[child as int],
        joins(bearings, meta, order, head, child as int, row),
    ensures
        row_fits(bearings, meta.update(child as int, row), order.push(child), k),
        meta.update(child as int, row)[order.push(child)[k] as int].depth <= k,
{
    lemma_join_keeps(bearings, meta, visited, order, head, child, row);
    reveal(walk);
    let meta1 = meta.update(child as int, row);
    let order1 = order.push(child);
    let last = order.len() as int;
    if k < order.len() {
        assert(order1[k] == order[k]);
        assert(row_fits(bearings, meta, order, k));
        assert(meta[order[k] as int].depth <= k);
        if !root_at(meta, order, k) {
            let q = parent_at(meta, order, k);
            assert(order1[q] == order[q]);
            assert(entry_hop(meta1, order[k] as int) == entry_hop(meta, order[k] as int));
        }
    } else if !row.is_root {
        assert(order1[head] == order[head]);
        assert(row_fits(bearings, meta, order, head));
        assert(meta[order[head] as int].depth <= head);
        assert(entry_hop(meta1, child as int) == (Hop {
            body: child as u32,
            bearing: row.tree_bearing->0,
            direction: row.bearing_direction,
        }));
    }
}

/// The traversal stays breadth first once a body has joined.
proof fn lemma_join_breadth(
    bearings: Seq<CompiledBearing>,
    meta: Seq<MechanismBodyTopology>,
    visited: Seq<bool>,
    order: Seq<usize>,
    head: int,
    child: usize,
    row: MechanismBodyTopology,
)
    requires
        walk(bearings, meta, visited, order, head),
        child < meta.len(),
        !visited[child as int],
        joins(bearings, meta, order, head, child as int, row),
    ensures
        breadth_first(meta.update(child as int, row), order.push(child)),
        forall|r: int|
            #![trigger root_at(meta.update(child as int, row), order.push(child), r)]
            head < r <= order.len() ==> !root_at(
                meta.update(child as int, row),
                order.push(child),
                r,
            ),
{
    lemma_join_keeps(bearings, meta, visited, order, head, child, row);
    reveal(walk);
    let meta1 = meta.update(child as int, row);
    let order1 = order.push(child);
    let last = order.len() as int;
    assert forall|r: int| #![trigger root_at(meta1, order1, r)] head < r < order1.len() implies !root_at(
        meta1,
        order1,
        r,
    ) by {
        if r < last {
            assert(order1[r] == order[r]);
            assert(!root_at(meta, order, r));
        }
    }
    assert forall|k: int| #![trigger order1[k]] 0 <= k < order1.len() && !root_at(meta1, order1, k) implies
        same_tree(meta1, order1, parent_at(meta1, order1, k) + 1, k) by {
        if k < last {
            assert(order1[k] == order[k]);
            let q = parent_at(meta, order, k);
            assert(row_fits(bearings, meta, order, k));
            assert(same_tree(meta, order, q + 1, k));
            assert forall|r: int| #![trigger root_at(meta1, order1, r)] q + 1 <= r <= k implies !root_at(
                meta1,
                order1,
                r,
            ) by {
                assert(order1[r] == order[r]);
                assert(!root_at(meta, order, r));
            }
        }
    }
    assert forall|i: int, j: int| #![trigger order1[i], order1[j]]
        0 <= i < j < order1.len() && same_tree(meta1, order1, i, j) implies {
        &&& parent_at(meta1, order1, i) <= parent_at(meta1, order1, j)
        &&& parent_at(meta1, order1, i) == parent_at(meta1, order1, j) ==> order1[i] < order1[j]
    } by {
        assert(order1[i] == order[i]);
        assert(!root_at(meta1, order1, i));
        assert(!root_at(meta1, order1, j));
        if j < last {
            assert(order1[j] == order[j]);
            assert(same_tree(meta, order, i, j)) by {
                assert forall|r: int| #![trigger root_at(meta, order, r)] i <= r <= j implies !root_at(
                    meta,
                    order,
                    r,
                ) by {
                    assert(order1[r] == order[r]);
                    assert(!root_at(meta1, order1, r));
                }
            }
        }
    }
}

/// A joining body is reached from a root.
proof fn lemma_join_reached(
    bearings: Seq<CompiledBearing>,
    meta: Seq<MechanismBodyTopology>,
    visited: Seq<bool>,
    order: Seq<usize>,
    head: int,
    child: usize,
    row: MechanismBodyTopology,
)
    requires
        walk(bearings, meta, visited, order, head),
        child < meta.len(),
        !visited[child as int],
        joins(bearings, meta, order, head, child as int, row),
    ensures
        forall|k: int|
            #![trigger reached(tree_links(bearings), meta.update(child as int, row), order.push(child), k)]
            0 <= k <= order.len() ==> reached(
                tree_links(bearings),
                meta.update(child as int, row),
                order.push(child),
                k,
            ),
{
    lemma_join_keeps(bearings, meta, visited, order, head, child, row);
    reveal(walk);
    let meta1 = meta.update(child as int, row);
    let order1 = order.push(child);
    let last = order.len() as int;
    let links = tree_links(bearings);
    assert forall|k: int| #![trigger reached(links, meta1, order1, k)] 0 <= k < order1.len() implies reached(
        links,
        meta1,
        order1,
        k,
    ) by {
        if k < last {
            assert(order1[k] == order[k]);
            assert(reached(links, meta, order, k));
            let r = choose|r: int|
                0 <= r <= k && #[trigger] root_at(meta, order, r) && connected(
                    links,
                    order[r] as int,
                    order[k] as int,
                );
            assert(order1[r] == order[r]);
            assert(root_at(meta1, order1, r));
        } else if row.is_root {
            lemma_connected_self(links, child as int);
            assert(root_at(meta1, order1, last));
        } else {
            assert(reached(links, meta, order, head)) by {
                assert(order[head] == order1[head]);
            }
            let r = choose|r: int|
                0 <= r <= head && #[trigger] root_at(meta, order, r) && connected(
                    links,
                    order[r] as int,
                    order[head] as int,
                );
            assert(order1[r] == order[r]);
            assert(root_at(meta1, order1, r));
            let entry = Hop {
                body: child as u32,
                bearing: row.tree_bearing->0,
                direction: row.bearing_direction,
            };
            lemma_hop_connects(bearings, order[head] as int, entry);
            lemma_connected_chain(links, order[r] as int, order[head] as int, child as int);
        }
    }
}

/// A fresh body joins the traversal at its end.
proof fn lemma_join(
    bearings: Seq<CompiledBearing>,
    meta: Seq<MechanismBodyTopology>,
    visited: Seq<bool>,
    order: Seq<usize>,
    head: int,
    child: usize,
    row: MechanismBodyTopology,
)
    requires
        walk(bearings, meta, visited, order, head),
        child < meta.len(),
        !visited[child as int],
        joins(bearings, meta, order, head, child as int, row),
    ensures
        walk(
            bearings,
            meta.update(child as int, row),
            visited.update(child as int, true),
            order.push(child),
            head,
        ),
{
    lemma_join_breadth(bearings, meta, visited, order, head, child, row);
    lemma_join_reached(bearings, meta, visited, order, head, child, row);
    lemma_join_keeps(bearings, meta, visited, order, head, child, row);
    reveal(walk);
    let meta1 = meta.update(child as int, row);
    let order1 = order.push(child);
    let last = order.len() as int;
    let visited1 = visited.update(child as int, true);
    assert forall|k: int| #![trigger row_fits(bearings, meta1, order1, k)]
        0 <= k < order1.len() implies row_fits(bearings, meta1, order1, k)
        && meta1[order1[k] as int].depth <= k by {
        lemma_join_row(bearings, meta, visited, order, head, child, row, k);
    }
    assert forall|k: int| #![trigger order1[k]] 0 <= k < order1.len() implies order1[k]
        < meta1.len() && meta1[order1[k] as int].preorder_index == k && visited1[order1[k] as int] by {
        if k < order.len() {
            assert(order[k] < meta.len() && visited[order[k] as int]);
        }
    }
    assert forall|x: int| #![trigger visited1[x]] 0 <= x < visited1.len() && visited1[x] implies
        meta1[x].preorder_index < order1.len() && order1[meta1[x].preorder_index as int] == x by {
        if x != child {
            assert(visited[x]);
        }
    }
    assert forall|k: int| #![trigger order1[k]] 0 <= k < order1.len() && !root_at(meta1, order1, k) implies
        parent_at(meta1, order1, k) <= head by {
        if k < order.len() {
            assert(order1[k] == order[k]);
        }
    }
    assert forall|k: int, hop: Hop| #![trigger is_hop(bearings, order1[k] as int, hop)]
        0 <= k < head && is_hop(bearings, order1[k] as int, hop) implies hop.body < visited1.len()
        && visited1[hop.body as int] by {
        assert(order1[k] == order[k]);
        assert(is_hop(bearings, order[k] as int, hop));
    }
}

/// Whether `hops` lists the steps from every body.
spec fn hops_listed(bearings: Seq<CompiledBearing>, hops: Seq<OrderedSet<Hop>>) -> bool {
    forall|x: int|
        #![trigger hops[x]]
        0 <= x < hops.len() ==> hops[x].wf() && forall|hop: Hop|
            #[trigger] hops[x].holds(hop) <==> is_hop(bearings, x, hop)
}

/// What a traversal keeps of the bodies it had listed.
spec fn extends(
    meta0: Seq<MechanismBodyTopology>,
    visited0: Seq<bool>,
    order0: Seq<usize>,
    meta: Seq<MechanismBodyTopology>,
    visited: Seq<bool>,
    order: Seq<usize>,
) -> bool {
    &&& meta.len() == meta0.len()
    &&& visited.len() == visited0.len()
    &&& order0.len() <= order.len()
    &&& forall|k: int| #![trigger order[k]] 0 <= k < order0.len() ==> order[k] == order0[k]
    &&& forall|x: int|
        #![trigger visited[x]]
        #![trigger meta[x]]
        0 <= x < visited0.len() && visited0[x] ==> visited[x] && meta[x] == meta0[x]
}

/// Takes every step from the body at position `head`.
fn take_hops(
    bearings: &Vec<CompiledBearing>,
    hops: &OrderedSet<Hop>,
    meta: &mut Vec<MechanismBodyTopology>,
    visited: &mut Vec<bool>,
    order: &mut Vec<usize>,
    head: usize,
)
    requires
        rows_connect_within(bearings@, old(meta)@.len() as int),
        head < old(order)@.len(),
        walk(bearings@, old(meta)@, old(visited)@, old(order)@, head as int),
        hops.wf(),
        forall|hop: Hop| #[trigger]
            hops.holds(hop) <==> is_hop(bearings@, old(order)@[head as int] as int, hop),
        forall|k: int|
            #![trigger old(order)@[k]]
            0 <= k < old(order)@.len() && !root_at(old(meta)@, old(order)@, k) ==> parent_at(
                old(meta)@,
                old(order)@,
                k,
            ) < head,
    ensures
        walk(bearings@, final(meta)@, final(visited)@, final(order)@, head + 1),
        extends(
            old(meta)@,
            old(visited)@,
            old(order)@,
            final(meta)@,
            final(visited)@,
            final(order)@,
        ),
        forall|k: int|
            #![trigger final(order)@[k]]
            old(order)@.len() <= k < final(order)@.len() ==> !root_at(
                final(meta)@,
                final(order)@,
                k,
            ) && final(meta)@[final(order)@[k] as int].component_index == final(meta)@[final(
                order)@[head as int] as int].component_index,
        forall|k: int|
            #![trigger final(order)@[k]]
            0 <= k < final(order)@.len() && !root_at(final(meta)@, final(order)@, k) ==> parent_at(
                final(meta)@,
                final(order)@,
                k,
            ) < head + 1,
{
    let ghost rows = bearings@;
    let ghost meta0 = meta@;
    let ghost visited0 = visited@;
    let ghost order0 = order@;
    let parent: usize = order[head];
    proof {
        reveal(walk);
        assert(row_fits(rows, meta@, order@, head as int));
    }
    let parent_row: MechanismBodyTopology = meta[parent];
    let mut q: usize = 0;
    while q < hops.len()
        invariant
            rows == bearings@,
            rows_connect_within(rows, meta@.len() as int),
            q <= hops@.len(),
            head < order0.len(),
            parent == order0[head as int],
            parent < meta@.len(),
            visited0[parent as int],
            parent_row == meta0[parent as int],
            parent_row.depth <= head,
            walk(rows, meta@, visited@, order@, head as int),
            extends(meta0, visited0, order0, meta@, visited@, order@),
            hops.wf(),
            meta0.len() <= u32::MAX,
            meta@.len() == meta0.len(),
            visited@.len() == meta0.len(),
            order0.len() <= order@.len(),
            forall|hop: Hop| #[trigger] hops.holds(hop) <==> is_hop(rows, parent as int, hop),
            forall|k: int|
                #![trigger order@[k]]
                0 <= k < order0.len() && !root_at(meta@, order@, k) ==> parent_at(meta@, order@, k)
                    < head,
            forall|k: int|
                #![trigger order@[k]]
                order0.len() <= k < order@.len() ==> {
                    &&& !root_at(meta@, order@, k)
                    &&& meta@[order@[k] as int].component_index == parent_row.component_index
                    &&& exists|p: int| 0 <= p < q && #[trigger] hops@[p].body == order@[k]
                },
            forall|p: int| #![trigger hops@[p]] 0 <= p < q ==> hops@[p].body < visited@.len()
                && visited@[hops@[p].body as int],
        decreases hops@.len() - q,
    {
        let hop: Hop = hops.item(q);
        proof {
            assert(hops.holds(hop)) by {
                assert(hops@[q as int] == hop);
            }
            assert(is_hop(rows, parent as int, hop));
            let e = choose|e: int|
                0 <= e < rows.len() && #[trigger] row_offers(rows, e, parent as int, hop);
            assert(rows[e].compound_a < meta@.len() && rows[e].compound_b < meta@.len());
            lemma_walk_len(rows, meta@, visited@, order@, head as int);
            assert(visited@[parent as int]);
            assert(meta@[parent as int] == parent_row);
            assert(order@[head as int] == parent);
        }
        let child: usize = hop.body as usize;
        if !visited[child] {
            let ghost meta1 = meta@;
            let ghost visited1 = visited@;
            let ghost order1 = order@;
            proof {
                // Every listed body would be known, so the list is not full yet.
                if order@.len() == meta@.len() {
                    assert(visited@[child as int]);
                }
            }
            let row = MechanismBodyTopology {
                parent_body: parent as u32,
                tree_bearing: Some(hop.bearing),
                bearing_direction: hop.direction,
                component_index: parent_row.component_index,
                depth: parent_row.depth + 1,
                preorder_index: order.len() as u32,
                postorder_index: 0,
                is_root: false,
            };
            proof {
                let entry = Hop {
                    body: child as u32,
                    bearing: row.tree_bearing->0,
                    direction: row.bearing_direction,
                };
                assert(entry == hop);
                assert forall|other: Hop| #[trigger] is_hop(rows, parent as int, other) && other.body
                    == child implies entry.rank() <= other.rank() by {
                    assert(hops.holds(other));
                    let p = hops@.index_of(other);
                    assert(hops@[p] == other);
                    if p < q {
                        assert(visited@[hops@[p].body as int]);
                    } else if p > q {
                        assert(hops@[q as int].rank() < hops@[p].rank());
                    }
                }
                assert forall|k: int| #![trigger order1[k]] 0 <= k < order1.len() && !root_at(
                    meta1,
                    order1,
                    k,
                ) && parent_at(meta1, order1, k) == head implies order1[k] < child by {
                    if k >= order0.len() {
                        let p = choose|p: int| 0 <= p < q && #[trigger] hops@[p].body == order1[k];
                        assert(hops@[p].rank() < hops@[q as int].rank());
                        assert(visited@[hops@[p].body as int]);
                        assert(hops@[p].body <= hops@[q as int].body) by {
                            lemma_hop_order(hops@[p], hops@[q as int]);
                        }
                    }
                }
                lemma_join(rows, meta1, visited1, order1, head as int, child, row);
                lemma_join_keeps(rows, meta1, visited1, order1, head as int, child, row);
            }
            visited.set(child, true);
            meta.set(child, row);
            order.push(child);
            proof {
                assert forall|k: int| #![trigger order@[k]] 0 <= k < order0.len() && !root_at(
                    meta@,
                    order@,
                    k,
                ) implies parent_at(meta@, order@, k) < head by {
                    assert(order1[k] == order@[k]);
                }
                assert forall|k: int| #![trigger order@[k]] order0.len() <= k < order@.len() implies {
                    &&& !root_at(meta@, order@, k)
                    &&& meta@[order@[k] as int].component_index == parent_row.component_index
                    &&& exists|p: int| 0 <= p < q + 1 && #[trigger] hops@[p].body == order@[k]
                } by {
                    if k < order1.len() {
                        assert(order1[k] == order@[k]);
                        let p = choose|p: int| 0 <= p < q && #[trigger] hops@[p].body == order1[k];
                        assert(hops@[p].body == order@[k]);
                    } else {
                        assert(hops@[q as int].body == order@[k]);
                    }
                }
                assert(extends(meta0, visited0, order0, meta@, visited@, order@)) by {
                    assert forall|k: int| #![trigger order@[k]] 0 <= k < order0.len() implies order@[k]
                        == order0[k] by {
                        assert(order1[k] == order0[k]);
                    }
                    assert forall|x: int|
                        #![trigger visited@[x]]
                        #![trigger meta@[x]]
                        0 <= x < visited0.len() && visited0[x] implies visited@[x] && meta@[x] == meta0[x] by {
                        assert(visited1[x] && meta1[x] == meta0[x]);
                    }
                }
            }
        }
        q += 1;
    }
    proof {
        assert forall|hop: Hop| #[trigger] is_hop(rows, parent as int, hop) implies hop.body
            < visited@.len() && visited@[hop.body as int] by {
            assert(hops.holds(hop));
            let p = hops@.index_of(hop);
            assert(hops@[p] == hop);
        }
        assert(order@[head as int] == parent);
        lemma_walk_advance(rows, meta@, visited@, order@, head as int);
        assert forall|k: int| #![trigger order@[k]] 0 <= k < order@.len() && !root_at(meta@, order@, k) implies
            parent_at(meta@, order@, k) < head + 1 by {
            reveal(walk);
        }
    }
}

/// Steps in rank order reach bodies in row order.
proof fn lemma_hop_order(a: Hop, b: Hop)
    requires
        a.rank() < b.rank(),
    ensures
        a.body <= b.body,
{
}

/// Once every step from the body at `head` is taken, the next body is due.
proof fn lemma_walk_advance(
    bearings: Seq<CompiledBearing>,
    meta: Seq<MechanismBodyTopology>,
    visited: Seq<bool>,
    order: Seq<usize>,
    head: int,
)
    requires
        walk(bearings, meta, visited, order, head),
        head < order.len(),
        forall|hop: Hop| #[trigger]
            is_hop(bearings, order[head] as int, hop) ==> hop.body < visited.len()
                && visited[hop.body as int],
    ensures
        walk(bearings, meta, visited, order, head + 1),
{
    reveal(walk);
}

/// Listed bodies are known rows.
proof fn lemma_walk_listed(
    bearings: Seq<CompiledBearing>,
    meta: Seq<MechanismBodyTopology>,
    visited: Seq<bool>,
    order: Seq<usize>,
    head: int,
)
    requires
        walk(bearings, meta, visited, order, head),
    ensures
        meta.len() == visited.len(),
        meta.len() <= u32::MAX,
        forall|k: int|
            #![trigger order[k]]
            0 <= k < order.len() ==> order[k] < meta.len() && visited[order[k] as int],
        forall|k: int|
            #![trigger order[k]]
            0 <= k < order.len() && !root_at(meta, order, k) ==> parent_at(meta, order, k) < k,
{
    reveal(walk);
    assert forall|k: int| #![trigger order[k]] 0 <= k < order.len() && !root_at(meta, order, k) implies parent_at(
        meta,
        order,
        k,
    ) < k by {
        assert(row_fits(bearings, meta, order, k));
    }
}

/// Lists the tree of a fresh root.
fn grow_tree(
    bearings: &Vec<CompiledBearing>,
    hops: &Vec<OrderedSet<Hop>>,
    meta: &mut Vec<MechanismBodyTopology>,
    visited: &mut Vec<bool>,
    order: &mut Vec<usize>,
    root: usize,
    component: u32,
)
    requires
        rows_connect_within(bearings@, old(meta)@.len() as int),
        hops@.len() == old(meta)@.len(),
        hops_listed(bearings@, hops@),
        walk(bearings@, old(meta)@, old(visited)@, old(order)@, old(order)@.len() as int),
        root < old(meta)@.len(),
        !old(visited)@[root as int],
    ensures
        walk(bearings@, final(meta)@, final(visited)@, final(order)@, final(order)@.len() as int),
        extends(
            old(meta)@,
            old(visited)@,
            old(order)@,
            final(meta)@,
            final(visited)@,
            final(order)@,
        ),
        old(order)@.len() < final(order)@.len(),
        final(order)@[old(order)@.len() as int] == root,
        final(meta)@[root as int].is_root,
        final(meta)@[root as int].component_index == component,
        final(meta)@[root as int].preorder_index == old(order)@.len(),
        final(visited)@[root as int],
        forall|k: int|
            #![trigger final(order)@[k]]
            old(order)@.len() < k < final(order)@.len() ==> !root_at(
                final(meta)@,
                final(order)@,
                k,
            ) && final(meta)@[final(order)@[k] as int].component_index == component,
{
    let ghost rows = bearings@;
    let ghost meta0 = meta@;
    let ghost visited0 = visited@;
    let ghost order0 = order@;
    let start: usize = order.len();
    proof {
        lemma_walk_listed(rows, meta@, visited@, order@, start as int);
        lemma_walk_len(rows, meta@, visited@, order@, start as int);
        assert(start < meta@.len()) by {
            if start == meta@.len() {
                assert(visited@[root as int]);
            }
        }
    }
    let row = MechanismBodyTopology {
        parent_body: root as u32,
        tree_bearing: None,
        bearing_direction: 0,
        component_index: component,
        depth: 0,
        preorder_index: start as u32,
        postorder_index: 0,
        is_root: true,
    };
    proof {
        lemma_join(rows, meta0, visited0, order0, start as int, root, row);
    }
    visited.set(root, true);
    meta.set(root, row);
    order.push(root);
    let mut head: usize = start;
    proof {
        lemma_walk_listed(rows, meta@, visited@, order@, start as int);
        lemma_walk_len(rows, meta@, visited@, order@, start as int);
    }
    while head < order.len()
        invariant
            rows == bearings@,
            rows_connect_within(rows, meta@.len() as int),
            hops@.len() == meta@.len(),
            meta@.len() <= u32::MAX,
            visited@.len() == meta@.len(),
            hops_listed(rows, hops@),
            start == order0.len(),
            start <= head <= order@.len(),
            start < order@.len(),
            walk(rows, meta@, visited@, order@, head as int),
            extends(meta0, visited0, order0, meta@, visited@, order@),
            order@[start as int] == root,
            root < meta@.len(),
            meta@[root as int] == row,
            row.is_root,
            row.component_index == component,
            row.preorder_index == start,
            visited@[root as int],
            forall|k: int|
                #![trigger order@[k]]
                start < k < order@.len() ==> !root_at(meta@, order@, k)
                    && meta@[order@[k] as int].component_index == component,
            forall|k: int|
                #![trigger order@[k]]
                0 <= k < order@.len() && !root_at(meta@, order@, k) ==> parent_at(meta@, order@, k)
                    < head,
            order@.len() <= meta@.len(),
        decreases meta@.len() - head,
    {
        let ghost meta1 = meta@;
        let ghost visited1 = visited@;
        let ghost order1 = order@;
        let parent: usize = order[head];
        proof {
            lemma_walk_listed(rows, meta@, visited@, order@, head as int);
            assert(order@[head as int] < meta@.len());
            assert(meta@[order@[head as int] as int].component_index == component) by {
                if head > start {
                    assert(order@[head as int] == parent);
                }
            }
        }
        take_hops(bearings, &hops[parent], meta, visited, order, head);
        head += 1;
        proof {
            lemma_walk_len(rows, meta@, visited@, order@, head as int);
            assert(order@[head - 1] == parent);
            assert(visited1[parent as int] && visited1[root as int]);
            assert(meta@[parent as int] == meta1[parent as int]);
            assert(extends(meta0, visited0, order0, meta@, visited@, order@)) by {
                assert forall|k: int| #![trigger order@[k]] 0 <= k < order0.len() implies order@[k]
                    == order0[k] by {
                    assert(order1[k] == order0[k]);
                }
                assert forall|x: int|
                    #![trigger visited@[x]]
                    #![trigger meta@[x]]
                    0 <= x < visited0.len() && visited0[x] implies visited@[x] && meta@[x] == meta0[x] by {
                    assert(visited1[x] && meta1[x] == meta0[x]);
                }
            }
            assert(order@[start as int] == order1[start as int]);
            assert forall|k: int| #![trigger order@[k]] start < k < order@.len() implies !root_at(
                meta@,
                order@,
                k,
            ) && meta@[order@[k] as int].component_index == component by {
                if k < order1.len() {
                    assert(order@[k] == order1[k]);
                    assert(visited1[order1[k] as int]);
                    assert(meta@[order1[k] as int] == meta1[order1[k] as int]);
                }
            }
        }
    }
}

/// Whether root `i` of component `c` is listed before root `j` of component `d`.
pub open spec fn listed_before(c: int, i: int, d: int, j: int) -> bool {
    c < d || (c == d && i < j)
}

/// Whether every body is joined to exactly one of the listed roots.
pub open spec fn rooted(links: Seq<Link>, roots: Seq<Vec<u32>>, count: int) -> bool {
    &&& forall|c: int, i: int|
        #![trigger roots[c]@[i]]
        0 <= c < roots.len() && 0 <= i < roots[c]@.len() ==> roots[c]@[i] < count
    &&& forall|c: int, i: int, d: int, j: int|
        #![trigger roots[c]@[i], roots[d]@[j]]
        0 <= c < roots.len() && 0 <= i < roots[c]@.len() && 0 <= d < roots.len() && 0 <= j
            < roots[d]@.len() && connected(links, roots[c]@[i] as int, roots[d]@[j] as int)
            ==> c == d && i == j
    &&& forall|x: int| 0 <= x < count ==> #[trigger] joined_to_root(links, roots, x)
}

/// Whether a listed root is joined to body `x`.
pub open spec fn joined_to_root(links: Seq<Link>, roots: Seq<Vec<u32>>, x: int) -> bool {
    exists|c: int, i: int|
        0 <= c < roots.len() && 0 <= i < roots[c]@.len() && #[trigger] connected(
            links,
            roots[c]@[i] as int,
            x,
        )
}

/// Whether the first `c` components' roots, and `i` of the next, have been listed in order.
spec fn roots_listed(
    roots: Seq<Vec<u32>>,
    meta: Seq<MechanismBodyTopology>,
    visited: Seq<bool>,
    order: Seq<usize>,
    c: int,
    i: int,
) -> bool {
    &&& forall|d: int, j: int|
        #![trigger roots[d]@[j]]
        0 <= d < roots.len() && 0 <= j < roots[d]@.len() && listed_before(d, j, c, i) ==> {
            let root = roots[d]@[j] as int;
            visited[root] && meta[root].is_root && meta[root].component_index == d
        }
    &&& forall|k: int|
        #![trigger order[k]]
        0 <= k < order.len() && root_at(meta, order, k) ==> exists|d: int, j: int|
            0 <= d < roots.len() && 0 <= j < roots[d]@.len() && listed_before(d, j, c, i)
                && #[trigger] roots[d]@[j] == order[k]
    &&& forall|d: int, j: int, e: int, l: int|
        #![trigger roots[d]@[j], roots[e]@[l]]
        0 <= d < roots.len() && 0 <= j < roots[d]@.len() && 0 <= e < roots.len() && 0 <= l
            < roots[e]@.len() && listed_before(d, j, e, l) && listed_before(e, l, c, i)
            ==> meta[roots[d]@[j] as int].preorder_index < meta[roots[e]@[l] as int].preorder_index
}

/// Whether rows describe the forest of `bearings` hung from `roots`, traversed in `order`.
pub open spec fn hangs(
    bearings: Seq<CompiledBearing>,
    roots: Seq<Vec<u32>>,
    meta: Seq<MechanismBodyTopology>,
    order: Seq<usize>,
) -> bool {
    &&& order.len() == meta.len()
    &&& positions_agree(meta, order)
    &&& forall|x: int|
        #![trigger meta[x]]
        0 <= x < meta.len() ==> meta[x].preorder_index < meta.len()
            && order[meta[x].preorder_index as int] == x
    &&& forall|k: int|
        #![trigger row_fits(bearings, meta, order, k)]
        0 <= k < order.len() ==> row_fits(bearings, meta, order, k)
    &&& forall|x: int| #![trigger meta[x]] 0 <= x < meta.len() ==> meta[x].depth < meta.len()
    &&& breadth_first(meta, order)
    &&& forall|c: int, i: int|
        #![trigger roots[c]@[i]]
        0 <= c < roots.len() && 0 <= i < roots[c]@.len() ==> meta[roots[c]@[i] as int].is_root
            && meta[roots[c]@[i] as int].component_index == c
    &&& forall|x: int|
        #![trigger meta[x]]
        0 <= x < meta.len() && meta[x].is_root ==> meta[x].component_index < roots.len()
            && roots[meta[x].component_index as int]@.contains(x as u32)
    &&& forall|c: int, i: int, d: int, j: int|
        #![trigger roots[c]@[i], roots[d]@[j]]
        0 <= c < roots.len() && 0 <= i < roots[c]@.len() && 0 <= d < roots.len() && 0 <= j
            < roots[d]@.len() && listed_before(c, i, d, j) ==> meta[roots[c]@[i] as int].preorder_index
            < meta[roots[d]@[j] as int].preorder_index
}

/// A root that is due has not been listed: nothing listed is joined to it.
proof fn lemma_root_is_fresh(
    bearings: Seq<CompiledBearing>,
    roots: Seq<Vec<u32>>,
    meta: Seq<MechanismBodyTopology>,
    visited: Seq<bool>,
    order: Seq<usize>,
    c: int,
    i: int,
)
    requires
        walk(bearings, meta, visited, order, order.len() as int),
        rooted(tree_links(bearings), roots, meta.len() as int),
        roots_listed(roots, meta, visited, order, c, i),
        0 <= c < roots.len(),
        0 <= i < roots[c]@.len(),
    ensures
        !visited[roots[c]@[i] as int],
{
    let links = tree_links(bearings);
    let root = roots[c]@[i] as int;
    if visited[root] {
        reveal(walk);
        let k = meta[root].preorder_index as int;
        assert(order[k] == root);
        assert(reached(links, meta, order, k));
        let r = choose|r: int|
            0 <= r <= k && #[trigger] root_at(meta, order, r) && connected(
                links,
                order[r] as int,
                order[k] as int,
            );
        assert(order[r] < meta.len());
        let (d, j) = choose|d: int, j: int|
            0 <= d < roots.len() && 0 <= j < roots[d]@.len() && listed_before(d, j, c, i)
                && #[trigger] roots[d]@[j] == order[r];
        assert(connected(links, roots[d]@[j] as int, roots[c]@[i] as int));
    }
}

/// Growing the tree of the next root lists that root.
proof fn lemma_roots_listed_next(
    roots: Seq<Vec<u32>>,
    meta0: Seq<MechanismBodyTopology>,
    visited0: Seq<bool>,
    order0: Seq<usize>,
    meta: Seq<MechanismBodyTopology>,
    visited: Seq<bool>,
    order: Seq<usize>,
    c: int,
    i: int,
)
    requires
        roots_listed(roots, meta0, visited0, order0, c, i),
        extends(meta0, visited0, order0, meta, visited, order),
        meta.len() == visited.len(),
        0 <= c < roots.len(),
        0 <= i < roots[c]@.len(),
        forall|d: int, j: int|
            #![trigger roots[d]@[j]]
            0 <= d < roots.len() && 0 <= j < roots[d]@.len() ==> roots[d]@[j] < meta.len(),
        forall|k: int|
            #![trigger order0[k]]
            0 <= k < order0.len() ==> order0[k] < meta.len() && visited0[order0[k] as int],
        forall|x: int|
            #![trigger visited0[x]]
            0 <= x < visited0.len() && visited0[x] ==> meta0[x].preorder_index < order0.len(),
        order0.len() < order.len(),
        order[order0.len() as int] == roots[c]@[i],
        meta[roots[c]@[i] as int].is_root,
        meta[roots[c]@[i] as int].component_index == c,
        meta[roots[c]@[i] as int].preorder_index == order0.len(),
        visited[roots[c]@[i] as int],
        forall|k: int|
            #![trigger order[k]]
            order0.len() < k < order.len() ==> !root_at(meta, order, k),
    ensures
        roots_listed(roots, meta, visited, order, c, i + 1),
{
    assert forall|d: int, j: int|
        #![trigger roots[d]@[j]]
        0 <= d < roots.len() && 0 <= j < roots[d]@.len() && listed_before(d, j, c, i + 1) implies ({
        let root = roots[d]@[j] as int;
        visited[root] && meta[root].is_root && meta[root].component_index == d
    }) by {
        if listed_before(d, j, c, i) {
            assert(visited0[roots[d]@[j] as int]);
            assert(visited[roots[d]@[j] as int]);
        } else {
            assert(d == c && j == i);
        }
    }
    assert forall|k: int| #![trigger order[k]] 0 <= k < order.len() && root_at(meta, order, k) implies exists|
        d: int,
        j: int,
    |
        0 <= d < roots.len() && 0 <= j < roots[d]@.len() && listed_before(d, j, c, i + 1)
            && #[trigger] roots[d]@[j] == order[k] by {
        if k < order0.len() {
            assert(order[k] == order0[k]);
            assert(visited0[order0[k] as int]);
            assert(meta[order0[k] as int] == meta0[order0[k] as int]);
            assert(root_at(meta0, order0, k));
            let (d, j) = choose|d: int, j: int|
                0 <= d < roots.len() && 0 <= j < roots[d]@.len() && listed_before(d, j, c, i)
                    && #[trigger] roots[d]@[j] == order0[k];
            assert(roots[d]@[j] == order[k] && listed_before(d, j, c, i + 1));
        } else {
            assert(k == order0.len());
            assert(roots[c]@[i] == order[k] && listed_before(c, i, c, i + 1));
        }
    }
    assert forall|d: int, j: int, e: int, l: int|
        #![trigger roots[d]@[j], roots[e]@[l]]
        0 <= d < roots.len() && 0 <= j < roots[d]@.len() && 0 <= e < roots.len() && 0 <= l
            < roots[e]@.len() && listed_before(d, j, e, l) && listed_before(e, l, c, i + 1) implies meta[roots[d]@[j] as int].preorder_index
        < meta[roots[e]@[l] as int].preorder_index by {
        assert(listed_before(d, j, c, i));
        let first = roots[d]@[j] as int;
        assert(visited0[first]);
        assert(meta[first] == meta0[first]);
        if listed_before(e, l, c, i) {
            let second = roots[e]@[l] as int;
            assert(visited0[second]);
            assert(meta[second] == meta0[second]);
        } else {
            assert(e == c && l == i);
        }
    }
}

/// Once every root's tree is listed, every body is.
proof fn lemma_all_listed(
    bearings: Seq<CompiledBearing>,
    roots: Seq<Vec<u32>>,
    meta: Seq<MechanismBodyTopology>,
    visited: Seq<bool>,
    order: Seq<usize>,
)
    requires
        rows_connect_within(bearings, meta.len() as int),
        walk(bearings, meta, visited, order, order.len() as int),
        rooted(tree_links(bearings), roots, meta.len() as int),
        roots_listed(roots, meta, visited, order, roots.len() as int, 0),
    ensures
        hangs(bearings, roots, meta, order),
{
    let links = tree_links(bearings);
    let listed = Set::new(|x: int| 0 <= x < visited.len() && visited[x]);
    assert(visited.len() == meta.len()) by {
        reveal(walk);
    }
    assert(closed_under(listed, links)) by {
        assert forall|e: int| #![trigger links[e]] 0 <= e < links.len() implies (listed.contains(
            links[e].0,
        ) <==> listed.contains(links[e].1)) by {
            let row = bearings[e];
            if row.coordinate_index is Some {
                let a = row.compound_a as int;
                let b = row.compound_b as int;
                let forward = Hop { body: row.compound_b, bearing: row.source_bearing, direction: 0 };
                let backward = Hop { body: row.compound_a, bearing: row.source_bearing, direction: 1 };
                assert(row_offers(bearings, e, a, forward));
                assert(row_offers(bearings, e, b, backward));
                if visited[a] {
                    lemma_steps_taken(bearings, meta, visited, order, a, forward);
                }
                if visited[b] {
                    lemma_steps_taken(bearings, meta, visited, order, b, backward);
                }
            }
        }
    }
    assert forall|x: int| #![trigger visited[x]] 0 <= x < visited.len() implies visited[x] by {
        assert(joined_to_root(links, roots, x));
        let (c, i) = choose|c: int, i: int|
            0 <= c < roots.len() && 0 <= i < roots[c]@.len() && #[trigger] connected(
                links,
                roots[c]@[i] as int,
                x,
            );
        assert(listed_before(c, i, roots.len() as int, 0));
        assert(visited[roots[c]@[i] as int]);
        assert(listed.contains(roots[c]@[i] as int));
        assert(listed.contains(x));
    }
    lemma_walk_len(bearings, meta, visited, order, order.len() as int);
    reveal(walk);
    assert forall|x: int| #![trigger meta[x]] 0 <= x < meta.len() implies meta[x].preorder_index
        < meta.len() && order[meta[x].preorder_index as int] == x by {
        assert(visited[x]);
    }
    assert forall|x: int| #![trigger meta[x]] 0 <= x < meta.len() implies meta[x].depth < meta.len() by {
        assert(visited[x]);
        assert(row_fits(bearings, meta, order, meta[x].preorder_index as int));
    }
    assert forall|x: int| #![trigger meta[x]] 0 <= x < meta.len() && meta[x].is_root implies meta[x].component_index
        < roots.len() && roots[meta[x].component_index as int]@.contains(x as u32) by {
        assert(visited[x]);
        let k = meta[x].preorder_index as int;
        assert(order[k] == x);
        assert(root_at(meta, order, k));
        let (d, j) = choose|d: int, j: int|
            0 <= d < roots.len() && 0 <= j < roots[d]@.len() && listed_before(
                d,
                j,
                roots.len() as int,
                0,
            ) && #[trigger] roots[d]@[j] == order[k];
        assert(meta[roots[d]@[j] as int].component_index == d);
        assert(roots[d]@[j] == x as u32);
    }
    assert forall|c: int, i: int|
        #![trigger roots[c]@[i]]
        0 <= c < roots.len() && 0 <= i < roots[c]@.len() implies meta[roots[c]@[i] as int].is_root
        && meta[roots[c]@[i] as int].component_index == c by {
        assert(listed_before(c, i, roots.len() as int, 0));
    }
    assert forall|c: int, i: int, d: int, j: int|
        #![trigger roots[c]@[i], roots[d]@[j]]
        0 <= c < roots.len() && 0 <= i < roots[c]@.len() && 0 <= d < roots.len() && 0 <= j
            < roots[d]@.len() && listed_before(c, i, d, j) implies meta[roots[c]@[i] as int].preorder_index
        < meta[roots[d]@[j] as int].preorder_index by {
        assert(listed_before(d, j, roots.len() as int, 0));
    }
}

/// A step from a listed body leads to a listed body.
proof fn lemma_steps_taken(
    bearings: Seq<CompiledBearing>,
    meta: Seq<MechanismBodyTopology>,
    visited: Seq<bool>,
    order: Seq<usize>,
    x: int,
    hop: Hop,
)
    requires
        walk(bearings, meta, visited, order, order.len() as int),
        0 <= x < visited.len(),
        visited[x],
        is_hop(bearings, x, hop),
    ensures
        hop.body < visited.len(),
        visited[hop.body as int],
{
    reveal(walk);
    let k = meta[x].preorder_index as int;
    assert(order[k] == x);
    assert(is_hop(bearings, order[k] as int, hop));
}

/// Hangs the forest of `bearings` from `roots`.
pub(crate) fn hang_forest(
    bearings: &Vec<CompiledBearing>,
    roots: &Vec<Vec<u32>>,
    count: usize,
) -> (walked: (Vec<MechanismBodyTopology>, Vec<usize>))
    requires
        count <= u32::MAX,
        roots@.len() <= u32::MAX,
        rows_connect_within(bearings@, count as int),
        rooted(tree_links(bearings@), roots@, count as int),
    ensures
        walked.0@.len() == count,
        hangs(bearings@, roots@, walked.0@, walked.1@),
{
    let hops: Vec<OrderedSet<Hop>> = hops_by_body(bearings, count);
    let mut meta: Vec<MechanismBodyTopology> = Vec::new();
    let mut visited: Vec<bool> = Vec::new();
    let mut order: Vec<usize> = Vec::new();
    let mut body: usize = 0;
    while body < count
        invariant
            body <= count <= u32::MAX,
            meta@.len() == body,
            visited@.len() == body,
            forall|x: int| #![trigger visited@[x]] 0 <= x < body ==> !visited@[x],
        decreases count - body,
    {
        meta.push(
            MechanismBodyTopology {
                parent_body: body as u32,
                tree_bearing: None,
                bearing_direction: 0,
                component_index: 0,
                depth: 0,
                preorder_index: 0,
                postorder_index: 0,
                is_root: true,
            },
        );
        visited.push(false);
        body += 1;
    }
    proof {
        reveal(walk);
    }
    let mut c: usize = 0;
    while c < roots.len()
        invariant
            count <= u32::MAX,
            roots@.len() <= u32::MAX,
            c <= roots@.len(),
            rows_connect_within(bearings@, count as int),
            rooted(tree_links(bearings@), roots@, count as int),
            hops@.len() == count,
            hops_listed(bearings@, hops@),
            meta@.len() == count,
            visited@.len() == count,
            walk(bearings@, meta@, visited@, order@, order@.len() as int),
            roots_listed(roots@, meta@, visited@, order@, c as int, 0),
        decreases roots@.len() - c,
    {
        let mut i: usize = 0;
        while i < roots[c].len()
            invariant
                count <= u32::MAX,
                roots@.len() <= u32::MAX,
                c < roots@.len(),
                i <= roots@[c as int]@.len(),
                rows_connect_within(bearings@, count as int),
                rooted(tree_links(bearings@), roots@, count as int),
                hops@.len() == count,
                hops_listed(bearings@, hops@),
                meta@.len() == count,
                visited@.len() == count,
                walk(bearings@, meta@, visited@, order@, order@.len() as int),
                roots_listed(roots@, meta@, visited@, order@, c as int, i as int),
            decreases roots@[c as int]@.len() - i,
        {
            let root: usize = roots[c][i] as usize;
            let ghost meta0 = meta@;
            let ghost visited0 = visited@;
            let ghost order0 = order@;
            proof {
                assert(roots@[c as int]@[i as int] < count);
                lemma_root_is_fresh(
                    bearings@,
                    roots@,
                    meta@,
                    visited@,
                    order@,
                    c as int,
                    i as int,
                );
            }
            grow_tree(bearings, &hops, &mut meta, &mut visited, &mut order, root, c as u32);
            proof {
                assert((forall|k: int|
                    #![trigger order0[k]]
                    0 <= k < order0.len() ==> order0[k] < meta0.len() && visited0[order0[k] as int])
                    && (forall|x: int|
                    #![trigger visited0[x]]
                    0 <= x < visited0.len() && visited0[x] ==> meta0[x].preorder_index
                        < order0.len())) by {
                    reveal(walk);
                }
                lemma_roots_listed_next(
                    roots@,
                    meta0,
                    visited0,
                    order0,
                    meta@,
                    visited@,
                    order@,
                    c as int,
                    i as int,
                );
            }
            i += 1;
        }
        proof {
            lemma_next_component(roots@, meta@, visited@, order@, c as int);
        }
        c += 1;
    }
    proof {
        lemma_all_listed(bearings@, roots@, meta@, visited@, order@);
    }
    (meta, order)
}

/// After a component's last root comes the next component's first.
proof fn lemma_next_component(
    roots: Seq<Vec<u32>>,
    meta: Seq<MechanismBodyTopology>,
    visited: Seq<bool>,
    order: Seq<usize>,
    c: int,
)
    requires
        0 <= c < roots.len(),
        roots_listed(roots, meta, visited, order, c, roots[c]@.len() as int),
    ensures
        roots_listed(roots, meta, visited, order, c + 1, 0),
{
    let i = roots[c]@.len() as int;
    assert forall|d: int, j: int|
        0 <= d < roots.len() && 0 <= j < roots[d]@.len() implies #[trigger] listed_before(
        d,
        j,
        c + 1,
        0,
    ) == listed_before(d, j, c, i) by {}
    assert forall|k: int| #![trigger order[k]] 0 <= k < order.len() && root_at(meta, order, k) implies exists|
        d: int,
        j: int,
    |
        0 <= d < roots.len() && 0 <= j < roots[d]@.len() && listed_before(d, j, c + 1, 0)
            && #[trigger] roots[d]@[j] == order[k] by {
        let (d, j) = choose|d: int, j: int|
            0 <= d < roots.len() && 0 <= j < roots[d]@.len() && listed_before(d, j, c, i)
                && #[trigger] roots[d]@[j] == order[k];
        assert(roots[d]@[j] == order[k] && listed_before(d, j, c + 1, 0));
    }
}

/// A body hangs on its parent by a joint with a coordinate between the two:
/// counted as forward where the joint leads from the parent to the body, and as
/// backward the other way. It stands one step further from its root, behind its
/// parent and in its component; a root hangs on nothing.
pub proof fn bodies_hang_on_a_joint_with_their_parent(
    bearings: Seq<CompiledBearing>,
    roots: Seq<Vec<u32>>,
    meta: Seq<MechanismBodyTopology>,
    order: Seq<usize>,
    x: int,
)
    requires
        hangs(bearings, roots, meta, order),
        0 <= x < meta.len() <= u32::MAX,
    ensures
        ({
            let row = meta[x];
            let parent = meta[row.parent_body as int];
            &&& row.is_root ==> row.depth == 0 && row.tree_bearing is None && row.parent_body == x
            &&& !row.is_root ==> row.parent_body < meta.len() && row.depth == parent.depth + 1
                && row.component_index == parent.component_index && parent.preorder_index
                < row.preorder_index
            &&& !row.is_root ==> exists|e: int|
                #![trigger bearings[e]]
                0 <= e < bearings.len() && bearings[e].coordinate_index is Some && Some(
                    bearings[e].source_bearing,
                ) == row.tree_bearing && ((row.bearing_direction == 0 && bearings[e].compound_a
                    == row.parent_body && bearings[e].compound_b == x) || (row.bearing_direction
                    == 1 && bearings[e].compound_b == row.parent_body && bearings[e].compound_a
                    == x))
        }),
{
    let row = meta[x];
    let k = row.preorder_index as int;
    assert(row_fits(bearings, meta, order, k));
    assert(order[k] == x);
    if !row.is_root {
        let parent = row.parent_body as int;
        let hop = entry_hop(meta, x);
        assert(is_hop(bearings, parent, hop));
        let e = choose|e: int|
            0 <= e < bearings.len() && #[trigger] row_offers(bearings, e, parent, hop);
        let joint = bearings[e];
    }
}

/// Steps are ordered by the body that they reach, then by their joint.
pub proof fn hops_are_ordered_by_body_then_joint(a: Hop, b: Hop)
    ensures
        a.body < b.body ==> a.rank() < b.rank(),
        a.body == b.body && a.bearing.rank() < b.bearing.rank() ==> a.rank() < b.rank(),
        a.body == b.body && a.bearing == b.bearing && a.direction < b.direction ==> a.rank()
            < b.rank(),
{
    lemma_handle_rank(a.bearing.index, a.bearing.generation, b.bearing.index, b.bearing.generation);
    let p = a.bearing.rank();
    let q = b.bearing.rank();
    assert(0 <= p < 0x1_0000_0000_0000_0000 && 0 <= q < 0x1_0000_0000_0000_0000);
}

/// A forest is walked tree by tree and each tree from its root outwards: bodies
/// of one parent come in row order, and those of an earlier parent first.
pub proof fn forests_are_walked_outwards(
    bearings: Seq<CompiledBearing>,
    roots: Seq<Vec<u32>>,
    meta: Seq<MechanismBodyTopology>,
    order: Seq<usize>,
    i: int,
    j: int,
)
    requires
        hangs(bearings, roots, meta, order),
        0 <= i < j < order.len(),
        forall|r: int|
            #![trigger order[r]]
            i <= r <= j ==> !meta[order[r] as int].is_root,
    ensures
        ({
            let before = meta[order[i] as int];
            let after = meta[order[j] as int];
            &&& meta[before.parent_body as int].preorder_index
                <= meta[after.parent_body as int].preorder_index
            &&& before.parent_body == after.parent_body ==> order[i] < order[j]
        }),
{
    assert(same_tree(meta, order, i, j)) by {
        assert forall|r: int| #![trigger root_at(meta, order, r)] i <= r <= j implies !root_at(
            meta,
            order,
            r,
        ) by {
            let body = order[r];
        }
    }
    let a = order[i];
    let b = order[j];
    assert(row_fits(bearings, meta, order, i));
    assert(row_fits(bearings, meta, order, j));
}

} // verus!
