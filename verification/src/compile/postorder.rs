//! Children-before-root numbering and contraction rounds.

use vstd::prelude::*;

use super::model::MechanismBodyTopology;

verus! {

/// The bodies at one depth among the first `count`, in row order.
pub open spec fn bodies_at(meta: Seq<MechanismBodyTopology>, depth: int, count: int) -> Seq<u32>
    decreases count,
{
    if count <= 0 {
        Seq::empty()
    } else if meta[count - 1].depth == depth {
        bodies_at(meta, depth, count - 1).push((count - 1) as u32)
    } else {
        bodies_at(meta, depth, count - 1)
    }
}

/// Whether body `x` is contracted before body `y`: deeper bodies first, rows of one depth in order.
pub open spec fn contracts_before(meta: Seq<MechanismBodyTopology>, x: int, y: int) -> bool {
    meta[x].depth > meta[y].depth || (meta[x].depth == meta[y].depth && x < y)
}

/// Whether postorder positions number the bodies in contraction order.
pub open spec fn postordered(meta: Seq<MechanismBodyTopology>) -> bool {
    &&& forall|x: int|
        #![trigger meta[x]]
        0 <= x < meta.len() ==> meta[x].postorder_index < meta.len()
    &&& forall|x: int, y: int|
        #![trigger meta[x], meta[y]]
        0 <= x < meta.len() && 0 <= y < meta.len() && x != y ==> (meta[x].postorder_index
            < meta[y].postorder_index <==> contracts_before(meta, x, y))
}

/// Whether `deepest` is the greatest depth, or zero of no bodies.
pub open spec fn is_deepest(meta: Seq<MechanismBodyTopology>, deepest: int) -> bool {
    &&& forall|x: int| #![trigger meta[x]] 0 <= x < meta.len() ==> meta[x].depth <= deepest
    &&& meta.len() == 0 ==> deepest == 0
    &&& meta.len() > 0 ==> exists|x: int|
        0 <= x < meta.len() && (#[trigger] meta[x]).depth == deepest
}

/// Whether the rounds list the bodies below each root, deepest first.
pub open spec fn contracts(meta: Seq<MechanismBodyTopology>, rounds: Seq<Vec<u32>>) -> bool {
    &&& is_deepest(meta, rounds.len() as int)
    &&& forall|r: int|
        #![trigger rounds[r]]
        0 <= r < rounds.len() ==> rounds[r]@ == bodies_at(meta, rounds.len() - r, meta.len() as int)
}

/// Whether only postorder positions differ.
pub open spec fn renumbered(
    before: Seq<MechanismBodyTopology>,
    after: Seq<MechanismBodyTopology>,
) -> bool {
    &&& after.len() == before.len()
    &&& forall|x: int|
        #![trigger after[x]]
        0 <= x < before.len() ==> after[x] == (MechanismBodyTopology {
            postorder_index: after[x].postorder_index,
            ..before[x]
        })
}

/// Only depths matter to the bodies listed.
proof fn lemma_bodies_at(
    before: Seq<MechanismBodyTopology>,
    after: Seq<MechanismBodyTopology>,
    depth: int,
    count: int,
)
    requires
        renumbered(before, after),
        count <= before.len(),
    ensures
        bodies_at(before, depth, count) == bodies_at(after, depth, count),
    decreases count,
{
    if count > 0 {
        lemma_bodies_at(before, after, depth, count - 1);
        assert(after[count - 1].depth == before[count - 1].depth);
    }
}

/// Whether the bodies numbered so far are those of `listed`, in contraction order.
spec fn numbered(
    meta: Seq<MechanismBodyTopology>,
    listed: Seq<int>,
    depth: int,
    body: int,
) -> bool {
    &&& forall|k: int|
        #![trigger listed[k]]
        0 <= k < listed.len() ==> 0 <= listed[k] < meta.len() && meta[listed[k]].postorder_index == k
    &&& forall|x: int|
        #![trigger meta[x]]
        0 <= x < meta.len() && (meta[x].depth > depth || (meta[x].depth == depth && x < body))
            ==> meta[x].postorder_index < listed.len() && listed[meta[x].postorder_index as int] == x
    &&& forall|k: int|
        #![trigger listed[k]]
        0 <= k < listed.len() ==> meta[listed[k]].depth > depth || (meta[listed[k]].depth == depth
            && listed[k] < body)
    &&& forall|j: int, k: int|
        #![trigger listed[j], listed[k]]
        0 <= j < k < listed.len() ==> contracts_before(meta, listed[j], listed[k])
}

/// Distinct bodies are no more than there are rows.
proof fn lemma_listed_len(meta: Seq<MechanismBodyTopology>, listed: Seq<int>, depth: int, body: int)
    requires
        numbered(meta, listed, depth, body),
    ensures
        listed.len() <= meta.len(),
        (exists|x: int| 0 <= x < meta.len() && !#[trigger] listed.contains(x)) ==> listed.len()
            < meta.len(),
{
    assert(listed.no_duplicates()) by {
        assert forall|i: int, j: int| 0 <= i < listed.len() && 0 <= j < listed.len() && i != j implies listed[i]
            != listed[j] by {
            assert(meta[listed[i]].postorder_index == i);
            assert(meta[listed[j]].postorder_index == j);
        }
    }
    let all = vstd::set_lib::set_int_range(0, meta.len() as int);
    vstd::set_lib::lemma_int_range(0, meta.len() as int);
    listed.unique_seq_to_set();
    assert(listed.to_set().subset_of(all));
    vstd::set_lib::lemma_len_subset(listed.to_set(), all);
    if exists|x: int| 0 <= x < meta.len() && !#[trigger] listed.contains(x) {
        let x = choose|x: int| 0 <= x < meta.len() && !#[trigger] listed.contains(x);
        if listed.len() == meta.len() {
            vstd::set_lib::lemma_subset_equality(listed.to_set(), all);
            assert(all.contains(x));
            assert(listed.to_set().contains(x));
        }
    }
}

/// The greatest depth of any body.
fn deepest_of(meta: &Vec<MechanismBodyTopology>) -> (deepest: u32)
    ensures
        is_deepest(meta@, deepest as int),
{
    let mut deepest: u32 = 0;
    let mut x: usize = 0;
    while x < meta.len()
        invariant
            x <= meta@.len(),
            forall|y: int| #![trigger meta@[y]] 0 <= y < x ==> meta@[y].depth <= deepest,
            x == 0 ==> deepest == 0,
            x > 0 ==> exists|y: int| 0 <= y < x && (#[trigger] meta@[y]).depth == deepest,
        decreases meta@.len() - x,
    {
        if meta[x].depth >= deepest {
            deepest = meta[x].depth;
            assert(meta@[x as int].depth == deepest);
        }
        x += 1;
    }
    deepest
}

/// Numbers bodies from the deepest up, and lists each depth below the roots.
pub fn number_postorder(meta: &mut Vec<MechanismBodyTopology>) -> (rounds: Vec<Vec<u32>>)
    requires
        old(meta)@.len() <= u32::MAX,
        forall|x: int|
            #![trigger old(meta)@[x]]
            0 <= x < old(meta)@.len() ==> old(meta)@[x].depth < old(meta)@.len(),
    ensures
        renumbered(old(meta)@, final(meta)@),
        postordered(final(meta)@),
        contracts(final(meta)@, rounds@),
{
    let ghost start = meta@;
    let count: usize = meta.len();
    let deepest: u32 = deepest_of(meta);
    let mut rounds: Vec<Vec<u32>> = Vec::new();
    let mut next: u32 = 0;
    let ghost mut listed: Seq<int> = Seq::empty();
    let mut depth: u32 = deepest;
    let mut done: bool = false;
    assert(renumbered(start, meta@));
    while !done
        invariant
            count == meta@.len(),
            count <= u32::MAX,
            renumbered(start, meta@),
            is_deepest(meta@, deepest as int),
            next == listed.len(),
            depth <= deepest,
            done ==> depth == 0 && rounds@.len() == deepest && numbered(
                meta@,
                listed,
                0,
                count as int,
            ),
            !done ==> rounds@.len() == deepest - depth && numbered(
                meta@,
                listed,
                depth as int,
                0,
            ),
            forall|r: int|
                #![trigger rounds@[r]]
                0 <= r < rounds@.len() ==> rounds@[r]@ == bodies_at(
                    start,
                    deepest - r,
                    count as int,
                ),
        decreases depth, (if done { 0int } else { 1int }),
    {
        let mut round: Vec<u32> = Vec::new();
        let mut body: usize = 0;
        while body < count
            invariant
                body <= count,
                count == meta@.len(),
                count <= u32::MAX,
                renumbered(start, meta@),
                is_deepest(meta@, deepest as int),
                next == listed.len(),
                numbered(meta@, listed, depth as int, body as int),
                round@ == bodies_at(start, depth as int, body as int),
            decreases count - body,
        {
            assert(meta@[body as int].depth == start[body as int].depth);
            if meta[body].depth == depth {
                proof {
                    assert(!listed.contains(body as int)) by {
                        if listed.contains(body as int) {
                            let k = listed.index_of(body as int);
                            assert(listed[k] == body);
                        }
                    }
                    lemma_listed_len(meta@, listed, depth as int, body as int);
                }
                let ghost before = meta@;
                let mut row: MechanismBodyTopology = meta[body];
                row.postorder_index = next;
                meta.set(body, row);
                proof {
                    let longer = listed.push(body as int);
                    let after = meta@;
                    assert(after == before.update(body as int, row));
                    assert forall|x: int| #![trigger after[x]] 0 <= x < after.len() implies after[x].depth
                        == before[x].depth && after[x] == (MechanismBodyTopology {
                        postorder_index: after[x].postorder_index,
                        ..start[x]
                    }) by {
                        assert(before[x] == (MechanismBodyTopology {
                            postorder_index: before[x].postorder_index,
                            ..start[x]
                        }));
                    }
                    assert forall|k: int| 0 <= k < listed.len() implies #[trigger] listed[k] != body by {
                        if listed[k] == body {
                            assert(listed.contains(body as int));
                        }
                    }
                    assert(is_deepest(after, deepest as int)) by {
                        let y = choose|y: int|
                            0 <= y < before.len() && (#[trigger] before[y]).depth == deepest;
                        assert(after[y].depth == deepest);
                        assert forall|x: int| #![trigger after[x]] 0 <= x < after.len() implies after[x].depth
                            <= deepest by {
                            assert(before[x].depth <= deepest);
                        }
                    }
                    assert(numbered(after, longer, depth as int, body + 1)) by {
                        assert forall|k: int| #![trigger longer[k]] 0 <= k < longer.len() implies 0
                            <= longer[k] < after.len() && after[longer[k]].postorder_index == k && (
                        after[longer[k]].depth > depth || (after[longer[k]].depth == depth && longer[k]
                            < body + 1)) by {
                            if k < listed.len() {
                                assert(longer[k] == listed[k]);
                                assert(after[longer[k]] == before[listed[k]]);
                            }
                        }
                        assert forall|x: int| #![trigger after[x]] 0 <= x < after.len() && (after[x].depth
                            > depth || (after[x].depth == depth && x < body + 1)) implies after[x].postorder_index
                            < longer.len() && longer[after[x].postorder_index as int] == x by {
                            if x != body {
                                assert(before[x] == after[x]);
                            }
                        }
                        assert forall|j: int, k: int| #![trigger longer[j], longer[k]]
                            0 <= j < k < longer.len() implies contracts_before(
                            after,
                            longer[j],
                            longer[k],
                        ) by {
                            assert(longer[j] == listed[j]);
                            assert(after[longer[j]] == before[listed[j]]);
                            if k < listed.len() {
                                assert(longer[k] == listed[k]);
                                assert(after[longer[k]] == before[listed[k]]);
                                assert(contracts_before(before, listed[j], listed[k]));
                            } else {
                                assert(before[listed[j]].depth > depth || (before[listed[j]].depth
                                    == depth && listed[j] < body));
                            }
                        }
                    }
                    listed = longer;
                }
                round.push(body as u32);
                next = next + 1;
            } else {
                assert(numbered(meta@, listed, depth as int, body + 1));
            }
            body += 1;
        }
        if depth == 0 {
            done = true;
        } else {
            rounds.push(round);
            depth = depth - 1;
            assert(numbered(meta@, listed, depth as int, 0));
        }
    }
    proof {
        let after = meta@;
        assert forall|x: int| #![trigger after[x]] 0 <= x < after.len() implies after[x].postorder_index
            < after.len() && listed[after[x].postorder_index as int] == x by {
            lemma_listed_len(after, listed, 0, count as int);
        }
        assert forall|x: int, y: int| #![trigger after[x], after[y]]
            0 <= x < after.len() && 0 <= y < after.len() && x != y implies (after[x].postorder_index
            < after[y].postorder_index <==> contracts_before(after, x, y)) by {
            let j = after[x].postorder_index as int;
            let k = after[y].postorder_index as int;
            assert(listed[j] == x && listed[k] == y);
            if j < k {
                assert(contracts_before(after, listed[j], listed[k]));
            } else {
                assert(j != k);
                assert(contracts_before(after, listed[k], listed[j]));
            }
        }
        assert forall|r: int| #![trigger rounds@[r]] 0 <= r < rounds@.len() implies rounds@[r]@
            == bodies_at(after, rounds@.len() - r, after.len() as int) by {
            lemma_bodies_at(start, after, deepest - r, count as int);
        }
    }
    rounds
}

/// A body is contracted before the one it hangs on: it has the smaller place in
/// the postorder, and stands in the round right before.
pub proof fn bodies_contract_before_their_parents(
    meta: Seq<MechanismBodyTopology>,
    rounds: Seq<Vec<u32>>,
    x: int,
    r: int,
)
    requires
        postordered(meta),
        contracts(meta, rounds),
        0 <= x < meta.len() <= u32::MAX,
        0 <= r < rounds.len(),
        meta[x].parent_body < meta.len(),
        meta[x].depth == meta[meta[x].parent_body as int].depth + 1,
    ensures
        meta[x].postorder_index < meta[meta[x].parent_body as int].postorder_index,
        rounds[r]@.contains(x as u32) <==> meta[x].depth + r == rounds.len(),
        rounds[r]@.contains(x as u32) && r + 1 < rounds.len() ==> rounds[r + 1]@.contains(
            meta[x].parent_body,
        ),
{
    let parent = meta[x].parent_body as int;
    let above = meta[parent];
    assert(contracts_before(meta, x, parent));
    lemma_listed_at(meta, rounds.len() - r, meta.len() as int, x as u32);
    let here = rounds[r];
    if r + 1 < rounds.len() {
        lemma_listed_at(meta, rounds.len() - (r + 1), meta.len() as int, parent as u32);
        let next = rounds[r + 1];
    }
}

/// Which bodies are at a depth.
proof fn lemma_listed_at(meta: Seq<MechanismBodyTopology>, depth: int, count: int, body: u32)
    requires
        0 <= count <= meta.len() <= u32::MAX,
    ensures
        bodies_at(meta, depth, count).contains(body) <==> body < count && meta[body as int].depth
            == depth,
    decreases count,
{
    if count > 0 {
        broadcast use vstd::seq_lib::group_seq_properties;

        lemma_listed_at(meta, depth, count - 1, body);
    }
}

/// Numbering changes a body's place in the postorder and nothing else.
pub proof fn numbering_keeps_the_forest(
    before: Seq<MechanismBodyTopology>,
    after: Seq<MechanismBodyTopology>,
    x: int,
)
    requires
        renumbered(before, after),
        0 <= x < before.len(),
    ensures
        after.len() == before.len(),
        after[x].parent_body == before[x].parent_body && after[x].tree_bearing
            == before[x].tree_bearing && after[x].bearing_direction == before[x].bearing_direction,
        after[x].depth == before[x].depth && after[x].preorder_index == before[x].preorder_index
            && after[x].is_root == before[x].is_root && after[x].component_index
            == before[x].component_index,
{
    let row = after[x];
}

/// Bodies at one distance from their roots are numbered in row order, and nearer
/// ones behind all that are further away.
pub proof fn further_bodies_are_numbered_first(meta: Seq<MechanismBodyTopology>, x: int, y: int)
    requires
        postordered(meta),
        0 <= x < meta.len(),
        0 <= y < meta.len(),
    ensures
        meta[x].depth == meta[y].depth && x < y ==> meta[x].postorder_index
            < meta[y].postorder_index,
        meta[x].depth > meta[y].depth ==> meta[x].postorder_index < meta[y].postorder_index,
        x != y ==> meta[x].postorder_index != meta[y].postorder_index,
{
    if x != y {
        assert(contracts_before(meta, x, y) || contracts_before(meta, y, x));
    }
}

} // verus!
