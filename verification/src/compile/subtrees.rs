//! The bodies that a joint carries.

use vstd::prelude::*;

use super::model::{CompiledBearing, MechanismBodyTopology};
use super::topology::{hung, LoopTopology};
use super::tree::{hangs, row_fits};
use crate::ids::BearingId;

verus! {

/// Whether a body's parent stands nearer to a root.
pub open spec fn parent_nearer(meta: Seq<MechanismBodyTopology>, body: int) -> bool {
    meta[body].parent_body < meta.len() && meta[meta[body].parent_body as int].depth
        < meta[body].depth
}

/// Whether parents stand nearer to a root than their children.
pub open spec fn parents_nearer(meta: Seq<MechanismBodyTopology>) -> bool {
    forall|body: int|
        0 <= body < meta.len() && !meta[body].is_root ==> #[trigger] parent_nearer(meta, body)
}

/// Whether a body hangs on another directly.
pub open spec fn child_of(meta: Seq<MechanismBodyTopology>, child: int, parent: int) -> bool {
    0 <= child < meta.len() && !meta[child].is_root && meta[child].parent_body == parent
}

/// Whether a body is another, or hangs on it within `steps` joints.
pub open spec fn hangs_within(
    meta: Seq<MechanismBodyTopology>,
    body: int,
    top: int,
    steps: nat,
) -> bool
    decreases steps,
{
    body == top || (steps > 0 && 0 <= body < meta.len() && !meta[body].is_root && hangs_within(
        meta,
        meta[body].parent_body as int,
        top,
        (steps - 1) as nat,
    ))
}

/// Whether a body is another or hangs on it.
pub open spec fn hangs_on(meta: Seq<MechanismBodyTopology>, body: int, top: int) -> bool {
    exists|steps: nat| #[trigger] hangs_within(meta, body, top, steps)
}

/// A body that hangs on another stands no nearer to a root.
proof fn lemma_depth(meta: Seq<MechanismBodyTopology>, body: int, top: int, steps: nat)
    requires
        parents_nearer(meta),
        hangs_within(meta, body, top, steps),
        0 <= body < meta.len(),
    ensures
        meta[top].depth <= meta[body].depth,
    decreases steps,
{
    if body != top {
        assert(parent_nearer(meta, body));
        lemma_depth(meta, meta[body].parent_body as int, top, (steps - 1) as nat);
    }
}

/// A body behind one that hangs on the top hangs there too.
proof fn lemma_child_hangs(meta: Seq<MechanismBodyTopology>, child: int, parent: int, top: int)
    requires
        child_of(meta, child, parent),
        hangs_on(meta, parent, top),
    ensures
        hangs_on(meta, child, top),
{
    let steps = choose|steps: nat| #[trigger] hangs_within(meta, parent, top, steps);
    assert(hangs_within(meta, child, top, steps + 1));
}

/// Whether every child of a listed body is listed or waiting.
pub open spec fn children_held(
    meta: Seq<MechanismBodyTopology>,
    visited: Seq<u32>,
    waiting: Seq<u32>,
) -> bool {
    forall|i: int, child: int|
        0 <= i < visited.len() && #[trigger] child_of(meta, child, visited[i] as int)
            ==> visited.contains(child as u32) || waiting.contains(child as u32)
}

/// Whether a body hangs on one of the first `count`.
pub open spec fn hangs_among(
    meta: Seq<MechanismBodyTopology>,
    body: u32,
    bodies: Seq<u32>,
    count: int,
) -> bool {
    exists|k: int| 0 <= k < count && #[trigger] child_of(meta, body as int, bodies[k] as int)
}

/// Whether every body but the first comes behind its parent.
pub open spec fn parents_first(meta: Seq<MechanismBodyTopology>, bodies: Seq<u32>) -> bool {
    forall|i: int| 0 < i < bodies.len() ==> #[trigger] hangs_among(meta, bodies[i], bodies, i)
}

/// Bodies that hold all their children hold all that hangs on them.
proof fn lemma_closed(
    meta: Seq<MechanismBodyTopology>,
    visited: Seq<u32>,
    top: u32,
    body: int,
    steps: nat,
)
    requires
        children_held(meta, visited, Seq::<u32>::empty()),
        visited.contains(top),
        0 <= body < meta.len(),
        meta.len() <= u32::MAX,
        hangs_within(meta, body, top as int, steps),
    ensures
        visited.contains(body as u32),
    decreases steps,
{
    if body != top as int {
        let parent = meta[body].parent_body as int;
        if parent < meta.len() {
            lemma_closed(meta, visited, top, parent, (steps - 1) as nat);
            let i = choose|i: int| 0 <= i < visited.len() && visited[i] == parent as u32;
            assert(child_of(meta, body, visited[i] as int));
            assert(visited[i] == parent as u32 && meta[body].parent_body == parent);
        } else {
            assert(hangs_within(meta, parent, top as int, (steps - 1) as nat));
            assert(parent == top as int);
            let i = choose|i: int| 0 <= i < visited.len() && visited[i] == top;
            assert(child_of(meta, body, visited[i] as int));
            assert(visited[i] == top && meta[body].parent_body == parent);
        }
    }
}

/// Distinct rows below a count are no more than it.
proof fn lemma_distinct_rows(rows: Seq<u32>, count: nat)
    requires
        rows.no_duplicates(),
        forall|i: int| #![trigger rows[i]] 0 <= i < rows.len() ==> rows[i] < count,
    ensures
        rows.len() <= count,
    decreases count,
{
    if count == 0 {
        if rows.len() > 0 {
            assert(rows[0] < 0);
        }
    } else if rows.contains((count - 1) as u32) {
        let at = choose|at: int| 0 <= at < rows.len() && rows[at] == (count - 1) as u32;
        let rest = rows.remove(at);
        assert forall|i: int| #![trigger rest[i]] 0 <= i < rest.len() implies rest[i] < count - 1 by {
            let from = if i < at {
                i
            } else {
                i + 1
            };
            assert(rest[i] == rows[from]);
            assert(rows[from] != rows[at]);
        }
        assert(rest.no_duplicates()) by {
            assert forall|i: int, j: int| 0 <= i < rest.len() && 0 <= j < rest.len() && i
                != j implies rest[i] != rest[j] by {
                let a = if i < at {
                    i
                } else {
                    i + 1
                };
                let b = if j < at {
                    j
                } else {
                    j + 1
                };
                assert(rest[i] == rows[a]);
                assert(rest[j] == rows[b]);
            }
        }
        lemma_distinct_rows(rest, (count - 1) as nat);
    } else {
        assert forall|i: int| #![trigger rows[i]] 0 <= i < rows.len() implies rows[i] < count - 1 by {
            assert(rows.contains(rows[i]));
        }
        lemma_distinct_rows(rows, (count - 1) as nat);
    }
}

/// Whether bodies are listed and waiting as a walk down from the top leaves them.
pub open spec fn walking(
    meta: Seq<MechanismBodyTopology>,
    top: u32,
    visited: Seq<u32>,
    waiting: Seq<u32>,
) -> bool {
    &&& (visited + waiting).no_duplicates()
    &&& forall|i: int|
        #![trigger visited[i]]
        0 <= i < visited.len() ==> visited[i] < meta.len() && hangs_on(
            meta,
            visited[i] as int,
            top as int,
        )
    &&& forall|i: int|
        #![trigger waiting[i]]
        0 <= i < waiting.len() ==> waiting[i] < meta.len() && hangs_on(
            meta,
            waiting[i] as int,
            top as int,
        )
    &&& visited.len() == 0 ==> waiting == seq![top]
    &&& visited.len() > 0 ==> visited[0] == top
    &&& children_held(meta, visited, waiting)
    &&& parents_first(meta, visited)
    &&& visited.len() > 0 ==> waiting_hang(meta, visited, waiting)
}

/// Whether every waiting body hangs on a listed one.
pub open spec fn waiting_hang(
    meta: Seq<MechanismBodyTopology>,
    visited: Seq<u32>,
    waiting: Seq<u32>,
) -> bool {
    forall|i: int|
        0 <= i < waiting.len() ==> #[trigger] hangs_among(
            meta,
            waiting[i],
            visited,
            visited.len() as int,
        )
}

/// Whether a body's children follow rows that were waiting.
pub open spec fn children_follow(
    meta: Seq<MechanismBodyTopology>,
    body: u32,
    rest: Seq<u32>,
    waiting: Seq<u32>,
    count: int,
) -> bool {
    &&& rest.len() <= waiting.len()
    &&& forall|i: int| #![trigger waiting[i]] 0 <= i < rest.len() ==> waiting[i] == rest[i]
    &&& forall|i: int|
        #![trigger waiting[i]]
        rest.len() <= i < waiting.len() ==> waiting[i] < count && child_of(
            meta,
            waiting[i] as int,
            body as int,
        )
    &&& forall|i: int, j: int|
        #![trigger waiting[i], waiting[j]]
        rest.len() <= i < j < waiting.len() ==> waiting[i] < waiting[j]
    &&& forall|c: int|
        0 <= c < count && #[trigger] child_of(meta, c, body as int) ==> waiting.subrange(
            rest.len() as int,
            waiting.len() as int,
        ).contains(c as u32)
}

/// Puts a body's children behind the waiting ones, in order.
fn push_children(meta: &Vec<MechanismBodyTopology>, body: u32, waiting: &mut Vec<u32>)
    requires
        meta@.len() <= u32::MAX,
    ensures
        children_follow(meta@, body, old(waiting)@, final(waiting)@, meta@.len() as int),
{
    let ghost rest = waiting@;
    let mut child: usize = 0;
    while child < meta.len()
        invariant
            meta@.len() <= u32::MAX,
            child <= meta@.len(),
            children_follow(meta@, body, rest, waiting@, child as int),
        decreases meta@.len() - child,
    {
        let ghost before = waiting@;
        if !meta[child].is_root && meta[child].parent_body == body {
            waiting.push(child as u32);
        }
        proof {
            let from = rest.len() as int;
            let held = before.subrange(from, before.len() as int);
            let now = waiting@.subrange(from, waiting@.len() as int);
            assert forall|c: int|
                0 <= c < child + 1 && #[trigger] child_of(
                    meta@,
                    c,
                    body as int,
                ) implies now.contains(c as u32) by {
                if c == child {
                    assert(now[now.len() - 1] == child as u32);
                } else {
                    assert(held.contains(c as u32));
                    let i = choose|i: int| 0 <= i < held.len() && held[i] == c as u32;
                    assert(now[i] == held[i]);
                }
            }
        }
        child += 1;
    }
}

/// Listing a waiting body and putting its children behind the others goes on
/// with the walk.
proof fn lemma_step(
    meta: Seq<MechanismBodyTopology>,
    top: u32,
    visited: Seq<u32>,
    rest: Seq<u32>,
    body: u32,
    waiting: Seq<u32>,
)
    requires
        parents_nearer(meta),
        top < meta.len() <= u32::MAX,
        walking(meta, top, visited, rest.push(body)),
        children_follow(meta, body, rest, waiting, meta.len() as int),
    ensures
        walking(meta, top, visited.push(body), waiting),
{
    let before = rest.push(body);
    let listed = visited.push(body);
    let all = visited + before;
    let last = visited.len() as int + rest.len();
    assert(before[rest.len() as int] == body);
    assert(all[last] == body);
    lemma_fresh(meta, visited, before, body, top);
    assert(listed.no_duplicates()) by {
        assert forall|i: int, j: int|
            0 <= i < listed.len() && 0 <= j < listed.len() && i != j implies listed[i]
            != listed[j] by {
            let a = if i < visited.len() {
                i
            } else {
                last
            };
            let b = if j < visited.len() {
                j
            } else {
                last
            };
            assert(all[a] == listed[i]);
            assert(all[b] == listed[j]);
        }
    }
    assert(rest.no_duplicates()) by {
        assert forall|i: int, j: int|
            0 <= i < rest.len() && 0 <= j < rest.len() && i != j implies rest[i] != rest[j] by {
            assert(all[visited.len() + i] == rest[i]);
            assert(all[visited.len() + j] == rest[j]);
        }
    }
    assert forall|a: int, b: int| 0 <= a < listed.len() && 0 <= b < rest.len() implies listed[a]
        != rest[b] by {
        let from = if a < visited.len() {
            a
        } else {
            last
        };
        assert(all[from] == listed[a]);
        assert(all[visited.len() + b] == rest[b]);
    }
    assert forall|k: int| #![trigger listed[k]] 0 <= k < listed.len() implies !child_of(
        meta,
        listed[k] as int,
        body as int,
    ) by {
        if k < visited.len() {
            assert(listed[k] == visited[k]);
        } else {
            assert(before[rest.len() as int] == listed[k]);
        }
    }
    assert forall|k: int| #![trigger rest[k]] 0 <= k < rest.len() implies !child_of(
        meta,
        rest[k] as int,
        body as int,
    ) by {
        assert(before[k] == rest[k]);
    }
    let whole = listed + waiting;
    assert(whole.no_duplicates()) by {
        assert forall|i: int, j: int|
            0 <= i < whole.len() && 0 <= j < whole.len() && i != j implies whole[i] != whole[j] by {
            lemma_apart(meta, listed, rest, waiting, body, i, j);
        }
    }
    assert forall|i: int| #![trigger waiting[i]] 0 <= i < waiting.len() implies waiting[i]
        < meta.len() && hangs_on(meta, waiting[i] as int, top as int) by {
        if i < rest.len() {
            assert(waiting[i] == before[i]);
        } else {
            lemma_child_hangs(meta, waiting[i] as int, body as int, top as int);
        }
    }
    lemma_step_children(meta, visited, rest, body, waiting);
    lemma_step_parents(meta, top, visited, rest, body, waiting);
}

/// Children of listed bodies stay listed or waiting.
proof fn lemma_step_children(
    meta: Seq<MechanismBodyTopology>,
    visited: Seq<u32>,
    rest: Seq<u32>,
    body: u32,
    waiting: Seq<u32>,
)
    requires
        children_held(meta, visited, rest.push(body)),
        children_follow(meta, body, rest, waiting, meta.len() as int),
        meta.len() <= u32::MAX,
    ensures
        children_held(meta, visited.push(body), waiting),
{
    let before = rest.push(body);
    let listed = visited.push(body);
    assert forall|i: int, c: int|
        0 <= i < listed.len() && #[trigger] child_of(
            meta,
            c,
            listed[i] as int,
        ) implies listed.contains(c as u32) || waiting.contains(c as u32) by {
        if i < visited.len() {
            assert(listed[i] == visited[i]);
            if visited.contains(c as u32) {
                let k = choose|k: int| 0 <= k < visited.len() && visited[k] == c as u32;
                assert(listed[k] == c as u32);
            } else {
                assert(before.contains(c as u32));
                let k = choose|k: int| 0 <= k < before.len() && before[k] == c as u32;
                if k < rest.len() {
                    assert(waiting[k] == c as u32);
                } else {
                    assert(listed[visited.len() as int] == c as u32);
                }
            }
        } else {
            assert(child_of(meta, c, body as int));
            let now = waiting.subrange(rest.len() as int, waiting.len() as int);
            assert(now.contains(c as u32));
            let k = choose|k: int| 0 <= k < now.len() && now[k] == c as u32;
            assert(waiting[rest.len() + k] == c as u32);
        }
    }
}

/// Parents of listed and waiting bodies stay listed before them.
proof fn lemma_step_parents(
    meta: Seq<MechanismBodyTopology>,
    top: u32,
    visited: Seq<u32>,
    rest: Seq<u32>,
    body: u32,
    waiting: Seq<u32>,
)
    requires
        walking(meta, top, visited, rest.push(body)),
        children_follow(meta, body, rest, waiting, meta.len() as int),
    ensures
        parents_first(meta, visited.push(body)),
        waiting_hang(meta, visited.push(body), waiting),
        visited.push(body)[0] == top,
{
    let before = rest.push(body);
    let listed = visited.push(body);
    assert(before[rest.len() as int] == body);
    if visited.len() == 0 {
        assert(before.len() == 1);
        assert(before[0] == top);
    }
    assert forall|i: int| 0 < i < listed.len() implies #[trigger] hangs_among(
        meta,
        listed[i],
        listed,
        i,
    ) by {
        let from = if i < visited.len() {
            visited[i]
        } else {
            before[rest.len() as int]
        };
        assert(listed[i] == from);
        if i < visited.len() {
            assert(hangs_among(meta, visited[i], visited, i));
        } else {
            assert(hangs_among(
                meta,
                before[rest.len() as int],
                visited,
                visited.len() as int,
            ));
        }
        let k = choose|k: int|
            0 <= k < i && #[trigger] child_of(meta, from as int, visited[k] as int);
        assert(child_of(meta, listed[i] as int, listed[k] as int));
    }
    assert forall|i: int| 0 <= i < waiting.len() implies #[trigger] hangs_among(
        meta,
        waiting[i],
        listed,
        listed.len() as int,
    ) by {
        if i < rest.len() {
            assert(waiting[i] == before[i]);
            assert(visited.len() > 0);
            assert(hangs_among(meta, before[i], visited, visited.len() as int));
            let k = choose|k: int|
                0 <= k < visited.len() && #[trigger] child_of(
                    meta,
                    before[i] as int,
                    visited[k] as int,
                );
            assert(child_of(meta, waiting[i] as int, listed[k] as int));
        } else {
            assert(child_of(meta, waiting[i] as int, listed[visited.len() as int] as int));
        }
    }
}

/// No more bodies are listed and waiting than there are.
proof fn lemma_walk_bounded(
    meta: Seq<MechanismBodyTopology>,
    top: u32,
    visited: Seq<u32>,
    waiting: Seq<u32>,
)
    requires
        walking(meta, top, visited, waiting),
    ensures
        visited.len() + waiting.len() <= meta.len(),
{
    let all = visited + waiting;
    assert forall|i: int| #![trigger all[i]] 0 <= i < all.len() implies all[i] < meta.len() by {
        if i < visited.len() {
            assert(all[i] == visited[i]);
        } else {
            assert(all[i] == waiting[i - visited.len()]);
        }
    }
    lemma_distinct_rows(all, meta.len());
}

/// Lists a body and all that hangs on it, every parent before its children.
pub fn carried_bodies(meta: &Vec<MechanismBodyTopology>, top: u32) -> (bodies: Vec<u32>)
    requires
        parents_nearer(meta@),
        top < meta@.len() <= u32::MAX,
    ensures
        bodies@.no_duplicates(),
        bodies@.len() > 0 && bodies@[0] == top,
        parents_first(meta@, bodies@),
        forall|body: u32| #[trigger]
            bodies@.contains(body) <==> body < meta@.len() && hangs_on(
                meta@,
                body as int,
                top as int,
            ),
{
    let mut visited: Vec<u32> = Vec::new();
    let mut waiting: Vec<u32> = Vec::new();
    waiting.push(top);
    proof {
        assert(hangs_within(meta@, top as int, top as int, 0));
        assert(waiting@ =~= seq![top]);
    }
    while waiting.len() > 0
        invariant
            parents_nearer(meta@),
            top < meta@.len() <= u32::MAX,
            walking(meta@, top, visited@, waiting@),
        decreases meta@.len() - visited@.len(),
    {
        proof {
            lemma_walk_bounded(meta@, top, visited@, waiting@);
        }
        let ghost before = waiting@;
        let ghost listed = visited@;
        let body: u32 = waiting[waiting.len() - 1];
        waiting.pop();
        let ghost rest = waiting@;
        assert(before =~= rest.push(body));
        push_children(meta, body, &mut waiting);
        visited.push(body);
        proof {
            lemma_step(meta@, top, listed, rest, body, waiting@);
        }
    }
    proof {
        assert(waiting@ =~= Seq::<u32>::empty());
        assert(visited@ + waiting@ =~= visited@);
        assert(visited@.contains(top)) by {
            assert(visited@[0] == top);
        }
        assert forall|body: u32| #[trigger]
            visited@.contains(body) <==> body < meta@.len() && hangs_on(
                meta@,
                body as int,
                top as int,
            ) by {
            if visited@.contains(body) {
                let i = choose|i: int| 0 <= i < visited@.len() && visited@[i] == body;
                assert(visited@[i] < meta@.len());
            }
            if body < meta@.len() && hangs_on(meta@, body as int, top as int) {
                let steps = choose|steps: nat| #[trigger]
                    hangs_within(meta@, body as int, top as int, steps);
                lemma_closed(meta@, visited@, top, body as int, steps);
            }
        }
    }
    visited
}

/// No child of a body that was waiting is listed before the body is.
proof fn lemma_fresh(
    meta: Seq<MechanismBodyTopology>,
    visited: Seq<u32>,
    waiting: Seq<u32>,
    body: u32,
    top: u32,
)
    requires
        parents_nearer(meta),
        top < meta.len(),
        waiting.len() > 0,
        body == waiting[waiting.len() - 1],
        walking(meta, top, visited, waiting),
    ensures
        forall|i: int|
            #![trigger visited[i]]
            0 <= i < visited.len() ==> !child_of(meta, visited[i] as int, body as int),
        forall|i: int|
            #![trigger waiting[i]]
            0 <= i < waiting.len() ==> !child_of(meta, waiting[i] as int, body as int),
{
    let all = visited + waiting;
    let last = waiting.len() - 1;
    let steps = choose|steps: nat| #[trigger] hangs_within(meta, body as int, top as int, steps);
    lemma_depth(meta, body as int, top as int, steps);
    assert forall|i: int| #![trigger visited[i]] 0 <= i < visited.len() implies !child_of(
        meta,
        visited[i] as int,
        body as int,
    ) by {
        if child_of(meta, visited[i] as int, body as int) {
            if i == 0 {
                assert(parent_nearer(meta, top as int));
            } else {
                assert(hangs_among(meta, visited[i], visited, i));
                let k = choose|k: int|
                    0 <= k < i && #[trigger] child_of(meta, visited[i] as int, visited[k] as int);
                assert(visited[k] == body);
                assert(all[k] == all[visited.len() + last]);
            }
        }
    }
    assert forall|i: int| #![trigger waiting[i]] 0 <= i < waiting.len() implies !child_of(
        meta,
        waiting[i] as int,
        body as int,
    ) by {
        if child_of(meta, waiting[i] as int, body as int) {
            if visited.len() == 0 {
                assert(parent_nearer(meta, top as int));
            } else {
                assert(hangs_among(meta, waiting[i], visited, visited.len() as int));
                let k = choose|k: int|
                    0 <= k < visited.len() && #[trigger] child_of(
                        meta,
                        waiting[i] as int,
                        visited[k] as int,
                    );
                assert(visited[k] == body);
                assert(all[k] == all[visited.len() + last]);
            }
        }
    }
}

/// Rows listed, left waiting and newly waiting are all different.
proof fn lemma_apart(
    meta: Seq<MechanismBodyTopology>,
    listed: Seq<u32>,
    rest: Seq<u32>,
    waiting: Seq<u32>,
    body: u32,
    i: int,
    j: int,
)
    requires
        0 <= i < j < (listed + waiting).len() || 0 <= j < i < (listed + waiting).len(),
        listed.no_duplicates(),
        rest.no_duplicates(),
        forall|a: int, b: int|
            0 <= a < listed.len() && 0 <= b < rest.len() ==> listed[a] != rest[b],
        rest.len() <= waiting.len(),
        forall|k: int| #![trigger waiting[k]] 0 <= k < rest.len() ==> waiting[k] == rest[k],
        forall|k: int|
            #![trigger waiting[k]]
            rest.len() <= k < waiting.len() ==> child_of(meta, waiting[k] as int, body as int),
        forall|a: int, b: int|
            #![trigger waiting[a], waiting[b]]
            rest.len() <= a < b < waiting.len() ==> waiting[a] < waiting[b],
        forall|k: int|
            #![trigger listed[k]]
            0 <= k < listed.len() ==> !child_of(meta, listed[k] as int, body as int),
        forall|k: int|
            #![trigger rest[k]]
            0 <= k < rest.len() ==> !child_of(meta, rest[k] as int, body as int),
    ensures
        (listed + waiting)[i] != (listed + waiting)[j],
{
    let all = listed + waiting;
    let n = listed.len() as int;
    let m = rest.len() as int;
    let (a, b) = if i < j {
        (i, j)
    } else {
        (j, i)
    };
    if b < n {
        assert(all[a] == listed[a] && all[b] == listed[b]);
    } else if a < n {
        assert(all[a] == listed[a] && all[b] == waiting[b - n]);
        if b - n < m {
            assert(waiting[b - n] == rest[b - n]);
        }
    } else {
        assert(all[a] == waiting[a - n] && all[b] == waiting[b - n]);
        if b - n < m {
            assert(waiting[a - n] == rest[a - n] && waiting[b - n] == rest[b - n]);
        } else if a - n < m {
            assert(waiting[a - n] == rest[a - n]);
        }
    }
}

/// In a forest that hangs from roots, parents stand nearer to them.
pub proof fn forests_hang_from_roots(
    bearings: Seq<CompiledBearing>,
    roots: Seq<Vec<u32>>,
    meta: Seq<MechanismBodyTopology>,
)
    requires
        hung(bearings, roots, meta),
    ensures
        parents_nearer(meta),
{
    let order = choose|order: Seq<usize>| #[trigger] hangs(bearings, roots, meta, order);
    assert forall|body: int| 0 <= body < meta.len() && !meta[body].is_root implies #[trigger] parent_nearer(
    meta, body) by {
        let k = meta[body].preorder_index as int;
        assert(order[k] == body);
        assert(row_fits(bearings, meta, order, k));
    }
}

/// Whether a joint is what holds a body to its parent.
pub open spec fn holds(meta: Seq<MechanismBodyTopology>, body: int, bearing: BearingId) -> bool {
    0 <= body < meta.len() && meta[body].tree_bearing == Some(bearing)
}

/// Whether bodies are a body and all that hangs on it, none of them fixed.
pub open spec fn carries(
    meta: Seq<MechanismBodyTopology>,
    fixed: Seq<bool>,
    body: int,
    bodies: Seq<u32>,
) -> bool {
    &&& bodies.no_duplicates()
    &&& bodies.len() > 0 && bodies[0] == body
    &&& parents_first(meta, bodies)
    &&& forall|other: u32| #[trigger]
        bodies.contains(other) <==> other < meta.len() && hangs_on(meta, other as int, body)
    &&& forall|i: int| #![trigger bodies[i]] 0 <= i < bodies.len() ==> !fixed[bodies[i] as int]
}

/// Whether something fixed hangs on a body.
pub open spec fn held_fast(meta: Seq<MechanismBodyTopology>, fixed: Seq<bool>, body: int) -> bool {
    exists|other: int|
        0 <= other < meta.len() && #[trigger] hangs_on(meta, other, body) && fixed[other]
}

impl LoopTopology {
    /// The bodies that a tree joint carries, the one it holds first; none where
    /// it holds no body or where something fixed hangs on it.
    ///
    /// Where several bodies name the joint, the last of them counts.
    pub fn carried(&self, bearing: BearingId, fixed: &Vec<bool>) -> (bodies: Option<Vec<u32>>)
        requires
            parents_nearer(self.body_parents@),
            self.body_parents@.len() <= u32::MAX,
            fixed@.len() == self.body_parents@.len(),
        ensures
            match bodies {
                Some(bodies) => {
                    &&& bodies@.len() > 0
                    &&& holds(self.body_parents@, bodies@[0] as int, bearing)
                    &&& forall|later: int|
                        bodies@[0] < later ==> !#[trigger] holds(
                            self.body_parents@,
                            later,
                            bearing,
                        )
                    &&& carries(self.body_parents@, fixed@, bodies@[0] as int, bodies@)
                },
                None => (forall|body: int| !#[trigger] holds(self.body_parents@, body, bearing))
                    || exists|body: int| #[trigger]
                    holds(self.body_parents@, body, bearing) && held_fast(
                        self.body_parents@,
                        fixed@,
                        body,
                    ) && forall|later: int|
                    body < later ==> !#[trigger] holds(self.body_parents@, later, bearing),
            },
    {
        let meta: &Vec<MechanismBodyTopology> = &self.body_parents;
        let mut at: usize = meta.len();
        while at > 0
            invariant
                parents_nearer(self.body_parents@),
                self.body_parents@.len() <= u32::MAX,
                fixed@.len() == self.body_parents@.len(),
                *meta == self.body_parents,
                at <= meta@.len(),
                forall|later: int| at <= later ==> !#[trigger] holds(meta@, later, bearing),
            decreases at,
        {
            at -= 1;
            let held: bool = match meta[at].tree_bearing {
                Some(found) => found == bearing,
                None => false,
            };
            if held {
                assert(holds(meta@, at as int, bearing));
                let bodies: Vec<u32> = carried_bodies(meta, at as u32);
                let mut i: usize = 0;
                while i < bodies.len()
                    invariant
                        i <= bodies@.len(),
                        fixed@.len() == meta@.len(),
                        forall|other: u32| #[trigger]
                            bodies@.contains(other) ==> other < meta@.len() && hangs_on(
                                meta@,
                                other as int,
                                at as int,
                            ),
                        forall|k: int|
                            #![trigger bodies@[k]]
                            0 <= k < i ==> !fixed@[bodies@[k] as int],
                        *meta == self.body_parents,
                        holds(meta@, at as int, bearing),
                        forall|later: int| at < later ==> !#[trigger] holds(meta@, later, bearing),
                    decreases bodies@.len() - i,
                {
                    let body: u32 = bodies[i];
                    assert(bodies@.contains(body));
                    if fixed[body as usize] {
                        assert(held_fast(meta@, fixed@, at as int)) by {
                            assert(hangs_on(meta@, body as int, at as int) && fixed@[body as int]);
                        }
                        return None;
                    }
                    i += 1;
                }
                return Some(bodies);
            }
        }
        None
    }
}

/// A body hangs on itself and on whatever its parent hangs on, and on nothing
/// else.
pub proof fn bodies_hang_on_what_their_parent_does(
    meta: Seq<MechanismBodyTopology>,
    body: int,
    top: int,
)
    requires
        0 <= body < meta.len(),
    ensures
        hangs_on(meta, body, body),
        hangs_on(meta, body, top) <==> body == top || (!meta[body].is_root && hangs_on(
            meta,
            meta[body].parent_body as int,
            top,
        )),
{
    assert(hangs_within(meta, body, body, 0));
    if hangs_on(meta, body, top) && body != top {
        let steps = choose|steps: nat| #[trigger] hangs_within(meta, body, top, steps);
        assert(hangs_within(meta, meta[body].parent_body as int, top, (steps - 1) as nat));
    }
    if !meta[body].is_root && hangs_on(meta, meta[body].parent_body as int, top) {
        let steps = choose|steps: nat| #[trigger]
            hangs_within(meta, meta[body].parent_body as int, top, steps);
        assert(hangs_within(meta, body, top, steps + 1));
    }
}

/// What a joint carries starts with the body that it holds, leaves nothing out
/// that hangs on it, and is never carried where something fixed is among it.
pub proof fn carried_bodies_hang_on_their_joint(
    meta: Seq<MechanismBodyTopology>,
    fixed: Seq<bool>,
    body: int,
    bodies: Seq<u32>,
    other: u32,
)
    requires
        carries(meta, fixed, body, bodies),
        other < meta.len(),
        0 <= body < meta.len() <= u32::MAX,
    ensures
        bodies[0] == body,
        !held_fast(meta, fixed, body),
        !meta[other as int].is_root && bodies.contains(meta[other as int].parent_body)
            ==> bodies.contains(other),
        bodies.contains(other) && other != body ==> !meta[other as int].is_root && hangs_on(
            meta,
            meta[other as int].parent_body as int,
            body,
        ),
{
    bodies_hang_on_what_their_parent_does(meta, other as int, body);
    if !meta[other as int].is_root && bodies.contains(meta[other as int].parent_body) {
        assert(hangs_on(meta, meta[other as int].parent_body as int, body));
        assert(hangs_on(meta, other as int, body));
    }
    if held_fast(meta, fixed, body) {
        let fast = choose|fast: int|
            0 <= fast < meta.len() && #[trigger] hangs_on(meta, fast, body) && fixed[fast];
        assert(bodies.contains(fast as u32));
        let at = bodies.index_of(fast as u32);
        assert(bodies[at] == fast as u32);
    }
}

} // verus!
