//! Disjoint sets over dense rows, each named by its least member.

use vstd::prelude::*;

verus! {

/// An undirected link between two dense rows.
pub type Link = (int, int);

/// Whether `group` never separates the two ends of a link.
pub open spec fn closed_under(group: Set<int>, links: Seq<Link>) -> bool {
    forall|k: int|
        #![trigger links[k]]
        0 <= k < links.len() ==> (group.contains(links[k].0) <==> group.contains(links[k].1))
}

/// Whether a chain of links joins two rows: no group that respects every link
/// holds one of them without the other.
pub open spec fn connected(links: Seq<Link>, a: int, b: int) -> bool {
    forall|group: Set<int>| #[trigger]
        closed_under(group, links) ==> (group.contains(a) <==> group.contains(b))
}

/// Whether every link joins rows below `count`.
pub open spec fn links_within(links: Seq<Link>, count: int) -> bool {
    forall|k: int|
        #![trigger links[k]]
        0 <= k < links.len() ==> 0 <= links[k].0 < count && 0 <= links[k].1 < count
}

/// Whether `labels` names each row's set by the set's least member.
pub open spec fn canonical(labels: Seq<int>) -> bool {
    forall|i: int|
        #![trigger labels[i]]
        0 <= i < labels.len() ==> 0 <= labels[i] <= i && labels[labels[i]] == labels[i]
}

/// The labels once the sets of `a` and `b` are one: the larger label gives way.
pub open spec fn merged(labels: Seq<int>, a: int, b: int) -> Seq<int> {
    let low = if labels[a] <= labels[b] { labels[a] } else { labels[b] };
    let high = if labels[a] <= labels[b] { labels[b] } else { labels[a] };
    Seq::new(labels.len(), |i: int| if labels[i] == high { low } else { labels[i] })
}

/// Whether two rows share a label exactly when a chain of links joins them.
pub open spec fn represents(labels: Seq<int>, links: Seq<Link>) -> bool {
    &&& canonical(labels)
    &&& links_within(links, labels.len() as int)
    &&& forall|i: int, j: int|
        #![trigger labels[i], labels[j]]
        0 <= i < labels.len() && 0 <= j < labels.len() ==> (labels[i] == labels[j] <==> connected(
            links,
            i,
            j,
        ))
}

/// The labels of `count` rows that no link joins.
pub open spec fn separate(count: nat) -> Seq<int> {
    Seq::new(count, |i: int| i)
}

/// Rows that nothing links stay apart, each its own least member.
pub proof fn separate_rows_represent_no_links(count: nat)
    ensures
        represents(separate(count), Seq::empty()),
{
    let labels = separate(count);
    assert forall|i: int, j: int|
        #![trigger labels[i], labels[j]]
        0 <= i < count && 0 <= j < count implies (labels[i] == labels[j] <==> connected(
        Seq::empty(),
        i,
        j,
    )) by {
        let only = set![i];
        assert(closed_under(only, Seq::empty()));
        assert(only.contains(j) <==> i == j);
    }
}

/// Merging two sets is exactly adding a link between a member of each.
pub proof fn merging_represents_one_more_link(labels: Seq<int>, links: Seq<Link>, a: int, b: int)
    requires
        represents(labels, links),
        0 <= a < labels.len(),
        0 <= b < labels.len(),
    ensures
        represents(merged(labels, a, b), links.push((a, b))),
{
    let wider = links.push((a, b));
    let joined = merged(labels, a, b);
    assert(wider.last() == (a, b));
    assert forall|k: int| #![trigger wider[k]] 0 <= k < wider.len() implies 0 <= wider[k].0
        < joined.len() && 0 <= wider[k].1 < joined.len() by {
        if k < links.len() {
            assert(wider[k] == links[k]);
        }
    }
    assert forall|i: int| #![trigger joined[i]] 0 <= i < joined.len() implies 0 <= joined[i] <= i
        && joined[joined[i]] == joined[i] by {
        assert(labels[labels[i]] == labels[i]);
        assert(labels[labels[a]] == labels[a]);
        assert(labels[labels[b]] == labels[b]);
    }
    assert forall|i: int, j: int|
        #![trigger joined[i], joined[j]]
        0 <= i < joined.len() && 0 <= j < joined.len() implies (joined[i] == joined[j]
        <==> connected(wider, i, j)) by {
        if joined[i] == joined[j] {
            assert forall|group: Set<int>| #[trigger] closed_under(group, wider) implies (
            group.contains(i) <==> group.contains(j)) by {
                assert(closed_under(group, links)) by {
                    assert forall|k: int| #![trigger links[k]] 0 <= k < links.len() implies (
                    group.contains(links[k].0) <==> group.contains(links[k].1)) by {
                        assert(wider[k] == links[k]);
                    }
                }
                assert(wider[links.len() as int] == (a, b));
                assert(group.contains(a) <==> group.contains(b));
                if labels[i] != labels[j] {
                    if labels[i] == labels[a] {
                        assert(labels[j] == labels[b]);
                        assert(connected(links, i, a));
                        assert(connected(links, j, b));
                    } else {
                        assert(labels[i] == labels[b] && labels[j] == labels[a]);
                        assert(connected(links, i, b));
                        assert(connected(links, j, a));
                    }
                } else {
                    assert(connected(links, i, j));
                }
            }
        } else {
            let group = Set::new(|x: int| 0 <= x < joined.len() && joined[x] == joined[i]);
            assert forall|k: int| #![trigger wider[k]] 0 <= k < wider.len() implies (
            group.contains(wider[k].0) <==> group.contains(wider[k].1)) by {
                let (x, y) = wider[k];
                if k < links.len() {
                    assert(wider[k] == links[k]);
                    assert(connected(links, x, y)) by {
                        assert forall|other: Set<int>| #[trigger]
                            closed_under(other, links) implies (other.contains(x)
                            <==> other.contains(y)) by {
                            assert(other.contains(links[k].0) <==> other.contains(links[k].1));
                        }
                    }
                    assert(labels[x] == labels[y]);
                }
                assert(joined[x] == joined[y]);
            }
            assert(closed_under(group, wider));
            assert(group.contains(i) && !group.contains(j));
        }
    }
}

/// The root reached from row `i` by following parents.
pub open spec fn root_of(parents: Seq<usize>, i: int) -> int
    decreases i,
{
    if 0 <= i < parents.len() && parents[i] < i {
        root_of(parents, parents[i] as int)
    } else {
        i
    }
}

/// Disjoint sets over the rows `0..count`.
pub struct DisjointSet {
    parents: Vec<usize>,
}

impl View for DisjointSet {
    type V = Seq<int>;

    /// The least member of each row's set.
    closed spec fn view(&self) -> Seq<int> {
        Seq::new(self.parents@.len(), |i: int| root_of(self.parents@, i))
    }
}

/// A root is at or below the row it is reached from, and is its own parent.
proof fn lemma_root(parents: Seq<usize>, i: int)
    requires
        forall|k: int| #![trigger parents[k]] 0 <= k < parents.len() ==> parents[k] <= k,
        0 <= i < parents.len(),
    ensures
        0 <= root_of(parents, i) <= i,
        parents[root_of(parents, i)] == root_of(parents, i),
        root_of(parents, root_of(parents, i)) == root_of(parents, i),
    decreases i,
{
    if parents[i] < i {
        lemma_root(parents, parents[i] as int);
    }
}

/// Hanging root `high` under root `low` moves exactly the rows of `high`.
proof fn lemma_hang(parents: Seq<usize>, low: usize, high: usize, i: int)
    requires
        forall|k: int| #![trigger parents[k]] 0 <= k < parents.len() ==> parents[k] <= k,
        low < high < parents.len(),
        parents[low as int] == low,
        parents[high as int] == high,
        0 <= i < parents.len(),
    ensures
        root_of(parents.update(high as int, low), i) == if root_of(parents, i) == high {
            low as int
        } else {
            root_of(parents, i)
        },
    decreases i,
{
    let moved = parents.update(high as int, low);
    if i == high {
        assert(root_of(moved, i) == root_of(moved, low as int));
        assert(root_of(moved, low as int) == low);
    } else if parents[i] < i {
        lemma_hang(parents, low, high, parents[i] as int);
        assert(moved[i] == parents[i]);
    }
}

impl DisjointSet {
    /// Parents never point upward, so following them ends at a root.
    pub closed spec fn wf(&self) -> bool {
        forall|k: int|
            #![trigger self.parents@[k]]
            0 <= k < self.parents@.len() ==> self.parents@[k] <= k
    }

    /// Every set is named by its least member.
    pub proof fn lemma_canonical(&self)
        requires
            self.wf(),
        ensures
            canonical(self@),
    {
        assert forall|i: int| #![trigger self@[i]] 0 <= i < self@.len() implies 0 <= self@[i] <= i
            && self@[self@[i]] == self@[i] by {
            lemma_root(self.parents@, i);
        }
    }

    /// Creates `count` rows, each alone in its set.
    pub fn new(count: usize) -> (set: Self)
        ensures
            set.wf(),
            set@ == separate(count as nat),
    {
        let mut parents: Vec<usize> = Vec::new();
        let mut row: usize = 0;
        while row < count
            invariant
                row <= count,
                parents@.len() == row,
                forall|k: int| #![trigger parents@[k]] 0 <= k < row ==> parents@[k] == k,
            decreases count - row,
        {
            parents.push(row);
            row += 1;
        }
        let set = DisjointSet { parents };
        assert(set@ =~= separate(count as nat)) by {
            assert forall|i: int| 0 <= i < count implies set@[i] == i by {
                assert(set.parents@[i] == i);
            }
        }
        set
    }

    /// The least member of `row`'s set.
    pub fn find(&self, row: usize) -> (root: usize)
        requires
            self.wf(),
            row < self@.len(),
        ensures
            root == self@[row as int],
            root <= row,
    {
        let mut current: usize = row;
        while self.parents[current] < current
            invariant
                self.wf(),
                current <= row < self.parents@.len(),
                root_of(self.parents@, current as int) == root_of(self.parents@, row as int),
            decreases current,
        {
            current = self.parents[current];
        }
        current
    }

    /// Makes one set of the sets of `a` and `b`.
    pub fn union(&mut self, a: usize, b: usize)
        requires
            old(self).wf(),
            a < old(self)@.len(),
            b < old(self)@.len(),
        ensures
            final(self).wf(),
            final(self)@ == merged(old(self)@, a as int, b as int),
    {
        let root_a: usize = self.find(a);
        let root_b: usize = self.find(b);
        proof {
            lemma_root(self.parents@, a as int);
            lemma_root(self.parents@, b as int);
        }
        let ghost before = self.parents@;
        if root_a < root_b {
            self.parents.set(root_b, root_a);
            proof {
                assert forall|i: int| 0 <= i < before.len() implies #[trigger] self@[i] == merged(
                    old(self)@,
                    a as int,
                    b as int,
                )[i] by {
                    lemma_hang(before, root_a, root_b, i);
                }
            }
        } else if root_b < root_a {
            self.parents.set(root_a, root_b);
            proof {
                assert forall|i: int| 0 <= i < before.len() implies #[trigger] self@[i] == merged(
                    old(self)@,
                    a as int,
                    b as int,
                )[i] by {
                    lemma_hang(before, root_b, root_a, i);
                }
            }
        }
        assert(self@ =~= merged(old(self)@, a as int, b as int));
    }
}

/// The same pair of rows whichever way round it was given.
pub fn ordered_pair(a: u32, b: u32) -> (pair: [u32; 2])
    ensures
        pair@ == if a <= b {
            seq![a, b]
        } else {
            seq![b, a]
        },
{
    if a <= b {
        [a, b]
    } else {
        [b, a]
    }
}

} // verus!
