//! Listing disjoint sets in canonical order.

use vstd::prelude::*;

use super::disjoint_set::{canonical, DisjointSet};

verus! {

/// The sets of a partition of dense rows.
pub struct Classes {
    /// Members of each set, ascending. Sets come in the order of their least member.
    pub groups: Vec<Vec<usize>>,
    /// The set that holds each row.
    pub group_of: Vec<usize>,
}

impl Classes {
    /// Whether these are the sets that `labels` names, listed in order.
    pub open spec fn lists(&self, labels: Seq<int>) -> bool {
        &&& self.group_of@.len() == labels.len()
        &&& forall|i: int|
            #![trigger self.group_of@[i]]
            0 <= i < labels.len() ==> {
                &&& self.group_of@[i] < self.groups@.len()
                &&& self.groups@[self.group_of@[i] as int]@.contains(i as usize)
            }
        &&& forall|g: int|
            #![trigger self.groups@[g]]
            0 <= g < self.groups@.len() ==> self.groups@[g]@.len() > 0
        &&& forall|g: int, k: int|
            #![trigger self.groups@[g]@[k]]
            0 <= g < self.groups@.len() && 0 <= k < self.groups@[g]@.len() ==> {
                &&& self.groups@[g]@[k] < labels.len()
                &&& labels[self.groups@[g]@[k] as int] == self.groups@[g]@[0]
                &&& self.group_of@[self.groups@[g]@[k] as int] == g
            }
        &&& forall|g: int, k: int, l: int|
            #![trigger self.groups@[g]@[k], self.groups@[g]@[l]]
            0 <= g < self.groups@.len() && 0 <= k < l < self.groups@[g]@.len()
                ==> self.groups@[g]@[k] < self.groups@[g]@[l]
        &&& forall|g: int, h: int|
            #![trigger self.groups@[g], self.groups@[h]]
            0 <= g < h < self.groups@.len() ==> self.groups@[g]@[0] < self.groups@[h]@[0]
    }

    /// Two rows are listed together exactly when they share a label.
    pub proof fn lemma_same_group(&self, labels: Seq<int>, i: int, j: int)
        requires
            self.lists(labels),
            0 <= i < labels.len() <= usize::MAX,
            0 <= j < labels.len(),
        ensures
            self.group_of@[i] == self.group_of@[j] <==> labels[i] == labels[j],
    {
        let gi = self.group_of@[i] as int;
        let gj = self.group_of@[j] as int;
        let ki = self.groups@[gi]@.index_of(i as usize);
        let kj = self.groups@[gj]@.index_of(j as usize);
        assert(self.groups@[gi]@[ki] == i);
        assert(self.groups@[gj]@[kj] == j);
        assert(labels[i] == self.groups@[gi]@[0]);
        assert(labels[j] == self.groups@[gj]@[0]);
        if gi < gj {
            assert(self.groups@[gi]@[0] < self.groups@[gj]@[0]);
        } else if gj < gi {
            assert(self.groups@[gj]@[0] < self.groups@[gi]@[0]);
        }
    }

    /// Lists the sets of `sets`, whose rows are `0..count`.
    pub fn of(sets: &DisjointSet, count: usize) -> (classes: Self)
        requires
            sets.wf(),
            sets@.len() == count,
        ensures
            classes.lists(sets@),
            classes.groups@.len() <= count,
    {
        let ghost labels = sets@;
        proof {
            sets.lemma_canonical();
        }
        let mut groups: Vec<Vec<usize>> = Vec::new();
        let mut group_of: Vec<usize> = Vec::new();
        let mut row: usize = 0;
        while row < count
            invariant
                sets.wf(),
                labels == sets@,
                canonical(labels),
                labels.len() == count,
                row <= count,
                group_of@.len() == row,
                groups@.len() <= row,
                forall|i: int|
                    #![trigger group_of@[i]]
                    0 <= i < row ==> group_of@[i] < groups@.len()
                        && groups@[group_of@[i] as int]@.contains(i as usize),
                forall|g: int|
                    #![trigger groups@[g]]
                    0 <= g < groups@.len() ==> groups@[g]@.len() > 0,
                forall|g: int, k: int|
                    #![trigger groups@[g]@[k]]
                    0 <= g < groups@.len() && 0 <= k < groups@[g]@.len() ==> groups@[g]@[k] < row
                        && labels[groups@[g]@[k] as int] == groups@[g]@[0]
                        && group_of@[groups@[g]@[k] as int] == g,
                forall|g: int, k: int, l: int|
                    #![trigger groups@[g]@[k], groups@[g]@[l]]
                    0 <= g < groups@.len() && 0 <= k < l < groups@[g]@.len()
                        ==> groups@[g]@[k] < groups@[g]@[l],
                forall|g: int, h: int|
                    #![trigger groups@[g], groups@[h]]
                    0 <= g < h < groups@.len() ==> groups@[g]@[0] < groups@[h]@[0],
            decreases count - row,
        {
            let label: usize = sets.find(row);
            let ghost before = groups@;
            let ghost before_of = group_of@;
            if label == row {
                let mut fresh: Vec<usize> = Vec::new();
                fresh.push(row);
                group_of.push(groups.len());
                groups.push(fresh);
                proof {
                    let g = before.len() as int;
                    assert(groups@[g]@[0] == row);
                    assert(groups@[g]@.contains(row));
                    assert forall|i: int| #![trigger group_of@[i]] 0 <= i < row + 1 implies
                        group_of@[i] < groups@.len() && groups@[group_of@[i] as int]@.contains(
                        i as usize,
                    ) by {
                        if i < row {
                            assert(group_of@[i] == before_of[i]);
                            assert(groups@[group_of@[i] as int] == before[group_of@[i] as int]);
                        }
                    }
                    assert forall|h: int| #![trigger groups@[h]] 0 <= h < g implies groups@[h]@[0]
                        < row by {
                        assert(groups@[h] == before[h]);
                        assert(before[h]@[0] < row);
                    }
                    assert forall|h: int, k: int| #![trigger groups@[h]@[k]]
                        0 <= h < groups@.len() && 0 <= k < groups@[h]@.len() implies groups@[h]@[k]
                        < row + 1 && labels[groups@[h]@[k] as int] == groups@[h]@[0]
                        && group_of@[groups@[h]@[k] as int] == h by {
                        if h < g {
                            assert(groups@[h] == before[h]);
                            assert(before[h]@[k] < row);
                        }
                    }
                }
            } else {
                let g: usize = group_of[label];
                proof {
                    let k = before[g as int]@.index_of(label);
                    assert(before[g as int]@[k] == label);
                    assert(labels[label as int] == label);
                    assert(before[g as int]@[0] == label);
                }
                groups[g].push(row);
                group_of.push(g);
                proof {
                    let ghost grown = groups@[g as int]@;
                    assert(grown == before[g as int]@.push(row));
                    assert(grown[grown.len() - 1] == row);
                    assert(grown.contains(row));
                    assert(grown[0] == before[g as int]@[0]);
                    assert forall|h: int| 0 <= h < groups@.len() && h != g implies #[trigger] groups@[h]
                        == before[h] by {}
                    assert forall|i: int| #![trigger group_of@[i]] 0 <= i < row + 1 implies
                        group_of@[i] < groups@.len() && groups@[group_of@[i] as int]@.contains(
                        i as usize,
                    ) by {
                        if i < row {
                            assert(group_of@[i] == before_of[i]);
                            let h = group_of@[i] as int;
                            assert(before[h]@.contains(i as usize));
                            let k = before[h]@.index_of(i as usize);
                            assert(groups@[h]@[k] == i);
                        }
                    }
                    assert forall|h: int, k: int| #![trigger groups@[h]@[k]]
                        0 <= h < groups@.len() && 0 <= k < groups@[h]@.len() implies groups@[h]@[k]
                        < row + 1 && labels[groups@[h]@[k] as int] == groups@[h]@[0]
                        && group_of@[groups@[h]@[k] as int] == h by {
                        if h != g {
                            assert(before[h]@[k] < row);
                        } else if k < before[h]@.len() {
                            assert(before[h]@[k] < row);
                        }
                    }
                    assert forall|h: int, k: int, l: int|
                        #![trigger groups@[h]@[k], groups@[h]@[l]]
                        0 <= h < groups@.len() && 0 <= k < l < groups@[h]@.len() implies groups@[h]@[k]
                        < groups@[h]@[l] by {
                        if h != g {
                            assert(before[h]@[k] < before[h]@[l]);
                        } else if l < before[h]@.len() {
                            assert(before[h]@[k] < before[h]@[l]);
                        } else {
                            assert(before[h]@[k] < row);
                        }
                    }
                    assert forall|h: int, j: int| #![trigger groups@[h], groups@[j]]
                        0 <= h < j < groups@.len() implies groups@[h]@[0] < groups@[j]@[0] by {
                        assert(before[h]@[0] < before[j]@[0]);
                    }
                }
            }
            row += 1;
        }
        Classes { groups, group_of }
    }
}

} // verus!
