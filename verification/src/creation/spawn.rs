//! Parts of a saved creation, back in a construction.

use vstd::prelude::*;

use super::doc::{PartDoc, PartError};
use super::replay::{parents_listed, plain_rows, replay_order, upstream_first};
use super::rows::{build_part, parent_in, part_doc_fault, part_of_doc};
use crate::graph::ConstructionGraph;
use crate::ids::{PartId, WeldId};
use crate::parts::{FaceKind, FaceOwner, FaceRef, PartSpec, WeldSpec};

verus! {

/// The handle that each row's part gets.
pub open spec fn part_ids(docs: Seq<PartDoc>) -> Seq<PartId> {
    Seq::new(
        docs.len(),
        |row: int| PartId { index: replay_order(docs).index_of(row as u32) as u32, generation: 0 },
    )
}

/// The weld that holds a transmission to the output that it extends.
pub open spec fn attach_weld(parent: PartId, part: PartId) -> WeldSpec {
    WeldSpec {
        first: FaceRef { owner: FaceOwner::Part(parent), face: FaceKind::PositiveZ, patch: None },
        second: FaceRef { owner: FaceOwner::Part(part), face: FaceKind::NegativeZ, patch: None },
    }
}

/// The number of rows that extend nothing.
pub open spec fn plain_count(docs: Seq<PartDoc>) -> int {
    plain_rows(docs, docs.len() as int).len() as int
}

/// The handle of the part that comes back at place `k` extends this one.
pub open spec fn upstream_id(docs: Seq<PartDoc>, k: int) -> PartId {
    part_ids(docs)[parent_in(docs[replay_order(docs)[k] as int])->0 as int]
}

/// What each of the first `count` parts to come back extends.
pub open spec fn upstream_map(docs: Seq<PartDoc>, count: int) -> Map<PartId, PartId> {
    Map::new(
        |part: PartId| part.generation == 0 && plain_count(docs) <= part.index < count,
        |part: PartId| upstream_id(docs, part.index as int),
    )
}

/// Which weld holds each of the first `count` parts to come back.
pub open spec fn attachments(docs: Seq<PartDoc>, count: int) -> Map<PartId, WeldId> {
    Map::new(
        |part: PartId| part.generation == 0 && plain_count(docs) <= part.index < count,
        |part: PartId| WeldId { index: (part.index - plain_count(docs)) as u32, generation: 0 },
    )
}

/// Welds that hold the first `count` parts to come back.
pub open spec fn attach_welds(docs: Seq<PartDoc>, count: int) -> Seq<WeldSpec> {
    Seq::new(
        (count - plain_count(docs)) as nat,
        |k: int| attach_weld(
            upstream_id(docs, k + plain_count(docs)),
            PartId { index: (k + plain_count(docs)) as u32, generation: 0 },
        ),
    )
}

/// The later of two counts.
pub open spec fn at_least(count: int, least: int) -> int {
    if count < least {
        least
    } else {
        count
    }
}

impl ConstructionGraph {
    /// Whether the first `count` parts to come back are all parts there are.
    pub open spec fn parts_back(&self, docs: Seq<PartDoc>, count: int) -> bool {
        let order = replay_order(docs);
        &&& self.parts.gapless()
        &&& self.parts.rows.keys@.len() == count
        &&& forall|k: int|
            #![trigger self.parts.rows.values@[k]]
            0 <= k < count ==> part_of_doc(docs[order[k] as int], self.parts.rows.values@[k])
        &&& self.transmission_parents@ == upstream_map(docs, count)
        &&& self.transmission_welds@ == attachments(docs, count)
        &&& self.welds.gapless()
        &&& self.welds.rows.values@ == attach_welds(docs, at_least(count, plain_count(docs)))
    }
}

/// A row's handle is its place in the order.
proof fn lemma_part_id(docs: Seq<PartDoc>, k: int)
    requires
        docs.len() <= u32::MAX,
        replay_order(docs).no_duplicates(),
        0 <= k < replay_order(docs).len() <= u32::MAX,
        replay_order(docs)[k] < docs.len(),
    ensures
        part_ids(docs)[replay_order(docs)[k] as int] == (PartId {
            index: k as u32,
            generation: 0,
        }),
{
    let order = replay_order(docs);
    let row = order[k];
    assert(order.contains(row));
    let at = order.index_of(row);
    assert(order[at] == row);
}

/// Puts every part back and attaches transmissions to what they extend.
pub fn spawn_parts(
    graph: &mut ConstructionGraph,
    docs: &Vec<PartDoc>,
    checks: &Vec<Result<(), PartError>>,
    order: &Vec<u32>,
) -> (ids: Vec<PartId>)
    requires
        old(graph).wf(),
        checks@.len() == docs@.len(),
        docs@.len() < u32::MAX,
        parents_listed(docs@),
        forall|i: int|
            #![trigger docs@[i]]
            0 <= i < docs@.len() && parent_in(docs@[i]) is None ==> part_doc_fault(
                docs@[i],
                checks@[i],
            ) is None,
        order@ == replay_order(docs@),
        order@.no_duplicates(),
        upstream_first(docs@, order@),
        order@.len() == docs@.len(),
        forall|row: u32| #[trigger] order@.contains(row) <==> row < docs@.len(),
        old(graph).parts_back(docs@, 0),
    ensures
        ids@ == part_ids(docs@),
        final(graph).wf(),
        final(graph).parts_back(docs@, docs@.len() as int),
        *final(graph) == (ConstructionGraph {
            parts: final(graph).parts,
            welds: final(graph).welds,
            transmission_parents: final(graph).transmission_parents,
            transmission_welds: final(graph).transmission_welds,
            ..*old(graph)
        }),
{
    let ghost before = *graph;
    let ghost plain = plain_count(docs@);
    let mut ids: Vec<PartId> = Vec::new();
    while ids.len() < docs.len()
        invariant
            ids@.len() <= docs@.len(),
        decreases docs@.len() - ids@.len(),
    {
        ids.push(PartId { index: 0, generation: 0 });
    }
    let mut k: usize = 0;
    while k < order.len()
        invariant
            k <= order@.len() == docs@.len() < u32::MAX,
            checks@.len() == docs@.len(),
            graph.wf(),
            before == *old(graph),
            parents_listed(docs@),
            forall|i: int|
                #![trigger docs@[i]]
                0 <= i < docs@.len() && parent_in(docs@[i]) is None ==> part_doc_fault(
                    docs@[i],
                    checks@[i],
                ) is None,
            order@ == replay_order(docs@),
            order@.no_duplicates(),
            upstream_first(docs@, order@),
            forall|row: u32| #[trigger] order@.contains(row) <==> row < docs@.len(),
            plain == plain_count(docs@),
            ids@.len() == docs@.len(),
            forall|j: int|
                #![trigger order@[j]]
                0 <= j < k ==> ids@[order@[j] as int] == part_ids(docs@)[order@[j] as int],
            graph.parts_back(docs@, k as int),
            *graph == (ConstructionGraph {
                parts: graph.parts,
                welds: graph.welds,
                transmission_parents: graph.transmission_parents,
                transmission_welds: graph.transmission_welds,
                ..before
            }),
        decreases order@.len() - k,
    {
        let row: u32 = order[k];
        let ghost held = *graph;
        assert(order@.contains(order@[k as int]));
        let doc: &PartDoc = &docs[row as usize];
        assert(docs@[row as int] == *doc);
        let spec: PartSpec = match build_part(doc, &checks[row as usize]) {
            Ok(spec) => spec,
            Err(_) => {
                assert(false);
                return ids;
            },
        };
        let part: PartId = graph.parts.append(spec);
        assert(part == PartId { index: k as u32, generation: 0 });
        if let PartDoc::Transmission { parent, .. } = doc {
            proof {
                assert(order@.take(k as int).contains(*parent));
                let at = order@.take(k as int).index_of(*parent);
                assert(order@[at] == *parent);
            }
            let upstream: PartId = ids[*parent as usize];
            assert(upstream == upstream_id(docs@, k as int));
            let weld: WeldId = graph.welds.append(
                WeldSpec {
                    first: FaceRef {
                        owner: FaceOwner::Part(upstream),
                        face: FaceKind::PositiveZ,
                        patch: None,
                    },
                    second: FaceRef {
                        owner: FaceOwner::Part(part),
                        face: FaceKind::NegativeZ,
                        patch: None,
                    },
                },
            );
            graph.transmission_parents.insert(part, upstream);
            graph.transmission_welds.insert(part, weld);
            proof {
                assert(upstream_map(docs@, k as int).insert(part, upstream) =~= upstream_map(
                    docs@,
                    k + 1,
                ));
                assert(attachments(docs@, k as int).insert(part, weld) =~= attachments(
                    docs@,
                    k + 1,
                ));
                assert(graph.welds.rows.values@ =~= attach_welds(docs@, k + 1));
            }
        } else {
            proof {
                assert(upstream_map(docs@, k as int) =~= upstream_map(docs@, k + 1));
                assert(attachments(docs@, k as int) =~= attachments(docs@, k + 1));
            }
        }
        proof {
            lemma_part_id(docs@, k as int);
            assert forall|j: int| #![trigger graph.parts.rows.values@[j]]
                0 <= j < k + 1 implies part_of_doc(
                docs@[order@[j] as int],
                graph.parts.rows.values@[j],
            ) by {
                if j < k {
                    assert(held.parts.rows.values@[j] == graph.parts.rows.values@[j]);
                }
            }
        }
        ids.set(row as usize, part);
        proof {
            assert forall|j: int| #![trigger order@[j]] 0 <= j < k + 1 implies ids@[order@[j] as int]
                == part_ids(docs@)[order@[j] as int] by {
                assert(order@.contains(order@[j]));
                if j < k {
                    assert(order@[j] != order@[k as int]);
                }
            }
        }
        k += 1;
    }
    proof {
        assert forall|i: int| 0 <= i < docs@.len() implies ids@[i] == #[trigger] part_ids(docs@)[i] by {
            assert(order@.contains(i as u32));
            let at = order@.index_of(i as u32);
            assert(order@[at] == i as u32);
        }
        assert(ids@ =~= part_ids(docs@));
    }
    ids
}

/// A transmission is welded with its own low end to the high end of what it
/// extends.
pub proof fn transmissions_are_welded_end_to_end(parent: PartId, part: PartId)
    ensures
        ({
            let weld = attach_weld(parent, part);
            &&& weld.first.owner == FaceOwner::Part(parent) && weld.first.face
                == FaceKind::PositiveZ
            &&& weld.second.owner == FaceOwner::Part(part) && weld.second.face
                == FaceKind::NegativeZ
            &&& weld.first.patch is None && weld.second.patch is None
        }),
{
}

/// Every transmission that is back extends the part that its row names, and the
/// weld recorded for it is the one between the two.
pub proof fn transmissions_come_back_on_what_they_extend(
    graph: &ConstructionGraph,
    docs: Seq<PartDoc>,
    k: int,
)
    requires
        graph.parts_back(docs, docs.len() as int),
        docs.len() < u32::MAX,
        0 <= plain_count(docs) <= k < docs.len(),
    ensures
        ({
            let part = PartId { index: k as u32, generation: 0 };
            let row = replay_order(docs)[k] as int;
            let upstream = part_ids(docs)[parent_in(docs[row])->0 as int];
            &&& graph.transmission_parents@.dom().contains(part)
            &&& graph.transmission_parents@[part] == upstream
            &&& graph.transmission_welds@.dom().contains(part)
            &&& graph.transmission_welds@[part].index + plain_count(docs) == k
            &&& 0 <= graph.transmission_welds@[part].index < graph.welds.rows.values@.len()
            &&& graph.welds.rows.values@[graph.transmission_welds@[part].index as int].first.owner
                == FaceOwner::Part(upstream)
            &&& graph.welds.rows.values@[graph.transmission_welds@[part].index as int].second.owner
                == FaceOwner::Part(part)
            &&& part_of_doc(docs[row], graph.parts.rows.values@[k])
        }),
{
    let here = graph.parts.rows.values@[k];
    let part = PartId { index: k as u32, generation: 0 };
    let at = k - plain_count(docs);
    assert(attach_welds(docs, docs.len() as int)[at] == attach_weld(upstream_id(docs, k), part));
}

} // verus!
