//! Gear lanes of a saved creation, back in a construction.

use vstd::prelude::*;

use super::connect::{first_fault, lemma_first_fault, lemma_no_fault};
use super::doc::{CreationError, GraphError, GearboxConfigDoc};
use super::rows::resolve_part;
use super::snapshot::copy_rows;
use crate::gearbox::{ratios_fault, GearboxConfig, GearboxError};
use crate::graph::GearLane;
use crate::ids::PartId;
use crate::ordered::OrderedMap;
use crate::parts::EngineKind;

verus! {

/// The lane that a row configures.
pub open spec fn lane_of(doc: GearboxConfigDoc, parts: Seq<PartId>) -> GearLane {
    GearLane { controller: parts[doc.controller as int], kind: doc.kind }
}

/// The last of the first `count` rows that configures a lane, or -1.
pub open spec fn last_lane_row(
    docs: Seq<GearboxConfigDoc>,
    parts: Seq<PartId>,
    lane: GearLane,
    count: int,
) -> int
    decreases count,
{
    if count <= 0 {
        -1
    } else if lane_of(docs[count - 1], parts) == lane {
        count - 1
    } else {
        last_lane_row(docs, parts, lane, count - 1)
    }
}

/// The reverse bank that a row asks for; an electric lane has none.
pub open spec fn reverse_of(doc: GearboxConfigDoc) -> u8 {
    if doc.kind is Gas {
        doc.reverse_gears
    } else {
        0
    }
}

/// The reverse bank of a lane behind the first `count` rows.
pub open spec fn reverse_held(
    docs: Seq<GearboxConfigDoc>,
    parts: Seq<PartId>,
    lane: GearLane,
    count: int,
) -> u8 {
    let row = last_lane_row(docs, parts, lane, count);
    if row < 0 {
        0
    } else {
        reverse_of(docs[row])
    }
}

/// Why a lane's row is refused, if it is: its Controller, its strip, a reverse
/// bank that an earlier row gave the lane, then its own reverse bank.
pub open spec fn lane_fault(docs: Seq<GearboxConfigDoc>, parts: Seq<PartId>, row: int) -> Option<
    CreationError,
> {
    let doc = docs[row];
    if doc.controller >= parts.len() {
        Some(CreationError::MissingPart(doc.controller))
    } else {
        match ratios_fault(doc.ratios@) {
            Some(error) => Some(CreationError::Graph(GraphError::Gearbox(error))),
            None => if reverse_held(docs, parts, lane_of(doc, parts), row) > doc.ratios@.len()
                || reverse_of(doc) > doc.ratios@.len() {
                Some(CreationError::Graph(GraphError::Gearbox(GearboxError::InvalidReverseGearCount)))
            } else {
                None
            },
        }
    }
}

/// Faults of lanes.
pub open spec fn lane_faults(docs: Seq<GearboxConfigDoc>, parts: Seq<PartId>) -> Seq<
    Option<CreationError>,
> {
    Seq::new(docs.len(), |row: int| lane_fault(docs, parts, row))
}

/// Whether a row describes a lane's settings.
pub open spec fn config_of_doc(doc: GearboxConfigDoc, config: GearboxConfig) -> bool {
    &&& config.mode == doc.mode
    &&& config.ratios@ == doc.ratios@
    &&& config.reverse_gears == reverse_of(doc)
    &&& config.gear_up == doc.gear_up
    &&& config.gear_down == doc.gear_down
}

/// Whether lanes hold what the last of the first `count` rows of each says.
pub open spec fn lanes_back(
    lanes: Map<GearLane, GearboxConfig>,
    docs: Seq<GearboxConfigDoc>,
    parts: Seq<PartId>,
    count: int,
) -> bool {
    &&& forall|lane: GearLane| #[trigger]
        lanes.dom().contains(lane) <==> last_lane_row(docs, parts, lane, count) >= 0
    &&& forall|lane: GearLane| #[trigger]
        lanes.dom().contains(lane) ==> config_of_doc(
            docs[last_lane_row(docs, parts, lane, count)],
            lanes[lane],
        )
}

/// Configures lanes row by row.
pub fn load_lanes(
    lanes: &mut OrderedMap<GearLane, GearboxConfig>,
    docs: &Vec<GearboxConfigDoc>,
    parts: &Vec<PartId>,
) -> (loaded: Result<(), CreationError>)
    requires
        old(lanes).wf(),
        old(lanes)@ == Map::<GearLane, GearboxConfig>::empty(),
    ensures
        final(lanes).wf(),
        loaded == (match first_fault(lane_faults(docs@, parts@)) {
            Some(error) => Err::<(), CreationError>(error),
            None => Ok(()),
        }),
        loaded is Ok ==> lanes_back(final(lanes)@, docs@, parts@, docs@.len() as int),
{
    let ghost faults = lane_faults(docs@, parts@);
    let mut i: usize = 0;
    while i < docs.len()
        invariant
            i <= docs@.len(),
            lanes.wf(),
            faults == lane_faults(docs@, parts@),
            lanes_back(lanes@, docs@, parts@, i as int),
            forall|k: int| #![trigger faults[k]] 0 <= k < i ==> faults[k] is None,
        decreases docs@.len() - i,
    {
        let doc: &GearboxConfigDoc = &docs[i];
        assert(faults[i as int] == lane_fault(docs@, parts@, i as int));
        let controller: PartId = match resolve_part(doc.controller, parts) {
            Ok(controller) => controller,
            Err(error) => {
                proof {
                    lemma_first_fault(faults, i as int);
                }
                return Err(error);
            },
        };
        let lane: GearLane = GearLane { controller, kind: doc.kind };
        assert(lane == lane_of(*doc, parts@));
        let held: u8 = match lanes.get(lane) {
            Some(config) => config.reverse_gears,
            None => 0,
        };
        assert(held == reverse_held(docs@, parts@, lane, i as int));
        let mut config: GearboxConfig = match GearboxConfig::new(
            doc.mode,
            copy_rows(&doc.ratios),
            held,
            doc.gear_up,
            doc.gear_down,
        ) {
            Ok(config) => config,
            Err(error) => {
                proof {
                    lemma_first_fault(faults, i as int);
                }
                return Err(CreationError::Graph(GraphError::Gearbox(error)));
            },
        };
        match doc.kind {
            EngineKind::Gas => {
                match config.set_reverse_gears(doc.reverse_gears) {
                    Ok(()) => {},
                    Err(error) => {
                        proof {
                            lemma_first_fault(faults, i as int);
                        }
                        return Err(CreationError::Graph(GraphError::Gearbox(error)));
                    },
                }
            },
            EngineKind::Electric => {
                proof {
                    lemma_electric_lane(docs@, parts@, lane, i as int);
                }
            },
        }
        let ghost before = lanes@;
        lanes.insert(lane, config);
        proof {
            assert forall|other: GearLane| #[trigger] lanes@.dom().contains(other) <==> last_lane_row(
                docs@,
                parts@,
                other,
                i + 1,
            ) >= 0 by {
                assert(before.dom().contains(other) <==> last_lane_row(
                    docs@,
                    parts@,
                    other,
                    i as int,
                ) >= 0);
            }
            assert forall|other: GearLane| #[trigger] lanes@.dom().contains(other) implies config_of_doc(
                docs@[last_lane_row(docs@, parts@, other, i + 1)],
                lanes@[other],
            ) by {
                if other != lane {
                    assert(before.dom().contains(other));
                }
            }
        }
        i += 1;
    }
    proof {
        lemma_no_fault(faults);
    }
    Ok(())
}

/// An electric lane never has a reverse bank.
proof fn lemma_electric_lane(
    docs: Seq<GearboxConfigDoc>,
    parts: Seq<PartId>,
    lane: GearLane,
    count: int,
)
    requires
        lane.kind is Electric,
    ensures
        reverse_held(docs, parts, lane, count) == 0,
    decreases count,
{
    if count > 0 && lane_of(docs[count - 1], parts) != lane {
        lemma_electric_lane(docs, parts, lane, count - 1);
    }
}

/// A lane takes its settings from the last row that names it; an electric lane
/// has no reverse bank, whatever its row asks for.
pub proof fn lanes_take_their_last_row(
    lanes: Map<GearLane, GearboxConfig>,
    docs: Seq<GearboxConfigDoc>,
    parts: Seq<PartId>,
    i: int,
)
    requires
        lanes_back(lanes, docs, parts, docs.len() as int),
        0 <= i < docs.len(),
        forall|j: int|
            #![trigger docs[j]]
            i < j < docs.len() ==> parts[docs[j].controller as int]
                != parts[docs[i].controller as int] || docs[j].kind != docs[i].kind,
    ensures
        ({
            let lane = lane_of(docs[i], parts);
            &&& lane.controller == parts[docs[i].controller as int] && lane.kind == docs[i].kind
            &&& lanes.dom().contains(lane)
            &&& lanes[lane].mode == docs[i].mode && lanes[lane].ratios@ == docs[i].ratios@
            &&& lanes[lane].gear_up == docs[i].gear_up && lanes[lane].gear_down
                == docs[i].gear_down
            &&& docs[i].kind is Gas ==> lanes[lane].reverse_gears == docs[i].reverse_gears
            &&& !(docs[i].kind is Gas) ==> lanes[lane].reverse_gears == 0
        }),
{
    lemma_last_row(docs, parts, docs.len() as int, i);
    let lane = lane_of(docs[i], parts);
    assert(lanes.dom().contains(lane));
}

/// The last row that names a lane is found.
proof fn lemma_last_row(docs: Seq<GearboxConfigDoc>, parts: Seq<PartId>, count: int, i: int)
    requires
        0 <= i < count <= docs.len(),
        forall|j: int|
            #![trigger docs[j]]
            i < j < count ==> lane_of(docs[j], parts) != lane_of(docs[i], parts),
    ensures
        last_lane_row(docs, parts, lane_of(docs[i], parts), count) == i,
    decreases count,
{
    if i < count - 1 {
        let last = docs[count - 1];
        lemma_last_row(docs, parts, count - 1, i);
    }
}

/// A lane that no row names has no settings.
pub proof fn lanes_without_a_row_stay_empty(
    lanes: Map<GearLane, GearboxConfig>,
    docs: Seq<GearboxConfigDoc>,
    parts: Seq<PartId>,
    lane: GearLane,
    count: int,
)
    requires
        0 <= count <= docs.len(),
        forall|j: int|
            #![trigger docs[j]]
            0 <= j < count ==> parts[docs[j].controller as int] != lane.controller || docs[j].kind
                != lane.kind,
    ensures
        last_lane_row(docs, parts, lane, count) < 0,
        lanes_back(lanes, docs, parts, count) ==> !lanes.dom().contains(lane),
    decreases count,
{
    if count > 0 {
        let last = docs[count - 1];
        lanes_without_a_row_stay_empty(lanes, docs, parts, lane, count - 1);
    }
}

/// A lane's row is refused for a missing Controller first, then for its strip,
/// then for a reverse bank longer than the strip, its own or one that the lane
/// had before.
pub proof fn lanes_are_refused_in_order(docs: Seq<GearboxConfigDoc>, parts: Seq<PartId>, row: int)
    requires
        0 <= row < docs.len(),
    ensures
        ({
            let doc = docs[row];
            let fault = lane_fault(docs, parts, row);
            let strip = ratios_fault(doc.ratios@);
            &&& doc.controller >= parts.len() ==> fault == Some(
                CreationError::MissingPart(doc.controller),
            )
            &&& doc.controller < parts.len() && strip is Some ==> fault == Some(
                CreationError::Graph(GraphError::Gearbox(strip->0)),
            )
            &&& doc.controller < parts.len() && strip is None && doc.kind is Gas
                && doc.reverse_gears > doc.ratios@.len() ==> fault == Some(
                CreationError::Graph(GraphError::Gearbox(GearboxError::InvalidReverseGearCount)),
            )
            &&& fault is None ==> doc.controller < parts.len() && strip is None && (doc.kind is Gas
                ==> doc.reverse_gears <= doc.ratios@.len())
            &&& row == 0 && doc.controller < parts.len() && strip is None && (doc.kind is Gas
                ==> doc.reverse_gears <= doc.ratios@.len()) ==> fault is None
        }),
{
}

} // verus!
