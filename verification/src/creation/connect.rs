//! Connections, regions, features and controls of a saved creation, back in a construction.

use vstd::prelude::*;

use super::doc::{
    BearingDoc, BearingSocketDoc, CreationError, DriveLinkDoc, EdgeChainRefDoc, FaceOwnerDoc,
    FaceRefDoc, GraphError, InputSeatLinkDoc, JointCheck, RigidLinkDoc, RingCheck,
    SeatControllerLinkDoc, ShapeFeatureDoc, WeldDoc,
};
use super::rows::{
    chains_come_back_where_they_were, program_doc_fault, resolve_edge_chain, resolve_face,
    resolve_limits, resolve_part, resolve_program, resolved_chain, resolved_face, resolved_limits,
    resolved_part, states_of_docs, unlimited_torque_is_left_out,
};
use crate::arena::Arena;
use crate::drive::{DriveLimits, DriveProgram};
use crate::ids::{
    BearingId, DriveLinkId, InputSeatLinkId, PartId, RegionId, RigidLinkId, SeatControllerLinkId,
    ShapeFeatureId, WeldId,
};
use crate::parts::{
    BearingSocket, BearingSpec, DriveLinkSpec, EdgeChainRef, FaceRef, InputSeatLinkSpec,
    JointHardware, RigidLinkSpec, SeatControllerLinkSpec, ShapeFeature, WeldSpec,
};

verus! {

/// The earliest fault of rows in order.
pub open spec fn first_fault(faults: Seq<Option<CreationError>>) -> Option<CreationError>
    decreases faults.len(),
{
    if faults.len() == 0 {
        None
    } else {
        match first_fault(faults.drop_last()) {
            Some(error) => Some(error),
            None => faults.last(),
        }
    }
}

/// A row with a fault behind rows without one is the earliest.
pub proof fn lemma_first_fault(faults: Seq<Option<CreationError>>, at: int)
    requires
        0 <= at < faults.len(),
        forall|i: int| #![trigger faults[i]] 0 <= i < at ==> faults[i] is None,
        faults[at] is Some,
    ensures
        first_fault(faults) == faults[at],
    decreases faults.len(),
{
    let shorter = faults.drop_last();
    if at == faults.len() - 1 {
        assert forall|i: int| #![trigger shorter[i]] 0 <= i < shorter.len() implies shorter[i] is None by {
            assert(faults[i] is None);
        }
        lemma_no_fault(shorter);
    } else {
        assert forall|i: int| #![trigger shorter[i]] 0 <= i < at implies shorter[i] is None by {
            assert(faults[i] is None);
        }
        assert(shorter[at] == faults[at]);
        lemma_first_fault(shorter, at);
    }
}

/// Rows without a fault have no earliest one.
pub proof fn lemma_no_fault(faults: Seq<Option<CreationError>>)
    requires
        forall|i: int| #![trigger faults[i]] 0 <= i < faults.len() ==> faults[i] is None,
    ensures
        first_fault(faults) is None,
    decreases faults.len(),
{
    if faults.len() > 0 {
        let shorter = faults.drop_last();
        assert forall|i: int| #![trigger shorter[i]] 0 <= i < shorter.len() implies shorter[i] is None by {
            assert(faults[i] is None);
        }
        lemma_no_fault(shorter);
        assert(faults[faults.len() - 1] is None);
    }
}

/// Why a row is refused, if it is.
pub open spec fn fault_in<T>(resolved: Result<T, CreationError>) -> Option<CreationError> {
    match resolved {
        Ok(_) => None,
        Err(error) => Some(error),
    }
}

/// Handles of the first `count` regions to come back.
pub open spec fn region_ids(count: nat) -> Seq<RegionId> {
    Seq::new(count, |i: int| RegionId { index: i as u32, generation: 0 })
}

/// Handles of the first `count` features to come back.
pub open spec fn feature_ids(count: nat) -> Seq<ShapeFeatureId> {
    Seq::new(count, |i: int| ShapeFeatureId { index: i as u32, generation: 0 })
}

/// Handles of the first `count` joints to come back.
pub open spec fn bearing_ids(count: nat) -> Seq<BearingId> {
    Seq::new(count, |i: int| BearingId { index: i as u32, generation: 0 })
}

/// Whether a weld touches a trimmed or generated surface.
pub open spec fn weld_patched(doc: WeldDoc) -> bool {
    doc.first.patch is Some || doc.second.patch is Some
}

/// The weld of a row.
pub open spec fn resolved_weld(
    doc: WeldDoc,
    parts: Seq<PartId>,
    features: Seq<ShapeFeatureId>,
) -> Result<WeldSpec, CreationError> {
    match resolved_face(doc.first, parts, features) {
        Err(error) => Err(error),
        Ok(first) => match resolved_face(doc.second, parts, features) {
            Err(error) => Err(error),
            Ok(second) => Ok(WeldSpec { first, second }),
        },
    }
}

/// The rows among the first `count` welds that do or do not touch such a surface.
pub open spec fn welds_where(docs: Seq<WeldDoc>, patched: bool, count: int) -> Seq<WeldDoc>
    decreases count,
{
    if count <= 0 {
        Seq::empty()
    } else if weld_patched(docs[count - 1]) == patched {
        welds_where(docs, patched, count - 1).push(docs[count - 1])
    } else {
        welds_where(docs, patched, count - 1)
    }
}

/// Faults of welds.
pub open spec fn weld_faults(
    docs: Seq<WeldDoc>,
    parts: Seq<PartId>,
    features: Seq<ShapeFeatureId>,
) -> Seq<Option<CreationError>> {
    docs.map_values(|doc: WeldDoc| fault_in(resolved_weld(doc, parts, features)))
}

/// Welds of rows without a fault.
pub open spec fn welds_of(
    docs: Seq<WeldDoc>,
    parts: Seq<PartId>,
    features: Seq<ShapeFeatureId>,
) -> Seq<WeldSpec> {
    docs.map_values(|doc: WeldDoc| resolved_weld(doc, parts, features)->Ok_0)
}

/// Rows picked from more rows start with the rows picked before.
proof fn lemma_welds_where(docs: Seq<WeldDoc>, patched: bool, short: int, long: int)
    requires
        0 <= short <= long <= docs.len(),
    ensures
        welds_where(docs, patched, short).len() <= short,
        welds_where(docs, patched, short).len() <= welds_where(docs, patched, long).len(),
        welds_where(docs, patched, long).take(welds_where(docs, patched, short).len() as int)
            == welds_where(docs, patched, short),
    decreases long,
{
    if short < long {
        lemma_welds_where(docs, patched, short, long - 1);
        let picked = welds_where(docs, patched, short);
        let longer = welds_where(docs, patched, long);
        assert(longer.take(picked.len() as int) =~= welds_where(docs, patched, long - 1).take(
            picked.len() as int,
        ));
    } else {
        if short > 0 {
            lemma_welds_where(docs, patched, short - 1, short - 1);
        }
        let picked = welds_where(docs, patched, short);
        assert(picked.take(picked.len() as int) =~= picked);
    }
}

/// Puts back the welds that do or do not touch trimmed or generated surfaces.
pub fn load_welds(
    welds: &mut Arena<WeldId, WeldSpec>,
    docs: &Vec<WeldDoc>,
    patched: bool,
    parts: &Vec<PartId>,
    features: &Vec<ShapeFeatureId>,
) -> (loaded: Result<(), CreationError>)
    requires
        old(welds).wf(),
        old(welds).gapless(),
        old(welds).rows.keys@.len() + welds_where(docs@, patched, docs@.len() as int).len()
            < u32::MAX,
    ensures
        final(welds).wf(),
        final(welds).gapless(),
        loaded == (match first_fault(
            weld_faults(welds_where(docs@, patched, docs@.len() as int), parts@, features@),
        ) {
            Some(error) => Err::<(), CreationError>(error),
            None => Ok(()),
        }),
        loaded is Ok ==> final(welds).rows.values@ == old(welds).rows.values@ + welds_of(
            welds_where(docs@, patched, docs@.len() as int),
            parts@,
            features@,
        ),
{
    let ghost before = welds.rows.values@;
    let ghost all = welds_where(docs@, patched, docs@.len() as int);
    let ghost faults = weld_faults(all, parts@, features@);
    let mut i: usize = 0;
    while i < docs.len()
        invariant
            i <= docs@.len(),
            welds.wf(),
            welds.gapless(),
            before == old(welds).rows.values@,
            before.len() + all.len() < u32::MAX,
            all == welds_where(docs@, patched, docs@.len() as int),
            faults == weld_faults(all, parts@, features@),
            welds.rows.values@ == before + welds_of(
                welds_where(docs@, patched, i as int),
                parts@,
                features@,
            ),
            forall|k: int|
                #![trigger faults[k]]
                0 <= k < welds_where(docs@, patched, i as int).len() ==> faults[k] is None,
        decreases docs@.len() - i,
    {
        let doc: WeldDoc = docs[i];
        let touches: bool = doc.first.patch.is_some() || doc.second.patch.is_some();
        if touches == patched {
            let ghost picked = welds_where(docs@, patched, i as int);
            proof {
                lemma_welds_where(docs@, patched, i as int, i + 1);
                lemma_welds_where(docs@, patched, i + 1, docs@.len() as int);
                assert(all.take((picked.len() + 1) as int)[picked.len() as int] == doc);
                assert(faults[picked.len() as int] == fault_in(
                    resolved_weld(doc, parts@, features@),
                ));
            }
            let first: FaceRef = match resolve_face(doc.first, parts, features) {
                Ok(first) => first,
                Err(error) => {
                    proof {
                        lemma_first_fault(faults, picked.len() as int);
                    }
                    return Err(error);
                },
            };
            let second: FaceRef = match resolve_face(doc.second, parts, features) {
                Ok(second) => second,
                Err(error) => {
                    proof {
                        lemma_first_fault(faults, picked.len() as int);
                    }
                    return Err(error);
                },
            };
            welds.append(WeldSpec { first, second });
            proof {
                assert(welds.rows.values@ =~= before + welds_of(
                    picked.push(doc),
                    parts@,
                    features@,
                ));
            }
        }
        i += 1;
    }
    proof {
        lemma_no_fault(faults);
    }
    Ok(())
}

/// The rigid link of a row.
pub open spec fn resolved_rigid(doc: RigidLinkDoc, parts: Seq<PartId>) -> Result<
    RigidLinkSpec,
    CreationError,
> {
    match resolved_part(doc.first, parts) {
        Err(error) => Err(error),
        Ok(first) => match resolved_part(doc.second, parts) {
            Err(error) => Err(error),
            Ok(second) => Ok(RigidLinkSpec { first, second }),
        },
    }
}

/// Faults of rigid links.
pub open spec fn rigid_faults(docs: Seq<RigidLinkDoc>, parts: Seq<PartId>) -> Seq<
    Option<CreationError>,
> {
    docs.map_values(|doc: RigidLinkDoc| fault_in(resolved_rigid(doc, parts)))
}

/// Rigid links of rows without a fault.
pub open spec fn rigids_of(docs: Seq<RigidLinkDoc>, parts: Seq<PartId>) -> Seq<RigidLinkSpec> {
    docs.map_values(|doc: RigidLinkDoc| resolved_rigid(doc, parts)->Ok_0)
}

/// Puts rigid links back.
pub fn load_rigid_links(
    links: &mut Arena<RigidLinkId, RigidLinkSpec>,
    docs: &Vec<RigidLinkDoc>,
    parts: &Vec<PartId>,
) -> (loaded: Result<(), CreationError>)
    requires
        old(links).wf(),
        old(links).gapless(),
        old(links).rows.keys@.len() == 0,
        docs@.len() < u32::MAX,
    ensures
        final(links).wf(),
        final(links).gapless(),
        loaded == (match first_fault(rigid_faults(docs@, parts@)) {
            Some(error) => Err::<(), CreationError>(error),
            None => Ok(()),
        }),
        loaded is Ok ==> final(links).rows.values@ == rigids_of(docs@, parts@),
{
    let ghost faults = rigid_faults(docs@, parts@);
    let mut i: usize = 0;
    while i < docs.len()
        invariant
            i <= docs@.len() < u32::MAX,
            links.wf(),
            links.gapless(),
            faults == rigid_faults(docs@, parts@),
            links.rows.values@ == rigids_of(docs@.take(i as int), parts@),
            forall|k: int| #![trigger faults[k]] 0 <= k < i ==> faults[k] is None,
        decreases docs@.len() - i,
    {
        let doc: RigidLinkDoc = docs[i];
        assert(faults[i as int] == fault_in(resolved_rigid(doc, parts@)));
        let first: PartId = match resolve_part(doc.first, parts) {
            Ok(first) => first,
            Err(error) => {
                proof {
                    lemma_first_fault(faults, i as int);
                }
                return Err(error);
            },
        };
        let second: PartId = match resolve_part(doc.second, parts) {
            Ok(second) => second,
            Err(error) => {
                proof {
                    lemma_first_fault(faults, i as int);
                }
                return Err(error);
            },
        };
        links.append(RigidLinkSpec { first, second });
        assert(links.rows.values@ =~= rigids_of(docs@.take(i + 1), parts@));
        i += 1;
    }
    proof {
        lemma_no_fault(faults);
        assert(docs@.take(i as int) =~= docs@);
    }
    Ok(())
}

/// The Input-to-Seat link of a row.
pub open spec fn resolved_input_link(doc: InputSeatLinkDoc, parts: Seq<PartId>) -> Result<
    InputSeatLinkSpec,
    CreationError,
> {
    match resolved_part(doc.input, parts) {
        Err(error) => Err(error),
        Ok(input) => match resolved_part(doc.seat, parts) {
            Err(error) => Err(error),
            Ok(seat) => Ok(InputSeatLinkSpec { input, seat }),
        },
    }
}

/// Faults of Input-to-Seat links.
pub open spec fn input_link_faults(docs: Seq<InputSeatLinkDoc>, parts: Seq<PartId>) -> Seq<
    Option<CreationError>,
> {
    docs.map_values(|doc: InputSeatLinkDoc| fault_in(resolved_input_link(doc, parts)))
}

/// The Input-to-Seat links of rows without a fault.
pub open spec fn input_links_of(docs: Seq<InputSeatLinkDoc>, parts: Seq<PartId>) -> Seq<
    InputSeatLinkSpec,
> {
    docs.map_values(|doc: InputSeatLinkDoc| resolved_input_link(doc, parts)->Ok_0)
}

/// Puts Input-to-Seat links back.
pub fn load_input_links(
    links: &mut Arena<InputSeatLinkId, InputSeatLinkSpec>,
    docs: &Vec<InputSeatLinkDoc>,
    parts: &Vec<PartId>,
) -> (loaded: Result<(), CreationError>)
    requires
        old(links).wf(),
        old(links).gapless(),
        old(links).rows.keys@.len() == 0,
        docs@.len() < u32::MAX,
    ensures
        final(links).wf(),
        final(links).gapless(),
        loaded == (match first_fault(input_link_faults(docs@, parts@)) {
            Some(error) => Err::<(), CreationError>(error),
            None => Ok(()),
        }),
        loaded is Ok ==> final(links).rows.values@ == input_links_of(docs@, parts@),
{
    let ghost faults = input_link_faults(docs@, parts@);
    let mut i: usize = 0;
    while i < docs.len()
        invariant
            i <= docs@.len() < u32::MAX,
            links.wf(),
            links.gapless(),
            faults == input_link_faults(docs@, parts@),
            links.rows.values@ == input_links_of(docs@.take(i as int), parts@),
            forall|k: int| #![trigger faults[k]] 0 <= k < i ==> faults[k] is None,
        decreases docs@.len() - i,
    {
        let doc: InputSeatLinkDoc = docs[i];
        assert(faults[i as int] == fault_in(resolved_input_link(doc, parts@)));
        let input: PartId = match resolve_part(doc.input, parts) {
            Ok(input) => input,
            Err(error) => {
                proof {
                    lemma_first_fault(faults, i as int);
                }
                return Err(error);
            },
        };
        let seat: PartId = match resolve_part(doc.seat, parts) {
            Ok(seat) => seat,
            Err(error) => {
                proof {
                    lemma_first_fault(faults, i as int);
                }
                return Err(error);
            },
        };
        links.append(InputSeatLinkSpec { input, seat });
        assert(links.rows.values@ =~= input_links_of(docs@.take(i + 1), parts@));
        i += 1;
    }
    proof {
        lemma_no_fault(faults);
        assert(docs@.take(i as int) =~= docs@);
    }
    Ok(())
}

/// The Seat-to-Controller link of a row.
pub open spec fn resolved_seat_link(doc: SeatControllerLinkDoc, parts: Seq<PartId>) -> Result<
    SeatControllerLinkSpec,
    CreationError,
> {
    match resolved_part(doc.seat, parts) {
        Err(error) => Err(error),
        Ok(seat) => match resolved_part(doc.controller, parts) {
            Err(error) => Err(error),
            Ok(controller) => Ok(SeatControllerLinkSpec { seat, controller }),
        },
    }
}

/// Faults of Seat-to-Controller links.
pub open spec fn seat_link_faults(docs: Seq<SeatControllerLinkDoc>, parts: Seq<PartId>) -> Seq<
    Option<CreationError>,
> {
    docs.map_values(|doc: SeatControllerLinkDoc| fault_in(resolved_seat_link(doc, parts)))
}

/// The Seat-to-Controller links of rows without a fault.
pub open spec fn seat_links_of(docs: Seq<SeatControllerLinkDoc>, parts: Seq<PartId>) -> Seq<
    SeatControllerLinkSpec,
> {
    docs.map_values(|doc: SeatControllerLinkDoc| resolved_seat_link(doc, parts)->Ok_0)
}

/// Puts Seat-to-Controller links back.
pub fn load_seat_links(
    links: &mut Arena<SeatControllerLinkId, SeatControllerLinkSpec>,
    docs: &Vec<SeatControllerLinkDoc>,
    parts: &Vec<PartId>,
) -> (loaded: Result<(), CreationError>)
    requires
        old(links).wf(),
        old(links).gapless(),
        old(links).rows.keys@.len() == 0,
        docs@.len() < u32::MAX,
    ensures
        final(links).wf(),
        final(links).gapless(),
        loaded == (match first_fault(seat_link_faults(docs@, parts@)) {
            Some(error) => Err::<(), CreationError>(error),
            None => Ok(()),
        }),
        loaded is Ok ==> final(links).rows.values@ == seat_links_of(docs@, parts@),
{
    let ghost faults = seat_link_faults(docs@, parts@);
    let mut i: usize = 0;
    while i < docs.len()
        invariant
            i <= docs@.len() < u32::MAX,
            links.wf(),
            links.gapless(),
            faults == seat_link_faults(docs@, parts@),
            links.rows.values@ == seat_links_of(docs@.take(i as int), parts@),
            forall|k: int| #![trigger faults[k]] 0 <= k < i ==> faults[k] is None,
        decreases docs@.len() - i,
    {
        let doc: SeatControllerLinkDoc = docs[i];
        assert(faults[i as int] == fault_in(resolved_seat_link(doc, parts@)));
        let seat: PartId = match resolve_part(doc.seat, parts) {
            Ok(seat) => seat,
            Err(error) => {
                proof {
                    lemma_first_fault(faults, i as int);
                }
                return Err(error);
            },
        };
        let controller: PartId = match resolve_part(doc.controller, parts) {
            Ok(controller) => controller,
            Err(error) => {
                proof {
                    lemma_first_fault(faults, i as int);
                }
                return Err(error);
            },
        };
        links.append(SeatControllerLinkSpec { seat, controller });
        assert(links.rows.values@ =~= seat_links_of(docs@.take(i + 1), parts@));
        i += 1;
    }
    proof {
        lemma_no_fault(faults);
        assert(docs@.take(i as int) =~= docs@);
    }
    Ok(())
}

/// The joint of a row: its source first, then its target.
pub open spec fn resolved_bearing(
    doc: BearingDoc,
    parts: Seq<PartId>,
    features: Seq<ShapeFeatureId>,
) -> Result<BearingSpec, CreationError> {
    let target = match doc.target {
        Some(face) => match resolved_face(face, parts, features) {
            Ok(face) => Ok(Some(face)),
            Err(error) => Err(error),
        },
        None => Ok(None),
    };
    match resolved_face(doc.source, parts, features) {
        Err(error) => Err(error),
        Ok(source) => match target {
            Err(error) => Err(error),
            Ok(target) => Ok(
                BearingSpec {
                    source,
                    target,
                    shared_anchor: doc.anchor,
                    axis: doc.axis,
                    kind: doc.kind,
                    outer_diameter: doc.outer_diameter,
                    inner_diameter: doc.inner_diameter,
                },
            ),
        },
    }
}

/// Why a joint's row is refused, if it is: a face that the file does not hold,
/// then its dimensions.
pub open spec fn bearing_fault(
    doc: BearingDoc,
    check: JointCheck,
    parts: Seq<PartId>,
    features: Seq<ShapeFeatureId>,
) -> Option<CreationError> {
    match resolved_bearing(doc, parts, features) {
        Err(error) => Some(error),
        Ok(_) => match check.dimensions {
            Err(error) => Some(CreationError::BearingDimension(error)),
            Ok(_) => None,
        },
    }
}

/// Faults of joints' rows.
pub open spec fn bearing_faults(
    docs: Seq<BearingDoc>,
    checks: Seq<JointCheck>,
    parts: Seq<PartId>,
    features: Seq<ShapeFeatureId>,
) -> Seq<Option<CreationError>> {
    Seq::new(docs.len(), |i: int| bearing_fault(docs[i], checks[i], parts, features))
}

/// Why a construction does not take a joint, if it does not: a side on the
/// ground, its axis, then its anchor.
pub open spec fn mount_fault(on_ground: bool, check: JointCheck) -> Option<CreationError> {
    if on_ground {
        Some(CreationError::Graph(GraphError::BearingOnGround))
    } else if !check.axis_fits {
        Some(CreationError::Graph(GraphError::InvalidBearingAxis))
    } else if !check.anchor_fits {
        Some(CreationError::Graph(GraphError::BearingAnchorOutsideFaces))
    } else {
        None
    }
}

/// Whether a joint has a side on the ground.
pub open spec fn bearing_on_ground(doc: BearingDoc) -> bool {
    doc.source.owner is Ground || (doc.target is Some && doc.target->0.owner is Ground)
}

/// Faults of joints that a construction does not take.
pub open spec fn bearing_mount_faults(docs: Seq<BearingDoc>, checks: Seq<JointCheck>) -> Seq<
    Option<CreationError>,
> {
    Seq::new(docs.len(), |i: int| mount_fault(bearing_on_ground(docs[i]), checks[i]))
}

/// Why joints are refused, if they are: every row is read before the
/// construction takes the first.
pub open spec fn joints_fault(
    docs: Seq<BearingDoc>,
    checks: Seq<JointCheck>,
    parts: Seq<PartId>,
    features: Seq<ShapeFeatureId>,
) -> Option<CreationError> {
    match first_fault(bearing_faults(docs, checks, parts, features)) {
        Some(error) => Some(error),
        None => first_fault(bearing_mount_faults(docs, checks)),
    }
}

/// Joints of rows without a fault.
pub open spec fn bearings_of(
    docs: Seq<BearingDoc>,
    parts: Seq<PartId>,
    features: Seq<ShapeFeatureId>,
) -> Seq<BearingSpec> {
    docs.map_values(|doc: BearingDoc| resolved_bearing(doc, parts, features)->Ok_0)
}

/// The joint of a row.
fn resolve_bearing(
    doc: BearingDoc,
    parts: &Vec<PartId>,
    features: &Vec<ShapeFeatureId>,
) -> (bearing: Result<BearingSpec, CreationError>)
    ensures
        bearing == resolved_bearing(doc, parts@, features@),
{
    let source: FaceRef = match resolve_face(doc.source, parts, features) {
        Ok(source) => source,
        Err(error) => {
            return Err(error);
        },
    };
    let target: Option<FaceRef> = match doc.target {
        Some(face) => match resolve_face(face, parts, features) {
            Ok(face) => Some(face),
            Err(error) => {
                return Err(error);
            },
        },
        None => None,
    };
    Ok(
        BearingSpec {
            source,
            target,
            shared_anchor: doc.anchor,
            axis: doc.axis,
            kind: doc.kind,
            outer_diameter: doc.outer_diameter,
            inner_diameter: doc.inner_diameter,
        },
    )
}

/// Whether a face is the ground's.
fn on_ground(face: FaceRefDoc) -> (ground: bool)
    ensures
        ground == (face.owner is Ground),
{
    match face.owner {
        FaceOwnerDoc::Ground => true,
        _ => false,
    }
}

/// Why a construction does not take a joint, if it does not.
fn check_mount(ground: bool, check: &JointCheck) -> (fault: Option<CreationError>)
    ensures
        fault == mount_fault(ground, *check),
{
    if ground {
        Some(CreationError::Graph(GraphError::BearingOnGround))
    } else if !check.axis_fits {
        Some(CreationError::Graph(GraphError::InvalidBearingAxis))
    } else if !check.anchor_fits {
        Some(CreationError::Graph(GraphError::BearingAnchorOutsideFaces))
    } else {
        None
    }
}

/// Checks that a construction takes every joint.
fn check_bearing_mounts(docs: &Vec<BearingDoc>, checks: &Vec<JointCheck>) -> (checked: Result<
    (),
    CreationError,
>)
    requires
        checks@.len() == docs@.len(),
    ensures
        checked == (match first_fault(bearing_mount_faults(docs@, checks@)) {
            Some(error) => Err::<(), CreationError>(error),
            None => Ok(()),
        }),
{
    let ghost faults = bearing_mount_faults(docs@, checks@);
    let mut i: usize = 0;
    while i < docs.len()
        invariant
            i <= docs@.len(),
            checks@.len() == docs@.len(),
            faults == bearing_mount_faults(docs@, checks@),
            forall|k: int| #![trigger faults[k]] 0 <= k < i ==> faults[k] is None,
        decreases docs@.len() - i,
    {
        let doc: BearingDoc = docs[i];
        let target: bool = match doc.target {
            Some(face) => on_ground(face),
            None => false,
        };
        let ground: bool = on_ground(doc.source) || target;
        assert(faults[i as int] == mount_fault(bearing_on_ground(doc), checks@[i as int]));
        match check_mount(ground, &checks[i]) {
            Some(error) => {
                proof {
                    lemma_first_fault(faults, i as int);
                }
                return Err(error);
            },
            None => {},
        }
        i += 1;
    }
    proof {
        lemma_no_fault(faults);
    }
    Ok(())
}

/// Puts joints back, given what measuring each row gave.
pub fn load_bearings(
    bearings: &mut Arena<BearingId, BearingSpec>,
    docs: &Vec<BearingDoc>,
    checks: &Vec<JointCheck>,
    parts: &Vec<PartId>,
    features: &Vec<ShapeFeatureId>,
) -> (loaded: Result<Vec<BearingId>, CreationError>)
    requires
        old(bearings).wf(),
        old(bearings).gapless(),
        old(bearings).rows.keys@.len() == 0,
        docs@.len() < u32::MAX,
        checks@.len() == docs@.len(),
    ensures
        final(bearings).wf(),
        final(bearings).gapless(),
        match joints_fault(docs@, checks@, parts@, features@) {
            Some(error) => loaded == Err::<Vec<BearingId>, CreationError>(error),
            None => {
                &&& loaded is Ok
                &&& loaded->Ok_0@ == bearing_ids(docs@.len())
                &&& final(bearings).rows.values@ == bearings_of(docs@, parts@, features@)
            },
        },
{
    let ghost faults = bearing_faults(docs@, checks@, parts@, features@);
    let mut ids: Vec<BearingId> = Vec::new();
    let mut i: usize = 0;
    while i < docs.len()
        invariant
            i <= docs@.len() < u32::MAX,
            checks@.len() == docs@.len(),
            bearings.wf(),
            bearings.gapless(),
            faults == bearing_faults(docs@, checks@, parts@, features@),
            ids@ == bearing_ids(i as nat),
            bearings.rows.values@ == bearings_of(docs@.take(i as int), parts@, features@),
            forall|k: int| #![trigger faults[k]] 0 <= k < i ==> faults[k] is None,
        decreases docs@.len() - i,
    {
        let doc: BearingDoc = docs[i];
        assert(faults[i as int] == bearing_fault(doc, checks@[i as int], parts@, features@));
        match resolve_bearing(doc, parts, features) {
            Ok(bearing) => {
                match checks[i].dimensions {
                    Ok(()) => {},
                    Err(error) => {
                        proof {
                            lemma_first_fault(faults, i as int);
                        }
                        return Err(CreationError::BearingDimension(error));
                    },
                }
                let id: BearingId = bearings.append(bearing);
                ids.push(id);
            },
            Err(error) => {
                proof {
                    lemma_first_fault(faults, i as int);
                }
                return Err(error);
            },
        }
        assert(bearings.rows.values@ =~= bearings_of(docs@.take(i + 1), parts@, features@));
        assert(ids@ =~= bearing_ids((i + 1) as nat));
        i += 1;
    }
    proof {
        lemma_no_fault(faults);
        assert(docs@.take(i as int) =~= docs@);
    }
    match check_bearing_mounts(docs, checks) {
        Ok(()) => Ok(ids),
        Err(error) => Err(error),
    }
}

/// The ring of a row.
pub open spec fn resolved_socket(
    doc: BearingSocketDoc,
    parts: Seq<PartId>,
    features: Seq<ShapeFeatureId>,
) -> Result<BearingSocket, CreationError> {
    match resolved_face(doc.source, parts, features) {
        Err(error) => Err(error),
        Ok(source) => Ok(
            BearingSocket {
                kind: doc.kind,
                axis: doc.axis,
                source,
                anchor: doc.anchor,
                outer_diameter: doc.outer_diameter,
                inner_diameter: doc.inner_diameter,
            },
        ),
    }
}

/// Why a ring is refused, if it is: a rail without a rotation, a face that the
/// file does not hold, its dimensions, the ground under it, its axis, then its
/// anchor.
pub open spec fn socket_fault(
    doc: BearingSocketDoc,
    check: RingCheck,
    parts: Seq<PartId>,
    features: Seq<ShapeFeatureId>,
) -> Option<CreationError> {
    if doc.kind.hardware is Linear && check.rail is Err {
        Some(CreationError::LinearBearing(check.rail->Err_0))
    } else {
        match resolved_socket(doc, parts, features) {
            Err(error) => Some(error),
            Ok(_) => match check.joint.dimensions {
                Err(error) => Some(CreationError::BearingDimension(error)),
                Ok(_) => mount_fault(doc.source.owner is Ground, check.joint),
            },
        }
    }
}

/// Faults of rings.
pub open spec fn socket_faults(
    docs: Seq<BearingSocketDoc>,
    checks: Seq<RingCheck>,
    parts: Seq<PartId>,
    features: Seq<ShapeFeatureId>,
) -> Seq<Option<CreationError>> {
    Seq::new(docs.len(), |i: int| socket_fault(docs[i], checks[i], parts, features))
}

/// Rings of rows without a fault.
pub open spec fn sockets_of(
    docs: Seq<BearingSocketDoc>,
    parts: Seq<PartId>,
    features: Seq<ShapeFeatureId>,
) -> Seq<BearingSocket> {
    docs.map_values(|doc: BearingSocketDoc| resolved_socket(doc, parts, features)->Ok_0)
}

/// The ring of a row, given what measuring it gave.
fn resolve_socket(
    doc: &BearingSocketDoc,
    check: &RingCheck,
    parts: &Vec<PartId>,
    features: &Vec<ShapeFeatureId>,
) -> (socket: Result<BearingSocket, CreationError>)
    ensures
        match socket_fault(*doc, *check, parts@, features@) {
            Some(error) => socket == Err::<BearingSocket, CreationError>(error),
            None => socket == resolved_socket(*doc, parts@, features@),
        },
{
    match doc.kind.hardware {
        JointHardware::Linear { .. } => match check.rail {
            Ok(()) => {},
            Err(error) => {
                return Err(CreationError::LinearBearing(error));
            },
        },
        _ => {},
    }
    let source: FaceRef = match resolve_face(doc.source, parts, features) {
        Ok(source) => source,
        Err(error) => {
            return Err(error);
        },
    };
    match check.joint.dimensions {
        Ok(()) => {},
        Err(error) => {
            return Err(CreationError::BearingDimension(error));
        },
    }
    match check_mount(on_ground(doc.source), &check.joint) {
        Some(error) => {
            return Err(error);
        },
        None => {},
    }
    Ok(
        BearingSocket {
            kind: doc.kind,
            axis: doc.axis,
            source,
            anchor: doc.anchor,
            outer_diameter: doc.outer_diameter,
            inner_diameter: doc.inner_diameter,
        },
    )
}

/// Brings back rings that nothing is attached through, given what measuring
/// each row gave.
pub fn load_sockets(
    docs: &Vec<BearingSocketDoc>,
    checks: &Vec<RingCheck>,
    parts: &Vec<PartId>,
    features: &Vec<ShapeFeatureId>,
) -> (loaded: Result<Vec<BearingSocket>, CreationError>)
    requires
        checks@.len() == docs@.len(),
    ensures
        match first_fault(socket_faults(docs@, checks@, parts@, features@)) {
            Some(error) => loaded == Err::<Vec<BearingSocket>, CreationError>(error),
            None => loaded is Ok && loaded->Ok_0@ == sockets_of(docs@, parts@, features@),
        },
{
    let ghost faults = socket_faults(docs@, checks@, parts@, features@);
    let mut sockets: Vec<BearingSocket> = Vec::new();
    let mut i: usize = 0;
    while i < docs.len()
        invariant
            i <= docs@.len(),
            checks@.len() == docs@.len(),
            faults == socket_faults(docs@, checks@, parts@, features@),
            sockets@ == sockets_of(docs@.take(i as int), parts@, features@),
            forall|k: int| #![trigger faults[k]] 0 <= k < i ==> faults[k] is None,
        decreases docs@.len() - i,
    {
        assert(faults[i as int] == socket_fault(
            docs@[i as int],
            checks@[i as int],
            parts@,
            features@,
        ));
        match resolve_socket(&docs[i], &checks[i], parts, features) {
            Ok(socket) => {
                sockets.push(socket);
            },
            Err(error) => {
                proof {
                    lemma_first_fault(faults, i as int);
                }
                return Err(error);
            },
        }
        assert(sockets@ =~= sockets_of(docs@.take(i + 1), parts@, features@));
        i += 1;
    }
    proof {
        lemma_no_fault(faults);
        assert(docs@.take(i as int) =~= docs@);
    }
    Ok(sockets)
}

/// Faults of the chains that a feature treats.
pub open spec fn chain_faults(
    docs: Seq<EdgeChainRefDoc>,
    parts: Seq<PartId>,
    regions: Seq<RegionId>,
    features: Seq<ShapeFeatureId>,
) -> Seq<Option<CreationError>> {
    docs.map_values(
        |doc: EdgeChainRefDoc| fault_in(resolved_chain(doc, parts, regions, features)),
    )
}

/// Chains of rows without a fault.
pub open spec fn chains_of(
    docs: Seq<EdgeChainRefDoc>,
    parts: Seq<PartId>,
    regions: Seq<RegionId>,
    features: Seq<ShapeFeatureId>,
) -> Seq<EdgeChainRef> {
    docs.map_values(|doc: EdgeChainRefDoc| resolved_chain(doc, parts, regions, features)->Ok_0)
}

/// Faults of features. A feature treats chains of parts, regions and earlier features.
pub open spec fn feature_faults(
    docs: Seq<ShapeFeatureDoc>,
    parts: Seq<PartId>,
    regions: Seq<RegionId>,
) -> Seq<Option<CreationError>> {
    Seq::new(
        docs.len(),
        |i: int| first_fault(chain_faults(docs[i].targets@, parts, regions, feature_ids(i as nat))),
    )
}

/// Whether row `i` describes a feature.
pub open spec fn feature_of_doc(
    docs: Seq<ShapeFeatureDoc>,
    i: int,
    parts: Seq<PartId>,
    regions: Seq<RegionId>,
    feature: ShapeFeature,
) -> bool {
    &&& feature.targets@ == chains_of(docs[i].targets@, parts, regions, feature_ids(i as nat))
    &&& feature.treatment == docs[i].treatment
    &&& feature.amount_ticks == docs[i].amount_ticks
}

/// The chains of rows.
fn resolve_chains(
    docs: &Vec<EdgeChainRefDoc>,
    parts: &Vec<PartId>,
    regions: &Vec<RegionId>,
    features: &Vec<ShapeFeatureId>,
) -> (chains: Result<Vec<EdgeChainRef>, CreationError>)
    ensures
        match first_fault(chain_faults(docs@, parts@, regions@, features@)) {
            Some(error) => chains == Err::<Vec<EdgeChainRef>, CreationError>(error),
            None => chains is Ok && chains->Ok_0@ == chains_of(
                docs@,
                parts@,
                regions@,
                features@,
            ),
        },
{
    let ghost faults = chain_faults(docs@, parts@, regions@, features@);
    let mut chains: Vec<EdgeChainRef> = Vec::new();
    let mut i: usize = 0;
    while i < docs.len()
        invariant
            i <= docs@.len(),
            faults == chain_faults(docs@, parts@, regions@, features@),
            chains@ == chains_of(docs@.take(i as int), parts@, regions@, features@),
            forall|k: int| #![trigger faults[k]] 0 <= k < i ==> faults[k] is None,
        decreases docs@.len() - i,
    {
        assert(faults[i as int] == fault_in(
            resolved_chain(docs@[i as int], parts@, regions@, features@),
        ));
        match resolve_edge_chain(docs[i], parts, regions, features) {
            Ok(chain) => {
                chains.push(chain);
            },
            Err(error) => {
                proof {
                    lemma_first_fault(faults, i as int);
                }
                return Err(error);
            },
        }
        assert(chains@ =~= chains_of(docs@.take(i + 1), parts@, regions@, features@));
        i += 1;
    }
    proof {
        lemma_no_fault(faults);
        assert(docs@.take(i as int) =~= docs@);
    }
    Ok(chains)
}

/// Puts features back.
pub fn load_features(
    features: &mut Arena<ShapeFeatureId, ShapeFeature>,
    docs: &Vec<ShapeFeatureDoc>,
    parts: &Vec<PartId>,
    regions: &Vec<RegionId>,
) -> (loaded: Result<Vec<ShapeFeatureId>, CreationError>)
    requires
        old(features).wf(),
        old(features).gapless(),
        old(features).rows.keys@.len() == 0,
        docs@.len() < u32::MAX,
    ensures
        final(features).wf(),
        final(features).gapless(),
        match first_fault(feature_faults(docs@, parts@, regions@)) {
            Some(error) => loaded == Err::<Vec<ShapeFeatureId>, CreationError>(error),
            None => {
                &&& loaded is Ok
                &&& loaded->Ok_0@ == feature_ids(docs@.len())
                &&& final(features).rows.values@.len() == docs@.len()
                &&& forall|i: int|
                    #![trigger final(features).rows.values@[i]]
                    0 <= i < docs@.len() ==> feature_of_doc(
                        docs@,
                        i,
                        parts@,
                        regions@,
                        final(features).rows.values@[i],
                    )
            },
        },
{
    let ghost faults = feature_faults(docs@, parts@, regions@);
    let mut ids: Vec<ShapeFeatureId> = Vec::new();
    let mut i: usize = 0;
    while i < docs.len()
        invariant
            i <= docs@.len() < u32::MAX,
            features.wf(),
            features.gapless(),
            faults == feature_faults(docs@, parts@, regions@),
            ids@ == feature_ids(i as nat),
            features.rows.values@.len() == i,
            forall|k: int|
                #![trigger features.rows.values@[k]]
                0 <= k < i ==> feature_of_doc(
                    docs@,
                    k,
                    parts@,
                    regions@,
                    features.rows.values@[k],
                ),
            forall|k: int| #![trigger faults[k]] 0 <= k < i ==> faults[k] is None,
        decreases docs@.len() - i,
    {
        let doc: &ShapeFeatureDoc = &docs[i];
        let ghost held = features.rows.values@;
        assert(faults[i as int] == first_fault(
            chain_faults(doc.targets@, parts@, regions@, feature_ids(i as nat)),
        ));
        match resolve_chains(&doc.targets, parts, regions, &ids) {
            Ok(targets) => {
                let id: ShapeFeatureId = features.append(
                    ShapeFeature {
                        targets,
                        treatment: doc.treatment,
                        amount_ticks: doc.amount_ticks,
                    },
                );
                ids.push(id);
            },
            Err(error) => {
                proof {
                    lemma_first_fault(faults, i as int);
                }
                return Err(error);
            },
        }
        proof {
            assert(ids@ =~= feature_ids((i + 1) as nat));
            assert forall|k: int| #![trigger features.rows.values@[k]]
                0 <= k < i + 1 implies feature_of_doc(
                docs@,
                k,
                parts@,
                regions@,
                features.rows.values@[k],
            ) by {
                if k < i {
                    assert(features.rows.values@[k] == held[k]);
                }
            }
        }
        i += 1;
    }
    proof {
        lemma_no_fault(faults);
    }
    Ok(ids)
}

/// Why a wire is refused, if it is: its Controller, its joint, its envelope,
/// then its program.
pub open spec fn wire_fault(
    doc: DriveLinkDoc,
    parts: Seq<PartId>,
    bearings: Seq<BearingId>,
) -> Option<CreationError> {
    if doc.controller >= parts.len() {
        Some(CreationError::MissingPart(doc.controller))
    } else if doc.bearing >= bearings.len() {
        Some(CreationError::MissingBearing(doc.bearing))
    } else {
        match resolved_limits(doc.limits) {
            Err(error) => Some(error),
            Ok(_) => program_doc_fault(doc.program),
        }
    }
}

/// Whether a row describes a wire.
pub open spec fn wire_of_doc(
    doc: DriveLinkDoc,
    parts: Seq<PartId>,
    bearings: Seq<BearingId>,
    wire: DriveLinkSpec,
) -> bool {
    &&& wire.linear_limits == doc.linear_limits
    &&& wire.controller == parts[doc.controller as int]
    &&& wire.bearing == bearings[doc.bearing as int]
    &&& wire.reversed == doc.reversed
    &&& wire.actuator == doc.actuator
    &&& resolved_limits(doc.limits) == Ok::<DriveLimits, CreationError>(wire.limits)
    &&& wire.program.wf()
    &&& wire.program@ == states_of_docs(doc.program.states@)
    &&& wire.program.looping() == doc.program.loops
    &&& wire.name@ == doc.name@
}

/// Faults of wires.
pub open spec fn wire_faults(
    docs: Seq<DriveLinkDoc>,
    parts: Seq<PartId>,
    bearings: Seq<BearingId>,
) -> Seq<Option<CreationError>> {
    docs.map_values(|doc: DriveLinkDoc| wire_fault(doc, parts, bearings))
}

/// The wire of a row.
fn resolve_wire(
    doc: &DriveLinkDoc,
    parts: &Vec<PartId>,
    bearings: &Vec<BearingId>,
) -> (wire: Result<DriveLinkSpec, CreationError>)
    ensures
        match wire_fault(*doc, parts@, bearings@) {
            Some(error) => wire == Err::<DriveLinkSpec, CreationError>(error),
            None => wire is Ok && wire_of_doc(*doc, parts@, bearings@, wire->Ok_0),
        },
{
    let controller: PartId = match resolve_part(doc.controller, parts) {
        Ok(controller) => controller,
        Err(error) => {
            return Err(error);
        },
    };
    if doc.bearing as usize >= bearings.len() {
        return Err(CreationError::MissingBearing(doc.bearing));
    }
    let limits: DriveLimits = match resolve_limits(doc.limits) {
        Ok(limits) => limits,
        Err(error) => {
            return Err(error);
        },
    };
    let program: DriveProgram = match resolve_program(&doc.program) {
        Ok(program) => program,
        Err(error) => {
            return Err(error);
        },
    };
    Ok(
        DriveLinkSpec {
            linear_limits: doc.linear_limits,
            controller,
            bearing: bearings[doc.bearing as usize],
            reversed: doc.reversed,
            actuator: doc.actuator,
            limits,
            program,
            name: doc.name.clone(),
        },
    )
}

/// Puts wires back.
pub fn load_wires(
    wires: &mut Arena<DriveLinkId, DriveLinkSpec>,
    docs: &Vec<DriveLinkDoc>,
    parts: &Vec<PartId>,
    bearings: &Vec<BearingId>,
) -> (loaded: Result<(), CreationError>)
    requires
        old(wires).wf(),
        old(wires).gapless(),
        old(wires).rows.keys@.len() == 0,
        docs@.len() < u32::MAX,
    ensures
        final(wires).wf(),
        final(wires).gapless(),
        loaded == (match first_fault(wire_faults(docs@, parts@, bearings@)) {
            Some(error) => Err::<(), CreationError>(error),
            None => Ok(()),
        }),
        loaded is Ok ==> {
            &&& final(wires).rows.values@.len() == docs@.len()
            &&& forall|i: int|
                #![trigger final(wires).rows.values@[i]]
                0 <= i < docs@.len() ==> wire_of_doc(
                    docs@[i],
                    parts@,
                    bearings@,
                    final(wires).rows.values@[i],
                )
        },
{
    let ghost faults = wire_faults(docs@, parts@, bearings@);
    let mut i: usize = 0;
    while i < docs.len()
        invariant
            i <= docs@.len() < u32::MAX,
            wires.wf(),
            wires.gapless(),
            faults == wire_faults(docs@, parts@, bearings@),
            wires.rows.values@.len() == i,
            forall|k: int|
                #![trigger wires.rows.values@[k]]
                0 <= k < i ==> wire_of_doc(docs@[k], parts@, bearings@, wires.rows.values@[k]),
            forall|k: int| #![trigger faults[k]] 0 <= k < i ==> faults[k] is None,
        decreases docs@.len() - i,
    {
        let ghost held = wires.rows.values@;
        assert(faults[i as int] == wire_fault(docs@[i as int], parts@, bearings@));
        match resolve_wire(&docs[i], parts, bearings) {
            Ok(wire) => {
                wires.append(wire);
            },
            Err(error) => {
                proof {
                    lemma_first_fault(faults, i as int);
                }
                return Err(error);
            },
        }
        proof {
            assert forall|k: int| #![trigger wires.rows.values@[k]] 0 <= k < i + 1 implies wire_of_doc(
                docs@[k],
                parts@,
                bearings@,
                wires.rows.values@[k],
            ) by {
                if k < i {
                    assert(wires.rows.values@[k] == held[k]);
                }
            }
        }
        i += 1;
    }
    proof {
        lemma_no_fault(faults);
    }
    Ok(())
}

/// Rows are refused for the earliest fault among them, and for nothing where
/// none has one.
pub proof fn the_earliest_fault_is_told(faults: Seq<Option<CreationError>>, i: int)
    requires
        0 <= i < faults.len(),
    ensures
        first_fault(faults) is None ==> faults[i] is None,
        faults[i] is Some && (forall|j: int| #![trigger faults[j]] 0 <= j < i ==> faults[j] is None)
            ==> first_fault(faults) == faults[i],
    decreases faults.len(),
{
    if faults[i] is Some && forall|j: int| #![trigger faults[j]] 0 <= j < i ==> faults[j] is None {
        lemma_first_fault(faults, i);
    }
    let shorter = faults.drop_last();
    if i < faults.len() - 1 {
        the_earliest_fault_is_told(shorter, i);
        assert(shorter[i] == faults[i]);
    }
}

/// A weld comes back between its own two faces, first and second in order.
pub proof fn welds_come_back_between_their_faces(
    doc: WeldDoc,
    parts: Seq<PartId>,
    features: Seq<ShapeFeatureId>,
)
    ensures
        resolved_weld(doc, parts, features) is Ok <==> resolved_face(doc.first, parts, features)
            is Ok && resolved_face(doc.second, parts, features) is Ok,
        resolved_weld(doc, parts, features) is Ok ==> {
            let weld = resolved_weld(doc, parts, features)->Ok_0;
            &&& Ok::<FaceRef, CreationError>(weld.first) == resolved_face(doc.first, parts, features)
            &&& Ok::<FaceRef, CreationError>(weld.second) == resolved_face(
                doc.second,
                parts,
                features,
            )
        },
        resolved_face(doc.first, parts, features) is Err ==> resolved_weld(doc, parts, features)
            is Err && resolved_weld(doc, parts, features)->Err_0 == resolved_face(
            doc.first,
            parts,
            features,
        )->Err_0,
{
}

/// Welds are sorted by whether either face is trimmed or generated; a weld is in
/// exactly one of the two lists, as often as it is written.
pub proof fn welds_are_sorted_by_their_surfaces(docs: Seq<WeldDoc>, count: int, doc: WeldDoc)
    requires
        0 <= count <= docs.len(),
    ensures
        welds_where(docs, true, count).contains(doc) ==> (doc.first.patch is Some
            || doc.second.patch is Some) && docs.take(count).contains(doc),
        welds_where(docs, false, count).contains(doc) ==> doc.first.patch is None
            && doc.second.patch is None && docs.take(count).contains(doc),
        docs.take(count).contains(doc) ==> welds_where(docs, true, count).contains(doc)
            || welds_where(docs, false, count).contains(doc),
        welds_where(docs, true, count).len() + welds_where(docs, false, count).len() == count,
    decreases count,
{
    if count > 0 {
        welds_are_sorted_by_their_surfaces(docs, count - 1, doc);
        assert(docs.take(count) =~= docs.take(count - 1).push(docs[count - 1]));
        broadcast use vstd::seq_lib::group_seq_properties;

    }
}

/// Links come back between the parts that their rows name, each in its role.
pub proof fn links_come_back_in_their_roles(
    rigid: RigidLinkDoc,
    input: InputSeatLinkDoc,
    seat: SeatControllerLinkDoc,
    parts: Seq<PartId>,
)
    ensures
        resolved_rigid(rigid, parts) is Ok <==> rigid.first < parts.len() && rigid.second
            < parts.len(),
        resolved_rigid(rigid, parts) is Ok ==> resolved_rigid(rigid, parts)->Ok_0.first
            == parts[rigid.first as int] && resolved_rigid(rigid, parts)->Ok_0.second
            == parts[rigid.second as int],
        resolved_input_link(input, parts) is Ok <==> input.input < parts.len() && input.seat
            < parts.len(),
        resolved_input_link(input, parts) is Ok ==> resolved_input_link(input, parts)->Ok_0.input
            == parts[input.input as int] && resolved_input_link(input, parts)->Ok_0.seat
            == parts[input.seat as int],
        resolved_seat_link(seat, parts) is Ok <==> seat.seat < parts.len() && seat.controller
            < parts.len(),
        resolved_seat_link(seat, parts) is Ok ==> resolved_seat_link(seat, parts)->Ok_0.seat
            == parts[seat.seat as int] && resolved_seat_link(seat, parts)->Ok_0.controller
            == parts[seat.controller as int],
        rigid.first >= parts.len() ==> fault_in(resolved_rigid(rigid, parts)) == Some(
            CreationError::MissingPart(rigid.first),
        ),
        rigid.first < parts.len() && rigid.second >= parts.len() ==> fault_in(
            resolved_rigid(rigid, parts),
        ) == Some(CreationError::MissingPart(rigid.second)),
        input.input >= parts.len() ==> fault_in(resolved_input_link(input, parts)) == Some(
            CreationError::MissingPart(input.input),
        ),
        seat.seat >= parts.len() ==> fault_in(resolved_seat_link(seat, parts)) == Some(
            CreationError::MissingPart(seat.seat),
        ),
{
}

/// A joint comes back with the anchor, axis, motion and diameters of its row,
/// from its source to its target; a bare head stays bare.
pub proof fn joints_come_back_as_written(
    doc: BearingDoc,
    parts: Seq<PartId>,
    features: Seq<ShapeFeatureId>,
)
    ensures
        resolved_bearing(doc, parts, features) is Ok <==> resolved_face(doc.source, parts, features)
            is Ok && (doc.target is Some ==> resolved_face(doc.target->0, parts, features) is Ok),
        resolved_bearing(doc, parts, features) is Ok ==> {
            let joint = resolved_bearing(doc, parts, features)->Ok_0;
            &&& joint.shared_anchor == doc.anchor && joint.axis == doc.axis && joint.kind == doc.kind
            &&& joint.outer_diameter == doc.outer_diameter
            &&& joint.inner_diameter == doc.inner_diameter
            &&& Ok::<FaceRef, CreationError>(joint.source) == resolved_face(
                doc.source,
                parts,
                features,
            )
            &&& joint.target is Some <==> doc.target is Some
            &&& doc.target is Some ==> Ok::<FaceRef, CreationError>(joint.target->0)
                == resolved_face(doc.target->0, parts, features)
        },
        resolved_face(doc.source, parts, features) is Err ==> fault_in(
            resolved_bearing(doc, parts, features),
        ) == Some(resolved_face(doc.source, parts, features)->Err_0),
{
}

/// A construction takes a joint exactly when neither side is on the ground, its
/// axis fits and its anchor lies on its faces; the first of these that fails is
/// told. Whatever a joint's row lacks is told before that, and before what its
/// dimensions lack.
pub proof fn joints_are_taken_when_they_fit(
    doc: BearingDoc,
    check: JointCheck,
    parts: Seq<PartId>,
    features: Seq<ShapeFeatureId>,
)
    ensures
        ({
            let grounded = doc.source.owner is Ground || doc.target is Some
                && doc.target->0.owner is Ground;
            let fault = mount_fault(bearing_on_ground(doc), check);
            &&& fault is None <==> !grounded && check.axis_fits && check.anchor_fits
            &&& grounded ==> fault == Some(CreationError::Graph(GraphError::BearingOnGround))
            &&& !grounded && !check.axis_fits ==> fault == Some(
                CreationError::Graph(GraphError::InvalidBearingAxis),
            )
            &&& !grounded && check.axis_fits && !check.anchor_fits ==> fault == Some(
                CreationError::Graph(GraphError::BearingAnchorOutsideFaces),
            )
        }),
        resolved_bearing(doc, parts, features) is Err ==> bearing_fault(doc, check, parts, features)
            == Some(resolved_bearing(doc, parts, features)->Err_0),
        resolved_bearing(doc, parts, features) is Ok ==> match check.dimensions {
            Ok(_) => bearing_fault(doc, check, parts, features) is None,
            Err(error) => bearing_fault(doc, check, parts, features) == Some(
                CreationError::BearingDimension(error),
            ),
        },
{
}

/// A ring comes back as written. It is refused for a rail that does not stand
/// right first, then for its face, then its dimensions, then its place.
pub proof fn rings_come_back_as_written(
    doc: BearingSocketDoc,
    check: RingCheck,
    parts: Seq<PartId>,
    features: Seq<ShapeFeatureId>,
)
    ensures
        resolved_socket(doc, parts, features) is Ok ==> {
            let ring = resolved_socket(doc, parts, features)->Ok_0;
            &&& ring.kind == doc.kind && ring.axis == doc.axis && ring.anchor == doc.anchor
            &&& ring.outer_diameter == doc.outer_diameter
            &&& ring.inner_diameter == doc.inner_diameter
            &&& Ok::<FaceRef, CreationError>(ring.source) == resolved_face(
                doc.source,
                parts,
                features,
            )
        },
        resolved_socket(doc, parts, features) is Ok <==> resolved_face(doc.source, parts, features)
            is Ok,
        ({
            let derailed = doc.kind.hardware is Linear && check.rail is Err;
            let lost = resolved_face(doc.source, parts, features) is Err;
            let fault = socket_fault(doc, check, parts, features);
            &&& derailed ==> fault == Some(CreationError::LinearBearing(check.rail->Err_0))
            &&& !derailed && lost ==> fault == Some(
                resolved_face(doc.source, parts, features)->Err_0,
            )
            &&& !derailed && !lost && check.joint.dimensions is Err ==> fault == Some(
                CreationError::BearingDimension(check.joint.dimensions->Err_0),
            )
            &&& !derailed && !lost && check.joint.dimensions is Ok ==> (fault is None <==> !(
            doc.source.owner is Ground) && check.joint.axis_fits && check.joint.anchor_fits)
        }),
{
}

/// A feature treats chains of earlier features alone, and comes back with its
/// own treatment and amount.
pub proof fn features_come_back_on_earlier_ones(
    docs: Seq<ShapeFeatureDoc>,
    i: int,
    parts: Seq<PartId>,
    regions: Seq<RegionId>,
    feature: ShapeFeature,
    k: int,
)
    requires
        0 <= i < docs.len() <= u32::MAX,
        feature_of_doc(docs, i, parts, regions, feature),
        feature_faults(docs, parts, regions)[i] is None,
        0 <= k < docs[i].targets@.len(),
    ensures
        feature.treatment == docs[i].treatment,
        feature.amount_ticks == docs[i].amount_ticks,
        feature.targets@.len() == docs[i].targets@.len(),
        feature.targets@[k].edge.local == docs[i].targets@[k].edge.local,
        feature.targets@[k].edge.source is Feature
            ==> feature.targets@[k].edge.source->Feature_0.index < i,
{
    let targets = docs[i].targets@;
    let ids = feature_ids(i as nat);
    let faults = chain_faults(targets, parts, regions, ids);
    assert(feature_faults(docs, parts, regions)[i] == first_fault(faults));
    the_earliest_fault_is_told(faults, k);
    assert(faults[k] == fault_in(resolved_chain(targets[k], parts, regions, ids)));
    assert(feature.targets@[k] == resolved_chain(targets[k], parts, regions, ids)->Ok_0);
    chains_come_back_where_they_were(targets[k], parts, regions, ids);
}

/// A wire comes back with its own settings between the Controller and the joint
/// that its row names. A missing Controller is told first, then a missing joint,
/// then a faulty envelope, then a faulty program.
pub proof fn wires_are_refused_in_order(
    doc: DriveLinkDoc,
    parts: Seq<PartId>,
    bearings: Seq<BearingId>,
    wire: DriveLinkSpec,
)
    ensures
        ({
            let fault = wire_fault(doc, parts, bearings);
            &&& doc.controller >= parts.len() ==> fault == Some(
                CreationError::MissingPart(doc.controller),
            )
            &&& doc.controller < parts.len() && doc.bearing >= bearings.len() ==> fault == Some(
                CreationError::MissingBearing(doc.bearing),
            )
            &&& doc.controller < parts.len() && doc.bearing < bearings.len() && resolved_limits(
                doc.limits,
            ) is Err ==> fault == Some(resolved_limits(doc.limits)->Err_0)
            &&& fault is None ==> doc.controller < parts.len() && doc.bearing < bearings.len()
                && resolved_limits(doc.limits) is Ok && program_doc_fault(doc.program) is None
        }),
        wire_of_doc(doc, parts, bearings, wire) ==> {
            &&& wire.controller == parts[doc.controller as int]
            &&& wire.bearing == bearings[doc.bearing as int]
            &&& wire.reversed == doc.reversed && wire.actuator == doc.actuator
            &&& wire.linear_limits == doc.linear_limits
            &&& wire.limits.max_speed_rad_s == doc.limits.max_speed_rad_s
            &&& wire.limits.angle_limits == doc.limits.angle_limits
            &&& wire.program.looping() == doc.program.loops
            &&& wire.program@.len() == doc.program.states@.len()
            &&& wire.name@ == doc.name@
        },
{
    if wire_of_doc(doc, parts, bearings, wire) {
        unlimited_torque_is_left_out(wire.limits, doc.limits);
    }
}

/// Rows come back under fresh handles, in order.
pub proof fn rows_come_back_in_order(count: nat, i: int)
    requires
        0 <= i < count <= u32::MAX,
    ensures
        region_ids(count).len() == count && region_ids(count)[i].index == i && region_ids(
            count,
        )[i].generation == 0,
        feature_ids(count).len() == count && feature_ids(count)[i].index == i && feature_ids(
            count,
        )[i].generation == 0,
        bearing_ids(count).len() == count && bearing_ids(count)[i].index == i && bearing_ids(
            count,
        )[i].generation == 0,
{
}

} // verus!
