//! Values written out as document rows, and rows turned back into values.

use vstd::prelude::*;

use super::doc::{
    pose_of, CreationError, DimensionError, DriveDwellDoc, DriveLimitsDoc, DriveProgramDoc,
    DriveStateDoc, DriveTriggerDoc, EdgeChainRefDoc, FaceOwnerDoc, FaceRefDoc, MaterialLayerDoc,
    PartDoc, PartError, PoseDoc, SolidOwnerDoc, TopologyKeyDoc, TopologySourceDoc,
};
use crate::drive::{
    dwell_in_range, program_fault, state_fault, DriveDwell, DriveKey, DriveLimits, DriveProgram,
    DriveState, DriveTrigger,
};
use crate::grid::Sides;
use crate::ids::{PartId, RegionId, ShapeFeatureId};
use crate::parts::{
    EdgeChainRef, FaceOwner, FaceRef, MaterialLayer, PartShape, PartSpec, SolidOwner, TopologyKey,
    TopologySource,
};
use crate::scalar::Scalar;

verus! {

/// The position of a handle among a row family's handles.
pub open spec fn row_of<K>(ids: Seq<K>, id: K) -> u32 {
    ids.index_of(id) as u32
}

/// The topology key that a row describes, among features `features`.
pub open spec fn key_doc_of(key: TopologyKey, features: Seq<ShapeFeatureId>) -> TopologyKeyDoc {
    TopologyKeyDoc {
        source: match key.source {
            TopologySource::Base => TopologySourceDoc::Base,
            TopologySource::Feature(id) => TopologySourceDoc::Feature(row_of(features, id)),
        },
        local: key.local,
    }
}

/// Whether a topology key names a listed feature.
pub open spec fn key_listed(key: TopologyKey, features: Seq<ShapeFeatureId>) -> bool {
    key.source is Feature ==> features.contains(key.source->Feature_0)
}

/// The row of a face.
pub open spec fn face_doc_of(
    face: FaceRef,
    parts: Seq<PartId>,
    features: Seq<ShapeFeatureId>,
) -> FaceRefDoc {
    FaceRefDoc {
        owner: match face.owner {
            FaceOwner::Part(id) => FaceOwnerDoc::Part(row_of(parts, id)),
            FaceOwner::Ground => FaceOwnerDoc::Ground,
        },
        face: face.face,
        patch: match face.patch {
            Some(key) => Some(key_doc_of(key, features)),
            None => None,
        },
    }
}

/// Whether a face names listed rows.
pub open spec fn face_listed(
    face: FaceRef,
    parts: Seq<PartId>,
    features: Seq<ShapeFeatureId>,
) -> bool {
    &&& face.owner is Part ==> parts.contains(face.owner->Part_0)
    &&& face.patch is Some ==> key_listed(face.patch->0, features)
}

/// The row of an edge chain.
pub open spec fn chain_doc_of(
    chain: EdgeChainRef,
    parts: Seq<PartId>,
    regions: Seq<RegionId>,
    features: Seq<ShapeFeatureId>,
) -> EdgeChainRefDoc {
    EdgeChainRefDoc {
        owner: match chain.owner {
            SolidOwner::Part(id) => SolidOwnerDoc::Part(row_of(parts, id)),
            SolidOwner::Region(id) => SolidOwnerDoc::Region(row_of(regions, id)),
        },
        edge: key_doc_of(chain.edge, features),
    }
}

/// Whether an edge chain names listed rows.
pub open spec fn chain_listed(
    chain: EdgeChainRef,
    parts: Seq<PartId>,
    regions: Seq<RegionId>,
    features: Seq<ShapeFeatureId>,
) -> bool {
    &&& match chain.owner {
        SolidOwner::Part(id) => parts.contains(id),
        SolidOwner::Region(id) => regions.contains(id),
    }
    &&& key_listed(chain.edge, features)
}

/// The topology key of a row, or the row that it names in vain.
pub open spec fn resolved_key(key: TopologyKeyDoc, features: Seq<ShapeFeatureId>) -> Result<
    TopologyKey,
    CreationError,
> {
    match key.source {
        TopologySourceDoc::Base => Ok(
            TopologyKey { source: TopologySource::Base, local: key.local },
        ),
        TopologySourceDoc::Feature(index) => if index < features.len() {
            Ok(
                TopologyKey {
                    source: TopologySource::Feature(features[index as int]),
                    local: key.local,
                },
            )
        } else {
            Err(CreationError::MissingShapeFeature(index))
        },
    }
}

/// The part of an index, or the index that names none.
pub open spec fn resolved_part(index: u32, parts: Seq<PartId>) -> Result<PartId, CreationError> {
    if index < parts.len() {
        Ok(parts[index as int])
    } else {
        Err(CreationError::MissingPart(index))
    }
}

/// The face of a row: its patch first, then its owner. The ground has no patches.
pub open spec fn resolved_face(
    face: FaceRefDoc,
    parts: Seq<PartId>,
    features: Seq<ShapeFeatureId>,
) -> Result<FaceRef, CreationError> {
    let patch = match face.patch {
        Some(key) => match resolved_key(key, features) {
            Ok(key) => Ok(Some(key)),
            Err(error) => Err(error),
        },
        None => Ok(None),
    };
    match patch {
        Err(error) => Err(error),
        Ok(patch) => match face.owner {
            FaceOwnerDoc::Part(index) => match resolved_part(index, parts) {
                Ok(part) => Ok(FaceRef { owner: FaceOwner::Part(part), face: face.face, patch }),
                Err(error) => Err(error),
            },
            FaceOwnerDoc::Ground => Ok(
                FaceRef { owner: FaceOwner::Ground, face: face.face, patch: None },
            ),
        },
    }
}

/// The edge chain of a row: its owner first, then its edge.
pub open spec fn resolved_chain(
    chain: EdgeChainRefDoc,
    parts: Seq<PartId>,
    regions: Seq<RegionId>,
    features: Seq<ShapeFeatureId>,
) -> Result<EdgeChainRef, CreationError> {
    let owner = match chain.owner {
        SolidOwnerDoc::Part(index) => match resolved_part(index, parts) {
            Ok(part) => Ok(SolidOwner::Part(part)),
            Err(error) => Err(error),
        },
        SolidOwnerDoc::Region(index) => if index < regions.len() {
            Ok(SolidOwner::Region(regions[index as int]))
        } else {
            Err(CreationError::MissingRegion(index))
        },
    };
    match owner {
        Err(error) => Err(error),
        Ok(owner) => match resolved_key(chain.edge, features) {
            Ok(edge) => Ok(EdgeChainRef { owner, edge }),
            Err(error) => Err(error),
        },
    }
}

/// The part of an index.
pub fn resolve_part(index: u32, parts: &Vec<PartId>) -> (part: Result<PartId, CreationError>)
    ensures
        part == resolved_part(index, parts@),
{
    if (index as usize) < parts.len() {
        Ok(parts[index as usize])
    } else {
        Err(CreationError::MissingPart(index))
    }
}

/// The topology key of a row.
fn resolve_key(key: TopologyKeyDoc, features: &Vec<ShapeFeatureId>) -> (resolved: Result<
    TopologyKey,
    CreationError,
>)
    ensures
        resolved == resolved_key(key, features@),
{
    match key.source {
        TopologySourceDoc::Base => Ok(
            TopologyKey { source: TopologySource::Base, local: key.local },
        ),
        TopologySourceDoc::Feature(index) => if (index as usize) < features.len() {
            Ok(
                TopologyKey {
                    source: TopologySource::Feature(features[index as usize]),
                    local: key.local,
                },
            )
        } else {
            Err(CreationError::MissingShapeFeature(index))
        },
    }
}

/// The face of a row.
pub fn resolve_face(
    face: FaceRefDoc,
    parts: &Vec<PartId>,
    features: &Vec<ShapeFeatureId>,
) -> (resolved: Result<FaceRef, CreationError>)
    ensures
        resolved == resolved_face(face, parts@, features@),
{
    let patch: Option<TopologyKey> = match face.patch {
        Some(key) => match resolve_key(key, features) {
            Ok(key) => Some(key),
            Err(error) => {
                return Err(error);
            },
        },
        None => None,
    };
    match face.owner {
        FaceOwnerDoc::Part(index) => match resolve_part(index, parts) {
            Ok(part) => Ok(FaceRef { owner: FaceOwner::Part(part), face: face.face, patch }),
            Err(error) => Err(error),
        },
        FaceOwnerDoc::Ground => Ok(
            FaceRef { owner: FaceOwner::Ground, face: face.face, patch: None },
        ),
    }
}

/// The edge chain of a row.
pub fn resolve_edge_chain(
    chain: EdgeChainRefDoc,
    parts: &Vec<PartId>,
    regions: &Vec<RegionId>,
    features: &Vec<ShapeFeatureId>,
) -> (resolved: Result<EdgeChainRef, CreationError>)
    ensures
        resolved == resolved_chain(chain, parts@, regions@, features@),
{
    let owner: SolidOwner = match chain.owner {
        SolidOwnerDoc::Part(index) => match resolve_part(index, parts) {
            Ok(part) => SolidOwner::Part(part),
            Err(error) => {
                return Err(error);
            },
        },
        SolidOwnerDoc::Region(index) => if (index as usize) < regions.len() {
            SolidOwner::Region(regions[index as usize])
        } else {
            return Err(CreationError::MissingRegion(index));
        },
    };
    match resolve_key(chain.edge, features) {
        Ok(edge) => Ok(EdgeChainRef { owner, edge }),
        Err(error) => Err(error),
    }
}

/// A saved face comes back as the face that was saved.
pub proof fn faces_survive_saving(face: FaceRef, parts: Seq<PartId>, features: Seq<ShapeFeatureId>)
    requires
        face_listed(face, parts, features),
        parts.len() <= u32::MAX,
        features.len() <= u32::MAX,
        face.owner is Ground ==> face.patch is None,
    ensures
        resolved_face(face_doc_of(face, parts, features), parts, features) == Ok::<
            FaceRef,
            CreationError,
        >(face),
{
    if face.owner is Part {
        assert(parts[parts.index_of(face.owner->Part_0)] == face.owner->Part_0);
    }
    if face.patch is Some && face.patch->0.source is Feature {
        let id = face.patch->0.source->Feature_0;
        assert(features[features.index_of(id)] == id);
    }
}

/// A saved edge chain comes back as the chain that was saved.
pub proof fn edge_chains_survive_saving(
    chain: EdgeChainRef,
    parts: Seq<PartId>,
    regions: Seq<RegionId>,
    features: Seq<ShapeFeatureId>,
)
    requires
        chain_listed(chain, parts, regions, features),
        parts.len() <= u32::MAX,
        regions.len() <= u32::MAX,
        features.len() <= u32::MAX,
    ensures
        resolved_chain(
            chain_doc_of(chain, parts, regions, features),
            parts,
            regions,
            features,
        ) == Ok::<EdgeChainRef, CreationError>(chain),
{
    match chain.owner {
        SolidOwner::Part(id) => {
            assert(parts[parts.index_of(id)] == id);
        },
        SolidOwner::Region(id) => {
            assert(regions[regions.index_of(id)] == id);
        },
    }
    if chain.edge.source is Feature {
        let id = chain.edge.source->Feature_0;
        assert(features[features.index_of(id)] == id);
    }
}

/// The row of an envelope. Unlimited torque is left out.
pub open spec fn limits_doc_of(limits: DriveLimits) -> DriveLimitsDoc {
    DriveLimitsDoc {
        max_speed_rad_s: limits.max_speed_rad_s,
        max_torque_newton_meters: if limits.max_torque_newton_meters.finite() {
            Some(limits.max_torque_newton_meters)
        } else {
            None
        },
        angle_limits: limits.angle_limits,
    }
}

/// The envelope of a row.
pub open spec fn resolved_limits(doc: DriveLimitsDoc) -> Result<DriveLimits, CreationError> {
    let torque = match doc.max_torque_newton_meters {
        Some(torque) => torque,
        None => Scalar::infinity(),
    };
    match DriveLimits::checked(doc.max_speed_rad_s, torque, doc.angle_limits) {
        Ok(limits) => Ok(limits),
        Err(error) => Err(CreationError::DriveLimits(error)),
    }
}

/// The row of an envelope.
pub fn limits_doc(limits: DriveLimits) -> (doc: DriveLimitsDoc)
    ensures
        doc == limits_doc_of(limits),
{
    let torque: Scalar = limits.max_torque_newton_meters();
    DriveLimitsDoc {
        max_speed_rad_s: limits.max_speed_rad_s(),
        max_torque_newton_meters: if torque.is_finite() {
            Some(torque)
        } else {
            None
        },
        angle_limits: limits.angle_limits(),
    }
}

/// The envelope of a row.
pub fn resolve_limits(doc: DriveLimitsDoc) -> (limits: Result<DriveLimits, CreationError>)
    ensures
        limits == resolved_limits(doc),
{
    let torque: Scalar = match doc.max_torque_newton_meters {
        Some(torque) => torque,
        None => Scalar::infinity(),
    };
    match DriveLimits::new(doc.max_speed_rad_s, torque, doc.angle_limits) {
        Ok(limits) => Ok(limits),
        Err(error) => Err(CreationError::DriveLimits(error)),
    }
}

/// A saved envelope comes back as it was, unlimited torque among the rest.
pub proof fn limits_survive_saving(limits: DriveLimits)
    requires
        limits.wf(),
    ensures
        resolved_limits(limits_doc_of(limits)) == Ok::<DriveLimits, CreationError>(limits),
{
    let torque = limits.max_torque_newton_meters;
    if !torque.finite() {
        assert(torque == Scalar::infinity());
    }
}

/// The row of a state.
pub open spec fn state_doc_of(state: DriveState) -> DriveStateDoc {
    DriveStateDoc {
        target: state.target,
        dwell: match state.dwell {
            Some(dwell) => Some(DriveDwellDoc { seconds: dwell.seconds, next: dwell.next }),
            None => None,
        },
        trigger: match state.trigger {
            Some(trigger) => Some(
                DriveTriggerDoc {
                    key: trigger.key.code() as char,
                    release: trigger.release,
                },
            ),
            None => None,
        },
    }
}

/// Why a state's row is refused, if it is: its dwell, then its key, then its target.
pub open spec fn state_doc_fault(doc: DriveStateDoc) -> Option<CreationError> {
    if doc.dwell is Some && !dwell_in_range(doc.dwell->0.seconds) {
        Some(CreationError::DriveProgram(crate::drive::DriveProgramError::DwellOutOfRange))
    } else if doc.trigger is Some && DriveKey::named(doc.trigger->0.key) is None {
        Some(CreationError::InvalidDriveKey(doc.trigger->0.key))
    } else {
        match doc.target.fault() {
            Some(error) => Some(CreationError::DriveProgram(error)),
            None => None,
        }
    }
}

/// The state of a row without a fault.
pub open spec fn state_of_doc(doc: DriveStateDoc) -> DriveState {
    DriveState {
        target: doc.target,
        dwell: match doc.dwell {
            Some(dwell) => Some(DriveDwell { seconds: dwell.seconds, next: dwell.next }),
            None => None,
        },
        trigger: match doc.trigger {
            Some(trigger) => Some(
                DriveTrigger {
                    key: DriveKey::named(trigger.key)->0,
                    release: trigger.release,
                },
            ),
            None => None,
        },
    }
}

/// The first fault among the first `count` rows of states.
pub open spec fn first_state_doc_fault(docs: Seq<DriveStateDoc>, count: int) -> Option<
    CreationError,
>
    decreases count,
{
    if count <= 0 {
        None
    } else {
        match first_state_doc_fault(docs, count - 1) {
            Some(error) => Some(error),
            None => state_doc_fault(docs[count - 1]),
        }
    }
}

/// The states of rows without a fault.
pub open spec fn states_of_docs(docs: Seq<DriveStateDoc>) -> Seq<DriveState> {
    docs.map_values(|doc: DriveStateDoc| state_of_doc(doc))
}

/// Why a program's row is refused, if it is: the first faulty row, then
/// whatever keeps the states from making a program.
pub open spec fn program_doc_fault(doc: DriveProgramDoc) -> Option<CreationError> {
    match first_state_doc_fault(doc.states@, doc.states@.len() as int) {
        Some(error) => Some(error),
        None => match program_fault(states_of_docs(doc.states@)) {
            Some(error) => Some(CreationError::DriveProgram(error)),
            None => None,
        },
    }
}

/// Whether a row describes a program.
pub open spec fn describes_program(program: DriveProgram, doc: DriveProgramDoc) -> bool {
    &&& doc.loops == program.looping()
    &&& doc.states@ == program@.map_values(|state: DriveState| state_doc_of(state))
}

/// The row of a program.
pub fn program_doc(program: &DriveProgram) -> (doc: DriveProgramDoc)
    requires
        program.wf(),
    ensures
        describes_program(*program, doc),
{
    let states: Vec<DriveState> = program.states();
    let mut docs: Vec<DriveStateDoc> = Vec::new();
    let mut i: usize = 0;
    while i < states.len()
        invariant
            i <= states@.len(),
            docs@.len() == i,
            forall|k: int| #![trigger docs@[k]] 0 <= k < i ==> docs@[k] == state_doc_of(states@[k]),
        decreases states@.len() - i,
    {
        let state: DriveState = states[i];
        let dwell: Option<DriveDwellDoc> = match state.dwell() {
            Some(dwell) => Some(DriveDwellDoc { seconds: dwell.seconds(), next: dwell.next() }),
            None => None,
        };
        let trigger: Option<DriveTriggerDoc> = match state.trigger() {
            Some(trigger) => Some(
                DriveTriggerDoc { key: trigger.key().symbol(), release: trigger.release() },
            ),
            None => None,
        };
        docs.push(DriveStateDoc { target: state.target(), dwell, trigger });
        i += 1;
    }
    assert(docs@ =~= states@.map_values(|state: DriveState| state_doc_of(state)));
    DriveProgramDoc { loops: program.loops(), states: docs }
}

/// The state of a row.
fn resolve_state(doc: DriveStateDoc) -> (state: Result<DriveState, CreationError>)
    ensures
        state == match state_doc_fault(doc) {
            Some(error) => Err::<DriveState, CreationError>(error),
            None => Ok(state_of_doc(doc)),
        },
{
    let dwell: Option<DriveDwell> = match doc.dwell {
        Some(dwell) => match DriveDwell::new(dwell.seconds, dwell.next) {
            Ok(dwell) => Some(dwell),
            Err(error) => {
                return Err(CreationError::DriveProgram(error));
            },
        },
        None => None,
    };
    let trigger: Option<DriveTrigger> = match doc.trigger {
        Some(trigger) => match DriveKey::new(trigger.key) {
            Some(key) => Some(DriveTrigger::new(key, trigger.release)),
            None => {
                return Err(CreationError::InvalidDriveKey(trigger.key));
            },
        },
        None => None,
    };
    match DriveState::new(doc.target) {
        Ok(state) => Ok(state.with_dwell(dwell).with_trigger(trigger)),
        Err(error) => Err(CreationError::DriveProgram(error)),
    }
}

/// The program of a row.
pub fn resolve_program(doc: &DriveProgramDoc) -> (program: Result<DriveProgram, CreationError>)
    ensures
        match program_doc_fault(*doc) {
            Some(error) => program == Err::<DriveProgram, CreationError>(error),
            None => program is Ok && program->Ok_0.wf() && program->Ok_0@ == states_of_docs(
                doc.states@,
            ) && program->Ok_0.looping() == doc.loops,
        },
{
    let mut states: Vec<DriveState> = Vec::new();
    let mut i: usize = 0;
    while i < doc.states.len()
        invariant
            i <= doc.states@.len(),
            states@.len() == i,
            first_state_doc_fault(doc.states@, i as int) is None,
            forall|k: int|
                #![trigger states@[k]]
                0 <= k < i ==> states@[k] == state_of_doc(doc.states@[k]),
        decreases doc.states@.len() - i,
    {
        match resolve_state(doc.states[i]) {
            Ok(state) => {
                states.push(state);
            },
            Err(error) => {
                proof {
                    lemma_state_fault_stays(doc.states@, i + 1, doc.states@.len() as int);
                }
                return Err(error);
            },
        }
        i += 1;
    }
    assert(states@ =~= states_of_docs(doc.states@));
    match DriveProgram::new(states.as_slice(), doc.loops) {
        Ok(program) => Ok(program),
        Err(error) => Err(CreationError::DriveProgram(error)),
    }
}

/// The first fault stays the first when more rows are looked at.
proof fn lemma_state_fault_stays(docs: Seq<DriveStateDoc>, i: int, n: int)
    requires
        0 <= i <= n,
        first_state_doc_fault(docs, i) is Some,
    ensures
        first_state_doc_fault(docs, n) == first_state_doc_fault(docs, i),
    decreases n - i,
{
    if i < n {
        lemma_state_fault_stays(docs, i + 1, n);
    }
}

/// Whether every key that a program binds is a letter or a digit.
pub open spec fn keys_valid(states: Seq<DriveState>) -> bool {
    forall|i: int|
        #![trigger states[i]]
        0 <= i < states.len() && states[i].trigger is Some ==> states[i].trigger->0.key.wf()
}

/// Rows of a program have no fault of their own.
proof fn lemma_docs_faultless(states: Seq<DriveState>, docs: Seq<DriveStateDoc>, count: int)
    requires
        0 <= count <= states.len(),
        docs == states.map_values(|state: DriveState| state_doc_of(state)),
        keys_valid(states),
        forall|i: int| 0 <= i < states.len() ==> #[trigger] state_fault(states, i) is None,
    ensures
        first_state_doc_fault(docs, count) is None,
    decreases count,
{
    if count > 0 {
        lemma_docs_faultless(states, docs, count - 1);
        let state = states[count - 1];
        assert(state_fault(states, count - 1) is None);
        assert(docs[count - 1] == state_doc_of(state));
        if state.trigger is Some {
            state.trigger->0.key.lemma_named();
        }
    }
}

/// A saved program comes back with the states it had.
pub proof fn programs_survive_saving(program: DriveProgram, doc: DriveProgramDoc)
    requires
        program.wf(),
        keys_valid(program@),
        describes_program(program, doc),
    ensures
        program_doc_fault(doc) is None,
        states_of_docs(doc.states@) == program@,
        doc.loops == program.looping(),
{
    let states = program@;
    let docs = doc.states@;
    program.lemma_wf();
    lemma_docs_faultless(states, docs, states.len() as int);
    assert forall|i: int| 0 <= i < states.len() implies states_of_docs(docs)[i] == states[i] by {
        let state = states[i];
        assert(docs[i] == state_doc_of(state));
        if state.trigger is Some {
            state.trigger->0.key.lemma_named();
        }
    }
    assert(states_of_docs(docs) =~= states);
}

/// The shape that a row describes.
pub open spec fn shape_of_doc(doc: PartDoc) -> PartShape {
    match doc {
        PartDoc::Cuboid { dimensions, material, appearance, .. } => PartShape::Cuboid {
            dimensions: Sides { x: dimensions@[0], y: dimensions@[1], z: dimensions@[2] },
            material,
            appearance,
        },
        PartDoc::Cylinder {
            outer_diameter,
            inner_diameter,
            length_units,
            sweep_degrees,
            material,
            appearance,
            ..
        } => PartShape::Cylinder {
            outer_diameter,
            inner_diameter,
            length_units,
            sweep_degrees,
            material,
            appearance,
        },
        PartDoc::PipeBend {
            outer_diameter,
            inner_diameter,
            span_blocks,
            material,
            appearance,
            ..
        } => PartShape::PipeBend {
            outer_diameter,
            inner_diameter,
            span_blocks,
            material,
            appearance,
        },
        PartDoc::PipeJunction {
            outer_diameter,
            inner_diameter,
            arms,
            material,
            appearance,
            ..
        } => PartShape::PipeJunction {
            outer_diameter,
            inner_diameter,
            arms,
            material,
            appearance,
        },
        PartDoc::Controller { .. } => PartShape::Controller,
        PartDoc::Engine { kind, .. } => PartShape::Engine { kind },
        PartDoc::Transmission { .. } => PartShape::Transmission,
        PartDoc::Servo { .. } => PartShape::Servo,
        PartDoc::Seat { .. } => PartShape::Seat,
        PartDoc::Dial { size, .. } => PartShape::Dial { size },
        PartDoc::Button { size, .. } => PartShape::Button { size },
        PartDoc::Input { .. } => PartShape::Input,
        PartDoc::DimensionLink { id, .. } => PartShape::DimensionLink { id },
    }
}

/// The pose that a row holds.
pub open spec fn pose_doc_in(doc: PartDoc) -> PoseDoc {
    match doc {
        PartDoc::Cuboid { pose, .. } => pose,
        PartDoc::Cylinder { pose, .. } => pose,
        PartDoc::PipeBend { pose, .. } => pose,
        PartDoc::PipeJunction { pose, .. } => pose,
        PartDoc::Controller { pose } => pose,
        PartDoc::Engine { pose, .. } => pose,
        PartDoc::Transmission { pose, .. } => pose,
        PartDoc::Servo { pose } => pose,
        PartDoc::Seat { pose } => pose,
        PartDoc::Dial { pose, .. } => pose,
        PartDoc::Button { pose, .. } => pose,
        PartDoc::Input { pose } => pose,
        PartDoc::DimensionLink { pose, .. } => pose,
    }
}

/// The layers that a row holds.
pub open spec fn layer_docs_in(doc: PartDoc) -> Seq<MaterialLayerDoc> {
    match doc {
        PartDoc::Cuboid { layers, .. } => layers@,
        PartDoc::Cylinder { layers, .. } => layers@,
        _ => Seq::empty(),
    }
}

/// The upstream part that a row names.
pub open spec fn parent_in(doc: PartDoc) -> Option<u32> {
    match doc {
        PartDoc::Transmission { parent, .. } => Some(parent),
        _ => None,
    }
}

/// The row of a layer.
pub open spec fn layer_doc_of(layer: MaterialLayer) -> MaterialLayerDoc {
    MaterialLayerDoc {
        face: layer.face,
        thickness: layer.thickness,
        material: layer.material,
        appearance: layer.appearance,
    }
}

/// The layer of a row.
pub open spec fn layer_of_doc(doc: MaterialLayerDoc) -> MaterialLayer {
    MaterialLayer {
        face: doc.face,
        thickness: doc.thickness,
        material: doc.material,
        appearance: doc.appearance,
    }
}

/// Whether layers can cover a part: cuboids and cylinders alone.
pub open spec fn layerable(shape: PartShape) -> bool {
    shape is Cuboid || shape is Cylinder
}

/// Whether a row describes a part, with its upstream part in row `parent`.
pub open spec fn describes_part(spec: PartSpec, parent: Option<u32>, doc: PartDoc) -> bool {
    &&& shape_of_doc(doc) == spec.shape
    &&& pose_of(pose_doc_in(doc)) == spec.pose
    &&& layer_docs_in(doc) == spec.layers@.map_values(|layer: MaterialLayer| layer_doc_of(layer))
    &&& parent_in(doc) == if spec.shape is Transmission {
        parent
    } else {
        None
    }
}

/// Whether a part is the one that a row describes.
pub open spec fn part_of_doc(doc: PartDoc, spec: PartSpec) -> bool {
    &&& spec.shape == shape_of_doc(doc)
    &&& spec.pose == pose_of(pose_doc_in(doc))
    &&& spec.layers@ == layer_docs_in(doc).map_values(
        |layer: MaterialLayerDoc| layer_of_doc(layer),
    )
}

/// The error of a row that measuring refuses.
pub open spec fn part_error(error: PartError) -> CreationError {
    match error {
        PartError::CylinderDimension(error) => CreationError::CylinderDimension(error),
        PartError::Layer(error) => CreationError::Layer(error),
        PartError::PipeBendDimension(error) => CreationError::PipeBendDimension(error),
        PartError::PipeJunction(error) => CreationError::PipeJunction(error),
    }
}

/// Whether a row's part has dimensions or layers to measure.
pub open spec fn sized(doc: PartDoc) -> bool {
    doc is Cuboid || doc is Cylinder || doc is PipeBend || doc is PipeJunction
}

/// Why a part's row is refused, if it is: a cuboid side without length, then
/// what measuring it gave. Parts of a fixed size are never refused.
pub open spec fn part_doc_fault(doc: PartDoc, check: Result<(), PartError>) -> Option<
    CreationError,
> {
    if doc is Cuboid && (doc->Cuboid_dimensions@[0] == 0 || doc->Cuboid_dimensions@[1] == 0
        || doc->Cuboid_dimensions@[2] == 0) {
        Some(CreationError::Dimension(DimensionError::Zero))
    } else if sized(doc) && check is Err {
        Some(part_error(check->Err_0))
    } else {
        None
    }
}

/// Why a part's row is refused, if it is.
pub fn refused(doc: &PartDoc, check: &Result<(), PartError>) -> (fault: Option<CreationError>)
    ensures
        fault == part_doc_fault(*doc, *check),
{
    let sized: bool = match doc {
        PartDoc::Cuboid { dimensions, .. } => {
            if dimensions[0] == 0 || dimensions[1] == 0 || dimensions[2] == 0 {
                return Some(CreationError::Dimension(DimensionError::Zero));
            }
            true
        },
        PartDoc::Cylinder { .. } => true,
        PartDoc::PipeBend { .. } => true,
        PartDoc::PipeJunction { .. } => true,
        _ => false,
    };
    if !sized {
        return None;
    }
    match check {
        Ok(()) => None,
        Err(error) => Some(
            match *error {
                PartError::CylinderDimension(error) => CreationError::CylinderDimension(error),
                PartError::Layer(error) => CreationError::Layer(error),
                PartError::PipeBendDimension(error) => CreationError::PipeBendDimension(error),
                PartError::PipeJunction(error) => CreationError::PipeJunction(error),
            },
        ),
    }
}

/// Rows of layers.
fn layer_docs(layers: &Vec<MaterialLayer>) -> (docs: Vec<MaterialLayerDoc>)
    ensures
        docs@ == layers@.map_values(|layer: MaterialLayer| layer_doc_of(layer)),
{
    let mut docs: Vec<MaterialLayerDoc> = Vec::new();
    let mut i: usize = 0;
    while i < layers.len()
        invariant
            i <= layers@.len(),
            docs@.len() == i,
            forall|k: int| #![trigger docs@[k]] 0 <= k < i ==> docs@[k] == layer_doc_of(layers@[k]),
        decreases layers@.len() - i,
    {
        let layer: MaterialLayer = layers[i];
        docs.push(
            MaterialLayerDoc {
                face: layer.face,
                thickness: layer.thickness,
                material: layer.material,
                appearance: layer.appearance,
            },
        );
        i += 1;
    }
    assert(docs@ =~= layers@.map_values(|layer: MaterialLayer| layer_doc_of(layer)));
    docs
}

/// Layers of rows.
fn resolve_layers(docs: &Vec<MaterialLayerDoc>) -> (layers: Vec<MaterialLayer>)
    ensures
        layers@ == docs@.map_values(|layer: MaterialLayerDoc| layer_of_doc(layer)),
{
    let mut layers: Vec<MaterialLayer> = Vec::new();
    let mut i: usize = 0;
    while i < docs.len()
        invariant
            i <= docs@.len(),
            layers@.len() == i,
            forall|k: int|
                #![trigger layers@[k]]
                0 <= k < i ==> layers@[k] == layer_of_doc(docs@[k]),
        decreases docs@.len() - i,
    {
        let doc: MaterialLayerDoc = docs[i];
        layers.push(
            MaterialLayer {
                face: doc.face,
                thickness: doc.thickness,
                material: doc.material,
                appearance: doc.appearance,
            },
        );
        i += 1;
    }
    assert(layers@ =~= docs@.map_values(|layer: MaterialLayerDoc| layer_of_doc(layer)));
    layers
}

/// The row of a part. A transmission's row names its upstream part.
pub fn part_doc(spec: &PartSpec, parent: Option<u32>) -> (doc: PartDoc)
    requires
        layerable(spec.shape) || spec.layers@.len() == 0,
        spec.shape is Transmission ==> parent is Some,
    ensures
        describes_part(*spec, parent, doc),
{
    let pose: PoseDoc = PoseDoc::describe(spec.pose);
    let layers: Vec<MaterialLayerDoc> = layer_docs(&spec.layers);
    proof {
        if spec.layers@.len() == 0 {
            assert(layers@ =~= Seq::<MaterialLayerDoc>::empty());
        }
    }
    match spec.shape {
        PartShape::Cuboid { dimensions, material, appearance } => PartDoc::Cuboid {
            dimensions: [dimensions.x, dimensions.y, dimensions.z],
            pose,
            material,
            appearance,
            layers,
        },
        PartShape::Cylinder {
            outer_diameter,
            inner_diameter,
            length_units,
            sweep_degrees,
            material,
            appearance,
        } => PartDoc::Cylinder {
            outer_diameter,
            inner_diameter,
            length_units,
            sweep_degrees,
            pose,
            material,
            appearance,
            layers,
        },
        PartShape::PipeBend {
            outer_diameter,
            inner_diameter,
            span_blocks,
            material,
            appearance,
        } => PartDoc::PipeBend {
            outer_diameter,
            inner_diameter,
            span_blocks,
            pose,
            material,
            appearance,
        },
        PartShape::PipeJunction {
            outer_diameter,
            inner_diameter,
            arms,
            material,
            appearance,
        } => PartDoc::PipeJunction {
            outer_diameter,
            inner_diameter,
            arms,
            pose,
            material,
            appearance,
        },
        PartShape::Controller => PartDoc::Controller { pose },
        PartShape::Engine { kind } => PartDoc::Engine { kind, pose },
        PartShape::Transmission => PartDoc::Transmission {
            parent: match parent {
                Some(parent) => parent,
                None => 0,
            },
            pose,
        },
        PartShape::Servo => PartDoc::Servo { pose },
        PartShape::Seat => PartDoc::Seat { pose },
        PartShape::Dial { size } => PartDoc::Dial { size, pose },
        PartShape::Button { size } => PartDoc::Button { size, pose },
        PartShape::Input => PartDoc::Input { pose },
        PartShape::DimensionLink { id } => PartDoc::DimensionLink { id, pose },
    }
}

/// The part of a row, given what measuring the row gave.
pub fn build_part(doc: &PartDoc, check: &Result<(), PartError>) -> (spec: Result<
    PartSpec,
    CreationError,
>)
    ensures
        match part_doc_fault(*doc, *check) {
            Some(error) => spec == Err::<PartSpec, CreationError>(error),
            None => spec is Ok && part_of_doc(*doc, spec->Ok_0),
        },
{
    let bare: Vec<MaterialLayer> = Vec::new();
    proof {
        assert(bare@ =~= Seq::<MaterialLayerDoc>::empty().map_values(
            |layer: MaterialLayerDoc| layer_of_doc(layer),
        ));
    }
    match refused(doc, check) {
        Some(error) => {
            return Err(error);
        },
        None => {},
    }
    match doc {
        PartDoc::Cuboid { dimensions, pose, material, appearance, layers } => {
            Ok(
                PartSpec {
                    shape: PartShape::Cuboid {
                        dimensions: Sides {
                            x: dimensions[0],
                            y: dimensions[1],
                            z: dimensions[2],
                        },
                        material: *material,
                        appearance: *appearance,
                    },
                    pose: pose.pose(),
                    layers: resolve_layers(layers),
                },
            )
        },
        PartDoc::Cylinder {
            outer_diameter,
            inner_diameter,
            length_units,
            sweep_degrees,
            pose,
            material,
            appearance,
            layers,
        } => Ok(
            PartSpec {
                shape: PartShape::Cylinder {
                    outer_diameter: *outer_diameter,
                    inner_diameter: *inner_diameter,
                    length_units: *length_units,
                    sweep_degrees: *sweep_degrees,
                    material: *material,
                    appearance: *appearance,
                },
                pose: pose.pose(),
                layers: resolve_layers(layers),
            },
        ),
        PartDoc::PipeBend {
            outer_diameter,
            inner_diameter,
            span_blocks,
            pose,
            material,
            appearance,
        } => Ok(
            PartSpec {
                shape: PartShape::PipeBend {
                    outer_diameter: *outer_diameter,
                    inner_diameter: *inner_diameter,
                    span_blocks: *span_blocks,
                    material: *material,
                    appearance: *appearance,
                },
                pose: pose.pose(),
                layers: bare,
            },
        ),
        PartDoc::PipeJunction {
            outer_diameter,
            inner_diameter,
            arms,
            pose,
            material,
            appearance,
        } => Ok(
            PartSpec {
                shape: PartShape::PipeJunction {
                    outer_diameter: *outer_diameter,
                    inner_diameter: *inner_diameter,
                    arms: *arms,
                    material: *material,
                    appearance: *appearance,
                },
                pose: pose.pose(),
                layers: bare,
            },
        ),
        PartDoc::Controller { pose } => Ok(
            PartSpec { shape: PartShape::Controller, pose: pose.pose(), layers: bare },
        ),
        PartDoc::Engine { kind, pose } => Ok(
            PartSpec {
                shape: PartShape::Engine { kind: *kind },
                pose: pose.pose(),
                layers: bare,
            },
        ),
        PartDoc::Transmission { parent: _, pose } => Ok(
            PartSpec { shape: PartShape::Transmission, pose: pose.pose(), layers: bare },
        ),
        PartDoc::Servo { pose } => Ok(
            PartSpec { shape: PartShape::Servo, pose: pose.pose(), layers: bare },
        ),
        PartDoc::Seat { pose } => Ok(
            PartSpec { shape: PartShape::Seat, pose: pose.pose(), layers: bare },
        ),
        PartDoc::Dial { size, pose } => Ok(
            PartSpec { shape: PartShape::Dial { size: *size }, pose: pose.pose(), layers: bare },
        ),
        PartDoc::Button { size, pose } => Ok(
            PartSpec { shape: PartShape::Button { size: *size }, pose: pose.pose(), layers: bare },
        ),
        PartDoc::Input { pose } => Ok(
            PartSpec { shape: PartShape::Input, pose: pose.pose(), layers: bare },
        ),
        PartDoc::DimensionLink { id, pose } => Ok(
            PartSpec {
                shape: PartShape::DimensionLink { id: *id },
                pose: pose.pose(),
                layers: bare,
            },
        ),
    }
}

/// A saved part comes back as the part that was saved.
pub proof fn parts_survive_saving(
    spec: PartSpec,
    parent: Option<u32>,
    doc: PartDoc,
    loaded: PartSpec,
)
    requires
        describes_part(spec, parent, doc),
        part_of_doc(doc, loaded),
    ensures
        loaded.agrees(&spec),
{
    assert(loaded.layers@ =~= spec.layers@) by {
        let docs = layer_docs_in(doc);
        assert forall|i: int| 0 <= i < docs.len() implies loaded.layers@[i] == spec.layers@[i] by {
            assert(docs[i] == layer_doc_of(spec.layers@[i]));
        }
    }
}

/// A row's index names what stands there, and an index behind the last row names
/// nothing: it is told as it was given.
pub proof fn indices_name_parts_by_position(index: u32, parts: Seq<PartId>)
    ensures
        resolved_part(index, parts) is Ok <==> index < parts.len(),
        resolved_part(index, parts) is Ok ==> resolved_part(index, parts)->Ok_0 == parts[index as int],
        resolved_part(index, parts) is Err ==> resolved_part(index, parts)->Err_0
            == CreationError::MissingPart(index),
{
}

/// A face comes back on the part that its row names, with its own side and the
/// patch of the feature that it names; the ground has no patch. A patch that
/// names no feature is told first, then an owner that names no part.
pub proof fn faces_come_back_where_they_were(
    face: FaceRefDoc,
    parts: Seq<PartId>,
    features: Seq<ShapeFeatureId>,
)
    ensures
        ({
            let resolved = resolved_face(face, parts, features);
            let astray = face.patch is Some && face.patch->0.source is Feature
                && face.patch->0.source->Feature_0 >= features.len();
            let homeless = face.owner is Part && face.owner->Part_0 >= parts.len();
            &&& astray ==> resolved == Err::<FaceRef, CreationError>(
                CreationError::MissingShapeFeature(face.patch->0.source->Feature_0),
            )
            &&& !astray && homeless ==> resolved == Err::<FaceRef, CreationError>(
                CreationError::MissingPart(face.owner->Part_0),
            )
            &&& !astray && !homeless ==> {
                let back = resolved->Ok_0;
                &&& resolved is Ok
                &&& back.face == face.face
                &&& face.owner is Ground ==> back.owner is Ground && back.patch is None
                &&& face.owner is Part ==> back.owner == FaceOwner::Part(
                    parts[face.owner->Part_0 as int],
                )
                &&& face.owner is Part ==> (back.patch is Some <==> face.patch is Some)
                &&& back.patch is Some ==> back.patch->0.local == face.patch->0.local
                &&& back.patch is Some ==> match face.patch->0.source {
                    TopologySourceDoc::Base => back.patch->0.source is Base,
                    TopologySourceDoc::Feature(index) => back.patch->0.source
                        == TopologySource::Feature(features[index as int]),
                }
            }
        }),
{
}

/// An edge chain comes back on the solid that its row names; an owner that names
/// nothing is told first, then an edge of a feature that is not there.
pub proof fn chains_come_back_where_they_were(
    chain: EdgeChainRefDoc,
    parts: Seq<PartId>,
    regions: Seq<RegionId>,
    features: Seq<ShapeFeatureId>,
)
    ensures
        ({
            let resolved = resolved_chain(chain, parts, regions, features);
            let astray = chain.edge.source is Feature && chain.edge.source->Feature_0
                >= features.len();
            match chain.owner {
                SolidOwnerDoc::Part(index) => {
                    &&& index >= parts.len() ==> resolved == Err::<EdgeChainRef, CreationError>(
                        CreationError::MissingPart(index),
                    )
                    &&& index < parts.len() && !astray ==> resolved is Ok && resolved->Ok_0.owner
                        == SolidOwner::Part(parts[index as int])
                    &&& index < parts.len() && astray ==> resolved == Err::<
                        EdgeChainRef,
                        CreationError,
                    >(CreationError::MissingShapeFeature(chain.edge.source->Feature_0))
                },
                SolidOwnerDoc::Region(index) => {
                    &&& index >= regions.len() ==> resolved == Err::<EdgeChainRef, CreationError>(
                        CreationError::MissingRegion(index),
                    )
                    &&& index < regions.len() && !astray ==> resolved is Ok && resolved->Ok_0.owner
                        == SolidOwner::Region(regions[index as int])
                    &&& index < regions.len() && astray ==> resolved == Err::<
                        EdgeChainRef,
                        CreationError,
                    >(CreationError::MissingShapeFeature(chain.edge.source->Feature_0))
                },
            }
        }),
        resolved_chain(chain, parts, regions, features) is Ok ==> {
            let edge = resolved_chain(chain, parts, regions, features)->Ok_0.edge;
            &&& edge.local == chain.edge.local
            &&& match chain.edge.source {
                TopologySourceDoc::Base => edge.source is Base,
                TopologySourceDoc::Feature(index) => edge.source == TopologySource::Feature(
                    features[index as int],
                ),
            }
        },
{
}

/// A face's row names it by position: whatever stands at the row's index is what
/// the face belongs to.
pub proof fn rows_name_by_position(face: FaceRef, parts: Seq<PartId>, features: Seq<ShapeFeatureId>)
    requires
        face_listed(face, parts, features),
        parts.len() <= u32::MAX,
        features.len() <= u32::MAX,
    ensures
        ({
            let row = face_doc_of(face, parts, features);
            &&& row.face == face.face
            &&& face.owner is Ground <==> row.owner is Ground
            &&& face.owner is Part ==> row.owner->Part_0 < parts.len() && parts[row.owner->Part_0
                as int] == face.owner->Part_0
            &&& row.patch is Some <==> face.patch is Some
            &&& face.patch is Some ==> row.patch->0.local == face.patch->0.local
            &&& face.patch is Some && face.patch->0.source is Feature
                ==> row.patch->0.source->Feature_0 < features.len()
                && features[row.patch->0.source->Feature_0 as int]
                == face.patch->0.source->Feature_0
        }),
{
    if face.owner is Part {
        let part = face.owner->Part_0;
        assert(parts[parts.index_of(part)] == part);
    }
    if face.patch is Some && face.patch->0.source is Feature {
        let feature = face.patch->0.source->Feature_0;
        assert(features[features.index_of(feature)] == feature);
    }
}

/// An envelope's row leaves the torque out exactly when it is unlimited, and
/// reads as unlimited where it is left out; speed and travel are kept as they
/// are either way.
pub proof fn unlimited_torque_is_left_out(limits: DriveLimits, doc: DriveLimitsDoc)
    ensures
        limits_doc_of(limits).max_torque_newton_meters is Some
            <==> limits.max_torque_newton_meters.finite(),
        limits_doc_of(limits).max_torque_newton_meters is Some ==> limits_doc_of(
            limits,
        ).max_torque_newton_meters->0 == limits.max_torque_newton_meters,
        limits_doc_of(limits).max_speed_rad_s == limits.max_speed_rad_s,
        limits_doc_of(limits).angle_limits == limits.angle_limits,
        resolved_limits(doc) is Ok ==> {
            let back = resolved_limits(doc)->Ok_0;
            &&& back.max_speed_rad_s == doc.max_speed_rad_s
            &&& back.angle_limits == doc.angle_limits
            &&& doc.max_torque_newton_meters is Some ==> back.max_torque_newton_meters
                == doc.max_torque_newton_meters->0
            &&& doc.max_torque_newton_meters is None ==> !back.max_torque_newton_meters.finite()
                && !back.max_torque_newton_meters.nan()
        },
{
}

/// A state comes back with its own target, dwell and key, and is refused for a
/// dwell out of range first, then for what names no key, then for its target.
pub proof fn states_come_back_as_written(doc: DriveStateDoc)
    ensures
        ({
            let state = state_of_doc(doc);
            &&& state.target == doc.target
            &&& state.dwell is Some <==> doc.dwell is Some
            &&& doc.dwell is Some ==> state.dwell->0.seconds == doc.dwell->0.seconds
                && state.dwell->0.next == doc.dwell->0.next
            &&& state.trigger is Some <==> doc.trigger is Some
            &&& doc.trigger is Some ==> state.trigger->0.release == doc.trigger->0.release
            &&& doc.trigger is Some && state_doc_fault(doc) is None ==> Some(state.trigger->0.key)
                == DriveKey::named(doc.trigger->0.key)
        }),
        ({
            let too_long = doc.dwell is Some && !dwell_in_range(doc.dwell->0.seconds);
            let unnamed = doc.trigger is Some && DriveKey::named(doc.trigger->0.key) is None;
            &&& too_long ==> state_doc_fault(doc) == Some(
                CreationError::DriveProgram(crate::drive::DriveProgramError::DwellOutOfRange),
            )
            &&& !too_long && unnamed ==> state_doc_fault(doc) == Some(
                CreationError::InvalidDriveKey(doc.trigger->0.key),
            )
            &&& !too_long && !unnamed ==> (state_doc_fault(doc) is None <==> doc.target.fault()
                is None)
            &&& !too_long && !unnamed && doc.target.fault() is Some ==> state_doc_fault(doc)
                == Some(CreationError::DriveProgram(doc.target.fault()->0))
        }),
{
}

/// A program is refused for its first faulty state, and for nothing behind it.
pub proof fn the_first_faulty_state_is_told(docs: Seq<DriveStateDoc>, count: int, i: int)
    requires
        0 <= i < count,
    ensures
        first_state_doc_fault(docs, count) is None ==> state_doc_fault(docs[i]) is None,
        state_doc_fault(docs[i]) is Some && (forall|j: int|
            #![trigger docs[j]]
            0 <= j < i ==> state_doc_fault(docs[j]) is None) ==> first_state_doc_fault(docs, count)
            == state_doc_fault(docs[i]),
    decreases count,
{
    if i < count - 1 {
        the_first_faulty_state_is_told(docs, count - 1, i);
    } else if forall|j: int| #![trigger docs[j]] 0 <= j < i ==> state_doc_fault(docs[j]) is None {
        lemma_states_faultless(docs, i);
    }
}

/// States without a fault have no first one.
proof fn lemma_states_faultless(docs: Seq<DriveStateDoc>, count: int)
    requires
        forall|j: int| #![trigger docs[j]] 0 <= j < count ==> state_doc_fault(docs[j]) is None,
    ensures
        first_state_doc_fault(docs, count) is None,
    decreases count,
{
    if count > 0 {
        lemma_states_faultless(docs, count - 1);
        let last = docs[count - 1];
    }
}

/// A part comes back in the shape that its row writes out: sides in order,
/// diameters outer and inner, and the same material and look.
pub proof fn shapes_come_back_as_written(doc: PartDoc, spec: PartSpec)
    requires
        part_of_doc(doc, spec),
    ensures
        doc is Cuboid ==> spec.shape is Cuboid && {
            let sides = doc->Cuboid_dimensions@;
            let back = spec.shape->Cuboid_dimensions;
            &&& back.x == sides[0] && back.y == sides[1] && back.z == sides[2]
            &&& spec.shape->Cuboid_material == doc->Cuboid_material
            &&& spec.shape->Cuboid_appearance == doc->Cuboid_appearance
            &&& spec.layers@.len() == doc->Cuboid_layers@.len()
        },
        doc is Cylinder ==> spec.shape is Cylinder && {
            &&& spec.shape->Cylinder_outer_diameter == doc->Cylinder_outer_diameter
            &&& spec.shape->Cylinder_inner_diameter == doc->Cylinder_inner_diameter
            &&& spec.shape->length_units == doc->length_units
            &&& spec.shape->sweep_degrees == doc->sweep_degrees
            &&& spec.shape->Cylinder_material == doc->Cylinder_material
            &&& spec.layers@.len() == doc->Cylinder_layers@.len()
        },
        doc is PipeBend ==> spec.shape is PipeBend && {
            &&& spec.shape->PipeBend_outer_diameter == doc->PipeBend_outer_diameter
            &&& spec.shape->PipeBend_inner_diameter == doc->PipeBend_inner_diameter
            &&& spec.shape->span_blocks == doc->span_blocks
            &&& spec.shape->PipeBend_material == doc->PipeBend_material
        },
        doc is PipeJunction ==> spec.shape is PipeJunction && {
            &&& spec.shape->PipeJunction_outer_diameter == doc->PipeJunction_outer_diameter
            &&& spec.shape->PipeJunction_inner_diameter == doc->PipeJunction_inner_diameter
            &&& spec.shape->arms == doc->arms
            &&& spec.shape->PipeJunction_material == doc->PipeJunction_material
        },
        doc is Controller <==> spec.shape is Controller,
        doc is Engine <==> spec.shape is Engine,
        doc is Transmission <==> spec.shape is Transmission,
        doc is Servo <==> spec.shape is Servo,
        doc is Seat <==> spec.shape is Seat,
        doc is Dial <==> spec.shape is Dial,
        doc is Button <==> spec.shape is Button,
        doc is Input <==> spec.shape is Input,
        doc is DimensionLink <==> spec.shape is DimensionLink,
        doc is Engine ==> spec.shape->Engine_kind == doc->Engine_kind,
        !(doc is Cuboid || doc is Cylinder) ==> spec.layers@.len() == 0,
        forall|k: int|
            #![trigger spec.layers@[k]]
            0 <= k < spec.layers@.len() ==> {
                let layer = spec.layers@[k];
                let row = layer_docs_in(doc)[k];
                layer.face == row.face && layer.thickness == row.thickness && layer.material
                    == row.material && layer.appearance == row.appearance
            },
{
}

/// A part is refused for a cuboid side without length first, then for whatever
/// measuring it gave; what is of a fixed size is never refused.
pub proof fn parts_are_refused_for_their_measures(doc: PartDoc, check: Result<(), PartError>)
    ensures
        ({
            let flat = doc is Cuboid && exists|k: int|
                0 <= k < 3 && #[trigger] doc->Cuboid_dimensions@[k] == 0;
            let fault = part_doc_fault(doc, check);
            &&& flat ==> fault == Some(CreationError::Dimension(DimensionError::Zero))
            &&& !flat && check is Ok ==> fault is None
            &&& !flat && check is Err && (doc is Cuboid || doc is Cylinder || doc is PipeBend
                || doc is PipeJunction) ==> match check->Err_0 {
                PartError::CylinderDimension(error) => fault == Some(
                    CreationError::CylinderDimension(error),
                ),
                PartError::Layer(error) => fault == Some(CreationError::Layer(error)),
                PartError::PipeBendDimension(error) => fault == Some(
                    CreationError::PipeBendDimension(error),
                ),
                PartError::PipeJunction(error) => fault == Some(CreationError::PipeJunction(error)),
            }
            &&& !(doc is Cuboid || doc is Cylinder || doc is PipeBend || doc is PipeJunction)
                ==> fault is None
        }),
{
    if doc is Cuboid {
        let sides = doc->Cuboid_dimensions@;
        assert(sides[0] == doc->Cuboid_dimensions@[0]);
        assert(sides[1] == doc->Cuboid_dimensions@[1]);
        assert(sides[2] == doc->Cuboid_dimensions@[2]);
    }
}

} // verus!
