//! Combining documents.

use vstd::prelude::*;

use super::doc::{
    BearingDoc, BearingSocketDoc, CreationDocument, CreationError, DriveLinkDoc, EdgeChainRefDoc,
    FaceOwnerDoc, FaceRefDoc, GearboxConfigDoc, InputSeatLinkDoc, PartDoc, RigidLinkDoc,
    SeatControllerLinkDoc, ShapeFeatureDoc, SolidOwnerDoc, TopologyKeyDoc, TopologySourceDoc,
    WeldDoc,
};
use crate::parts::DimensionLinkId;

verus! {

/// Row counts of the document that rows are appended to.
#[derive(Clone, Copy, Debug, PartialEq, Eq, Structural)]
pub struct Offsets {
    pub frames: u32,
    pub parts: u32,
    pub bearings: u32,
    pub regions: u32,
    pub features: u32,
}

/// Whether a row index stays in range behind `offset` rows.
pub open spec fn shifts(index: u32, offset: u32) -> bool {
    index + offset <= u32::MAX
}

/// A row index behind `offset` rows.
pub open spec fn shifted(index: u32, offset: u32) -> u32 {
    (index + offset) as u32
}

/// Moves a row index behind `offset` rows.
pub(crate) fn shift(index: u32, offset: u32) -> (moved: Result<u32, CreationError>)
    ensures
        moved == if shifts(index, offset) {
            Ok::<u32, CreationError>(shifted(index, offset))
        } else {
            Err(CreationError::TooManyRows)
        },
{
    match index.checked_add(offset) {
        Some(moved) => Ok(moved),
        None => Err(CreationError::TooManyRows),
    }
}

/// Rows that name other rows.
pub trait Relocated: Sized {
    /// Whether every index stays in range.
    spec fn relocates(self, offsets: Offsets) -> bool;

    /// Whether `moved` is this row with every index behind the offsets.
    spec fn relocated(self, offsets: Offsets, moved: Self) -> bool;

    /// Moves every index behind the offsets.
    fn relocate(self, offsets: Offsets) -> (moved: Result<Self, CreationError>)
        ensures
            moved is Ok <==> self.relocates(offsets),
            moved is Ok ==> self.relocated(offsets, moved->Ok_0),
            moved is Err ==> moved->Err_0 == CreationError::TooManyRows,
    ;
}

/// A face owner behind the offsets.
pub open spec fn shifted_owner(owner: FaceOwnerDoc, offsets: Offsets) -> FaceOwnerDoc {
    match owner {
        FaceOwnerDoc::Part(index) => FaceOwnerDoc::Part(shifted(index, offsets.parts)),
        FaceOwnerDoc::Ground => FaceOwnerDoc::Ground,
    }
}

/// A topology key behind the offsets.
pub open spec fn shifted_key(key: TopologyKeyDoc, offsets: Offsets) -> TopologyKeyDoc {
    TopologyKeyDoc {
        source: match key.source {
            TopologySourceDoc::Base => TopologySourceDoc::Base,
            TopologySourceDoc::Feature(index) => TopologySourceDoc::Feature(
                shifted(index, offsets.features),
            ),
        },
        local: key.local,
    }
}

/// Whether a topology key stays in range.
pub open spec fn key_shifts(key: TopologyKeyDoc, offsets: Offsets) -> bool {
    match key.source {
        TopologySourceDoc::Base => true,
        TopologySourceDoc::Feature(index) => shifts(index, offsets.features),
    }
}

/// A face behind the offsets.
pub open spec fn shifted_face(face: FaceRefDoc, offsets: Offsets) -> FaceRefDoc {
    FaceRefDoc {
        owner: shifted_owner(face.owner, offsets),
        face: face.face,
        patch: match face.patch {
            Some(key) => Some(shifted_key(key, offsets)),
            None => None,
        },
    }
}

/// Whether a face stays in range.
pub open spec fn face_shifts(face: FaceRefDoc, offsets: Offsets) -> bool {
    &&& face.owner is Part ==> shifts(face.owner->Part_0, offsets.parts)
    &&& face.patch is Some ==> key_shifts(face.patch->0, offsets)
}

/// Moves a topology key behind the offsets.
fn shift_key(key: TopologyKeyDoc, offsets: Offsets) -> (moved: Result<
    TopologyKeyDoc,
    CreationError,
>)
    ensures
        moved == if key_shifts(key, offsets) {
            Ok::<TopologyKeyDoc, CreationError>(shifted_key(key, offsets))
        } else {
            Err(CreationError::TooManyRows)
        },
{
    match key.source {
        TopologySourceDoc::Base => Ok(key),
        TopologySourceDoc::Feature(index) => match shift(index, offsets.features) {
            Ok(index) => Ok(
                TopologyKeyDoc { source: TopologySourceDoc::Feature(index), local: key.local },
            ),
            Err(error) => Err(error),
        },
    }
}

/// Moves a face behind the offsets.
fn shift_face(face: FaceRefDoc, offsets: Offsets) -> (moved: Result<FaceRefDoc, CreationError>)
    ensures
        moved == if face_shifts(face, offsets) {
            Ok::<FaceRefDoc, CreationError>(shifted_face(face, offsets))
        } else {
            Err(CreationError::TooManyRows)
        },
{
    let owner: FaceOwnerDoc = match face.owner {
        FaceOwnerDoc::Part(index) => match shift(index, offsets.parts) {
            Ok(index) => FaceOwnerDoc::Part(index),
            Err(error) => {
                return Err(error);
            },
        },
        FaceOwnerDoc::Ground => FaceOwnerDoc::Ground,
    };
    let patch: Option<TopologyKeyDoc> = match face.patch {
        Some(key) => match shift_key(key, offsets) {
            Ok(key) => Some(key),
            Err(error) => {
                return Err(error);
            },
        },
        None => None,
    };
    Ok(FaceRefDoc { owner, face: face.face, patch })
}

impl Relocated for WeldDoc {
    open spec fn relocates(self, offsets: Offsets) -> bool {
        face_shifts(self.first, offsets) && face_shifts(self.second, offsets)
    }

    open spec fn relocated(self, offsets: Offsets, moved: Self) -> bool {
        moved == (WeldDoc {
            first: shifted_face(self.first, offsets),
            second: shifted_face(self.second, offsets),
        })
    }

    fn relocate(self, offsets: Offsets) -> (moved: Result<Self, CreationError>) {
        match (shift_face(self.first, offsets), shift_face(self.second, offsets)) {
            (Ok(first), Ok(second)) => Ok(WeldDoc { first, second }),
            _ => Err(CreationError::TooManyRows),
        }
    }
}

impl Relocated for RigidLinkDoc {
    open spec fn relocates(self, offsets: Offsets) -> bool {
        shifts(self.first, offsets.parts) && shifts(self.second, offsets.parts)
    }

    open spec fn relocated(self, offsets: Offsets, moved: Self) -> bool {
        moved == (RigidLinkDoc {
            first: shifted(self.first, offsets.parts),
            second: shifted(self.second, offsets.parts),
        })
    }

    fn relocate(self, offsets: Offsets) -> (moved: Result<Self, CreationError>) {
        match (shift(self.first, offsets.parts), shift(self.second, offsets.parts)) {
            (Ok(first), Ok(second)) => Ok(RigidLinkDoc { first, second }),
            _ => Err(CreationError::TooManyRows),
        }
    }
}

impl Relocated for BearingDoc {
    open spec fn relocates(self, offsets: Offsets) -> bool {
        face_shifts(self.source, offsets) && (self.target is Some ==> face_shifts(
            self.target->0,
            offsets,
        ))
    }

    open spec fn relocated(self, offsets: Offsets, moved: Self) -> bool {
        moved == (BearingDoc {
            source: shifted_face(self.source, offsets),
            target: match self.target {
                Some(face) => Some(shifted_face(face, offsets)),
                None => None,
            },
            ..self
        })
    }

    fn relocate(self, offsets: Offsets) -> (moved: Result<Self, CreationError>) {
        let source: FaceRefDoc = match shift_face(self.source, offsets) {
            Ok(source) => source,
            Err(error) => {
                return Err(error);
            },
        };
        let target: Option<FaceRefDoc> = match self.target {
            Some(face) => match shift_face(face, offsets) {
                Ok(face) => Some(face),
                Err(error) => {
                    return Err(error);
                },
            },
            None => None,
        };
        Ok(BearingDoc { source, target, ..self })
    }
}

impl Relocated for BearingSocketDoc {
    open spec fn relocates(self, offsets: Offsets) -> bool {
        face_shifts(self.source, offsets)
    }

    open spec fn relocated(self, offsets: Offsets, moved: Self) -> bool {
        moved == (BearingSocketDoc { source: shifted_face(self.source, offsets), ..self })
    }

    fn relocate(self, offsets: Offsets) -> (moved: Result<Self, CreationError>) {
        match shift_face(self.source, offsets) {
            Ok(source) => Ok(BearingSocketDoc { source, ..self }),
            Err(error) => Err(error),
        }
    }
}

impl Relocated for DriveLinkDoc {
    open spec fn relocates(self, offsets: Offsets) -> bool {
        shifts(self.controller, offsets.parts) && shifts(self.bearing, offsets.bearings)
    }

    open spec fn relocated(self, offsets: Offsets, moved: Self) -> bool {
        moved == (DriveLinkDoc {
            controller: shifted(self.controller, offsets.parts),
            bearing: shifted(self.bearing, offsets.bearings),
            ..self
        })
    }

    fn relocate(self, offsets: Offsets) -> (moved: Result<Self, CreationError>) {
        match (shift(self.controller, offsets.parts), shift(self.bearing, offsets.bearings)) {
            (Ok(controller), Ok(bearing)) => Ok(DriveLinkDoc { controller, bearing, ..self }),
            _ => Err(CreationError::TooManyRows),
        }
    }
}

impl Relocated for InputSeatLinkDoc {
    open spec fn relocates(self, offsets: Offsets) -> bool {
        shifts(self.input, offsets.parts) && shifts(self.seat, offsets.parts)
    }

    open spec fn relocated(self, offsets: Offsets, moved: Self) -> bool {
        moved == (InputSeatLinkDoc {
            input: shifted(self.input, offsets.parts),
            seat: shifted(self.seat, offsets.parts),
        })
    }

    fn relocate(self, offsets: Offsets) -> (moved: Result<Self, CreationError>) {
        match (shift(self.input, offsets.parts), shift(self.seat, offsets.parts)) {
            (Ok(input), Ok(seat)) => Ok(InputSeatLinkDoc { input, seat }),
            _ => Err(CreationError::TooManyRows),
        }
    }
}

impl Relocated for SeatControllerLinkDoc {
    open spec fn relocates(self, offsets: Offsets) -> bool {
        shifts(self.seat, offsets.parts) && shifts(self.controller, offsets.parts)
    }

    open spec fn relocated(self, offsets: Offsets, moved: Self) -> bool {
        moved == (SeatControllerLinkDoc {
            seat: shifted(self.seat, offsets.parts),
            controller: shifted(self.controller, offsets.parts),
        })
    }

    fn relocate(self, offsets: Offsets) -> (moved: Result<Self, CreationError>) {
        match (shift(self.seat, offsets.parts), shift(self.controller, offsets.parts)) {
            (Ok(seat), Ok(controller)) => Ok(SeatControllerLinkDoc { seat, controller }),
            _ => Err(CreationError::TooManyRows),
        }
    }
}

impl Relocated for GearboxConfigDoc {
    open spec fn relocates(self, offsets: Offsets) -> bool {
        shifts(self.controller, offsets.parts)
    }

    open spec fn relocated(self, offsets: Offsets, moved: Self) -> bool {
        moved == (GearboxConfigDoc {
            controller: shifted(self.controller, offsets.parts),
            ..self
        })
    }

    fn relocate(self, offsets: Offsets) -> (moved: Result<Self, CreationError>) {
        match shift(self.controller, offsets.parts) {
            Ok(controller) => Ok(GearboxConfigDoc { controller, ..self }),
            Err(error) => Err(error),
        }
    }
}

impl Relocated for PartDoc {
    open spec fn relocates(self, offsets: Offsets) -> bool {
        match self {
            PartDoc::Transmission { parent, .. } => shifts(parent, offsets.parts),
            _ => true,
        }
    }

    open spec fn relocated(self, offsets: Offsets, moved: Self) -> bool {
        match self {
            PartDoc::Transmission { parent, pose } => moved == (PartDoc::Transmission {
                parent: shifted(parent, offsets.parts),
                pose,
            }),
            _ => moved == self,
        }
    }

    fn relocate(self, offsets: Offsets) -> (moved: Result<Self, CreationError>) {
        match self {
            PartDoc::Transmission { parent, pose } => match shift(parent, offsets.parts) {
                Ok(parent) => Ok(PartDoc::Transmission { parent, pose }),
                Err(error) => Err(error),
            },
            other => Ok(other),
        }
    }
}

impl Relocated for EdgeChainRefDoc {
    open spec fn relocates(self, offsets: Offsets) -> bool {
        &&& match self.owner {
            SolidOwnerDoc::Part(index) => shifts(index, offsets.parts),
            SolidOwnerDoc::Region(index) => shifts(index, offsets.regions),
        }
        &&& key_shifts(self.edge, offsets)
    }

    open spec fn relocated(self, offsets: Offsets, moved: Self) -> bool {
        moved == (EdgeChainRefDoc {
            owner: match self.owner {
                SolidOwnerDoc::Part(index) => SolidOwnerDoc::Part(shifted(index, offsets.parts)),
                SolidOwnerDoc::Region(index) => SolidOwnerDoc::Region(
                    shifted(index, offsets.regions),
                ),
            },
            edge: shifted_key(self.edge, offsets),
        })
    }

    fn relocate(self, offsets: Offsets) -> (moved: Result<Self, CreationError>) {
        let owner: SolidOwnerDoc = match self.owner {
            SolidOwnerDoc::Part(index) => match shift(index, offsets.parts) {
                Ok(index) => SolidOwnerDoc::Part(index),
                Err(error) => {
                    return Err(error);
                },
            },
            SolidOwnerDoc::Region(index) => match shift(index, offsets.regions) {
                Ok(index) => SolidOwnerDoc::Region(index),
                Err(error) => {
                    return Err(error);
                },
            },
        };
        match shift_key(self.edge, offsets) {
            Ok(edge) => Ok(EdgeChainRefDoc { owner, edge }),
            Err(error) => Err(error),
        }
    }
}

/// Whether every index of every row stays in range.
pub open spec fn all_relocate<T: Relocated>(rows: Seq<T>, offsets: Offsets) -> bool {
    forall|i: int| 0 <= i < rows.len() ==> (#[trigger] rows[i]).relocates(offsets)
}

/// Whether rows are others behind the offsets.
pub open spec fn all_relocated<T: Relocated>(
    rows: Seq<T>,
    offsets: Offsets,
    moved: Seq<T>,
) -> bool {
    &&& moved.len() == rows.len()
    &&& forall|i: int|
        #![trigger moved[i]]
        0 <= i < rows.len() ==> rows[i].relocated(offsets, moved[i])
}

/// Moves every index of every row behind the offsets.
fn relocate_all<T: Relocated>(rows: Vec<T>, offsets: Offsets) -> (moved: Result<
    Vec<T>,
    CreationError,
>)
    ensures
        moved is Ok <==> all_relocate(rows@, offsets),
        moved is Ok ==> all_relocated(rows@, offsets, moved->Ok_0@),
        moved is Err ==> moved->Err_0 == CreationError::TooManyRows,
{
    let mut moved: Vec<T> = Vec::new();
    for row in iter: rows
        invariant
            iter.seq() == rows@,
            moved@.len() == iter.index(),
            forall|k: int|
                #![trigger rows@[k]]
                0 <= k < moved@.len() ==> rows@[k].relocates(offsets),
            forall|k: int|
                #![trigger moved@[k]]
                0 <= k < moved@.len() ==> rows@[k].relocated(offsets, moved@[k]),
    {
        match row.relocate(offsets) {
            Ok(row) => {
                moved.push(row);
            },
            Err(error) => {
                assert(!rows@[moved@.len() as int].relocates(offsets));
                return Err(error);
            },
        }
    }
    Ok(moved)
}

impl Relocated for ShapeFeatureDoc {
    open spec fn relocates(self, offsets: Offsets) -> bool {
        all_relocate(self.targets@, offsets)
    }

    open spec fn relocated(self, offsets: Offsets, moved: Self) -> bool {
        &&& all_relocated(self.targets@, offsets, moved.targets@)
        &&& moved.treatment == self.treatment
        &&& moved.amount_ticks == self.amount_ticks
    }

    fn relocate(self, offsets: Offsets) -> (moved: Result<Self, CreationError>) {
        match relocate_all(self.targets, offsets) {
            Ok(targets) => Ok(
                ShapeFeatureDoc {
                    targets,
                    treatment: self.treatment,
                    amount_ticks: self.amount_ticks,
                },
            ),
            Err(error) => Err(error),
        }
    }
}

/// Whether every membership stays in range.
pub open spec fn memberships_shift(memberships: Seq<u32>, offset: u32) -> bool {
    forall|i: int| 0 <= i < memberships.len() ==> shifts(#[trigger] memberships[i], offset)
}

/// Moves frame memberships behind `offset` frames.
fn shift_memberships(memberships: &Vec<u32>, offset: u32) -> (moved: Result<
    Vec<u32>,
    CreationError,
>)
    ensures
        moved is Ok <==> memberships_shift(memberships@, offset),
        moved is Ok ==> moved->Ok_0@ == memberships@.map_values(
            |index: u32| shifted(index, offset),
        ),
        moved is Err ==> moved->Err_0 == CreationError::TooManyRows,
{
    let mut moved: Vec<u32> = Vec::new();
    let mut i: usize = 0;
    while i < memberships.len()
        invariant
            i <= memberships@.len(),
            moved@.len() == i,
            forall|k: int|
                #![trigger memberships@[k]]
                0 <= k < i ==> shifts(memberships@[k], offset),
            forall|k: int|
                #![trigger moved@[k]]
                0 <= k < i ==> moved@[k] == shifted(memberships@[k], offset),
        decreases memberships@.len() - i,
    {
        match shift(memberships[i], offset) {
            Ok(index) => {
                moved.push(index);
            },
            Err(error) => {
                assert(!shifts(memberships@[i as int], offset));
                return Err(error);
            },
        }
        i += 1;
    }
    assert(moved@ =~= memberships@.map_values(|index: u32| shifted(index, offset)));
    Ok(moved)
}

/// Whether rows are the former ones, then others behind the offsets.
pub open spec fn extended<T: Relocated>(
    before: Seq<T>,
    added: Seq<T>,
    offsets: Offsets,
    after: Seq<T>,
) -> bool {
    &&& after.len() == before.len() + added.len()
    &&& after.take(before.len() as int) == before
    &&& all_relocated(added, offsets, after.skip(before.len() as int))
}

/// Appending moved rows extends the former ones.
proof fn lemma_extended<T: Relocated>(
    before: Seq<T>,
    added: Seq<T>,
    offsets: Offsets,
    moved: Seq<T>,
)
    requires
        all_relocated(added, offsets, moved),
    ensures
        extended(before, added, offsets, before + moved),
{
    assert((before + moved).take(before.len() as int) =~= before);
    assert((before + moved).skip(before.len() as int) =~= moved);
}

impl CreationDocument {
    /// Row counts that another document's indices move behind.
    pub open spec fn offsets(&self) -> Offsets {
        Offsets {
            frames: self.frames@.len() as u32,
            parts: self.parts@.len() as u32,
            bearings: self.bearings@.len() as u32,
            regions: self.regions@.len() as u32,
            features: self.shape_features@.len() as u32,
        }
    }

    /// Whether every row count is an index.
    pub open spec fn countable(&self) -> bool {
        &&& self.frames@.len() <= u32::MAX
        &&& self.parts@.len() <= u32::MAX
        &&& self.bearings@.len() <= u32::MAX
        &&& self.regions@.len() <= u32::MAX
        &&& self.shape_features@.len() <= u32::MAX
    }

    /// Whether every index of this document stays in range behind the offsets.
    pub open spec fn document_relocates(&self, offsets: Offsets) -> bool {
        &&& memberships_shift(self.part_frames@, offsets.frames)
        &&& memberships_shift(self.region_frames@, offsets.frames)
        &&& all_relocate(self.parts@, offsets)
        &&& all_relocate(self.welds@, offsets)
        &&& all_relocate(self.rigid_links@, offsets)
        &&& all_relocate(self.bearings@, offsets)
        &&& all_relocate(self.drive_links@, offsets)
        &&& all_relocate(self.input_seat_links@, offsets)
        &&& all_relocate(self.seat_controller_links@, offsets)
        &&& all_relocate(self.gearbox_configs@, offsets)
        &&& all_relocate(self.sockets@, offsets)
        &&& all_relocate(self.shape_features@, offsets)
    }

    /// Whether `after` holds the rows of `self`, then those of `other` with
    /// every index moved behind them.
    pub open spec fn combined(&self, other: &Self, after: &Self) -> bool {
        let offsets = self.offsets();
        &&& after.version == self.version
        &&& after.name == self.name
        &&& after.frames@ == self.frames@ + other.frames@
        &&& after.part_frames@ == self.part_frames@ + other.part_frames@.map_values(
            |index: u32| shifted(index, offsets.frames),
        )
        &&& after.region_frames@ == self.region_frames@ + other.region_frames@.map_values(
            |index: u32| shifted(index, offsets.frames),
        )
        &&& after.regions@ == self.regions@ + other.regions@
        &&& extended(self.parts@, other.parts@, offsets, after.parts@)
        &&& extended(self.welds@, other.welds@, offsets, after.welds@)
        &&& extended(self.rigid_links@, other.rigid_links@, offsets, after.rigid_links@)
        &&& extended(self.bearings@, other.bearings@, offsets, after.bearings@)
        &&& extended(self.drive_links@, other.drive_links@, offsets, after.drive_links@)
        &&& extended(
            self.input_seat_links@,
            other.input_seat_links@,
            offsets,
            after.input_seat_links@,
        )
        &&& extended(
            self.seat_controller_links@,
            other.seat_controller_links@,
            offsets,
            after.seat_controller_links@,
        )
        &&& extended(self.gearbox_configs@, other.gearbox_configs@, offsets, after.gearbox_configs@)
        &&& extended(self.sockets@, other.sockets@, offsets, after.sockets@)
        &&& extended(self.shape_features@, other.shape_features@, offsets, after.shape_features@)
    }

    /// Counts the rows that another document's indices move behind.
    fn count_rows(&self) -> (offsets: Result<Offsets, CreationError>)
        ensures
            offsets == if self.countable() {
                Ok::<Offsets, CreationError>(self.offsets())
            } else {
                Err(CreationError::TooManyRows)
            },
    {
        let most: u64 = 0xFFFF_FFFF;
        if self.frames.len() as u64 > most || self.parts.len() as u64 > most
            || self.bearings.len() as u64 > most || self.regions.len() as u64 > most
            || self.shape_features.len() as u64 > most {
            return Err(CreationError::TooManyRows);
        }
        Ok(
            Offsets {
                frames: self.frames.len() as u32,
                parts: self.parts.len() as u32,
                bearings: self.bearings.len() as u32,
                regions: self.regions.len() as u32,
                features: self.shape_features.len() as u32,
            },
        )
    }

    /// Appends another complete construction document, moving every dense row
    /// reference behind the rows that are already here. Nothing changes when a
    /// reference would leave the index space.
    pub fn append(&mut self, other: Self) -> (done: Result<(), CreationError>)
        ensures
            done == if old(self).countable() && other.document_relocates(old(self).offsets()) {
                Ok::<(), CreationError>(())
            } else {
                Err(CreationError::TooManyRows)
            },
            done is Err ==> *final(self) == *old(self),
            done is Ok ==> old(self).combined(&other, final(self)),
    {
        let offsets: Offsets = match self.count_rows() {
            Ok(offsets) => offsets,
            Err(error) => {
                return Err(error);
            },
        };
        let mut moved: CreationDocument = match other.relocate_document(offsets) {
            Ok(moved) => moved,
            Err(error) => {
                return Err(error);
            },
        };
        let ghost before = *self;
        let ghost rows = moved;
        self.frames.append(&mut moved.frames);
        self.part_frames.append(&mut moved.part_frames);
        self.region_frames.append(&mut moved.region_frames);
        self.parts.append(&mut moved.parts);
        self.welds.append(&mut moved.welds);
        self.rigid_links.append(&mut moved.rigid_links);
        self.bearings.append(&mut moved.bearings);
        self.drive_links.append(&mut moved.drive_links);
        self.input_seat_links.append(&mut moved.input_seat_links);
        self.seat_controller_links.append(&mut moved.seat_controller_links);
        self.gearbox_configs.append(&mut moved.gearbox_configs);
        self.regions.append(&mut moved.regions);
        self.shape_features.append(&mut moved.shape_features);
        self.sockets.append(&mut moved.sockets);
        proof {
            lemma_extended(before.parts@, other.parts@, offsets, rows.parts@);
            lemma_extended(before.welds@, other.welds@, offsets, rows.welds@);
            lemma_extended(before.rigid_links@, other.rigid_links@, offsets, rows.rigid_links@);
            lemma_extended(before.bearings@, other.bearings@, offsets, rows.bearings@);
            lemma_extended(before.drive_links@, other.drive_links@, offsets, rows.drive_links@);
            lemma_extended(
                before.input_seat_links@,
                other.input_seat_links@,
                offsets,
                rows.input_seat_links@,
            );
            lemma_extended(
                before.seat_controller_links@,
                other.seat_controller_links@,
                offsets,
                rows.seat_controller_links@,
            );
            lemma_extended(
                before.gearbox_configs@,
                other.gearbox_configs@,
                offsets,
                rows.gearbox_configs@,
            );
            lemma_extended(before.sockets@, other.sockets@, offsets, rows.sockets@);
            lemma_extended(
                before.shape_features@,
                other.shape_features@,
                offsets,
                rows.shape_features@,
            );
        }
        Ok(())
    }

    /// Whether `moved` is this document with every index behind the offsets.
    pub open spec fn document_relocated(&self, offsets: Offsets, moved: &Self) -> bool {
        &&& moved.frames == self.frames
        &&& moved.regions == self.regions
        &&& moved.part_frames@ == self.part_frames@.map_values(
            |index: u32| shifted(index, offsets.frames),
        )
        &&& moved.region_frames@ == self.region_frames@.map_values(
            |index: u32| shifted(index, offsets.frames),
        )
        &&& all_relocated(self.parts@, offsets, moved.parts@)
        &&& all_relocated(self.welds@, offsets, moved.welds@)
        &&& all_relocated(self.rigid_links@, offsets, moved.rigid_links@)
        &&& all_relocated(self.bearings@, offsets, moved.bearings@)
        &&& all_relocated(self.drive_links@, offsets, moved.drive_links@)
        &&& all_relocated(self.input_seat_links@, offsets, moved.input_seat_links@)
        &&& all_relocated(self.seat_controller_links@, offsets, moved.seat_controller_links@)
        &&& all_relocated(self.gearbox_configs@, offsets, moved.gearbox_configs@)
        &&& all_relocated(self.sockets@, offsets, moved.sockets@)
        &&& all_relocated(self.shape_features@, offsets, moved.shape_features@)
    }

    /// Moves every index of this document behind the offsets.
    fn relocate_document(self, offsets: Offsets) -> (moved: Result<Self, CreationError>)
        ensures
            moved is Ok <==> self.document_relocates(offsets),
            moved is Ok ==> self.document_relocated(offsets, &moved->Ok_0),
            moved is Err ==> moved->Err_0 == CreationError::TooManyRows,
    {
        let part_frames: Vec<u32> = match shift_memberships(&self.part_frames, offsets.frames) {
            Ok(rows) => rows,
            Err(error) => {
                return Err(error);
            },
        };
        let region_frames: Vec<u32> = match shift_memberships(&self.region_frames, offsets.frames) {
            Ok(rows) => rows,
            Err(error) => {
                return Err(error);
            },
        };
        let parts: Vec<PartDoc> = match relocate_all(self.parts, offsets) {
            Ok(rows) => rows,
            Err(error) => {
                return Err(error);
            },
        };
        let welds: Vec<WeldDoc> = match relocate_all(self.welds, offsets) {
            Ok(rows) => rows,
            Err(error) => {
                return Err(error);
            },
        };
        let rigid_links: Vec<RigidLinkDoc> = match relocate_all(self.rigid_links, offsets) {
            Ok(rows) => rows,
            Err(error) => {
                return Err(error);
            },
        };
        let bearings: Vec<BearingDoc> = match relocate_all(self.bearings, offsets) {
            Ok(rows) => rows,
            Err(error) => {
                return Err(error);
            },
        };
        let drive_links: Vec<DriveLinkDoc> = match relocate_all(self.drive_links, offsets) {
            Ok(rows) => rows,
            Err(error) => {
                return Err(error);
            },
        };
        let input_seat_links: Vec<InputSeatLinkDoc> = match relocate_all(
            self.input_seat_links,
            offsets,
        ) {
            Ok(rows) => rows,
            Err(error) => {
                return Err(error);
            },
        };
        let seat_controller_links: Vec<SeatControllerLinkDoc> = match relocate_all(
            self.seat_controller_links,
            offsets,
        ) {
            Ok(rows) => rows,
            Err(error) => {
                return Err(error);
            },
        };
        let gearbox_configs: Vec<GearboxConfigDoc> = match relocate_all(
            self.gearbox_configs,
            offsets,
        ) {
            Ok(rows) => rows,
            Err(error) => {
                return Err(error);
            },
        };
        let sockets: Vec<BearingSocketDoc> = match relocate_all(self.sockets, offsets) {
            Ok(rows) => rows,
            Err(error) => {
                return Err(error);
            },
        };
        let shape_features: Vec<ShapeFeatureDoc> = match relocate_all(
            self.shape_features,
            offsets,
        ) {
            Ok(rows) => rows,
            Err(error) => {
                return Err(error);
            },
        };
        Ok(
            CreationDocument {
                version: self.version,
                name: self.name,
                parts,
                frames: self.frames,
                part_frames,
                region_frames,
                welds,
                rigid_links,
                bearings,
                drive_links,
                input_seat_links,
                seat_controller_links,
                gearbox_configs,
                regions: self.regions,
                shape_features,
                sockets,
            },
        )
    }

    /// Reassigns every Dimension Link identity for insertion as a reusable creation.
    ///
    /// Transfers between a world and its Garage must not call this: those retain
    /// identities.
    pub fn remap_dimension_links(&mut self, next_id: &mut u64)
        ensures
            *final(next_id) == saturated(
                *old(next_id) + links_before(old(self).parts@, old(self).parts@.len() as int),
            ),
            final(self).parts@.len() == old(self).parts@.len(),
            forall|i: int|
                #![trigger final(self).parts@[i]]
                0 <= i < old(self).parts@.len() ==> final(self).parts@[i] == relinked(
                    old(self).parts@[i],
                    saturated(*old(next_id) + links_before(old(self).parts@, i)),
                ),
            *final(self) == (CreationDocument { parts: final(self).parts, ..*old(self) }),
    {
        let ghost start = self.parts@;
        let ghost first = *next_id;
        let ghost before = *self;
        let mut i: usize = 0;
        while i < self.parts.len()
            invariant
                start == before.parts@,
                *self == (CreationDocument { parts: self.parts, ..before }),
                i <= start.len(),
                self.parts@.len() == start.len(),
                *next_id == saturated(first + links_before(start, i as int)),
                forall|k: int|
                    #![trigger self.parts@[k]]
                    0 <= k < i ==> self.parts@[k] == relinked(
                        start[k],
                        saturated(first + links_before(start, k)),
                    ),
                forall|k: int|
                    #![trigger self.parts@[k]]
                    i <= k < start.len() ==> self.parts@[k] == start[k],
            decreases start.len() - i,
        {
            proof {
                lemma_links_counted(start, i as int);
            }
            if let PartDoc::DimensionLink { id: _, pose } = &self.parts[i] {
                let pose = *pose;
                self.parts.set(i, PartDoc::DimensionLink { id: DimensionLinkId(*next_id), pose });
                *next_id = if *next_id < u64::MAX {
                    *next_id + 1
                } else {
                    u64::MAX
                };
            }
            i += 1;
        }
    }
}

/// A count that stops at the largest identity.
pub open spec fn saturated(count: int) -> u64 {
    if count <= u64::MAX {
        count as u64
    } else {
        u64::MAX
    }
}

/// Dimension Links among the first `count` parts.
pub open spec fn links_before(parts: Seq<PartDoc>, count: int) -> int
    decreases count,
{
    if count <= 0 {
        0
    } else {
        links_before(parts, count - 1) + (if parts[count - 1] is DimensionLink {
            1int
        } else {
            0int
        })
    }
}

/// A part with another identity, if it is a Dimension Link.
pub open spec fn relinked(part: PartDoc, id: u64) -> PartDoc {
    match part {
        PartDoc::DimensionLink { pose, .. } => PartDoc::DimensionLink {
            id: DimensionLinkId(id),
            pose,
        },
        _ => part,
    }
}

/// There are never fewer than no Dimension Links.
proof fn lemma_links_counted(parts: Seq<PartDoc>, count: int)
    ensures
        0 <= links_before(parts, count),
        count >= 0 ==> links_before(parts, count) <= count,
    decreases count,
{
    if count > 0 {
        lemma_links_counted(parts, count - 1);
    }
}

/// Remapped Dimension Links get distinct identities, in row order, while
/// identities last.
pub proof fn remapped_links_are_distinct(parts: Seq<PartDoc>, first: u64, i: int, j: int)
    requires
        0 <= i < j < parts.len(),
        parts[i] is DimensionLink,
        parts[j] is DimensionLink,
        first + links_before(parts, parts.len() as int) <= u64::MAX,
    ensures
        saturated(first + links_before(parts, i)) < saturated(first + links_before(parts, j)),
{
    lemma_links_grow(parts, i + 1, j);
    lemma_links_grow(parts, j, parts.len() as int);
    lemma_links_counted(parts, i);
}

/// More parts never hold fewer Dimension Links.
proof fn lemma_links_grow(parts: Seq<PartDoc>, i: int, j: int)
    requires
        0 <= i <= j,
    ensures
        links_before(parts, i) <= links_before(parts, j),
    decreases j,
{
    if i < j {
        lemma_links_grow(parts, i, j - 1);
    }
}

/// Appending keeps every row that was there, and an index of the other document
/// names the same part behind them.
pub proof fn appended_indices_name_the_same_parts(
    before: &CreationDocument,
    other: &CreationDocument,
    after: &CreationDocument,
    index: u32,
)
    requires
        before.countable(),
        before.combined(other, after),
        index < other.parts@.len(),
        shifts(index, before.offsets().parts),
    ensures
        forall|i: int|
            #![trigger after.parts@[i]]
            0 <= i < before.parts@.len() ==> after.parts@[i] == before.parts@[i],
        other.parts@[index as int].relocated(
            before.offsets(),
            after.parts@[shifted(index, before.offsets().parts) as int],
        ),
{
    let count = before.parts@.len() as int;
    assert forall|i: int| #![trigger after.parts@[i]] 0 <= i < count implies after.parts@[i]
        == before.parts@[i] by {
        assert(after.parts@.take(count)[i] == after.parts@[i]);
    }
    assert(after.parts@.skip(count)[index as int] == after.parts@[count + index]);
}

/// Appending one document and then another moves the last one's parts behind
/// both: offsets add up.
pub proof fn offsets_add_up(index: u32, first: u32, second: u32)
    requires
        shifts(index, first),
        shifts(shifted(index, first), second),
        shifts(first, second),
    ensures
        shifted(shifted(index, first), second) == shifted(index, shifted(first, second)),
{
}

/// Whether a face of the appended rows is the one it was: on the part as many
/// rows further on as parts were there before, or on the ground still; the same
/// side; and the same patch, of the feature as many rows further on.
pub open spec fn same_face_behind(was: FaceRefDoc, now: FaceRefDoc, parts: nat, features: nat) -> bool {
    &&& now.face == was.face
    &&& match (was.owner, now.owner) {
        (FaceOwnerDoc::Part(a), FaceOwnerDoc::Part(b)) => b - a == parts,
        (FaceOwnerDoc::Ground, FaceOwnerDoc::Ground) => true,
        _ => false,
    }
    &&& match (was.patch, now.patch) {
        (Some(a), Some(b)) => same_key_behind(a, b, features),
        (None, None) => true,
        _ => false,
    }
}

/// Whether a topology key is the one it was, its feature as many rows further on.
pub open spec fn same_key_behind(was: TopologyKeyDoc, now: TopologyKeyDoc, features: nat) -> bool {
    &&& now.local == was.local
    &&& match (was.source, now.source) {
        (TopologySourceDoc::Base, TopologySourceDoc::Base) => true,
        (TopologySourceDoc::Feature(a), TopologySourceDoc::Feature(b)) => b - a == features,
        _ => false,
    }
}

/// Whether an edge chain is the one it was, its owner and its feature as many
/// rows further on.
pub open spec fn same_chain_behind(
    was: EdgeChainRefDoc,
    now: EdgeChainRefDoc,
    parts: nat,
    regions: nat,
    features: nat,
) -> bool {
    &&& match (was.owner, now.owner) {
        (SolidOwnerDoc::Part(a), SolidOwnerDoc::Part(b)) => b - a == parts,
        (SolidOwnerDoc::Region(a), SolidOwnerDoc::Region(b)) => b - a == regions,
        _ => false,
    }
    &&& same_key_behind(was.edge, now.edge, features)
}

/// A shifted face is the same one behind the former rows.
proof fn lemma_face_behind(face: FaceRefDoc, offsets: Offsets)
    requires
        face_shifts(face, offsets),
    ensures
        same_face_behind(
            face,
            shifted_face(face, offsets),
            offsets.parts as nat,
            offsets.features as nat,
        ),
{
}

/// Appending keeps every row that was there, in its place and as it was.
pub proof fn appending_keeps_the_former_rows(
    before: &CreationDocument,
    other: &CreationDocument,
    after: &CreationDocument,
)
    requires
        before.combined(other, after),
    ensures
        after.name@ == before.name@ && after.version == before.version,
        before.parts@.is_prefix_of(after.parts@),
        before.frames@.is_prefix_of(after.frames@),
        before.part_frames@.is_prefix_of(after.part_frames@),
        before.region_frames@.is_prefix_of(after.region_frames@),
        before.welds@.is_prefix_of(after.welds@),
        before.rigid_links@.is_prefix_of(after.rigid_links@),
        before.bearings@.is_prefix_of(after.bearings@),
        before.drive_links@.is_prefix_of(after.drive_links@),
        before.input_seat_links@.is_prefix_of(after.input_seat_links@),
        before.seat_controller_links@.is_prefix_of(after.seat_controller_links@),
        before.gearbox_configs@.is_prefix_of(after.gearbox_configs@),
        before.regions@.is_prefix_of(after.regions@),
        before.shape_features@.is_prefix_of(after.shape_features@),
        before.sockets@.is_prefix_of(after.sockets@),
        after.parts@.len() == before.parts@.len() + other.parts@.len(),
        after.frames@.len() == before.frames@.len() + other.frames@.len(),
        after.part_frames@.len() == before.part_frames@.len() + other.part_frames@.len(),
        after.region_frames@.len() == before.region_frames@.len() + other.region_frames@.len(),
        after.welds@.len() == before.welds@.len() + other.welds@.len(),
        after.rigid_links@.len() == before.rigid_links@.len() + other.rigid_links@.len(),
        after.bearings@.len() == before.bearings@.len() + other.bearings@.len(),
        after.drive_links@.len() == before.drive_links@.len() + other.drive_links@.len(),
        after.input_seat_links@.len() == before.input_seat_links@.len()
            + other.input_seat_links@.len(),
        after.seat_controller_links@.len() == before.seat_controller_links@.len()
            + other.seat_controller_links@.len(),
        after.gearbox_configs@.len() == before.gearbox_configs@.len()
            + other.gearbox_configs@.len(),
        after.regions@.len() == before.regions@.len() + other.regions@.len(),
        after.shape_features@.len() == before.shape_features@.len() + other.shape_features@.len(),
        after.sockets@.len() == before.sockets@.len() + other.sockets@.len(),
{
    assert(before.frames@ =~= after.frames@.take(before.frames@.len() as int));
    assert(before.regions@ =~= after.regions@.take(before.regions@.len() as int));
    assert(before.part_frames@ =~= after.part_frames@.take(before.part_frames@.len() as int));
    assert(before.region_frames@ =~= after.region_frames@.take(before.region_frames@.len() as int));
}

/// Appended connections name the rows they named, now behind those that were
/// there: welds, links, joints and rings their faces and parts, with everything
/// else about them as it was.
pub proof fn appended_connections_name_what_they_named(
    before: &CreationDocument,
    other: &CreationDocument,
    after: &CreationDocument,
    i: int,
)
    requires
        before.countable(),
        other.document_relocates(before.offsets()),
        before.combined(other, after),
        0 <= i,
    ensures
        i < other.welds@.len() ==> {
            let was = other.welds@[i];
            let now = after.welds@[before.welds@.len() + i];
            &&& same_face_behind(
                was.first,
                now.first,
                before.parts@.len(),
                before.shape_features@.len(),
            )
            &&& same_face_behind(
                was.second,
                now.second,
                before.parts@.len(),
                before.shape_features@.len(),
            )
        },
        i < other.rigid_links@.len() ==> {
            let was = other.rigid_links@[i];
            let now = after.rigid_links@[before.rigid_links@.len() + i];
            now.first - was.first == before.parts@.len() && now.second - was.second
                == before.parts@.len()
        },
        i < other.bearings@.len() ==> {
            let was = other.bearings@[i];
            let now = after.bearings@[before.bearings@.len() + i];
            &&& same_face_behind(
                was.source,
                now.source,
                before.parts@.len(),
                before.shape_features@.len(),
            )
            &&& was.target is Some <==> now.target is Some
            &&& was.target is Some ==> same_face_behind(
                was.target->0,
                now.target->0,
                before.parts@.len(),
                before.shape_features@.len(),
            )
            &&& now.kind == was.kind && now.anchor == was.anchor && now.axis == was.axis
            &&& now.outer_diameter == was.outer_diameter && now.inner_diameter
                == was.inner_diameter
        },
        i < other.sockets@.len() ==> {
            let was = other.sockets@[i];
            let now = after.sockets@[before.sockets@.len() + i];
            &&& same_face_behind(
                was.source,
                now.source,
                before.parts@.len(),
                before.shape_features@.len(),
            )
            &&& now.kind == was.kind && now.anchor == was.anchor && now.axis == was.axis
            &&& now.outer_diameter == was.outer_diameter && now.inner_diameter
                == was.inner_diameter
        },
{
    let offsets = before.offsets();
    if i < other.welds@.len() {
        let was = other.welds@[i];
        assert(was.relocates(offsets));
        assert(was.relocated(offsets, after.welds@.skip(before.welds@.len() as int)[i]));
        lemma_face_behind(was.first, offsets);
        lemma_face_behind(was.second, offsets);
    }
    if i < other.rigid_links@.len() {
        let was = other.rigid_links@[i];
        assert(was.relocates(offsets));
        assert(was.relocated(offsets, after.rigid_links@.skip(before.rigid_links@.len() as int)[i]));
    }
    if i < other.bearings@.len() {
        let was = other.bearings@[i];
        assert(was.relocates(offsets));
        assert(was.relocated(offsets, after.bearings@.skip(before.bearings@.len() as int)[i]));
        lemma_face_behind(was.source, offsets);
        if was.target is Some {
            lemma_face_behind(was.target->0, offsets);
        }
    }
    if i < other.sockets@.len() {
        let was = other.sockets@[i];
        assert(was.relocates(offsets));
        assert(was.relocated(offsets, after.sockets@.skip(before.sockets@.len() as int)[i]));
        lemma_face_behind(was.source, offsets);
    }
}

/// Appended controls name the rows they named, now behind those that were
/// there: wires their Controller and joint, links their parts, lanes their
/// Controller, with everything else about them as it was.
pub proof fn appended_controls_name_what_they_named(
    before: &CreationDocument,
    other: &CreationDocument,
    after: &CreationDocument,
    i: int,
)
    requires
        before.countable(),
        other.document_relocates(before.offsets()),
        before.combined(other, after),
        0 <= i,
    ensures
        i < other.drive_links@.len() ==> {
            let was = other.drive_links@[i];
            let now = after.drive_links@[before.drive_links@.len() + i];
            &&& now.controller - was.controller == before.parts@.len()
            &&& now.bearing - was.bearing == before.bearings@.len()
            &&& now.linear_limits == was.linear_limits && now.reversed == was.reversed
            &&& now.actuator == was.actuator && now.limits == was.limits
            &&& now.program == was.program && now.name@ == was.name@
        },
        i < other.input_seat_links@.len() ==> {
            let was = other.input_seat_links@[i];
            let now = after.input_seat_links@[before.input_seat_links@.len() + i];
            now.input - was.input == before.parts@.len() && now.seat - was.seat
                == before.parts@.len()
        },
        i < other.seat_controller_links@.len() ==> {
            let was = other.seat_controller_links@[i];
            let now = after.seat_controller_links@[before.seat_controller_links@.len() + i];
            now.seat - was.seat == before.parts@.len() && now.controller - was.controller
                == before.parts@.len()
        },
        i < other.gearbox_configs@.len() ==> {
            let was = other.gearbox_configs@[i];
            let now = after.gearbox_configs@[before.gearbox_configs@.len() + i];
            &&& now.controller - was.controller == before.parts@.len()
            &&& now.kind == was.kind && now.mode == was.mode && now.ratios@ == was.ratios@
            &&& now.reverse_gears == was.reverse_gears
            &&& now.gear_up == was.gear_up && now.gear_down == was.gear_down
        },
{
    let offsets = before.offsets();
    if i < other.drive_links@.len() {
        let was = other.drive_links@[i];
        assert(was.relocates(offsets));
        assert(was.relocated(offsets, after.drive_links@.skip(before.drive_links@.len() as int)[i]));
    }
    if i < other.input_seat_links@.len() {
        let was = other.input_seat_links@[i];
        let n = before.input_seat_links@.len() as int;
        assert(was.relocates(offsets));
        assert(was.relocated(offsets, after.input_seat_links@.skip(n)[i]));
    }
    if i < other.seat_controller_links@.len() {
        let was = other.seat_controller_links@[i];
        let n = before.seat_controller_links@.len() as int;
        assert(was.relocates(offsets));
        assert(was.relocated(offsets, after.seat_controller_links@.skip(n)[i]));
    }
    if i < other.gearbox_configs@.len() {
        let was = other.gearbox_configs@[i];
        let n = before.gearbox_configs@.len() as int;
        assert(was.relocates(offsets));
        assert(was.relocated(offsets, after.gearbox_configs@.skip(n)[i]));
    }
}

/// Appended parts, grids, regions and features are what they were: a
/// transmission extends the part it extended, parts and regions stand on the
/// grids they stood on, and features treat the chains they treated, all of them
/// now behind the rows that were there.
pub proof fn appended_solids_name_what_they_named(
    before: &CreationDocument,
    other: &CreationDocument,
    after: &CreationDocument,
    i: int,
    k: int,
)
    requires
        before.countable(),
        other.document_relocates(before.offsets()),
        before.combined(other, after),
        0 <= i,
        0 <= k,
    ensures
        i < other.parts@.len() ==> {
            let was = other.parts@[i];
            let now = after.parts@[before.parts@.len() + i];
            &&& was matches PartDoc::Transmission { parent, pose } ==> now
                matches PartDoc::Transmission { parent: moved, pose: stays } && moved - parent
                == before.parts@.len() && stays == pose
            &&& !(was is Transmission) ==> now == was
        },
        i < other.frames@.len() ==> after.frames@[before.frames@.len() + i] == other.frames@[i],
        i < other.regions@.len() ==> after.regions@[before.regions@.len() + i] == other.regions@[i],
        i < other.part_frames@.len() ==> after.part_frames@[before.part_frames@.len() + i]
            - other.part_frames@[i] == before.frames@.len(),
        i < other.region_frames@.len() ==> after.region_frames@[before.region_frames@.len() + i]
            - other.region_frames@[i] == before.frames@.len(),
        i < other.shape_features@.len() ==> {
            let was = other.shape_features@[i];
            let now = after.shape_features@[before.shape_features@.len() + i];
            &&& now.treatment == was.treatment && now.amount_ticks == was.amount_ticks
            &&& now.targets@.len() == was.targets@.len()
            &&& k < was.targets@.len() ==> same_chain_behind(
                was.targets@[k],
                now.targets@[k],
                before.parts@.len(),
                before.regions@.len(),
                before.shape_features@.len(),
            )
        },
{
    let offsets = before.offsets();
    if i < other.parts@.len() {
        let was = other.parts@[i];
        assert(was.relocates(offsets));
        assert(was.relocated(offsets, after.parts@.skip(before.parts@.len() as int)[i]));
    }
    if i < other.part_frames@.len() {
        assert(shifts(other.part_frames@[i], offsets.frames));
    }
    if i < other.region_frames@.len() {
        assert(shifts(other.region_frames@[i], offsets.frames));
    }
    if i < other.shape_features@.len() {
        let was = other.shape_features@[i];
        let n = before.shape_features@.len() as int;
        let now = after.shape_features@.skip(n)[i];
        assert(was.relocates(offsets));
        assert(was.relocated(offsets, now));
        if k < was.targets@.len() {
            assert(was.targets@[k].relocates(offsets));
            assert(was.targets@[k].relocated(offsets, now.targets@[k]));
        }
    }
}

/// An append is refused exactly when there are more rows than an index can
/// count or some index of the appended document would pass the largest one.
pub proof fn appends_are_refused_for_an_index_out_of_range(index: u32, offset: u32)
    ensures
        shifts(index, offset) <==> index as int + offset as int <= 0xFFFF_FFFF,
        shifts(index, offset) ==> shifted(index, offset) - index == offset,
{
}

/// Remapping gives Dimension Links the identities from the next free one on, one
/// each in row order, and touches nothing else.
pub proof fn remapping_counts_links_in_row_order(parts: Seq<PartDoc>, first: u64, i: int)
    requires
        0 <= i < parts.len(),
        first + links_before(parts, parts.len() as int) <= u64::MAX,
    ensures
        ({
            let id = saturated(first + links_before(parts, i));
            &&& id >= first
            &&& i == 0 ==> id == first
            &&& i + 1 < parts.len() ==> saturated(first + links_before(parts, i + 1)) == (
            if parts[i] is DimensionLink {
                id + 1
            } else {
                id as int
            })
            &&& parts[i] matches PartDoc::DimensionLink { pose, .. } ==> relinked(parts[i], id)
                == (PartDoc::DimensionLink { id: DimensionLinkId(id), pose })
            &&& !(parts[i] is DimensionLink) ==> relinked(parts[i], id) == parts[i]
        }),
{
    lemma_links_counted(parts, i);
    lemma_links_grow(parts, i, parts.len() as int);
    if i + 1 < parts.len() {
        lemma_links_grow(parts, i + 1, parts.len() as int);
    }
}

} // verus!
