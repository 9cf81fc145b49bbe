//! What a compound weighs: parts, regions and hardware that count towards it.

use vstd::prelude::*;

use super::compounds::CompiledCompound;
use super::grouping::{head_key, head_of};
use super::model::TopologyError;
use crate::graph::ConstructionGraph;
use crate::ids::{PartId, RegionId};
use crate::parts::{BearingSocket, BearingSpec, FaceOwner, SolidOwner};
use crate::scalar::{Scalar, Triple};
use crate::exact::{numbers_compare_as_their_values, signs_are_those_of_values};

verus! {

/// Three columns of a tensor.
#[derive(Clone, Copy, Debug, PartialEq, Eq, Structural)]
pub struct Tensor {
    pub x_axis: Triple,
    pub y_axis: Triple,
    pub z_axis: Triple,
}

impl Tensor {
    /// Whether every entry is finite.
    pub open spec fn finite(self) -> bool {
        self.x_axis.finite() && self.y_axis.finite() && self.z_axis.finite()
    }

    /// Whether every entry is finite.
    pub fn is_finite(self) -> (finite: bool)
        ensures
            finite == self.finite(),
    {
        self.x_axis.is_finite() && self.y_axis.is_finite() && self.z_axis.is_finite()
    }
}

/// The tensor whose entries are zero.
#[verifier::allow_in_spec]
pub fn zero_tensor() -> Tensor
    returns
        (Tensor {
            x_axis: Triple { x: Scalar { bits: 0 }, y: Scalar { bits: 0 }, z: Scalar { bits: 0 } },
            y_axis: Triple { x: Scalar { bits: 0 }, y: Scalar { bits: 0 }, z: Scalar { bits: 0 } },
            z_axis: Triple { x: Scalar { bits: 0 }, y: Scalar { bits: 0 }, z: Scalar { bits: 0 } },
        }),
{
    Tensor {
        x_axis: Triple { x: Scalar { bits: 0 }, y: Scalar { bits: 0 }, z: Scalar { bits: 0 } },
        y_axis: Triple { x: Scalar { bits: 0 }, y: Scalar { bits: 0 }, z: Scalar { bits: 0 } },
        z_axis: Triple { x: Scalar { bits: 0 }, y: Scalar { bits: 0 }, z: Scalar { bits: 0 } },
    }
}

/// Sums over everything that counts towards a compound.
#[derive(Clone, Copy, Debug, PartialEq, Eq, Structural)]
pub struct MassSums {
    /// Total mass in kilograms.
    pub mass: Scalar,
    /// Reciprocal of the total mass.
    pub reciprocal: Scalar,
    /// Centre of mass in build space.
    pub center: Triple,
    /// Inertia about the centre of mass.
    pub inertia: Tensor,
    /// Determinant of the inertia.
    pub determinant: Scalar,
    /// Inverse of the inertia.
    pub inverse: Tensor,
}

/// Aggregate mass properties expressed in the compiled root frame.
#[derive(Clone, Copy, Debug, PartialEq, Eq, Structural)]
pub struct MassProperties {
    /// Total mass in kilograms, retained for diagnostics even for static bodies.
    pub mass: Scalar,
    /// Inverse mass used by the solver; zero for static compounds.
    pub inverse_mass: Scalar,
    /// Centre of mass in build-world coordinates.
    pub center_of_mass: Triple,
    /// Inertia tensor around the centre of mass.
    pub inertia: Tensor,
    /// Inverse inertia used by the solver; zero for static compounds.
    pub inverse_inertia: Tensor,
}

/// Whether sums describe a body that can be simulated.
pub open spec fn sums_valid(sums: MassSums) -> bool {
    &&& sums.mass.finite()
    &&& Scalar::zero().below(sums.mass)
    &&& sums.center.finite()
    &&& sums.inertia.finite()
    &&& sums.determinant.finite()
    &&& Scalar::zero().below(sums.determinant)
    &&& sums.inverse.finite()
}

/// Mass properties of a compound from its sums.
pub open spec fn settled(sums: MassSums, is_static: bool) -> MassProperties {
    MassProperties {
        mass: sums.mass,
        inverse_mass: if is_static {
            Scalar::zero()
        } else {
            sums.reciprocal
        },
        center_of_mass: sums.center,
        inertia: sums.inertia,
        inverse_inertia: if is_static {
            zero_tensor()
        } else {
            sums.inverse
        },
    }
}

/// Settles the mass properties of a compound, or refuses sums that no body can have.
pub fn settle_mass(sums: MassSums, is_static: bool, part: PartId) -> (properties: Result<
    MassProperties,
    TopologyError,
>)
    ensures
        properties == if sums_valid(sums) {
            Ok::<MassProperties, TopologyError>(settled(sums, is_static))
        } else {
            Err(TopologyError::InvalidMassProperties { part })
        },
{
    if !sums.mass.is_finite() || !Scalar::zero().less(sums.mass) || !sums.center.is_finite()
        || !sums.inertia.is_finite() || !sums.determinant.is_finite() || !Scalar::zero().less(
        sums.determinant,
    ) || !sums.inverse.is_finite() {
        return Err(TopologyError::InvalidMassProperties { part });
    }
    let inverse_mass: Scalar = if is_static {
        Scalar::zero()
    } else {
        sums.reciprocal
    };
    let inverse_inertia: Tensor = if is_static {
        zero_tensor()
    } else {
        sums.inverse
    };
    Ok(
        MassProperties {
            mass: sums.mass,
            inverse_mass,
            center_of_mass: sums.center,
            inertia: sums.inertia,
            inverse_inertia,
        },
    )
}

/// One mass element of a joint's hardware.
#[derive(Clone, Copy, Debug, PartialEq, Eq, Structural)]
pub struct CarriedElement {
    /// Joint row whose hardware it is.
    pub bearing: usize,
    /// Position among the hardware's elements.
    pub element: usize,
}

/// A part that weighs for itself.
#[derive(Clone, Copy, Debug, PartialEq, Eq, Structural)]
pub struct WeighedPart {
    pub part: PartId,
    /// Whether it weighs by the cells that its edge features and layers leave.
    pub evaluated: bool,
}

/// A region that weighs for the parts inside it.
#[derive(Clone, Copy, Debug, PartialEq, Eq, Structural)]
pub struct WeighedRegion {
    pub region: RegionId,
    /// Whether it weighs by the cells that its edge features leave.
    pub evaluated: bool,
}

/// Everything that counts towards one compound.
#[derive(Debug)]
pub struct CompoundLoad {
    /// One source part identifying the compound.
    pub identifying_part: PartId,
    /// Parts that weigh for themselves.
    pub parts: Vec<WeighedPart>,
    /// Regions that weigh for their parts.
    pub regions: Vec<WeighedRegion>,
    /// Hardware of joints.
    pub hardware: Vec<CarriedElement>,
    /// Sockets that carry a whole unattached assembly.
    pub sockets: Vec<usize>,
}

/// Whether a compound holds one side of a joint: a head it owns, or the part there.
pub open spec fn holds_side(
    compound: CompiledCompound,
    bearing: BearingSpec,
    opposite: bool,
) -> bool {
    if opposite && bearing.kind.owns_head {
        compound.heads.holds(head_of(bearing))
    } else if opposite {
        match bearing.target {
            Some(face) => match face.owner {
                FaceOwner::Part(part) => compound.source_parts@.contains(part),
                FaceOwner::Ground => false,
            },
            None => false,
        }
    } else {
        match bearing.source.owner {
            FaceOwner::Part(part) => compound.source_parts@.contains(part),
            FaceOwner::Ground => false,
        }
    }
}

/// Whether two joints share a mounting assembly.
pub open spec fn same_mount(a: BearingSpec, b: BearingSpec) -> bool {
    a.source == b.source && a.shared_anchor == b.shared_anchor
}

/// Whether a joint before row `i` already stands for this side of the assembly.
pub open spec fn mount_seen(
    compound: CompiledCompound,
    bearings: Seq<BearingSpec>,
    elements: Seq<Vec<bool>>,
    i: int,
    opposite: bool,
    count: int,
) -> bool {
    exists|j: int|
        0 <= j < count && (#[trigger] elements[j])@.len() > 0 && same_mount(
            bearings[j],
            bearings[i],
        ) && holds_side(compound, bearings[j], opposite)
}

/// Whether element `e` of joint `i` counts towards the compound.
pub open spec fn element_counts(
    compound: CompiledCompound,
    bearings: Seq<BearingSpec>,
    elements: Seq<Vec<bool>>,
    i: int,
    e: int,
) -> bool {
    holds_side(compound, bearings[i], elements[i]@[e]) && !mount_seen(
        compound,
        bearings,
        elements,
        i,
        elements[i]@[e],
        i,
    )
}

/// The elements of joint `i` among its first `count` that count.
pub open spec fn elements_of(
    compound: CompiledCompound,
    bearings: Seq<BearingSpec>,
    elements: Seq<Vec<bool>>,
    i: int,
    count: int,
) -> Seq<CarriedElement>
    decreases count,
{
    if count <= 0 {
        Seq::empty()
    } else {
        let before = elements_of(compound, bearings, elements, i, count - 1);
        if element_counts(compound, bearings, elements, i, count - 1) {
            before.push(CarriedElement { bearing: i as usize, element: (count - 1) as usize })
        } else {
            before
        }
    }
}

/// The hardware of the first `count` joints that counts.
pub open spec fn hardware_of(
    compound: CompiledCompound,
    bearings: Seq<BearingSpec>,
    elements: Seq<Vec<bool>>,
    count: int,
) -> Seq<CarriedElement>
    decreases count,
{
    if count <= 0 {
        Seq::empty()
    } else {
        hardware_of(compound, bearings, elements, count - 1) + elements_of(
            compound,
            bearings,
            elements,
            count - 1,
            elements[count - 1]@.len() as int,
        )
    }
}

/// Whether an attached joint already represents a socket.
pub open spec fn socket_attached(
    bearings: Seq<BearingSpec>,
    elements: Seq<Vec<bool>>,
    socket: BearingSocket,
) -> bool {
    exists|j: int|
        0 <= j < bearings.len() && (#[trigger] elements[j])@.len() > 0 && bearings[j].source
            == socket.source && bearings[j].shared_anchor.same_value(socket.anchor)
}

/// Whether a listed socket stands at the same place.
pub open spec fn socket_seen(
    sockets: Seq<BearingSocket>,
    listed: Seq<usize>,
    socket: BearingSocket,
) -> bool {
    exists|k: int|
        0 <= k < listed.len() && sockets[#[trigger] listed[k] as int].source == socket.source
            && sockets[listed[k] as int].anchor == socket.anchor
}

/// The sockets among the first `count` whose assembly counts.
pub open spec fn sockets_of(
    compound: CompiledCompound,
    bearings: Seq<BearingSpec>,
    elements: Seq<Vec<bool>>,
    sockets: Seq<BearingSocket>,
    weighty: Seq<bool>,
    count: int,
) -> Seq<usize>
    decreases count,
{
    if count <= 0 {
        Seq::empty()
    } else {
        let before = sockets_of(compound, bearings, elements, sockets, weighty, count - 1);
        let socket = sockets[count - 1];
        let mounted = match socket.source.owner {
            FaceOwner::Part(part) => compound.source_parts@.contains(part),
            FaceOwner::Ground => false,
        };
        if weighty[count - 1] && mounted && !socket_seen(sockets, before, socket)
            && !socket_attached(bearings, elements, socket) {
            before.push((count - 1) as usize)
        } else {
            before
        }
    }
}

/// The part that names a compound: its first one, or the support of its first head.
pub open spec fn identified_by(compound: CompiledCompound) -> PartId {
    if compound.source_parts@.len() > 0 {
        compound.source_parts@[0]
    } else {
        compound.heads@[0].support
    }
}

/// The part that names a compound.
pub fn identifying_part(compound: &CompiledCompound) -> (part: PartId)
    requires
        compound.source_parts@.len() > 0 || compound.heads@.len() > 0,
    ensures
        part == identified_by(*compound),
{
    if compound.source_parts.len() > 0 {
        compound.source_parts[0]
    } else {
        compound.heads.item(0).support
    }
}

impl ConstructionGraph {
    /// How a part weighs: by its evaluated cells where an edge feature treats it
    /// or a layer covers it.
    pub open spec fn weighed_part(&self, part: PartId) -> WeighedPart {
        WeighedPart {
            part,
            evaluated: self.featured(SolidOwner::Part(part))
                || self.parts.rows@[part].layers@.len() > 0,
        }
    }

    /// How the first `count` source parts weigh that no region weighs for.
    pub open spec fn uncovered(&self, parts: Seq<PartId>, count: int) -> Seq<WeighedPart>
        decreases count,
    {
        if count <= 0 {
            Seq::empty()
        } else if self.region_owning(parts[count - 1]) is None {
            self.uncovered(parts, count - 1).push(self.weighed_part(parts[count - 1]))
        } else {
            self.uncovered(parts, count - 1)
        }
    }

    /// How the first `count` regions weigh, as far as they are live.
    pub open spec fn live_regions(&self, regions: Seq<RegionId>, count: int) -> Seq<WeighedRegion>
        decreases count,
    {
        if count <= 0 {
            Seq::empty()
        } else if self.regions.rows@.dom().contains(regions[count - 1]) {
            self.live_regions(regions, count - 1).push(
                WeighedRegion {
                    region: regions[count - 1],
                    evaluated: self.featured(SolidOwner::Region(regions[count - 1])),
                },
            )
        } else {
            self.live_regions(regions, count - 1)
        }
    }

    /// Whether `load` is everything that counts towards a compound.
    pub open spec fn loads(
        &self,
        compound: CompiledCompound,
        elements: Seq<Vec<bool>>,
        sockets: Seq<BearingSocket>,
        weighty: Seq<bool>,
        load: CompoundLoad,
    ) -> bool {
        let bearings = self.bearings.rows.values@;
        &&& load.identifying_part == identified_by(compound)
        &&& load.parts@ == self.uncovered(
            compound.source_parts@,
            compound.source_parts@.len() as int,
        )
        &&& load.regions@ == self.live_regions(compound.regions@, compound.regions@.len() as int)
        &&& load.hardware@ == hardware_of(compound, bearings, elements, bearings.len() as int)
        &&& load.sockets@ == sockets_of(
            compound,
            bearings,
            elements,
            sockets,
            weighty,
            sockets.len() as int,
        )
    }
}

/// Whether a list holds a part.
fn lists_part(parts: &Vec<PartId>, part: PartId) -> (held: bool)
    ensures
        held == parts@.contains(part),
{
    let mut i: usize = 0;
    while i < parts.len()
        invariant
            i <= parts@.len(),
            forall|k: int| #![trigger parts@[k]] 0 <= k < i ==> parts@[k] != part,
        decreases parts@.len() - i,
    {
        if parts[i] == part {
            assert(parts@[i as int] == part);
            return true;
        }
        i += 1;
    }
    false
}

/// Whether a compound holds one side of a joint.
fn side_held(compound: &CompiledCompound, bearing: &BearingSpec, opposite: bool) -> (held: bool)
    requires
        compound.heads.wf(),
        bearing.source.owner is Part,
    ensures
        held == holds_side(*compound, *bearing, opposite),
{
    if opposite && bearing.kind.owns_head {
        return compound.heads.contains(head_key(bearing));
    }
    let owner: FaceOwner = if opposite {
        match bearing.target {
            Some(face) => face.owner,
            None => FaceOwner::Ground,
        }
    } else {
        bearing.source.owner
    };
    match owner {
        FaceOwner::Part(part) => lists_part(&compound.source_parts, part),
        FaceOwner::Ground => false,
    }
}

/// Whether every joint starts on a part.
pub open spec fn sources_owned(bearings: Seq<BearingSpec>) -> bool {
    forall|i: int|
        #![trigger bearings[i]]
        0 <= i < bearings.len() ==> bearings[i].source.owner is Part
}

/// Whether an earlier joint already stands for this side of the assembly.
fn find_mount(
    compound: &CompiledCompound,
    bearings: &Vec<BearingSpec>,
    elements: &Vec<Vec<bool>>,
    i: usize,
    opposite: bool,
) -> (seen: bool)
    requires
        compound.heads.wf(),
        sources_owned(bearings@),
        elements@.len() == bearings@.len(),
        i < bearings@.len(),
    ensures
        seen == mount_seen(*compound, bearings@, elements@, i as int, opposite, i as int),
{
    let mut j: usize = 0;
    while j < i
        invariant
            compound.heads.wf(),
            sources_owned(bearings@),
            elements@.len() == bearings@.len(),
            i < bearings@.len(),
            j <= i,
            forall|k: int|
                #![trigger elements@[k]]
                0 <= k < j ==> !(elements@[k]@.len() > 0 && same_mount(
                    bearings@[k],
                    bearings@[i as int],
                ) && holds_side(*compound, bearings@[k], opposite)),
        decreases i - j,
    {
        assert(bearings@[j as int].source.owner is Part);
        if elements[j].len() > 0 && bearings[j].source == bearings[i].source
            && bearings[j].shared_anchor == bearings[i].shared_anchor && side_held(
            compound,
            &bearings[j],
            opposite,
        ) {
            assert(elements@[j as int]@.len() > 0);
            return true;
        }
        j += 1;
    }
    false
}

/// Lists the hardware of joints that counts towards a compound.
fn list_hardware(
    compound: &CompiledCompound,
    bearings: &Vec<BearingSpec>,
    elements: &Vec<Vec<bool>>,
) -> (hardware: Vec<CarriedElement>)
    requires
        compound.heads.wf(),
        sources_owned(bearings@),
        elements@.len() == bearings@.len(),
    ensures
        hardware@ == hardware_of(*compound, bearings@, elements@, bearings@.len() as int),
{
    let mut hardware: Vec<CarriedElement> = Vec::new();
    let mut i: usize = 0;
    while i < bearings.len()
        invariant
            compound.heads.wf(),
            sources_owned(bearings@),
            elements@.len() == bearings@.len(),
            i <= bearings@.len(),
            hardware@ == hardware_of(*compound, bearings@, elements@, i as int),
        decreases bearings@.len() - i,
    {
        let ghost before = hardware@;
        let mut e: usize = 0;
        assert(hardware@ =~= before + elements_of(
            *compound,
            bearings@,
            elements@,
            i as int,
            0,
        ));
        while e < elements[i].len()
            invariant
                compound.heads.wf(),
                sources_owned(bearings@),
                elements@.len() == bearings@.len(),
                i < bearings@.len(),
                e <= elements@[i as int]@.len(),
                hardware@ == before + elements_of(
                    *compound,
                    bearings@,
                    elements@,
                    i as int,
                    e as int,
                ),
            decreases elements@[i as int]@.len() - e,
        {
            let opposite: bool = elements[i][e];
            assert(bearings@[i as int].source.owner is Part);
            if side_held(compound, &bearings[i], opposite) && !find_mount(
                compound,
                bearings,
                elements,
                i,
                opposite,
            ) {
                hardware.push(CarriedElement { bearing: i, element: e });
            }
            assert(hardware@ =~= before + elements_of(
                *compound,
                bearings@,
                elements@,
                i as int,
                e + 1,
            ));
            e += 1;
        }
        i += 1;
    }
    hardware
}

/// Whether an attached joint already represents a socket.
fn find_attached(
    bearings: &Vec<BearingSpec>,
    elements: &Vec<Vec<bool>>,
    socket: &BearingSocket,
) -> (attached: bool)
    requires
        elements@.len() == bearings@.len(),
    ensures
        attached == socket_attached(bearings@, elements@, *socket),
{
    let mut j: usize = 0;
    while j < bearings.len()
        invariant
            elements@.len() == bearings@.len(),
            j <= bearings@.len(),
            forall|k: int|
                #![trigger elements@[k]]
                0 <= k < j ==> !(elements@[k]@.len() > 0 && bearings@[k].source == socket.source
                    && bearings@[k].shared_anchor.same_value(socket.anchor)),
        decreases bearings@.len() - j,
    {
        if elements[j].len() > 0 && bearings[j].source == socket.source
            && bearings[j].shared_anchor.equal(socket.anchor) {
            assert(elements@[j as int]@.len() > 0);
            return true;
        }
        j += 1;
    }
    false
}

/// Whether a listed socket stands at the same place.
fn find_socket(sockets: &Vec<BearingSocket>, listed: &Vec<usize>, socket: &BearingSocket) -> (seen:
    bool)
    requires
        forall|k: int| #![trigger listed@[k]] 0 <= k < listed@.len() ==> listed@[k] < sockets@.len(),
    ensures
        seen == socket_seen(sockets@, listed@, *socket),
{
    let mut k: usize = 0;
    while k < listed.len()
        invariant
            k <= listed@.len(),
            forall|k: int|
                #![trigger listed@[k]]
                0 <= k < listed@.len() ==> listed@[k] < sockets@.len(),
            forall|j: int|
                #![trigger listed@[j]]
                0 <= j < k ==> !(sockets@[listed@[j] as int].source == socket.source
                    && sockets@[listed@[j] as int].anchor == socket.anchor),
        decreases listed@.len() - k,
    {
        let at: usize = listed[k];
        if sockets[at].source == socket.source && sockets[at].anchor == socket.anchor {
            assert(listed@[k as int] == at);
            return true;
        }
        k += 1;
    }
    false
}

/// Lists the sockets whose assembly counts towards a compound.
fn list_sockets(
    compound: &CompiledCompound,
    bearings: &Vec<BearingSpec>,
    elements: &Vec<Vec<bool>>,
    sockets: &Vec<BearingSocket>,
    weighty: &Vec<bool>,
) -> (listed: Vec<usize>)
    requires
        elements@.len() == bearings@.len(),
        weighty@.len() == sockets@.len(),
    ensures
        listed@ == sockets_of(
            *compound,
            bearings@,
            elements@,
            sockets@,
            weighty@,
            sockets@.len() as int,
        ),
{
    let mut listed: Vec<usize> = Vec::new();
    let mut k: usize = 0;
    while k < sockets.len()
        invariant
            elements@.len() == bearings@.len(),
            weighty@.len() == sockets@.len(),
            k <= sockets@.len(),
            forall|j: int|
                #![trigger listed@[j]]
                0 <= j < listed@.len() ==> listed@[j] < sockets@.len(),
            listed@ == sockets_of(
                *compound,
                bearings@,
                elements@,
                sockets@,
                weighty@,
                k as int,
            ),
        decreases sockets@.len() - k,
    {
        let socket: BearingSocket = sockets[k];
        let mounted: bool = match socket.source.owner {
            FaceOwner::Part(part) => lists_part(&compound.source_parts, part),
            FaceOwner::Ground => false,
        };
        if weighty[k] && mounted && !find_socket(sockets, &listed, &socket) && !find_attached(
            bearings,
            elements,
            &socket,
        ) {
            listed.push(k);
        }
        k += 1;
    }
    listed
}

impl ConstructionGraph {
    /// Lists everything that counts towards a compound: `elements` says of each
    /// joint's hardware which elements sit on the far side, and `weighty` which
    /// sockets carry any.
    pub fn load_compound(
        &self,
        compound: &CompiledCompound,
        elements: &Vec<Vec<bool>>,
        sockets: &Vec<BearingSocket>,
        weighty: &Vec<bool>,
    ) -> (load: CompoundLoad)
        requires
            self.wf(),
            sources_owned(self.bearings.rows.values@),
            self.compound_live(*compound),
            compound.heads.wf(),
            compound.source_parts@.len() > 0 || compound.heads@.len() > 0,
            elements@.len() == self.bearings.rows.values@.len(),
            weighty@.len() == sockets@.len(),
        ensures
            self.loads(*compound, elements@, sockets@, weighty@, load),
    {
        let identifying_part: PartId = identifying_part(compound);
        let mut parts: Vec<WeighedPart> = Vec::new();
        let mut i: usize = 0;
        while i < compound.source_parts.len()
            invariant
                self.wf(),
                self.compound_live(*compound),
                i <= compound.source_parts@.len(),
                parts@ == self.uncovered(compound.source_parts@, i as int),
            decreases compound.source_parts@.len() - i,
        {
            let part: PartId = compound.source_parts[i];
            if self.region_of(part).is_none() {
                assert(self.has_part(compound.source_parts@[i as int]));
                match self.parts.rows.get(part) {
                    Some(spec) => {
                        let evaluated: bool = self.owner_has_shape_features(SolidOwner::Part(part))
                            || spec.layers.len() > 0;
                        parts.push(WeighedPart { part, evaluated });
                    },
                    None => {},
                }
            }
            i += 1;
        }
        let mut regions: Vec<WeighedRegion> = Vec::new();
        let mut r: usize = 0;
        while r < compound.regions.len()
            invariant
                self.wf(),
                r <= compound.regions@.len(),
                regions@ == self.live_regions(compound.regions@, r as int),
            decreases compound.regions@.len() - r,
        {
            let region: RegionId = compound.regions[r];
            if self.regions.rows.contains_key(region) {
                let evaluated: bool = self.owner_has_shape_features(SolidOwner::Region(region));
                regions.push(WeighedRegion { region, evaluated });
            }
            r += 1;
        }
        let hardware: Vec<CarriedElement> = list_hardware(
            compound,
            &self.bearings.rows.values,
            elements,
        );
        let listed: Vec<usize> = list_sockets(
            compound,
            &self.bearings.rows.values,
            elements,
            sockets,
            weighty,
        );
        CompoundLoad { identifying_part, parts, regions, hardware, sockets: listed }
    }
}

/// A mounting assembly that several joints share weighs once on each side.
pub proof fn shared_hardware_weighs_once(
    compound: CompiledCompound,
    bearings: Seq<BearingSpec>,
    elements: Seq<Vec<bool>>,
    i: int,
    e: int,
    j: int,
    f: int,
)
    requires
        0 <= i < bearings.len(),
        0 <= j < bearings.len(),
        0 <= e < elements[i]@.len(),
        0 <= f < elements[j]@.len(),
        element_counts(compound, bearings, elements, i, e),
        element_counts(compound, bearings, elements, j, f),
        same_mount(bearings[i], bearings[j]),
        elements[i]@[e] == elements[j]@[f],
    ensures
        i == j,
{
    if i < j {
        assert(elements[i]@.len() > 0);
        assert(mount_seen(compound, bearings, elements, j, elements[j]@[f], j));
    } else if j < i {
        assert(elements[j]@.len() > 0);
        assert(mount_seen(compound, bearings, elements, i, elements[i]@[e], i));
    }
}

/// Sockets listed before one more is added stay listed, and no other is.
proof fn lemma_sockets_before(
    compound: CompiledCompound,
    bearings: Seq<BearingSpec>,
    elements: Seq<Vec<bool>>,
    sockets: Seq<BearingSocket>,
    weighty: Seq<bool>,
    ring: BearingSocket,
    carries: bool,
    count: int,
)
    requires
        0 <= count <= sockets.len(),
        weighty.len() == sockets.len(),
        sockets.len() <= usize::MAX,
    ensures
        sockets_of(
            compound,
            bearings,
            elements,
            sockets.push(ring),
            weighty.push(carries),
            count,
        ) == sockets_of(compound, bearings, elements, sockets, weighty, count),
        forall|k: int|
            #![trigger sockets_of(compound, bearings, elements, sockets, weighty, count)[k]]
            0 <= k < sockets_of(compound, bearings, elements, sockets, weighty, count).len()
                ==> sockets_of(compound, bearings, elements, sockets, weighty, count)[k] < count,
    decreases count,
{
    if count > 0 {
        lemma_sockets_before(
            compound,
            bearings,
            elements,
            sockets,
            weighty,
            ring,
            carries,
            count - 1,
        );
        let before = sockets_of(compound, bearings, elements, sockets, weighty, count - 1);
        let socket = sockets[count - 1];
        let more = sockets.push(ring);
        if socket_seen(more, before, socket) {
            let k = choose|k: int|
                0 <= k < before.len() && more[#[trigger] before[k] as int].source == socket.source
                    && more[before[k] as int].anchor == socket.anchor;
            assert(sockets[before[k] as int] == more[before[k] as int]);
        }
        if socket_seen(sockets, before, socket) {
            let k = choose|k: int|
                0 <= k < before.len() && sockets[#[trigger] before[k] as int].source
                    == socket.source && sockets[before[k] as int].anchor == socket.anchor;
            assert(more[before[k] as int] == sockets[before[k] as int]);
        }
    }
}

/// A socket whose assembly counts is listed, or one at its place is.
proof fn lemma_socket_listed(
    compound: CompiledCompound,
    bearings: Seq<BearingSpec>,
    elements: Seq<Vec<bool>>,
    sockets: Seq<BearingSocket>,
    weighty: Seq<bool>,
    at: int,
    count: int,
)
    requires
        0 <= at < count <= sockets.len(),
        weighty.len() == sockets.len(),
        sockets.len() <= usize::MAX,
        weighty[at],
        sockets[at].source.owner matches FaceOwner::Part(part)
            && compound.source_parts@.contains(part),
        !socket_attached(bearings, elements, sockets[at]),
    ensures
        socket_seen(
            sockets,
            sockets_of(compound, bearings, elements, sockets, weighty, count),
            sockets[at],
        ),
    decreases count,
{
    let before = sockets_of(compound, bearings, elements, sockets, weighty, count - 1);
    let after = sockets_of(compound, bearings, elements, sockets, weighty, count);
    let ring = sockets[at];
    if at < count - 1 {
        lemma_socket_listed(compound, bearings, elements, sockets, weighty, at, count - 1);
    }
    if socket_seen(sockets, before, ring) {
        let k = choose|k: int|
            0 <= k < before.len() && sockets[#[trigger] before[k] as int].source == ring.source
                && sockets[before[k] as int].anchor == ring.anchor;
        assert(after[k] == before[k]);
    } else {
        assert(after[before.len() as int] == at);
    }
}

/// A ring listed twice counts once.
pub proof fn rings_count_once(
    graph: &ConstructionGraph,
    compound: CompiledCompound,
    elements: Seq<Vec<bool>>,
    sockets: Seq<BearingSocket>,
    weighty: Seq<bool>,
    at: int,
    load: CompoundLoad,
)
    requires
        0 <= at < sockets.len() <= usize::MAX,
        weighty.len() == sockets.len(),
    ensures
        graph.loads(
            compound,
            elements,
            sockets.push(sockets[at]),
            weighty.push(weighty[at]),
            load,
        ) == graph.loads(compound, elements, sockets, weighty, load),
{
    let bearings = graph.bearings.rows.values@;
    let ring = sockets[at];
    let count = sockets.len() as int;
    let more = sockets.push(ring);
    lemma_sockets_before(
        compound,
        bearings,
        elements,
        sockets,
        weighty,
        ring,
        weighty[at],
        count,
    );
    let listed = sockets_of(compound, bearings, elements, sockets, weighty, count);
    let mounted = match ring.source.owner {
        FaceOwner::Part(part) => compound.source_parts@.contains(part),
        FaceOwner::Ground => false,
    };
    if weighty[at] && mounted && !socket_attached(bearings, elements, ring) {
        lemma_socket_listed(compound, bearings, elements, sockets, weighty, at, count);
        let k = choose|k: int|
            0 <= k < listed.len() && sockets[#[trigger] listed[k] as int].source == ring.source
                && sockets[listed[k] as int].anchor == ring.anchor;
        assert(more[listed[k] as int] == sockets[listed[k] as int]);
        assert(socket_seen(more, listed, ring));
    }
    assert(more[count] == ring);
    assert(sockets_of(
        compound,
        bearings,
        elements,
        more,
        weighty.push(weighty[at]),
        count + 1,
    ) == listed);
}

/// A ring that a joint is attached through adds nothing to what the joint carries.
pub proof fn attached_rings_add_nothing(
    graph: &ConstructionGraph,
    compound: CompiledCompound,
    elements: Seq<Vec<bool>>,
    sockets: Seq<BearingSocket>,
    weighty: Seq<bool>,
    ring: BearingSocket,
    carries: bool,
    load: CompoundLoad,
)
    requires
        sockets.len() <= usize::MAX,
        weighty.len() == sockets.len(),
        socket_attached(graph.bearings.rows.values@, elements, ring),
    ensures
        graph.loads(compound, elements, sockets.push(ring), weighty.push(carries), load)
            == graph.loads(compound, elements, sockets, weighty, load),
{
    let bearings = graph.bearings.rows.values@;
    let count = sockets.len() as int;
    lemma_sockets_before(
        compound,
        bearings,
        elements,
        sockets,
        weighty,
        ring,
        carries,
        count,
    );
    assert(sockets.push(ring)[count] == ring);
    assert(sockets_of(
        compound,
        bearings,
        elements,
        sockets.push(ring),
        weighty.push(carries),
        count + 1,
    ) == sockets_of(compound, bearings, elements, sockets, weighty, count));
}

/// Sums are those of a body when all of them are finite, and the mass and the
/// determinant are above zero.
pub proof fn bodies_have_positive_finite_sums(sums: MassSums)
    ensures
        sums_valid(sums) <==> {
            &&& sums.mass.finite() && 0 < sums.mass.units()
            &&& sums.determinant.finite() && 0 < sums.determinant.units()
            &&& sums.center.x.finite() && sums.center.y.finite() && sums.center.z.finite()
            &&& columns_finite(sums.inertia)
            &&& columns_finite(sums.inverse)
        },
{
    signs_are_those_of_values(Scalar::zero());
    if sums.mass.finite() {
        numbers_compare_as_their_values(Scalar::zero(), sums.mass);
    }
    if sums.determinant.finite() {
        numbers_compare_as_their_values(Scalar::zero(), sums.determinant);
    }
}

/// Whether all nine entries of a tensor are finite.
pub open spec fn columns_finite(tensor: Tensor) -> bool {
    &&& tensor.x_axis.x.finite() && tensor.x_axis.y.finite() && tensor.x_axis.z.finite()
    &&& tensor.y_axis.x.finite() && tensor.y_axis.y.finite() && tensor.y_axis.z.finite()
    &&& tensor.z_axis.x.finite() && tensor.z_axis.y.finite() && tensor.z_axis.z.finite()
}

/// What the first joints' hardware adds up to.
proof fn lemma_hardware_listed(
    compound: CompiledCompound,
    bearings: Seq<BearingSpec>,
    elements: Seq<Vec<bool>>,
    count: int,
    carried: CarriedElement,
)
    requires
        0 <= count <= bearings.len() <= usize::MAX,
        elements.len() == bearings.len(),
    ensures
        hardware_of(compound, bearings, elements, count).contains(carried) <==> carried.bearing
            < count && carried.element < elements[carried.bearing as int]@.len() && element_counts(
            compound,
            bearings,
            elements,
            carried.bearing as int,
            carried.element as int,
        ),
    decreases count,
{
    if count > 0 {
        lemma_hardware_listed(compound, bearings, elements, count - 1, carried);
        let last = elements[count - 1];
        assert(last.len() == last@.len());
        lemma_elements_listed(
            compound,
            bearings,
            elements,
            count - 1,
            elements[count - 1]@.len() as int,
            carried,
        );
        let before = hardware_of(compound, bearings, elements, count - 1);
        let more = elements_of(
            compound,
            bearings,
            elements,
            count - 1,
            elements[count - 1]@.len() as int,
        );
        assert((before + more).contains(carried) <==> before.contains(carried) || more.contains(
            carried,
        )) by {
            broadcast use vstd::seq_lib::group_seq_properties;

        }
    }
}

/// What one joint's hardware adds.
proof fn lemma_elements_listed(
    compound: CompiledCompound,
    bearings: Seq<BearingSpec>,
    elements: Seq<Vec<bool>>,
    i: int,
    count: int,
    carried: CarriedElement,
)
    requires
        0 <= i < bearings.len() <= usize::MAX,
        0 <= count <= elements[i]@.len() <= usize::MAX,
    ensures
        elements_of(compound, bearings, elements, i, count).contains(carried) <==> carried.bearing
            == i && carried.element < count && element_counts(
            compound,
            bearings,
            elements,
            i,
            carried.element as int,
        ),
    decreases count,
{
    if count > 0 {
        broadcast use vstd::seq_lib::group_seq_properties;

        lemma_elements_listed(compound, bearings, elements, i, count - 1, carried);
    }
}

/// Hardware weighs on the body that holds its side: near the source on the part
/// that the joint stands on; on the far side on the joint's own head, or, where
/// it has none, on the part attached. Of joints that share a mounting only the
/// first one's weighs.
pub proof fn hardware_weighs_on_its_side(
    graph: &ConstructionGraph,
    compound: CompiledCompound,
    elements: Seq<Vec<bool>>,
    sockets: Seq<BearingSocket>,
    weighty: Seq<bool>,
    load: CompoundLoad,
    carried: CarriedElement,
)
    requires
        graph.loads(compound, elements, sockets, weighty, load),
        elements.len() == graph.bearings.rows.values@.len(),
        carried.bearing < elements.len(),
        carried.element < elements[carried.bearing as int]@.len(),
        sources_owned(graph.bearings.rows.values@),
    ensures
        ({
            let joint = graph.bearings.rows.values@[carried.bearing as int];
            let far = elements[carried.bearing as int]@[carried.element as int];
            let held = if !far {
                compound.source_parts@.contains(joint.source.owner->Part_0)
            } else if joint.kind.owns_head {
                compound.heads.holds(head_of(joint))
            } else {
                joint.target is Some && joint.target->0.owner is Part
                    && compound.source_parts@.contains(joint.target->0.owner->Part_0)
            };
            &&& load.hardware@.contains(carried) ==> held
            &&& held && (forall|j: int|
                #![trigger graph.bearings.rows.values@[j]]
                0 <= j < carried.bearing ==> graph.bearings.rows.values@[j].source != joint.source
                    || graph.bearings.rows.values@[j].shared_anchor != joint.shared_anchor)
                ==> load.hardware@.contains(carried)
        }),
{
    let bearings = graph.bearings.rows.values@;
    assert(graph.bearings.rows.values.len() == bearings.len());
    lemma_hardware_listed(compound, bearings, elements, bearings.len() as int, carried);
    let i = carried.bearing as int;
    let e = carried.element as int;
    let joint = bearings[i];
    assert(joint.source.owner is Part);
    if mount_seen(compound, bearings, elements, i, elements[i]@[e], i) {
        let j = choose|j: int|
            0 <= j < i && (#[trigger] elements[j])@.len() > 0 && same_mount(
                bearings[j],
                bearings[i],
            ) && holds_side(compound, bearings[j], elements[i]@[e]);
        assert(bearings[j].source == joint.source && bearings[j].shared_anchor
            == joint.shared_anchor);
    }
}

/// Which parts the first ones weigh for themselves.
proof fn lemma_uncovered_listed(
    graph: &ConstructionGraph,
    parts: Seq<PartId>,
    count: int,
    weighed: WeighedPart,
)
    requires
        0 <= count <= parts.len(),
    ensures
        graph.uncovered(parts, count).contains(weighed) <==> exists|i: int|
            0 <= i < count && #[trigger] parts[i] == weighed.part && graph.region_owning(parts[i])
                is None && weighed == graph.weighed_part(parts[i]),
    decreases count,
{
    if count > 0 {
        broadcast use vstd::seq_lib::group_seq_properties;

        lemma_uncovered_listed(graph, parts, count - 1, weighed);
        if weighed == graph.weighed_part(parts[count - 1]) {
            assert(parts[count - 1] == weighed.part);
        }
    }
}

/// A part weighs for itself where it stands in the body and no region owns it,
/// and by its evaluated cells exactly where an edge feature treats it or a layer
/// covers it.
pub proof fn parts_weigh_unless_a_region_owns_them(
    graph: &ConstructionGraph,
    compound: CompiledCompound,
    elements: Seq<Vec<bool>>,
    sockets: Seq<BearingSocket>,
    weighty: Seq<bool>,
    load: CompoundLoad,
    weighed: WeighedPart,
)
    requires
        graph.loads(compound, elements, sockets, weighty, load),
    ensures
        load.parts@.contains(weighed) <==> {
            &&& compound.source_parts@.contains(weighed.part)
            &&& graph.region_owning(weighed.part) is None
            &&& weighed.evaluated <==> graph.featured(SolidOwner::Part(weighed.part))
                || graph.parts.rows@[weighed.part].layers@.len() > 0
        },
        compound.source_parts@.len() > 0 ==> load.identifying_part
            == compound.source_parts@.first(),
        compound.source_parts@.len() == 0 ==> load.identifying_part
            == compound.heads@.first().support,
{
    let parts = compound.source_parts@;
    lemma_uncovered_listed(graph, parts, parts.len() as int, weighed);
    if parts.contains(weighed.part) {
        let i = parts.index_of(weighed.part);
        assert(parts[i] == weighed.part);
    }
}

/// Which of the first regions weigh.
proof fn lemma_live_listed(
    graph: &ConstructionGraph,
    regions: Seq<RegionId>,
    count: int,
    weighed: WeighedRegion,
)
    requires
        0 <= count <= regions.len(),
    ensures
        graph.live_regions(regions, count).contains(weighed) <==> graph.regions.rows@.dom().contains(
            weighed.region,
        ) && (weighed.evaluated <==> graph.featured(SolidOwner::Region(weighed.region))) && exists|
            i: int,
        |
            0 <= i < count && #[trigger] regions[i] == weighed.region,
    decreases count,
{
    if count > 0 {
        broadcast use vstd::seq_lib::group_seq_properties;

        lemma_live_listed(graph, regions, count - 1, weighed);
        if regions[count - 1] == weighed.region {
            assert(0 <= count - 1 < count && regions[count - 1] == weighed.region);
        }
    }
}

/// A region weighs where it is live and owns a part of the body, and by its
/// evaluated cells exactly where an edge feature treats it.
pub proof fn live_regions_weigh(
    graph: &ConstructionGraph,
    compound: CompiledCompound,
    elements: Seq<Vec<bool>>,
    sockets: Seq<BearingSocket>,
    weighty: Seq<bool>,
    load: CompoundLoad,
    weighed: WeighedRegion,
)
    requires
        graph.loads(compound, elements, sockets, weighty, load),
    ensures
        load.regions@.contains(weighed) <==> {
            &&& compound.regions@.contains(weighed.region)
            &&& graph.regions.rows@.dom().contains(weighed.region)
            &&& weighed.evaluated <==> graph.featured(SolidOwner::Region(weighed.region))
        },
{
    let regions = compound.regions@;
    lemma_live_listed(graph, regions, regions.len() as int, weighed);
    if regions.contains(weighed.region) {
        let i = regions.index_of(weighed.region);
        assert(regions[i] == weighed.region);
    }
}

/// What the first sockets add.
proof fn lemma_sockets_stand(
    compound: CompiledCompound,
    bearings: Seq<BearingSpec>,
    elements: Seq<Vec<bool>>,
    sockets: Seq<BearingSocket>,
    weighty: Seq<bool>,
    count: int,
)
    requires
        0 <= count <= sockets.len() <= usize::MAX,
    ensures
        ({
            let listed = sockets_of(compound, bearings, elements, sockets, weighty, count);
            &&& forall|k: int|
                #![trigger listed[k]]
                0 <= k < listed.len() ==> listed[k] < count && weighty[listed[k] as int] && (
                sockets[listed[k] as int].source.owner is Part && compound.source_parts@.contains(
                    sockets[listed[k] as int].source.owner->Part_0,
                )) && !socket_attached(bearings, elements, sockets[listed[k] as int])
            &&& forall|k: int, l: int|
                #![trigger listed[k], listed[l]]
                0 <= k < l < listed.len() ==> listed[k] < listed[l] && (
                sockets[listed[k] as int].source != sockets[listed[l] as int].source
                    || sockets[listed[k] as int].anchor != sockets[listed[l] as int].anchor)
        }),
    decreases count,
{
    if count > 0 {
        lemma_sockets_stand(compound, bearings, elements, sockets, weighty, count - 1);
        let before = sockets_of(compound, bearings, elements, sockets, weighty, count - 1);
        let listed = sockets_of(compound, bearings, elements, sockets, weighty, count);
        if listed.len() > before.len() {
            let socket = sockets[count - 1];
            assert forall|k: int| #![trigger listed[k]] 0 <= k < before.len() implies (
            sockets[listed[k] as int].source != socket.source || sockets[listed[k] as int].anchor
                != socket.anchor) by {
                assert(listed[k] == before[k]);
            }
            assert(listed.last() == count - 1);
            assert forall|k: int, l: int|
                #![trigger listed[k], listed[l]]
                0 <= k < l < listed.len() implies listed[k] < listed[l] && (
            sockets[listed[k] as int].source != sockets[listed[l] as int].source
                || sockets[listed[k] as int].anchor != sockets[listed[l] as int].anchor) by {
                if l < before.len() {
                    assert(listed[k] == before[k] && listed[l] == before[l]);
                } else {
                    assert(listed[k] == before[k]);
                }
            }
        }
    }
}

/// A ring weighs on the body that its socket stands on, where it carries any
/// weight and no joint with hardware stands at its place; rings at one place
/// weigh once.
pub proof fn rings_weigh_on_their_support(
    graph: &ConstructionGraph,
    compound: CompiledCompound,
    elements: Seq<Vec<bool>>,
    sockets: Seq<BearingSocket>,
    weighty: Seq<bool>,
    load: CompoundLoad,
    k: int,
    j: int,
)
    requires
        graph.loads(compound, elements, sockets, weighty, load),
        sockets.len() <= usize::MAX,
        0 <= k < load.sockets@.len(),
    ensures
        ({
            let ring = load.sockets@[k] as int;
            &&& 0 <= ring < sockets.len() && weighty[ring]
            &&& sockets[ring].source.owner is Part && compound.source_parts@.contains(
                sockets[ring].source.owner->Part_0,
            )
            &&& 0 <= j < graph.bearings.rows.values@.len() && elements[j]@.len() > 0 ==> {
                let joint = graph.bearings.rows.values@[j];
                joint.source != sockets[ring].source || !joint.shared_anchor.same_value(
                    sockets[ring].anchor,
                )
            }
            &&& 0 <= j < k ==> {
                let other = load.sockets@[j] as int;
                other < ring && (sockets[other].source != sockets[ring].source
                    || sockets[other].anchor != sockets[ring].anchor)
            }
        }),
{
    let bearings = graph.bearings.rows.values@;
    lemma_sockets_stand(compound, bearings, elements, sockets, weighty, sockets.len() as int);
    let listed = load.sockets@;
    assert(listed[k] < sockets.len());
    if 0 <= j < k {
        assert(listed[j] < listed[k]);
    }
}

/// No ring is forgotten: one that carries weight on a part of the body, where no
/// joint with hardware stands, is listed or shares its place with one that is.
pub proof fn every_lone_ring_weighs(
    graph: &ConstructionGraph,
    compound: CompiledCompound,
    elements: Seq<Vec<bool>>,
    sockets: Seq<BearingSocket>,
    weighty: Seq<bool>,
    load: CompoundLoad,
    ring: int,
)
    requires
        graph.loads(compound, elements, sockets, weighty, load),
        0 <= ring < sockets.len() <= usize::MAX,
        weighty.len() == sockets.len(),
        elements.len() == graph.bearings.rows.values@.len(),
        weighty[ring],
        sockets[ring].source.owner is Part,
        compound.source_parts@.contains(sockets[ring].source.owner->Part_0),
        forall|j: int|
            #![trigger graph.bearings.rows.values@[j]]
            0 <= j < elements.len() ==> graph.bearings.rows.values@[j].source
                != sockets[ring].source || !graph.bearings.rows.values@[j].shared_anchor.same_value(
                sockets[ring].anchor,
            ),
    ensures
        exists|k: int|
            #![trigger load.sockets@[k]]
            0 <= k < load.sockets@.len() && sockets[load.sockets@[k] as int].source
                == sockets[ring].source && sockets[load.sockets@[k] as int].anchor
                == sockets[ring].anchor,
{
    let bearings = graph.bearings.rows.values@;
    if socket_attached(bearings, elements, sockets[ring]) {
        let j = choose|j: int|
            0 <= j < bearings.len() && (#[trigger] elements[j])@.len() > 0 && bearings[j].source
                == sockets[ring].source && bearings[j].shared_anchor.same_value(
                sockets[ring].anchor,
            );
        assert(bearings[j].source != sockets[ring].source || !bearings[j].shared_anchor.same_value(
            sockets[ring].anchor,
        ));
    }
    lemma_socket_listed(
        compound,
        bearings,
        elements,
        sockets,
        weighty,
        ring,
        sockets.len() as int,
    );
}

} // verus!
