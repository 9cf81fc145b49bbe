//! Actuators of driven coordinates: which modules power them, and from what.

use vstd::prelude::*;

use super::model::TopologyError;
use super::topology::LoopTopology;
use crate::drive::{DriveState, DriveTarget};
use crate::graph::ConstructionGraph;
use crate::ids::{BearingId, PartId};
use crate::ordered::OrderedSet;
use crate::parts::{ActuatorAssignment, DriveLinkSpec, EngineKind, PartShape};
use crate::scalar::Scalar;
use crate::exact::{signs_are_those_of_values, units_of_one};

verus! {

/// Transmission depths of the physical engines of one Controller, ascending.
#[derive(Debug)]
pub struct LaneDepths {
    /// Depths of electric engines.
    pub electric: Vec<u8>,
    /// Depths of gas engines.
    pub gas: Vec<u8>,
}

/// What one wire takes from the machine module of its Controller.
#[derive(Debug)]
pub struct PortClaim {
    /// Parts of the module, ascending.
    pub module: Vec<PartId>,
    /// Whether the wire reserves an electric motor port.
    pub electric: bool,
    /// Whether the wire reserves a gas motor port.
    pub gas: bool,
}

/// Joints that one engine of each family can drive.
#[derive(Clone, Copy, Debug, PartialEq, Eq, Structural)]
pub struct PortCapacity {
    pub electric: u32,
    pub gas: u32,
}

/// A kind of port in a module.
#[derive(Clone, Copy, Debug, PartialEq, Eq, Structural)]
pub enum PortKind {
    Electric,
    Gas,
    Servo,
}

/// Power and demand of one machine module.
#[derive(Debug)]
pub struct ModuleBudget {
    /// A Controller identifying the module.
    pub controller: PartId,
    /// Electric engines of the module.
    pub electric_engines: u32,
    /// Gas engines of the module.
    pub gas_engines: u32,
    /// Servos of the module.
    pub servos: u32,
    /// Coordinates that reserve an electric port.
    pub electric_coordinates: OrderedSet<u32>,
    /// Coordinates that reserve a gas port.
    pub gas_coordinates: OrderedSet<u32>,
    /// Coordinates that a Servo turns.
    pub servo_coordinates: OrderedSet<u32>,
}

/// Machine modules by their first part, ascending.
#[derive(Debug)]
pub struct ModuleBudgets {
    pub keys: Vec<PartId>,
    pub budgets: Vec<ModuleBudget>,
}

/// Transient active gear of one Controller engine lane.
#[derive(Clone, Copy, Debug, PartialEq, Eq, Structural)]
pub struct GearSelection {
    /// Controller whose engine line is being shifted.
    pub controller: PartId,
    /// Independently geared engine family.
    pub kind: EngineKind,
    /// Input-to-output ratio, or `None` while that family is disengaged.
    pub ratio: Option<Scalar>,
}

/// One coordinate's part of an engine family.
#[derive(Clone, Copy, Debug, PartialEq, Eq, Structural)]
pub struct EngineShare {
    /// Engines of the family in the module.
    pub engines: u32,
    /// Coordinates that share them.
    pub consumers: usize,
    /// Percentage of the share that the wire takes.
    pub percent: u8,
    /// Active gear ratio.
    pub ratio: Scalar,
}

/// What turns a coordinate.
#[allow(inconsistent_fields)]
#[derive(Clone, Copy, Debug, PartialEq, Eq, Structural)]
pub enum ActuatorSource {
    /// Nothing.
    Idle,
    /// Engines of either family.
    Motor { electric: Option<EngineShare>, gas: Option<EngineShare> },
    /// A Servo.
    Servo,
}

/// Actuator of one coordinate.
#[derive(Clone, Copy, Debug, PartialEq, Eq, Structural)]
pub struct CoordinateActuation {
    /// What turns the coordinate.
    pub source: ActuatorSource,
    /// Whether the coordinate slides rather than turns.
    pub translational: bool,
}

/// Whether a list holds two different depths.
pub open spec fn uneven(depths: Seq<u8>) -> bool {
    exists|k: int| 0 <= k < depths.len() && #[trigger] depths[k] != depths[0]
}

/// Whether an actuator can follow a target.
pub open spec fn target_suits(actuator: ActuatorAssignment, target: DriveTarget) -> bool {
    match actuator {
        ActuatorAssignment::Unpowered => true,
        ActuatorAssignment::Motor { .. } => target is Speed,
        ActuatorAssignment::Servo => target is Angle,
    }
}

/// Whether a wire's actuator can follow every state of its program.
pub open spec fn program_suits(link: DriveLinkSpec) -> bool {
    forall|s: int|
        0 <= s < link.program@.len() ==> target_suits(
            link.actuator,
            (#[trigger] link.program@[s]).target,
        )
}

/// Number of the first `count` members whose shape counts for `kind`.
pub open spec fn members_with(
    graph: &ConstructionGraph,
    members: Seq<PartId>,
    kind: PortKind,
    count: int,
) -> int
    decreases count,
{
    if count <= 0 {
        0
    } else {
        members_with(graph, members, kind, count - 1) + (if graph.powers(
            members[count - 1],
            kind,
        ) {
            1int
        } else {
            0int
        })
    }
}

/// The first fault of a module: too few electric ports, then too few gas
/// ports, then too few Servos.
pub open spec fn budget_fault(budget: ModuleBudget, capacity: PortCapacity) -> Option<
    TopologyError,
> {
    if budget.electric_coordinates@.len() > budget.electric_engines * capacity.electric {
        Some(
            TopologyError::InsufficientElectricPorts {
                controller: budget.controller,
                required: budget.electric_coordinates@.len() as u32,
                available: (budget.electric_engines * capacity.electric) as u32,
            },
        )
    } else if budget.gas_coordinates@.len() > budget.gas_engines * capacity.gas {
        Some(
            TopologyError::InsufficientGasPorts {
                controller: budget.controller,
                required: budget.gas_coordinates@.len() as u32,
                available: (budget.gas_engines * capacity.gas) as u32,
            },
        )
    } else if budget.servo_coordinates@.len() > budget.servos {
        Some(
            TopologyError::InsufficientServos {
                controller: budget.controller,
                required: budget.servo_coordinates@.len() as u32,
                available: budget.servos,
            },
        )
    } else {
        None
    }
}

/// The first fault among modules in key order.
pub open spec fn first_budget_fault(
    budgets: Seq<ModuleBudget>,
    capacity: PortCapacity,
    count: int,
) -> Option<TopologyError>
    decreases count,
{
    if count <= 0 {
        None
    } else {
        match first_budget_fault(budgets, capacity, count - 1) {
            Some(fault) => Some(fault),
            None => budget_fault(budgets[count - 1], capacity),
        }
    }
}

/// The gear that a lane is in: its first selection's, or direct drive.
pub open spec fn gear_of(
    gears: Seq<GearSelection>,
    controller: PartId,
    kind: EngineKind,
    from: int,
) -> Option<Scalar>
    decreases gears.len() - from,
{
    if from < 0 || from >= gears.len() {
        Some(Scalar { bits: 0x3f80_0000 })
    } else if gears[from].controller == controller && gears[from].kind == kind {
        gears[from].ratio
    } else {
        gear_of(gears, controller, kind, from + 1)
    }
}

/// A wire's part of an engine family; none when it asks for none or when the
/// lane is disengaged.
pub open spec fn share_of(
    percent: u8,
    engines: u32,
    consumers: usize,
    ratio: Option<Scalar>,
) -> Option<EngineShare> {
    match ratio {
        Some(ratio) => if percent == 0 {
            None
        } else {
            Some(EngineShare { engines, consumers, percent, ratio })
        },
        None => None,
    }
}

impl ConstructionGraph {
    /// Whether a live part counts for a kind of port.
    pub open spec fn powers(&self, part: PartId, kind: PortKind) -> bool {
        self.has_part(part) && match self.parts.rows@[part].shape {
            PartShape::Engine { kind: engine } => match engine {
                EngineKind::Electric => kind is Electric,
                EngineKind::Gas => kind is Gas,
            },
            PartShape::Servo => kind is Servo,
            _ => false,
        }
    }

    /// Whether wire `l` moves a coordinate.
    pub open spec fn link_moves(&self, coordinates: Map<BearingId, u32>, l: int) -> bool {
        coordinates.dom().contains(self.drive_links.rows.values@[l].bearing)
    }

    /// The coordinate that wire `l` moves.
    pub open spec fn link_coordinate(&self, coordinates: Map<BearingId, u32>, l: int) -> u32 {
        coordinates[self.drive_links.rows.values@[l].bearing]
    }

    /// The key of wire `l`'s module: its first part, or the Controller alone.
    pub open spec fn module_key(&self, claims: Seq<PortClaim>, l: int) -> PartId {
        if claims[l].module@.len() > 0 {
            claims[l].module@[0]
        } else {
            self.drive_links.rows.values@[l].controller
        }
    }

    /// Whether wire `l` moves a coordinate from the module `key`.
    pub open spec fn link_in(
        &self,
        coordinates: Map<BearingId, u32>,
        claims: Seq<PortClaim>,
        key: PartId,
        l: int,
    ) -> bool {
        self.link_moves(coordinates, l) && self.module_key(claims, l) == key
    }

    /// Whether wire `l` asks for a kind of port.
    pub open spec fn link_asks(&self, claims: Seq<PortClaim>, kind: PortKind, l: int) -> bool {
        match kind {
            PortKind::Electric => claims[l].electric,
            PortKind::Gas => claims[l].gas,
            PortKind::Servo => self.drive_links.rows.values@[l].actuator is Servo,
        }
    }

    /// Whether wire `l` is the module's first.
    pub open spec fn link_leads(
        &self,
        coordinates: Map<BearingId, u32>,
        claims: Seq<PortClaim>,
        key: PartId,
        l: int,
    ) -> bool {
        self.link_in(coordinates, claims, key, l) && forall|j: int|
            0 <= j < l ==> !#[trigger] self.link_in(coordinates, claims, key, j)
    }

    /// Whether one of the first `count` wires takes a port of the module for `coordinate`.
    pub open spec fn module_asks(
        &self,
        coordinates: Map<BearingId, u32>,
        claims: Seq<PortClaim>,
        key: PartId,
        kind: PortKind,
        coordinate: u32,
        count: int,
    ) -> bool {
        exists|l: int|
            0 <= l < count && #[trigger] self.link_in(coordinates, claims, key, l)
                && self.link_asks(claims, kind, l) && self.link_coordinate(coordinates, l)
                == coordinate
    }

    /// Whether a set holds what the first `count` wires take from the module.
    pub open spec fn lists_demand(
        &self,
        coordinates: Map<BearingId, u32>,
        claims: Seq<PortClaim>,
        key: PartId,
        kind: PortKind,
        set: OrderedSet<u32>,
        count: int,
    ) -> bool {
        &&& set.wf()
        &&& set@.len() <= count
        &&& forall|coordinate: u32| #[trigger]
            set.holds(coordinate) <==> self.module_asks(
                coordinates,
                claims,
                key,
                kind,
                coordinate,
                count,
            )
    }

    /// Whether a budget counts the parts of the module that wire `l` leads.
    pub open spec fn counts_module(
        &self,
        claims: Seq<PortClaim>,
        l: int,
        budget: ModuleBudget,
    ) -> bool {
        let members = claims[l].module@;
        let count = members.len() as int;
        &&& budget.controller == self.drive_links.rows.values@[l].controller
        &&& budget.electric_engines == members_with(self, members, PortKind::Electric, count)
        &&& budget.gas_engines == members_with(self, members, PortKind::Gas, count)
        &&& budget.servos == members_with(self, members, PortKind::Servo, count)
    }

    /// Whether a budget is the module's: what its first wire's parts supply,
    /// and what all of its wires take.
    pub open spec fn budgets_module(
        &self,
        coordinates: Map<BearingId, u32>,
        claims: Seq<PortClaim>,
        key: PartId,
        budget: ModuleBudget,
    ) -> bool {
        let count = self.drive_links.rows.values@.len() as int;
        &&& exists|l: int|
            0 <= l < count && #[trigger] self.link_leads(coordinates, claims, key, l)
                && self.counts_module(claims, l, budget)
        &&& self.lists_demand(
            coordinates,
            claims,
            key,
            PortKind::Electric,
            budget.electric_coordinates,
            count,
        )
        &&& self.lists_demand(
            coordinates,
            claims,
            key,
            PortKind::Gas,
            budget.gas_coordinates,
            count,
        )
        &&& self.lists_demand(
            coordinates,
            claims,
            key,
            PortKind::Servo,
            budget.servo_coordinates,
            count,
        )
    }

    /// Whether `modules` lists every module that moves a coordinate.
    pub open spec fn budgeted(
        &self,
        coordinates: Map<BearingId, u32>,
        claims: Seq<PortClaim>,
        modules: ModuleBudgets,
    ) -> bool {
        &&& crate::ordered::ascending(modules.keys@)
        &&& modules.keys@.len() == modules.budgets@.len()
        &&& forall|l: int|
            0 <= l < self.drive_links.rows.values@.len() && #[trigger] self.link_moves(
                coordinates,
                l,
            ) ==> modules.keys@.contains(self.module_key(claims, l))
        &&& forall|i: int|
            #![trigger modules.budgets@[i]]
            0 <= i < modules.budgets@.len() ==> self.budgets_module(
                coordinates,
                claims,
                modules.keys@[i],
                modules.budgets@[i],
            )
    }

    /// The first wire that moves `coordinate`.
    pub open spec fn first_wire(
        &self,
        coordinates: Map<BearingId, u32>,
        coordinate: u32,
        from: int,
    ) -> Option<int>
        decreases self.drive_links.rows.values@.len() - from,
    {
        if from < 0 || from >= self.drive_links.rows.values@.len() {
            None
        } else if self.link_moves(coordinates, from) && self.link_coordinate(coordinates, from)
            == coordinate {
            Some(from)
        } else {
            self.first_wire(coordinates, coordinate, from + 1)
        }
    }

    /// What turns a coordinate that wire `l` moves.
    pub open spec fn wire_source(
        &self,
        claims: Seq<PortClaim>,
        modules: ModuleBudgets,
        gears: Seq<GearSelection>,
        l: int,
    ) -> ActuatorSource {
        let link = self.drive_links.rows.values@[l];
        let budget = modules.budgets@[modules.keys@.index_of(self.module_key(claims, l))];
        match link.actuator {
            ActuatorAssignment::Unpowered => ActuatorSource::Idle,
            ActuatorAssignment::Motor { electric_percent, gas_percent } => ActuatorSource::Motor {
                electric: share_of(
                    electric_percent,
                    budget.electric_engines,
                    budget.electric_coordinates@.len() as usize,
                    gear_of(gears, link.controller, EngineKind::Electric, 0),
                ),
                gas: share_of(
                    gas_percent,
                    budget.gas_engines,
                    budget.gas_coordinates@.len() as usize,
                    gear_of(gears, link.controller, EngineKind::Gas, 0),
                ),
            },
            ActuatorAssignment::Servo => ActuatorSource::Servo,
        }
    }

    /// Actuator of coordinate `c`.
    pub open spec fn actuation_of(
        &self,
        topology: LoopTopology,
        claims: Seq<PortClaim>,
        modules: ModuleBudgets,
        gears: Seq<GearSelection>,
        c: int,
    ) -> CoordinateActuation {
        CoordinateActuation {
            source: match self.first_wire(topology.bearing_coordinates@, c as u32, 0) {
                Some(l) => self.wire_source(claims, modules, gears, l),
                None => ActuatorSource::Idle,
            },
            translational: self.bearings.rows@.dom().contains(topology.tree_bearings@[c])
                && self.bearings.rows@[topology.tree_bearings@[c]].kind.translational,
        }
    }

    /// Controllers whose engines of one family stand behind different numbers of transmissions.
    pub open spec fn lanes_uneven(&self, depths: Seq<LaneDepths>, i: int) -> bool {
        self.parts.rows.values@[i].shape is Controller && (uneven(depths[i].electric@) || uneven(
            depths[i].gas@,
        ))
    }

    /// Whether `done` is the answer to looking for an uneven Controller from row `from` on.
    pub open spec fn lanes_answer(
        &self,
        depths: Seq<LaneDepths>,
        from: int,
        done: Result<(), TopologyError>,
    ) -> bool
        decreases self.parts.rows.values@.len() - from,
    {
        if from < 0 || from >= self.parts.rows.values@.len() {
            done == Ok::<(), TopologyError>(())
        } else if !self.lanes_uneven(depths, from) {
            self.lanes_answer(depths, from + 1, done)
        } else {
            let electric = uneven(depths[from].electric@);
            done matches Err(
                TopologyError::TransmissionDepthMismatch { controller, kind, depths: found },
            ) && controller == self.parts.rows.keys@[from] && kind == (if electric {
                EngineKind::Electric
            } else {
                EngineKind::Gas
            }) && found@ == (if electric {
                depths[from].electric@
            } else {
                depths[from].gas@
            })
        }
    }

    /// The first wire whose actuator cannot follow its program.
    pub open spec fn first_unsuited(&self, from: int) -> Option<int>
        decreases self.drive_links.rows.values@.len() - from,
    {
        if from < 0 || from >= self.drive_links.rows.values@.len() {
            None
        } else if !program_suits(self.drive_links.rows.values@[from]) {
            Some(from)
        } else {
            self.first_unsuited(from + 1)
        }
    }

    /// Whether every wire's program holds states.
    pub open spec fn programs_valid(&self) -> bool {
        forall|l: int|
            #![trigger self.drive_links.rows.values@[l]]
            0 <= l < self.drive_links.rows.values@.len()
                ==> self.drive_links.rows.values@[l].program.wf()
    }
}

/// Whether a list holds two different depths.
fn is_uneven(depths: &Vec<u8>) -> (found: bool)
    ensures
        found == uneven(depths@),
{
    let mut k: usize = 0;
    while k < depths.len()
        invariant
            k <= depths@.len(),
            forall|j: int| #![trigger depths@[j]] 0 <= j < k ==> depths@[j] == depths@[0],
        decreases depths@.len() - k,
    {
        if depths[k] != depths[0] {
            assert(depths@[k as int] != depths@[0]);
            return true;
        }
        k += 1;
    }
    false
}

/// A copy of a list of depths.
fn copy_depths(depths: &Vec<u8>) -> (copy: Vec<u8>)
    ensures
        copy@ == depths@,
{
    let mut copy: Vec<u8> = Vec::new();
    let mut k: usize = 0;
    while k < depths.len()
        invariant
            k <= depths@.len(),
            copy@ =~= depths@.take(k as int),
        decreases depths@.len() - k,
    {
        copy.push(depths[k]);
        k += 1;
    }
    copy
}

/// The gear that a lane is in.
pub(crate) fn active_ratio(gears: &Vec<GearSelection>, controller: PartId, kind: EngineKind) -> (ratio: Option<
    Scalar,
>)
    ensures
        ratio == gear_of(gears@, controller, kind, 0),
{
    let mut k: usize = 0;
    while k < gears.len()
        invariant
            k <= gears@.len(),
            gear_of(gears@, controller, kind, 0) == gear_of(gears@, controller, kind, k as int),
        decreases gears@.len() - k,
    {
        if gears[k].controller == controller && gears[k].kind == kind {
            return gears[k].ratio;
        }
        k += 1;
    }
    Some(Scalar::one())
}

/// A wire's part of an engine family.
pub(crate) fn engine_share(percent: u8, engines: u32, consumers: usize, ratio: Option<Scalar>) -> (share: Option<
    EngineShare,
>)
    ensures
        share == share_of(percent, engines, consumers, ratio),
{
    match ratio {
        Some(ratio) => if percent == 0 {
            None
        } else {
            Some(EngineShare { engines, consumers, percent, ratio })
        },
        None => None,
    }
}

impl ConstructionGraph {
    /// Refuses a Controller whose engines of one family stand behind different
    /// numbers of transmissions.
    pub fn validate_transmission_depths(&self, depths: &Vec<LaneDepths>) -> (done: Result<
        (),
        TopologyError,
    >)
        requires
            self.wf(),
            depths@.len() == self.parts.rows.keys@.len(),
        ensures
            self.lanes_answer(depths@, 0, done),
    {
        let ghost whole = depths@;
        let mut i: usize = 0;
        let mut done: Result<(), TopologyError> = Ok(());
        while i < self.parts.rows.values.len()
            invariant
                self.wf(),
                whole == depths@,
                depths@.len() == self.parts.rows.keys@.len(),
                i <= self.parts.rows.values@.len(),
                forall|found: Result<(), TopologyError>|
                    #![trigger self.lanes_answer(whole, 0, found)]
                    self.lanes_answer(whole, 0, found) == self.lanes_answer(
                        whole,
                        i as int,
                        found,
                    ),
            decreases self.parts.rows.values@.len() - i,
        {
            let controller: bool = match self.parts.rows.values[i].shape {
                PartShape::Controller => true,
                _ => false,
            };
            if controller {
                if is_uneven(&depths[i].electric) {
                    let fault = Err(
                        TopologyError::TransmissionDepthMismatch {
                            controller: self.parts.rows.keys[i],
                            kind: EngineKind::Electric,
                            depths: copy_depths(&depths[i].electric),
                        },
                    );
                    assert(self.lanes_answer(whole, i as int, fault));
                    return fault;
                }
                if is_uneven(&depths[i].gas) {
                    let fault = Err(
                        TopologyError::TransmissionDepthMismatch {
                            controller: self.parts.rows.keys[i],
                            kind: EngineKind::Gas,
                            depths: copy_depths(&depths[i].gas),
                        },
                    );
                    assert(self.lanes_answer(whole, i as int, fault));
                    return fault;
                }
            }
            i += 1;
        }
        let done: Result<(), TopologyError> = Ok(());
        assert(self.lanes_answer(whole, i as int, done));
        done
    }

    /// Refuses a wire whose actuator cannot follow its program.
    pub fn validate_actuator_programs(&self) -> (done: Result<(), TopologyError>)
        requires
            self.wf(),
            self.programs_valid(),
        ensures
            done == match self.first_unsuited(0) {
                Some(l) => Err::<(), TopologyError>(
                    TopologyError::IncompatibleActuatorProgram {
                        bearing: self.drive_links.rows.values@[l].bearing,
                    },
                ),
                None => Ok(()),
            },
    {
        let mut l: usize = 0;
        while l < self.drive_links.rows.values.len()
            invariant
                self.wf(),
                self.programs_valid(),
                l <= self.drive_links.rows.values@.len(),
                self.first_unsuited(0) == self.first_unsuited(l as int),
            decreases self.drive_links.rows.values@.len() - l,
        {
            let link: &DriveLinkSpec = &self.drive_links.rows.values[l];
            let states: Vec<DriveState> = link.program.states();
            let mut suited: bool = true;
            let mut s: usize = 0;
            while s < states.len()
                invariant
                    s <= states@.len(),
                    states@ == link.program@,
                    suited == forall|k: int|
                        0 <= k < s ==> target_suits(
                            link.actuator,
                            (#[trigger] link.program@[k]).target,
                        ),
                decreases states@.len() - s,
            {
                let fits: bool = match (link.actuator, states[s].target) {
                    (ActuatorAssignment::Unpowered, _) => true,
                    (ActuatorAssignment::Motor { .. }, DriveTarget::Speed(_)) => true,
                    (ActuatorAssignment::Servo, DriveTarget::Angle(_)) => true,
                    _ => false,
                };
                assert(fits == target_suits(link.actuator, link.program@[s as int].target));
                suited = suited && fits;
                s += 1;
            }
            if !suited {
                return Err(TopologyError::IncompatibleActuatorProgram { bearing: link.bearing });
            }
            l += 1;
        }
        Ok(())
    }

    /// Whether a live part counts for a kind of port.
    fn part_powers(&self, part: PartId, kind: PortKind) -> (powers: bool)
        requires
            self.wf(),
        ensures
            powers == self.powers(part, kind),
    {
        match self.part(part) {
            Some(spec) => match (spec.shape, kind) {
                (PartShape::Engine { kind: EngineKind::Electric }, PortKind::Electric) => true,
                (PartShape::Engine { kind: EngineKind::Gas }, PortKind::Gas) => true,
                (PartShape::Servo, PortKind::Servo) => true,
                _ => false,
            },
            None => false,
        }
    }

    /// Counts the members that count for a kind of port.
    fn count_members(&self, members: &Vec<PartId>, kind: PortKind) -> (count: u32)
        requires
            self.wf(),
            members@.len() <= u32::MAX,
        ensures
            count == members_with(self, members@, kind, members@.len() as int),
            count <= members@.len(),
    {
        let mut count: u32 = 0;
        let mut k: usize = 0;
        while k < members.len()
            invariant
                self.wf(),
                members@.len() <= u32::MAX,
                k <= members@.len(),
                count <= k,
                count == members_with(self, members@, kind, k as int),
            decreases members@.len() - k,
        {
            if self.part_powers(members[k], kind) {
                count += 1;
            }
            k += 1;
        }
        count
    }

    /// The coordinate that wire `l` moves.
    pub(crate) fn coordinate_of_link(&self, topology: &LoopTopology, l: usize) -> (coordinate: Option<u32>)
        requires
            topology.bearing_coordinates.wf(),
            l < self.drive_links.rows.values@.len(),
        ensures
            coordinate is Some <==> self.link_moves(topology.bearing_coordinates@, l as int),
            coordinate is Some ==> coordinate->0 == self.link_coordinate(
                topology.bearing_coordinates@,
                l as int,
            ),
    {
        match topology.bearing_coordinates.get(self.drive_links.rows.values[l].bearing) {
            Some(coordinate) => Some(*coordinate),
            None => None,
        }
    }

    /// The key of wire `l`'s module.
    pub(crate) fn key_of_link(&self, claims: &Vec<PortClaim>, l: usize) -> (key: PartId)
        requires
            l < self.drive_links.rows.values@.len(),
            claims@.len() == self.drive_links.rows.values@.len(),
        ensures
            key == self.module_key(claims@, l as int),
    {
        if claims[l].module.len() > 0 {
            claims[l].module[0]
        } else {
            self.drive_links.rows.values[l].controller
        }
    }

    /// Lists what wires take from a module.
    fn list_demand(
        &self,
        topology: &LoopTopology,
        claims: &Vec<PortClaim>,
        key: PartId,
        kind: PortKind,
    ) -> (set: OrderedSet<u32>)
        requires
            topology.bearing_coordinates.wf(),
            claims@.len() == self.drive_links.rows.values@.len(),
        ensures
            self.lists_demand(
                topology.bearing_coordinates@,
                claims@,
                key,
                kind,
                set,
                self.drive_links.rows.values@.len() as int,
            ),
    {
        let ghost coordinates = topology.bearing_coordinates@;
        let mut set: OrderedSet<u32> = OrderedSet::new();
        let mut l: usize = 0;
        while l < self.drive_links.rows.values.len()
            invariant
                topology.bearing_coordinates.wf(),
                coordinates == topology.bearing_coordinates@,
                claims@.len() == self.drive_links.rows.values@.len(),
                l <= self.drive_links.rows.values@.len(),
                self.lists_demand(coordinates, claims@, key, kind, set, l as int),
            decreases self.drive_links.rows.values@.len() - l,
        {
            let ghost before = set;
            let asks: bool = match kind {
                PortKind::Electric => claims[l].electric,
                PortKind::Gas => claims[l].gas,
                PortKind::Servo => match self.drive_links.rows.values[l].actuator {
                    ActuatorAssignment::Servo => true,
                    _ => false,
                },
            };
            assert(asks == self.link_asks(claims@, kind, l as int));
            if asks && self.key_of_link(claims, l) == key {
                if let Some(coordinate) = self.coordinate_of_link(topology, l) {
                    set.insert(coordinate);
                }
            }
            proof {
                assert forall|c: u32| #[trigger] set.holds(c) <==> self.module_asks(
                    coordinates,
                    claims@,
                    key,
                    kind,
                    c,
                    l + 1,
                ) by {
                    assert(before.holds(c) <==> self.module_asks(
                        coordinates,
                        claims@,
                        key,
                        kind,
                        c,
                        l as int,
                    ));
                    let here = self.link_in(coordinates, claims@, key, l as int)
                        && self.link_asks(claims@, kind, l as int) && self.link_coordinate(
                        coordinates,
                        l as int,
                    ) == c;
                    if self.module_asks(coordinates, claims@, key, kind, c, l + 1) {
                        let j = choose|j: int|
                            0 <= j < l + 1 && #[trigger] self.link_in(coordinates, claims@, key, j)
                                && self.link_asks(claims@, kind, j) && self.link_coordinate(
                                coordinates,
                                j,
                            ) == c;
                        if j < l {
                            assert(before.holds(c));
                        }
                    }
                    if before.holds(c) {
                        let j = choose|j: int|
                            0 <= j < l && #[trigger] self.link_in(coordinates, claims@, key, j)
                                && self.link_asks(claims@, kind, j) && self.link_coordinate(
                                coordinates,
                                j,
                            ) == c;
                        assert(self.link_in(coordinates, claims@, key, j));
                    }
                }
            }
            l += 1;
        }
        set
    }

    /// Power and demand of the module that wire `lead` leads.
    pub(crate) fn budget_module(
        &self,
        topology: &LoopTopology,
        claims: &Vec<PortClaim>,
        lead: usize,
    ) -> (budget: ModuleBudget)
        requires
            self.wf(),
            topology.bearing_coordinates.wf(),
            claims@.len() == self.drive_links.rows.values@.len(),
            lead < claims@.len(),
            claims@[lead as int].module@.len() <= u32::MAX,
            self.link_leads(
                topology.bearing_coordinates@,
                claims@,
                self.module_key(claims@, lead as int),
                lead as int,
            ),
        ensures
            self.counts_module(claims@, lead as int, budget),
            self.budgets_module(
                topology.bearing_coordinates@,
                claims@,
                self.module_key(claims@, lead as int),
                budget,
            ),
            budget.electric_engines <= claims@[lead as int].module@.len(),
            budget.gas_engines <= claims@[lead as int].module@.len(),
    {
        let key: PartId = self.key_of_link(claims, lead);
        let members: &Vec<PartId> = &claims[lead].module;
        let budget = ModuleBudget {
            controller: self.drive_links.rows.values[lead].controller,
            electric_engines: self.count_members(members, PortKind::Electric),
            gas_engines: self.count_members(members, PortKind::Gas),
            servos: self.count_members(members, PortKind::Servo),
            electric_coordinates: self.list_demand(topology, claims, key, PortKind::Electric),
            gas_coordinates: self.list_demand(topology, claims, key, PortKind::Gas),
            servo_coordinates: self.list_demand(topology, claims, key, PortKind::Servo),
        };
        assert(self.counts_module(claims@, lead as int, budget));
        budget
    }
}

/// A motor follows speeds and a Servo angles; a wire without power follows
/// anything. A program fits when every state of it does.
pub proof fn motors_spin_and_servos_hold(link: DriveLinkSpec, s: int)
    requires
        0 <= s < link.program@.len(),
    ensures
        link.actuator is Unpowered ==> program_suits(link),
        link.actuator is Motor && program_suits(link) ==> link.program@[s].target is Speed,
        link.actuator is Servo && program_suits(link) ==> link.program@[s].target is Angle,
        link.actuator is Motor && link.program@[s].target is Angle ==> !program_suits(link),
        link.actuator is Servo && link.program@[s].target is Speed ==> !program_suits(link),
        (forall|k: int|
            #![trigger link.program@[k]]
            0 <= k < link.program@.len() ==> link.program@[k].target is Speed) && link.actuator
            is Motor ==> program_suits(link),
        (forall|k: int|
            #![trigger link.program@[k]]
            0 <= k < link.program@.len() ==> link.program@[k].target is Angle) && link.actuator
            is Servo ==> program_suits(link),
{
    if program_suits(link) {
        assert(target_suits(link.actuator, link.program@[s].target));
    }
}

/// The wire that is refused is the first that does not fit its program.
pub proof fn the_first_misfit_is_refused(graph: &ConstructionGraph, from: int, l: int)
    requires
        0 <= from <= l < graph.drive_links.rows.values@.len(),
    ensures
        graph.first_unsuited(from) is None ==> program_suits(graph.drive_links.rows.values@[l]),
        graph.first_unsuited(from) matches Some(first) ==> {
            &&& from <= first < graph.drive_links.rows.values@.len()
            &&& !program_suits(graph.drive_links.rows.values@[first])
            &&& l < first ==> program_suits(graph.drive_links.rows.values@[l])
        },
    decreases graph.drive_links.rows.values@.len() - from,
{
    if from < l {
        the_first_misfit_is_refused(graph, from + 1, l);
    } else if program_suits(graph.drive_links.rows.values@[from]) && from + 1
        < graph.drive_links.rows.values@.len() {
        the_first_misfit_is_refused(graph, from + 1, from + 1);
    }
}

/// A module counts its electric engines, its gas engines and its Servos, each
/// once; nothing else gives a port.
pub proof fn modules_count_their_engines(
    graph: &ConstructionGraph,
    members: Seq<PartId>,
    kind: PortKind,
    count: int,
)
    requires
        0 <= count <= members.len(),
    ensures
        members_with(graph, members, kind, count) == members.take(count).filter(
            |part: PartId| graph.powers(part, kind),
        ).len(),
        forall|part: PartId| #[trigger]
            graph.powers(part, kind) <==> graph.parts.rows@.dom().contains(part) && match kind {
                PortKind::Electric => graph.parts.rows@[part].shape == (PartShape::Engine {
                    kind: EngineKind::Electric,
                }),
                PortKind::Gas => graph.parts.rows@[part].shape == (PartShape::Engine {
                    kind: EngineKind::Gas,
                }),
                PortKind::Servo => graph.parts.rows@[part].shape is Servo,
            },
    decreases count,
{
    let counts = |part: PartId| graph.powers(part, kind);
    reveal(Seq::filter);
    if count > 0 {
        modules_count_their_engines(graph, members, kind, count - 1);
        assert(members.take(count).drop_last() =~= members.take(count - 1));
        assert(members.take(count).last() == members[count - 1]);
    } else {
        assert(members.take(0) =~= Seq::<PartId>::empty());
    }
}

/// A module is refused when more coordinates ask for a kind of port than it has:
/// as many as its engines drive, or one for each Servo. The error says how many
/// were asked for and how many there are.
pub proof fn modules_are_refused_for_missing_ports(budget: ModuleBudget, capacity: PortCapacity)
    requires
        budget.electric_coordinates@.len() <= u32::MAX,
        budget.gas_coordinates@.len() <= u32::MAX,
        budget.servo_coordinates@.len() <= u32::MAX,
        budget.electric_engines * capacity.electric <= u32::MAX,
        budget.gas_engines * capacity.gas <= u32::MAX,
    ensures
        budget_fault(budget, capacity) is None <==> {
            &&& budget.electric_coordinates@.len() <= budget.electric_engines * capacity.electric
            &&& budget.gas_coordinates@.len() <= budget.gas_engines * capacity.gas
            &&& budget.servo_coordinates@.len() <= budget.servos
        },
        budget_fault(budget, capacity) matches Some(fault) ==> match fault {
            TopologyError::InsufficientElectricPorts { controller, required, available } => {
                &&& controller == budget.controller
                &&& required == budget.electric_coordinates@.len()
                &&& available == budget.electric_engines * capacity.electric
                &&& required > available
            },
            TopologyError::InsufficientGasPorts { controller, required, available } => {
                &&& controller == budget.controller
                &&& required == budget.gas_coordinates@.len()
                &&& available == budget.gas_engines * capacity.gas
                &&& required > available
            },
            TopologyError::InsufficientServos { controller, required, available } => {
                &&& controller == budget.controller
                &&& required == budget.servo_coordinates@.len()
                &&& available == budget.servos
                &&& required > available
            },
            _ => false,
        },
{
}

/// Modules are accepted when each of them is, and refused for the first that
/// is not.
pub proof fn the_first_short_module_is_refused(
    budgets: Seq<ModuleBudget>,
    capacity: PortCapacity,
    count: int,
    i: int,
)
    requires
        0 <= i < count <= budgets.len(),
    ensures
        first_budget_fault(budgets, capacity, count) is None ==> budget_fault(budgets[i], capacity)
            is None,
        budget_fault(budgets[i], capacity) is Some && (forall|j: int|
            #![trigger budgets[j]]
            0 <= j < i ==> budget_fault(budgets[j], capacity) is None) ==> first_budget_fault(
            budgets,
            capacity,
            count,
        ) == budget_fault(budgets[i], capacity),
        (forall|j: int|
            #![trigger budgets[j]]
            0 <= j < count ==> budget_fault(budgets[j], capacity) is None) ==> first_budget_fault(
            budgets,
            capacity,
            count,
        ) is None,
    decreases count,
{
    if count > 1 {
        if i < count - 1 {
            the_first_short_module_is_refused(budgets, capacity, count - 1, i);
        } else {
            the_first_short_module_is_refused(budgets, capacity, count - 1, 0);
        }
    }
    if count == 1 {
        assert(first_budget_fault(budgets, capacity, 0) is None);
    }
}

/// A lane is in the gear of its first selection, disengaged if that says so, and
/// in direct drive where nothing was selected.
pub proof fn lanes_are_in_their_first_selected_gear(
    gears: Seq<GearSelection>,
    controller: PartId,
    kind: EngineKind,
    from: int,
    i: int,
)
    requires
        0 <= from,
    ensures
        from <= i < gears.len() && gears[i].controller == controller && gears[i].kind == kind && (
        forall|j: int|
            #![trigger gears[j]]
            from <= j < i ==> !(gears[j].controller == controller && gears[j].kind == kind))
            ==> gear_of(gears, controller, kind, from) == gears[i].ratio,
        (forall|j: int|
            #![trigger gears[j]]
            from <= j < gears.len() ==> !(gears[j].controller == controller && gears[j].kind
                == kind)) ==> gear_of(gears, controller, kind, from) is Some && gear_of(
            gears,
            controller,
            kind,
            from,
        )->0.units() == units_of_one(),
    decreases gears.len() - from,
{
    signs_are_those_of_values(Scalar::zero());
    if from < gears.len() {
        let here = gears[from];
        if !(here.controller == controller && here.kind == kind) {
            lanes_are_in_their_first_selected_gear(gears, controller, kind, from + 1, i);
        }
    }
}

/// A wire that takes a percentage of an engaged family shares its engines with
/// the other takers, in the gear that is in; otherwise it has no share.
pub proof fn shares_are_those_of_the_family(
    percent: u8,
    engines: u32,
    consumers: usize,
    ratio: Option<Scalar>,
)
    ensures
        share_of(percent, engines, consumers, ratio) is Some <==> percent > 0 && ratio is Some,
        share_of(percent, engines, consumers, ratio) matches Some(share) ==> {
            &&& share.engines == engines
            &&& share.consumers == consumers
            &&& share.percent == percent
            &&& ratio == Some(share.ratio)
        },
{
}

/// What turns a coordinate is what its wire is assigned: nothing, a Servo, or
/// its percentages of the electric and of the gas engines of its module, each
/// family in its own gear and shared among those who take from it.
pub proof fn wires_take_from_their_own_module(
    graph: &ConstructionGraph,
    claims: Seq<PortClaim>,
    modules: ModuleBudgets,
    gears: Seq<GearSelection>,
    l: int,
    at: int,
)
    requires
        0 <= l < graph.drive_links.rows.values@.len(),
        crate::ordered::ascending(modules.keys@),
        0 <= at < modules.keys@.len(),
        modules.keys@[at] == graph.module_key(claims, l),
    ensures
        ({
            let link = graph.drive_links.rows.values@[l];
            let budget = modules.budgets@[at];
            let source = graph.wire_source(claims, modules, gears, l);
            &&& source is Idle <==> link.actuator is Unpowered
            &&& source is Servo <==> link.actuator is Servo
            &&& (link.actuator matches ActuatorAssignment::Motor { electric_percent, gas_percent }
                ==> source matches ActuatorSource::Motor { electric, gas } && {
                &&& electric is Some ==> electric_percent > 0
                &&& gas is Some ==> gas_percent > 0
                &&& electric matches Some(share) ==> share.percent == electric_percent
                    && share.engines == budget.electric_engines && (
                budget.electric_coordinates@.len() <= usize::MAX ==> share.consumers
                    == budget.electric_coordinates@.len()) && gear_of(
                    gears,
                    link.controller,
                    EngineKind::Electric,
                    0,
                ) == Some(share.ratio)
                &&& gas matches Some(share) ==> share.percent == gas_percent && share.engines
                    == budget.gas_engines && (budget.gas_coordinates@.len() <= usize::MAX
                    ==> share.consumers == budget.gas_coordinates@.len()) && gear_of(
                    gears,
                    link.controller,
                    EngineKind::Gas,
                    0,
                ) == Some(share.ratio)
                &&& electric is None ==> electric_percent == 0 || gear_of(
                    gears,
                    link.controller,
                    EngineKind::Electric,
                    0,
                ) is None
                &&& gas is None ==> gas_percent == 0 || gear_of(
                    gears,
                    link.controller,
                    EngineKind::Gas,
                    0,
                ) is None
            })
        }),
{
    let key = graph.module_key(claims, l);
    assert(modules.keys@.contains(key));
    let found = modules.keys@.index_of(key);
    crate::ordered::lemma_ascending_distinct(modules.keys@, found, at);
}

/// A module is known by its first part; a Controller without one is a module
/// of its own. Its budget lists each coordinate that some wire of it asks a port
/// for, and no other.
pub proof fn budgets_list_what_wires_ask_for(
    graph: &ConstructionGraph,
    coordinates: Map<BearingId, u32>,
    claims: Seq<PortClaim>,
    modules: ModuleBudgets,
    l: int,
    i: int,
)
    requires
        graph.budgeted(coordinates, claims, modules),
        0 <= l < graph.drive_links.rows.values@.len(),
        coordinates.dom().contains(graph.drive_links.rows.values@[l].bearing),
        0 <= i < modules.keys@.len(),
        modules.keys@[i] == graph.module_key(claims, l),
    ensures
        ({
            let wire = graph.drive_links.rows.values@[l];
            let coordinate = coordinates[wire.bearing];
            let budget = modules.budgets@[i];
            &&& claims[l].electric ==> budget.electric_coordinates.holds(coordinate)
            &&& claims[l].gas ==> budget.gas_coordinates.holds(coordinate)
            &&& wire.actuator is Servo ==> budget.servo_coordinates.holds(coordinate)
        }),
        claims[l].module@.len() > 0 ==> graph.module_key(claims, l) == claims[l].module@[0],
        claims[l].module@.len() == 0 ==> graph.module_key(claims, l)
            == graph.drive_links.rows.values@[l].controller,
{
    let n = graph.drive_links.rows.values@.len() as int;
    let key = modules.keys@[i];
    let budget = modules.budgets@[i];
    let coordinate = graph.link_coordinate(coordinates, l);
    assert(graph.budgets_module(coordinates, claims, key, budget));
    assert(graph.link_in(coordinates, claims, key, l));
    if claims[l].electric {
        assert(graph.link_asks(claims, PortKind::Electric, l));
        assert(graph.module_asks(coordinates, claims, key, PortKind::Electric, coordinate, n));
    }
    if claims[l].gas {
        assert(graph.link_asks(claims, PortKind::Gas, l));
        assert(graph.module_asks(coordinates, claims, key, PortKind::Gas, coordinate, n));
    }
    if graph.drive_links.rows.values@[l].actuator is Servo {
        assert(graph.link_asks(claims, PortKind::Servo, l));
        assert(graph.module_asks(coordinates, claims, key, PortKind::Servo, coordinate, n));
    }
}

/// A Controller is refused when engines of one of its families stand behind
/// different numbers of transmissions, and the error names the first such
/// Controller, the family and its depths; without one, none is.
pub proof fn uneven_lanes_are_refused(
    graph: &ConstructionGraph,
    depths: Seq<LaneDepths>,
    from: int,
    i: int,
    done: Result<(), TopologyError>,
)
    requires
        graph.lanes_answer(depths, from, done),
        0 <= from <= i < graph.parts.rows.values@.len(),
        graph.parts.rows.values@[i].shape is Controller,
    ensures
        done is Ok ==> forall|a: int, b: int|
            #![trigger depths[i].electric@[a], depths[i].electric@[b]]
            0 <= a < depths[i].electric@.len() && 0 <= b < depths[i].electric@.len()
                ==> depths[i].electric@[a] == depths[i].electric@[b],
        done is Ok ==> forall|a: int, b: int|
            #![trigger depths[i].gas@[a], depths[i].gas@[b]]
            0 <= a < depths[i].gas@.len() && 0 <= b < depths[i].gas@.len() ==> depths[i].gas@[a]
                == depths[i].gas@[b],
        done matches Err(fault) ==> fault matches TopologyError::TransmissionDepthMismatch {
            controller,
            kind,
            depths: found,
        } && exists|row: int| {
            &&& from <= row < graph.parts.rows.values@.len()
            &&& controller == graph.parts.rows.keys@[row]
            &&& (#[trigger] graph.parts.rows.values@[row]).shape is Controller
            &&& found@ == (if kind is Electric {
                depths[row].electric@
            } else {
                depths[row].gas@
            })
            &&& exists|k: int| 0 <= k < found@.len() && #[trigger] found@[k] != found@[0]
        },
    decreases graph.parts.rows.values@.len() - from,
{
    if graph.lanes_uneven(depths, from) {
        let row = graph.parts.rows.values@[from];
        if uneven(depths[from].electric@) {
            let k = choose|k: int|
                0 <= k < depths[from].electric@.len() && #[trigger] depths[from].electric@[k]
                    != depths[from].electric@[0];
            assert(depths[from].electric@[k] != depths[from].electric@[0]);
        } else {
            let k = choose|k: int|
                0 <= k < depths[from].gas@.len() && #[trigger] depths[from].gas@[k]
                    != depths[from].gas@[0];
            assert(depths[from].gas@[k] != depths[from].gas@[0]);
        }
    } else if from < i {
        uneven_lanes_are_refused(graph, depths, from + 1, i, done);
    } else {
        lemma_lanes_refused(graph, depths, from + 1, done);
        if done is Ok {
            let electric = depths[i].electric@;
            let gas = depths[i].gas@;
            assert forall|a: int, b: int|
                #![trigger depths[i].electric@[a], depths[i].electric@[b]]
                0 <= a < electric.len() && 0 <= b
                    < electric.len() implies depths[i].electric@[a] == depths[i].electric@[b] by {
                assert(electric[a] == electric[0] && electric[b] == electric[0]);
            }
            assert forall|a: int, b: int|
                #![trigger depths[i].gas@[a], depths[i].gas@[b]]
                0 <= a < gas.len() && 0 <= b < gas.len() implies depths[i].gas@[a]
                == depths[i].gas@[b] by {
                assert(gas[a] == gas[0] && gas[b] == gas[0]);
            }
        }
    }
}

/// A refusal names a Controller whose lane is uneven.
proof fn lemma_lanes_refused(
    graph: &ConstructionGraph,
    depths: Seq<LaneDepths>,
    from: int,
    done: Result<(), TopologyError>,
)
    requires
        graph.lanes_answer(depths, from, done),
        0 <= from,
    ensures
        done matches Err(fault) ==> fault matches TopologyError::TransmissionDepthMismatch {
            controller,
            kind,
            depths: found,
        } && exists|row: int| {
            &&& from <= row < graph.parts.rows.values@.len()
            &&& controller == graph.parts.rows.keys@[row]
            &&& (#[trigger] graph.parts.rows.values@[row]).shape is Controller
            &&& found@ == (if kind is Electric {
                depths[row].electric@
            } else {
                depths[row].gas@
            })
            &&& exists|k: int| 0 <= k < found@.len() && #[trigger] found@[k] != found@[0]
        },
    decreases graph.parts.rows.values@.len() - from,
{
    if from < graph.parts.rows.values@.len() {
        if graph.lanes_uneven(depths, from) {
            let row = graph.parts.rows.values@[from];
            if uneven(depths[from].electric@) {
                let k = choose|k: int|
                    0 <= k < depths[from].electric@.len() && #[trigger] depths[from].electric@[k]
                        != depths[from].electric@[0];
                assert(depths[from].electric@[k] != depths[from].electric@[0]);
            } else {
                let k = choose|k: int|
                    0 <= k < depths[from].gas@.len() && #[trigger] depths[from].gas@[k]
                        != depths[from].gas@[0];
                assert(depths[from].gas@[k] != depths[from].gas@[0]);
            }
        } else {
            lemma_lanes_refused(graph, depths, from + 1, done);
        }
    }
}

/// A coordinate is turned by the first wire that moves it, and by nothing where
/// none does; it slides where its joint slides.
pub proof fn coordinates_are_turned_by_their_first_wire(
    graph: &ConstructionGraph,
    topology: LoopTopology,
    claims: Seq<PortClaim>,
    modules: ModuleBudgets,
    gears: Seq<GearSelection>,
    c: int,
    l: int,
)
    requires
        0 <= c < topology.tree_bearings@.len() <= u32::MAX,
        graph.bearings.rows@.dom().contains(topology.tree_bearings@[c]),
    ensures
        ({
            let row = graph.actuation_of(topology, claims, modules, gears, c);
            let coordinates = topology.bearing_coordinates@;
            let moves = |k: int|
                {
                    let bearing = graph.drive_links.rows.values@[k].bearing;
                    coordinates.dom().contains(bearing) && coordinates[bearing] == c
                };
            &&& row.translational
                == graph.bearings.rows@[topology.tree_bearings@[c]].kind.translational
            &&& 0 <= l < graph.drive_links.rows.values@.len() && moves(l) && (forall|k: int|
                #![trigger graph.drive_links.rows.values@[k]]
                0 <= k < l ==> !moves(k)) ==> row.source == graph.wire_source(
                claims,
                modules,
                gears,
                l,
            )
            &&& (forall|k: int|
                #![trigger graph.drive_links.rows.values@[k]]
                0 <= k < graph.drive_links.rows.values@.len() ==> !moves(k)) ==> row.source is Idle
        }),
{
    lemma_first_wire(graph, topology.bearing_coordinates@, c as u32, 0, l);
}

/// The first wire that moves a coordinate is the first.
proof fn lemma_first_wire(
    graph: &ConstructionGraph,
    coordinates: Map<BearingId, u32>,
    coordinate: u32,
    from: int,
    l: int,
)
    requires
        0 <= from,
    ensures
        ({
            let moves = |k: int|
                {
                    let bearing = graph.drive_links.rows.values@[k].bearing;
                    coordinates.dom().contains(bearing) && coordinates[bearing] == coordinate
                };
            &&& from <= l < graph.drive_links.rows.values@.len() && moves(l) && (forall|k: int|
                #![trigger graph.drive_links.rows.values@[k]]
                from <= k < l ==> !moves(k)) ==> graph.first_wire(coordinates, coordinate, from)
                == Some(l)
            &&& (forall|k: int|
                #![trigger graph.drive_links.rows.values@[k]]
                from <= k < graph.drive_links.rows.values@.len() ==> !moves(k)) ==> graph.first_wire(
                coordinates,
                coordinate,
                from,
            ) is None
        }),
    decreases graph.drive_links.rows.values@.len() - from,
{
    if from < graph.drive_links.rows.values@.len() {
        let here = graph.drive_links.rows.values@[from];
        lemma_first_wire(graph, coordinates, coordinate, from + 1, l);
    }
}

/// A module's budget lists no coordinate for which no wire of the module asks,
/// names the Controller of the module's first wire, and counts the engines and
/// Servos of that wire's module.
pub proof fn budgets_list_nothing_else(
    graph: &ConstructionGraph,
    coordinates: Map<BearingId, u32>,
    claims: Seq<PortClaim>,
    modules: ModuleBudgets,
    i: int,
    coordinate: u32,
)
    requires
        graph.budgeted(coordinates, claims, modules),
        0 <= i < modules.budgets@.len(),
    ensures
        ({
            let wires = graph.drive_links.rows.values@;
            let budget = modules.budgets@[i];
            let key = modules.keys@[i];
            &&& budget.electric_coordinates.holds(coordinate) ==> exists|l: int|
                #![trigger wires[l]]
                0 <= l < wires.len() && claims[l].electric && coordinates.contains_pair(
                    wires[l].bearing,
                    coordinate,
                ) && graph.module_key(claims, l) == key
            &&& budget.gas_coordinates.holds(coordinate) ==> exists|l: int|
                #![trigger wires[l]]
                0 <= l < wires.len() && claims[l].gas && coordinates.contains_pair(
                    wires[l].bearing,
                    coordinate,
                ) && graph.module_key(claims, l) == key
            &&& budget.servo_coordinates.holds(coordinate) ==> exists|l: int|
                #![trigger wires[l]]
                0 <= l < wires.len() && wires[l].actuator is Servo && coordinates.contains_pair(
                    wires[l].bearing,
                    coordinate,
                ) && graph.module_key(claims, l) == key
            &&& exists|l: int|
                #![trigger wires[l]]
                0 <= l < wires.len() && graph.module_key(claims, l) == key
                    && coordinates.dom().contains(wires[l].bearing) && budget.controller
                    == wires[l].controller && budget.servos == members_with(
                    graph,
                    claims[l].module@,
                    PortKind::Servo,
                    claims[l].module@.len() as int,
                ) && budget.electric_engines == members_with(
                    graph,
                    claims[l].module@,
                    PortKind::Electric,
                    claims[l].module@.len() as int,
                ) && budget.gas_engines == members_with(
                    graph,
                    claims[l].module@,
                    PortKind::Gas,
                    claims[l].module@.len() as int,
                ) && forall|j: int|
                    #![trigger wires[j]]
                    0 <= j < l && coordinates.dom().contains(wires[j].bearing) ==> graph.module_key(
                        claims,
                        j,
                    ) != key
        }),
{
    let wires = graph.drive_links.rows.values@;
    let n = wires.len() as int;
    let key = modules.keys@[i];
    let budget = modules.budgets@[i];
    assert(graph.budgets_module(coordinates, claims, key, budget));
    if budget.electric_coordinates.holds(coordinate) {
        assert(graph.module_asks(coordinates, claims, key, PortKind::Electric, coordinate, n));
        let l = choose|l: int|
            0 <= l < n && #[trigger] graph.link_in(coordinates, claims, key, l) && graph.link_asks(
                claims,
                PortKind::Electric,
                l,
            ) && graph.link_coordinate(coordinates, l) == coordinate;
        let wire = wires[l];
    }
    if budget.gas_coordinates.holds(coordinate) {
        assert(graph.module_asks(coordinates, claims, key, PortKind::Gas, coordinate, n));
        let l = choose|l: int|
            0 <= l < n && #[trigger] graph.link_in(coordinates, claims, key, l) && graph.link_asks(
                claims,
                PortKind::Gas,
                l,
            ) && graph.link_coordinate(coordinates, l) == coordinate;
        let wire = wires[l];
    }
    if budget.servo_coordinates.holds(coordinate) {
        assert(graph.module_asks(coordinates, claims, key, PortKind::Servo, coordinate, n));
        let l = choose|l: int|
            0 <= l < n && #[trigger] graph.link_in(coordinates, claims, key, l) && graph.link_asks(
                claims,
                PortKind::Servo,
                l,
            ) && graph.link_coordinate(coordinates, l) == coordinate;
        let wire = wires[l];
    }
    let l = choose|l: int|
        0 <= l < n && #[trigger] graph.link_leads(coordinates, claims, key, l)
            && graph.counts_module(claims, l, budget);
    let first = wires[l];
    assert forall|j: int| #![trigger wires[j]] 0 <= j < l && coordinates.dom().contains(
        wires[j].bearing,
    ) implies graph.module_key(claims, j) != key by {
        assert(!graph.link_in(coordinates, claims, key, j));
    }
}

} // verus!
