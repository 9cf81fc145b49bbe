//! Port budgets of machine modules, and the actuator of every coordinate.

use vstd::prelude::*;

use super::drives::{
    active_ratio, budget_fault, engine_share, first_budget_fault, ActuatorSource,
    CoordinateActuation, GearSelection, ModuleBudget, ModuleBudgets, PortCapacity, PortClaim,
};
use super::model::TopologyError;
use super::topology::LoopTopology;
use crate::drive::{DriveLimits, DriveTarget};
use crate::graph::ConstructionGraph;
use crate::ids::{BearingId, PartId};
use crate::ordered::OrderedMap;
use crate::parts::{ActuatorAssignment, DriveLinkSpec, EngineKind, LinearDriveLimits};
use crate::scalar::Scalar;

verus! {

/// Whether a module's ports can be counted.
pub open spec fn ports_countable(claim: PortClaim, capacity: PortCapacity) -> bool {
    &&& claim.module@.len() <= u32::MAX
    &&& claim.module@.len() * capacity.electric <= u32::MAX
    &&& claim.module@.len() * capacity.gas <= u32::MAX
}

/// Whether the ports of every wire's module can be counted.
pub open spec fn claims_countable(claims: Seq<PortClaim>, capacity: PortCapacity) -> bool {
    forall|l: int|
        #![trigger claims[l]]
        0 <= l < claims.len() ==> ports_countable(claims[l], capacity)
}

/// Whether a module's ports have been counted.
pub open spec fn ports_counted(budget: ModuleBudget, capacity: PortCapacity) -> bool {
    &&& budget.electric_engines * capacity.electric <= u32::MAX
    &&& budget.gas_engines * capacity.gas <= u32::MAX
}

/// What a driven coordinate follows.
#[derive(Clone, Copy, Debug, PartialEq, Eq)]
pub struct ActiveDrive {
    /// Target of the program's first state, with wire reversal applied.
    pub target: DriveTarget,
    /// Limits of the wire.
    pub limits: DriveLimits,
    /// Travel envelope of a sliding joint.
    pub linear_limits: Option<LinearDriveLimits>,
}

/// Travel of one coordinate, and the drive it follows.
#[derive(Clone, Copy, Debug, PartialEq, Eq)]
pub struct CoordinateTarget {
    /// Lower end of the joint's travel.
    pub lower: Scalar,
    /// Upper end of the joint's travel.
    pub upper: Scalar,
    /// What the coordinate follows; none while it swings freely.
    pub drive: Option<ActiveDrive>,
}

/// The target that a wire hands on.
pub open spec fn wire_target(link: DriveLinkSpec, state: u8) -> Option<DriveTarget> {
    if state >= link.program@.len() {
        None
    } else if link.reversed {
        Some(link.program@[state as int].target.flipped())
    } else {
        Some(link.program@[state as int].target)
    }
}

impl DriveLinkSpec {
    /// Target of one state, with wire reversal applied.
    pub fn resolved_target(&self, state: u8) -> (target: Option<DriveTarget>)
        requires
            self.program.wf(),
        ensures
            target == wire_target(*self, state),
    {
        match self.program.state(state) {
            Some(state) => if self.reversed {
                Some(state.target.reversed())
            } else {
                Some(state.target)
            },
            None => None,
        }
    }
}

/// The fault of a module.
fn find_budget_fault(budget: &ModuleBudget, capacity: PortCapacity) -> (fault: Option<
    TopologyError,
>)
    requires
        ports_counted(*budget, capacity),
        budget.electric_coordinates@.len() <= u32::MAX,
        budget.gas_coordinates@.len() <= u32::MAX,
        budget.servo_coordinates@.len() <= u32::MAX,
    ensures
        fault == budget_fault(*budget, capacity),
{
    let electric_required: u32 = budget.electric_coordinates.len() as u32;
    let electric_available: u32 = budget.electric_engines * capacity.electric;
    if electric_required > electric_available {
        return Some(
            TopologyError::InsufficientElectricPorts {
                controller: budget.controller,
                required: electric_required,
                available: electric_available,
            },
        );
    }
    let gas_required: u32 = budget.gas_coordinates.len() as u32;
    let gas_available: u32 = budget.gas_engines * capacity.gas;
    if gas_required > gas_available {
        return Some(
            TopologyError::InsufficientGasPorts {
                controller: budget.controller,
                required: gas_required,
                available: gas_available,
            },
        );
    }
    let servo_required: u32 = budget.servo_coordinates.len() as u32;
    if servo_required > budget.servos {
        return Some(
            TopologyError::InsufficientServos {
                controller: budget.controller,
                required: servo_required,
                available: budget.servos,
            },
        );
    }
    None
}

impl ConstructionGraph {
    /// Lists every module that moves a coordinate.
    fn list_modules(
        &self,
        topology: &LoopTopology,
        claims: &Vec<PortClaim>,
        capacity: PortCapacity,
    ) -> (modules: ModuleBudgets)
        requires
            self.wf(),
            topology.bearing_coordinates.wf(),
            claims@.len() == self.drive_links.rows.values@.len(),
            claims_countable(claims@, capacity),
        ensures
            self.budgeted(topology.bearing_coordinates@, claims@, modules),
            forall|i: int|
                #![trigger modules.budgets@[i]]
                0 <= i < modules.budgets@.len() ==> ports_counted(modules.budgets@[i], capacity),
    {
        let ghost coordinates = topology.bearing_coordinates@;
        let mut leads: OrderedMap<PartId, usize> = OrderedMap::new();
        let mut l: usize = 0;
        while l < self.drive_links.rows.values.len()
            invariant
                self.wf(),
                topology.bearing_coordinates.wf(),
                coordinates == topology.bearing_coordinates@,
                claims@.len() == self.drive_links.rows.values@.len(),
                l <= self.drive_links.rows.values@.len(),
                leads.wf(),
                forall|key: PartId| #[trigger]
                    leads@.dom().contains(key) ==> leads@[key] < l && self.link_leads(
                        coordinates,
                        claims@,
                        key,
                        leads@[key] as int,
                    ),
                forall|j: int|
                    0 <= j < l && #[trigger] self.link_moves(coordinates, j)
                        ==> leads@.dom().contains(self.module_key(claims@, j)),
            decreases self.drive_links.rows.values@.len() - l,
        {
            let ghost before = leads@;
            if self.coordinate_of_link(topology, l).is_some() {
                let key: PartId = self.key_of_link(claims, l);
                if !leads.contains_key(key) {
                    proof {
                        assert forall|j: int| 0 <= j < l implies !#[trigger] self.link_in(
                            coordinates,
                            claims@,
                            key,
                            j,
                        ) by {
                            if self.link_in(coordinates, claims@, key, j) {
                                assert(self.link_moves(coordinates, j));
                            }
                        }
                        assert(self.link_in(coordinates, claims@, key, l as int));
                        assert(self.link_leads(coordinates, claims@, key, l as int));
                    }
                    leads.insert(key, l);
                }
            }
            l += 1;
        }
        let mut keys: Vec<PartId> = Vec::new();
        let mut budgets: Vec<ModuleBudget> = Vec::new();
        let mut i: usize = 0;
        while i < leads.keys.len()
            invariant
                self.wf(),
                topology.bearing_coordinates.wf(),
                coordinates == topology.bearing_coordinates@,
                claims@.len() == self.drive_links.rows.values@.len(),
                claims_countable(claims@, capacity),
                leads.wf(),
                i <= leads.keys@.len(),
                forall|key: PartId| #[trigger]
                    leads@.dom().contains(key) ==> leads@[key] < claims@.len() && self.link_leads(
                        coordinates,
                        claims@,
                        key,
                        leads@[key] as int,
                    ),
                keys@ =~= leads.keys@.take(i as int),
                budgets@.len() == i,
                forall|k: int|
                    #![trigger budgets@[k]]
                    0 <= k < i ==> self.budgets_module(
                        coordinates,
                        claims@,
                        leads.keys@[k],
                        budgets@[k],
                    ) && ports_counted(budgets@[k], capacity),
            decreases leads.keys@.len() - i,
        {
            let key: PartId = leads.keys[i];
            let lead: usize = leads.values[i];
            proof {
                leads.lemma_index(i as int);
                assert(leads@.dom().contains(key));
                assert(self.module_key(claims@, lead as int) == key);
                assert(ports_countable(claims@[lead as int], capacity));
            }
            let budget: ModuleBudget = self.budget_module(topology, claims, lead);
            proof {
                let size = claims@[lead as int].module@.len() as int;
                let a = budget.electric_engines as int;
                let b = budget.gas_engines as int;
                let ca = capacity.electric as int;
                let cb = capacity.gas as int;
                assert(a * ca <= size * ca) by (nonlinear_arith)
                    requires
                        0 <= a <= size,
                        0 <= ca,
                ;
                assert(b * cb <= size * cb) by (nonlinear_arith)
                    requires
                        0 <= b <= size,
                        0 <= cb,
                ;
            }
            keys.push(key);
            budgets.push(budget);
            i += 1;
        }
        assert(keys@ =~= leads.keys@);
        let modules = ModuleBudgets { keys, budgets };
        proof {
            assert forall|l: int|
                0 <= l < self.drive_links.rows.values@.len() && #[trigger] self.link_moves(
                    coordinates,
                    l,
                ) implies modules.keys@.contains(self.module_key(claims@, l)) by {
                assert(leads@.dom().contains(self.module_key(claims@, l)));
            }
        }
        modules
    }

    /// Weighs the ports of every module against the coordinates that take them.
    pub fn budget_modules(
        &self,
        topology: &LoopTopology,
        claims: &Vec<PortClaim>,
        capacity: PortCapacity,
    ) -> (out: Result<ModuleBudgets, TopologyError>)
        requires
            self.wf(),
            topology.bearing_coordinates.wf(),
            claims@.len() == self.drive_links.rows.values@.len(),
            claims@.len() <= u32::MAX,
            claims_countable(claims@, capacity),
        ensures
            match out {
                Ok(modules) => self.budgeted(topology.bearing_coordinates@, claims@, modules)
                    && first_budget_fault(
                    modules.budgets@,
                    capacity,
                    modules.budgets@.len() as int,
                ) is None,
                Err(fault) => self.exceeds_budget(
                    topology.bearing_coordinates@,
                    claims@,
                    capacity,
                    fault,
                ),
            },
    {
        let modules: ModuleBudgets = self.list_modules(topology, claims, capacity);
        let ghost n = modules.budgets@.len() as int;
        let mut i: usize = 0;
        while i < modules.budgets.len()
            invariant
                n == modules.budgets@.len(),
                i <= n,
                claims@.len() == self.drive_links.rows.values@.len(),
                claims@.len() <= u32::MAX,
                self.budgeted(topology.bearing_coordinates@, claims@, modules),
                forall|i: int|
                    #![trigger modules.budgets@[i]]
                    0 <= i < n ==> ports_counted(modules.budgets@[i], capacity),
                first_budget_fault(modules.budgets@, capacity, i as int) is None,
            decreases n - i,
        {
            assert(self.budgets_module(
                topology.bearing_coordinates@,
                claims@,
                modules.keys@[i as int],
                modules.budgets@[i as int],
            ));
            match find_budget_fault(&modules.budgets[i], capacity) {
                Some(fault) => {
                    proof {
                        lemma_first_fault_stays(modules.budgets@, capacity, i + 1, n);
                        assert(self.budgeted(topology.bearing_coordinates@, claims@, modules));
                    }
                    return Err(fault);
                },
                None => {},
            }
            i += 1;
        }
        Ok(modules)
    }

    /// Whether `fault` is the first among the modules.
    pub open spec fn exceeds_budget(
        &self,
        coordinates: Map<BearingId, u32>,
        claims: Seq<PortClaim>,
        capacity: PortCapacity,
        fault: TopologyError,
    ) -> bool {
        exists|modules: ModuleBudgets| #[trigger]
            self.budgeted(coordinates, claims, modules) && first_budget_fault(
                modules.budgets@,
                capacity,
                modules.budgets@.len() as int,
            ) == Some(fault)
    }

    /// The first wire that moves a coordinate.
    fn find_wire(&self, topology: &LoopTopology, coordinate: u32) -> (wire: Option<usize>)
        requires
            topology.bearing_coordinates.wf(),
        ensures
            match self.first_wire(topology.bearing_coordinates@, coordinate, 0) {
                Some(l) => wire is Some && wire->0 == l && 0 <= l
                    < self.drive_links.rows.values@.len() && self.link_moves(
                    topology.bearing_coordinates@,
                    l,
                ),
                None => wire is None,
            },
    {
        let mut l: usize = 0;
        while l < self.drive_links.rows.values.len()
            invariant
                topology.bearing_coordinates.wf(),
                l <= self.drive_links.rows.values@.len(),
                self.first_wire(topology.bearing_coordinates@, coordinate, 0) == self.first_wire(
                    topology.bearing_coordinates@,
                    coordinate,
                    l as int,
                ),
            decreases self.drive_links.rows.values@.len() - l,
        {
            if let Some(found) = self.coordinate_of_link(topology, l) {
                if found == coordinate {
                    return Some(l);
                }
            }
            l += 1;
        }
        None
    }

    /// What turns a coordinate that wire `l` moves.
    fn source_of_wire(
        &self,
        topology: &LoopTopology,
        claims: &Vec<PortClaim>,
        modules: &ModuleBudgets,
        gears: &Vec<GearSelection>,
        l: usize,
    ) -> (source: ActuatorSource)
        requires
            l < self.drive_links.rows.values@.len(),
            claims@.len() == self.drive_links.rows.values@.len(),
            self.budgeted(topology.bearing_coordinates@, claims@, *modules),
            self.link_moves(topology.bearing_coordinates@, l as int),
        ensures
            source == self.wire_source(claims@, *modules, gears@, l as int),
    {
        let key: PartId = self.key_of_link(claims, l);
        let mut at: usize = 0;
        let ghost index = modules.keys@.index_of(key);
        assert(modules.keys@.contains(key));
        while at < modules.keys.len() && modules.keys[at] != key
            invariant
                at <= index < modules.keys@.len(),
                modules.keys@[index] == key,
                index == modules.keys@.index_of(key),
            decreases modules.keys@.len() - at,
        {
            at += 1;
        }
        proof {
            crate::ordered::lemma_ascending_distinct(modules.keys@, at as int, index);
        }
        let budget: &ModuleBudget = &modules.budgets[at];
        let link: &DriveLinkSpec = &self.drive_links.rows.values[l];
        match link.actuator {
            ActuatorAssignment::Unpowered => ActuatorSource::Idle,
            ActuatorAssignment::Motor { electric_percent, gas_percent } => ActuatorSource::Motor {
                electric: engine_share(
                    electric_percent,
                    budget.electric_engines,
                    budget.electric_coordinates.len(),
                    active_ratio(gears, link.controller, EngineKind::Electric),
                ),
                gas: engine_share(
                    gas_percent,
                    budget.gas_engines,
                    budget.gas_coordinates.len(),
                    active_ratio(gears, link.controller, EngineKind::Gas),
                ),
            },
            ActuatorAssignment::Servo => ActuatorSource::Servo,
        }
    }

    /// The actuator of every tree coordinate.
    pub fn resolve_coordinate_actuation(
        &self,
        topology: &LoopTopology,
        claims: &Vec<PortClaim>,
        capacity: PortCapacity,
        gears: &Vec<GearSelection>,
    ) -> (out: Result<Vec<CoordinateActuation>, TopologyError>)
        requires
            self.wf(),
            topology.bearing_coordinates.wf(),
            topology.tree_bearings@.len() <= u32::MAX,
            claims@.len() == self.drive_links.rows.values@.len(),
            claims@.len() <= u32::MAX,
            claims_countable(claims@, capacity),
        ensures
            match out {
                Ok(rows) => self.actuates(*topology, claims@, capacity, gears@, rows@),
                Err(fault) => self.exceeds_budget(
                    topology.bearing_coordinates@,
                    claims@,
                    capacity,
                    fault,
                ),
            },
    {
        let modules: ModuleBudgets = match self.budget_modules(topology, claims, capacity) {
            Ok(modules) => modules,
            Err(fault) => {
                return Err(fault);
            },
        };
        let mut rows: Vec<CoordinateActuation> = Vec::new();
        let mut c: usize = 0;
        while c < topology.tree_bearings.len()
            invariant
                self.wf(),
                topology.bearing_coordinates.wf(),
                topology.tree_bearings@.len() <= u32::MAX,
                claims@.len() == self.drive_links.rows.values@.len(),
                self.budgeted(topology.bearing_coordinates@, claims@, modules),
                c <= topology.tree_bearings@.len(),
                rows@.len() == c,
                forall|k: int|
                    #![trigger rows@[k]]
                    0 <= k < c ==> rows@[k] == self.actuation_of(
                        *topology,
                        claims@,
                        modules,
                        gears@,
                        k,
                    ),
            decreases topology.tree_bearings@.len() - c,
        {
            let source: ActuatorSource = match self.find_wire(topology, c as u32) {
                Some(l) => self.source_of_wire(topology, claims, &modules, gears, l),
                None => ActuatorSource::Idle,
            };
            let translational: bool = match self.bearings.get(topology.tree_bearings[c]) {
                Some(bearing) => bearing.kind.translational,
                None => false,
            };
            rows.push(CoordinateActuation { source, translational });
            c += 1;
        }
        assert(self.lists_actuation(*topology, claims@, capacity, gears@, rows@, modules));
        Ok(rows)
    }

    /// Whether rows are the actuators that `modules` power.
    pub open spec fn lists_actuation(
        &self,
        topology: LoopTopology,
        claims: Seq<PortClaim>,
        capacity: PortCapacity,
        gears: Seq<GearSelection>,
        rows: Seq<CoordinateActuation>,
        modules: ModuleBudgets,
    ) -> bool {
        &&& self.budgeted(topology.bearing_coordinates@, claims, modules)
        &&& first_budget_fault(
            modules.budgets@,
            capacity,
            modules.budgets@.len() as int,
        ) is None
        &&& rows.len() == topology.tree_bearings@.len()
        &&& forall|c: int|
            #![trigger rows[c]]
            0 <= c < rows.len() ==> rows[c] == self.actuation_of(
                topology,
                claims,
                modules,
                gears,
                c,
            )
    }

    /// Whether rows are the actuators of every coordinate, and no module lacks a port.
    pub open spec fn actuates(
        &self,
        topology: LoopTopology,
        claims: Seq<PortClaim>,
        capacity: PortCapacity,
        gears: Seq<GearSelection>,
        rows: Seq<CoordinateActuation>,
    ) -> bool {
        exists|modules: ModuleBudgets| #[trigger]
            self.lists_actuation(topology, claims, capacity, gears, rows, modules)
    }

    /// The first wire to a joint.
    pub open spec fn first_wire_to(&self, bearing: BearingId, from: int) -> Option<int>
        decreases self.drive_links.rows.values@.len() - from,
    {
        if from < 0 || from >= self.drive_links.rows.values@.len() {
            None
        } else if self.drive_links.rows.values@[from].bearing == bearing {
            Some(from)
        } else {
            self.first_wire_to(bearing, from + 1)
        }
    }

    /// What coordinate `c` follows. A coordinate whose subtree no torque can
    /// accelerate follows nothing.
    pub open spec fn target_of(
        &self,
        tree_bearings: Seq<BearingId>,
        inertias: Seq<Scalar>,
        c: int,
    ) -> CoordinateTarget {
        let kind = self.bearings.rows@[tree_bearings[c]].kind;
        CoordinateTarget {
            lower: kind.lower,
            upper: kind.upper,
            drive: match self.first_wire_to(tree_bearings[c], 0) {
                Some(l) => if c < inertias.len() && inertias[c].finite() {
                    let link = self.drive_links.rows.values@[l];
                    match wire_target(link, 0) {
                        Some(target) => Some(
                            ActiveDrive {
                                target,
                                limits: link.limits,
                                linear_limits: link.linear_limits,
                            },
                        ),
                        None => None,
                    }
                } else {
                    None
                },
                None => None,
            },
        }
    }

    /// The first wire to a joint.
    pub fn bearing_drive_link(&self, bearing: BearingId) -> (wire: Option<usize>)
        ensures
            match self.first_wire_to(bearing, 0) {
                Some(l) => wire is Some && wire->0 == l && 0 <= l
                    < self.drive_links.rows.values@.len(),
                None => wire is None,
            },
    {
        let mut l: usize = 0;
        while l < self.drive_links.rows.values.len()
            invariant
                l <= self.drive_links.rows.values@.len(),
                self.first_wire_to(bearing, 0) == self.first_wire_to(bearing, l as int),
            decreases self.drive_links.rows.values@.len() - l,
        {
            if self.drive_links.rows.values[l].bearing == bearing {
                return Some(l);
            }
            l += 1;
        }
        None
    }

    /// What every tree coordinate follows when simulation starts.
    pub fn resolve_coordinate_targets(
        &self,
        tree_bearings: &Vec<BearingId>,
        inertias: &Vec<Scalar>,
    ) -> (targets: Vec<CoordinateTarget>)
        requires
            self.wf(),
            self.programs_valid(),
            forall|c: int|
                #![trigger tree_bearings@[c]]
                0 <= c < tree_bearings@.len() ==> self.bearings.rows@.dom().contains(
                    tree_bearings@[c],
                ),
        ensures
            targets@.len() == tree_bearings@.len(),
            forall|c: int|
                #![trigger targets@[c]]
                0 <= c < targets@.len() ==> targets@[c] == self.target_of(
                    tree_bearings@,
                    inertias@,
                    c,
                ),
    {
        let mut targets: Vec<CoordinateTarget> = Vec::new();
        let mut c: usize = 0;
        while c < tree_bearings.len()
            invariant
                self.wf(),
                self.programs_valid(),
                forall|c: int|
                    #![trigger tree_bearings@[c]]
                    0 <= c < tree_bearings@.len() ==> self.bearings.rows@.dom().contains(
                        tree_bearings@[c],
                    ),
                c <= tree_bearings@.len(),
                targets@.len() == c,
                forall|k: int|
                    #![trigger targets@[k]]
                    0 <= k < c ==> targets@[k] == self.target_of(tree_bearings@, inertias@, k),
            decreases tree_bearings@.len() - c,
        {
            let id: BearingId = tree_bearings[c];
            let (lower, upper): (Scalar, Scalar) = match self.bearings.get(id) {
                Some(bearing) => (bearing.kind.lower, bearing.kind.upper),
                None => (Scalar::negative_infinity(), Scalar::infinity()),
            };
            let movable: bool = c < inertias.len() && inertias[c].is_finite();
            let drive: Option<ActiveDrive> = match self.bearing_drive_link(id) {
                Some(l) => if movable {
                    let link: &DriveLinkSpec = &self.drive_links.rows.values[l];
                    match link.resolved_target(0) {
                        Some(target) => Some(
                            ActiveDrive {
                                target,
                                limits: link.limits,
                                linear_limits: link.linear_limits,
                            },
                        ),
                        None => None,
                    }
                } else {
                    None
                },
                None => None,
            };
            targets.push(CoordinateTarget { lower, upper, drive });
            c += 1;
        }
        targets
    }
}

/// The first fault stays the first when more modules are looked at.
proof fn lemma_first_fault_stays(
    budgets: Seq<ModuleBudget>,
    capacity: PortCapacity,
    i: int,
    n: int,
)
    requires
        0 <= i <= n,
        first_budget_fault(budgets, capacity, i) is Some,
    ensures
        first_budget_fault(budgets, capacity, n) == first_budget_fault(budgets, capacity, i),
    decreases n - i,
{
    if i < n {
        lemma_first_fault_stays(budgets, capacity, i + 1, n);
    }
}

/// A wire hands on the target of the state that is asked for, the other way
/// round if it is reversed, and nothing for a state that its program lacks.
pub proof fn wires_hand_on_their_states_target(link: DriveLinkSpec, state: u8)
    ensures
        wire_target(link, state) is Some <==> state < link.program@.len(),
        state < link.program@.len() && !link.reversed ==> wire_target(link, state) == Some(
            link.program@[state as int].target,
        ),
        state < link.program@.len() && link.reversed
            && link.program@[state as int].target.value().finite() ==> {
            let asked = link.program@[state as int].target;
            let handed = wire_target(link, state)->0;
            &&& handed is Speed <==> asked is Speed
            &&& handed.value().units() == -asked.value().units()
        },
{
    if state < link.program@.len() && link.program@[state as int].target.value().finite() {
        crate::drive::reversed_targets_ask_for_the_opposite(link.program@[state as int].target);
    }
}

/// A coordinate travels between the ends of its joint and follows the first
/// state of the first wire to that joint, within that wire's limits; it follows
/// nothing without a wire, or where what it moves has no inertia to speak of.
pub proof fn coordinates_follow_the_first_wire_to_their_joint(
    graph: &ConstructionGraph,
    tree_bearings: Seq<BearingId>,
    inertias: Seq<Scalar>,
    c: int,
    l: int,
)
    requires
        0 <= c < tree_bearings.len(),
        graph.programs_valid(),
    ensures
        ({
            let target = graph.target_of(tree_bearings, inertias, c);
            let joint = graph.bearings.rows@[tree_bearings[c]].kind;
            let wires = graph.drive_links.rows.values@;
            let movable = c < inertias.len() && inertias[c].finite();
            &&& target.lower == joint.lower && target.upper == joint.upper
            &&& !movable ==> target.drive is None
            &&& (forall|k: int|
                #![trigger wires[k]]
                0 <= k < wires.len() ==> wires[k].bearing != tree_bearings[c]) ==> target.drive
                is None
            &&& movable && 0 <= l < wires.len() && wires[l].bearing == tree_bearings[c] && (forall|
                k: int,
            |
                #![trigger wires[k]]
                0 <= k < l ==> wires[k].bearing != tree_bearings[c]) ==> target.drive is Some && {
                let drive = target.drive->0;
                &&& drive.limits == wires[l].limits
                &&& drive.linear_limits == wires[l].linear_limits
                &&& !wires[l].reversed ==> drive.target == wires[l].program@[0].target
                &&& wires[l].reversed ==> drive.target == wires[l].program@[0].target.flipped()
            }
        }),
{
    lemma_first_wire_to(graph, tree_bearings[c], 0, l);
    if 0 <= l < graph.drive_links.rows.values@.len() {
        assert(graph.drive_links.rows.values@[l].program.wf());
        graph.drive_links.rows.values@[l].program.lemma_wf();
    }
}

/// The first wire to a joint is the first.
proof fn lemma_first_wire_to(graph: &ConstructionGraph, bearing: BearingId, from: int, l: int)
    requires
        0 <= from,
    ensures
        from <= l < graph.drive_links.rows.values@.len()
            && graph.drive_links.rows.values@[l].bearing == bearing && (forall|k: int|
            #![trigger graph.drive_links.rows.values@[k]]
            from <= k < l ==> graph.drive_links.rows.values@[k].bearing != bearing)
            ==> graph.first_wire_to(bearing, from) == Some(l),
        (forall|k: int|
            #![trigger graph.drive_links.rows.values@[k]]
            from <= k < graph.drive_links.rows.values@.len()
                ==> graph.drive_links.rows.values@[k].bearing != bearing) ==> graph.first_wire_to(
            bearing,
            from,
        ) is None,
    decreases graph.drive_links.rows.values@.len() - from,
{
    if from < graph.drive_links.rows.values@.len() {
        let here = graph.drive_links.rows.values@[from];
        lemma_first_wire_to(graph, bearing, from + 1, l);
    }
}

} // verus!
