//! Drive rows handed to a solver, one for each mechanism coordinate.
//!
//! Torques, gear ratios and inertias are divided out elsewhere; what a
//! coordinate is asked for, and within which bounds, is decided here.

use vstd::prelude::*;

use super::actuation::CoordinateTarget;
use super::model::DriveMode;
use crate::drive::{DriveLimits, DriveTarget};
use crate::parts::{JointHardware, JointKind, LinearDriveLimits};
use crate::scalar::Scalar;
use crate::exact::{
    bounds_are_those_of_values, numbers_compare_as_their_values, signs_are_those_of_values,
};

verus! {

/// How the solver drives one mechanism coordinate.
#[derive(Clone, Copy, Debug, PartialEq, Eq, Structural)]
pub struct CoordinateDrive {
    /// What is held.
    pub mode: DriveMode,
    /// Speed to hold, in radians per second.
    pub target_speed: Scalar,
    /// Angle to seek, in radians.
    pub target_angle: Scalar,
    /// Fastest the coordinate may move.
    pub max_speed: Scalar,
    /// Strongest acceleration of both sources.
    pub max_acceleration: Scalar,
    /// Strongest acceleration of the first source.
    pub source_a_max_acceleration: Scalar,
    /// Speed at which the first source has no strength left.
    pub source_a_no_load_speed: Scalar,
    /// Strongest acceleration of the second source.
    pub source_b_max_acceleration: Scalar,
    /// Speed at which the second source has no strength left.
    pub source_b_no_load_speed: Scalar,
    /// Lower end of travel.
    pub min_angle: Scalar,
    /// Upper end of travel.
    pub max_angle: Scalar,
}

/// What the sources of a coordinate can do, divided by what they move.
#[derive(Clone, Copy, Debug, PartialEq, Eq, Structural)]
pub struct DriveStrength {
    pub max_speed: Scalar,
    pub max_acceleration: Scalar,
    pub source_a_max_acceleration: Scalar,
    pub source_a_no_load_speed: Scalar,
    pub source_b_max_acceleration: Scalar,
    pub source_b_no_load_speed: Scalar,
}

/// The acceleration that a force limit leaves, and the sources scaled to it.
#[derive(Clone, Copy, Debug, PartialEq, Eq, Structural)]
pub struct AccelerationCap {
    pub acceleration: Scalar,
    pub source_a: Scalar,
    pub source_b: Scalar,
}

impl CoordinateDrive {
    /// A coordinate that nothing drives, between two ends.
    #[verifier::allow_in_spec]
    pub fn passive_between(lower: Scalar, upper: Scalar) -> Self
        returns
            (CoordinateDrive {
                mode: DriveMode::Passive,
                target_speed: Scalar::zero(),
                target_angle: Scalar::zero(),
                max_speed: Scalar::zero(),
                max_acceleration: Scalar::zero(),
                source_a_max_acceleration: Scalar::zero(),
                source_a_no_load_speed: Scalar::zero(),
                source_b_max_acceleration: Scalar::zero(),
                source_b_no_load_speed: Scalar::zero(),
                min_angle: lower,
                max_angle: upper,
            }),
    {
        CoordinateDrive {
            mode: DriveMode::Passive,
            target_speed: Scalar::zero(),
            target_angle: Scalar::zero(),
            max_speed: Scalar::zero(),
            max_acceleration: Scalar::zero(),
            source_a_max_acceleration: Scalar::zero(),
            source_a_no_load_speed: Scalar::zero(),
            source_b_max_acceleration: Scalar::zero(),
            source_b_no_load_speed: Scalar::zero(),
            min_angle: lower,
            max_angle: upper,
        }
    }

    /// A coordinate that nothing drives.
    #[verifier::allow_in_spec]
    pub fn passive() -> Self
        returns
            (Self::passive_between(Scalar::negative_infinity(), Scalar::infinity())),
    {
        Self::passive_between(Scalar::negative_infinity(), Scalar::infinity())
    }
}

impl Default for CoordinateDrive {
    /// Nothing drives the coordinate.
    fn default() -> (drive: Self)
        ensures
            drive == CoordinateDrive::passive(),
    {
        CoordinateDrive::passive()
    }
}

/// The row of a target that sources follow within limits; sources without
/// speed follow nothing.
pub open spec fn drive_of(target: DriveTarget, limits: DriveLimits, strength: DriveStrength) -> CoordinateDrive {
    if strength.max_speed.at_most(Scalar::zero()) {
        CoordinateDrive::passive()
    } else {
        CoordinateDrive {
            mode: match target {
                DriveTarget::Speed(_) => DriveMode::Speed,
                DriveTarget::Angle(_) => DriveMode::Angle,
            },
            target_speed: match target {
                DriveTarget::Speed(speed) => speed.between(
                    strength.max_speed.opposite(),
                    strength.max_speed,
                ),
                DriveTarget::Angle(_) => Scalar::zero(),
            },
            target_angle: match target {
                DriveTarget::Speed(_) => Scalar::zero(),
                DriveTarget::Angle(angle) => angle,
            },
            max_speed: strength.max_speed,
            max_acceleration: strength.max_acceleration,
            source_a_max_acceleration: strength.source_a_max_acceleration,
            source_a_no_load_speed: strength.source_a_no_load_speed,
            source_b_max_acceleration: strength.source_b_max_acceleration,
            source_b_no_load_speed: strength.source_b_no_load_speed,
            min_angle: match limits.angle_limits {
                Some((minimum, _)) => minimum,
                None => Scalar::negative_infinity(),
            },
            max_angle: match limits.angle_limits {
                Some((_, maximum)) => maximum,
                None => Scalar::infinity(),
            },
        }
    }
}

/// Builds one drive row from a state's target.
pub fn coordinate_drive(target: DriveTarget, limits: DriveLimits, strength: DriveStrength) -> (drive:
    CoordinateDrive)
    requires
        target is Speed ==> !strength.max_speed.nan(),
    ensures
        drive == drive_of(target, limits, strength),
{
    if strength.max_speed.less_or_equal(Scalar::zero()) {
        return CoordinateDrive::passive();
    }
    let (mode, target_speed, target_angle) = match target {
        DriveTarget::Speed(speed) => (
            DriveMode::Speed,
            speed.clamped(strength.max_speed.negated(), strength.max_speed),
            Scalar::zero(),
        ),
        DriveTarget::Angle(angle) => (DriveMode::Angle, Scalar::zero(), angle),
    };
    CoordinateDrive {
        mode,
        target_speed,
        target_angle,
        max_speed: strength.max_speed,
        max_acceleration: strength.max_acceleration,
        source_a_max_acceleration: strength.source_a_max_acceleration,
        source_a_no_load_speed: strength.source_a_no_load_speed,
        source_b_max_acceleration: strength.source_b_max_acceleration,
        source_b_no_load_speed: strength.source_b_no_load_speed,
        min_angle: limits.min_angle(),
        max_angle: limits.max_angle(),
    }
}

impl CoordinateDrive {
    /// The row within the travel, speed and force of a sliding joint's wire.
    pub open spec fn within(
        self,
        limits: LinearDriveLimits,
        lower: Scalar,
        upper: Scalar,
        cap: AccelerationCap,
    ) -> Self {
        let capped = cap.acceleration.below(self.max_acceleration);
        let min_angle = limits.minimum.larger(lower);
        let max_angle = limits.maximum.smaller(upper);
        let max_speed = self.max_speed.smaller(limits.max_speed);
        CoordinateDrive {
            min_angle,
            max_angle,
            max_speed,
            max_acceleration: if capped {
                cap.acceleration
            } else {
                self.max_acceleration
            },
            source_a_max_acceleration: if capped {
                cap.source_a
            } else {
                self.source_a_max_acceleration
            },
            source_b_max_acceleration: if capped {
                cap.source_b
            } else {
                self.source_b_max_acceleration
            },
            target_speed: self.target_speed.between(max_speed.opposite(), max_speed),
            target_angle: self.target_angle.between(min_angle, max_angle),
            ..self
        }
    }

    /// Whether travel and speed leave something to follow.
    pub open spec fn leaves_room(
        self,
        limits: LinearDriveLimits,
        lower: Scalar,
        upper: Scalar,
    ) -> bool {
        let max_speed = self.max_speed.smaller(limits.max_speed);
        &&& limits.minimum.larger(lower).at_most(limits.maximum.smaller(upper))
        &&& Scalar::zero().at_most(max_speed)
    }

    /// Keeps the row within the travel, speed and force of a sliding joint's wire.
    pub fn limited(
        self,
        limits: LinearDriveLimits,
        lower: Scalar,
        upper: Scalar,
        cap: AccelerationCap,
    ) -> (drive: Self)
        requires
            self.leaves_room(limits, lower, upper),
        ensures
            drive == self.within(limits, lower, upper, cap),
    {
        let min_angle: Scalar = limits.minimum.maximum(lower);
        let max_angle: Scalar = limits.maximum.minimum(upper);
        let max_speed: Scalar = self.max_speed.minimum(limits.max_speed);
        let target_speed: Scalar = self.target_speed.clamped(max_speed.negated(), max_speed);
        let target_angle: Scalar = self.target_angle.clamped(min_angle, max_angle);
        let drive = CoordinateDrive {
            min_angle,
            max_angle,
            max_speed,
            target_speed,
            target_angle,
            ..self
        };
        if cap.acceleration.less(self.max_acceleration) {
            CoordinateDrive {
                max_acceleration: cap.acceleration,
                source_a_max_acceleration: cap.source_a,
                source_b_max_acceleration: cap.source_b,
                ..drive
            }
        } else {
            drive
        }
    }
}

/// The row that a coordinate starts with.
pub open spec fn starting_drive(
    target: CoordinateTarget,
    strength: DriveStrength,
    cap: AccelerationCap,
) -> CoordinateDrive {
    match target.drive {
        None => CoordinateDrive::passive_between(target.lower, target.upper),
        Some(active) => {
            let drive = drive_of(active.target, active.limits, strength);
            match active.linear_limits {
                Some(limits) => drive.within(limits, target.lower, target.upper, cap),
                None => drive,
            }
        },
    }
}

/// Whether a row can be made: a speed to follow has a number to stay below, and
/// a sliding joint's limits leave room.
pub open spec fn drivable(target: CoordinateTarget, strength: DriveStrength) -> bool {
    match target.drive {
        None => true,
        Some(active) => (active.target is Speed ==> !strength.max_speed.nan())
            && match active.linear_limits {
            Some(limits) => drive_of(active.target, active.limits, strength).leaves_room(
                limits,
                target.lower,
                target.upper,
            ),
            None => true,
        },
    }
}

/// Builds the row that every coordinate starts with.
pub fn resolve_coordinate_drives(
    targets: &Vec<CoordinateTarget>,
    strengths: &Vec<DriveStrength>,
    caps: &Vec<AccelerationCap>,
) -> (drives: Vec<CoordinateDrive>)
    requires
        strengths@.len() == targets@.len(),
        caps@.len() == targets@.len(),
        forall|c: int|
            #![trigger targets@[c]]
            0 <= c < targets@.len() ==> drivable(targets@[c], strengths@[c]),
    ensures
        drives@.len() == targets@.len(),
        forall|c: int|
            #![trigger drives@[c]]
            0 <= c < drives@.len() ==> drives@[c] == starting_drive(
                targets@[c],
                strengths@[c],
                caps@[c],
            ),
{
    let mut drives: Vec<CoordinateDrive> = Vec::new();
    let mut c: usize = 0;
    while c < targets.len()
        invariant
            c <= targets@.len(),
            strengths@.len() == targets@.len(),
            caps@.len() == targets@.len(),
            forall|k: int|
                #![trigger targets@[k]]
                0 <= k < targets@.len() ==> drivable(targets@[k], strengths@[k]),
            drives@.len() == c,
            forall|k: int|
                #![trigger drives@[k]]
                0 <= k < c ==> drives@[k] == starting_drive(targets@[k], strengths@[k], caps@[k]),
        decreases targets@.len() - c,
    {
        let target: CoordinateTarget = targets[c];
        assert(drivable(targets@[c as int], strengths@[c as int]));
        let drive: CoordinateDrive = match target.drive {
            None => CoordinateDrive::passive_between(target.lower, target.upper),
            Some(active) => {
                let drive: CoordinateDrive = coordinate_drive(
                    active.target,
                    active.limits,
                    strengths[c],
                );
                match active.linear_limits {
                    Some(limits) => drive.limited(limits, target.lower, target.upper, caps[c]),
                    None => drive,
                }
            },
        };
        drives.push(drive);
        c += 1;
    }
    drives
}

/// Whether a coordinate of a joint follows a target: the joint is known, both
/// are in the same units, it is no suspension, and what hangs on it can move.
pub open spec fn follows(kind: Option<JointKind>, in_metres: bool, movable: bool) -> bool {
    &&& kind is Some
    &&& in_metres == kind->0.translational
    &&& !(kind->0.hardware is Suspension)
    &&& movable
}

/// The row of a target that a running coordinate enters. Nothing is driven
/// where the coordinate is unknown, where its units differ from the target's,
/// or where what hangs on it cannot move; a suspension keeps its travel.
pub open spec fn entered_drive(
    kind: Option<JointKind>,
    in_metres: bool,
    target: DriveTarget,
    limits: DriveLimits,
    movable: bool,
    template: CoordinateDrive,
    strength: DriveStrength,
) -> CoordinateDrive {
    if kind is Some && in_metres == kind->0.translational && kind->0.hardware is Suspension {
        CoordinateDrive::passive_between(kind->0.lower, kind->0.upper)
    } else if !follows(kind, in_metres, movable) {
        CoordinateDrive::passive()
    } else if kind->0.translational {
        let row = drive_of(target, limits, strength);
        CoordinateDrive {
            min_angle: template.min_angle,
            max_angle: template.max_angle,
            target_angle: row.target_angle.between(template.min_angle, template.max_angle),
            ..row
        }
    } else {
        drive_of(target, limits, strength)
    }
}

/// Builds the row of a target that a running coordinate enters, without
/// compiling anything again.
pub fn coordinate_drive_row(
    kind: Option<JointKind>,
    in_metres: bool,
    target: DriveTarget,
    limits: DriveLimits,
    movable: bool,
    template: CoordinateDrive,
    strength: DriveStrength,
) -> (drive: CoordinateDrive)
    requires
        follows(kind, in_metres, movable) && target is Speed ==> !strength.max_speed.nan(),
        follows(kind, in_metres, movable) && kind->0.translational
            ==> template.min_angle.at_most(template.max_angle),
    ensures
        drive == entered_drive(kind, in_metres, target, limits, movable, template, strength),
{
    match kind {
        None => CoordinateDrive::passive(),
        Some(kind) => {
            if in_metres != kind.translational {
                return CoordinateDrive::passive();
            }
            if matches!(kind.hardware, JointHardware::Suspension) {
                return CoordinateDrive::passive_between(kind.lower, kind.upper);
            }
            if !movable {
                return CoordinateDrive::passive();
            }
            let row: CoordinateDrive = coordinate_drive(target, limits, strength);
            if kind.translational {
                CoordinateDrive {
                    min_angle: template.min_angle,
                    max_angle: template.max_angle,
                    target_angle: row.target_angle.clamped(template.min_angle, template.max_angle),
                    ..row
                }
            } else {
                row
            }
        },
    }
}

/// A driven coordinate is never asked for more than its sources' speed.
pub proof fn targets_stay_within_speed(
    target: DriveTarget,
    limits: DriveLimits,
    strength: DriveStrength,
)
    requires
        Scalar::zero().below(strength.max_speed),
        !target.value().nan(),
    ensures
        drive_of(target, limits, strength).target_speed.at_most(strength.max_speed),
        strength.max_speed.opposite().at_most(drive_of(target, limits, strength).target_speed),
{
}

/// A driven coordinate keeps both ends of its wire's travel, and is free both
/// ways where the wire has none.
pub proof fn driven_rows_keep_their_travel(
    target: DriveTarget,
    limits: DriveLimits,
    strength: DriveStrength,
)
    requires
        !strength.max_speed.at_most(Scalar::zero()),
    ensures
        limits.angle_limits matches Some(ends) ==> travels(
            drive_of(target, limits, strength),
            ends.0,
            ends.1,
        ),
        limits.angle_limits is None ==> forall|angle: Scalar|
            angle.finite() ==> {
                &&& drive_of(target, limits, strength).min_angle.below(angle)
                &&& #[trigger] angle.below(drive_of(target, limits, strength).max_angle)
            },
{
}

/// Whether a row runs from `low` to `high`.
pub open spec fn travels(row: CoordinateDrive, low: Scalar, high: Scalar) -> bool {
    row.min_angle == low && row.max_angle == high
}

/// A driven coordinate has the speed and the strength of its sources, each
/// source its own.
pub proof fn driven_rows_have_their_sources_strength(
    target: DriveTarget,
    limits: DriveLimits,
    strength: DriveStrength,
)
    requires
        !strength.max_speed.at_most(Scalar::zero()),
    ensures
        ({
            let row = drive_of(target, limits, strength);
            &&& row.max_speed == strength.max_speed
            &&& row.max_acceleration == strength.max_acceleration
            &&& row.source_a_max_acceleration == strength.source_a_max_acceleration
            &&& row.source_a_no_load_speed == strength.source_a_no_load_speed
            &&& row.source_b_max_acceleration == strength.source_b_max_acceleration
            &&& row.source_b_no_load_speed == strength.source_b_no_load_speed
        }),
{
}

/// A speed that the sources reach is held as it was asked for, a faster one in
/// the same direction as fast as they go, and an angle is sought as it was asked
/// for.
pub proof fn driven_rows_follow_their_target(
    target: DriveTarget,
    limits: DriveLimits,
    strength: DriveStrength,
)
    requires
        strength.max_speed.finite(),
        0 < strength.max_speed.units(),
        target.value().finite(),
    ensures
        ({
            let row = drive_of(target, limits, strength);
            let most = strength.max_speed.units();
            let asked = target.value().units();
            &&& target is Speed ==> row.mode is Speed && row.target_angle.units() == 0
            &&& target is Angle ==> row.mode is Angle && row.target_speed.units() == 0
                && row.target_angle == target.value()
            &&& target is Speed && -most <= asked <= most ==> row.target_speed == target.value()
            &&& target is Speed && most < asked ==> row.target_speed.units() == most
            &&& target is Speed && asked < -most ==> row.target_speed.units() == -most
        }),
{
    signs_are_those_of_values(strength.max_speed);
    numbers_compare_as_their_values(strength.max_speed, Scalar::zero());
    bounds_are_those_of_values(
        target.value(),
        strength.max_speed.opposite(),
        strength.max_speed,
    );
}

/// Sources without speed, and coordinates that nothing drives, ask for nothing.
pub proof fn idle_rows_ask_for_nothing(
    target: DriveTarget,
    limits: DriveLimits,
    strength: DriveStrength,
    lower: Scalar,
    upper: Scalar,
    angle: Scalar,
)
    requires
        angle.finite(),
    ensures
        ({
            let row = CoordinateDrive::passive_between(lower, upper);
            &&& asks_for_nothing(row)
            &&& travels(row, lower, upper)
        }),
        strength.max_speed.at_most(Scalar::zero()) ==> {
            let row = drive_of(target, limits, strength);
            &&& asks_for_nothing(row)
            &&& row.min_angle.below(angle) && angle.below(row.max_angle)
        },
{
}

/// Whether a row is passive, without speed or strength.
pub open spec fn asks_for_nothing(row: CoordinateDrive) -> bool {
    &&& row.mode is Passive
    &&& row.target_speed.bits == 0
    &&& row.target_angle.bits == 0
    &&& row.max_speed.bits == 0
    &&& row.max_acceleration.bits == 0
    &&& row.source_a_max_acceleration.bits == 0
    &&& row.source_a_no_load_speed.bits == 0
    &&& row.source_b_max_acceleration.bits == 0
    &&& row.source_b_no_load_speed.bits == 0
}

/// A sliding joint stays within the travel of its wire and of its hardware, the
/// narrower of both at each end, and no faster than its wire allows; a target
/// within that stays, one outside goes to the nearer end, and its strength is
/// capped only where the cap is lower.
pub proof fn sliding_rows_stay_within_both_travels(
    row: CoordinateDrive,
    limits: LinearDriveLimits,
    lower: Scalar,
    upper: Scalar,
    cap: AccelerationCap,
)
    requires
        row.leaves_room(limits, lower, upper),
        row.max_speed.finite() && row.target_speed.finite() && row.target_angle.finite(),
        row.max_acceleration.finite() && cap.acceleration.finite(),
        limits.minimum.finite() && limits.maximum.finite() && limits.max_speed.finite(),
        lower.finite() && upper.finite(),
    ensures
        ({
            let held = row.within(limits, lower, upper, cap);
            let low = held.min_angle.units();
            let high = held.max_angle.units();
            let most = held.max_speed.units();
            &&& low >= limits.minimum.units() && low >= lower.units()
            &&& low == limits.minimum.units() || low == lower.units()
            &&& high <= limits.maximum.units() && high <= upper.units()
            &&& high == limits.maximum.units() || high == upper.units()
            &&& most <= row.max_speed.units() && most <= limits.max_speed.units()
            &&& most == row.max_speed.units() || most == limits.max_speed.units()
            &&& low <= held.target_angle.units() <= high
            &&& low <= row.target_angle.units() <= high ==> held.target_angle == row.target_angle
            &&& row.target_angle.units() < low ==> held.target_angle.units() == low
            &&& row.target_angle.units() > high ==> held.target_angle.units() == high
            &&& -most <= held.target_speed.units() <= most
            &&& -most <= row.target_speed.units() <= most ==> held.target_speed == row.target_speed
            &&& row.target_speed.units() < -most ==> held.target_speed.units() == -most
            &&& row.target_speed.units() > most ==> held.target_speed.units() == most
            &&& held.mode == row.mode
            &&& held.source_a_no_load_speed == row.source_a_no_load_speed
            &&& held.source_b_no_load_speed == row.source_b_no_load_speed
            &&& cap.acceleration.units() >= row.max_acceleration.units() ==> {
                &&& held.max_acceleration == row.max_acceleration
                &&& held.source_a_max_acceleration == row.source_a_max_acceleration
                &&& held.source_b_max_acceleration == row.source_b_max_acceleration
            }
            &&& cap.acceleration.units() < row.max_acceleration.units() ==> {
                &&& held.max_acceleration == cap.acceleration
                &&& held.source_a_max_acceleration == cap.source_a
                &&& held.source_b_max_acceleration == cap.source_b
            }
        }),
{
    let held = row.within(limits, lower, upper, cap);
    bounds_are_those_of_values(lower, limits.minimum, lower);
    bounds_are_those_of_values(lower, limits.maximum, upper);
    bounds_are_those_of_values(lower, row.max_speed, limits.max_speed);
    signs_are_those_of_values(held.max_speed);
    signs_are_those_of_values(Scalar::zero());
    numbers_compare_as_their_values(held.min_angle, held.max_angle);
    numbers_compare_as_their_values(Scalar::zero(), held.max_speed);
    bounds_are_those_of_values(row.target_angle, held.min_angle, held.max_angle);
    bounds_are_those_of_values(row.target_speed, held.max_speed.opposite(), held.max_speed);
    numbers_compare_as_their_values(cap.acceleration, row.max_acceleration);
}

/// A coordinate starts with its wire's row; a sliding joint's wire keeps it
/// within its travel, and without a wire it is passive between the joint's ends.
pub proof fn coordinates_start_with_their_wires_row(
    target: CoordinateTarget,
    strength: DriveStrength,
    cap: AccelerationCap,
)
    requires
        !strength.max_speed.at_most(Scalar::zero()),
    ensures
        ({
            let row = starting_drive(target, strength, cap);
            &&& target.drive is None ==> asks_for_nothing(row) && travels(
                row,
                target.lower,
                target.upper,
            )
            &&& target.drive matches Some(active) ==> {
                &&& active.target is Speed <==> row.mode is Speed
                &&& active.target is Angle <==> row.mode is Angle
                &&& active.linear_limits is None ==> {
                    &&& row.max_speed == strength.max_speed
                    &&& active.target matches DriveTarget::Angle(angle) ==> row.target_angle
                        == angle
                    &&& active.limits.angle_limits matches Some(ends) ==> travels(
                        row,
                        ends.0,
                        ends.1,
                    )
                }
                &&& active.linear_limits matches Some(limits) ==> {
                    &&& row.max_speed == strength.max_speed.smaller(limits.max_speed)
                    &&& travels(
                        row,
                        limits.minimum.larger(target.lower),
                        limits.maximum.smaller(target.upper),
                    )
                }
            }
        }),
{
}

/// What a running coordinate enters: nothing where it is unknown, in other
/// units, or unable to move; a suspension keeps its own travel; a sliding joint
/// keeps the ends it has and seeks an angle between them; a turning joint takes
/// the ends of its wire.
pub proof fn entered_rows_keep_the_joints_travel(
    kind: Option<JointKind>,
    in_metres: bool,
    target: DriveTarget,
    limits: DriveLimits,
    movable: bool,
    template: CoordinateDrive,
    strength: DriveStrength,
)
    requires
        !strength.max_speed.at_most(Scalar::zero()),
    ensures
        ({
            let row = entered_drive(kind, in_metres, target, limits, movable, template, strength);
            &&& kind is None ==> asks_for_nothing(row)
            &&& kind matches Some(joint) ==> {
                let fits = in_metres == joint.translational;
                &&& !fits ==> asks_for_nothing(row) && travels(
                    row,
                    Scalar::negative_infinity(),
                    Scalar::infinity(),
                )
                &&& fits && joint.hardware is Suspension ==> asks_for_nothing(row) && travels(
                    row,
                    joint.lower,
                    joint.upper,
                )
                &&& fits && !(joint.hardware is Suspension) && !movable ==> asks_for_nothing(row)
                    && travels(row, Scalar::negative_infinity(), Scalar::infinity())
                &&& fits && !(joint.hardware is Suspension) && movable ==> {
                    &&& row.max_speed == strength.max_speed
                    &&& row.max_acceleration == strength.max_acceleration
                    &&& target is Speed <==> row.mode is Speed
                    &&& target is Angle <==> row.mode is Angle
                    &&& joint.translational ==> travels(row, template.min_angle, template.max_angle)
                    &&& !joint.translational ==> (limits.angle_limits matches Some(ends) ==> travels(
                        row,
                        ends.0,
                        ends.1,
                    ))
                    &&& !joint.translational && target is Angle ==> row.target_angle
                        == target.value()
                    &&& joint.translational && target is Angle && template.min_angle.at_most(
                        target.value(),
                    ) && target.value().at_most(template.max_angle) ==> row.target_angle
                        == target.value()
                }
            }
        }),
{
}

} // verus!
