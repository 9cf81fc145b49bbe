//! Drive programs, key bindings and drive limits of one powered joint.

use vstd::arithmetic::power2::lemma2_to64;
use vstd::prelude::*;

use crate::exact::{
    coded, encodes, lemma_encoded, numbers_compare_as_their_values, rounds, signs_are_those_of_values,
    units_of_one,
};
use crate::scalar::{Scalar, INFINITY_BITS};

verus! {

/// Largest supported drive speed, 25 radians per second, by its encoding.
pub const MAX_DRIVE_SPEED_RAD_S: u32 = 0x41C8_0000;

/// Largest supported drive angle magnitude, one full turn in radians, by its encoding.
pub const MAX_DRIVE_LIMIT_RADIANS: u32 = 0x40C9_0FDB;

/// Largest number of states one driven bearing can hold.
pub const MAX_DRIVE_STATES: usize = 8;

/// Longest supported dwell time, 600 seconds, by its encoding.
pub const MAX_DRIVE_DWELL_SECONDS: u32 = 0x4416_0000;

/// Default maximum speed, 3 radians per second, by its encoding.
pub const DEFAULT_MAX_SPEED_RAD_S: u32 = 0x4040_0000;

/// Invalid per-bearing drive limits.
#[derive(Clone, Copy, Debug, PartialEq, Eq, Structural)]
pub enum DriveLimitsError {
    /// The maximum speed was not positive, or exceeded the supported range.
    SpeedOutOfRange,
    /// The maximum torque was zero, negative, or not a number.
    NonPositiveTorque,
    /// An angle limit was not finite or exceeded the supported range.
    LimitOutOfRange,
    /// The minimum angle limit was not below the maximum.
    InvertedLimits,
}

/// Invalid drive state program.
#[derive(Clone, Copy, Debug, PartialEq, Eq, Structural)]
pub enum DriveProgramError {
    /// A program needs at least one state.
    EmptyProgram,
    /// A program cannot hold more than [`MAX_DRIVE_STATES`] states.
    TooManyStates,
    /// A dwell handoff or release target named a state that does not exist.
    StateIndexOutOfRange(u8),
    /// A target angle or speed was not finite.
    NonFiniteTarget,
    /// A target speed magnitude exceeded the supported range.
    SpeedOutOfRange,
    /// A target angle magnitude exceeded the supported range.
    AngleOutOfRange,
    /// A dwell time was not positive, or exceeded the supported range.
    DwellOutOfRange,
    /// Two states in one program were bound to the same key.
    DuplicateKey(DriveKey),
}

/// What one drive state asks of its bearing.
#[derive(Clone, Copy, Debug, PartialEq, Eq, Structural)]
pub enum DriveTarget {
    /// Hold a joint angle, in radians, measured from the built pose.
    Angle(Scalar),
    /// Spin at a signed speed, in radians per second.
    Speed(Scalar),
}

impl DriveTarget {
    /// The asked angle or speed.
    pub open spec fn value(self) -> Scalar {
        match self {
            DriveTarget::Angle(angle) => angle,
            DriveTarget::Speed(speed) => speed,
        }
    }

    /// Why the target is refused, if it is.
    pub open spec fn fault(self) -> Option<DriveProgramError> {
        if !self.value().finite() {
            Some(DriveProgramError::NonFiniteTarget)
        } else if self is Angle && self.value().magnitude() > MAX_DRIVE_LIMIT_RADIANS {
            Some(DriveProgramError::AngleOutOfRange)
        } else if self is Speed && self.value().magnitude() > MAX_DRIVE_SPEED_RAD_S {
            Some(DriveProgramError::SpeedOutOfRange)
        } else {
            None
        }
    }

    /// The target with its direction flipped.
    pub open spec fn flipped(self) -> Self {
        match self {
            DriveTarget::Angle(angle) => DriveTarget::Angle(angle.opposite()),
            DriveTarget::Speed(speed) => DriveTarget::Speed(speed.opposite()),
        }
    }

    /// Returns the target when it is finite and within range.
    pub fn validated(self) -> (checked: Result<Self, DriveProgramError>)
        ensures
            checked == (match self.fault() {
                Some(error) => Err::<Self, DriveProgramError>(error),
                None => Ok(self),
            }),
    {
        let value = match self {
            DriveTarget::Angle(angle) => angle,
            DriveTarget::Speed(speed) => speed,
        };
        if !value.is_finite() {
            return Err(DriveProgramError::NonFiniteTarget);
        }
        let magnitude: u32 = value.absolute().bits;
        match self {
            DriveTarget::Angle(_) => {
                if magnitude > MAX_DRIVE_LIMIT_RADIANS {
                    Err(DriveProgramError::AngleOutOfRange)
                } else {
                    Ok(self)
                }
            },
            DriveTarget::Speed(_) => {
                if magnitude > MAX_DRIVE_SPEED_RAD_S {
                    Err(DriveProgramError::SpeedOutOfRange)
                } else {
                    Ok(self)
                }
            },
        }
    }

    /// Returns the target with its direction flipped.
    pub fn reversed(self) -> (target: Self)
        ensures
            target == self.flipped(),
    {
        match self {
            DriveTarget::Angle(angle) => DriveTarget::Angle(angle.negated()),
            DriveTarget::Speed(speed) => DriveTarget::Speed(speed.negated()),
        }
    }

    /// Target angle in radians, when this state holds a position.
    pub fn angle(self) -> (angle: Option<Scalar>)
        ensures
            angle == (match self {
                DriveTarget::Angle(angle) => Some(angle),
                DriveTarget::Speed(_) => None,
            }),
    {
        match self {
            DriveTarget::Angle(angle) => Some(angle),
            DriveTarget::Speed(_) => None,
        }
    }

    /// Target speed in radians per second, when this state spins the bearing.
    pub fn speed(self) -> (speed: Option<Scalar>)
        ensures
            speed == (match self {
                DriveTarget::Speed(speed) => Some(speed),
                DriveTarget::Angle(_) => None,
            }),
    {
        match self {
            DriveTarget::Speed(speed) => Some(speed),
            DriveTarget::Angle(_) => None,
        }
    }
}

impl Default for DriveTarget {
    /// A standstill.
    fn default() -> (target: Self)
        ensures
            target == DriveTarget::Speed(Scalar { bits: 0 }),
    {
        DriveTarget::Speed(Scalar::zero())
    }
}

/// Reversing a target keeps it valid and twice reversing gives it back.
pub proof fn reversal_is_an_involution(target: DriveTarget)
    ensures
        target.flipped().flipped() == target,
        target.flipped().fault() == target.fault(),
{
}

/// Keyboard key a drive state can be bound to: an uppercase ASCII letter or a digit.
#[derive(Clone, Copy, Debug, PartialEq, Eq, PartialOrd, Ord, Hash, Structural)]
pub struct DriveKey {
    code: u8,
}

/// Whether `symbol` is `A` to `Z`.
pub open spec fn is_upper(symbol: char) -> bool {
    'A' <= symbol <= 'Z'
}

/// Whether `symbol` is `a` to `z`.
pub open spec fn is_lower(symbol: char) -> bool {
    'a' <= symbol <= 'z'
}

/// Whether `symbol` is `0` to `9`.
pub open spec fn is_digit(symbol: char) -> bool {
    '0' <= symbol <= '9'
}

/// The code of the key that `symbol` names: letters fold to uppercase, digits stand for themselves.
pub open spec fn key_code(symbol: char) -> Option<int> {
    if is_lower(symbol) {
        Some(symbol as int - 32)
    } else if is_upper(symbol) || is_digit(symbol) {
        Some(symbol as int)
    } else {
        None
    }
}

impl DriveKey {
    /// The ASCII code of the bound character.
    pub closed spec fn code(self) -> u8 {
        self.code
    }

    /// The code is a letter's or a digit's.
    pub open spec fn wf(self) -> bool {
        is_upper(self.code() as char) || is_digit(self.code() as char)
    }

    /// The key that `symbol` names.
    pub closed spec fn named(symbol: char) -> Option<Self> {
        match key_code(symbol) {
            Some(code) => Some(DriveKey { code: code as u8 }),
            None => None,
        }
    }

    /// A key is the one that its own symbol names.
    pub proof fn lemma_named(self)
        requires
            self.wf(),
        ensures
            Self::named(self.code() as char) == Some(self),
    {
    }

    /// Keys of one code are one key.
    pub proof fn lemma_code(a: Self, b: Self)
        ensures
            a.code() == b.code() ==> a == b,
    {
    }

    /// Creates a binding from `A`-`Z`, `a`-`z`, or `0`-`9`. Lowercase letters fold to uppercase.
    pub fn new(symbol: char) -> (key: Option<Self>)
        ensures
            key == Self::named(symbol),
            key is Some <==> key_code(symbol) is Some,
            key is Some ==> key->0.wf() && key->0.code() == key_code(symbol)->0,
    {
        if 'a' <= symbol && symbol <= 'z' {
            let code: u8 = symbol as u8 - 32;
            Some(DriveKey { code })
        } else if ('A' <= symbol && symbol <= 'Z') || ('0' <= symbol && symbol <= '9') {
            Some(DriveKey { code: symbol as u8 })
        } else {
            None
        }
    }

    /// The bound character, always uppercase.
    pub fn symbol(self) -> (symbol: char)
        ensures
            symbol as int == self.code(),
    {
        self.code as char
    }

    /// Whether this key's character stands before the other's.
    pub fn precedes(self, other: Self) -> (before: bool)
        ensures
            before == (self.code() < other.code()),
    {
        self.code < other.code
    }

    /// Whether this is the same key.
    pub fn same(self, other: Self) -> (same: bool)
        ensures
            same == (self == other),
    {
        self.code == other.code
    }
}

/// A key's own symbol names it again, and so does its lowercase form.
pub proof fn symbols_name_their_keys(key: DriveKey, symbol: char)
    requires
        key.wf(),
        symbol as int == key.code() || (is_upper(key.code() as char) && symbol as int == key.code()
            + 32),
    ensures
        key_code(symbol) == Some(key.code() as int),
{
}

/// What a triggered state does when its key is released.
#[derive(Clone, Copy, Debug, PartialEq, Eq, Structural)]
pub enum DriveRelease {
    /// Stay in this state until something else changes it.
    Latch,
    /// Return to the named state as soon as the key is let go.
    RevertTo(u8),
}

impl Default for DriveRelease {
    fn default() -> (release: Self)
        ensures
            release == DriveRelease::Latch,
    {
        DriveRelease::Latch
    }
}

impl DriveRelease {
    /// State this release rule returns to, when it reverts at all.
    pub fn target(self) -> (state: Option<u8>)
        ensures
            state == (match self {
                DriveRelease::Latch => None,
                DriveRelease::RevertTo(state) => Some(state),
            }),
    {
        match self {
            DriveRelease::Latch => None,
            DriveRelease::RevertTo(state) => Some(state),
        }
    }
}

/// Key binding that activates one drive state.
#[derive(Clone, Copy, Debug, PartialEq, Eq, Structural)]
pub struct DriveTrigger {
    pub key: DriveKey,
    pub release: DriveRelease,
}

impl DriveTrigger {
    /// Binds a key to a state with the given release behaviour.
    pub fn new(key: DriveKey, release: DriveRelease) -> (trigger: Self)
        ensures
            trigger == (DriveTrigger { key, release }),
    {
        DriveTrigger { key, release }
    }

    /// The bound key.
    pub fn key(self) -> (key: DriveKey)
        ensures
            key == self.key,
    {
        self.key
    }

    /// What happens when the key is released.
    pub fn release(self) -> (release: DriveRelease)
        ensures
            release == self.release,
    {
        self.release
    }
}

/// Automatic handoff from one drive state to another after a delay.
#[derive(Clone, Copy, Debug, PartialEq, Eq, Structural)]
pub struct DriveDwell {
    pub seconds: Scalar,
    pub next: Option<u8>,
}

/// Whether a dwell may last `seconds`.
pub open spec fn dwell_in_range(seconds: Scalar) -> bool {
    seconds.finite() && 0 < seconds.key() <= MAX_DRIVE_DWELL_SECONDS
}

impl DriveDwell {
    /// Creates a validated dwell. `next` names the state to enter; `None` means the following one.
    pub fn new(seconds: Scalar, next: Option<u8>) -> (dwell: Result<Self, DriveProgramError>)
        ensures
            dwell == (if dwell_in_range(seconds) {
                Ok::<Self, DriveProgramError>(DriveDwell { seconds, next })
            } else {
                Err(DriveProgramError::DwellOutOfRange)
            }),
    {
        let longest = Scalar::from_bits(MAX_DRIVE_DWELL_SECONDS);
        if !seconds.is_finite() || seconds.less_or_equal(Scalar::zero()) || longest.less(seconds) {
            return Err(DriveProgramError::DwellOutOfRange);
        }
        Ok(DriveDwell { seconds, next })
    }

    /// How long the state stays active, in seconds.
    pub fn seconds(self) -> (seconds: Scalar)
        ensures
            seconds == self.seconds,
    {
        self.seconds
    }

    /// Explicit handoff target, or `None` for the following state.
    pub fn next(self) -> (next: Option<u8>)
        ensures
            next == self.next,
    {
        self.next
    }
}

/// One state of a driven bearing.
#[derive(Clone, Copy, Debug, PartialEq, Eq, Structural)]
pub struct DriveState {
    pub target: DriveTarget,
    pub dwell: Option<DriveDwell>,
    pub trigger: Option<DriveTrigger>,
}

impl Default for DriveState {
    /// Standing still, with no handoff and no key.
    fn default() -> (state: Self)
        ensures
            state == DriveState::still(),
    {
        DriveState { target: DriveTarget::Speed(Scalar::zero()), dwell: None, trigger: None }
    }
}

impl DriveState {
    /// Standing still, with no handoff and no key.
    pub open spec fn still() -> Self {
        DriveState { target: DriveTarget::Speed(Scalar { bits: 0 }), dwell: None, trigger: None }
    }

    /// Creates a state that holds the given target indefinitely.
    pub fn new(target: DriveTarget) -> (state: Result<Self, DriveProgramError>)
        ensures
            state == (match target.fault() {
                Some(error) => Err::<Self, DriveProgramError>(error),
                None => Ok(DriveState { target, dwell: None, trigger: None }),
            }),
    {
        match target.validated() {
            Ok(target) => Ok(DriveState { target, dwell: None, trigger: None }),
            Err(error) => Err(error),
        }
    }

    /// Replaces the target.
    pub fn with_target(self, target: DriveTarget) -> (state: Result<Self, DriveProgramError>)
        ensures
            state == (match target.fault() {
                Some(error) => Err::<Self, DriveProgramError>(error),
                None => Ok(DriveState { target, ..self }),
            }),
    {
        match target.validated() {
            Ok(target) => Ok(
                DriveState { target, dwell: self.dwell, trigger: self.trigger },
            ),
            Err(error) => Err(error),
        }
    }

    /// Sets or clears the automatic handoff.
    pub fn with_dwell(self, dwell: Option<DriveDwell>) -> (state: Self)
        ensures
            state == (DriveState { dwell, ..self }),
    {
        DriveState { target: self.target, dwell, trigger: self.trigger }
    }

    /// Sets or clears the key binding.
    pub fn with_trigger(self, trigger: Option<DriveTrigger>) -> (state: Self)
        ensures
            state == (DriveState { trigger, ..self }),
    {
        DriveState { target: self.target, dwell: self.dwell, trigger }
    }

    /// What this state asks of the bearing.
    pub fn target(self) -> (target: DriveTarget)
        ensures
            target == self.target,
    {
        self.target
    }

    /// Automatic handoff, when this state advances on its own.
    pub fn dwell(self) -> (dwell: Option<DriveDwell>)
        ensures
            dwell == self.dwell,
    {
        self.dwell
    }

    /// Key binding, when this state can be triggered by hand.
    pub fn trigger(self) -> (trigger: Option<DriveTrigger>)
        ensures
            trigger == self.trigger,
    {
        self.trigger
    }
}

/// Whether state `i` is bound to `key`.
pub open spec fn bound_to(states: Seq<DriveState>, i: int, key: DriveKey) -> bool {
    states[i].trigger is Some && states[i].trigger->0.key == key
}

/// Why state `i` of a program is refused, if it is: its target, then its
/// dwell, then its release, then its key, which no earlier state may hold.
pub open spec fn state_fault(states: Seq<DriveState>, i: int) -> Option<DriveProgramError> {
    let state = states[i];
    if state.target.fault() is Some {
        state.target.fault()
    } else if state.dwell is Some && !dwell_in_range(state.dwell->0.seconds) {
        Some(DriveProgramError::DwellOutOfRange)
    } else if state.dwell is Some && state.dwell->0.next is Some && state.dwell->0.next->0
        >= states.len() {
        Some(DriveProgramError::StateIndexOutOfRange(state.dwell->0.next->0))
    } else if state.trigger is Some && state.trigger->0.release is RevertTo
        && state.trigger->0.release->0 >= states.len() {
        Some(DriveProgramError::StateIndexOutOfRange(state.trigger->0.release->0))
    } else if state.trigger is Some && exists|j: int|
        0 <= j < i && #[trigger] bound_to(states, j, state.trigger->0.key) {
        Some(DriveProgramError::DuplicateKey(state.trigger->0.key))
    } else {
        None
    }
}

/// The fault of the first faulty state among the first `count`.
pub open spec fn first_fault(states: Seq<DriveState>, count: int) -> Option<DriveProgramError>
    decreases count,
{
    if count <= 0 {
        None
    } else if first_fault(states, count - 1) is Some {
        first_fault(states, count - 1)
    } else {
        state_fault(states, count - 1)
    }
}

/// Why states do not make a program, if they do not.
pub open spec fn program_fault(states: Seq<DriveState>) -> Option<DriveProgramError> {
    if states.len() == 0 {
        Some(DriveProgramError::EmptyProgram)
    } else if states.len() > MAX_DRIVE_STATES {
        Some(DriveProgramError::TooManyStates)
    } else {
        first_fault(states, states.len() as int)
    }
}

/// No fault means that no state is faulty.
pub proof fn lemma_no_fault(states: Seq<DriveState>, count: int)
    requires
        0 <= count <= states.len(),
    ensures
        first_fault(states, count) is None <==> forall|i: int|
            0 <= i < count ==> #[trigger] state_fault(states, i) is None,
    decreases count,
{
    if count > 0 {
        lemma_no_fault(states, count - 1);
        if first_fault(states, count) is None {
            assert(state_fault(states, count - 1) is None);
        }
    }
}

/// Ordered states of one driven bearing.
///
/// State zero is the state a bearing enters when the simulation starts, and is
/// the conventional target for a release or a reset key.
#[derive(Clone, Copy, Debug, PartialEq, Eq)]
pub struct DriveProgram {
    rows: [DriveState; 8],
    len: u8,
    loops: bool,
}

impl View for DriveProgram {
    type V = Seq<DriveState>;

    /// The states, in order.
    closed spec fn view(&self) -> Seq<DriveState> {
        self.rows@.subrange(0, self.len as int)
    }
}

impl DriveProgram {
    /// Whether the last state hands back to the first.
    pub closed spec fn looping(&self) -> bool {
        self.loops
    }

    /// The states make a program.
    pub closed spec fn wf(&self) -> bool {
        &&& 0 < self.len <= MAX_DRIVE_STATES
        &&& program_fault(self@) is None
    }

    /// A program holds one to eight states, and none is faulty.
    pub proof fn lemma_wf(&self)
        requires
            self.wf(),
        ensures
            0 < self@.len() <= MAX_DRIVE_STATES,
            program_fault(self@) is None,
            forall|i: int| 0 <= i < self@.len() ==> #[trigger] state_fault(self@, i) is None,
    {
        lemma_no_fault(self@, self@.len() as int);
    }

    /// Whether this holds one to eight states, none of them faulty.
    pub fn is_valid(&self) -> (valid: bool)
        ensures
            valid == self.wf(),
    {
        let count: usize = self.len as usize;
        if count == 0 || count > MAX_DRIVE_STATES {
            return false;
        }
        let mut states: Vec<DriveState> = Vec::new();
        let mut row: usize = 0;
        while row < count
            invariant
                row <= count <= 8,
                states@ =~= self.rows@.take(row as int),
            decreases count - row,
        {
            states.push(self.rows[row]);
            row += 1;
        }
        Self::new(states.as_slice(), self.loops).is_ok()
    }

    /// Creates a validated program.
    pub fn new(states: &[DriveState], loops: bool) -> (program: Result<Self, DriveProgramError>)
        ensures
            program is Err <==> program_fault(states@) is Some,
            program is Err ==> program->Err_0 == program_fault(states@)->0,
            program is Ok ==> {
                &&& program->Ok_0.wf()
                &&& program->Ok_0@ == states@
                &&& program->Ok_0.looping() == loops
            },
    {
        let count: usize = states.len();
        if count == 0 {
            return Err(DriveProgramError::EmptyProgram);
        }
        if count > MAX_DRIVE_STATES {
            return Err(DriveProgramError::TooManyStates);
        }
        let mut index: usize = 0;
        while index < count
            invariant
                index <= count,
                count == states@.len(),
                0 < count <= MAX_DRIVE_STATES,
                first_fault(states@, index as int) is None,
            decreases count - index,
        {
            match Self::check_state(states, index) {
                Some(error) => {
                    proof {
                        lemma_fault_stays(states@, index + 1, count as int);
                    }
                    return Err(error);
                },
                None => {},
            }
            index += 1;
        }
        let still = DriveState {
            target: DriveTarget::Speed(Scalar::zero()),
            dwell: None,
            trigger: None,
        };
        let mut rows: [DriveState; 8] = [still, still, still, still, still, still, still, still];
        let mut row: usize = 0;
        while row < count
            invariant
                row <= count,
                count == states@.len(),
                count <= 8,
                rows@.len() == 8,
                forall|i: int| #![trigger rows@[i]] 0 <= i < row ==> rows@[i] == states@[i],
            decreases count - row,
        {
            rows[row] = states[row];
            row += 1;
        }
        let program = DriveProgram { rows, len: count as u8, loops };
        assert(program@ =~= states@);
        Ok(program)
    }

    /// Why state `index` is refused, if it is.
    fn check_state(states: &[DriveState], index: usize) -> (fault: Option<DriveProgramError>)
        requires
            index < states@.len() <= MAX_DRIVE_STATES,
        ensures
            fault == state_fault(states@, index as int),
    {
        let state: DriveState = states[index];
        let len: u8 = states.len() as u8;
        match state.target.validated() {
            Err(error) => {
                return Some(error);
            },
            Ok(_) => {},
        }
        if let Some(dwell) = state.dwell {
            match DriveDwell::new(dwell.seconds, dwell.next) {
                Err(error) => {
                    return Some(error);
                },
                Ok(_) => {},
            }
            if let Some(next) = dwell.next {
                if next >= len {
                    return Some(DriveProgramError::StateIndexOutOfRange(next));
                }
            }
        }
        let trigger: DriveTrigger = match state.trigger {
            Some(trigger) => trigger,
            None => {
                return None;
            },
        };
        if let DriveRelease::RevertTo(target) = trigger.release {
            if target >= len {
                return Some(DriveProgramError::StateIndexOutOfRange(target));
            }
        }
        if Self::key_taken(states, index, trigger.key) {
            return Some(DriveProgramError::DuplicateKey(trigger.key));
        }
        None
    }

    /// Whether a state before `index` is bound to `key`.
    fn key_taken(states: &[DriveState], index: usize, key: DriveKey) -> (taken: bool)
        requires
            index <= states@.len(),
        ensures
            taken <==> exists|j: int| 0 <= j < index && #[trigger] bound_to(states@, j, key),
    {
        let mut earlier: usize = 0;
        while earlier < index
            invariant
                earlier <= index <= states@.len(),
                forall|j: int| 0 <= j < earlier ==> !#[trigger] bound_to(states@, j, key),
            decreases index - earlier,
        {
            if let Some(other) = states[earlier].trigger {
                if other.key.same(key) {
                    assert(bound_to(states@, earlier as int, key));
                    return true;
                }
            }
            earlier += 1;
        }
        false
    }

    /// The states, in order.
    pub fn states(&self) -> (states: Vec<DriveState>)
        requires
            self.wf(),
        ensures
            states@ == self@,
    {
        let mut states: Vec<DriveState> = Vec::new();
        let mut i: usize = 0;
        while i < self.len as usize
            invariant
                i <= self.len <= 8,
                states@ =~= self.rows@.subrange(0, i as int),
            decreases self.len - i,
        {
            states.push(self.rows[i]);
            i += 1;
        }
        states
    }

    /// Number of states.
    pub fn len(&self) -> (count: usize)
        requires
            self.wf(),
        ensures
            count == self@.len(),
    {
        self.len as usize
    }

    /// Always false: a program holds at least one state.
    pub fn is_empty(&self) -> (empty: bool)
        requires
            self.wf(),
        ensures
            !empty,
    {
        self.len == 0
    }

    /// Whether the last state hands back to the first.
    pub fn loops(&self) -> (loops: bool)
        ensures
            loops == self.looping(),
    {
        self.loops
    }

    /// The state at `index`, when it exists.
    pub fn state(&self, index: u8) -> (state: Option<DriveState>)
        requires
            self.wf(),
        ensures
            state == (if index < self@.len() {
                Some(self@[index as int])
            } else {
                None
            }),
    {
        if index < self.len {
            Some(self.rows[index as usize])
        } else {
            None
        }
    }

    /// Sets whether the program wraps.
    pub fn with_loops(self, loops: bool) -> (program: Self)
        requires
            self.wf(),
        ensures
            program.wf(),
            program@ == self@,
            program.looping() == loops,
    {
        let program = DriveProgram { rows: self.rows, len: self.len, loops };
        assert(program@ =~= self@);
        program
    }

    /// Replaces one state.
    pub fn with_state(&self, index: u8, state: DriveState) -> (program: Result<
        Self,
        DriveProgramError,
    >)
        requires
            self.wf(),
        ensures
            index >= self@.len() ==> program == Err::<Self, DriveProgramError>(
                DriveProgramError::StateIndexOutOfRange(index),
            ),
            index < self@.len() ==> {
                let states = self@.update(index as int, state);
                &&& program is Err <==> program_fault(states) is Some
                &&& program is Err ==> program->Err_0 == program_fault(states)->0
                &&& program is Ok ==> program->Ok_0.wf() && program->Ok_0@ == states
                    && program->Ok_0.looping() == self.looping()
            },
    {
        if index >= self.len {
            return Err(DriveProgramError::StateIndexOutOfRange(index));
        }
        let mut states: Vec<DriveState> = self.states();
        states.set(index as usize, state);
        Self::new(states.as_slice(), self.loops)
    }

    /// Appends a state.
    pub fn with_pushed_state(&self, state: DriveState) -> (program: Result<
        Self,
        DriveProgramError,
    >)
        requires
            self.wf(),
        ensures
            ({
                let states = self@.push(state);
                &&& program is Err <==> program_fault(states) is Some
                &&& program is Err ==> program->Err_0 == program_fault(states)->0
                &&& program is Ok ==> program->Ok_0.wf() && program->Ok_0@ == states
                    && program->Ok_0.looping() == self.looping()
            }),
    {
        if self.len as usize >= MAX_DRIVE_STATES {
            return Err(DriveProgramError::TooManyStates);
        }
        let mut states: Vec<DriveState> = self.states();
        states.push(state);
        Self::new(states.as_slice(), self.loops)
    }
}

/// Where a reference points once state `removed` is gone.
pub open spec fn renumber(reference: u8, removed: u8) -> Option<u8> {
    if reference == removed {
        None
    } else if reference > removed {
        Some((reference - 1) as u8)
    } else {
        Some(reference)
    }
}

/// A state whose references follow the removal of state `removed`: a handoff
/// to it falls back to the following state, a release to it returns to state zero.
pub open spec fn renumbered_state(state: DriveState, removed: u8) -> DriveState {
    DriveState {
        target: state.target,
        dwell: match state.dwell {
            Some(dwell) => Some(
                DriveDwell {
                    seconds: dwell.seconds,
                    next: match dwell.next {
                        Some(next) => renumber(next, removed),
                        None => None,
                    },
                },
            ),
            None => None,
        },
        trigger: match state.trigger {
            Some(trigger) => Some(
                DriveTrigger {
                    key: trigger.key,
                    release: match trigger.release {
                        DriveRelease::Latch => DriveRelease::Latch,
                        DriveRelease::RevertTo(target) => match renumber(target, removed) {
                            Some(kept) => DriveRelease::RevertTo(kept),
                            None => DriveRelease::RevertTo(0),
                        },
                    },
                },
            ),
            None => None,
        },
    }
}

/// The states that remain once state `removed` is gone.
pub open spec fn states_without(states: Seq<DriveState>, removed: u8) -> Seq<DriveState> {
    Seq::new(
        (states.len() - 1) as nat,
        |i: int|
            renumbered_state(
                if i < removed {
                    states[i]
                } else {
                    states[i + 1]
                },
                removed,
            ),
    )
}

/// Removing a state of a longer program leaves a program.
pub proof fn removal_keeps_programs_valid(states: Seq<DriveState>, removed: u8)
    requires
        program_fault(states) is None,
        removed < states.len(),
        states.len() > 1,
    ensures
        program_fault(states_without(states, removed)) is None,
{
    let kept = states_without(states, removed);
    lemma_no_fault(states, states.len() as int);
    assert forall|i: int| 0 <= i < kept.len() implies #[trigger] state_fault(kept, i) is None by {
        let at = if i < removed {
            i
        } else {
            i + 1
        };
        assert(state_fault(states, at) is None);
        assert(kept[i] == renumbered_state(states[at], removed));
        if kept[i].trigger is Some {
            let key = kept[i].trigger->0.key;
            assert forall|j: int| 0 <= j < i implies !#[trigger] bound_to(kept, j, key) by {
                let from = if j < removed {
                    j
                } else {
                    j + 1
                };
                assert(kept[j] == renumbered_state(states[from], removed));
                assert(!bound_to(states, from, key));
            }
        }
    }
    lemma_no_fault(kept, kept.len() as int);
}

/// Where the handoff of state `from` leads, if the program does not hold there.
pub open spec fn handoff(states: Seq<DriveState>, loops: bool, from: u8) -> Option<u8> {
    if from >= states.len() || states[from as int].dwell is None {
        None
    } else {
        match states[from as int].dwell->0.next {
            Some(next) => if next < states.len() {
                Some(next)
            } else {
                None
            },
            None => if from + 1 < states.len() {
                Some((from + 1) as u8)
            } else if loops {
                Some(0u8)
            } else {
                None
            },
        }
    }
}

/// A handoff stays inside the program.
pub proof fn handoffs_stay_inside(states: Seq<DriveState>, loops: bool, from: u8)
    requires
        states.len() > 0,
    ensures
        handoff(states, loops, from) is Some ==> handoff(states, loops, from)->0 < states.len(),
{
}

/// A key selects at most one state of a program.
pub proof fn keys_select_one_state(states: Seq<DriveState>, key: DriveKey, i: int, j: int)
    requires
        program_fault(states) is None,
        0 <= i < states.len(),
        0 <= j < states.len(),
        bound_to(states, i, key),
        bound_to(states, j, key),
    ensures
        i == j,
{
    lemma_no_fault(states, states.len() as int);
    if i < j {
        assert(state_fault(states, j) is None);
        assert(!bound_to(states, i, key));
    } else if j < i {
        assert(state_fault(states, i) is None);
        assert(!bound_to(states, j, key));
    }
}

impl DriveProgram {
    /// Where a reference points once state `removed` is gone.
    fn renumbered(reference: u8, removed: u8) -> (kept: Option<u8>)
        ensures
            kept == renumber(reference, removed),
    {
        if reference == removed {
            None
        } else if reference > removed {
            Some(reference - 1)
        } else {
            Some(reference)
        }
    }

    /// A state whose references follow the removal of state `removed`.
    fn follow_removal(state: DriveState, removed: u8) -> (kept: DriveState)
        ensures
            kept == renumbered_state(state, removed),
    {
        let dwell: Option<DriveDwell> = match state.dwell {
            Some(dwell) => {
                let next: Option<u8> = match dwell.next {
                    Some(next) => Self::renumbered(next, removed),
                    None => None,
                };
                Some(DriveDwell { seconds: dwell.seconds, next })
            },
            None => None,
        };
        let trigger: Option<DriveTrigger> = match state.trigger {
            Some(trigger) => {
                let release: DriveRelease = match trigger.release {
                    DriveRelease::Latch => DriveRelease::Latch,
                    DriveRelease::RevertTo(target) => match Self::renumbered(target, removed) {
                        Some(kept) => DriveRelease::RevertTo(kept),
                        None => DriveRelease::RevertTo(0),
                    },
                };
                Some(DriveTrigger { key: trigger.key, release })
            },
            None => None,
        };
        DriveState { target: state.target, dwell, trigger }
    }

    /// Removes a state and renumbers every reference to the states after it.
    ///
    /// A dwell that handed off to the removed state falls back to the following
    /// state, and a release that returned to it returns to state zero instead.
    pub fn with_removed_state(&self, index: u8) -> (program: Result<Self, DriveProgramError>)
        requires
            self.wf(),
        ensures
            index >= self@.len() ==> program == Err::<Self, DriveProgramError>(
                DriveProgramError::StateIndexOutOfRange(index),
            ),
            index < self@.len() && self@.len() == 1 ==> program == Err::<Self, DriveProgramError>(
                DriveProgramError::EmptyProgram,
            ),
            index < self@.len() && self@.len() > 1 ==> {
                &&& program is Ok
                &&& program->Ok_0.wf()
                &&& program->Ok_0@ == states_without(self@, index)
                &&& program->Ok_0.looping() == self.looping()
            },
    {
        if index >= self.len {
            return Err(DriveProgramError::StateIndexOutOfRange(index));
        }
        if self.len <= 1 {
            return Err(DriveProgramError::EmptyProgram);
        }
        let ghost before = self@;
        let count: usize = self.len as usize;
        let mut kept: Vec<DriveState> = Vec::new();
        let mut i: usize = 0;
        while i + 1 < count
            invariant
                self.wf(),
                before == self@,
                count == self.len == before.len(),
                1 < count <= 8,
                index < count,
                i < count,
                kept@ =~= states_without(before, index).subrange(0, i as int),
            decreases count - i,
        {
            let from: usize = if i < index as usize {
                i
            } else {
                i + 1
            };
            kept.push(Self::follow_removal(self.rows[from], index));
            assert(self.rows@[from as int] == before[from as int]);
            i += 1;
        }
        assert(kept@ =~= states_without(before, index));
        proof {
            removal_keeps_programs_valid(before, index);
        }
        Self::new(kept.as_slice(), self.loops)
    }

    /// State a dwell hands off to, or `None` when the program should hold.
    pub fn advanced_state(&self, from: u8) -> (next: Option<u8>)
        requires
            self.wf(),
        ensures
            next == handoff(self@, self.looping(), from),
    {
        let state: DriveState = match self.state(from) {
            Some(state) => state,
            None => {
                return None;
            },
        };
        let dwell: DriveDwell = match state.dwell {
            Some(dwell) => dwell,
            None => {
                return None;
            },
        };
        if let Some(next) = dwell.next {
            return if next < self.len {
                Some(next)
            } else {
                None
            };
        }
        let following: u8 = from + 1;
        if following < self.len {
            Some(following)
        } else if self.loops {
            Some(0)
        } else {
            None
        }
    }

    /// Lowest-indexed state bound to `key`.
    pub fn state_for_key(&self, key: DriveKey) -> (index: Option<u8>)
        requires
            self.wf(),
        ensures
            index is None <==> forall|i: int|
                0 <= i < self@.len() ==> !#[trigger] bound_to(self@, i, key),
            index is Some ==> {
                &&& index->0 < self@.len()
                &&& bound_to(self@, index->0 as int, key)
                &&& forall|i: int| 0 <= i < index->0 ==> !#[trigger] bound_to(self@, i, key)
            },
    {
        let mut i: u8 = 0;
        while i < self.len
            invariant
                self.wf(),
                i <= self.len == self@.len(),
                self.len <= 8,
                forall|j: int| 0 <= j < i ==> !#[trigger] bound_to(self@, j, key),
            decreases self.len - i,
        {
            let state: DriveState = self.rows[i as usize];
            assert(state == self@[i as int]);
            if let Some(trigger) = state.trigger {
                if trigger.key.same(key) {
                    assert(bound_to(self@, i as int, key));
                    return Some(i);
                }
            }
            i += 1;
        }
        None
    }
}

impl Default for DriveProgram {
    /// One state that stands still and holds.
    fn default() -> (program: Self)
        ensures
            program.wf(),
            program@ == seq![DriveState::still()],
            !program.looping(),
    {
        let still = DriveState {
            target: DriveTarget::Speed(Scalar::zero()),
            dwell: None,
            trigger: None,
        };
        let rows: [DriveState; 8] = [still, still, still, still, still, still, still, still];
        let program = DriveProgram { rows, len: 1, loops: false };
        assert(program@ =~= seq![DriveState::still()]);
        assert(state_fault(program@, 0) is None);
        assert(first_fault(program@, 0) is None);
        assert(first_fault(program@, 1) is None);
        program
    }
}

/// Speed, torque, and travel envelope of one driven bearing.
///
/// No state may exceed these; they are the physical capability of the joint,
/// while the program says what to do with it.
#[derive(Clone, Copy, Debug, PartialEq, Eq)]
pub struct DriveLimits {
    pub max_speed_rad_s: Scalar,
    pub max_torque_newton_meters: Scalar,
    pub angle_limits: Option<(Scalar, Scalar)>,
}

/// Whether an angle limit lies within one full turn.
pub open spec fn limit_in_range(limit: Scalar) -> bool {
    limit.finite() && limit.magnitude() <= MAX_DRIVE_LIMIT_RADIANS
}

/// Why an envelope is refused, if it is: its speed, then its torque, then its travel.
pub open spec fn limits_fault(
    speed: Scalar,
    torque: Scalar,
    travel: Option<(Scalar, Scalar)>,
) -> Option<DriveLimitsError> {
    if !(speed.finite() && 0 < speed.key() <= MAX_DRIVE_SPEED_RAD_S) {
        Some(DriveLimitsError::SpeedOutOfRange)
    } else if torque.nan() || torque.key() <= 0 {
        Some(DriveLimitsError::NonPositiveTorque)
    } else if travel matches Some((low, high)) && !(limit_in_range(low) && limit_in_range(high)) {
        Some(DriveLimitsError::LimitOutOfRange)
    } else if travel matches Some((low, high)) && low.key() >= high.key() {
        Some(DriveLimitsError::InvertedLimits)
    } else {
        None
    }
}

impl DriveLimits {
    /// The values make an envelope.
    pub open spec fn wf(self) -> bool {
        limits_fault(self.max_speed_rad_s, self.max_torque_newton_meters, self.angle_limits) is None
    }

    /// What checking an envelope gives.
    pub open spec fn checked(
        speed: Scalar,
        torque: Scalar,
        travel: Option<(Scalar, Scalar)>,
    ) -> Result<Self, DriveLimitsError> {
        match limits_fault(speed, torque, travel) {
            Some(error) => Err(error),
            None => Ok(
                DriveLimits {
                    max_speed_rad_s: speed,
                    max_torque_newton_meters: torque,
                    angle_limits: travel,
                },
            ),
        }
    }

    /// Creates validated limits.
    pub fn new(
        max_speed_rad_s: Scalar,
        max_torque_newton_meters: Scalar,
        angle_limits: Option<(Scalar, Scalar)>,
    ) -> (limits: Result<Self, DriveLimitsError>)
        ensures
            limits == Self::checked(max_speed_rad_s, max_torque_newton_meters, angle_limits),
    {
        let fastest = Scalar::from_bits(MAX_DRIVE_SPEED_RAD_S);
        if !max_speed_rad_s.is_finite() || max_speed_rad_s.less_or_equal(Scalar::zero())
            || fastest.less(max_speed_rad_s) {
            return Err(DriveLimitsError::SpeedOutOfRange);
        }
        if max_torque_newton_meters.is_nan() || max_torque_newton_meters.less_or_equal(
            Scalar::zero(),
        ) {
            return Err(DriveLimitsError::NonPositiveTorque);
        }
        if let Some((minimum, maximum)) = angle_limits {
            if !minimum.is_finite() || !maximum.is_finite() || minimum.absolute().bits
                > MAX_DRIVE_LIMIT_RADIANS || maximum.absolute().bits > MAX_DRIVE_LIMIT_RADIANS {
                return Err(DriveLimitsError::LimitOutOfRange);
            }
            if maximum.less_or_equal(minimum) {
                return Err(DriveLimitsError::InvertedLimits);
            }
        }
        Ok(DriveLimits { max_speed_rad_s, max_torque_newton_meters, angle_limits })
    }

    /// Fastest the bearing may turn, in radians per second.
    pub fn max_speed_rad_s(self) -> (speed: Scalar)
        ensures
            speed == self.max_speed_rad_s,
    {
        self.max_speed_rad_s
    }

    /// Maximum applied torque in newton metres. Infinite means unlimited.
    pub fn max_torque_newton_meters(self) -> (torque: Scalar)
        ensures
            torque == self.max_torque_newton_meters,
    {
        self.max_torque_newton_meters
    }

    /// Travel limits in radians, when the bearing stops and holds at its ends.
    pub fn angle_limits(self) -> (limits: Option<(Scalar, Scalar)>)
        ensures
            limits == self.angle_limits,
    {
        self.angle_limits
    }

    /// Lower travel limit, or negative infinity when the bearing is free.
    pub fn min_angle(self) -> (angle: Scalar)
        ensures
            angle == (match self.angle_limits {
                Some(limits) => limits.0,
                None => Scalar::negative_infinity(),
            }),
    {
        match self.angle_limits {
            Some((minimum, _)) => minimum,
            None => Scalar::negative_infinity(),
        }
    }

    /// Upper travel limit, or positive infinity when the bearing is free.
    pub fn max_angle(self) -> (angle: Scalar)
        ensures
            angle == (match self.angle_limits {
                Some(limits) => limits.1,
                None => Scalar::infinity(),
            }),
    {
        match self.angle_limits {
            Some((_, maximum)) => maximum,
            None => Scalar::infinity(),
        }
    }

    /// Applies a validated maximum speed.
    pub fn with_max_speed(self, max_speed_rad_s: Scalar) -> (limits: Result<
        Self,
        DriveLimitsError,
    >)
        ensures
            limits == Self::checked(
                max_speed_rad_s,
                self.max_torque_newton_meters,
                self.angle_limits,
            ),
    {
        Self::new(max_speed_rad_s, self.max_torque_newton_meters, self.angle_limits)
    }

    /// Applies a validated maximum torque.
    pub fn with_max_torque(self, max_torque_newton_meters: Scalar) -> (limits: Result<
        Self,
        DriveLimitsError,
    >)
        ensures
            limits == Self::checked(
                self.max_speed_rad_s,
                max_torque_newton_meters,
                self.angle_limits,
            ),
    {
        Self::new(self.max_speed_rad_s, max_torque_newton_meters, self.angle_limits)
    }

    /// Applies validated travel limits, or removes them.
    pub fn with_angle_limits(self, angle_limits: Option<(Scalar, Scalar)>) -> (limits: Result<
        Self,
        DriveLimitsError,
    >)
        ensures
            limits == Self::checked(
                self.max_speed_rad_s,
                self.max_torque_newton_meters,
                angle_limits,
            ),
    {
        Self::new(self.max_speed_rad_s, self.max_torque_newton_meters, angle_limits)
    }
}

impl Default for DriveLimits {
    /// Three radians per second, unlimited torque, free travel.
    fn default() -> (limits: Self)
        ensures
            limits.wf(),
            limits == (DriveLimits {
                max_speed_rad_s: Scalar { bits: DEFAULT_MAX_SPEED_RAD_S },
                max_torque_newton_meters: Scalar::infinity(),
                angle_limits: None,
            }),
    {
        DriveLimits {
            max_speed_rad_s: Scalar::from_bits(DEFAULT_MAX_SPEED_RAD_S),
            max_torque_newton_meters: Scalar::infinity(),
            angle_limits: None,
        }
    }
}

/// A fault among the first states is the first fault of them all.
proof fn lemma_fault_stays(states: Seq<DriveState>, short: int, long: int)
    requires
        0 <= short <= long,
        first_fault(states, short) is Some,
    ensures
        first_fault(states, long) == first_fault(states, short),
    decreases long - short,
{
    if short < long {
        lemma_fault_stays(states, short, long - 1);
    }
}

/// Where a program that starts in state zero stands after that many handoffs.
pub open spec fn entered(states: Seq<DriveState>, loops: bool, steps: nat) -> Option<u8>
    decreases steps,
{
    if steps == 0 {
        Some(0u8)
    } else {
        match entered(states, loops, (steps - 1) as nat) {
            Some(from) => handoff(states, loops, from),
            None => None,
        }
    }
}

/// A dwell that names no state hands off to the state whose index is one more;
/// from the last state it goes back to the first if the program loops, and
/// holds if it does not. A dwell that names a state hands off to that one, and
/// a state without a dwell holds.
pub proof fn handoffs_go_where_they_say(states: Seq<DriveState>, loops: bool, from: u8)
    requires
        0 < states.len() <= 255,
    ensures
        from < states.len() && states[from as int].dwell is Some ==> {
            let dwell = states[from as int].dwell->0;
            let to = handoff(states, loops, from);
            &&& dwell.next is None && from < states.len() - 1 ==> to is Some && to->0 - from == 1
            &&& dwell.next is None && from == states.len() - 1 && loops ==> to is Some && to->0
                == 0
            &&& dwell.next is None && from == states.len() - 1 && !loops ==> to is None
            &&& dwell.next matches Some(named) ==> named < states.len() ==> to == Some(named)
            &&& dwell.next matches Some(named) ==> named >= states.len() ==> to is None
        },
        from >= states.len() ==> handoff(states, loops, from) is None,
        from < states.len() && states[from as int].dwell is None ==> handoff(states, loops, from)
            is None,
{
}

/// A program whose dwells name no state enters every state, one after the
/// other, and then starts over or holds.
pub proof fn programs_run_in_order(states: Seq<DriveState>, loops: bool, steps: nat)
    requires
        0 < states.len() <= 255,
        forall|i: int|
            #![trigger states[i]]
            0 <= i < states.len() ==> states[i].dwell is Some && states[i].dwell->0.next is None,
    ensures
        steps < states.len() ==> entered(states, loops, steps) == Some(steps as u8),
        steps == states.len() ==> entered(states, loops, steps) == (if loops {
            Some(0u8)
        } else {
            None
        }),
    decreases steps,
{
    if steps > 0 && steps <= states.len() {
        programs_run_in_order(states, loops, (steps - 1) as nat);
        assert(states[steps - 1].dwell is Some);
        handoffs_go_where_they_say(states, loops, (steps - 1) as u8);
    }
}

/// A number between zero and one that is encoded lies within a magnitude as its
/// value does.
proof fn lemma_within(number: Scalar, most: u32)
    requires
        number.finite(),
        most < INFINITY_BITS,
    ensures
        number.magnitude() <= most <==> -coded(most) <= number.units()
            <= coded(most),
        number.key() <= most <==> number.units() <= coded(most),
        0 < number.key() <==> 0 < number.units(),
{
    let bound = Scalar { bits: most };
    signs_are_those_of_values(bound);
    signs_are_those_of_values(number);
    numbers_compare_as_their_values(number, bound);
    numbers_compare_as_their_values(bound.opposite(), number);
    numbers_compare_as_their_values(Scalar::zero(), number);
}

/// What the documented bounds are worth: 25 radians a second, one turn in
/// radians, ten minutes, and three radians a second.
proof fn lemma_drive_bounds()
    ensures
        encodes(MAX_DRIVE_SPEED_RAD_S, 25, 1),
        rounds(MAX_DRIVE_LIMIT_RADIANS, 6_283_185_307_179_586, 1_000_000_000_000_000),
        encodes(MAX_DRIVE_DWELL_SECONDS, 600, 1),
        encodes(DEFAULT_MAX_SPEED_RAD_S, 3, 1),
{
    lemma2_to64();
    assert(0x41C8_0000int / 0x80_0000 == 131 && 0x41C8_0000int % 0x80_0000 == 0x48_0000);
    lemma_encoded(MAX_DRIVE_SPEED_RAD_S, 25, 1, 19);
    assert(0x40C9_0FDBint / 0x80_0000 == 129 && 0x40C9_0FDBint % 0x80_0000 == 0x49_0FDB);
    lemma_encoded(
        MAX_DRIVE_LIMIT_RADIANS,
        6_283_185_307_179_586,
        1_000_000_000_000_000,
        21,
    );
    assert(0x4416_0000int / 0x80_0000 == 136 && 0x4416_0000int % 0x80_0000 == 0x16_0000);
    lemma_encoded(MAX_DRIVE_DWELL_SECONDS, 600, 1, 14);
    assert(0x4040_0000int / 0x80_0000 == 128 && 0x4040_0000int % 0x80_0000 == 0x40_0000);
    lemma_encoded(DEFAULT_MAX_SPEED_RAD_S, 3, 1, 22);
}

/// A target is accepted when it is finite and, either way, no faster than 25
/// radians a second or no further than one full turn; otherwise the error says
/// what is wrong with it.
pub proof fn targets_are_accepted_within_their_range(target: DriveTarget)
    ensures
        !target.value().finite() ==> target.fault() == Some(DriveProgramError::NonFiniteTarget),
        target.value().finite() && target is Speed ==> target.fault() == (if -25 * units_of_one()
            <= target.value().units() <= 25 * units_of_one() {
            None
        } else {
            Some(DriveProgramError::SpeedOutOfRange)
        }),
        target.value().finite() && target is Angle ==> {
            let turn = coded(MAX_DRIVE_LIMIT_RADIANS);
            target.fault() == (if -turn <= target.value().units() <= turn {
                None
            } else {
                Some(DriveProgramError::AngleOutOfRange)
            })
        },
        rounds(MAX_DRIVE_LIMIT_RADIANS, 6_283_185_307_179_586, 1_000_000_000_000_000),
{
    lemma_drive_bounds();
    if target.value().finite() {
        lemma_within(target.value(), MAX_DRIVE_SPEED_RAD_S);
        lemma_within(target.value(), MAX_DRIVE_LIMIT_RADIANS);
    }
}

/// A reversed target asks for the opposite of the same thing.
pub proof fn reversed_targets_ask_for_the_opposite(target: DriveTarget)
    requires
        target.value().finite(),
    ensures
        target.flipped() is Speed <==> target is Speed,
        target.flipped().value().units() == -target.value().units(),
{
    signs_are_those_of_values(target.value());
}

/// A dwell lasts longer than nothing and no longer than ten minutes.
pub proof fn dwells_last_up_to_ten_minutes(seconds: Scalar)
    ensures
        dwell_in_range(seconds) <==> seconds.finite() && 0 < seconds.units() <= 600
            * units_of_one(),
{
    lemma_drive_bounds();
    if seconds.finite() {
        lemma_within(seconds, MAX_DRIVE_DWELL_SECONDS);
    }
}

/// An envelope is accepted when its speed is above nothing and at most 25
/// radians a second, its torque above nothing, and its travel, if it has any,
/// runs upwards within one turn either way. An error tells which of them failed.
pub proof fn envelopes_are_accepted_within_their_range(
    speed: Scalar,
    torque: Scalar,
    travel: Option<(Scalar, Scalar)>,
)
    ensures
        ({
            let turn = coded(MAX_DRIVE_LIMIT_RADIANS);
            let fast = speed.finite() && 0 < speed.units() <= 25 * units_of_one();
            let strong = torque == Scalar::infinity() || (torque.finite() && 0 < torque.units());
            let reach = travel matches Some((low, high)) ==> low.finite() && high.finite() && -turn
                <= low.units() <= turn && -turn <= high.units() <= turn;
            let upward = travel matches Some((low, high)) ==> low.units() < high.units();
            let checked = DriveLimits::checked(speed, torque, travel);
            &&& checked is Ok <==> fast && strong && reach && upward
            &&& checked is Ok ==> checked->Ok_0.max_speed_rad_s == speed
                && checked->Ok_0.max_torque_newton_meters == torque && checked->Ok_0.angle_limits
                == travel
            &&& checked == Err::<DriveLimits, DriveLimitsError>(DriveLimitsError::SpeedOutOfRange)
                <==> !fast
            &&& checked == Err::<DriveLimits, DriveLimitsError>(DriveLimitsError::NonPositiveTorque)
                <==> fast && !strong
            &&& checked == Err::<DriveLimits, DriveLimitsError>(DriveLimitsError::LimitOutOfRange)
                <==> fast && strong && !reach
            &&& checked == Err::<DriveLimits, DriveLimitsError>(DriveLimitsError::InvertedLimits)
                <==> fast && strong && reach && !upward
        }),
        encodes(DEFAULT_MAX_SPEED_RAD_S, 3, 1),
{
    lemma_drive_bounds();
    if speed.finite() {
        lemma_within(speed, MAX_DRIVE_SPEED_RAD_S);
    }
    if torque.finite() {
        lemma_within(torque, MAX_DRIVE_SPEED_RAD_S);
    }
    if let Some((low, high)) = travel {
        if low.finite() && high.finite() {
            lemma_within(low, MAX_DRIVE_LIMIT_RADIANS);
            lemma_within(high, MAX_DRIVE_LIMIT_RADIANS);
            numbers_compare_as_their_values(low, high);
        }
    }
}

/// States make a program when there are one to eight of them, each asks for
/// something in range, lasts a while, names only states that exist, and has a
/// key to itself.
pub proof fn programs_are_one_to_eight_sound_states(states: Seq<DriveState>)
    ensures
        program_fault(states) is None <==> {
            &&& 1 <= states.len() <= 8
            &&& forall|i: int| #![trigger states[i]]
                0 <= i < states.len() ==> {
                    &&& states[i].target.fault() is None
                    &&& states[i].dwell matches Some(dwell) ==> dwell_in_range(dwell.seconds) && (
                    dwell.next matches Some(next) ==> next < states.len())
                    &&& states[i].trigger matches Some(trigger) ==> trigger.release
                        matches DriveRelease::RevertTo(back) ==> back < states.len()
                }
            &&& forall|i: int, j: int|
                #![trigger states[i], states[j]]
                0 <= i < j < states.len() && states[i].trigger is Some && states[j].trigger is Some
                    ==> states[i].trigger->0.key != states[j].trigger->0.key
        },
        program_fault(states) == Some(DriveProgramError::EmptyProgram) <==> states.len() == 0,
        program_fault(states) == Some(DriveProgramError::TooManyStates) <==> states.len() > 8,
{
    if 1 <= states.len() <= 8 {
        lemma_no_fault(states, states.len() as int);
        lemma_state_errors(states, states.len() as int);
        if program_fault(states) is None {
            assert forall|i: int| #![trigger states[i]] 0 <= i < states.len() implies {
                &&& states[i].target.fault() is None
                &&& states[i].dwell matches Some(dwell) ==> dwell_in_range(dwell.seconds) && (
                dwell.next matches Some(next) ==> next < states.len())
                &&& states[i].trigger matches Some(trigger) ==> trigger.release
                    matches DriveRelease::RevertTo(back) ==> back < states.len()
            } by {
                assert(state_fault(states, i) is None);
            }
            assert forall|i: int, j: int|
                #![trigger states[i], states[j]]
                0 <= i < j < states.len() && states[i].trigger is Some && states[j].trigger
                    is Some implies states[i].trigger->0.key != states[j].trigger->0.key by {
                assert(state_fault(states, j) is None);
                assert(!bound_to(states, i, states[j].trigger->0.key));
            }
        } else {
            let i = choose|i: int|
                0 <= i < states.len() && (#[trigger] state_fault(states, i)) is Some;
            let state = states[i];
            if state.trigger is Some && (exists|j: int|
                0 <= j < i && #[trigger] bound_to(states, j, state.trigger->0.key)) {
                let j = choose|j: int|
                    0 <= j < i && #[trigger] bound_to(states, j, state.trigger->0.key);
                assert(states[j].trigger is Some);
            }
        }
    }
}

/// A state is never refused for the number of states.
proof fn lemma_state_errors(states: Seq<DriveState>, count: int)
    ensures
        first_fault(states, count) != Some(DriveProgramError::EmptyProgram),
        first_fault(states, count) != Some(DriveProgramError::TooManyStates),
    decreases count,
{
    if count > 0 {
        lemma_state_errors(states, count - 1);
    }
}

/// The first state that is refused is what a program is refused for: nothing
/// before it is at fault.
pub proof fn programs_are_refused_for_their_first_fault(states: Seq<DriveState>, i: int)
    requires
        1 <= states.len() <= 8,
        0 <= i < states.len(),
        state_fault(states, i) is Some,
        forall|j: int| 0 <= j < i ==> #[trigger] state_fault(states, j) is None,
    ensures
        program_fault(states) == state_fault(states, i),
{
    lemma_no_fault(states, i);
    assert(first_fault(states, i + 1) == state_fault(states, i));
    lemma_fault_stays(states, i + 1, states.len() as int);
}

/// A state's error tells what is wrong with it.
pub proof fn state_errors_tell_what_is_wrong(states: Seq<DriveState>, i: int)
    requires
        0 <= i < states.len(),
    ensures
        state_fault(states, i) matches Some(error) ==> match error {
            DriveProgramError::StateIndexOutOfRange(named) => named >= states.len() && ((
            states[i].dwell is Some && states[i].dwell->0.next == Some(named)) || (states[i].trigger
                is Some && states[i].trigger->0.release == DriveRelease::RevertTo(named))),
            DriveProgramError::DwellOutOfRange => states[i].dwell is Some && !dwell_in_range(
                states[i].dwell->0.seconds,
            ),
            DriveProgramError::DuplicateKey(key) => states[i].trigger is Some
                && states[i].trigger->0.key == key && exists|j: int|
                #![trigger states[j]]
                0 <= j < i && states[j].trigger is Some && states[j].trigger->0.key == key,
            _ => states[i].target.fault() == Some(error),
        },
{
    let state = states[i];
    if state.trigger is Some && (exists|j: int|
        0 <= j < i && #[trigger] bound_to(states, j, state.trigger->0.key)) {
        let j = choose|j: int| 0 <= j < i && #[trigger] bound_to(states, j, state.trigger->0.key);
        assert(states[j].trigger is Some);
    }
}

/// Removing a state leaves the others as they were and in order: what a
/// surviving state asks for, how long it lasts and its key stay, a reference to
/// a surviving state still names that state, a handoff to the removed one goes
/// on to the following state, and a release to it goes back to state zero.
pub proof fn removal_keeps_what_references_name(states: Seq<DriveState>, removed: u8, i: int, j: int)
    requires
        program_fault(states) is None,
        removed < states.len(),
        0 <= i < states.len(),
        0 <= j < states.len(),
        i != removed,
        j != removed,
    ensures
        ({
            let kept = states_without(states, removed);
            let at = if i > removed { i - 1 } else { i };
            let to = if j > removed { j - 1 } else { j };
            &&& kept.len() + 1 == states.len()
            &&& 0 <= at < kept.len()
            &&& i < j <==> at < to
            &&& kept[at].target == states[i].target
            &&& kept[at].dwell is Some <==> states[i].dwell is Some
            &&& kept[at].trigger is Some <==> states[i].trigger is Some
            &&& states[i].dwell matches Some(dwell) ==> {
                &&& kept[at].dwell->0.seconds == dwell.seconds
                &&& dwell.next is None ==> kept[at].dwell->0.next is None
                &&& dwell.next == Some(removed) ==> kept[at].dwell->0.next is None
                &&& dwell.next == Some(j as u8) ==> kept[at].dwell->0.next == Some(to as u8)
            }
            &&& states[i].trigger matches Some(trigger) ==> {
                &&& kept[at].trigger->0.key == trigger.key
                &&& trigger.release is Latch ==> kept[at].trigger->0.release is Latch
                &&& trigger.release == DriveRelease::RevertTo(removed)
                    ==> kept[at].trigger->0.release == DriveRelease::RevertTo(0)
                &&& trigger.release == DriveRelease::RevertTo(j as u8)
                    ==> kept[at].trigger->0.release == DriveRelease::RevertTo(to as u8)
            }
        }),
{
    programs_are_one_to_eight_sound_states(states);
}

/// Letters and digits name keys, and nothing else does. Both cases of a letter
/// name one key, the one of its uppercase form; any two other symbols name two.
pub proof fn letters_and_digits_name_keys(a: char, b: char)
    ensures
        key_code(a) is Some <==> ('A' <= a <= 'Z' || 'a' <= a <= 'z' || '0' <= a <= '9'),
        'A' <= a <= 'Z' || '0' <= a <= '9' ==> key_code(a) == Some(a as int),
        'a' <= a <= 'z' && 'A' <= b <= 'Z' ==> (key_code(a) == key_code(b) <==> a as int - 'a' as int
            == b as int - 'A' as int),
        'a' <= a <= 'z' && 'a' <= b <= 'z' && key_code(a) == key_code(b) ==> a == b,
        key_code(a) is Some && '0' <= b <= '9' && key_code(a) == key_code(b) ==> a == b,
{
}

} // verus!
