//! Drive programs, triggers and limits.

use mechanic_core::drive::{
    DriveDwell, DriveKey, DriveLimits, DriveLimitsError, DriveProgram, DriveProgramError,
    DriveRelease, DriveState, DriveTarget, DriveTrigger, MAX_DRIVE_STATES,
};
use mechanic_core::scalar::Scalar;

fn number(value: f32) -> Scalar {
    Scalar::from_bits(value.to_bits())
}

fn value(number: Scalar) -> f32 {
    f32::from_bits(number.to_bits())
}

fn key(symbol: char) -> DriveKey {
    DriveKey::new(symbol).expect("test keys are letters or digits")
}

fn angle_state(degrees: f32) -> DriveState {
    DriveState::new(DriveTarget::Angle(number(degrees.to_radians())))
        .expect("test angle is in range")
}

#[test]
fn drive_keys_accept_letters_and_digits_and_fold_case() {
    assert_eq!(DriveKey::new('a').map(DriveKey::symbol), Some('A'));
    assert_eq!(DriveKey::new('W').map(DriveKey::symbol), Some('W'));
    assert_eq!(DriveKey::new('7').map(DriveKey::symbol), Some('7'));
    assert_eq!(DriveKey::new('-'), None);
    assert_eq!(DriveKey::new(' '), None);
}

#[test]
fn programs_reject_out_of_range_targets_dwells_and_state_references() {
    assert_eq!(
        DriveProgram::new(&[], false).err(),
        Some(DriveProgramError::EmptyProgram)
    );
    assert_eq!(
        DriveProgram::new(&[DriveState::default(); MAX_DRIVE_STATES + 1], false).err(),
        Some(DriveProgramError::TooManyStates)
    );
    assert_eq!(
        DriveState::new(DriveTarget::Speed(number(f32::NAN))),
        Err(DriveProgramError::NonFiniteTarget)
    );
    assert_eq!(
        DriveState::new(DriveTarget::Speed(number(25.5))),
        Err(DriveProgramError::SpeedOutOfRange)
    );
    assert_eq!(
        DriveState::new(DriveTarget::Angle(number(10.0))),
        Err(DriveProgramError::AngleOutOfRange)
    );
    assert_eq!(
        DriveDwell::new(number(0.0), None),
        Err(DriveProgramError::DwellOutOfRange)
    );

    let dangling = angle_state(0.0).with_dwell(Some(
        DriveDwell::new(number(1.0), Some(3)).expect("dwell time is in range"),
    ));
    assert_eq!(
        DriveProgram::new(&[dangling], false).err(),
        Some(DriveProgramError::StateIndexOutOfRange(3))
    );

    let reverting =
        angle_state(0.0).with_trigger(Some(DriveTrigger::new(key('A'), DriveRelease::RevertTo(2))));
    assert_eq!(
        DriveProgram::new(&[reverting], false).err(),
        Some(DriveProgramError::StateIndexOutOfRange(2))
    );
}

#[test]
fn one_key_may_drive_many_bearings_but_not_two_states_of_one_bearing() {
    let first =
        angle_state(0.0).with_trigger(Some(DriveTrigger::new(key('A'), DriveRelease::Latch)));
    let second =
        angle_state(30.0).with_trigger(Some(DriveTrigger::new(key('A'), DriveRelease::Latch)));

    assert_eq!(
        DriveProgram::new(&[first, second], false).err(),
        Some(DriveProgramError::DuplicateKey(key('A')))
    );

    // The same key in two separate programs is exactly how one key steers a
    // whole axle, so both must build.
    assert!(DriveProgram::new(&[first], false).is_ok());
    assert!(DriveProgram::new(&[second], false).is_ok());
}

#[test]
fn dwell_advances_to_its_named_state_then_to_the_following_one() {
    let dwell_to_third = angle_state(90.0).with_dwell(Some(
        DriveDwell::new(number(2.0), Some(2)).expect("dwell time is in range"),
    ));
    let dwell_to_second = angle_state(-90.0).with_dwell(Some(
        DriveDwell::new(number(4.0), Some(1)).expect("dwell time is in range"),
    ));
    let program = DriveProgram::new(&[angle_state(0.0), dwell_to_third, dwell_to_second], false)
        .expect("procedure program is valid");

    assert_eq!(program.advanced_state(0), None, "state 0 has no dwell");
    assert_eq!(program.advanced_state(1), Some(2));
    assert_eq!(program.advanced_state(2), Some(1));
    assert_eq!(program.advanced_state(7), None, "index outside the program");
}

#[test]
fn a_dwell_without_a_target_follows_the_program_and_wraps_only_when_it_loops() {
    let timed = |seconds: f32| {
        angle_state(0.0).with_dwell(Some(
            DriveDwell::new(number(seconds), None).expect("dwell time is in range"),
        ))
    };
    let states = [timed(1.0), timed(1.0)];

    let once = DriveProgram::new(&states, false).expect("program is valid");
    assert_eq!(once.advanced_state(0), Some(1));
    assert_eq!(once.advanced_state(1), None, "the last state holds");

    let looping = DriveProgram::new(&states, true).expect("program is valid");
    assert_eq!(looping.advanced_state(1), Some(0));
}

#[test]
fn removing_a_state_renumbers_every_reference_to_the_states_after_it() {
    let hold = angle_state(0.0);
    let middle = angle_state(30.0).with_dwell(Some(
        DriveDwell::new(number(1.0), Some(2)).expect("dwell time is in range"),
    ));
    let last = angle_state(60.0)
        .with_trigger(Some(DriveTrigger::new(key('D'), DriveRelease::RevertTo(2))))
        .with_dwell(Some(
            DriveDwell::new(number(1.0), Some(0)).expect("dwell time is in range"),
        ));
    let program = DriveProgram::new(&[hold, middle, last], false).expect("program is valid");

    // Drop the middle state: the release that pointed at state 2 now points at
    // the index that state took.
    let trimmed = program
        .with_removed_state(1)
        .expect("a two-state program survives a removal");
    assert_eq!(trimmed.len(), 2);
    let survivor = trimmed.state(1).expect("the last state survives");
    assert_eq!(
        survivor.trigger().map(DriveTrigger::release),
        Some(DriveRelease::RevertTo(1)),
    );
    assert_eq!(survivor.dwell().and_then(DriveDwell::next), Some(0));

    let single = DriveProgram::default();
    assert_eq!(
        single.with_removed_state(0).err(),
        Some(DriveProgramError::EmptyProgram)
    );
}

#[test]
fn a_dwell_on_a_removed_state_follows_on_and_a_release_returns_to_the_first() {
    let pointing = angle_state(30.0)
        .with_dwell(Some(
            DriveDwell::new(number(1.0), Some(1)).expect("dwell time is in range"),
        ))
        .with_trigger(Some(DriveTrigger::new(key('D'), DriveRelease::RevertTo(1))));
    let program =
        DriveProgram::new(&[pointing, angle_state(60.0)], false).expect("program is valid");
    let trimmed = program.with_removed_state(1).expect("one state is left");
    assert_eq!(trimmed.len(), 1);
    let left = trimmed.state(0).expect("one state is left");
    assert_eq!(left.dwell().map(DriveDwell::next), Some(None));
    assert_eq!(
        left.trigger().map(DriveTrigger::release),
        Some(DriveRelease::RevertTo(0))
    );
    assert_eq!(
        program.with_removed_state(2).err(),
        Some(DriveProgramError::StateIndexOutOfRange(2))
    );
}

#[test]
fn state_lookup_by_key_finds_the_bound_state() {
    let latched = |degrees: f32, symbol: char| {
        angle_state(degrees)
            .with_trigger(Some(DriveTrigger::new(key(symbol), DriveRelease::Latch)))
    };
    let program = DriveProgram::new(
        &[latched(30.0, 'Q'), latched(40.0, 'W'), latched(80.0, 'E')],
        false,
    )
    .expect("arm program is valid");

    assert_eq!(program.state_for_key(key('Q')), Some(0));
    assert_eq!(program.state_for_key(key('E')), Some(2));
    assert_eq!(program.state_for_key(key('Z')), None);
}

#[test]
fn drive_limits_validate_speed_torque_and_limit_ordering() {
    let default = DriveLimits::default();
    assert!((value(default.max_speed_rad_s()) - 3.0).abs() < f32::EPSILON);
    assert!(value(default.max_torque_newton_meters()).is_infinite());
    assert!(value(default.min_angle()).is_infinite() && value(default.min_angle()) < 0.0);
    assert!(value(default.max_angle()).is_infinite() && value(default.max_angle()) > 0.0);

    assert_eq!(
        DriveLimits::new(number(0.0), number(1.0), None),
        Err(DriveLimitsError::SpeedOutOfRange)
    );
    assert_eq!(
        DriveLimits::new(number(25.5), number(1.0), None),
        Err(DriveLimitsError::SpeedOutOfRange)
    );
    assert_eq!(
        DriveLimits::new(number(1.0), number(0.0), None),
        Err(DriveLimitsError::NonPositiveTorque)
    );
    assert_eq!(
        DriveLimits::new(
            number(1.0),
            number(1.0),
            Some((number(0.0), number(f32::INFINITY)))
        ),
        Err(DriveLimitsError::LimitOutOfRange)
    );
    assert_eq!(
        DriveLimits::new(number(1.0), number(1.0), Some((number(1.0), number(1.0)))),
        Err(DriveLimitsError::InvertedLimits)
    );

    let limited = DriveLimits::new(
        number(2.5),
        number(40.0),
        Some((number(-1.0), number(2.0))),
    )
    .expect("limits are valid");
    assert!((value(limited.min_angle()) + 1.0).abs() < f32::EPSILON);
    assert!((value(limited.max_angle()) - 2.0).abs() < f32::EPSILON);
    assert!(limited.with_angle_limits(None).is_ok());
    assert_eq!(
        limited.with_max_torque(number(-1.0)),
        Err(DriveLimitsError::NonPositiveTorque)
    );
}

#[test]
fn reversing_a_target_negates_it_and_undoes_itself() {
    let target = DriveTarget::Speed(number(2.5));
    assert_eq!(target.reversed(), DriveTarget::Speed(number(-2.5)));
    assert_eq!(target.reversed().reversed(), target);
    assert_eq!(DriveTarget::Angle(number(1.0)).angle(), Some(number(1.0)));
    assert_eq!(DriveTarget::Angle(number(1.0)).speed(), None);
}

#[test]
fn numbers_compare_as_floating_point_does() {
    let samples = [
        0.0,
        -0.0,
        1.0,
        -1.0,
        0.25,
        f32::MIN_POSITIVE,
        f32::INFINITY,
        f32::NEG_INFINITY,
        f32::NAN,
    ];
    for a in samples {
        assert_eq!(number(a).is_finite(), a.is_finite());
        assert_eq!(number(a).is_nan(), a.is_nan());
        assert_eq!(number(a).negated().to_bits(), (-a).to_bits());
        assert_eq!(number(a).absolute().to_bits(), a.abs().to_bits());
        for b in samples {
            assert_eq!(number(a).less(number(b)), a < b);
            assert_eq!(number(a).less_or_equal(number(b)), a <= b);
            assert_eq!(number(a).equal(number(b)), a == b);
            assert_eq!(
                number(a).total_less_or_equal(number(b)),
                a.total_cmp(&b).is_le()
            );
        }
    }
}

#[test]
fn programs_are_edited_one_state_at_a_time() {
    let program = DriveProgram::new(&[angle_state(10.0), angle_state(20.0)], false).unwrap();
    assert!(!program.loops());
    let looping = program.with_loops(true);
    assert!(looping.loops());
    assert_eq!(looping.states(), program.states());
    let replaced = program.with_state(1, angle_state(30.0)).unwrap();
    assert_eq!(replaced.states(), [angle_state(10.0), angle_state(30.0)]);
    assert_eq!(
        program.with_state(2, angle_state(30.0)).err(),
        Some(DriveProgramError::StateIndexOutOfRange(2))
    );
    let mut longer = program;
    for _ in 2..MAX_DRIVE_STATES {
        longer = longer.with_pushed_state(angle_state(5.0)).unwrap();
    }
    assert_eq!(longer.states().len(), MAX_DRIVE_STATES);
    assert_eq!(
        longer.with_pushed_state(angle_state(5.0)).err(),
        Some(DriveProgramError::TooManyStates)
    );
}

#[test]
fn states_and_envelopes_check_what_replaces_a_value() {
    let state = angle_state(10.0)
        .with_target(DriveTarget::Speed(number(2.0)))
        .unwrap();
    assert_eq!(state.target(), DriveTarget::Speed(number(2.0)));
    assert_eq!(
        angle_state(10.0)
            .with_target(DriveTarget::Speed(number(25.5)))
            .err(),
        Some(DriveProgramError::SpeedOutOfRange)
    );
    let limits = DriveLimits::default();
    let faster = limits.with_max_speed(number(25.0)).unwrap();
    assert_eq!(faster.max_speed_rad_s(), number(25.0));
    assert_eq!(
        limits.with_max_speed(number(0.0)).err(),
        Some(DriveLimitsError::SpeedOutOfRange)
    );
}
