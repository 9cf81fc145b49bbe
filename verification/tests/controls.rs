//! Gearboxes, appearances and controller keys.

use mechanic_core::appearance::{
    AppearanceError, MaterialAppearance, MaterialColor, MaterialDye, MaterialFinish, MaterialShift,
};
use mechanic_core::controller_input::{ControllerKey, ControllerKeys};
use mechanic_core::drive::DriveKey;
use mechanic_core::gearbox::{
    widest_gap, GearKey, GearKeyChord, GearboxConfig, GearboxError, ShiftMode, MAX_GEARS,
    MIN_GEAR_RATIO,
};
use mechanic_core::graph::ConstructionGraph;
use mechanic_core::grid::{BuildPose, GridRotation, GridVec};
use mechanic_core::ids::PartId;
use mechanic_core::parts::{ButtonMode, InputConfiguration, InputSize, PartShape, PartSpec};
use mechanic_core::scalar::Scalar;

fn number(value: f32) -> Scalar {
    Scalar::from_bits(value.to_bits())
}

fn value(number: Scalar) -> f32 {
    f32::from_bits(number.to_bits())
}

fn ratios(config: &GearboxConfig) -> Vec<f32> {
    config.ratios().iter().map(|ratio| value(*ratio)).collect()
}

fn resized(config: GearboxConfig, gear_count: usize) -> GearboxConfig {
    let (mut config, missing) = config.trimmed(gear_count);
    for _ in 0..missing {
        let strip = ratios(&config);
        let quotients: Vec<Scalar> = strip
            .windows(2)
            .map(|pair| number(pair[0] / pair[1]))
            .collect();
        let at = widest_gap(&quotients);
        let mean = (strip[at] * strip[at + 1]).sqrt();
        config.grow(&quotients, number(mean));
    }
    config
}

#[test]
fn defaults_grow_to_eighteen_strictly_descending_gears() {
    for depth in 0..=17u8 {
        let config = GearboxConfig::for_depth(depth, false);
        assert_eq!(config.ratios().len(), usize::from(depth) + 1);
        assert!(ratios(&config).windows(2).all(|pair| pair[0] > pair[1]));
    }
    assert_eq!(GearboxConfig::for_depth(17, true).ratios().len(), MAX_GEARS);
}

#[test]
fn default_strips_split_the_widest_quotient_at_its_mean() {
    let mut strip: Vec<f32> = vec![3.0, 1.0, 0.75];
    for depth in 2..=17u8 {
        let config = GearboxConfig::for_depth(depth, false);
        assert_eq!(ratios(&config), strip);
        let quotients: Vec<Scalar> = strip
            .windows(2)
            .map(|pair| number(pair[0] / pair[1]))
            .collect();
        let at = widest_gap(&quotients);
        strip.insert(at + 1, (strip[at] * strip[at + 1]).sqrt());
    }
}

#[test]
fn gas_divider_accepts_both_extremes() {
    let mut config = GearboxConfig::for_depth(1, true);
    config.set_reverse_gears(0).unwrap();
    config.set_reverse_gears(2).unwrap();
    assert_eq!(
        config.set_reverse_gears(3),
        Err(GearboxError::InvalidReverseGearCount)
    );
}

#[test]
fn growing_an_edited_two_gear_box_preserves_both_ratios_and_order() {
    let config = GearboxConfig::new(
        ShiftMode::Manual,
        vec![number(3.0), Scalar::from_bits(MIN_GEAR_RATIO)],
        1,
        GearKeyChord::new(GearKey::Letter('R')),
        GearKeyChord::new(GearKey::Letter('F')),
    )
    .unwrap();
    let config = resized(config, 3);
    assert_eq!(config.ratios().len(), 3);
    assert_eq!(config.ratios().first(), Some(&number(3.0)));
    assert_eq!(
        config.ratios().last(),
        Some(&Scalar::from_bits(MIN_GEAR_RATIO))
    );
    assert!(ratios(&config).windows(2).all(|pair| pair[0] > pair[1]));
}

#[test]
fn strips_are_refused_for_their_count_their_range_and_their_order() {
    let strip = |ratios: Vec<f32>| {
        GearboxConfig::new(
            ShiftMode::Auto,
            ratios.into_iter().map(number).collect(),
            0,
            GearKeyChord::new(GearKey::Letter('R')),
            GearKeyChord::new(GearKey::Letter('F')),
        )
        .err()
    };
    assert_eq!(strip(vec![]), Some(GearboxError::InvalidGearCount));
    assert_eq!(strip(vec![1.0; 19]), Some(GearboxError::InvalidGearCount));
    assert_eq!(strip(vec![21.0]), Some(GearboxError::RatioOutOfRange));
    assert_eq!(strip(vec![f32::NAN]), Some(GearboxError::RatioOutOfRange));
    assert_eq!(strip(vec![1.0, 1.0]), Some(GearboxError::RatiosNotDescending));
    assert_eq!(strip(vec![2.0, 1.0]), None);
}

#[test]
fn gear_keys_name_letters_and_digits() {
    assert_eq!(GearKey::from_char('r'), Some(GearKey::Letter('R')));
    assert_eq!(GearKey::from_char('!'), None);
}

#[test]
fn shift_and_dye_ranges_are_validated() {
    assert!(MaterialShift::new(number(-180.0), number(0.0), number(2.0)).is_ok());
    assert!(MaterialShift::new(number(180.1), number(1.0), number(1.0)).is_err());
    assert!(MaterialShift::new(number(0.0), number(1.81), number(1.0)).is_err());
    assert!(MaterialShift::new(number(0.0), number(1.0), number(f32::NAN)).is_err());
    assert!(MaterialDye::new([1, 2, 3], number(3.0)).is_ok());
    assert!(MaterialDye::new([1, 2, 3], number(-0.1)).is_err());
}

#[test]
fn baked_is_the_default_appearance() {
    assert_eq!(MaterialAppearance::default(), MaterialAppearance::baked());
}

#[test]
fn every_appearance_error_has_an_input() {
    let ok = number(1.0);
    assert_eq!(
        MaterialShift::new(number(181.0), ok, ok),
        Err(AppearanceError::InvalidHue)
    );
    assert_eq!(
        MaterialShift::new(ok, number(2.0), ok),
        Err(AppearanceError::InvalidChroma)
    );
    assert_eq!(
        MaterialShift::new(ok, ok, number(3.0)),
        Err(AppearanceError::InvalidLightness)
    );
    assert_eq!(
        MaterialDye::new([0, 0, 0], number(4.0)),
        Err(AppearanceError::InvalidStructure)
    );
    let plain = MaterialAppearance::new(MaterialColor::Baked, MaterialFinish::Baked);
    assert_eq!(plain, MaterialAppearance::baked());
}

fn pose() -> BuildPose {
    BuildPose {
        translation_ticks: GridVec { x: 0, y: 0, z: 0 },
        rotation: GridRotation { x: 0, y: 0, z: 0 },
    }
}

fn spawn(graph: &mut ConstructionGraph, shape: PartShape) -> PartId {
    graph.parts.insert(PartSpec::bare(shape, pose()))
}

fn configure(
    graph: &mut ConstructionGraph,
    input: PartId,
    controller: PartId,
    key: DriveKey,
    button_mode: ButtonMode,
) {
    graph.inputs.insert(
        input,
        InputConfiguration {
            name: String::new(),
            controller: Some(controller),
            button_mode,
            key: Some(key),
            analog: Vec::new(),
        },
    );
}

#[test]
fn several_sources_emit_one_edge_and_isolate_controllers() {
    let mut graph = ConstructionGraph::new();
    let controller = spawn(&mut graph, PartShape::Controller);
    let other = spawn(&mut graph, PartShape::Controller);
    let key = DriveKey::new('w').unwrap();
    let buttons: Vec<PartId> = (0..2)
        .map(|_| {
            let button = spawn(
                &mut graph,
                PartShape::Button {
                    size: InputSize::Panel,
                },
            );
            configure(&mut graph, button, controller, key, ButtonMode::Momentary);
            button
        })
        .collect();
    let mut keys = ControllerKeys::new();
    keys.press_button(&graph, buttons[0]);
    keys.update(&graph, &[]);
    assert!(keys.pressed(controller, key));
    assert!(!keys.held(other, key));
    keys.press_button(&graph, buttons[1]);
    keys.update(&graph, &[ControllerKey { controller, key }]);
    assert!(!keys.pressed(controller, key));
    for button in &buttons {
        keys.release_button(*button);
    }
    keys.update(&graph, &[ControllerKey { controller, key }]);
    assert!(keys.held(controller, key));
    assert!(!keys.released(controller, key));
    keys.update(&graph, &[]);
    assert!(keys.released(controller, key));
}

#[test]
fn toggle_latches_are_local_and_clear_on_configuration_changes_and_reset() {
    let mut graph = ConstructionGraph::new();
    let controller = spawn(&mut graph, PartShape::Controller);
    let button = spawn(
        &mut graph,
        PartShape::Button {
            size: InputSize::Panel,
        },
    );
    let key = DriveKey::new('7').unwrap();
    configure(&mut graph, button, controller, key, ButtonMode::Toggle);
    let mut keys = ControllerKeys::new();
    keys.press_button(&graph, button);
    keys.release_button(button);
    keys.update(&graph, &[]);
    assert!(keys.held(controller, key));
    keys.press_button(&graph, button);
    keys.update(&graph, &[]);
    assert!(keys.released(controller, key));
    keys.press_button(&graph, button);
    keys.update(&graph, &[]);
    let changed = DriveKey::new('X').unwrap();
    configure(&mut graph, button, controller, changed, ButtonMode::Toggle);
    keys.update(&graph, &[]);
    assert!(!keys.held(controller, key));
    assert!(!keys.held(controller, changed));
    keys.press_button(&graph, button);
    keys.update(&graph, &[]);
    keys.reset();
    keys.update(&graph, &[]);
    assert_eq!(keys.held_keys().len(), 0);
    keys.press_button(&graph, button);
    graph.parts.remove(button);
    keys.update(&graph, &[]);
    assert_eq!(keys.held_keys().len(), 0);
}

#[test]
fn keys_and_chords_read_as_on_a_panel() {
    assert_eq!(GearKey::Letter('Q').label(), "Q");
    assert_eq!(GearKey::Digit(7).label(), "7");
    assert_eq!(GearKey::Digit(120).label(), "120");
    assert_eq!(GearKey::Space.label(), "Space");
    assert_eq!(GearKey::ArrowUp.label(), "Up");
    assert_eq!(GearKey::ArrowDown.label(), "Down");
    assert_eq!(GearKey::ArrowLeft.label(), "Left");
    assert_eq!(GearKey::ArrowRight.label(), "Right");
    assert_eq!(GearKey::PageUp.label(), "Page Up");
    let mut chord = GearKeyChord::new(GearKey::PageDown);
    assert_eq!(chord.label(), "Page Down");
    chord.shift = true;
    chord.control = true;
    assert_eq!(chord.label(), "Ctrl+Shift+Page Down");
    chord.alt = true;
    chord.super_key = true;
    assert_eq!(chord.label(), "Ctrl+Alt+Shift+Super+Page Down");
    assert_eq!(DriveKey::new('w').unwrap().label(), "W");
}

#[test]
fn gearboxes_refuse_a_strip_shorter_than_their_reverse_bank() {
    let mut config = GearboxConfig::for_depth(2, true);
    config.set_mode(ShiftMode::Manual);
    assert_eq!(config.mode(), ShiftMode::Manual);
    let (up, down) = (
        GearKeyChord::new(GearKey::PageUp),
        GearKeyChord::new(GearKey::PageDown),
    );
    config.set_bindings(up, down);
    assert_eq!((config.gear_up(), config.gear_down()), (up, down));
    config.set_reverse_gears(2).unwrap();
    assert_eq!(
        config.set_ratios(vec![number(2.0)]),
        Err(GearboxError::InvalidReverseGearCount)
    );
    assert_eq!(
        config.set_ratios(vec![number(1.0), number(2.0)]),
        Err(GearboxError::RatiosNotDescending)
    );
    assert_eq!(config.ratios().len(), 3);
    config.set_ratios(vec![number(2.0), number(0.5)]).unwrap();
    assert_eq!(ratios(&config), [2.0, 0.5]);
}

#[test]
fn held_buttons_are_told_from_held_keys() {
    let mut graph = ConstructionGraph::new();
    let controller = spawn(&mut graph, PartShape::Controller);
    let button = spawn(
        &mut graph,
        PartShape::Button {
            size: InputSize::Panel,
        },
    );
    let key = DriveKey::new('Q').unwrap();
    configure(&mut graph, button, controller, key, ButtonMode::Momentary);
    let mut keys = ControllerKeys::new();
    keys.update(&graph, &[ControllerKey { controller, key }]);
    assert!(keys.held(controller, key));
    assert!(!keys.button_held(controller, key));
    keys.press_button(&graph, button);
    assert!(keys.button_held(controller, key));
    keys.release_button(button);
    assert!(!keys.button_held(controller, key));
}

#[test]
fn controller_keys_start_without_history() {
    let keys = ControllerKeys::default();
    assert!(keys.held.is_empty());
    assert!(keys.pressed.is_empty());
    assert!(keys.released.is_empty());
    assert_eq!(keys.buttons.len(), 0);
}
