//! Validated per-part construction appearance.

use vstd::arithmetic::power2::lemma2_to64;
use vstd::prelude::*;

use crate::scalar::Scalar;
use crate::exact::{
    coded, encodes, lemma_encoded, numbers_compare_as_their_values, rounds,
    signs_are_those_of_values, units_of_one,
};

verus! {

/// Largest hue rotation either way, 180 degrees, by its encoding.
pub const MAX_HUE_DEGREES: u32 = 0x4334_0000;

/// Largest chroma multiplier, 1.8, by its encoding.
pub const MAX_CHROMA: u32 = 0x3FE6_6666;

/// Largest lightness multiplier, 2, by its encoding.
pub const MAX_LIGHTNESS: u32 = 0x4000_0000;

/// Largest dye structure, 3, by its encoding.
pub const MAX_STRUCTURE: u32 = 0x4040_0000;

/// A construction surface's independent color and finish treatments.
#[derive(Clone, Copy, Debug, PartialEq, Eq, Structural)]
pub struct MaterialAppearance {
    /// Color treatment applied to the baked base-color map.
    pub color: MaterialColor,
    /// Surface response applied after sampling the baked surface map.
    pub finish: MaterialFinish,
}

impl MaterialAppearance {
    /// Untouched texture color and surface response.
    #[verifier::allow_in_spec]
    pub fn baked() -> Self
        returns
            (MaterialAppearance { color: MaterialColor::Baked, finish: MaterialFinish::Baked }),
    {
        MaterialAppearance { color: MaterialColor::Baked, finish: MaterialFinish::Baked }
    }

    /// Creates an appearance from independently selected treatments.
    pub fn new(color: MaterialColor, finish: MaterialFinish) -> (appearance: Self)
        ensures
            appearance == (MaterialAppearance { color, finish }),
    {
        MaterialAppearance { color, finish }
    }

    /// Both treatments are valid.
    pub open spec fn wf(self) -> bool {
        match self.color {
            MaterialColor::Baked => true,
            MaterialColor::Shift(shift) => shift.wf(),
            MaterialColor::Dye(dye) => dye.wf(),
        }
    }
}

impl Default for MaterialAppearance {
    fn default() -> (appearance: Self)
        ensures
            appearance == MaterialAppearance::baked(),
    {
        MaterialAppearance::baked()
    }
}

impl MaterialAppearance {
    /// Whether two appearances agree in value.
    pub open spec fn same_value(self, other: Self) -> bool {
        self.color.same_value(other.color) && self.finish == other.finish
    }

    /// Whether two appearances agree in value.
    pub fn equal(self, other: Self) -> (equal: bool)
        ensures
            equal == self.same_value(other),
    {
        self.color.equal(other.color) && self.finish == other.finish
    }
}

/// Color treatment applied to a construction material.
#[derive(Clone, Copy, Debug, PartialEq, Eq, Structural)]
pub enum MaterialColor {
    /// Preserve the baked base-color map.
    Baked,
    /// Rotate and scale the baked material's perceptual color.
    Shift(MaterialShift),
    /// Re-anchor the baked material's structure around an absolute color.
    Dye(MaterialDye),
}

impl MaterialColor {
    /// Whether two treatments agree in value.
    pub open spec fn same_value(self, other: Self) -> bool {
        match (self, other) {
            (MaterialColor::Baked, MaterialColor::Baked) => true,
            (MaterialColor::Shift(first), MaterialColor::Shift(second)) => first.same_value(second),
            (MaterialColor::Dye(first), MaterialColor::Dye(second)) => first.same_value(second),
            _ => false,
        }
    }

    /// Whether two treatments agree in value.
    pub fn equal(self, other: Self) -> (equal: bool)
        ensures
            equal == self.same_value(other),
    {
        match (self, other) {
            (MaterialColor::Baked, MaterialColor::Baked) => true,
            (MaterialColor::Shift(first), MaterialColor::Shift(second)) => first.equal(second),
            (MaterialColor::Dye(first), MaterialColor::Dye(second)) => first.equal(second),
            _ => false,
        }
    }
}

/// Surface treatment applied after sampling a construction material's surface map.
#[derive(Clone, Copy, Debug, PartialEq, Eq, Hash, Structural)]
pub enum MaterialFinish {
    /// Preserve baked metalness and roughness.
    Baked,
    /// Force a metallic surface while retaining baked roughness.
    Anodised,
    /// Apply a low-metalness semi-gloss coating while retaining roughness detail.
    Painted,
}

/// Invalid brush parameter.
#[derive(Clone, Copy, Debug, PartialEq, Eq, Structural)]
pub enum AppearanceError {
    /// Hue was non-finite or more than half a turn.
    InvalidHue,
    /// Chroma was non-finite, negative or too large.
    InvalidChroma,
    /// Lightness was non-finite, negative or too large.
    InvalidLightness,
    /// Dye structure was non-finite, negative or too large.
    InvalidStructure,
}

/// Whether a finite value's key lies between two keys.
pub open spec fn key_between(value: Scalar, low: int, high: int) -> bool {
    value.finite() && low <= value.key() <= high
}

/// Whether a number is finite and within two bounds.
fn in_range(value: Scalar, low: Scalar, high: Scalar) -> (inside: bool)
    requires
        !low.nan(),
        !high.nan(),
    ensures
        inside == key_between(value, low.key(), high.key()),
{
    value.is_finite() && low.less_or_equal(value) && value.less_or_equal(high)
}

/// Validated relative color adjustment.
#[derive(Clone, Copy, Debug, PartialEq, Eq, Structural)]
pub struct MaterialShift {
    pub hue_degrees: Scalar,
    pub chroma: Scalar,
    pub lightness: Scalar,
}

impl MaterialShift {
    /// Why an adjustment is refused, if it is: its hue, then its chroma, then its lightness.
    pub open spec fn fault(hue: Scalar, chroma: Scalar, lightness: Scalar) -> Option<
        AppearanceError,
    > {
        if !key_between(hue, -(MAX_HUE_DEGREES as int), MAX_HUE_DEGREES as int) {
            Some(AppearanceError::InvalidHue)
        } else if !key_between(chroma, 0, MAX_CHROMA as int) {
            Some(AppearanceError::InvalidChroma)
        } else if !key_between(lightness, 0, MAX_LIGHTNESS as int) {
            Some(AppearanceError::InvalidLightness)
        } else {
            None
        }
    }

    /// The values make an adjustment.
    pub open spec fn wf(self) -> bool {
        Self::fault(self.hue_degrees, self.chroma, self.lightness) is None
    }

    /// Creates a relative color adjustment.
    pub fn new(hue_degrees: Scalar, chroma: Scalar, lightness: Scalar) -> (shift: Result<
        Self,
        AppearanceError,
    >)
        ensures
            shift == (match Self::fault(hue_degrees, chroma, lightness) {
                Some(error) => Err::<Self, AppearanceError>(error),
                None => Ok(MaterialShift { hue_degrees, chroma, lightness }),
            }),
    {
        let hue_limit = Scalar::from_bits(MAX_HUE_DEGREES);
        if !in_range(hue_degrees, hue_limit.negated(), hue_limit) {
            return Err(AppearanceError::InvalidHue);
        }
        if !in_range(chroma, Scalar::zero(), Scalar::from_bits(MAX_CHROMA)) {
            return Err(AppearanceError::InvalidChroma);
        }
        if !in_range(lightness, Scalar::zero(), Scalar::from_bits(MAX_LIGHTNESS)) {
            return Err(AppearanceError::InvalidLightness);
        }
        Ok(MaterialShift { hue_degrees, chroma, lightness })
    }

    /// Hue rotation in degrees.
    pub fn hue_degrees(self) -> (hue: Scalar)
        ensures
            hue == self.hue_degrees,
    {
        self.hue_degrees
    }

    /// Chroma multiplier.
    pub fn chroma(self) -> (chroma: Scalar)
        ensures
            chroma == self.chroma,
    {
        self.chroma
    }

    /// Lightness multiplier.
    pub fn lightness(self) -> (lightness: Scalar)
        ensures
            lightness == self.lightness,
    {
        self.lightness
    }
}

impl MaterialShift {
    /// Whether two adjustments agree in value.
    pub open spec fn same_value(self, other: Self) -> bool {
        &&& self.hue_degrees.same_value(other.hue_degrees)
        &&& self.chroma.same_value(other.chroma)
        &&& self.lightness.same_value(other.lightness)
    }

    /// Whether two adjustments agree in value.
    pub fn equal(self, other: Self) -> (equal: bool)
        ensures
            equal == self.same_value(other),
    {
        self.hue_degrees.equal(other.hue_degrees) && self.chroma.equal(other.chroma)
            && self.lightness.equal(other.lightness)
    }
}

/// Validated absolute dye color and retained-structure strength.
#[derive(Clone, Copy, Debug, PartialEq, Eq, Structural)]
pub struct MaterialDye {
    pub red: u8,
    pub green: u8,
    pub blue: u8,
    pub structure: Scalar,
}

impl MaterialDye {
    /// Whether two dyes agree in value.
    pub open spec fn same_value(self, other: Self) -> bool {
        &&& self.red == other.red
        &&& self.green == other.green
        &&& self.blue == other.blue
        &&& self.structure.same_value(other.structure)
    }

    /// Whether two dyes agree in value.
    pub fn equal(self, other: Self) -> (equal: bool)
        ensures
            equal == self.same_value(other),
    {
        self.red == other.red && self.green == other.green && self.blue == other.blue
            && self.structure.equal(other.structure)
    }
}

impl MaterialDye {
    /// The structure is in range.
    pub open spec fn wf(self) -> bool {
        key_between(self.structure, 0, MAX_STRUCTURE as int)
    }

    /// Creates an opaque dye treatment.
    pub fn new(target_rgb: [u8; 3], structure: Scalar) -> (dye: Result<Self, AppearanceError>)
        ensures
            dye == (if key_between(structure, 0, MAX_STRUCTURE as int) {
                Ok::<Self, AppearanceError>(
                    MaterialDye {
                        red: target_rgb@[0],
                        green: target_rgb@[1],
                        blue: target_rgb@[2],
                        structure,
                    },
                )
            } else {
                Err(AppearanceError::InvalidStructure)
            }),
    {
        if !in_range(structure, Scalar::zero(), Scalar::from_bits(MAX_STRUCTURE)) {
            return Err(AppearanceError::InvalidStructure);
        }
        Ok(MaterialDye { red: target_rgb[0], green: target_rgb[1], blue: target_rgb[2], structure })
    }

    /// Absolute opaque target color.
    pub fn target_rgb(self) -> (rgb: [u8; 3])
        ensures
            rgb@ == seq![self.red, self.green, self.blue],
    {
        let rgb: [u8; 3] = [self.red, self.green, self.blue];
        assert(rgb@ =~= seq![self.red, self.green, self.blue]);
        rgb
    }

    /// Multiplier for baked lightness variation around the target.
    pub fn structure(self) -> (structure: Scalar)
        ensures
            structure == self.structure,
    {
        self.structure
    }
}

/// What the bounds of a brush are worth: 180 degrees, 1.8, 2 and 3.
proof fn lemma_brush_bounds()
    ensures
        encodes(MAX_HUE_DEGREES, 180, 1),
        rounds(MAX_CHROMA, 18, 10),
        encodes(MAX_LIGHTNESS, 2, 1),
        encodes(MAX_STRUCTURE, 3, 1),
{
    lemma2_to64();
    assert(0x4334_0000int / 0x80_0000 == 134 && 0x4334_0000int % 0x80_0000 == 0x34_0000);
    lemma_encoded(MAX_HUE_DEGREES, 180, 1, 16);
    assert(0x3FE6_6666int / 0x80_0000 == 127 && 0x3FE6_6666int % 0x80_0000 == 0x66_6666);
    lemma_encoded(MAX_CHROMA, 18, 10, 23);
    assert(0x4000_0000int / 0x80_0000 == 128 && 0x4000_0000int % 0x80_0000 == 0);
    lemma_encoded(MAX_LIGHTNESS, 2, 1, 22);
    assert(0x4040_0000int / 0x80_0000 == 128 && 0x4040_0000int % 0x80_0000 == 0x40_0000);
    lemma_encoded(MAX_STRUCTURE, 3, 1, 22);
}

/// A number lies between keys as its value lies between what they encode.
proof fn lemma_key_between(value: Scalar, most: u32)
    requires
        most < 0x7F80_0000,
    ensures
        key_between(value, 0, most as int) <==> value.finite() && 0 <= value.units() <= coded(most),
        key_between(value, -(most as int), most as int) <==> value.finite() && -coded(most)
            <= value.units() <= coded(most),
{
    let bound = Scalar { bits: most };
    signs_are_those_of_values(bound);
    if value.finite() {
        numbers_compare_as_their_values(value, bound);
        numbers_compare_as_their_values(bound.opposite(), value);
        numbers_compare_as_their_values(Scalar::zero(), value);
    }
}

/// A color shift is accepted when its hue is turned by at most half a turn
/// either way, its chroma scaled from nothing up to 1.8 and its lightness from
/// nothing up to 2; a dye when its structure is kept from nothing up to 3.
pub proof fn brushes_are_accepted_within_their_range(
    hue: Scalar,
    chroma: Scalar,
    lightness: Scalar,
    dye: MaterialDye,
)
    ensures
        ({
            let turned = hue.finite() && -180 * units_of_one() <= hue.units() <= 180
                * units_of_one();
            let colored = chroma.finite() && 0 <= chroma.units() <= coded(MAX_CHROMA);
            let lit = lightness.finite() && 0 <= lightness.units() <= 2 * units_of_one();
            let fault = MaterialShift::fault(hue, chroma, lightness);
            &&& fault is None <==> turned && colored && lit
            &&& fault == Some(AppearanceError::InvalidHue) <==> !turned
            &&& fault == Some(AppearanceError::InvalidChroma) <==> turned && !colored
            &&& fault == Some(AppearanceError::InvalidLightness) <==> turned && colored && !lit
        }),
        rounds(MAX_CHROMA, 18, 10),
        dye.wf() <==> dye.structure.finite() && 0 <= dye.structure.units() <= 3 * units_of_one(),
{
    lemma_brush_bounds();
    lemma_key_between(hue, MAX_HUE_DEGREES);
    lemma_key_between(chroma, MAX_CHROMA);
    lemma_key_between(lightness, MAX_LIGHTNESS);
    lemma_key_between(dye.structure, MAX_STRUCTURE);
}

/// Two appearances agree when they are treated alike: the same finish, the same
/// kind of color, and the same values of it.
pub proof fn appearances_agree_in_their_values(a: MaterialAppearance, b: MaterialAppearance)
    requires
        a.wf(),
        b.wf(),
    ensures
        a.same_value(b) <==> {
            &&& a.finish == b.finish
            &&& match (a.color, b.color) {
                (MaterialColor::Baked, MaterialColor::Baked) => true,
                (MaterialColor::Shift(s), MaterialColor::Shift(t)) => s.hue_degrees.units()
                    == t.hue_degrees.units() && s.chroma.units() == t.chroma.units()
                    && s.lightness.units() == t.lightness.units(),
                (MaterialColor::Dye(d), MaterialColor::Dye(e)) => d.red == e.red && d.green
                    == e.green && d.blue == e.blue && d.structure.units() == e.structure.units(),
                _ => false,
            }
        },
{
    match (a.color, b.color) {
        (MaterialColor::Shift(s), MaterialColor::Shift(t)) => {
            numbers_compare_as_their_values(s.hue_degrees, t.hue_degrees);
            numbers_compare_as_their_values(s.chroma, t.chroma);
            numbers_compare_as_their_values(s.lightness, t.lightness);
        },
        (MaterialColor::Dye(d), MaterialColor::Dye(e)) => {
            numbers_compare_as_their_values(d.structure, e.structure);
        },
        _ => {},
    }
}

} // verus!
