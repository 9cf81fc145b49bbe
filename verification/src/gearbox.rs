//! Gear strips, shift bindings and their rules.

use vstd::arithmetic::power2::{lemma2_to64, lemma_pow2_unfold, pow2};
use vstd::prelude::*;

use crate::drive::{is_digit, is_lower, is_upper};
use crate::scalar::Scalar;
use crate::exact::{coded, encodes, lemma_encoded, numbers_compare_as_their_values, units_of_one};

verus! {

/// Largest number of selectable gears supported by an engine line.
pub const MAX_GEARS: usize = 18;

/// Smallest supported input-to-output ratio, 0.25, by its encoding.
pub const MIN_GEAR_RATIO: u32 = 0x3E80_0000;

/// Largest supported input-to-output ratio, 20, by its encoding.
pub const MAX_GEAR_RATIO: u32 = 0x41A0_0000;

/// Whether shifts are selected by the simulation or by bound keys.
#[derive(Clone, Copy, Debug, PartialEq, Eq, Structural)]
pub enum ShiftMode {
    /// Select gears from measured joint speed and requested direction.
    Auto,
    /// Move through the ordered gear strip using the configured bindings.
    Manual,
}

impl Default for ShiftMode {
    fn default() -> (mode: Self)
        ensures
            mode == ShiftMode::Auto,
    {
        ShiftMode::Auto
    }
}

/// A physical key accepted by a gearbox binding.
#[derive(Clone, Copy, Debug, PartialEq, Eq, Hash, Structural)]
pub enum GearKey {
    /// An uppercase ASCII letter.
    Letter(char),
    /// An ASCII digit.
    Digit(u8),
    /// Space bar.
    Space,
    /// Up arrow.
    ArrowUp,
    /// Down arrow.
    ArrowDown,
    /// Left arrow.
    ArrowLeft,
    /// Right arrow.
    ArrowRight,
    /// Page Up.
    PageUp,
    /// Page Down.
    PageDown,
}

impl GearKey {
    /// Creates a letter or digit binding. Lowercase letters are folded to uppercase.
    pub fn from_char(symbol: char) -> (key: Option<Self>)
        ensures
            is_lower(symbol) ==> key is Some && key->0 is Letter && key->0->Letter_0 as int
                == symbol as int - 32,
            is_upper(symbol) ==> key == Some(GearKey::Letter(symbol)),
            is_digit(symbol) ==> key == Some(GearKey::Digit((symbol as int - 48) as u8)),
            !is_lower(symbol) && !is_upper(symbol) && !is_digit(symbol) ==> key is None,
    {
        if 'a' <= symbol && symbol <= 'z' {
            let code: u8 = symbol as u8 - 32;
            Some(GearKey::Letter(code as char))
        } else if 'A' <= symbol && symbol <= 'Z' {
            Some(GearKey::Letter(symbol))
        } else if '0' <= symbol && symbol <= '9' {
            let digit: u8 = symbol as u8 - 48;
            Some(GearKey::Digit(digit))
        } else {
            None
        }
    }
}

/// One gearbox key and its optional modifier keys.
#[derive(Clone, Copy, Debug, PartialEq, Eq, Hash, Structural)]
pub struct GearKeyChord {
    /// Main physical key.
    pub key: GearKey,
    /// Shift must be held.
    pub shift: bool,
    /// Control must be held.
    pub control: bool,
    /// Alt or Option must be held.
    pub alt: bool,
    /// Super, Command or Windows must be held.
    pub super_key: bool,
}

impl GearKeyChord {
    /// Creates a chord without modifiers.
    #[verifier::allow_in_spec]
    pub fn new(key: GearKey) -> Self
        returns
            (GearKeyChord { key, shift: false, control: false, alt: false, super_key: false }),
    {
        GearKeyChord { key, shift: false, control: false, alt: false, super_key: false }
    }
}

/// Invalid gearbox configuration.
#[derive(Clone, Copy, Debug, PartialEq, Eq, Structural)]
pub enum GearboxError {
    /// A gearbox always has at least one ratio and never more than [`MAX_GEARS`].
    InvalidGearCount,
    /// A ratio was non-finite or outside the supported range.
    RatioOutOfRange,
    /// Shift order must move strictly from larger ratios to smaller ratios.
    RatiosNotDescending,
    /// A gas divider was outside the boundaries of the gear strip.
    InvalidReverseGearCount,
}

/// Whether a ratio is supported.
pub open spec fn ratio_in_range(ratio: Scalar) -> bool {
    ratio.finite() && MIN_GEAR_RATIO <= ratio.key() <= MAX_GEAR_RATIO
}

/// Whether ratios fall strictly in shift order.
pub open spec fn descending(ratios: Seq<Scalar>) -> bool {
    forall|i: int, j: int|
        #![trigger ratios[i], ratios[j]]
        0 <= i < j < ratios.len() ==> ratios[j].key() < ratios[i].key()
}

/// Why ratios do not make a strip, if they do not: their count, then a range, then the order.
pub open spec fn ratios_fault(ratios: Seq<Scalar>) -> Option<GearboxError> {
    if ratios.len() == 0 || ratios.len() > MAX_GEARS {
        Some(GearboxError::InvalidGearCount)
    } else if exists|i: int|
        0 <= i < ratios.len() && !#[trigger] ratio_in_range(ratios[i]) {
        Some(GearboxError::RatioOutOfRange)
    } else if !descending(ratios) {
        Some(GearboxError::RatiosNotDescending)
    } else {
        None
    }
}

/// Persistent settings for one Controller and one engine family.
#[derive(Debug, PartialEq, Eq)]
pub struct GearboxConfig {
    pub mode: ShiftMode,
    pub ratios: Vec<Scalar>,
    pub reverse_gears: u8,
    pub gear_up: GearKeyChord,
    pub gear_down: GearKeyChord,
}

/// Checks that ratios make a strip.
fn validate_ratios(ratios: &Vec<Scalar>) -> (checked: Result<(), GearboxError>)
    ensures
        checked == (match ratios_fault(ratios@) {
            Some(error) => Err::<(), GearboxError>(error),
            None => Ok(()),
        }),
{
    if ratios.len() == 0 || ratios.len() > MAX_GEARS {
        return Err(GearboxError::InvalidGearCount);
    }
    let low = Scalar::from_bits(MIN_GEAR_RATIO);
    let high = Scalar::from_bits(MAX_GEAR_RATIO);
    let mut i: usize = 0;
    while i < ratios.len()
        invariant
            0 < ratios@.len() <= MAX_GEARS,
            i <= ratios@.len(),
            low.bits == MIN_GEAR_RATIO,
            high.bits == MAX_GEAR_RATIO,
            forall|j: int| 0 <= j < i ==> #[trigger] ratio_in_range(ratios@[j]),
        decreases ratios@.len() - i,
    {
        let ratio: Scalar = ratios[i];
        if !ratio.is_finite() || !low.less_or_equal(ratio) || !ratio.less_or_equal(high) {
            assert(!ratio_in_range(ratios@[i as int]));
            return Err(GearboxError::RatioOutOfRange);
        }
        i += 1;
    }
    let mut k: usize = 1;
    while k < ratios.len()
        invariant
            1 <= k <= ratios@.len() <= MAX_GEARS,
            forall|j: int| 0 <= j < ratios@.len() ==> #[trigger] ratio_in_range(ratios@[j]),
            descending(ratios@.take(k as int)),
        decreases ratios@.len() - k,
    {
        assert(ratio_in_range(ratios@[k - 1]));
        assert(ratio_in_range(ratios@[k as int]));
        if ratios[k - 1].less_or_equal(ratios[k]) {
            assert(ratios@[k as int].key() >= ratios@[k - 1].key());
            return Err(GearboxError::RatiosNotDescending);
        }
        proof {
            let before = ratios@.take(k as int);
            let after = ratios@.take(k + 1);
            assert forall|i: int, j: int| #![trigger after[i], after[j]]
                0 <= i < j < after.len() implies after[j].key() < after[i].key() by {
                if j < k {
                    assert(before[j].key() < before[i].key());
                } else if i < k - 1 {
                    assert(before[k - 1].key() < before[i].key());
                }
            }
        }
        k += 1;
    }
    assert(ratios@.take(k as int) =~= ratios@);
    Ok(())
}

impl GearboxConfig {
    /// Ratios make a strip and the divider lies on it.
    pub open spec fn wf(&self) -> bool {
        &&& ratios_fault(self.ratios@) is None
        &&& self.reverse_gears <= self.ratios@.len()
    }

    /// Validates and creates a complete gearbox configuration.
    pub fn new(
        mode: ShiftMode,
        ratios: Vec<Scalar>,
        reverse_gears: u8,
        gear_up: GearKeyChord,
        gear_down: GearKeyChord,
    ) -> (config: Result<Self, GearboxError>)
        ensures
            ratios_fault(ratios@) is Some ==> config == Err::<Self, GearboxError>(
                ratios_fault(ratios@)->0,
            ),
            ratios_fault(ratios@) is None && reverse_gears > ratios@.len() ==> config == Err::<
                Self,
                GearboxError,
            >(GearboxError::InvalidReverseGearCount),
            ratios_fault(ratios@) is None && reverse_gears <= ratios@.len() ==> config == Ok::<
                Self,
                GearboxError,
            >(GearboxConfig { mode, ratios, reverse_gears, gear_up, gear_down }),
    {
        match validate_ratios(&ratios) {
            Err(error) => {
                return Err(error);
            },
            Ok(()) => {},
        }
        if reverse_gears as usize > ratios.len() {
            return Err(GearboxError::InvalidReverseGearCount);
        }
        Ok(GearboxConfig { mode, ratios, reverse_gears, gear_up, gear_down })
    }

    /// Shift selection mode.
    pub fn mode(&self) -> (mode: ShiftMode)
        ensures
            mode == self.mode,
    {
        self.mode
    }

    /// Ratios in shift order, expressed as input to output.
    pub fn ratios(&self) -> (ratios: &[Scalar])
        ensures
            ratios@ == self.ratios@,
    {
        self.ratios.as_slice()
    }

    /// Number of leading ratios belonging to the gas reverse bank.
    pub fn reverse_gears(&self) -> (count: u8)
        ensures
            count == self.reverse_gears,
    {
        self.reverse_gears
    }

    /// Manual upshift chord.
    pub fn gear_up(&self) -> (chord: GearKeyChord)
        ensures
            chord == self.gear_up,
    {
        self.gear_up
    }

    /// Manual downshift chord.
    pub fn gear_down(&self) -> (chord: GearKeyChord)
        ensures
            chord == self.gear_down,
    {
        self.gear_down
    }

    /// Sets the shift selection mode.
    pub fn set_mode(&mut self, mode: ShiftMode)
        ensures
            *final(self) == (GearboxConfig { mode, ..*old(self) }),
    {
        self.mode = mode;
    }

    /// Replaces the strip; a strip shorter than the reverse bank is refused.
    pub fn set_ratios(&mut self, ratios: Vec<Scalar>) -> (done: Result<(), GearboxError>)
        ensures
            done == (if ratios_fault(ratios@) is Some {
                Err::<(), GearboxError>(ratios_fault(ratios@)->0)
            } else if old(self).reverse_gears > ratios@.len() {
                Err(GearboxError::InvalidReverseGearCount)
            } else {
                Ok(())
            }),
            done is Err ==> *final(self) == *old(self),
            done is Ok ==> *final(self) == (GearboxConfig { ratios, ..*old(self) }),
    {
        match validate_ratios(&ratios) {
            Err(error) => {
                return Err(error);
            },
            Ok(()) => {},
        }
        if self.reverse_gears as usize > ratios.len() {
            return Err(GearboxError::InvalidReverseGearCount);
        }
        self.ratios = ratios;
        Ok(())
    }

    /// Replaces both chords.
    pub fn set_bindings(&mut self, up: GearKeyChord, down: GearKeyChord)
        ensures
            *final(self) == (GearboxConfig { gear_up: up, gear_down: down, ..*old(self) }),
    {
        self.gear_up = up;
        self.gear_down = down;
    }

    /// Moves the divider between the reverse and the forward bank.
    pub fn set_reverse_gears(&mut self, reverse_gears: u8) -> (done: Result<(), GearboxError>)
        ensures
            done == (if reverse_gears > old(self).ratios@.len() {
                Err::<(), GearboxError>(GearboxError::InvalidReverseGearCount)
            } else {
                Ok(())
            }),
            done is Err ==> *final(self) == *old(self),
            done is Ok ==> *final(self) == (GearboxConfig { reverse_gears, ..*old(self) }),
    {
        if reverse_gears as usize > self.ratios.len() {
            return Err(GearboxError::InvalidReverseGearCount);
        }
        self.reverse_gears = reverse_gears;
        Ok(())
    }
}

/// The ratios of the longest default strip, in shift order, by their encodings.
///
/// The strip starts from 3, 1 and 0.75. Each further ratio is the geometric
/// mean of the two neighbours furthest apart.
fn default_ratio(place: u8) -> (bits: u32)
    ensures
        bits == default_ratio_bits(place as int),
{
    if place == 0 {
        0x4040_0000
    } else if place == 1 {
        0x4033_4252
    } else if place == 2 {
        0x4027_5D16
    } else if place == 3 {
        0x401C_41EE
    } else if place == 4 {
        0x4011_E371
    } else if place == 5 {
        0x4008_351A
    } else if place == 6 {
        0x3FFE_5673
    } else if place == 7 {
        0x3FDD_B3D7
    } else if place == 8 {
        0x3FC1_413F
    } else if place == 9 {
        0x3FB4_6E40
    } else if place == 10 {
        0x3FA8_751D
    } else if place == 11 {
        0x3F92_D78A
    } else if place == 12 {
        0x3F89_1901
    } else if place == 13 {
        0x3F80_0000
    } else if place == 14 {
        0x3F6E_3C1F
    } else if place == 15 {
        0x3F5D_B3D7
    } else if place == 16 {
        0x3F4E_5143
    } else {
        0x3F40_0000
    }
}

/// The ratios of the longest default strip, in shift order, by their encodings.
pub open spec fn default_ratio_bits(place: int) -> u32 {
    if place == 0 {
        0x4040_0000
    } else if place == 1 {
        0x4033_4252
    } else if place == 2 {
        0x4027_5D16
    } else if place == 3 {
        0x401C_41EE
    } else if place == 4 {
        0x4011_E371
    } else if place == 5 {
        0x4008_351A
    } else if place == 6 {
        0x3FFE_5673
    } else if place == 7 {
        0x3FDD_B3D7
    } else if place == 8 {
        0x3FC1_413F
    } else if place == 9 {
        0x3FB4_6E40
    } else if place == 10 {
        0x3FA8_751D
    } else if place == 11 {
        0x3F92_D78A
    } else if place == 12 {
        0x3F89_1901
    } else if place == 13 {
        0x3F80_0000
    } else if place == 14 {
        0x3F6E_3C1F
    } else if place == 15 {
        0x3F5D_B3D7
    } else if place == 16 {
        0x3F4E_5143
    } else {
        0x3F40_0000
    }
}

/// The length of the shortest default strip that holds each ratio of the longest.
fn default_length(place: u8) -> (length: u8)
    ensures
        length == default_since(place as int),
{
    if place == 0 {
        2
    } else if place == 1 {
        18
    } else if place == 2 {
        8
    } else if place == 3 {
        17
    } else if place == 4 {
        5
    } else if place == 5 {
        16
    } else if place == 6 {
        11
    } else if place == 7 {
        4
    } else if place == 8 {
        10
    } else if place == 9 {
        15
    } else if place == 10 {
        6
    } else if place == 11 {
        9
    } else if place == 12 {
        14
    } else if place == 13 {
        1
    } else if place == 14 {
        13
    } else if place == 15 {
        7
    } else if place == 16 {
        12
    } else {
        3
    }
}

/// The length of the shortest default strip that holds each ratio of the longest.
pub open spec fn default_since(place: int) -> int {
    if place == 0 {
        2
    } else if place == 1 {
        18
    } else if place == 2 {
        8
    } else if place == 3 {
        17
    } else if place == 4 {
        5
    } else if place == 5 {
        16
    } else if place == 6 {
        11
    } else if place == 7 {
        4
    } else if place == 8 {
        10
    } else if place == 9 {
        15
    } else if place == 10 {
        6
    } else if place == 11 {
        9
    } else if place == 12 {
        14
    } else if place == 13 {
        1
    } else if place == 14 {
        13
    } else if place == 15 {
        7
    } else if place == 16 {
        12
    } else {
        3
    }
}

/// The ratios among the first `places` of the longest strip that a strip of `count` gears holds.
pub open spec fn default_strip(count: int, places: int) -> Seq<Scalar>
    decreases places,
{
    if places <= 0 {
        Seq::empty()
    } else if default_since(places - 1) <= count {
        default_strip(count, places - 1).push(Scalar { bits: default_ratio_bits(places - 1) })
    } else {
        default_strip(count, places - 1)
    }
}

/// Default strips fall strictly within range.
proof fn lemma_default_strip(count: int, places: int)
    requires
        0 <= places <= 18,
    ensures
        descending(default_strip(count, places)),
        forall|i: int|
            #![trigger default_strip(count, places)[i]]
            0 <= i < default_strip(count, places).len() ==> ratio_in_range(
                default_strip(count, places)[i],
            ) && (places < 18 ==> default_strip(count, places)[i].key() > default_ratio_bits(places)),
    decreases places,
{
    if places > 0 {
        lemma_default_strip(count, places - 1);
        let shorter = default_strip(count, places - 1);
        let strip = default_strip(count, places);
        assert forall|i: int| #![trigger strip[i]] 0 <= i < strip.len() implies ratio_in_range(strip[i])
            && (places < 18 ==> strip[i].key() > default_ratio_bits(places)) by {
            if i < shorter.len() {
                assert(strip[i] == shorter[i]);
            }
        }
        assert forall|i: int, j: int| #![trigger strip[i], strip[j]]
            0 <= i < j < strip.len() implies strip[j].key() < strip[i].key() by {
            assert(strip[i] == shorter[i]);
            if j < shorter.len() {
                assert(strip[j] == shorter[j]);
            }
        }
    }
}

/// A default strip of `count` gears holds `count` ratios.
proof fn lemma_default_count(count: int)
    requires
        1 <= count <= 18,
    ensures
        default_strip(count, 18).len() == count,
{
    reveal_with_fuel(default_strip, 19);
}

/// The upshift chord of a fresh gearbox.
#[verifier::allow_in_spec]
fn default_up() -> GearKeyChord
    returns
        (GearKeyChord::new(GearKey::Letter('R'))),
{
    GearKeyChord::new(GearKey::Letter('R'))
}

/// The downshift chord of a fresh gearbox.
#[verifier::allow_in_spec]
fn default_down() -> GearKeyChord
    returns
        (GearKeyChord::new(GearKey::Letter('F'))),
{
    GearKeyChord::new(GearKey::Letter('F'))
}

/// Whether gap `at` is the widest: none is wider, and none after it is as wide.
pub open spec fn is_widest(quotients: Seq<Scalar>, at: int) -> bool {
    &&& 0 <= at < quotients.len()
    &&& forall|i: int|
        #![trigger quotients[i]]
        0 <= i < quotients.len() ==> quotients[i].total_key() <= quotients[at].total_key()
    &&& forall|i: int|
        #![trigger quotients[i]]
        at < i < quotients.len() ==> quotients[i].total_key() < quotients[at].total_key()
}

/// The last of the widest gaps, given the quotient of each pair of neighbours.
pub fn widest_gap(quotients: &[Scalar]) -> (at: usize)
    requires
        quotients@.len() > 0,
    ensures
        is_widest(quotients@, at as int),
{
    let mut at: usize = 0;
    let mut i: usize = 1;
    while i < quotients.len()
        invariant
            at < i <= quotients@.len(),
            forall|j: int|
                #![trigger quotients@[j]]
                0 <= j < i ==> quotients@[j].total_key() <= quotients@[at as int].total_key(),
            forall|j: int|
                #![trigger quotients@[j]]
                at < j < i ==> quotients@[j].total_key() < quotients@[at as int].total_key(),
        decreases quotients@.len() - i,
    {
        if quotients[at].total_less_or_equal(quotients[i]) {
            at = i;
        }
        i += 1;
    }
    at
}

/// The ratios that a strip keeps before it grows to `gear_count` gears.
pub open spec fn trimmed_ratios(ratios: Seq<Scalar>, gear_count: int) -> Seq<Scalar> {
    let three = Scalar { bits: 0x4040_0000 };
    let one = Scalar { bits: 0x3F80_0000 };
    let low = Scalar { bits: 0x3F40_0000 };
    if gear_count == 1 {
        seq![one]
    } else {
        let cut = if ratios.len() > gear_count {
            ratios.take(gear_count)
        } else {
            ratios
        };
        let pair = if cut.len() == 1 {
            seq![three, one]
        } else {
            cut
        };
        if pair.len() == 2 && gear_count >= 3 && pair[0].same_value(three) && pair[1].same_value(
            one,
        ) {
            pair.push(low)
        } else {
            pair
        }
    }
}

impl GearboxConfig {
    /// Direct automatic configuration used without a transmission.
    pub fn direct() -> (config: Self)
        ensures
            config.wf(),
            config.mode == ShiftMode::Auto,
            config.ratios@ == seq![Scalar { bits: 0x3F80_0000 }],
            config.reverse_gears == 0,
            config.gear_up == GearKeyChord::new(GearKey::Letter('R')),
            config.gear_down == GearKeyChord::new(GearKey::Letter('F')),
    {
        let config = GearboxConfig {
            mode: ShiftMode::Auto,
            ratios: vec![Scalar::one()],
            reverse_gears: 0,
            gear_up: default_up(),
            gear_down: default_down(),
        };
        assert(config.ratios@ =~= seq![Scalar { bits: 0x3F80_0000 }]);
        config
    }

    /// Default configuration for a chain depth. A depth of zero is direct drive.
    pub fn for_depth(depth: u8, gas: bool) -> (config: Self)
        ensures
            config.wf(),
            config.mode == ShiftMode::Auto,
            config.ratios@ == default_strip(
                if depth < 17 {
                    depth + 1
                } else {
                    18
                },
                18,
            ),
            config.ratios@.len() == (if depth < 17 {
                depth + 1
            } else {
                18
            }),
            config.reverse_gears == (if gas && depth != 0 {
                1int
            } else {
                0
            }),
            config.gear_up == GearKeyChord::new(GearKey::Letter('R')),
            config.gear_down == GearKeyChord::new(GearKey::Letter('F')),
    {
        let count: u8 = if depth < 17 {
            depth + 1
        } else {
            18
        };
        let mut ratios: Vec<Scalar> = Vec::new();
        let mut place: u8 = 0;
        while place < 18
            invariant
                place <= 18,
                ratios@ == default_strip(count as int, place as int),
            decreases 18 - place,
        {
            if default_length(place) <= count {
                ratios.push(Scalar::from_bits(default_ratio(place)));
            }
            place += 1;
        }
        proof {
            lemma_default_strip(count as int, 18);
            lemma_default_count(count as int);
        }
        GearboxConfig {
            mode: ShiftMode::Auto,
            ratios,
            reverse_gears: if gas && depth != 0 {
                1
            } else {
                0
            },
            gear_up: default_up(),
            gear_down: default_down(),
        }
    }

    /// Cuts the strip for `gear_count` gears; says how many ratios it still lacks.
    pub fn trimmed(self, gear_count: usize) -> (trimmed: (Self, usize))
        requires
            self.wf(),
            1 <= gear_count <= MAX_GEARS,
        ensures
            trimmed.0.wf(),
            trimmed.0.ratios@ == trimmed_ratios(self.ratios@, gear_count as int),
            trimmed.1 == gear_count - trimmed.0.ratios@.len(),
            trimmed.0.mode == self.mode,
            trimmed.0.gear_up == self.gear_up,
            trimmed.0.gear_down == self.gear_down,
            trimmed.0.reverse_gears == (if gear_count == 1 {
                0
            } else if self.reverse_gears as int > gear_count {
                gear_count as int
            } else {
                self.reverse_gears as int
            }),
    {
        let three = Scalar::from_bits(0x4040_0000);
        let one = Scalar::one();
        let ghost before = self.ratios@;
        let mut ratios: Vec<Scalar> = Vec::new();
        if gear_count == 1 {
            ratios.push(one);
            assert(ratios@ =~= seq![Scalar { bits: 0x3F80_0000 }]);
            let config = GearboxConfig {
                mode: self.mode,
                ratios,
                reverse_gears: 0,
                gear_up: self.gear_up,
                gear_down: self.gear_down,
            };
            return (config, 0);
        }
        let mut i: usize = 0;
        while i < self.ratios.len() && i < gear_count
            invariant
                before == self.ratios@,
                i <= before.len(),
                i <= gear_count,
                ratios@ =~= before.take(i as int),
            decreases gear_count - i,
        {
            ratios.push(self.ratios[i]);
            i += 1;
        }
        proof {
            assert(before.take(before.len() as int) =~= before);
            assert forall|j: int| 0 <= j < ratios@.len() implies #[trigger] ratio_in_range(ratios@[j]) by {
                assert(ratio_in_range(before[j]));
            }
            assert(descending(ratios@)) by {
                assert forall|k: int, l: int| #![trigger ratios@[k], ratios@[l]]
                    0 <= k < l < ratios@.len() implies ratios@[l].key() < ratios@[k].key() by {
                    assert(before[l].key() < before[k].key());
                }
            }
        }
        if ratios.len() == 1 {
            ratios = Vec::new();
            ratios.push(three);
            ratios.push(one);
            assert(ratios@ =~= seq![Scalar { bits: 0x4040_0000 }, Scalar { bits: 0x3F80_0000 }]);
        }
        if ratios.len() == 2 && gear_count >= 3 && ratios[0].equal(three) && ratios[1].equal(one) {
            ratios.push(Scalar::from_bits(0x3F40_0000));
        }
        assert(ratios@ =~= trimmed_ratios(before, gear_count as int));
        let missing: usize = gear_count - ratios.len();
        let reverse_gears: u8 = if self.reverse_gears as usize > ratios.len() {
            ratios.len() as u8
        } else {
            self.reverse_gears
        };
        let config = GearboxConfig {
            mode: self.mode,
            ratios,
            reverse_gears,
            gear_up: self.gear_up,
            gear_down: self.gear_down,
        };
        (config, missing)
    }

    /// Puts `mean` into the widest gap of the strip, given the quotient of each
    /// pair of neighbours.
    pub fn grow(&mut self, quotients: &[Scalar], mean: Scalar)
        requires
            old(self).ratios@.len() >= 2,
            quotients@.len() == old(self).ratios@.len() - 1,
        ensures
            exists|at: int| #[trigger]
                is_widest(quotients@, at) && final(self).ratios@ == old(self).ratios@.insert(
                    at + 1,
                    mean,
                ),
            final(self).mode == old(self).mode,
            final(self).reverse_gears == old(self).reverse_gears,
            final(self).gear_up == old(self).gear_up,
            final(self).gear_down == old(self).gear_down,
    {
        let at: usize = widest_gap(quotients);
        let gears: usize = self.ratios.len();
        assert(at + 1 < gears);
        self.ratios.insert(at + 1, mean);
        assert(is_widest(quotients@, at as int));
    }
}

/// A strip that takes a ratio strictly between two neighbours stays a strip
/// and keeps its ends.
pub proof fn growing_keeps_order_and_ends(ratios: Seq<Scalar>, at: int, mean: Scalar)
    requires
        ratios_fault(ratios) is None,
        ratios.len() < MAX_GEARS,
        0 <= at < ratios.len() - 1,
        mean.finite(),
        ratios[at + 1].key() < mean.key() < ratios[at].key(),
    ensures
        ratios_fault(ratios.insert(at + 1, mean)) is None,
        ratios.insert(at + 1, mean).first() == ratios.first(),
        ratios.insert(at + 1, mean).last() == ratios.last(),
{
    let grown = ratios.insert(at + 1, mean);
    assert(ratio_in_range(ratios[at]));
    assert(ratio_in_range(ratios[at + 1]));
    assert forall|i: int| 0 <= i < grown.len() implies #[trigger] ratio_in_range(grown[i]) by {
        if i <= at {
            assert(ratio_in_range(ratios[i]));
        } else if i > at + 1 {
            assert(ratio_in_range(ratios[i - 1]));
        }
    }
    assert forall|i: int, j: int| #![trigger grown[i], grown[j]] 0 <= i < j < grown.len() implies grown[j].key()
        < grown[i].key() by {
        let p = if i <= at { i } else { i - 1 };
        let q = if j <= at { j } else { j - 1 };
        if i == at + 1 {
            if q > at + 1 {
                assert(ratios[q].key() < ratios[at + 1].key());
            }
        } else if j == at + 1 {
            if p < at {
                assert(ratios[at].key() < ratios[p].key());
            }
        } else {
            assert(ratios[q].key() < ratios[p].key());
        }
    }
}

/// What the bounds of a ratio are worth: a quarter and twenty.
proof fn lemma_ratio_bounds()
    ensures
        encodes(MIN_GEAR_RATIO, 1, 4),
        encodes(MAX_GEAR_RATIO, 20, 1),
        MIN_GEAR_RATIO < 0x7F80_0000 && MAX_GEAR_RATIO < 0x7F80_0000,
{
    lemma2_to64();
    assert(0x3E80_0000int / 0x80_0000 == 125 && 0x3E80_0000int % 0x80_0000 == 0);
    lemma_encoded(MIN_GEAR_RATIO, 1, 4, 25);
    assert(0x41A0_0000int / 0x80_0000 == 131 && 0x41A0_0000int % 0x80_0000 == 0x20_0000);
    lemma_encoded(MAX_GEAR_RATIO, 20, 1, 19);
}

/// Ratios make a strip when there are one to eighteen of them, each from a
/// quarter up to twenty, and each below the one before it. An error tells which
/// of these they lack.
pub proof fn strips_fall_from_twenty_to_a_quarter(ratios: Seq<Scalar>)
    ensures
        ({
            let counted = 1 <= ratios.len() <= 18;
            let ranged = forall|i: int| #![trigger ratios[i]]
                0 <= i < ratios.len() ==> ratios[i].finite() && units_of_one() <= 4
                    * ratios[i].units() && ratios[i].units() <= 20 * units_of_one();
            let falling = forall|i: int, j: int|
                #![trigger ratios[i], ratios[j]]
                0 <= i < j < ratios.len() ==> ratios[j].units() < ratios[i].units();
            &&& ratios_fault(ratios) is None <==> counted && ranged && falling
            &&& ratios_fault(ratios) == Some(GearboxError::InvalidGearCount) <==> !counted
            &&& ratios_fault(ratios) == Some(GearboxError::RatioOutOfRange) <==> counted && !ranged
            &&& ratios_fault(ratios) == Some(GearboxError::RatiosNotDescending) <==> counted
                && ranged && !falling
        }),
{
    lemma_ratio_bounds();
    let low = Scalar { bits: MIN_GEAR_RATIO };
    let high = Scalar { bits: MAX_GEAR_RATIO };
    assert forall|i: int| #![trigger ratios[i]] 0 <= i < ratios.len() implies (ratio_in_range(
        ratios[i],
    ) <==> (ratios[i].finite() && units_of_one() <= 4 * ratios[i].units() && ratios[i].units()
        <= 20 * units_of_one())) by {
        if ratios[i].finite() {
            numbers_compare_as_their_values(low, ratios[i]);
            numbers_compare_as_their_values(ratios[i], high);
        }
    }
    if forall|i: int| #![trigger ratios[i]] 0 <= i < ratios.len() ==> ratio_in_range(ratios[i]) {
        assert forall|i: int, j: int|
            #![trigger ratios[i], ratios[j]]
            0 <= i < j < ratios.len() implies (ratios[j].key() < ratios[i].key() <==> ratios[j].units()
            < ratios[i].units()) by {
            assert(ratio_in_range(ratios[i]) && ratio_in_range(ratios[j]));
            numbers_compare_as_their_values(ratios[j], ratios[i]);
        }
    }
}

/// A strip cut for fewer gears keeps its first ratios; one gear is direct drive.
/// A strip that has to grow keeps what it has, a single ratio first becoming
/// three to one and one to one, and that pair taking three to four below it.
pub proof fn cut_strips_keep_their_first_ratios(ratios: Seq<Scalar>, gear_count: int)
    requires
        ratios_fault(ratios) is None,
        1 <= gear_count <= 18,
    ensures
        ({
            let kept = trimmed_ratios(ratios, gear_count);
            &&& 1 <= kept.len() <= gear_count
            &&& gear_count == 1 ==> kept[0].units() == units_of_one()
            &&& gear_count >= 2 && ratios.len() >= gear_count ==> kept.len() == gear_count
                && forall|i: int| #![trigger kept[i]] 0 <= i < gear_count ==> kept[i] == ratios[i]
            &&& gear_count >= 2 && ratios.len() >= 2 ==> forall|i: int|
                #![trigger kept[i]]
                0 <= i < ratios.len() && i < gear_count ==> kept[i] == ratios[i]
            &&& gear_count >= 2 && ratios.len() == 1 ==> kept[0].units() == 3 * units_of_one()
                && kept[1].units() == units_of_one()
            &&& gear_count >= 3 && kept.len() == 3 && ratios.len() < 3 ==> kept[0].units() == 3
                * units_of_one() && kept[1].units() == units_of_one() && 4 * kept[2].units() == 3
                * units_of_one()
            &&& gear_count >= 3 && ratios.len() < 3 ==> (kept.len() == 2 <==> (ratios.len() == 2
                && !(ratios[0].units() == 3 * units_of_one() && ratios[1].units()
                == units_of_one())))
        }),
{
    lemma2_to64();
    let three = Scalar { bits: 0x4040_0000 };
    let one = Scalar { bits: 0x3F80_0000 };
    assert(0x4040_0000int / 0x80_0000 == 128 && 0x4040_0000int % 0x80_0000 == 0x40_0000);
    lemma_encoded(0x4040_0000, 3, 1, 22);
    assert(0x3F80_0000int / 0x80_0000 == 127 && 0x3F80_0000int % 0x80_0000 == 0);
    lemma_encoded(0x3F80_0000, 1, 1, 23);
    assert(0x3F40_0000int / 0x80_0000 == 126 && 0x3F40_0000int % 0x80_0000 == 0x40_0000);
    lemma_encoded(0x3F40_0000, 3, 4, 24);
    assert(ratio_in_range(ratios[0]));
    numbers_compare_as_their_values(ratios[0], three);
    if ratios.len() >= 2 {
        assert(ratio_in_range(ratios[1]));
        numbers_compare_as_their_values(ratios[1], one);
    }
}

/// The last place before `place` of the longest default strip that a shorter
/// one holds already.
pub open spec fn held_before(place: int, at: int) -> int
    decreases at,
{
    if at <= 0 || default_since(at) < default_since(place) {
        at
    } else {
        held_before(place, at - 1)
    }
}

/// The first place behind `place` of the longest default strip that a shorter
/// one holds already.
pub open spec fn held_behind(place: int, at: int) -> int
    decreases 17 - at,
{
    if at >= 17 || default_since(at) < default_since(place) {
        at
    } else {
        held_behind(place, at + 1)
    }
}

/// Whether a number is the geometric mean of two others, to within a millionth.
pub open spec fn middles(low: int, mean: int, high: int) -> bool {
    -(low * high) <= (mean * mean - low * high) * 1_000_000 <= low * high
}

/// A factor common to all three leaves a mean a mean.
proof fn lemma_middles(low: int, mean: int, high: int, p: int)
    requires
        middles(low, mean, high),
    ensures
        middles(low * p, mean * p, high * p),
{
    let off = mean * mean - low * high;
    assert((mean * p) * (mean * p) - (low * p) * (high * p) == off * (p * p)) by (nonlinear_arith)
        requires
            off == mean * mean - low * high,
    ;
    assert((low * p) * (high * p) == (low * high) * (p * p)) by (nonlinear_arith);
    let span = low * high;
    assert(-(span * (p * p)) <= (off * (p * p)) * 1_000_000 <= span * (p * p)) by (nonlinear_arith)
        requires
            -span <= off * 1_000_000 <= span,
    ;
}

/// What a default ratio is worth: its fraction, above the least exponent there.
proof fn lemma_strip_worth(place: int) -> (fraction: int)
    requires
        0 <= place < 18,
    ensures
        coded(default_ratio_bits(place)) == fraction * pow2(125),
        ({
            let bits = default_ratio_bits(place) as int;
            fraction == (0x80_0000 + bits % 0x80_0000) * (if bits >= 0x4000_0000 {
                4int
            } else if bits >= 0x3F80_0000 {
                2
            } else {
                1
            })
        }),
{
    let bits = default_ratio_bits(place) as int;
    let whole = 0x80_0000 + bits % 0x80_0000;
    lemma_pow2_unfold(126);
    lemma_pow2_unfold(127);
    let p = pow2(125) as int;
    assert(whole * (2 * p) == (whole * 2) * p && whole * (4 * p) == (whole * 4) * p)
        by (nonlinear_arith);
    if bits >= 0x4000_0000 {
        assert(bits / 0x80_0000 == 128);
        whole * 4
    } else if bits >= 0x3F80_0000 {
        assert(bits / 0x80_0000 == 127);
        whole * 2
    } else {
        assert(bits / 0x80_0000 == 126);
        whole
    }
}

/// Each default strip is the next shorter one with one ratio more, the
/// geometric mean of the two it comes between. The first ones hold one to one,
/// three to one and three to four.
pub proof fn default_strips_grow_by_geometric_means(place: int)
    requires
        0 <= place < 18,
    ensures
        default_since(place) > 3 ==> middles(
            coded(default_ratio_bits(held_before(place, place - 1))),
            coded(default_ratio_bits(place)),
            coded(default_ratio_bits(held_behind(place, place + 1))),
        ) && held_before(place, place - 1) < place < held_behind(place, place + 1),
        default_since(place) == 1 ==> coded(default_ratio_bits(place)) == units_of_one(),
        default_since(place) == 2 ==> coded(default_ratio_bits(place)) == 3 * units_of_one(),
        default_since(place) == 3 ==> 4 * coded(default_ratio_bits(place)) == 3 * units_of_one(),
        1 <= default_since(place) <= 18,
        forall|other: int|
            0 <= other < 18 && other != place ==> #[trigger] default_since(other) != default_since(
                place,
            ),
{
    reveal_with_fuel(held_before, 18);
    reveal_with_fuel(held_behind, 18);
    lemma2_to64();
    assert(0x4040_0000int / 0x80_0000 == 128 && 0x4040_0000int % 0x80_0000 == 0x40_0000);
    lemma_encoded(0x4040_0000, 3, 1, 22);
    assert(0x3F80_0000int / 0x80_0000 == 127 && 0x3F80_0000int % 0x80_0000 == 0);
    lemma_encoded(0x3F80_0000, 1, 1, 23);
    assert(0x3F40_0000int / 0x80_0000 == 126 && 0x3F40_0000int % 0x80_0000 == 0x40_0000);
    lemma_encoded(0x3F40_0000, 3, 4, 24);
    if default_since(place) > 3 {
        let before = held_before(place, place - 1);
        let behind = held_behind(place, place + 1);
        let low = lemma_strip_worth(before);
        let mean = lemma_strip_worth(place);
        let high = lemma_strip_worth(behind);
        assert(middles(low, mean, high)) by {
            lemma_middle_fractions(place, before, behind);
        }
        lemma_middles(low, mean, high, pow2(125) as int);
    }
}

/// The fractions of the default ratios are means of each other.
proof fn lemma_middle_fractions(place: int, before: int, behind: int)
    requires
        0 <= place < 18,
        default_since(place) > 3,
        before == held_before(place, place - 1),
        behind == held_behind(place, place + 1),
    ensures
        middles(fraction_at(before), fraction_at(place), fraction_at(behind)),
{
    reveal_with_fuel(held_before, 18);
    reveal_with_fuel(held_behind, 18);
    if place == 1 {
        assert(before == 0 && behind == 2);
        assert(middles(50331648, 46991688, 43873368));
    }
    if place == 2 {
        assert(before == 0 && behind == 4);
        assert(middles(50331648, 43873368, 38243780));
    }
    if place == 3 {
        assert(before == 2 && behind == 4);
        assert(middles(43873368, 40961976, 38243780));
    }
    if place == 4 {
        assert(before == 0 && behind == 7);
        assert(middles(50331648, 38243780, 29058990));
    }
    if place == 5 {
        assert(before == 4 && behind == 6);
        assert(middles(38243780, 35705960, 33336550));
    }
    if place == 6 {
        assert(before == 4 && behind == 7);
        assert(middles(38243780, 33336550, 29058990));
    }
    if place == 7 {
        assert(before == 0 && behind == 13);
        assert(middles(50331648, 29058990, 16777216));
    }
    if place == 8 {
        assert(before == 7 && behind == 10);
        assert(middles(29058990, 25330302, 22080058));
    }
    if place == 9 {
        assert(before == 8 && behind == 10);
        assert(middles(25330302, 23649408, 22080058));
    }
    if place == 10 {
        assert(before == 7 && behind == 13);
        assert(middles(29058990, 22080058, 16777216));
    }
    if place == 11 {
        assert(before == 10 && behind == 13);
        assert(middles(22080058, 19246868, 16777216));
    }
    if place == 12 {
        assert(before == 11 && behind == 13);
        assert(middles(19246868, 17969666, 16777216));
    }
    if place == 14 {
        assert(before == 13 && behind == 15);
        assert(middles(16777216, 15612959, 14529495));
    }
    if place == 15 {
        assert(before == 13 && behind == 17);
        assert(middles(16777216, 14529495, 12582912));
    }
    if place == 16 {
        assert(before == 15 && behind == 17);
        assert(middles(14529495, 13521219, 12582912));
    }
}

/// The fraction of a default ratio above the least exponent there.
spec fn fraction_at(place: int) -> int {
    let bits = default_ratio_bits(place) as int;
    (0x80_0000 + bits % 0x80_0000) * (if bits >= 0x4000_0000 {
        4int
    } else if bits >= 0x3F80_0000 {
        2
    } else {
        1
    })
}

/// A default strip holds the ratios of the longest one that shorter strips hold
/// already, in their order there.
pub proof fn longer_default_strips_hold_the_shorter(count: int, i: int)
    requires
        1 <= count < 18,
        0 <= i < count,
    ensures
        default_strip(count, 18).len() == count,
        default_strip(count + 1, 18).len() == count + 1,
        default_strip(count + 1, 18).contains(default_strip(count, 18)[i]),
{
    lemma_default_count(count);
    lemma_default_count(count + 1);
    lemma_held_places(count, 18, i);
}

/// What a strip holds, a longer one holds.
proof fn lemma_held_places(count: int, places: int, i: int)
    requires
        0 <= i < default_strip(count, places).len(),
    ensures
        default_strip(count + 1, places).contains(default_strip(count, places)[i]),
    decreases places,
{
    if places > 0 {
        let shorter = default_strip(count, places - 1);
        let longer = default_strip(count + 1, places - 1);
        let wide = default_strip(count + 1, places);
        if i < shorter.len() {
            lemma_held_places(count, places - 1, i);
            let at = choose|at: int| 0 <= at < longer.len() && longer[at] == shorter[i];
            assert(wide[at] == shorter[i]);
        } else {
            assert(wide[wide.len() - 1] == default_strip(count, places)[i]);
        }
    }
}

/// The gap that takes the next ratio is the widest, and the last of those.
pub proof fn the_widest_gap_is_one(quotients: Seq<Scalar>, a: int, b: int)
    requires
        is_widest(quotients, a),
        is_widest(quotients, b),
    ensures
        a == b,
        forall|i: int|
            #![trigger quotients[i]]
            0 <= i < quotients.len() ==> !quotients[a].below(quotients[i]) && (i > a
                ==> quotients[i] != quotients[a]),
{
    assert(quotients[a].total_key() <= quotients[b].total_key());
    assert forall|i: int| #![trigger quotients[i]] 0 <= i < quotients.len() implies !quotients[a].below(
        quotients[i],
    ) && (i > a ==> quotients[i] != quotients[a]) by {
        assert(quotients[i].total_key() <= quotients[a].total_key());
    }
}

} // verus!
