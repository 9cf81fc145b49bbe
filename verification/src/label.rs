//! How keys read on a control panel.

use vstd::prelude::*;
use vstd::string::*;

use crate::drive::DriveKey;
use crate::gearbox::{GearKey, GearKeyChord};

verus! {

/// `String::push` puts one character behind the others.
pub assume_specification[ String::push ](text: &mut String, symbol: char)
    ensures
        final(text)@ == old(text)@.push(symbol),
;

/// The character of a decimal digit.
pub open spec fn digit_symbol(digit: int) -> char {
    (48 + digit) as char
}

/// A number in decimal.
pub open spec fn decimal(number: nat) -> Seq<char>
    decreases number,
{
    if number < 10 {
        seq![digit_symbol(number as int)]
    } else {
        decimal(number / 10).push(digit_symbol(number as int % 10))
    }
}

/// Puts a number behind a text, in decimal.
fn push_decimal(text: &mut String, number: u8)
    ensures
        final(text)@ == old(text)@ + decimal(number as nat),
    decreases number,
{
    let ghost before = text@;
    let last: u8 = number % 10;
    if number >= 10 {
        push_decimal(text, number / 10);
        text.push((48 + last) as char);
        assert(text@ =~= before + decimal(number as nat));
    } else {
        text.push((48 + last) as char);
        assert(text@ =~= before + decimal(number as nat));
    }
}

impl GearKey {
    /// How the key reads.
    pub open spec fn reading(self) -> Seq<char> {
        match self {
            GearKey::Letter(letter) => seq![letter],
            GearKey::Digit(digit) => decimal(digit as nat),
            GearKey::Space => "Space"@,
            GearKey::ArrowUp => "Up"@,
            GearKey::ArrowDown => "Down"@,
            GearKey::ArrowLeft => "Left"@,
            GearKey::ArrowRight => "Right"@,
            GearKey::PageUp => "Page Up"@,
            GearKey::PageDown => "Page Down"@,
        }
    }

    /// Puts the key's reading behind a text.
    fn write(self, text: &mut String)
        ensures
            final(text)@ == old(text)@ + self.reading(),
    {
        let ghost before = text@;
        match self {
            GearKey::Letter(letter) => {
                text.push(letter);
                assert(text@ =~= before + self.reading());
            },
            GearKey::Digit(digit) => push_decimal(text, digit),
            GearKey::Space => text.append("Space"),
            GearKey::ArrowUp => text.append("Up"),
            GearKey::ArrowDown => text.append("Down"),
            GearKey::ArrowLeft => text.append("Left"),
            GearKey::ArrowRight => text.append("Right"),
            GearKey::PageUp => text.append("Page Up"),
            GearKey::PageDown => text.append("Page Down"),
        }
    }

    /// How the key reads.
    pub fn label(self) -> (label: String)
        ensures
            label@ == self.reading(),
    {
        let mut label: String = String::new();
        self.write(&mut label);
        assert(label@ =~= self.reading());
        label
    }
}

/// A modifier's reading where it is held.
pub open spec fn modifier(held: bool, reading: Seq<char>) -> Seq<char> {
    if held {
        reading
    } else {
        Seq::empty()
    }
}

impl GearKeyChord {
    /// How the chord reads: its modifiers, then its key.
    pub open spec fn reading(self) -> Seq<char> {
        modifier(self.control, "Ctrl+"@) + modifier(self.alt, "Alt+"@) + modifier(
            self.shift,
            "Shift+"@,
        ) + modifier(self.super_key, "Super+"@) + self.key.reading()
    }

    /// How the chord reads.
    pub fn label(self) -> (label: String)
        ensures
            label@ == self.reading(),
    {
        let mut label: String = String::new();
        if self.control {
            label.append("Ctrl+");
        }
        assert(label@ =~= modifier(self.control, "Ctrl+"@));
        if self.alt {
            label.append("Alt+");
        }
        assert(label@ =~= modifier(self.control, "Ctrl+"@) + modifier(self.alt, "Alt+"@));
        if self.shift {
            label.append("Shift+");
        }
        assert(label@ =~= modifier(self.control, "Ctrl+"@) + modifier(self.alt, "Alt+"@) + modifier(
            self.shift,
            "Shift+"@,
        ));
        if self.super_key {
            label.append("Super+");
        }
        assert(label@ =~= modifier(self.control, "Ctrl+"@) + modifier(self.alt, "Alt+"@) + modifier(
            self.shift,
            "Shift+"@,
        ) + modifier(self.super_key, "Super+"@));
        self.key.write(&mut label);
        label
    }
}

impl DriveKey {
    /// How the key reads: its character.
    pub fn label(self) -> (label: String)
        ensures
            label@ == seq![self.code() as char],
    {
        let mut label: String = String::new();
        label.push(self.symbol());
        assert(label@ =~= seq![self.code() as char]);
        label
    }
}

/// What decimal digits stand for, the first of them the most significant.
pub open spec fn stands_for_number(digits: Seq<char>) -> int
    decreases digits.len(),
{
    if digits.len() == 0 {
        0
    } else {
        stands_for_number(digits.drop_last()) * 10 + (digits.last() as int - '0' as int)
    }
}

/// A number in decimal is made of digits, does not start with a nought unless
/// it is nought, and stands for the number.
pub proof fn decimals_stand_for_their_number(number: nat)
    ensures
        stands_for_number(decimal(number)) == number,
        decimal(number).len() > 0,
        number > 0 ==> decimal(number)[0] != '0',
        forall|i: int|
            #![trigger decimal(number)[i]]
            0 <= i < decimal(number).len() ==> '0' <= decimal(number)[i] <= '9',
    decreases number,
{
    let digits = decimal(number);
    if number < 10 {
        assert(digits.drop_last() =~= Seq::<char>::empty());
        assert(stands_for_number(digits.drop_last()) == 0);
    } else {
        decimals_stand_for_their_number(number / 10);
        assert(digits.drop_last() =~= decimal(number / 10));
        assert(digits[0] == decimal(number / 10)[0]);
        assert forall|i: int| #![trigger digits[i]] 0 <= i < digits.len() implies '0' <= digits[i]
            <= '9' by {
            if i < digits.len() - 1 {
                assert(digits[i] == decimal(number / 10)[i]);
            }
        }
    }
}

/// A chord's reading ends with its key's, and is no longer than that exactly
/// when no modifier is held. Each modifier that is held reads before it, by its
/// own name and with a plus behind it.
pub proof fn chords_read_modifiers_then_key(chord: GearKeyChord, plain: GearKeyChord)
    requires
        plain == (GearKeyChord {
            shift: false,
            control: false,
            alt: false,
            super_key: false,
            ..chord
        }),
    ensures
        plain.reading() == chord.key.reading(),
        chord.key.reading().is_suffix_of(chord.reading()),
        chord.control ==> chord.reading()[0] == 'C' && chord.reading()[4] == '+',
        !chord.control && chord.alt ==> chord.reading()[0] == 'A' && chord.reading()[3] == '+',
        !chord.control && !chord.alt && chord.shift ==> chord.reading()[0] == 'S'
            && chord.reading()[1] == 'h' && chord.reading()[5] == '+',
        !chord.control && !chord.alt && !chord.shift && chord.super_key ==> chord.reading()[0]
            == 'S' && chord.reading()[1] == 'u' && chord.reading()[5] == '+',
        chord.reading().len() == chord.key.reading().len() + (if chord.control {
            5int
        } else {
            0
        }) + (if chord.alt {
            4int
        } else {
            0
        }) + (if chord.shift {
            6int
        } else {
            0
        }) + (if chord.super_key {
            6int
        } else {
            0
        }),
{
    reveal_strlit("Ctrl+");
    reveal_strlit("Alt+");
    reveal_strlit("Shift+");
    reveal_strlit("Super+");
    assert(plain.reading() =~= chord.key.reading());
    let n = chord.reading().len() - chord.key.reading().len();
    assert(chord.reading().skip(n) =~= chord.key.reading());
}

/// Keys read as what they are: letters and digits as themselves, the space bar,
/// the arrows and the page keys by their names.
pub proof fn keys_read_as_what_they_are(key: GearKey)
    ensures
        key matches GearKey::Letter(letter) ==> key.reading() == seq![letter],
        key matches GearKey::Digit(digit) ==> stands_for_number(key.reading()) == digit,
        key is ArrowUp ==> key.reading().first() == 'U',
        key is ArrowDown ==> key.reading().first() == 'D',
        key is ArrowLeft ==> key.reading().first() == 'L',
        key is ArrowRight ==> key.reading().first() == 'R',
        key is Space ==> key.reading().first() == 'S',
        key is PageUp ==> key.reading().first() == 'P' && key.reading()[5] == 'U',
        key is PageDown ==> key.reading().first() == 'P' && key.reading()[5] == 'D',
{
    if let GearKey::Digit(digit) = key {
        decimals_stand_for_their_number(digit as nat);
    }
    reveal_strlit("Space");
    reveal_strlit("Up");
    reveal_strlit("Down");
    reveal_strlit("Left");
    reveal_strlit("Right");
    reveal_strlit("Page Up");
    reveal_strlit("Page Down");
}

} // verus!
