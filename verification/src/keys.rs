//! Note names of MIDI note numbers: the pitch class (C, C♯, ... B) and the
//! octave, where MIDI note 60 is C4.
use vstd::prelude::*;

verus! {

/// The name of a pitch class (0 is C, 11 is B), sharps written with ♯.
pub open spec fn pitch_class_name(pitch_class: int) -> Seq<char> {
    if pitch_class == 0 {
        "C"@
    } else if pitch_class == 1 {
        "C♯"@
    } else if pitch_class == 2 {
        "D"@
    } else if pitch_class == 3 {
        "D♯"@
    } else if pitch_class == 4 {
        "E"@
    } else if pitch_class == 5 {
        "F"@
    } else if pitch_class == 6 {
        "F♯"@
    } else if pitch_class == 7 {
        "G"@
    } else if pitch_class == 8 {
        "G♯"@
    } else if pitch_class == 9 {
        "A"@
    } else if pitch_class == 10 {
        "A♯"@
    } else {
        "B"@
    }
}

/// The decimal digits of `n`, most significant first.
pub open spec fn decimal_digits(n: nat) -> Seq<char>
    decreases n,
{
    if n < 10 {
        seq![(48 + n) as char]
    } else {
        decimal_digits(n / 10).push((48 + n % 10) as char)
    }
}

/// The octave of a MIDI note number: one less than the note number divided
/// by twelve, but never below 0.
pub open spec fn octave_of(note_number: u8) -> nat {
    if note_number / 12 == 0 {
        0
    } else {
        (note_number / 12 - 1) as nat
    }
}

/// The name of the note's pitch class, without octave.
pub fn note_name_no_octave(note_number: u8) -> (name: &'static str)
    ensures
        name@ == pitch_class_name((note_number % 12) as int),
{
    let pitch_class = note_number % 12;
    if pitch_class == 0 {
        "C"
    } else if pitch_class == 1 {
        "C♯"
    } else if pitch_class == 2 {
        "D"
    } else if pitch_class == 3 {
        "D♯"
    } else if pitch_class == 4 {
        "E"
    } else if pitch_class == 5 {
        "F"
    } else if pitch_class == 6 {
        "F♯"
    } else if pitch_class == 7 {
        "G"
    } else if pitch_class == 8 {
        "G♯"
    } else if pitch_class == 9 {
        "A"
    } else if pitch_class == 10 {
        "A♯"
    } else {
        "B"
    }
}

/// Appends a character to a string (`String::push`).
#[verifier::external_body]
fn push_char(text: &mut String, c: char)
    ensures
        final(text)@ == old(text)@.push(c),
{
    text.push(c);
}

/// Appends the decimal digits of `n`.
fn push_decimal(text: &mut String, n: u8)
    ensures
        final(text)@ == old(text)@ + decimal_digits(n as nat),
    decreases n,
{
    if n >= 10 {
        push_decimal(text, n / 10);
    }
    let digit = n % 10;
    push_char(text, (48 + digit) as char);
    proof {
        assert(decimal_digits(n as nat) =~= if n < 10 {
            seq![(48 + n) as char]
        } else {
            decimal_digits((n / 10) as nat).push((48 + n % 10) as char)
        });
        if n < 10 {
            assert(n % 10 == n);
        }
    }
}

/// The note's name with its octave, such as "C4" for MIDI note 60; the
/// octave never drops below 0, so notes 0 to 23 all get octave 0.
pub fn note_to_name(note_number: u8) -> (name: String)
    ensures
        name@ == pitch_class_name((note_number % 12) as int) + decimal_digits(octave_of(note_number)),
{
    let octave = (note_number / 12).saturating_sub(1);
    let mut name = note_name_no_octave(note_number).to_owned();
    push_decimal(&mut name, octave);
    name
}

/// A key of the computer keyboard that plays a note: the key's label and
/// the MIDI note it plays.
#[derive(Clone, Copy, Debug, PartialEq, Eq, Structural)]
pub struct KeyBinding {
    pub label: char,
    pub midi_note: u8,
}

/// The octave of the keyboard's lowest key (its C is MIDI note 60).
pub const BASE_OCTAVE: i8 = 5;

/// The MIDI note of a pitch class (0 is C) in an octave, twelve notes to the
/// octave, in 8-bit arithmetic.
pub fn midi_note(note_index: u8, octave: i8) -> (note: u8)
    requires
        -128 <= octave * 12 <= 127,
        -128 <= (note_index as i8) + octave * 12 <= 127,
    ensures
        note == ((note_index as i8) + octave * 12) as u8,
{
    (note_index as i8 + (octave * 12)) as u8
}

/// The labels of the keys, from C up to B: the home row for white keys and
/// the row above for black ones.
pub open spec fn key_labels() -> Seq<char> {
    seq!['A', 'W', 'S', 'E', 'D', 'F', 'T', 'G', 'Y', 'H', 'U', 'J']
}

/// The key of pitch class `i`: the `i`-th label, playing MIDI note 60 + `i`.
pub open spec fn key_binding_at(i: int) -> KeyBinding {
    KeyBinding { label: key_labels()[i], midi_note: (60 + i) as u8 }
}

/// The twelve keys of one octave from C (label A) to B (label J): the key at
/// position `i` plays pitch class `i` of the base octave.
pub fn key_bindings() -> (bindings: Vec<KeyBinding>)
    ensures
        bindings@.len() == 12,
        forall|i: int| 0 <= i < 12 ==> #[trigger] bindings@[i] == key_binding_at(i),
{
    let labels = ['A', 'W', 'S', 'E', 'D', 'F', 'T', 'G', 'Y', 'H', 'U', 'J'];
    let mut bindings: Vec<KeyBinding> = Vec::new();
    let mut pitch_class: u8 = 0;
    while pitch_class < 12
        invariant
            pitch_class <= 12,
            labels@ == key_labels(),
            bindings@.len() == pitch_class,
            forall|i: int| 0 <= i < pitch_class ==> #[trigger] bindings@[i] == key_binding_at(i),
        decreases 12 - pitch_class,
    {
        let note = midi_note(pitch_class, BASE_OCTAVE);
        bindings.push(KeyBinding { label: labels[pitch_class as usize], midi_note: note });
        pitch_class += 1;
    }
    bindings
}

} // verus!
