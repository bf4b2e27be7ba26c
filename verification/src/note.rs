//! The note to which a boomwhacker is tuned.

use vstd::prelude::*;
use vstd::string::StringExecFns;

verus! {

/// Representation of the note to which a single boomwhacker is tuned
#[derive(Clone, Copy, PartialEq, Eq, Structural, PartialOrd, Ord, Hash, Debug)]
pub struct Note {
    /// Semitones above C0
    pub semis_above_c0: i8,
}

impl View for Note {
    type V = int;

    open spec fn view(&self) -> int {
        self.semis_above_c0 as int
    }
}

/// How many semitones the step with this name lies above C; nothing if there
/// is no step of this name.
pub open spec fn semitones_above_c(note_name: Seq<char>) -> Option<int> {
    if note_name.len() != 1 {
        None
    } else if note_name[0] == 'C' {
        Some(0)
    } else if note_name[0] == 'D' {
        Some(2)
    } else if note_name[0] == 'E' {
        Some(4)
    } else if note_name[0] == 'F' {
        Some(5)
    } else if note_name[0] == 'G' {
        Some(7)
    } else if note_name[0] == 'A' {
        Some(9)
    } else if note_name[0] == 'B' {
        Some(11)
    } else {
        None
    }
}

/// The pitch of a step in an octave, raised by `alter` semitones: semitones
/// above C0.
pub open spec fn pitch(octave: int, step: int, alter: int) -> int {
    octave * 12 + step + alter
}

/// The name of the step that lies `step` semitones above C, written with a
/// sharp if it is no natural.
pub open spec fn sharp_name(step: int) -> Seq<char> {
    if step == 0 {
        seq!['C']
    } else if step == 1 {
        seq!['C', '♯']
    } else if step == 2 {
        seq!['D']
    } else if step == 3 {
        seq!['D', '♯']
    } else if step == 4 {
        seq!['E']
    } else if step == 5 {
        seq!['F']
    } else if step == 6 {
        seq!['F', '♯']
    } else if step == 7 {
        seq!['G']
    } else if step == 8 {
        seq!['G', '♯']
    } else if step == 9 {
        seq!['A']
    } else if step == 10 {
        seq!['A', '♯']
    } else {
        seq!['B']
    }
}

/// The name of the step that lies `step` semitones above C, written with a
/// flat if it is no natural.
pub open spec fn flat_name(step: int) -> Seq<char> {
    if step == 0 {
        seq!['C']
    } else if step == 1 {
        seq!['D', '♭']
    } else if step == 2 {
        seq!['D']
    } else if step == 3 {
        seq!['E', '♭']
    } else if step == 4 {
        seq!['E']
    } else if step == 5 {
        seq!['F']
    } else if step == 6 {
        seq!['G', '♭']
    } else if step == 7 {
        seq!['G']
    } else if step == 8 {
        seq!['A', '♭']
    } else if step == 9 {
        seq!['A']
    } else if step == 10 {
        seq!['B', '♭']
    } else {
        seq!['B']
    }
}

/// The digit for a number below ten.
pub open spec fn digit(d: int) -> char {
    if d == 0 {
        '0'
    } else if d == 1 {
        '1'
    } else if d == 2 {
        '2'
    } else if d == 3 {
        '3'
    } else if d == 4 {
        '4'
    } else if d == 5 {
        '5'
    } else if d == 6 {
        '6'
    } else if d == 7 {
        '7'
    } else if d == 8 {
        '8'
    } else {
        '9'
    }
}

/// A number that is not negative in decimal digits.
pub open spec fn digits(n: nat) -> Seq<char>
    decreases n,
{
    if n < 10 {
        seq![digit(n as int)]
    } else {
        digits(n / 10).push(digit((n % 10) as int))
    }
}

/// A number in decimal digits, with a minus sign if it is negative.
pub open spec fn decimal(n: int) -> Seq<char> {
    if n < 0 {
        seq!['-'] + digits((-n) as nat)
    } else {
        digits(n as nat)
    }
}

/// The digit for a number below ten, as text.
fn digit_text(d: u8) -> (text: &'static str)
    requires
        d < 10,
    ensures
        text@ == seq![digit(d as int)],
{
    proof {
        reveal_strlit("0");
        reveal_strlit("1");
        reveal_strlit("2");
        reveal_strlit("3");
        reveal_strlit("4");
        reveal_strlit("5");
        reveal_strlit("6");
        reveal_strlit("7");
        reveal_strlit("8");
        reveal_strlit("9");
    }
    let text = if d == 0 {
        "0"
    } else if d == 1 {
        "1"
    } else if d == 2 {
        "2"
    } else if d == 3 {
        "3"
    } else if d == 4 {
        "4"
    } else if d == 5 {
        "5"
    } else if d == 6 {
        "6"
    } else if d == 7 {
        "7"
    } else if d == 8 {
        "8"
    } else {
        "9"
    };
    assert(text@ =~= seq![digit(d as int)]);
    text
}

/// The name of a step with sharps, as text.
fn sharp_text(step: u8) -> (text: &'static str)
    requires
        step < 12,
    ensures
        text@ == sharp_name(step as int),
{
    proof {
        reveal_strlit("C");
        reveal_strlit("C♯");
        reveal_strlit("D");
        reveal_strlit("D♯");
        reveal_strlit("E");
        reveal_strlit("F");
        reveal_strlit("F♯");
        reveal_strlit("G");
        reveal_strlit("G♯");
        reveal_strlit("A");
        reveal_strlit("A♯");
        reveal_strlit("B");
    }
    let text = if step == 0 {
        "C"
    } else if step == 1 {
        "C♯"
    } else if step == 2 {
        "D"
    } else if step == 3 {
        "D♯"
    } else if step == 4 {
        "E"
    } else if step == 5 {
        "F"
    } else if step == 6 {
        "F♯"
    } else if step == 7 {
        "G"
    } else if step == 8 {
        "G♯"
    } else if step == 9 {
        "A"
    } else if step == 10 {
        "A♯"
    } else {
        "B"
    };
    assert(text@ =~= sharp_name(step as int));
    text
}

/// The name of a step with flats, as text.
fn flat_text(step: u8) -> (text: &'static str)
    requires
        step < 12,
    ensures
        text@ == flat_name(step as int),
{
    proof {
        reveal_strlit("C");
        reveal_strlit("D♭");
        reveal_strlit("D");
        reveal_strlit("E♭");
        reveal_strlit("E");
        reveal_strlit("F");
        reveal_strlit("G♭");
        reveal_strlit("G");
        reveal_strlit("A♭");
        reveal_strlit("A");
        reveal_strlit("B♭");
        reveal_strlit("B");
    }
    let text = if step == 0 {
        "C"
    } else if step == 1 {
        "D♭"
    } else if step == 2 {
        "D"
    } else if step == 3 {
        "E♭"
    } else if step == 4 {
        "E"
    } else if step == 5 {
        "F"
    } else if step == 6 {
        "G♭"
    } else if step == 7 {
        "G"
    } else if step == 8 {
        "A♭"
    } else if step == 9 {
        "A"
    } else if step == 10 {
        "B♭"
    } else {
        "B"
    };
    assert(text@ =~= flat_name(step as int));
    text
}

/// Appends the number of an octave to the name of a step.
pub(crate) fn with_octave(step_name: &str, octave: i8) -> (name: String)
    requires
        -11 <= octave <= 10,
    ensures
        name@ == step_name@ + decimal(octave as int),
{
    let mut name = String::from_str(step_name);
    let size: u8 = if octave < 0 {
        proof {
            reveal_strlit("-");
        }
        name.append("-");
        (-octave) as u8
    } else {
        octave as u8
    };
    if size >= 10 {
        name.append(digit_text(size / 10));
    }
    name.append(digit_text(size % 10));
    proof {
        reveal_with_fuel(digits, 2);
        assert(name@ =~= step_name@ + decimal(octave as int));
    }
    name
}

/// How many semitones the step with this name lies above C.
fn step_above_c(note_name: &str) -> (step: Option<i16>)
    ensures
        match semitones_above_c(note_name@) {
            Some(semitones) => step == Some(semitones as i16),
            None => step is None,
        },
        step matches Some(semitones) ==> 0 <= semitones <= 11,
{
    if note_name.unicode_len() != 1 {
        return None;  // Invalid note name
    }
    let letter = note_name.get_char(0);
    if letter == 'C' {
        Some(0)
    } else if letter == 'D' {
        Some(2)
    } else if letter == 'E' {
        Some(4)
    } else if letter == 'F' {
        Some(5)
    } else if letter == 'G' {
        Some(7)
    } else if letter == 'A' {
        Some(9)
    } else if letter == 'B' {
        Some(11)
    } else {
        None  // Invalid note name
    }
}

/// A step in an octave, raised by `alter` semitones, can be a [`Note`]: it
/// is neither too low nor too high.  Names that are no step have no pitch
/// that could be out of range.
pub open spec fn in_range(octave: i8, note_name: Seq<char>, alter: i8) -> bool {
    semitones_above_c(note_name) matches Some(step) ==> i8::MIN <= pitch(
        octave as int,
        step,
        alter as int,
    ) <= i8::MAX
}

impl Note {
    /// Whether the step named `note_name` in the octave `octave`, raised by
    /// `alter` semitones, is neither too low nor too high for a [`Note`].
    pub fn is_in_range(octave: i8, note_name: &str, alter: i8) -> (fits: bool)
        ensures
            fits == in_range(octave, note_name@, alter),
    {
        match step_above_c(note_name) {
            Some(step) => {
                let semis = octave as i16 * 12 + step + alter as i16;
                -128 <= semis && semis <= 127
            },
            None => true,
        }
    }

    /// The note of the step named `note_name` in the octave `octave`, raised
    /// by `alter` semitones; nothing if there is no step of this name.
    pub fn from_note(octave: i8, note_name: &str, alter: i8) -> (note: Option<Self>)
        requires
            in_range(octave, note_name@, alter),
        ensures
            note == match semitones_above_c(note_name@) {
                Some(step) => Some(
                    Note {
                        semis_above_c0: pitch(octave as int, step, alter as int) as i8,
                    },
                ),
                None => None,
            },
    {
        match step_above_c(note_name) {
            Some(note_semitones_from_c) => {
                let semis = octave as i16 * 12 + note_semitones_from_c + alter as i16;
                Some(Self { semis_above_c0: semis as i8 })
            },
            None => None,
        }
    }

    /// The octave of the note: C0 and the eleven semitones above it are in
    /// octave 0.
    pub open spec fn octave(&self) -> int {
        self@ / 12
    }

    /// How many semitones the note lies above the C of its octave.
    pub open spec fn step(&self) -> int {
        self@ % 12
    }

    /// The name of the note with sharps, such as `C♯4`.
    pub fn name(&self) -> (name: String)
        ensures
            name@ == sharp_name(self.step()) + decimal(self.octave()),
    {
        // Split `self.semis_above_c0` into `(octave * 12) + semis_above_nearest_c`
        let shifted = self.semis_above_c0 as i16 + 132;
        let semis_above_nearest_c = (shifted % 12) as u8;
        let octave = (shifted / 12 - 11) as i8;
        with_octave(sharp_text(semis_above_nearest_c), octave)
    }

    /// The name of the note with flats, such as `D♭4`.
    pub fn name_flats(&self) -> (name: String)
        ensures
            name@ == flat_name(self.step()) + decimal(self.octave()),
    {
        // Split `self.semis_above_c0` into `(octave * 12) + semis_above_nearest_c`
        let shifted = self.semis_above_c0 as i16 + 132;
        let semis_above_nearest_c = (shifted % 12) as u8;
        let octave = (shifted / 12 - 11) as i8;
        with_octave(flat_text(semis_above_nearest_c), octave)
    }
}

} // verus!
