//! A single boomwhacker, named in plain letters.

use vstd::prelude::*;

use crate::note::{decimal, in_range, pitch, semitones_above_c, with_octave, Note};

verus! {

/// Representation of a single boomwhacker
#[derive(Clone, Copy, PartialEq, Eq, Structural, PartialOrd, Ord, Hash, Debug)]
pub struct Whacker {
    /// Semitones above C0
    semis_above_c0: i8,
}

impl View for Whacker {
    type V = int;

    closed spec fn view(&self) -> int {
        self.semis_above_c0 as int
    }
}

/// The name of the step that lies `step` semitones above C, written with
/// `#` if it is no natural.
pub open spec fn plain_sharp_name(step: int) -> Seq<char> {
    if step == 0 {
        seq!['C']
    } else if step == 1 {
        seq!['C', '#']
    } else if step == 2 {
        seq!['D']
    } else if step == 3 {
        seq!['D', '#']
    } else if step == 4 {
        seq!['E']
    } else if step == 5 {
        seq!['F']
    } else if step == 6 {
        seq!['F', '#']
    } else if step == 7 {
        seq!['G']
    } else if step == 8 {
        seq!['G', '#']
    } else if step == 9 {
        seq!['A']
    } else if step == 10 {
        seq!['A', '#']
    } else {
        seq!['B']
    }
}

/// The name of the step that lies `step` semitones above C, written with
/// `b` if it is no natural.
pub open spec fn plain_flat_name(step: int) -> Seq<char> {
    if step == 0 {
        seq!['C']
    } else if step == 1 {
        seq!['D', 'b']
    } else if step == 2 {
        seq!['D']
    } else if step == 3 {
        seq!['E', 'b']
    } else if step == 4 {
        seq!['E']
    } else if step == 5 {
        seq!['F']
    } else if step == 6 {
        seq!['G', 'b']
    } else if step == 7 {
        seq!['G']
    } else if step == 8 {
        seq!['A', 'b']
    } else if step == 9 {
        seq!['A']
    } else if step == 10 {
        seq!['B', 'b']
    } else {
        seq!['B']
    }
}

/// The name of a step with `#`, as text.
fn plain_sharp_text(step: u8) -> (text: &'static str)
    requires
        step < 12,
    ensures
        text@ == plain_sharp_name(step as int),
{
    proof {
        reveal_strlit("C");
        reveal_strlit("C#");
        reveal_strlit("D");
        reveal_strlit("D#");
        reveal_strlit("E");
        reveal_strlit("F");
        reveal_strlit("F#");
        reveal_strlit("G");
        reveal_strlit("G#");
        reveal_strlit("A");
        reveal_strlit("A#");
        reveal_strlit("B");
    }
    let text = if step == 0 {
        "C"
    } else if step == 1 {
        "C#"
    } else if step == 2 {
        "D"
    } else if step == 3 {
        "D#"
    } else if step == 4 {
        "E"
    } else if step == 5 {
        "F"
    } else if step == 6 {
        "F#"
    } else if step == 7 {
        "G"
    } else if step == 8 {
        "G#"
    } else if step == 9 {
        "A"
    } else if step == 10 {
        "A#"
    } else {
        "B"
    };
    assert(text@ =~= plain_sharp_name(step as int));
    text
}

/// The name of a step with `b`, as text.
fn plain_flat_text(step: u8) -> (text: &'static str)
    requires
        step < 12,
    ensures
        text@ == plain_flat_name(step as int),
{
    proof {
        reveal_strlit("C");
        reveal_strlit("Db");
        reveal_strlit("D");
        reveal_strlit("Eb");
        reveal_strlit("E");
        reveal_strlit("F");
        reveal_strlit("Gb");
        reveal_strlit("G");
        reveal_strlit("Ab");
        reveal_strlit("A");
        reveal_strlit("Bb");
        reveal_strlit("B");
    }
    let text = if step == 0 {
        "C"
    } else if step == 1 {
        "Db"
    } else if step == 2 {
        "D"
    } else if step == 3 {
        "Eb"
    } else if step == 4 {
        "E"
    } else if step == 5 {
        "F"
    } else if step == 6 {
        "Gb"
    } else if step == 7 {
        "G"
    } else if step == 8 {
        "Ab"
    } else if step == 9 {
        "A"
    } else if step == 10 {
        "Bb"
    } else {
        "B"
    };
    assert(text@ =~= plain_flat_name(step as int));
    text
}

impl Whacker {
    /// The boomwhacker for the step named `note_name` in the octave `octave`,
    /// raised by `alter` semitones; nothing if there is no step of this name.
    pub fn from_note(octave: i8, note_name: &str, alter: i8) -> (whacker: Option<Self>)
        requires
            in_range(octave, note_name@, alter),
        ensures
            match semitones_above_c(note_name@) {
                Some(step) => whacker matches Some(made) && made@ == pitch(
                    octave as int,
                    step,
                    alter as int,
                ),
                None => whacker is None,
            },
    {
        match Note::from_note(octave, note_name, alter) {
            Some(note) => Some(Self { semis_above_c0: note.semis_above_c0 }),
            None => None,
        }
    }

    /// The note to which the boomwhacker is tuned.
    pub fn note(&self) -> (note: Note)
        ensures
            note@ == self@,
    {
        Note { semis_above_c0: self.semis_above_c0 }
    }

    /// The name of the boomwhacker with sharps, such as `C#4`.
    pub fn name(&self) -> (name: String)
        ensures
            name@ == plain_sharp_name(self@ % 12) + decimal(self@ / 12),
    {
        // Split `self.semis_above_c0` into `(octave * 12) + semis_above_nearest_c`
        let shifted = self.semis_above_c0 as i16 + 132;
        let semis_above_nearest_c = (shifted % 12) as u8;
        let octave = (shifted / 12 - 11) as i8;
        with_octave(plain_sharp_text(semis_above_nearest_c), octave)
    }

    /// The name of the boomwhacker with flats, such as `Db4`.
    pub fn name_flats(&self) -> (name: String)
        ensures
            name@ == plain_flat_name(self@ % 12) + decimal(self@ / 12),
    {
        // Split `self.semis_above_c0` into `(octave * 12) + semis_above_nearest_c`
        let shifted = self.semis_above_c0 as i16 + 132;
        let semis_above_nearest_c = (shifted % 12) as u8;
        let octave = (shifted / 12 - 11) as i8;
        with_octave(plain_flat_text(semis_above_nearest_c), octave)
    }
}

} // verus!
