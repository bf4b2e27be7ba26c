//! Plain values taken from a MusicXML score: the times at which notes start.

use vstd::prelude::*;

use crate::note::Note;

verus! {

/// Indication of a point in time where a note starts, in whole nanoseconds
/// since the start of the piece.
#[derive(Clone, Copy, PartialEq, Eq, Structural, PartialOrd, Ord, Hash, Debug)]
pub struct Timestamp {
    pub nanos: u64,
}

impl View for Timestamp {
    type V = int;

    open spec fn view(&self) -> int {
        self.nanos as int
    }
}

impl Timestamp {
    /// The start of the piece.
    pub fn zero() -> (t: Timestamp)
        ensures
            t@ == 0,
    {
        Timestamp { nanos: 0 }
    }

    /// The point in time `nanos` nanoseconds after the start of the piece.
    pub fn from_nanos(nanos: u64) -> (t: Timestamp)
        ensures
            t@ == nanos,
    {
        Timestamp { nanos }
    }

    /// Nanoseconds from `self` until `other`; negative if `other` comes first.
    pub fn nanos_until(self, other: Timestamp) -> (gap: i128)
        ensures
            gap == other@ - self@,
    {
        other.nanos as i128 - self.nanos as i128
    }
}

/// One hit of a boomwhacker, as a note of the score.
#[derive(Debug, PartialEq, Eq, Structural, PartialOrd, Ord, Clone, Copy)]
pub struct Whack {
    pub timestamp: Timestamp,
    /// The 0-based index of the note in the score (i.e. if `note_idx = 5`,
    /// then there are 5 notes before the one representing this `Whack`).
    pub note_idx: usize,
    /// The `note_idx` of the first note in the chord containing this `Whack`
    pub chord_note_idx: usize,
}

/// The hand of a player.
#[derive(Debug, Clone, Copy, PartialEq, Eq, Structural)]
pub enum Hand {
    Left,
    Right,
}

/// The colour in which the notes of the left hand are printed.
pub open spec fn left_colour() -> Seq<char> {
    seq!['#', 'f', 'f', '0', '0', '0', '0']
}

/// The colour in which the notes of the right hand are printed.
pub open spec fn right_colour() -> Seq<char> {
    seq!['#', '0', '0', 'a', 'a', '0', '0']
}

impl Hand {
    /// The colour in which the notes of this hand are printed: red for the
    /// left hand, green for the right.
    pub fn colour(self) -> (colour: &'static str)
        ensures
            colour@ == match self {
                Hand::Left => left_colour(),
                Hand::Right => right_colour(),
            },
    {
        proof {
            reveal_strlit("#ff0000");
            reveal_strlit("#00aa00");
        }
        let colour = match self {
            Hand::Left => "#ff0000",
            Hand::Right => "#00aa00",
        };
        assert(colour@ =~= match self {
            Hand::Left => left_colour(),
            Hand::Right => right_colour(),
        });
        colour
    }
}

/// Where the reading of a part of the score stands: when the chord that is
/// being read starts, when the next one will, and how the notes are numbered.
#[derive(Debug, Clone, Copy, PartialEq, Eq, Structural)]
pub struct ChordClock {
    /// When the chord starts that is being read
    pub current_chord_start: Timestamp,
    /// When the chord after it starts
    pub next_chord_start: Timestamp,
    /// The number of the first note of the chord that is being read
    pub chord_note_idx: usize,
    /// How many notes with a pitch have been read in all
    pub whacks_loaded_so_far: usize,
}

impl ChordClock {
    /// The clock at the start of a part, when `whacks_loaded_so_far` notes
    /// have been read in the parts before it.
    pub fn start_of_part(whacks_loaded_so_far: usize) -> (clock: ChordClock)
        ensures
            clock == (ChordClock {
                current_chord_start: Timestamp { nanos: 0 },
                next_chord_start: Timestamp { nanos: 0 },
                chord_note_idx: whacks_loaded_so_far,
                whacks_loaded_so_far,
            }),
    {
        ChordClock {
            current_chord_start: Timestamp::zero(),
            next_chord_start: Timestamp::zero(),
            chord_note_idx: whacks_loaded_so_far,
            whacks_loaded_so_far,
        }
    }

    /// The first note or rest of a chord was read, and it lasts `duration`
    /// nanoseconds: the chord starts where the last one ended, and the next
    /// will start when this one is over.  If that is too late to be
    /// represented, the clock stays as it is.
    pub fn start_chord(&mut self, duration: u64) -> (started: bool)
        ensures
            started <==> old(self).next_chord_start@ + duration <= u64::MAX,
            started ==> *final(self) == (ChordClock {
                current_chord_start: old(self).next_chord_start,
                next_chord_start: Timestamp {
                    nanos: (old(self).next_chord_start@ + duration) as u64,
                },
                chord_note_idx: old(self).whacks_loaded_so_far,
                whacks_loaded_so_far: old(self).whacks_loaded_so_far,
            }),
            !started ==> *final(self) == *old(self),
    {
        // We're starting a chord (which may have only one note), so mark
        // that the *next* note will come after this one
        match self.next_chord_start.nanos.checked_add(duration) {
            Some(end) => {
                self.current_chord_start = self.next_chord_start;
                self.chord_note_idx = self.whacks_loaded_so_far;
                self.next_chord_start = Timestamp::from_nanos(end);
                true
            },
            None => false,
        }
    }

    /// A note with a pitch was read: it is a whack at the start of the chord
    /// that is being read, and takes the next number.  There is none if the
    /// numbers have run out.
    pub fn add_whack(&mut self) -> (whack: Option<Whack>)
        ensures
            whack is Some <==> old(self).whacks_loaded_so_far < usize::MAX,
            whack matches Some(made) ==> {
                &&& made == (Whack {
                    timestamp: old(self).current_chord_start,
                    note_idx: old(self).whacks_loaded_so_far,
                    chord_note_idx: old(self).chord_note_idx,
                })
                &&& *final(self) == (ChordClock {
                    whacks_loaded_so_far: (old(self).whacks_loaded_so_far + 1) as usize,
                    ..*old(self)
                })
            },
            whack is None ==> *final(self) == *old(self),
    {
        if self.whacks_loaded_so_far == usize::MAX {
            return None;
        }
        let whack = Whack {
            timestamp: self.current_chord_start,
            note_idx: self.whacks_loaded_so_far,
            chord_note_idx: self.chord_note_idx,
        };
        self.whacks_loaded_so_far += 1;
        Some(whack)
    }
}

/// How long a note of `divisions` divisions lasts if one division lasts
/// `division_nanos` nanoseconds; nothing if that is too long to be
/// represented.
pub fn note_nanos(division_nanos: u64, divisions: u32) -> (nanos: Option<u64>)
    ensures
        nanos == if division_nanos * divisions <= u64::MAX {
            Some((division_nanos * divisions) as u64)
        } else {
            None
        },
{
    division_nanos.checked_mul(divisions as u64)
}

/// `index` is the tempo mark in force at the time `at`, given when each
/// tempo mark starts: the last mark that starts at or before `at`; if none
/// does, the first mark.
pub open spec fn is_tempo_in_force(changes: Seq<Timestamp>, at: Timestamp, index: int) -> bool {
    &&& 0 <= index < changes.len()
    &&& forall|later: int| index < later < changes.len() ==> (#[trigger] changes[later])@ > at@
    &&& changes[index]@ <= at@ || index == 0
}

/// The tempo mark in force at the time `at`, given when each tempo mark
/// starts; nothing if there is no tempo mark.
pub fn tempo_in_force(changes: &Vec<Timestamp>, at: Timestamp) -> (found: Option<usize>)
    ensures
        found is Some <==> changes@.len() > 0,
        found matches Some(index) ==> is_tempo_in_force(changes@, at, index as int),
{
    if changes.len() == 0 {
        return None;
    }
    let mut index = changes.len() - 1;
    while index > 0 && changes[index].nanos > at.nanos
        invariant
            index < changes@.len(),
            forall|later: int| index < later < changes@.len() ==> (#[trigger] changes@[later])@ > at@,
        decreases index,
    {
        index -= 1;
    }
    Some(index)
}

/// The notes of the left hand and then those of the right hand, each with
/// its hand.
pub open spec fn labelled(left_hand: Seq<Note>, right_hand: Seq<Note>) -> Seq<(Note, Hand)> {
    left_hand.map_values(|note: Note| (note, Hand::Left)) + right_hand.map_values(
        |note: Note| (note, Hand::Right),
    )
}

/// The notes stand from the highest down.
pub open spec fn highest_first(notes: Seq<(Note, Hand)>) -> bool {
    forall|i: int, j: int| 0 <= i < j < notes.len() ==> notes[i].0@ >= notes[j].0@
}

/// `notes`, which stand from the highest down, with `added` put in behind
/// the last note that is not lower.
pub open spec fn with_note(notes: Seq<(Note, Hand)>, added: (Note, Hand)) -> Seq<(Note, Hand)>
    decreases notes.len(),
{
    if notes.len() == 0 || notes.last().0@ >= added.0@ {
        notes.push(added)
    } else {
        with_note(notes.drop_last(), added).push(notes.last())
    }
}

/// The notes from the highest down; equally high notes keep their order.
pub open spec fn from_the_top(notes: Seq<(Note, Hand)>) -> Seq<(Note, Hand)>
    decreases notes.len(),
{
    if notes.len() == 0 {
        notes
    } else {
        with_note(from_the_top(notes.drop_last()), notes.last())
    }
}

/// Putting a note in at place `at` is what [`with_note`] does, if all notes
/// from `at` on are lower and the note before `at` is not.
pub proof fn lemma_with_note_at(notes: Seq<(Note, Hand)>, added: (Note, Hand), at: int)
    requires
        0 <= at <= notes.len(),
        at > 0 ==> notes[at - 1].0@ >= added.0@,
        forall|k: int| at <= k < notes.len() ==> (#[trigger] notes[k]).0@ < added.0@,
    ensures
        with_note(notes, added) == notes.insert(at, added),
    decreases notes.len(),
{
    if at == notes.len() {
        assert(notes.insert(at, added) =~= notes.push(added));
    } else {
        assert(notes[notes.len() - 1].0@ < added.0@);
        let front = notes.drop_last();
        assert forall|k: int| at <= k < front.len() implies (#[trigger] front[k]).0@
            < added.0@ by {
            assert(front[k] == notes[k]);
        }
        lemma_with_note_at(front, added, at);
        assert(front.insert(at, added).push(notes.last()) =~= notes.insert(at, added));
    }
}

/// A note put in is added and nothing else, and the notes still stand from
/// the highest down.
pub proof fn lemma_with_note(notes: Seq<(Note, Hand)>, added: (Note, Hand))
    requires
        highest_first(notes),
    ensures
        highest_first(with_note(notes, added)),
        with_note(notes, added).to_multiset() == notes.to_multiset().insert(added),
    decreases notes.len(),
{
    broadcast use vstd::seq_lib::to_multiset_build;

    let out = with_note(notes, added);
    if notes.len() == 0 || notes.last().0@ >= added.0@ {
        assert forall|i: int, j: int| 0 <= i < j < out.len() implies out[i].0@
            >= out[j].0@ by {
            if j == notes.len() && i < notes.len() - 1 {
                assert(notes[i].0@ >= notes[notes.len() - 1].0@);
            }
        }
    } else {
        let front = notes.drop_last();
        let last = notes.last();
        assert(forall|i: int| 0 <= i < front.len() ==> front[i] == notes[i]);
        lemma_with_note(front, added);
        let inner = with_note(front, added);
        assert(out.drop_last() =~= inner);
        assert(notes =~= front.push(last));
        assert(out.to_multiset() =~= notes.to_multiset().insert(added));
        assert forall|i: int| 0 <= i < inner.len() implies inner[i].0@ >= last.0@ by {
            vstd::seq_lib::to_multiset_contains(inner, inner[i]);
            assert(inner.contains(inner[i]));
            if inner[i] != added {
                assert(front.to_multiset().count(inner[i]) > 0);
                vstd::seq_lib::to_multiset_contains(front, inner[i]);
                let k = choose|k: int| 0 <= k < front.len() && front[k] == inner[i];
                assert(notes[k].0@ >= notes[notes.len() - 1].0@);
            }
        }
        assert forall|i: int, j: int| 0 <= i < j < out.len() implies out[i].0@
            >= out[j].0@ by {
            if j < inner.len() {
                assert(inner[i].0@ >= inner[j].0@);
            }
        }
    }
}

/// Ordering the notes from the top keeps every note with its hand, and
/// leaves no note below a lower one.
pub proof fn lemma_from_the_top(notes: Seq<(Note, Hand)>)
    ensures
        highest_first(from_the_top(notes)),
        from_the_top(notes).to_multiset() == notes.to_multiset(),
    decreases notes.len(),
{
    broadcast use vstd::seq_lib::to_multiset_build;

    if notes.len() > 0 {
        lemma_from_the_top(notes.drop_last());
        lemma_with_note(from_the_top(notes.drop_last()), notes.last());
        assert(notes =~= notes.drop_last().push(notes.last()));
    }
}

/// Puts a note in behind the last note that is not lower.
fn put_in(notes: &mut Vec<(Note, Hand)>, added: (Note, Hand))
    ensures
        final(notes)@ == with_note(old(notes)@, added),
{
    let mut at = notes.len();
    while at > 0 && notes[at - 1].0.semis_above_c0 < added.0.semis_above_c0
        invariant
            at <= notes@.len(),
            forall|k: int| at <= k < notes@.len() ==> (#[trigger] notes@[k]).0@ < added.0@,
        decreases at,
    {
        at -= 1;
    }
    proof {
        lemma_with_note_at(notes@, added, at as int);
    }
    notes.insert(at, added);
}

/// The notes of a player in the order in which they are written below each
/// other: from the highest down, since the marks are written from top to
/// bottom; of two equally high notes the one of the left hand comes first.
pub fn lyric_order(left_hand: &Vec<Note>, right_hand: &Vec<Note>) -> (notes: Vec<(Note, Hand)>)
    ensures
        notes@ == from_the_top(labelled(left_hand@, right_hand@)),
        highest_first(notes@),
        notes@.to_multiset() == labelled(left_hand@, right_hand@).to_multiset(),
{
    let ghost given = labelled(left_hand@, right_hand@);
    let mut notes: Vec<(Note, Hand)> = Vec::new();
    for i in 0..left_hand.len()
        invariant
            given == labelled(left_hand@, right_hand@),
            notes@ == from_the_top(given.take(i as int)),
    {
        proof {
            assert(given.take(i + 1).drop_last() =~= given.take(i as int));
            assert(given.take(i + 1).last() == (left_hand@[i as int], Hand::Left));
        }
        put_in(&mut notes, (left_hand[i], Hand::Left));
    }
    for i in 0..right_hand.len()
        invariant
            given == labelled(left_hand@, right_hand@),
            notes@ == from_the_top(given.take(left_hand@.len() + i)),
    {
        proof {
            let read = left_hand@.len() + i;
            assert(given.take(read + 1).drop_last() =~= given.take(read));
            assert(given.take(read + 1).last() == (right_hand@[i as int], Hand::Right));
        }
        put_in(&mut notes, (right_hand[i], Hand::Right));
    }
    proof {
        assert(given.take(given.len() as int) =~= given);
        lemma_from_the_top(given);
    }
    notes
}

/// How the bytes of a score are packed.
#[derive(Debug, Clone, Copy, PartialEq, Eq, Structural)]
pub enum Packing {
    /// The bytes are the XML itself
    Plain,
    /// The bytes are an archive that holds the XML
    Compressed,
}

/// The packing that goes with the extension of a file name.
pub open spec fn packing_for(extension: Seq<char>) -> Option<Packing> {
    if extension == seq!['x', 'm', 'l'] {
        Some(Packing::Plain)
    } else if extension == seq!['m', 'x', 'l'] {
        Some(Packing::Compressed)
    } else {
        None
    }
}

/// Whether two texts are the same.
fn same_text(a: &str, b: &str) -> (same: bool)
    ensures
        same == (a@ == b@),
{
    let length = a.unicode_len();
    if length != b.unicode_len() {
        return false;
    }
    for at in 0..length
        invariant
            length == a@.len(),
            length == b@.len(),
            forall|k: int| 0 <= k < at ==> a@[k] == b@[k],
    {
        if a.get_char(at) != b.get_char(at) {
            return false;
        }
    }
    assert(a@ =~= b@);
    true
}

/// Tells by the extension of a file name whether the file holds the XML of a
/// score itself (`xml`) or an archive with it (`mxl`); nothing for any other
/// extension.
pub fn packing_of(extension: &str) -> (packing: Option<Packing>)
    ensures
        packing == packing_for(extension@),
{
    proof {
        reveal_strlit("xml");
        reveal_strlit("mxl");
        assert("xml"@ =~= seq!['x', 'm', 'l']);
        assert("mxl"@ =~= seq!['m', 'x', 'l']);
    }
    if same_text(extension, "xml") {
        Some(Packing::Plain)
    } else if same_text(extension, "mxl") {
        Some(Packing::Compressed)
    } else {
        None
    }
}

/// Whether a file of an archive lies in its root directory: its name holds
/// no `/`.
pub fn is_in_root(file_name: &str) -> (in_root: bool)
    ensures
        in_root == !file_name@.contains('/'),
{
    let length = file_name.unicode_len();
    for at in 0..length
        invariant
            length == file_name@.len(),
            forall|k: int| 0 <= k < at ==> file_name@[k] != '/',
    {
        if file_name.get_char(at) == '/' {
            assert(file_name@.contains('/'));
            return false;
        }
    }
    true
}

} // verus!
