//! The boomwhackers of a piece in a vector that is indexed by their numbers.

use vstd::prelude::*;

use crate::music_xml::Timestamp;
use crate::note::Note;
use index_vec::{Idx, IndexVec};

verus! {

/// The number of a boomwhacker in a piece.  A piece has at most 256
/// boomwhackers, so the numbers fit in a byte.
#[derive(Clone, Copy, PartialEq, Eq, PartialOrd, Ord, Debug, Hash)]
pub struct WhackerIdx {
    raw: u8,
}

impl Idx for WhackerIdx {
    /// The index for a number; numbers above 255 start over from 0.
    fn from_usize(idx: usize) -> (made: Self)
        ensures
            made@ == idx % 256,
    {
        WhackerIdx { raw: (idx % 256) as u8 }
    }

    /// The number that the index stands for.
    fn index(self) -> (number: usize)
        ensures
            number == self@,
    {
        self.raw as usize
    }
}

impl View for WhackerIdx {
    type V = nat;

    /// The number that the index stands for.
    closed spec fn view(&self) -> nat {
        self.raw as nat
    }
}

/// A vector of boomwhackers, each with its note and the times at which it is
/// played, indexed by [`WhackerIdx`].
#[verifier::external_body]
#[derive(Debug)]
pub struct WhackerVec {
    held: IndexVec<WhackerIdx, (Note, Vec<Timestamp>)>,
}

/// What a [`WhackerVec`] holds, in the order of the numbers: for every
/// boomwhacker the semitones of its note above C0 and its times in
/// nanoseconds.
pub uninterp spec fn whacker_vec_items(whacks: WhackerVec) -> Seq<(i8, Seq<u64>)>;

/// A boomwhacker as plain values.
pub open spec fn plain_item(whacker: (Note, Vec<Timestamp>)) -> (i8, Seq<u64>) {
    (whacker.0.semis_above_c0, whacker.1@.map_values(|t: Timestamp| t.nanos))
}

/// Boomwhackers as plain values.
pub open spec fn plain_items(whacks: Seq<(Note, Vec<Timestamp>)>) -> Seq<(i8, Seq<u64>)> {
    whacks.map_values(|whacker: (Note, Vec<Timestamp>)| plain_item(whacker))
}

/// Calls `IndexVec::from_vec` of `index_vec`, which takes the vector over as
/// it stands.  The contract claims that the new vector holds the items of
/// `whacks` in their order.
#[verifier::external_body]
pub(crate) fn whacker_vec_from(whacks: Vec<(Note, Vec<Timestamp>)>) -> (made: WhackerVec)
    ensures
        whacker_vec_items(made) == plain_items(whacks@),
{
    WhackerVec { held: IndexVec::from_vec(whacks) }
}

/// Calls `IndexSlice::len` of `index_vec`.  The contract claims that it
/// returns the number of items.
#[verifier::external_body]
pub(crate) fn whacker_vec_len(whacks: &WhackerVec) -> (count: usize)
    ensures
        count == whacker_vec_items(*whacks).len(),
{
    whacks.held.len()
}

/// Indexes an `IndexVec` of `index_vec` with the index made of `number`.  The
/// contract claims that this is the item with that number; numbers that
/// no item has are left out, since indexing with them panics, and so are
/// numbers that the index type cannot hold.
#[verifier::external_body]
pub(crate) fn whacker_vec_get(whacks: &WhackerVec, number: usize) -> (found: &(
    Note,
    Vec<Timestamp>,
))
    requires
        number < whacker_vec_items(*whacks).len(),
        number <= u8::MAX,
    ensures
        plain_item(*found) == whacker_vec_items(*whacks)[number as int],
{
    &whacks.held[WhackerIdx::from_usize(number)]
}

} // verus!
