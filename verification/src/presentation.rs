//! Bringing the hands of an assignment into the order in which they are shown.
//!
//! The search leaves the boomwhackers of a hand, and the hands themselves, in
//! whatever order its swaps produced.  For showing, every hand lists its
//! boomwhackers from the lowest note up, and the hands are listed by their
//! lowest note, hands without any boomwhacker first.

use vstd::multiset::Multiset;
use vstd::prelude::*;

use crate::layout::{exchanged, lemma_exchange_keeps_items};
use crate::note::Note;

verus! {

/// The order of notes by pitch.
pub open spec fn by_pitch() -> spec_fn(Note, Note) -> bool {
    |a: Note, b: Note| a@ <= b@
}

/// The order of notes by pitch never leaves two notes unordered and ties
/// only a note with itself.
pub proof fn lemma_by_pitch_is_total()
    ensures
        vstd::relations::total_ordering(by_pitch()),
{
    let leq = by_pitch();
    assert forall|x: Note, y: Note| #[trigger] leq(x, y) && #[trigger] leq(y, x) implies x
        == y by {
        assert(x.semis_above_c0 == y.semis_above_c0);
    }
}

/// Sort the notes of a hand from the lowest up.
pub fn sort_notes(notes: &mut Vec<Note>)
    ensures
        final(notes)@ == old(notes)@.sort_by(by_pitch()),
        final(notes)@.to_multiset() == old(notes)@.to_multiset(),
        vstd::relations::sorted_by(final(notes)@, by_pitch()),
{
    let ghost before = notes@;
    let count = notes.len();
    let mut sorted: usize = 0;
    while sorted < count
        invariant
            count == notes@.len(),
            sorted <= count,
            notes@.to_multiset() == before.to_multiset(),
            forall|a: int, b: int| 0 <= a < b < sorted ==> notes@[a]@ <= notes@[b]@,
        decreases count - sorted,
    {
        let mut place = sorted;
        while place > 0 && notes[place - 1].semis_above_c0 > notes[place].semis_above_c0
            invariant
                count == notes@.len(),
                place <= sorted < count,
                notes@.to_multiset() == before.to_multiset(),
                forall|a: int, b: int|
                    0 <= a < b <= sorted && a != place && b != place ==> notes@[a]@ <= notes@[b]@,
                forall|b: int| place < b <= sorted ==> notes@[place as int]@ <= notes@[b]@,
            decreases place,
        {
            let lower = notes[place];
            let higher = notes[place - 1];
            let ghost unswapped = notes@;
            notes[place - 1] = lower;
            notes[place] = higher;
            proof {
                lemma_exchange_keeps_items(unswapped, place - 1, place as int);
                assert(notes@ =~= exchanged(unswapped, place - 1, place as int));
            }
            place -= 1;
        }
        sorted += 1;
    }
    proof {
        lemma_by_pitch_is_total();
        before.lemma_sort_by_ensures(by_pitch());
        assert(vstd::relations::sorted_by(notes@, by_pitch()));
        vstd::seq_lib::lemma_sorted_unique(notes@, before.sort_by(by_pitch()), by_pitch());
    }
}

/// The hands as sequences of notes.
pub open spec fn hands_view(hands: Seq<Vec<Note>>) -> Seq<Seq<Note>> {
    hands.map_values(|hand: Vec<Note>| hand@)
}

/// Hand `a` may stand before hand `b`: it is empty, or both have a first
/// note and that of `a` is not higher.
pub open spec fn may_precede(a: Seq<Note>, b: Seq<Note>) -> bool {
    a.len() == 0 || (b.len() > 0 && a[0]@ <= b[0]@)
}

/// The hands are listed by their first notes, empty hands first.
pub open spec fn in_order(hands: Seq<Seq<Note>>) -> bool {
    forall|i: int, j: int| 0 <= i < j < hands.len() ==> may_precede(hands[i], hands[j])
}

/// `hands`, which are in order, with `hand` put in behind the last hand that
/// may precede it.
pub open spec fn with_hand(hands: Seq<Seq<Note>>, hand: Seq<Note>) -> Seq<Seq<Note>>
    decreases hands.len(),
{
    if hands.len() == 0 || may_precede(hands.last(), hand) {
        hands.push(hand)
    } else {
        with_hand(hands.drop_last(), hand).push(hands.last())
    }
}

/// The hands brought into order; hands that may precede each other keep the
/// order that they had.
pub open spec fn ordered_hands(hands: Seq<Seq<Note>>) -> Seq<Seq<Note>>
    decreases hands.len(),
{
    if hands.len() == 0 {
        hands
    } else {
        with_hand(ordered_hands(hands.drop_last()), hands.last())
    }
}

/// All notes of all hands together, each as often as it occurs.
pub open spec fn all_notes(hands: Seq<Seq<Note>>) -> Multiset<Note>
    decreases hands.len(),
{
    if hands.len() == 0 {
        Multiset::empty()
    } else {
        all_notes(hands.drop_last()).add(hands.last().to_multiset())
    }
}

/// Putting a hand in at place `at` is what [`with_hand`] does, if all hands
/// from `at` on may not precede the hand and the hand before `at` may.
pub proof fn lemma_with_hand_at(hands: Seq<Seq<Note>>, hand: Seq<Note>, at: int)
    requires
        0 <= at <= hands.len(),
        at > 0 ==> may_precede(hands[at - 1], hand),
        forall|k: int| at <= k < hands.len() ==> !may_precede(#[trigger] hands[k], hand),
    ensures
        with_hand(hands, hand) == hands.insert(at, hand),
    decreases hands.len(),
{
    if at == hands.len() {
        assert(hands.insert(at, hand) =~= hands.push(hand));
    } else {
        assert(!may_precede(hands[hands.len() - 1], hand));
        let front = hands.drop_last();
        assert forall|k: int| at <= k < front.len() implies !may_precede(
            #[trigger] front[k],
            hand,
        ) by {
            assert(front[k] == hands[k]);
        }
        lemma_with_hand_at(front, hand, at);
        assert(front.insert(at, hand).push(hands.last()) =~= hands.insert(at, hand));
    }
}

/// A hand put in adds its notes and nothing else, and the hands stay in
/// order.
pub proof fn lemma_with_hand(hands: Seq<Seq<Note>>, hand: Seq<Note>)
    requires
        in_order(hands),
    ensures
        in_order(with_hand(hands, hand)),
        with_hand(hands, hand).len() == hands.len() + 1,
        all_notes(with_hand(hands, hand)) == all_notes(hands).add(hand.to_multiset()),
        with_hand(hands, hand).to_multiset() == hands.to_multiset().insert(hand),
    decreases hands.len(),
{
    broadcast use vstd::seq_lib::to_multiset_build;

    let out = with_hand(hands, hand);
    if hands.len() == 0 || may_precede(hands.last(), hand) {
        assert(out.drop_last() =~= hands);
        assert forall|i: int, j: int| 0 <= i < j < out.len() implies may_precede(
            out[i],
            out[j],
        ) by {
            if j == hands.len() && i < hands.len() - 1 {
                assert(may_precede(hands[i], hands[hands.len() - 1]));
            }
        }
    } else {
        let front = hands.drop_last();
        let last = hands.last();
        assert(forall|i: int| 0 <= i < front.len() ==> front[i] == hands[i]);
        lemma_with_hand(front, hand);
        let inner = with_hand(front, hand);
        assert(out.drop_last() =~= inner);
        assert(hands =~= front.push(last));
        assert(all_notes(out) =~= all_notes(hands).add(hand.to_multiset()));
        assert(out.to_multiset() =~= hands.to_multiset().insert(hand));
        // every hand of `inner` is `hand` or one of `front`
        assert forall|i: int| 0 <= i < inner.len() implies may_precede(inner[i], last) by {
            vstd::seq_lib::to_multiset_contains(inner, inner[i]);
            assert(inner.contains(inner[i]));
            assert(inner.to_multiset().count(inner[i]) > 0);
            if inner[i] != hand {
                assert(front.to_multiset().count(inner[i]) > 0);
                vstd::seq_lib::to_multiset_contains(front, inner[i]);
                let k = choose|k: int| 0 <= k < front.len() && front[k] == inner[i];
                assert(may_precede(hands[k], hands[hands.len() - 1]));
            }
        }
        assert forall|i: int, j: int| 0 <= i < j < out.len() implies may_precede(
            out[i],
            out[j],
        ) by {
            if j < inner.len() {
                assert(may_precede(inner[i], inner[j]));
            }
        }
    }
}

/// Ordering the hands keeps every hand and with it every note, and brings
/// the hands into order.
pub proof fn lemma_ordered_hands(hands: Seq<Seq<Note>>)
    ensures
        in_order(ordered_hands(hands)),
        ordered_hands(hands).len() == hands.len(),
        all_notes(ordered_hands(hands)) == all_notes(hands),
        ordered_hands(hands).to_multiset() == hands.to_multiset(),
    decreases hands.len(),
{
    broadcast use vstd::seq_lib::to_multiset_build;

    if hands.len() > 0 {
        lemma_ordered_hands(hands.drop_last());
        lemma_with_hand(ordered_hands(hands.drop_last()), hands.last());
        assert(hands =~= hands.drop_last().push(hands.last()));
    }
}

/// Whether hand `a` may stand before hand `b`.
pub fn precedes(a: &Vec<Note>, b: &Vec<Note>) -> (may: bool)
    ensures
        may == may_precede(a@, b@),
{
    if a.len() == 0 {
        true
    } else if b.len() == 0 {
        false
    } else {
        a[0].semis_above_c0 <= b[0].semis_above_c0
    }
}

/// List the hands by their first notes, hands without a note first; hands
/// with the same first note keep their order.
pub fn order_hands(hands: Vec<Vec<Note>>) -> (ordered: Vec<Vec<Note>>)
    ensures
        hands_view(ordered@) == ordered_hands(hands_view(hands@)),
        in_order(hands_view(ordered@)),
        ordered@.len() == hands@.len(),
        all_notes(hands_view(ordered@)) == all_notes(hands_view(hands@)),
{
    let ghost given = hands_view(hands@);
    let mut ordered: Vec<Vec<Note>> = Vec::new();
    for i in 0..hands.len()
        invariant
            given == hands_view(hands@),
            hands_view(ordered@) == ordered_hands(given.take(i as int)),
    {
        let hand = hands[i].clone();
        assert(hand@ =~= hands@[i as int]@);
        let mut at = ordered.len();
        while at > 0 && !precedes(&ordered[at - 1], &hand)
            invariant
                at <= ordered@.len(),
                forall|k: int|
                    at <= k < ordered@.len() ==> !may_precede((#[trigger] ordered@[k])@, hand@),
            decreases at,
        {
            at -= 1;
        }
        proof {
            let before = hands_view(ordered@);
            assert forall|k: int| at <= k < before.len() implies !may_precede(
                #[trigger] before[k],
                hand@,
            ) by {
                assert(before[k] == ordered@[k]@);
            }
            lemma_with_hand_at(before, hand@, at as int);
            assert(given.take(i + 1).drop_last() =~= given.take(i as int));
            assert(given.take(i + 1).last() == hand@);
            assert(hands_view(ordered@.insert(at as int, hand)) =~= before.insert(
                at as int,
                hand@,
            ));
        }
        ordered.insert(at, hand);
    }
    proof {
        assert(given.take(hands@.len() as int) =~= given);
        lemma_ordered_hands(given);
    }
    ordered
}

/// Hands that hold the same notes one by one hold the same notes together.
pub proof fn lemma_all_notes_by_hand(a: Seq<Seq<Note>>, b: Seq<Seq<Note>>)
    requires
        a.len() == b.len(),
        forall|h: int| 0 <= h < a.len() ==> (#[trigger] a[h]).to_multiset() == b[h].to_multiset(),
    ensures
        all_notes(a) == all_notes(b),
    decreases a.len(),
{
    if a.len() > 0 {
        assert(a.last().to_multiset() == b[b.len() - 1].to_multiset());
        assert forall|h: int| 0 <= h < a.drop_last().len() implies (#[trigger] a.drop_last()[h])
            .to_multiset() == b.drop_last()[h].to_multiset() by {
            assert(a[h].to_multiset() == b[h].to_multiset());
        }
        lemma_all_notes_by_hand(a.drop_last(), b.drop_last());
    }
}

/// Two rows of the same items give the same items when each is replaced by
/// what `f` makes of it.
pub proof fn lemma_same_items_mapped<A, B>(a: Seq<A>, b: Seq<A>, f: spec_fn(A) -> B)
    requires
        a.to_multiset() == b.to_multiset(),
    ensures
        a.map_values(f).to_multiset() == b.map_values(f).to_multiset(),
    decreases a.len(),
{
    vstd::seq_lib::to_multiset_len(a);
    vstd::seq_lib::to_multiset_len(b);
    if a.len() == 0 {
        assert(a.map_values(f) =~= b.map_values(f));
    } else {
        let x = a.last();
        let front = a.drop_last();
        assert(a =~= front.push(x));
        vstd::seq_lib::to_multiset_build(front, x);
        assert(a.contains(x));
        vstd::seq_lib::to_multiset_contains(a, x);
        vstd::seq_lib::to_multiset_contains(b, x);
        let i = choose|i: int| 0 <= i < b.len() && b[i] == x;
        let rest = b.remove(i);
        vstd::seq_lib::to_multiset_remove(b, i);
        assert(front.to_multiset() =~= rest.to_multiset());
        lemma_same_items_mapped(front, rest, f);
        assert(a.map_values(f) =~= front.map_values(f).push(f(x)));
        assert(b.map_values(f) =~= rest.map_values(f).insert(i, f(x)));
        vstd::seq_lib::to_multiset_build(front.map_values(f), f(x));
        vstd::seq_lib::to_multiset_insert(rest.map_values(f), i, f(x));
    }
}

} // verus!
