//! An assignment of boomwhackers to hands, in the form that the search works
//! on.

use std::ops::Range;
use vstd::prelude::*;

use crate::layout::{
    exchanged, hand_of, hand_size, hand_start, lemma_exchange_keeps_items, lemma_hand_sizes,
    lemma_hands_tile,
};
use crate::note::Note;
use crate::rng::SeededRng;
use crate::scoring::{hand_cost, lemma_score_fits, score_for_hand};
use crate::search::Context;

verus! {

/// The boomwhackers of a piece with `whackers` of them, by their numbers in
/// the [`Context`], lowest note first.
pub open spec fn all_whackers(whackers: nat) -> Seq<usize> {
    Seq::new(whackers, |i: int| i as usize)
}

/// `row` holds each of the `whackers` boomwhackers of a piece exactly once and
/// nothing else.
pub open spec fn is_arrangement(row: Seq<usize>, whackers: nat) -> bool {
    row.to_multiset() == all_whackers(whackers).to_multiset()
}

/// `row` with the boomwhackers at places `i` and `j` exchanged.
pub open spec fn swapped(row: Seq<usize>, i: int, j: int) -> Seq<usize> {
    exchanged(row, i, j)
}

/// The notes of the boomwhackers with the numbers in `hand`.
pub open spec fn hand_notes(ctx: &Context, hand: Seq<usize>) -> Seq<Note> {
    hand.map_values(|k: usize| ctx.note(k as int))
}

/// The score of the first `upto` hands when `hands` hands share `row`.
pub open spec fn score_of_first_hands(
    ctx: &Context,
    row: Seq<usize>,
    hands: nat,
    upto: nat,
) -> int
    decreases upto,
{
    if upto == 0 {
        0
    } else {
        score_of_first_hands(ctx, row, hands, (upto - 1) as nat) + hand_cost(
            ctx.hand_tracks(hand_of(row, hands, upto - 1)),
        )
    }
}

/// The score of the assignment in which `hands` hands share `row`: what all
/// its hands pay together.
pub open spec fn arrangement_score(ctx: &Context, row: Seq<usize>, hands: nat) -> int {
    score_of_first_hands(ctx, row, hands, hands)
}

/// What a random swap makes of `row`, and the generator afterwards: two
/// places are drawn, one after the other and possibly the same twice, and the
/// boomwhackers there are exchanged.  An empty row stays as it is.
pub open spec fn after_random_swap(row: Seq<usize>, rng: SeededRng) -> (Seq<usize>, SeededRng) {
    if row.len() == 0 {
        (row, rng)
    } else {
        let (i, rng) = rng.below(row.len() as usize);
        let (j, rng) = rng.below(row.len() as usize);
        (swapped(row, i as int, j as int), rng)
    }
}

/// An arrangement is as long as the piece has boomwhackers, holds none twice
/// and only numbers of the piece.
pub proof fn lemma_arrangement_facts(row: Seq<usize>, whackers: nat)
    requires
        is_arrangement(row, whackers),
        whackers <= usize::MAX,
    ensures
        row.len() == whackers,
        row.no_duplicates(),
        forall|i: int| 0 <= i < row.len() ==> (#[trigger] row[i]) < whackers,
{
    broadcast use {
        vstd::seq_lib::to_multiset_len,
        vstd::seq_lib::to_multiset_contains,
    };

    let all = all_whackers(whackers);
    assert(row.to_multiset().len() == all.to_multiset().len());
    assert(all.no_duplicates());
    all.lemma_multiset_has_no_duplicates();
    row.lemma_multiset_has_no_duplicates_conv();
    assert forall|i: int| 0 <= i < row.len() implies (#[trigger] row[i]) < whackers by {
        assert(row.contains(row[i]));
        assert(all.to_multiset().count(row[i]) > 0);
        assert(all.contains(row[i]));
    }
}

/// Exchanging two boomwhackers moves them between hands or within a hand,
/// but none is lost and none comes twice.
pub proof fn lemma_swap_keeps_arrangement(row: Seq<usize>, i: int, j: int, whackers: nat)
    requires
        is_arrangement(row, whackers),
        0 <= i < row.len(),
        0 <= j < row.len(),
    ensures
        is_arrangement(swapped(row, i, j), whackers),
{
    lemma_exchange_keeps_items(row, i, j);
}

/// A swap is its own inverse: the same two places exchanged twice in a row
/// bring every boomwhacker back to where it was.
pub proof fn lemma_swap_twice(row: Seq<usize>, i: int, j: int)
    requires
        0 <= i < row.len(),
        0 <= j < row.len(),
    ensures
        swapped(swapped(row, i, j), i, j) == row,
{
    assert(swapped(swapped(row, i, j), i, j) =~= row);
}

/// Every hand of an arrangement holds boomwhackers of the piece, none twice.
pub proof fn lemma_hand_of_arrangement(row: Seq<usize>, whackers: nat, hands: nat, hand: int)
    requires
        is_arrangement(row, whackers),
        whackers <= usize::MAX,
        hands > 0,
        0 <= hand < hands,
    ensures
        hand_of(row, hands, hand).no_duplicates(),
        hand_of(row, hands, hand).len() == hand_size(whackers, hands, hand),
        forall|i: int|
            0 <= i < hand_of(row, hands, hand).len() ==> (#[trigger] hand_of(row, hands, hand)[i])
                < whackers,
{
    lemma_arrangement_facts(row, whackers);
    lemma_hands_tile(whackers, hands, hand);
    lemma_hand_sizes(whackers, hands, hand);
}

/// The score of an arrangement is never positive, and each boomwhacker can
/// make it only so much worse.
pub proof fn lemma_score_of_first_hands_fits(
    ctx: &Context,
    row: Seq<usize>,
    hands: nat,
    upto: nat,
)
    requires
        ctx.wf(),
        is_arrangement(row, ctx.num_whackers()),
        ctx.num_whackers() <= usize::MAX,
        hands > 0,
        upto <= hands,
    ensures
        -1_844_674_407_370_955_161_500_000_000_000 * hand_start(row.len(), hands, upto as int)
            <= score_of_first_hands(ctx, row, hands, upto) <= 0,
    decreases upto,
{
    lemma_arrangement_facts(row, ctx.num_whackers());
    if upto > 0 {
        lemma_score_of_first_hands_fits(ctx, row, hands, (upto - 1) as nat);
        lemma_hand_of_arrangement(row, ctx.num_whackers(), hands, upto - 1);
        lemma_score_fits(ctx, hand_of(row, hands, upto - 1));
        lemma_hand_sizes(row.len(), hands, upto - 1);
        let before = hand_start(row.len(), hands, upto - 1) as int;
        let size = hand_of(row, hands, upto - 1).len() as int;
        assert(hand_start(row.len(), hands, upto as int) == before + size);
        assert(1_844_674_407_370_955_161_500_000_000_000 * (before + size)
            == 1_844_674_407_370_955_161_500_000_000_000 * before
            + 1_844_674_407_370_955_161_500_000_000_000 * size);
    }
}

/// One hand: the stretch of the row that it takes.
#[derive(Debug)]
struct Hand {
    /// The [`Range`] of the row of boomwhackers which are played by this hand
    range: Range<usize>,
}

/// An assignment of boomwhackers to hands.  We don't worry about combining
/// the hands into players here.
#[derive(Debug)]
pub struct HandAssignment {
    /// A flat list representing all the [`Hand`]s' boomwhackers concatenated
    /// together.
    ///
    /// Storing them as a single flat list makes [`Self::make_swap`]
    /// substantially easier and more efficient (since we can uniformly sample
    /// two whackers from this list).  Also we use numbers instead of notes for
    /// more efficient lookups.
    whackers: Vec<usize>,
    /// Each [`Hand`] is assigned to some sub-[`Range`] of `whackers`
    hands: Vec<Hand>,
    /// The current score of the assignment
    score: i128,
}

/// The hands take the stretches that the layout gives them.
spec fn laid_out(hands: Seq<Hand>, whackers: nat) -> bool {
    forall|h: int|
        0 <= h < hands.len() ==> {
            &&& (#[trigger] hands[h]).range.start == hand_start(whackers, hands.len(), h)
            &&& hands[h].range.end == hand_start(whackers, hands.len(), h + 1)
        }
}

impl Hand {
    fn new(range: Range<usize>) -> (hand: Hand)
        ensures
            hand.range == range,
    {
        Hand { range }
    }

    fn score(&self, whackers: &Vec<usize>, ctx: &Context) -> (score: i128)
        requires
            ctx.wf(),
            self.range.start <= self.range.end <= whackers@.len(),
            whackers@.subrange(self.range.start as int, self.range.end as int).no_duplicates(),
            forall|i: int|
                self.range.start <= i < self.range.end ==> whackers@[i] < ctx.num_whackers(),
        ensures
            score == hand_cost(
                ctx.hand_tracks(
                    whackers@.subrange(self.range.start as int, self.range.end as int),
                ),
            ),
    {
        let row = whackers.as_slice();
        score_for_hand(&row[self.range.start..self.range.end], ctx)
    }
}

/// What all hands pay together.
fn total_score(whackers: &Vec<usize>, hands: &Vec<Hand>, ctx: &Context) -> (score: i128)
    requires
        ctx.wf(),
        is_arrangement(whackers@, ctx.num_whackers()),
        hands@.len() > 0,
        laid_out(hands@, whackers@.len()),
    ensures
        score == arrangement_score(ctx, whackers@, hands@.len()),
{
    let ghost row = whackers@;
    let ghost n = ctx.num_whackers();
    proof {
        ctx.lemma_at_most_256();
        lemma_arrangement_facts(row, n);
    }
    let mut score: i128 = 0;
    for h in 0..hands.len()
        invariant
            ctx.wf(),
            row == whackers@,
            n == ctx.num_whackers(),
            n <= 256,
            row.len() == n,
            is_arrangement(row, n),
            forall|i: int| 0 <= i < row.len() ==> (#[trigger] row[i]) < n,
            hands@.len() > 0,
            laid_out(hands@, n),
            score == score_of_first_hands(ctx, row, hands@.len(), h as nat),
    {
        proof {
            lemma_score_of_first_hands_fits(ctx, row, hands@.len(), h as nat);
            lemma_hand_of_arrangement(row, n, hands@.len(), h as int);
            lemma_hands_tile(n, hands@.len(), h as int);
            lemma_score_fits(ctx, hand_of(row, hands@.len(), h as int));
            assert(hands@[h as int].range.start == hand_start(n, hands@.len(), h as int));
            assert(hand_start(n, hands@.len(), hands@.len() as int) <= 256);
        }
        score = score + hands[h].score(whackers, ctx);
    }
    score
}

impl HandAssignment {
    /// The row of boomwhackers that the hands share: hand after hand, each
    /// boomwhacker by its number in the [`Context`].
    pub closed spec fn row(&self) -> Seq<usize> {
        self.whackers@
    }

    /// The number of hands.
    pub closed spec fn num_hands(&self) -> nat {
        self.hands@.len()
    }

    /// The score that the assignment carries with it.
    pub closed spec fn cached_score(&self) -> int {
        self.score as int
    }

    /// The hands take the stretches of the row that the layout gives them.
    pub closed spec fn hands_laid_out(&self) -> bool {
        laid_out(self.hands@, self.whackers@.len())
    }

    /// The boomwhackers of hand `hand`, by their numbers.
    pub open spec fn hand(&self, hand: int) -> Seq<usize> {
        hand_of(self.row(), self.num_hands(), hand)
    }

    /// The assignment belongs to the piece: there is a hand, every
    /// boomwhacker of the piece is in exactly one hand, exactly once, and the
    /// score is the score of this arrangement.
    pub open spec fn wf(&self, ctx: &Context) -> bool {
        &&& self.num_hands() > 0
        &&& self.hands_laid_out()
        &&& is_arrangement(self.row(), ctx.num_whackers())
        &&& self.cached_score() == arrangement_score(ctx, self.row(), self.num_hands())
    }

    /// The assignment in which `num_hands` hands share the boomwhackers in
    /// the order `order`: each hand takes as many as every other, but that
    /// the first hands take one more if the division leaves a rest.
    pub fn from_order(num_hands: usize, ctx: &Context, order: Vec<usize>) -> (assignment: Self)
        requires
            num_hands > 0,
            ctx.wf(),
            is_arrangement(order@, ctx.num_whackers()),
        ensures
            assignment.wf(ctx),
            assignment.row() == order@,
            assignment.num_hands() == num_hands,
    {
        let ghost n = ctx.num_whackers();
        proof {
            ctx.lemma_at_most_256();
            lemma_arrangement_facts(order@, n);
        }
        // Split the assignment up into hands, as evenly as possible.  I.e. we assign the same
        // number of whackers to all the hands, with some hands taking one extra.
        let base_whackers_per_hand = order.len() / num_hands;
        let num_hands_with_one_extra = order.len() % num_hands;

        let mut hands: Vec<Hand> = Vec::new();
        let mut whackers_allocated: usize = 0;
        for i in 0..num_hands
            invariant
                num_hands > 0,
                n == order@.len(),
                n <= 256,
                base_whackers_per_hand == n / (num_hands as nat),
                num_hands_with_one_extra == n % (num_hands as nat),
                whackers_allocated == hand_start(n, num_hands as nat, i as int),
                hands@.len() == i,
                forall|h: int|
                    0 <= h < i ==> {
                        &&& (#[trigger] hands@[h]).range.start == hand_start(
                            n,
                            num_hands as nat,
                            h,
                        )
                        &&& hands@[h].range.end == hand_start(n, num_hands as nat, h + 1)
                    },
        {
            proof {
                lemma_hands_tile(n, num_hands as nat, i as int);
                lemma_hand_sizes(n, num_hands as nat, i as int);
            }
            // Give the spare whackers to the first `num_hands_with_one_extra` hands
            let extra: usize = if i < num_hands_with_one_extra {
                1
            } else {
                0
            };
            let num_whackers = base_whackers_per_hand + extra;
            hands.push(Hand::new(whackers_allocated..whackers_allocated + num_whackers));
            whackers_allocated += num_whackers;
        }

        let score = total_score(&order, &hands, ctx);
        HandAssignment { score, hands, whackers: order }
    }

    /// Create a new assignment where all the boomwhackers are randomly
    /// assigned.
    pub fn random(num_hands: usize, ctx: &Context, rng: &mut SeededRng) -> (assignment: Self)
        requires
            num_hands > 0,
            ctx.wf(),
        ensures
            assignment.wf(ctx),
            assignment.num_hands() == num_hands,
            (assignment.row(), *final(rng)) == old(rng).shuffled(all_whackers(ctx.num_whackers())),
    {
        proof {
            ctx.lemma_at_most_256();
        }
        // Shuffle the numbers of the boomwhackers to create the random starting assignment
        let mut whackers: Vec<usize> = Vec::new();
        let count = ctx.len();
        for idx in 0..count
            invariant
                whackers@ == all_whackers(idx as nat),
        {
            whackers.push(idx);
            assert(whackers@ =~= all_whackers((idx + 1) as nat));
        }
        rng.shuffle(&mut whackers);
        Self::from_order(num_hands, ctx, whackers)
    }

    /// Exchange the boomwhackers at places `i` and `j` of the row.
    pub fn swap_at(&mut self, ctx: &Context, i: usize, j: usize)
        requires
            ctx.wf(),
            old(self).wf(ctx),
            i < old(self).row().len(),
            j < old(self).row().len(),
        ensures
            final(self).wf(ctx),
            final(self).row() == swapped(old(self).row(), i as int, j as int),
            final(self).num_hands() == old(self).num_hands(),
    {
        proof {
            lemma_swap_keeps_arrangement(self.whackers@, i as int, j as int, ctx.num_whackers());
        }
        let first = self.whackers[i];
        let second = self.whackers[j];
        self.whackers[i] = second;
        self.whackers[j] = first;
        self.score = total_score(&self.whackers, &self.hands, ctx);
    }

    /// Swap two random boomwhackers in this assignment.
    pub fn make_swap(&mut self, ctx: &Context, rng: &mut SeededRng)
        requires
            ctx.wf(),
            old(self).wf(ctx),
        ensures
            final(self).wf(ctx),
            final(self).num_hands() == old(self).num_hands(),
            (final(self).row(), *final(rng)) == after_random_swap(old(self).row(), *old(rng)),
    {
        if self.whackers.len() > 0 {
            let swap_idx_1 = rng.gen_index(self.whackers.len());
            let swap_idx_2 = rng.gen_index(self.whackers.len());
            self.swap_at(ctx, swap_idx_1, swap_idx_2);
        }
    }

    /// The score of the assignment: the sum of what its hands pay.
    pub fn score(&self) -> (score: i128)
        ensures
            score == self.cached_score(),
    {
        self.score
    }

    /// The notes of the boomwhackers of each hand, hand after hand.
    pub fn whackers(&self, ctx: &Context) -> (hands: Vec<Vec<Note>>)
        requires
            ctx.wf(),
            self.wf(ctx),
        ensures
            hands@.len() == self.num_hands(),
            forall|h: int|
                0 <= h < hands@.len() ==> (#[trigger] hands@[h])@ == hand_notes(ctx, self.hand(h)),
    {
        let ghost n = ctx.num_whackers();
        proof {
            ctx.lemma_at_most_256();
            lemma_arrangement_facts(self.whackers@, n);
        }
        let mut hands: Vec<Vec<Note>> = Vec::new();
        for h in 0..self.hands.len()
            invariant
                ctx.wf(),
                self.wf(ctx),
                n == ctx.num_whackers(),
                n <= 256,
                self.whackers@.len() == n,
                forall|i: int| 0 <= i < n ==> (#[trigger] self.whackers@[i]) < n,
                hands@.len() == h,
                forall|g: int|
                    0 <= g < h ==> (#[trigger] hands@[g])@ == hand_notes(ctx, self.hand(g)),
        {
            proof {
                lemma_hands_tile(n, self.hands@.len(), h as int);
            }
            let start = self.hands[h].range.start;
            let end = self.hands[h].range.end;
            let mut notes: Vec<Note> = Vec::new();
            for place in start..end
                invariant
                    ctx.wf(),
                    n == ctx.num_whackers(),
                    self.whackers@.len() == n,
                    forall|i: int| 0 <= i < n ==> (#[trigger] self.whackers@[i]) < n,
                    start <= end <= n,
                    notes@ == hand_notes(ctx, self.whackers@.subrange(start as int, place as int)),
            {
                notes.push(ctx.note_of(self.whackers[place]));
                assert(notes@ =~= hand_notes(
                    ctx,
                    self.whackers@.subrange(start as int, place + 1),
                ));
            }
            hands.push(notes);
        }
        hands
    }
}

impl Clone for HandAssignment {
    fn clone(&self) -> (copy: Self)
        ensures
            copy.row() == self.row(),
            copy.num_hands() == self.num_hands(),
            copy.cached_score() == self.cached_score(),
            copy.hands_laid_out() == self.hands_laid_out(),
    {
        let mut hands: Vec<Hand> = Vec::new();
        for h in 0..self.hands.len()
            invariant
                hands@.len() == h,
                forall|g: int| 0 <= g < h ==> (#[trigger] hands@[g]).range == self.hands@[g].range,
        {
            hands.push(Hand::new(self.hands[h].range.start..self.hands[h].range.end));
        }
        let whackers = self.whackers.clone();
        assert(whackers@ =~= self.whackers@);
        assert(hands@.len() == self.hands@.len());
        assert(laid_out(hands@, whackers@.len()) == laid_out(self.hands@, self.whackers@.len())) by {
            assert forall|h: int| 0 <= h < hands@.len() implies (#[trigger] hands@[h]).range
                == self.hands@[h].range by {}
            if laid_out(self.hands@, self.whackers@.len()) {
                assert forall|h: int| 0 <= h < hands@.len() implies {
                    &&& (#[trigger] hands@[h]).range.start == hand_start(
                        whackers@.len(),
                        hands@.len(),
                        h,
                    )
                    &&& hands@[h].range.end == hand_start(whackers@.len(), hands@.len(), h + 1)
                } by {
                    assert(self.hands@[h].range == hands@[h].range);
                }
            }
            if laid_out(hands@, whackers@.len()) {
                assert forall|h: int| 0 <= h < self.hands@.len() implies {
                    &&& (#[trigger] self.hands@[h]).range.start == hand_start(
                        whackers@.len(),
                        hands@.len(),
                        h,
                    )
                    &&& self.hands@[h].range.end == hand_start(
                        whackers@.len(),
                        hands@.len(),
                        h + 1,
                    )
                } by {
                    assert(self.hands@[h].range == hands@[h].range);
                }
            }
        }
        HandAssignment { whackers, hands, score: self.score }
    }
}

} // verus!
