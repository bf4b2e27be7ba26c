//! Computing the assignment of boomwhackers to players.

use vstd::prelude::*;

use crate::note::Note;
use crate::presentation::{all_notes, hands_view, in_order, may_precede};
use crate::search::{each_sorted, evenly_shared, search_outcome, search_with_seed, Context};

verus! {

/// An `Assignment` of boomwhackers to players: for every player the notes of
/// the left hand and those of the right hand.
#[derive(Debug, Clone)]
pub struct Assignment {
    pub players: Vec<(Vec<Note>, Vec<Note>)>,
    pub score: i128,
}

/// The hands in pairs: the first two for the first player, the next two for
/// the second, and so on.
pub open spec fn paired(hands: Seq<Seq<Note>>) -> Seq<(Seq<Note>, Seq<Note>)> {
    Seq::new((hands.len() / 2) as nat, |p: int| (hands[2 * p], hands[2 * p + 1]))
}

/// The hands of the players one after the other, for each player the left
/// hand and then the right.
pub open spec fn hands_of(players: Seq<(Seq<Note>, Seq<Note>)>) -> Seq<Seq<Note>> {
    Seq::new(
        2 * players.len(),
        |h: int|
            if h % 2 == 0 {
                players[h / 2].0
            } else {
                players[h / 2].1
            },
    )
}

/// Pairing an even number of hands and listing the hands of the pairs gives
/// the hands back.
pub proof fn lemma_hands_of_paired(hands: Seq<Seq<Note>>)
    requires
        hands.len() % 2 == 0,
    ensures
        hands_of(paired(hands)) == hands,
{
    assert(hands_of(paired(hands)) =~= hands);
}

impl Assignment {
    /// The players as pairs of sequences of notes.
    pub open spec fn view_players(&self) -> Seq<(Seq<Note>, Seq<Note>)> {
        self.players@.map_values(|player: (Vec<Note>, Vec<Note>)| (player.0@, player.1@))
    }

    /// Search for an assignment which works well for the given piece and
    /// number of players.  Every player gets two hands; the left hand is the
    /// one with the lower lowest note.
    pub fn new(ctx: &Context, num_players: usize, seed: u64) -> (assignment: Assignment)
        requires
            ctx.wf(),
            0 < num_players <= usize::MAX / 2,
        ensures
            assignment.view_players() == paired(
                search_outcome(ctx, (2 * num_players) as nat, seed).0,
            ),
            assignment.score == search_outcome(ctx, (2 * num_players) as nat, seed).1,
            assignment.players@.len() == num_players,
            all_notes(hands_of(assignment.view_players())) == ctx.notes().to_multiset(),
            evenly_shared(hands_of(assignment.view_players()), ctx.num_whackers()),
            each_sorted(hands_of(assignment.view_players())),
            in_order(hands_of(assignment.view_players())),
            forall|p: int|
                0 <= p < num_players ==> may_precede(
                    (#[trigger] assignment.view_players()[p]).0,
                    assignment.view_players()[p].1,
                ),
            assignment.score <= 0,
    {
        let found = search_with_seed(num_players * 2, ctx, seed);
        let ghost hands = found.hands();
        let mut players: Vec<(Vec<Note>, Vec<Note>)> = Vec::new();
        for p in 0..num_players
            invariant
                num_players <= usize::MAX / 2,
                hands == hands_view(found.hand_assignment@),
                hands.len() == 2 * num_players,
                players@.len() == p,
                forall|q: int|
                    0 <= q < p ==> (#[trigger] players@[q]).0@ == hands[2 * q] && players@[q].1@
                        == hands[2 * q + 1],
        {
            let left = found.hand_assignment[2 * p].clone();
            let right = found.hand_assignment[2 * p + 1].clone();
            assert(left@ =~= hands[2 * p]);
            assert(right@ =~= hands[2 * p + 1]);
            players.push((left, right));
        }
        let assignment = Assignment { players, score: found.best_score };
        proof {
            assert(assignment.view_players() =~= paired(hands));
            lemma_hands_of_paired(hands);
            assert forall|p: int| 0 <= p < num_players implies may_precede(
                (#[trigger] assignment.view_players()[p]).0,
                assignment.view_players()[p].1,
            ) by {
                assert(may_precede(hands[2 * p], hands[2 * p + 1]));
            }
        }
        assignment
    }
}

} // verus!
