//! What an assignment costs.
//!
//! A hand pays for every swap: whenever two consecutive hits of the hand fall
//! on different tubes, the hand has to change tubes within the time between
//! the two hits.  The penalty is the reciprocal of that time, so hurried swaps
//! are expensive and leisurely ones nearly free.  Scores are never positive;
//! the closer to zero the better.
//!
//! Times are whole nanoseconds and scores are whole billionths of a point: a
//! swap with one second of lead time costs [`POINT`].

use vstd::prelude::*;

use crate::merge::{
    advance, earliest, is_earliest, lemma_advance_total, lemma_earliest_unique,
    lemma_merged_tubes, lemma_total_hits_zero, merged, total_hits, Hit,
};
use crate::music_xml::Timestamp;
use crate::search::{is_track, Context};
use itertools::Itertools;

verus! {

/// The score of one point: what a swap with one second of lead time costs.
pub const POINT: i128 = 1_000_000_000;

/// No swap is taken to be faster than this many nanoseconds (0.01 s).
pub const MIN_SWAP_NANOS: i128 = 10_000_000;

/// The penalty of a swap is this number divided by the nanoseconds it has.
pub const PENALTY_SCALE: i128 = 1_000_000_000_000_000_000;

/// The highest penalty of a single swap: a hundred points.
pub const MAX_PENALTY: i128 = 100_000_000_000;

/// The time a swap is taken to have, given the time between the two hits.
pub open spec fn swap_nanos(gap: int) -> int {
    if gap < MIN_SWAP_NANOS {
        MIN_SWAP_NANOS as int
    } else {
        gap
    }
}

/// What a swap costs that has to happen between two hits `gap` nanoseconds
/// apart.
pub open spec fn switch_penalty(gap: int) -> int {
    PENALTY_SCALE as int / swap_nanos(gap)
}

/// What a hand pays for playing `hits` in this order: the penalty of every
/// hit that falls on another tube than the hit before it.
pub open spec fn switching_cost(hits: Seq<Hit>) -> int
    decreases hits.len(),
{
    if hits.len() < 2 {
        0
    } else {
        let before = hits[hits.len() - 2];
        let last = hits[hits.len() - 1];
        switching_cost(hits.drop_last()) - if last.tube != before.tube {
            switch_penalty(last.time - before.time)
        } else {
            0
        }
    }
}

/// The score of a hand that holds the tubes with these tracks.
pub open spec fn hand_cost(tracks: Seq<Seq<int>>) -> int {
    switching_cost(merged(tracks))
}

/// The score of a player: both hands, which never get into each other's way.
pub open spec fn player_cost(left: Seq<Seq<int>>, right: Seq<Seq<int>>) -> int {
    hand_cost(left) + hand_cost(right)
}

/// The tracks that are left when the first `cursors[i]` hits of every track
/// `i` have been played.
pub open spec fn pending(tracks: Seq<Seq<int>>, cursors: Seq<usize>) -> Seq<Seq<int>> {
    Seq::new(tracks.len(), |i: int| tracks[i].skip(cursors[i] as int))
}

/// A penalty is never negative and never more than [`MAX_PENALTY`].
pub proof fn lemma_penalty_bounds(gap: int)
    ensures
        0 <= switch_penalty(gap) <= MAX_PENALTY,
{
    let nanos = swap_nanos(gap);
    assert(0 <= 1_000_000_000_000_000_000int / nanos <= 100_000_000_000) by (nonlinear_arith)
        requires
            nanos >= 10_000_000,
    ;
}

/// One more hit costs at most one more penalty.
pub proof fn lemma_switching_cost_bounds(hits: Seq<Hit>)
    ensures
        -100_000_000_000 * hits.len() <= switching_cost(hits) <= 0,
    decreases hits.len(),
{
    if hits.len() >= 2 {
        lemma_switching_cost_bounds(hits.drop_last());
        lemma_penalty_bounds(hits[hits.len() - 1].time - hits[hits.len() - 2].time);
    }
}

/// A hand pays at most [`MAX_PENALTY`] for each of its hits, and gains nothing.
pub proof fn lemma_hand_cost_bounds(tracks: Seq<Seq<int>>)
    ensures
        -100_000_000_000 * total_hits(tracks) <= hand_cost(tracks) <= 0,
{
    lemma_merged_tubes(tracks);
    lemma_switching_cost_bounds(merged(tracks));
}

/// Hits that all fall on one tube cost nothing.
pub proof fn lemma_one_tube_costs_nothing(hits: Seq<Hit>)
    requires
        forall|i: int| 0 <= i < hits.len() ==> (#[trigger] hits[i]).tube == 0,
    ensures
        switching_cost(hits) == 0,
    decreases hits.len(),
{
    if hits.len() >= 2 {
        lemma_one_tube_costs_nothing(hits.drop_last());
        assert(hits[hits.len() - 1].tube == 0);
        assert(hits[hits.len() - 2].tube == 0);
    }
}

/// A hand that holds no tube or a single one never has to swap, whatever the
/// times are: its score is zero.
pub proof fn lemma_lone_hand_costs_nothing(tracks: Seq<Seq<int>>)
    requires
        tracks.len() <= 1,
    ensures
        hand_cost(tracks) == 0,
{
    lemma_merged_tubes(tracks);
    lemma_one_tube_costs_nothing(merged(tracks));
}

/// Tracks of vectors hold no more hits than their number of vectors allows.
pub proof fn lemma_total_hits_at_most(tracks: Seq<Seq<int>>, longest: nat)
    requires
        forall|i: int| 0 <= i < tracks.len() ==> (#[trigger] tracks[i]).len() <= longest,
    ensures
        total_hits(tracks) <= tracks.len() * longest,
    decreases tracks.len(),
{
    if tracks.len() > 0 {
        let front = tracks.drop_last();
        assert(forall|i: int| 0 <= i < front.len() ==> front[i] == tracks[i]);
        lemma_total_hits_at_most(front, longest);
        assert(tracks[tracks.len() - 1].len() <= longest);
        assert(tracks.len() * longest == front.len() * longest + longest) by (nonlinear_arith)
            requires
                tracks.len() == front.len() + 1,
        ;
    }
}

/// Moving the cursor of track `k` by one plays the first pending hit of it.
proof fn lemma_pending_advance(
    tracks: Seq<Seq<int>>,
    cursors: Seq<usize>,
    k: int,
    moved: Seq<usize>,
)
    requires
        cursors.len() == tracks.len(),
        0 <= k < tracks.len(),
        cursors[k] < tracks[k].len(),
        moved.len() == cursors.len(),
        moved[k] == cursors[k] + 1,
        forall|i: int| 0 <= i < cursors.len() && i != k ==> moved[i] == cursors[i],
    ensures
        advance(pending(tracks, cursors), k) == pending(tracks, moved),
{
    let before = pending(tracks, cursors);
    let after = pending(tracks, moved);
    assert(advance(before, k).len() == after.len());
    assert forall|i: int| 0 <= i < after.len() implies advance(before, k)[i] == after[i] by {
        if i == k {
            assert(before[k].drop_first() =~= tracks[k].skip(cursors[k] + 1));
        } else {
            assert(before[i] == tracks[i].skip(cursors[i] as int));
        }
    }
    assert(advance(before, k) =~= after);
}

/// Numbers below `bound` that are all different are at most `bound` many.
pub proof fn lemma_distinct_below(items: Seq<usize>, bound: nat)
    requires
        items.no_duplicates(),
        forall|i: int| 0 <= i < items.len() ==> items[i] < bound,
    ensures
        items.len() <= bound,
{
    let wide = items.map_values(|x: usize| x as int);
    assert(wide.no_duplicates());
    wide.unique_seq_to_set();
    let range = vstd::set_lib::set_int_range(0, bound as int);
    vstd::set_lib::lemma_int_range(0, bound as int);
    assert forall|x: int| wide.to_set().contains(x) implies range.contains(x) by {
        let i = choose|i: int| 0 <= i < wide.len() && wide[i] == x;
        assert(items[i] < bound);
    }
    vstd::set_lib::lemma_len_subset(wide.to_set(), range);
}

/// The position of the smallest key, the first if several are equally small;
/// nothing if there is no key.  This is what `position_min_by_key` of
/// `itertools` returns when the key of an item is the item itself.
#[verifier::external_body]
fn position_of_smallest(keys: &Vec<u64>) -> (found: Option<usize>)
    ensures
        keys@.len() == 0 ==> found is None,
        keys@.len() > 0 ==> found is Some,
        found matches Some(p) ==> {
            &&& p < keys@.len()
            &&& forall|j: int| 0 <= j < keys@.len() ==> keys@[p as int] <= keys@[j]
            &&& forall|j: int| 0 <= j < p ==> keys@[p as int] < keys@[j]
        },
{
    keys.iter().position_min_by_key(|key| **key)
}

/// What a swap costs that has `gap` nanoseconds between its two hits.
pub fn penalty(gap: i128) -> (cost: i128)
    ensures
        cost == switch_penalty(gap as int),
        0 <= cost <= MAX_PENALTY,
{
    proof {
        lemma_penalty_bounds(gap as int);
    }
    let nanos = if gap < MIN_SWAP_NANOS {
        MIN_SWAP_NANOS
    } else {
        gap
    };
    PENALTY_SCALE / nanos
}

/// Given the boomwhackers which need to be played by a single hand, compute
/// the score generated from the swaps.  All swaps contribute negative score,
/// and this score is weighted by how long the swap requires.
pub fn score_for_hand(whackers_in_hand: &[usize], ctx: &Context) -> (score: i128)
    requires
        ctx.wf(),
        whackers_in_hand@.no_duplicates(),
        forall|i: int|
            0 <= i < whackers_in_hand@.len() ==> whackers_in_hand@[i] < ctx.num_whackers(),
    ensures
        score == hand_cost(ctx.hand_tracks(whackers_in_hand@)),
{
    let ghost tracks = ctx.hand_tracks(whackers_in_hand@);
    let held_tubes = whackers_in_hand.len();
    if held_tubes <= 1 {
        proof {
            lemma_lone_hand_costs_nothing(tracks);
        }
        return 0;  // Any hand with 0 or 1 whackers doesn't need any swaps
    }
    proof {
        ctx.lemma_at_most_256();
        lemma_distinct_below(whackers_in_hand@, ctx.num_whackers());
        ctx.lemma_hand_tracks_fit(whackers_in_hand@);
        lemma_total_hits_at_most(tracks, usize::MAX as nat);
        assert(tracks.len() * (usize::MAX as nat) <= 256 * 0xffff_ffff_ffff_ffff) by (nonlinear_arith)
            requires
                tracks.len() <= 256,
                usize::MAX <= 0xffff_ffff_ffff_ffff,
        ;
    }

    // One cursor into the times of every whacker, and the first time of each
    let mut cursors: Vec<usize> = Vec::new();
    let mut first_times: Vec<u64> = Vec::new();
    for i in 0..held_tubes
        invariant
            ctx.wf(),
            held_tubes == whackers_in_hand@.len(),
            tracks == ctx.hand_tracks(whackers_in_hand@),
            forall|i: int|
                0 <= i < whackers_in_hand@.len() ==> whackers_in_hand@[i] < ctx.num_whackers(),
            cursors@.len() == i,
            first_times@.len() == i,
            forall|j: int| 0 <= j < i ==> cursors@[j] == 0,
            forall|j: int| 0 <= j < i ==> first_times@[j] == tracks[j][0],
    {
        let times = ctx.times(whackers_in_hand[i]);
        assert(is_track(ctx.track(whackers_in_hand@[i as int] as int)));
        cursors.push(0);
        first_times.push(times[0].nanos);
    }

    // Find the whacker with the first time, and assume the player starts holding that whacker
    let mut last_played = match position_of_smallest(&first_times) {
        Some(position) => position,
        None => 0,
    };
    let mut last_whack_time = Timestamp::zero();
    let mut score: i128 = 0;
    let ghost mut played: Seq<Hit> = Seq::empty();
    proof {
        assert(pending(tracks, cursors@) =~= tracks) by {
            assert forall|i: int| 0 <= i < tracks.len() implies pending(tracks, cursors@)[i]
                =~= tracks[i] by {}
        }
        assert(is_earliest(tracks, last_played as int)) by {
            assert forall|j: int| 0 <= j < tracks.len() && (#[trigger] tracks[j]).len()
                > 0 implies tracks[last_played as int][0] < tracks[j][0] || (
            tracks[last_played as int][0] == tracks[j][0] && last_played <= j) by {
                assert(first_times@[j] == tracks[j][0]);
            }
            assert(is_track(ctx.track(whackers_in_hand@[last_played as int] as int)));
        }
        lemma_earliest_unique(tracks, last_played as int);
        lemma_merged_tubes(tracks);
    }
    loop
        invariant
            ctx.wf(),
            held_tubes == whackers_in_hand@.len(),
            tracks == ctx.hand_tracks(whackers_in_hand@),
            forall|i: int|
                0 <= i < whackers_in_hand@.len() ==> whackers_in_hand@[i] < ctx.num_whackers(),
            cursors@.len() == held_tubes,
            forall|i: int| 0 <= i < held_tubes ==> cursors@[i] <= tracks[i].len(),
            played + merged(pending(tracks, cursors@)) == merged(tracks),
            score == switching_cost(played),
            played.len() == 0 ==> pending(tracks, cursors@) == tracks && last_played == earliest(
                tracks,
            ),
            played.len() > 0 ==> last_played == played.last().tube && last_whack_time@
                == played.last().time,
            merged(tracks).len() <= 256 * 0xffff_ffff_ffff_ffff,
        ensures
            score == hand_cost(tracks),
        decreases total_hits(pending(tracks, cursors@)),
    {
        let ghost rest = pending(tracks, cursors@);
        // Determine which boomwhacker is the next to play
        let mut best_next_time = Timestamp::zero();
        let mut next_played: Option<usize> = None;
        for i in 0..held_tubes
            invariant
                ctx.wf(),
                held_tubes == whackers_in_hand@.len(),
                tracks == ctx.hand_tracks(whackers_in_hand@),
                forall|i: int|
                    0 <= i < whackers_in_hand@.len() ==> whackers_in_hand@[i]
                        < ctx.num_whackers(),
                cursors@.len() == held_tubes,
                forall|i: int| 0 <= i < held_tubes ==> cursors@[i] <= tracks[i].len(),
                rest == pending(tracks, cursors@),
                next_played is None ==> forall|j: int| 0 <= j < i ==> (#[trigger] rest[j]).len() == 0,
                next_played matches Some(k) ==> {
                    &&& k < i
                    &&& rest[k as int].len() > 0
                    &&& best_next_time@ == rest[k as int][0]
                    &&& forall|j: int|
                        0 <= j < i && (#[trigger] rest[j]).len() > 0 ==> rest[k as int][0]
                            < rest[j][0] || (rest[k as int][0] == rest[j][0] && k <= j)
                },
        {
            let times = ctx.times(whackers_in_hand[i]);
            let cursor = cursors[i];
            proof {
                ctx.lemma_track_fits(whackers_in_hand@[i as int] as int);
                assert(rest[i as int] == tracks[i as int].skip(cursor as int));
            }
            if cursor < times.len() {
                let next_time = times[cursor];
                assert(next_time@ == rest[i as int][0]);
                let earlier = match next_played {
                    Some(_) => next_time.nanos < best_next_time.nanos,
                    None => true,
                };
                if earlier {
                    best_next_time = next_time;
                    next_played = Some(i);
                }
            }
        }
        let next_played = match next_played {
            Some(position) => position,
            None => {
                proof {
                    lemma_total_hits_zero(rest);
                    assert(merged(rest) =~= Seq::<Hit>::empty());
                    assert(played =~= merged(tracks));
                }
                break ;  // No times are left, so all the notes have been played
            },
        };
        let ghost hit = Hit { tube: next_played as int, time: best_next_time@ };
        proof {
            assert(is_earliest(rest, next_played as int));
            lemma_earliest_unique(rest, next_played as int);
            lemma_advance_total(rest, next_played as int);
            assert(played.push(hit) + merged(advance(rest, next_played as int)) =~= played
                + merged(rest));
            assert(played.push(hit).drop_last() =~= played);
            lemma_switching_cost_bounds(played);
            lemma_merged_tubes(advance(rest, next_played as int));
        }

        // Consume the next hit of that whacker
        let cursor = cursors[next_played];
        let ghost cursors_before = cursors@;
        proof {
            ctx.lemma_track_fits(whackers_in_hand@[next_played as int] as int);
            assert(rest[next_played as int] == tracks[next_played as int].skip(cursor as int));
        }
        cursors[next_played] = cursor + 1;
        proof {
            lemma_pending_advance(tracks, cursors_before, next_played as int, cursors@);
        }

        // Update score if this hit requires us to switch boomwhackers
        if last_played != next_played {
            // For swapping boomwhackers, the score should be roughly reciprocal in the time -
            // i.e. getting really close gets bad very quickly, but the differences becomes
            // much less relevant once we have a few seconds for the switch.
            let cost = penalty(last_whack_time.nanos_until(best_next_time));
            score = score - cost;
        }
        last_whack_time = best_next_time;
        last_played = next_played;
        proof {
            played = played.push(hit);
        }
    }
    score
}

/// Given the boomwhackers played by each hand of a player, compute the score
/// generated from that player having to swap which whacker they hold in each
/// hand.
pub fn score_for_player(left_hand: &[usize], right_hand: &[usize], ctx: &Context) -> (score: i128)
    requires
        ctx.wf(),
        left_hand@.no_duplicates(),
        right_hand@.no_duplicates(),
        forall|i: int| 0 <= i < left_hand@.len() ==> left_hand@[i] < ctx.num_whackers(),
        forall|i: int| 0 <= i < right_hand@.len() ==> right_hand@[i] < ctx.num_whackers(),
    ensures
        score == player_cost(ctx.hand_tracks(left_hand@), ctx.hand_tracks(right_hand@)),
{
    proof {
        ctx.lemma_at_most_256();
        lemma_distinct_below(left_hand@, ctx.num_whackers());
        lemma_distinct_below(right_hand@, ctx.num_whackers());
        lemma_score_fits(ctx, left_hand@);
        lemma_score_fits(ctx, right_hand@);
    }
    score_for_hand(left_hand, ctx) + score_for_hand(right_hand, ctx)
}

/// A hand pays at most [`MAX_PENALTY`] for each hit, so for each tube that it
/// holds at most that for every hit of the longest track a vector can hold.
pub proof fn lemma_score_fits(ctx: &Context, hand: Seq<usize>)
    requires
        ctx.wf(),
        forall|i: int| 0 <= i < hand.len() ==> hand[i] < ctx.num_whackers(),
    ensures
        -1_844_674_407_370_955_161_500_000_000_000 * hand.len() <= hand_cost(
            ctx.hand_tracks(hand),
        ) <= 0,
{
    let tracks = ctx.hand_tracks(hand);
    lemma_hand_cost_bounds(tracks);
    ctx.lemma_hand_tracks_fit(hand);
    lemma_total_hits_at_most(tracks, usize::MAX as nat);
    let hits = total_hits(tracks) as int;
    let tubes = hand.len() as int;
    assert(100_000_000_000 * hits <= 1_844_674_407_370_955_161_500_000_000_000 * tubes)
        by (nonlinear_arith)
        requires
            0 <= hits <= tubes * (usize::MAX as nat),
            usize::MAX <= 0xffff_ffff_ffff_ffff,
    ;

}

} // verus!
