//! The order in which one hand strikes its tubes.
//!
//! A hand holds a few tubes, each with the ascending times at which it is
//! played: its track.  [`merged`] puts all hits of the hand into the one order
//! in which they are played: by time, and among hits at the same time the tube
//! that stands first in the hand comes first.

use vstd::prelude::*;

verus! {

/// One hit of a hand: which of its tubes is struck (by its place in the
/// hand), and when.
pub struct Hit {
    pub tube: int,
    pub time: int,
}

/// How many hits all tracks hold together.
pub open spec fn total_hits(tracks: Seq<Seq<int>>) -> nat
    decreases tracks.len(),
{
    if tracks.len() == 0 {
        0
    } else {
        total_hits(tracks.drop_last()) + tracks.last().len()
    }
}

/// Track `k` still has a hit, and no other track has an earlier one; a track
/// with an equally early hit stands later in the hand.
pub open spec fn is_earliest(tracks: Seq<Seq<int>>, k: int) -> bool {
    &&& 0 <= k < tracks.len()
    &&& tracks[k].len() > 0
    &&& forall|j: int|
        #![trigger tracks[j]]
        0 <= j < tracks.len() && tracks[j].len() > 0 ==> tracks[k][0] < tracks[j][0] || (
        tracks[k][0] == tracks[j][0] && k <= j)
}

/// The track that is played next.
pub open spec fn earliest(tracks: Seq<Seq<int>>) -> int {
    choose|k: int| is_earliest(tracks, k)
}

/// The tracks once the first hit of track `k` has been played.
pub open spec fn advance(tracks: Seq<Seq<int>>, k: int) -> Seq<Seq<int>> {
    tracks.update(k, tracks[k].drop_first())
}

/// All hits of the tracks in the order in which they are played.
pub open spec fn merged(tracks: Seq<Seq<int>>) -> Seq<Hit>
    decreases total_hits(tracks),
    via merged_terminates
{
    if total_hits(tracks) == 0 {
        Seq::empty()
    } else {
        let k = earliest(tracks);
        seq![Hit { tube: k, time: tracks[k][0] }] + merged(advance(tracks, k))
    }
}

#[via_fn]
proof fn merged_terminates(tracks: Seq<Seq<int>>) {
    if total_hits(tracks) != 0 {
        lemma_earliest_exists(tracks);
        lemma_advance_total(tracks, earliest(tracks));
    }
}

/// Replacing one track changes the total by the difference of the lengths.
pub proof fn lemma_total_hits_update(tracks: Seq<Seq<int>>, k: int, track: Seq<int>)
    requires
        0 <= k < tracks.len(),
    ensures
        total_hits(tracks.update(k, track)) == total_hits(tracks) - tracks[k].len() + track.len(),
    decreases tracks.len(),
{
    let after = tracks.update(k, track);
    if k == tracks.len() - 1 {
        assert(after.drop_last() =~= tracks.drop_last());
    } else {
        lemma_total_hits_update(tracks.drop_last(), k, track);
        assert(after.drop_last() =~= tracks.drop_last().update(k, track));
    }
}

/// Playing a hit leaves one hit less.
pub proof fn lemma_advance_total(tracks: Seq<Seq<int>>, k: int)
    requires
        0 <= k < tracks.len(),
        tracks[k].len() > 0,
    ensures
        total_hits(advance(tracks, k)) == total_hits(tracks) - 1,
{
    lemma_total_hits_update(tracks, k, tracks[k].drop_first());
}

/// No hit is left exactly when every track is empty.
pub proof fn lemma_total_hits_zero(tracks: Seq<Seq<int>>)
    ensures
        total_hits(tracks) == 0 <==> forall|j: int|
            #![trigger tracks[j]]
            0 <= j < tracks.len() ==> tracks[j].len() == 0,
    decreases tracks.len(),
{
    if tracks.len() > 0 {
        let front = tracks.drop_last();
        lemma_total_hits_zero(front);
        assert(forall|j: int| 0 <= j < front.len() ==> front[j] == tracks[j]);
        if total_hits(tracks) == 0 {
            assert forall|j: int| 0 <= j < tracks.len() implies (#[trigger] tracks[j]).len()
                == 0 by {
                if j < front.len() {
                    assert(front[j].len() == 0);
                }
            }
        }
        if forall|j: int| #![trigger tracks[j]] 0 <= j < tracks.len() ==> tracks[j].len() == 0 {
            assert forall|j: int| 0 <= j < front.len() implies (#[trigger] front[j]).len()
                == 0 by {
                assert(tracks[j].len() == 0);
            }
            assert(tracks[tracks.len() - 1].len() == 0);
        }
    }
}

/// While a hit is left, some track is the one to play next.
pub proof fn lemma_earliest_exists(tracks: Seq<Seq<int>>)
    requires
        total_hits(tracks) > 0,
    ensures
        is_earliest(tracks, earliest(tracks)),
    decreases tracks.len(),
{
    let front = tracks.drop_last();
    let n = tracks.len() - 1;
    assert(forall|j: int| 0 <= j < front.len() ==> front[j] == tracks[j]);
    if total_hits(front) > 0 {
        lemma_earliest_exists(front);
        let k = earliest(front);
        if tracks[n].len() > 0 && tracks[n][0] < tracks[k][0] {
            assert forall|j: int| 0 <= j < tracks.len() && (#[trigger] tracks[j]).len()
                > 0 implies tracks[n][0] < tracks[j][0] || (tracks[n][0] == tracks[j][0] && n
                <= j) by {
                if j < n {
                    assert(front[j].len() > 0);
                }
            }
            assert(is_earliest(tracks, n));
        } else {
            assert forall|j: int| 0 <= j < tracks.len() && (#[trigger] tracks[j]).len()
                > 0 implies tracks[k][0] < tracks[j][0] || (tracks[k][0] == tracks[j][0] && k
                <= j) by {
                if j < n {
                    assert(front[j].len() > 0);
                }
            }
            assert(is_earliest(tracks, k));
        }
    } else {
        lemma_total_hits_zero(front);
        assert forall|j: int| 0 <= j < tracks.len() && (#[trigger] tracks[j]).len()
            > 0 implies tracks[n][0] < tracks[j][0] || (tracks[n][0] == tracks[j][0] && n
            <= j) by {
            if j < n {
                assert(front[j].len() == 0);
            }
        }
        assert(is_earliest(tracks, n));
    }
}

/// Only one track can be the one to play next.
pub proof fn lemma_earliest_unique(tracks: Seq<Seq<int>>, k: int)
    requires
        is_earliest(tracks, k),
    ensures
        earliest(tracks) == k,
        total_hits(tracks) > 0,
{
    let e = earliest(tracks);
    assert(is_earliest(tracks, e));
    assert(tracks[k].len() > 0);
    assert(tracks[e].len() > 0);
    lemma_total_hits_zero(tracks);
}

/// Every hit is one of the tracks of the hand.
pub proof fn lemma_merged_tubes(tracks: Seq<Seq<int>>)
    ensures
        merged(tracks).len() == total_hits(tracks),
        forall|i: int|
            0 <= i < merged(tracks).len() ==> 0 <= (#[trigger] merged(tracks)[i]).tube
                < tracks.len(),
    decreases total_hits(tracks),
{
    if total_hits(tracks) != 0 {
        lemma_earliest_exists(tracks);
        let k = earliest(tracks);
        lemma_advance_total(tracks, k);
        lemma_merged_tubes(advance(tracks, k));
    }
}

/// Every track lists its times in rising order.
pub open spec fn tracks_ascend(tracks: Seq<Seq<int>>) -> bool {
    forall|k: int, i: int, j: int|
        0 <= k < tracks.len() && 0 <= i <= j < tracks[k].len() ==> tracks[k][i] <= tracks[k][j]
}

/// No track holds a time before `bound`.
pub open spec fn none_before(tracks: Seq<Seq<int>>, bound: int) -> bool {
    forall|k: int, i: int|
        0 <= k < tracks.len() && 0 <= i < tracks[k].len() ==> bound <= #[trigger] tracks[k][i]
}

/// If no track holds a time before `bound`, no hit comes before it.
pub proof fn lemma_merged_none_before(tracks: Seq<Seq<int>>, bound: int)
    requires
        none_before(tracks, bound),
    ensures
        forall|h: int| 0 <= h < merged(tracks).len() ==> bound <= (#[trigger] merged(tracks)[h]).time,
    decreases total_hits(tracks),
{
    if total_hits(tracks) != 0 {
        lemma_earliest_exists(tracks);
        let k = earliest(tracks);
        lemma_advance_total(tracks, k);
        let rest = advance(tracks, k);
        assert forall|t: int, i: int| 0 <= t < rest.len() && 0 <= i < rest[t].len() implies bound
            <= #[trigger] rest[t][i] by {
            if t == k {
                assert(rest[t][i] == tracks[k][i + 1]);
            } else {
                assert(rest[t][i] == tracks[t][i]);
            }
        }
        lemma_merged_none_before(rest, bound);
        assert(bound <= tracks[k][0]);
        let hits = merged(tracks);
        let later = merged(rest);
        assert forall|h: int| 0 <= h < hits.len() implies bound <= (#[trigger] hits[h]).time by {
            if h > 0 {
                assert(hits[h] == later[h - 1]);
            }
        }
    }
}

/// The hits of tracks that list their times in rising order come in rising
/// order of time: the hand plays them as time goes by.
pub proof fn lemma_merged_ascends(tracks: Seq<Seq<int>>)
    requires
        tracks_ascend(tracks),
    ensures
        forall|g: int, h: int|
            0 <= g <= h < merged(tracks).len() ==> merged(tracks)[g].time <= merged(
                tracks,
            )[h].time,
    decreases total_hits(tracks),
{
    if total_hits(tracks) != 0 {
        lemma_earliest_exists(tracks);
        let k = earliest(tracks);
        lemma_advance_total(tracks, k);
        let rest = advance(tracks, k);
        let first = tracks[k][0];
        assert forall|t: int, i: int, j: int|
            0 <= t < rest.len() && 0 <= i <= j < rest[t].len() implies rest[t][i]
            <= rest[t][j] by {
            if t == k {
                assert(rest[t][i] == tracks[k][i + 1]);
                assert(rest[t][j] == tracks[k][j + 1]);
            } else {
                assert(rest[t][i] == tracks[t][i]);
                assert(rest[t][j] == tracks[t][j]);
            }
        }
        assert forall|t: int, i: int| 0 <= t < rest.len() && 0 <= i < rest[t].len() implies first
            <= #[trigger] rest[t][i] by {
            if t == k {
                assert(rest[t][i] == tracks[k][i + 1]);
                assert(tracks[k][0] <= tracks[k][i + 1]);
            } else {
                assert(rest[t][i] == tracks[t][i]);
                assert(tracks[t].len() > 0);
                assert(first <= tracks[t][0]);
                assert(tracks[t][0] <= tracks[t][i]);
            }
        }
        lemma_merged_ascends(rest);
        lemma_merged_none_before(rest, first);
        let hits = merged(tracks);
        let later = merged(rest);
        assert forall|g: int, h: int| 0 <= g <= h < hits.len() implies hits[g].time
            <= hits[h].time by {
            if g > 0 {
                assert(hits[g] == later[g - 1]);
                assert(hits[h] == later[h - 1]);
            } else if h > 0 {
                assert(hits[h] == later[h - 1]);
            }
        }
    }
}

/// The times of the hits that fall on `tube`, in the order of the hits.
pub open spec fn times_on(hits: Seq<Hit>, tube: int) -> Seq<int>
    decreases hits.len(),
{
    if hits.len() == 0 {
        Seq::empty()
    } else if hits[0].tube == tube {
        seq![hits[0].time] + times_on(hits.drop_first(), tube)
    } else {
        times_on(hits.drop_first(), tube)
    }
}

/// Merging loses no hit, adds none and keeps the hits of every tube in
/// their order: the hits that fall on a tube are its track.
pub proof fn lemma_merged_keeps_tracks(tracks: Seq<Seq<int>>, tube: int)
    requires
        0 <= tube < tracks.len(),
    ensures
        times_on(merged(tracks), tube) == tracks[tube],
    decreases total_hits(tracks),
{
    if total_hits(tracks) == 0 {
        lemma_total_hits_zero(tracks);
        assert(tracks[tube] =~= Seq::<int>::empty());
    } else {
        lemma_earliest_exists(tracks);
        let k = earliest(tracks);
        lemma_advance_total(tracks, k);
        let rest = advance(tracks, k);
        lemma_merged_keeps_tracks(rest, tube);
        assert(merged(tracks).drop_first() =~= merged(rest));
        if tube == k {
            assert(seq![tracks[k][0]] + tracks[k].drop_first() =~= tracks[k]);
        }
    }
}

} // verus!
