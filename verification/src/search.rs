//! The schedule of a piece and the search for a good assignment.

use vstd::prelude::*;

use crate::assignment::{
    after_random_swap, all_whackers, arrangement_score, hand_notes, is_arrangement,
    lemma_arrangement_facts, lemma_hand_of_arrangement, lemma_score_of_first_hands_fits,
    score_of_first_hands, HandAssignment,
};
use crate::layout::{hand_of, hand_start, lemma_hand_sizes, lemma_hands_tile};
use crate::music_xml::Timestamp;
use crate::note::Note;
use crate::presentation::{
    all_notes, by_pitch, hands_view, in_order, lemma_all_notes_by_hand, lemma_by_pitch_is_total,
    lemma_ordered_hands, lemma_same_items_mapped, order_hands, ordered_hands, sort_notes,
};
use crate::rng::SeededRng;
use crate::whacker_vec::{
    plain_items, whacker_vec_from, whacker_vec_get, whacker_vec_items, whacker_vec_len,
    WhackerVec,
};

verus! {

/// Immutable context for a search: every boomwhacker of the piece with the
/// times at which it is played, lowest note first.
#[derive(Debug)]
pub struct Context {
    pub whacks: WhackerVec,
}

/// Boomwhackers that are given by plain values, with their notes and with
/// their times as numbers of nanoseconds.
pub open spec fn piece_from_plain(items: Seq<(i8, Seq<u64>)>) -> Seq<(Note, Seq<int>)> {
    items.map_values(
        |item: (i8, Seq<u64>)|
            (Note { semis_above_c0: item.0 }, item.1.map_values(|nanos: u64| nanos as int)),
    )
}

/// Making plain values of boomwhackers loses nothing.
pub proof fn lemma_piece_from_plain(whacks: Seq<(Note, Vec<Timestamp>)>)
    ensures
        piece_from_plain(plain_items(whacks)) == piece_of(whacks),
{
    assert forall|k: int| 0 <= k < whacks.len() implies piece_from_plain(plain_items(whacks))[k]
        == piece_of(whacks)[k] by {
        assert(piece_from_plain(plain_items(whacks))[k].1 =~= piece_of(whacks)[k].1);
    }
    assert(piece_from_plain(plain_items(whacks)) =~= piece_of(whacks));
}

/// The times of one boomwhacker: at least one, none earlier than the one
/// before it.
pub open spec fn is_track(times: Seq<int>) -> bool {
    &&& times.len() > 0
    &&& forall|i: int, j: int| 0 <= i <= j < times.len() ==> times[i] <= times[j]
}

/// The times as numbers of nanoseconds.
pub open spec fn times_of(times: Seq<Timestamp>) -> Seq<int> {
    times.map_values(|t: Timestamp| t@)
}

/// The boomwhackers with their times as plain values.
pub open spec fn piece_of(whacks: Seq<(Note, Vec<Timestamp>)>) -> Seq<(Note, Seq<int>)> {
    whacks.map_values(|whacker: (Note, Vec<Timestamp>)| (whacker.0, times_of(whacker.1@)))
}

/// What can be made a [`Context`]: no note occurs twice, and every
/// boomwhacker has a track.
pub open spec fn is_piece(piece: Seq<(Note, Seq<int>)>) -> bool {
    &&& forall|i: int, j: int|
        0 <= i < j < piece.len() ==> (#[trigger] piece[i]).0 != (#[trigger] piece[j]).0
    &&& forall|k: int| 0 <= k < piece.len() ==> is_track((#[trigger] piece[k]).1)
}

impl View for Context {
    type V = Seq<(Note, Seq<int>)>;

    /// The piece: for every boomwhacker its note and the times at which it
    /// is played, in nanoseconds.
    open spec fn view(&self) -> Seq<(Note, Seq<int>)> {
        piece_from_plain(whacker_vec_items(self.whacks))
    }
}

impl Context {
    /// How many boomwhackers the piece needs.
    pub open spec fn num_whackers(&self) -> nat {
        self@.len()
    }

    /// The note of boomwhacker `k`.
    pub open spec fn note(&self, k: int) -> Note {
        self@[k].0
    }

    /// The times at which boomwhacker `k` is played, in nanoseconds.
    pub open spec fn track(&self, k: int) -> Seq<int> {
        self@[k].1
    }

    /// The notes rise strictly, so no note occurs twice, and every
    /// boomwhacker has a track.
    pub open spec fn wf(&self) -> bool {
        &&& forall|i: int, j: int|
            0 <= i < j < self.num_whackers() ==> (#[trigger] self.note(i))@ < (
            #[trigger] self.note(j))@
        &&& forall|k: int| 0 <= k < self.num_whackers() ==> is_track(#[trigger] self.track(k))
        &&& forall|k: int|
            0 <= k < self.num_whackers() ==> (#[trigger] self.track(k)).len() <= usize::MAX
    }

    /// The notes of the piece, lowest first.
    pub open spec fn notes(&self) -> Seq<Note> {
        Seq::new(self.num_whackers(), |k: int| self.note(k))
    }

    /// The tracks of the boomwhackers that one hand holds, in the order in
    /// which the hand lists them.
    pub open spec fn hand_tracks(&self, hand: Seq<usize>) -> Seq<Seq<int>> {
        Seq::new(hand.len(), |i: int| self.track(hand[i] as int))
    }

    /// A track is no longer than a vector can be.
    pub proof fn lemma_track_fits(&self, k: int)
        requires
            self.wf(),
            0 <= k < self.num_whackers(),
        ensures
            self.track(k).len() <= usize::MAX,
    {
    }

    /// The tracks of a hand are no longer than vectors can be.
    pub proof fn lemma_hand_tracks_fit(&self, hand: Seq<usize>)
        requires
            self.wf(),
            forall|i: int| 0 <= i < hand.len() ==> hand[i] < self.num_whackers(),
        ensures
            forall|i: int|
                0 <= i < hand.len() ==> (#[trigger] self.hand_tracks(hand)[i]).len() <= usize::MAX,
    {
        assert forall|i: int| 0 <= i < hand.len() implies (#[trigger] self.hand_tracks(
            hand,
        )[i]).len() <= usize::MAX by {
            self.lemma_track_fits(hand[i] as int);
        }
    }

    /// A piece has at most one boomwhacker for each note that fits the type.
    pub proof fn lemma_at_most_256(&self)
        requires
            self.wf(),
        ensures
            self.num_whackers() <= 256,
    {
        if self.num_whackers() > 0 {
            self.lemma_notes_rise((self.num_whackers() - 1) as int);
        }
    }

    proof fn lemma_notes_rise(&self, k: int)
        requires
            self.wf(),
            0 <= k < self.num_whackers(),
        ensures
            self.note(k)@ >= self.note(0)@ + k,
        decreases k,
    {
        if k > 0 {
            self.lemma_notes_rise(k - 1);
            assert(self.note(k - 1)@ < self.note(k)@);
        }
    }
}

/// How many swaps one climb tries.
pub const STEPS_PER_RESTART: usize = 1000;

/// How many climbs a search makes, each from a random assignment of its own.
pub const RESTARTS: usize = 100;

/// One step of a climb: a random swap is tried and kept if the score is
/// strictly better with it; else the row stays as it was.  The generator moves
/// on either way.
pub open spec fn climb_step(ctx: &Context, hands: nat, state: (Seq<usize>, SeededRng)) -> (
    Seq<usize>,
    SeededRng,
) {
    let (proposed, rng) = after_random_swap(state.0, state.1);
    if arrangement_score(ctx, proposed, hands) > arrangement_score(ctx, state.0, hands) {
        (proposed, rng)
    } else {
        (state.0, rng)
    }
}

/// Where a climb stands after `steps` steps from `start`.
pub open spec fn climbed(
    ctx: &Context,
    hands: nat,
    start: (Seq<usize>, SeededRng),
    steps: nat,
) -> (Seq<usize>, SeededRng)
    decreases steps,
{
    if steps == 0 {
        start
    } else {
        climb_step(ctx, hands, climbed(ctx, hands, start, (steps - 1) as nat))
    }
}

/// One restart: the boomwhackers are shuffled and the climb runs its full
/// number of steps from there.
pub open spec fn restart(ctx: &Context, hands: nat, rng: SeededRng) -> (Seq<usize>, SeededRng) {
    climbed(
        ctx,
        hands,
        rng.shuffled(all_whackers(ctx.num_whackers())),
        STEPS_PER_RESTART as nat,
    )
}

/// The best of the first `restarts` restarts: a later one replaces an earlier
/// one only with a strictly better score, so among equals the first stays.
pub open spec fn best_of_restarts(ctx: &Context, hands: nat, rng: SeededRng, restarts: nat) -> (
    Seq<usize>,
    SeededRng,
)
    decreases restarts,
{
    if restarts <= 1 {
        restart(ctx, hands, rng)
    } else {
        let (best, rng) = best_of_restarts(ctx, hands, rng, (restarts - 1) as nat);
        let (candidate, rng) = restart(ctx, hands, rng);
        if arrangement_score(ctx, candidate, hands) > arrangement_score(ctx, best, hands) {
            (candidate, rng)
        } else {
            (best, rng)
        }
    }
}

/// The row that a search with this seed ends with.
pub open spec fn searched_row(ctx: &Context, hands: nat, seed: u64) -> Seq<usize> {
    best_of_restarts(ctx, hands, SeededRng { seed, word_pos: 0 }, RESTARTS as nat).0
}

/// Within a climb the score never gets worse from one step to the next.
pub proof fn lemma_climb_never_worse(
    ctx: &Context,
    hands: nat,
    start: (Seq<usize>, SeededRng),
    steps: nat,
)
    ensures
        arrangement_score(ctx, climbed(ctx, hands, start, steps + 1).0, hands)
            >= arrangement_score(ctx, climbed(ctx, hands, start, steps).0, hands),
{
    assert(climbed(ctx, hands, start, steps + 1) == climb_step(
        ctx,
        hands,
        climbed(ctx, hands, start, steps),
    ));
}

/// A climb ends at least as well as it started.
pub proof fn lemma_climb_improves(
    ctx: &Context,
    hands: nat,
    start: (Seq<usize>, SeededRng),
    steps: nat,
)
    ensures
        arrangement_score(ctx, climbed(ctx, hands, start, steps).0, hands) >= arrangement_score(
            ctx,
            start.0,
            hands,
        ),
    decreases steps,
{
    if steps > 0 {
        lemma_climb_improves(ctx, hands, start, (steps - 1) as nat);
        lemma_climb_never_worse(ctx, hands, start, (steps - 1) as nat);
    }
}

/// Perform one run of stochastic gradient 'ascent' to generate one
/// pretty-well-optimised [`HandAssignment`]
pub fn gradient_ascent(num_hands: usize, ctx: &Context, rng: &mut SeededRng) -> (assignment:
    HandAssignment)
    requires
        num_hands > 0,
        ctx.wf(),
    ensures
        assignment.wf(ctx),
        assignment.num_hands() == num_hands,
        (assignment.row(), *final(rng)) == restart(ctx, num_hands as nat, *old(rng)),
        assignment.cached_score() >= arrangement_score(
            ctx,
            old(rng).shuffled(all_whackers(ctx.num_whackers())).0,
            num_hands as nat,
        ),
{
    let ghost start = old(rng).shuffled(all_whackers(ctx.num_whackers()));
    proof {
        lemma_climb_improves(ctx, num_hands as nat, start, STEPS_PER_RESTART as nat);
    }
    let mut assignment = HandAssignment::random(num_hands, ctx, rng);
    for step in 0..STEPS_PER_RESTART
        invariant
            num_hands > 0,
            ctx.wf(),
            assignment.wf(ctx),
            assignment.num_hands() == num_hands,
            (assignment.row(), *rng) == climbed(ctx, num_hands as nat, start, step as nat),
    {
        // Try to generate another assignment by swapping some values
        let mut next_assignment = assignment.clone();
        next_assignment.make_swap(ctx, rng);
        // If the new assignment is better, move to it
        if next_assignment.score() > assignment.score() {
            assignment = next_assignment;
        }
    }
    assignment
}

/// Run [`RESTARTS`] runs of [`gradient_ascent`], each starting from a random
/// assignment, and keep the best.
pub fn best_assignment(num_hands: usize, ctx: &Context, seed: u64) -> (best: HandAssignment)
    requires
        num_hands > 0,
        ctx.wf(),
    ensures
        best.wf(ctx),
        best.num_hands() == num_hands,
        best.row() == searched_row(ctx, num_hands as nat, seed),
{
    let mut rng = SeededRng::seed_from_u64(seed);
    let ghost first = rng;
    let mut best = gradient_ascent(num_hands, ctx, &mut rng);
    for done in 1..RESTARTS
        invariant
            num_hands > 0,
            ctx.wf(),
            best.wf(ctx),
            best.num_hands() == num_hands,
            (best.row(), rng) == best_of_restarts(ctx, num_hands as nat, first, done as nat),
    {
        let candidate = gradient_ascent(num_hands, ctx, &mut rng);
        if candidate.score() > best.score() {
            best = candidate;
        }
    }
    best
}

/// The hands as the search leaves them: hand after hand the notes of its
/// stretch of the row.
pub open spec fn dealt_hands(ctx: &Context, row: Seq<usize>, hands: nat) -> Seq<Seq<Note>> {
    Seq::new(hands, |h: int| hand_notes(ctx, hand_of(row, hands, h)))
}

/// The hands with the notes of each from the lowest up.
pub open spec fn sorted_hands(ctx: &Context, row: Seq<usize>, hands: nat) -> Seq<Seq<Note>> {
    Seq::new(hands, |h: int| hand_notes(ctx, hand_of(row, hands, h)).sort_by(by_pitch()))
}

/// The hands as they are shown: each from its lowest note up, and the hands
/// by their lowest notes, hands without a note first.
pub open spec fn shown_hands(ctx: &Context, row: Seq<usize>, hands: nat) -> Seq<Seq<Note>> {
    ordered_hands(sorted_hands(ctx, row, hands))
}

/// Every hand of `hands` lists its notes from the lowest up.
pub open spec fn each_sorted(hands: Seq<Seq<Note>>) -> bool {
    forall|h: int|
        0 <= h < hands.len() ==> vstd::relations::sorted_by(#[trigger] hands[h], by_pitch())
}

/// The first hands hold the notes of the row up to where the next hand
/// starts.
proof fn lemma_first_hands_notes(ctx: &Context, row: Seq<usize>, hands: nat, upto: nat)
    requires
        hands > 0,
        upto <= hands,
    ensures
        all_notes(dealt_hands(ctx, row, hands).take(upto as int)) == hand_notes(
            ctx,
            row.take(hand_start(row.len(), hands, upto as int) as int),
        ).to_multiset(),
    decreases upto,
{
    let dealt = dealt_hands(ctx, row, hands);
    if upto == 0 {
        assert(hand_notes(ctx, row.take(0)) =~= Seq::<Note>::empty());
        assert(dealt.take(0) =~= Seq::<Seq<Note>>::empty());
        assert(Seq::<Note>::empty().to_multiset() =~= vstd::multiset::Multiset::empty()) by {
            broadcast use vstd::seq_lib::group_to_multiset_ensures;

        }
    } else {
        lemma_first_hands_notes(ctx, row, hands, (upto - 1) as nat);
        lemma_hands_tile(row.len(), hands, upto - 1);
        let start = hand_start(row.len(), hands, upto - 1) as int;
        let end = hand_start(row.len(), hands, upto as int) as int;
        assert(dealt.take(upto as int).drop_last() =~= dealt.take(upto - 1));
        assert(dealt.take(upto as int).last() == hand_notes(ctx, hand_of(row, hands, upto - 1)));
        assert(row.take(end) =~= row.take(start) + hand_of(row, hands, upto - 1));
        assert(hand_notes(ctx, row.take(end)) =~= hand_notes(ctx, row.take(start)) + hand_notes(
            ctx,
            hand_of(row, hands, upto - 1),
        ));
        vstd::seq_lib::lemma_multiset_commutative(
            hand_notes(ctx, row.take(start)),
            hand_notes(ctx, hand_of(row, hands, upto - 1)),
        );
        assert(all_notes(dealt.take(upto as int)) == all_notes(dealt.take(upto - 1)).add(
            hand_notes(ctx, hand_of(row, hands, upto - 1)).to_multiset(),
        ));
    }
}

/// Every boomwhacker of the piece is in exactly one hand, exactly once: the
/// notes of all hands together are the notes of the piece, none twice and
/// none left out, however the hands are shown.
pub proof fn lemma_hands_hold_the_piece(ctx: &Context, row: Seq<usize>, hands: nat)
    requires
        ctx.num_whackers() <= usize::MAX,
        is_arrangement(row, ctx.num_whackers()),
        hands > 0,
    ensures
        all_notes(dealt_hands(ctx, row, hands)) == ctx.notes().to_multiset(),
        all_notes(sorted_hands(ctx, row, hands)) == ctx.notes().to_multiset(),
        all_notes(shown_hands(ctx, row, hands)) == ctx.notes().to_multiset(),
        shown_hands(ctx, row, hands).len() == hands,
        in_order(shown_hands(ctx, row, hands)),
        each_sorted(shown_hands(ctx, row, hands)),
{
    let n = ctx.num_whackers();
    let dealt = dealt_hands(ctx, row, hands);
    let sorted = sorted_hands(ctx, row, hands);
    let shown = shown_hands(ctx, row, hands);
    lemma_arrangement_facts(row, n);
    lemma_first_hands_notes(ctx, row, hands, hands);
    lemma_hands_tile(n, hands, hands - 1);
    assert(dealt.take(hands as int) =~= dealt);
    assert(row.take(n as int) =~= row);
    lemma_same_items_mapped(row, all_whackers(n), |k: usize| ctx.note(k as int));
    assert(hand_notes(ctx, all_whackers(n)) =~= ctx.notes());
    lemma_by_pitch_is_total();
    assert forall|h: int| 0 <= h < dealt.len() implies (#[trigger] dealt[h]).to_multiset()
        == sorted[h].to_multiset() by {
        dealt[h].lemma_sort_by_ensures(by_pitch());
    }
    lemma_all_notes_by_hand(dealt, sorted);
    lemma_ordered_hands(sorted);
    assert forall|h: int| 0 <= h < shown.len() implies vstd::relations::sorted_by(
        #[trigger] shown[h],
        by_pitch(),
    ) by {
        vstd::seq_lib::to_multiset_contains(shown, shown[h]);
        vstd::seq_lib::to_multiset_contains(sorted, shown[h]);
        assert(shown.contains(shown[h]));
        let k = choose|k: int| 0 <= k < sorted.len() && sorted[k] == shown[h];
        hand_notes(ctx, hand_of(row, hands, k)).lemma_sort_by_ensures(by_pitch());
    }
}

/// The hands share the boomwhackers as evenly as possible: every hand holds
/// the whole part of boomwhackers per hand, or one more.
pub open spec fn evenly_shared(hands: Seq<Seq<Note>>, whackers: nat) -> bool {
    forall|h: int|
        0 <= h < hands.len() ==> whackers / hands.len() <= (#[trigger] hands[h]).len() <= whackers
            / hands.len() + 1
}

/// However the hands are shown, they share the boomwhackers as evenly as
/// possible.
pub proof fn lemma_hands_share_evenly(ctx: &Context, row: Seq<usize>, hands: nat)
    requires
        ctx.num_whackers() <= usize::MAX,
        is_arrangement(row, ctx.num_whackers()),
        hands > 0,
    ensures
        evenly_shared(shown_hands(ctx, row, hands), ctx.num_whackers()),
{
    let n = ctx.num_whackers();
    let sorted = sorted_hands(ctx, row, hands);
    let shown = shown_hands(ctx, row, hands);
    lemma_ordered_hands(sorted);
    lemma_by_pitch_is_total();
    assert forall|h: int| 0 <= h < shown.len() implies n / shown.len() <= (#[trigger] shown[h]).len()
        <= n / shown.len() + 1 by {
        vstd::seq_lib::to_multiset_contains(shown, shown[h]);
        vstd::seq_lib::to_multiset_contains(sorted, shown[h]);
        assert(shown.contains(shown[h]));
        let k = choose|k: int| 0 <= k < sorted.len() && sorted[k] == shown[h];
        let dealt = hand_notes(ctx, hand_of(row, hands, k));
        dealt.lemma_sort_by_ensures(by_pitch());
        vstd::seq_lib::to_multiset_len(dealt);
        vstd::seq_lib::to_multiset_len(sorted[k]);
        lemma_hand_of_arrangement(row, n, hands, k);
        lemma_hand_sizes(n, hands, k);
    }
}

/// The hands of an assignment as they are shown.
pub fn present(assignment: &HandAssignment, ctx: &Context) -> (hands: Vec<Vec<Note>>)
    requires
        ctx.wf(),
        assignment.wf(ctx),
    ensures
        hands_view(hands@) == shown_hands(ctx, assignment.row(), assignment.num_hands()),
{
    let dealt = assignment.whackers(ctx);
    let ghost row = assignment.row();
    let ghost num_hands = assignment.num_hands();
    let mut sorted: Vec<Vec<Note>> = Vec::new();
    for h in 0..dealt.len()
        invariant
            dealt@.len() == num_hands,
            forall|g: int|
                0 <= g < dealt@.len() ==> (#[trigger] dealt@[g])@ == hand_notes(
                    ctx,
                    hand_of(row, num_hands, g),
                ),
            sorted@.len() == h,
            forall|g: int|
                0 <= g < h ==> (#[trigger] sorted@[g])@ == hand_notes(
                    ctx,
                    hand_of(row, num_hands, g),
                ).sort_by(by_pitch()),
    {
        let mut hand = dealt[h].clone();
        assert(hand@ =~= dealt@[h as int]@);
        sort_notes(&mut hand);
        sorted.push(hand);
    }
    assert(hands_view(sorted@) =~= sorted_hands(ctx, row, num_hands));
    order_hands(sorted)
}

/// What a search found.
#[derive(Debug)]
pub struct SearchResult {
    /// The notes of each hand from the lowest up, the hands by their lowest
    /// notes.
    pub hand_assignment: Vec<Vec<Note>>,
    /// The score of the assignment that the search ended with.
    pub best_score: i128,
}

impl SearchResult {
    /// The hands as sequences of notes.
    pub open spec fn hands(&self) -> Seq<Seq<Note>> {
        hands_view(self.hand_assignment@)
    }
}

/// The hands and the score that the search for `hands` hands with this seed
/// returns.
pub open spec fn search_outcome(ctx: &Context, hands: nat, seed: u64) -> (Seq<Seq<Note>>, int) {
    let row = searched_row(ctx, hands, seed);
    (shown_hands(ctx, row, hands), arrangement_score(ctx, row, hands))
}

/// Search for an assignment of the boomwhackers of the piece to `num_hands`
/// hands, with all random choices drawn from the generator for `seed`.
pub fn search_with_seed(num_hands: usize, ctx: &Context, seed: u64) -> (result: SearchResult)
    requires
        num_hands > 0,
        ctx.wf(),
    ensures
        (result.hands(), result.best_score as int) == search_outcome(ctx, num_hands as nat, seed),
        result.hands().len() == num_hands,
        all_notes(result.hands()) == ctx.notes().to_multiset(),
        evenly_shared(result.hands(), ctx.num_whackers()),
        each_sorted(result.hands()),
        in_order(result.hands()),
        result.best_score <= 0,
{
    let best = best_assignment(num_hands, ctx, seed);
    proof {
        ctx.lemma_at_most_256();
        lemma_hands_hold_the_piece(ctx, best.row(), num_hands as nat);
        lemma_hands_share_evenly(ctx, best.row(), num_hands as nat);
        lemma_score_of_first_hands_fits(ctx, best.row(), num_hands as nat, num_hands as nat);
    }
    // Extract the whacker assignment and sort everything
    let hand_assignment = present(&best, ctx);
    SearchResult { hand_assignment, best_score: best.score() }
}

/// Search for an assignment of the boomwhackers of the piece to `num_hands`
/// hands, with the seed 0.
pub fn search(num_hands: usize, ctx: &Context) -> (result: SearchResult)
    requires
        num_hands > 0,
        ctx.wf(),
    ensures
        (result.hands(), result.best_score as int) == search_outcome(ctx, num_hands as nat, 0),
        result.hands().len() == num_hands,
        all_notes(result.hands()) == ctx.notes().to_multiset(),
        evenly_shared(result.hands(), ctx.num_whackers()),
        each_sorted(result.hands()),
        in_order(result.hands()),
        result.best_score <= 0,
{
    search_with_seed(num_hands, ctx, 0)
}

/// The score of an arrangement depends on the piece alone, not on the value
/// that holds it.
pub proof fn lemma_same_piece_same_score(
    a: &Context,
    b: &Context,
    row: Seq<usize>,
    hands: nat,
    upto: nat,
)
    requires
        a@ == b@,
    ensures
        score_of_first_hands(a, row, hands, upto) == score_of_first_hands(b, row, hands, upto),
    decreases upto,
{
    if upto > 0 {
        lemma_same_piece_same_score(a, b, row, hands, (upto - 1) as nat);
        let hand = hand_of(row, hands, upto - 1);
        assert(a.hand_tracks(hand) =~= b.hand_tracks(hand));
    }
}

/// A climb depends on the piece alone.
pub proof fn lemma_same_piece_same_climb(
    a: &Context,
    b: &Context,
    hands: nat,
    start: (Seq<usize>, SeededRng),
    steps: nat,
)
    requires
        a@ == b@,
    ensures
        climbed(a, hands, start, steps) == climbed(b, hands, start, steps),
    decreases steps,
{
    if steps > 0 {
        lemma_same_piece_same_climb(a, b, hands, start, (steps - 1) as nat);
        let before = climbed(a, hands, start, (steps - 1) as nat);
        let proposed = after_random_swap(before.0, before.1).0;
        lemma_same_piece_same_score(a, b, before.0, hands, hands);
        lemma_same_piece_same_score(a, b, proposed, hands, hands);
    }
}

/// The best of some restarts depends on the piece alone.
pub proof fn lemma_same_piece_same_best(
    a: &Context,
    b: &Context,
    hands: nat,
    rng: SeededRng,
    restarts: nat,
)
    requires
        a@ == b@,
    ensures
        best_of_restarts(a, hands, rng, restarts) == best_of_restarts(b, hands, rng, restarts),
    decreases restarts,
{
    if restarts <= 1 {
        lemma_same_piece_same_climb(
            a,
            b,
            hands,
            rng.shuffled(all_whackers(a.num_whackers())),
            STEPS_PER_RESTART as nat,
        );
    } else {
        lemma_same_piece_same_best(a, b, hands, rng, (restarts - 1) as nat);
        let (best, rng) = best_of_restarts(a, hands, rng, (restarts - 1) as nat);
        lemma_same_piece_same_climb(
            a,
            b,
            hands,
            rng.shuffled(all_whackers(a.num_whackers())),
            STEPS_PER_RESTART as nat,
        );
        let (candidate, rng) = restart(a, hands, rng);
        lemma_same_piece_same_score(a, b, candidate, hands, hands);
        lemma_same_piece_same_score(a, b, best, hands, hands);
    }
}

/// A search is a function of the piece, the number of hands and the seed:
/// two searches with the same three return the same hands and the same score.
pub proof fn lemma_search_is_determined(a: &Context, b: &Context, hands: nat, seed: u64)
    requires
        a@ == b@,
    ensures
        search_outcome(a, hands, seed) == search_outcome(b, hands, seed),
{
    lemma_same_piece_same_best(a, b, hands, SeededRng { seed, word_pos: 0 }, RESTARTS as nat);
    let row = searched_row(a, hands, seed);
    lemma_same_piece_same_score(a, b, row, hands, hands);
    assert(sorted_hands(a, row, hands) =~= sorted_hands(b, row, hands)) by {
        assert forall|h: int| 0 <= h < hands implies sorted_hands(a, row, hands)[h]
            == sorted_hands(b, row, hands)[h] by {
            assert(hand_notes(a, hand_of(row, hands, h)) =~= hand_notes(
                b,
                hand_of(row, hands, h),
            ));
        }
    }
}

/// Whether the times are those of a boomwhacker: at least one, none earlier
/// than the one before it.
pub fn check_track(times: &Vec<Timestamp>) -> (ok: bool)
    ensures
        ok == is_track(times_of(times@)),
{
    if times.len() == 0 {
        return false;
    }
    let ghost track = times_of(times@);
    for at in 1..times.len()
        invariant
            track == times_of(times@),
            times@.len() > 0,
            forall|i: int, j: int| 0 <= i <= j < at ==> track[i] <= track[j],
    {
        if times[at - 1].nanos > times[at].nanos {
            assert(track[at - 1] > track[at as int]);
            return false;
        }
        assert forall|i: int, j: int| 0 <= i <= j < at + 1 implies track[i] <= track[j] by {
            if j == at && i < at {
                assert(track[i] <= track[at - 1]);
            }
        }
    }
    true
}

impl Context {
    /// The context for a piece, given its boomwhackers in any order, each
    /// with its note and the times at which it is played.  There is none if a
    /// note occurs twice or a boomwhacker has no track.
    pub fn new(whacks: Vec<(Note, Vec<Timestamp>)>) -> (made: Option<Context>)
        ensures
            made is Some <==> is_piece(piece_of(whacks@)),
            made matches Some(ctx) ==> ctx.wf() && ctx@.to_multiset() == piece_of(
                whacks@,
            ).to_multiset(),
    {
        let ghost piece = piece_of(whacks@);
        let mut rest = whacks;
        let mut sorted: Vec<(Note, Vec<Timestamp>)> = Vec::new();
        proof {
            assert(piece.skip(piece.len() as int) =~= Seq::empty());
            assert(piece_of(sorted@) =~= Seq::empty());
        }
        while rest.len() > 0
            invariant
                piece == piece_of(whacks@),
                rest@.len() <= piece.len(),
                piece_of(rest@) == piece.take(rest@.len() as int),
                piece_of(sorted@).to_multiset() == piece.skip(rest@.len() as int).to_multiset(),
                forall|i: int, j: int|
                    0 <= i < j < sorted@.len() ==> (#[trigger] sorted@[i]).0@ < (
                    #[trigger] sorted@[j]).0@,
                forall|k: int|
                    0 <= k < sorted@.len() ==> is_track(times_of((#[trigger] sorted@[k]).1@)),
                forall|i: int, j: int|
                    rest@.len() <= i < j < piece.len() ==> (#[trigger] piece[i]).0 != (
                    #[trigger] piece[j]).0,
                forall|k: int| rest@.len() <= k < piece.len() ==> is_track((#[trigger] piece[k]).1),
            decreases rest@.len(),
        {
            let ghost left = (rest@.len() - 1) as int;
            let ghost before = piece_of(sorted@);
            let ghost rest_before = rest@;
            let entry = match rest.pop() {
                Some(entry) => entry,
                None => { return None; },
            };
            let ghost mine = (entry.0, times_of(entry.1@));
            proof {
                assert(piece_of(rest_before)[left] == mine);
                assert(piece[left] == mine);
                assert(piece_of(rest@) =~= piece.take(left));
            }
            if !check_track(&entry.1) {
                assert(!is_track(piece[left].1));
                return None;
            }
            let mut at: usize = 0;
            while at < sorted.len() && sorted[at].0.semis_above_c0 < entry.0.semis_above_c0
                invariant
                    at <= sorted@.len(),
                    forall|k: int| 0 <= k < at ==> (#[trigger] sorted@[k]).0@ < entry.0@,
                decreases sorted@.len() - at,
            {
                at += 1;
            }
            if at < sorted.len() && sorted[at].0.semis_above_c0 == entry.0.semis_above_c0 {
                proof {
                    let twin = before[at as int];
                    assert(twin.0 == mine.0);
                    assert(before.contains(twin));
                    vstd::seq_lib::to_multiset_contains(before, twin);
                    let tail = piece.skip(left + 1);
                    vstd::seq_lib::to_multiset_contains(tail, twin);
                    assert(tail.contains(twin));
                    let j = choose|j: int| 0 <= j < tail.len() && tail[j] == twin;
                    assert(piece[left + 1 + j] == twin);
                    assert(piece[left].0 == piece[left + 1 + j].0);
                }
                return None;
            }
            proof {
                assert forall|j: int| left < j < piece.len() implies piece[left].0 != (
                #[trigger] piece[j]).0 by {
                    let other = piece[j];
                    let tail = piece.skip(left + 1);
                    assert(tail[j - left - 1] == other);
                    assert(tail.contains(other));
                    vstd::seq_lib::to_multiset_contains(tail, other);
                    vstd::seq_lib::to_multiset_contains(before, other);
                    assert(before.contains(other));
                    let k = choose|k: int| 0 <= k < before.len() && before[k] == other;
                    assert(sorted@[k].0 == other.0);
                    if k < at {
                        assert(sorted@[k].0@ < entry.0@);
                    } else {
                        assert(sorted@[at as int].0@ <= sorted@[k].0@);
                    }
                }
                vstd::seq_lib::to_multiset_insert(before, at as int, mine);
                assert(piece.skip(left) =~= seq![mine] + piece.skip(left + 1));
                vstd::seq_lib::lemma_multiset_commutative(seq![mine], piece.skip(left + 1));
                assert(seq![mine].to_multiset() =~= vstd::multiset::Multiset::singleton(mine)) by {
                    broadcast use vstd::seq_lib::group_to_multiset_ensures;

                    assert(seq![mine] =~= Seq::empty().push(mine));
                }
                assert(piece.skip(left).to_multiset() =~= piece.skip(left + 1).to_multiset().insert(
                    mine,
                ));
                assert(piece_of(sorted@.insert(at as int, entry)) =~= before.insert(
                    at as int,
                    mine,
                ));
            }
            let ghost unsorted = sorted@;
            sorted.insert(at, entry);
            proof {
                assert forall|i: int, j: int| 0 <= i < j < sorted@.len() implies (
                #[trigger] sorted@[i]).0@ < (#[trigger] sorted@[j]).0@ by {
                    let a = if i < at { i } else { i - 1 };
                    let b = if j < at { j } else { j - 1 };
                    if i != at && j != at {
                        assert(unsorted[a].0@ < unsorted[b].0@);
                    } else if i == at {
                        assert(unsorted[at as int].0@ <= unsorted[b].0@);
                    } else {
                        assert(unsorted[a].0@ < entry.0@);
                    }
                }
                assert forall|k: int| 0 <= k < sorted@.len() implies is_track(
                    times_of((#[trigger] sorted@[k]).1@),
                ) by {
                    if k < at {
                        assert(sorted@[k] == unsorted[k]);
                    } else if k > at {
                        assert(sorted@[k] == unsorted[k - 1]);
                    }
                }
            }
        }
        proof {
            assert(piece.skip(0) =~= piece);
        }
        proof {
            lemma_piece_from_plain(sorted@);
            assert forall|k: int| 0 <= k < sorted@.len() implies (#[trigger] piece_of(
                sorted@,
            )[k]).1.len() <= usize::MAX by {
                let length: usize = sorted@[k].1.len();
                assert(piece_of(sorted@)[k].1.len() == length);
            }
        }
        let ghost sorted_piece = piece_of(sorted@);
        let ctx = Context { whacks: whacker_vec_from(sorted) };
        proof {
            assert(ctx@ == sorted_piece);
        }
        Some(ctx)
    }

    /// How many boomwhackers the piece needs.
    pub fn len(&self) -> (count: usize)
        ensures
            count == self.num_whackers(),
    {
        whacker_vec_len(&self.whacks)
    }

    /// The note of the boomwhacker with this number.
    pub fn note_of(&self, number: usize) -> (note: Note)
        requires
            self.wf(),
            number < self.num_whackers(),
        ensures
            note == self.note(number as int),
    {
        proof {
            self.lemma_at_most_256();
        }
        whacker_vec_get(&self.whacks, number).0
    }

    /// The times at which the boomwhacker with this number is played.
    pub fn times(&self, number: usize) -> (times: &Vec<Timestamp>)
        requires
            self.wf(),
            number < self.num_whackers(),
        ensures
            times_of(times@) == self.track(number as int),
    {
        proof {
            self.lemma_at_most_256();
        }
        let times = &whacker_vec_get(&self.whacks, number).1;
        assert(times_of(times@) =~= self.track(number as int));
        times
    }
}

} // verus!
