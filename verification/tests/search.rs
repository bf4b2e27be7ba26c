use boomwhackers::assign::Assignment;
use boomwhackers::assignment::HandAssignment;
use boomwhackers::music_xml::Timestamp;
use boomwhackers::note::Note;
use boomwhackers::presentation::{order_hands, precedes, sort_notes};
use boomwhackers::rng::SeededRng;
use boomwhackers::scoring::POINT;
use boomwhackers::search::{
    best_assignment, check_track, gradient_ascent, present, search, search_with_seed, Context,
    RESTARTS, STEPS_PER_RESTART,
};

const MS: u64 = 1_000_000;
const SEC: u64 = 1_000_000_000;

fn note(semis: i8) -> Note {
    Note { semis_above_c0: semis }
}

fn times(nanos: &[u64]) -> Vec<Timestamp> {
    nanos.iter().map(|n| Timestamp::from_nanos(*n)).collect()
}

fn piece(tracks: &[(i8, &[u64])]) -> Context {
    Context::new(tracks.iter().map(|(semis, track)| (note(*semis), times(track))).collect())
        .expect("the piece is well formed")
}

/// Eight boomwhackers; the lower four are hit together in quick runs, the
/// upper four likewise, a long time apart.
fn two_runs() -> Context {
    piece(&[
        (60, &[0, 40 * MS, 200 * SEC]),
        (62, &[10 * MS, 50 * MS]),
        (64, &[20 * MS, 60 * MS]),
        (65, &[30 * MS, 70 * MS]),
        (67, &[100 * SEC, 100 * SEC + 40 * MS]),
        (69, &[100 * SEC + 10 * MS, 100 * SEC + 50 * MS]),
        (71, &[100 * SEC + 20 * MS, 100 * SEC + 60 * MS]),
        (72, &[100 * SEC + 30 * MS, 100 * SEC + 70 * MS]),
    ])
}

fn all_sorted(hands: &[Vec<Note>]) -> Vec<Note> {
    let mut all: Vec<Note> = hands.iter().flatten().copied().collect();
    all.sort();
    all
}

#[test]
fn search_runs_a_hundred_climbs_of_a_thousand_steps() {
    assert_eq!(RESTARTS, 100);
    assert_eq!(STEPS_PER_RESTART, 1000);
}

#[test]
fn context_lists_the_boomwhackers_by_note() {
    let ctx = Context::new(vec![
        (note(7), times(&[3])),
        (note(-2), times(&[1, 1, 2])),
        (note(4), times(&[0])),
    ])
    .unwrap();
    assert_eq!(ctx.len(), 3);
    let notes: Vec<Note> = (0..3).map(|number| ctx.note_of(number)).collect();
    assert_eq!(notes, [note(-2), note(4), note(7)]);
    assert_eq!(*ctx.times(0), times(&[1, 1, 2]));
    assert_eq!(*ctx.times(1), times(&[0]));
    assert_eq!(*ctx.times(2), times(&[3]));
}

#[test]
fn context_holds_a_boomwhacker_for_every_note_there_is() {
    let whacks = (i8::MIN..=i8::MAX)
        .rev()
        .map(|semis| (note(semis), times(&[semis as u8 as u64])))
        .collect();
    let ctx = Context::new(whacks).unwrap();
    assert_eq!(ctx.len(), 256);
    for number in 0..256 {
        let semis = (number as i16 - 128) as i8;
        assert_eq!(ctx.note_of(number), note(semis));
        assert_eq!(*ctx.times(number), times(&[semis as u8 as u64]));
    }
}

#[test]
fn context_of_nothing_is_empty() {
    let ctx = Context::new(vec![]).unwrap();
    assert_eq!(ctx.len(), 0);
}

#[test]
fn context_needs_distinct_notes() {
    assert!(Context::new(vec![(note(1), times(&[0])), (note(1), times(&[5]))]).is_none());
    assert!(Context::new(vec![
        (note(1), times(&[0])),
        (note(2), times(&[5])),
        (note(3), times(&[5])),
        (note(2), times(&[9])),
    ])
    .is_none());
}

#[test]
fn context_needs_a_track_for_every_boomwhacker() {
    assert!(Context::new(vec![(note(1), times(&[]))]).is_none());
    assert!(Context::new(vec![(note(1), times(&[0])), (note(2), times(&[]))]).is_none());
    assert!(Context::new(vec![(note(1), times(&[2, 1]))]).is_none());
    assert!(Context::new(vec![(note(1), times(&[0, 5, 4, 9])), (note(2), times(&[1]))]).is_none());
}

#[test]
fn tracks_are_checked() {
    assert!(check_track(&times(&[0])));
    assert!(check_track(&times(&[0, 0, 1, 7, 7])));
    assert!(!check_track(&times(&[])));
    assert!(!check_track(&times(&[1, 0])));
    assert!(!check_track(&times(&[0, 3, 2])));
}

#[test]
fn notes_of_a_hand_are_sorted() {
    let mut hand = vec![note(5), note(-3), note(9), note(0), note(5), note(-128), note(127)];
    sort_notes(&mut hand);
    assert_eq!(hand, [note(-128), note(-3), note(0), note(5), note(5), note(9), note(127)]);
    let mut hand: Vec<Note> = vec![];
    sort_notes(&mut hand);
    assert_eq!(hand, []);
    let mut hand = vec![note(1)];
    sort_notes(&mut hand);
    assert_eq!(hand, [note(1)]);
}

#[test]
fn hands_are_ordered_by_their_first_note() {
    let hands = vec![
        vec![note(7), note(9)],
        vec![],
        vec![note(2), note(30)],
        vec![note(5)],
        vec![],
        vec![note(2), note(3)],
    ];
    assert_eq!(
        order_hands(hands),
        [
            vec![],
            vec![],
            vec![note(2), note(30)],
            vec![note(2), note(3)],
            vec![note(5)],
            vec![note(7), note(9)],
        ]
    );
    assert_eq!(order_hands(vec![]), Vec::<Vec<Note>>::new());
}

#[test]
fn empty_hands_precede_all_others() {
    assert!(precedes(&vec![], &vec![]));
    assert!(precedes(&vec![], &vec![note(1)]));
    assert!(!precedes(&vec![note(1)], &vec![]));
    assert!(precedes(&vec![note(1), note(9)], &vec![note(1)]));
    assert!(precedes(&vec![note(1)], &vec![note(2)]));
    assert!(!precedes(&vec![note(3)], &vec![note(2), note(8)]));
}

#[test]
fn presentation_sorts_hands_and_notes() {
    let ctx = piece(&[(10, &[0]), (20, &[1]), (30, &[2]), (40, &[3]), (50, &[4])]);
    let dealt = HandAssignment::from_order(3, &ctx, vec![4, 2, 3, 0, 1]);
    assert_eq!(
        present(&dealt, &ctx),
        [vec![note(10), note(40)], vec![note(20)], vec![note(30), note(50)]]
    );
    assert_eq!(
        dealt.whackers(&ctx),
        [vec![note(50), note(30)], vec![note(40), note(10)], vec![note(20)]]
    );
}

#[test]
fn climb_ends_at_least_as_well_as_it_started() {
    let ctx = two_runs();
    for seed in 0..5 {
        let mut rng = SeededRng::seed_from_u64(seed);
        let start = HandAssignment::random(4, &ctx, &mut rng.clone());
        let end = gradient_ascent(4, &ctx, &mut rng);
        assert!(end.score() >= start.score());
        assert!(end.score() <= 0);
    }
}

#[test]
fn climb_is_a_thousand_steps_that_keep_only_better_swaps() {
    let ctx = two_runs();
    let mut rng = SeededRng::seed_from_u64(7);
    let mut by_hand_rng = rng;
    let climbed = gradient_ascent(4, &ctx, &mut rng);
    let mut current = HandAssignment::random(4, &ctx, &mut by_hand_rng);
    let mut last = current.score();
    for _ in 0..1000 {
        let mut proposed = current.clone();
        proposed.make_swap(&ctx, &mut by_hand_rng);
        if proposed.score() > current.score() {
            current = proposed;
        }
        // the score never gets worse from one step to the next
        assert!(current.score() >= last);
        last = current.score();
    }
    assert_eq!(rng, by_hand_rng);
    assert_eq!(climbed.whackers(&ctx), current.whackers(&ctx));
    assert_eq!(climbed.score(), current.score());
}

#[test]
fn best_assignment_is_the_first_best_of_a_hundred_climbs() {
    let ctx = two_runs();
    let best = best_assignment(4, &ctx, 3);
    let mut rng = SeededRng::seed_from_u64(3);
    let mut expected = gradient_ascent(4, &ctx, &mut rng);
    for _ in 1..100 {
        let candidate = gradient_ascent(4, &ctx, &mut rng);
        if candidate.score() > expected.score() {
            expected = candidate;
        }
    }
    assert_eq!(best.whackers(&ctx), expected.whackers(&ctx));
    assert_eq!(best.score(), expected.score());
}

#[test]
fn search_separates_the_two_runs() {
    let ctx = two_runs();
    let found = search(4, &ctx);
    // No hand can do better than to hold one tube of each run and to avoid
    // the tube of the second run that comes right before the late hit of
    // the lowest tube
    assert!(found.best_score > -4 * POINT);
    assert_eq!(found.hand_assignment.len(), 4);
    for hand in &found.hand_assignment {
        assert_eq!(hand.len(), 2);
        assert!(hand[0] < note(67));
        assert!(hand[1] >= note(67));
    }
}

#[test]
fn search_result_is_shown_in_order() {
    let ctx = two_runs();
    let found = search_with_seed(6, &ctx, 11);
    assert_eq!(found.hand_assignment.len(), 6);
    for hand in &found.hand_assignment {
        assert!(hand.windows(2).all(|pair| pair[0] < pair[1]));
    }
    assert!(found
        .hand_assignment
        .windows(2)
        .all(|pair| precedes(&pair[0], &pair[1])));
    assert!(found.best_score <= 0);
}

fn holds_every_boomwhacker_once(hands: usize) {
    let ctx = two_runs();
    let everything: Vec<Note> = [60, 62, 64, 65, 67, 69, 71, 72].map(note).to_vec();
    let found = search_with_seed(hands, &ctx, 5);
    assert_eq!(found.hand_assignment.len(), hands);
    assert_eq!(all_sorted(&found.hand_assignment), everything);
}

#[test]
fn search_result_holds_every_boomwhacker_once() {
    holds_every_boomwhacker_once(3);
}

#[test]
fn search_result_holds_every_boomwhacker_once_in_one_hand() {
    holds_every_boomwhacker_once(1);
}

#[test]
fn search_result_holds_every_boomwhacker_once_in_many_hands() {
    holds_every_boomwhacker_once(11);
}

#[test]
fn search_is_determined_by_piece_hands_and_seed() {
    let first = search_with_seed(4, &two_runs(), 21);
    let second = search_with_seed(4, &two_runs(), 21);
    assert_eq!(first.hand_assignment, second.hand_assignment);
    assert_eq!(first.best_score, second.best_score);
}

#[test]
fn search_without_seed_is_the_search_with_seed_zero() {
    let plain = search(4, &two_runs());
    let seeded = search_with_seed(4, &two_runs(), 0);
    assert_eq!(plain.hand_assignment, seeded.hand_assignment);
    assert_eq!(plain.best_score, seeded.best_score);
}

#[test]
fn search_result_is_what_the_best_assignment_shows() {
    let ctx = two_runs();
    let found = search_with_seed(4, &ctx, 8);
    let best = best_assignment(4, &ctx, 8);
    assert_eq!(found.hand_assignment, present(&best, &ctx));
    assert_eq!(found.best_score, best.score());
}

#[test]
fn four_boomwhackers_for_one_player() {
    // Four boomwhackers, each hit once, ten seconds apart.  The two hands
    // hold two each; the best is to give each hand tubes twenty seconds apart.
    let ctx = piece(&[(60, &[0]), (62, &[10 * SEC]), (64, &[20 * SEC]), (65, &[30 * SEC])]);
    let found = search(2, &ctx);
    assert_eq!(found.best_score, -(POINT / 20) * 2);
    assert_eq!(
        found.hand_assignment,
        [vec![note(60), note(64)], vec![note(62), note(65)]]
    );
}

#[test]
fn four_boomwhackers_as_an_assignment_of_one_player() {
    let ctx = piece(&[(60, &[0]), (62, &[10 * SEC]), (64, &[20 * SEC]), (65, &[30 * SEC])]);
    let assignment = Assignment::new(&ctx, 1, 0);
    assert_eq!(assignment.score, -100_000_000);
    assert_eq!(
        assignment.players,
        [(vec![note(60), note(64)], vec![note(62), note(65)])]
    );
}

#[test]
fn hits_far_apart_cost_nothing() {
    // Hits so far apart that a swap costs less than the smallest unit
    let far = 4_000_000_000_000_000_000u64;
    let ctx = piece(&[(60, &[0]), (62, &[far]), (64, &[2 * far]), (65, &[3 * far])]);
    let found = search(2, &ctx);
    assert_eq!(found.best_score, 0);
    assert_eq!(found.hand_assignment.len(), 2);
}

#[test]
fn search_of_an_empty_piece_gives_empty_hands() {
    let ctx = Context::new(vec![]).unwrap();
    let found = search(4, &ctx);
    assert_eq!(found.best_score, 0);
    assert_eq!(found.hand_assignment, vec![Vec::<Note>::new(); 4]);
    let assignment = Assignment::new(&ctx, 3, 9);
    assert_eq!(assignment.score, 0);
    assert_eq!(assignment.players, vec![(vec![], vec![]); 3]);
}

#[test]
fn search_with_fewer_boomwhackers_than_hands() {
    let ctx = piece(&[(60, &[0, SEC]), (62, &[SEC / 2])]);
    let found = search(4, &ctx);
    assert_eq!(found.best_score, 0);
    assert_eq!(found.hand_assignment, [vec![], vec![], vec![note(60)], vec![note(62)]]);
}

#[test]
fn single_hand_holds_everything() {
    let ctx = piece(&[(60, &[0]), (62, &[SEC]), (64, &[3 * SEC])]);
    let found = search(1, &ctx);
    assert_eq!(found.hand_assignment, [vec![note(60), note(62), note(64)]]);
    assert_eq!(found.best_score, -POINT - POINT / 2);
}

#[test]
fn assignment_pairs_the_hands_of_the_search() {
    let ctx = two_runs();
    let found = search_with_seed(6, &ctx, 13);
    let assignment = Assignment::new(&ctx, 3, 13);
    assert_eq!(assignment.score, found.best_score);
    assert_eq!(assignment.players.len(), 3);
    for (p, (left, right)) in assignment.players.iter().enumerate() {
        assert_eq!(*left, found.hand_assignment[2 * p]);
        assert_eq!(*right, found.hand_assignment[2 * p + 1]);
        assert!(precedes(left, right));
    }
}

#[test]
fn assignment_holds_every_boomwhacker_once() {
    let ctx = two_runs();
    let assignment = Assignment::new(&ctx, 2, 1);
    let mut all: Vec<Note> = assignment
        .players
        .iter()
        .flat_map(|(left, right)| left.iter().chain(right.iter()).copied())
        .collect();
    all.sort();
    assert_eq!(all, [60, 62, 64, 65, 67, 69, 71, 72].map(note).to_vec());
}

#[test]
fn assignment_is_determined_by_piece_players_and_seed() {
    let first = Assignment::new(&two_runs(), 2, 77);
    let second = Assignment::new(&two_runs(), 2, 77);
    assert_eq!(first.players, second.players);
    assert_eq!(first.score, second.score);
    let copy = first.clone();
    assert_eq!(copy.players, first.players);
}
