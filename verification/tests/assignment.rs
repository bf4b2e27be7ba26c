use boomwhackers::assignment::HandAssignment;
use boomwhackers::music_xml::Timestamp;
use boomwhackers::note::Note;
use boomwhackers::rng::SeededRng;
use boomwhackers::scoring::{score_for_hand, POINT};
use boomwhackers::search::Context;

const SEC: u64 = 1_000_000_000;

fn note(semis: i8) -> Note {
    Note { semis_above_c0: semis }
}

/// A piece with `count` boomwhackers; boomwhacker `k` has the note `k` and is
/// hit once, `k` seconds after the start.
fn scale(count: usize) -> Context {
    let whacks = (0..count)
        .map(|k| (note(k as i8), vec![Timestamp::from_nanos(k as u64 * SEC)]))
        .collect();
    Context::new(whacks).unwrap()
}

fn sizes(hands: &[Vec<Note>]) -> Vec<usize> {
    hands.iter().map(|hand| hand.len()).collect()
}

fn all_sorted(hands: &[Vec<Note>]) -> Vec<Note> {
    let mut all: Vec<Note> = hands.iter().flatten().copied().collect();
    all.sort();
    all
}

#[test]
fn hands_share_the_row_evenly() {
    let ctx = scale(10);
    let dealt = HandAssignment::from_order(4, &ctx, (0..10).collect());
    let hands = dealt.whackers(&ctx);
    // 10 = 4 * 2 + 2: the first two hands take one more
    assert_eq!(sizes(&hands), [3, 3, 2, 2]);
    assert_eq!(hands[0], [note(0), note(1), note(2)]);
    assert_eq!(hands[1], [note(3), note(4), note(5)]);
    assert_eq!(hands[2], [note(6), note(7)]);
    assert_eq!(hands[3], [note(8), note(9)]);
}

#[test]
fn hands_follow_the_order_given() {
    let ctx = scale(5);
    let dealt = HandAssignment::from_order(2, &ctx, vec![4, 0, 3, 1, 2]);
    assert_eq!(dealt.whackers(&ctx), [vec![note(4), note(0), note(3)], vec![note(1), note(2)]]);
}

#[test]
fn fewer_boomwhackers_than_hands_leave_hands_empty() {
    let ctx = scale(3);
    let dealt = HandAssignment::from_order(8, &ctx, vec![2, 0, 1]);
    assert_eq!(sizes(&dealt.whackers(&ctx)), [1, 1, 1, 0, 0, 0, 0, 0]);
    assert_eq!(dealt.score(), 0);
}

#[test]
fn no_hand_is_empty_with_enough_boomwhackers() {
    for count in 6..30 {
        let ctx = scale(count);
        let dealt = HandAssignment::from_order(6, &ctx, (0..count).collect());
        let sizes = sizes(&dealt.whackers(&ctx));
        assert_eq!(sizes.iter().sum::<usize>(), count);
        assert!(sizes.iter().all(|size| *size == count / 6 || *size == count / 6 + 1));
        assert_eq!(sizes.iter().filter(|size| **size == count / 6 + 1).count(), count % 6);
        assert!(sizes.windows(2).all(|pair| pair[0] >= pair[1]));
    }
}

#[test]
fn empty_piece_gives_empty_hands() {
    let ctx = scale(0);
    let mut dealt = HandAssignment::from_order(4, &ctx, vec![]);
    assert_eq!(sizes(&dealt.whackers(&ctx)), [0, 0, 0, 0]);
    assert_eq!(dealt.score(), 0);
    let mut rng = SeededRng::seed_from_u64(0);
    dealt.make_swap(&ctx, &mut rng);
    assert_eq!(sizes(&dealt.whackers(&ctx)), [0, 0, 0, 0]);
    assert_eq!(dealt.score(), 0);
    // nothing was drawn
    assert_eq!(rng, SeededRng::seed_from_u64(0));
    let random = HandAssignment::random(3, &ctx, &mut rng);
    assert_eq!(sizes(&random.whackers(&ctx)), [0, 0, 0]);
}

#[test]
fn score_is_the_sum_over_the_hands() {
    let ctx = scale(5);
    // hands {0, 2, 4} and {1, 3}: gaps of two seconds everywhere
    let dealt = HandAssignment::from_order(2, &ctx, vec![0, 2, 4, 1, 3]);
    assert_eq!(dealt.score(), -(POINT / 2) * 3);
    assert_eq!(
        dealt.score(),
        score_for_hand(&[0, 2, 4], &ctx) + score_for_hand(&[1, 3], &ctx)
    );
    // hands {0, 1, 2} and {3, 4}: gaps of one second
    let dealt = HandAssignment::from_order(2, &ctx, vec![0, 1, 2, 3, 4]);
    assert_eq!(dealt.score(), -3 * POINT);
}

#[test]
fn swap_exchanges_two_places() {
    let ctx = scale(5);
    let mut dealt = HandAssignment::from_order(2, &ctx, vec![0, 1, 2, 3, 4]);
    dealt.swap_at(&ctx, 1, 4);
    assert_eq!(dealt.whackers(&ctx), [vec![note(0), note(4), note(2)], vec![note(3), note(1)]]);
    // hands {0, 4, 2}: 0 -> 2 -> 4, two seconds each; {3, 1}: two seconds
    assert_eq!(dealt.score(), -(POINT / 2) * 3);
    dealt.swap_at(&ctx, 0, 2);
    assert_eq!(dealt.whackers(&ctx), [vec![note(2), note(4), note(0)], vec![note(3), note(1)]]);
}

#[test]
fn swap_of_a_place_with_itself_changes_nothing() {
    let ctx = scale(5);
    let mut dealt = HandAssignment::from_order(2, &ctx, vec![3, 1, 2, 0, 4]);
    let before = dealt.whackers(&ctx);
    let score = dealt.score();
    dealt.swap_at(&ctx, 2, 2);
    assert_eq!(dealt.whackers(&ctx), before);
    assert_eq!(dealt.score(), score);
}

#[test]
fn swap_twice_restores_the_assignment() {
    let ctx = scale(9);
    let mut dealt = HandAssignment::from_order(4, &ctx, vec![8, 3, 1, 0, 7, 2, 6, 5, 4]);
    let before = dealt.whackers(&ctx);
    let score = dealt.score();
    for i in 0..9 {
        for j in 0..9 {
            dealt.swap_at(&ctx, i, j);
            dealt.swap_at(&ctx, i, j);
            assert_eq!(dealt.whackers(&ctx), before);
            assert_eq!(dealt.score(), score);
        }
    }
}

#[test]
fn random_swap_is_its_own_inverse_with_the_same_draws() {
    let ctx = scale(12);
    let mut dealt = HandAssignment::from_order(4, &ctx, (0..12).collect());
    let before = dealt.whackers(&ctx);
    let score = dealt.score();
    let rng = SeededRng::seed_from_u64(31);
    let mut first = rng;
    dealt.make_swap(&ctx, &mut first);
    let mut second = rng;
    dealt.make_swap(&ctx, &mut second);
    assert_eq!(first, second);
    assert_eq!(dealt.whackers(&ctx), before);
    assert_eq!(dealt.score(), score);
}

#[test]
fn random_swap_draws_two_places() {
    let ctx = scale(12);
    let mut dealt = HandAssignment::from_order(3, &ctx, (0..12).collect());
    let mut rng = SeededRng::seed_from_u64(4);
    let mut draws = rng;
    let i = draws.gen_index(12);
    let j = draws.gen_index(12);
    dealt.make_swap(&ctx, &mut rng);
    assert_eq!(rng, draws);
    let mut expected = HandAssignment::from_order(3, &ctx, (0..12).collect());
    expected.swap_at(&ctx, i, j);
    assert_eq!(dealt.whackers(&ctx), expected.whackers(&ctx));
    assert_eq!(dealt.score(), expected.score());
}

#[test]
fn swaps_keep_every_boomwhacker_exactly_once() {
    let ctx = scale(17);
    let mut rng = SeededRng::seed_from_u64(12);
    let mut dealt = HandAssignment::random(6, &ctx, &mut rng);
    let everything: Vec<Note> = (0..17).map(note).collect();
    assert_eq!(all_sorted(&dealt.whackers(&ctx)), everything);
    for _ in 0..200 {
        dealt.make_swap(&ctx, &mut rng);
        let hands = dealt.whackers(&ctx);
        assert_eq!(sizes(&hands), [3, 3, 3, 3, 3, 2]);
        assert_eq!(all_sorted(&hands), everything);
        assert!(dealt.score() <= 0);
    }
}

#[test]
fn random_assignment_is_the_shuffled_row() {
    let ctx = scale(7);
    let mut rng = SeededRng::seed_from_u64(99);
    let mut shuffling = rng;
    let mut order: Vec<usize> = (0..7).collect();
    shuffling.shuffle(&mut order);
    let random = HandAssignment::random(2, &ctx, &mut rng);
    assert_eq!(rng, shuffling);
    let expected = HandAssignment::from_order(2, &ctx, order);
    assert_eq!(random.whackers(&ctx), expected.whackers(&ctx));
    assert_eq!(random.score(), expected.score());
}

#[test]
fn clone_is_the_same_assignment() {
    let ctx = scale(7);
    let dealt = HandAssignment::from_order(3, &ctx, vec![6, 5, 4, 3, 2, 1, 0]);
    let copy = dealt.clone();
    assert_eq!(copy.whackers(&ctx), dealt.whackers(&ctx));
    assert_eq!(copy.score(), dealt.score());
}
