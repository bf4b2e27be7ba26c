use boomwhackers::rng::SeededRng;
use rand::seq::SliceRandom;
use rand::{Rng, SeedableRng};
use rand_chacha::ChaCha8Rng;

#[test]
fn generator_starts_at_the_start_of_its_stream() {
    let rng = SeededRng::seed_from_u64(17);
    assert_eq!(rng.seed, 17);
    assert_eq!(rng.word_pos, 0);
}

#[test]
fn draws_are_those_of_one_chacha_generator() {
    for seed in [0u64, 1, 42, u64::MAX] {
        let mut ours = SeededRng::seed_from_u64(seed);
        let mut theirs = ChaCha8Rng::seed_from_u64(seed);
        for round in 0..300usize {
            let bound = 1 + (round * 7) % 90;
            let drawn = ours.gen_index(bound);
            assert!(drawn < bound);
            assert_eq!(drawn as u64, theirs.gen_range(0..bound as u64));
            assert_eq!(ours.word_pos, theirs.get_word_pos());
        }
    }
}

#[test]
fn draws_agree_with_draws_of_positions() {
    let mut ours = SeededRng::seed_from_u64(5);
    let mut theirs = ChaCha8Rng::seed_from_u64(5);
    for _ in 0..200 {
        assert_eq!(ours.gen_index(24), theirs.gen_range(0..24usize));
    }
}

#[test]
fn draws_move_the_generator_on() {
    let mut rng = SeededRng::seed_from_u64(3);
    let before = rng;
    rng.gen_index(10);
    assert_eq!(rng.seed, before.seed);
    assert!(rng.word_pos > before.word_pos);
}

#[test]
fn draws_vary() {
    let mut rng = SeededRng::seed_from_u64(9);
    let drawn: Vec<usize> = (0..64).map(|_| rng.gen_index(1000)).collect();
    assert!(drawn.iter().any(|d| *d != drawn[0]));
    assert!(drawn.iter().all(|d| *d < 1000));
}

#[test]
fn bound_of_one_always_draws_zero() {
    let mut rng = SeededRng::seed_from_u64(9);
    for _ in 0..20 {
        assert_eq!(rng.gen_index(1), 0);
    }
}

#[test]
fn same_generator_draws_the_same() {
    let mut a = SeededRng::seed_from_u64(77);
    let mut b = SeededRng::seed_from_u64(77);
    for _ in 0..50 {
        assert_eq!(a.gen_index(13), b.gen_index(13));
    }
    assert_eq!(a, b);
}

#[test]
fn shuffle_is_that_of_one_chacha_generator() {
    for seed in [0u64, 8, 1234] {
        let mut ours = SeededRng::seed_from_u64(seed);
        let mut theirs = ChaCha8Rng::seed_from_u64(seed);
        for len in [0usize, 1, 2, 5, 24, 100] {
            let mut mine: Vec<usize> = (0..len).collect();
            let mut other: Vec<usize> = (0..len).collect();
            ours.shuffle(&mut mine);
            other.shuffle(&mut theirs);
            assert_eq!(mine, other);
            assert_eq!(ours.word_pos, theirs.get_word_pos());
            // draws after a shuffle go on in the same stream
            assert_eq!(ours.gen_index(50) as u64, theirs.gen_range(0..50u64));
        }
    }
}

#[test]
fn shuffle_keeps_the_items() {
    let mut rng = SeededRng::seed_from_u64(2);
    let mut items: Vec<usize> = vec![4, 4, 7, 1, 0, 9, 9, 9];
    rng.shuffle(&mut items);
    let mut sorted = items.clone();
    sorted.sort();
    assert_eq!(sorted, vec![0, 1, 4, 4, 7, 9, 9, 9]);
}

#[test]
fn shuffle_changes_the_order() {
    let mut rng = SeededRng::seed_from_u64(2);
    let mut items: Vec<usize> = (0..40).collect();
    rng.shuffle(&mut items);
    assert_ne!(items, (0..40).collect::<Vec<usize>>());
}
