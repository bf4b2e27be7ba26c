use boomwhackers::music_xml::{
    is_in_root, lyric_order, note_nanos, packing_of, tempo_in_force, ChordClock, Hand, Packing,
    Timestamp, Whack,
};
use boomwhackers::note::Note;

fn note(semis: i8) -> Note {
    Note { semis_above_c0: semis }
}

fn at(nanos: u64) -> Timestamp {
    Timestamp::from_nanos(nanos)
}

#[test]
fn clock_starts_a_part_at_zero() {
    let clock = ChordClock::start_of_part(7);
    assert_eq!(clock.current_chord_start, at(0));
    assert_eq!(clock.next_chord_start, at(0));
    assert_eq!(clock.chord_note_idx, 7);
    assert_eq!(clock.whacks_loaded_so_far, 7);
}

#[test]
fn chords_follow_each_other() {
    let mut clock = ChordClock::start_of_part(0);
    assert!(clock.start_chord(500));
    assert_eq!(clock.current_chord_start, at(0));
    assert_eq!(clock.next_chord_start, at(500));
    assert!(clock.start_chord(250));
    assert_eq!(clock.current_chord_start, at(500));
    assert_eq!(clock.next_chord_start, at(750));
    assert!(clock.start_chord(0));
    assert_eq!(clock.current_chord_start, at(750));
    assert_eq!(clock.next_chord_start, at(750));
}

#[test]
fn notes_of_a_chord_share_its_start_and_its_first_number() {
    let mut clock = ChordClock::start_of_part(3);
    assert!(clock.start_chord(100));
    let first = clock.add_whack().unwrap();
    let second = clock.add_whack().unwrap();
    assert_eq!(first, Whack { timestamp: at(0), note_idx: 3, chord_note_idx: 3 });
    assert_eq!(second, Whack { timestamp: at(0), note_idx: 4, chord_note_idx: 3 });
    assert!(clock.start_chord(100));
    let third = clock.add_whack().unwrap();
    assert_eq!(third, Whack { timestamp: at(100), note_idx: 5, chord_note_idx: 5 });
    assert_eq!(clock.whacks_loaded_so_far, 6);
}

#[test]
fn rests_take_time_but_no_number() {
    let mut clock = ChordClock::start_of_part(0);
    assert!(clock.start_chord(40));
    assert!(clock.start_chord(60));
    let whack = clock.add_whack().unwrap();
    assert_eq!(whack, Whack { timestamp: at(40), note_idx: 0, chord_note_idx: 0 });
}

#[test]
fn clock_stops_at_the_end_of_time() {
    let mut clock = ChordClock::start_of_part(0);
    assert!(clock.start_chord(u64::MAX - 1));
    let before = clock;
    assert!(!clock.start_chord(2));
    assert_eq!(clock, before);
    assert!(clock.start_chord(1));
    assert_eq!(clock.next_chord_start, at(u64::MAX));
    assert_eq!(clock.current_chord_start, at(u64::MAX - 1));
}

#[test]
fn clock_stops_when_the_numbers_run_out() {
    let mut clock = ChordClock::start_of_part(usize::MAX - 1);
    assert!(clock.add_whack().is_some());
    let before = clock;
    assert_eq!(clock.add_whack(), None);
    assert_eq!(clock, before);
}

#[test]
fn note_lasts_its_divisions() {
    assert_eq!(note_nanos(250_000_000, 4), Some(1_000_000_000));
    assert_eq!(note_nanos(0, 9), Some(0));
    assert_eq!(note_nanos(7, 0), Some(0));
    assert_eq!(note_nanos(u64::MAX, 1), Some(u64::MAX));
    assert_eq!(note_nanos(u64::MAX, 2), None);
    assert_eq!(note_nanos(1 << 40, u32::MAX), None);
}

#[test]
fn tempo_in_force_is_the_last_mark_so_far() {
    let marks = vec![at(0), at(100), at(300)];
    assert_eq!(tempo_in_force(&marks, at(0)), Some(0));
    assert_eq!(tempo_in_force(&marks, at(99)), Some(0));
    assert_eq!(tempo_in_force(&marks, at(100)), Some(1));
    assert_eq!(tempo_in_force(&marks, at(299)), Some(1));
    assert_eq!(tempo_in_force(&marks, at(300)), Some(2));
    assert_eq!(tempo_in_force(&marks, at(u64::MAX)), Some(2));
}

#[test]
fn first_tempo_mark_is_in_force_before_it_starts() {
    let marks = vec![at(50), at(100)];
    assert_eq!(tempo_in_force(&marks, at(0)), Some(0));
    assert_eq!(tempo_in_force(&marks, at(49)), Some(0));
    assert_eq!(tempo_in_force(&marks, at(50)), Some(0));
}

#[test]
fn no_tempo_mark_no_tempo() {
    assert_eq!(tempo_in_force(&vec![], at(5)), None);
}

#[test]
fn tempo_marks_at_the_same_time_give_the_last() {
    let marks = vec![at(10), at(10), at(10)];
    assert_eq!(tempo_in_force(&marks, at(10)), Some(2));
    assert_eq!(tempo_in_force(&marks, at(9)), Some(0));
}

#[test]
fn lyrics_go_from_the_highest_note_down() {
    let left = vec![note(48), note(55), note(52)];
    let right = vec![note(60), note(50)];
    assert_eq!(
        lyric_order(&left, &right),
        [
            (note(60), Hand::Right),
            (note(55), Hand::Left),
            (note(52), Hand::Left),
            (note(50), Hand::Right),
            (note(48), Hand::Left),
        ]
    );
}

#[test]
fn lyrics_of_equal_notes_keep_left_before_right() {
    let left = vec![note(50), note(50)];
    let right = vec![note(50), note(51)];
    assert_eq!(
        lyric_order(&left, &right),
        [
            (note(51), Hand::Right),
            (note(50), Hand::Left),
            (note(50), Hand::Left),
            (note(50), Hand::Right),
        ]
    );
}

#[test]
fn lyrics_of_empty_hands() {
    assert_eq!(lyric_order(&vec![], &vec![]), []);
    assert_eq!(lyric_order(&vec![note(1)], &vec![]), [(note(1), Hand::Left)]);
    assert_eq!(lyric_order(&vec![], &vec![note(1)]), [(note(1), Hand::Right)]);
}

#[test]
fn packing_goes_by_the_extension() {
    assert_eq!(packing_of("xml"), Some(Packing::Plain));
    assert_eq!(packing_of("mxl"), Some(Packing::Compressed));
    assert_eq!(packing_of("musicxml"), None);
    assert_eq!(packing_of("XML"), None);
    assert_eq!(packing_of(""), None);
    assert_eq!(packing_of("xm"), None);
    assert_eq!(packing_of("xmll"), None);
    assert_eq!(packing_of("mxI"), None);
}

#[test]
fn files_in_the_root_have_no_slash() {
    assert!(is_in_root("score.xml"));
    assert!(is_in_root(""));
    assert!(!is_in_root("META-INF/container.xml"));
    assert!(!is_in_root("/score.xml"));
    assert!(!is_in_root("score/"));
    assert!(is_in_root("sc♯re.xml"));
}
