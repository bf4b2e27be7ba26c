use boomwhackers::whacker_vec::WhackerIdx;
use index_vec::Idx;

#[test]
fn index_stands_for_its_number() {
    for number in 0..256usize {
        assert_eq!(WhackerIdx::from_usize(number).index(), number);
    }
}

#[test]
fn numbers_above_a_byte_start_over() {
    assert_eq!(WhackerIdx::from_usize(256).index(), 0);
    assert_eq!(WhackerIdx::from_usize(257).index(), 1);
    assert_eq!(WhackerIdx::from_usize(1000).index(), 1000 % 256);
    assert_eq!(WhackerIdx::from_usize(usize::MAX).index(), 255);
}

#[test]
fn indices_are_ordered_by_their_numbers() {
    assert!(WhackerIdx::from_usize(3) < WhackerIdx::from_usize(200));
    assert_eq!(WhackerIdx::from_usize(7), WhackerIdx::from_usize(7 + 256));
}
