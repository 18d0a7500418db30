use simple_channels::mpsc::cursor::{lapped, next_cursor, power_of_two, slot_index};

#[test]
fn powers_of_two_are_recognised() {
    assert!(power_of_two(1));
    assert!(power_of_two(2));
    assert!(power_of_two(4));
    assert!(power_of_two(64));
    assert!(power_of_two(1024));
    assert!(power_of_two(1usize << (usize::BITS - 1)));
}

#[test]
fn other_numbers_are_not_powers_of_two() {
    assert!(!power_of_two(0));
    assert!(!power_of_two(3));
    assert!(!power_of_two(5));
    assert!(!power_of_two(6));
    assert!(!power_of_two(12));
    assert!(!power_of_two(1023));
    assert!(!power_of_two(usize::MAX));
    assert!(!power_of_two((1usize << (usize::BITS - 1)) + 1));
}

#[test]
fn power_of_two_agrees_with_std() {
    for n in 0usize..5000 {
        assert_eq!(power_of_two(n), n.is_power_of_two());
    }
}

#[test]
fn slot_index_is_remainder_by_capacity() {
    assert_eq!(slot_index(0, 3), 0);
    assert_eq!(slot_index(1, 3), 1);
    assert_eq!(slot_index(3, 3), 3);
    assert_eq!(slot_index(4, 3), 0);
    assert_eq!(slot_index(5, 3), 1);
    assert_eq!(slot_index(13, 7), 5);
    assert_eq!(slot_index(64, 63), 0);
    assert_eq!(slot_index(130, 63), 2);
    assert_eq!(slot_index(17, 0), 0);
    assert_eq!(slot_index(usize::MAX, 7), 7);
    assert_eq!(slot_index(usize::MAX, 0), 0);
}

#[test]
fn slot_index_survives_the_wrap() {
    // The slot after the one that the largest cursor names is slot 0 again.
    let cap = 8usize;
    let last = slot_index(usize::MAX, cap - 1);
    let first = slot_index(next_cursor(usize::MAX), cap - 1);
    assert_eq!(last, cap - 1);
    assert_eq!(first, 0);
}

#[test]
fn next_cursor_wraps_to_zero() {
    assert_eq!(next_cursor(0), 1);
    assert_eq!(next_cursor(41), 42);
    assert_eq!(next_cursor(usize::MAX - 1), usize::MAX);
    assert_eq!(next_cursor(usize::MAX), 0);
}

#[test]
fn lapped_compares_the_distance_with_the_capacity() {
    assert!(!lapped(0, 0, 4));
    assert!(!lapped(3, 0, 4));
    assert!(lapped(4, 0, 4));
    assert!(lapped(5, 0, 4));
    assert!(!lapped(10, 7, 4));
    assert!(lapped(11, 7, 4));
    assert!(lapped(1, 0, 1));
    assert!(!lapped(7, 7, 1));
}

#[test]
fn lapped_counts_around_the_wrap() {
    // head has wrapped, tail has not: the distance is still small.
    assert!(!lapped(1, usize::MAX, 4));
    assert!(!lapped(2, usize::MAX, 4));
    assert!(lapped(3, usize::MAX, 4));
    assert!(lapped(3, usize::MAX - 1, 4));
    // A head that has fallen behind tail counts as a whole word ahead.
    assert!(lapped(0, 1, 4));
}
