use simple_channels::mpsc::ring_buf::{Push, RingBuf, Slot};

fn push_done<T>(ring: &RingBuf<T>, value: T) -> bool {
    matches!(ring.push(value), Push::Done)
}

#[test]
fn new_slot_can_be_made() {
    let _slot: Slot<u32> = Slot::new();
}

#[test]
fn new_ring_has_the_capacity_asked_for() {
    assert_eq!(RingBuf::<u8>::new(1).slots(), 1);
    assert_eq!(RingBuf::<u8>::new(4).slots(), 4);
    assert_eq!(RingBuf::<u8>::new(64).slots(), 64);
}

#[test]
fn new_ring_is_empty() {
    let ring: RingBuf<u32> = RingBuf::new(4);
    assert_eq!(ring.pop(), None);
    assert_eq!(ring.pop(), None);
}

#[test]
fn pop_returns_what_was_pushed() {
    let ring = RingBuf::new(4);
    assert!(push_done(&ring, 7u32));
    assert_eq!(ring.pop(), Some(7));
    assert_eq!(ring.pop(), None);
}

#[test]
fn ring_is_first_in_first_out() {
    let ring = RingBuf::new(8);
    for v in 0u32..8 {
        assert!(push_done(&ring, v));
    }
    for v in 0u32..8 {
        assert_eq!(ring.pop(), Some(v));
    }
    assert_eq!(ring.pop(), None);
}

#[test]
fn full_ring_reports_full_and_returns_the_value() {
    let ring = RingBuf::new(4);
    for v in 0u32..4 {
        assert!(push_done(&ring, v));
    }
    match ring.push(99) {
        Push::Full(v) => assert_eq!(v, 99),
        _ => panic!("a full ring must report Full"),
    }
    // Nothing was changed by the refused push.
    for v in 0u32..4 {
        assert_eq!(ring.pop(), Some(v));
    }
    assert_eq!(ring.pop(), None);
}

#[test]
fn ring_of_one_holds_one() {
    let ring = RingBuf::new(1);
    assert!(push_done(&ring, 'a'));
    assert!(matches!(ring.push('b'), Push::Full('b')));
    assert_eq!(ring.pop(), Some('a'));
    assert!(push_done(&ring, 'b'));
    assert_eq!(ring.pop(), Some('b'));
    assert_eq!(ring.pop(), None);
}

#[test]
fn a_freed_slot_can_be_claimed_again() {
    let ring = RingBuf::new(2);
    assert!(push_done(&ring, 1));
    assert!(push_done(&ring, 2));
    assert!(matches!(ring.push(3), Push::Full(3)));
    assert_eq!(ring.pop(), Some(1));
    assert!(push_done(&ring, 3));
    assert!(matches!(ring.push(4), Push::Full(4)));
    assert_eq!(ring.pop(), Some(2));
    assert_eq!(ring.pop(), Some(3));
    assert_eq!(ring.pop(), None);
}

#[test]
fn never_more_than_capacity_outstanding() {
    let cap = 8usize;
    let ring = RingBuf::new(cap);
    let mut outstanding = 0usize;
    let mut next = 0u64;
    let mut expect = 0u64;
    // Push three, pop one, over and over: the ring fills up and stays full.
    for _ in 0..200 {
        for _ in 0..3 {
            match ring.push(next) {
                Push::Done => {
                    assert!(outstanding < cap);
                    outstanding += 1;
                    next += 1;
                }
                Push::Full(v) => {
                    assert_eq!(v, next);
                    assert_eq!(outstanding, cap);
                }
                Push::Contended(_) => panic!("nobody else is here"),
            }
        }
        assert_eq!(ring.pop(), Some(expect));
        expect += 1;
        outstanding -= 1;
    }
}

#[test]
fn cursors_go_round_many_times() {
    let ring = RingBuf::new(2);
    for v in 0u32..10_000 {
        assert!(push_done(&ring, v));
        assert_eq!(ring.pop(), Some(v));
    }
    assert_eq!(ring.pop(), None);
}

#[test]
fn values_that_own_memory_pass_through() {
    let ring = RingBuf::new(4);
    assert!(push_done(&ring, String::from("one")));
    assert!(push_done(&ring, String::from("two")));
    assert_eq!(ring.pop().as_deref(), Some("one"));
    assert_eq!(ring.pop().as_deref(), Some("two"));
    // What is left in the ring is released with it.
    assert!(push_done(&ring, String::from("left behind")));
}
