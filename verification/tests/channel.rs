use simple_channels::mpsc;
use simple_channels::mpsc::ring_buf::Push;
use simple_channels::mpsc::{
    alone, settle, why_empty, Receiver, RecvError, SendError, SendStep, Sender, TryRecvError,
};

fn must_be_send<T: Send>() {}

/// Receives until the channel reports anything but a value, and says what.
fn drain<T>(rx: &Receiver<T>, into: &mut Vec<T>) -> TryRecvError {
    loop {
        match rx.try_recv() {
            Ok(v) => into.push(v),
            Err(e) => return e,
        }
    }
}

/// A send that waits by letting the receiver take one value whenever the
/// ring is full, as a consumer on another thread would.
fn send_with_consumer(tx: &Sender<u32>, rx: &Receiver<u32>, value: u32, seen: &mut Vec<u32>) {
    let mut step = tx.start_send(value);
    loop {
        match step {
            SendStep::Over(Ok(())) => return,
            SendStep::Over(Err(_)) => panic!("the receiver is alive"),
            SendStep::Full(v) => {
                seen.push(rx.try_recv().unwrap());
                step = tx.start_send(v);
            }
            SendStep::Contended(v) => step = tx.resume_send(v),
        }
    }
}

#[test]
fn sends_and_receives_value() {
    let (tx, rx) = mpsc::bounded(4);
    assert!(matches!(tx.start_send("hello"), SendStep::Over(Ok(()))));
    assert_eq!(rx.try_recv(), Ok("hello"));
}

#[test]
fn handles_can_move_to_other_threads() {
    must_be_send::<Sender<u32>>();
    must_be_send::<Receiver<u32>>();
    must_be_send::<Sender<String>>();
    must_be_send::<Receiver<String>>();
}

#[test]
fn bounded_accepts_powers_of_two() {
    let (tx, rx) = mpsc::bounded::<u8>(4);
    assert!(matches!(tx.start_send(1), SendStep::Over(Ok(()))));
    assert_eq!(rx.try_recv(), Ok(1));
    let (tx, rx) = mpsc::bounded::<u8>(1);
    assert!(matches!(tx.start_send(2), SendStep::Over(Ok(()))));
    assert_eq!(rx.try_recv(), Ok(2));
}

#[test]
fn three_is_no_capacity() {
    assert!(!mpsc::cursor::power_of_two(3));
    assert!(mpsc::cursor::power_of_two(4));
    assert!(mpsc::cursor::power_of_two(1));
}

#[test]
fn try_recv_on_fresh_channel_is_empty() {
    let (tx, rx) = mpsc::bounded::<u32>(4);
    assert_eq!(rx.try_recv(), Err(TryRecvError::Empty));
    drop(tx);
    assert_eq!(rx.try_recv(), Err(TryRecvError::Disconnected));
}

#[test]
fn channel_holds_exactly_its_capacity() {
    let (tx, rx) = mpsc::bounded(4);
    for v in 0u32..4 {
        assert!(matches!(tx.start_send(v), SendStep::Over(Ok(()))));
    }
    match tx.start_send(4) {
        SendStep::Full(v) => assert_eq!(v, 4),
        _ => panic!("the fifth value must find the channel full"),
    }
    assert_eq!(rx.try_recv(), Ok(0));
    assert!(matches!(tx.start_send(4), SendStep::Over(Ok(()))));
    assert!(matches!(tx.start_send(5), SendStep::Full(5)));
}

#[test]
fn one_producer_one_slot_keeps_the_order() {
    let (tx, rx) = mpsc::bounded(1);
    let mut seen = Vec::new();
    for v in [0u32, 1, 2] {
        send_with_consumer(&tx, &rx, v, &mut seen);
    }
    assert_eq!(drain(&rx, &mut seen), TryRecvError::Empty);
    assert_eq!(seen, vec![0, 1, 2]);
}

#[test]
fn one_slot_blocks_the_second_send_until_the_first_is_received() {
    let (tx, rx) = mpsc::bounded(1);
    assert!(matches!(tx.start_send(0u32), SendStep::Over(Ok(()))));
    assert!(matches!(tx.start_send(1), SendStep::Full(1)));
    assert!(matches!(tx.start_send(1), SendStep::Full(1)));
    assert_eq!(rx.try_recv(), Ok(0));
    assert!(matches!(tx.start_send(1), SendStep::Over(Ok(()))));
    assert!(matches!(tx.start_send(2), SendStep::Full(2)));
    assert_eq!(rx.try_recv(), Ok(1));
    assert!(matches!(tx.start_send(2), SendStep::Over(Ok(()))));
    assert_eq!(rx.try_recv(), Ok(2));
    assert_eq!(rx.try_recv(), Err(TryRecvError::Empty));
}

#[test]
fn four_producers_deliver_every_value_once_and_in_order() {
    let (tx, rx) = mpsc::bounded(64);
    let producers: Vec<Sender<u32>> = (0..4).map(|_| tx.clone()).collect();
    drop(tx);
    let mut seen = Vec::new();
    // The producers take turns, one value each; the consumer steps in when
    // the ring is full.
    for k in 0u32..100 {
        for (i, p) in producers.iter().enumerate() {
            send_with_consumer(p, &rx, i as u32 * 100 + k, &mut seen);
        }
    }
    assert_eq!(drain(&rx, &mut seen), TryRecvError::Empty);
    drop(producers);
    assert_eq!(drain(&rx, &mut seen), TryRecvError::Disconnected);

    assert_eq!(seen.len(), 400);
    let mut sorted = seen.clone();
    sorted.sort();
    assert_eq!(sorted, (0u32..400).collect::<Vec<u32>>());
    for i in 0u32..4 {
        let of_one: Vec<u32> = seen.iter().copied().filter(|v| v / 100 == i).collect();
        assert_eq!(of_one, (i * 100..i * 100 + 100).collect::<Vec<u32>>());
    }
}

#[test]
fn producers_in_bursts_keep_their_own_order() {
    let (tx, rx) = mpsc::bounded(8);
    let a = tx.clone();
    let b = tx.clone();
    drop(tx);
    let mut seen = Vec::new();
    let mut next_a = 0u32;
    let mut next_b = 1000u32;
    for round in 0..50 {
        for _ in 0..(round % 5 + 1) {
            send_with_consumer(&a, &rx, next_a, &mut seen);
            next_a += 1;
        }
        for _ in 0..(round % 3 + 1) {
            send_with_consumer(&b, &rx, next_b, &mut seen);
            next_b += 1;
        }
    }
    drop(a);
    drop(b);
    assert_eq!(drain(&rx, &mut seen), TryRecvError::Disconnected);
    let of_a: Vec<u32> = seen.iter().copied().filter(|v| *v < 1000).collect();
    let of_b: Vec<u32> = seen.iter().copied().filter(|v| *v >= 1000).collect();
    assert_eq!(of_a, (0..next_a).collect::<Vec<u32>>());
    assert_eq!(of_b, (1000..next_b).collect::<Vec<u32>>());
}

#[test]
fn receiver_drains_before_it_reports_disconnection() {
    let (tx, rx) = mpsc::bounded(4);
    assert!(matches!(tx.start_send(10u32), SendStep::Over(Ok(()))));
    assert!(matches!(tx.start_send(11), SendStep::Over(Ok(()))));
    assert!(matches!(tx.start_send(12), SendStep::Over(Ok(()))));
    drop(tx);
    assert_eq!(rx.try_recv(), Ok(10));
    assert_eq!(rx.try_recv(), Ok(11));
    assert_eq!(rx.try_recv(), Ok(12));
    assert_eq!(rx.try_recv(), Err(TryRecvError::Disconnected));
    assert_eq!(rx.try_recv(), Err(TryRecvError::Disconnected));
}

#[test]
fn recv_step_ends_with_value_or_disconnection() {
    let (tx, rx) = mpsc::bounded(2);
    assert_eq!(rx.recv_step(), None);
    assert!(matches!(tx.start_send(5u32), SendStep::Over(Ok(()))));
    assert_eq!(rx.recv_step(), Some(Ok(5)));
    assert_eq!(rx.recv_step(), None);
    assert!(matches!(tx.start_send(6), SendStep::Over(Ok(()))));
    drop(tx);
    assert_eq!(rx.recv_step(), Some(Ok(6)));
    assert_eq!(rx.recv_step(), Some(Err(RecvError::Disconnected)));
}

#[test]
fn send_fails_once_the_receiver_is_gone() {
    let (tx, rx) = mpsc::bounded(4);
    drop(rx);
    match tx.start_send(String::from("nobody listens")) {
        SendStep::Over(Err(e)) => assert_eq!(e, SendError(String::from("nobody listens"))),
        _ => panic!("the only handle left must find the receiver gone"),
    }
}

#[test]
fn send_on_a_full_channel_fails_once_the_receiver_is_gone() {
    let (tx, rx) = mpsc::bounded(1);
    assert!(matches!(tx.start_send(1u32), SendStep::Over(Ok(()))));
    assert!(matches!(tx.start_send(2), SendStep::Full(2)));
    drop(rx);
    assert!(matches!(tx.start_send(2), SendStep::Over(Err(SendError(2)))));
}

#[test]
fn a_clone_keeps_the_channel_connected() {
    let (tx, rx) = mpsc::bounded::<u32>(4);
    let second = tx.clone();
    drop(tx);
    assert_eq!(rx.try_recv(), Err(TryRecvError::Empty));
    assert!(matches!(second.start_send(3), SendStep::Over(Ok(()))));
    assert_eq!(rx.try_recv(), Ok(3));
    drop(second);
    assert_eq!(rx.try_recv(), Err(TryRecvError::Disconnected));
}

#[test]
fn two_senders_do_not_notice_the_receiver_leave() {
    // A sender looks for the receiver by counting handles, and two senders
    // count two.
    let (tx, rx) = mpsc::bounded(2);
    let second = tx.clone();
    drop(rx);
    assert!(matches!(tx.start_send(1u32), SendStep::Over(Ok(()))));
    assert!(matches!(second.start_send(2), SendStep::Over(Ok(()))));
    assert!(matches!(tx.start_send(3), SendStep::Full(3)));
    drop(second);
    assert!(matches!(tx.start_send(3), SendStep::Over(Err(SendError(3)))));
}

#[test]
fn resume_send_does_not_look_for_the_receiver() {
    let (tx, rx) = mpsc::bounded(2);
    drop(rx);
    // Sent into the void: the pass succeeds although nobody will read.
    assert!(matches!(tx.resume_send(1u32), SendStep::Over(Ok(()))));
    assert!(matches!(tx.resume_send(2), SendStep::Over(Ok(()))));
    assert!(matches!(tx.resume_send(3), SendStep::Full(3)));
    assert!(matches!(tx.start_send(3), SendStep::Over(Err(SendError(3)))));
}

#[test]
fn a_handle_is_alone_when_it_counts_one() {
    assert!(alone(1));
    assert!(!alone(2));
    assert!(!alone(3));
    assert!(!alone(0));
    assert!(!alone(usize::MAX));
}

#[test]
fn empty_is_told_from_disconnected_by_the_count() {
    assert_eq!(why_empty(1), TryRecvError::Disconnected);
    assert_eq!(why_empty(2), TryRecvError::Empty);
    assert_eq!(why_empty(5), TryRecvError::Empty);
}

#[test]
fn settle_ends_a_receive_on_value_and_on_disconnection() {
    assert_eq!(settle(Ok(4u8)), Some(Ok(4)));
    assert_eq!(
        settle::<u8>(Err(TryRecvError::Disconnected)),
        Some(Err(RecvError::Disconnected))
    );
    assert_eq!(settle::<u8>(Err(TryRecvError::Empty)), None);
}

#[test]
fn after_push_names_the_next_move() {
    assert!(matches!(SendStep::after_push(Push::<u8>::Done), SendStep::Over(Ok(()))));
    assert!(matches!(SendStep::after_push(Push::Full(3u8)), SendStep::Full(3)));
    assert!(matches!(SendStep::after_push(Push::Contended(4u8)), SendStep::Contended(4)));
}
