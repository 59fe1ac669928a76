use bifrost::RecvOutcome;
use bifrost::ResponseTracker;
use bifrost::StreamingResponseTracker;

#[test]
fn test_rpc_flight_tracker_drop() {
    let mut tracker: ResponseTracker<String> = ResponseTracker::default();
    assert_eq!(tracker.num_in_flight(), 0);
    let token = tracker.new_token(1).unwrap();
    assert_eq!(tracker.num_in_flight(), 1);
    tracker.abandon(token);
    assert_eq!(tracker.num_in_flight(), 0);

    let token = tracker.new_token(1).unwrap();
    assert_eq!(tracker.num_in_flight(), 1);
    // Waiting yields nothing yet; abandoning then drops the tracking entry.
    let token = match token.recv(&mut tracker, false) {
        RecvOutcome::Pending(token) => token,
        RecvOutcome::Received(_) => panic!("nothing was delivered"),
        RecvOutcome::Shutdown => panic!("nothing was cancelled"),
    };
    tracker.abandon(token);
    assert_eq!(tracker.num_in_flight(), 0);
}

#[test]
fn test_rpc_flight_tracker_send_recv() {
    let mut tracker: ResponseTracker<String> = ResponseTracker::default();
    assert_eq!(tracker.num_in_flight(), 0);
    let token = tracker.new_token(1).unwrap();
    assert_eq!(tracker.num_in_flight(), 1);

    // An unmatched message is handed back; the in-flight entry stays.
    let unmatched = tracker.handle_message(42, String::from("test"));
    assert_eq!(unmatched, Some(String::from("test")));
    assert_eq!(tracker.num_in_flight(), 1);

    let unmatched = tracker.handle_message(42, String::from("test"));
    assert!(unmatched.is_some());
    assert_eq!(tracker.num_in_flight(), 1);

    // A matching correlation id delivers and removes the entry at once.
    let matched = tracker.handle_message(1, String::from("a very real message"));
    assert!(matched.is_none());
    assert_eq!(tracker.num_in_flight(), 0);

    assert_eq!(token.correlation_id(), 1);
    match token.recv(&mut tracker, false) {
        RecvOutcome::Received(msg) => assert_eq!(msg, "a very real message"),
        _ => panic!("the delivered message must be received"),
    }
}

#[test]
fn duplicate_correlation_ids_are_refused() {
    let mut tracker: ResponseTracker<u32> = ResponseTracker::default();
    let first = tracker.new_token(5).unwrap();
    assert!(tracker.new_token(5).is_none());
    assert_eq!(tracker.num_in_flight(), 1);
    tracker.abandon(first);
    // Once the entry is gone, the id can be reused.
    assert!(tracker.new_token(5).is_some());
}

#[test]
fn generate_token_uses_the_default_id() {
    let mut tracker: ResponseTracker<u32> = ResponseTracker::default();
    let token = tracker.generate_token().unwrap();
    assert_eq!(token.correlation_id(), 0);
    assert!(tracker.generate_token().is_none());
}

#[test]
fn dropped_token_makes_a_late_response_unmatched() {
    // Create a token, drop it before any response: nothing stays in
    // flight, and a later inbound message with the same id is handed back.
    let mut tracker: ResponseTracker<String> = ResponseTracker::default();
    let token = tracker.new_token(1).unwrap();
    tracker.abandon(token);
    assert_eq!(tracker.num_in_flight(), 0);
    let late = tracker.handle_message(1, String::from("late"));
    assert_eq!(late, Some(String::from("late")));
}

#[test]
fn tracker_never_leaks() {
    // For N token creations, after all are received or abandoned, nothing
    // is in flight.
    let mut tracker: ResponseTracker<u64> = ResponseTracker::default();
    let mut tokens = Vec::new();
    for cid in 10..20u64 {
        tokens.push(tracker.new_token(cid).unwrap());
    }
    assert_eq!(tracker.num_in_flight(), 10);
    let mut received = 0;
    for token in tokens {
        if token.correlation_id() % 2 == 0 {
            assert!(tracker.handle_message(token.correlation_id(), 99).is_none());
            match token.recv(&mut tracker, false) {
                RecvOutcome::Received(v) => {
                    assert_eq!(v, 99);
                    received += 1;
                }
                _ => panic!("a delivered response must be received"),
            }
        } else {
            tracker.abandon(token);
        }
    }
    assert_eq!(received, 5);
    assert_eq!(tracker.num_in_flight(), 0);
}

#[test]
fn cancelled_recv_cleans_up() {
    let mut tracker: ResponseTracker<u32> = ResponseTracker::default();
    let token = tracker.new_token(3).unwrap();
    assert_eq!(tracker.num_in_flight(), 1);
    match token.recv(&mut tracker, true) {
        RecvOutcome::Shutdown => {}
        _ => panic!("cancellation must win"),
    }
    assert_eq!(tracker.num_in_flight(), 0);
}

#[test]
fn streaming_tracker_delivers_and_surfaces() {
    let incoming = vec![(1u64, String::from("matched")), (2u64, String::from("stray"))];
    let mut streaming: StreamingResponseTracker<String> = StreamingResponseTracker::new(incoming);
    let token = streaming.new_token(1).unwrap();

    // The first message matches the in-flight request and is delivered.
    assert!(streaming.handle_next_or_get(false).is_none());
    // The second has no in-flight request and is surfaced to the owner.
    assert_eq!(streaming.handle_next_or_get(false), Some((2, String::from("stray"))));
    // The stream is drained.
    assert!(streaming.handle_next_or_get(false).is_none());

    match token.recv(&mut streaming.flight_tracker, false) {
        RecvOutcome::Received(msg) => assert_eq!(msg, "matched"),
        _ => panic!("the matched message must reach its token"),
    }
}

#[test]
fn streaming_tracker_respects_cancellation() {
    let incoming = vec![(1u64, 5u8)];
    let mut streaming: StreamingResponseTracker<u8> = StreamingResponseTracker::new(incoming);
    assert!(streaming.handle_next_or_get(true).is_none());
    // Nothing was consumed while cancelled.
    assert_eq!(streaming.handle_next_or_get(false), Some((1, 5)));
}
