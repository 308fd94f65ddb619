use collab_core::dispatcher::RequestDispatcher;

#[test]
fn fresh_ids_are_distinct_and_monotonic() {
    let mut d = RequestDispatcher::new();
    let a = d.call(100);
    let b = d.call(100);
    let c = d.call(50);
    assert_eq!(a, 1);
    assert_eq!(b, 2);
    assert_eq!(c, 3);
    assert_eq!(d.open_count(), 3);
}

#[test]
fn response_resolves_matching_id_exactly_once() {
    let mut d = RequestDispatcher::new();
    let a = d.call(100);
    let b = d.call(100);
    assert!(d.handle_response(b));
    assert_eq!(d.open_count(), 1);
    // A second response with the same id is dropped.
    assert!(!d.handle_response(b));
    assert_eq!(d.open_count(), 1);
    // The other request is untouched and still resolvable.
    assert!(d.handle_response(a));
    assert_eq!(d.open_count(), 0);
}

#[test]
fn unknown_id_is_dropped() {
    let mut d = RequestDispatcher::new();
    let _a = d.call(100);
    assert!(!d.handle_response(999));
    assert_eq!(d.open_count(), 1);
}

#[test]
fn connection_loss_fails_every_open_request_once() {
    let mut d = RequestDispatcher::new();
    let a = d.call(100);
    let b = d.call(100);
    let c = d.call(100);
    assert!(d.handle_response(b));
    let failed = d.drain_pending();
    assert_eq!(failed, vec![a, c]);
    assert_eq!(d.open_count(), 0);
    // No later frame resolves a request failed by the loss.
    assert!(!d.handle_response(a));
    assert!(!d.handle_response(c));
}

#[test]
fn ids_are_not_reused_across_reconnects() {
    let mut d = RequestDispatcher::new();
    let a = d.call(100);
    let _failed = d.drain_pending();
    let b = d.call(100);
    assert_ne!(a, b);
    assert!(b > a);
    // A stale response bearing the old id never resolves the new request.
    assert!(!d.handle_response(a));
    assert_eq!(d.open_count(), 1);
}

#[test]
fn lapsed_deadlines_time_out() {
    let mut d = RequestDispatcher::new();
    let a = d.call(10);
    let b = d.call(200);
    let c = d.call(30);
    let timed_out = d.expire(100);
    assert_eq!(timed_out, vec![a, c]);
    assert_eq!(d.open_count(), 1);
    // Timed-out requests can never resolve; the survivor still can.
    assert!(!d.handle_response(a));
    assert!(d.handle_response(b));
}
