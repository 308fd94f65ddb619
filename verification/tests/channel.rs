use collab_core::channel::ChannelRegistry;
use collab_core::channel::DeliverOutcome;
use collab_core::protocol::ChannelEvent;
use collab_core::protocol::JoinError;

fn msg(sender: u64, body: &str) -> ChannelEvent {
    ChannelEvent::Message { sender, body: String::from(body) }
}

#[test]
fn in_order_delivery_appends_to_the_log() {
    let mut reg = ChannelRegistry::new();
    reg.join(7).unwrap();
    assert!(matches!(reg.deliver(7, 1, msg(1, "a")), DeliverOutcome::Delivered));
    assert!(matches!(reg.deliver(7, 2, msg(2, "b")), DeliverOutcome::Delivered));
    let c = reg.get(7).unwrap();
    assert_eq!(c.log_len(), 2);
    assert_eq!(c.last_seq(), 2);
    assert_eq!(c.log_entry(0).seq, 1);
    assert_eq!(c.log_entry(1).seq, 2);
    match &c.log_entry(1).event {
        ChannelEvent::Message { sender, body } => {
            assert_eq!(*sender, 2);
            assert_eq!(body, "b");
        },
        _ => panic!("expected a chat message"),
    }
}

#[test]
fn gap_is_detected_and_resync_requested_before_delivery() {
    // Sequence numbers [1, 2, 3, 5]: the gap at 5 must be detected and a
    // resync issued from 4, without delivering message 5.
    let mut reg = ChannelRegistry::new();
    reg.join(1).unwrap();
    assert!(matches!(reg.deliver(1, 1, msg(9, "m1")), DeliverOutcome::Delivered));
    assert!(matches!(reg.deliver(1, 2, msg(9, "m2")), DeliverOutcome::Delivered));
    assert!(matches!(reg.deliver(1, 3, msg(9, "m3")), DeliverOutcome::Delivered));
    match reg.deliver(1, 5, msg(9, "m5")) {
        DeliverOutcome::Gap { resync_from } => assert_eq!(resync_from, 4),
        other => panic!("expected a gap, got {:?}", other),
    }
    let c = reg.get(1).unwrap();
    assert_eq!(c.log_len(), 3);
    assert_eq!(c.last_seq(), 3);
    // Replay fills the gap; delivery resumes in order.
    assert!(matches!(reg.deliver(1, 4, msg(9, "m4")), DeliverOutcome::Delivered));
    assert!(matches!(reg.deliver(1, 5, msg(9, "m5")), DeliverOutcome::Delivered));
    assert_eq!(reg.get(1).unwrap().log_len(), 5);
}

#[test]
fn replayed_sequence_numbers_are_filtered() {
    let mut reg = ChannelRegistry::new();
    reg.join(3).unwrap();
    assert!(matches!(reg.deliver(3, 1, msg(4, "one")), DeliverOutcome::Delivered));
    assert!(matches!(reg.deliver(3, 1, msg(4, "one")), DeliverOutcome::Duplicate));
    assert!(matches!(reg.deliver(3, 1, msg(4, "other body, same seq")), DeliverOutcome::Duplicate));
    let c = reg.get(3).unwrap();
    assert_eq!(c.log_len(), 1);
    assert_eq!(c.last_seq(), 1);
}

#[test]
fn membership_events_update_the_member_set() {
    let mut reg = ChannelRegistry::new();
    reg.join(2).unwrap();
    assert!(matches!(
        reg.deliver(2, 1, ChannelEvent::MemberJoined { user: 10 }),
        DeliverOutcome::Delivered
    ));
    assert!(matches!(
        reg.deliver(2, 2, ChannelEvent::MemberJoined { user: 11 }),
        DeliverOutcome::Delivered
    ));
    {
        let c = reg.get(2).unwrap();
        assert_eq!(c.member_count(), 2);
        assert!(c.is_member(10));
        assert!(c.is_member(11));
    }
    assert!(matches!(
        reg.deliver(2, 3, ChannelEvent::MemberLeft { user: 10 }),
        DeliverOutcome::Delivered
    ));
    let c = reg.get(2).unwrap();
    assert_eq!(c.member_count(), 1);
    assert!(!c.is_member(10));
    assert!(c.is_member(11));
    // Membership events share the message sequence: the log holds all three.
    assert_eq!(c.log_len(), 3);
}

#[test]
fn joining_twice_is_refused() {
    let mut reg = ChannelRegistry::new();
    assert!(reg.join(5).is_ok());
    assert_eq!(reg.join(5), Err(JoinError::AlreadyJoined));
    assert_eq!(reg.len(), 1);
}

#[test]
fn leaving_destroys_the_channel_and_its_log() {
    let mut reg = ChannelRegistry::new();
    reg.join(5).unwrap();
    reg.deliver(5, 1, msg(1, "ephemeral"));
    assert!(reg.leave(5));
    assert!(!reg.is_joined(5));
    assert!(!reg.leave(5));
    // Re-joining starts from scratch.
    reg.join(5).unwrap();
    assert_eq!(reg.get(5).unwrap().log_len(), 0);
}

#[test]
fn unknown_channel_pushes_are_dropped() {
    let mut reg = ChannelRegistry::new();
    reg.join(1).unwrap();
    assert!(matches!(reg.deliver(99, 1, msg(1, "nobody home")), DeliverOutcome::UnknownChannel));
    assert_eq!(reg.get(1).unwrap().log_len(), 0);
}

#[test]
fn replay_plan_lists_every_channel_with_its_last_seq() {
    let mut reg = ChannelRegistry::new();
    reg.join(1).unwrap();
    reg.join(2).unwrap();
    reg.deliver(1, 1, msg(1, "a"));
    reg.deliver(1, 2, msg(1, "b"));
    reg.deliver(2, 1, msg(1, "c"));
    let plan = reg.replay_plan();
    assert_eq!(plan, vec![(1, 2), (2, 1)]);
}
