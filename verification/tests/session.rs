use collab_core::channel::DeliverOutcome;
use collab_core::protocol::AuthError;
use collab_core::protocol::ChannelEvent;
use collab_core::protocol::ConnectionState;
use collab_core::protocol::Frame;
use collab_core::protocol::Identity;
use collab_core::protocol::JoinError;
use collab_core::protocol::PushEvent;
use collab_core::protocol::SendError;
use collab_core::session::BackoffPolicy;
use collab_core::session::FrameOutcome;
use collab_core::session::Session;
use collab_core::worktree::Diff;
use collab_core::worktree::DiffOp;
use collab_core::worktree::EntryKind;
use collab_core::worktree::FileEntry;

fn policy() -> BackoffPolicy {
    BackoffPolicy { base_delay: 100, max_delay: 1000 }
}

fn identity() -> Identity {
    Identity { user_id: 42, token: String::from("opaque-proof-of-identity") }
}

fn connect_fully(s: &mut Session) {
    assert!(s.connect());
    s.on_socket_established();
    assert_eq!(s.state(), ConnectionState::Authenticating);
    s.on_auth_success(identity());
    assert_eq!(s.state(), ConnectionState::Connected);
}

fn chat_push(channel_id: u64, seq: u64, sender: u64, body: &str) -> Frame {
    Frame::Push {
        event: PushEvent::Channel {
            channel_id,
            seq,
            event: ChannelEvent::Message { sender, body: String::from(body) },
        },
    }
}

#[test]
fn a_session_begins_disconnected() {
    let s = Session::new(policy());
    assert_eq!(s.state(), ConnectionState::Disconnected);
    assert!(s.current_identity().is_none());
}

#[test]
fn the_lifecycle_follows_the_state_machine() {
    let mut s = Session::new(policy());
    assert!(s.connect());
    assert_eq!(s.state(), ConnectionState::Connecting);
    // Connecting again while in progress changes nothing.
    assert!(!s.connect());
    s.on_socket_established();
    assert_eq!(s.state(), ConnectionState::Authenticating);
    s.on_auth_success(identity());
    assert_eq!(s.state(), ConnectionState::Connected);
    assert_eq!(s.current_identity().as_ref().unwrap().user_id, 42);
}

#[test]
fn credential_rejection_is_terminal() {
    let mut s = Session::new(policy());
    s.connect();
    s.on_socket_established();
    let delay = s.on_auth_failure(AuthError::CredentialRejected, 0);
    assert_eq!(delay, None);
    assert_eq!(s.state(), ConnectionState::Failed);
    // The user may deliberately retry from the terminal state.
    assert!(s.connect());
}

#[test]
fn auth_timeouts_reconnect_with_capped_exponential_backoff() {
    let mut s = Session::new(policy());
    let mut expected = vec![100u64, 200, 400, 800, 1000, 1000];
    expected.reverse();
    for _ in 0..6 {
        s.connect();
        s.on_socket_established();
        let delay = s.on_auth_failure(AuthError::Timeout, 0).unwrap();
        assert_eq!(delay, expected.pop().unwrap());
        assert_eq!(s.state(), ConnectionState::Reconnecting);
    }
    // Jitter is added on top of the capped delay.
    s.connect();
    s.on_socket_established();
    let delay = s.on_auth_failure(AuthError::ConnectionLost, 33).unwrap();
    assert_eq!(delay, 1033);
}

#[test]
fn calls_resolve_with_the_response_bearing_their_own_id() {
    let mut s = Session::new(policy());
    connect_fully(&mut s);
    let (id1, _f1) = s.call(String::from("req one"), 500).unwrap();
    let (id2, _f2) = s.call(String::from("req two"), 500).unwrap();
    assert_ne!(id1, id2);
    // Responses may arrive out of issue order; matching is strictly by id.
    match s.on_frame(Frame::Response { id: id2, body: String::from("answer two") }, 1) {
        FrameOutcome::Resolved { id, body } => {
            assert_eq!(id, id2);
            assert_eq!(body, "answer two");
        },
        other => panic!("expected a resolution, got {:?}", other),
    }
    // The same id never resolves twice.
    assert!(matches!(
        s.on_frame(Frame::Response { id: id2, body: String::from("again") }, 2),
        FrameOutcome::StaleResponse { .. }
    ));
    // The other call is still open and resolves normally.
    assert!(matches!(
        s.on_frame(Frame::Response { id: id1, body: String::from("answer one") }, 3),
        FrameOutcome::Resolved { .. }
    ));
}

#[test]
fn connection_loss_fails_every_open_request_and_stale_ids_stay_dead() {
    let mut s = Session::new(policy());
    connect_fully(&mut s);
    let (id1, _) = s.call(String::from("one"), 500).unwrap();
    let (id2, _) = s.call(String::from("two"), 500).unwrap();
    let (failed, delay) = s.on_transport_lost(0);
    assert_eq!(failed, vec![id1, id2]);
    assert_eq!(delay, 100);
    assert_eq!(s.state(), ConnectionState::Reconnecting);
    // After reconnection, a frame bearing a stale id resolves nothing.
    connect_fully(&mut s);
    assert!(matches!(
        s.on_frame(Frame::Response { id: id1, body: String::from("late") }, 9),
        FrameOutcome::StaleResponse { .. }
    ));
}

#[test]
fn calls_require_a_connection() {
    let mut s = Session::new(policy());
    assert!(matches!(s.call(String::from("too early"), 10), Err(SendError::NotConnected)));
    assert_eq!(s.join_channel(1), Err(JoinError::NotConnected));
    assert!(matches!(
        s.send_message(1, String::from("hi"), 10),
        Err(SendError::NotConnected)
    ));
}

#[test]
fn sending_needs_a_joined_channel() {
    let mut s = Session::new(policy());
    connect_fully(&mut s);
    assert!(matches!(
        s.send_message(1, String::from("hi"), 10),
        Err(SendError::NotJoined)
    ));
    s.join_channel(1).unwrap();
    assert_eq!(s.join_channel(1), Err(JoinError::AlreadyJoined));
    let (_id, frame) = s.send_message(1, String::from("hi"), 10).unwrap();
    assert!(matches!(frame, Frame::Request { .. }));
}

#[test]
fn timeouts_are_surfaced_per_call() {
    let mut s = Session::new(policy());
    connect_fully(&mut s);
    let (id1, _) = s.call(String::from("slow"), 50).unwrap();
    let (_id2, _) = s.call(String::from("patient"), 5000).unwrap();
    let timed_out = s.expire_calls(100);
    assert_eq!(timed_out, vec![id1]);
}

#[test]
fn closing_cancels_everything() {
    let mut s = Session::new(policy());
    connect_fully(&mut s);
    let (id1, _) = s.call(String::from("pending"), 500).unwrap();
    s.join_channel(1).unwrap();
    let cancelled = s.close();
    assert_eq!(cancelled, vec![id1]);
    assert_eq!(s.state(), ConnectionState::Disconnected);
    assert!(s.current_identity().is_none());
    assert!(s.channel(1).is_none());
}

#[test]
fn heartbeats_refresh_liveness() {
    let mut s = Session::new(policy());
    connect_fully(&mut s);
    assert!(matches!(s.on_frame(Frame::Heartbeat, 100), FrameOutcome::HeartbeatAck));
    assert!(!s.heartbeat_lapsed(130, 50));
    assert!(s.heartbeat_lapsed(151, 50));
    assert!(matches!(s.on_frame(Frame::Heartbeat, 151), FrameOutcome::HeartbeatAck));
    assert!(!s.heartbeat_lapsed(160, 50));
}

#[test]
fn authenticate_join_send_drop_and_replay_yields_one_message() {
    // End to end: authenticate, join a channel, send "hi"; the local log
    // holds exactly one message with an assigned sequence number. A transport
    // drop, reconnection and replay yield the same single message, not two.
    let mut s = Session::new(policy());
    connect_fully(&mut s);
    s.join_channel(1).unwrap();
    let (send_id, _frame) = s.send_message(1, String::from("hi"), 500).unwrap();
    // The server acknowledges the request and pushes the message back with
    // its assigned sequence number.
    assert!(matches!(
        s.on_frame(Frame::Response { id: send_id, body: String::from("sent") }, 1),
        FrameOutcome::Resolved { .. }
    ));
    assert!(matches!(
        s.on_frame(chat_push(1, 1, 42, "hi"), 2),
        FrameOutcome::ChannelDelivery { outcome: DeliverOutcome::Delivered }
    ));
    {
        let c = s.channel(1).unwrap();
        assert_eq!(c.log_len(), 1);
        match &c.log_entry(0).event {
            ChannelEvent::Message { body, .. } => assert_eq!(body, "hi"),
            _ => panic!("expected the chat message at sequence {}", c.log_entry(0).seq),
        }
    }
    // Transport drop, reconnection: the plan re-joins the channel and asks
    // replay from the last observed sequence number.
    let (_failed, _delay) = s.on_transport_lost(0);
    assert!(s.connect());
    s.on_socket_established();
    let plan = s.on_auth_success(identity());
    assert_eq!(plan.channels, vec![(1, 1)]);
    // Replay re-delivers the already-seen message: filtered, not duplicated.
    assert!(matches!(
        s.on_frame(chat_push(1, 1, 42, "hi"), 10),
        FrameOutcome::ChannelDelivery { outcome: DeliverOutcome::Duplicate }
    ));
    let c = s.channel(1).unwrap();
    assert_eq!(c.log_len(), 1);
    assert_eq!(c.last_seq(), 1);
}

#[test]
fn worktree_pushes_route_by_project_and_mismatches_ask_for_refetch() {
    let mut s = Session::new(policy());
    connect_fully(&mut s);
    assert!(s.add_worktree(7));
    assert!(!s.add_worktree(7));
    let good = Frame::Push {
        event: PushEvent::Worktree {
            project_id: 7,
            diff: Diff {
                base_version: 0,
                ops: vec![DiffOp::Insert {
                    entry: FileEntry {
                        path: b"a.rs".to_vec(),
                        kind: EntryKind::File,
                        fingerprint: 1,
                        mtime: 5,
                    },
                }],
            },
        },
    };
    assert!(matches!(s.on_frame(good, 1), FrameOutcome::WorktreeApplied { .. }));
    assert_eq!(s.current_worktree_snapshot(7).unwrap().version(), 1);
    // A stale diff is rejected; the snapshot stays put.
    let stale = Frame::Push {
        event: PushEvent::Worktree {
            project_id: 7,
            diff: Diff { base_version: 0, ops: vec![] },
        },
    };
    match s.on_frame(stale, 2) {
        FrameOutcome::WorktreeRejected { error } => {
            assert_eq!(error, collab_core::protocol::DiffError::VersionMismatch)
        },
        other => panic!("expected a rejection, got {:?}", other),
    }
    assert_eq!(s.current_worktree_snapshot(7).unwrap().version(), 1);
    // A push for an untracked project is dropped, never fatal.
    let unknown = Frame::Push {
        event: PushEvent::Worktree {
            project_id: 99,
            diff: Diff { base_version: 0, ops: vec![] },
        },
    };
    assert!(matches!(s.on_frame(unknown, 3), FrameOutcome::UnknownWorktree));
}
