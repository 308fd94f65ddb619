//! Wire-level and session-level value types: connection lifecycle states,
//! typed frames, channel events, and the error taxonomy.

use vstd::prelude::*;

use crate::worktree::Diff;

verus! {

/// Lifecycle of the one physical link a session owns.
#[derive(Clone, Copy, PartialEq, Eq, Structural, Debug)]
pub enum ConnectionState {
    Disconnected,
    Connecting,
    Authenticating,
    Connected,
    Reconnecting,
    Failed,
}

/// An authenticated local identity: opaque token plus user id, immutable
/// once obtained.
pub struct Identity {
    pub user_id: u64,
    pub token: String,
}

/// Authentication failures. `CredentialRejected` is terminal; the other two
/// trigger reconnection with backoff.
#[derive(Clone, Copy, PartialEq, Eq, Structural, Debug)]
pub enum AuthError {
    CredentialRejected,
    Timeout,
    ConnectionLost,
}

/// Per-call request failures, surfaced to the caller of that one call only.
#[derive(Clone, Copy, PartialEq, Eq, Structural, Debug)]
pub enum RequestError {
    Cancelled,
    ConnectionLost,
    Timeout,
}

/// Failures when joining a channel.
#[derive(Clone, Copy, PartialEq, Eq, Structural, Debug)]
pub enum JoinError {
    AlreadyJoined,
    NotConnected,
}

/// Failures when sending a message on a channel.
#[derive(Clone, Copy, PartialEq, Eq, Structural, Debug)]
pub enum SendError {
    NotJoined,
    NotConnected,
}

/// Failures when applying a remote worktree diff.
#[derive(Clone, Copy, PartialEq, Eq, Structural, Debug)]
pub enum DiffError {
    VersionMismatch,
    Malformed,
}

/// One typed event on a channel, interleaved with chat messages in the same
/// server-assigned sequence.
pub enum ChannelEvent {
    Message { sender: u64, body: String },
    MemberJoined { user: u64 },
    MemberLeft { user: u64 },
}

/// An unsolicited server push, routed by its tag to the channel registry or
/// a worktree synchronizer.
pub enum PushEvent {
    Channel { channel_id: u64, seq: u64, event: ChannelEvent },
    Worktree { project_id: u64, diff: Diff },
}

/// One typed unit of wire communication.
pub enum Frame {
    Request { id: u64, body: String },
    Response { id: u64, body: String },
    Push { event: PushEvent },
    Heartbeat,
}

} // verus!
