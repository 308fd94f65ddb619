//! The composition root: one session owns the connection lifecycle state,
//! the authenticated identity, the request dispatcher, the channel registry
//! and the worktree synchronizers, and routes every inbound frame. Transport
//! failures are handled once here: they drain the open requests and drive
//! reconnection with capped exponential backoff, after which channels are
//! re-joined with replay and worktrees are refetched in full.

use vstd::prelude::*;

use crate::channel::vec_index_mut;
use crate::channel::ChannelRegistry;
use crate::channel::ChannelView;
use crate::channel::DeliverOutcome;
use crate::channel::deliver_step;
use crate::channel::fresh_channel;
use crate::channel::has_channel;
use crate::channel::channel_index;
use crate::dispatcher::call_step;
use crate::dispatcher::drain_step;
use crate::dispatcher::expire_step;
use crate::dispatcher::resolve_step;
use crate::dispatcher::DispatcherView;
use crate::dispatcher::RequestDispatcher;
use crate::protocol::AuthError;
use crate::protocol::ConnectionState;
use crate::protocol::DiffError;
use crate::protocol::Frame;
use crate::protocol::Identity;
use crate::protocol::JoinError;
use crate::protocol::PushEvent;
use crate::protocol::SendError;
use crate::worktree::apply_step;
use crate::worktree::dirty_rebroadcast;
use crate::worktree::local_change_step;
use crate::worktree::FileEntry;
use crate::worktree::Worktree;
use crate::worktree::WorktreeView;

verus! {

/// Reconnection backoff parameters: base delay, and the cap the delay never
/// exceeds. Retries are unbounded; only the delay is capped.
#[derive(Clone, Copy, PartialEq, Eq, Structural, Debug)]
pub struct BackoffPolicy {
    pub base_delay: u64,
    pub max_delay: u64,
}

impl BackoffPolicy {
    /// The cap dominates the base, and leaves room for jitter on top.
    pub open spec fn wf(self) -> bool {
        1 <= self.base_delay <= self.max_delay <= u64::MAX / 2
    }
}

/// Two to the given power.
pub open spec fn pow2(n: nat) -> int
    decreases n,
{
    if n == 0 {
        1
    } else {
        2 * pow2((n - 1) as nat)
    }
}

/// The backoff delay before retry number `attempt`: the base delay doubled
/// per failed attempt, capped.
pub open spec fn capped_delay(policy: BackoffPolicy, attempt: nat) -> int {
    if policy.base_delay * pow2(attempt) >= policy.max_delay {
        policy.max_delay as int
    } else {
        policy.base_delay * pow2(attempt)
    }
}

/// The capped exponential delay, with the caller's jitter added.
pub fn backoff_delay(policy: &BackoffPolicy, attempt: u32, jitter: u64) -> (r: u64)
    requires
        policy.wf(),
        jitter <= policy.max_delay,
    ensures
        r == capped_delay(*policy, attempt as nat) + jitter,
{
    let mut delay: u64 = policy.base_delay;
    let mut i: u32 = 0;
    while i < attempt
        invariant
            i <= attempt,
            policy.wf(),
            delay as int == capped_delay(*policy, i as nat),
            delay <= policy.max_delay,
        decreases attempt - i,
    {
        proof {
            assert(pow2((i + 1) as nat) == 2 * pow2(i as nat));
            assert(policy.base_delay * (2 * pow2(i as nat)) == 2 * (policy.base_delay * pow2(
                i as nat,
            ))) by (nonlinear_arith);
            assert(pow2(i as nat) >= 1) by {
                lemma_pow2_positive(i as nat);
            }
            assert(policy.base_delay * pow2(i as nat) >= policy.base_delay * 1)
                by (nonlinear_arith)
                requires pow2(i as nat) >= 1 && policy.base_delay >= 1;
        }
        let doubled = delay * 2;
        if doubled >= policy.max_delay {
            delay = policy.max_delay;
        } else {
            delay = doubled;
        }
        i = i + 1;
    }
    delay + jitter
}

/// Two to any power is positive.
pub proof fn lemma_pow2_positive(n: nat)
    ensures
        pow2(n) >= 1,
    decreases n,
{
    if n > 0 {
        lemma_pow2_positive((n - 1) as nat);
    }
}

/// What a session promises to do after authentication succeeds: re-join
/// every tracked channel, requesting replay from its last locally observed
/// sequence number, and refetch every worktree's snapshot in full.
pub struct ReconnectPlan {
    /// Each tracked channel's id, paired with the sequence number replay is
    /// requested from.
    pub channels: Vec<(u64, u64)>,
    /// Each tracked project id, whose snapshot is refetched in full.
    pub worktrees: Vec<u64>,
}

/// What routing one inbound frame came to.
#[derive(Debug)]
pub enum FrameOutcome {
    /// A response resolved the open request bearing its id; the body goes to
    /// that one caller.
    Resolved { id: u64, body: String },
    /// A response bore an id that is not open (already resolved, failed, or
    /// from before a reconnection): dropped.
    StaleResponse { id: u64 },
    /// A channel push was routed to the registry.
    ChannelDelivery { outcome: DeliverOutcome },
    /// A worktree diff applied; the returned dirty paths are re-broadcast.
    WorktreeApplied { rebroadcast: Vec<Vec<u8>> },
    /// A worktree diff was rejected; on `VersionMismatch` the caller
    /// refetches the full snapshot.
    WorktreeRejected { error: DiffError },
    /// A worktree push named an untracked project: dropped, never fatal.
    UnknownWorktree,
    /// A heartbeat: inbound liveness is refreshed.
    HeartbeatAck,
    /// An inbound request frame: servers do not issue requests; dropped.
    Ignored,
}

/// Mathematical model of a session.
#[verifier::ext_equal]
pub struct SessionView {
    pub state: ConnectionState,
    pub identity: Option<Identity>,
    pub dispatcher: DispatcherView,
    pub channels: Seq<ChannelView>,
    pub worktrees: Seq<WorktreeView>,
    pub policy: BackoffPolicy,
    pub attempts: u32,
    pub last_inbound: u64,
}

/// Is a worktree for this project tracked?
pub open spec fn has_worktree(ws: Seq<WorktreeView>, project_id: u64) -> bool {
    exists|i: int| 0 <= i < ws.len() && ws[i].project_id == project_id
}

/// The position of the worktree for this project.
pub open spec fn worktree_index(ws: Seq<WorktreeView>, project_id: u64) -> int {
    choose|i: int| 0 <= i < ws.len() && ws[i].project_id == project_id
}

impl SessionView {
    /// Components well-formed; channel ids and project ids unique.
    pub open spec fn wf(self) -> bool {
        &&& self.dispatcher.wf()
        &&& forall|i: int, j: int|
            0 <= i < j < self.channels.len() ==> self.channels[i].id != self.channels[j].id
        &&& forall|i: int| 0 <= i < self.channels.len() ==> (#[trigger] self.channels[i]).wf()
        &&& forall|i: int, j: int|
            0 <= i < j < self.worktrees.len() ==> self.worktrees[i].project_id
                != self.worktrees[j].project_id
        &&& self.policy.wf()
    }
}

/// The live collaboration context for one local identity.
pub struct Session {
    state: ConnectionState,
    identity: Option<Identity>,
    dispatcher: RequestDispatcher,
    channels: ChannelRegistry,
    worktrees: Vec<Worktree>,
    policy: BackoffPolicy,
    attempts: u32,
    last_inbound: u64,
}

impl View for Session {
    type V = SessionView;

    closed spec fn view(&self) -> SessionView {
        SessionView {
            state: self.state,
            identity: self.identity,
            dispatcher: self.dispatcher@,
            channels: self.channels@,
            worktrees: self.worktrees@.map_values(|w: Worktree| w@),
            policy: self.policy,
            attempts: self.attempts,
            last_inbound: self.last_inbound,
        }
    }
}

impl Session {
    /// The session's invariant, stated on its model.
    pub open spec fn inv(self) -> bool {
        self@.wf()
    }

    /// A fresh session: disconnected, unauthenticated, nothing tracked.
    pub fn new(policy: BackoffPolicy) -> (s: Self)
        requires
            policy.wf(),
        ensures
            s@.state == ConnectionState::Disconnected,
            s@.identity == Option::<Identity>::None,
            s@.dispatcher.pending == Seq::<crate::dispatcher::PendingRequest>::empty(),
            s@.dispatcher.retired == Set::<u64>::empty(),
            s@.channels == Seq::<ChannelView>::empty(),
            s@.worktrees == Seq::<WorktreeView>::empty(),
            s@.policy == policy,
            s@.attempts == 0,
            s.inv(),
    {
        let s = Session {
            state: ConnectionState::Disconnected,
            identity: None,
            dispatcher: RequestDispatcher::new(),
            channels: ChannelRegistry::new(),
            worktrees: Vec::new(),
            policy,
            attempts: 0,
            last_inbound: 0,
        };
        proof {
            assert(s@.worktrees =~= Seq::<WorktreeView>::empty());
        }
        s
    }

    /// The current lifecycle state.
    pub fn state(&self) -> (r: ConnectionState)
        ensures
            r == self@.state,
    {
        self.state
    }

    /// The authenticated identity, once obtained.
    pub fn current_identity(&self) -> (r: &Option<Identity>)
        ensures
            *r == self@.identity,
    {
        &self.identity
    }

    /// Can another request id still be assigned?
    pub fn can_call(&self) -> (r: bool)
        ensures
            r == (self@.dispatcher.next_id < u64::MAX),
    {
        self.dispatcher.has_capacity()
    }

    /// The configured backoff policy.
    pub fn backoff_policy(&self) -> (r: BackoffPolicy)
        ensures
            r == self@.policy,
    {
        self.policy
    }

    /// Ask for a connection: only meaningful when no link exists or the last
    /// one failed; an existing or in-progress link is kept.
    pub fn connect(&mut self) -> (started: bool)
        ensures
            final(self)@ == (SessionView { state: final(self)@.state, ..old(self)@ }),
            started == (old(self)@.state == ConnectionState::Disconnected || old(self)@.state
                == ConnectionState::Failed || old(self)@.state == ConnectionState::Reconnecting),
            started ==> final(self)@.state == ConnectionState::Connecting,
            !started ==> final(self)@.state == old(self)@.state,
    {
        match self.state {
            ConnectionState::Disconnected | ConnectionState::Failed
                | ConnectionState::Reconnecting => {
                self.state = ConnectionState::Connecting;
                true
            },
            _ => false,
        }
    }

    /// The socket is established: authentication begins. In any state but
    /// `Connecting` the notification is stale and ignored.
    pub fn on_socket_established(&mut self)
        ensures
            final(self)@ == (SessionView { state: final(self)@.state, ..old(self)@ }),
            old(self)@.state == ConnectionState::Connecting ==> final(self)@.state
                == ConnectionState::Authenticating,
            old(self)@.state != ConnectionState::Connecting ==> final(self)@.state == old(
                self,
            )@.state,
    {
        if matches!(self.state, ConnectionState::Connecting) {
            self.state = ConnectionState::Authenticating;
        }
    }

    /// The credential proof was accepted: the session becomes `Connected`
    /// under this identity, the failed-attempt count resets, and the caller
    /// receives the reconnect plan: re-join every tracked channel with replay
    /// from its last observed sequence number, refetch every worktree.
    pub fn on_auth_success(&mut self, identity: Identity) -> (plan: ReconnectPlan)
        requires
            old(self).inv(),
            old(self)@.state == ConnectionState::Authenticating,
        ensures
            final(self).inv(),
            final(self)@ == (SessionView {
                state: ConnectionState::Connected,
                identity: Some(identity),
                attempts: 0,
                ..old(self)@
            }),
            plan.channels@.len() == old(self)@.channels.len(),
            forall|k: int|
                0 <= k < old(self)@.channels.len() ==> plan.channels@[k] == ((
                #[trigger] old(self)@.channels[k]).id, old(self)@.channels[k].last_seq),
            plan.worktrees@.len() == old(self)@.worktrees.len(),
            forall|k: int|
                0 <= k < old(self)@.worktrees.len() ==> plan.worktrees@[k] == (
                #[trigger] old(self)@.worktrees[k]).project_id,
    {
        self.state = ConnectionState::Connected;
        self.identity = Some(identity);
        self.attempts = 0;
        let channels = self.channels.replay_plan();
        let mut worktrees: Vec<u64> = Vec::new();
        let mut i: usize = 0;
        while i < self.worktrees.len()
            invariant
                i <= self.worktrees.len(),
                worktrees@.len() == i,
                forall|k: int|
                    0 <= k < i ==> worktrees@[k] == (#[trigger] self@.worktrees[k]).project_id,
                self@.worktrees == old(self)@.worktrees,
            decreases self.worktrees.len() - i,
        {
            let w = &self.worktrees[i];
            worktrees.push(w.project_id());
            i = i + 1;
        }
        ReconnectPlan { channels, worktrees }
    }

    /// The credential proof failed. Rejection is terminal: the session fails
    /// and no retry is scheduled. A timeout or transport loss schedules a
    /// reconnection attempt: the returned delay is the capped exponential
    /// backoff (plus the caller's jitter) to wait before connecting again.
    pub fn on_auth_failure(&mut self, error: AuthError, jitter: u64) -> (delay: Option<u64>)
        requires
            old(self).inv(),
            old(self)@.state == ConnectionState::Authenticating,
            jitter <= old(self)@.policy.max_delay,
        ensures
            final(self).inv(),
            final(self)@ == (SessionView {
                state: final(self)@.state,
                attempts: final(self)@.attempts,
                ..old(self)@
            }),
            error == AuthError::CredentialRejected ==> final(self)@.state
                == ConnectionState::Failed && delay.is_none() && final(self)@.attempts == old(
                self,
            )@.attempts,
            error != AuthError::CredentialRejected ==> final(self)@.state
                == ConnectionState::Reconnecting && final(self)@.attempts == saturating_inc(
                old(self)@.attempts,
            ) && delay == Some(
                (capped_delay(old(self)@.policy, old(self)@.attempts as nat) + jitter) as u64,
            ),
    {
        match error {
            AuthError::CredentialRejected => {
                self.state = ConnectionState::Failed;
                None
            },
            _ => {
                self.state = ConnectionState::Reconnecting;
                let delay = backoff_delay(&self.policy, self.attempts, jitter);
                if self.attempts < u32::MAX {
                    self.attempts = self.attempts + 1;
                }
                Some(delay)
            },
        }
    }

    /// The transport failed: every open request fails with `ConnectionLost`
    /// exactly once (their ids are returned, in registration order, never to
    /// resolve again), and a reconnection attempt is scheduled after the
    /// returned backoff delay. Channel logs and worktrees are kept: replay
    /// and refetch reconcile them after the re-connect.
    pub fn on_transport_lost(&mut self, jitter: u64) -> (r: (Vec<u64>, u64))
        requires
            old(self).inv(),
            jitter <= old(self)@.policy.max_delay,
        ensures
            final(self).inv(),
            final(self)@ == (SessionView {
                state: ConnectionState::Reconnecting,
                dispatcher: drain_step(old(self)@.dispatcher).0,
                attempts: saturating_inc(old(self)@.attempts),
                ..old(self)@
            }),
            r.0@ == drain_step(old(self)@.dispatcher).1,
            r.1 == capped_delay(old(self)@.policy, old(self)@.attempts as nat) + jitter,
    {
        self.state = ConnectionState::Reconnecting;
        let failed = self.dispatcher.drain_pending();
        let delay = backoff_delay(&self.policy, self.attempts, jitter);
        if self.attempts < u32::MAX {
            self.attempts = self.attempts + 1;
        }
        (failed, delay)
    }

    /// Close the session: every open request is cancelled exactly once
    /// (their ids are returned), every channel pump stops and the tracked
    /// channels are dropped, and the connection is released.
    pub fn close(&mut self) -> (cancelled: Vec<u64>)
        requires
            old(self).inv(),
        ensures
            final(self).inv(),
            final(self)@ == (SessionView {
                state: ConnectionState::Disconnected,
                identity: None,
                dispatcher: drain_step(old(self)@.dispatcher).0,
                channels: Seq::<ChannelView>::empty(),
                ..old(self)@
            }),
            cancelled@ == drain_step(old(self)@.dispatcher).1,
    {
        self.state = ConnectionState::Disconnected;
        self.identity = None;
        let cancelled = self.dispatcher.drain_pending();
        self.channels = ChannelRegistry::new();
        cancelled
    }

    /// Issue a request: a fresh id is registered with the given deadline and
    /// the frame to serialize onto the connection is returned. Refused unless
    /// the session is connected.
    pub fn call(&mut self, body: String, deadline: u64) -> (r: Result<(u64, Frame), SendError>)
        requires
            old(self).inv(),
            old(self)@.dispatcher.next_id < u64::MAX,
        ensures
            final(self).inv(),
            old(self)@.state != ConnectionState::Connected ==> r == Err::<(u64, Frame), SendError>(
                SendError::NotConnected,
            ) && final(self)@ == old(self)@,
            old(self)@.state == ConnectionState::Connected ==> {
                &&& final(self)@ == (SessionView {
                    dispatcher: call_step(old(self)@.dispatcher, deadline).0,
                    ..old(self)@
                })
                &&& r matches Ok((id, frame)) && id == call_step(
                    old(self)@.dispatcher,
                    deadline,
                ).1 && frame == (Frame::Request { id, body })
            },
    {
        if !matches!(self.state, ConnectionState::Connected) {
            return Err(SendError::NotConnected);
        }
        let id = self.dispatcher.call(deadline);
        Ok((id, Frame::Request { id, body }))
    }

    /// Time out every open request whose deadline lies before `now`: their
    /// ids are returned; each fails with `Timeout` exactly once.
    pub fn expire_calls(&mut self, now: u64) -> (timed_out: Vec<u64>)
        requires
            old(self).inv(),
        ensures
            final(self).inv(),
            final(self)@ == (SessionView {
                dispatcher: expire_step(old(self)@.dispatcher, now).0,
                ..old(self)@
            }),
            timed_out@ == expire_step(old(self)@.dispatcher, now).1,
    {
        self.dispatcher.expire(now)
    }

    /// Join a channel: tracked locally so inbound events can be delivered.
    /// Refused when not connected or already joined.
    pub fn join_channel(&mut self, channel_id: u64) -> (r: Result<(), JoinError>)
        requires
            old(self).inv(),
        ensures
            final(self).inv(),
            old(self)@.state != ConnectionState::Connected ==> r == Err::<(), JoinError>(
                JoinError::NotConnected,
            ) && final(self)@ == old(self)@,
            old(self)@.state == ConnectionState::Connected ==> {
                &&& has_channel(old(self)@.channels, channel_id) ==> r == Err::<(), JoinError>(
                    JoinError::AlreadyJoined,
                ) && final(self)@ == old(self)@
                &&& !has_channel(old(self)@.channels, channel_id) ==> r is Ok
                    && final(self)@ == (SessionView {
                    channels: old(self)@.channels.push(fresh_channel(channel_id)),
                    ..old(self)@
                })
            },
    {
        if !matches!(self.state, ConnectionState::Connected) {
            return Err(JoinError::NotConnected);
        }
        let r = self.channels.join(channel_id);
        proof {
            match r {
                Ok(()) => {
                    assert(self@ =~= (SessionView {
                        channels: old(self)@.channels.push(fresh_channel(channel_id)),
                        ..old(self)@
                    }));
                },
                Err(_) => {
                    assert(self@ =~= old(self)@);
                },
            }
        }
        r
    }

    /// Leave a channel: it is dropped together with its ephemeral log.
    pub fn leave_channel(&mut self, channel_id: u64) -> (r: bool)
        requires
            old(self).inv(),
        ensures
            final(self).inv(),
            r == has_channel(old(self)@.channels, channel_id),
            r ==> final(self)@ == (SessionView {
                channels: old(self)@.channels.remove(
                    channel_index(old(self)@.channels, channel_id),
                ),
                ..old(self)@
            }),
            !r ==> final(self)@ == old(self)@,
    {
        self.channels.leave(channel_id)
    }

    /// Send a chat message on a joined channel: the message becomes a
    /// request (the server assigns its sequence number and pushes it back).
    /// Refused when not connected or not joined.
    pub fn send_message(&mut self, channel_id: u64, body: String, deadline: u64) -> (r: Result<
        (u64, Frame),
        SendError,
    >)
        requires
            old(self).inv(),
            old(self)@.dispatcher.next_id < u64::MAX,
        ensures
            final(self).inv(),
            old(self)@.state != ConnectionState::Connected ==> r == Err::<(u64, Frame), SendError>(
                SendError::NotConnected,
            ) && final(self)@ == old(self)@,
            old(self)@.state == ConnectionState::Connected && !has_channel(
                old(self)@.channels,
                channel_id,
            ) ==> r == Err::<(u64, Frame), SendError>(SendError::NotJoined) && final(self)@ == old(
                self,
            )@,
            old(self)@.state == ConnectionState::Connected && has_channel(
                old(self)@.channels,
                channel_id,
            ) ==> {
                &&& final(self)@ == (SessionView {
                    dispatcher: call_step(old(self)@.dispatcher, deadline).0,
                    ..old(self)@
                })
                &&& r matches Ok((id, frame)) && id == call_step(
                    old(self)@.dispatcher,
                    deadline,
                ).1 && frame == (Frame::Request { id, body })
            },
    {
        if !matches!(self.state, ConnectionState::Connected) {
            return Err(SendError::NotConnected);
        }
        if !self.channels.is_joined(channel_id) {
            return Err(SendError::NotJoined);
        }
        let id = self.dispatcher.call(deadline);
        Ok((id, Frame::Request { id, body }))
    }

    /// Track a worktree mirror for a project. Returns false when the project
    /// is already tracked.
    pub fn add_worktree(&mut self, project_id: u64) -> (r: bool)
        requires
            old(self).inv(),
        ensures
            final(self).inv(),
            r == !has_worktree(old(self)@.worktrees, project_id),
            r ==> final(self)@ == (SessionView {
                worktrees: old(self)@.worktrees.push(
                    (WorktreeView {
                        project_id,
                        version: 0,
                        entries: Seq::empty(),
                        dirty: Seq::empty(),
                    }),
                ),
                ..old(self)@
            }),
            !r ==> final(self)@ == old(self)@,
    {
        match self.find_worktree(project_id) {
            Some(_) => false,
            None => {
                self.worktrees.push(Worktree::new(project_id));
                proof {
                    assert(final(self)@.worktrees =~= old(self)@.worktrees.push(
                        (WorktreeView {
                            project_id,
                            version: 0,
                            entries: Seq::empty(),
                            dirty: Seq::empty(),
                        }),
                    ));
                    assert(forall|k: int|
                        0 <= k < old(self)@.worktrees.len() ==> final(self)@.worktrees[k] == old(
                            self,
                        )@.worktrees[k]);
                }
                true
            },
        }
    }

    /// The position of the tracked worktree for this project, if any.
    fn find_worktree(&self, project_id: u64) -> (r: Option<usize>)
        requires
            self.inv(),
        ensures
            match r {
                Some(i) => i < self@.worktrees.len() && self@.worktrees[i as int].project_id
                    == project_id && i == worktree_index(self@.worktrees, project_id)
                    && has_worktree(self@.worktrees, project_id),
                None => !has_worktree(self@.worktrees, project_id),
            },
    {
        let mut i: usize = 0;
        while i < self.worktrees.len()
            invariant
                i <= self.worktrees.len(),
                forall|k: int| 0 <= k < i ==> (#[trigger] self@.worktrees[k]).project_id
                    != project_id,
                self.inv(),
            decreases self.worktrees.len() - i,
        {
            if self.worktrees[i].project_id() == project_id {
                proof {
                    let ws = self@.worktrees;
                    assert(ws[i as int].project_id == project_id);
                    let j = worktree_index(ws, project_id);
                    assert(0 <= j < ws.len() && ws[j].project_id == project_id);
                    assert(j == i) by {
                        if j < i {
                            assert(ws[j].project_id != ws[i as int].project_id);
                        } else if j > i {
                            assert(ws[i as int].project_id != ws[j].project_id);
                        }
                    }
                }
                return Some(i);
            }
            i = i + 1;
        }
        proof {
            if has_worktree(self@.worktrees, project_id) {
                let j = worktree_index(self@.worktrees, project_id);
                assert(self@.worktrees[j].project_id != project_id);
            }
        }
        None
    }

    /// A borrow of the tracked worktree for this project, if any: the
    /// read-only current snapshot UI collaborators observe.
    pub fn current_worktree_snapshot(&self, project_id: u64) -> (r: Option<&Worktree>)
        requires
            self.inv(),
        ensures
            match r {
                Some(w) => has_worktree(self@.worktrees, project_id) && w@ == self@.worktrees[
                    worktree_index(self@.worktrees, project_id)],
                None => !has_worktree(self@.worktrees, project_id),
            },
    {
        match self.find_worktree(project_id) {
            Some(i) => Some(&self.worktrees[i]),
            None => None,
        }
    }

    /// A borrow of the joined channel with this id, if any.
    pub fn channel(&self, channel_id: u64) -> (r: Option<&crate::channel::Channel>)
        requires
            self.inv(),
        ensures
            match r {
                Some(c) => has_channel(self@.channels, channel_id) && c@ == self@.channels[
                    channel_index(self@.channels, channel_id)],
                None => !has_channel(self@.channels, channel_id),
            },
    {
        self.channels.get(channel_id)
    }

    /// Record a local filesystem change on a tracked project: the entry is
    /// written into the mirror and its path marked dirty. Returns false when
    /// the project is untracked.
    pub fn record_local_change(&mut self, project_id: u64, entry: FileEntry) -> (r: bool)
        requires
            old(self).inv(),
        ensures
            final(self).inv(),
            r == has_worktree(old(self)@.worktrees, project_id),
            !r ==> final(self)@ == old(self)@,
            r ==> {
                let wi = worktree_index(old(self)@.worktrees, project_id);
                final(self)@ == (SessionView {
                    worktrees: old(self)@.worktrees.update(
                        wi,
                        local_change_step(old(self)@.worktrees[wi], entry),
                    ),
                    ..old(self)@
                })
            },
    {
        match self.find_worktree(project_id) {
            Some(i) => {
                let ghost wi = worktree_index(old(self)@.worktrees, project_id);
                let w = vec_index_mut(&mut self.worktrees, i);
                w.record_local_change(entry);
                proof {
                    assert(self@.worktrees =~= old(self)@.worktrees.update(
                        wi,
                        local_change_step(old(self)@.worktrees[wi], entry),
                    ));
                }
                true
            },
            None => false,
        }
    }

    /// Route one inbound frame. A response resolves the open request bearing
    /// its id, exactly once, and never any other; a channel push is delivered
    /// in sequence order; a worktree push applies atomically or is rejected
    /// unchanged; unmatched pushes are dropped, never fatal. Only a connected
    /// session routes frames.
    pub fn on_frame(&mut self, frame: Frame, now: u64) -> (r: FrameOutcome)
        requires
            old(self).inv(),
            old(self)@.state == ConnectionState::Connected,
            forall|i: int|
                0 <= i < old(self)@.worktrees.len() ==> (#[trigger] old(self)@.worktrees[i]).version
                    < u64::MAX,
        ensures
            final(self).inv(),
            frame matches Frame::Response { id, body } ==> {
                &&& final(self)@ == (SessionView {
                    dispatcher: resolve_step(old(self)@.dispatcher, id).0,
                    ..old(self)@
                })
                &&& old(self)@.dispatcher.has_pending(id) ==> r == (FrameOutcome::Resolved {
                    id,
                    body,
                })
                &&& !old(self)@.dispatcher.has_pending(id) ==> r == (FrameOutcome::StaleResponse {
                    id,
                })
            },
            frame matches Frame::Push { event: PushEvent::Channel { channel_id, seq, event } }
                ==> {
                &&& has_channel(old(self)@.channels, channel_id) ==> {
                    let ci = channel_index(old(self)@.channels, channel_id);
                    final(self)@ == (SessionView {
                        channels: old(self)@.channels.update(
                            ci,
                            deliver_step(old(self)@.channels[ci], seq, event).0,
                        ),
                        ..old(self)@
                    }) && r == (FrameOutcome::ChannelDelivery {
                        outcome: deliver_step(old(self)@.channels[ci], seq, event).1,
                    })
                }
                &&& !has_channel(old(self)@.channels, channel_id) ==> final(self)@ == old(self)@
                    && r == (FrameOutcome::ChannelDelivery {
                    outcome: DeliverOutcome::UnknownChannel,
                })
            },
            frame matches Frame::Push { event: PushEvent::Worktree { project_id, diff } } ==> {
                &&& has_worktree(old(self)@.worktrees, project_id) ==> {
                    let wi = worktree_index(old(self)@.worktrees, project_id);
                    &&& final(self)@ == (SessionView {
                        worktrees: old(self)@.worktrees.update(
                            wi,
                            apply_step(old(self)@.worktrees[wi], diff.base_version, diff.ops@).0,
                        ),
                        ..old(self)@
                    })
                    &&& (apply_step(old(self)@.worktrees[wi], diff.base_version, diff.ops@).1
                        matches Err(e) ==> r == (FrameOutcome::WorktreeRejected { error: e }))
                    &&& (apply_step(old(self)@.worktrees[wi], diff.base_version, diff.ops@).1
                        is Ok ==> (r matches FrameOutcome::WorktreeApplied { rebroadcast }
                        && rebroadcast@.map_values(|p: Vec<u8>| p@) == dirty_rebroadcast(
                        old(self)@.worktrees[wi].dirty,
                        diff.ops@,
                    )))
                }
                &&& !has_worktree(old(self)@.worktrees, project_id) ==> final(self)@ == old(
                    self,
                )@ && r == FrameOutcome::UnknownWorktree
            },
            frame matches Frame::Heartbeat ==> final(self)@ == (SessionView {
                last_inbound: now,
                ..old(self)@
            }) && r == FrameOutcome::HeartbeatAck,
            frame matches Frame::Request { id, body } ==> final(self)@ == old(self)@ && r
                == FrameOutcome::Ignored,
    {
        match frame {
            Frame::Response { id, body } => {
                let delivered = self.dispatcher.handle_response(id);
                if delivered {
                    FrameOutcome::Resolved { id, body }
                } else {
                    FrameOutcome::StaleResponse { id }
                }
            },
            Frame::Push { event } => match event {
                PushEvent::Channel { channel_id, seq, event } => {
                    let outcome = self.channels.deliver(channel_id, seq, event);
                    FrameOutcome::ChannelDelivery { outcome }
                },
                PushEvent::Worktree { project_id, diff } => {
                    match self.find_worktree(project_id) {
                        Some(i) => {
                            let ghost wi = worktree_index(old(self)@.worktrees, project_id);
                            let w = vec_index_mut(&mut self.worktrees, i);
                            let applied = w.apply_remote(diff);
                            proof {
                                assert(self@.worktrees =~= old(self)@.worktrees.update(
                                    wi,
                                    self@.worktrees[wi],
                                ));
                            }
                            match applied {
                                Ok(rebroadcast) => FrameOutcome::WorktreeApplied { rebroadcast },
                                Err(error) => FrameOutcome::WorktreeRejected { error },
                            }
                        },
                        None => FrameOutcome::UnknownWorktree,
                    }
                },
            },
            Frame::Heartbeat => {
                self.last_inbound = now;
                FrameOutcome::HeartbeatAck
            },
            Frame::Request { .. } => FrameOutcome::Ignored,
        }
    }

    /// Has inbound liveness lapsed: no heartbeat (or other traffic) within
    /// the window? The caller treats a lapse as connection loss.
    pub fn heartbeat_lapsed(&self, now: u64, window: u64) -> (r: bool)
        ensures
            r == (now > self@.last_inbound + window),
    {
        if now <= self.last_inbound {
            false
        } else {
            now - self.last_inbound > window
        }
    }
}

/// One more failed attempt, saturating.
pub open spec fn saturating_inc(n: u32) -> u32 {
    if n < u32::MAX {
        (n + 1) as u32
    } else {
        n
    }
}

} // verus!
