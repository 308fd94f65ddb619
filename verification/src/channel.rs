//! Joined channels and ordered message delivery. Messages carry
//! server-assigned sequence numbers; local delivery is gapless: a skipped
//! number triggers a resync request instead of an out-of-order delivery, and
//! an already-seen number is filtered so replay after reconnection never
//! duplicates an entry.

use vstd::prelude::*;

use crate::protocol::ChannelEvent;
use crate::protocol::JoinError;

verus! {

/// One locally delivered channel event, with its server-assigned sequence
/// number.
pub struct LogEntry {
    pub seq: u64,
    pub event: ChannelEvent,
}

/// The outcome of offering one inbound channel event to the registry.
#[derive(Clone, Copy, PartialEq, Eq, Structural, Debug)]
pub enum DeliverOutcome {
    /// The event carried the next sequence number and was appended.
    Delivered,
    /// The sequence number was already seen; the event was dropped.
    Duplicate,
    /// A gap was detected; a replay must be requested from `resync_from`
    /// before anything later can be delivered.
    Gap { resync_from: u64 },
    /// No such channel is joined; the event was dropped.
    UnknownChannel,
}

/// Mathematical model of one joined channel.
#[verifier::ext_equal]
pub struct ChannelView {
    pub id: u64,
    pub last_seq: u64,
    pub log: Seq<LogEntry>,
    pub members: Seq<u64>,
}

impl ChannelView {
    /// The local log is gapless from 1: entry `i` bears sequence number
    /// `i + 1`, and `last_seq` is the length of the log. Members are unique.
    pub open spec fn wf(self) -> bool {
        &&& self.last_seq == self.log.len()
        &&& forall|i: int| 0 <= i < self.log.len() ==> (#[trigger] self.log[i]).seq == i + 1
        &&& forall|i: int, j: int|
            0 <= i < j < self.members.len() ==> self.members[i] != self.members[j]
    }
}

/// A channel as first joined: nothing delivered, nobody known.
pub open spec fn fresh_channel(id: u64) -> ChannelView {
    ChannelView { id, last_seq: 0, log: Seq::empty(), members: Seq::empty() }
}

/// The position of a member in the member list.
pub open spec fn member_index(members: Seq<u64>, user: u64) -> int {
    choose|i: int| 0 <= i < members.len() && members[i] == user
}

/// How one delivered event changes the member set: a join adds an unknown
/// user, a leave removes a known one, a chat message changes nothing.
pub open spec fn members_after(members: Seq<u64>, event: ChannelEvent) -> Seq<u64> {
    match event {
        ChannelEvent::MemberJoined { user } => if members.contains(user) {
            members
        } else {
            members.push(user)
        },
        ChannelEvent::MemberLeft { user } => if members.contains(user) {
            members.remove(member_index(members, user))
        } else {
            members
        },
        ChannelEvent::Message { .. } => members,
    }
}

/// The channel after an in-order event is applied.
pub open spec fn applied_channel(c: ChannelView, seq: u64, event: ChannelEvent) -> ChannelView {
    ChannelView {
        id: c.id,
        last_seq: seq,
        log: c.log.push(LogEntry { seq, event }),
        members: members_after(c.members, event),
    }
}

/// Offering one event to a channel: the next sequence number is applied; an
/// already-seen one is filtered unchanged; a skipped one is refused unchanged
/// and answered with the sequence number replay must restart from.
pub open spec fn deliver_step(c: ChannelView, seq: u64, event: ChannelEvent) -> (
    ChannelView,
    DeliverOutcome,
) {
    if seq <= c.last_seq {
        (c, DeliverOutcome::Duplicate)
    } else if seq == c.last_seq + 1 {
        (applied_channel(c, seq, event), DeliverOutcome::Delivered)
    } else {
        (c, (DeliverOutcome::Gap { resync_from: (c.last_seq + 1) as u64 }))
    }
}

/// One joined channel: its ordered local log and its member set.
pub struct Channel {
    id: u64,
    last_seq: u64,
    log: Vec<LogEntry>,
    members: Vec<u64>,
}

impl View for Channel {
    type V = ChannelView;

    closed spec fn view(&self) -> ChannelView {
        ChannelView {
            id: self.id,
            last_seq: self.last_seq,
            log: self.log@,
            members: self.members@,
        }
    }
}

impl Channel {
    /// The channel's invariant, stated on its model.
    pub open spec fn inv(self) -> bool {
        self@.wf()
    }

    /// A channel as first joined.
    pub fn new(id: u64) -> (c: Self)
        ensures
            c@ == fresh_channel(id),
            c.inv(),
    {
        let c = Channel { id, last_seq: 0, log: Vec::new(), members: Vec::new() };
        proof {
            assert(c@ =~= fresh_channel(id));
        }
        c
    }

    /// This channel's id.
    pub fn id(&self) -> (r: u64)
        ensures
            r == self@.id,
    {
        self.id
    }

    /// The highest sequence number observed locally.
    pub fn last_seq(&self) -> (r: u64)
        ensures
            r == self@.last_seq,
    {
        self.last_seq
    }

    /// How many events the local log holds.
    pub fn log_len(&self) -> (r: usize)
        ensures
            r == self@.log.len(),
    {
        self.log.len()
    }

    /// The event at one position of the local log.
    pub fn log_entry(&self, i: usize) -> (r: &LogEntry)
        requires
            i < self@.log.len(),
        ensures
            *r == self@.log[i as int],
    {
        &self.log[i]
    }

    /// Is this user currently a member?
    pub fn is_member(&self, user: u64) -> (r: bool)
        ensures
            r == self@.members.contains(user),
    {
        let mut i: usize = 0;
        while i < self.members.len()
            invariant
                i <= self.members.len(),
                forall|k: int| 0 <= k < i ==> self.members@[k] != user,
            decreases self.members.len() - i,
        {
            if self.members[i] == user {
                return true;
            }
            i = i + 1;
        }
        false
    }

    /// How many members the channel has.
    pub fn member_count(&self) -> (r: usize)
        ensures
            r == self@.members.len(),
    {
        self.members.len()
    }

    /// Offer one inbound event to this channel: applied only if it bears the
    /// next sequence number; duplicates and gaps leave the channel unchanged.
    pub fn deliver(&mut self, seq: u64, event: ChannelEvent) -> (r: DeliverOutcome)
        requires
            old(self).inv(),
        ensures
            final(self)@ == deliver_step(old(self)@, seq, event).0,
            r == deliver_step(old(self)@, seq, event).1,
            final(self).inv(),
    {
        if seq <= self.last_seq {
            DeliverOutcome::Duplicate
        } else if seq == self.last_seq + 1 {
            proof {
                lemma_members_after_unique(old(self)@.members, event);
            }
            match &event {
                ChannelEvent::MemberJoined { user } => {
                    let u = *user;
                    if !self.is_member(u) {
                        self.members.push(u);
                    }
                },
                ChannelEvent::MemberLeft { user } => {
                    let u = *user;
                    let mut i: usize = 0;
                    let mut found: bool = false;
                    while i < self.members.len() && !found
                        invariant
                            i <= self.members.len(),
                            !found ==> forall|k: int| 0 <= k < i ==> self.members@[k] != u,
                            found ==> i < self.members@.len() && self.members@[i as int] == u,
                            self == old(self),
                            old(self).inv(),
                        decreases self.members.len() - i + (if found { 0int } else { 1int }),
                    {
                        if self.members[i] == u {
                            found = true;
                        } else {
                            i = i + 1;
                        }
                    }
                    if found {
                        proof {
                            let ms = old(self)@.members;
                            assert(ms.contains(u)) by {
                                assert(ms[i as int] == u);
                            }
                            let j = member_index(ms, u);
                            assert(0 <= j < ms.len() && ms[j] == u);
                            assert(j == i) by {
                                if j < i {
                                    assert(ms[j] != ms[i as int]);
                                } else if j > i {
                                    assert(ms[i as int] != ms[j]);
                                }
                            }
                        }
                        self.members.remove(i);
                    } else {
                        proof {
                            let ms = old(self)@.members;
                            if ms.contains(u) {
                                let j = member_index(ms, u);
                                assert(ms[j] == u);
                                assert(false);
                            }
                        }
                    }
                },
                ChannelEvent::Message { .. } => {},
            }
            self.log.push(LogEntry { seq, event });
            self.last_seq = seq;
            proof {
                assert(final(self)@ =~= applied_channel(old(self)@, seq, event)) by {
                    assert(final(self)@.members == members_after(old(self)@.members, event));
                }
            }
            DeliverOutcome::Delivered
        } else {
            proof {
                assert(seq > self.last_seq);
            }
            DeliverOutcome::Gap { resync_from: self.last_seq + 1 }
        }
    }
}

/// Applying an event keeps the member list duplicate-free.
pub proof fn lemma_members_after_unique(members: Seq<u64>, event: ChannelEvent)
    requires
        forall|i: int, j: int| 0 <= i < j < members.len() ==> members[i] != members[j],
    ensures
        forall|i: int, j: int|
            0 <= i < j < members_after(members, event).len() ==> members_after(members, event)[i]
                != members_after(members, event)[j],
{
    let ms2 = members_after(members, event);
    match event {
        ChannelEvent::MemberJoined { user } => {
            if !members.contains(user) {
                assert(forall|i: int| 0 <= i < members.len() ==> members[i] != user);
                assert(forall|i: int, j: int| 0 <= i < j < ms2.len() ==> ms2[i] != ms2[j]);
            }
        },
        ChannelEvent::MemberLeft { user } => {
            if members.contains(user) {
                let j = member_index(members, user);
                assert(0 <= j < members.len() && members[j] == user);
                let rem = members.remove(j);
                assert(forall|k: int| 0 <= k < j ==> rem[k] == members[k]);
                assert(forall|k: int| j <= k < rem.len() ==> rem[k] == members[k + 1]);
                assert forall|i2: int, j2: int| 0 <= i2 < j2 < rem.len() implies rem[i2]
                    != rem[j2] by {
                    let a = if i2 < j { i2 } else { i2 + 1 };
                    let b = if j2 < j { j2 } else { j2 + 1 };
                    assert(rem[i2] == members[a]);
                    assert(rem[j2] == members[b]);
                    assert(a < b);
                }
            }
        },
        ChannelEvent::Message { .. } => {},
    }
}

/// Delivery preserves the channel invariant.
pub proof fn lemma_deliver_preserves_wf(c: ChannelView, seq: u64, event: ChannelEvent)
    requires
        c.wf(),
    ensures
        deliver_step(c, seq, event).0.wf(),
{
    lemma_members_after_unique(c.members, event);
}

/// Law: re-delivering an already-applied sequence number — as replay after a
/// reconnection does — changes nothing and is reported as a duplicate, so the
/// subscriber-visible log gains no second copy.
pub proof fn lemma_replay_is_idempotent(c: ChannelView, seq: u64, e1: ChannelEvent, e2: ChannelEvent)
    requires
        c.wf(),
        seq == c.last_seq + 1,
    ensures
        deliver_step(c, seq, e1).1 == DeliverOutcome::Delivered,
        deliver_step(c, seq, e1).0.log == c.log.push(LogEntry { seq, event: e1 }),
        deliver_step(deliver_step(c, seq, e1).0, seq, e2).0 == deliver_step(c, seq, e1).0,
        deliver_step(deliver_step(c, seq, e1).0, seq, e2).1 == DeliverOutcome::Duplicate,
{
}

/// Law: any already-seen sequence number is filtered: the channel, and so the
/// subscriber-visible stream, is unchanged.
pub proof fn lemma_seen_seq_is_filtered(c: ChannelView, seq: u64, event: ChannelEvent)
    requires
        c.wf(),
        seq <= c.last_seq,
    ensures
        deliver_step(c, seq, event).0 == c,
        deliver_step(c, seq, event).1 == DeliverOutcome::Duplicate,
{
}

/// Law: a skipped sequence number is never delivered: the channel is
/// unchanged and the answer names the first missing number, where replay must
/// restart.
pub proof fn lemma_gap_triggers_resync(c: ChannelView, seq: u64, event: ChannelEvent)
    requires
        c.wf(),
        seq > c.last_seq + 1,
    ensures
        deliver_step(c, seq, event).0 == c,
        deliver_step(c, seq, event).1 == (DeliverOutcome::Gap {
            resync_from: (c.last_seq + 1) as u64,
        }),
{
}

/// The set of channels the local identity has joined.
pub struct ChannelRegistry {
    channels: Vec<Channel>,
}

impl View for ChannelRegistry {
    type V = Seq<ChannelView>;

    closed spec fn view(&self) -> Seq<ChannelView> {
        self.channels@.map_values(|c: Channel| c@)
    }
}

/// Is a channel with this id in the model?
pub open spec fn has_channel(cs: Seq<ChannelView>, id: u64) -> bool {
    exists|i: int| 0 <= i < cs.len() && cs[i].id == id
}

/// The position of the channel with this id.
pub open spec fn channel_index(cs: Seq<ChannelView>, id: u64) -> int {
    choose|i: int| 0 <= i < cs.len() && cs[i].id == id
}

impl ChannelRegistry {
    /// No two joined channels share an id, and each is well-formed.
    pub open spec fn inv(self) -> bool {
        &&& forall|i: int, j: int| 0 <= i < j < self@.len() ==> self@[i].id != self@[j].id
        &&& forall|i: int| 0 <= i < self@.len() ==> (#[trigger] self@[i]).wf()
    }

    /// An empty registry: nothing joined.
    pub fn new() -> (r: Self)
        ensures
            r@ == Seq::<ChannelView>::empty(),
            r.inv(),
    {
        let r = ChannelRegistry { channels: Vec::new() };
        proof {
            assert(r@ =~= Seq::<ChannelView>::empty());
        }
        r
    }

    /// How many channels are joined.
    pub fn len(&self) -> (n: usize)
        ensures
            n == self@.len(),
    {
        self.channels.len()
    }

    /// The position of the joined channel with this id, if any.
    fn find(&self, id: u64) -> (r: Option<usize>)
        requires
            self.inv(),
        ensures
            match r {
                Some(i) => i < self@.len() && self@[i as int].id == id && i
                    == channel_index(self@, id) && has_channel(self@, id),
                None => !has_channel(self@, id),
            },
    {
        let mut i: usize = 0;
        while i < self.channels.len()
            invariant
                i <= self.channels.len(),
                forall|k: int| 0 <= k < i ==> (#[trigger] self@[k]).id != id,
                self.inv(),
            decreases self.channels.len() - i,
        {
            if self.channels[i].id() == id {
                proof {
                    assert(self@[i as int].id == id);
                    let j = channel_index(self@, id);
                    assert(0 <= j < self@.len() && self@[j].id == id);
                    assert(j == i) by {
                        if j < i {
                            assert(self@[j].id != self@[i as int].id);
                        } else if j > i {
                            assert(self@[i as int].id != self@[j].id);
                        }
                    }
                }
                return Some(i);
            }
            i = i + 1;
        }
        proof {
            if has_channel(self@, id) {
                let j = channel_index(self@, id);
                assert(self@[j].id == id);
                assert(false);
            }
        }
        None
    }

    /// Is a channel with this id joined?
    pub fn is_joined(&self, id: u64) -> (r: bool)
        requires
            self.inv(),
        ensures
            r == has_channel(self@, id),
    {
        self.find(id).is_some()
    }

    /// A borrow of the joined channel with this id, if any.
    pub fn get(&self, id: u64) -> (r: Option<&Channel>)
        requires
            self.inv(),
        ensures
            match r {
                Some(c) => has_channel(self@, id) && c@ == self@[channel_index(self@, id)],
                None => !has_channel(self@, id),
            },
    {
        match self.find(id) {
            Some(i) => Some(&self.channels[i]),
            None => None,
        }
    }

    /// Join a channel: a fresh empty channel is tracked, unless this id is
    /// already joined.
    pub fn join(&mut self, id: u64) -> (r: Result<(), JoinError>)
        requires
            old(self).inv(),
        ensures
            final(self).inv(),
            match r {
                Ok(()) => !has_channel(old(self)@, id) && final(self)@ == old(self)@.push(
                    fresh_channel(id),
                ),
                Err(e) => e == JoinError::AlreadyJoined && has_channel(old(self)@, id)
                    && final(self)@ == old(self)@,
            },
    {
        match self.find(id) {
            Some(_) => Err(JoinError::AlreadyJoined),
            None => {
                self.channels.push(Channel::new(id));
                proof {
                    assert(final(self)@ =~= old(self)@.push(fresh_channel(id)));
                    assert(forall|k: int|
                        0 <= k < old(self)@.len() ==> final(self)@[k] == old(self)@[k]);
                }
                Ok(())
            },
        }
    }

    /// Leave a channel: it is destroyed together with its ephemeral log.
    /// Returns whether it was joined.
    pub fn leave(&mut self, id: u64) -> (r: bool)
        requires
            old(self).inv(),
        ensures
            final(self).inv(),
            r == has_channel(old(self)@, id),
            r ==> final(self)@ == old(self)@.remove(channel_index(old(self)@, id)),
            !r ==> final(self)@ == old(self)@,
    {
        match self.find(id) {
            Some(i) => {
                self.channels.remove(i);
                proof {
                    assert(final(self)@ =~= old(self)@.remove(channel_index(old(self)@, id)));
                    let rem = final(self)@;
                    let v = old(self)@;
                    let j = i as int;
                    assert(forall|k: int| 0 <= k < j ==> rem[k] == v[k]);
                    assert(forall|k: int| j <= k < rem.len() ==> rem[k] == v[k + 1]);
                    assert forall|i2: int, j2: int| 0 <= i2 < j2 < rem.len() implies rem[i2].id
                        != rem[j2].id by {
                        let a = if i2 < j { i2 } else { i2 + 1 };
                        let b = if j2 < j { j2 } else { j2 + 1 };
                        assert(rem[i2] == v[a]);
                        assert(rem[j2] == v[b]);
                        assert(a < b);
                    }
                }
                true
            },
            None => false,
        }
    }

    /// Offer one inbound channel event: routed to the joined channel bearing
    /// its id; an event for an unknown channel is dropped, never fatal.
    pub fn deliver(&mut self, id: u64, seq: u64, event: ChannelEvent) -> (r: DeliverOutcome)
        requires
            old(self).inv(),
        ensures
            final(self).inv(),
            has_channel(old(self)@, id) ==> {
                let ci = channel_index(old(self)@, id);
                final(self)@ == old(self)@.update(ci, deliver_step(old(self)@[ci], seq, event).0)
                    && r == deliver_step(old(self)@[ci], seq, event).1
            },
            !has_channel(old(self)@, id) ==> final(self)@ == old(self)@ && r
                == DeliverOutcome::UnknownChannel,
    {
        match self.find(id) {
            Some(i) => {
                let ghost v = old(self)@;
                let ghost ci = channel_index(v, id);
                let c = vec_index_mut(&mut self.channels, i);
                let r = c.deliver(seq, event);
                proof {
                    assert(final(self)@ =~= v.update(ci, deliver_step(v[ci], seq, event).0));
                    assert forall|k: int| 0 <= k < final(self)@.len() implies (
                    #[trigger] final(self)@[k]).wf() by {
                        if k == ci {
                            lemma_deliver_preserves_wf(v[ci], seq, event);
                        }
                    }
                }
                r
            },
            None => DeliverOutcome::UnknownChannel,
        }
    }

    /// The replay plan after a reconnection: every joined channel's id paired
    /// with its last locally observed sequence number, from which replay is
    /// requested.
    pub fn replay_plan(&self) -> (r: Vec<(u64, u64)>)
        requires
            self.inv(),
        ensures
            r@.len() == self@.len(),
            forall|k: int|
                0 <= k < self@.len() ==> r@[k] == ((#[trigger] self@[k]).id, self@[k].last_seq),
    {
        let mut r: Vec<(u64, u64)> = Vec::new();
        let mut i: usize = 0;
        while i < self.channels.len()
            invariant
                i <= self.channels.len(),
                r@.len() == i,
                forall|k: int|
                    0 <= k < i ==> r@[k] == ((#[trigger] self@[k]).id, self@[k].last_seq),
            decreases self.channels.len() - i,
        {
            let c = &self.channels[i];
            r.push((c.id(), c.last_seq()));
            i = i + 1;
        }
        r
    }
}

/// A mutable borrow of one element of a vector.
pub(crate) fn vec_index_mut<T>(v: &mut Vec<T>, i: usize) -> (element: &mut T)
    requires
        i < old(v).len(),
    ensures
        *element == old(v)@[i as int],
        final(v)@ == old(v)@.update(i as int, *final(element)),
{
    &mut v[i]
}

} // verus!
