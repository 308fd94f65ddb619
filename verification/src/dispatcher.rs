//! Request/response correlation: every outgoing request gets a fresh id and
//! an open `PendingRequest`; an inbound response resolves the pending request
//! bearing its id exactly once; connection loss or session close drains every
//! open request; a lapsed deadline times a request out.

use vstd::prelude::*;

verus! {

/// One open request: its id and the instant at which it times out.
#[derive(Clone, Copy, PartialEq, Eq, Structural, Debug)]
pub struct PendingRequest {
    pub id: u64,
    pub deadline: u64,
}

/// Mathematical model of a dispatcher: the open requests in registration
/// order, the set of ids that were ever resolved, failed, cancelled or timed
/// out (and so may never resolve again), and the next fresh id.
#[verifier::ext_equal]
pub struct DispatcherView {
    pub pending: Seq<PendingRequest>,
    pub retired: Set<u64>,
    pub next_id: u64,
}

impl DispatcherView {
    /// Is a request with this id currently open?
    pub open spec fn has_pending(self, id: u64) -> bool {
        exists|i: int| 0 <= i < self.pending.len() && self.pending[i].id == id
    }

    /// The position of the open request with this id.
    pub open spec fn pending_index(self, id: u64) -> int {
        choose|i: int| 0 <= i < self.pending.len() && self.pending[i].id == id
    }

    /// The ids of the open requests, as a set.
    pub open spec fn pending_ids(self) -> Set<u64> {
        Set::new(|id: u64| self.has_pending(id))
    }

    /// No two open requests share an id; every id ever handed out is below
    /// `next_id`; no open request is retired.
    pub open spec fn wf(self) -> bool {
        &&& forall|i: int, j: int|
            0 <= i < j < self.pending.len() ==> self.pending[i].id != self.pending[j].id
        &&& forall|i: int| 0 <= i < self.pending.len() ==> (#[trigger] self.pending[i]).id < self.next_id
        &&& forall|id: u64| self.retired.contains(id) ==> id < self.next_id
        &&& forall|i: int|
            0 <= i < self.pending.len() ==> !self.retired.contains((#[trigger] self.pending[i]).id)
    }
}

/// Registering a call: a fresh id (never seen before on this connection) is
/// appended to the open requests.
pub open spec fn call_step(v: DispatcherView, deadline: u64) -> (DispatcherView, u64) {
    (
        DispatcherView {
            pending: v.pending.push(PendingRequest { id: v.next_id, deadline }),
            retired: v.retired,
            next_id: (v.next_id + 1) as u64,
        },
        v.next_id,
    )
}

/// Resolving a response: if a request with this id is open it is removed and
/// retired (delivered); otherwise the response is dropped and nothing changes.
pub open spec fn resolve_step(v: DispatcherView, id: u64) -> (DispatcherView, bool) {
    if v.has_pending(id) {
        (
            DispatcherView {
                pending: v.pending.remove(v.pending_index(id)),
                retired: v.retired.insert(id),
                next_id: v.next_id,
            },
            true,
        )
    } else {
        (v, false)
    }
}

/// Draining (connection loss or cancellation): every open request fails, in
/// registration order, and all their ids are retired.
pub open spec fn drain_step(v: DispatcherView) -> (DispatcherView, Seq<u64>) {
    (
        DispatcherView {
            pending: Seq::empty(),
            retired: v.retired.union(v.pending_ids()),
            next_id: v.next_id,
        },
        v.pending.map_values(|p: PendingRequest| p.id),
    )
}

/// The requests that survive an expiry sweep at instant `now`.
pub open spec fn kept_of(s: Seq<PendingRequest>, now: u64) -> Seq<PendingRequest>
    decreases s.len(),
{
    if s.len() == 0 {
        Seq::empty()
    } else if s.last().deadline >= now {
        kept_of(s.drop_last(), now).push(s.last())
    } else {
        kept_of(s.drop_last(), now)
    }
}

/// The ids that an expiry sweep at instant `now` times out.
pub open spec fn expired_of(s: Seq<PendingRequest>, now: u64) -> Seq<u64>
    decreases s.len(),
{
    if s.len() == 0 {
        Seq::empty()
    } else if s.last().deadline < now {
        expired_of(s.drop_last(), now).push(s.last().id)
    } else {
        expired_of(s.drop_last(), now)
    }
}

/// Expiry sweep: requests whose deadline has lapsed fail with a timeout; the
/// rest stay open, in order.
pub open spec fn expire_step(v: DispatcherView, now: u64) -> (DispatcherView, Seq<u64>) {
    (
        DispatcherView {
            pending: kept_of(v.pending, now),
            retired: v.retired.union(expired_of(v.pending, now).to_set()),
            next_id: v.next_id,
        },
        expired_of(v.pending, now),
    )
}

/// Correlates outgoing requests with inbound responses. Ids are monotonic and
/// unique for the lifetime of the dispatcher, across reconnections.
pub struct RequestDispatcher {
    pending: Vec<PendingRequest>,
    next_id: u64,
    retired: Ghost<Set<u64>>,
}

impl View for RequestDispatcher {
    type V = DispatcherView;

    closed spec fn view(&self) -> DispatcherView {
        DispatcherView { pending: self.pending@, retired: self.retired@, next_id: self.next_id }
    }
}

impl RequestDispatcher {
    /// The dispatcher's invariant, stated on its model.
    pub open spec fn inv(self) -> bool {
        self@.wf()
    }

    /// A fresh dispatcher: nothing open, nothing retired, ids start at 1.
    pub fn new() -> (d: Self)
        ensures
            d@.pending == Seq::<PendingRequest>::empty(),
            d@.retired == Set::<u64>::empty(),
            d@.next_id == 1,
            d.inv(),
    {
        RequestDispatcher { pending: Vec::new(), next_id: 1, retired: Ghost(Set::empty()) }
    }

    /// How many requests are open.
    pub fn open_count(&self) -> (n: usize)
        ensures
            n == self@.pending.len(),
    {
        self.pending.len()
    }

    /// Can another request id still be assigned?
    pub fn has_capacity(&self) -> (r: bool)
        ensures
            r == (self@.next_id < u64::MAX),
    {
        self.next_id < u64::MAX
    }

    /// Register a call: returns the fresh id assigned to it. The id was never
    /// open or retired before.
    pub fn call(&mut self, deadline: u64) -> (id: u64)
        requires
            old(self).inv(),
            old(self)@.next_id < u64::MAX,
        ensures
            final(self)@ == call_step(old(self)@, deadline).0,
            id == call_step(old(self)@, deadline).1,
            final(self).inv(),
            !old(self)@.has_pending(id),
            !old(self)@.retired.contains(id),
    {
        let id = self.next_id;
        self.pending.push(PendingRequest { id, deadline });
        self.next_id = self.next_id + 1;
        id
    }

    /// Resolve an inbound response by id: true iff a request with this id was
    /// open (it is then removed and retired). A stale or duplicate id changes
    /// nothing.
    pub fn handle_response(&mut self, id: u64) -> (delivered: bool)
        requires
            old(self).inv(),
        ensures
            final(self)@ == resolve_step(old(self)@, id).0,
            delivered == resolve_step(old(self)@, id).1,
            delivered == old(self)@.has_pending(id),
            final(self).inv(),
    {
        let mut i: usize = 0;
        while i < self.pending.len()
            invariant
                i <= self.pending.len(),
                forall|k: int| 0 <= k < i ==> (#[trigger] self.pending@[k]).id != id,
                self == old(self),
                old(self).inv(),
            decreases self.pending.len() - i,
        {
            if self.pending[i].id == id {
                self.pending.remove(i);
                proof {
                    self.retired@ = self.retired@.insert(id);
                    let v = old(self)@;
                    assert(v.has_pending(id)) by {
                        assert(v.pending[i as int].id == id);
                    }
                    let j = v.pending_index(id);
                    assert(0 <= j < v.pending.len() && v.pending[j].id == id);
                    assert(j == i) by {
                        if j < i {
                            assert(v.pending[j].id != v.pending[i as int].id);
                        } else if j > i {
                            assert(v.pending[i as int].id != v.pending[j].id);
                        }
                    }
                    lemma_resolve_preserves_wf(v, id);
                }
                return true;
            }
            i = i + 1;
        }
        proof {
            let v = old(self)@;
            if v.has_pending(id) {
                let j = v.pending_index(id);
                assert(v.pending[j].id == id);
                assert(false);
            }
        }
        false
    }

    /// Drain every open request (connection loss or session close): returns
    /// their ids in registration order; all become retired, so none can ever
    /// resolve afterwards. Ids are not reused: `next_id` is untouched.
    pub fn drain_pending(&mut self) -> (failed: Vec<u64>)
        requires
            old(self).inv(),
        ensures
            final(self)@ == drain_step(old(self)@).0,
            failed@ == drain_step(old(self)@).1,
            final(self).inv(),
    {
        let ghost v = old(self)@;
        let mut failed: Vec<u64> = Vec::new();
        let mut i: usize = 0;
        while i < self.pending.len()
            invariant
                i <= self.pending.len(),
                self == old(self),
                failed@ == self.pending@.take(i as int).map_values(|p: PendingRequest| p.id),
            decreases self.pending.len() - i,
        {
            failed.push(self.pending[i].id);
            proof {
                assert(self.pending@.take(i + 1) =~= self.pending@.take(i as int).push(
                    self.pending@[i as int],
                ));
                assert(self.pending@.take(i + 1).map_values(|p: PendingRequest| p.id)
                    =~= self.pending@.take(i as int).map_values(|p: PendingRequest| p.id).push(
                    self.pending@[i as int].id,
                ));
            }
            i = i + 1;
        }
        proof {
            assert(self.pending@.take(self.pending@.len() as int) =~= self.pending@);
        }
        self.pending.clear();
        proof {
            self.retired@ = v.retired.union(v.pending_ids());
            assert(forall|id: u64|
                final(self)@.retired.contains(id) ==> id < final(self)@.next_id) by {
                assert(forall|id: u64| v.pending_ids().contains(id) ==> id < v.next_id) by {
                    assert(forall|id: u64| v.has_pending(id) ==> id < v.next_id);
                }
            }
        }
        failed
    }

    /// Time out every open request whose deadline lies before `now`: returns
    /// their ids; the rest stay open in order.
    pub fn expire(&mut self, now: u64) -> (timed_out: Vec<u64>)
        requires
            old(self).inv(),
        ensures
            final(self)@ == expire_step(old(self)@, now).0,
            timed_out@ == expire_step(old(self)@, now).1,
            final(self).inv(),
    {
        let ghost v = old(self)@;
        let mut kept: Vec<PendingRequest> = Vec::new();
        let mut timed_out: Vec<u64> = Vec::new();
        let mut i: usize = 0;
        while i < self.pending.len()
            invariant
                i <= self.pending.len(),
                self == old(self),
                kept@ == kept_of(self.pending@.take(i as int), now),
                timed_out@ == expired_of(self.pending@.take(i as int), now),
            decreases self.pending.len() - i,
        {
            let p = self.pending[i];
            proof {
                assert(self.pending@.take(i + 1).drop_last() =~= self.pending@.take(i as int));
                assert(self.pending@.take(i + 1).last() == p);
            }
            if p.deadline >= now {
                kept.push(p);
            } else {
                timed_out.push(p.id);
            }
            i = i + 1;
        }
        proof {
            assert(self.pending@.take(self.pending@.len() as int) =~= self.pending@);
        }
        self.pending = kept;
        proof {
            self.retired@ = v.retired.union(expired_of(v.pending, now).to_set());
            lemma_expiry_partition(v.pending, now);
            let kseq = kept_of(v.pending, now);
            let eseq = expired_of(v.pending, now);
            assert(final(self).inv()) by {
                assert(forall|i2: int, j2: int|
                    0 <= i2 < j2 < kseq.len() ==> kseq[i2].id != kseq[j2].id);
                assert(forall|i2: int|
                    0 <= i2 < kseq.len() ==> (#[trigger] kseq[i2]).id < v.next_id) by {
                    assert(forall|i2: int| 0 <= i2 < kseq.len() ==> v.pending.contains(
                        #[trigger] kseq[i2],
                    ));
                }
                assert forall|id: u64| final(self)@.retired.contains(id) implies id
                    < v.next_id by {
                    if !v.retired.contains(id) {
                        assert(eseq.to_set().contains(id));
                        assert(eseq.contains(id));
                        let k = choose|k: int| 0 <= k < eseq.len() && eseq[k] == id;
                        assert(exists|m: int|
                            0 <= m < v.pending.len() && v.pending[m].deadline < now && eseq[k]
                                == v.pending[m].id);
                        let m = choose|m: int|
                            0 <= m < v.pending.len() && v.pending[m].deadline < now && eseq[k]
                                == v.pending[m].id;
                        assert(v.pending[m].id < v.next_id);
                    }
                }
                assert(forall|i2: int|
                    0 <= i2 < kseq.len() ==> !final(self)@.retired.contains(
                        (#[trigger] kseq[i2]).id,
                    )) by {
                    assert(forall|id: u64| eseq.to_set().contains(id) ==> eseq.contains(id));
                }
            }
        }
        timed_out
    }
}

/// Everything an expiry sweep guarantees: kept requests are original requests
/// whose deadline has not lapsed; every expired id comes from an original
/// request whose deadline lapsed; under unique ids, kept requests keep unique
/// ids, expired ids are unique, and no id is both kept and expired.
pub proof fn lemma_expiry_partition(s: Seq<PendingRequest>, now: u64)
    ensures
        forall|k: int| 0 <= k < kept_of(s, now).len() ==> s.contains(#[trigger] kept_of(s, now)[k])
            && kept_of(s, now)[k].deadline >= now,
        forall|k: int| 0 <= k < expired_of(s, now).len() ==> exists|m: int|
            0 <= m < s.len() && s[m].deadline < now && (#[trigger] expired_of(s, now)[k]) == s[m].id,
        (forall|i: int, j: int| 0 <= i < j < s.len() ==> s[i].id != s[j].id) ==> {
            &&& forall|i: int, j: int|
                0 <= i < j < kept_of(s, now).len() ==> kept_of(s, now)[i].id != kept_of(s, now)[j].id
            &&& forall|i: int, j: int|
                0 <= i < j < expired_of(s, now).len() ==> expired_of(s, now)[i] != expired_of(
                    s,
                    now,
                )[j]
            &&& forall|i: int, j: int|
                0 <= i < kept_of(s, now).len() && 0 <= j < expired_of(s, now).len() ==> kept_of(
                    s,
                    now,
                )[i].id != expired_of(s, now)[j]
        },
    decreases s.len(),
{
    if s.len() > 0 {
        let pre = s.drop_last();
        lemma_expiry_partition(pre, now);
        assert(forall|k: int| 0 <= k < pre.len() ==> pre[k] == s[k]);
        assert(forall|p: PendingRequest| pre.contains(p) ==> s.contains(p));
        if forall|i: int, j: int| 0 <= i < j < s.len() ==> s[i].id != s[j].id {
            assert(forall|i: int, j: int| 0 <= i < j < pre.len() ==> pre[i].id != pre[j].id);
            assert(forall|k: int|
                0 <= k < kept_of(pre, now).len() ==> (#[trigger] kept_of(pre, now)[k]).id
                    != s.last().id) by {
                assert(forall|k: int|
                    0 <= k < kept_of(pre, now).len() ==> pre.contains(#[trigger] kept_of(pre, now)[k]));
                assert(forall|p: PendingRequest| pre.contains(p) ==> p.id != s.last().id) by {
                    assert(forall|m: int| 0 <= m < pre.len() ==> (#[trigger] pre[m]).id != s[s.len()
                        - 1].id);
                }
            }
            assert(forall|k: int|
                0 <= k < expired_of(pre, now).len() ==> (#[trigger] expired_of(pre, now)[k])
                    != s.last().id) by {
                assert(forall|m: int| 0 <= m < pre.len() ==> (#[trigger] pre[m]).id != s[s.len()
                    - 1].id);
            }
        }
    }
}

/// Resolving an open request keeps the invariant, closes exactly that id, and
/// leaves every other open request open.
pub proof fn lemma_resolve_preserves_wf(v: DispatcherView, id: u64)
    requires
        v.wf(),
        v.has_pending(id),
    ensures
        resolve_step(v, id).0.wf(),
        !resolve_step(v, id).0.has_pending(id),
        forall|other: u64|
            other != id ==> (resolve_step(v, id).0.has_pending(other) == v.has_pending(other)),
{
    let j = v.pending_index(id);
    assert(0 <= j < v.pending.len() && v.pending[j].id == id);
    let v2 = resolve_step(v, id).0;
    let rem = v.pending.remove(j);
    assert(forall|k: int| 0 <= k < j ==> rem[k] == v.pending[k]);
    assert(forall|k: int| j <= k < rem.len() ==> rem[k] == v.pending[k + 1]);
    assert(!v2.has_pending(id)) by {
        if exists|i: int| 0 <= i < rem.len() && rem[i].id == id {
            let i = choose|i: int| 0 <= i < rem.len() && rem[i].id == id;
            if i < j {
                assert(v.pending[i].id != v.pending[j].id);
            } else {
                assert(v.pending[j].id != v.pending[i + 1].id);
            }
        }
    }
    assert(forall|other: u64| other != id && v.has_pending(other) ==> v2.has_pending(other)) by {
        assert forall|other: u64| other != id && v.has_pending(other) implies v2.has_pending(
            other,
        ) by {
            let i = choose|i: int| 0 <= i < v.pending.len() && v.pending[i].id == other;
            assert(v2.pending == rem);
            if i < j {
                assert(0 <= i < v2.pending.len() && v2.pending[i].id == other);
            } else {
                assert(i != j);
                assert(0 <= i - 1 < v2.pending.len() && v2.pending[i - 1].id == other);
            }
        }
    }
    assert(forall|other: u64| v2.has_pending(other) ==> v.has_pending(other)) by {
        assert forall|other: u64| v2.has_pending(other) implies v.has_pending(other) by {
            let i = choose|i: int| 0 <= i < rem.len() && rem[i].id == other;
            if i < j {
                assert(0 <= i < v.pending.len() && v.pending[i].id == other);
            } else {
                assert(0 <= i + 1 < v.pending.len() && v.pending[i + 1].id == other);
            }
        }
    }
    assert(v2.wf()) by {
        assert(forall|i2: int, j2: int|
            0 <= i2 < j2 < rem.len() ==> rem[i2].id != rem[j2].id) by {
            assert forall|i2: int, j2: int| 0 <= i2 < j2 < rem.len() implies rem[i2].id
                != rem[j2].id by {
                let a = if i2 < j { i2 } else { i2 + 1 };
                let b = if j2 < j { j2 } else { j2 + 1 };
                assert(rem[i2] == v.pending[a]);
                assert(rem[j2] == v.pending[b]);
                assert(a < b);
            }
        }
        assert(forall|i2: int| 0 <= i2 < rem.len() ==> (#[trigger] rem[i2]).id < v.next_id);
        assert(forall|i2: int|
            0 <= i2 < rem.len() ==> !v2.retired.contains((#[trigger] rem[i2]).id)) by {
            assert forall|i2: int| 0 <= i2 < rem.len() implies !v2.retired.contains(
                rem[i2].id,
            ) by {
                if rem[i2].id == id {
                    assert(!v2.has_pending(id));
                    assert(v2.has_pending(rem[i2].id));
                }
            }
        }
    }
}

/// Law: a response resolves exactly the open request bearing its own id, at
/// most once. A second response with the same id is dropped, and every other
/// open request is untouched.
pub proof fn lemma_response_matched_by_id(v: DispatcherView, id: u64)
    requires
        v.wf(),
    ensures
        resolve_step(v, id).1 == v.has_pending(id),
        resolve_step(v, id).0.wf(),
        !resolve_step(v, id).0.has_pending(id),
        resolve_step(resolve_step(v, id).0, id).1 == false,
        forall|other: u64|
            other != id ==> (resolve_step(v, id).0.has_pending(other) == v.has_pending(other)),
{
    if v.has_pending(id) {
        lemma_resolve_preserves_wf(v, id);
    }
}

/// Law: on connection loss every open request fails exactly once — the failed
/// ids list each open request's id once, in order — and afterwards no request
/// is open and none of those ids can ever resolve.
pub proof fn lemma_connection_loss_fails_each_once(v: DispatcherView)
    requires
        v.wf(),
    ensures
        drain_step(v).1.len() == v.pending.len(),
        forall|k: int| 0 <= k < v.pending.len() ==> drain_step(v).1[k] == v.pending[k].id,
        forall|i: int, j: int|
            0 <= i < j < drain_step(v).1.len() ==> drain_step(v).1[i] != drain_step(v).1[j],
        drain_step(v).0.wf(),
        drain_step(v).0.pending.len() == 0,
        forall|k: int|
            0 <= k < drain_step(v).1.len() ==> !resolve_step(
                drain_step(v).0,
                drain_step(v).1[k],
            ).1,
{
    let v2 = drain_step(v).0;
    assert(v2.wf()) by {
        assert(forall|id: u64| v.pending_ids().contains(id) ==> id < v.next_id) by {
            assert(forall|id: u64| v.has_pending(id) ==> id < v.next_id);
        }
    }
}

/// One step of the dispatcher: a call, a resolution, a drain, or an expiry
/// sweep.
pub open spec fn dispatcher_step(v1: DispatcherView, v2: DispatcherView) -> bool {
    ||| (exists|deadline: u64| v1.next_id < u64::MAX && v2 == call_step(v1, deadline).0)
    ||| (exists|id: u64| v2 == resolve_step(v1, id).0)
    ||| v2 == drain_step(v1).0
    ||| (exists|now: u64| v2 == expire_step(v1, now).0)
}

/// Every step keeps the invariant and only grows the retired set.
pub proof fn lemma_step_preserves_wf(v1: DispatcherView, v2: DispatcherView)
    requires
        v1.wf(),
        dispatcher_step(v1, v2),
    ensures
        v2.wf(),
        v1.retired.subset_of(v2.retired),
{
    if exists|deadline: u64| v1.next_id < u64::MAX && v2 == call_step(v1, deadline).0 {
        let deadline = choose|deadline: u64|
            v1.next_id < u64::MAX && v2 == call_step(v1, deadline).0;
        let p2 = v2.pending;
        assert(forall|i: int| 0 <= i < p2.len() - 1 ==> p2[i] == v1.pending[i]);
        assert(forall|i: int, j: int| 0 <= i < j < p2.len() ==> p2[i].id != p2[j].id);
    } else if exists|id: u64| v2 == resolve_step(v1, id).0 {
        let id = choose|id: u64| v2 == resolve_step(v1, id).0;
        if v1.has_pending(id) {
            lemma_resolve_preserves_wf(v1, id);
        }
    } else if v2 == drain_step(v1).0 {
        lemma_connection_loss_fails_each_once(v1);
    } else {
        let now = choose|now: u64| v2 == expire_step(v1, now).0;
        lemma_expiry_partition(v1.pending, now);
        let kseq = kept_of(v1.pending, now);
        let eseq = expired_of(v1.pending, now);
        assert(forall|i2: int|
            0 <= i2 < kseq.len() ==> (#[trigger] kseq[i2]).id < v1.next_id) by {
            assert(forall|i2: int| 0 <= i2 < kseq.len() ==> v1.pending.contains(
                #[trigger] kseq[i2],
            ));
        }
        assert forall|id: u64| v2.retired.contains(id) implies id < v1.next_id by {
            if !v1.retired.contains(id) {
                assert(eseq.to_set().contains(id));
                assert(eseq.contains(id));
                let k = choose|k: int| 0 <= k < eseq.len() && eseq[k] == id;
                assert(exists|m: int|
                    0 <= m < v1.pending.len() && v1.pending[m].deadline < now && eseq[k]
                        == v1.pending[m].id);
                let m = choose|m: int|
                    0 <= m < v1.pending.len() && v1.pending[m].deadline < now && eseq[k]
                        == v1.pending[m].id;
                assert(v1.pending[m].id < v1.next_id);
            }
        }
        assert(forall|i2: int|
            0 <= i2 < kseq.len() ==> !v2.retired.contains((#[trigger] kseq[i2]).id));
    }
}

/// Law: once an id is retired — resolved, failed with connection loss,
/// cancelled, or timed out — no later frame ever resolves it, whatever the
/// dispatcher does in between.
pub proof fn lemma_no_resolution_after_retirement(trace: Seq<DispatcherView>, id: u64, j: int)
    requires
        trace.len() > 0,
        trace[0].wf(),
        trace[0].retired.contains(id),
        forall|k: int| 0 < k < trace.len() ==> dispatcher_step(trace[k - 1], #[trigger] trace[k]),
        0 <= j < trace.len(),
    ensures
        trace[j].wf(),
        trace[j].retired.contains(id),
        !resolve_step(trace[j], id).1,
    decreases j,
{
    if j > 0 {
        lemma_no_resolution_after_retirement(trace, id, j - 1);
        assert(dispatcher_step(trace[j - 1], trace[j]));
        lemma_step_preserves_wf(trace[j - 1], trace[j]);
        lemma_retired_grows(trace[j - 1], trace[j]);
    }
    assert(!trace[j].has_pending(id)) by {
        if trace[j].has_pending(id) {
            let i = choose|i: int|
                0 <= i < trace[j].pending.len() && trace[j].pending[i].id == id;
            assert(!trace[j].retired.contains(trace[j].pending[i].id));
        }
    }
}

/// A step never un-retires an id.
pub proof fn lemma_retired_grows(v1: DispatcherView, v2: DispatcherView)
    requires
        dispatcher_step(v1, v2),
    ensures
        v1.retired.subset_of(v2.retired),
{
}

} // verus!
