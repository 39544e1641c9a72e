//! The session entry: the exclusive, per-identity ownership slot for one
//! client's live connection and session state.
//!
//! A slot is *empty*, *online* (session, delivery channel and connection
//! metadata installed) or *offline* (session retained across a disconnect).
//! Every mutating operation demands the slot's lock, taken with `try_lock`,
//! which fails fast with `Error::Contention` instead of waiting: no two
//! owners ever both believe they hold the same identity.

use vstd::prelude::*;

use crate::router::{spec_add, spec_remove, Router, SubV};
use crate::session::{
    spec_sub_add, spec_sub_remove, ClientInfo, ClientInfoV, Session, SessionOfflineInfo,
    SessionOfflineInfoV, SessionSubV, SessionV, Subscribe, SubscribeReturn, Unsubscribe,
};
use crate::topic::valid_filter;
use crate::types::{Error, Id, Message, MessageV, NodeId, Publish, Reason, Tx, TxV};

verus! {

/// The state of one identity's slot.
pub enum EntryState {
    Empty,
    Online { session: Session, tx: Tx, client: ClientInfo },
    Offline { session: Session },
}

/// Mathematical value of an `EntryState`.
pub ghost enum EntryStateV {
    Empty,
    Online { session: SessionV, tx: TxV, client: ClientInfoV },
    Offline { session: SessionV },
}

impl View for EntryState {
    type V = EntryStateV;

    open spec fn view(&self) -> EntryStateV {
        match self {
            EntryState::Empty => EntryStateV::Empty,
            EntryState::Online { session, tx, client } => EntryStateV::Online {
                session: session@,
                tx: tx@,
                client: client@,
            },
            EntryState::Offline { session } => EntryStateV::Offline { session: session@ },
        }
    }
}

/// Mathematical value of an `Entry`.
pub ghost struct EntryV {
    pub id: (NodeId, Seq<char>),
    pub locked: bool,
    pub state: EntryStateV,
}

/// Witness that the holder acquired a slot's lock; mutating operations
/// demand it, and `unlock` consumes it.
#[derive(Debug)]
pub struct EntryLock {
    id: Id,
}

impl View for EntryLock {
    type V = (NodeId, Seq<char>);

    closed spec fn view(&self) -> (NodeId, Seq<char>) {
        self.id@
    }
}

/// One identity's ownership slot.
pub struct Entry {
    pub id: Id,
    pub locked: bool,
    pub state: EntryState,
}

impl View for Entry {
    type V = EntryV;

    open spec fn view(&self) -> EntryV {
        EntryV { id: self.id@, locked: self.locked, state: self.state@ }
    }
}

impl DeepView for Entry {
    type V = EntryV;

    open spec fn deep_view(&self) -> EntryV {
        self.view()
    }
}

/// Whether a `try_lock` on a slot in state `e` succeeds.
pub open spec fn spec_try_lock_ok(e: EntryV) -> bool {
    !e.locked
}

/// The slot after a `try_lock`: locked on success, unchanged on contention.
pub open spec fn spec_after_try_lock(e: EntryV) -> EntryV {
    if e.locked {
        e
    } else {
        EntryV { locked: true, ..e }
    }
}

/// The session held by a slot, online or offline.
pub open spec fn spec_session_of(st: EntryStateV) -> Option<SessionV> {
    match st {
        EntryStateV::Empty => Option::None,
        EntryStateV::Online { session, .. } => Option::Some(session),
        EntryStateV::Offline { session } => Option::Some(session),
    }
}

/// The subscriptions of the slot's session, or the empty list.
pub open spec fn spec_subs_of(st: EntryStateV) -> Seq<SessionSubV> {
    match spec_session_of(st) {
        Option::Some(s) => s.subscriptions,
        Option::None => Seq::empty(),
    }
}

/// What clearing an identity's filters does to the router's registrations:
/// each of the session's filters is unregistered for that identity, in order.
pub open spec fn spec_clear(
    rs: Seq<SubV>,
    subs: Seq<SessionSubV>,
    id: (NodeId, Seq<char>),
) -> Seq<SubV>
    decreases subs.len(),
{
    if subs.len() == 0 {
        rs
    } else {
        spec_clear(spec_remove(rs, (subs[0].0, id)), subs.skip(1), id)
    }
}

/// The delivery channel after the takeover signal: the order to terminate
/// is appended, unless the connection already closed its end.
pub open spec fn spec_signaled(t: TxV) -> TxV {
    if t.closed {
        t
    } else {
        TxV { queue: t.queue.push(MessageV::Kick), ..t }
    }
}

impl Entry {
    /// A fresh, unlocked, empty slot for `id`.
    pub fn new(id: Id) -> (r: Entry)
        ensures
            r@.id == id@,
            !r@.locked,
            r@.state is Empty,
    {
        Entry { id, locked: false, state: EntryState::Empty }
    }

    /// This slot's identity.
    pub fn id(&self) -> (r: Id)
        ensures
            r@ == self@.id,
    {
        self.id.clone()
    }

    /// Attempts to acquire exclusive access to this identity's slot.  Fails
    /// fast with `Contention` while another holder has it; never waits.
    pub fn try_lock(&mut self) -> (r: Result<EntryLock, Error>)
        ensures
            final(self)@ == spec_after_try_lock(old(self)@),
            (r is Ok) == spec_try_lock_ok(old(self)@),
            r matches Ok(l) ==> l@ == old(self)@.id,
            r is Err ==> r == Result::<EntryLock, Error>::Err(Error::Contention) && *final(self)
                == *old(self),
    {
        if self.locked {
            Err(Error::Contention)
        } else {
            self.locked = true;
            Ok(EntryLock { id: self.id.clone() })
        }
    }

    /// Releases the lock taken by `try_lock`; the witness is consumed.
    pub fn unlock(&mut self, lock: EntryLock) -> (r: Result<(), Error>)
        ensures
            old(self)@.locked && lock@ == old(self)@.id ==> r is Ok && final(self)@ == (EntryV {
                locked: false,
                ..old(self)@
            }),
            !(old(self)@.locked && lock@ == old(self)@.id) ==> r == Result::<(), Error>::Err(
                Error::NotOwned,
            ) && *final(self) == *old(self),
    {
        if self.locked && self.id.same(&lock.id) {
            self.locked = false;
            Ok(())
        } else {
            Err(Error::NotOwned)
        }
    }

    /// Whether the caller's lock witness governs this slot right now.
    pub fn owned_by(&self, lock: &EntryLock) -> (r: bool)
        ensures
            r == (self@.locked && lock@ == self@.id),
    {
        self.locked && self.id.same(&lock.id)
    }

    /// Installs a new online session into the slot.  Any previously retained
    /// offline state for this identity is replaced.
    pub fn set(&mut self, lock: &EntryLock, session: Session, tx: Tx, client: ClientInfo) -> (r:
        Result<(), Error>)
        ensures
            !(old(self)@.locked && lock@ == old(self)@.id) ==> r == Result::<(), Error>::Err(
                Error::NotOwned,
            ) && *final(self) == *old(self),
            old(self)@.locked && lock@ == old(self)@.id && !(session@.id == old(self)@.id
                && client@.id == old(self)@.id) ==> r == Result::<(), Error>::Err(
                Error::IdentityMismatch,
            ) && *final(self) == *old(self),
            old(self)@.locked && lock@ == old(self)@.id && session@.id == old(self)@.id && client@.id
                == old(self)@.id ==> r is Ok && final(self)@ == spec_after_set(
                old(self)@,
                session@,
                tx@,
                client@,
            ),
    {
        if !self.owned_by(lock) {
            return Err(Error::NotOwned);
        }
        if !(self.id.same(&session.id) && self.id.same(&client.id)) {
            return Err(Error::IdentityMismatch);
        }
        self.state = EntryState::Online { session, tx, client };
        Ok(())
    }

    /// Forcibly clears the slot regardless of prior state, returning what it
    /// held so the caller can clean up and notify the old connection.
    pub fn remove(&mut self, lock: &EntryLock) -> (r: Result<
        Option<(Session, Tx, ClientInfo)>,
        Error,
    >)
        ensures
            !(old(self)@.locked && lock@ == old(self)@.id) ==> r == Result::<
                Option<(Session, Tx, ClientInfo)>,
                Error,
            >::Err(Error::NotOwned) && *final(self) == *old(self),
            old(self)@.locked && lock@ == old(self)@.id ==> {
                &&& r is Ok
                &&& final(self)@ == spec_after_remove(old(self)@)
                &&& match old(self)@.state {
                    EntryStateV::Empty => r == Result::<
                        Option<(Session, Tx, ClientInfo)>,
                        Error,
                    >::Ok(Option::None),
                    EntryStateV::Online { session, tx, client } => r matches Ok(o) && o matches Some(
                        p,
                    ) && Option::Some((p.0@, p.1@, p.2@)) == spec_removed_triple(old(self)@),
                    EntryStateV::Offline { session } => r matches Ok(o) && o matches Some(p) && p.0@
                        == session && p.1@.closed && p.1@.queue.len() == 0 && p.2@.id == old(
                        self,
                    )@.id,
                }
            },
    {
        if !self.owned_by(lock) {
            return Err(Error::NotOwned);
        }
        let mut st = EntryState::Empty;
        core::mem::swap(&mut st, &mut self.state);
        match st {
            EntryState::Empty => Ok(None),
            EntryState::Online { session, tx, client } => Ok(Some((session, tx, client))),
            EntryState::Offline { session } => {
                let tx = Tx { capacity: 0, closed: true, queue: Vec::new() };
                let client = ClientInfo { id: self.id.clone(), protocol: 0, connected_at: 0 };
                proof {
                    assert(tx@.queue =~= Seq::<MessageV>::empty());
                }
                Ok(Some((session, tx, client)))
            },
        }
    }

    /// Displaces whatever occupies the slot so a new connection can claim the
    /// identity.  Returns a snapshot of what was kicked, or `None` if the
    /// slot was already empty; for an online occupant the snapshot comes
    /// with its delivery channel, signalled to terminate that connection.
    /// When `clear_subscriptions` is set, the old session's filters are
    /// unregistered from the router; otherwise the router is untouched.
    /// `is_admin` only distinguishes an administrative disconnect from a
    /// protocol-driven takeover for the caller's records.
    pub fn kick(
        &mut self,
        lock: &EntryLock,
        router: &mut Router,
        clear_subscriptions: bool,
        is_admin: bool,
    ) -> (r: Result<Option<(SessionOfflineInfo, Option<Tx>)>, Error>)
        requires
            old(router).wf(),
        ensures
            final(router).wf(),
            final(router).topics_max == old(router).topics_max,
            final(router).relations_max == old(router).relations_max,
            !(old(self)@.locked && lock@ == old(self)@.id) ==> r == Result::<
                Option<(SessionOfflineInfo, Option<Tx>)>,
                Error,
            >::Err(Error::NotOwned) && *final(self) == *old(self) && *final(router) == *old(router),
            old(self)@.locked && lock@ == old(self)@.id ==> {
                &&& r is Ok
                &&& final(self)@ == (EntryV { state: EntryStateV::Empty, ..old(self)@ })
                &&& match spec_session_of(old(self)@.state) {
                    Option::None => r == Result::<
                        Option<(SessionOfflineInfo, Option<Tx>)>,
                        Error,
                    >::Ok(Option::None) && *final(router) == *old(router),
                    Option::Some(s) => r matches Ok(o) && o matches Some(p) && p.0@
                        == (SessionOfflineInfoV { id: s.id, subscriptions: s.subscriptions }),
                }
                &&& match old(self)@.state {
                    EntryStateV::Online { tx, .. } => r matches Ok(o) && o matches Some(p)
                        && p.1 matches Some(t) && t@ == spec_signaled(tx),
                    EntryStateV::Offline { .. } => r matches Ok(o) && o matches Some(p) && p.1
                        is None,
                    EntryStateV::Empty => true,
                }
                &&& clear_subscriptions ==> final(router).subs_view() == spec_clear(
                    old(router).subs_view(),
                    spec_subs_of(old(self)@.state),
                    old(self)@.id,
                )
                &&& !clear_subscriptions ==> *final(router) == *old(router)
            },
    {
        if !self.owned_by(lock) {
            return Err(Error::NotOwned);
        }
        let mut st = EntryState::Empty;
        core::mem::swap(&mut st, &mut self.state);
        let (session, signalled) = match st {
            EntryState::Empty => {
                proof {
                    assert(spec_subs_of(old(self)@.state) =~= Seq::<SessionSubV>::empty());
                }
                return Ok(None);
            },
            EntryState::Online { session, tx, .. } => {
                let mut tx = tx;
                if !tx.closed {
                    let ghost q0 = tx.queue.deep_view();
                    tx.queue.push(Message::Kick);
                    proof {
                        assert(tx.queue.deep_view() =~= q0.push(MessageV::Kick));
                    }
                }
                (session, Some(tx))
            },
            EntryState::Offline { session } => (session, None),
        };
        if clear_subscriptions {
            let ghost subs0 = session@.subscriptions;
            let ghost rs0 = router.subs_view();
            let ghost eid = old(self)@.id;
            proof {
                assert(subs0.skip(0) =~= subs0);
            }
            let n = session.subscriptions.len();
            let mut i: usize = 0;
            while i < n
                invariant
                    i <= n,
                    n == session.subscriptions.len(),
                    subs0 == session@.subscriptions,
                    Option::Some(session@) == spec_session_of(old(self)@.state),
                    self@ == (EntryV { state: EntryStateV::Empty, ..old(self)@ }),
                    match old(self)@.state {
                        EntryStateV::Online { tx, .. } => signalled matches Some(t) && t@
                            == spec_signaled(tx),
                        EntryStateV::Offline { .. } => signalled is None,
                        EntryStateV::Empty => false,
                    },
                    eid == old(self)@.id,
                    router.wf(),
                    router.topics_max == old(router).topics_max,
                    router.relations_max == old(router).relations_max,
                    rs0 == old(router).subs_view(),
                    spec_clear(rs0, subs0, eid) == spec_clear(
                        router.subs_view(),
                        subs0.skip(i as int),
                        eid,
                    ),
                decreases n - i,
            {
                let ghost rcur = router.subs_view();
                let filter = session.subscriptions[i].0.clone();
                let cid = self.id.clone();
                proof {
                    assert(cid@ == eid);
                    assert(filter@ == subs0[i as int].0);
                    assert(subs0.skip(i as int)[0] == subs0[i as int]);
                    assert(subs0.skip(i as int).skip(1) =~= subs0.skip(i + 1 as int));
                    assert(spec_clear(rcur, subs0.skip(i as int), eid) == spec_clear(
                        spec_remove(rcur, (subs0[i as int].0, eid)),
                        subs0.skip(i + 1 as int),
                        eid,
                    ));
                }
                let res = router.remove(filter.as_str(), cid);
                let _ = res;
                i = i + 1;
            }
            proof {
                assert(subs0.skip(n as int) =~= Seq::<SessionSubV>::empty());
            }
        }
        let info = SessionOfflineInfo { id: session.id, subscriptions: session.subscriptions };
        Ok(Some((info, signalled)))
    }

    /// Whether this identity currently has a live connection.  The local,
    /// synchronous check and the cluster-wide probe agree on a single node.
    pub fn is_connected(&self) -> (r: bool)
        ensures
            r == (self@.state is Online),
    {
        match &self.state {
            EntryState::Online { .. } => true,
            _ => false,
        }
    }

    /// Liveness probe; on this node it reports the slot's own state.
    pub fn online(&self) -> (r: bool)
        ensures
            r == (self@.state is Online),
    {
        self.is_connected()
    }

    /// Whether the slot holds any session, online or offline.
    pub fn exist(&self) -> (r: bool)
        ensures
            r == !(self@.state is Empty),
    {
        match &self.state {
            EntryState::Empty => false,
            _ => true,
        }
    }

    /// The held session, if any; no lock needed.
    pub fn session(&self) -> (r: Option<Session>)
        ensures
            r.deep_view() == spec_session_of(self@.state),
    {
        match &self.state {
            EntryState::Empty => None,
            EntryState::Online { session, .. } => Some(session.clone()),
            EntryState::Offline { session } => Some(session.clone()),
        }
    }

    /// The connection metadata, if online; no lock needed.
    pub fn client(&self) -> (r: Option<ClientInfo>)
        ensures
            match self@.state {
                EntryStateV::Online { client, .. } => r matches Some(c) && c@ == client,
                _ => r is None,
            },
    {
        match &self.state {
            EntryState::Online { client, .. } => Some(client.clone()),
            _ => None,
        }
    }

    /// The delivery handle, if online; no lock needed.
    pub fn tx(&self) -> (r: Option<Tx>)
        ensures
            match self@.state {
                EntryStateV::Online { tx, .. } => r matches Some(t) && t@ == tx,
                _ => r is None,
            },
    {
        match &self.state {
            EntryState::Online { tx, .. } => Some(tx.clone()),
            _ => None,
        }
    }

    /// Applies a subscription change to this entry's session state and the
    /// router in the same logical step.
    pub fn subscribe(&mut self, router: &mut Router, subscribe: &Subscribe) -> (r: Result<
        SubscribeReturn,
        Error,
    >)
        requires
            old(router).wf(),
        ensures
            final(router).wf(),
            old(self)@.state is Empty ==> r == Result::<SubscribeReturn, Error>::Err(
                Error::SessionAbsent,
            ) && *final(self) == *old(self) && *final(router) == *old(router),
            !(old(self)@.state is Empty) && !valid_filter(subscribe.topic_filter@) ==> r
                == Result::<SubscribeReturn, Error>::Ok(SubscribeReturn::Failure) && *final(self)
                == *old(self) && *final(router) == *old(router),
            !(old(self)@.state is Empty) && valid_filter(subscribe.topic_filter@) ==> {
                &&& r == Result::<SubscribeReturn, Error>::Ok(
                    SubscribeReturn::Success(subscribe.qos),
                )
                &&& final(self)@.id == old(self)@.id
                &&& final(self)@.locked == old(self)@.locked
                &&& spec_subs_of(final(self)@.state) == spec_sub_add(
                    spec_subs_of(old(self)@.state),
                    (subscribe.topic_filter@, subscribe.qos, subscribe.shared_group.deep_view()),
                )
                &&& (final(self)@.state is Online) == (old(self)@.state is Online)
                &&& (final(self)@.state is Offline) == (old(self)@.state is Offline)
                &&& final(router).subs_view() == spec_add(
                    old(router).subs_view(),
                    SubV {
                        filter: subscribe.topic_filter@,
                        node_id: old(self)@.id.0,
                        client_id: old(self)@.id.1,
                        qos: subscribe.qos,
                        group: subscribe.shared_group.deep_view(),
                    },
                )
            },
    {
        match &self.state {
            EntryState::Empty => {
                return Err(Error::SessionAbsent);
            },
            _ => {},
        }
        let res = router.add(
            subscribe.topic_filter.as_str(),
            self.id.clone(),
            subscribe.qos,
            crate::types::clone_opt_string(&subscribe.shared_group),
        );
        match res {
            Err(_) => Ok(SubscribeReturn::Failure),
            Ok(()) => {
                match &mut self.state {
                    EntryState::Online { session, .. } => {
                        session.set_subscription(
                            subscribe.topic_filter.clone(),
                            subscribe.qos,
                            crate::types::clone_opt_string(&subscribe.shared_group),
                        );
                    },
                    EntryState::Offline { session } => {
                        session.set_subscription(
                            subscribe.topic_filter.clone(),
                            subscribe.qos,
                            crate::types::clone_opt_string(&subscribe.shared_group),
                        );
                    },
                    EntryState::Empty => {},
                }
                Ok(SubscribeReturn::Success(subscribe.qos))
            },
        }
    }

    /// Reverts a subscription on this entry's session state and the router in
    /// the same logical step; reports whether the router held it.
    pub fn unsubscribe(&mut self, router: &mut Router, unsubscribe: &Unsubscribe) -> (r: Result<
        bool,
        Error,
    >)
        requires
            old(router).wf(),
        ensures
            final(router).wf(),
            old(self)@.state is Empty ==> r == Result::<bool, Error>::Err(Error::SessionAbsent)
                && *final(self) == *old(self) && *final(router) == *old(router),
            !(old(self)@.state is Empty) ==> {
                &&& r == Result::<bool, Error>::Ok(
                    crate::router::has_key(
                        old(router).subs_view(),
                        (unsubscribe.topic_filter@, old(self)@.id),
                    ),
                )
                &&& final(self)@.id == old(self)@.id
                &&& final(self)@.locked == old(self)@.locked
                &&& spec_subs_of(final(self)@.state) == spec_sub_remove(
                    spec_subs_of(old(self)@.state),
                    unsubscribe.topic_filter@,
                )
                &&& (final(self)@.state is Online) == (old(self)@.state is Online)
                &&& (final(self)@.state is Offline) == (old(self)@.state is Offline)
                &&& final(router).subs_view() == spec_remove(
                    old(router).subs_view(),
                    (unsubscribe.topic_filter@, old(self)@.id),
                )
                &&& final(router).topics_max == old(router).topics_max
                &&& final(router).relations_max == old(router).relations_max
            },
    {
        match &self.state {
            EntryState::Empty => {
                return Err(Error::SessionAbsent);
            },
            _ => {},
        }
        let res = router.remove(unsubscribe.topic_filter.as_str(), self.id.clone());
        let existed = match res {
            Ok(b) => b,
            Err(_) => false,
        };
        match &mut self.state {
            EntryState::Online { session, .. } => {
                session.remove_subscription(unsubscribe.topic_filter.as_str());
            },
            EntryState::Offline { session } => {
                session.remove_subscription(unsubscribe.topic_filter.as_str());
            },
            EntryState::Empty => {},
        }
        Ok(existed)
    }

    /// Delivers one message to this entry's channel if online.  Failure is an
    /// expected outcome: the undelivered message comes back with the reason.
    pub fn publish(&mut self, from: Id, publish: Publish) -> (r: Result<(), (Id, Publish, Reason)>)
        ensures
            final(self)@.id == old(self)@.id,
            final(self)@.locked == old(self)@.locked,
            match old(self)@.state {
                EntryStateV::Online { session, tx, client } => {
                    if tx.closed {
                        r matches Err(e) && e.0@ == from@ && e.1@ == publish@ && e.2
                            == Reason::ChannelClosed && *final(self) == *old(self)
                    } else if tx.queue.len() >= tx.capacity {
                        r matches Err(e) && e.0@ == from@ && e.1@ == publish@ && e.2
                            == Reason::MessageQueueFull && *final(self) == *old(self)
                    } else {
                        r is Ok && final(self)@.state == (EntryStateV::Online {
                            session,
                            tx: (TxV {
                                queue: tx.queue.push(MessageV::Forward(from@, publish@)),
                                ..tx
                            }),
                            client,
                        })
                    }
                },
                _ => r matches Err(e) && e.0@ == from@ && e.1@ == publish@ && e.2
                    == Reason::SessionOffline && *final(self) == *old(self),
            },
    {
        match &mut self.state {
            EntryState::Online { tx, .. } => {
                if tx.closed {
                    return Err((from, publish, Reason::ChannelClosed));
                }
                if tx.queue.len() >= tx.capacity {
                    return Err((from, publish, Reason::MessageQueueFull));
                }
                let ghost q0 = tx.queue.deep_view();
                tx.queue.push(Message::Forward(from, publish));
                proof {
                    assert(tx.queue.deep_view() =~= q0.push(
                        MessageV::Forward(from@, publish@),
                    ));
                }
                Ok(())
            },
            _ => Err((from, publish, Reason::SessionOffline)),
        }
    }
}

/// The slot after installing a session, channel and client info.
pub open spec fn spec_after_set(e: EntryV, s: SessionV, t: TxV, c: ClientInfoV) -> EntryV {
    EntryV { state: EntryStateV::Online { session: s, tx: t, client: c }, ..e }
}

/// The slot after a removal.
pub open spec fn spec_after_remove(e: EntryV) -> EntryV {
    EntryV { state: EntryStateV::Empty, ..e }
}

/// What a removal hands back from an online slot.
pub open spec fn spec_removed_triple(e: EntryV) -> Option<(SessionV, TxV, ClientInfoV)> {
    match e.state {
        EntryStateV::Online { session, tx, client } => Option::Some((session, tx, client)),
        _ => Option::None,
    }
}

/// Law: exclusive ownership.  Once a lock acquisition succeeds, every
/// further acquisition fails until the holder releases the slot, and
/// acquiring changes nothing but the lock flag.
pub proof fn lemma_exclusive_ownership(e: EntryV)
    ensures
        spec_try_lock_ok(e) ==> !spec_try_lock_ok(spec_after_try_lock(e)),
        !spec_try_lock_ok(e) ==> spec_after_try_lock(e) == e,
        spec_after_try_lock(e).id == e.id,
        spec_after_try_lock(e).state == e.state,
{
}

/// Law: removal round trip.  Installing a (session, channel, client info)
/// triple and then removing hands back exactly that triple and leaves an
/// empty slot, in which no session can be observed.
pub proof fn lemma_removal_round_trip(e: EntryV, s: SessionV, t: TxV, c: ClientInfoV)
    ensures
        spec_removed_triple(spec_after_set(e, s, t, c)) == Option::Some((s, t, c)),
        spec_after_remove(spec_after_set(e, s, t, c)).state is Empty,
        spec_session_of(spec_after_remove(spec_after_set(e, s, t, c)).state) is None,
        spec_after_remove(spec_after_set(e, s, t, c)).id == e.id,
{
}

/// Law: a kick that clears subscriptions leaves the router with no
/// registration for the kicked identity, provided every registration the
/// router held for that identity carried one of the session's own filters —
/// the consistency the surrounding session lifecycle maintains — and keys
/// were unique, as the router's well-formedness guarantees.
pub proof fn lemma_clear_clears(rs: Seq<SubV>, subs: Seq<crate::session::SessionSubV>, id: (NodeId, Seq<char>))
    requires
        forall|i: int, j: int|
            0 <= i < j < rs.len() ==> crate::router::sub_key(rs[i]) != crate::router::sub_key(
                rs[j],
            ),
        forall|j: int|
            0 <= j < rs.len() && ((#[trigger] rs[j]).node_id, rs[j].client_id) == id ==> exists|
                k: int,
            | 0 <= k < subs.len() && (#[trigger] subs[k]).0 == rs[j].filter,
    ensures
        forall|j: int|
            0 <= j < spec_clear(rs, subs, id).len() ==> ((#[trigger] spec_clear(rs, subs, id)[j]).node_id,
            spec_clear(rs, subs, id)[j].client_id) != id,
    decreases subs.len(),
{
    if subs.len() == 0 {
        assert forall|j: int|
            0 <= j < spec_clear(rs, subs, id).len() implies ((#[trigger] spec_clear(rs, subs, id)[j]).node_id,
        spec_clear(rs, subs, id)[j].client_id) != id by {
            if (rs[j].node_id, rs[j].client_id) == id {
                assert(exists|k: int| 0 <= k < subs.len() && (#[trigger] subs[k]).0 == rs[j].filter);
                assert(false);
            }
        }
    } else {
        let k0 = (subs[0].0, id);
        crate::router::lemma_find_key(rs, k0);
        let i0 = crate::router::find_key(rs, k0);
        let rs1 = crate::router::spec_remove(rs, k0);
        if i0 >= 0 {
            assert forall|a: int, b: int|
                0 <= a < b < rs1.len() implies crate::router::sub_key(rs1[a])
                != crate::router::sub_key(rs1[b]) by {
                if b < i0 {
                    assert(crate::router::sub_key(rs[a]) != crate::router::sub_key(rs[b]));
                } else if a < i0 {
                    assert(crate::router::sub_key(rs[a]) != crate::router::sub_key(rs[b + 1]));
                } else {
                    assert(crate::router::sub_key(rs[a + 1]) != crate::router::sub_key(rs[b + 1]));
                }
            }
            assert forall|j: int|
                0 <= j < rs1.len() && ((#[trigger] rs1[j]).node_id, rs1[j].client_id) == id implies exists|
                k: int,
            | 0 <= k < subs.skip(1).len() && (#[trigger] subs.skip(1)[k]).0 == rs1[j].filter by {
                let jo = if j < i0 {
                    j
                } else {
                    j + 1
                };
                assert(rs1[j] == rs[jo]);
                let k = choose|k: int| 0 <= k < subs.len() && (#[trigger] subs[k]).0 == rs[jo].filter;
                if k == 0 {
                    assert(crate::router::sub_key(rs[jo]) == k0);
                    assert(crate::router::sub_key(rs[i0]) == k0);
                    assert(false);
                } else {
                    assert(subs.skip(1)[k - 1].0 == rs1[j].filter);
                }
            }
            lemma_clear_clears(rs1, subs.skip(1), id);
        } else {
            assert(rs1 == rs);
            assert forall|j: int|
                0 <= j < rs1.len() && ((#[trigger] rs1[j]).node_id, rs1[j].client_id) == id implies exists|
                k: int,
            | 0 <= k < subs.skip(1).len() && (#[trigger] subs.skip(1)[k]).0 == rs1[j].filter by {
                let k = choose|k: int| 0 <= k < subs.len() && (#[trigger] subs[k]).0 == rs[j].filter;
                if k == 0 {
                    assert(crate::router::sub_key(rs[j]) == k0);
                    assert(false);
                } else {
                    assert(subs.skip(1)[k - 1].0 == rs1[j].filter);
                }
            }
            lemma_clear_clears(rs1, subs.skip(1), id);
        }
    }
}

/// Law: a match query never returns a relation for an identity that has no
/// registration.
pub proof fn lemma_matched_excludes(s: Seq<SubV>, t: Seq<char>, id: (NodeId, Seq<char>))
    requires
        forall|j: int| 0 <= j < s.len() ==> ((#[trigger] s[j]).node_id, s[j].client_id) != id,
    ensures
        forall|j: int|
            0 <= j < crate::router::spec_matched(s, t).len() ==> ((
            #[trigger] crate::router::spec_matched(s, t)[j]).node_id,
            crate::router::spec_matched(s, t)[j].client_id) != id,
    decreases s.len(),
{
    if s.len() > 0 {
        assert forall|j: int|
            0 <= j < s.drop_last().len() implies ((#[trigger] s.drop_last()[j]).node_id,
        s.drop_last()[j].client_id) != id by {
            assert(s.drop_last()[j] == s[j]);
        }
        lemma_matched_excludes(s.drop_last(), t, id);
    }
}

/// Law: after a kick that clears subscriptions, no topic's match set holds a
/// relation for the kicked identity, under the same premises as
/// `lemma_clear_clears`.
pub proof fn lemma_kick_clears_routing(
    rs: Seq<SubV>,
    subs: Seq<crate::session::SessionSubV>,
    id: (NodeId, Seq<char>),
    t: Seq<char>,
)
    requires
        forall|i: int, j: int|
            0 <= i < j < rs.len() ==> crate::router::sub_key(rs[i]) != crate::router::sub_key(
                rs[j],
            ),
        forall|j: int|
            0 <= j < rs.len() && ((#[trigger] rs[j]).node_id, rs[j].client_id) == id ==> exists|
                k: int,
            | 0 <= k < subs.len() && (#[trigger] subs[k]).0 == rs[j].filter,
    ensures
        forall|j: int|
            0 <= j < crate::router::spec_matched(spec_clear(rs, subs, id), t).len() ==> ((
            #[trigger] crate::router::spec_matched(spec_clear(rs, subs, id), t)[j]).node_id,
            crate::router::spec_matched(spec_clear(rs, subs, id), t)[j].client_id) != id,
{
    lemma_clear_clears(rs, subs, id);
    lemma_matched_excludes(spec_clear(rs, subs, id), t, id);
}

} // verus!
