//! The capability interfaces of the broker core.
//!
//! Each contract here has a small, closed set of realizations chosen at
//! start-up; this crate carries the verified single-node ones, whose
//! contracts live on their methods: [`crate::entry::Entry`] realizes
//! [`Entry`], [`crate::retain::RetainStorage`] realizes [`RetainStorage`],
//! and [`crate::limiter::Limiter`] and [`crate::limiter::LimiterManager`]
//! realize [`Limiter`] and [`LimiterManager`].  A clustered deployment
//! substitutes implementations that reach remote nodes over its transport.

use vstd::prelude::*;

use crate::entry::EntryLock;
use crate::retain::Retain;
use crate::router::Router;
use crate::session::{ClientInfo, Session, SessionOfflineInfo, Subscribe, SubscribeReturn, Unsubscribe};
use crate::types::{Error, Id, Listener, Publish, Reason, TopicName, Tx};

verus! {

/// One identity's exclusive ownership slot: locking, install, removal,
/// forcible kick and message delivery.
pub trait Entry {
    /// Attempts to acquire exclusive access; fails fast under contention.
    fn try_lock(&mut self) -> Result<EntryLock, Error>;

    /// This slot's identity.
    fn id(&self) -> Id;

    /// Installs a new online session into the slot.
    fn set(&mut self, lock: &EntryLock, session: Session, tx: Tx, client: ClientInfo) -> Result<
        (),
        Error,
    >;

    /// Forcibly clears the slot, returning what it held.
    fn remove(&mut self, lock: &EntryLock) -> Result<Option<(Session, Tx, ClientInfo)>, Error>;

    /// Displaces the occupant for a session takeover, signalling its
    /// delivery channel and clearing its router registrations when asked.
    fn kick(
        &mut self,
        lock: &EntryLock,
        router: &mut Router,
        clear_subscriptions: bool,
        is_admin: bool,
    ) -> Result<Option<(SessionOfflineInfo, Option<Tx>)>, Error>
        requires
            old(router).wf(),
    ;

    /// Liveness probe, possibly cluster-wide.
    fn online(&self) -> bool;

    /// Local, synchronous, best-effort connectivity check.
    fn is_connected(&self) -> bool;

    /// The held session, if any.
    fn session(&self) -> Option<Session>;

    /// The connection metadata, if online.
    fn client(&self) -> Option<ClientInfo>;

    /// Whether the slot holds any session.
    fn exist(&self) -> bool;

    /// The delivery handle, if online.
    fn tx(&self) -> Option<Tx>;

    /// Applies a subscription change to the session and the router in one
    /// logical step.
    fn subscribe(&mut self, router: &mut Router, subscribe: &Subscribe) -> Result<
        SubscribeReturn,
        Error,
    >
        requires
            old(router).wf(),
    ;

    /// Reverts a subscription on the session and the router in one logical
    /// step.
    fn unsubscribe(&mut self, router: &mut Router, unsubscribe: &Unsubscribe) -> Result<bool, Error>
        requires
            old(router).wf(),
    ;

    /// Delivers one message if online; an undelivered message comes back
    /// with its reason.
    fn publish(&mut self, from: Id, publish: Publish) -> Result<(), (Id, Publish, Reason)>;
}

impl Entry for crate::entry::Entry {
    fn try_lock(&mut self) -> Result<EntryLock, Error> {
        crate::entry::Entry::try_lock(self)
    }

    fn id(&self) -> Id {
        crate::entry::Entry::id(self)
    }

    fn set(&mut self, lock: &EntryLock, session: Session, tx: Tx, client: ClientInfo) -> Result<
        (),
        Error,
    > {
        crate::entry::Entry::set(self, lock, session, tx, client)
    }

    fn remove(&mut self, lock: &EntryLock) -> Result<Option<(Session, Tx, ClientInfo)>, Error> {
        crate::entry::Entry::remove(self, lock)
    }

    fn kick(
        &mut self,
        lock: &EntryLock,
        router: &mut Router,
        clear_subscriptions: bool,
        is_admin: bool,
    ) -> Result<Option<(SessionOfflineInfo, Option<Tx>)>, Error> {
        crate::entry::Entry::kick(self, lock, router, clear_subscriptions, is_admin)
    }

    fn online(&self) -> bool {
        crate::entry::Entry::online(self)
    }

    fn is_connected(&self) -> bool {
        crate::entry::Entry::is_connected(self)
    }

    fn session(&self) -> Option<Session> {
        crate::entry::Entry::session(self)
    }

    fn client(&self) -> Option<ClientInfo> {
        crate::entry::Entry::client(self)
    }

    fn exist(&self) -> bool {
        crate::entry::Entry::exist(self)
    }

    fn tx(&self) -> Option<Tx> {
        crate::entry::Entry::tx(self)
    }

    fn subscribe(&mut self, router: &mut Router, subscribe: &Subscribe) -> Result<
        SubscribeReturn,
        Error,
    > {
        crate::entry::Entry::subscribe(self, router, subscribe)
    }

    fn unsubscribe(&mut self, router: &mut Router, unsubscribe: &Unsubscribe) -> Result<
        bool,
        Error,
    > {
        crate::entry::Entry::unsubscribe(self, router, unsubscribe)
    }

    fn publish(&mut self, from: Id, publish: Publish) -> Result<(), (Id, Publish, Reason)> {
        crate::entry::Entry::publish(self, from, publish)
    }
}

/// Last-payload storage for concrete topics, queried by filter.
/// [`crate::retain::RetainStorage`] realizes it; its mutating contracts
/// demand the storage well-formedness its constructor establishes, which
/// this interface alone cannot carry, so it stays a declaration.
pub trait RetainStorage {
    /// Whether retained messages are enabled for this listener.
    fn is_supported(&self, listen_cfg: &Listener) -> bool;

    /// Stores the retained message for one concrete topic.
    fn set(&mut self, topic: &str, retain: Retain) -> Result<(), Error>;

    /// The retained messages whose topic matches the filter.
    fn get(&self, topic_filter: &str) -> Result<Vec<(TopicName, Retain)>, Error>;

    /// Number of retained topics.
    fn count(&self) -> isize;

    /// Highest number of retained topics ever reached.
    fn max(&self) -> isize;
}

/// Hands out the admission control configured for one listener.
pub trait LimiterManager {
    fn get(&self, name: String, listen_cfg: Listener) -> Result<crate::limiter::Limiter, Error>;
}

impl LimiterManager for crate::limiter::LimiterManager {
    fn get(&self, name: String, listen_cfg: Listener) -> Result<crate::limiter::Limiter, Error> {
        crate::limiter::LimiterManager::get(self, name, listen_cfg)
    }
}

/// Admission control for connection handshakes.
pub trait Limiter {
    fn acquire(&self, handshakings: isize) -> Result<(), Error>;
}

impl Limiter for crate::limiter::Limiter {
    fn acquire(&self, handshakings: isize) -> Result<(), Error> {
        crate::limiter::Limiter::acquire(self, handshakings)
    }
}

} // verus!
