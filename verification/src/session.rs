//! Per-client session state and connection metadata.

use vstd::prelude::*;

use crate::types::{clone_opt_string, Id, NodeId, QoS, SharedGroup, TopicFilter};

verus! {

/// Mathematical value of one subscription held by a session:
/// (filter, qos, optional shared group).
pub type SessionSubV = (Seq<char>, QoS, Option<Seq<char>>);

/// Index of the first session subscription with filter `f`, or `-1`.
pub open spec fn find_filter(s: Seq<SessionSubV>, f: Seq<char>) -> int
    decreases s.len(),
{
    if s.len() == 0 {
        -1
    } else if s[0].0 == f {
        0
    } else {
        let r = find_filter(s.skip(1), f);
        if r < 0 {
            -1
        } else {
            r + 1
        }
    }
}

pub proof fn lemma_find_filter(s: Seq<SessionSubV>, f: Seq<char>)
    ensures
        -1 <= find_filter(s, f) < s.len(),
        find_filter(s, f) >= 0 ==> s[find_filter(s, f)].0 == f,
        forall|j: int| 0 <= j < find_filter(s, f) ==> s[j].0 != f,
        find_filter(s, f) == -1 ==> forall|j: int| 0 <= j < s.len() ==> s[j].0 != f,
    decreases s.len(),
{
    if s.len() == 0 {
    } else if s[0].0 == f {
    } else {
        lemma_find_filter(s.skip(1), f);
        assert forall|j: int| 0 <= j < find_filter(s, f) implies s[j].0 != f by {
            if j > 0 {
                assert(s.skip(1)[j - 1].0 != f);
            }
        }
        if find_filter(s, f) == -1 {
            assert forall|j: int| 0 <= j < s.len() implies s[j].0 != f by {
                if j > 0 {
                    assert(s.skip(1)[j - 1].0 != f);
                }
            }
        }
    }
}

/// What recording a subscription does to a session's subscription list.
pub open spec fn spec_sub_add(s: Seq<SessionSubV>, x: SessionSubV) -> Seq<SessionSubV> {
    let i = find_filter(s, x.0);
    if i >= 0 {
        s.update(i, x)
    } else {
        s.push(x)
    }
}

/// What dropping a subscription does to a session's subscription list.
pub open spec fn spec_sub_remove(s: Seq<SessionSubV>, f: Seq<char>) -> Seq<SessionSubV> {
    let i = find_filter(s, f);
    if i >= 0 {
        s.remove(i)
    } else {
        s
    }
}

/// Mutable per-client session state: its identity and subscribed filters.
#[derive(Debug)]
pub struct Session {
    pub id: Id,
    pub subscriptions: Vec<(TopicFilter, QoS, Option<SharedGroup>)>,
}

/// Mathematical value of a `Session`.
pub ghost struct SessionV {
    pub id: (NodeId, Seq<char>),
    pub subscriptions: Seq<SessionSubV>,
}

impl View for Session {
    type V = SessionV;

    open spec fn view(&self) -> SessionV {
        SessionV { id: self.id@, subscriptions: self.subscriptions.deep_view() }
    }
}

impl DeepView for Session {
    type V = SessionV;

    open spec fn deep_view(&self) -> SessionV {
        self.view()
    }
}

impl Session {
    pub fn new(id: Id) -> (r: Session)
        ensures
            r@.id == id@,
            r@.subscriptions.len() == 0,
    {
        let r = Session { id, subscriptions: Vec::new() };
        proof {
            assert(r@.subscriptions =~= Seq::<SessionSubV>::empty());
        }
        r
    }

    /// Records one subscription, replacing a previous one for the same
    /// filter rather than duplicating it.
    pub fn set_subscription(&mut self, filter: TopicFilter, qos: QoS, group: Option<SharedGroup>)
        ensures
            final(self)@.id == old(self)@.id,
            final(self)@.subscriptions == spec_sub_add(
                old(self)@.subscriptions,
                (filter@, qos, group.deep_view()),
            ),
    {
        let ghost s0 = self@.subscriptions;
        let ghost x = (filter@, qos, group.deep_view());
        let n = self.subscriptions.len();
        let mut i: usize = 0;
        while i < n
            invariant
                i <= n,
                n == self.subscriptions.len(),
                *self == *old(self),
                s0 == old(self)@.subscriptions,
                x == (filter@, qos, group.deep_view()),
                forall|j: int| 0 <= j < i ==> s0[j].0 != x.0,
            decreases n - i,
        {
            if self.subscriptions[i].0 == filter {
                proof {
                    lemma_find_filter(s0, x.0);
                    assert(s0[i as int].0 == x.0);
                    assert(find_filter(s0, x.0) == i);
                }
                self.subscriptions.remove(i);
                self.subscriptions.insert(i, (filter, qos, group));
                proof {
                    assert(self@.subscriptions =~~= s0.update(i as int, x));
                }
                return ;
            }
            i = i + 1;
        }
        proof {
            lemma_find_filter(s0, x.0);
            if find_filter(s0, x.0) >= 0 {
                assert(s0[find_filter(s0, x.0)].0 == x.0);
            }
        }
        self.subscriptions.push((filter, qos, group));
        proof {
            assert(self@.subscriptions =~~= s0.push(x));
        }
    }

    /// Drops the subscription for `filter`; reports whether one existed.
    pub fn remove_subscription(&mut self, filter: &str) -> (r: bool)
        ensures
            final(self)@.id == old(self)@.id,
            r == (find_filter(old(self)@.subscriptions, filter@) >= 0),
            final(self)@.subscriptions == spec_sub_remove(old(self)@.subscriptions, filter@),
    {
        let ghost s0 = self@.subscriptions;
        let n = self.subscriptions.len();
        let mut i: usize = 0;
        while i < n
            invariant
                i <= n,
                n == self.subscriptions.len(),
                *self == *old(self),
                s0 == old(self)@.subscriptions,
                forall|j: int| 0 <= j < i ==> s0[j].0 != filter@,
            decreases n - i,
        {
            if crate::types::str_eq(self.subscriptions[i].0.as_str(), filter) {
                proof {
                    lemma_find_filter(s0, filter@);
                    assert(s0[i as int].0 == filter@);
                    assert(find_filter(s0, filter@) == i);
                }
                self.subscriptions.remove(i);
                proof {
                    assert(self@.subscriptions =~~= s0.remove(i as int));
                }
                return true;
            }
            i = i + 1;
        }
        proof {
            lemma_find_filter(s0, filter@);
            if find_filter(s0, filter@) >= 0 {
                assert(s0[find_filter(s0, filter@)].0 == filter@);
            }
        }
        false
    }
}

impl Clone for Session {
    fn clone(&self) -> (r: Session)
        ensures
            r@ == self@,
    {
        let mut subscriptions: Vec<(TopicFilter, QoS, Option<SharedGroup>)> = Vec::new();
        let mut i: usize = 0;
        while i < self.subscriptions.len()
            invariant
                i <= self.subscriptions.len(),
                subscriptions.len() == i,
                forall|k: int|
                    0 <= k < i ==> subscriptions.deep_view()[k]
                        == self.subscriptions.deep_view()[k],
            decreases self.subscriptions.len() - i,
        {
            let (f, q, g) = &self.subscriptions[i];
            let ghost p0 = subscriptions.deep_view();
            subscriptions.push((f.clone(), *q, clone_opt_string(g)));
            proof {
                assert(subscriptions.deep_view() =~= p0.push(
                    self.subscriptions.deep_view()[i as int],
                ));
            }
            i = i + 1;
        }
        proof {
            assert(subscriptions.deep_view() =~= self.subscriptions.deep_view());
        }
        Session { id: self.id.clone(), subscriptions }
    }
}

/// Connection-level metadata paired with a session while it is online.
#[derive(Debug)]
pub struct ClientInfo {
    pub id: Id,
    pub protocol: u8,
    pub connected_at: u64,
}

/// Mathematical value of a `ClientInfo`.
pub ghost struct ClientInfoV {
    pub id: (NodeId, Seq<char>),
    pub protocol: u8,
    pub connected_at: u64,
}

impl View for ClientInfo {
    type V = ClientInfoV;

    open spec fn view(&self) -> ClientInfoV {
        ClientInfoV { id: self.id@, protocol: self.protocol, connected_at: self.connected_at }
    }
}

impl Clone for ClientInfo {
    fn clone(&self) -> (r: ClientInfo)
        ensures
            r@ == self@,
    {
        ClientInfo { id: self.id.clone(), protocol: self.protocol, connected_at: self.connected_at }
    }
}

/// Snapshot retained for observability when a session is displaced.
#[derive(Debug)]
pub struct SessionOfflineInfo {
    pub id: Id,
    pub subscriptions: Vec<(TopicFilter, QoS, Option<SharedGroup>)>,
}

/// Mathematical value of a `SessionOfflineInfo`.
pub ghost struct SessionOfflineInfoV {
    pub id: (NodeId, Seq<char>),
    pub subscriptions: Seq<SessionSubV>,
}

impl View for SessionOfflineInfo {
    type V = SessionOfflineInfoV;

    open spec fn view(&self) -> SessionOfflineInfoV {
        SessionOfflineInfoV { id: self.id@, subscriptions: self.subscriptions.deep_view() }
    }
}

/// One requested subscription change.
pub struct Subscribe {
    pub topic_filter: TopicFilter,
    pub qos: QoS,
    pub shared_group: Option<SharedGroup>,
}

/// One requested unsubscription.
pub struct Unsubscribe {
    pub topic_filter: TopicFilter,
}

/// Per-filter outcome of a subscribe call.
#[derive(Clone, Copy, Debug, PartialEq, Eq, Structural)]
pub enum SubscribeReturn {
    /// Granted, with the effective quality-of-service level.
    Success(QoS),
    /// Rejected: the filter breaks the wildcard grammar.
    Failure,
}

/// Coarse classification of one client name's session.
pub struct SessionStatus {
    pub id: Id,
    pub online: bool,
}

impl View for SessionStatus {
    type V = ((NodeId, Seq<char>), bool);

    open spec fn view(&self) -> ((NodeId, Seq<char>), bool) {
        (self.id@, self.online)
    }
}

} // verus!
