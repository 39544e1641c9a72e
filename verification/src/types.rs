//! Identity, topic and message value types shared by the whole broker core.

use vstd::prelude::*;

verus! {

/// Ordinal of one process instance in a multi-node broker deployment.
pub type NodeId = u64;

/// Opaque client name; an `Id` pairs it with the node it connected to.
pub type ClientId = String;

/// Name of a shared-subscription group.
pub type SharedGroup = String;

/// A concrete, wildcard-free, `/`-separated topic string.
pub type TopicName = String;

/// A subscription pattern over the same segment grammar as `TopicName`,
/// possibly containing `+` (one segment) and a trailing `#` (all remaining).
pub type TopicFilter = String;

pub type IsOnline = bool;

pub type IsAdmin = bool;

/// Composite session identifier: the node a client connected to plus the
/// client name.  An `Id` addresses at most one live session cluster-wide.
#[derive(Debug)]
pub struct Id {
    pub node_id: NodeId,
    pub client_id: ClientId,
}

impl View for Id {
    type V = (NodeId, Seq<char>);

    open spec fn view(&self) -> (NodeId, Seq<char>) {
        (self.node_id, self.client_id@)
    }
}

impl DeepView for Id {
    type V = (NodeId, Seq<char>);

    open spec fn deep_view(&self) -> (NodeId, Seq<char>) {
        self.view()
    }
}

impl Id {
    pub fn new(node_id: NodeId, client_id: ClientId) -> (r: Id)
        ensures
            r@ == (node_id, client_id@),
    {
        Id { node_id, client_id }
    }

    /// Value equality of identities.
    pub fn same(&self, other: &Id) -> (b: bool)
        ensures
            b == (self@ == other@),
    {
        self.node_id == other.node_id && self.client_id == other.client_id
    }
}

impl Clone for Id {
    fn clone(&self) -> (r: Id)
        ensures
            r@ == self@,
    {
        Id { node_id: self.node_id, client_id: self.client_id.clone() }
    }
}

/// Quality-of-service level of a subscription or a publish.
#[derive(Clone, Copy, Debug, PartialEq, Eq, Structural)]
pub enum QoS {
    AtMostOnce,
    AtLeastOnce,
    ExactlyOnce,
}

impl View for QoS {
    type V = QoS;

    open spec fn view(&self) -> QoS {
        *self
    }
}

impl DeepView for QoS {
    type V = QoS;

    open spec fn deep_view(&self) -> QoS {
        *self
    }
}

impl QoS {
    /// Numeric level as it appears on the wire.
    pub open spec fn spec_level(self) -> u8 {
        match self {
            QoS::AtMostOnce => 0,
            QoS::AtLeastOnce => 1,
            QoS::ExactlyOnce => 2,
        }
    }

    pub fn level(&self) -> (r: u8)
        ensures
            r == self.spec_level(),
    {
        match self {
            QoS::AtMostOnce => 0,
            QoS::AtLeastOnce => 1,
            QoS::ExactlyOnce => 2,
        }
    }
}

/// Why a message could not be delivered to a recipient, or why it is handed
/// back to the caller for remote dispatch.  Every failure in this core is
/// representable as data; none is fatal.
#[derive(Clone, Copy, Debug, PartialEq, Eq, Structural)]
pub enum Reason {
    /// The identity's slot holds no live connection.
    SessionOffline,
    /// The delivery channel has reached its capacity.
    MessageQueueFull,
    /// The delivery channel was closed by the receiving side.
    ChannelClosed,
    /// The recipient lives on another node; the transport layer must ship it.
    Forward,
}

impl View for Reason {
    type V = Reason;

    open spec fn view(&self) -> Reason {
        *self
    }
}

impl DeepView for Reason {
    type V = Reason;

    open spec fn deep_view(&self) -> Reason {
        *self
    }
}

/// Recoverable errors of the ownership and routing operations.
#[derive(Clone, Copy, Debug, PartialEq, Eq, Structural)]
pub enum Error {
    /// Another operation currently holds the slot's lock.
    Contention,
    /// A mutating operation was attempted without holding the slot's lock.
    NotOwned,
    /// A topic filter breaks the wildcard grammar.
    InvalidFilter,
    /// The installed value does not belong to this slot's identity.
    IdentityMismatch,
    /// The slot holds no session to operate on.
    SessionAbsent,
    /// An identity is already registered where a fresh one was required.
    AlreadyExists,
    /// Admission control rejected a handshake.
    LimitExceeded,
}

/// Read-only per-listener feature flags, consulted before the corresponding
/// work is performed.
pub struct Listener {
    pub shared_subscription: bool,
    pub retain_available: bool,
    pub max_handshakings: isize,
}

/// One published application message.
#[derive(Debug)]
pub struct Publish {
    pub topic: TopicName,
    pub payload: Vec<u8>,
    pub qos: QoS,
    pub retain: bool,
}

/// Mathematical value of a `Publish`.
pub ghost struct PublishV {
    pub topic: Seq<char>,
    pub payload: Seq<u8>,
    pub qos: QoS,
    pub retain: bool,
}

impl View for Publish {
    type V = PublishV;

    open spec fn view(&self) -> PublishV {
        PublishV { topic: self.topic@, payload: self.payload@, qos: self.qos, retain: self.retain }
    }
}

impl DeepView for Publish {
    type V = PublishV;

    open spec fn deep_view(&self) -> PublishV {
        self.view()
    }
}

impl Clone for Publish {
    fn clone(&self) -> (r: Publish)
        ensures
            r@ == self@,
    {
        Publish {
            topic: self.topic.clone(),
            payload: clone_bytes(&self.payload),
            qos: self.qos,
            retain: self.retain,
        }
    }
}

pub fn clone_bytes(v: &Vec<u8>) -> (r: Vec<u8>)
    ensures
        r@ == v@,
{
    let mut r: Vec<u8> = Vec::new();
    let mut i: usize = 0;
    while i < v.len()
        invariant
            i <= v.len(),
            r@ == v@.take(i as int),
        decreases v.len() - i,
    {
        r.push(v[i]);
        proof {
            assert(r@ =~= v@.take(i + 1 as int));
        }
        i = i + 1;
    }
    proof {
        assert(r@ =~= v@);
    }
    r
}

/// Clones an optional string, keeping its mathematical value.
pub fn clone_opt_string(v: &Option<String>) -> (r: Option<String>)
    ensures
        r.deep_view() == v.deep_view(),
{
    match v {
        Some(s) => Some(s.clone()),
        None => None,
    }
}

/// Character-wise equality of two string slices.
pub fn str_eq(a: &str, b: &str) -> (r: bool)
    ensures
        r == (a@ == b@),
{
    let n = a.unicode_len();
    if n != b.unicode_len() {
        proof {
            assert(a@ != b@);
        }
        return false;
    }
    let mut i: usize = 0;
    while i < n
        invariant
            i <= n,
            n == a@.len(),
            n == b@.len(),
            forall|j: int| 0 <= j < i ==> a@[j] == b@[j],
        decreases n - i,
    {
        if a.get_char(i) != b.get_char(i) {
            return false;
        }
        i = i + 1;
    }
    proof {
        assert(a@ =~= b@);
    }
    true
}

/// One item travelling on a connection's delivery channel.
#[derive(Debug)]
pub enum Message {
    /// An application message forwarded from the given sender.
    Forward(Id, Publish),
    /// The order to terminate this connection (session takeover or an
    /// administrative disconnect).
    Kick,
}

/// Mathematical value of a `Message`.
pub ghost enum MessageV {
    Forward((NodeId, Seq<char>), PublishV),
    Kick,
}

impl View for Message {
    type V = MessageV;

    open spec fn view(&self) -> MessageV {
        match self {
            Message::Forward(from, p) => MessageV::Forward(from@, p@),
            Message::Kick => MessageV::Kick,
        }
    }
}

impl DeepView for Message {
    type V = MessageV;

    open spec fn deep_view(&self) -> MessageV {
        self.view()
    }
}

impl Clone for Message {
    fn clone(&self) -> (r: Message)
        ensures
            r@ == self@,
    {
        match self {
            Message::Forward(from, p) => Message::Forward(from.clone(), p.clone()),
            Message::Kick => Message::Kick,
        }
    }
}

/// The handle used to push messages and control signals to the owning
/// connection's delivery path.  It models a bounded, ordered channel: items
/// are appended in call order and the receiving side drains them.
#[derive(Debug)]
pub struct Tx {
    pub capacity: usize,
    pub closed: bool,
    pub queue: Vec<Message>,
}

/// Mathematical value of a `Tx`.
pub ghost struct TxV {
    pub capacity: nat,
    pub closed: bool,
    pub queue: Seq<MessageV>,
}

impl View for Tx {
    type V = TxV;

    open spec fn view(&self) -> TxV {
        TxV {
            capacity: self.capacity as nat,
            closed: self.closed,
            queue: self.queue.deep_view(),
        }
    }
}

impl Tx {
    pub fn new(capacity: usize) -> (r: Tx)
        ensures
            r@.capacity == capacity,
            !r@.closed,
            r@.queue.len() == 0,
    {
        Tx { capacity, closed: false, queue: Vec::new() }
    }
}

impl Clone for Tx {
    fn clone(&self) -> (r: Tx)
        ensures
            r@ == self@,
    {
        let mut queue: Vec<Message> = Vec::new();
        let mut i: usize = 0;
        while i < self.queue.len()
            invariant
                i <= self.queue.len(),
                queue.len() == i,
                forall|k: int| 0 <= k < i ==> queue.deep_view()[k] == self.queue.deep_view()[k],
            decreases self.queue.len() - i,
        {
            let m = self.queue[i].clone();
            proof {
                assert(m@ == self.queue@[i as int]@);
            }
            let ghost qpre = queue.deep_view();
            queue.push(m);
            proof {
                assert(queue.deep_view() =~= qpre.push(self.queue@[i as int]@));
                assert(queue.deep_view()[i as int] == self.queue.deep_view()[i as int]);
            }
            i = i + 1;
        }
        proof {
            assert(queue.deep_view() =~= self.queue.deep_view());
        }
        Tx { capacity: self.capacity, closed: self.closed, queue }
    }
}

} // verus!
