//! The cluster forwarding facade: the single entry point the transport layer
//! calls to move a published message from its sender to all matching
//! subscribers, local and remote.
//!
//! The facade owns this node's session slots and the router.  It delivers to
//! local entries itself; recipients on other nodes come back to the caller as
//! data — the unresolved list — because only the transport layer can ship
//! them.

use vstd::assert_by_contradiction;
use vstd::prelude::*;

use crate::entry::{Entry, EntryStateV, EntryV};
use crate::router::{spec_group, spec_route, ConnSet, RelV, Router, SubRelations, SubRelationsMap, SubV};
use crate::selector::{resolved_online, Candidate, CandidateV, SharedSubscription};
use crate::session::{ClientInfo, Session};
use crate::types::{
    str_eq, Error, Id, MessageV, NodeId, Publish, PublishV, Reason, SharedGroup,
    TopicFilter,
};

verus! {

/// The decimal digit characters of a number, most significant first.
pub open spec fn digit_char(d: nat) -> char {
    if d == 0 {
        '0'
    } else if d == 1 {
        '1'
    } else if d == 2 {
        '2'
    } else if d == 3 {
        '3'
    } else if d == 4 {
        '4'
    } else if d == 5 {
        '5'
    } else if d == 6 {
        '6'
    } else if d == 7 {
        '7'
    } else if d == 8 {
        '8'
    } else {
        '9'
    }
}

pub open spec fn dec_seq(n: nat) -> Seq<char>
    decreases n,
{
    if n < 10 {
        seq![digit_char(n)]
    } else {
        dec_seq(n / 10).push(digit_char(n % 10))
    }
}

/// Relies on format! with u64's `Display`, which std documents as the
/// value's decimal digits.
#[verifier::external_body]
fn format_node_name(id: u64) -> (r: String)
    ensures
        r@ == dec_seq(id as nat) + "@127.0.0.1"@,
{
    format!("{}@127.0.0.1", id)
}

/// One undeliverable or remote recipient: (to, from, publish, reason).
pub type Undelivered = (Id, Id, Publish, Reason);

/// Mathematical value of an `Undelivered`.
pub type UndeliveredV = ((NodeId, Seq<char>), (NodeId, Seq<char>), PublishV, Reason);

/// Index of the slot for identity `id`, or `-1`.
pub open spec fn find_entry(s: Seq<EntryV>, id: (NodeId, Seq<char>)) -> int
    decreases s.len(),
{
    if s.len() == 0 {
        -1
    } else if s[0].id == id {
        0
    } else {
        let r = find_entry(s.skip(1), id);
        if r < 0 {
            -1
        } else {
            r + 1
        }
    }
}

pub proof fn lemma_find_entry(s: Seq<EntryV>, id: (NodeId, Seq<char>))
    ensures
        -1 <= find_entry(s, id) < s.len(),
        find_entry(s, id) >= 0 ==> s[find_entry(s, id)].id == id,
        forall|j: int| 0 <= j < find_entry(s, id) ==> s[j].id != id,
        find_entry(s, id) == -1 ==> forall|j: int| 0 <= j < s.len() ==> s[j].id != id,
    decreases s.len(),
{
    if s.len() == 0 {
    } else if s[0].id == id {
    } else {
        lemma_find_entry(s.skip(1), id);
        assert forall|j: int| 0 <= j < find_entry(s, id) implies s[j].id != id by {
            if j > 0 {
                assert(s.skip(1)[j - 1].id != id);
            }
        }
        if find_entry(s, id) == -1 {
            assert forall|j: int| 0 <= j < s.len() implies s[j].id != id by {
                if j > 0 {
                    assert(s.skip(1)[j - 1].id != id);
                }
            }
        }
    }
}

/// What delivering this publish did to one slot, and what it did or did not
/// accept: the slot after the attempt, and the failure reason if it failed.
pub open spec fn spec_deliver_one(
    e: EntryV,
    from: (NodeId, Seq<char>),
    p: PublishV,
) -> (EntryV, Option<Reason>) {
    match e.state {
        EntryStateV::Online { session, tx, client } => {
            if tx.closed {
                (e, Option::Some(Reason::ChannelClosed))
            } else if tx.queue.len() >= tx.capacity {
                (e, Option::Some(Reason::MessageQueueFull))
            } else {
                (
                    EntryV {
                        state: EntryStateV::Online {
                            session,
                            tx: (crate::types::TxV {
                                queue: tx.queue.push(MessageV::Forward(from, p)),
                                ..tx
                            }),
                            client,
                        },
                        ..e
                    },
                    Option::None,
                )
            }
        },
        _ => (e, Option::Some(Reason::SessionOffline)),
    }
}

/// What delivering this publish to an explicit relation list does to this
/// node's slots: each relation's client is attempted in order; a missing
/// slot, an offline one, a closed channel or a full channel adds one entry to
/// the undelivered list.
pub open spec fn spec_deliver_all(
    entries: Seq<EntryV>,
    node: NodeId,
    from: (NodeId, Seq<char>),
    p: PublishV,
    rels: Seq<RelV>,
) -> (Seq<EntryV>, Seq<UndeliveredV>)
    decreases rels.len(),
{
    if rels.len() == 0 {
        (entries, Seq::empty())
    } else {
        let cid = (node, rels[0].1);
        let i = find_entry(entries, cid);
        if i < 0 {
            let rest = spec_deliver_all(entries, node, from, p, rels.skip(1));
            (rest.0, seq![(cid, from, p, Reason::SessionOffline)] + rest.1)
        } else {
            let one = spec_deliver_one(entries[i], from, p);
            let rest = spec_deliver_all(entries.update(i, one.0), node, from, p, rels.skip(1));
            match one.1 {
                Option::None => (rest.0, rest.1),
                Option::Some(reason) => (rest.0, seq![(cid, from, p, reason)] + rest.1),
            }
        }
    }
}

pub open spec fn entry_extended_one(
    a: EntryV,
    b: EntryV,
    from: (NodeId, Seq<char>),
    p: PublishV,
) -> bool {
    &&& b.id == a.id
    &&& b.locked == a.locked
    &&& match (a.state, b.state) {
        (EntryStateV::Empty, EntryStateV::Empty) => true,
        (EntryStateV::Offline { session: s1 }, EntryStateV::Offline { session: s2 }) => s1 == s2,
        (
            EntryStateV::Online { session: s1, tx: t1, client: c1 },
            EntryStateV::Online { session: s2, tx: t2, client: c2 },
        ) => {
            &&& s1 == s2
            &&& c1 == c2
            &&& t1.capacity == t2.capacity
            &&& t1.closed == t2.closed
            &&& t2.queue.len() >= t1.queue.len()
            &&& t2.queue.take(t1.queue.len() as int) == t1.queue
            &&& forall|j: int|
                t1.queue.len() <= j < t2.queue.len() ==> t2.queue[j] == MessageV::Forward(from, p)
        },
        _ => false,
    }
}

/// Slots `b` are slots `a` after zero or more deliveries of this one
/// publish: identities, locks and sessions are kept; only online queues may
/// grow, and only by copies of this message.
pub open spec fn entries_extended_by(
    a: Seq<EntryV>,
    b: Seq<EntryV>,
    from: (NodeId, Seq<char>),
    p: PublishV,
) -> bool {
    &&& b.len() == a.len()
    &&& forall|i: int| 0 <= i < a.len() ==> entry_extended_one(a[i], #[trigger] b[i], from, p)
}

/// The (node, relation) pairs of one bucket, in bucket order.
pub open spec fn bucket_pairs(n: NodeId, rels: Seq<RelV>) -> Seq<(NodeId, RelV)>
    decreases rels.len(),
{
    if rels.len() == 0 {
        Seq::empty()
    } else {
        bucket_pairs(n, rels.drop_last()).push((n, rels.last()))
    }
}

pub proof fn lemma_bucket_pairs(n: NodeId, rels: Seq<RelV>)
    ensures
        bucket_pairs(n, rels).len() == rels.len(),
        forall|l: int| 0 <= l < rels.len() ==> bucket_pairs(n, rels)[l] == (n, rels[l]),
    decreases rels.len(),
{
    if rels.len() > 0 {
        lemma_bucket_pairs(n, rels.drop_last());
    }
}

/// All (node, relation) pairs of a route map, in traversal order.
pub open spec fn route_pairs(m: Seq<(NodeId, Seq<RelV>)>) -> Seq<(NodeId, RelV)>
    decreases m.len(),
{
    if m.len() == 0 {
        Seq::empty()
    } else {
        route_pairs(m.drop_last()) + bucket_pairs(m.last().0, m.last().1)
    }
}

/// Every bucket element stands in the flattened pair list.
pub proof fn lemma_route_pairs_contains(m: Seq<(NodeId, Seq<RelV>)>, k: int, l: int)
    requires
        0 <= k < m.len(),
        0 <= l < m[k].1.len(),
    ensures
        exists|t: int|
            0 <= t < route_pairs(m).len() && route_pairs(m)[t] == (m[k].0, m[k].1[l]),
    decreases m.len(),
{
    if k == m.len() - 1 {
        lemma_bucket_pairs(m.last().0, m.last().1);
        let t = route_pairs(m.drop_last()).len() + l;
        assert(route_pairs(m)[t] == (m[k].0, m[k].1[l]));
    } else {
        assert(m.drop_last()[k] == m[k]);
        lemma_route_pairs_contains(m.drop_last(), k, l);
        let t0 = choose|t0: int|
            0 <= t0 < route_pairs(m.drop_last()).len() && route_pairs(m.drop_last())[t0] == (
            m[k].0,
            m[k].1[l],
            );
        assert(route_pairs(m)[t0] == (m[k].0, m[k].1[l]));
    }
}

/// The plain (non-shared) relations addressed to this node, in order.
pub open spec fn plain_local_rels(ps: Seq<(NodeId, RelV)>, node: NodeId) -> Seq<RelV>
    decreases ps.len(),
{
    if ps.len() == 0 {
        Seq::empty()
    } else if ps.last().0 == node && ps.last().1.3 is None {
        plain_local_rels(ps.drop_last(), node).push(ps.last().1)
    } else {
        plain_local_rels(ps.drop_last(), node)
    }
}

/// The unresolved entries owed for plain relations on other nodes, in order.
pub open spec fn plain_remote_errs(
    ps: Seq<(NodeId, RelV)>,
    node: NodeId,
    from: (NodeId, Seq<char>),
    p: PublishV,
) -> Seq<UndeliveredV>
    decreases ps.len(),
{
    if ps.len() == 0 {
        Seq::empty()
    } else if ps.last().0 != node && ps.last().1.3 is None {
        plain_remote_errs(ps.drop_last(), node, from, p).push(
            ((ps.last().0, ps.last().1.1), from, p, Reason::Forward),
        )
    } else {
        plain_remote_errs(ps.drop_last(), node, from, p)
    }
}

/// Whether a pair carries a shared group.
pub open spec fn is_shared_pair(pr: (NodeId, RelV)) -> bool {
    pr.1.3 is Some
}

/// The (filter, group) key of a shared pair.
pub open spec fn pair_key(pr: (NodeId, RelV)) -> (Seq<char>, Seq<char>) {
    match pr.1.3 {
        Option::Some((g, _)) => (pr.1.0, g),
        Option::None => (pr.1.0, Seq::empty()),
    }
}

/// The distinct (filter, group) keys of the shared relations, in
/// first-occurrence order.
pub open spec fn shared_keys(ps: Seq<(NodeId, RelV)>) -> Seq<(Seq<char>, Seq<char>)>
    decreases ps.len(),
{
    if ps.len() == 0 {
        Seq::empty()
    } else if is_shared_pair(ps.last()) && !(exists|j: int|
        0 <= j < ps.len() - 1 && is_shared_pair(ps[j]) && pair_key(ps[j]) == pair_key(
            ps.last(),
        )) {
        shared_keys(ps.drop_last()).push(pair_key(ps.last()))
    } else {
        shared_keys(ps.drop_last())
    }
}

/// A key stands among the shared keys exactly when some shared pair carries
/// it.
pub proof fn lemma_shared_keys_membership(ps: Seq<(NodeId, RelV)>, key: (Seq<char>, Seq<char>))
    ensures
        (exists|i: int| 0 <= i < shared_keys(ps).len() && shared_keys(ps)[i] == key) <==> (
        exists|j: int| 0 <= j < ps.len() && is_shared_pair(ps[j]) && pair_key(ps[j]) == key),
    decreases ps.len(),
{
    if ps.len() > 0 {
        lemma_shared_keys_membership(ps.drop_last(), key);
        assert forall|j: int| 0 <= j < ps.len() - 1 implies ps.drop_last()[j] == ps[j] by {}
        if exists|i: int| 0 <= i < shared_keys(ps).len() && shared_keys(ps)[i] == key {
            let i = choose|i: int| 0 <= i < shared_keys(ps).len() && shared_keys(ps)[i] == key;
            if i < shared_keys(ps.drop_last()).len() {
                assert(shared_keys(ps.drop_last())[i] == key);
                let j = choose|j: int|
                    0 <= j < ps.drop_last().len() && is_shared_pair(ps.drop_last()[j])
                        && pair_key(ps.drop_last()[j]) == key;
                assert(is_shared_pair(ps[j]) && pair_key(ps[j]) == key);
            } else {
                assert(is_shared_pair(ps.last()) && pair_key(ps.last()) == key);
                assert(ps[ps.len() - 1] == ps.last());
            }
        }
        if exists|j: int| 0 <= j < ps.len() && is_shared_pair(ps[j]) && pair_key(ps[j]) == key {
            let j = choose|j: int|
                0 <= j < ps.len() && is_shared_pair(ps[j]) && pair_key(ps[j]) == key;
            if j < ps.len() - 1 {
                assert(is_shared_pair(ps.drop_last()[j]) && pair_key(ps.drop_last()[j]) == key);
                let i = choose|i: int|
                    0 <= i < shared_keys(ps.drop_last()).len() && shared_keys(ps.drop_last())[i]
                        == key;
                assert(shared_keys(ps)[i] == key || shared_keys(ps) == shared_keys(
                    ps.drop_last(),
                ));
                assert(shared_keys(ps)[i] == key);
            } else {
                if is_shared_pair(ps.last()) && !(exists|q: int|
                    0 <= q < ps.len() - 1 && is_shared_pair(ps[q]) && pair_key(ps[q]) == pair_key(
                        ps.last(),
                    )) {
                    assert(shared_keys(ps).last() == key);
                    assert(shared_keys(ps)[shared_keys(ps).len() - 1] == key);
                } else {
                    let q = choose|q: int|
                        0 <= q < ps.len() - 1 && is_shared_pair(ps[q]) && pair_key(ps[q])
                            == pair_key(ps.last());
                    assert(is_shared_pair(ps.drop_last()[q]) && pair_key(ps.drop_last()[q])
                        == key);
                    let i = choose|i: int|
                        0 <= i < shared_keys(ps.drop_last()).len() && shared_keys(
                            ps.drop_last(),
                        )[i] == key;
                    assert(shared_keys(ps)[i] == key);
                }
            }
        }
    }
}

/// The candidates of one shared group, across all nodes, in order.
pub open spec fn group_cands(ps: Seq<(NodeId, RelV)>, key: (Seq<char>, Seq<char>)) -> Seq<
    (NodeId, RelV),
>
    decreases ps.len(),
{
    if ps.len() == 0 {
        Seq::empty()
    } else if is_shared_pair(ps.last()) && pair_key(ps.last()) == key {
        group_cands(ps.drop_last(), key).push(ps.last())
    } else {
        group_cands(ps.drop_last(), key)
    }
}

/// A group some shared pair carries has at least one candidate.
pub proof fn lemma_group_cands_nonempty(ps: Seq<(NodeId, RelV)>, key: (Seq<char>, Seq<char>))
    requires
        exists|j: int| 0 <= j < ps.len() && is_shared_pair(ps[j]) && pair_key(ps[j]) == key,
    ensures
        group_cands(ps, key).len() > 0,
    decreases ps.len(),
{
    let j = choose|j: int| 0 <= j < ps.len() && is_shared_pair(ps[j]) && pair_key(ps[j]) == key;
    if j == ps.len() - 1 {
        assert(ps[j] == ps.last());
    } else {
        assert(ps.drop_last()[j] == ps[j]);
        lemma_group_cands_nonempty(ps.drop_last(), key);
    }
}

/// Every candidate of a group is a shared pair carrying that group's key.
pub proof fn lemma_group_cands_elems(ps: Seq<(NodeId, RelV)>, key: (Seq<char>, Seq<char>))
    ensures
        forall|i: int|
            0 <= i < group_cands(ps, key).len() ==> (is_shared_pair(
                #[trigger] group_cands(ps, key)[i],
            ) && pair_key(group_cands(ps, key)[i]) == key),
    decreases ps.len(),
{
    if ps.len() > 0 {
        lemma_group_cands_elems(ps.drop_last(), key);
        let prev = group_cands(ps.drop_last(), key);
        assert forall|i: int|
            0 <= i < group_cands(ps, key).len() implies (is_shared_pair(
            #[trigger] group_cands(ps, key)[i],
        ) && pair_key(group_cands(ps, key)[i]) == key) by {
            if is_shared_pair(ps.last()) && pair_key(ps.last()) == key {
                if i < prev.len() {
                    assert(group_cands(ps, key)[i] == prev[i]);
                } else {
                    assert(group_cands(ps, key)[i] == ps.last());
                }
            } else {
                assert(group_cands(ps, key)[i] == prev[i]);
            }
        }
    }
}

/// How the selector sees a candidate pair: the stored online flag is its
/// known hint.
pub open spec fn cand_of(pr: (NodeId, RelV)) -> CandidateV {
    (
        pr.0,
        pr.1.1,
        pr.1.2,
        match pr.1.3 {
            Option::Some((_, o)) => Option::Some(o),
            Option::None => Option::Some(false),
        },
    )
}

pub open spec fn cand_list(c: Seq<(NodeId, RelV)>) -> Seq<CandidateV>
    decreases c.len(),
{
    if c.len() == 0 {
        Seq::empty()
    } else {
        cand_list(c.drop_last()).push(cand_of(c.last()))
    }
}

pub proof fn lemma_cand_list(c: Seq<(NodeId, RelV)>)
    ensures
        cand_list(c).len() == c.len(),
        forall|i: int| 0 <= i < c.len() ==> cand_list(c)[i] == cand_of(c[i]),
    decreases c.len(),
{
    if c.len() > 0 {
        lemma_cand_list(c.drop_last());
    }
}

/// A winner index the selector's contract permits for this candidate list:
/// in range, and online whenever any candidate resolves online.
pub open spec fn valid_winner(
    wi: int,
    c: Seq<(NodeId, RelV)>,
    conn: Seq<(NodeId, Seq<char>)>,
) -> bool {
    &&& 0 <= wi < c.len()
    &&& (exists|j: int| 0 <= j < c.len() && resolved_online(cand_of(#[trigger] c[j]), conn))
        ==> resolved_online(cand_of(c[wi]), conn)
}

/// The relations of the shared-group winners that live on this node, one
/// per group, in group-discovery order.
pub open spec fn winner_local_rels(
    ps: Seq<(NodeId, RelV)>,
    keys: Seq<(Seq<char>, Seq<char>)>,
    w: Seq<int>,
    node: NodeId,
) -> Seq<RelV>
    decreases keys.len(),
{
    if keys.len() == 0 {
        Seq::empty()
    } else {
        let rest = winner_local_rels(ps, keys.drop_last(), w.drop_last(), node);
        let c = group_cands(ps, keys.last());
        let wi = w.last();
        if 0 <= wi < c.len() && c[wi].0 == node {
            rest.push(c[wi].1)
        } else {
            rest
        }
    }
}

/// The unresolved entries owed for shared-group winners on other nodes.
pub open spec fn winner_remote_errs(
    ps: Seq<(NodeId, RelV)>,
    keys: Seq<(Seq<char>, Seq<char>)>,
    w: Seq<int>,
    node: NodeId,
    from: (NodeId, Seq<char>),
    p: PublishV,
) -> Seq<UndeliveredV>
    decreases keys.len(),
{
    if keys.len() == 0 {
        Seq::empty()
    } else {
        let rest = winner_remote_errs(ps, keys.drop_last(), w.drop_last(), node, from, p);
        let c = group_cands(ps, keys.last());
        let wi = w.last();
        if 0 <= wi < c.len() && c[wi].0 != node {
            rest.push(((c[wi].0, c[wi].1.1), from, p, Reason::Forward))
        } else {
            rest
        }
    }
}

/// Every flattened pair comes from some bucket of the map.
pub proof fn lemma_route_pairs_elems(m: Seq<(NodeId, Seq<RelV>)>)
    ensures
        forall|t: int|
            0 <= t < route_pairs(m).len() ==> exists|k: int, l: int|
                0 <= k < m.len() && 0 <= l < m[k].1.len() && #[trigger] route_pairs(m)[t] == (
                m[k].0,
                m[k].1[l],
                ),
    decreases m.len(),
{
    if m.len() > 0 {
        lemma_route_pairs_elems(m.drop_last());
        lemma_bucket_pairs(m.last().0, m.last().1);
        assert forall|t: int|
            0 <= t < route_pairs(m).len() implies exists|k: int, l: int|
                0 <= k < m.len() && 0 <= l < m[k].1.len() && #[trigger] route_pairs(m)[t] == (
                m[k].0,
                m[k].1[l],
                ) by {
            if t < route_pairs(m.drop_last()).len() {
                let (k, l) = choose|k: int, l: int|
                    0 <= k < m.drop_last().len() && 0 <= l < m.drop_last()[k].1.len()
                        && route_pairs(m.drop_last())[t] == (
                    m.drop_last()[k].0,
                    m.drop_last()[k].1[l],
                    );
                assert(m[k] == m.drop_last()[k]);
                assert(route_pairs(m)[t] == (m[k].0, m[k].1[l]));
            } else {
                let l = t - route_pairs(m.drop_last()).len();
                let k = m.len() - 1;
                assert(route_pairs(m)[t] == bucket_pairs(m.last().0, m.last().1)[l]);
                assert(route_pairs(m)[t] == (m[k].0, m[k].1[l]));
            }
        }
    }
}

/// Every candidate of a group is one of the route's pairs.
pub proof fn lemma_group_cands_subset(ps: Seq<(NodeId, RelV)>, key: (Seq<char>, Seq<char>))
    ensures
        forall|i: int|
            0 <= i < group_cands(ps, key).len() ==> exists|j: int|
                0 <= j < ps.len() && #[trigger] group_cands(ps, key)[i] == ps[j],
    decreases ps.len(),
{
    if ps.len() > 0 {
        lemma_group_cands_subset(ps.drop_last(), key);
        let prev = group_cands(ps.drop_last(), key);
        assert forall|i: int|
            0 <= i < group_cands(ps, key).len() implies exists|j: int|
                0 <= j < ps.len() && #[trigger] group_cands(ps, key)[i] == ps[j] by {
            if i < prev.len() {
                assert(group_cands(ps, key)[i] == prev[i]);
                let j = choose|j: int|
                    0 <= j < ps.drop_last().len() && prev[i] == ps.drop_last()[j];
                assert(group_cands(ps, key)[i] == ps[j]);
            } else {
                assert(group_cands(ps, key)[i] == ps[ps.len() - 1]);
            }
        }
    }
}

/// Every shared pair of the route stands among its group's candidates.
pub proof fn lemma_group_cands_complete(
    ps: Seq<(NodeId, RelV)>,
    key: (Seq<char>, Seq<char>),
    t: int,
)
    requires
        0 <= t < ps.len(),
        is_shared_pair(ps[t]),
        pair_key(ps[t]) == key,
    ensures
        exists|i: int|
            0 <= i < group_cands(ps, key).len() && #[trigger] group_cands(ps, key)[i] == ps[t],
    decreases ps.len(),
{
    if t == ps.len() - 1 {
        assert(ps[t] == ps.last());
        assert(group_cands(ps, key)[group_cands(ps, key).len() - 1] == ps[t]);
    } else {
        assert(ps.drop_last()[t] == ps[t]);
        lemma_group_cands_complete(ps.drop_last(), key, t);
        let i = choose|i: int|
            0 <= i < group_cands(ps.drop_last(), key).len() && #[trigger] group_cands(
                ps.drop_last(),
                key,
            )[i] == ps[t];
        assert(group_cands(ps, key)[i] == ps[t]);
    }
}

/// Law: a registered shared subscription whose filter matches the topic
/// always yields a candidate for its identity in the routed candidate list
/// of its group.  In particular, after a kick that did not request clearing
/// — which leaves the router untouched — the kicked identity remains
/// selectable for shared delivery.
pub proof fn lemma_match_keeps_candidates(
    rs: Seq<SubV>,
    t: Seq<char>,
    conn: Seq<(NodeId, Seq<char>)>,
    j: int,
    g: Seq<char>,
)
    requires
        0 <= j < rs.len(),
        crate::topic::filter_matches(rs[j].filter, t),
        rs[j].group == Option::Some(g),
    ensures
        exists|i: int|
            0 <= i < group_cands(route_pairs(spec_route(rs, t, conn)), (rs[j].filter, g)).len()
                && (#[trigger] group_cands(
                route_pairs(spec_route(rs, t, conn)),
                (rs[j].filter, g),
            )[i]).0 == rs[j].node_id && group_cands(
                route_pairs(spec_route(rs, t, conn)),
                (rs[j].filter, g),
            )[i].1.1 == rs[j].client_id,
{
    let matched = crate::router::spec_matched(rs, t);
    let emitted = crate::router::emit_all(matched, conn);
    let route = spec_route(rs, t, conn);
    let ps = route_pairs(route);
    let key = (rs[j].filter, g);
    crate::router::lemma_matched_complete(rs, t, j);
    let jm = choose|jm: int| 0 <= jm < matched.len() && #[trigger] matched[jm] == rs[j];
    crate::router::lemma_emit_all_elems(matched, conn);
    assert(emitted[jm] == crate::router::emit(rs[j], conn));
    crate::router::lemma_group_complete(emitted, jm);
    let (k, l) = choose|k: int, l: int|
        #![trigger spec_group(emitted)[k].1[l]]
        0 <= k < spec_group(emitted).len() && 0 <= l < spec_group(emitted)[k].1.len() && (
        spec_group(emitted)[k].0,
        spec_group(emitted)[k].1[l],
        ) == emitted[jm];
    lemma_route_pairs_contains(route, k, l);
    let p = choose|p: int| 0 <= p < ps.len() && ps[p] == (route[k].0, route[k].1[l]);
    assert(is_shared_pair(ps[p]));
    assert(pair_key(ps[p]) == key);
    lemma_group_cands_complete(ps, key, p);
    let i = choose|i: int|
        0 <= i < group_cands(ps, key).len() && #[trigger] group_cands(ps, key)[i] == ps[p];
    assert(group_cands(ps, key)[i].0 == rs[j].node_id);
    assert(group_cands(ps, key)[i].1.1 == rs[j].client_id);
}

/// Law: after a kick that cleared the session's filters, the routed pairs
/// for any topic — and so every shared group's candidate list — hold no
/// relation for the kicked identity, under the same premises as
/// `lemma_clear_clears`: the router held only the session's own filters for
/// that identity, and its keys were unique.
pub proof fn lemma_kick_clears_candidates(
    rs: Seq<SubV>,
    subs: Seq<crate::session::SessionSubV>,
    id: (NodeId, Seq<char>),
    t: Seq<char>,
    conn: Seq<(NodeId, Seq<char>)>,
)
    requires
        forall|i: int, j: int|
            0 <= i < j < rs.len() ==> crate::router::sub_key(rs[i]) != crate::router::sub_key(
                rs[j],
            ),
        forall|j: int|
            0 <= j < rs.len() && ((#[trigger] rs[j]).node_id, rs[j].client_id) == id ==> exists|
                k: int,
            | 0 <= k < subs.len() && (#[trigger] subs[k]).0 == rs[j].filter,
    ensures
        forall|p: int|
            0 <= p < route_pairs(
                spec_route(crate::entry::spec_clear(rs, subs, id), t, conn),
            ).len() ==> ((#[trigger] route_pairs(
                spec_route(crate::entry::spec_clear(rs, subs, id), t, conn),
            )[p]).0, route_pairs(spec_route(crate::entry::spec_clear(rs, subs, id), t, conn))[p].1.1)
                != id,
        forall|key: (Seq<char>, Seq<char>), i: int|
            0 <= i < group_cands(
                route_pairs(spec_route(crate::entry::spec_clear(rs, subs, id), t, conn)),
                key,
            ).len() ==> ((#[trigger] group_cands(
                route_pairs(spec_route(crate::entry::spec_clear(rs, subs, id), t, conn)),
                key,
            )[i]).0, group_cands(
                route_pairs(spec_route(crate::entry::spec_clear(rs, subs, id), t, conn)),
                key,
            )[i].1.1) != id,
{
    let cleared = crate::entry::spec_clear(rs, subs, id);
    let matched = crate::router::spec_matched(cleared, t);
    let emitted = crate::router::emit_all(matched, conn);
    let route = spec_route(cleared, t, conn);
    let ps = route_pairs(route);
    crate::entry::lemma_kick_clears_routing(rs, subs, id, t);
    crate::router::lemma_emit_all_elems(matched, conn);
    crate::router::lemma_group_elems(emitted);
    lemma_route_pairs_elems(route);
    assert forall|p: int| 0 <= p < ps.len() implies ((#[trigger] ps[p]).0, ps[p].1.1) != id by {
        let (k, l) = choose|k: int, l: int|
            0 <= k < route.len() && 0 <= l < route[k].1.len() && ps[p] == (
            route[k].0,
            route[k].1[l],
            );
        let j = choose|j: int|
            0 <= j < emitted.len() && emitted[j] == (route[k].0, route[k].1[l]);
        assert(emitted[j] == crate::router::emit(matched[j], conn));
        assert((matched[j].node_id, matched[j].client_id) != id);
    }
    assert forall|key: (Seq<char>, Seq<char>), i: int|
        0 <= i < group_cands(ps, key).len() implies ((#[trigger] group_cands(ps, key)[i]).0,
    group_cands(ps, key)[i].1.1) != id by {
        lemma_group_cands_subset(ps, key);
        let j = choose|j: int| 0 <= j < ps.len() && group_cands(ps, key)[i] == ps[j];
        assert((ps[j].0, ps[j].1.1) != id);
    }
}

/// The exact account of one routed publish, up to the selector's choices:
/// for winner indices `w` (one per shared group, each one the selector's
/// contract permits), the slots end as `spec_deliver_all` of the plain local
/// relations plus the local winners, and the call fails exactly when a
/// remote plain relation, a remote winner or a local delivery failure
/// exists — the unresolved list then being exactly those entries, in that
/// order.
pub open spec fn spec_forwards_exact(
    pre: Seq<EntryV>,
    subs: Seq<SubV>,
    topic: Seq<char>,
    node: NodeId,
    from: (NodeId, Seq<char>),
    p: PublishV,
    w: Seq<int>,
    ok: bool,
    errs: Seq<UndeliveredV>,
    post: Seq<EntryV>,
) -> bool {
    let cv = spec_connected(pre);
    let ps = route_pairs(spec_route(subs, topic, cv));
    let keys = shared_keys(ps);
    let delivered = plain_local_rels(ps, node) + winner_local_rels(ps, keys, w, node);
    let d = spec_deliver_all(pre, node, from, p, delivered);
    let rerrs = plain_remote_errs(ps, node, from, p) + winner_remote_errs(ps, keys, w, node, from, p);
    &&& w.len() == keys.len()
    &&& (forall|i: int|
        0 <= i < keys.len() ==> valid_winner(w[i], group_cands(ps, #[trigger] keys[i]), cv))
    &&& post == d.0
    &&& if rerrs.len() + d.1.len() == 0 {
        ok
    } else {
        !ok && errs == rerrs + d.1
    }
}

/// The identities of the online slots, in slot order.
pub open spec fn spec_connected(s: Seq<EntryV>) -> Seq<(NodeId, Seq<char>)>
    decreases s.len(),
{
    if s.len() == 0 {
        Seq::empty()
    } else if s.last().state is Online {
        spec_connected(s.drop_last()).push(s.last().id)
    } else {
        spec_connected(s.drop_last())
    }
}

pub proof fn lemma_extended_refl(a: Seq<EntryV>, from: (NodeId, Seq<char>), p: PublishV)
    ensures
        entries_extended_by(a, a, from, p),
{
    assert forall|i: int| 0 <= i < a.len() implies entry_extended_one(a[i], #[trigger] a[i], from, p) by {
        match a[i].state {
            EntryStateV::Online { session, tx, client } => {
                assert(tx.queue.take(tx.queue.len() as int) =~= tx.queue);
            },
            _ => {},
        }
    }
}

pub proof fn lemma_extended_trans(
    a: Seq<EntryV>,
    b: Seq<EntryV>,
    c: Seq<EntryV>,
    from: (NodeId, Seq<char>),
    p: PublishV,
)
    requires
        entries_extended_by(a, b, from, p),
        entries_extended_by(b, c, from, p),
    ensures
        entries_extended_by(a, c, from, p),
{
    assert forall|i: int| 0 <= i < a.len() implies entry_extended_one(a[i], #[trigger] c[i], from, p) by {
        assert(entry_extended_one(a[i], b[i], from, p));
        assert(entry_extended_one(b[i], c[i], from, p));
        match (a[i].state, b[i].state, c[i].state) {
            (
                EntryStateV::Online { tx: t1, .. },
                EntryStateV::Online { tx: t2, .. },
                EntryStateV::Online { tx: t3, .. },
            ) => {
                assert forall|j: int| 0 <= j < t1.queue.len() implies t3.queue[j] == t1.queue[j] by {
                    assert(t3.queue.take(t2.queue.len() as int)[j] == t2.queue[j]);
                    assert(t2.queue.take(t1.queue.len() as int)[j] == t1.queue[j]);
                }
                assert(t3.queue.take(t1.queue.len() as int) =~= t1.queue);
                assert forall|j: int|
                    t1.queue.len() <= j < t3.queue.len() implies t3.queue[j] == MessageV::Forward(
                    from,
                    p,
                ) by {
                    if j < t2.queue.len() {
                        assert(t3.queue.take(t2.queue.len() as int)[j] == t2.queue[j]);
                    }
                }
            },
            _ => {},
        }
    }
}

/// Delivering a relation list only extends the slots with copies of the one
/// message, and every undelivered entry carries the original sender and
/// message, is addressed on this node, and names a local failure, never a
/// remote forward.
pub proof fn lemma_deliver_all_extends(
    entries: Seq<EntryV>,
    node: NodeId,
    from: (NodeId, Seq<char>),
    p: PublishV,
    rels: Seq<RelV>,
)
    ensures
        entries_extended_by(entries, spec_deliver_all(entries, node, from, p, rels).0, from, p),
        forall|k: int|
            0 <= k < spec_deliver_all(entries, node, from, p, rels).1.len() ==> ({
                let e = #[trigger] spec_deliver_all(entries, node, from, p, rels).1[k];
                &&& e.0.0 == node
                &&& e.1 == from
                &&& e.2 == p
                &&& e.3 != Reason::Forward
            }),
    decreases rels.len(),
{
    if rels.len() == 0 {
        lemma_extended_refl(entries, from, p);
    } else {
        let cid = (node, rels[0].1);
        let i = find_entry(entries, cid);
        lemma_find_entry(entries, cid);
        if i < 0 {
            lemma_deliver_all_extends(entries, node, from, p, rels.skip(1));
        } else {
            let one = spec_deliver_one(entries[i], from, p);
            let mid = entries.update(i, one.0);
            lemma_deliver_all_extends(mid, node, from, p, rels.skip(1));
            assert(entries_extended_by(entries, mid, from, p)) by {
                assert forall|q: int|
                    0 <= q < entries.len() implies entry_extended_one(
                    entries[q],
                    #[trigger] mid[q],
                    from,
                    p,
                ) by {
                    if q == i {
                        match entries[i].state {
                            EntryStateV::Online { session, tx, client } => {
                                if !tx.closed && tx.queue.len() < tx.capacity {
                                    assert(tx.queue.push(MessageV::Forward(from, p)).take(
                                        tx.queue.len() as int,
                                    ) =~= tx.queue);
                                } else {
                                    lemma_extended_refl(entries, from, p);
                                }
                            },
                            _ => {
                                lemma_extended_refl(entries, from, p);
                            },
                        }
                    } else {
                        lemma_extended_refl(entries, from, p);
                    }
                }
            }
            lemma_extended_trans(
                entries,
                mid,
                spec_deliver_all(mid, node, from, p, rels.skip(1)).0,
                from,
                p,
            );
        }
    }
}

/// This node's registry of session slots, its router, and its view of the
/// cluster's peers.
pub struct Shared {
    pub node_id: NodeId,
    pub entries: Vec<Entry>,
    pub router: Router,
    pub selector: SharedSubscription,
    pub peers: Vec<(NodeId, String)>,
}

impl Shared {
    pub open spec fn entries_view(&self) -> Seq<EntryV> {
        self.entries.deep_view()
    }

    /// Identities are unique among slots, and the router's own
    /// well-formedness holds; keeping the router's registrations in step
    /// with the sessions' subscription sets remains the caller's burden.
    pub open spec fn wf(&self) -> bool {
        &&& self.router.wf()
        &&& forall|i: int, j: int|
            0 <= i < j < self.entries_view().len() ==> self.entries_view()[i].id
                != self.entries_view()[j].id
    }

    pub fn new(node_id: NodeId) -> (r: Shared)
        ensures
            r.wf(),
            r.node_id == node_id,
            r.entries_view().len() == 0,
            r.router.subs_view().len() == 0,
            r.peers@.len() == 0,
    {
        Shared {
            node_id,
            entries: Vec::new(),
            router: Router::new(),
            selector: SharedSubscription::new(),
            peers: Vec::new(),
        }
    }

    /// Registers one slot; refused when its identity is already present.
    pub fn add_entry(&mut self, entry: Entry) -> (r: Result<(), Error>)
        requires
            old(self).wf(),
        ensures
            final(self).wf(),
            (r is Ok) == (find_entry(old(self).entries_view(), entry@.id) == -1),
            r is Ok ==> final(self).entries_view() == old(self).entries_view().push(entry@)
                && final(self).router == old(self).router && final(self).node_id == old(
                self,
            ).node_id && final(self).peers == old(self).peers,
            r is Err ==> r == Result::<(), Error>::Err(Error::AlreadyExists) && *final(self)
                == *old(self),
    {
        let ghost s0 = self.entries_view();
        let ghost eid = entry@.id;
        let n = self.entries.len();
        let mut i: usize = 0;
        while i < n
            invariant
                i <= n,
                n == self.entries.len(),
                *self == *old(self),
                old(self).wf(),
                s0 == old(self).entries_view(),
                eid == entry@.id,
                forall|j: int| 0 <= j < i ==> s0[j].id != eid,
            decreases n - i,
        {
            if self.entries[i].id.same(&entry.id) {
                proof {
                    lemma_find_entry(s0, eid);
                    assert(s0[i as int].id == eid);
                }
                return Err(Error::AlreadyExists);
            }
            i = i + 1;
        }
        proof {
            lemma_find_entry(s0, eid);
            if find_entry(s0, eid) >= 0 {
                assert(s0[find_entry(s0, eid)].id == eid);
            }
        }
        let ghost ev = entry@;
        self.entries.push(entry);
        proof {
            assert(self.entries_view() =~= s0.push(ev));
        }
        Ok(())
    }

    /// The slot registered for `id`, if any.
    pub fn entry(&self, id: &Id) -> (r: Option<&Entry>)
        ensures
            r matches Some(e) ==> find_entry(self.entries_view(), id@) >= 0 && e@
                == self.entries_view()[find_entry(self.entries_view(), id@)],
            r is None ==> find_entry(self.entries_view(), id@) == -1,
    {
        let ghost s0 = self.entries_view();
        let n = self.entries.len();
        let mut i: usize = 0;
        while i < n
            invariant
                i <= n,
                n == self.entries.len(),
                s0 == self.entries_view(),
                forall|j: int| 0 <= j < i ==> s0[j].id != id@,
            decreases n - i,
        {
            if self.entries[i].id.same(id) {
                proof {
                    lemma_find_entry(s0, id@);
                    assert(s0[i as int].id == id@);
                    assert(find_entry(s0, id@) == i);
                }
                return Some(&self.entries[i]);
            }
            i = i + 1;
        }
        proof {
            lemma_find_entry(s0, id@);
            if find_entry(s0, id@) >= 0 {
                assert(s0[find_entry(s0, id@)].id == id@);
            }
        }
        None
    }

    /// Index of the first slot holding a session for this client name.
    pub open spec fn spec_find_client(s: Seq<EntryV>, c: Seq<char>) -> int
        decreases s.len(),
    {
        if s.len() == 0 {
            -1
        } else if s[0].id.1 == c && !(s[0].state is Empty) {
            0
        } else {
            let r = Self::spec_find_client(s.skip(1), c);
            if r < 0 {
                -1
            } else {
                r + 1
            }
        }
    }

    proof fn lemma_find_client(s: Seq<EntryV>, c: Seq<char>)
        ensures
            -1 <= Self::spec_find_client(s, c) < s.len(),
            Self::spec_find_client(s, c) >= 0 ==> s[Self::spec_find_client(s, c)].id.1 == c && !(
            s[Self::spec_find_client(s, c)].state is Empty),
            forall|j: int|
                0 <= j < Self::spec_find_client(s, c) ==> !(s[j].id.1 == c && !(s[j].state
                    is Empty)),
            Self::spec_find_client(s, c) == -1 ==> forall|j: int|
                0 <= j < s.len() ==> !(s[j].id.1 == c && !(s[j].state is Empty)),
        decreases s.len(),
    {
        if s.len() == 0 {
        } else if s[0].id.1 == c && !(s[0].state is Empty) {
        } else {
            Self::lemma_find_client(s.skip(1), c);
            assert forall|j: int|
                0 <= j < Self::spec_find_client(s, c) implies !(s[j].id.1 == c && !(s[j].state
                is Empty)) by {
                if j > 0 {
                    assert(!(s.skip(1)[j - 1].id.1 == c && !(s.skip(1)[j - 1].state is Empty)));
                }
            }
            if Self::spec_find_client(s, c) == -1 {
                assert forall|j: int|
                    0 <= j < s.len() implies !(s[j].id.1 == c && !(s[j].state is Empty)) by {
                    if j > 0 {
                        assert(!(s.skip(1)[j - 1].id.1 == c && !(s.skip(1)[j - 1].state
                            is Empty)));
                    }
                }
            }
        }
    }

    /// Finds the slot holding a session for this client name.
    fn find_client(&self, client_id: &str) -> (r: Option<usize>)
        ensures
            r matches Some(i) ==> i < self.entries_view().len() && Self::spec_find_client(
                self.entries_view(),
                client_id@,
            ) == i,
            r is None ==> Self::spec_find_client(self.entries_view(), client_id@) == -1,
    {
        let ghost s0 = self.entries_view();
        let n = self.entries.len();
        let mut i: usize = 0;
        while i < n
            invariant
                i <= n,
                n == self.entries.len(),
                s0 == self.entries_view(),
                forall|j: int| 0 <= j < i ==> !(s0[j].id.1 == client_id@ && !(s0[j].state is Empty)),
            decreases n - i,
        {
            let hit = str_eq(self.entries[i].id.client_id.as_str(), client_id)
                && self.entries[i].exist();
            if hit {
                proof {
                    Self::lemma_find_client(s0, client_id@);
                    assert(s0[i as int].id.1 == client_id@ && !(s0[i as int].state is Empty));
                    assert(Self::spec_find_client(s0, client_id@) == i);
                }
                return Some(i);
            }
            i = i + 1;
        }
        proof {
            Self::lemma_find_client(s0, client_id@);
            if Self::spec_find_client(s0, client_id@) >= 0 {
                let w = Self::spec_find_client(s0, client_id@);
                assert(s0[w].id.1 == client_id@ && !(s0[w].state is Empty));
            }
        }
        None
    }

    /// The identity holding a session under this client name, if any.
    pub fn id(&self, client_id: &str) -> (r: Option<Id>)
        ensures
            r matches Some(id) ==> Self::spec_find_client(self.entries_view(), client_id@) >= 0
                && id@ == self.entries_view()[Self::spec_find_client(
                self.entries_view(),
                client_id@,
            )].id,
            r is None ==> Self::spec_find_client(self.entries_view(), client_id@) == -1,
    {
        match self.find_client(client_id) {
            Some(i) => Some(self.entries[i].id()),
            None => None,
        }
    }

    /// Whether any slot holds a session for this client name.
    pub fn exist(&self, client_id: &str) -> (r: bool)
        ensures
            r == (Self::spec_find_client(self.entries_view(), client_id@) >= 0),
    {
        match self.find_client(client_id) {
            Some(_) => true,
            None => false,
        }
    }

    /// Coarse classification of one client name's session: its identity and
    /// whether it is online, or `None` when no session exists.
    pub fn session_status(&self, client_id: &str) -> (r: Option<crate::session::SessionStatus>)
        ensures
            r matches Some(st) ==> ({
                let i = Self::spec_find_client(self.entries_view(), client_id@);
                &&& i >= 0
                &&& st@.0 == self.entries_view()[i].id
                &&& st@.1 == (self.entries_view()[i].state is Online)
            }),
            r is None ==> Self::spec_find_client(self.entries_view(), client_id@) == -1,
    {
        match self.find_client(client_id) {
            Some(i) => Some(
                crate::session::SessionStatus {
                    id: self.entries[i].id(),
                    online: self.entries[i].is_connected(),
                },
            ),
            None => None,
        }
    }

    /// Number of slots in a given coarse state, counted over a prefix.
    pub open spec fn count_online(s: Seq<EntryV>) -> nat
        decreases s.len(),
    {
        if s.len() == 0 {
            0
        } else {
            Self::count_online(s.drop_last()) + if s.last().state is Online {
                1nat
            } else {
                0nat
            }
        }
    }

    pub open spec fn count_sessions(s: Seq<EntryV>) -> nat
        decreases s.len(),
    {
        if s.len() == 0 {
            0
        } else {
            Self::count_sessions(s.drop_last()) + if !(s.last().state is Empty) {
                1nat
            } else {
                0nat
            }
        }
    }

    /// Number of live connections on this node.
    pub fn clients(&self) -> (r: usize)
        ensures
            r == Self::count_online(self.entries_view()),
    {
        let ghost s0 = self.entries_view();
        proof {
            assert(s0.take(0) =~= Seq::<EntryV>::empty());
        }
        let n = self.entries.len();
        let mut count: usize = 0;
        let mut i: usize = 0;
        while i < n
            invariant
                i <= n,
                n == self.entries.len(),
                s0 == self.entries_view(),
                count == Self::count_online(s0.take(i as int)),
                count <= i,
            decreases n - i,
        {
            proof {
                assert(s0.take(i + 1 as int).drop_last() =~= s0.take(i as int));
                assert(s0.take(i + 1 as int).last() == s0[i as int]);
            }
            if self.entries[i].is_connected() {
                count = count + 1;
            }
            i = i + 1;
        }
        proof {
            assert(s0.take(n as int) =~= s0);
        }
        count
    }

    /// Number of sessions on this node, online or offline.
    pub fn sessions(&self) -> (r: usize)
        ensures
            r == Self::count_sessions(self.entries_view()),
    {
        let ghost s0 = self.entries_view();
        proof {
            assert(s0.take(0) =~= Seq::<EntryV>::empty());
        }
        let n = self.entries.len();
        let mut count: usize = 0;
        let mut i: usize = 0;
        while i < n
            invariant
                i <= n,
                n == self.entries.len(),
                s0 == self.entries_view(),
                count == Self::count_sessions(s0.take(i as int)),
                count <= i,
            decreases n - i,
        {
            proof {
                assert(s0.take(i + 1 as int).drop_last() =~= s0.take(i as int));
                assert(s0.take(i + 1 as int).last() == s0[i as int]);
            }
            if self.entries[i].exist() {
                count = count + 1;
            }
            i = i + 1;
        }
        proof {
            assert(s0.take(n as int) =~= s0);
        }
        count
    }

    /// Cluster-wide connection count; on a single node, the local count.
    pub fn all_clients(&self) -> (r: usize)
        ensures
            r == Self::count_online(self.entries_view()),
    {
        self.clients()
    }

    /// Cluster-wide session count; on a single node, the local count.
    pub fn all_sessions(&self) -> (r: usize)
        ensures
            r == Self::count_sessions(self.entries_view()),
    {
        self.sessions()
    }

    /// Number of registered subscription relations, delegated to the router.
    pub fn subscriptions(&self) -> (r: usize)
        ensures
            r == self.router.subs_view().len(),
    {
        self.router.relations()
    }

    /// Number of shared-subscription relations, delegated to the router.
    pub fn subscriptions_shared(&self) -> (r: usize)
        ensures
            r == crate::router::spec_shared_count(self.router.subs_view()),
    {
        self.router.relations_shared()
    }

    /// The identities of all local slots, in registration order; a snapshot
    /// to walk with `entry`.
    pub fn iter(&self) -> (r: Vec<Id>)
        ensures
            r.deep_view() == self.entries_view().map_values(|e: EntryV| e.id),
    {
        let ghost s0 = self.entries_view();
        let n = self.entries.len();
        let mut out: Vec<Id> = Vec::new();
        let mut i: usize = 0;
        while i < n
            invariant
                i <= n,
                n == self.entries.len(),
                s0 == self.entries_view(),
                out.len() == i,
                forall|j: int| 0 <= j < i ==> out.deep_view()[j] == s0[j].id,
            decreases n - i,
        {
            let ghost o0 = out.deep_view();
            out.push(self.entries[i].id());
            proof {
                assert(out.deep_view() =~= o0.push(s0[i as int].id));
            }
            i = i + 1;
        }
        proof {
            assert(out.deep_view() =~= s0.map_values(|e: EntryV| e.id));
        }
        out
    }

    /// An arbitrary online (session, client info) pair for sampling, or
    /// `None` when no connection is live.
    pub fn random_session(&self) -> (r: Option<(Session, ClientInfo)>)
        ensures
            (r is None) == (Self::count_online(self.entries_view()) == 0),
            r matches Some(p) ==> exists|i: int|
                0 <= i < self.entries_view().len()
                    && ((#[trigger] self.entries_view()[i].state) matches EntryStateV::Online {
                    session,
                    client,
                    ..
                } && p.0@ == session && p.1@ == client),
    {
        let ghost s0 = self.entries_view();
        proof {
            assert(s0.take(0) =~= Seq::<EntryV>::empty());
        }
        let n = self.entries.len();
        let mut online: Vec<usize> = Vec::new();
        let mut i: usize = 0;
        while i < n
            invariant
                i <= n,
                n == self.entries.len(),
                s0 == self.entries_view(),
                online.len() == Self::count_online(s0.take(i as int)),
                forall|k: int|
                    0 <= k < online.len() ==> (#[trigger] online@[k]) < i && s0[online@[k] as int].state
                        is Online,
            decreases n - i,
        {
            proof {
                assert(s0.take(i + 1 as int).drop_last() =~= s0.take(i as int));
                assert(s0.take(i + 1 as int).last() == s0[i as int]);
            }
            if self.entries[i].is_connected() {
                online.push(i);
            }
            i = i + 1;
        }
        proof {
            assert(s0.take(n as int) =~= s0);
        }
        if online.len() == 0 {
            return None;
        }
        let pick = crate::selector::draw_index(online.len());
        let idx = online[pick];
        proof {
            assert(online@[pick as int] < n && s0[online@[pick as int] as int].state is Online);
        }
        match (self.entries[idx].session(), self.entries[idx].client()) {
            (Some(s), Some(c)) => Some((s, c)),
            _ => {
                proof {
                    assert(false);
                }
                None
            },
        }
    }

    /// The cluster transport handles for the peer nodes; this node is not
    /// included.  A single-node deployment has none.
    pub fn get_grpc_clients(&self) -> (r: Vec<(NodeId, String)>)
        ensures
            r.deep_view() == self.peers.deep_view(),
    {
        let mut out: Vec<(NodeId, String)> = Vec::new();
        let mut i: usize = 0;
        while i < self.peers.len()
            invariant
                i <= self.peers.len(),
                out.len() == i,
                forall|k: int| 0 <= k < i ==> out.deep_view()[k] == self.peers.deep_view()[k],
            decreases self.peers.len() - i,
        {
            let (n, s) = &self.peers[i];
            let ghost o0 = out.deep_view();
            out.push((*n, s.clone()));
            proof {
                assert(out.deep_view() =~= o0.push(self.peers.deep_view()[i as int]));
            }
            i = i + 1;
        }
        proof {
            assert(out.deep_view() =~= self.peers.deep_view());
        }
        out
    }

    /// A human-readable label for a node: its ordinal and loopback address.
    pub fn node_name(&self, id: NodeId) -> (r: String)
        ensures
            r@ == dec_seq(id as nat) + "@127.0.0.1"@,
    {
        format_node_name(id)
    }

    /// The identities connected on this node right now.
    pub fn connected_ids(&self) -> (r: ConnSet)
        ensures
            r.view() == spec_connected(self.entries_view()),
    {
        let ghost s0 = self.entries_view();
        let mut r = ConnSet::new();
        proof {
            assert(s0.take(0) =~= Seq::<EntryV>::empty());
            assert(r.view() =~= spec_connected(s0.take(0)));
        }
        let n = self.entries.len();
        let mut i: usize = 0;
        while i < n
            invariant
                i <= n,
                n == self.entries.len(),
                s0 == self.entries_view(),
                r.view() == spec_connected(s0.take(i as int)),
            decreases n - i,
        {
            proof {
                assert(s0.take(i + 1 as int).drop_last() =~= s0.take(i as int));
                assert(s0.take(i + 1 as int).last() == s0[i as int]);
            }
            if self.entries[i].is_connected() {
                r.push(self.entries[i].id());
            }
            i = i + 1;
        }
        proof {
            assert(s0.take(n as int) =~= s0);
        }
        r
    }

    /// Index of this node's slot for the given client name, or `None`.
    fn entry_index(&self, node_id: NodeId, client_id: &str) -> (r: Option<usize>)
        ensures
            r matches Some(i) ==> i < self.entries_view().len() && find_entry(
                self.entries_view(),
                (node_id, client_id@),
            ) == i,
            r is None ==> find_entry(self.entries_view(), (node_id, client_id@)) == -1,
    {
        let ghost s0 = self.entries_view();
        let n = self.entries.len();
        let mut i: usize = 0;
        while i < n
            invariant
                i <= n,
                n == self.entries.len(),
                s0 == self.entries_view(),
                forall|j: int| 0 <= j < i ==> s0[j].id != (node_id, client_id@),
            decreases n - i,
        {
            let hit = self.entries[i].id.node_id == node_id && str_eq(
                self.entries[i].id.client_id.as_str(),
                client_id,
            );
            if hit {
                proof {
                    lemma_find_entry(s0, (node_id, client_id@));
                    assert(s0[i as int].id == (node_id, client_id@));
                    assert(find_entry(s0, (node_id, client_id@)) == i);
                }
                return Some(i);
            }
            i = i + 1;
        }
        proof {
            lemma_find_entry(s0, (node_id, client_id@));
            if find_entry(s0, (node_id, client_id@)) >= 0 {
                assert(s0[find_entry(s0, (node_id, client_id@))].id == (node_id, client_id@));
            }
        }
        None
    }

    /// Delivers one publish to an explicitly supplied relation list for this
    /// node, skipping the router lookup.  The result is exactly
    /// `spec_deliver_all`: every relation is attempted in order, and the
    /// relations that could not be satisfied come back with their reasons.
    pub fn forwards_to(&mut self, from: Id, publish: &Publish, relations: SubRelations) -> (r:
        Result<(), Vec<Undelivered>>)
        requires
            old(self).wf(),
        ensures
            final(self).wf(),
            final(self).node_id == old(self).node_id,
            final(self).router == old(self).router,
            final(self).peers == old(self).peers,
            final(self).entries_view() == spec_deliver_all(
                old(self).entries_view(),
                old(self).node_id,
                from@,
                publish@,
                relations.deep_view(),
            ).0,
            ({
                let errs = spec_deliver_all(
                    old(self).entries_view(),
                    old(self).node_id,
                    from@,
                    publish@,
                    relations.deep_view(),
                ).1;
                if errs.len() == 0 {
                    r is Ok
                } else {
                    r matches Err(v) && v.deep_view() == errs
                }
            }),
    {
        let ghost e0 = self.entries_view();
        let ghost fv = from@;
        let ghost pv = publish@;
        let ghost rv = relations.deep_view();
        let ghost node = self.node_id;
        let mut errs: Vec<Undelivered> = Vec::new();
        proof {
            assert(rv.skip(0) =~= rv);
            assert(errs.deep_view() + spec_deliver_all(e0, node, fv, pv, rv).1 =~= spec_deliver_all(
                e0,
                node,
                fv,
                pv,
                rv,
            ).1);
        }
        let n = relations.len();
        let mut i: usize = 0;
        while i < n
            invariant
                i <= n,
                n == relations@.len(),
                rv == relations.deep_view(),
                fv == from@,
                pv == publish@,
                node == self.node_id,
                self.wf(),
                self.node_id == old(self).node_id,
                self.router == old(self).router,
                self.peers == old(self).peers,
                e0 == old(self).entries_view(),
                spec_deliver_all(e0, node, fv, pv, rv).0 == spec_deliver_all(
                    self.entries_view(),
                    node,
                    fv,
                    pv,
                    rv.skip(i as int),
                ).0,
                spec_deliver_all(e0, node, fv, pv, rv).1 == errs.deep_view() + spec_deliver_all(
                    self.entries_view(),
                    node,
                    fv,
                    pv,
                    rv.skip(i as int),
                ).1,
            decreases n - i,
        {
            let ghost cur = self.entries_view();
            proof {
                assert(rv.skip(i as int)[0] == rv[i as int]);
                assert(rv.skip(i as int).skip(1) =~= rv.skip(i + 1 as int));
            }
            let client = relations[i].1.clone();
            let ghost cid = (node, rv[i as int].1);
            proof {
                assert(client@ == rv[i as int].1);
            }
            match self.entry_index(self.node_id, client.as_str()) {
                None => {
                    let ghost errs0 = errs.deep_view();
                    errs.push(
                        (
                            Id::new(self.node_id, client),
                            from.clone(),
                            publish.clone(),
                            Reason::SessionOffline,
                        ),
                    );
                    proof {
                        assert(errs.deep_view() =~= errs0.push((cid, fv, pv, Reason::SessionOffline)));
                        let rest = spec_deliver_all(cur, node, fv, pv, rv.skip(i + 1 as int));
                        assert(errs0 + (seq![(cid, fv, pv, Reason::SessionOffline)] + rest.1)
                            =~= errs.deep_view() + rest.1);
                    }
                },
                Some(idx) => {
                    let ghost prev = cur[idx as int];
                    let mut e = self.entries.remove(idx);
                    proof {
                        assert(e@ == prev);
                    }
                    let res = e.publish(from.clone(), publish.clone());
                    self.entries.insert(idx, e);
                    proof {
                        assert(self.entries_view() =~= cur.update(
                            idx as int,
                            spec_deliver_one(prev, fv, pv).0,
                        ));
                        assert forall|a: int, b: int|
                            0 <= a < b < self.entries_view().len() implies self.entries_view()[a].id
                            != self.entries_view()[b].id by {
                            assert(cur[a].id != cur[b].id);
                        }
                    }
                    match res {
                        Ok(()) => {
                            proof {
                                assert(spec_deliver_one(prev, fv, pv).1 is None);
                            }
                        },
                        Err((f2, p2, reason)) => {
                            let ghost errs0 = errs.deep_view();
                            proof {
                                assert(spec_deliver_one(prev, fv, pv).1 == Option::Some(reason));
                                assert(f2@ == fv && p2@ == pv);
                            }
                            errs.push((Id::new(self.node_id, client), f2, p2, reason));
                            proof {
                                assert(errs.deep_view() =~= errs0.push((cid, fv, pv, reason)));
                                let rest = spec_deliver_all(
                                    self.entries_view(),
                                    node,
                                    fv,
                                    pv,
                                    rv.skip(i + 1 as int),
                                );
                                assert(errs0 + (seq![(cid, fv, pv, reason)] + rest.1)
                                    =~= errs.deep_view() + rest.1);
                            }
                        },
                    }
                },
            }
            i = i + 1;
        }
        proof {
            assert(rv.skip(n as int) =~= Seq::<RelV>::empty());
            assert(errs.deep_view() + Seq::<UndeliveredV>::empty() =~= errs.deep_view());
        }
        if errs.len() == 0 {
            Ok(())
        } else {
            Err(errs)
        }
    }

    /// Routes one publish and dispenses it: resolves matches via the router,
    /// picks one winner per shared group via the selector, delivers to the
    /// local winners and plain local matches, and returns both the raw
    /// per-node relation map and — on partial failure — the unresolved list:
    /// remote recipients for the transport layer to ship, and local
    /// recipients that could not be satisfied.
    ///
    /// The final clause pins the whole exchange down to the selector's
    /// freedom alone: for some winner per shared group that the selector's
    /// contract permits, the slots end exactly as `spec_deliver_all` of the
    /// plain local relations plus the local winners, and the call fails
    /// exactly when a remote plain relation, a remote winner or a local
    /// delivery failure exists — with the unresolved list being exactly
    /// those entries, in that order.
    pub fn forwards_and_get_shareds(&mut self, from: Id, publish: Publish) -> (r: Result<
        SubRelationsMap,
        Vec<Undelivered>,
    >)
        requires
            old(self).wf(),
        ensures
            final(self).wf(),
            final(self).node_id == old(self).node_id,
            final(self).router == old(self).router,
            final(self).peers == old(self).peers,
            entries_extended_by(
                old(self).entries_view(),
                final(self).entries_view(),
                from@,
                publish@,
            ),
            r matches Ok(m) ==> m.view() == spec_route(
                old(self).router.subs_view(),
                publish.topic@,
                spec_connected(old(self).entries_view()),
            ),
            r matches Ok(m) ==> forall|k: int, l: int|
                0 <= k < m.view().len() && 0 <= l < (#[trigger] m.view()[k]).1.len() && m.view()[k].0
                    != old(self).node_id ==> (#[trigger] m.view()[k].1[l]).3 is Some,
            r matches Err(v) ==> v@.len() > 0 && forall|k: int|
                0 <= k < v.deep_view().len() ==> ({
                    let e = #[trigger] v.deep_view()[k];
                    &&& e.1 == from@
                    &&& e.2 == publish@
                    &&& ((e.3 == Reason::Forward) <==> (e.0.0 != old(self).node_id))
                }),
            r is Ok ==> exists|w: Seq<int>|
                #[trigger] spec_forwards_exact(
                    old(self).entries_view(),
                    old(self).router.subs_view(),
                    publish.topic@,
                    old(self).node_id,
                    from@,
                    publish@,
                    w,
                    true,
                    Seq::empty(),
                    final(self).entries_view(),
                ),
            r matches Err(v) ==> exists|w: Seq<int>|
                #[trigger] spec_forwards_exact(
                    old(self).entries_view(),
                    old(self).router.subs_view(),
                    publish.topic@,
                    old(self).node_id,
                    from@,
                    publish@,
                    w,
                    false,
                    v.deep_view(),
                    final(self).entries_view(),
                ),
    {
        let ghost e0 = self.entries_view();
        let ghost fv = from@;
        let ghost pv = publish@;
        let ghost node = self.node_id;
        let conn = self.connected_ids();
        let ghost cv = conn.view();
        let relmap = match self.router.matches(publish.topic.as_str(), &conn) {
            Ok(m) => m,
            Err(_) => {
                proof {
                    assert(false);
                }
                return Err(Vec::new());
            },
        };
        let ghost mv = relmap.view();
        let ghost ps = route_pairs(mv);
        let mut locals: SubRelations = Vec::new();
        let mut errs: Vec<Undelivered> = Vec::new();
        proof {
            assert(mv.take(0) =~= Seq::<(NodeId, Seq<RelV>)>::empty());
            assert(locals.deep_view() =~= plain_local_rels(route_pairs(mv.take(0)), node));
            assert(errs.deep_view() =~= plain_remote_errs(route_pairs(mv.take(0)), node, fv, pv));
        }
        let nb = relmap.entries.len();
        let mut k: usize = 0;
        while k < nb
            invariant
                k <= nb,
                nb == relmap.entries.len(),
                mv == relmap.view(),
                fv == from@,
                pv == publish@,
                node == self.node_id,
                *self == *old(self),
                old(self).wf(),
                locals.deep_view() == plain_local_rels(route_pairs(mv.take(k as int)), node),
                errs.deep_view() == plain_remote_errs(route_pairs(mv.take(k as int)), node, fv, pv),
                forall|q: int|
                    0 <= q < errs.deep_view().len() ==> ({
                        let e = #[trigger] errs.deep_view()[q];
                        &&& e.1 == fv
                        &&& e.2 == pv
                        &&& e.0.0 != node
                        &&& e.3 == Reason::Forward
                    }),
                forall|kk: int, ll: int|
                    0 <= kk < k && 0 <= ll < (#[trigger] mv[kk]).1.len() && mv[kk].0 != node
                        ==> ((#[trigger] mv[kk].1[ll]).3 is Some || errs.deep_view().len() > 0),
            decreases nb - k,
        {
            let bnode = relmap.entries[k].0;
            let nr = relmap.entries[k].1.len();
            proof {
                assert(mv[k as int].1.take(0) =~= Seq::<RelV>::empty());
                assert(route_pairs(mv.take(k as int)) + bucket_pairs(bnode, mv[k as int].1.take(0))
                    =~= route_pairs(mv.take(k as int)));
            }
            let mut l: usize = 0;
            while l < nr
                invariant
                    l <= nr,
                    k < nb,
                    nb == relmap.entries.len(),
                    nr == relmap.entries@[k as int].1.len(),
                    bnode == mv[k as int].0,
                    mv == relmap.view(),
                    fv == from@,
                    pv == publish@,
                    node == self.node_id,
                    *self == *old(self),
                    old(self).wf(),
                    locals.deep_view() == plain_local_rels(
                        route_pairs(mv.take(k as int)) + bucket_pairs(
                            bnode,
                            mv[k as int].1.take(l as int),
                        ),
                        node,
                    ),
                    errs.deep_view() == plain_remote_errs(
                        route_pairs(mv.take(k as int)) + bucket_pairs(
                            bnode,
                            mv[k as int].1.take(l as int),
                        ),
                        node,
                        fv,
                        pv,
                    ),
                    forall|q: int|
                        0 <= q < errs.deep_view().len() ==> ({
                            let e = #[trigger] errs.deep_view()[q];
                            &&& e.1 == fv
                            &&& e.2 == pv
                            &&& e.0.0 != node
                            &&& e.3 == Reason::Forward
                        }),
                    forall|kk: int, ll: int|
                        0 <= kk < k && 0 <= ll < (#[trigger] mv[kk]).1.len() && mv[kk].0 != node
                            ==> ((#[trigger] mv[kk].1[ll]).3 is Some || errs.deep_view().len()
                            > 0),
                    forall|ll: int|
                        0 <= ll < l && mv[k as int].0 != node ==> ((#[trigger] mv[k as int].1[ll]).3
                            is Some || errs.deep_view().len() > 0),
                decreases nr - l,
            {
                let ghost prog = route_pairs(mv.take(k as int)) + bucket_pairs(
                    bnode,
                    mv[k as int].1.take(l as int),
                );
                let ghost prog1 = route_pairs(mv.take(k as int)) + bucket_pairs(
                    bnode,
                    mv[k as int].1.take(l + 1 as int),
                );
                proof {
                    assert(mv[k as int].1.take(l + 1 as int).drop_last() =~= mv[k as int].1.take(
                        l as int,
                    ));
                    assert(mv[k as int].1.take(l + 1 as int).last() == mv[k as int].1[l as int]);
                    assert(prog1 =~= prog.push((bnode, mv[k as int].1[l as int])));
                    assert(prog1.drop_last() =~= prog);
                    assert(prog1.last() == (bnode, mv[k as int].1[l as int]));
                }
                let is_plain = match &relmap.entries[k].1[l].3 {
                    None => true,
                    Some(_) => false,
                };
                if is_plain {
                    if bnode == self.node_id {
                        let rel = &relmap.entries[k].1[l];
                        let ghost lc0 = locals.deep_view();
                        locals.push((rel.0.clone(), rel.1.clone(), rel.2, None));
                        proof {
                            assert(locals.deep_view() =~= lc0.push(mv[k as int].1[l as int]));
                        }
                    } else {
                        let ghost errs0 = errs.deep_view();
                        let rel = &relmap.entries[k].1[l];
                        errs.push(
                            (
                                Id::new(bnode, rel.1.clone()),
                                from.clone(),
                                publish.clone(),
                                Reason::Forward,
                            ),
                        );
                        proof {
                            assert(errs.deep_view() =~= errs0.push(
                                ((bnode, mv[k as int].1[l as int].1), fv, pv, Reason::Forward),
                            ));
                        }
                    }
                }
                l = l + 1;
            }
            proof {
                assert(mv[k as int].1.take(nr as int) =~= mv[k as int].1);
                assert(mv.take(k + 1 as int).drop_last() =~= mv.take(k as int));
                assert(mv.take(k + 1 as int).last() == mv[k as int]);
                assert(route_pairs(mv.take(k + 1 as int)) =~= route_pairs(mv.take(k as int))
                    + bucket_pairs(bnode, mv[k as int].1));
            }
            k = k + 1;
        }
        proof {
            assert(mv.take(nb as int) =~= mv);
        }
        let ghost errs_remote = errs.deep_view();
        let mut seen: Vec<(TopicFilter, SharedGroup)> = Vec::new();
        let ghost mut winners: Seq<int> = Seq::empty();
        proof {
            assert(mv.take(0) =~= Seq::<(NodeId, Seq<RelV>)>::empty());
            assert(seen.deep_view() =~= shared_keys(route_pairs(mv.take(0))));
            assert(locals.deep_view() =~= plain_local_rels(ps, node) + winner_local_rels(
                ps,
                seen.deep_view(),
                winners,
                node,
            ));
            assert(errs.deep_view() =~= plain_remote_errs(ps, node, fv, pv) + winner_remote_errs(
                ps,
                seen.deep_view(),
                winners,
                node,
                fv,
                pv,
            ));
        }
        let mut k2: usize = 0;
        while k2 < nb
            invariant
                k2 <= nb,
                nb == relmap.entries.len(),
                mv == relmap.view(),
                ps == route_pairs(mv),
                cv == conn.view(),
                fv == from@,
                pv == publish@,
                node == self.node_id,
                *self == *old(self),
                old(self).wf(),
                seen.deep_view() == shared_keys(route_pairs(mv.take(k2 as int))),
                winners.len() == seen.deep_view().len(),
                forall|i: int|
                    0 <= i < winners.len() ==> valid_winner(
                        winners[i],
                        group_cands(ps, #[trigger] seen.deep_view()[i]),
                        cv,
                    ),
                locals.deep_view() == plain_local_rels(ps, node) + winner_local_rels(
                    ps,
                    seen.deep_view(),
                    winners,
                    node,
                ),
                errs.deep_view() == plain_remote_errs(ps, node, fv, pv) + winner_remote_errs(
                    ps,
                    seen.deep_view(),
                    winners,
                    node,
                    fv,
                    pv,
                ),
                errs_remote == plain_remote_errs(ps, node, fv, pv),
                forall|q: int|
                    0 <= q < errs.deep_view().len() ==> ({
                        let e = #[trigger] errs.deep_view()[q];
                        &&& e.1 == fv
                        &&& e.2 == pv
                        &&& e.0.0 != node
                        &&& e.3 == Reason::Forward
                    }),
            decreases nb - k2,
        {
            let bnode2 = relmap.entries[k2].0;
            let nr2 = relmap.entries[k2].1.len();
            proof {
                assert(mv[k2 as int].1.take(0) =~= Seq::<RelV>::empty());
                assert(route_pairs(mv.take(k2 as int)) + bucket_pairs(
                    bnode2,
                    mv[k2 as int].1.take(0),
                ) =~= route_pairs(mv.take(k2 as int)));
            }
            let mut l2: usize = 0;
            while l2 < nr2
                invariant
                    l2 <= nr2,
                    k2 < nb,
                    nb == relmap.entries.len(),
                    nr2 == relmap.entries@[k2 as int].1.len(),
                    bnode2 == mv[k2 as int].0,
                    mv == relmap.view(),
                    ps == route_pairs(mv),
                    cv == conn.view(),
                    fv == from@,
                    pv == publish@,
                    node == self.node_id,
                    *self == *old(self),
                    old(self).wf(),
                    seen.deep_view() == shared_keys(
                        route_pairs(mv.take(k2 as int)) + bucket_pairs(
                            bnode2,
                            mv[k2 as int].1.take(l2 as int),
                        ),
                    ),
                    winners.len() == seen.deep_view().len(),
                    forall|i: int|
                        0 <= i < winners.len() ==> valid_winner(
                            winners[i],
                            group_cands(ps, #[trigger] seen.deep_view()[i]),
                            cv,
                        ),
                    locals.deep_view() == plain_local_rels(ps, node) + winner_local_rels(
                        ps,
                        seen.deep_view(),
                        winners,
                        node,
                    ),
                    errs.deep_view() == plain_remote_errs(ps, node, fv, pv) + winner_remote_errs(
                        ps,
                        seen.deep_view(),
                        winners,
                        node,
                        fv,
                        pv,
                    ),
                    errs_remote == plain_remote_errs(ps, node, fv, pv),
                    forall|q: int|
                        0 <= q < errs.deep_view().len() ==> ({
                            let e = #[trigger] errs.deep_view()[q];
                            &&& e.1 == fv
                            &&& e.2 == pv
                            &&& e.0.0 != node
                            &&& e.3 == Reason::Forward
                        }),
                decreases nr2 - l2,
            {
                let ghost prog2 = route_pairs(mv.take(k2 as int)) + bucket_pairs(
                    bnode2,
                    mv[k2 as int].1.take(l2 as int),
                );
                let ghost prog21 = route_pairs(mv.take(k2 as int)) + bucket_pairs(
                    bnode2,
                    mv[k2 as int].1.take(l2 + 1 as int),
                );
                let ghost x = (bnode2, mv[k2 as int].1[l2 as int]);
                proof {
                    assert(mv[k2 as int].1.take(l2 + 1 as int).drop_last() =~= mv[k2 as int].1.take(
                        l2 as int,
                    ));
                    assert(mv[k2 as int].1.take(l2 + 1 as int).last() == mv[k2 as int].1[l2 as int]);
                    assert(prog21 =~= prog2.push(x));
                    assert(prog21.drop_last() =~= prog2);
                    assert(prog21.last() == x);
                }
                let has_group = match &relmap.entries[k2].1[l2].3 {
                    Some(_) => true,
                    None => false,
                };
                if has_group {
                    let filter = relmap.entries[k2].1[l2].0.clone();
                    let group = match &relmap.entries[k2].1[l2].3 {
                        Some((g, _)) => g.clone(),
                        None => String::new(),
                    };
                    let ghost keyv = (filter@, group@);
                    proof {
                        assert(is_shared_pair(x));
                        assert(pair_key(x) == keyv);
                    }
                    let mut already = false;
                    let mut s: usize = 0;
                    while s < seen.len()
                        invariant
                            s <= seen.len(),
                            keyv == (filter@, group@),
                            already == exists|t: int|
                                0 <= t < s && seen.deep_view()[t] == keyv,
                        decreases seen.len() - s,
                    {
                        let hit = str_eq(seen[s].0.as_str(), filter.as_str()) && str_eq(
                            seen[s].1.as_str(),
                            group.as_str(),
                        );
                        proof {
                            if hit {
                                assert(seen.deep_view()[s as int] == keyv);
                            }
                        }
                        if hit {
                            already = true;
                        }
                        s = s + 1;
                    }
                    if already {
                        proof {
                            let t = choose|t: int|
                                0 <= t < seen.deep_view().len() && seen.deep_view()[t] == keyv;
                            lemma_shared_keys_membership(prog2, keyv);
                            let j = choose|j: int|
                                0 <= j < prog2.len() && is_shared_pair(prog2[j]) && pair_key(
                                    prog2[j],
                                ) == keyv;
                            assert(prog21[j] == prog2[j]);
                            assert(shared_keys(prog21) == shared_keys(prog2));
                        }
                    } else {
                        proof {
                            lemma_shared_keys_membership(prog2, keyv);
                            assert_by_contradiction!(
                                !(exists|j: int|
                                    0 <= j < prog2.len() && is_shared_pair(prog2[j]) && pair_key(
                                        prog2[j],
                                    ) == keyv),
                                {
                                    let i = choose|i: int|
                                        0 <= i < shared_keys(prog2).len() && shared_keys(prog2)[i]
                                            == keyv;
                                }
                            );
                            assert forall|j: int|
                                0 <= j < prog21.len() - 1 implies !(is_shared_pair(prog21[j])
                                && pair_key(prog21[j]) == keyv) by {
                                assert(prog21[j] == prog2[j]);
                            }
                            assert(shared_keys(prog21) == shared_keys(prog2).push(keyv));
                        }
                        let ghost seen0 = seen.deep_view();
                        seen.push((filter.clone(), group.clone()));
                        proof {
                            assert(seen.deep_view() =~= seen0.push(keyv));
                        }
                        let mut cands: Vec<Candidate> = Vec::new();
                        proof {
                            assert(mv.take(0) =~= Seq::<(NodeId, Seq<RelV>)>::empty());
                            assert(cands.deep_view() =~= cand_list(
                                group_cands(route_pairs(mv.take(0)), keyv),
                            ));
                        }
                        let mut k3: usize = 0;
                        while k3 < nb
                            invariant
                                k3 <= nb,
                                nb == relmap.entries.len(),
                                mv == relmap.view(),
                                keyv == (filter@, group@),
                                cands.deep_view() == cand_list(
                                    group_cands(route_pairs(mv.take(k3 as int)), keyv),
                                ),
                            decreases nb - k3,
                        {
                            let bnode3 = relmap.entries[k3].0;
                            let nr3 = relmap.entries[k3].1.len();
                            proof {
                                assert(mv[k3 as int].1.take(0) =~= Seq::<RelV>::empty());
                                assert(route_pairs(mv.take(k3 as int)) + bucket_pairs(
                                    bnode3,
                                    mv[k3 as int].1.take(0),
                                ) =~= route_pairs(mv.take(k3 as int)));
                            }
                            let mut l3: usize = 0;
                            while l3 < nr3
                                invariant
                                    l3 <= nr3,
                                    k3 < nb,
                                    nb == relmap.entries.len(),
                                    nr3 == relmap.entries@[k3 as int].1.len(),
                                    bnode3 == mv[k3 as int].0,
                                    mv == relmap.view(),
                                    keyv == (filter@, group@),
                                    cands.deep_view() == cand_list(
                                        group_cands(
                                            route_pairs(mv.take(k3 as int)) + bucket_pairs(
                                                bnode3,
                                                mv[k3 as int].1.take(l3 as int),
                                            ),
                                            keyv,
                                        ),
                                    ),
                                decreases nr3 - l3,
                            {
                                let ghost prog3 = route_pairs(mv.take(k3 as int)) + bucket_pairs(
                                    bnode3,
                                    mv[k3 as int].1.take(l3 as int),
                                );
                                let ghost prog31 = route_pairs(mv.take(k3 as int)) + bucket_pairs(
                                    bnode3,
                                    mv[k3 as int].1.take(l3 + 1 as int),
                                );
                                let ghost y = (bnode3, mv[k3 as int].1[l3 as int]);
                                proof {
                                    assert(mv[k3 as int].1.take(l3 + 1 as int).drop_last()
                                        =~= mv[k3 as int].1.take(l3 as int));
                                    assert(mv[k3 as int].1.take(l3 + 1 as int).last()
                                        == mv[k3 as int].1[l3 as int]);
                                    assert(prog31 =~= prog3.push(y));
                                    assert(prog31.drop_last() =~= prog3);
                                    assert(prog31.last() == y);
                                }
                                let same_key = match &relmap.entries[k3].1[l3].3 {
                                    Some((g3, _)) => str_eq(
                                        relmap.entries[k3].1[l3].0.as_str(),
                                        filter.as_str(),
                                    ) && str_eq(g3.as_str(), group.as_str()),
                                    None => false,
                                };
                                proof {
                                    assert(same_key == (is_shared_pair(y) && pair_key(y) == keyv));
                                }
                                if same_key {
                                    let rel3 = &relmap.entries[k3].1[l3];
                                    let online3 = match &rel3.3 {
                                        Some((_, o)) => *o,
                                        None => false,
                                    };
                                    let ghost cd0 = cands.deep_view();
                                    cands.push((bnode3, rel3.1.clone(), rel3.2, Some(online3)));
                                    proof {
                                        assert(cands.deep_view() =~= cd0.push(cand_of(y)));
                                        assert(group_cands(prog31, keyv) == group_cands(
                                            prog3,
                                            keyv,
                                        ).push(y));
                                        assert(group_cands(prog3, keyv).push(y).drop_last()
                                            =~= group_cands(prog3, keyv));
                                    }
                                }
                                l3 = l3 + 1;
                            }
                            proof {
                                assert(mv[k3 as int].1.take(nr3 as int) =~= mv[k3 as int].1);
                                assert(mv.take(k3 + 1 as int).drop_last() =~= mv.take(k3 as int));
                                assert(mv.take(k3 + 1 as int).last() == mv[k3 as int]);
                                assert(route_pairs(mv.take(k3 + 1 as int)) =~= route_pairs(
                                    mv.take(k3 as int),
                                ) + bucket_pairs(bnode3, mv[k3 as int].1));
                            }
                            k3 = k3 + 1;
                        }
                        let ghost gc = group_cands(ps, keyv);
                        proof {
                            assert(mv.take(nb as int) =~= mv);
                            lemma_cand_list(gc);
                            lemma_route_pairs_contains(mv, k2 as int, l2 as int);
                            lemma_group_cands_nonempty(ps, keyv);
                            assert(cands@.len() == gc.len());
                        }
                        let ghost w0 = winners;
                        match self.selector.choice(&conn, &cands) {
                            Some((widx, wonline)) => {
                                proof {
                                    assert(cands.deep_view()[widx as int] == cand_of(
                                        gc[widx as int],
                                    ));
                                    assert forall|j: int|
                                        0 <= j < gc.len() && resolved_online(
                                            cand_of(#[trigger] gc[j]),
                                            cv,
                                        ) implies resolved_online(cand_of(gc[widx as int]), cv) by {
                                        assert(cands.deep_view()[j] == cand_of(gc[j]));
                                    }
                                    assert(valid_winner(widx as int, gc, cv));
                                    winners = winners.push(widx as int);
                                    assert(seen.deep_view().drop_last() =~= seen0);
                                    assert(seen.deep_view().last() == keyv);
                                    assert(winners.drop_last() =~= w0);
                                    assert(winners.last() == widx as int);
                                    assert forall|i: int|
                                        0 <= i < winners.len() implies valid_winner(
                                        winners[i],
                                        group_cands(ps, #[trigger] seen.deep_view()[i]),
                                        cv,
                                    ) by {
                                        if i < w0.len() {
                                            assert(seen.deep_view()[i] == seen0[i]);
                                            assert(winners[i] == w0[i]);
                                        } else {
                                            assert(seen.deep_view()[i] == keyv);
                                            assert(winners[i] == widx as int);
                                        }
                                    }
                                }
                                let wnode = cands[widx].0;
                                let wclient = cands[widx].1.clone();
                                let wqos = cands[widx].2;
                                let ghost cw = gc[widx as int];
                                proof {
                                    lemma_group_cands_elems(ps, keyv);
                                    assert(is_shared_pair(cw) && pair_key(cw) == keyv);
                                    assert(cand_of(cw) == cands.deep_view()[widx as int]);
                                    assert(cw.0 == wnode);
                                    assert(cw.1.1 == wclient@);
                                    assert(cw.1.2 == wqos);
                                    assert(cw.1.0 == filter@);
                                    assert(cw.1.3 matches Option::Some(gp) && gp.0 == group@
                                        && Option::Some(gp.1) == cand_of(cw).3);
                                }
                                if wnode == self.node_id {
                                    let ghost lc0 = locals.deep_view();
                                    proof {
                                        assert(cand_of(cw).3 == Option::<bool>::Some(wonline));
                                        assert(cw.1 == (
                                            filter@,
                                            wclient@,
                                            wqos,
                                            Option::Some((group@, wonline)),
                                        ));
                                    }
                                    locals.push(
                                        (
                                            filter.clone(),
                                            wclient,
                                            wqos,
                                            Some((group.clone(), wonline)),
                                        ),
                                    );
                                    proof {
                                        assert(locals.deep_view() =~= lc0.push(cw.1));
                                        assert(winner_local_rels(
                                            ps,
                                            seen.deep_view(),
                                            winners,
                                            node,
                                        ) =~= winner_local_rels(ps, seen0, w0, node).push(cw.1));
                                        assert(locals.deep_view() =~= plain_local_rels(ps, node)
                                            + winner_local_rels(ps, seen.deep_view(), winners, node));
                                        assert(winner_remote_errs(
                                            ps,
                                            seen.deep_view(),
                                            winners,
                                            node,
                                            fv,
                                            pv,
                                        ) =~= winner_remote_errs(ps, seen0, w0, node, fv, pv));
                                    }
                                } else {
                                    let ghost errs0 = errs.deep_view();
                                    let ghost wcv = wclient@;
                                    errs.push(
                                        (
                                            Id::new(wnode, wclient),
                                            from.clone(),
                                            publish.clone(),
                                            Reason::Forward,
                                        ),
                                    );
                                    proof {
                                        assert(errs.deep_view() =~= errs0.push(
                                            ((wnode, wcv), fv, pv, Reason::Forward),
                                        ));
                                        assert(winner_remote_errs(
                                            ps,
                                            seen.deep_view(),
                                            winners,
                                            node,
                                            fv,
                                            pv,
                                        ) =~= winner_remote_errs(ps, seen0, w0, node, fv, pv).push(
                                            ((cw.0, cw.1.1), fv, pv, Reason::Forward),
                                        ));
                                        assert(errs.deep_view() =~= plain_remote_errs(
                                            ps,
                                            node,
                                            fv,
                                            pv,
                                        ) + winner_remote_errs(ps, seen.deep_view(), winners, node, fv, pv));
                                        assert(winner_local_rels(
                                            ps,
                                            seen.deep_view(),
                                            winners,
                                            node,
                                        ) =~= winner_local_rels(ps, seen0, w0, node));
                                    }
                                }
                            },
                            None => {
                                proof {
                                    assert(false);
                                }
                            },
                        }
                    }
                }
                l2 = l2 + 1;
            }
            proof {
                assert(mv[k2 as int].1.take(nr2 as int) =~= mv[k2 as int].1);
                assert(mv.take(k2 + 1 as int).drop_last() =~= mv.take(k2 as int));
                assert(mv.take(k2 + 1 as int).last() == mv[k2 as int]);
                assert(route_pairs(mv.take(k2 + 1 as int)) =~= route_pairs(mv.take(k2 as int))
                    + bucket_pairs(bnode2, mv[k2 as int].1));
            }
            k2 = k2 + 1;
        }
        proof {
            assert(mv.take(nb as int) =~= mv);
        }
        let ghost keys = seen.deep_view();
        let ghost wfin = winners;
        let ghost errs_pre = errs.deep_view();
        let ghost e_pre = self.entries_view();
        let ghost lv = locals.deep_view();
        let res = self.forwards_to(from.clone(), &publish, locals);
        proof {
            lemma_deliver_all_extends(e_pre, node, fv, pv, lv);
        }
        match res {
            Ok(()) => {},
            Err(mut v2) => {
                let ghost v2v = v2.deep_view();
                errs.append(&mut v2);
                proof {
                    assert(errs.deep_view() =~= errs_pre + v2v);
                }
            },
        }
        proof {
            let d = spec_deliver_all(e_pre, node, fv, pv, lv);
            let rerrs = plain_remote_errs(ps, node, fv, pv) + winner_remote_errs(
                ps,
                keys,
                wfin,
                node,
                fv,
                pv,
            );
            assert(keys == shared_keys(ps));
            if rerrs.len() + d.1.len() == 0 {
                assert(errs.deep_view() =~= rerrs);
                assert(errs.deep_view().len() == 0);
            } else {
                assert(errs.deep_view() =~= rerrs + d.1);
                assert(errs.deep_view().len() > 0);
            }
        }
        if errs.len() == 0 {
            proof {
                assert(mv == relmap.view());
                assert(spec_forwards_exact(
                    e0,
                    old(self).router.subs_view(),
                    pv.topic,
                    node,
                    fv,
                    pv,
                    wfin,
                    true,
                    Seq::empty(),
                    self.entries_view(),
                ));
            }
            Ok(relmap)
        } else {
            proof {
                assert(spec_forwards_exact(
                    e0,
                    old(self).router.subs_view(),
                    pv.topic,
                    node,
                    fv,
                    pv,
                    wfin,
                    false,
                    errs.deep_view(),
                    self.entries_view(),
                ));
            }
            Err(errs)
        }
    }

    /// Routes one publish and dispenses it, reporting only success or the
    /// unresolved list.
    pub fn forwards(&mut self, from: Id, publish: Publish) -> (r: Result<(), Vec<Undelivered>>)
        requires
            old(self).wf(),
        ensures
            final(self).wf(),
            final(self).node_id == old(self).node_id,
            final(self).router == old(self).router,
            final(self).peers == old(self).peers,
            entries_extended_by(
                old(self).entries_view(),
                final(self).entries_view(),
                from@,
                publish@,
            ),
            r is Ok ==> ({
                let route = spec_route(
                    old(self).router.subs_view(),
                    publish.topic@,
                    spec_connected(old(self).entries_view()),
                );
                forall|k: int, l: int|
                    0 <= k < route.len() && 0 <= l < (#[trigger] route[k]).1.len() && route[k].0
                        != old(self).node_id ==> (#[trigger] route[k].1[l]).3 is Some
            }),
            r matches Err(v) ==> v@.len() > 0 && forall|k: int|
                0 <= k < v.deep_view().len() ==> ({
                    let e = #[trigger] v.deep_view()[k];
                    &&& e.1 == from@
                    &&& e.2 == publish@
                    &&& ((e.3 == Reason::Forward) <==> (e.0.0 != old(self).node_id))
                }),
            r is Ok ==> exists|w: Seq<int>|
                #[trigger] spec_forwards_exact(
                    old(self).entries_view(),
                    old(self).router.subs_view(),
                    publish.topic@,
                    old(self).node_id,
                    from@,
                    publish@,
                    w,
                    true,
                    Seq::empty(),
                    final(self).entries_view(),
                ),
            r matches Err(v) ==> exists|w: Seq<int>|
                #[trigger] spec_forwards_exact(
                    old(self).entries_view(),
                    old(self).router.subs_view(),
                    publish.topic@,
                    old(self).node_id,
                    from@,
                    publish@,
                    w,
                    false,
                    v.deep_view(),
                    final(self).entries_view(),
                ),
    {
        match self.forwards_and_get_shareds(from, publish) {
            Ok(_) => Ok(()),
            Err(v) => Err(v),
        }
    }
}

} // verus!
