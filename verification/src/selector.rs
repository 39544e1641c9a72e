//! The shared-subscription selector: given the candidate recipients of one
//! shared group for one publish, picks exactly one, preferring a candidate
//! that is online.

use vstd::prelude::*;

use crate::router::{conn_online, ConnSet};
use crate::types::{ClientId, IsOnline, Listener, NodeId, QoS};

verus! {

/// One candidate: (node, client, qos, online hint if already known).
pub type Candidate = (NodeId, ClientId, QoS, Option<IsOnline>);

/// Mathematical value of a candidate.
pub type CandidateV = (NodeId, Seq<char>, QoS, Option<bool>);

/// A candidate's online status once resolved: the known hint where there is
/// one, else its membership in the connected set.
pub open spec fn resolved_online(nc: CandidateV, conn: Seq<(NodeId, Seq<char>)>) -> bool {
    match nc.3 {
        Option::Some(b) => b,
        Option::None => conn_online(conn, nc.0, nc.1),
    }
}

/// Relies on rand::random::<usize> for the selector's random draw; nothing
/// is promised of the value.
#[verifier::external_body]
fn random_usize() -> usize {
    rand::random::<usize>()
}

/// A uniformly arbitrary index below `len`; the draw is random, so nothing
/// relates two calls.
pub fn draw_index(len: usize) -> (r: usize)
    requires
        len >= 1,
    ensures
        r < len,
{
    if len == 1 {
        0
    } else {
        random_usize() % len
    }
}

/// The shared-subscription delivery policy: randomized with online
/// preference.
pub struct SharedSubscription {}

impl SharedSubscription {
    pub fn new() -> (r: SharedSubscription) {
        SharedSubscription {  }
    }

    /// Whether shared subscriptions are enabled for this listener.
    pub fn is_supported(&self, listen_cfg: &Listener) -> (r: bool)
        ensures
            r == listen_cfg.shared_subscription,
    {
        listen_cfg.shared_subscription
    }

    /// Selects exactly one recipient among the candidates, or none only when
    /// the candidate list is empty.  An online candidate is preferred; when
    /// every candidate is offline the last one examined is still returned,
    /// so a group of only offline, session-persisting subscribers gets one
    /// best-effort recipient rather than none.
    pub fn choice(&self, conn: &ConnSet, ncs: &Vec<Candidate>) -> (r: Option<(usize, IsOnline)>)
        ensures
            (r is None) == (ncs@.len() == 0),
            r matches Some(p) ==> p.0 < ncs@.len() && p.1 == resolved_online(
                ncs.deep_view()[p.0 as int],
                conn.view(),
            ),
            (exists|j: int|
                0 <= j < ncs@.len() && resolved_online(ncs.deep_view()[j], conn.view())) ==> (
            r matches Some(p) && p.1),
    {
        let ghost nv = ncs.deep_view();
        let ghost cv = conn.view();
        let n = ncs.len();
        if n == 0 {
            return None;
        }
        let mut tmp: Vec<usize> = Vec::new();
        let mut k: usize = 0;
        while k < n
            invariant
                k <= n,
                tmp@.len() == k,
                forall|p: int| 0 <= p < k ==> tmp@[p] == p,
            decreases n - k,
        {
            tmp.push(k);
            k = k + 1;
        }
        proof {
            assert forall|j: int| 0 <= j < n && resolved_online(nv[j], cv) implies exists|p: int|
                0 <= p < tmp@.len() && tmp@[p] == j by {
                assert(tmp@[j] == j);
            }
        }
        loop
            invariant
                nv == ncs.deep_view(),
                cv == conn.view(),
                n == ncs@.len(),
                tmp@.len() >= 1,
                forall|p: int| 0 <= p < tmp@.len() ==> tmp@[p] < n,
                forall|j: int|
                    0 <= j < n && resolved_online(nv[j], cv) ==> exists|p: int|
                        0 <= p < tmp@.len() && tmp@[p] == j,
            decreases tmp@.len(),
        {
            let r_idx: usize = draw_index(tmp.len());
            let ghost tmp0 = tmp@;
            let idx = tmp.remove(r_idx);
            let (node_id, client_id, _qos, hint) = &ncs[idx];
            let online = match hint {
                Some(b) => *b,
                None => conn.contains(*node_id, client_id.as_str()),
            };
            proof {
                assert(online == resolved_online(nv[idx as int], cv));
            }
            if online {
                return Some((idx, true));
            }
            proof {
                assert forall|j: int|
                    0 <= j < n && resolved_online(nv[j], cv) implies exists|p: int|
                        0 <= p < tmp@.len() && tmp@[p] == j by {
                    let p0 = choose|p0: int| 0 <= p0 < tmp0.len() && tmp0[p0] == j;
                    assert(j != idx);
                    if p0 < r_idx {
                        assert(tmp@[p0] == j);
                    } else {
                        assert(tmp@[p0 - 1] == j);
                    }
                }
            }
            if tmp.len() == 0 {
                return Some((idx, false));
            }
        }
    }
}

/// Law: when exactly one candidate resolves online, any winner meeting the
/// selector's contract is that candidate, reported online.
pub proof fn lemma_choice_single_online(
    ncs: Seq<CandidateV>,
    conn: Seq<(NodeId, Seq<char>)>,
    j: int,
    i: int,
    b: bool,
)
    requires
        0 <= j < ncs.len(),
        resolved_online(ncs[j], conn),
        forall|k: int| 0 <= k < ncs.len() && k != j ==> !resolved_online(ncs[k], conn),
        0 <= i < ncs.len(),
        b == resolved_online(ncs[i], conn),
        b,
    ensures
        i == j,
{
}

} // verus!
