//! The subscription router: the authoritative index from topic filter to
//! subscriber, and the match engine queried on every publish.
//!
//! A registration is a relation (filter, node, client, qos, optional shared
//! group); the pair (filter, identity) is its key.  Registrations are kept in
//! insertion order, which makes the diagnostic listings deterministic.

use vstd::prelude::*;

use crate::topic::{
    check_filter, filter_matches, levels_of, match_levels, split_levels, valid_filter,
};
use crate::types::{
    str_eq, ClientId, Error, Id, IsOnline, NodeId, QoS, SharedGroup, TopicFilter,
};

verus! {

/// Relations a match query returns for one node: (filter, client, qos,
/// optional shared group with an online hint).
pub type SubRelations = Vec<(TopicFilter, ClientId, QoS, Option<(SharedGroup, IsOnline)>)>;

/// Mathematical value of one returned relation.
pub type RelV = (Seq<char>, Seq<char>, QoS, Option<(Seq<char>, bool)>);

/// Mathematical value of one registration.
pub ghost struct SubV {
    pub filter: Seq<char>,
    pub node_id: NodeId,
    pub client_id: Seq<char>,
    pub qos: QoS,
    pub group: Option<Seq<char>>,
}

/// The key under which a registration is unique.
pub open spec fn sub_key(s: SubV) -> (Seq<char>, (NodeId, Seq<char>)) {
    (s.filter, (s.node_id, s.client_id))
}

/// One stored registration.  `levels` caches the split of `filter`.
pub struct Sub {
    pub filter: TopicFilter,
    pub levels: Vec<String>,
    pub node_id: NodeId,
    pub client_id: ClientId,
    pub qos: QoS,
    pub group: Option<SharedGroup>,
}

impl View for Sub {
    type V = SubV;

    open spec fn view(&self) -> SubV {
        SubV {
            filter: self.filter@,
            node_id: self.node_id,
            client_id: self.client_id@,
            qos: self.qos,
            group: self.group.deep_view(),
        }
    }
}

impl DeepView for Sub {
    type V = SubV;

    open spec fn deep_view(&self) -> SubV {
        self.view()
    }
}

/// Index of the first registration with key `k`, or `-1`.
pub open spec fn find_key(s: Seq<SubV>, k: (Seq<char>, (NodeId, Seq<char>))) -> int
    decreases s.len(),
{
    if s.len() == 0 {
        -1
    } else if sub_key(s[0]) == k {
        0
    } else {
        let r = find_key(s.skip(1), k);
        if r < 0 {
            -1
        } else {
            r + 1
        }
    }
}

pub open spec fn has_key(s: Seq<SubV>, k: (Seq<char>, (NodeId, Seq<char>))) -> bool {
    find_key(s, k) >= 0
}

pub proof fn lemma_find_key(s: Seq<SubV>, k: (Seq<char>, (NodeId, Seq<char>)))
    ensures
        -1 <= find_key(s, k) < s.len(),
        find_key(s, k) >= 0 ==> sub_key(s[find_key(s, k)]) == k,
        forall|j: int| 0 <= j < find_key(s, k) ==> sub_key(s[j]) != k,
        find_key(s, k) == -1 ==> forall|j: int| 0 <= j < s.len() ==> sub_key(s[j]) != k,
    decreases s.len(),
{
    if s.len() == 0 {
    } else if sub_key(s[0]) == k {
    } else {
        lemma_find_key(s.skip(1), k);
        assert forall|j: int| 0 <= j < find_key(s, k) implies sub_key(s[j]) != k by {
            if j > 0 {
                assert(sub_key(s.skip(1)[j - 1]) != k);
            }
        }
        if find_key(s, k) == -1 {
            assert forall|j: int| 0 <= j < s.len() implies sub_key(s[j]) != k by {
                if j > 0 {
                    assert(sub_key(s.skip(1)[j - 1]) != k);
                }
            }
        }
    }
}

/// What `add` does to the registration list: replace the registration with
/// the same key, or append a fresh one.
pub open spec fn spec_add(s: Seq<SubV>, x: SubV) -> Seq<SubV> {
    let i = find_key(s, sub_key(x));
    if i >= 0 {
        s.update(i, x)
    } else {
        s.push(x)
    }
}

/// What `remove` does: drop the registration with key `k` if present.
pub open spec fn spec_remove(s: Seq<SubV>, k: (Seq<char>, (NodeId, Seq<char>))) -> Seq<SubV> {
    let i = find_key(s, k);
    if i >= 0 {
        s.remove(i)
    } else {
        s
    }
}

/// The registrations whose filter matches topic `t`, in storage order.
pub open spec fn spec_matched(s: Seq<SubV>, t: Seq<char>) -> Seq<SubV>
    decreases s.len(),
{
    if s.len() == 0 {
        Seq::empty()
    } else if filter_matches(s.last().filter, t) {
        spec_matched(s.drop_last(), t).push(s.last())
    } else {
        spec_matched(s.drop_last(), t)
    }
}

/// Whether the identity (n, c) is in the connected set `conn`.
pub open spec fn conn_online(conn: Seq<(NodeId, Seq<char>)>, n: NodeId, c: Seq<char>) -> bool {
    exists|i: int| 0 <= i < conn.len() && conn[i] == (n, c)
}

/// The relation a matched registration contributes, with the online hint of
/// its shared group resolved against `conn`.
pub open spec fn emit(x: SubV, conn: Seq<(NodeId, Seq<char>)>) -> (NodeId, RelV) {
    (
        x.node_id,
        (
            x.filter,
            x.client_id,
            x.qos,
            match x.group {
                Option::None => Option::None,
                Option::Some(g) => Option::Some((g, conn_online(conn, x.node_id, x.client_id))),
            },
        ),
    )
}

pub open spec fn emit_all(s: Seq<SubV>, conn: Seq<(NodeId, Seq<char>)>) -> Seq<(NodeId, RelV)>
    decreases s.len(),
{
    if s.len() == 0 {
        Seq::empty()
    } else {
        emit_all(s.drop_last(), conn).push(emit(s.last(), conn))
    }
}

/// Index of the bucket for node `n`, or `-1`.
pub open spec fn find_node(m: Seq<(NodeId, Seq<RelV>)>, n: NodeId) -> int
    decreases m.len(),
{
    if m.len() == 0 {
        -1
    } else if m[0].0 == n {
        0
    } else {
        let r = find_node(m.skip(1), n);
        if r < 0 {
            -1
        } else {
            r + 1
        }
    }
}

pub proof fn lemma_find_node(m: Seq<(NodeId, Seq<RelV>)>, n: NodeId)
    ensures
        -1 <= find_node(m, n) < m.len(),
        find_node(m, n) >= 0 ==> m[find_node(m, n)].0 == n,
        forall|j: int| 0 <= j < find_node(m, n) ==> m[j].0 != n,
        find_node(m, n) == -1 ==> forall|j: int| 0 <= j < m.len() ==> m[j].0 != n,
    decreases m.len(),
{
    if m.len() == 0 {
    } else if m[0].0 == n {
    } else {
        lemma_find_node(m.skip(1), n);
        assert forall|j: int| 0 <= j < find_node(m, n) implies m[j].0 != n by {
            if j > 0 {
                assert(m.skip(1)[j - 1].0 != n);
            }
        }
        if find_node(m, n) == -1 {
            assert forall|j: int| 0 <= j < m.len() implies m[j].0 != n by {
                if j > 0 {
                    assert(m.skip(1)[j - 1].0 != n);
                }
            }
        }
    }
}

/// Appends one relation to its node's bucket, creating the bucket on first
/// use.  Buckets appear in the order their nodes first matched.
pub open spec fn bucket_add(m: Seq<(NodeId, Seq<RelV>)>, nr: (NodeId, RelV)) -> Seq<
    (NodeId, Seq<RelV>),
> {
    let i = find_node(m, nr.0);
    if i >= 0 {
        m.update(i, (nr.0, m[i].1.push(nr.1)))
    } else {
        m.push((nr.0, seq![nr.1]))
    }
}

pub open spec fn spec_group(rels: Seq<(NodeId, RelV)>) -> Seq<(NodeId, Seq<RelV>)>
    decreases rels.len(),
{
    if rels.len() == 0 {
        Seq::empty()
    } else {
        bucket_add(spec_group(rels.drop_last()), rels.last())
    }
}

/// The complete answer of a match query on registrations `s`.
pub open spec fn spec_route(
    s: Seq<SubV>,
    t: Seq<char>,
    conn: Seq<(NodeId, Seq<char>)>,
) -> Seq<(NodeId, Seq<RelV>)> {
    spec_group(emit_all(spec_matched(s, t), conn))
}

/// Number of registrations that carry a shared group.
pub open spec fn spec_shared_count(s: Seq<SubV>) -> nat
    decreases s.len(),
{
    if s.len() == 0 {
        0
    } else {
        spec_shared_count(s.drop_last()) + if s.last().group is Some {
            1nat
        } else {
            0nat
        }
    }
}

/// The emitted relations are the matched registrations, element by element.
pub proof fn lemma_emit_all_elems(s: Seq<SubV>, conn: Seq<(NodeId, Seq<char>)>)
    ensures
        emit_all(s, conn).len() == s.len(),
        forall|j: int| 0 <= j < s.len() ==> emit_all(s, conn)[j] == emit(#[trigger] s[j], conn),
    decreases s.len(),
{
    if s.len() > 0 {
        lemma_emit_all_elems(s.drop_last(), conn);
        assert forall|j: int|
            0 <= j < s.len() implies emit_all(s, conn)[j] == emit(#[trigger] s[j], conn) by {
            if j < s.len() - 1 {
                assert(s.drop_last()[j] == s[j]);
                assert(emit_all(s, conn)[j] == emit_all(s.drop_last(), conn)[j]);
            } else {
                assert(s[j] == s.last());
            }
        }
    }
}

/// Every registration whose filter matches the topic stands in the match
/// list.
pub proof fn lemma_matched_complete(s: Seq<SubV>, t: Seq<char>, j: int)
    requires
        0 <= j < s.len(),
        filter_matches(s[j].filter, t),
    ensures
        exists|i: int|
            0 <= i < spec_matched(s, t).len() && #[trigger] spec_matched(s, t)[i] == s[j],
    decreases s.len(),
{
    if j == s.len() - 1 {
        assert(s[j] == s.last());
        assert(spec_matched(s, t).last() == s[j]);
        assert(spec_matched(s, t)[spec_matched(s, t).len() - 1] == s[j]);
    } else {
        assert(s.drop_last()[j] == s[j]);
        lemma_matched_complete(s.drop_last(), t, j);
        let i = choose|i: int|
            0 <= i < spec_matched(s.drop_last(), t).len() && #[trigger] spec_matched(
                s.drop_last(),
                t,
            )[i] == s[j];
        assert(spec_matched(s, t)[i] == s[j]);
    }
}

/// Every listed relation stands in some bucket of its grouping.
pub proof fn lemma_group_complete(e: Seq<(NodeId, RelV)>, j: int)
    requires
        0 <= j < e.len(),
    ensures
        exists|k: int, l: int|
            #![trigger spec_group(e)[k].1[l]]
            0 <= k < spec_group(e).len() && 0 <= l < spec_group(e)[k].1.len() && (
            spec_group(e)[k].0,
            spec_group(e)[k].1[l],
            ) == e[j],
    decreases e.len(),
{
    let g0 = spec_group(e.drop_last());
    let x = e.last();
    lemma_find_node(g0, x.0);
    let i = find_node(g0, x.0);
    if j == e.len() - 1 {
        if i >= 0 {
            assert((spec_group(e)[i].0, spec_group(e)[i].1[g0[i].1.len() as int]) == e[j]);
        } else {
            let k = g0.len() as int;
            assert(spec_group(e)[k] == (x.0, seq![x.1]));
            assert((spec_group(e)[k].0, spec_group(e)[k].1[0]) == e[j]);
        }
    } else {
        assert(e.drop_last()[j] == e[j]);
        lemma_group_complete(e.drop_last(), j);
        let (k, l) = choose|k: int, l: int|
            0 <= k < g0.len() && 0 <= l < g0[k].1.len() && (g0[k].0, g0[k].1[l]) == e[j];
        if i >= 0 && k == i {
            assert(spec_group(e)[k].0 == g0[k].0);
            assert(spec_group(e)[k].1[l] == g0[k].1[l]);
            assert((spec_group(e)[k].0, spec_group(e)[k].1[l]) == e[j]);
        } else {
            assert(spec_group(e)[k] == g0[k]);
            assert((spec_group(e)[k].0, spec_group(e)[k].1[l]) == e[j]);
        }
    }
}

/// Every element of every bucket of a grouped relation list is one of the
/// listed relations.
pub proof fn lemma_group_elems(e: Seq<(NodeId, RelV)>)
    ensures
        forall|k: int, l: int|
            #![trigger spec_group(e)[k].1[l]]
            0 <= k < spec_group(e).len() && 0 <= l < spec_group(e)[k].1.len() ==> exists|j: int|
                0 <= j < e.len() && #[trigger] e[j] == (spec_group(e)[k].0, spec_group(e)[k].1[l]),
    decreases e.len(),
{
    if e.len() > 0 {
        lemma_group_elems(e.drop_last());
        let g0 = spec_group(e.drop_last());
        let x = e.last();
        lemma_find_node(g0, x.0);
        let i = find_node(g0, x.0);
        assert forall|k: int, l: int|
            #![trigger spec_group(e)[k].1[l]]
            0 <= k < spec_group(e).len() && 0 <= l < spec_group(e)[k].1.len() implies exists|
            j: int,
        | 0 <= j < e.len() && #[trigger] e[j] == (spec_group(e)[k].0, spec_group(e)[k].1[l]) by {
            if i >= 0 && k == i && l == g0[i].1.len() {
                assert(e[e.len() - 1] == (spec_group(e)[k].0, spec_group(e)[k].1[l]));
            } else if i < 0 && k == g0.len() {
                assert(spec_group(e)[k] == (x.0, seq![x.1]));
                assert(e[e.len() - 1] == (spec_group(e)[k].0, spec_group(e)[k].1[l]));
            } else {
                assert(0 <= k < g0.len() && 0 <= l < g0[k].1.len());
                assert(spec_group(e)[k].0 == g0[k].0 && spec_group(e)[k].1[l] == g0[k].1[l]);
                let j = choose|j: int|
                    0 <= j < e.drop_last().len() && #[trigger] e.drop_last()[j] == (
                    g0[k].0,
                    g0[k].1[l],
                    );
                assert(e[j] == (spec_group(e)[k].0, spec_group(e)[k].1[l]));
            }
        }
    }
}

/// The distinct filters of the registrations, in first-occurrence order.
pub open spec fn distinct_filters(s: Seq<SubV>) -> Seq<Seq<char>>
    decreases s.len(),
{
    if s.len() == 0 {
        Seq::empty()
    } else if exists|j: int| 0 <= j < s.len() - 1 && s[j].filter == s.last().filter {
        distinct_filters(s.drop_last())
    } else {
        distinct_filters(s.drop_last()).push(s.last().filter)
    }
}

pub proof fn lemma_distinct_filters_len(s: Seq<SubV>)
    ensures
        distinct_filters(s).len() <= s.len(),
    decreases s.len(),
{
    if s.len() > 0 {
        lemma_distinct_filters_len(s.drop_last());
    }
}

/// The set of identities currently connected, against which online hints are
/// resolved.
pub struct ConnSet {
    pub ids: Vec<Id>,
}

impl ConnSet {
    pub open spec fn view(&self) -> Seq<(NodeId, Seq<char>)> {
        self.ids.deep_view()
    }

    pub fn new() -> (r: ConnSet)
        ensures
            r.view().len() == 0,
    {
        ConnSet { ids: Vec::new() }
    }

    pub fn push(&mut self, id: Id)
        ensures
            final(self).view() == old(self).view().push(id@),
    {
        self.ids.push(id);
        proof {
            assert(self.view() =~= old(self).view().push(id@));
        }
    }

    /// Whether the identity (node_id, client_id) is connected.
    pub fn contains(&self, node_id: NodeId, client_id: &str) -> (b: bool)
        ensures
            b == conn_online(self.view(), node_id, client_id@),
    {
        let mut i: usize = 0;
        while i < self.ids.len()
            invariant
                i <= self.ids.len(),
                forall|j: int| 0 <= j < i ==> self.ids.deep_view()[j] != (node_id, client_id@),
            decreases self.ids.len() - i,
        {
            if self.ids[i].node_id == node_id && str_eq(self.ids[i].client_id.as_str(), client_id) {
                proof {
                    assert(self.ids.deep_view()[i as int] == (node_id, client_id@));
                }
                return true;
            }
            i = i + 1;
        }
        false
    }
}

/// The per-query map from node to its matching relations.
pub struct SubRelationsMap {
    pub entries: Vec<(NodeId, SubRelations)>,
}

impl SubRelationsMap {
    pub open spec fn view(&self) -> Seq<(NodeId, Seq<RelV>)> {
        self.entries.deep_view()
    }

    pub fn new() -> (r: SubRelationsMap)
        ensures
            r.view().len() == 0,
    {
        let r = SubRelationsMap { entries: Vec::new() };
        proof {
            assert(r.view() =~= Seq::<(NodeId, Seq<RelV>)>::empty());
        }
        r
    }

    fn push_rel(
        &mut self,
        node_id: NodeId,
        filter: TopicFilter,
        client_id: ClientId,
        qos: QoS,
        sh: Option<(SharedGroup, IsOnline)>,
    )
        ensures
            final(self).view() == bucket_add(
                old(self).view(),
                (node_id, (filter@, client_id@, qos, sh.deep_view())),
            ),
    {
        let ghost nr = (node_id, (filter@, client_id@, qos, sh.deep_view()));
        let ghost m0 = self.view();
        let mut i: usize = 0;
        while i < self.entries.len()
            invariant
                i <= self.entries.len(),
                m0 == self.view(),
                m0 == old(self).view(),
                nr == (node_id, (filter@, client_id@, qos, sh.deep_view())),
                forall|j: int| 0 <= j < i ==> m0[j].0 != node_id,
            decreases self.entries.len() - i,
        {
            if self.entries[i].0 == node_id {
                proof {
                    assert(m0[i as int].0 == node_id);
                    lemma_find_node(m0, node_id);
                    assert(find_node(m0, node_id) == i);
                }
                let (pn, mut rels) = self.entries.remove(i);
                let ghost b0 = rels.deep_view();
                proof {
                    assert(b0 == m0[i as int].1);
                }
                rels.push((filter, client_id, qos, sh));
                proof {
                    assert(rels.deep_view() =~= b0.push(nr.1));
                }
                self.entries.insert(i, (pn, rels));
                proof {
                    assert(self.view() =~~= m0.update(i as int, (node_id, m0[i as int].1.push(nr.1))));
                }
                return ;
            }
            i = i + 1;
        }
        proof {
            lemma_find_node(m0, node_id);
        }
        let mut rels: SubRelations = Vec::new();
        rels.push((filter, client_id, qos, sh));
        proof {
            assert(rels.deep_view() =~~= seq![nr.1]);
        }
        self.entries.push((node_id, rels));
        proof {
            assert(self.view() =~~= m0.push((node_id, rels.deep_view())));
        }
    }

    /// The relations recorded for node `n`, or an empty list.
    pub fn relations_of(&self, n: NodeId) -> (r: SubRelations)
        ensures
            find_node(self.view(), n) >= 0 ==> r.deep_view() == self.view()[find_node(
                self.view(),
                n,
            )].1,
            find_node(self.view(), n) < 0 ==> r.deep_view().len() == 0,
    {
        proof {
            lemma_find_node(self.view(), n);
        }
        let mut i: usize = 0;
        while i < self.entries.len()
            invariant
                i <= self.entries.len(),
                forall|j: int| 0 <= j < i ==> self.view()[j].0 != n,
            decreases self.entries.len() - i,
        {
            if self.entries[i].0 == n {
                proof {
                    lemma_find_node(self.view(), n);
                    assert(self.view()[i as int].0 == n);
                    assert(find_node(self.view(), n) == i);
                }
                return clone_rels(&self.entries[i].1);
            }
            i = i + 1;
        }
        let r: SubRelations = Vec::new();
        proof {
            lemma_find_node(self.view(), n);
            if find_node(self.view(), n) >= 0 {
                assert(self.view()[find_node(self.view(), n)].0 == n);
            }
            assert(r.deep_view() =~= Seq::<RelV>::empty());
        }
        r
    }
}

/// Clones a relation list, keeping its mathematical value.
pub fn clone_rels(v: &SubRelations) -> (r: SubRelations)
    ensures
        r.deep_view() == v.deep_view(),
{
    let mut r: SubRelations = Vec::new();
    let mut i: usize = 0;
    while i < v.len()
        invariant
            i <= v.len(),
            r.len() == i,
            forall|k: int| 0 <= k < i ==> r.deep_view()[k] == v.deep_view()[k],
        decreases v.len() - i,
    {
        let (f, c, q, sh) = &v[i];
        let shc: Option<(SharedGroup, IsOnline)> = match sh {
            Some((g, o)) => Some((g.clone(), *o)),
            None => None,
        };
        r.push((f.clone(), c.clone(), *q, shc));
        i = i + 1;
    }
    proof {
        assert(r.deep_view() =~= v.deep_view());
    }
    r
}

/// The subscription router.
pub struct Router {
    pub subs: Vec<Sub>,
    pub topics_max: usize,
    pub relations_max: usize,
}

impl Router {
    /// The registrations, as mathematical values, in storage order.
    pub open spec fn subs_view(&self) -> Seq<SubV> {
        self.subs.deep_view()
    }

    /// Internal consistency: cached level splits are exact, filters are
    /// valid, and every (filter, identity) key occurs at most once.
    pub open spec fn wf(&self) -> bool {
        &&& forall|i: int|
            0 <= i < self.subs@.len() ==> (#[trigger] self.subs@[i]).levels.deep_view()
                == levels_of(self.subs@[i].filter@)
        &&& forall|i: int| 0 <= i < self.subs_view().len() ==> valid_filter(
            (#[trigger] self.subs_view()[i]).filter,
        )
        &&& forall|i: int, j: int|
            0 <= i < j < self.subs_view().len() ==> sub_key(self.subs_view()[i]) != sub_key(
                self.subs_view()[j],
            )
    }

    pub fn new() -> (r: Router)
        ensures
            r.wf(),
            r.subs_view().len() == 0,
            r.topics_max == 0,
            r.relations_max == 0,
    {
        Router { subs: Vec::new(), topics_max: 0, relations_max: 0 }
    }

    /// Index of the registration with the given key, or `None`.
    fn find_index(&self, topic_filter: &str, node_id: NodeId, client_id: &str) -> (r: Option<
        usize,
    >)
        ensures
            r matches Some(i) ==> i < self.subs_view().len() && find_key(
                self.subs_view(),
                (topic_filter@, (node_id, client_id@)),
            ) == i,
            r is None ==> find_key(self.subs_view(), (topic_filter@, (node_id, client_id@)))
                == -1,
    {
        let ghost s0 = self.subs_view();
        let ghost k = (topic_filter@, (node_id, client_id@));
        let n = self.subs.len();
        let mut i: usize = 0;
        while i < n
            invariant
                i <= n,
                n == self.subs.len(),
                s0 == self.subs_view(),
                k == (topic_filter@, (node_id, client_id@)),
                forall|j: int| 0 <= j < i ==> sub_key(s0[j]) != k,
            decreases n - i,
        {
            let same = str_eq(self.subs[i].filter.as_str(), topic_filter) && self.subs[i].node_id
                == node_id && str_eq(self.subs[i].client_id.as_str(), client_id);
            proof {
                assert(sub_key(s0[i as int]) == (
                    self.subs@[i as int].filter@,
                    (self.subs@[i as int].node_id, self.subs@[i as int].client_id@),
                ));
            }
            if same {
                proof {
                    lemma_find_key(s0, k);
                    assert(sub_key(s0[i as int]) == k);
                }
                return Some(i);
            }
            i = i + 1;
        }
        proof {
            lemma_find_key(s0, k);
            if find_key(s0, k) >= 0 {
                assert(sub_key(s0[find_key(s0, k)]) == k);
            }
        }
        None
    }

    /// Registers one subscription.  Re-adding the same (filter, identity)
    /// updates qos and group rather than duplicating.  The highest counts
    /// ever reached are retained in `topics_max` and `relations_max`.
    pub fn add(
        &mut self,
        topic_filter: &str,
        id: Id,
        qos: QoS,
        shared_group: Option<SharedGroup>,
    ) -> (r: Result<(), Error>)
        requires
            old(self).wf(),
        ensures
            final(self).wf(),
            r is Ok <==> valid_filter(topic_filter@),
            r is Err ==> r == Result::<(), Error>::Err(Error::InvalidFilter) && *final(self) == *old(
                self,
            ),
            r is Ok ==> final(self).subs_view() == spec_add(
                old(self).subs_view(),
                SubV {
                    filter: topic_filter@,
                    node_id: id@.0,
                    client_id: id@.1,
                    qos: qos,
                    group: shared_group.deep_view(),
                },
            ),
            r is Ok ==> final(self).topics_max as int == vstd::math::max(
                old(self).topics_max as int,
                distinct_filters(final(self).subs_view()).len() as int,
            ),
            r is Ok ==> final(self).relations_max as int == vstd::math::max(
                old(self).relations_max as int,
                final(self).subs_view().len() as int,
            ),
    {
        let levels = split_levels(topic_filter);
        if !check_filter(&levels) {
            return Err(Error::InvalidFilter);
        }
        let filter: String = topic_filter.to_owned();
        let ghost x = SubV {
            filter: topic_filter@,
            node_id: id@.0,
            client_id: id@.1,
            qos: qos,
            group: shared_group.deep_view(),
        };
        let ghost s0 = self.subs_view();
        match self.find_index(topic_filter, id.node_id, id.client_id.as_str()) {
            Some(i) => {
                proof {
                    lemma_find_key(s0, sub_key(x));
                    assert(find_key(s0, sub_key(x)) == i);
                }
                let mut sub = self.subs.remove(i);
                sub.qos = qos;
                sub.group = shared_group;
                self.subs.insert(i, sub);
                proof {
                    assert(self.subs_view() =~~= s0.update(i as int, x));
                    assert forall|a: int, b: int|
                        0 <= a < b < self.subs_view().len() implies sub_key(self.subs_view()[a])
                        != sub_key(self.subs_view()[b]) by {
                        assert(sub_key(s0[a]) != sub_key(s0[b]));
                    }
                }
            },
            None => {
                proof {
                    lemma_find_key(s0, sub_key(x));
                }
                self.subs.push(
                    Sub {
                        filter,
                        levels,
                        node_id: id.node_id,
                        client_id: id.client_id,
                        qos,
                        group: shared_group,
                    },
                );
                proof {
                    assert(self.subs_view() =~~= s0.push(x));
                    assert forall|a: int, b: int|
                        0 <= a < b < self.subs_view().len() implies sub_key(self.subs_view()[a])
                        != sub_key(self.subs_view()[b]) by {
                        if b < s0.len() {
                            assert(sub_key(s0[a]) != sub_key(s0[b]));
                        } else {
                            assert(sub_key(s0[a]) != sub_key(x));
                        }
                    }
                }
            },
        }
        proof {
            lemma_distinct_filters_len(self.subs_view());
            assert(self.subs_view().len() == self.subs.len());
        }
        let t = self.topics();
        if t > self.topics_max {
            self.topics_max = t;
        }
        let rl = self.subs.len();
        if rl > self.relations_max {
            self.relations_max = rl;
        }
        Ok(())
    }

    /// Unregisters one subscription; reports whether it existed.  Never an
    /// error on a key that was never registered.
    pub fn remove(&mut self, topic_filter: &str, id: Id) -> (r: Result<bool, Error>)
        requires
            old(self).wf(),
        ensures
            final(self).wf(),
            r is Ok,
            r == Result::<bool, Error>::Ok(
                has_key(old(self).subs_view(), (topic_filter@, (id@.0, id@.1))),
            ),
            final(self).subs_view() == spec_remove(
                old(self).subs_view(),
                (topic_filter@, (id@.0, id@.1)),
            ),
            final(self).topics_max == old(self).topics_max,
            final(self).relations_max == old(self).relations_max,
    {
        let ghost k = (topic_filter@, (id@.0, id@.1));
        let ghost s0 = self.subs_view();
        match self.find_index(topic_filter, id.node_id, id.client_id.as_str()) {
            Some(i) => {
                self.subs.remove(i);
                proof {
                    lemma_find_key(s0, k);
                    assert(self.subs_view() =~~= s0.remove(i as int));
                    assert forall|a: int, b: int|
                        0 <= a < b < self.subs_view().len() implies sub_key(self.subs_view()[a])
                        != sub_key(self.subs_view()[b]) by {
                        if b < i {
                            assert(sub_key(s0[a]) != sub_key(s0[b]));
                        } else if a < i {
                            assert(sub_key(s0[a]) != sub_key(s0[b + 1]));
                        } else {
                            assert(sub_key(s0[a + 1]) != sub_key(s0[b + 1]));
                        }
                    }
                }
                Ok(true)
            },
            None => Ok(false),
        }
    }

    /// The hot path: every registered relation whose filter matches the
    /// concrete topic, grouped by node in first-match order, shared groups
    /// carrying an online hint resolved against `conn`.
    pub fn matches(&self, topic: &str, conn: &ConnSet) -> (r: Result<SubRelationsMap, Error>)
        requires
            self.wf(),
        ensures
            r is Ok,
            r matches Ok(m) ==> m.view() == spec_route(self.subs_view(), topic@, conn.view()),
    {
        let tlevels = split_levels(topic);
        let mut m = SubRelationsMap::new();
        let ghost sv = self.subs_view();
        let ghost cv = conn.view();
        proof {
            assert(sv.take(0) =~= Seq::<SubV>::empty());
            assert(m.view() =~= spec_route(sv.take(0), topic@, cv));
        }
        let n = self.subs.len();
        let mut i: usize = 0;
        while i < n
            invariant
                i <= n,
                n == self.subs.len(),
                sv == self.subs_view(),
                cv == conn.view(),
                tlevels.deep_view() == levels_of(topic@),
                self.wf(),
                m.view() == spec_route(sv.take(i as int), topic@, cv),
            decreases n - i,
        {
            let ghost prefix = sv.take(i as int);
            let ghost prefix1 = sv.take(i + 1 as int);
            proof {
                assert(prefix1.drop_last() =~= prefix);
                assert(prefix1.last() == sv[i as int]);
            }
            let sub = &self.subs[i];
            if match_levels(&sub.levels, &tlevels) {
                let sh: Option<(SharedGroup, IsOnline)> = match &sub.group {
                    Some(g) => {
                        let online = conn.contains(sub.node_id, sub.client_id.as_str());
                        Some((g.clone(), online))
                    },
                    None => None,
                };
                proof {
                    assert(filter_matches(sv[i as int].filter, topic@));
                    assert(spec_matched(prefix1, topic@) == spec_matched(prefix, topic@).push(
                        sv[i as int],
                    ));
                    assert(spec_matched(prefix, topic@).push(sv[i as int]).drop_last() =~= spec_matched(
                        prefix,
                        topic@,
                    ));
                }
                m.push_rel(sub.node_id, sub.filter.clone(), sub.client_id.clone(), sub.qos, sh);
                proof {
                    let e0 = emit_all(spec_matched(prefix, topic@), cv);
                    assert(emit_all(spec_matched(prefix1, topic@), cv) == e0.push(
                        emit(sv[i as int], cv),
                    ));
                    assert(e0.push(emit(sv[i as int], cv)).drop_last() =~= e0);
                    assert(m.view() == spec_route(prefix1, topic@, cv));
                }
            } else {
                proof {
                    assert(!filter_matches(sv[i as int].filter, topic@));
                    assert(spec_matched(prefix1, topic@) == spec_matched(prefix, topic@));
                }
            }
            i = i + 1;
        }
        proof {
            assert(sv.take(n as int) =~= sv);
        }
        Ok(m)
    }

    /// Whether the identity is connected, per the supplied connected set.
    pub fn is_online(&self, conn: &ConnSet, node_id: NodeId, client_id: &str) -> (b: bool)
        ensures
            b == conn_online(conn.view(), node_id, client_id@),
    {
        conn.contains(node_id, client_id)
    }

    /// Number of distinct subscribed filters.
    pub fn topics(&self) -> (n: usize)
        requires
            self.wf(),
        ensures
            n == distinct_filters(self.subs_view()).len(),
    {
        let ghost sv = self.subs_view();
        proof {
            assert(sv.take(0) =~= Seq::<SubV>::empty());
        }
        let len = self.subs.len();
        let mut count: usize = 0;
        let mut i: usize = 0;
        while i < len
            invariant
                i <= len,
                len == self.subs.len(),
                sv == self.subs_view(),
                count == distinct_filters(sv.take(i as int)).len(),
                count <= i,
            decreases len - i,
        {
            proof {
                assert(sv.take(i + 1 as int).drop_last() =~= sv.take(i as int));
                assert(sv.take(i + 1 as int).last() == sv[i as int]);
            }
            let mut dup = false;
            let mut j: usize = 0;
            while j < i
                invariant
                    j <= i,
                    i < len,
                    len == self.subs.len(),
                    sv == self.subs_view(),
                    dup == exists|p: int| 0 <= p < j && sv[p].filter == sv[i as int].filter,
                decreases i - j,
            {
                let same = self.subs[j].filter == self.subs[i].filter;
                proof {
                    assert(same == (sv[j as int].filter == sv[i as int].filter));
                }
                if same {
                    dup = true;
                }
                j = j + 1;
            }
            proof {
                let p1 = sv.take(i + 1 as int);
                assert forall|p: int| 0 <= p < i implies (sv[p].filter == sv[i as int].filter) == (
                p1[p].filter == p1.last().filter) by {}
            }
            if !dup {
                count = count + 1;
            }
            i = i + 1;
        }
        proof {
            assert(sv.take(len as int) =~= sv);
        }
        count
    }

    /// Highest number of distinct filters ever reached.
    pub fn topics_max(&self) -> (n: usize)
        ensures
            n == self.topics_max,
    {
        self.topics_max
    }

    /// Number of registered subscription relations.
    pub fn relations(&self) -> (n: usize)
        ensures
            n == self.subs_view().len(),
    {
        self.subs.len()
    }

    /// Highest number of relations ever reached.
    pub fn relations_max(&self) -> (n: usize)
        ensures
            n == self.relations_max,
    {
        self.relations_max
    }

    /// Number of registered shared-subscription relations.
    pub fn relations_shared(&self) -> (n: usize)
        ensures
            n == spec_shared_count(self.subs_view()),
    {
        let ghost sv = self.subs_view();
        proof {
            assert(sv.take(0) =~= Seq::<SubV>::empty());
        }
        let len = self.subs.len();
        let mut count: usize = 0;
        let mut i: usize = 0;
        while i < len
            invariant
                i <= len,
                len == self.subs.len(),
                sv == self.subs_view(),
                count == spec_shared_count(sv.take(i as int)),
                count <= i,
            decreases len - i,
        {
            proof {
                let p1 = sv.take(i + 1 as int);
                assert(p1.drop_last() =~= sv.take(i as int));
                assert(p1.last() == sv[i as int]);
            }
            let is_shared = match &self.subs[i].group {
                Some(_) => true,
                None => false,
            };
            if is_shared {
                count = count + 1;
            }
            i = i + 1;
        }
        proof {
            assert(sv.take(len as int) =~= sv);
        }
        count
    }

    /// Up to `top` distinct subscribed filters, in first-subscription order.
    pub fn list_topics(&self, top: usize) -> (r: Vec<String>)
        requires
            self.wf(),
        ensures
            r.deep_view() == if distinct_filters(self.subs_view()).len() <= top {
                distinct_filters(self.subs_view())
            } else {
                distinct_filters(self.subs_view()).take(top as int)
            },
    {
        let ghost sv = self.subs_view();
        proof {
            assert(sv.take(0) =~= Seq::<SubV>::empty());
        }
        let len = self.subs.len();
        let mut r: Vec<String> = Vec::new();
        let mut i: usize = 0;
        while i < len
            invariant
                i <= len,
                len == self.subs.len(),
                sv == self.subs_view(),
                r.deep_view() == if distinct_filters(sv.take(i as int)).len() <= top {
                    distinct_filters(sv.take(i as int))
                } else {
                    distinct_filters(sv.take(i as int)).take(top as int)
                },
                r.len() <= distinct_filters(sv.take(i as int)).len(),
            decreases len - i,
        {
            proof {
                assert(sv.take(i + 1 as int).drop_last() =~= sv.take(i as int));
                assert(sv.take(i + 1 as int).last() == sv[i as int]);
                lemma_distinct_filters_len(sv.take(i as int));
            }
            let mut dup = false;
            let mut j: usize = 0;
            while j < i
                invariant
                    j <= i,
                    i < len,
                    len == self.subs.len(),
                    sv == self.subs_view(),
                    dup == exists|p: int| 0 <= p < j && sv[p].filter == sv[i as int].filter,
                decreases i - j,
            {
                let same = self.subs[j].filter == self.subs[i].filter;
                proof {
                    assert(same == (sv[j as int].filter == sv[i as int].filter));
                }
                if same {
                    dup = true;
                }
                j = j + 1;
            }
            proof {
                let p1 = sv.take(i + 1 as int);
                assert forall|p: int| 0 <= p < i implies (sv[p].filter == sv[i as int].filter) == (
                p1[p].filter == p1.last().filter) by {}
            }
            if !dup && r.len() < top {
                r.push(self.subs[i].filter.clone());
            }
            proof {
                let d1 = distinct_filters(sv.take(i + 1 as int));
                let d0 = distinct_filters(sv.take(i as int));
                if !dup && r@.len() <= top {
                    if d0.len() < top {
                        assert(r.deep_view() =~= if d1.len() <= top {
                            d1
                        } else {
                            d1.take(top as int)
                        });
                    } else {
                        assert(d0.take(top as int) =~= d1.take(top as int));
                    }
                } else {
                    if dup {
                        assert(d1 == d0);
                    } else {
                        assert(d0.len() >= top);
                        assert(d0.take(top as int) =~= d1.take(top as int));
                    }
                }
            }
            i = i + 1;
        }
        proof {
            assert(sv.take(len as int) =~= sv);
        }
        r
    }

    /// Up to `top` registrations, in registration order.
    pub fn list_relations(&self, top: usize) -> (r: Vec<RelationInfo>)
        ensures
            r.deep_view() == if self.subs_view().len() <= top {
                self.subs_view()
            } else {
                self.subs_view().take(top as int)
            },
    {
        let ghost sv = self.subs_view();
        let mut r: Vec<RelationInfo> = Vec::new();
        let len = self.subs.len();
        let stop = if len <= top {
            len
        } else {
            top
        };
        let mut i: usize = 0;
        while i < stop
            invariant
                i <= stop,
                stop <= len,
                len == self.subs.len(),
                sv == self.subs_view(),
                r.len() == i,
                forall|k: int| 0 <= k < i ==> r.deep_view()[k] == sv[k],
            decreases stop - i,
        {
            let sub = &self.subs[i];
            let ghost r0 = r.deep_view();
            r.push(
                RelationInfo {
                    topic_filter: sub.filter.clone(),
                    node_id: sub.node_id,
                    client_id: sub.client_id.clone(),
                    qos: sub.qos,
                    shared_group: crate::types::clone_opt_string(&sub.group),
                },
            );
            proof {
                assert(r.deep_view() =~= r0.push(sv[i as int]));
            }
            i = i + 1;
        }
        proof {
            if sv.len() <= top {
                assert(r.deep_view() =~= sv);
            } else {
                assert(r.deep_view() =~= sv.take(top as int));
            }
        }
        r
    }
}

/// One registration as the diagnostic listing reports it.
pub struct RelationInfo {
    pub topic_filter: TopicFilter,
    pub node_id: NodeId,
    pub client_id: ClientId,
    pub qos: QoS,
    pub shared_group: Option<SharedGroup>,
}

impl View for RelationInfo {
    type V = SubV;

    open spec fn view(&self) -> SubV {
        SubV {
            filter: self.topic_filter@,
            node_id: self.node_id,
            client_id: self.client_id@,
            qos: self.qos,
            group: self.shared_group.deep_view(),
        }
    }
}

impl DeepView for RelationInfo {
    type V = SubV;

    open spec fn deep_view(&self) -> SubV {
        self.view()
    }
}

/// Law: registration is idempotent.  Adding a second registration with the
/// same (filter, identity) key replaces the first — the list is the same as
/// if only the second had been added, and the second add never grows it.
pub proof fn lemma_add_idempotent(s: Seq<SubV>, x1: SubV, x2: SubV)
    requires
        sub_key(x1) == sub_key(x2),
    ensures
        spec_add(spec_add(s, x1), x2) == spec_add(s, x2),
        spec_add(spec_add(s, x1), x2).len() == spec_add(s, x1).len(),
{
    let k = sub_key(x1);
    lemma_find_key(s, k);
    let i = find_key(s, k);
    if i >= 0 {
        let s1 = s.update(i, x1);
        lemma_find_key(s1, k);
        let j = find_key(s1, k);
        if 0 <= j < i {
            assert(s1[j] == s[j]);
            assert(false);
        }
        if j > i {
            assert(sub_key(s1[i]) != k);
            assert(false);
        }
        if j == -1 {
            assert(sub_key(s1[i]) != k);
            assert(false);
        }
        assert(j == i);
        assert(s1.update(i, x2) =~= s.update(i, x2));
    } else {
        let s1 = s.push(x1);
        lemma_find_key(s1, k);
        let j = find_key(s1, k);
        if 0 <= j < s.len() {
            assert(s1[j] == s[j]);
            assert(false);
        }
        if j == -1 {
            assert(sub_key(s1[s.len() as int]) != k);
            assert(false);
        }
        assert(j == s.len());
        assert(s1.update(s.len() as int, x2) =~= s.push(x2));
    }
}

} // verus!
