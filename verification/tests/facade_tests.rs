use broker_core::entry::Entry;
use broker_core::session::{ClientInfo, Session};
use broker_core::shared::Shared;
use broker_core::types::{Id, QoS, Tx};

fn id(node: u64, client: &str) -> Id {
    Id::new(node, client.to_string())
}

fn online_entry(i: Id) -> Entry {
    let mut e = Entry::new(i.clone());
    let lock = e.try_lock().unwrap();
    e.set(&lock, Session::new(i.clone()), Tx::new(4), ClientInfo {
        id: i,
        protocol: 4,
        connected_at: 0,
    })
        .unwrap();
    e.unlock(lock).unwrap();
    e
}

fn sample_shared() -> Shared {
    let mut s = Shared::new(1);
    s.add_entry(online_entry(id(1, "on1"))).unwrap();
    s.add_entry(online_entry(id(1, "on2"))).unwrap();
    s.add_entry(Entry::new(id(1, "empty"))).unwrap();
    s
}

#[test]
fn duplicate_identities_are_refused() {
    let mut s = sample_shared();
    assert!(s.add_entry(Entry::new(id(1, "on1"))).is_err());
    assert!(s.add_entry(Entry::new(id(1, "fresh"))).is_ok());
}

#[test]
fn lookups_report_absence_as_a_value() {
    let s = sample_shared();
    assert!(s.entry(&id(1, "on1")).is_some());
    assert!(s.entry(&id(1, "ghost")).is_none());
    assert_eq!(s.id("on1").unwrap().node_id, 1);
    assert!(s.id("empty").is_none());
    assert!(s.exist("on2"));
    assert!(!s.exist("empty"));
    assert!(!s.exist("ghost"));
}

#[test]
fn session_status_classifies_online_offline_absent() {
    let s = sample_shared();
    let st = s.session_status("on1").unwrap();
    assert_eq!(st.id.client_id, "on1");
    assert!(st.online);
    assert!(s.session_status("empty").is_none());
    assert!(s.session_status("ghost").is_none());
}

#[test]
fn connection_and_session_counts() {
    let s = sample_shared();
    assert_eq!(s.clients(), 2);
    assert_eq!(s.sessions(), 2);
    assert_eq!(s.all_clients(), 2);
    assert_eq!(s.all_sessions(), 2);
}

#[test]
fn subscription_counts_delegate_to_the_router() {
    let mut s = sample_shared();
    s.router.add("a", id(1, "on1"), QoS::AtMostOnce, None).unwrap();
    s.router.add("b", id(1, "on2"), QoS::AtMostOnce, Some("g".to_string())).unwrap();
    assert_eq!(s.subscriptions(), 2);
    assert_eq!(s.subscriptions_shared(), 1);
}

#[test]
fn iter_walks_every_slot_in_order() {
    let s = sample_shared();
    let ids: Vec<String> = s.iter().into_iter().map(|i| i.client_id).collect();
    assert_eq!(ids, vec!["on1".to_string(), "on2".to_string(), "empty".to_string()]);
}

#[test]
fn random_session_samples_an_online_pair() {
    let s = sample_shared();
    for _ in 0..10 {
        let (session, client) = s.random_session().expect("two sessions are online");
        assert!(session.id.client_id.starts_with("on"));
        assert_eq!(session.id.client_id, client.id.client_id);
    }
    let empty = Shared::new(1);
    assert!(empty.random_session().is_none());
}

#[test]
fn node_name_renders_ordinal_and_loopback() {
    let s = Shared::new(1);
    assert_eq!(s.node_name(3), "3@127.0.0.1");
    assert_eq!(s.node_name(42), "42@127.0.0.1");
    assert_eq!(s.node_name(0), "0@127.0.0.1");
}

#[test]
fn a_single_node_has_no_peers() {
    let s = Shared::new(1);
    assert!(s.get_grpc_clients().is_empty());
}
