use broker_core::entry::Entry;
use broker_core::session::{ClientInfo, Session};
use broker_core::shared::Shared;
use broker_core::types::{Id, Message, Publish, QoS, Reason, Tx};

fn id(node: u64, client: &str) -> Id {
    Id::new(node, client.to_string())
}

fn online_entry(i: Id, capacity: usize) -> Entry {
    let mut e = Entry::new(i.clone());
    let lock = e.try_lock().unwrap();
    e.set(&lock, Session::new(i.clone()), Tx::new(capacity), ClientInfo {
        id: i,
        protocol: 5,
        connected_at: 0,
    })
        .unwrap();
    e.unlock(lock).unwrap();
    e
}

fn publish(topic: &str, payload: &[u8]) -> Publish {
    Publish { topic: topic.to_string(), payload: payload.to_vec(), qos: QoS::AtMostOnce, retain: false }
}

fn queue_len(shared: &Shared, i: &Id) -> usize {
    shared.entry(i).unwrap().tx().unwrap().queue.len()
}

#[test]
fn single_node_forwards_delivers_to_every_local_match() {
    let mut s = Shared::new(1);
    for c in ["c1", "c2", "c3"] {
        s.add_entry(online_entry(id(1, c), 8)).unwrap();
        s.router.add("a/+", id(1, c), QoS::AtMostOnce, None).unwrap();
    }
    s.forwards(id(1, "sender"), publish("a/b", b"m")).expect("all three are local and online");
    for c in ["c1", "c2", "c3"] {
        assert_eq!(queue_len(&s, &id(1, c)), 1);
    }
}

#[test]
fn remote_matches_come_back_as_unresolved_entries() {
    let mut s = Shared::new(1);
    for c in ["c1", "c2"] {
        s.add_entry(online_entry(id(1, c), 8)).unwrap();
        s.router.add("a/+", id(1, c), QoS::AtMostOnce, None).unwrap();
    }
    s.router.add("a/+", id(2, "rc"), QoS::AtMostOnce, None).unwrap();
    let errs = s.forwards(id(1, "sender"), publish("a/b", b"m")).unwrap_err();
    assert_eq!(errs.len(), 1);
    let (to, from, p, reason) = &errs[0];
    assert_eq!(to.node_id, 2);
    assert_eq!(to.client_id, "rc");
    assert_eq!(from.client_id, "sender");
    assert_eq!(p.payload, b"m");
    assert_eq!(*reason, Reason::Forward);
    for c in ["c1", "c2"] {
        assert_eq!(queue_len(&s, &id(1, c)), 1);
    }
}

#[test]
fn forwards_reports_local_failures_as_data() {
    let mut s = Shared::new(1);
    s.add_entry(online_entry(id(1, "full"), 0)).unwrap();
    s.router.add("t", id(1, "full"), QoS::AtMostOnce, None).unwrap();
    s.router.add("t", id(1, "absent"), QoS::AtMostOnce, None).unwrap();
    let errs = s.forwards(id(1, "sender"), publish("t", b"m")).unwrap_err();
    assert_eq!(errs.len(), 2);
    for (to, _, _, reason) in &errs {
        assert_eq!(to.node_id, 1);
        match to.client_id.as_str() {
            "full" => assert_eq!(*reason, Reason::MessageQueueFull),
            "absent" => assert_eq!(*reason, Reason::SessionOffline),
            other => panic!("unexpected recipient {other}"),
        }
    }
}

#[test]
fn shared_group_gets_exactly_one_delivery_preferring_online() {
    let mut s = Shared::new(1);
    s.add_entry(online_entry(id(1, "on"), 8)).unwrap();
    s.add_entry(Entry::new(id(1, "off"))).unwrap();
    s.router.add("t", id(1, "on"), QoS::AtMostOnce, Some("g".to_string())).unwrap();
    s.router.add("t", id(1, "off"), QoS::AtMostOnce, Some("g".to_string())).unwrap();
    for round in 0..5 {
        s.forwards(id(1, "sender"), publish("t", b"m")).expect("the online member absorbs it");
        assert_eq!(queue_len(&s, &id(1, "on")), round + 1);
    }
}

#[test]
fn forwards_and_get_shareds_also_returns_the_relation_map() {
    let mut s = Shared::new(1);
    s.add_entry(online_entry(id(1, "c1"), 8)).unwrap();
    s.router.add("t", id(1, "c1"), QoS::AtMostOnce, None).unwrap();
    let m = s.forwards_and_get_shareds(id(1, "sender"), publish("t", b"m")).unwrap();
    assert_eq!(m.relations_of(1).len(), 1);
    assert_eq!(queue_len(&s, &id(1, "c1")), 1);
}

#[test]
fn forwards_to_skips_the_router_lookup() {
    let mut s = Shared::new(1);
    s.add_entry(online_entry(id(1, "c1"), 8)).unwrap();
    let relations = vec![("t".to_string(), "c1".to_string(), QoS::AtMostOnce, None)];
    s.forwards_to(id(1, "sender"), &publish("t", b"m"), relations).unwrap();
    assert_eq!(queue_len(&s, &id(1, "c1")), 1);
    let relations = vec![("t".to_string(), "ghost".to_string(), QoS::AtMostOnce, None)];
    let errs = s.forwards_to(id(1, "sender"), &publish("t", b"m"), relations).unwrap_err();
    assert_eq!(errs.len(), 1);
    assert_eq!(errs[0].3, Reason::SessionOffline);
}

#[test]
fn delivered_messages_carry_sender_and_payload() {
    let mut s = Shared::new(1);
    s.add_entry(online_entry(id(1, "c1"), 8)).unwrap();
    s.router.add("t", id(1, "c1"), QoS::AtMostOnce, None).unwrap();
    s.forwards(id(7, "sender"), publish("t", b"payload")).unwrap();
    let tx = s.entry(&id(1, "c1")).unwrap().tx().unwrap();
    match &tx.queue[0] {
        Message::Forward(from, p) => {
            assert_eq!(from.node_id, 7);
            assert_eq!(from.client_id, "sender");
            assert_eq!(p.topic, "t");
            assert_eq!(p.payload, b"payload");
        },
        Message::Kick => panic!("expected a forwarded message"),
    }
}

#[test]
fn a_publish_with_no_matches_succeeds_vacuously() {
    let mut s = Shared::new(1);
    s.forwards(id(1, "sender"), publish("t", b"m")).unwrap();
    let m = s.forwards_and_get_shareds(id(1, "sender"), publish("t", b"m")).unwrap();
    assert_eq!(m.relations_of(1).len(), 0);
}

#[test]
fn a_kicked_identity_stops_receiving_shared_deliveries_iff_cleared() {
    for clear in [true, false] {
        let mut s = Shared::new(1);
        s.add_entry(online_entry(id(1, "stay"), 16)).unwrap();
        s.add_entry(online_entry(id(1, "kicked"), 16)).unwrap();
        s.router.add("t", id(1, "stay"), QoS::AtMostOnce, Some("g".to_string())).unwrap();
        s.router.add("t", id(1, "kicked"), QoS::AtMostOnce, Some("g".to_string())).unwrap();
        assert!(s.router.remove("t", id(1, "kicked")).unwrap() || !clear);
        if !clear {
            s.router.add("t", id(1, "kicked"), QoS::AtMostOnce, Some("g".to_string())).unwrap();
        }
        let mut delivered_kicked = 0;
        for _ in 0..10 {
            s.forwards(id(1, "sender"), publish("t", b"m")).unwrap();
            delivered_kicked = queue_len(&s, &id(1, "kicked"));
        }
        if clear {
            assert_eq!(delivered_kicked, 0);
            assert_eq!(queue_len(&s, &id(1, "stay")), 10);
        } else {
            assert_eq!(delivered_kicked + queue_len(&s, &id(1, "stay")), 10);
        }
    }
}
