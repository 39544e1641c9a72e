use broker_core::entry::Entry;
use broker_core::router::{ConnSet, Router};
use broker_core::session::{ClientInfo, Session, Subscribe, SubscribeReturn, Unsubscribe};
use broker_core::types::{Error, Id, Message, Publish, QoS, Reason, Tx};

fn id(node: u64, client: &str) -> Id {
    Id::new(node, client.to_string())
}

fn publish(topic: &str, payload: &[u8]) -> Publish {
    Publish { topic: topic.to_string(), payload: payload.to_vec(), qos: QoS::AtMostOnce, retain: false }
}

fn client_info(i: Id) -> ClientInfo {
    ClientInfo { id: i, protocol: 5, connected_at: 1000 }
}

#[test]
fn try_lock_is_exclusive_until_unlocked() {
    let mut e = Entry::new(id(1, "c1"));
    let lock = e.try_lock().unwrap();
    assert_eq!(e.try_lock().unwrap_err(), Error::Contention);
    assert_eq!(e.try_lock().unwrap_err(), Error::Contention);
    e.unlock(lock).unwrap();
    let lock2 = e.try_lock().unwrap();
    e.unlock(lock2).unwrap();
}

#[test]
fn set_then_remove_returns_the_installed_triple() {
    let mut e = Entry::new(id(1, "c1"));
    let lock = e.try_lock().unwrap();
    let session = Session::new(id(1, "c1"));
    let tx = Tx::new(8);
    let info = client_info(id(1, "c1"));
    e.set(&lock, session, tx, info).unwrap();
    assert!(e.exist());
    assert!(e.is_connected());
    let (s, t, c) = e.remove(&lock).unwrap().expect("an online slot hands back its triple");
    assert_eq!(s.id.client_id, "c1");
    assert_eq!(t.capacity, 8);
    assert!(!t.closed);
    assert_eq!(t.queue.len(), 0);
    assert_eq!(c.protocol, 5);
    assert_eq!(c.connected_at, 1000);
    assert!(!e.exist());
    assert!(e.session().is_none());
    assert!(e.client().is_none());
    assert!(e.tx().is_none());
}

#[test]
fn mutating_operations_demand_the_lock() {
    let mut e = Entry::new(id(1, "c1"));
    let mut other = Entry::new(id(2, "c2"));
    let wrong = other.try_lock().unwrap();
    assert_eq!(
        e.set(&wrong, Session::new(id(1, "c1")), Tx::new(4), client_info(id(1, "c1"))).unwrap_err(),
        Error::NotOwned
    );
    assert_eq!(e.remove(&wrong).unwrap_err(), Error::NotOwned);
}

#[test]
fn set_refuses_a_foreign_session() {
    let mut e = Entry::new(id(1, "c1"));
    let lock = e.try_lock().unwrap();
    assert_eq!(
        e.set(&lock, Session::new(id(1, "other")), Tx::new(4), client_info(id(1, "c1"))).unwrap_err(),
        Error::IdentityMismatch
    );
}

#[test]
fn kick_clears_subscriptions_only_when_asked() {
    for clear in [true, false] {
        let mut router = Router::new();
        let mut e = Entry::new(id(1, "c1"));
        let lock = e.try_lock().unwrap();
        e.set(&lock, Session::new(id(1, "c1")), Tx::new(4), client_info(id(1, "c1"))).unwrap();
        let sub = Subscribe { topic_filter: "a/+".to_string(), qos: QoS::AtLeastOnce, shared_group: None };
        assert_eq!(e.subscribe(&mut router, &sub).unwrap(), SubscribeReturn::Success(QoS::AtLeastOnce));
        assert_eq!(router.relations(), 1);

        let (info, signalled) = e.kick(&lock, &mut router, clear, false).unwrap().expect("an occupied slot yields a snapshot");
        assert_eq!(info.id.client_id, "c1");
        assert_eq!(info.subscriptions.len(), 1);
        let tx = signalled.expect("an online occupant hands back its signalled channel");
        assert!(matches!(tx.queue.last(), Some(Message::Kick)));
        assert!(!e.exist());

        let m = router.matches("a/b", &ConnSet::new()).unwrap();
        if clear {
            assert_eq!(router.relations(), 0);
            assert_eq!(m.relations_of(1).len(), 0);
        } else {
            assert_eq!(router.relations(), 1);
            assert_eq!(m.relations_of(1).len(), 1);
        }
    }
}

#[test]
fn kick_on_an_empty_slot_returns_none() {
    let mut router = Router::new();
    let mut e = Entry::new(id(1, "c1"));
    let lock = e.try_lock().unwrap();
    assert!(e.kick(&lock, &mut router, true, true).unwrap().is_none());
}

#[test]
fn subscribe_and_unsubscribe_keep_session_and_router_in_step() {
    let mut router = Router::new();
    let mut e = Entry::new(id(1, "c1"));
    let lock = e.try_lock().unwrap();
    e.set(&lock, Session::new(id(1, "c1")), Tx::new(4), client_info(id(1, "c1"))).unwrap();

    let sub = Subscribe { topic_filter: "a/b".to_string(), qos: QoS::AtMostOnce, shared_group: None };
    e.subscribe(&mut router, &sub).unwrap();
    let again = Subscribe { topic_filter: "a/b".to_string(), qos: QoS::ExactlyOnce, shared_group: None };
    e.subscribe(&mut router, &again).unwrap();
    assert_eq!(router.relations(), 1);
    assert_eq!(e.session().unwrap().subscriptions.len(), 1);
    assert_eq!(e.session().unwrap().subscriptions[0].1, QoS::ExactlyOnce);

    let bad = Subscribe { topic_filter: "a/#/b".to_string(), qos: QoS::AtMostOnce, shared_group: None };
    assert_eq!(e.subscribe(&mut router, &bad).unwrap(), SubscribeReturn::Failure);

    assert_eq!(e.unsubscribe(&mut router, &Unsubscribe { topic_filter: "a/b".to_string() }).unwrap(), true);
    assert_eq!(e.unsubscribe(&mut router, &Unsubscribe { topic_filter: "a/b".to_string() }).unwrap(), false);
    assert_eq!(router.relations(), 0);
    assert_eq!(e.session().unwrap().subscriptions.len(), 0);
}

#[test]
fn subscribe_on_an_empty_slot_is_an_error() {
    let mut router = Router::new();
    let mut e = Entry::new(id(1, "c1"));
    let sub = Subscribe { topic_filter: "a".to_string(), qos: QoS::AtMostOnce, shared_group: None };
    assert_eq!(e.subscribe(&mut router, &sub).unwrap_err(), Error::SessionAbsent);
}

#[test]
fn publish_delivers_in_order_and_reports_each_failure() {
    let mut e = Entry::new(id(1, "c1"));
    let p = publish("t", b"m1");
    let (f, p1, reason) = e.publish(id(1, "s"), p).unwrap_err();
    assert_eq!(reason, Reason::SessionOffline);
    assert_eq!(f.client_id, "s");
    assert_eq!(p1.payload, b"m1");

    let lock = e.try_lock().unwrap();
    e.set(&lock, Session::new(id(1, "c1")), Tx::new(2), client_info(id(1, "c1"))).unwrap();
    e.publish(id(1, "s"), publish("t", b"m1")).unwrap();
    e.publish(id(1, "s"), publish("t", b"m2")).unwrap();
    let (_, _, reason) = e.publish(id(1, "s"), publish("t", b"m3")).unwrap_err();
    assert_eq!(reason, Reason::MessageQueueFull);

    let tx = e.tx().unwrap();
    assert_eq!(tx.queue.len(), 2);
    match &tx.queue[0] {
        Message::Forward(_, m) => assert_eq!(m.payload, b"m1"),
        Message::Kick => panic!("expected a forwarded message"),
    }
    match &tx.queue[1] {
        Message::Forward(_, m) => assert_eq!(m.payload, b"m2"),
        Message::Kick => panic!("expected a forwarded message"),
    }

    let (s, mut t, c) = e.remove(&lock).unwrap().unwrap();
    t.closed = true;
    e.set(&lock, s, t, c).unwrap();
    let (_, _, reason) = e.publish(id(1, "s"), publish("t", b"m4")).unwrap_err();
    assert_eq!(reason, Reason::ChannelClosed);
}
