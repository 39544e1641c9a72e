use broker_core::limiter::LimiterManager;
use broker_core::retain::{Retain, RetainStorage};
use broker_core::types::{Id, Listener, Publish, QoS};

fn retain(payload: &[u8]) -> Retain {
    Retain {
        from: Id::new(1, "p".to_string()),
        publish: Publish {
            topic: "t".to_string(),
            payload: payload.to_vec(),
            qos: QoS::AtMostOnce,
            retain: true,
        },
    }
}

#[test]
fn retained_messages_replace_by_topic_and_match_by_filter() {
    let mut st = RetainStorage::new();
    st.set("a/b", retain(b"one")).unwrap();
    st.set("a/c", retain(b"two")).unwrap();
    st.set("a/b", retain(b"three")).unwrap();
    assert_eq!(st.count(), 2);
    assert_eq!(st.max(), 2);

    let got = st.get("a/+").unwrap();
    assert_eq!(got.len(), 2);
    assert_eq!(got[0].0, "a/b");
    assert_eq!(got[0].1.publish.payload, b"three");
    assert_eq!(got[1].0, "a/c");

    let one = st.get("a/b").unwrap();
    assert_eq!(one.len(), 1);
    assert!(st.get("x/#").unwrap().is_empty());
}

#[test]
fn wildcard_topics_cannot_be_retained() {
    let mut st = RetainStorage::new();
    assert!(st.set("a/+", retain(b"x")).is_err());
    assert!(st.set("a/#", retain(b"x")).is_err());
    assert_eq!(st.count(), 0);
}

#[test]
fn retain_support_follows_the_listener_flag() {
    let st = RetainStorage::new();
    let mut cfg = Listener { shared_subscription: true, retain_available: true, max_handshakings: 1 };
    assert!(st.is_supported(&cfg));
    cfg.retain_available = false;
    assert!(!st.is_supported(&cfg));
}

#[test]
fn the_limiter_admits_below_the_listener_limit() {
    let mgr = LimiterManager::new();
    let cfg = Listener { shared_subscription: false, retain_available: false, max_handshakings: 2 };
    let limiter = mgr.get("external".to_string(), cfg).unwrap();
    assert!(limiter.acquire(0).is_ok());
    assert!(limiter.acquire(1).is_ok());
    assert!(limiter.acquire(2).is_err());
    assert!(limiter.acquire(3).is_err());
}

#[test]
fn a_negative_limit_admits_everything() {
    let mgr = LimiterManager::new();
    let cfg = Listener { shared_subscription: false, retain_available: false, max_handshakings: -1 };
    let limiter = mgr.get("internal".to_string(), cfg).unwrap();
    assert!(limiter.acquire(1000).is_ok());
}
