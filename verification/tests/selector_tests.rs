use broker_core::router::ConnSet;
use broker_core::selector::SharedSubscription;
use broker_core::types::{Id, Listener, QoS};

fn listener(shared: bool, retain: bool) -> Listener {
    Listener { shared_subscription: shared, retain_available: retain, max_handshakings: 100 }
}

#[test]
fn empty_candidate_list_yields_no_winner() {
    let s = SharedSubscription::new();
    let conn = ConnSet::new();
    assert!(s.choice(&conn, &vec![]).is_none());
}

#[test]
fn the_single_online_candidate_always_wins() {
    let s = SharedSubscription::new();
    let conn = ConnSet::new();
    let ncs = vec![
        (1u64, "a".to_string(), QoS::AtMostOnce, Some(false)),
        (1u64, "b".to_string(), QoS::AtMostOnce, Some(true)),
        (1u64, "c".to_string(), QoS::AtMostOnce, Some(false)),
        (2u64, "d".to_string(), QoS::AtMostOnce, Some(false)),
    ];
    for _ in 0..20 {
        let (idx, online) = s.choice(&conn, &ncs).expect("candidates exist");
        assert_eq!(idx, 1);
        assert!(online);
    }
}

#[test]
fn all_offline_candidates_still_get_one_best_effort_winner() {
    let s = SharedSubscription::new();
    let conn = ConnSet::new();
    let ncs = vec![
        (1u64, "a".to_string(), QoS::AtMostOnce, Some(false)),
        (1u64, "b".to_string(), QoS::AtMostOnce, Some(false)),
    ];
    for _ in 0..20 {
        let (idx, online) = s.choice(&conn, &ncs).expect("a non-empty list never yields none");
        assert!(idx < 2);
        assert!(!online);
    }
}

#[test]
fn unknown_hints_are_resolved_against_the_connected_set() {
    let s = SharedSubscription::new();
    let mut conn = ConnSet::new();
    conn.push(Id::new(1, "b".to_string()));
    let ncs = vec![
        (1u64, "a".to_string(), QoS::AtMostOnce, None),
        (1u64, "b".to_string(), QoS::AtMostOnce, None),
    ];
    for _ in 0..20 {
        let (idx, online) = s.choice(&conn, &ncs).unwrap();
        assert_eq!(idx, 1);
        assert!(online);
    }
}

#[test]
fn feature_flags_enable_the_corresponding_work() {
    let s = SharedSubscription::new();
    assert!(s.is_supported(&listener(true, false)));
    assert!(!s.is_supported(&listener(false, true)));
}
