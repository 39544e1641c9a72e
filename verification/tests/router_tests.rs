use broker_core::router::{ConnSet, Router};
use broker_core::types::{Id, QoS};

fn id(node: u64, client: &str) -> Id {
    Id::new(node, client.to_string())
}

#[test]
fn add_is_idempotent_and_keeps_latest_qos() {
    let mut r = Router::new();
    r.add("a/b", id(1, "c1"), QoS::AtMostOnce, None).unwrap();
    r.add("a/b", id(1, "c1"), QoS::ExactlyOnce, None).unwrap();
    assert_eq!(r.relations(), 1);
    let rels = r.list_relations(10);
    assert_eq!(rels.len(), 1);
    assert_eq!(rels[0].qos, QoS::ExactlyOnce);
}

#[test]
fn remove_reports_whether_a_registration_existed() {
    let mut r = Router::new();
    r.add("a/b", id(1, "c1"), QoS::AtMostOnce, None).unwrap();
    assert_eq!(r.remove("a/b", id(1, "c1")).unwrap(), true);
    assert_eq!(r.remove("a/b", id(1, "c1")).unwrap(), false);
    assert_eq!(r.remove("x/y", id(1, "c1")).unwrap(), false);
    assert_eq!(r.relations(), 0);
}

#[test]
fn invalid_filters_are_rejected() {
    let mut r = Router::new();
    assert!(r.add("a/#/b", id(1, "c1"), QoS::AtMostOnce, None).is_err());
    assert!(r.add("a/b+", id(1, "c1"), QoS::AtMostOnce, None).is_err());
    assert!(r.add("a/+/b", id(1, "c1"), QoS::AtMostOnce, None).is_ok());
    assert_eq!(r.relations(), 1);
}

#[test]
fn matches_groups_by_node_and_keeps_separate_filters() {
    let mut r = Router::new();
    r.add("a/+", id(1, "c1"), QoS::AtMostOnce, None).unwrap();
    r.add("a/#", id(1, "c1"), QoS::AtLeastOnce, None).unwrap();
    r.add("a/b", id(2, "c2"), QoS::AtMostOnce, None).unwrap();
    r.add("other", id(3, "c3"), QoS::AtMostOnce, None).unwrap();
    let conn = ConnSet::new();
    let m = r.matches("a/b", &conn).unwrap();
    let n1 = m.relations_of(1);
    assert_eq!(n1.len(), 2);
    let n2 = m.relations_of(2);
    assert_eq!(n2.len(), 1);
    let n3 = m.relations_of(3);
    assert_eq!(n3.len(), 0);
}

#[test]
fn shared_relations_carry_online_hints() {
    let mut r = Router::new();
    r.add("a/b", id(1, "on"), QoS::AtMostOnce, Some("g".to_string())).unwrap();
    r.add("a/b", id(1, "off"), QoS::AtMostOnce, Some("g".to_string())).unwrap();
    let mut conn = ConnSet::new();
    conn.push(id(1, "on"));
    let m = r.matches("a/b", &conn).unwrap();
    let rels = m.relations_of(1);
    assert_eq!(rels.len(), 2);
    for (_f, c, _q, sh) in rels {
        let (g, online) = sh.expect("shared relation must carry its group");
        assert_eq!(g, "g");
        assert_eq!(online, c == "on");
    }
}

#[test]
fn topic_and_relation_counts_track_peaks() {
    let mut r = Router::new();
    r.add("a", id(1, "c1"), QoS::AtMostOnce, None).unwrap();
    r.add("a", id(1, "c2"), QoS::AtMostOnce, None).unwrap();
    r.add("b", id(1, "c1"), QoS::AtMostOnce, None).unwrap();
    assert_eq!(r.topics(), 2);
    assert_eq!(r.relations(), 3);
    assert_eq!(r.topics_max(), 2);
    assert_eq!(r.relations_max(), 3);
    r.remove("a", id(1, "c1")).unwrap();
    r.remove("a", id(1, "c2")).unwrap();
    assert_eq!(r.topics(), 1);
    assert_eq!(r.relations(), 1);
    assert_eq!(r.topics_max(), 2);
    assert_eq!(r.relations_max(), 3);
}

#[test]
fn listings_are_deterministic_for_a_given_state() {
    let mut r = Router::new();
    r.add("b", id(1, "c1"), QoS::AtMostOnce, None).unwrap();
    r.add("a", id(1, "c1"), QoS::AtMostOnce, None).unwrap();
    r.add("b", id(1, "c2"), QoS::AtMostOnce, None).unwrap();
    let t1 = r.list_topics(10);
    let t2 = r.list_topics(10);
    assert_eq!(t1, t2);
    assert_eq!(t1, vec!["b".to_string(), "a".to_string()]);
    assert_eq!(r.list_topics(1), vec!["b".to_string()]);
    let rels1: Vec<(String, String)> = r
        .list_relations(10)
        .into_iter()
        .map(|x| (x.topic_filter, x.client_id))
        .collect();
    let rels2: Vec<(String, String)> = r
        .list_relations(10)
        .into_iter()
        .map(|x| (x.topic_filter, x.client_id))
        .collect();
    assert_eq!(rels1, rels2);
    assert_eq!(rels1.len(), 3);
    assert_eq!(r.list_relations(2).len(), 2);
}

#[test]
fn is_online_consults_the_connected_set() {
    let r = Router::new();
    let mut conn = ConnSet::new();
    conn.push(id(1, "c1"));
    assert!(r.is_online(&conn, 1, "c1"));
    assert!(!r.is_online(&conn, 2, "c1"));
    assert!(!r.is_online(&conn, 1, "c2"));
}

#[test]
fn shared_subscription_count_is_tracked() {
    let mut r = Router::new();
    r.add("a", id(1, "c1"), QoS::AtMostOnce, Some("g".to_string())).unwrap();
    r.add("b", id(1, "c1"), QoS::AtMostOnce, None).unwrap();
    assert_eq!(r.relations_shared(), 1);
}
