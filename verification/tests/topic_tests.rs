use broker_core::topic::{check_topic, split_levels, topic_matches};

#[test]
fn single_level_wildcard_matches_one_level() {
    assert!(topic_matches("a/+/c", "a/b/c"));
    assert!(!topic_matches("a/+/c", "a/b/b/c"));
}

#[test]
fn multi_level_wildcard_matches_parent_and_below() {
    assert!(topic_matches("a/#", "a"));
    assert!(topic_matches("a/#", "a/b"));
    assert!(topic_matches("a/#", "a/b/c"));
    assert!(!topic_matches("a/#", "b"));
}

#[test]
fn wildcard_filters_do_not_match_system_topics() {
    assert!(!topic_matches("+/sport", "$SYS/sport"));
    assert!(!topic_matches("#", "$SYS/sport"));
    assert!(topic_matches("$SYS/+", "$SYS/sport"));
    assert!(topic_matches("$SYS/#", "$SYS/sport"));
}

#[test]
fn literal_levels_match_only_themselves() {
    assert!(topic_matches("a/b/c", "a/b/c"));
    assert!(!topic_matches("a/b/c", "a/b/d"));
    assert!(!topic_matches("a/b", "a/b/c"));
    assert!(!topic_matches("a/b/c", "a/b"));
}

#[test]
fn empty_levels_are_real_levels() {
    assert!(topic_matches("a//b", "a//b"));
    assert!(!topic_matches("a/b", "a//b"));
    assert!(topic_matches("a/+/b", "a//b"));
}

#[test]
fn split_levels_keeps_order_and_empties() {
    let l = split_levels("a/b/c");
    assert_eq!(l, vec!["a".to_string(), "b".to_string(), "c".to_string()]);
    let e = split_levels("a//b");
    assert_eq!(e, vec!["a".to_string(), "".to_string(), "b".to_string()]);
    assert_eq!(split_levels(""), vec!["".to_string()]);
}

#[test]
fn concrete_topics_hold_no_wildcards() {
    assert!(check_topic("a/b/c"));
    assert!(!check_topic("a/+/c"));
    assert!(!check_topic("a/#"));
}
