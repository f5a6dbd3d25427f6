use wasteday::{RuleBinding, RuleLabel, Session, Store};

fn sess(id: &str, start: &str, duration: i64, key: &str) -> Session {
    Session {
        id: id.to_string(),
        start_time: start.to_string(),
        duration_seconds: duration,
        session_key: key.to_string(),
    }
}

fn rule(kind: &str, identifier: &str, label: RuleLabel, is_active: bool) -> RuleBinding {
    RuleBinding {
        kind: kind.to_string(),
        identifier: identifier.to_string(),
        label,
        is_active,
    }
}

#[test]
fn upsert_same_id_twice_keeps_one_row_with_latest_fields() {
    let mut store = Store::new();
    store.upsert_session_at(
        sess("s-1", "2024-01-01T08:00:00.000Z", 60, "chrome"),
        "2024-05-01T00:00:00.000Z".to_string(),
    );
    let first = store.get_session_row("s-1").unwrap();
    assert_eq!(first.updated_at, "2024-05-01T00:00:00.000Z");
    store.upsert_session_at(
        sess("s-1", "2024-01-01T09:30:00.000Z", 300, "firefox"),
        "2024-05-01T00:00:01.000Z".to_string(),
    );
    let all = store.query_sessions(None, None);
    assert_eq!(all.len(), 1);
    assert_eq!(all[0].id, "s-1");
    assert_eq!(all[0].start_time, "2024-01-01T09:30:00.000Z");
    assert_eq!(all[0].duration_seconds, 300);
    assert_eq!(all[0].session_key, "firefox");
    let second = store.get_session_row("s-1").unwrap();
    assert!(second.updated_at > first.updated_at);
    assert_eq!(second.created_at, first.created_at);
}

#[test]
fn upsert_is_idempotent() {
    let mut store = Store::new();
    let stamp = "2024-05-01T00:00:00.000Z".to_string();
    store.upsert_session_at(sess("a", "2024-01-01T00:00:00.000Z", 10, "k"), stamp.clone());
    store.upsert_session_at(sess("a", "2024-01-01T00:00:00.000Z", 10, "k"), stamp.clone());
    store.upsert_session_at(sess("a", "2024-01-01T00:00:00.000Z", 10, "k"), stamp);
    let all = store.query_sessions(None, None);
    assert_eq!(all.len(), 1);
    assert_eq!(all[0].duration_seconds, 10);
}

#[test]
fn delete_missing_session_is_a_no_op() {
    let mut store = Store::new();
    store.delete_session("ghost");
    assert_eq!(store.query_sessions(None, None).len(), 0);
    store.upsert_session_at(
        sess("real", "2024-01-01T00:00:00.000Z", 5, "k"),
        "2024-05-01T00:00:00.000Z".to_string(),
    );
    store.delete_session("ghost");
    let all = store.query_sessions(None, None);
    assert_eq!(all.len(), 1);
    assert_eq!(all[0].id, "real");
}

#[test]
fn delete_present_session_removes_it() {
    let mut store = Store::new();
    store.upsert_session_at(
        sess("a", "2024-01-01T00:00:00.000Z", 5, "k"),
        "2024-05-01T00:00:00.000Z".to_string(),
    );
    store.upsert_session_at(
        sess("b", "2024-01-02T00:00:00.000Z", 6, "k"),
        "2024-05-01T00:00:00.000Z".to_string(),
    );
    store.delete_session("a");
    let all = store.query_sessions(None, None);
    assert_eq!(all.len(), 1);
    assert_eq!(all[0].id, "b");
    assert!(store.get_session_row("a").is_none());
}

#[test]
fn query_returns_half_open_interval_ascending() {
    let mut store = Store::new();
    let stamp = "2024-05-01T00:00:00.000Z".to_string();
    // inserted out of order on purpose
    store.upsert_session_at(sess("c", "2024-01-02T23:59:59Z", 30, "k"), stamp.clone());
    store.upsert_session_at(sess("a", "2024-01-01T23:59:59Z", 10, "k"), stamp.clone());
    store.upsert_session_at(sess("b", "2024-01-02T12:00:00Z", 20, "k"), stamp);
    let hits = store.query_sessions(Some("2024-01-02T00:00:00Z"), Some("2024-01-03T00:00:00Z"));
    assert_eq!(hits.len(), 2);
    assert_eq!(hits[0].id, "b");
    assert_eq!(hits[1].id, "c");
}

#[test]
fn query_bounds_compose_independently() {
    let mut store = Store::new();
    let stamp = "2024-05-01T00:00:00.000Z".to_string();
    store.upsert_session_at(sess("a", "2024-01-01T00:00:00Z", 1, "k"), stamp.clone());
    store.upsert_session_at(sess("b", "2024-01-02T00:00:00Z", 2, "k"), stamp.clone());
    store.upsert_session_at(sess("c", "2024-01-03T00:00:00Z", 3, "k"), stamp);
    let since_only = store.query_sessions(Some("2024-01-02T00:00:00Z"), None);
    assert_eq!(since_only.len(), 2);
    assert_eq!(since_only[0].id, "b");
    assert_eq!(since_only[1].id, "c");
    let until_only = store.query_sessions(None, Some("2024-01-02T00:00:00Z"));
    assert_eq!(until_only.len(), 1);
    assert_eq!(until_only[0].id, "a");
    let none = store.query_sessions(Some("2024-02-01T00:00:00Z"), None);
    assert_eq!(none.len(), 0);
}

#[test]
fn rule_upsert_with_same_key_replaces_label() {
    let mut store = Store::new();
    store
        .upsert_classification_rule_at(
            rule("process", "chrome.exe", RuleLabel::Waste, true),
            "2024-05-01T00:00:00.000Z".to_string(),
        )
        .unwrap();
    store
        .upsert_classification_rule_at(
            rule("process", "chrome.exe", RuleLabel::Productive, true),
            "2024-05-01T00:00:01.000Z".to_string(),
        )
        .unwrap();
    let rules = store.list_classification_rules();
    assert_eq!(rules.len(), 1);
    assert_eq!(rules[0].kind, "process");
    assert_eq!(rules[0].identifier, "chrome.exe");
    assert_eq!(rules[0].label, RuleLabel::Productive);
    assert!(rules[0].is_active);
}

#[test]
fn rule_upsert_keeps_id_and_can_deactivate() {
    let mut store = Store::new();
    let stamp = "2024-05-01T00:00:00.000Z".to_string();
    store
        .upsert_classification_rule_at(rule("process", "slack.exe", RuleLabel::Waste, true), stamp.clone())
        .unwrap();
    let id_before = store.list_classification_rules()[0].id;
    store
        .upsert_classification_rule_at(rule("process", "slack.exe", RuleLabel::Waste, false), stamp)
        .unwrap();
    let rules = store.list_classification_rules();
    assert_eq!(rules.len(), 1);
    assert_eq!(rules[0].id, id_before);
    assert!(!rules[0].is_active);
}

#[test]
fn rules_are_listed_by_kind_then_identifier() {
    let mut store = Store::new();
    let stamp = "2024-05-01T00:00:00.000Z".to_string();
    store
        .upsert_classification_rule_at(rule("window", "b", RuleLabel::Waste, true), stamp.clone())
        .unwrap();
    store
        .upsert_classification_rule_at(rule("process", "z", RuleLabel::Waste, true), stamp.clone())
        .unwrap();
    store
        .upsert_classification_rule_at(rule("process", "a", RuleLabel::Productive, true), stamp)
        .unwrap();
    let rules = store.list_classification_rules();
    assert_eq!(rules.len(), 3);
    assert_eq!((rules[0].kind.as_str(), rules[0].identifier.as_str()), ("process", "a"));
    assert_eq!((rules[1].kind.as_str(), rules[1].identifier.as_str()), ("process", "z"));
    assert_eq!((rules[2].kind.as_str(), rules[2].identifier.as_str()), ("window", "b"));
    // ids follow insertion order, not listing order
    assert_eq!(rules[0].id, 3);
    assert_eq!(rules[1].id, 2);
    assert_eq!(rules[2].id, 1);
}

#[test]
fn delete_missing_rule_is_a_no_op() {
    let mut store = Store::new();
    store
        .upsert_classification_rule_at(
            rule("process", "chrome.exe", RuleLabel::Waste, true),
            "2024-05-01T00:00:00.000Z".to_string(),
        )
        .unwrap();
    store.delete_classification_rule(42);
    assert_eq!(store.list_classification_rules().len(), 1);
}

#[test]
fn delete_present_rule_removes_it() {
    let mut store = Store::new();
    let stamp = "2024-05-01T00:00:00.000Z".to_string();
    store
        .upsert_classification_rule_at(rule("process", "a", RuleLabel::Waste, true), stamp.clone())
        .unwrap();
    store
        .upsert_classification_rule_at(rule("process", "b", RuleLabel::Waste, true), stamp)
        .unwrap();
    let id = store.list_classification_rules()[0].id;
    store.delete_classification_rule(id);
    let rules = store.list_classification_rules();
    assert_eq!(rules.len(), 1);
    assert!(rules[0].id != id);
}

#[test]
fn settings_point_lookup_and_overwrite() {
    let mut store = Store::new();
    assert!(store.get_setting("theme").is_none());
    store.set_setting_at(
        "theme".to_string(),
        "dark".to_string(),
        "2024-05-01T00:00:00.000Z".to_string(),
    );
    assert_eq!(store.get_setting("theme").unwrap(), "dark");
    store.set_setting_at(
        "theme".to_string(),
        "light".to_string(),
        "2024-05-01T00:00:01.000Z".to_string(),
    );
    assert_eq!(store.get_setting("theme").unwrap(), "light");
    assert!(store.get_setting("other").is_none());
}

#[test]
fn clock_stamped_operations_store_the_given_record() {
    let mut store = Store::new();
    store.upsert_session(sess("s", "2024-01-01T00:00:00Z", 12, "k"));
    let all = store.query_sessions(None, None);
    assert_eq!(all.len(), 1);
    assert_eq!(all[0].duration_seconds, 12);
    store.set_setting("k".to_string(), "v".to_string());
    assert_eq!(store.get_setting("k").unwrap(), "v");
    store
        .upsert_classification_rule(rule("process", "x", RuleLabel::Waste, true))
        .unwrap();
    assert_eq!(store.list_classification_rules().len(), 1);
    // the wall-clock stamp is a fresh ISO-8601 UTC string, not an echo of
    // any argument
    let row = store.get_session_row("s").unwrap();
    assert!(row.updated_at.starts_with("2"));
    assert!(row.updated_at.ends_with("Z"));
    assert!(row.updated_at != "2024-01-01T00:00:00Z");
}
