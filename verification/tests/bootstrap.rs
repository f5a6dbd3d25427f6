use wasteday::bootstrap::{bootstrap, is_autostart_invocation, StartupAction};
use wasteday::{RuleLabel, Store};

#[test]
fn first_run_marker_is_written_once() {
    let mut store = Store::new();
    assert!(store.get_setting("has_run_before").is_none());
    // the first run shows the surface even when launched in background mode
    let first = bootstrap(&mut store, true);
    assert_eq!(first, StartupAction::ShowAndFocus);
    assert!(store.get_setting("has_run_before").is_some());
    // a second run on the same store is no longer a first run
    let second = bootstrap(&mut store, true);
    assert_eq!(second, StartupAction::StayHidden);
    let third = bootstrap(&mut store, false);
    assert_eq!(third, StartupAction::ShowAndFocus);
}

#[test]
fn autostart_is_detected_from_arguments_or_environment() {
    let plain = vec!["wasteday.exe".to_string()];
    assert!(!is_autostart_invocation(&plain, false));
    assert!(is_autostart_invocation(&plain, true));
    let marked = vec!["wasteday.exe".to_string(), "--autostart".to_string()];
    assert!(is_autostart_invocation(&marked, false));
    let hidden = vec!["wasteday.exe".to_string(), "--hidden".to_string()];
    assert!(is_autostart_invocation(&hidden, false));
    let embedded = vec!["wasteday.exe".to_string(), "--autostart=1".to_string()];
    assert!(is_autostart_invocation(&embedded, false));
    let empty: Vec<String> = Vec::new();
    assert!(!is_autostart_invocation(&empty, false));
}

#[test]
fn rule_labels_spell_as_the_schema_stores_them() {
    assert_eq!(RuleLabel::Waste.text(), "waste");
    assert_eq!(RuleLabel::Productive.text(), "productive");
}
