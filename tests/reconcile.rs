use cdi_engine::model::{alert_equal, link_equal, CdiAlert, CdiAlertLink};
use cdi_engine::reconcile::{
    alerts_changed, group_by_account, notification_succeeded, notification_url,
    requeue_after_notification, result_fields, should_persist, StoredField,
};

fn link(text: &str, sublinks: Vec<CdiAlertLink>) -> CdiAlertLink {
    CdiAlertLink {
        link_text: text.to_string(),
        document_id: Some("doc".to_string()),
        code: None,
        discrete_value_id: None,
        discrete_value_name: None,
        medication_id: None,
        medication_name: None,
        latest_discrete_value_id: None,
        is_validated: false,
        user_notes: None,
        links: sublinks,
        sequence: 1,
        hidden: false,
    }
}

fn alert(name: &str, passed: bool, nested_text: &str) -> CdiAlert {
    CdiAlert {
        script_name: name.to_string(),
        passed,
        links: vec![link("top", vec![link(nested_text, Vec::new())])],
        validated: false,
        subtitle: Some("Possible anemia".to_string()),
        outcome: None,
        reason: None,
        weight: Some(0.5f64.to_bits()),
        sequence: Some(3),
    }
}

fn stored(name: &str, a: Option<CdiAlert>) -> StoredField {
    StoredField { name: name.to_string(), alert: a }
}

#[test]
fn identical_results_are_not_saved() {
    let alerts = vec![alert("anemia", true, "Hgb 7.1"), alert("sepsis", false, "none")];
    let existing = Some(vec![
        stored("anemia", Some(alert("anemia", true, "Hgb 7.1"))),
        stored("sepsis", Some(alert("sepsis", false, "none"))),
    ]);
    assert!(!alerts_changed(&existing, &alerts));
    assert!(!should_persist(&existing, &alerts, "http://workflow"));
}

#[test]
fn nested_link_difference_is_saved() {
    let alerts = vec![alert("anemia", true, "Hgb 7.1")];
    let existing = Some(vec![stored("anemia", Some(alert("anemia", true, "Hgb 8.0")))]);
    assert!(alerts_changed(&existing, &alerts));
    assert!(should_persist(&existing, &alerts, "http://workflow"));
}

#[test]
fn missing_record_missing_field_or_unreadable_field_is_a_change() {
    let alerts = vec![alert("anemia", true, "x")];
    assert!(alerts_changed(&None, &alerts));
    let other = Some(vec![stored("sepsis", Some(alert("sepsis", true, "x")))]);
    assert!(alerts_changed(&other, &alerts));
    let unreadable = Some(vec![stored("anemia", None)]);
    assert!(alerts_changed(&unreadable, &alerts));
}

#[test]
fn no_target_means_no_save() {
    let alerts = vec![alert("anemia", true, "x")];
    assert!(!should_persist(&None, &alerts, ""));
    assert!(should_persist(&None, &alerts, "http://workflow"));
}

#[test]
fn weight_and_sequence_take_part_in_equality() {
    let a = alert("anemia", true, "x");
    let mut b = alert("anemia", true, "x");
    assert!(alert_equal(&a, &b));
    b.weight = Some(0.75f64.to_bits());
    assert!(!alert_equal(&a, &b));
    let mut c = alert("anemia", true, "x");
    c.sequence = None;
    assert!(!alert_equal(&a, &c));
    let mut d = alert("anemia", true, "x");
    d.passed = false;
    assert!(!alert_equal(&a, &d));
}

#[test]
fn deep_link_equality() {
    let a = link("top", vec![link("mid", vec![link("leaf", Vec::new())])]);
    let b = link("top", vec![link("mid", vec![link("leaf", Vec::new())])]);
    let c = link("top", vec![link("mid", vec![link("other", Vec::new())])]);
    let d = link("top", vec![link("mid", Vec::new())]);
    assert!(link_equal(&a, &b));
    assert!(!link_equal(&a, &c));
    assert!(!link_equal(&a, &d));
}

#[test]
fn record_holds_every_script_that_ran() {
    let alerts = vec![
        alert("anemia", true, "x"),
        alert("sepsis", false, "y"),
        alert("anemia", false, "z"),
    ];
    let fields = result_fields(&alerts);
    assert_eq!(fields, vec![("anemia".to_string(), 2usize), ("sepsis".to_string(), 1usize)]);
}

#[test]
fn failed_notification_requeues_once() {
    let entry = requeue_after_notification("TEST_1", Some(500), 42).unwrap();
    assert_eq!(entry.id, "TEST_1");
    assert_eq!(entry.source, "Requeue");
    assert_eq!(entry.time_queued, 42);
    let unreachable = requeue_after_notification("TEST_1", None, 43).unwrap();
    assert_eq!(unreachable.source, "Requeue");
    assert!(requeue_after_notification("TEST_1", Some(200), 44).is_none());
    assert!(requeue_after_notification("TEST_1", Some(299), 44).is_none());
    assert!(requeue_after_notification("TEST_1", Some(300), 44).is_some());
    assert!(requeue_after_notification("TEST_1", Some(199), 44).is_some());
}

#[test]
fn notification_success_is_a_2xx_status() {
    assert!(notification_succeeded(Some(204)));
    assert!(!notification_succeeded(Some(404)));
    assert!(!notification_succeeded(None));
}

#[test]
fn notification_url_joins_base_and_account() {
    assert_eq!(notification_url("http://host/workflow", "00123"), "http://host/workflow/00123");
}

#[test]
fn failed_script_leaves_only_the_successful_result() {
    let outcomes = vec![
        ("TEST_1".to_string(), None),
        ("TEST_1".to_string(), Some(alert("anemia", true, "x"))),
    ];
    let grouped = group_by_account(outcomes);
    assert_eq!(grouped.entries.len(), 1);
    assert_eq!(grouped.entries[0].0, "TEST_1");
    let alerts = &grouped.entries[0].1;
    assert_eq!(alerts.len(), 1);
    assert!(alerts[0].passed);
    let fields = result_fields(alerts);
    assert_eq!(fields, vec![("anemia".to_string(), 0usize)]);
}

#[test]
fn results_grouped_per_account() {
    let outcomes = vec![
        ("A".to_string(), Some(alert("one", true, "x"))),
        ("B".to_string(), None),
        ("C".to_string(), Some(alert("two", false, "x"))),
        ("A".to_string(), Some(alert("three", true, "x"))),
    ];
    let grouped = group_by_account(outcomes);
    let ids: Vec<&str> = grouped.entries.iter().map(|e| e.0.as_str()).collect();
    assert_eq!(ids, vec!["A", "C"]);
    assert_eq!(grouped.entries[0].1.len(), 2);
    assert_eq!(grouped.entries[0].1[1].script_name, "three");
}
