use cdi_engine::allowance::TestAllowance;
use cdi_engine::config::LogLevel;
use cdi_engine::model::{system_time_t, DiscreteValue};
use cdi_engine::names::script_name;
use std::str::FromStr;

#[test]
fn script_name_drops_directory_and_extension() {
    assert_eq!(script_name("scripts/anemia.lua"), "anemia");
    assert_eq!(script_name("anemia"), "anemia");
    assert_eq!(script_name("/a/b/c.lua"), "c");
    assert_eq!(script_name("plain.lua"), "plain");
    assert_eq!(script_name("rules/a.b.lua"), "a.b");
    assert_eq!(script_name("rules/.hidden"), ".hidden");
    assert_eq!(script_name("x.y/z"), "z");
    assert_eq!(script_name("dir/"), "");
    assert_eq!(script_name(""), "");
}

#[test]
fn log_levels_parse() {
    assert_eq!(LogLevel::parse("trace").ok(), Some(LogLevel::Trace));
    assert_eq!(LogLevel::parse("debug").ok(), Some(LogLevel::Debug));
    assert_eq!(LogLevel::parse("info").ok(), Some(LogLevel::Info));
    assert_eq!(LogLevel::parse("warn").ok(), Some(LogLevel::Warn));
    assert_eq!(LogLevel::from_str("error").ok(), Some(LogLevel::Error));
    assert_eq!(LogLevel::default(), LogLevel::Info);
    let err = LogLevel::parse("loud").err().unwrap();
    assert_eq!(err.0, "loud");
    assert_eq!(err.message(), "Invalid log level: loud");
}

#[test]
fn seconds_since_epoch() {
    assert_eq!(system_time_t(0), 0);
    assert_eq!(system_time_t(1_999), 1);
    assert_eq!(system_time_t(1_700_000_000_123), 1_700_000_000);
}

#[test]
fn new_discrete_value_has_no_result() {
    let v = DiscreteValue::new("id-1", "Hemoglobin".to_string());
    assert_eq!(v.unique_id, "id-1");
    assert_eq!(v.name.as_deref(), Some("Hemoglobin"));
    assert!(v.result.is_none());
    assert!(v.result_date.is_none());
}

#[test]
fn allowance_selects_tests() {
    let selectors = vec!["anemia.lua".to_string(), "!anemia.lua:bad".to_string(), "sepsis.lua:t1".to_string()];
    let allowance = TestAllowance::new(&selectors);
    assert_eq!(allowance.allowed, vec![
        ("anemia.lua".to_string(), None),
        ("sepsis.lua".to_string(), Some("t1".to_string())),
    ]);
    assert_eq!(allowance.disallowed, vec![("anemia.lua".to_string(), Some("bad".to_string()))]);
    assert!(allowance.valid("anemia.lua", &Some("good".to_string())));
    assert!(!allowance.valid("anemia.lua", &Some("bad".to_string())));
    assert!(!allowance.valid("anemia.lua", &None));
    assert!(allowance.valid("sepsis.lua", &Some("t1".to_string())));
    assert!(!allowance.valid("sepsis.lua", &Some("t2".to_string())));
    assert!(!allowance.valid("other.lua", &None));
}

#[test]
fn empty_allowance_runs_everything() {
    let allowance = TestAllowance::new(&Vec::new());
    assert!(allowance.valid("any.lua", &None));
    let only_excluded = TestAllowance::new(&vec!["!x.lua".to_string()]);
    assert!(only_excluded.valid("y.lua", &None));
    assert!(!only_excluded.valid("x.lua", &Some("t".to_string())));
}
