use std::path::PathBuf;
use specmut::runner::{find_json_start, LeanRunner, DEFAULT_TIMEOUT_SECS};

#[test]
fn test_runner_default_creation() {
    let r = LeanRunner::default();
    assert_eq!(r.lean_path, PathBuf::from("lean"));
    assert_eq!(r.timeout_secs, DEFAULT_TIMEOUT_SECS);
}

#[test]
fn test_find_json_start_with_prefix() {
    let s = "warning: foo\n  warning: bar\n{\"a\": 1}";
    let parsed = find_json_start(s).expect("found");
    assert!(parsed.starts_with('{'));
    assert_eq!(parsed, "{\"a\": 1}");
}

#[test]
fn test_find_json_start_none() {
    assert!(find_json_start("no json here").is_none());
}

#[test]
fn runner_new_keeps_settings() {
    let r = LeanRunner::new(PathBuf::from("/opt/lean"), 5);
    assert_eq!(r.lean_path, PathBuf::from("/opt/lean"));
    assert_eq!(r.timeout_secs, 5);
}

#[test]
fn default_runner_uses_lean_on_path() {
    let r = LeanRunner::default_runner();
    assert_eq!(r.lean_path, PathBuf::from("lean"));
    assert_eq!(r.timeout_secs, DEFAULT_TIMEOUT_SECS);
}
