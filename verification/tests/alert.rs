use std::time::Duration;

use vigild::alert::{
    alert_entries, content_type, default_delivery_age, job_expired, max_attempts, next_send_step, resolve,
    resolved_map, retry_backoff_millis, retry_delay, status_str, unset_env_references, AlertConfig, AlertEntry,
    AlertFormat, AlertSender, CheckStatus, SendOutcome, SendStep, DEFAULT_DELIVERY_QUEUE,
};

fn empty_cfg() -> AlertConfig {
    AlertConfig {
        url: "http://example.com".to_string(),
        format: AlertFormat::Webhook,
        on_check: vec![],
        headers: vec![],
        labels: vec![],
        send_info_fields: vec![],
        tls_insecure: false,
        tls_ca: None,
        proxy: None,
        proxy_ca: None,
        no_proxy: None,
        retry_attempts: None,
        retry_backoff: vec![],
        body_template: None,
    }
}

fn make_sender(check: &str) -> AlertSender {
    let mut cfg = empty_cfg();
    cfg.on_check = vec![check.to_owned()];
    let mut sender = AlertSender::new();
    sender.update_alerts(vec![AlertEntry { name: check.to_owned(), config: cfg }]);
    sender
}

#[test]
fn default_delivery_age_is_60s() {
    assert_eq!(default_delivery_age().as_secs(), 60);
}

#[test]
fn first_up_suppressed() {
    let mut s = make_sender("web");
    let fired = s.handle_check_event("web", CheckStatus::Up);
    assert!(fired.is_empty());
    assert_eq!(s.check_status("web"), Some(CheckStatus::Up));
}

#[test]
fn first_down_is_not_suppressed() {
    let mut s = make_sender("web");
    let fired = s.handle_check_event("web", CheckStatus::Down);
    assert_eq!(fired, vec![0]);
    assert_eq!(s.check_status("web"), Some(CheckStatus::Down));
}

#[test]
fn duplicate_status_suppressed() {
    let mut s = make_sender("web");
    assert_eq!(s.handle_check_event("web", CheckStatus::Down), vec![0]);
    assert!(s.handle_check_event("web", CheckStatus::Down).is_empty());
    assert_eq!(s.check_status("web"), Some(CheckStatus::Down));
}

#[test]
fn down_then_up_transition() {
    let mut s = make_sender("web");
    s.handle_check_event("web", CheckStatus::Down);
    assert_eq!(s.handle_check_event("web", CheckStatus::Up), vec![0]);
    assert_eq!(s.check_status("web"), Some(CheckStatus::Up));
}

#[test]
fn unknown_check_returns_none() {
    let s = AlertSender::new();
    assert_eq!(s.check_status("nonexistent"), None);
}

#[test]
fn alert_only_fires_for_subscribed_check() {
    let mut s = make_sender("db");
    assert!(s.handle_check_event("web", CheckStatus::Down).is_empty());
    assert_eq!(s.check_status("web"), Some(CheckStatus::Down));
    assert_eq!(s.check_status("db"), None);
}

#[test]
fn update_queue_limits_changes_max_age() {
    let mut s = AlertSender::with_queue_limits(64, Duration::from_secs(30));
    assert_eq!(s.max_age_secs(), 30);
    let replace = s.update_queue_limits(64, Duration::from_secs(120));
    assert!(!replace);
    assert_eq!(s.max_age_secs(), 120);
    assert_eq!(s.queue_depth(), 64);
}

#[test]
fn update_queue_limits_replaces_channel_on_depth_change() {
    let mut s = AlertSender::with_queue_limits(64, Duration::from_secs(30));
    assert!(s.update_queue_limits(128, Duration::from_secs(30)));
    assert_eq!(s.queue_depth(), 128);
}

#[test]
fn new_sender_has_default_limits() {
    let s = AlertSender::new();
    assert_eq!(s.queue_depth(), DEFAULT_DELIVERY_QUEUE);
    assert_eq!(s.max_age_secs(), 60);
}

#[test]
fn status_strings() {
    assert_eq!(status_str(CheckStatus::Down), "down");
    assert_eq!(status_str(CheckStatus::Up), "up");
}

#[test]
fn resolve_plain_value_passthrough() {
    assert_eq!(resolve("hello", &vec![]), "hello");
}

#[test]
fn resolve_env_var_set_and_unset() {
    let env = vec![("TOKEN".to_string(), "s3cret".to_string())];
    assert_eq!(resolve("env:TOKEN", &env), "s3cret");
    assert_eq!(resolve("env:MISSING", &env), "");
    let map = vec![("auth".to_string(), "env:TOKEN".to_string()), ("x".to_string(), "y".to_string())];
    assert_eq!(
        resolved_map(&map, &env),
        vec![("auth".to_string(), "s3cret".to_string()), ("x".to_string(), "y".to_string())]
    );
}

#[test]
fn unset_env_references_are_reported() {
    let mut cfg = empty_cfg();
    cfg.url = "env:ALERT_URL".to_string();
    cfg.labels = vec![("team".to_string(), "env:TEAM".to_string())];
    let env = vec![("TEAM".to_string(), "ops".to_string())];
    let warnings = unset_env_references(&cfg, &env);
    assert_eq!(warnings, vec![("url".to_string(), "ALERT_URL".to_string())]);
}

#[test]
fn retry_policy_defaults() {
    let cfg = empty_cfg();
    assert_eq!(max_attempts(&cfg), 3);
    assert_eq!(retry_backoff_millis(&cfg), vec![1000, 2000]);
}

#[test]
fn retry_policy_configured() {
    let mut cfg = empty_cfg();
    cfg.retry_attempts = Some(0);
    cfg.retry_backoff = vec!["500ms".to_string(), "bogus".to_string(), "2s".to_string()];
    assert_eq!(max_attempts(&cfg), 1);
    let backoff = retry_backoff_millis(&cfg);
    assert_eq!(backoff, vec![500, 1000, 2000]);
    assert_eq!(retry_delay(&backoff, 0), 500);
    assert_eq!(retry_delay(&backoff, 7), 2000);
}

#[test]
fn send_steps() {
    let backoff = vec![1000, 2000];
    assert_eq!(next_send_step(SendOutcome::Status(204), 0, 3, &backoff), SendStep::Delivered);
    assert_eq!(next_send_step(SendOutcome::Status(503), 0, 3, &backoff), SendStep::RetryAfter(1000));
    assert_eq!(next_send_step(SendOutcome::Failed, 1, 3, &backoff), SendStep::RetryAfter(2000));
    assert_eq!(next_send_step(SendOutcome::Failed, 2, 3, &backoff), SendStep::Abandon);
    assert_eq!(next_send_step(SendOutcome::Status(404), 0, 3, &backoff), SendStep::Abandon);
}

#[test]
fn content_types_per_format() {
    assert_eq!(content_type(AlertFormat::CloudEvents), "application/cloudevents+json");
    assert_eq!(content_type(AlertFormat::Webhook), "application/json");
}

#[test]
fn queued_jobs_expire_after_max_age() {
    assert!(!job_expired(59_000_000_000, 60));
    assert!(job_expired(60_000_000_001, 60));
}

#[test]
fn alert_entries_copy_plan_alerts() {
    let mut cfg = empty_cfg();
    cfg.on_check = vec!["web".to_string()];
    let entries = alert_entries(&vec![("page".to_string(), cfg)]);
    assert_eq!(entries.len(), 1);
    assert_eq!(entries[0].name, "page");
    assert_eq!(entries[0].config.on_check, vec!["web".to_string()]);
}

#[test]
fn update_queue_limits_same_depth_no_channel_replace() {
    let mut s = AlertSender::with_queue_limits(256, Duration::from_secs(60));
    let replace = s.update_queue_limits(256, Duration::from_secs(10));
    assert!(!replace);
    assert_eq!(s.queue_depth(), 256);
    assert_eq!(s.max_age_secs(), 10);
}

#[test]
fn warn_unset_env_vars_no_panic() {
    let mut cfg = empty_cfg();
    cfg.url = "env:_VIGIL_DEFINITELY_MISSING_9999".to_string();
    cfg.labels = vec![("cluster".to_string(), "env:_VIGIL_DEFINITELY_MISSING_9999".to_string())];
    let warnings = unset_env_references(&cfg, &vec![]);
    assert_eq!(
        warnings,
        vec![
            ("url".to_string(), "_VIGIL_DEFINITELY_MISSING_9999".to_string()),
            ("labels.cluster".to_string(), "_VIGIL_DEFINITELY_MISSING_9999".to_string()),
        ]
    );
}

#[test]
fn warn_unset_env_vars_proxy_and_no_proxy() {
    let mut cfg = empty_cfg();
    cfg.proxy = Some("env:_VIGIL_DEFINITELY_MISSING_9999".to_string());
    cfg.no_proxy = Some("env:_VIGIL_DEFINITELY_MISSING_9999".to_string());
    let warnings = unset_env_references(&cfg, &vec![]);
    assert_eq!(
        warnings,
        vec![
            ("proxy".to_string(), "_VIGIL_DEFINITELY_MISSING_9999".to_string()),
            ("no_proxy".to_string(), "_VIGIL_DEFINITELY_MISSING_9999".to_string()),
        ]
    );
}

#[test]
fn warn_unset_env_vars_headers_and_send_info_fields() {
    let mut cfg = empty_cfg();
    cfg.headers = vec![("X-Token".to_string(), "env:_VIGIL_DEFINITELY_MISSING_9999".to_string())];
    cfg.send_info_fields = vec![("team".to_string(), "env:_VIGIL_DEFINITELY_MISSING_9999".to_string())];
    let warnings = unset_env_references(&cfg, &vec![]);
    assert_eq!(
        warnings,
        vec![
            ("headers.X-Token".to_string(), "_VIGIL_DEFINITELY_MISSING_9999".to_string()),
            ("send_info_fields.team".to_string(), "_VIGIL_DEFINITELY_MISSING_9999".to_string()),
        ]
    );
}
