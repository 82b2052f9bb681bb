use serde_json::Value;

use vigild::alert::{resolve, AlertConfig, AlertFormat, CheckStatus};
use vigild::alert_format::{
    alertmanager_payload, cloudevents_payload, format_payload, json_string_text, otlp_payload, string_map_text,
    webhook_body, webhook_payload,
};

const NOW: &str = "2026-01-02T03:04:05+00:00";

fn empty_cfg() -> AlertConfig {
    AlertConfig {
        url: "http://example.com".to_string(),
        format: AlertFormat::Webhook,
        on_check: vec![],
        headers: vec![],
        labels: vec![],
        send_info_fields: vec![],
        tls_insecure: false,
        tls_ca: None,
        proxy: None,
        proxy_ca: None,
        no_proxy: None,
        retry_attempts: None,
        retry_backoff: vec![],
        body_template: None,
    }
}

fn json(text: &str) -> Value {
    serde_json::from_str(text).unwrap()
}

fn payload(check: &str, status: CheckStatus, cfg: &AlertConfig) -> Value {
    json(&format_payload(check, status, cfg, &vec![], NOW, "id-1", 1_700_000_000_000_000_000, "1.2.3"))
}

#[test]
fn resolve_literal_passthrough() {
    assert_eq!(resolve("env:_VIGIL_TEST_ALERT_MISSING", &vec![]), "");
}

#[test]
fn format_webhook_has_expected_keys() {
    let v = json(&webhook_payload("web", CheckStatus::Down, &vec![], &vec![], NOW));
    assert_eq!(v["check"], "web");
    assert_eq!(v["status"], "down");
    assert!(v["timestamp"].is_string());
}

#[test]
fn format_alertmanager_down_has_zero_ends_at() {
    let v = json(&alertmanager_payload("web", CheckStatus::Down, &vec![], &vec![], NOW));
    let alert = &v[0];
    assert_eq!(alert["endsAt"], "0001-01-01T00:00:00Z");
    assert_eq!(alert["startsAt"], NOW);
    assert_eq!(alert["labels"]["alertname"], "web");
    assert_eq!(alert["labels"]["check"], "web");
}

#[test]
fn format_alertmanager_up_has_zero_starts_at() {
    let v = json(&alertmanager_payload("web", CheckStatus::Up, &vec![], &vec![], NOW));
    let alert = &v[0];
    assert_eq!(alert["startsAt"], "0001-01-01T00:00:00Z");
    assert_eq!(alert["endsAt"], NOW);
}

#[test]
fn format_cloudevents_down_type() {
    let v = json(&cloudevents_payload("web", CheckStatus::Down, &vec![], &vec![], NOW, "e-1"));
    assert_eq!(v["type"], "io.vigil.check.failed");
    assert_eq!(v["specversion"], "1.0");
    assert_eq!(v["id"], "e-1");
    assert_eq!(v["data"]["check"], "web");
}

#[test]
fn format_cloudevents_up_type() {
    let v = json(&cloudevents_payload("web", CheckStatus::Up, &vec![], &vec![], NOW, "e-1"));
    assert_eq!(v["type"], "io.vigil.check.recovered");
}

#[test]
fn format_otlp_logs_down_severity() {
    let labels = vec![("env".to_string(), "prod".to_string())];
    let v = json(&otlp_payload("web", CheckStatus::Down, &labels, &vec![], -5, "1.2.3"));
    let record = &v["resourceLogs"][0]["scopeLogs"][0]["logRecords"][0];
    assert_eq!(record["severityNumber"], 17);
    assert_eq!(record["severityText"], "ERROR");
    assert_eq!(record["timeUnixNano"], "-5");
    assert_eq!(record["body"]["stringValue"], "check web failed");
    assert_eq!(record["attributes"][2]["key"], "env");
    assert_eq!(v["resourceLogs"][0]["scopeLogs"][0]["scope"]["version"], "1.2.3");
}

#[test]
fn format_otlp_logs_up_severity() {
    let v = json(&otlp_payload("web", CheckStatus::Up, &vec![], &vec![], i64::MIN, "1"));
    let record = &v["resourceLogs"][0]["scopeLogs"][0]["logRecords"][0];
    assert_eq!(record["severityNumber"], 9);
    assert_eq!(record["severityText"], "INFO");
    assert_eq!(record["timeUnixNano"], "-9223372036854775808");
}

#[test]
fn template_slack_like_down() {
    let mut cfg = empty_cfg();
    cfg.body_template = Some(r#"{"text": "Check {{ check }} is {{ status }}"}"#.to_string());
    let v = payload("web", CheckStatus::Down, &cfg);
    assert_eq!(v["text"], "Check web is down");
}

#[test]
fn template_slack_like_up() {
    let mut cfg = empty_cfg();
    cfg.body_template = Some(r#"{"text": "{{ check }} recovered"}"#.to_string());
    let v = payload("db", CheckStatus::Up, &cfg);
    assert_eq!(v["text"], "db recovered");
}

#[test]
fn template_with_labels_and_info() {
    let mut cfg = empty_cfg();
    cfg.labels.push(("env".to_string(), "prod".to_string()));
    cfg.send_info_fields.push(("team".to_string(), "platform".to_string()));
    cfg.body_template =
        Some(r#"{"env": "{{ labels.env }}", "team": "{{ info.team }}", "s": "{{ status }}"}"#.to_string());
    let v = payload("my-check", CheckStatus::Up, &cfg);
    assert_eq!(v["env"], "prod");
    assert_eq!(v["team"], "platform");
    assert_eq!(v["s"], "up");
}

#[test]
fn template_timestamp_is_string() {
    let mut cfg = empty_cfg();
    cfg.body_template = Some(r#"{"ts": "{{ timestamp }}"}"#.to_string());
    let v = payload("web", CheckStatus::Down, &cfg);
    assert!(v["ts"].as_str().unwrap().contains('T'), "timestamp should be RFC3339");
}

#[test]
fn template_conditional_color() {
    let mut cfg = empty_cfg();
    cfg.body_template =
        Some(r#"{"color": "{% if status == 'down' %}red{% else %}green{% endif %}"}"#.to_string());
    assert_eq!(payload("web", CheckStatus::Down, &cfg)["color"], "red");
    assert_eq!(payload("web", CheckStatus::Up, &cfg)["color"], "green");
}

#[test]
fn template_invalid_jinja_falls_back_to_default() {
    let mut cfg = empty_cfg();
    cfg.body_template = Some("{{ unclosed".to_string());
    let v = payload("web", CheckStatus::Down, &cfg);
    assert_eq!(v["check"], "web");
    assert_eq!(v["status"], "down");
}

#[test]
fn template_invalid_json_output_falls_back_to_default() {
    let mut cfg = empty_cfg();
    cfg.body_template = Some("not json at all — {{ check }}".to_string());
    let v = payload("web", CheckStatus::Down, &cfg);
    assert_eq!(v["check"], "web");
    assert_eq!(v["status"], "down");
}

#[test]
fn template_ignored_for_alertmanager_format() {
    let mut cfg = empty_cfg();
    cfg.format = AlertFormat::Alertmanager;
    cfg.body_template = Some(r#"{"text": "should be ignored"}"#.to_string());
    let v = payload("web", CheckStatus::Down, &cfg);
    assert!(v.is_array());
    assert_eq!(v[0]["labels"]["alertname"], "web");
}

#[test]
fn template_ignored_for_cloudevents_format() {
    let mut cfg = empty_cfg();
    cfg.format = AlertFormat::CloudEvents;
    cfg.body_template = Some(r#"{"text": "should be ignored"}"#.to_string());
    let v = payload("web", CheckStatus::Down, &cfg);
    assert_eq!(v["specversion"], "1.0");
}

#[test]
fn template_ignored_for_otlp_format() {
    let mut cfg = empty_cfg();
    cfg.format = AlertFormat::OtlpLogs;
    cfg.body_template = Some(r#"{"text": "should be ignored"}"#.to_string());
    let v = payload("web", CheckStatus::Down, &cfg);
    assert!(v["resourceLogs"].is_array());
}

#[test]
fn labels_resolve_env_references() {
    let mut cfg = empty_cfg();
    cfg.labels.push(("token".to_string(), "env:TOKEN".to_string()));
    let env = vec![("TOKEN".to_string(), "abc".to_string())];
    let v = json(&format_payload("web", CheckStatus::Down, &cfg, &env, NOW, "i", 0, "1"));
    assert_eq!(v["labels"]["token"], "abc");
}

#[test]
fn json_strings_are_escaped() {
    assert_eq!(json_string_text("a\"b\\c\nd\u{1}é"), "\"a\\\"b\\\\c\\nd\\u0001é\"");
    let m = string_map_text(&vec![("k".to_string(), "v\t".to_string())]);
    assert_eq!(m, "{\"k\":\"v\\t\"}");
    assert_eq!(json(&m)["k"], "v\t");
}

#[test]
fn webhook_body_prefers_rendered_json() {
    let labels: Vec<(String, String)> = vec![];
    let info: Vec<(String, String)> = vec![];
    let generic = webhook_body(None, "web", CheckStatus::Down, &labels, &info, "t");
    assert_eq!(webhook_body(Some("{\"a\":1}".to_string()), "web", CheckStatus::Down, &labels, &info, "t"), "{\"a\":1}");
    assert_eq!(generic, webhook_payload("web", CheckStatus::Down, &labels, &info, "t"));
}

#[test]
fn template_output_is_rewritten_by_serde_json() {
    let mut cfg = empty_cfg();
    cfg.body_template = Some("{ \"text\" :   \"{{ check }}\" }".to_string());
    let out = format_payload("web", CheckStatus::Down, &cfg, &vec![], NOW, "id-1", 0, "1.2.3");
    assert_eq!(out, "{\"text\":\"web\"}");
}
