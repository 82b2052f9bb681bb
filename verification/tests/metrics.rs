use vigild::metrics::MetricsStore;

#[test]
fn render_empty_registry_contains_eof_marker() {
    let m = MetricsStore::new();
    let out = m.render();
    assert!(out.contains("# EOF"), "OpenMetrics output must end with # EOF");
}

#[test]
fn all_metric_family_names_present_in_empty_render() {
    let m = MetricsStore::new();
    let out = m.render();
    for name in &[
        "vigil_service_start_count",
        "vigil_service_active",
        "vigil_service_info",
        "vigil_services_count",
        "vigil_check_up",
        "vigil_check_success_count",
        "vigil_check_failure_count",
        "vigil_alert_fire_count",
    ] {
        assert!(out.contains(name), "metric '{name}' missing from render output");
    }
}

#[test]
fn set_services_label_and_count() {
    let mut m = MetricsStore::new();
    m.set_services(&["web".to_string(), "db".to_string()]);
    let out = m.render();
    assert!(out.contains("web"), "service label 'web' missing");
    assert!(out.contains("db"), "service label 'db' missing");
    assert!(
        out.contains("vigil_services_count_total 2") || out.contains("vigil_services_count 2"),
        "services_count not 2 in: {out}"
    );
}

#[test]
fn record_service_start_exact_counter_value() {
    let mut m = MetricsStore::new();
    m.record_service_start("web");
    m.record_service_start("web");
    let out = m.render();
    assert!(
        out.contains(r#"vigil_service_start_count_total{service="web"} 2"#),
        "expected counter=2 in: {out}"
    );
}

#[test]
fn set_service_active_gauge_value() {
    let mut m = MetricsStore::new();
    m.set_service_active("svc", true);
    let out = m.render();
    assert!(out.contains(r#"vigil_service_active{service="svc"} 1"#), "expected active=1 in: {out}");
    m.set_service_active("svc", false);
    let out2 = m.render();
    assert!(out2.contains(r#"vigil_service_active{service="svc"} 0"#), "expected active=0 in: {out2}");
}

#[test]
fn record_check_success_and_failure_exact_values() {
    let mut m = MetricsStore::new();
    m.record_check_success("http-check");
    m.record_check_success("http-check");
    m.record_check_failure("http-check");
    let out = m.render();
    assert!(
        out.contains(r#"vigil_check_success_count_total{check="http-check"} 2"#),
        "expected success=2 in: {out}"
    );
    assert!(
        out.contains(r#"vigil_check_failure_count_total{check="http-check"} 1"#),
        "expected failure=1 in: {out}"
    );
}

#[test]
fn set_check_up_gauge_value() {
    let mut m = MetricsStore::new();
    m.set_check_up("probe", true);
    let out = m.render();
    assert!(out.contains(r#"vigil_check_up{check="probe"} 1"#), "expected up=1 in: {out}");
    m.set_check_up("probe", false);
    let out2 = m.render();
    assert!(out2.contains(r#"vigil_check_up{check="probe"} 0"#), "expected up=0 in: {out2}");
}

#[test]
fn record_alert_fire_exact_counter_value() {
    let mut m = MetricsStore::new();
    m.record_alert_fire("prod-webhook");
    m.record_alert_fire("prod-webhook");
    m.record_alert_fire("prod-webhook");
    let out = m.render();
    assert!(
        out.contains(r#"vigil_alert_fire_count_total{alert="prod-webhook"} 3"#),
        "expected alert fire count=3 in: {out}"
    );
}

#[test]
fn alert_fire_count_independent_per_alert() {
    let mut m = MetricsStore::new();
    m.record_alert_fire("alpha");
    m.record_alert_fire("alpha");
    m.record_alert_fire("beta");
    let out = m.render();
    assert!(out.contains(r#"vigil_alert_fire_count_total{alert="alpha"} 2"#), "alpha=2 missing in: {out}");
    assert!(out.contains(r#"vigil_alert_fire_count_total{alert="beta"} 1"#), "beta=1 missing in: {out}");
}

#[test]
fn render_frames_families_in_registration_order() {
    let m = MetricsStore::new();
    let out = m.render();
    assert!(out.starts_with(
        "# HELP vigil_service_start_count Number of times the service has started.\n# TYPE vigil_service_start_count counter\n"
    ));
    assert!(out.ends_with("# EOF\n"));
    let first = out.find("# HELP vigil_service_start_count").unwrap();
    let last = out.find("# HELP vigil_alert_fire_count").unwrap();
    assert!(first < last);
}

#[test]
fn render_shows_each_sample_with_its_value() {
    let mut m = MetricsStore::new();
    let out = m.render();
    assert!(out.contains("\nvigil_services_count 0\n"));
    m.record_service_start("web");
    m.record_service_start("web");
    m.set_check_up("db", true);
    m.set_services(&["web".to_string()]);
    let out = m.render();
    assert!(out.contains("\nvigil_service_start_count_total{service=\"web\"} 2\n"));
    assert!(out.contains("\nvigil_check_up{check=\"db\"} 1\n"));
    assert!(out.contains("\nvigil_service_info{service=\"web\"} 1\n"));
    assert!(out.contains("\nvigil_services_count 1\n"));
}
