use vigild::alert::{AlertConfig, AlertFormat, AlertSender, CheckStatus};
use vigild::overlord::{
    dependencies_running, ChangeStatus, Overlord, ServiceAction, ServiceEntry, ServiceEventKind, ServiceState,
};
use vigild::plan::{
    fmt_on_exit, CheckConfig, CheckLevel, ExecCheck, HttpCheck, OnExit, Plan, ServiceConfig, Startup,
};

fn service(after: &[&str], requires: &[&str], before: &[&str]) -> ServiceConfig {
    ServiceConfig {
        command: "/bin/true".to_string(),
        startup: Startup::Disabled,
        after: after.iter().map(|s| s.to_string()).collect(),
        before: before.iter().map(|s| s.to_string()).collect(),
        requires: requires.iter().map(|s| s.to_string()).collect(),
        environment: vec![],
        user: None,
        user_id: None,
        group: None,
        group_id: None,
        working_dir: None,
        stop_signal: None,
        kill_delay: None,
        backoff_delay: None,
        backoff_limit: None,
        on_success: None,
        on_failure: None,
        on_check_failure: vec![],
    }
}

fn empty_plan() -> Plan {
    Plan { services: vec![], checks: vec![], alerts: vec![], alert_queue_depth: None, alert_max_queue_time: None }
}

fn exec_check(command: &str, startup: Startup) -> CheckConfig {
    CheckConfig {
        level: CheckLevel::Unset,
        startup,
        delay: None,
        period: None,
        timeout: None,
        threshold: None,
        http: None,
        tcp: None,
        exec_check: Some(ExecCheck {
            command: command.to_string(),
            service_context: None,
            environment: vec![],
            user: None,
            user_id: None,
            group: None,
            group_id: None,
            working_dir: None,
        }),
    }
}

fn make_overlord(plan_services: &[(&str, &[&str], &[&str], &[&str])], states: &[(&str, ServiceState)]) -> Overlord {
    let mut plan = empty_plan();
    let mut services = Vec::new();
    for (name, after, requires, before) in plan_services {
        plan.services.push((name.to_string(), service(after, requires, before)));
        let state = states.iter().find(|(n, _)| n == name).map(|(_, s)| *s).unwrap_or(ServiceState::Inactive);
        services.push(ServiceEntry { name: name.to_string(), state, since_ms: 0, startup: Startup::Enabled });
    }
    Overlord {
        plan,
        services,
        checks: vec![],
        changes: vec![],
        change_counter: 0,
        pending_autostart: vec![],
        alert_sender: AlertSender::new(),
    }
}

fn ready(ov: &Overlord, name: &str) -> bool {
    dependencies_running(&ov.plan.services, &ov.services, name)
}

#[test]
fn after_dep_running_unblocks_service() {
    let ov = make_overlord(
        &[("dep", &[], &[], &[]), ("svc", &["dep"], &[], &[])],
        &[("dep", ServiceState::Active), ("svc", ServiceState::Inactive)],
    );
    assert!(ready(&ov, "svc"));
}

#[test]
fn after_dep_inactive_blocks_service() {
    let ov = make_overlord(
        &[("dep", &[], &[], &[]), ("svc", &["dep"], &[], &[])],
        &[("dep", ServiceState::Inactive), ("svc", ServiceState::Inactive)],
    );
    assert!(!ready(&ov, "svc"));
}

#[test]
fn service_with_no_deps_is_always_ready() {
    let ov = make_overlord(&[("svc", &[], &[], &[])], &[]);
    assert!(ready(&ov, "svc"));
}

#[test]
fn before_dep_running_unblocks_service() {
    let ov = make_overlord(
        &[("dep", &[], &[], &["svc"]), ("svc", &[], &[], &[])],
        &[("dep", ServiceState::Active)],
    );
    assert!(ready(&ov, "svc"));
}

#[test]
fn before_dep_inactive_blocks_service() {
    let ov = make_overlord(
        &[("dep", &[], &[], &["svc"]), ("svc", &[], &[], &[])],
        &[("dep", ServiceState::Backoff)],
    );
    assert!(!ready(&ov, "svc"));
}

#[test]
fn requires_dep_running_unblocks_service() {
    let ov = make_overlord(&[("db", &[], &[], &[]), ("api", &[], &["db"], &[])], &[("db", ServiceState::Active)]);
    assert!(ready(&ov, "api"));
}

#[test]
fn requires_dep_inactive_blocks_service() {
    let ov = make_overlord(&[("db", &[], &[], &[]), ("api", &[], &["db"], &[])], &[("db", ServiceState::Error)]);
    assert!(!ready(&ov, "api"));
}

#[test]
fn after_deps_running_unknown_service_returns_true() {
    let ov = make_overlord(&[], &[]);
    assert!(ready(&ov, "nonexistent"));
}

fn requires_overlord() -> Overlord {
    make_overlord(
        &[("db", &[], &[], &[]), ("api", &[], &["db"], &[])],
        &[("db", ServiceState::Active), ("api", ServiceState::Active)],
    )
}

fn db_enters(state: ServiceState) -> Vec<String> {
    let mut ov = requires_overlord();
    let o = ov.handle_svc_event("db", ServiceEventKind::StateChanged { new_state: state }, 5);
    assert!(o.exit_code.is_none());
    assert_eq!(ov.services[0].state, state);
    assert_eq!(ov.services[0].since_ms, 5);
    o.stop
}

#[test]
fn requires_stop_cascade_fires_on_inactive() {
    assert_eq!(db_enters(ServiceState::Inactive), vec!["api".to_string()]);
}

#[test]
fn requires_stop_cascade_fires_on_error() {
    assert_eq!(db_enters(ServiceState::Error), vec!["api".to_string()]);
}

#[test]
fn requires_stop_cascade_does_not_fire_on_backoff() {
    assert!(db_enters(ServiceState::Backoff).is_empty());
}

#[test]
fn requires_stop_cascade_does_not_fire_on_stopping() {
    assert!(db_enters(ServiceState::Stopping).is_empty());
}

#[test]
fn requires_stop_cascade_skips_stopped_dependents() {
    let mut ov = make_overlord(
        &[("db", &[], &[], &[]), ("api", &[], &["db"], &[])],
        &[("db", ServiceState::Active), ("api", ServiceState::Backoff)],
    );
    let o = ov.handle_svc_event("db", ServiceEventKind::StateChanged { new_state: ServiceState::Inactive }, 1);
    assert!(o.stop.is_empty());
}

#[test]
fn daemon_shutdown_event_returns_exit_code() {
    let mut ov = make_overlord(&[("svc", &[], &[], &[])], &[]);
    let o = ov.handle_svc_event("svc", ServiceEventKind::DaemonShutdown { exit_code: 42 }, 0);
    assert_eq!(o.exit_code, Some(42));
}

#[test]
fn process_exited_event_returns_none() {
    let mut ov = make_overlord(&[("svc", &[], &[], &[])], &[]);
    let o = ov.handle_svc_event("svc", ServiceEventKind::ProcessExited { success: true }, 0);
    assert!(o.exit_code.is_none());
    assert!(o.start.is_empty() && o.stop.is_empty() && o.blocked.is_empty());
}

#[test]
fn state_changed_event_returns_none() {
    let mut ov = make_overlord(&[("svc", &[], &[], &[])], &[]);
    let o = ov.handle_svc_event("svc", ServiceEventKind::StateChanged { new_state: ServiceState::Active }, 0);
    assert!(o.exit_code.is_none());
    assert_eq!(ov.services[0].state, ServiceState::Active);
}

#[test]
fn fmt_on_exit_all_variants() {
    assert_eq!(fmt_on_exit(OnExit::Restart), "restart");
    assert_eq!(fmt_on_exit(OnExit::Ignore), "ignore");
    assert_eq!(fmt_on_exit(OnExit::Shutdown), "shutdown");
    assert_eq!(fmt_on_exit(OnExit::FailureShutdown), "failure-shutdown");
    assert_eq!(fmt_on_exit(OnExit::SuccessShutdown), "success-shutdown");
}

fn with_policy(policy: OnExit) -> Overlord {
    let mut ov = make_overlord(&[("svc", &[], &[], &[])], &[("svc", ServiceState::Active)]);
    ov.plan.services[0].1.on_check_failure.push(("my-check".to_string(), policy));
    ov
}

#[test]
fn on_check_failure_ignore_sends_no_command() {
    let mut ov = with_policy(OnExit::Ignore);
    let o = ov.handle_check_event("my-check", CheckStatus::Down);
    assert!(o.restart.is_empty());
    assert!(o.exit_code.is_none());
}

#[test]
fn on_check_failure_restart_sends_restart_command() {
    let mut ov = with_policy(OnExit::Restart);
    let o = ov.handle_check_event("my-check", CheckStatus::Down);
    assert_eq!(o.restart, vec!["svc".to_string()]);
    assert!(o.exit_code.is_none());
}

#[test]
fn check_event_up_does_not_trigger_action() {
    let mut ov = with_policy(OnExit::Restart);
    let o = ov.handle_check_event("my-check", CheckStatus::Up);
    assert!(o.restart.is_empty());
    assert!(o.exit_code.is_none());
}

#[test]
fn on_check_failure_shutdown_exit_codes() {
    assert_eq!(with_policy(OnExit::Shutdown).handle_check_event("my-check", CheckStatus::Down).exit_code, Some(10));
    assert_eq!(
        with_policy(OnExit::FailureShutdown).handle_check_event("my-check", CheckStatus::Down).exit_code,
        Some(10)
    );
    assert_eq!(
        with_policy(OnExit::SuccessShutdown).handle_check_event("my-check", CheckStatus::Down).exit_code,
        Some(0)
    );
}

#[test]
fn on_check_failure_stops_at_first_shutdown() {
    let mut ov = make_overlord(&[("a", &[], &[], &[]), ("b", &[], &[], &[]), ("c", &[], &[], &[])], &[]);
    ov.plan.services[0].1.on_check_failure.push(("chk".to_string(), OnExit::Restart));
    ov.plan.services[1].1.on_check_failure.push(("chk".to_string(), OnExit::SuccessShutdown));
    ov.plan.services[2].1.on_check_failure.push(("chk".to_string(), OnExit::Restart));
    let o = ov.handle_check_event("chk", CheckStatus::Down);
    assert_eq!(o.restart, vec!["a".to_string()]);
    assert_eq!(o.exit_code, Some(0));
}

#[test]
fn check_event_fires_subscribed_alerts() {
    let mut ov = make_overlord(&[], &[]);
    let cfg = AlertConfig {
        url: "http://example.com".to_string(),
        format: AlertFormat::Webhook,
        on_check: vec!["web".to_string()],
        headers: vec![],
        labels: vec![],
        send_info_fields: vec![],
        tls_insecure: false,
        tls_ca: None,
        proxy: None,
        proxy_ca: None,
        no_proxy: None,
        retry_attempts: None,
        retry_backoff: vec![],
        body_template: None,
    };
    let mut plan = empty_plan();
    plan.alerts.push(("page".to_string(), cfg));
    ov.reload(plan, 0);
    assert_eq!(ov.handle_check_event("web", CheckStatus::Down).fired, vec![0]);
    let infos = ov.query_alerts(&vec![]);
    assert_eq!(infos.len(), 1);
    assert_eq!(infos[0].check_status, vec![("web".to_string(), Some(CheckStatus::Down))]);
}

#[test]
fn state_changed_to_active_unblocks_pending_autostart() {
    let mut ov = make_overlord(
        &[("dep", &[], &[], &[]), ("svc", &["dep"], &[], &[])],
        &[("dep", ServiceState::Inactive), ("svc", ServiceState::Inactive)],
    );
    ov.pending_autostart.push("svc".to_string());
    let o = ov.handle_svc_event("dep", ServiceEventKind::StateChanged { new_state: ServiceState::Active }, 1);
    assert_eq!(o.start, vec!["svc".to_string()]);
    assert!(ov.pending_autostart.is_empty());
}

#[test]
fn error_state_warns_blocked_pending_services() {
    let mut ov = make_overlord(
        &[("dep", &[], &[], &[]), ("svc", &["dep"], &[], &[])],
        &[("dep", ServiceState::Inactive), ("svc", ServiceState::Inactive)],
    );
    ov.pending_autostart.push("svc".to_string());
    let o = ov.handle_svc_event("dep", ServiceEventKind::StateChanged { new_state: ServiceState::Error }, 1);
    assert!(o.exit_code.is_none());
    assert_eq!(o.blocked, vec!["svc".to_string()]);
    assert!(ov.pending_autostart.contains(&"svc".to_string()));
}

#[test]
fn reload_layers_propagates_queue_limits() {
    let mut ov = make_overlord(&[], &[]);
    let mut plan = empty_plan();
    plan.alert_queue_depth = Some(128);
    plan.alert_max_queue_time = Some("10s".to_string());
    let a = ov.reload(plan, 0);
    assert!(a.replace_queue);
    assert_eq!(ov.alert_sender.queue_depth(), 128);
    assert_eq!(ov.alert_sender.max_age_secs(), 10);
}

#[test]
fn reload_layers_defaults_when_not_specified() {
    let mut ov = make_overlord(&[], &[]);
    let a = ov.reload(empty_plan(), 0);
    assert!(!a.replace_queue);
    assert_eq!(ov.alert_sender.queue_depth(), 256);
    assert_eq!(ov.alert_sender.max_age_secs(), 60);
}

#[test]
fn sync_actors_skips_disabled_check() {
    let mut ov = make_overlord(&[], &[]);
    let mut plan = empty_plan();
    plan.checks.push(("my-check".to_string(), exec_check("true", Startup::Disabled)));
    let a = ov.reload(plan, 0);
    assert!(ov.checks.is_empty(), "disabled check should not be started");
    assert!(a.sync.spawn_checks.is_empty());
}

#[test]
fn sync_actors_starts_enabled_check() {
    let mut ov = make_overlord(&[], &[]);
    let mut plan = empty_plan();
    plan.checks.push(("my-check".to_string(), exec_check("true", Startup::Enabled)));
    let a = ov.reload(plan, 0);
    assert_eq!(ov.checks.len(), 1);
    assert_eq!(ov.checks[0].0, "my-check");
    assert_eq!(a.sync.spawn_checks, vec![("my-check".to_string(), CheckStatus::Up)]);
}

#[test]
fn reload_layers_removes_service_not_in_new_plan() {
    let mut ov = make_overlord(&[], &[]);
    let mut plan = empty_plan();
    plan.services.push(("old-svc".to_string(), service(&[], &[], &[])));
    let a = ov.reload(plan, 0);
    assert_eq!(a.sync.spawn_services, vec!["old-svc".to_string()]);
    assert_eq!(ov.services.len(), 1);
    let a = ov.reload(empty_plan(), 1);
    assert!(ov.services.is_empty(), "removed service should no longer be tracked");
    assert_eq!(a.shutdown_services, vec!["old-svc".to_string()]);
}

#[test]
fn reload_layers_removes_check_not_in_new_plan() {
    let mut ov = make_overlord(&[], &[]);
    let mut plan = empty_plan();
    plan.checks.push(("old-check".to_string(), exec_check("true", Startup::Enabled)));
    ov.reload(plan, 0);
    assert_eq!(ov.checks.len(), 1);
    let a = ov.reload(empty_plan(), 1);
    assert!(ov.checks.is_empty(), "removed check should no longer be tracked");
    assert_eq!(a.shutdown_checks, vec!["old-check".to_string()]);
}

#[test]
fn sync_actors_restarts_check_on_config_change() {
    let mut ov = make_overlord(&[], &[]);
    let mut plan = empty_plan();
    plan.checks.push(("my-check".to_string(), exec_check("sleep 60", Startup::Enabled)));
    ov.reload(plan, 0);
    let mut same = empty_plan();
    same.checks.push(("my-check".to_string(), exec_check("sleep 60", Startup::Enabled)));
    let a = ov.reload(same, 1);
    assert!(a.sync.stop_checks.is_empty() && a.sync.spawn_checks.is_empty());
    let mut changed = empty_plan();
    changed.checks.push(("my-check".to_string(), exec_check("sleep 999", Startup::Enabled)));
    let a = ov.reload(changed, 2);
    assert_eq!(a.sync.stop_checks, vec!["my-check".to_string()]);
    assert_eq!(ov.checks.len(), 1);
    assert_eq!(ov.checks[0].1.exec_check.as_ref().unwrap().command, "sleep 999");
}

#[test]
fn sync_actors_restarts_check_on_success_statuses_change() {
    let http = |code: u16| {
        let mut c = exec_check("", Startup::Enabled);
        c.exec_check = None;
        c.http = Some(HttpCheck {
            url: "http://localhost:8080/healthz".to_string(),
            headers: vec![],
            insecure: false,
            ca: None,
            success_statuses: vec![code],
        });
        c
    };
    let mut ov = make_overlord(&[], &[]);
    let mut plan = empty_plan();
    plan.checks.push(("my-check".to_string(), http(301)));
    ov.reload(plan, 0);
    assert_eq!(ov.checks[0].1.http.as_ref().unwrap().success_statuses, vec![301]);
    let mut plan = empty_plan();
    plan.checks.push(("my-check".to_string(), http(303)));
    let a = ov.reload(plan, 1);
    assert_eq!(a.sync.stop_checks, vec!["my-check".to_string()]);
    assert_eq!(ov.checks[0].1.http.as_ref().unwrap().success_statuses, vec![303]);
}

#[test]
fn restarted_check_keeps_last_alert_status() {
    let mut ov = make_overlord(&[], &[]);
    ov.alert_sender.handle_check_event("c", CheckStatus::Down);
    let mut plan = empty_plan();
    plan.checks.push(("c".to_string(), exec_check("true", Startup::Enabled)));
    let a = ov.reload(plan, 0);
    assert_eq!(a.sync.spawn_checks, vec![("c".to_string(), CheckStatus::Down)]);
}

#[test]
fn autostart_defers_until_dependencies_run() {
    let mut ov = make_overlord(&[], &[]);
    let mut plan = empty_plan();
    let mut db = service(&[], &[], &[]);
    db.startup = Startup::Enabled;
    let mut api = service(&["db"], &[], &[]);
    api.startup = Startup::Enabled;
    plan.services.push(("db".to_string(), db));
    plan.services.push(("api".to_string(), api));
    let a = ov.reload(plan, 0);
    assert_eq!(a.start, vec!["db".to_string()]);
    assert_eq!(ov.pending_autostart, vec!["api".to_string()]);
    let o = ov.handle_svc_event("db", ServiceEventKind::StateChanged { new_state: ServiceState::Active }, 1);
    assert_eq!(o.start, vec!["api".to_string()]);
    assert!(ov.pending_autostart.is_empty());
}

#[test]
fn services_action_targets_and_change_record() {
    let mut ov = make_overlord(&[("a", &[], &[], &[]), ("b", &[], &[], &[])], &[]);
    let targets = ov.action_targets(ServiceAction::Autostart, vec![]);
    assert_eq!(targets, vec!["a".to_string(), "b".to_string()]);
    assert_eq!(ov.plan.services[0].1.startup, Startup::Enabled);
    assert_eq!(ov.plan.services[1].1.startup, Startup::Enabled);
    let c = ov.record_change(ServiceAction::Autostart, &targets, &vec![], 7);
    assert_eq!(c.id, "1");
    assert_eq!(c.kind, "autostart");
    assert_eq!(c.summary, "Autostart [\"a\", \"b\"]");
    assert_eq!(c.status, ChangeStatus::Done);
    assert_eq!(c.err, None);
    assert_eq!(c.ready_time_ms, Some(7));
    let t = ov.action_targets(ServiceAction::Stop, vec!["x".to_string()]);
    let errors = vec![("x".to_string(), "unknown service 'x'".to_string()), ("y".to_string(), "gone".to_string())];
    let c = ov.record_change(ServiceAction::Stop, &t, &errors, 8);
    assert_eq!(c.id, "2");
    assert_eq!(c.summary, "Stop [\"x\"]");
    assert_eq!(c.status, ChangeStatus::Error);
    assert_eq!(c.err, Some("x: unknown service 'x'; y: gone".to_string()));
    assert_eq!(ov.get_changes(None).len(), 2);
    let only = ov.get_changes(Some("2"));
    assert_eq!(only.len(), 1);
    assert_eq!(only[0].kind, "stop");
    assert!(ov.get_changes(Some("3")).is_empty());
}

#[test]
fn service_infos_use_plan_defaults() {
    let mut ov = make_overlord(&[("a", &[], &[], &[]), ("b", &[], &[], &[])], &[("b", ServiceState::Active)]);
    ov.plan.services[1].1.stop_signal = Some("SIGUSR1".to_string());
    ov.plan.services[1].1.on_failure = Some(OnExit::Shutdown);
    let all = ov.get_service_infos(&vec![]);
    assert_eq!(all.len(), 2);
    assert_eq!(all[0].stop_signal, "SIGTERM");
    assert_eq!(all[0].on_success, "restart");
    let b = ov.get_service_infos(&vec!["b".to_string()]);
    assert_eq!(b.len(), 1);
    assert_eq!(b[0].current, ServiceState::Active);
    assert_eq!(b[0].stop_signal, "SIGUSR1");
    assert_eq!(b[0].on_failure, "shutdown");
    assert_eq!(b[0].on_success, "restart");
}

#[test]
fn checks_to_query_filters_by_name() {
    let mut ov = make_overlord(&[], &[]);
    let mut plan = empty_plan();
    plan.checks.push(("a".to_string(), exec_check("true", Startup::Enabled)));
    plan.checks.push(("b".to_string(), exec_check("true", Startup::Enabled)));
    ov.reload(plan, 0);
    assert_eq!(ov.checks_to_query(&vec![]), vec!["a".to_string(), "b".to_string()]);
    assert_eq!(ov.checks_to_query(&vec!["b".to_string()]), vec!["b".to_string()]);
}

#[test]
fn command_target_reports_unknown_service() {
    let ov = make_overlord(&[("a", &[], &[], &[])], &[]);
    assert_eq!(ov.command_target("a"), Ok(0));
    assert_eq!(ov.command_target("zz"), Err("unknown service 'zz'".to_string()));
}
