use vigild::alert::CheckStatus;
use vigild::check::{
    check_settings, delay_info, exec_context, exec_launch, http_status_passes, load_pem_chain, pem_blocks,
    probe_choice, tcp_address, CheckActor, ProbeChoice,
};
use vigild::plan::{
    CheckConfig, CheckLevel, ExecCheck, HttpCheck, ServiceConfig, Startup, TcpCheck,
};

fn exec(command: &str) -> ExecCheck {
    ExecCheck {
        command: command.to_string(),
        service_context: None,
        environment: vec![],
        user: None,
        user_id: None,
        group: None,
        group_id: None,
        working_dir: None,
    }
}

fn config() -> CheckConfig {
    CheckConfig {
        level: CheckLevel::Unset,
        startup: Startup::Enabled,
        delay: None,
        period: None,
        timeout: None,
        threshold: None,
        http: None,
        tcp: None,
        exec_check: None,
    }
}

fn service() -> ServiceConfig {
    ServiceConfig {
        command: "/bin/true".to_string(),
        startup: Startup::Disabled,
        after: vec![],
        before: vec![],
        requires: vec![],
        environment: vec![],
        user: None,
        user_id: None,
        group: None,
        group_id: None,
        working_dir: None,
        stop_signal: None,
        kill_delay: None,
        backoff_delay: None,
        backoff_limit: None,
        on_success: None,
        on_failure: None,
        on_check_failure: vec![],
    }
}

#[test]
fn settings_defaults() {
    let s = check_settings(&config());
    assert_eq!(s.period_ms, 10_000);
    assert_eq!(s.timeout_ms, 3_000);
    assert_eq!(s.threshold, 3);
    assert_eq!(s.delay_ms, 3_000);
}

#[test]
fn settings_timeout_capped_by_period_and_bad_values_ignored() {
    let mut c = config();
    c.period = Some("30ms".to_string());
    c.timeout = Some("5s".to_string());
    c.delay = Some("nonsense".to_string());
    c.threshold = Some(2);
    let s = check_settings(&c);
    assert_eq!(s.period_ms, 30);
    assert_eq!(s.timeout_ms, 30);
    assert_eq!(s.delay_ms, 3_000);
    assert_eq!(s.threshold, 2);
}

#[test]
fn get_status_during_delay_returns_up_zero_failures() {
    let mut c = config();
    c.exec_check = Some(exec("false"));
    let info = delay_info("test-check".to_string(), &c);
    assert_eq!(info.status, CheckStatus::Up);
    assert_eq!(info.failures, 0);
    assert_eq!(info.name, "test-check");
    assert_eq!(info.threshold, 3);
    assert!(info.next_run_in_secs.is_none());
}

#[test]
fn first_run_always_sends_initial_event() {
    let mut a = CheckActor::new(CheckStatus::Up, 3);
    assert!(a.initial_gauge());
    let e = a.on_probe(true);
    assert!(e.success);
    assert_eq!(e.events, vec![CheckStatus::Up]);
    assert_eq!(e.set_up, None);
    let e = a.on_probe(true);
    assert!(e.events.is_empty());
}

#[test]
fn failure_below_threshold_stays_up() {
    let mut a = CheckActor::new(CheckStatus::Up, 2);
    let e = a.on_probe(false);
    assert!(!e.success);
    assert_eq!(e.events, vec![CheckStatus::Up]);
    assert_eq!(a.failures, 1);
    assert_eq!(a.status, CheckStatus::Up);
}

#[test]
fn failure_reaches_threshold_sends_down_event() {
    let mut a = CheckActor::new(CheckStatus::Up, 2);
    a.on_probe(false);
    let e = a.on_probe(false);
    assert_eq!(e.events, vec![CheckStatus::Down]);
    assert_eq!(e.set_up, Some(false));
    assert_eq!(a.status, CheckStatus::Down);
    let e = a.on_probe(false);
    assert!(e.events.is_empty());
    assert_eq!(a.failures, 3);
}

#[test]
fn recovery_from_initial_down_sends_up_event() {
    let mut a = CheckActor::new(CheckStatus::Down, 1);
    assert!(!a.initial_gauge());
    let e = a.on_probe(true);
    assert_eq!(e.events, vec![CheckStatus::Up, CheckStatus::Up]);
    assert_eq!(e.set_up, Some(true));
    assert_eq!(a.failures, 0);
}

#[test]
fn get_status_in_main_loop_reports_current_state() {
    let mut a = CheckActor::new(CheckStatus::Up, 10);
    a.on_probe(false);
    let info = a.info("c".to_string(), CheckLevel::Alive, Some(4));
    assert_eq!(info.failures, 1);
    assert_eq!(info.status, CheckStatus::Up);
    assert_eq!(info.threshold, 10);
    assert_eq!(info.next_run_in_secs, Some(4));
    assert_eq!(info.level, CheckLevel::Alive);
}

#[test]
fn failures_saturate() {
    let mut a = CheckActor { status: CheckStatus::Down, failures: u32::MAX, threshold: 3, first_run: false };
    let e = a.on_probe(false);
    assert_eq!(a.failures, u32::MAX);
    assert!(e.events.is_empty());
}

#[test]
fn no_check_configured_returns_true() {
    assert!(matches!(probe_choice(&config()), ProbeChoice::Pass));
}

#[test]
fn probe_priority_http_then_tcp_then_exec() {
    let mut c = config();
    c.exec_check = Some(exec("true"));
    assert!(matches!(probe_choice(&c), ProbeChoice::Exec));
    c.tcp = Some(TcpCheck { host: Some("127.0.0.1".to_string()), port: 8080 });
    match probe_choice(&c) {
        ProbeChoice::Tcp { address } => assert_eq!(address, "127.0.0.1:8080"),
        _ => panic!("expected tcp"),
    }
    c.http = Some(HttpCheck {
        url: "http://localhost/".to_string(),
        headers: vec![],
        insecure: false,
        ca: None,
        success_statuses: vec![],
    });
    assert!(matches!(probe_choice(&c), ProbeChoice::Http));
}

#[test]
fn tcp_check_default_host_via_perform() {
    assert_eq!(tcp_address(&TcpCheck { host: None, port: 0 }), "localhost:0");
    assert_eq!(tcp_address(&TcpCheck { host: None, port: 65535 }), "localhost:65535");
}

#[test]
fn success_statuses_override_default() {
    assert!(http_status_passes(301, &vec![301]));
    assert!(!http_status_passes(200, &vec![301]));
    assert!(http_status_passes(200, &vec![]));
    assert!(http_status_passes(299, &vec![]));
    assert!(!http_status_passes(404, &vec![]));
    assert!(!http_status_passes(500, &vec![]));
    assert!(!http_status_passes(300, &vec![]));
}

#[test]
fn exec_inherits_service_env() {
    let mut svc = service();
    svc.environment = vec![("VIGIL_SVC_VAR".to_string(), "from_service".to_string())];
    svc.user_id = Some(0);
    svc.working_dir = Some("/tmp".to_string());
    let services = vec![("my-svc".to_string(), svc)];
    let mut e = exec("test \"$VIGIL_SVC_VAR\" = from_service");
    e.service_context = Some("my-svc".to_string());
    let ctx = exec_context(&e, &services);
    assert_eq!(ctx.environment, vec![("VIGIL_SVC_VAR".to_string(), "from_service".to_string())]);
    assert_eq!(ctx.user_id, Some(0));
    assert_eq!(ctx.working_dir, Some("/tmp".to_string()));
}

#[test]
fn exec_check_env_overrides_service_env() {
    let mut svc = service();
    svc.environment = vec![("FOO".to_string(), "service".to_string()), ("BAR".to_string(), "b".to_string())];
    let services = vec![("my-svc".to_string(), svc)];
    let mut e = exec("test \"$FOO\" = check");
    e.service_context = Some("my-svc".to_string());
    e.environment = vec![("FOO".to_string(), "check".to_string()), ("NEW".to_string(), "n".to_string())];
    e.working_dir = Some("/srv".to_string());
    let ctx = exec_context(&e, &services);
    assert_eq!(
        ctx.environment,
        vec![
            ("FOO".to_string(), "check".to_string()),
            ("BAR".to_string(), "b".to_string()),
            ("NEW".to_string(), "n".to_string())
        ]
    );
    assert_eq!(ctx.working_dir, Some("/srv".to_string()));
}

#[test]
fn exec_nonexistent_service_context_falls_back_gracefully() {
    let mut e = exec("true");
    e.service_context = Some("no-such-service".to_string());
    let ctx = exec_context(&e, &vec![]);
    assert!(ctx.environment.is_empty());
    assert_eq!(ctx.command, "true");
    let launch = exec_launch(&e, &vec![]).unwrap();
    assert_eq!(launch.uid, None);
    assert_eq!(launch.gid, None);
}

#[test]
fn exec_launch_fails_on_unknown_user() {
    let mut e = exec("true");
    e.user = Some("_no_such_user_xyz_".to_string());
    assert!(exec_launch(&e, &vec![]).is_err());
    let mut e = exec("true");
    e.user_id = Some(0);
    e.group_id = Some(0);
    let l = exec_launch(&e, &vec![]).unwrap();
    assert_eq!((l.uid, l.gid), (Some(0), Some(0)));
}

const CERT: &str = "-----BEGIN CERTIFICATE-----\nAAAA\n-----END CERTIFICATE-----\n";

#[test]
fn pem_blocks_split_chain() {
    let chain = format!("{}{}junk\n", CERT, "-----BEGIN CERTIFICATE-----\r\nBBBB\r\n  -----END CERTIFICATE-----  \r\n");
    let blocks = pem_blocks(&chain);
    assert_eq!(blocks.len(), 2);
    assert_eq!(blocks[0], CERT);
    assert_eq!(blocks[1], "-----BEGIN CERTIFICATE-----\nBBBB\n  -----END CERTIFICATE-----  \n");
}

#[test]
fn pem_chain_without_certificate_is_refused() {
    match load_pem_chain("no certificate here\n", "/etc/ca.pem") {
        Err(m) => assert_eq!(m, "no certificates found in /etc/ca.pem"),
        Ok(_) => panic!("expected an error"),
    }
    let certs = load_pem_chain(CERT, "/etc/ca.pem").unwrap();
    assert_eq!(certs.len(), 1);
}
