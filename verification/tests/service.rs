use vigild::overlord::ServiceState;
use vigild::plan::{OnExit, ServiceConfig, Startup};
use vigild::service::{on_process_exit, service_timing, ExitAction};

fn config() -> ServiceConfig {
    ServiceConfig {
        command: "sleep 1".to_string(),
        startup: Startup::Enabled,
        after: vec![],
        before: vec![],
        requires: vec![],
        environment: vec![],
        user: None,
        user_id: None,
        group: None,
        group_id: None,
        working_dir: None,
        stop_signal: None,
        kill_delay: None,
        backoff_delay: None,
        backoff_limit: None,
        on_success: None,
        on_failure: None,
        on_check_failure: vec![],
    }
}

#[test]
fn timing_defaults_and_configured_values() {
    let mut c = config();
    let t = service_timing(&c);
    assert_eq!((t.kill_delay_ms, t.backoff_delay_ms, t.backoff_limit_ms), (5000, 500, 30000));
    c.kill_delay = Some("10s".to_string());
    c.backoff_delay = Some("1s".to_string());
    c.backoff_limit = Some("bogus".to_string());
    let t = service_timing(&c);
    assert_eq!((t.kill_delay_ms, t.backoff_delay_ms, t.backoff_limit_ms), (10000, 1000, 30000));
}

#[test]
fn unset_policy_restarts_with_capped_backoff() {
    assert_eq!(on_process_exit(None, None, true, 0, 500, 30000), ExitAction::Restart { delay_ms: 500 });
    assert_eq!(on_process_exit(None, None, false, 3, 64000, 30000), ExitAction::Restart { delay_ms: 30000 });
}

#[test]
fn ignore_settles_by_outcome() {
    let ig = Some(OnExit::Ignore);
    assert_eq!(on_process_exit(ig, ig, true, 0, 500, 30000), ExitAction::Settle(ServiceState::Inactive));
    assert_eq!(on_process_exit(ig, ig, false, 1, 500, 30000), ExitAction::Settle(ServiceState::Error));
}

#[test]
fn shutdown_policies_choose_the_exit_code() {
    assert_eq!(on_process_exit(None, Some(OnExit::Shutdown), false, 42, 500, 30000), ExitAction::Shutdown { exit_code: 42 });
    assert_eq!(on_process_exit(None, Some(OnExit::FailureShutdown), false, 42, 500, 30000), ExitAction::Shutdown { exit_code: 10 });
    assert_eq!(on_process_exit(Some(OnExit::SuccessShutdown), None, true, 0, 500, 30000), ExitAction::Shutdown { exit_code: 0 });
    // on-success applies to a success only
    assert_eq!(on_process_exit(Some(OnExit::SuccessShutdown), None, false, 1, 500, 30000), ExitAction::Restart { delay_ms: 500 });
}
