//! What happens when a service's process exits: its `on-success` or
//! `on-failure` policy decides between a restart after a backoff delay,
//! settling in a final state, and shutting the daemon down with an exit code.
//! Also the service's timing: kill delay and backoff bounds.
use vstd::prelude::*;

use crate::check::{duration_field_or, duration_or};
use crate::overlord::ServiceState;
use crate::plan::{OnExit, ServiceConfig};

verus! {

/// The kill delay used when none is configured, in milliseconds.
pub const DEFAULT_KILL_DELAY_MS: u64 = 5000;

/// The first restart delay used when none is configured, in milliseconds.
pub const DEFAULT_BACKOFF_DELAY_MS: u64 = 500;

/// The longest restart delay used when none is configured, in milliseconds.
pub const DEFAULT_BACKOFF_LIMIT_MS: u64 = 30000;

/// The daemon's exit code for `failure-shutdown`.
pub const FAILURE_EXIT_CODE: i32 = 10;

/// The effective timing of a service, in milliseconds.
#[derive(Clone, Copy, Debug, PartialEq, Eq, Structural)]
pub struct ServiceTiming {
    /// How long a stopping service may take before it is killed.
    pub kill_delay_ms: u64,
    /// The first delay before a restart.
    pub backoff_delay_ms: u64,
    /// The longest delay before a restart.
    pub backoff_limit_ms: u64,
}

/// The timing of `config`: each configured duration, or its default when it
/// is unset or unreadable.
pub fn service_timing(config: &ServiceConfig) -> (t: ServiceTiming)
    ensures
        t.kill_delay_ms == duration_or(config.kill_delay, DEFAULT_KILL_DELAY_MS as int),
        t.backoff_delay_ms == duration_or(config.backoff_delay, DEFAULT_BACKOFF_DELAY_MS as int),
        t.backoff_limit_ms == duration_or(config.backoff_limit, DEFAULT_BACKOFF_LIMIT_MS as int),
{
    ServiceTiming {
        kill_delay_ms: duration_field_or(&config.kill_delay, DEFAULT_KILL_DELAY_MS),
        backoff_delay_ms: duration_field_or(&config.backoff_delay, DEFAULT_BACKOFF_DELAY_MS),
        backoff_limit_ms: duration_field_or(&config.backoff_limit, DEFAULT_BACKOFF_LIMIT_MS),
    }
}

/// What the supervisor does after a service's process exited on its own.
#[derive(Clone, Copy, Debug, PartialEq, Eq, Structural)]
pub enum ExitAction {
    /// Start the service again after `delay_ms` milliseconds (in backoff).
    Restart { delay_ms: u64 },
    /// Leave the service stopped, in this state.
    Settle(ServiceState),
    /// Stop every service and exit the daemon with `exit_code`.
    Shutdown { exit_code: i32 },
}

/// The policy that applies to an exit: `on-success` for a successful exit,
/// `on-failure` otherwise, `restart` when it is unset.
pub open spec fn exit_policy(on_success: Option<OnExit>, on_failure: Option<OnExit>, success: bool) -> OnExit {
    let p = if success {
        on_success
    } else {
        on_failure
    };
    match p {
        Some(x) => x,
        None => OnExit::Restart,
    }
}

/// The action for an exit under `policy`: a restart waits the current backoff
/// delay, at most the limit; `ignore` leaves the service inactive after a
/// success and failed after a failure; `shutdown` passes on the service's own
/// exit code, `failure-shutdown` exits with 10 and `success-shutdown` with 0.
pub open spec fn exit_action(policy: OnExit, success: bool, exit_code: i32, backoff_ms: u64, limit_ms: u64) -> ExitAction {
    match policy {
        OnExit::Restart => ExitAction::Restart {
            delay_ms: if backoff_ms <= limit_ms {
                backoff_ms
            } else {
                limit_ms
            },
        },
        OnExit::Ignore => ExitAction::Settle(
            if success {
                ServiceState::Inactive
            } else {
                ServiceState::Error
            },
        ),
        OnExit::Shutdown => ExitAction::Shutdown { exit_code },
        OnExit::FailureShutdown => ExitAction::Shutdown { exit_code: FAILURE_EXIT_CODE },
        OnExit::SuccessShutdown => ExitAction::Shutdown { exit_code: 0 },
    }
}

/// Decide what follows a process exit that the supervisor did not ask for:
/// `success` and `exit_code` are the process's, `backoff_ms` the current
/// backoff delay and `limit_ms` its bound.
pub fn on_process_exit(
    on_success: Option<OnExit>,
    on_failure: Option<OnExit>,
    success: bool,
    exit_code: i32,
    backoff_ms: u64,
    limit_ms: u64,
) -> (a: ExitAction)
    ensures
        a == exit_action(exit_policy(on_success, on_failure, success), success, exit_code, backoff_ms, limit_ms),
        ({
            let chosen = if success {
                on_success
            } else {
                on_failure
            };
            let capped = if backoff_ms <= limit_ms {
                backoff_ms
            } else {
                limit_ms
            };
            &&& (chosen is None || chosen == Some(OnExit::Restart)) ==> a == (ExitAction::Restart { delay_ms: capped })
            &&& (chosen == Some(OnExit::Ignore) && success) ==> a == ExitAction::Settle(ServiceState::Inactive)
            &&& (chosen == Some(OnExit::Ignore) && !success) ==> a == ExitAction::Settle(ServiceState::Error)
            &&& chosen == Some(OnExit::Shutdown) ==> a == (ExitAction::Shutdown { exit_code })
            &&& chosen == Some(OnExit::FailureShutdown) ==> a == (ExitAction::Shutdown { exit_code: 10 })
            &&& chosen == Some(OnExit::SuccessShutdown) ==> a == (ExitAction::Shutdown { exit_code: 0 })
        }),
{
    proof {
        law_exit_follows_policy(on_success, on_failure, success, exit_code, backoff_ms, limit_ms);
    }
    let p = if success {
        on_success
    } else {
        on_failure
    };
    let policy = match p {
        Some(x) => x,
        None => OnExit::Restart,
    };
    match policy {
        OnExit::Restart => ExitAction::Restart { delay_ms: if backoff_ms <= limit_ms { backoff_ms } else { limit_ms } },
        OnExit::Ignore => ExitAction::Settle(
            if success {
                ServiceState::Inactive
            } else {
                ServiceState::Error
            },
        ),
        OnExit::Shutdown => ExitAction::Shutdown { exit_code },
        OnExit::FailureShutdown => ExitAction::Shutdown { exit_code: FAILURE_EXIT_CODE },
        OnExit::SuccessShutdown => ExitAction::Shutdown { exit_code: 0 },
    }
}

/// A restart never waits longer than the limit, and a shutdown after a
/// service's own exit with policy `shutdown` propagates its exit code.
pub proof fn law_exit_bounds(
    on_success: Option<OnExit>,
    on_failure: Option<OnExit>,
    success: bool,
    exit_code: i32,
    backoff_ms: u64,
    limit_ms: u64,
)
    ensures
        exit_action(exit_policy(on_success, on_failure, success), success, exit_code, backoff_ms, limit_ms) matches ExitAction::Restart {
            delay_ms,
        } ==> delay_ms <= limit_ms,
        exit_policy(on_success, on_failure, success) == OnExit::Shutdown ==> exit_action(
            exit_policy(on_success, on_failure, success),
            success,
            exit_code,
            backoff_ms,
            limit_ms,
        ) == (ExitAction::Shutdown { exit_code }),
{
}

/// A successful exit follows `on-success` and a failed one `on-failure`,
/// each `restart` when unset: a restart waits the backoff delay capped at
/// the limit; `ignore` leaves the service inactive after a success and failed
/// after a failure; `shutdown` ends the daemon with the service's own exit
/// code, `failure-shutdown` with 10 and `success-shutdown` with 0.
pub proof fn law_exit_follows_policy(
    on_success: Option<OnExit>,
    on_failure: Option<OnExit>,
    success: bool,
    exit_code: i32,
    backoff_ms: u64,
    limit_ms: u64,
)
    ensures
        ({
            let a = exit_action(exit_policy(on_success, on_failure, success), success, exit_code, backoff_ms, limit_ms);
            let chosen = if success {
                on_success
            } else {
                on_failure
            };
            let capped = if backoff_ms <= limit_ms {
                backoff_ms
            } else {
                limit_ms
            };
            &&& (chosen is None || chosen == Some(OnExit::Restart)) ==> a == (ExitAction::Restart { delay_ms: capped })
            &&& (chosen == Some(OnExit::Ignore) && success) ==> a == ExitAction::Settle(ServiceState::Inactive)
            &&& (chosen == Some(OnExit::Ignore) && !success) ==> a == ExitAction::Settle(ServiceState::Error)
            &&& chosen == Some(OnExit::Shutdown) ==> a == (ExitAction::Shutdown { exit_code })
            &&& chosen == Some(OnExit::FailureShutdown) ==> a == (ExitAction::Shutdown { exit_code: 10 })
            &&& chosen == Some(OnExit::SuccessShutdown) ==> a == (ExitAction::Shutdown { exit_code: 0 })
        }),
{
}

} // verus!
