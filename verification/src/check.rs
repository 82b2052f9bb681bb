//! Health checks: the timing settings of a check, the state machine that turns
//! probe outcomes into status transitions, and the choice of probe.
use vstd::prelude::*;

use crate::alert::CheckStatus;
use crate::duration::{duration_spec, parse_duration_millis};
use crate::kv::{copy_pairs, extend_exec, extend_pairs, law_extend_lookup, lookup, pairs_view};
use crate::plan::{find_name, find_named, CheckConfig, CheckLevel, ExecCheck, ServiceConfig, TcpCheck};
use crate::process_util::{resolution_ok, resolve_gid, resolve_uid, IdDatabase, IdError};
use crate::text::{
    clone_opt, concat, decimal, decimal_text, occurs_at_exec, opt_view, str_chars, string_from_chars,
    string_of, strings_view, trim, trim_bounds,
};

verus! {

/// Period between probes when none is configured (10 s).
pub const DEFAULT_PERIOD_MS: u64 = 10000;

/// Probe timeout when none is configured (3 s).
pub const DEFAULT_TIMEOUT_MS: u64 = 3000;

/// Consecutive failures that take a check down when none is configured.
pub const DEFAULT_THRESHOLD: u32 = 3;

/// Wait before the first probe when none is configured (3 s).
pub const DEFAULT_CHECK_DELAY_MS: u64 = 3000;

// ---------------------------------------------------------------------------
// Settings
// ---------------------------------------------------------------------------

/// The milliseconds that an optional duration field gives, or `default` where
/// the field is unset or does not parse.
pub open spec fn duration_or(field: Option<String>, default: int) -> int {
    match field {
        Some(s) => match duration_spec(s@) {
            Ok(ms) => ms,
            Err(_) => default,
        },
        None => default,
    }
}

/// The effective timing of a check.
#[derive(Clone, Copy, Debug, PartialEq, Eq, Structural)]
pub struct CheckSettings {
    pub period_ms: u64,
    pub timeout_ms: u64,
    pub threshold: u32,
    pub delay_ms: u64,
}

pub(crate) fn duration_field_or(field: &Option<String>, default: u64) -> (ms: u64)
    ensures
        ms == duration_or(*field, default as int),
{
    match field {
        Some(s) => match parse_duration_millis(s.as_str()) {
            Ok(ms) => ms,
            Err(_) => default,
        },
        None => default,
    }
}

/// The timing of a check: each duration falls back to its default when unset
/// or unparsable, and the timeout never exceeds the period.
pub fn check_settings(config: &CheckConfig) -> (s: CheckSettings)
    ensures
        s.period_ms == duration_or(config.period, DEFAULT_PERIOD_MS as int),
        s.timeout_ms == (if duration_or(config.timeout, DEFAULT_TIMEOUT_MS as int) <= s.period_ms {
            duration_or(config.timeout, DEFAULT_TIMEOUT_MS as int)
        } else {
            s.period_ms as int
        }),
        s.threshold == (match config.threshold {
            Some(t) => t,
            None => DEFAULT_THRESHOLD,
        }),
        s.delay_ms == duration_or(config.delay, DEFAULT_CHECK_DELAY_MS as int),
        s.timeout_ms <= s.period_ms,
        config.period is None ==> s.period_ms == 10000,
        config.threshold is None ==> s.threshold == 3,
{
    let period_ms = duration_field_or(&config.period, DEFAULT_PERIOD_MS);
    let timeout_ms = duration_field_or(&config.timeout, DEFAULT_TIMEOUT_MS);
    let timeout_ms = if timeout_ms <= period_ms {
        timeout_ms
    } else {
        period_ms
    };
    let threshold = match config.threshold {
        Some(t) => t,
        None => DEFAULT_THRESHOLD,
    };
    let delay_ms = duration_field_or(&config.delay, DEFAULT_CHECK_DELAY_MS);
    CheckSettings { period_ms, timeout_ms, threshold, delay_ms }
}

// ---------------------------------------------------------------------------
// Status reports
// ---------------------------------------------------------------------------

/// What a check reports about itself.
#[derive(Debug)]
pub struct CheckInfo {
    pub name: String,
    pub level: CheckLevel,
    pub status: CheckStatus,
    pub failures: u32,
    pub threshold: u32,
    /// Whole seconds until the next probe; unknown before the first probe.
    pub next_run_in_secs: Option<u64>,
}

// ---------------------------------------------------------------------------
// The check state machine
// ---------------------------------------------------------------------------

/// The state of a running check.
#[derive(Clone, Copy, Debug, PartialEq, Eq, Structural)]
pub struct CheckActor {
    pub status: CheckStatus,
    /// Consecutive failed probes.
    pub failures: u32,
    pub threshold: u32,
    /// No probe has completed yet.
    pub first_run: bool,
}

/// What the owner of a check does after a probe.
#[derive(Debug)]
pub struct ProbeEffects {
    /// The probe succeeded (the success counter is bumped, else the failure one).
    pub success: bool,
    /// New value of the check's up gauge, where it changes.
    pub set_up: Option<bool>,
    /// Status events to send, in order.
    pub events: Vec<CheckStatus>,
}

/// The state after a probe whose outcome is `ok`.
pub open spec fn after_probe(a: CheckActor, ok: bool) -> CheckActor {
    if ok {
        CheckActor { status: CheckStatus::Up, failures: 0, threshold: a.threshold, first_run: false }
    } else {
        let failures = if a.failures < u32::MAX { (a.failures + 1) as u32 } else { a.failures };
        CheckActor {
            status: if failures >= a.threshold { CheckStatus::Down } else { a.status },
            failures,
            threshold: a.threshold,
            first_run: false,
        }
    }
}

/// The gauge change that a probe causes: only a change of status moves it.
pub open spec fn gauge_change(a: CheckActor, ok: bool) -> Option<bool> {
    let b = after_probe(a, ok);
    if b.status != a.status {
        Some(b.status == CheckStatus::Up)
    } else {
        None
    }
}

/// The events that a probe causes: one for a change of status, and on the first
/// probe one more that reports the status reached.
pub open spec fn probe_events(a: CheckActor, ok: bool) -> Seq<CheckStatus> {
    let b = after_probe(a, ok);
    let changed: Seq<CheckStatus> = if b.status != a.status { seq![b.status] } else { seq![] };
    if a.first_run { changed.push(b.status) } else { changed }
}

impl CheckActor {
    /// A check that starts in `initial` status and has not probed yet.
    pub fn new(initial: CheckStatus, threshold: u32) -> (a: CheckActor)
        ensures
            a == (CheckActor { status: initial, failures: 0, threshold, first_run: true }),
    {
        CheckActor { status: initial, failures: 0, threshold, first_run: true }
    }

    /// The value of the up gauge when the check starts probing.
    pub fn initial_gauge(&self) -> (up: bool)
        ensures
            up == (self.status == CheckStatus::Up),
    {
        match self.status {
            CheckStatus::Up => true,
            CheckStatus::Down => false,
        }
    }

    /// Record the outcome of a probe.
    pub fn on_probe(&mut self, ok: bool) -> (e: ProbeEffects)
        ensures
            *final(self) == after_probe(*old(self), ok),
            e.success == ok,
            e.set_up == gauge_change(*old(self), ok),
            e.events@ == probe_events(*old(self), ok),
    {
        let before = *self;
        let mut events: Vec<CheckStatus> = Vec::new();
        let mut set_up: Option<bool> = None;
        if ok {
            match self.status {
                CheckStatus::Down => {
                    self.status = CheckStatus::Up;
                    set_up = Some(true);
                    events.push(CheckStatus::Up);
                },
                CheckStatus::Up => {},
            }
            self.failures = 0;
        } else {
            self.failures = self.failures.saturating_add(1);
            if self.failures >= self.threshold {
                match self.status {
                    CheckStatus::Up => {
                        self.status = CheckStatus::Down;
                        set_up = Some(false);
                        events.push(CheckStatus::Down);
                    },
                    CheckStatus::Down => {},
                }
            }
        }
        if self.first_run {
            events.push(self.status);
            self.first_run = false;
        }
        proof {
            assert(events@ =~= probe_events(before, ok));
        }
        ProbeEffects { success: ok, set_up, events }
    }

    /// The report of a running check.
    pub fn info(&self, name: String, level: CheckLevel, next_run_in_secs: Option<u64>) -> (i: CheckInfo)
        ensures
            i.name == name,
            i.level == level,
            i.status == self.status,
            i.failures == self.failures,
            i.threshold == self.threshold,
            i.next_run_in_secs == next_run_in_secs,
    {
        CheckInfo {
            name,
            level,
            status: self.status,
            failures: self.failures,
            threshold: self.threshold,
            next_run_in_secs,
        }
    }
}

/// The report of a check that is still waiting for its first probe: up, with no
/// failures and no time of next probe.
pub fn delay_info(name: String, config: &CheckConfig) -> (i: CheckInfo)
    ensures
        i.name == name,
        i.level == config.level,
        i.status == CheckStatus::Up,
        i.failures == 0,
        i.threshold == (match config.threshold {
            Some(t) => t,
            None => DEFAULT_THRESHOLD,
        }),
        i.next_run_in_secs is None,
{
    let threshold = match config.threshold {
        Some(t) => t,
        None => DEFAULT_THRESHOLD,
    };
    CheckInfo {
        name,
        level: config.level,
        status: CheckStatus::Up,
        failures: 0,
        threshold,
        next_run_in_secs: None,
    }
}

// ---------------------------------------------------------------------------
// Runs of probes
// ---------------------------------------------------------------------------

/// The state after the probes `outcomes`, in order.
pub open spec fn after_probes(a: CheckActor, outcomes: Seq<bool>) -> CheckActor
    decreases outcomes.len(),
{
    if outcomes.len() == 0 {
        a
    } else {
        after_probe(after_probes(a, outcomes.drop_last()), outcomes.last())
    }
}

/// A run of `n` failed probes.
pub open spec fn failed_probes(n: nat) -> Seq<bool> {
    Seq::new(n, |i: int| false)
}

proof fn lemma_failed_run(a: CheckActor, n: nat)
    requires
        a.failures as int + n <= u32::MAX,
    ensures
        after_probes(a, failed_probes(n)).failures == a.failures + n,
        after_probes(a, failed_probes(n)).threshold == a.threshold,
        n > 0 ==> !after_probes(a, failed_probes(n)).first_run,
        after_probes(a, failed_probes(n)).status == (if n > 0 && a.failures + n >= a.threshold {
            CheckStatus::Down
        } else {
            a.status
        }),
    decreases n,
{
    if n > 0 {
        assert(failed_probes(n).drop_last() =~= failed_probes((n - 1) as nat));
        lemma_failed_run(a, (n - 1) as nat);
    } else {
        assert(failed_probes(n) =~= Seq::<bool>::empty());
    }
}

/// A check goes down once its consecutive failures reach the threshold: from
/// any state, `threshold - failures` failed probes (at least one) leave it down
/// with exactly `threshold` failures.
pub proof fn law_threshold_failures_bring_down(a: CheckActor, n: nat)
    requires
        n >= 1,
        a.failures + n == a.threshold,
    ensures
        after_probes(a, failed_probes(n)).status == CheckStatus::Down,
        after_probes(a, failed_probes(n)).failures == a.threshold,
{
    lemma_failed_run(a, n);
}

/// Below the threshold a check keeps its status: failed probes that leave the
/// count under the threshold change nothing but the count.
pub proof fn law_below_threshold_keeps_status(a: CheckActor, n: nat)
    requires
        a.failures + n < a.threshold,
    ensures
        after_probes(a, failed_probes(n)).status == a.status,
        after_probes(a, failed_probes(n)).failures == a.failures + n,
{
    lemma_failed_run(a, n);
}

/// One successful probe brings any check up with no failures.
pub proof fn law_success_recovers(a: CheckActor)
    ensures
        after_probe(a, true).status == CheckStatus::Up,
        after_probe(a, true).failures == 0,
{
}

/// After its first probe a check sends an event only when its status changes,
/// and then the event names the new status.
pub proof fn law_events_only_on_change(a: CheckActor, ok: bool)
    requires
        !a.first_run,
    ensures
        probe_events(a, ok).len() <= 1,
        probe_events(a, ok).len() == 1 <==> after_probe(a, ok).status != a.status,
        probe_events(a, ok).len() == 1 ==> probe_events(a, ok)[0] == after_probe(a, ok).status,
{
}

/// The first probe always reports the status it reaches, last.
pub proof fn law_first_probe_reports(a: CheckActor, ok: bool)
    requires
        a.first_run,
    ensures
        probe_events(a, ok).len() >= 1,
        probe_events(a, ok).last() == after_probe(a, ok).status,
        !after_probe(a, ok).first_run,
{
}

/// The gauge always follows the status: applying the gauge change of every
/// probe to the initial gauge gives `status == Up` after any run of probes.
pub open spec fn gauge_after(a: CheckActor, outcomes: Seq<bool>) -> bool
    decreases outcomes.len(),
{
    if outcomes.len() == 0 {
        a.status == CheckStatus::Up
    } else {
        match gauge_change(after_probes(a, outcomes.drop_last()), outcomes.last()) {
            Some(up) => up,
            None => gauge_after(a, outcomes.drop_last()),
        }
    }
}

/// The up gauge tracks the status through every run of probes.
pub proof fn law_gauge_tracks_status(a: CheckActor, outcomes: Seq<bool>)
    ensures
        gauge_after(a, outcomes) == (after_probes(a, outcomes).status == CheckStatus::Up),
    decreases outcomes.len(),
{
    if outcomes.len() > 0 {
        law_gauge_tracks_status(a, outcomes.drop_last());
    }
}

// ---------------------------------------------------------------------------
// Choice of probe
// ---------------------------------------------------------------------------

/// The probe that a check runs.
pub enum ProbeChoice {
    Http,
    /// Connect to `address` (`host:port`).
    Tcp { address: String },
    Exec,
    /// No probe is configured: the check always passes.
    Pass,
}

/// The address that a TCP probe connects to; the host defaults to `localhost`.
pub open spec fn tcp_address_text(t: TcpCheck) -> Seq<char> {
    let host = match opt_view(t.host) {
        Some(h) => h,
        None => "localhost"@,
    };
    host + ":"@ + decimal_text(t.port as nat)
}

/// The address that a TCP probe connects to.
pub fn tcp_address(t: &TcpCheck) -> (a: String)
    ensures
        a@ == tcp_address_text(*t),
{
    let host: &str = match &t.host {
        Some(h) => h.as_str(),
        None => "localhost",
    };
    let with_colon = concat(host, ":");
    let port = decimal(t.port as u64);
    concat(with_colon.as_str(), port.as_str())
}

/// Which probe a check runs: HTTP before TCP before exec; none means pass.
pub fn probe_choice(config: &CheckConfig) -> (p: ProbeChoice)
    ensures
        config.http is Some ==> p is Http,
        config.http is None && config.tcp is Some ==> (p matches ProbeChoice::Tcp { address }
            && address@ == tcp_address_text(config.tcp->0)),
        config.http is None && config.tcp is None && config.exec_check is Some ==> p is Exec,
        config.http is None && config.tcp is None && config.exec_check is None ==> p is Pass,
{
    if config.http.is_some() {
        ProbeChoice::Http
    } else {
        match &config.tcp {
            Some(t) => ProbeChoice::Tcp { address: tcp_address(t) },
            None => if config.exec_check.is_some() {
                ProbeChoice::Exec
            } else {
                ProbeChoice::Pass
            },
        }
    }
}

/// Whether an HTTP status passes: any 2xx by default, else only the listed ones.
pub open spec fn status_passes(status: u16, success_statuses: Seq<u16>) -> bool {
    if success_statuses.len() == 0 {
        200 <= status <= 299
    } else {
        success_statuses.contains(status)
    }
}

/// Whether an HTTP probe that got `status` passes.
pub fn http_status_passes(status: u16, success_statuses: &Vec<u16>) -> (b: bool)
    ensures
        b == status_passes(status, success_statuses@),
{
    if success_statuses.len() == 0 {
        return 200 <= status && status <= 299;
    }
    let mut i: usize = 0;
    while i < success_statuses.len()
        invariant
            i <= success_statuses.len(),
            forall|k: int| 0 <= k < i ==> success_statuses@[k] != status,
        decreases success_statuses.len() - i,
    {
        if success_statuses[i] == status {
            assert(success_statuses@[i as int] == status);
            return true;
        }
        i = i + 1;
    }
    false
}

// ---------------------------------------------------------------------------
// Exec probes
// ---------------------------------------------------------------------------

/// The service whose settings an exec probe inherits, if it names one that exists.
pub open spec fn context_service(e: ExecCheck, services: Seq<(String, ServiceConfig)>) -> Option<ServiceConfig> {
    match e.service_context {
        Some(n) => match find_name(services, n@) {
            Some(k) => Some(services[k].1),
            None => None,
        },
        None => None,
    }
}

/// The check's own optional setting, else the service's.
pub open spec fn inherit<T>(own: Option<T>, from: Option<T>) -> Option<T> {
    match own {
        Some(v) => Some(v),
        None => from,
    }
}

/// The environment of an exec probe: the context service's, then the check's.
pub open spec fn probe_environment(e: ExecCheck, services: Seq<(String, ServiceConfig)>) -> Seq<(Seq<char>, Seq<char>)> {
    extend_pairs(
        match context_service(e, services) {
            Some(s) => pairs_view(s.environment@),
            None => seq![],
        },
        pairs_view(e.environment@),
    )
}

/// The user name an exec probe runs as.
pub open spec fn probe_user(e: ExecCheck, services: Seq<(String, ServiceConfig)>) -> Option<Seq<char>> {
    inherit(opt_view(e.user), match context_service(e, services) {
        Some(s) => opt_view(s.user),
        None => None,
    })
}

/// The user id an exec probe is configured with.
pub open spec fn probe_user_id(e: ExecCheck, services: Seq<(String, ServiceConfig)>) -> Option<u32> {
    inherit(e.user_id, match context_service(e, services) {
        Some(s) => s.user_id,
        None => None,
    })
}

/// The group name an exec probe runs as.
pub open spec fn probe_group(e: ExecCheck, services: Seq<(String, ServiceConfig)>) -> Option<Seq<char>> {
    inherit(opt_view(e.group), match context_service(e, services) {
        Some(s) => opt_view(s.group),
        None => None,
    })
}

/// The group id an exec probe is configured with.
pub open spec fn probe_group_id(e: ExecCheck, services: Seq<(String, ServiceConfig)>) -> Option<u32> {
    inherit(e.group_id, match context_service(e, services) {
        Some(s) => s.group_id,
        None => None,
    })
}

/// The working directory of an exec probe.
pub open spec fn probe_working_dir(e: ExecCheck, services: Seq<(String, ServiceConfig)>) -> Option<Seq<char>> {
    inherit(opt_view(e.working_dir), match context_service(e, services) {
        Some(s) => opt_view(s.working_dir),
        None => None,
    })
}

/// Where and as whom an exec probe runs.
#[derive(Debug)]
pub struct ExecContext {
    pub command: String,
    /// The service's environment with the check's entries set on top.
    pub environment: Vec<(String, String)>,
    pub user: Option<String>,
    pub user_id: Option<u32>,
    pub group: Option<String>,
    pub group_id: Option<u32>,
    pub working_dir: Option<String>,
}

/// The context of an exec probe: the service named by `service-context`
/// supplies environment, user, group and working directory, and the check's
/// own settings win over it.
pub fn exec_context(e: &ExecCheck, services: &Vec<(String, ServiceConfig)>) -> (c: ExecContext)
    ensures
        c.command@ == e.command@,
        pairs_view(c.environment@) == probe_environment(*e, services@),
        opt_view(c.user) == probe_user(*e, services@),
        c.user_id == probe_user_id(*e, services@),
        opt_view(c.group) == probe_group(*e, services@),
        c.group_id == probe_group_id(*e, services@),
        opt_view(c.working_dir) == probe_working_dir(*e, services@),
        forall|k: int|
            e.service_context is Some && #[trigger] first_named(services@, e.service_context->Some_0@, k) ==> {
                let s = services@[k].1;
                &&& opt_view(c.user) == (if e.user is Some { opt_view(e.user) } else { opt_view(s.user) })
                &&& c.user_id == (if e.user_id is Some { e.user_id } else { s.user_id })
                &&& opt_view(c.group) == (if e.group is Some { opt_view(e.group) } else { opt_view(s.group) })
                &&& c.group_id == (if e.group_id is Some { e.group_id } else { s.group_id })
                &&& opt_view(c.working_dir) == (if e.working_dir is Some {
                    opt_view(e.working_dir)
                } else {
                    opt_view(s.working_dir)
                })
            },
        forall|key: Seq<char>, j: int|
            #![trigger lookup(pairs_view(c.environment@), key), pairs_view(e.environment@)[j]]
            0 <= j < e.environment@.len() && pairs_view(e.environment@)[j].0 == key && (forall|l: int|
                j < l < e.environment@.len() ==> pairs_view(e.environment@)[l].0 != key) ==> lookup(
                pairs_view(c.environment@),
                key,
            ) == Some(pairs_view(e.environment@)[j].1),
        forall|key: Seq<char>, k: int|
            #![trigger lookup(pairs_view(c.environment@), key), first_named(services@, e.service_context->Some_0@, k)]
            !has_key(pairs_view(e.environment@), key) && e.service_context is Some && first_named(
                services@,
                e.service_context->Some_0@,
                k,
            ) ==> lookup(pairs_view(c.environment@), key) == lookup(pairs_view(services@[k].1.environment@), key),
        forall|key: Seq<char>|
            !has_key(pairs_view(e.environment@), key) && e.service_context is None ==> #[trigger] lookup(
                pairs_view(c.environment@),
                key,
            ) is None,
        e.service_context is None ==> {
            &&& opt_view(c.user) == opt_view(e.user)
            &&& c.user_id == e.user_id
            &&& opt_view(c.group) == opt_view(e.group)
            &&& c.group_id == e.group_id
            &&& opt_view(c.working_dir) == opt_view(e.working_dir)
        },
{
    proof {
        law_exec_context_inherits(*e, services@, 0);
        assert forall|k: int|
            e.service_context is Some && #[trigger] first_named(services@, e.service_context->Some_0@, k) implies {
                let s = services@[k].1;
                &&& probe_user(*e, services@) == (if e.user is Some { opt_view(e.user) } else { opt_view(s.user) })
                &&& probe_user_id(*e, services@) == (if e.user_id is Some { e.user_id } else { s.user_id })
                &&& probe_group(*e, services@) == (if e.group is Some { opt_view(e.group) } else { opt_view(s.group) })
                &&& probe_group_id(*e, services@) == (if e.group_id is Some { e.group_id } else { s.group_id })
                &&& probe_working_dir(*e, services@) == (if e.working_dir is Some {
                    opt_view(e.working_dir)
                } else {
                    opt_view(s.working_dir)
                })
            } by {
            law_exec_context_inherits(*e, services@, k);
        }
    }
    let svc: Option<usize> = match &e.service_context {
        Some(n) => find_named(services, n.as_str()),
        None => None,
    };
    let mut environment: Vec<(String, String)> = match svc {
        Some(k) => copy_pairs(&services[k].1.environment),
        None => Vec::new(),
    };
    proof {
        if svc is None {
            assert(pairs_view(environment@) =~= seq![]);
        }
    }
    extend_exec(&mut environment, &e.environment);
    let user = match &e.user {
        Some(u) => Some(u.clone()),
        None => match svc {
            Some(k) => clone_opt(&services[k].1.user),
            None => None,
        },
    };
    let user_id = match e.user_id {
        Some(u) => Some(u),
        None => match svc {
            Some(k) => services[k].1.user_id,
            None => None,
        },
    };
    let group = match &e.group {
        Some(g) => Some(g.clone()),
        None => match svc {
            Some(k) => clone_opt(&services[k].1.group),
            None => None,
        },
    };
    let group_id = match e.group_id {
        Some(g) => Some(g),
        None => match svc {
            Some(k) => services[k].1.group_id,
            None => None,
        },
    };
    let working_dir = match &e.working_dir {
        Some(d) => Some(d.clone()),
        None => match svc {
            Some(k) => clone_opt(&services[k].1.working_dir),
            None => None,
        },
    };
    let ghost env = pairs_view(environment@);
    proof {
        let own = pairs_view(e.environment@);
        assert forall|key: Seq<char>, j: int|
            #![trigger lookup(env, key), own[j]]
            0 <= j < e.environment@.len() && own[j].0 == key && (forall|l: int|
                j < l < e.environment@.len() ==> own[l].0 != key) implies lookup(env, key) == Some(own[j].1) by {
            law_exec_environment(*e, services@, key);
        }
        assert forall|key: Seq<char>, k: int|
            #![trigger lookup(env, key), first_named(services@, e.service_context->Some_0@, k)]
            !has_key(own, key) && e.service_context is Some && first_named(services@, e.service_context->Some_0@, k)
                implies lookup(env, key) == lookup(pairs_view(services@[k].1.environment@), key) by {
            law_exec_environment(*e, services@, key);
        }
        assert forall|key: Seq<char>| !has_key(own, key) && e.service_context is None implies #[trigger] lookup(
            env,
            key,
        ) is None by {
            law_exec_environment(*e, services@, key);
        }
    }
    ExecContext {
        command: e.command.clone(),
        environment,
        user,
        user_id,
        group,
        group_id,
        working_dir,
    }
}

/// An exec probe ready to run: `sh -c command` with the environment, directory
/// and ids given.
#[derive(Debug)]
pub struct ExecLaunch {
    pub command: String,
    pub environment: Vec<(String, String)>,
    pub working_dir: Option<String>,
    pub uid: Option<u32>,
    pub gid: Option<u32>,
}

/// Prepare an exec probe: its context, then the uid and gid it runs as. A user
/// or group that cannot be resolved fails the probe before anything runs.
pub fn exec_launch(e: &ExecCheck, services: &Vec<(String, ServiceConfig)>) -> (r: Result<ExecLaunch, IdError>)
    ensures
        r matches Ok(l) ==> {
            &&& l.command@ == e.command@
            &&& pairs_view(l.environment@) == probe_environment(*e, services@)
            &&& opt_view(l.working_dir) == probe_working_dir(*e, services@)
            &&& resolution_ok(probe_user(*e, services@), probe_user_id(*e, services@), Ok(l.uid))
            &&& resolution_ok(probe_group(*e, services@), probe_group_id(*e, services@), Ok(l.gid))
        },
        r matches Err(err) ==> {
            ||| (err.database == IdDatabase::User && probe_user(*e, services@) == Some(err.name@)
                && resolution_ok(probe_user(*e, services@), probe_user_id(*e, services@), Err(err.kind)))
            ||| (err.database == IdDatabase::Group && probe_group(*e, services@) == Some(err.name@)
                && resolution_ok(probe_group(*e, services@), probe_group_id(*e, services@), Err(err.kind)))
        },
        probe_user(*e, services@) is None && probe_group(*e, services@) is None ==> r is Ok,
{
    let c = exec_context(e, services);
    let user: Option<&str> = match &c.user {
        Some(u) => Some(u.as_str()),
        None => None,
    };
    let uid = match resolve_uid(user, c.user_id) {
        Ok(u) => u,
        Err(err) => {
            return Err(err);
        },
    };
    let group: Option<&str> = match &c.group {
        Some(g) => Some(g.as_str()),
        None => None,
    };
    let gid = match resolve_gid(group, c.group_id) {
        Ok(g) => g,
        Err(err) => {
            return Err(err);
        },
    };
    Ok(ExecLaunch {
        command: c.command,
        environment: c.environment,
        working_dir: c.working_dir,
        uid,
        gid,
    })
}

// ---------------------------------------------------------------------------
// CA certificate chains
// ---------------------------------------------------------------------------

/// A line without the carriage return that ends it, if any.
pub open spec fn strip_cr(l: Seq<char>) -> Seq<char> {
    if l.len() > 0 && l.last() == '\r' {
        l.drop_last()
    } else {
        l
    }
}

/// The lines of `s` that a newline ends, and the unterminated rest.
pub open spec fn lines_acc(s: Seq<char>) -> (Seq<Seq<char>>, Seq<char>)
    decreases s.len(),
{
    if s.len() == 0 {
        (seq![], seq![])
    } else {
        let (ls, cur) = lines_acc(s.drop_last());
        if s.last() == '\n' {
            (ls.push(strip_cr(cur)), seq![])
        } else {
            (ls, cur.push(s.last()))
        }
    }
}

/// The lines of `s` as `str::lines` gives them: split at `\n`, a `\r` before
/// it dropped, and no empty line after a final newline.
pub open spec fn text_lines(s: Seq<char>) -> Seq<Seq<char>> {
    let (ls, cur) = lines_acc(s);
    if cur.len() == 0 {
        ls
    } else {
        ls.push(cur)
    }
}

/// The line that ends a PEM certificate block.
pub open spec fn end_marker() -> Seq<char> {
    "-----END CERTIFICATE-----"@
}

/// The certificate blocks of `lines`, each with its lines newline-terminated,
/// and the lines read since the last block.
pub open spec fn pem_blocks_of(lines: Seq<Seq<char>>) -> (Seq<Seq<char>>, Seq<char>)
    decreases lines.len(),
{
    if lines.len() == 0 {
        (seq![], seq![])
    } else {
        let (bs, cur) = pem_blocks_of(lines.drop_last());
        let l = lines.last();
        let cur2 = cur + l.push('\n');
        if trim(l) == end_marker() {
            (bs.push(cur2), seq![])
        } else {
            (bs, cur2)
        }
    }
}

/// The certificate blocks of a PEM text: every run of lines up to and including
/// a line that reads `-----END CERTIFICATE-----` (blanks around it allowed).
pub open spec fn pem_blocks_spec(pem: Seq<char>) -> Seq<Seq<char>> {
    pem_blocks_of(text_lines(pem)).0
}

/// Add one line to the block being read.
fn feed_line(line: &Vec<char>, end: &Vec<char>, blocks: &mut Vec<String>, block: &mut Vec<char>)
    requires
        end@ == end_marker(),
    ensures
        (strings_view(final(blocks)@), final(block)@) == ({
            let cur2 = old(block)@ + line@.push('\n');
            if trim(line@) == end_marker() {
                (strings_view(old(blocks)@).push(cur2), Seq::<char>::empty())
            } else {
                (strings_view(old(blocks)@), cur2)
            }
        }),
{
    let ghost start = block@;
    let mut i: usize = 0;
    while i < line.len()
        invariant
            i <= line.len(),
            block@ == start + line@.take(i as int),
        decreases line.len() - i,
    {
        block.push(line[i]);
        proof {
            assert(line@.take(i + 1) =~= line@.take(i as int).push(line@[i as int]));
        }
        i = i + 1;
    }
    block.push('\n');
    proof {
        assert(line@.take(line.len() as int) =~= line@);
        assert(block@ =~= start + line@.push('\n'));
    }
    let (lo, hi) = trim_bounds(line);
    let is_end = hi - lo == end.len() && occurs_at_exec(line, lo, end);
    proof {
        if trim(line@) == end_marker() {
            assert(line@.subrange(lo as int, lo + end@.len()) =~= end@);
        }
        if is_end {
            assert(line@.subrange(lo as int, hi as int) =~= end@);
        }
    }
    if is_end {
        let ghost bv = strings_view(blocks@);
        let b = string_from_chars(block);
        blocks.push(b);
        proof {
            assert(strings_view(blocks@) =~= bv.push(start + line@.push('\n')));
        }
        *block = Vec::new();
    }
}

/// The certificate blocks of a PEM text, in order; a partial block at the end
/// is dropped.
pub fn pem_blocks(pem: &str) -> (r: Vec<String>)
    ensures
        strings_view(r@) == pem_blocks_spec(pem@),
{
    let cs = str_chars(pem);
    let end = str_chars("-----END CERTIFICATE-----");
    proof {
        reveal_strlit("-----END CERTIFICATE-----");
    }
    let mut blocks: Vec<String> = Vec::new();
    let mut block: Vec<char> = Vec::new();
    let mut cur: Vec<char> = Vec::new();
    let mut i: usize = 0;
    while i < cs.len()
        invariant
            i <= cs.len(),
            cs@ == pem@,
            end@ == end_marker(),
            lines_acc(cs@.take(i as int)).1 == cur@,
            pem_blocks_of(lines_acc(cs@.take(i as int)).0) == (strings_view(blocks@), block@),
        decreases cs.len() - i,
    {
        let c = cs[i];
        proof {
            assert(cs@.take(i + 1).drop_last() =~= cs@.take(i as int));
            assert(cs@.take(i + 1).last() == c);
        }
        if c == '\n' {
            let line: Vec<char> = if cur.len() > 0 && cur[cur.len() - 1] == '\r' {
                let mut l = cur.clone();
                l.pop();
                l
            } else {
                cur.clone()
            };
            proof {
                assert(line@ == strip_cr(cur@));
                let ls = lines_acc(cs@.take(i as int)).0;
                assert(ls.push(line@).drop_last() =~= ls);
            }
            feed_line(&line, &end, &mut blocks, &mut block);
            cur = Vec::new();
        } else {
            cur.push(c);
        }
        i = i + 1;
    }
    proof {
        assert(cs@.take(cs.len() as int) =~= cs@);
    }
    if cur.len() > 0 {
        proof {
            let ls = lines_acc(cs@).0;
            assert(ls.push(cur@).drop_last() =~= ls);
        }
        feed_line(&cur, &end, &mut blocks, &mut block);
    }
    blocks
}

#[verifier::external_type_specification]
#[verifier::external_body]
pub struct ExCertificate(reqwest::Certificate);

/// The certificate that `reqwest::Certificate::from_pem` makes of the PEM text `block`.
pub uninterp spec fn pem_certificate_of(block: Seq<char>) -> reqwest::Certificate;

/// `reqwest::Certificate::from_pem` on the bytes of `block`. With the rustls
/// backend built here it keeps the bytes and does not fail; the certificate is
/// named after the text it was made of.
#[verifier::external_body]
fn pem_certificate(block: &str) -> (c: Option<reqwest::Certificate>)
    ensures
        c == Some(pem_certificate_of(block@)),
{
    reqwest::Certificate::from_pem(block.as_bytes()).ok()
}

/// The certificates of a PEM chain read from `path`: one per block, in order;
/// a chain without any block is refused.
pub fn load_pem_chain(pem: &str, path: &str) -> (r: Result<Vec<reqwest::Certificate>, String>)
    ensures
        pem_blocks_spec(pem@).len() == 0 ==> (r matches Err(m) && m@ == "no certificates found in "@ + path@),
        pem_blocks_spec(pem@).len() > 0 ==> (r matches Ok(certs) && certs@ == pem_blocks_spec(pem@).map_values(
            |b: Seq<char>| pem_certificate_of(b),
        )),
{
    let blocks = pem_blocks(pem);
    let mut certs: Vec<reqwest::Certificate> = Vec::new();
    let mut i: usize = 0;
    while i < blocks.len()
        invariant
            i <= blocks.len(),
            certs@ == strings_view(blocks@).take(i as int).map_values(|b: Seq<char>| pem_certificate_of(b)),
        decreases blocks.len() - i,
    {
        match pem_certificate(blocks[i].as_str()) {
            Some(c) => certs.push(c),
            None => {
                return Err(concat("invalid PEM block: ", blocks[i].as_str()));
            },
        }
        proof {
            assert(strings_view(blocks@).take(i + 1) =~= strings_view(blocks@).take(i as int).push(blocks@[i as int]@));
            assert(certs@ =~= strings_view(blocks@).take(i + 1).map_values(|b: Seq<char>| pem_certificate_of(b)));
        }
        i = i + 1;
    }
    if certs.len() == 0 {
        return Err(concat("no certificates found in ", path));
    }
    proof {
        assert(strings_view(blocks@).take(blocks.len() as int) =~= strings_view(blocks@));
    }
    Ok(certs)
}

} // verus!

verus! {

/// The number of failed probes at the end of `outcomes`, after its last
/// success (all of them when there is none).
pub open spec fn trailing_failures(outcomes: Seq<bool>) -> nat
    decreases outcomes.len(),
{
    if outcomes.len() == 0 {
        0
    } else if outcomes.last() {
        0
    } else {
        trailing_failures(outcomes.drop_last()) + 1
    }
}

/// `n`, but at most `u32::MAX`: the failure count saturates.
pub open spec fn saturated(n: int) -> int {
    if n > u32::MAX {
        u32::MAX as int
    } else {
        n
    }
}

/// The failure count is the number of consecutive failed probes since the
/// last success; with no success in the run, those failures add to the count
/// the check had before. The count saturates at `u32::MAX`.
pub proof fn law_failures_count_since_last_success(a: CheckActor, outcomes: Seq<bool>)
    ensures
        after_probes(a, outcomes).failures == saturated(
            (if outcomes.contains(true) {
                0
            } else {
                a.failures as int
            }) + trailing_failures(outcomes),
        ),
    decreases outcomes.len(),
{
    if outcomes.len() > 0 {
        let pre = outcomes.drop_last();
        law_failures_count_since_last_success(a, pre);
        if outcomes.last() {
            assert(outcomes[outcomes.len() - 1] == true);
            assert(outcomes.contains(true));
        } else {
            assert(outcomes.contains(true) == pre.contains(true)) by {
                if outcomes.contains(true) {
                    let i = choose|i: int| 0 <= i < outcomes.len() && outcomes[i] == true;
                    assert(i != outcomes.len() - 1);
                    assert(pre[i] == true);
                }
                if pre.contains(true) {
                    let i = choose|i: int| 0 <= i < pre.len() && pre[i] == true;
                    assert(outcomes[i] == true);
                }
            }
        }
    } else {
        assert(!outcomes.contains(true));
    }
}

} // verus!

verus! {

/// Whether `k` is the first service of `services` named `n`.
pub open spec fn first_named(services: Seq<(String, ServiceConfig)>, n: Seq<char>, k: int) -> bool {
    0 <= k < services.len() && services[k].0@ == n && forall|j: int| 0 <= j < k ==> services[j].0@ != n
}

/// An exec probe runs in its service's context: when its `service-context`
/// names a service of the plan (the first of that name), each of user, user
/// id, group, group id and working directory that the check leaves unset is
/// the service's, and each that the check sets is the check's own. Without a
/// service context, or when no service has that name, the check's own
/// settings apply.
pub proof fn law_exec_context_inherits(e: ExecCheck, services: Seq<(String, ServiceConfig)>, k: int)
    ensures
        (e.service_context matches Some(n) && first_named(services, n@, k)) ==> {
            let s = services[k].1;
            &&& probe_user(e, services) == (if e.user is Some { opt_view(e.user) } else { opt_view(s.user) })
            &&& probe_user_id(e, services) == (if e.user_id is Some { e.user_id } else { s.user_id })
            &&& probe_group(e, services) == (if e.group is Some { opt_view(e.group) } else { opt_view(s.group) })
            &&& probe_group_id(e, services) == (if e.group_id is Some { e.group_id } else { s.group_id })
            &&& probe_working_dir(e, services) == (if e.working_dir is Some {
                opt_view(e.working_dir)
            } else {
                opt_view(s.working_dir)
            })
        },
        (e.service_context is None || (e.service_context matches Some(n) && forall|j: int|
            0 <= j < services.len() ==> services[j].0@ != n@)) ==> {
            &&& probe_user(e, services) == opt_view(e.user)
            &&& probe_user_id(e, services) == e.user_id
            &&& probe_group(e, services) == opt_view(e.group)
            &&& probe_group_id(e, services) == e.group_id
            &&& probe_working_dir(e, services) == opt_view(e.working_dir)
        },
{
    if let Some(n) = e.service_context {
        if first_named(services, n@, k) {
            crate::plan::lemma_find_name_found(services, k);
            assert(find_name(services, n@) == Some(k));
        }
        if forall|j: int| 0 <= j < services.len() ==> services[j].0@ != n@ {
            if find_name(services, n@) is Some {
                let m = find_name(services, n@)->Some_0;
                crate::plan::lemma_find_name_in(services, n@);
                assert(services[m].0@ == n@);
            }
        }
    }
}

/// Whether `t` holds an entry with key `key`.
pub open spec fn has_key(t: Seq<(Seq<char>, Seq<char>)>, key: Seq<char>) -> bool {
    exists|j: int| 0 <= j < t.len() && (#[trigger] t[j]).0 == key
}

/// An exec probe's environment: a variable that the check sets has the value
/// of the check's last entry for it; any other has the value that the
/// context service (the first of that name) gives it, and is unset without
/// such a service.
pub proof fn law_exec_environment(e: ExecCheck, services: Seq<(String, ServiceConfig)>, key: Seq<char>)
    ensures
        ({
            let own = pairs_view(e.environment@);
            let env = probe_environment(e, services);
            &&& forall|j: int|
                0 <= j < own.len() && (#[trigger] own[j]).0 == key && (forall|l: int| j < l < own.len() ==> own[l].0 != key)
                    ==> lookup(env, key) == Some(own[j].1)
            &&& !has_key(own, key) ==> forall|k: int|
                e.service_context is Some && #[trigger] first_named(services, e.service_context->Some_0@, k) ==> lookup(
                    env,
                    key,
                ) == lookup(pairs_view(services[k].1.environment@), key)
            &&& (!has_key(own, key) && (e.service_context is None || (e.service_context matches Some(n) && forall|j: int|
                0 <= j < services.len() ==> services[j].0@ != n@))) ==> lookup(env, key) is None
        }),
{
    let own = pairs_view(e.environment@);
    let base = match context_service(e, services) {
        Some(s) => pairs_view(s.environment@),
        None => seq![],
    };
    law_extend_lookup(base, own, key);
    if !has_key(own, key) {
        assert forall|j: int| 0 <= j < own.len() implies (#[trigger] own[j]).0 != key by {}
    }
    if let Some(n) = e.service_context {
        assert forall|k: int| #[trigger] first_named(services, n@, k) implies find_name(services, n@) == Some(k) by {
            crate::plan::lemma_find_name_found(services, k);
        }
        if forall|j: int| 0 <= j < services.len() ==> services[j].0@ != n@ {
            if find_name(services, n@) is Some {
                let m = find_name(services, n@)->Some_0;
                crate::plan::lemma_find_name_in(services, n@);
                assert(services[m].0@ == n@);
            }
        }
    }
    if base.len() == 0 {
        assert(lookup(base, key) is None);
    }
}

} // verus!
