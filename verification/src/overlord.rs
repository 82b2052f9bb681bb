//! The supervisor's decisions: which services may start, what a service state
//! change or a check result sets in motion, what a replan starts and stops, and
//! the record of changes. The owner performs the actions it returns.
use vstd::prelude::*;

use crate::alert::{
    alert_entries, check_event_outcome, copy_strings, default_delivery_age, entries_view, named_alerts_view, status_of,
    subscriptions, AlertConfig, AlertFormat, AlertSender, CheckStatus, DEFAULT_DELIVERY_AGE_SECS,
    DEFAULT_DELIVERY_QUEUE,
};
use crate::duration::{duration_from_millis, duration_spec, parse_duration_millis};
use crate::identity::{contains_name, selected};
use crate::plan::{
    check_config_view, find_name, find_named, fmt_on_exit, lemma_find_name_same_names, names_view, on_exit_text,
    CheckConfig, CheckConfigView, OnExit, Plan, ServiceConfig, Startup,
};
use crate::text::{
    concat, debug_quoted, debug_string, decimal, decimal_text, opt_view, str_equal, string_of, strings_view,
};

verus! {

/// The lifecycle state of a supervised service.
#[derive(Clone, Copy, Debug, PartialEq, Eq, Structural)]
pub enum ServiceState {
    Inactive,
    Active,
    Backoff,
    Stopping,
    Error,
}

impl ServiceState {
    /// Whether the service's process is up.
    pub open spec fn running(self) -> bool {
        self == ServiceState::Active
    }

    /// Whether the service's process is up.
    pub fn is_running(&self) -> (b: bool)
        ensures
            b == self.running(),
    {
        match self {
            ServiceState::Active => true,
            _ => false,
        }
    }
}

/// What the supervisor knows of a service it tracks.
#[derive(Debug)]
pub struct ServiceEntry {
    pub name: String,
    pub state: ServiceState,
    /// When the current state was entered (milliseconds since the epoch).
    pub since_ms: i64,
    pub startup: Startup,
}

/// The position of the first tracked service named `name`.
pub open spec fn entry_index(v: Seq<ServiceEntry>, name: Seq<char>) -> Option<int>
    decreases v.len(),
{
    if v.len() == 0 {
        None
    } else {
        match entry_index(v.drop_last(), name) {
            Some(k) => Some(k),
            None => if v.last().name@ == name {
                Some(v.len() - 1)
            } else {
                None
            },
        }
    }
}

/// Whether the tracked service `name` is running (an untracked one is not).
pub open spec fn is_up(v: Seq<ServiceEntry>, name: Seq<char>) -> bool {
    match entry_index(v, name) {
        Some(k) => v[k].state.running(),
        None => false,
    }
}

/// Whether every ordering dependency of `name` runs: the services its `after:`
/// and `requires:` name, and every other service whose `before:` names it.
/// A service outside the plan has none.
pub open spec fn deps_running(plan: Seq<(String, ServiceConfig)>, v: Seq<ServiceEntry>, name: Seq<char>) -> bool {
    match find_name(plan, name) {
        None => true,
        Some(k) => {
            let c = plan[k].1;
            &&& forall|i: int| 0 <= i < c.after@.len() ==> is_up(v, #[trigger] c.after@[i]@)
            &&& forall|i: int| 0 <= i < c.requires@.len() ==> is_up(v, #[trigger] c.requires@[i]@)
            &&& forall|j: int|
                0 <= j < plan.len() && (#[trigger] plan[j]).0@ != name && names_view(plan[j].1.before@).contains(name)
                    ==> is_up(v, plan[j].0@)
        },
    }
}

proof fn lemma_entry_index_prefix(v: Seq<ServiceEntry>, name: Seq<char>, i: int)
    requires
        0 <= i <= v.len(),
        forall|k: int| 0 <= k < i ==> (#[trigger] v[k]).name@ != name,
    ensures
        entry_index(v.take(i), name) is None,
    decreases i,
{
    if i > 0 {
        assert(v.take(i).drop_last() =~= v.take(i - 1));
        lemma_entry_index_prefix(v, name, i - 1);
    }
}

proof fn lemma_entry_index_extend(v: Seq<ServiceEntry>, name: Seq<char>, i: int)
    requires
        0 <= i < v.len(),
        entry_index(v.take(i + 1), name) is Some,
    ensures
        entry_index(v, name) == entry_index(v.take(i + 1), name),
    decreases v.len() - i,
{
    if i + 1 < v.len() {
        assert(v.take(i + 2).drop_last() =~= v.take(i + 1));
        lemma_entry_index_extend(v, name, i + 1);
    } else {
        assert(v.take(i + 1) =~= v);
    }
}

/// The position of the tracked service `name`.
pub fn find_entry(v: &Vec<ServiceEntry>, name: &str) -> (r: Option<usize>)
    ensures
        r matches Some(k) ==> entry_index(v@, name@) == Some(k as int) && k < v.len(),
        r is None ==> entry_index(v@, name@) is None,
{
    let mut i: usize = 0;
    while i < v.len()
        invariant
            i <= v.len(),
            forall|k: int| 0 <= k < i ==> (#[trigger] v@[k]).name@ != name@,
        decreases v.len() - i,
    {
        if crate::text::str_equal(v[i].name.as_str(), name) {
            proof {
                lemma_entry_index_prefix(v@, name@, i as int);
                assert(v@.take(i + 1).drop_last() =~= v@.take(i as int));
                lemma_entry_index_extend(v@, name@, i as int);
            }
            return Some(i);
        }
        i = i + 1;
    }
    proof {
        lemma_entry_index_prefix(v@, name@, v.len() as int);
        assert(v@.take(v.len() as int) =~= v@);
    }
    None
}

/// Whether the tracked service `name` is running.
pub fn service_up(v: &Vec<ServiceEntry>, name: &str) -> (b: bool)
    ensures
        b == is_up(v@, name@),
{
    match find_entry(v, name) {
        Some(k) => v[k].state.is_running(),
        None => false,
    }
}

fn all_up(v: &Vec<ServiceEntry>, names: &Vec<String>) -> (b: bool)
    ensures
        b == forall|i: int| 0 <= i < names@.len() ==> is_up(v@, #[trigger] names@[i]@),
{
    let mut i: usize = 0;
    while i < names.len()
        invariant
            i <= names.len(),
            forall|k: int| 0 <= k < i ==> is_up(v@, #[trigger] names@[k]@),
        decreases names.len() - i,
    {
        if !service_up(v, names[i].as_str()) {
            return false;
        }
        i = i + 1;
    }
    true
}

/// Whether every ordering dependency of the plan service `name` is running.
pub fn dependencies_running(plan: &Vec<(String, ServiceConfig)>, v: &Vec<ServiceEntry>, name: &str) -> (b: bool)
    ensures
        b == deps_running(plan@, v@, name@),
{
    let k = match find_named(plan, name) {
        Some(k) => k,
        None => {
            return true;
        },
    };
    let c = &plan[k].1;
    if !all_up(v, &c.after) || !all_up(v, &c.requires) {
        return false;
    }
    let mut j: usize = 0;
    while j < plan.len()
        invariant
            j <= plan.len(),
            find_name(plan@, name@) == Some(k as int),
            forall|i: int| 0 <= i < plan@[k as int].1.after@.len() ==> is_up(v@, #[trigger] plan@[k as int].1.after@[i]@),
            forall|i: int| 0 <= i < plan@[k as int].1.requires@.len() ==> is_up(v@, #[trigger] plan@[k as int].1.requires@[i]@),
            forall|i: int|
                0 <= i < j && (#[trigger] plan@[i]).0@ != name@ && names_view(plan@[i].1.before@).contains(name@)
                    ==> is_up(v@, plan@[i].0@),
        decreases plan.len() - j,
    {
        let other = &plan[j];
        if !crate::text::str_equal(other.0.as_str(), name) && contains_name(other.1.before.as_slice(), name) {
            if !service_up(v, other.0.as_str()) {
                proof {
                    assert(names_view(plan@[j as int].1.before@) =~= plan@[j as int].1.before@.map_values(|s: String| s@));
                    let pj = plan@[j as int];
                    assert(pj.0@ != name@ && names_view(pj.1.before@).contains(name@) && !is_up(v@, pj.0@));
                }
                return false;
            }
        }
        proof {
            assert(names_view(plan@[j as int].1.before@) =~= plan@[j as int].1.before@.map_values(|s: String| s@));
        }
        j = j + 1;
    }
    true
}

// ---------------------------------------------------------------------------
// Changes
// ---------------------------------------------------------------------------

/// How a change ended.
#[derive(Clone, Copy, Debug, PartialEq, Eq, Structural)]
pub enum ChangeStatus {
    Done,
    Error,
}

/// A change made through the API.
#[derive(Debug)]
pub struct ChangeInfo {
    pub id: String,
    pub kind: String,
    pub summary: String,
    pub status: ChangeStatus,
    /// When it was made (milliseconds since the epoch).
    pub spawn_time_ms: i64,
    pub ready_time_ms: Option<i64>,
    pub err: Option<String>,
}

// ---------------------------------------------------------------------------
// The supervisor's state
// ---------------------------------------------------------------------------

/// The state the supervisor decides on.
#[derive(Debug)]
pub struct Overlord {
    /// The plan in force.
    pub plan: Plan,
    /// The services with a running actor, in order of creation.
    pub services: Vec<ServiceEntry>,
    /// The checks with a running actor and the configuration each was started with.
    pub checks: Vec<(String, CheckConfig)>,
    /// Every change made through the API, oldest first.
    pub changes: Vec<ChangeInfo>,
    /// The id of the last change.
    pub change_counter: u64,
    /// Services with `startup: enabled` waiting for their dependencies.
    pub pending_autostart: Vec<String>,
    pub alert_sender: AlertSender,
}

// ---------------------------------------------------------------------------
// Service events
// ---------------------------------------------------------------------------

/// What a service actor reports.
#[derive(Clone, Copy, Debug, PartialEq, Eq, Structural)]
pub enum ServiceEventKind {
    StateChanged { new_state: ServiceState },
    ProcessExited { success: bool },
    /// The service's exit policy asks the daemon to exit with `exit_code`.
    DaemonShutdown { exit_code: i32 },
}

/// What the owner does after a service event.
#[derive(Debug)]
pub struct ServiceEventOutcome {
    /// Exit the daemon (after stopping everything) with this code.
    pub exit_code: Option<i32>,
    /// Deferred services to start now, in order.
    pub start: Vec<String>,
    /// Waiting services that a failed dependency blocks (a warning).
    pub blocked: Vec<String>,
    /// Running services to stop because a service they require stopped.
    pub stop: Vec<String>,
}

/// The tracked services after service `name` entered `state` at `now_ms`.
pub open spec fn with_state(v: Seq<ServiceEntry>, name: Seq<char>, state: ServiceState, now_ms: i64) -> Seq<ServiceEntry> {
    match entry_index(v, name) {
        Some(k) => v.update(k, ServiceEntry { state, since_ms: now_ms, ..v[k] }),
        None => v,
    }
}

/// Whether plan service `name` orders itself after, or requires, `dep`.
pub open spec fn waits_for(plan: Seq<(String, ServiceConfig)>, name: Seq<char>, dep: Seq<char>) -> bool {
    match find_name(plan, name) {
        Some(k) => names_view(plan[k].1.after@).contains(dep) || names_view(plan[k].1.requires@).contains(dep),
        None => false,
    }
}

/// The plan services that require `dep` and are running, in plan order.
pub open spec fn dependents_to_stop(plan: Seq<(String, ServiceConfig)>, v: Seq<ServiceEntry>, dep: Seq<char>) -> Seq<Seq<char>>
    decreases plan.len(),
{
    if plan.len() == 0 {
        seq![]
    } else {
        let rest = dependents_to_stop(plan.drop_last(), v, dep);
        let (n, c) = plan.last();
        if names_view(c.requires@).contains(dep) && is_up(v, n@) {
            rest.push(n@)
        } else {
            rest
        }
    }
}

/// Holds of the waiting services whose dependencies all run.
pub open spec fn ready_pred(plan: Seq<(String, ServiceConfig)>, v: Seq<ServiceEntry>) -> spec_fn(Seq<char>) -> bool {
    |n: Seq<char>| deps_running(plan, v, n)
}

/// Holds of the waiting services that still wait.
pub open spec fn waiting_pred(plan: Seq<(String, ServiceConfig)>, v: Seq<ServiceEntry>) -> spec_fn(Seq<char>) -> bool {
    |n: Seq<char>| !deps_running(plan, v, n)
}

/// Holds of the waiting services that wait for `dep`.
pub open spec fn blocked_pred(plan: Seq<(String, ServiceConfig)>, dep: Seq<char>) -> spec_fn(Seq<char>) -> bool {
    |n: Seq<char>| waits_for(plan, n, dep)
}

/// Apply a service event: the new tracked services, the new waiting list, and
/// the outcome as views (exit code, starts, blocked, stops).
pub open spec fn service_event_spec(
    plan: Seq<(String, ServiceConfig)>,
    v: Seq<ServiceEntry>,
    pending: Seq<Seq<char>>,
    service: Seq<char>,
    kind: ServiceEventKind,
    now_ms: i64,
) -> (Seq<ServiceEntry>, Seq<Seq<char>>, Option<i32>, Seq<Seq<char>>, Seq<Seq<char>>, Seq<Seq<char>>) {
    match kind {
        ServiceEventKind::StateChanged { new_state } => {
            let v2 = with_state(v, service, new_state, now_ms);
            let unblock = new_state.running() && pending.len() > 0;
            let start = if unblock {
                pending.filter(ready_pred(plan, v2))
            } else {
                seq![]
            };
            let pending2 = if unblock {
                pending.filter(waiting_pred(plan, v2))
            } else {
                pending
            };
            let blocked = if new_state == ServiceState::Error {
                pending2.filter(blocked_pred(plan, service))
            } else {
                seq![]
            };
            let stop = if new_state == ServiceState::Inactive || new_state == ServiceState::Error {
                dependents_to_stop(plan, v2, service)
            } else {
                seq![]
            };
            (v2, pending2, None, start, blocked, stop)
        },
        ServiceEventKind::ProcessExited { .. } => (v, pending, None, seq![], seq![], seq![]),
        ServiceEventKind::DaemonShutdown { exit_code } => (v, pending, Some(exit_code), seq![], seq![], seq![]),
    }
}

/// Whether plan service `name` waits for `dep`.
fn waits_for_exec(plan: &Vec<(String, ServiceConfig)>, name: &str, dep: &str) -> (b: bool)
    ensures
        b == waits_for(plan@, name@, dep@),
{
    match find_named(plan, name) {
        Some(k) => {
            let r = contains_name(plan[k].1.after.as_slice(), dep) || contains_name(plan[k].1.requires.as_slice(), dep);
            proof {
                assert(names_view(plan@[k as int].1.after@) =~= plan@[k as int].1.after@.map_values(|s: String| s@));
                assert(names_view(plan@[k as int].1.requires@) =~= plan@[k as int].1.requires@.map_values(|s: String| s@));
            }
            r
        },
        None => false,
    }
}

fn dependents_to_stop_exec(plan: &Vec<(String, ServiceConfig)>, v: &Vec<ServiceEntry>, dep: &str) -> (r: Vec<String>)
    ensures
        strings_view(r@) == dependents_to_stop(plan@, v@, dep@),
{
    let mut r: Vec<String> = Vec::new();
    let mut i: usize = 0;
    while i < plan.len()
        invariant
            i <= plan.len(),
            strings_view(r@) == dependents_to_stop(plan@.take(i as int), v@, dep@),
        decreases plan.len() - i,
    {
        proof {
            assert(plan@.take(i + 1).drop_last() =~= plan@.take(i as int));
            assert(names_view(plan@[i as int].1.requires@) =~= plan@[i as int].1.requires@.map_values(|s: String| s@));
        }
        if contains_name(plan[i].1.requires.as_slice(), dep) && service_up(v, plan[i].0.as_str()) {
            let ghost before = r@;
            r.push(plan[i].0.clone());
            proof {
                assert(strings_view(r@) =~= strings_view(before).push(plan@[i as int].0@));
            }
        }
        i = i + 1;
    }
    proof {
        assert(plan@.take(plan.len() as int) =~= plan@);
    }
    r
}

impl Overlord {
    /// Apply a service event. A state change is recorded (with its time); when
    /// a service comes up, waiting services whose dependencies now all run are
    /// started; when one fails, the waiting services that wait for it are
    /// reported; when one stops for good (inactive or failed), the running
    /// services that require it are stopped. A shutdown request of a service's
    /// exit policy is handed on as the daemon's exit code.
    pub fn handle_svc_event(&mut self, service: &str, kind: ServiceEventKind, now_ms: i64) -> (o: ServiceEventOutcome)
        ensures
            ({
                let r = service_event_spec(
                    old(self).plan.services@,
                    old(self).services@,
                    strings_view(old(self).pending_autostart@),
                    service@,
                    kind,
                    now_ms,
                );
                &&& final(self).services@ == r.0
                &&& strings_view(final(self).pending_autostart@) == r.1
                &&& o.exit_code == r.2
                &&& strings_view(o.start@) == r.3
                &&& strings_view(o.blocked@) == r.4
                &&& strings_view(o.stop@) == r.5
            }),
            final(self).plan == old(self).plan,
            final(self).checks == old(self).checks,
            final(self).changes == old(self).changes,
            final(self).change_counter == old(self).change_counter,
            final(self).alert_sender == old(self).alert_sender,
    {
        let new_state = match kind {
            ServiceEventKind::StateChanged { new_state } => new_state,
            ServiceEventKind::ProcessExited { .. } => {
                return ServiceEventOutcome { exit_code: None, start: Vec::new(), blocked: Vec::new(), stop: Vec::new() };
            },
            ServiceEventKind::DaemonShutdown { exit_code } => {
                return ServiceEventOutcome {
                    exit_code: Some(exit_code),
                    start: Vec::new(),
                    blocked: Vec::new(),
                    stop: Vec::new(),
                };
            },
        };
        let ghost v0 = self.services@;
        match find_entry(&self.services, service) {
            Some(k) => {
                let old_entry = self.services.remove(k);
                let updated = ServiceEntry { state: new_state, since_ms: now_ms, ..old_entry };
                self.services.insert(k, updated);
                proof {
                    assert(self.services@ =~= v0.update(
                        k as int,
                        ServiceEntry { state: new_state, since_ms: now_ms, ..v0[k as int] },
                    ));
                }
            },
            None => {},
        }
        assert(self.services@ == with_state(v0, service@, new_state, now_ms));
        let ghost pending0 = strings_view(self.pending_autostart@);
        let mut start: Vec<String> = Vec::new();
        if new_state.is_running() && self.pending_autostart.len() > 0 {
            let mut keep: Vec<String> = Vec::new();
            let mut i: usize = 0;
            while i < self.pending_autostart.len()
                invariant
                    i <= self.pending_autostart.len(),
                    pending0 == strings_view(self.pending_autostart@),
                    strings_view(start@) == pending0.take(i as int).filter(ready_pred(self.plan.services@, self.services@)),
                    strings_view(keep@) == pending0.take(i as int).filter(waiting_pred(self.plan.services@, self.services@)),
                decreases self.pending_autostart.len() - i,
            {
                let name = self.pending_autostart[i].clone();
                proof {
                    reveal(Seq::filter);
                    assert(pending0.take(i + 1).drop_last() =~= pending0.take(i as int));
                    assert(pending0.take(i + 1).last() == name@);
                }
                let ghost sb = start@;
                let ghost kb = keep@;
                if dependencies_running(&self.plan.services, &self.services, name.as_str()) {
                    start.push(name);
                    proof {
                        assert(strings_view(start@) =~= strings_view(sb).push(pending0[i as int]));
                    }
                } else {
                    keep.push(name);
                    proof {
                        assert(strings_view(keep@) =~= strings_view(kb).push(pending0[i as int]));
                    }
                }
                i = i + 1;
            }
            proof {
                reveal(Seq::filter);
                assert(pending0.take(self.pending_autostart.len() as int) =~= pending0);
            }
            self.pending_autostart = keep;
        } else {
            proof {
                assert(strings_view(start@) =~= Seq::<Seq<char>>::empty());
            }
        }
        let mut blocked: Vec<String> = Vec::new();
        let ghost pending1 = strings_view(self.pending_autostart@);
        if new_state == ServiceState::Error {
            let mut i: usize = 0;
            while i < self.pending_autostart.len()
                invariant
                    i <= self.pending_autostart.len(),
                    pending1 == strings_view(self.pending_autostart@),
                    strings_view(blocked@) == pending1.take(i as int).filter(blocked_pred(self.plan.services@, service@)),
                decreases self.pending_autostart.len() - i,
            {
                proof {
                    reveal(Seq::filter);
                    assert(pending1.take(i + 1).drop_last() =~= pending1.take(i as int));
                }
                if waits_for_exec(&self.plan.services, self.pending_autostart[i].as_str(), service) {
                    let ghost bb = blocked@;
                    blocked.push(self.pending_autostart[i].clone());
                    proof {
                        assert(strings_view(blocked@) =~= strings_view(bb).push(pending1[i as int]));
                    }
                }
                i = i + 1;
            }
            proof {
                reveal(Seq::filter);
                assert(pending1.take(self.pending_autostart.len() as int) =~= pending1);
            }
        } else {
            proof {
                assert(strings_view(blocked@) =~= Seq::<Seq<char>>::empty());
            }
        }
        let stop = if new_state == ServiceState::Inactive || new_state == ServiceState::Error {
            dependents_to_stop_exec(&self.plan.services, &self.services, service)
        } else {
            let v: Vec<String> = Vec::new();
            proof {
                assert(strings_view(v@) =~= Seq::<Seq<char>>::empty());
            }
            v
        };
        ServiceEventOutcome { exit_code: None, start, blocked, stop }
    }
}

// ---------------------------------------------------------------------------
// Check events
// ---------------------------------------------------------------------------

/// What the owner does after a check event.
#[derive(Debug)]
pub struct CheckEventOutcome {
    /// Positions in `alert_sender.alerts()` of the alerts that fire.
    pub fired: Vec<usize>,
    /// Services to restart, in order.
    pub restart: Vec<String>,
    /// Exit the daemon (after stopping everything) with this code.
    pub exit_code: Option<i32>,
}

/// The `on-check-failure` actions that a failure of `check` sets off, in plan
/// order: the services to restart, and the exit code of the first shutdown
/// policy met (after which nothing more happens).
pub open spec fn failure_actions(plan: Seq<(String, ServiceConfig)>, check: Seq<char>) -> (Seq<Seq<char>>, Option<i32>)
    decreases plan.len(),
{
    if plan.len() == 0 {
        (seq![], None)
    } else {
        let (restart, exit) = failure_actions(plan.drop_last(), check);
        if exit is Some {
            (restart, exit)
        } else {
            let (n, c) = plan.last();
            match find_name(c.on_check_failure@, check) {
                Some(k) => match c.on_check_failure@[k].1 {
                    OnExit::Restart => (restart.push(n@), None),
                    OnExit::Ignore => (restart, None),
                    OnExit::Shutdown => (restart, Some(10i32)),
                    OnExit::FailureShutdown => (restart, Some(10i32)),
                    OnExit::SuccessShutdown => (restart, Some(0i32)),
                },
                None => (restart, None),
            }
        }
    }
}

impl Overlord {
    /// Apply a check event: the alert sender decides which alerts fire, and a
    /// check that went down sets off the `on-check-failure` policy of every
    /// service that has one for it.
    pub fn handle_check_event(&mut self, check: &str, status: CheckStatus) -> (o: CheckEventOutcome)
        ensures
            ({
                let a = check_event_outcome(
                    old(self).alert_sender.statuses(),
                    subscriptions(old(self).alert_sender.entries()),
                    check@,
                    status,
                );
                &&& final(self).alert_sender.statuses() == a.0
                &&& o.fired@.map_values(|k: usize| k as int) == a.1
            }),
            final(self).alert_sender.entries() == old(self).alert_sender.entries(),
            final(self).alert_sender.depth() == old(self).alert_sender.depth(),
            final(self).alert_sender.max_age() == old(self).alert_sender.max_age(),
            status == CheckStatus::Down ==> (strings_view(o.restart@), o.exit_code) == failure_actions(
                old(self).plan.services@,
                check@,
            ),
            status == CheckStatus::Down ==> (o.exit_code is None <==> none_ends_before(
                old(self).plan.services@,
                check@,
                old(self).plan.services@.len() as int,
            )),
            status == CheckStatus::Down ==> forall|i: int|
                0 <= i < old(self).plan.services@.len() && ends_daemon(
                    #[trigger] check_policy(old(self).plan.services@[i].1, check@),
                ) && none_ends_before(old(self).plan.services@, check@, i) ==> o.exit_code == Some(
                    if check_policy(old(self).plan.services@[i].1, check@) == Some(OnExit::SuccessShutdown) {
                        0i32
                    } else {
                        10i32
                    },
                ),
            status == CheckStatus::Down ==> forall|n: Seq<char>|
                #[trigger] strings_view(o.restart@).contains(n) <==> exists|i: int|
                    0 <= i < old(self).plan.services@.len() && old(self).plan.services@[i].0@ == n && #[trigger] check_policy(
                        old(self).plan.services@[i].1,
                        check@,
                    ) == Some(OnExit::Restart) && none_ends_before(old(self).plan.services@, check@, i),
            status == CheckStatus::Up ==> o.restart@.len() == 0 && o.exit_code is None,
            final(self).plan == old(self).plan,
            final(self).services == old(self).services,
            final(self).checks == old(self).checks,
            final(self).changes == old(self).changes,
            final(self).change_counter == old(self).change_counter,
            final(self).pending_autostart == old(self).pending_autostart,
    {
        proof {
            law_failure_actions(self.plan.services@, check@);
        }
        let fired = self.alert_sender.handle_check_event(check, status);
        let mut restart: Vec<String> = Vec::new();
        match status {
            CheckStatus::Up => {
                return CheckEventOutcome { fired, restart, exit_code: None };
            },
            CheckStatus::Down => {},
        }
        let plan = &self.plan.services;
        let mut exit_code: Option<i32> = None;
        let mut i: usize = 0;
        while i < plan.len()
            invariant
                i <= plan.len(),
                (strings_view(restart@), exit_code) == failure_actions(plan@.take(i as int), check@),
            decreases plan.len() - i,
        {
            proof {
                assert(plan@.take(i + 1).drop_last() =~= plan@.take(i as int));
            }
            if exit_code.is_none() {
                match find_named(&plan[i].1.on_check_failure, check) {
                    Some(k) => match plan[i].1.on_check_failure[k].1 {
                        OnExit::Restart => {
                            let ghost before = restart@;
                            restart.push(plan[i].0.clone());
                            proof {
                                assert(strings_view(restart@) =~= strings_view(before).push(plan@[i as int].0@));
                            }
                        },
                        OnExit::Ignore => {},
                        OnExit::Shutdown => {
                            exit_code = Some(10);
                        },
                        OnExit::FailureShutdown => {
                            exit_code = Some(10);
                        },
                        OnExit::SuccessShutdown => {
                            exit_code = Some(0);
                        },
                    },
                    None => {},
                }
            }
            i = i + 1;
        }
        proof {
            assert(plan@.take(plan.len() as int) =~= plan@);
            let fa = failure_actions(plan@, check@);
            assert(strings_view(restart@) == fa.0);
            assert forall|n: Seq<char>| #[trigger] strings_view(restart@).contains(n) <==> fa.0.contains(n) by {}
        }
        CheckEventOutcome { fired, restart, exit_code }
    }
}

// ---------------------------------------------------------------------------
// Service actions and the change log
// ---------------------------------------------------------------------------

/// What the API asks of a set of services.
#[derive(Clone, Copy, Debug, PartialEq, Eq, Structural)]
pub enum ServiceAction {
    Start,
    Stop,
    Restart,
    Autostart,
    Replan,
}

/// The name of an action, as `{:?}` writes it.
pub open spec fn action_name(action: ServiceAction) -> Seq<char> {
    match action {
        ServiceAction::Start => "Start"@,
        ServiceAction::Stop => "Stop"@,
        ServiceAction::Restart => "Restart"@,
        ServiceAction::Autostart => "Autostart"@,
        ServiceAction::Replan => "Replan"@,
    }
}

/// The kind of change an action makes: its name in lower case.
pub open spec fn action_kind(action: ServiceAction) -> Seq<char> {
    match action {
        ServiceAction::Start => "start"@,
        ServiceAction::Stop => "stop"@,
        ServiceAction::Restart => "restart"@,
        ServiceAction::Autostart => "autostart"@,
        ServiceAction::Replan => "replan"@,
    }
}

/// `items` joined with `sep` between them.
pub open spec fn join(items: Seq<Seq<char>>, sep: Seq<char>) -> Seq<char>
    decreases items.len(),
{
    if items.len() == 0 {
        seq![]
    } else if items.len() == 1 {
        items[0]
    } else {
        join(items.drop_last(), sep) + sep + items.last()
    }
}

/// A list of strings as `{:?}` writes it: `["a", "b"]`.
pub open spec fn debug_list(items: Seq<Seq<char>>) -> Seq<char> {
    "["@ + join(items.map_values(|s: Seq<char>| debug_quoted(s)), ", "@) + "]"@
}

/// The message of each failed service of an action: `name: error`.
pub open spec fn error_lines(errors: Seq<(Seq<char>, Seq<char>)>) -> Seq<Seq<char>> {
    errors.map_values(|e: (Seq<char>, Seq<char>)| e.0 + ": "@ + e.1)
}

/// The view of a change.
pub open spec fn change_view(c: ChangeInfo) -> (Seq<char>, Seq<char>, Seq<char>, ChangeStatus, i64, Option<i64>, Option<Seq<char>>) {
    (c.id@, c.kind@, c.summary@, c.status, c.spawn_time_ms, c.ready_time_ms, match c.err {
        Some(e) => Some(e@),
        None => None,
    })
}

/// The views of a list of changes.
pub open spec fn changes_view(v: Seq<ChangeInfo>) -> Seq<(Seq<char>, Seq<char>, Seq<char>, ChangeStatus, i64, Option<i64>, Option<Seq<char>>)> {
    v.map_values(|c: ChangeInfo| change_view(c))
}

/// The plan services after `autostart` of `targets`: each targeted service
/// (its first entry) is marked `startup: enabled`.
pub open spec fn enable_targets(plan: Seq<(String, ServiceConfig)>, targets: Seq<Seq<char>>) -> Seq<(String, ServiceConfig)> {
    Seq::new(
        plan.len(),
        |j: int|
            if targets.contains(plan[j].0@) && find_name(plan, plan[j].0@) == Some(j) {
                (plan[j].0, ServiceConfig { startup: Startup::Enabled, ..plan[j].1 })
            } else {
                plan[j]
            },
    )
}

fn join_exec(items: &Vec<String>, sep: &str) -> (r: String)
    ensures
        r@ == join(strings_view(items@), sep@),
{
    let mut r = String::new();
    let mut i: usize = 0;
    while i < items.len()
        invariant
            i <= items.len(),
            r@ == join(strings_view(items@).take(i as int), sep@),
        decreases items.len() - i,
    {
        proof {
            assert(strings_view(items@).take(i + 1).drop_last() =~= strings_view(items@).take(i as int));
        }
        if i == 0 {
            r = items[0].clone();
            proof {
                assert(strings_view(items@).take(1)[0] == items@[0]@);
            }
        } else {
            let with_sep = concat(r.as_str(), sep);
            r = concat(with_sep.as_str(), items[i].as_str());
        }
        i = i + 1;
    }
    proof {
        assert(strings_view(items@).take(items.len() as int) =~= strings_view(items@));
    }
    r
}

fn debug_list_exec(items: &Vec<String>) -> (r: String)
    ensures
        r@ == debug_list(strings_view(items@)),
{
    let mut quoted: Vec<String> = Vec::new();
    let mut i: usize = 0;
    while i < items.len()
        invariant
            i <= items.len(),
            strings_view(quoted@) == strings_view(items@).take(i as int).map_values(|s: Seq<char>| debug_quoted(s)),
        decreases items.len() - i,
    {
        let ghost before = quoted@;
        let q = debug_string(items[i].as_str());
        quoted.push(q);
        proof {
            assert(strings_view(quoted@) =~= strings_view(before).push(q@));
            assert(strings_view(items@).take(i + 1) =~= strings_view(items@).take(i as int).push(items@[i as int]@));
            assert(strings_view(quoted@) =~= strings_view(items@).take(i + 1).map_values(|s: Seq<char>| debug_quoted(s)));
        }
        i = i + 1;
    }
    proof {
        assert(strings_view(items@).take(items.len() as int) =~= strings_view(items@));
    }
    let inner = join_exec(&quoted, ", ");
    let open = concat("[", inner.as_str());
    concat(open.as_str(), "]")
}

impl ChangeInfo {
    /// A copy of this change.
    pub fn duplicate(&self) -> (r: ChangeInfo)
        ensures
            change_view(r) == change_view(*self),
    {
        ChangeInfo {
            id: self.id.clone(),
            kind: self.kind.clone(),
            summary: self.summary.clone(),
            status: self.status,
            spawn_time_ms: self.spawn_time_ms,
            ready_time_ms: self.ready_time_ms,
            err: match &self.err {
                Some(e) => Some(e.clone()),
                None => None,
            },
        }
    }
}

impl Overlord {
    /// The services an action applies to: the named ones, or every plan service
    /// when none is named. `autostart` also marks each of them `startup: enabled`
    /// in the plan.
    pub fn action_targets(&mut self, action: ServiceAction, names: Vec<String>) -> (targets: Vec<String>)
        ensures
            strings_view(targets@) == (if names@.len() == 0 {
                names_view(old(self).plan.services@.map_values(|p: (String, ServiceConfig)| p.0))
            } else {
                strings_view(names@)
            }),
            action == ServiceAction::Autostart ==> final(self).plan.services@ == enable_targets(
                old(self).plan.services@,
                strings_view(targets@),
            ),
            action != ServiceAction::Autostart ==> final(self).plan.services == old(self).plan.services,
            final(self).plan.checks == old(self).plan.checks,
            final(self).plan.alerts == old(self).plan.alerts,
            final(self).plan.alert_queue_depth == old(self).plan.alert_queue_depth,
            final(self).plan.alert_max_queue_time == old(self).plan.alert_max_queue_time,
            final(self).services == old(self).services,
            final(self).checks == old(self).checks,
            final(self).changes == old(self).changes,
            final(self).change_counter == old(self).change_counter,
            final(self).pending_autostart == old(self).pending_autostart,
            final(self).alert_sender == old(self).alert_sender,
    {
        let targets: Vec<String> = if names.len() == 0 {
            let mut all: Vec<String> = Vec::new();
            let mut i: usize = 0;
            while i < self.plan.services.len()
                invariant
                    i <= self.plan.services.len(),
                    strings_view(all@) == names_view(
                        self.plan.services@.map_values(|p: (String, ServiceConfig)| p.0),
                    ).take(i as int),
                decreases self.plan.services.len() - i,
            {
                let ghost before = all@;
                let n = self.plan.services[i].0.clone();
                all.push(n);
                proof {
                    assert(strings_view(all@) =~= strings_view(before).push(n@));
                    assert(strings_view(all@) =~= names_view(
                        self.plan.services@.map_values(|p: (String, ServiceConfig)| p.0),
                    ).take(i + 1));
                }
                i = i + 1;
            }
            proof {
                assert(names_view(self.plan.services@.map_values(|p: (String, ServiceConfig)| p.0)).take(
                    self.plan.services.len() as int,
                ) =~= names_view(self.plan.services@.map_values(|p: (String, ServiceConfig)| p.0)));
            }
            all
        } else {
            names
        };
        if action == ServiceAction::Autostart {
            let ghost p0 = self.plan.services@;
            let ghost tv = strings_view(targets@);
            let mut j: usize = 0;
            while j < self.plan.services.len()
                invariant
                    j <= self.plan.services.len(),
                    self.plan.services@.len() == p0.len(),
                    tv == strings_view(targets@),
                    forall|m: int| 0 <= m < j ==> #[trigger] self.plan.services@[m] == enable_targets(p0, tv)[m],
                    forall|m: int| j <= m < p0.len() ==> #[trigger] self.plan.services@[m] == p0[m],
                    self.plan.checks == old(self).plan.checks,
                    self.plan.alerts == old(self).plan.alerts,
                    self.plan.alert_queue_depth == old(self).plan.alert_queue_depth,
                    self.plan.alert_max_queue_time == old(self).plan.alert_max_queue_time,
                    self.services == old(self).services,
                    self.checks == old(self).checks,
                    self.changes == old(self).changes,
                    self.change_counter == old(self).change_counter,
                    self.pending_autostart == old(self).pending_autostart,
                    self.alert_sender == old(self).alert_sender,
                decreases p0.len() - j,
            {
                let ghost pj = self.plan.services@;
                proof {
                    assert forall|m: int| 0 <= m < pj.len() implies (#[trigger] pj[m]).0@ == p0[m].0@ by {
                        if m < j {
                            assert(pj[m] == enable_targets(p0, tv)[m]);
                        } else {
                            assert(pj[m] == p0[m]);
                        }
                    }
                    lemma_find_name_same_names(pj, p0, p0[j as int].0@);
                    assert(pj[j as int] == p0[j as int]);
                }
                let name = self.plan.services[j].0.clone();
                let wanted = contains_name(targets.as_slice(), name.as_str());
                let first = match find_named(&self.plan.services, name.as_str()) {
                    Some(k) => k == j,
                    None => false,
                };
                proof {
                    assert(strings_view(targets@) =~= targets@.map_values(|s: String| s@));
                }
                if wanted && first {
                    let mut entry = self.plan.services.remove(j);
                    entry.1.startup = Startup::Enabled;
                    self.plan.services.insert(j, entry);
                    proof {
                        assert(self.plan.services@ =~= pj.update(
                            j as int,
                            (p0[j as int].0, ServiceConfig { startup: Startup::Enabled, ..p0[j as int].1 }),
                        ));
                    }
                }
                proof {
                    assert(self.plan.services@[j as int] == enable_targets(p0, tv)[j as int]);
                }
                j = j + 1;
            }
            proof {
                assert(self.plan.services@ =~= enable_targets(p0, tv));
            }
        }
        targets
    }

    /// Record the change an action made, now that every target has answered:
    /// the next id, the action's kind and summary, and the failures, if any,
    /// as `name: error` joined by `; `.
    pub fn record_change(
        &mut self,
        action: ServiceAction,
        targets: &Vec<String>,
        errors: &Vec<(String, String)>,
        now_ms: i64,
    ) -> (c: ChangeInfo)
        requires
            old(self).change_counter < u64::MAX,
        ensures
            final(self).change_counter == old(self).change_counter + 1,
            c.id@ == decimal_text(final(self).change_counter as nat),
            c.kind@ == action_kind(action),
            c.summary@ == action_name(action) + " "@ + debug_list(strings_view(targets@)),
            c.status == (if errors@.len() == 0 {
                ChangeStatus::Done
            } else {
                ChangeStatus::Error
            }),
            c.spawn_time_ms == now_ms,
            c.ready_time_ms == Some(now_ms),
            errors@.len() == 0 ==> c.err is None,
            errors@.len() > 0 ==> (c.err matches Some(e) && e@ == join(
                error_lines(crate::kv::pairs_view(errors@)),
                "; "@,
            )),
            changes_view(final(self).changes@) == changes_view(old(self).changes@).push(change_view(c)),
            final(self).plan == old(self).plan,
            final(self).services == old(self).services,
            final(self).checks == old(self).checks,
            final(self).pending_autostart == old(self).pending_autostart,
            final(self).alert_sender == old(self).alert_sender,
    {
        self.change_counter = self.change_counter + 1;
        let id = decimal(self.change_counter);
        let (kind, name): (&str, &str) = match action {
            ServiceAction::Start => ("start", "Start"),
            ServiceAction::Stop => ("stop", "Stop"),
            ServiceAction::Restart => ("restart", "Restart"),
            ServiceAction::Autostart => ("autostart", "Autostart"),
            ServiceAction::Replan => ("replan", "Replan"),
        };
        let list = debug_list_exec(targets);
        let head = concat(name, " ");
        let summary = concat(head.as_str(), list.as_str());
        let (status, err) = if errors.len() == 0 {
            (ChangeStatus::Done, None)
        } else {
            let mut lines: Vec<String> = Vec::new();
            let mut i: usize = 0;
            while i < errors.len()
                invariant
                    i <= errors.len(),
                    strings_view(lines@) == error_lines(crate::kv::pairs_view(errors@)).take(i as int),
                decreases errors.len() - i,
            {
                let a = concat(errors[i].0.as_str(), ": ");
                let l = concat(a.as_str(), errors[i].1.as_str());
                let ghost before = lines@;
                lines.push(l);
                proof {
                    assert(strings_view(lines@) =~= strings_view(before).push(l@));
                    assert(crate::kv::pairs_view(errors@)[i as int] == (errors@[i as int].0@, errors@[i as int].1@));
                    assert(error_lines(crate::kv::pairs_view(errors@)).take(i + 1) =~= error_lines(
                        crate::kv::pairs_view(errors@),
                    ).take(i as int).push(errors@[i as int].0@ + ": "@ + errors@[i as int].1@));
                    assert(strings_view(lines@) =~= error_lines(crate::kv::pairs_view(errors@)).take(i + 1));
                }
                i = i + 1;
            }
            proof {
                assert(error_lines(crate::kv::pairs_view(errors@)).take(errors.len() as int) =~= error_lines(
                    crate::kv::pairs_view(errors@),
                ));
            }
            (ChangeStatus::Error, Some(join_exec(&lines, "; ")))
        };
        let c = ChangeInfo {
            id,
            kind: string_of(kind),
            summary,
            status,
            spawn_time_ms: now_ms,
            ready_time_ms: Some(now_ms),
            err,
        };
        let ghost before = self.changes@;
        self.changes.push(c.duplicate());
        proof {
            assert(changes_view(self.changes@) =~= changes_view(before).push(change_view(c)));
        }
        c
    }

    /// The changes with id `id`, or all of them, oldest first.
    pub fn get_changes(&self, id: Option<&str>) -> (r: Vec<ChangeInfo>)
        ensures
            changes_view(r@) == (match id {
                Some(i) => changes_view(self.changes@).filter(id_pred(i@)),
                None => changes_view(self.changes@),
            }),
    {
        let mut r: Vec<ChangeInfo> = Vec::new();
        let mut k: usize = 0;
        let ghost all = changes_view(self.changes@);
        while k < self.changes.len()
            invariant
                k <= self.changes.len(),
                all == changes_view(self.changes@),
                changes_view(r@) == (match id {
                    Some(i) => all.take(k as int).filter(id_pred(i@)),
                    None => all.take(k as int),
                }),
            decreases self.changes.len() - k,
        {
            proof {
                reveal(Seq::filter);
                assert(all.take(k + 1).drop_last() =~= all.take(k as int));
            }
            let keep = match id {
                Some(i) => str_equal(self.changes[k].id.as_str(), i),
                None => true,
            };
            if keep {
                let ghost before = r@;
                r.push(self.changes[k].duplicate());
                proof {
                    assert(changes_view(r@) =~= changes_view(before).push(all[k as int]));
                }
            }
            k = k + 1;
        }
        proof {
            assert(all.take(self.changes.len() as int) =~= all);
        }
        r
    }
}

/// Holds of the changes with id `id`.
pub open spec fn id_pred(id: Seq<char>) -> spec_fn(
    (Seq<char>, Seq<char>, Seq<char>, ChangeStatus, i64, Option<i64>, Option<Seq<char>>),
) -> bool {
    |c: (Seq<char>, Seq<char>, Seq<char>, ChangeStatus, i64, Option<i64>, Option<Seq<char>>)| c.0 == id
}

// ---------------------------------------------------------------------------
// Reports
// ---------------------------------------------------------------------------

/// What the API reports of a service.
#[derive(Debug)]
pub struct ServiceInfo {
    pub name: String,
    pub startup: Startup,
    pub current: ServiceState,
    pub current_since_ms: Option<i64>,
    pub stop_signal: String,
    pub on_success: String,
    pub on_failure: String,
}

/// The view of a service report.
pub open spec fn service_info_view(i: ServiceInfo) -> (Seq<char>, Startup, ServiceState, Option<i64>, Seq<char>, Seq<char>, Seq<char>) {
    (i.name@, i.startup, i.current, i.current_since_ms, i.stop_signal@, i.on_success@, i.on_failure@)
}

/// The text of an optional exit policy; `restart` when unset.
pub open spec fn policy_text(p: Option<OnExit>) -> Seq<char> {
    match p {
        Some(x) => on_exit_text(x),
        None => "restart"@,
    }
}

/// The report of a tracked service: its state from the supervisor, its stop
/// signal (`SIGTERM` when unset) and exit policies (`restart` when unset) from
/// the plan.
pub open spec fn service_info_of(plan: Seq<(String, ServiceConfig)>, e: ServiceEntry) -> (Seq<char>, Startup, ServiceState, Option<i64>, Seq<char>, Seq<char>, Seq<char>) {
    let (stop, ok, fail) = match find_name(plan, e.name@) {
        Some(k) => (
            match opt_view(plan[k].1.stop_signal) {
                Some(s) => s,
                None => "SIGTERM"@,
            },
            policy_text(plan[k].1.on_success),
            policy_text(plan[k].1.on_failure),
        ),
        None => ("SIGTERM"@, "restart"@, "restart"@),
    };
    (e.name@, e.startup, e.state, Some(e.since_ms), stop, ok, fail)
}

/// The reports of the tracked services that `names` selects, in order.
pub open spec fn service_infos(plan: Seq<(String, ServiceConfig)>, v: Seq<ServiceEntry>, names: Seq<Seq<char>>) -> Seq<
    (Seq<char>, Startup, ServiceState, Option<i64>, Seq<char>, Seq<char>, Seq<char>),
>
    decreases v.len(),
{
    if v.len() == 0 {
        seq![]
    } else if selected(names, v.last().name@) {
        service_infos(plan, v.drop_last(), names).push(service_info_of(plan, v.last()))
    } else {
        service_infos(plan, v.drop_last(), names)
    }
}

/// What the API reports of an alert.
#[derive(Debug)]
pub struct AlertInfo {
    pub name: String,
    pub url: String,
    pub format: AlertFormat,
    pub on_check: Vec<String>,
    /// The last status of each subscribed check, if any was seen.
    pub check_status: Vec<(String, Option<CheckStatus>)>,
}

/// The view of an alert report.
pub open spec fn alert_info_view(i: AlertInfo) -> (Seq<char>, Seq<char>, AlertFormat, Seq<Seq<char>>, Seq<(Seq<char>, Option<CheckStatus>)>) {
    (
        i.name@,
        i.url@,
        i.format,
        strings_view(i.on_check@),
        i.check_status@.map_values(|p: (String, Option<CheckStatus>)| (p.0@, p.1)),
    )
}

/// The report of an alert, with the statuses the alert sender has seen.
pub open spec fn alert_info_of(name: Seq<char>, c: AlertConfig, statuses: Seq<(Seq<char>, CheckStatus)>) -> (Seq<char>, Seq<char>, AlertFormat, Seq<Seq<char>>, Seq<(Seq<char>, Option<CheckStatus>)>) {
    (
        name,
        c.url@,
        c.format,
        strings_view(c.on_check@),
        strings_view(c.on_check@).map_values(|k: Seq<char>| (k, status_of(statuses, k))),
    )
}

/// The reports of the plan alerts that `names` selects, in order.
pub open spec fn alert_infos(alerts: Seq<(String, AlertConfig)>, statuses: Seq<(Seq<char>, CheckStatus)>, names: Seq<Seq<char>>) -> Seq<
    (Seq<char>, Seq<char>, AlertFormat, Seq<Seq<char>>, Seq<(Seq<char>, Option<CheckStatus>)>),
>
    decreases alerts.len(),
{
    if alerts.len() == 0 {
        seq![]
    } else if selected(names, alerts.last().0@) {
        alert_infos(alerts.drop_last(), statuses, names).push(
            alert_info_of(alerts.last().0@, alerts.last().1, statuses),
        )
    } else {
        alert_infos(alerts.drop_last(), statuses, names)
    }
}

/// The names of the tracked checks that `names` selects, in order.
pub open spec fn check_names(v: Seq<(String, CheckConfig)>, names: Seq<Seq<char>>) -> Seq<Seq<char>>
    decreases v.len(),
{
    if v.len() == 0 {
        seq![]
    } else if selected(names, v.last().0@) {
        check_names(v.drop_last(), names).push(v.last().0@)
    } else {
        check_names(v.drop_last(), names)
    }
}

fn is_selected(names: &Vec<String>, name: &str) -> (b: bool)
    ensures
        b == selected(strings_view(names@), name@),
{
    let r = names.len() == 0 || contains_name(names.as_slice(), name);
    proof {
        assert(strings_view(names@) =~= names@.map_values(|s: String| s@));
    }
    r
}

impl Overlord {
    /// The report of one tracked service.
    fn service_info(&self, e: &ServiceEntry) -> (i: ServiceInfo)
        ensures
            service_info_view(i) == service_info_of(self.plan.services@, *e),
    {
        let (stop_signal, on_success, on_failure) = match find_named(&self.plan.services, e.name.as_str()) {
            Some(k) => {
                let c = &self.plan.services[k].1;
                let stop = match &c.stop_signal {
                    Some(s) => s.clone(),
                    None => string_of("SIGTERM"),
                };
                let ok = match c.on_success {
                    Some(p) => fmt_on_exit(p),
                    None => string_of("restart"),
                };
                let fail = match c.on_failure {
                    Some(p) => fmt_on_exit(p),
                    None => string_of("restart"),
                };
                (stop, ok, fail)
            },
            None => (string_of("SIGTERM"), string_of("restart"), string_of("restart")),
        };
        ServiceInfo {
            name: e.name.clone(),
            startup: e.startup,
            current: e.state,
            current_since_ms: Some(e.since_ms),
            stop_signal,
            on_success,
            on_failure,
        }
    }

    /// The reports of the tracked services that `names` selects (all of them
    /// when it is empty), in order.
    pub fn get_service_infos(&self, names: &Vec<String>) -> (r: Vec<ServiceInfo>)
        ensures
            r@.map_values(|i: ServiceInfo| service_info_view(i)) == service_infos(
                self.plan.services@,
                self.services@,
                strings_view(names@),
            ),
            r@.map_values(|i: ServiceInfo| service_info_view(i)) == self.services@.filter(
                |e: ServiceEntry| names@.len() == 0 || strings_view(names@).contains(e.name@),
            ).map_values(|e: ServiceEntry| service_info_of(self.plan.services@, e)),
    {
        proof {
            law_service_infos_select(self.plan.services@, self.services@, strings_view(names@));
        }
        let mut r: Vec<ServiceInfo> = Vec::new();
        let mut i: usize = 0;
        while i < self.services.len()
            invariant
                i <= self.services.len(),
                r@.map_values(|x: ServiceInfo| service_info_view(x)) == service_infos(
                    self.plan.services@,
                    self.services@.take(i as int),
                    strings_view(names@),
                ),
            decreases self.services.len() - i,
        {
            proof {
                assert(self.services@.take(i + 1).drop_last() =~= self.services@.take(i as int));
            }
            if is_selected(names, self.services[i].name.as_str()) {
                let info = self.service_info(&self.services[i]);
                let ghost before = r@;
                r.push(info);
                proof {
                    assert(r@.map_values(|x: ServiceInfo| service_info_view(x)) =~= before.map_values(
                        |x: ServiceInfo| service_info_view(x),
                    ).push(service_info_view(info)));
                }
            }
            i = i + 1;
        }
        proof {
            assert(self.services@.take(self.services.len() as int) =~= self.services@);
        }
        r
    }

    /// The reports of the plan alerts that `names` selects (all of them when it
    /// is empty), with the last status seen of each subscribed check.
    pub fn query_alerts(&self, names: &Vec<String>) -> (r: Vec<AlertInfo>)
        ensures
            r@.map_values(|i: AlertInfo| alert_info_view(i)) == alert_infos(
                self.plan.alerts@,
                self.alert_sender.statuses(),
                strings_view(names@),
            ),
            r@.map_values(|i: AlertInfo| alert_info_view(i)) == self.plan.alerts@.filter(
                |a: (String, AlertConfig)| names@.len() == 0 || strings_view(names@).contains(a.0@),
            ).map_values(|a: (String, AlertConfig)| alert_info_of(a.0@, a.1, self.alert_sender.statuses())),
    {
        proof {
            law_alert_infos_select(self.plan.alerts@, self.alert_sender.statuses(), strings_view(names@));
        }
        let alerts = &self.plan.alerts;
        let mut r: Vec<AlertInfo> = Vec::new();
        let mut i: usize = 0;
        while i < alerts.len()
            invariant
                i <= alerts.len(),
                r@.map_values(|x: AlertInfo| alert_info_view(x)) == alert_infos(
                    alerts@.take(i as int),
                    self.alert_sender.statuses(),
                    strings_view(names@),
                ),
            decreases alerts.len() - i,
        {
            proof {
                assert(alerts@.take(i + 1).drop_last() =~= alerts@.take(i as int));
            }
            if is_selected(names, alerts[i].0.as_str()) {
                let c = &alerts[i].1;
                let mut statuses: Vec<(String, Option<CheckStatus>)> = Vec::new();
                let mut k: usize = 0;
                while k < c.on_check.len()
                    invariant
                        k <= c.on_check.len(),
                        statuses@.map_values(|p: (String, Option<CheckStatus>)| (p.0@, p.1)) == strings_view(
                            c.on_check@,
                        ).take(k as int).map_values(
                            |n: Seq<char>| (n, status_of(self.alert_sender.statuses(), n)),
                        ),
                    decreases c.on_check.len() - k,
                {
                    let st = self.alert_sender.check_status(c.on_check[k].as_str());
                    let n = c.on_check[k].clone();
                    let ghost before = statuses@;
                    statuses.push((n, st));
                    proof {
                        assert(statuses@ == before.push((n, st)));
                        assert(statuses@.map_values(|p: (String, Option<CheckStatus>)| (p.0@, p.1)) =~= before.map_values(
                            |p: (String, Option<CheckStatus>)| (p.0@, p.1),
                        ).push((n@, st)));
                        assert(strings_view(c.on_check@).take(k + 1) =~= strings_view(c.on_check@).take(
                            k as int,
                        ).push(c.on_check@[k as int]@));
                        assert(statuses@.map_values(|p: (String, Option<CheckStatus>)| (p.0@, p.1))
                            =~= strings_view(c.on_check@).take(k + 1).map_values(
                            |n: Seq<char>| (n, status_of(self.alert_sender.statuses(), n)),
                        ));
                    }
                    k = k + 1;
                }
                proof {
                    assert(strings_view(c.on_check@).take(c.on_check.len() as int) =~= strings_view(c.on_check@));
                }
                let info = AlertInfo {
                    name: alerts[i].0.clone(),
                    url: c.url.clone(),
                    format: c.format,
                    on_check: copy_strings(&c.on_check),
                    check_status: statuses,
                };
                let ghost before = r@;
                r.push(info);
                proof {
                    assert(r@.map_values(|x: AlertInfo| alert_info_view(x)) =~= before.map_values(
                        |x: AlertInfo| alert_info_view(x),
                    ).push(alert_info_view(info)));
                }
            }
            i = i + 1;
        }
        proof {
            assert(alerts@.take(alerts.len() as int) =~= alerts@);
        }
        r
    }

    /// The names of the tracked checks that `names` selects (all of them when it
    /// is empty), in order: the checks whose status is asked for.
    pub fn checks_to_query(&self, names: &Vec<String>) -> (r: Vec<String>)
        ensures
            strings_view(r@) == check_names(self.checks@, strings_view(names@)),
            strings_view(r@) == self.checks@.filter(
                |p: (String, CheckConfig)| names@.len() == 0 || strings_view(names@).contains(p.0@),
            ).map_values(|p: (String, CheckConfig)| p.0@),
    {
        proof {
            law_check_names_selects(self.checks@, strings_view(names@));
        }
        let mut r: Vec<String> = Vec::new();
        let mut i: usize = 0;
        while i < self.checks.len()
            invariant
                i <= self.checks.len(),
                strings_view(r@) == check_names(self.checks@.take(i as int), strings_view(names@)),
            decreases self.checks.len() - i,
        {
            proof {
                assert(self.checks@.take(i + 1).drop_last() =~= self.checks@.take(i as int));
            }
            if is_selected(names, self.checks[i].0.as_str()) {
                let ghost before = r@;
                let n = self.checks[i].0.clone();
                r.push(n);
                proof {
                    assert(strings_view(r@) =~= strings_view(before).push(n@));
                }
            }
            i = i + 1;
        }
        proof {
            assert(self.checks@.take(self.checks.len() as int) =~= self.checks@);
        }
        r
    }
}

// ---------------------------------------------------------------------------
// Actors for the plan
// ---------------------------------------------------------------------------

proof fn lemma_entry_index(v: Seq<ServiceEntry>, name: Seq<char>)
    ensures
        entry_index(v, name) matches Some(k) ==> 0 <= k < v.len() && v[k].name@ == name,
        entry_index(v, name) is None ==> forall|k: int| 0 <= k < v.len() ==> (#[trigger] v[k]).name@ != name,
    decreases v.len(),
{
    if v.len() > 0 {
        lemma_entry_index(v.drop_last(), name);
        if entry_index(v, name) is None {
            assert forall|k: int| 0 <= k < v.len() implies (#[trigger] v[k]).name@ != name by {
                if k < v.len() - 1 {
                    assert(v.drop_last()[k] == v[k]);
                }
            }
        }
    }
}

/// The value of a tracked service.
pub open spec fn entry_view(e: ServiceEntry) -> (Seq<char>, ServiceState, i64, Startup) {
    (e.name@, e.state, e.since_ms, e.startup)
}

/// The values of the tracked services.
pub open spec fn entries_values(v: Seq<ServiceEntry>) -> Seq<(Seq<char>, ServiceState, i64, Startup)> {
    v.map_values(|e: ServiceEntry| entry_view(e))
}

/// The names of tracked services, given as values.
pub open spec fn value_names(v: Seq<(Seq<char>, ServiceState, i64, Startup)>) -> Seq<Seq<char>> {
    v.map_values(|e: (Seq<char>, ServiceState, i64, Startup)| e.0)
}

/// The tracked services after an actor is started, inactive since `now_ms`,
/// for each plan service without one; and the services started, in plan order.
pub open spec fn synced_services(
    v: Seq<(Seq<char>, ServiceState, i64, Startup)>,
    plan: Seq<(String, ServiceConfig)>,
    now_ms: i64,
) -> (Seq<(Seq<char>, ServiceState, i64, Startup)>, Seq<Seq<char>>)
    decreases plan.len(),
{
    if plan.len() == 0 {
        (v, seq![])
    } else {
        let (t, spawned) = synced_services(v, plan.drop_last(), now_ms);
        let (n, c) = plan.last();
        if value_names(t).contains(n@) {
            (t, spawned)
        } else {
            (t.push((n@, ServiceState::Inactive, now_ms, c.startup)), spawned.push(n@))
        }
    }
}

/// The values of tracked checks.
pub open spec fn checks_values(v: Seq<(String, CheckConfig)>) -> Seq<(Seq<char>, CheckConfigView)> {
    v.map_values(|p: (String, CheckConfig)| (p.0@, check_config_view(p.1)))
}

/// The position of the first entry named `name`.
pub open spec fn key_index(t: Seq<(Seq<char>, CheckConfigView)>, name: Seq<char>) -> Option<int>
    decreases t.len(),
{
    if t.len() == 0 {
        None
    } else {
        match key_index(t.drop_last(), name) {
            Some(k) => Some(k),
            None => if t.last().0 == name {
                Some(t.len() - 1)
            } else {
                None
            },
        }
    }
}

/// The tracked checks after syncing with the plan's checks, the checks whose
/// actor is stopped, and the checks whose actor is started, in plan order. A
/// disabled check is left alone; a check whose configuration changed gets a
/// new actor (moved to the end); a check without an actor gets one.
pub open spec fn synced_checks(
    t: Seq<(Seq<char>, CheckConfigView)>,
    plan: Seq<(Seq<char>, CheckConfigView)>,
) -> (Seq<(Seq<char>, CheckConfigView)>, Seq<Seq<char>>, Seq<Seq<char>>)
    decreases plan.len(),
{
    if plan.len() == 0 {
        (t, seq![], seq![])
    } else {
        let (t2, stopped, spawned) = synced_checks(t, plan.drop_last());
        let (n, c) = plan.last();
        if c.startup == Startup::Disabled {
            (t2, stopped, spawned)
        } else {
            match key_index(t2, n) {
                Some(k) => if t2[k].1 == c {
                    (t2, stopped, spawned)
                } else {
                    (t2.remove(k).push((n, c)), stopped.push(n), spawned.push(n))
                },
                None => (t2.push((n, c)), stopped, spawned.push(n)),
            }
        }
    }
}

/// The status a check's new actor starts in: the last one the alert sender
/// saw, else up.
pub open spec fn initial_status(statuses: Seq<(Seq<char>, CheckStatus)>, name: Seq<char>) -> CheckStatus {
    match status_of(statuses, name) {
        Some(s) => s,
        None => CheckStatus::Up,
    }
}

proof fn lemma_key_index(v: Seq<(String, CheckConfig)>, name: Seq<char>)
    ensures
        key_index(checks_values(v), name) == find_name(v, name),
    decreases v.len(),
{
    if v.len() > 0 {
        assert(checks_values(v).drop_last() =~= checks_values(v.drop_last()));
        lemma_key_index(v.drop_last(), name);
    }
}

/// What the owner starts and stops so that an actor runs for the plan.
#[derive(Debug)]
pub struct SyncActions {
    /// Services to start an actor for, in order.
    pub spawn_services: Vec<String>,
    /// Checks whose actor is shut down because their configuration changed.
    pub stop_checks: Vec<String>,
    /// Checks to start an actor for, with the status it starts in.
    pub spawn_checks: Vec<(String, CheckStatus)>,
}

/// The spawn list of checks, as values.
pub open spec fn spawn_view(v: Seq<(String, CheckStatus)>) -> Seq<(Seq<char>, CheckStatus)> {
    v.map_values(|p: (String, CheckStatus)| (p.0@, p.1))
}

impl Overlord {
    /// Start an actor for every plan service and every enabled plan check that
    /// lacks one, and restart the actor of every check whose configuration
    /// changed. Actors of services and checks that left the plan are kept.
    pub fn sync_actors(&mut self, now_ms: i64) -> (a: SyncActions)
        ensures
            ({
                let (sv, spawned) = synced_services(entries_values(old(self).services@), old(self).plan.services@, now_ms);
                &&& entries_values(final(self).services@) == sv
                &&& strings_view(a.spawn_services@) == spawned
            }),
            ({
                let (t, stopped, spawned) = synced_checks(
                    checks_values(old(self).checks@),
                    checks_values(old(self).plan.checks@),
                );
                &&& checks_values(final(self).checks@) == t
                &&& strings_view(a.stop_checks@) == stopped
                &&& spawn_view(a.spawn_checks@) == spawned.map_values(
                    |n: Seq<char>| (n, initial_status(old(self).alert_sender.statuses(), n)),
                )
            }),
            final(self).plan == old(self).plan,
            final(self).changes == old(self).changes,
            final(self).change_counter == old(self).change_counter,
            final(self).pending_autostart == old(self).pending_autostart,
            final(self).alert_sender == old(self).alert_sender,
    {
        // services
        let ghost sv0 = entries_values(self.services@);
        let mut spawn_services: Vec<String> = Vec::new();
        let mut i: usize = 0;
        while i < self.plan.services.len()
            invariant
                i <= self.plan.services.len(),
                self.plan == old(self).plan,
                self.checks == old(self).checks,
                self.changes == old(self).changes,
                self.change_counter == old(self).change_counter,
                self.pending_autostart == old(self).pending_autostart,
                self.alert_sender == old(self).alert_sender,
                sv0 == entries_values(old(self).services@),
                (entries_values(self.services@), strings_view(spawn_services@)) == synced_services(
                    sv0,
                    self.plan.services@.take(i as int),
                    now_ms,
                ),
            decreases self.plan.services.len() - i,
        {
            proof {
                assert(self.plan.services@.take(i + 1).drop_last() =~= self.plan.services@.take(i as int));
                lemma_entry_index(self.services@, self.plan.services@[i as int].0@);
                assert(value_names(entries_values(self.services@)) =~= self.services@.map_values(|e: ServiceEntry| e.name@));
            }
            let found = find_entry(&self.services, self.plan.services[i].0.as_str());
            if found.is_none() {
                let n = self.plan.services[i].0.clone();
                let e = ServiceEntry {
                    name: self.plan.services[i].0.clone(),
                    state: ServiceState::Inactive,
                    since_ms: now_ms,
                    startup: self.plan.services[i].1.startup,
                };
                let ghost vb = self.services@;
                let ghost sb = spawn_services@;
                self.services.push(e);
                spawn_services.push(n);
                proof {
                    assert(entries_values(self.services@) =~= entries_values(vb).push(entry_view(e)));
                    assert(strings_view(spawn_services@) =~= strings_view(sb).push(n@));
                    assert(!value_names(entries_values(vb)).contains(self.plan.services@[i as int].0@));
                }
            } else {
                proof {
                    let k = found->0;
                    assert(value_names(entries_values(self.services@))[k as int] == self.plan.services@[i as int].0@);
                }
            }
            i = i + 1;
        }
        proof {
            assert(self.plan.services@.take(self.plan.services.len() as int) =~= self.plan.services@);
        }
        // checks
        let ghost s_after = self.services@;
        let ghost spawned_after = strings_view(spawn_services@);
        let ghost t0 = checks_values(self.checks@);
        let ghost pv = checks_values(self.plan.checks@);
        let mut stop_checks: Vec<String> = Vec::new();
        let mut spawn_checks: Vec<(String, CheckStatus)> = Vec::new();
        let mut j: usize = 0;
        while j < self.plan.checks.len()
            invariant
                j <= self.plan.checks.len(),
                self.plan == old(self).plan,
                self.changes == old(self).changes,
                self.change_counter == old(self).change_counter,
                self.pending_autostart == old(self).pending_autostart,
                self.alert_sender == old(self).alert_sender,
                t0 == checks_values(old(self).checks@),
                pv == checks_values(self.plan.checks@),
                self.services@ == s_after,
                (entries_values(s_after), spawned_after) == synced_services(
                    entries_values(old(self).services@),
                    old(self).plan.services@,
                    now_ms,
                ),
                ({
                    let (t, stopped, spawned) = synced_checks(t0, pv.take(j as int));
                    &&& checks_values(self.checks@) == t
                    &&& strings_view(stop_checks@) == stopped
                    &&& spawn_view(spawn_checks@) == spawned.map_values(
                        |n: Seq<char>| (n, initial_status(self.alert_sender.statuses(), n)),
                    )
                }),
            decreases self.plan.checks.len() - j,
        {
            proof {
                assert(pv.take(j + 1).drop_last() =~= pv.take(j as int));
                assert(pv.take(j + 1).last() == pv[j as int]);
            }
            let ghost tb = self.checks@;
            let ghost stb = stop_checks@;
            let ghost spb = spawn_checks@;
            if self.plan.checks[j].1.startup != Startup::Disabled {
                let name = self.plan.checks[j].0.as_str();
                proof {
                    lemma_key_index(self.checks@, name@);
                }
                let found = find_named(&self.checks, name);
                let unchanged = match found {
                    Some(k) => self.checks[k].1.same_as(&self.plan.checks[j].1),
                    None => false,
                };
                if !unchanged {
                    match found {
                        Some(k) => {
                            let _old = self.checks.remove(k);
                            let n = self.plan.checks[j].0.clone();
                            stop_checks.push(n);
                            proof {
                                assert(strings_view(stop_checks@) =~= strings_view(stb).push(n@));
                            }
                        },
                        None => {},
                    }
                    let ghost tr = self.checks@;
                    let entry = (self.plan.checks[j].0.clone(), self.plan.checks[j].1.duplicate());
                    self.checks.push(entry);
                    let st = match self.alert_sender.check_status(name) {
                        Some(s) => s,
                        None => CheckStatus::Up,
                    };
                    let sn = self.plan.checks[j].0.clone();
                    spawn_checks.push((sn, st));
                    proof {
                        assert(checks_values(self.checks@) =~= checks_values(tr).push(pv[j as int]));
                        if found is Some {
                            assert(checks_values(tr) =~= checks_values(tb).remove(found->0 as int));
                        } else {
                            assert(tr == tb);
                        }
                        assert(spawn_view(spawn_checks@) =~= spawn_view(spb).push((sn@, st)));
                        let spawned = synced_checks(t0, pv.take(j as int)).2;
                        assert(spawned.push(pv[j as int].0).map_values(
                            |n: Seq<char>| (n, initial_status(self.alert_sender.statuses(), n)),
                        ) =~= spawned.map_values(
                            |n: Seq<char>| (n, initial_status(self.alert_sender.statuses(), n)),
                        ).push((sn@, st)));
                    }
                }
            }
            j = j + 1;
        }
        proof {
            assert(pv.take(self.plan.checks.len() as int) =~= pv);
        }
        SyncActions { spawn_services, stop_checks, spawn_checks }
    }
}

// ---------------------------------------------------------------------------
// Autostart and replan
// ---------------------------------------------------------------------------

/// Autostart over the plan services `part` (a prefix of the plan `full`): each
/// service with `startup: enabled` starts when its dependencies run, else
/// joins the waiting list once.
pub open spec fn autostart_spec(
    full: Seq<(String, ServiceConfig)>,
    part: Seq<(String, ServiceConfig)>,
    v: Seq<ServiceEntry>,
    pending: Seq<Seq<char>>,
) -> (Seq<Seq<char>>, Seq<Seq<char>>)
    decreases part.len(),
{
    if part.len() == 0 {
        (seq![], pending)
    } else {
        let (start, waiting) = autostart_spec(full, part.drop_last(), v, pending);
        let (n, c) = part.last();
        if c.startup != Startup::Enabled {
            (start, waiting)
        } else if deps_running(full, v, n@) {
            (start.push(n@), waiting)
        } else if waiting.contains(n@) {
            (start, waiting)
        } else {
            (start, waiting.push(n@))
        }
    }
}

/// Holds of tracked services that the plan `names` still holds.
pub open spec fn planned_service(names: Seq<Seq<char>>) -> spec_fn((Seq<char>, ServiceState, i64, Startup)) -> bool {
    |e: (Seq<char>, ServiceState, i64, Startup)| names.contains(e.0)
}

/// Holds of tracked services that the plan `names` no longer holds.
pub open spec fn unplanned_service(names: Seq<Seq<char>>) -> spec_fn((Seq<char>, ServiceState, i64, Startup)) -> bool {
    |e: (Seq<char>, ServiceState, i64, Startup)| !names.contains(e.0)
}

/// Holds of tracked checks that the plan `names` still holds.
pub open spec fn planned_check(names: Seq<Seq<char>>) -> spec_fn((Seq<char>, CheckConfigView)) -> bool {
    |e: (Seq<char>, CheckConfigView)| names.contains(e.0)
}

/// Holds of tracked checks that the plan `names` no longer holds.
pub open spec fn unplanned_check(names: Seq<Seq<char>>) -> spec_fn((Seq<char>, CheckConfigView)) -> bool {
    |e: (Seq<char>, CheckConfigView)| !names.contains(e.0)
}

/// The names of a named table.
pub open spec fn table_names<T>(v: Seq<(String, T)>) -> Seq<Seq<char>> {
    v.map_values(|p: (String, T)| p.0@)
}

/// The maximum age in seconds of a queued alert delivery under `alerts.max-queue-time`:
/// its whole seconds, or 60 when it is unset or does not parse.
pub open spec fn max_queue_secs(field: Option<String>) -> int {
    match field {
        Some(t) => match duration_spec(t@) {
            Ok(ms) => ms / 1000,
            Err(_) => DEFAULT_DELIVERY_AGE_SECS as int,
        },
        None => DEFAULT_DELIVERY_AGE_SECS as int,
    }
}

/// What the owner does after a replan.
#[derive(Debug)]
pub struct ReloadActions {
    pub sync: SyncActions,
    /// The alert delivery queue must be replaced by one of the new depth.
    pub replace_queue: bool,
    /// Services whose actor is shut down because they left the plan.
    pub shutdown_services: Vec<String>,
    /// Checks whose actor is shut down because they left the plan.
    pub shutdown_checks: Vec<String>,
    /// Services to start now, in order.
    pub start: Vec<String>,
}

fn contains_key<T>(v: &Vec<(String, T)>, name: &str) -> (b: bool)
    ensures
        b == table_names(v@).contains(name@),
{
    let mut i: usize = 0;
    while i < v.len()
        invariant
            i <= v.len(),
            forall|k: int| 0 <= k < i ==> table_names(v@)[k] != name@,
        decreases v.len() - i,
    {
        if str_equal(v[i].0.as_str(), name) {
            assert(table_names(v@)[i as int] == name@);
            return true;
        }
        i = i + 1;
    }
    false
}

impl Overlord {
    /// Start the plan services with `startup: enabled` whose dependencies run;
    /// the others wait, each once.
    pub fn autostart(&mut self) -> (start: Vec<String>)
        ensures
            ({
                let (st, waiting) = autostart_spec(
                    old(self).plan.services@,
                    old(self).plan.services@,
                    old(self).services@,
                    strings_view(old(self).pending_autostart@),
                );
                &&& strings_view(start@) == st
                &&& strings_view(final(self).pending_autostart@) == waiting
            }),
            final(self).plan == old(self).plan,
            final(self).services == old(self).services,
            final(self).checks == old(self).checks,
            final(self).changes == old(self).changes,
            final(self).change_counter == old(self).change_counter,
            final(self).alert_sender == old(self).alert_sender,
    {
        let ghost p0 = strings_view(self.pending_autostart@);
        let mut start: Vec<String> = Vec::new();
        let mut i: usize = 0;
        while i < self.plan.services.len()
            invariant
                i <= self.plan.services.len(),
                self.plan == old(self).plan,
                self.services == old(self).services,
                self.checks == old(self).checks,
                self.changes == old(self).changes,
                self.change_counter == old(self).change_counter,
                self.alert_sender == old(self).alert_sender,
                p0 == strings_view(old(self).pending_autostart@),
                (strings_view(start@), strings_view(self.pending_autostart@)) == autostart_spec(
                    self.plan.services@,
                    self.plan.services@.take(i as int),
                    self.services@,
                    p0,
                ),
            decreases self.plan.services.len() - i,
        {
            proof {
                assert(self.plan.services@.take(i + 1).drop_last() =~= self.plan.services@.take(i as int));
            }
            if self.plan.services[i].1.startup == Startup::Enabled {
                let name = self.plan.services[i].0.clone();
                if dependencies_running(&self.plan.services, &self.services, name.as_str()) {
                    let ghost sb = start@;
                    start.push(name);
                    proof {
                        assert(strings_view(start@) =~= strings_view(sb).push(self.plan.services@[i as int].0@));
                    }
                } else {
                    proof {
                        assert(strings_view(self.pending_autostart@) =~= self.pending_autostart@.map_values(|s: String| s@));
                    }
                    if !contains_name(self.pending_autostart.as_slice(), name.as_str()) {
                        let ghost pb = self.pending_autostart@;
                        self.pending_autostart.push(name);
                        proof {
                            assert(strings_view(self.pending_autostart@) =~= strings_view(pb).push(
                                self.plan.services@[i as int].0@,
                            ));
                        }
                    }
                }
            }
            i = i + 1;
        }
        proof {
            assert(self.plan.services@.take(self.plan.services.len() as int) =~= self.plan.services@);
        }
        start
    }

    /// Drop the tracked services that left the plan; their names, in order.
    fn drop_unplanned_services(&mut self) -> (gone: Vec<String>)
        ensures
            entries_values(final(self).services@) == entries_values(old(self).services@).filter(
                planned_service(table_names(old(self).plan.services@)),
            ),
            strings_view(gone@) == value_names(
                entries_values(old(self).services@).filter(unplanned_service(table_names(old(self).plan.services@))),
            ),
            final(self).plan == old(self).plan,
            final(self).checks == old(self).checks,
            final(self).changes == old(self).changes,
            final(self).change_counter == old(self).change_counter,
            final(self).pending_autostart == old(self).pending_autostart,
            final(self).alert_sender == old(self).alert_sender,
    {
        let mut rest: Vec<ServiceEntry> = Vec::new();
        std::mem::swap(&mut rest, &mut self.services);
        let ghost all = entries_values(rest@);
        let ghost names = table_names(self.plan.services@);
        assert(all.len() == rest.len());
        let mut gone: Vec<String> = Vec::new();
        let mut i: usize = 0;
        while rest.len() > 0
            invariant
                i <= all.len(),
                all.len() <= usize::MAX,
                all.len() == i + rest@.len(),
                entries_values(rest@) == all.skip(i as int),
                names == table_names(self.plan.services@),
                self.plan == old(self).plan,
                self.checks == old(self).checks,
                self.changes == old(self).changes,
                self.change_counter == old(self).change_counter,
                self.pending_autostart == old(self).pending_autostart,
                self.alert_sender == old(self).alert_sender,
                all == entries_values(old(self).services@),
                entries_values(self.services@) == all.take(i as int).filter(planned_service(names)),
                strings_view(gone@) == value_names(all.take(i as int).filter(unplanned_service(names))),
            decreases rest.len(),
        {
            let ghost rb = rest@;
            let e = rest.remove(0);
            proof {
                reveal(Seq::filter);
                assert(all.take(i + 1).drop_last() =~= all.take(i as int));
                assert(entries_values(rb)[0] == all.skip(i as int)[0]);
                assert(all[i as int] == entry_view(e));
                assert(rest@ =~= rb.skip(1));
                assert(entries_values(rb.skip(1)) =~= entries_values(rb).skip(1));
                assert(all.skip(i as int).skip(1) =~= all.skip(i + 1));
                assert(entries_values(rest@) =~= all.skip(i + 1));
            }
            if contains_key(&self.plan.services, e.name.as_str()) {
                let ghost vb = self.services@;
                self.services.push(e);
                proof {
                    assert(entries_values(self.services@) =~= entries_values(vb).push(entry_view(e)));
                }
            } else {
                let ghost gb = gone@;
                let n = e.name;
                gone.push(n);
                proof {
                    assert(strings_view(gone@) =~= strings_view(gb).push(all[i as int].0));
                    assert(value_names(all.take(i as int).filter(unplanned_service(names)).push(all[i as int]))
                        =~= value_names(all.take(i as int).filter(unplanned_service(names))).push(all[i as int].0));
                }
            }
            i = i + 1;
        }
        proof {
            assert(all.take(i as int) =~= all);
        }
        gone
    }

    /// Drop the tracked checks that left the plan; their names, in order.
    fn drop_unplanned_checks(&mut self) -> (gone: Vec<String>)
        ensures
            checks_values(final(self).checks@) == checks_values(old(self).checks@).filter(
                planned_check(table_names(old(self).plan.checks@)),
            ),
            strings_view(gone@) == checks_values(old(self).checks@).filter(
                unplanned_check(table_names(old(self).plan.checks@)),
            ).map_values(|e: (Seq<char>, CheckConfigView)| e.0),
            final(self).plan == old(self).plan,
            final(self).services == old(self).services,
            final(self).changes == old(self).changes,
            final(self).change_counter == old(self).change_counter,
            final(self).pending_autostart == old(self).pending_autostart,
            final(self).alert_sender == old(self).alert_sender,
    {
        let mut rest: Vec<(String, CheckConfig)> = Vec::new();
        std::mem::swap(&mut rest, &mut self.checks);
        let ghost all = checks_values(rest@);
        let ghost names = table_names(self.plan.checks@);
        assert(all.len() == rest.len());
        let mut gone: Vec<String> = Vec::new();
        let mut i: usize = 0;
        while rest.len() > 0
            invariant
                i <= all.len(),
                all.len() <= usize::MAX,
                all.len() == i + rest@.len(),
                checks_values(rest@) == all.skip(i as int),
                names == table_names(self.plan.checks@),
                self.plan == old(self).plan,
                self.services == old(self).services,
                self.changes == old(self).changes,
                self.change_counter == old(self).change_counter,
                self.pending_autostart == old(self).pending_autostart,
                self.alert_sender == old(self).alert_sender,
                all == checks_values(old(self).checks@),
                checks_values(self.checks@) == all.take(i as int).filter(planned_check(names)),
                strings_view(gone@) == all.take(i as int).filter(unplanned_check(names)).map_values(
                    |e: (Seq<char>, CheckConfigView)| e.0,
                ),
            decreases rest.len(),
        {
            let ghost rb = rest@;
            let e = rest.remove(0);
            proof {
                reveal(Seq::filter);
                assert(all.take(i + 1).drop_last() =~= all.take(i as int));
                assert(checks_values(rb)[0] == all.skip(i as int)[0]);
                assert(all[i as int] == (e.0@, check_config_view(e.1)));
                assert(rest@ =~= rb.skip(1));
                assert(checks_values(rb.skip(1)) =~= checks_values(rb).skip(1));
                assert(all.skip(i as int).skip(1) =~= all.skip(i + 1));
                assert(checks_values(rest@) =~= all.skip(i + 1));
            }
            if contains_key(&self.plan.checks, e.0.as_str()) {
                let ghost vb = self.checks@;
                self.checks.push(e);
                proof {
                    assert(checks_values(self.checks@) =~= checks_values(vb).push(all[i as int]));
                }
            } else {
                let ghost gb = gone@;
                let n = e.0;
                gone.push(n);
                proof {
                    assert(strings_view(gone@) =~= strings_view(gb).push(all[i as int].0));
                    assert(all.take(i as int).filter(unplanned_check(names)).push(all[i as int]).map_values(
                        |e: (Seq<char>, CheckConfigView)| e.0,
                    ) =~= all.take(i as int).filter(unplanned_check(names)).map_values(
                        |e: (Seq<char>, CheckConfigView)| e.0,
                    ).push(all[i as int].0));
                }
            }
            i = i + 1;
        }
        proof {
            assert(all.take(i as int) =~= all);
        }
        gone
    }

    /// Put a new plan in force: the alert sender takes its alerts and queue
    /// limits (256 deliveries and 60 s by default), actors are synced with it,
    /// the waiting list is cleared, the actors of services and checks that left
    /// the plan are shut down, and autostart runs again.
    pub fn reload(&mut self, plan: Plan, now_ms: i64) -> (a: ReloadActions)
        ensures
            final(self).plan == plan,
            entries_view(final(self).alert_sender.entries()) == named_alerts_view(plan.alerts@),
            final(self).alert_sender.statuses() == old(self).alert_sender.statuses(),
            final(self).alert_sender.depth() == (match plan.alert_queue_depth {
                Some(d) => d,
                None => DEFAULT_DELIVERY_QUEUE,
            }),
            final(self).alert_sender.max_age() == max_queue_secs(plan.alert_max_queue_time),
            a.replace_queue == (final(self).alert_sender.depth() != old(self).alert_sender.depth()),
            ({
                let (sv, spawned) = synced_services(entries_values(old(self).services@), plan.services@, now_ms);
                &&& strings_view(a.sync.spawn_services@) == spawned
                &&& entries_values(final(self).services@) == sv.filter(planned_service(table_names(plan.services@)))
                &&& strings_view(a.shutdown_services@) == value_names(
                    sv.filter(unplanned_service(table_names(plan.services@))),
                )
            }),
            ({
                let (t, stopped, spawned) = synced_checks(checks_values(old(self).checks@), checks_values(plan.checks@));
                &&& strings_view(a.sync.stop_checks@) == stopped
                &&& spawn_view(a.sync.spawn_checks@) == spawned.map_values(
                    |n: Seq<char>| (n, initial_status(old(self).alert_sender.statuses(), n)),
                )
                &&& checks_values(final(self).checks@) == t.filter(planned_check(table_names(plan.checks@)))
                &&& strings_view(a.shutdown_checks@) == t.filter(unplanned_check(table_names(plan.checks@))).map_values(
                    |e: (Seq<char>, CheckConfigView)| e.0,
                )
            }),
            ({
                let (st, waiting) = autostart_spec(plan.services@, plan.services@, final(self).services@, seq![]);
                &&& strings_view(a.start@) == st
                &&& strings_view(final(self).pending_autostart@) == waiting
            }),
            final(self).changes == old(self).changes,
            final(self).change_counter == old(self).change_counter,
    {
        self.plan = plan;
        let entries = alert_entries(&self.plan.alerts);
        self.alert_sender.update_alerts(entries);
        let depth = match self.plan.alert_queue_depth {
            Some(d) => d,
            None => DEFAULT_DELIVERY_QUEUE,
        };
        let max_age = match &self.plan.alert_max_queue_time {
            Some(t) => match parse_duration_millis(t.as_str()) {
                Ok(ms) => duration_from_millis(ms),
                Err(_) => default_delivery_age(),
            },
            None => default_delivery_age(),
        };
        let replace_queue = self.alert_sender.update_queue_limits(depth, max_age);
        let sync = self.sync_actors(now_ms);
        self.pending_autostart = Vec::new();
        let shutdown_services = self.drop_unplanned_services();
        let shutdown_checks = self.drop_unplanned_checks();
        proof {
            assert(strings_view(self.pending_autostart@) =~= Seq::<Seq<char>>::empty());
        }
        let start = self.autostart();
        ReloadActions { sync, replace_queue, shutdown_services, shutdown_checks, start }
    }
}

// ---------------------------------------------------------------------------
// Laws
// ---------------------------------------------------------------------------

proof fn lemma_synced_services_contains(
    v: Seq<(Seq<char>, ServiceState, i64, Startup)>,
    plan: Seq<(String, ServiceConfig)>,
    now_ms: i64,
)
    ensures
        forall|j: int| 0 <= j < plan.len() ==> value_names(synced_services(v, plan, now_ms).0).contains(
            (#[trigger] plan[j]).0@,
        ),
        forall|x: Seq<char>| value_names(v).contains(x) ==> value_names(synced_services(v, plan, now_ms).0).contains(x),
    decreases plan.len(),
{
    if plan.len() > 0 {
        let pre = plan.drop_last();
        lemma_synced_services_contains(v, pre, now_ms);
        let t = synced_services(v, pre, now_ms).0;
        let r = synced_services(v, plan, now_ms).0;
        let (n, c) = plan.last();
        assert forall|x: Seq<char>| value_names(t).contains(x) implies value_names(r).contains(x) by {
            let w = choose|w: int| 0 <= w < value_names(t).len() && value_names(t)[w] == x;
            if !value_names(t).contains(n@) {
                assert(value_names(r)[w] == x);
            }
        }
        assert forall|j: int| 0 <= j < plan.len() implies value_names(r).contains((#[trigger] plan[j]).0@) by {
            if j < plan.len() - 1 {
                assert(pre[j] == plan[j]);
            } else if !value_names(t).contains(n@) {
                assert(value_names(r)[t.len() as int] == n@);
            }
        }
    }
}

/// After a replan the supervisor tracks exactly the plan's services: a name
/// has a tracked service if and only if the new plan holds it.
pub proof fn law_replan_tracks_plan_services(
    old_services: Seq<(Seq<char>, ServiceState, i64, Startup)>,
    plan: Seq<(String, ServiceConfig)>,
    now_ms: i64,
    name: Seq<char>,
)
    ensures
        value_names(synced_services(old_services, plan, now_ms).0.filter(planned_service(table_names(plan)))).contains(
            name,
        ) <==> table_names(plan).contains(name),
{
    broadcast use vstd::seq_lib::group_filter_ensures;

    let sv = synced_services(old_services, plan, now_ms).0;
    let pred = planned_service(table_names(plan));
    let kept = sv.filter(pred);
    lemma_synced_services_contains(old_services, plan, now_ms);
    if table_names(plan).contains(name) {
        let j = choose|j: int| 0 <= j < table_names(plan).len() && table_names(plan)[j] == name;
        assert(value_names(sv).contains(plan[j].0@));
        let m = choose|m: int| 0 <= m < value_names(sv).len() && value_names(sv)[m] == name;
        assert(pred(sv[m]));
        assert(kept.contains(sv[m]));
        let w = choose|w: int| 0 <= w < kept.len() && kept[w] == sv[m];
        assert(value_names(kept)[w] == name);
    }
    if value_names(kept).contains(name) {
        let w = choose|w: int| 0 <= w < value_names(kept).len() && value_names(kept)[w] == name;
        assert(pred(kept[w]));
    }
}

/// When a service comes up, the waiting list splits: every waiting service is
/// either started now or still waits, never both, and every service started
/// has all its dependencies running.
pub proof fn law_unblock_splits_waiting(
    plan: Seq<(String, ServiceConfig)>,
    v: Seq<ServiceEntry>,
    pending: Seq<Seq<char>>,
    service: Seq<char>,
    new_state: ServiceState,
    now_ms: i64,
    name: Seq<char>,
)
    requires
        new_state.running(),
    ensures
        ({
            let r = service_event_spec(plan, v, pending, service, ServiceEventKind::StateChanged { new_state }, now_ms);
            &&& pending.contains(name) <==> (r.3.contains(name) || r.1.contains(name))
            &&& !(r.3.contains(name) && r.1.contains(name))
            &&& r.3.contains(name) ==> deps_running(plan, r.0, name)
        }),
{
    broadcast use vstd::seq_lib::group_filter_ensures;
    broadcast use vstd::seq::Seq::lemma_filter_contains_rev;

    let r = service_event_spec(plan, v, pending, service, ServiceEventKind::StateChanged { new_state }, now_ms);
    let v2 = r.0;
    if pending.len() > 0 {
        let rp = ready_pred(plan, v2);
        let wp = waiting_pred(plan, v2);
        if pending.contains(name) {
            let k = choose|k: int| 0 <= k < pending.len() && pending[k] == name;
            if deps_running(plan, v2, name) {
                assert(rp(pending[k]));
            } else {
                assert(wp(pending[k]));
            }
        }
        if r.3.contains(name) {
            let k = choose|k: int| 0 <= k < r.3.len() && r.3[k] == name;
            assert(rp(r.3[k]));
        }
        if r.1.contains(name) {
            let k = choose|k: int| 0 <= k < r.1.len() && r.1[k] == name;
            assert(wp(r.1[k]));
        }
    } else {
        assert(r.3 =~= Seq::<Seq<char>>::empty());
    }
}

/// Only a permanent stop cascades: a service that enters backoff, stopping or
/// active stops no other service; one that goes inactive or fails stops
/// exactly the running plan services that require it.
pub proof fn law_cascade_only_on_permanent_stop(
    plan: Seq<(String, ServiceConfig)>,
    v: Seq<ServiceEntry>,
    pending: Seq<Seq<char>>,
    service: Seq<char>,
    new_state: ServiceState,
    now_ms: i64,
)
    ensures
        ({
            let r = service_event_spec(plan, v, pending, service, ServiceEventKind::StateChanged { new_state }, now_ms);
            &&& (new_state == ServiceState::Backoff || new_state == ServiceState::Stopping || new_state
                == ServiceState::Active) ==> r.5.len() == 0
            &&& (new_state == ServiceState::Inactive || new_state == ServiceState::Error) ==> r.5
                == dependents_to_stop(plan, r.0, service)
            &&& r.2 is None
        }),
{
}

proof fn lemma_dependents_to_stop(plan: Seq<(String, ServiceConfig)>, v: Seq<ServiceEntry>, dep: Seq<char>, x: Seq<char>)
    requires
        dependents_to_stop(plan, v, dep).contains(x),
    ensures
        is_up(v, x),
        exists|j: int| 0 <= j < plan.len() && (#[trigger] plan[j]).0@ == x && names_view(plan[j].1.requires@).contains(dep),
    decreases plan.len(),
{
    let rest = dependents_to_stop(plan.drop_last(), v, dep);
    let (n, c) = plan.last();
    if rest.contains(x) {
        lemma_dependents_to_stop(plan.drop_last(), v, dep, x);
        let j = choose|j: int| 0 <= j < plan.drop_last().len() && (#[trigger] plan.drop_last()[j]).0@ == x
            && names_view(plan.drop_last()[j].1.requires@).contains(dep);
        assert(plan[j] == plan.drop_last()[j]);
    } else {
        let r = dependents_to_stop(plan, v, dep);
        let k = choose|k: int| 0 <= k < r.len() && r[k] == x;
        assert(k == rest.len());
        assert(plan[plan.len() - 1] == plan.last());
    }
}

/// Every service that a stop cascade stops requires the stopped service and is
/// running.
pub proof fn law_cascade_stops_running_dependents(
    plan: Seq<(String, ServiceConfig)>,
    v: Seq<ServiceEntry>,
    dep: Seq<char>,
    x: Seq<char>,
)
    requires
        dependents_to_stop(plan, v, dep).contains(x),
    ensures
        is_up(v, x),
        exists|j: int| 0 <= j < plan.len() && (#[trigger] plan[j]).0@ == x && names_view(plan[j].1.requires@).contains(dep),
{
    lemma_dependents_to_stop(plan, v, dep, x);
}

/// Autostart never lists a service twice as waiting: a waiting list without
/// repeats stays without repeats, and every service started has its
/// dependencies running.
pub proof fn law_autostart_waits_once(
    full: Seq<(String, ServiceConfig)>,
    part: Seq<(String, ServiceConfig)>,
    v: Seq<ServiceEntry>,
    pending: Seq<Seq<char>>,
)
    requires
        pending.no_duplicates(),
    ensures
        autostart_spec(full, part, v, pending).1.no_duplicates(),
        forall|k: int| 0 <= k < autostart_spec(full, part, v, pending).0.len() ==> deps_running(
            full,
            v,
            #[trigger] autostart_spec(full, part, v, pending).0[k],
        ),
    decreases part.len(),
{
    if part.len() > 0 {
        law_autostart_waits_once(full, part.drop_last(), v, pending);
        let (start, waiting) = autostart_spec(full, part.drop_last(), v, pending);
        let r = autostart_spec(full, part, v, pending);
        assert forall|k: int| 0 <= k < r.0.len() implies deps_running(full, v, #[trigger] r.0[k]) by {
            if k < start.len() {
                assert(r.0[k] == start[k]);
            }
        }
    }
}

proof fn lemma_key_index_found(t: Seq<(Seq<char>, CheckConfigView)>, name: Seq<char>)
    ensures
        key_index(t, name) matches Some(k) ==> 0 <= k < t.len() && t[k].0 == name,
    decreases t.len(),
{
    if t.len() > 0 {
        lemma_key_index_found(t.drop_last(), name);
    }
}

/// Whether the names of a table of check values are all different.
pub open spec fn keys_distinct(t: Seq<(Seq<char>, CheckConfigView)>) -> bool {
    forall|i: int, j: int| 0 <= i < j < t.len() ==> t[i].0 != t[j].0
}

proof fn lemma_synced_checks_contains(t: Seq<(Seq<char>, CheckConfigView)>, plan: Seq<(Seq<char>, CheckConfigView)>)
    requires
        keys_distinct(plan),
    ensures
        forall|j: int|
            0 <= j < plan.len() && (#[trigger] plan[j]).1.startup != Startup::Disabled ==> synced_checks(
                t,
                plan,
            ).0.contains(plan[j]),
    decreases plan.len(),
{
    if plan.len() > 0 {
        let pre = plan.drop_last();
        assert(keys_distinct(pre)) by {
            assert forall|a: int, b: int| 0 <= a < b < pre.len() implies pre[a].0 != pre[b].0 by {
                assert(pre[a] == plan[a] && pre[b] == plan[b]);
            }
        }
        lemma_synced_checks_contains(t, pre);
        let t2 = synced_checks(t, pre).0;
        let r = synced_checks(t, plan).0;
        let (n, c) = plan.last();
        lemma_key_index_found(t2, n);
        assert forall|j: int| 0 <= j < plan.len() && (#[trigger] plan[j]).1.startup != Startup::Disabled implies r.contains(
            plan[j],
        ) by {
            if j < plan.len() - 1 {
                assert(pre[j] == plan[j]);
                assert(t2.contains(plan[j]));
                let w = choose|w: int| 0 <= w < t2.len() && t2[w] == plan[j];
                if c.startup != Startup::Disabled {
                    match key_index(t2, n) {
                        Some(k) => {
                            if t2[k].1 != c {
                                assert(plan[j].0 != n);
                                assert(w != k);
                                let rm = t2.remove(k);
                                if w < k {
                                    assert(rm[w] == t2[w]);
                                    assert(r[w] == plan[j]);
                                } else {
                                    assert(rm[w - 1] == t2[w]);
                                    assert(r[w - 1] == plan[j]);
                                }
                            }
                        },
                        None => {
                            assert(r[w] == plan[j]);
                        },
                    }
                }
            } else {
                assert(plan[j] == (n, c));
                match key_index(t2, n) {
                    Some(k) => {
                        if t2[k].1 == c {
                            assert(t2[k] == (n, c));
                        } else {
                            assert(r[r.len() - 1] == (n, c));
                        }
                    },
                    None => {
                        assert(r[r.len() - 1] == (n, c));
                    },
                }
            }
        }
    }
}

/// After a replan every enabled check of the plan has an actor running its
/// current configuration, and no check outside the plan keeps one. (Plan
/// check names are distinct, as the plan's map keys are.)
pub proof fn law_replan_tracks_enabled_checks(
    old_checks: Seq<(Seq<char>, CheckConfigView)>,
    plan: Seq<(Seq<char>, CheckConfigView)>,
    j: int,
    name: Seq<char>,
)
    requires
        keys_distinct(plan),
    ensures
        ({
            let names = plan.map_values(|p: (Seq<char>, CheckConfigView)| p.0);
            let kept = synced_checks(old_checks, plan).0.filter(planned_check(names));
            &&& (0 <= j < plan.len() && plan[j].1.startup != Startup::Disabled) ==> kept.contains(plan[j])
            &&& kept.map_values(|e: (Seq<char>, CheckConfigView)| e.0).contains(name) ==> names.contains(name)
        }),
{
    broadcast use vstd::seq_lib::group_filter_ensures;

    let names = plan.map_values(|p: (Seq<char>, CheckConfigView)| p.0);
    let sc = synced_checks(old_checks, plan).0;
    let pred = planned_check(names);
    let kept = sc.filter(pred);
    lemma_synced_checks_contains(old_checks, plan);
    if 0 <= j < plan.len() && plan[j].1.startup != Startup::Disabled {
        assert(sc.contains(plan[j]));
        let w = choose|w: int| 0 <= w < sc.len() && sc[w] == plan[j];
        assert(names[j] == plan[j].0);
        assert(pred(sc[w]));
    }
    if kept.map_values(|e: (Seq<char>, CheckConfigView)| e.0).contains(name) {
        let kn = kept.map_values(|e: (Seq<char>, CheckConfigView)| e.0);
        let w = choose|w: int| 0 <= w < kn.len() && kn[w] == name;
        assert(pred(kept[w]));
    }
}

impl Overlord {
    /// The tracked service a command for `name` goes to, or the error of a
    /// name without one: `unknown service 'name'`.
    pub fn command_target(&self, name: &str) -> (r: Result<usize, String>)
        ensures
            r matches Ok(k) ==> entry_index(self.services@, name@) == Some(k as int) && k < self.services@.len(),
            r matches Err(m) ==> entry_index(self.services@, name@) is None && m@ == "unknown service '"@ + name@ + "'"@,
            entry_index(self.services@, name@) is Some ==> r is Ok,
    {
        match find_entry(&self.services, name) {
            Some(k) => Ok(k),
            None => {
                let a = concat("unknown service '", name);
                Err(concat(a.as_str(), "'"))
            },
        }
    }
}

} // verus!

verus! {

/// The `on-check-failure` policy that service config `c` has for `check`.
pub open spec fn check_policy(c: ServiceConfig, check: Seq<char>) -> Option<OnExit> {
    match find_name(c.on_check_failure@, check) {
        Some(k) => Some(c.on_check_failure@[k].1),
        None => None,
    }
}

/// Whether a policy ends the daemon.
pub open spec fn ends_daemon(p: Option<OnExit>) -> bool {
    p == Some(OnExit::Shutdown) || p == Some(OnExit::FailureShutdown) || p == Some(OnExit::SuccessShutdown)
}

/// Whether no service before position `i` of `plan` ends the daemon on a
/// failure of `check`.
pub open spec fn none_ends_before(plan: Seq<(String, ServiceConfig)>, check: Seq<char>, i: int) -> bool {
    forall|j: int| 0 <= j < i ==> !ends_daemon(#[trigger] check_policy(plan[j].1, check))
}

/// A failure of a check restarts exactly the services whose policy for it is
/// `restart` and that come before the first service whose policy ends the
/// daemon; the daemon ends, with code 0 for `success-shutdown` and 10 for
/// `shutdown` and `failure-shutdown`, exactly when some service has such a
/// policy, and the first one decides the code.
pub proof fn law_failure_actions(plan: Seq<(String, ServiceConfig)>, check: Seq<char>)
    ensures
        ({
            let (restart, exit) = failure_actions(plan, check);
            &&& exit is None <==> none_ends_before(plan, check, plan.len() as int)
            &&& forall|i: int|
                0 <= i < plan.len() && ends_daemon(#[trigger] check_policy(plan[i].1, check)) && none_ends_before(
                    plan,
                    check,
                    i,
                ) ==> exit == Some(if check_policy(plan[i].1, check) == Some(OnExit::SuccessShutdown) {
                    0i32
                } else {
                    10i32
                })
            &&& forall|n: Seq<char>|
                #[trigger] restart.contains(n) <==> exists|i: int|
                    0 <= i < plan.len() && plan[i].0@ == n && #[trigger] check_policy(plan[i].1, check) == Some(
                        OnExit::Restart,
                    ) && none_ends_before(plan, check, i)
        }),
    decreases plan.len(),
{
    if plan.len() == 0 {
        let (restart, exit) = failure_actions(plan, check);
        assert forall|n: Seq<char>| #[trigger] restart.contains(n) implies false by {}
    } else {
        let pre = plan.drop_last();
        let last = plan.len() - 1;
        law_failure_actions(pre, check);
        let (r0, e0) = failure_actions(pre, check);
        let (restart, exit) = failure_actions(plan, check);
        assert forall|j: int| 0 <= j < pre.len() implies #[trigger] pre[j] == plan[j] by {}
        assert forall|i: int| 0 <= i <= pre.len() implies none_ends_before(pre, check, i) == none_ends_before(
            plan,
            check,
            i,
        ) by {
            if none_ends_before(pre, check, i) {
                assert forall|j: int| 0 <= j < i implies !ends_daemon(#[trigger] check_policy(plan[j].1, check)) by {
                    assert(pre[j] == plan[j]);
                }
            }
            if none_ends_before(plan, check, i) {
                assert forall|j: int| 0 <= j < i implies !ends_daemon(#[trigger] check_policy(pre[j].1, check)) by {
                    assert(pre[j] == plan[j]);
                }
            }
        }
        assert(plan[last] == plan.last());
        let pol = check_policy(plan.last().1, check);
        if e0 is Some {
            assert((restart, exit) == (r0, e0));
            assert(!none_ends_before(pre, check, pre.len() as int));
            let w = choose|j: int| 0 <= j < pre.len() && ends_daemon(#[trigger] check_policy(pre[j].1, check));
            assert(check_policy(plan[w].1, check) == check_policy(pre[w].1, check));
            // the first one that ends the daemon lies in pre
            assert forall|i: int|
                0 <= i < plan.len() && ends_daemon(#[trigger] check_policy(plan[i].1, check)) && none_ends_before(
                    plan,
                    check,
                    i,
                ) implies exit == Some(if check_policy(plan[i].1, check) == Some(OnExit::SuccessShutdown) {
                0i32
            } else {
                10i32
            }) by {
                if i == last {
                    assert(!ends_daemon(check_policy(plan[w].1, check)));
                } else {
                    assert(plan[i] == pre[i]);
                }
            }
            assert forall|n: Seq<char>| #[trigger] restart.contains(n) <==> exists|i: int|
                0 <= i < plan.len() && plan[i].0@ == n && #[trigger] check_policy(plan[i].1, check) == Some(
                    OnExit::Restart,
                ) && none_ends_before(plan, check, i) by {
                if restart.contains(n) {
                    let i = choose|i: int|
                        0 <= i < pre.len() && pre[i].0@ == n && #[trigger] check_policy(pre[i].1, check) == Some(
                            OnExit::Restart,
                        ) && none_ends_before(pre, check, i);
                    assert(plan[i] == pre[i]);
                }
                if exists|i: int|
                    0 <= i < plan.len() && plan[i].0@ == n && #[trigger] check_policy(plan[i].1, check) == Some(
                        OnExit::Restart,
                    ) && none_ends_before(plan, check, i) {
                    let i = choose|i: int|
                        0 <= i < plan.len() && plan[i].0@ == n && #[trigger] check_policy(plan[i].1, check) == Some(
                            OnExit::Restart,
                        ) && none_ends_before(plan, check, i);
                    if i == last {
                        assert(!ends_daemon(check_policy(plan[w].1, check)));
                    } else {
                        assert(plan[i] == pre[i]);
                    }
                }
            }
        } else {
            assert(none_ends_before(pre, check, pre.len() as int));
            assert(none_ends_before(plan, check, last));
            if ends_daemon(pol) {
                assert(!none_ends_before(plan, check, plan.len() as int));
            } else {
                assert forall|j: int| 0 <= j < plan.len() implies !ends_daemon(#[trigger] check_policy(plan[j].1, check)) by {
                    if j < last {
                        assert(plan[j] == pre[j]);
                    }
                }
            }
            assert forall|i: int|
                0 <= i < plan.len() && ends_daemon(#[trigger] check_policy(plan[i].1, check)) && none_ends_before(
                    plan,
                    check,
                    i,
                ) implies exit == Some(if check_policy(plan[i].1, check) == Some(OnExit::SuccessShutdown) {
                0i32
            } else {
                10i32
            }) by {
                if i < last {
                    assert(plan[i] == pre[i]);
                    assert(!none_ends_before(pre, check, pre.len() as int));
                }
            }
            assert forall|n: Seq<char>| #[trigger] restart.contains(n) <==> exists|i: int|
                0 <= i < plan.len() && plan[i].0@ == n && #[trigger] check_policy(plan[i].1, check) == Some(
                    OnExit::Restart,
                ) && none_ends_before(plan, check, i) by {
                if pol == Some(OnExit::Restart) {
                    assert(restart == r0.push(plan.last().0@));
                } else {
                    assert(restart == r0);
                }
                if restart.contains(n) {
                    let k = choose|k: int| 0 <= k < restart.len() && restart[k] == n;
                    if pol == Some(OnExit::Restart) && k == r0.len() {
                        assert(plan[last].0@ == n);
                    } else {
                        assert(r0[k] == n);
                        assert(r0.contains(n));
                        let i = choose|i: int|
                            0 <= i < pre.len() && pre[i].0@ == n && #[trigger] check_policy(pre[i].1, check) == Some(
                                OnExit::Restart,
                            ) && none_ends_before(pre, check, i);
                        assert(plan[i] == pre[i]);
                    }
                }
                if exists|i: int|
                    0 <= i < plan.len() && plan[i].0@ == n && #[trigger] check_policy(plan[i].1, check) == Some(
                        OnExit::Restart,
                    ) && none_ends_before(plan, check, i) {
                    let i = choose|i: int|
                        0 <= i < plan.len() && plan[i].0@ == n && #[trigger] check_policy(plan[i].1, check) == Some(
                            OnExit::Restart,
                        ) && none_ends_before(plan, check, i);
                    if i == last {
                        assert(restart[r0.len() as int] == n);
                    } else {
                        assert(plan[i] == pre[i]);
                        assert(r0.contains(n));
                        let k = choose|k: int| 0 <= k < r0.len() && r0[k] == n;
                        if pol == Some(OnExit::Restart) {
                            assert(restart[k] == r0[k]);
                        }
                    }
                }
            }
        }
    }
}

} // verus!

verus! {

/// The tracked checks that a name list asks for: those it names, or every
/// one when it names none, in order, each once per entry.
pub proof fn law_check_names_selects(v: Seq<(String, CheckConfig)>, names: Seq<Seq<char>>)
    ensures
        check_names(v, names) == v.filter(|p: (String, CheckConfig)| names.len() == 0 || names.contains(p.0@)).map_values(
            |p: (String, CheckConfig)| p.0@,
        ),
    decreases v.len(),
{
    reveal(Seq::filter);
    let pred = |p: (String, CheckConfig)| names.len() == 0 || names.contains(p.0@);
    let f = |p: (String, CheckConfig)| p.0@;
    if v.len() == 0 {
        assert(v.filter(pred).map_values(f) =~= Seq::<Seq<char>>::empty());
    } else {
        law_check_names_selects(v.drop_last(), names);
        let sub = v.drop_last().filter(pred);
        if pred(v.last()) {
            assert(sub.push(v.last()).map_values(f) =~= sub.map_values(f).push(f(v.last())));
        }
    }
}

/// The services reported for a name list: a report of each service that it
/// names, or of every one when it names none, in the order they are tracked.
pub proof fn law_service_infos_select(plan: Seq<(String, ServiceConfig)>, v: Seq<ServiceEntry>, names: Seq<Seq<char>>)
    ensures
        service_infos(plan, v, names) == v.filter(|e: ServiceEntry| names.len() == 0 || names.contains(e.name@)).map_values(
            |e: ServiceEntry| service_info_of(plan, e),
        ),
    decreases v.len(),
{
    reveal(Seq::filter);
    let pred = |e: ServiceEntry| names.len() == 0 || names.contains(e.name@);
    let f = |e: ServiceEntry| service_info_of(plan, e);
    if v.len() == 0 {
        assert(v.filter(pred).map_values(f) =~= service_infos(plan, v, names));
    } else {
        law_service_infos_select(plan, v.drop_last(), names);
        let sub = v.drop_last().filter(pred);
        if pred(v.last()) {
            assert(sub.push(v.last()).map_values(f) =~= sub.map_values(f).push(f(v.last())));
        }
    }
}

/// The alerts reported for a name list: a report of each plan alert that it
/// names, or of every one when it names none, in plan order.
pub proof fn law_alert_infos_select(
    alerts: Seq<(String, AlertConfig)>,
    statuses: Seq<(Seq<char>, CheckStatus)>,
    names: Seq<Seq<char>>,
)
    ensures
        alert_infos(alerts, statuses, names) == alerts.filter(
            |a: (String, AlertConfig)| names.len() == 0 || names.contains(a.0@),
        ).map_values(|a: (String, AlertConfig)| alert_info_of(a.0@, a.1, statuses)),
    decreases alerts.len(),
{
    reveal(Seq::filter);
    let pred = |a: (String, AlertConfig)| names.len() == 0 || names.contains(a.0@);
    let f = |a: (String, AlertConfig)| alert_info_of(a.0@, a.1, statuses);
    if alerts.len() == 0 {
        assert(alerts.filter(pred).map_values(f) =~= alert_infos(alerts, statuses, names));
    } else {
        law_alert_infos_select(alerts.drop_last(), statuses, names);
        let sub = alerts.drop_last().filter(pred);
        if pred(alerts.last()) {
            assert(sub.push(alerts.last()).map_values(f) =~= sub.map_values(f).push(f(alerts.last())));
        }
    }
}

} // verus!
