//! The merged plan: service, check and alert configuration.
use vstd::prelude::*;

use crate::alert::AlertConfig;

use crate::kv::{copy_pairs, pairs_view};
use crate::text::{clone_opt, opt_view, str_equal};

verus! {

/// Whether a service or check starts automatically.
#[derive(Clone, Copy, Debug, PartialEq, Eq, Structural)]
pub enum Startup {
    Enabled,
    Disabled,
}

/// What happens when a service exits or a check fails.
#[derive(Clone, Copy, Debug, PartialEq, Eq, Structural)]
pub enum OnExit {
    Restart,
    Ignore,
    Shutdown,
    FailureShutdown,
    SuccessShutdown,
}

/// The layer-file spelling of an exit policy.
pub open spec fn on_exit_text(policy: OnExit) -> Seq<char> {
    match policy {
        OnExit::Restart => "restart"@,
        OnExit::Ignore => "ignore"@,
        OnExit::Shutdown => "shutdown"@,
        OnExit::FailureShutdown => "failure-shutdown"@,
        OnExit::SuccessShutdown => "success-shutdown"@,
    }
}

/// The layer-file spelling of an exit policy.
pub fn fmt_on_exit(policy: OnExit) -> (s: String)
    ensures
        s@ == on_exit_text(policy),
{
    let t: &str = match policy {
        OnExit::Restart => "restart",
        OnExit::Ignore => "ignore",
        OnExit::Shutdown => "shutdown",
        OnExit::FailureShutdown => "failure-shutdown",
        OnExit::SuccessShutdown => "success-shutdown",
    };
    t.to_owned()
}

/// Level of a health check.
#[derive(Clone, Copy, Debug, PartialEq, Eq, Structural)]
pub enum CheckLevel {
    Unset,
    Alive,
    Ready,
}

/// Configuration of a supervised service, as far as supervision reads it.
#[derive(Debug)]
pub struct ServiceConfig {
    pub command: String,
    pub startup: Startup,
    /// Services that must be running before this one starts.
    pub after: Vec<String>,
    /// Services that this one must start before.
    pub before: Vec<String>,
    /// Services that must be running before this one starts and whose
    /// permanent stop stops this one.
    pub requires: Vec<String>,
    pub environment: Vec<(String, String)>,
    pub user: Option<String>,
    pub user_id: Option<u32>,
    pub group: Option<String>,
    pub group_id: Option<u32>,
    pub working_dir: Option<String>,
    /// Name of the stop signal (`SIGTERM` when unset).
    pub stop_signal: Option<String>,
    /// How long a stopping service may take before it is killed (`5s` when
    /// unset or unreadable).
    pub kill_delay: Option<String>,
    /// The first delay before a restart (`500ms` when unset or unreadable).
    pub backoff_delay: Option<String>,
    /// The longest delay before a restart (`30s` when unset or unreadable).
    pub backoff_limit: Option<String>,
    pub on_success: Option<OnExit>,
    pub on_failure: Option<OnExit>,
    /// Action per failing check.
    pub on_check_failure: Vec<(String, OnExit)>,
}

/// HTTP probe settings.
#[derive(Debug)]
pub struct HttpCheck {
    pub url: String,
    pub headers: Vec<(String, String)>,
    pub insecure: bool,
    pub ca: Option<String>,
    /// Statuses that count as success; empty means any 2xx.
    pub success_statuses: Vec<u16>,
}

/// TCP probe settings.
#[derive(Debug)]
pub struct TcpCheck {
    pub host: Option<String>,
    pub port: u16,
}

/// Exec probe settings.
#[derive(Debug)]
pub struct ExecCheck {
    pub command: String,
    pub service_context: Option<String>,
    pub environment: Vec<(String, String)>,
    pub user: Option<String>,
    pub user_id: Option<u32>,
    pub group: Option<String>,
    pub group_id: Option<u32>,
    pub working_dir: Option<String>,
}

/// Configuration of a health check.
#[derive(Debug)]
pub struct CheckConfig {
    pub level: CheckLevel,
    pub startup: Startup,
    pub delay: Option<String>,
    pub period: Option<String>,
    pub timeout: Option<String>,
    pub threshold: Option<u32>,
    pub http: Option<HttpCheck>,
    pub tcp: Option<TcpCheck>,
    /// Exec probe (`exec:` in layer files).
    pub exec_check: Option<ExecCheck>,
}

/// The merged plan.
#[derive(Debug)]
pub struct Plan {
    pub services: Vec<(String, ServiceConfig)>,
    pub checks: Vec<(String, CheckConfig)>,
    pub alerts: Vec<(String, AlertConfig)>,
    pub alert_queue_depth: Option<usize>,
    pub alert_max_queue_time: Option<String>,
}

/// The names of a named table.
pub open spec fn names_of<T>(v: Seq<(String, T)>) -> Seq<Seq<char>> {
    v.map_values(|p: (String, T)| p.0@)
}

/// The position of `name` in a named table (its first entry).
pub open spec fn find_name<T>(v: Seq<(String, T)>, name: Seq<char>) -> Option<int>
    decreases v.len(),
{
    if v.len() == 0 {
        None
    } else {
        match find_name(v.drop_last(), name) {
            Some(k) => Some(k),
            None => if v.last().0@ == name {
                Some(v.len() - 1)
            } else {
                None
            },
        }
    }
}

proof fn lemma_find_name_prefix<T>(v: Seq<(String, T)>, name: Seq<char>, i: int)
    requires
        0 <= i <= v.len(),
        forall|k: int| 0 <= k < i ==> (#[trigger] v[k]).0@ != name,
    ensures
        find_name(v.take(i), name) is None,
    decreases i,
{
    if i > 0 {
        assert(v.take(i).drop_last() =~= v.take(i - 1));
        lemma_find_name_prefix(v, name, i - 1);
    }
}

proof fn lemma_find_name_extend<T>(v: Seq<(String, T)>, name: Seq<char>, i: int)
    requires
        0 <= i < v.len(),
        find_name(v.take(i + 1), name) is Some,
    ensures
        find_name(v, name) == find_name(v.take(i + 1), name),
    decreases v.len() - i,
{
    if i + 1 < v.len() {
        assert(v.take(i + 2).drop_last() =~= v.take(i + 1));
        lemma_find_name_extend(v, name, i + 1);
    } else {
        assert(v.take(i + 1) =~= v);
    }
}

/// A name that occurs in a table is found, at or before the occurrence.
pub proof fn lemma_find_name_found<T>(v: Seq<(String, T)>, m: int)
    requires
        0 <= m < v.len(),
    ensures
        find_name(v, v[m].0@) matches Some(k) && 0 <= k <= m && v[k].0@ == v[m].0@,
    decreases v.len(),
{
    if m < v.len() - 1 {
        lemma_find_name_found(v.drop_last(), m);
    } else {
        lemma_find_name_in(v.drop_last(), v[m].0@);
    }
}

pub proof fn lemma_find_name_in<T>(v: Seq<(String, T)>, name: Seq<char>)
    ensures
        find_name(v, name) matches Some(k) ==> 0 <= k < v.len() && v[k].0@ == name,
    decreases v.len(),
{
    if v.len() > 0 {
        lemma_find_name_in(v.drop_last(), name);
    }
}

/// The position of `name` in a named table.
pub fn find_named<T>(v: &Vec<(String, T)>, name: &str) -> (r: Option<usize>)
    ensures
        r matches Some(k) ==> find_name(v@, name@) == Some(k as int) && k < v.len() && v@[k as int].0@ == name@,
        r is None ==> find_name(v@, name@) is None,
{
    let mut i: usize = 0;
    while i < v.len()
        invariant
            i <= v.len(),
            forall|k: int| 0 <= k < i ==> (#[trigger] v@[k]).0@ != name@,
        decreases v.len() - i,
    {
        if str_equal(v[i].0.as_str(), name) {
            proof {
                lemma_find_name_prefix(v@, name@, i as int);
                assert(v@.take(i + 1).drop_last() =~= v@.take(i as int));
                lemma_find_name_extend(v@, name@, i as int);
            }
            return Some(i);
        }
        i = i + 1;
    }
    proof {
        lemma_find_name_prefix(v@, name@, v.len() as int);
        assert(v@.take(v.len() as int) =~= v@);
    }
    None
}

/// The view of a list of names.
pub open spec fn names_view(v: Seq<String>) -> Seq<Seq<char>> {
    v.map_values(|s: String| s@)
}

} // verus!

verus! {

// ---------------------------------------------------------------------------
// Check configurations as values
// ---------------------------------------------------------------------------

/// The value of an HTTP probe's settings.
pub struct HttpCheckView {
    pub url: Seq<char>,
    pub headers: Seq<(Seq<char>, Seq<char>)>,
    pub insecure: bool,
    pub ca: Option<Seq<char>>,
    pub success_statuses: Seq<u16>,
}

/// The value of a TCP probe's settings.
pub struct TcpCheckView {
    pub host: Option<Seq<char>>,
    pub port: u16,
}

/// The value of an exec probe's settings.
pub struct ExecCheckView {
    pub command: Seq<char>,
    pub service_context: Option<Seq<char>>,
    pub environment: Seq<(Seq<char>, Seq<char>)>,
    pub user: Option<Seq<char>>,
    pub user_id: Option<u32>,
    pub group: Option<Seq<char>>,
    pub group_id: Option<u32>,
    pub working_dir: Option<Seq<char>>,
}

/// The value of a check's configuration.
pub struct CheckConfigView {
    pub level: CheckLevel,
    pub startup: Startup,
    pub delay: Option<Seq<char>>,
    pub period: Option<Seq<char>>,
    pub timeout: Option<Seq<char>>,
    pub threshold: Option<u32>,
    pub http: Option<HttpCheckView>,
    pub tcp: Option<TcpCheckView>,
    pub exec_check: Option<ExecCheckView>,
}

/// The value of a check's configuration: two configurations with the same
/// value configure the same check.
pub open spec fn check_config_view(c: CheckConfig) -> CheckConfigView {
    CheckConfigView {
        level: c.level,
        startup: c.startup,
        delay: opt_view(c.delay),
        period: opt_view(c.period),
        timeout: opt_view(c.timeout),
        threshold: c.threshold,
        http: match c.http {
            Some(h) => Some(
                HttpCheckView {
                    url: h.url@,
                    headers: pairs_view(h.headers@),
                    insecure: h.insecure,
                    ca: opt_view(h.ca),
                    success_statuses: h.success_statuses@,
                },
            ),
            None => None,
        },
        tcp: match c.tcp {
            Some(t) => Some(TcpCheckView { host: opt_view(t.host), port: t.port }),
            None => None,
        },
        exec_check: match c.exec_check {
            Some(e) => Some(
                ExecCheckView {
                    command: e.command@,
                    service_context: opt_view(e.service_context),
                    environment: pairs_view(e.environment@),
                    user: opt_view(e.user),
                    user_id: e.user_id,
                    group: opt_view(e.group),
                    group_id: e.group_id,
                    working_dir: opt_view(e.working_dir),
                },
            ),
            None => None,
        },
    }
}

fn opt_str_equal(a: &Option<String>, b: &Option<String>) -> (r: bool)
    ensures
        r == (opt_view(*a) == opt_view(*b)),
{
    match (a, b) {
        (Some(x), Some(y)) => str_equal(x.as_str(), y.as_str()),
        (None, None) => true,
        _ => false,
    }
}

fn pairs_equal(a: &Vec<(String, String)>, b: &Vec<(String, String)>) -> (r: bool)
    ensures
        r == (pairs_view(a@) == pairs_view(b@)),
{
    if a.len() != b.len() {
        proof {
            assert(pairs_view(a@).len() != pairs_view(b@).len());
        }
        return false;
    }
    let mut i: usize = 0;
    while i < a.len()
        invariant
            i <= a.len(),
            a.len() == b.len(),
            forall|k: int| 0 <= k < i ==> pairs_view(a@)[k] == pairs_view(b@)[k],
        decreases a.len() - i,
    {
        if !str_equal(a[i].0.as_str(), b[i].0.as_str()) || !str_equal(a[i].1.as_str(), b[i].1.as_str()) {
            proof {
                assert(pairs_view(a@)[i as int] != pairs_view(b@)[i as int]);
            }
            return false;
        }
        i = i + 1;
    }
    proof {
        assert(pairs_view(a@) =~= pairs_view(b@));
    }
    true
}

fn u16s_equal(a: &Vec<u16>, b: &Vec<u16>) -> (r: bool)
    ensures
        r == (a@ == b@),
{
    if a.len() != b.len() {
        return false;
    }
    let mut i: usize = 0;
    while i < a.len()
        invariant
            i <= a.len(),
            a.len() == b.len(),
            forall|k: int| 0 <= k < i ==> a@[k] == b@[k],
        decreases a.len() - i,
    {
        if a[i] != b[i] {
            return false;
        }
        i = i + 1;
    }
    proof {
        assert(a@ =~= b@);
    }
    true
}

fn copy_u16s(a: &Vec<u16>) -> (r: Vec<u16>)
    ensures
        r@ == a@,
{
    let mut r: Vec<u16> = Vec::new();
    let mut i: usize = 0;
    while i < a.len()
        invariant
            i <= a.len(),
            r@ == a@.take(i as int),
        decreases a.len() - i,
    {
        r.push(a[i]);
        proof {
            assert(a@.take(i + 1) =~= a@.take(i as int).push(a@[i as int]));
        }
        i = i + 1;
    }
    proof {
        assert(a@.take(a.len() as int) =~= a@);
    }
    r
}

impl CheckConfig {
    /// Whether two configurations configure the same check.
    pub fn same_as(&self, other: &CheckConfig) -> (r: bool)
        ensures
            r == (check_config_view(*self) == check_config_view(*other)),
    {
        if self.level != other.level || self.startup != other.startup || self.threshold != other.threshold {
            return false;
        }
        if !opt_str_equal(&self.delay, &other.delay) || !opt_str_equal(&self.period, &other.period)
            || !opt_str_equal(&self.timeout, &other.timeout) {
            return false;
        }
        let http_same = match (&self.http, &other.http) {
            (Some(a), Some(b)) => str_equal(a.url.as_str(), b.url.as_str()) && pairs_equal(&a.headers, &b.headers)
                && a.insecure == b.insecure && opt_str_equal(&a.ca, &b.ca) && u16s_equal(
                &a.success_statuses,
                &b.success_statuses,
            ),
            (None, None) => true,
            _ => false,
        };
        if !http_same {
            return false;
        }
        let tcp_same = match (&self.tcp, &other.tcp) {
            (Some(a), Some(b)) => opt_str_equal(&a.host, &b.host) && a.port == b.port,
            (None, None) => true,
            _ => false,
        };
        if !tcp_same {
            return false;
        }
        match (&self.exec_check, &other.exec_check) {
            (Some(a), Some(b)) => str_equal(a.command.as_str(), b.command.as_str()) && opt_str_equal(
                &a.service_context,
                &b.service_context,
            ) && pairs_equal(&a.environment, &b.environment) && opt_str_equal(&a.user, &b.user)
                && a.user_id == b.user_id && opt_str_equal(&a.group, &b.group) && a.group_id == b.group_id
                && opt_str_equal(&a.working_dir, &b.working_dir),
            (None, None) => true,
            _ => false,
        }
    }

    /// A copy of this configuration.
    pub fn duplicate(&self) -> (r: CheckConfig)
        ensures
            check_config_view(r) == check_config_view(*self),
    {
        CheckConfig {
            level: self.level,
            startup: self.startup,
            delay: clone_opt(&self.delay),
            period: clone_opt(&self.period),
            timeout: clone_opt(&self.timeout),
            threshold: self.threshold,
            http: match &self.http {
                Some(h) => Some(
                    HttpCheck {
                        url: h.url.clone(),
                        headers: copy_pairs(&h.headers),
                        insecure: h.insecure,
                        ca: clone_opt(&h.ca),
                        success_statuses: copy_u16s(&h.success_statuses),
                    },
                ),
                None => None,
            },
            tcp: match &self.tcp {
                Some(t) => Some(TcpCheck { host: clone_opt(&t.host), port: t.port }),
                None => None,
            },
            exec_check: match &self.exec_check {
                Some(e) => Some(
                    ExecCheck {
                        command: e.command.clone(),
                        service_context: clone_opt(&e.service_context),
                        environment: copy_pairs(&e.environment),
                        user: clone_opt(&e.user),
                        user_id: e.user_id,
                        group: clone_opt(&e.group),
                        group_id: e.group_id,
                        working_dir: clone_opt(&e.working_dir),
                    },
                ),
                None => None,
            },
        }
    }
}

} // verus!

verus! {

// ---------------------------------------------------------------------------
// Layers
// ---------------------------------------------------------------------------

/// `t` with `entry` set: an entry of the same name is replaced in place, a new
/// name is appended.
pub open spec fn upsert<T>(t: Seq<(String, T)>, entry: (String, T)) -> Seq<(String, T)> {
    match find_name(t, entry.0@) {
        Some(k) => t.update(k, entry),
        None => t.push(entry),
    }
}

/// `t` with each entry of `entries` set in turn.
pub open spec fn upsert_all<T>(t: Seq<(String, T)>, entries: Seq<(String, T)>) -> Seq<(String, T)>
    decreases entries.len(),
{
    if entries.len() == 0 {
        t
    } else {
        upsert(upsert_all(t, entries.drop_last()), entries.last())
    }
}

/// Set `entry` in `t`.
pub fn upsert_exec<T>(t: &mut Vec<(String, T)>, entry: (String, T))
    ensures
        final(t)@ == upsert(old(t)@, entry),
{
    match find_named(t, entry.0.as_str()) {
        Some(k) => {
            let _replaced = t.remove(k);
            t.insert(k, entry);
            proof {
                assert(t@ =~= old(t)@.update(k as int, entry));
            }
        },
        None => {
            t.push(entry);
        },
    }
}

/// Set every entry of `entries` in `t`, in order.
pub fn upsert_all_exec<T>(t: &mut Vec<(String, T)>, entries: Vec<(String, T)>)
    ensures
        final(t)@ == upsert_all(old(t)@, entries@),
{
    let ghost all = entries@;
    let mut rest = entries;
    let mut i: usize = 0;
    assert(all.len() == rest.len());
    while rest.len() > 0
        invariant
            i <= all.len(),
            all.len() <= usize::MAX,
            i + rest@.len() == all.len(),
            rest@ == all.skip(i as int),
            t@ == upsert_all(old(t)@, all.take(i as int)),
        decreases rest.len(),
    {
        let ghost rb = rest@;
        let e = rest.remove(0);
        proof {
            assert(rb[0] == all[i as int]);
            assert(rest@ =~= all.skip(i + 1));
            assert(all.take(i + 1).drop_last() =~= all.take(i as int));
        }
        upsert_exec(t, e);
        i = i + 1;
    }
    proof {
        assert(all.take(i as int) =~= all);
    }
}

impl Plan {
    /// The empty plan.
    pub fn empty() -> (p: Plan)
        ensures
            p.services@.len() == 0,
            p.checks@.len() == 0,
            p.alerts@.len() == 0,
            p.alert_queue_depth is None,
            p.alert_max_queue_time is None,
    {
        Plan { services: Vec::new(), checks: Vec::new(), alerts: Vec::new(), alert_queue_depth: None, alert_max_queue_time: None }
    }

    /// Apply a layer on top of this plan: each service, check and alert of the
    /// layer replaces the one of the same name (or is added), and the queue
    /// limits the layer sets win.
    pub fn apply_layer(&mut self, layer: Plan)
        ensures
            final(self).services@ == upsert_all(old(self).services@, layer.services@),
            final(self).checks@ == upsert_all(old(self).checks@, layer.checks@),
            final(self).alerts@ == upsert_all(old(self).alerts@, layer.alerts@),
            final(self).alert_queue_depth == (match layer.alert_queue_depth {
                Some(d) => Some(d),
                None => old(self).alert_queue_depth,
            }),
            opt_view(final(self).alert_max_queue_time) == (match layer.alert_max_queue_time {
                Some(t) => Some(t@),
                None => opt_view(old(self).alert_max_queue_time),
            }),
    {
        let Plan { services, checks, alerts, alert_queue_depth, alert_max_queue_time } = layer;
        upsert_all_exec(&mut self.services, services);
        upsert_all_exec(&mut self.checks, checks);
        upsert_all_exec(&mut self.alerts, alerts);
        match alert_queue_depth {
            Some(d) => self.alert_queue_depth = Some(d),
            None => {},
        }
        match alert_max_queue_time {
            Some(t) => self.alert_max_queue_time = Some(t),
            None => {},
        }
    }
}

/// A later layer wins: after applying a layer, every service it defines is
/// the layer's definition.
pub proof fn law_later_layer_wins<T>(t: Seq<(String, T)>, entry: (String, T))
    ensures
        find_name(upsert(t, entry), entry.0@) matches Some(k) && upsert(t, entry)[k] == entry,
{
    match find_name(t, entry.0@) {
        Some(k) => {
            lemma_find_name_in(t, entry.0@);
            lemma_find_name_update(t, k, entry);
        },
        None => {
            lemma_find_name_push_absent(t, entry);
        },
    }
}

proof fn lemma_find_name_update<T>(t: Seq<(String, T)>, k: int, entry: (String, T))
    requires
        find_name(t, entry.0@) == Some(k),
        0 <= k < t.len(),
        t[k].0@ == entry.0@,
    ensures
        find_name(t.update(k, entry), entry.0@) == Some(k),
    decreases t.len(),
{
    let u = t.update(k, entry);
    if k < t.len() - 1 {
        assert(u.drop_last() =~= t.drop_last().update(k, entry));
        lemma_find_name_prefix_some(t, entry.0@, k);
        lemma_find_name_update(t.drop_last(), k, entry);
    } else {
        assert(u.drop_last() =~= t.drop_last());
    }
}

proof fn lemma_find_name_prefix_some<T>(t: Seq<(String, T)>, name: Seq<char>, k: int)
    requires
        find_name(t, name) == Some(k),
        k < t.len() - 1,
    ensures
        find_name(t.drop_last(), name) == Some(k),
{
}

proof fn lemma_find_name_push_absent<T>(t: Seq<(String, T)>, entry: (String, T))
    requires
        find_name(t, entry.0@) is None,
    ensures
        find_name(t.push(entry), entry.0@) == Some(t.len() as int),
{
    assert(t.push(entry).drop_last() =~= t);
}

} // verus!

verus! {

/// Whether no two entries of the table `t` share a name.
pub open spec fn names_distinct<T>(t: Seq<(String, T)>) -> bool {
    forall|i: int, j: int| 0 <= i < j < t.len() ==> t[i].0@ != t[j].0@
}

proof fn lemma_upsert_keeps_distinct<T>(t: Seq<(String, T)>, entry: (String, T))
    requires
        names_distinct(t),
    ensures
        names_distinct(upsert(t, entry)),
{
    let r = upsert(t, entry);
    match find_name(t, entry.0@) {
        Some(k) => {
            lemma_find_name_in(t, entry.0@);
            assert forall|i: int, j: int| 0 <= i < j < r.len() implies r[i].0@ != r[j].0@ by {
                assert(r[i].0@ == t[i].0@);
                assert(r[j].0@ == t[j].0@);
            }
        },
        None => {
            assert forall|m: int| 0 <= m < t.len() implies t[m].0@ != entry.0@ by {
                if t[m].0@ == entry.0@ {
                    lemma_find_name_found(t, m);
                }
            }
            assert forall|i: int, j: int| 0 <= i < j < r.len() implies r[i].0@ != r[j].0@ by {
                if j == t.len() {
                    assert(r[i] == t[i]);
                } else {
                    assert(r[i] == t[i] && r[j] == t[j]);
                }
            }
        },
    }
}

/// Merging a layer never makes two entries of a table share a name: a table
/// whose names are distinct keeps them distinct whatever entries are set in it.
pub proof fn law_merge_keeps_names_distinct<T>(t: Seq<(String, T)>, entries: Seq<(String, T)>)
    requires
        names_distinct(t),
    ensures
        names_distinct(upsert_all(t, entries)),
    decreases entries.len(),
{
    if entries.len() > 0 {
        law_merge_keeps_names_distinct(t, entries.drop_last());
        lemma_upsert_keeps_distinct(upsert_all(t, entries.drop_last()), entries.last());
    }
}

/// A plan merged from layers, starting from the empty plan, has distinct
/// service, check and alert names.
pub proof fn law_merged_plan_names_distinct(p: Plan, layer: Plan)
    requires
        names_distinct(p.services@),
        names_distinct(p.checks@),
        names_distinct(p.alerts@),
    ensures
        names_distinct(upsert_all(p.services@, layer.services@)),
        names_distinct(upsert_all(p.checks@, layer.checks@)),
        names_distinct(upsert_all(p.alerts@, layer.alerts@)),
{
    law_merge_keeps_names_distinct(p.services@, layer.services@);
    law_merge_keeps_names_distinct(p.checks@, layer.checks@);
    law_merge_keeps_names_distinct(p.alerts@, layer.alerts@);
}

/// Tables with the same names at the same positions find a name at the same
/// position.
pub proof fn lemma_find_name_same_names<T>(a: Seq<(String, T)>, b: Seq<(String, T)>, name: Seq<char>)
    requires
        a.len() == b.len(),
        forall|i: int| 0 <= i < a.len() ==> (#[trigger] a[i]).0@ == b[i].0@,
    ensures
        find_name(a, name) == find_name(b, name),
    decreases a.len(),
{
    if a.len() > 0 {
        lemma_find_name_same_names(a.drop_last(), b.drop_last(), name);
        assert(a.last().0@ == b.last().0@);
    }
}

/// Setting an entry of another name leaves where a name is found, and what
/// is found there, as it was.
pub proof fn lemma_upsert_other<T>(t: Seq<(String, T)>, e: (String, T), n: Seq<char>)
    requires
        e.0@ != n,
    ensures
        find_name(upsert(t, e), n) == find_name(t, n),
        find_name(t, n) matches Some(k) ==> upsert(t, e)[k] == t[k],
{
    lemma_find_name_in(t, n);
    match find_name(t, e.0@) {
        Some(k0) => {
            lemma_find_name_in(t, e.0@);
            let u = t.update(k0, e);
            lemma_find_name_same_names(u, t, n);
        },
        None => {
            assert(t.push(e).drop_last() =~= t);
        },
    }
}

/// Layers set entries by name: after a layer's entries are set in turn, a
/// name that the layer defines is found holding the layer's last definition
/// of it, and a name it does not define is found where, and as, it was.
pub proof fn law_layer_lookup<T>(t: Seq<(String, T)>, entries: Seq<(String, T)>, n: Seq<char>)
    ensures
        (forall|j: int| 0 <= j < entries.len() ==> (#[trigger] entries[j]).0@ != n) ==> find_name(
            upsert_all(t, entries),
            n,
        ) == find_name(t, n) && (find_name(t, n) matches Some(k) ==> upsert_all(t, entries)[k] == t[k]),
        forall|j: int|
            0 <= j < entries.len() && (#[trigger] entries[j]).0@ == n && (forall|l: int| j < l < entries.len() ==> entries[l].0@
                != n) ==> (find_name(upsert_all(t, entries), n) matches Some(k) && upsert_all(t, entries)[k] == entries[j]),
    decreases entries.len(),
{
    if entries.len() > 0 {
        let pre = entries.drop_last();
        let e = entries.last();
        let u = upsert_all(t, pre);
        law_layer_lookup(t, pre, n);
        assert(entries[entries.len() - 1] == e);
        if e.0@ == n {
            law_later_layer_wins(u, e);
        } else {
            lemma_upsert_other(u, e, n);
            assert forall|j: int| 0 <= j < pre.len() implies #[trigger] pre[j] == entries[j] by {}
            assert forall|j: int|
                0 <= j < entries.len() && (#[trigger] entries[j]).0@ == n && (forall|l: int| j < l < entries.len() ==> entries[l].0@
                    != n) implies (find_name(upsert_all(t, entries), n) matches Some(k) && upsert_all(t, entries)[k]
                == entries[j]) by {
                assert(j < pre.len());
                assert(pre[j] == entries[j]);
                assert forall|l: int| j < l < pre.len() implies pre[l].0@ != n by {
                    assert(pre[l] == entries[l]);
                }
                lemma_find_name_in(u, n);
            }
            if forall|j: int| 0 <= j < entries.len() ==> (#[trigger] entries[j]).0@ != n {
                assert forall|j: int| 0 <= j < pre.len() implies (#[trigger] pre[j]).0@ != n by {
                    assert(pre[j] == entries[j]);
                }
            }
        }
    }
}

} // verus!

