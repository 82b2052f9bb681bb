//! Alert routing — decides which HTTP(S) notifications fire on check state
//! transitions, how their fields are resolved and how delivery is retried.
//!
//! Values in `labels` and `send_info_fields` (and the url, proxy and headers)
//! that start with `"env:"` are resolved from the process environment at send
//! time; the environment is handed in as a table of `(name, value)` pairs.
use std::time::Duration;

use vstd::prelude::*;

use crate::duration::{duration_as_secs, duration_from_secs, parse_duration_millis, secs_duration, whole_secs};
use crate::kv::{copy_pairs, lookup, lookup_exec, pairs_view};
use crate::text::{
    clone_opt, concat, opt_view, str_chars, str_equal, string_from_chars, string_of, strings_view, sub_chars,
};

verus! {

/// Status of a health check.
#[derive(Clone, Copy, Debug, PartialEq, Eq, Structural)]
pub enum CheckStatus {
    Up,
    Down,
}

/// Wire format of an alert.
#[derive(Clone, Copy, Debug, PartialEq, Eq, Structural)]
pub enum AlertFormat {
    Webhook,
    Alertmanager,
    CloudEvents,
    OtlpLogs,
}

/// Configuration of one alert endpoint.
#[derive(Debug)]
pub struct AlertConfig {
    pub url: String,
    pub format: AlertFormat,
    /// Names of the checks this alert is subscribed to.
    pub on_check: Vec<String>,
    pub headers: Vec<(String, String)>,
    pub labels: Vec<(String, String)>,
    pub send_info_fields: Vec<(String, String)>,
    pub tls_insecure: bool,
    pub tls_ca: Option<String>,
    pub proxy: Option<String>,
    pub proxy_ca: Option<String>,
    pub no_proxy: Option<String>,
    pub retry_attempts: Option<u32>,
    pub retry_backoff: Vec<String>,
    pub body_template: Option<String>,
}

/// Built-in default for `alerts.max-queue-depth` (overridable per layer file).
pub const DEFAULT_DELIVERY_QUEUE: usize = 256;

/// Built-in default for `alerts.max-queue-time`, in seconds.
pub const DEFAULT_DELIVERY_AGE_SECS: u64 = 60;

/// Built-in default for `alerts.max-queue-time`: 60 seconds.
pub fn default_delivery_age() -> (d: Duration)
    ensures
        d == secs_duration(60),
        whole_secs(d) == 60,
{
    duration_from_secs(DEFAULT_DELIVERY_AGE_SECS)
}

/// `"down"` for `Down`, `"up"` otherwise.
pub open spec fn status_text(status: CheckStatus) -> Seq<char> {
    if status == CheckStatus::Down {
        "down"@
    } else {
        "up"@
    }
}

/// The status as it appears in alert payloads.
pub fn status_str(status: CheckStatus) -> (s: &'static str)
    ensures
        s@ == status_text(status),
        status == CheckStatus::Down ==> s@ == "down"@,
        status == CheckStatus::Up ==> s@ == "up"@,
{
    if status == CheckStatus::Down {
        "down"
    } else {
        "up"
    }
}

// ---------------------------------------------------------------------------
// Field resolution
// ---------------------------------------------------------------------------

/// The prefix that marks a value as an environment reference.
pub open spec fn env_prefix() -> Seq<char> {
    seq!['e', 'n', 'v', ':']
}

/// The variable name that `val` refers to, when it starts with `env:`.
pub open spec fn env_reference(val: Seq<char>) -> Option<Seq<char>> {
    if val.len() >= 4 && val.take(4) == env_prefix() {
        Some(val.skip(4))
    } else {
        None
    }
}

/// The value of `val` in the environment `env`: a reference `env:NAME` gives
/// the value of `NAME` (empty when unset), any other value stands for itself.
pub open spec fn resolved(val: Seq<char>, env: Seq<(Seq<char>, Seq<char>)>) -> Seq<char> {
    match env_reference(val) {
        Some(name) => match lookup(env, name) {
            Some(v) => v,
            None => seq![],
        },
        None => val,
    }
}

/// The variable name of an `env:` reference.
pub fn env_reference_name(val: &str) -> (r: Option<String>)
    ensures
        match env_reference(val@) {
            Some(n) => r matches Some(s) && s@ == n,
            None => r is None,
        },
{
    let cs = str_chars(val);
    if cs.len() >= 4 && cs[0] == 'e' && cs[1] == 'n' && cs[2] == 'v' && cs[3] == ':' {
        proof {
            assert(val@.take(4) =~= env_prefix());
        }
        let rest = sub_chars(&cs, 4, cs.len());
        proof {
            assert(rest@ =~= val@.skip(4));
        }
        Some(string_from_chars(&rest))
    } else {
        proof {
            if val@.len() >= 4 && val@.take(4) == env_prefix() {
                assert(val@.take(4)[0] == 'e');
                assert(val@.take(4)[1] == 'n');
                assert(val@.take(4)[2] == 'v');
                assert(val@.take(4)[3] == ':');
            }
        }
        None
    }
}

/// A value `env:NAME` resolves to the first value of `NAME` in the
/// environment, or to the empty string when `NAME` is unset; a value that
/// does not start with `env:` resolves to itself.
pub proof fn law_env_reference(name: Seq<char>, val: Seq<char>, env: Seq<(Seq<char>, Seq<char>)>)
    ensures
        resolved("env:"@ + name, env) == (match lookup(env, name) {
            Some(v) => v,
            None => Seq::<char>::empty(),
        }),
        !(val.len() >= 4 && val.take(4) == "env:"@) ==> resolved(val, env) == val,
{
    reveal_strlit("env:");
    let v = "env:"@ + name;
    assert(v.take(4) =~= env_prefix());
    assert(v.skip(4) =~= name);
    assert("env:"@ =~= env_prefix());
}

/// Resolve `val` against the environment `env`.
pub fn resolve(val: &str, env: &Vec<(String, String)>) -> (r: String)
    ensures
        r@ == resolved(val@, pairs_view(env@)),
        (val@.len() >= 4 && val@.take(4) == "env:"@) ==> r@ == (match lookup(pairs_view(env@), val@.skip(4)) {
            Some(v) => v,
            None => Seq::<char>::empty(),
        }),
        !(val@.len() >= 4 && val@.take(4) == "env:"@) ==> r@ == val@,
{
    proof {
        law_env_reference(val@.skip(4), val@, pairs_view(env@));
        if val@.len() >= 4 && val@.take(4) == "env:"@ {
            assert(val@ =~= "env:"@ + val@.skip(4));
        }
    }
    match env_reference_name(val) {
        Some(name) => match lookup_exec(env, name.as_str()) {
            Some(v) => v,
            None => String::new(),
        },
        None => string_of(val),
    }
}

/// Each value of the table `t` resolved against `env`.
pub open spec fn resolved_pairs(
    t: Seq<(Seq<char>, Seq<char>)>,
    env: Seq<(Seq<char>, Seq<char>)>,
) -> Seq<(Seq<char>, Seq<char>)> {
    t.map_values(|p: (Seq<char>, Seq<char>)| (p.0, resolved(p.1, env)))
}

/// The table `map` with every value resolved against `env`.
pub fn resolved_map(map: &Vec<(String, String)>, env: &Vec<(String, String)>) -> (r: Vec<
    (String, String),
>)
    ensures
        pairs_view(r@) == resolved_pairs(pairs_view(map@), pairs_view(env@)),
{
    let mut r: Vec<(String, String)> = Vec::new();
    let mut i: usize = 0;
    while i < map.len()
        invariant
            i <= map.len(),
            pairs_view(r@) == resolved_pairs(pairs_view(map@), pairs_view(env@)).take(i as int),
        decreases map.len() - i,
    {
        let k = map[i].0.clone();
        let v = resolve(map[i].1.as_str(), env);
        let ghost before = r@;
        r.push((k, v));
        proof {
            assert(pairs_view(r@) =~= pairs_view(before).push((k@, v@)));
            assert(resolved_pairs(pairs_view(map@), pairs_view(env@)).take(i + 1) =~= resolved_pairs(
                pairs_view(map@),
                pairs_view(env@),
            ).take(i as int).push((k@, v@)));
        }
        i = i + 1;
    }
    proof {
        assert(resolved_pairs(pairs_view(map@), pairs_view(env@)).take(map.len() as int)
            =~= resolved_pairs(pairs_view(map@), pairs_view(env@)));
    }
    r
}

/// Whether `val` refers to a variable that is unset or empty in `env`.
pub open spec fn refers_to_unset(val: Seq<char>, env: Seq<(Seq<char>, Seq<char>)>) -> bool {
    match env_reference(val) {
        Some(name) => match lookup(env, name) {
            Some(v) => v.len() == 0,
            None => true,
        },
        None => false,
    }
}

/// The warning `(field, variable)` for `val` in `field`, if `val` refers to an
/// unset or empty variable.
pub open spec fn unset_warning(field: Seq<char>, val: Seq<char>, env: Seq<(Seq<char>, Seq<char>)>) -> Seq<
    (Seq<char>, Seq<char>),
> {
    if refers_to_unset(val, env) {
        seq![(field, env_reference(val)->0)]
    } else {
        seq![]
    }
}

/// The warnings for the entries of table `t`, each field named `prefix` + key.
pub open spec fn table_warnings(
    prefix: Seq<char>,
    t: Seq<(Seq<char>, Seq<char>)>,
    env: Seq<(Seq<char>, Seq<char>)>,
) -> Seq<(Seq<char>, Seq<char>)>
    decreases t.len(),
{
    if t.len() == 0 {
        seq![]
    } else {
        table_warnings(prefix, t.drop_last(), env) + unset_warning(
            prefix + t.last().0,
            t.last().1,
            env,
        )
    }
}


/// The warnings of an optional field.
pub open spec fn opt_warning(field: Seq<char>, val: Option<Seq<char>>, env: Seq<(Seq<char>, Seq<char>)>) -> Seq<
    (Seq<char>, Seq<char>),
> {
    match val {
        Some(v) => unset_warning(field, v, env),
        None => seq![],
    }
}

/// Every `env:` reference of `cfg` to an unset or empty variable, as
/// `(field, variable)`, in the order url, proxy, no_proxy, headers, labels,
/// send_info_fields.
pub open spec fn unset_references(cfg: AlertConfig, env: Seq<(Seq<char>, Seq<char>)>) -> Seq<
    (Seq<char>, Seq<char>),
> {
    unset_warning("url"@, cfg.url@, env) + opt_warning("proxy"@, opt_view(cfg.proxy), env)
        + opt_warning("no_proxy"@, opt_view(cfg.no_proxy), env) + table_warnings(
        "headers."@,
        pairs_view(cfg.headers@),
        env,
    ) + table_warnings("labels."@, pairs_view(cfg.labels@), env) + table_warnings(
        "send_info_fields."@,
        pairs_view(cfg.send_info_fields@),
        env,
    )
}

fn push_warning(out: &mut Vec<(String, String)>, field: String, val: &str, env: &Vec<(String, String)>)
    ensures
        pairs_view(final(out)@) == pairs_view(old(out)@) + unset_warning(field@, val@, pairs_view(env@)),
{
    let ghost before = out@;
    match env_reference_name(val) {
        Some(name) => {
            let unset = match lookup_exec(env, name.as_str()) {
                Some(v) => v.as_str().is_empty(),
                None => true,
            };
            if unset {
                let ghost f = field@;
                let ghost n = name@;
                out.push((field, name));
                proof {
                    assert(pairs_view(out@) =~= pairs_view(before) + seq![(f, n)]);
                }
            } else {
                proof {
                    assert(pairs_view(out@) =~= pairs_view(before) + Seq::<(Seq<char>, Seq<char>)>::empty());
                }
            }
        },
        None => {
            proof {
                assert(pairs_view(out@) =~= pairs_view(before) + Seq::<(Seq<char>, Seq<char>)>::empty());
            }
        },
    }
}

fn push_table_warnings(
    out: &mut Vec<(String, String)>,
    prefix: &str,
    t: &Vec<(String, String)>,
    env: &Vec<(String, String)>,
)
    ensures
        pairs_view(final(out)@) == pairs_view(old(out)@) + table_warnings(prefix@, pairs_view(t@), pairs_view(env@)),
{
    let ghost start = pairs_view(out@);
    let mut i: usize = 0;
    proof {
        assert(pairs_view(t@).take(0) =~= Seq::<(Seq<char>, Seq<char>)>::empty());
        assert(start + Seq::<(Seq<char>, Seq<char>)>::empty() =~= start);
    }
    while i < t.len()
        invariant
            i <= t.len(),
            pairs_view(out@) == start + table_warnings(prefix@, pairs_view(t@).take(i as int), pairs_view(env@)),
        decreases t.len() - i,
    {
        let field = concat(prefix, t[i].0.as_str());
        let ghost mid = pairs_view(out@);
        push_warning(out, field, t[i].1.as_str(), env);
        proof {
            let tv = pairs_view(t@);
            assert(tv.take(i + 1).drop_last() =~= tv.take(i as int));
            assert(tv.take(i + 1).last() == tv[i as int]);
            assert(start + table_warnings(prefix@, tv.take(i as int), pairs_view(env@)) + unset_warning(
                prefix@ + tv[i as int].0,
                tv[i as int].1,
                pairs_view(env@),
            ) =~= start + (table_warnings(prefix@, tv.take(i as int), pairs_view(env@)) + unset_warning(
                prefix@ + tv[i as int].0,
                tv[i as int].1,
                pairs_view(env@),
            )));
        }
        i = i + 1;
    }
    proof {
        assert(pairs_view(t@).take(t.len() as int) =~= pairs_view(t@));
    }
}

/// Every `env:` reference of `cfg` to a variable that is unset or empty in
/// `env`, as `(field, variable)`: the fields that will resolve to empty text.
pub fn unset_env_references(cfg: &AlertConfig, env: &Vec<(String, String)>) -> (r: Vec<(String, String)>)
    ensures
        pairs_view(r@) == unset_references(*cfg, pairs_view(env@)),
{
    let mut out: Vec<(String, String)> = Vec::new();
    proof {
        assert(pairs_view(out@) =~= Seq::<(Seq<char>, Seq<char>)>::empty());
    }
    push_warning(&mut out, string_of("url"), cfg.url.as_str(), env);
    match &cfg.proxy {
        Some(p) => push_warning(&mut out, string_of("proxy"), p.as_str(), env),
        None => {},
    }
    let ghost a = pairs_view(out@);
    proof {
        assert(a + opt_warning("proxy"@, opt_view(cfg.proxy), pairs_view(env@)) =~= a + opt_warning("proxy"@, opt_view(cfg.proxy), pairs_view(env@)));
    }
    match &cfg.no_proxy {
        Some(p) => push_warning(&mut out, string_of("no_proxy"), p.as_str(), env),
        None => {},
    }
    push_table_warnings(&mut out, "headers.", &cfg.headers, env);
    push_table_warnings(&mut out, "labels.", &cfg.labels, env);
    push_table_warnings(&mut out, "send_info_fields.", &cfg.send_info_fields, env);
    proof {
        let e = pairs_view(env@);
        assert(pairs_view(out@) =~= unset_references(*cfg, e));
    }
    out
}


// ---------------------------------------------------------------------------
// AlertSender — deduplicating router
// ---------------------------------------------------------------------------

/// The position of the entry for `check` in the table `t` (the last one).
pub open spec fn status_index(t: Seq<(Seq<char>, CheckStatus)>, check: Seq<char>) -> Option<int>
    decreases t.len(),
{
    if t.len() == 0 {
        None
    } else if t.last().0 == check {
        Some(t.len() - 1)
    } else {
        status_index(t.drop_last(), check)
    }
}

/// The last known status of `check` in the table `t`.
pub open spec fn status_of(t: Seq<(Seq<char>, CheckStatus)>, check: Seq<char>) -> Option<CheckStatus> {
    match status_index(t, check) {
        Some(j) => Some(t[j].1),
        None => None,
    }
}

/// The table `t` with `check` recorded as `status`: its entry updated in
/// place, or a new entry appended.
pub open spec fn record_status(t: Seq<(Seq<char>, CheckStatus)>, check: Seq<char>, status: CheckStatus) -> Seq<
    (Seq<char>, CheckStatus),
> {
    match status_index(t, check) {
        Some(j) => t.update(j, (check, status)),
        None => t.push((check, status)),
    }
}

proof fn lemma_status_index(t: Seq<(Seq<char>, CheckStatus)>, check: Seq<char>)
    ensures
        status_index(t, check) matches Some(j) ==> 0 <= j < t.len() && t[j].0 == check && forall|k: int| j < k < t.len() ==> (#[trigger] t[k]).0 != check,
        status_index(t, check) is None ==> forall|k: int| 0 <= k < t.len() ==> (#[trigger] t[k]).0 != check,
    decreases t.len(),
{
    if t.len() > 0 {
        lemma_status_index(t.drop_last(), check);
        assert forall|k: int| 0 <= k < t.len() - 1 implies t[k] == t.drop_last()[k] by {}
    }
}

proof fn lemma_status_index_unique(t: Seq<(Seq<char>, CheckStatus)>, check: Seq<char>, j: int)
    requires
        0 <= j < t.len(),
        t[j].0 == check,
        forall|k: int| j < k < t.len() ==> (#[trigger] t[k]).0 != check,
    ensures
        status_index(t, check) == Some(j),
    decreases t.len(),
{
    if j < t.len() - 1 {
        assert(t[t.len() - 1].0 != check);
        assert forall|k: int| j < k < t.len() - 1 implies (#[trigger] t.drop_last()[k]).0 != check by {
            assert(t.drop_last()[k] == t[k]);
        }
        lemma_status_index_unique(t.drop_last(), check, j);
    }
}

proof fn lemma_status_index_none(t: Seq<(Seq<char>, CheckStatus)>, check: Seq<char>)
    requires
        forall|k: int| 0 <= k < t.len() ==> (#[trigger] t[k]).0 != check,
    ensures
        status_index(t, check) is None,
    decreases t.len(),
{
    if t.len() > 0 {
        assert(t[t.len() - 1].0 != check);
        assert forall|k: int| 0 <= k < t.len() - 1 implies (#[trigger] t.drop_last()[k]).0 != check by {
            assert(t.drop_last()[k] == t[k]);
        }
        lemma_status_index_none(t.drop_last(), check);
    }
}

/// The positions of the alerts of `subs` (each alert's subscribed checks)
/// that are subscribed to `check`.
pub open spec fn subscribed(subs: Seq<Seq<Seq<char>>>, check: Seq<char>) -> Seq<int>
    decreases subs.len(),
{
    if subs.len() == 0 {
        seq![]
    } else if subs.last().contains(check) {
        subscribed(subs.drop_last(), check).push(subs.len() - 1)
    } else {
        subscribed(subs.drop_last(), check)
    }
}

/// The outcome of a status event for `check`: the new status table and the
/// positions of the alerts that fire. An unchanged status fires nothing; a
/// first `Up` is recorded and fires nothing; any other change is recorded and
/// fires every alert subscribed to the check.
pub open spec fn check_event_outcome(
    t: Seq<(Seq<char>, CheckStatus)>,
    subs: Seq<Seq<Seq<char>>>,
    check: Seq<char>,
    status: CheckStatus,
) -> (Seq<(Seq<char>, CheckStatus)>, Seq<int>) {
    let prev = status_of(t, check);
    if prev == Some(status) {
        (t, seq![])
    } else if status == CheckStatus::Up && prev is None {
        (record_status(t, check, status), seq![])
    } else {
        (record_status(t, check, status), subscribed(subs, check))
    }
}

/// An alert entry: its name and configuration.
#[derive(Debug)]
pub struct AlertEntry {
    pub name: String,
    pub config: AlertConfig,
}

/// Routes check state-change events to configured alert endpoints.
///
/// Deduplicates: only fires when the check status actually changes
/// (Up → Down = firing, Down → Up = resolved). A first result of `Up` is
/// recorded without firing.
#[derive(Debug)]
pub struct AlertSender {
    alerts: Vec<AlertEntry>,
    state: Vec<(String, CheckStatus)>,
    /// Maximum age (seconds) a delivery job may wait before being discarded.
    max_age_secs: u64,
    /// Capacity of the delivery queue.
    queue_depth: usize,
}

/// The view of a status table.
pub open spec fn status_view(t: Seq<(String, CheckStatus)>) -> Seq<(Seq<char>, CheckStatus)> {
    t.map_values(|p: (String, CheckStatus)| (p.0@, p.1))
}

/// The subscriptions of a list of alert entries.
pub open spec fn subscriptions(v: Seq<AlertEntry>) -> Seq<Seq<Seq<char>>> {
    v.map_values(|e: AlertEntry| e.config.on_check@.map_values(|s: String| s@))
}

impl AlertSender {
    /// The last observed status of each check, in order of first report.
    pub closed spec fn statuses(&self) -> Seq<(Seq<char>, CheckStatus)> {
        status_view(self.state@)
    }

    /// The configured alerts.
    pub closed spec fn entries(&self) -> Seq<AlertEntry> {
        self.alerts@
    }

    /// The capacity of the delivery queue.
    pub closed spec fn depth(&self) -> usize {
        self.queue_depth
    }

    /// The maximum age in seconds of a queued delivery.
    pub closed spec fn max_age(&self) -> u64 {
        self.max_age_secs
    }

    /// The capacity of the delivery queue.
    pub fn queue_depth(&self) -> (r: usize)
        ensures
            r == self.depth(),
    {
        self.queue_depth
    }

    /// The maximum age in seconds of a queued delivery.
    pub fn max_age_secs(&self) -> (r: u64)
        ensures
            r == self.max_age(),
    {
        self.max_age_secs
    }

    /// An alert sender with the default queue limits and no alerts.
    pub fn new() -> (s: AlertSender)
        ensures
            s.statuses().len() == 0,
            s.entries().len() == 0,
            s.depth() == DEFAULT_DELIVERY_QUEUE,
            s.max_age() == DEFAULT_DELIVERY_AGE_SECS,
    {
        AlertSender { alerts: Vec::new(), state: Vec::new(), max_age_secs: DEFAULT_DELIVERY_AGE_SECS, queue_depth: DEFAULT_DELIVERY_QUEUE }
    }

    /// An alert sender with explicit queue limits and no alerts.
    pub fn with_queue_limits(queue_depth: usize, max_age: Duration) -> (s: AlertSender)
        ensures
            s.statuses().len() == 0,
            s.entries().len() == 0,
            s.depth() == queue_depth,
            s.max_age() == whole_secs(max_age),
    {
        AlertSender { alerts: Vec::new(), state: Vec::new(), max_age_secs: duration_as_secs(max_age), queue_depth }
    }

    /// Update the queue limits after a replan. Returns whether the queue depth
    /// changed, in which case the delivery queue must be replaced by one of the
    /// new depth; the new maximum age applies at once.
    pub fn update_queue_limits(&mut self, queue_depth: usize, max_age: Duration) -> (replace: bool)
        ensures
            final(self).depth() == queue_depth,
            final(self).max_age() == whole_secs(max_age),
            replace == (queue_depth != old(self).depth()),
            final(self).statuses() == old(self).statuses(),
            final(self).entries() == old(self).entries(),
    {
        self.max_age_secs = duration_as_secs(max_age);
        let replace = queue_depth != self.queue_depth;
        self.queue_depth = queue_depth;
        replace
    }

    /// Replace the active alert configuration (plan load / replan).
    pub fn update_alerts(&mut self, alerts: Vec<AlertEntry>)
        ensures
            final(self).entries() == alerts@,
            final(self).statuses() == old(self).statuses(),
            final(self).depth() == old(self).depth(),
            final(self).max_age() == old(self).max_age(),
    {
        self.alerts = alerts;
    }

    /// The configured alerts.
    pub fn alerts(&self) -> (r: &Vec<AlertEntry>)
        ensures
            r@ == self.entries(),
    {
        &self.alerts
    }

    /// Return the last observed status for `check`, if any.
    pub fn check_status(&self, check: &str) -> (r: Option<CheckStatus>)
        ensures
            r == status_of(self.statuses(), check@),
    {
        match self.find_status(check) {
            Some(j) => {
                proof {
                    lemma_status_index_unique(self.statuses(), check@, j as int);
                }
                Some(self.state[j].1)
            },
            None => {
                proof {
                    lemma_status_index_none(self.statuses(), check@);
                }
                None
            },
        }
    }

    fn find_status(&self, check: &str) -> (r: Option<usize>)
        ensures
            r matches Some(j) ==> j < self.statuses().len() && self.statuses()[j as int].0 == check@
                && forall|k: int| j < k < self.statuses().len() ==> (#[trigger] self.statuses()[k]).0 != check@,
            r is None ==> forall|k: int| 0 <= k < self.statuses().len() ==> (#[trigger] self.statuses()[k]).0 != check@,
    {
        let n = self.state.len();
        let mut i: usize = 0;
        while i < n
            invariant
                n == self.state.len(),
                i <= n,
                forall|k: int| n - i <= k < n ==> (#[trigger] self.statuses()[k]).0 != check@,
            decreases n - i,
        {
            let j = n - 1 - i;
            if str_equal(self.state[j].0.as_str(), check) {
                return Some(j);
            }
            i = i + 1;
        }
        None
    }

    fn record(&mut self, check: &str, status: CheckStatus)
        ensures
            final(self).statuses() == record_status(old(self).statuses(), check@, status),
            final(self).entries() == old(self).entries(),
            final(self).depth() == old(self).depth(),
            final(self).max_age() == old(self).max_age(),
    {
        let ghost t = self.statuses();
        match self.find_status(check) {
            Some(j) => {
                proof {
                    lemma_status_index_unique(t, check@, j as int);
                }
                self.state.set(j, (string_of(check), status));
                proof {
                    assert(status_view(self.state@) =~= t.update(j as int, (check@, status)));
                }
            },
            None => {
                proof {
                    lemma_status_index_none(t, check@);
                }
                let ghost before = self.state@;
                self.state.push((string_of(check), status));
                proof {
                    assert(status_view(self.state@) =~= status_view(before).push((check@, status)));
                }
            },
        }
    }

    /// Process a check status event. Returns the positions (in `alerts()`) of
    /// the alerts that must fire: none when the status did not change or when
    /// the first result seen for the check is `Up`, otherwise every alert
    /// subscribed to the check.
    pub fn handle_check_event(&mut self, check: &str, status: CheckStatus) -> (fired: Vec<usize>)
        ensures
            ({
                let o = check_event_outcome(
                    old(self).statuses(),
                    subscriptions(old(self).entries()),
                    check@,
                    status,
                );
                &&& final(self).statuses() == o.0
                &&& fired@.map_values(|k: usize| k as int) == o.1
            }),
            final(self).entries() == old(self).entries(),
            final(self).depth() == old(self).depth(),
            final(self).max_age() == old(self).max_age(),
            ({
                let prev = status_of(old(self).statuses(), check@);
                let quiet = prev == Some(status) || (status == CheckStatus::Up && prev is None);
                &&& quiet ==> fired@.len() == 0
                &&& !quiet ==> forall|k: int|
                    0 <= k < old(self).entries().len() ==> (fired@.map_values(|x: usize| x as int).contains(k)
                        <==> (#[trigger] old(self).entries()[k]).config.on_check@.map_values(|s: String| s@).contains(
                        check@,
                    ))
                &&& forall|i: int, j: int| 0 <= i < j < fired@.len() ==> fired@[i] < fired@[j]
            }),
    {
        let ghost t0 = self.statuses();
        let ghost subs0 = subscriptions(self.entries());
        proof {
            law_fired_are_the_subscribers(t0, subs0, check@, status);
            assert forall|k: int| 0 <= k < self.entries().len() implies subs0[k] == (#[trigger] self.entries()[k]).config.on_check@.map_values(
                |s: String| s@,
            ) by {}
        }
        let prev = self.check_status(check);
        if prev == Some(status) {
            let r: Vec<usize> = Vec::new();
            proof {
                assert(r@.map_values(|k: usize| k as int) =~= Seq::<int>::empty());
            }
            return r;
        }
        if status == CheckStatus::Up && prev.is_none() {
            self.record(check, status);
            let r: Vec<usize> = Vec::new();
            proof {
                assert(r@.map_values(|k: usize| k as int) =~= Seq::<int>::empty());
            }
            return r;
        }
        self.record(check, status);
        let mut fired: Vec<usize> = Vec::new();
        let mut i: usize = 0;
        let ghost subs = subscriptions(self.entries());
        proof {
            assert(subs.take(0) =~= Seq::<Seq<Seq<char>>>::empty());
            assert(fired@.map_values(|k: usize| k as int) =~= Seq::<int>::empty());
        }
        while i < self.alerts.len()
            invariant
                i <= self.alerts.len(),
                subs == subscriptions(self.entries()),
                fired@.map_values(|k: usize| k as int) == subscribed(subs.take(i as int), check@),
            decreases self.alerts.len() - i,
        {
            let on = contains_check(&self.alerts[i].config.on_check, check);
            proof {
                assert(subs.take(i + 1).drop_last() =~= subs.take(i as int));
                assert(subs.take(i + 1).last() == subs[i as int]);
                assert(subs.take(i + 1).len() - 1 == i);
            }
            if on {
                let ghost before = fired@;
                fired.push(i);
                proof {
                    assert(fired@.map_values(|k: usize| k as int) =~= before.map_values(|k: usize| k as int).push(i as int));
                }
            }
            i = i + 1;
        }
        proof {
            assert(subs.take(self.alerts.len() as int) =~= subs);
            let fv = fired@.map_values(|x: usize| x as int);
            assert forall|i: int, j: int| 0 <= i < j < fired@.len() implies fired@[i] < fired@[j] by {
                assert(fv[i] == fired@[i] as int && fv[j] == fired@[j] as int);
            }
        }
        fired
    }
}

/// Whether the subscription list `on` holds `check`.
pub fn contains_check(on: &Vec<String>, check: &str) -> (b: bool)
    ensures
        b == on@.map_values(|s: String| s@).contains(check@),
{
    let ghost v = on@.map_values(|s: String| s@);
    let mut i: usize = 0;
    while i < on.len()
        invariant
            i <= on.len(),
            v == on@.map_values(|s: String| s@),
            forall|k: int| 0 <= k < i ==> v[k] != check@,
        decreases on.len() - i,
    {
        if str_equal(on[i].as_str(), check) {
            assert(v[i as int] == check@);
            return true;
        }
        i = i + 1;
    }
    false
}

/// After an event is recorded, the status table reports the event's status
/// for its check.
pub proof fn law_recorded_status(t: Seq<(Seq<char>, CheckStatus)>, check: Seq<char>, status: CheckStatus)
    ensures
        status_of(record_status(t, check, status), check) == Some(status),
{
    lemma_status_index(t, check);
    let r = record_status(t, check, status);
    match status_index(t, check) {
        Some(j) => {
            assert forall|k: int| j < k < r.len() implies (#[trigger] r[k]).0 != check by {
                assert(r[k] == t[k]);
            }
            lemma_status_index_unique(r, check, j);
        },
        None => {
            lemma_status_index_unique(r, check, t.len() as int);
        },
    }
}

proof fn lemma_record_other(t: Seq<(Seq<char>, CheckStatus)>, check: Seq<char>, status: CheckStatus, other: Seq<char>)
    requires
        other != check,
    ensures
        status_of(record_status(t, check, status), other) == status_of(t, other),
{
    lemma_status_index(t, other);
    lemma_status_index(t, check);
    let r = record_status(t, check, status);
    assert forall|k: int| 0 <= k < t.len() implies (#[trigger] r[k]).0 == other <==> t[k].0 == other by {
        match status_index(t, check) {
            Some(j) => { if k == j {} else { assert(r[k] == t[k]); } },
            None => { assert(r[k] == t[k]); },
        }
    }
    match status_index(t, other) {
        Some(j) => {
            assert(r[j] == t[j]) by {
                match status_index(t, check) {
                    Some(i) => { assert(i != j); },
                    None => {},
                }
            }
            assert forall|k: int| j < k < r.len() implies (#[trigger] r[k]).0 != other by {
                if k < t.len() {} else { assert(r[k].0 == check); }
            }
            lemma_status_index_unique(r, other, j);
        },
        None => {
            assert forall|k: int| 0 <= k < r.len() implies (#[trigger] r[k]).0 != other by {
                if k < t.len() {} else { assert(r[k].0 == check); }
            }
            lemma_status_index_none(r, other);
        },
    }
}

/// Deduplication: after any event for `check`, the check's recorded status is
/// the event's status, other checks keep theirs, and a second identical event
/// fires no alert.
pub proof fn law_dedup(
    t: Seq<(Seq<char>, CheckStatus)>,
    subs: Seq<Seq<Seq<char>>>,
    check: Seq<char>,
    status: CheckStatus,
    other: Seq<char>,
)
    requires
        other != check,
    ensures
        status_of(check_event_outcome(t, subs, check, status).0, check) == Some(status),
        status_of(check_event_outcome(t, subs, check, status).0, other) == status_of(t, other),
        check_event_outcome(check_event_outcome(t, subs, check, status).0, subs, check, status).1.len() == 0,
{
    law_recorded_status(t, check, status);
    lemma_record_other(t, check, status, other);
}

/// Every alert that fires is subscribed to the check of the event.
pub proof fn law_only_subscribed_fire(
    t: Seq<(Seq<char>, CheckStatus)>,
    subs: Seq<Seq<Seq<char>>>,
    check: Seq<char>,
    status: CheckStatus,
    k: int,
)
    requires
        0 <= k < check_event_outcome(t, subs, check, status).1.len(),
    ensures
        0 <= check_event_outcome(t, subs, check, status).1[k] < subs.len(),
        subs[check_event_outcome(t, subs, check, status).1[k]].contains(check),
{
    lemma_subscribed_members(subs, check, k);
}

proof fn lemma_subscribed_members(subs: Seq<Seq<Seq<char>>>, check: Seq<char>, k: int)
    requires
        0 <= k < subscribed(subs, check).len(),
    ensures
        0 <= subscribed(subs, check)[k] < subs.len(),
        subs[subscribed(subs, check)[k]].contains(check),
    decreases subs.len(),
{
    if subs.len() > 0 {
        let prev = subscribed(subs.drop_last(), check);
        if subs.last().contains(check) && k == prev.len() {
        } else {
            lemma_subscribed_members(subs.drop_last(), check, k);
        }
    }
}

// ---------------------------------------------------------------------------
// Delivery policy
// ---------------------------------------------------------------------------

/// The number of delivery attempts: `retry_attempts` (default 3), at least 1.
pub open spec fn attempts_of(cfg: AlertConfig) -> int {
    let n = match cfg.retry_attempts {
        Some(n) => n as int,
        None => 3,
    };
    if n < 1 {
        1
    } else {
        n
    }
}

/// The number of delivery attempts for `cfg`.
pub fn max_attempts(cfg: &AlertConfig) -> (r: u32)
    ensures
        r as int == attempts_of(*cfg),
{
    let n = match cfg.retry_attempts {
        Some(n) => n,
        None => 3,
    };
    if n < 1 {
        1
    } else {
        n
    }
}

/// The delay in milliseconds that a `retry_backoff` entry stands for: its
/// duration, or one second when it does not parse.
pub open spec fn backoff_entry_millis(s: Seq<char>) -> int {
    match crate::duration::duration_spec(s) {
        Ok(ms) => ms,
        Err(_) => 1000,
    }
}

/// The retry delays of `cfg` in milliseconds: `[1s, 2s]` when `retry_backoff`
/// is empty, otherwise one per entry.
pub open spec fn backoff_schedule(cfg: AlertConfig) -> Seq<int> {
    if cfg.retry_backoff@.len() == 0 {
        seq![1000, 2000]
    } else {
        cfg.retry_backoff@.map_values(|s: String| backoff_entry_millis(s@))
    }
}

/// The retry delays of `cfg`, in milliseconds.
pub fn retry_backoff_millis(cfg: &AlertConfig) -> (r: Vec<u64>)
    ensures
        r@.map_values(|d: u64| d as int) == backoff_schedule(*cfg),
        r.len() > 0,
{
    if cfg.retry_backoff.len() == 0 {
        let r: Vec<u64> = vec![1000, 2000];
        proof {
            assert(r@.map_values(|d: u64| d as int) =~= seq![1000int, 2000int]);
        }
        return r;
    }
    let mut r: Vec<u64> = Vec::new();
    let mut i: usize = 0;
    while i < cfg.retry_backoff.len()
        invariant
            i <= cfg.retry_backoff.len(),
            cfg.retry_backoff.len() > 0,
            r@.map_values(|d: u64| d as int) == cfg.retry_backoff@.take(i as int).map_values(|s: String| backoff_entry_millis(s@)),
        decreases cfg.retry_backoff.len() - i,
    {
        let d = match parse_duration_millis(cfg.retry_backoff[i].as_str()) {
            Ok(ms) => ms,
            Err(_) => 1000,
        };
        let ghost before = r@;
        r.push(d);
        proof {
            assert(r@.map_values(|d: u64| d as int) =~= before.map_values(|d: u64| d as int).push(d as int));
            assert(cfg.retry_backoff@.take(i + 1).map_values(|s: String| backoff_entry_millis(s@)) =~= cfg.retry_backoff@.take(i as int).map_values(|s: String| backoff_entry_millis(s@)).push(backoff_entry_millis(cfg.retry_backoff@[i as int]@)));
        }
        i = i + 1;
    }
    proof {
        assert(cfg.retry_backoff@.take(cfg.retry_backoff.len() as int) =~= cfg.retry_backoff@);
    }
    r
}

/// The delay before retrying after attempt `attempt`: the schedule's entry
/// for that attempt, or its last entry past the end.
pub open spec fn delay_for(schedule: Seq<int>, attempt: int) -> int {
    if attempt < schedule.len() {
        schedule[attempt]
    } else {
        schedule.last()
    }
}

/// The delay (ms) before retrying after attempt `attempt`.
pub fn retry_delay(backoff: &Vec<u64>, attempt: u32) -> (d: u64)
    requires
        backoff.len() > 0,
    ensures
        d as int == delay_for(backoff@.map_values(|x: u64| x as int), attempt as int),
{
    if (attempt as usize) < backoff.len() {
        backoff[attempt as usize]
    } else {
        backoff[backoff.len() - 1]
    }
}

/// What came of one delivery attempt.
#[derive(Clone, Copy, Debug, PartialEq, Eq, Structural)]
pub enum SendOutcome {
    /// The endpoint answered with this HTTP status.
    Status(u16),
    /// The request could not be sent (connection error, timeout).
    Failed,
}

/// What the sender does next.
#[derive(Clone, Copy, Debug, PartialEq, Eq, Structural)]
pub enum SendStep {
    /// The alert was delivered.
    Delivered,
    /// Wait this many milliseconds, then make the next attempt.
    RetryAfter(u64),
    /// Stop without delivery.
    Abandon,
}

/// The step after attempt `attempt` (counted from 0) of `max` ended with
/// `outcome`: a 2xx status is a delivery; a 5xx status or a failure is
/// retried after the scheduled delay while attempts remain; anything else
/// ends the delivery.
pub open spec fn send_step(outcome: SendOutcome, attempt: int, max: int, schedule: Seq<int>) -> SendStep {
    match outcome {
        SendOutcome::Status(code) => if 200 <= code <= 299 {
            SendStep::Delivered
        } else if 500 <= code <= 599 && attempt + 1 < max {
            SendStep::RetryAfter(delay_for(schedule, attempt) as u64)
        } else {
            SendStep::Abandon
        },
        SendOutcome::Failed => if attempt + 1 < max {
            SendStep::RetryAfter(delay_for(schedule, attempt) as u64)
        } else {
            SendStep::Abandon
        },
    }
}

/// Decide what follows attempt `attempt` of `max`.
pub fn next_send_step(outcome: SendOutcome, attempt: u32, max: u32, backoff: &Vec<u64>) -> (s: SendStep)
    requires
        backoff.len() > 0,
    ensures
        s == send_step(outcome, attempt as int, max as int, backoff@.map_values(|x: u64| x as int)),
        (outcome matches SendOutcome::Status(c) && 200 <= c <= 299) ==> s == SendStep::Delivered,
        (outcome matches SendOutcome::Status(c) && (c < 200 || (300 <= c < 500) || c >= 600)) ==> s
            == SendStep::Abandon,
        ((outcome matches SendOutcome::Status(c) && 500 <= c <= 599) || outcome == SendOutcome::Failed) ==> (s is RetryAfter
            <==> attempt + 1 < max),
        ((outcome matches SendOutcome::Status(c) && 500 <= c <= 599) || outcome == SendOutcome::Failed) && attempt + 1
            < max && attempt < backoff.len() ==> s == SendStep::RetryAfter(backoff@[attempt as int]),
        ((outcome matches SendOutcome::Status(c) && 500 <= c <= 599) || outcome == SendOutcome::Failed) && attempt + 1
            < max && attempt >= backoff.len() ==> s == SendStep::RetryAfter(backoff@[backoff.len() - 1]),
{
    proof {
        let sched = backoff@.map_values(|x: u64| x as int);
        law_retry_only_transient(outcome, attempt as int, max as int, sched);
        if attempt < backoff.len() {
            assert(sched[attempt as int] as u64 == backoff@[attempt as int]);
        }
        assert(sched[backoff.len() - 1] as u64 == backoff@[backoff.len() - 1]);
    }
    match outcome {
        SendOutcome::Status(code) => if 200 <= code && code <= 299 {
            SendStep::Delivered
        } else if 500 <= code && code <= 599 && (attempt as u64) + 1 < (max as u64) {
            SendStep::RetryAfter(retry_delay(backoff, attempt))
        } else {
            SendStep::Abandon
        },
        SendOutcome::Failed => if (attempt as u64) + 1 < (max as u64) {
            SendStep::RetryAfter(retry_delay(backoff, attempt))
        } else {
            SendStep::Abandon
        },
    }
}

/// The last attempt is never retried: after attempt `max - 1` (or later)
/// the sender either has delivered or stops.
pub proof fn law_no_retry_after_last_attempt(outcome: SendOutcome, attempt: int, max: int, schedule: Seq<int>)
    requires
        attempt + 1 >= max,
    ensures
        !(send_step(outcome, attempt, max, schedule) is RetryAfter),
{
}

/// A 2xx answer is always a delivery; any other answer below 500 or from
/// 600 up is never retried; a 5xx answer or a failed request is retried
/// exactly while attempts remain, after the schedule's delay for that attempt
/// (its last entry once the schedule runs out).
pub proof fn law_retry_only_transient(outcome: SendOutcome, attempt: int, max: int, schedule: Seq<int>)
    ensures
        (outcome matches SendOutcome::Status(c) && 200 <= c <= 299) ==> send_step(outcome, attempt, max, schedule)
            == SendStep::Delivered,
        (outcome matches SendOutcome::Status(c) && (c < 200 || (300 <= c < 500) || c >= 600)) ==> send_step(
            outcome,
            attempt,
            max,
            schedule,
        ) == SendStep::Abandon,
        ((outcome matches SendOutcome::Status(c) && 500 <= c <= 599) || outcome == SendOutcome::Failed) ==> (
        send_step(outcome, attempt, max, schedule) is RetryAfter <==> attempt + 1 < max),
        ((outcome matches SendOutcome::Status(c) && 500 <= c <= 599) || outcome == SendOutcome::Failed) && attempt + 1
            < max && 0 <= attempt < schedule.len() ==> send_step(outcome, attempt, max, schedule) == SendStep::RetryAfter(
            schedule[attempt] as u64,
        ),
        ((outcome matches SendOutcome::Status(c) && 500 <= c <= 599) || outcome == SendOutcome::Failed) && attempt + 1
            < max && attempt >= schedule.len() ==> send_step(outcome, attempt, max, schedule) == SendStep::RetryAfter(
            schedule[schedule.len() - 1] as u64,
        ),
{
}

/// The `Content-Type` of a delivery in `format`.
pub open spec fn content_type_of(format: AlertFormat) -> Seq<char> {
    match format {
        AlertFormat::CloudEvents => "application/cloudevents+json"@,
        _ => "application/json"@,
    }
}

/// The `Content-Type` header value for `format`.
pub fn content_type(format: AlertFormat) -> (s: &'static str)
    ensures
        s@ == content_type_of(format),
{
    match format {
        AlertFormat::CloudEvents => "application/cloudevents+json",
        _ => "application/json",
    }
}

/// Whether a job that has waited `age_nanos` nanoseconds is too old to be
/// delivered under a limit of `max_age_secs` seconds.
pub fn job_expired(age_nanos: u128, max_age_secs: u64) -> (b: bool)
    ensures
        b == (age_nanos > max_age_secs as int * 1_000_000_000),
{
    age_nanos > (max_age_secs as u128) * 1_000_000_000
}

} // verus!

verus! {

/// The value of an alert's configuration.
pub struct AlertConfigView {
    pub url: Seq<char>,
    pub format: AlertFormat,
    pub on_check: Seq<Seq<char>>,
    pub headers: Seq<(Seq<char>, Seq<char>)>,
    pub labels: Seq<(Seq<char>, Seq<char>)>,
    pub send_info_fields: Seq<(Seq<char>, Seq<char>)>,
    pub tls_insecure: bool,
    pub tls_ca: Option<Seq<char>>,
    pub proxy: Option<Seq<char>>,
    pub proxy_ca: Option<Seq<char>>,
    pub no_proxy: Option<Seq<char>>,
    pub retry_attempts: Option<u32>,
    pub retry_backoff: Seq<Seq<char>>,
    pub body_template: Option<Seq<char>>,
}

/// The value of an alert's configuration.
pub open spec fn alert_config_view(c: AlertConfig) -> AlertConfigView {
    AlertConfigView {
        url: c.url@,
        format: c.format,
        on_check: strings_view(c.on_check@),
        headers: pairs_view(c.headers@),
        labels: pairs_view(c.labels@),
        send_info_fields: pairs_view(c.send_info_fields@),
        tls_insecure: c.tls_insecure,
        tls_ca: opt_view(c.tls_ca),
        proxy: opt_view(c.proxy),
        proxy_ca: opt_view(c.proxy_ca),
        no_proxy: opt_view(c.no_proxy),
        retry_attempts: c.retry_attempts,
        retry_backoff: strings_view(c.retry_backoff@),
        body_template: opt_view(c.body_template),
    }
}

/// A copy of a list of strings.
pub fn copy_strings(v: &Vec<String>) -> (r: Vec<String>)
    ensures
        strings_view(r@) == strings_view(v@),
{
    let mut r: Vec<String> = Vec::new();
    let mut i: usize = 0;
    while i < v.len()
        invariant
            i <= v.len(),
            strings_view(r@) == strings_view(v@).take(i as int),
        decreases v.len() - i,
    {
        let ghost before = r@;
        let s = v[i].clone();
        r.push(s);
        proof {
            assert(strings_view(r@) =~= strings_view(before).push(s@));
            assert(strings_view(v@).take(i + 1) =~= strings_view(v@).take(i as int).push(v@[i as int]@));
        }
        i = i + 1;
    }
    proof {
        assert(strings_view(v@).take(v.len() as int) =~= strings_view(v@));
    }
    r
}

impl AlertConfig {
    /// A copy of this configuration.
    pub fn duplicate(&self) -> (r: AlertConfig)
        ensures
            alert_config_view(r) == alert_config_view(*self),
    {
        AlertConfig {
            url: self.url.clone(),
            format: self.format,
            on_check: copy_strings(&self.on_check),
            headers: copy_pairs(&self.headers),
            labels: copy_pairs(&self.labels),
            send_info_fields: copy_pairs(&self.send_info_fields),
            tls_insecure: self.tls_insecure,
            tls_ca: clone_opt(&self.tls_ca),
            proxy: clone_opt(&self.proxy),
            proxy_ca: clone_opt(&self.proxy_ca),
            no_proxy: clone_opt(&self.no_proxy),
            retry_attempts: self.retry_attempts,
            retry_backoff: copy_strings(&self.retry_backoff),
            body_template: clone_opt(&self.body_template),
        }
    }
}

/// The alert entries of a table of named alert configurations.
pub open spec fn entries_view(v: Seq<AlertEntry>) -> Seq<(Seq<char>, AlertConfigView)> {
    v.map_values(|e: AlertEntry| (e.name@, alert_config_view(e.config)))
}

/// The named alert configurations of a plan, as values.
pub open spec fn named_alerts_view(v: Seq<(String, AlertConfig)>) -> Seq<(Seq<char>, AlertConfigView)> {
    v.map_values(|p: (String, AlertConfig)| (p.0@, alert_config_view(p.1)))
}

/// Alert entries for the alert configurations of a plan.
pub fn alert_entries(alerts: &Vec<(String, AlertConfig)>) -> (r: Vec<AlertEntry>)
    ensures
        entries_view(r@) == named_alerts_view(alerts@),
{
    let mut r: Vec<AlertEntry> = Vec::new();
    let mut i: usize = 0;
    while i < alerts.len()
        invariant
            i <= alerts.len(),
            entries_view(r@) == named_alerts_view(alerts@).take(i as int),
        decreases alerts.len() - i,
    {
        let ghost before = r@;
        let e = AlertEntry { name: alerts[i].0.clone(), config: alerts[i].1.duplicate() };
        r.push(e);
        proof {
            assert(entries_view(r@) =~= entries_view(before).push((e.name@, alert_config_view(e.config))));
            assert(named_alerts_view(alerts@).take(i + 1) =~= named_alerts_view(alerts@).take(i as int).push(
                (alerts@[i as int].0@, alert_config_view(alerts@[i as int].1)),
            ));
        }
        i = i + 1;
    }
    proof {
        assert(named_alerts_view(alerts@).take(alerts.len() as int) =~= named_alerts_view(alerts@));
    }
    r
}

} // verus!

verus! {

proof fn lemma_subscribed(subs: Seq<Seq<Seq<char>>>, check: Seq<char>)
    ensures
        forall|i: int| 0 <= i < subscribed(subs, check).len() ==> 0 <= #[trigger] subscribed(subs, check)[i] < subs.len(),
        forall|i: int, j: int|
            0 <= i < j < subscribed(subs, check).len() ==> #[trigger] subscribed(subs, check)[i] < #[trigger] subscribed(
                subs,
                check,
            )[j],
        forall|k: int| 0 <= k < subs.len() ==> (subscribed(subs, check).contains(k) <==> #[trigger] subs[k].contains(check)),
    decreases subs.len(),
{
    if subs.len() > 0 {
        let pre = subs.drop_last();
        lemma_subscribed(pre, check);
        let sp = subscribed(pre, check);
        let sv = subscribed(subs, check);
        assert forall|k: int| 0 <= k < subs.len() implies (sv.contains(k) <==> #[trigger] subs[k].contains(check)) by {
            if k < subs.len() - 1 {
                assert(subs[k] == pre[k]);
                if sv.contains(k) {
                    let i = choose|i: int| 0 <= i < sv.len() && sv[i] == k;
                    if subs.last().contains(check) && i == sp.len() {
                    } else {
                        if subs.last().contains(check) {
                            assert(sv[i] == sp[i]);
                        }
                        assert(sp.contains(k));
                    }
                }
                if subs[k].contains(check) {
                    assert(sp.contains(k));
                    let i = choose|i: int| 0 <= i < sp.len() && sp[i] == k;
                    if subs.last().contains(check) {
                        assert(sv[i] == sp[i]);
                    }
                }
            } else {
                if subs.last().contains(check) {
                    assert(sv[sp.len() as int] == k);
                } else if sv.contains(k) {
                    let i = choose|i: int| 0 <= i < sv.len() && sv[i] == k;
                    assert(sp[i] < pre.len());
                }
            }
        }
    }
}

/// Which alerts a status event fires: none when the status is unchanged or is
/// a first `Up`; after any other change, exactly the alerts whose on-check
/// list holds the check, each once, in configuration order.
pub proof fn law_fired_are_the_subscribers(
    t: Seq<(Seq<char>, CheckStatus)>,
    subs: Seq<Seq<Seq<char>>>,
    check: Seq<char>,
    status: CheckStatus,
)
    ensures
        ({
            let fired = check_event_outcome(t, subs, check, status).1;
            let prev = status_of(t, check);
            &&& (prev == Some(status) || (status == CheckStatus::Up && prev is None)) ==> fired.len() == 0
            &&& !(prev == Some(status) || (status == CheckStatus::Up && prev is None)) ==> {
                &&& forall|k: int| 0 <= k < subs.len() ==> (fired.contains(k) <==> #[trigger] subs[k].contains(check))
                &&& forall|i: int| 0 <= i < fired.len() ==> 0 <= #[trigger] fired[i] < subs.len()
                &&& forall|i: int, j: int| 0 <= i < j < fired.len() ==> #[trigger] fired[i] < #[trigger] fired[j]
            }
        }),
{
    lemma_subscribed(subs, check);
}

} // verus!
