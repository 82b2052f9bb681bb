//! Prometheus/OpenMetrics metrics of services, checks and alerts.
//!
//! Metric names and types:
//! - `vigil_service_start_count{service}` counter
//! - `vigil_service_active{service}` gauge (0/1)
//! - `vigil_service_info{service}` gauge, always 1: enumerates service names
//! - `vigil_services_count` gauge: the number of configured services
//! - `vigil_check_up{check}` gauge (0/1)
//! - `vigil_check_success_count{check}` counter
//! - `vigil_check_failure_count{check}` counter
//! - `vigil_alert_fire_count{alert}` counter: one per alert firing
use prometheus_client::metrics::counter::Counter;
use prometheus_client::metrics::family::Family;
use prometheus_client::metrics::gauge::Gauge;
use prometheus_client::registry::Registry;
use vstd::prelude::*;

use crate::text::decimal_text;

verus! {

/// A sample of a metric: the family's name, the key of its one label and the
/// label's value (key and value empty for the unlabelled `vigil_services_count`).
pub type SampleKey = (Seq<char>, Seq<char>, Seq<char>);

/// The prometheus-client registry with the metric families of the daemon.
///
/// The counter and gauge updates below do not unwind: a family's map sits
/// behind a `parking_lot` lock, which does not poison, `get_or_create` finds
/// the entry it has just inserted, and the updates themselves are atomic.
#[verifier::external_body]
pub struct MetricsRegistry {
    registry: Registry,
    service_start_count: Family<Vec<(String, String)>, Counter>,
    service_active: Family<Vec<(String, String)>, Gauge>,
    service_info: Family<Vec<(String, String)>, Gauge>,
    services_count: Gauge,
    check_up: Family<Vec<(String, String)>, Gauge>,
    check_success_count: Family<Vec<(String, String)>, Counter>,
    check_failure_count: Family<Vec<(String, String)>, Counter>,
    alert_fire_count: Family<Vec<(String, String)>, Counter>,
}

/// The current value of every sample the registry exposes.
pub uninterp spec fn metric_samples(m: MetricsRegistry) -> Map<SampleKey, int>;

/// The metric families registered in a registry, in order of registration:
/// name, help text as given to `Registry::register`, and type.
pub uninterp spec fn metric_families(m: MetricsRegistry) -> Seq<(Seq<char>, Seq<char>, Seq<char>)>;

/// No family registered.
pub open spec fn no_families() -> Seq<(Seq<char>, Seq<char>, Seq<char>)> {
    Seq::empty()
}

/// The daemon's eight families, in the order they are registered.
pub open spec fn daemon_families() -> Seq<(Seq<char>, Seq<char>, Seq<char>)> {
    seq![
        ("vigil_service_start_count"@, "Number of times the service has started"@, "counter"@),
        ("vigil_service_active"@, "Whether the service is currently active (1) or not (0)"@, "gauge"@),
        ("vigil_service_info"@, "Service metadata — label enumerates all configured service names"@, "gauge"@),
        ("vigil_services_count"@, "Total number of configured services"@, "gauge"@),
        ("vigil_check_up"@, "Whether the health check is up (1) or not (0)"@, "gauge"@),
        ("vigil_check_success_count"@, "Number of times the check has succeeded"@, "counter"@),
        ("vigil_check_failure_count"@, "Number of times the check has failed"@, "counter"@),
        ("vigil_alert_fire_count"@, "Number of times the alert has fired (state transition detected)"@, "counter"@),
    ]
}

/// The `# HELP` and `# TYPE` lines of a family (the registry ends each help
/// text with a period).
pub open spec fn family_header(f: (Seq<char>, Seq<char>, Seq<char>)) -> Seq<char> {
    "# HELP "@ + f.0 + " "@ + f.1 + ".\n"@ + "# TYPE "@ + f.0 + " "@ + f.2 + "\n"@
}

/// The families' headers, each followed by its block of sample lines, in order.
pub open spec fn families_text(fams: Seq<(Seq<char>, Seq<char>, Seq<char>)>, blocks: Seq<Seq<char>>) -> Seq<char>
    decreases fams.len(),
{
    if fams.len() == 0 {
        Seq::empty()
    } else {
        families_text(fams.drop_last(), blocks) + family_header(fams.last()) + blocks[fams.len() - 1]
    }
}

/// An OpenMetrics text exposition of `fams`: each family's header and sample
/// lines (`blocks`, one per family), then the `# EOF` marker.
pub open spec fn exposition(fams: Seq<(Seq<char>, Seq<char>, Seq<char>)>, blocks: Seq<Seq<char>>) -> Seq<char> {
    families_text(fams, blocks) + "# EOF\n"@
}

/// The decimal text of an integer, with a leading `-` when negative.
pub open spec fn int_text(v: int) -> Seq<char> {
    if v < 0 {
        "-"@ + decimal_text((-v) as nat)
    } else {
        decimal_text(v as nat)
    }
}

/// The line of one sample of the family named `name` of type `kind`: counters
/// carry the `_total` suffix, and the label, when there is one, is written
/// `{key="value"}`.
pub open spec fn sample_line(name: Seq<char>, kind: Seq<char>, key: Seq<char>, value: Seq<char>, v: int) -> Seq<char> {
    let full = if kind == "counter"@ {
        name + "_total"@
    } else {
        name
    };
    let labels = if key.len() == 0 {
        Seq::<char>::empty()
    } else {
        "{"@ + key + "=\""@ + value + "\"}"@
    };
    full + labels + " "@ + int_text(v) + "\n"@
}

/// The lines of the samples `ks` (label key and value) of family `f`, in that
/// order, with their values in `m`.
pub open spec fn sample_lines(
    f: (Seq<char>, Seq<char>, Seq<char>),
    ks: Seq<(Seq<char>, Seq<char>)>,
    m: Map<SampleKey, int>,
) -> Seq<char>
    decreases ks.len(),
{
    if ks.len() == 0 {
        Seq::empty()
    } else {
        let k = ks.last();
        sample_lines(f, ks.drop_last(), m) + sample_line(f.0, f.2, k.0, k.1, m[(f.0, k.0, k.1)])
    }
}

/// The labels (key and value) of the samples of the family named `name`.
pub open spec fn family_labels(m: Map<SampleKey, int>, name: Seq<char>) -> Set<(Seq<char>, Seq<char>)> {
    Set::new(|k: (Seq<char>, Seq<char>)| m.contains_key((name, k.0, k.1)))
}

/// Whether `b` holds one line for each sample of family `f` in `m`, with its
/// value, and no other line; the order of the lines is free.
pub open spec fn family_block(b: Seq<char>, f: (Seq<char>, Seq<char>, Seq<char>), m: Map<SampleKey, int>) -> bool {
    exists|ks: Seq<(Seq<char>, Seq<char>)>|
        ks.no_duplicates() && ks.to_set() == family_labels(m, f.0) && b == sample_lines(f, ks, m)
}

/// Whether `t` is the exposition of the families `fams` with the samples `m`:
/// each family's header, then its sample lines in some order, then `# EOF`.
pub open spec fn exposes(t: Seq<char>, fams: Seq<(Seq<char>, Seq<char>, Seq<char>)>, m: Map<SampleKey, int>) -> bool {
    exists|blocks: Seq<Seq<char>>|
        blocks.len() == fams.len() && (forall|i: int| 0 <= i < fams.len() ==> #[trigger] family_block(blocks[i], fams[i], m))
            && t == exposition(fams, blocks)
}

/// The samples right after the daemon's families are registered: the
/// unlabelled `vigil_services_count` gauge at 0.
pub open spec fn registered_samples() -> Map<SampleKey, int> {
    Map::<SampleKey, int>::empty().insert(("vigil_services_count"@, Seq::empty(), Seq::empty()), 0)
}

/// No sample at all.
pub open spec fn no_samples() -> Map<SampleKey, int> {
    Map::empty()
}

/// The samples after a counter sample is incremented (counters wrap at 2^64).
pub open spec fn bumped(m: Map<SampleKey, int>, key: SampleKey) -> Map<SampleKey, int> {
    let old_value = if m.contains_key(key) {
        m[key]
    } else {
        0
    };
    m.insert(key, (old_value + 1) % 0x1_0000_0000_0000_0000)
}

/// Counting a sample adds one to it (a sample not yet present counts from
/// zero, and a counter at 2^64 - 1 wraps to zero) and leaves every other
/// sample as it was.
pub proof fn law_bump_counts_one(m: Map<SampleKey, int>, key: SampleKey)
    requires
        m.contains_key(key) ==> 0 <= m[key] < 0x1_0000_0000_0000_0000,
    ensures
        bumped(m, key).contains_key(key),
        !m.contains_key(key) ==> bumped(m, key)[key] == 1,
        m.contains_key(key) && m[key] < 0xffff_ffff_ffff_ffff ==> bumped(m, key)[key] == m[key] + 1,
        m.contains_key(key) && m[key] == 0xffff_ffff_ffff_ffff ==> bumped(m, key)[key] == 0,
        forall|k: SampleKey| k != key ==> (#[trigger] bumped(m, key).contains_key(k)) == m.contains_key(k),
        forall|k: SampleKey| k != key && m.contains_key(k) ==> #[trigger] bumped(m, key)[k] == m[k],
{
}

impl MetricsRegistry {
    /// `Registry::default`, `Family::default` for each family and
    /// `Gauge::default`: no family registered, no sample.
    #[verifier::external_body]
    fn create() -> (m: MetricsRegistry)
        ensures
            metric_samples(m) == no_samples(),
            metric_families(m) == no_families(),
    {
        MetricsRegistry {
            registry: Registry::default(),
            service_start_count: Family::default(),
            service_active: Family::default(),
            service_info: Family::default(),
            services_count: Gauge::default(),
            check_up: Family::default(),
            check_success_count: Family::default(),
            check_failure_count: Family::default(),
            alert_fire_count: Family::default(),
        }
    }

    /// `Registry::register` of each family under its name and help text, in
    /// order, on a fresh registry (no family registered, no sample). From then
    /// on the unlabelled `services_count` gauge, still at its default 0, is
    /// exposed with its value; the labelled families expose only the label
    /// sets created in them.
    #[verifier::external_body]
    fn register_families(&mut self)
        requires
            metric_families(*old(self)) == no_families(),
            metric_samples(*old(self)) == no_samples(),
        ensures
            metric_samples(*final(self)) == metric_samples(*old(self)).insert(
                ("vigil_services_count"@, Seq::empty(), Seq::empty()),
                0,
            ),
            metric_families(*final(self)) == metric_families(*old(self)) + daemon_families(),
    {
        self.registry.register("vigil_service_start_count", "Number of times the service has started", self.service_start_count.clone());
        self.registry.register("vigil_service_active", "Whether the service is currently active (1) or not (0)", self.service_active.clone());
        self.registry.register("vigil_service_info", "Service metadata — label enumerates all configured service names", self.service_info.clone());
        self.registry.register("vigil_services_count", "Total number of configured services", self.services_count.clone());
        self.registry.register("vigil_check_up", "Whether the health check is up (1) or not (0)", self.check_up.clone());
        self.registry.register("vigil_check_success_count", "Number of times the check has succeeded", self.check_success_count.clone());
        self.registry.register("vigil_check_failure_count", "Number of times the check has failed", self.check_failure_count.clone());
        self.registry.register("vigil_alert_fire_count", "Number of times the alert has fired (state transition detected)", self.alert_fire_count.clone());
    }

    /// `Family::get_or_create` then `Counter::inc` on `vigil_service_start_count{service}`.
    #[verifier::external_body]
    fn inc_service_start(&mut self, service: &str)
        ensures
            metric_samples(*final(self)) == bumped(metric_samples(*old(self)), ("vigil_service_start_count"@, "service"@, service@)),
            metric_families(*final(self)) == metric_families(*old(self)),
        no_unwind
    {
        self.service_start_count.get_or_create(&vec![("service".to_string(), service.to_string())]).inc();
    }

    /// `Family::get_or_create` then `Counter::inc` on `vigil_check_success_count{check}`.
    #[verifier::external_body]
    fn inc_check_success(&mut self, check: &str)
        ensures
            metric_samples(*final(self)) == bumped(metric_samples(*old(self)), ("vigil_check_success_count"@, "check"@, check@)),
            metric_families(*final(self)) == metric_families(*old(self)),
        no_unwind
    {
        self.check_success_count.get_or_create(&vec![("check".to_string(), check.to_string())]).inc();
    }

    /// `Family::get_or_create` then `Counter::inc` on `vigil_check_failure_count{check}`.
    #[verifier::external_body]
    fn inc_check_failure(&mut self, check: &str)
        ensures
            metric_samples(*final(self)) == bumped(metric_samples(*old(self)), ("vigil_check_failure_count"@, "check"@, check@)),
            metric_families(*final(self)) == metric_families(*old(self)),
        no_unwind
    {
        self.check_failure_count.get_or_create(&vec![("check".to_string(), check.to_string())]).inc();
    }

    /// `Family::get_or_create` then `Counter::inc` on `vigil_alert_fire_count{alert}`.
    #[verifier::external_body]
    fn inc_alert_fire(&mut self, alert: &str)
        ensures
            metric_samples(*final(self)) == bumped(metric_samples(*old(self)), ("vigil_alert_fire_count"@, "alert"@, alert@)),
            metric_families(*final(self)) == metric_families(*old(self)),
        no_unwind
    {
        self.alert_fire_count.get_or_create(&vec![("alert".to_string(), alert.to_string())]).inc();
    }

    /// `Family::get_or_create` then `Gauge::set` on `vigil_service_active{service}`.
    #[verifier::external_body]
    fn set_service_active_gauge(&mut self, service: &str, v: i64)
        ensures
            metric_samples(*final(self)) == metric_samples(*old(self)).insert(("vigil_service_active"@, "service"@, service@), v as int),
            metric_families(*final(self)) == metric_families(*old(self)),
        no_unwind
    {
        self.service_active.get_or_create(&vec![("service".to_string(), service.to_string())]).set(v);
    }

    /// `Family::get_or_create` then `Gauge::set` on `vigil_service_info{service}`.
    #[verifier::external_body]
    fn set_service_info_gauge(&mut self, service: &str, v: i64)
        ensures
            metric_samples(*final(self)) == metric_samples(*old(self)).insert(("vigil_service_info"@, "service"@, service@), v as int),
            metric_families(*final(self)) == metric_families(*old(self)),
        no_unwind
    {
        self.service_info.get_or_create(&vec![("service".to_string(), service.to_string())]).set(v);
    }

    /// `Family::get_or_create` then `Gauge::set` on `vigil_check_up{check}`.
    #[verifier::external_body]
    fn set_check_up_gauge(&mut self, check: &str, v: i64)
        ensures
            metric_samples(*final(self)) == metric_samples(*old(self)).insert(("vigil_check_up"@, "check"@, check@), v as int),
            metric_families(*final(self)) == metric_families(*old(self)),
        no_unwind
    {
        self.check_up.get_or_create(&vec![("check".to_string(), check.to_string())]).set(v);
    }

    /// `Gauge::set` on `vigil_services_count`.
    #[verifier::external_body]
    fn set_services_count_gauge(&mut self, v: i64)
        ensures
            metric_samples(*final(self)) == metric_samples(*old(self)).insert(("vigil_services_count"@, Seq::empty(), Seq::empty()), v as int),
            metric_families(*final(self)) == metric_families(*old(self)),
        no_unwind
    {
        self.services_count.set(v);
    }

    /// `prometheus_client::encoding::text::encode` of the registry into a
    /// `String` (writing to a `String` never fails, and the encoder reports no
    /// error of its own): each registered family's `# HELP`/`# TYPE` header
    /// followed by one line per sample of the family, then `# EOF`. Within a
    /// family the lines come in hash-map order, which is left open.
    #[verifier::external_body]
    fn encode_text(&self) -> (t: String)
        ensures
            exposes(t@, metric_families(*self), metric_samples(*self)),
    {
        let mut buf = String::new();
        match prometheus_client::encoding::text::encode(&mut buf, &self.registry) {
            Ok(()) => buf,
            Err(_) => String::new(),
        }
    }
}

/// The daemon's metrics.
pub struct MetricsStore {
    registry: MetricsRegistry,
}

impl MetricsStore {
    /// The registry holds exactly the daemon's families.
    #[verifier::type_invariant]
    spec fn families_registered(&self) -> bool {
        metric_families(self.registry) == daemon_families()
    }

    /// The current value of every sample.
    pub closed spec fn samples(&self) -> Map<SampleKey, int> {
        metric_samples(self.registry)
    }

    /// A store with every family registered; the only sample is the
    /// services count, at 0.
    pub fn new() -> (m: MetricsStore)
        ensures
            m.samples() == registered_samples(),
    {
        let mut registry = MetricsRegistry::create();
        registry.register_families();
        assert(no_families() + daemon_families() =~= daemon_families());
        MetricsStore { registry }
    }

    /// Mark each of `names` in `vigil_service_info` (value 1) and set
    /// `vigil_services_count` to how many names there are.
    pub fn set_services(&mut self, names: &[String])
        requires
            names@.len() <= i64::MAX,
        ensures
            final(self).samples() == service_info_marked(old(self).samples(), names@.map_values(|s: String| s@)).insert(
                ("vigil_services_count"@, Seq::empty(), Seq::empty()),
                names@.len() as int,
            ),
    {
        proof {
            use_type_invariant(&*self);
        }
        let ghost start = self.samples();
        let ghost nv = names@.map_values(|s: String| s@);
        let mut i: usize = 0;
        while i < names.len()
            invariant
                i <= names.len(),
                nv == names@.map_values(|s: String| s@),
                self.samples() == service_info_marked(start, nv.take(i as int)),
                metric_families(self.registry) == daemon_families(),
            decreases names.len() - i,
        {
            self.registry.set_service_info_gauge(names[i].as_str(), 1);
            proof {
                assert(nv.take(i + 1).drop_last() =~= nv.take(i as int));
            }
            i = i + 1;
        }
        proof {
            assert(nv.take(names.len() as int) =~= nv);
        }
        self.registry.set_services_count_gauge(names.len() as i64);
    }

    /// Count a start of `service`.
    pub fn record_service_start(&mut self, service: &str)
        ensures
            final(self).samples() == bumped(old(self).samples(), ("vigil_service_start_count"@, "service"@, service@)),
    {
        proof {
            use_type_invariant(&*self);
        }
        self.registry.inc_service_start(service);
    }

    /// Set whether `service` is active (1) or not (0).
    pub fn set_service_active(&mut self, service: &str, active: bool)
        ensures
            final(self).samples() == old(self).samples().insert(
                ("vigil_service_active"@, "service"@, service@),
                if active {
                    1
                } else {
                    0
                },
            ),
    {
        proof {
            use_type_invariant(&*self);
        }
        self.registry.set_service_active_gauge(service, if active { 1 } else { 0 });
    }

    /// Count a successful probe of `check`.
    pub fn record_check_success(&mut self, check: &str)
        ensures
            final(self).samples() == bumped(old(self).samples(), ("vigil_check_success_count"@, "check"@, check@)),
    {
        proof {
            use_type_invariant(&*self);
        }
        self.registry.inc_check_success(check);
    }

    /// Count a failed probe of `check`.
    pub fn record_check_failure(&mut self, check: &str)
        ensures
            final(self).samples() == bumped(old(self).samples(), ("vigil_check_failure_count"@, "check"@, check@)),
    {
        proof {
            use_type_invariant(&*self);
        }
        self.registry.inc_check_failure(check);
    }

    /// Set whether `check` is up (1) or not (0).
    pub fn set_check_up(&mut self, check: &str, up: bool)
        ensures
            final(self).samples() == old(self).samples().insert(
                ("vigil_check_up"@, "check"@, check@),
                if up {
                    1
                } else {
                    0
                },
            ),
    {
        proof {
            use_type_invariant(&*self);
        }
        self.registry.set_check_up_gauge(check, if up { 1 } else { 0 });
    }

    /// Count a firing of `alert`.
    pub fn record_alert_fire(&mut self, alert: &str)
        ensures
            final(self).samples() == bumped(old(self).samples(), ("vigil_alert_fire_count"@, "alert"@, alert@)),
    {
        proof {
            use_type_invariant(&*self);
        }
        self.registry.inc_alert_fire(alert);
    }

    /// All metrics in the OpenMetrics text exposition format: the eight
    /// families in order, each with its header and sample lines, then `# EOF`.
    pub fn render(&self) -> (t: String)
        ensures
            exposes(t@, daemon_families(), self.samples()),
    {
        proof {
            use_type_invariant(&*self);
        }
        self.registry.encode_text()
    }
}

/// The samples after `vigil_service_info` is set to 1 for each of `names`.
pub open spec fn service_info_marked(m: Map<SampleKey, int>, names: Seq<Seq<char>>) -> Map<SampleKey, int>
    decreases names.len(),
{
    if names.len() == 0 {
        m
    } else {
        service_info_marked(m, names.drop_last()).insert(("vigil_service_info"@, "service"@, names.last()), 1)
    }
}

} // verus!

verus! {

/// Whether `x` occurs in `t` as a contiguous piece.
pub open spec fn has_infix(t: Seq<char>, x: Seq<char>) -> bool {
    exists|a: Seq<char>, b: Seq<char>| t == a + x + b
}

pub proof fn lemma_infix_trans(t: Seq<char>, x: Seq<char>, y: Seq<char>)
    requires
        has_infix(t, x),
        has_infix(x, y),
    ensures
        has_infix(t, y),
{
    let (a, b) = choose|a: Seq<char>, b: Seq<char>| t == a + x + b;
    let (c, d) = choose|c: Seq<char>, d: Seq<char>| x == c + y + d;
    assert(t =~= (a + c) + y + (d + b));
}

proof fn lemma_line_in_lines(f: (Seq<char>, Seq<char>, Seq<char>), ks: Seq<(Seq<char>, Seq<char>)>, m: Map<SampleKey, int>, j: int)
    requires
        0 <= j < ks.len(),
    ensures
        has_infix(sample_lines(f, ks, m), sample_line(f.0, f.2, ks[j].0, ks[j].1, m[(f.0, ks[j].0, ks[j].1)])),
    decreases ks.len(),
{
    let line = sample_line(f.0, f.2, ks[j].0, ks[j].1, m[(f.0, ks[j].0, ks[j].1)]);
    let all = sample_lines(f, ks, m);
    let pre = sample_lines(f, ks.drop_last(), m);
    if j == ks.len() - 1 {
        assert(all =~= pre + line + Seq::<char>::empty());
    } else {
        assert(ks.drop_last()[j] == ks[j]);
        lemma_line_in_lines(f, ks.drop_last(), m, j);
        let last = sample_line(f.0, f.2, ks.last().0, ks.last().1, m[(f.0, ks.last().0, ks.last().1)]);
        assert(all == pre + last);
        assert(all =~= Seq::<char>::empty() + pre + last);
        lemma_infix_trans(all, pre, line);
    }
}

proof fn lemma_block_in_text(fams: Seq<(Seq<char>, Seq<char>, Seq<char>)>, blocks: Seq<Seq<char>>, i: int)
    requires
        0 <= i < fams.len(),
    ensures
        has_infix(families_text(fams, blocks), blocks[i]),
    decreases fams.len(),
{
    let all = families_text(fams, blocks);
    let pre = families_text(fams.drop_last(), blocks);
    if i == fams.len() - 1 {
        assert(all =~= (pre + family_header(fams.last())) + blocks[i] + Seq::<char>::empty());
    } else {
        assert(fams.drop_last()[i] == fams[i]);
        lemma_block_in_text(fams.drop_last(), blocks, i);
        assert(all =~= Seq::<char>::empty() + pre + (family_header(fams.last()) + blocks[fams.len() - 1]));
        lemma_infix_trans(all, pre, blocks[i]);
    }
}

/// Every sample is shown: an exposition of the samples `m` holds, for each
/// sample of a family it lists, that sample's line with its current value.
pub proof fn law_exposition_shows_every_sample(
    t: Seq<char>,
    fams: Seq<(Seq<char>, Seq<char>, Seq<char>)>,
    m: Map<SampleKey, int>,
    i: int,
    key: Seq<char>,
    value: Seq<char>,
)
    requires
        exposes(t, fams, m),
        0 <= i < fams.len(),
        m.contains_key((fams[i].0, key, value)),
    ensures
        has_infix(t, sample_line(fams[i].0, fams[i].2, key, value, m[(fams[i].0, key, value)])),
{
    let blocks = choose|blocks: Seq<Seq<char>>|
        blocks.len() == fams.len() && (forall|i: int| 0 <= i < fams.len() ==> #[trigger] family_block(blocks[i], fams[i], m))
            && t == exposition(fams, blocks);
    assert(family_block(blocks[i], fams[i], m));
    let f = fams[i];
    let ks = choose|ks: Seq<(Seq<char>, Seq<char>)>|
        ks.no_duplicates() && ks.to_set() == family_labels(m, f.0) && blocks[i] == sample_lines(f, ks, m);
    assert(family_labels(m, f.0).contains((key, value)));
    assert(ks.to_set().contains((key, value)));
    let j = ks.index_of((key, value));
    assert(ks[j] == (key, value));
    lemma_line_in_lines(f, ks, m, j);
    lemma_block_in_text(fams, blocks, i);
    let ft = families_text(fams, blocks);
    assert(t =~= Seq::<char>::empty() + ft + "# EOF\n"@);
    lemma_infix_trans(t, ft, blocks[i]);
    lemma_infix_trans(t, blocks[i], sample_line(f.0, f.2, key, value, m[(f.0, key, value)]));
}

} // verus!
