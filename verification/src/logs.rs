//! Per-service log ring buffers and the merged tail view.
use std::collections::VecDeque;

use vstd::prelude::*;

use crate::text::{concat, str_equal, string_of};

verus! {

/// Default per-service ring-buffer capacity (number of log lines kept in memory).
pub const DEFAULT_BUFFER_CAPACITY: usize = 1000;

/// Which output stream of a service a line came from.
#[derive(Clone, Copy, Debug, PartialEq, Eq, Structural)]
pub enum LogStream {
    Stdout,
    Stderr,
}

/// A point in time: whole seconds since the Unix epoch and nanoseconds
/// within that second.
#[derive(Clone, Copy, Debug, PartialEq, Eq, Structural)]
pub struct LogTime {
    pub secs: i64,
    pub nanos: u32,
}

/// Whether `a` is not later than `b`.
pub open spec fn time_le(a: LogTime, b: LogTime) -> bool {
    a.secs < b.secs || (a.secs == b.secs && a.nanos <= b.nanos)
}

impl LogTime {
    /// Whether this time is not later than `other`.
    pub fn not_after(&self, other: &LogTime) -> (b: bool)
        ensures
            b == time_le(*self, *other),
    {
        self.secs < other.secs || (self.secs == other.secs && self.nanos <= other.nanos)
    }
}

/// One line of service output.
#[derive(Debug)]
pub struct LogEntry {
    pub timestamp: LogTime,
    pub service: String,
    pub stream: LogStream,
    pub message: String,
}

/// The mathematical value of a log line.
pub struct LogEntryView {
    pub timestamp: LogTime,
    pub service: Seq<char>,
    pub stream: LogStream,
    pub message: Seq<char>,
}

impl View for LogEntry {
    type V = LogEntryView;

    open spec fn view(&self) -> LogEntryView {
        LogEntryView {
            timestamp: self.timestamp,
            service: self.service@,
            stream: self.stream,
            message: self.message@,
        }
    }
}

impl LogEntry {
    /// A copy of this entry.
    pub fn duplicate(&self) -> (r: LogEntry)
        ensures
            r@ == self@,
    {
        LogEntry {
            timestamp: self.timestamp,
            service: self.service.clone(),
            stream: self.stream,
            message: self.message.clone(),
        }
    }
}

/// The views of a sequence of entries.
pub open spec fn entries_view(v: Seq<LogEntry>) -> Seq<LogEntryView> {
    v.map_values(|e: LogEntry| e@)
}

// ---------------------------------------------------------------------------
// Ring buffer
// ---------------------------------------------------------------------------

/// The buffer `buf` after pushing `e` under capacity `cap`: the oldest line
/// is dropped first when the buffer is full.
pub open spec fn ring_push<T>(buf: Seq<T>, e: T, cap: nat) -> Seq<T> {
    if buf.len() >= cap && buf.len() > 0 {
        buf.drop_first().push(e)
    } else {
        buf.push(e)
    }
}

/// The buffer after pushing each of `es` in turn, starting from `buf`.
pub open spec fn ring_push_all<T>(buf: Seq<T>, es: Seq<T>, cap: nat) -> Seq<T>
    decreases es.len(),
{
    if es.len() == 0 {
        buf
    } else {
        ring_push(ring_push_all(buf, es.drop_last(), cap), es.last(), cap)
    }
}

/// The number of lines a buffer of capacity `cap` holds at most (one even
/// for a zero capacity).
pub open spec fn ring_limit(cap: nat) -> nat {
    if cap == 0 {
        1
    } else {
        cap
    }
}

/// A ring buffer that starts empty keeps exactly the newest
/// `min(len, capacity)` of the lines pushed into it, in order.
pub proof fn law_ring_keeps_newest<T>(es: Seq<T>, cap: nat)
    ensures
        ({
            let keep = if es.len() <= ring_limit(cap) {
                es.len()
            } else {
                ring_limit(cap)
            };
            ring_push_all(Seq::<T>::empty(), es, cap) == es.skip(es.len() - keep)
        }),
    decreases es.len(),
{
    if es.len() > 0 {
        law_ring_keeps_newest(es.drop_last(), cap);
        let prev = es.drop_last();
        let pk = if prev.len() <= ring_limit(cap) {
            prev.len()
        } else {
            ring_limit(cap)
        };
        let b = prev.skip(prev.len() - pk);
        if b.len() >= cap && b.len() > 0 {
            assert(b.drop_first().push(es.last()) =~= es.skip(es.len() - b.len()));
        } else {
            assert(b.push(es.last()) =~= es.skip(es.len() - b.len() - 1));
        }
    } else {
        assert(es.skip(0) =~= es);
    }
}

/// A per-service ring buffer of log lines.
#[derive(Debug)]
pub struct Buffer {
    inner: VecDeque<LogEntry>,
    capacity: usize,
}

impl Buffer {
    /// The lines held, oldest first.
    pub closed spec fn lines(&self) -> Seq<LogEntryView> {
        entries_view(self.inner@)
    }

    /// The capacity.
    pub closed spec fn cap(&self) -> usize {
        self.capacity
    }

    /// An empty buffer of the given capacity.
    pub fn new(capacity: usize) -> (b: Buffer)
        ensures
            b.lines().len() == 0,
            b.cap() == capacity,
    {
        let b = Buffer { inner: VecDeque::new(), capacity };
        proof {
            assert(entries_view(b.inner@) =~= Seq::<LogEntryView>::empty());
        }
        b
    }

    /// Append `entry`, dropping the oldest line when the buffer is full.
    pub fn push(&mut self, entry: LogEntry)
        ensures
            final(self).lines() == ring_push(old(self).lines(), entry@, old(self).cap() as nat),
            final(self).cap() == old(self).cap(),
    {
        let ghost before = self.inner@;
        if self.inner.len() >= self.capacity {
            let _ = self.inner.pop_front();
        }
        let ghost mid = self.inner@;
        let ghost ev = entry@;
        self.inner.push_back(entry);
        proof {
            if before.len() >= self.capacity && before.len() > 0 {
                assert(mid =~= before.drop_first());
                assert(entries_view(self.inner@) =~= entries_view(before).drop_first().push(ev));
            } else {
                assert(mid =~= before);
                assert(entries_view(self.inner@) =~= entries_view(before).push(ev));
            }
        }
    }

    /// A copy of the lines held, oldest first.
    pub fn snapshot(&self) -> (r: Vec<LogEntry>)
        ensures
            entries_view(r@) == self.lines(),
    {
        let mut r: Vec<LogEntry> = Vec::new();
        let mut i: usize = 0;
        while i < self.inner.len()
            invariant
                i <= self.inner@.len(),
                entries_view(r@) == self.lines().take(i as int),
            decreases self.inner@.len() - i,
        {
            let e = self.inner[i].duplicate();
            let ghost before = r@;
            r.push(e);
            proof {
                assert(entries_view(r@) =~= entries_view(before).push(e@));
                assert(self.lines().take(i + 1) =~= self.lines().take(i as int).push(self.lines()[i as int]));
            }
            i = i + 1;
        }
        proof {
            assert(self.lines().take(self.inner@.len() as int) =~= self.lines());
        }
        r
    }
}

// ---------------------------------------------------------------------------
// Stable sort by time
// ---------------------------------------------------------------------------

/// `r` with `x` inserted after every line not later than `x`, scanning from
/// the end (the insertion step of a stable insertion sort).
pub open spec fn insert_by_time(r: Seq<LogEntryView>, x: LogEntryView) -> Seq<LogEntryView>
    decreases r.len(),
{
    if r.len() == 0 {
        seq![x]
    } else if time_le(r.last().timestamp, x.timestamp) {
        r.push(x)
    } else {
        insert_by_time(r.drop_last(), x).push(r.last())
    }
}

/// `s` stably sorted by timestamp: lines with equal timestamps keep their order.
pub open spec fn sort_by_time(s: Seq<LogEntryView>) -> Seq<LogEntryView>
    decreases s.len(),
{
    if s.len() == 0 {
        seq![]
    } else {
        insert_by_time(sort_by_time(s.drop_last()), s.last())
    }
}

/// Whether `s` is ordered by timestamp.
pub open spec fn time_sorted(s: Seq<LogEntryView>) -> bool {
    forall|i: int, j: int| 0 <= i < j < s.len() ==> time_le(s[i].timestamp, s[j].timestamp)
}

proof fn lemma_insert_at(r: Seq<LogEntryView>, x: LogEntryView, p: int)
    requires
        0 <= p <= r.len(),
        forall|k: int| p <= k < r.len() ==> !time_le(#[trigger] r[k].timestamp, x.timestamp),
        p > 0 ==> time_le(r[p - 1].timestamp, x.timestamp),
    ensures
        insert_by_time(r, x) == r.take(p).push(x) + r.skip(p),
    decreases r.len(),
{
    if r.len() == 0 {
        assert(r.take(p).push(x) + r.skip(p) =~= seq![x]);
    } else if p == r.len() {
        assert(r.take(p).push(x) + r.skip(p) =~= r.push(x));
    } else {
        assert(!time_le(r[r.len() - 1].timestamp, x.timestamp));
        assert forall|k: int| p <= k < r.drop_last().len() implies !time_le(#[trigger] r.drop_last()[k].timestamp, x.timestamp) by {
            assert(r.drop_last()[k] == r[k]);
        }
        lemma_insert_at(r.drop_last(), x, p);
        assert(r.drop_last().take(p).push(x) + r.drop_last().skip(p) + seq![r.last()] =~= r.take(p).push(x) + r.skip(p));
    }
}

proof fn lemma_time_le_total(a: LogTime, b: LogTime)
    ensures
        time_le(a, b) || time_le(b, a),
{
}

proof fn lemma_time_le_trans(a: LogTime, b: LogTime, c: LogTime)
    requires
        time_le(a, b),
        time_le(b, c),
    ensures
        time_le(a, c),
{
}

proof fn lemma_insert_sorted(r: Seq<LogEntryView>, x: LogEntryView)
    requires
        time_sorted(r),
    ensures
        time_sorted(insert_by_time(r, x)),
        insert_by_time(r, x).to_multiset() == r.to_multiset().insert(x),
    decreases r.len(),
{
    broadcast use vstd::seq_lib::group_to_multiset_ensures;
    if r.len() == 0 {
        assert(seq![x] =~= Seq::<LogEntryView>::empty().push(x));
    } else if time_le(r.last().timestamp, x.timestamp) {
        let s = r.push(x);
        assert forall|i: int, j: int| 0 <= i < j < s.len() implies time_le(s[i].timestamp, s[j].timestamp) by {
            if j == s.len() - 1 {
                if i < r.len() - 1 {
                    lemma_time_le_trans(r[i].timestamp, r[r.len() - 1].timestamp, x.timestamp);
                }
            }
        }
    } else {
        let d = r.drop_last();
        assert(time_sorted(d));
        lemma_insert_sorted(d, x);
        let m = insert_by_time(d, x);
        let s = m.push(r.last());
        lemma_time_le_total(r.last().timestamp, x.timestamp);
        assert forall|i: int, j: int| 0 <= i < j < s.len() implies time_le(s[i].timestamp, s[j].timestamp) by {
            if j == s.len() - 1 {
                // every member of m is x or a member of d, all not later than r.last()
                assert(m.to_multiset().count(s[i]) > 0) by {
                    assert(m.contains(s[i]));
                }
                if s[i] == x {
                } else {
                    assert(d.to_multiset().count(s[i]) > 0);
                    assert(d.contains(s[i]));
                    let k = choose|k: int| 0 <= k < d.len() && d[k] == s[i];
                    assert(r[k] == d[k]);
                }
            }
        }
        assert(r =~= d.push(r.last()));
    }
}

/// Sorting by time orders the lines, keeps exactly the same lines, and keeps
/// lines with equal timestamps in their original order (by construction).
pub proof fn law_sort_by_time(s: Seq<LogEntryView>)
    ensures
        time_sorted(sort_by_time(s)),
        sort_by_time(s).to_multiset() == s.to_multiset(),
        sort_by_time(s).len() == s.len(),
    decreases s.len(),
{
    broadcast use vstd::seq_lib::group_to_multiset_ensures;
    if s.len() > 0 {
        law_sort_by_time(s.drop_last());
        lemma_insert_sorted(sort_by_time(s.drop_last()), s.last());
        assert(s =~= s.drop_last().push(s.last()));
        assert(sort_by_time(s).len() == sort_by_time(s).to_multiset().len());
    } else {
        assert(s.to_multiset() =~= vstd::multiset::Multiset::<LogEntryView>::empty());
    }
}

/// Sort `v` stably by timestamp (insertion sort).
pub fn sort_entries_by_time(v: &Vec<LogEntry>) -> (r: Vec<LogEntry>)
    ensures
        entries_view(r@) == sort_by_time(entries_view(v@)),
{
    let ghost all = entries_view(v@);
    let mut r: Vec<LogEntry> = Vec::new();
    let mut i: usize = 0;
    proof {
        assert(all.take(0) =~= Seq::<LogEntryView>::empty());
        assert(entries_view(r@) =~= Seq::<LogEntryView>::empty());
    }
    while i < v.len()
        invariant
            i <= v.len(),
            all == entries_view(v@),
            entries_view(r@) == sort_by_time(all.take(i as int)),
            time_sorted(entries_view(r@)),
        decreases v.len() - i,
    {
        let x = v[i].duplicate();
        let ghost xv = x@;
        proof {
            assert(all.take(i + 1).drop_last() =~= all.take(i as int));
            assert(all.take(i + 1).last() == xv);
            law_sort_by_time(all.take(i as int));
        }
        let mut p = r.len();
        while p > 0 && !r[p - 1].timestamp.not_after(&x.timestamp)
            invariant
                p <= r.len(),
                forall|k: int| p <= k < r.len() ==> !time_le(#[trigger] entries_view(r@)[k].timestamp, xv.timestamp),
                x@ == xv,
            decreases p,
        {
            p = p - 1;
        }
        proof {
            lemma_insert_at(entries_view(r@), xv, p as int);
            lemma_insert_sorted(entries_view(r@), xv);
        }
        let ghost before = r@;
        r.insert(p, x);
        proof {
            assert(entries_view(r@) =~= entries_view(before).take(p as int).push(xv) + entries_view(before).skip(p as int));
        }
        i = i + 1;
    }
    proof {
        assert(all.take(v.len() as int) =~= all);
    }
    r
}

// ---------------------------------------------------------------------------
// LogStore — shared across the whole daemon
// ---------------------------------------------------------------------------

/// The services of a sequence of buffers.
pub open spec fn buffer_names(v: Seq<(String, Buffer)>) -> Seq<Seq<char>> {
    v.map_values(|p: (String, Buffer)| p.0@)
}

/// The per-service line store.
#[derive(Debug)]
pub struct LogStore {
    buffers: Vec<(String, Buffer)>,
    buffer_capacity: usize,
}

/// Whether `names` selects `name`: an empty list selects every name.
pub open spec fn service_selected(names: Seq<Seq<char>>, name: Seq<char>) -> bool {
    names.len() == 0 || names.contains(name)
}

/// The lines of the selected buffers, buffer after buffer.
pub open spec fn selected_lines(
    bufs: Seq<(Seq<char>, Seq<LogEntryView>)>,
    names: Seq<Seq<char>>,
) -> Seq<LogEntryView>
    decreases bufs.len(),
{
    if bufs.len() == 0 {
        seq![]
    } else if service_selected(names, bufs.last().0) {
        selected_lines(bufs.drop_last(), names) + bufs.last().1
    } else {
        selected_lines(bufs.drop_last(), names)
    }
}

/// The last `n` members of `s` (all of `s` when it is shorter).
pub open spec fn last_n<T>(s: Seq<T>, n: nat) -> Seq<T> {
    if s.len() > n {
        s.skip(s.len() - n)
    } else {
        s
    }
}

impl LogStore {
    #[verifier::type_invariant]
    spec fn wf(self) -> bool {
        &&& forall|i: int, j: int| 0 <= i < j < self.buffers@.len() ==> self.buffers@[i].0@ != self.buffers@[j].0@
        &&& forall|i: int| 0 <= i < self.buffers@.len() ==> (#[trigger] self.buffers@[i]).1.cap() == self.buffer_capacity
    }

    /// Each service's lines, services in the order of their first line.
    pub closed spec fn contents(&self) -> Seq<(Seq<char>, Seq<LogEntryView>)> {
        self.buffers@.map_values(|p: (String, Buffer)| (p.0@, p.1.lines()))
    }

    /// The number of lines kept per service.
    pub closed spec fn capacity(&self) -> usize {
        self.buffer_capacity
    }

    /// An empty store keeping `buffer_capacity` lines per service.
    pub fn new(buffer_capacity: usize) -> (s: LogStore)
        ensures
            s.contents().len() == 0,
            s.capacity() == buffer_capacity,
    {
        let s = LogStore { buffers: Vec::new(), buffer_capacity };
        proof {
            assert(s.buffers@.map_values(|p: (String, Buffer)| (p.0@, p.1.lines())) =~= Seq::<(Seq<char>, Seq<LogEntryView>)>::empty());
        }
        s
    }

    fn position(&self, service: &str) -> (r: Option<usize>)
        ensures
            r matches Some(k) ==> k < self.contents().len() && self.contents()[k as int].0 == service@,
            r is None ==> forall|k: int| 0 <= k < self.contents().len() ==> (#[trigger] self.contents()[k]).0 != service@,
    {
        let mut i: usize = 0;
        while i < self.buffers.len()
            invariant
                i <= self.buffers.len(),
                forall|k: int| 0 <= k < i ==> (#[trigger] self.contents()[k]).0 != service@,
            decreases self.buffers.len() - i,
        {
            if str_equal(self.buffers[i].0.as_str(), service) {
                return Some(i);
            }
            i = i + 1;
        }
        None
    }

    /// Append `entry` to the buffer of its service (created on first use).
    pub fn push(&mut self, entry: LogEntry)
        ensures
            ({
                let before = old(self).contents();
                let after = final(self).contents();
                let cap = old(self).capacity() as nat;
                match index_of_service(before, entry@.service) {
                    Some(k) => after == before.update(k, (entry@.service, ring_push(before[k].1, entry@, cap))),
                    None => after == before.push((entry@.service, ring_push(Seq::<LogEntryView>::empty(), entry@, cap))),
                }
            }),
            final(self).capacity() == old(self).capacity(),
    {
        proof {
            use_type_invariant(&*self);
        }
        let ghost before = self.contents();
        let ghost ev = entry@;
        match self.position(entry.service.as_str()) {
            Some(k) => {
                proof {
                    lemma_index_of_service(before, ev.service, k as int);
                }
                let mut bufs: Vec<(String, Buffer)> = Vec::new();
                std::mem::swap(&mut bufs, &mut self.buffers);
                let ghost old_bufs = bufs@;
                let (name, mut buf) = bufs.remove(k);
                buf.push(entry);
                let ghost nb = buf.lines();
                bufs.insert(k, (name, buf));
                proof {
                    assert(bufs@ =~= old_bufs.update(k as int, bufs@[k as int]));
                    assert(bufs@.map_values(|p: (String, Buffer)| (p.0@, p.1.lines())) =~= before.update(k as int, (ev.service, nb)));
                }
                self.buffers = bufs;
            },
            None => {
                proof {
                    lemma_index_of_service_none(before, ev.service);
                }
                let mut buf = Buffer::new(self.buffer_capacity);
                let name = entry.service.clone();
                buf.push(entry);
                proof {
                    assert(buf.lines() =~= ring_push(Seq::<LogEntryView>::empty(), ev, self.buffer_capacity as nat));
                }
                let mut bufs: Vec<(String, Buffer)> = Vec::new();
                std::mem::swap(&mut bufs, &mut self.buffers);
                let ghost old_bufs = bufs@;
                bufs.push((name, buf));
                proof {
                    assert(bufs@.map_values(|p: (String, Buffer)| (p.0@, p.1.lines())) =~= old_bufs.map_values(|p: (String, Buffer)| (p.0@, p.1.lines())).push((ev.service, buf.lines())));
                    assert forall|i: int, j: int| 0 <= i < j < bufs@.len() implies bufs@[i].0@ != bufs@[j].0@ by {
                        if j == bufs@.len() - 1 {
                            assert(before[i].0 == old_bufs[i].0@);
                        }
                    }
                }
                self.buffers = bufs;
            },
        }
    }

    /// Return up to `n` most recent lines across the requested services (all
    /// services for an empty list), ordered by time.
    pub fn tail(&self, services: &[String], n: usize) -> (r: Vec<LogEntry>)
        ensures
            entries_view(r@) == last_n(
                sort_by_time(selected_lines(self.contents(), services@.map_values(|s: String| s@))),
                n as nat,
            ),
            r@.len() <= n,
            time_sorted(entries_view(r@)),
            forall|x: LogEntryView|
                entries_view(r@).contains(x) ==> exists|k: int, j: int|
                    0 <= k < self.contents().len() && 0 <= j < self.contents()[k].1.len() && (services@.len() == 0
                        || services@.map_values(|s: String| s@).contains(self.contents()[k].0))
                        && #[trigger] self.contents()[k].1[j] == x,
            n >= total_lines(self.contents()) ==> forall|k: int, j: int|
                0 <= k < self.contents().len() && 0 <= j < self.contents()[k].1.len() && (services@.len() == 0
                    || services@.map_values(|s: String| s@).contains(self.contents()[k].0))
                    ==> entries_view(r@).contains(#[trigger] self.contents()[k].1[j]),
            forall|k: int, j: int, y: LogEntryView|
                0 <= k < self.contents().len() && 0 <= j < self.contents()[k].1.len() && (services@.len() == 0
                    || services@.map_values(|s: String| s@).contains(self.contents()[k].0)) && !entries_view(
                    r@,
                ).contains(#[trigger] self.contents()[k].1[j]) && #[trigger] entries_view(r@).contains(y) ==> time_le(
                    self.contents()[k].1[j].timestamp,
                    y.timestamp,
                ),
            (exists|k: int, j: int|
                0 <= k < self.contents().len() && 0 <= j < self.contents()[k].1.len() && (services@.len() == 0
                    || services@.map_values(|s: String| s@).contains(self.contents()[k].0)) && !entries_view(
                    r@,
                ).contains(#[trigger] self.contents()[k].1[j])) ==> r@.len() == n,
    {
        let ghost names = services@.map_values(|s: String| s@);
        let mut all: Vec<LogEntry> = Vec::new();
        let mut i: usize = 0;
        proof {
            assert(self.contents().take(0) =~= Seq::<(Seq<char>, Seq<LogEntryView>)>::empty());
            assert(entries_view(all@) =~= Seq::<LogEntryView>::empty());
        }
        while i < self.buffers.len()
            invariant
                i <= self.buffers.len(),
                names == services@.map_values(|s: String| s@),
                entries_view(all@) == selected_lines(self.contents().take(i as int), names),
            decreases self.buffers.len() - i,
        {
            proof {
                assert(self.contents().take(i + 1).drop_last() =~= self.contents().take(i as int));
                assert(self.contents().take(i + 1).last() == self.contents()[i as int]);
            }
            let wanted = services.len() == 0 || crate::identity::contains_name(services, self.buffers[i].0.as_str());
            if wanted {
                let mut snap = self.buffers[i].1.snapshot();
                let ghost before = all@;
                let ghost sv = snap@;
                all.append(&mut snap);
                proof {
                    assert(entries_view(all@) =~= entries_view(before) + entries_view(sv));
                }
            }
            i = i + 1;
        }
        proof {
            assert(self.contents().take(self.buffers.len() as int) =~= self.contents());
        }
        proof {
            law_tail_lines(self.contents(), names, n as nat);
        }
        let mut sorted = sort_entries_by_time(&all);
        let len = sorted.len();
        if len > n {
            let ghost sv = entries_view(sorted@);
            let tail = sorted.split_off(len - n);
            proof {
                assert(entries_view(tail@) =~= sv.skip(len - n));
            }
            tail
        } else {
            sorted
        }
    }
}

/// The position of `service` among the buffers of `c`.
pub open spec fn index_of_service(c: Seq<(Seq<char>, Seq<LogEntryView>)>, service: Seq<char>) -> Option<int>
    decreases c.len(),
{
    if c.len() == 0 {
        None
    } else if c.last().0 == service {
        Some(c.len() - 1)
    } else {
        index_of_service(c.drop_last(), service)
    }
}

proof fn lemma_index_of_service(c: Seq<(Seq<char>, Seq<LogEntryView>)>, service: Seq<char>, k: int)
    requires
        0 <= k < c.len(),
        c[k].0 == service,
        forall|i: int, j: int| 0 <= i < j < c.len() ==> c[i].0 != c[j].0,
    ensures
        index_of_service(c, service) == Some(k),
    decreases c.len(),
{
    if k < c.len() - 1 {
        assert(c[c.len() - 1].0 != service);
        lemma_index_of_service(c.drop_last(), service, k);
    }
}

proof fn lemma_index_of_service_none(c: Seq<(Seq<char>, Seq<LogEntryView>)>, service: Seq<char>)
    requires
        forall|k: int| 0 <= k < c.len() ==> (#[trigger] c[k]).0 != service,
    ensures
        index_of_service(c, service) is None,
    decreases c.len(),
{
    if c.len() > 0 {
        assert(c[c.len() - 1].0 != service);
        assert forall|k: int| 0 <= k < c.len() - 1 implies (#[trigger] c.drop_last()[k]).0 != service by {
            assert(c.drop_last()[k] == c[k]);
        }
        lemma_index_of_service_none(c.drop_last(), service);
    }
}

// ---------------------------------------------------------------------------
// Streaming helpers
// ---------------------------------------------------------------------------

/// Whether a live line of `service` goes to a follower of `services` (all
/// services for an empty list).
pub fn follows(services: &[String], service: &str) -> (b: bool)
    ensures
        b == service_selected(services@.map_values(|s: String| s@), service@),
        b == (services@.len() == 0 || exists|i: int| 0 <= i < services@.len() && (#[trigger] services@[i])@ == service@),
{
    let b = services.len() == 0 || crate::identity::contains_name(services, service);
    proof {
        let sel = services@.map_values(|s: String| s@);
        if sel.contains(service@) {
            let i = choose|i: int| 0 <= i < sel.len() && sel[i] == service@;
            assert(services@[i]@ == service@);
        }
        if exists|i: int| 0 <= i < services@.len() && (#[trigger] services@[i])@ == service@ {
            let i = choose|i: int| 0 <= i < services@.len() && (#[trigger] services@[i])@ == service@;
            assert(sel[i] == service@);
        }
    }
    b
}

/// The plain-text form of a line: `[service] message`.
pub fn text_line(entry: &LogEntry) -> (s: String)
    ensures
        s@ == "["@ + entry.service@ + "] "@ + entry.message@,
{
    let a = concat("[", entry.service.as_str());
    let b = concat(a.as_str(), "] ");
    concat(b.as_str(), entry.message.as_str())
}

/// The reconnect delay after `backoff_ms`: doubled, at most 30 seconds.
pub fn next_push_backoff(backoff_ms: u64) -> (r: u64)
    ensures
        r == if 2 * backoff_ms > 30000 { 30000 } else { 2 * backoff_ms },
{
    if backoff_ms > 15000 {
        30000
    } else {
        backoff_ms * 2
    }
}

/// The first reconnect delay of a push stream, in milliseconds.
pub const INITIAL_PUSH_BACKOFF_MS: u64 = 500;

/// The depth of the live broadcast channel for a ring of `log_buffer` lines:
/// half of it, clamped to `[64, 4096]`.
pub fn broadcast_capacity(log_buffer: usize) -> (r: usize)
    ensures
        r == if log_buffer / 2 < 64 { 64 } else if log_buffer / 2 > 4096 { 4096 } else { log_buffer / 2 },
{
    let half = log_buffer / 2;
    if half < 64 {
        64
    } else if half > 4096 {
        4096
    } else {
        half
    }
}

} // verus!

verus! {

/// The number of lines held in all of `bufs`.
pub open spec fn total_lines(bufs: Seq<(Seq<char>, Seq<LogEntryView>)>) -> nat
    decreases bufs.len(),
{
    if bufs.len() == 0 {
        0
    } else {
        total_lines(bufs.drop_last()) + bufs.last().1.len()
    }
}

proof fn lemma_selected_len(bufs: Seq<(Seq<char>, Seq<LogEntryView>)>, names: Seq<Seq<char>>)
    ensures
        selected_lines(bufs, names).len() <= total_lines(bufs),
    decreases bufs.len(),
{
    if bufs.len() > 0 {
        lemma_selected_len(bufs.drop_last(), names);
    }
}

proof fn lemma_selected_has(bufs: Seq<(Seq<char>, Seq<LogEntryView>)>, names: Seq<Seq<char>>, k: int, j: int)
    requires
        0 <= k < bufs.len(),
        0 <= j < bufs[k].1.len(),
        names.len() == 0 || names.contains(bufs[k].0),
    ensures
        selected_lines(bufs, names).contains(bufs[k].1[j]),
    decreases bufs.len(),
{
    let pre = bufs.drop_last();
    let sp = selected_lines(pre, names);
    if k == bufs.len() - 1 {
        assert(selected_lines(bufs, names) == sp + bufs.last().1);
        assert((sp + bufs.last().1)[sp.len() + j] == bufs[k].1[j]);
    } else {
        assert(pre[k] == bufs[k]);
        lemma_selected_has(pre, names, k, j);
        let i = choose|i: int| 0 <= i < sp.len() && sp[i] == bufs[k].1[j];
        if service_selected(names, bufs.last().0) {
            assert((sp + bufs.last().1)[i] == sp[i]);
        }
    }
}

proof fn lemma_selected_from(bufs: Seq<(Seq<char>, Seq<LogEntryView>)>, names: Seq<Seq<char>>, x: LogEntryView)
    requires
        selected_lines(bufs, names).contains(x),
    ensures
        exists|k: int, j: int|
            0 <= k < bufs.len() && 0 <= j < bufs[k].1.len() && (names.len() == 0 || names.contains(bufs[k].0))
                && bufs[k].1[j] == x,
    decreases bufs.len(),
{
    let pre = bufs.drop_last();
    let sp = selected_lines(pre, names);
    let i = choose|i: int| 0 <= i < selected_lines(bufs, names).len() && selected_lines(bufs, names)[i] == x;
    if service_selected(names, bufs.last().0) && i >= sp.len() {
        let k = bufs.len() - 1;
        let j = i - sp.len();
        assert((sp + bufs.last().1)[i] == bufs.last().1[j]);
        assert(bufs[k].1[j] == x);
    } else {
        if service_selected(names, bufs.last().0) {
            assert((sp + bufs.last().1)[i] == sp[i]);
        }
        assert(sp.contains(x));
        lemma_selected_from(pre, names, x);
        let (k, j) = choose|k: int, j: int|
            0 <= k < pre.len() && 0 <= j < pre[k].1.len() && (names.len() == 0 || names.contains(pre[k].0))
                && pre[k].1[j] == x;
        assert(bufs[k] == pre[k]);
    }
}

proof fn lemma_sort_same_members(s: Seq<LogEntryView>, x: LogEntryView)
    ensures
        sort_by_time(s).contains(x) == s.contains(x),
{
    law_sort_by_time(s);
    s.to_multiset_ensures();
    sort_by_time(s).to_multiset_ensures();
    assert(sort_by_time(s).to_multiset().count(x) == s.to_multiset().count(x));
}

/// What a tail of the logs holds, for every store and every request: only
/// lines of the requested services (of every service when none is named),
/// at most `n` of them, in time order; and when `n` covers every stored line,
/// every line of every requested service.
pub proof fn law_tail_lines(bufs: Seq<(Seq<char>, Seq<LogEntryView>)>, names: Seq<Seq<char>>, n: nat)
    ensures
        ({
            let r = last_n(sort_by_time(selected_lines(bufs, names)), n);
            &&& r.len() <= n
            &&& time_sorted(r)
            &&& forall|x: LogEntryView|
                r.contains(x) ==> exists|k: int, j: int|
                    0 <= k < bufs.len() && 0 <= j < bufs[k].1.len() && (names.len() == 0 || names.contains(bufs[k].0))
                        && #[trigger] bufs[k].1[j] == x
            &&& n >= total_lines(bufs) ==> forall|k: int, j: int|
                0 <= k < bufs.len() && 0 <= j < bufs[k].1.len() && (names.len() == 0 || names.contains(bufs[k].0))
                    ==> r.contains(#[trigger] bufs[k].1[j])
            &&& forall|k: int, j: int, y: LogEntryView|
                0 <= k < bufs.len() && 0 <= j < bufs[k].1.len() && (names.len() == 0 || names.contains(bufs[k].0))
                    && !r.contains(#[trigger] bufs[k].1[j]) && #[trigger] r.contains(y) ==> time_le(
                    bufs[k].1[j].timestamp,
                    y.timestamp,
                )
            &&& (exists|k: int, j: int|
                0 <= k < bufs.len() && 0 <= j < bufs[k].1.len() && (names.len() == 0 || names.contains(bufs[k].0))
                    && !r.contains(#[trigger] bufs[k].1[j])) ==> r.len() == n
        }),
{
    let sel = selected_lines(bufs, names);
    let sorted = sort_by_time(sel);
    let r = last_n(sorted, n);
    law_sort_by_time(sel);
    lemma_selected_len(bufs, names);
    assert forall|x: LogEntryView| r.contains(x) implies exists|k: int, j: int|
        0 <= k < bufs.len() && 0 <= j < bufs[k].1.len() && (names.len() == 0 || names.contains(bufs[k].0))
            && #[trigger] bufs[k].1[j] == x by {
        let i = choose|i: int| 0 <= i < r.len() && r[i] == x;
        if sorted.len() > n {
            assert(r[i] == sorted[i + (sorted.len() - n)]);
        }
        assert(sorted.contains(x));
        lemma_sort_same_members(sel, x);
        lemma_selected_from(bufs, names, x);
    }
    assert(time_sorted(r)) by {
        if sorted.len() > n {
            assert forall|i: int, j: int| 0 <= i < j < r.len() implies time_le(r[i].timestamp, r[j].timestamp) by {
                assert(r[i] == sorted[i + (sorted.len() - n)]);
                assert(r[j] == sorted[j + (sorted.len() - n)]);
            }
        }
    }
    if n >= total_lines(bufs) {
        assert forall|k: int, j: int|
            0 <= k < bufs.len() && 0 <= j < bufs[k].1.len() && (names.len() == 0 || names.contains(bufs[k].0))
                implies r.contains(#[trigger] bufs[k].1[j]) by {
            lemma_selected_has(bufs, names, k, j);
            lemma_sort_same_members(sel, bufs[k].1[j]);
        }
    }
    assert forall|k: int, j: int, y: LogEntryView|
        0 <= k < bufs.len() && 0 <= j < bufs[k].1.len() && (names.len() == 0 || names.contains(bufs[k].0))
            && !r.contains(#[trigger] bufs[k].1[j]) && #[trigger] r.contains(y) implies time_le(
            bufs[k].1[j].timestamp,
            y.timestamp,
        ) by {
        let x = bufs[k].1[j];
        lemma_selected_has(bufs, names, k, j);
        lemma_sort_same_members(sel, x);
        let p = choose|p: int| 0 <= p < sorted.len() && sorted[p] == x;
        let i = choose|i: int| 0 <= i < r.len() && r[i] == y;
        if sorted.len() > n {
            let start = sorted.len() - n;
            assert(r[i] == sorted[i + start]);
            if p >= start {
                assert(r[p - start] == x);
            }
            assert(p < i + start);
        } else {
            assert(r[p] == x);
        }
    }
    if exists|k: int, j: int|
        0 <= k < bufs.len() && 0 <= j < bufs[k].1.len() && (names.len() == 0 || names.contains(bufs[k].0))
            && !r.contains(#[trigger] bufs[k].1[j]) {
        let (k, j) = choose|k: int, j: int|
            0 <= k < bufs.len() && 0 <= j < bufs[k].1.len() && (names.len() == 0 || names.contains(bufs[k].0))
                && !r.contains(#[trigger] bufs[k].1[j]);
        lemma_selected_has(bufs, names, k, j);
        lemma_sort_same_members(sel, bufs[k].1[j]);
        if sorted.len() <= n {
            assert(r == sorted);
        }
    }
}

} // verus!
