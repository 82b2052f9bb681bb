//! Alert payloads: the JSON documents sent for a check's state change in the
//! webhook, Alertmanager, CloudEvents and OTLP-logs formats.
//!
//! Payloads are produced as JSON text. Values that come from the clock or a
//! random source (the time, an event id) are arguments.
use vstd::prelude::*;

use crate::alert::{resolved_map, resolved_pairs, status_str, status_text, AlertConfig, AlertFormat, CheckStatus};
use crate::kv::{insert_exec, insert_pair, pairs_view};
use crate::metrics::{has_infix, lemma_infix_trans};
use crate::text::{concat, decimal, decimal_text, string_from_chars, string_of};

verus! {

// ---------------------------------------------------------------------------
// JSON text
// ---------------------------------------------------------------------------

/// A hexadecimal digit, lower case.
pub open spec fn hex_digit(d: int) -> char {
    if d < 10 {
        (d + 48) as char
    } else {
        (d - 10 + 97) as char
    }
}

/// How one character is written inside a JSON string: quotes, backslashes and
/// control characters escaped (with the short forms where JSON has them),
/// everything else as is.
pub open spec fn escape_char(c: char) -> Seq<char> {
    if c == '"' {
        seq!['\\', '"']
    } else if c == '\\' {
        seq!['\\', '\\']
    } else if c == '\n' {
        seq!['\\', 'n']
    } else if c == '\r' {
        seq!['\\', 'r']
    } else if c == '\t' {
        seq!['\\', 't']
    } else if c == 8 as char {
        seq!['\\', 'b']
    } else if c == 12 as char {
        seq!['\\', 'f']
    } else if (c as u32) < 32 {
        seq!['\\', 'u', '0', '0', hex_digit(((c as u32) / 16) as int), hex_digit(((c as u32) % 16) as int)]
    } else {
        seq![c]
    }
}

/// The escaped characters of `s`.
pub open spec fn escaped(s: Seq<char>) -> Seq<char>
    decreases s.len(),
{
    if s.len() == 0 {
        seq![]
    } else {
        escaped(s.drop_last()) + escape_char(s.last())
    }
}

/// `s` as a JSON string literal.
pub open spec fn json_string(s: Seq<char>) -> Seq<char> {
    seq!['"'] + escaped(s) + seq!['"']
}

/// JSON values `items` separated by commas.
pub open spec fn comma_list(items: Seq<Seq<char>>) -> Seq<char>
    decreases items.len(),
{
    if items.len() == 0 {
        seq![]
    } else if items.len() == 1 {
        items[0]
    } else {
        comma_list(items.drop_last()) + seq![','] + items.last()
    }
}

/// A JSON object member `"key":value`.
pub open spec fn member(key: Seq<char>, value: Seq<char>) -> Seq<char> {
    json_string(key) + seq![':'] + value
}

/// A JSON object with the members `members`, in order.
pub open spec fn json_object(members: Seq<Seq<char>>) -> Seq<char> {
    seq!['{'] + comma_list(members) + seq!['}']
}

/// A JSON array of `items`.
pub open spec fn json_array(items: Seq<Seq<char>>) -> Seq<char> {
    seq!['['] + comma_list(items) + seq![']']
}

/// A JSON object of string values, one member per entry of `t`, in order.
pub open spec fn string_map(t: Seq<(Seq<char>, Seq<char>)>) -> Seq<char> {
    json_object(t.map_values(|p: (Seq<char>, Seq<char>)| member(p.0, json_string(p.1))))
}

fn push_str(out: &mut Vec<char>, s: &str)
    ensures
        final(out)@ == old(out)@ + s@,
{
    let ghost start = out@;
    let mut it = s.chars();
    let mut i: usize = 0;
    let cs = crate::text::str_chars(s);
    while i < cs.len()
        invariant
            i <= cs.len(),
            cs@ == s@,
            out@ == start + cs@.take(i as int),
        decreases cs.len() - i,
    {
        out.push(cs[i]);
        proof {
            assert(cs@.take(i + 1) =~= cs@.take(i as int).push(cs@[i as int]));
        }
        i = i + 1;
    }
    proof {
        assert(cs@.take(cs.len() as int) =~= cs@);
    }
}

fn hex_char(d: u32) -> (c: char)
    requires
        d < 16,
    ensures
        c == hex_digit(d as int),
{
    let b: u8 = d as u8;
    if b < 10 {
        (b + 48) as char
    } else {
        (b - 10 + 97) as char
    }
}

/// Write `s` as a JSON string literal.
pub fn json_string_text(s: &str) -> (r: String)
    ensures
        r@ == json_string(s@),
        forall|i: int| 0 <= i < r@.len() ==> (#[trigger] r@[i]) as u32 >= 32,
        (forall|i: int| 0 <= i < s@.len() ==> (#[trigger] s@[i]) != '"' && s@[i] != '\\' && s@[i] as u32 >= 32) ==> r@
            == seq!['"'] + s@ + seq!['"'],
{
    proof {
        law_escaping(s@);
    }
    let cs = crate::text::str_chars(s);
    let mut out: Vec<char> = Vec::new();
    out.push('"');
    let mut i: usize = 0;
    while i < cs.len()
        invariant
            i <= cs.len(),
            cs@ == s@,
            out@ == seq!['"'] + escaped(cs@.take(i as int)),
        decreases cs.len() - i,
    {
        let c = cs[i];
        let ghost before = out@;
        if c == '"' {
            out.push('\\');
            out.push('"');
        } else if c == '\\' {
            out.push('\\');
            out.push('\\');
        } else if c == '\n' {
            out.push('\\');
            out.push('n');
        } else if c == '\r' {
            out.push('\\');
            out.push('r');
        } else if c == '\t' {
            out.push('\\');
            out.push('t');
        } else if c == 8 as char {
            out.push('\\');
            out.push('b');
        } else if c == 12 as char {
            out.push('\\');
            out.push('f');
        } else if (c as u32) < 32 {
            let code = c as u32;
            let h = hex_char(code / 16);
            let l = hex_char(code % 16);
            out.push('\\');
            out.push('u');
            out.push('0');
            out.push('0');
            out.push(h);
            out.push(l);
            proof {
                assert(escape_char(c) == seq!['\\', 'u', '0', '0', h, l]);
            }
        } else {
            out.push(c);
        }
        proof {
            assert(cs@.take(i + 1).drop_last() =~= cs@.take(i as int));
            assert(out@ =~= before + escape_char(c));
        }
        i = i + 1;
    }
    out.push('"');
    proof {
        assert(cs@.take(cs.len() as int) =~= cs@);
        assert(out@ =~= json_string(s@));
    }
    string_from_chars(&out)
}

/// Join JSON values with commas.
fn comma_list_text(items: &Vec<String>) -> (r: String)
    ensures
        r@ == comma_list(crate::text::strings_view(items@)),
{
    let mut r = String::new();
    let mut i: usize = 0;
    while i < items.len()
        invariant
            i <= items.len(),
            r@ == comma_list(crate::text::strings_view(items@).take(i as int)),
        decreases items.len() - i,
    {
        proof {
            assert(crate::text::strings_view(items@).take(i + 1).drop_last() =~= crate::text::strings_view(
                items@,
            ).take(i as int));
        }
        if i == 0 {
            r = items[0].clone();
            proof {
                assert(crate::text::strings_view(items@).take(1)[0] == items@[0]@);
            }
        } else {
            proof {
                reveal_strlit(",");
            }
            let a = concat(r.as_str(), ",");
            r = concat(a.as_str(), items[i].as_str());
        }
        i = i + 1;
    }
    proof {
        assert(crate::text::strings_view(items@).take(items.len() as int) =~= crate::text::strings_view(items@));
    }
    r
}

fn object_text(members: &Vec<String>) -> (r: String)
    ensures
        r@ == json_object(crate::text::strings_view(members@)),
{
    let inner = comma_list_text(members);
    proof {
        reveal_strlit("{");
        reveal_strlit("}");
    }
    let a = concat("{", inner.as_str());
    concat(a.as_str(), "}")
}

fn array_text(items: &Vec<String>) -> (r: String)
    ensures
        r@ == json_array(crate::text::strings_view(items@)),
{
    let inner = comma_list_text(items);
    proof {
        reveal_strlit("[");
        reveal_strlit("]");
    }
    let a = concat("[", inner.as_str());
    concat(a.as_str(), "]")
}

fn member_text(key: &str, value: &str) -> (r: String)
    ensures
        r@ == member(key@, value@),
{
    let k = json_string_text(key);
    proof {
        reveal_strlit(":");
    }
    let a = concat(k.as_str(), ":");
    concat(a.as_str(), value)
}

/// A JSON object of string values, one member per entry of `t`.
pub fn string_map_text(t: &Vec<(String, String)>) -> (r: String)
    ensures
        r@ == string_map(pairs_view(t@)),
{
    let mut members: Vec<String> = Vec::new();
    let mut i: usize = 0;
    while i < t.len()
        invariant
            i <= t.len(),
            crate::text::strings_view(members@) == pairs_view(t@).take(i as int).map_values(
                |p: (Seq<char>, Seq<char>)| member(p.0, json_string(p.1)),
            ),
        decreases t.len() - i,
    {
        let v = json_string_text(t[i].1.as_str());
        let m = member_text(t[i].0.as_str(), v.as_str());
        let ghost before = members@;
        members.push(m);
        proof {
            assert(crate::text::strings_view(members@) =~= crate::text::strings_view(before).push(m@));
            assert(pairs_view(t@).take(i + 1) =~= pairs_view(t@).take(i as int).push(pairs_view(t@)[i as int]));
            assert(crate::text::strings_view(members@) =~= pairs_view(t@).take(i + 1).map_values(
                |p: (Seq<char>, Seq<char>)| member(p.0, json_string(p.1)),
            ));
        }
        i = i + 1;
    }
    proof {
        assert(pairs_view(t@).take(t.len() as int) =~= pairs_view(t@));
    }
    object_text(&members)
}

// ---------------------------------------------------------------------------
// Payloads
// ---------------------------------------------------------------------------

/// The time that stands for "not set" in Alertmanager alerts.
pub open spec fn zero_time() -> Seq<char> {
    "0001-01-01T00:00:00Z"@
}

/// The generic webhook document.
pub open spec fn webhook_doc(
    check: Seq<char>,
    status: CheckStatus,
    labels: Seq<(Seq<char>, Seq<char>)>,
    info: Seq<(Seq<char>, Seq<char>)>,
    now: Seq<char>,
) -> Seq<char> {
    json_object(
        seq![
            member("check"@, json_string(check)),
            member("status"@, json_string(status_text(status))),
            member("timestamp"@, json_string(now)),
            member("labels"@, string_map(labels)),
            member("info"@, string_map(info)),
        ],
    )
}

/// The Alertmanager document: one alert labelled with the alert's labels plus
/// `alertname` and `check` (both the check's name), annotated with the info
/// fields; a failure starts now and has no end, a recovery ends now.
pub open spec fn alertmanager_doc(
    check: Seq<char>,
    status: CheckStatus,
    labels: Seq<(Seq<char>, Seq<char>)>,
    info: Seq<(Seq<char>, Seq<char>)>,
    now: Seq<char>,
) -> Seq<char> {
    let (starts, ends) = if status == CheckStatus::Down {
        (now, zero_time())
    } else {
        (zero_time(), now)
    };
    let all_labels = insert_pair(insert_pair(labels, "alertname"@, check), "check"@, check);
    json_array(
        seq![
            json_object(
                seq![
                    member("labels"@, string_map(all_labels)),
                    member("annotations"@, string_map(info)),
                    member("startsAt"@, json_string(starts)),
                    member("endsAt"@, json_string(ends)),
                ],
            ),
        ],
    )
}

/// The CloudEvents type of a state change.
pub open spec fn event_type(status: CheckStatus) -> Seq<char> {
    if status == CheckStatus::Down {
        "io.vigil.check.failed"@
    } else {
        "io.vigil.check.recovered"@
    }
}

/// The CloudEvents (structured mode) document.
pub open spec fn cloudevents_doc(
    check: Seq<char>,
    status: CheckStatus,
    labels: Seq<(Seq<char>, Seq<char>)>,
    info: Seq<(Seq<char>, Seq<char>)>,
    now: Seq<char>,
    event_id: Seq<char>,
) -> Seq<char> {
    json_object(
        seq![
            member("specversion"@, json_string("1.0"@)),
            member("id"@, json_string(event_id)),
            member("source"@, json_string("vigild"@)),
            member("type"@, json_string(event_type(status))),
            member("time"@, json_string(now)),
            member("datacontenttype"@, json_string("application/json"@)),
            member(
                "data"@,
                json_object(
                    seq![
                        member("check"@, json_string(check)),
                        member("status"@, json_string(status_text(status))),
                        member("labels"@, string_map(labels)),
                        member("info"@, string_map(info)),
                    ],
                ),
            ),
        ],
    )
}

/// An OTLP string attribute.
pub open spec fn otlp_attribute(key: Seq<char>, value: Seq<char>) -> Seq<char> {
    json_object(
        seq![
            member("key"@, json_string(key)),
            member("value"@, json_object(seq![member("stringValue"@, json_string(value))])),
        ],
    )
}

/// The OTLP attributes of a table, in order.
pub open spec fn otlp_attributes(t: Seq<(Seq<char>, Seq<char>)>) -> Seq<Seq<char>> {
    t.map_values(|p: (Seq<char>, Seq<char>)| otlp_attribute(p.0, p.1))
}

/// The text of a signed integer.
pub open spec fn signed_text(n: int) -> Seq<char> {
    if n < 0 {
        seq!['-'] + decimal_text((-n) as nat)
    } else {
        decimal_text(n as nat)
    }
}

/// The OTLP log body of a state change.
pub open spec fn otlp_body(check: Seq<char>, status: CheckStatus) -> Seq<char> {
    if status == CheckStatus::Down {
        "check "@ + check + " failed"@
    } else {
        "check "@ + check + " recovered"@
    }
}

/// The OTLP/HTTP JSON logs document: one record, severity ERROR (17) for a
/// failure and INFO (9) for a recovery, with the check's name and status,
/// the labels and the info fields as attributes.
pub open spec fn otlp_doc(
    check: Seq<char>,
    status: CheckStatus,
    labels: Seq<(Seq<char>, Seq<char>)>,
    info: Seq<(Seq<char>, Seq<char>)>,
    time_unix_nanos: int,
    version: Seq<char>,
) -> Seq<char> {
    let (number, text) = if status == CheckStatus::Down {
        ("17"@, "ERROR"@)
    } else {
        ("9"@, "INFO"@)
    };
    let attributes = seq![otlp_attribute("check.name"@, check), otlp_attribute("check.status"@, status_text(status))]
        + otlp_attributes(labels) + otlp_attributes(info);
    let record = json_object(
        seq![
            member("timeUnixNano"@, json_string(signed_text(time_unix_nanos))),
            member("severityNumber"@, number),
            member("severityText"@, json_string(text)),
            member("body"@, json_object(seq![member("stringValue"@, json_string(otlp_body(check, status)))])),
            member("attributes"@, json_array(attributes)),
        ],
    );
    let scope_logs = json_object(
        seq![
            member(
                "scope"@,
                json_object(seq![member("name"@, json_string("vigild"@)), member("version"@, json_string(version))]),
            ),
            member("logRecords"@, json_array(seq![record])),
        ],
    );
    json_object(
        seq![
            member(
                "resourceLogs"@,
                json_array(
                    seq![
                        json_object(
                            seq![
                                member("resource"@, json_object(seq![member("attributes"@, json_array(seq![]))])),
                                member("scopeLogs"@, json_array(seq![scope_logs])),
                            ],
                        ),
                    ],
                ),
            ),
        ],
    )
}

fn strs2(a: String, b: String) -> (r: Vec<String>)
    ensures
        crate::text::strings_view(r@) == seq![a@, b@],
{
    let mut r: Vec<String> = Vec::new();
    r.push(a);
    r.push(b);
    proof {
        assert(crate::text::strings_view(r@) =~= seq![a@, b@]);
    }
    r
}

fn strs1(a: String) -> (r: Vec<String>)
    ensures
        crate::text::strings_view(r@) == seq![a@],
{
    let mut r: Vec<String> = Vec::new();
    r.push(a);
    proof {
        assert(crate::text::strings_view(r@) =~= seq![a@]);
    }
    r
}

fn string_member(key: &str, value: &str) -> (r: String)
    ensures
        r@ == member(key@, json_string(value@)),
{
    let v = json_string_text(value);
    member_text(key, v.as_str())
}

/// The generic webhook document of a state change.
pub fn webhook_payload(
    check: &str,
    status: CheckStatus,
    labels: &Vec<(String, String)>,
    info: &Vec<(String, String)>,
    now: &str,
) -> (r: String)
    ensures
        r@ == webhook_doc(check@, status, pairs_view(labels@), pairs_view(info@), now@),
        has_infix(r@, member("check"@, json_string(check@))),
        has_infix(r@, member("timestamp"@, json_string(now@))),
        status == CheckStatus::Down ==> has_infix(r@, member("status"@, json_string("down"@))),
        status == CheckStatus::Up ==> has_infix(r@, member("status"@, json_string("up"@))),
{
    proof {
        law_webhook_tells_status(check@, status, pairs_view(labels@), pairs_view(info@), now@);
    }
    let mut m: Vec<String> = Vec::new();
    m.push(string_member("check", check));
    m.push(string_member("status", status_str(status)));
    m.push(string_member("timestamp", now));
    let l = string_map_text(labels);
    m.push(member_text("labels", l.as_str()));
    let i = string_map_text(info);
    m.push(member_text("info", i.as_str()));
    proof {
        assert(crate::text::strings_view(m@) =~= seq![
            member("check"@, json_string(check@)),
            member("status"@, json_string(status_text(status))),
            member("timestamp"@, json_string(now@)),
            member("labels"@, string_map(pairs_view(labels@))),
            member("info"@, string_map(pairs_view(info@))),
        ]);
    }
    object_text(&m)
}

/// The Alertmanager document of a state change.
pub fn alertmanager_payload(
    check: &str,
    status: CheckStatus,
    labels: &Vec<(String, String)>,
    info: &Vec<(String, String)>,
    now: &str,
) -> (r: String)
    ensures
        r@ == alertmanager_doc(check@, status, pairs_view(labels@), pairs_view(info@), now@),
        status == CheckStatus::Down ==> has_infix(r@, member("startsAt"@, json_string(now@))) && has_infix(
            r@,
            member("endsAt"@, json_string("0001-01-01T00:00:00Z"@)),
        ),
        status == CheckStatus::Up ==> has_infix(r@, member("startsAt"@, json_string("0001-01-01T00:00:00Z"@)))
            && has_infix(r@, member("endsAt"@, json_string(now@))),
{
    proof {
        law_alertmanager_times(check@, status, pairs_view(labels@), pairs_view(info@), now@);
    }
    let (starts, ends): (&str, &str) = match status {
        CheckStatus::Down => (now, "0001-01-01T00:00:00Z"),
        CheckStatus::Up => ("0001-01-01T00:00:00Z", now),
    };
    let mut all_labels = crate::kv::copy_pairs(labels);
    insert_exec(&mut all_labels, string_of("alertname"), string_of(check));
    insert_exec(&mut all_labels, string_of("check"), string_of(check));
    let mut m: Vec<String> = Vec::new();
    let l = string_map_text(&all_labels);
    m.push(member_text("labels", l.as_str()));
    let a = string_map_text(info);
    m.push(member_text("annotations", a.as_str()));
    m.push(string_member("startsAt", starts));
    m.push(string_member("endsAt", ends));
    proof {
        assert(crate::text::strings_view(m@) =~= seq![
            member("labels"@, string_map(insert_pair(insert_pair(pairs_view(labels@), "alertname"@, check@), "check"@, check@))),
            member("annotations"@, string_map(pairs_view(info@))),
            member("startsAt"@, json_string(starts@)),
            member("endsAt"@, json_string(ends@)),
        ]);
    }
    let alert = object_text(&m);
    array_text(&strs1(alert))
}

/// The CloudEvents document of a state change.
pub fn cloudevents_payload(
    check: &str,
    status: CheckStatus,
    labels: &Vec<(String, String)>,
    info: &Vec<(String, String)>,
    now: &str,
    event_id: &str,
) -> (r: String)
    ensures
        r@ == cloudevents_doc(check@, status, pairs_view(labels@), pairs_view(info@), now@, event_id@),
        has_infix(r@, member("id"@, json_string(event_id@))),
        has_infix(r@, member("check"@, json_string(check@))),
        status == CheckStatus::Down ==> has_infix(r@, member("type"@, json_string("io.vigil.check.failed"@)))
            && has_infix(r@, member("status"@, json_string("down"@))),
        status == CheckStatus::Up ==> has_infix(r@, member("type"@, json_string("io.vigil.check.recovered"@)))
            && has_infix(r@, member("status"@, json_string("up"@))),
{
    proof {
        law_cloudevents_type_and_status(check@, status, pairs_view(labels@), pairs_view(info@), now@, event_id@);
    }
    let kind: &str = match status {
        CheckStatus::Down => "io.vigil.check.failed",
        CheckStatus::Up => "io.vigil.check.recovered",
    };
    let mut d: Vec<String> = Vec::new();
    d.push(string_member("check", check));
    d.push(string_member("status", status_str(status)));
    let l = string_map_text(labels);
    d.push(member_text("labels", l.as_str()));
    let i = string_map_text(info);
    d.push(member_text("info", i.as_str()));
    proof {
        assert(crate::text::strings_view(d@) =~= seq![
            member("check"@, json_string(check@)),
            member("status"@, json_string(status_text(status))),
            member("labels"@, string_map(pairs_view(labels@))),
            member("info"@, string_map(pairs_view(info@))),
        ]);
    }
    let data = object_text(&d);
    let mut m: Vec<String> = Vec::new();
    m.push(string_member("specversion", "1.0"));
    m.push(string_member("id", event_id));
    m.push(string_member("source", "vigild"));
    m.push(string_member("type", kind));
    m.push(string_member("time", now));
    m.push(string_member("datacontenttype", "application/json"));
    m.push(member_text("data", data.as_str()));
    proof {
        assert(crate::text::strings_view(m@) =~= seq![
            member("specversion"@, json_string("1.0"@)),
            member("id"@, json_string(event_id@)),
            member("source"@, json_string("vigild"@)),
            member("type"@, json_string(event_type(status))),
            member("time"@, json_string(now@)),
            member("datacontenttype"@, json_string("application/json"@)),
            member("data"@, data@),
        ]);
    }
    object_text(&m)
}

fn otlp_attribute_text(key: &str, value: &str) -> (r: String)
    ensures
        r@ == otlp_attribute(key@, value@),
{
    let inner = object_text(&strs1(string_member("stringValue", value)));
    let m = strs2(string_member("key", key), member_text("value", inner.as_str()));
    object_text(&m)
}

fn push_attributes(out: &mut Vec<String>, t: &Vec<(String, String)>)
    ensures
        crate::text::strings_view(final(out)@) == crate::text::strings_view(old(out)@) + otlp_attributes(
            pairs_view(t@),
        ),
{
    let ghost start = crate::text::strings_view(out@);
    let mut i: usize = 0;
    while i < t.len()
        invariant
            i <= t.len(),
            crate::text::strings_view(out@) == start + otlp_attributes(pairs_view(t@).take(i as int)),
        decreases t.len() - i,
    {
        let a = otlp_attribute_text(t[i].0.as_str(), t[i].1.as_str());
        let ghost before = out@;
        out.push(a);
        proof {
            assert(crate::text::strings_view(out@) =~= crate::text::strings_view(before).push(a@));
            assert(pairs_view(t@).take(i + 1) =~= pairs_view(t@).take(i as int).push(pairs_view(t@)[i as int]));
            assert(otlp_attributes(pairs_view(t@).take(i + 1)) =~= otlp_attributes(pairs_view(t@).take(i as int)).push(
                otlp_attribute(t@[i as int].0@, t@[i as int].1@),
            ));
        }
        i = i + 1;
    }
    proof {
        assert(pairs_view(t@).take(t.len() as int) =~= pairs_view(t@));
    }
}

fn signed_decimal(n: i64) -> (r: String)
    ensures
        r@ == signed_text(n as int),
{
    if n < 0 {
        let magnitude: u64 = if n == i64::MIN {
            9223372036854775808u64
        } else {
            (-n) as u64
        };
        let digits = decimal(magnitude);
        proof {
            reveal_strlit("-");
        }
        concat("-", digits.as_str())
    } else {
        decimal(n as u64)
    }
}

/// The OTLP/HTTP JSON logs document of a state change.
pub fn otlp_payload(
    check: &str,
    status: CheckStatus,
    labels: &Vec<(String, String)>,
    info: &Vec<(String, String)>,
    time_unix_nanos: i64,
    version: &str,
) -> (r: String)
    ensures
        r@ == otlp_doc(check@, status, pairs_view(labels@), pairs_view(info@), time_unix_nanos as int, version@),
        status == CheckStatus::Down ==> has_infix(r@, member("stringValue"@, json_string("check "@ + check@ + " failed"@))),
        status == CheckStatus::Up ==> has_infix(r@, member("stringValue"@, json_string("check "@ + check@ + " recovered"@))),
        status == CheckStatus::Down ==> has_infix(r@, member("severityNumber"@, "17"@)) && has_infix(
            r@,
            member("severityText"@, json_string("ERROR"@)),
        ),
        status == CheckStatus::Up ==> has_infix(r@, member("severityNumber"@, "9"@)) && has_infix(
            r@,
            member("severityText"@, json_string("INFO"@)),
        ),
{
    proof {
        law_otlp_body_and_severity(
            check@,
            status,
            pairs_view(labels@),
            pairs_view(info@),
            time_unix_nanos as int,
            version@,
        );
    }
    let (number, text, tail): (&str, &str, &str) = match status {
        CheckStatus::Down => ("17", "ERROR", " failed"),
        CheckStatus::Up => ("9", "INFO", " recovered"),
    };
    let mut attributes: Vec<String> = Vec::new();
    attributes.push(otlp_attribute_text("check.name", check));
    attributes.push(otlp_attribute_text("check.status", status_str(status)));
    proof {
        assert(crate::text::strings_view(attributes@) =~= seq![
            otlp_attribute("check.name"@, check@),
            otlp_attribute("check.status"@, status_text(status)),
        ]);
    }
    push_attributes(&mut attributes, labels);
    push_attributes(&mut attributes, info);
    let head = concat("check ", check);
    let body = concat(head.as_str(), tail);
    let body_obj = object_text(&strs1(string_member("stringValue", body.as_str())));
    let ts = signed_decimal(time_unix_nanos);
    let attrs = array_text(&attributes);
    let mut r: Vec<String> = Vec::new();
    r.push(string_member("timeUnixNano", ts.as_str()));
    r.push(member_text("severityNumber", number));
    r.push(string_member("severityText", text));
    r.push(member_text("body", body_obj.as_str()));
    r.push(member_text("attributes", attrs.as_str()));
    proof {
        assert(crate::text::strings_view(r@) =~= seq![
            member("timeUnixNano"@, json_string(signed_text(time_unix_nanos as int))),
            member("severityNumber"@, number@),
            member("severityText"@, json_string(text@)),
            member("body"@, json_object(seq![member("stringValue"@, json_string(otlp_body(check@, status)))])),
            member("attributes"@, attrs@),
        ]);
    }
    let record = object_text(&r);
    let scope = object_text(&strs2(string_member("name", "vigild"), string_member("version", version)));
    let scope_logs = object_text(&strs2(member_text("scope", scope.as_str()), member_text(
        "logRecords",
        array_text(&strs1(record)).as_str(),
    )));
    let empty: Vec<String> = Vec::new();
    proof {
        assert(crate::text::strings_view(empty@) =~= Seq::<Seq<char>>::empty());
    }
    let resource = object_text(&strs1(member_text("attributes", array_text(&empty).as_str())));
    let resource_log = object_text(&strs2(member_text("resource", resource.as_str()), member_text(
        "scopeLogs",
        array_text(&strs1(scope_logs)).as_str(),
    )));
    object_text(&strs1(member_text("resourceLogs", array_text(&strs1(resource_log)).as_str())))
}

// ---------------------------------------------------------------------------
// Body templates
// ---------------------------------------------------------------------------

/// What minijinja renders `template` to with the variables `check`, `status`,
/// `timestamp`, `labels` and `info`; `None` when it cannot be parsed or
/// rendered. The template language is minijinja's.
pub uninterp spec fn template_output(
    template: Seq<char>,
    check: Seq<char>,
    status: Seq<char>,
    timestamp: Seq<char>,
    labels: Seq<(Seq<char>, Seq<char>)>,
    info: Seq<(Seq<char>, Seq<char>)>,
) -> Option<Seq<char>>;

/// `minijinja::Environment::render_str` of `template` with the variables
/// `check`, `status`, `timestamp` (strings) and `labels`, `info` (maps); the
/// result is named after all of them.
#[verifier::external_body]
fn render_template(
    template: &str,
    check: &str,
    status: &str,
    timestamp: &str,
    labels: &Vec<(String, String)>,
    info: &Vec<(String, String)>,
) -> (r: Option<String>)
    ensures
        r matches Some(t) ==> template_output(template@, check@, status@, timestamp@, pairs_view(labels@), pairs_view(info@)) == Some(t@),
        r is None ==> template_output(template@, check@, status@, timestamp@, pairs_view(labels@), pairs_view(info@)) is None,
{
    let l: minijinja::Value = labels.iter().map(|p| (p.0.as_str(), p.1.as_str())).collect();
    let i: minijinja::Value = info.iter().map(|p| (p.0.as_str(), p.1.as_str())).collect();
    let ctx: minijinja::Value = vec![
        ("check", minijinja::Value::from(check)),
        ("status", minijinja::Value::from(status)),
        ("timestamp", minijinja::Value::from(timestamp)),
        ("labels", l),
        ("info", i),
    ].into_iter().collect();
    minijinja::Environment::new().render_str(template, ctx).ok()
}

/// What serde_json writes back after reading `text` as one JSON value, or
/// `None` when `text` is not JSON.
pub uninterp spec fn json_normalized(text: Seq<char>) -> Option<Seq<char>>;

/// `serde_json::from_str::<serde_json::Value>` of `text`, then `to_string` of
/// the value read; `None` when `text` does not read. Named after the text.
#[verifier::external_body]
fn normalize_json(text: &str) -> (r: Option<String>)
    ensures
        r matches Some(t) ==> json_normalized(text@) == Some(t@),
        r is None ==> json_normalized(text@) is None,
{
    serde_json::from_str::<serde_json::Value>(text).ok().map(|v| v.to_string())
}

/// The body of a webhook alert with a body template, given the template's
/// output as serde_json writes it back (`None` when the template could not be
/// rendered or its output is not JSON): that output, or else the generic
/// document.
pub fn webhook_body(
    rendered_json: Option<String>,
    check: &str,
    status: CheckStatus,
    labels: &Vec<(String, String)>,
    info: &Vec<(String, String)>,
    now: &str,
) -> (r: String)
    ensures
        r@ == (match rendered_json {
            Some(out) => out@,
            None => webhook_doc(check@, status, pairs_view(labels@), pairs_view(info@), now@),
        }),
{
    match rendered_json {
        Some(out) => out,
        None => webhook_payload(check, status, labels, info, now),
    }
}

/// The payload of an alert: the document of its format, built from the
/// check's name and status and the alert's labels and info fields with their
/// `env:` references resolved in `env`. A webhook alert with a body template
/// sends what the template renders to, as serde_json writes it back, when that
/// is JSON, and the generic document otherwise.
pub open spec fn payload_doc(
    check: Seq<char>,
    status: CheckStatus,
    cfg: AlertConfig,
    env: Seq<(Seq<char>, Seq<char>)>,
    now: Seq<char>,
    event_id: Seq<char>,
    time_unix_nanos: int,
    version: Seq<char>,
) -> Seq<char> {
    let labels = resolved_pairs(pairs_view(cfg.labels@), env);
    let info = resolved_pairs(pairs_view(cfg.send_info_fields@), env);
    let generic = webhook_doc(check, status, labels, info, now);
    match cfg.format {
        AlertFormat::Webhook => match cfg.body_template {
            Some(t) => match template_output(t@, check, status_text(status), now, labels, info) {
                Some(out) => match json_normalized(out) {
                    Some(j) => j,
                    None => generic,
                },
                None => generic,
            },
            None => generic,
        },
        AlertFormat::Alertmanager => alertmanager_doc(check, status, labels, info, now),
        AlertFormat::CloudEvents => cloudevents_doc(check, status, labels, info, now, event_id),
        AlertFormat::OtlpLogs => otlp_doc(check, status, labels, info, time_unix_nanos, version),
    }
}

/// The JSON payload of an alert for a state change of `check`. `now` is the
/// current time in RFC 3339, `event_id` a fresh id for CloudEvents,
/// `time_unix_nanos` the current time for OTLP and `version` the daemon's.
pub fn format_payload(
    check: &str,
    status: CheckStatus,
    cfg: &AlertConfig,
    env: &Vec<(String, String)>,
    now: &str,
    event_id: &str,
    time_unix_nanos: i64,
    version: &str,
) -> (r: String)
    ensures
        r@ == payload_doc(check@, status, *cfg, pairs_view(env@), now@, event_id@, time_unix_nanos as int, version@),
{
    let labels = resolved_map(&cfg.labels, env);
    let info = resolved_map(&cfg.send_info_fields, env);
    match cfg.format {
        AlertFormat::Webhook => match &cfg.body_template {
            Some(t) => {
                let rendered = render_template(t.as_str(), check, status_str(status), now, &labels, &info);
                let normalized = match &rendered {
                    Some(out) => normalize_json(out.as_str()),
                    None => None,
                };
                webhook_body(normalized, check, status, &labels, &info, now)
            },
            None => webhook_payload(check, status, &labels, &info, now),
        },
        AlertFormat::Alertmanager => alertmanager_payload(check, status, &labels, &info, now),
        AlertFormat::CloudEvents => cloudevents_payload(check, status, &labels, &info, now, event_id),
        AlertFormat::OtlpLogs => otlp_payload(check, status, &labels, &info, time_unix_nanos, version),
    }
}

} // verus!

verus! {

proof fn lemma_comma_list_infix(items: Seq<Seq<char>>, i: int)
    requires
        0 <= i < items.len(),
    ensures
        has_infix(comma_list(items), items[i]),
    decreases items.len(),
{
    let all = comma_list(items);
    if items.len() == 1 {
        assert(all =~= Seq::<char>::empty() + items[0] + Seq::<char>::empty());
    } else if i == items.len() - 1 {
        assert(all =~= (comma_list(items.drop_last()) + seq![',']) + items[i] + Seq::<char>::empty());
    } else {
        let pre = items.drop_last();
        assert(pre[i] == items[i]);
        lemma_comma_list_infix(pre, i);
        assert(all =~= Seq::<char>::empty() + comma_list(pre) + (seq![','] + items.last()));
        lemma_infix_trans(all, comma_list(pre), items[i]);
    }
}

proof fn lemma_object_infix(ms: Seq<Seq<char>>, i: int)
    requires
        0 <= i < ms.len(),
    ensures
        has_infix(json_object(ms), ms[i]),
{
    lemma_comma_list_infix(ms, i);
    assert(json_object(ms) =~= seq!['{'] + comma_list(ms) + seq!['}']);
    lemma_infix_trans(json_object(ms), comma_list(ms), ms[i]);
}

proof fn lemma_array_infix(ms: Seq<Seq<char>>, i: int)
    requires
        0 <= i < ms.len(),
    ensures
        has_infix(json_array(ms), ms[i]),
{
    lemma_comma_list_infix(ms, i);
    assert(json_array(ms) =~= seq!['['] + comma_list(ms) + seq![']']);
    lemma_infix_trans(json_array(ms), comma_list(ms), ms[i]);
}

proof fn lemma_member_infix(k: Seq<char>, v: Seq<char>)
    ensures
        has_infix(member(k, v), v),
{
    assert(member(k, v) =~= (json_string(k) + seq![':']) + v + Seq::<char>::empty());
}

proof fn lemma_self_infix(t: Seq<char>)
    ensures
        has_infix(t, t),
{
    assert(t =~= Seq::<char>::empty() + t + Seq::<char>::empty());
}

/// The OTLP document of a failure carries the log body `check <name>
/// failed` with severity 17 (`ERROR`); that of a recovery carries `check
/// <name> recovered` with severity 9 (`INFO`).
pub proof fn law_otlp_body_and_severity(
    check: Seq<char>,
    status: CheckStatus,
    labels: Seq<(Seq<char>, Seq<char>)>,
    info: Seq<(Seq<char>, Seq<char>)>,
    time_unix_nanos: int,
    version: Seq<char>,
)
    ensures
        ({
            let d = otlp_doc(check, status, labels, info, time_unix_nanos, version);
            &&& status == CheckStatus::Down ==> has_infix(d, member("stringValue"@, json_string("check "@ + check + " failed"@)))
            &&& status == CheckStatus::Up ==> has_infix(d, member("stringValue"@, json_string("check "@ + check + " recovered"@)))
            &&& status == CheckStatus::Down ==> has_infix(d, member("severityNumber"@, "17"@)) && has_infix(
                d,
                member("severityText"@, json_string("ERROR"@)),
            )
            &&& status == CheckStatus::Up ==> has_infix(d, member("severityNumber"@, "9"@)) && has_infix(
                d,
                member("severityText"@, json_string("INFO"@)),
            )
        }),
{
    let d = otlp_doc(check, status, labels, info, time_unix_nanos, version);
    let (number, text) = if status == CheckStatus::Down {
        ("17"@, "ERROR"@)
    } else {
        ("9"@, "INFO"@)
    };
    let attributes = seq![otlp_attribute("check.name"@, check), otlp_attribute("check.status"@, status_text(status))]
        + otlp_attributes(labels) + otlp_attributes(info);
    let body = member("stringValue"@, json_string(otlp_body(check, status)));
    let fields = seq![
        member("timeUnixNano"@, json_string(signed_text(time_unix_nanos))),
        member("severityNumber"@, number),
        member("severityText"@, json_string(text)),
        member("body"@, json_object(seq![body])),
        member("attributes"@, json_array(attributes)),
    ];
    let record = json_object(fields);
    let scope = json_object(
        seq![
            member(
                "scope"@,
                json_object(seq![member("name"@, json_string("vigild"@)), member("version"@, json_string(version))]),
            ),
            member("logRecords"@, json_array(seq![record])),
        ],
    );
    let rl = json_object(
        seq![
            member("resource"@, json_object(seq![member("attributes"@, json_array(seq![]))])),
            member("scopeLogs"@, json_array(seq![scope])),
        ],
    );
    let top_member = member("resourceLogs"@, json_array(seq![rl]));
    assert(d == json_object(seq![top_member]));
    // d contains the record
    lemma_object_infix(seq![top_member], 0);
    lemma_member_infix("resourceLogs"@, json_array(seq![rl]));
    lemma_array_infix(seq![rl], 0);
    let rl_ms = seq![
        member("resource"@, json_object(seq![member("attributes"@, json_array(seq![]))])),
        member("scopeLogs"@, json_array(seq![scope])),
    ];
    lemma_object_infix(rl_ms, 1);
    lemma_member_infix("scopeLogs"@, json_array(seq![scope]));
    lemma_array_infix(seq![scope], 0);
    let sc_ms = seq![
        member(
            "scope"@,
            json_object(seq![member("name"@, json_string("vigild"@)), member("version"@, json_string(version))]),
        ),
        member("logRecords"@, json_array(seq![record])),
    ];
    lemma_object_infix(sc_ms, 1);
    lemma_member_infix("logRecords"@, json_array(seq![record]));
    lemma_array_infix(seq![record], 0);
    lemma_infix_trans(d, top_member, json_array(seq![rl]));
    lemma_infix_trans(d, json_array(seq![rl]), rl);
    lemma_infix_trans(d, rl, rl_ms[1]);
    lemma_infix_trans(d, rl_ms[1], json_array(seq![scope]));
    lemma_infix_trans(d, json_array(seq![scope]), scope);
    lemma_infix_trans(d, scope, sc_ms[1]);
    lemma_infix_trans(d, sc_ms[1], json_array(seq![record]));
    lemma_infix_trans(d, json_array(seq![record]), record);
    // the record's fields
    lemma_object_infix(fields, 1);
    lemma_object_infix(fields, 2);
    lemma_object_infix(fields, 3);
    lemma_infix_trans(d, record, fields[1]);
    lemma_infix_trans(d, record, fields[2]);
    lemma_infix_trans(d, record, fields[3]);
    lemma_member_infix("body"@, json_object(seq![body]));
    lemma_object_infix(seq![body], 0);
    lemma_infix_trans(d, fields[3], json_object(seq![body]));
    lemma_infix_trans(d, json_object(seq![body]), body);
}

/// The generic webhook document names the check and says `"down"` for a
/// failure and `"up"` for a recovery.
pub proof fn law_webhook_tells_status(
    check: Seq<char>,
    status: CheckStatus,
    labels: Seq<(Seq<char>, Seq<char>)>,
    info: Seq<(Seq<char>, Seq<char>)>,
    now: Seq<char>,
)
    ensures
        ({
            let d = webhook_doc(check, status, labels, info, now);
            &&& has_infix(d, member("check"@, json_string(check)))
            &&& has_infix(d, member("timestamp"@, json_string(now)))
            &&& status == CheckStatus::Down ==> has_infix(d, member("status"@, json_string("down"@)))
            &&& status == CheckStatus::Up ==> has_infix(d, member("status"@, json_string("up"@)))
        }),
{
    let ms = seq![
        member("check"@, json_string(check)),
        member("status"@, json_string(status_text(status))),
        member("timestamp"@, json_string(now)),
        member("labels"@, string_map(labels)),
        member("info"@, string_map(info)),
    ];
    lemma_object_infix(ms, 0);
    lemma_object_infix(ms, 1);
    lemma_object_infix(ms, 2);
}

/// The Alertmanager alert of a failure starts now and has not ended; that of
/// a recovery ends now and carries no start.
pub proof fn law_alertmanager_times(
    check: Seq<char>,
    status: CheckStatus,
    labels: Seq<(Seq<char>, Seq<char>)>,
    info: Seq<(Seq<char>, Seq<char>)>,
    now: Seq<char>,
)
    ensures
        ({
            let d = alertmanager_doc(check, status, labels, info, now);
            let zero = "0001-01-01T00:00:00Z"@;
            &&& status == CheckStatus::Down ==> has_infix(d, member("startsAt"@, json_string(now))) && has_infix(
                d,
                member("endsAt"@, json_string(zero)),
            )
            &&& status == CheckStatus::Up ==> has_infix(d, member("startsAt"@, json_string(zero))) && has_infix(
                d,
                member("endsAt"@, json_string(now)),
            )
        }),
{
    let d = alertmanager_doc(check, status, labels, info, now);
    let (starts, ends) = if status == CheckStatus::Down {
        (now, zero_time())
    } else {
        (zero_time(), now)
    };
    let all_labels = insert_pair(insert_pair(labels, "alertname"@, check), "check"@, check);
    let ms = seq![
        member("labels"@, string_map(all_labels)),
        member("annotations"@, string_map(info)),
        member("startsAt"@, json_string(starts)),
        member("endsAt"@, json_string(ends)),
    ];
    let alert = json_object(ms);
    assert(d == json_array(seq![alert]));
    lemma_array_infix(seq![alert], 0);
    lemma_object_infix(ms, 2);
    lemma_object_infix(ms, 3);
    lemma_infix_trans(d, alert, ms[2]);
    lemma_infix_trans(d, alert, ms[3]);
}

/// The CloudEvents document of a failure has type `io.vigil.check.failed`
/// and status `"down"`; that of a recovery has type
/// `io.vigil.check.recovered` and status `"up"`. Both carry the event id and
/// the check's name.
pub proof fn law_cloudevents_type_and_status(
    check: Seq<char>,
    status: CheckStatus,
    labels: Seq<(Seq<char>, Seq<char>)>,
    info: Seq<(Seq<char>, Seq<char>)>,
    now: Seq<char>,
    event_id: Seq<char>,
)
    ensures
        ({
            let d = cloudevents_doc(check, status, labels, info, now, event_id);
            &&& has_infix(d, member("id"@, json_string(event_id)))
            &&& has_infix(d, member("check"@, json_string(check)))
            &&& status == CheckStatus::Down ==> has_infix(d, member("type"@, json_string("io.vigil.check.failed"@)))
                && has_infix(d, member("status"@, json_string("down"@)))
            &&& status == CheckStatus::Up ==> has_infix(d, member("type"@, json_string("io.vigil.check.recovered"@)))
                && has_infix(d, member("status"@, json_string("up"@)))
        }),
{
    let d = cloudevents_doc(check, status, labels, info, now, event_id);
    let ds = seq![
        member("check"@, json_string(check)),
        member("status"@, json_string(status_text(status))),
        member("labels"@, string_map(labels)),
        member("info"@, string_map(info)),
    ];
    let data = json_object(ds);
    let ms = seq![
        member("specversion"@, json_string("1.0"@)),
        member("id"@, json_string(event_id)),
        member("source"@, json_string("vigild"@)),
        member("type"@, json_string(event_type(status))),
        member("time"@, json_string(now)),
        member("datacontenttype"@, json_string("application/json"@)),
        member("data"@, data),
    ];
    assert(d == json_object(ms));
    lemma_object_infix(ms, 1);
    lemma_object_infix(ms, 3);
    lemma_object_infix(ms, 6);
    lemma_member_infix("data"@, data);
    lemma_infix_trans(d, ms[6], data);
    lemma_object_infix(ds, 0);
    lemma_object_infix(ds, 1);
    lemma_infix_trans(d, data, ds[0]);
    lemma_infix_trans(d, data, ds[1]);
}

proof fn lemma_escape_char_shape(c: char)
    ensures
        forall|i: int| 0 <= i < escape_char(c).len() ==> (#[trigger] escape_char(c)[i]) as u32 >= 32,
        forall|i: int| 0 <= i < escape_char(c).len() && #[trigger] escape_char(c)[i] == '"' ==> i > 0 && escape_char(c)[i - 1] == '\\',
        escape_char(c).len() > 0,
        (c != '"' && c != '\\' && c as u32 >= 32) ==> escape_char(c) == seq![c],
{
    let e = escape_char(c);
    if (c as u32) < 32 && c != '\n' && c != '\r' && c != '\t' && c != 8 as char && c != 12 as char {
        let hi = ((c as u32) / 16) as int;
        let lo = ((c as u32) % 16) as int;
        assert(0 <= hi < 2);
        assert(0 <= lo < 16);
        assert(hex_digit(hi) as u32 >= 48);
        assert(hex_digit(lo) as u32 >= 48);
        assert(hex_digit(hi) != '"');
        assert(hex_digit(lo) != '"');
    }
}

/// JSON string escaping leaves no control character in the text, puts a
/// backslash before every quote it writes, and leaves text without quotes,
/// backslashes and control characters as it is.
pub proof fn law_escaping(s: Seq<char>)
    ensures
        forall|i: int| 0 <= i < escaped(s).len() ==> (#[trigger] escaped(s)[i]) as u32 >= 32,
        forall|i: int| 0 <= i < escaped(s).len() && #[trigger] escaped(s)[i] == '"' ==> i > 0 && escaped(s)[i - 1] == '\\',
        (forall|i: int| 0 <= i < s.len() ==> (#[trigger] s[i]) != '"' && s[i] != '\\' && s[i] as u32 >= 32) ==> escaped(s)
            == s,
    decreases s.len(),
{
    if s.len() > 0 {
        let pre = s.drop_last();
        law_escaping(pre);
        lemma_escape_char_shape(s.last());
        let a = escaped(pre);
        let b = escape_char(s.last());
        let r = escaped(s);
        assert(r == a + b);
        assert forall|i: int| 0 <= i < r.len() implies (#[trigger] r[i]) as u32 >= 32 by {
            if i < a.len() {
                assert(r[i] == a[i]);
            } else {
                assert(r[i] == b[i - a.len()]);
            }
        }
        assert forall|i: int| 0 <= i < r.len() && #[trigger] r[i] == '"' implies i > 0 && r[i - 1] == '\\' by {
            if i < a.len() {
                assert(r[i] == a[i]);
                assert(r[i - 1] == a[i - 1]);
            } else {
                assert(r[i] == b[i - a.len()]);
                assert(i - a.len() > 0);
                assert(r[i - 1] == b[i - 1 - a.len()]);
            }
        }
        if forall|i: int| 0 <= i < s.len() ==> (#[trigger] s[i]) != '"' && s[i] != '\\' && s[i] as u32 >= 32 {
            assert forall|i: int| 0 <= i < pre.len() implies (#[trigger] pre[i]) != '"' && pre[i] != '\\' && pre[i] as u32
                >= 32 by {
                assert(pre[i] == s[i]);
            }
            assert(s[s.len() - 1] == s.last());
            assert(r =~= s);
        }
    }
}

} // verus!
