//! Human-readable durations such as `500ms`, `5s`, `1m30s` or `2h5m`.
use std::time::Duration;

use vstd::prelude::*;

use crate::text::{
    concat, debug_quoted, debug_string, str_chars, string_from_chars, string_of, sub_chars,
};

verus! {

/// The value of a `Duration` made by `Duration::from_millis(ms)`.
pub uninterp spec fn millis_duration(ms: u64) -> Duration;

/// `Duration::from_millis`: the contract names the result after its argument.
#[verifier::external_body]
pub fn duration_from_millis(ms: u64) -> (d: Duration)
    ensures
        d == millis_duration(ms),
        whole_secs(d) == ms / 1000,
{
    Duration::from_millis(ms)
}

/// The whole seconds of a `Duration`, as `Duration::as_secs` gives them.
pub uninterp spec fn whole_secs(d: Duration) -> u64;

/// The value of `Duration::from_secs(secs)`.
pub uninterp spec fn secs_duration(secs: u64) -> Duration;

/// `Duration::as_secs`: the contract names the result after the duration.
#[verifier::external_body]
pub fn duration_as_secs(d: Duration) -> (r: u64)
    ensures
        r == whole_secs(d),
{
    d.as_secs()
}

/// `Duration::from_secs`: the contract names the result after its argument.
/// It is the same duration as `Duration::from_millis` of as many thousand
/// milliseconds, when that count fits in a `u64`.
#[verifier::external_body]
pub fn duration_from_secs(secs: u64) -> (d: Duration)
    ensures
        d == secs_duration(secs),
        whole_secs(d) == secs,
        secs * 1000 <= u64::MAX ==> d == millis_duration((secs * 1000) as u64),
{
    Duration::from_secs(secs)
}

/// Whether `c` is one of `0`..`9`.
pub open spec fn is_digit(c: char) -> bool {
    '0' <= c <= '9'
}

/// The value of the decimal digits `d`.
pub open spec fn decimal_value(d: Seq<char>) -> int
    decreases d.len(),
{
    if d.len() == 0 {
        0
    } else {
        decimal_value(d.drop_last()) * 10 + (d.last() as int - '0' as int)
    }
}

/// The end of the run of digits that starts at `i`.
pub open spec fn digits_end(s: Seq<char>, i: int) -> int
    decreases s.len() - i,
{
    if 0 <= i < s.len() && is_digit(s[i]) {
        digits_end(s, i + 1)
    } else {
        i
    }
}

/// Why a duration string was refused.
pub enum DurationFault {
    Empty,
    /// No digit where a number was expected; holds the unread rest.
    ExpectedDigit(Seq<char>),
    NumberOverflow,
    UnknownSuffix,
    Overflow,
}

/// The multiplier (in milliseconds) and length of the unit suffix at `i`,
/// or `None` when no known suffix stands there.
pub open spec fn suffix_at(s: Seq<char>, i: int) -> Option<(int, int)> {
    if 0 <= i && i + 1 < s.len() && s[i] == 'm' && s[i + 1] == 's' {
        Some((1, 2))
    } else if 0 <= i < s.len() && s[i] == 's' {
        Some((1000, 1))
    } else if 0 <= i < s.len() && s[i] == 'm' {
        Some((60000, 1))
    } else if 0 <= i < s.len() && s[i] == 'h' {
        Some((3600000, 1))
    } else {
        None
    }
}

/// Reading `s` from position `i`, with `total` milliseconds read so far.
pub open spec fn duration_from(s: Seq<char>, i: int, total: int) -> Result<int, DurationFault>
    decreases s.len() - i,
{
    if i < 0 || i >= s.len() {
        Ok(total)
    } else {
        let e = digits_end(s, i);
        if e <= i {
            Err(DurationFault::ExpectedDigit(s.subrange(i, s.len() as int)))
        } else {
            let num = decimal_value(s.subrange(i, e));
            if num > u64::MAX {
                Err(DurationFault::NumberOverflow)
            } else {
                match suffix_at(s, e) {
                    None => Err(DurationFault::UnknownSuffix),
                    Some((mult, len)) => if num * mult > u64::MAX || total + num * mult
                        > u64::MAX {
                        Err(DurationFault::Overflow)
                    } else if len <= 0 {
                        Ok(total)
                    } else {
                        duration_from(s, e + len, total + num * mult)
                    },
                }
            }
        }
    }
}

/// The number of milliseconds that `s` denotes, or why it is refused.
pub open spec fn duration_spec(s: Seq<char>) -> Result<int, DurationFault> {
    if s.len() == 0 {
        Err(DurationFault::Empty)
    } else {
        duration_from(s, 0, 0)
    }
}

/// The error message for a refused `s`.
pub open spec fn duration_message(f: DurationFault, s: Seq<char>) -> Seq<char> {
    match f {
        DurationFault::Empty => "empty duration string"@,
        DurationFault::ExpectedDigit(rest) => "expected digit in duration: "@ + debug_quoted(rest),
        DurationFault::NumberOverflow => "number overflow in duration: "@ + debug_quoted(s),
        DurationFault::UnknownSuffix => "unknown duration suffix in "@ + debug_quoted(s),
        DurationFault::Overflow => "overflow: "@ + debug_quoted(s),
    }
}

proof fn lemma_digits_end_bounds(s: Seq<char>, i: int)
    requires
        0 <= i <= s.len(),
    ensures
        i <= digits_end(s, i) <= s.len(),
        forall|k: int| i <= k < digits_end(s, i) ==> is_digit(#[trigger] s[k]),
        digits_end(s, i) < s.len() ==> !is_digit(s[digits_end(s, i)]),
    decreases s.len() - i,
{
    if i < s.len() && is_digit(s[i]) {
        lemma_digits_end_bounds(s, i + 1);
    }
}

proof fn lemma_decimal_value_nonneg(d: Seq<char>)
    requires
        forall|k: int| 0 <= k < d.len() ==> is_digit(#[trigger] d[k]),
    ensures
        decimal_value(d) >= 0,
    decreases d.len(),
{
    if d.len() > 0 {
        lemma_decimal_value_nonneg(d.drop_last());
    }
}

/// Read the run of digits of `s` starting at `i`: its end, and its value
/// when that value fits in a `u64`.
fn read_number(s: &Vec<char>, i: usize) -> (r: (usize, Option<u64>))
    requires
        i <= s.len(),
    ensures
        r.0 == digits_end(s@, i as int),
        r.1 matches Some(n) ==> n == decimal_value(s@.subrange(i as int, r.0 as int)),
        r.1 is None ==> decimal_value(s@.subrange(i as int, r.0 as int)) > u64::MAX,
{
    proof {
        lemma_digits_end_bounds(s@, i as int);
    }
    let mut j = i;
    let mut value: Option<u64> = Some(0);
    while j < s.len() && '0' <= s[j] && s[j] <= '9'
        invariant
            i <= j <= digits_end(s@, i as int) <= s.len(),
            forall|k: int| i <= k < digits_end(s@, i as int) ==> is_digit(#[trigger] s@[k]),
            digits_end(s@, i as int) < s.len() ==> !is_digit(s@[digits_end(s@, i as int)]),
            value matches Some(n) ==> n == decimal_value(s@.subrange(i as int, j as int)),
            value is None ==> decimal_value(s@.subrange(i as int, j as int)) > u64::MAX,
        decreases s.len() - j,
    {
        let d = (s[j] as u32 - '0' as u32) as u64;
        let ghost prev = s@.subrange(i as int, j as int);
        let ghost next = s@.subrange(i as int, j + 1);
        proof {
            assert(next.drop_last() =~= prev);
            assert(next.last() == s@[j as int]);
            assert forall|k: int| 0 <= k < prev.len() implies is_digit(#[trigger] prev[k]) by {
                assert(prev[k] == s@[i + k]);
            }
            lemma_decimal_value_nonneg(prev);
        }
        value = match value {
            Some(n) => if n > (u64::MAX - d) / 10 {
                None
            } else {
                Some(n * 10 + d)
            },
            None => None,
        };
        j = j + 1;
    }
    proof {
        if j < digits_end(s@, i as int) {
            assert(is_digit(s@[j as int]));
        }
    }
    (j, value)
}

/// Parse a human-readable duration string.
///
/// Supported suffixes: ms, s, m, h.
/// Examples: "500ms", "5s", "1m", "2h", "1m30s".
/// Multiple components can be chained: "1m30s", "2h5m".
pub fn parse_duration(s: &str) -> (r: Result<Duration, String>)
    ensures
        duration_spec(s@) matches Ok(ms) ==> r == Ok::<Duration, String>(millis_duration(ms as u64)),
        duration_spec(s@) matches Err(f) ==> r matches Err(m) && m@ == duration_message(f, s@),
{
    match parse_duration_millis(s) {
        Ok(ms) => Ok(duration_from_millis(ms)),
        Err(m) => Err(m),
    }
}

/// Parse a human-readable duration string into milliseconds.
pub fn parse_duration_millis(s: &str) -> (r: Result<u64, String>)
    ensures
        duration_spec(s@) matches Ok(ms) ==> r == Ok::<u64, String>(ms as u64),
        duration_spec(s@) matches Err(f) ==> r matches Err(m) && m@ == duration_message(f, s@),
        r is Ok <==> duration_spec(s@) is Ok,
        r matches Ok(v) ==> duration_spec(s@) == Ok::<int, DurationFault>(v as int),
{
    let cs = str_chars(s);
    if cs.len() == 0 {
        return Err(string_of("empty duration string"));
    }
    let mut total: u64 = 0;
    let mut i: usize = 0;
    while i < cs.len()
        invariant
            i <= cs.len(),
            cs@ == s@,
            cs@.len() > 0,
            duration_spec(s@) == duration_from(cs@, i as int, total as int),
        decreases cs.len() - i,
    {
        let (e, num) = read_number(&cs, i);
        proof {
            lemma_digits_end_bounds(cs@, i as int);
        }
        if e == i {
            let rest = sub_chars(&cs, i, cs.len());
            let q = debug_string(string_from_chars(&rest).as_str());
            return Err(concat("expected digit in duration: ", q.as_str()));
        }
        let n = match num {
            Some(n) => n,
            None => {
                let q = debug_string(s);
                return Err(concat("number overflow in duration: ", q.as_str()));
            },
        };
        let (mult, len): (u64, usize) = if cs.len() - e > 1 && cs[e] == 'm' && cs[e + 1] == 's' {
            (1, 2)
        } else if e < cs.len() && cs[e] == 's' {
            (1000, 1)
        } else if e < cs.len() && cs[e] == 'm' {
            (60000, 1)
        } else if e < cs.len() && cs[e] == 'h' {
            (3600000, 1)
        } else {
            let q = debug_string(s);
            return Err(concat("unknown duration suffix in ", q.as_str()));
        };
        if n > u64::MAX / mult {
            proof {
                assert(n * mult > u64::MAX) by (nonlinear_arith)
                    requires
                        n > u64::MAX / mult,
                        mult > 0,
                ;
            }
            let q = debug_string(s);
            return Err(concat("overflow: ", q.as_str()));
        }
        proof {
            assert(n * mult <= u64::MAX) by (nonlinear_arith)
                requires
                    n <= u64::MAX / mult,
                    mult > 0,
            ;
        }
        let part = n * mult;
        if total > u64::MAX - part {
            let q = debug_string(s);
            return Err(concat("overflow: ", q.as_str()));
        }
        total = total + part;
        i = e + len;
    }
    Ok(total)
}

} // verus!

verus! {

proof fn lemma_digits_end_shift(a: Seq<char>, b: Seq<char>, j: int)
    requires
        0 <= j <= b.len(),
    ensures
        digits_end(a + b, a.len() + j) == a.len() + digits_end(b, j),
    decreases b.len() - j,
{
    if j < b.len() && is_digit(b[j]) {
        assert((a + b)[a.len() + j] == b[j]);
        lemma_digits_end_shift(a, b, j + 1);
    } else if j < b.len() {
        assert((a + b)[a.len() + j] == b[j]);
    }
}

/// Reading the part of `a + b` that lies in `b` is reading `b`.
proof fn lemma_from_shift(a: Seq<char>, b: Seq<char>, j: int, t: int)
    requires
        0 <= j <= b.len(),
    ensures
        duration_from(a + b, a.len() + j, t) == duration_from(b, j, t),
    decreases b.len() - j,
{
    let s = a + b;
    let i = a.len() + j;
    if j < b.len() {
        lemma_digits_end_shift(a, b, j);
        lemma_digits_end_bounds(b, j);
        let e = digits_end(b, j);
        assert(s.subrange(i, s.len() as int) =~= b.subrange(j, b.len() as int));
        if e > j {
            assert(s.subrange(i, a.len() + e) =~= b.subrange(j, e));
            if e < b.len() {
                assert(s[a.len() + e] == b[e]);
            }
            if e + 1 < b.len() {
                assert(s[a.len() + e + 1] == b[e + 1]);
            }
            assert(suffix_at(s, a.len() + e) == suffix_at(b, e));
            let num = decimal_value(b.subrange(j, e));
            match suffix_at(b, e) {
                Some((mult, len)) => {
                    if len > 0 && e + len <= b.len() {
                        lemma_from_shift(a, b, e + len, t + num * mult);
                    } else if len > 0 {
                        assert(e + len > b.len());
                    }
                },
                None => {},
            }
        }
    }
}

proof fn lemma_digits_end_prefix(a: Seq<char>, b: Seq<char>, i: int)
    requires
        0 <= i <= a.len(),
        digits_end(a, i) < a.len(),
    ensures
        digits_end(a + b, i) == digits_end(a, i),
    decreases a.len() - i,
{
    assert((a + b)[i] == a[i]);
    if is_digit(a[i]) {
        lemma_digits_end_prefix(a, b, i + 1);
    }
}

proof fn lemma_from_nondecreasing(s: Seq<char>, i: int, t: int)
    requires
        duration_from(s, i, t) is Ok,
    ensures
        duration_from(s, i, t)->Ok_0 >= t,
    decreases s.len() - i,
{
    if 0 <= i < s.len() {
        lemma_digits_end_bounds(s, i);
        let e = digits_end(s, i);
        let num = decimal_value(s.subrange(i, e));
        assert forall|k: int| 0 <= k < s.subrange(i, e).len() implies is_digit(#[trigger] s.subrange(i, e)[k]) by {
            assert(s.subrange(i, e)[k] == s[i + k]);
        }
        lemma_decimal_value_nonneg(s.subrange(i, e));
        match suffix_at(s, e) {
            Some((mult, len)) => {
                if len > 0 && !(num * mult > u64::MAX || t + num * mult > u64::MAX) {
                    assert(num * mult >= 0) by (nonlinear_arith)
                        requires
                            num >= 0,
                            mult >= 0,
                    ;
                    lemma_from_nondecreasing(s, e + len, t + num * mult);
                }
            },
            None => {},
        }
    }
}

/// Reading from a larger running total gives a result larger by the same
/// amount, as long as it fits.
proof fn lemma_from_offset(s: Seq<char>, i: int, t: int, u: int)
    requires
        duration_from(s, i, t) is Ok,
        0 <= t <= u,
        u + (duration_from(s, i, t)->Ok_0 - t) <= u64::MAX,
    ensures
        duration_from(s, i, u) == Ok::<int, DurationFault>(u + (duration_from(s, i, t)->Ok_0 - t)),
    decreases s.len() - i,
{
    if 0 <= i < s.len() {
        lemma_digits_end_bounds(s, i);
        let e = digits_end(s, i);
        let num = decimal_value(s.subrange(i, e));
        assert forall|k: int| 0 <= k < s.subrange(i, e).len() implies is_digit(#[trigger] s.subrange(i, e)[k]) by {
            assert(s.subrange(i, e)[k] == s[i + k]);
        }
        lemma_decimal_value_nonneg(s.subrange(i, e));
        match suffix_at(s, e) {
            Some((mult, len)) => {
                assert(num * mult >= 0) by (nonlinear_arith)
                    requires
                        num >= 0,
                        mult >= 0,
                ;
                if len > 0 {
                    lemma_from_nondecreasing(s, e + len, t + num * mult);
                    lemma_from_offset(s, e + len, t + num * mult, u + num * mult);
                }
            },
            None => {},
        }
    }
}

/// Reading the part of `a + b` that lies in `a`, when `b` is empty or starts
/// with a digit, is reading `a` and then going on in `b`.
proof fn lemma_from_prefix(a: Seq<char>, b: Seq<char>, i: int, t: int)
    requires
        0 <= i <= a.len(),
        duration_from(a, i, t) is Ok,
        b.len() > 0 ==> is_digit(b[0]),
    ensures
        duration_from(a + b, i, t) == duration_from(a + b, a.len() as int, duration_from(a, i, t)->Ok_0),
    decreases a.len() - i,
{
    let s = a + b;
    if i < a.len() {
        lemma_digits_end_bounds(a, i);
        let e = digits_end(a, i);
        match suffix_at(a, e) {
            Some((mult, len)) => {
                assert(e < a.len());
                lemma_digits_end_prefix(a, b, i);
                assert(s.subrange(i, e) =~= a.subrange(i, e));
                assert(s[e] == a[e]);
                if e + 1 < a.len() {
                    assert(s[e + 1] == a[e + 1]);
                } else if b.len() > 0 {
                    assert(s[e + 1] == b[0]);
                }
                assert(suffix_at(s, e) == suffix_at(a, e));
                let num = decimal_value(a.subrange(i, e));
                if len > 0 {
                    lemma_from_prefix(a, b, e + len, t + num * mult);
                }
            },
            None => {},
        }
    }
}

/// Durations written one after the other add up: when `a` and `b` are valid
/// durations whose sum fits in a `u64`, their concatenation denotes the sum.
pub proof fn law_concatenation_adds(a: Seq<char>, b: Seq<char>, x: int, y: int)
    requires
        duration_spec(a) == Ok::<int, DurationFault>(x),
        duration_spec(b) == Ok::<int, DurationFault>(y),
        x + y <= u64::MAX,
    ensures
        duration_spec(a + b) == Ok::<int, DurationFault>(x + y),
{
    lemma_digits_end_bounds(b, 0);
    assert(is_digit(b[0]));
    lemma_from_prefix(a, b, 0, 0);
    lemma_from_nondecreasing(a, 0, 0);
    lemma_from_nondecreasing(b, 0, 0);
    lemma_from_shift(a, b, 0, x);
    lemma_from_offset(b, 0, 0, x);
}

proof fn lemma_digits_run(s: Seq<char>, i: int, n: int)
    requires
        0 <= i <= n < s.len(),
        forall|k: int| i <= k < n ==> is_digit(#[trigger] s[k]),
        !is_digit(s[n]),
    ensures
        digits_end(s, i) == n,
    decreases n - i,
{
    if i < n {
        lemma_digits_run(s, i + 1, n);
    }
}

proof fn lemma_one_component(d: Seq<char>, unit: Seq<char>, mult: int)
    requires
        d.len() > 0,
        forall|k: int| 0 <= k < d.len() ==> is_digit(#[trigger] d[k]),
        unit.len() > 0,
        !is_digit(unit[0]),
        suffix_at(d + unit, d.len() as int) == Some((mult, unit.len() as int)),
        mult >= 0,
        decimal_value(d) * mult <= u64::MAX,
    ensures
        duration_spec(d + unit) == Ok::<int, DurationFault>(decimal_value(d) * mult),
{
    let s = d + unit;
    assert forall|k: int| 0 <= k < d.len() implies is_digit(#[trigger] s[k]) by {
        assert(s[k] == d[k]);
    }
    assert(s[d.len() as int] == unit[0]);
    lemma_digits_run(s, 0, d.len() as int);
    assert(s.subrange(0, d.len() as int) =~= d);
    lemma_decimal_value_nonneg(d);
    assert(decimal_value(d) <= u64::MAX) by (nonlinear_arith)
        requires
            decimal_value(d) * mult <= u64::MAX,
            decimal_value(d) >= 0,
            mult >= 1,
    ;
    assert(decimal_value(d) * mult >= 0) by (nonlinear_arith)
        requires
            decimal_value(d) >= 0,
            mult >= 0,
    ;
    assert(duration_from(s, s.len() as int, decimal_value(d) * mult) == Ok::<int, DurationFault>(decimal_value(d) * mult));
}

/// A number followed by a unit denotes that many units: `ms` a millisecond,
/// `s` a thousand, `m` sixty thousand and `h` 3 600 000 milliseconds, as
/// long as the total fits in a `u64`.
pub proof fn law_unit_values(d: Seq<char>)
    requires
        d.len() > 0,
        forall|k: int| 0 <= k < d.len() ==> is_digit(#[trigger] d[k]),
    ensures
        decimal_value(d) <= u64::MAX ==> duration_spec(d + "ms"@) == Ok::<int, DurationFault>(decimal_value(d)),
        decimal_value(d) * 1000 <= u64::MAX ==> duration_spec(d + "s"@) == Ok::<int, DurationFault>(
            decimal_value(d) * 1000,
        ),
        decimal_value(d) * 60000 <= u64::MAX ==> duration_spec(d + "m"@) == Ok::<int, DurationFault>(
            decimal_value(d) * 60000,
        ),
        decimal_value(d) * 3600000 <= u64::MAX ==> duration_spec(d + "h"@) == Ok::<int, DurationFault>(
            decimal_value(d) * 3600000,
        ),
{
    reveal_strlit("ms");
    reveal_strlit("s");
    reveal_strlit("m");
    reveal_strlit("h");
    let n = d.len() as int;
    if decimal_value(d) <= u64::MAX {
        let s = d + "ms"@;
        assert(s[n] == 'm' && s[n + 1] == 's');
        assert(decimal_value(d) * 1 == decimal_value(d));
        lemma_one_component(d, "ms"@, 1);
    }
    if decimal_value(d) * 1000 <= u64::MAX {
        let s = d + "s"@;
        assert(s[n] == 's');
        lemma_one_component(d, "s"@, 1000);
    }
    if decimal_value(d) * 60000 <= u64::MAX {
        let s = d + "m"@;
        assert(s[n] == 'm');
        lemma_one_component(d, "m"@, 60000);
    }
    if decimal_value(d) * 3600000 <= u64::MAX {
        let s = d + "h"@;
        assert(s[n] == 'h');
        lemma_one_component(d, "h"@, 3600000);
    }
}

} // verus!
