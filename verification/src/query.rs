//! Query-string helpers of the HTTP API: comma-separated name lists.
use vstd::prelude::*;

use crate::text::{
    is_whitespace, is_ws, str_chars, string_from_chars, strings_view, sub_chars, trim, trim_bounds, trim_end,
    trim_start,
};

verus! {

/// `?names=` query of the list endpoints.
#[derive(Debug)]
pub struct NamesQuery {
    /// Comma-separated list of names to filter by. Omit for all.
    pub names: Option<String>,
}

/// Output format of the log follow stream.
#[derive(Clone, Copy, Debug, PartialEq, Eq, Structural)]
pub enum LogFormat {
    /// JSON object per line (the default).
    Json,
    /// Plain text: `[service] message`.
    Text,
    /// Newline-delimited JSON, no SSE framing.
    Ndjson,
}

impl LogFormat {
    /// The default format, `json`.
    pub fn default_format() -> (f: LogFormat)
        ensures
            f == LogFormat::Json,
    {
        LogFormat::Json
    }
}

/// `?services=&n=&format=` query of the log endpoints.
#[derive(Debug)]
pub struct LogsQuery {
    /// Comma-separated list of service names to filter by. Omit for all services.
    pub services: Option<String>,
    /// Number of most-recent lines to return (default 100).
    pub n: Option<usize>,
    /// Response format for the follow stream.
    pub format: Option<LogFormat>,
}

/// The pieces of `s` between the `sep` characters, as `str::split` gives them
/// (an empty `s` gives one empty piece).
pub open spec fn split_pieces(s: Seq<char>, sep: char) -> Seq<Seq<char>>
    decreases s.len(),
{
    if s.len() == 0 {
        seq![seq![]]
    } else {
        let prev = split_pieces(s.drop_last(), sep);
        if s.last() == sep {
            prev.push(seq![])
        } else {
            prev.update(prev.len() - 1, prev.last().push(s.last()))
        }
    }
}

/// The non-empty members of `v`, in order.
pub open spec fn non_empty(v: Seq<Seq<char>>) -> Seq<Seq<char>>
    decreases v.len(),
{
    if v.len() == 0 {
        seq![]
    } else if v.last().len() > 0 {
        non_empty(v.drop_last()).push(v.last())
    } else {
        non_empty(v.drop_last())
    }
}

/// Each member of `v`, trimmed.
pub open spec fn trim_all(v: Seq<Seq<char>>) -> Seq<Seq<char>> {
    v.map_values(|p: Seq<char>| trim(p))
}

/// The names listed in the comma-separated `s`: each piece trimmed, empty
/// pieces dropped.
pub open spec fn name_list(s: Seq<char>) -> Seq<Seq<char>> {
    non_empty(trim_all(split_pieces(s, ',')))
}

proof fn lemma_split_pieces_nonempty(s: Seq<char>, sep: char)
    ensures
        split_pieces(s, sep).len() >= 1,
    decreases s.len(),
{
    if s.len() > 0 {
        lemma_split_pieces_nonempty(s.drop_last(), sep);
    }
}

/// Split `s` at commas, trim each piece and keep the non-empty ones.
pub fn split_names(s: &str) -> (r: Vec<String>)
    ensures
        strings_view(r@) == name_list(s@),
        forall|i: int| 0 <= i < r@.len() ==> plain_name(#[trigger] r@[i]@),
{
    proof {
        law_names_are_plain(s@);
    }
    let cs = str_chars(s);
    let mut out: Vec<String> = Vec::new();
    let mut start: usize = 0;
    let mut i: usize = 0;
    let ghost mut done: Seq<Seq<char>> = seq![];
    proof {
        assert(cs@.take(0) =~= Seq::<char>::empty());
        assert(cs@.subrange(0, 0) =~= Seq::<char>::empty());
        assert(strings_view(out@) =~= Seq::<Seq<char>>::empty());
    }
    while i < cs.len()
        invariant
            start <= i <= cs.len(),
            split_pieces(cs@.take(i as int), ',') == done.push(cs@.subrange(start as int, i as int)),
            strings_view(out@) == non_empty(trim_all(done)),
        decreases cs.len() - i,
    {
        let ghost prev_take = cs@.take(i as int);
        proof {
            assert(cs@.take(i + 1).drop_last() =~= prev_take);
            assert(cs@.take(i + 1).last() == cs@[i as int]);
        }
        if cs[i] == ',' {
            let piece = sub_chars(&cs, start, i);
            let (lo, hi) = trim_bounds(&piece);
            let ghost old_out = out@;
            let ghost old_done = done;
            if lo < hi {
                let t = sub_chars(&piece, lo, hi);
                out.push(string_from_chars(&t));
            }
            proof {
                done = done.push(piece@);
                assert(trim_all(done) =~= trim_all(old_done).push(trim(piece@)));
                assert(trim_all(done).drop_last() =~= trim_all(old_done));
                assert(strings_view(out@) =~= non_empty(trim_all(done)));
                assert(cs@.subrange((i + 1) as int, (i + 1) as int) =~= Seq::<char>::empty());
            }
            start = i + 1;
        } else {
            proof {
                let p = split_pieces(prev_take, ',');
                assert(cs@.subrange(start as int, i + 1) =~= cs@.subrange(start as int, i as int).push(cs@[i as int]));
                assert(p.update(p.len() - 1, p.last().push(cs@[i as int])) =~= done.push(cs@.subrange(start as int, i + 1)));
            }
        }
        i = i + 1;
    }
    proof {
        assert(cs@.take(cs.len() as int) =~= cs@);
    }
    let piece = sub_chars(&cs, start, cs.len());
    let (lo, hi) = trim_bounds(&piece);
    let ghost old_done = done;
    if lo < hi {
        let t = sub_chars(&piece, lo, hi);
        out.push(string_from_chars(&t));
    }
    proof {
        let all = old_done.push(piece@);
        assert(trim_all(all) =~= trim_all(old_done).push(trim(piece@)));
        assert(trim_all(all).drop_last() =~= trim_all(old_done));
        assert(strings_view(out@) =~= non_empty(trim_all(all)));
        assert(strings_view(out@) == name_list(s@));
        assert forall|i: int| 0 <= i < out@.len() implies plain_name(#[trigger] out@[i]@) by {
            assert(strings_view(out@)[i] == out@[i]@);
            assert(plain_name(name_list(s@)[i]));
        }
    }
    out
}

/// The names of a `?names=` query (all names when the query is absent).
pub fn parse_names(q: &NamesQuery) -> (r: Vec<String>)
    ensures
        strings_view(r@) == name_list(
            match q.names {
                Some(s) => s@,
                None => Seq::<char>::empty(),
            },
        ),
{
    match &q.names {
        Some(s) => split_names(s.as_str()),
        None => {
            proof {
                reveal_strlit("");
            }
            split_names("")
        },
    }
}

/// The service names of a `?services=` query (all services when absent).
pub fn parse_services(q: &LogsQuery) -> (r: Vec<String>)
    ensures
        strings_view(r@) == name_list(
            match q.services {
                Some(s) => s@,
                None => Seq::<char>::empty(),
            },
        ),
{
    match &q.services {
        Some(s) => split_names(s.as_str()),
        None => {
            proof {
                reveal_strlit("");
            }
            split_names("")
        },
    }
}

} // verus!

verus! {

/// The names joined with commas, in order.
pub open spec fn join_names(names: Seq<Seq<char>>) -> Seq<char>
    decreases names.len(),
{
    if names.len() == 0 {
        seq![]
    } else if names.len() == 1 {
        names[0]
    } else {
        join_names(names.drop_last()) + seq![','] + names.last()
    }
}

/// Whether `n` can stand in a comma-separated name list as it is: not
/// empty, without a comma, and without whitespace at either end.
pub open spec fn plain_name(n: Seq<char>) -> bool {
    &&& n.len() > 0
    &&& !n.contains(',')
    &&& !is_ws(n[0])
    &&& !is_ws(n.last())
}

proof fn lemma_split_append(a: Seq<char>, b: Seq<char>, sep: char)
    ensures
        split_pieces(a + seq![sep] + b, sep) == split_pieces(a, sep) + split_pieces(b, sep),
    decreases b.len(),
{
    let s = a + seq![sep] + b;
    if b.len() == 0 {
        assert(s.drop_last() =~= a);
        assert(split_pieces(a, sep).push(seq![]) =~= split_pieces(a, sep) + seq![seq![]]);
    } else {
        lemma_split_append(a, b.drop_last(), sep);
        assert(s.drop_last() =~= a + seq![sep] + b.drop_last());
        lemma_split_pieces_nonempty(b.drop_last(), sep);
        let pa = split_pieces(a, sep);
        let pb = split_pieces(b.drop_last(), sep);
        if b.last() == sep {
            assert((pa + pb).push(seq![]) =~= pa + pb.push(seq![]));
        } else {
            let prev = pa + pb;
            assert(prev.update(prev.len() - 1, prev.last().push(s.last())) =~= pa + pb.update(
                pb.len() - 1,
                pb.last().push(b.last()),
            ));
        }
    }
}

proof fn lemma_split_no_sep(s: Seq<char>, sep: char)
    requires
        !s.contains(sep),
    ensures
        split_pieces(s, sep) == seq![s],
    decreases s.len(),
{
    if s.len() > 0 {
        let pre = s.drop_last();
        assert(!pre.contains(sep)) by {
            if pre.contains(sep) {
                let j = choose|j: int| 0 <= j < pre.len() && pre[j] == sep;
                assert(s[j] == sep);
            }
        }
        lemma_split_no_sep(pre, sep);
        assert(s[s.len() - 1] == s.last());
        assert(s.last() != sep);
        assert(pre.push(s.last()) =~= s);
        assert(seq![pre].update(0, pre.push(s.last())) =~= seq![s]);
    } else {
        assert(s =~= Seq::<char>::empty());
    }
}

proof fn lemma_split_join(names: Seq<Seq<char>>)
    requires
        names.len() > 0,
        forall|i: int| 0 <= i < names.len() ==> !(#[trigger] names[i]).contains(','),
    ensures
        split_pieces(join_names(names), ',') == names,
    decreases names.len(),
{
    if names.len() == 1 {
        lemma_split_no_sep(names[0], ',');
        assert(seq![names[0]] =~= names);
    } else {
        let pre = names.drop_last();
        assert forall|i: int| 0 <= i < pre.len() implies !(#[trigger] pre[i]).contains(',') by {
            assert(pre[i] == names[i]);
        }
        lemma_split_join(pre);
        lemma_split_append(join_names(pre), names.last(), ',');
        assert(names[names.len() - 1] == names.last());
        lemma_split_no_sep(names.last(), ',');
        assert(pre + seq![names.last()] =~= names);
    }
}

proof fn lemma_non_empty_all(v: Seq<Seq<char>>)
    requires
        forall|i: int| 0 <= i < v.len() ==> (#[trigger] v[i]).len() > 0,
    ensures
        non_empty(v) == v,
    decreases v.len(),
{
    if v.len() > 0 {
        let pre = v.drop_last();
        assert forall|i: int| 0 <= i < pre.len() implies (#[trigger] pre[i]).len() > 0 by {
            assert(pre[i] == v[i]);
        }
        lemma_non_empty_all(pre);
        assert(v[v.len() - 1] == v.last());
        assert(pre.push(v.last()) =~= v);
    }
}

/// Joining plain names with commas and reading the list back gives the same
/// names, in the same order.
pub proof fn law_name_list_round_trip(names: Seq<Seq<char>>)
    requires
        forall|i: int| 0 <= i < names.len() ==> plain_name(#[trigger] names[i]),
    ensures
        name_list(join_names(names)) == names,
{
    if names.len() == 0 {
        assert(split_pieces(join_names(names), ',') == seq![Seq::<char>::empty()]);
        assert(trim_start(Seq::<char>::empty()) == Seq::<char>::empty());
        assert(trim_end(Seq::<char>::empty()) == Seq::<char>::empty());
        assert(trim(Seq::<char>::empty()) == Seq::<char>::empty());
        assert(trim_all(seq![Seq::<char>::empty()]) =~= seq![Seq::<char>::empty()]);
        let v = seq![Seq::<char>::empty()];
        assert(v.drop_last() =~= Seq::<Seq<char>>::empty());
        assert(v.last().len() == 0);
        assert(non_empty(v) == non_empty(v.drop_last()));
        assert(non_empty(Seq::<Seq<char>>::empty()) == Seq::<Seq<char>>::empty());
        assert(name_list(join_names(names)) =~= names);
    } else {
        assert forall|i: int| 0 <= i < names.len() implies !(#[trigger] names[i]).contains(',') by {
            assert(plain_name(names[i]));
        }
        lemma_split_join(names);
        assert forall|i: int| 0 <= i < names.len() implies trim(#[trigger] names[i]) == names[i] by {
            let n = names[i];
            assert(plain_name(n));
            assert(trim_start(n) == n);
            assert(trim_end(n) == n);
        }
        assert(trim_all(names) =~= names);
        lemma_non_empty_all(names);
    }
}

proof fn lemma_pieces_no_sep(s: Seq<char>, sep: char)
    ensures
        forall|i: int|
            0 <= i < split_pieces(s, sep).len() ==> !(#[trigger] split_pieces(s, sep)[i]).contains(sep),
    decreases s.len(),
{
    if s.len() > 0 {
        let pre = s.drop_last();
        lemma_pieces_no_sep(pre, sep);
        lemma_split_pieces_nonempty(pre, sep);
        let p = split_pieces(pre, sep);
        if s.last() != sep {
            let q = p.update(p.len() - 1, p.last().push(s.last()));
            assert forall|i: int| 0 <= i < q.len() implies !(#[trigger] q[i]).contains(sep) by {
                if i == p.len() - 1 {
                    let l = p.last().push(s.last());
                    if l.contains(sep) {
                        let j = choose|j: int| 0 <= j < l.len() && l[j] == sep;
                        assert(p[p.len() - 1] == p.last());
                        assert(p.last()[j] == sep);
                    }
                } else {
                    assert(q[i] == p[i]);
                }
            }
        } else {
            let q = p.push(seq![]);
            assert forall|i: int| 0 <= i < q.len() implies !(#[trigger] q[i]).contains(sep) by {
                if i < p.len() {
                    assert(q[i] == p[i]);
                } else {
                    assert(q[i] =~= Seq::<char>::empty());
                }
            }
        }
    }
}

proof fn lemma_trim_start_shape(s: Seq<char>)
    ensures
        exists|k: int| 0 <= k <= s.len() && trim_start(s) == #[trigger] s.skip(k),
        trim_start(s).len() > 0 ==> !is_ws(trim_start(s)[0]),
    decreases s.len(),
{
    if s.len() > 0 && is_ws(s[0]) {
        lemma_trim_start_shape(s.drop_first());
        let k = choose|k: int| 0 <= k <= s.drop_first().len() && trim_start(s.drop_first()) == #[trigger] s.drop_first().skip(k);
        assert(s.drop_first().skip(k) =~= s.skip(k + 1));
    } else {
        assert(s.skip(0) =~= s);
    }
}

proof fn lemma_trim_end_shape(s: Seq<char>)
    ensures
        exists|k: int| 0 <= k <= s.len() && trim_end(s) == #[trigger] s.take(k),
        trim_end(s).len() > 0 ==> !is_ws(trim_end(s).last()),
    decreases s.len(),
{
    if s.len() > 0 && is_ws(s.last()) {
        lemma_trim_end_shape(s.drop_last());
        let k = choose|k: int| 0 <= k <= s.drop_last().len() && trim_end(s.drop_last()) == #[trigger] s.drop_last().take(k);
        assert(s.drop_last().take(k) =~= s.take(k));
    } else {
        assert(s.take(s.len() as int) =~= s);
    }
}

proof fn lemma_trim_plain(p: Seq<char>)
    requires
        !p.contains(','),
        trim(p).len() > 0,
    ensures
        plain_name(trim(p)),
{
    let t = trim_start(p);
    lemma_trim_start_shape(p);
    lemma_trim_end_shape(t);
    let k1 = choose|k: int| 0 <= k <= p.len() && t == #[trigger] p.skip(k);
    let k2 = choose|k: int| 0 <= k <= t.len() && trim_end(t) == #[trigger] t.take(k);
    let r = trim(p);
    assert(r == t.take(k2));
    assert(r[0] == t[0]);
    if r.contains(',') {
        let j = choose|j: int| 0 <= j < r.len() && r[j] == ',';
        assert(r[j] == p[k1 + j]);
    }
}

proof fn lemma_non_empty_members(v: Seq<Seq<char>>)
    ensures
        forall|i: int|
            0 <= i < non_empty(v).len() ==> (#[trigger] non_empty(v)[i]).len() > 0 && v.contains(non_empty(v)[i]),
    decreases v.len(),
{
    if v.len() > 0 {
        let pre = v.drop_last();
        lemma_non_empty_members(pre);
        let q = non_empty(v);
        assert forall|i: int| 0 <= i < q.len() implies (#[trigger] q[i]).len() > 0 && v.contains(q[i]) by {
            if i < non_empty(pre).len() {
                assert(q[i] == non_empty(pre)[i]);
                let j = choose|j: int| 0 <= j < pre.len() && pre[j] == q[i];
                assert(v[j] == pre[j]);
            } else {
                assert(q[i] == v.last());
                assert(v[v.len() - 1] == v.last());
            }
        }
    }
}

/// Every name read from a comma-separated list is plain: not empty, without
/// a comma, and without whitespace at either end.
pub proof fn law_names_are_plain(s: Seq<char>)
    ensures
        forall|i: int| 0 <= i < name_list(s).len() ==> plain_name(#[trigger] name_list(s)[i]),
{
    let pieces = split_pieces(s, ',');
    lemma_pieces_no_sep(s, ',');
    let t = trim_all(pieces);
    lemma_non_empty_members(t);
    assert forall|i: int| 0 <= i < name_list(s).len() implies plain_name(#[trigger] name_list(s)[i]) by {
        let n = name_list(s)[i];
        let j = choose|j: int| 0 <= j < t.len() && t[j] == n;
        assert(t[j] == trim(pieces[j]));
        lemma_trim_plain(pieces[j]);
    }
}

} // verus!
