//! Which files of the layers directory make up the plan, in which order, and
//! under which label.
use vstd::prelude::*;

use crate::text::{str_chars, string_from_chars, strings_view, sub_chars};

verus! {

/// Whether `a` sorts before or equal to `b`, character by character (the
/// order of file names).
pub open spec fn name_le(a: Seq<char>, b: Seq<char>) -> bool
    decreases a.len(),
{
    if a.len() == 0 {
        true
    } else if b.len() == 0 {
        false
    } else if a[0] != b[0] {
        a[0] < b[0]
    } else {
        name_le(a.drop_first(), b.drop_first())
    }
}

/// Whether `s` is in name order.
pub open spec fn names_sorted(s: Seq<Seq<char>>) -> bool {
    forall|i: int, j: int| 0 <= i < j < s.len() ==> name_le(s[i], s[j])
}

proof fn lemma_name_le_total(a: Seq<char>, b: Seq<char>)
    ensures
        name_le(a, b) || name_le(b, a),
    decreases a.len(),
{
    if a.len() > 0 && b.len() > 0 && a[0] == b[0] {
        lemma_name_le_total(a.drop_first(), b.drop_first());
    }
}

proof fn lemma_name_le_trans(a: Seq<char>, b: Seq<char>, c: Seq<char>)
    requires
        name_le(a, b),
        name_le(b, c),
    ensures
        name_le(a, c),
    decreases a.len(),
{
    if a.len() > 0 && b.len() > 0 && c.len() > 0 && a[0] == b[0] && b[0] == c[0] {
        lemma_name_le_trans(a.drop_first(), b.drop_first(), c.drop_first());
    }
}

fn name_le_exec(a: &Vec<char>, b: &Vec<char>) -> (r: bool)
    ensures
        r == name_le(a@, b@),
{
    let mut i: usize = 0;
    proof {
        assert(a@.skip(0) =~= a@);
        assert(b@.skip(0) =~= b@);
    }
    while i < a.len() && i < b.len() && a[i] == b[i]
        invariant
            i <= a.len(),
            i <= b.len(),
            name_le(a@, b@) == name_le(a@.skip(i as int), b@.skip(i as int)),
        decreases a.len() - i,
    {
        proof {
            assert(a@.skip(i as int).drop_first() =~= a@.skip(i + 1));
            assert(b@.skip(i as int).drop_first() =~= b@.skip(i + 1));
        }
        i = i + 1;
    }
    if i == a.len() {
        true
    } else if i == b.len() {
        false
    } else {
        a[i] < b[i]
    }
}

/// Whether `s` ends with `suffix`.
pub open spec fn ends_with(s: Seq<char>, suffix: Seq<char>) -> bool {
    suffix.len() <= s.len() && s.skip(s.len() - suffix.len()) == suffix
}

/// Whether a directory entry is a layer file: its name ends in `.yaml` or `.yml`.
pub open spec fn is_layer_file(name: Seq<char>) -> bool {
    ends_with(name, ".yaml"@) || ends_with(name, ".yml"@)
}

/// The position of the last `.` in `s`, if any.
pub open spec fn last_dot(s: Seq<char>) -> Option<int>
    decreases s.len(),
{
    if s.len() == 0 {
        None
    } else if s.last() == '.' {
        Some(s.len() - 1)
    } else {
        last_dot(s.drop_last())
    }
}

/// A file name without its extension, as `Path::file_stem` gives it: the part
/// before the last `.`, or the whole name when that dot is its first character
/// or there is none.
pub open spec fn file_stem(name: Seq<char>) -> Seq<char> {
    match last_dot(name) {
        Some(k) => if k == 0 {
            name
        } else {
            name.take(k)
        },
        None => name,
    }
}

fn ends_with_exec(s: &Vec<char>, suffix: &str) -> (b: bool)
    ensures
        b == ends_with(s@, suffix@),
{
    let t = str_chars(suffix);
    if t.len() > s.len() {
        return false;
    }
    let off = s.len() - t.len();
    let mut i: usize = 0;
    while i < t.len()
        invariant
            i <= t.len(),
            t@ == suffix@,
            off + t.len() == s.len(),
            forall|k: int| 0 <= k < i ==> s@[off + k] == t@[k],
        decreases t.len() - i,
    {
        if s[off + i] != t[i] {
            assert(s@.skip(off as int)[i as int] != suffix@[i as int]);
            return false;
        }
        i = i + 1;
    }
    assert(s@.skip(off as int) =~= suffix@);
    true
}

fn stem_of(name: &Vec<char>) -> (r: String)
    ensures
        r@ == file_stem(name@),
{
    let mut k = name.len();
    proof {
        assert(name@.take(name.len() as int) =~= name@);
    }
    while k > 0 && name[k - 1] != '.'
        invariant
            k <= name.len(),
            last_dot(name@) == last_dot(name@.take(k as int)),
        decreases k,
    {
        proof {
            assert(name@.take(k as int).drop_last() =~= name@.take(k - 1));
        }
        k = k - 1;
    }
    proof {
        if k > 0 {
            assert(name@.take(k as int).last() == '.');
        } else {
            assert(name@.take(0).len() == 0);
        }
    }
    if k <= 1 {
        proof {
            assert(name@.take(name.len() as int) =~= name@);
        }
        string_from_chars(name)
    } else {
        proof {
            assert(name@.subrange(0, k - 1) =~= name@.take(k - 1));
        }
        string_from_chars(&sub_chars(name, 0, k - 1))
    }
}

/// A layer file of the plan: its file name and its label (the name's stem).
#[derive(Debug)]
pub struct LayerFile {
    pub name: String,
    pub label: String,
}

/// The layer files among the entries `names` of the layers directory, in name
/// order (which is the order in which layers apply), each with its label.
pub fn layer_files(names: &Vec<String>) -> (r: Vec<LayerFile>)
    ensures
        names_sorted(r@.map_values(|f: LayerFile| f.name@)),
        r@.map_values(|f: LayerFile| f.name@).to_multiset() == strings_view(names@).filter(
            |n: Seq<char>| is_layer_file(n),
        ).to_multiset(),
        forall|i: int| 0 <= i < r@.len() ==> (#[trigger] r@[i]).label@ == file_stem(r@[i].name@),
{
    let ghost all = strings_view(names@);
    let ghost pred = |n: Seq<char>| is_layer_file(n);
    let mut r: Vec<LayerFile> = Vec::new();
    let mut i: usize = 0;
    proof {
        reveal(Seq::filter);
        assert(all.take(0).filter(pred) =~= r@.map_values(|f: LayerFile| f.name@));
    }
    while i < names.len()
        invariant
            i <= names.len(),
            all == strings_view(names@),
            pred == (|n: Seq<char>| is_layer_file(n)),
            names_sorted(r@.map_values(|f: LayerFile| f.name@)),
            r@.map_values(|f: LayerFile| f.name@).to_multiset() == all.take(i as int).filter(pred).to_multiset(),
            forall|m: int| 0 <= m < r@.len() ==> (#[trigger] r@[m]).label@ == file_stem(r@[m].name@),
        decreases names.len() - i,
    {
        let cs = str_chars(names[i].as_str());
        let yaml = ends_with_exec(&cs, ".yaml");
        let yml = ends_with_exec(&cs, ".yml");
        proof {
            reveal(Seq::filter);
            assert(all.take(i + 1).drop_last() =~= all.take(i as int));
            assert(all.take(i + 1).last() == cs@);
        }
        if yaml || yml {
            let ghost before = r@;
            let ghost rv = before.map_values(|f: LayerFile| f.name@);
            let mut k: usize = 0;
            while k < r.len()
                invariant
                    k <= r.len(),
                    r@ == before,
                    rv == before.map_values(|f: LayerFile| f.name@),
                    forall|m: int| 0 <= m < k ==> name_le(#[trigger] rv[m], cs@),
                ensures
                    k <= r.len(),
                    r@ == before,
                    forall|m: int| 0 <= m < k ==> name_le(#[trigger] rv[m], cs@),
                    k < r.len() ==> !name_le(rv[k as int], cs@),
                decreases r.len() - k,
            {
                let other = str_chars(r[k].name.as_str());
                if !name_le_exec(&other, &cs) {
                    break;
                }
                k = k + 1;
            }
            let entry = LayerFile { name: names[i].clone(), label: stem_of(&cs) };
            r.insert(k, entry);
            proof {
                let nv = r@.map_values(|f: LayerFile| f.name@);
                assert(nv =~= rv.insert(k as int, cs@));
                if k < rv.len() {
                    assert(!name_le(rv[k as int], cs@));
                    lemma_name_le_total(rv[k as int], cs@);
                }
                assert forall|a: int, b: int| 0 <= a < b < nv.len() implies name_le(nv[a], nv[b]) by {
                    if b < k {
                        assert(nv[a] == rv[a] && nv[b] == rv[b]);
                    } else if b == k {
                        assert(nv[a] == rv[a]);
                    } else if a == k {
                        assert(nv[b] == rv[b - 1]);
                        if b - 1 > k {
                            lemma_name_le_trans(cs@, rv[k as int], rv[b - 1]);
                        }
                    } else if a < k {
                        assert(nv[a] == rv[a] && nv[b] == rv[b - 1]);
                    } else {
                        assert(nv[a] == rv[a - 1] && nv[b] == rv[b - 1]);
                    }
                }
                assert forall|m: int| 0 <= m < r@.len() implies (#[trigger] r@[m]).label@ == file_stem(r@[m].name@) by {
                    if m < k {
                        assert(r@[m] == before[m]);
                    } else if m > k {
                        assert(r@[m] == before[m - 1]);
                    }
                }
                assert(pred(cs@));
                assert(all.take(i + 1).filter(pred) == all.take(i as int).filter(pred).push(cs@));
                vstd::seq_lib::to_multiset_insert(rv, k as int, cs@);
                vstd::seq_lib::to_multiset_build(all.take(i as int).filter(pred), cs@);
            }
        } else {
            proof {
                assert(!pred(cs@));
                assert(all.take(i + 1).filter(pred) == all.take(i as int).filter(pred));
            }
        }
        i = i + 1;
    }
    proof {
        assert(all.take(names.len() as int) =~= all);
    }
    r
}

proof fn lemma_last_dot_skip(s: Seq<char>, tail: Seq<char>)
    requires
        forall|k: int| 0 <= k < tail.len() ==> tail[k] != '.',
    ensures
        last_dot(s + tail) == last_dot(s),
    decreases tail.len(),
{
    if tail.len() > 0 {
        assert((s + tail).drop_last() =~= s + tail.drop_last());
        assert((s + tail).last() == tail[tail.len() - 1]);
        lemma_last_dot_skip(s, tail.drop_last());
    } else {
        assert(s + tail =~= s);
    }
}

/// A file named `<stem>.yaml` or `<stem>.yml`, with a non-empty stem, is a
/// layer file, and its label is the stem.
pub proof fn law_label_is_stem(stem: Seq<char>)
    requires
        stem.len() > 0,
    ensures
        is_layer_file(stem + ".yaml"@),
        file_stem(stem + ".yaml"@) == stem,
        is_layer_file(stem + ".yml"@),
        file_stem(stem + ".yml"@) == stem,
{
    reveal_strlit(".yaml");
    reveal_strlit(".yml");
    let a = stem + ".yaml"@;
    let b = stem + ".yml"@;
    assert(a.skip(a.len() - 5) =~= ".yaml"@);
    assert(b.skip(b.len() - 4) =~= ".yml"@);
    let ta = seq!['y', 'a', 'm', 'l'];
    let tb = seq!['y', 'm', 'l'];
    let d = stem.push('.');
    assert(a =~= d + ta);
    assert(b =~= d + tb);
    lemma_last_dot_skip(d, ta);
    lemma_last_dot_skip(d, tb);
    assert(last_dot(d) == Some(stem.len() as int));
    assert(a.take(stem.len() as int) =~= stem);
    assert(b.take(stem.len() as int) =~= stem);
}

} // verus!
