//! Ordered string-to-string tables (header maps, label maps, environments).
use vstd::prelude::*;

use crate::text::str_equal;

verus! {

/// The view of a table of string pairs.
pub open spec fn pairs_view(v: Seq<(String, String)>) -> Seq<(Seq<char>, Seq<char>)> {
    v.map_values(|p: (String, String)| (p.0@, p.1@))
}

/// The value of the first entry of `t` whose key is `key`.
pub open spec fn lookup(t: Seq<(Seq<char>, Seq<char>)>, key: Seq<char>) -> Option<Seq<char>>
    decreases t.len(),
{
    if t.len() == 0 {
        None
    } else if t[0].0 == key {
        Some(t[0].1)
    } else {
        lookup(t.drop_first(), key)
    }
}

proof fn lemma_lookup_skip(t: Seq<(Seq<char>, Seq<char>)>, key: Seq<char>, i: int)
    requires
        0 <= i <= t.len(),
        forall|k: int| 0 <= k < i ==> (#[trigger] t[k]).0 != key,
    ensures
        lookup(t, key) == lookup(t.skip(i), key),
    decreases i,
{
    if i > 0 {
        assert(t.drop_first().skip(i - 1) =~= t.skip(i));
        lemma_lookup_skip(t.drop_first(), key, i - 1);
    } else {
        assert(t.skip(0) =~= t);
    }
}

/// The value of the first entry of `t` whose key is `key`.
pub fn lookup_exec(t: &Vec<(String, String)>, key: &str) -> (r: Option<String>)
    ensures
        match lookup(pairs_view(t@), key@) {
            Some(v) => r matches Some(s) && s@ == v,
            None => r is None,
        },
{
    let ghost tv = pairs_view(t@);
    let mut i: usize = 0;
    while i < t.len()
        invariant
            i <= t.len(),
            tv == pairs_view(t@),
            forall|k: int| 0 <= k < i ==> (#[trigger] tv[k]).0 != key@,
        decreases t.len() - i,
    {
        if str_equal(t[i].0.as_str(), key) {
            proof {
                lemma_lookup_skip(tv, key@, i as int);
                assert(tv.skip(i as int)[0] == tv[i as int]);
            }
            return Some(t[i].1.clone());
        }
        i = i + 1;
    }
    proof {
        lemma_lookup_skip(tv, key@, t.len() as int);
    }
    None
}

/// `t` with `key` set to `value`: an existing entry keeps its position, a new
/// key is appended (the insertion rule of an insertion-ordered map).
pub open spec fn insert_pair(t: Seq<(Seq<char>, Seq<char>)>, key: Seq<char>, value: Seq<char>) -> Seq<
    (Seq<char>, Seq<char>),
>
    decreases t.len(),
{
    if t.len() == 0 {
        seq![(key, value)]
    } else if t[0].0 == key {
        t.update(0, (key, value))
    } else {
        seq![t[0]] + insert_pair(t.drop_first(), key, value)
    }
}

proof fn lemma_insert_pair_at(t: Seq<(Seq<char>, Seq<char>)>, key: Seq<char>, value: Seq<char>, i: int)
    requires
        0 <= i <= t.len(),
        forall|k: int| 0 <= k < i ==> (#[trigger] t[k]).0 != key,
        i < t.len() ==> t[i].0 == key,
    ensures
        i < t.len() ==> insert_pair(t, key, value) == t.update(i, (key, value)),
        i == t.len() ==> insert_pair(t, key, value) == t.push((key, value)),
    decreases i,
{
    if i > 0 {
        lemma_insert_pair_at(t.drop_first(), key, value, i - 1);
        if i < t.len() {
            assert(seq![t[0]] + t.drop_first().update(i - 1, (key, value)) =~= t.update(
                i,
                (key, value),
            ));
        } else {
            assert(seq![t[0]] + t.drop_first().push((key, value)) =~= t.push((key, value)));
        }
    } else if t.len() > 0 {
    } else {
        assert(seq![(key, value)] =~= t.push((key, value)));
    }
}

/// Set `key` to `value` in `t`, in place or at the end.
pub fn insert_exec(t: &mut Vec<(String, String)>, key: String, value: String)
    ensures
        pairs_view(final(t)@) == insert_pair(pairs_view(old(t)@), key@, value@),
{
    let ghost tv = pairs_view(t@);
    let mut i: usize = 0;
    while i < t.len()
        invariant
            i <= t.len(),
            tv == pairs_view(t@),
            t@ == old(t)@,
            forall|k: int| 0 <= k < i ==> (#[trigger] tv[k]).0 != key@,
        decreases t.len() - i,
    {
        if str_equal(t[i].0.as_str(), key.as_str()) {
            proof {
                lemma_insert_pair_at(tv, key@, value@, i as int);
            }
            let ghost kv = key@;
            let ghost vv = value@;
            t.set(i, (key, value));
            proof {
                assert(pairs_view(t@) =~= tv.update(i as int, (kv, vv)));
            }
            return;
        }
        i = i + 1;
    }
    proof {
        lemma_insert_pair_at(tv, key@, value@, t.len() as int);
    }
    let ghost kv = key@;
    let ghost vv = value@;
    t.push((key, value));
    proof {
        assert(pairs_view(t@) =~= tv.push((kv, vv)));
    }
}

/// A copy of a table.
pub fn copy_pairs(t: &Vec<(String, String)>) -> (r: Vec<(String, String)>)
    ensures
        pairs_view(r@) == pairs_view(t@),
{
    let mut r: Vec<(String, String)> = Vec::new();
    let mut i: usize = 0;
    while i < t.len()
        invariant
            i <= t.len(),
            pairs_view(r@) == pairs_view(t@).take(i as int),
        decreases t.len() - i,
    {
        let ghost before = r@;
        let k = t[i].0.clone();
        let v = t[i].1.clone();
        r.push((k, v));
        proof {
            assert(r@ == before.push((k, v)));
            assert(pairs_view(r@) =~= pairs_view(before).push((k@, v@)));
            assert(pairs_view(t@).take(i + 1) =~= pairs_view(t@).take(i as int).push(
                pairs_view(t@)[i as int],
            ));
        }
        i = i + 1;
    }
    proof {
        assert(pairs_view(t@).take(t.len() as int) =~= pairs_view(t@));
    }
    r
}

} // verus!

verus! {

/// `t` with every entry of `u` set in turn (later entries win).
pub open spec fn extend_pairs(t: Seq<(Seq<char>, Seq<char>)>, u: Seq<(Seq<char>, Seq<char>)>) -> Seq<
    (Seq<char>, Seq<char>),
>
    decreases u.len(),
{
    if u.len() == 0 {
        t
    } else {
        insert_pair(extend_pairs(t, u.drop_last()), u.last().0, u.last().1)
    }
}

/// Set every entry of `u` in `t`, in order.
pub fn extend_exec(t: &mut Vec<(String, String)>, u: &Vec<(String, String)>)
    ensures
        pairs_view(final(t)@) == extend_pairs(pairs_view(old(t)@), pairs_view(u@)),
{
    let ghost start = pairs_view(t@);
    let mut i: usize = 0;
    while i < u.len()
        invariant
            i <= u.len(),
            pairs_view(t@) == extend_pairs(start, pairs_view(u@).take(i as int)),
        decreases u.len() - i,
    {
        let k = u[i].0.clone();
        let v = u[i].1.clone();
        insert_exec(t, k, v);
        proof {
            assert(pairs_view(u@).take(i + 1).drop_last() =~= pairs_view(u@).take(i as int));
        }
        i = i + 1;
    }
    proof {
        assert(pairs_view(u@).take(u.len() as int) =~= pairs_view(u@));
    }
}

/// After `key` is set to `value`, looking `key` up gives `value`, and every
/// other key gives what it gave before.
pub proof fn law_insert_then_lookup(t: Seq<(Seq<char>, Seq<char>)>, key: Seq<char>, value: Seq<char>, k: Seq<char>)
    ensures
        lookup(insert_pair(t, key, value), k) == (if k == key {
            Some(value)
        } else {
            lookup(t, k)
        }),
    decreases t.len(),
{
    let r = insert_pair(t, key, value);
    if t.len() == 0 {
        assert(r[0] == (key, value));
        assert(r.drop_first() =~= Seq::<(Seq<char>, Seq<char>)>::empty());
        assert(lookup(r.drop_first(), k) is None);
    } else if t[0].0 == key {
        assert(r[0] == (key, value));
        assert(r.drop_first() =~= t.drop_first());
        if k != key {
            assert(lookup(r, k) == lookup(r.drop_first(), k));
            assert(lookup(t, k) == lookup(t.drop_first(), k));
        }
    } else {
        law_insert_then_lookup(t.drop_first(), key, value, k);
        assert(r[0] == t[0]);
        assert(r.drop_first() =~= insert_pair(t.drop_first(), key, value));
    }
}

/// After every entry of `u` is set in `t`, a key gives the value of the last
/// entry of `u` with that key, and a key that `u` does not hold gives what it
/// gave in `t`.
pub proof fn law_extend_lookup(t: Seq<(Seq<char>, Seq<char>)>, u: Seq<(Seq<char>, Seq<char>)>, k: Seq<char>)
    ensures
        (forall|j: int| 0 <= j < u.len() ==> (#[trigger] u[j]).0 != k) ==> lookup(extend_pairs(t, u), k) == lookup(t, k),
        forall|j: int|
            0 <= j < u.len() && (#[trigger] u[j]).0 == k && (forall|l: int| j < l < u.len() ==> u[l].0 != k) ==> lookup(
                extend_pairs(t, u),
                k,
            ) == Some(u[j].1),
    decreases u.len(),
{
    if u.len() > 0 {
        let pre = u.drop_last();
        law_extend_lookup(t, pre, k);
        law_insert_then_lookup(extend_pairs(t, pre), u.last().0, u.last().1, k);
        if forall|j: int| 0 <= j < u.len() ==> (#[trigger] u[j]).0 != k {
            assert forall|j: int| 0 <= j < pre.len() implies (#[trigger] pre[j]).0 != k by {
                assert(pre[j] == u[j]);
            }
            assert(u[u.len() - 1] == u.last());
        }
        assert forall|j: int|
            0 <= j < u.len() && (#[trigger] u[j]).0 == k && (forall|l: int| j < l < u.len() ==> u[l].0 != k) implies lookup(
                extend_pairs(t, u),
                k,
            ) == Some(u[j].1) by {
            if j < u.len() - 1 {
                assert(u[u.len() - 1] == u.last());
                assert(pre[j] == u[j]);
                assert forall|l: int| j < l < pre.len() implies pre[l].0 != k by {
                    assert(pre[l] == u[l]);
                }
            }
        }
    }
}

} // verus!
