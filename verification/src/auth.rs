//! Access resolution for API callers.
//!
//! Resolution order:
//! 1. **Bootstrap** — if the identity store is empty, grant `Admin` so the
//!    operator can add their first identity.
//! 2. **HTTP Basic Auth** — `Authorization: Basic <base64(user:pass)>` header.
//! 3. **Unix peer UID** — for connections over the Unix socket, match the
//!    calling process's UID against local identities.
//! 4. **Fallback** — `Open` (access only to endpoints that require no auth).
use base64::Engine;
use vstd::prelude::*;
use vstd::utf8::{decode_utf8, valid_utf8};

use crate::identity::{
    access_rank, basic_level, local_levels, most_permissive, IdentityAccess, IdentityStore,
    IdentityView,
};
use crate::text::{str_chars, string_from_chars, sub_chars, trim, trim_bounds};

verus! {

/// The bytes that the standard base64 engine decodes `s` into, or `None`
/// when it refuses `s`.
pub uninterp spec fn base64_decoded(s: Seq<char>) -> Option<Seq<u8>>;

/// `base64::engine::general_purpose::STANDARD.decode`: the result is named
/// after the input; the alphabet and padding rules are the crate's.
#[verifier::external_body]
fn base64_decode(s: &str) -> (r: Option<Vec<u8>>)
    ensures
        r matches Some(b) ==> base64_decoded(s@) == Some(b@),
        r is None ==> base64_decoded(s@) is None,
{
    base64::engine::general_purpose::STANDARD.decode(s).ok()
}

/// `String::from_utf8`: succeeds exactly on valid UTF-8 and decodes it.
#[verifier::external_body]
fn utf8_string(b: Vec<u8>) -> (r: Option<String>)
    ensures
        r is Some <==> valid_utf8(b@),
        r matches Some(s) ==> s@ == decode_utf8(b@),
{
    String::from_utf8(b).ok()
}

/// The scheme prefix of HTTP Basic credentials.
pub open spec fn basic_prefix() -> Seq<char> {
    seq!['B', 'a', 's', 'i', 'c', ' ']
}

/// The first position of `c` in `s`.
pub open spec fn first_index(s: Seq<char>, c: char) -> Option<int>
    decreases s.len(),
{
    if s.len() == 0 {
        None
    } else {
        match first_index(s.drop_last(), c) {
            Some(k) => Some(k),
            None => if s.last() == c {
                Some(s.len() - 1)
            } else {
                None
            },
        }
    }
}

/// The `(user, password)` that an `Authorization` header value carries:
/// `Basic ` then base64 (surrounding whitespace ignored) of UTF-8 text split
/// at its first `:`.
pub open spec fn basic_credentials(header: Seq<char>) -> Option<(Seq<char>, Seq<char>)> {
    if header.len() >= 6 && header.take(6) == basic_prefix() {
        match base64_decoded(trim(header.skip(6))) {
            Some(bytes) => if valid_utf8(bytes) {
                let cred = decode_utf8(bytes);
                match first_index(cred, ':') {
                    Some(k) => Some((cred.take(k), cred.skip(k + 1))),
                    None => None,
                }
            } else {
                None
            },
            None => None,
        }
    } else {
        None
    }
}

/// The access level of a request to a store holding `ids`, from its
/// `Authorization` header (if any) and the UID of its Unix peer (if known),
/// before the bootstrap rule.
pub open spec fn resolved_access(
    ids: Seq<IdentityView>,
    header: Option<Seq<char>>,
    peer_uid: Option<u32>,
) -> IdentityAccess {
    let from_basic = match header {
        Some(h) => match basic_credentials(h) {
            Some(cred) => basic_level(ids, cred.0, cred.1),
            None => None,
        },
        None => None,
    };
    match from_basic {
        Some(level) => level,
        None => match peer_uid {
            Some(uid) => match most_permissive(local_levels(ids, uid)) {
                Some(level) => level,
                None => IdentityAccess::Open,
            },
            None => IdentityAccess::Open,
        },
    }
}

fn split_at_colon(cred: &Vec<char>) -> (r: Option<(String, String)>)
    ensures
        match first_index(cred@, ':') {
            Some(k) => r matches Some(p) && p.0@ == cred@.take(k) && p.1@ == cred@.skip(k + 1),
            None => r is None,
        },
{
    let mut i: usize = 0;
    while i < cred.len()
        invariant
            i <= cred.len(),
            first_index(cred@.take(i as int), ':') is None,
        decreases cred.len() - i,
    {
        proof {
            assert(cred@.take(i + 1).drop_last() =~= cred@.take(i as int));
        }
        if cred[i] == ':' {
            proof {
                lemma_first_index_prefix(cred@, i as int + 1);
            }
            let user = sub_chars(cred, 0, i);
            let pass = sub_chars(cred, i + 1, cred.len());
            proof {
                assert(user@ =~= cred@.take(i as int));
                assert(pass@ =~= cred@.skip(i + 1));
            }
            return Some((string_from_chars(&user), string_from_chars(&pass)));
        }
        i = i + 1;
    }
    proof {
        assert(cred@.take(cred.len() as int) =~= cred@);
    }
    None
}

proof fn lemma_first_index_prefix(s: Seq<char>, n: int)
    requires
        0 < n <= s.len(),
        first_index(s.take(n), ':') is Some,
    ensures
        first_index(s, ':') == first_index(s.take(n), ':'),
    decreases s.len() - n,
{
    if n < s.len() {
        assert(s.take(n + 1).drop_last() =~= s.take(n));
        lemma_first_index_prefix(s, n + 1);
    } else {
        assert(s.take(n) =~= s);
    }
}

/// The `(user, password)` of an `Authorization` header value, when it holds
/// well-formed HTTP Basic credentials.
pub fn parse_basic_credentials(header: &str) -> (r: Option<(String, String)>)
    ensures
        match basic_credentials(header@) {
            Some(c) => r matches Some(p) && p.0@ == c.0 && p.1@ == c.1,
            None => r is None,
        },
        r matches Some(p) ==> {
            &&& header@.len() >= 6 && header@.take(6) == seq!['B', 'a', 's', 'i', 'c', ' ']
            &&& base64_decoded(trim(header@.skip(6))) matches Some(b) && valid_utf8(b) && decode_utf8(b) == p.0@
                + seq![':'] + p.1@
            &&& !p.0@.contains(':')
        },
        (header@.len() >= 6 && header@.take(6) == seq!['B', 'a', 's', 'i', 'c', ' '] && (base64_decoded(
            trim(header@.skip(6)),
        ) matches Some(b) && valid_utf8(b) && decode_utf8(b).contains(':'))) ==> r is Some,
{
    proof {
        law_basic_credentials_split(header@);
    }
    let hc = str_chars(header);
    if hc.len() < 6 || hc[0] != 'B' || hc[1] != 'a' || hc[2] != 's' || hc[3] != 'i' || hc[4]
        != 'c' || hc[5] != ' ' {
        proof {
            if hc.len() >= 6 && header@.take(6) == basic_prefix() {
                assert(header@.take(6)[0] == 'B');
                assert(header@.take(6)[1] == 'a');
                assert(header@.take(6)[2] == 's');
                assert(header@.take(6)[3] == 'i');
                assert(header@.take(6)[4] == 'c');
                assert(header@.take(6)[5] == ' ');
            }
        }
        return None;
    }
    proof {
        assert(header@.take(6) =~= basic_prefix());
    }
    let rest = sub_chars(&hc, 6, hc.len());
    let (lo, hi) = trim_bounds(&rest);
    let encoded = sub_chars(&rest, lo, hi);
    proof {
        assert(rest@ =~= header@.skip(6));
    }
    let encoded_s = string_from_chars(&encoded);
    let bytes = match base64_decode(encoded_s.as_str()) {
        Some(b) => b,
        None => {
            return None;
        },
    };
    let text = match utf8_string(bytes) {
        Some(t) => t,
        None => {
            return None;
        },
    };
    let cred = str_chars(text.as_str());
    split_at_colon(&cred)
}

/// Resolve the caller's access level from the request's `Authorization`
/// header value and Unix peer UID (without the bootstrap rule).
pub fn resolve_access(
    store: &IdentityStore,
    authorization: Option<&str>,
    peer_uid: Option<u32>,
) -> (r: IdentityAccess)
    ensures
        r == resolved_access(
            store.identities(),
            match authorization {
                Some(h) => Some(h@),
                None => None,
            },
            peer_uid,
        ),
        ({
            let ids = store.identities();
            let basic = basic_grant(
                ids,
                match authorization {
                    Some(h) => Some(h@),
                    None => None,
                },
            );
            &&& basic matches Some(a) ==> r == a
            &&& (basic is None && peer_uid is Some && exists|i: int|
                0 <= i < ids.len() && (#[trigger] ids[i].local matches Some(u) && (u is None || u == Some(
                    peer_uid->Some_0,
                )))) ==> (forall|i: int|
                0 <= i < ids.len() && (ids[i].local matches Some(u) && (u is None || u == Some(peer_uid->Some_0)))
                    ==> access_rank(r) >= access_rank(#[trigger] ids[i].access)) && (exists|i: int|
                0 <= i < ids.len() && (ids[i].local matches Some(u) && (u is None || u == Some(peer_uid->Some_0)))
                    && #[trigger] ids[i].access == r)
            &&& (basic is None && (peer_uid is None || forall|i: int|
                0 <= i < ids.len() ==> !(#[trigger] ids[i].local matches Some(u) && (u is None || u == Some(
                    peer_uid->Some_0,
                ))))) ==> r == IdentityAccess::Open
        }),
{
    proof {
        law_resolution_order(
            store.identities(),
            match authorization {
                Some(h) => Some(h@),
                None => None,
            },
            peer_uid,
        );
    }
    if let Some(h) = authorization {
        if let Some((user, pass)) = parse_basic_credentials(h) {
            if let Some(level) = store.basic_access(user.as_str(), pass.as_str()) {
                return level;
            }
        }
    }
    if let Some(uid) = peer_uid {
        if let Some(level) = store.local_access(uid) {
            return level;
        }
    }
    IdentityAccess::Open
}

/// The caller's access level: `Admin` while the store is empty (bootstrap),
/// otherwise as resolved from the request.
pub fn caller_access(
    store: &IdentityStore,
    authorization: Option<&str>,
    peer_uid: Option<u32>,
) -> (r: IdentityAccess)
    ensures
        store.identities().len() == 0 ==> r == IdentityAccess::Admin,
        store.identities().len() > 0 ==> r == resolved_access(
            store.identities(),
            match authorization {
                Some(h) => Some(h@),
                None => None,
            },
            peer_uid,
        ),
{
    if store.is_empty() {
        IdentityAccess::Admin
    } else {
        resolve_access(store, authorization, peer_uid)
    }
}

/// The HTTP status code of a refused request.
pub const FORBIDDEN: u16 = 403;

/// The access level of the caller of the current request. Handlers call
/// `caller.require(level)?` to enforce a minimum access level.
pub struct Caller(pub IdentityAccess);

impl Caller {
    /// `Err((403, "forbidden"))` if this caller's access level is below `needed`.
    pub fn require(self, needed: IdentityAccess) -> (r: Result<(), (u16, &'static str)>)
        ensures
            r is Ok <==> access_rank(self.0) >= access_rank(needed),
            r matches Err(e) ==> e.0 == FORBIDDEN && e.1@ == "forbidden"@,
    {
        if self.0.at_least(needed) {
            Ok(())
        } else {
            Err((FORBIDDEN, "forbidden"))
        }
    }
}

/// A caller that passes a requirement also passes it with any more
/// permissive level; `Admin` passes every requirement, and every caller
/// passes `Open`.
pub proof fn law_require_monotone(have: IdentityAccess, more: IdentityAccess, needed: IdentityAccess)
    requires
        access_rank(have) >= access_rank(needed),
        access_rank(more) >= access_rank(have),
    ensures
        access_rank(more) >= access_rank(needed),
        access_rank(IdentityAccess::Admin) >= access_rank(needed),
        access_rank(have) >= access_rank(IdentityAccess::Open),
{
}

proof fn lemma_first_index(s: Seq<char>, c: char)
    ensures
        first_index(s, c) matches Some(k) ==> 0 <= k < s.len() && s[k] == c && forall|j: int| 0 <= j < k ==> s[j] != c,
        first_index(s, c) is None ==> forall|j: int| 0 <= j < s.len() ==> s[j] != c,
    decreases s.len(),
{
    if s.len() > 0 {
        let pre = s.drop_last();
        lemma_first_index(pre, c);
        assert forall|j: int| 0 <= j < pre.len() implies pre[j] == s[j] by {}
    }
}

/// Well-formed HTTP Basic credentials are the header `Basic ` followed by the
/// base64 (surrounding whitespace ignored) of UTF-8 text `user:password`, the
/// user name holding no `:`; a header of that form always yields them.
pub proof fn law_basic_credentials_split(header: Seq<char>)
    ensures
        basic_credentials(header) matches Some(c) ==> {
            &&& header.len() >= 6 && header.take(6) == seq!['B', 'a', 's', 'i', 'c', ' ']
            &&& base64_decoded(trim(header.skip(6))) matches Some(b) && valid_utf8(b) && decode_utf8(b) == c.0
                + seq![':'] + c.1
            &&& !c.0.contains(':')
        },
        (header.len() >= 6 && header.take(6) == seq!['B', 'a', 's', 'i', 'c', ' '] && (base64_decoded(
            trim(header.skip(6)),
        ) matches Some(b) && valid_utf8(b) && decode_utf8(b).contains(':'))) ==> basic_credentials(header) is Some,
{
    if header.len() >= 6 && header.take(6) == basic_prefix() {
        if let Some(bytes) = base64_decoded(trim(header.skip(6))) {
            if valid_utf8(bytes) {
                let cred = decode_utf8(bytes);
                lemma_first_index(cred, ':');
                if let Some(k) = first_index(cred, ':') {
                    assert(cred =~= cred.take(k) + seq![':'] + cred.skip(k + 1));
                    if cred.take(k).contains(':') {
                        let j = choose|j: int| 0 <= j < k && cred.take(k)[j] == ':';
                        assert(cred[j] == ':');
                    }
                } else {
                    if cred.contains(':') {
                        let j = choose|j: int| 0 <= j < cred.len() && cred[j] == ':';
                    }
                }
            }
        }
    }
}

/// The level that the Basic credentials of a header grant, if it holds
/// well-formed ones that an identity accepts.
pub open spec fn basic_grant(ids: Seq<IdentityView>, header: Option<Seq<char>>) -> Option<IdentityAccess> {
    match header {
        Some(h) => match basic_credentials(h) {
            Some(c) => basic_level(ids, c.0, c.1),
            None => None,
        },
        None => None,
    }
}

/// The level of a request: Basic credentials that an identity accepts give
/// that identity's level; failing that, a Unix peer that some local identity
/// admits gets the most permissive level among those identities (one of
/// theirs, at least as permissive as each); otherwise the request is `Open`.
pub proof fn law_resolution_order(ids: Seq<IdentityView>, header: Option<Seq<char>>, peer_uid: Option<u32>)
    ensures
        ({
            let r = resolved_access(ids, header, peer_uid);
            let basic = basic_grant(ids, header);
            &&& basic matches Some(a) ==> r == a
            &&& (basic is None && peer_uid is Some && exists|i: int|
                0 <= i < ids.len() && (#[trigger] ids[i].local matches Some(u) && (u is None || u == Some(
                    peer_uid->Some_0,
                )))) ==> (forall|i: int|
                0 <= i < ids.len() && (ids[i].local matches Some(u) && (u is None || u == Some(peer_uid->Some_0)))
                    ==> access_rank(r) >= access_rank(#[trigger] ids[i].access)) && (exists|i: int|
                0 <= i < ids.len() && (ids[i].local matches Some(u) && (u is None || u == Some(peer_uid->Some_0)))
                    && #[trigger] ids[i].access == r)
            &&& (basic is None && (peer_uid is None || forall|i: int|
                0 <= i < ids.len() ==> !(#[trigger] ids[i].local matches Some(u) && (u is None || u == Some(
                    peer_uid->Some_0,
                ))))) ==> r == IdentityAccess::Open
        }),
{
    if let Some(uid) = peer_uid {
        crate::identity::law_local_access_most_permissive(ids, uid);
    }
}

} // verus!
