//! Identities of API callers and the in-memory identity store.
use vstd::prelude::*;

use crate::text::str_equal;

verus! {

/// Access level of an identity, from least to most permissive.
#[derive(Clone, Copy, Debug, PartialEq, Eq, Hash, Structural)]
pub enum IdentityAccess {
    Open,
    Metrics,
    Read,
    Write,
    Admin,
}

/// The position of `a` in the order `Open < Metrics < Read < Write < Admin`.
pub open spec fn access_rank(a: IdentityAccess) -> int {
    match a {
        IdentityAccess::Open => 0,
        IdentityAccess::Metrics => 1,
        IdentityAccess::Read => 2,
        IdentityAccess::Write => 3,
        IdentityAccess::Admin => 4,
    }
}

impl IdentityAccess {
    /// The rank of this level in the order `Open < Metrics < Read < Write < Admin`.
    pub fn rank(&self) -> (r: u8)
        ensures
            r as int == access_rank(*self),
    {
        match self {
            IdentityAccess::Open => 0,
            IdentityAccess::Metrics => 1,
            IdentityAccess::Read => 2,
            IdentityAccess::Write => 3,
            IdentityAccess::Admin => 4,
        }
    }

    /// Whether this level grants everything that `needed` grants.
    pub fn at_least(&self, needed: IdentityAccess) -> (b: bool)
        ensures
            b == (access_rank(*self) >= access_rank(needed)),
    {
        self.rank() >= needed.rank()
    }
}

/// The more permissive of two levels.
pub open spec fn max_access(a: IdentityAccess, b: IdentityAccess) -> IdentityAccess {
    if access_rank(a) >= access_rank(b) {
        a
    } else {
        b
    }
}

/// The most permissive level in `v`, or `None` for an empty `v`.
pub open spec fn most_permissive(v: Seq<IdentityAccess>) -> Option<IdentityAccess>
    decreases v.len(),
{
    if v.len() == 0 {
        None
    } else {
        match most_permissive(v.drop_last()) {
            None => Some(v.last()),
            Some(m) => Some(max_access(m, v.last())),
        }
    }
}

/// Local (Unix socket peer) credentials of an identity.
#[derive(Clone, Copy, Debug, PartialEq, Eq, Structural)]
pub struct LocalIdentity {
    /// The UID the peer must have; `None` matches any UID.
    pub user_id: Option<u32>,
}

/// HTTP Basic credentials of an identity.
#[derive(Debug)]
pub struct BasicIdentity {
    /// SHA-512 crypt hash of the password.
    pub password_hash: String,
}

/// TLS client-certificate credentials of an identity.
#[derive(Debug)]
pub struct TlsIdentity {
    /// PEM of the CA certificate(s) that must have signed the client certificate.
    pub ca_cert: String,
}

/// What is stored about an identity, apart from its name.
#[derive(Debug)]
pub struct IdentitySpec {
    pub access: IdentityAccess,
    pub local: Option<LocalIdentity>,
    pub basic: Option<BasicIdentity>,
    pub tls: Option<TlsIdentity>,
}

/// A named identity.
#[derive(Debug)]
pub struct Identity {
    pub name: String,
    pub access: IdentityAccess,
    pub local: Option<LocalIdentity>,
    pub basic: Option<BasicIdentity>,
    pub tls: Option<TlsIdentity>,
}

/// The mathematical value of an identity.
pub struct IdentityView {
    pub name: Seq<char>,
    pub access: IdentityAccess,
    pub local: Option<Option<u32>>,
    pub basic: Option<Seq<char>>,
    pub tls: Option<Seq<char>>,
}

impl View for Identity {
    type V = IdentityView;

    open spec fn view(&self) -> IdentityView {
        IdentityView {
            name: self.name@,
            access: self.access,
            local: match self.local {
                Some(l) => Some(l.user_id),
                None => None,
            },
            basic: match self.basic {
                Some(b) => Some(b.password_hash@),
                None => None,
            },
            tls: match self.tls {
                Some(t) => Some(t.ca_cert@),
                None => None,
            },
        }
    }
}

impl Identity {
    /// A copy of this identity.
    pub fn duplicate(&self) -> (r: Identity)
        ensures
            r@ == self@,
    {
        Identity {
            name: self.name.clone(),
            access: self.access,
            local: self.local,
            basic: match &self.basic {
                Some(b) => Some(BasicIdentity { password_hash: b.password_hash.clone() }),
                None => None,
            },
            tls: match &self.tls {
                Some(t) => Some(TlsIdentity { ca_cert: t.ca_cert.clone() }),
                None => None,
            },
        }
    }

    /// The identity `name` described by `spec`.
    pub fn from_spec(name: String, spec: IdentitySpec) -> (r: Identity)
        ensures
            r@ == spec_identity(name@, spec),
    {
        Identity { name, access: spec.access, local: spec.local, basic: spec.basic, tls: spec.tls }
    }
}

/// The identity named `name` with the fields of `spec`.
pub open spec fn spec_identity(name: Seq<char>, spec: IdentitySpec) -> IdentityView {
    IdentityView {
        name,
        access: spec.access,
        local: match spec.local {
            Some(l) => Some(l.user_id),
            None => None,
        },
        basic: match spec.basic {
            Some(b) => Some(b.password_hash@),
            None => None,
        },
        tls: match spec.tls {
            Some(t) => Some(t.ca_cert@),
            None => None,
        },
    }
}

/// The views of a sequence of identities.
pub open spec fn identities_view(v: Seq<Identity>) -> Seq<IdentityView> {
    v.map_values(|i: Identity| i@)
}

/// Whether no two identities of `v` share a name.
pub open spec fn names_distinct(v: Seq<IdentityView>) -> bool {
    forall|i: int, j: int| 0 <= i < j < v.len() ==> v[i].name != v[j].name
}

/// The position of the identity named `name` in `v`.
pub open spec fn index_of(v: Seq<IdentityView>, name: Seq<char>) -> Option<int>
    decreases v.len(),
{
    if v.len() == 0 {
        None
    } else if v.last().name == name {
        Some(v.len() - 1)
    } else {
        index_of(v.drop_last(), name)
    }
}

/// Whether `names` selects `name`: an empty list selects every name.
pub open spec fn selected(names: Seq<Seq<char>>, name: Seq<char>) -> bool {
    names.len() == 0 || names.contains(name)
}

/// The identities of `v` that `names` selects, in order.
pub open spec fn select_identities(v: Seq<IdentityView>, names: Seq<Seq<char>>) -> Seq<
    IdentityView,
>
    decreases v.len(),
{
    if v.len() == 0 {
        seq![]
    } else if selected(names, v.last().name) {
        select_identities(v.drop_last(), names).push(v.last())
    } else {
        select_identities(v.drop_last(), names)
    }
}

/// Whether a local identity record admits a peer with UID `uid`.
pub open spec fn local_matches(local: Option<Option<u32>>, uid: u32) -> bool {
    match local {
        Some(user_id) => user_id is None || user_id == Some(uid),
        None => false,
    }
}

/// The access levels of the identities of `v` whose local record admits `uid`.
pub open spec fn local_levels(v: Seq<IdentityView>, uid: u32) -> Seq<IdentityAccess>
    decreases v.len(),
{
    if v.len() == 0 {
        seq![]
    } else if local_matches(v.last().local, uid) {
        local_levels(v.drop_last(), uid).push(v.last().access)
    } else {
        local_levels(v.drop_last(), uid)
    }
}

/// Whether the SHA-512 crypt `hash` accepts `password`, as `sha_crypt::sha512_check`
/// decides it.
pub uninterp spec fn sha512_accepts(password: Seq<char>, hash: Seq<char>) -> bool;

/// `sha_crypt::sha512_check`: true when the crypt hash accepts the password.
/// The result is named after both arguments; the hashing itself is the crate's.
#[verifier::external_body]
fn sha512_check_password(password: &str, hash: &str) -> (ok: bool)
    ensures
        ok == sha512_accepts(password@, hash@),
{
    sha_crypt::sha512_check(password, hash).is_ok()
}

/// The access level that HTTP Basic credentials `user:password` grant in `v`.
pub open spec fn basic_level(v: Seq<IdentityView>, user: Seq<char>, password: Seq<char>) -> Option<
    IdentityAccess,
> {
    match index_of(v, user) {
        None => None,
        Some(k) => match v[k].basic {
            None => None,
            Some(hash) => if sha512_accepts(password, hash) {
                Some(v[k].access)
            } else {
                None
            },
        },
    }
}

/// In-memory identity store: identities in the order they were first added,
/// no two with the same name.
#[derive(Debug)]
pub struct IdentityStore {
    entries: Vec<Identity>,
}

impl IdentityStore {
    #[verifier::type_invariant]
    spec fn wf(self) -> bool {
        names_distinct(identities_view(self.entries@))
    }

    /// The stored identities, in order.
    pub closed spec fn identities(&self) -> Seq<IdentityView> {
        identities_view(self.entries@)
    }

    /// An empty store.
    pub fn new() -> (s: IdentityStore)
        ensures
            s.identities() == Seq::<IdentityView>::empty(),
    {
        let s = IdentityStore { entries: Vec::new() };
        proof {
            assert(identities_view(s.entries@) =~= Seq::<IdentityView>::empty());
        }
        s
    }

    /// Whether no identity is stored.
    pub fn is_empty(&self) -> (b: bool)
        ensures
            b == (self.identities().len() == 0),
    {
        self.entries.len() == 0
    }

    fn find(&self, name: &str) -> (r: Option<usize>)
        ensures
            r matches Some(k) ==> index_of(self.identities(), name@) == Some(k as int) && k
                < self.identities().len(),
            r is None ==> index_of(self.identities(), name@) is None,
    {
        let mut i = self.entries.len();
        proof {
            assert(self.identities().take(i as int) =~= self.identities());
        }
        while i > 0
            invariant
                i <= self.entries.len(),
                index_of(self.identities(), name@) == index_of(
                    self.identities().take(i as int),
                    name@,
                ),
            decreases i,
        {
            let ghost pre = self.identities().take(i as int);
            proof {
                assert(pre.drop_last() =~= self.identities().take(i - 1));
                assert(pre.last() == self.entries@[i - 1]@);
            }
            if str_equal(self.entries[i - 1].name.as_str(), name) {
                return Some(i - 1);
            }
            i = i - 1;
        }
        None
    }

    /// The identities whose names `names` lists (all of them for an empty list).
    pub fn list(&self, names: &[String]) -> (r: Vec<Identity>)
        ensures
            identities_view(r@) == select_identities(
                self.identities(),
                names@.map_values(|s: String| s@),
            ),
            identities_view(r@) == self.identities().filter(
                |v: IdentityView| names@.len() == 0 || names@.map_values(|s: String| s@).contains(v.name),
            ),
    {
        proof {
            law_list_selects(self.identities(), names@.map_values(|s: String| s@));
        }
        let ghost sel = names@.map_values(|s: String| s@);
        let mut out: Vec<Identity> = Vec::new();
        let mut i: usize = 0;
        proof {
            assert(self.identities().take(0) =~= Seq::<IdentityView>::empty());
            assert(identities_view(out@) =~= Seq::<IdentityView>::empty());
        }
        while i < self.entries.len()
            invariant
                i <= self.entries.len(),
                sel == names@.map_values(|s: String| s@),
                identities_view(out@) == select_identities(
                    self.identities().take(i as int),
                    sel,
                ),
            decreases self.entries.len() - i,
        {
            let id = &self.entries[i];
            let want = names.len() == 0 || contains_name(names, id.name.as_str());
            proof {
                assert(self.identities().take(i + 1).drop_last() =~= self.identities().take(
                    i as int,
                ));
                assert(self.identities().take(i + 1).last() == id@);
            }
            if want {
                let d = id.duplicate();
                out.push(d);
                proof {
                    assert(identities_view(out@) =~= identities_view(out@.drop_last()).push(d@));
                }
            }
            i = i + 1;
        }
        proof {
            assert(self.identities().take(self.entries.len() as int) =~= self.identities());
        }
        out
    }

    /// Add `name`, or replace the identity of that name.
    pub fn add(&mut self, name: String, spec: IdentitySpec)
        ensures
            ({
                let before = old(self).identities();
                let after = final(self).identities();
                let new_id = spec_identity(name@, spec);
                match index_of(before, name@) {
                    Some(k) => after == before.update(k, new_id),
                    None => after == before.push(new_id),
                }
            }),
    {
        proof {
            use_type_invariant(&*self);
        }
        let k = self.find(name.as_str());
        let ghost nm = name@;
        let id = Identity::from_spec(name, spec);
        match k {
            Some(k) => {
                proof {
                    lemma_index_of_found(self.identities(), nm);
                }
                let ghost before = self.entries@;
                let mut entries: Vec<Identity> = Vec::new();
                    std::mem::swap(&mut entries, &mut self.entries);
                entries.set(k, id);
                proof {
                    assert(identities_view(entries@) =~= identities_view(before).update(
                        k as int,
                        spec_identity(nm, spec),
                    ));
                }
                self.entries = entries;
            },
            None => {
                proof {
                    lemma_index_of_absent(self.identities(), nm);
                }
                let ghost before = self.entries@;
                let mut entries: Vec<Identity> = Vec::new();
                    std::mem::swap(&mut entries, &mut self.entries);
                entries.push(id);
                proof {
                    assert(identities_view(entries@) =~= identities_view(before).push(
                        spec_identity(nm, spec),
                    ));
                }
                self.entries = entries;
            },
        }
    }

    /// Remove the identities named in `names`; returns the names that were
    /// present, in the order of `names`.
    pub fn remove(&mut self, names: &[String]) -> (removed: Vec<String>)
        ensures
            ({
                let r = remove_all(old(self).identities(), names@.map_values(|s: String| s@));
                &&& final(self).identities() == r.0
                &&& removed@.map_values(|s: String| s@) == r.1
            }),
            forall|i: int|
                0 <= i < old(self).identities().len() ==> (final(self).identities().contains(
                    #[trigger] old(self).identities()[i],
                ) <==> !names@.map_values(|s: String| s@).contains(old(self).identities()[i].name)),
            forall|x: IdentityView| #[trigger] final(self).identities().contains(x) ==> old(self).identities().contains(x),
            forall|m: Seq<char>|
                #[trigger] crate::text::strings_view(removed@).contains(m) <==> crate::text::strings_view(names@).contains(m)
                    && exists|i: int| 0 <= i < old(self).identities().len() && old(self).identities()[i].name == m,
    {
        proof {
            use_type_invariant(&*self);
            law_remove_by_names(self.identities(), names@.map_values(|s: String| s@));
            assert(crate::text::strings_view(names@) =~= names@.map_values(|s: String| s@));
        }
        let ghost sel = names@.map_values(|s: String| s@);
        let ghost start = self.identities();
        let mut removed: Vec<String> = Vec::new();
        let mut i: usize = 0;
        proof {
            assert(sel.take(0) =~= Seq::<Seq<char>>::empty());
            assert(removed@.map_values(|s: String| s@) =~= Seq::<Seq<char>>::empty());
        }
        while i < names.len()
            invariant
                i <= names.len(),
                sel == names@.map_values(|s: String| s@),
                remove_all(start, sel.take(i as int)).0 == self.identities(),
                remove_all(start, sel.take(i as int)).1 == removed@.map_values(|s: String| s@),
            decreases names.len() - i,
        {
            proof {
                use_type_invariant(&*self);
                assert(sel.take(i + 1).drop_last() =~= sel.take(i as int));
                assert(sel.take(i + 1).last() == names@[i as int]@);
            }
            let ghost before_removed = removed@;
            match self.find(names[i].as_str()) {
                Some(k) => {
                    let ghost before = self.entries@;
                    let mut entries: Vec<Identity> = Vec::new();
                    std::mem::swap(&mut entries, &mut self.entries);
                    entries.remove(k);
                    proof {
                        assert(identities_view(entries@) =~= identities_view(before).remove(
                            k as int,
                        ));
                        lemma_remove_keeps_distinct(identities_view(before), k as int);
                    }
                    self.entries = entries;
                    removed.push(names[i].clone());
                    proof {
                        assert(removed@.map_values(|s: String| s@) =~= before_removed.map_values(
                            |s: String| s@,
                        ).push(names@[i as int]@));
                    }
                },
                None => {},
            }
            i = i + 1;
        }
        proof {
            assert(sel.take(names.len() as int) =~= sel);
        }
        removed
    }

    /// The most permissive level of the local identities that admit a Unix
    /// peer with UID `uid`; `None` when none does.
    pub fn local_access(&self, uid: u32) -> (r: Option<IdentityAccess>)
        ensures
            r == most_permissive(local_levels(self.identities(), uid)),
            r is Some <==> exists|i: int|
                0 <= i < self.identities().len() && (#[trigger] self.identities()[i].local matches Some(u) && (u is None
                    || u == Some(uid))),
            r matches Some(a) ==> forall|i: int|
                0 <= i < self.identities().len() && (self.identities()[i].local matches Some(u) && (u is None || u == Some(
                    uid,
                ))) ==> access_rank(a) >= access_rank(#[trigger] self.identities()[i].access),
            r matches Some(a) ==> exists|i: int|
                0 <= i < self.identities().len() && (self.identities()[i].local matches Some(u) && (u is None || u == Some(
                    uid,
                ))) && #[trigger] self.identities()[i].access == a,
    {
        let mut best: Option<IdentityAccess> = None;
        let mut i: usize = 0;
        while i < self.entries.len()
            invariant
                i <= self.entries.len(),
                best == most_permissive(local_levels(self.identities().take(i as int), uid)),
            decreases self.entries.len() - i,
        {
            let id = &self.entries[i];
            proof {
                assert(self.identities().take(i + 1).drop_last() =~= self.identities().take(
                    i as int,
                ));
                assert(self.identities().take(i + 1).last() == id@);
            }
            let admits = match &id.local {
                Some(l) => l.user_id.is_none() || l.user_id == Some(uid),
                None => false,
            };
            if admits {
                let ghost lv = local_levels(self.identities().take(i as int), uid);
                proof {
                    assert(lv.push(id.access).drop_last() =~= lv);
                }
                best = match best {
                    None => Some(id.access),
                    Some(b) => if b.at_least(id.access) {
                        Some(b)
                    } else {
                        Some(id.access)
                    },
                };
            }
            i = i + 1;
        }
        proof {
            assert(self.identities().take(self.entries.len() as int) =~= self.identities());
            law_local_access_most_permissive(self.identities(), uid);
        }
        best
    }

    /// The level that HTTP Basic credentials grant: the identity named
    /// `username` must have Basic credentials whose hash accepts `password`.
    pub fn basic_access(&self, username: &str, password: &str) -> (r: Option<IdentityAccess>)
        ensures
            r == basic_level(self.identities(), username@, password@),
            forall|a: IdentityAccess|
                r == Some(a) <==> exists|i: int|
                    0 <= i < self.identities().len() && #[trigger] self.identities()[i].name == username@
                        && (self.identities()[i].basic matches Some(h) && sha512_accepts(password@, h))
                        && self.identities()[i].access == a,
    {
        proof {
            use_type_invariant(self);
            law_basic_access(self.identities(), username@, password@);
        }
        match self.find(username) {
            None => None,
            Some(k) => {
                let id = &self.entries[k];
                match &id.basic {
                    None => None,
                    Some(b) => if sha512_check_password(password, b.password_hash.as_str()) {
                        Some(id.access)
                    } else {
                        None
                    },
                }
            },
        }
    }
}

/// Whether `names` holds `name`.
pub fn contains_name(names: &[String], name: &str) -> (b: bool)
    ensures
        b == names@.map_values(|s: String| s@).contains(name@),
{
    let ghost sel = names@.map_values(|s: String| s@);
    let mut i: usize = 0;
    while i < names.len()
        invariant
            i <= names.len(),
            sel == names@.map_values(|s: String| s@),
            forall|k: int| 0 <= k < i ==> sel[k] != name@,
        decreases names.len() - i,
    {
        if str_equal(names[i].as_str(), name) {
            assert(sel[i as int] == name@);
            return true;
        }
        i = i + 1;
    }
    false
}

/// Removing each name of `names` in turn from `v`: the identities left, and
/// the names that were present when their turn came.
pub open spec fn remove_all(v: Seq<IdentityView>, names: Seq<Seq<char>>) -> (
    Seq<IdentityView>,
    Seq<Seq<char>>,
)
    decreases names.len(),
{
    if names.len() == 0 {
        (v, seq![])
    } else {
        let prev = remove_all(v, names.drop_last());
        match index_of(prev.0, names.last()) {
            Some(k) => (prev.0.remove(k), prev.1.push(names.last())),
            None => prev,
        }
    }
}

proof fn lemma_index_of_found(v: Seq<IdentityView>, name: Seq<char>)
    requires
        index_of(v, name) is Some,
    ensures
        0 <= index_of(v, name)->0 < v.len(),
        v[index_of(v, name)->0].name == name,
    decreases v.len(),
{
    if v.last().name != name {
        lemma_index_of_found(v.drop_last(), name);
    }
}

proof fn lemma_index_of_absent(v: Seq<IdentityView>, name: Seq<char>)
    requires
        index_of(v, name) is None,
    ensures
        forall|i: int| 0 <= i < v.len() ==> v[i].name != name,
    decreases v.len(),
{
    if v.len() > 0 {
        lemma_index_of_absent(v.drop_last(), name);
        assert forall|i: int| 0 <= i < v.len() implies v[i].name != name by {
            if i < v.len() - 1 {
                assert(v[i] == v.drop_last()[i]);
            }
        }
    }
}

proof fn lemma_remove_keeps_distinct(v: Seq<IdentityView>, k: int)
    requires
        names_distinct(v),
        0 <= k < v.len(),
    ensures
        names_distinct(v.remove(k)),
{
    let r = v.remove(k);
    assert forall|i: int, j: int| 0 <= i < j < r.len() implies r[i].name != r[j].name by {
        let a = if i < k { i } else { i + 1 };
        let b = if j < k { j } else { j + 1 };
        assert(r[i] == v[a]);
        assert(r[j] == v[b]);
    }
}


// ---------------------------------------------------------------------------
// TLS client certificates
// ---------------------------------------------------------------------------

#[verifier::external_type_specification]
#[verifier::external_body]
pub struct ExRootCertStore(rustls::RootCertStore);

/// The DER certificates that `rustls_pemfile::certs` reads from the PEM text
/// `pem`, or `None` when it reports an error.
pub uninterp spec fn pem_certificates(pem: Seq<char>) -> Option<Seq<Seq<u8>>>;

/// `rustls_pemfile::certs` over the bytes of `pem`, collected: the
/// certificates' DER bytes, or `None` on a read error. The result is named
/// after the PEM text; the PEM grammar is the crate's.
#[verifier::external_body]
fn pem_certificate_ders(pem: &str) -> (r: Option<Vec<Vec<u8>>>)
    ensures
        r matches Some(v) ==> pem_certificates(pem@) == Some(v@.map_values(|d: Vec<u8>| d@)),
        r is None ==> pem_certificates(pem@) is None,
{
    rustls_pemfile::certs(&mut pem.as_bytes())
        .collect::<Result<Vec<_>, _>>()
        .ok()
        .map(|v| v.into_iter().map(|c| c.to_vec()).collect())
}

/// Whether `rustls::RootCertStore::add` accepts the DER bytes `der` as a
/// trust anchor.
pub uninterp spec fn trust_anchor_accepted(der: Seq<u8>) -> bool;

/// A trust anchor: subject, subject public key info and name constraints.
pub type AnchorView = (Seq<u8>, Seq<u8>, Option<Seq<u8>>);

/// The trust anchor that `rustls::RootCertStore::add` makes of the DER
/// certificate `der` (when it accepts it).
pub uninterp spec fn anchor_of(der: Seq<u8>) -> AnchorView;

/// The trust anchors a `RootCertStore` holds (its `roots`), in order.
pub uninterp spec fn trust_anchors(s: rustls::RootCertStore) -> Seq<AnchorView>;

/// No trust anchor.
pub open spec fn no_anchors() -> Seq<AnchorView> {
    Seq::empty()
}

/// `rustls::RootCertStore::empty`: a store with no trust anchor.
#[verifier::external_body]
fn root_store_empty() -> (s: rustls::RootCertStore)
    ensures
        trust_anchors(s) == no_anchors(),
{
    rustls::RootCertStore::empty()
}

/// `rustls::RootCertStore::add`: true when `der` was accepted as a trust
/// anchor (named after `der`); the anchor made of it is then appended to the
/// store's roots, and on refusal the store is unchanged.
#[verifier::external_body]
fn root_store_add(store: &mut rustls::RootCertStore, der: &Vec<u8>) -> (ok: bool)
    ensures
        ok == trust_anchor_accepted(der@),
        ok ==> trust_anchors(*final(store)) == trust_anchors(*old(store)).push(anchor_of(der@)),
        !ok ==> trust_anchors(*final(store)) == trust_anchors(*old(store)),
{
    store.add(rustls::pki_types::CertificateDer::from(der.clone())).is_ok()
}

/// Whether a `rustls::server::WebPkiClientVerifier` (ring provider, default
/// options) over the trust anchors `anchors` accepts the end-entity
/// certificate `cert`, with no intermediates, at `now_secs` seconds since the
/// Unix epoch.
pub uninterp spec fn client_cert_verifies(anchors: Seq<AnchorView>, cert: Seq<u8>, now_secs: u64) -> bool;

/// `rustls::pki_types::UnixTime::now`: the current time, in whole seconds
/// since the Unix epoch. It depends on the clock, so nothing is stated.
#[verifier::external_body]
fn unix_now_secs() -> u64 {
    rustls::pki_types::UnixTime::now().as_secs()
}

/// `WebPkiClientVerifier::builder_with_provider` (ring provider) over `store`,
/// built, then `verify_client_cert` of `cert_der` (no intermediates) at
/// `UnixTime::since_unix_epoch(Duration::from_secs(now_secs))`: named after the
/// store's anchors, the certificate and the time. With at least one anchor the
/// build does not fail.
#[verifier::external_body]
fn verify_client_cert_at(store: rustls::RootCertStore, cert_der: &[u8], now_secs: u64) -> (b: bool)
    requires
        trust_anchors(store).len() > 0,
    ensures
        b == client_cert_verifies(trust_anchors(store), cert_der@, now_secs),
{
    let provider = std::sync::Arc::new(rustls::crypto::ring::default_provider());
    match rustls::server::WebPkiClientVerifier::builder_with_provider(std::sync::Arc::new(store), provider).build() {
        Ok(verifier) => verifier
            .verify_client_cert(
                &rustls::pki_types::CertificateDer::from(cert_der.to_vec()),
                &[],
                rustls::pki_types::UnixTime::since_unix_epoch(std::time::Duration::from_secs(now_secs)),
            )
            .is_ok(),
        Err(_) => false,
    }
}

/// Whether the CA PEM `ca_pem` can serve as a root set: it reads into at
/// least one certificate and each is accepted as a trust anchor.
pub open spec fn usable_ca(ca_pem: Seq<char>) -> bool {
    match pem_certificates(ca_pem) {
        Some(ders) => ders.len() > 0 && forall|i: int| 0 <= i < ders.len() ==> #[trigger] trust_anchor_accepted(ders[i]),
        None => false,
    }
}

/// A root store holding the anchors of all of `ders`, in order, or `None`
/// when one of them is refused as a trust anchor.
pub fn build_roots(ders: &Vec<Vec<u8>>) -> (r: Option<rustls::RootCertStore>)
    ensures
        r is Some <==> (forall|k: int| 0 <= k < ders.len() ==> #[trigger] trust_anchor_accepted(ders@[k]@)),
        r matches Some(s) ==> trust_anchors(s) == ders@.map_values(|d: Vec<u8>| anchor_of(d@)),
{
    let mut roots = root_store_empty();
    let mut i: usize = 0;
    while i < ders.len()
        invariant
            i <= ders.len(),
            forall|k: int| 0 <= k < i ==> #[trigger] trust_anchor_accepted(ders@[k]@),
            trust_anchors(roots) == ders@.take(i as int).map_values(|d: Vec<u8>| anchor_of(d@)),
        decreases ders.len() - i,
    {
        if !root_store_add(&mut roots, &ders[i]) {
            return None;
        }
        proof {
            assert(ders@.take(i + 1).map_values(|d: Vec<u8>| anchor_of(d@)) =~= ders@.take(i as int).map_values(
                |d: Vec<u8>| anchor_of(d@),
            ).push(anchor_of(ders@[i as int]@)));
        }
        i = i + 1;
    }
    proof {
        assert(ders@.take(ders.len() as int) =~= ders@);
    }
    Some(roots)
}

/// The trust anchors made of the certificates of the CA PEM `ca_pem`.
pub open spec fn ca_anchors(ca_pem: Seq<char>) -> Seq<AnchorView> {
    match pem_certificates(ca_pem) {
        Some(ders) => ders.map_values(|d: Seq<u8>| anchor_of(d)),
        None => seq![],
    }
}

/// Whether the CA PEM `ca_pem` accepts the client certificate `cert` at
/// `now_secs`: it is a usable root set and the verifier over its anchors
/// accepts the certificate at that time.
pub open spec fn ca_verifies_at(ca_pem: Seq<char>, cert: Seq<u8>, now_secs: u64) -> bool {
    usable_ca(ca_pem) && client_cert_verifies(ca_anchors(ca_pem), cert, now_secs)
}

/// Whether `cert_der` is a valid end-entity certificate signed by one of the
/// CA certificates in `ca_pem` (PEM, may be a chain), at `now_secs` seconds
/// since the Unix epoch. `false` whenever the PEM does not read into a usable
/// root set.
pub fn verify_cert_against_ca_at(cert_der: &[u8], ca_pem: &str, now_secs: u64) -> (r: bool)
    ensures
        r == ca_verifies_at(ca_pem@, cert_der@, now_secs),
{
    let ders = match pem_certificate_ders(ca_pem) {
        Some(d) => d,
        None => {
            return false;
        },
    };
    if ders.len() == 0 {
        return false;
    }
    let ghost v = ders@.map_values(|d: Vec<u8>| d@);
    let roots = match build_roots(&ders) {
        Some(r) => r,
        None => {
            proof {
                let k = choose|k: int| 0 <= k < ders.len() && !trust_anchor_accepted(#[trigger] ders@[k]@);
                assert(v[k] == ders@[k]@);
            }
            return false;
        },
    };
    proof {
        assert forall|k: int| 0 <= k < v.len() implies #[trigger] trust_anchor_accepted(v[k]) by {
            assert(v[k] == ders@[k]@);
        }
        assert(v.map_values(|d: Seq<u8>| anchor_of(d)) =~= ders@.map_values(|d: Vec<u8>| anchor_of(d@)));
    }
    verify_client_cert_at(roots, cert_der, now_secs)
}

/// Returns `true` if `cert_der` is a valid end-entity certificate that was
/// signed by one of the CA certificates in `ca_pem` (PEM, may be a chain), at
/// the current time (read once from the clock).
pub fn verify_cert_against_ca(cert_der: &[u8], ca_pem: &str) -> (r: bool)
    ensures
        exists|t: u64| r == ca_verifies_at(ca_pem@, cert_der@, t),
{
    let now = unix_now_secs();
    verify_cert_against_ca_at(cert_der, ca_pem, now)
}

/// The levels of the identities of `v` that have TLS credentials and for
/// which `matched` reports a successful verification.
pub open spec fn tls_levels(v: Seq<IdentityView>, matched: Seq<bool>) -> Seq<IdentityAccess>
    decreases v.len(),
{
    if v.len() == 0 {
        seq![]
    } else if v.last().tls is Some && matched[v.len() - 1] {
        tls_levels(v.drop_last(), matched).push(v.last().access)
    } else {
        tls_levels(v.drop_last(), matched)
    }
}

impl IdentityStore {
    /// The most permissive level among the identities with TLS credentials
    /// whose verification outcome in `matched` (one per stored identity, in
    /// order) is `true`.
    pub fn tls_access_from(&self, matched: &Vec<bool>) -> (r: Option<IdentityAccess>)
        requires
            matched.len() == self.identities().len(),
        ensures
            r == most_permissive(tls_levels(self.identities(), matched@)),
            r is Some <==> exists|i: int|
                0 <= i < self.identities().len() && #[trigger] self.identities()[i].tls is Some && matched@[i],
            r matches Some(a) ==> forall|i: int|
                0 <= i < self.identities().len() && self.identities()[i].tls is Some && matched@[i] ==> access_rank(a)
                    >= access_rank(#[trigger] self.identities()[i].access),
            r matches Some(a) ==> exists|i: int|
                0 <= i < self.identities().len() && self.identities()[i].tls is Some && matched@[i]
                    && #[trigger] self.identities()[i].access == a,
    {
        proof {
            law_tls_access_most_permissive(self.identities(), matched@);
        }
        let mut best: Option<IdentityAccess> = None;
        let mut i: usize = 0;
        while i < self.entries.len()
            invariant
                i <= self.entries.len(),
                matched.len() == self.entries.len(),
                best == most_permissive(tls_levels(self.identities().take(i as int), matched@)),
            decreases self.entries.len() - i,
        {
            let id = &self.entries[i];
            let ghost pre = self.identities().take(i as int);
            proof {
                assert(self.identities().take(i + 1).drop_last() =~= pre);
                assert(self.identities().take(i + 1).last() == id@);
                lemma_tls_levels_prefix(pre, matched@, matched@.take(i as int));
                lemma_tls_levels_prefix(self.identities().take(i + 1), matched@, matched@.take(i + 1));
            }
            if id.tls.is_some() && matched[i] {
                let ghost lv = tls_levels(pre, matched@);
                proof {
                    assert(lv.push(id.access).drop_last() =~= lv);
                }
                best = match best {
                    None => Some(id.access),
                    Some(b) => if b.at_least(id.access) {
                        Some(b)
                    } else {
                        Some(id.access)
                    },
                };
            }
            i = i + 1;
        }
        proof {
            assert(self.identities().take(self.entries.len() as int) =~= self.identities());
        }
        best
    }

    /// Verify a TLS client certificate at `now_secs` against all registered
    /// TLS identities and return the most-permissive matching access level,
    /// or `None` if no identity's CA accepts the certificate.
    pub fn tls_access_at(&self, cert_der: &[u8], now_secs: u64) -> (r: Option<IdentityAccess>)
        ensures
            r == most_permissive(tls_levels(self.identities(), tls_matches_at(self.identities(), cert_der@, now_secs))),
            r is Some <==> exists|i: int|
                0 <= i < self.identities().len() && (#[trigger] self.identities()[i].tls matches Some(ca)
                    && ca_verifies_at(ca, cert_der@, now_secs)),
            r matches Some(a) ==> forall|i: int|
                0 <= i < self.identities().len() && (self.identities()[i].tls matches Some(ca) && ca_verifies_at(
                    ca,
                    cert_der@,
                    now_secs,
                )) ==> access_rank(a) >= access_rank(#[trigger] self.identities()[i].access),
            r matches Some(a) ==> exists|i: int|
                0 <= i < self.identities().len() && (self.identities()[i].tls matches Some(ca) && ca_verifies_at(
                    ca,
                    cert_der@,
                    now_secs,
                )) && #[trigger] self.identities()[i].access == a,
    {
        proof {
            let ids = self.identities();
            let m = tls_matches_at(ids, cert_der@, now_secs);
            law_tls_access_most_permissive(ids, m);
            assert forall|i: int| 0 <= i < ids.len() implies (ids[i].tls is Some && #[trigger] m[i]) == (ids[i].tls matches Some(
                ca,
            ) && ca_verifies_at(ca, cert_der@, now_secs)) by {}
        }
        let mut matched: Vec<bool> = Vec::new();
        let ghost ids = self.identities();
        let mut i: usize = 0;
        while i < self.entries.len()
            invariant
                i <= self.entries.len(),
                ids == self.identities(),
                matched@ == tls_matches_at(ids, cert_der@, now_secs).take(i as int),
            decreases self.entries.len() - i,
        {
            let id = &self.entries[i];
            proof {
                assert(ids[i as int] == id@);
            }
            let ok = match &id.tls {
                Some(t) => verify_cert_against_ca_at(cert_der, t.ca_cert.as_str(), now_secs),
                None => false,
            };
            matched.push(ok);
            proof {
                assert(matched@ =~= tls_matches_at(ids, cert_der@, now_secs).take(i + 1));
            }
            i = i + 1;
        }
        proof {
            assert(matched@ =~= tls_matches_at(ids, cert_der@, now_secs));
        }
        self.tls_access_from(&matched)
    }

    /// Verify a TLS client certificate against all registered TLS identities,
    /// at the current time (read once from the clock), and return the
    /// most-permissive matching access level, or `None` if no identity's CA
    /// accepts the certificate.
    pub fn tls_access(&self, cert_der: &[u8]) -> (r: Option<IdentityAccess>)
        ensures
            exists|t: u64| r == most_permissive(tls_levels(self.identities(), tls_matches_at(self.identities(), cert_der@, t))),
    {
        let now = unix_now_secs();
        self.tls_access_at(cert_der, now)
    }
}

/// For each identity of `v`, whether it has TLS credentials whose CA accepts
/// `cert` at `now_secs`.
pub open spec fn tls_matches_at(v: Seq<IdentityView>, cert: Seq<u8>, now_secs: u64) -> Seq<bool> {
    Seq::new(
        v.len(),
        |i: int|
            match v[i].tls {
                Some(ca) => ca_verifies_at(ca, cert, now_secs),
                None => false,
            },
    )
}

proof fn lemma_tls_levels_prefix(v: Seq<IdentityView>, m1: Seq<bool>, m2: Seq<bool>)
    requires
        m1.len() >= v.len(),
        m2.len() >= v.len(),
        forall|k: int| 0 <= k < v.len() ==> m1[k] == m2[k],
    ensures
        tls_levels(v, m1) == tls_levels(v, m2),
    decreases v.len(),
{
    if v.len() > 0 {
        lemma_tls_levels_prefix(v.drop_last(), m1, m2);
    }
}

} // verus!

verus! {

proof fn lemma_most_permissive(v: Seq<IdentityAccess>)
    ensures
        most_permissive(v) is None <==> v.len() == 0,
        most_permissive(v) matches Some(m) ==> v.contains(m),
        most_permissive(v) matches Some(m) ==> forall|i: int| 0 <= i < v.len() ==> access_rank(m) >= access_rank(#[trigger] v[i]),
    decreases v.len(),
{
    if v.len() > 0 {
        let pre = v.drop_last();
        lemma_most_permissive(pre);
        match most_permissive(pre) {
            None => {
                assert(v[v.len() - 1] == v.last());
            },
            Some(m) => {
                let m2 = max_access(m, v.last());
                assert forall|i: int| 0 <= i < v.len() implies access_rank(m2) >= access_rank(#[trigger] v[i]) by {
                    if i < v.len() - 1 {
                        assert(v[i] == pre[i]);
                    }
                }
                if m2 == m {
                    let k = choose|k: int| 0 <= k < pre.len() && pre[k] == m;
                    assert(v[k] == m);
                } else {
                    assert(v[v.len() - 1] == v.last());
                }
            },
        }
    }
}

proof fn lemma_local_levels(v: Seq<IdentityView>, uid: u32)
    ensures
        forall|i: int|
            0 <= i < v.len() && (v[i].local matches Some(u) && (u is None || u == Some(uid))) ==> local_levels(
                v,
                uid,
            ).contains(#[trigger] v[i].access),
        forall|a: IdentityAccess|
            local_levels(v, uid).contains(a) ==> exists|i: int|
                0 <= i < v.len() && (v[i].local matches Some(u) && (u is None || u == Some(uid))) && #[trigger] v[i].access
                    == a,
    decreases v.len(),
{
    if v.len() > 0 {
        let pre = v.drop_last();
        lemma_local_levels(pre, uid);
        let lp = local_levels(pre, uid);
        assert forall|i: int|
            0 <= i < v.len() && (v[i].local matches Some(u) && (u is None || u == Some(uid))) implies local_levels(
                v,
                uid,
            ).contains(#[trigger] v[i].access) by {
            if i < v.len() - 1 {
                assert(v[i] == pre[i]);
                let k = choose|k: int| 0 <= k < lp.len() && lp[k] == pre[i].access;
                if local_matches(v.last().local, uid) {
                    assert(lp.push(v.last().access)[k] == lp[k]);
                }
            } else {
                assert(lp.push(v.last().access)[lp.len() as int] == v.last().access);
            }
        }
        assert forall|a: IdentityAccess| local_levels(v, uid).contains(a) implies exists|i: int|
            0 <= i < v.len() && (v[i].local matches Some(u) && (u is None || u == Some(uid))) && #[trigger] v[i].access
                == a by {
            let lv = local_levels(v, uid);
            let k = choose|k: int| 0 <= k < lv.len() && lv[k] == a;
            if local_matches(v.last().local, uid) && k == lp.len() {
                assert(v[v.len() - 1] == v.last());
            } else {
                if local_matches(v.last().local, uid) {
                    assert(lv[k] == lp[k]);
                }
                assert(lp.contains(a));
                let i = choose|i: int|
                    0 <= i < pre.len() && (pre[i].local matches Some(u) && (u is None || u == Some(uid)))
                        && #[trigger] pre[i].access == a;
                assert(v[i] == pre[i]);
            }
        }
    }
}

/// The level a local peer with `uid` gets is the most permissive among the
/// identities whose local record admits it (any uid, or exactly `uid`): there
/// is one exactly when some identity admits `uid`, it is at least as
/// permissive as each of them, and it is the level of one of them.
pub proof fn law_local_access_most_permissive(ids: Seq<IdentityView>, uid: u32)
    ensures
        ({
            let r = most_permissive(local_levels(ids, uid));
            &&& r is Some <==> exists|i: int|
                0 <= i < ids.len() && (#[trigger] ids[i].local matches Some(u) && (u is None || u == Some(uid)))
            &&& r matches Some(a) ==> forall|i: int|
                0 <= i < ids.len() && (ids[i].local matches Some(u) && (u is None || u == Some(uid))) ==> access_rank(a)
                    >= access_rank(#[trigger] ids[i].access)
            &&& r matches Some(a) ==> exists|i: int|
                0 <= i < ids.len() && (ids[i].local matches Some(u) && (u is None || u == Some(uid))) && #[trigger] ids[i].access
                    == a
        }),
{
    let lv = local_levels(ids, uid);
    lemma_local_levels(ids, uid);
    lemma_most_permissive(lv);
    let r = most_permissive(lv);
    if exists|i: int| 0 <= i < ids.len() && (#[trigger] ids[i].local matches Some(u) && (u is None || u == Some(uid))) {
        let i = choose|i: int| 0 <= i < ids.len() && (#[trigger] ids[i].local matches Some(u) && (u is None || u == Some(uid)));
        assert(lv.contains(ids[i].access));
    }
    if r is Some {
        let a = r->Some_0;
        assert(lv.contains(a));
        assert forall|i: int|
            0 <= i < ids.len() && (ids[i].local matches Some(u) && (u is None || u == Some(uid))) implies access_rank(a)
                >= access_rank(#[trigger] ids[i].access) by {
            assert(lv.contains(ids[i].access));
            let k = choose|k: int| 0 <= k < lv.len() && lv[k] == ids[i].access;
        }
    }
}

proof fn lemma_tls_levels(v: Seq<IdentityView>, m: Seq<bool>)
    requires
        m.len() == v.len(),
    ensures
        forall|i: int|
            0 <= i < v.len() && v[i].tls is Some && m[i] ==> tls_levels(v, m).contains(#[trigger] v[i].access),
        forall|a: IdentityAccess|
            tls_levels(v, m).contains(a) ==> exists|i: int|
                0 <= i < v.len() && v[i].tls is Some && m[i] && #[trigger] v[i].access == a,
    decreases v.len(),
{
    if v.len() > 0 {
        let pre = v.drop_last();
        let mp = m.drop_last();
        lemma_tls_levels_prefix(pre, m, mp);
        lemma_tls_levels(pre, mp);
        let lp = tls_levels(pre, m);
        let here = v.last().tls is Some && m[v.len() - 1];
        assert forall|i: int|
            0 <= i < v.len() && v[i].tls is Some && m[i] implies tls_levels(v, m).contains(#[trigger] v[i].access) by {
            if i < v.len() - 1 {
                assert(v[i] == pre[i]);
                assert(mp[i] == m[i]);
                let k = choose|k: int| 0 <= k < lp.len() && lp[k] == pre[i].access;
                if here {
                    assert(lp.push(v.last().access)[k] == lp[k]);
                }
            } else {
                assert(lp.push(v.last().access)[lp.len() as int] == v.last().access);
            }
        }
        assert forall|a: IdentityAccess| tls_levels(v, m).contains(a) implies exists|i: int|
            0 <= i < v.len() && v[i].tls is Some && m[i] && #[trigger] v[i].access == a by {
            let lv = tls_levels(v, m);
            let k = choose|k: int| 0 <= k < lv.len() && lv[k] == a;
            if here && k == lp.len() {
                assert(v[v.len() - 1] == v.last());
            } else {
                if here {
                    assert(lv[k] == lp[k]);
                }
                assert(lp.contains(a));
                let i = choose|i: int| 0 <= i < pre.len() && pre[i].tls is Some && mp[i] && #[trigger] pre[i].access == a;
                assert(v[i] == pre[i]);
                assert(m[i] == mp[i]);
            }
        }
    }
}

/// The level a verified client certificate gets is the most permissive among
/// the identities with TLS credentials whose verification succeeded: there is
/// one exactly when some such identity exists, it is at least as permissive
/// as each of them, and it is the level of one of them.
pub proof fn law_tls_access_most_permissive(ids: Seq<IdentityView>, matched: Seq<bool>)
    requires
        matched.len() == ids.len(),
    ensures
        ({
            let r = most_permissive(tls_levels(ids, matched));
            &&& r is Some <==> exists|i: int| 0 <= i < ids.len() && #[trigger] ids[i].tls is Some && matched[i]
            &&& r matches Some(a) ==> forall|i: int|
                0 <= i < ids.len() && ids[i].tls is Some && matched[i] ==> access_rank(a) >= access_rank(
                    #[trigger] ids[i].access,
                )
            &&& r matches Some(a) ==> exists|i: int|
                0 <= i < ids.len() && ids[i].tls is Some && matched[i] && #[trigger] ids[i].access == a
        }),
{
    let lv = tls_levels(ids, matched);
    lemma_tls_levels(ids, matched);
    lemma_most_permissive(lv);
    let r = most_permissive(lv);
    if exists|i: int| 0 <= i < ids.len() && #[trigger] ids[i].tls is Some && matched[i] {
        let i = choose|i: int| 0 <= i < ids.len() && #[trigger] ids[i].tls is Some && matched[i];
        assert(lv.contains(ids[i].access));
    }
    if r is Some {
        let a = r->Some_0;
        assert(lv.contains(a));
        assert forall|i: int|
            0 <= i < ids.len() && ids[i].tls is Some && matched[i] implies access_rank(a) >= access_rank(
                #[trigger] ids[i].access,
            ) by {
            assert(lv.contains(ids[i].access));
            let k = choose|k: int| 0 <= k < lv.len() && lv[k] == ids[i].access;
        }
    }
}

/// HTTP Basic credentials grant a level exactly when an identity with that
/// user name has Basic credentials whose hash accepts the password, and then
/// they grant that identity's level.
pub proof fn law_basic_access(ids: Seq<IdentityView>, user: Seq<char>, password: Seq<char>)
    requires
        names_distinct(ids),
    ensures
        forall|a: IdentityAccess|
            basic_level(ids, user, password) == Some(a) <==> exists|i: int|
                0 <= i < ids.len() && #[trigger] ids[i].name == user && (ids[i].basic matches Some(h) && sha512_accepts(
                    password,
                    h,
                )) && ids[i].access == a,
{
    match index_of(ids, user) {
        None => {
            lemma_index_of_absent(ids, user);
        },
        Some(k) => {
            lemma_index_of_found(ids, user);
            assert forall|a: IdentityAccess|
                (exists|i: int|
                    0 <= i < ids.len() && #[trigger] ids[i].name == user && (ids[i].basic matches Some(h)
                        && sha512_accepts(password, h)) && ids[i].access == a) implies basic_level(ids, user, password)
                == Some(a) by {
                {
                    let i = choose|i: int|
                        0 <= i < ids.len() && #[trigger] ids[i].name == user && (ids[i].basic matches Some(h)
                            && sha512_accepts(password, h)) && ids[i].access == a;
                    if i < k {
                        assert(ids[i].name != ids[k].name);
                    } else if i > k {
                        assert(ids[k].name != ids[i].name);
                    }
                }
            }
        },
    }
}

/// Listing by a name list gives the stored identities that it names, or all
/// of them when it names none, in the order they were added.
pub proof fn law_list_selects(ids: Seq<IdentityView>, names: Seq<Seq<char>>)
    ensures
        select_identities(ids, names) == ids.filter(|v: IdentityView| names.len() == 0 || names.contains(v.name)),
    decreases ids.len(),
{
    reveal(Seq::filter);
    if ids.len() > 0 {
        law_list_selects(ids.drop_last(), names);
    }
}

/// Removing by a name list keeps exactly the identities whose names it does
/// not list (each of them once more in the store, nothing new), and reports
/// exactly the listed names that a stored identity had.
pub proof fn law_remove_by_names(v: Seq<IdentityView>, names: Seq<Seq<char>>)
    requires
        names_distinct(v),
    ensures
        ({
            let (left, removed) = remove_all(v, names);
            &&& names_distinct(left)
            &&& forall|i: int| 0 <= i < v.len() ==> (left.contains(#[trigger] v[i]) <==> !names.contains(v[i].name))
            &&& forall|x: IdentityView| #[trigger] left.contains(x) ==> v.contains(x)
            &&& forall|m: Seq<char>|
                #[trigger] removed.contains(m) <==> names.contains(m) && exists|i: int| 0 <= i < v.len() && v[i].name == m
        }),
    decreases names.len(),
{
    let (left, removed) = remove_all(v, names);
    if names.len() == 0 {
        assert forall|i: int| 0 <= i < v.len() implies left.contains(#[trigger] v[i]) by {}
    } else {
        let p = names.drop_last();
        let n = names.last();
        law_remove_by_names(v, p);
        let (l0, r0) = remove_all(v, p);
        assert(names[names.len() - 1] == n);
        assert forall|m: Seq<char>| names.contains(m) <==> (p.contains(m) || m == n) by {
            if names.contains(m) {
                let j = choose|j: int| 0 <= j < names.len() && names[j] == m;
                if j < p.len() {
                    assert(p[j] == m);
                }
            }
            if p.contains(m) {
                let j = choose|j: int| 0 <= j < p.len() && p[j] == m;
                assert(names[j] == m);
            }
        }
        match index_of(l0, n) {
            Some(k) => {
                lemma_index_of_found(l0, n);
                lemma_remove_keeps_distinct(l0, k);
                assert(left == l0.remove(k));
                assert(removed == r0.push(n));
                assert forall|x: IdentityView| left.contains(x) <==> (l0.contains(x) && x.name != n) by {
                    if left.contains(x) {
                        let j = choose|j: int| 0 <= j < left.len() && left[j] == x;
                        let a = if j < k { j } else { j + 1 };
                        assert(left[j] == l0[a]);
                        assert(a != k);
                        if x.name == n {
                            if a < k {
                                assert(l0[a].name != l0[k].name);
                            } else {
                                assert(l0[k].name != l0[a].name);
                            }
                        }
                    }
                    if l0.contains(x) && x.name != n {
                        let a = choose|a: int| 0 <= a < l0.len() && l0[a] == x;
                        assert(a != k);
                        let j = if a < k { a } else { a - 1 };
                        assert(left[j] == l0[a]);
                    }
                }
                assert forall|i: int| 0 <= i < v.len() implies (left.contains(#[trigger] v[i]) <==> !names.contains(
                    v[i].name,
                )) by {}
                assert forall|m: Seq<char>|
                    #[trigger] removed.contains(m) <==> names.contains(m) && exists|i: int| 0 <= i < v.len() && v[i].name == m by {
                    assert(removed.contains(m) <==> (r0.contains(m) || m == n)) by {
                        if removed.contains(m) {
                            let j = choose|j: int| 0 <= j < removed.len() && removed[j] == m;
                            if j < r0.len() {
                                assert(r0[j] == m);
                            }
                        }
                        if r0.contains(m) {
                            let j = choose|j: int| 0 <= j < r0.len() && r0[j] == m;
                            assert(removed[j] == m);
                        }
                        if m == n {
                            assert(removed[r0.len() as int] == n);
                        }
                    }
                    if m == n {
                        assert(l0.contains(l0[k]));
                        assert(v.contains(l0[k]));
                        let i = choose|i: int| 0 <= i < v.len() && v[i] == l0[k];
                        assert(v[i].name == m);
                    }
                }
            },
            None => {
                lemma_index_of_absent(l0, n);
                assert forall|i: int| 0 <= i < v.len() implies (left.contains(#[trigger] v[i]) <==> !names.contains(
                    v[i].name,
                )) by {
                    if v[i].name == n && l0.contains(v[i]) {
                        let j = choose|j: int| 0 <= j < l0.len() && l0[j] == v[i];
                    }
                }
                assert forall|m: Seq<char>|
                    #[trigger] removed.contains(m) <==> names.contains(m) && exists|i: int| 0 <= i < v.len() && v[i].name == m by {
                    if m == n && !r0.contains(m) {
                        if exists|i: int| 0 <= i < v.len() && v[i].name == m {
                            let i = choose|i: int| 0 <= i < v.len() && v[i].name == m;
                            assert(!p.contains(v[i].name));
                            assert(l0.contains(v[i]));
                            let j = choose|j: int| 0 <= j < l0.len() && l0[j] == v[i];
                        }
                    }
                }
            },
        }
    }
}

} // verus!
