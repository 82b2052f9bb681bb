use sha_crypt::{sha512_simple, Sha512Params};

use vigild::auth::{caller_access, parse_basic_credentials, resolve_access, Caller, FORBIDDEN};
use vigild::identity::{
    verify_cert_against_ca_at,
    verify_cert_against_ca, BasicIdentity, IdentityAccess, IdentitySpec, IdentityStore, LocalIdentity, TlsIdentity,
};

const CA_PEM: &str = "-----BEGIN CERTIFICATE-----\nMIIBjTCCATOgAwIBAgIUIOW9l5bFTvGl2mcthqNJm/1jv34wCgYIKoZIzj0EAwIw\nEzERMA8GA1UEAwwIdGVzdC1jYTEwIBcNMjYxMTE4MDgzNjM1WhgPMjEyNjEwMjUw\nODM2MzVaMBMxETAPBgNVBAMMCHRlc3QtY2ExMFkwEwYHKoZIzj0CAQYIKoZIzj0D\nAQcDQgAEh5wRQL20d9x17Zqsz3hfuov2ui6zFU7ztqIz144BHKaY15qivYpRa/G5\nI7aC2BpNj1dqPJP97znqtDDlaQS/W6NjMGEwHQYDVR0OBBYEFEhHDJ2pRFasKKau\nNC/PwGXyOodxMB8GA1UdIwQYMBaAFEhHDJ2pRFasKKauNC/PwGXyOodxMA8GA1Ud\nEwEB/wQFMAMBAf8wDgYDVR0PAQH/BAQDAgEGMAoGCCqGSM49BAMCA0gAMEUCIA3x\nOevtOm9wWrzsQi+vzIfZykZWKjLfAJG3dv0ikddVAiEAwdEoLHg84ArnwJk8m+4n\n4QsCRWixKObaiDKRGSyAhMI=\n-----END CERTIFICATE-----\n";

const OTHER_CA_PEM: &str = "-----BEGIN CERTIFICATE-----\nMIIBjDCCATOgAwIBAgIUDrc2hcou3DctxCq86M2klCuM5qIwCgYIKoZIzj0EAwIw\nEzERMA8GA1UEAwwIdGVzdC1jYTIwIBcNMjYxMTE4MDgzNjM1WhgPMjEyNjEwMjUw\nODM2MzVaMBMxETAPBgNVBAMMCHRlc3QtY2EyMFkwEwYHKoZIzj0CAQYIKoZIzj0D\nAQcDQgAEsCN6rlV3MkOjpbylgiPZ8RDgz8XqC4czHY7T50bh7I72BeOOcUUqOyTZ\n0b8258UhYV9h+CsigwIABMgl1LCXl6NjMGEwHQYDVR0OBBYEFBC+76IixudO8qoX\nRQy6U1jmTYibMB8GA1UdIwQYMBaAFBC+76IixudO8qoXRQy6U1jmTYibMA8GA1Ud\nEwEB/wQFMAMBAf8wDgYDVR0PAQH/BAQDAgEGMAoGCCqGSM49BAMCA0cAMEQCIFKO\nz3gIaZ5gXhXeYbspjI9X6C0mZ0Dnyw5y/B6RSneKAiAjBdIykD1/vyPJIm85oi1W\nfVleRGOWutu0Q1J51XtHZQ==\n-----END CERTIFICATE-----\n";

const CLIENT_DER: [u8; 444] = [
    48, 130, 1, 184, 48, 130, 1, 94, 160, 3, 2, 1, 2, 2, 19, 34, 112, 44, 23, 215,
    104, 83, 0, 185, 59, 147, 33, 218, 165, 81, 255, 241, 94, 104, 48, 10, 6, 8, 42, 134,
    72, 206, 61, 4, 3, 2, 48, 19, 49, 17, 48, 15, 6, 3, 85, 4, 3, 12, 8, 116,
    101, 115, 116, 45, 99, 97, 49, 48, 32, 23, 13, 50, 54, 49, 49, 49, 56, 48, 56, 51,
    54, 51, 53, 90, 24, 15, 50, 49, 50, 54, 49, 48, 50, 53, 48, 56, 51, 54, 51, 53,
    90, 48, 22, 49, 20, 48, 18, 6, 3, 85, 4, 3, 12, 11, 116, 101, 115, 116, 45, 99,
    108, 105, 101, 110, 116, 48, 89, 48, 19, 6, 7, 42, 134, 72, 206, 61, 2, 1, 6, 8,
    42, 134, 72, 206, 61, 3, 1, 7, 3, 66, 0, 4, 104, 78, 196, 94, 72, 0, 134, 161,
    230, 86, 94, 79, 130, 28, 1, 214, 197, 87, 142, 187, 118, 96, 219, 136, 212, 44, 180, 20,
    180, 34, 130, 120, 52, 157, 223, 220, 108, 202, 94, 83, 48, 232, 51, 181, 200, 107, 14, 62,
    239, 109, 140, 207, 25, 253, 72, 190, 78, 211, 71, 242, 136, 6, 145, 180, 163, 129, 139, 48,
    129, 136, 48, 9, 6, 3, 85, 29, 19, 4, 2, 48, 0, 48, 14, 6, 3, 85, 29, 15,
    1, 1, 255, 4, 4, 3, 2, 7, 128, 48, 19, 6, 3, 85, 29, 37, 4, 12, 48, 10,
    6, 8, 43, 6, 1, 5, 5, 7, 3, 2, 48, 22, 6, 3, 85, 29, 17, 4, 15, 48,
    13, 130, 11, 116, 101, 115, 116, 45, 99, 108, 105, 101, 110, 116, 48, 29, 6, 3, 85, 29,
    14, 4, 22, 4, 20, 134, 51, 47, 133, 134, 199, 148, 135, 17, 61, 72, 81, 96, 116, 156,
    63, 79, 161, 249, 54, 48, 31, 6, 3, 85, 29, 35, 4, 24, 48, 22, 128, 20, 72, 71,
    12, 157, 169, 68, 86, 172, 40, 166, 174, 52, 47, 207, 192, 101, 242, 58, 135, 113, 48, 10,
    6, 8, 42, 134, 72, 206, 61, 4, 3, 2, 3, 72, 0, 48, 69, 2, 33, 0, 175, 237,
    34, 67, 119, 168, 158, 225, 105, 219, 73, 109, 177, 158, 24, 100, 205, 124, 135, 198, 135, 13,
    189, 53, 165, 86, 104, 26, 220, 114, 95, 105, 2, 32, 6, 190, 94, 242, 106, 219, 96, 38,
    233, 227, 224, 35, 189, 18, 44, 251, 81, 104, 218, 188, 118, 105, 232, 56, 137, 239, 74, 208,
    166, 55, 99, 252,
];

fn spec(access: IdentityAccess) -> IdentitySpec {
    IdentitySpec { access, local: None, basic: None, tls: None }
}

fn local_spec(access: IdentityAccess, user_id: Option<u32>) -> IdentitySpec {
    IdentitySpec { access, local: Some(LocalIdentity { user_id }), basic: None, tls: None }
}

fn basic_spec(access: IdentityAccess, password: &str) -> IdentitySpec {
    let params = Sha512Params::new(1000).unwrap();
    let hash = sha512_simple(password, &params).unwrap();
    IdentitySpec { access, local: None, basic: Some(BasicIdentity { password_hash: hash }), tls: None }
}

fn names(store: &IdentityStore, filter: &[String]) -> Vec<String> {
    store.list(filter).into_iter().map(|i| i.name).collect()
}

#[test]
fn add_and_list_all() {
    let mut store = IdentityStore::new();
    store.add("alice".to_string(), spec(IdentityAccess::Read));
    store.add("bob".to_string(), spec(IdentityAccess::Write));
    let mut all = names(&store, &[]);
    all.sort();
    assert_eq!(all, vec!["alice", "bob"]);
}

#[test]
fn list_with_filter() {
    let mut store = IdentityStore::new();
    store.add("alice".to_string(), spec(IdentityAccess::Read));
    store.add("bob".to_string(), spec(IdentityAccess::Admin));
    assert_eq!(names(&store, &["alice".to_string()]), vec!["alice"]);
    assert!(names(&store, &["nobody".to_string()]).is_empty());
}

#[test]
fn is_empty_after_creation() {
    let mut store = IdentityStore::new();
    assert!(store.is_empty());
    store.add("alice".to_string(), spec(IdentityAccess::Read));
    assert!(!store.is_empty());
}

#[test]
fn remove_mixed_existing_and_missing() {
    let mut store = IdentityStore::new();
    store.add("alice".to_string(), spec(IdentityAccess::Read));
    assert_eq!(store.remove(&["alice".to_string(), "ghost".to_string()]), vec!["alice"]);
    assert!(store.is_empty());
    assert!(store.remove(&["ghost".to_string()]).is_empty());
}

#[test]
fn add_overwrites_existing_identity() {
    let mut store = IdentityStore::new();
    store.add("alice".to_string(), spec(IdentityAccess::Read));
    store.add("alice".to_string(), spec(IdentityAccess::Admin));
    let ids = store.list(&[]);
    assert_eq!(ids.len(), 1);
    assert_eq!(ids[0].access, IdentityAccess::Admin);
}

#[test]
fn local_access_rules() {
    let mut store = IdentityStore::new();
    assert!(store.local_access(0).is_none());
    store.add("apionly".to_string(), spec(IdentityAccess::Read));
    assert!(store.local_access(1000).is_none());
    store.add("read-all".to_string(), local_spec(IdentityAccess::Read, None));
    store.add("admin-uid0".to_string(), local_spec(IdentityAccess::Admin, Some(0)));
    assert_eq!(store.local_access(0), Some(IdentityAccess::Admin));
    assert_eq!(store.local_access(1), Some(IdentityAccess::Read));
}

#[test]
fn basic_access_rules() {
    let mut store = IdentityStore::new();
    store.add("carol".to_string(), basic_spec(IdentityAccess::Write, "s3cr3t"));
    store.add("alice".to_string(), spec(IdentityAccess::Read));
    assert_eq!(store.basic_access("carol", "s3cr3t"), Some(IdentityAccess::Write));
    assert_eq!(store.basic_access("carol", "wrong"), None);
    assert_eq!(store.basic_access("nobody", "pass"), None);
    assert_eq!(store.basic_access("alice", "anything"), None);
}

#[test]
fn verify_cert_against_ca_valid_cert_and_ca() {
    assert!(verify_cert_against_ca(&CLIENT_DER, CA_PEM));
}

#[test]
fn verify_cert_against_ca_wrong_ca_returns_false() {
    assert!(!verify_cert_against_ca(&CLIENT_DER, OTHER_CA_PEM));
}

#[test]
fn verify_cert_against_ca_empty_ca_pem_returns_false() {
    assert!(!verify_cert_against_ca(&CLIENT_DER, ""));
}

#[test]
fn verify_cert_against_ca_invalid_cert_der_returns_false() {
    assert!(!verify_cert_against_ca(b"not a certificate", CA_PEM));
}

#[test]
fn tls_access_most_permissive_matching_ca() {
    let mut store = IdentityStore::new();
    store.add(
        "tls-read".to_string(),
        IdentitySpec {
            access: IdentityAccess::Read,
            local: None,
            basic: None,
            tls: Some(TlsIdentity { ca_cert: CA_PEM.to_string() }),
        },
    );
    store.add(
        "tls-other".to_string(),
        IdentitySpec {
            access: IdentityAccess::Admin,
            local: None,
            basic: None,
            tls: Some(TlsIdentity { ca_cert: OTHER_CA_PEM.to_string() }),
        },
    );
    assert_eq!(store.tls_access(&CLIENT_DER), Some(IdentityAccess::Read));
    assert_eq!(store.tls_access(b"junk"), None);
}

#[test]
fn require_ok_when_caller_meets_level() {
    assert!(Caller(IdentityAccess::Admin).require(IdentityAccess::Read).is_ok());
    assert!(Caller(IdentityAccess::Write).require(IdentityAccess::Write).is_ok());
    assert!(Caller(IdentityAccess::Read).require(IdentityAccess::Open).is_ok());
}

#[test]
fn require_err_when_caller_below_level() {
    let result = Caller(IdentityAccess::Open).require(IdentityAccess::Read);
    assert!(result.is_err());
    let (status, msg) = result.unwrap_err();
    assert_eq!(status, FORBIDDEN);
    assert_eq!(msg, "forbidden");
}

#[test]
fn require_err_metrics_below_read() {
    assert!(Caller(IdentityAccess::Metrics).require(IdentityAccess::Read).is_err());
}

#[test]
fn require_ok_admin_for_all_levels() {
    for level in [
        IdentityAccess::Open,
        IdentityAccess::Metrics,
        IdentityAccess::Read,
        IdentityAccess::Write,
        IdentityAccess::Admin,
    ] {
        assert!(Caller(IdentityAccess::Admin).require(level).is_ok(), "Admin should pass require({level:?})");
    }
}

#[test]
fn basic_credentials_parse() {
    // "user:pa:ss" in base64
    let (u, p) = parse_basic_credentials("Basic dXNlcjpwYTpzcw==").unwrap();
    assert_eq!(u, "user");
    assert_eq!(p, "pa:ss");
    assert_eq!(parse_basic_credentials("Basic   dXNlcjpwYTpzcw==  ").unwrap().0, "user");
    assert!(parse_basic_credentials("Bearer dXNlcjpwYXNz").is_none());
    assert!(parse_basic_credentials("Basic !!!").is_none());
    // "nocolon"
    assert!(parse_basic_credentials("Basic bm9jb2xvbg==").is_none());
}

#[test]
fn caller_access_open_store_is_admin() {
    let store = IdentityStore::new();
    assert_eq!(caller_access(&store, None, None), IdentityAccess::Admin);
}

#[test]
fn resolve_access_prefers_most_permissive() {
    let mut store = IdentityStore::new();
    store.add("carol".to_string(), basic_spec(IdentityAccess::Write, "pw"));
    store.add("local".to_string(), local_spec(IdentityAccess::Read, Some(1000)));
    // "carol:pw"
    let header = "Basic Y2Fyb2w6cHc=";
    assert_eq!(resolve_access(&store, Some(header), Some(1000)), IdentityAccess::Write);
    assert_eq!(resolve_access(&store, None, Some(1000)), IdentityAccess::Read);
    assert_eq!(resolve_access(&store, None, Some(5)), IdentityAccess::Open);
    assert_eq!(caller_access(&store, Some("Basic Y2Fyb2w6eA=="), None), IdentityAccess::Open);
}

#[test]
fn verify_cert_against_ca_depends_on_the_time_given() {
    // 2096: inside the certificates' validity.
    assert!(verify_cert_against_ca_at(&CLIENT_DER, CA_PEM, 4_000_000_000));
    // 2001: before they were issued.
    assert!(!verify_cert_against_ca_at(&CLIENT_DER, CA_PEM, 1_000_000_000));
    assert!(!verify_cert_against_ca_at(&CLIENT_DER, OTHER_CA_PEM, 4_000_000_000));
}
