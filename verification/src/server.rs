//! What the listeners hand to request handlers about the peer.
use vstd::prelude::*;

verus! {

/// DER-encoded end-entity certificate presented by a TLS client.
///
/// Present on requests that arrive over the TLS listener when the client
/// presented a certificate; absent otherwise and on the Unix socket.
#[derive(Clone, Debug)]
pub struct TlsPeerCert(pub Vec<u8>);

/// Peer credentials of a connection on the Unix socket.
#[derive(Debug)]
pub struct UnixPeerInfo {
    /// Effective UID of the connecting process, if it could be read.
    pub uid: Option<u32>,
}

} // verus!
