//! Decisions of the daemon's main loop: what a signal or an API request asks
//! of the daemon, whether to reap zombies, and the TLS certificate's host.
use vstd::prelude::*;

use crate::text::{str_chars, string_from_chars, sub_chars};

verus! {

/// The signals the daemon listens for.
#[derive(Clone, Copy, Debug, PartialEq, Eq, Structural)]
pub enum DaemonSignal {
    Terminate,
    Interrupt,
    Quit,
    Hangup,
    User1,
    User2,
}

/// What the daemon does on a signal.
#[derive(Clone, Copy, Debug, PartialEq, Eq, Structural)]
pub enum SignalAction {
    /// Stop every service and exit.
    Shutdown,
    /// Hand the signal on to every running service.
    Forward(DaemonSignal),
}

/// SIGTERM, SIGINT and SIGQUIT shut the daemon down; SIGHUP, SIGUSR1 and
/// SIGUSR2 are handed on to the services.
pub fn signal_action(sig: DaemonSignal) -> (a: SignalAction)
    ensures
        (sig == DaemonSignal::Terminate || sig == DaemonSignal::Interrupt || sig == DaemonSignal::Quit) ==> a
            == SignalAction::Shutdown,
        (sig == DaemonSignal::Hangup || sig == DaemonSignal::User1 || sig == DaemonSignal::User2) ==> a
            == SignalAction::Forward(sig),
{
    match sig {
        DaemonSignal::Terminate | DaemonSignal::Interrupt | DaemonSignal::Quit => SignalAction::Shutdown,
        _ => SignalAction::Forward(sig),
    }
}

/// How orphaned processes are reaped.
#[derive(Clone, Copy, Debug, PartialEq, Eq, Structural)]
pub struct ReaperMode {
    /// Collect zombies on `SIGCHLD`.
    pub reap: bool,
    /// Register as subreaper first (needed unless running as PID 1).
    pub register_subreaper: bool,
}

/// Reaping is on when asked for or when the daemon is PID 1; only a daemon
/// that is not PID 1 registers as subreaper.
pub fn reaper_mode(requested: bool, is_pid1: bool) -> (m: ReaperMode)
    ensures
        m.reap == (requested || is_pid1),
        m.register_subreaper == (requested && !is_pid1),
{
    ReaperMode { reap: requested || is_pid1, register_subreaper: requested && !is_pid1 }
}

/// The host part of a listen address: everything before the first `:`.
pub open spec fn host_of(addr: Seq<char>) -> Seq<char>
    decreases addr.len(),
{
    if addr.len() == 0 {
        seq![]
    } else if addr[0] == ':' {
        seq![]
    } else {
        seq![addr[0]] + host_of(addr.drop_first())
    }
}

proof fn lemma_host_of_prefix(addr: Seq<char>, i: int)
    requires
        0 <= i <= addr.len(),
        forall|k: int| 0 <= k < i ==> addr[k] != ':',
    ensures
        host_of(addr) == addr.take(i) + host_of(addr.skip(i)),
    decreases i,
{
    if i > 0 {
        lemma_host_of_prefix(addr.drop_first(), i - 1);
        assert(addr.drop_first().skip(i - 1) =~= addr.skip(i));
        assert(seq![addr[0]] + addr.drop_first().take(i - 1) =~= addr.take(i));
    } else {
        assert(addr.skip(0) =~= addr);
    }
}

/// The host of an address is the part before its first `:`: a prefix of it
/// without a `:`, followed by a `:` unless it is the whole address.
pub proof fn law_host_before_colon(addr: Seq<char>)
    ensures
        host_of(addr).len() <= addr.len(),
        host_of(addr) == addr.take(host_of(addr).len() as int),
        !host_of(addr).contains(':'),
        host_of(addr).len() < addr.len() ==> addr[host_of(addr).len() as int] == ':',
    decreases addr.len(),
{
    if addr.len() > 0 && addr[0] != ':' {
        let rest = addr.drop_first();
        law_host_before_colon(rest);
        let h = host_of(addr);
        assert(h == seq![addr[0]] + host_of(rest));
        assert(h =~= addr.take(h.len() as int));
        if h.contains(':') {
            let j = choose|j: int| 0 <= j < h.len() && h[j] == ':';
            if j > 0 {
                assert(host_of(rest)[j - 1] == ':');
            }
        }
        if h.len() < addr.len() {
            assert(addr[h.len() as int] == rest[host_of(rest).len() as int]);
        }
    } else {
        assert(addr.take(0) =~= Seq::<char>::empty());
    }
}

/// The host name the daemon's TLS certificate is made for, from the HTTPS
/// listen address (`0.0.0.0:8443` gives `0.0.0.0`).
pub fn tls_hostname(addr: &str) -> (h: String)
    ensures
        h@ == host_of(addr@),
        h@ == addr@.take(h@.len() as int),
        !h@.contains(':'),
        h@.len() < addr@.len() ==> addr@[h@.len() as int] == ':',
{
    proof {
        law_host_before_colon(addr@);
    }
    let cs = str_chars(addr);
    let mut i: usize = 0;
    while i < cs.len() && cs[i] != ':'
        invariant
            i <= cs.len(),
            cs@ == addr@,
            forall|k: int| 0 <= k < i ==> cs@[k] != ':',
        decreases cs.len() - i,
    {
        i = i + 1;
    }
    proof {
        lemma_host_of_prefix(cs@, i as int);
        assert(cs@.subrange(0, i as int) =~= cs@.take(i as int));
        if i < cs.len() {
            assert(cs@.skip(i as int)[0] == ':');
        } else {
            assert(cs@.skip(i as int).len() == 0);
        }
    }
    string_from_chars(&sub_chars(&cs, 0, i))
}

/// What the API can ask of the daemon.
#[derive(Clone, Copy, Debug, PartialEq, Eq, Structural)]
pub enum DaemonAction {
    Stop,
    Restart,
}

/// Whether the daemon executes itself again after shutting down.
pub fn restart_after(action: DaemonAction) -> (again: bool)
    ensures
        again == (action == DaemonAction::Restart),
{
    match action {
        DaemonAction::Restart => true,
        DaemonAction::Stop => false,
    }
}

} // verus!
