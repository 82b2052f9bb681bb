use vigild::daemon::{
    reaper_mode, restart_after, signal_action, tls_hostname, DaemonAction, DaemonSignal, SignalAction,
};
use vigild::reaper::{enable_subreaper, keep_reaping, ReapOutcome};
use vigild::server::{TlsPeerCert, UnixPeerInfo};

#[test]
fn termination_signals_shut_down() {
    for sig in [DaemonSignal::Terminate, DaemonSignal::Interrupt, DaemonSignal::Quit] {
        assert_eq!(signal_action(sig), SignalAction::Shutdown);
    }
    for sig in [DaemonSignal::Hangup, DaemonSignal::User1, DaemonSignal::User2] {
        assert_eq!(signal_action(sig), SignalAction::Forward(sig));
    }
}

#[test]
fn reaper_mode_by_flag_and_pid() {
    let m = reaper_mode(false, false);
    assert!(!m.reap && !m.register_subreaper);
    let m = reaper_mode(true, false);
    assert!(m.reap && m.register_subreaper);
    let m = reaper_mode(false, true);
    assert!(m.reap && !m.register_subreaper);
}

#[test]
fn tls_hostname_is_part_before_colon() {
    assert_eq!(tls_hostname("0.0.0.0:8443"), "0.0.0.0");
    assert_eq!(tls_hostname("localhost"), "localhost");
    assert_eq!(tls_hostname(":8443"), "");
}

#[test]
fn restart_only_on_restart_action() {
    assert!(restart_after(DaemonAction::Restart));
    assert!(!restart_after(DaemonAction::Stop));
}

#[test]
fn subreaper_registration_succeeds_on_linux() {
    assert!(enable_subreaper().is_ok());
}

#[test]
fn reaping_continues_only_after_a_reaped_child() {
    assert!(keep_reaping(ReapOutcome::Reaped));
    assert!(!keep_reaping(ReapOutcome::StillAlive));
    assert!(!keep_reaping(ReapOutcome::NoChildren));
    assert!(!keep_reaping(ReapOutcome::Failed));
}

#[test]
fn peer_info_values() {
    let cert = TlsPeerCert(vec![1, 2, 3]);
    assert_eq!(cert.0.len(), 3);
    let peer = UnixPeerInfo { uid: Some(1000) };
    assert_eq!(peer.uid, Some(1000));
}
