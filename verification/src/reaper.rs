//! Subreaper registration and the zombie-reaping decision.
//!
//! Orphaned descendants are reparented to the supervisor once it is the
//! subreaper (or PID 1); their exit status is collected on `SIGCHLD` until no
//! zombie is left.
use vstd::prelude::*;

use crate::text::string_of;

verus! {

/// `nix::sys::prctl::set_child_subreaper(true)`: whether the kernel accepted
/// the request. The kernel decides; nothing is promised of the outcome.
#[verifier::external_body]
fn set_child_subreaper() -> (accepted: bool) {
    nix::sys::prctl::set_child_subreaper(true).is_ok()
}

/// The message of a refused subreaper registration.
pub open spec fn subreaper_error() -> Seq<char> {
    "prctl PR_SET_CHILD_SUBREAPER"@
}

/// Register this process as the subreaper for orphaned descendants
/// (`prctl(PR_SET_CHILD_SUBREAPER, 1)`). Safe to call when already PID 1.
pub fn enable_subreaper() -> (r: Result<(), String>)
    ensures
        r matches Err(m) ==> m@ == subreaper_error(),
{
    if set_child_subreaper() {
        Ok(())
    } else {
        Err(string_of("prctl PR_SET_CHILD_SUBREAPER"))
    }
}

/// What one non-blocking `waitpid(-1)` reported.
#[derive(Clone, Copy, Debug, PartialEq, Eq, Structural)]
pub enum ReapOutcome {
    /// A child changed state and was collected.
    Reaped,
    /// Children exist but none has exited.
    StillAlive,
    /// No child is left (`ECHILD`).
    NoChildren,
    /// Any other error.
    Failed,
}

/// Whether to wait again after `outcome`: zombies are drained until none is
/// left, and an error ends the round.
pub fn keep_reaping(outcome: ReapOutcome) -> (again: bool)
    ensures
        again == (outcome == ReapOutcome::Reaped),
{
    match outcome {
        ReapOutcome::Reaped => true,
        _ => false,
    }
}

} // verus!
