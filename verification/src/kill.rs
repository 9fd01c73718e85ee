//! The decisions of stopping a process: SIGTERM first, up to six checks
//! half a second apart, then SIGKILL and one last check. The caller sends
//! the signals, sleeps and checks; this machine says what to do next.
use vstd::prelude::*;

verus! {

/// Where the procedure stands.
#[derive(Debug, Clone, Copy, PartialEq, Eq, Structural)]
pub enum KillState {
    /// SIGTERM is to be sent.
    AwaitTerm,
    /// SIGTERM was sent; this many checks have been asked for.
    Probing(u8),
    /// The process outlived its checks; SIGKILL is to be sent.
    AwaitKill,
    /// SIGKILL was sent; one last check was asked for.
    FinalProbe,
    /// Nothing more to do.
    Finished,
}

/// What happened after the last action.
#[derive(Debug, Clone, Copy, PartialEq, Eq, Structural)]
pub enum KillEvent {
    /// The signal was delivered.
    SignalSent,
    /// The process does not exist (ESRCH).
    NoSuchProcess,
    /// Not allowed to signal the process (EPERM).
    PermissionDenied,
    /// Signalling failed for another reason.
    SignalFailed,
    /// The check found the process still running.
    StillAlive,
    /// The check found the process gone.
    Gone,
}

/// How the procedure ended.
#[derive(Debug, Clone, Copy, PartialEq, Eq, Structural)]
pub enum KillOutcome {
    /// The process was gone before SIGTERM.
    AlreadyGone,
    /// Not allowed to send SIGTERM.
    Denied,
    /// SIGTERM could not be sent.
    TermFailed,
    /// The process exited after SIGTERM.
    Terminated,
    /// SIGKILL could not be sent.
    KillFailed,
    /// The process exited after SIGKILL.
    Killed,
    /// The process may still be running after SIGKILL.
    MaybeRunning,
}

/// What to do next.
#[derive(Debug, Clone, Copy, PartialEq, Eq, Structural)]
pub enum KillAction {
    /// Send SIGTERM.
    SendTerm,
    /// Wait half a second, then check whether the process still runs.
    WaitAndCheck,
    /// Send SIGKILL.
    SendKill,
    /// Stop with this outcome.
    Finish(KillOutcome),
    /// The event does not fit the state: nothing to do.
    Ignore,
}

/// The number of checks after SIGTERM before SIGKILL is sent.
pub open spec fn max_checks() -> u8 {
    6
}

/// The first state and action.
pub fn kill_start() -> (r: (KillState, KillAction))
    ensures
        r == (KillState::AwaitTerm, KillAction::SendTerm),
{
    (KillState::AwaitTerm, KillAction::SendTerm)
}

/// The next state and action after an event.
pub open spec fn kill_step_spec(s: KillState, e: KillEvent) -> (KillState, KillAction) {
    match (s, e) {
        (KillState::AwaitTerm, KillEvent::SignalSent) => (KillState::Probing(1), KillAction::WaitAndCheck),
        (KillState::AwaitTerm, KillEvent::NoSuchProcess) => (
            KillState::Finished,
            KillAction::Finish(KillOutcome::AlreadyGone),
        ),
        (KillState::AwaitTerm, KillEvent::PermissionDenied) => (
            KillState::Finished,
            KillAction::Finish(KillOutcome::Denied),
        ),
        (KillState::AwaitTerm, KillEvent::SignalFailed) => (
            KillState::Finished,
            KillAction::Finish(KillOutcome::TermFailed),
        ),
        (KillState::Probing(_), KillEvent::Gone) => (
            KillState::Finished,
            KillAction::Finish(KillOutcome::Terminated),
        ),
        (KillState::Probing(n), KillEvent::StillAlive) => if n < max_checks() {
            (KillState::Probing((n + 1) as u8), KillAction::WaitAndCheck)
        } else {
            (KillState::AwaitKill, KillAction::SendKill)
        },
        (KillState::AwaitKill, KillEvent::SignalSent) => (KillState::FinalProbe, KillAction::WaitAndCheck),
        (KillState::AwaitKill, KillEvent::NoSuchProcess) => (
            KillState::Finished,
            KillAction::Finish(KillOutcome::KillFailed),
        ),
        (KillState::AwaitKill, KillEvent::PermissionDenied) => (
            KillState::Finished,
            KillAction::Finish(KillOutcome::KillFailed),
        ),
        (KillState::AwaitKill, KillEvent::SignalFailed) => (
            KillState::Finished,
            KillAction::Finish(KillOutcome::KillFailed),
        ),
        (KillState::FinalProbe, KillEvent::Gone) => (
            KillState::Finished,
            KillAction::Finish(KillOutcome::Killed),
        ),
        (KillState::FinalProbe, KillEvent::StillAlive) => (
            KillState::Finished,
            KillAction::Finish(KillOutcome::MaybeRunning),
        ),
        _ => (s, KillAction::Ignore),
    }
}

/// The next state and action after an event.
pub fn kill_step(s: KillState, e: KillEvent) -> (r: (KillState, KillAction))
    ensures
        r == kill_step_spec(s, e),
{
    match (s, e) {
        (KillState::AwaitTerm, KillEvent::SignalSent) => (KillState::Probing(1), KillAction::WaitAndCheck),
        (KillState::AwaitTerm, KillEvent::NoSuchProcess) => (
            KillState::Finished,
            KillAction::Finish(KillOutcome::AlreadyGone),
        ),
        (KillState::AwaitTerm, KillEvent::PermissionDenied) => (
            KillState::Finished,
            KillAction::Finish(KillOutcome::Denied),
        ),
        (KillState::AwaitTerm, KillEvent::SignalFailed) => (
            KillState::Finished,
            KillAction::Finish(KillOutcome::TermFailed),
        ),
        (KillState::Probing(_), KillEvent::Gone) => (
            KillState::Finished,
            KillAction::Finish(KillOutcome::Terminated),
        ),
        (KillState::Probing(n), KillEvent::StillAlive) => if n < 6 {
            (KillState::Probing(n + 1), KillAction::WaitAndCheck)
        } else {
            (KillState::AwaitKill, KillAction::SendKill)
        },
        (KillState::AwaitKill, KillEvent::SignalSent) => (KillState::FinalProbe, KillAction::WaitAndCheck),
        (KillState::AwaitKill, KillEvent::NoSuchProcess) => (
            KillState::Finished,
            KillAction::Finish(KillOutcome::KillFailed),
        ),
        (KillState::AwaitKill, KillEvent::PermissionDenied) => (
            KillState::Finished,
            KillAction::Finish(KillOutcome::KillFailed),
        ),
        (KillState::AwaitKill, KillEvent::SignalFailed) => (
            KillState::Finished,
            KillAction::Finish(KillOutcome::KillFailed),
        ),
        (KillState::FinalProbe, KillEvent::Gone) => (
            KillState::Finished,
            KillAction::Finish(KillOutcome::Killed),
        ),
        (KillState::FinalProbe, KillEvent::StillAlive) => (
            KillState::Finished,
            KillAction::Finish(KillOutcome::MaybeRunning),
        ),
        _ => (s, KillAction::Ignore),
    }
}

/// Whether the state can be reached from the start.
pub open spec fn reachable_state(s: KillState) -> bool {
    match s {
        KillState::Probing(n) => 1 <= n <= max_checks(),
        _ => true,
    }
}

/// How many more actions the procedure can ask for at most.
pub open spec fn remaining_steps(s: KillState) -> nat {
    match s {
        KillState::AwaitTerm => 9,
        KillState::Probing(n) => (9 - n) as nat,
        KillState::AwaitKill => 2,
        KillState::FinalProbe => 1,
        KillState::Finished => 0,
    }
}

/// The states of a run from the start through `events`.
pub open spec fn run_from_start(events: Seq<KillEvent>) -> KillState
    decreases events.len(),
{
    if events.len() == 0 {
        KillState::AwaitTerm
    } else {
        kill_step_spec(run_from_start(events.drop_last()), events.last()).0
    }
}

/// Every step that is not ignored brings the procedure closer to its end,
/// so it ends after at most nine actions; reachable states stay reachable.
pub proof fn law_kill_progresses(s: KillState, e: KillEvent)
    requires
        reachable_state(s),
    ensures
        reachable_state(kill_step_spec(s, e).0),
        kill_step_spec(s, e).1 != KillAction::Ignore ==> remaining_steps(kill_step_spec(s, e).0)
            < remaining_steps(s),
        kill_step_spec(s, e).1 == KillAction::Ignore ==> kill_step_spec(s, e).0 == s,
{
}

/// SIGKILL is asked for only after SIGTERM went out and the process was
/// found still running at the sixth check.
pub proof fn law_kill_after_six_checks(s: KillState, e: KillEvent)
    requires
        reachable_state(s),
    ensures
        kill_step_spec(s, e).1 == KillAction::SendKill ==> s == KillState::Probing(max_checks())
            && e == KillEvent::StillAlive,
{
}

/// Every run from the start stays in reachable states, and once finished
/// nothing more happens.
pub proof fn law_runs_reachable(events: Seq<KillEvent>)
    ensures
        reachable_state(run_from_start(events)),
        run_from_start(events) == KillState::Finished ==> forall|e: KillEvent|
            kill_step_spec(KillState::Finished, e) == (KillState::Finished, KillAction::Ignore),
    decreases events.len(),
{
    if events.len() > 0 {
        law_runs_reachable(events.drop_last());
    }
}

/// How each outcome comes about: a check that finds the process gone after
/// SIGTERM (at any of the checks) ends in `Terminated`; after SIGKILL it
/// ends in `Killed`; only the last check after SIGKILL, finding the
/// process alive, ends in `MaybeRunning`; a failed SIGTERM ends by its
/// cause, and any failed SIGKILL in `KillFailed`.
pub proof fn law_kill_outcomes(s: KillState, e: KillEvent)
    ensures
        (kill_step_spec(s, e).1 == KillAction::Finish(KillOutcome::Terminated)) <==> (
        s is Probing && e == KillEvent::Gone),
        (kill_step_spec(s, e).1 == KillAction::Finish(KillOutcome::Killed)) <==> (s
            == KillState::FinalProbe && e == KillEvent::Gone),
        (kill_step_spec(s, e).1 == KillAction::Finish(KillOutcome::MaybeRunning)) <==> (s
            == KillState::FinalProbe && e == KillEvent::StillAlive),
        (kill_step_spec(s, e).1 == KillAction::Finish(KillOutcome::AlreadyGone)) <==> (s
            == KillState::AwaitTerm && e == KillEvent::NoSuchProcess),
        (kill_step_spec(s, e).1 == KillAction::Finish(KillOutcome::Denied)) <==> (s
            == KillState::AwaitTerm && e == KillEvent::PermissionDenied),
        (kill_step_spec(s, e).1 == KillAction::Finish(KillOutcome::TermFailed)) <==> (s
            == KillState::AwaitTerm && e == KillEvent::SignalFailed),
        (kill_step_spec(s, e).1 == KillAction::Finish(KillOutcome::KillFailed)) <==> (s
            == KillState::AwaitKill && (e == KillEvent::NoSuchProcess || e
            == KillEvent::PermissionDenied || e == KillEvent::SignalFailed)),
        kill_step_spec(s, e).1 is Finish ==> kill_step_spec(s, e).0 == KillState::Finished,
{
}

} // verus!
