//! Graceful termination state machine for a session's process tree.
//!
//! The machine is platform-agnostic: it decides which actions the
//! caller must perform (signal the process group, wait, probe, reap)
//! and in which order; the caller carries them out and reports the
//! liveness probe back.  Every path ends in `Dead` with the child
//! reaped exactly once, so no zombie process entry is left behind.

use vstd::prelude::*;

verus! {

/// State of a terminating session.
pub enum TermState {
    /// The child is (assumed) running.
    Running,
    /// A polite termination signal was sent; waiting out the grace
    /// interval.
    GracefulWait,
    /// The child is gone and has been reaped.
    Dead,
}

/// Actions the caller performs between steps, in order.
pub enum TermAction {
    /// Send the polite termination signal to the whole process group.
    SignalTermGroup,
    /// Wait the fixed grace interval.
    WaitGrace,
    /// Probe whether the child is still alive.
    ProbeAlive,
    /// Send the forceful kill signal to the whole process group.
    SignalKillGroup,
    /// Wait briefly after the forceful kill.
    WaitShort,
    /// Reap the child so no zombie entry remains.
    ReapChild,
    /// Forcefully kill the direct child, on platforms without process
    /// groups.
    DirectKill,
}

/// One step of the termination protocol: from the current state, with
/// the last liveness probe's result, the next state and the actions to
/// perform.
pub open spec fn term_step(s: TermState, group_signals: bool, still_alive: bool) -> (
    TermState,
    Seq<TermAction>,
) {
    match s {
        TermState::Running => if group_signals {
            (
                TermState::GracefulWait,
                seq![TermAction::SignalTermGroup, TermAction::WaitGrace, TermAction::ProbeAlive],
            )
        } else {
            (TermState::Dead, seq![TermAction::DirectKill, TermAction::ReapChild])
        },
        TermState::GracefulWait => if still_alive {
            (
                TermState::Dead,
                seq![TermAction::SignalKillGroup, TermAction::WaitShort, TermAction::ReapChild],
            )
        } else {
            (TermState::Dead, seq![TermAction::ReapChild])
        },
        TermState::Dead => (TermState::Dead, seq![]),
    }
}

/// Perform one decision step of the termination protocol.
pub fn terminate_step(s: TermState, group_signals: bool, still_alive: bool) -> (r: (
    TermState,
    Vec<TermAction>,
))
    ensures
        r.0 == term_step(s, group_signals, still_alive).0,
        r.1@ == term_step(s, group_signals, still_alive).1,
{
    match s {
        TermState::Running => {
            if group_signals {
                let mut acts: Vec<TermAction> = Vec::new();
                acts.push(TermAction::SignalTermGroup);
                acts.push(TermAction::WaitGrace);
                acts.push(TermAction::ProbeAlive);
                proof {
                    assert(acts@ =~= term_step(s, group_signals, still_alive).1);
                }
                (TermState::GracefulWait, acts)
            } else {
                let mut acts: Vec<TermAction> = Vec::new();
                acts.push(TermAction::DirectKill);
                acts.push(TermAction::ReapChild);
                proof {
                    assert(acts@ =~= term_step(s, group_signals, still_alive).1);
                }
                (TermState::Dead, acts)
            }
        },
        TermState::GracefulWait => {
            if still_alive {
                let mut acts: Vec<TermAction> = Vec::new();
                acts.push(TermAction::SignalKillGroup);
                acts.push(TermAction::WaitShort);
                acts.push(TermAction::ReapChild);
                proof {
                    assert(acts@ =~= term_step(s, group_signals, still_alive).1);
                }
                (TermState::Dead, acts)
            } else {
                let mut acts: Vec<TermAction> = Vec::new();
                acts.push(TermAction::ReapChild);
                proof {
                    assert(acts@ =~= term_step(s, group_signals, still_alive).1);
                }
                (TermState::Dead, acts)
            }
        },
        TermState::Dead => {
            let acts: Vec<TermAction> = Vec::new();
            proof {
                assert(acts@ =~= term_step(s, group_signals, still_alive).1);
            }
            (TermState::Dead, acts)
        },
    }
}

/// The machine reaches `Dead` after at most two steps, whatever the
/// probes report and whether or not process groups exist.
pub proof fn lemma_termination_reaches_dead(g: bool, a1: bool, a2: bool)
    ensures
        term_step(term_step(TermState::Running, g, a1).0, g, a2).0 == TermState::Dead,
{
}

/// A step from `Dead` changes nothing and performs nothing: terminating
/// an already-terminated session is a safe no-op.
pub proof fn lemma_terminate_idempotent(g: bool, a: bool)
    ensures
        term_step(TermState::Dead, g, a).0 == TermState::Dead,
        term_step(TermState::Dead, g, a).1 == Seq::<TermAction>::empty(),
{
    assert(term_step(TermState::Dead, g, a).1 =~= Seq::<TermAction>::empty());
}

/// Number of reap actions in a sequence of actions.
pub open spec fn reap_count(s: Seq<TermAction>) -> int
    decreases s.len(),
{
    if s.len() == 0 {
        0
    } else {
        (if s[0] == TermAction::ReapChild {
            1int
        } else {
            0int
        }) + reap_count(s.skip(1))
    }
}

/// Every run from `Running` to `Dead` reaps the child exactly once.
pub proof fn lemma_reap_exactly_once(g: bool, a1: bool, a2: bool)
    ensures
        ({
            let first = term_step(TermState::Running, g, a1);
            let second = term_step(first.0, g, a2);
            reap_count(first.1 + second.1) == 1
        }),
{
    reveal_with_fuel(reap_count, 8);
    let first = term_step(TermState::Running, g, a1);
    let second = term_step(first.0, g, a2);
    let path = first.1 + second.1;
    if g {
        if a2 {
            assert(path =~= seq![
                TermAction::SignalTermGroup,
                TermAction::WaitGrace,
                TermAction::ProbeAlive,
                TermAction::SignalKillGroup,
                TermAction::WaitShort,
                TermAction::ReapChild,
            ]);
            assert(path.skip(1) =~= seq![
                TermAction::WaitGrace,
                TermAction::ProbeAlive,
                TermAction::SignalKillGroup,
                TermAction::WaitShort,
                TermAction::ReapChild,
            ]);
            assert(path.skip(1).skip(1) =~= seq![
                TermAction::ProbeAlive,
                TermAction::SignalKillGroup,
                TermAction::WaitShort,
                TermAction::ReapChild,
            ]);
            assert(path.skip(1).skip(1).skip(1) =~= seq![
                TermAction::SignalKillGroup,
                TermAction::WaitShort,
                TermAction::ReapChild,
            ]);
            assert(path.skip(1).skip(1).skip(1).skip(1) =~= seq![
                TermAction::WaitShort,
                TermAction::ReapChild,
            ]);
            assert(path.skip(1).skip(1).skip(1).skip(1).skip(1) =~= seq![TermAction::ReapChild]);
            assert(path.skip(1).skip(1).skip(1).skip(1).skip(1).skip(1)
                =~= Seq::<TermAction>::empty());
        } else {
            assert(path =~= seq![
                TermAction::SignalTermGroup,
                TermAction::WaitGrace,
                TermAction::ProbeAlive,
                TermAction::ReapChild,
            ]);
            assert(path.skip(1) =~= seq![
                TermAction::WaitGrace,
                TermAction::ProbeAlive,
                TermAction::ReapChild,
            ]);
            assert(path.skip(1).skip(1) =~= seq![
                TermAction::ProbeAlive,
                TermAction::ReapChild,
            ]);
            assert(path.skip(1).skip(1).skip(1) =~= seq![TermAction::ReapChild]);
            assert(path.skip(1).skip(1).skip(1).skip(1) =~= Seq::<TermAction>::empty());
        }
    } else {
        assert(path =~= seq![TermAction::DirectKill, TermAction::ReapChild]);
        assert(path.skip(1) =~= seq![TermAction::ReapChild]);
        assert(path.skip(1).skip(1) =~= Seq::<TermAction>::empty());
    }
}

} // verus!
