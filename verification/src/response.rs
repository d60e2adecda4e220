use crate::detector::{next_timeout_streak, timeout_escalates, HogDetector};
use crate::ledger::set_after_ignore;
use vstd::prelude::*;

verus! {

/// The notifier's reported outcome for one displayed notification.
#[derive(Clone, Copy, Debug, PartialEq, Eq, Structural)]
pub enum NotifyOutcome {
    /// The user clicked the terminate action.
    KillClicked,
    /// The user clicked some action other than terminate.
    OtherAction,
    /// The user dismissed the notification without choosing an action.
    Dismissed,
    /// The notification's display timeout elapsed with no interaction.
    TimedOut,
    /// A response shape this handler does not model.
    Unrecognized,
}

/// The side effect the caller must carry out after a response was handled:
/// send the terminate signal, persist the ignore ledger, or nothing.
#[derive(Clone, Copy, Debug, PartialEq, Eq, Structural)]
pub enum Directive {
    Kill,
    Persist,
    Nothing,
}

/// How a notifier transport response maps to an outcome: an action click is
/// a kill only for the terminate action; a close is a dismissal; a timeout
/// is a timeout; everything else is unrecognized.
pub open spec fn spec_classify(t: Seq<char>, v: Option<Seq<char>>) -> NotifyOutcome {
    if t == "actionClicked"@ {
        if v == Some("Kill"@) {
            NotifyOutcome::KillClicked
        } else {
            NotifyOutcome::OtherAction
        }
    } else if t == "closed"@ {
        NotifyOutcome::Dismissed
    } else if t == "timeout"@ {
        NotifyOutcome::TimedOut
    } else {
        NotifyOutcome::Unrecognized
    }
}

/// Interprets the notifier's activation type and value as an outcome.
pub fn classify_response(activation_type: &String, activation_value: &Option<String>) -> (r:
    NotifyOutcome)
    ensures
        r == spec_classify(activation_type@, activation_value.deep_view()),
{
    let action_clicked: String = "actionClicked".to_owned();
    if *activation_type == action_clicked {
        let kill: String = "Kill".to_owned();
        match activation_value {
            Some(v) => if *v == kill {
                NotifyOutcome::KillClicked
            } else {
                NotifyOutcome::OtherAction
            },
            None => NotifyOutcome::OtherAction,
        }
    } else {
        let closed: String = "closed".to_owned();
        if *activation_type == closed {
            NotifyOutcome::Dismissed
        } else {
            let timeout: String = "timeout".to_owned();
            if *activation_type == timeout {
                NotifyOutcome::TimedOut
            } else {
                NotifyOutcome::Unrecognized
            }
        }
    }
}

impl HogDetector {
    /// Drives exactly one branch for a displayed notification's outcome: a
    /// kill click asks the caller to terminate the pid and changes no state;
    /// a dismissal records the identity in the ignore ledger and asks the
    /// caller to persist it; a timeout advances the timeout track, asking for
    /// a persist exactly when it escalates; anything else is a no-op.
    pub fn handle_response(&mut self, pid: u32, exe: &String, cmd: &String, outcome: NotifyOutcome)
        -> (d: Directive)
        requires
            old(self).wf(),
        ensures
            final(self).wf(),
            final(self).cfg() == old(self).cfg(),
            forall|q: u32| final(self).hog_streak(q) == old(self).hog_streak(q),
            match outcome {
                NotifyOutcome::KillClicked => d == Directive::Kill && final(self).ignored() == old(
                    self,
                ).ignored() && (forall|q: u32|
                    final(self).timeout_streak(q) == old(self).timeout_streak(q)),
                NotifyOutcome::OtherAction | NotifyOutcome::Unrecognized => d == Directive::Nothing
                    && final(self).ignored() == old(self).ignored() && (forall|q: u32|
                    final(self).timeout_streak(q) == old(self).timeout_streak(q)),
                NotifyOutcome::Dismissed => d == Directive::Persist && final(self).ignored() == old(
                    self,
                ).ignored().insert(exe@, set_after_ignore(old(self).ignored(), exe@, cmd@)) && (
                forall|q: u32| final(self).timeout_streak(q) == old(self).timeout_streak(q)),
                NotifyOutcome::TimedOut => {
                    let escalated = timeout_escalates(
                        old(self).timeout_streak(pid),
                        old(self).cfg().timeouts_threshold,
                    );
                    &&& d == (if escalated {
                        Directive::Persist
                    } else {
                        Directive::Nothing
                    })
                    &&& final(self).timeout_streak(pid) == next_timeout_streak(
                        old(self).timeout_streak(pid),
                        old(self).cfg().timeouts_threshold,
                    )
                    &&& (forall|q: u32|
                        q != pid ==> final(self).timeout_streak(q) == old(self).timeout_streak(q))
                    &&& escalated ==> final(self).ignored() == old(self).ignored().insert(
                        exe@,
                        set_after_ignore(old(self).ignored(), exe@, cmd@),
                    )
                    &&& !escalated ==> final(self).ignored() == old(self).ignored()
                },
            },
    {
        match outcome {
            NotifyOutcome::KillClicked => Directive::Kill,
            NotifyOutcome::Dismissed => {
                let _ = self.ignore(exe, cmd);
                Directive::Persist
            },
            NotifyOutcome::TimedOut => {
                if self.process_timeout(pid, exe, cmd) {
                    Directive::Persist
                } else {
                    Directive::Nothing
                }
            },
            NotifyOutcome::OtherAction => Directive::Nothing,
            NotifyOutcome::Unrecognized => Directive::Nothing,
        }
    }
}

} // verus!
