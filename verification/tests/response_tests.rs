use hog_detector::detector::{Config, HogDetector};
use hog_detector::ledger::IgnoreLedger;
use hog_detector::response::{classify_response, Directive, NotifyOutcome};

fn default_detector() -> HogDetector {
    HogDetector::new(Config::default(), IgnoreLedger::new())
}

#[test]
fn classify_kill_click() {
    let t = String::from("actionClicked");
    let v = Some(String::from("Kill"));
    assert_eq!(classify_response(&t, &v), NotifyOutcome::KillClicked);
}

#[test]
fn classify_other_action_click() {
    let t = String::from("actionClicked");
    assert_eq!(
        classify_response(&t, &Some(String::from("Snooze"))),
        NotifyOutcome::OtherAction
    );
    assert_eq!(classify_response(&t, &None), NotifyOutcome::OtherAction);
}

#[test]
fn classify_closed_and_timeout() {
    let closed = String::from("closed");
    let timeout = String::from("timeout");
    assert_eq!(classify_response(&closed, &None), NotifyOutcome::Dismissed);
    assert_eq!(classify_response(&timeout, &None), NotifyOutcome::TimedOut);
}

#[test]
fn classify_unknown_outcome() {
    let t = String::from("contentsClicked");
    assert_eq!(classify_response(&t, &None), NotifyOutcome::Unrecognized);
}

#[test]
fn kill_click_terminates_and_keeps_state() {
    let mut d = default_detector();
    let exe = String::from("/bin/x");
    let cmd = String::from("a");
    let dir = d.handle_response(4, &exe, &cmd, NotifyOutcome::KillClicked);
    assert_eq!(dir, Directive::Kill);
    // No ledger mutation: the identity is still watched.
    assert!(!d.process_should_be_ignored(&exe, &cmd));
}

#[test]
fn dismissal_ignores_and_persists() {
    let mut d = default_detector();
    let exe = String::from("/bin/x");
    let cmd = String::from("a");
    let dir = d.handle_response(4, &exe, &cmd, NotifyOutcome::Dismissed);
    assert_eq!(dir, Directive::Persist);
    assert!(d.process_should_be_ignored(&exe, &cmd));
}

#[test]
fn timeouts_escalate_through_the_handler() {
    let mut d = default_detector();
    let exe = String::from("/bin/x");
    let cmd = String::from("a");
    let first = d.handle_response(4, &exe, &cmd, NotifyOutcome::TimedOut);
    assert_eq!(first, Directive::Nothing);
    assert!(!d.process_should_be_ignored(&exe, &cmd));
    let second = d.handle_response(4, &exe, &cmd, NotifyOutcome::TimedOut);
    assert_eq!(second, Directive::Persist);
    assert!(d.process_should_be_ignored(&exe, &cmd));
}

#[test]
fn unrecognized_outcome_is_a_no_op() {
    let mut d = default_detector();
    let exe = String::from("/bin/x");
    let cmd = String::from("a");
    assert_eq!(
        d.handle_response(4, &exe, &cmd, NotifyOutcome::Unrecognized),
        Directive::Nothing
    );
    assert_eq!(
        d.handle_response(4, &exe, &cmd, NotifyOutcome::OtherAction),
        Directive::Nothing
    );
    assert!(!d.process_should_be_ignored(&exe, &cmd));
    // An unrecognized outcome does not advance the timeout track either.
    assert_eq!(
        d.handle_response(4, &exe, &cmd, NotifyOutcome::TimedOut),
        Directive::Nothing
    );
}

#[test]
fn persisted_decisions_survive_a_restart() {
    // A dismissal's effect is durable: save, reload, and the identity stays
    // exempt in a fresh detector.
    let mut d = default_detector();
    let exe = String::from("/usr/bin/miner");
    let cmd = String::from("--full");
    d.handle_response(8, &exe, &cmd, NotifyOutcome::Dismissed);
    let bytes = d.ledger_bytes();
    let reloaded = IgnoreLedger::from_bytes(&bytes).unwrap();
    let mut d2 = HogDetector::new(Config::default(), reloaded);
    assert!(d2.process_should_be_ignored(&exe, &cmd));
    assert!(!d2.process_is_hog(8, &exe, &cmd, 9999));
}
