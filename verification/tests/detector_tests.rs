use hog_detector::detector::{
    Config, HogDetector, DEFAULT_CPU_THRESHOLD_CENTI, DEFAULT_HOGS_THRESHOLD,
    DEFAULT_PROMOTE_THRESHOLD, DEFAULT_TIMEOUTS_THRESHOLD,
};
use hog_detector::ledger::IgnoreLedger;

#[test]
fn default_config_matches_the_documented_policy() {
    let c = Config::default();
    assert_eq!(c.cpu_threshold_centi, DEFAULT_CPU_THRESHOLD_CENTI);
    assert_eq!(c.cpu_threshold_centi, 8500);
    assert_eq!(c.hogs_threshold, DEFAULT_HOGS_THRESHOLD);
    assert_eq!(c.hogs_threshold, 2);
    assert_eq!(c.timeouts_threshold, DEFAULT_TIMEOUTS_THRESHOLD);
    assert_eq!(c.timeouts_threshold, 2);
    assert_eq!(c.promote_threshold, DEFAULT_PROMOTE_THRESHOLD);
    assert_eq!(c.promote_threshold, 3);
}

fn default_detector() -> HogDetector {
    HogDetector::new(Config::default(), IgnoreLedger::new())
}

#[test]
fn below_threshold_never_reports() {
    let mut d = default_detector();
    let exe = String::from("/bin/quiet");
    let cmd = String::from("/bin/quiet --idle");
    for _ in 0..10 {
        assert!(!d.process_is_hog(42, &exe, &cmd, 8000));
    }
    // A later spike still needs a full window: the streak stayed at zero.
    assert!(!d.process_is_hog(42, &exe, &cmd, 9000));
    assert!(!d.process_is_hog(42, &exe, &cmd, 9000));
    assert!(d.process_is_hog(42, &exe, &cmd, 9000));
}

#[test]
fn exactly_at_threshold_does_not_count() {
    let mut d = default_detector();
    let exe = String::from("/bin/edge");
    let cmd = String::from("/bin/edge");
    // 85.00% is not strictly above the 85.00% threshold.
    for _ in 0..5 {
        assert!(!d.process_is_hog(7, &exe, &cmd, 8500));
    }
}

#[test]
fn three_cycles_above_then_report_then_reset() {
    // threshold = 85.0%, hogs threshold = 2: report on cycle 3, silent before.
    let mut d = default_detector();
    let exe = String::from("/usr/bin/spin");
    let cmd = String::from("/usr/bin/spin --fast");
    assert!(!d.process_is_hog(100, &exe, &cmd, 9000));
    assert!(!d.process_is_hog(100, &exe, &cmd, 9000));
    assert!(d.process_is_hog(100, &exe, &cmd, 9000));
    // Cycle 4 at 80%: no report, and the streak stays reset.
    assert!(!d.process_is_hog(100, &exe, &cmd, 8000));
    // A fresh window is needed again after the report.
    assert!(!d.process_is_hog(100, &exe, &cmd, 9000));
    assert!(!d.process_is_hog(100, &exe, &cmd, 9000));
    assert!(d.process_is_hog(100, &exe, &cmd, 9000));
}

#[test]
fn dip_resets_the_streak() {
    let mut d = default_detector();
    let exe = String::from("/usr/bin/bursty");
    let cmd = String::from("/usr/bin/bursty");
    assert!(!d.process_is_hog(5, &exe, &cmd, 9900));
    assert!(!d.process_is_hog(5, &exe, &cmd, 9900));
    // One below-threshold cycle clears all accumulated suspicion.
    assert!(!d.process_is_hog(5, &exe, &cmd, 1000));
    assert!(!d.process_is_hog(5, &exe, &cmd, 9900));
    assert!(!d.process_is_hog(5, &exe, &cmd, 9900));
    assert!(d.process_is_hog(5, &exe, &cmd, 9900));
}

#[test]
fn streaks_are_per_pid() {
    let mut d = default_detector();
    let exe = String::from("/usr/bin/spin");
    let cmd = String::from("/usr/bin/spin");
    assert!(!d.process_is_hog(1, &exe, &cmd, 9000));
    assert!(!d.process_is_hog(2, &exe, &cmd, 9000));
    assert!(!d.process_is_hog(1, &exe, &cmd, 9000));
    assert!(!d.process_is_hog(2, &exe, &cmd, 9000));
    assert!(d.process_is_hog(1, &exe, &cmd, 9000));
    assert!(d.process_is_hog(2, &exe, &cmd, 9000));
}

#[test]
fn ignored_process_is_never_reported() {
    let mut d = default_detector();
    let exe = String::from("/usr/bin/miner");
    let cmd = String::from("/usr/bin/miner --full");
    d.ignore(&exe, &cmd);
    for _ in 0..10 {
        assert!(!d.process_is_hog(3, &exe, &cmd, 9999));
    }
}

#[test]
fn ignoring_mid_streak_clears_the_streak() {
    let mut d = default_detector();
    let exe = String::from("/usr/bin/miner");
    let cmd = String::from("/usr/bin/miner");
    assert!(!d.process_is_hog(3, &exe, &cmd, 9999));
    assert!(!d.process_is_hog(3, &exe, &cmd, 9999));
    d.ignore(&exe, &cmd);
    // Exempt now: forced to zero, not reported.
    assert!(!d.process_is_hog(3, &exe, &cmd, 9999));
}

#[test]
fn two_timeouts_escalate_once_and_reset() {
    // timeouts threshold = 2: the second consecutive timeout triggers exactly
    // one ignore-and-persist and resets the counter.
    let mut d = default_detector();
    let exe = String::from("/usr/bin/slow");
    let cmd = String::from("/usr/bin/slow");
    assert!(!d.process_timeout(9, &exe, &cmd));
    assert!(d.process_timeout(9, &exe, &cmd));
    // After escalation the identity is ignored.
    assert!(d.process_should_be_ignored(&exe, &cmd));
    // And the counter starts over for the next identity of this pid.
    let cmd2 = String::from("/usr/bin/slow --again");
    assert!(!d.process_timeout(9, &exe, &cmd2));
    assert!(d.process_timeout(9, &exe, &cmd2));
}

#[test]
fn timeout_counters_are_per_pid() {
    let mut d = default_detector();
    let exe = String::from("/usr/bin/slow");
    let cmd = String::from("/usr/bin/slow");
    assert!(!d.process_timeout(1, &exe, &cmd));
    assert!(!d.process_timeout(2, &exe, &cmd));
    assert!(d.process_timeout(1, &exe, &cmd));
}

#[test]
fn prune_clears_streaks_of_dead_pids() {
    let mut d = default_detector();
    let exe = String::from("/usr/bin/spin");
    let cmd = String::from("/usr/bin/spin");
    assert!(!d.process_is_hog(11, &exe, &cmd, 9000));
    assert!(!d.process_is_hog(11, &exe, &cmd, 9000));
    assert!(!d.process_is_hog(12, &exe, &cmd, 9000));
    assert!(!d.process_is_hog(12, &exe, &cmd, 9000));
    // Pid 11 disappeared; pid 12 is still alive.
    d.prune(&vec![12]);
    // Pid 11's streak restarted from zero; pid 12's continued.
    assert!(!d.process_is_hog(11, &exe, &cmd, 9000));
    assert!(d.process_is_hog(12, &exe, &cmd, 9000));
}

#[test]
fn custom_thresholds_are_respected() {
    let config = Config {
        cpu_threshold_centi: 5000,
        hogs_threshold: 0,
        timeouts_threshold: 1,
        promote_threshold: 2,
    };
    let mut d = HogDetector::new(config, IgnoreLedger::new());
    let exe = String::from("/bin/x");
    let cmd = String::from("/bin/x");
    // hogs_threshold = 0: the very first above-threshold sample reports.
    assert!(d.process_is_hog(1, &exe, &cmd, 5001));
    // timeouts_threshold = 1: the first timeout escalates.
    assert!(d.process_timeout(1, &exe, &cmd));
}
