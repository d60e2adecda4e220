use hog_detector::ledger::IgnoreLedger;

const PROMOTE: usize = 3;

#[test]
fn empty_ledger_ignores_nothing() {
    let l = IgnoreLedger::new();
    let exe = String::from("/bin/x");
    let cmd = String::from("a");
    assert!(!l.should_ignore(&exe, &cmd, PROMOTE));
}

#[test]
fn exact_command_line_is_exempt() {
    let mut l = IgnoreLedger::new();
    let exe = String::from("/bin/x");
    let a = String::from("a");
    let b = String::from("b");
    assert!(l.ignore(&exe, &a));
    assert!(l.should_ignore(&exe, &a, PROMOTE));
    assert!(!l.should_ignore(&exe, &b, PROMOTE));
}

#[test]
fn other_executable_is_not_exempt() {
    let mut l = IgnoreLedger::new();
    let exe = String::from("/bin/x");
    let other = String::from("/bin/y");
    let a = String::from("a");
    l.ignore(&exe, &a);
    assert!(!l.should_ignore(&other, &a, PROMOTE));
}

#[test]
fn reignoring_is_a_no_op() {
    let mut l = IgnoreLedger::new();
    let exe = String::from("/bin/x");
    let a = String::from("a");
    assert!(l.ignore(&exe, &a));
    assert!(!l.ignore(&exe, &a));
    assert!(l.should_ignore(&exe, &a, PROMOTE));
}

#[test]
fn promotion_after_three_distinct_command_lines() {
    // Ledger {"/bin/x": {"a","b","c"}}: a command line never ignored directly
    // is exempt through promotion.
    let mut l = IgnoreLedger::new();
    let exe = String::from("/bin/x");
    for cmd in ["a", "b", "c"] {
        assert!(l.ignore(&exe, &String::from(cmd)));
    }
    let d = String::from("d");
    assert!(l.should_ignore(&exe, &d, PROMOTE));
}

#[test]
fn no_promotion_below_three_distinct_command_lines() {
    let mut l = IgnoreLedger::new();
    let exe = String::from("/bin/x");
    l.ignore(&exe, &String::from("a"));
    l.ignore(&exe, &String::from("b"));
    // Re-ignoring does not add a distinct member.
    l.ignore(&exe, &String::from("b"));
    let d = String::from("d");
    assert!(!l.should_ignore(&exe, &d, PROMOTE));
}

#[test]
fn promotion_counts_per_executable() {
    let mut l = IgnoreLedger::new();
    let x = String::from("/bin/x");
    let y = String::from("/bin/y");
    l.ignore(&x, &String::from("a"));
    l.ignore(&x, &String::from("b"));
    l.ignore(&y, &String::from("c"));
    // Neither executable reached three distinct command lines.
    assert!(!l.should_ignore(&x, &String::from("z"), PROMOTE));
    assert!(!l.should_ignore(&y, &String::from("z"), PROMOTE));
}

#[test]
fn promote_threshold_is_tunable() {
    let mut l = IgnoreLedger::new();
    let exe = String::from("/bin/x");
    l.ignore(&exe, &String::from("a"));
    let z = String::from("z");
    assert!(l.should_ignore(&exe, &z, 1));
    assert!(!l.should_ignore(&exe, &z, 2));
}
