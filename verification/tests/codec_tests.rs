use hog_detector::ledger::{CacheError, IgnoreLedger};

const PROMOTE: usize = 3;

fn sample_ledger() -> IgnoreLedger {
    let mut l = IgnoreLedger::new();
    let x = String::from("/bin/x");
    let y = String::from("/usr/local/bin/y");
    l.ignore(&x, &String::from("a"));
    l.ignore(&x, &String::from("b --flag=1"));
    l.ignore(&y, &String::from(""));
    l
}

#[test]
fn three_records_round_trip() {
    let l = sample_ledger();
    let bytes = l.to_bytes();
    let l2 = IgnoreLedger::from_bytes(&bytes).unwrap();
    // The reloaded ledger behaves identically and re-encodes identically.
    let x = String::from("/bin/x");
    let y = String::from("/usr/local/bin/y");
    assert!(l2.should_ignore(&x, &String::from("a"), PROMOTE));
    assert!(l2.should_ignore(&x, &String::from("b --flag=1"), PROMOTE));
    assert!(l2.should_ignore(&y, &String::from(""), PROMOTE));
    assert!(!l2.should_ignore(&x, &String::from("c"), PROMOTE));
    assert!(!l2.should_ignore(&String::from("/bin/z"), &String::from("a"), PROMOTE));
    assert_eq!(l2.to_bytes(), bytes);
}

#[test]
fn empty_file_is_an_empty_ledger() {
    let bytes: Vec<u8> = Vec::new();
    let l = IgnoreLedger::from_bytes(&bytes).unwrap();
    assert!(!l.should_ignore(&String::from("/bin/x"), &String::from("a"), PROMOTE));
}

#[test]
fn empty_ledger_round_trips() {
    let l = IgnoreLedger::new();
    let bytes = l.to_bytes();
    // A saved empty ledger is not an empty file, but still loads as empty.
    assert!(!bytes.is_empty());
    let l2 = IgnoreLedger::from_bytes(&bytes).unwrap();
    assert_eq!(l2.to_bytes(), bytes);
}

#[test]
fn non_ascii_identities_round_trip() {
    let mut l = IgnoreLedger::new();
    let exe = String::from("/usr/bin/caffè");
    let cmd = String::from("--mode=ünïcode λ");
    l.ignore(&exe, &cmd);
    let bytes = l.to_bytes();
    let l2 = IgnoreLedger::from_bytes(&bytes).unwrap();
    assert!(l2.should_ignore(&exe, &cmd, PROMOTE));
    assert!(!l2.should_ignore(&String::from("/usr/bin/caffe"), &cmd, PROMOTE));
}

#[test]
fn truncated_file_is_corrupt() {
    let l = sample_ledger();
    let mut bytes = l.to_bytes();
    bytes.pop();
    assert!(matches!(IgnoreLedger::from_bytes(&bytes), Err(CacheError::Corrupt)));
}

#[test]
fn trailing_garbage_is_corrupt() {
    let l = sample_ledger();
    let mut bytes = l.to_bytes();
    bytes.push(0);
    assert!(matches!(IgnoreLedger::from_bytes(&bytes), Err(CacheError::Corrupt)));
}

#[test]
fn short_header_is_corrupt() {
    let bytes = vec![1u8, 2, 3];
    assert!(matches!(IgnoreLedger::from_bytes(&bytes), Err(CacheError::Corrupt)));
}

#[test]
fn invalid_utf8_is_corrupt() {
    // One entry whose executable path claims two bytes of invalid UTF-8.
    let mut bytes: Vec<u8> = Vec::new();
    bytes.extend_from_slice(&1u64.to_le_bytes());
    bytes.extend_from_slice(&2u64.to_le_bytes());
    bytes.extend_from_slice(&[0xff, 0xfe]);
    bytes.extend_from_slice(&0u64.to_le_bytes());
    assert!(matches!(IgnoreLedger::from_bytes(&bytes), Err(CacheError::Corrupt)));
}

#[test]
fn duplicate_executables_are_corrupt() {
    // Two entries under the same executable path cannot come from a save.
    let mut one = IgnoreLedger::new();
    one.ignore(&String::from("/bin/x"), &String::from("a"));
    let entry = &one.to_bytes()[8..];
    let mut bytes: Vec<u8> = Vec::new();
    bytes.extend_from_slice(&2u64.to_le_bytes());
    bytes.extend_from_slice(entry);
    bytes.extend_from_slice(entry);
    assert!(matches!(IgnoreLedger::from_bytes(&bytes), Err(CacheError::Corrupt)));
}

#[test]
fn duplicate_command_lines_are_corrupt() {
    // One entry listing the same command line twice cannot come from a save.
    let mut bytes: Vec<u8> = Vec::new();
    bytes.extend_from_slice(&1u64.to_le_bytes());
    bytes.extend_from_slice(&2u64.to_le_bytes());
    bytes.extend_from_slice(b"/x");
    bytes.extend_from_slice(&2u64.to_le_bytes());
    for _ in 0..2 {
        bytes.extend_from_slice(&1u64.to_le_bytes());
        bytes.extend_from_slice(b"a");
    }
    assert!(matches!(IgnoreLedger::from_bytes(&bytes), Err(CacheError::Corrupt)));
}

#[test]
fn handcrafted_file_loads() {
    // A file written byte by byte against the documented format.
    let mut bytes: Vec<u8> = Vec::new();
    bytes.extend_from_slice(&1u64.to_le_bytes());
    bytes.extend_from_slice(&6u64.to_le_bytes());
    bytes.extend_from_slice(b"/bin/x");
    bytes.extend_from_slice(&1u64.to_le_bytes());
    bytes.extend_from_slice(&1u64.to_le_bytes());
    bytes.extend_from_slice(b"a");
    let l = IgnoreLedger::from_bytes(&bytes).unwrap();
    assert!(l.should_ignore(&String::from("/bin/x"), &String::from("a"), PROMOTE));
    assert_eq!(l.to_bytes(), bytes);
}
