//! Tests for the key-value store: set/get, lazy TTL expiry, and sizing.

use respkv::store::Store;

#[test]
fn set_then_get_returns_value() {
    let mut db = Store::new();
    db.set(String::from("k"), String::from("v"), None, 100);
    assert_eq!(db.get(&String::from("k"), 100), Some(String::from("v")));
}

#[test]
fn get_absent_returns_nothing() {
    let mut db = Store::new();
    assert_eq!(db.get(&String::from("missing"), 0), None);
}

#[test]
fn entries_without_ttl_never_expire() {
    let mut db = Store::new();
    db.set(String::from("k"), String::from("v"), None, 100);
    assert_eq!(db.get(&String::from("k"), u64::MAX), Some(String::from("v")));
}

#[test]
fn ttl_entry_lives_until_deadline_passes() {
    let mut db = Store::new();
    db.set(String::from("k"), String::from("v"), Some(1), 100);
    assert_eq!(db.get(&String::from("k"), 100), Some(String::from("v")));
    assert_eq!(db.get(&String::from("k"), 101), Some(String::from("v")));
}

#[test]
fn ttl_entry_expires_and_is_evicted() {
    let mut db = Store::new();
    db.set(String::from("k"), String::from("v"), Some(1), 100);
    assert_eq!(db.get(&String::from("k"), 100), Some(String::from("v")));
    assert_eq!(db.size(), 1);
    assert_eq!(db.get(&String::from("k"), 102), None);
    assert_eq!(db.size(), 0);
}

#[test]
fn expired_entry_still_counts_until_touched() {
    let mut db = Store::new();
    db.set(String::from("k"), String::from("v"), Some(1), 100);
    // No access after the deadline yet: the entry still sits there.
    assert_eq!(db.size(), 1);
}

#[test]
fn size_counts_distinct_keys() {
    let mut db = Store::new();
    db.set(String::from("a"), String::from("1"), None, 0);
    db.set(String::from("b"), String::from("2"), None, 0);
    db.set(String::from("c"), String::from("3"), None, 0);
    assert_eq!(db.size(), 3);
}

#[test]
fn overwriting_a_key_keeps_size() {
    let mut db = Store::new();
    db.set(String::from("k"), String::from("old"), None, 0);
    db.set(String::from("k"), String::from("new"), None, 1);
    assert_eq!(db.size(), 1);
    assert_eq!(db.get(&String::from("k"), 1), Some(String::from("new")));
}

#[test]
fn later_write_wins_and_is_never_mixed() {
    // Two connections race on the same key; the store serializes the
    // writes, so the key ends with exactly one of the two values.
    let mut db = Store::new();
    db.set(String::from("k"), String::from("A"), None, 0);
    db.set(String::from("k"), String::from("B"), None, 0);
    let got = db.get(&String::from("k"), 0).unwrap();
    assert!(got == "A" || got == "B");
    assert_eq!(got, "B");
}

#[test]
fn clock_reading_before_stamp_counts_as_no_time() {
    let mut db = Store::new();
    db.set(String::from("k"), String::from("v"), Some(5), 100);
    assert_eq!(db.get(&String::from("k"), 90), Some(String::from("v")));
}

#[test]
fn empty_key_and_value_are_stored() {
    // The store itself never rejects a well-formed call; validation is
    // the dispatcher's job.
    let mut db = Store::new();
    db.set(String::new(), String::new(), None, 0);
    assert_eq!(db.get(&String::new(), 0), Some(String::new()));
    assert_eq!(db.size(), 1);
}
