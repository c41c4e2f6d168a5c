use serde_json::Value;

use dnadb_engine::json_value::Record;
use dnadb_engine::mvcc::VersionChain;

fn fake_record(version: u64) -> Record {
    let mut r = Record::new();
    r.insert("version".to_string(), Value::from(version));
    r
}

#[test]
fn read_sees_own_write() {
    let mut chain = VersionChain::new(42);
    chain.insert_version(fake_record(1), 1, 100);
    assert!(chain.visible_at(100).is_some());
}

#[test]
fn read_does_not_see_future_write() {
    let mut chain = VersionChain::new(42);
    chain.insert_version(fake_record(2), 2, 200);
    assert!(chain.visible_at(100).is_none());
}

#[test]
fn deleted_record_is_invisible() {
    let mut chain = VersionChain::new(42);
    chain.insert_version(fake_record(1), 1, 100);
    chain.delete(2, 200);
    assert!(chain.visible_at(300).is_none());
}

#[test]
fn concurrent_snapshot_isolation_semantics() {
    let mut chain = VersionChain::new(7);
    chain.insert_version(fake_record(1), 1, 100);
    // "Long-running read transaction" snapshot at 150
    let before = chain.visible_at(150).expect("visible at 150");
    assert_eq!(before.get("version"), Some(&Value::from(1)));
    // Concurrent write at ts=200
    chain.insert_version(fake_record(2), 2, 200);
    // Old snapshot still sees old value; new snapshot sees new value.
    let old_snap = chain.visible_at(150).expect("visible at old snapshot");
    let new_snap = chain.visible_at(250).expect("visible at new snapshot");
    assert_eq!(old_snap.get("version"), Some(&Value::from(1)));
    assert_eq!(new_snap.get("version"), Some(&Value::from(2)));
}

#[test]
fn compaction_keeps_boundary_and_newer_versions() {
    let mut chain = VersionChain::new(99);
    chain.insert_version(fake_record(1), 1, 10);
    chain.insert_version(fake_record(2), 2, 20);
    chain.insert_version(fake_record(3), 3, 30);
    chain.insert_version(fake_record(4), 4, 40);
    chain.compact_for_oldest_snapshot(25);
    assert_eq!(chain.version_count(), 3);
    let old = chain.visible_at(25).expect("visible at 25");
    let newest = chain.visible_at(100).expect("visible at 100");
    assert_eq!(old.get("version"), Some(&Value::from(2)));
    assert_eq!(newest.get("version"), Some(&Value::from(4)));
}

#[test]
fn compaction_floor_keeps_minimum_versions() {
    let mut chain = VersionChain::new(100);
    chain.insert_version(fake_record(1), 1, 10);
    chain.insert_version(fake_record(2), 2, 20);
    chain.insert_version(fake_record(3), 3, 30);
    chain.compact_for_oldest_snapshot_with_floor(5, 2);
    assert!(chain.version_count() >= 2);
}
