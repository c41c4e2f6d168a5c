use serde_json::Value;

use dnadb_engine::transaction::{TransactionManager, TxnStatus};
use dnadb_engine::json_value::Record;

fn record(version: u64) -> Record {
    let mut r = Record::new();
    r.insert("v".to_string(), Value::from(version));
    r
}

#[test]
fn commit_is_atomic_and_visible_after_commit() {
    let mut tm = TransactionManager::new();
    let mut tx = tm.begin();
    tm.upsert(&mut tx, 1, record(1));
    tm.upsert(&mut tx, 2, record(2));
    assert!(tm.read(&tx, 1).is_some(), "read-your-writes before commit");
    assert_eq!(tx.status, TxnStatus::Active);
    tm.commit(&mut tx).expect("commit");
    assert_eq!(tx.status, TxnStatus::Committed);

    let reader = tm.begin();
    assert_eq!(
        tm.read(&reader, 1).and_then(|r| r.get("v").cloned()),
        Some(Value::from(1))
    );
    assert_eq!(
        tm.read(&reader, 2).and_then(|r| r.get("v").cloned()),
        Some(Value::from(2))
    );
}

#[test]
fn rollback_discards_pending_writes() {
    let mut tm = TransactionManager::new();
    let mut tx = tm.begin();
    tm.upsert(&mut tx, 1, record(1));
    tm.rollback(&mut tx).expect("rollback");
    assert_eq!(tx.status, TxnStatus::RolledBack);
    let reader = tm.begin();
    assert!(tm.read(&reader, 1).is_none());
}

#[test]
fn snapshot_isolation_keeps_old_reader_stable() {
    let mut tm = TransactionManager::new();
    let mut t1 = tm.begin();
    tm.upsert(&mut t1, 10, record(1));
    tm.commit(&mut t1).expect("commit t1");

    let old_reader = tm.begin(); // snapshot before new write

    let mut writer = tm.begin();
    tm.upsert(&mut writer, 10, record(2));
    tm.commit(&mut writer).expect("commit writer");

    assert_eq!(
        tm.read(&old_reader, 10).and_then(|r| r.get("v").cloned()),
        Some(Value::from(1))
    );
    let new_reader = tm.begin();
    assert_eq!(
        tm.read(&new_reader, 10).and_then(|r| r.get("v").cloned()),
        Some(Value::from(2))
    );
}

#[test]
fn delete_creates_tombstone_visibility() {
    let mut tm = TransactionManager::new();
    let mut create = tm.begin();
    tm.upsert(&mut create, 3, record(1));
    tm.commit(&mut create).expect("create commit");

    let old_reader = tm.begin();
    let mut deleter = tm.begin();
    tm.delete(&mut deleter, 3);
    tm.commit(&mut deleter).expect("delete commit");

    assert!(tm.read(&old_reader, 3).is_some(), "old snapshot still sees row");
    let new_reader = tm.begin();
    assert!(tm.read(&new_reader, 3).is_none(), "new snapshot sees deletion");
}

#[test]
fn conflicting_writes_reject_later_commit() {
    let mut tm = TransactionManager::new();
    let mut seed = tm.begin();
    tm.upsert(&mut seed, 77, record(1));
    tm.commit(&mut seed).expect("seed commit");

    let mut t1 = tm.begin();
    let mut t2 = tm.begin();
    tm.upsert(&mut t1, 77, record(2));
    tm.upsert(&mut t2, 77, record(3));

    tm.commit(&mut t1).expect("first writer commits");
    let err = tm.commit(&mut t2).expect_err("second writer should conflict");
    assert_eq!(err, "write-write conflict");
}

#[test]
fn compaction_preserves_oldest_active_snapshot_visibility() {
    let mut tm = TransactionManager::new();
    let mut seed = tm.begin();
    tm.upsert(&mut seed, 1, record(1));
    tm.commit(&mut seed).expect("seed");

    let old_reader = tm.begin();

    let mut w2 = tm.begin();
    tm.upsert(&mut w2, 1, record(2));
    tm.commit(&mut w2).expect("w2");
    let mut w3 = tm.begin();
    tm.upsert(&mut w3, 1, record(3));
    tm.commit(&mut w3).expect("w3");

    tm.compact_versions_with_floor(1);
    assert_eq!(
        tm.read(&old_reader, 1).and_then(|r| r.get("v").cloned()),
        Some(Value::from(1))
    );
    let new_reader = tm.begin();
    assert_eq!(
        tm.read(&new_reader, 1).and_then(|r| r.get("v").cloned()),
        Some(Value::from(3))
    );
}
