use dnadb_engine::audit::{AuditError, AuditLog, AuditWrite};

fn write(ts: u64, pattern: &str) -> AuditWrite {
    AuditWrite {
        timestamp_ns: ts,
        identity_id: "user:alice".into(),
        overlay: "support_agent".into(),
        operation: "read".into(),
        collection: "users".into(),
        strand_count: 1,
        fields_returned: vec!["id".into(), "email".into()],
        query_pattern: pattern.into(),
        client_ip: "10.0.0.1".into(),
        duration_ms: 3,
    }
}

#[test]
fn append_creates_hash_chain() {
    let mut log = AuditLog::new();
    let e1 = log.append(write(1, "email = ?")).expect("e1").clone();
    let e2 = log.append(write(2, "id = ?")).expect("e2").clone();
    assert!(e1.prev_hash.is_none());
    assert_eq!(e2.prev_hash.as_deref(), Some(e1.entry_hash.as_str()));
    assert!(log.verify_integrity().is_ok());
}

#[test]
fn integrity_verification_detects_tampering() {
    let mut log = AuditLog::new();
    log.append(write(1, "email = ?")).expect("e1");
    log.append(write(2, "id = ?")).expect("e2");

    // Simulate unauthorized mutation in-memory.
    let mut entries = log.entries().to_vec();
    entries[1].query_pattern = "tampered".to_string();
    let log = AuditLog::from_entries(entries);

    let err = log.verify_integrity().expect_err("should fail");
    assert!(matches!(err, AuditError::IntegrityFailure(1)));
}

#[test]
fn entries_carry_random_identifiers() {
    let mut log = AuditLog::new();
    let id = log.append(write(1, "email = ?")).expect("e1").audit_id.clone();
    let id = id.strip_prefix("audit:").expect("prefix");
    assert_eq!(id.len(), 32);
    assert!(id.bytes().all(|b| b.is_ascii_digit() || (b'a'..=b'f').contains(&b)));
    assert_eq!(&id[12..13], "4");
    assert!(["8", "9", "a", "b"].contains(&&id[16..17]));
}
