use dnadb_engine::audit::{AuditError, AuditLog, AuditWrite};
use dnadb_engine::auth::{
    AuthError, CreateIdentityRequest, CredentialKind, IdentityStore, IdentityType,
};
use dnadb_engine::json_value::Record;
use dnadb_engine::mvcc::VersionChain;
use dnadb_engine::overlay::{
    OverlayAccess, OverlayDefinition, OverlayError, OverlayMutation, OverlayRegistry,
};
use dnadb_engine::privacy::mask_record_for_overlay;
use dnadb_engine::support::str_map::StrMap;
use dnadb_engine::tls::{
    production_secure_defaults, validate_tls_policy, Environment, TlsConfig, TlsPolicyError,
};
use dnadb_engine::transaction::{TransactionManager, TxnStatus};
use serde_json::Value;

fn audit_write(ts: u64) -> AuditWrite {
    AuditWrite {
        timestamp_ns: ts,
        identity_id: "user:alice".to_string(),
        overlay: "support".to_string(),
        operation: "read".to_string(),
        collection: "users".to_string(),
        strand_count: 1,
        fields_returned: vec!["id".to_string()],
        query_pattern: "id = ?".to_string(),
        client_ip: "10.0.0.1".to_string(),
        duration_ms: 3,
    }
}

#[test]
fn audit_entries_hash_the_encoded_parts() {
    let mut log = AuditLog::new();
    let first = log.append_with_id(audit_write(5), "a-1").expect("append").clone();
    let parts = (
        None::<&str>,
        "audit:a-1",
        5u64,
        "user:alice",
        "support",
        "read",
        "users",
        1u64,
        vec!["id".to_string()],
        "id = ?",
        "10.0.0.1",
        3u64,
    );
    let encoded = bincode::serialize(&parts).expect("encode");
    assert_eq!(first.entry_hash, blake3::hash(&encoded).to_hex().to_string());
}

#[test]
fn audit_ids_are_fresh() {
    let mut log = AuditLog::new();
    let a = log.append(audit_write(1)).expect("a").audit_id.clone();
    let b = log.append(audit_write(1)).expect("b").audit_id.clone();
    assert_ne!(a, b);
    assert!(a.starts_with("audit:"));
    assert_eq!(a.len(), 6 + 32);
    assert_eq!(a.as_bytes()[6 + 12], b'4');
}

#[test]
fn removed_audit_entry_is_detected() {
    let mut log = AuditLog::new();
    for ts in 1..=3 {
        log.append(audit_write(ts)).expect("append");
    }
    let mut entries = log.entries().to_vec();
    entries.remove(1);
    assert!(matches!(
        AuditLog::from_entries(entries).verify_integrity(),
        Err(AuditError::IntegrityFailure(1))
    ));
}

#[test]
fn rehashed_audit_entry_breaks_the_next_link() {
    let mut log = AuditLog::new();
    for ts in 1..=2 {
        log.append(audit_write(ts)).expect("append");
    }
    let mut other = AuditLog::new();
    let forged = other.append_with_id(audit_write(9), "forged").expect("append").clone();
    let mut entries = log.entries().to_vec();
    entries[0] = forged;
    assert!(matches!(
        AuditLog::from_entries(entries).verify_integrity(),
        Err(AuditError::IntegrityFailure(1))
    ));
}

fn request(name: &str, password: Option<&str>, api_key: Option<&str>) -> CreateIdentityRequest {
    CreateIdentityRequest {
        name: name.to_string(),
        identity_type: IdentityType::Human,
        overlay: "support".to_string(),
        allowed_collections: vec!["users".to_string()],
        token_expiry_seconds: 60,
        mfa_required: false,
        password: password.map(|s| s.to_string()),
        api_key: api_key.map(|s| s.to_string()),
    }
}

#[test]
fn identity_names_are_unique() {
    let mut store = IdentityStore::new();
    let first = store.create_identity(request("alice", Some("p"), None)).expect("first");
    assert_eq!(store.get_identity_by_name("alice").map(|i| i.identity_id), Some(first.identity_id));
    assert!(store.get_identity_by_name("bob").is_none());
    assert!(matches!(
        store.create_identity(request("alice", Some("q"), None)),
        Err(AuthError::DuplicateIdentity(n)) if n == "alice"
    ));
}

#[test]
fn identity_ids_have_a_version_and_a_variant() {
    let mut store = IdentityStore::new();
    let a = store.create_identity(request("a", Some("p"), None)).expect("a").identity_id;
    let b = store.create_identity(request("b", Some("p"), None)).expect("b").identity_id;
    assert_ne!(a, b);
    assert_eq!(a[6] >> 4, 4);
    assert_eq!(a[8] >> 6, 2);
}

#[test]
fn session_lasts_until_it_expires() {
    let mut store = IdentityStore::new();
    store.create_identity_with_id(request("alice", Some("p"), None), [7; 16]).expect("identity");
    let s = store
        .authenticate_at("alice", CredentialKind::Password, "p", 1_000, [9; 16])
        .expect("session");
    assert_eq!(s.token, format!("st_{}", "09".repeat(16)));
    assert_eq!(s.identity_id, [7; 16]);
    assert_eq!(s.expires_at_ns, 1_000 + 60_000_000_000);
    assert!(store.validate_session_at(&s.token, s.expires_at_ns - 1).is_ok());
    assert!(matches!(
        store.validate_session_at(&s.token, s.expires_at_ns),
        Err(AuthError::SessionExpired)
    ));
    assert!(matches!(store.validate_session_at("none", 0), Err(AuthError::SessionNotFound)));
}

#[test]
fn revoked_session_is_refused() {
    let mut store = IdentityStore::new();
    store.create_identity(request("alice", Some("p"), None)).expect("identity");
    let s = store.authenticate_with_password("alice", "p").expect("session");
    store.revoke_session(&s.token).expect("revoke");
    assert!(matches!(store.validate_session(&s.token), Err(AuthError::SessionRevoked)));
    assert!(matches!(store.refresh_session(&s.token), Err(AuthError::SessionRevoked)));
    assert!(matches!(store.revoke_session("none"), Err(AuthError::SessionNotFound)));
}

#[test]
fn unknown_identity_and_missing_credential_are_refused() {
    let mut store = IdentityStore::new();
    store.create_identity(request("alice", Some("p"), None)).expect("identity");
    assert!(matches!(
        store.authenticate_with_password("bob", "p"),
        Err(AuthError::IdentityNotFound(n)) if n == "bob"
    ));
    assert!(matches!(
        store.authenticate_with_api_key("alice", "p"),
        Err(AuthError::UnsupportedCredentialKind(_))
    ));
}

fn partial(name: &str, extends: Option<&str>) -> OverlayDefinition {
    OverlayDefinition {
        name: name.to_string(),
        access: OverlayAccess::Partial,
        collections: vec!["users".to_string()],
        include_fields: StrMap::new(),
        exclude_fields: StrMap::new(),
        mutations: vec![OverlayMutation::Read],
        extends: extends.map(|s| s.to_string()),
        additionally_include: StrMap::new(),
    }
}

#[test]
fn unknown_overlays_do_not_resolve() {
    let mut reg = OverlayRegistry::new();
    assert!(matches!(
        reg.resolve_overlay("a"),
        Err(OverlayError::OverlayNotFound(n)) if n == "a"
    ));
    reg.define_overlay(partial("a", Some("b")));
    assert!(matches!(
        reg.resolve_overlay("a"),
        Err(OverlayError::UnresolvedParent(n, p)) if n == "a" && p == "b"
    ));
    assert!(reg.get_overlay("a").is_some());
    assert!(reg.get_overlay("b").is_none());
}

#[test]
fn inheritance_cycle_does_not_resolve() {
    let mut reg = OverlayRegistry::new();
    reg.define_overlay(partial("a", Some("b")));
    reg.define_overlay(partial("b", Some("a")));
    assert!(matches!(reg.resolve_overlay("a"), Err(OverlayError::InheritanceCycle(_))));
}

#[test]
fn unknown_session_does_not_resolve() {
    let auth = IdentityStore::new();
    let reg = OverlayRegistry::new();
    assert!(matches!(
        reg.resolve_for_session(&auth, "none"),
        Err(OverlayError::Auth(AuthError::SessionNotFound))
    ));
}

#[test]
fn exclusion_wins_over_inclusion() {
    let mut reg = OverlayRegistry::new();
    let mut d = partial("a", None);
    d.include_fields.insert("users".to_string(), vec!["id".to_string(), "ssn".to_string()]);
    d.exclude_fields.insert("users".to_string(), vec!["ssn".to_string()]);
    reg.define_overlay(d);
    let r = reg.resolve_overlay("a").expect("resolved");
    assert!(r.is_field_visible("users", "id"));
    assert!(!r.is_field_visible("users", "ssn"));
}

#[test]
fn overlay_never_leaks_fields() {
    let all = ["id", "email", "ssn", "password_hash"];
    for allowed in 0..=all.len() {
        let mut reg = OverlayRegistry::new();
        let mut d = partial("restricted", None);
        let shown: Vec<String> = all[..allowed].iter().map(|s| s.to_string()).collect();
        d.include_fields.insert("users".to_string(), shown.clone());
        reg.define_overlay(d);
        let overlay = reg.resolve_overlay("restricted").expect("overlay");
        let mut record = Record::new();
        for f in all {
            record.insert(f.to_string(), Value::from(f));
        }
        let out = mask_record_for_overlay("users", &record, &overlay).expect("mask");
        for i in 0..out.len() {
            assert!(shown.contains(out.key(i)));
            assert_eq!(out.value(i), &Value::from(out.key(i).as_str()));
        }
    }
}

#[test]
fn snapshot_never_sees_future_write() {
    for (snapshot, write) in [(0u64, 0u64), (5, 4), (4, 5), (999, 0), (0, 999)] {
        let mut chain = VersionChain::new(1);
        chain.insert_version(Record::new(), 1, write);
        assert_eq!(chain.visible_at(snapshot).is_some(), write <= snapshot);
    }
}

#[test]
fn chain_knows_its_latest_version() {
    let mut chain = VersionChain::new(1);
    assert_eq!(chain.latest_ts(), None);
    chain.insert_version(Record::new(), 1, 10);
    chain.delete(2, 20);
    assert_eq!(chain.latest_ts(), Some(20));
    assert_eq!(chain.version_count(), 2);
}

#[test]
fn finished_transaction_cannot_commit_or_roll_back() {
    let mut tm = TransactionManager::new();
    let mut tx = tm.begin();
    tm.upsert(&mut tx, 1, Record::new());
    assert!(tm.can_commit(&tx).is_ok());
    tm.commit(&mut tx).expect("commit");
    assert_eq!(tx.status, TxnStatus::Committed);
    assert!(tm.can_commit(&tx).is_err());
    assert!(tm.commit(&mut tx).is_err());
    assert!(tm.rollback(&mut tx).is_err());
    assert_eq!(tm.record_version_count(1), 1);
    assert_eq!(tm.oldest_active_snapshot(), None);
}

#[test]
fn visible_records_show_the_snapshot() {
    let mut tm = TransactionManager::new();
    let mut seed = tm.begin();
    for id in [3u64, 1, 2] {
        let mut r = Record::new();
        r.insert("v".to_string(), Value::from(id));
        tm.upsert(&mut seed, id, r);
    }
    tm.commit(&mut seed).expect("seed");
    let reader = tm.begin();
    let mut tx = tm.begin();
    tm.delete(&mut tx, 2);
    assert!(tm.read(&tx, 2).is_none());
    tm.commit(&mut tx).expect("delete");
    let seen = |tm: &TransactionManager, tx| {
        let mut ids: Vec<u64> = tm.visible_records(tx).iter().map(|(id, _)| *id).collect();
        ids.sort_unstable();
        ids
    };
    assert_eq!(seen(&tm, &reader), vec![1, 2, 3]);
    let later = tm.begin();
    assert_eq!(seen(&tm, &later), vec![1, 3]);
}

#[test]
fn default_tls_settings_are_checked() {
    let cfg = TlsConfig::default();
    assert!(matches!(
        validate_tls_policy(&cfg, Environment::Production),
        Err(TlsPolicyError::MissingCertFile)
    ));
    assert_eq!(
        production_secure_defaults().cert_file.as_deref(),
        Some("/certs/server.crt")
    );
}
