use dnadb_engine::audit::AuditError;
use dnadb_engine::auth::AuthError;
use dnadb_engine::codec::CodecError;
use dnadb_engine::encoding::EncodingError;
use dnadb_engine::overlay::OverlayError;
use dnadb_engine::privacy::PrivacyError;
use dnadb_engine::query::compile::CompileError;
use dnadb_engine::storage::StorageError;
use dnadb_engine::tls::TlsPolicyError;

#[test]
fn auth_errors_have_their_texts() {
    let name = || "bob".to_string();
    for (e, text) in [
        (AuthError::DuplicateIdentity(name()), "identity name already exists: bob"),
        (AuthError::IdentityNotFound(name()), "identity not found: bob"),
        (AuthError::InvalidCredentials, "invalid credentials"),
        (
            AuthError::UnsupportedCredentialKind(name()),
            "credential kind is not configured for identity: bob",
        ),
        (AuthError::SessionNotFound, "session token not found"),
        (AuthError::SessionExpired, "session token expired"),
        (AuthError::SessionRevoked, "session token revoked"),
        (AuthError::InvalidTokenExpiry, "token expiry must be > 0 seconds"),
    ] {
        assert_eq!(e.message(), text);
    }
}

#[test]
fn overlay_errors_have_their_texts() {
    let s = |t: &str| t.to_string();
    assert_eq!(OverlayError::OverlayNotFound(s("a")).message(), "overlay not found: a");
    assert_eq!(
        OverlayError::UnresolvedParent(s("a"), s("b")).message(),
        "overlay `a` has unresolved parent: b"
    );
    assert_eq!(
        OverlayError::InheritanceCycle(s("a")).message(),
        "overlay inheritance cycle detected at: a"
    );
    assert_eq!(
        OverlayError::Auth(AuthError::SessionExpired).message(),
        "identity/session error: session token expired"
    );
    assert_eq!(
        PrivacyError::CollectionDenied(s("users")).message(),
        "collection is not accessible in overlay: users"
    );
}

#[test]
fn storage_errors_have_their_texts() {
    assert_eq!(CodecError::InvalidMagic.message(), "invalid strand magic header");
    assert_eq!(
        CodecError::UnsupportedVersion(7).message(),
        "unsupported strand format version: 7"
    );
    assert_eq!(CodecError::PayloadTooShort.message(), "payload too short");
    assert_eq!(CodecError::Serialize("x".to_string()).message(), "serialization error: x");
    assert_eq!(
        StorageError::StrandScan(CodecError::PayloadTooShort).message(),
        "strand pool scan: payload too short"
    );
    assert_eq!(StorageError::BufferFull.message(), "buffer full, resize not implemented yet");
    assert_eq!(EncodingError::InvalidSymbol(9).message(), "invalid codon symbol: 9");
    assert_eq!(EncodingError::InsufficientSymbols.message(), "insufficient encoded symbols");
    assert_eq!(
        TlsPolicyError::MinVersionTooLow.message(),
        "minimum TLS version must be 1.3 in non-local environments"
    );
}

#[test]
fn audit_and_compile_errors_have_their_texts() {
    let broken = || bincode::deserialize::<u64>(&[1]).expect_err("too short");
    assert_eq!(
        AuditError::IntegrityFailure(4).message(),
        "audit chain integrity check failed at index 4"
    );
    assert_eq!(
        AuditError::Serialize(broken()).message(),
        format!("serialization error: {}", broken())
    );
    assert_eq!(CompileError::EmptyCollection.message(), "collection name must be non-empty");
    assert_eq!(
        CompileError::UnsupportedOperator("age".to_string()).message(),
        "unsupported where operator for field `age`: LIKE is only supported as LikePattern"
    );
    assert_eq!(
        CompileError::Serialize(broken()).message(),
        format!("serialization error: {}", broken())
    );
}
