use dnadb_engine::auth::{AuthError, CreateIdentityRequest, IdentityStore, IdentityType};

#[test]
fn create_identity_and_authenticate_password() {
    let mut store = IdentityStore::new();
    store
        .create_identity(CreateIdentityRequest {
            name: "alice".into(),
            identity_type: IdentityType::Human,
            overlay: "support_agent".into(),
            allowed_collections: vec!["users".into(), "orders".into()],
            token_expiry_seconds: 60,
            mfa_required: false,
            password: Some("secret".into()),
            api_key: None,
        })
        .expect("identity");

    let s = store
        .authenticate_with_password("alice", "secret")
        .expect("session");
    let validated = store.validate_session(&s.token).expect("validate");
    assert_eq!(validated.overlay, "support_agent");
    assert!(!validated.revoked);
}

#[test]
fn api_key_auth_and_refresh_rotates_token() {
    let mut store = IdentityStore::new();
    store
        .create_identity(CreateIdentityRequest {
            name: "svc-billing".into(),
            identity_type: IdentityType::Service,
            overlay: "admin".into(),
            allowed_collections: vec!["*".into()],
            token_expiry_seconds: 60,
            mfa_required: false,
            password: None,
            api_key: Some("apikey-1".into()),
        })
        .expect("identity");

    let s1 = store
        .authenticate_with_api_key("svc-billing", "apikey-1")
        .expect("session");
    let s2 = store.refresh_session(&s1.token).expect("refresh");
    assert_ne!(s1.token, s2.token);
    assert!(matches!(
        store.validate_session(&s1.token),
        Err(AuthError::SessionRevoked)
    ));
    assert!(store.validate_session(&s2.token).is_ok());
}

#[test]
fn wrong_credentials_fail() {
    let mut store = IdentityStore::new();
    store
        .create_identity(CreateIdentityRequest {
            name: "bob".into(),
            identity_type: IdentityType::Human,
            overlay: "read_only".into(),
            allowed_collections: vec!["users".into()],
            token_expiry_seconds: 60,
            mfa_required: false,
            password: Some("correct".into()),
            api_key: None,
        })
        .expect("identity");

    assert!(matches!(
        store.authenticate_with_password("bob", "wrong"),
        Err(AuthError::InvalidCredentials)
    ));
}

#[test]
fn zero_ttl_is_rejected() {
    let mut store = IdentityStore::new();
    let out = store.create_identity(CreateIdentityRequest {
        name: "bad".into(),
        identity_type: IdentityType::Human,
        overlay: "x".into(),
        allowed_collections: vec![],
        token_expiry_seconds: 0,
        mfa_required: false,
        password: Some("x".into()),
        api_key: None,
    });
    assert!(matches!(out, Err(AuthError::InvalidTokenExpiry)));
}

#[test]
fn identities_and_sessions_carry_random_identifiers() {
    let mut store = IdentityStore::new();
    let alice = store
        .create_identity(CreateIdentityRequest {
            name: "alice".into(),
            identity_type: IdentityType::Human,
            overlay: "support_agent".into(),
            allowed_collections: vec![],
            token_expiry_seconds: 60,
            mfa_required: false,
            password: Some("secret".into()),
            api_key: None,
        })
        .expect("identity");
    assert_eq!(alice.identity_id[6] >> 4, 4);
    assert_eq!(alice.identity_id[8] >> 6, 2);
    let first = store.authenticate_with_password("alice", "secret").expect("session");
    let second = store.refresh_session(&first.token).expect("refreshed");
    for token in [&first.token, &second.token] {
        assert!(token.starts_with("st_"));
        assert_eq!(token.len(), 35);
        assert_eq!(&token[15..16], "4");
        assert!(["8", "9", "a", "b"].contains(&&token[19..20]));
    }
    assert_ne!(first.token, second.token);
}
