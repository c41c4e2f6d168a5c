use dnadb_engine::overlay::{
    OverlayAccess, OverlayDefinition, OverlayMutation, OverlayRegistry, ResolvedOverlay,
};
use dnadb_engine::auth::{CreateIdentityRequest, IdentityStore, IdentityType};
use dnadb_engine::support::str_map::StrMap;

fn support_overlay() -> OverlayDefinition {
    let mut include_fields = StrMap::new();
    include_fields.insert(
        "users".to_string(),
        vec![
            "id".to_string(),
            "name".to_string(),
            "email".to_string(),
            "created_at".to_string(),
        ],
    );
    let mut exclude_fields = StrMap::new();
    exclude_fields.insert(
        "users".to_string(),
        vec!["ssn".to_string(), "password_hash".to_string()],
    );
    OverlayDefinition {
        name: "support_agent".to_string(),
        access: OverlayAccess::Partial,
        collections: vec!["users".to_string(), "orders".to_string()],
        include_fields,
        exclude_fields,
        mutations: vec![OverlayMutation::Read],
        extends: None,
        additionally_include: StrMap::new(),
    }
}

#[test]
fn resolves_basic_overlay_and_field_visibility() {
    let mut registry = OverlayRegistry::new();
    registry.define_overlay(support_overlay());

    let resolved = registry.resolve_overlay("support_agent").expect("resolved");
    assert!(resolved.can_access_collection("users"));
    assert!(!resolved.can_access_collection("products"));
    assert!(resolved.can_mutate(OverlayMutation::Read));
    assert!(!resolved.can_mutate(OverlayMutation::Write));
    assert!(resolved.is_field_visible("users", "email"));
    assert!(!resolved.is_field_visible("users", "ssn"));
    assert!(!resolved.is_field_visible("users", "account_tier"));
}

#[test]
fn resolves_compound_overlay_with_extends() {
    let mut registry = OverlayRegistry::new();
    registry.define_overlay(support_overlay());

    let mut additionally_include = StrMap::new();
    additionally_include.insert("users".to_string(), vec!["payment_last_four".to_string()]);
    registry.define_overlay(OverlayDefinition {
        name: "senior_support".to_string(),
        access: OverlayAccess::Partial,
        collections: vec![],
        include_fields: StrMap::new(),
        exclude_fields: StrMap::new(),
        mutations: vec![OverlayMutation::Read],
        extends: Some("support_agent".to_string()),
        additionally_include,
    });

    let resolved = registry.resolve_overlay("senior_support").expect("resolved");
    assert!(resolved.is_field_visible("users", "payment_last_four"));
    assert!(resolved.is_field_visible("users", "email"));
}

#[test]
fn resolve_for_session_binds_auth_to_overlay() {
    let mut auth = IdentityStore::new();
    auth.create_identity(CreateIdentityRequest {
        name: "alice".into(),
        identity_type: IdentityType::Human,
        overlay: "support_agent".into(),
        allowed_collections: vec!["users".into()],
        token_expiry_seconds: 60,
        mfa_required: false,
        password: Some("secret".into()),
        api_key: None,
    })
    .expect("identity");
    let session = auth
        .authenticate_with_password("alice", "secret")
        .expect("session");

    let mut registry = OverlayRegistry::new();
    registry.define_overlay(support_overlay());

    let (validated_session, overlay) = registry
        .resolve_for_session(&auth, &session.token)
        .expect("resolve");
    assert_eq!(validated_session.overlay, "support_agent");
    assert_eq!(overlay.name, "support_agent");
    assert!(overlay.can_mutate(OverlayMutation::Read));
}

#[test]
fn full_access_overlay_allows_everything() {
    let mut registry = OverlayRegistry::new();
    registry.define_overlay(OverlayDefinition::full("admin"));
    let resolved: ResolvedOverlay = registry.resolve_overlay("admin").expect("resolved");
    assert!(resolved.can_access_collection("users"));
    assert!(resolved.can_access_collection("any_collection"));
    assert!(resolved.is_field_visible("users", "ssn"));
    assert!(resolved.can_mutate(OverlayMutation::Delete));
}
