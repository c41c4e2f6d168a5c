use dnadb_engine::auth::{CreateIdentityRequest, IdentityStore, IdentityType};
use dnadb_engine::http::{
    authorize_at, bearer_token, check_batch_size, composite_definitions, index_field, positive_setting,
    redacted_overlay, resolve_bulk_strand_durability, rows_for, trimmed_fields, ApiError,
    DurabilityMode, HttpMetrics, LATENCY_BUCKETS_MS,
};
use dnadb_engine::json_value::Record;
use dnadb_engine::overlay::{OverlayAccess, OverlayDefinition, OverlayMutation, OverlayRegistry};
use dnadb_engine::privacy::PrivacyError;
use dnadb_engine::support::str_map::StrMap;
use serde_json::Value;

struct TestState {
    auth: IdentityStore,
    overlays: OverlayRegistry,
}

fn make_test_state() -> (TestState, String, String) {
    let mut auth = IdentityStore::new();
    let mut overlays = OverlayRegistry::new();
    overlays.define_overlay(OverlayDefinition::full("full"));
    let mut include_fields = StrMap::new();
    include_fields.insert(
        "posts".to_string(),
        vec!["id".to_string(), "title".to_string(), "status".to_string()],
    );
    let mut exclude_fields = StrMap::new();
    exclude_fields.insert(
        "posts".to_string(),
        vec!["body".to_string(), "slug".to_string(), "author_email".to_string()],
    );
    overlays.define_overlay(OverlayDefinition {
        name: "redacted".to_string(),
        access: OverlayAccess::Partial,
        collections: vec!["posts".to_string()],
        include_fields,
        exclude_fields,
        mutations: vec![OverlayMutation::Read],
        extends: None,
        additionally_include: StrMap::new(),
    });
    auth.create_identity(CreateIdentityRequest {
        name: "admin".to_string(),
        identity_type: IdentityType::Admin,
        overlay: "full".to_string(),
        allowed_collections: vec!["*".to_string()],
        token_expiry_seconds: 86_400,
        mfa_required: false,
        password: None,
        api_key: Some("admin-key".to_string()),
    })
    .expect("admin id");
    auth.create_identity(CreateIdentityRequest {
        name: "redacted-user".to_string(),
        identity_type: IdentityType::ReadOnly,
        overlay: "redacted".to_string(),
        allowed_collections: vec!["posts".to_string()],
        token_expiry_seconds: 86_400,
        mfa_required: false,
        password: None,
        api_key: Some("redacted-key".to_string()),
    })
    .expect("redacted id");
    let admin_token =
        auth.authenticate_with_api_key("admin", "admin-key").expect("admin token").token;
    let redacted_token = auth
        .authenticate_with_api_key("redacted-user", "redacted-key")
        .expect("redacted token")
        .token;
    (TestState { auth, overlays }, admin_token, redacted_token)
}

fn now_ns() -> u64 {
    std::time::SystemTime::now()
        .duration_since(std::time::UNIX_EPOCH)
        .expect("clock")
        .as_nanos() as u64
}

fn stored_row() -> Record {
    let mut r = Record::new();
    r.insert("id".to_string(), Value::from(1));
    r.insert("title".to_string(), Value::from("Test"));
    r.insert("status".to_string(), Value::from("published"));
    r.insert("body".to_string(), Value::from("full body text"));
    r.insert("slug".to_string(), Value::from("post-1"));
    r.insert("author_email".to_string(), Value::from("private@example.com"));
    r
}

#[test]
fn unauthenticated_request_rejected() {
    let (state, _, _) = make_test_state();
    let result = authorize_at(true, None, &state.overlays, &state.auth, now_ns());
    let err = result.err().expect("must reject");
    assert_eq!(err.status, 401);
}

#[test]
fn overlay_strips_excluded_fields_through_http() {
    let (state, admin_token, redacted_token) = make_test_state();
    let rows = vec![stored_row()];

    let header = format!("Bearer {redacted_token}");
    let overlay = authorize_at(true, Some(&header), &state.overlays, &state.auth, now_ns())
        .expect("redacted query");
    let redacted = rows_for("posts", &rows, overlay.as_ref()).expect("rows");
    let row = redacted.first().expect("row");
    assert_eq!(row.get("id"), Some(&Value::from(1)));
    assert_eq!(row.get("title"), Some(&Value::from("Test")));
    assert!(!row.contains_key("body"));
    assert!(!row.contains_key("author_email"));

    let header = format!("Bearer {admin_token}");
    let overlay = authorize_at(true, Some(&header), &state.overlays, &state.auth, now_ns())
        .expect("admin query");
    let full = rows_for("posts", &rows, overlay.as_ref()).expect("rows");
    let full_row = full.first().expect("row");
    assert!(full_row.get("body").and_then(|v| v.as_str()).is_some());
    assert!(full_row.get("author_email").and_then(|v| v.as_str()).is_some());
}

#[test]
fn open_server_asks_for_no_login() {
    let (state, _, _) = make_test_state();
    let overlay = authorize_at(false, None, &state.overlays, &state.auth, 0).expect("open");
    assert!(overlay.is_none());
    let rows = rows_for("posts", &[stored_row()], None).expect("rows");
    assert_eq!(rows.len(), 1);
    assert_eq!(rows[0].len(), 6);
}

#[test]
fn strangers_get_the_same_answer() {
    let (state, _, _) = make_test_state();
    for header in ["Bearer unknown", "Basic abc", "", "Bearer "] {
        let err = authorize_at(true, Some(header), &state.overlays, &state.auth, now_ns())
            .err()
            .expect("must reject");
        assert_eq!(err.status, 401);
    }
}

#[test]
fn bearer_header_is_read() {
    assert_eq!(bearer_token("Bearer abc"), Some("abc".to_string()));
    assert_eq!(bearer_token("bearer abc"), Some("abc".to_string()));
    assert_eq!(bearer_token("BEARER abc"), None);
    assert_eq!(bearer_token("Bearer"), None);
    assert_eq!(bearer_token("Basic abc"), None);
}

#[test]
fn denied_collection_is_forbidden() {
    let e = ApiError::privacy(PrivacyError::CollectionDenied("users".to_string()));
    assert_eq!(e.status, 403);
    assert_eq!(e.message, "collection is not accessible in overlay: users");
    assert_eq!(ApiError::bad_request("x".to_string()).status, 400);
    assert_eq!(ApiError::runtime("x".to_string()).status, 500);
}

#[test]
fn batch_size_is_limited() {
    assert!(check_batch_size(10, 10).is_ok());
    let err = check_batch_size(11, 10).err().expect("too large");
    assert_eq!(err.status, 400);
    assert_eq!(err.message, "batch too large (max 10)");
}

#[test]
fn settings_fall_back_to_their_defaults() {
    assert_eq!(positive_setting(None, 7), 7);
    assert_eq!(positive_setting(Some("0"), 7), 7);
    assert_eq!(positive_setting(Some("x"), 7), 7);
    assert_eq!(positive_setting(Some("12"), 7), 12);
}

#[test]
fn durability_follows_the_request() {
    assert_eq!(
        resolve_bulk_strand_durability(Some(DurabilityMode::Batch), None, false),
        (true, DurabilityMode::Batch)
    );
    assert_eq!(
        resolve_bulk_strand_durability(Some(DurabilityMode::Strict), Some(true), true),
        (false, DurabilityMode::Strict)
    );
    assert_eq!(
        resolve_bulk_strand_durability(None, Some(true), false),
        (true, DurabilityMode::Deferred)
    );
    assert_eq!(
        resolve_bulk_strand_durability(None, Some(false), true),
        (false, DurabilityMode::Strict)
    );
    assert_eq!(resolve_bulk_strand_durability(None, None, true), (true, DurabilityMode::Deferred));
    assert_eq!(resolve_bulk_strand_durability(None, None, false), (false, DurabilityMode::Strict));
}

#[test]
fn blank_names_are_dropped() {
    let names = vec![" a ".to_string(), "".to_string(), "  ".to_string(), "b".to_string()];
    assert_eq!(trimmed_fields(&names), vec!["a".to_string(), "b".to_string()]);
    let specs = vec![
        vec![" f ".to_string(), " o ".to_string()],
        vec!["x".to_string()],
        vec!["".to_string(), "y".to_string()],
    ];
    assert_eq!(composite_definitions(&specs), vec![("f".to_string(), "o".to_string())]);
}

#[test]
fn metrics_are_rendered_as_text() {
    let mut m = HttpMetrics::new();
    m.inflight_requests = 2;
    m.observe_request(200, 3);
    m.observe_request(500, 40);
    m.reject_overload();
    let text = m.render();
    assert!(text.contains("# TYPE dnadb_http_requests_total counter\ndnadb_http_requests_total 3\n"));
    assert!(text.contains("dnadb_http_errors_total 2\n"));
    assert!(text.contains("dnadb_http_overload_rejections_total 1\n"));
    assert!(text.contains("dnadb_http_inflight_requests 1\n"));
    assert!(text.contains("dnadb_http_request_duration_ms_total 43\n"));
    assert!(text.contains("dnadb_http_request_duration_count 3\n"));
    assert!(text.contains("dnadb_http_request_duration_ms_bucket{le=\"1000\"} 3\n"));
    assert!(!text.contains("\\n"));
    assert_eq!(m.latency_bucket_counts.len(), LATENCY_BUCKETS_MS.len());
}

#[test]
fn redacted_overlay_hides_the_body() {
    let mut overlays = OverlayRegistry::new();
    overlays.define_overlay(redacted_overlay());
    let resolved = overlays.resolve_overlay("redacted").expect("resolved");
    assert!(resolved.is_field_visible("posts", "title"));
    assert!(!resolved.is_field_visible("posts", "body"));
    assert!(!resolved.can_access_collection("users"));
    assert!(!resolved.can_mutate(OverlayMutation::Write));
}

#[test]
fn index_field_is_trimmed_and_not_blank() {
    assert_eq!(index_field(" age "), Ok("age".to_string()));
    let err = index_field(" \t").expect_err("blank");
    assert_eq!(err.status, 400);
    assert_eq!(err.message, "field is required");
}
