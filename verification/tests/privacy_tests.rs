use dnadb_engine::json_value::Record;
use dnadb_engine::support::str_map::StrMap;
use serde_json::Value;

use dnadb_engine::overlay::{
    OverlayAccess, OverlayDefinition, OverlayMutation, OverlayRegistry,
};

use dnadb_engine::privacy::{mask_record_for_overlay, mask_records_for_overlay, PrivacyError};

fn sample_record() -> Record {
    let mut r = StrMap::new();
    r.insert("id".into(), Value::from(1));
    r.insert("email".into(), Value::from("a@example.com"));
    r.insert("ssn".into(), Value::from("111-11-1111"));
    r
}

#[test]
fn partial_overlay_masks_sensitive_fields() {
    let mut reg = OverlayRegistry::new();
    let mut include_fields = StrMap::new();
    include_fields.insert("users".into(), vec!["id".into(), "email".into()]);
    let mut exclude_fields = StrMap::new();
    exclude_fields.insert("users".into(), vec!["ssn".into()]);

    reg.define_overlay(OverlayDefinition {
        name: "support_agent".into(),
        access: OverlayAccess::Partial,
        collections: vec!["users".into()],
        include_fields,
        exclude_fields,
        mutations: vec![OverlayMutation::Read],
        extends: None,
        additionally_include: StrMap::new(),
    });

    let overlay = reg.resolve_overlay("support_agent").expect("overlay");
    let masked = mask_record_for_overlay("users", &sample_record(), &overlay).expect("mask");
    assert_eq!(masked.get("id").unwrap(), &Value::from(1));
    assert!(masked.contains_key("email"));
    assert!(!masked.contains_key("ssn"));
}

#[test]
fn denies_collection_when_overlay_cannot_access() {
    let mut reg = OverlayRegistry::new();
    reg.define_overlay(OverlayDefinition {
        name: "public".into(),
        access: OverlayAccess::Partial,
        collections: vec!["products".into()],
        include_fields: StrMap::new(),
        exclude_fields: StrMap::new(),
        mutations: vec![OverlayMutation::Read],
        extends: None,
        additionally_include: StrMap::new(),
    });
    let overlay = reg.resolve_overlay("public").expect("overlay");
    let err = mask_record_for_overlay("users", &sample_record(), &overlay).expect_err("deny");
    assert!(matches!(err, PrivacyError::CollectionDenied(_)));
}

#[test]
fn masks_batch_records() {
    let mut reg = OverlayRegistry::new();
    reg.define_overlay(OverlayDefinition::full("admin"));
    let overlay = reg.resolve_overlay("admin").expect("overlay");

    let records = vec![sample_record(), sample_record()];
    let masked = mask_records_for_overlay("users", &records, &overlay).expect("batch");
    assert_eq!(masked.len(), 2);
    assert!(masked[0].contains_key("ssn"));
}
