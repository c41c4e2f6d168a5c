use dnadb_engine::lifecycle::{
    apply_replication_event,
    effective_policy_for_collection, evaluate_lifecycle_action,
    initialize_telomere_for_new_strand, refresh_collection_strands, refresh_strand_telomere,
    soft_delete_record_for_strand, sweep_deleted_pool, DeleteConfig, ExpireAction,
    LifecycleDecision, LifecyclePolicy, LifecycleMode, LifecyclePolicyStore,
};
use dnadb_engine::model::{RefreshPolicy, Strand, Tag, Telomere};
use std::collections::HashMap;
use std::time::Duration;

fn mk_strand(collection_id: u32) -> Strand {
    Strand {
        signature: 1u64.to_le_bytes(),
        collection_id,
        codons: vec![],
        complement: vec![],
        introns: vec![],
        telomere: Telomere {
            count: 100,
            immortal: true,
            last_refresh: 0,
            refresh_policy: RefreshPolicy::Immortal,
        },
        epigenetic_tags: vec![Tag {
            key: "t".into(),
            value: "v".into(),
        }],
        version: 1,
        created_at: 0,
        updated_at: 0,
    }
}

#[test]
fn default_policy_is_immortal() {
    let p = LifecyclePolicy::immortal_default();
    assert_eq!(p.mode, dnadb_engine::lifecycle::LifecycleMode::Immortal);
    assert_eq!(p.on_expire, ExpireAction::Nothing);
}

#[test]
fn collection_policy_falls_back_to_immortal() {
    let table = HashMap::new();
    let p = effective_policy_for_collection(42, &table);
    assert_eq!(p.mode, dnadb_engine::lifecycle::LifecycleMode::Immortal);
}

#[test]
fn new_strands_use_immortal_defaults() {
    let mut s = mk_strand(1);
    initialize_telomere_for_new_strand(&mut s, LifecyclePolicy::immortal_default(), 100);
    assert!(s.telomere.immortal);
    assert_eq!(s.telomere.count, u16::MAX);
}

#[test]
fn telomere_policy_can_soft_delete_after_min_age() {
    let mut s = mk_strand(1);
    s.telomere.immortal = false;
    s.telomere.count = 0;
    s.created_at = 10;
    let p = LifecyclePolicy::telomere_opt_in(
        100,
        RefreshPolicy::Manual,
        ExpireAction::Delete,
        Duration::from_secs(30),
    );
    let d = evaluate_lifecycle_action(&s, p, 50_000_000_000);
    assert_eq!(d, LifecycleDecision::SoftDelete);
}

#[test]
fn min_age_blocks_expiry() {
    let mut s = mk_strand(1);
    s.telomere.immortal = false;
    s.telomere.count = 0;
    s.created_at = 1_000;
    let p = LifecyclePolicy::telomere_opt_in(
        100,
        RefreshPolicy::Manual,
        ExpireAction::Delete,
        Duration::from_secs(60),
    );
    let d = evaluate_lifecycle_action(&s, p, 2_000);
    assert_eq!(d, LifecycleDecision::Keep);
}

#[test]
fn on_read_refresh_policy_keeps_expired_records() {
    let mut s = mk_strand(1);
    s.telomere.immortal = false;
    s.telomere.count = 0;
    s.created_at = 0;
    let p = LifecyclePolicy::telomere_opt_in(
        100,
        RefreshPolicy::AutoOnRead,
        ExpireAction::Nothing,
        Duration::from_secs(0),
    );
    let d = evaluate_lifecycle_action(&s, p, 1_000);
    assert_eq!(d, LifecycleDecision::Keep);
}

#[test]
fn lifecycle_policy_store_supports_collection_overrides() {
    let mut store = LifecyclePolicyStore::new();
    let p = LifecyclePolicy::telomere_opt_in(
        20,
        RefreshPolicy::Manual,
        ExpireAction::Archive,
        Duration::from_secs(10),
    );
    store.set_policy(7, p);
    assert_eq!(store.policy_for(7).mode, LifecycleMode::Telomere);
    assert_eq!(store.policy_for(8).mode, LifecycleMode::Immortal);
    store.clear_policy(7);
    assert_eq!(store.policy_for(7).mode, LifecycleMode::Immortal);
}

#[test]
fn replication_decrements_non_immortal_only() {
    let mut immortal = mk_strand(1);
    immortal.telomere.immortal = true;
    immortal.telomere.count = u16::MAX;
    apply_replication_event(&mut immortal);
    assert_eq!(immortal.telomere.count, u16::MAX);

    let mut mortal = mk_strand(1);
    mortal.telomere.immortal = false;
    mortal.telomere.count = 2;
    apply_replication_event(&mut mortal);
    apply_replication_event(&mut mortal);
    apply_replication_event(&mut mortal);
    assert_eq!(mortal.telomere.count, 0);
}

#[test]
fn explicit_refresh_restores_count_for_telomere_mode() {
    let mut s = mk_strand(10);
    s.telomere.immortal = false;
    s.telomere.count = 0;
    let p = LifecyclePolicy::telomere_opt_in(
        77,
        RefreshPolicy::Manual,
        ExpireAction::Archive,
        Duration::from_secs(1),
    );
    refresh_strand_telomere(&mut s, p, 900);
    assert!(!s.telomere.immortal);
    assert_eq!(s.telomere.count, 77);
    assert_eq!(s.telomere.refresh_policy, RefreshPolicy::Manual);
    assert_eq!(s.telomere.last_refresh, 900);
}

#[test]
fn bulk_refresh_updates_only_matching_collection_and_filter() {
    let mut a = mk_strand(5);
    a.signature = 1u64.to_le_bytes();
    a.telomere.immortal = false;
    a.telomere.count = 0;

    let mut b = mk_strand(5);
    b.signature = 2u64.to_le_bytes();
    b.telomere.immortal = false;
    b.telomere.count = 0;

    let mut other = mk_strand(6);
    other.signature = 3u64.to_le_bytes();
    other.telomere.immortal = false;
    other.telomere.count = 0;

    let mut strands = vec![a, b, other];
    let policy = LifecyclePolicy::telomere_opt_in(
        50,
        RefreshPolicy::Manual,
        ExpireAction::Archive,
        Duration::from_secs(0),
    );
    let refreshed = refresh_collection_strands(
        &mut strands,
        5,
        policy,
        5_000,
        |s| s.signature == 1u64.to_le_bytes(),
    );
    assert_eq!(refreshed, 1);
    assert_eq!(strands[0].telomere.count, 50);
    assert_eq!(strands[1].telomere.count, 0);
    assert_eq!(strands[2].telomere.count, 0);
}

#[test]
fn soft_delete_record_uses_grace_window() {
    let s = mk_strand(8);
    let now = 1_000u64;
    let cfg = DeleteConfig::with_grace_period(Duration::from_secs(5));
    let rec = soft_delete_record_for_strand(&s, now, cfg, "telomere-expired");
    assert_eq!(rec.signature, s.signature);
    assert_eq!(rec.collection_id, 8);
    assert_eq!(rec.deleted_at_ns, now);
    assert_eq!(rec.purge_after_ns, now + 5_000_000_000);
}

#[test]
fn deleted_pool_sweeper_purges_only_expired_records() {
    let s1 = mk_strand(1);
    let mut s2 = mk_strand(1);
    s2.signature = 2u64.to_le_bytes();
    let cfg = DeleteConfig::with_grace_period(Duration::from_secs(10));
    let r1 = soft_delete_record_for_strand(&s1, 100, cfg, "expired");
    let r2 = soft_delete_record_for_strand(&s2, 250, cfg, "expired");
    let mut pool = vec![r1.clone(), r2.clone()];

    let result = sweep_deleted_pool(&mut pool, 10_000_000_150);
    assert_eq!(result.purged_signatures, vec![s1.signature]);
    assert_eq!(pool.len(), 1);
    assert_eq!(pool[0].signature, s2.signature);
}

#[test]
fn refresh_of_an_immortal_strand_changes_only_the_time() {
    let mut s = mk_strand(3);
    s.telomere.count = 4;
    s.telomere.refresh_policy = RefreshPolicy::Manual;
    let before = s.clone();
    refresh_strand_telomere(&mut s, LifecyclePolicy::immortal_default(), 900);
    let mut expected = before.clone();
    expected.telomere.last_refresh = 900;
    assert_eq!(s, expected);

    let mut mortal = before.clone();
    mortal.telomere.immortal = false;
    refresh_strand_telomere(&mut mortal, LifecyclePolicy::immortal_default(), 901);
    assert!(mortal.telomere.immortal);
    assert_eq!(mortal.telomere.count, 4);
    assert_eq!(mortal.telomere.last_refresh, 901);
}
