use dnadb_engine::histone::{
    block_id_for_semantic_key, classify_temperature, evaluate_tier_transition,
    compact_segments, infer_semantic_key, on_access_promote_immediate, plan_compaction,
    plan_semantic_colocation, record_block_access, run_rebalance_tick,
    should_promote_warm_to_hot, BlockAccessStats, CompactionRecord, CompactionSegment,
    HistoneBlock, RebalanceActionKind, Temperature, HOT_WINDOW, WARM_WINDOW,
};
use dnadb_engine::model::{Intron, RefreshPolicy, Strand, Tag, Telomere};
use std::collections::{HashMap, HashSet};

#[test]
fn classification_respects_windows() {
    let now = 10_000_000_000_000_000_u64;
    let hot = classify_temperature(
        now,
        now - HOT_WINDOW + 1,
        100,
        true,
    );
    assert_eq!(hot, Temperature::Hot);

    let warm = classify_temperature(
        now,
        now - HOT_WINDOW - 1,
        100,
        true,
    );
    assert_eq!(warm, Temperature::Warm);

    let cold = classify_temperature(
        now,
        now - WARM_WINDOW - 1,
        100,
        true,
    );
    assert_eq!(cold, Temperature::Cold);
}

#[test]
fn frozen_overrides_recency_when_telomere_depleted() {
    let now = 1_000_000_u64;
    let t = classify_temperature(now, now, 0, false);
    assert_eq!(t, Temperature::Frozen);
}

#[test]
fn access_promotion_rules_apply() {
    assert_eq!(
        on_access_promote_immediate(Temperature::Cold),
        Temperature::Warm
    );
    assert_eq!(
        on_access_promote_immediate(Temperature::Frozen),
        Temperature::Warm
    );
    assert_eq!(
        on_access_promote_immediate(Temperature::Warm),
        Temperature::Warm
    );
}

#[test]
fn warm_to_hot_reaccess_window() {
    let last = 1_000_000_u64;
    assert!(should_promote_warm_to_hot(last, last + 60_000_000_000)); // +60s
    assert!(!should_promote_warm_to_hot(last, last + 700_000_000_000)); // +700s
}

#[test]
fn record_access_updates_counters() {
    let mut stats = BlockAccessStats::new(1_000);
    record_block_access(&mut stats, 2_000);
    assert_eq!(stats.access_count_total, 1);
    assert_eq!(stats.access_count_recent, 1);
    record_block_access(&mut stats, 2_500);
    assert_eq!(stats.access_count_total, 2);
    assert_eq!(stats.access_count_recent, 2);
}

#[test]
fn transition_promotes_cold_on_access() {
    let stats = BlockAccessStats {
        last_access_ns: 1_000,
        access_count_total: 10,
        access_count_recent: 1,
    };
    let d = evaluate_tier_transition(Temperature::Cold, &stats, 2_000, 10, true, true);
    assert_eq!(d.next, Temperature::Warm);
    assert!(d.changed);
}

#[test]
fn transition_promotes_warm_to_hot_on_reaccess_burst() {
    let stats = BlockAccessStats {
        last_access_ns: 1_500,
        access_count_total: 12,
        access_count_recent: 2,
    };
    let d = evaluate_tier_transition(Temperature::Warm, &stats, 2_000, 10, true, true);
    assert_eq!(d.next, Temperature::Hot);
    assert!(d.changed);
}

#[test]
fn transition_respects_frozen_rule_without_access() {
    let stats = BlockAccessStats {
        last_access_ns: 1_000,
        access_count_total: 1,
        access_count_recent: 1,
    };
    let d = evaluate_tier_transition(Temperature::Warm, &stats, 2_000, 0, false, false);
    assert_eq!(d.next, Temperature::Frozen);
}

fn mk_strand(sig: [u8; 8], collection_id: u32, introns: Vec<Intron>) -> Strand {
    Strand {
        signature: sig,
        collection_id,
        codons: vec![],
        complement: vec![],
        introns,
        telomere: Telomere {
            count: 100,
            immortal: true,
            last_refresh: 0,
            refresh_policy: RefreshPolicy::Immortal,
        },
        epigenetic_tags: vec![Tag {
            key: "test".into(),
            value: "true".into(),
        }],
        version: 1,
        created_at: 0,
        updated_at: 0,
    }
}

#[test]
fn semantic_key_uses_user_reference_when_present() {
    let user_sig = 0xA1u64.to_le_bytes();
    let s = mk_strand(
        1u64.to_le_bytes(),
        7,
        vec![Intron {
            field_name: "user_id".into(),
            codon_offset: 0,
            codon_length: 0,
            value_hash: 0,
            references_strand: Some(user_sig),
        }],
    );
    let key = infer_semantic_key(&s);
    assert!(key.starts_with("user:"));
}

#[test]
fn semantic_key_falls_back_to_collection() {
    let s = mk_strand(1u64.to_le_bytes(), 55, vec![]);
    assert_eq!(infer_semantic_key(&s), "collection:55");
}

#[test]
fn block_id_is_deterministic_for_key() {
    let a = block_id_for_semantic_key("user:abc");
    let b = block_id_for_semantic_key("user:abc");
    let c = block_id_for_semantic_key("user:def");
    assert_eq!(a, b);
    assert_ne!(a, c);
}

#[test]
fn planner_groups_related_members() {
    let user_sig = 7u64.to_le_bytes();
    let order1 = mk_strand(
        11u64.to_le_bytes(),
        1,
        vec![Intron {
            field_name: "user_id".into(),
            codon_offset: 0,
            codon_length: 0,
            value_hash: 0,
            references_strand: Some(user_sig),
        }],
    );
    let order2 = mk_strand(
        12u64.to_le_bytes(),
        1,
        vec![Intron {
            field_name: "user".into(),
            codon_offset: 0,
            codon_length: 0,
            value_hash: 0,
            references_strand: Some(user_sig),
        }],
    );
    let other = mk_strand(99u64.to_le_bytes(), 9, vec![]);

    let plans = plan_semantic_colocation(&[order1.clone(), order2.clone(), other.clone()]);
    let user_plan = plans
        .iter()
        .find(|p| p.semantic_key.starts_with("user:"))
        .expect("user group");
    assert_eq!(user_plan.members.len(), 2);
    assert!(user_plan.members.contains(&order1.signature));
    assert!(user_plan.members.contains(&order2.signature));
}

#[test]
fn rebalance_tick_computes_actions() {
    let now = 10_000_000_000_000_000_u64;
    let blocks = vec![
        HistoneBlock {
            block_id: 1,
            strands: vec![],
            temperature: Temperature::Cold,
            semantic_key: None,
            compressed: true,
            last_access_ns: now - HOT_WINDOW + 1,
        },
        HistoneBlock {
            block_id: 2,
            strands: vec![],
            temperature: Temperature::Warm,
            semantic_key: None,
            compressed: false,
            last_access_ns: now - WARM_WINDOW - 1,
        },
        HistoneBlock {
            block_id: 3,
            strands: vec![],
            temperature: Temperature::Warm,
            semantic_key: None,
            compressed: false,
            last_access_ns: now - 1000,
        },
    ];

    let mut stats = HashMap::new();
    stats.insert(
        1,
        BlockAccessStats {
            last_access_ns: now - 1_000,
            access_count_total: 10,
            access_count_recent: 1,
        },
    );
    stats.insert(
        3,
        BlockAccessStats {
            last_access_ns: now - 1_000,
            access_count_total: 10,
            access_count_recent: 2,
        },
    );

    let mut telo = HashMap::new();
    telo.insert(1, (100, true));
    telo.insert(2, (100, true));
    telo.insert(3, (0, false));

    let mut accessed = HashSet::new();
    accessed.insert(1);
    accessed.insert(3);

    let result = run_rebalance_tick(now, &blocks, &stats, &telo, &accessed);
    assert_eq!(result.actions.len(), 3);
    let a1 = result.actions.iter().find(|a| a.block_id == 1).unwrap();
    assert_eq!(a1.kind, RebalanceActionKind::Promote);
    assert_eq!(a1.to, Temperature::Warm);

    let a2 = result.actions.iter().find(|a| a.block_id == 2).unwrap();
    assert_eq!(a2.kind, RebalanceActionKind::Compress);
    assert_eq!(a2.to, Temperature::Cold);

    let a3 = result.actions.iter().find(|a| a.block_id == 3).unwrap();
    assert_eq!(a3.kind, RebalanceActionKind::Freeze);
    assert_eq!(a3.to, Temperature::Frozen);
}

#[test]
fn compaction_plan_selects_cold_and_frozen_segments() {
    let segments = vec![
        CompactionSegment {
            segment_id: 1,
            temperature: Temperature::Hot,
            records: vec![],
        },
        CompactionSegment {
            segment_id: 2,
            temperature: Temperature::Cold,
            records: vec![],
        },
        CompactionSegment {
            segment_id: 3,
            temperature: Temperature::Frozen,
            records: vec![],
        },
    ];
    let plan = plan_compaction(&segments, 10).expect("plan");
    assert_eq!(plan.selected_segment_ids, vec![2, 3]);
    assert_eq!(plan.output_segment_id, 10);
}

#[test]
fn compact_segments_clusters_by_foreign_key() {
    let s1 = CompactionSegment {
        segment_id: 7,
        temperature: Temperature::Cold,
        records: vec![
            CompactionRecord {
                record_id: 3,
                clustering_key: Some("user:2".into()),
                payload: b"a".to_vec(),
            },
            CompactionRecord {
                record_id: 1,
                clustering_key: Some("user:1".into()),
                payload: b"b".to_vec(),
            },
        ],
    };
    let s2 = CompactionSegment {
        segment_id: 8,
        temperature: Temperature::Frozen,
        records: vec![CompactionRecord {
            record_id: 2,
            clustering_key: Some("user:1".into()),
            payload: b"c".to_vec(),
        }],
    };

    let out = compact_segments(vec![s1, s2], 99);
    assert_eq!(out.segment_id, 99);
    assert_eq!(out.records.len(), 3);
    // clustered adjacency: user:1 records first, then user:2
    assert_eq!(out.records[0].record_id, 1);
    assert_eq!(out.records[1].record_id, 2);
    assert_eq!(out.records[2].record_id, 3);
}
