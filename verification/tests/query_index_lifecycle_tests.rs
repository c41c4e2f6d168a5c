use dnadb_engine::processor::strand_from_wal_payload;
use dnadb_engine::query::index_lifecycle::{
    hash_file_name, index_dir, range_file_name, GlobalIndexCatalog, GlobalIndexCatalogError,
    MANIFEST_FILE,
};
use dnadb_engine::query::RangeOp;
use dnadb_engine::support::str_map::StrMap;

fn saved(catalog: &GlobalIndexCatalog) -> StrMap<Vec<u8>> {
    let mut files = StrMap::new();
    for (name, bytes) in catalog.to_files().expect("save catalog") {
        files.insert(name, bytes);
    }
    files
}

#[test]
fn catalog_roundtrip_save_and_load() {
    let strands = vec![
        strand_from_wal_payload(1, 1, b"10"),
        strand_from_wal_payload(1, 2, b"20"),
        strand_from_wal_payload(1, 3, b"alice@example.com"),
    ];
    let built = GlobalIndexCatalog::build(&strands, &["_payload"], &["_payload"]);
    let loaded = GlobalIndexCatalog::from_files(&saved(&built)).expect("load catalog");
    assert!(loaded.hash_indexes.contains_key("_payload"));
    assert!(loaded.range_indexes.contains_key("_payload"));
    let hash_hits = loaded.hash_indexes.get("_payload").expect("hash").lookup(b"alice@example.com");
    assert_eq!(hash_hits.len(), 1);
    let range_hits =
        loaded.range_indexes.get("_payload").expect("range").lookup(RangeOp::GreaterThan, 15);
    assert_eq!(range_hits.len(), 1);
}

#[test]
fn catalog_files_carry_the_field_names() {
    let strands = vec![strand_from_wal_payload(1, 1, b"10")];
    let built = GlobalIndexCatalog::build(&strands, &["_payload"], &["score"]);
    let files = saved(&built);
    assert!(files.contains_key(MANIFEST_FILE));
    assert!(files.contains_key(&hash_file_name("_payload")));
    assert!(files.contains_key(&range_file_name("score")));
    let (hash, range) =
        GlobalIndexCatalog::manifest_fields(files.get(MANIFEST_FILE).expect("manifest")).expect("fields");
    assert_eq!(hash, vec!["_payload".to_string()]);
    assert_eq!(range, vec!["score".to_string()]);
    assert_eq!(index_dir("users"), "users.indexes");
}

#[test]
fn catalog_without_manifest_does_not_load() {
    let files = StrMap::new();
    assert!(matches!(
        GlobalIndexCatalog::from_files(&files),
        Err(GlobalIndexCatalogError::Missing(_))
    ));
}

#[test]
fn broken_manifest_does_not_load() {
    let mut files = StrMap::new();
    files.insert(MANIFEST_FILE.to_string(), vec![1, 2, 3]);
    assert!(matches!(
        GlobalIndexCatalog::from_files(&files),
        Err(GlobalIndexCatalogError::Serialize(_))
    ));
}

#[test]
fn catalog_with_a_missing_index_does_not_load() {
    let strands = vec![strand_from_wal_payload(1, 1, b"10")];
    let built = GlobalIndexCatalog::build(&strands, &["_payload"], &[]);
    let mut files = saved(&built);
    files.remove(&hash_file_name("_payload"));
    assert!(matches!(
        GlobalIndexCatalog::from_files(&files),
        Err(GlobalIndexCatalogError::Missing(_))
    ));
}

#[test]
fn manifest_is_two_lists_of_names() {
    let strands = vec![strand_from_wal_payload(1, 1, b"10")];
    let built = GlobalIndexCatalog::build(&strands, &["_payload"], &["age", "score"]);
    let files = built.to_files().expect("save catalog");
    assert_eq!(files.len(), 4);
    assert_eq!(files[0].0, MANIFEST_FILE);
    let (_, range) = GlobalIndexCatalog::manifest_fields(&files[0].1).expect("fields");
    let mut expected = 1u64.to_le_bytes().to_vec();
    expected.extend(8u64.to_le_bytes());
    expected.extend(b"_payload");
    expected.extend(2u64.to_le_bytes());
    for name in &range {
        expected.extend((name.len() as u64).to_le_bytes());
        expected.extend(name.as_bytes());
    }
    assert_eq!(files[0].1, expected);
}
