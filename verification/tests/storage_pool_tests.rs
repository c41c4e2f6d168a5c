use dnadb_engine::codec::{BincodeStrandCodec, CodecError, StrandCodec, STRAND_FORMAT_MAGIC};
use dnadb_engine::complement::is_valid_pairing;
use dnadb_engine::integrity::{
    compute_crc32, decode_crc_entries, encode_crc_entry, scrub_pools, CRC_ENTRY_SIZE,
};
use dnadb_engine::processor::{
    encode_complement_blob, fnv1a64, materialize_entry, materialize_entry_at,
    strand_from_wal_payload, strand_from_wal_payload_at, strand_signature,
};
use dnadb_engine::recovery::{plan_replay, WalEntry};
use dnadb_engine::replication::{next_sequence, plan_batch, ReplicationCheckpoint};
use dnadb_engine::storage::{
    append_to_map, decode_all_strands, grown_capacity, pool_file_names, scan_complement_tail,
    scan_meta_tail, scan_strands_tail, CollectionState, PoolState, StorageError, DEFAULT_FILE_SIZE,
};

/// The three pools of a collection, kept in memory.
struct Pools {
    strands: Vec<u8>,
    complement: Vec<u8>,
    meta: Vec<u8>,
    state: CollectionState,
}

fn put(bytes: &mut Vec<u8>, pool: &mut PoolState, data: &[u8]) -> usize {
    let plan = pool.append(data.len());
    if let Some(size) = plan.grow_to {
        bytes.resize(size, 0);
    }
    bytes[plan.offset..plan.end].copy_from_slice(data);
    plan.offset
}

impl Pools {
    fn open(size: usize) -> Pools {
        Pools::reopen(vec![0; size], vec![0; size], vec![0; size])
    }

    fn reopen(strands: Vec<u8>, complement: Vec<u8>, meta: Vec<u8>) -> Pools {
        let state = CollectionState::open(&strands, &complement, &meta).expect("open");
        Pools { strands, complement, meta, state }
    }

    fn append_strands(&mut self, data: &[u8]) -> usize {
        put(&mut self.strands, &mut self.state.strands, data)
    }

    fn append_complement(&mut self, data: &[u8]) -> usize {
        put(&mut self.complement, &mut self.state.complement, data)
    }

    fn append_meta(&mut self, data: &[u8]) -> usize {
        put(&mut self.meta, &mut self.state.meta, data)
    }

    fn process(&mut self, collection_id: u32, sequence: u64, payload: &[u8]) {
        let codec = BincodeStrandCodec;
        let entry = materialize_entry(&codec, collection_id, sequence, payload).expect("materialize");
        self.append_strands(&entry.strand_bytes);
        self.append_meta(&entry.crc_entry);
        self.append_complement(&entry.complement_bytes);
        self.state.record_materialized_sequence(sequence);
    }
}

fn wal(payloads: &[&[u8]]) -> Vec<WalEntry> {
    payloads
        .iter()
        .enumerate()
        .map(|(i, p)| WalEntry { sequence: i as u64 + 1, payload: p.to_vec() })
        .collect()
}

#[test]
fn creates_collection_files_and_appends() {
    let mut storage = Pools::open(4096);
    let s_off = storage.append_strands(b"strand-bytes");
    let c_off = storage.append_complement(b"complement-bytes");
    let m_off = storage.append_meta(b"meta-bytes");
    assert_eq!(s_off, 0);
    assert_eq!(c_off, 0);
    assert_eq!(m_off, 0);
    let (strands, complement, meta) = pool_file_names("users");
    assert_eq!(strands, "users.strands");
    assert_eq!(complement, "users.complement");
    assert_eq!(meta, "users.meta");
}

#[test]
fn auto_grows_maps_when_append_exceeds_initial_size() {
    let mut storage = Pools::open(64);
    let big = vec![b'x'; 512];
    storage.append_strands(&big);
    storage.append_complement(&big);
    storage.append_meta(&big);
    assert!(storage.strands.len() >= 512);
    assert!(storage.complement.len() >= 512);
    assert!(storage.meta.len() >= 512);
    assert_eq!(storage.state.grow_events(), (1, 1, 1));
}

#[test]
fn strand_from_payload_encodes_and_pairs_complement() {
    let raw = b"hello-wal";
    let s = strand_from_wal_payload(7, 42, raw);
    assert_eq!(s.collection_id, 7);
    assert_eq!(s.version, 42);
    assert!(is_valid_pairing(&s.codons, &s.complement));
    assert_eq!(s.introns.len(), 1);
    assert_eq!(s.introns[0].field_name, "_payload");
}

#[test]
fn process_wal_entry_persists_strand_round_trip() {
    let mut storage = Pools::open(256 * 1024);
    let codec = BincodeStrandCodec;
    storage.process(1, 1, b"first");
    storage.process(1, 2, b"second");

    let bytes = &storage.strands;
    let mut pos = 0usize;
    let first = codec.decode_strand(&bytes[pos..]).expect("decode first");
    pos += codec.encode_strand(&first).expect("encode first").len();
    let second = codec.decode_strand(&bytes[pos..]).expect("decode second");

    assert_eq!(first.signature, strand_signature(1));
    assert_eq!(first.introns[0].value_hash, fnv1a64(b"first"));
    assert_eq!(second.signature, strand_signature(2));
    assert_eq!(second.introns[0].value_hash, fnv1a64(b"second"));
}

#[test]
fn replays_only_wal_entries_above_pool_high_water() {
    let entries = wal(&[b"p1", b"p2", b"p3"]);
    let mut storage = Pools::open(256 * 1024);
    storage.process(1, 1, b"p1");

    let mut reopened = Pools::reopen(storage.strands, storage.complement, storage.meta);
    let before = reopened.state.materialized_high_water_sequence;
    let (pending, stats) = plan_replay(&entries, before);
    for at in pending {
        reopened.process(1, entries[at].sequence, &entries[at].payload);
    }
    assert_eq!(stats.pool_high_water_before, 1);
    assert_eq!(stats.replayed, 2);

    let codec = BincodeStrandCodec;
    let bytes = &reopened.strands;
    let mut pos = 0usize;
    let mut versions = Vec::new();
    while pos + 6 <= bytes.len() && bytes[pos..pos + 4] == STRAND_FORMAT_MAGIC {
        let s = codec.decode_strand(&bytes[pos..]).expect("decode");
        versions.push(s.version);
        pos += codec.encode_strand(&s).expect("enc").len();
    }
    assert_eq!(versions, vec![1, 2, 3]);

    let (again, stats) = plan_replay(&entries, reopened.state.materialized_high_water_sequence);
    assert!(again.is_empty());
    assert_eq!(stats.replayed, 0);
}

#[test]
fn replication_stream_resumes_from_checkpoint() {
    let entries = wal(&[b"{\"id\":1}", b"{\"id\":2}", b"{\"id\":3}"]);
    let mut replica = Pools::open(1024 * 1024);

    let from = next_sequence(ReplicationCheckpoint::default());
    let batch1: Vec<WalEntry> =
        entries.iter().filter(|e| e.sequence >= from).take(2).cloned().collect();
    let (apply, report1) = plan_batch(ReplicationCheckpoint::default(), &batch1);
    for at in apply {
        replica.process(7, batch1[at].sequence, &batch1[at].payload);
    }
    assert_eq!(report1.applied, 2);
    assert_eq!(report1.checkpoint_after.last_applied_source_sequence, 2);
    assert_eq!(decode_all_strands(&replica.strands).expect("decode").len(), 2);

    let from = next_sequence(report1.checkpoint_after);
    let batch2: Vec<WalEntry> =
        entries.iter().filter(|e| e.sequence >= from).take(10).cloned().collect();
    let (apply, report2) = plan_batch(report1.checkpoint_after, &batch2);
    for at in apply {
        replica.process(7, batch2[at].sequence, &batch2[at].payload);
    }
    assert_eq!(report2.applied, 1);
    assert_eq!(report2.checkpoint_after.last_applied_source_sequence, 3);
    assert_eq!(decode_all_strands(&replica.strands).expect("decode").len(), 3);
}

#[test]
fn replication_apply_skips_replayed_entries() {
    let batch = wal(&[b"{\"id\":1}", b"{\"id\":2}"]);
    let mut replica = Pools::open(1024 * 1024);
    let (apply, report) = plan_batch(ReplicationCheckpoint::default(), &batch);
    assert_eq!(apply, vec![0, 1]);
    for at in apply {
        replica.process(7, batch[at].sequence, &batch[at].payload);
    }
    assert_eq!(report.applied, 2);

    let (apply, replay) = plan_batch(report.checkpoint_after, &batch);
    assert!(apply.is_empty());
    for at in apply {
        replica.process(7, batch[at].sequence, &batch[at].payload);
    }
    assert_eq!(replay.applied, 0);
    assert_eq!(replay.skipped_replay, 2);
    assert_eq!(decode_all_strands(&replica.strands).expect("decode").len(), 2);
}

#[test]
fn crc_detects_single_bit_flip() {
    let codec = BincodeStrandCodec;
    let s = strand_from_wal_payload(1, 1, b"payload");
    let mut frame = codec.encode_strand(&s).expect("encode");
    let original = compute_crc32(&frame);
    frame[10] ^= 0x01;
    let changed = compute_crc32(&frame);
    assert_ne!(original, changed);
}

#[test]
fn scrubber_reports_clean_collection() {
    let mut storage = Pools::open(1024 * 1024);
    let codec = BincodeStrandCodec;
    let s1 = strand_from_wal_payload(1, 1, b"a");
    let s2 = strand_from_wal_payload(1, 2, b"b");
    let f1 = codec.encode_strand(&s1).expect("encode");
    let f2 = codec.encode_strand(&s2).expect("encode");
    storage.append_strands(&f1);
    storage.append_meta(&encode_crc_entry(s1.version, compute_crc32(&f1)));
    storage.append_strands(&f2);
    storage.append_meta(&encode_crc_entry(s2.version, compute_crc32(&f2)));
    let report = scrub_pools(&storage.strands, &storage.meta).expect("scrub");
    assert_eq!(report.checked, 2);
    assert_eq!(report.missing_crc, 0);
    assert_eq!(report.mismatched_crc, 0);
}

#[test]
fn scrubber_reports_missing_and_mismatched_checksums() {
    let codec = BincodeStrandCodec;
    let mut strands = Vec::new();
    for seq in 1..=3u64 {
        let s = strand_from_wal_payload_at(1, seq, b"row", 5);
        strands.extend(codec.encode_strand(&s).expect("encode"));
    }
    let first = codec.encode_strand(&strand_from_wal_payload_at(1, 1, b"row", 5)).expect("encode");
    let mut meta = Vec::new();
    meta.extend(encode_crc_entry(1, compute_crc32(&first)));
    meta.extend(encode_crc_entry(2, !compute_crc32(&first)));
    let report = scrub_pools(&strands, &meta).expect("scrub");
    assert_eq!(report.checked, 3);
    assert_eq!(report.missing_crc, 1);
    assert_eq!(report.mismatched_crc, 1);
}

#[test]
fn crc_of_the_check_string_is_the_published_one() {
    assert_eq!(compute_crc32(b"123456789"), 0xCBF4_3926);
    assert_eq!(compute_crc32(b""), 0);
}

#[test]
fn crc_entries_round_trip() {
    let mut meta = Vec::new();
    meta.extend(encode_crc_entry(7, 0x0102_0304));
    meta.extend(encode_crc_entry(9, 0xFFFF_FFFF));
    assert_eq!(meta.len(), 2 * CRC_ENTRY_SIZE);
    assert_eq!(&meta[..CRC_ENTRY_SIZE], &[7, 0, 0, 0, 0, 0, 0, 0, 4, 3, 2, 1]);
    meta.extend([0u8; 30]);
    let found = decode_crc_entries(&meta);
    assert_eq!(found.len(), 2);
    assert_eq!(found.get(7), Some(&0x0102_0304));
    assert_eq!(found.get(9), Some(&0xFFFF_FFFF));
    assert_eq!(found.get(8), None);
}

#[test]
fn high_water_is_the_largest_version_in_the_pool() {
    let codec = BincodeStrandCodec;
    let mut pool = Vec::new();
    for seq in [4u64, 9, 2] {
        pool.extend(codec.encode_strand(&strand_from_wal_payload_at(1, seq, b"x", 1)).expect("encode"));
    }
    let used = pool.len();
    pool.resize(used + 100, 0);
    assert_eq!(scan_strands_tail(&pool).expect("scan"), (used, 9));
    let all = decode_all_strands(&pool).expect("decode");
    assert_eq!(all.iter().map(|s| s.version).collect::<Vec<_>>(), vec![4, 9, 2]);
}

#[test]
fn broken_frame_stops_the_open() {
    let codec = BincodeStrandCodec;
    let mut pool = codec.encode_strand(&strand_from_wal_payload_at(1, 1, b"x", 1)).expect("encode");
    pool.truncate(pool.len() - 1);
    assert!(matches!(scan_strands_tail(&pool), Err(CodecError::Serialize(_))));
    assert!(matches!(
        CollectionState::open(&pool, &[], &[]),
        Err(StorageError::StrandScan(CodecError::Serialize(_)))
    ));
    assert!(decode_all_strands(&pool).is_err());
}

#[test]
fn unknown_frame_version_stops_the_open() {
    let codec = BincodeStrandCodec;
    let mut pool = codec.encode_strand(&strand_from_wal_payload_at(1, 1, b"x", 1)).expect("encode");
    pool[4] = 2;
    assert!(matches!(
        codec.decode_strand(&pool),
        Err(CodecError::UnsupportedVersion(2))
    ));
    assert!(scan_strands_tail(&pool).is_err());
}

#[test]
fn complement_tail_is_where_the_blobs_end() {
    let strand = strand_from_wal_payload_at(1, 1, b"abc", 1);
    let blob = encode_complement_blob(&strand.complement).expect("blob");
    let mut pool = blob.clone();
    pool.extend(&blob);
    let used = pool.len();
    pool.resize(used + 64, 0);
    assert_eq!(scan_complement_tail(&pool), used);
    assert_eq!(scan_complement_tail(&[]), 0);
}

#[test]
fn meta_tail_is_the_last_byte_that_is_set() {
    assert_eq!(scan_meta_tail(&[0, 0, 0]), 0);
    assert_eq!(scan_meta_tail(&[1, 0, 2, 0]), 3);
    assert_eq!(scan_meta_tail(&[]), 0);
}

#[test]
fn capacity_doubles_until_it_is_enough() {
    assert_eq!(grown_capacity(64, 64), 64);
    assert_eq!(grown_capacity(64, 65), DEFAULT_FILE_SIZE);
    assert_eq!(grown_capacity(DEFAULT_FILE_SIZE, DEFAULT_FILE_SIZE + 1), 2 * DEFAULT_FILE_SIZE);
    assert_eq!(grown_capacity(DEFAULT_FILE_SIZE, 5 * DEFAULT_FILE_SIZE), 8 * DEFAULT_FILE_SIZE);
}

#[test]
fn full_map_refuses_an_append() {
    assert!(matches!(append_to_map(10, 4, 6), Ok((4, 10))));
    assert!(matches!(append_to_map(10, 4, 7), Err(StorageError::BufferFull)));
    assert!(matches!(append_to_map(10, 4, usize::MAX), Err(StorageError::BufferFull)));
}

#[test]
fn materialized_entry_holds_all_three_pools() {
    let codec = BincodeStrandCodec;
    let entry = materialize_entry_at(&codec, 3, 8, b"body", 77).expect("materialize");
    let strand = codec.decode_strand(&entry.strand_bytes).expect("decode");
    assert_eq!(strand, strand_from_wal_payload_at(3, 8, b"body", 77));
    assert_eq!(entry.crc_entry, encode_crc_entry(8, compute_crc32(&entry.strand_bytes)));
    assert_eq!(entry.complement_bytes, encode_complement_blob(&strand.complement).expect("blob"));
}

#[test]
fn reopened_collection_knows_its_mark() {
    let mut storage = Pools::open(64);
    for seq in [3u64, 8, 5] {
        storage.process(1, seq, b"row");
    }
    let len = storage.state.strand_bytes_written();
    let reopened = Pools::reopen(storage.strands, storage.complement, storage.meta);
    assert_eq!(reopened.state.materialized_high_water_sequence, 8);
    assert_eq!(reopened.state.strand_bytes_written(), len);
}
