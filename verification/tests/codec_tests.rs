use dnadb_engine::codec::{BincodeStrandCodec, CodecError, StrandCodec, STRAND_FORMAT_MAGIC};
use dnadb_engine::model::{Codon, Intron, RefreshPolicy, Strand, Tag, Telomere};

fn sample_strand() -> Strand {
    Strand {
        signature: *b"STRAND01",
        collection_id: 42,
        codons: vec![Codon::new(0, 1, 2).unwrap(), Codon::new(3, 2, 1).unwrap()],
        complement: vec![Codon::new(3, 2, 1).unwrap(), Codon::new(0, 1, 2).unwrap()],
        introns: vec![Intron {
            field_name: "email".to_string(),
            codon_offset: 3,
            codon_length: 12,
            value_hash: 12345,
            references_strand: None,
        }],
        telomere: Telomere {
            count: 100,
            immortal: true,
            last_refresh: 1_717_000_000,
            refresh_policy: RefreshPolicy::Immortal,
        },
        epigenetic_tags: vec![Tag {
            key: "overlay".to_string(),
            value: "admin".to_string(),
        }],
        version: 1,
        created_at: 1_717_000_000,
        updated_at: 1_717_000_100,
    }
}

#[test]
fn round_trip_serialization_preserves_strand() {
    let codec = BincodeStrandCodec;
    let strand = sample_strand();

    let encoded = codec.encode_strand(&strand).expect("encode");
    assert_eq!(&encoded[0..4], STRAND_FORMAT_MAGIC.as_slice());

    let decoded = codec.decode_strand(&encoded).expect("decode");
    assert_eq!(decoded, strand);
}

#[test]
fn decode_fails_on_bad_magic() {
    let codec = BincodeStrandCodec;
    let mut payload = vec![0_u8; 6];
    payload[4] = 1;

    let err = codec.decode_strand(&payload).expect_err("bad magic should fail");
    assert!(matches!(err, CodecError::InvalidMagic));
}
