use dnadb_engine::encoding::{
    decode_codons_to_bytes, encode_bytes_to_codons, encode_bytes_to_codons_scalar,
    SIMD_ENCODE_THRESHOLD,
};
use dnadb_engine::encoding::encode_bytes_to_codons_avx2;

#[test]
fn round_trip_empty_payload() {
    let input = Vec::<u8>::new();
    let encoded = encode_bytes_to_codons(&input);
    let decoded = decode_codons_to_bytes(&encoded).expect("decode");
    assert_eq!(decoded, input);
}

#[test]
fn round_trip_text_payload() {
    let input = b"dna-db: stage-1 encoding".to_vec();
    let encoded = encode_bytes_to_codons(&input);
    let decoded = decode_codons_to_bytes(&encoded).expect("decode");
    assert_eq!(decoded, input);
}

#[test]
fn round_trip_full_byte_range() {
    let input: Vec<u8> = (0..=255).collect();
    let encoded = encode_bytes_to_codons(&input);
    let decoded = decode_codons_to_bytes(&encoded).expect("decode");
    assert_eq!(decoded, input);
}

#[test]
fn simd_matches_scalar_random_sizes() {
    let mut buf = Vec::new();
    for len in 0usize..512 {
        buf.clear();
        buf.extend((0..len).map(|i| ((i * 131 + 17) ^ (len * 3)) as u8));
        let s = encode_bytes_to_codons_scalar(buf.as_slice());
        let d = encode_bytes_to_codons(buf.as_slice());
        assert_eq!(s, d, "len {len} default vs scalar");
        let a = encode_bytes_to_codons_avx2(buf.as_slice());
        assert_eq!(s, a, "len {len} avx2 vs scalar");
    }
}

#[test]
fn threshold_routes_to_scalar_on_small_payload() {
    let buf: Vec<u8> = (0..SIMD_ENCODE_THRESHOLD.saturating_sub(1)).map(|i| i as u8).collect();
    let s = encode_bytes_to_codons_scalar(&buf);
    let d = encode_bytes_to_codons(&buf);
    assert_eq!(s, d);
}
