use dnadb_engine::complement::{find_corruption, generate_complement, is_valid_pairing};
use dnadb_engine::model::Codon;

#[test]
fn generated_complement_is_valid() {
    let strand = vec![
        Codon::new(0, 1, 2).unwrap(),
        Codon::new(3, 0, 1).unwrap(),
        Codon::new(2, 2, 3).unwrap(),
    ];
    let complement = generate_complement(&strand);
    assert!(is_valid_pairing(&strand, &complement));
}

#[test]
fn corruption_is_detected_with_position() {
    let strand = vec![Codon::new(0, 1, 2).unwrap(), Codon::new(3, 0, 1).unwrap()];
    let mut complement = generate_complement(&strand);
    complement[1] = Codon::new(1, 3, 2).unwrap(); // corrupt first symbol only

    let issues = find_corruption(&strand, &complement);
    assert_eq!(issues.len(), 1);
    assert_eq!(issues[0].codon_index, 1);
    assert_eq!(issues[0].symbol_index, 0);
    assert!(!is_valid_pairing(&strand, &complement));
}
