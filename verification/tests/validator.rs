use fasta_util::is_nucleic_acid;
use fasta_util::nucleic_acid::{is_nucleic_acid_iter, is_nucleic_acid_lut, is_nucleic_acid_match};

const NUCLEIC_ACID_SET: &[u8; 17] = b"ACGTNUKSYMWRBDHV-";

#[test]
fn accept_valid_elems_match() {
    for x in NUCLEIC_ACID_SET {
        assert!(is_nucleic_acid_match(*x));
    }
}

#[test]
fn reject_invalid_elems_match() {
    for x in (0..=255u8).filter(|x| !NUCLEIC_ACID_SET.contains(x)) {
        assert!(!is_nucleic_acid_match(x));
    }
}

#[test]
fn accept_valid_elems_iter() {
    for x in NUCLEIC_ACID_SET {
        assert!(is_nucleic_acid_iter(*x));
    }
}

#[test]
fn reject_invalid_elems_iter() {
    for x in (0..=255u8).filter(|x| !NUCLEIC_ACID_SET.contains(x)) {
        assert!(!is_nucleic_acid_iter(x));
    }
}

#[test]
fn accept_valid_elems_lut() {
    for x in NUCLEIC_ACID_SET {
        assert!(is_nucleic_acid_lut(*x));
    }
}

#[test]
fn reject_invalid_elems_lut() {
    for x in (0..=255u8).filter(|x| !NUCLEIC_ACID_SET.contains(x)) {
        assert!(!is_nucleic_acid_lut(x));
    }
}

#[test]
fn validator_totality_all_versions_agree() {
    for x in 0..=255u8 {
        let expected = NUCLEIC_ACID_SET.contains(&x);
        assert_eq!(is_nucleic_acid_match(x), expected);
        assert_eq!(is_nucleic_acid_iter(x), expected);
        assert_eq!(is_nucleic_acid_lut(x), expected);
        assert_eq!(is_nucleic_acid(x), expected);
    }
}
