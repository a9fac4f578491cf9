use kmer_sketch::encoding::{
    check_bases, decode_u128_2_dna_seq, decode_u64_2_dna_seq, encode_dna_seq_2_u64, is_complex, decode_u128_l, decode_u128_r, encode_dna_seq_2_u128, EncodeError,
};

#[test]
fn encode_packs_msb_first() {
    assert_eq!(encode_dna_seq_2_u128(b"ACGT"), Ok(0b00_01_10_11));
    assert_eq!(encode_dna_seq_2_u128(b"T"), Ok(3));
    assert_eq!(encode_dna_seq_2_u128(b""), Ok(0));
}

#[test]
fn encode_rejects_non_bases() {
    assert_eq!(encode_dna_seq_2_u128(b"ACNT"), Err(EncodeError::InvalidBase(2)));
    assert_eq!(encode_dna_seq_2_u128(b"acgt"), Err(EncodeError::InvalidBase(0)));
}

#[test]
fn decode_unpacks_msb_first() {
    assert_eq!(decode_u128_2_dna_seq(&0b00_01_10_11, 4), b"ACGT".to_vec());
    assert_eq!(decode_u128_2_dna_seq(&0, 4), b"AAAA".to_vec());
    assert_eq!(decode_u128_2_dna_seq(&u128::MAX, 3), b"TTT".to_vec());
}

#[test]
fn round_trip_of_64_bases() {
    let s: Vec<u8> = b"ACGTTGCAACGTTGCAGGGGCCCCAAAATTTTACGTACGTTTTTGGGGCCCCAAAAACGTACGT".to_vec();
    assert_eq!(s.len(), 64);
    let k = encode_dna_seq_2_u128(&s).unwrap();
    assert_eq!(decode_u128_2_dna_seq(&k, 64), s);
}

#[test]
fn flanks_of_a_spaced_key() {
    let left: Vec<u8> = b"ACGTACGTACGTACGTACGTACGTACG".to_vec();
    let right: Vec<u8> = b"TTTTTGGGGGCCCCCAAAAATTTTTGG".to_vec();
    let mut both = left.clone();
    both.extend_from_slice(&right);
    let k = encode_dna_seq_2_u128(&both).unwrap();
    assert_eq!(decode_u128_l(&k).to_vec(), left);
    assert_eq!(decode_u128_r(&k).to_vec(), right);
    assert_eq!(decode_u128_2_dna_seq(&k, 54), both);
}

#[test]
fn check_bases_finds_first_bad_byte() {
    assert_eq!(check_bases(b"ACGTACGT"), Ok(()));
    assert_eq!(check_bases(b""), Ok(()));
    assert_eq!(check_bases(b"ACGNNN"), Err(EncodeError::InvalidBase(3)));
}

#[test]
fn u64_packing() {
    assert_eq!(encode_dna_seq_2_u64(b"ACGT"), Ok(27));
    assert_eq!(encode_dna_seq_2_u64(&[b'T'; 32]), Ok(u64::MAX));
    assert_eq!(encode_dna_seq_2_u64(b"AXG"), Err(EncodeError::InvalidBase(1)));
    assert_eq!(decode_u64_2_dna_seq(27, 0, 4), b'A');
    assert_eq!(decode_u64_2_dna_seq(27, 1, 4), b'C');
    assert_eq!(decode_u64_2_dna_seq(27, 2, 4), b'G');
    assert_eq!(decode_u64_2_dna_seq(27, 3, 4), b'T');
}

#[test]
fn low_complexity_runs() {
    let plain: Vec<u8> = b"ACGTACGTACGTACGTACGTACGTACGTACGTACGTACGTACGTACGTACGTAC".to_vec();
    assert_eq!(plain.len(), 54);
    let k = encode_dna_seq_2_u128(&plain).unwrap();
    assert!(!is_complex(&k));
    let mut run = plain.clone();
    run[20] = b'G';
    run[21] = b'G';
    run[22] = b'G';
    run[23] = b'G';
    let k2 = encode_dna_seq_2_u128(&run).unwrap();
    assert!(is_complex(&k2));
    assert!(is_complex(&0));
}
