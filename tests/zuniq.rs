use healpix_geo::zuniq::{
    cell_count, decode, encode, is_valid_zuniq, unit_count, zuniq_from_nested, zuniq_to_nested,
    CodecError, Depths,
};

#[test]
fn encode_exact_values() {
    assert_eq!(encode(0, 0), 1u64 << 58);
    assert_eq!(encode(29, 5), 11);
    assert_eq!(encode(1, 47), 95u64 << 56);
    assert_eq!(encode(0, 11), 23u64 << 58);
}

#[test]
fn decode_exact_values() {
    assert_eq!(decode(11), (29, 5));
    assert_eq!(decode(1u64 << 58), (0, 0));
    assert_eq!(decode(95u64 << 56), (1, 47));
}

#[test]
fn round_trip() {
    for depth in 0u8..=29 {
        let n = cell_count(depth);
        for cell in [0, 1, n / 3, n / 2 + 1, n - 1] {
            assert_eq!(decode(encode(depth, cell)), (depth, cell));
        }
    }
}

#[test]
fn counts() {
    assert_eq!(cell_count(0), 12);
    assert_eq!(cell_count(29), 12u64 << 58);
    assert_eq!(unit_count(29), 1);
    assert_eq!(unit_count(0), 1u64 << 58);
}

#[test]
fn validity_of_codes() {
    assert!(!is_valid_zuniq(0));
    assert!(!is_valid_zuniq(2));
    assert!(!is_valid_zuniq(3u64 << 60));
    assert!(!is_valid_zuniq(25u64 << 58));
    assert!(is_valid_zuniq(1u64 << 58));
    assert!(is_valid_zuniq(23u64 << 58));
    assert!(is_valid_zuniq(11));
}

#[test]
fn batch_encode_constant_depth() {
    let r = zuniq_from_nested(&[0, 5], &Depths::Constant(1)).unwrap();
    assert_eq!(r, vec![1u64 << 56, 11u64 << 56]);
}

#[test]
fn batch_encode_per_cell_depth() {
    let r = zuniq_from_nested(&[5, 0], &Depths::PerCell(vec![29, 0])).unwrap();
    assert_eq!(r, vec![11, 1u64 << 58]);
}

#[test]
fn batch_encode_errors() {
    assert_eq!(
        zuniq_from_nested(&[1, 2], &Depths::PerCell(vec![3])).err(),
        Some(CodecError::LengthMismatch)
    );
    assert_eq!(
        zuniq_from_nested(&[12], &Depths::Constant(0)).err(),
        Some(CodecError::InvalidCell)
    );
    assert_eq!(
        zuniq_from_nested(&[1], &Depths::Constant(30)).err(),
        Some(CodecError::InvalidCell)
    );
    assert_eq!(
        zuniq_from_nested(&[], &Depths::Constant(30)).err(),
        Some(CodecError::InvalidCell)
    );
}

#[test]
fn batch_decode() {
    let (cells, depths) = zuniq_to_nested(&[11, 1u64 << 58, 95u64 << 56]).unwrap();
    assert_eq!(cells, vec![5, 0, 47]);
    assert_eq!(depths, vec![29, 0, 1]);
    assert_eq!(zuniq_to_nested(&[11, 0]).err(), Some(CodecError::InvalidCode));
}
