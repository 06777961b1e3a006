use mfas_core::enumeration::{bytes_to_number, number_to_bytes, Natural};

#[test]
fn test_empty_string_maps_to_zero() {
    let empty = b"";
    let n = bytes_to_number(empty);
    assert_eq!(n, Natural::zero());
    assert_eq!(number_to_bytes(&n), empty);
}

#[test]
fn test_single_byte_range() {
    assert_eq!(bytes_to_number(&[0x00]), Natural::from_u64(1));
    assert_eq!(number_to_bytes(&Natural::from_u64(1)), vec![0x00]);

    assert_eq!(bytes_to_number(&[0x01]), Natural::from_u64(2));
    assert_eq!(number_to_bytes(&Natural::from_u64(2)), vec![0x01]);

    assert_eq!(bytes_to_number(&[0xFF]), Natural::from_u64(256));
    assert_eq!(number_to_bytes(&Natural::from_u64(256)), vec![0xFF]);
}

#[test]
fn test_two_byte_range() {
    assert_eq!(bytes_to_number(&[0x00, 0x00]), Natural::from_u64(257));
    assert_eq!(number_to_bytes(&Natural::from_u64(257)), vec![0x00, 0x00]);

    assert_eq!(bytes_to_number(&[0x00, 0x01]), Natural::from_u64(258));
    assert_eq!(number_to_bytes(&Natural::from_u64(258)), vec![0x00, 0x01]);

    assert_eq!(bytes_to_number(&[0xFF, 0xFF]), Natural::from_u64(65792));
    assert_eq!(number_to_bytes(&Natural::from_u64(65792)), vec![0xFF, 0xFF]);
}

#[test]
fn test_distinguishes_leading_zeros() {
    let b1 = vec![0x01];
    let b2 = vec![0x00, 0x01];
    let b3 = vec![0x00, 0x00, 0x01];

    let n1 = bytes_to_number(&b1);
    let n2 = bytes_to_number(&b2);
    let n3 = bytes_to_number(&b3);

    assert_ne!(n1, n2);
    assert_ne!(n2, n3);
    assert_ne!(n1, n3);

    assert_eq!(number_to_bytes(&n1), b1);
    assert_eq!(number_to_bytes(&n2), b2);
    assert_eq!(number_to_bytes(&n3), b3);
}

#[test]
fn test_arbitrary_data_roundtrip() {
    let test_cases: Vec<&[u8]> = vec![
        b"Hello",
        b"The quick brown fox jumps over the lazy dog",
        &[0, 0, 0, 0, 0, 0, 1],
        &[255, 128, 64, 32, 16, 8, 4, 2, 1, 0],
    ];

    for case in test_cases {
        let n = bytes_to_number(case);
        let restored = number_to_bytes(&n);
        assert_eq!(restored.as_slice(), case);
    }
}

#[test]
fn test_sequential_natural_numbers() {
    for i in 0..1000u32 {
        let n = Natural::from_u64(i as u64);
        let bytes = number_to_bytes(&n);
        let restored_n = bytes_to_number(&bytes);
        assert_eq!(restored_n, n, "Failed for integer {}", i);
    }
}
