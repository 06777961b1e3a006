use mfas_core::address::{Address, NodeType, BINARY_MAGIC};
use mfas_core::error::AddressError;

#[test]
fn test_valid_address_roundtrip() {
    let raw_data = b"Hello, MFAS!";
    let addr = Address::new(NodeType::Data, raw_data.to_vec()).unwrap();
    let uri = addr.to_uri();
    assert_eq!(uri, "mfas:v1:data:48656c6c6f2c204d46415321");

    let parsed: Address = uri.parse().unwrap();
    assert_eq!(parsed, addr);
    assert_eq!(parsed.node_type(), NodeType::Data);
    assert_eq!(parsed.payload(), raw_data);
}

#[test]
fn test_case_insensitivity_parsing() {
    let upper_uri = "MFAS:V1:DATA:48656C6C6F";
    let parsed: Address = upper_uri.parse().unwrap();
    assert_eq!(parsed.to_uri(), "mfas:v1:data:48656c6c6f");
}

#[test]
fn test_odd_length_hex_rejected() {
    let bad_uri = "mfas:v1:data:48656c6c6";
    let err = bad_uri.parse::<Address>().unwrap_err();
    assert!(matches!(err, AddressError::OddLengthHex(9)));
}

#[test]
fn test_invalid_prefix_and_version() {
    assert!(matches!(
        "http:v1:data:48".parse::<Address>().unwrap_err(),
        AddressError::InvalidPrefix(_)
    ));
    assert!(matches!(
        "mfas:v2:data:48".parse::<Address>().unwrap_err(),
        AddressError::InvalidVersion(_)
    ));
}

#[test]
fn test_binary_serialization_roundtrip() {
    let addr = Address::new(NodeType::Ref, vec![0xAB, 0xCD, 0xEF, 0x01, 0x23]).unwrap();
    let binary = addr.to_binary();
    assert_eq!(&binary[0..4], &BINARY_MAGIC);
    assert_eq!(binary[4], 1);
    assert_eq!(binary[5], NodeType::Ref.type_id());

    let restored = Address::from_binary(&binary).unwrap();
    assert_eq!(restored, addr);
}

#[test]
fn test_all_node_types_roundtrip() {
    let types = [
        NodeType::Data,
        NodeType::Ref,
        NodeType::Sequence,
        NodeType::Rep,
        NodeType::Slice,
        NodeType::Page,
    ];
    for nt in types {
        let addr = Address::new(nt, vec![0xCA, 0xFE]).unwrap();
        let uri = addr.to_uri();
        let parsed: Address = uri.parse().unwrap();
        assert_eq!(parsed.node_type(), nt);
        assert_eq!(parsed, addr);

        let bin = addr.to_binary();
        let restored = Address::from_binary(&bin).unwrap();
        assert_eq!(restored, addr);
    }
}

#[test]
fn test_empty_payload_rejected() {
    assert!(matches!(
        Address::new(NodeType::Ref, vec![]).unwrap_err(),
        AddressError::EmptyPayload
    ));
    assert!(matches!(
        "mfas:v1:ref:".parse::<Address>().unwrap_err(),
        AddressError::EmptyPayload
    ));
}

#[test]
fn test_empty_data_node_allowed() {
    let addr = Address::new(NodeType::Data, vec![]).unwrap();
    assert_eq!(addr.to_uri(), "mfas:v1:data:");
    let parsed: Address = "mfas:v1:data:".parse().unwrap();
    assert_eq!(parsed, addr);
    assert!(parsed.payload().is_empty());

    let bin = addr.to_binary();
    let restored = Address::from_binary(&bin).unwrap();
    assert_eq!(restored, addr);
}

#[test]
fn test_total_ordering() {
    let a1 = Address::new(NodeType::Data, vec![0x01]).unwrap();
    let a2 = Address::new(NodeType::Data, vec![0x02]).unwrap();
    let a3 = Address::new(NodeType::Ref, vec![0x01]).unwrap();

    assert!(a1 < a2);
    assert!(a1 < a3);
}
