use mfas_core::address::NodeType;
use mfas_core::codec::{decode, encode, ByteCursor};
use mfas_core::resolver::MemoryStore;

#[test]
fn test_codec_empty_stream() {
    let mut store = MemoryStore::new();
    let mut empty = ByteCursor::new(b"".to_vec());
    let root = encode(&mut empty, &mut store).unwrap();

    assert_eq!(root.to_uri(), "mfas:v1:data:");
    let decoded = decode(&root, &store).unwrap();
    assert_eq!(decoded, b"");
}

#[test]
fn test_codec_single_page() {
    let mut store = MemoryStore::new();
    let data = b"Hello Single Page MFAS Encoding!";
    let mut cursor = ByteCursor::new(data.to_vec());
    let root = encode(&mut cursor, &mut store).unwrap();

    let decoded = decode(&root, &store).unwrap();
    assert_eq!(decoded, data);
}

#[test]
fn test_codec_multi_page_and_partial() {
    let mut store = MemoryStore::new();
    let mut data = Vec::with_capacity(10_000);
    for i in 0..10_000 {
        data.push((i % 256) as u8);
    }

    let mut cursor = ByteCursor::new(data.clone());
    let root = encode(&mut cursor, &mut store).unwrap();
    assert_eq!(root.node_type(), NodeType::Sequence);

    let decoded = decode(&root, &store).unwrap();
    assert_eq!(decoded.len(), 10_000);
    assert_eq!(decoded, data);
}

#[test]
fn test_codec_repetitive_data_compression() {
    let mut store = MemoryStore::new();
    let single_page = vec![0x42; 4096];
    let mut data = Vec::new();
    for _ in 0..5 {
        data.extend_from_slice(&single_page);
    }

    let mut cursor = ByteCursor::new(data.clone());
    let root = encode(&mut cursor, &mut store).unwrap();

    let decoded = decode(&root, &store).unwrap();
    assert_eq!(decoded.len(), 20_480);
    assert_eq!(decoded, data);
}
