use mfas_core::address::{Address, NodeType};
use mfas_core::error::ResolveError;
use mfas_core::node::Node;
use mfas_core::page::Page;
use mfas_core::resolver::{resolve, resolve_to_writer, AddressStore, ByteSink, Limits, MemoryStore};

#[test]
fn test_resolve_data_node() {
    let store = MemoryStore::new();
    let limits = Limits::default();
    let node = Node::Data(b"Hello Resolver".to_vec());
    let addr = node.to_address().unwrap();

    let resolved = resolve(&addr, &store, &limits).unwrap();
    assert_eq!(resolved, b"Hello Resolver");
}

#[test]
fn test_resolve_sequence_and_repeat() {
    let store = MemoryStore::new();
    let limits = Limits::default();

    let part1 = Node::Data(b"AB".to_vec()).to_address().unwrap();
    let rep = Node::Repeat {
        target: part1.clone(),
        count: 3,
    }
    .to_address()
    .unwrap();

    let seq = Node::Sequence(vec![part1, rep]).to_address().unwrap();
    let resolved = resolve(&seq, &store, &limits).unwrap();
    assert_eq!(resolved, b"ABABABAB");
}

#[test]
fn test_resolve_slice() {
    let store = MemoryStore::new();
    let limits = Limits::default();

    let base = Node::Data(b"0123456789".to_vec()).to_address().unwrap();
    let slice = Node::Slice {
        target: base,
        offset: 3,
        length: 4,
    }
    .to_address()
    .unwrap();

    let resolved = resolve(&slice, &store, &limits).unwrap();
    assert_eq!(resolved, b"3456");
}

#[test]
fn test_resolve_page() {
    let store = MemoryStore::new();
    let limits = Limits::default();

    let page = Page::new(vec![0xAA; 4096]).unwrap();
    let addr = page.to_address(0);

    let resolved = resolve(&addr, &store, &limits).unwrap();
    assert_eq!(resolved.len(), 4096);
    assert_eq!(resolved[0], 0xAA);
}

#[test]
fn test_cycle_detection() {
    let mut store = MemoryStore::new();
    let limits = Limits::default();

    let addr1 = Address::new(NodeType::Ref, vec![1]).unwrap();
    let addr2 = Address::new(NodeType::Ref, vec![2]).unwrap();

    store.put(&addr1, Node::Reference(addr2.clone())).unwrap();
    store.put(&addr2, Node::Reference(addr1.clone())).unwrap();

    let err = resolve(&addr1, &store, &limits).unwrap_err();
    assert!(matches!(err, ResolveError::CycleDetected { .. }));
}

#[test]
fn test_depth_limit_exceeded() {
    let mut store = MemoryStore::new();
    let limits = Limits {
        max_depth: 3,
        max_output_bytes: 1000,
        max_node_count: 100,
    };

    let a1 = Address::new(NodeType::Ref, vec![1]).unwrap();
    let a2 = Address::new(NodeType::Ref, vec![2]).unwrap();
    let a3 = Address::new(NodeType::Ref, vec![3]).unwrap();
    let a4 = Address::new(NodeType::Ref, vec![4]).unwrap();

    store.put(&a1, Node::Reference(a2.clone())).unwrap();
    store.put(&a2, Node::Reference(a3.clone())).unwrap();
    store.put(&a3, Node::Reference(a4.clone())).unwrap();
    store.put(&a4, Node::Data(b"End".to_vec())).unwrap();

    let err = resolve(&a1, &store, &limits).unwrap_err();
    assert!(matches!(err, ResolveError::MaxDepthExceeded { .. }));
}

#[test]
fn test_output_limit_exceeded() {
    let store = MemoryStore::new();
    let limits = Limits {
        max_depth: 10,
        max_output_bytes: 5,
        max_node_count: 100,
    };

    let data = Node::Data(b"1234567890".to_vec()).to_address().unwrap();
    let err = resolve(&data, &store, &limits).unwrap_err();
    assert!(matches!(err, ResolveError::MaxOutputBytesExceeded { .. }));
}

#[test]
fn output_limit_counts_reconstructed_bytes() {
    let x = Node::Data(b"0123456789".to_vec()).to_address().unwrap();
    let s = Node::Slice { target: x.clone(), offset: 3, length: 4 }.to_address().unwrap();
    let store = MemoryStore::new();
    let limits = Limits { max_depth: 10, max_output_bytes: 4, max_node_count: 100 };
    assert_eq!(resolve(&s, &store, &limits), Ok(b"3456".to_vec()));
    let tight = Limits { max_depth: 10, max_output_bytes: 3, max_node_count: 100 };
    assert_eq!(
        resolve(&s, &store, &tight),
        Err(ResolveError::MaxOutputBytesExceeded { limit: 3, current: 4 })
    );
    let mut sink = ByteSink::buffer();
    assert_eq!(resolve_to_writer(&s, &store, &Limits::default(), &mut sink), Ok(4));
    assert_eq!(sink.into_bytes(), Some(b"3456".to_vec()));
}
