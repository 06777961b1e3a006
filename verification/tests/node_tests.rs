use mfas_core::address::{Address, NodeType};
use mfas_core::error::NodeError;
use mfas_core::node::Node;
use mfas_core::page::Page;

#[test]
fn test_data_node_roundtrip() {
    let node = Node::Data(b"Inline Literal Bytes".to_vec());
    let addr = node.to_address().unwrap();
    assert_eq!(addr.node_type(), NodeType::Data);
    let restored = Node::from_address(&addr).unwrap();
    assert_eq!(restored, node);
    assert!(node.child_addresses().is_empty());
}

#[test]
fn test_reference_node_roundtrip() {
    let target = Address::new(NodeType::Data, vec![0xCA, 0xFE]).unwrap();
    let node = Node::Reference(target.clone());
    let addr = node.to_address().unwrap();
    assert_eq!(addr.node_type(), NodeType::Ref);
    let restored = Node::from_address(&addr).unwrap();
    assert_eq!(restored, node);
    assert_eq!(node.child_addresses(), vec![&target]);
}

#[test]
fn test_sequence_node_roundtrip() {
    let child1 = Address::new(NodeType::Data, vec![1, 2]).unwrap();
    let child2 = Address::new(NodeType::Data, vec![3, 4]).unwrap();
    let node = Node::Sequence(vec![child1.clone(), child2.clone()]);
    let addr = node.to_address().unwrap();
    assert_eq!(addr.node_type(), NodeType::Sequence);
    let restored = Node::from_address(&addr).unwrap();
    assert_eq!(restored, node);
    assert_eq!(node.child_addresses(), vec![&child1, &child2]);
}

#[test]
fn test_repeat_node_roundtrip() {
    let target = Address::new(NodeType::Data, vec![0xFF]).unwrap();
    let node = Node::Repeat {
        target: target.clone(),
        count: 1024,
    };
    let addr = node.to_address().unwrap();
    assert_eq!(addr.node_type(), NodeType::Rep);
    let restored = Node::from_address(&addr).unwrap();
    assert_eq!(restored, node);
    assert_eq!(node.child_addresses(), vec![&target]);
}

#[test]
fn test_slice_node_roundtrip() {
    let target = Address::new(NodeType::Data, vec![0, 1, 2, 3, 4, 5]).unwrap();
    let node = Node::Slice {
        target: target.clone(),
        offset: 2,
        length: 3,
    };
    let addr = node.to_address().unwrap();
    assert_eq!(addr.node_type(), NodeType::Slice);
    let restored = Node::from_address(&addr).unwrap();
    assert_eq!(restored, node);
    assert_eq!(node.child_addresses(), vec![&target]);
}

#[test]
fn test_page_node_roundtrip() {
    let page = Page::new(vec![42; 100]).unwrap();
    let node = Node::Page(page);
    let addr = node.to_address().unwrap();
    assert_eq!(addr.node_type(), NodeType::Page);
    let restored = Node::from_address(&addr).unwrap();
    assert_eq!(restored, node);
}

#[test]
fn test_node_validation_errors() {
    let empty_seq = Node::Sequence(vec![]);
    assert!(matches!(empty_seq.to_address().unwrap_err(), NodeError::EmptySequence));

    let target = Address::new(NodeType::Data, vec![1]).unwrap();
    let zero_rep = Node::Repeat {
        target: target.clone(),
        count: 0,
    };
    assert!(matches!(zero_rep.to_address().unwrap_err(), NodeError::ZeroRepeatCount));

    let zero_slice = Node::Slice {
        target,
        offset: 10,
        length: 0,
    };
    assert!(matches!(zero_slice.to_address().unwrap_err(), NodeError::InvalidSliceRange { .. }));
}
