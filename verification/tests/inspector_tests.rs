use mfas_core::inspector::{checked_inspect_address, inspect_address};
use mfas_core::node::Node;
use mfas_core::page::Page;
use mfas_core::resolver::{resolve, AddressStore, Limits, MemoryStore};

#[test]
fn test_inspect_simple_tree() {
    let mut store = MemoryStore::new();
    let p1 = Page::new(vec![1; 4096]).unwrap();
    let p2 = Page::new(vec![2; 500]).unwrap();

    let a1 = p1.to_address(0);
    let a2 = p2.to_address(1);
    store.put(&a1, Node::Page(p1)).unwrap();
    store.put(&a2, Node::Page(p2)).unwrap();

    let root_node = Node::Sequence(vec![a1, a2]);
    let root_addr = root_node.to_address().unwrap();
    store.put(&root_addr, root_node).unwrap();

    let report = inspect_address(&root_addr, &store, 5).unwrap();
    assert_eq!(report.node_type, "seq");
    assert_eq!(report.total_bytes, 4096 + 500);
    assert_eq!(report.page_count, 2);
    assert_eq!(report.total_nodes, 3);
    assert!(report.tree_ascii.contains("Page (4096 B)"));
    assert!(report.tree_ascii.contains("Partial Page (500 B)"));
}

#[test]
fn inspected_size_is_the_resolved_size() {
    let x = Node::Data(b"0123456789".to_vec()).to_address().unwrap();
    let s = Node::Slice { target: x.clone(), offset: 3, length: 4 }.to_address().unwrap();
    let store = MemoryStore::new();
    let rep = inspect_address(&s, &store, 5).unwrap();
    assert_eq!(rep.total_bytes, 4);
    assert_eq!(rep.total_bytes as usize, resolve(&s, &store, &Limits::default()).unwrap().len());
    let past = Node::Slice { target: x.clone(), offset: 8, length: 5 }.to_address().unwrap();
    assert_eq!(inspect_address(&past, &store, 5).unwrap().total_bytes, 2);
    let r = Node::Repeat { target: s, count: 3 }.to_address().unwrap();
    assert_eq!(inspect_address(&r, &store, 5).unwrap().total_bytes, 12);
}

#[test]
fn checked_inspection_refuses_a_cycle() {
    let mut store = MemoryStore::new();
    let a = Node::Data(b"loop".to_vec()).to_address().unwrap();
    store.put(&a, Node::Reference(a.clone())).unwrap();
    assert!(checked_inspect_address(&a, &store, 5, 64).is_none());
}

#[test]
fn checked_inspection_agrees_with_inspection() {
    let x = Node::Data(b"0123456789".to_vec()).to_address().unwrap();
    let r = Node::Repeat { target: x.clone(), count: 3 }.to_address().unwrap();
    let store = MemoryStore::new();
    let checked = checked_inspect_address(&r, &store, 5, 64).unwrap().unwrap();
    let plain = inspect_address(&r, &store, 5).unwrap();
    assert_eq!(checked.total_bytes, 30);
    assert_eq!(checked.total_bytes, plain.total_bytes);
    assert_eq!(checked.total_nodes, plain.total_nodes);
    assert_eq!(checked.tree_ascii, plain.tree_ascii);
    // a walk two levels deep does not settle within one level
    assert!(checked_inspect_address(&r, &store, 5, 1).is_none());
    assert!(checked_inspect_address(&r, &store, 5, 2).is_some());
}
