use mfas_core::address::Address;
use mfas_core::dag::{build_dag, optimize_dag};
use mfas_core::node::Node;
use mfas_core::resolver::{resolve, AddressStore, Limits, MemoryStore};

#[test]
fn test_dag_stats_diamond() {
    let mut store = MemoryStore::new();

    let node_c = Node::Data(b"DataC".to_vec());
    let addr_c = node_c.to_address().unwrap();
    store.put(&addr_c, node_c).unwrap();

    let node_a = Node::Repeat {
        target: addr_c.clone(),
        count: 2,
    };
    let addr_a = node_a.to_address().unwrap();
    store.put(&addr_a, node_a).unwrap();

    let node_b = Node::Repeat {
        target: addr_c.clone(),
        count: 3,
    };
    let addr_b = node_b.to_address().unwrap();
    store.put(&addr_b, node_b).unwrap();

    let root = Node::Sequence(vec![addr_a, addr_b]).to_address().unwrap();

    let dag = build_dag(&root, &store).unwrap();
    let stats = dag.counts();

    assert_eq!(stats.total_nodes, 4);
    assert_eq!(stats.total_edges, 4);
    assert_eq!(stats.shared_nodes, 1);
    assert_eq!(stats.leaf_nodes, 1);
    let extra_edges = stats.total_edges as f64 - stats.total_nodes as f64 + 1.0;
    let sharing_ratio = extra_edges / stats.total_edges as f64;
    assert!(sharing_ratio > 0.0);
}

#[test]
fn test_dag_dot_export() {
    let mut store = MemoryStore::new();
    let data = Node::Data(b"Graphviz".to_vec());
    let addr = data.to_address().unwrap();
    store.put(&addr, data).unwrap();

    let root = Node::Repeat {
        target: addr,
        count: 3,
    }
    .to_address()
    .unwrap();

    let dag = build_dag(&root, &store).unwrap();
    let dot = dag.to_dot();

    assert!(dot.starts_with("digraph MFAS {"));
    assert!(dot.contains("Repeat"));
    assert!(dot.contains("Data"));
    assert!(dot.ends_with("}\n"));
}

#[test]
fn test_dag_optimize_flattens_and_preserves_content() {
    let mut store = MemoryStore::new();
    let limits = Limits::default();

    let leaf1 = Node::Data(b"Part1".to_vec()).to_address().unwrap();
    let leaf2 = Node::Data(b"Part2".to_vec()).to_address().unwrap();

    let inner_seq = Node::Sequence(vec![leaf1.clone(), leaf2.clone()])
        .to_address()
        .unwrap();
    let outer_seq = Node::Sequence(vec![inner_seq]).to_address().unwrap();

    let original_bytes = resolve(&outer_seq, &store, &limits).unwrap();
    assert_eq!(original_bytes, b"Part1Part2");

    let report = optimize_dag(&outer_seq, &mut store).unwrap();
    assert!(report.transformations.len() > 0);

    let optimized_bytes = resolve(&report.optimized_root, &store, &limits).unwrap();
    assert_eq!(optimized_bytes, original_bytes);
}

#[test]
fn test_dag_optimize_folds_adjacent_repeats() {
    let mut store = MemoryStore::new();
    let limits = Limits::default();

    let leaf = Node::Data(b"R".to_vec()).to_address().unwrap();
    let seq = Node::Sequence(vec![leaf.clone(), leaf.clone(), leaf.clone()])
        .to_address()
        .unwrap();

    let report = optimize_dag(&seq, &mut store).unwrap();
    assert!(report.transformations.iter().any(|t| t.contains("Folded 3x")));

    let optimized_bytes = resolve(&report.optimized_root, &store, &limits).unwrap();
    assert_eq!(optimized_bytes, b"RRR");
}

#[test]
fn depth_is_the_longest_path_from_the_root() {
    let l = Node::Data(b"x".to_vec()).to_address().unwrap();
    let b = Node::Repeat { target: l.clone(), count: 2 }.to_address().unwrap();
    let a = Node::Reference(b.clone()).to_address().unwrap();
    let root = Node::Sequence(vec![a.clone(), b.clone()]).to_address().unwrap();
    let store = MemoryStore::new();
    let g = build_dag(&root, &store).unwrap();
    let depth = |x: &Address| g.depth_map.iter().find(|e| &e.0 == x).unwrap().1;
    assert_eq!(depth(&root), 1);
    assert_eq!(depth(&a), 2);
    assert_eq!(depth(&b), 3);
    assert_eq!(depth(&l), 4);
    assert_eq!(g.counts().max_depth, 4);
}

#[test]
fn optimized_nodes_are_stored_under_their_own_addresses() {
    let mut store = MemoryStore::new();
    let leaf = Node::Data(b"R".to_vec()).to_address().unwrap();
    let inner = Node::Sequence(vec![leaf.clone(), leaf.clone()]).to_address().unwrap();
    let seq = Node::Sequence(vec![inner.clone(), leaf.clone(), leaf.clone()]).to_address().unwrap();
    let report = optimize_dag(&seq, &mut store).unwrap();
    let root = report.optimized_root.clone();
    let stored = store.get(&root).unwrap().unwrap();
    assert_eq!(stored.to_address().unwrap(), root);
    assert_eq!(resolve(&root, &store, &Limits::default()).unwrap(), b"RRRR");
}
