use mfas_core::address::{Address, NodeType};
use mfas_core::codec::{decode, encode, verify_stream, ByteCursor};
use mfas_core::dag::{build_dag, optimize_dag};
use mfas_core::enumeration::{bytes_to_number, length_offset, number_to_bytes, parse_natural, Natural};
use mfas_core::text::{bytes_from_hex, bytes_to_hex, parse_u64};
use mfas_core::error::{AddressError, NodeError, PageError, ResolveError};
use mfas_core::gpu::{CpuEvaluator, Evaluator, GpuError, GpuEvaluator, PageEvalRequest, SimdEvaluator};
use mfas_core::inspector::inspect_address;
use mfas_core::node::Node;
use mfas_core::page::{Page, RadixCoordinate};
use mfas_core::resolver::{resolve, AddressStore, Limits, MemoryStore};

fn data_addr(bytes: &[u8]) -> Address {
    Node::Data(bytes.to_vec()).to_address().unwrap()
}

#[test]
fn uri_and_binary_forms_round_trip() {
    let samples = vec![
        Address::new(NodeType::Data, vec![]).unwrap(),
        Address::new(NodeType::Ref, vec![0, 1, 2, 255]).unwrap(),
        Address::new(NodeType::Sequence, vec![9; 300]).unwrap(),
        Address::new(NodeType::Page, vec![0x10; 20]).unwrap(),
    ];
    for a in samples {
        let parsed: Address = a.to_uri().parse().unwrap();
        assert_eq!(parsed, a);
        assert_eq!(Address::from_binary(&a.to_binary()).unwrap(), a);
    }
}

#[test]
fn payload_hex_is_lowercase_and_hex_input_is_checked() {
    let a = Address::from_hex(NodeType::Data, "ABCDEF").unwrap();
    assert_eq!(a.payload(), &[0xAB, 0xCD, 0xEF]);
    assert_eq!(a.payload_hex(), "abcdef");
    assert_eq!(a.to_uri(), "mfas:v1:data:abcdef");
    assert!(matches!(
        Address::from_hex(NodeType::Data, "zz"),
        Err(AddressError::InvalidHex(_))
    ));
    assert!(matches!(
        Address::from_hex(NodeType::Data, "abc"),
        Err(AddressError::OddLengthHex(3))
    ));
}

#[test]
fn malformed_addresses_are_refused_with_their_error() {
    assert!(matches!("mfas:v1:data".parse::<Address>(), Err(AddressError::MalformedUri(_))));
    assert!(matches!("mfas:v1:blob:00".parse::<Address>(), Err(AddressError::UnknownNodeType(_))));
    assert!(matches!(
        Address::from_binary(&[0, 1, 2, 3, 1, 1, 0]),
        Err(AddressError::InvalidBinaryMagic([0, 1, 2, 3]))
    ));
    assert!(matches!(
        Address::from_binary(&[0x4D, 0x46, 0x41, 0x53, 2, 1, 0]),
        Err(AddressError::UnsupportedBinaryVersion(2))
    ));
    assert!(matches!(
        Address::from_binary(&[0x4D, 0x46, 0x41, 0x53, 1, 9, 0]),
        Err(AddressError::UnknownBinaryTypeId(9))
    ));
    assert!(matches!(
        Address::from_binary(&[0x4D, 0x46, 0x41, 0x53, 1, 1, 5, 0]),
        Err(AddressError::MalformedBinaryPayload)
    ));
}

#[test]
fn page_errors_name_their_cause() {
    assert!(matches!(Page::new(vec![]), Err(PageError::EmptyPage)));
    assert!(matches!(Page::new(vec![0; 4097]), Err(PageError::PageSizeExceeded(4097))));
    let data = data_addr(b"x");
    assert!(matches!(Page::from_address(&data), Err(PageError::NotAPageAddress)));
    let short = Address::new(NodeType::Page, vec![0; 5]).unwrap();
    assert!(matches!(Page::from_address(&short), Err(PageError::InvalidPayloadLength(5))));
    let mut payload = vec![0u8; 8];
    payload.extend_from_slice(&[0, 3]);
    payload.extend_from_slice(&[1, 2]);
    let bad = Address::new(NodeType::Page, payload).unwrap();
    assert!(matches!(
        Page::from_address(&bad),
        Err(PageError::LogicalLengthMismatch { expected: 3, actual: 2 })
    ));
}

#[test]
fn truncated_node_payload_is_reported() {
    let a = Address::new(NodeType::Sequence, vec![0, 0]).unwrap();
    assert!(matches!(Node::from_address(&a), Err(NodeError::InvalidPayload(_))));
}

#[test]
fn coordinate_format_and_round_trip() {
    let c = RadixCoordinate::from_byte_offset(4_294_967_296 + 3 * 268_435_456 + 0xABC);
    assert_eq!(c.floor, 1);
    assert_eq!(c.room, 3);
    assert_eq!(c.offset_in_page, 0xABC);
    assert_eq!(
        c.format_coordinate(),
        "Floor[1].Room[3].Wall[0].Shelf[0].Volume[0].Page[0]+Offset[0xABC]"
    );
    assert_eq!(c.to_byte_offset(), 4_294_967_296 + 3 * 268_435_456 + 0xABC);
    let small = RadixCoordinate::from_byte_offset(5);
    assert_eq!(
        small.format_coordinate(),
        "Floor[0].Room[0].Wall[0].Shelf[0].Volume[0].Page[0]+Offset[0x005]"
    );
}

#[test]
fn decode_gives_back_what_encode_read() {
    let mut data = Vec::new();
    for i in 0..20_000u32 {
        data.push((i.wrapping_mul(2654435761) >> 13) as u8);
    }
    data.extend_from_slice(&vec![7u8; 3 * 4096]);
    let mut store = MemoryStore::new();
    let root = encode(&mut ByteCursor::new(data.clone()), &mut store).unwrap();
    assert_eq!(decode(&root, &store).unwrap(), data);
}

#[test]
fn verification_report_carries_the_sha256() {
    let mut store = MemoryStore::new();
    let report = verify_stream(&mut ByteCursor::new(b"abc".to_vec()), &mut store).unwrap();
    assert!(report.verified);
    assert_eq!(report.total_bytes, 3);
    assert_eq!(report.sha256, "ba7816bf8f01cfea414140de5dae2223b00361a396177a9cb410ff61f20015ad");

    let mut store2 = MemoryStore::new();
    let empty = verify_stream(&mut ByteCursor::new(Vec::new()), &mut store2).unwrap();
    assert_eq!(empty.sha256, "e3b0c44298fc1c149afbf4c8996fb92427ae41e4649b934ca495991b7852b855");
    assert_eq!(empty.root_address.to_uri(), "mfas:v1:data:");
}

#[test]
fn enumeration_is_a_bijection_on_samples() {
    assert_eq!(length_offset(0), Natural::zero());
    assert_eq!(length_offset(1), Natural::from_u64(1));
    assert_eq!(length_offset(2), Natural::from_u64(257));
    assert_eq!(length_offset(3), Natural::from_u64(65793));
    let long: Vec<u8> = (0..40u8).collect();
    let n = bytes_to_number(&long);
    assert_eq!(number_to_bytes(&n), long);
    let bigger = bytes_to_number(&[0u8; 41]);
    assert_ne!(n, bigger);
    let m = Natural::from_be_bytes(&[1, 0, 0, 0, 0, 0, 0, 0, 0, 0]);
    assert_eq!(bytes_to_number(&number_to_bytes(&m)), m);
    assert_eq!(Natural::from_u64(258).to_be_bytes(), vec![1, 2]);
}

#[test]
fn resolver_reports_missing_nodes_and_node_limit() {
    let store = MemoryStore::new();
    let bogus = Address::new(NodeType::Ref, vec![1]).unwrap();
    let err = resolve(&bogus, &store, &Limits::default()).unwrap_err();
    assert!(matches!(err, ResolveError::Address(_) | ResolveError::Node(_) | ResolveError::NodeNotFound(_)));

    let leaf = data_addr(b"ab");
    let seq = Node::Sequence(vec![leaf.clone(), leaf.clone(), leaf]).to_address().unwrap();
    let limits = Limits { max_depth: 10, max_output_bytes: 100, max_node_count: 2 };
    let err = resolve(&seq, &store, &limits).unwrap_err();
    assert!(matches!(err, ResolveError::MaxNodeCountExceeded { limit: 2 }));
}

#[test]
fn dag_counts_and_dot_lines() {
    let mut store = MemoryStore::new();
    let c = data_addr(b"C");
    let a = Node::Repeat { target: c.clone(), count: 2 };
    let a_addr = a.to_address().unwrap();
    store.put(&a_addr, a).unwrap();
    let root = Node::Sequence(vec![a_addr.clone(), c.clone()]).to_address().unwrap();
    let dag = build_dag(&root, &store).unwrap();
    let counts = dag.counts();
    assert_eq!(counts.total_nodes, 3);
    assert_eq!(counts.total_edges, 3);
    assert_eq!(counts.shared_nodes, 1);
    assert_eq!(counts.leaf_nodes, 1);
    assert_eq!(counts.max_depth, 3);
    let dot = dag.to_dot();
    assert!(dot.contains("    node_0 [label=\" [ROOT]\\nSequence\\n2 children\\n"));
    assert!(dot.contains("fillcolor=\"#F3E5F5\", color=\"#7B1FA2\", penwidth=3.0];\n"));
    assert!(dot.contains("    node_1 [label=\"Repeat\\nrepeat 2x\\n"));
    assert!(dot.contains("    node_2 [label=\"Data\\n1 bytes\\nmfas:v1:data:43\", fillcolor=\"#E1F5FE\", color=\"#0288D1\", penwidth=1.5];\n"));
    assert!(dot.contains("\n\n    node_0 -> node_1;\n    node_0 -> node_2;\n    node_1 -> node_2;\n}\n"));
}

#[test]
fn optimization_reductions_keep_the_content() {
    let limits = Limits::default();

    // zero repeat
    let mut store = MemoryStore::new();
    let x = data_addr(b"xyz");
    let zero = Address::new(NodeType::Rep, vec![0, 0, 0, 0, 0, 0, 0, 0]).unwrap();
    store.put(&zero, Node::Repeat { target: x.clone(), count: 0 }).unwrap();
    let report = optimize_dag(&zero, &mut store).unwrap();
    assert_eq!(report.optimized_root.to_uri(), "mfas:v1:data:");
    assert_eq!(report.transformations, vec!["Collapsed zero-repeat to empty Data node".to_string()]);

    // nested repeats
    let mut store = MemoryStore::new();
    let inner = Node::Repeat { target: x.clone(), count: 3 }.to_address().unwrap();
    let outer = Node::Repeat { target: inner, count: 2 }.to_address().unwrap();
    let before = resolve(&outer, &store, &limits).unwrap();
    let report = optimize_dag(&outer, &mut store).unwrap();
    assert!(report.transformations.contains(&"Merged nested repeats (2x * 3x = 6x)".to_string()));
    assert_eq!(resolve(&report.optimized_root, &store, &limits).unwrap(), before);
    assert_eq!(
        report.optimized_root,
        Node::Repeat { target: x.clone(), count: 6 }.to_address().unwrap()
    );

    // full-range slice and single repeat
    let mut store = MemoryStore::new();
    let slice = Node::Slice { target: x.clone(), offset: 0, length: 10 }.to_address().unwrap();
    let once = Node::Repeat { target: slice, count: 1 }.to_address().unwrap();
    let report = optimize_dag(&once, &mut store).unwrap();
    assert_eq!(report.optimized_root, x);
    assert_eq!(report.transformations.len(), 2);
    assert!(report.transformations[0].starts_with("Eliminated redundant full-range slice on mfas:v1:data:78797a"));
    assert!(report.transformations[1].starts_with("Collapsed 1x Repeat to target "));

    // reference chains
    let mut store = MemoryStore::new();
    let r1 = Node::Reference(x.clone()).to_address().unwrap();
    let r2 = Node::Reference(r1).to_address().unwrap();
    let report = optimize_dag(&r2, &mut store).unwrap();
    assert_eq!(report.transformations, vec![format!("Collapsed reference chain to {}", x.to_uri())]);
    assert_eq!(resolve(&report.optimized_root, &store, &limits).unwrap(), b"xyz");
    assert_eq!(report.nodes_before, 3);
    assert_eq!(report.nodes_after, 2);
}

#[test]
fn inspection_of_a_single_data_node() {
    let store = MemoryStore::new();
    let a = data_addr(b"hello");
    let report = inspect_address(&a, &store, 3).unwrap();
    assert_eq!(report.node_type, "data");
    assert_eq!(report.total_bytes, 5);
    assert_eq!(report.total_nodes, 1);
    assert_eq!(report.tree_ascii, "Data (5 bytes) (mfas:v1:data:68656c6c6f)");
}

#[test]
fn evaluators_agree_and_refuse_unknown_patterns() {
    let cpu = CpuEvaluator::new();
    let simd = SimdEvaluator::new();
    let gpu = GpuEvaluator::new();
    for p in ["zeros", "counter", "repeat", "random"] {
        let c = cpu.generate_bytes(p, 1000, 7).unwrap();
        assert_eq!(c.len(), 1000);
        assert_eq!(simd.generate_bytes(p, 1000, 7).unwrap(), c);
        assert_eq!(gpu.generate_bytes(p, 1000, 7).unwrap(), c);
    }
    let r0 = cpu.generate_bytes("random", 4, 0).unwrap();
    let r1 = cpu.generate_bytes("random", 4, 0xDEADBEEFCAFEBABE).unwrap();
    assert_eq!(r0, r1);
    assert!(matches!(cpu.generate_bytes("noise", 4, 0), Err(GpuError::UnsupportedPattern(p)) if p == "noise"));
    let reqs = vec![
        PageEvalRequest { page_index: 0, logical_len: 3, pattern: "zeros".to_string(), seed: 0 },
        PageEvalRequest { page_index: 1, logical_len: 3, pattern: "noise".to_string(), seed: 0 },
    ];
    assert!(matches!(cpu.batch_evaluate_pages(&reqs), Err(GpuError::UnsupportedPattern(p)) if p == "noise"));
    assert!(matches!(simd.batch_evaluate_pages(&reqs), Err(GpuError::UnsupportedPattern(_))));
    assert_eq!(gpu.name(), "Generic Vulkan / Metal Compute Adapter");
    assert!(gpu.is_available());
}

#[test]
fn hex_text_and_natural_readings() {
    assert_eq!(bytes_from_hex("  4d46 ").unwrap(), vec![0x4d, 0x46]);
    assert_eq!(bytes_from_hex("").unwrap(), Vec::<u8>::new());
    assert!(bytes_from_hex("abc").is_err());
    assert!(bytes_from_hex("zz").is_err());
    let n = parse_natural(" 0xFF ").unwrap();
    assert_eq!(n.to_decimal(), "255");
    assert_eq!(n.to_hex(), "ff");
    assert_eq!(parse_natural("1_000").unwrap().to_decimal(), "1000");
    assert_eq!(parse_natural("0").unwrap().to_hex(), "0");
    assert_eq!(parse_natural("0x").err(), Some("cannot parse integer from empty string".to_string()));
    assert_eq!(parse_natural("12a").err(), Some("invalid digit found in string".to_string()));
    assert_eq!(parse_natural("0xfg").err(), Some("invalid digit found in string".to_string()));
    assert_eq!(parse_natural("18446744073709551616").unwrap().to_hex(), "10000000000000000");
}

#[test]
fn binary_form_rejects_padded_lengths() {
    assert_eq!(
        Address::from_binary(&[0x4D, 0x46, 0x41, 0x53, 1, 1, 0x80, 0x00]),
        Err(AddressError::MalformedBinaryPayload)
    );
    assert_eq!(
        Address::from_binary(&[0x4D, 0x46, 0x41, 0x53, 1, 1, 0x81, 0x00, 7]),
        Err(AddressError::MalformedBinaryPayload)
    );
    let a = Address::from_binary(&[0x4D, 0x46, 0x41, 0x53, 1, 1, 0x00]).unwrap();
    assert_eq!(a.to_binary(), vec![0x4D, 0x46, 0x41, 0x53, 1, 1, 0x00]);
}

#[test]
fn unsigned_readings() {
    assert_eq!(parse_u64(" 42 "), Ok(42));
    assert_eq!(parse_u64("0x1F"), Ok(31));
    assert_eq!(parse_u64("0X10"), Ok(16));
    assert_eq!(parse_u64("+7"), Ok(7));
    assert_eq!(parse_u64("18446744073709551615"), Ok(u64::MAX));
    assert!(parse_u64("18446744073709551616").is_err());
    assert!(parse_u64("").is_err());
    assert!(parse_u64("0x").is_err());
    assert!(parse_u64("-1").is_err());
    assert!(parse_u64("12z").is_err());
}

#[test]
fn numbers_and_byte_strings_correspond_both_ways() {
    for text in ["0", "1", "255", "256", "257", "65791", "65792", "123456789012345678901234567890"] {
        let n = parse_natural(text).unwrap();
        let bytes = number_to_bytes(&n);
        assert_eq!(bytes_to_number(&bytes).to_decimal(), text);
    }
    assert_eq!(number_to_bytes(&parse_natural("256").unwrap()), vec![255u8]);
    assert_eq!(number_to_bytes(&parse_natural("257").unwrap()), vec![0u8, 0]);
    assert_eq!(bytes_to_hex(&[0x00, 0xab, 0x10]), "00ab10");
}

#[test]
fn optimizing_an_optimized_root_changes_nothing() {
    let a = Node::Data(b"A".to_vec()).to_address().unwrap();
    let r = Node::Repeat { target: a.clone(), count: 2 }.to_address().unwrap();
    let root = Node::Sequence(vec![r.clone(), r.clone()]).to_address().unwrap();
    let mut store = MemoryStore::new();
    let o1 = optimize_dag(&root, &mut store).unwrap().optimized_root;
    assert_eq!(o1, Node::Repeat { target: a.clone(), count: 4 }.to_address().unwrap());
    let o2 = optimize_dag(&o1, &mut store).unwrap().optimized_root;
    assert_eq!(o2, o1);
    assert_eq!(resolve(&o2, &store, &Limits::default()).unwrap(), b"AAAA");

    // a child repeat joins the equal children next to it
    let mixed = Node::Sequence(vec![a.clone(), a.clone(), r.clone()]).to_address().unwrap();
    assert_eq!(optimize_dag(&mixed, &mut store).unwrap().optimized_root, o1);

    // different addresses stay apart, and a second pass keeps the sequence
    let b = Node::Data(b"B".to_vec()).to_address().unwrap();
    let seq = Node::Sequence(vec![a.clone(), a.clone(), b.clone(), r.clone(), a.clone()]).to_address().unwrap();
    let p1 = optimize_dag(&seq, &mut store).unwrap().optimized_root;
    let expected = Node::Sequence(vec![
        r.clone(),
        b.clone(),
        Node::Repeat { target: a.clone(), count: 3 }.to_address().unwrap(),
    ])
    .to_address()
    .unwrap();
    assert_eq!(p1, expected);
    assert_eq!(optimize_dag(&p1, &mut store).unwrap().optimized_root, p1);
    assert_eq!(resolve(&p1, &store, &Limits::default()).unwrap(), b"AABAAA");
}

#[test]
fn hex_refusals_carry_the_hex_message() {
    assert_eq!(bytes_from_hex("abc").unwrap_err(), "Odd number of digits");
    assert_eq!(bytes_from_hex("0g").unwrap_err(), "Invalid character 'g' at position 1");
    assert_eq!(bytes_from_hex("zz").unwrap_err(), "Invalid character 'z' at position 0");
    assert_eq!(
        Address::from_hex(NodeType::Data, "4d4x").unwrap_err(),
        AddressError::InvalidHex("Invalid character 'x' at position 3".to_string())
    );
}

#[test]
fn leb128_length_in_the_binary_form() {
    let a = Address::new(NodeType::Data, vec![0u8; 300]).unwrap();
    let bin = a.to_binary();
    assert_eq!(&bin[6..8], &[0xAC, 0x02]);
    assert_eq!(bin.len(), 6 + 2 + 300);
    let small = Address::new(NodeType::Data, vec![1u8; 127]).unwrap().to_binary();
    assert_eq!(small[6], 127);
    assert_eq!(small.len(), 6 + 1 + 127);
}

#[test]
fn uri_reading_ignores_ascii_case() {
    let upper = Address::parse_uri("MFAS:V1:DATA:48656C6C6F").unwrap();
    let lower = Address::parse_uri("mfas:v1:data:48656c6c6f").unwrap();
    assert_eq!(upper, lower);
    assert_eq!(upper.to_uri(), "mfas:v1:data:48656c6c6f");
}
