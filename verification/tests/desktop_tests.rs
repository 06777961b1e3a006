use mfas_core::address::{Address, NodeType};
use mfas_core::desktop::{
    address_to_number, format_address, get_gpu_info, get_radix_coordinates, inspect_page_data, number_to_address,
    parse_address, parse_address_str, run_evaluator_workload, CommandError,
};
use mfas_core::error::{AddressError, PageError};
use mfas_core::page::Page;

#[test]
fn test_desktop_address_commands() {
    // Parse URI
    let res = parse_address("mfas:v1:data:48656c6c6f".to_string()).expect("Should parse");
    assert_eq!(res.version, 1);
    assert_eq!(res.node_type_name, "Data");
    assert_eq!(res.payload_len, 5);
    assert!(res.is_valid);

    // Parse compact hex
    let res_hex = parse_address("010148656c6c6f".to_string()).expect("Should parse hex");
    assert_eq!(res_hex.node_type_name, "Data");
    assert_eq!(res_hex.payload_len, 5);

    // Format
    let formatted = format_address(1, "48656c6c6f".to_string()).expect("Should format");
    assert_eq!(formatted, "mfas:v1:data:48656c6c6f");

    // Bijection number roundtrip
    let num_str = "1751477356".to_string();
    let addr = number_to_address(num_str.clone()).expect("Should convert to address");
    let restored_num = address_to_number(addr).expect("Should convert back to number");
    assert_eq!(restored_num, num_str);
}

#[test]
fn test_desktop_page_commands() {
    // Byte offset test
    let res1 = get_radix_coordinates(65536, false).expect("Should compute");
    assert_eq!(res1.page_index, 16);
    assert_eq!(res1.volume, 1);
    assert_eq!(res1.page, 0);

    // Page index test
    let res2 = get_radix_coordinates(16, true).expect("Should compute");
    assert_eq!(res2.byte_offset, 65536);
    assert_eq!(res2.volume, 1);
}

#[test]
fn desktop_details_of_a_uri() {
    let d = parse_address("  mfas:v1:data:48656c6c6f ".to_string()).unwrap();
    assert_eq!(d.raw, "  mfas:v1:data:48656c6c6f ");
    assert_eq!(d.canonical_uri, "mfas:v1:data:48656c6c6f");
    assert_eq!(d.canonical_hex, "4d46415301010548656c6c6f");
    assert_eq!(d.leb128_hex, "4d 46 41 53 01 01 05 48 65 6c 6c 6f");
    assert_eq!(d.payload_hex, "48656c6c6f");
    assert_eq!(d.node_type, 1);
}

#[test]
fn desktop_type_titles() {
    let r = parse_address("mfas:v1:ref:00".to_string()).unwrap();
    assert_eq!(r.node_type_name, "Reference");
    assert_eq!(r.node_type, 2);
    let s = parse_address("mfas:v1:seq:00".to_string()).unwrap();
    assert_eq!(s.node_type_name, "Sequence");
    let p = parse_address("mfas:v1:rep:00".to_string()).unwrap();
    assert_eq!(p.node_type_name, "Repeat");
}

#[test]
fn desktop_reads_binary_hex_and_prefixes() {
    let a = parse_address_str("0x4d46415301010548656c6c6f").unwrap();
    assert_eq!(a.to_uri(), "mfas:v1:data:48656c6c6f");
    let b = parse_address_str("0x0x010348").unwrap();
    assert_eq!(b.to_uri(), "mfas:v1:seq:48");
    let empty_data = parse_address_str("0101").unwrap();
    assert_eq!(empty_data.to_uri(), "mfas:v1:data:");
}

#[test]
fn desktop_lenient_read_falls_back_to_the_uri_error() {
    // compact form of a non-data node without payload
    assert_eq!(parse_address_str("0102"), Err(AddressError::MalformedUri("0102".to_string())));
    assert_eq!(
        parse_address_str("mfas:v2:data:00"),
        Err(AddressError::InvalidVersion("v2".to_string()))
    );
    assert!(matches!(parse_address("zz".to_string()).err(), Some(AddressError::MalformedUri(_))));
}

#[test]
fn desktop_format_address_errors() {
    match format_address(1, "4g".to_string()) {
        Err(CommandError::Message(m)) => assert!(m.starts_with("Invalid hex payload: ")),
        other => panic!("unexpected {:?}", other),
    }
    assert_eq!(
        format_address(9, "00".to_string()),
        Err(CommandError::Address(AddressError::UnknownBinaryTypeId(9)))
    );
    assert_eq!(format_address(2, " 0x ".to_string()), Err(CommandError::Address(AddressError::EmptyPayload)));
    assert_eq!(format_address(4, "0x0A0b".to_string()), Ok("mfas:v1:rep:0a0b".to_string()));
}

#[test]
fn desktop_number_conversions() {
    assert_eq!(number_to_address("0".to_string()), Ok("mfas:v1:data:".to_string()));
    assert_eq!(number_to_address("1".to_string()), Ok("mfas:v1:data:00".to_string()));
    assert_eq!(number_to_address("256".to_string()), Ok("mfas:v1:data:ff".to_string()));
    assert_eq!(number_to_address("257".to_string()), Ok("mfas:v1:data:0000".to_string()));
    assert_eq!(number_to_address(" +1_000 ".to_string()), number_to_address("1000".to_string()));
    assert_eq!(
        number_to_address("".to_string()),
        Err(CommandError::Message("Invalid number: cannot parse integer from empty string".to_string()))
    );
    assert_eq!(
        number_to_address("12a".to_string()),
        Err(CommandError::Message("Invalid number: invalid digit found in string".to_string()))
    );
    assert_eq!(
        number_to_address("_1".to_string()),
        Err(CommandError::Message("Invalid number: invalid digit found in string".to_string()))
    );
    assert_eq!(address_to_number("mfas:v1:data:0000".to_string()), Ok("257".to_string()));
    assert_eq!(address_to_number("mfas:v1:data:".to_string()), Ok("0".to_string()));
    assert_eq!(
        address_to_number("mfas:v1".to_string()),
        Err(CommandError::Address(AddressError::MalformedUri("mfas:v1".to_string())))
    );
}

#[test]
fn desktop_radix_coordinates_saturate() {
    let c = get_radix_coordinates(u64::MAX, true).unwrap();
    assert_eq!(c.byte_offset, u64::MAX);
    assert_eq!(c.page_index, u64::MAX / 4096);
    assert_eq!(c.offset_in_page, 4095);
    let d = get_radix_coordinates(4097, false).unwrap();
    assert_eq!(d.page_index, 1);
    assert_eq!(d.offset_in_page, 1);
    assert_eq!(d.formatted, "Floor[0].Room[0].Wall[0].Shelf[0].Volume[0].Page[1]+Offset[0x001]");
}

#[test]
fn desktop_page_preview() {
    let page = Page::new(b"Hi\n\x7f!".to_vec()).unwrap();
    let addr = page.to_address(7);
    let uri = addr.to_uri();
    let d = inspect_page_data(uri.clone()).unwrap();
    assert_eq!(d.page_index, 7);
    assert_eq!(d.logical_len, 5);
    assert!(!d.is_full);
    assert_eq!(d.hex_preview, "48690a7f21");
    assert_eq!(d.ascii_preview, "Hi..!");
    assert_eq!(d.total_size, 4096);
    assert_eq!(d.address_hex, uri);

    let full = Page::new(vec![65u8; 4096]).unwrap();
    let f = inspect_page_data(full.to_address(0).to_uri()).unwrap();
    assert!(f.is_full);
    assert_eq!(f.ascii_preview.len(), 128);
    assert_eq!(f.hex_preview.len(), 256);
}

#[test]
fn desktop_page_preview_errors() {
    let data = Address::new(NodeType::Data, vec![1]).unwrap();
    assert_eq!(inspect_page_data(data.to_uri()).err(), Some(CommandError::Page(PageError::NotAPageAddress)));
    assert_eq!(
        inspect_page_data("mfas:v1:page:00".to_string()).err(),
        Some(CommandError::Page(PageError::InvalidPayloadLength(1)))
    );
}

#[test]
fn desktop_gpu_overview() {
    let info = get_gpu_info().unwrap();
    assert!(info.has_gpu);
    assert!(!info.fallback_mode);
    assert!(info.cpu_evaluator_ready);
    assert!(info.simd_evaluator_ready);
    assert_eq!(info.adapter_name, "Generic Vulkan / Metal Compute Adapter");
    assert_eq!(info.backend, "Vulkan");
    assert_eq!(info.max_buffer_mb, 1024);
}

#[test]
fn test_desktop_gpu_commands() {
    let info = get_gpu_info().expect("Should get GPU info");
    assert!(info.cpu_evaluator_ready);
    assert!(info.simd_evaluator_ready);

    // the bytes each benchmark evaluates; its timing is measured around this call
    let bench_cpu = run_evaluator_workload("cpu", 1024 * 1024).expect("CPU bench");
    assert_eq!(bench_cpu, 1024 * 1024);

    let bench_simd = run_evaluator_workload("simd", 1024 * 1024).expect("SIMD bench");
    assert_eq!(bench_simd, 1024 * 1024);
}

#[test]
fn evaluator_workload_sizes() {
    assert_eq!(run_evaluator_workload("GPU", 10).unwrap(), 10);
    assert_eq!(run_evaluator_workload("Simd", 0).unwrap(), 16 * 1024 * 1024);
}
