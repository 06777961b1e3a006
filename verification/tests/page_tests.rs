use mfas_core::address::NodeType;
use mfas_core::page::{split_into_pages, Page, RadixCoordinate};

#[test]
fn test_radix_coordinates_roundtrip() {
    let offsets: Vec<u64> = vec![
        0,
        1,
        15,
        16,
        255,
        256,
        4095,
        4096,
        4097,
        65535,
        65536,
        1_048_575,
        1_048_576,
        16_777_215,
        16_777_216,
        268_435_455,
        268_435_456,
        4_294_967_295,
        4_294_967_296,
        10_000_000_000,
    ];

    for offset in offsets {
        let coord = RadixCoordinate::from_byte_offset(offset);
        let restored = coord.to_byte_offset();
        assert_eq!(restored, offset, "Failed for offset {}", offset);
    }
}

#[test]
fn test_radix_hierarchy_steps() {
    let c0 = RadixCoordinate::from_byte_offset(0);
    assert_eq!(c0.floor, 0);
    assert_eq!(c0.room, 0);
    assert_eq!(c0.wall, 0);
    assert_eq!(c0.shelf, 0);
    assert_eq!(c0.volume, 0);
    assert_eq!(c0.page, 0);
    assert_eq!(c0.offset_in_page, 0);

    let c_page = RadixCoordinate::from_byte_offset(4096);
    assert_eq!(c_page.volume, 0);
    assert_eq!(c_page.page, 1);
    assert_eq!(c_page.offset_in_page, 0);

    let c_vol = RadixCoordinate::from_byte_offset(65536);
    assert_eq!(c_vol.volume, 1);
    assert_eq!(c_vol.page, 0);

    let c_shelf = RadixCoordinate::from_byte_offset(1_048_576);
    assert_eq!(c_shelf.shelf, 1);
    assert_eq!(c_shelf.volume, 0);

    let c_wall = RadixCoordinate::from_byte_offset(16_777_216);
    assert_eq!(c_wall.wall, 1);

    let c_room = RadixCoordinate::from_byte_offset(268_435_456);
    assert_eq!(c_room.room, 1);

    let c_floor = RadixCoordinate::from_byte_offset(4_294_967_296);
    assert_eq!(c_floor.floor, 1);
    assert_eq!(c_floor.room, 0);
}

#[test]
fn test_split_into_pages_exact_and_partial() {
    let data_exact = vec![0x42; 4096];
    let pages = split_into_pages(&data_exact);
    assert_eq!(pages.len(), 1);
    assert_eq!(pages[0].logical_len(), 4096);
    assert!(pages[0].is_full());

    let data_extra = vec![0x42; 4097];
    let pages2 = split_into_pages(&data_extra);
    assert_eq!(pages2.len(), 2);
    assert_eq!(pages2[0].logical_len(), 4096);
    assert!(pages2[0].is_full());
    assert_eq!(pages2[1].logical_len(), 1);
    assert!(!pages2[1].is_full());
}

#[test]
fn test_page_address_roundtrip() {
    let page_data = vec![1, 2, 3, 4, 5];
    let page = Page::new(page_data.clone()).unwrap();
    let addr = page.to_address(42);

    assert_eq!(addr.node_type(), NodeType::Page);
    let (index, restored_page) = Page::from_address(&addr).unwrap();
    assert_eq!(index, 42);
    assert_eq!(restored_page.data(), page_data.as_slice());
    assert_eq!(restored_page.logical_len(), 5);
}
