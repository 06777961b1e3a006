//! Logical pages of at most 4096 bytes and the radix-16 coordinates of byte offsets

use vstd::prelude::*;
use crate::address::{Address, AddressView, NodeType};
use crate::error::PageError;
use crate::ext::{sha256_digest, sha256_of};
use crate::util::{append_bytes, be_bytes, be_value, copy_bytes, push_be, read_be, lemma_be_roundtrip, lemma_be_bytes_len, pow256};
use crate::text::{decimal, hex_upper, zero_pad, push_decimal, push_hex_upper, push_chars, string_push, reads_decimal, reads_hex,
    lemma_decimal_reads_back, lemma_hex_upper_reads_back, lemma_zero_pad_reads_back};

verus! {

broadcast use vstd::std_specs::vec::group_vec_axioms;

/// Canonical logical page size in bytes (16^3)
pub const PAGE_SIZE: usize = 4096;

/// Bytes per page (16^3)
pub const BYTES_PER_PAGE: u64 = 4096;

/// Bytes per volume: 16 pages (16^4)
pub const BYTES_PER_VOLUME: u64 = 65_536;

/// Bytes per shelf: 1 MiB (16^5)
pub const BYTES_PER_SHELF: u64 = 1_048_576;

/// Bytes per wall: 16 MiB (16^6)
pub const BYTES_PER_WALL: u64 = 16_777_216;

/// Bytes per room: 256 MiB (16^7)
pub const BYTES_PER_ROOM: u64 = 268_435_456;

/// Bytes per floor: 4 GiB (16^8)
pub const BYTES_PER_FLOOR: u64 = 4_294_967_296;

/// Radix-16 spatial hierarchy coordinates of a byte offset
#[derive(Debug, Clone, Copy, PartialEq, Eq)]
pub struct RadixCoordinate {
    pub floor: u64,
    pub room: u8,
    pub wall: u8,
    pub shelf: u8,
    pub volume: u8,
    pub page: u8,
    pub offset_in_page: u16,
}

/// The absolute byte offset a coordinate stands for
pub open spec fn spec_offset(c: RadixCoordinate) -> nat {
    c.floor as nat * 4_294_967_296 + c.room as nat * 268_435_456 + c.wall as nat * 16_777_216 + c.shelf as nat
        * 1_048_576 + c.volume as nat * 65_536 + c.page as nat * 4096 + c.offset_in_page as nat
}

/// The coordinate of byte offset `x`: the base-16 digits of `x / 4096` from the
/// lowest (page) to the sixth (room), everything above that as the floor, and
/// `x % 4096` within the page
pub open spec fn spec_coordinate(x: u64) -> RadixCoordinate {
    RadixCoordinate {
        floor: x / 4_294_967_296,
        room: ((x / 268_435_456) % 16) as u8,
        wall: ((x / 16_777_216) % 16) as u8,
        shelf: ((x / 1_048_576) % 16) as u8,
        volume: ((x / 65_536) % 16) as u8,
        page: ((x / 4096) % 16) as u8,
        offset_in_page: (x % 4096) as u16,
    }
}

/// Every digit of the coordinate is a base-16 digit and the offset is within a page
pub open spec fn coordinate_in_range(c: RadixCoordinate) -> bool {
    c.room < 16 && c.wall < 16 && c.shelf < 16 && c.volume < 16 && c.page < 16 && c.offset_in_page < 4096
}

impl RadixCoordinate {
    /// Compute the exact radix-16 spatial coordinate for any byte offset
    pub fn from_byte_offset(offset: u64) -> (r: RadixCoordinate)
        ensures
            r == spec_coordinate(offset),
    {
        let offset_in_page = (offset & 0x0FFF) as u16;
        let page_index = offset >> 12;
        let page = (page_index & 0x0F) as u8;
        let volume = ((page_index >> 4) & 0x0F) as u8;
        let shelf = ((page_index >> 8) & 0x0F) as u8;
        let wall = ((page_index >> 12) & 0x0F) as u8;
        let room = ((page_index >> 16) & 0x0F) as u8;
        let floor = page_index >> 20;
        proof {
            lemma_coordinate_bits(offset);
        }
        RadixCoordinate { floor, room, wall, shelf, volume, page, offset_in_page }
    }

    /// Convert the coordinate back into its exact absolute byte offset
    pub fn to_byte_offset(&self) -> (r: u64)
        requires
            spec_offset(*self) <= u64::MAX,
        ensures
            r == spec_offset(*self),
    {
        let f = self.floor as u128 * 4_294_967_296;
        let total = f + self.room as u128 * 268_435_456 + self.wall as u128 * 16_777_216 + self.shelf as u128
            * 1_048_576 + self.volume as u128 * 65_536 + self.page as u128 * 4096 + self.offset_in_page as u128;
        total as u64
    }
}

proof fn lemma_coordinate_bits(x: u64)
    ensures
        (x & 0x0FFF) as u16 == (x % 4096) as u16,
        ((x >> 12) & 0x0F) as u8 == ((x / 4096) % 16) as u8,
        (((x >> 12) >> 4) & 0x0F) as u8 == ((x / 65_536) % 16) as u8,
        (((x >> 12) >> 8) & 0x0F) as u8 == ((x / 1_048_576) % 16) as u8,
        (((x >> 12) >> 12) & 0x0F) as u8 == ((x / 16_777_216) % 16) as u8,
        (((x >> 12) >> 16) & 0x0F) as u8 == ((x / 268_435_456) % 16) as u8,
        ((x >> 12) >> 20) == x / 4_294_967_296,
{
    assert((x & 0x0FFF) as u16 == (x % 4096) as u16) by (bit_vector);
    assert(((x >> 12) & 0x0F) as u8 == ((x / 4096) % 16) as u8) by (bit_vector);
    assert((((x >> 12) >> 4) & 0x0F) as u8 == ((x / 65_536) % 16) as u8) by (bit_vector);
    assert((((x >> 12) >> 8) & 0x0F) as u8 == ((x / 1_048_576) % 16) as u8) by (bit_vector);
    assert((((x >> 12) >> 12) & 0x0F) as u8 == ((x / 16_777_216) % 16) as u8) by (bit_vector);
    assert((((x >> 12) >> 16) & 0x0F) as u8 == ((x / 268_435_456) % 16) as u8) by (bit_vector);
    assert(((x >> 12) >> 20) == x / 4_294_967_296) by (bit_vector);
}

/// Coordinate round trip: every byte offset is recovered from its coordinate
pub proof fn lemma_coordinate_roundtrip(x: u64)
    ensures
        coordinate_in_range(spec_coordinate(x)),
        spec_offset(spec_coordinate(x)) == x,
{
    assert((x / 4_294_967_296) * 4_294_967_296 + ((x / 268_435_456) % 16) * 268_435_456 + ((x / 16_777_216) % 16)
        * 16_777_216 + ((x / 1_048_576) % 16) * 1_048_576 + ((x / 65_536) % 16) * 65_536 + ((x / 4096) % 16) * 4096
        + x % 4096 == x) by (bit_vector);
}

/// Coordinates within range are exactly those of their offsets
pub proof fn lemma_offset_roundtrip(c: RadixCoordinate)
    requires
        coordinate_in_range(c),
        spec_offset(c) <= u64::MAX,
    ensures
        spec_coordinate(spec_offset(c) as u64) == c,
{
    let x = spec_offset(c) as u64;
    assert(x / 4_294_967_296 == c.floor && (x / 268_435_456) % 16 == c.room as int && (x / 16_777_216) % 16 == c.wall as int
        && (x / 1_048_576) % 16 == c.shelf as int && (x / 65_536) % 16 == c.volume as int && (x / 4096) % 16 == c.page as int
        && x % 4096 == c.offset_in_page as int) by (nonlinear_arith)
        requires
            x == c.floor as int * 4_294_967_296 + c.room as int * 268_435_456 + c.wall as int * 16_777_216 + c.shelf as int
                * 1_048_576 + c.volume as int * 65_536 + c.page as int * 4096 + c.offset_in_page as int,
            c.room < 16, c.wall < 16, c.shelf < 16, c.volume < 16, c.page < 16, c.offset_in_page < 4096,
    ;
}

/// Canonical hierarchical coordinate notation:
/// `Floor[f].Room[r].Wall[w].Shelf[s].Volume[v].Page[p]+Offset[0x...]`, the floor in
/// decimal, the other digits in upper-case hexadecimal, the offset padded to three digits
pub open spec fn spec_format_coordinate(c: RadixCoordinate) -> Seq<char> {
    seq!['F', 'l', 'o', 'o', 'r', '['] + decimal(c.floor as nat) + seq![']', '.', 'R', 'o', 'o', 'm', '[']
        + hex_upper(c.room as nat) + seq![']', '.', 'W', 'a', 'l', 'l', '['] + hex_upper(c.wall as nat)
        + seq![']', '.', 'S', 'h', 'e', 'l', 'f', '['] + hex_upper(c.shelf as nat) + seq![
        ']',
        '.',
        'V',
        'o',
        'l',
        'u',
        'm',
        'e',
        '[',
    ] + hex_upper(c.volume as nat) + seq![']', '.', 'P', 'a', 'g', 'e', '['] + hex_upper(c.page as nat) + seq![
        ']',
        '+',
        'O',
        'f',
        'f',
        's',
        'e',
        't',
        '[',
        '0',
        'x',
    ] + zero_pad(hex_upper(c.offset_in_page as nat), 3) + seq![']']
}

impl RadixCoordinate {
    /// Format as canonical hierarchical coordinate notation
    pub fn format_coordinate(&self) -> (r: String)
        ensures
            r@ == spec_format_coordinate(*self),
    {
        let mut out = String::new();
        push_chars(&mut out, &['F', 'l', 'o', 'o', 'r', '[']);
        push_decimal(&mut out, self.floor);
        push_chars(&mut out, &[']', '.', 'R', 'o', 'o', 'm', '[']);
        push_hex_upper(&mut out, self.room as u64, 0);
        push_chars(&mut out, &[']', '.', 'W', 'a', 'l', 'l', '[']);
        push_hex_upper(&mut out, self.wall as u64, 0);
        push_chars(&mut out, &[']', '.', 'S', 'h', 'e', 'l', 'f', '[']);
        push_hex_upper(&mut out, self.shelf as u64, 0);
        push_chars(&mut out, &[']', '.', 'V', 'o', 'l', 'u', 'm', 'e', '[']);
        push_hex_upper(&mut out, self.volume as u64, 0);
        push_chars(&mut out, &[']', '.', 'P', 'a', 'g', 'e', '[']);
        push_hex_upper(&mut out, self.page as u64, 0);
        push_chars(&mut out, &[']', '+', 'O', 'f', 'f', 's', 'e', 't', '[', '0', 'x']);
        push_hex_upper(&mut out, self.offset_in_page as u64, 3);
        string_push(&mut out, ']');
        proof {
            lemma_pad_zero(hex_upper(self.room as nat));
            lemma_pad_zero(hex_upper(self.wall as nat));
            lemma_pad_zero(hex_upper(self.shelf as nat));
            lemma_pad_zero(hex_upper(self.volume as nat));
            lemma_pad_zero(hex_upper(self.page as nat));
        }
        assert(out@ =~= spec_format_coordinate(*self));
        out
    }
}

/// A formatted coordinate reads back field by field: after `Floor[` the
/// floor in decimal, after `].Room[`, `].Wall[`, `].Shelf[`, `].Volume[` and
/// `].Page[` that digit of the coordinate in hexadecimal, and after
/// `]+Offset[0x` the offset within the page in hexadecimal, then `]`
pub proof fn lemma_format_coordinate_reads_back(c: RadixCoordinate) -> (f: Seq<Seq<char>>)
    ensures
        f.len() == 7,
        spec_format_coordinate(c) == seq!['F', 'l', 'o', 'o', 'r', '['] + f[0] + seq![']', '.', 'R', 'o', 'o', 'm', '[']
            + f[1] + seq![']', '.', 'W', 'a', 'l', 'l', '['] + f[2] + seq![']', '.', 'S', 'h', 'e', 'l', 'f', '['] + f[3]
            + seq![']', '.', 'V', 'o', 'l', 'u', 'm', 'e', '['] + f[4] + seq![']', '.', 'P', 'a', 'g', 'e', '['] + f[5]
            + seq![']', '+', 'O', 'f', 'f', 's', 'e', 't', '[', '0', 'x'] + f[6] + seq![']'],
        reads_decimal(f[0], c.floor as nat),
        reads_hex(f[1], c.room as nat),
        reads_hex(f[2], c.wall as nat),
        reads_hex(f[3], c.shelf as nat),
        reads_hex(f[4], c.volume as nat),
        reads_hex(f[5], c.page as nat),
        reads_hex(f[6], c.offset_in_page as nat),
{
    lemma_decimal_reads_back(c.floor as nat);
    lemma_hex_upper_reads_back(c.room as nat);
    lemma_hex_upper_reads_back(c.wall as nat);
    lemma_hex_upper_reads_back(c.shelf as nat);
    lemma_hex_upper_reads_back(c.volume as nat);
    lemma_hex_upper_reads_back(c.page as nat);
    lemma_hex_upper_reads_back(c.offset_in_page as nat);
    lemma_zero_pad_reads_back(hex_upper(c.offset_in_page as nat), c.offset_in_page as nat, 3);
    seq![
        decimal(c.floor as nat),
        hex_upper(c.room as nat),
        hex_upper(c.wall as nat),
        hex_upper(c.shelf as nat),
        hex_upper(c.volume as nat),
        hex_upper(c.page as nat),
        zero_pad(hex_upper(c.offset_in_page as nat), 3),
    ]
}

proof fn lemma_pad_zero(s: Seq<char>)
    ensures
        zero_pad(s, 0) == s,
{
}

/// Mathematical model of a page: its bytes
pub open spec fn page_wf(data: Seq<u8>) -> bool {
    1 <= data.len() <= 4096
}

/// Logical page containing between 1 and 4096 bytes
#[derive(Debug, PartialEq, Eq)]
pub struct Page {
    data: Vec<u8>,
}

impl View for Page {
    type V = Seq<u8>;

    closed spec fn view(&self) -> Seq<u8> {
        self.data@
    }
}

impl Page {
    /// Every page holds between 1 and 4096 bytes
    #[verifier::type_invariant]
    pub open spec fn inv(&self) -> bool {
        page_wf(self@)
    }
}

impl Clone for Page {
    fn clone(&self) -> (r: Self)
        ensures
            r@ == self@,
    {
        proof {
            use_type_invariant(self);
        }
        Page { data: copy_bytes(self.data.as_slice()) }
    }
}

/// The payload of a page address: page index (8 bytes, big-endian), logical
/// length (2 bytes, big-endian), then the content bytes
pub open spec fn page_payload(index: u64, data: Seq<u8>) -> Seq<u8> {
    be_bytes(index as nat, 8) + be_bytes(data.len(), 2) + data
}

/// The payload of a content-addressed page: index, logical length, then the SHA-256 digest of the content
pub open spec fn page_hash_payload(index: u64, data: Seq<u8>) -> Seq<u8> {
    be_bytes(index as nat, 8) + be_bytes(data.len(), 2) + sha256_of(data)@
}

impl Page {
    /// Create a new logical page from bytes (1 to 4096 of them)
    pub fn new(data: Vec<u8>) -> (r: Result<Page, PageError>)
        ensures
            data@.len() == 0 ==> r == Err::<Page, PageError>(PageError::EmptyPage),
            data@.len() > 4096 ==> r == Err::<Page, PageError>(PageError::PageSizeExceeded(data@.len() as usize)),
            page_wf(data@) ==> (r matches Ok(p) && p@ == data@),
    {
        if data.len() == 0 {
            return Err(PageError::EmptyPage);
        }
        if data.len() > PAGE_SIZE {
            return Err(PageError::PageSizeExceeded(data.len()));
        }
        Ok(Page { data })
    }

    /// Logical length in bytes
    pub fn logical_len(&self) -> (r: usize)
        ensures
            r == self@.len(),
            page_wf(self@),
    {
        proof {
            use_type_invariant(self);
        }
        self.data.len()
    }

    /// Length in bytes (the logical length)
    pub fn len(&self) -> (r: usize)
        ensures
            r == self@.len(),
            page_wf(self@),
    {
        proof {
            use_type_invariant(self);
        }
        self.data.len()
    }

    /// Returns true if this page is a full 4096-byte page
    pub fn is_full(&self) -> (r: bool)
        ensures
            r == (self@.len() == 4096),
    {
        self.data.len() == PAGE_SIZE
    }

    /// Reference to underlying page bytes
    pub fn data(&self) -> (r: &[u8])
        ensures
            r@ == self@,
            page_wf(self@),
    {
        proof {
            use_type_invariant(self);
        }
        self.data.as_slice()
    }

    /// Canonical address for this page at position `page_index`:
    /// payload `[page_index: u64 BE][logical_len: u16 BE][content]`
    pub fn to_address(&self, page_index: u64) -> (r: Address)
        ensures
            r@ == (AddressView { version: 1, node_type: NodeType::Page, payload: page_payload(page_index, self@) }),
            r@.wf(),
    {
        proof {
            use_type_invariant(self);
        }
        let mut payload: Vec<u8> = Vec::new();
        push_be(&mut payload, page_index, 8);
        push_be(&mut payload, self.data.len() as u64, 2);
        append_bytes(&mut payload, self.data.as_slice());
        proof {
            lemma_be_bytes_len(page_index as nat, 8);
            lemma_be_bytes_len(self@.len(), 2);
        }
        assert(payload@ =~= page_payload(page_index, self@));
        Address::build(NodeType::Page, payload)
    }

    /// Content-addressed page address: `[page_index: u64 BE][logical_len: u16 BE][SHA-256 of content]`
    pub fn to_hash_address(&self, page_index: u64) -> (r: Address)
        ensures
            r@ == (AddressView { version: 1, node_type: NodeType::Page, payload: page_hash_payload(page_index, self@) }),
            r@.wf(),
    {
        proof {
            use_type_invariant(self);
        }
        let mut payload: Vec<u8> = Vec::new();
        push_be(&mut payload, page_index, 8);
        push_be(&mut payload, self.data.len() as u64, 2);
        let digest = sha256_digest(self.data.as_slice());
        append_bytes(&mut payload, digest.as_slice());
        proof {
            lemma_be_bytes_len(page_index as nat, 8);
            lemma_be_bytes_len(self@.len(), 2);
        }
        assert(payload@ =~= page_hash_payload(page_index, self@));
        Address::build(NodeType::Page, payload)
    }
}

impl Page {
    /// Decode a page and its page index from a canonical page address
    pub fn from_address(addr: &Address) -> (r: Result<(u64, Page), PageError>)
        ensures
            addr@.node_type != NodeType::Page ==> r == Err::<(u64, Page), PageError>(PageError::NotAPageAddress),
            addr@.node_type == NodeType::Page && addr@.payload.len() < 10 ==> r == Err::<(u64, Page), PageError>(
                PageError::InvalidPayloadLength(addr@.payload.len() as usize),
            ),
            addr@.node_type == NodeType::Page && addr@.payload.len() >= 10 ==> ({
                let p = addr@.payload;
                let index = be_value(p.subrange(0, 8));
                let expected = be_value(p.subrange(8, 10));
                let content = p.subrange(10, p.len() as int);
                if content.len() != expected {
                    r == Err::<(u64, Page), PageError>(
                        PageError::LogicalLengthMismatch { expected: expected as usize, actual: content.len() as usize },
                    )
                } else if content.len() == 0 {
                    r == Err::<(u64, Page), PageError>(PageError::EmptyPage)
                } else if content.len() > 4096 {
                    r == Err::<(u64, Page), PageError>(PageError::PageSizeExceeded(content.len() as usize))
                } else {
                    r matches Ok((i, page)) && i == index && page@ == content
                }
            }),
            r matches Ok((i, page)) ==> page_wf(page@),
            page_result_is(r, page_verdict(addr@)),
    {
        if !matches!(addr.node_type(), NodeType::Page) {
            return Err(PageError::NotAPageAddress);
        }
        let payload = addr.payload();
        if payload.len() < 10 {
            return Err(PageError::InvalidPayloadLength(payload.len()));
        }
        proof {
            crate::util::lemma_be_value_bound(payload@.subrange(8, 10));
            reveal_with_fuel(pow256, 3);
        }
        let page_index = read_be(&payload[0..8]);
        let expected_len = read_be(&payload[8..10]) as usize;
        let content = copy_bytes(&payload[10..payload.len()]);
        if content.len() != expected_len {
            return Err(PageError::LogicalLengthMismatch { expected: expected_len, actual: content.len() });
        }
        match Page::new(content) {
            Ok(page) => Ok((page_index, page)),
            Err(e) => Err(e),
        }
    }
}

/// Page round trip: a page's address gives back its index and its bytes
pub proof fn lemma_page_address_roundtrip(index: u64, data: Seq<u8>)
    requires
        page_wf(data),
    ensures
        ({
            let p = page_payload(index, data);
            &&& p.len() >= 10
            &&& be_value(p.subrange(0, 8)) == index
            &&& be_value(p.subrange(8, 10)) == data.len()
            &&& p.subrange(10, p.len() as int) == data
        }),
{
    let p = page_payload(index, data);
    lemma_be_bytes_len(index as nat, 8);
    lemma_be_bytes_len(data.len(), 2);
    assert(p.subrange(0, 8) =~= be_bytes(index as nat, 8));
    assert(p.subrange(8, 10) =~= be_bytes(data.len(), 2));
    assert(p.subrange(10, p.len() as int) =~= data);
    reveal_with_fuel(pow256, 9);
    lemma_be_roundtrip(index as nat, 8);
    lemma_be_roundtrip(data.len(), 2);
}

/// The bytes of the `i`-th page when `bytes` is cut into 4096-byte pages
pub open spec fn page_chunk(bytes: Seq<u8>, i: int) -> Seq<u8> {
    let end = if (i + 1) * 4096 < bytes.len() {
        (i + 1) * 4096
    } else {
        bytes.len() as int
    };
    bytes.subrange(i * 4096, end)
}

/// The number of pages `bytes` is cut into: `ceil(len / 4096)`
pub open spec fn page_count(len: nat) -> nat {
    (len + 4095) / 4096
}

/// Split an arbitrary byte stream into consecutive logical pages,
/// preserving the partial final page length if not aligned to 4096
pub fn split_into_pages(bytes: &[u8]) -> (r: Vec<Page>)
    ensures
        r@.len() == page_count(bytes@.len()),
        forall|i: int| 0 <= i < r@.len() ==> #[trigger] r@[i]@ == page_chunk(bytes@, i) && page_wf(r@[i]@),
{
    let mut pages: Vec<Page> = Vec::new();
    let mut start: usize = 0;
    while start < bytes.len()
        invariant
            start <= bytes@.len(),
            start < bytes@.len() ==> start == pages@.len() * 4096 && pages@.len() < page_count(bytes@.len()),
            start == bytes@.len() ==> pages@.len() == page_count(bytes@.len()),
            forall|i: int| 0 <= i < pages@.len() ==> #[trigger] pages@[i]@ == page_chunk(bytes@, i) && page_wf(pages@[i]@),
        decreases bytes@.len() - start,
    {
        let end = if bytes.len() - start > PAGE_SIZE {
            start + PAGE_SIZE
        } else {
            bytes.len()
        };
        let chunk = copy_bytes(&bytes[start..end]);
        let ghost k = pages@.len() as int;
        let page = Page { data: chunk };
        assert(page@ == page_chunk(bytes@, k));
        pages.push(page);
        start = end;
    }
    pages
}

/// What decoding an address as a page yields
pub enum PageVerdict {
    NotPage,
    ShortPayload(nat),
    Mismatch(nat, nat),
    Empty,
    TooBig(nat),
    Parsed(u64, Seq<u8>),
}

/// The verdict of `Page::from_address` on an address
pub open spec fn page_verdict(a: AddressView) -> PageVerdict {
    let p = a.payload;
    if a.node_type != NodeType::Page {
        PageVerdict::NotPage
    } else if p.len() < 10 {
        PageVerdict::ShortPayload(p.len())
    } else {
        let index = be_value(p.subrange(0, 8));
        let expected = be_value(p.subrange(8, 10));
        let content = p.subrange(10, p.len() as int);
        if content.len() != expected {
            PageVerdict::Mismatch(expected, content.len())
        } else if content.len() == 0 {
            PageVerdict::Empty
        } else if content.len() > 4096 {
            PageVerdict::TooBig(content.len())
        } else {
            PageVerdict::Parsed(index as u64, content)
        }
    }
}

/// The page decoder's result `r` is what verdict `v` says
pub open spec fn page_result_is(r: Result<(u64, Page), PageError>, v: PageVerdict) -> bool {
    match v {
        PageVerdict::NotPage => r == Err::<(u64, Page), PageError>(PageError::NotAPageAddress),
        PageVerdict::ShortPayload(n) => r == Err::<(u64, Page), PageError>(PageError::InvalidPayloadLength(n as usize)),
        PageVerdict::Mismatch(e, a) => r == Err::<(u64, Page), PageError>(
            PageError::LogicalLengthMismatch { expected: e as usize, actual: a as usize },
        ),
        PageVerdict::Empty => r == Err::<(u64, Page), PageError>(PageError::EmptyPage),
        PageVerdict::TooBig(n) => r == Err::<(u64, Page), PageError>(PageError::PageSizeExceeded(n as usize)),
        PageVerdict::Parsed(i, d) => r matches Ok((j, page)) && j == i && page@ == d,
    }
}

/// The page verdict on the address of a page is that page, at its index
pub proof fn lemma_page_verdict_roundtrip(index: u64, data: Seq<u8>)
    requires
        page_wf(data),
    ensures
        page_verdict(AddressView { version: 1, node_type: NodeType::Page, payload: page_payload(index, data) })
            == PageVerdict::Parsed(index, data),
{
    lemma_page_address_roundtrip(index, data);
}

} // verus!
