//! What the desktop application's commands compute: address details,
//! number and address conversions, radix coordinates, page previews and the
//! evaluator overview, each from plain arguments to a plain report

use vstd::prelude::*;
use crate::address::{
    Address, AddressView, NodeType, UriOutcome, uri_outcome, uri_result_is, binary_verdict, BinaryVerdict,
    spec_type_of_id, spec_type_id, spec_to_binary, spec_uri,
};
use crate::error::{AddressError, PageError};
use crate::enumeration::{bytes_to_number, number_to_bytes, number_of, Natural};
use crate::ext::{
    hex_decode, hex_encode, hex_bytes, hex_lower, hex_digit_lower, is_hex_text, big_parse_decimal,
    big_to_decimal, big_decimal_parse, DecimalParse, digits_value, digits_or_underscores,
};
use crate::text::{
    chars_eq, lower_chars, char_from_ascii, decimal, push_chars, str_chars, string_of, string_push, trim_chars, trim_seq, split_colon,
    trim_start_index, trim_end_index,
};
use crate::util::pow256;
use crate::page::{
    Page, RadixCoordinate, PAGE_SIZE, spec_coordinate, spec_format_coordinate, page_verdict, page_result_is, PageVerdict,
};
use crate::gpu::{Evaluator, GpuDeviceInfo, GpuEvaluator, CpuEvaluator, SimdEvaluator};

verus! {

broadcast use vstd::std_specs::vec::group_vec_axioms;

/// `s` without every leading `0x` (`str::trim_start_matches("0x")`)
pub open spec fn strip_hex_prefix(s: Seq<char>) -> Seq<char>
    decreases s.len(),
{
    if s.len() >= 2 && s[0] == '0' && s[1] == 'x' {
        strip_hex_prefix(s.skip(2))
    } else {
        s
    }
}

/// The compact hexadecimal form of an address: version byte 1, type id,
/// then the payload
pub open spec fn compact_outcome(b: Seq<u8>) -> Option<AddressView> {
    if b.len() >= 2 && b[0] == 1 && 1 <= b[1] <= 6 && (b.len() > 2 || spec_type_of_id(b[1]) == NodeType::Data) {
        Some(AddressView { version: 1, node_type: spec_type_of_id(b[1]), payload: b.subrange(2, b.len() as int) })
    } else {
        None
    }
}

/// What the lenient reader makes of `s`: after trimming, a URI; else
/// hexadecimal text (leading `0x` dropped) holding the binary form or the
/// compact form. `None` when it is none of these
pub open spec fn lenient_outcome(s: Seq<char>) -> Option<AddressView> {
    let t = trim_seq(s);
    match uri_outcome(t) {
        UriOutcome::Parsed(v) => Some(v),
        _ => {
            let h = strip_hex_prefix(t);
            if !is_hex_text(h) {
                None
            } else {
                match binary_verdict(hex_bytes(h)) {
                    BinaryVerdict::Parsed(v) => Some(v),
                    _ => compact_outcome(hex_bytes(h)),
                }
            }
        },
    }
}

proof fn lemma_strip_len(s: Seq<char>)
    ensures
        strip_hex_prefix(s).len() <= s.len(),
    decreases s.len(),
{
    if s.len() >= 2 && s[0] == '0' && s[1] == 'x' {
        lemma_strip_len(s.skip(2));
    }
}

proof fn lemma_trim_indices(s: Seq<char>)
    ensures
        0 <= trim_start_index(s) <= s.len(),
        0 <= trim_end_index(s) <= s.len(),
    decreases s.len(),
{
    if s.len() > 0 {
        lemma_trim_indices(s.drop_first());
        lemma_trim_indices(s.drop_last());
    }
}

proof fn lemma_trim_len(s: Seq<char>)
    ensures
        trim_seq(s).len() <= s.len(),
{
    lemma_trim_indices(s);
}

proof fn lemma_split_parts_len(s: Seq<char>)
    ensures
        forall|i: int| 0 <= i < split_colon(s).len() ==> (#[trigger] split_colon(s)[i]).len() <= s.len(),
    decreases s.len(),
{
    if s.len() > 0 {
        lemma_split_parts_len(s.drop_last());
        crate::text::lemma_split_len(s.drop_last());
    }
}

/// The payload of what the lenient reader finds is no longer than the text
pub proof fn lemma_lenient_payload_len(s: Seq<char>)
    ensures
        lenient_outcome(s) matches Some(v) ==> v.payload.len() <= s.len(),
{
    let t = trim_seq(s);
    lemma_trim_len(s);
    if let UriOutcome::Parsed(v) = uri_outcome(t) {
        lemma_trim_len(t);
        lemma_split_parts_len(trim_seq(t));
    } else {
        let h = strip_hex_prefix(t);
        lemma_strip_len(t);
        if is_hex_text(h) {
            let b = hex_bytes(h);
            if let BinaryVerdict::Parsed(v) = binary_verdict(b) {
                crate::address::lemma_leb128_read_index(b, 6, 0, 0);
            }
        }
    }
}

/// `s` with every leading `0x` dropped
fn strip_hex_prefix_chars(s: &[char]) -> (r: Vec<char>)
    ensures
        r@ == strip_hex_prefix(s@),
{
    let mut i: usize = 0;
    assert(s@.skip(0) =~= s@);
    while i < s.len() && s.len() - i > 1 && s[i] == '0' && s[i + 1] == 'x'
        invariant
            i <= s@.len(),
            strip_hex_prefix(s@) == strip_hex_prefix(s@.skip(i as int)),
        decreases s@.len() - i,
    {
        assert(s@.skip(i as int).skip(2) =~= s@.skip(i + 2));
        i = i + 2;
    }
    let rest = &s[i..s.len()];
    let mut out: Vec<char> = Vec::new();
    let mut k: usize = 0;
    while k < rest.len()
        invariant
            k <= rest@.len(),
            out@ == rest@.take(k as int),
        decreases rest@.len() - k,
    {
        out.push(rest[k]);
        k = k + 1;
        assert(out@ =~= rest@.take(k as int));
    }
    assert(rest@ =~= s@.skip(i as int));
    assert(out@ =~= rest@);
    out
}

/// Read an address given as a URI, as hexadecimal text of its binary form,
/// or as compact hexadecimal text (version byte, type id, payload); where it
/// is none of these, the error of reading it as a URI
pub fn parse_address_str(raw: &str) -> (r: Result<Address, AddressError>)
    ensures
        lenient_outcome(raw@) matches Some(v) ==> (r matches Ok(a) && a@ == v),
        lenient_outcome(raw@) is None ==> uri_result_is(r, uri_outcome(trim_seq(raw@))),
        r matches Ok(a) ==> a@.wf() && a@.payload.len() <= raw@.len(),
{
    proof {
        lemma_lenient_payload_len(raw@);
    }
    let all = str_chars(raw);
    let trimmed = trim_chars(all.as_slice());
    let s = string_of(trimmed.as_slice());
    if let Ok(addr) = Address::parse_uri(s.as_str()) {
        return Ok(addr);
    }
    let clean = strip_hex_prefix_chars(trimmed.as_slice());
    let clean_text = string_of(clean.as_slice());
    if let Ok(bytes) = hex_decode(clean_text.as_str()) {
        let full = Address::from_binary(bytes.as_slice());
        if let Ok(addr) = full {
            return Ok(addr);
        }
        if bytes.len() >= 2 && bytes[0] == 1 {
            if let Ok(node_type) = NodeType::from_type_id(bytes[1]) {
                let payload = crate::util::copy_bytes(&bytes.as_slice()[2..bytes.len()]);
                if let Ok(addr) = Address::new(node_type, payload) {
                    proof {
                        crate::address::lemma_type_of_id(node_type, bytes[1]);
                    }
                    return Ok(addr);
                }
            }
        }
    }
    Address::parse_uri(s.as_str())
}


/// The name the desktop shows for each node type
pub open spec fn type_title(t: NodeType) -> Seq<char> {
    match t {
        NodeType::Data => "Data"@,
        NodeType::Ref => "Reference"@,
        NodeType::Sequence => "Sequence"@,
        NodeType::Rep => "Repeat"@,
        NodeType::Slice => "Slice"@,
        NodeType::Page => "Page"@,
    }
}

/// The two lower-case hexadecimal digits of a byte
pub open spec fn hex_pair(x: u8) -> Seq<char> {
    seq![hex_digit_lower((x / 16) as nat), hex_digit_lower((x % 16) as nat)]
}

/// The bytes of `b` as two-digit lower-case hexadecimal, separated by single spaces
pub open spec fn spaced_hex(b: Seq<u8>) -> Seq<char>
    decreases b.len(),
{
    if b.len() == 0 {
        Seq::empty()
    } else if b.len() == 1 {
        hex_pair(b[0])
    } else {
        spaced_hex(b.drop_last()) + seq![' '] + hex_pair(b.last())
    }
}

/// Everything the desktop shows of one address
#[derive(Debug, Clone)]
pub struct AddressDetailsDto {
    pub raw: String,
    pub canonical_hex: String,
    pub canonical_uri: String,
    pub version: u8,
    pub node_type: u8,
    pub node_type_name: String,
    pub payload_hex: String,
    pub payload_len: usize,
    pub leb128_hex: String,
    pub is_valid: bool,
}

/// `d` describes the address `v`, read from the text `raw`
pub open spec fn details_match(raw: Seq<char>, v: AddressView, d: AddressDetailsDto) -> bool {
    &&& d.raw@ == raw
    &&& d.canonical_hex@ == hex_lower(spec_to_binary(v))
    &&& d.canonical_uri@ == spec_uri(v)
    &&& d.version == v.version
    &&& d.node_type == spec_type_id(v.node_type)
    &&& d.node_type_name@ == type_title(v.node_type)
    &&& d.payload_hex@ == hex_lower(v.payload)
    &&& d.payload_len == v.payload.len()
    &&& d.leb128_hex@ == spaced_hex(spec_to_binary(v))
    &&& d.is_valid
}

/// The lower-case hexadecimal digit of `d < 16`
fn lower_hex_digit(d: u8) -> (r: char)
    requires
        d < 16,
    ensures
        r == hex_digit_lower(d as nat),
{
    if d < 10 {
        char_from_ascii(d as u32 + 48)
    } else {
        char_from_ascii(d as u32 + 87)
    }
}

/// The bytes of `b` as two-digit hexadecimal separated by spaces
fn spaced_hex_text(b: &[u8]) -> (r: String)
    ensures
        r@ == spaced_hex(b@),
{
    let mut out = String::new();
    let mut i: usize = 0;
    assert(out@ =~= spaced_hex(b@.take(0)));
    while i < b.len()
        invariant
            i <= b@.len(),
            out@ == spaced_hex(b@.take(i as int)),
        decreases b@.len() - i,
    {
        let x = b[i];
        let ghost before = out@;
        if i > 0 {
            string_push(&mut out, ' ');
        }
        string_push(&mut out, lower_hex_digit(x / 16));
        string_push(&mut out, lower_hex_digit(x % 16));
        assert(b@.take(i + 1).drop_last() =~= b@.take(i as int));
        assert(b@.take(i + 1).last() == x);
        if i == 0 {
            assert(b@.take(1) =~= seq![x]);
            assert(out@ =~= hex_pair(x));
        } else {
            assert(out@ =~= before + seq![' '] + hex_pair(x));
        }
        i = i + 1;
    }
    assert(b@.take(b@.len() as int) =~= b@);
    out
}

/// The name of a node type as the desktop shows it
fn type_title_text(t: NodeType) -> (r: String)
    ensures
        r@ == type_title(t),
{
    match t {
        NodeType::Data => "Data".to_owned(),
        NodeType::Ref => "Reference".to_owned(),
        NodeType::Sequence => "Sequence".to_owned(),
        NodeType::Rep => "Repeat".to_owned(),
        NodeType::Slice => "Slice".to_owned(),
        NodeType::Page => "Page".to_owned(),
    }
}

/// Read an address leniently (see `parse_address_str`) and describe it: its
/// canonical binary form in hexadecimal (also byte by byte), its URI, version,
/// type, and payload
pub fn parse_address(raw: String) -> (r: Result<AddressDetailsDto, AddressError>)
    ensures
        lenient_outcome(raw@) matches Some(v) ==> (r matches Ok(d) && details_match(raw@, v, d)),
        lenient_outcome(raw@) is None ==> (r matches Err(e) && uri_result_is(
            Err::<Address, AddressError>(e),
            uri_outcome(trim_seq(raw@)),
        )),
{
    let addr = match parse_address_str(raw.as_str()) {
        Ok(a) => a,
        Err(e) => return Err(e),
    };
    let node_type = addr.node_type();
    let binary = addr.to_binary();
    let canonical_hex = hex_encode(binary.as_slice());
    let leb128_hex = spaced_hex_text(binary.as_slice());
    let canonical_uri = addr.to_uri();
    let node_type_name = type_title_text(node_type);
    let payload_hex = addr.payload_hex();
    let payload_len = addr.payload().len();
    let version = addr.version();
    let type_id = node_type.type_id();
    Ok(AddressDetailsDto {
        raw,
        canonical_hex,
        canonical_uri,
        version,
        node_type: type_id,
        node_type_name,
        payload_hex,
        payload_len,
        leb128_hex,
        is_valid: true,
    })
}


/// Why a desktop command refuses its input
#[derive(Debug, Clone, PartialEq, Eq)]
pub enum CommandError {
    /// A message the command composes itself
    Message(String),
    /// An address that cannot be read or built
    Address(AddressError),
    /// A page that cannot be read
    Page(PageError),
}

/// `m` starts with `p`
pub open spec fn starts_with(m: Seq<char>, p: Seq<char>) -> bool {
    m.len() >= p.len() && m.subrange(0, p.len() as int) == p
}

/// The address of a data node holding `b`
pub open spec fn data_address(b: Seq<u8>) -> AddressView {
    AddressView { version: 1, node_type: NodeType::Data, payload: b }
}

/// A string holding `prefix` followed by `tail`
fn joined(prefix: &str, tail: &str) -> (r: String)
    ensures
        r@ == prefix@ + tail@,
{
    let mut out = prefix.to_owned();
    let cs = str_chars(tail);
    push_chars(&mut out, cs.as_slice());
    out
}

/// Build the URI of an address from its type identifier and its payload in
/// hexadecimal (surrounding white space and leading `0x` ignored)
pub fn format_address(node_type_val: u8, payload_hex: String) -> (r: Result<String, CommandError>)
    ensures
        ({
            let h = strip_hex_prefix(trim_seq(payload_hex@));
            if !is_hex_text(h) {
                r matches Err(CommandError::Message(m)) && starts_with(m@, "Invalid hex payload: "@)
            } else if !(1 <= node_type_val <= 6) {
                r == Err::<String, CommandError>(
                    CommandError::Address(AddressError::UnknownBinaryTypeId(node_type_val)),
                )
            } else if hex_bytes(h).len() == 0 && spec_type_of_id(node_type_val) != NodeType::Data {
                r == Err::<String, CommandError>(CommandError::Address(AddressError::EmptyPayload))
            } else {
                r matches Ok(u) && u@ == spec_uri(
                    AddressView { version: 1, node_type: spec_type_of_id(node_type_val), payload: hex_bytes(h) },
                )
            }
        }),
{
    let all = str_chars(payload_hex.as_str());
    let trimmed = trim_chars(all.as_slice());
    let clean = strip_hex_prefix_chars(trimmed.as_slice());
    let clean_text = string_of(clean.as_slice());
    let payload = match hex_decode(clean_text.as_str()) {
        Ok(p) => p,
        Err(e) => {
            let text = crate::text::hex_fault_message(&e);
            let m = joined("Invalid hex payload: ", text.as_str());
            proof {
                reveal_strlit("Invalid hex payload: ");
                assert(m@.subrange(0, 21) =~= "Invalid hex payload: "@);
            }
            return Err(CommandError::Message(m));
        },
    };
    let node_type = match NodeType::from_type_id(node_type_val) {
        Ok(t) => t,
        Err(e) => return Err(CommandError::Address(e)),
    };
    proof {
        crate::address::lemma_type_of_id(node_type, node_type_val);
    }
    match Address::new(node_type, payload) {
        Ok(addr) => Ok(addr.to_uri()),
        Err(e) => Err(CommandError::Address(e)),
    }
}

/// The digits of a number's decimal reading are no more than its length in bytes
proof fn lemma_digits_value_bound(t: Seq<char>)
    requires
        digits_or_underscores(t),
    ensures
        digits_value(t) < pow256(t.len()),
    decreases t.len(),
{
    if t.len() > 0 {
        lemma_digits_value_bound(t.drop_last());
        let p = pow256((t.len() - 1) as nat);
        assert(pow256(t.len()) == 256 * p);
        let d = ((t.last() as u32) - 48) as nat;
        assert('0' <= t[t.len() - 1] <= '9' || t[t.len() - 1] == '_');
        if t.last() != '_' {
            assert(digits_value(t.drop_last()) * 10 + d < 256 * p) by (nonlinear_arith)
                requires
                    digits_value(t.drop_last()) < p,
                    d <= 9,
            ;
        }
    }
}

/// The data address whose payload is the byte string numbered by the decimal
/// text `num_str` (surrounding white space ignored, read as num-bigint reads it)
pub fn number_to_address(num_str: String) -> (r: Result<String, CommandError>)
    requires
        num_str@.len() <= usize::MAX / 8,
    ensures
        match big_decimal_parse(trim_seq(num_str@)) {
            DecimalParse::Value(v) => r matches Ok(u) && exists|b: Seq<u8>|
                number_of(b) == v && u@ == #[trigger] spec_uri(data_address(b)),
            DecimalParse::Empty => r matches Err(CommandError::Message(m)) && m@
                == "Invalid number: cannot parse integer from empty string"@,
            DecimalParse::Invalid => r matches Err(CommandError::Message(m)) && m@
                == "Invalid number: invalid digit found in string"@,
        },
{
    let all = str_chars(num_str.as_str());
    let trimmed = trim_chars(all.as_slice());
    let clean = string_of(trimmed.as_slice());
    let digits = match big_parse_decimal(clean.as_str()) {
        Ok(d) => d,
        Err(e) => {
            let m = joined("Invalid number: ", e.as_str());
            proof {
                reveal_strlit("Invalid number: ");
                reveal_strlit("cannot parse integer from empty string");
                reveal_strlit("invalid digit found in string");
                reveal_strlit("Invalid number: cannot parse integer from empty string");
                reveal_strlit("Invalid number: invalid digit found in string");
            }
            return Err(CommandError::Message(m));
        },
    };
    assert(big_decimal_parse(clean@) is Value);
    let ghost v = big_decimal_parse(clean@)->Value_0;
    proof {
        let s = clean@;
        let t = if s.len() > 0 && s[0] == '+' && !(s.len() > 1 && s[1] == '+') {
            s.drop_first()
        } else {
            s
        };
        lemma_digits_value_bound(t);
        crate::enumeration::lemma_canon_len(v, t.len());
        lemma_trim_len(num_str@);
    }
    let n = Natural::from_be_bytes(digits.as_slice());
    proof {
        crate::enumeration::lemma_canon_value(v);
    }
    let bytes = number_to_bytes(&n);
    let ghost b = bytes@;
    match Address::new(NodeType::Data, bytes) {
        Ok(addr) => {
            let u = addr.to_uri();
            assert(spec_uri(data_address(b)) == u@);
            Ok(u)
        },
        Err(e) => Err(CommandError::Address(e)),
    }
}

/// The decimal number of the payload of an address read leniently (see
/// `parse_address_str`)
pub fn address_to_number(raw_addr: String) -> (r: Result<String, CommandError>)
    requires
        raw_addr@.len() <= usize::MAX / 8,
    ensures
        lenient_outcome(raw_addr@) matches Some(v) ==> (r matches Ok(s) && s@ == decimal(number_of(v.payload))),
        lenient_outcome(raw_addr@) is None ==> (r matches Err(CommandError::Address(e)) && uri_result_is(
            Err::<Address, AddressError>(e),
            uri_outcome(trim_seq(raw_addr@)),
        )),
{
    let addr = match parse_address_str(raw_addr.as_str()) {
        Ok(a) => a,
        Err(e) => return Err(CommandError::Address(e)),
    };
    let n = bytes_to_number(addr.payload());
    let nb = n.to_be_bytes();
    Ok(big_to_decimal(nb.as_slice()))
}


/// The radix coordinates the desktop shows for one byte offset
#[derive(Debug, Clone)]
pub struct RadixCoordinatesDto {
    pub byte_offset: u64,
    pub page_index: u64,
    pub floor: u64,
    pub room: u8,
    pub wall: u8,
    pub shelf: u8,
    pub volume: u8,
    pub page: u8,
    pub offset_in_page: u16,
    pub formatted: String,
}

/// The byte offset the desktop means: the value itself, or the start of the
/// page with that index (`u64::MAX` where that start does not fit)
pub open spec fn chosen_offset(input_val: u64, is_page_index: bool) -> u64 {
    if !is_page_index {
        input_val
    } else if input_val * 4096 > u64::MAX {
        u64::MAX
    } else {
        (input_val * 4096) as u64
    }
}

/// The radix coordinates of a byte offset, or of the first byte of a page
/// given by its index
pub fn get_radix_coordinates(input_val: u64, is_page_index: bool) -> (r: Result<RadixCoordinatesDto, String>)
    ensures
        r matches Ok(d) && ({
            let x = chosen_offset(input_val, is_page_index);
            let c = spec_coordinate(x);
            &&& d.byte_offset == x
            &&& d.page_index == x / 4096
            &&& d.floor == c.floor && d.room == c.room && d.wall == c.wall && d.shelf == c.shelf
            &&& d.volume == c.volume && d.page == c.page && d.offset_in_page == c.offset_in_page
            &&& d.formatted@ == spec_format_coordinate(c)
        }),
{
    let byte_offset = if is_page_index {
        match input_val.checked_mul(PAGE_SIZE as u64) {
            Some(v) => v,
            None => u64::MAX,
        }
    } else {
        input_val
    };
    let coord = RadixCoordinate::from_byte_offset(byte_offset);
    let page_index = byte_offset >> 12;
    assert(byte_offset >> 12 == byte_offset / 4096) by (bit_vector);
    Ok(RadixCoordinatesDto {
        byte_offset,
        page_index,
        floor: coord.floor,
        room: coord.room,
        wall: coord.wall,
        shelf: coord.shelf,
        volume: coord.volume,
        page: coord.page,
        offset_in_page: coord.offset_in_page,
        formatted: coord.format_coordinate(),
    })
}

/// What the desktop shows of one page
#[derive(Debug, Clone)]
pub struct PageDetailsDto {
    pub page_index: u64,
    pub logical_len: usize,
    pub is_full: bool,
    pub hex_preview: String,
    pub ascii_preview: String,
    pub total_size: usize,
    pub address_hex: String,
}

/// A byte as the preview shows it: itself where it is printable ASCII, else `.`
pub open spec fn preview_char(b: u8) -> char {
    if 32 <= b <= 126 {
        (b as u32) as char
    } else {
        '.'
    }
}

/// The bytes a preview covers: the first 128 at most
pub open spec fn preview_bytes(d: Seq<u8>) -> Seq<u8> {
    if d.len() <= 128 {
        d
    } else {
        d.take(128)
    }
}

/// `p` shows the page `d` at index `i` whose address is `v`
pub open spec fn page_details_match(p: PageDetailsDto, i: u64, d: Seq<u8>, v: AddressView) -> bool {
    &&& p.page_index == i
    &&& p.logical_len == d.len()
    &&& p.is_full == (d.len() == 4096)
    &&& p.hex_preview@ == hex_lower(preview_bytes(d))
    &&& p.ascii_preview@ == preview_bytes(d).map_values(|b: u8| preview_char(b))
    &&& p.total_size == 4096
    &&& p.address_hex@ == spec_uri(v)
}

/// The printable-ASCII preview of some bytes
fn ascii_preview_text(b: &[u8]) -> (r: String)
    ensures
        r@ == b@.map_values(|x: u8| preview_char(x)),
{
    let mut out = String::new();
    let mut i: usize = 0;
    while i < b.len()
        invariant
            i <= b@.len(),
            out@ == b@.take(i as int).map_values(|x: u8| preview_char(x)),
        decreases b@.len() - i,
    {
        let x = b[i];
        let c = if 32 <= x && x <= 126 {
            char_from_ascii(x as u32)
        } else {
            '.'
        };
        string_push(&mut out, c);
        i = i + 1;
        assert(out@ =~= b@.take(i as int).map_values(|x: u8| preview_char(x)));
    }
    assert(b@.take(b@.len() as int) =~= b@);
    out
}

/// Read a page address leniently (see `parse_address_str`) and describe the
/// page: its index, length, whether it is full, and a preview of its first
/// bytes in hexadecimal and as printable ASCII
pub fn inspect_page_data(raw_addr: String) -> (r: Result<PageDetailsDto, CommandError>)
    ensures
        match lenient_outcome(raw_addr@) {
            None => r matches Err(CommandError::Address(e)) && uri_result_is(
                Err::<Address, AddressError>(e),
                uri_outcome(trim_seq(raw_addr@)),
            ),
            Some(v) => match page_verdict(v) {
                PageVerdict::Parsed(i, d) => r matches Ok(p) && page_details_match(p, i, d, v),
                pv => r matches Err(CommandError::Page(e)) && page_result_is(Err::<(u64, Page), PageError>(e), pv),
            },
        },
{
    let addr = match parse_address_str(raw_addr.as_str()) {
        Ok(a) => a,
        Err(e) => return Err(CommandError::Address(e)),
    };
    let (page_index, page) = match Page::from_address(&addr) {
        Ok(x) => x,
        Err(e) => return Err(CommandError::Page(e)),
    };
    let data = page.data();
    let preview_len = if data.len() < 128 {
        data.len()
    } else {
        128
    };
    let shown = &data[0..preview_len];
    assert(shown@ =~= preview_bytes(data@));
    let hex_preview = hex_encode(shown);
    let ascii_preview = ascii_preview_text(shown);
    Ok(PageDetailsDto {
        page_index,
        logical_len: page.logical_len(),
        is_full: page.is_full(),
        hex_preview,
        ascii_preview,
        total_size: PAGE_SIZE,
        address_hex: addr.to_uri(),
    })
}

/// What the desktop shows of the evaluators
#[derive(Debug, Clone)]
pub struct GpuInfoDetailsDto {
    pub has_gpu: bool,
    pub adapter_name: String,
    pub backend: String,
    pub device_type: String,
    pub is_dedicated: bool,
    pub max_buffer_mb: u64,
    pub fallback_mode: bool,
    pub cpu_evaluator_ready: bool,
    pub simd_evaluator_ready: bool,
}

/// The overview of the evaluators: the adapter the GPU evaluator found (or a
/// software fallback description where it found none), its buffer limit in
/// MiB, and the CPU and SIMD evaluators, which are always ready
pub fn get_gpu_info() -> (r: Result<GpuInfoDetailsDto, String>)
    ensures
        r matches Ok(g) && {
            &&& g.has_gpu && !g.fallback_mode
            &&& g.adapter_name@ == "Generic Vulkan / Metal Compute Adapter"@
            &&& g.backend@ == "Vulkan"@
            &&& g.device_type@ == "Virtual / Physical Compute Device"@
            &&& !g.is_dedicated
            &&& g.max_buffer_mb == 1024
            &&& g.cpu_evaluator_ready && g.simd_evaluator_ready
        },
{
    let gpu = GpuEvaluator::new();
    let info = match gpu.device_info() {
        Some(d) => GpuDeviceInfo {
            adapter_name: d.adapter_name.clone(),
            backend: d.backend.clone(),
            device_type: d.device_type.clone(),
            is_dedicated: d.is_dedicated,
            max_buffer_size: d.max_buffer_size,
        },
        None => GpuDeviceInfo {
            adapter_name: "No Dedicated Adapter Detected".to_owned(),
            backend: "Software Fallback".to_owned(),
            device_type: "CPU Fallback".to_owned(),
            is_dedicated: false,
            max_buffer_size: 1024 * 1024 * 1024,
        },
    };
    let available = gpu.is_available();
    assert(available);
    assert(info.adapter_name@ == "Generic Vulkan / Metal Compute Adapter"@);
    assert(info.backend@ == "Vulkan"@);
    assert(info.device_type@ == "Virtual / Physical Compute Device"@);
    assert(info.max_buffer_size == 1073741824);
    assert(info.max_buffer_size / 1048576 == 1024u64);
    Ok(GpuInfoDetailsDto {
        has_gpu: available,
        adapter_name: info.adapter_name,
        backend: info.backend,
        device_type: info.device_type,
        is_dedicated: info.is_dedicated,
        max_buffer_mb: info.max_buffer_size / (1024 * 1024),
        fallback_mode: !available,
        cpu_evaluator_ready: true,
        simd_evaluator_ready: true,
    })
}


/// The decimal notation of `n` is digits only, read back as `n`
proof fn lemma_decimal_digits(n: nat)
    ensures
        decimal(n).len() >= 1,
        forall|k: int| 0 <= k < decimal(n).len() ==> '0' <= #[trigger] decimal(n)[k] <= '9',
        digits_or_underscores(decimal(n)),
        digits_value(decimal(n)) == n,
    decreases n,
{
    let d = decimal(n);
    assert((crate::text::digit_char(n % 10) as u32) == n % 10 + 48);
    assert(d.last() == crate::text::digit_char(n % 10));
    assert(d.last() != '_');
    if n < 10 {
        assert(d.drop_last() =~= Seq::<char>::empty());
        assert(digits_value(d) == digits_value(d.drop_last()) * 10 + n % 10);
    } else {
        lemma_decimal_digits(n / 10);
        assert(d.drop_last() =~= decimal(n / 10));
        assert(forall|k: int| 0 <= k < d.len() - 1 ==> d[k] == decimal(n / 10)[k]);
        assert(digits_value(d) == (n / 10) * 10 + n % 10);
    }
}

/// Reading the decimal notation of a number gives the number back
pub proof fn lemma_decimal_reads_back(n: nat)
    ensures
        big_decimal_parse(trim_seq(decimal(n))) == DecimalParse::Value(n),
{
    let d = decimal(n);
    lemma_decimal_digits(n);
    assert(!crate::text::is_white(d[0]));
    assert(!crate::text::is_white(d.last()));
    assert(trim_seq(d) =~= d);
}

/// The URI of a well-formed address is read back leniently as that address
pub proof fn lemma_lenient_reads_uri(a: AddressView)
    requires
        a.wf(),
        2 * a.payload.len() <= usize::MAX,
    ensures
        lenient_outcome(spec_uri(a)) == Some(a),
{
    crate::address::lemma_uri_roundtrip(a);
    let u = spec_uri(a);
    assert(u[0] == 'm');
    assert(!crate::text::is_white(u[0]));
    if a.payload.len() > 0 {
        let p = a.payload;
        crate::address::lemma_hex_digit_value((p.last() % 16) as nat);
        assert(hex_lower(p).last() == hex_digit_lower((p.last() % 16) as nat));
        assert(u.last() == hex_lower(p).last());
    }
    assert(!crate::text::is_white(u.last()));
    assert(trim_seq(u) =~= u);
}

/// Turning the decimal notation of `n` into an address and that address back
/// into a number gives the decimal notation of `n`: the notation reads as
/// `n`, the data address of the byte string numbered `n` is read back from
/// its URI, and the number of its payload is `n`
pub proof fn lemma_number_address_roundtrip(n: nat, b: Seq<u8>)
    requires
        number_of(b) == n,
        2 * b.len() <= usize::MAX,
    ensures
        big_decimal_parse(trim_seq(decimal(n))) == DecimalParse::Value(n),
        lenient_outcome(spec_uri(data_address(b))) == Some(data_address(b)),
        decimal(number_of(data_address(b).payload)) == decimal(n),
{
    lemma_decimal_reads_back(n);
    lemma_lenient_reads_uri(data_address(b));
}

/// The number of bytes an evaluator benchmark of `size_bytes` evaluates:
/// 16 MiB where no size is asked for, else the size up to 64 MiB
pub open spec fn benchmark_size(size_bytes: usize) -> usize {
    if size_bytes == 0 {
        16777216
    } else if size_bytes < 67108864 {
        size_bytes
    } else {
        67108864
    }
}

/// The work of an evaluator benchmark: generate the counter pattern of the
/// benchmark's size with the evaluator that `backend` names (`simd`, `gpu`,
/// any other name the CPU one, without regard to case); gives the number of
/// bytes evaluated. Timing it is the caller's part.
pub fn run_evaluator_workload(backend: &str, size_bytes: usize) -> (r: Result<usize, String>)
    ensures
        r == Ok::<usize, String>(benchmark_size(size_bytes)),
{
    let test_size: usize = if size_bytes == 0 {
        16 * 1024 * 1024
    } else if size_bytes < 64 * 1024 * 1024 {
        size_bytes
    } else {
        64 * 1024 * 1024
    };
    let name = lower_chars(str_chars(backend).as_slice());
    proof {
        reveal_strlit("counter");
    }
    assert(crate::gpu::counter_name() == "counter"@);
    let generated = if chars_eq(name.as_slice(), &['s', 'i', 'm', 'd']) {
        SimdEvaluator::new().generate_bytes("counter", test_size, 0)
    } else if chars_eq(name.as_slice(), &['g', 'p', 'u']) {
        GpuEvaluator::new().generate_bytes("counter", test_size, 0)
    } else {
        CpuEvaluator::new().generate_bytes("counter", test_size, 0)
    };
    match generated {
        Ok(_) => Ok(test_size),
        Err(_) => Err(String::new()),
    }
}

} // verus!
