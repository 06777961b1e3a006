use vstd::prelude::*;
use crate::error::AddressError;
use crate::util::{append_bytes, bytes_eq, copy_bytes};
use crate::text::{ascii_lower, trim_start_index, trim_end_index, is_white, strip_plus, decimal_value, all_digits, lemma_split_no_colon, lemma_split_colon_step, str_chars, string_of, chars_eq, lower_chars, ascii_lower_seq, trim_chars, trim_seq, split_colon, split_colon_chars, parse_u8_chars, parse_u8_text, utf8_len, decimal, push_decimal, push_chars, string_push};
use crate::ext::{hex_decode, hex_encode, hex_lower, hex_bytes, is_hex_text, hex_value, hex_digit_lower};
use std::str::FromStr;

verus! {

broadcast use vstd::std_specs::vec::group_vec_axioms;

/// Logical node type classifying an MFAS address
#[derive(Debug, Clone, Copy, PartialEq, Eq, PartialOrd, Ord, Hash)]
pub enum NodeType {
    /// Literal raw byte content (type id 1)
    Data,
    /// Reference to another address (type id 2)
    Ref,
    /// Ordered sequence of child addresses (type id 3)
    Sequence,
    /// Repetition of a child node (type id 4)
    Rep,
    /// Sliced range of a child node (type id 5)
    Slice,
    /// Logical page of at most 4096 bytes (type id 6)
    Page,
}

/// The one-byte identifier of each node type
pub open spec fn spec_type_id(t: NodeType) -> u8 {
    match t {
        NodeType::Data => 1,
        NodeType::Ref => 2,
        NodeType::Sequence => 3,
        NodeType::Rep => 4,
        NodeType::Slice => 5,
        NodeType::Page => 6,
    }
}

impl NodeType {
    /// Return the 1-byte binary identifier
    pub fn type_id(&self) -> (r: u8)
        ensures
            r == spec_type_id(*self),
    {
        match self {
            NodeType::Data => 1,
            NodeType::Ref => 2,
            NodeType::Sequence => 3,
            NodeType::Rep => 4,
            NodeType::Slice => 5,
            NodeType::Page => 6,
        }
    }

    /// Parse from a 1-byte binary identifier
    pub fn from_type_id(id: u8) -> (r: Result<NodeType, AddressError>)
        ensures
            1 <= id <= 6 <==> r is Ok,
            r matches Ok(t) ==> spec_type_id(t) == id,
            !(1 <= id <= 6) ==> r == Err::<NodeType, AddressError>(AddressError::UnknownBinaryTypeId(id)),
    {
        match id {
            1 => Ok(NodeType::Data),
            2 => Ok(NodeType::Ref),
            3 => Ok(NodeType::Sequence),
            4 => Ok(NodeType::Rep),
            5 => Ok(NodeType::Slice),
            6 => Ok(NodeType::Page),
            _ => Err(AddressError::UnknownBinaryTypeId(id)),
        }
    }
}

} // verus!

verus! {

/// Magic bytes for binary address representation: ASCII "MFAS"
pub const BINARY_MAGIC: [u8; 4] = [0x4D, 0x46, 0x41, 0x53];

/// Current address specification version
pub const CURRENT_VERSION: u8 = 1;

/// The scheme of the text form of an address
pub const SCHEME_PREFIX: &'static str = "mfas";

/// The magic prefix of the binary form, as a sequence
pub open spec fn spec_magic() -> Seq<u8> {
    seq![0x4Du8, 0x46u8, 0x41u8, 0x53u8]
}

/// Unsigned LEB128 encoding of `v`: seven bits per byte, least significant
/// group first, the high bit set on every byte but the last
pub open spec fn leb128(v: u64) -> Seq<u8>
    decreases v,
{
    if v < 128 {
        seq![v as u8]
    } else {
        proof {
            lemma_shr7_decreases(v);
        }
        seq![((v & 0x7f) | 0x80) as u8] + leb128(v >> 7)
    }
}

/// A LEB128 read that succeeds ends past where it started, within the bytes
pub(crate) proof fn lemma_leb128_read_index(bytes: Seq<u8>, i: int, shift: u64, acc: u64)
    ensures
        leb128_read(bytes, i, shift, acc) matches Some((v, j)) ==> i < j <= bytes.len(),
    decreases bytes.len() - i,
{
    if 0 <= i < bytes.len() {
        let b = bytes[i];
        let acc2 = acc | (((b & 0x7f) as u64) << shift);
        if b & 0x80 != 0 && shift + 7 <= 63 {
            lemma_leb128_read_index(bytes, i + 1, (shift + 7) as u64, acc2);
        }
    }
}

/// A value of at least 128 shifted right by seven bits is smaller
pub proof fn lemma_shr7_decreases(v: u64)
    ensures
        v >= 128 ==> v >> 7 < v,
{
    assert(v >= 128 ==> v >> 7 < v) by (bit_vector);
}

/// Decoding of LEB128 bytes as the binary reader does it: starting at index `i`
/// with `acc` already holding the bits of the earlier groups and `shift` the
/// position of the next group; `None` when the bytes end before a byte with the
/// high bit clear, or when more than ten groups are present
pub open spec fn leb128_read(bytes: Seq<u8>, i: int, shift: u64, acc: u64) -> Option<(u64, int)>
    decreases bytes.len() - i,
{
    if i < 0 || i >= bytes.len() {
        None
    } else {
        let b = bytes[i];
        let acc2 = acc | (((b & 0x7f) as u64) << shift);
        if b & 0x80 == 0 {
            Some((acc2, i + 1))
        } else if shift + 7 > 63 {
            None
        } else {
            leb128_read(bytes, i + 1, (shift + 7) as u64, acc2)
        }
    }
}

proof fn lemma_leb_step(v: u64)
    ensures
        (v >> 7 == 0) == (v < 128),
        v < 128 ==> ((v & 0x7f) as u8) == v as u8,
        (((v & 0x7f) as u8) | 0x80u8) == ((v & 0x7f) | 0x80) as u8,
        v >= 128 ==> v >> 7 < v,
{
    assert((v >> 7 == 0) == (v < 128)) by (bit_vector);
    assert(v < 128 ==> ((v & 0x7f) as u8) == v as u8) by (bit_vector);
    assert((((v & 0x7f) as u8) | 0x80u8) == ((v & 0x7f) | 0x80) as u8) by (bit_vector);
    assert(v >= 128 ==> v >> 7 < v) by (bit_vector);
}

/// Append the LEB128 encoding of `value` to `out`
fn encode_leb128(value: u64, out: &mut Vec<u8>)
    ensures
        final(out)@ == old(out)@ + leb128(value),
{
    let ghost target = out@ + leb128(value);
    let mut v = value;
    loop
        invariant
            out@ + leb128(v) == target,
            target == old(out)@ + leb128(value),
        decreases v,
    {
        let byte = (v & 0x7f) as u8;
        let ghost v0 = v;
        let ghost before = out@;
        proof {
            lemma_leb_step(v0);
        }
        v = v >> 7;
        if v != 0 {
            out.push(byte | 0x80);
            assert(leb128(v0) == seq![((v0 & 0x7f) | 0x80) as u8] + leb128(v));
            assert(out@ + leb128(v) =~= before + leb128(v0));
        } else {
            out.push(byte);
            assert(out@ =~= before + leb128(v0));
            return;
        }
    }
}

/// Decode a LEB128 value starting at `*offset`, advancing `*offset` past it
fn decode_leb128(bytes: &[u8], offset: &mut usize) -> (r: Result<u64, AddressError>)
    requires
        *old(offset) <= bytes@.len(),
    ensures
        r matches Ok(v) ==> leb128_read(bytes@, *old(offset) as int, 0, 0) == Some((v, *final(offset) as int)),
        r is Err ==> leb128_read(bytes@, *old(offset) as int, 0, 0) is None,
        r is Err ==> r == Err::<u64, AddressError>(AddressError::MalformedBinaryPayload),
        *final(offset) <= bytes@.len(),
{
    let mut result: u64 = 0;
    let mut shift: u64 = 0;
    while *offset < bytes.len()
        invariant
            *offset <= bytes@.len(),
            shift <= 63,
            leb128_read(bytes@, *old(offset) as int, 0, 0) == leb128_read(bytes@, *offset as int, shift, result),
        decreases bytes@.len() - *offset,
    {
        let byte = bytes[*offset];
        *offset = *offset + 1;
        result = result | (((byte & 0x7f) as u64) << shift);
        if (byte & 0x80) == 0 {
            return Ok(result);
        }
        if shift + 7 > 63 {
            return Err(AddressError::MalformedBinaryPayload);
        }
        shift = shift + 7;
    }
    Err(AddressError::MalformedBinaryPayload)
}

proof fn lemma_leb_bits(v: u64, s: u64)
    requires
        s <= 63,
    ensures
        (v >> s) < 128 ==> ((v & (((1u64 << s) - 1) as u64)) | (((((v >> s) as u8) & 0x7f) as u64) << s)) == v,
        (v >> s) >= 128 ==> s <= 56,
        (v >> s) >= 128 && s <= 56 ==> ((v & (((1u64 << s) - 1) as u64)) | ((((((v >> s) & 0x7f) | 0x80) as u8 & 0x7f) as u64) << s))
            == (v & (((1u64 << ((s + 7) as u64)) - 1) as u64)),
        (v >> s) >= 128 && s <= 56 ==> ((v >> s) >> 7) == v >> ((s + 7) as u64),
        ((v >> s) as u8) & 0x80 == 0 || (v >> s) >= 128,
        ((((v >> s) & 0x7f) | 0x80) as u8) & 0x80 != 0,
        v & (((1u64 << 0u64) - 1) as u64) == 0,
        v >> 0u64 == v,
{
    assert((v >> s) < 128 ==> ((v & (((1u64 << s) - 1) as u64)) | (((((v >> s) as u8) & 0x7f) as u64) << s)) == v)
        by (bit_vector) requires s <= 63;
    assert((v >> s) >= 128 ==> s <= 56) by (bit_vector) requires s <= 63;
    assert((v >> s) >= 128 && s <= 56 ==> ((v & (((1u64 << s) - 1) as u64)) | ((((((v >> s) & 0x7f) | 0x80) as u8 & 0x7f) as u64) << s))
            == (v & (((1u64 << ((s + 7) as u64)) - 1) as u64))) by (bit_vector);
    assert((v >> s) >= 128 && s <= 56 ==> ((v >> s) >> 7) == v >> ((s + 7) as u64)) by (bit_vector);
    assert(((v >> s) as u8) & 0x80 == 0 || (v >> s) >= 128) by (bit_vector);
    assert(((((v >> s) & 0x7f) | 0x80) as u8) & 0x80 != 0) by (bit_vector);
    assert(v & (((1u64 << 0u64) - 1) as u64) == 0) by (bit_vector);
    assert(v >> 0u64 == v) by (bit_vector);
}

proof fn lemma_leb128_read_general(v: u64, s: u64, bytes: Seq<u8>, i: int)
    requires
        s <= 63,
        0 <= i,
        i + leb128(v >> s).len() <= bytes.len(),
        bytes.subrange(i, i + leb128(v >> s).len()) == leb128(v >> s),
    ensures
        leb128_read(bytes, i, s, v & (((1u64 << s) - 1) as u64)) == Some((v, i + leb128(v >> s).len())),
    decreases v >> s,
{
    let w = v >> s;
    lemma_leb_bits(v, s);
    assert(bytes[i] == leb128(w)[0]);
    if w < 128 {
    } else {
        lemma_shr7_decreases(w);
        let s2 = (s + 7) as u64;
        let tail = leb128(w >> 7);
        assert(leb128(w) == seq![((w & 0x7f) | 0x80) as u8] + tail);
        assert(bytes.subrange(i + 1, i + 1 + tail.len()) =~= tail) by {
            assert forall|k: int| 0 <= k < tail.len() implies bytes.subrange(i + 1, i + 1 + tail.len())[k] == tail[k] by {
                assert(bytes.subrange(i, i + leb128(w).len())[k + 1] == leb128(w)[k + 1]);
            }
        }
        lemma_leb128_read_general(v, s2, bytes, i + 1);
    }
}

/// Reading back the LEB128 encoding of `v`, wherever it stands and whatever
/// follows it, gives `v` and the position just past the encoding
pub proof fn lemma_leb128_roundtrip(v: u64, bytes: Seq<u8>, i: int)
    requires
        0 <= i,
        i + leb128(v).len() <= bytes.len(),
        bytes.subrange(i, i + leb128(v).len()) == leb128(v),
    ensures
        leb128_read(bytes, i, 0, 0) == Some((v, i + leb128(v).len())),
{
    lemma_leb_bits(v, 0);
    lemma_leb128_read_general(v, 0, bytes, i);
}

/// `128^n`
pub open spec fn pow128(n: nat) -> nat
    decreases n,
{
    if n == 0 {
        1
    } else {
        128 * pow128((n - 1) as nat)
    }
}

proof fn lemma_pow128_mono(m: nat, n: nat)
    requires
        m <= n,
    ensures
        pow128(m) <= pow128(n),
    decreases n,
{
    if m < n {
        lemma_pow128_mono(m, (n - 1) as nat);
    }
}

/// The LEB128 encoding of `v` takes one byte for each started group of seven
/// bits (`128^(len - 1) <= v < 128^len` for `v >= 1`, one byte for 0), so
/// at most ten bytes
pub proof fn lemma_leb128_len(v: u64)
    ensures
        1 <= leb128(v).len() <= 10,
        v < pow128(leb128(v).len()),
        v >= 1 ==> v >= pow128((leb128(v).len() - 1) as nat),
    decreases v,
{
    if v < 128 {
        assert(pow128(1) == 128 * pow128(0));
    } else {
        lemma_shr7_decreases(v);
        let w = v >> 7;
        assert(w == v / 128) by (bit_vector)
            requires
                w == v >> 7,
        ;
        lemma_leb128_len(w);
        let l = leb128(w).len();
        assert(leb128(v).len() == 1 + l);
        assert(pow128(l + 1) == 128 * pow128(l));
        assert(v < 128 * pow128(l)) by (nonlinear_arith)
            requires
                w == v / 128,
                w < pow128(l),
        ;
        assert(pow128(l) == 128 * pow128((l - 1) as nat));
        assert(v >= 128 * pow128((l - 1) as nat)) by (nonlinear_arith)
            requires
                w == v / 128,
                w >= pow128((l - 1) as nat),
                w >= 1,
        ;
        if l + 1 > 10 {
            lemma_pow128_mono(10, l);
            reveal_with_fuel(pow128, 11);
            assert(pow128(10) == 1180591620717411303424);
        }
    }
}

/// Mathematical model of an address: its version, node type and payload bytes
pub struct AddressView {
    pub version: u8,
    pub node_type: NodeType,
    pub payload: Seq<u8>,
}

impl AddressView {
    /// A well-formed address has version 1, and an empty payload only when it is a data node
    pub open spec fn wf(self) -> bool {
        &&& self.version == 1
        &&& (self.payload.len() > 0 || self.node_type == NodeType::Data)
        &&& self.payload.len() <= usize::MAX
    }
}

/// Strongly typed, canonical representation of an MFAS address
#[derive(Debug, PartialEq, Eq, PartialOrd, Ord, Hash)]
pub struct Address {
    version: u8,
    node_type: NodeType,
    payload: Vec<u8>,
}

impl View for Address {
    type V = AddressView;

    closed spec fn view(&self) -> AddressView {
        AddressView { version: self.version, node_type: self.node_type, payload: self.payload@ }
    }
}

impl Clone for Address {
    fn clone(&self) -> (r: Self)
        ensures
            r@ == self@,
    {
        Address { version: self.version, node_type: self.node_type, payload: copy_bytes(self.payload.as_slice()) }
    }
}

/// The canonical binary layout: magic, version, type id, LEB128 payload length, payload
pub open spec fn spec_to_binary(a: AddressView) -> Seq<u8> {
    spec_magic() + seq![a.version, spec_type_id(a.node_type)] + leb128(a.payload.len() as u64) + a.payload
}

/// The node type whose identifier is `id` (for `1 <= id <= 6`)
pub open spec fn spec_type_of_id(id: u8) -> NodeType {
    if id == 1 {
        NodeType::Data
    } else if id == 2 {
        NodeType::Ref
    } else if id == 3 {
        NodeType::Sequence
    } else if id == 4 {
        NodeType::Rep
    } else if id == 5 {
        NodeType::Slice
    } else {
        NodeType::Page
    }
}

/// What the binary reader makes of `b` once magic, version and type id are accepted:
/// the LEB128 length read at index 6 must be written exactly as `leb128`
/// writes it (its shortest form) and must end exactly `len` bytes before the end
pub open spec fn binary_frame_ok(b: Seq<u8>) -> bool {
    &&& leb128_read(b, 6, 0, 0) is Some
    &&& b.len() - leb128_read(b, 6, 0, 0).unwrap().1 == leb128_read(b, 6, 0, 0).unwrap().0
    &&& b.subrange(6, leb128_read(b, 6, 0, 0).unwrap().1) == leb128(leb128_read(b, 6, 0, 0).unwrap().0)
}

/// The payload carried by an accepted binary frame
pub open spec fn binary_payload(b: Seq<u8>) -> Seq<u8> {
    b.subrange(leb128_read(b, 6, 0, 0).unwrap().1, b.len() as int)
}

impl Address {
    /// Exchange the address for its model (the view) in exec code equality
    pub fn same_as(&self, other: &Address) -> (r: bool)
        ensures
            r == (self@ == other@),
    {
        let eq = self.version == other.version && self.node_type.type_id() == other.node_type.type_id()
            && bytes_eq(self.payload.as_slice(), other.payload.as_slice());
        proof {
            if self.node_type != other.node_type {
                lemma_type_id_injective(self.node_type, other.node_type);
            }
        }
        eq
    }

    /// Create a new Address with validated components
    pub fn new(node_type: NodeType, payload: Vec<u8>) -> (r: Result<Address, AddressError>)
        ensures
            payload@.len() == 0 && node_type != NodeType::Data ==> r == Err::<Address, AddressError>(AddressError::EmptyPayload),
            !(payload@.len() == 0 && node_type != NodeType::Data) ==> (r matches Ok(a) && a@ == (AddressView { version: 1, node_type, payload: payload@ })),
            r matches Ok(a) ==> a@.wf(),
    {
        if payload.len() == 0 && !matches!(node_type, NodeType::Data) {
            return Err(AddressError::EmptyPayload);
        }
        Ok(Address { version: CURRENT_VERSION, node_type, payload })
    }

    /// An address of the current version from parts already known to be valid
    pub(crate) fn build(node_type: NodeType, payload: Vec<u8>) -> (r: Address)
        requires
            payload@.len() > 0 || node_type == NodeType::Data,
        ensures
            r@ == (AddressView { version: 1, node_type, payload: payload@ }),
            r@.wf(),
    {
        assert(payload@.len() == payload.len());
        Address { version: CURRENT_VERSION, node_type, payload }
    }

    /// Specification version of the address
    pub fn version(&self) -> (r: u8)
        ensures
            r == self@.version,
    {
        self.version
    }

    /// Node type of the address
    pub fn node_type(&self) -> (r: NodeType)
        ensures
            r == self@.node_type,
    {
        self.node_type
    }

    /// Reference to the underlying binary payload
    pub fn payload(&self) -> (r: &[u8])
        ensures
            r@ == self@.payload,
    {
        self.payload.as_slice()
    }

    /// Serialize into the canonical binary format:
    /// `[Magic 4B][Version 1B][TypeID 1B][LEB128 Length][Payload]`
    pub fn to_binary(&self) -> (r: Vec<u8>)
        ensures
            r@ == spec_to_binary(self@),
    {
        let mut out: Vec<u8> = Vec::new();
        out.push(0x4D);
        out.push(0x46);
        out.push(0x41);
        out.push(0x53);
        out.push(self.version);
        out.push(self.node_type.type_id());
        encode_leb128(self.payload.len() as u64, &mut out);
        append_bytes(&mut out, self.payload.as_slice());
        assert(out@ =~= spec_to_binary(self@));
        out
    }

    /// Deserialize from the canonical binary format
    pub fn from_binary(bytes: &[u8]) -> (r: Result<Address, AddressError>)
        ensures
            bytes@.len() < 6 ==> r == Err::<Address, AddressError>(AddressError::MalformedBinaryPayload),
            bytes@.len() >= 6 && bytes@.subrange(0, 4) != spec_magic() ==> (r matches Err(AddressError::InvalidBinaryMagic(m)) && m@ == bytes@.subrange(0, 4)),
            bytes@.len() >= 6 && bytes@.subrange(0, 4) == spec_magic() && bytes@[4] != 1
                ==> r == Err::<Address, AddressError>(AddressError::UnsupportedBinaryVersion(bytes@[4])),
            bytes@.len() >= 6 && bytes@.subrange(0, 4) == spec_magic() && bytes@[4] == 1 && !(1 <= bytes@[5] <= 6)
                ==> r == Err::<Address, AddressError>(AddressError::UnknownBinaryTypeId(bytes@[5])),
            bytes@.len() >= 6 && bytes@.subrange(0, 4) == spec_magic() && bytes@[4] == 1 && 1 <= bytes@[5] <= 6 && !binary_frame_ok(bytes@)
                ==> r == Err::<Address, AddressError>(AddressError::MalformedBinaryPayload),
            bytes@.len() >= 6 && bytes@.subrange(0, 4) == spec_magic() && bytes@[4] == 1 && 1 <= bytes@[5] <= 6 && binary_frame_ok(bytes@)
                ==> if binary_payload(bytes@).len() == 0 && spec_type_of_id(bytes@[5]) != NodeType::Data {
                    r == Err::<Address, AddressError>(AddressError::EmptyPayload)
                } else {
                    r matches Ok(a) && a@ == (AddressView { version: 1, node_type: spec_type_of_id(bytes@[5]), payload: binary_payload(bytes@) })
                },
            r matches Ok(a) ==> a@.wf(),
            binary_result_is(r, binary_verdict(bytes@)),
    {
        if bytes.len() < 6 {
            return Err(AddressError::MalformedBinaryPayload);
        }
        if bytes[0] != 0x4D || bytes[1] != 0x46 || bytes[2] != 0x41 || bytes[3] != 0x53 {
            let magic: [u8; 4] = [bytes[0], bytes[1], bytes[2], bytes[3]];
            assert(magic@ =~= bytes@.subrange(0, 4));
            return Err(AddressError::InvalidBinaryMagic(magic));
        }
        assert(bytes@.subrange(0, 4) =~= spec_magic());
        let version = bytes[4];
        if version != CURRENT_VERSION {
            return Err(AddressError::UnsupportedBinaryVersion(version));
        }
        let type_id = bytes[5];
        let node_type = match NodeType::from_type_id(type_id) {
            Ok(t) => t,
            Err(e) => return Err(e),
        };
        proof {
            lemma_type_of_id(node_type, type_id);
        }
        let mut offset: usize = 6;
        let payload_len = match decode_leb128(bytes, &mut offset) {
            Ok(v) => v,
            Err(e) => return Err(e),
        };
        if (bytes.len() - offset) as u64 != payload_len {
            return Err(AddressError::MalformedBinaryPayload);
        }
        let mut shortest: Vec<u8> = Vec::new();
        encode_leb128(payload_len, &mut shortest);
        assert(shortest@ =~= leb128(payload_len));
        proof {
            lemma_leb128_read_index(bytes@, 6, 0, 0);
        }
        if !bytes_eq(&bytes[6..offset], shortest.as_slice()) {
            return Err(AddressError::MalformedBinaryPayload);
        }
        let payload = copy_bytes(&bytes[offset..bytes.len()]);
        if payload.len() == 0 && !matches!(node_type, NodeType::Data) {
            return Err(AddressError::EmptyPayload);
        }
        Ok(Address { version, node_type, payload })
    }
}

proof fn lemma_type_id_injective(a: NodeType, b: NodeType)
    requires
        a != b,
    ensures
        spec_type_id(a) != spec_type_id(b),
{
}

pub(crate) proof fn lemma_type_of_id(t: NodeType, id: u8)
    requires
        spec_type_id(t) == id,
    ensures
        spec_type_of_id(id) == t,
{
}

/// `b` is a binary address frame that the binary reader accepts, with model `a`
pub open spec fn binary_decodes_to(b: Seq<u8>, a: AddressView) -> bool {
    &&& b.len() >= 6
    &&& b.subrange(0, 4) == spec_magic()
    &&& b[4] == 1
    &&& 1 <= b[5] <= 6
    &&& binary_frame_ok(b)
    &&& (binary_payload(b).len() > 0 || spec_type_of_id(b[5]) == NodeType::Data)
    &&& a == (AddressView { version: 1, node_type: spec_type_of_id(b[5]), payload: binary_payload(b) })
}

/// Binary round trip: the binary form of every well-formed address is read back
/// by `Address::from_binary` as that same address
pub proof fn lemma_binary_roundtrip(a: AddressView)
    requires
        a.wf(),
    ensures
        binary_decodes_to(spec_to_binary(a), a),
{
    let b = spec_to_binary(a);
    let len = a.payload.len() as u64;
    let enc = leb128(len);
    assert(b.subrange(0, 4) =~= spec_magic());
    assert(b.subrange(6, 6 + enc.len() as int) =~= enc);
    lemma_leb128_roundtrip(len, b, 6);
    assert(b.len() == 6 + enc.len() + a.payload.len());
    assert(binary_payload(b) =~= a.payload);
    lemma_type_of_id(a.node_type, spec_type_id(a.node_type));
}

/// The binary form is one to one: a byte string that the binary reader
/// accepts is exactly the binary form of the address it reads
pub proof fn lemma_binary_canonical(b: Seq<u8>)
    ensures
        binary_verdict(b) matches BinaryVerdict::Parsed(a) ==> spec_to_binary(a) == b,
{
    if let BinaryVerdict::Parsed(a) = binary_verdict(b) {
        let (v, j) = leb128_read(b, 6, 0, 0).unwrap();
        lemma_leb128_read_index(b, 6, 0, 0);
        assert(spec_type_id(spec_type_of_id(b[5])) == b[5]);
        assert(a.payload.len() == v);
        assert(b =~= b.subrange(0, 4) + seq![b[4], b[5]] + b.subrange(6, j) + b.subrange(j, b.len() as int));
        assert(spec_to_binary(a) =~= b);
    }
}

/// The canonical name of each node type
pub open spec fn node_type_name(t: NodeType) -> Seq<char> {
    match t {
        NodeType::Data => seq!['d', 'a', 't', 'a'],
        NodeType::Ref => seq!['r', 'e', 'f'],
        NodeType::Sequence => seq!['s', 'e', 'q'],
        NodeType::Rep => seq!['r', 'e', 'p'],
        NodeType::Slice => seq!['s', 'l', 'i', 'c', 'e'],
        NodeType::Page => seq!['p', 'a', 'g', 'e'],
    }
}

/// The node type a name stands for, ignoring ASCII case; the long forms
/// `reference`, `sequence` and `repeat` are accepted too
pub open spec fn type_of_name(s: Seq<char>) -> Option<NodeType> {
    let l = ascii_lower_seq(s);
    if l == seq!['d', 'a', 't', 'a'] {
        Some(NodeType::Data)
    } else if l == seq!['r', 'e', 'f'] || l == seq!['r', 'e', 'f', 'e', 'r', 'e', 'n', 'c', 'e'] {
        Some(NodeType::Ref)
    } else if l == seq!['s', 'e', 'q'] || l == seq!['s', 'e', 'q', 'u', 'e', 'n', 'c', 'e'] {
        Some(NodeType::Sequence)
    } else if l == seq!['r', 'e', 'p'] || l == seq!['r', 'e', 'p', 'e', 'a', 't'] {
        Some(NodeType::Rep)
    } else if l == seq!['s', 'l', 'i', 'c', 'e'] {
        Some(NodeType::Slice)
    } else if l == seq!['p', 'a', 'g', 'e'] {
        Some(NodeType::Page)
    } else {
        None
    }
}

impl NodeType {
    /// Return the canonical string identifier of this node type
    pub fn as_str(&self) -> (r: &'static str)
        ensures
            r@ == node_type_name(*self),
    {
        match self {
            NodeType::Data => {
                proof {
                    reveal_strlit("data");
                }
                assert("data"@ =~= node_type_name(*self));
                "data"
            },
            NodeType::Ref => {
                proof {
                    reveal_strlit("ref");
                }
                assert("ref"@ =~= node_type_name(*self));
                "ref"
            },
            NodeType::Sequence => {
                proof {
                    reveal_strlit("seq");
                }
                assert("seq"@ =~= node_type_name(*self));
                "seq"
            },
            NodeType::Rep => {
                proof {
                    reveal_strlit("rep");
                }
                assert("rep"@ =~= node_type_name(*self));
                "rep"
            },
            NodeType::Slice => {
                proof {
                    reveal_strlit("slice");
                }
                assert("slice"@ =~= node_type_name(*self));
                "slice"
            },
            NodeType::Page => {
                proof {
                    reveal_strlit("page");
                }
                assert("page"@ =~= node_type_name(*self));
                "page"
            },
        }
    }

    /// The characters of the canonical name
    fn name_chars(&self) -> (r: Vec<char>)
        ensures
            r@ == node_type_name(*self),
    {
        let r = match self {
            NodeType::Data => vec!['d', 'a', 't', 'a'],
            NodeType::Ref => vec!['r', 'e', 'f'],
            NodeType::Sequence => vec!['s', 'e', 'q'],
            NodeType::Rep => vec!['r', 'e', 'p'],
            NodeType::Slice => vec!['s', 'l', 'i', 'c', 'e'],
            NodeType::Page => vec!['p', 'a', 'g', 'e'],
        };
        assert(r@ =~= node_type_name(*self));
        r
    }

    /// Parse a node type name given as characters (case-insensitive)
    pub fn parse_name(s: &[char]) -> (r: Result<NodeType, AddressError>)
        ensures
            type_of_name(s@) matches Some(t) ==> r == Ok::<NodeType, AddressError>(t),
            type_of_name(s@) is None ==> (r matches Err(AddressError::UnknownNodeType(m)) && m@ == s@),
    {
        let l = lower_chars(s);
        let ls = l.as_slice();
        if chars_eq(ls, &['d', 'a', 't', 'a']) {
            Ok(NodeType::Data)
        } else if chars_eq(ls, &['r', 'e', 'f']) || chars_eq(ls, &['r', 'e', 'f', 'e', 'r', 'e', 'n', 'c', 'e']) {
            Ok(NodeType::Ref)
        } else if chars_eq(ls, &['s', 'e', 'q']) || chars_eq(ls, &['s', 'e', 'q', 'u', 'e', 'n', 'c', 'e']) {
            Ok(NodeType::Sequence)
        } else if chars_eq(ls, &['r', 'e', 'p']) || chars_eq(ls, &['r', 'e', 'p', 'e', 'a', 't']) {
            Ok(NodeType::Rep)
        } else if chars_eq(ls, &['s', 'l', 'i', 'c', 'e']) {
            Ok(NodeType::Slice)
        } else if chars_eq(ls, &['p', 'a', 'g', 'e']) {
            Ok(NodeType::Page)
        } else {
            Err(AddressError::UnknownNodeType(string_of(s)))
        }
    }
}

/// The canonical text URI of an address: `mfas:v<version>:<node_type>:<hex_payload>`
pub open spec fn spec_uri(a: AddressView) -> Seq<char> {
    seq!['m', 'f', 'a', 's', ':', 'v'] + decimal(a.version as nat) + seq![':'] + node_type_name(a.node_type)
        + seq![':'] + hex_lower(a.payload)
}

/// What parsing a URI yields: the parsed address, or which refusal, with the
/// text that the refusal reports
pub enum UriOutcome {
    Malformed(Seq<char>),
    BadPrefix(Seq<char>),
    BadVersion(Seq<char>),
    BadType(Seq<char>),
    Empty,
    OddHex(nat),
    BadHex,
    Parsed(AddressView),
}

/// The outcome of parsing `s` as an address URI: trim white space, split at `:`
/// into exactly four fields; the scheme must be `mfas` and the version `v1`
/// (ASCII case ignored), the node type a known name, and the payload an even
/// number of hexadecimal digits (an empty payload only for data nodes)
pub open spec fn uri_outcome(s: Seq<char>) -> UriOutcome {
    let t = trim_seq(s);
    let parts = split_colon(t);
    if parts.len() != 4 {
        UriOutcome::Malformed(t)
    } else if ascii_lower_seq(parts[0]) != seq!['m', 'f', 'a', 's'] {
        UriOutcome::BadPrefix(parts[0])
    } else {
        let v = ascii_lower_seq(parts[1]);
        if v.len() == 0 || v[0] != 'v' || parse_u8_text(v.drop_first()) != Some(1u8) {
            UriOutcome::BadVersion(parts[1])
        } else {
            match type_of_name(parts[2]) {
                None => UriOutcome::BadType(parts[2]),
                Some(nt) => {
                    let h = parts[3];
                    if h.len() == 0 {
                        if nt == NodeType::Data {
                            UriOutcome::Parsed(AddressView { version: 1, node_type: nt, payload: Seq::empty() })
                        } else {
                            UriOutcome::Empty
                        }
                    } else if (utf8_len(h) as usize) % 2 != 0 {
                        UriOutcome::OddHex((utf8_len(h) as usize) as nat)
                    } else if !is_hex_text(h) {
                        UriOutcome::BadHex
                    } else {
                        UriOutcome::Parsed(AddressView { version: 1, node_type: nt, payload: hex_bytes(h) })
                    }
                },
            }
        }
    }
}

proof fn lemma_lower_char(c: char)
    ensures
        is_white(ascii_lower(c)) == is_white(c),
        (ascii_lower(c) == ':') == (c == ':'),
        ascii_lower(ascii_lower(c)) == ascii_lower(c),
        hex_value(ascii_lower(c)) == hex_value(c),
        vstd::utf8::encode_scalar(ascii_lower(c) as u32).len() == vstd::utf8::encode_scalar(c as u32).len(),
{
    if 'A' <= c <= 'Z' {
        assert('a' <= ascii_lower(c) <= 'z');
        assert((ascii_lower(c) as u32) == (c as u32) + 32);
    }
}

proof fn lemma_trim_start_lower(s: Seq<char>)
    ensures
        trim_start_index(ascii_lower_seq(s)) == trim_start_index(s),
    decreases s.len(),
{
    if s.len() > 0 {
        lemma_lower_char(s[0]);
        assert(ascii_lower_seq(s).drop_first() =~= ascii_lower_seq(s.drop_first()));
        lemma_trim_start_lower(s.drop_first());
    }
}

proof fn lemma_trim_end_lower(s: Seq<char>)
    ensures
        trim_end_index(ascii_lower_seq(s)) == trim_end_index(s),
    decreases s.len(),
{
    if s.len() > 0 {
        lemma_lower_char(s.last());
        assert(ascii_lower_seq(s).drop_last() =~= ascii_lower_seq(s.drop_last()));
        lemma_trim_end_lower(s.drop_last());
    }
}

proof fn lemma_trim_bounds(s: Seq<char>)
    ensures
        0 <= trim_start_index(s) <= s.len(),
        0 <= trim_end_index(s) <= s.len(),
    decreases s.len(),
{
    if s.len() > 0 {
        lemma_trim_bounds(s.drop_first());
        lemma_trim_bounds(s.drop_last());
    }
}

proof fn lemma_trim_lower(s: Seq<char>)
    ensures
        trim_seq(ascii_lower_seq(s)) == ascii_lower_seq(trim_seq(s)),
{
    lemma_trim_start_lower(s);
    lemma_trim_end_lower(s);
    lemma_trim_bounds(s);
    let a = trim_start_index(s);
    let b = trim_end_index(s);
    if a < b {
        assert(ascii_lower_seq(s).subrange(a, b) =~= ascii_lower_seq(s.subrange(a, b)));
    } else {
        assert(ascii_lower_seq(Seq::<char>::empty()) =~= Seq::<char>::empty());
    }
}

proof fn lemma_split_lower(s: Seq<char>)
    ensures
        split_colon(ascii_lower_seq(s)) == split_colon(s).map_values(|p: Seq<char>| ascii_lower_seq(p)),
    decreases s.len(),
{
    let l = ascii_lower_seq(s);
    if s.len() == 0 {
        assert(l =~= Seq::<char>::empty());
        assert(ascii_lower_seq(Seq::<char>::empty()) =~= Seq::<char>::empty());
        assert(split_colon(s).map_values(|p: Seq<char>| ascii_lower_seq(p)) =~= seq![Seq::<char>::empty()]);
    } else {
        let d = s.drop_last();
        assert(l.drop_last() =~= ascii_lower_seq(d));
        assert(l.last() == ascii_lower(s.last()));
        lemma_lower_char(s.last());
        lemma_split_lower(d);
        let p = split_colon(d);
        crate::text::lemma_split_len(d);
        let pm = p.map_values(|q: Seq<char>| ascii_lower_seq(q));
        if s.last() == ':' {
            assert(split_colon(s).map_values(|q: Seq<char>| ascii_lower_seq(q)) =~= pm.push(ascii_lower_seq(Seq::<char>::empty())));
            assert(ascii_lower_seq(Seq::<char>::empty()) =~= Seq::<char>::empty());
        } else {
            assert(ascii_lower_seq(p.last().push(s.last())) =~= ascii_lower_seq(p.last()).push(ascii_lower(s.last())));
            assert(split_colon(s).map_values(|q: Seq<char>| ascii_lower_seq(q)) =~= pm.update(
                pm.len() - 1,
                pm.last().push(ascii_lower(s.last())),
            ));
        }
    }
}

proof fn lemma_lower_twice(s: Seq<char>)
    ensures
        ascii_lower_seq(ascii_lower_seq(s)) == ascii_lower_seq(s),
{
    assert forall|i: int| 0 <= i < s.len() implies ascii_lower_seq(ascii_lower_seq(s))[i] == ascii_lower_seq(s)[i] by {
        lemma_lower_char(s[i]);
    }
    assert(ascii_lower_seq(ascii_lower_seq(s)) =~= ascii_lower_seq(s));
}

proof fn lemma_utf8_lower(s: Seq<char>)
    ensures
        utf8_len(ascii_lower_seq(s)) == utf8_len(s),
    decreases s.len(),
{
    if s.len() > 0 {
        lemma_lower_char(s[0]);
        assert(ascii_lower_seq(s).drop_first() =~= ascii_lower_seq(s.drop_first()));
        lemma_utf8_lower(s.drop_first());
    }
}

proof fn lemma_hex_text_lower(h: Seq<char>)
    ensures
        is_hex_text(ascii_lower_seq(h)) == is_hex_text(h),
        hex_bytes(ascii_lower_seq(h)) == hex_bytes(h),
{
    let l = ascii_lower_seq(h);
    assert forall|i: int| 0 <= i < h.len() implies #[trigger] hex_value(l[i]) == hex_value(h[i]) by {
        lemma_lower_char(h[i]);
    }
    if is_hex_text(h) {
        assert forall|i: int| 0 <= i < l.len() implies (#[trigger] hex_value(l[i])) is Some by {
            assert(hex_value(l[i]) == hex_value(h[i]));
        }
    }
    if is_hex_text(l) {
        assert forall|i: int| 0 <= i < h.len() implies (#[trigger] hex_value(h[i])) is Some by {
            assert(hex_value(l[i]) == hex_value(h[i]));
        }
    }
    assert forall|i: int| 0 <= i < h.len() / 2 implies hex_bytes(l)[i] == hex_bytes(h)[i] by {
        assert(hex_value(l[2 * i]) == hex_value(h[2 * i]));
        assert(hex_value(l[2 * i + 1]) == hex_value(h[2 * i + 1]));
    }
    assert(hex_bytes(l) =~= hex_bytes(h));
}

/// URIs are read without regard to ASCII case: where either a URI or its
/// ASCII lower-cased form reads as an address, both read as the same one
pub proof fn lemma_uri_case_insensitive(s: Seq<char>)
    ensures
        (uri_outcome(s) is Parsed || uri_outcome(ascii_lower_seq(s)) is Parsed) ==> uri_outcome(ascii_lower_seq(s))
            == uri_outcome(s),
{
    let t = trim_seq(s);
    lemma_trim_lower(s);
    lemma_split_lower(t);
    let parts = split_colon(t);
    let lparts = split_colon(ascii_lower_seq(t));
    assert(lparts.len() == parts.len());
    if parts.len() == 4 {
        assert forall|i: int| 0 <= i < 4 implies #[trigger] lparts[i] == ascii_lower_seq(parts[i]) by {}
        lemma_lower_twice(parts[0]);
        lemma_lower_twice(parts[1]);
        lemma_lower_twice(parts[2]);
        assert(type_of_name(lparts[2]) == type_of_name(parts[2]));
        lemma_utf8_lower(parts[3]);
        lemma_hex_text_lower(parts[3]);
        assert(lparts[3].len() == parts[3].len());
    }
}

/// The parse result `r` is what `o` says: the same address, or the same error with the same text
pub open spec fn uri_result_is(r: Result<Address, AddressError>, o: UriOutcome) -> bool {
    match o {
        UriOutcome::Malformed(t) => r matches Err(AddressError::MalformedUri(m)) && m@ == t,
        UriOutcome::BadPrefix(t) => r matches Err(AddressError::InvalidPrefix(m)) && m@ == t,
        UriOutcome::BadVersion(t) => r matches Err(AddressError::InvalidVersion(m)) && m@ == t,
        UriOutcome::BadType(t) => r matches Err(AddressError::UnknownNodeType(m)) && m@ == t,
        UriOutcome::Empty => r == Err::<Address, AddressError>(AddressError::EmptyPayload),
        UriOutcome::OddHex(n) => r matches Err(AddressError::OddLengthHex(k)) && k == n,
        UriOutcome::BadHex => r matches Err(AddressError::InvalidHex(_)),
        UriOutcome::Parsed(v) => r matches Ok(a) && a@ == v,
    }
}

impl Address {
    /// Lowercase canonical hex string of the payload
    pub fn payload_hex(&self) -> (r: String)
        ensures
            r@ == hex_lower(self@.payload),
    {
        hex_encode(self.payload.as_slice())
    }

    /// Emit the canonical text URI representation: `mfas:v1:<node_type>:<hex_payload>`
    pub fn to_uri(&self) -> (r: String)
        ensures
            r@ == spec_uri(self@),
    {
        let mut out = String::new();
        push_chars(&mut out, &['m', 'f', 'a', 's', ':', 'v']);
        push_decimal(&mut out, self.version as u64);
        string_push(&mut out, ':');
        let name = self.node_type.name_chars();
        push_chars(&mut out, name.as_slice());
        string_push(&mut out, ':');
        let hex = self.payload_hex();
        let hex_chars = str_chars(hex.as_str());
        push_chars(&mut out, hex_chars.as_slice());
        assert(out@ =~= spec_uri(self@));
        out
    }

    /// Construct an address from a raw hex payload string
    pub fn from_hex(node_type: NodeType, hex_str: &str) -> (r: Result<Address, AddressError>)
        ensures
            ({
                let h = trim_seq(hex_str@);
                if h.len() == 0 {
                    if node_type == NodeType::Data {
                        r matches Ok(a) && a@ == (AddressView { version: 1, node_type, payload: Seq::empty() })
                    } else {
                        r == Err::<Address, AddressError>(AddressError::EmptyPayload)
                    }
                } else if (utf8_len(h) as usize) % 2 != 0 {
                    r matches Err(AddressError::OddLengthHex(k)) && k == utf8_len(h) as usize
                } else if !is_hex_text(h) {
                    r matches Err(AddressError::InvalidHex(_))
                } else {
                    r matches Ok(a) && a@ == (AddressView { version: 1, node_type, payload: hex_bytes(h) })
                }
            }),
            r matches Ok(a) ==> a@.wf(),
    {
        let all = str_chars(hex_str);
        let cleaned = trim_chars(all.as_slice());
        if cleaned.len() == 0 {
            if matches!(node_type, NodeType::Data) {
                return Address::new(node_type, Vec::new());
            }
            return Err(AddressError::EmptyPayload);
        }
        Self::decode_hex_payload(node_type, cleaned.as_slice())
    }

    /// Decode a non-empty hexadecimal payload field into an address of type `node_type`
    fn decode_hex_payload(node_type: NodeType, h: &[char]) -> (r: Result<Address, AddressError>)
        requires
            h@.len() > 0,
        ensures
            (utf8_len(h@) as usize) % 2 != 0 ==> (r matches Err(AddressError::OddLengthHex(k)) && k == utf8_len(h@) as usize),
            (utf8_len(h@) as usize) % 2 == 0 && !is_hex_text(h@) ==> (r matches Err(AddressError::InvalidHex(m)) && m@
                == crate::text::hex_refusal(h@)),
            (utf8_len(h@) as usize) % 2 == 0 && is_hex_text(h@) ==> (r matches Ok(a) && a@ == (AddressView { version: 1, node_type, payload: hex_bytes(h@) })),
            r matches Ok(a) ==> a@.wf(),
    {
        let text = string_of(h);
        let n = text.as_str().len();
        if n % 2 != 0 {
            return Err(AddressError::OddLengthHex(n));
        }
        match hex_decode(text.as_str()) {
            Ok(payload) => {
                assert(is_hex_text(text@));
                assert(h@.len() % 2 == 0 && h@.len() >= 2);
                assert(payload@.len() == h@.len() / 2);
                assert(payload@.len() == payload.len());
                Ok(Address { version: CURRENT_VERSION, node_type, payload })
            },
            Err(f) => {
                proof {
                    crate::text::lemma_hex_refusal(text@, f);
                }
                Err(AddressError::InvalidHex(crate::text::hex_fault_message(&f)))
            },
        }
    }
}

impl Address {
    /// Parse a canonical text URI `mfas:v1:<node_type>:<hex_payload>`
    /// (surrounding white space and ASCII case in scheme, version and type are ignored)
    pub fn parse_uri(s: &str) -> (r: Result<Address, AddressError>)
        ensures
            uri_result_is(r, uri_outcome(s@)),
            r matches Ok(a) ==> a@.wf(),
    {
        let all = str_chars(s);
        let t = trim_chars(all.as_slice());
        let parts = split_colon_chars(t.as_slice());
        let ghost pv = parts@.map_values(|v: Vec<char>| v@);
        if parts.len() != 4 {
            return Err(AddressError::MalformedUri(string_of(t.as_slice())));
        }
        assert(pv[0] == parts@[0]@ && pv[1] == parts@[1]@ && pv[2] == parts@[2]@ && pv[3] == parts@[3]@);
        let scheme = lower_chars(parts[0].as_slice());
        if !chars_eq(scheme.as_slice(), &['m', 'f', 'a', 's']) {
            assert(seq!['m', 'f', 'a', 's'] =~= ['m', 'f', 'a', 's']@);
            return Err(AddressError::InvalidPrefix(string_of(parts[0].as_slice())));
        }
        assert(seq!['m', 'f', 'a', 's'] =~= ['m', 'f', 'a', 's']@);
        let ver = lower_chars(parts[1].as_slice());
        if ver.len() == 0 || ver[0] != 'v' {
            return Err(AddressError::InvalidVersion(string_of(parts[1].as_slice())));
        }
        let num = parse_u8_chars(&ver.as_slice()[1..ver.len()]);
        assert(ver@.subrange(1, ver@.len() as int) =~= ver@.drop_first());
        match num {
            Some(v) => {
                if v != CURRENT_VERSION {
                    return Err(AddressError::InvalidVersion(string_of(parts[1].as_slice())));
                }
            },
            None => {
                return Err(AddressError::InvalidVersion(string_of(parts[1].as_slice())));
            },
        }
        let node_type = match NodeType::parse_name(parts[2].as_slice()) {
            Ok(nt) => nt,
            Err(e) => return Err(e),
        };
        let h = parts[3].as_slice();
        if h.len() == 0 {
            if matches!(node_type, NodeType::Data) {
                let a = Address { version: CURRENT_VERSION, node_type, payload: Vec::new() };
                assert(a@.payload =~= Seq::<u8>::empty());
                return Ok(a);
            }
            return Err(AddressError::EmptyPayload);
        }
        Self::decode_hex_payload(node_type, h)
    }
}

impl FromStr for NodeType {
    type Err = AddressError;

    fn from_str(s: &str) -> (r: Result<NodeType, AddressError>)
        ensures
            type_of_name(s@) matches Some(t) ==> r == Ok::<NodeType, AddressError>(t),
            type_of_name(s@) is None ==> (r matches Err(AddressError::UnknownNodeType(m)) && m@ == s@),
    {
        let cs = str_chars(s);
        NodeType::parse_name(cs.as_slice())
    }
}

impl FromStr for Address {
    type Err = AddressError;

    fn from_str(s: &str) -> (r: Result<Address, AddressError>)
        ensures
            uri_result_is(r, uri_outcome(s@)),
            r matches Ok(a) ==> a@.wf(),
    {
        Address::parse_uri(s)
    }
}

proof fn lemma_hex_lower_shape(p: Seq<u8>)
    ensures
        hex_lower(p).len() == 2 * p.len(),
        forall|i: int| 0 <= i < p.len() ==> {
            &&& #[trigger] hex_lower(p)[2 * i] == hex_digit_lower((p[i] / 16) as nat)
            &&& hex_lower(p)[2 * i + 1] == hex_digit_lower((p[i] % 16) as nat)
        },
    decreases p.len(),
{
    if p.len() > 0 {
        let q = p.drop_last();
        lemma_hex_lower_shape(q);
        assert forall|i: int| 0 <= i < p.len() implies {
            &&& #[trigger] hex_lower(p)[2 * i] == hex_digit_lower((p[i] / 16) as nat)
            &&& hex_lower(p)[2 * i + 1] == hex_digit_lower((p[i] % 16) as nat)
        } by {
            if i < q.len() {
                assert(hex_lower(p)[2 * i] == hex_lower(q)[2 * i]);
                assert(hex_lower(p)[2 * i + 1] == hex_lower(q)[2 * i + 1]);
                assert(q[i] == p[i]);
            }
        }
    }
}

pub(crate) proof fn lemma_hex_digit_value(d: nat)
    requires
        d < 16,
    ensures
        hex_value(hex_digit_lower(d)) == Some(d as u8),
        ('\0' <= hex_digit_lower(d) <= '\u{7f}'),
        hex_digit_lower(d) != ':',
        !is_white(hex_digit_lower(d)),
{
}

proof fn lemma_hex_roundtrip(p: Seq<u8>)
    ensures
        is_hex_text(hex_lower(p)),
        hex_bytes(hex_lower(p)) == p,
        vstd::utf8::is_ascii_chars(hex_lower(p)),
        forall|k: int| 0 <= k < hex_lower(p).len() ==> #[trigger] hex_lower(p)[k] != ':' && !is_white(hex_lower(p)[k]),
{
    let h = hex_lower(p);
    lemma_hex_lower_shape(p);
    assert forall|k: int| 0 <= k < h.len() implies {
        &&& hex_value(#[trigger] h[k]) is Some
        &&& ('\0' <= h[k] <= '\u{7f}')
        &&& h[k] != ':'
        &&& !is_white(h[k])
    } by {
        let i = k / 2;
        assert(0 <= i < p.len());
        assert(h[2 * i] == hex_digit_lower((p[i] / 16) as nat));
        lemma_hex_digit_value((p[i] / 16) as nat);
        lemma_hex_digit_value((p[i] % 16) as nat);
        if k % 2 == 0 {
            assert(k == 2 * i);
        } else {
            assert(k == 2 * i + 1);
        }
    }
    assert forall|i: int| 0 <= i < p.len() implies #[trigger] hex_bytes(h)[i] == p[i] by {
        lemma_hex_digit_value((p[i] / 16) as nat);
        lemma_hex_digit_value((p[i] % 16) as nat);
        assert(h[2 * i] == hex_digit_lower((p[i] / 16) as nat));
    }
    assert(hex_bytes(h) =~= p);
}

proof fn lemma_lower_identity(s: Seq<char>)
    requires
        forall|k: int| 0 <= k < s.len() ==> !('A' <= #[trigger] s[k] <= 'Z'),
    ensures
        ascii_lower_seq(s) == s,
{
    assert(ascii_lower_seq(s) =~= s);
}

proof fn lemma_four_fields(p0: Seq<char>, p1: Seq<char>, p2: Seq<char>, p3: Seq<char>)
    requires
        forall|k: int| 0 <= k < p0.len() ==> #[trigger] p0[k] != ':',
        forall|k: int| 0 <= k < p1.len() ==> #[trigger] p1[k] != ':',
        forall|k: int| 0 <= k < p2.len() ==> #[trigger] p2[k] != ':',
        forall|k: int| 0 <= k < p3.len() ==> #[trigger] p3[k] != ':',
    ensures
        split_colon(p0 + seq![':'] + p1 + seq![':'] + p2 + seq![':'] + p3) == seq![p0, p1, p2, p3],
{
    let e = Seq::<char>::empty();
    lemma_split_no_colon(e, p0);
    assert(e + p0 =~= p0);
    assert(split_colon(e) =~= seq![e]);
    assert(split_colon(p0) =~= seq![p0]);
    lemma_split_colon_step(p0);
    let x1 = p0.push(':');
    lemma_split_no_colon(x1, p1);
    assert(split_colon(x1 + p1) =~= seq![p0, p1]);
    lemma_split_colon_step(x1 + p1);
    let x2 = (x1 + p1).push(':');
    lemma_split_no_colon(x2, p2);
    assert(split_colon(x2 + p2) =~= seq![p0, p1, p2]);
    lemma_split_colon_step(x2 + p2);
    let x3 = (x2 + p2).push(':');
    lemma_split_no_colon(x3, p3);
    assert(split_colon(x3 + p3) =~= seq![p0, p1, p2, p3]);
    assert(x3 + p3 =~= p0 + seq![':'] + p1 + seq![':'] + p2 + seq![':'] + p3);
}

proof fn lemma_version_one()
    ensures
        parse_u8_text(seq!['1']) == Some(1u8),
        decimal(1nat) == seq!['1'],
{
    assert(strip_plus(seq!['1']) =~= seq!['1']);
    reveal_with_fuel(decimal_value, 2);
    assert(seq!['1'].drop_last() =~= Seq::<char>::empty());
    assert(decimal_value(seq!['1']) == 1);
    assert(all_digits(seq!['1']));
}

/// URI round trip: parsing the canonical URI of a well-formed address gives back
/// that address (the URI must fit in memory: twice the payload length at most
/// the size of the address space)
#[verifier::rlimit(50)]
pub proof fn lemma_uri_roundtrip(a: AddressView)
    requires
        a.wf(),
        2 * a.payload.len() <= usize::MAX,
    ensures
        uri_outcome(spec_uri(a)) == UriOutcome::Parsed(a),
{
    let name = node_type_name(a.node_type);
    let h = hex_lower(a.payload);
    lemma_hex_roundtrip(a.payload);
    lemma_hex_lower_shape(a.payload);
    lemma_version_one();
    let p0 = seq!['m', 'f', 'a', 's'];
    let p1 = seq!['v', '1'];
    let u = spec_uri(a);
    assert(u =~= p0 + seq![':'] + p1 + seq![':'] + name + seq![':'] + h);
    assert(!is_white(u[0]));
    assert(!is_white(u.last()));
    assert(trim_seq(u) =~= u);
    lemma_four_fields(p0, p1, name, h);
    lemma_lower_identity(p0);
    lemma_lower_identity(p1);
    lemma_lower_identity(name);
    assert(p1.drop_first() =~= seq!['1']);
    assert(type_of_name(name) == Some(a.node_type));
    if a.payload.len() > 0 {
        vstd::utf8::is_ascii_chars_encode_utf8(h);
        assert(utf8_len(h) == h.len());
    } else {
        assert(h.len() == 0);
        assert(a.payload =~= Seq::<u8>::empty());
    }
}

/// What the binary reader makes of a byte string
pub enum BinaryVerdict {
    Short,
    BadMagic(Seq<u8>),
    BadVersion(u8),
    BadType(u8),
    BadFrame,
    Empty,
    Parsed(AddressView),
}

/// The verdict of `Address::from_binary` on `b`, check by check in the order the reader makes them
pub open spec fn binary_verdict(b: Seq<u8>) -> BinaryVerdict {
    if b.len() < 6 {
        BinaryVerdict::Short
    } else if b.subrange(0, 4) != spec_magic() {
        BinaryVerdict::BadMagic(b.subrange(0, 4))
    } else if b[4] != 1 {
        BinaryVerdict::BadVersion(b[4])
    } else if !(1 <= b[5] <= 6) {
        BinaryVerdict::BadType(b[5])
    } else if !binary_frame_ok(b) {
        BinaryVerdict::BadFrame
    } else if binary_payload(b).len() == 0 && spec_type_of_id(b[5]) != NodeType::Data {
        BinaryVerdict::Empty
    } else {
        BinaryVerdict::Parsed(AddressView { version: 1, node_type: spec_type_of_id(b[5]), payload: binary_payload(b) })
    }
}

/// The reader's result `r` is what verdict `v` says
pub open spec fn binary_result_is(r: Result<Address, AddressError>, v: BinaryVerdict) -> bool {
    match v {
        BinaryVerdict::Short => r == Err::<Address, AddressError>(AddressError::MalformedBinaryPayload),
        BinaryVerdict::BadMagic(m) => r matches Err(AddressError::InvalidBinaryMagic(x)) && x@ == m,
        BinaryVerdict::BadVersion(x) => r == Err::<Address, AddressError>(AddressError::UnsupportedBinaryVersion(x)),
        BinaryVerdict::BadType(x) => r == Err::<Address, AddressError>(AddressError::UnknownBinaryTypeId(x)),
        BinaryVerdict::BadFrame => r == Err::<Address, AddressError>(AddressError::MalformedBinaryPayload),
        BinaryVerdict::Empty => r == Err::<Address, AddressError>(AddressError::EmptyPayload),
        BinaryVerdict::Parsed(a) => r matches Ok(x) && x@ == a,
    }
}

/// The verdict on the binary form of a well-formed address is that address
pub proof fn lemma_binary_verdict_roundtrip(a: AddressView)
    requires
        a.wf(),
    ensures
        binary_verdict(spec_to_binary(a)) == BinaryVerdict::Parsed(a),
{
    lemma_binary_roundtrip(a);
}

} // verus!
