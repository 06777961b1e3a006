//! The calls this library makes into outside crates, each with the contract
//! that the crate's documentation and source give it.

use vstd::prelude::*;
use sha2::{Digest, Sha256};
use num_bigint::BigUint;
use std::str::FromStr;
use crate::util::be_value;
use crate::text::decimal;

verus! {

/// The lower-case hexadecimal digit for `d < 16`
pub open spec fn hex_digit_lower(d: nat) -> char {
    if d < 10 {
        ((d + 48) as u32) as char
    } else {
        ((d + 87) as u32) as char
    }
}

/// Lower-case hexadecimal text of `b`: two digits per byte, high nibble first
pub open spec fn hex_lower(b: Seq<u8>) -> Seq<char>
    decreases b.len(),
{
    if b.len() == 0 {
        Seq::empty()
    } else {
        hex_lower(b.drop_last()) + seq![hex_digit_lower((b.last() / 16) as nat), hex_digit_lower((b.last() % 16) as nat)]
    }
}

/// The value of a hexadecimal digit character (either case), if it is one
pub open spec fn hex_value(c: char) -> Option<u8> {
    if '0' <= c <= '9' {
        Some(((c as u32) - 48) as u8)
    } else if 'a' <= c <= 'f' {
        Some(((c as u32) - 87) as u8)
    } else if 'A' <= c <= 'F' {
        Some(((c as u32) - 55) as u8)
    } else {
        None
    }
}

/// Text that `hex::decode` accepts: an even number of hexadecimal digits
pub open spec fn is_hex_text(s: Seq<char>) -> bool {
    &&& s.len() % 2 == 0
    &&& forall|i: int| 0 <= i < s.len() ==> (#[trigger] hex_value(s[i])) is Some
}

/// The bytes that hexadecimal text stands for, two digits per byte, high nibble first
pub open spec fn hex_bytes(s: Seq<char>) -> Seq<u8> {
    Seq::new(
        s.len() / 2,
        |i: int| (hex_value(s[2 * i]).unwrap() * 16 + hex_value(s[2 * i + 1]).unwrap()) as u8,
    )
}

/// Why `hex::decode` refused a text: the variants of its `FromHexError`
#[derive(Debug, Clone, Copy)]
pub enum HexFault {
    /// A byte that is no hexadecimal digit (taken as a character), and its position
    InvalidCharacter { c: char, index: usize },
    /// An odd number of bytes
    OddLength,
    /// A length that does not fit a fixed-size output
    InvalidStringLength,
}

/// Position `i` of `b` holds the first byte that is no hexadecimal digit
pub open spec fn first_non_hex(b: Seq<u8>, i: int) -> bool {
    &&& 0 <= i < b.len()
    &&& hex_value(b[i] as char) is None
    &&& forall|j: int| 0 <= j < i ==> (#[trigger] hex_value(b[j] as char)) is Some
}

/// `hex::encode`: the lower-case hexadecimal text of `data`
#[verifier::external_body]
pub(crate) fn hex_encode(data: &[u8]) -> (r: String)
    ensures
        r@ == hex_lower(data@),
{
    hex::encode(data)
}

/// `hex::decode` on the UTF-8 bytes of `s`: it succeeds exactly when `s` is an
/// even number of hexadecimal digits (any other character, ASCII or not, is
/// refused), and then gives the bytes they stand for. It refuses an odd
/// number of bytes as such; otherwise it names the first byte that is no
/// digit, taken as a character, with its position.
#[verifier::external_body]
pub(crate) fn hex_decode(s: &str) -> (r: Result<Vec<u8>, HexFault>)
    ensures
        r is Ok <==> is_hex_text(s@),
        r matches Ok(v) ==> v@ == hex_bytes(s@),
        (r matches Err(HexFault::OddLength)) <==> vstd::utf8::encode_utf8(s@).len() % 2 == 1,
        r matches Err(HexFault::InvalidCharacter { c, index }) ==> first_non_hex(vstd::utf8::encode_utf8(s@), index as int)
            && c == (vstd::utf8::encode_utf8(s@)[index as int] as char),
        !(r matches Err(HexFault::InvalidStringLength)),
{
    match hex::decode(s) {
        Ok(v) => Ok(v),
        Err(hex::FromHexError::InvalidHexCharacter { c, index }) => Err(HexFault::InvalidCharacter { c, index }),
        Err(hex::FromHexError::OddLength) => Err(HexFault::OddLength),
        Err(hex::FromHexError::InvalidStringLength) => Err(HexFault::InvalidStringLength),
    }
}

/// What `format!("{:?}", c)` gives for a character: `c` between single
/// quotes, escaped as `char::escape_debug` escapes it
pub uninterp spec fn char_debug_text(c: char) -> Seq<char>;

/// `<char as Debug>::fmt` through `format!("{:?}", c)`: an ASCII graphic
/// character other than a quote or a backslash comes out between single
/// quotes as it is; the escapes of other characters are not stated
#[verifier::external_body]
pub(crate) fn char_debug(c: char) -> (r: String)
    ensures
        r@ == char_debug_text(c),
        (' ' <= c <= '~' && c != '\'' && c != '"' && c != '\\') ==> r@ == seq!['\'', c, '\''],
{
    format!("{:?}", c)
}

/// The SHA-256 digest of `data` (FIPS 180-4), 32 bytes
pub uninterp spec fn sha256_of(data: Seq<u8>) -> [u8; 32];

/// `sha2::Sha256::digest`: the digest of `data`, which is 32 bytes long
#[verifier::external_body]
pub(crate) fn sha256_digest(data: &[u8]) -> (r: Vec<u8>)
    ensures
        r@ == sha256_of(data@)@,
        r@.len() == 32,
{
    Sha256::digest(data).to_vec()
}

} // verus!

verus! {

/// A SHA-256 hasher (`sha2::Sha256`, which Verus cannot declare: it is a
/// generic wrapper type behind an alias). Only the wrappers below touch it.
#[verifier::external_body]
pub struct Sha256Hasher {
    inner: Sha256,
}

/// The bytes a SHA-256 hasher has absorbed so far
pub uninterp spec fn sha256_absorbed(h: Sha256Hasher) -> Seq<u8>;

/// `Sha256::new`: a hasher that has absorbed nothing
#[verifier::external_body]
pub(crate) fn sha256_new() -> (r: Sha256Hasher)
    ensures
        sha256_absorbed(r) == Seq::<u8>::empty(),
{
    Sha256Hasher { inner: Sha256::new() }
}

/// `Digest::update`: the hasher absorbs `data` after what it absorbed before
#[verifier::external_body]
pub(crate) fn sha256_update(h: &mut Sha256Hasher, data: &[u8])
    ensures
        sha256_absorbed(*final(h)) == sha256_absorbed(*old(h)) + data@,
{
    h.inner.update(data)
}

/// `Digest::finalize`: the digest of everything the hasher absorbed, 32 bytes long
#[verifier::external_body]
pub(crate) fn sha256_finalize(h: Sha256Hasher) -> (r: Vec<u8>)
    ensures
        r@ == sha256_of(sha256_absorbed(h))@,
        r@.len() == 32,
{
    h.inner.finalize().to_vec()
}

} // verus!

verus! {

/// `2` to the power `e`
pub open spec fn pow2(e: nat) -> nat
    decreases e,
{
    if e == 0 {
        1
    } else {
        2 * pow2((e - 1) as nat)
    }
}

/// The bytes num-bigint gives for `v` (`BigUint::to_bytes_be`): big-endian,
/// the fewest that hold it, a single zero byte for zero
pub open spec fn canon(v: nat) -> Seq<u8>
    decreases v,
{
    if v < 256 {
        seq![v as u8]
    } else {
        canon(v / 256).push((v % 256) as u8)
    }
}

/// `BigUint::from_bytes_be`: the number whose big-endian bytes are `b`
#[verifier::external_body]
pub(crate) fn big_from_be(b: &[u8]) -> (r: Vec<u8>)
    ensures
        r@ == canon(be_value(b@)),
{
    BigUint::from_bytes_be(b).to_bytes_be()
}

/// `BigUint + BigUint`: the sum
#[verifier::external_body]
pub(crate) fn big_add(a: &[u8], b: &[u8]) -> (r: Vec<u8>)
    ensures
        r@ == canon(be_value(a@) + be_value(b@)),
{
    (BigUint::from_bytes_be(a) + BigUint::from_bytes_be(b)).to_bytes_be()
}

/// `BigUint - BigUint`: the difference (num-bigint panics where it would be negative)
#[verifier::external_body]
pub(crate) fn big_sub(a: &[u8], b: &[u8]) -> (r: Vec<u8>)
    requires
        be_value(a@) >= be_value(b@),
    ensures
        r@ == canon((be_value(a@) - be_value(b@)) as nat),
{
    (BigUint::from_bytes_be(a) - BigUint::from_bytes_be(b)).to_bytes_be()
}

/// `BigUint * u32`: the product
#[verifier::external_body]
pub(crate) fn big_mul_u32(a: &[u8], k: u32) -> (r: Vec<u8>)
    ensures
        r@ == canon(be_value(a@) * (k as nat)),
{
    (BigUint::from_bytes_be(a) * k).to_bytes_be()
}

/// `BigUint / u32`: the quotient, rounded down (num-bigint panics on a zero divisor)
#[verifier::external_body]
pub(crate) fn big_div_u32(a: &[u8], k: u32) -> (r: Vec<u8>)
    requires
        k > 0,
    ensures
        r@ == canon(be_value(a@) / (k as nat)),
{
    (BigUint::from_bytes_be(a) / k).to_bytes_be()
}

/// `BigUint << usize`: the number times `2^bits`
#[verifier::external_body]
pub(crate) fn big_shl(a: &[u8], bits: usize) -> (r: Vec<u8>)
    ensures
        r@ == canon(be_value(a@) * pow2(bits as nat)),
{
    (BigUint::from_bytes_be(a) << bits).to_bytes_be()
}

/// `BigUint::bits`: the fewest bits that express the number
#[verifier::external_body]
pub(crate) fn big_bits(a: &[u8]) -> (r: u64)
    ensures
        be_value(a@) == 0 ==> r == 0,
        be_value(a@) > 0 ==> r >= 1 && pow2((r - 1) as nat) <= be_value(a@) < pow2(r as nat),
{
    BigUint::from_bytes_be(a).bits()
}


/// How num-bigint reads decimal text
pub enum DecimalParse {
    /// Nothing to read (after an optional single `+`)
    Empty,
    /// A character that is neither a decimal digit nor `_`, or a leading `_`
    Invalid,
    /// The number the digits stand for
    Value(nat),
}

/// The digits of `t` read in base ten, each `_` skipped
pub open spec fn digits_value(t: Seq<char>) -> nat
    decreases t.len(),
{
    if t.len() == 0 {
        0
    } else if t.last() == '_' {
        digits_value(t.drop_last())
    } else {
        digits_value(t.drop_last()) * 10 + ((t.last() as u32) - 48) as nat
    }
}

/// Every character of `t` is a decimal digit or `_`
pub open spec fn digits_or_underscores(t: Seq<char>) -> bool {
    forall|k: int| 0 <= k < t.len() ==> ('0' <= #[trigger] t[k] <= '9' || t[k] == '_')
}

/// `BigUint::from_str_radix(s, 10)`: one leading `+` is dropped unless a
/// second follows; then the text must be non-empty, must not start with `_`,
/// and may hold only decimal digits and `_`, which is skipped
pub open spec fn big_decimal_parse(s: Seq<char>) -> DecimalParse {
    let t = if s.len() > 0 && s[0] == '+' && !(s.len() > 1 && s[1] == '+') {
        s.drop_first()
    } else {
        s
    };
    if t.len() == 0 {
        DecimalParse::Empty
    } else if t[0] == '_' || !digits_or_underscores(t) {
        DecimalParse::Invalid
    } else {
        DecimalParse::Value(digits_value(t))
    }
}

/// `BigUint::from_str`: the number that the decimal text `s` stands for, as
/// num-bigint's big-endian bytes; on a refusal, the error's message
/// (`ParseBigIntError`'s `Display` text for an empty or an invalid input)
#[verifier::external_body]
pub(crate) fn big_parse_decimal(s: &str) -> (r: Result<Vec<u8>, String>)
    ensures
        match big_decimal_parse(s@) {
            DecimalParse::Value(v) => r matches Ok(b) && b@ == canon(v),
            DecimalParse::Empty => r matches Err(m) && m@ == "cannot parse integer from empty string"@,
            DecimalParse::Invalid => r matches Err(m) && m@ == "invalid digit found in string"@,
        },
{
    match BigUint::from_str(s) {
        Ok(n) => Ok(n.to_bytes_be()),
        Err(e) => Err(e.to_string()),
    }
}

/// `BigUint::to_string`: the decimal notation of the number whose big-endian bytes are `a`
#[verifier::external_body]
pub(crate) fn big_to_decimal(a: &[u8]) -> (r: String)
    ensures
        r@ == decimal(be_value(a@)),
{
    BigUint::from_bytes_be(a).to_string()
}


/// The digits of `t` read in base sixteen (either case), each `_` skipped
pub open spec fn hex_digits_value(t: Seq<char>) -> nat
    decreases t.len(),
{
    if t.len() == 0 {
        0
    } else if t.last() == '_' {
        hex_digits_value(t.drop_last())
    } else {
        hex_digits_value(t.drop_last()) * 16 + match hex_value(t.last()) {
            Some(d) => d as nat,
            None => 0,
        }
    }
}

/// Every character of `t` is a hexadecimal digit or `_`
pub open spec fn hex_digits_or_underscores(t: Seq<char>) -> bool {
    forall|k: int| 0 <= k < t.len() ==> (hex_value(#[trigger] t[k]) is Some || t[k] == '_')
}

/// `BigUint::from_str_radix(s, 16)`: as `big_decimal_parse`, with the
/// hexadecimal digits of either case in place of the decimal ones
pub open spec fn big_hex_parse(s: Seq<char>) -> DecimalParse {
    let t = if s.len() > 0 && s[0] == '+' && !(s.len() > 1 && s[1] == '+') {
        s.drop_first()
    } else {
        s
    };
    if t.len() == 0 {
        DecimalParse::Empty
    } else if t[0] == '_' || !hex_digits_or_underscores(t) {
        DecimalParse::Invalid
    } else {
        DecimalParse::Value(hex_digits_value(t))
    }
}

/// `BigUint::from_str_radix(s, 16)`: the number that the hexadecimal text
/// `s` stands for, as num-bigint's big-endian bytes; on a refusal, the
/// error's message
#[verifier::external_body]
pub(crate) fn big_parse_hex(s: &str) -> (r: Result<Vec<u8>, String>)
    ensures
        match big_hex_parse(s@) {
            DecimalParse::Value(v) => r matches Ok(b) && b@ == canon(v),
            DecimalParse::Empty => r matches Err(m) && m@ == "cannot parse integer from empty string"@,
            DecimalParse::Invalid => r matches Err(m) && m@ == "invalid digit found in string"@,
        },
{
    match <BigUint as num_traits::Num>::from_str_radix(s, 16) {
        Ok(n) => Ok(n.to_bytes_be()),
        Err(e) => Err(e.to_string()),
    }
}

/// Lower-case hexadecimal notation of `n`, without leading zeros (`format!("{:x}", n)`)
pub open spec fn hex_notation(n: nat) -> Seq<char>
    decreases n,
{
    if n < 16 {
        seq![hex_digit_lower(n)]
    } else {
        hex_notation(n / 16).push(hex_digit_lower(n % 16))
    }
}

/// `format!("{:x}", BigUint)`: the lower-case hexadecimal notation of the
/// number whose big-endian bytes are `a`
#[verifier::external_body]
pub(crate) fn big_to_hex(a: &[u8]) -> (r: String)
    ensures
        r@ == hex_notation(be_value(a@)),
{
    format!("{:x}", BigUint::from_bytes_be(a))
}


/// The value of a digit character in bases up to 36 (`0`-`9`, then the
/// letters of either case), if it is one
pub open spec fn radix_digit(c: char) -> Option<nat> {
    if '0' <= c <= '9' {
        Some(((c as u32) - 48) as nat)
    } else if 'a' <= c <= 'z' {
        Some(((c as u32) - 87) as nat)
    } else if 'A' <= c <= 'Z' {
        Some(((c as u32) - 55) as nat)
    } else {
        None
    }
}

/// Every character of `t` is a digit of base `radix`
pub open spec fn all_radix_digits(t: Seq<char>, radix: nat) -> bool {
    forall|k: int| 0 <= k < t.len() ==> (radix_digit(#[trigger] t[k]) matches Some(d) && d < radix)
}

/// The value of the digits `t` in base `radix`
pub open spec fn radix_value(t: Seq<char>, radix: nat) -> nat
    decreases t.len(),
{
    if t.len() == 0 {
        0
    } else {
        radix_value(t.drop_last(), radix) * radix + match radix_digit(t.last()) {
            Some(d) => d,
            None => 0,
        }
    }
}

/// `u64::from_str_radix(s, radix)`: one leading `+` is dropped; then at least
/// one digit of the base, all digits of the base, and a value that fits
pub open spec fn u64_reading(s: Seq<char>, radix: nat) -> Option<u64> {
    let t = if s.len() > 0 && s[0] == '+' { s.drop_first() } else { s };
    if t.len() == 0 || !all_radix_digits(t, radix) || radix_value(t, radix) > u64::MAX {
        None
    } else {
        Some(radix_value(t, radix) as u64)
    }
}

/// `u64::from_str_radix`: the number the text stands for in base `radix`,
/// or the error's message (which is not stated)
#[verifier::external_body]
pub(crate) fn u64_from_str_radix(s: &str, radix: u32) -> (r: Result<u64, String>)
    requires
        2 <= radix <= 36,
    ensures
        match u64_reading(s@, radix as nat) {
            Some(v) => r == Ok::<u64, String>(v),
            None => r is Err,
        },
{
    match u64::from_str_radix(s, radix) {
        Ok(v) => Ok(v),
        Err(e) => Err(e.to_string()),
    }
}

} // verus!
