//! The bijection between the natural numbers and finite byte strings:
//! length-partitioned bijective base 256, which tells apart strings that
//! differ only in leading zeros

use vstd::prelude::*;
use crate::ext::{
    canon, pow2, big_add, big_bits, big_div_u32, big_from_be, big_mul_u32, big_shl, big_sub, big_parse_decimal,
    big_parse_hex, big_to_decimal, big_to_hex, big_decimal_parse, big_hex_parse, hex_notation, DecimalParse,
};
use crate::text::{decimal, str_chars, string_of, trim_chars, trim_seq};
use crate::util::{append_bytes, be_value, pow256, lemma_be_value_bound, lemma_be_injective, push_be, be_bytes, lemma_be_bytes_len, lemma_be_roundtrip};

verus! {

broadcast use vstd::std_specs::vec::group_vec_axioms;

/// A natural number of any size, held as num-bigint's big-endian bytes
#[derive(Debug, PartialEq, Eq)]
pub struct Natural {
    digits: Vec<u8>,
}

impl View for Natural {
    type V = nat;

    closed spec fn view(&self) -> nat {
        be_value(self.digits@)
    }
}

/// The number of byte strings shorter than `len`: `256^0 + ... + 256^(len-1)`
pub open spec fn offset(len: nat) -> nat
    decreases len,
{
    if len == 0 {
        0
    } else {
        offset((len - 1) as nat) + pow256((len - 1) as nat)
    }
}

/// The natural number of a byte string: the strings shorter than it come
/// first, then those of its length in big-endian order
pub open spec fn number_of(b: Seq<u8>) -> nat {
    offset(b.len()) + be_value(b)
}

/// num-bigint's bytes of a number stand for that number
pub proof fn lemma_canon_value(v: nat)
    ensures
        be_value(canon(v)) == v,
    decreases v,
{
    let c = canon(v);
    if v < 256 {
        assert(c == seq![v as u8]);
        assert(c.drop_last() =~= Seq::<u8>::empty());
        assert(be_value(Seq::<u8>::empty()) == 0);
        assert(be_value(c) == be_value(c.drop_last()) * 256 + c.last() as nat);
    } else {
        lemma_canon_value(v / 256);
        assert(c.drop_last() =~= canon(v / 256));
        assert(c.last() == (v % 256) as u8);
        assert(be_value(c) == be_value(canon(v / 256)) * 256 + v % 256);
        assert(v == (v / 256) * 256 + v % 256) by (nonlinear_arith);
    }
}

pub(crate) proof fn lemma_canon_len(v: nat, l: nat)
    requires
        l >= 1,
        v < pow256(l),
    ensures
        canon(v).len() <= l,
    decreases v,
{
    if v >= 256 {
        assert(l >= 2) by {
            if l == 1 {
                assert(pow256(1) == 256 * pow256(0));
            }
        }
        assert(v / 256 < pow256((l - 1) as nat)) by (nonlinear_arith)
            requires v < pow256(l), pow256(l) == 256 * pow256((l - 1) as nat);
        lemma_canon_len(v / 256, (l - 1) as nat);
    }
}

proof fn lemma_canon_len_low(v: nat, k: nat)
    requires
        v >= pow256(k),
    ensures
        canon(v).len() >= k + 1,
    decreases k,
{
    if k > 0 {
        assert(pow256(k) == 256 * pow256((k - 1) as nat));
        lemma_pow256_pos((k - 1) as nat);
        assert(v >= 256) by (nonlinear_arith)
            requires v >= 256 * pow256((k - 1) as nat), pow256((k - 1) as nat) >= 1;
        assert(v / 256 >= pow256((k - 1) as nat)) by (nonlinear_arith)
            requires v >= 256 * pow256((k - 1) as nat);
        lemma_canon_len_low(v / 256, (k - 1) as nat);
    }
}

proof fn lemma_pow256_pos(k: nat)
    ensures
        pow256(k) >= 1,
    decreases k,
{
    if k > 0 {
        lemma_pow256_pos((k - 1) as nat);
    }
}

proof fn lemma_pow2_pos(k: nat)
    ensures
        pow2(k) >= 1,
    decreases k,
{
    if k > 0 {
        lemma_pow2_pos((k - 1) as nat);
    }
}

proof fn lemma_pow2_add(a: nat, b: nat)
    ensures
        pow2(a + b) == pow2(a) * pow2(b),
    decreases b,
{
    if b > 0 {
        let b1 = (b - 1) as nat;
        lemma_pow2_add(a, b1);
        assert(a + b == (a + b1) + 1);
        assert(pow2(a + b) == 2 * pow2(a + b1));
        assert(pow2(b) == 2 * pow2(b1));
        assert(2 * (pow2(a) * pow2(b1)) == pow2(a) * (2 * pow2(b1))) by (nonlinear_arith);
    } else {
        assert(pow2(0) == 1);
        assert(a + b == a);
        assert(pow2(a) * 1 == pow2(a));
    }
}

proof fn lemma_pow2_mono(a: nat, b: nat)
    requires
        a <= b,
    ensures
        pow2(a) <= pow2(b),
{
    lemma_pow2_add(a, (b - a) as nat);
    lemma_pow2_pos((b - a) as nat);
    lemma_pow2_pos(a);
    assert(pow2(a) <= pow2(a) * pow2((b - a) as nat)) by (nonlinear_arith)
        requires pow2((b - a) as nat) >= 1, pow2(a) >= 1;
}

proof fn lemma_pow256_pow2(l: nat)
    ensures
        pow256(l) == pow2(8 * l),
    decreases l,
{
    if l > 0 {
        lemma_pow256_pow2((l - 1) as nat);
        lemma_pow2_add(8 * (l - 1) as nat, 8);
        reveal_with_fuel(pow2, 9);
        assert(8 * (l - 1) as nat + 8 == 8 * l);
    }
}

/// `255 * offset(len) + 1 == 256^len`
pub proof fn lemma_offset_closed_form(len: nat)
    ensures
        255 * offset(len) + 1 == pow256(len),
    decreases len,
{
    if len > 0 {
        lemma_offset_closed_form((len - 1) as nat);
    }
}

proof fn lemma_offset_mono(k: nat, j: nat)
    requires
        k <= j,
    ensures
        offset(k) <= offset(j),
    decreases j - k,
{
    if k < j {
        lemma_offset_mono(k, (j - 1) as nat);
    }
}

proof fn lemma_number_bounds(b: Seq<u8>)
    ensures
        offset(b.len()) <= number_of(b) < offset(b.len() + 1),
{
    lemma_be_value_bound(b);
}

/// Different byte strings have different numbers (so `number_to_bytes`,
/// which gives a string of number `n`, gives the only one)
pub proof fn lemma_number_injective(a: Seq<u8>, b: Seq<u8>)
    requires
        number_of(a) == number_of(b),
    ensures
        a == b,
{
    lemma_number_bounds(a);
    lemma_number_bounds(b);
    if a.len() < b.len() {
        lemma_offset_mono(a.len() + 1, b.len());
    } else if b.len() < a.len() {
        lemma_offset_mono(b.len() + 1, a.len());
    }
    lemma_be_injective(a, b);
}

/// Byte strings of different lengths (such as `[1]`, `[0, 1]` and
/// `[0, 0, 1]`) have different numbers
pub proof fn lemma_lengths_apart(a: Seq<u8>, b: Seq<u8>)
    requires
        a.len() != b.len(),
    ensures
        number_of(a) != number_of(b),
{
    if number_of(a) == number_of(b) {
        lemma_number_injective(a, b);
    }
}

proof fn lemma_pow256_positive(n: nat)
    ensures
        pow256(n) >= 1,
    decreases n,
{
    if n > 0 {
        lemma_pow256_positive((n - 1) as nat);
    }
}

/// Every number lies between the counts of strings shorter than some
/// length and of strings no longer than it
proof fn lemma_length_of(n: nat) -> (l: nat)
    ensures
        offset(l) <= n < offset(l + 1),
    decreases n,
{
    if n == 0 {
        assert(offset(1) == offset(0) + pow256(0));
        0
    } else {
        let l0 = lemma_length_of((n - 1) as nat);
        if n < offset(l0 + 1) {
            l0
        } else {
            lemma_pow256_positive(l0 + 1);
            assert(offset(l0 + 2) == offset(l0 + 1) + pow256(l0 + 1));
            l0 + 1
        }
    }
}

/// Every natural number is the number of a byte string: with the
/// injectivity above, the numbering is a bijection between byte strings and
/// natural numbers
pub proof fn lemma_number_surjective(n: nat)
    ensures
        exists|b: Seq<u8>| #[trigger] number_of(b) == n,
{
    let l = lemma_length_of(n);
    let w = (n - offset(l)) as nat;
    assert(offset(l + 1) == offset(l) + pow256(l));
    let b = be_bytes(w, l);
    lemma_be_bytes_len(w, l);
    lemma_be_roundtrip(w, l);
    assert(number_of(b) == n);
}

/// Round trip from bytes: the only byte string whose number is that of `b`
/// is `b`, so `number_to_bytes(bytes_to_number(b)) == b`
pub proof fn lemma_bytes_roundtrip(b: Seq<u8>, r: Seq<u8>)
    requires
        number_of(r) == number_of(b),
    ensures
        r == b,
{
    lemma_number_injective(r, b);
}

impl Natural {
    /// The bytes are num-bigint's bytes of their value
    #[verifier::type_invariant]
    spec fn inv(&self) -> bool {
        self.digits@ == canon(be_value(self.digits@))
    }

    /// The number whose bytes num-bigint gave
    fn from_canon(digits: Vec<u8>, Ghost(v): Ghost<nat>) -> (r: Natural)
        requires
            digits@ == canon(v),
        ensures
            r@ == v,
    {
        proof {
            lemma_canon_value(v);
        }
        Natural { digits }
    }

    /// A copy of the number
    pub fn copy(&self) -> (r: Natural)
        ensures
            r@ == self@,
    {
        proof {
            use_type_invariant(self);
        }
        Natural { digits: crate::util::copy_bytes(self.digits.as_slice()) }
    }

    /// Zero
    pub fn zero() -> (r: Natural)
        ensures
            r@ == 0,
    {
        let mut d: Vec<u8> = Vec::new();
        d.push(0u8);
        assert(d@ =~= canon(0));
        Natural::from_canon(d, Ghost(0))
    }

    /// The number whose big-endian bytes are `bytes`
    pub fn from_be_bytes(bytes: &[u8]) -> (r: Natural)
        ensures
            r@ == be_value(bytes@),
    {
        Natural::from_canon(big_from_be(bytes), Ghost(be_value(bytes@)))
    }

    /// The number `v`
    pub fn from_u64(v: u64) -> (r: Natural)
        ensures
            r@ == v,
    {
        let mut b: Vec<u8> = Vec::new();
        push_be(&mut b, v, 8);
        proof {
            reveal_with_fuel(pow256, 9);
            crate::util::lemma_be_roundtrip(v as nat, 8);
        }
        assert(b@ =~= crate::util::be_bytes(v as nat, 8));
        Natural::from_be_bytes(b.as_slice())
    }

    /// num-bigint's big-endian bytes of the number (a single zero byte for zero)
    pub fn to_be_bytes(&self) -> (r: Vec<u8>)
        ensures
            r@ == canon(self@),
            be_value(r@) == self@,
    {
        proof {
            use_type_invariant(self);
        }
        crate::util::copy_bytes(self.digits.as_slice())
    }

    /// The decimal notation of the number
    pub fn to_decimal(&self) -> (r: String)
        ensures
            r@ == decimal(self@),
    {
        big_to_decimal(self.digits.as_slice())
    }

    /// The lower-case hexadecimal notation of the number
    pub fn to_hex(&self) -> (r: String)
        ensures
            r@ == hex_notation(self@),
    {
        big_to_hex(self.digits.as_slice())
    }

    /// Whether the number is zero
    pub fn is_zero(&self) -> (r: bool)
        ensures
            r == (self@ == 0),
    {
        proof {
            use_type_invariant(self);
            assert(canon(0) =~= seq![0u8]);
            assert(seq![0u8].drop_last() =~= Seq::<u8>::empty());
            assert(be_value(Seq::<u8>::empty()) == 0);
            assert(be_value(seq![0u8]) == 0);
        }
        if self.digits.len() == 1 && self.digits[0] == 0 {
            assert(self.digits@ =~= seq![0u8]);
            true
        } else {
            assert(self.digits@ != canon(0));
            false
        }
    }
}

/// The offset for strings of length `len` in bijective base 256:
/// `(256^len - 1) / 255`
pub fn length_offset(len: usize) -> (r: Natural)
    requires
        len <= usize::MAX / 8,
    ensures
        r@ == offset(len as nat),
{
    if len == 0 {
        return Natural::zero();
    }
    let mut one: Vec<u8> = Vec::new();
    one.push(1u8);
    assert(be_value(one@) == 1) by {
        assert(one@.drop_last() =~= Seq::<u8>::empty());
        assert(be_value(Seq::<u8>::empty()) == 0);
        assert(one@.last() == 1u8);
    }
    let p = big_shl(one.as_slice(), 8 * len);
    proof {
        lemma_pow2_pos(8 * len as nat);
        assert(1 * pow2(8 * len as nat) == pow2(8 * len as nat));
        crate::enumeration::lemma_canon_value(pow2(8 * len as nat));
        lemma_pow256_pow2(len as nat);
        lemma_offset_closed_form(len as nat);
        lemma_pow256_pos(len as nat);
    }
    let q = big_sub(p.as_slice(), one.as_slice());
    proof {
        lemma_canon_value((pow256(len as nat) - 1) as nat);
        assert((pow256(len as nat) - 1) as nat / 255 == offset(len as nat)) by (nonlinear_arith)
            requires 255 * offset(len as nat) + 1 == pow256(len as nat);
    }
    let d = big_div_u32(q.as_slice(), 255);
    Natural::from_canon(d, Ghost(offset(len as nat)))
}

/// Map a byte string to its natural number
pub fn bytes_to_number(bytes: &[u8]) -> (r: Natural)
    requires
        bytes@.len() <= usize::MAX / 8,
    ensures
        r@ == number_of(bytes@),
{
    let len = bytes.len();
    if len == 0 {
        return Natural::zero();
    }
    let off = length_offset(len);
    let off_bytes = off.to_be_bytes();
    let val = big_from_be(bytes);
    proof {
        lemma_canon_value(be_value(bytes@));
    }
    let sum = big_add(off_bytes.as_slice(), val.as_slice());
    Natural::from_canon(sum, Ghost(number_of(bytes@)))
}

/// Map a natural number to its byte string
pub fn number_to_bytes(n: &Natural) -> (r: Vec<u8>)
    requires
        canon(n@).len() <= usize::MAX / 8,
    ensures
        number_of(r@) == n@,
        r@.len() <= canon(n@).len(),
{
    if n.is_zero() {
        return Vec::new();
    }
    let nb = n.to_be_bytes();
    let ghost v = n@;
    let times = big_mul_u32(nb.as_slice(), 255);
    proof {
        lemma_canon_value(v * 255);
    }
    let mut one: Vec<u8> = Vec::new();
    one.push(1u8);
    assert(be_value(one@) == 1) by {
        assert(one@.drop_last() =~= Seq::<u8>::empty());
        assert(be_value(Seq::<u8>::empty()) == 0);
        assert(one@.last() == 1u8);
    }
    let m = big_add(times.as_slice(), one.as_slice());
    let ghost mv = 255 * v + 1;
    proof {
        lemma_canon_value(mv);
    }
    let bits = big_bits(m.as_slice());
    let ghost l = ((bits - 1) / 8) as nat;
    proof {
        // 256^l <= 255 v + 1 < 256^(l + 1)
        assert(8 * l <= bits - 1 && bits <= 8 * (l + 1));
        lemma_pow2_mono(8 * l, (bits - 1) as nat);
        lemma_pow2_mono(bits as nat, 8 * (l + 1));
        lemma_pow256_pow2(l);
        lemma_pow256_pow2(l + 1);
        lemma_offset_closed_form(l);
        lemma_offset_closed_form(l + 1);
        assert(offset(l) <= v);
        assert(v < offset(l + 1));
        // l >= 1, and l is at most the length of v's bytes
        reveal_with_fuel(pow2, 9);
        if bits - 1 < 8 {
            lemma_pow2_mono(bits as nat, 8);
        }
        assert(l >= 1);
        assert(offset(l) == offset((l - 1) as nat) + pow256((l - 1) as nat));
        lemma_canon_len_low(v, (l - 1) as nat);
    }
    let len = ((bits - 1) / 8) as usize;
    let off = length_offset(len);
    let off_bytes = off.to_be_bytes();
    let val = big_sub(nb.as_slice(), off_bytes.as_slice());
    let ghost w = (v - offset(l)) as nat;
    proof {
        lemma_canon_value(w);
        assert(w < pow256(l));
        lemma_canon_len(w, l);
    }
    if val.len() < len {
        let mut padded: Vec<u8> = Vec::new();
        let pad = len - val.len();
        let mut i: usize = 0;
        while i < pad
            invariant
                i <= pad,
                padded@ == Seq::new(i as nat, |k: int| 0u8),
            decreases pad - i,
        {
            padded.push(0u8);
            i = i + 1;
            assert(padded@ =~= Seq::new(i as nat, |k: int| 0u8));
        }
        let ghost zeros = padded@;
        append_bytes(&mut padded, val.as_slice());
        proof {
            lemma_zero_prefix(zeros, val@);
        }
        padded
    } else {
        val
    }
}

/// Leading zero bytes do not change the big-endian value
proof fn lemma_zero_prefix(z: Seq<u8>, s: Seq<u8>)
    requires
        forall|i: int| 0 <= i < z.len() ==> z[i] == 0,
    ensures
        be_value(z + s) == be_value(s),
    decreases s.len(),
{
    if s.len() == 0 {
        lemma_zeros_value(z);
        assert(z + s =~= z);
    } else {
        lemma_zero_prefix(z, s.drop_last());
        assert((z + s).drop_last() =~= z + s.drop_last());
    }
}

proof fn lemma_zeros_value(z: Seq<u8>)
    requires
        forall|i: int| 0 <= i < z.len() ==> z[i] == 0,
    ensures
        be_value(z) == 0,
    decreases z.len(),
{
    if z.len() > 0 {
        lemma_zeros_value(z.drop_last());
    }
}


/// The text `t` starts with `0x` or `0X`
pub open spec fn has_hex_prefix(t: Seq<char>) -> bool {
    t.len() >= 2 && t[0] == '0' && (t[1] == 'x' || t[1] == 'X')
}

/// How `parse_natural` reads `text`: after trimming, hexadecimal behind a
/// `0x` or `0X` prefix, decimal otherwise (each as num-bigint reads it)
pub open spec fn natural_reading(text: Seq<char>) -> DecimalParse {
    let t = trim_seq(text);
    if has_hex_prefix(t) {
        big_hex_parse(t.skip(2))
    } else {
        big_decimal_parse(t)
    }
}

/// Read a natural number written in decimal, or in hexadecimal behind `0x`;
/// on a refusal, num-bigint's message
pub fn parse_natural(text: &str) -> (r: Result<Natural, String>)
    ensures
        match natural_reading(text@) {
            DecimalParse::Value(v) => r matches Ok(n) && n@ == v,
            DecimalParse::Empty => r matches Err(m) && m@ == "cannot parse integer from empty string"@,
            DecimalParse::Invalid => r matches Err(m) && m@ == "invalid digit found in string"@,
        },
{
    let all = str_chars(text);
    let t = trim_chars(all.as_slice());
    let parsed = if t.len() >= 2 && t[0] == '0' && (t[1] == 'x' || t[1] == 'X') {
        let digits = string_of(&t.as_slice()[2..t.len()]);
        assert(digits@ =~= t@.skip(2));
        big_parse_hex(digits.as_str())
    } else {
        let digits = string_of(t.as_slice());
        big_parse_decimal(digits.as_str())
    };
    match parsed {
        Ok(b) => {
            assert(natural_reading(text@) is Value);
            Ok(Natural::from_canon(b, Ghost(natural_reading(text@)->Value_0)))
        },
        Err(m) => Err(m),
    }
}

} // verus!
