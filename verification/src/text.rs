use vstd::prelude::*;
use crate::ext::{HexFault, char_debug, char_debug_text, first_non_hex, hex_value};

verus! {

broadcast use vstd::string::group_string_axioms;

/// The characters of `s`, in order
pub fn str_chars(s: &str) -> (v: Vec<char>)
    ensures
        v@ == s@,
{
    let mut v: Vec<char> = Vec::new();
    for c in it: s.chars()
        invariant
            v@ == it.seq().take(it.index() as int),
    {
        v.push(c);
        assert(v@ =~= it.seq().take(it.index() + 1));
    }
    assert(v@ =~= s@);
    v
}

/// Append one character to a string (`String::push`)
#[verifier::external_body]
pub(crate) fn string_push(s: &mut String, c: char)
    ensures
        final(s)@ == old(s)@.push(c),
{
    s.push(c)
}

/// Append all of `cs` to `out`
pub fn push_chars(out: &mut String, cs: &[char])
    ensures
        final(out)@ == old(out)@ + cs@,
{
    let mut i: usize = 0;
    while i < cs.len()
        invariant
            i <= cs@.len(),
            out@ == old(out)@ + cs@.take(i as int),
        decreases cs@.len() - i,
    {
        string_push(out, cs[i]);
        i = i + 1;
        assert(out@ =~= old(out)@ + cs@.take(i as int));
    }
    assert(cs@.take(cs@.len() as int) =~= cs@);
}

/// A string holding exactly the characters `cs`
pub fn string_of(cs: &[char]) -> (r: String)
    ensures
        r@ == cs@,
{
    let mut r = String::new();
    push_chars(&mut r, cs);
    assert(r@ =~= cs@);
    r
}

/// Character-wise equality of two character slices
pub fn chars_eq(a: &[char], b: &[char]) -> (r: bool)
    ensures
        r == (a@ == b@),
{
    if a.len() != b.len() {
        return false;
    }
    let mut i: usize = 0;
    while i < a.len()
        invariant
            a@.len() == b@.len(),
            i <= a@.len(),
            forall|k: int| 0 <= k < i ==> a@[k] == b@[k],
        decreases a@.len() - i,
    {
        if a[i] != b[i] {
            return false;
        }
        i = i + 1;
    }
    assert(a@ =~= b@);
    true
}

/// ASCII lower-casing of one character (`char::to_ascii_lowercase`)
pub open spec fn ascii_lower(c: char) -> char {
    if 'A' <= c <= 'Z' {
        ((c as u32) + 32) as char
    } else {
        c
    }
}

/// ASCII lower-casing of a character sequence (`str::to_ascii_lowercase`)
pub open spec fn ascii_lower_seq(s: Seq<char>) -> Seq<char> {
    s.map_values(|c: char| ascii_lower(c))
}

/// Lower-case one character the ASCII way
pub fn to_ascii_lower(c: char) -> (r: char)
    ensures
        r == ascii_lower(c),
{
    if 'A' <= c && c <= 'Z' {
        assert(('A' as u32) <= (c as u32) + 32 <= ('z' as u32));
        let code = (c as u32) + 32;
        char_from_ascii(code)
    } else {
        c
    }
}

/// The character with ASCII code `code`
pub(crate) fn char_from_ascii(code: u32) -> (r: char)
    requires
        code < 128,
    ensures
        r == code as char,
{
    let b = code as u8;
    b as char
}

/// ASCII lower-casing of a character slice
pub fn lower_chars(s: &[char]) -> (r: Vec<char>)
    ensures
        r@ == ascii_lower_seq(s@),
{
    let mut r: Vec<char> = Vec::new();
    let mut i: usize = 0;
    while i < s.len()
        invariant
            i <= s@.len(),
            r@ == ascii_lower_seq(s@.take(i as int)),
        decreases s@.len() - i,
    {
        let c = to_ascii_lower(s[i]);
        r.push(c);
        i = i + 1;
        assert(r@ =~= ascii_lower_seq(s@.take(i as int)));
    }
    assert(s@.take(s@.len() as int) =~= s@);
    r
}

/// The characters with the Unicode `White_Space` property (`char::is_whitespace`)
pub open spec fn is_white(c: char) -> bool {
    let u = c as u32;
    ||| (0x09 <= u <= 0x0D)
    ||| u == 0x20
    ||| u == 0x85
    ||| u == 0xA0
    ||| u == 0x1680
    ||| (0x2000 <= u <= 0x200A)
    ||| u == 0x2028
    ||| u == 0x2029
    ||| u == 0x202F
    ||| u == 0x205F
    ||| u == 0x3000
}

/// Whether `c` is white space
pub fn char_is_white(c: char) -> (r: bool)
    ensures
        r == is_white(c),
{
    let u = c as u32;
    (0x09 <= u && u <= 0x0D) || u == 0x20 || u == 0x85 || u == 0xA0 || u == 0x1680 || (0x2000 <= u
        && u <= 0x200A) || u == 0x2028 || u == 0x2029 || u == 0x202F || u == 0x205F || u == 0x3000
}

/// Index of the first character of `s` that is not white space (or `s.len()`)
pub open spec fn trim_start_index(s: Seq<char>) -> int
    decreases s.len(),
{
    if s.len() == 0 || !is_white(s[0]) {
        0
    } else {
        1 + trim_start_index(s.drop_first())
    }
}

/// Index just past the last character of `s` that is not white space (or 0)
pub open spec fn trim_end_index(s: Seq<char>) -> int
    decreases s.len(),
{
    if s.len() == 0 || !is_white(s.last()) {
        s.len() as int
    } else {
        trim_end_index(s.drop_last())
    }
}

/// `str::trim`: `s` without its leading and trailing white space
pub open spec fn trim_seq(s: Seq<char>) -> Seq<char> {
    let a = trim_start_index(s);
    let b = trim_end_index(s);
    if a >= b {
        Seq::empty()
    } else {
        s.subrange(a, b)
    }
}

proof fn lemma_trim_start(s: Seq<char>, i: int)
    requires
        0 <= i <= s.len(),
        forall|k: int| 0 <= k < i ==> is_white(#[trigger] s[k]),
    ensures
        i < s.len() && !is_white(s[i]) ==> trim_start_index(s) == i,
        i == s.len() ==> trim_start_index(s) == s.len(),
    decreases i,
{
    if i > 0 {
        assert forall|k: int| 0 <= k < i - 1 implies is_white(#[trigger] s.drop_first()[k]) by {
            assert(s.drop_first()[k] == s[k + 1]);
        }
        lemma_trim_start(s.drop_first(), i - 1);
    }
}

proof fn lemma_trim_end(s: Seq<char>, j: int)
    requires
        0 <= j <= s.len(),
        forall|k: int| j <= k < s.len() ==> is_white(#[trigger] s[k]),
    ensures
        j > 0 && !is_white(s[j - 1]) ==> trim_end_index(s) == j,
        j == 0 ==> trim_end_index(s) == 0,
    decreases s.len() - j,
{
    if j < s.len() {
        assert forall|k: int| j <= k < s.len() - 1 implies is_white(#[trigger] s.drop_last()[k]) by {
            assert(s.drop_last()[k] == s[k]);
        }
        lemma_trim_end(s.drop_last(), j);
    }
}

/// `str::trim` on a character slice
pub fn trim_chars(s: &[char]) -> (r: Vec<char>)
    ensures
        r@ == trim_seq(s@),
{
    let mut i: usize = 0;
    while i < s.len() && char_is_white(s[i])
        invariant
            i <= s@.len(),
            forall|k: int| 0 <= k < i ==> is_white(#[trigger] s@[k]),
        decreases s@.len() - i,
    {
        i = i + 1;
    }
    proof {
        lemma_trim_start(s@, i as int);
    }
    let mut j: usize = s.len();
    while j > i && char_is_white(s[j - 1])
        invariant
            i <= j <= s@.len(),
            forall|k: int| j <= k < s@.len() ==> is_white(#[trigger] s@[k]),
        decreases j,
    {
        j = j - 1;
    }
    proof {
        if j > i {
            lemma_trim_end(s@, j as int);
        } else {
            if i < s@.len() {
                // everything from i on is white except s[i], which is not: so j would stop at i + 1
                assert(!is_white(s@[i as int]));
                assert(false);
            } else {
                lemma_trim_end(s@, s@.len() as int);
                assert(forall|k: int| 0 <= k < s@.len() ==> is_white(#[trigger] s@[k]));
                lemma_trim_end(s@, 0);
            }
        }
    }
    let mut r: Vec<char> = Vec::new();
    let mut k: usize = i;
    while k < j
        invariant
            i <= k <= j <= s@.len(),
            r@ == s@.subrange(i as int, k as int),
        decreases j - k,
    {
        r.push(s[k]);
        k = k + 1;
        assert(r@ =~= s@.subrange(i as int, k as int));
    }
    if i >= j {
        assert(r@ =~= Seq::<char>::empty());
    }
    r
}

/// The UTF-8 byte length of a character sequence (`str::len`)
pub open spec fn utf8_len(s: Seq<char>) -> nat {
    vstd::utf8::encode_utf8(s).len()
}

/// The decimal digit character for `d < 10`
pub open spec fn digit_char(d: nat) -> char {
    ((d + 48) as u32) as char
}

/// Decimal notation of `n`, without leading zeros (`format!("{}", n)`)
pub open spec fn decimal(n: nat) -> Seq<char>
    decreases n,
{
    if n < 10 {
        seq![digit_char(n)]
    } else {
        decimal(n / 10).push(digit_char(n % 10))
    }
}

/// Append the decimal notation of `n` to `out`
pub fn push_decimal(out: &mut String, n: u64)
    ensures
        final(out)@ == old(out)@ + decimal(n as nat),
{
    push_decimal_wide(out, n as u128);
}

/// Append the decimal notation of `n` to `out`
pub fn push_decimal_wide(out: &mut String, n: u128)
    ensures
        final(out)@ == old(out)@ + decimal(n as nat),
{
    let mut digits: Vec<char> = Vec::new();
    let mut m = n;
    loop
        invariant_except_break
            decimal(n as nat) == decimal(m as nat) + digits@.reverse(),
        ensures
            decimal(n as nat) == digits@.reverse(),
        decreases m,
    {
        let d = (m % 10) as u32;
        let c = char_from_ascii(d + 48);
        let ghost m0 = m;
        let ghost before = digits@;
        digits.push(c);
        if m < 10 {
            assert(decimal(m0 as nat) == seq![digit_char(m0 as nat)]);
            assert(digits@.reverse() =~= seq![c] + before.reverse());
            break;
        }
        m = m / 10;
        assert(decimal(m0 as nat) == decimal(m as nat).push(digit_char(m0 as nat % 10)));
        assert(digits@.reverse() =~= seq![c] + before.reverse());
        assert(decimal(n as nat) =~= decimal(m as nat) + digits@.reverse());
    }
    let mut k: usize = digits.len();
    let ghost start = out@;
    while k > 0
        invariant
            k <= digits@.len(),
            decimal(n as nat) == digits@.reverse(),
            out@ == start + digits@.subrange(k as int, digits@.len() as int).reverse(),
        decreases k,
    {
        k = k - 1;
        string_push(out, digits[k]);
        assert(out@ =~= start + digits@.subrange(k as int, digits@.len() as int).reverse());
    }
    assert(digits@.subrange(0, digits@.len() as int) =~= digits@);
}

} // verus!

verus! {

/// `s` split at every `:` (`str::split(':')`): always at least one part
pub open spec fn split_colon(s: Seq<char>) -> Seq<Seq<char>>
    decreases s.len(),
{
    if s.len() == 0 {
        seq![Seq::<char>::empty()]
    } else {
        let p = split_colon(s.drop_last());
        if s.last() == ':' {
            p.push(Seq::<char>::empty())
        } else {
            p.update(p.len() - 1, p.last().push(s.last()))
        }
    }
}

/// Splitting always gives at least one part
pub proof fn lemma_split_len(s: Seq<char>)
    ensures
        split_colon(s).len() >= 1,
    decreases s.len(),
{
    if s.len() > 0 {
        lemma_split_len(s.drop_last());
    }
}

/// Splitting where the tail holds no `:` extends the last part
pub proof fn lemma_split_no_colon(x: Seq<char>, y: Seq<char>)
    requires
        forall|k: int| 0 <= k < y.len() ==> y[k] != ':',
    ensures
        split_colon(x + y) == split_colon(x).update(split_colon(x).len() - 1, split_colon(x).last() + y),
    decreases y.len(),
{
    lemma_split_len(x);
    if y.len() == 0 {
        assert(x + y =~= x);
        assert(split_colon(x).last() + y =~= split_colon(x).last());
        assert(split_colon(x).update(split_colon(x).len() - 1, split_colon(x).last()) =~= split_colon(x));
    } else {
        let y0 = y.drop_last();
        assert((x + y).drop_last() =~= x + y0);
        lemma_split_no_colon(x, y0);
        assert((x + y).last() == y.last());
        let p = split_colon(x + y0);
        lemma_split_len(x + y0);
        assert(split_colon(x).last() + y0 + seq![y.last()] =~= split_colon(x).last() + y);
        assert((x + y).len() > 0);
        assert(split_colon(x + y) == p.update(p.len() - 1, p.last().push(y.last())));
        assert(p.len() == split_colon(x).len());
        assert(p.last() == split_colon(x).last() + y0);
        assert((split_colon(x).last() + y0).push(y.last()) =~= split_colon(x).last() + y);
        assert(split_colon(x + y) =~= split_colon(x).update(split_colon(x).len() - 1, split_colon(x).last() + y));
    }
}

/// A `:` closes the last part and opens an empty one
pub proof fn lemma_split_colon_step(x: Seq<char>)
    ensures
        split_colon(x.push(':')) == split_colon(x).push(Seq::<char>::empty()),
{
    assert(x.push(':').drop_last() =~= x);
}

/// Split a character slice at every `:`
pub fn split_colon_chars(s: &[char]) -> (r: Vec<Vec<char>>)
    ensures
        r@.map_values(|v: Vec<char>| v@) == split_colon(s@),
{
    let mut parts: Vec<Vec<char>> = Vec::new();
    let mut cur: Vec<char> = Vec::new();
    let mut i: usize = 0;
    while i < s.len()
        invariant
            i <= s@.len(),
            parts@.map_values(|v: Vec<char>| v@).push(cur@) == split_colon(s@.take(i as int)),
        decreases s@.len() - i,
    {
        let c = s[i];
        let ghost before = s@.take(i as int);
        assert(s@.take(i + 1).drop_last() =~= before);
        proof {
            lemma_split_len(before);
        }
        if c == ':' {
            parts.push(cur);
            cur = Vec::new();
            assert(parts@.map_values(|v: Vec<char>| v@).push(cur@) =~= split_colon(s@.take(i + 1)));
        } else {
            cur.push(c);
            assert(parts@.map_values(|v: Vec<char>| v@).push(cur@) =~= split_colon(s@.take(i + 1)));
        }
        i = i + 1;
    }
    assert(s@.take(s@.len() as int) =~= s@);
    parts.push(cur);
    parts
}

/// The decimal value of a digit string
pub open spec fn decimal_value(d: Seq<char>) -> nat
    decreases d.len(),
{
    if d.len() == 0 {
        0
    } else {
        decimal_value(d.drop_last()) * 10 + ((d.last() as u32) - 48) as nat
    }
}

/// Every character of `d` is a decimal digit
pub open spec fn all_digits(d: Seq<char>) -> bool {
    forall|k: int| 0 <= k < d.len() ==> '0' <= #[trigger] d[k] <= '9'
}

/// `s` without a leading `+`
pub open spec fn strip_plus(s: Seq<char>) -> Seq<char> {
    if s.len() > 0 && s[0] == '+' {
        s.drop_first()
    } else {
        s
    }
}

/// `u8::from_str`: an optional `+` followed by at least one decimal digit, of value at most 255
pub open spec fn parse_u8_text(s: Seq<char>) -> Option<u8> {
    let d = strip_plus(s);
    if d.len() == 0 || !all_digits(d) {
        None
    } else if decimal_value(d) > 255 {
        None
    } else {
        Some(decimal_value(d) as u8)
    }
}

/// Parse the decimal text of a `u8`
pub fn parse_u8_chars(s: &[char]) -> (r: Option<u8>)
    ensures
        r == parse_u8_text(s@),
{
    let start: usize = if s.len() > 0 && s[0] == '+' { 1 } else { 0 };
    let ghost d = strip_plus(s@);
    assert(d =~= s@.subrange(start as int, s@.len() as int));
    if start >= s.len() {
        assert(d.len() == 0);
        return None;
    }
    let mut acc: u64 = 0;
    let mut i: usize = start;
    while i < s.len()
        invariant
            start <= i <= s@.len(),
            d == s@.subrange(start as int, s@.len() as int),
            d == strip_plus(s@),
            forall|k: int| start <= k < i ==> '0' <= #[trigger] s@[k] <= '9',
            acc == (if decimal_value(s@.subrange(start as int, i as int)) > 256 { 256 } else { decimal_value(s@.subrange(start as int, i as int)) }),
        decreases s@.len() - i,
    {
        let c = s[i];
        if !('0' <= c && c <= '9') {
            assert(d[i - start] == c);
            assert(!all_digits(d));
            return None;
        }
        let dv = (c as u32 - 48) as u64;
        assert(s@.subrange(start as int, i + 1).drop_last() =~= s@.subrange(start as int, i as int));
        let next = acc * 10 + dv;
        acc = if next > 256 { 256 } else { next };
        i = i + 1;
    }
    assert forall|k: int| 0 <= k < d.len() implies '0' <= #[trigger] d[k] <= '9' by {
        assert(d[k] == s@[k + start]);
    }
    if acc > 255 {
        None
    } else {
        Some(acc as u8)
    }
}

/// The upper-case hexadecimal digit for `d < 16`
pub open spec fn hex_digit_upper(d: nat) -> char {
    if d < 10 {
        ((d + 48) as u32) as char
    } else {
        ((d + 55) as u32) as char
    }
}

/// Upper-case hexadecimal notation of `n`, without leading zeros (`format!("{:X}", n)`)
pub open spec fn hex_upper(n: nat) -> Seq<char>
    decreases n,
{
    if n < 16 {
        seq![hex_digit_upper(n)]
    } else {
        hex_upper(n / 16).push(hex_digit_upper(n % 16))
    }
}

/// `s` padded on the left with `0` to at least `w` characters (`format!("{:0w$}", ..)`)
pub open spec fn zero_pad(s: Seq<char>, w: nat) -> Seq<char> {
    if s.len() >= w {
        s
    } else {
        Seq::new((w - s.len()) as nat, |i: int| '0') + s
    }
}

/// Append the upper-case hexadecimal notation of `n`, padded with zeros to `width` characters
pub fn push_hex_upper(out: &mut String, n: u64, width: usize)
    ensures
        final(out)@ == old(out)@ + zero_pad(hex_upper(n as nat), width as nat),
{
    let mut digits: Vec<char> = Vec::new();
    let mut m = n;
    loop
        invariant_except_break
            hex_upper(n as nat) == hex_upper(m as nat) + digits@.reverse(),
        ensures
            hex_upper(n as nat) == digits@.reverse(),
        decreases m,
    {
        let d = (m % 16) as u32;
        let c = if d < 10 {
            char_from_ascii(d + 48)
        } else {
            char_from_ascii(d + 55)
        };
        let ghost m0 = m;
        let ghost before = digits@;
        digits.push(c);
        if m < 16 {
            assert(hex_upper(m0 as nat) == seq![hex_digit_upper(m0 as nat)]);
            assert(digits@.reverse() =~= seq![c] + before.reverse());
            break;
        }
        m = m / 16;
        assert(hex_upper(m0 as nat) == hex_upper(m as nat).push(hex_digit_upper(m0 as nat % 16)));
        assert(digits@.reverse() =~= seq![c] + before.reverse());
        assert(hex_upper(n as nat) =~= hex_upper(m as nat) + digits@.reverse());
    }
    let ghost start = out@;
    let mut pad: usize = digits.len();
    while pad < width
        invariant
            digits@.len() <= pad,
            pad <= width || pad == digits@.len(),
            out@ == start + Seq::new((pad - digits@.len()) as nat, |i: int| '0'),
        decreases width - pad,
    {
        string_push(out, '0');
        pad = pad + 1;
        assert(out@ =~= start + Seq::new((pad - digits@.len()) as nat, |i: int| '0'));
    }
    let ghost padded = out@;
    let mut k: usize = digits.len();
    while k > 0
        invariant
            k <= digits@.len(),
            hex_upper(n as nat) == digits@.reverse(),
            out@ == padded + digits@.subrange(k as int, digits@.len() as int).reverse(),
        decreases k,
    {
        k = k - 1;
        string_push(out, digits[k]);
        assert(out@ =~= padded + digits@.subrange(k as int, digits@.len() as int).reverse());
    }
    assert(digits@.subrange(0, digits@.len() as int) =~= digits@);
    assert(out@ =~= start + zero_pad(hex_upper(n as nat), width as nat));
}


/// The lower-case hexadecimal text of `bytes` (`hex::encode`)
pub fn bytes_to_hex(bytes: &[u8]) -> (r: String)
    ensures
        r@ == crate::ext::hex_lower(bytes@),
{
    crate::ext::hex_encode(bytes)
}

/// The message of a refusal of `hex::decode` (`FromHexError`'s `Display`)
pub open spec fn hex_fault_text(f: HexFault) -> Seq<char> {
    match f {
        HexFault::InvalidCharacter { c, index } => "Invalid character "@ + char_debug_text(c) + " at position "@
            + decimal(index as nat),
        HexFault::OddLength => "Odd number of digits"@,
        HexFault::InvalidStringLength => "Invalid string length"@,
    }
}

/// The message `hex::decode` gives when it refuses `s`: an odd number of
/// bytes, else the first byte that is no hexadecimal digit and its position
pub open spec fn hex_refusal(s: Seq<char>) -> Seq<char> {
    let b = vstd::utf8::encode_utf8(s);
    if b.len() % 2 == 1 {
        "Odd number of digits"@
    } else {
        let i = choose|i: int| first_non_hex(b, i);
        "Invalid character "@ + char_debug_text(b[i] as char) + " at position "@ + decimal(i as nat)
    }
}

/// The message of a refusal of `hex::decode`
pub fn hex_fault_message(f: &HexFault) -> (r: String)
    ensures
        r@ == hex_fault_text(*f),
{
    let mut r = String::new();
    match f {
        HexFault::InvalidCharacter { c, index } => {
            crate::resolver::push_str(&mut r, "Invalid character ");
            let d = char_debug(*c);
            crate::resolver::push_str(&mut r, d.as_str());
            crate::resolver::push_str(&mut r, " at position ");
            push_decimal(&mut r, *index as u64);
        },
        HexFault::OddLength => crate::resolver::push_str(&mut r, "Odd number of digits"),
        HexFault::InvalidStringLength => crate::resolver::push_str(&mut r, "Invalid string length"),
    }
    r
}

proof fn lemma_first_non_hex_unique(b: Seq<u8>, i: int, j: int)
    requires
        first_non_hex(b, i),
        first_non_hex(b, j),
    ensures
        i == j,
{
    if i < j {
        assert(hex_value(b[i] as char) is Some);
    } else if j < i {
        assert(hex_value(b[j] as char) is Some);
    }
}

/// A refusal of `hex::decode` on `s` says what `hex_refusal` says
pub(crate) proof fn lemma_hex_refusal(s: Seq<char>, f: HexFault)
    requires
        (f matches HexFault::OddLength) <==> vstd::utf8::encode_utf8(s).len() % 2 == 1,
        f matches HexFault::InvalidCharacter { c, index } ==> first_non_hex(vstd::utf8::encode_utf8(s), index as int)
            && c == (vstd::utf8::encode_utf8(s)[index as int] as char),
        !(f matches HexFault::InvalidStringLength),
    ensures
        hex_fault_text(f) == hex_refusal(s),
{
    if let HexFault::InvalidCharacter { c, index } = f {
        let b = vstd::utf8::encode_utf8(s);
        let i = choose|i: int| first_non_hex(b, i);
        lemma_first_non_hex_unique(b, i, index as int);
    }
}

/// The bytes that hexadecimal text stands for, surrounding white space
/// ignored (`hex::decode(text.trim())`); on a refusal, `hex`'s message
pub fn bytes_from_hex(text: &str) -> (r: Result<Vec<u8>, String>)
    ensures
        r is Ok <==> crate::ext::is_hex_text(trim_seq(text@)),
        r matches Ok(v) ==> v@ == crate::ext::hex_bytes(trim_seq(text@)),
        r matches Err(m) ==> m@ == hex_refusal(trim_seq(text@)),
{
    let all = str_chars(text);
    let t = trim_chars(all.as_slice());
    let clean = string_of(t.as_slice());
    match crate::ext::hex_decode(clean.as_str()) {
        Ok(v) => Ok(v),
        Err(f) => {
            proof {
                lemma_hex_refusal(clean@, f);
            }
            Err(hex_fault_message(&f))
        },
    }
}


/// How `parse_u64` reads `text`: after trimming, base 16 behind a `0x` or
/// `0X` prefix, base 10 otherwise
pub open spec fn u64_text_reading(text: Seq<char>) -> Option<u64> {
    let t = trim_seq(text);
    if t.len() >= 2 && t[0] == '0' && (t[1] == 'x' || t[1] == 'X') {
        crate::ext::u64_reading(t.skip(2), 16)
    } else {
        crate::ext::u64_reading(t, 10)
    }
}

/// Read an unsigned 64-bit number written in decimal, or in hexadecimal
/// behind `0x`; on a refusal, the standard library's message
pub fn parse_u64(text: &str) -> (r: Result<u64, String>)
    ensures
        match u64_text_reading(text@) {
            Some(v) => r == Ok::<u64, String>(v),
            None => r is Err,
        },
{
    let all = str_chars(text);
    let t = trim_chars(all.as_slice());
    if t.len() >= 2 && t[0] == '0' && (t[1] == 'x' || t[1] == 'X') {
        let digits = string_of(&t.as_slice()[2..t.len()]);
        assert(digits@ =~= t@.skip(2));
        crate::ext::u64_from_str_radix(digits.as_str(), 16)
    } else {
        let digits = string_of(t.as_slice());
        crate::ext::u64_from_str_radix(digits.as_str(), 10)
    }
}

/// `t` is decimal digits that read as `n`
pub open spec fn reads_decimal(t: Seq<char>, n: nat) -> bool {
    t.len() > 0 && all_digits(t) && decimal_value(t) == n
}

/// `t` is hexadecimal digits (either case) that read as `n`
pub open spec fn reads_hex(t: Seq<char>, n: nat) -> bool {
    &&& t.len() > 0
    &&& forall|k: int| 0 <= k < t.len() ==> (#[trigger] hex_value(t[k])) is Some
    &&& crate::ext::hex_digits_value(t) == n
}

/// Decimal notation reads back as the number it writes
pub proof fn lemma_decimal_reads_back(n: nat)
    ensures
        reads_decimal(decimal(n), n),
    decreases n,
{
    let d = decimal(n);
    if n < 10 {
        assert(d.drop_last() =~= Seq::<char>::empty());
        assert(decimal_value(Seq::<char>::empty()) == 0);
        assert(((digit_char(n) as u32) - 48) as nat == n);
    } else {
        lemma_decimal_reads_back(n / 10);
        assert(d.drop_last() =~= decimal(n / 10));
        assert(((digit_char(n % 10) as u32) - 48) as nat == n % 10);
        assert forall|k: int| 0 <= k < d.len() implies '0' <= #[trigger] d[k] <= '9' by {
            if k < d.len() - 1 {
                assert(d[k] == decimal(n / 10)[k]);
            }
        }
    }
}

/// Upper-case hexadecimal notation reads back as the number it writes
pub proof fn lemma_hex_upper_reads_back(n: nat)
    ensures
        reads_hex(hex_upper(n), n),
    decreases n,
{
    let d = hex_upper(n);
    if n < 16 {
        assert(d.drop_last() =~= Seq::<char>::empty());
        assert(crate::ext::hex_digits_value(Seq::<char>::empty()) == 0);
        assert(hex_value(hex_digit_upper(n)) == Some(n as u8));
    } else {
        lemma_hex_upper_reads_back(n / 16);
        assert(d.drop_last() =~= hex_upper(n / 16));
        assert(hex_value(hex_digit_upper(n % 16)) == Some((n % 16) as u8));
        assert forall|k: int| 0 <= k < d.len() implies (#[trigger] hex_value(d[k])) is Some by {
            if k < d.len() - 1 {
                assert(d[k] == hex_upper(n / 16)[k]);
            }
        }
    }
}

/// Leading zeros do not change what hexadecimal digits read as
pub proof fn lemma_zero_pad_reads_back(t: Seq<char>, n: nat, w: nat)
    requires
        reads_hex(t, n),
    ensures
        reads_hex(zero_pad(t, w), n),
    decreases w,
{
    if t.len() < w {
        let z = Seq::new((w - t.len()) as nat, |i: int| '0');
        lemma_zeros_front(z, t);
        let p = zero_pad(t, w);
        assert forall|k: int| 0 <= k < p.len() implies (#[trigger] hex_value(p[k])) is Some by {
            if k < z.len() {
                assert(p[k] == '0');
            } else {
                assert(p[k] == t[k - z.len()]);
            }
        }
    }
}

/// Zero digits in front of hexadecimal digits do not change what they read as
proof fn lemma_zeros_front(z: Seq<char>, t: Seq<char>)
    requires
        forall|i: int| 0 <= i < z.len() ==> z[i] == '0',
    ensures
        crate::ext::hex_digits_value(z + t) == crate::ext::hex_digits_value(t),
    decreases t.len(),
{
    if t.len() == 0 {
        assert(z + t =~= z);
        lemma_zeros_value(z);
        assert(crate::ext::hex_digits_value(Seq::<char>::empty()) == 0);
    } else {
        lemma_zeros_front(z, t.drop_last());
        assert((z + t).drop_last() =~= z + t.drop_last());
        assert((z + t).last() == t.last());
    }
}

proof fn lemma_zeros_value(z: Seq<char>)
    requires
        forall|i: int| 0 <= i < z.len() ==> z[i] == '0',
    ensures
        crate::ext::hex_digits_value(z) == 0,
    decreases z.len(),
{
    if z.len() > 0 {
        lemma_zeros_value(z.drop_last());
        assert(z.last() == '0');
        assert(hex_value('0') == Some(0u8));
    }
}

} // verus!
