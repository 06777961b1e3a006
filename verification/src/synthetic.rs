//! Deterministic synthetic byte streams for testing and benchmarks: zeros,
//! a byte counter, a repeated pattern, and XorShift64 pseudo-random bytes

use vstd::prelude::*;
use crate::codec::ByteSource;
use crate::error::CoreError;
use crate::util::append_bytes;
use crate::text::{chars_eq, str_chars};

verus! {

broadcast use vstd::std_specs::vec::group_vec_axioms;

/// Deterministic synthetic data generator stream
pub struct SyntheticStream {
    generator: GeneratorKind,
    remaining: u64,
}

enum GeneratorKind {
    Zeros,
    Counter { current: u8 },
    Repeat { pattern: Vec<u8>, offset: usize },
    Random { state: u64 },
}

/// One XorShift64 step: shift left 13, right 7, left 17, each xor-ed in
pub open spec fn xorshift(x: u64) -> u64 {
    let a = x ^ (x << 13u64);
    let b = a ^ (a >> 7u64);
    b ^ (b << 17u64)
}

/// One XorShift64 step with the shift triple (13, 7, 17), in arithmetic: a
/// left shift by `k` multiplies by `2^k` modulo `2^64`, a right shift by `k`
/// divides by `2^k`
pub open spec fn xorshift64_13_7_17(x: u64) -> u64 {
    let a = x ^ ((x as nat * 8192) % 0x1_0000_0000_0000_0000) as u64;
    let b = a ^ (a / 128);
    b ^ ((b as nat * 131072) % 0x1_0000_0000_0000_0000) as u64
}

/// The state after `k` XorShift64 (13, 7, 17) steps from `s`
pub open spec fn xorshift64_iter(s: u64, k: nat) -> u64
    decreases k,
{
    if k == 0 {
        s
    } else {
        xorshift64_13_7_17(xorshift64_iter(s, (k - 1) as nat))
    }
}

/// The next `n` pseudo-random bytes from `state`: the low byte of each new state
pub open spec fn random_bytes(state: u64, n: nat) -> Seq<u8>
    decreases n,
{
    if n == 0 {
        Seq::empty()
    } else {
        seq![(xorshift(state) & 0xffu64) as u8] + random_bytes(xorshift(state), (n - 1) as nat)
    }
}

/// The next `n` bytes the generator produces
spec fn generated(g: GeneratorKind, n: nat) -> Seq<u8> {
    match g {
        GeneratorKind::Zeros => Seq::new(n, |i: int| 0u8),
        GeneratorKind::Counter { current } => Seq::new(n, |i: int| ((current + i) % 256) as u8),
        GeneratorKind::Repeat { pattern, offset } => Seq::new(
            n,
            |i: int| pattern@[(offset + i) % (pattern@.len() as int)],
        ),
        GeneratorKind::Random { state } => random_bytes(state, n),
    }
}

pub(crate) proof fn lemma_random_len(s: u64, n: nat)
    ensures
        random_bytes(s, n).len() == n,
    decreases n,
{
    if n > 0 {
        lemma_random_len(xorshift(s), (n - 1) as nat);
    }
}

proof fn lemma_generated_len(g: GeneratorKind, n: nat)
    ensures
        generated(g, n).len() == n,
{
    if let GeneratorKind::Random { state } = g {
        lemma_random_len(state, n);
    }
}

/// The generator's state is consistent with the count of bytes left
spec fn generator_ok(g: GeneratorKind, remaining: u64) -> bool {
    match g {
        GeneratorKind::Repeat { pattern, offset } => if pattern@.len() == 0 {
            remaining == 0
        } else {
            offset < pattern@.len()
        },
        _ => true,
    }
}

impl SyntheticStream {
    #[verifier::type_invariant]
    spec fn inv(&self) -> bool {
        generator_ok(self.generator, self.remaining)
    }

    /// Stream of `total_bytes` zero bytes
    pub fn zeros(total_bytes: u64) -> (r: SyntheticStream)
        ensures
            r.remaining() == Seq::new(total_bytes as nat, |i: int| 0u8),
    {
        SyntheticStream { generator: GeneratorKind::Zeros, remaining: total_bytes }
    }

    /// Stream of `total_bytes` incrementing byte values: 0, 1, ..., 255, 0, ...
    pub fn counter(total_bytes: u64) -> (r: SyntheticStream)
        ensures
            r.remaining() == Seq::new(total_bytes as nat, |i: int| (i % 256) as u8),
    {
        let r = SyntheticStream { generator: GeneratorKind::Counter { current: 0 }, remaining: total_bytes };
        assert(r.remaining() =~= Seq::new(total_bytes as nat, |i: int| (i % 256) as u8));
        r
    }

    /// Stream repeating `pattern` `count` times (its length times `count`
    /// bytes, the product saturating at `u64::MAX`)
    pub fn repeat(pattern: Vec<u8>, count: u64) -> (r: SyntheticStream)
        ensures
            ({
                let total = if pattern@.len() * count > u64::MAX { u64::MAX as nat } else { (pattern@.len() * count) as nat };
                r.remaining() == Seq::new(total, |i: int| pattern@[i % (pattern@.len() as int)])
            }),
    {
        let total = match (pattern.len() as u64).checked_mul(count) {
            Some(t) => t,
            None => u64::MAX,
        };
        let ghost p = pattern@;
        proof {
            if p.len() == 0 {
                assert(total == 0) by (nonlinear_arith)
                    requires
                        p.len() == 0,
                        total == (if p.len() * count > u64::MAX { u64::MAX as int } else { p.len() * count });
            }
        }
        let r = SyntheticStream { generator: GeneratorKind::Repeat { pattern, offset: 0 }, remaining: total };
        proof {
            if p.len() == 0 {
                assert(total == 0) by (nonlinear_arith)
                    requires total == (if p.len() * count > u64::MAX { u64::MAX as int } else { p.len() * count }), p.len() == 0;
            }
        }
        assert(r.remaining() =~= Seq::new(total as nat, |i: int| p[i % (p.len() as int)]));
        r
    }

    /// Stream of `total_bytes` bytes repeating `pattern` from its start
    /// (no bytes at all where `pattern` is empty)
    fn cycle(pattern: Vec<u8>, total_bytes: u64) -> (r: SyntheticStream)
        ensures
            r.remaining() == if pattern@.len() == 0 {
                Seq::<u8>::empty()
            } else {
                Seq::new(total_bytes as nat, |i: int| pattern@[i % (pattern@.len() as int)])
            },
    {
        let ghost p = pattern@;
        let total = if pattern.len() == 0 {
            0
        } else {
            total_bytes
        };
        let r = SyntheticStream { generator: GeneratorKind::Repeat { pattern, offset: 0 }, remaining: total };
        assert(r.remaining() =~= if p.len() == 0 {
            Seq::<u8>::empty()
        } else {
            Seq::new(total_bytes as nat, |i: int| p[i % (p.len() as int)])
        });
        r
    }

    /// Deterministic pseudo-random stream of `total_bytes` bytes by XorShift64
    /// from `seed` (a zero seed is replaced by 0xDEADBEEFCAFEBABE)
    pub fn random(total_bytes: u64, seed: u64) -> (r: SyntheticStream)
        ensures
            r.remaining() == random_bytes(if seed == 0 { 0xDEADBEEFCAFEBABEu64 } else { seed }, total_bytes as nat),
    {
        let state = if seed == 0 { 0xDEADBEEFCAFEBABEu64 } else { seed };
        SyntheticStream { generator: GeneratorKind::Random { state }, remaining: total_bytes }
    }

    /// The number of bytes still to come
    pub fn total_remaining(&self) -> (r: u64)
        ensures
            r == self.remaining().len(),
    {
        proof {
            lemma_generated_len(self.generator, self.remaining as nat);
        }
        self.remaining
    }

    /// Read all remaining bytes, appending them to `buf`; gives how many
    pub fn read_to_end(&mut self, buf: &mut Vec<u8>) -> (r: Result<usize, CoreError>)
        requires
            old(buf)@.len() + old(self).remaining().len() <= usize::MAX,
        ensures
            r matches Ok(n) && n == old(self).remaining().len(),
            final(buf)@ == old(buf)@ + old(self).remaining(),
            final(self).remaining().len() == 0,
    {
        let ghost all = self.remaining();
        let ghost b0 = buf@;
        let mut total: usize = 0;
        assert(all.skip(0) =~= all);
        assert(b0 + all.take(0) =~= b0);
        loop
            invariant
                total <= all.len(),
                self.remaining() == all.skip(total as int),
                buf@ == b0 + all.take(total as int),
                b0.len() + all.len() <= usize::MAX,
                all == old(self).remaining(),
                b0 == old(buf)@,
            decreases self.remaining().len(),
        {
            let ghost before_read = self.remaining();
            let chunk = self.read_chunk(8192)?;
            if chunk.len() == 0 {
                assert(before_read.len() == 0);
                assert(total == all.len());
                assert(all.take(total as int) =~= all);
                return Ok(total);
            }
            let ghost before = self.remaining();
            append_bytes(buf, chunk.as_slice());
            proof {
                assert(all.take(total + chunk@.len()) =~= all.take(total as int) + chunk@);
            }
            total = total + chunk.len();
            assert(self.remaining() =~= all.skip(total as int));
        }
    }
}

/// The next `n` generated bytes and the generator after them
fn produce(g: &GeneratorKind, n: usize) -> (r: (Vec<u8>, GeneratorKind))
    requires
        n > 0,
        generator_ok(*g, 1),
    ensures
        r.0@.len() == n,
        forall|m: nat| #[trigger] generated(*g, (n + m) as nat) == r.0@ + generated(r.1, m),
        generator_ok(r.1, 1),
{
    let mut out: Vec<u8> = Vec::new();
    match g {
        GeneratorKind::Zeros => {
            let mut i: usize = 0;
            while i < n
                invariant
                    i <= n,
                    out@ == Seq::new(i as nat, |k: int| 0u8),
                decreases n - i,
            {
                out.push(0u8);
                i = i + 1;
                assert(out@ =~= Seq::new(i as nat, |k: int| 0u8));
            }
            proof {
                assert forall|m: nat| #[trigger] generated(*g, (n + m) as nat) == out@ + generated(GeneratorKind::Zeros, m) by {
                    assert(generated(*g, (n + m) as nat) =~= out@ + generated(GeneratorKind::Zeros, m));
                }
            }
            (out, GeneratorKind::Zeros)
        },
        GeneratorKind::Counter { current } => {
            let c0 = *current;
            let mut c: u8 = c0;
            let mut i: usize = 0;
            while i < n
                invariant
                    i <= n,
                    c == (c0 + i) % 256,
                    out@ == Seq::new(i as nat, |k: int| ((c0 + k) % 256) as u8),
                decreases n - i,
            {
                out.push(c);
                c = if c == 255 { 0 } else { c + 1 };
                proof {
                    assert(c == (c0 + i + 1) % 256) by {
                        assert((c0 + i) % 256 + 1 == 256 ==> (c0 + i + 1) % 256 == 0) by (nonlinear_arith);
                        assert((c0 + i) % 256 + 1 < 256 ==> (c0 + i + 1) % 256 == (c0 + i) % 256 + 1) by (nonlinear_arith);
                    }
                }
                i = i + 1;
                assert(out@ =~= Seq::new(i as nat, |k: int| ((c0 + k) % 256) as u8));
            }
            proof {
                assert forall|m: nat| #[trigger] generated(*g, (n + m) as nat) == out@ + generated(
                    GeneratorKind::Counter { current: c },
                    m,
                ) by {
                    let lhs = generated(*g, (n + m) as nat);
                    let rhs = out@ + generated(GeneratorKind::Counter { current: c }, m);
                    assert forall|k: int| 0 <= k < n + m implies #[trigger] lhs[k] == rhs[k] by {
                        if k >= n {
                            assert((c + (k - n)) % 256 == (c0 + k) % 256) by (nonlinear_arith)
                                requires c == (c0 + n) % 256, k >= n;
                        }
                    }
                    assert(lhs =~= rhs);
                }
            }
            (out, GeneratorKind::Counter { current: c })
        },
        GeneratorKind::Repeat { pattern, offset } => {
            let len = pattern.len();
            let o0 = *offset;
            let mut o: usize = o0;
            let mut i: usize = 0;
            proof {
                vstd::arithmetic::div_mod::lemma_small_mod(o0 as nat, len as nat);
            }
            while i < n
                invariant
                    i <= n,
                    len == pattern@.len(),
                    len > 0,
                    o0 < len,
                    o < len,
                    o == (o0 + i) % (len as int),
                    out@ == Seq::new(i as nat, |k: int| pattern@[(o0 + k) % (len as int)]),
                decreases n - i,
            {
                out.push(pattern[o]);
                o = if o + 1 == len { 0 } else { o + 1 };
                proof {
                    assert(o == (o0 + i + 1) % (len as int)) by (nonlinear_arith)
                        requires
                            len > 0,
                            o == (if (o0 + i) % (len as int) + 1 == len { 0 } else { (o0 + i) % (len as int) + 1 }),
                    {
                        lemma_mod_step(o0 + i, len as int);
                    }
                }
                i = i + 1;
                assert(out@ =~= Seq::new(i as nat, |k: int| pattern@[(o0 + k) % (len as int)]));
            }
            let kept = crate::util::copy_bytes(pattern.as_slice());
            proof {
                assert forall|m: nat| #[trigger] generated(*g, (n + m) as nat) == out@ + generated(
                    GeneratorKind::Repeat { pattern: kept, offset: o },
                    m,
                ) by {
                    let lhs = generated(*g, (n + m) as nat);
                    let rhs = out@ + generated(GeneratorKind::Repeat { pattern: kept, offset: o }, m);
                    assert forall|k: int| 0 <= k < n + m implies #[trigger] lhs[k] == rhs[k] by {
                        if k >= n {
                            lemma_mod_shift(o0 + n, k - n, len as int);
                        }
                    }
                    assert(lhs =~= rhs);
                }
            }
            (out, GeneratorKind::Repeat { pattern: kept, offset: o })
        },
        GeneratorKind::Random { state } => {
            let s0 = *state;
            let (bytes, s) = random_run(s0, n);
            proof {
                assert(random_bytes(s0, n as nat) == bytes@ + random_bytes(s, 0));
                assert forall|m: nat| #[trigger] generated(*g, (n + m) as nat) == bytes@ + generated(
                    GeneratorKind::Random { state: s },
                    m,
                ) by {
                    assert(random_bytes(s0, (n + m) as nat) == bytes@ + random_bytes(s, m));
                }
            }
            (bytes, GeneratorKind::Random { state: s })
        },
    }
}

/// The next `n` pseudo-random bytes from `s0`, and the state after them
pub(crate) fn random_run(s0: u64, n: usize) -> (r: (Vec<u8>, u64))
    ensures
        r.0@.len() == n,
        r.0@ == random_bytes(s0, n as nat),
        forall|m: nat| #[trigger] random_bytes(s0, (n + m) as nat) == r.0@ + random_bytes(r.1, m),
{
    let mut out: Vec<u8> = Vec::new();
    let mut s: u64 = s0;
    let mut i: usize = 0;
    assert forall|m: nat| #[trigger] random_bytes(s0, (i + m) as nat) == out@ + random_bytes(s, m) by {
        assert(out@ + random_bytes(s, m) =~= random_bytes(s, m));
    }
    while i < n
        invariant
            i <= n,
            forall|m: nat| #[trigger] random_bytes(s0, (i + m) as nat) == out@ + random_bytes(s, m),
            out@.len() == i,
        decreases n - i,
    {
        let mut x = s;
        x = x ^ (x << 13u64);
        x = x ^ (x >> 7u64);
        x = x ^ (x << 17u64);
        assert(x & 0xff <= 0xff) by (bit_vector);
        let byte = (x & 0xff) as u8;
        let ghost prev = out@;
        out.push(byte);
        proof {
            assert(x == xorshift(s));
            assert forall|m: nat| #[trigger] random_bytes(s0, (i + 1 + m) as nat) == out@ + random_bytes(x, m) by {
                assert(random_bytes(s0, (i + (m + 1)) as nat) == prev + random_bytes(s, (m + 1) as nat));
                assert(random_bytes(s, (m + 1) as nat) == seq![byte] + random_bytes(x, m));
                assert(prev + (seq![byte] + random_bytes(x, m)) =~= out@ + random_bytes(x, m));
                assert(i + (m + 1) == i + 1 + m);
            }
        }
        s = x;
        i = i + 1;
    }
    proof {
        assert(random_bytes(s0, n as nat) == out@ + random_bytes(s, 0));
        assert(out@ + random_bytes(s, 0) =~= out@);
    }
    (out, s)
}

proof fn lemma_mod_step(a: int, m: int)
    requires
        m > 0,
        a >= 0,
    ensures
        (a + 1) % m == (if a % m + 1 == m { 0 } else { a % m + 1 }),
{
    assert((a + 1) % m == (if a % m + 1 == m { 0 } else { a % m + 1 })) by (nonlinear_arith)
        requires m > 0, a >= 0;
}

proof fn lemma_mod_shift(a: int, k: int, m: int)
    requires
        m > 0,
        a >= 0,
        k >= 0,
    ensures
        ((a % m) + k) % m == (a + k) % m,
{
    vstd::arithmetic::div_mod::lemma_add_mod_noop(a, k, m);
    vstd::arithmetic::div_mod::lemma_mod_twice(a, m);
    vstd::arithmetic::div_mod::lemma_add_mod_noop(a % m, k, m);
}

impl ByteSource for SyntheticStream {
    closed spec fn remaining(&self) -> Seq<u8> {
        generated(self.generator, self.remaining as nat)
    }

    closed spec fn faultless(&self) -> bool {
        true
    }

    fn read_chunk(&mut self, max: usize) -> (r: Result<Vec<u8>, CoreError>)
        ensures
            r matches Ok(v) && v@.len() == (if max < old(self).remaining().len() {
                max as nat
            } else {
                old(self).remaining().len()
            }),
    {
        proof {
            use_type_invariant(&*self);
        }
        proof {
            lemma_generated_len(self.generator, self.remaining as nat);
        }
        if self.remaining == 0 || max == 0 {
            assert(self.remaining().take(0) =~= Seq::<u8>::empty());
            assert(self.remaining().skip(0) =~= self.remaining());
            return Ok(Vec::new());
        }
        let to_write: usize = if (max as u64) < self.remaining { max } else { self.remaining as usize };
        let ghost all = self.remaining();
        let (out, next) = produce(&self.generator, to_write);
        let left = self.remaining - to_write as u64;
        proof {
            assert(generated(self.generator, (to_write + left) as nat) == out@ + generated(next, left as nat));
            assert((to_write + left) as nat == self.remaining as nat);
            lemma_generated_len(next, left as nat);
            assert(all.take(to_write as int) =~= out@);
            assert(all.skip(to_write as int) =~= generated(next, left as nat));
        }
        *self = SyntheticStream { generator: next, remaining: left };
        Ok(out)
    }
}


/// The synthetic stream that a pattern name selects: `zeros`, `counter`,
/// `repeat` (the bytes of `unit` over and over, none where `unit` is empty)
/// and `random` (from `seed`) give `size` bytes; any other name selects none
pub fn synthetic_by_name(pattern: &str, size: u64, unit: Vec<u8>, seed: u64) -> (r: Option<SyntheticStream>)
    ensures
        pattern@ == "zeros"@ ==> (r matches Some(s) && s.remaining() == Seq::new(size as nat, |i: int| 0u8)),
        pattern@ == "counter"@ ==> (r matches Some(s) && s.remaining() == Seq::new(
            size as nat,
            |i: int| (i % 256) as u8,
        )),
        pattern@ == "repeat"@ ==> (r matches Some(s) && s.remaining() == if unit@.len() == 0 {
            Seq::<u8>::empty()
        } else {
            Seq::new(size as nat, |i: int| unit@[i % (unit@.len() as int)])
        }),
        pattern@ == "random"@ ==> (r matches Some(s) && s.remaining() == random_bytes(
            if seed == 0 { 0xDEADBEEFCAFEBABEu64 } else { seed },
            size as nat,
        )),
        pattern@ != "zeros"@ && pattern@ != "counter"@ && pattern@ != "repeat"@ && pattern@ != "random"@ ==> r is None,
{
    proof {
        reveal_strlit("zeros");
        reveal_strlit("counter");
        reveal_strlit("repeat");
        reveal_strlit("random");
    }
    let name = str_chars(pattern);
    if chars_eq(name.as_slice(), &['z', 'e', 'r', 'o', 's']) {
        assert(name@ =~= "zeros"@);
        Some(SyntheticStream::zeros(size))
    } else if chars_eq(name.as_slice(), &['c', 'o', 'u', 'n', 't', 'e', 'r']) {
        assert(name@ =~= "counter"@);
        Some(SyntheticStream::counter(size))
    } else if chars_eq(name.as_slice(), &['r', 'e', 'p', 'e', 'a', 't']) {
        assert(name@ =~= "repeat"@);
        Some(SyntheticStream::cycle(unit, size))
    } else if chars_eq(name.as_slice(), &['r', 'a', 'n', 'd', 'o', 'm']) {
        assert(name@ =~= "random"@);
        Some(SyntheticStream::random(size, seed))
    } else {
        assert(name@ != "zeros"@ && name@ != "counter"@ && name@ != "repeat"@ && name@ != "random"@) by {
            assert(['z', 'e', 'r', 'o', 's']@ =~= "zeros"@);
            assert(['c', 'o', 'u', 'n', 't', 'e', 'r']@ =~= "counter"@);
            assert(['r', 'e', 'p', 'e', 'a', 't']@ =~= "repeat"@);
            assert(['r', 'a', 'n', 'd', 'o', 'm']@ =~= "random"@);
        }
        None
    }
}

/// The random pattern is XorShift64 with the shift triple (13, 7, 17): its
/// `k`-th byte from state `s` is the low byte of the state after `k + 1`
/// steps
pub proof fn lemma_random_is_xorshift64(s: u64, n: nat)
    ensures
        random_bytes(s, n).len() == n,
        forall|k: int| 0 <= k < n ==> #[trigger] random_bytes(s, n)[k] == (xorshift64_iter(s, (k + 1) as nat) % 256) as u8,
    decreases n,
{
    lemma_random_len(s, n);
    if n > 0 {
        let x = xorshift(s);
        assert(x == xorshift64_13_7_17(s)) by {
            let a = s ^ (s << 13u64);
            let b = a ^ (a >> 7u64);
            assert(s << 13u64 == ((s as nat * 8192) % 0x1_0000_0000_0000_0000) as u64) by (bit_vector);
            assert(a >> 7u64 == a / 128) by (bit_vector);
            assert(b << 17u64 == ((b as nat * 131072) % 0x1_0000_0000_0000_0000) as u64) by (bit_vector);
        }
        assert((x & 0xffu64) as u8 == (x % 256) as u8) by (bit_vector);
        lemma_random_is_xorshift64(x, (n - 1) as nat);
        lemma_iter_shift(s);
        assert forall|k: int| 0 <= k < n implies #[trigger] random_bytes(s, n)[k] == (xorshift64_iter(s, (k + 1) as nat)
            % 256) as u8 by {
            if k == 0 {
                assert(xorshift64_iter(s, 1) == xorshift64_13_7_17(xorshift64_iter(s, 0)));
            } else {
                assert(random_bytes(s, n)[k] == random_bytes(x, (n - 1) as nat)[k - 1]);
                assert(xorshift64_iter(x, k as nat) == xorshift64_iter(s, (k + 1) as nat));
            }
        }
    }
}

/// Stepping `k` times from the state after one step is stepping `k + 1` times
proof fn lemma_iter_shift(s: u64)
    ensures
        forall|k: nat| #[trigger] xorshift64_iter(xorshift64_13_7_17(s), k) == xorshift64_iter(s, k + 1),
{
    assert forall|k: nat| #[trigger] xorshift64_iter(xorshift64_13_7_17(s), k) == xorshift64_iter(s, k + 1) by {
        lemma_iter_shift_one(s, k);
    }
}

proof fn lemma_iter_shift_one(s: u64, k: nat)
    ensures
        xorshift64_iter(xorshift64_13_7_17(s), k) == xorshift64_iter(s, k + 1),
    decreases k,
{
    if k > 0 {
        let k1 = (k - 1) as nat;
        lemma_iter_shift_one(s, k1);
        assert(xorshift64_iter(xorshift64_13_7_17(s), k) == xorshift64_13_7_17(xorshift64_iter(xorshift64_13_7_17(s), k1)));
        assert(k1 + 1 == k);
        assert(xorshift64_iter(s, k + 1) == xorshift64_13_7_17(xorshift64_iter(s, k)));
    } else {
        assert(xorshift64_iter(s, 1) == xorshift64_13_7_17(xorshift64_iter(s, 0)));
    }
}

} // verus!
