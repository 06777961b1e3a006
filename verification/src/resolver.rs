//! Recursive resolver and streaming reconstructor: evaluates an address into
//! bytes with cycle detection and limits on depth, output size and node count

use vstd::prelude::*;
use crate::address::{Address, AddressView, spec_uri};
use crate::error::ResolveError;
use crate::ext::{hex_encode, hex_lower, Sha256Hasher, sha256_absorbed, sha256_new, sha256_update, sha256_finalize, sha256_digest, sha256_of};
use crate::node::{Node, NodeView, NodeVerdict, node_verdict, addr_views};
pub use crate::store::AddressStore;
pub use crate::store::MemoryStore;
use crate::text::{push_chars, str_chars};
use crate::util::copy_bytes;

verus! {

broadcast use vstd::std_specs::vec::group_vec_axioms;

/// Safety resource limits for recursive reconstruction
#[derive(Debug, Clone, PartialEq, Eq)]
pub struct Limits {
    /// Maximum recursion depth (default: 64)
    pub max_depth: usize,
    /// Maximum permitted reconstructed bytes (default: 10 GiB)
    pub max_output_bytes: u64,
    /// Maximum number of node evaluations (default: 1,000,000)
    pub max_node_count: usize,
}

/// The default limits: depth 64, 10 GiB of output, a million nodes
pub open spec fn default_limits() -> Limits {
    Limits { max_depth: 64, max_output_bytes: 10737418240u64, max_node_count: 1000000 }
}

impl Default for Limits {
    fn default() -> (r: Self)
        ensures
            r == default_limits(),
    {
        Limits { max_depth: 64, max_output_bytes: 10 * 1024 * 1024 * 1024, max_node_count: 1_000_000 }
    }
}

/// Why a resolution stops, with the values its error reports
pub enum Failure {
    Cycle(Seq<char>),
    Depth(usize, usize),
    OutputBytes(u64, u64),
    NodeCount(usize),
    NotFound(Seq<char>),
}

/// The error `e` is the one that `f` describes
pub open spec fn failure_is(e: ResolveError, f: Failure) -> bool {
    match f {
        Failure::Cycle(p) => e matches ResolveError::CycleDetected { path } && path@ == p,
        Failure::Depth(l, c) => e == ResolveError::MaxDepthExceeded { limit: l, current: c },
        Failure::OutputBytes(l, c) => e == ResolveError::MaxOutputBytesExceeded { limit: l, current: c },
        Failure::NodeCount(l) => e == ResolveError::MaxNodeCountExceeded { limit: l },
        Failure::NotFound(u) => e matches ResolveError::NodeNotFound(s) && s@ == u,
    }
}

/// The state after evaluating part of a graph: the bytes it produced, the
/// number of nodes evaluated so far, and the running count of bytes that
/// reached the output (after the slices above took their part of them)
pub struct Progress {
    pub out: Seq<u8>,
    pub nodes: nat,
    pub written: u64,
}

/// `w + n`, or `u64::MAX` where that sum does not fit
pub open spec fn add_saturating(w: u64, n: nat) -> u64 {
    if w + n > u64::MAX {
        u64::MAX
    } else {
        (w + n) as u64
    }
}

/// Emitting the bytes `d` of a data or page node through the slice windows
/// `ws` above it: only what passes them counts toward the output limit
pub open spec fn emit_leaf(lim: Limits, d: Seq<u8>, nodes: nat, written: u64, ws: Seq<Window>) -> Result<
    Progress,
    Failure,
> {
    let total = add_saturating(written, pass(ws, d).len());
    if total > lim.max_output_bytes {
        Err(Failure::OutputBytes(lim.max_output_bytes, total))
    } else {
        Ok(Progress { out: d, nodes, written: total })
    }
}

/// The bytes `[offset, offset + length)` of `o`, cut at its end
pub open spec fn slice_window(o: Seq<u8>, offset: u64, length: u64) -> Seq<u8> {
    let lo = if offset < o.len() { offset as int } else { o.len() as int };
    let hi = if offset + length < o.len() { offset + length } else { o.len() as int };
    o.subrange(lo, hi)
}

/// Every node held under an address is the one that the address describes
pub open spec fn self_described(st: Map<AddressView, NodeView>) -> bool {
    forall|a: AddressView| #[trigger] st.contains_key(a) ==> node_verdict(a) == NodeVerdict::Parsed(st[a])
}

/// Every read of the store gives the node that `lookup` gives over its
/// contents: it answers every lookup, or a failed lookup, which falls back to
/// the node the address describes, finds that same node
pub open spec fn reads_exact<S: AddressStore>(store: &S) -> bool {
    store.reliable() || self_described(store.contents())
}

/// The node an address stands for: the stored node, else the node that the
/// address itself describes
pub open spec fn lookup(st: Map<AddressView, NodeView>, a: AddressView) -> Option<NodeView> {
    if st.contains_key(a) {
        Some(st[a])
    } else {
        match node_verdict(a) {
            NodeVerdict::Parsed(n) => Some(n),
            _ => None,
        }
    }
}

/// The separator between the addresses of a reported cycle
pub open spec fn arrow() -> Seq<char> {
    seq![' ', '-', '>', ' ']
}

/// The URIs of a path, joined by ` -> `
pub open spec fn path_text(p: Seq<AddressView>) -> Seq<char>
    decreases p.len(),
{
    if p.len() == 0 {
        Seq::empty()
    } else if p.len() == 1 {
        spec_uri(p[0])
    } else {
        path_text(p.drop_last()) + arrow() + spec_uri(p.last())
    }
}

/// The text of a cycle: the path, then the address that closes it
pub open spec fn cycle_text(p: Seq<AddressView>, a: AddressView) -> Seq<char> {
    path_text(p) + arrow() + spec_uri(a)
}

/// `r` with `acc` produced before it
pub open spec fn prepend(acc: Seq<u8>, r: Result<Progress, Failure>) -> Result<Progress, Failure> {
    match r {
        Ok(p) => Ok(Progress { out: acc + p.out, nodes: p.nodes, written: p.written }),
        Err(f) => Err(f),
    }
}

/// Evaluating address `a` on the resolution path `path`, with `nodes` nodes
/// evaluated, `written` bytes output so far and the slice windows `ws`
/// above it: count the node, check the limits and the path, find the node,
/// then emit its bytes or evaluate its children in order
pub open spec fn run_node(
    st: Map<AddressView, NodeView>,
    lim: Limits,
    a: AddressView,
    path: Seq<AddressView>,
    nodes: nat,
    written: u64,
    ws: Seq<Window>,
) -> Result<Progress, Failure>
    decreases lim.max_depth - path.len(), 0int, 0int,
{
    if nodes >= lim.max_node_count {
        Err(Failure::NodeCount(lim.max_node_count))
    } else if path.len() >= lim.max_depth {
        Err(Failure::Depth(lim.max_depth, path.len() as usize))
    } else if path.contains(a) {
        Err(Failure::Cycle(cycle_text(path, a)))
    } else {
        let n1 = nodes + 1;
        let p2 = path.push(a);
        match lookup(st, a) {
            None => Err(Failure::NotFound(spec_uri(a))),
            Some(NodeView::Data(d)) => emit_leaf(lim, d, n1, written, ws),
            Some(NodeView::Page(d)) => emit_leaf(lim, d, n1, written, ws),
            Some(NodeView::Reference(t)) => run_node(st, lim, t, p2, n1, written, ws),
            Some(NodeView::Sequence(c)) => run_list(st, lim, c, 0, p2, n1, written, ws),
            Some(NodeView::Repeat { target, count }) => run_list(
                st,
                lim,
                Seq::new(count as nat, |i: int| target),
                0,
                p2,
                n1,
                written,
                ws,
            ),
            Some(NodeView::Slice { target, offset, length }) => match run_node(
                st,
                lim,
                target,
                p2,
                n1,
                written,
                ws.push(Window { offset, length, pos: 0 }),
            ) {
                Ok(p) => Ok(Progress { out: slice_window(p.out, offset, length), nodes: p.nodes, written: p.written }),
                Err(f) => Err(f),
            },
        }
    }
}

/// Evaluating the addresses `c[i..]` in order, each on the path `path`,
/// the output of each going through the windows `ws` as they stand after
/// the output before it
pub open spec fn run_list(
    st: Map<AddressView, NodeView>,
    lim: Limits,
    c: Seq<AddressView>,
    i: int,
    path: Seq<AddressView>,
    nodes: nat,
    written: u64,
    ws: Seq<Window>,
) -> Result<Progress, Failure>
    decreases lim.max_depth - path.len(), 1int, c.len() - i,
{
    if i < 0 || i >= c.len() {
        Ok(Progress { out: Seq::empty(), nodes, written })
    } else {
        match run_node(st, lim, c[i], path, nodes, written, ws) {
            Err(f) => Err(f),
            Ok(p) => prepend(p.out, run_list(st, lim, c, i + 1, path, p.nodes, p.written, advance(ws, p.out))),
        }
    }
}

/// What resolving `a` from scratch gives
#[verifier::opaque]
pub open spec fn resolve_outcome(st: Map<AddressView, NodeView>, lim: Limits, a: AddressView) -> Result<
    Progress,
    Failure,
> {
    run_node(st, lim, a, Seq::empty(), 0, 0, Seq::empty())
}

/// A byte range `[offset, offset + length)` taken out of a stream, with the
/// position in that stream reached so far (held at the range's end once it
/// is passed: no later byte falls in the range)
#[derive(Clone, Copy)]
pub struct Window {
    pub offset: u64,
    pub length: u64,
    pub pos: u128,
}

/// The end of a window's range
pub open spec fn window_end(w: Window) -> int {
    w.offset + w.length
}

/// Every window's position is within its range's end
pub open spec fn windows_wf(ws: Seq<Window>) -> bool {
    forall|i: int| 0 <= i < ws.len() ==> (#[trigger] ws[i]).pos <= window_end(ws[i])
}

/// The part of chunk `b` that falls in window `w`'s range
pub open spec fn emit(w: Window, b: Seq<u8>) -> Seq<u8> {
    let lo = if w.offset >= w.pos { w.offset - w.pos } else { 0int };
    let top = window_end(w) - w.pos;
    let hi = if top < b.len() { top } else { b.len() as int };
    if lo < hi {
        b.subrange(lo, hi)
    } else {
        Seq::empty()
    }
}

/// Window `w` after `n` more bytes of its stream went by
pub open spec fn moved(w: Window, n: nat) -> Window {
    let p = if w.pos + n < window_end(w) { w.pos + n } else { window_end(w) };
    Window { offset: w.offset, length: w.length, pos: p as u128 }
}

/// What reaches the sink when chunk `b` goes through the windows, the last
/// (innermost) first
pub open spec fn pass(ws: Seq<Window>, b: Seq<u8>) -> Seq<u8>
    decreases ws.len(),
{
    if ws.len() == 0 {
        b
    } else {
        pass(ws.drop_last(), emit(ws.last(), b))
    }
}

/// The windows after chunk `b` went through them
pub open spec fn advance(ws: Seq<Window>, b: Seq<u8>) -> Seq<Window>
    decreases ws.len(),
{
    if ws.len() == 0 {
        ws
    } else {
        advance(ws.drop_last(), emit(ws.last(), b)).push(moved(ws.last(), b.len()))
    }
}

proof fn lemma_emit_split(w: Window, b1: Seq<u8>, b2: Seq<u8>)
    requires
        w.pos <= window_end(w),
    ensures
        emit(w, b1 + b2) == emit(w, b1) + emit(moved(w, b1.len()), b2),
        moved(moved(w, b1.len()), b2.len()) == moved(w, (b1 + b2).len()),
        emit(w, b1).len() <= b1.len(),
{
    let b = b1 + b2;
    let l1 = b1.len() as int;
    let lo = if w.offset >= w.pos { w.offset - w.pos } else { 0int };
    let top = window_end(w) - w.pos;
    let w2 = moved(w, b1.len());
    if w.pos + l1 >= window_end(w) {
        assert(emit(w2, b2) =~= Seq::<u8>::empty());
        if lo < top {
            assert(b.subrange(lo, top) =~= b1.subrange(lo, top));
        }
        assert(emit(w, b) =~= emit(w, b1) + emit(w2, b2));
    } else {
        assert(w2.pos == w.pos + l1);
        let lo2 = if w2.offset >= w2.pos { w2.offset - w2.pos } else { 0int };
        let top2 = window_end(w2) - w2.pos;
        let hi2 = if top2 < b2.len() { top2 } else { b2.len() as int };
        if lo >= l1 {
            assert(lo2 == lo - l1);
            assert(emit(w, b1) =~= Seq::<u8>::empty());
            if lo2 < hi2 {
                assert(b.subrange(lo, l1 + hi2) =~= b2.subrange(lo2, hi2));
            }
            assert(emit(w, b) =~= emit(w, b1) + emit(w2, b2));
        } else {
            assert(lo2 == 0);
            assert(emit(w, b1) =~= b1.subrange(lo, l1));
            assert(b.subrange(lo, l1 + hi2) =~= b1.subrange(lo, l1) + b2.subrange(0, hi2));
            assert(emit(w, b) =~= emit(w, b1) + emit(w2, b2));
        }
    }
}

proof fn lemma_emit_empty(w: Window)
    requires
        w.pos <= window_end(w),
    ensures
        emit(w, Seq::empty()) == Seq::<u8>::empty(),
        moved(w, 0) == w,
{
    assert(emit(w, Seq::empty()) =~= Seq::<u8>::empty());
}

proof fn lemma_pass_split(ws: Seq<Window>, b1: Seq<u8>, b2: Seq<u8>)
    requires
        windows_wf(ws),
    ensures
        pass(ws, b1 + b2) == pass(ws, b1) + pass(advance(ws, b1), b2),
        advance(ws, b1 + b2) == advance(advance(ws, b1), b2),
        windows_wf(advance(ws, b1)),
        advance(ws, b1).len() == ws.len(),
    decreases ws.len(),
{
    if ws.len() > 0 {
        let w = ws.last();
        let ws0 = ws.drop_last();
        assert(windows_wf(ws0)) by {
            assert forall|i: int| 0 <= i < ws0.len() implies (#[trigger] ws0[i]).pos <= window_end(ws0[i]) by {
                assert(ws0[i] == ws[i]);
            }
        }
        assert(w == ws[ws.len() - 1]);
        lemma_emit_split(w, b1, b2);
        let e1 = emit(w, b1);
        let w2 = moved(w, b1.len());
        let e2 = emit(w2, b2);
        lemma_pass_split(ws0, e1, e2);
        let a1 = advance(ws, b1);
        assert(a1 == advance(ws0, e1).push(w2));
        assert(a1.drop_last() =~= advance(ws0, e1));
        assert(a1.last() == w2);
        assert(pass(a1, b2) == pass(advance(ws0, e1), e2));
        assert(advance(a1, b2) == advance(advance(ws0, e1), e2).push(moved(w2, b2.len())));
        assert(windows_wf(a1)) by {
            assert forall|i: int| 0 <= i < a1.len() implies (#[trigger] a1[i]).pos <= window_end(a1[i]) by {
                if i < a1.len() - 1 {
                    assert(a1[i] == advance(ws0, e1)[i]);
                }
            }
        }
    }
}

proof fn lemma_pass_empty(ws: Seq<Window>)
    requires
        windows_wf(ws),
    ensures
        pass(ws, Seq::empty()) == Seq::<u8>::empty(),
        advance(ws, Seq::empty()) == ws,
    decreases ws.len(),
{
    if ws.len() > 0 {
        let ws0 = ws.drop_last();
        assert(windows_wf(ws0)) by {
            assert forall|i: int| 0 <= i < ws0.len() implies (#[trigger] ws0[i]).pos <= window_end(ws0[i]) by {
                assert(ws0[i] == ws[i]);
            }
        }
        assert(ws.last() == ws[ws.len() - 1]);
        lemma_emit_empty(ws.last());
        lemma_pass_empty(ws0);
        assert(advance(ws, Seq::empty()) =~= ws);
    }
}

proof fn lemma_fresh_window(ws: Seq<Window>, offset: u64, length: u64, o: Seq<u8>)
    ensures
        ({
            let w = Window { offset, length, pos: 0 };
            &&& emit(w, o) == slice_window(o, offset, length)
            &&& pass(ws.push(w), o) == pass(ws, emit(w, o))
            &&& advance(ws.push(w), o) == advance(ws, emit(w, o)).push(moved(w, o.len()))
        }),
{
    let w = Window { offset, length, pos: 0 };
    assert(ws.push(w).drop_last() =~= ws);
    assert(emit(w, o) =~= slice_window(o, offset, length));
}

/// Where resolved bytes go: kept in memory, or absorbed by a SHA-256 hasher
pub enum ByteSink {
    /// The bytes, collected in order
    Buffer(Vec<u8>),
    /// A hasher that absorbs the bytes
    Digest(Sha256Hasher),
    /// Nowhere: the bytes are dropped (the model keeps them)
    Discard(Ghost<Seq<u8>>),
}

impl ByteSink {
    /// The bytes written to the sink so far
    pub open spec fn written(&self) -> Seq<u8> {
        match self {
            ByteSink::Buffer(v) => v@,
            ByteSink::Digest(h) => sha256_absorbed(*h),
            ByteSink::Discard(g) => g@,
        }
    }

    /// Which kind of sink this is: in memory, hashing, or dropping
    pub open spec fn kind(&self) -> nat {
        match self {
            ByteSink::Buffer(_) => 0,
            ByteSink::Digest(_) => 1,
            ByteSink::Discard(_) => 2,
        }
    }

    /// An empty in-memory sink
    pub fn buffer() -> (r: ByteSink)
        ensures
            r.written() == Seq::<u8>::empty(),
            r is Buffer,
    {
        ByteSink::Buffer(Vec::new())
    }

    /// A sink that only hashes what it receives
    pub fn digest() -> (r: ByteSink)
        ensures
            r.written() == Seq::<u8>::empty(),
            r is Digest,
    {
        ByteSink::Digest(sha256_new())
    }

    /// A sink that drops what it receives
    pub fn discard() -> (r: ByteSink)
        ensures
            r.written() == Seq::<u8>::empty(),
            r is Discard,
    {
        ByteSink::Discard(Ghost(Seq::empty()))
    }

    /// Write `bytes` after what was written before
    pub fn write(&mut self, bytes: &[u8])
        ensures
            final(self).written() == old(self).written() + bytes@,
            final(self).kind() == old(self).kind(),
    {
        match self {
            ByteSink::Buffer(v) => crate::util::append_bytes(v, bytes),
            ByteSink::Digest(h) => sha256_update(h, bytes),
            ByteSink::Discard(g) => {
                let ghost next = g@ + bytes@;
                *g = Ghost(next);
            },
        }
    }

    /// The SHA-256 digest of everything written (of nothing, for a sink
    /// that drops its bytes)
    pub fn sha256(self) -> (r: Vec<u8>)
        ensures
            !(self is Discard) ==> r@ == sha256_of(self.written())@,
            self is Discard ==> r@ == sha256_of(Seq::empty())@,
            r@.len() == 32,
    {
        match self {
            ByteSink::Buffer(v) => sha256_digest(v.as_slice()),
            ByteSink::Digest(h) => sha256_finalize(h),
            ByteSink::Discard(_) => {
                let nothing: Vec<u8> = Vec::new();
                sha256_digest(nothing.as_slice())
            },
        }
    }

    /// The lower-case hexadecimal text of the SHA-256 digest (see `sha256`)
    pub fn sha256_hex(self) -> (r: String)
        ensures
            !(self is Discard) ==> r@ == hex_lower(sha256_of(self.written())@),
            self is Discard ==> r@ == hex_lower(sha256_of(Seq::empty())@),
    {
        let d = self.sha256();
        hex_encode(d.as_slice())
    }

    /// The bytes written, where the sink keeps them
    pub fn into_bytes(self) -> (r: Option<Vec<u8>>)
        ensures
            self is Buffer ==> (r matches Some(v) && v@ == self.written()),
            !(self is Buffer) ==> r is None,
    {
        match self {
            ByteSink::Buffer(v) => Some(v),
            _ => None,
        }
    }
}

/// What of chunk `bytes` passes the windows, and the windows after it
fn filter_through(windows: &Vec<Window>, bytes: &[u8]) -> (r: (Vec<u8>, Vec<Window>))
    requires
        windows_wf(windows@),
    ensures
        r.0@ == pass(windows@, bytes@),
        r.1@ == advance(windows@, bytes@),
        windows_wf(r.1@),
{
    let ghost ws = windows@;
    let mut filters: Vec<Window> = Vec::new();
    let mut t: usize = 0;
    while t < windows.len()
        invariant
            t <= windows@.len(),
            filters@ == windows@.take(t as int),
        decreases windows@.len() - t,
    {
        filters.push(windows[t]);
        t = t + 1;
        assert(filters@ =~= windows@.take(t as int));
    }
    assert(filters@ =~= ws);
    let mut chunk: Vec<u8> = copy_bytes(bytes);
    let mut k: usize = filters.len();
    assert(ws.take(k as int) =~= ws);
    assert(filters@.subrange(k as int, ws.len() as int) =~= Seq::<Window>::empty());
    assert(advance(ws, bytes@) =~= advance(ws.take(k as int), chunk@) + filters@.subrange(k as int, ws.len() as int));
    while k > 0
        invariant
            k <= ws.len(),
            filters@.len() == ws.len(),
            filters@.subrange(0, k as int) == ws.subrange(0, k as int),
            windows_wf(ws),
            pass(ws, bytes@) == pass(ws.take(k as int), chunk@),
            advance(ws, bytes@) == advance(ws.take(k as int), chunk@) + filters@.subrange(k as int, ws.len() as int),
        decreases k,
    {
        let w = filters[k - 1];
        assert(w == ws[k - 1]) by {
            assert(filters@.subrange(0, k as int)[k - 1] == ws.subrange(0, k as int)[k - 1]);
        }
        let off: u128 = w.offset as u128;
        let end: u128 = off + w.length as u128;
        let n: u128 = chunk.len() as u128;
        let lo: u128 = if off >= w.pos { off - w.pos } else { 0 };
        let top: u128 = end - w.pos;
        let hi: u128 = if top < n { top } else { n };
        let next: Vec<u8> = if lo < hi {
            let whole = chunk.as_slice();
            copy_bytes(&whole[lo as usize..hi as usize])
        } else {
            Vec::new()
        };
        let np: u128 = if w.pos + n < end { w.pos + n } else { end };
        let ghost before = filters@;
        filters.set(k - 1, Window { offset: w.offset, length: w.length, pos: np });
        proof {
            let t = ws.take(k as int);
            assert(t.drop_last() =~= ws.take(k - 1));
            assert(t.last() == ws[k - 1]);
            assert(next@ =~= emit(w, chunk@));
            assert(filters@[k - 1] == moved(w, chunk@.len()));
            assert(filters@.subrange(k - 1, ws.len() as int) =~= seq![moved(w, chunk@.len())] + before.subrange(
                k as int,
                ws.len() as int,
            ));
            assert(advance(t, chunk@) == advance(ws.take(k - 1), next@).push(moved(w, chunk@.len())));
            assert(advance(ws, bytes@) =~= advance(ws.take(k - 1), next@) + filters@.subrange(k - 1, ws.len() as int));
            assert(filters@.subrange(0, k - 1) =~= ws.subrange(0, k - 1)) by {
                assert(before.subrange(0, k as int) == ws.subrange(0, k as int));
                assert forall|j: int| 0 <= j < k - 1 implies filters@[j] == ws[j] by {
                    assert(before.subrange(0, k as int)[j] == ws.subrange(0, k as int)[j]);
                }
            }
        }
        chunk = next;
        k = k - 1;
    }
    assert(ws.take(0) =~= Seq::<Window>::empty());
    assert(filters@.subrange(0, ws.len() as int) =~= filters@);
    proof {
        lemma_pass_split(ws, bytes@, Seq::empty());
    }
    (chunk, filters)
}

/// The state of one resolution: the addresses being resolved (the path from
/// the root), the nodes evaluated, the bytes output so far, and the slice
/// windows the output currently goes through
struct WalkState {
    path: Vec<Address>,
    nodes: usize,
    written: u64,
    filters: Vec<Window>,
}

/// A step from state `s0` (sink holding `k0`) to state `s1` (sink holding
/// `k1`) that produced what `p` says
spec fn walked(s0: WalkState, s1: WalkState, k0: Seq<u8>, k1: Seq<u8>, p: Progress) -> bool {
    &&& s1.path@ == s0.path@
    &&& s1.nodes == p.nodes
    &&& s1.written == p.written
    &&& s1.filters@ == advance(s0.filters@, p.out)
    &&& k1 == k0 + pass(s0.filters@, p.out)
}

/// Emit the bytes of a data or page node, within the output limit
fn write_leaf(bytes: &[u8], limits: &Limits, st: &mut WalkState, sink: &mut ByteSink) -> (r: Result<
    (),
    ResolveError,
>)
    requires
        windows_wf(old(st).filters@),
    ensures
        final(sink).kind() == old(sink).kind(),
        r is Ok ==> final(st).path@ == old(st).path@ && final(st).nodes == old(st).nodes && windows_wf(
            final(st).filters@,
        ),
        match emit_leaf(*limits, bytes@, old(st).nodes as nat, old(st).written, old(st).filters@) {
            Ok(p) => r is Ok && walked(*old(st), *final(st), old(sink).written(), final(sink).written(), p),
            Err(f) => r matches Err(e) && failure_is(e, f),
        },
{
    let (chunk, next) = filter_through(&st.filters, bytes);
    let total = st.written.saturating_add(chunk.len() as u64);
    if total > limits.max_output_bytes {
        return Err(ResolveError::MaxOutputBytesExceeded { limit: limits.max_output_bytes, current: total });
    }
    sink.write(chunk.as_slice());
    st.filters = next;
    st.written = total;
    Ok(())
}

/// Whether `a` is on the path
pub(crate) fn on_path(path: &Vec<Address>, a: &Address) -> (r: bool)
    ensures
        r == addr_views(path@).contains(a@),
{
    let mut i: usize = 0;
    while i < path.len()
        invariant
            i <= path@.len(),
            forall|k: int| 0 <= k < i ==> (#[trigger] addr_views(path@)[k]) != a@,
        decreases path@.len() - i,
    {
        if path[i].same_as(a) {
            assert(addr_views(path@)[i as int] == a@);
            return true;
        }
        i = i + 1;
    }
    false
}

/// Append the characters of `s`
pub(crate) fn push_str(out: &mut String, s: &str)
    ensures
        final(out)@ == old(out)@ + s@,
{
    let cs = str_chars(s);
    push_chars(out, cs.as_slice());
}

/// The text of a cycle closed by `a`
fn cycle_message(path: &Vec<Address>, a: &Address) -> (r: String)
    ensures
        r@ == cycle_text(addr_views(path@), a@),
{
    let ghost p = addr_views(path@);
    let mut out = String::new();
    let mut i: usize = 0;
    while i < path.len()
        invariant
            i <= path@.len(),
            p == addr_views(path@),
            out@ == path_text(p.take(i as int)),
        decreases path@.len() - i,
    {
        let uri = path[i].to_uri();
        if i > 0 {
            push_chars(&mut out, &[' ', '-', '>', ' ']);
        }
        push_str(&mut out, uri.as_str());
        proof {
            let t = p.take(i + 1);
            assert(t.drop_last() =~= p.take(i as int));
            assert(t.last() == p[i as int]);
            if i == 0 {
                assert(path_text(p.take(0)) =~= Seq::<char>::empty());
                assert(out@ =~= spec_uri(p[0]));
            } else {
                assert(out@ =~= path_text(t));
            }
        }
        i = i + 1;
    }
    assert(p.take(path@.len() as int) =~= p);
    push_chars(&mut out, &[' ', '-', '>', ' ']);
    let uri = a.to_uri();
    push_str(&mut out, uri.as_str());
    assert(out@ =~= cycle_text(p, a@));
    out
}

/// The state a walk may continue from: counts and path within the limits
spec fn walk_wf(st: WalkState, lim: Limits) -> bool {
    &&& st.nodes <= lim.max_node_count
    &&& st.path@.len() <= lim.max_depth
    &&& windows_wf(st.filters@)
}

/// What a resolution step owes: on success the state it reaches, and exactly
/// the outcome `goal` that the model gives where the store answers every lookup
spec fn step_done(
    exact: bool,
    goal: Result<Progress, Failure>,
    r: Result<(), ResolveError>,
    s0: WalkState,
    s1: WalkState,
    k0: Seq<u8>,
    k1: Seq<u8>,
) -> bool {
    exact ==> match goal {
        Ok(p) => r is Ok && walked(s0, s1, k0, k1, p),
        Err(f) => r matches Err(e) && failure_is(e, f),
    }
}

/// Resolve `addr` into the sink
fn resolve_node<S: AddressStore>(
    addr: &Address,
    store: &S,
    limits: &Limits,
    st: &mut WalkState,
    sink: &mut ByteSink,
) -> (r: Result<(), ResolveError>)
    requires
        walk_wf(*old(st), *limits),
    ensures
        final(sink).kind() == old(sink).kind(),
        r is Ok ==> walk_wf(*final(st), *limits) && final(st).path@ == old(st).path@,
        step_done(
            reads_exact(store),
            run_node(
                store.contents(),
                *limits,
                addr@,
                addr_views(old(st).path@),
                old(st).nodes as nat,
                old(st).written,
                old(st).filters@,
            ),
            r,
            *old(st),
            *final(st),
            old(sink).written(),
            final(sink).written(),
        ),
    decreases limits.max_depth - old(st).path@.len(), 0int,
{
    let ghost s0 = *st;
    let ghost k0 = sink.written();
    let ghost exact = reads_exact(store);
    let ghost pv = addr_views(st.path@);
    if st.nodes >= limits.max_node_count {
        return Err(ResolveError::MaxNodeCountExceeded { limit: limits.max_node_count });
    }
    if st.path.len() >= limits.max_depth {
        return Err(ResolveError::MaxDepthExceeded { limit: limits.max_depth, current: st.path.len() });
    }
    if on_path(&st.path, addr) {
        let text = cycle_message(&st.path, addr);
        return Err(ResolveError::CycleDetected { path: text });
    }
    let node = match store.get(addr) {
        Ok(Some(n)) => n,
        _ => match Node::from_address(addr) {
            Ok(n) => n,
            Err(_) => {
                return Err(ResolveError::NodeNotFound(addr.to_uri()));
            },
        },
    };
    assert(exact ==> lookup(store.contents(), addr@) == Some(node@));
    st.nodes = st.nodes + 1;
    st.path.push(addr.clone());
    let ghost s1 = *st;
    assert(addr_views(st.path@) =~= pv.push(addr@));
    let r = match node {
        Node::Data(bytes) => write_leaf(bytes.as_slice(), limits, st, sink),
        Node::Page(page) => write_leaf(page.data(), limits, st, sink),
        Node::Reference(target) => resolve_node(&target, store, limits, st, sink),
        Node::Sequence(children) => resolve_children(&children, store, limits, st, sink),
        Node::Repeat { target, count } => resolve_repeat(&target, count, store, limits, st, sink),
        Node::Slice { target, offset, length } => {
            st.filters.push(Window { offset, length, pos: 0 });
            let ghost s2 = *st;
            let r = resolve_node(&target, store, limits, st, sink);
            if r.is_ok() {
                let ghost s3 = *st;
                st.filters.pop();
                proof {
                    if exact {
                        let res = run_node(
                            store.contents(),
                            *limits,
                            target@,
                            addr_views(s1.path@),
                            s1.nodes as nat,
                            s1.written,
                            s1.filters@.push(Window { offset, length, pos: 0 }),
                        );
                        if let Ok(p) = res {
                            lemma_fresh_window(s1.filters@, offset, length, p.out);
                            let e = slice_window(p.out, offset, length);
                            assert(s2.filters@ == s1.filters@.push(Window { offset, length, pos: 0 }));
                            assert(st.filters@ =~= s3.filters@.drop_last());
                            assert(s3.filters@ == advance(s2.filters@, p.out));
                            assert(s3.filters@ == advance(s1.filters@, e).push(moved(Window { offset, length, pos: 0 }, p.out.len())));
                            assert(st.filters@ =~= advance(s1.filters@, e));
                            assert(sink.written() == k0 + pass(s1.filters@, e));
                            assert(st.path@ == s1.path@);
                            assert(st.nodes == p.nodes);
                            assert(st.written == p.written);
                            assert(walked(s1, *st, k0, sink.written(), Progress { out: e, nodes: p.nodes, written: p.written }));
                        }
                    }
                }
                assert(windows_wf(st.filters@)) by {
                    assert forall|i: int| 0 <= i < st.filters@.len() implies (#[trigger] st.filters@[i]).pos <= window_end(st.filters@[i]) by {
                        assert(st.filters@[i] == s3.filters@[i]);
                    }
                }
            }
            r
        },
    };
    match r {
        Err(e) => Err(e),
        Ok(()) => {
            let ghost s4 = *st;
            st.path.pop();
            assert(st.path@ =~= s0.path@);
            Ok(())
        },
    }
}

/// Resolve the children in order into the sink
fn resolve_children<S: AddressStore>(
    children: &Vec<Address>,
    store: &S,
    limits: &Limits,
    st: &mut WalkState,
    sink: &mut ByteSink,
) -> (r: Result<(), ResolveError>)
    requires
        walk_wf(*old(st), *limits),
    ensures
        final(sink).kind() == old(sink).kind(),
        r is Ok ==> walk_wf(*final(st), *limits) && final(st).path@ == old(st).path@,
        step_done(
            reads_exact(store),
            run_list(
                store.contents(),
                *limits,
                addr_views(children@),
                0,
                addr_views(old(st).path@),
                old(st).nodes as nat,
                old(st).written,
                old(st).filters@,
            ),
            r,
            *old(st),
            *final(st),
            old(sink).written(),
            final(sink).written(),
        ),
    decreases limits.max_depth - old(st).path@.len(), 1int,
{
    let ghost s0 = *st;
    let ghost k0 = sink.written();
    let ghost exact = reads_exact(store);
    let ghost c = addr_views(children@);
    let ghost pv = addr_views(st.path@);
    let ghost goal = run_list(store.contents(), *limits, c, 0, pv, st.nodes as nat, st.written, st.filters@);
    let ghost mut acc: Seq<u8> = Seq::empty();
    proof {
        lemma_prepend_empty(goal);
        lemma_pass_empty(s0.filters@);
        assert(k0 + Seq::<u8>::empty() =~= k0);
    }
    let mut i: usize = 0;
    while i < children.len()
        invariant
            i <= c.len(),
            c == addr_views(children@),
            exact == reads_exact(store),
            walk_wf(*st, *limits),
            st.path@ == s0.path@,
            pv == addr_views(s0.path@),
            sink.kind() == old(sink).kind(),
            exact ==> goal == prepend(acc, run_list(store.contents(), *limits, c, i as int, pv, st.nodes as nat, st.written, st.filters@)),
            exact ==> st.filters@ == advance(s0.filters@, acc),
            exact ==> sink.written() == k0 + pass(s0.filters@, acc),
            goal == run_list(store.contents(), *limits, c, 0, pv, s0.nodes as nat, s0.written, s0.filters@),
            windows_wf(s0.filters@),
            k0 == old(sink).written(),
            s0 == *old(st),
        decreases c.len() - i,
    {
        let ghost sb = *st;
        let ghost kb = sink.written();
        let ghost res = run_node(store.contents(), *limits, c[i as int], pv, sb.nodes as nat, sb.written, sb.filters@);
        let r = resolve_node(&children[i], store, limits, st, sink);
        if r.is_err() {
            return r;
        }
        proof {
            if exact {
                if let Ok(p) = res {
                    lemma_prepend_assoc(acc, p.out, run_list(store.contents(), *limits, c, i + 1, pv, p.nodes, p.written, advance(sb.filters@, p.out)));
                    lemma_pass_split(s0.filters@, acc, p.out);
                    assert(sink.written() =~= k0 + pass(s0.filters@, acc + p.out));
                    acc = acc + p.out;
                }
            }
        }
        i = i + 1;
    }
    proof {
        if exact {
            assert(acc + Seq::<u8>::empty() =~= acc);
        }
    }
    Ok(())
}

/// Resolve `target` `count` times into the sink
fn resolve_repeat<S: AddressStore>(
    target: &Address,
    count: u64,
    store: &S,
    limits: &Limits,
    st: &mut WalkState,
    sink: &mut ByteSink,
) -> (r: Result<(), ResolveError>)
    requires
        walk_wf(*old(st), *limits),
    ensures
        final(sink).kind() == old(sink).kind(),
        r is Ok ==> walk_wf(*final(st), *limits) && final(st).path@ == old(st).path@,
        step_done(
            reads_exact(store),
            run_list(
                store.contents(),
                *limits,
                Seq::new(count as nat, |i: int| target@),
                0,
                addr_views(old(st).path@),
                old(st).nodes as nat,
                old(st).written,
                old(st).filters@,
            ),
            r,
            *old(st),
            *final(st),
            old(sink).written(),
            final(sink).written(),
        ),
    decreases limits.max_depth - old(st).path@.len(), 1int,
{
    let ghost s0 = *st;
    let ghost k0 = sink.written();
    let ghost exact = reads_exact(store);
    let ghost c = Seq::new(count as nat, |i: int| target@);
    let ghost pv = addr_views(st.path@);
    let ghost goal = run_list(store.contents(), *limits, c, 0, pv, st.nodes as nat, st.written, st.filters@);
    let ghost mut acc: Seq<u8> = Seq::empty();
    proof {
        lemma_prepend_empty(goal);
        lemma_pass_empty(s0.filters@);
        assert(k0 + Seq::<u8>::empty() =~= k0);
    }
    let mut j: u64 = 0;
    while j < count
        invariant
            j <= count,
            c == Seq::new(count as nat, |i: int| target@),
            exact == reads_exact(store),
            walk_wf(*st, *limits),
            st.path@ == s0.path@,
            pv == addr_views(s0.path@),
            sink.kind() == old(sink).kind(),
            exact ==> goal == prepend(acc, run_list(store.contents(), *limits, c, j as int, pv, st.nodes as nat, st.written, st.filters@)),
            exact ==> st.filters@ == advance(s0.filters@, acc),
            exact ==> sink.written() == k0 + pass(s0.filters@, acc),
            goal == run_list(store.contents(), *limits, c, 0, pv, s0.nodes as nat, s0.written, s0.filters@),
            windows_wf(s0.filters@),
            k0 == old(sink).written(),
            s0 == *old(st),
        decreases count - j,
    {
        let ghost sb = *st;
        let ghost res = run_node(store.contents(), *limits, target@, pv, sb.nodes as nat, sb.written, sb.filters@);
        assert(c[j as int] == target@);
        let r = resolve_node(target, store, limits, st, sink);
        if r.is_err() {
            return r;
        }
        proof {
            if exact {
                if let Ok(p) = res {
                    lemma_prepend_assoc(acc, p.out, run_list(store.contents(), *limits, c, j + 1, pv, p.nodes, p.written, advance(sb.filters@, p.out)));
                    lemma_pass_split(s0.filters@, acc, p.out);
                    assert(sink.written() =~= k0 + pass(s0.filters@, acc + p.out));
                    acc = acc + p.out;
                }
            }
        }
        j = j + 1;
    }
    proof {
        if exact {
            assert(acc + Seq::<u8>::empty() =~= acc);
        }
    }
    Ok(())
}

/// Resolve an address streaming into `writer`; gives the number of bytes
/// written to it
pub fn resolve_to_writer<S: AddressStore>(
    addr: &Address,
    store: &S,
    limits: &Limits,
    writer: &mut ByteSink,
) -> (r: Result<u64, ResolveError>)
    ensures
        final(writer).kind() == old(writer).kind(),
        reads_exact(store) ==> match resolve_outcome(store.contents(), *limits, addr@) {
            Ok(p) => r == Ok::<u64, ResolveError>(p.written) && final(writer).written() == old(writer).written() + p.out
                && (limits.max_output_bytes < u64::MAX ==> p.written == p.out.len()),
            Err(f) => r matches Err(e) && failure_is(e, f),
        },
{
    proof {
        reveal(resolve_outcome);
        assert(windows_wf(Seq::<Window>::empty()));
        if limits.max_output_bytes < u64::MAX {
            lemma_written_counts_output(store.contents(), *limits, addr@, Seq::empty(), 0, 0, Seq::empty());
        }
    }
    let mut st = WalkState { path: Vec::new(), nodes: 0, written: 0, filters: Vec::new() };
    assert(addr_views(st.path@) =~= Seq::<AddressView>::empty());
    let ghost k0 = writer.written();
    match resolve_node(addr, store, limits, &mut st, writer) {
        Ok(()) => {
            assert(pass(Seq::<Window>::empty(), Seq::<u8>::empty()) == Seq::<u8>::empty());
            Ok(st.written)
        },
        Err(e) => Err(e),
    }
}

/// Resolve an address into a byte vector
pub fn resolve<S: AddressStore>(addr: &Address, store: &S, limits: &Limits) -> (r: Result<Vec<u8>, ResolveError>)
    ensures
        reads_exact(store) ==> match resolve_outcome(store.contents(), *limits, addr@) {
            Ok(p) => r matches Ok(v) && v@ == p.out,
            Err(f) => r matches Err(e) && failure_is(e, f),
        },
{
    let mut sink = ByteSink::buffer();
    match resolve_to_writer(addr, store, limits, &mut sink) {
        Ok(_) => {
            let v = sink.into_bytes().unwrap();
            assert(Seq::<u8>::empty() + v@ =~= v@);
            Ok(v)
        },
        Err(e) => Err(e),
    }
}

proof fn lemma_prepend_assoc(a: Seq<u8>, b: Seq<u8>, r: Result<Progress, Failure>)
    ensures
        prepend(a, prepend(b, r)) == prepend(a + b, r),
{
    if let Ok(p) = r {
        assert(a + (b + p.out) =~= (a + b) + p.out);
    }
}

proof fn lemma_prepend_empty(r: Result<Progress, Failure>)
    ensures
        prepend(Seq::empty(), r) == r,
{
    if let Ok(p) = r {
        assert(Seq::<u8>::empty() + p.out =~= p.out);
    }
}

/// The count a resolution keeps is the number of bytes it output: what
/// passes the windows above, added to the count before (the output limit
/// below `u64::MAX`, so that the count never saturates)
pub proof fn lemma_written_counts_output(
    st: Map<AddressView, NodeView>,
    lim: Limits,
    a: AddressView,
    path: Seq<AddressView>,
    nodes: nat,
    written: u64,
    ws: Seq<Window>,
)
    requires
        windows_wf(ws),
        lim.max_output_bytes < u64::MAX,
    ensures
        run_node(st, lim, a, path, nodes, written, ws) matches Ok(p) ==> p.written == written + pass(ws, p.out).len(),
    decreases lim.max_depth - path.len(), 0int, 0int,
{
    if nodes < lim.max_node_count && path.len() < lim.max_depth && !path.contains(a) {
        let n1 = nodes + 1;
        let p2 = path.push(a);
        match lookup(st, a) {
            Some(NodeView::Reference(t)) => {
                lemma_written_counts_output(st, lim, t, p2, n1, written, ws);
            },
            Some(NodeView::Sequence(c)) => {
                lemma_written_counts_list(st, lim, c, 0, p2, n1, written, ws);
            },
            Some(NodeView::Repeat { target, count }) => {
                lemma_written_counts_list(st, lim, Seq::new(count as nat, |i: int| target), 0, p2, n1, written, ws);
            },
            Some(NodeView::Slice { target, offset, length }) => {
                let w = Window { offset, length, pos: 0 };
                let ws2 = ws.push(w);
                assert(windows_wf(ws2)) by {
                    assert forall|i: int| 0 <= i < ws2.len() implies (#[trigger] ws2[i]).pos <= window_end(ws2[i]) by {
                        if i < ws.len() {
                            assert(ws2[i] == ws[i]);
                        }
                    }
                }
                lemma_written_counts_output(st, lim, target, p2, n1, written, ws2);
                if let Ok(p1) = run_node(st, lim, target, p2, n1, written, ws2) {
                    lemma_fresh_window(ws, offset, length, p1.out);
                }
            },
            _ => {},
        }
    }
}

/// The count a resolution of a list keeps is the number of bytes it output
pub proof fn lemma_written_counts_list(
    st: Map<AddressView, NodeView>,
    lim: Limits,
    c: Seq<AddressView>,
    i: int,
    path: Seq<AddressView>,
    nodes: nat,
    written: u64,
    ws: Seq<Window>,
)
    requires
        windows_wf(ws),
        lim.max_output_bytes < u64::MAX,
    ensures
        run_list(st, lim, c, i, path, nodes, written, ws) matches Ok(p) ==> p.written == written + pass(ws, p.out).len(),
    decreases lim.max_depth - path.len(), 1int, c.len() - i,
{
    if i < 0 || i >= c.len() {
        lemma_pass_empty(ws);
    } else {
        lemma_written_counts_output(st, lim, c[i], path, nodes, written, ws);
        if let Ok(p1) = run_node(st, lim, c[i], path, nodes, written, ws) {
            let ws2 = advance(ws, p1.out);
            lemma_pass_split(ws, p1.out, Seq::empty());
            lemma_written_counts_list(st, lim, c, i + 1, path, p1.nodes, p1.written, ws2);
            if let Ok(p2) = run_list(st, lim, c, i + 1, path, p1.nodes, p1.written, ws2) {
                lemma_pass_split(ws, p1.out, p2.out);
            }
        }
    }
}

} // verus!
