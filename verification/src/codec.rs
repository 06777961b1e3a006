//! Canonical encoder, decoder and verification engine: a byte stream becomes
//! a page DAG in constant memory, and is rebuilt and checked by SHA-256

use vstd::prelude::*;
use crate::address::{Address, AddressView, NodeType, spec_to_binary};
use crate::error::CoreError;
use crate::ext::{hex_encode, hex_lower, sha256_of};
use crate::node::{Node, NodeView, children_blob, addr_views};
use crate::page::{Page, PAGE_SIZE, page_chunk, page_count, page_hash_payload, page_payload};
use crate::resolver::{ByteSink, Limits, Progress, default_limits, resolve, resolve_outcome, resolve_to_writer, failure_is, reads_exact};
use crate::store::AddressStore;
use crate::util::{append_bytes, be_bytes, bytes_eq, copy_bytes};
use crate::lossless::{pages_addressed_apart, decode_evaluations, lemma_decode_encode};

verus! {

broadcast use vstd::std_specs::vec::group_vec_axioms;

/// A source of bytes read in chunks, such as a file or a generated stream
pub trait ByteSource {
    /// The bytes the source has not delivered yet
    spec fn remaining(&self) -> Seq<u8>;

    /// Reading never fails
    spec fn faultless(&self) -> bool;

    /// Read up to `max` bytes: the next bytes of the stream, at least one of
    /// them unless the stream is at its end (or `max` is zero)
    fn read_chunk(&mut self, max: usize) -> (r: Result<Vec<u8>, CoreError>)
        ensures
            r matches Ok(v) ==> {
                &&& v@.len() <= max
                &&& v@.len() <= old(self).remaining().len()
                &&& v@ == old(self).remaining().take(v@.len() as int)
                &&& final(self).remaining() == old(self).remaining().skip(v@.len() as int)
                &&& (v@.len() == 0 ==> max == 0 || old(self).remaining().len() == 0)
            },
            final(self).faultless() == old(self).faultless(),
            old(self).faultless() ==> r is Ok,
    ;
}

/// A byte source over bytes held in memory
pub struct ByteCursor {
    data: Vec<u8>,
    pos: usize,
}

impl ByteCursor {
    /// The position never passes the end of the bytes
    #[verifier::type_invariant]
    spec fn inv(&self) -> bool {
        self.pos <= self.data@.len()
    }

    /// A cursor at the start of `data`
    pub fn new(data: Vec<u8>) -> (r: ByteCursor)
        ensures
            r.remaining() == data@,
            r.faultless(),
    {
        let r = ByteCursor { data, pos: 0 };
        assert(r.data@.skip(0) =~= r.data@);
        r
    }
}

impl ByteSource for ByteCursor {
    closed spec fn remaining(&self) -> Seq<u8> {
        self.data@.skip(self.pos as int)
    }

    closed spec fn faultless(&self) -> bool {
        true
    }

    fn read_chunk(&mut self, max: usize) -> (r: Result<Vec<u8>, CoreError>) {
        proof {
            use_type_invariant(&*self);
        }
        let left = self.data.len() - self.pos;
        let n = if max < left { max } else { left };
        let out = copy_bytes(&self.data.as_slice()[self.pos..self.pos + n]);
        let ghost before = self.data@.skip(self.pos as int);
        self.pos = self.pos + n;
        assert(out@ =~= before.take(n as int));
        assert(self.data@.skip(self.pos as int) =~= before.skip(n as int));
        Ok(out)
    }
}

/// The pages a byte string is cut into: 4096 bytes each, the last one shorter
pub open spec fn page_seq(x: Seq<u8>) -> Seq<Seq<u8>> {
    Seq::new(page_count(x.len()), |i: int| page_chunk(x, i))
}

/// The address under which a page of a multi-page stream is stored: page
/// index zero, its length, and the SHA-256 digest of its bytes
pub open spec fn hash_addr(p: Seq<u8>) -> AddressView {
    AddressView { version: 1, node_type: NodeType::Page, payload: page_hash_payload(0, p) }
}

/// The storage addresses of pages
pub open spec fn page_hashes(ps: Seq<Seq<u8>>) -> Seq<AddressView> {
    ps.map_values(|p: Seq<u8>| hash_addr(p))
}

/// Run-length grouping of a list of addresses, left to right: each run is an
/// address and how many times in a row it occurs
pub open spec fn runs(hs: Seq<AddressView>) -> Seq<(AddressView, nat)>
    decreases hs.len(),
{
    if hs.len() == 0 {
        Seq::empty()
    } else {
        let r = runs(hs.drop_last());
        if r.len() > 0 && r.last().0 == hs.last() {
            r.update(r.len() - 1, (hs.last(), r.last().1 + 1))
        } else {
            r.push((hs.last(), 1))
        }
    }
}

/// The address of a repeat node of `c` copies of `h`
pub open spec fn rep_addr(h: AddressView, c: nat) -> AddressView {
    AddressView { version: 1, node_type: NodeType::Rep, payload: be_bytes(c, 8) + spec_to_binary(h) }
}

/// The address standing for a run: the address itself once, else a repeat of it
pub open spec fn group_addr(run: (AddressView, nat)) -> AddressView {
    if run.1 == 1 {
        run.0
    } else {
        rep_addr(run.0, run.1)
    }
}

/// The address of a sequence node over `c`
pub open spec fn seq_addr(c: Seq<AddressView>) -> AddressView {
    AddressView { version: 1, node_type: NodeType::Sequence, payload: be_bytes(c.len(), 4) + children_blob(c) }
}

/// The children of the root of a multi-page stream: one address per run of equal page addresses
pub open spec fn groups(ps: Seq<Seq<u8>>) -> Seq<AddressView> {
    runs(page_hashes(ps)).map_values(|r: (AddressView, nat)| group_addr(r))
}

/// The root address `encode` gives a byte string: an empty data node, the
/// inline address of its one page, or a sequence over its page runs
pub open spec fn encode_root(x: Seq<u8>) -> AddressView {
    let ps = page_seq(x);
    if ps.len() == 0 {
        AddressView { version: 1, node_type: NodeType::Data, payload: Seq::empty() }
    } else if ps.len() == 1 {
        AddressView { version: 1, node_type: NodeType::Page, payload: page_payload(0, x) }
    } else {
        seq_addr(groups(ps))
    }
}

/// The page nodes stored for a list of pages, each under its hash address
/// (a later page overrides an earlier one under the same address)
pub open spec fn page_map(ps: Seq<Seq<u8>>) -> Map<AddressView, NodeView>
    decreases ps.len(),
{
    if ps.len() == 0 {
        Map::empty()
    } else {
        page_map(ps.drop_last()).insert(hash_addr(ps.last()), NodeView::Page(ps.last()))
    }
}

/// The repeat nodes stored for the runs longer than one
pub open spec fn rep_map(rs: Seq<(AddressView, nat)>) -> Map<AddressView, NodeView>
    decreases rs.len(),
{
    if rs.len() == 0 {
        Map::empty()
    } else {
        let m = rep_map(rs.drop_last());
        let run = rs.last();
        if run.1 > 1 {
            m.insert(rep_addr(run.0, run.1), NodeView::Repeat { target: run.0, count: run.1 as u64 })
        } else {
            m
        }
    }
}

/// The store contents after encoding `x` into a store holding `m`
pub open spec fn encode_store(m: Map<AddressView, NodeView>, x: Seq<u8>) -> Map<AddressView, NodeView> {
    let ps = page_seq(x);
    if ps.len() == 0 {
        m.insert(encode_root(x), NodeView::Data(Seq::empty()))
    } else if ps.len() == 1 {
        m.insert(encode_root(x), NodeView::Page(x))
    } else {
        m.union_prefer_right(page_map(ps)).union_prefer_right(rep_map(runs(page_hashes(ps)))).insert(
            encode_root(x),
            NodeView::Sequence(groups(ps)),
        )
    }
}

pub(crate) proof fn lemma_page_seq_empty()
    ensures
        page_seq(Seq::empty()) == Seq::<Seq<u8>>::empty(),
{
    assert(page_seq(Seq::empty()) =~= Seq::<Seq<u8>>::empty());
}

pub(crate) proof fn lemma_page_seq_push(c: Seq<u8>, v: Seq<u8>)
    requires
        c.len() % 4096 == 0,
        0 < v.len() <= 4096,
    ensures
        page_seq(c + v) == page_seq(c).push(v),
{
    let x = c + v;
    let k = c.len() / 4096;
    assert(c.len() == k * 4096);
    assert(page_count(c.len()) == k);
    assert(page_count(x.len()) == k + 1);
    assert forall|i: int| 0 <= i < k implies page_chunk(x, i) == page_chunk(c, i) by {
        assert((i + 1) * 4096 <= c.len()) by (nonlinear_arith)
            requires
                i < k,
                c.len() == k * 4096,
        ;
        assert(page_chunk(x, i) =~= page_chunk(c, i));
    }
    assert(page_chunk(x, k as int) =~= v);
    assert(page_seq(x) =~= page_seq(c).push(v));
}

proof fn lemma_page_hashes_push(ps: Seq<Seq<u8>>, p: Seq<u8>)
    ensures
        page_hashes(ps.push(p)) == page_hashes(ps).push(hash_addr(p)),
{
    assert(page_hashes(ps.push(p)) =~= page_hashes(ps).push(hash_addr(p)));
}

pub(crate) proof fn lemma_rep_map_keys(rs: Seq<(AddressView, nat)>, k: AddressView)
    requires
        rep_map(rs).contains_key(k),
    ensures
        k.node_type == NodeType::Rep,
    decreases rs.len(),
{
    if rs.len() > 0 {
        let run = rs.last();
        if !(run.1 > 1 && k == rep_addr(run.0, run.1)) {
            lemma_rep_map_keys(rs.drop_last(), k);
        }
    }
}

pub(crate) proof fn lemma_page_map_keys(ps: Seq<Seq<u8>>, k: AddressView)
    requires
        page_map(ps).contains_key(k),
    ensures
        k.node_type == NodeType::Page,
    decreases ps.len(),
{
    if ps.len() > 0 && k != hash_addr(ps.last()) {
        lemma_page_map_keys(ps.drop_last(), k);
    }
}

/// Adding a page entry to the store is adding it to the page part
proof fn lemma_put_page(
    m: Map<AddressView, NodeView>,
    ps: Seq<Seq<u8>>,
    rs: Seq<(AddressView, nat)>,
    p: Seq<u8>,
)
    ensures
        m.union_prefer_right(page_map(ps)).union_prefer_right(rep_map(rs)).insert(hash_addr(p), NodeView::Page(p))
            == m.union_prefer_right(page_map(ps.push(p))).union_prefer_right(rep_map(rs)),
{
    let h = hash_addr(p);
    assert(ps.push(p).drop_last() =~= ps);
    if rep_map(rs).contains_key(h) {
        lemma_rep_map_keys(rs, h);
    }
    assert(m.union_prefer_right(page_map(ps)).union_prefer_right(rep_map(rs)).insert(h, NodeView::Page(p))
        =~= m.union_prefer_right(page_map(ps.push(p))).union_prefer_right(rep_map(rs)));
}

/// Adding the repeat entry of a run is adding the run to the repeat part
proof fn lemma_put_run(
    m: Map<AddressView, NodeView>,
    ps: Seq<Seq<u8>>,
    rs: Seq<(AddressView, nat)>,
    h: AddressView,
    c: nat,
)
    requires
        c > 1,
        c <= u64::MAX,
    ensures
        m.union_prefer_right(page_map(ps)).union_prefer_right(rep_map(rs)).insert(
            rep_addr(h, c),
            NodeView::Repeat { target: h, count: c as u64 },
        ) == m.union_prefer_right(page_map(ps)).union_prefer_right(rep_map(rs.push((h, c)))),
{
    assert(rs.push((h, c)).drop_last() =~= rs);
    assert(m.union_prefer_right(page_map(ps)).union_prefer_right(rep_map(rs)).insert(
        rep_addr(h, c),
        NodeView::Repeat { target: h, count: c as u64 },
    ) =~= m.union_prefer_right(page_map(ps)).union_prefer_right(rep_map(rs.push((h, c)))));
}

proof fn lemma_map_empty_parts(m: Map<AddressView, NodeView>)
    ensures
        m.union_prefer_right(page_map(Seq::empty())).union_prefer_right(rep_map(Seq::empty())) == m,
{
    assert(m.union_prefer_right(page_map(Seq::empty())).union_prefer_right(rep_map(Seq::empty())) =~= m);
}


/// Read the next page of the stream: up to 4096 bytes, fewer only at its end
fn read_page<R: ByteSource>(reader: &mut R, tap: &mut ByteSink) -> (r: Result<Vec<u8>, CoreError>)
    ensures
        r matches Ok(v) ==> {
            &&& v@.len() <= 4096
            &&& v@.len() <= old(reader).remaining().len()
            &&& v@ == old(reader).remaining().take(v@.len() as int)
            &&& final(reader).remaining() == old(reader).remaining().skip(v@.len() as int)
            &&& (v@.len() < 4096 ==> final(reader).remaining().len() == 0)
            &&& final(tap).written() == old(tap).written() + v@
        },
        final(tap).kind() == old(tap).kind(),
        final(reader).faultless() == old(reader).faultless(),
        old(reader).faultless() ==> r is Ok,
{
    let ghost rem0 = reader.remaining();
    let ghost t0 = tap.written();
    let mut page: Vec<u8> = Vec::new();
    assert(rem0.skip(0) =~= rem0);
    assert(t0 + page@ =~= t0);
    while page.len() < PAGE_SIZE
        invariant
            page@.len() <= 4096,
            page@.len() <= rem0.len(),
            page@ == rem0.take(page@.len() as int),
            reader.remaining() == rem0.skip(page@.len() as int),
            tap.written() == t0 + page@,
            tap.kind() == old(tap).kind(),
            reader.faultless() == old(reader).faultless(),
            rem0 == old(reader).remaining(),
            t0 == old(tap).written(),
        ensures
            page@.len() <= 4096,
            page@.len() <= rem0.len(),
            page@ == rem0.take(page@.len() as int),
            reader.remaining() == rem0.skip(page@.len() as int),
            tap.written() == t0 + page@,
            tap.kind() == old(tap).kind(),
            reader.faultless() == old(reader).faultless(),
            page@.len() < 4096 ==> reader.remaining().len() == 0,
        decreases 4096 - page@.len(),
    {
        let ghost rem_before = reader.remaining();
        let chunk = reader.read_chunk(PAGE_SIZE - page.len())?;
        if chunk.len() == 0 {
            break;
        }
        let ghost before = page@;
        assert(chunk@ == rem_before.take(chunk@.len() as int));
        assert(rem_before =~= rem0.skip(before.len() as int));
        tap.write(chunk.as_slice());
        append_bytes(&mut page, chunk.as_slice());
        assert(page@ =~= rem0.take(page@.len() as int));
        assert(reader.remaining() =~= rem0.skip(page@.len() as int));
        assert(tap.written() =~= t0 + page@);
    }
    Ok(page)
}

/// Close a run: its address alone, or a stored repeat node over it
fn flush_run<S: AddressStore>(h: Address, count: u64, store: &mut S, grouped: &mut Vec<Address>) -> (r: Result<
    (),
    CoreError,
>)
    requires
        count >= 1,
        h@.wf(),
    ensures
        final(store).reliable() == old(store).reliable(),
        old(store).reliable() ==> r is Ok,
        r is Ok ==> addr_views(final(grouped)@) == addr_views(old(grouped)@).push(group_addr((h@, count as nat))),
        r is Ok ==> final(store).contents() == (if count > 1 {
            old(store).contents().insert(rep_addr(h@, count as nat), NodeView::Repeat { target: h@, count })
        } else {
            old(store).contents()
        }),
{
    let ghost hv = h@;
    let ghost g0 = grouped@;
    if count == 1 {
        grouped.push(h);
        assert(addr_views(grouped@) =~= addr_views(g0).push(hv));
        Ok(())
    } else {
        let rep = Node::Repeat { target: h, count };
        let ra = match rep.to_address() {
            Ok(a) => a,
            Err(e) => {
                return Err(CoreError::Node(e));
            },
        };
        let ghost rv = ra@;
        store.put(&ra, rep)?;
        grouped.push(ra);
        assert(addr_views(grouped@) =~= addr_views(g0).push(rv));
        Ok(())
    }
}

/// What the encoder holds after the pages `ps`: nothing yet, the first page
/// held back, or the runs closed so far and the run still open
spec fn encoder_state(
    ps: Seq<Seq<u8>>,
    first_page: Option<Page>,
    run: Option<(Address, u64)>,
    grouped: Seq<Address>,
    closed: Seq<(AddressView, nat)>,
    contents: Map<AddressView, NodeView>,
    m0: Map<AddressView, NodeView>,
) -> bool {
    if ps.len() == 0 {
        &&& first_page is None
        &&& run is None
        &&& grouped.len() == 0
        &&& closed.len() == 0
        &&& contents == m0
    } else if ps.len() == 1 {
        &&& first_page matches Some(fp) && fp@ == ps[0]
        &&& run is None
        &&& grouped.len() == 0
        &&& closed.len() == 0
        &&& contents == m0
    } else {
        &&& first_page is None
        &&& run matches Some(open) && {
            &&& runs(page_hashes(ps)) == closed.push((open.0@, open.1 as nat))
            &&& 1 <= open.1 <= ps.len()
            &&& open.0@ == hash_addr(ps.last())
        }
        &&& addr_views(grouped) == closed.map_values(|r: (AddressView, nat)| group_addr(r))
        &&& contents == m0.union_prefer_right(page_map(ps)).union_prefer_right(rep_map(closed))
    }
}

pub(crate) proof fn lemma_hash_addr_wf(p: Seq<u8>)
    ensures
        hash_addr(p).wf(),
{
    crate::util::lemma_be_bytes_len(0, 8);
    crate::util::lemma_be_bytes_len(p.len(), 2);
    assert(sha256_of(p)@.len() == 32);
}

/// Encode the stream, passing every byte read to `tap` as well; gives the
/// root address and the number of bytes read
fn encode_tapped<R: ByteSource, S: AddressStore>(reader: &mut R, store: &mut S, tap: &mut ByteSink) -> (r: Result<
    (Address, u64),
    CoreError,
>)
    requires
        old(reader).remaining().len() <= u64::MAX,
    ensures
        final(tap).kind() == old(tap).kind(),
        final(store).reliable() == old(store).reliable(),
        r matches Ok((a, n)) ==> {
            &&& a@ == encode_root(old(reader).remaining())
            &&& final(store).contents() == encode_store(old(store).contents(), old(reader).remaining())
            &&& final(reader).remaining().len() == 0
            &&& final(tap).written() == old(tap).written() + old(reader).remaining()
            &&& n == old(reader).remaining().len()
        },
        old(store).reliable() && old(reader).faultless() ==> r is Ok,
{
    let ghost x = reader.remaining();
    let ghost m0 = store.contents();
    let ghost t0 = tap.written();
    let ghost exact = store.reliable() && reader.faultless();
    let ghost mut ps: Seq<Seq<u8>> = Seq::empty();
    let ghost mut closed: Seq<(AddressView, nat)> = Seq::empty();
    let mut consumed: u64 = 0;
    let mut first_page: Option<Page> = None;
    let mut grouped: Vec<Address> = Vec::new();
    let mut run: Option<(Address, u64)> = None;
    proof {
        lemma_page_seq_empty();
        assert(x.take(0) =~= Seq::<u8>::empty());
        assert(x.skip(0) =~= x);
        assert(t0 + x.take(0) =~= t0);
    }
    loop
        invariant
            consumed <= x.len(),
            x.len() <= u64::MAX,
            reader.remaining() == x.skip(consumed as int),
            ps == page_seq(x.take(consumed as int)),
            consumed % 4096 == 0 || reader.remaining().len() == 0,
            ps.len() <= consumed,
            tap.written() == t0 + x.take(consumed as int),
            tap.kind() == old(tap).kind(),
            store.reliable() == old(store).reliable(),
            reader.faultless() == old(reader).faultless(),
            exact == (old(store).reliable() && old(reader).faultless()),
            x == old(reader).remaining(),
            m0 == old(store).contents(),
            t0 == old(tap).written(),
            encoder_state(ps, first_page, run, grouped@, closed, store.contents(), m0),
        ensures
            consumed == x.len(),
            reader.remaining().len() == 0,
            ps == page_seq(x),
            tap.written() == t0 + x,
            tap.kind() == old(tap).kind(),
            store.reliable() == old(store).reliable(),
            encoder_state(ps, first_page, run, grouped@, closed, store.contents(), m0),
            ps.len() <= consumed,
        decreases reader.remaining().len(),
    {
        let v = read_page(reader, tap)?;
        if v.len() == 0 {
            proof {
                assert(x.take(consumed as int) =~= x);
            }
            break;
        }
        let ghost old_ps = ps;
        let ghost c = x.take(consumed as int);
        proof {
            lemma_page_seq_push(c, v@);
            assert(c + v@ =~= x.take(consumed + v@.len()));
            assert(x.skip(consumed as int).skip(v@.len() as int) =~= x.skip(consumed + v@.len()));
            assert(t0 + c + v@ =~= t0 + x.take(consumed + v@.len()));
            ps = ps.push(v@);
        }
        consumed = consumed + v.len() as u64;
        let page = match Page::new(v) {
            Ok(p) => p,
            Err(e) => {
                return Err(CoreError::Page(e));
            },
        };
        let held = first_page;
        first_page = None;
        let open = run;
        run = None;
        if held.is_none() && open.is_none() {
            first_page = Some(page);
        } else {
            let mut current: Option<(Address, u64)> = open;
            if let Some(fp) = held {
                let fa = fp.to_hash_address(0);
                proof {
                    assert(old_ps.len() == 1);
                    assert(seq![fp@] =~= Seq::<Seq<u8>>::empty().push(fp@));
                    assert(old_ps =~= seq![fp@]);
                    lemma_map_empty_parts(m0);
                    lemma_put_page(m0, Seq::empty(), Seq::empty(), fp@);
                    lemma_page_hashes_push(Seq::empty(), fp@);
                    assert(page_hashes(Seq::<Seq<u8>>::empty()) =~= Seq::<AddressView>::empty());
                    assert(runs(seq![hash_addr(fp@)]) == seq![(hash_addr(fp@), 1nat)]) by {
                        assert(seq![hash_addr(fp@)].drop_last() =~= Seq::<AddressView>::empty());
                        assert(runs(Seq::<AddressView>::empty()) == Seq::<(AddressView, nat)>::empty());
                        assert(Seq::<(AddressView, nat)>::empty().push((hash_addr(fp@), 1nat)) =~= seq![(hash_addr(fp@), 1nat)]);
                    }
                    assert(page_hashes(old_ps) =~= seq![hash_addr(fp@)]);
                    assert(Seq::<(AddressView, nat)>::empty().push((hash_addr(fp@), 1nat)) =~= seq![(hash_addr(fp@), 1nat)]);
                    assert(Seq::<(AddressView, nat)>::empty().map_values(|r: (AddressView, nat)| group_addr(r)) =~= Seq::<AddressView>::empty());
                    assert(addr_views(grouped@) =~= Seq::<AddressView>::empty());
                }
                store.put(&fa, Node::Page(fp))?;
                current = Some((fa, 1));
                assert(closed =~= Seq::<(AddressView, nat)>::empty());
                assert(runs(page_hashes(old_ps)) == closed.push((hash_addr(fp@), 1nat)));
                assert(old_ps.last() == fp@);
            }
            assert(current matches Some(open) && {
                &&& runs(page_hashes(old_ps)) == closed.push((open.0@, open.1 as nat))
                &&& 1 <= open.1 <= old_ps.len()
                &&& open.0@ == hash_addr(old_ps.last())
            });
            assert(addr_views(grouped@) == closed.map_values(|r: (AddressView, nat)| group_addr(r)));
            assert(store.contents() == m0.union_prefer_right(page_map(old_ps)).union_prefer_right(rep_map(closed)));
            let ghost mid = store.contents();
            let ca = page.to_hash_address(0);
            let ghost pv = page@;
            store.put(&ca, Node::Page(page))?;
            proof {
                lemma_put_page(m0, old_ps, closed, pv);
                lemma_page_hashes_push(old_ps, pv);
                lemma_hash_addr_wf(pv);
            }
            match current {
                Some((prev, count)) => {
                    if prev.same_as(&ca) {
                        proof {
                            let hs = page_hashes(old_ps);
                            assert(hs.push(ca@).drop_last() =~= hs);
                            let r0 = runs(hs);
                            assert(r0 == closed.push((prev@, count as nat)));
                            assert(r0.last() == (prev@, count as nat));
                            assert(runs(hs.push(ca@)) == r0.update(r0.len() - 1, (ca@, (count + 1) as nat)));
                            assert(r0.update(r0.len() - 1, (ca@, (count + 1) as nat)) =~= closed.push((prev@, (count + 1) as nat)));
                            assert(page_hashes(ps) == hs.push(ca@));
                        }
                        run = Some((prev, count + 1));
                    } else {
                        let ghost prev_v = prev@;
                        proof {
                            let hs = page_hashes(old_ps);
                            assert(hs.push(ca@).drop_last() =~= hs);
                            let r0 = runs(hs);
                            assert(r0 == closed.push((prev@, count as nat)));
                            assert(r0.last() == (prev@, count as nat));
                            assert(runs(hs.push(ca@)) == r0.push((ca@, 1nat)));
                            assert(page_hashes(ps) == hs.push(ca@));
                            assert(prev_v == hash_addr(old_ps.last()));
                            lemma_hash_addr_wf(old_ps.last());
                        }
                        let ghost before_flush = store.contents();
                        flush_run(prev, count, store, &mut grouped)?;
                        proof {
                            if count > 1 {
                                lemma_put_run(m0, ps, closed, prev_v, count as nat);
                            } else {
                                assert(closed.push((prev_v, count as nat)).drop_last() =~= closed);
                            }
                            assert(closed.push((prev_v, count as nat)).map_values(|r: (AddressView, nat)| group_addr(r))
                                =~= closed.map_values(|r: (AddressView, nat)| group_addr(r)).push(group_addr((prev_v, count as nat))));
                            closed = closed.push((prev_v, count as nat));
                        }
                        run = Some((ca, 1));
                    }
                },
                None => {
                    run = Some((ca, 1));
                },
            }
        }
    }
    proof {
        lemma_hash_addr_wf(Seq::empty());
    }
    if first_page.is_none() && run.is_none() {
        let empty = Node::Data(Vec::new());
        let root = match empty.to_address() {
            Ok(a) => a,
            Err(e) => {
                return Err(CoreError::Node(e));
            },
        };
        proof {
            assert(empty@ == NodeView::Data(Seq::empty()));
        }
        store.put(&root, empty)?;
        return Ok((root, consumed));
    }
    if let Some(fp) = first_page {
        let root = fp.to_address(0);
        proof {
            assert(page_chunk(x, 0) =~= x);
        }
        store.put(&root, Node::Page(fp))?;
        return Ok((root, consumed));
    }
    let (h, count) = run.unwrap();
    let ghost hv = h@;
    proof {
        lemma_hash_addr_wf(ps.last());
    }
    flush_run(h, count, store, &mut grouped)?;
    proof {
        if count > 1 {
            lemma_put_run(m0, ps, closed, hv, count as nat);
        } else {
            assert(closed.push((hv, count as nat)).drop_last() =~= closed);
        }
        assert(closed.push((hv, count as nat)).map_values(|r: (AddressView, nat)| group_addr(r))
            =~= closed.map_values(|r: (AddressView, nat)| group_addr(r)).push(group_addr((hv, count as nat))));
        closed = closed.push((hv, count as nat));
        assert(addr_views(grouped@) == groups(ps));
    }
    let seq_node = Node::Sequence(grouped);
    let root = match seq_node.to_address() {
        Ok(a) => a,
        Err(e) => {
            return Err(CoreError::Node(e));
        },
    };
    store.put(&root, seq_node)?;
    Ok((root, consumed))
}


/// Encode an arbitrary byte stream into a canonical root address, in
/// constant memory: a stream of at most one page becomes one inline node;
/// a longer one becomes its pages, stored under their digest addresses, with
/// runs of equal consecutive pages folded into repeat nodes, under a sequence
pub fn encode<R: ByteSource, S: AddressStore>(reader: &mut R, store: &mut S) -> (r: Result<Address, CoreError>)
    requires
        old(reader).remaining().len() <= u64::MAX,
    ensures
        r matches Ok(a) ==> {
            &&& a@ == encode_root(old(reader).remaining())
            &&& final(store).contents() == encode_store(old(store).contents(), old(reader).remaining())
            &&& final(reader).remaining().len() == 0
        },
        final(store).reliable() == old(store).reliable(),
        old(store).reliable() && old(reader).faultless() ==> r is Ok,
{
    let mut tap = ByteSink::discard();
    match encode_tapped(reader, store, &mut tap) {
        Ok((root, _)) => Ok(root),
        Err(e) => Err(e),
    }
}

/// What decoding with the default limits yields: the bytes, or the resolver's error
pub open spec fn decode_result_is(r: Result<Vec<u8>, CoreError>, o: Result<Progress, crate::resolver::Failure>) -> bool {
    match o {
        Ok(p) => r matches Ok(v) && v@ == p.out,
        Err(f) => r matches Err(CoreError::Resolve(e)) && failure_is(e, f),
    }
}

/// Decode an address into memory, with the default limits
pub fn decode<S: AddressStore>(addr: &Address, store: &S) -> (r: Result<Vec<u8>, CoreError>)
    ensures
        reads_exact(store) ==> decode_result_is(r, resolve_outcome(store.contents(), default_limits(), addr@)),
{
    let limits = Limits::default();
    match resolve(addr, store, &limits) {
        Ok(v) => Ok(v),
        Err(e) => Err(CoreError::Resolve(e)),
    }
}

/// Decode an address streaming into `writer`, with the default limits; gives
/// the number of bytes written to it
pub fn decode_to_writer<S: AddressStore>(addr: &Address, store: &S, writer: &mut ByteSink) -> (r: Result<
    u64,
    CoreError,
>)
    ensures
        final(writer).kind() == old(writer).kind(),
        reads_exact(store) ==> match resolve_outcome(store.contents(), default_limits(), addr@) {
            Ok(p) => p.out.len() <= u64::MAX && r == Ok::<u64, CoreError>(p.out.len() as u64)
                && final(writer).written() == old(writer).written() + p.out,
            Err(f) => r matches Err(CoreError::Resolve(e)) && failure_is(e, f),
        },
{
    let limits = Limits::default();
    match resolve_to_writer(addr, store, &limits, writer) {
        Ok(n) => Ok(n),
        Err(e) => Err(CoreError::Resolve(e)),
    }
}

/// Report produced by verifying a stream or a file
#[derive(Debug, Clone, PartialEq, Eq)]
pub struct VerificationReport {
    pub file_path: String,
    pub root_address: Address,
    pub total_bytes: u64,
    pub sha256: String,
    pub verified: bool,
}

/// The label of a report on a stream
pub open spec fn stream_label() -> Seq<char> {
    seq!['<', 's', 't', 'r', 'e', 'a', 'm', '>']
}

/// The report `rep` is what verifying `x` gives when the decoder produced
/// what `p` says: the decoded byte count and digest, and whether both match
pub open spec fn report_is(rep: VerificationReport, x: Seq<u8>, p: Progress) -> bool {
    &&& rep.root_address@ == encode_root(x)
    &&& rep.total_bytes == p.out.len()
    &&& rep.sha256@ == hex_lower(sha256_of(p.out)@)
    &&& rep.verified == (p.out.len() == x.len() && sha256_of(p.out) == sha256_of(x))
}

/// Verify a byte stream: encode it (hashing it while it is read), decode the
/// root into a hasher, and compare byte counts and SHA-256 digests
pub fn verify_stream<R: ByteSource, S: AddressStore>(reader: &mut R, store: &mut S) -> (r: Result<
    VerificationReport,
    CoreError,
>)
    requires
        old(reader).remaining().len() <= u64::MAX,
    ensures
        final(store).reliable() == old(store).reliable(),
        r matches Ok(rep) ==> {
            &&& rep.file_path@ == stream_label()
            &&& final(store).contents() == encode_store(old(store).contents(), old(reader).remaining())
            &&& (final(store).reliable() ==> (resolve_outcome(
                final(store).contents(),
                default_limits(),
                encode_root(old(reader).remaining()),
            ) matches Ok(p) && report_is(rep, old(reader).remaining(), p)))
        },
        old(store).reliable() && old(reader).faultless() ==> (r is Ok <==> resolve_outcome(
            encode_store(old(store).contents(), old(reader).remaining()),
            default_limits(),
            encode_root(old(reader).remaining()),
        ) is Ok),
        ({
            let x = old(reader).remaining();
            old(store).reliable() && old(reader).faultless() && pages_addressed_apart(x) && x.len() <= 10737418240
                && decode_evaluations(x) <= 1000000 ==> (r matches Ok(rep) && rep.verified && rep.total_bytes == x.len())
        }),
{
    let ghost x = reader.remaining();
    let ghost m0 = store.contents();
    proof {
        if store.reliable() && reader.faultless() && pages_addressed_apart(x) && x.len() <= 10737418240
            && decode_evaluations(x) <= 1000000 {
            lemma_decode_encode(m0, x);
        }
    }
    let mut tap = ByteSink::digest();
    let (root, total) = match encode_tapped(reader, store, &mut tap) {
        Ok(v) => v,
        Err(e) => {
            return Err(e);
        },
    };
    assert(tap.written() =~= x);
    let expected = tap.sha256();
    let mut verifier = ByteSink::digest();
    let count = match decode_to_writer(&root, store, &mut verifier) {
        Ok(n) => n,
        Err(e) => {
            return Err(e);
        },
    };
    let ghost decoded = verifier.written();
    let got = verifier.sha256();
    let same = bytes_eq(got.as_slice(), expected.as_slice());
    proof {
        if store.reliable() {
            assert(decoded =~= resolve_outcome(store.contents(), default_limits(), root@)->Ok_0.out);
            if same {
                assert(sha256_of(decoded)@ == sha256_of(x)@);
                assert(sha256_of(decoded) =~= sha256_of(x));
            }
        }
    }
    let verified = count == total && same;
    let sha = hex_encode(got.as_slice());
    let label = "<stream>".to_owned();
    proof {
        reveal_strlit("<stream>");
        assert(label@ =~= stream_label());
    }
    Ok(VerificationReport { file_path: label, root_address: root, total_bytes: count, sha256: sha, verified })
}

} // verus!
