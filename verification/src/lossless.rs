//! Decoding inverts encoding: the proof that resolving the root that
//! `encode` returns, in the store that `encode` leaves, gives back the bytes

use vstd::prelude::*;
use crate::address::{AddressView, NodeType, spec_to_binary, lemma_binary_verdict_roundtrip};
use crate::codec::{
    page_seq, hash_addr, page_hashes, runs, rep_addr, group_addr, groups, encode_root, page_map, rep_map,
    encode_store, lemma_page_seq_empty, lemma_page_seq_push,
};
use crate::node::NodeView;
use crate::page::page_count;
use crate::resolver::{Progress, default_limits, resolve_outcome, run_node, run_list, lookup};
use crate::util::{be_bytes, pow256, lemma_be_bytes_len, lemma_be_roundtrip};

verus! {

/// The bytes of a list of pages, one after the other
pub open spec fn concat(ps: Seq<Seq<u8>>) -> Seq<u8>
    decreases ps.len(),
{
    if ps.len() == 0 {
        Seq::empty()
    } else {
        concat(ps.drop_last()) + ps.last()
    }
}

/// The number of pages before run `k`
pub open spec fn run_start(rs: Seq<(AddressView, nat)>, k: int) -> nat
    decreases k,
{
    if k <= 0 || k > rs.len() {
        0
    } else {
        run_start(rs, k - 1) + rs[k - 1].1
    }
}

proof fn lemma_concat_split(a: Seq<Seq<u8>>, b: Seq<Seq<u8>>)
    ensures
        concat(a + b) == concat(a) + concat(b),
    decreases b.len(),
{
    if b.len() == 0 {
        assert(a + b =~= a);
        assert(concat(a) + Seq::<u8>::empty() =~= concat(a));
    } else {
        assert((a + b).drop_last() =~= a + b.drop_last());
        lemma_concat_split(a, b.drop_last());
        assert(concat(a) + concat(b.drop_last()) + b.last() =~= concat(a) + (concat(b.drop_last()) + b.last()));
    }
}

proof fn lemma_last_page_start(n: int)
    requires
        n > 0,
    ensures
        ((n - 1) / 4096) * 4096 < n,
        n - ((n - 1) / 4096) * 4096 <= 4096,
        (((n - 1) / 4096) * 4096) % 4096 == 0,
        ((n - 1) / 4096) * 4096 >= 0,
{
    let q = (n - 1) / 4096;
    assert((n - 1) == q * 4096 + (n - 1) % 4096) by (nonlinear_arith)
        requires n > 0, q == (n - 1) / 4096;
    assert((q * 4096) % 4096 == 0) by (nonlinear_arith)
        requires q >= 0;
}

/// The pages of a byte string, one after the other, are the byte string
pub proof fn lemma_concat_page_seq(x: Seq<u8>)
    ensures
        concat(page_seq(x)) == x,
    decreases x.len(),
{
    if x.len() == 0 {
        lemma_page_seq_empty();
        assert(x =~= Seq::<u8>::empty());
    } else {
        lemma_last_page_start(x.len() as int);
        let k = ((x.len() - 1) / 4096) * 4096;
        let c = x.take(k);
        let v = x.skip(k);
        lemma_page_seq_push(c, v);
        assert(c + v =~= x);
        lemma_concat_page_seq(c);
        assert(page_seq(c).push(v).drop_last() =~= page_seq(c));
    }
}

proof fn lemma_run_start_update(r: Seq<(AddressView, nat)>, idx: int, e: (AddressView, nat), k: int)
    requires
        0 <= idx < r.len(),
        k <= idx,
    ensures
        run_start(r.update(idx, e), k) == run_start(r, k),
    decreases k,
{
    if k > 0 {
        lemma_run_start_update(r, idx, e, k - 1);
    }
}

proof fn lemma_run_start_push(r: Seq<(AddressView, nat)>, e: (AddressView, nat), k: int)
    requires
        k <= r.len(),
    ensures
        run_start(r.push(e), k) == run_start(r, k),
    decreases k,
{
    if k > 0 {
        lemma_run_start_push(r, e, k - 1);
    }
}

proof fn lemma_run_start_mono(r: Seq<(AddressView, nat)>, k: int, j: int)
    requires
        0 <= k <= j <= r.len(),
    ensures
        run_start(r, k) <= run_start(r, j),
    decreases j - k,
{
    if k < j {
        lemma_run_start_mono(r, k, j - 1);
    }
}

/// The runs `rs` cover `hs`: they add up to its length, each is at least
/// one long, and each address in a run is the run's address
pub open spec fn run_shape(hs: Seq<AddressView>, rs: Seq<(AddressView, nat)>) -> bool {
    &&& run_start(rs, rs.len() as int) == hs.len()
    &&& forall|k: int| 0 <= k < rs.len() ==> (#[trigger] rs[k]).1 >= 1
    &&& forall|k: int, i: int|
        #![trigger rs[k], hs[i]]
        0 <= k < rs.len() && run_start(rs, k) <= i < run_start(rs, k) + rs[k].1 ==> hs[i] == rs[k].0
}

proof fn lemma_shape_extend(hs0: Seq<AddressView>, r0: Seq<(AddressView, nat)>, h: AddressView)
    requires
        run_shape(hs0, r0),
        r0.len() > 0,
        r0.last().0 == h,
    ensures
        run_shape(hs0.push(h), r0.update(r0.len() - 1, (h, r0.last().1 + 1))),
{
    let hs = hs0.push(h);
    let l = r0.len() as int;
    let c = r0.last().1;
    let rs = r0.update(l - 1, (h, c + 1));
    lemma_run_start_update(r0, l - 1, (h, c + 1), l - 1);
    assert(r0[l - 1] == r0.last());
    assert(run_start(rs, l) == run_start(rs, l - 1) + c + 1);
    assert(run_start(r0, l) == run_start(r0, l - 1) + c);
    assert forall|k: int, i: int|
        #![trigger rs[k], hs[i]]
        0 <= k < rs.len() && run_start(rs, k) <= i < run_start(rs, k) + rs[k].1 implies hs[i] == rs[k].0 by {
        if k < l - 1 {
            lemma_run_start_update(r0, l - 1, (h, c + 1), k);
            lemma_run_start_mono(r0, k + 1, l);
            assert(r0[k] == rs[k]);
            assert(hs0[i] == r0[k].0);
        } else if i < hs0.len() {
            assert(hs0[i] == r0[l - 1].0);
        }
    }
    assert forall|k: int| 0 <= k < rs.len() implies (#[trigger] rs[k]).1 >= 1 by {
        if k < l - 1 {
            assert(r0[k] == rs[k]);
        }
    }
}

proof fn lemma_shape_push(hs0: Seq<AddressView>, r0: Seq<(AddressView, nat)>, h: AddressView)
    requires
        run_shape(hs0, r0),
    ensures
        run_shape(hs0.push(h), r0.push((h, 1nat))),
{
    let hs = hs0.push(h);
    let l = r0.len() as int;
    let rs = r0.push((h, 1nat));
    lemma_run_start_push(r0, (h, 1nat), l);
    assert forall|k: int, i: int|
        #![trigger rs[k], hs[i]]
        0 <= k < rs.len() && run_start(rs, k) <= i < run_start(rs, k) + rs[k].1 implies hs[i] == rs[k].0 by {
        if k < l {
            lemma_run_start_push(r0, (h, 1nat), k);
            lemma_run_start_mono(r0, k + 1, l);
            assert(r0[k] == rs[k]);
            assert(hs0[i] == r0[k].0);
        }
    }
    assert forall|k: int| 0 <= k < rs.len() implies (#[trigger] rs[k]).1 >= 1 by {
        if k < l {
            assert(r0[k] == rs[k]);
        }
    }
}

/// The runs of a list of addresses cover it
pub proof fn lemma_runs_shape(hs: Seq<AddressView>)
    ensures
        run_shape(hs, runs(hs)),
    decreases hs.len(),
{
    if hs.len() > 0 {
        let hs0 = hs.drop_last();
        let r0 = runs(hs0);
        let h = hs.last();
        lemma_runs_shape(hs0);
        assert(hs0.push(h) =~= hs);
        if r0.len() > 0 && r0.last().0 == h {
            lemma_shape_extend(hs0, r0, h);
        } else {
            lemma_shape_push(hs0, r0, h);
        }
    } else {
        assert(run_start(runs(hs), 0) == 0);
    }
}

/// Distinct pages of the list have distinct storage addresses
pub open spec fn pages_apart(ps: Seq<Seq<u8>>) -> bool {
    forall|i: int, j: int|
        0 <= i < ps.len() && 0 <= j < ps.len() && #[trigger] hash_addr(ps[i]) == #[trigger] hash_addr(ps[j]) ==> ps[i]
            == ps[j]
}

/// Distinct pages of `x` have distinct digests (SHA-256 has no collision among them)
pub open spec fn pages_addressed_apart(x: Seq<u8>) -> bool {
    pages_apart(page_seq(x))
}

/// The nodes evaluated for runs `k..`: one for a single page, one for a
/// repeat and one per page it repeats
pub open spec fn run_evals_from(rs: Seq<(AddressView, nat)>, k: int) -> nat
    decreases rs.len() - k,
{
    if k < 0 || k >= rs.len() {
        0
    } else {
        (if rs[k].1 == 1 {
            1nat
        } else {
            1 + rs[k].1
        }) + run_evals_from(rs, k + 1)
    }
}

/// The number of nodes that decoding the root of `x` evaluates
pub open spec fn decode_evaluations(x: Seq<u8>) -> nat {
    if page_count(x.len()) <= 1 {
        1
    } else {
        1 + run_evals_from(runs(page_hashes(page_seq(x))), 0)
    }
}

/// `p`, `k` times over
pub open spec fn repeat_bytes(p: Seq<u8>, k: nat) -> Seq<u8>
    decreases k,
{
    if k == 0 {
        Seq::empty()
    } else {
        p + repeat_bytes(p, (k - 1) as nat)
    }
}

pub(crate) proof fn lemma_repeat_bytes_back(p: Seq<u8>, k: nat)
    ensures
        repeat_bytes(p, k + 1) == repeat_bytes(p, k) + p,
        repeat_bytes(p, k).len() == k * p.len(),
    decreases k,
{
    if k == 0 {
        assert(repeat_bytes(p, 0) + p =~= p);
        assert(p + Seq::<u8>::empty() =~= p);
    } else {
        lemma_repeat_bytes_back(p, (k - 1) as nat);
        assert(p + (repeat_bytes(p, (k - 1) as nat) + p) =~= (p + repeat_bytes(p, (k - 1) as nat)) + p);
        assert(k * p.len() == p.len() + (k - 1) * p.len()) by (nonlinear_arith)
            requires k >= 1;
    }
}

/// A list of copies of `p`, one after the other, is `p` repeated
proof fn lemma_concat_copies(q: Seq<Seq<u8>>, p: Seq<u8>)
    requires
        forall|i: int| 0 <= i < q.len() ==> q[i] == p,
    ensures
        concat(q) == repeat_bytes(p, q.len()),
    decreases q.len(),
{
    if q.len() > 0 {
        let q0 = q.drop_last();
        lemma_concat_copies(q0, p);
        lemma_repeat_bytes_back(p, q0.len());
    }
}

proof fn lemma_page_map_lookup(ps: Seq<Seq<u8>>)
    requires
        pages_apart(ps),
    ensures
        forall|i: int|
            0 <= i < ps.len() ==> page_map(ps).contains_key(#[trigger] hash_addr(ps[i])) && page_map(ps)[hash_addr(ps[i])]
                == NodeView::Page(ps[i]),
    decreases ps.len(),
{
    if ps.len() > 0 {
        let ps0 = ps.drop_last();
        assert(pages_apart(ps0)) by {
            assert forall|i: int, j: int|
                0 <= i < ps0.len() && 0 <= j < ps0.len() && #[trigger] hash_addr(ps0[i]) == #[trigger] hash_addr(ps0[j])
                    implies ps0[i] == ps0[j] by {
                assert(ps0[i] == ps[i] && ps0[j] == ps[j]);
            }
        }
        lemma_page_map_lookup(ps0);
        assert forall|i: int| 0 <= i < ps.len() implies page_map(ps).contains_key(#[trigger] hash_addr(ps[i]))
            && page_map(ps)[hash_addr(ps[i])] == NodeView::Page(ps[i]) by {
            let last = ps.len() - 1;
            assert(ps.last() == ps[last]);
            if i < last {
                assert(ps0[i] == ps[i]);
                if hash_addr(ps[i]) == hash_addr(ps[last]) {
                    assert(ps[i] == ps[last]);
                }
            }
        }
    }
}

proof fn lemma_rep_addr_injective(h1: AddressView, c1: nat, h2: AddressView, c2: nat)
    requires
        h1.wf(),
        h2.wf(),
        c1 <= u64::MAX,
        c2 <= u64::MAX,
        rep_addr(h1, c1) == rep_addr(h2, c2),
    ensures
        h1 == h2,
        c1 == c2,
{
    let p1 = rep_addr(h1, c1).payload;
    let p2 = rep_addr(h2, c2).payload;
    lemma_be_bytes_len(c1, 8);
    lemma_be_bytes_len(c2, 8);
    assert(p1.subrange(0, 8) =~= be_bytes(c1, 8));
    assert(p2.subrange(0, 8) =~= be_bytes(c2, 8));
    reveal_with_fuel(pow256, 9);
    lemma_be_roundtrip(c1, 8);
    lemma_be_roundtrip(c2, 8);
    assert(p1.subrange(8, p1.len() as int) =~= spec_to_binary(h1));
    assert(p2.subrange(8, p2.len() as int) =~= spec_to_binary(h2));
    lemma_binary_verdict_roundtrip(h1);
    lemma_binary_verdict_roundtrip(h2);
}

/// Every run is at least one long, at most `u64::MAX`, over a valid address
pub open spec fn runs_ok(rs: Seq<(AddressView, nat)>) -> bool {
    forall|k: int| 0 <= k < rs.len() ==> 1 <= (#[trigger] rs[k]).1 <= u64::MAX && rs[k].0.wf()
}

proof fn lemma_rep_map_lookup(rs: Seq<(AddressView, nat)>)
    requires
        runs_ok(rs),
    ensures
        forall|k: int|
            0 <= k < rs.len() && (#[trigger] rs[k]).1 > 1 ==> rep_map(rs).contains_key(rep_addr(rs[k].0, rs[k].1))
                && rep_map(rs)[rep_addr(rs[k].0, rs[k].1)] == (NodeView::Repeat { target: rs[k].0, count: rs[k].1 as u64 }),
    decreases rs.len(),
{
    if rs.len() > 0 {
        let rs0 = rs.drop_last();
        assert(runs_ok(rs0)) by {
            assert forall|k: int| 0 <= k < rs0.len() implies 1 <= (#[trigger] rs0[k]).1 <= u64::MAX && rs0[k].0.wf() by {
                assert(rs0[k] == rs[k]);
            }
        }
        lemma_rep_map_lookup(rs0);
        let last = rs.len() - 1;
        assert(rs.last() == rs[last]);
        assert forall|k: int| 0 <= k < rs.len() && (#[trigger] rs[k]).1 > 1 implies rep_map(rs).contains_key(
            rep_addr(rs[k].0, rs[k].1),
        ) && rep_map(rs)[rep_addr(rs[k].0, rs[k].1)] == NodeView::Repeat { target: rs[k].0, count: rs[k].1 as u64 } by {
            if k < last {
                assert(rs0[k] == rs[k]);
                if rs[last].1 > 1 && rep_addr(rs[k].0, rs[k].1) == rep_addr(rs[last].0, rs[last].1) {
                    lemma_rep_addr_injective(rs[k].0, rs[k].1, rs[last].0, rs[last].1);
                }
            }
        }
    }
}


/// No address on the path is a page address
pub open spec fn no_pages_on(path: Seq<AddressView>) -> bool {
    forall|i: int| 0 <= i < path.len() ==> (#[trigger] path[i]).node_type != NodeType::Page
}

proof fn lemma_eval_page(m: Map<AddressView, NodeView>, p: Seq<u8>, path: Seq<AddressView>, n: nat, w: u64)
    requires
        m.contains_key(hash_addr(p)),
        m[hash_addr(p)] == NodeView::Page(p),
        no_pages_on(path),
        path.len() < 64,
        n < 1000000,
        w + p.len() <= 10737418240,
    ensures
        run_node(m, default_limits(), hash_addr(p), path, n, w, Seq::empty()) == Ok::<Progress, crate::resolver::Failure>(
            Progress { out: p, nodes: n + 1, written: (w + p.len()) as u64 },
        ),
{
    if path.contains(hash_addr(p)) {
        let i = choose|i: int| 0 <= i < path.len() && path[i] == hash_addr(p);
        assert(path[i].node_type != NodeType::Page);
    }
    assert(lookup(m, hash_addr(p)) == Some(NodeView::Page(p)));
}

proof fn lemma_eval_repeat(
    m: Map<AddressView, NodeView>,
    p: Seq<u8>,
    path: Seq<AddressView>,
    c: nat,
    i: nat,
    n: nat,
    w: u64,
)
    requires
        m.contains_key(hash_addr(p)),
        m[hash_addr(p)] == NodeView::Page(p),
        no_pages_on(path),
        path.len() < 64,
        i <= c,
        n + (c - i) <= 1000000,
        w + (c - i) * p.len() <= 10737418240,
    ensures
        run_list(m, default_limits(), Seq::new(c, |j: int| hash_addr(p)), i as int, path, n, w, Seq::empty()) == Ok::<
            Progress,
            crate::resolver::Failure,
        >(Progress { out: repeat_bytes(p, (c - i) as nat), nodes: (n + (c - i)) as nat, written: (w + (c - i) * p.len()) as u64 }),
    decreases c - i,
{
    let hs = Seq::new(c, |j: int| hash_addr(p));
    if i < c {
        let k = (c - i - 1) as nat;
        assert((c - i) * p.len() == p.len() + k * p.len()) by (nonlinear_arith)
            requires k == c - i - 1, i < c;
        assert(k * p.len() >= 0) by (nonlinear_arith);
        lemma_eval_page(m, p, path, n, w);
        assert(hs[i as int] == hash_addr(p));
        let w1 = (w + p.len()) as u64;
        lemma_eval_repeat(m, p, path, c, i + 1, n + 1, w1);
        let r2 = run_list(m, default_limits(), hs, (i + 1) as int, path, n + 1, w1, Seq::empty());
        assert(r2 == Ok::<Progress, crate::resolver::Failure>(
            Progress { out: repeat_bytes(p, k), nodes: (n + 1 + k) as nat, written: (w1 + k * p.len()) as u64 },
        ));
        assert(run_list(m, default_limits(), hs, i as int, path, n, w, Seq::empty()) == crate::resolver::prepend(p, r2));
        assert(repeat_bytes(p, (c - i) as nat) == p + repeat_bytes(p, k));
    } else {
        assert(repeat_bytes(p, 0) == Seq::<u8>::empty());
        assert((c - i) * p.len() == 0) by (nonlinear_arith)
            requires i == c;
    }
}

/// What the groups lemma needs of the store and the runs
pub open spec fn groups_ready(m: Map<AddressView, NodeView>, ps: Seq<Seq<u8>>, root: AddressView) -> bool {
    let rs = runs(page_hashes(ps));
    &&& pages_apart(ps)
    &&& runs_ok(rs)
    &&& run_shape(page_hashes(ps), rs)
    &&& root.node_type == NodeType::Sequence
    &&& forall|i: int|
        0 <= i < ps.len() ==> m.contains_key(#[trigger] hash_addr(ps[i])) && m[hash_addr(ps[i])] == NodeView::Page(ps[i])
    &&& forall|k: int|
        0 <= k < rs.len() && (#[trigger] rs[k]).1 > 1 ==> m.contains_key(rep_addr(rs[k].0, rs[k].1)) && m[rep_addr(
            rs[k].0,
            rs[k].1,
        )] == NodeView::Repeat { target: rs[k].0, count: rs[k].1 as u64 }
}

/// The bytes of run `k`'s pages
pub open spec fn run_bytes(ps: Seq<Seq<u8>>, k: int) -> Seq<u8> {
    let rs = runs(page_hashes(ps));
    concat(ps.subrange(run_start(rs, k) as int, run_start(rs, k + 1) as int))
}

/// The nodes evaluated for one run
pub open spec fn run_evals(run: (AddressView, nat)) -> nat {
    if run.1 == 1 {
        1
    } else {
        1 + run.1
    }
}

/// The pages of a run are copies of its first page, whose address is the run's
#[verifier::spinoff_prover]
#[verifier::rlimit(50)]
proof fn lemma_run_pages(ps: Seq<Seq<u8>>, k: int)
    requires
        pages_apart(ps),
        run_shape(page_hashes(ps), runs(page_hashes(ps))),
        0 <= k < runs(page_hashes(ps)).len(),
    ensures
        ({
            let rs = runs(page_hashes(ps));
            let s = run_start(rs, k);
            &&& run_start(rs, k + 1) == s + rs[k].1
            &&& s + rs[k].1 <= ps.len()
            &&& rs[k].0 == hash_addr(ps[s as int])
            &&& run_bytes(ps, k) == repeat_bytes(ps[s as int], rs[k].1)
            &&& run_bytes(ps, k).len() == rs[k].1 * ps[s as int].len()
        }),
{
    let hs = page_hashes(ps);
    let rs = runs(hs);
    let s = run_start(rs, k);
    let c = rs[k].1;
    lemma_run_start_mono(rs, k + 1, rs.len() as int);
    assert(run_start(rs, k + 1) == s + c);
    let p = ps[s as int];
    let h = rs[k].0;
    assert(hs[s as int] == h);
    let seg = ps.subrange(s as int, (s + c) as int);
    assert forall|i: int| 0 <= i < seg.len() implies seg[i] == p by {
        assert(seg[i] == ps[s + i]);
        assert(hs[s + i] == h);
        assert(hash_addr(ps[s + i]) == hash_addr(ps[s as int]));
    }
    lemma_concat_copies(seg, p);
    lemma_repeat_bytes_back(p, c);
}

/// Evaluating the repeat node of a run
proof fn lemma_eval_rep_node(m: Map<AddressView, NodeView>, p: Seq<u8>, c: nat, root: AddressView, n: nat, w: u64)
    requires
        root.node_type == NodeType::Sequence,
        m.contains_key(hash_addr(p)),
        m[hash_addr(p)] == NodeView::Page(p),
        1 < c <= u64::MAX,
        m.contains_key(rep_addr(hash_addr(p), c)),
        m[rep_addr(hash_addr(p), c)] == (NodeView::Repeat { target: hash_addr(p), count: c as u64 }),
        n + 1 + c <= 1000000,
        w + c * p.len() <= 10737418240,
    ensures
        run_node(m, default_limits(), rep_addr(hash_addr(p), c), seq![root], n, w, Seq::empty()) == Ok::<
            Progress,
            crate::resolver::Failure,
        >(Progress { out: repeat_bytes(p, c), nodes: n + 1 + c, written: (w + c * p.len()) as u64 }),
{
    let h = hash_addr(p);
    let ra = rep_addr(h, c);
    let path = seq![root];
    if path.contains(ra) {
        let i = choose|i: int| 0 <= i < path.len() && path[i] == ra;
        assert(path[i] == root);
    }
    assert(lookup(m, ra) == Some(NodeView::Repeat { target: h, count: c as u64 }));
    let path2 = path.push(ra);
    assert(no_pages_on(path2)) by {
        assert forall|i: int| 0 <= i < path2.len() implies (#[trigger] path2[i]).node_type != NodeType::Page by {
            if i == 0 {
                assert(path2[i] == root);
            } else {
                assert(path2[i] == ra);
            }
        }
    }
    assert(c * p.len() >= 0) by (nonlinear_arith);
    lemma_eval_repeat(m, p, path2, c, 0, n + 1, w);
    assert(Seq::new((c as u64) as nat, |i: int| h) =~= Seq::new(c, |j: int| hash_addr(p)));
}

proof fn lemma_eval_group(m: Map<AddressView, NodeView>, ps: Seq<Seq<u8>>, root: AddressView, k: int, n: nat, w: u64)
    requires
        groups_ready(m, ps, root),
        0 <= k < runs(page_hashes(ps)).len(),
        n + run_evals(runs(page_hashes(ps))[k]) <= 1000000,
        w + run_bytes(ps, k).len() <= 10737418240,
    ensures
        run_node(m, default_limits(), groups(ps)[k], seq![root], n, w, Seq::empty()) == Ok::<Progress, crate::resolver::Failure>(
            Progress {
                out: run_bytes(ps, k),
                nodes: n + run_evals(runs(page_hashes(ps))[k]),
                written: (w + run_bytes(ps, k).len()) as u64,
            },
        ),
{
    let hs = page_hashes(ps);
    let rs = runs(hs);
    lemma_run_pages(ps, k);
    let s = run_start(rs, k);
    let c = rs[k].1;
    let p = ps[s as int];
    assert(m.contains_key(hash_addr(ps[s as int])));
    assert(groups(ps)[k] == group_addr(rs[k]));
    if c == 1 {
        assert(repeat_bytes(p, 0) =~= Seq::<u8>::empty());
        assert(repeat_bytes(p, c) =~= p);
        let path = seq![root];
        assert(no_pages_on(path)) by {
            assert forall|i: int| 0 <= i < path.len() implies (#[trigger] path[i]).node_type != NodeType::Page by {
                assert(path[i] == root);
            }
        }
        lemma_eval_page(m, p, path, n, w);
    } else {
        lemma_eval_rep_node(m, p, c, root, n, w);
    }
}

#[verifier::spinoff_prover]
#[verifier::rlimit(60)]
proof fn lemma_eval_groups(m: Map<AddressView, NodeView>, ps: Seq<Seq<u8>>, root: AddressView, k: int, n: nat, w: u64)
    requires
        groups_ready(m, ps, root),
        0 <= k <= runs(page_hashes(ps)).len(),
        n + run_evals_from(runs(page_hashes(ps)), k) <= 1000000,
        w + concat(ps.subrange(run_start(runs(page_hashes(ps)), k) as int, ps.len() as int)).len() <= 10737418240,
    ensures
        ({
            let rest = concat(ps.subrange(run_start(runs(page_hashes(ps)), k) as int, ps.len() as int));
            run_list(m, default_limits(), groups(ps), k, seq![root], n, w, Seq::empty()) == Ok::<Progress, crate::resolver::Failure>(
                Progress { out: rest, nodes: n + run_evals_from(runs(page_hashes(ps)), k), written: (w + rest.len()) as u64 },
            )
        }),
    decreases runs(page_hashes(ps)).len() - k,
{
    let hs = page_hashes(ps);
    let rs = runs(hs);
    let g = groups(ps);
    if k == rs.len() {
        assert(ps.subrange(ps.len() as int, ps.len() as int) =~= Seq::<Seq<u8>>::empty());
    } else {
        let s = run_start(rs, k);
        let e = run_start(rs, k + 1);
        lemma_run_start_mono(rs, k + 1, rs.len() as int);
        assert(e == s + rs[k].1);
        let seg = ps.subrange(s as int, e as int);
        let rest_ps = ps.subrange(e as int, ps.len() as int);
        assert(ps.subrange(s as int, ps.len() as int) =~= seg + rest_ps);
        lemma_concat_split(seg, rest_ps);
        assert(run_evals_from(rs, k) == run_evals(rs[k]) + run_evals_from(rs, k + 1));
        lemma_eval_group(m, ps, root, k, n, w);
        let out_k = run_bytes(ps, k);
        let w1 = (w + out_k.len()) as u64;
        let n1 = n + run_evals(rs[k]);
        lemma_eval_groups(m, ps, root, k + 1, n1, w1);
        assert(run_list(m, default_limits(), g, k, seq![root], n, w, Seq::empty()) == crate::resolver::prepend(
            out_k,
            run_list(m, default_limits(), g, k + 1, seq![root], n1, w1, Seq::empty()),
        ));
    }
}


/// The multi-page store is ready for the groups lemma
proof fn lemma_store_ready(m: Map<AddressView, NodeView>, x: Seq<u8>)
    requires
        page_seq(x).len() >= 2,
        pages_addressed_apart(x),
        x.len() <= 10737418240,
    ensures
        groups_ready(encode_store(m, x), page_seq(x), encode_root(x)),
{
    let ps = page_seq(x);
    let hs = page_hashes(ps);
    let rs = runs(hs);
    let root = encode_root(x);
    let mm = encode_store(m, x);
    let pm = page_map(ps);
    let rm = rep_map(rs);
    lemma_runs_shape(hs);
    lemma_page_map_lookup(ps);
    assert(page_count(x.len()) <= x.len()) by (nonlinear_arith)
        requires page_count(x.len()) == (x.len() + 4095) / 4096, page_count(x.len()) >= 2;
    assert(runs_ok(rs)) by {
        assert forall|k: int| 0 <= k < rs.len() implies 1 <= (#[trigger] rs[k]).1 <= u64::MAX && rs[k].0.wf() by {
            let s = run_start(rs, k);
            lemma_run_start_mono(rs, k + 1, rs.len() as int);
            assert(hs[s as int] == rs[k].0);
            crate::codec::lemma_hash_addr_wf(ps[s as int]);
        }
    }
    lemma_rep_map_lookup(rs);
    assert(mm == m.union_prefer_right(pm).union_prefer_right(rm).insert(root, NodeView::Sequence(groups(ps))));
    assert forall|i: int| 0 <= i < ps.len() implies mm.contains_key(#[trigger] hash_addr(ps[i])) && mm[hash_addr(ps[i])]
        == NodeView::Page(ps[i]) by {
        let h = hash_addr(ps[i]);
        if rm.contains_key(h) {
            crate::codec::lemma_rep_map_keys(rs, h);
        }
    }
    assert forall|k: int| 0 <= k < rs.len() && (#[trigger] rs[k]).1 > 1 implies mm.contains_key(
        rep_addr(rs[k].0, rs[k].1),
    ) && mm[rep_addr(rs[k].0, rs[k].1)] == (NodeView::Repeat { target: rs[k].0, count: rs[k].1 as u64 }) by {
        assert(rm.contains_key(rep_addr(rs[k].0, rs[k].1)));
    }
}

/// Decoding inverts encoding: resolving, with the default limits, the root
/// that `encode` gives a byte string, in the store as `encode` leaves it,
/// yields exactly that byte string. This holds whatever the store held
/// before, as long as distinct pages have distinct digests and the decoder's
/// limits allow it (at most 10 GiB, at most a million node evaluations).
pub proof fn lemma_decode_encode(m: Map<AddressView, NodeView>, x: Seq<u8>)
    requires
        pages_addressed_apart(x),
        x.len() <= 10737418240,
        decode_evaluations(x) <= 1000000,
    ensures
        resolve_outcome(encode_store(m, x), default_limits(), encode_root(x)) matches Ok(p) && p.out == x && p.written
            == x.len() && p.nodes == decode_evaluations(x),
{
    reveal(resolve_outcome);
    let ps = page_seq(x);
    let root = encode_root(x);
    let mm = encode_store(m, x);
    let e = Seq::<AddressView>::empty();
    if ps.len() == 0 {
        assert(!e.contains(root));
        assert(lookup(mm, root) == Some(NodeView::Data(Seq::empty())));
        assert(page_count(x.len()) == 0);
        assert(x =~= Seq::<u8>::empty());
    } else if ps.len() == 1 {
        assert(!e.contains(root));
        assert(lookup(mm, root) == Some(NodeView::Page(x)));
        assert(page_count(x.len()) == 1);
        assert(x.len() <= 4096);
    } else {
        let hs = page_hashes(ps);
        let rs = runs(hs);
        lemma_store_ready(m, x);
        lemma_runs_shape(hs);
        assert(!e.contains(root));
        assert(lookup(mm, root) == Some(NodeView::Sequence(groups(ps))));
        assert(e.push(root) =~= seq![root]);
        lemma_concat_page_seq(x);
        assert(ps.subrange(0, ps.len() as int) =~= ps);
        assert(run_start(rs, 0) == 0);
        lemma_eval_groups(mm, ps, root, 0, 1, 0);
    }
}

} // verus!
