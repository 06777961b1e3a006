//! Canonical graphs: what the DAG optimisation gives back, and the proof
//! that optimising it again changes nothing

use vstd::prelude::*;
use crate::address::AddressView;
use crate::error::NodeError;
use crate::node::{NodeView, spec_node_address};
use crate::resolver::lookup;
use crate::dag::{
    OptState, OptRun, ListRun, opt_node, opt_list, flatten, fold_runs, run_shapes, run_shape, run_addrs, run_addr,
    run_repeat, put_runs, piece, single_runs, full_length, lemma_fold_singles, finish, logged, seq_finish, mul_or_max,
    run_children, run_ok, lemma_fold_runs_lossless, lemma_fold_runs_idempotent, opt_outcome,
};
use crate::preserve::{opt_clean, list_clean, seq_clean, runs_clean, put_keeps};

verus! {

/// No two neighbouring addresses of `cs` repeat the same address, unless
/// their counts together would pass `u64::MAX`
pub open spec fn apart(st: Map<AddressView, NodeView>, cs: Seq<AddressView>) -> bool {
    forall|i: int|
        0 <= i < cs.len() - 1 ==> (#[trigger] piece(st, cs[i])).0 != piece(st, cs[i + 1]).0 || piece(st, cs[i]).1
            + piece(st, cs[i + 1]).1 > u64::MAX
}

/// `x` is canonical over the store contents `st`, at most `h` levels deep:
/// it stands for no node, or it holds, under its own address, a node that
/// the optimisation would leave as it is
pub open spec fn canon(st: Map<AddressView, NodeView>, x: AddressView, h: nat) -> bool
    decreases h, 0int,
{
    if h == 0 {
        false
    } else {
        match lookup(st, x) {
            None => true,
            Some(n) => st.contains_key(x) && spec_node_address(n) == Ok::<AddressView, NodeError>(x) && canon_node(
                st,
                n,
                (h - 1) as nat,
            ),
        }
    }
}

/// The node `n` is one the optimisation leaves as it is, its children
/// canonical at most `h` levels deep: no reference to a stored reference,
/// no repeat of fewer than two or of a repeat, no empty or full-range slice,
/// and no sequence of fewer than two children, of a sequence, or with two
/// neighbours that repeat the same address
pub open spec fn canon_node(st: Map<AddressView, NodeView>, n: NodeView, h: nat) -> bool
    decreases h, 1int,
{
    match n {
        NodeView::Data(_) => true,
        NodeView::Page(_) => true,
        NodeView::Reference(t) => canon(st, t, h) && !(st.contains_key(t) && st[t] is Reference),
        NodeView::Repeat { target, count } => count >= 2 && canon(st, target, h) && !(lookup(st, target) matches Some(
            NodeView::Repeat { .. },
        )),
        NodeView::Slice { target, offset, length } => length != 0 && canon(st, target, h) && match full_length(
            lookup(st, target),
        ) {
            Some(total) => !(offset == 0 && length >= total),
            None => true,
        },
        NodeView::Sequence(cs) => {
            &&& cs.len() >= 2
            &&& forall|i: int| 0 <= i < cs.len() ==> canon(st, #[trigger] cs[i], h)
            &&& forall|i: int| 0 <= i < cs.len() ==> !(lookup(st, #[trigger] cs[i]) matches Some(NodeView::Sequence(_)))
            &&& apart(st, cs)
        },
    }
}

/// Every recorded result is the address itself
pub open spec fn memo_id(m: Map<AddressView, AddressView>) -> bool {
    forall|k: AddressView| #[trigger] m.contains_key(k) ==> m[k] == k
}

proof fn lemma_flatten_none(st: Map<AddressView, NodeView>, cs: Seq<AddressView>)
    requires
        forall|i: int| 0 <= i < cs.len() ==> !(lookup(st, #[trigger] cs[i]) matches Some(NodeView::Sequence(_))),
    ensures
        flatten(st, cs) == (cs, Seq::<Seq<char>>::empty()),
    decreases cs.len(),
{
    if cs.len() > 0 {
        let p = cs.drop_last();
        assert forall|i: int| 0 <= i < p.len() implies !(lookup(st, #[trigger] p[i]) matches Some(NodeView::Sequence(_))) by {
            assert(p[i] == cs[i]);
        }
        lemma_flatten_none(st, p);
        assert(!(lookup(st, cs[cs.len() - 1]) matches Some(NodeView::Sequence(_))));
        assert(p.push(cs.last()) =~= cs);
    }
}

proof fn lemma_put_singles(s: OptState, st: Map<AddressView, NodeView>, xs: Seq<AddressView>)
    ensures
        put_runs(s, run_shapes(single_runs(st, xs))) == s,
        run_addrs(run_shapes(single_runs(st, xs))) == xs,
    decreases xs.len(),
{
    let rs = run_shapes(single_runs(st, xs));
    if xs.len() > 0 {
        let p = xs.drop_last();
        lemma_put_singles(s, st, p);
        assert(rs.drop_last() =~= run_shapes(single_runs(st, p)));
        assert(rs.last().2 == 1);
    }
    assert(run_addrs(rs) =~= xs);
}

/// Optimising a canonical address, with only identity results recorded,
/// gives it back and changes no stored node (or runs out of budget)
pub proof fn lemma_canon_fixed(s: OptState, x: AddressView, h: nat, f: nat)
    requires
        canon(s.st, x, h),
        memo_id(s.memo),
    ensures
        match opt_node(s, x, f) {
            OptRun::Ran(r, s2) => r == Ok::<AddressView, crate::error::CoreError>(x) && s2.st == s.st && memo_id(s2.memo),
            OptRun::Exhausted => true,
        },
    decreases f, 0int, 0int,
{
    let st = s.st;
    if s.memo.contains_key(x) || f == 0 {
    } else if let Some(n) = lookup(st, x) {
        let f1 = (f - 1) as nat;
        let h1 = (h - 1) as nat;
        assert(st[x] == n);
        assert(st.insert(x, n) =~= st);
        assert(memo_id(s.memo.insert(x, x)));
        match n {
            NodeView::Data(_) => {},
            NodeView::Page(_) => {},
            NodeView::Reference(t) => {
                lemma_canon_fixed(s, t, h1, f1);
                if let OptRun::Ran(Ok(ot), s1) = opt_node(s, t, f1) {
                    assert(s1.memo.insert(x, x) == s1.memo.insert(x, x));
                    assert(memo_id(s1.memo.insert(x, x)));
                }
            },
            NodeView::Repeat { target, count } => {
                lemma_canon_fixed(s, target, h1, f1);
                if let OptRun::Ran(Ok(ot), s1) = opt_node(s, target, f1) {
                    assert(memo_id(s1.memo.insert(x, x)));
                }
            },
            NodeView::Slice { target, offset, length } => {
                lemma_canon_fixed(s, target, h1, f1);
                if let OptRun::Ran(Ok(ot), s1) = opt_node(s, target, f1) {
                    assert(memo_id(s1.memo.insert(x, x)));
                }
            },
            NodeView::Sequence(cs) => {
                lemma_canon_list_fixed(s, cs, 0, h1, f1);
                assert(cs.skip(0) =~= cs);
                if let ListRun::Ran(Ok(ocs), s1) = opt_list(s, cs, 0, f1) {
                    lemma_flatten_none(st, cs);
                    lemma_fold_singles(st, cs);
                    let s2 = OptState { st: s1.st, memo: s1.memo, log: s1.log + Seq::<Seq<char>>::empty() };
                    assert(s2 == s1) by {
                        assert(s1.log + Seq::<Seq<char>>::empty() =~= s1.log);
                    }
                    lemma_put_singles(s1, st, cs);
                    assert(memo_id(s1.memo.insert(x, x)));
                }
            },
        }
    }
}

/// Optimising canonical addresses `cs[i..]` gives them back (see `lemma_canon_fixed`)
proof fn lemma_canon_list_fixed(s: OptState, cs: Seq<AddressView>, i: int, h: nat, f: nat)
    requires
        0 <= i <= cs.len(),
        forall|j: int| 0 <= j < cs.len() ==> canon(s.st, #[trigger] cs[j], h),
        memo_id(s.memo),
    ensures
        match opt_list(s, cs, i, f) {
            ListRun::Ran(r, s2) => r == Ok::<Seq<AddressView>, crate::error::CoreError>(cs.skip(i)) && s2.st == s.st
                && memo_id(s2.memo),
            ListRun::Exhausted => true,
        },
    decreases f, 1int, cs.len() - i,
{
    if i < cs.len() {
        lemma_canon_fixed(s, cs[i], h, f);
        if let OptRun::Ran(Ok(x), s1) = opt_node(s, cs[i], f) {
            lemma_canon_list_fixed(s1, cs, i + 1, h, f);
            if let ListRun::Ran(Ok(rest), s2) = opt_list(s1, cs, i + 1, f) {
                assert(seq![x] + rest =~= cs.skip(i));
            }
        }
    } else {
        assert(cs.skip(i) =~= Seq::<AddressView>::empty());
    }
}

/// The store `st2` keeps every node `st` holds, under the same address, and
/// every address stands for the same node over both
pub open spec fn grows(st: Map<AddressView, NodeView>, st2: Map<AddressView, NodeView>) -> bool {
    &&& forall|y: AddressView| #[trigger] lookup(st2, y) == lookup(st, y)
    &&& forall|k: AddressView| #[trigger] st.contains_key(k) ==> st2.contains_key(k) && st2[k] == st[k]
}

/// `x` is canonical over `st` at some depth
pub open spec fn is_canon(st: Map<AddressView, NodeView>, x: AddressView) -> bool {
    exists|h: nat| #[trigger] canon(st, x, h)
}

/// Every recorded result is canonical
pub open spec fn memo_canon(st: Map<AddressView, NodeView>, m: Map<AddressView, AddressView>) -> bool {
    forall|k: AddressView| #[trigger] m.contains_key(k) ==> is_canon(st, m[k])
}

proof fn lemma_grows_refl(st: Map<AddressView, NodeView>)
    ensures
        grows(st, st),
{
}

proof fn lemma_grows_trans(s0: Map<AddressView, NodeView>, s1: Map<AddressView, NodeView>, s2: Map<AddressView, NodeView>)
    requires
        grows(s0, s1),
        grows(s1, s2),
    ensures
        grows(s0, s2),
{
    assert forall|y: AddressView| #[trigger] lookup(s2, y) == lookup(s0, y) by {
        assert(lookup(s2, y) == lookup(s1, y));
        assert(lookup(s1, y) == lookup(s0, y));
    }
    assert forall|k: AddressView| #[trigger] s0.contains_key(k) implies s2.contains_key(k) && s2[k] == s0[k] by {
        assert(s1.contains_key(k));
    }
}

/// Storing a node under an address that already stood for it
proof fn lemma_insert_grows(st: Map<AddressView, NodeView>, r: AddressView, n: NodeView)
    requires
        lookup(st, r) == Some(n),
    ensures
        grows(st, st.insert(r, n)),
{
    let st2 = st.insert(r, n);
    assert forall|y: AddressView| #[trigger] lookup(st2, y) == lookup(st, y) by {
        if y != r {
            assert(st2.contains_key(y) == st.contains_key(y));
        }
    }
}

/// Canonical addresses stay canonical as the store grows
proof fn lemma_canon_grows(st: Map<AddressView, NodeView>, st2: Map<AddressView, NodeView>, x: AddressView, h: nat)
    requires
        grows(st, st2),
        canon(st, x, h),
    ensures
        canon(st2, x, h),
    decreases h, 0int,
{
    assert(lookup(st2, x) == lookup(st, x));
    if let Some(n) = lookup(st, x) {
        assert(st.contains_key(x));
        lemma_canon_node_grows(st, st2, n, (h - 1) as nat);
    }
}

proof fn lemma_canon_node_grows(st: Map<AddressView, NodeView>, st2: Map<AddressView, NodeView>, n: NodeView, h: nat)
    requires
        grows(st, st2),
        canon_node(st, n, h),
    ensures
        canon_node(st2, n, h),
    decreases h, 1int,
{
    match n {
        NodeView::Reference(t) => {
            lemma_canon_grows(st, st2, t, h);
            assert(lookup(st2, t) == lookup(st, t));
            if st2.contains_key(t) && !st.contains_key(t) {
                assert(lookup(st, t) is None);
                assert(lookup(st2, t) is Some);
            }
        },
        NodeView::Repeat { target, .. } => {
            lemma_canon_grows(st, st2, target, h);
            assert(lookup(st2, target) == lookup(st, target));
        },
        NodeView::Slice { target, .. } => {
            lemma_canon_grows(st, st2, target, h);
            assert(lookup(st2, target) == lookup(st, target));
        },
        NodeView::Sequence(cs) => {
            assert forall|i: int| 0 <= i < cs.len() implies canon(st2, #[trigger] cs[i], h) by {
                lemma_canon_grows(st, st2, cs[i], h);
            }
            assert forall|i: int| 0 <= i < cs.len() implies !(lookup(st2, #[trigger] cs[i]) matches Some(
                NodeView::Sequence(_),
            )) by {
                assert(lookup(st2, cs[i]) == lookup(st, cs[i]));
            }
            assert forall|i: int| 0 <= i < cs.len() - 1 implies (#[trigger] piece(st2, cs[i])).0 != piece(st2, cs[i + 1]).0
                || piece(st2, cs[i]).1 + piece(st2, cs[i + 1]).1 > u64::MAX by {
                assert(lookup(st2, cs[i]) == lookup(st, cs[i]));
                assert(lookup(st2, cs[i + 1]) == lookup(st, cs[i + 1]));
                assert(piece(st2, cs[i]) == piece(st, cs[i]));
                assert(piece(st2, cs[i + 1]) == piece(st, cs[i + 1]));
            }
        },
        _ => {},
    }
}

/// Recorded canonical results stay canonical as the store grows
proof fn lemma_memo_grows(st: Map<AddressView, NodeView>, st2: Map<AddressView, NodeView>, m: Map<AddressView, AddressView>)
    requires
        grows(st, st2),
        memo_canon(st, m),
    ensures
        memo_canon(st2, m),
{
    assert forall|k: AddressView| #[trigger] m.contains_key(k) implies is_canon(st2, m[k]) by {
        let h = choose|h: nat| #[trigger] canon(st, m[k], h);
        lemma_canon_grows(st, st2, m[k], h);
    }
}

/// Canonical at some depth is canonical at any greater one
proof fn lemma_canon_more(st: Map<AddressView, NodeView>, x: AddressView, h: nat, g: nat)
    requires
        canon(st, x, h),
        h <= g,
    ensures
        canon(st, x, g),
    decreases h, 0int,
{
    if let Some(n) = lookup(st, x) {
        lemma_canon_node_more(st, n, (h - 1) as nat, (g - 1) as nat);
    }
}

proof fn lemma_canon_node_more(st: Map<AddressView, NodeView>, n: NodeView, h: nat, g: nat)
    requires
        canon_node(st, n, h),
        h <= g,
    ensures
        canon_node(st, n, g),
    decreases h, 1int,
{
    match n {
        NodeView::Reference(t) => lemma_canon_more(st, t, h, g),
        NodeView::Repeat { target, .. } => lemma_canon_more(st, target, h, g),
        NodeView::Slice { target, .. } => lemma_canon_more(st, target, h, g),
        NodeView::Sequence(cs) => {
            assert forall|i: int| 0 <= i < cs.len() implies canon(st, #[trigger] cs[i], g) by {
                lemma_canon_more(st, cs[i], h, g);
            }
        },
        _ => {},
    }
}

/// Canonical addresses are all canonical at one depth
proof fn lemma_common_depth(st: Map<AddressView, NodeView>, xs: Seq<AddressView>) -> (h: nat)
    requires
        forall|i: int| 0 <= i < xs.len() ==> is_canon(st, #[trigger] xs[i]),
    ensures
        forall|i: int| 0 <= i < xs.len() ==> canon(st, #[trigger] xs[i], h),
    decreases xs.len(),
{
    if xs.len() == 0 {
        0
    } else {
        let p = xs.drop_last();
        assert forall|i: int| 0 <= i < p.len() implies is_canon(st, #[trigger] p[i]) by {
            assert(p[i] == xs[i]);
        }
        let hp = lemma_common_depth(st, p);
        let last = xs[xs.len() - 1];
        assert(is_canon(st, last));
        let hl = choose|g: nat| #[trigger] canon(st, last, g);
        let h = if hp <= hl {
            hl
        } else {
            hp
        };
        assert forall|i: int| 0 <= i < xs.len() implies canon(st, #[trigger] xs[i], h) by {
            if i < p.len() {
                assert(p[i] == xs[i]);
                lemma_canon_more(st, xs[i], hp, h);
            } else {
                lemma_canon_more(st, xs[i], hl, h);
            }
        }
        h
    }
}

/// After a step from `s`: the store grew, recorded results are canonical,
/// and a result is canonical
pub open spec fn step_ok(s: OptState, run: OptRun) -> bool {
    match run {
        OptRun::Ran(res, s2) => grows(s.st, s2.st) && memo_canon(s2.st, s2.memo) && (res matches Ok(r) ==> is_canon(
            s2.st,
            r,
        )),
        OptRun::Exhausted => true,
    }
}

/// Storing a node the optimisation leaves as it is
proof fn lemma_finish_canon(s: OptState, a: AddressView, n: NodeView, h: nat)
    requires
        put_keeps(s.st, n),
        memo_canon(s.st, s.memo),
        canon_node(s.st, n, h),
    ensures
        step_ok(s, finish(s, a, n)),
        finish(s, a, n) is Ran,
{
    if let Ok(r) = spec_node_address(n) {
        let st2 = s.st.insert(r, n);
        lemma_insert_grows(s.st, r, n);
        lemma_canon_node_grows(s.st, st2, n, h);
        assert(canon(st2, r, h + 1));
        lemma_memo_grows(s.st, st2, s.memo);
        let m2 = s.memo.insert(a, r);
        assert forall|k: AddressView| #[trigger] m2.contains_key(k) implies is_canon(st2, m2[k]) by {
            if k == a {
                assert(canon(st2, r, h + 1));
            } else {
                assert(s.memo.contains_key(k));
            }
        }
    } else {
        lemma_grows_refl(s.st);
    }
}

/// Recording a canonical result
proof fn lemma_memo_insert_canon(st: Map<AddressView, NodeView>, m: Map<AddressView, AddressView>, a: AddressView, r: AddressView)
    requires
        memo_canon(st, m),
        is_canon(st, r),
    ensures
        memo_canon(st, m.insert(a, r)),
{
    let m2 = m.insert(a, r);
    assert forall|k: AddressView| #[trigger] m2.contains_key(k) implies is_canon(st, m2[k]) by {
        if k != a {
            assert(m.contains_key(k));
        }
    }
}

/// The results of a clean optimisation are canonical, and it only grows the store
pub proof fn lemma_results_canon(s: OptState, a: AddressView, fuel: nat)
    requires
        opt_clean(s, a, fuel),
        memo_canon(s.st, s.memo),
    ensures
        step_ok(s, opt_node(s, a, fuel)),
    decreases fuel, 1int, 0int,
{
    lemma_grows_refl(s.st);
    if s.memo.contains_key(a) {
        assert(is_canon(s.st, s.memo[a]));
    } else if fuel == 0 {
    } else if lookup(s.st, a) is None {
        assert(canon(s.st, a, 1));
    } else {
        let n = lookup(s.st, a)->Some_0;
        match n {
            NodeView::Data(_) => lemma_finish_canon(s, a, n, 0),
            NodeView::Page(_) => lemma_finish_canon(s, a, n, 0),
            NodeView::Reference(t) => lemma_case_reference(s, a, t, fuel),
            NodeView::Repeat { target, count } => lemma_case_repeat(s, a, target, count, fuel),
            NodeView::Slice { target, offset, length } => lemma_case_slice(s, a, target, offset, length, fuel),
            NodeView::Sequence(cs) => lemma_case_sequence(s, a, cs, fuel),
        }
    }
}

/// The results of optimising a reference are canonical
#[verifier::spinoff_prover]
proof fn lemma_case_reference(s: OptState, a: AddressView, t: AddressView, fuel: nat)
    requires
        !s.memo.contains_key(a),
        fuel > 0,
        opt_clean(s, a, fuel),
        memo_canon(s.st, s.memo),
        lookup(s.st, a) == Some(NodeView::Reference(t)),
    ensures
        step_ok(s, opt_node(s, a, fuel)),
    decreases fuel, 0int, 0int,
{
    let f1 = (fuel - 1) as nat;
    lemma_grows_refl(s.st);
    lemma_results_canon(s, t, f1);
    if let OptRun::Ran(Ok(ot), s1) = opt_node(s, t, f1) {
        let h1 = choose|h: nat| #[trigger] canon(s1.st, ot, h);
        if s1.st.contains_key(ot) && s1.st[ot] is Reference {
            let sub = s1.st[ot]->Reference_0;
            assert(lookup(s1.st, ot) == Some(NodeView::Reference(sub)));
            let s1b = logged(s1, "Collapsed reference chain to "@ + crate::address::spec_uri(sub));
            lemma_finish_canon(s1b, a, NodeView::Reference(sub), (h1 - 1) as nat);
            if let OptRun::Ran(_, s2) = finish(s1b, a, NodeView::Reference(sub)) {
                lemma_grows_trans(s.st, s1.st, s2.st);
            }
        } else {
            lemma_finish_canon(s1, a, NodeView::Reference(ot), h1);
            if let OptRun::Ran(_, s2) = finish(s1, a, NodeView::Reference(ot)) {
                lemma_grows_trans(s.st, s1.st, s2.st);
            }
        }
    }
}

/// The results of optimising a repeat are canonical
#[verifier::spinoff_prover]
proof fn lemma_case_repeat(s: OptState, a: AddressView, target: AddressView, count: u64, fuel: nat)
    requires
        !s.memo.contains_key(a),
        fuel > 0,
        opt_clean(s, a, fuel),
        memo_canon(s.st, s.memo),
        lookup(s.st, a) == Some(NodeView::Repeat { target, count }),
    ensures
        step_ok(s, opt_node(s, a, fuel)),
    decreases fuel, 0int, 0int,
{
    let f1 = (fuel - 1) as nat;
    lemma_grows_refl(s.st);
    if count == 0 {
        lemma_finish_canon(
            logged(s, "Collapsed zero-repeat to empty Data node"@),
            a,
            NodeView::Data(Seq::empty()),
            0,
        );
    } else {
        lemma_results_canon(s, target, f1);
        if let OptRun::Ran(Ok(ot), s1) = opt_node(s, target, f1) {
            let h1 = choose|h: nat| #[trigger] canon(s1.st, ot, h);
            if count == 1 {
                lemma_memo_insert_canon(s1.st, s1.memo, a, ot);
            } else {
                match lookup(s1.st, ot) {
                    Some(NodeView::Repeat { target: sub, count: sc }) => {
                        let total = mul_or_max(count, sc);
                        assert(count * sc >= 4) by (nonlinear_arith)
                            requires
                                count >= 2,
                                sc >= 2,
                        ;
                        let s1b = logged(
                            s1,
                            "Merged nested repeats ("@ + crate::text::decimal(count as nat) + "x * "@
                                + crate::text::decimal(sc as nat) + "x = "@ + crate::text::decimal(
                                total as nat,
                            ) + "x)"@,
                        );
                        let m = NodeView::Repeat { target: sub, count: total };
                        lemma_finish_canon(s1b, a, m, (h1 - 1) as nat);
                        if let OptRun::Ran(_, s2) = finish(s1b, a, m) {
                            lemma_grows_trans(s.st, s1.st, s2.st);
                        }
                    },
                    _ => {
                        let m = NodeView::Repeat { target: ot, count };
                        lemma_finish_canon(s1, a, m, h1);
                        if let OptRun::Ran(_, s2) = finish(s1, a, m) {
                            lemma_grows_trans(s.st, s1.st, s2.st);
                        }
                    },
                }
            }
        }
    }
}

/// The results of optimising a slice are canonical
#[verifier::spinoff_prover]
proof fn lemma_case_slice(s: OptState, a: AddressView, target: AddressView, offset: u64, length: u64, fuel: nat)
    requires
        !s.memo.contains_key(a),
        fuel > 0,
        opt_clean(s, a, fuel),
        memo_canon(s.st, s.memo),
        lookup(s.st, a) == Some(NodeView::Slice { target, offset, length }),
    ensures
        step_ok(s, opt_node(s, a, fuel)),
    decreases fuel, 0int, 0int,
{
    let f1 = (fuel - 1) as nat;
    lemma_grows_refl(s.st);
    if length == 0 {
        lemma_finish_canon(
            logged(s, "Collapsed zero-length slice to empty Data node"@),
            a,
            NodeView::Data(Seq::empty()),
            0,
        );
    } else {
        lemma_results_canon(s, target, f1);
        if let OptRun::Ran(Ok(ot), s1) = opt_node(s, target, f1) {
            let h1 = choose|h: nat| #[trigger] canon(s1.st, ot, h);
            match full_length(lookup(s1.st, ot)) {
                Some(total) if offset == 0 && length >= total => {
                    lemma_memo_insert_canon(s1.st, s1.memo, a, ot);
                },
                _ => {
                    let m = NodeView::Slice { target: ot, offset, length };
                    lemma_finish_canon(s1, a, m, h1);
                    if let OptRun::Ran(_, s2) = finish(s1, a, m) {
                        lemma_grows_trans(s.st, s1.st, s2.st);
                    }
                },
            }
        }
    }
}

/// The results of optimising a sequence are canonical
#[verifier::spinoff_prover]
proof fn lemma_case_sequence(s: OptState, a: AddressView, cs: Seq<AddressView>, fuel: nat)
    requires
        !s.memo.contains_key(a),
        fuel > 0,
        opt_clean(s, a, fuel),
        memo_canon(s.st, s.memo),
        lookup(s.st, a) == Some(NodeView::Sequence(cs)),
    ensures
        step_ok(s, opt_node(s, a, fuel)),
    decreases fuel, 0int, 0int,
{
    let f1 = (fuel - 1) as nat;
    lemma_grows_refl(s.st);
    lemma_list_results_canon(s, cs, 0, f1);
    if let ListRun::Ran(Ok(ocs), s1) = opt_list(s, cs, 0, f1) {
        lemma_seq_results_canon(s1, a, ocs);
        if let OptRun::Ran(_, s2) = seq_finish(s1, a, ocs) {
            lemma_grows_trans(s.st, s1.st, s2.st);
        }
    }
}

/// The results of a clean list optimisation are canonical (see `lemma_results_canon`)
proof fn lemma_list_results_canon(s: OptState, cs: Seq<AddressView>, i: int, fuel: nat)
    requires
        list_clean(s, cs, i, fuel),
        memo_canon(s.st, s.memo),
    ensures
        match opt_list(s, cs, i, fuel) {
            ListRun::Ran(res, s2) => grows(s.st, s2.st) && memo_canon(s2.st, s2.memo) && (res matches Ok(ocs) ==> forall|
                j: int,
            | 0 <= j < ocs.len() ==> is_canon(s2.st, #[trigger] ocs[j])),
            ListRun::Exhausted => true,
        },
    decreases fuel, 2int, cs.len() - i,
{
    lemma_grows_refl(s.st);
    if 0 <= i < cs.len() {
        lemma_results_canon(s, cs[i], fuel);
        if let OptRun::Ran(Ok(x), s1) = opt_node(s, cs[i], fuel) {
            lemma_list_results_canon(s1, cs, i + 1, fuel);
            match opt_list(s1, cs, i + 1, fuel) {
                ListRun::Ran(res, s2) => {
                    lemma_grows_trans(s.st, s1.st, s2.st);
                    if let Ok(rest) = res {
                        let hx = choose|h: nat| #[trigger] canon(s1.st, x, h);
                        lemma_canon_grows(s1.st, s2.st, x, hx);
                        let all = seq![x] + rest;
                        assert forall|j: int| 0 <= j < all.len() implies is_canon(s2.st, #[trigger] all[j]) by {
                            if j == 0 {
                                assert(canon(s2.st, x, hx));
                            } else {
                                assert(all[j] == rest[j - 1]);
                            }
                        }
                    }
                },
                ListRun::Exhausted => {},
            }
        }
    }
}

/// Flattening canonical children gives canonical addresses, none of them a sequence
proof fn lemma_flatten_canon(st: Map<AddressView, NodeView>, ocs: Seq<AddressView>)
    requires
        forall|j: int| 0 <= j < ocs.len() ==> is_canon(st, #[trigger] ocs[j]),
    ensures
        forall|j: int|
            0 <= j < flatten(st, ocs).0.len() ==> is_canon(st, #[trigger] flatten(st, ocs).0[j]) && !(lookup(
                st,
                flatten(st, ocs).0[j],
            ) matches Some(NodeView::Sequence(_))),
    decreases ocs.len(),
{
    if ocs.len() > 0 {
        let p = ocs.drop_last();
        let x = ocs.last();
        assert forall|j: int| 0 <= j < p.len() implies is_canon(st, #[trigger] p[j]) by {
            assert(p[j] == ocs[j]);
        }
        lemma_flatten_canon(st, p);
        let fp = flatten(st, p).0;
        assert(is_canon(st, ocs[ocs.len() - 1]));
        let fl = flatten(st, ocs).0;
        match lookup(st, x) {
            Some(NodeView::Sequence(sub)) => {
                let h = choose|h: nat| #[trigger] canon(st, x, h);
                assert(canon_node(st, NodeView::Sequence(sub), (h - 1) as nat));
                assert(fl == fp + sub);
                assert forall|j: int| 0 <= j < fl.len() implies is_canon(st, #[trigger] fl[j]) && !(lookup(st, fl[j]) matches Some(
                    NodeView::Sequence(_),
                )) by {
                    if j < fp.len() {
                        assert(fl[j] == fp[j]);
                    } else {
                        assert(fl[j] == sub[j - fp.len()]);
                        assert(canon(st, sub[j - fp.len()], (h - 1) as nat));
                    }
                }
            },
            _ => {
                assert(fl == fp.push(x));
                assert forall|j: int| 0 <= j < fl.len() implies is_canon(st, #[trigger] fl[j]) && !(lookup(st, fl[j]) matches Some(
                    NodeView::Sequence(_),
                )) by {
                    if j < fp.len() {
                        assert(fl[j] == fp[j]);
                    }
                }
            },
        }
    }
}

proof fn lemma_run_children_has(runs: Seq<(AddressView, nat, Seq<AddressView>)>, i: int, j: int)
    requires
        0 <= i < runs.len(),
        0 <= j < runs[i].2.len(),
    ensures
        run_children(runs).contains(runs[i].2[j]),
    decreases runs.len(),
{
    let d = runs.drop_last();
    let rc = run_children(d);
    assert(run_children(runs) == rc + runs.last().2);
    if i == runs.len() - 1 {
        assert((rc + runs.last().2)[rc.len() + j] == runs[i].2[j]);
    } else {
        assert(d[i] == runs[i]);
        lemma_run_children_has(d, i, j);
        let k = choose|k: int| 0 <= k < rc.len() && rc[k] == runs[i].2[j];
        assert((rc + runs.last().2)[k] == runs[i].2[j]);
    }
}

/// Storing the runs' repeat nodes: the store grows, and the addresses that
/// stand for the runs are canonical, none of them a sequence
#[verifier::spinoff_prover]
#[verifier::rlimit(100)]
proof fn lemma_put_runs_canon(s2: OptState, fr: Seq<(AddressView, nat, Seq<AddressView>)>, hh: nat)
    requires
        runs_clean(s2, run_shapes(fr)),
        forall|i: int| 0 <= i < fr.len() ==> run_ok(s2.st, #[trigger] fr[i]),
        forall|i: int|
            0 <= i < fr.len() ==> canon(s2.st, (#[trigger] fr[i]).0, hh) && !(lookup(s2.st, fr[i].0) matches Some(
                NodeView::Repeat { .. },
            )),
        forall|i: int|
            0 <= i < fr.len() ==> canon(s2.st, (#[trigger] fr[i]).2[0], hh) && !(lookup(s2.st, fr[i].2[0]) matches Some(
                NodeView::Sequence(_),
            )),
    ensures
        grows(s2.st, put_runs(s2, run_shapes(fr)).st),
        put_runs(s2, run_shapes(fr)).memo == s2.memo,
        forall|i: int|
            0 <= i < fr.len() ==> canon(
                put_runs(s2, run_shapes(fr)).st,
                #[trigger] run_addrs(run_shapes(fr))[i],
                hh + 1,
            ) && !(lookup(put_runs(s2, run_shapes(fr)).st, run_addrs(run_shapes(fr))[i]) matches Some(
                NodeView::Sequence(_),
            )),
        forall|i: int|
            0 <= i < fr.len() && (#[trigger] fr[i]).2.len() >= 2 ==> lookup(s2.st, run_addr(run_shape(fr[i])))
                == Some(run_repeat(run_shape(fr[i]))),
    decreases fr.len(),
{
    let st1 = s2.st;
    let sh = run_shapes(fr);
    if fr.len() == 0 {
        lemma_grows_refl(st1);
    } else {
        let d = fr.drop_last();
        let r = fr.last();
        let q = run_shape(r);
        assert(run_shapes(d) =~= sh.drop_last());
        assert(sh.last() == q);
        assert forall|i: int| 0 <= i < d.len() implies run_ok(st1, #[trigger] d[i]) by {
            assert(d[i] == fr[i]);
        }
        assert forall|i: int|
            0 <= i < d.len() implies canon(st1, (#[trigger] d[i]).0, hh) && !(lookup(st1, d[i].0) matches Some(
                NodeView::Repeat { .. },
            )) by {
            assert(d[i] == fr[i]);
        }
        assert forall|i: int|
            0 <= i < d.len() implies canon(st1, (#[trigger] d[i]).2[0], hh) && !(lookup(st1, d[i].2[0]) matches Some(
                NodeView::Sequence(_),
            )) by {
            assert(d[i] == fr[i]);
        }
        lemma_put_runs_canon(s2, d, hh);
        let s0 = put_runs(s2, run_shapes(d));
        let s3 = put_runs(s2, sh);
        let last = fr.len() - 1;
        assert(fr[last] == r);
        assert(run_ok(st1, r));
        assert(canon(st1, r.0, hh));
        assert(canon(st1, r.2[0], hh));
        assert(run_addrs(sh) =~= run_addrs(run_shapes(d)).push(run_addr(q)));
        if r.2.len() == 1 {
            assert(s3 == s0);
            lemma_canon_grows(st1, s0.st, r.2[0], hh);
            lemma_canon_more(s0.st, r.2[0], hh, hh + 1);
            assert(lookup(s0.st, r.2[0]) == lookup(st1, r.2[0]));
        } else {
            let rep = run_repeat(q);
            let addr = run_addr(q);
            assert(put_keeps(s0.st, rep));
            assert(spec_node_address(rep) == Ok::<AddressView, NodeError>(addr));
            assert(lookup(s0.st, addr) == Some(rep));
            assert(lookup(st1, addr) == Some(rep));
            assert(s3.st == s0.st.insert(addr, rep));
            lemma_insert_grows(s0.st, addr, rep);
            lemma_grows_trans(st1, s0.st, s3.st);
            lemma_canon_grows(st1, s3.st, r.0, hh);
            assert(lookup(s3.st, r.0) == lookup(st1, r.0));
            assert(canon_node(s3.st, rep, hh));
            assert(canon(s3.st, addr, hh + 1));
        }
        assert forall|i: int|
            0 <= i < fr.len() implies canon(s3.st, #[trigger] run_addrs(sh)[i], hh + 1) && !(lookup(
                s3.st,
                run_addrs(sh)[i],
            ) matches Some(NodeView::Sequence(_))) by {
            if i < d.len() {
                assert(run_addrs(sh)[i] == run_addrs(run_shapes(d))[i]);
                assert(grows(s0.st, s3.st)) by {
                    if r.2.len() == 1 {
                        lemma_grows_refl(s0.st);
                    } else {
                        lemma_insert_grows(s0.st, run_addr(q), run_repeat(q));
                    }
                }
                lemma_canon_grows(s0.st, s3.st, run_addrs(sh)[i], hh + 1);
                assert(lookup(s3.st, run_addrs(sh)[i]) == lookup(s0.st, run_addrs(sh)[i]));
            }
        }
        assert forall|i: int|
            0 <= i < fr.len() && (#[trigger] fr[i]).2.len() >= 2 implies lookup(st1, run_addr(run_shape(fr[i]))) == Some(
                run_repeat(run_shape(fr[i])),
            ) by {
            if i < d.len() {
                assert(d[i] == fr[i]);
            }
        }
    }
}

/// The end of a clean sequence optimisation from canonical children gives
/// a canonical result and only grows the store
#[verifier::spinoff_prover]
#[verifier::rlimit(60)]
proof fn lemma_seq_results_canon(s1: OptState, a: AddressView, ocs: Seq<AddressView>)
    requires
        seq_clean(s1, ocs),
        memo_canon(s1.st, s1.memo),
        forall|j: int| 0 <= j < ocs.len() ==> is_canon(s1.st, #[trigger] ocs[j]),
    ensures
        step_ok(s1, seq_finish(s1, a, ocs)),
{
    let st1 = s1.st;
    let fl = flatten(st1, ocs);
    let flat = fl.0;
    lemma_flatten_canon(st1, ocs);
    assert forall|j: int| 0 <= j < flat.len() implies is_canon(st1, #[trigger] flat[j]) by {}
    let hh = lemma_common_depth(st1, flat);
    let s2 = OptState { st: st1, memo: s1.memo, log: s1.log + fl.1 };
    let fr = fold_runs(st1, flat);
    lemma_fold_runs_lossless(st1, flat);
    let sh = run_shapes(fr);
    assert forall|i: int|
        0 <= i < fr.len() implies canon(st1, (#[trigger] fr[i]).2[0], hh) && !(lookup(st1, fr[i].2[0]) matches Some(
            NodeView::Sequence(_),
        )) && canon(st1, fr[i].0, hh) && !(lookup(st1, fr[i].0) matches Some(NodeView::Repeat { .. })) by {
        assert(run_ok(st1, fr[i]));
        let e = fr[i].2[0];
        lemma_run_children_has(fr, i, 0);
        let k = choose|k: int| 0 <= k < flat.len() && flat[k] == e;
        assert(canon(st1, flat[k], hh));
        assert(piece(st1, fr[i].2[0]).0 == fr[i].0);
        match lookup(st1, e) {
            Some(NodeView::Repeat { target, count }) => {
                assert(canon_node(st1, NodeView::Repeat { target, count }, (hh - 1) as nat));
                lemma_canon_more(st1, target, (hh - 1) as nat, hh);
            },
            _ => {},
        }
    }
    lemma_put_runs_canon(s2, fr, hh);
    let s3 = put_runs(s2, sh);
    let folded = run_addrs(sh);
    lemma_fold_runs_idempotent(st1, flat);
    lemma_memo_grows(st1, s3.st, s1.memo);
    assert(sh.len() == fr.len());
    assert forall|i: int| 0 <= i < folded.len() - 1 implies (#[trigger] piece(s3.st, folded[i])).0 != piece(
        s3.st,
        folded[i + 1],
    ).0 || piece(s3.st, folded[i]).1 + piece(s3.st, folded[i + 1]).1 > u64::MAX by {
        assert(lookup(s3.st, folded[i]) == lookup(st1, folded[i]));
        assert(lookup(s3.st, folded[i + 1]) == lookup(st1, folded[i + 1]));
        assert(piece(s3.st, folded[i]) == piece(st1, folded[i]));
        assert(piece(s3.st, folded[i + 1]) == piece(st1, folded[i + 1]));
    }
    assert(seq_clean(s1, ocs));
    if folded.len() == 0 {
        let s3b = logged(s3, "Empty sequence collapsed to empty Data node"@);
        lemma_finish_canon(s3b, a, NodeView::Data(Seq::empty()), 0);
        if let OptRun::Ran(_, s4) = finish(s3b, a, NodeView::Data(Seq::empty())) {
            lemma_grows_trans(st1, s3.st, s4.st);
        }
    } else if folded.len() == 1 {
        assert(canon(s3.st, folded[0], hh + 1));
        lemma_memo_insert_canon(s3.st, s3.memo, a, folded[0]);
    } else {
        let m = NodeView::Sequence(folded);
        assert(canon_node(s3.st, m, hh + 1));
        lemma_finish_canon(s3, a, m, hh + 1);
        if let OptRun::Ran(_, s4) = finish(s3, a, m) {
            lemma_grows_trans(st1, s3.st, s4.st);
        }
    }
}

/// Optimisation is idempotent: where the optimisation of `root` over the
/// store contents `st` is clean (see `opt_clean`) and gives an address,
/// optimising that address over the store it left gives the same address
/// back and stores nothing new (unless it runs past `usize::MAX` levels)
pub proof fn lemma_optimize_idempotent(st: Map<AddressView, NodeView>, root: AddressView)
    requires
        opt_clean(OptState { st, memo: Map::empty(), log: Seq::empty() }, root, usize::MAX as nat),
    ensures
        match opt_outcome(st, root) {
            OptRun::Ran(Ok(o), s2) => match opt_outcome(s2.st, o) {
                OptRun::Ran(r, s3) => r == Ok::<AddressView, crate::error::CoreError>(o) && s3.st == s2.st,
                OptRun::Exhausted => true,
            },
            _ => true,
        },
{
    reveal(opt_outcome);
    let start = OptState { st, memo: Map::empty(), log: Seq::empty() };
    assert(memo_canon(st, Map::<AddressView, AddressView>::empty()));
    lemma_results_canon(start, root, usize::MAX as nat);
    if let OptRun::Ran(Ok(o), s2) = opt_node(start, root, usize::MAX as nat) {
        let h = choose|h: nat| #[trigger] canon(s2.st, o, h);
        let again = OptState { st: s2.st, memo: Map::empty(), log: Seq::empty() };
        assert(memo_id(again.memo));
        lemma_canon_fixed(again, o, h, usize::MAX as nat);
    }
}

} // verus!
