//! What an address stands for, independently of resolution limits, and the
//! proof that the DAG optimisation keeps it

use vstd::prelude::*;
use crate::address::AddressView;
use crate::node::NodeView;
use crate::resolver::{lookup, slice_window, run_node, run_list, resolve_outcome, Limits, Window, advance};
use crate::lossless::{repeat_bytes, lemma_repeat_bytes_back};
use crate::node::spec_node_address;
use crate::inspector::{Walk, tally_node, tally_list, full_walk, window_len};
use crate::dag::{
    OptState, OptRun, ListRun, opt_node, opt_outcome, opt_list, finish, logged, flatten, fold_runs, run_repeat, run_addr,
    put_runs, mul_or_max, full_length, run_children, run_shape, run_shapes, run_addrs, run_ok, piece, piece_total,
    lemma_fold_runs_lossless, lemma_repeat_merge, lemma_full_slice,
};

verus! {

/// The node each address stands for over the store contents `st`
pub open spec fn lookups(st: Map<AddressView, NodeView>) -> spec_fn(AddressView) -> Option<NodeView> {
    |a: AddressView| lookup(st, a)
}

/// The bytes `a` stands for, when `l` gives the node of each address and at
/// most `fuel` nested steps are taken
pub open spec fn content(l: spec_fn(AddressView) -> Option<NodeView>, a: AddressView, fuel: nat) -> Option<Seq<u8>>
    decreases fuel, 0int, 0int,
{
    if fuel == 0 {
        None
    } else {
        match l(a) {
            None => None,
            Some(n) => node_content(l, n, (fuel - 1) as nat),
        }
    }
}

/// The bytes a node stands for
pub open spec fn node_content(l: spec_fn(AddressView) -> Option<NodeView>, n: NodeView, fuel: nat) -> Option<Seq<u8>>
    decreases fuel, 2int, 0int,
{
    match n {
        NodeView::Data(b) => Some(b),
        NodeView::Page(d) => Some(d),
        NodeView::Reference(t) => content(l, t, fuel),
        NodeView::Repeat { target, count } => if count == 0 {
            Some(Seq::empty())
        } else {
            match content(l, target, fuel) {
                Some(x) => Some(repeat_bytes(x, count as nat)),
                None => None,
            }
        },
        NodeView::Slice { target, offset, length } => match content(l, target, fuel) {
            Some(x) => Some(slice_window(x, offset, length)),
            None => None,
        },
        NodeView::Sequence(cs) => list_content(l, cs, fuel),
    }
}

/// The bytes a list of addresses stands for, one after the other
pub open spec fn list_content(l: spec_fn(AddressView) -> Option<NodeView>, cs: Seq<AddressView>, fuel: nat) -> Option<
    Seq<u8>,
>
    decreases fuel, 1int, cs.len(),
{
    if cs.len() == 0 {
        Some(Seq::empty())
    } else {
        match (list_content(l, cs.drop_last(), fuel), content(l, cs.last(), fuel)) {
            (Some(p), Some(x)) => Some(p + x),
            _ => None,
        }
    }
}

/// `a` stands for the bytes `b` (within some budget)
pub open spec fn has_content(l: spec_fn(AddressView) -> Option<NodeView>, a: AddressView, b: Seq<u8>) -> bool {
    exists|f: nat| #[trigger] content(l, a, f) == Some(b)
}

/// The list `cs` stands for the bytes `b` (within some budget)
pub open spec fn has_list_content(l: spec_fn(AddressView) -> Option<NodeView>, cs: Seq<AddressView>, b: Seq<u8>) -> bool {
    exists|f: nat| #[trigger] list_content(l, cs, f) == Some(b)
}

/// The node `n` stands for the bytes `b` (within some budget)
pub open spec fn has_node_content(l: spec_fn(AddressView) -> Option<NodeView>, n: NodeView, b: Seq<u8>) -> bool {
    exists|f: nat| #[trigger] node_content(l, n, f) == Some(b)
}

proof fn lemma_content_mono(l: spec_fn(AddressView) -> Option<NodeView>, a: AddressView, f: nat, g: nat)
    requires
        f <= g,
        content(l, a, f) is Some,
    ensures
        content(l, a, g) == content(l, a, f),
    decreases f, 0int, 0int,
{
    if let Some(n) = l(a) {
        lemma_node_content_mono(l, n, (f - 1) as nat, (g - 1) as nat);
    }
}

proof fn lemma_node_content_mono(l: spec_fn(AddressView) -> Option<NodeView>, n: NodeView, f: nat, g: nat)
    requires
        f <= g,
        node_content(l, n, f) is Some,
    ensures
        node_content(l, n, g) == node_content(l, n, f),
    decreases f, 2int, 0int,
{
    match n {
        NodeView::Reference(t) => lemma_content_mono(l, t, f, g),
        NodeView::Repeat { target, count } => {
            if count != 0 {
                lemma_content_mono(l, target, f, g);
            }
        },
        NodeView::Slice { target, offset, length } => lemma_content_mono(l, target, f, g),
        NodeView::Sequence(cs) => lemma_list_content_mono(l, cs, f, g),
        _ => {},
    }
}

proof fn lemma_list_content_mono(l: spec_fn(AddressView) -> Option<NodeView>, cs: Seq<AddressView>, f: nat, g: nat)
    requires
        f <= g,
        list_content(l, cs, f) is Some,
    ensures
        list_content(l, cs, g) == list_content(l, cs, f),
    decreases f, 1int, cs.len(),
{
    if cs.len() > 0 {
        lemma_list_content_mono(l, cs.drop_last(), f, g);
        lemma_content_mono(l, cs.last(), f, g);
    }
}

/// What an address stands for is one byte string at most
pub proof fn lemma_has_content_unique(l: spec_fn(AddressView) -> Option<NodeView>, a: AddressView, x: Seq<u8>, y: Seq<u8>)
    requires
        has_content(l, a, x),
        has_content(l, a, y),
    ensures
        x == y,
{
    let f = choose|f: nat| #[trigger] content(l, a, f) == Some(x);
    let g = choose|g: nat| #[trigger] content(l, a, g) == Some(y);
    if f <= g {
        lemma_content_mono(l, a, f, g);
    } else {
        lemma_content_mono(l, a, g, f);
    }
}

/// An address stands for what its node stands for
proof fn lemma_content_node(l: spec_fn(AddressView) -> Option<NodeView>, a: AddressView, n: NodeView, b: Seq<u8>)
    requires
        l(a) == Some(n),
    ensures
        has_content(l, a, b) <==> has_node_content(l, n, b),
{
    if has_content(l, a, b) {
        let f = choose|f: nat| #[trigger] content(l, a, f) == Some(b);
        assert(node_content(l, n, (f - 1) as nat) == Some(b));
    }
    if has_node_content(l, n, b) {
        let f = choose|f: nat| #[trigger] node_content(l, n, f) == Some(b);
        assert(content(l, a, f + 1) == Some(b));
    }
}

/// Two lists stand for the concatenation of what each stands for
proof fn lemma_list_content_append(
    l: spec_fn(AddressView) -> Option<NodeView>,
    p: Seq<AddressView>,
    q: Seq<AddressView>,
    f: nat,
)
    ensures
        list_content(l, p + q, f) == match (list_content(l, p, f), list_content(l, q, f)) {
            (Some(x), Some(y)) => Some(x + y),
            _ => None::<Seq<u8>>,
        },
    decreases q.len(),
{
    if q.len() == 0 {
        assert(p + q =~= p);
        if let Some(x) = list_content(l, p, f) {
            assert(x + Seq::<u8>::empty() =~= x);
        }
    } else {
        let q0 = q.drop_last();
        lemma_list_content_append(l, p, q0, f);
        assert((p + q).drop_last() =~= p + q0);
        assert((p + q).last() == q.last());
        match (list_content(l, p, f), list_content(l, q0, f), content(l, q.last(), f)) {
            (Some(x), Some(y), Some(z)) => {
                assert(x + y + z =~= x + (y + z));
            },
            _ => {},
        }
    }
}

/// The list of one address stands for what that address stands for
proof fn lemma_list_single(l: spec_fn(AddressView) -> Option<NodeView>, a: AddressView, f: nat)
    ensures
        list_content(l, seq![a], f) == content(l, a, f),
{
    assert(seq![a].drop_last() =~= Seq::<AddressView>::empty());
    assert(seq![a].last() == a);
    assert(list_content(l, Seq::<AddressView>::empty(), f) == Some(Seq::<u8>::empty()));
    if let Some(x) = content(l, a, f) {
        assert(Seq::<u8>::empty() + x =~= x);
    }
}

/// Joining two lists joins what they stand for
pub proof fn lemma_has_list_join(
    l: spec_fn(AddressView) -> Option<NodeView>,
    p: Seq<AddressView>,
    q: Seq<AddressView>,
    x: Seq<u8>,
    y: Seq<u8>,
)
    requires
        has_list_content(l, p, x),
        has_list_content(l, q, y),
    ensures
        has_list_content(l, p + q, x + y),
{
    let f = choose|f: nat| #[trigger] list_content(l, p, f) == Some(x);
    let g = choose|g: nat| #[trigger] list_content(l, q, g) == Some(y);
    let h = if f <= g {
        g
    } else {
        f
    };
    lemma_list_content_mono(l, p, f, h);
    lemma_list_content_mono(l, q, g, h);
    lemma_list_content_append(l, p, q, h);
    assert(list_content(l, p + q, h) == Some(x + y));
}

/// What a joined list stands for splits into what its parts stand for
pub proof fn lemma_has_list_split(l: spec_fn(AddressView) -> Option<NodeView>, p: Seq<AddressView>, q: Seq<AddressView>, b: Seq<u8>)
    requires
        has_list_content(l, p + q, b),
    ensures
        exists|x: Seq<u8>, y: Seq<u8>| #![trigger has_list_content(l, p, x), has_list_content(l, q, y)]
            b == x + y && has_list_content(l, p, x) && has_list_content(l, q, y),
{
    let f = choose|f: nat| #[trigger] list_content(l, p + q, f) == Some(b);
    lemma_list_content_append(l, p, q, f);
    let x = list_content(l, p, f)->Some_0;
    let y = list_content(l, q, f)->Some_0;
    assert(has_list_content(l, p, x));
    assert(has_list_content(l, q, y));
}

/// The list of one address stands for what that address stands for
pub proof fn lemma_has_list_single(l: spec_fn(AddressView) -> Option<NodeView>, a: AddressView, b: Seq<u8>)
    ensures
        has_list_content(l, seq![a], b) <==> has_content(l, a, b),
{
    if has_list_content(l, seq![a], b) {
        let f = choose|f: nat| #[trigger] list_content(l, seq![a], f) == Some(b);
        lemma_list_single(l, a, f);
    }
    if has_content(l, a, b) {
        let f = choose|f: nat| #[trigger] content(l, a, f) == Some(b);
        lemma_list_single(l, a, f);
    }
}

/// The empty list stands for no bytes
pub proof fn lemma_has_list_empty(l: spec_fn(AddressView) -> Option<NodeView>, b: Seq<u8>)
    ensures
        has_list_content(l, Seq::empty(), b) <==> b == Seq::<u8>::empty(),
{
    assert(list_content(l, Seq::empty(), 0) == Some(Seq::<u8>::empty()));
}


/// Storing `n` under its own address changes nothing that any address
/// stands for: that address already stood for `n`
pub open spec fn put_keeps(st: Map<AddressView, NodeView>, n: NodeView) -> bool {
    spec_node_address(n) matches Ok(a) ==> lookup(st, a) == Some(n)
}

/// Every node the optimisation of `a` stores is one its address already
/// stood for, and no nested repeats it merges overflow a count
pub open spec fn opt_clean(s: OptState, a: AddressView, fuel: nat) -> bool
    decreases fuel, 0int, 0int,
{
    if s.memo.contains_key(a) || fuel == 0 {
        true
    } else {
        let f1 = (fuel - 1) as nat;
        match lookup(s.st, a) {
            None => true,
            Some(n) => match n {
                NodeView::Data(_) => put_keeps(s.st, n),
                NodeView::Page(_) => put_keeps(s.st, n),
                NodeView::Reference(t) => opt_clean(s, t, f1) && match opt_node(s, t, f1) {
                    OptRun::Ran(Ok(ot), s1) => if s1.st.contains_key(ot) && s1.st[ot] is Reference {
                        put_keeps(s1.st, NodeView::Reference(s1.st[ot]->Reference_0))
                    } else {
                        put_keeps(s1.st, NodeView::Reference(ot))
                    },
                    _ => true,
                },
                NodeView::Repeat { target, count } => if count == 0 {
                    put_keeps(s.st, NodeView::Data(Seq::empty()))
                } else {
                    opt_clean(s, target, f1) && match opt_node(s, target, f1) {
                        OptRun::Ran(Ok(ot), s1) => count == 1 || match lookup(s1.st, ot) {
                            Some(NodeView::Repeat { target: sub, count: sc }) => count * sc <= u64::MAX && put_keeps(
                                s1.st,
                                NodeView::Repeat { target: sub, count: mul_or_max(count, sc) },
                            ),
                            _ => put_keeps(s1.st, NodeView::Repeat { target: ot, count }),
                        },
                        _ => true,
                    }
                },
                NodeView::Slice { target, offset, length } => if length == 0 {
                    put_keeps(s.st, NodeView::Data(Seq::empty()))
                } else {
                    opt_clean(s, target, f1) && match opt_node(s, target, f1) {
                        OptRun::Ran(Ok(ot), s1) => match full_length(lookup(s1.st, ot)) {
                            Some(total) if offset == 0 && length >= total => true,
                            _ => put_keeps(s1.st, NodeView::Slice { target: ot, offset, length }),
                        },
                        _ => true,
                    }
                },
                NodeView::Sequence(cs) => list_clean(s, cs, 0, f1) && match opt_list(s, cs, 0, f1) {
                    ListRun::Ran(Ok(ocs), s1) => seq_clean(s1, ocs),
                    _ => true,
                },
            },
        }
    }
}

/// The optimisation of `cs[i..]` is clean (see `opt_clean`)
pub open spec fn list_clean(s: OptState, cs: Seq<AddressView>, i: int, fuel: nat) -> bool
    decreases fuel, 1int, cs.len() - i,
{
    if i < 0 || i >= cs.len() {
        true
    } else {
        opt_clean(s, cs[i], fuel) && match opt_node(s, cs[i], fuel) {
            OptRun::Ran(Ok(x), s1) => list_clean(s1, cs, i + 1, fuel),
            _ => true,
        }
    }
}

/// Storing the repeat node of each run of more than one child changes no lookup
pub open spec fn runs_clean(s: OptState, runs: Seq<(AddressView, nat, nat, AddressView)>) -> bool
    decreases runs.len(),
{
    if runs.len() == 0 {
        true
    } else {
        &&& runs_clean(s, runs.drop_last())
        &&& (runs.last().2 == 1 || put_keeps(put_runs(s, runs.drop_last()).st, run_repeat(runs.last())))
    }
}

/// The end of a sequence's optimisation is clean (see `opt_clean`)
pub open spec fn seq_clean(s: OptState, ocs: Seq<AddressView>) -> bool {
    let fl = flatten(s.st, ocs);
    let s2 = OptState { st: s.st, memo: s.memo, log: s.log + fl.1 };
    let runs = run_shapes(fold_runs(s.st, fl.0));
    let s3 = put_runs(s2, runs);
    let folded = run_addrs(runs);
    &&& runs_clean(s2, runs)
    &&& (folded.len() == 0 ==> put_keeps(s3.st, NodeView::Data(Seq::empty())))
    &&& (folded.len() >= 2 ==> put_keeps(s3.st, NodeView::Sequence(folded)))
}

/// Each recorded result stands for what its address stands for
pub open spec fn memo_sound(l: spec_fn(AddressView) -> Option<NodeView>, m: Map<AddressView, AddressView>) -> bool {
    forall|k: AddressView, b: Seq<u8>| m.contains_key(k) && #[trigger] has_content(l, k, b) ==> has_content(l, m[k], b)
}

/// `r` stands for whatever `a` stands for
pub open spec fn keeps(l: spec_fn(AddressView) -> Option<NodeView>, a: AddressView, r: AddressView) -> bool {
    forall|b: Seq<u8>| #[trigger] has_content(l, a, b) ==> has_content(l, r, b)
}

proof fn lemma_put_keeps(st: Map<AddressView, NodeView>, n: NodeView)
    requires
        put_keeps(st, n),
        spec_node_address(n) is Ok,
    ensures
        lookups(st.insert(spec_node_address(n)->Ok_0, n)) == lookups(st),
{
    let a = spec_node_address(n)->Ok_0;
    let st2 = st.insert(a, n);
    assert forall|y: AddressView| #[trigger] lookups(st2)(y) == lookups(st)(y) by {
        if y != a {
            assert(st2.contains_key(y) == st.contains_key(y));
            if st.contains_key(y) {
                assert(st2[y] == st[y]);
            }
        }
    }
    assert(lookups(st2) =~= lookups(st));
}

proof fn lemma_memo_insert(l: spec_fn(AddressView) -> Option<NodeView>, m: Map<AddressView, AddressView>, a: AddressView, r: AddressView)
    requires
        memo_sound(l, m),
        keeps(l, a, r),
    ensures
        memo_sound(l, m.insert(a, r)),
{
    let m2 = m.insert(a, r);
    assert forall|k: AddressView, b: Seq<u8>| m2.contains_key(k) && #[trigger] has_content(l, k, b) implies has_content(
        l,
        m2[k],
        b,
    ) by {
        if k == a {
            assert(has_content(l, a, b));
        } else {
            assert(m.contains_key(k));
        }
    }
}

/// Finishing with a node that stands for what `a` stands for keeps everything
proof fn lemma_finish_keeps(l: spec_fn(AddressView) -> Option<NodeView>, s: OptState, a: AddressView, n: NodeView)
    requires
        lookups(s.st) == l,
        memo_sound(l, s.memo),
        put_keeps(s.st, n),
        forall|b: Seq<u8>| #[trigger] has_content(l, a, b) ==> has_node_content(l, n, b),
    ensures
        match finish(s, a, n) {
            OptRun::Ran(res, s2) => lookups(s2.st) == l && memo_sound(l, s2.memo) && (res matches Ok(r) ==> keeps(
                l,
                a,
                r,
            )),
            OptRun::Exhausted => false,
        },
{
    if let Ok(r) = spec_node_address(n) {
        lemma_put_keeps(s.st, n);
        assert(l(r) == Some(n)) by {
            assert(lookups(s.st)(r) == lookup(s.st, r));
        }
        assert forall|b: Seq<u8>| #[trigger] has_content(l, a, b) implies has_content(l, r, b) by {
            lemma_content_node(l, r, n, b);
        }
        lemma_memo_insert(l, s.memo, a, r);
    }
}

/// A list repeating one address `c` times stands for `c` repetitions of what it stands for
proof fn lemma_repeat_list(l: spec_fn(AddressView) -> Option<NodeView>, x: AddressView, c: nat, f: nat)
    ensures
        list_content(l, Seq::new(c, |i: int| x), f) == if c == 0 {
            Some(Seq::<u8>::empty())
        } else {
            match content(l, x, f) {
                Some(v) => Some(repeat_bytes(v, c)),
                None => None::<Seq<u8>>,
            }
        },
    decreases c,
{
    if c > 0 {
        let q = Seq::new(c, |i: int| x);
        assert(q.drop_last() =~= Seq::new((c - 1) as nat, |i: int| x));
        lemma_repeat_list(l, x, (c - 1) as nat, f);
        if let Some(v) = content(l, x, f) {
            lemma_repeat_bytes_back(v, (c - 1) as nat);
            if c == 1 {
                assert(repeat_bytes(v, 0) == Seq::<u8>::empty());
            }
        }
    }
}


/// Replacing each child that is a sequence by its children keeps what the list stands for
proof fn lemma_flatten_keeps(l: spec_fn(AddressView) -> Option<NodeView>, st: Map<AddressView, NodeView>, cs: Seq<AddressView>, b: Seq<u8>)
    requires
        lookups(st) == l,
        has_list_content(l, cs, b),
    ensures
        has_list_content(l, flatten(st, cs).0, b),
    decreases cs.len(),
{
    if cs.len() == 0 {
        assert(flatten(st, cs).0 == Seq::<AddressView>::empty());
        assert(cs =~= Seq::<AddressView>::empty());
    } else {
        let p = cs.drop_last();
        let x = cs.last();
        assert(cs =~= p + seq![x]);
        assert(flatten(st, cs) == {
            let q = flatten(st, p);
            match lookup(st, x) {
                Some(NodeView::Sequence(sub)) => (
                    q.0 + sub,
                    q.1.push("Flattened nested sequence with "@ + crate::text::decimal(sub.len()) + " children"@),
                ),
                _ => (q.0.push(x), q.1),
            }
        });
        lemma_has_list_split(l, p, seq![x], b);
        let (b1, b2) = choose|b1: Seq<u8>, b2: Seq<u8>|
            #![trigger has_list_content(l, p, b1), has_list_content(l, seq![x], b2)]
            b == b1 + b2 && has_list_content(l, p, b1) && has_list_content(l, seq![x], b2);
        lemma_flatten_keeps(l, st, p, b1);
        lemma_has_list_single(l, x, b2);
        assert(l(x) == lookup(st, x));
        match lookup(st, x) {
            Some(NodeView::Sequence(sub)) => {
                lemma_content_node(l, x, NodeView::Sequence(sub), b2);
                let f = choose|f: nat| #[trigger] node_content(l, NodeView::Sequence(sub), f) == Some(b2);
                assert(list_content(l, sub, f) == Some(b2));
                lemma_has_list_join(l, flatten(st, p).0, sub, b1, b2);
            },
            _ => {
                lemma_has_list_join(l, flatten(st, p).0, seq![x], b1, b2);
                assert(flatten(st, p).0 + seq![x] =~= flatten(st, p).0.push(x));
            },
        }
    }
}

/// Children that each repeat `base` stand for as many repetitions of what
/// `base` stands for as they repeat it in all
proof fn lemma_children_repeat(l: spec_fn(AddressView) -> Option<NodeView>, st: Map<AddressView, NodeView>, base: AddressView, es: Seq<AddressView>)
    requires
        lookups(st) == l,
        forall|j: int| 0 <= j < es.len() ==> (#[trigger] piece(st, es[j])).0 == base,
    ensures
        forall|b: Seq<u8>|
            #[trigger] has_list_content(l, es, b) ==> has_list_content(l, Seq::new(piece_total(st, es), |i: int| base), b),
    decreases es.len(),
{
    if es.len() == 0 {
        assert forall|b: Seq<u8>| #[trigger] has_list_content(l, es, b) implies has_list_content(
            l,
            Seq::new(piece_total(st, es), |i: int| base),
            b,
        ) by {
            assert(es =~= Seq::<AddressView>::empty());
            assert(Seq::new(piece_total(st, es), |i: int| base) =~= Seq::<AddressView>::empty());
        }
    } else {
        let p = es.drop_last();
        let e = es.last();
        assert forall|j: int| 0 <= j < p.len() implies (#[trigger] piece(st, p[j])).0 == base by {
            assert(p[j] == es[j]);
        }
        assert(piece(st, es[es.len() - 1]).0 == base);
        lemma_children_repeat(l, st, base, p);
        let k = piece(st, e).1;
        let tp = piece_total(st, p);
        assert(Seq::new(tp + k, |i: int| base) =~= Seq::new(tp, |i: int| base) + Seq::new(k, |i: int| base));
        assert(es =~= p + seq![e]);
        assert forall|b: Seq<u8>| #[trigger] has_list_content(l, es, b) implies has_list_content(
            l,
            Seq::new(piece_total(st, es), |i: int| base),
            b,
        ) by {
            lemma_has_list_split(l, p, seq![e], b);
            let (b1, b2) = choose|b1: Seq<u8>, b2: Seq<u8>|
                #![trigger has_list_content(l, p, b1), has_list_content(l, seq![e], b2)]
                b == b1 + b2 && has_list_content(l, p, b1) && has_list_content(l, seq![e], b2);
            lemma_has_list_single(l, e, b2);
            assert(l(e) == lookup(st, e));
            assert(has_list_content(l, Seq::new(k, |i: int| base), b2)) by {
                match lookup(st, e) {
                    Some(NodeView::Repeat { target, count }) => {
                        if count >= 2 {
                            let n = NodeView::Repeat { target, count };
                            lemma_content_node(l, e, n, b2);
                            let f = choose|f: nat| #[trigger] node_content(l, n, f) == Some(b2);
                            lemma_repeat_list(l, base, k, f);
                        } else {
                            assert(Seq::new(k, |i: int| base) =~= seq![e]);
                        }
                    },
                    _ => {
                        assert(Seq::new(k, |i: int| base) =~= seq![e]);
                    },
                }
            }
            lemma_has_list_join(l, Seq::new(tp, |i: int| base), Seq::new(k, |i: int| base), b1, b2);
        }
    }
}

/// Storing the runs' repeat nodes keeps every lookup, and the runs'
/// addresses stand for what their children stand for
proof fn lemma_runs_keeps(
    l: spec_fn(AddressView) -> Option<NodeView>,
    s: OptState,
    st: Map<AddressView, NodeView>,
    runs: Seq<(AddressView, nat, Seq<AddressView>)>,
)
    requires
        lookups(s.st) == l,
        lookups(st) == l,
        runs_clean(s, run_shapes(runs)),
        forall|i: int| 0 <= i < runs.len() ==> run_ok(st, #[trigger] runs[i]),
    ensures
        lookups(put_runs(s, run_shapes(runs)).st) == l,
        put_runs(s, run_shapes(runs)).memo == s.memo,
        forall|b: Seq<u8>|
            #[trigger] has_list_content(l, run_children(runs), b) ==> has_list_content(l, run_addrs(run_shapes(runs)), b),
    decreases runs.len(),
{
    if runs.len() == 0 {
        assert(run_addrs(run_shapes(runs)) =~= Seq::<AddressView>::empty());
        assert(run_shapes(runs) =~= Seq::<(AddressView, nat, nat, AddressView)>::empty());
    } else {
        let d = runs.drop_last();
        let r = runs.last();
        let sh = run_shapes(runs);
        let q = run_shape(r);
        assert(run_shapes(d) =~= sh.drop_last());
        assert(sh.last() == q);
        assert forall|i: int| 0 <= i < d.len() implies run_ok(st, #[trigger] d[i]) by {
            assert(d[i] == runs[i]);
        }
        assert(run_ok(st, runs[runs.len() - 1]));
        lemma_runs_keeps(l, s, st, d);
        let s0 = put_runs(s, run_shapes(d));
        if r.2.len() != 1 {
            assert(spec_node_address(run_repeat(q)) is Ok);
            lemma_put_keeps(s0.st, run_repeat(q));
            assert(l(run_addr(q)) == Some(run_repeat(q))) by {
                assert(lookups(s0.st)(run_addr(q)) == lookup(s0.st, run_addr(q)));
            }
        }
        let dm = run_addrs(run_shapes(d));
        assert(run_addrs(sh) =~= dm + seq![run_addr(q)]);
        assert(run_children(runs) == run_children(d) + r.2);
        assert forall|b: Seq<u8>| #[trigger] has_list_content(l, run_children(runs), b) implies has_list_content(
            l,
            run_addrs(sh),
            b,
        ) by {
            lemma_has_list_split(l, run_children(d), r.2, b);
            let (b1, b2) = choose|b1: Seq<u8>, b2: Seq<u8>|
                #![trigger has_list_content(l, run_children(d), b1), has_list_content(l, r.2, b2)]
                b == b1 + b2 && has_list_content(l, run_children(d), b1) && has_list_content(l, r.2, b2);
            assert(has_content(l, run_addr(q), b2)) by {
                if r.2.len() == 1 {
                    assert(r.2 =~= seq![r.2[0]]);
                    lemma_has_list_single(l, r.2[0], b2);
                } else {
                    lemma_children_repeat(l, st, r.0, r.2);
                    let rep = Seq::new(r.1, |i: int| r.0);
                    let f = choose|f: nat| #[trigger] list_content(l, rep, f) == Some(b2);
                    lemma_repeat_list(l, r.0, r.1, f);
                    assert(node_content(l, run_repeat(q), f) == Some(b2));
                    lemma_content_node(l, run_addr(q), run_repeat(q), b2);
                }
            }
            lemma_has_list_single(l, run_addr(q), b2);
            lemma_has_list_join(l, dm, seq![run_addr(q)], b1, b2);
        }
    }
}


/// What each kind of node stands for
proof fn lemma_node_cases(l: spec_fn(AddressView) -> Option<NodeView>, n: NodeView, b: Seq<u8>)
    ensures
        n matches NodeView::Data(d) ==> (has_node_content(l, n, b) <==> b == d),
        n matches NodeView::Page(d) ==> (has_node_content(l, n, b) <==> b == d),
        n matches NodeView::Reference(t) ==> (has_node_content(l, n, b) <==> has_content(l, t, b)),
        n matches NodeView::Sequence(cs) ==> (has_node_content(l, n, b) <==> has_list_content(l, cs, b)),
{
    match n {
        NodeView::Data(d) => {
            if b == d {
                assert(node_content(l, n, 0) == Some(b));
            }
        },
        NodeView::Page(d) => {
            if b == d {
                assert(node_content(l, n, 0) == Some(b));
            }
        },
        NodeView::Reference(t) => {
            if has_content(l, t, b) {
                let f = choose|f: nat| #[trigger] content(l, t, f) == Some(b);
                assert(node_content(l, n, f) == Some(b));
            }
            if has_node_content(l, n, b) {
                let f = choose|f: nat| #[trigger] node_content(l, n, f) == Some(b);
                assert(content(l, t, f) == Some(b));
            }
        },
        NodeView::Sequence(cs) => {
            if has_list_content(l, cs, b) {
                let f = choose|f: nat| #[trigger] list_content(l, cs, f) == Some(b);
                assert(node_content(l, n, f) == Some(b));
            }
            if has_node_content(l, n, b) {
                let f = choose|f: nat| #[trigger] node_content(l, n, f) == Some(b);
                assert(list_content(l, cs, f) == Some(b));
            }
        },
        _ => {},
    }
}

/// A repeat node stands for repetitions of what its target stands for
proof fn lemma_repeat_node(l: spec_fn(AddressView) -> Option<NodeView>, t: AddressView, c: u64, b: Seq<u8>)
    ensures
        has_node_content(l, NodeView::Repeat { target: t, count: c }, b) && c != 0 ==> exists|x: Seq<u8>|
            #[trigger] has_content(l, t, x) && b == repeat_bytes(x, c as nat),
        has_node_content(l, NodeView::Repeat { target: t, count: c }, b) && c == 0 ==> b == Seq::<u8>::empty(),
        c == 0 ==> has_node_content(l, NodeView::Repeat { target: t, count: c }, Seq::empty()),
        forall|x: Seq<u8>|
            #[trigger] has_content(l, t, x) ==> has_node_content(
                l,
                NodeView::Repeat { target: t, count: c },
                repeat_bytes(x, c as nat),
            ),
{
    let n = NodeView::Repeat { target: t, count: c };
    if has_node_content(l, n, b) && c != 0 {
        let f = choose|f: nat| #[trigger] node_content(l, n, f) == Some(b);
        let x = content(l, t, f)->Some_0;
        assert(has_content(l, t, x));
    }
    if c == 0 {
        assert(node_content(l, n, 0) == Some(Seq::<u8>::empty()));
    }
    assert forall|x: Seq<u8>| #[trigger] has_content(l, t, x) implies has_node_content(l, n, repeat_bytes(x, c as nat)) by {
        let f = choose|f: nat| #[trigger] content(l, t, f) == Some(x);
        assert(node_content(l, n, f) == Some(repeat_bytes(x, c as nat)));
    }
}

/// A slice node stands for a window of what its target stands for
proof fn lemma_slice_node(l: spec_fn(AddressView) -> Option<NodeView>, t: AddressView, o: u64, len: u64, b: Seq<u8>)
    ensures
        has_node_content(l, NodeView::Slice { target: t, offset: o, length: len }, b) ==> exists|x: Seq<u8>|
            #[trigger] has_content(l, t, x) && b == slice_window(x, o, len),
        forall|x: Seq<u8>|
            #[trigger] has_content(l, t, x) ==> has_node_content(
                l,
                NodeView::Slice { target: t, offset: o, length: len },
                slice_window(x, o, len),
            ),
{
    let n = NodeView::Slice { target: t, offset: o, length: len };
    if has_node_content(l, n, b) {
        let f = choose|f: nat| #[trigger] node_content(l, n, f) == Some(b);
        let x = content(l, t, f)->Some_0;
        assert(has_content(l, t, x));
    }
    assert forall|x: Seq<u8>| #[trigger] has_content(l, t, x) implies has_node_content(l, n, slice_window(x, o, len)) by {
        let f = choose|f: nat| #[trigger] content(l, t, f) == Some(x);
        assert(node_content(l, n, f) == Some(slice_window(x, o, len)));
    }
}


/// After optimising `a` from `s`: lookups unchanged, results recorded
/// soundly, and the result standing for what `a` stands for
pub open spec fn node_post(l: spec_fn(AddressView) -> Option<NodeView>, a: AddressView, run: OptRun) -> bool {
    match run {
        OptRun::Ran(res, s2) => lookups(s2.st) == l && memo_sound(l, s2.memo) && (res matches Ok(r) ==> keeps(l, a, r)),
        OptRun::Exhausted => true,
    }
}

/// After optimising `cs[i..]`: lookups unchanged, results recorded soundly,
/// and the results standing for what `cs[i..]` stands for
pub open spec fn list_post(l: spec_fn(AddressView) -> Option<NodeView>, cs: Seq<AddressView>, i: int, run: ListRun) -> bool {
    match run {
        ListRun::Ran(res, s2) => lookups(s2.st) == l && memo_sound(l, s2.memo) && (res matches Ok(ocs) ==> forall|b: Seq<u8>|
            #[trigger] has_list_content(l, cs.skip(i), b) ==> has_list_content(l, ocs, b)),
        ListRun::Exhausted => true,
    }
}

#[verifier::spinoff_prover]
proof fn lemma_case_reference(l: spec_fn(AddressView) -> Option<NodeView>, s: OptState, a: AddressView, t: AddressView, fuel: nat)
    requires
        lookups(s.st) == l,
        memo_sound(l, s.memo),
        fuel > 0,
        !s.memo.contains_key(a),
        lookup(s.st, a) == Some(NodeView::Reference(t)),
        opt_clean(s, a, fuel),
        node_post(l, t, opt_node(s, t, (fuel - 1) as nat)),
    ensures
        node_post(l, a, opt_node(s, a, fuel)),
{
    let f1 = (fuel - 1) as nat;
    assert(l(a) == Some(NodeView::Reference(t))) by {
        assert(lookups(s.st)(a) == lookup(s.st, a));
    }
    if let OptRun::Ran(Ok(ot), s1) = opt_node(s, t, f1) {
        assert forall|b: Seq<u8>| #[trigger] has_content(l, a, b) implies has_content(l, ot, b) by {
            lemma_content_node(l, a, NodeView::Reference(t), b);
            lemma_node_cases(l, NodeView::Reference(t), b);
        }
        if s1.st.contains_key(ot) && s1.st[ot] is Reference {
            let sub = s1.st[ot]->Reference_0;
            assert(l(ot) == Some(NodeView::Reference(sub))) by {
                assert(lookups(s1.st)(ot) == lookup(s1.st, ot));
            }
            assert forall|b: Seq<u8>| #[trigger] has_content(l, a, b) implies has_node_content(
                l,
                NodeView::Reference(sub),
                b,
            ) by {
                lemma_content_node(l, ot, NodeView::Reference(sub), b);
                lemma_node_cases(l, NodeView::Reference(sub), b);
                lemma_node_cases(l, NodeView::Reference(sub), b);
            }
            lemma_finish_keeps(
                l,
                logged(s1, "Collapsed reference chain to "@ + crate::address::spec_uri(sub)),
                a,
                NodeView::Reference(sub),
            );
        } else {
            assert forall|b: Seq<u8>| #[trigger] has_content(l, a, b) implies has_node_content(
                l,
                NodeView::Reference(ot),
                b,
            ) by {
                lemma_node_cases(l, NodeView::Reference(ot), b);
            }
            lemma_finish_keeps(l, s1, a, NodeView::Reference(ot));
        }
    }
}


#[verifier::spinoff_prover]
#[verifier::rlimit(30)]
proof fn lemma_case_repeat(
    l: spec_fn(AddressView) -> Option<NodeView>,
    s: OptState,
    a: AddressView,
    t: AddressView,
    count: u64,
    fuel: nat,
)
    requires
        lookups(s.st) == l,
        memo_sound(l, s.memo),
        fuel > 0,
        !s.memo.contains_key(a),
        lookup(s.st, a) == Some(NodeView::Repeat { target: t, count }),
        opt_clean(s, a, fuel),
        count != 0 ==> node_post(l, t, opt_node(s, t, (fuel - 1) as nat)),
    ensures
        node_post(l, a, opt_node(s, a, fuel)),
{
    let f1 = (fuel - 1) as nat;
    let n = NodeView::Repeat { target: t, count };
    assert(l(a) == Some(n)) by {
        assert(lookups(s.st)(a) == lookup(s.st, a));
    }
    if count == 0 {
        let e = NodeView::Data(Seq::<u8>::empty());
        assert forall|b: Seq<u8>| #[trigger] has_content(l, a, b) implies has_node_content(l, e, b) by {
            lemma_content_node(l, a, n, b);
            lemma_repeat_node(l, t, count, b);
            lemma_node_cases(l, e, b);
        }
        lemma_finish_keeps(l, logged(s, "Collapsed zero-repeat to empty Data node"@), a, e);
    } else if let OptRun::Ran(Ok(ot), s1) = opt_node(s, t, f1) {
        lemma_repeat_case_target(l, a, n, t, count, ot);
        if count == 1 {
            assert forall|b: Seq<u8>| #[trigger] has_content(l, a, b) implies has_content(l, ot, b) by {
                let x = choose|x: Seq<u8>| #[trigger] has_content(l, ot, x) && b == repeat_bytes(x, count as nat);
                lemma_repeat_bytes_back(x, 0);
                assert(repeat_bytes(x, 0) + x =~= x);
            }
            lemma_memo_insert(l, s1.memo, a, ot);
        } else {
            assert(l(ot) == lookup(s1.st, ot)) by {
                assert(lookups(s1.st)(ot) == lookup(s1.st, ot));
            }
            match lookup(s1.st, ot) {
                Some(NodeView::Repeat { target: sub, count: sc }) => {
                    let total = mul_or_max(count, sc);
                    assert(total == count * sc);
                    let m = NodeView::Repeat { target: sub, count: total };
                    assert forall|b: Seq<u8>| #[trigger] has_content(l, a, b) implies has_node_content(l, m, b) by {
                        lemma_merge_content(l, ot, sub, sc, count, b);
                    }
                    lemma_finish_keeps(
                        l,
                        logged(
                            s1,
                            "Merged nested repeats ("@ + crate::text::decimal(count as nat) + "x * "@
                                + crate::text::decimal(sc as nat) + "x = "@ + crate::text::decimal(total as nat)
                                + "x)"@,
                        ),
                        a,
                        m,
                    );
                },
                _ => {
                    let m = NodeView::Repeat { target: ot, count };
                    assert forall|b: Seq<u8>| #[trigger] has_content(l, a, b) implies has_node_content(l, m, b) by {
                        let x = choose|x: Seq<u8>| #[trigger] has_content(l, ot, x) && b == repeat_bytes(x, count as nat);
                        lemma_repeat_node(l, ot, count, b);
                    }
                    lemma_finish_keeps(l, s1, a, m);
                },
            }
        }
    }
}

/// With a non-zero count, what the repeat stands for is repetitions of what
/// the optimised target stands for
proof fn lemma_repeat_case_target(
    l: spec_fn(AddressView) -> Option<NodeView>,
    a: AddressView,
    n: NodeView,
    t: AddressView,
    count: u64,
    ot: AddressView,
)
    requires
        l(a) == Some(n),
        n == (NodeView::Repeat { target: t, count }),
        count != 0,
        keeps(l, t, ot),
    ensures
        forall|b: Seq<u8>| #[trigger] has_content(l, a, b) ==> exists|x: Seq<u8>|
            #[trigger] has_content(l, ot, x) && b == repeat_bytes(x, count as nat),
{
    assert forall|b: Seq<u8>| #[trigger] has_content(l, a, b) implies exists|x: Seq<u8>|
        #[trigger] has_content(l, ot, x) && b == repeat_bytes(x, count as nat) by {
        lemma_content_node(l, a, n, b);
        lemma_repeat_node(l, t, count, b);
        let x = choose|x: Seq<u8>| #[trigger] has_content(l, t, x) && b == repeat_bytes(x, count as nat);
        assert(has_content(l, ot, x));
    }
}

proof fn lemma_repeat_empty(k: nat)
    ensures
        repeat_bytes(Seq::<u8>::empty(), k) == Seq::<u8>::empty(),
    decreases k,
{
    if k > 0 {
        lemma_repeat_empty((k - 1) as nat);
        assert(Seq::<u8>::empty() + Seq::<u8>::empty() =~= Seq::<u8>::empty());
    }
}

/// Repeating a repeat node's content is repeating its target's content the
/// product of the counts
proof fn lemma_merge_content(
    l: spec_fn(AddressView) -> Option<NodeView>,
    ot: AddressView,
    sub: AddressView,
    sc: u64,
    count: u64,
    b: Seq<u8>,
)
    requires
        l(ot) == Some(NodeView::Repeat { target: sub, count: sc }),
        count != 0,
        count * sc <= u64::MAX,
        exists|x: Seq<u8>| #[trigger] has_content(l, ot, x) && b == repeat_bytes(x, count as nat),
    ensures
        has_node_content(l, NodeView::Repeat { target: sub, count: (count * sc) as u64 }, b),
{
    let x = choose|x: Seq<u8>| #[trigger] has_content(l, ot, x) && b == repeat_bytes(x, count as nat);
    let total = (count * sc) as u64;
    lemma_content_node(l, ot, NodeView::Repeat { target: sub, count: sc }, x);
    lemma_repeat_node(l, sub, sc, x);
    if sc == 0 {
        assert(x == Seq::<u8>::empty());
        lemma_repeat_empty(count as nat);
        assert(total == 0);
        lemma_repeat_node(l, sub, total, b);
    } else {
        let y = choose|y: Seq<u8>| #[trigger] has_content(l, sub, y) && x == repeat_bytes(y, sc as nat);
        lemma_repeat_merge(y, sc as nat, count as nat);
        assert(sc * count == count * sc) by (nonlinear_arith);
        assert(total != 0) by (nonlinear_arith)
            requires
                sc != 0,
                count != 0,
                total == count * sc,
        ;
        lemma_repeat_node(l, sub, total, b);
    }
}

#[verifier::spinoff_prover]
#[verifier::rlimit(30)]
proof fn lemma_case_slice(
    l: spec_fn(AddressView) -> Option<NodeView>,
    s: OptState,
    a: AddressView,
    t: AddressView,
    offset: u64,
    length: u64,
    fuel: nat,
)
    requires
        lookups(s.st) == l,
        memo_sound(l, s.memo),
        fuel > 0,
        !s.memo.contains_key(a),
        lookup(s.st, a) == Some(NodeView::Slice { target: t, offset, length }),
        opt_clean(s, a, fuel),
        length != 0 ==> node_post(l, t, opt_node(s, t, (fuel - 1) as nat)),
    ensures
        node_post(l, a, opt_node(s, a, fuel)),
{
    let f1 = (fuel - 1) as nat;
    let n = NodeView::Slice { target: t, offset, length };
    assert(l(a) == Some(n)) by {
        assert(lookups(s.st)(a) == lookup(s.st, a));
    }
    assert forall|b: Seq<u8>| #[trigger] has_content(l, a, b) implies exists|x: Seq<u8>|
        #[trigger] has_content(l, t, x) && b == slice_window(x, offset, length) by {
        lemma_content_node(l, a, n, b);
        lemma_slice_node(l, t, offset, length, b);
    }
    if length == 0 {
        let e = NodeView::Data(Seq::<u8>::empty());
        assert forall|b: Seq<u8>| #[trigger] has_content(l, a, b) implies has_node_content(l, e, b) by {
            let x = choose|x: Seq<u8>| #[trigger] has_content(l, t, x) && b == slice_window(x, offset, length);
            assert(b =~= Seq::<u8>::empty());
            lemma_node_cases(l, e, b);
        }
        lemma_finish_keeps(l, logged(s, "Collapsed zero-length slice to empty Data node"@), a, e);
    } else if let OptRun::Ran(Ok(ot), s1) = opt_node(s, t, f1) {
        assert(l(ot) == lookup(s1.st, ot)) by {
            assert(lookups(s1.st)(ot) == lookup(s1.st, ot));
        }
        match full_length(lookup(s1.st, ot)) {
            Some(total) if offset == 0 && length >= total => {
                assert forall|b: Seq<u8>| #[trigger] has_content(l, a, b) implies has_content(l, ot, b) by {
                    let x = choose|x: Seq<u8>| #[trigger] has_content(l, t, x) && b == slice_window(x, offset, length);
                    assert(has_content(l, ot, x));
                    let d = match lookup(s1.st, ot) {
                        Some(NodeView::Data(d)) => d,
                        Some(NodeView::Page(d)) => d,
                        _ => Seq::<u8>::empty(),
                    };
                    lemma_content_node(l, ot, lookup(s1.st, ot)->Some_0, x);
                    lemma_node_cases(l, lookup(s1.st, ot)->Some_0, x);
                    assert(x == d);
                    lemma_full_slice(x, length);
                }
                lemma_memo_insert(l, s1.memo, a, ot);
            },
            _ => {
                let m = NodeView::Slice { target: ot, offset, length };
                assert forall|b: Seq<u8>| #[trigger] has_content(l, a, b) implies has_node_content(l, m, b) by {
                    let x = choose|x: Seq<u8>| #[trigger] has_content(l, t, x) && b == slice_window(x, offset, length);
                    assert(has_content(l, ot, x));
                    lemma_slice_node(l, ot, offset, length, b);
                }
                lemma_finish_keeps(l, s1, a, m);
            },
        }
    }
}


#[verifier::spinoff_prover]
#[verifier::rlimit(40)]
proof fn lemma_case_sequence(
    l: spec_fn(AddressView) -> Option<NodeView>,
    s: OptState,
    a: AddressView,
    cs: Seq<AddressView>,
    fuel: nat,
)
    requires
        lookups(s.st) == l,
        memo_sound(l, s.memo),
        fuel > 0,
        !s.memo.contains_key(a),
        lookup(s.st, a) == Some(NodeView::Sequence(cs)),
        opt_clean(s, a, fuel),
        list_post(l, cs, 0, opt_list(s, cs, 0, (fuel - 1) as nat)),
    ensures
        node_post(l, a, opt_node(s, a, fuel)),
{
    let f1 = (fuel - 1) as nat;
    let n = NodeView::Sequence(cs);
    assert(l(a) == Some(n)) by {
        assert(lookups(s.st)(a) == lookup(s.st, a));
    }
    assert(cs.skip(0) =~= cs);
    if let ListRun::Ran(Ok(ocs), s1) = opt_list(s, cs, 0, f1) {
        let fl = flatten(s1.st, ocs);
        let s2 = OptState { st: s1.st, memo: s1.memo, log: s1.log + fl.1 };
        let fr = fold_runs(s1.st, fl.0);
        let runs = run_shapes(fr);
        let s3 = put_runs(s2, runs);
        let folded = run_addrs(runs);
        assert(seq_clean(s1, ocs));
        lemma_fold_runs_lossless(s1.st, fl.0);
        lemma_runs_keeps(l, s2, s1.st, fr);
        assert forall|b: Seq<u8>| #[trigger] has_content(l, a, b) implies has_list_content(l, folded, b) by {
            lemma_content_node(l, a, n, b);
            lemma_node_cases(l, n, b);
            assert(has_list_content(l, cs.skip(0), b));
            lemma_flatten_keeps(l, s1.st, ocs, b);
            assert(has_list_content(l, run_children(fr), b));
        }
        if folded.len() == 0 {
            let e = NodeView::Data(Seq::<u8>::empty());
            assert forall|b: Seq<u8>| #[trigger] has_content(l, a, b) implies has_node_content(l, e, b) by {
                assert(folded =~= Seq::<AddressView>::empty());
                lemma_has_list_empty(l, b);
                lemma_node_cases(l, e, b);
            }
            lemma_finish_keeps(l, logged(s3, "Empty sequence collapsed to empty Data node"@), a, e);
        } else if folded.len() == 1 {
            assert forall|b: Seq<u8>| #[trigger] has_content(l, a, b) implies has_content(l, folded[0], b) by {
                assert(folded =~= seq![folded[0]]);
                lemma_has_list_single(l, folded[0], b);
            }
            lemma_memo_insert(l, s3.memo, a, folded[0]);
        } else {
            let m = NodeView::Sequence(folded);
            assert forall|b: Seq<u8>| #[trigger] has_content(l, a, b) implies has_node_content(l, m, b) by {
                lemma_node_cases(l, m, b);
            }
            lemma_finish_keeps(l, s3, a, m);
        }
    }
}

/// The optimisation of one address keeps everything (see `node_post`)
proof fn lemma_opt_node_keeps(l: spec_fn(AddressView) -> Option<NodeView>, s: OptState, a: AddressView, fuel: nat)
    requires
        lookups(s.st) == l,
        memo_sound(l, s.memo),
        opt_clean(s, a, fuel),
    ensures
        node_post(l, a, opt_node(s, a, fuel)),
    decreases fuel, 0int, 0int,
{
    if s.memo.contains_key(a) {
        assert forall|b: Seq<u8>| #[trigger] has_content(l, a, b) implies has_content(l, s.memo[a], b) by {}
    } else if fuel > 0 {
        let f1 = (fuel - 1) as nat;
        match lookup(s.st, a) {
            None => {},
            Some(n) => match n {
                NodeView::Data(_) => {
                    assert forall|b: Seq<u8>| #[trigger] has_content(l, a, b) implies has_node_content(l, n, b) by {
                        assert(lookups(s.st)(a) == lookup(s.st, a));
                        lemma_content_node(l, a, n, b);
                    }
                    lemma_finish_keeps(l, s, a, n);
                },
                NodeView::Page(_) => {
                    assert forall|b: Seq<u8>| #[trigger] has_content(l, a, b) implies has_node_content(l, n, b) by {
                        assert(lookups(s.st)(a) == lookup(s.st, a));
                        lemma_content_node(l, a, n, b);
                    }
                    lemma_finish_keeps(l, s, a, n);
                },
                NodeView::Reference(t) => {
                    lemma_opt_node_keeps(l, s, t, f1);
                    lemma_case_reference(l, s, a, t, fuel);
                },
                NodeView::Repeat { target, count } => {
                    if count != 0 {
                        lemma_opt_node_keeps(l, s, target, f1);
                    }
                    lemma_case_repeat(l, s, a, target, count, fuel);
                },
                NodeView::Slice { target, offset, length } => {
                    if length != 0 {
                        lemma_opt_node_keeps(l, s, target, f1);
                    }
                    lemma_case_slice(l, s, a, target, offset, length, fuel);
                },
                NodeView::Sequence(cs) => {
                    lemma_opt_list_keeps(l, s, cs, 0, f1);
                    lemma_case_sequence(l, s, a, cs, fuel);
                },
            },
        }
    }
}

/// The optimisation of a list keeps everything (see `list_post`)
#[verifier::spinoff_prover]
#[verifier::rlimit(80)]
proof fn lemma_opt_list_keeps(l: spec_fn(AddressView) -> Option<NodeView>, s: OptState, cs: Seq<AddressView>, i: int, fuel: nat)
    requires
        lookups(s.st) == l,
        memo_sound(l, s.memo),
        list_clean(s, cs, i, fuel),
        0 <= i <= cs.len(),
    ensures
        list_post(l, cs, i, opt_list(s, cs, i, fuel)),
    decreases fuel, 1int, cs.len() - i,
{
    if i >= cs.len() {
        assert(cs.skip(i) =~= Seq::<AddressView>::empty());
        assert forall|b: Seq<u8>| #[trigger] has_list_content(l, cs.skip(i), b) implies has_list_content(
            l,
            Seq::<AddressView>::empty(),
            b,
        ) by {}
    } else {
        lemma_opt_node_keeps(l, s, cs[i], fuel);
        if let OptRun::Ran(Ok(x), s1) = opt_node(s, cs[i], fuel) {
            lemma_opt_list_keeps(l, s1, cs, i + 1, fuel);
            if let ListRun::Ran(Ok(rest), s2) = opt_list(s1, cs, i + 1, fuel) {
                lemma_list_step_keeps(l, cs, i, x, rest);
            }
        }
    }
}

/// Joining a kept first child to kept rest keeps the list
proof fn lemma_list_step_keeps(l: spec_fn(AddressView) -> Option<NodeView>, cs: Seq<AddressView>, i: int, x: AddressView, rest: Seq<AddressView>)
    requires
        0 <= i < cs.len(),
        keeps(l, cs[i], x),
        forall|b: Seq<u8>| #[trigger] has_list_content(l, cs.skip(i + 1), b) ==> has_list_content(l, rest, b),
    ensures
        forall|b: Seq<u8>| #[trigger] has_list_content(l, cs.skip(i), b) ==> has_list_content(l, seq![x] + rest, b),
{
    assert forall|b: Seq<u8>| #[trigger] has_list_content(l, cs.skip(i), b) implies has_list_content(
        l,
        seq![x] + rest,
        b,
    ) by {
        assert(cs.skip(i) =~= seq![cs[i]] + cs.skip(i + 1));
        lemma_has_list_split(l, seq![cs[i]], cs.skip(i + 1), b);
        let (b1, b2) = choose|b1: Seq<u8>, b2: Seq<u8>|
            #![trigger has_list_content(l, seq![cs[i]], b1), has_list_content(l, cs.skip(i + 1), b2)]
            b == b1 + b2 && has_list_content(l, seq![cs[i]], b1) && has_list_content(l, cs.skip(i + 1), b2);
        lemma_has_list_single(l, cs[i], b1);
        lemma_has_list_single(l, x, b1);
        lemma_has_list_join(l, seq![x], rest, b1, b2);
    }
}

/// Optimisation keeps what the root stands for. When the optimisation of
/// `root` over the store contents `st` settles within `fuel` and every node
/// it stores is one that its address already stood for (and no nested
/// repeats it merges overflow a count), then after it every address stands
/// for the node it stood for before, and the optimised root stands for every
/// byte string the root stood for
pub proof fn lemma_optimize_keeps_content(st: Map<AddressView, NodeView>, root: AddressView, fuel: nat, b: Seq<u8>)
    requires
        opt_clean(OptState { st, memo: Map::empty(), log: Seq::empty() }, root, fuel),
        opt_node(OptState { st, memo: Map::empty(), log: Seq::empty() }, root, fuel) is Ran,
        has_content(lookups(st), root, b),
    ensures
        match opt_node(OptState { st, memo: Map::empty(), log: Seq::empty() }, root, fuel) {
            OptRun::Ran(Ok(r), s2) => lookups(s2.st) == lookups(st) && has_content(lookups(s2.st), r, b),
            OptRun::Ran(Err(_), s2) => lookups(s2.st) == lookups(st),
            OptRun::Exhausted => false,
        },
{
    let s = OptState { st, memo: Map::empty(), log: Seq::empty() };
    let l = lookups(st);
    assert(memo_sound(l, s.memo));
    lemma_opt_node_keeps(l, s, root, fuel);
}


/// The outcome that `optimize_dag` states keeps what the root stands for:
/// on a clean store (see `lemma_optimize_keeps_content`), where the
/// optimisation gives an address, every address stands for the same bytes
/// over the store after it, and the optimised root for the root's bytes
pub proof fn lemma_optimize_dag_keeps_content(st: Map<AddressView, NodeView>, root: AddressView, b: Seq<u8>)
    requires
        opt_clean(OptState { st, memo: Map::empty(), log: Seq::empty() }, root, usize::MAX as nat),
        has_content(lookups(st), root, b),
    ensures
        match opt_outcome(st, root) {
            OptRun::Ran(Ok(r), s2) => lookups(s2.st) == lookups(st) && has_content(lookups(s2.st), r, b),
            OptRun::Ran(Err(_), s2) => lookups(s2.st) == lookups(st),
            OptRun::Exhausted => true,
        },
{
    reveal(opt_outcome);
    if opt_node(OptState { st, memo: Map::empty(), log: Seq::empty() }, root, usize::MAX as nat) is Ran {
        lemma_optimize_keeps_content(st, root, usize::MAX as nat, b);
    }
}

/// Whatever a resolution of `a` produces is what `a` stands for
pub proof fn lemma_run_node_content(
    st: Map<AddressView, NodeView>,
    lim: Limits,
    a: AddressView,
    path: Seq<AddressView>,
    nodes: nat,
    written: u64,
    ws: Seq<Window>,
)
    ensures
        run_node(st, lim, a, path, nodes, written, ws) matches Ok(p) ==> has_content(lookups(st), a, p.out),
    decreases lim.max_depth - path.len(), 0int, 0int,
{
    let l = lookups(st);
    if nodes < lim.max_node_count && path.len() < lim.max_depth && !path.contains(a) {
        let n1 = nodes + 1;
        let p2 = path.push(a);
        if let Some(n) = lookup(st, a) {
            assert(l(a) == Some(n));
            if let Ok(p) = run_node(st, lim, a, path, nodes, written, ws) {
                lemma_node_cases(l, n, p.out);
                match n {
                    NodeView::Reference(t) => {
                        lemma_run_node_content(st, lim, t, p2, n1, written, ws);
                    },
                    NodeView::Sequence(c) => {
                        lemma_run_list_content(st, lim, c, 0, p2, n1, written, ws);
                        assert(c.skip(0) =~= c);
                    },
                    NodeView::Repeat { target, count } => {
                        let q = Seq::new(count as nat, |i: int| target);
                        lemma_run_list_content(st, lim, q, 0, p2, n1, written, ws);
                        assert(q.skip(0) =~= q);
                        let f = choose|f: nat| #[trigger] list_content(l, q, f) == Some(p.out);
                        lemma_repeat_list(l, target, count as nat, f);
                        lemma_repeat_node(l, target, count, p.out);
                        if count != 0 {
                            assert(has_content(l, target, content(l, target, f)->Some_0));
                        }
                    },
                    NodeView::Slice { target, offset, length } => {
                        let w2 = ws.push(Window { offset, length, pos: 0 });
                        lemma_run_node_content(st, lim, target, p2, n1, written, w2);
                        lemma_slice_node(l, target, offset, length, p.out);
                        let p1 = run_node(st, lim, target, p2, n1, written, w2)->Ok_0;
                        assert(has_content(l, target, p1.out));
                    },
                    _ => {},
                }
                lemma_content_node(l, a, n, p.out);
            }
        }
    }
}

/// Whatever a resolution of the list `c[i..]` produces is what that list stands for
pub proof fn lemma_run_list_content(
    st: Map<AddressView, NodeView>,
    lim: Limits,
    c: Seq<AddressView>,
    i: int,
    path: Seq<AddressView>,
    nodes: nat,
    written: u64,
    ws: Seq<Window>,
)
    requires
        0 <= i <= c.len(),
    ensures
        run_list(st, lim, c, i, path, nodes, written, ws) matches Ok(p) ==> has_list_content(lookups(st), c.skip(i), p.out),
    decreases lim.max_depth - path.len(), 1int, c.len() - i,
{
    let l = lookups(st);
    if i >= c.len() {
        assert(c.skip(i) =~= Seq::<AddressView>::empty());
        lemma_has_list_empty(l, Seq::empty());
    } else {
        lemma_run_node_content(st, lim, c[i], path, nodes, written, ws);
        if let Ok(p1) = run_node(st, lim, c[i], path, nodes, written, ws) {
            let ws2 = advance(ws, p1.out);
            lemma_run_list_content(st, lim, c, i + 1, path, p1.nodes, p1.written, ws2);
            if let Ok(p2) = run_list(st, lim, c, i + 1, path, p1.nodes, p1.written, ws2) {
                lemma_has_list_single(l, c[i], p1.out);
                lemma_has_list_join(l, seq![c[i]], c.skip(i + 1), p1.out, p2.out);
                assert(c.skip(i) =~= seq![c[i]] + c.skip(i + 1));
            }
        }
    }
}

/// Optimisation keeps what resolution gives. Under the conditions of
/// `lemma_optimize_keeps_content`, when the root resolved over the store
/// before and the optimised root resolves over the store after (under any
/// limits), both give the same bytes
pub proof fn lemma_optimize_keeps_resolution(
    st: Map<AddressView, NodeView>,
    root: AddressView,
    fuel: nat,
    lim1: Limits,
    lim2: Limits,
)
    requires
        opt_clean(OptState { st, memo: Map::empty(), log: Seq::empty() }, root, fuel),
        opt_node(OptState { st, memo: Map::empty(), log: Seq::empty() }, root, fuel) is Ran,
    ensures
        match opt_node(OptState { st, memo: Map::empty(), log: Seq::empty() }, root, fuel) {
            OptRun::Ran(Ok(r), s2) => match (resolve_outcome(st, lim1, root), resolve_outcome(s2.st, lim2, r)) {
                (Ok(p), Ok(q)) => q.out == p.out,
                _ => true,
            },
            _ => true,
        },
{
    reveal(resolve_outcome);
    if let OptRun::Ran(Ok(r), s2) = opt_node(OptState { st, memo: Map::empty(), log: Seq::empty() }, root, fuel) {
        if let (Ok(p), Ok(q)) = (resolve_outcome(st, lim1, root), resolve_outcome(s2.st, lim2, r)) {
            lemma_run_node_content(st, lim1, root, Seq::empty(), 0, 0, Seq::empty());
            lemma_optimize_keeps_content(st, root, fuel, p.out);
            lemma_run_node_content(s2.st, lim2, r, Seq::empty(), 0, 0, Seq::empty());
            lemma_has_content_unique(lookups(s2.st), r, p.out, q.out);
        }
    }
}


/// The number of bytes an inspection walk finds below `a` is the length of
/// what `a` stands for
pub proof fn lemma_walk_size(st: Map<AddressView, NodeView>, a: AddressView, depth: int, t: crate::inspector::Tally, h: nat)
    ensures
        tally_node(st, a, depth, t, h) matches Walk::Done(n, _) ==> exists|b: Seq<u8>|
            #[trigger] has_content(lookups(st), a, b) && b.len() == n,
    decreases h, 0int, 0int,
{
    let l = lookups(st);
    if h > 0 && t.nodes + 1 <= usize::MAX {
        let t1 = crate::inspector::visit(t, a, depth);
        if let Some(nd) = lookup(st, a) {
            assert(l(a) == Some(nd));
            if let Walk::Done(n, _) = tally_node(st, a, depth, t, h) {
                match nd {
                    NodeView::Data(d) => {
                        lemma_node_cases(l, nd, d);
                        lemma_content_node(l, a, nd, d);
                    },
                    NodeView::Page(d) => {
                        lemma_node_cases(l, nd, d);
                        lemma_content_node(l, a, nd, d);
                    },
                    NodeView::Reference(target) => {
                        lemma_walk_size(st, target, depth + 1, t1, (h - 1) as nat);
                        let b = choose|b: Seq<u8>| #[trigger] has_content(l, target, b) && b.len() == n;
                        lemma_node_cases(l, nd, b);
                        lemma_content_node(l, a, nd, b);
                    },
                    NodeView::Sequence(c) => {
                        lemma_walk_list_size(st, c, 0, depth + 1, t1, 0, (h - 1) as nat);
                        assert(c.skip(0) =~= c);
                        let b = choose|b: Seq<u8>| #[trigger] has_list_content(l, c.skip(0), b) && b.len() + 0 == n;
                        lemma_node_cases(l, nd, b);
                        lemma_content_node(l, a, nd, b);
                    },
                    NodeView::Repeat { target, count } => {
                        lemma_walk_size(st, target, depth + 1, t1, (h - 1) as nat);
                        let single = tally_node(st, target, depth + 1, t1, (h - 1) as nat)->Done_0;
                        let x = choose|x: Seq<u8>| #[trigger] has_content(l, target, x) && x.len() == single;
                        lemma_repeat_node(l, target, count, repeat_bytes(x, count as nat));
                        lemma_repeat_bytes_back(x, count as nat);
                        if count == 0 {
                            lemma_repeat_node(l, target, count, Seq::empty());
                            lemma_content_node(l, a, nd, Seq::empty());
                            assert(n == 0);
                        } else {
                            lemma_content_node(l, a, nd, repeat_bytes(x, count as nat));
                            assert(repeat_bytes(x, count as nat).len() == n) by (nonlinear_arith)
                                requires
                                    repeat_bytes(x, count as nat).len() == count * x.len(),
                                    x.len() == single,
                                    n == single * count;
                        }
                    },
                    NodeView::Slice { target, offset, length } => {
                        lemma_walk_size(st, target, depth + 1, t1, (h - 1) as nat);
                        let m = tally_node(st, target, depth + 1, t1, (h - 1) as nat)->Done_0;
                        let x = choose|x: Seq<u8>| #[trigger] has_content(l, target, x) && x.len() == m;
                        lemma_slice_node(l, target, offset, length, slice_window(x, offset, length));
                        lemma_content_node(l, a, nd, slice_window(x, offset, length));
                        assert(slice_window(x, offset, length).len() == window_len(m, offset, length));
                    },
                }
            }
        }
    }
}

/// The walk of the list `c[i..]` adds the length of what the list stands for to `sum`
pub proof fn lemma_walk_list_size(
    st: Map<AddressView, NodeView>,
    c: Seq<AddressView>,
    i: int,
    depth: int,
    t: crate::inspector::Tally,
    sum: int,
    h: nat,
)
    requires
        0 <= i <= c.len(),
    ensures
        tally_list(st, c, i, depth, t, sum, h) matches Walk::Done(n, _) ==> exists|b: Seq<u8>|
            #[trigger] has_list_content(lookups(st), c.skip(i), b) && b.len() + sum == n,
    decreases h, 1int, c.len() - i,
{
    let l = lookups(st);
    if i >= c.len() {
        assert(c.skip(i) =~= Seq::<AddressView>::empty());
        lemma_has_list_empty(l, Seq::empty());
    } else {
        lemma_walk_size(st, c[i], depth, t, h);
        if let Walk::Done(r, t2) = tally_node(st, c[i], depth, t, h) {
            lemma_walk_list_size(st, c, i + 1, depth, t2, sum + r, h);
            if let Walk::Done(n, _) = tally_list(st, c, i, depth, t, sum, h) {
                let x = choose|x: Seq<u8>| #[trigger] has_content(l, c[i], x) && x.len() == r;
                let y = choose|y: Seq<u8>| #[trigger] has_list_content(l, c.skip(i + 1), y) && y.len() + sum + r == n;
                lemma_has_list_single(l, c[i], x);
                lemma_has_list_join(l, seq![c[i]], c.skip(i + 1), x, y);
                assert(c.skip(i) =~= seq![c[i]] + c.skip(i + 1));
                assert(has_list_content(l, c.skip(i), x + y));
            }
        }
    }
}

/// The size an inspection reports is the length of what resolution gives:
/// when the walk below `a` completes and `a` resolves (under any limits),
/// the walk's byte count is the number of resolved bytes
pub proof fn lemma_inspected_size_is_resolved_size(st: Map<AddressView, NodeView>, a: AddressView, lim: Limits)
    ensures
        match (full_walk(st, a), resolve_outcome(st, lim, a)) {
            (Walk::Done(n, _), Ok(p)) => p.out.len() == n,
            _ => true,
        },
{
    reveal(resolve_outcome);
    let h = usize::MAX as nat;
    if let (Walk::Done(n, _), Ok(p)) = (full_walk(st, a), resolve_outcome(st, lim, a)) {
        lemma_walk_size(st, a, 1, crate::inspector::empty_tally(), h);
        let b = choose|b: Seq<u8>| #[trigger] has_content(lookups(st), a, b) && b.len() == n;
        lemma_run_node_content(st, lim, a, Seq::empty(), 0, 0, Seq::empty());
        lemma_has_content_unique(lookups(st), a, b, p.out);
    }
}

} // verus!
