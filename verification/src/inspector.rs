//! DAG inspection: structural statistics of the graph below an address, and
//! an ASCII rendering of its hierarchy

use vstd::prelude::*;
use crate::address::{Address, AddressView, node_type_name, spec_uri};
use crate::error::CoreError;
use crate::node::{Node, NodeView, node_verdict, node_result_is, spec_children, addr_views};
use crate::resolver::{lookup, on_path, push_str};
use crate::store::AddressStore;
use crate::text::{decimal, push_chars, push_decimal};

verus! {

broadcast use vstd::std_specs::vec::group_vec_axioms;

/// Comprehensive topological inspection summary
#[derive(Debug, Clone, PartialEq, Eq)]
pub struct InspectionReport {
    pub address: String,
    pub node_type: String,
    pub total_bytes: u64,
    pub page_count: usize,
    pub max_depth: usize,
    pub total_nodes: usize,
    pub unique_nodes: usize,
    pub tree_ascii: String,
}

/// What a walk has counted so far: pages, the deepest level, nodes visited
/// (with repetition) and the distinct addresses seen
pub struct Tally {
    pub pages: int,
    pub deepest: int,
    pub nodes: int,
    pub seen: Set<AddressView>,
}

/// How a walk ends: the number of bytes the node stands for and the tally;
/// a node that can be neither found nor decoded; a count beyond its integer
/// type; or a graph deeper than the walk was allowed to go (it holds a cycle)
pub enum Walk {
    Done(int, Tally),
    Failed(AddressView),
    Overflow,
    Exhausted,
}

/// The tally after visiting `a` at `depth`
pub open spec fn visit(t: Tally, a: AddressView, depth: int) -> Tally {
    Tally {
        pages: t.pages,
        deepest: if depth > t.deepest { depth } else { t.deepest },
        nodes: t.nodes + 1,
        seen: t.seen.insert(a),
    }
}

/// The length of the window `[offset, offset + length)` of `n` bytes, cut at their end
pub open spec fn window_len(n: int, offset: u64, length: u64) -> int {
    let lo = if offset < n { offset as int } else { n };
    let hi = if offset + length < n { offset + length } else { n };
    hi - lo
}

/// Walking the graph below `a` at `depth`, at most `h` levels deep: count
/// the node, then the number of bytes it stands for (a repeat `count` times
/// its target's, a slice the part of its target's that its window covers)
pub open spec fn tally_node(st: Map<AddressView, NodeView>, a: AddressView, depth: int, t: Tally, h: nat) -> Walk
    decreases h, 0int, 0int,
{
    if h == 0 {
        Walk::Exhausted
    } else if t.nodes + 1 > usize::MAX {
        Walk::Overflow
    } else {
        let t1 = visit(t, a, depth);
        match lookup(st, a) {
            None => Walk::Failed(a),
            Some(NodeView::Data(d)) => if d.len() > u64::MAX {
                Walk::Overflow
            } else {
                Walk::Done(d.len() as int, t1)
            },
            Some(NodeView::Page(d)) => if d.len() > u64::MAX || t1.pages + 1 > usize::MAX {
                Walk::Overflow
            } else {
                Walk::Done(
                    d.len() as int,
                    Tally { pages: t1.pages + 1, deepest: t1.deepest, nodes: t1.nodes, seen: t1.seen },
                )
            },
            Some(NodeView::Reference(target)) => if depth + 1 > usize::MAX {
                Walk::Overflow
            } else {
                tally_node(st, target, depth + 1, t1, (h - 1) as nat)
            },
            Some(NodeView::Sequence(c)) => if depth + 1 > usize::MAX {
                Walk::Overflow
            } else {
                tally_list(st, c, 0, depth + 1, t1, 0, (h - 1) as nat)
            },
            Some(NodeView::Repeat { target, count }) => if depth + 1 > usize::MAX {
                Walk::Overflow
            } else {
                match tally_node(st, target, depth + 1, t1, (h - 1) as nat) {
                    Walk::Done(single, t2) => if single * count > u64::MAX {
                        Walk::Overflow
                    } else {
                        Walk::Done(single * count, t2)
                    },
                    other => other,
                }
            },
            Some(NodeView::Slice { target, offset, length }) => if depth + 1 > usize::MAX {
                Walk::Overflow
            } else {
                match tally_node(st, target, depth + 1, t1, (h - 1) as nat) {
                    Walk::Done(n, t2) => Walk::Done(window_len(n, offset, length), t2),
                    other => other,
                }
            },
        }
    }
}

/// Walking the children `c[i..]` in order, adding up their bytes onto `sum`
pub open spec fn tally_list(
    st: Map<AddressView, NodeView>,
    c: Seq<AddressView>,
    i: int,
    depth: int,
    t: Tally,
    sum: int,
    h: nat,
) -> Walk
    decreases h, 1int, c.len() - i,
{
    if i < 0 || i >= c.len() {
        Walk::Done(sum, t)
    } else {
        match tally_node(st, c[i], depth, t, h) {
            Walk::Done(r, t2) => if sum + r > u64::MAX {
                Walk::Overflow
            } else {
                tally_list(st, c, i + 1, depth, t2, sum + r, h)
            },
            other => other,
        }
    }
}

/// The Page nodes met below `a` within `h` levels, with repetition: one for
/// each Page node reached (through references, repeats, slices and
/// sequences), none for any other node
pub open spec fn page_visits(st: Map<AddressView, NodeView>, a: AddressView, h: nat) -> int
    decreases h, 0int, 0int,
{
    if h == 0 {
        0
    } else {
        match lookup(st, a) {
            Some(NodeView::Page(_)) => 1,
            Some(NodeView::Reference(t)) => page_visits(st, t, (h - 1) as nat),
            Some(NodeView::Repeat { target, .. }) => page_visits(st, target, (h - 1) as nat),
            Some(NodeView::Slice { target, .. }) => page_visits(st, target, (h - 1) as nat),
            Some(NodeView::Sequence(c)) => list_page_visits(st, c, 0, (h - 1) as nat),
            _ => 0,
        }
    }
}

/// The Page nodes met below `c[i..]`, one child after another
pub open spec fn list_page_visits(st: Map<AddressView, NodeView>, c: Seq<AddressView>, i: int, h: nat) -> int
    decreases h, 1int, c.len() - i,
{
    if i < 0 || i >= c.len() {
        0
    } else {
        page_visits(st, c[i], h) + list_page_visits(st, c, i + 1, h)
    }
}

/// The nodes met below `a` within `h` levels, with repetition: `a` itself
/// and those met below each of its children
pub open spec fn node_visits(st: Map<AddressView, NodeView>, a: AddressView, h: nat) -> int
    decreases h, 0int, 0int,
{
    if h == 0 {
        0
    } else {
        1 + match lookup(st, a) {
            Some(NodeView::Reference(t)) => node_visits(st, t, (h - 1) as nat),
            Some(NodeView::Repeat { target, .. }) => node_visits(st, target, (h - 1) as nat),
            Some(NodeView::Slice { target, .. }) => node_visits(st, target, (h - 1) as nat),
            Some(NodeView::Sequence(c)) => list_node_visits(st, c, 0, (h - 1) as nat),
            _ => 0,
        }
    }
}

/// The nodes met below `c[i..]`, with repetition
pub open spec fn list_node_visits(st: Map<AddressView, NodeView>, c: Seq<AddressView>, i: int, h: nat) -> int
    decreases h, 1int, c.len() - i,
{
    if i < 0 || i >= c.len() {
        0
    } else {
        node_visits(st, c[i], h) + list_node_visits(st, c, i + 1, h)
    }
}

/// The addresses met below `a` within `h` levels: `a` and those met below
/// each of its children
pub open spec fn reached(st: Map<AddressView, NodeView>, a: AddressView, h: nat) -> Set<AddressView>
    decreases h, 0int, 0int,
{
    if h == 0 {
        Set::empty()
    } else {
        set![a] + match lookup(st, a) {
            Some(NodeView::Reference(t)) => reached(st, t, (h - 1) as nat),
            Some(NodeView::Repeat { target, .. }) => reached(st, target, (h - 1) as nat),
            Some(NodeView::Slice { target, .. }) => reached(st, target, (h - 1) as nat),
            Some(NodeView::Sequence(c)) => list_reached(st, c, 0, (h - 1) as nat),
            _ => Set::empty(),
        }
    }
}

/// The addresses met below `c[i..]`
pub open spec fn list_reached(st: Map<AddressView, NodeView>, c: Seq<AddressView>, i: int, h: nat) -> Set<AddressView>
    decreases h, 1int, c.len() - i,
{
    if i < 0 || i >= c.len() {
        Set::empty()
    } else {
        reached(st, c[i], h) + list_reached(st, c, i + 1, h)
    }
}

/// The deepest level met below `a`, which stands at level `depth`: its own,
/// or the deepest met below a child, one level further down
pub open spec fn deepest_level(st: Map<AddressView, NodeView>, a: AddressView, depth: int, h: nat) -> int
    decreases h, 0int, 0int,
{
    if h == 0 {
        depth
    } else {
        let below = match lookup(st, a) {
            Some(NodeView::Reference(t)) => deepest_level(st, t, depth + 1, (h - 1) as nat),
            Some(NodeView::Repeat { target, .. }) => deepest_level(st, target, depth + 1, (h - 1) as nat),
            Some(NodeView::Slice { target, .. }) => deepest_level(st, target, depth + 1, (h - 1) as nat),
            Some(NodeView::Sequence(c)) => list_deepest_level(st, c, 0, depth + 1, (h - 1) as nat),
            _ => depth,
        };
        if below > depth {
            below
        } else {
            depth
        }
    }
}

/// The deepest level met below `c[i..]`, children at level `depth` (at least
/// one level above it where there are none)
pub open spec fn list_deepest_level(st: Map<AddressView, NodeView>, c: Seq<AddressView>, i: int, depth: int, h: nat) -> int
    decreases h, 1int, c.len() - i,
{
    if i < 0 || i >= c.len() {
        depth - 1
    } else {
        let x = deepest_level(st, c[i], depth, h);
        let y = list_deepest_level(st, c, i + 1, depth, h);
        if x > y {
            x
        } else {
            y
        }
    }
}

/// The larger of two levels
pub open spec fn max_level(x: int, y: int) -> int {
    if x > y {
        x
    } else {
        y
    }
}

/// A walk that ends in a result has counted every node it met (with
/// repetition), recorded every address it met, and the deepest level it met
pub proof fn lemma_walk_counts_nodes(st: Map<AddressView, NodeView>, a: AddressView, depth: int, t: Tally, h: nat)
    ensures
        tally_node(st, a, depth, t, h) matches Walk::Done(_, t2) ==> {
            &&& t2.nodes == t.nodes + node_visits(st, a, h)
            &&& t2.seen == t.seen + reached(st, a, h)
            &&& t2.deepest == max_level(t.deepest, deepest_level(st, a, depth, h))
        },
    decreases h, 0int, 0int,
{
    if h > 0 && t.nodes + 1 <= usize::MAX {
        let t1 = visit(t, a, depth);
        match lookup(st, a) {
            Some(NodeView::Reference(target)) => lemma_walk_counts_nodes(st, target, depth + 1, t1, (h - 1) as nat),
            Some(NodeView::Repeat { target, .. }) => lemma_walk_counts_nodes(st, target, depth + 1, t1, (h - 1) as nat),
            Some(NodeView::Slice { target, .. }) => lemma_walk_counts_nodes(st, target, depth + 1, t1, (h - 1) as nat),
            Some(NodeView::Sequence(c)) => lemma_list_counts_nodes(st, c, 0, depth + 1, t1, 0, (h - 1) as nat),
            _ => {},
        }
        if let Walk::Done(_, t2) = tally_node(st, a, depth, t, h) {
            assert(t2.seen =~= t.seen + reached(st, a, h));
        }
    }
}

/// A walk of `c[i..]` that ends in a result has counted every node it met,
/// recorded every address it met, and the deepest level it met
pub proof fn lemma_list_counts_nodes(
    st: Map<AddressView, NodeView>,
    c: Seq<AddressView>,
    i: int,
    depth: int,
    t: Tally,
    sum: int,
    h: nat,
)
    requires
        t.deepest >= depth - 1,
    ensures
        tally_list(st, c, i, depth, t, sum, h) matches Walk::Done(_, t2) ==> {
            &&& t2.nodes == t.nodes + list_node_visits(st, c, i, h)
            &&& t2.seen == t.seen + list_reached(st, c, i, h)
            &&& t2.deepest == max_level(t.deepest, list_deepest_level(st, c, i, depth, h))
        },
    decreases h, 1int, c.len() - i,
{
    if 0 <= i < c.len() {
        lemma_walk_counts_nodes(st, c[i], depth, t, h);
        if let Walk::Done(r, t2) = tally_node(st, c[i], depth, t, h) {
            if sum + r <= u64::MAX {
                lemma_list_counts_nodes(st, c, i + 1, depth, t2, sum + r, h);
                if let Walk::Done(_, t3) = tally_list(st, c, i + 1, depth, t2, sum + r, h) {
                    assert(t3.seen =~= t.seen + list_reached(st, c, i, h));
                }
            }
        }
    } else {
        if let Walk::Done(_, t2) = tally_list(st, c, i, depth, t, sum, h) {
            assert(t2.seen =~= t.seen + list_reached(st, c, i, h));
        }
    }
}

/// A walk that ends in a result has counted exactly the Page nodes it met:
/// a data node, a reference, a repeat, a slice or a sequence counts none of
/// its own
pub proof fn lemma_walk_counts_pages(st: Map<AddressView, NodeView>, a: AddressView, depth: int, t: Tally, h: nat)
    ensures
        tally_node(st, a, depth, t, h) matches Walk::Done(_, t2) ==> t2.pages == t.pages + page_visits(st, a, h),
    decreases h, 0int, 0int,
{
    if h > 0 && t.nodes + 1 <= usize::MAX {
        let t1 = visit(t, a, depth);
        match lookup(st, a) {
            Some(NodeView::Reference(target)) => lemma_walk_counts_pages(st, target, depth + 1, t1, (h - 1) as nat),
            Some(NodeView::Repeat { target, .. }) => lemma_walk_counts_pages(st, target, depth + 1, t1, (h - 1) as nat),
            Some(NodeView::Slice { target, .. }) => lemma_walk_counts_pages(st, target, depth + 1, t1, (h - 1) as nat),
            Some(NodeView::Sequence(c)) => lemma_list_counts_pages(st, c, 0, depth + 1, t1, 0, (h - 1) as nat),
            _ => {},
        }
    }
}

/// A walk of `c[i..]` that ends in a result has counted exactly the Page
/// nodes it met
pub proof fn lemma_list_counts_pages(
    st: Map<AddressView, NodeView>,
    c: Seq<AddressView>,
    i: int,
    depth: int,
    t: Tally,
    sum: int,
    h: nat,
)
    ensures
        tally_list(st, c, i, depth, t, sum, h) matches Walk::Done(_, t2) ==> t2.pages == t.pages + list_page_visits(st, c, i, h),
    decreases h, 1int, c.len() - i,
{
    if 0 <= i < c.len() {
        lemma_walk_counts_pages(st, c[i], depth, t, h);
        if let Walk::Done(r, t2) = tally_node(st, c[i], depth, t, h) {
            if sum + r <= u64::MAX {
                lemma_list_counts_pages(st, c, i + 1, depth, t2, sum + r, h);
            }
        }
    }
}

/// The walk ends in a result or in a node that cannot be found
pub open spec fn settles(w: Walk) -> bool {
    w is Done || w is Failed
}

/// Nothing counted yet
pub open spec fn empty_tally() -> Tally {
    Tally { pages: 0, deepest: 0, nodes: 0, seen: Set::empty() }
}

/// The walk of the whole graph below `a`, at most `usize::MAX` levels deep
pub open spec fn full_walk(st: Map<AddressView, NodeView>, a: AddressView) -> Walk {
    tally_node(st, a, 1, empty_tally(), usize::MAX as nat)
}

/// The running counters of a walk
struct CollectorStats {
    page_count: usize,
    max_depth: usize,
    total_nodes: usize,
}

/// What the counters and the visited addresses hold
spec fn tally_of(s: CollectorStats, visited: Seq<Address>) -> Tally {
    Tally {
        pages: s.page_count as int,
        deepest: s.max_depth as int,
        nodes: s.total_nodes as int,
        seen: addr_views(visited).to_set(),
    }
}

/// What a walk step owes: the result and counters the model gives, nothing
/// where the model runs out of levels or of integer range, and an error
/// only where the model fails or the store does
spec fn walk_done(
    w: Walk,
    reliable: bool,
    r: Result<Option<u64>, CoreError>,
    s: CollectorStats,
    visited: Seq<Address>,
) -> bool {
    match w {
        Walk::Done(ret, t) => (r is Ok ==> r == Ok::<Option<u64>, CoreError>(Some(ret as u64)) && 0 <= ret <= u64::MAX
            && tally_of(s, visited) == t && addr_views(visited).no_duplicates()) && (reliable ==> r is Ok),
        Walk::Failed(b) => r is Err && (reliable ==> (r matches Err(CoreError::Node(e)) && node_result_is(
            Err::<Node, crate::error::NodeError>(e),
            node_verdict(b),
        ))),
        _ => (r is Ok ==> r == Ok::<Option<u64>, CoreError>(None)) && (reliable ==> r is Ok),
    }
}

/// The node of `addr`: the stored one, else the one its address describes
fn fetch<S: AddressStore>(addr: &Address, store: &S) -> (r: Result<Node, CoreError>)
    ensures
        r matches Ok(n) ==> lookup(store.contents(), addr@) == Some(n@),
        r is Err ==> (store.reliable() ==> lookup(store.contents(), addr@) is None && (r matches Err(
            CoreError::Node(e),
        ) && node_result_is(Err::<Node, crate::error::NodeError>(e), node_verdict(addr@)))),
        store.reliable() && lookup(store.contents(), addr@) is Some ==> r is Ok,
{
    match store.get(addr) {
        Ok(Some(n)) => Ok(n),
        Ok(None) => match Node::from_address(addr) {
            Ok(n) => Ok(n),
            Err(e) => Err(CoreError::Node(e)),
        },
        Err(e) => Err(e),
    }
}

/// Walk the graph below `addr`, at most `budget` levels deep, counting into
/// `stats` and `visited`; gives the node's bytes, or nothing where the walk
/// goes deeper than `budget` or past the range of the counters
fn collect_stats<S: AddressStore>(
    addr: &Address,
    store: &S,
    current_depth: usize,
    visited: &mut Vec<Address>,
    stats: &mut CollectorStats,
    budget: usize,
) -> (r: Result<Option<u64>, CoreError>)
    requires
        addr_views(old(visited)@).no_duplicates(),
    ensures
        walk_done(
            tally_node(store.contents(), addr@, current_depth as int, tally_of(*old(stats), old(visited)@), budget as nat),
            store.reliable(),
            r,
            *final(stats),
            final(visited)@,
        ),
    decreases budget,
{
    let ghost h = budget as nat;
    if budget == 0 || stats.total_nodes == usize::MAX {
        return Ok(None);
    }
    let ghost st = store.contents();
    let ghost t0 = tally_of(*stats, visited@);
    let ghost vs0 = addr_views(visited@);
    if !on_path(visited, addr) {
        visited.push(addr.clone());
    }
    proof {
        assert(addr_views(visited@) =~= if vs0.contains(addr@) { vs0 } else { vs0.push(addr@) });
        assert(addr_views(visited@).to_set() =~= vs0.to_set().insert(addr@)) by {
            if !vs0.contains(addr@) {
                vs0.lemma_push_to_set_commute(addr@);
            } else {
                assert(vs0.to_set().contains(addr@));
            }
        }
        if !vs0.contains(addr@) {
            assert(vs0.push(addr@).no_duplicates()) by {
                assert forall|i: int, j: int| 0 <= i < j < vs0.push(addr@).len() implies vs0.push(addr@)[i]
                    != vs0.push(addr@)[j] by {
                    if j == vs0.len() {
                        assert(vs0[i] != addr@);
                    }
                }
            }
        }
    }
    stats.total_nodes = stats.total_nodes + 1;
    if current_depth > stats.max_depth {
        stats.max_depth = current_depth;
    }
    let ghost t1 = visit(t0, addr@, current_depth as int);
    assert(tally_of(*stats, visited@) == t1);
    let node = fetch(addr, store)?;
    let ghost w = tally_node(st, addr@, current_depth as int, t0, h);
    assert(lookup(st, addr@) == Some(node@));
    let next: usize = budget - 1;
    match node {
        Node::Data(bytes) => {
            let len = bytes.len() as u64;
            Ok(Some(len))
        },
        Node::Page(page) => {
            if stats.page_count == usize::MAX {
                return Ok(None);
            }
            let len = page.logical_len() as u64;
            stats.page_count = stats.page_count + 1;
            Ok(Some(len))
        },
        Node::Reference(target) => {
            if current_depth == usize::MAX {
                return Ok(None);
            }
            collect_stats(&target, store, current_depth + 1, visited, stats, next)
        },
        Node::Sequence(children) => {
            if current_depth == usize::MAX {
                return Ok(None);
            }
            let ghost c = addr_views(children@);
            let ghost goal = tally_list(st, c, 0, current_depth + 1, t1, 0, (h - 1) as nat);
            assert(w == goal);
            let mut sum: u64 = 0;
            let mut i: usize = 0;
            while i < children.len()
                invariant
                    i <= children@.len(),
                    c == addr_views(children@),
                    st == store.contents(),
                    h >= 1,
                    next as nat == h - 1,
                    next < budget,
                    h == budget as nat,
                    current_depth + 1 <= usize::MAX,
                    addr_views(visited@).no_duplicates(),
                    w == goal,
                    w == tally_node(st, addr@, current_depth as int, t0, h),
                    t0 == tally_of(*old(stats), old(visited)@),
                    goal == tally_list(st, c, i as int, current_depth + 1, tally_of(*stats, visited@), sum as int, (h - 1) as nat),
                decreases children@.len() - i,
            {
                let ghost ti = tally_of(*stats, visited@);
                let ghost wi = tally_node(st, c[i as int], current_depth + 1, ti, (h - 1) as nat);
                let b = collect_stats(&children[i], store, current_depth + 1, visited, stats, next);
                match b {
                    Ok(Some(v)) => {
                        assert(wi is Done);
                        match sum.checked_add(v) {
                            Some(s2) => {
                                sum = s2;
                            },
                            None => {
                                assert(wi matches Walk::Done(x, _) && x == v as int);
                                assert(goal is Overflow);
                                return Ok(None);
                            },
                        }
                    },
                    Ok(None) => {
                        assert(!(wi is Done) && !(wi is Failed));
                        assert(goal == wi);
                        return Ok(None);
                    },
                    Err(e) => {
                        return Err(e);
                    },
                }
                i = i + 1;
            }
            Ok(Some(sum))
        },
        Node::Repeat { target, count } => {
            if current_depth == usize::MAX {
                return Ok(None);
            }
            let ghost inner = tally_node(st, target@, current_depth + 1, t1, (h - 1) as nat);
            let single = match collect_stats(&target, store, current_depth + 1, visited, stats, next)? {
                Some(v) => v,
                None => {
                    return Ok(None);
                },
            };
            assert(inner is Done);
            match single.checked_mul(count) {
                Some(total) => Ok(Some(total)),
                None => Ok(None),
            }
        },
        Node::Slice { target, offset, length } => {
            if current_depth == usize::MAX {
                return Ok(None);
            }
            let ghost inner = tally_node(st, target@, current_depth + 1, t1, (h - 1) as nat);
            let n = match collect_stats(&target, store, current_depth + 1, visited, stats, next)? {
                Some(v) => v,
                None => {
                    return Ok(None);
                },
            };
            assert(inner is Done);
            let lo: u64 = if offset < n {
                offset
            } else {
                n
            };
            let end: u128 = offset as u128 + length as u128;
            let hi: u64 = if end < n as u128 {
                end as u64
            } else {
                n
            };
            Ok(Some(hi - lo))
        },
    }
}


/// The lines joined by line breaks
pub open spec fn join_lines(ls: Seq<Seq<char>>) -> Seq<char>
    decreases ls.len(),
{
    if ls.len() == 0 {
        Seq::empty()
    } else if ls.len() == 1 {
        ls[0]
    } else {
        join_lines(ls.drop_last()) + seq!['\n'] + ls.last()
    }
}

/// The label of a node in the tree (of an address that yields no node, the
/// address itself)
pub open spec fn label_for(n: Option<NodeView>, a: AddressView) -> Seq<char> {
    match n {
        Some(NodeView::Data(b)) => "Data ("@ + decimal(b.len()) + " bytes)"@,
        Some(NodeView::Page(d)) => if d.len() == 4096 {
            "Page (4096 B)"@
        } else {
            "Partial Page ("@ + decimal(d.len()) + " B)"@
        },
        Some(NodeView::Reference(_)) => "Ref"@,
        Some(NodeView::Sequence(c)) => "Sequence ("@ + decimal(c.len()) + " children)"@,
        Some(NodeView::Repeat { count, .. }) => "Repeat (x"@ + decimal(count as nat) + ")"@,
        Some(NodeView::Slice { offset, length, .. }) => "Slice ["@ + decimal(offset as nat) + ".."@ + decimal(
            (offset + length) as nat,
        ) + "]"@,
        None => "Unresolved ["@ + spec_uri(a) + "]"@,
    }
}

/// Each tree label reads back as its node: the byte count of a data node
/// between `Data (` and ` bytes)`; a full page as `Page (4096 B)`, a shorter
/// one's length between `Partial Page (` and ` B)`; `Ref`; a sequence's
/// child count between `Sequence (` and ` children)`; a repeat's count
/// between `Repeat (x` and `)`; a slice's offset between `Slice [` and `..`
/// and the end of its window (offset plus length) between `..` and `]`
pub proof fn lemma_label_read_back(n: NodeView, a: AddressView) -> (f: (Seq<char>, Seq<char>))
    ensures
        n matches NodeView::Data(b) ==> label_for(Some(n), a) == seq!['D', 'a', 't', 'a', ' ', '('] + f.0
            + seq![' ', 'b', 'y', 't', 'e', 's', ')'] && crate::text::reads_decimal(f.0, b.len()),
        n matches NodeView::Page(d) ==> label_for(Some(n), a) == if d.len() == 4096 {
            seq!['P', 'a', 'g', 'e', ' ', '(', '4', '0', '9', '6', ' ', 'B', ')']
        } else {
            seq!['P', 'a', 'r', 't', 'i', 'a', 'l', ' ', 'P', 'a', 'g', 'e', ' ', '('] + f.0 + seq![' ', 'B', ')']
        } && (d.len() != 4096 ==> crate::text::reads_decimal(f.0, d.len())),
        n is Reference ==> label_for(Some(n), a) == seq!['R', 'e', 'f'],
        n matches NodeView::Sequence(c) ==> label_for(Some(n), a) == seq!['S', 'e', 'q', 'u', 'e', 'n', 'c', 'e', ' ', '(']
            + f.0 + seq![' ', 'c', 'h', 'i', 'l', 'd', 'r', 'e', 'n', ')'] && crate::text::reads_decimal(f.0, c.len()),
        n matches NodeView::Repeat { count, .. } ==> label_for(Some(n), a) == seq!['R', 'e', 'p', 'e', 'a', 't', ' ', '(', 'x']
            + f.0 + seq![')'] && crate::text::reads_decimal(f.0, count as nat),
        n matches NodeView::Slice { offset, length, .. } ==> label_for(Some(n), a) == seq!['S', 'l', 'i', 'c', 'e', ' ', '[']
            + f.0 + seq!['.', '.'] + f.1 + seq![']'] && crate::text::reads_decimal(f.0, offset as nat)
            && crate::text::reads_decimal(f.1, (offset + length) as nat),
{
    reveal_strlit("Data (");
    reveal_strlit(" bytes)");
    reveal_strlit("Page (4096 B)");
    reveal_strlit("Partial Page (");
    reveal_strlit(" B)");
    reveal_strlit("Ref");
    reveal_strlit("Sequence (");
    reveal_strlit(" children)");
    reveal_strlit("Repeat (x");
    reveal_strlit(")");
    reveal_strlit("Slice [");
    reveal_strlit("..");
    reveal_strlit("]");
    match n {
        NodeView::Data(b) => {
            crate::text::lemma_decimal_reads_back(b.len());
            (decimal(b.len()), Seq::empty())
        },
        NodeView::Page(d) => {
            crate::text::lemma_decimal_reads_back(d.len());
            (decimal(d.len()), Seq::empty())
        },
        NodeView::Sequence(c) => {
            crate::text::lemma_decimal_reads_back(c.len());
            (decimal(c.len()), Seq::empty())
        },
        NodeView::Repeat { count, .. } => {
            crate::text::lemma_decimal_reads_back(count as nat);
            (decimal(count as nat), Seq::empty())
        },
        NodeView::Slice { offset, length, .. } => {
            crate::text::lemma_decimal_reads_back(offset as nat);
            crate::text::lemma_decimal_reads_back((offset + length) as nat);
            (decimal(offset as nat), decimal((offset + length) as nat))
        },
        _ => (Seq::empty(), Seq::empty()),
    }
}

/// The branch drawn before a child's label
pub open spec fn branch(is_last: bool) -> Seq<char> {
    if is_last {
        "└── "@
    } else {
        "├── "@
    }
}

/// The prefix of the lines below a node
pub open spec fn child_prefix(prefix: Seq<char>, is_last: bool, depth: nat) -> Seq<char> {
    if depth == 0 {
        Seq::empty()
    } else if is_last {
        prefix + "    "@
    } else {
        prefix + "│   "@
    }
}

/// The lines of the tree below `a`, down to depth `maxd`
pub open spec fn render(
    st: Map<AddressView, NodeView>,
    a: AddressView,
    prefix: Seq<char>,
    is_last: bool,
    depth: nat,
    maxd: nat,
) -> Seq<Seq<char>>
    decreases maxd - depth, 0int, 0int,
{
    let label = label_for(lookup(st, a), a);
    let line = if depth == 0 {
        label + " ("@ + spec_uri(a) + ")"@
    } else {
        prefix + branch(is_last) + label
    };
    if depth >= maxd {
        seq![line]
    } else {
        match lookup(st, a) {
            None => seq![line],
            Some(n) => seq![line] + render_list(
                st,
                spec_children(n),
                0,
                child_prefix(prefix, is_last, depth),
                depth + 1,
                maxd,
            ),
        }
    }
}

/// The lines of the trees below `cs[i..]`
pub open spec fn render_list(
    st: Map<AddressView, NodeView>,
    cs: Seq<AddressView>,
    i: int,
    prefix: Seq<char>,
    depth: nat,
    maxd: nat,
) -> Seq<Seq<char>>
    decreases maxd - depth, 1int, cs.len() - i,
{
    if i < 0 || i >= cs.len() {
        Seq::empty()
    } else {
        render(st, cs[i], prefix, i + 1 == cs.len(), depth, maxd) + render_list(st, cs, i + 1, prefix, depth, maxd)
    }
}

/// The text of each string
pub open spec fn texts(v: Seq<String>) -> Seq<Seq<char>> {
    v.map_values(|s: String| s@)
}

/// The model of an optional node
pub open spec fn opt_view(o: Option<Node>) -> Option<NodeView> {
    match o {
        Some(n) => Some(n@),
        None => None,
    }
}

/// The label of a node, or of an address that yields none
fn label_text(node: &Option<Node>, addr: &Address) -> (r: String)
    ensures
        r@ == label_for(opt_view(*node), addr@),
{
    let mut s = String::new();
    match node {
        Some(Node::Data(b)) => {
            push_str(&mut s, "Data (");
            push_decimal(&mut s, b.len() as u64);
            push_str(&mut s, " bytes)");
        },
        Some(Node::Page(p)) => {
            if p.is_full() {
                push_str(&mut s, "Page (4096 B)");
            } else {
                push_str(&mut s, "Partial Page (");
                push_decimal(&mut s, p.logical_len() as u64);
                push_str(&mut s, " B)");
            }
        },
        Some(Node::Reference(_)) => {
            push_str(&mut s, "Ref");
        },
        Some(Node::Sequence(c)) => {
            push_str(&mut s, "Sequence (");
            push_decimal(&mut s, c.len() as u64);
            push_str(&mut s, " children)");
        },
        Some(Node::Repeat { count, .. }) => {
            push_str(&mut s, "Repeat (x");
            push_decimal(&mut s, *count);
            push_str(&mut s, ")");
        },
        Some(Node::Slice { offset, length, .. }) => {
            push_str(&mut s, "Slice [");
            push_decimal(&mut s, *offset);
            push_str(&mut s, "..");
            crate::text::push_decimal_wide(&mut s, *offset as u128 + *length as u128);
            push_str(&mut s, "]");
        },
        None => {
            push_str(&mut s, "Unresolved [");
            let uri = addr.to_uri();
            push_str(&mut s, uri.as_str());
            push_str(&mut s, "]");
        },
    }
    assert(s@ =~= label_for(opt_view(*node), addr@));
    s
}

/// Render the tree below `addr` into `lines`
#[verifier::rlimit(40)]
fn render_tree_node<S: AddressStore>(
    addr: &Address,
    store: &S,
    prefix: &Vec<char>,
    is_last: bool,
    depth: usize,
    max_depth: usize,
    lines: &mut Vec<String>,
) -> (r: Result<(), CoreError>)
    ensures
        store.reliable() ==> r is Ok,
        r is Ok ==> texts(final(lines)@) == texts(old(lines)@) + render(
            store.contents(),
            addr@,
            prefix@,
            is_last,
            depth as nat,
            max_depth as nat,
        ),
    decreases max_depth - depth,
{
    let ghost st = store.contents();
    let ghost exact = store.reliable();
    let node_opt: Option<Node> = match store.get(addr) {
        Ok(Some(n)) => Some(n),
        Ok(None) => match Node::from_address(addr) {
            Ok(n) => Some(n),
            Err(_) => None,
        },
        Err(e) => {
            return Err(e);
        },
    };
    let ghost nv = opt_view(node_opt);
    assert(nv == lookup(st, addr@));
    let label = label_text(&node_opt, addr);
    let mut line = String::new();
    if depth == 0 {
        push_str(&mut line, label.as_str());
        push_str(&mut line, " (");
        let uri = addr.to_uri();
        push_str(&mut line, uri.as_str());
        push_str(&mut line, ")");
    } else {
        push_chars(&mut line, prefix.as_slice());
        if is_last {
            push_str(&mut line, "└── ");
        } else {
            push_str(&mut line, "├── ");
        }
        push_str(&mut line, label.as_str());
    }
    let ghost l0 = texts(lines@);
    let ghost the_line = line@;
    lines.push(line);
    assert(texts(lines@) =~= l0 + seq![the_line]);
    if depth >= max_depth {
        return Ok(());
    }
    match node_opt {
        None => Ok(()),
        Some(node) => {
            let children = node.child_addresses();
            let child_count = children.len();
            let mut next_prefix: Vec<char> = Vec::new();
            if depth == 0 {
            } else if is_last {
                next_prefix = prefix.clone();
                push_char_list(&mut next_prefix, &[' ', ' ', ' ', ' ']);
            } else {
                next_prefix = prefix.clone();
                push_char_list(&mut next_prefix, &['│', ' ', ' ', ' ']);
            }
            proof {
                reveal_strlit("    ");
                reveal_strlit("│   ");
                assert(next_prefix@ =~= child_prefix(prefix@, is_last, depth as nat));
            }
            let ghost cs = spec_children(node@);
            let ghost np = next_prefix@;
            let ghost base = l0 + seq![the_line];
            proof {
                {
                    assert(render(st, addr@, prefix@, is_last, depth as nat, max_depth as nat) == seq![the_line]
                        + render_list(st, cs, 0, np, depth as nat + 1, max_depth as nat));
                    assert(base + render_list(st, cs, 0, np, depth as nat + 1, max_depth as nat) =~= l0 + render(
                        st,
                        addr@,
                        prefix@,
                        is_last,
                        depth as nat,
                        max_depth as nat,
                    ));
                }
                assert(texts(lines@) + render_list(st, cs, 0, np, depth as nat + 1, max_depth as nat) == base + render_list(
                    st,
                    cs,
                    0,
                    np,
                    depth as nat + 1,
                    max_depth as nat,
                ));
            }
            let mut idx: usize = 0;
            while idx < child_count
                invariant
                    idx <= child_count,
                    child_count == children@.len(),
                    children@.len() == cs.len(),
                    forall|k: int| 0 <= k < children@.len() ==> (#[trigger] children@[k])@ == cs[k],
                    depth < max_depth,
                    np == next_prefix@,
                    st == store.contents(),
                    exact == store.reliable(),
                    texts(lines@) + render_list(st, cs, idx as int, np, depth as nat + 1, max_depth as nat)
                        == base + render_list(st, cs, 0, np, depth as nat + 1, max_depth as nat),
                decreases child_count - idx,
            {
                let ghost before = texts(lines@);
                render_tree_node(children[idx], store, &next_prefix, idx + 1 == child_count, depth + 1, max_depth, lines)?;
                proof {
                    {
                        let one = render(st, cs[idx as int], np, idx + 1 == cs.len(), depth as nat + 1, max_depth as nat);
                        let rest = render_list(st, cs, idx + 1, np, depth as nat + 1, max_depth as nat);
                        assert(render_list(st, cs, idx as int, np, depth as nat + 1, max_depth as nat) == one + rest);
                        assert(texts(lines@) == before + one);
                        assert(before + (one + rest) =~= (before + one) + rest);
                    }
                }
                idx = idx + 1;
            }
            proof {
                {
                    assert(render_list(st, cs, child_count as int, np, depth as nat + 1, max_depth as nat) =~= Seq::<
                        Seq<char>,
                    >::empty());
                    assert(texts(lines@) + Seq::<Seq<char>>::empty() =~= texts(lines@));
                }
            }
            Ok(())
        },
    }
}

/// Append the characters `cs` to `v`
fn push_char_list(v: &mut Vec<char>, cs: &[char])
    ensures
        final(v)@ == old(v)@ + cs@,
{
    let mut i: usize = 0;
    while i < cs.len()
        invariant
            i <= cs@.len(),
            v@ == old(v)@ + cs@.take(i as int),
        decreases cs@.len() - i,
    {
        v.push(cs[i]);
        i = i + 1;
        assert(v@ =~= old(v)@ + cs@.take(i as int));
    }
    assert(cs@.take(cs@.len() as int) =~= cs@);
}

/// The lines joined by line breaks
fn join_with_breaks(lines: &Vec<String>) -> (r: String)
    ensures
        r@ == join_lines(texts(lines@)),
{
    let ghost ls = texts(lines@);
    let mut out = String::new();
    let mut i: usize = 0;
    while i < lines.len()
        invariant
            i <= lines@.len(),
            ls == texts(lines@),
            out@ == join_lines(ls.take(i as int)),
        decreases lines@.len() - i,
    {
        if i > 0 {
            push_chars(&mut out, &['\n']);
        }
        push_str(&mut out, lines[i].as_str());
        proof {
            let t = ls.take(i + 1);
            assert(t.drop_last() =~= ls.take(i as int));
            if i == 0 {
                assert(out@ =~= ls[0]);
            } else {
                assert(out@ =~= join_lines(t));
            }
        }
        i = i + 1;
    }
    assert(ls.take(lines@.len() as int) =~= ls);
    out
}

/// `r` is what inspecting `a` over the store contents `st` gives, with the
/// tree drawn down to `maxd` levels: the counts of the walk where it ends in
/// a result, the error of the node that cannot be found where it fails
pub open spec fn inspected(r: Result<InspectionReport, CoreError>, st: Map<AddressView, NodeView>, a: AddressView, maxd: usize) -> bool {
    match full_walk(st, a) {
        Walk::Done(n, t) => r matches Ok(rep) && {
            &&& rep.address@ == spec_uri(a)
            &&& rep.node_type@ == node_type_name(a.node_type)
            &&& rep.total_bytes == n
            &&& rep.page_count == t.pages
            &&& rep.max_depth == t.deepest
            &&& rep.total_nodes == t.nodes
            &&& rep.unique_nodes == t.seen.len()
            &&& rep.tree_ascii@ == join_lines(render(st, a, Seq::empty(), true, 0, maxd as nat))
        },
        Walk::Failed(b) => r matches Err(CoreError::Node(e)) && node_result_is(
            Err::<Node, crate::error::NodeError>(e),
            node_verdict(b),
        ),
        _ => true,
    }
}

/// Inspect the graph below an address: count the bytes it stands for, its pages, depth,
/// nodes (with repetition) and distinct addresses, and draw its tree down to
/// `max_tree_depth` levels. The graph must be finite (free of cycles, at most
/// `usize::MAX` levels deep) and its counts must fit their integer types;
/// `checked_inspect_address` tests that first.
pub fn inspect_address<S: AddressStore>(addr: &Address, store: &S, max_tree_depth: usize) -> (r: Result<
    InspectionReport,
    CoreError,
>)
    requires
        settles(full_walk(store.contents(), addr@)),
    ensures
        store.reliable() ==> inspected(r, store.contents(), addr@, max_tree_depth),
        r is Ok ==> inspected(r, store.contents(), addr@, max_tree_depth),
{
    let mut visited: Vec<Address> = Vec::new();
    let mut stats = CollectorStats { page_count: 0, max_depth: 0, total_nodes: 0 };
    assert(tally_of(stats, visited@) == empty_tally()) by {
        assert(addr_views(visited@).to_set() =~= Set::<AddressView>::empty());
    }
    assert(addr_views(visited@).no_duplicates());
    let total_bytes = match collect_stats(addr, store, 1, &mut visited, &mut stats, usize::MAX)? {
        Some(n) => n,
        None => {
            assert(false);
            0
        },
    };
    let mut lines: Vec<String> = Vec::new();
    let empty_prefix: Vec<char> = Vec::new();
    render_tree_node(addr, store, &empty_prefix, true, 0, max_tree_depth, &mut lines)?;
    proof {
        assert(texts(Seq::<String>::empty()) =~= Seq::<Seq<char>>::empty());
        assert(texts(lines@) =~= render(store.contents(), addr@, Seq::empty(), true, 0, max_tree_depth as nat));
    }
    let tree_ascii = join_with_breaks(&lines);
    proof {
        addr_views(visited@).unique_seq_to_set();
        assert(addr_views(visited@).len() == visited@.len());
    }
    let address = addr.to_uri();
    let node_type = addr.node_type().as_str().to_owned();
    Ok(InspectionReport {
        address,
        node_type,
        total_bytes,
        page_count: stats.page_count,
        max_depth: stats.max_depth,
        total_nodes: stats.total_nodes,
        unique_nodes: visited.len(),
        tree_ascii,
    })
}

/// A walk that settles within `h1` levels gives the same with more
proof fn lemma_tally_more_levels(st: Map<AddressView, NodeView>, a: AddressView, depth: int, t: Tally, h1: nat, h2: nat)
    requires
        h1 <= h2,
        settles(tally_node(st, a, depth, t, h1)),
    ensures
        tally_node(st, a, depth, t, h2) == tally_node(st, a, depth, t, h1),
    decreases h1, 0int, 0int,
{
    if t.nodes + 1 <= usize::MAX && depth + 1 <= usize::MAX {
        let t1 = visit(t, a, depth);
        match lookup(st, a) {
            Some(NodeView::Reference(target)) => {
                lemma_tally_more_levels(st, target, depth + 1, t1, (h1 - 1) as nat, (h2 - 1) as nat);
            },
            Some(NodeView::Sequence(c)) => {
                lemma_tally_list_more_levels(st, c, 0, depth + 1, t1, 0, (h1 - 1) as nat, (h2 - 1) as nat);
            },
            Some(NodeView::Repeat { target, .. }) => {
                lemma_tally_more_levels(st, target, depth + 1, t1, (h1 - 1) as nat, (h2 - 1) as nat);
            },
            Some(NodeView::Slice { target, .. }) => {
                lemma_tally_more_levels(st, target, depth + 1, t1, (h1 - 1) as nat, (h2 - 1) as nat);
            },
            _ => {},
        }
    }
}

/// A list walk that settles within `h1` levels gives the same with more
proof fn lemma_tally_list_more_levels(
    st: Map<AddressView, NodeView>,
    c: Seq<AddressView>,
    i: int,
    depth: int,
    t: Tally,
    sum: int,
    h1: nat,
    h2: nat,
)
    requires
        h1 <= h2,
        settles(tally_list(st, c, i, depth, t, sum, h1)),
    ensures
        tally_list(st, c, i, depth, t, sum, h2) == tally_list(st, c, i, depth, t, sum, h1),
    decreases h1, 1int, c.len() - i,
{
    if 0 <= i < c.len() {
        lemma_tally_more_levels(st, c[i], depth, t, h1, h2);
        if let Walk::Done(r, t2) = tally_node(st, c[i], depth, t, h1) {
            if sum + r <= u64::MAX {
                lemma_tally_list_more_levels(st, c, i + 1, depth, t2, sum + r, h1, h2);
            }
        }
    }
}

/// Inspect the graph below an address (see `inspect_address`) where its walk
/// settles within `max_walk_depth` levels: nothing where it goes deeper (as
/// it does round a cycle) or its counts pass the range of their integer types
pub fn checked_inspect_address<S: AddressStore>(
    addr: &Address,
    store: &S,
    max_tree_depth: usize,
    max_walk_depth: usize,
) -> (r: Option<Result<InspectionReport, CoreError>>)
    ensures
        r is None ==> !settles(tally_node(store.contents(), addr@, 1, empty_tally(), max_walk_depth as nat)),
        store.reliable() ==> (r is None <==> !settles(
            tally_node(store.contents(), addr@, 1, empty_tally(), max_walk_depth as nat),
        )),
        store.reliable() ==> (r matches Some(x) ==> inspected(x, store.contents(), addr@, max_tree_depth)),
        r matches Some(x) ==> (x is Ok ==> inspected(x, store.contents(), addr@, max_tree_depth)),
{
    let mut visited: Vec<Address> = Vec::new();
    let mut stats = CollectorStats { page_count: 0, max_depth: 0, total_nodes: 0 };
    assert(tally_of(stats, visited@) == empty_tally()) by {
        assert(addr_views(visited@).to_set() =~= Set::<AddressView>::empty());
    }
    assert(addr_views(visited@).no_duplicates());
    let ghost w = tally_node(store.contents(), addr@, 1, empty_tally(), max_walk_depth as nat);
    match collect_stats(addr, store, 1, &mut visited, &mut stats, max_walk_depth) {
        Ok(None) => None,
        Ok(Some(_)) => {
            proof {
                lemma_tally_more_levels(store.contents(), addr@, 1, empty_tally(), max_walk_depth as nat, usize::MAX as nat);
            }
            Some(inspect_address(addr, store, max_tree_depth))
        },
        Err(e) => {
            proof {
                if store.reliable() {
                    lemma_tally_more_levels(store.contents(), addr@, 1, empty_tally(), max_walk_depth as nat, usize::MAX as nat);
                }
            }
            Some(Err(e))
        },
    }
}

/// The counts of an inspection are those of what its walk meets: the Page
/// nodes and all nodes with repetition (a graph without Page nodes reports
/// none), the distinct addresses, and the deepest level
pub proof fn lemma_inspection_counts(r: Result<InspectionReport, CoreError>, st: Map<AddressView, NodeView>, a: AddressView, maxd: usize)
    requires
        inspected(r, st, a, maxd),
        settles(full_walk(st, a)),
        r is Ok,
    ensures
        r->Ok_0.page_count == page_visits(st, a, usize::MAX as nat),
        r->Ok_0.total_nodes == node_visits(st, a, usize::MAX as nat),
        r->Ok_0.unique_nodes == reached(st, a, usize::MAX as nat).len(),
        r->Ok_0.max_depth == max_level(0, deepest_level(st, a, 1, usize::MAX as nat)),
{
    lemma_walk_counts_pages(st, a, 1, empty_tally(), usize::MAX as nat);
    lemma_walk_counts_nodes(st, a, 1, empty_tally(), usize::MAX as nat);
    assert(Set::<AddressView>::empty() + reached(st, a, usize::MAX as nat) =~= reached(st, a, usize::MAX as nat));
}

} // verus!
