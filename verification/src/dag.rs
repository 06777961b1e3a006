//! The DAG engine: the graph below an address (nodes, edges, degrees and
//! depths), its metrics, its Graphviz DOT rendering, and common
//! subexpression elimination with structural reductions

use vstd::prelude::*;
use crate::address::{Address, AddressView, NodeType, spec_uri};
use crate::error::{CoreError, NodeError, ResolveError};
use crate::node::{Node, NodeView, NodeVerdict, node_verdict, spec_children, addr_views, spec_node_address};
use crate::resolver::{lookup, push_str, slice_window, reads_exact, self_described};
use crate::lossless::repeat_bytes;
use crate::inspector::{texts, opt_view};
use crate::store::AddressStore;
use crate::text::{decimal, push_chars, push_decimal, str_chars};

verus! {

broadcast use vstd::std_specs::vec::group_vec_axioms;

/// Structural graph of the nodes reachable from a root address
#[derive(Debug)]
pub struct DagGraph {
    /// Root address of the DAG
    pub root: Address,
    /// The nodes reached, in breadth-first order from the root
    pub nodes: Vec<(Address, Node)>,
    /// Directed edges (parent, child), in the order the parents were reached
    pub edges: Vec<(Address, Address)>,
    /// In-degree per node (number of incoming references)
    pub in_degree: Vec<(Address, usize)>,
    /// Out-degree per node (number of outgoing references)
    pub out_degree: Vec<(Address, usize)>,
    /// Depth per node from the root (the root is at depth 1)
    pub depth_map: Vec<(Address, usize)>,
}

/// The integer metrics of a DAG
#[derive(Debug, Clone, Copy, PartialEq, Eq)]
pub struct DagCounts {
    /// Number of distinct nodes (vertices)
    pub total_nodes: usize,
    /// Number of reference edges
    pub total_edges: usize,
    /// Number of nodes referenced more than once
    pub shared_nodes: usize,
    /// Number of nodes without children
    pub leaf_nodes: usize,
    /// The greatest depth of any node
    pub max_depth: usize,
}

/// Report emitted after running CSE and structural graph reductions
#[derive(Debug, Clone, PartialEq, Eq)]
pub struct OptimizationReport {
    pub original_root: Address,
    pub optimized_root: Address,
    pub nodes_before: usize,
    pub nodes_after: usize,
    pub edges_before: usize,
    pub edges_after: usize,
    pub transformations: Vec<String>,
}

/// The node the graph records for an address: its node, or an empty data
/// node where it yields none
pub open spec fn node_or_empty(st: Map<AddressView, NodeView>, a: AddressView) -> NodeView {
    match lookup(st, a) {
        Some(n) => n,
        None => NodeView::Data(Seq::empty()),
    }
}

/// The node that address `a` itself describes, else an empty data node
pub open spec fn parsed_or_empty(a: AddressView) -> NodeView {
    match node_verdict(a) {
        NodeVerdict::Parsed(n) => n,
        _ => NodeView::Data(Seq::empty()),
    }
}

/// Where every node held is the one its address describes, the node an
/// address stands for is the one it describes
proof fn lemma_self_described_lookup(st: Map<AddressView, NodeView>, a: AddressView)
    requires
        self_described(st),
    ensures
        node_or_empty(st, a) == parsed_or_empty(a),
{
    if st.contains_key(a) {
        assert(node_verdict(a) == NodeVerdict::Parsed(st[a]));
    }
}

/// The addresses of an association list
pub open spec fn keys_of<V>(v: Seq<(Address, V)>) -> Seq<AddressView> {
    v.map_values(|e: (Address, V)| e.0@)
}

/// The models of the nodes of a graph
pub open spec fn node_pairs(v: Seq<(Address, Node)>) -> Seq<(AddressView, NodeView)> {
    v.map_values(|e: (Address, Node)| (e.0@, e.1@))
}

/// The models of the edges of a graph
pub open spec fn edge_pairs(v: Seq<(Address, Address)>) -> Seq<(AddressView, AddressView)> {
    v.map_values(|e: (Address, Address)| (e.0@, e.1@))
}

/// The edges from each node to each of its children, node by node
pub open spec fn edges_of(ns: Seq<(AddressView, NodeView)>) -> Seq<(AddressView, AddressView)>
    decreases ns.len(),
{
    if ns.len() == 0 {
        Seq::empty()
    } else {
        edges_of(ns.drop_last()) + spec_children(ns.last().1).map_values(|c: AddressView| (ns.last().0, c))
    }
}

/// The number of edges into `x`
pub open spec fn count_into(es: Seq<(AddressView, AddressView)>, x: AddressView) -> nat
    decreases es.len(),
{
    if es.len() == 0 {
        0
    } else {
        count_into(es.drop_last(), x) + if es.last().1 == x {
            1nat
        } else {
            0nat
        }
    }
}

/// `p` lists the positions in `es` of the edges of a walk from `root` to `x`
pub open spec fn is_walk(es: Seq<(AddressView, AddressView)>, root: AddressView, x: AddressView, p: Seq<int>) -> bool {
    &&& forall|i: int| 0 <= i < p.len() ==> 0 <= #[trigger] p[i] < es.len()
    &&& if p.len() == 0 {
        x == root
    } else {
        &&& es[p[0]].0 == root
        &&& es[p.last()].1 == x
        &&& forall|i: int| 0 <= i < p.len() - 1 ==> es[#[trigger] p[i]].1 == es[p[i + 1]].0
    }
}

/// Some walk of exactly `k` edges of `es` leads from `root` to `x`
pub open spec fn walks_to(es: Seq<(AddressView, AddressView)>, root: AddressView, x: AddressView, k: nat) -> bool {
    exists|p: Seq<int>| p.len() == k && #[trigger] is_walk(es, root, x, p)
}

/// A walk to the source of edge `j` followed by that edge is a walk to its target
proof fn lemma_walk_extend(es: Seq<(AddressView, AddressView)>, root: AddressView, p: Seq<int>, j: int)
    requires
        0 <= j < es.len(),
        is_walk(es, root, es[j].0, p),
    ensures
        is_walk(es, root, es[j].1, p.push(j)),
{
    let q = p.push(j);
    assert forall|i: int| 0 <= i < q.len() - 1 implies es[#[trigger] q[i]].1 == es[q[i + 1]].0 by {
        assert(q[i] == p[i]);
        if i < p.len() - 1 {
            assert(q[i + 1] == p[i + 1]);
        }
    }
}

/// A walk of at least one edge is a walk to the source of its last edge, then that edge
proof fn lemma_walk_split(es: Seq<(AddressView, AddressView)>, root: AddressView, x: AddressView, p: Seq<int>)
    requires
        p.len() > 0,
        is_walk(es, root, x, p),
    ensures
        0 <= p.last() < es.len(),
        es[p.last()].1 == x,
        is_walk(es, root, es[p.last()].0, p.drop_last()),
{
    let q = p.drop_last();
    assert forall|i: int| 0 <= i < q.len() - 1 implies es[#[trigger] q[i]].1 == es[q[i + 1]].0 by {
        assert(q[i] == p[i]);
        assert(q[i + 1] == p[i + 1]);
    }
    if q.len() > 0 {
        assert(es[p[q.len() - 1]].1 == es[p[q.len() as int]].0);
    }
}

/// One more than the greatest number of edges, at most `r`, of a walk from
/// `root` to `x` (0 where no such walk exists): the depth of `x` when the
/// root is at depth 1 and walks are bounded by `r` edges
pub open spec fn longest_reach(es: Seq<(AddressView, AddressView)>, root: AddressView, r: nat, x: AddressView) -> nat
    decreases r, 1int, 0int,
{
    if r == 0 {
        if x == root {
            1
        } else {
            0
        }
    } else {
        let a = longest_reach(es, root, (r - 1) as nat, x);
        let b = reach_through(es, es.len() as int, root, r, x);
        if b > a {
            b
        } else {
            a
        }
    }
}

/// The greatest depth that one of the first `m` edges into `x` gives it,
/// from the depths bounded by `r - 1` edges of their sources (0 where none does)
pub open spec fn reach_through(es: Seq<(AddressView, AddressView)>, m: int, root: AddressView, r: nat, x: AddressView) -> nat
    decreases r, 0int, m,
{
    if m <= 0 || r == 0 || m > es.len() {
        0
    } else {
        let v = reach_through(es, m - 1, root, r, x);
        let e = es[m - 1];
        let d = longest_reach(es, root, (r - 1) as nat, e.0);
        if e.1 == x && d > 0 && d + 1 > v {
            d + 1
        } else {
            v
        }
    }
}

proof fn lemma_reach_through_sound(es: Seq<(AddressView, AddressView)>, m: int, root: AddressView, r: nat, x: AddressView)
    requires
        r > 0,
        0 <= m <= es.len(),
    ensures
        reach_through(es, m, root, r, x) > 0 ==> reach_through(es, m, root, r, x) <= r + 1 && walks_to(
            es,
            root,
            x,
            (reach_through(es, m, root, r, x) - 1) as nat,
        ),
    decreases r, 0int, m,
{
    if m > 0 {
        lemma_reach_through_sound(es, m - 1, root, r, x);
        let e = es[m - 1];
        lemma_longest_reach_sound(es, root, (r - 1) as nat, e.0);
        let d = longest_reach(es, root, (r - 1) as nat, e.0);
        if e.1 == x && d > 0 && d + 1 > reach_through(es, m - 1, root, r, x) {
            let p = choose|p: Seq<int>| p.len() == d - 1 && #[trigger] is_walk(es, root, e.0, p);
            lemma_walk_extend(es, root, p, m - 1);
            assert(is_walk(es, root, x, p.push(m - 1)));
        }
    }
}

/// A depth found by `longest_reach` is the length of an actual walk, and
/// never more than the bound allows
pub proof fn lemma_longest_reach_sound(es: Seq<(AddressView, AddressView)>, root: AddressView, r: nat, x: AddressView)
    ensures
        longest_reach(es, root, r, x) <= r + 1,
        longest_reach(es, root, r, x) > 0 ==> walks_to(es, root, x, (longest_reach(es, root, r, x) - 1) as nat),
    decreases r, 1int, 0int,
{
    if r == 0 && x == root {
        assert(is_walk(es, root, x, Seq::<int>::empty()));
    }
    if r > 0 {
        lemma_longest_reach_sound(es, root, (r - 1) as nat, x);
        lemma_reach_through_sound(es, es.len() as int, root, r, x);
    }
}

proof fn lemma_reach_through_edge(es: Seq<(AddressView, AddressView)>, m: int, root: AddressView, r: nat, x: AddressView, j: int)
    requires
        r > 0,
        0 <= j < m <= es.len(),
        es[j].1 == x,
        longest_reach(es, root, (r - 1) as nat, es[j].0) > 0,
    ensures
        reach_through(es, m, root, r, x) >= longest_reach(es, root, (r - 1) as nat, es[j].0) + 1,
    decreases m,
{
    if j < m - 1 {
        lemma_reach_through_edge(es, m - 1, root, r, x, j);
    }
}

/// Every walk of at most `r` edges is found by `longest_reach`
pub proof fn lemma_longest_reach_complete(es: Seq<(AddressView, AddressView)>, root: AddressView, r: nat, x: AddressView, k: nat)
    requires
        walks_to(es, root, x, k),
        k <= r,
    ensures
        longest_reach(es, root, r, x) >= k + 1,
    decreases r,
{
    if r > 0 {
        if k < r {
            lemma_longest_reach_complete(es, root, (r - 1) as nat, x, k);
        } else {
            let p = choose|p: Seq<int>| p.len() == k && #[trigger] is_walk(es, root, x, p);
            lemma_walk_split(es, root, x, p);
            let j = p.last();
            assert(walks_to(es, root, es[j].0, (k - 1) as nat)) by {
                assert(is_walk(es, root, es[j].0, p.drop_last()));
            }
            lemma_longest_reach_complete(es, root, (r - 1) as nat, es[j].0, (k - 1) as nat);
            lemma_reach_through_edge(es, es.len() as int, root, r, x, j);
        }
    }
}

/// The depth of every node: one more than the greatest number of edges of
/// a walk from the root to it of fewer edges than there are nodes (on an
/// acyclic graph, the longest path from the root); computed by rounds of
/// relaxation over the edges
fn longest_depths(
    nodes: &Vec<(Address, Node)>,
    edges: &Vec<(Address, Address)>,
    Ghost(root): Ghost<AddressView>,
) -> (r: Vec<(Address, usize)>)
    requires
        nodes@.len() >= 1,
        keys_of(nodes@).no_duplicates(),
        keys_of(nodes@)[0] == root,
        forall|j: int|
            0 <= j < edges@.len() ==> keys_of(nodes@).contains(#[trigger] edges@[j].0@) && keys_of(nodes@).contains(
                edges@[j].1@,
            ),
    ensures
        keys_of(r@) == keys_of(nodes@),
        forall|i: int|
            0 <= i < r@.len() ==> (#[trigger] r@[i]).1 == longest_reach(
                edge_pairs(edges@),
                root,
                (nodes@.len() - 1) as nat,
                r@[i].0@,
            ),
{
    let ghost es = edge_pairs(edges@);
    let ghost ks = keys_of(nodes@);
    let n = nodes.len();
    let mut idx: Vec<(usize, usize)> = Vec::new();
    let mut j: usize = 0;
    while j < edges.len()
        invariant
            j <= edges@.len(),
            idx@.len() == j,
            n == nodes@.len(),
            es == edge_pairs(edges@),
            ks == keys_of(nodes@),
            forall|t: int|
                0 <= t < edges@.len() ==> keys_of(nodes@).contains(#[trigger] edges@[t].0@) && keys_of(nodes@).contains(
                    edges@[t].1@,
                ),
            forall|t: int|
                0 <= t < j ==> (#[trigger] idx@[t]).0 < n && idx@[t].1 < n && ks[idx@[t].0 as int] == es[t].0 && ks[idx@[t].1 as int]
                    == es[t].1,
        decreases edges@.len() - j,
    {
        let p = match find_key(nodes, &edges[j].0) {
            Some(p) => p,
            None => {
                return Vec::new();
            },
        };
        let c = match find_key(nodes, &edges[j].1) {
            Some(c) => c,
            None => {
                return Vec::new();
            },
        };
        idx.push((p, c));
        j = j + 1;
    }
    let mut d: Vec<usize> = Vec::new();
    let mut i: usize = 0;
    while i < n
        invariant
            i <= n,
            n == nodes@.len(),
            d@.len() == i,
            ks == keys_of(nodes@),
            ks.no_duplicates(),
            ks[0] == root,
            forall|t: int| 0 <= t < i ==> #[trigger] d@[t] == longest_reach(es, root, 0, ks[t]),
        decreases n - i,
    {
        if i == 0 {
            d.push(1);
        } else {
            assert(ks[i as int] != ks[0]);
            d.push(0);
        }
        i = i + 1;
    }
    let mut r: usize = 1;
    while r < n
        invariant
            1 <= r <= n,
            n == nodes@.len(),
            d@.len() == n,
            idx@.len() == edges@.len(),
            es == edge_pairs(edges@),
            ks == keys_of(nodes@),
            ks.no_duplicates(),
            forall|t: int|
                0 <= t < idx@.len() ==> (#[trigger] idx@[t]).0 < n && idx@[t].1 < n && ks[idx@[t].0 as int] == es[t].0
                    && ks[idx@[t].1 as int] == es[t].1,
            forall|t: int| 0 <= t < n ==> #[trigger] d@[t] == longest_reach(es, root, (r - 1) as nat, ks[t]),
        decreases n - r,
    {
        let mut next: Vec<usize> = Vec::new();
        let mut k: usize = 0;
        while k < n
            invariant
                k <= n,
                d@.len() == n,
                next@.len() == k,
                forall|t: int| 0 <= t < k ==> #[trigger] next@[t] == d@[t],
            decreases n - k,
        {
            next.push(d[k]);
            k = k + 1;
        }
        proof {
            assert forall|t: int| 0 <= t < n implies #[trigger] next@[t] == (if reach_through(es, 0, root, r as nat, ks[t])
                > d@[t] {
                reach_through(es, 0, root, r as nat, ks[t])
            } else {
                d@[t] as nat
            }) by {}
        }
        let mut j: usize = 0;
        while j < idx.len()
            invariant
                j <= idx@.len(),
                1 <= r < n,
                n == nodes@.len(),
                d@.len() == n,
                next@.len() == n,
                idx@.len() == edges@.len(),
                es == edge_pairs(edges@),
                ks == keys_of(nodes@),
                ks.no_duplicates(),
                forall|t: int|
                    0 <= t < idx@.len() ==> (#[trigger] idx@[t]).0 < n && idx@[t].1 < n && ks[idx@[t].0 as int] == es[t].0
                        && ks[idx@[t].1 as int] == es[t].1,
                forall|t: int| 0 <= t < n ==> #[trigger] d@[t] == longest_reach(es, root, (r - 1) as nat, ks[t]),
                forall|t: int|
                    0 <= t < n ==> #[trigger] next@[t] == (if reach_through(es, j as int, root, r as nat, ks[t]) > d@[t] {
                        reach_through(es, j as int, root, r as nat, ks[t])
                    } else {
                        d@[t] as nat
                    }),
            decreases idx@.len() - j,
        {
            let (p, c) = idx[j];
            proof {
                lemma_longest_reach_sound(es, root, (r - 1) as nat, ks[p as int]);
            }
            let dp = d[p];
            if dp > 0 && dp + 1 > next[c] {
                next.set(c, dp + 1);
            }
            proof {
                assert forall|t: int| 0 <= t < n implies #[trigger] next@[t] == (if reach_through(
                    es,
                    j + 1,
                    root,
                    r as nat,
                    ks[t],
                ) > d@[t] {
                    reach_through(es, j + 1, root, r as nat, ks[t])
                } else {
                    d@[t] as nat
                }) by {
                    if t != c {
                        assert(ks[t] != ks[c as int]);
                    }
                }
            }
            j = j + 1;
        }
        d = next;
        r = r + 1;
    }
    let mut out: Vec<(Address, usize)> = Vec::new();
    let mut i: usize = 0;
    while i < n
        invariant
            i <= n,
            n == nodes@.len(),
            d@.len() == n,
            out@.len() == i,
            ks == keys_of(nodes@),
            forall|t: int| 0 <= t < n ==> #[trigger] d@[t] == longest_reach(es, root, (n - 1) as nat, ks[t]),
            forall|t: int| 0 <= t < i ==> (#[trigger] out@[t]).0@ == ks[t] && out@[t].1 == d@[t],
        decreases n - i,
    {
        out.push((nodes[i].0.clone(), d[i]));
        i = i + 1;
    }
    assert(keys_of(out@) =~= ks);
    out
}

/// Every edge of a graph runs from a node to one of its children
proof fn lemma_edges_of_members(ns: Seq<(AddressView, NodeView)>)
    ensures
        forall|t: int|
            0 <= t < edges_of(ns).len() ==> exists|i: int|
                0 <= i < ns.len() && ns[i].0 == (#[trigger] edges_of(ns)[t]).0 && spec_children(ns[i].1).contains(
                    edges_of(ns)[t].1,
                ),
    decreases ns.len(),
{
    if ns.len() > 0 {
        let p = ns.drop_last();
        lemma_edges_of_members(p);
        let last = spec_children(ns.last().1).map_values(|c: AddressView| (ns.last().0, c));
        assert forall|t: int| 0 <= t < edges_of(ns).len() implies exists|i: int|
            0 <= i < ns.len() && ns[i].0 == (#[trigger] edges_of(ns)[t]).0 && spec_children(ns[i].1).contains(
                edges_of(ns)[t].1,
            ) by {
            if t < edges_of(p).len() {
                assert(edges_of(ns)[t] == edges_of(p)[t]);
                let i = choose|i: int| 0 <= i < p.len() && p[i].0 == edges_of(p)[t].0 && spec_children(p[i].1).contains(edges_of(p)[t].1);
                assert(ns[i] == p[i]);
            } else {
                let k = t - edges_of(p).len();
                assert(edges_of(ns)[t] == last[k]);
                assert(spec_children(ns.last().1)[k] == edges_of(ns)[t].1);
                assert(ns[ns.len() - 1] == ns.last());
            }
        }
    }
}

/// Each child of each node gives an edge of the graph
proof fn lemma_edges_of_child(ns: Seq<(AddressView, NodeView)>, j: int, c: AddressView)
    requires
        0 <= j < ns.len(),
        spec_children(ns[j].1).contains(c),
    ensures
        exists|t: int| 0 <= t < edges_of(ns).len() && #[trigger] edges_of(ns)[t] == (ns[j].0, c),
    decreases ns.len(),
{
    let p = ns.drop_last();
    if j < ns.len() - 1 {
        assert(p[j] == ns[j]);
        lemma_edges_of_child(p, j, c);
        let t = choose|t: int| 0 <= t < edges_of(p).len() && #[trigger] edges_of(p)[t] == (p[j].0, c);
        assert(edges_of(ns)[t] == edges_of(p)[t]);
    } else {
        let cs = spec_children(ns.last().1);
        let k = choose|k: int| 0 <= k < cs.len() && cs[k] == c;
        let t = edges_of(p).len() + k;
        assert(edges_of(ns)[t] == (ns.last().0, cs[k]));
    }
}

/// Every node of a graph built from the root is reached by a walk of at most
/// as many edges as its position
proof fn lemma_nodes_reached(ns: Seq<(AddressView, NodeView)>, keys: Seq<AddressView>, i: int)
    requires
        keys == ns.map_values(|e: (AddressView, NodeView)| e.0),
        0 <= i < ns.len(),
        forall|k: int| 0 < k < ns.len() ==> #[trigger] found_from(ns, keys, k, k),
    ensures
        exists|k: nat| k <= i && #[trigger] walks_to(edges_of(ns), keys[0], keys[i], k),
    decreases i,
{
    let es = edges_of(ns);
    if i == 0 {
        assert(is_walk(es, keys[0], keys[0], Seq::<int>::empty()));
        assert(walks_to(es, keys[0], keys[0], 0));
    } else {
        assert(found_from(ns, keys, i, i));
        let j = choose|j: int| 0 <= j < i && j < i && spec_children(ns[j].1).contains(keys[i]);
        lemma_nodes_reached(ns, keys, j);
        let k = choose|k: nat| k <= j && #[trigger] walks_to(es, keys[0], keys[j], k);
        let p = choose|p: Seq<int>| p.len() == k && #[trigger] is_walk(es, keys[0], keys[j], p);
        lemma_edges_of_child(ns, j, keys[i]);
        let t = choose|t: int| 0 <= t < es.len() && #[trigger] es[t] == (ns[j].0, keys[i]);
        assert(ns[j].0 == keys[j]);
        lemma_walk_extend(es, keys[0], p, t);
        assert(walks_to(es, keys[0], keys[i], k + 1));
    }
}

/// The depth `build_dag` gives a node is the longest walk from the root to
/// it: the root is at depth 1, some walk of `depth - 1` edges reaches the
/// node, and no walk of more edges (and fewer than the graph has nodes) does;
/// on an acyclic graph this is the longest path from the root
pub proof fn lemma_depth_is_longest(g: DagGraph, i: int)
    requires
        dag_shape(g),
        0 <= i < g.depth_map@.len(),
    ensures
        g.depth_map@[i].1 >= 1,
        walks_to(edge_pairs(g.edges@), g.root@, g.depth_map@[i].0@, (g.depth_map@[i].1 - 1) as nat),
        forall|k: nat|
            g.depth_map@[i].1 - 1 < k < g.nodes@.len() ==> !#[trigger] walks_to(
                edge_pairs(g.edges@),
                g.root@,
                g.depth_map@[i].0@,
                k,
            ),
{
    reveal(dag_shape);
    let es = edge_pairs(g.edges@);
    let n = g.nodes@.len();
    let x = g.depth_map@[i].0@;
    lemma_longest_reach_sound(es, g.root@, (n - 1) as nat, x);
    assert forall|k: nat| g.depth_map@[i].1 - 1 < k < n implies !#[trigger] walks_to(es, g.root@, x, k) by {
        if walks_to(es, g.root@, x, k) {
            lemma_longest_reach_complete(es, g.root@, (n - 1) as nat, x, k);
        }
    }
}

/// What `build_dag` gives: the root first, each node once, each node's
/// children among the nodes, each node after one that has it as a child,
/// the edges node by node, the degrees of every node, and the depth of every
/// node (the root at depth 1; see `longest_reach` and `lemma_depth_is_longest`)
#[verifier::opaque]
pub open spec fn dag_shape(g: DagGraph) -> bool {
    let ns = node_pairs(g.nodes@);
    let keys = keys_of(g.nodes@);
    &&& ns.len() >= 1
    &&& keys[0] == g.root@
    &&& keys.no_duplicates()
    &&& forall|i: int, c: AddressView|
        0 <= i < ns.len() && #[trigger] spec_children(ns[i].1).contains(c) ==> keys.contains(c)
    &&& forall|i: int| 0 < i < ns.len() ==> #[trigger] found_from(ns, keys, i, i)
    &&& edge_pairs(g.edges@) == edges_of(ns)
    &&& keys_of(g.out_degree@) == keys
    &&& forall|i: int| 0 <= i < ns.len() ==> (#[trigger] g.out_degree@[i]).1 == spec_children(ns[i].1).len()
    &&& keys_of(g.in_degree@).no_duplicates()
    &&& keys_of(g.in_degree@).to_set() == keys.to_set()
    &&& forall|i: int|
        0 <= i < g.in_degree@.len() ==> (#[trigger] g.in_degree@[i]).1 == count_into(edges_of(ns), g.in_degree@[i].0@)
    &&& keys_of(g.depth_map@) == keys
    &&& forall|i: int| 0 <= i < g.depth_map@.len() ==> (#[trigger] g.depth_map@[i]).1 >= 1
    &&& forall|i: int|
        0 <= i < g.depth_map@.len() ==> (#[trigger] g.depth_map@[i]).1 == longest_reach(
            edge_pairs(g.edges@),
            g.root@,
            (ns.len() - 1) as nat,
            g.depth_map@[i].0@,
        )
}


/// The node of an address for the graph: the stored one, else the one its
/// address describes, else an empty data node
fn fetch_or_empty<S: AddressStore>(addr: &Address, store: &S) -> (r: Node)
    ensures
        r@ == node_or_empty(store.contents(), addr@) || r@ == parsed_or_empty(addr@),
        store.reliable() ==> r@ == node_or_empty(store.contents(), addr@),
{
    match store.get(addr) {
        Ok(Some(n)) => n,
        _ => match Node::from_address(addr) {
            Ok(n) => n,
            Err(_) => Node::Data(Vec::new()),
        },
    }
}

/// The position of `a` among the keys of `v`, if it is there
fn find_key<V>(v: &Vec<(Address, V)>, a: &Address) -> (r: Option<usize>)
    ensures
        r matches Some(i) ==> i < v@.len() && v@[i as int].0@ == a@ && forall|k: int|
            0 <= k < i ==> (#[trigger] keys_of(v@)[k]) != a@,
        r is None ==> !keys_of(v@).contains(a@),
{
    let mut i: usize = 0;
    while i < v.len()
        invariant
            i <= v@.len(),
            forall|k: int| 0 <= k < i ==> (#[trigger] keys_of(v@)[k]) != a@,
        decreases v@.len() - i,
    {
        if v[i].0.same_as(a) {
            return Some(i);
        }
        i = i + 1;
    }
    None
}

proof fn lemma_count_into_len(es: Seq<(AddressView, AddressView)>, x: AddressView)
    ensures
        count_into(es, x) <= es.len(),
    decreases es.len(),
{
    if es.len() > 0 {
        lemma_count_into_len(es.drop_last(), x);
    }
}

proof fn lemma_count_into_push(es: Seq<(AddressView, AddressView)>, e: (AddressView, AddressView), x: AddressView)
    ensures
        count_into(es.push(e), x) == count_into(es, x) + if e.1 == x {
            1nat
        } else {
            0nat
        },
{
    assert(es.push(e).drop_last() =~= es);
}

proof fn lemma_count_into_absent(es: Seq<(AddressView, AddressView)>, x: AddressView)
    requires
        forall|i: int| 0 <= i < es.len() ==> (#[trigger] es[i]).1 != x,
    ensures
        count_into(es, x) == 0,
    decreases es.len(),
{
    if es.len() > 0 {
        let e0 = es.drop_last();
        assert forall|i: int| 0 <= i < e0.len() implies (#[trigger] e0[i]).1 != x by {
            assert(e0[i] == es[i]);
        }
        lemma_count_into_absent(e0, x);
    }
}

/// Entry `i` of `ks` is a child of one of the nodes before it, among the first `h`
pub open spec fn found_from(ns: Seq<(AddressView, NodeView)>, ks: Seq<AddressView>, i: int, h: int) -> bool {
    exists|j: int| 0 <= j < i && j < h && spec_children(ns[j].1).contains(ks[i])
}

/// The in-degree list counts the edges: distinct keys, every edge target a
/// key, each value the number of edges into its key
pub open spec fn degrees_ok(ind: Seq<(Address, usize)>, es: Seq<(AddressView, AddressView)>) -> bool {
    &&& keys_of(ind).no_duplicates()
    &&& forall|i: int| 0 <= i < es.len() ==> keys_of(ind).contains(#[trigger] es[i].1)
    &&& forall|i: int| 0 <= i < ind.len() ==> (#[trigger] ind[i]).1 == count_into(es, ind[i].0@)
}

/// The queue of addresses in the order they were reached, each once
pub open spec fn order_ok(order: Seq<(Address, ())>) -> bool {
    keys_of(order).no_duplicates()
}

proof fn lemma_keys_push<V>(v: Seq<(Address, V)>, e: (Address, V))
    ensures
        keys_of(v.push(e)) == keys_of(v).push(e.0@),
        keys_of(v.push(e)).to_set() == keys_of(v).to_set().insert(e.0@),
        !keys_of(v).contains(e.0@) && keys_of(v).no_duplicates() ==> keys_of(v.push(e)).no_duplicates(),
{
    assert(keys_of(v.push(e)) =~= keys_of(v).push(e.0@));
    keys_of(v).lemma_push_to_set_commute(e.0@);
    if !keys_of(v).contains(e.0@) && keys_of(v).no_duplicates() {
        let k = keys_of(v.push(e));
        assert forall|i: int, j: int| 0 <= i < j < k.len() implies k[i] != k[j] by {
            if j == k.len() - 1 {
                assert(k[i] == keys_of(v)[i]);
            } else {
                assert(k[i] == keys_of(v)[i] && k[j] == keys_of(v)[j]);
            }
        }
    }
}

proof fn lemma_keys_set<V>(v: Seq<(Address, V)>, i: int, e: (Address, V))
    requires
        0 <= i < v.len(),
        e.0@ == v[i].0@,
    ensures
        keys_of(v.update(i, e)) == keys_of(v),
{
    assert(keys_of(v.update(i, e)) =~= keys_of(v));
}

/// Every edge leads to a queued address
pub open spec fn targets_queued(es: Seq<(AddressView, AddressView)>, order: Seq<(Address, ())>) -> bool {
    forall|j: int| 0 <= j < es.len() ==> keys_of(order).contains(#[trigger] es[j].1)
}

/// Record the edges from `curr` to its children: count them into the
/// in-degrees, and queue the children not reached before
fn add_children(
    curr: &Address,
    children: &Vec<Address>,
    edges: &mut Vec<(Address, Address)>,
    in_degree: &mut Vec<(Address, usize)>,
    order: &mut Vec<(Address, ())>,
    Ghost(root): Ghost<AddressView>,
)
    requires
        degrees_ok(old(in_degree)@, edge_pairs(old(edges)@)),
        order_ok(old(order)@),
        targets_queued(edge_pairs(old(edges)@), old(order)@),
        keys_of(old(order)@).contains(root),
    ensures
        targets_queued(edge_pairs(final(edges)@), final(order)@),
        keys_of(final(order)@).contains(root),
        edge_pairs(final(edges)@) == edge_pairs(old(edges)@) + addr_views(children@).map_values(
            |c: AddressView| (curr@, c),
        ),
        degrees_ok(final(in_degree)@, edge_pairs(final(edges)@)),
        keys_of(final(in_degree)@).to_set() == keys_of(old(in_degree)@).to_set() + addr_views(children@).to_set(),
        order_ok(final(order)@),
        keys_of(final(order)@).take(old(order)@.len() as int) == keys_of(old(order)@),
        keys_of(final(order)@).len() >= keys_of(old(order)@).len(),
        forall|c: AddressView| addr_views(children@).contains(c) ==> #[trigger] keys_of(final(order)@).contains(c),
        forall|i: int|
            old(order)@.len() <= i < final(order)@.len() ==> addr_views(children@).contains(
                #[trigger] keys_of(final(order)@)[i],
            ),
{
    let ghost e0 = edge_pairs(edges@);
    let ghost ind0 = in_degree@;
    let ghost o0 = order@;
    let ghost cs = addr_views(children@);
    let mut k: usize = 0;
    assert(edge_pairs(edges@) =~= e0 + cs.take(0).map_values(|c: AddressView| (curr@, c)));
    assert(keys_of(in_degree@).to_set() =~= keys_of(ind0).to_set() + cs.take(0).to_set());
    assert(keys_of(order@).take(o0.len() as int) =~= keys_of(o0));
    while k < children.len()
        invariant
            k <= children@.len(),
            cs == addr_views(children@),
            edge_pairs(edges@) == e0 + cs.take(k as int).map_values(|c: AddressView| (curr@, c)),
            degrees_ok(in_degree@, edge_pairs(edges@)),
            keys_of(in_degree@).to_set() == keys_of(ind0).to_set() + cs.take(k as int).to_set(),
            order_ok(order@),
            o0.len() <= order@.len(),
            keys_of(order@).take(o0.len() as int) == keys_of(o0),
            forall|j: int| 0 <= j < k ==> #[trigger] keys_of(order@).contains(cs[j]),
            forall|i: int| o0.len() <= i < order@.len() ==> cs.take(k as int).contains(#[trigger] keys_of(order@)[i]),
            targets_queued(edge_pairs(edges@), order@),
            keys_of(order@).contains(root),
        decreases children@.len() - k,
    {
        let child = &children[k];
        let ghost eb = edge_pairs(edges@);
        let ghost indb = in_degree@;
        edges.push((curr.clone(), child.clone()));
        let ghost ea = edge_pairs(edges@);
        proof {
            assert(ea =~= eb.push((curr@, child@)));
            assert(cs.take(k + 1) =~= cs.take(k as int).push(child@));
            assert(cs.take(k + 1).map_values(|c: AddressView| (curr@, c)) =~= cs.take(k as int).map_values(
                |c: AddressView| (curr@, c),
            ).push((curr@, child@)));
            assert(ea =~= e0 + cs.take(k + 1).map_values(|c: AddressView| (curr@, c)));
            lemma_count_into_len(ea, child@);
            assert(ea.len() == edges@.len());
        }
        // count the edge into the child
        match find_key(in_degree, child) {
            Some(i) => {
                let old_count = in_degree[i].1;
                proof {
                    lemma_count_into_push(eb, (curr@, child@), child@);
                }
                let key = in_degree[i].0.clone();
                proof {
                    lemma_count_into_len(eb, child@);
                    assert(eb.len() + 1 == edges@.len());
                    assert(edges@.len() == edges.len());
                    assert(indb[i as int].0@ == child@);
                    assert(keys_of(indb)[i as int] == child@);
                    assert(old_count == count_into(eb, child@));
                }
                let entry = (key, old_count + 1);
                let ghost eg = entry;
                in_degree.set(i, entry);
                proof {
                    lemma_keys_set(indb, i as int, eg);
                    assert forall|j: int| 0 <= j < in_degree@.len() implies (#[trigger] in_degree@[j]).1 == count_into(
                        ea,
                        in_degree@[j].0@,
                    ) by {
                        lemma_count_into_push(eb, (curr@, child@), in_degree@[j].0@);
                        if j != i {
                            assert(in_degree@[j] == indb[j]);
                            assert(keys_of(indb)[j] != keys_of(indb)[i as int]);
                        }
                    }
                    assert forall|j: int| 0 <= j < ea.len() implies keys_of(in_degree@).contains(#[trigger] ea[j].1) by {
                        if j < eb.len() {
                            assert(ea[j] == eb[j]);
                        } else {
                            assert(keys_of(in_degree@)[i as int] == child@);
                        }
                    }
                    assert(keys_of(indb).contains(child@)) by {
                        assert(keys_of(indb)[i as int] == child@);
                    }
                    assert(keys_of(in_degree@).to_set() =~= keys_of(ind0).to_set() + cs.take(k + 1).to_set());
                }
            },
            None => {
                proof {
                    assert forall|j: int| 0 <= j < eb.len() implies (#[trigger] eb[j]).1 != child@ by {
                        assert(keys_of(indb).contains(eb[j].1));
                    }
                    lemma_count_into_absent(eb, child@);
                    lemma_count_into_push(eb, (curr@, child@), child@);
                }
                let entry = (child.clone(), 1usize);
                let ghost eg = entry;
                in_degree.push(entry);
                proof {
                    lemma_keys_push(indb, eg);
                    assert forall|j: int| 0 <= j < in_degree@.len() implies (#[trigger] in_degree@[j]).1 == count_into(
                        ea,
                        in_degree@[j].0@,
                    ) by {
                        lemma_count_into_push(eb, (curr@, child@), in_degree@[j].0@);
                        if j < indb.len() {
                            assert(in_degree@[j] == indb[j]);
                            assert(keys_of(indb).contains(in_degree@[j].0@)) by {
                                assert(keys_of(indb)[j] == in_degree@[j].0@);
                            }
                        }
                    }
                    assert forall|j: int| 0 <= j < ea.len() implies keys_of(in_degree@).contains(#[trigger] ea[j].1) by {
                        if j < eb.len() {
                            assert(ea[j] == eb[j]);
                            assert(keys_of(indb).contains(eb[j].1));
                            let t = choose|t: int| 0 <= t < keys_of(indb).len() && keys_of(indb)[t] == eb[j].1;
                            assert(keys_of(in_degree@)[t] == keys_of(indb)[t]);
                        } else {
                            assert(keys_of(in_degree@)[indb.len() as int] == child@);
                        }
                    }
                    assert(keys_of(in_degree@).to_set() =~= keys_of(ind0).to_set() + cs.take(k + 1).to_set());
                }
            },
        }
        let ghost ob = order@;
        // queue the child if it is new
        let found = find_key(order, child);
        if found.is_none() {
            let entry = (child.clone(), ());
            let ghost eg = entry;
            order.push(entry);
            proof {
                lemma_keys_push(ob, eg);
                assert(keys_of(order@).take(o0.len() as int) =~= keys_of(o0)) by {
                    assert(keys_of(order@).take(ob.len() as int) =~= keys_of(ob));
                    assert(keys_of(ob).take(o0.len() as int) == keys_of(o0));
                }
            }
        }
        proof {
            assert forall|j: int| 0 <= j < ea.len() implies keys_of(order@).contains(#[trigger] ea[j].1) by {
                if j < eb.len() {
                    assert(ea[j] == eb[j]);
                    assert(keys_of(ob).contains(eb[j].1));
                    let t = choose|t: int| 0 <= t < keys_of(ob).len() && keys_of(ob)[t] == eb[j].1;
                    assert(keys_of(order@)[t] == keys_of(ob)[t]);
                } else {
                    assert(ea[j].1 == child@);
                    match found {
                        Some(t) => {
                            assert(keys_of(ob)[t as int] == child@);
                            assert(keys_of(order@)[t as int] == keys_of(ob)[t as int]);
                        },
                        None => {
                            assert(keys_of(order@)[ob.len() as int] == child@);
                        },
                    }
                }
            }
            assert(keys_of(order@).contains(root)) by {
                let t = choose|t: int| 0 <= t < keys_of(ob).len() && keys_of(ob)[t] == root;
                assert(keys_of(order@)[t] == keys_of(ob)[t]);
            }
        }
        proof {
            assert(keys_of(order@).contains(child@)) by {
                match found {
                    Some(t) => {
                        assert(keys_of(ob)[t as int] == child@);
                        assert(keys_of(order@)[t as int] == keys_of(ob)[t as int]);
                    },
                    None => {
                        assert(keys_of(order@)[ob.len() as int] == child@);
                    },
                }
            }
            assert(keys_of(order@).to_set() =~= keys_of(ob).to_set().insert(child@)) by {
                match found {
                    Some(t) => {
                        assert(keys_of(ob)[t as int] == child@);
                        assert(keys_of(ob).to_set().contains(child@));
                    },
                    None => {},
                }
            }
            assert forall|j: int| 0 <= j < k + 1 implies #[trigger] keys_of(order@).contains(cs[j]) by {
                if j < k {
                    assert(keys_of(ob).contains(cs[j]));
                    let t = choose|t: int| 0 <= t < keys_of(ob).len() && keys_of(ob)[t] == cs[j];
                    assert(keys_of(order@)[t] == keys_of(ob)[t]);
                }
            }
            assert forall|i: int| o0.len() <= i < order@.len() implies cs.take(k + 1).contains(
                #[trigger] keys_of(order@)[i],
            ) by {
                if i < ob.len() {
                    assert(keys_of(order@)[i] == keys_of(ob)[i]);
                    let t = choose|t: int| 0 <= t < cs.take(k as int).len() && cs.take(k as int)[t] == keys_of(ob)[i];
                    assert(cs.take(k + 1)[t] == cs.take(k as int)[t]);
                } else {
                    assert(cs.take(k + 1)[k as int] == child@);
                }
            }
        }
        k = k + 1;
    }
    assert(cs.take(children@.len() as int) =~= cs);
    assert forall|i: int| o0.len() <= i < order@.len() implies cs.contains(#[trigger] keys_of(order@)[i]) by {
        assert(cs.take(k as int).contains(keys_of(order@)[i]));
    }
}


/// Build the graph of all nodes reachable from `root`, breadth first
pub fn build_dag<S: AddressStore>(root: &Address, store: &S) -> (r: Result<DagGraph, CoreError>)
    ensures
        r matches Ok(g) && dag_shape(g) && g.root@ == root@,
        r matches Ok(g) && forall|i: int|
            0 <= i < g.nodes@.len() ==> (#[trigger] g.nodes@[i]).1@ == node_or_empty(store.contents(), g.nodes@[i].0@)
                || g.nodes@[i].1@ == parsed_or_empty(g.nodes@[i].0@),
        reads_exact(store) ==> (r matches Ok(g) && forall|i: int|
            0 <= i < g.nodes@.len() ==> (#[trigger] g.nodes@[i]).1@ == node_or_empty(store.contents(), g.nodes@[i].0@)),
{
    let ghost st = store.contents();
    let ghost exact = store.reliable();
    let mut nodes: Vec<(Address, Node)> = Vec::new();
    let mut edges: Vec<(Address, Address)> = Vec::new();
    let mut in_degree: Vec<(Address, usize)> = Vec::new();
    let mut out_degree: Vec<(Address, usize)> = Vec::new();
    let mut order: Vec<(Address, ())> = Vec::new();
    order.push((root.clone(), ()));
    proof {
        assert(keys_of(order@) =~= seq![root@]);
        assert(keys_of(nodes@) =~= keys_of(order@).take(0));
        assert(edge_pairs(edges@) =~= edges_of(node_pairs(nodes@)));
        assert(keys_of(in_degree@) =~= Seq::<AddressView>::empty());
        assert(keys_of(out_degree@) =~= keys_of(nodes@));
        assert(order@[0].0@ == root@);
    }
    let mut head: usize = 0;
    while head < order.len()
        invariant
            head <= order@.len(),
            order@.len() >= 1,
            nodes@.len() == head,
            keys_of(nodes@) == keys_of(order@).take(head as int),
            order_ok(order@),
            keys_of(order@)[0] == root@,
            edge_pairs(edges@) == edges_of(node_pairs(nodes@)),
            degrees_ok(in_degree@, edge_pairs(edges@)),
            keys_of(in_degree@).to_set().subset_of(keys_of(order@).to_set()),
            keys_of(nodes@).to_set().subset_of(keys_of(in_degree@).to_set()),
            forall|i: int, c: AddressView|
                0 <= i < head && #[trigger] spec_children(node_pairs(nodes@)[i].1).contains(c) ==> keys_of(
                    order@,
                ).contains(c),
            forall|i: int| 0 < i < order@.len() ==> #[trigger] found_from(node_pairs(nodes@), keys_of(order@), i, head as int),
            keys_of(out_degree@) == keys_of(nodes@),
            forall|i: int| 0 <= i < head ==> (#[trigger] out_degree@[i]).1 == spec_children(node_pairs(nodes@)[i].1).len(),
            exact == store.reliable(),
            st == store.contents(),
            exact ==> forall|i: int|
                0 <= i < head ==> (#[trigger] nodes@[i]).1@ == node_or_empty(st, nodes@[i].0@),
            forall|i: int|
                0 <= i < head ==> (#[trigger] nodes@[i]).1@ == node_or_empty(st, nodes@[i].0@) || nodes@[i].1@
                    == parsed_or_empty(nodes@[i].0@),
            targets_queued(edge_pairs(edges@), order@),
        decreases usize::MAX - head,
    {
        let curr_addr = order[head].0.clone();
        let ghost ns0 = node_pairs(nodes@);
        let ghost o0 = order@;
        let ghost ind_a = in_degree@;
        let ghost es0 = edge_pairs(edges@);
        // every node has an in-degree entry, zero until an edge comes in
        let touched = find_key(&in_degree, &curr_addr);
        if touched.is_none() {
            let entry = (curr_addr.clone(), 0usize);
            let ghost eg = entry;
            proof {
                assert forall|j: int| 0 <= j < es0.len() implies (#[trigger] es0[j]).1 != curr_addr@ by {
                    assert(keys_of(ind_a).contains(es0[j].1));
                }
                lemma_count_into_absent(es0, curr_addr@);
            }
            in_degree.push(entry);
            proof {
                lemma_keys_push(ind_a, eg);
                assert forall|j: int| 0 <= j < in_degree@.len() implies (#[trigger] in_degree@[j]).1 == count_into(
                    es0,
                    in_degree@[j].0@,
                ) by {
                    if j < ind_a.len() {
                        assert(in_degree@[j] == ind_a[j]);
                    }
                }
                assert forall|j: int| 0 <= j < es0.len() implies keys_of(in_degree@).contains(#[trigger] es0[j].1) by {
                    assert(keys_of(ind_a).contains(es0[j].1));
                    let t = choose|t: int| 0 <= t < keys_of(ind_a).len() && keys_of(ind_a)[t] == es0[j].1;
                    assert(keys_of(in_degree@)[t] == keys_of(ind_a)[t]);
                }
                assert(keys_of(order@).to_set().contains(curr_addr@)) by {
                    assert(keys_of(order@)[head as int] == curr_addr@);
                }
            }
        }
        let ghost ind_b = in_degree@;
        assert(keys_of(ind_b).to_set() == keys_of(ind_a).to_set().insert(curr_addr@)) by {
            if let Some(t) = touched {
                assert(keys_of(ind_a)[t as int] == curr_addr@);
                assert(keys_of(ind_a).to_set().contains(curr_addr@));
                assert(ind_b == ind_a);
                assert(keys_of(ind_b).to_set() =~= keys_of(ind_a).to_set().insert(curr_addr@));
            }
        }
        let node = fetch_or_empty(&curr_addr, store);
        let children = node.children();
        let ghost cs = addr_views(children@);
        proof {
            assert(keys_of(order@).contains(root@)) by {
                assert(keys_of(order@)[0] == root@);
            }
            assert(order@[head as int].0@ == curr_addr@);
        }
        let od_entry = (curr_addr.clone(), children.len());
        let ghost od_eg = od_entry;
        let ghost od0 = out_degree@;
        out_degree.push(od_entry);
        add_children(
            &curr_addr,
            &children,
            &mut edges,
            &mut in_degree,
            &mut order,
            Ghost(root@),
        );
        let ghost o1 = order@;
        let n_entry = (curr_addr, node);
        let ghost n_eg = n_entry;
        let ghost kn_old = keys_of(nodes@);
        nodes.push(n_entry);
        proof {
            let ns1 = node_pairs(nodes@);
            let ko = keys_of(order@);
            let k0 = keys_of(o0);
            assert(ns1 =~= ns0.push((n_eg.0@, n_eg.1@)));
            assert(ns1.drop_last() =~= ns0);
            assert(spec_children(ns1.last().1) == cs);
            assert(edge_pairs(edges@) == edges_of(ns1));
            lemma_keys_push(od0, od_eg);
            assert(k0[head as int] == n_eg.0@);
            assert(ko.take(o0.len() as int) == k0);
            assert forall|t: int| 0 <= t < o0.len() implies ko[t] == #[trigger] k0[t] by {
                assert(ko.take(o0.len() as int)[t] == ko[t]);
            }
            assert(keys_of(nodes@) =~= kn_old.push(n_eg.0@));
            assert(keys_of(nodes@) =~= ko.take(head + 1));
            assert forall|x: AddressView| k0.contains(x) implies ko.contains(x) by {
                let t = choose|t: int| 0 <= t < k0.len() && k0[t] == x;
                assert(ko[t] == k0[t]);
            }
            assert(keys_of(ind_a).to_set().subset_of(keys_of(ind_b).to_set()));
            assert(keys_of(ind_b).to_set().subset_of(keys_of(in_degree@).to_set()));
            assert(keys_of(in_degree@).to_set().subset_of(ko.to_set())) by {
                assert forall|x: AddressView| keys_of(in_degree@).to_set().contains(x) implies ko.to_set().contains(x) by {
                    if cs.to_set().contains(x) {
                        assert(cs.contains(x));
                        assert(ko.contains(x));
                    } else if x == n_eg.0@ {
                        assert(ko[head as int] == x);
                    } else {
                        assert(keys_of(ind_b).to_set().contains(x));
                        assert(keys_of(ind_a).to_set().contains(x));
                        assert(k0.to_set().contains(x));
                        assert(k0.contains(x));
                    }
                }
            }
            assert(keys_of(nodes@).to_set().subset_of(keys_of(in_degree@).to_set())) by {
                assert forall|x: AddressView| keys_of(nodes@).to_set().contains(x) implies keys_of(
                    in_degree@,
                ).to_set().contains(x) by {
                    if x != n_eg.0@ {
                        assert(kn_old.contains(x)) by {
                            let t = choose|t: int| 0 <= t < keys_of(nodes@).len() && keys_of(nodes@)[t] == x;
                            assert(kn_old[t] == x);
                        }
                        assert(kn_old.to_set().contains(x));
                    }
                }
            }
            assert forall|i: int, c: AddressView|
                0 <= i < head + 1 && #[trigger] spec_children(ns1[i].1).contains(c) implies ko.contains(c) by {
                if i < head {
                    assert(ns1[i] == ns0[i]);
                    assert(k0.contains(c));
                } else {
                    assert(cs.contains(c));
                }
            }
            assert forall|i: int| 0 < i < order@.len() implies #[trigger] found_from(ns1, ko, i, head + 1) by {
                if i < o0.len() {
                    assert(found_from(ns0, k0, i, head as int));
                    let j = choose|j: int| 0 <= j < i && j < head && spec_children(ns0[j].1).contains(k0[i]);
                    assert(ns1[j] == ns0[j]);
                    assert(ko[i] == k0[i]);
                    assert(spec_children(ns1[j].1).contains(ko[i]));
                } else {
                    assert(cs.contains(ko[i]));
                    assert(ns1[head as int].1 == n_eg.1@);
                    assert(spec_children(ns1[head as int].1).contains(ko[i]));
                }
            }
            assert forall|i: int| 0 <= i < head + 1 implies (#[trigger] out_degree@[i]).1 == spec_children(ns1[i].1).len() by {
                if i < head {
                    assert(out_degree@[i] == od0[i]);
                    assert(ns1[i] == ns0[i]);
                }
            }
            assert(keys_of(out_degree@) =~= keys_of(nodes@));
        }
        head = head + 1;
    }
    proof {
        let keys = keys_of(nodes@);
        let ko = keys_of(order@);
        let ns = node_pairs(nodes@);
        assert(keys =~= ko);
        assert(keys_of(in_degree@).to_set() =~= keys.to_set());
        assert forall|i: int| 0 < i < ns.len() implies #[trigger] found_from(ns, keys, i, i) by {
            assert(found_from(ns, ko, i, head as int));
            let j = choose|j: int| 0 <= j < i && j < head && spec_children(ns[j].1).contains(ko[i]);
            assert(spec_children(ns[j].1).contains(keys[i]));
        }
        assert forall|i: int, c: AddressView|
            0 <= i < ns.len() && #[trigger] spec_children(ns[i].1).contains(c) implies keys.contains(c) by {
            assert(ko.contains(c));
        }
        assert(ns.len() >= 1);
        assert(keys[0] == root@);
        assert(keys.no_duplicates());
        lemma_edges_of_members(ns);
        assert forall|j: int| 0 <= j < edges@.len() implies keys_of(nodes@).contains(#[trigger] edges@[j].0@)
            && keys_of(nodes@).contains(edges@[j].1@) by {
            assert(edge_pairs(edges@)[j] == edges_of(ns)[j]);
            let i = choose|i: int| 0 <= i < ns.len() && ns[i].0 == (#[trigger] edges_of(ns)[j]).0 && spec_children(ns[i].1).contains(
                edges_of(ns)[j].1);
            assert(keys[i] == ns[i].0);
        }
    }
    let depth_map = longest_depths(&nodes, &edges, Ghost(root@));
    proof {
        let ns = node_pairs(nodes@);
        let keys = keys_of(nodes@);
        assert(keys == ns.map_values(|e: (AddressView, NodeView)| e.0)) by {
            assert(keys =~= ns.map_values(|e: (AddressView, NodeView)| e.0));
        }
        assert forall|i: int| 0 <= i < depth_map@.len() implies (#[trigger] depth_map@[i]).1 >= 1 by {
            assert(keys[i] == depth_map@[i].0@);
            lemma_nodes_reached(ns, keys, i);
            let k = choose|k: nat| k <= i && #[trigger] walks_to(edges_of(ns), keys[0], keys[i], k);
            lemma_longest_reach_complete(edges_of(ns), root@, (ns.len() - 1) as nat, keys[i], k);
        }
        reveal(dag_shape);
        if self_described(store.contents()) {
            assert forall|i: int| 0 <= i < nodes@.len() implies (#[trigger] nodes@[i]).1@ == node_or_empty(
                store.contents(),
                nodes@[i].0@,
            ) by {
                lemma_self_described_lookup(store.contents(), nodes@[i].0@);
            }
        }
    }
    Ok(DagGraph { root: root.clone(), nodes, edges, in_degree, out_degree, depth_map })
}


/// The number of entries whose value exceeds one
pub open spec fn count_shared(v: Seq<(Address, usize)>) -> nat
    decreases v.len(),
{
    if v.len() == 0 {
        0
    } else {
        count_shared(v.drop_last()) + if v.last().1 > 1 {
            1nat
        } else {
            0nat
        }
    }
}

/// The number of entries whose value is zero
pub open spec fn count_leaves(v: Seq<(Address, usize)>) -> nat
    decreases v.len(),
{
    if v.len() == 0 {
        0
    } else {
        count_leaves(v.drop_last()) + if v.last().1 == 0 {
            1nat
        } else {
            0nat
        }
    }
}

/// The greatest value among the entries, zero where there are none
pub open spec fn max_value(v: Seq<(Address, usize)>) -> nat
    decreases v.len(),
{
    if v.len() == 0 {
        0
    } else if v.last().1 > max_value(v.drop_last()) {
        v.last().1 as nat
    } else {
        max_value(v.drop_last())
    }
}

/// The header of the DOT rendering
pub open spec fn dot_header() -> Seq<char> {
    "digraph MFAS {\n"@ + "    rankdir=TB;\n"@
        + "    node [fontname=\"Helvetica,Arial,sans-serif\", fontsize=10, shape=box, style=\"filled,rounded\", penwidth=1.5];\n"@
        + "    edge [fontname=\"Helvetica,Arial,sans-serif\", fontsize=8, color=\"#555555\", arrowsize=0.8];\n\n"@
}

/// The display name, fill colour and border colour of each node type
pub open spec fn type_style(t: NodeType) -> (Seq<char>, Seq<char>, Seq<char>) {
    match t {
        NodeType::Data => ("Data"@, "#E1F5FE"@, "#0288D1"@),
        NodeType::Page => ("Page"@, "#E8F5E9"@, "#388E3C"@),
        NodeType::Ref => ("Reference"@, "#FFF3E0"@, "#F57C00"@),
        NodeType::Sequence => ("Sequence"@, "#F3E5F5"@, "#7B1FA2"@),
        NodeType::Rep => ("Repeat"@, "#FCE4EC"@, "#C2185B"@),
        NodeType::Slice => ("Slice"@, "#FFFDE7"@, "#FBC02D"@),
    }
}

/// A URI shortened for display: one longer than 32 characters keeps its
/// first 18 and last 8 characters around `...`
pub open spec fn short_uri(u: Seq<char>) -> Seq<char> {
    if u.len() > 32 {
        u.subrange(0, 18) + "..."@ + u.subrange(u.len() - 8, u.len() as int)
    } else {
        u
    }
}

/// The size line of a node in the DOT rendering
pub open spec fn node_details(n: NodeView) -> Seq<char> {
    match n {
        NodeView::Data(b) => decimal(b.len()) + " bytes"@,
        NodeView::Page(d) => decimal(d.len()) + " B"@,
        NodeView::Sequence(c) => decimal(c.len()) + " children"@,
        NodeView::Repeat { count, .. } => "repeat "@ + decimal(count as nat) + "x"@,
        NodeView::Slice { offset, length, .. } => "["@ + decimal(offset as nat) + "..+"@ + decimal(length as nat) + "]"@,
        NodeView::Reference(_) => "ref"@,
    }
}

/// The size line of a slice node reads back as its window: between `[` and
/// `..+` its offset in decimal, between `..+` and `]` its length
pub proof fn lemma_slice_details_read_back(target: AddressView, offset: u64, length: u64) -> (f: (Seq<char>, Seq<char>))
    ensures
        node_details(NodeView::Slice { target, offset, length }) == seq!['['] + f.0 + seq!['.', '.', '+'] + f.1 + seq![']'],
        crate::text::reads_decimal(f.0, offset as nat),
        crate::text::reads_decimal(f.1, length as nat),
{
    reveal_strlit("[");
    reveal_strlit("..+");
    reveal_strlit("]");
    crate::text::lemma_decimal_reads_back(offset as nat);
    crate::text::lemma_decimal_reads_back(length as nat);
    (decimal(offset as nat), decimal(length as nat))
}

/// The size line of every other node reads back as its size: a data node's
/// byte count before ` bytes`, a page's before ` B`, a sequence's child
/// count before ` children`, a repeat's count between `repeat ` and `x`; a
/// reference's line is `ref`
pub proof fn lemma_node_details_read_back(n: NodeView) -> (f: Seq<char>)
    ensures
        n matches NodeView::Data(b) ==> node_details(n) == f + seq![' ', 'b', 'y', 't', 'e', 's']
            && crate::text::reads_decimal(f, b.len()),
        n matches NodeView::Page(d) ==> node_details(n) == f + seq![' ', 'B'] && crate::text::reads_decimal(f, d.len()),
        n matches NodeView::Sequence(c) ==> node_details(n) == f + seq![' ', 'c', 'h', 'i', 'l', 'd', 'r', 'e', 'n']
            && crate::text::reads_decimal(f, c.len()),
        n matches NodeView::Repeat { count, .. } ==> node_details(n) == seq!['r', 'e', 'p', 'e', 'a', 't', ' '] + f
            + seq!['x'] && crate::text::reads_decimal(f, count as nat),
        n is Reference ==> node_details(n) == seq!['r', 'e', 'f'],
{
    reveal_strlit(" bytes");
    reveal_strlit(" B");
    reveal_strlit(" children");
    reveal_strlit("repeat ");
    reveal_strlit("x");
    reveal_strlit("ref");
    match n {
        NodeView::Data(b) => {
            crate::text::lemma_decimal_reads_back(b.len());
            decimal(b.len())
        },
        NodeView::Page(d) => {
            crate::text::lemma_decimal_reads_back(d.len());
            decimal(d.len())
        },
        NodeView::Sequence(c) => {
            crate::text::lemma_decimal_reads_back(c.len());
            decimal(c.len())
        },
        NodeView::Repeat { count, .. } => {
            crate::text::lemma_decimal_reads_back(count as nat);
            decimal(count as nat)
        },
        _ => Seq::empty(),
    }
}

/// The label of a node in the DOT rendering
pub open spec fn dot_label(a: AddressView, n: NodeView, is_root: bool) -> Seq<char> {
    (if is_root {
        " [ROOT]\\n"@
    } else {
        Seq::empty()
    }) + type_style(a.node_type).0 + "\\n"@ + node_details(n) + "\\n"@ + short_uri(spec_uri(a))
}

/// The DOT line of the node at position `i`
pub open spec fn dot_node_line(i: nat, a: AddressView, n: NodeView, root: AddressView) -> Seq<char> {
    let style = type_style(a.node_type);
    "    node_"@ + decimal(i) + " [label=\""@ + dot_label(a, n, a == root) + "\", fillcolor=\""@ + style.1
        + "\", color=\""@ + style.2 + "\", penwidth="@ + (if a == root {
        "3.0"@
    } else {
        "1.5"@
    }) + "];\n"@
}

/// The DOT lines of the nodes, in order
pub open spec fn dot_nodes(ns: Seq<(AddressView, NodeView)>, root: AddressView) -> Seq<char>
    decreases ns.len(),
{
    if ns.len() == 0 {
        Seq::empty()
    } else {
        dot_nodes(ns.drop_last(), root) + dot_node_line((ns.len() - 1) as nat, ns.last().0, ns.last().1, root)
    }
}

/// The DOT line of one edge, by the first positions of its ends among the
/// node keys; none where an end is not a node
pub open spec fn dot_edge_line(keys: Seq<AddressView>, e: (AddressView, AddressView)) -> Seq<char> {
    match (keys.index_of_first(e.0), keys.index_of_first(e.1)) {
        (Some(f), Some(t)) => "    node_"@ + decimal(f as nat) + " -> node_"@ + decimal(t as nat) + ";\n"@,
        _ => Seq::empty(),
    }
}

/// The DOT lines of the edges, in order
pub open spec fn dot_edges(keys: Seq<AddressView>, es: Seq<(AddressView, AddressView)>) -> Seq<char>
    decreases es.len(),
{
    if es.len() == 0 {
        Seq::empty()
    } else {
        dot_edges(keys, es.drop_last()) + dot_edge_line(keys, es.last())
    }
}

/// The Graphviz DOT text of a graph
pub open spec fn dot_text(g: DagGraph) -> Seq<char> {
    dot_header() + dot_nodes(node_pairs(g.nodes@), g.root@) + "\n"@ + dot_edges(keys_of(g.nodes@), edge_pairs(g.edges@))
        + "}\n"@
}

/// Append `cs[lo..hi]`
fn push_range(out: &mut String, cs: &Vec<char>, lo: usize, hi: usize)
    requires
        lo <= hi <= cs@.len(),
    ensures
        final(out)@ == old(out)@ + cs@.subrange(lo as int, hi as int),
{
    push_chars(out, vstd::slice::slice_subrange(cs.as_slice(), lo, hi));
}

/// Append the display form of `a`'s URI
fn push_short_uri(out: &mut String, a: &Address)
    ensures
        final(out)@ == old(out)@ + short_uri(spec_uri(a@)),
{
    let uri = a.to_uri();
    let cs = str_chars(uri.as_str());
    let n = cs.len();
    if n > 32 {
        push_range(out, &cs, 0, 18);
        push_str(out, "...");
        push_range(out, &cs, n - 8, n);
    } else {
        push_chars(out, cs.as_slice());
    }
}

/// Append the size line of `node`
fn push_details(out: &mut String, node: &Node)
    ensures
        final(out)@ == old(out)@ + node_details(node@),
{
    match node {
        Node::Data(b) => {
            push_decimal(out, b.len() as u64);
            push_str(out, " bytes");
        },
        Node::Page(p) => {
            push_decimal(out, p.len() as u64);
            push_str(out, " B");
        },
        Node::Sequence(c) => {
            push_decimal(out, c.len() as u64);
            push_str(out, " children");
        },
        Node::Repeat { count, .. } => {
            push_str(out, "repeat ");
            push_decimal(out, *count);
            push_str(out, "x");
        },
        Node::Slice { offset, length, .. } => {
            push_str(out, "[");
            push_decimal(out, *offset);
            push_str(out, "..+");
            push_decimal(out, *length);
            push_str(out, "]");
        },
        Node::Reference(_) => {
            push_str(out, "ref");
        },
    }
}

/// Append the DOT line of the node `i`
#[verifier::spinoff_prover]
#[verifier::rlimit(40)]
fn push_node_line(out: &mut String, i: usize, addr: &Address, node: &Node, root: &Address)
    ensures
        final(out)@ == old(out)@ + dot_node_line(i as nat, addr@, node@, root@),
{
    let ghost start = out@;
    let is_root = addr.same_as(root);
    let (name, fill, border) = match addr.node_type() {
        NodeType::Data => ("Data", "#E1F5FE", "#0288D1"),
        NodeType::Page => ("Page", "#E8F5E9", "#388E3C"),
        NodeType::Ref => ("Reference", "#FFF3E0", "#F57C00"),
        NodeType::Sequence => ("Sequence", "#F3E5F5", "#7B1FA2"),
        NodeType::Rep => ("Repeat", "#FCE4EC", "#C2185B"),
        NodeType::Slice => ("Slice", "#FFFDE7", "#FBC02D"),
    };
    assert(type_style(addr@.node_type) == (name@, fill@, border@));
    push_str(out, "    node_");
    push_decimal(out, i as u64);
    push_str(out, " [label=\"");
    let ghost label_start = out@;
    if is_root {
        push_str(out, " [ROOT]\\n");
    }
    push_str(out, name);
    push_str(out, "\\n");
    push_details(out, node);
    push_str(out, "\\n");
    push_short_uri(out, addr);
    assert(out@ =~= label_start + dot_label(addr@, node@, is_root));
    push_str(out, "\", fillcolor=\"");
    push_str(out, fill);
    push_str(out, "\", color=\"");
    push_str(out, border);
    push_str(out, "\", penwidth=");
    if is_root {
        push_str(out, "3.0");
    } else {
        push_str(out, "1.5");
    }
    push_str(out, "];\n");
    assert(out@ =~= start + dot_node_line(i as nat, addr@, node@, root@));
}

/// The position that `find_key` reports is the first position of the key
proof fn lemma_first_index<V>(v: Seq<(Address, V)>, a: AddressView, r: Option<usize>)
    requires
        r matches Some(i) ==> i < v.len() && v[i as int].0@ == a && forall|k: int|
            0 <= k < i ==> (#[trigger] keys_of(v)[k]) != a,
        r is None ==> !keys_of(v).contains(a),
    ensures
        keys_of(v).index_of_first(a) == match r {
            Some(i) => Some(i as int),
            None => None::<int>,
        },
{
    keys_of(v).index_of_first_ensures(a);
    match r {
        Some(i) => {
            assert(keys_of(v)[i as int] == a);
            match keys_of(v).index_of_first(a) {
                Some(j) => {
                    if j < i {
                        assert(keys_of(v)[j] != a);
                    }
                },
                None => {},
            }
        },
        None => {},
    }
}

impl DagGraph {
    /// The integer metrics of this graph
    pub fn counts(&self) -> (r: DagCounts)
        ensures
            r.total_nodes == self.nodes@.len(),
            r.total_edges == self.edges@.len(),
            r.shared_nodes == count_shared(self.in_degree@),
            r.leaf_nodes == count_leaves(self.out_degree@),
            r.max_depth == max_value(self.depth_map@),
    {
        let mut shared: usize = 0;
        let mut i: usize = 0;
        while i < self.in_degree.len()
            invariant
                i <= self.in_degree@.len(),
                shared <= i,
                shared == count_shared(self.in_degree@.take(i as int)),
            decreases self.in_degree@.len() - i,
        {
            assert(self.in_degree@.take(i + 1).drop_last() =~= self.in_degree@.take(i as int));
            if self.in_degree[i].1 > 1 {
                shared = shared + 1;
            }
            i = i + 1;
        }
        assert(self.in_degree@.take(i as int) =~= self.in_degree@);
        let mut leaves: usize = 0;
        let mut j: usize = 0;
        while j < self.out_degree.len()
            invariant
                j <= self.out_degree@.len(),
                leaves <= j,
                leaves == count_leaves(self.out_degree@.take(j as int)),
            decreases self.out_degree@.len() - j,
        {
            assert(self.out_degree@.take(j + 1).drop_last() =~= self.out_degree@.take(j as int));
            if self.out_degree[j].1 == 0 {
                leaves = leaves + 1;
            }
            j = j + 1;
        }
        assert(self.out_degree@.take(j as int) =~= self.out_degree@);
        let mut deepest: usize = 0;
        let mut k: usize = 0;
        while k < self.depth_map.len()
            invariant
                k <= self.depth_map@.len(),
                deepest == max_value(self.depth_map@.take(k as int)),
            decreases self.depth_map@.len() - k,
        {
            assert(self.depth_map@.take(k + 1).drop_last() =~= self.depth_map@.take(k as int));
            if self.depth_map[k].1 > deepest {
                deepest = self.depth_map[k].1;
            }
            k = k + 1;
        }
        assert(self.depth_map@.take(k as int) =~= self.depth_map@);
        DagCounts {
            total_nodes: self.nodes.len(),
            total_edges: self.edges.len(),
            shared_nodes: shared,
            leaf_nodes: leaves,
            max_depth: deepest,
        }
    }

    /// Render the graph in Graphviz DOT format: a header, one line per node
    /// in order (`node_<i>`, labelled with its type, size and URI, the root
    /// emphasised), a blank line, one line per edge, and the closing brace
    pub fn to_dot(&self) -> (r: String)
        ensures
            r@ == dot_text(*self),
    {
        let mut dot = String::new();
        push_str(&mut dot, "digraph MFAS {\n");
        push_str(&mut dot, "    rankdir=TB;\n");
        push_str(
            &mut dot,
            "    node [fontname=\"Helvetica,Arial,sans-serif\", fontsize=10, shape=box, style=\"filled,rounded\", penwidth=1.5];\n",
        );
        push_str(
            &mut dot,
            "    edge [fontname=\"Helvetica,Arial,sans-serif\", fontsize=8, color=\"#555555\", arrowsize=0.8];\n\n",
        );
        let ghost ns = node_pairs(self.nodes@);
        assert(dot@ =~= dot_header() + dot_nodes(ns.take(0), self.root@));
        let mut i: usize = 0;
        while i < self.nodes.len()
            invariant
                i <= self.nodes@.len(),
                ns == node_pairs(self.nodes@),
                dot@ == dot_header() + dot_nodes(ns.take(i as int), self.root@),
            decreases self.nodes@.len() - i,
        {
            let ghost before = dot@;
            push_node_line(&mut dot, i, &self.nodes[i].0, &self.nodes[i].1, &self.root);
            proof {
                let t = ns.take(i + 1);
                assert(t.drop_last() =~= ns.take(i as int));
                assert(t.last() == (self.nodes@[i as int].0@, self.nodes@[i as int].1@));
                assert(dot@ =~= dot_header() + dot_nodes(t, self.root@));
            }
            i = i + 1;
        }
        assert(ns.take(i as int) =~= ns);
        push_str(&mut dot, "\n");
        let ghost es = edge_pairs(self.edges@);
        let ghost keys = keys_of(self.nodes@);
        let ghost mid = dot@;
        assert(dot@ =~= mid + dot_edges(keys, es.take(0)));
        let mut j: usize = 0;
        while j < self.edges.len()
            invariant
                j <= self.edges@.len(),
                es == edge_pairs(self.edges@),
                keys == keys_of(self.nodes@),
                dot@ == mid + dot_edges(keys, es.take(j as int)),
            decreases self.edges@.len() - j,
        {
            let from = find_key(&self.nodes, &self.edges[j].0);
            let to = find_key(&self.nodes, &self.edges[j].1);
            proof {
                lemma_first_index(self.nodes@, self.edges@[j as int].0@, from);
                lemma_first_index(self.nodes@, self.edges@[j as int].1@, to);
            }
            let ghost before = dot@;
            match (from, to) {
                (Some(f), Some(t)) => {
                    push_str(&mut dot, "    node_");
                    push_decimal(&mut dot, f as u64);
                    push_str(&mut dot, " -> node_");
                    push_decimal(&mut dot, t as u64);
                    push_str(&mut dot, ";\n");
                },
                _ => {},
            }
            proof {
                let t = es.take(j + 1);
                assert(t.drop_last() =~= es.take(j as int));
                assert(t.last() == (self.edges@[j as int].0@, self.edges@[j as int].1@));
                assert(dot@ =~= before + dot_edge_line(keys, t.last()));
                assert(dot@ =~= mid + dot_edges(keys, t));
            }
            j = j + 1;
        }
        assert(es.take(j as int) =~= es);
        push_str(&mut dot, "}\n");
        dot
    }
}


/// What the optimisation carries from step to step: the store's contents,
/// the result already found for each address, and the transformations made
pub struct OptState {
    pub st: Map<AddressView, NodeView>,
    pub memo: Map<AddressView, AddressView>,
    pub log: Seq<Seq<char>>,
}

/// The outcome of optimising one address within a recursion budget
pub enum OptRun {
    Ran(Result<AddressView, CoreError>, OptState),
    Exhausted,
}

/// The outcome of optimising a list of addresses within a recursion budget
pub enum ListRun {
    Ran(Result<Seq<AddressView>, CoreError>, OptState),
    Exhausted,
}

/// The state with one more transformation logged
pub open spec fn logged(s: OptState, line: Seq<char>) -> OptState {
    OptState { st: s.st, memo: s.memo, log: s.log.push(line) }
}

/// The state with `a` recorded as optimised to `b`
pub open spec fn memoized(s: OptState, a: AddressView, b: AddressView) -> OptState {
    OptState { st: s.st, memo: s.memo.insert(a, b), log: s.log }
}

/// Store the optimised node `n` of `a` under its own address, which is the result
pub open spec fn finish(s: OptState, a: AddressView, n: NodeView) -> OptRun {
    match spec_node_address(n) {
        Ok(r) => OptRun::Ran(Ok(r), OptState { st: s.st.insert(r, n), memo: s.memo.insert(a, r), log: s.log }),
        Err(e) => OptRun::Ran(Err(CoreError::Node(e)), s),
    }
}

/// `a * b`, or `u64::MAX` where that does not fit
pub open spec fn mul_or_max(a: u64, b: u64) -> u64 {
    if a * b > u64::MAX {
        u64::MAX
    } else {
        (a * b) as u64
    }
}

/// The children, with each child that is a sequence replaced by its own
/// children; and the transformations that logs
pub open spec fn flatten(st: Map<AddressView, NodeView>, cs: Seq<AddressView>) -> (Seq<AddressView>, Seq<Seq<char>>)
    decreases cs.len(),
{
    if cs.len() == 0 {
        (Seq::empty(), Seq::empty())
    } else {
        let p = flatten(st, cs.drop_last());
        match lookup(st, cs.last()) {
            Some(NodeView::Sequence(sub)) => (
                p.0 + sub,
                p.1.push("Flattened nested sequence with "@ + decimal(sub.len()) + " children"@),
            ),
            _ => (p.0.push(cs.last()), p.1),
        }
    }
}

/// What an optimised child stands for as repetitions of one address: the
/// target and count of a repeat node of count two or more, else the child
/// itself once
pub open spec fn piece(st: Map<AddressView, NodeView>, a: AddressView) -> (AddressView, nat) {
    match lookup(st, a) {
        Some(NodeView::Repeat { target, count }) => if count >= 2 {
            (target, count as nat)
        } else {
            (a, 1nat)
        },
        _ => (a, 1nat),
    }
}

/// The runs of adjacent children that repeat one address: each with that
/// address, the number of repetitions in all, and its children. A run ends
/// where one more child would take its count past `u64::MAX`.
pub open spec fn fold_runs(st: Map<AddressView, NodeView>, cs: Seq<AddressView>) -> Seq<(AddressView, nat, Seq<AddressView>)>
    decreases cs.len(),
{
    if cs.len() == 0 {
        Seq::empty()
    } else {
        let r = fold_runs(st, cs.drop_last());
        let x = cs.last();
        let p = piece(st, x);
        if r.len() > 0 && r.last().0 == p.0 && r.last().1 + p.1 <= u64::MAX {
            r.update(r.len() - 1, (p.0, r.last().1 + p.1, r.last().2.push(x)))
        } else {
            r.push((p.0, p.1, seq![x]))
        }
    }
}

/// What the optimisation keeps of a run: its address, its count, how many
/// children it has and its first child
pub open spec fn run_shape(r: (AddressView, nat, Seq<AddressView>)) -> (AddressView, nat, nat, AddressView) {
    (r.0, r.1, r.2.len(), r.2[0])
}

/// The shapes of runs
pub open spec fn run_shapes(runs: Seq<(AddressView, nat, Seq<AddressView>)>) -> Seq<(AddressView, nat, nat, AddressView)> {
    runs.map_values(|r: (AddressView, nat, Seq<AddressView>)| run_shape(r))
}

/// The repeat node that stands for a run
pub open spec fn run_repeat(r: (AddressView, nat, nat, AddressView)) -> NodeView {
    NodeView::Repeat { target: r.0, count: r.1 as u64 }
}

/// The address that stands for a run: its child for a run of one child,
/// else the address of its repeat node
pub open spec fn run_addr(r: (AddressView, nat, nat, AddressView)) -> AddressView {
    if r.2 == 1 {
        r.3
    } else {
        spec_node_address(run_repeat(r))->Ok_0
    }
}

/// The addresses that stand for runs
pub open spec fn run_addrs(runs: Seq<(AddressView, nat, nat, AddressView)>) -> Seq<AddressView> {
    runs.map_values(|r: (AddressView, nat, nat, AddressView)| run_addr(r))
}

/// The state after storing the repeat node of each run of more than one
/// child, in order
pub open spec fn put_runs(s: OptState, runs: Seq<(AddressView, nat, nat, AddressView)>) -> OptState
    decreases runs.len(),
{
    if runs.len() == 0 {
        s
    } else {
        let s0 = put_runs(s, runs.drop_last());
        let r = runs.last();
        if r.2 == 1 {
            s0
        } else {
            OptState {
                st: s0.st.insert(run_addr(r), run_repeat(r)),
                memo: s0.memo,
                log: s0.log.push("Folded "@ + decimal(r.2) + "x adjacent occurrences into Repeat"@),
            }
        }
    }
}

/// The end of optimising the sequence `a` whose children were optimised to
/// `ocs`: flatten, fold the runs, then collapse what is empty or single
pub open spec fn seq_finish(s: OptState, a: AddressView, ocs: Seq<AddressView>) -> OptRun {
    let fl = flatten(s.st, ocs);
    let s2 = OptState { st: s.st, memo: s.memo, log: s.log + fl.1 };
    let runs = run_shapes(fold_runs(s.st, fl.0));
    let s3 = put_runs(s2, runs);
    let folded = run_addrs(runs);
    if folded.len() == 0 {
        finish(logged(s3, "Empty sequence collapsed to empty Data node"@), a, NodeView::Data(Seq::empty()))
    } else if folded.len() == 1 {
        OptRun::Ran(
            Ok(folded[0]),
            memoized(logged(s3, "Collapsed single-child sequence to "@ + spec_uri(folded[0])), a, folded[0]),
        )
    } else {
        finish(s3, a, NodeView::Sequence(folded))
    }
}

/// The length of a node's content when it is a data or page node
pub open spec fn full_length(n: Option<NodeView>) -> Option<nat> {
    match n {
        Some(NodeView::Data(b)) => Some(b.len()),
        Some(NodeView::Page(d)) => Some(d.len()),
        _ => None,
    }
}

/// Common subexpression elimination and structural reduction of the graph
/// below `a`, with at most `fuel` nested steps: a memoised address gives its
/// result; a missing node is kept; otherwise the node's children are
/// optimised first, then the node is reduced (reference chains collapsed,
/// zero and single repeats removed, nested repeats merged, zero-length and
/// full-range slices removed, sequences flattened and folded) and stored
pub open spec fn opt_node(s: OptState, a: AddressView, fuel: nat) -> OptRun
    decreases fuel, 0int, 0int,
{
    if s.memo.contains_key(a) {
        OptRun::Ran(Ok(s.memo[a]), s)
    } else if fuel == 0 {
        OptRun::Exhausted
    } else {
        match lookup(s.st, a) {
            None => OptRun::Ran(Ok(a), s),
            Some(n) => match n {
                NodeView::Data(_) => finish(s, a, n),
                NodeView::Page(_) => finish(s, a, n),
                NodeView::Reference(t) => match opt_node(s, t, (fuel - 1) as nat) {
                    OptRun::Ran(Ok(ot), s1) => if s1.st.contains_key(ot) && s1.st[ot] is Reference {
                        let sub = s1.st[ot]->Reference_0;
                        finish(logged(s1, "Collapsed reference chain to "@ + spec_uri(sub)), a, NodeView::Reference(sub))
                    } else {
                        finish(s1, a, NodeView::Reference(ot))
                    },
                    other => other,
                },
                NodeView::Repeat { target, count } => if count == 0 {
                    finish(logged(s, "Collapsed zero-repeat to empty Data node"@), a, NodeView::Data(Seq::empty()))
                } else {
                    match opt_node(s, target, (fuel - 1) as nat) {
                        OptRun::Ran(Ok(ot), s1) => if count == 1 {
                            OptRun::Ran(Ok(ot), memoized(logged(s1, "Collapsed 1x Repeat to target "@ + spec_uri(ot)), a, ot))
                        } else {
                            match lookup(s1.st, ot) {
                                Some(NodeView::Repeat { target: sub, count: sc }) => {
                                    let total = mul_or_max(count, sc);
                                    finish(
                                        logged(
                                            s1,
                                            "Merged nested repeats ("@ + decimal(count as nat) + "x * "@ + decimal(sc as nat)
                                                + "x = "@ + decimal(total as nat) + "x)"@,
                                        ),
                                        a,
                                        NodeView::Repeat { target: sub, count: total },
                                    )
                                },
                                _ => finish(s1, a, NodeView::Repeat { target: ot, count }),
                            }
                        },
                        other => other,
                    }
                },
                NodeView::Slice { target, offset, length } => if length == 0 {
                    finish(logged(s, "Collapsed zero-length slice to empty Data node"@), a, NodeView::Data(Seq::empty()))
                } else {
                    match opt_node(s, target, (fuel - 1) as nat) {
                        OptRun::Ran(Ok(ot), s1) => match full_length(lookup(s1.st, ot)) {
                            Some(total) if offset == 0 && length >= total => OptRun::Ran(
                                Ok(ot),
                                memoized(logged(s1, "Eliminated redundant full-range slice on "@ + spec_uri(ot)), a, ot),
                            ),
                            _ => finish(s1, a, NodeView::Slice { target: ot, offset, length }),
                        },
                        other => other,
                    }
                },
                NodeView::Sequence(cs) => match opt_list(s, cs, 0, (fuel - 1) as nat) {
                    ListRun::Ran(Ok(ocs), s1) => seq_finish(s1, a, ocs),
                    ListRun::Ran(Err(e), s1) => OptRun::Ran(Err(e), s1),
                    ListRun::Exhausted => OptRun::Exhausted,
                },
            },
        }
    }
}

/// Optimise `cs[i..]` in order, threading the state
pub open spec fn opt_list(s: OptState, cs: Seq<AddressView>, i: int, fuel: nat) -> ListRun
    decreases fuel, 1int, cs.len() - i,
{
    if i < 0 || i >= cs.len() {
        ListRun::Ran(Ok(Seq::empty()), s)
    } else {
        match opt_node(s, cs[i], fuel) {
            OptRun::Ran(Ok(x), s1) => match opt_list(s1, cs, i + 1, fuel) {
                ListRun::Ran(Ok(rest), s2) => ListRun::Ran(Ok(seq![x] + rest), s2),
                other => other,
            },
            OptRun::Ran(Err(e), s1) => ListRun::Ran(Err(e), s1),
            OptRun::Exhausted => ListRun::Exhausted,
        }
    }
}

/// The outcome of optimising `root` over the store contents `st`, within
/// `usize::MAX` nested steps
#[verifier::opaque]
pub open spec fn opt_outcome(st: Map<AddressView, NodeView>, root: AddressView) -> OptRun {
    opt_node(OptState { st, memo: Map::empty(), log: Seq::empty() }, root, usize::MAX as nat)
}

/// `g` is a graph that `build_dag` gives for `root` over the store contents `st`
#[verifier::opaque]
pub open spec fn graph_of(st: Map<AddressView, NodeView>, root: AddressView, g: DagGraph) -> bool {
    &&& dag_shape(g)
    &&& g.root@ == root
    &&& forall|i: int| 0 <= i < g.nodes@.len() ==> (#[trigger] g.nodes@[i]).1@ == node_or_empty(st, g.nodes@[i].0@)
}


/// The map that a memo list stands for: later entries override earlier ones
pub open spec fn memo_map(v: Seq<(Address, Address)>) -> Map<AddressView, AddressView>
    decreases v.len(),
{
    if v.len() == 0 {
        Map::empty()
    } else {
        memo_map(v.drop_last()).insert(v.last().0@, v.last().1@)
    }
}

/// The optimisation state that the store contents, memo list and log stand for
pub open spec fn state_of(st: Map<AddressView, NodeView>, memo: Seq<(Address, Address)>, log: Seq<String>) -> OptState {
    OptState { st, memo: memo_map(memo), log: texts(log) }
}

/// The model of an optimisation result
pub open spec fn res_view(r: Result<Address, CoreError>) -> Result<AddressView, CoreError> {
    match r {
        Ok(a) => Ok(a@),
        Err(e) => Err(e),
    }
}

/// A list outcome with `p` put before the addresses it gives
pub open spec fn prefix_run(p: Seq<AddressView>, l: ListRun) -> ListRun {
    match l {
        ListRun::Ran(Ok(rest), s) => ListRun::Ran(Ok(p + rest), s),
        other => other,
    }
}

/// The models of a list of run shapes
pub open spec fn run_views(v: Seq<(Address, u64, usize, Address)>) -> Seq<(AddressView, nat, nat, AddressView)> {
    v.map_values(|e: (Address, u64, usize, Address)| (e.0@, e.1 as nat, e.2 as nat, e.3@))
}

proof fn lemma_memo_has(v: Seq<(Address, Address)>, i: int)
    requires
        keys_of(v).no_duplicates(),
        0 <= i < v.len(),
    ensures
        memo_map(v).contains_key(v[i].0@),
        memo_map(v)[v[i].0@] == v[i].1@,
    decreases v.len(),
{
    if i < v.len() - 1 {
        let v0 = v.drop_last();
        assert forall|a: int, b: int| 0 <= a < b < keys_of(v0).len() implies keys_of(v0)[a] != keys_of(v0)[b] by {
            assert(keys_of(v0)[a] == keys_of(v)[a] && keys_of(v0)[b] == keys_of(v)[b]);
        }
        assert(v0[i] == v[i]);
        lemma_memo_has(v0, i);
        assert(keys_of(v)[i] != keys_of(v)[v.len() - 1]);
    }
}

proof fn lemma_memo_missing(v: Seq<(Address, Address)>, k: AddressView)
    requires
        !keys_of(v).contains(k),
    ensures
        !memo_map(v).contains_key(k),
    decreases v.len(),
{
    if v.len() > 0 {
        let v0 = v.drop_last();
        assert(!keys_of(v0).contains(k)) by {
            if keys_of(v0).contains(k) {
                let t = choose|t: int| 0 <= t < keys_of(v0).len() && keys_of(v0)[t] == k;
                assert(keys_of(v)[t] == k);
            }
        }
        lemma_memo_missing(v0, k);
        assert(keys_of(v)[v.len() - 1] != k);
    }
}

proof fn lemma_memo_update(v: Seq<(Address, Address)>, i: int, e: (Address, Address))
    requires
        keys_of(v).no_duplicates(),
        0 <= i < v.len(),
        e.0@ == v[i].0@,
    ensures
        memo_map(v.update(i, e)) == memo_map(v).insert(e.0@, e.1@),
    decreases v.len(),
{
    let v2 = v.update(i, e);
    if i == v.len() - 1 {
        assert(v2.drop_last() =~= v.drop_last());
        assert(memo_map(v2) =~= memo_map(v).insert(e.0@, e.1@));
    } else {
        let v0 = v.drop_last();
        assert(v2.drop_last() =~= v0.update(i, e));
        assert forall|a: int, b: int| 0 <= a < b < keys_of(v0).len() implies keys_of(v0)[a] != keys_of(v0)[b] by {
            assert(keys_of(v0)[a] == keys_of(v)[a] && keys_of(v0)[b] == keys_of(v)[b]);
        }
        assert(v0[i] == v[i]);
        lemma_memo_update(v0, i, e);
        assert(keys_of(v)[i] != keys_of(v)[v.len() - 1]);
        assert(memo_map(v2) =~= memo_map(v).insert(e.0@, e.1@));
    }
}

/// The result recorded for `a`, if any
fn memo_get(memo: &Vec<(Address, Address)>, a: &Address) -> (r: Option<Address>)
    requires
        keys_of(memo@).no_duplicates(),
    ensures
        r matches Some(b) ==> memo_map(memo@).contains_key(a@) && memo_map(memo@)[a@] == b@,
        r is None ==> !memo_map(memo@).contains_key(a@),
{
    match find_key(memo, a) {
        Some(i) => {
            proof {
                lemma_memo_has(memo@, i as int);
            }
            Some(memo[i].1.clone())
        },
        None => {
            proof {
                lemma_memo_missing(memo@, a@);
            }
            None
        },
    }
}

/// Record `b` as the result for `a`, replacing what was recorded
fn memo_put(memo: &mut Vec<(Address, Address)>, a: &Address, b: &Address)
    requires
        keys_of(old(memo)@).no_duplicates(),
    ensures
        keys_of(final(memo)@).no_duplicates(),
        memo_map(final(memo)@) == memo_map(old(memo)@).insert(a@, b@),
{
    let e = (a.clone(), b.clone());
    let ghost eg = e;
    let ghost v0 = memo@;
    match find_key(memo, a) {
        Some(i) => {
            memo.set(i, e);
            proof {
                lemma_memo_update(v0, i as int, eg);
                lemma_keys_set(v0, i as int, eg);
            }
        },
        None => {
            memo.push(e);
            proof {
                lemma_keys_push(v0, eg);
                assert(memo@.drop_last() =~= v0);
            }
        },
    }
}

/// The node of an address: the stored one, else the one its address describes
fn fetch_or_parse<S: AddressStore>(addr: &Address, store: &S) -> (r: Option<Node>)
    ensures
        store.reliable() ==> opt_view(r) == lookup(store.contents(), addr@),
{
    match store.get(addr) {
        Ok(Some(n)) => Some(n),
        _ => match Node::from_address(addr) {
            Ok(n) => Some(n),
            Err(_) => None,
        },
    }
}

/// The target of the reference node stored under `addr`, if one is stored there
fn stored_reference<S: AddressStore>(addr: &Address, store: &S) -> (r: Option<Address>)
    ensures
        store.reliable() ==> match r {
            Some(t) => store.contents().contains_key(addr@) && store.contents()[addr@] == NodeView::Reference(t@),
            None => !(store.contents().contains_key(addr@) && store.contents()[addr@] is Reference),
        },
{
    match store.get(addr) {
        Ok(Some(Node::Reference(t))) => Some(t),
        _ => None,
    }
}

/// A string holding the characters of a literal
fn text_of(s: &str) -> (r: String)
    ensures
        r@ == s@,
{
    let mut r = String::new();
    push_str(&mut r, s);
    r
}

/// A literal followed by the URI of `a`
fn line_with_uri(prefix: &str, a: &Address) -> (r: String)
    ensures
        r@ == prefix@ + spec_uri(a@),
{
    let mut r = String::new();
    push_str(&mut r, prefix);
    let u = a.to_uri();
    push_str(&mut r, u.as_str());
    r
}

/// The log line of two merged repeats
fn merged_line(count: u64, sub: u64, total: u64) -> (r: String)
    ensures
        r@ == "Merged nested repeats ("@ + decimal(count as nat) + "x * "@ + decimal(sub as nat) + "x = "@ + decimal(
            total as nat,
        ) + "x)"@,
{
    let mut r = String::new();
    push_str(&mut r, "Merged nested repeats (");
    push_decimal(&mut r, count);
    push_str(&mut r, "x * ");
    push_decimal(&mut r, sub);
    push_str(&mut r, "x = ");
    push_decimal(&mut r, total);
    push_str(&mut r, "x)");
    r
}

/// The log line of a flattened sequence
fn flattened_line(n: usize) -> (r: String)
    ensures
        r@ == "Flattened nested sequence with "@ + decimal(n as nat) + " children"@,
{
    let mut r = String::new();
    push_str(&mut r, "Flattened nested sequence with ");
    push_decimal(&mut r, n as u64);
    push_str(&mut r, " children");
    r
}

/// The log line of a folded run
fn folded_line(c: u64) -> (r: String)
    ensures
        r@ == "Folded "@ + decimal(c as nat) + "x adjacent occurrences into Repeat"@,
{
    let mut r = String::new();
    push_str(&mut r, "Folded ");
    push_decimal(&mut r, c);
    push_str(&mut r, "x adjacent occurrences into Repeat");
    r
}

/// Append copies of `src` to `dst`
fn extend_addresses(dst: &mut Vec<Address>, src: &Vec<Address>)
    ensures
        addr_views(final(dst)@) == addr_views(old(dst)@) + addr_views(src@),
{
    let ghost d0 = addr_views(dst@);
    let mut j: usize = 0;
    while j < src.len()
        invariant
            j <= src@.len(),
            addr_views(dst@) == d0 + addr_views(src@).take(j as int),
        decreases src@.len() - j,
    {
        let ghost before = dst@;
        let c = src[j].clone();
        dst.push(c);
        proof {
            assert(addr_views(dst@) =~= addr_views(before).push(src@[j as int]@));
            assert(addr_views(src@).take(j + 1) =~= addr_views(src@).take(j as int).push(src@[j as int]@));
        }
        j = j + 1;
        assert(addr_views(dst@) =~= d0 + addr_views(src@).take(j as int));
    }
    assert(addr_views(src@).take(j as int) =~= addr_views(src@));
}

/// Store `node`, the optimised node of `addr`, under its own address and
/// record that address as the result for `addr`
fn finish_node<S: AddressStore>(
    addr: &Address,
    node: Node,
    store: &mut S,
    memo: &mut Vec<(Address, Address)>,
    Ghost(log): Ghost<Seq<Seq<char>>>,
    Ghost(st0): Ghost<Map<AddressView, NodeView>>,
) -> (r: Result<Address, CoreError>)
    requires
        keys_of(old(memo)@).no_duplicates(),
        writes_self_described(st0, old(store).contents()),
    ensures
        final(store).reliable() == old(store).reliable(),
        keys_of(final(memo)@).no_duplicates(),
        writes_self_described(st0, final(store).contents()),
        old(store).reliable() ==> finish(OptState { st: old(store).contents(), memo: memo_map(old(memo)@), log }, addr@, node@)
            == OptRun::Ran(res_view(r), OptState { st: final(store).contents(), memo: memo_map(final(memo)@), log }),
{
    let ghost nv = node@;
    let ghost stb = store.contents();
    match node.to_address() {
        Ok(ra) => {
            match store.put(&ra, node) {
                Ok(()) => {},
                Err(e) => {
                    return Err(e);
                },
            }
            proof {
                lemma_writes_insert(stb, ra@, nv);
                lemma_writes_trans(st0, stb, store.contents());
            }
            memo_put(memo, addr, &ra);
            Ok(ra)
        },
        Err(e) => Err(CoreError::Node(e)),
    }
}

/// Every entry of `st` that `st0` does not hold (new, or with another node)
/// holds the node that its address describes
pub open spec fn writes_self_described(st0: Map<AddressView, NodeView>, st: Map<AddressView, NodeView>) -> bool {
    forall|a: AddressView|
        #![trigger st[a]]
        st.contains_key(a) && !(st0.contains_key(a) && st[a] == st0[a]) ==> spec_node_address(st[a]) == Ok::<
            AddressView,
            NodeError,
        >(a)
}

pub(crate) proof fn lemma_writes_trans(s0: Map<AddressView, NodeView>, s1: Map<AddressView, NodeView>, s2: Map<AddressView, NodeView>)
    requires
        writes_self_described(s0, s1),
        writes_self_described(s1, s2),
    ensures
        writes_self_described(s0, s2),
{
    assert forall|a: AddressView| s2.contains_key(a) && !(s0.contains_key(a) && s2[a] == s0[a]) implies spec_node_address(
        #[trigger] s2[a],
    ) == Ok::<AddressView, NodeError>(a) by {
        if s1.contains_key(a) && s2[a] == s1[a] {
            assert(s1[a] == s2[a]);
        }
    }
}

pub(crate) proof fn lemma_writes_insert(st: Map<AddressView, NodeView>, r: AddressView, n: NodeView)
    requires
        spec_node_address(n) == Ok::<AddressView, NodeError>(r),
    ensures
        writes_self_described(st, st.insert(r, n)),
{
}

/// The error of an optimisation that runs past its recursion budget
pub open spec fn depth_error() -> CoreError {
    CoreError::Resolve(ResolveError::MaxDepthExceeded { limit: usize::MAX, current: usize::MAX })
}

/// The error of an optimisation that runs past its recursion budget
fn depth_exceeded() -> (e: CoreError)
    ensures
        e == depth_error(),
{
    CoreError::Resolve(ResolveError::MaxDepthExceeded { limit: usize::MAX, current: usize::MAX })
}

/// The optimisation of `a` from `s` within `fuel` gives `r` and the state
/// `s2`, or it runs out of budget and `r` is the depth error
#[verifier::opaque]
spec fn opt_agrees(s: OptState, a: AddressView, fuel: nat, r: Result<AddressView, CoreError>, s2: OptState) -> bool {
    match opt_node(s, a, fuel) {
        OptRun::Ran(x, t) => x == r && t == s2,
        OptRun::Exhausted => r == Err::<AddressView, CoreError>(depth_error()),
    }
}

/// The optimisation of the list `cs` from `s` within `fuel` gives `r` and the
/// state `s2`, or it runs out of budget and `r` is the depth error
#[verifier::opaque]
spec fn list_agrees(
    s: OptState,
    cs: Seq<AddressView>,
    fuel: nat,
    r: Result<Seq<AddressView>, CoreError>,
    s2: OptState,
) -> bool {
    match opt_list(s, cs, 0, fuel) {
        ListRun::Ran(x, t) => x == r && t == s2,
        ListRun::Exhausted => r == Err::<Seq<AddressView>, CoreError>(depth_error()),
    }
}

/// Optimise the graph below `addr` (see `opt_node`), with at most `budget`
/// nested steps
#[verifier::spinoff_prover]
#[verifier::rlimit(30)]
fn optimize_node<S: AddressStore>(
    addr: &Address,
    store: &mut S,
    log: &mut Vec<String>,
    memo: &mut Vec<(Address, Address)>,
    budget: usize,
) -> (r: Result<Address, CoreError>)
    requires
        keys_of(old(memo)@).no_duplicates(),
    ensures
        final(store).reliable() == old(store).reliable(),
        keys_of(final(memo)@).no_duplicates(),
        writes_self_described(old(store).contents(), final(store).contents()),
        old(store).reliable() ==> opt_agrees(
            state_of(old(store).contents(), old(memo)@, old(log)@),
            addr@,
            budget as nat,
            res_view(r),
            state_of(final(store).contents(), final(memo)@, final(log)@),
        ),
    decreases budget, 1int,
{
    reveal(opt_agrees);
    let ghost s0 = state_of(store.contents(), memo@, log@);
    let ghost st0 = store.contents();
    match memo_get(memo, addr) {
        Some(b) => {
            return Ok(b);
        },
        None => {},
    }
    if budget == 0 {
        return Err(depth_exceeded());
    }
    let node = match fetch_or_parse(addr, store) {
        Some(n) => n,
        None => {
            return Ok(addr.clone());
        },
    };
    let f1: usize = budget - 1;
    match node {
        Node::Data(b) => finish_node(addr, Node::Data(b), store, memo, Ghost(texts(log@)), Ghost(st0)),
        Node::Page(p) => finish_node(addr, Node::Page(p), store, memo, Ghost(texts(log@)), Ghost(st0)),
        Node::Reference(target) => {
            let ot = match optimize_node(&target, store, log, memo, f1) {
                Ok(a) => a,
                Err(e) => {
                    return Err(e);
                },
            };
            let ghost s1 = state_of(store.contents(), memo@, log@);
            let out = match stored_reference(&ot, store) {
                Some(sub) => {
                    let line = line_with_uri("Collapsed reference chain to ", &sub);
                    log.push(line);
                    assert(texts(log@) =~= s1.log.push("Collapsed reference chain to "@ + spec_uri(sub@)));
                    Node::Reference(sub)
                },
                None => Node::Reference(ot),
            };
            finish_node(addr, out, store, memo, Ghost(texts(log@)), Ghost(st0))
        },
        Node::Repeat { target, count } => {
            if count == 0 {
                log.push(text_of("Collapsed zero-repeat to empty Data node"));
                assert(texts(log@) =~= s0.log.push("Collapsed zero-repeat to empty Data node"@));
                let empty = Node::Data(Vec::new());
                assert(empty@ == NodeView::Data(Seq::empty()));
                return finish_node(addr, empty, store, memo, Ghost(texts(log@)), Ghost(st0));
            }
            let ot = match optimize_node(&target, store, log, memo, f1) {
                Ok(a) => a,
                Err(e) => {
                    return Err(e);
                },
            };
            let ghost s1 = state_of(store.contents(), memo@, log@);
            if count == 1 {
                log.push(line_with_uri("Collapsed 1x Repeat to target ", &ot));
                assert(texts(log@) =~= s1.log.push("Collapsed 1x Repeat to target "@ + spec_uri(ot@)));
                memo_put(memo, addr, &ot);
                return Ok(ot);
            }
            let out = match fetch_or_parse(&ot, store) {
                Some(Node::Repeat { target: sub, count: sc }) => {
                    let total = match count.checked_mul(sc) {
                        Some(t) => t,
                        None => u64::MAX,
                    };
                    log.push(merged_line(count, sc, total));
                    assert(texts(log@) =~= s1.log.push(
                        "Merged nested repeats ("@ + decimal(count as nat) + "x * "@ + decimal(sc as nat) + "x = "@
                            + decimal(total as nat) + "x)"@,
                    ));
                    Node::Repeat { target: sub, count: total }
                },
                _ => Node::Repeat { target: ot, count },
            };
            finish_node(addr, out, store, memo, Ghost(texts(log@)), Ghost(st0))
        },
        Node::Slice { target, offset, length } => {
            if length == 0 {
                log.push(text_of("Collapsed zero-length slice to empty Data node"));
                assert(texts(log@) =~= s0.log.push("Collapsed zero-length slice to empty Data node"@));
                let empty = Node::Data(Vec::new());
                assert(empty@ == NodeView::Data(Seq::empty()));
                return finish_node(addr, empty, store, memo, Ghost(texts(log@)), Ghost(st0));
            }
            let ot = match optimize_node(&target, store, log, memo, f1) {
                Ok(a) => a,
                Err(e) => {
                    return Err(e);
                },
            };
            let ghost s1 = state_of(store.contents(), memo@, log@);
            let full: Option<u64> = match fetch_or_parse(&ot, store) {
                Some(Node::Data(b)) => Some(b.len() as u64),
                Some(Node::Page(p)) => Some(p.len() as u64),
                _ => None,
            };
            assert(store.reliable() ==> full_length(lookup(s1.st, ot@)) == match full {
                Some(t) => Some(t as nat),
                None => None::<nat>,
            });
            match full {
                Some(total) => {
                    if offset == 0 && length >= total {
                        log.push(line_with_uri("Eliminated redundant full-range slice on ", &ot));
                        assert(texts(log@) =~= s1.log.push("Eliminated redundant full-range slice on "@ + spec_uri(ot@)));
                        memo_put(memo, addr, &ot);
                        return Ok(ot);
                    }
                },
                None => {},
            }
            finish_node(addr, Node::Slice { target: ot, offset, length }, store, memo, Ghost(texts(log@)), Ghost(st0))
        },
        Node::Sequence(children) => optimize_sequence(addr, &children, store, log, memo, budget),
    }
}

/// Optimise each of `children` in order (see `opt_list`)
#[verifier::spinoff_prover]
#[verifier::rlimit(60)]
fn optimize_children<S: AddressStore>(
    children: &Vec<Address>,
    store: &mut S,
    log: &mut Vec<String>,
    memo: &mut Vec<(Address, Address)>,
    budget: usize,
) -> (r: Result<Vec<Address>, CoreError>)
    requires
        keys_of(old(memo)@).no_duplicates(),
    ensures
        final(store).reliable() == old(store).reliable(),
        keys_of(final(memo)@).no_duplicates(),
        writes_self_described(old(store).contents(), final(store).contents()),
        old(store).reliable() ==> list_agrees(
            state_of(old(store).contents(), old(memo)@, old(log)@),
            addr_views(children@),
            budget as nat,
            match r {
                Ok(v) => Ok(addr_views(v@)),
                Err(e) => Err(e),
            },
            state_of(final(store).contents(), final(memo)@, final(log)@),
        ),
    decreases budget, 2int,
{
    let ghost cs = addr_views(children@);
    let ghost fuel = budget as nat;
    let ghost exact = store.reliable();
    let ghost st0 = store.contents();
    let ghost s_start = state_of(store.contents(), memo@, log@);
    let mut ocs: Vec<Address> = Vec::new();
    proof {
        lemma_list_start(s_start, cs, fuel);
        assert(addr_views(ocs@) =~= Seq::<AddressView>::empty());
    }
    let mut i: usize = 0;
    while i < children.len()
        invariant
            i <= cs.len(),
            cs == addr_views(children@),
            fuel == budget as nat,
            exact == old(store).reliable(),
            store.reliable() == exact,
            st0 == old(store).contents(),
            writes_self_described(st0, store.contents()),
            keys_of(memo@).no_duplicates(),
            exact ==> list_progress(s_start, cs, fuel, addr_views(ocs@), state_of(store.contents(), memo@, log@), i as int),
            s_start == state_of(old(store).contents(), old(memo)@, old(log)@),
        decreases cs.len() - i,
    {
        let ghost sn = state_of(store.contents(), memo@, log@);
        let ghost stn = store.contents();
        let ghost p = addr_views(ocs@);
        let x = match optimize_node(&children[i], store, log, memo, budget) {
            Ok(x) => x,
            Err(e) => {
                proof {
                    lemma_writes_trans(st0, stn, store.contents());
                    if exact {
                        lemma_list_err(s_start, cs, fuel, p, sn, i as int, e, state_of(store.contents(), memo@, log@));
                    }
                    assert(s_start == state_of(old(store).contents(), old(memo)@, old(log)@));
                }
                return Err(e);
            },
        };
        let ghost sa = state_of(store.contents(), memo@, log@);
        ocs.push(x);
        proof {
            lemma_writes_trans(st0, stn, store.contents());
            assert(addr_views(ocs@) =~= p.push(x@));
            if exact {
                lemma_list_step(s_start, cs, fuel, p, sn, i as int, x@, sa);
            }
        }
        i = i + 1;
    }
    proof {
        if exact {
            lemma_list_end(s_start, cs, fuel, addr_views(ocs@), state_of(store.contents(), memo@, log@));
        }
    }
    Ok(ocs)
}

/// Optimising `cs` from the state `s_start` has come as far as child `i`,
/// in the state `sn`, with the results `p` so far, where the store answers
/// every lookup
#[verifier::opaque]
spec fn list_progress(s_start: OptState, cs: Seq<AddressView>, fuel: nat, p: Seq<AddressView>, sn: OptState, i: int) -> bool {
    opt_list(s_start, cs, 0, fuel) == prefix_run(p, opt_list(sn, cs, i, fuel))
}

/// An error in the next child, or running out of budget there, ends the
/// list optimisation with it
proof fn lemma_list_err(
    s_start: OptState,
    cs: Seq<AddressView>,
    fuel: nat,
    p: Seq<AddressView>,
    sn: OptState,
    i: int,
    e: CoreError,
    sa: OptState,
)
    requires
        0 <= i < cs.len(),
        list_progress(s_start, cs, fuel, p, sn, i),
        opt_agrees(sn, cs[i], fuel, Err(e), sa),
    ensures
        list_agrees(s_start, cs, fuel, Err(e), sa),
{
    reveal(list_progress);
    reveal(opt_agrees);
    reveal(list_agrees);
}

/// A list optimisation that has come past the last child is done
proof fn lemma_list_end(s_start: OptState, cs: Seq<AddressView>, fuel: nat, p: Seq<AddressView>, sn: OptState)
    requires
        list_progress(s_start, cs, fuel, p, sn, cs.len() as int),
    ensures
        list_agrees(s_start, cs, fuel, Ok(p), sn),
{
    reveal(list_progress);
    reveal(list_agrees);
    assert(p + Seq::<AddressView>::empty() =~= p);
}

/// A list optimisation that has not started has come as far as its first child
proof fn lemma_list_start(s: OptState, cs: Seq<AddressView>, fuel: nat)
    ensures
        list_progress(s, cs, fuel, Seq::empty(), s, 0),
{
    reveal(list_progress);
    match opt_list(s, cs, 0, fuel) {
        ListRun::Ran(Ok(rest), s2) => {
            assert(Seq::<AddressView>::empty() + rest =~= rest);
        },
        _ => {},
    }
}

/// One more child optimised: its result joins the prefix
proof fn lemma_list_step(
    s_start: OptState,
    cs: Seq<AddressView>,
    fuel: nat,
    p: Seq<AddressView>,
    sn: OptState,
    i: int,
    x: AddressView,
    sa: OptState,
)
    requires
        0 <= i < cs.len(),
        list_progress(s_start, cs, fuel, p, sn, i),
        opt_agrees(sn, cs[i], fuel, Ok(x), sa),
    ensures
        list_progress(s_start, cs, fuel, p.push(x), sa, i + 1),
{
    reveal(list_progress);
    reveal(opt_agrees);
    match opt_list(sa, cs, i + 1, fuel) {
        ListRun::Ran(Ok(rest), s2) => {
            assert(p + (seq![x] + rest) =~= p.push(x) + rest);
        },
        _ => {},
    }
}

/// Give each run its address: its child for a run of one child, else a
/// stored repeat node, logging each fold
fn emit_runs<S: AddressStore>(runs: &Vec<(Address, u64, usize, Address)>, store: &mut S, log: &mut Vec<String>) -> (r: Result<
    Vec<Address>,
    CoreError,
>)
    requires
        forall|t: int| 0 <= t < runs@.len() ==> 1 <= (#[trigger] runs@[t]).1 && 1 <= runs@[t].2,
    ensures
        final(store).reliable() == old(store).reliable(),
        writes_self_described(old(store).contents(), final(store).contents()),
        old(store).reliable() ==> (r matches Ok(v) && addr_views(v@) == run_addrs(run_views(runs@))),
        old(store).reliable() ==> forall|memo: Seq<(Address, Address)>|
            #![trigger state_of(final(store).contents(), memo, final(log)@)]
            state_of(final(store).contents(), memo, final(log)@) == put_runs(
                state_of(old(store).contents(), memo, old(log)@),
                run_views(runs@),
            ),
{
    let ghost exact = store.reliable();
    let ghost rv = run_views(runs@);
    let ghost st0 = store.contents();
    let ghost log0 = log@;
    let mut folded: Vec<Address> = Vec::new();
    let mut m: usize = 0;
    proof {
        assert(rv.take(0) =~= Seq::<(AddressView, nat, nat, AddressView)>::empty());
        assert(addr_views(folded@) =~= run_addrs(rv.take(0)));
    }
    while m < runs.len()
        invariant
            m <= rv.len(),
            rv == run_views(runs@),
            forall|t: int| 0 <= t < runs@.len() ==> 1 <= (#[trigger] runs@[t]).1 && 1 <= runs@[t].2,
            store.reliable() == exact,
            exact == old(store).reliable(),
            st0 == old(store).contents(),
            log0 == old(log)@,
            writes_self_described(st0, store.contents()),
            exact ==> forall|memo: Seq<(Address, Address)>|
                #![trigger state_of(store.contents(), memo, log@)]
                state_of(store.contents(), memo, log@) == put_runs(state_of(st0, memo, log0), rv.take(m as int)),
            addr_views(folded@) == run_addrs(rv.take(m as int)),
        decreases rv.len() - m,
    {
        let ghost stb = store.contents();
        let ghost lb = log@;
        let ghost fb = addr_views(folded@);
        proof {
            assert(rv.take(m + 1).drop_last() =~= rv.take(m as int));
            assert(rv.take(m + 1).last() == rv[m as int]);
        }
        let c = runs[m].1;
        let k = runs[m].2;
        if k == 1 {
            folded.push(runs[m].3.clone());
        } else {
            let rep = Node::Repeat { target: runs[m].0.clone(), count: c };
            let rep_addr = match rep.to_address() {
                Ok(a) => a,
                Err(e) => {
                    return Err(CoreError::Node(e));
                },
            };
            let ghost repv = rep@;
            match store.put(&rep_addr, rep) {
                Ok(()) => {},
                Err(e) => {
                    return Err(e);
                },
            }
            proof {
                lemma_writes_insert(stb, rep_addr@, repv);
                lemma_writes_trans(st0, stb, store.contents());
            }
            log.push(folded_line(k as u64));
            folded.push(rep_addr);
        }
        proof {
            let r = rv[m as int];
            assert(addr_views(folded@) =~= fb.push(run_addr(r)));
            assert(run_addrs(rv.take(m + 1)) =~= run_addrs(rv.take(m as int)).push(run_addr(r)));
            assert forall|memo: Seq<(Address, Address)>|
                exact implies #[trigger] state_of(store.contents(), memo, log@) == put_runs(state_of(st0, memo, log0), rv.take(m + 1)) by {
                assert(state_of(stb, memo, lb) == put_runs(state_of(st0, memo, log0), rv.take(m as int)));
                if k != 1 {
                    assert(texts(log@) =~= texts(lb).push("Folded "@ + decimal(k as nat) + "x adjacent occurrences into Repeat"@));
                }
            }
        }
        m = m + 1;
    }
    assert(rv.take(m as int) =~= rv);
    Ok(folded)
}

/// Optimise the sequence node `addr` with the given children: optimise each
/// child, flatten, fold adjacent repeats, then collapse what is empty or single
fn optimize_sequence<S: AddressStore>(
    addr: &Address,
    children: &Vec<Address>,
    store: &mut S,
    log: &mut Vec<String>,
    memo: &mut Vec<(Address, Address)>,
    budget: usize,
) -> (r: Result<Address, CoreError>)
    requires
        keys_of(old(memo)@).no_duplicates(),
        budget > 0,
        !memo_map(old(memo)@).contains_key(addr@),
        old(store).reliable() ==> lookup(old(store).contents(), addr@) == Some(NodeView::Sequence(addr_views(children@))),
    ensures
        final(store).reliable() == old(store).reliable(),
        keys_of(final(memo)@).no_duplicates(),
        writes_self_described(old(store).contents(), final(store).contents()),
        old(store).reliable() ==> opt_agrees(
            state_of(old(store).contents(), old(memo)@, old(log)@),
            addr@,
            budget as nat,
            res_view(r),
            state_of(final(store).contents(), final(memo)@, final(log)@),
        ),
    decreases budget, 0int,
{
    reveal(opt_agrees);
    reveal(list_agrees);
    let ghost exact = store.reliable();
    let ghost st0 = store.contents();
    let ghost cs = addr_views(children@);
    let f1: usize = budget - 1;
    let ocs = match optimize_children(children, store, log, memo, f1) {
        Ok(v) => v,
        Err(e) => {
            return Err(e);
        },
    };
    let ghost s1 = state_of(store.contents(), memo@, log@);
    let ghost ov = addr_views(ocs@);
    // flatten the children that are sequences themselves
    let mut flat: Vec<Address> = Vec::new();
    let mut k: usize = 0;
    assert(ov.take(0) =~= Seq::<AddressView>::empty());
    assert(texts(log@) =~= s1.log + flatten(s1.st, ov.take(0)).1);
    while k < ocs.len()
        invariant
            k <= ov.len(),
            ov == addr_views(ocs@),
            store.reliable() == exact,
            store.contents() == s1.st,
            memo_map(memo@) == s1.memo,
            keys_of(memo@).no_duplicates(),
            writes_self_described(st0, s1.st),
            exact ==> addr_views(flat@) == flatten(s1.st, ov.take(k as int)).0,
            exact ==> texts(log@) == s1.log + flatten(s1.st, ov.take(k as int)).1,
        decreases ov.len() - k,
    {
        let ghost fb = addr_views(flat@);
        let ghost lb = texts(log@);
        proof {
            assert(ov.take(k + 1).drop_last() =~= ov.take(k as int));
            assert(ov.take(k + 1).last() == ov[k as int]);
        }
        match fetch_or_parse(&ocs[k], store) {
            Some(Node::Sequence(sub)) => {
                log.push(flattened_line(sub.len()));
                extend_addresses(&mut flat, &sub);
                assert(texts(log@) =~= lb.push("Flattened nested sequence with "@ + decimal(sub@.len() as nat) + " children"@));
            },
            _ => {
                flat.push(ocs[k].clone());
                assert(addr_views(flat@) =~= fb.push(ov[k as int]));
            },
        }
        k = k + 1;
    }
    assert(ov.take(k as int) =~= ov);
    let ghost s2 = state_of(store.contents(), memo@, log@);
    let ghost fv = addr_views(flat@);
    // fold runs of adjacent children that repeat one address
    let mut runs: Vec<(Address, u64, usize, Address)> = Vec::new();
    let mut j: usize = 0;
    assert(fv.take(0) =~= Seq::<AddressView>::empty());
    assert(run_views(runs@) =~= run_shapes(fold_runs(s2.st, fv.take(0))));
    while j < flat.len()
        invariant
            j <= fv.len(),
            fv == addr_views(flat@),
            store.contents() == s2.st,
            store.reliable() == exact,
            exact ==> run_views(runs@) == run_shapes(fold_runs(s2.st, fv.take(j as int))),
            forall|t: int| 0 <= t < runs@.len() ==> 1 <= (#[trigger] runs@[t]).2 <= j && 1 <= runs@[t].1,
        decreases fv.len() - j,
    {
        let ghost rb = run_views(runs@);
        let ghost fr = fold_runs(s2.st, fv.take(j as int));
        proof {
            assert(fv.take(j + 1).drop_last() =~= fv.take(j as int));
            assert(fv.take(j + 1).last() == fv[j as int]);
        }
        let (base, k): (Address, u64) = match fetch_or_parse(&flat[j], store) {
            Some(Node::Repeat { target, count }) => if count >= 2 {
                (target, count)
            } else {
                (flat[j].clone(), 1)
            },
            _ => (flat[j].clone(), 1),
        };
        assert(exact ==> piece(s2.st, fv[j as int]) == (base@, k as nat));
        let n = runs.len();
        if n > 0 && runs[n - 1].0.same_as(&base) && runs[n - 1].1 <= u64::MAX - k {
            let b0 = runs[n - 1].0.clone();
            let t0 = runs[n - 1].1;
            let m0 = runs[n - 1].2;
            let f0 = runs[n - 1].3.clone();
            runs.set(n - 1, (b0, t0 + k, m0 + 1, f0));
            proof {
                assert(run_views(runs@) =~= rb.update(rb.len() - 1, (base@, rb.last().1 + k as nat, rb.last().2 + 1, rb.last().3)));
                if exact {
                    let fr2 = fold_runs(s2.st, fv.take(j + 1));
                    assert(fr.len() == rb.len());
                    assert(rb.last() == run_shape(fr.last()));
                    assert(fr2 == fr.update(fr.len() - 1, (base@, fr.last().1 + k as nat, fr.last().2.push(fv[j as int]))));
                    assert(fr.last().2.len() >= 1) by {
                        lemma_fold_runs_lossless(s2.st, fv.take(j as int));
                        assert(run_ok(s2.st, fr[fr.len() - 1]));
                    }
                    assert(fr.last().2.push(fv[j as int])[0] == fr.last().2[0]);
                    assert(run_views(runs@) =~= run_shapes(fr2));
                }
            }
        } else {
            runs.push((base, k, 1, flat[j].clone()));
            proof {
                assert(run_views(runs@) =~= rb.push((base@, k as nat, 1nat, fv[j as int])));
                if exact {
                    let fr2 = fold_runs(s2.st, fv.take(j + 1));
                    assert(fr.len() == rb.len());
                    if n > 0 {
                        assert(rb.last() == run_shape(fr.last()));
                    }
                    assert(fr2 == fr.push((base@, k as nat, seq![fv[j as int]])));
                    assert(run_views(runs@) =~= run_shapes(fr2));
                }
            }
        }
        j = j + 1;
    }
    assert(fv.take(j as int) =~= fv);
    let folded = match emit_runs(&runs, store, log) {
        Ok(v) => v,
        Err(e) => {
            return Err(e);
        },
    };
    let ghost s3 = state_of(store.contents(), memo@, log@);
    proof {
        lemma_writes_trans(st0, s2.st, s3.st);
    }
    if folded.len() == 0 {
        log.push(text_of("Empty sequence collapsed to empty Data node"));
        assert(texts(log@) =~= s3.log.push("Empty sequence collapsed to empty Data node"@));
        let empty = Node::Data(Vec::new());
        assert(empty@ == NodeView::Data(Seq::empty()));
        finish_node(addr, empty, store, memo, Ghost(texts(log@)), Ghost(st0))
    } else if folded.len() == 1 {
        let single = folded[0].clone();
        log.push(line_with_uri("Collapsed single-child sequence to ", &single));
        assert(texts(log@) =~= s3.log.push("Collapsed single-child sequence to "@ + spec_uri(single@)));
        memo_put(memo, addr, &single);
        Ok(single)
    } else {
        let ghost fdv = addr_views(folded@);
        let seq_node = Node::Sequence(folded);
        assert(seq_node@ == NodeView::Sequence(fdv));
        finish_node(addr, seq_node, store, memo, Ghost(texts(log@)), Ghost(st0))
    }
}

/// What an optimisation from the empty memo and log agrees with is its outcome
proof fn lemma_outcome_agrees(st: Map<AddressView, NodeView>, root: AddressView, r: Result<AddressView, CoreError>, s2: OptState)
    requires
        opt_agrees(OptState { st, memo: Map::empty(), log: Seq::empty() }, root, usize::MAX as nat, r, s2),
    ensures
        match opt_outcome(st, root) {
            OptRun::Ran(x, t) => x == r && t == s2,
            OptRun::Exhausted => r == Err::<AddressView, CoreError>(depth_error()),
        },
{
    reveal(opt_agrees);
    reveal(opt_outcome);
}

/// Optimise the graph below `root` by common subexpression elimination and
/// structural reductions (see `opt_node`), storing the new nodes; the
/// recursion goes at most `usize::MAX` nodes deep, past which it reports
/// the depth error
#[verifier::spinoff_prover]
#[verifier::rlimit(100)]
pub fn optimize_dag<S: AddressStore>(root: &Address, store: &mut S) -> (r: Result<OptimizationReport, CoreError>)
    ensures
        final(store).reliable() == old(store).reliable(),
        writes_self_described(old(store).contents(), final(store).contents()),
        old(store).reliable() ==> match opt_outcome(old(store).contents(), root@) {
            OptRun::Ran(Ok(o), s) => r matches Ok(rep) && {
                &&& final(store).contents() == s.st
                &&& rep.original_root@ == root@
                &&& rep.optimized_root@ == o
                &&& texts(rep.transformations@) == s.log
                &&& exists|g: DagGraph|
                    #[trigger] graph_of(old(store).contents(), root@, g) && rep.nodes_before == g.nodes@.len()
                        && rep.edges_before == g.edges@.len()
                &&& exists|g: DagGraph|
                    #[trigger] graph_of(s.st, o, g) && rep.nodes_after == g.nodes@.len() && rep.edges_after
                        == g.edges@.len()
            },
            OptRun::Ran(Err(e), s) => r == Err::<OptimizationReport, CoreError>(e) && final(store).contents() == s.st,
            OptRun::Exhausted => r == Err::<OptimizationReport, CoreError>(depth_error()),
        },
{
    let ghost st0 = store.contents();
    let ghost exact = store.reliable();
    let before = match build_dag(root, &*store) {
        Ok(g) => g,
        Err(e) => {
            return Err(e);
        },
    };
    assert(exact ==> graph_of(st0, root@, before)) by {
        reveal(graph_of);
    }
    let mut log: Vec<String> = Vec::new();
    let mut memo: Vec<(Address, Address)> = Vec::new();
    let ghost start = OptState { st: st0, memo: Map::empty(), log: Seq::empty() };
    proof {
        assert(memo_map(memo@) =~= Map::<AddressView, AddressView>::empty());
        assert(texts(log@) =~= Seq::<Seq<char>>::empty());
        assert(keys_of(memo@) =~= Seq::<AddressView>::empty());
        assert(state_of(st0, memo@, log@) == start);
    }
    let res = optimize_node(root, store, &mut log, &mut memo, usize::MAX);
    proof {
        if exact {
            lemma_outcome_agrees(st0, root@, res_view(res), state_of(store.contents(), memo@, log@));
        }
    }
    let optimized = match res {
        Ok(a) => a,
        Err(e) => {
            return Err(e);
        },
    };
    let after = match build_dag(&optimized, &*store) {
        Ok(g) => g,
        Err(e) => {
            return Err(e);
        },
    };
    assert(exact ==> graph_of(store.contents(), optimized@, after)) by {
        reveal(graph_of);
    }
    Ok(
        OptimizationReport {
            original_root: root.clone(),
            optimized_root: optimized,
            nodes_before: before.nodes.len(),
            nodes_after: after.nodes.len(),
            edges_before: before.edges.len(),
            edges_after: after.edges.len(),
            transformations: log,
        },
    )
}


/// The children of runs, one run after another
pub open spec fn run_children(runs: Seq<(AddressView, nat, Seq<AddressView>)>) -> Seq<AddressView>
    decreases runs.len(),
{
    if runs.len() == 0 {
        Seq::empty()
    } else {
        run_children(runs.drop_last()) + runs.last().2
    }
}

/// The repetitions that children stand for in all
pub open spec fn piece_total(st: Map<AddressView, NodeView>, cs: Seq<AddressView>) -> nat
    decreases cs.len(),
{
    if cs.len() == 0 {
        0
    } else {
        piece_total(st, cs.drop_last()) + piece(st, cs.last()).1
    }
}

/// A run of `cs`'s fold: at least one child, each repeating the run's
/// address, as many times in all as the run's count, which fits a `u64`
pub open spec fn run_ok(st: Map<AddressView, NodeView>, r: (AddressView, nat, Seq<AddressView>)) -> bool {
    &&& r.2.len() >= 1
    &&& r.1 == piece_total(st, r.2)
    &&& r.2.len() <= r.1 <= u64::MAX
    &&& forall|j: int| 0 <= j < r.2.len() ==> (#[trigger] piece(st, r.2[j])).0 == r.0
}

/// Folding children into runs loses nothing: the runs' children, one run
/// after another, are the children; each run is sound (see `run_ok`); and
/// two neighbouring runs repeat different addresses, unless the second's
/// first child would take the first's count past `u64::MAX`
pub proof fn lemma_fold_runs_lossless(st: Map<AddressView, NodeView>, cs: Seq<AddressView>)
    ensures
        run_children(fold_runs(st, cs)) == cs,
        forall|i: int| 0 <= i < fold_runs(st, cs).len() ==> run_ok(st, #[trigger] fold_runs(st, cs)[i]),
        forall|i: int|
            0 <= i < fold_runs(st, cs).len() - 1 ==> (#[trigger] fold_runs(st, cs)[i]).0 != fold_runs(st, cs)[i + 1].0
                || fold_runs(st, cs)[i].1 + piece(st, fold_runs(st, cs)[i + 1].2[0]).1 > u64::MAX,
    decreases cs.len(),
{
    if cs.len() > 0 {
        let p = cs.drop_last();
        let x = cs.last();
        let q = piece(st, x);
        lemma_fold_runs_lossless(st, p);
        let r = fold_runs(st, p);
        assert(cs =~= p.push(x));
        assert(q.1 >= 1 && q.1 <= u64::MAX);
        if r.len() > 0 && r.last().0 == q.0 && r.last().1 + q.1 <= u64::MAX {
            let last = r.last();
            let nl = (q.0, last.1 + q.1, last.2.push(x));
            let r2 = r.update(r.len() - 1, nl);
            assert(r2.drop_last() =~= r.drop_last());
            assert(run_children(r) == run_children(r.drop_last()) + last.2);
            assert(run_children(r2) =~= run_children(r).push(x));
            assert(run_ok(st, last));
            assert(last.2.push(x).drop_last() =~= last.2);
            assert(run_ok(st, nl)) by {
                assert forall|j: int| 0 <= j < nl.2.len() implies (#[trigger] piece(st, nl.2[j])).0 == nl.0 by {
                    if j < last.2.len() {
                        assert(nl.2[j] == last.2[j]);
                    }
                }
            }
            assert forall|i: int| 0 <= i < r2.len() implies run_ok(st, #[trigger] r2[i]) by {
                if i < r2.len() - 1 {
                    assert(r2[i] == r[i]);
                }
            }
            assert forall|i: int| 0 <= i < r2.len() - 1 implies (#[trigger] r2[i]).0 != r2[i + 1].0 || r2[i].1 + piece(
                st,
                r2[i + 1].2[0],
            ).1 > u64::MAX by {
                assert(r2[i] == r[i]);
                if i + 1 < r2.len() - 1 {
                    assert(r2[i + 1] == r[i + 1]);
                } else {
                    assert(r2[i + 1].2[0] == last.2[0]);
                }
            }
        } else {
            let nl = (q.0, q.1, seq![x]);
            let r2 = r.push(nl);
            assert(r2.drop_last() =~= r);
            assert(run_children(r2) =~= run_children(r).push(x));
            assert(seq![x].drop_last() =~= Seq::<AddressView>::empty());
            assert(piece_total(st, Seq::<AddressView>::empty()) == 0);
            assert(seq![x].last() == x);
            assert(piece_total(st, seq![x]) == q.1);
            assert forall|i: int| 0 <= i < r2.len() implies run_ok(st, #[trigger] r2[i]) by {
                if i < r2.len() - 1 {
                    assert(r2[i] == r[i]);
                }
            }
            assert forall|i: int| 0 <= i < r2.len() - 1 implies (#[trigger] r2[i]).0 != r2[i + 1].0 || r2[i].1 + piece(
                st,
                r2[i + 1].2[0],
            ).1 > u64::MAX by {
                assert(r2[i] == r[i]);
                if i + 1 < r2.len() - 1 {
                    assert(r2[i + 1] == r[i + 1]);
                } else {
                    assert(r2[i + 1] == nl);
                    assert(r[i] == r.last());
                }
            }
        }
    } else {
        assert(cs =~= Seq::<AddressView>::empty());
    }
}

/// Each address its own run, with its piece
pub open spec fn single_runs(st: Map<AddressView, NodeView>, xs: Seq<AddressView>) -> Seq<(AddressView, nat, Seq<AddressView>)> {
    Seq::new(xs.len(), |i: int| (piece(st, xs[i]).0, piece(st, xs[i]).1, seq![xs[i]]))
}

/// Where no two neighbouring addresses repeat the same address (or would
/// together pass `u64::MAX`), folding leaves each address a run of its own
pub(crate) proof fn lemma_fold_singles(st: Map<AddressView, NodeView>, xs: Seq<AddressView>)
    requires
        forall|i: int|
            0 <= i < xs.len() - 1 ==> (#[trigger] piece(st, xs[i])).0 != piece(st, xs[i + 1]).0 || piece(st, xs[i]).1
                + piece(st, xs[i + 1]).1 > u64::MAX,
    ensures
        fold_runs(st, xs) == single_runs(st, xs),
    decreases xs.len(),
{
    if xs.len() > 0 {
        let p = xs.drop_last();
        assert forall|i: int| 0 <= i < p.len() - 1 implies (#[trigger] piece(st, p[i])).0 != piece(st, p[i + 1]).0 || piece(
            st,
            p[i],
        ).1 + piece(st, p[i + 1]).1 > u64::MAX by {
            assert(p[i] == xs[i] && p[i + 1] == xs[i + 1]);
        }
        lemma_fold_singles(st, p);
        let r = fold_runs(st, p);
        if p.len() > 0 {
            assert(r.last() == (piece(st, xs[p.len() - 1]).0, piece(st, xs[p.len() - 1]).1, seq![xs[p.len() - 1]]));
            assert(piece(st, xs[xs.len() - 2]).0 != piece(st, xs[xs.len() - 1]).0 || piece(st, xs[xs.len() - 2]).1 + piece(
                st,
                xs[xs.len() - 1],
            ).1 > u64::MAX);
        }
        assert(fold_runs(st, xs) =~= single_runs(st, xs));
    }
}

proof fn lemma_piece_total_first(st: Map<AddressView, NodeView>, es: Seq<AddressView>)
    requires
        es.len() >= 1,
    ensures
        piece_total(st, es) >= piece(st, es[0]).1,
    decreases es.len(),
{
    if es.len() > 1 {
        lemma_piece_total_first(st, es.drop_last());
        assert(es.drop_last()[0] == es[0]);
    } else {
        assert(es.drop_last() =~= Seq::<AddressView>::empty());
    }
}

/// Folding is idempotent: with the repeat node of each run of more than one
/// child found under its address, folding the addresses that stand for the
/// runs leaves each of them a run of its own, standing for itself, so a
/// second fold changes nothing and stores nothing
pub proof fn lemma_fold_runs_idempotent(st: Map<AddressView, NodeView>, cs: Seq<AddressView>)
    requires
        forall|i: int|
            0 <= i < fold_runs(st, cs).len() && (#[trigger] fold_runs(st, cs)[i]).2.len() >= 2 ==> lookup(
                st,
                run_addr(run_shape(fold_runs(st, cs)[i])),
            ) == Some(run_repeat(run_shape(fold_runs(st, cs)[i]))),
    ensures
        fold_runs(st, run_addrs(run_shapes(fold_runs(st, cs)))) == single_runs(st, run_addrs(run_shapes(fold_runs(st, cs)))),
        run_addrs(run_shapes(fold_runs(st, run_addrs(run_shapes(fold_runs(st, cs)))))) == run_addrs(
            run_shapes(fold_runs(st, cs)),
        ),
        forall|i: int|
            0 <= i < run_addrs(run_shapes(fold_runs(st, cs))).len() - 1 ==> (#[trigger] piece(
                st,
                run_addrs(run_shapes(fold_runs(st, cs)))[i],
            )).0 != piece(st, run_addrs(run_shapes(fold_runs(st, cs)))[i + 1]).0 || piece(
                st,
                run_addrs(run_shapes(fold_runs(st, cs)))[i],
            ).1 + piece(st, run_addrs(run_shapes(fold_runs(st, cs)))[i + 1]).1 > u64::MAX,
        forall|i: int|
            0 <= i < fold_runs(st, run_addrs(run_shapes(fold_runs(st, cs)))).len() ==> (#[trigger] fold_runs(
                st,
                run_addrs(run_shapes(fold_runs(st, cs))),
            )[i]).2.len() == 1,
{
    let runs = fold_runs(st, cs);
    let xs = run_addrs(run_shapes(runs));
    lemma_fold_runs_lossless(st, cs);
    assert forall|i: int| 0 <= i < runs.len() implies #[trigger] piece(st, xs[i]) == (runs[i].0, runs[i].1) by {
        let r = runs[i];
        assert(run_ok(st, r));
        assert(xs[i] == run_addr(run_shape(r)));
        if r.2.len() == 1 {
            assert(r.2 =~= seq![r.2[0]]);
            assert(r.2.drop_last() =~= Seq::<AddressView>::empty());
            assert(piece_total(st, Seq::<AddressView>::empty()) == 0);
            assert(r.2.last() == r.2[0]);
            assert(piece(st, r.2[0]).0 == r.0);
            assert(r.1 == piece(st, r.2[0]).1);
            assert(xs[i] == r.2[0]);
        } else {
            assert(fold_runs(st, cs)[i].2.len() >= 2);
            assert(lookup(st, xs[i]) == Some(run_repeat(run_shape(r))));
            assert(r.1 >= 2);
            assert((r.1 as u64) as nat == r.1);
        }
    }
    assert forall|i: int| 0 <= i < xs.len() - 1 implies (#[trigger] piece(st, xs[i])).0 != piece(st, xs[i + 1]).0 || piece(
        st,
        xs[i],
    ).1 + piece(st, xs[i + 1]).1 > u64::MAX by {
        assert(piece(st, xs[i]) == (runs[i].0, runs[i].1));
        assert(piece(st, xs[i + 1]) == (runs[i + 1].0, runs[i + 1].1));
        assert(run_ok(st, runs[i + 1]));
        lemma_piece_total_first(st, runs[i + 1].2);
    }
    lemma_fold_singles(st, xs);
    let ys = fold_runs(st, xs);
    assert(run_addrs(run_shapes(ys)) =~= xs);
}

proof fn lemma_repeat_add(x: Seq<u8>, m: nat, n: nat)
    ensures
        repeat_bytes(x, m + n) == repeat_bytes(x, m) + repeat_bytes(x, n),
    decreases m,
{
    if m == 0 {
        assert(repeat_bytes(x, 0) + repeat_bytes(x, n) =~= repeat_bytes(x, n));
    } else {
        lemma_repeat_add(x, (m - 1) as nat, n);
        assert(((m - 1) as nat + n) as nat == (m + n - 1) as nat);
        assert(x + (repeat_bytes(x, (m - 1) as nat) + repeat_bytes(x, n)) =~= (x + repeat_bytes(x, (m - 1) as nat))
            + repeat_bytes(x, n));
    }
}

/// Merging nested repeats keeps the content: `b` repetitions of `a`
/// repetitions of `x` are `a * b` repetitions of `x`
pub proof fn lemma_repeat_merge(x: Seq<u8>, a: nat, b: nat)
    ensures
        repeat_bytes(repeat_bytes(x, a), b) == repeat_bytes(x, a * b),
    decreases b,
{
    if b == 0 {
        assert(a * b == 0) by (nonlinear_arith)
            requires
                b == 0,
        ;
    } else {
        lemma_repeat_merge(x, a, (b - 1) as nat);
        assert(a * b == a + a * (b - 1)) by (nonlinear_arith)
            requires
                b > 0,
        ;
        lemma_repeat_add(x, a, (a * (b - 1)) as nat);
    }
}

/// A slice from the start that is at least as long as the bytes keeps them all
pub proof fn lemma_full_slice(x: Seq<u8>, length: u64)
    requires
        length >= x.len(),
    ensures
        slice_window(x, 0, length) == x,
{
    assert(slice_window(x, 0, length) =~= x);
}

} // verus!
