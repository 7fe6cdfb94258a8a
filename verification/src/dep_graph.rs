//! The dependency graph as `petgraph` holds it while it is built: nodes carry the
//! position of their selected version, edges the position of their metadata.

use petgraph::graph::{DiGraph, NodeIndex};
use petgraph::visit::EdgeRef;
use vstd::prelude::*;

verus! {

#[verifier::external_type_specification]
#[verifier::external_body]
#[verifier::reject_recursive_types(N)]
#[verifier::reject_recursive_types(E)]
#[verifier::reject_recursive_types(Ty)]
#[verifier::reject_recursive_types(Ix)]
pub struct ExPetGraph<N, E, Ty, Ix>(petgraph::graph::Graph<N, E, Ty, Ix>);

#[verifier::external_type_specification]
#[verifier::external_body]
pub struct ExDirected(petgraph::Directed);

/// The node weights of the graph, in node order.
pub uninterp spec fn graph_nodes(g: DiGraph<u32, u32>) -> Seq<u32>;

/// The edges of the graph as (source, target, weight), in the order they were added.
pub uninterp spec fn graph_edges(g: DiGraph<u32, u32>) -> Seq<(u32, u32, u32)>;

/// The edges leaving `node` as (target, weight), the most recently added first.
pub open spec fn outgoing_edges(edges: Seq<(u32, u32, u32)>, node: u32) -> Seq<(u32, u32)>
    decreases edges.len(),
{
    if edges.len() == 0 {
        Seq::empty()
    } else {
        let e = edges.last();
        let earlier = outgoing_edges(edges.drop_last(), node);
        if e.0 == node {
            seq![(e.1, e.2)] + earlier
        } else {
            earlier
        }
    }
}

/// `DiGraph::new`: a graph without nodes or edges.
#[verifier::external_body]
pub(crate) fn new_graph() -> (g: DiGraph<u32, u32>)
    ensures
        graph_nodes(g) == Seq::<u32>::empty(),
        graph_edges(g) == Seq::<(u32, u32, u32)>::empty(),
{
    DiGraph::new()
}

/// `Graph::add_node`: appends a node and gives its index. It panics when the node count
/// would reach `u32::MAX`, which `requires` rules out.
#[verifier::external_body]
pub(crate) fn add_graph_node(g: &mut DiGraph<u32, u32>, weight: u32) -> (index: u32)
    requires
        graph_nodes(*old(g)).len() < u32::MAX,
    ensures
        graph_nodes(*final(g)) == graph_nodes(*old(g)).push(weight),
        graph_edges(*final(g)) == graph_edges(*old(g)),
        index == graph_nodes(*old(g)).len(),
{
    g.add_node(weight).index() as u32
}

/// `Graph::add_edge`: appends an edge from `a` to `b`. It panics when a node does not exist
/// or the edge count would reach `u32::MAX`, which `requires` rules out.
#[verifier::external_body]
pub(crate) fn add_graph_edge(g: &mut DiGraph<u32, u32>, a: u32, b: u32, weight: u32)
    requires
        (a as int) < graph_nodes(*old(g)).len(),
        (b as int) < graph_nodes(*old(g)).len(),
        graph_edges(*old(g)).len() < u32::MAX,
    ensures
        graph_nodes(*final(g)) == graph_nodes(*old(g)),
        graph_edges(*final(g)) == graph_edges(*old(g)).push((a, b, weight)),
{
    g.add_edge(NodeIndex::new(a as usize), NodeIndex::new(b as usize), weight);
}

/// `Graph::node_count`.
#[verifier::external_body]
pub(crate) fn graph_node_count(g: &DiGraph<u32, u32>) -> (r: usize)
    ensures
        r == graph_nodes(*g).len(),
{
    g.node_count()
}

/// The weight of node `node` (`graph[node]`); indexing panics for a missing node.
#[verifier::external_body]
pub(crate) fn graph_node_weight(g: &DiGraph<u32, u32>, node: u32) -> (r: u32)
    requires
        (node as int) < graph_nodes(*g).len(),
    ensures
        r == graph_nodes(*g)[node as int],
{
    g[NodeIndex::new(node as usize)]
}

/// `Graph::edges`: the edges leaving `node` as (target, weight). For a directed graph the
/// crate lists them in reverse order of addition.
#[verifier::external_body]
pub(crate) fn graph_outgoing(g: &DiGraph<u32, u32>, node: u32) -> (r: Vec<(u32, u32)>)
    ensures
        r@ == outgoing_edges(graph_edges(*g), node),
{
    g.edges(NodeIndex::new(node as usize)).map(|e| (e.target().index() as u32, *e.weight())).collect()
}

/// How many times `a` occurs in `s`.
pub open spec fn count_of(s: Seq<u32>, a: u32) -> nat
    decreases s.len(),
{
    if s.len() == 0 {
        0
    } else {
        count_of(s.drop_last(), a) + if s.last() == a {
            1nat
        } else {
            0nat
        }
    }
}

/// How many elements of `s` are below `n`, counted value by value.
pub open spec fn count_below(s: Seq<u32>, n: nat) -> nat
    decreases n,
{
    if n == 0 {
        0
    } else {
        count_below(s, (n - 1) as nat) + count_of(s, (n - 1) as u32)
    }
}

pub open spec fn edge_sources(edges: Seq<(u32, u32, u32)>) -> Seq<u32> {
    edges.map_values(|e: (u32, u32, u32)| e.0)
}

/// The weights of a list of (target, weight) pairs, as positions.
pub open spec fn weights_of(out: Seq<(u32, u32)>) -> Seq<int> {
    out.map_values(|p: (u32, u32)| p.1 as int)
}

/// The edges leaving `a`, when each edge's weight is its position: one entry per such edge,
/// each naming the edge's target and position.
pub proof fn lemma_outgoing_edges(g: Seq<(u32, u32, u32)>, a: u32)
    requires
        g.len() <= u32::MAX,
        forall|k: int| 0 <= k < g.len() ==> (#[trigger] g[k]).2 == k as u32,
    ensures
        outgoing_edges(g, a).len() == count_of(edge_sources(g), a),
        forall|x: int|
            0 <= x < outgoing_edges(g, a).len() ==> {
                let p = #[trigger] outgoing_edges(g, a)[x];
                &&& (p.1 as int) < g.len()
                &&& g[p.1 as int].0 == a
                &&& g[p.1 as int].1 == p.0
            },
        forall|x: int, y: int|
            0 <= x < outgoing_edges(g, a).len() && 0 <= y < outgoing_edges(g, a).len() && x != y
                ==> #[trigger] outgoing_edges(g, a)[x].1 != #[trigger] outgoing_edges(g, a)[y].1,
        forall|k: int|
            0 <= k < g.len() && (#[trigger] g[k]).0 == a ==> weights_of(outgoing_edges(g, a)).contains(k),
    decreases g.len(),
{
    if g.len() > 0 {
        let h = g.drop_last();
        assert forall|k: int| 0 <= k < h.len() implies (#[trigger] h[k]).2 == k as u32 by {
            assert(h[k] == g[k]);
        }
        lemma_outgoing_edges(h, a);
        assert(edge_sources(g).drop_last() =~= edge_sources(h));
        let out = outgoing_edges(g, a);
        let earlier = outgoing_edges(h, a);
        let e = g.last();
        let last = g.len() - 1;
        assert(e.2 == last as u32);
        if e.0 == a {
            assert(out =~= seq![(e.1, e.2)] + earlier);
            assert forall|x: int| 0 <= x < out.len() implies {
                let p = #[trigger] out[x];
                &&& (p.1 as int) < g.len()
                &&& g[p.1 as int].0 == a
                &&& g[p.1 as int].1 == p.0
            } by {
                if x > 0 {
                    assert(out[x] == earlier[x - 1]);
                    assert(g[earlier[x - 1].1 as int] == h[earlier[x - 1].1 as int]);
                }
            }
            assert forall|x: int, y: int|
                0 <= x < out.len() && 0 <= y < out.len() && x != y implies #[trigger] out[x].1
                != #[trigger] out[y].1 by {
                if x > 0 {
                    assert(out[x] == earlier[x - 1]);
                }
                if y > 0 {
                    assert(out[y] == earlier[y - 1]);
                }
            }
            assert forall|k: int| 0 <= k < g.len() && (#[trigger] g[k]).0 == a implies weights_of(
                out,
            ).contains(k) by {
                if k < last {
                    assert(h[k] == g[k]);
                    assert(weights_of(earlier).contains(k));
                    let x = choose|x: int| 0 <= x < weights_of(earlier).len() && weights_of(earlier)[x] == k;
                    assert(weights_of(out)[x + 1] == k);
                } else {
                    assert(weights_of(out)[0] == k);
                }
            }
        } else {
            assert(out == earlier);
            assert forall|x: int| 0 <= x < out.len() implies {
                let p = #[trigger] out[x];
                &&& (p.1 as int) < g.len()
                &&& g[p.1 as int].0 == a
                &&& g[p.1 as int].1 == p.0
            } by {
                assert(g[earlier[x].1 as int] == h[earlier[x].1 as int]);
            }
            assert forall|k: int| 0 <= k < g.len() && (#[trigger] g[k]).0 == a implies weights_of(
                out,
            ).contains(k) by {
                assert(k < last);
                assert(h[k] == g[k]);
            }
        }
    }
}

/// Counting the values below `n` one by one counts every element below `n`.
pub proof fn lemma_count_below_all(s: Seq<u32>, n: nat)
    requires
        n <= u32::MAX,
        forall|k: int| 0 <= k < s.len() ==> (#[trigger] s[k] as nat) < n,
    ensures
        count_below(s, n) == s.len(),
    decreases s.len(),
{
    if s.len() > 0 {
        let h = s.drop_last();
        assert forall|k: int| 0 <= k < h.len() implies (#[trigger] h[k] as nat) < n by {
            assert(h[k] == s[k]);
        }
        lemma_count_below_all(h, n);
        lemma_count_below_step(s, n);
        assert((s[s.len() - 1] as nat) < n);
    } else {
        lemma_count_below_empty(s, n);
    }
}

pub proof fn lemma_count_below_empty(s: Seq<u32>, m: nat)
    requires
        s.len() == 0,
    ensures
        count_below(s, m) == 0,
    decreases m,
{
    if m > 0 {
        lemma_count_below_empty(s, (m - 1) as nat);
    }
}

pub proof fn lemma_count_below_step(s: Seq<u32>, m: nat)
    requires
        s.len() > 0,
        m <= u32::MAX,
    ensures
        count_below(s, m) == count_below(s.drop_last(), m) + if (s.last() as nat) < m {
            1nat
        } else {
            0nat
        },
    decreases m,
{
    if m > 0 {
        lemma_count_below_step(s, (m - 1) as nat);
        let a = (m - 1) as u32;
        assert(count_of(s, a) == count_of(s.drop_last(), a) + if s.last() == a {
            1nat
        } else {
            0nat
        });
    }
}

} // verus!
