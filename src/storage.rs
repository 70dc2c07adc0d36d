//! The multigraph storage, a petgraph `Graph` with `String` node weights and no
//! edge weights, as seen by the verifier: its node weights in index order and
//! its edges, as pairs of node indices, in insertion order.
use petgraph::graph::{Graph, NodeIndex};
use vstd::prelude::*;

verus! {

#[verifier::external_type_specification]
#[verifier::external_body]
#[verifier::reject_recursive_types(N)]
#[verifier::reject_recursive_types(E)]
#[verifier::reject_recursive_types(Ty)]
#[verifier::reject_recursive_types(Ix)]
pub struct ExGraph<N, E, Ty, Ix>(Graph<N, E, Ty, Ix>);

#[verifier::external_type_specification]
#[verifier::external_body]
pub struct ExDirected(petgraph::Directed);

/// The node weights, by node index.
pub uninterp spec fn graph_nodes(g: Graph<String, ()>) -> Seq<Seq<char>>;

/// The edges as (source index, target index), in the order they were added.
pub uninterp spec fn graph_edges(g: Graph<String, ()>) -> Seq<(nat, nat)>;

/// The largest index count the default `u32` index type can hand out.
pub const INDEX_LIMIT: usize = 0xffff_ffff;

/// Relies on `Graph::new`: no nodes, no edges.
#[verifier::external_body]
pub(crate) fn graph_new() -> (r: Graph<String, ()>)
    ensures
        graph_nodes(r) == Seq::<Seq<char>>::empty(),
        graph_edges(r) == Seq::<(nat, nat)>::empty(),
{
    Graph::new()
}

/// Relies on `Graph::node_count`: the number of nodes.
#[verifier::external_body]
pub(crate) fn graph_node_count(g: &Graph<String, ()>) -> (r: usize)
    ensures
        r == graph_nodes(*g).len(),
{
    g.node_count()
}

/// Relies on `Graph::edge_count`: the number of edges.
#[verifier::external_body]
pub(crate) fn graph_edge_count(g: &Graph<String, ()>) -> (r: usize)
    ensures
        r == graph_edges(*g).len(),
{
    g.edge_count()
}

/// Relies on `Graph::add_node`: the weight is appended and its index returned;
/// it panics once the `u32` index space is used up.
#[verifier::external_body]
pub(crate) fn graph_add_node(g: &mut Graph<String, ()>, w: String) -> (r: usize)
    requires
        graph_nodes(*old(g)).len() < INDEX_LIMIT,
    ensures
        r == graph_nodes(*old(g)).len(),
        graph_nodes(*final(g)) == graph_nodes(*old(g)).push(w@),
        graph_edges(*final(g)) == graph_edges(*old(g)),
{
    g.add_node(w).index()
}

/// Relies on `Graph::update_edge`: adds the edge `a -> b` unless one is already
/// there; it panics on an index past the nodes or once the `u32` edge index
/// space is used up.
#[verifier::external_body]
pub(crate) fn graph_update_edge(g: &mut Graph<String, ()>, a: usize, b: usize)
    requires
        a < graph_nodes(*old(g)).len(),
        b < graph_nodes(*old(g)).len(),
        graph_edges(*old(g)).len() < INDEX_LIMIT,
    ensures
        graph_nodes(*final(g)) == graph_nodes(*old(g)),
        graph_edges(*old(g)).contains((a as nat, b as nat)) ==> graph_edges(*final(g))
            == graph_edges(*old(g)),
        !graph_edges(*old(g)).contains((a as nat, b as nat)) ==> graph_edges(*final(g))
            == graph_edges(*old(g)).push((a as nat, b as nat)),
{
    g.update_edge(NodeIndex::new(a), NodeIndex::new(b), ());
}

/// Relies on `Graph::add_edge`: appends the edge `a -> b`, even where one is
/// already there; it panics on an index past the nodes or once the `u32` edge
/// index space is used up.
#[verifier::external_body]
pub(crate) fn graph_add_edge(g: &mut Graph<String, ()>, a: usize, b: usize)
    requires
        a < graph_nodes(*old(g)).len(),
        b < graph_nodes(*old(g)).len(),
        graph_edges(*old(g)).len() < INDEX_LIMIT,
    ensures
        graph_nodes(*final(g)) == graph_nodes(*old(g)),
        graph_edges(*final(g)) == graph_edges(*old(g)).push((a as nat, b as nat)),
{
    g.add_edge(NodeIndex::new(a), NodeIndex::new(b), ());
}

/// Relies on `Graph::raw_edges`: every edge with its source and target index,
/// in order; a `Graph` keeps both ends of every edge below its node count.
#[verifier::external_body]
pub(crate) fn graph_edge_pairs(g: &Graph<String, ()>) -> (r: Vec<(usize, usize)>)
    ensures
        r@.len() == graph_edges(*g).len(),
        forall|k: int|
            0 <= k < r@.len() ==> (#[trigger] r@[k]).0 as nat == graph_edges(*g)[k].0
                && r@[k].1 as nat == graph_edges(*g)[k].1,
        forall|k: int|
            0 <= k < r@.len() ==> (#[trigger] r@[k]).0 < graph_nodes(*g).len() && r@[k].1
                < graph_nodes(*g).len(),
{
    g.raw_edges().iter().map(|e| (e.source().index(), e.target().index())).collect()
}

/// Relies on `Graph::raw_nodes`: a copy of every node weight, by index.
#[verifier::external_body]
pub(crate) fn graph_node_weights(g: &Graph<String, ()>) -> (r: Vec<String>)
    ensures
        r@.len() == graph_nodes(*g).len(),
        forall|k: int| 0 <= k < r@.len() ==> (#[trigger] r@[k])@ == graph_nodes(*g)[k],
{
    g.raw_nodes().iter().map(|n| n.weight.clone()).collect()
}

} // verus!
