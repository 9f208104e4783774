//! Node and edge storage of similarity graphs, provided by petgraph's
//! `Graph` with undirected edges and `usize` indices.
use petgraph::graph::{Graph, NodeIndex};
use petgraph::Undirected;
use vstd::prelude::*;

verus! {

#[verifier::external_type_specification]
#[verifier::external_body]
#[verifier::reject_recursive_types(N)]
#[verifier::reject_recursive_types(E)]
#[verifier::reject_recursive_types(Ty)]
#[verifier::reject_recursive_types(Ix)]
pub struct ExGraph<N, E, Ty, Ix>(Graph<N, E, Ty, Ix>);

#[verifier::external_type_specification]
#[verifier::external_body]
pub struct ExUndirected(Undirected);

/// The node labels of a graph, by node index.
pub uninterp spec fn stored_labels(g: Graph<String, i64, Undirected, usize>) -> Seq<Seq<char>>;

/// The edges of a graph as (source, target, weight), by edge index.
pub uninterp spec fn stored_edges(g: Graph<String, i64, Undirected, usize>) -> Seq<(usize, usize, i64)>;

/// Whether the stored edge `t` has `v` as an endpoint.
pub open spec fn stored_touches(t: (usize, usize, i64), v: int) -> bool {
    t.0 == v || t.1 == v
}

/// Relies on petgraph's `Graph::with_capacity`: a graph without nodes or
/// edges, with room reserved for `nodes` nodes.
#[verifier::external_body]
pub(crate) fn store_new(nodes: usize) -> (g: Graph<String, i64, Undirected, usize>)
    ensures
        stored_labels(g) == Seq::<Seq<char>>::empty(),
        stored_edges(g) == Seq::<(usize, usize, i64)>::empty(),
{
    Graph::with_capacity(nodes, 0)
}

/// Relies on petgraph's `Graph::add_node`: appends a node carrying `label`
/// (it cannot run out of `usize` indices, so it does not panic).
#[verifier::external_body]
pub(crate) fn store_add_node(g: &mut Graph<String, i64, Undirected, usize>, label: String)
    ensures
        stored_labels(*final(g)) == stored_labels(*old(g)).push(label@),
        stored_edges(*final(g)) == stored_edges(*old(g)),
{
    g.add_node(label);
}

/// Relies on petgraph's `Graph::add_edge`: appends the edge from `a` to `b`
/// with weight `w`, keeping the endpoints in the order given; it panics when
/// `a` or `b` is not a node.
#[verifier::external_body]
pub(crate) fn store_add_edge(g: &mut Graph<String, i64, Undirected, usize>, a: usize, b: usize, w: i64)
    requires
        a < stored_labels(*old(g)).len(),
        b < stored_labels(*old(g)).len(),
    ensures
        stored_labels(*final(g)) == stored_labels(*old(g)),
        stored_edges(*final(g)) == stored_edges(*old(g)).push((a, b, w)),
{
    g.add_edge(NodeIndex::new(a), NodeIndex::new(b), w);
}

/// Relies on petgraph's `Graph::node_count`.
#[verifier::external_body]
pub(crate) fn store_node_count(g: &Graph<String, i64, Undirected, usize>) -> (r: usize)
    ensures
        r == stored_labels(*g).len(),
{
    g.node_count()
}

/// Relies on petgraph's `Graph::edge_count`.
#[verifier::external_body]
pub(crate) fn store_edge_count(g: &Graph<String, i64, Undirected, usize>) -> (r: usize)
    ensures
        r == stored_edges(*g).len(),
{
    g.edge_count()
}

/// Relies on petgraph's `Graph::raw_edges`: the edges in the order they were
/// added, each with the endpoints and weight it was added with.
#[verifier::external_body]
pub(crate) fn store_edge(g: &Graph<String, i64, Undirected, usize>, k: usize) -> (r: (usize, usize, i64))
    requires
        k < stored_edges(*g).len(),
    ensures
        r == stored_edges(*g)[k as int],
{
    let e = &g.raw_edges()[k];
    (e.source().index(), e.target().index(), e.weight)
}

/// Relies on indexing a petgraph `Graph` by `NodeIndex`: the label of node
/// `v`; it panics when `v` is not a node.
#[verifier::external_body]
pub(crate) fn store_label(g: &Graph<String, i64, Undirected, usize>, v: usize) -> (r: &String)
    requires
        v < stored_labels(*g).len(),
    ensures
        r@ == stored_labels(*g)[v as int],
{
    &g[NodeIndex::new(v)]
}

/// Relies on petgraph's `Graph::edges`: on an undirected graph it yields
/// every edge with `v` as an endpoint, a self-loop once.
#[verifier::external_body]
pub(crate) fn store_degree(g: &Graph<String, i64, Undirected, usize>, v: usize) -> (r: usize)
    requires
        v < stored_labels(*g).len(),
    ensures
        r == stored_edges(*g).filter(|t: (usize, usize, i64)| stored_touches(t, v as int)).len(),
{
    g.edges(NodeIndex::new(v)).count()
}

} // verus!
