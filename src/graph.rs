//! Similarity graphs: nodes are labelled entities, edges join the pairs whose
//! score reaches a threshold.
use crate::store::{
    store_add_edge, store_add_node, store_degree, store_edge, store_edge_count, store_label,
    store_new, store_node_count, stored_edges, stored_labels, stored_touches,
};
use petgraph::graph::Graph;
use petgraph::Undirected;
use vstd::prelude::*;

verus! {

/// One undirected edge, stored with its endpoints in ascending order.
#[derive(Clone, Copy, Debug)]
pub struct Edge {
    pub source: usize,
    pub target: usize,
    /// Similarity of the two endpoints, in millionths.
    pub weight: i64,
}

/// Whether the entities `i < j` are similar enough to be joined, given the
/// pairwise score matrix and a threshold (both in millionths).
pub open spec fn qualifies(scores: Seq<Vec<i64>>, threshold: int, i: int, j: int) -> bool {
    0 <= i < j < scores.len() && scores[i]@[j] >= threshold
}

/// The unordered pairs `(i, j)`, `i < j`, whose score reaches the threshold.
pub open spec fn qualifying_pairs(scores: Seq<Vec<i64>>, threshold: int) -> Set<(int, int)> {
    Set::new(|p: (int, int)| qualifies(scores, threshold, p.0, p.1))
}

/// A square score matrix with one row per entity.
pub open spec fn is_score_matrix(scores: Seq<Vec<i64>>, n: int) -> bool {
    &&& scores.len() == n
    &&& forall|i: int| 0 <= i < n ==> (#[trigger] scores[i])@.len() == n
}

/// Raising the threshold keeps or removes edges and never adds one: every
/// pair that qualifies at `high` also qualifies at `low`.
pub proof fn lemma_threshold_monotone(scores: Seq<Vec<i64>>, low: int, high: int)
    requires
        low <= high,
    ensures
        qualifying_pairs(scores, high).subset_of(qualifying_pairs(scores, low)),
{
}

/// Strict lexicographic order on the endpoint pairs of two edges.
pub open spec fn pair_before(a: Edge, b: Edge) -> bool {
    a.source < b.source || (a.source == b.source && a.target < b.target)
}

/// Whether some edge of `edges` joins `i` to `j` (in this orientation).
pub open spec fn joins(edges: Seq<Edge>, i: int, j: int) -> bool {
    exists|k: int| 0 <= k < edges.len() && #[trigger] edges[k].source == i && edges[k].target == j
}

/// Whether `e` has `v` as one of its endpoints.
pub open spec fn touches(e: Edge, v: int) -> bool {
    e.source == v || e.target == v
}

/// The edges that have `v` as an endpoint.
pub open spec fn incident_to(v: int) -> spec_fn(Edge) -> bool {
    |e: Edge| touches(e, v)
}

/// The edge that a stored (source, target, weight) triple stands for.
pub open spec fn as_edge(t: (usize, usize, i64)) -> Edge {
    Edge { source: t.0, target: t.1, weight: t.2 }
}

/// A weighted undirected graph over labelled nodes `0 .. n`.
///
/// Nodes are identified by their position; only the label of each entity is
/// kept. Every edge joins two distinct nodes, and no pair of nodes is joined
/// twice.
pub struct SimilarityGraph {
    graph: Graph<String, i64, Undirected, usize>,
}

impl SimilarityGraph {
    /// The node labels, in node order.
    pub closed spec fn labels_view(&self) -> Seq<Seq<char>> {
        stored_labels(self.graph)
    }

    /// The edges, in the order in which they were added.
    pub closed spec fn edges_view(&self) -> Seq<Edge> {
        stored_edges(self.graph).map_values(|t: (usize, usize, i64)| as_edge(t))
    }

    pub open spec fn node_count_spec(&self) -> nat {
        self.labels_view().len()
    }

    /// The graph is simple: endpoints are distinct nodes given in ascending
    /// order, and no pair of nodes carries two edges.
    pub open spec fn well_formed(&self) -> bool {
        &&& forall|k: int|
            0 <= k < self.edges_view().len() ==> {
                let e = #[trigger] self.edges_view()[k];
                e.source < e.target < self.node_count_spec()
            }
        &&& forall|k1: int, k2: int|
            0 <= k1 < k2 < self.edges_view().len() ==> {
                let a = #[trigger] self.edges_view()[k1];
                let b = #[trigger] self.edges_view()[k2];
                a.source != b.source || a.target != b.target
            }
    }

    /// The node pairs `(i, j)`, `i < j`, joined by an edge.
    pub open spec fn edge_pairs(&self) -> Set<(int, int)> {
        Set::new(|p: (int, int)| joins(self.edges_view(), p.0, p.1))
    }

    /// Number of edges with `v` as an endpoint.
    pub open spec fn degree_spec(&self, v: int) -> nat {
        self.edges_view().filter(incident_to(v)).len()
    }

    pub fn node_count(&self) -> (r: usize)
        ensures
            r == self.node_count_spec(),
    {
        store_node_count(&self.graph)
    }

    pub fn edge_count(&self) -> (r: usize)
        ensures
            r == self.edges_view().len(),
    {
        store_edge_count(&self.graph)
    }

    pub fn label(&self, v: usize) -> (r: &String)
        requires
            v < self.node_count_spec(),
        ensures
            r@ == self.labels_view()[v as int],
    {
        store_label(&self.graph, v)
    }

    /// Number of edges incident to `v`.
    pub fn degree(&self, v: usize) -> (r: usize)
        requires
            v < self.node_count_spec(),
        ensures
            r == self.degree_spec(v as int),
    {
        let r = store_degree(&self.graph, v);
        proof {
            lemma_filter_map_edges(stored_edges(self.graph), v as int);
        }
        r
    }

    pub fn edge(&self, k: usize) -> (r: Edge)
        requires
            k < self.edges_view().len(),
        ensures
            r == self.edges_view()[k as int],
    {
        let (source, target, weight) = store_edge(&self.graph, k);
        Edge { source, target, weight }
    }
}

/// Counting the edges at `v` gives the same number on stored triples as on
/// the edges they stand for.
proof fn lemma_filter_map_edges(s: Seq<(usize, usize, i64)>, v: int)
    ensures
        s.filter(|t: (usize, usize, i64)| stored_touches(t, v)).len() == s.map_values(
            |t: (usize, usize, i64)| as_edge(t),
        ).filter(incident_to(v)).len(),
    decreases s.len(),
{
    reveal(Seq::filter);
    if s.len() > 0 {
        let front = s.drop_last();
        lemma_filter_map_edges(front, v);
        assert(s.map_values(|t: (usize, usize, i64)| as_edge(t)).drop_last() == front.map_values(
            |t: (usize, usize, i64)| as_edge(t),
        ));
    }
}

/// Builds the similarity graph of the entities named by `labels`.
///
/// `scores[i][j]` is the similarity of entities `i` and `j` in millionths;
/// only the entries above the diagonal are read. Node `i` gets `labels[i]`,
/// and each pair `i < j` whose score reaches `threshold` gets one edge
/// weighted by that score. Edges are stored in ascending pair order.
pub fn build_similarity_graph(labels: Vec<String>, scores: &Vec<Vec<i64>>, threshold: i64) -> (g:
    SimilarityGraph)
    requires
        is_score_matrix(scores@, labels@.len() as int),
    ensures
        g.well_formed(),
        g.labels_view() == labels@.map_values(|s: String| s@),
        g.edge_pairs() == qualifying_pairs(scores@, threshold as int),
        forall|k: int|
            0 <= k < g.edges_view().len() ==> {
                let e = #[trigger] g.edges_view()[k];
                e.weight == scores@[e.source as int]@[e.target as int] && e.weight >= threshold
            },
        forall|k1: int, k2: int|
            0 <= k1 < k2 < g.edges_view().len() ==> pair_before(
                #[trigger] g.edges_view()[k1],
                #[trigger] g.edges_view()[k2],
            ),
{
    let n = labels.len();
    // The qualifying pairs, in ascending pair order; stored once all are known.
    let mut edges: Vec<Edge> = Vec::new();
    let mut i: usize = 0;
    while i < n
        invariant
            n == labels@.len(),
            is_score_matrix(scores@, n as int),
            0 <= i <= n,
            forall|k: int|
                0 <= k < edges@.len() ==> {
                    let e = #[trigger] edges@[k];
                    &&& e.source < e.target < n
                    &&& e.source < i
                    &&& e.weight == scores@[e.source as int]@[e.target as int]
                    &&& qualifies(scores@, threshold as int, e.source as int, e.target as int)
                },
            forall|a: int, b: int|
                #![trigger qualifies(scores@, threshold as int, a, b)]
                a < i && qualifies(scores@, threshold as int, a, b) ==> joins(edges@, a, b),
            forall|k1: int, k2: int|
                0 <= k1 < k2 < edges@.len() ==> pair_before(
                    #[trigger] edges@[k1],
                    #[trigger] edges@[k2],
                ),
        decreases n - i,
    {
        let mut j: usize = i + 1;
        while j < n
            invariant
                n == labels@.len(),
                is_score_matrix(scores@, n as int),
                0 <= i < n,
                i + 1 <= j <= n,
                forall|k: int|
                    0 <= k < edges@.len() ==> {
                        let e = #[trigger] edges@[k];
                        &&& e.source < e.target < n
                        &&& (e.source < i || (e.source == i && e.target < j))
                        &&& e.weight == scores@[e.source as int]@[e.target as int]
                        &&& qualifies(scores@, threshold as int, e.source as int, e.target as int)
                    },
                forall|a: int, b: int|
                    #![trigger qualifies(scores@, threshold as int, a, b)]
                    (a < i || (a == i && b < j)) && qualifies(scores@, threshold as int, a, b)
                        ==> joins(edges@, a, b),
                forall|k1: int, k2: int|
                    0 <= k1 < k2 < edges@.len() ==> pair_before(
                        #[trigger] edges@[k1],
                        #[trigger] edges@[k2],
                    ),
            decreases n - j,
        {
            assert(scores@[i as int]@.len() == n);
            let s = scores[i][j];
            if s >= threshold {
                let ghost old_edges = edges@;
                edges.push(Edge { source: i, target: j, weight: s });
                assert forall|a: int, b: int|
                    #![trigger qualifies(scores@, threshold as int, a, b)]
                    (a < i || (a == i && b < j + 1)) && qualifies(scores@, threshold as int, a, b)
                        implies joins(edges@, a, b) by {
                    if a == i && b == j {
                        assert(edges@[old_edges.len() as int].source == a);
                    } else {
                        let k = choose|k: int|
                            0 <= k < old_edges.len() && #[trigger] old_edges[k].source == a
                                && old_edges[k].target == b;
                        assert(edges@[k] == old_edges[k]);
                    }
                }
            }
            j = j + 1;
        }
        i = i + 1;
    }
    let mut graph = store_new(n);
    let mut v: usize = 0;
    while v < n
        invariant
            n == labels@.len(),
            0 <= v <= n,
            stored_labels(graph) == labels@.take(v as int).map_values(|s: String| s@),
            stored_edges(graph) == Seq::<(usize, usize, i64)>::empty(),
        decreases n - v,
    {
        store_add_node(&mut graph, labels[v].clone());
        assert(labels@.take(v + 1).map_values(|s: String| s@) =~= labels@.take(v as int).map_values(
            |s: String| s@,
        ).push(labels@[v as int]@));
        v = v + 1;
    }
    assert(labels@.take(n as int) == labels@);
    let mut k: usize = 0;
    while k < edges.len()
        invariant
            stored_labels(graph) == labels@.map_values(|s: String| s@),
            n == labels@.len(),
            0 <= k <= edges@.len(),
            forall|t: int| 0 <= t < edges@.len() ==> (#[trigger] edges@[t]).source < n && edges@[t].target < n,
            stored_edges(graph).map_values(|t: (usize, usize, i64)| as_edge(t)) == edges@.take(k as int),
        decreases edges@.len() - k,
    {
        let e = edges[k];
        let ghost before = stored_edges(graph);
        store_add_edge(&mut graph, e.source, e.target, e.weight);
        assert(before.push((e.source, e.target, e.weight)).map_values(|t: (usize, usize, i64)| as_edge(t))
            =~= before.map_values(|t: (usize, usize, i64)| as_edge(t)).push(e));
        assert(edges@.take(k + 1) =~= edges@.take(k as int).push(e));
        k = k + 1;
    }
    assert(edges@.take(k as int) == edges@);
    let g = SimilarityGraph { graph };
    assert(g.edges_view() == edges@);
    assert(g.edge_pairs() =~= qualifying_pairs(scores@, threshold as int)) by {
        assert forall|p: (int, int)| #[trigger] joins(g.edges_view(), p.0, p.1) implies qualifies(
            scores@,
            threshold as int,
            p.0,
            p.1,
        ) by {
            let k = choose|k: int|
                0 <= k < g.edges_view().len() && #[trigger] g.edges_view()[k].source == p.0
                    && g.edges_view()[k].target == p.1;
            assert(g.edges_view()[k] == edges@[k]);
        }
        assert forall|p: (int, int)| #[trigger]
            qualifies(scores@, threshold as int, p.0, p.1) implies joins(
            g.edges_view(),
            p.0,
            p.1,
        ) by {
            assert(joins(edges@, p.0, p.1));
        }
    }
    g
}

} // verus!
