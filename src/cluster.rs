//! Connected components of a similarity graph and their representatives.
use crate::graph::{Edge, SimilarityGraph};
use crate::unionfind::{uf_find, uf_new, uf_roots, uf_union};
use petgraph::unionfind::UnionFind;
use vstd::prelude::*;

verus! {

/// Whether edge `e` joins `u` and `v`, in either orientation.
pub open spec fn joins_nodes(e: Edge, u: int, v: int) -> bool {
    (e.source == u && e.target == v) || (e.source == v && e.target == u)
}

/// Whether one of the first `k` edges joins `u` and `v`.
pub open spec fn adjacent_within(edges: Seq<Edge>, k: nat, u: int, v: int) -> bool {
    exists|i: int| 0 <= i < k && i < edges.len() && #[trigger] joins_nodes(edges[i], u, v)
}

/// Step `s` of `w` follows one of the first `k` edges.
pub open spec fn walk_step(edges: Seq<Edge>, k: nat, w: Seq<int>, s: int) -> bool {
    adjacent_within(edges, k, w[s], w[s + 1])
}

/// `w` is a walk from `x` to `y` that only follows the first `k` edges.
pub open spec fn is_walk(edges: Seq<Edge>, k: nat, w: Seq<int>, x: int, y: int) -> bool {
    &&& w.len() > 0
    &&& w[0] == x
    &&& w.last() == y
    &&& forall|s: int| 0 <= s < w.len() - 1 ==> #[trigger] walk_step(edges, k, w, s)
}

/// Whether `x` and `y` lie in the same connected component of `g`: some walk
/// along edges of `g` leads from `x` to `y`.
pub open spec fn connected(g: SimilarityGraph, x: int, y: int) -> bool {
    exists|w: Seq<int>| #[trigger] is_walk(g.edges_view(), g.edges_view().len(), w, x, y)
}

/// The relation that union-find maintains over the first `k` edges: adding
/// the edge `(a, b)` joins the class of `a` with the class of `b`.
spec fn linked_by(edges: Seq<Edge>, k: nat, x: int, y: int) -> bool
    decreases k,
{
    if k == 0 {
        x == y
    } else {
        let a = edges[k - 1].source as int;
        let b = edges[k - 1].target as int;
        let prev = (k - 1) as nat;
        ||| linked_by(edges, prev, x, y)
        ||| (linked_by(edges, prev, x, a) && linked_by(edges, prev, b, y))
        ||| (linked_by(edges, prev, x, b) && linked_by(edges, prev, a, y))
    }
}

/// Over any prefix of the edges, `linked_by` is reflexive, symmetric and
/// transitive.
proof fn lemma_linked_equivalence(edges: Seq<Edge>, k: nat)
    requires
        k <= edges.len(),
    ensures
        forall|x: int| #[trigger] linked_by(edges, k, x, x),
        forall|x: int, y: int| #[trigger] linked_by(edges, k, x, y) ==> linked_by(edges, k, y, x),
        forall|x: int, y: int, z: int|
            #[trigger] linked_by(edges, k, x, y) && #[trigger] linked_by(edges, k, y, z) ==> linked_by(
                edges,
                k,
                x,
                z,
            ),
    decreases k,
{
    if k > 0 {
        let prev = (k - 1) as nat;
        lemma_linked_equivalence(edges, prev);
        let a = edges[k - 1].source as int;
        let b = edges[k - 1].target as int;
        assert forall|x: int| #[trigger] linked_by(edges, k, x, x) by {
            assert(linked_by(edges, prev, x, x));
        }
        assert forall|x: int, y: int| #[trigger] linked_by(edges, k, x, y) implies linked_by(edges, k, y, x) by {
            if linked_by(edges, prev, x, y) {
                assert(linked_by(edges, prev, y, x));
            } else if linked_by(edges, prev, x, a) && linked_by(edges, prev, b, y) {
                assert(linked_by(edges, prev, y, b) && linked_by(edges, prev, a, x));
            } else {
                assert(linked_by(edges, prev, x, b) && linked_by(edges, prev, a, y));
                assert(linked_by(edges, prev, y, a) && linked_by(edges, prev, b, x));
            }
        }
        assert forall|x: int, y: int, z: int|
            #[trigger] linked_by(edges, k, x, y) && #[trigger] linked_by(edges, k, y, z) implies linked_by(
            edges,
            k,
            x,
            z,
        ) by {
            // Each of the two links has one of three forms over the earlier
            // edges; every combination chains through `a` or `b`. Naming the
            // links involved lets the solver close each case.
            let l_xa = linked_by(edges, prev, x, a);
            let l_xb = linked_by(edges, prev, x, b);
            let l_az = linked_by(edges, prev, a, z);
            let l_bz = linked_by(edges, prev, b, z);
            let l_ya = linked_by(edges, prev, y, a);
            let l_yb = linked_by(edges, prev, y, b);
            let l_ay = linked_by(edges, prev, a, y);
            let l_by = linked_by(edges, prev, b, y);
            let l_xy = linked_by(edges, prev, x, y);
            let l_yz = linked_by(edges, prev, y, z);
            let l_xz = linked_by(edges, prev, x, z);
            let l_aa = linked_by(edges, prev, a, a);
        }
    }
}

/// The edge at position `i < k` links its endpoints within the first `k`
/// edges.
proof fn lemma_edge_linked(edges: Seq<Edge>, k: nat, i: int)
    requires
        0 <= i < k <= edges.len(),
    ensures
        linked_by(edges, k, edges[i].source as int, edges[i].target as int),
    decreases k,
{
    let prev = (k - 1) as nat;
    lemma_linked_equivalence(edges, prev);
    if i < k - 1 {
        lemma_edge_linked(edges, prev, i);
    } else {
        assert(linked_by(edges, prev, edges[i].source as int, edges[i].source as int));
        assert(linked_by(edges, prev, edges[i].target as int, edges[i].target as int));
    }
}

/// A walk over the first `k` edges links its two ends.
proof fn lemma_walk_linked(edges: Seq<Edge>, k: nat, w: Seq<int>, x: int, y: int)
    requires
        k <= edges.len(),
        is_walk(edges, k, w, x, y),
    ensures
        linked_by(edges, k, x, y),
    decreases w.len(),
{
    lemma_linked_equivalence(edges, k);
    if w.len() == 1 {
        assert(linked_by(edges, k, x, x));
    } else {
        let front = w.drop_last();
        let u = front.last();
        assert(walk_step(edges, k, w, w.len() - 2));
        assert forall|s: int| 0 <= s < front.len() - 1 implies #[trigger] walk_step(edges, k, front, s) by {
            assert(walk_step(edges, k, w, s));
        }
        lemma_walk_linked(edges, k, front, x, u);
        let i = choose|i: int| 0 <= i < k && i < edges.len() && #[trigger] joins_nodes(edges[i], u, y);
        lemma_edge_linked(edges, k, i);
        assert(linked_by(edges, k, u, y));
    }
}

/// A walk over fewer edges is also a walk over more.
proof fn lemma_walk_widen(edges: Seq<Edge>, k: nat, k2: nat, w: Seq<int>, x: int, y: int)
    requires
        k <= k2,
        is_walk(edges, k, w, x, y),
    ensures
        is_walk(edges, k2, w, x, y),
{
    assert forall|s: int| 0 <= s < w.len() - 1 implies #[trigger] walk_step(edges, k2, w, s) by {
        assert(walk_step(edges, k, w, s));
    }
}

/// Two walks joined by the edge from the end of the first to the start of
/// the second.
proof fn lemma_walk_join(edges: Seq<Edge>, k: nat, w1: Seq<int>, w2: Seq<int>, x: int, u: int, v: int, y: int)
    requires
        is_walk(edges, k, w1, x, u),
        is_walk(edges, k, w2, v, y),
        adjacent_within(edges, k, u, v),
    ensures
        is_walk(edges, k, w1 + w2, x, y),
{
    let w = w1 + w2;
    assert forall|s: int| 0 <= s < w.len() - 1 implies #[trigger] walk_step(edges, k, w, s) by {
        if s < w1.len() - 1 {
            assert(walk_step(edges, k, w1, s));
        } else if s >= w1.len() {
            assert(walk_step(edges, k, w2, s - w1.len()));
        }
    }
}

/// Nodes linked over the first `k` edges are joined by a walk over them.
proof fn lemma_linked_walk(edges: Seq<Edge>, k: nat, x: int, y: int) -> (w: Seq<int>)
    requires
        k <= edges.len(),
        linked_by(edges, k, x, y),
    ensures
        is_walk(edges, k, w, x, y),
    decreases k,
{
    if k == 0 {
        let w = seq![x];
        w
    } else {
        let prev = (k - 1) as nat;
        let a = edges[k - 1].source as int;
        let b = edges[k - 1].target as int;
        assert(joins_nodes(edges[k - 1], a, b));
        assert(joins_nodes(edges[k - 1], b, a));
        if linked_by(edges, prev, x, y) {
            let w = lemma_linked_walk(edges, prev, x, y);
            lemma_walk_widen(edges, prev, k, w, x, y);
            w
        } else if linked_by(edges, prev, x, a) && linked_by(edges, prev, b, y) {
            let w1 = lemma_linked_walk(edges, prev, x, a);
            let w2 = lemma_linked_walk(edges, prev, b, y);
            lemma_walk_widen(edges, prev, k, w1, x, a);
            lemma_walk_widen(edges, prev, k, w2, b, y);
            lemma_walk_join(edges, k, w1, w2, x, a, b, y);
            w1 + w2
        } else {
            let w1 = lemma_linked_walk(edges, prev, x, b);
            let w2 = lemma_linked_walk(edges, prev, a, y);
            lemma_walk_widen(edges, prev, k, w1, x, b);
            lemma_walk_widen(edges, prev, k, w2, a, y);
            lemma_walk_join(edges, k, w1, w2, x, b, a, y);
            w1 + w2
        }
    }
}

/// Union-find's relation over all edges is connectivity.
proof fn lemma_linked_connected(g: SimilarityGraph, x: int, y: int)
    ensures
        linked_by(g.edges_view(), g.edges_view().len(), x, y) == connected(g, x, y),
{
    let edges = g.edges_view();
    let k = edges.len();
    if linked_by(edges, k, x, y) {
        let w = lemma_linked_walk(edges, k, x, y);
    }
    if connected(g, x, y) {
        let w = choose|w: Seq<int>| #[trigger] is_walk(edges, k, w, x, y);
        lemma_walk_linked(edges, k, w, x, y);
    }
}

/// The clusters as sequences of node ids.
pub open spec fn listing_view(r: Seq<Vec<usize>>) -> Seq<Seq<usize>> {
    r.map_values(|c: Vec<usize>| c@)
}

/// Whether node `x` appears in some cluster of `c`.
pub open spec fn in_listing(c: Seq<Seq<usize>>, x: int) -> bool {
    exists|i: int, p: int| 0 <= i < c.len() && 0 <= p < c[i].len() && #[trigger] c[i][p] == x
}

/// `c` splits the nodes `0 .. n` into non-empty, pairwise disjoint clusters
/// whose union is every node.
pub open spec fn is_partition(c: Seq<Seq<usize>>, n: nat) -> bool {
    &&& forall|i: int| 0 <= i < c.len() ==> (#[trigger] c[i]).len() > 0
    &&& forall|i: int, p: int| 0 <= i < c.len() && 0 <= p < c[i].len() ==> #[trigger] c[i][p] < n
    &&& forall|x: int| 0 <= x < n ==> #[trigger] in_listing(c, x)
    &&& forall|i: int, j: int, p: int, q: int|
        0 <= i < c.len() && 0 <= j < c.len() && 0 <= p < c[i].len() && 0 <= q < c[j].len() && #[trigger] c[i][p]
            == #[trigger] c[j][q] ==> i == j && p == q
}

/// Each cluster lists its nodes in ascending order, and the clusters are
/// ordered by their smallest node.
pub open spec fn is_ordered_listing(c: Seq<Seq<usize>>) -> bool {
    &&& forall|i: int, p: int, q: int|
        0 <= i < c.len() && 0 <= p < q < c[i].len() ==> #[trigger] c[i][p] < #[trigger] c[i][q]
    &&& forall|i: int, j: int| 0 <= i < j < c.len() ==> #[trigger] c[i][0] < #[trigger] c[j][0]
}

/// Two nodes share a cluster exactly when they are connected in `g`.
pub open spec fn follows_connectivity(g: SimilarityGraph, c: Seq<Seq<usize>>) -> bool {
    forall|i: int, j: int, p: int, q: int|
        0 <= i < c.len() && 0 <= j < c.len() && 0 <= p < c[i].len() && 0 <= q < c[j].len() ==> (i
            == j <==> connected(g, #[trigger] c[i][p] as int, #[trigger] c[j][q] as int))
}

/// `c` lists the connected components of `g`, in the fixed order of
/// `is_ordered_listing`.
pub open spec fn is_component_listing(g: SimilarityGraph, c: Seq<Seq<usize>>) -> bool {
    &&& is_partition(c, g.node_count_spec())
    &&& is_ordered_listing(c)
    &&& follows_connectivity(g, c)
}

/// Position `p` of `nodes` holds a node of the highest degree among
/// `nodes`, and every node before it has a lower degree.
pub open spec fn is_first_max(g: SimilarityGraph, nodes: Seq<usize>, p: int) -> bool {
    &&& 0 <= p < nodes.len()
    &&& forall|q: int|
        0 <= q < nodes.len() ==> g.degree_spec(#[trigger] nodes[q] as int) <= g.degree_spec(
            nodes[p] as int,
        )
    &&& forall|q: int|
        0 <= q < p ==> g.degree_spec(#[trigger] nodes[q] as int) < g.degree_spec(nodes[p] as int)
}

/// The representative of a non-empty cluster: its first node of highest
/// degree.
pub open spec fn representative_of(g: SimilarityGraph, nodes: Seq<usize>) -> usize {
    nodes[choose|p: int| is_first_max(g, nodes, p)]
}

/// Node `z` stands at position `at` of the cluster that `slot` assigns to
/// its representative.
spec fn placed(clusters: Seq<Vec<usize>>, slot: Seq<usize>, roots: Seq<usize>, at: int, z: int) -> bool {
    let i = slot[roots[z] as int] as int;
    &&& 0 <= i < clusters.len()
    &&& 0 <= at < clusters[i]@.len()
    &&& clusters[i]@[at] == z
}

/// A union-find over the nodes of `g` in which two nodes share a
/// representative exactly when they are connected.
fn union_edges(g: &SimilarityGraph) -> (uf: UnionFind<usize>)
    requires
        g.well_formed(),
    ensures
        uf_roots(uf).len() == g.node_count_spec(),
        forall|x: int| 0 <= x < g.node_count_spec() ==> #[trigger] uf_roots(uf)[x] < g.node_count_spec(),
        forall|x: int, y: int|
            0 <= x < g.node_count_spec() && 0 <= y < g.node_count_spec() ==> (uf_roots(uf)[x] == uf_roots(uf)[y]
                <==> #[trigger] connected(*g, x, y)),
{
    let n = g.node_count();
    let mut uf = uf_new(n);
    let mut k: usize = 0;
    while k < g.edge_count()
        invariant
            g.well_formed(),
            n == g.node_count_spec(),
            0 <= k <= g.edges_view().len(),
            uf_roots(uf).len() == n,
            forall|x: int| 0 <= x < n ==> #[trigger] uf_roots(uf)[x] < n,
            forall|x: int, y: int|
                0 <= x < n && 0 <= y < n ==> (uf_roots(uf)[x] == uf_roots(uf)[y] <==> #[trigger] linked_by(
                    g.edges_view(),
                    k as nat,
                    x,
                    y,
                )),
        decreases g.edges_view().len() - k,
    {
        let e = g.edge(k);
        let ghost before = uf_roots(uf);
        assert(e.source < e.target < n);
        uf_union(&mut uf, e.source, e.target);
        proof {
            let after = uf_roots(uf);
            let a = e.source as int;
            let b = e.target as int;
            assert forall|x: int| 0 <= x < n implies #[trigger] after[x] < n by {
                if before[x] == before[a] || before[x] == before[b] {
                    assert(after[x] == after[a]);
                }
            }
            assert forall|x: int, y: int|
                0 <= x < n && 0 <= y < n implies (after[x] == after[y] <==> #[trigger] linked_by(
                g.edges_view(),
                (k + 1) as nat,
                x,
                y,
            )) by {
                assert(g.edges_view()[k as int] == e);
                assert(linked_by(g.edges_view(), k as nat, x, y) == (before[x] == before[y]));
                assert(linked_by(g.edges_view(), k as nat, x, a) == (before[x] == before[a]));
                assert(linked_by(g.edges_view(), k as nat, x, b) == (before[x] == before[b]));
                assert(linked_by(g.edges_view(), k as nat, b, y) == (before[b] == before[y]));
                assert(linked_by(g.edges_view(), k as nat, a, y) == (before[a] == before[y]));
                assert(after[a] == after[b]);
            }
        }
        k = k + 1;
        assert forall|x: int, y: int|
            0 <= x < n && 0 <= y < n implies (uf_roots(uf)[x] == uf_roots(uf)[y] <==> #[trigger] linked_by(
            g.edges_view(),
            k as nat,
            x,
            y,
        )) by {
            assert(linked_by(g.edges_view(), k as nat, x, y) == linked_by(
                g.edges_view(),
                (k - 1 + 1) as nat,
                x,
                y,
            ));
        }
    }
    assert forall|x: int, y: int|
        0 <= x < n && 0 <= y < n implies (uf_roots(uf)[x] == uf_roots(uf)[y] <==> #[trigger] connected(
        *g,
        x,
        y,
    )) by {
        assert(linked_by(g.edges_view(), k as nat, x, y) == (uf_roots(uf)[x] == uf_roots(uf)[y]));
        lemma_linked_connected(*g, x, y);
    }
    uf
}

/// Partitions the nodes of `g` into its connected components.
///
/// The components are found with a union-find over the edges. Each component
/// lists its nodes in ascending order; components are ordered by their
/// smallest node.
pub fn components(g: &SimilarityGraph) -> (r: Vec<Vec<usize>>)
    requires
        g.well_formed(),
    ensures
        is_component_listing(*g, listing_view(r@)),
{
    let n = g.node_count();
    let uf = union_edges(g);
    let ghost roots = uf_roots(uf);
    // Cluster index of each representative seen so far; `n` where none yet.
    let mut slot: Vec<usize> = Vec::new();
    let mut s: usize = 0;
    while s < n
        invariant
            0 <= s <= n,
            slot@.len() == s,
            forall|t: int| 0 <= t < s ==> #[trigger] slot@[t] == n,
        decreases n - s,
    {
        slot.push(n);
        s = s + 1;
    }
    let mut clusters: Vec<Vec<usize>> = Vec::new();
    // Position of each node already placed within its cluster.
    let ghost mut pos: Seq<int> = Seq::empty();
    let mut x: usize = 0;
    while x < n
        invariant
            n == g.node_count_spec(),
            roots == uf_roots(uf),
            roots.len() == n,
            forall|z: int| 0 <= z < n ==> #[trigger] roots[z] < n,
            0 <= x <= n,
            slot@.len() == n,
            clusters@.len() <= x,
            pos.len() == x,
            forall|z: int| 0 <= z < x ==> placed(clusters@, slot@, roots, #[trigger] pos[z], z),
            forall|i: int, p: int|
                0 <= i < clusters@.len() && 0 <= p < clusters@[i]@.len() ==> {
                    let c = #[trigger] clusters@[i]@[p];
                    c < x && slot@[roots[c as int] as int] == i
                },
            forall|i: int| 0 <= i < clusters@.len() ==> (#[trigger] clusters@[i])@.len() > 0,
            forall|i: int, p: int, q: int|
                0 <= i < clusters@.len() && 0 <= p < q < clusters@[i]@.len() ==> #[trigger] clusters@[i]@[p]
                    < #[trigger] clusters@[i]@[q],
            forall|i: int, j: int|
                0 <= i < j < clusters@.len() ==> #[trigger] clusters@[i]@[0]
                    < #[trigger] clusters@[j]@[0],
            forall|t: int|
                0 <= t < n ==> #[trigger] slot@[t] == n || (slot@[t] < clusters@.len()
                    && roots[clusters@[slot@[t] as int]@[0] as int] == t),
        decreases n - x,
    {
        let r = uf_find(&uf, x);
        let ci = slot[r];
        let ghost old_pos = pos;
        let ghost old_clusters = clusters@;
        let ghost old_slot = slot@;
        proof {
            let at = if ci == n { 0 } else { clusters@[ci as int]@.len() as int };
            pos = pos.push(at);
        }
        if ci == n {
            let m = clusters.len();
            let mut fresh: Vec<usize> = Vec::new();
            fresh.push(x);
            clusters.push(fresh);
            slot.set(r, m);
            assert(clusters@[m as int]@ == seq![x]);
            assert forall|z: int| 0 <= z <= x implies placed(clusters@, slot@, roots, #[trigger] pos[z], z) by {
                if z < x {
                    assert(old_pos[z] == pos[z]);
                    assert(old_slot[roots[z] as int] < m);
                    assert(clusters@[old_slot[roots[z] as int] as int] == old_clusters[old_slot[roots[z] as int] as int]);
                }
            }
        } else {
            clusters[ci].push(x);
            assert(clusters@[ci as int]@ == old_clusters[ci as int]@.push(x));
            assert(forall|i: int| 0 <= i < clusters@.len() && i != ci ==> #[trigger] clusters@[i] == old_clusters[i]);
            assert forall|z: int| 0 <= z <= x implies placed(clusters@, slot@, roots, #[trigger] pos[z], z) by {
                if z < x {
                    assert(old_pos[z] == pos[z]);
                    assert(old_clusters[slot@[roots[z] as int] as int]@[pos[z]] == z);
                }
            }
        }
        let ghost done = x as int;
        x = x + 1;
        assert forall|z: int| 0 <= z < x implies placed(clusters@, slot@, roots, #[trigger] pos[z], z) by {
            assert(z <= done);
        }
    }
    proof {
        let c = listing_view(clusters@);
        assert forall|i: int| 0 <= i < c.len() implies #[trigger] c[i] == clusters@[i]@ by {}
        assert forall|i: int, j: int, p: int, q: int|
            0 <= i < c.len() && 0 <= j < c.len() && 0 <= p < c[i].len() && 0 <= q < c[j].len()
            implies (i == j <==> connected(*g, #[trigger] c[i][p] as int, #[trigger] c[j][q] as int)) by {
            assert(c[i][p] == clusters@[i]@[p]);
            assert(c[j][q] == clusters@[j]@[q]);
            assert(slot@[roots[c[i][p] as int] as int] == i);
            assert(slot@[roots[c[j][q] as int] as int] == j);
        }
        assert forall|z: int| 0 <= z < n implies #[trigger] in_listing(c, z) by {
            let i = slot@[roots[z] as int] as int;
            assert(c[i][pos[z]] == clusters@[i]@[pos[z]]);
        }
        assert forall|i: int, j: int, p: int, q: int|
            0 <= i < c.len() && 0 <= j < c.len() && 0 <= p < c[i].len() && 0 <= q < c[j].len() && #[trigger] c[i][p]
                == #[trigger] c[j][q] implies i == j && p == q by {
            assert(c[i][p] == clusters@[i]@[p]);
            assert(c[j][q] == clusters@[j]@[q]);
            if p < q {
                assert(clusters@[i]@[p] < clusters@[i]@[q]);
            } else if q < p {
                assert(clusters@[i]@[q] < clusters@[i]@[p]);
            }
        }
    }
    clusters
}

/// Only one position of `nodes` can be its first position of highest degree.
pub proof fn lemma_first_max_unique(g: SimilarityGraph, nodes: Seq<usize>, pa: int, pb: int)
    requires
        is_first_max(g, nodes, pa),
        is_first_max(g, nodes, pb),
    ensures
        pa == pb,
{
    if pa < pb {
        assert(g.degree_spec(nodes[pa] as int) < g.degree_spec(nodes[pb] as int));
        assert(g.degree_spec(nodes[pb] as int) <= g.degree_spec(nodes[pa] as int));
    } else if pb < pa {
        assert(g.degree_spec(nodes[pb] as int) < g.degree_spec(nodes[pa] as int));
        assert(g.degree_spec(nodes[pa] as int) <= g.degree_spec(nodes[pb] as int));
    }
}

/// Picks the node of highest degree in `g` among the nodes `nodes` of `g`; among nodes of equal
/// degree, the one that comes first in `nodes`. Returns `None` exactly when
/// `nodes` is empty.
pub fn select_representative(g: &SimilarityGraph, nodes: &Vec<usize>) -> (r: Option<usize>)
    requires
        forall|p: int| 0 <= p < nodes@.len() ==> #[trigger] nodes@[p] < g.node_count_spec(),
    ensures
        r is None <==> nodes@.len() == 0,
        r matches Some(v) ==> nodes@.contains(v) && v == representative_of(*g, nodes@),
{
    if nodes.len() == 0 {
        return None;
    }
    let mut best: usize = 0;
    let mut best_degree = g.degree(nodes[0]);
    let mut q: usize = 1;
    while q < nodes.len()
        invariant
            0 <= best < q <= nodes@.len(),
            forall|p: int| 0 <= p < nodes@.len() ==> #[trigger] nodes@[p] < g.node_count_spec(),
            best_degree == g.degree_spec(nodes@[best as int] as int),
            forall|t: int| 0 <= t < q ==> g.degree_spec(#[trigger] nodes@[t] as int) <= best_degree,
            forall|t: int| 0 <= t < best ==> g.degree_spec(#[trigger] nodes@[t] as int) < best_degree,
        decreases nodes@.len() - q,
    {
        let d = g.degree(nodes[q]);
        if d > best_degree {
            best = q;
            best_degree = d;
        }
        q = q + 1;
    }
    proof {
        assert(is_first_max(*g, nodes@, best as int));
        let p = choose|p: int| is_first_max(*g, nodes@, p);
        lemma_first_max_unique(*g, nodes@, p, best as int);
    }
    Some(nodes[best])
}

/// `labels` holds, for each cluster of `c` in turn, the label of its
/// representative.
pub open spec fn reports_representatives(g: SimilarityGraph, c: Seq<Seq<usize>>, labels: Seq<String>) -> bool {
    &&& labels.len() == c.len()
    &&& forall|i: int|
        0 <= i < c.len() ==> #[trigger] labels[i]@ == g.labels_view()[representative_of(g, c[i]) as int]
}

/// Maps each cluster of `g` to the label of its representative: entry `i`
/// belongs to the `i`-th connected component, in the order of `components`.
pub fn cluster_graph(g: &SimilarityGraph) -> (r: Vec<String>)
    requires
        g.well_formed(),
    ensures
        exists|c: Seq<Seq<usize>>| #[trigger] is_component_listing(*g, c) && reports_representatives(*g, c, r@),
{
    let clusters = components(g);
    let ghost c = listing_view(clusters@);
    let mut r: Vec<String> = Vec::new();
    let mut i: usize = 0;
    while i < clusters.len()
        invariant
            c == listing_view(clusters@),
            is_component_listing(*g, c),
            0 <= i <= clusters@.len(),
            r@.len() == i,
            forall|t: int| 0 <= t < i ==> #[trigger] r@[t]@ == g.labels_view()[representative_of(*g, c[t]) as int],
        decreases clusters@.len() - i,
    {
        assert(c[i as int] == clusters@[i as int]@);
        assert(c[i as int].len() > 0);
        let rep = select_representative(g, &clusters[i]);
        let v = rep.unwrap();
        assert(c[i as int][0] < g.node_count_spec());
        proof {
            let p = choose|p: int| 0 <= p < c[i as int].len() && c[i as int][p] == v;
            assert(c[i as int][p] < g.node_count_spec());
        }
        r.push(g.label(v).clone());
        i = i + 1;
    }
    r
}

/// Whether cluster `a` holds exactly the nodes of cluster `b`.
pub open spec fn same_members(a: Seq<usize>, b: Seq<usize>) -> bool {
    a.to_set() == b.to_set()
}

/// Some cluster of `c2` has the same members as cluster `i` of `c1`.
pub open spec fn has_counterpart(c1: Seq<Seq<usize>>, c2: Seq<Seq<usize>>, i: int) -> bool {
    exists|j: int| 0 <= j < c2.len() && same_members(c1[i], #[trigger] c2[j])
}

/// Listing the components of a graph twice gives the same clusters: every
/// cluster of one listing has the same members as some cluster of the other.
pub proof fn lemma_components_agree(g: SimilarityGraph, c1: Seq<Seq<usize>>, c2: Seq<Seq<usize>>)
    requires
        is_component_listing(g, c1),
        is_component_listing(g, c2),
    ensures
        forall|i: int| 0 <= i < c1.len() ==> #[trigger] has_counterpart(c1, c2, i),
        forall|j: int| 0 <= j < c2.len() ==> #[trigger] has_counterpart(c2, c1, j),
{
    assert forall|i: int| 0 <= i < c1.len() implies #[trigger] has_counterpart(c1, c2, i) by {
        let j = lemma_matching_cluster(g, c1, c2, i);
    }
    assert forall|j: int| 0 <= j < c2.len() implies #[trigger] has_counterpart(c2, c1, j) by {
        let i = lemma_matching_cluster(g, c2, c1, j);
    }
}

/// The cluster of `c2` that holds the first node of cluster `i` of `c1` has
/// the same members.
proof fn lemma_matching_cluster(g: SimilarityGraph, c1: Seq<Seq<usize>>, c2: Seq<Seq<usize>>, i: int) -> (j: int)
    requires
        is_component_listing(g, c1),
        is_component_listing(g, c2),
        0 <= i < c1.len(),
    ensures
        0 <= j < c2.len(),
        same_members(c1[i], c2[j]),
{
    let x = c1[i][0];
    assert(c1[i][0] < g.node_count_spec());
    assert(in_listing(c2, x as int));
    let (j, q) = choose|j: int, q: int| 0 <= j < c2.len() && 0 <= q < c2[j].len() && #[trigger] c2[j][q] == x;
    assert forall|y: usize| c1[i].to_set().contains(y) implies c2[j].to_set().contains(y) by {
        let p = choose|p: int| 0 <= p < c1[i].len() && c1[i][p] == y;
        assert(connected(g, c1[i][0] as int, c1[i][p] as int));
        assert(c1[i][p] < g.node_count_spec());
        assert(in_listing(c2, y as int));
        let (jy, qy) = choose|jy: int, qy: int| 0 <= jy < c2.len() && 0 <= qy < c2[jy].len() && #[trigger] c2[jy][qy] == y;
        assert(connected(g, c2[j][q] as int, c2[jy][qy] as int));
        assert(c2[j].contains(y));
    }
    assert forall|y: usize| c2[j].to_set().contains(y) implies c1[i].to_set().contains(y) by {
        let p = choose|p: int| 0 <= p < c2[j].len() && c2[j][p] == y;
        assert(connected(g, c2[j][q] as int, c2[j][p] as int));
        assert(c2[j][p] < g.node_count_spec());
        assert(in_listing(c1, y as int));
        let (iy, pb) = choose|iy: int, pb: int| 0 <= iy < c1.len() && 0 <= pb < c1[iy].len() && #[trigger] c1[iy][pb] == y;
        assert(connected(g, c1[i][0] as int, c1[iy][pb] as int));
        assert(c1[i].contains(y));
    }
    assert(c1[i].to_set() =~= c2[j].to_set());
    j
}

/// Strictly ascending sequence.
pub open spec fn ascending(a: Seq<usize>) -> bool {
    forall|p: int, q: int| 0 <= p < q < a.len() ==> #[trigger] a[p] < #[trigger] a[q]
}

/// Two strictly ascending sequences with the same elements are equal.
proof fn lemma_ascending_unique(a: Seq<usize>, b: Seq<usize>)
    requires
        ascending(a),
        ascending(b),
        a.to_set() == b.to_set(),
    ensures
        a == b,
    decreases a.len(),
{
    if a.len() == 0 {
        if b.len() > 0 {
            assert(b.to_set().contains(b[0]));
        }
        assert(a =~= b);
    } else {
        assert(a.to_set().contains(a[0]));
        assert(b.len() > 0);
        assert(b.to_set().contains(b[0]));
        let pa = choose|p: int| 0 <= p < a.len() && a[p] == b[0];
        let pb = choose|p: int| 0 <= p < b.len() && b[p] == a[0];
        if pa > 0 {
            assert(a[0] < a[pa]);
        }
        if pb > 0 {
            assert(b[0] < b[pb]);
        }
        assert(a[0] == b[0]);
        let ra = a.drop_first();
        let rb = b.drop_first();
        assert forall|x: usize| ra.to_set().contains(x) implies rb.to_set().contains(x) by {
            let p = choose|p: int| 0 <= p < ra.len() && ra[p] == x;
            assert(a[p + 1] == x && a[0] < a[p + 1]);
            assert(b.to_set().contains(x));
            let q = choose|q: int| 0 <= q < b.len() && b[q] == x;
            assert(q != 0);
            assert(rb[q - 1] == x);
        }
        assert forall|x: usize| rb.to_set().contains(x) implies ra.to_set().contains(x) by {
            let q = choose|q: int| 0 <= q < rb.len() && rb[q] == x;
            assert(b[q + 1] == x && b[0] < b[q + 1]);
            assert(a.to_set().contains(x));
            let p = choose|p: int| 0 <= p < a.len() && a[p] == x;
            assert(p != 0);
            assert(ra[p - 1] == x);
        }
        assert(ra.to_set() =~= rb.to_set());
        lemma_ascending_unique(ra, rb);
        assert forall|i: int| 0 <= i < a.len() implies a[i] == b[i] by {
            if i > 0 {
                assert(a[i] == ra[i - 1]);
                assert(b[i] == rb[i - 1]);
            }
        }
        assert(a =~= b);
    }
}

/// Some cluster of `c` is `m`.
spec fn has_copy(c: Seq<Seq<usize>>, m: Seq<usize>) -> bool {
    exists|j: int| 0 <= j < c.len() && #[trigger] c[j] == m
}

/// The smallest node of each cluster, in listing order.
pub open spec fn first_nodes(c: Seq<Seq<usize>>) -> Seq<usize> {
    c.map_values(|m: Seq<usize>| m[0])
}

/// `components` has only one possible result: two listings that both meet
/// its contract are equal, cluster for cluster and node for node.
pub proof fn lemma_component_listing_unique(g: SimilarityGraph, c1: Seq<Seq<usize>>, c2: Seq<Seq<usize>>)
    requires
        is_component_listing(g, c1),
        is_component_listing(g, c2),
    ensures
        c1 == c2,
{
    let f1 = first_nodes(c1);
    let f2 = first_nodes(c2);
    // A cluster of one listing equals its counterpart in the other.
    assert forall|i: int| 0 <= i < c1.len() implies has_copy(c2, #[trigger] c1[i]) by {
        let j = lemma_matching_cluster(g, c1, c2, i);
        assert(ascending(c1[i]));
        assert(ascending(c2[j]));
        lemma_ascending_unique(c1[i], c2[j]);
    }
    assert forall|j: int| 0 <= j < c2.len() implies has_copy(c1, #[trigger] c2[j]) by {
        let i = lemma_matching_cluster(g, c2, c1, j);
        assert(ascending(c2[j]));
        assert(ascending(c1[i]));
        lemma_ascending_unique(c2[j], c1[i]);
    }
    assert forall|x: usize| f1.to_set().contains(x) implies f2.to_set().contains(x) by {
        let i = choose|i: int| 0 <= i < f1.len() && f1[i] == x;
        assert(has_copy(c2, c1[i]));
        let j = choose|j: int| 0 <= j < c2.len() && #[trigger] c2[j] == c1[i];
        assert(f2[j] == x);
    }
    assert forall|x: usize| f2.to_set().contains(x) implies f1.to_set().contains(x) by {
        let j = choose|j: int| 0 <= j < f2.len() && f2[j] == x;
        assert(has_copy(c1, c2[j]));
        let i = choose|i: int| 0 <= i < c1.len() && #[trigger] c1[i] == c2[j];
        assert(f1[i] == x);
    }
    assert(f1.to_set() =~= f2.to_set());
    assert forall|p: int, q: int| 0 <= p < q < f1.len() implies #[trigger] f1[p] < #[trigger] f1[q] by {
        assert(c1[p][0] < c1[q][0]);
    }
    assert forall|p: int, q: int| 0 <= p < q < f2.len() implies #[trigger] f2[p] < #[trigger] f2[q] by {
        assert(c2[p][0] < c2[q][0]);
    }
    lemma_ascending_unique(f1, f2);
    assert forall|i: int| 0 <= i < c1.len() implies c1[i] == c2[i] by {
        assert(has_copy(c2, c1[i]));
        let j = choose|j: int| 0 <= j < c2.len() && #[trigger] c2[j] == c1[i];
        assert(f2[j] == f1[i]);
        assert(f1[i] == f2[i]);
        if j < i {
            assert(f2[j] < f2[i]);
        } else if i < j {
            assert(f2[i] < f2[j]);
        }
    }
    assert(c1 =~= c2);
}

} // verus!
