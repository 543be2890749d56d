//! The graph facade: construction from a mesh, augmentation, the line-graph
//! transform, and the DSATUR-style coloring.

use vstd::prelude::*;
use crate::edge::Edge;
use crate::edge::edge_adj;
use crate::edge::edge_endpoints_wf;
use crate::edge::edge_lists_wf;
use crate::edge::edge_lists_wf_at;
use crate::edge::edges_sym;
use crate::edge::incident;
use crate::edge::count_uncolored;
use crate::edge::lemma_count_uncolored_full;
use crate::edge::lemma_count_uncolored_pos;
use crate::edge::lemma_count_uncolored_update;
use crate::edge::lemma_count_uncolored_zero;
use crate::edge::lemma_edges_wf_implies_no_self_loops;
use crate::edge::lemma_max_adj_color_attained;
use crate::edge::max_adj_color_through;
use crate::edge::same_pair;
use crate::edge::shares_node;
use crate::node::count_unmarked;
use crate::node::node_edge_lists_complete;
use crate::node::node_edge_lists_ok;
use crate::node::node_edge_lists_ok_at;
use crate::mesh::GraphError;
use crate::mesh::Mesh;
use crate::mesh::mesh_adj;
use crate::mesh::mesh_valid;
use crate::mesh::tri_connects;
use crate::node::Node;
use crate::node::cand;
use crate::node::lemma_cand_sym;
use crate::node::node_adj;
use crate::node::node_wf_at;
use crate::node::nodes_sym;
use crate::node::nodes_wf;

verus! {

/// The constraint graph: an arena of vertices and, after the line-graph
/// transform, an arena of constraint edges.
pub struct Graph {
    pub nodes: Vec<Node>,
    pub edges: Vec<Edge>,
}

/// The resting state of a vertex graph: well-formed and undirected, with no
/// constraint edges built yet and no edge incidences recorded on the nodes.
pub open spec fn vertex_graph_wf(g: Graph) -> bool {
    &&& nodes_wf(g.nodes@)
    &&& nodes_sym(g.nodes@)
    &&& g.edges@.len() == 0
    &&& forall|k: int|
        0 <= k < g.nodes@.len() ==> (#[trigger] g.nodes@[k].adj_edges@.len()) == 0
}

/// How many entries of `s` exceed `v`.
pub open spec fn count_above(s: Seq<usize>, v: int) -> nat
    decreases s.len(),
{
    if s.len() == 0 {
        0
    } else {
        count_above(s.drop_last(), v) + (if s.last() > v {
            1nat
        } else {
            0nat
        })
    }
}

/// The number of undirected adjacent vertex pairs among the first `k`
/// nodes: each adjacent pair `{a, b}` with `a < b` is counted exactly once,
/// at its lower endpoint `a` (the adjacency lists are duplicate-free and
/// symmetric in a well-formed graph).
pub open spec fn pair_count(ns: Seq<Node>, k: int) -> nat
    decreases k,
{
    if k <= 0 {
        0
    } else {
        pair_count(ns, k - 1) + count_above(ns[k - 1].adj_nodes@, k - 1)
    }
}

/// On a list whose entries are unmarked exactly when they exceed `v`, the
/// unmarked count is the count of entries above `v`.
proof fn lemma_count_congruence(ns: Seq<Node>, s: Seq<usize>, v: int)
    requires
        forall|x: int|
            0 <= x < s.len() ==> (!ns[(#[trigger] s[x]) as int].marked <==> s[x] > v),
    ensures
        count_unmarked(ns, s) == count_above(s, v),
    decreases s.len(),
{
    if s.len() > 0 {
        lemma_count_congruence(ns, s.drop_last(), v);
        assert(s.last() == s[s.len() - 1]);
    }
}

/// Edge `e` connects exactly the vertex pair `{a, b}`.
pub open spec fn connects(e: Edge, a: int, b: int) -> bool {
    ||| (e.node_1 as int == a && e.node_2 as int == b)
    ||| (e.node_1 as int == b && e.node_2 as int == a)
}

/// Edges `a` and `b` share an endpoint among the first `k` vertices.
pub open spec fn shares_endpoint_below(es: Seq<Edge>, a: int, b: int, k: int) -> bool {
    exists|m: int|
        #![trigger incident(es[a], m), incident(es[b], m)]
        0 <= m < k && incident(es[a], m) && incident(es[b], m)
}

/// The resting state of the graph after the line-graph transform: the
/// vertex adjacency lists are gone, the edge arena is well-formed and
/// undirected, and the nodes' incidence lists agree exactly with the edges.
pub open spec fn edge_graph_wf(g: Graph) -> bool {
    &&& forall|k: int|
        0 <= k < g.nodes@.len() ==> ((#[trigger] g.nodes@[k].id) == k && g.nodes@[k].adj_nodes@.len()
            == 0)
    &&& edge_lists_wf(g.edges@)
    &&& edges_sym(g.edges@)
    &&& edge_endpoints_wf(g.edges@, g.nodes@.len() as int)
    &&& node_edge_lists_ok(g.nodes@, g.edges@)
    &&& node_edge_lists_complete(g.nodes@, g.edges@)
}

impl Graph {
    /// Build the vertex graph of a mesh: one node per vertex, and an
    /// undirected adjacency edge for every vertex pair of every triangle.
    /// Fails, returning no graph at all, as soon as a triangle names a
    /// vertex index outside the vertex buffer.
    pub fn new(mesh: Mesh) -> (r: Result<Graph, GraphError>)
        ensures
            r is Ok <==> mesh_valid(mesh.ibuff@, mesh.nb_vertices as int),
            r is Err ==> r == Result::<Graph, GraphError>::Err(GraphError::InvalidTriangleIndex),
            r is Ok ==> vertex_graph_wf(r->Ok_0),
            r is Ok ==> r->Ok_0.nodes@.len() == mesh.nb_vertices,
            r is Ok ==> forall|k: int|
                0 <= k < mesh.nb_vertices ==> !(#[trigger] r->Ok_0.nodes@[k].marked),
            r is Ok ==> forall|a: int, b: int|
                #[trigger] node_adj(r->Ok_0.nodes@, a, b) <==> mesh_adj(mesh.ibuff@, a, b),
    {
        let n = mesh.nb_vertices;
        let mut nodes: Vec<Node> = Vec::new();
        let mut vid: usize = 0;
        while vid < n
            invariant
                nodes@.len() == vid,
                vid <= n,
                forall|k: int|
                    0 <= k < vid ==> ((#[trigger] nodes@[k].id) == k && nodes@[k].adj_nodes@.len()
                        == 0 && nodes@[k].adj_edges@.len() == 0 && !nodes@[k].marked),
            decreases n - vid,
        {
            nodes.push(Node::new(vid));
            vid += 1;
        }
        proof {
            assert forall|k: int| 0 <= k < nodes@.len() implies #[trigger] node_wf_at(nodes@, k) by {
                assert(nodes@[k].id == k);
            }
            assert forall|a: int, b: int| !(#[trigger] node_adj(nodes@, a, b)) by {
                if node_adj(nodes@, a, b) {
                    assert(nodes@[a].id == a);
                    assert(nodes@[a].adj_nodes@.len() == 0);
                }
            }
            assert forall|k: int| 0 <= k < n implies ((#[trigger] nodes@[k].adj_edges@.len()) == 0
                && !nodes@[k].marked) by {
                assert(nodes@[k].id == k);
            }
        }
        let nb_tris = mesh.ibuff.len();
        let mut t: usize = 0;
        while t < nb_tris
            invariant
                nodes_wf(nodes@),
                nodes_sym(nodes@),
                nodes@.len() == n,
                n == mesh.nb_vertices,
                nb_tris == mesh.ibuff@.len(),
                t <= nb_tris,
                forall|k: int|
                    0 <= k < n ==> ((#[trigger] nodes@[k].adj_edges@.len()) == 0
                        && !nodes@[k].marked),
                forall|s: int|
                    0 <= s < t ==> ((#[trigger] mesh.ibuff@[s]).0 < n && mesh.ibuff@[s].1 < n
                        && mesh.ibuff@[s].2 < n),
                forall|a: int, b: int|
                    #[trigger] node_adj(nodes@, a, b) <==> exists|s: int|
                        0 <= s < t && tri_connects(#[trigger] mesh.ibuff@[s], a, b),
            decreases nb_tris - t,
        {
            let (id1, id2, id3) = mesh.ibuff[t];
            if id1 as u64 >= n as u64 || id2 as u64 >= n as u64 || id3 as u64 >= n as u64 {
                return Err(GraphError::InvalidTriangleIndex);
            }
            let a = id1 as usize;
            let b = id2 as usize;
            let c = id3 as usize;
            let ghost s0 = nodes@;
            Node::connect_nodes(&mut nodes, a, b);
            let ghost s1 = nodes@;
            Node::connect_nodes(&mut nodes, a, c);
            let ghost s2 = nodes@;
            Node::connect_nodes(&mut nodes, b, a);
            let ghost s3 = nodes@;
            Node::connect_nodes(&mut nodes, b, c);
            let ghost s4 = nodes@;
            Node::connect_nodes(&mut nodes, c, b);
            let ghost s5 = nodes@;
            Node::connect_nodes(&mut nodes, c, a);
            proof {
                let tri = mesh.ibuff@[t as int];
                let s6 = nodes@;
                assert forall|k: int| 0 <= k < n implies ((#[trigger] s6[k].adj_edges@.len()) == 0
                    && !s6[k].marked) by {
                    assert(s1[k].id == s0[k].id);
                    assert(s2[k].id == s1[k].id);
                    assert(s3[k].id == s2[k].id);
                    assert(s4[k].id == s3[k].id);
                    assert(s5[k].id == s4[k].id);
                    assert(s6[k].id == s5[k].id);
                }
                assert forall|x: int, y: int| #[trigger] node_adj(s6, x, y) <==> (node_adj(s0, x, y)
                    || tri_connects(tri, x, y)) by {
                    assert(node_adj(s6, x, y) <==> (node_adj(s5, x, y) || (c != a && ((x == c && y
                        == a) || (x == a && y == c)))));
                    assert(node_adj(s5, x, y) <==> (node_adj(s4, x, y) || (c != b && ((x == c && y
                        == b) || (x == b && y == c)))));
                    assert(node_adj(s4, x, y) <==> (node_adj(s3, x, y) || (b != c && ((x == b && y
                        == c) || (x == c && y == b)))));
                    assert(node_adj(s3, x, y) <==> (node_adj(s2, x, y) || (b != a && ((x == b && y
                        == a) || (x == a && y == b)))));
                    assert(node_adj(s2, x, y) <==> (node_adj(s1, x, y) || (a != c && ((x == a && y
                        == c) || (x == c && y == a)))));
                    assert(node_adj(s1, x, y) <==> (node_adj(s0, x, y) || (a != b && ((x == a && y
                        == b) || (x == b && y == a)))));
                }
                assert forall|x: int, y: int| #[trigger] node_adj(nodes@, x, y) <==> exists|s: int|
                    0 <= s < t + 1 && tri_connects(#[trigger] mesh.ibuff@[s], x, y) by {
                    if node_adj(nodes@, x, y) {
                        if node_adj(s0, x, y) {
                            let s = choose|s: int|
                                0 <= s < t && tri_connects(#[trigger] mesh.ibuff@[s], x, y);
                            assert(tri_connects(mesh.ibuff@[s], x, y));
                        } else {
                            assert(tri_connects(mesh.ibuff@[t as int], x, y));
                        }
                    } else {
                        if exists|s: int|
                            0 <= s < t + 1 && tri_connects(#[trigger] mesh.ibuff@[s], x, y) {
                            let s = choose|s: int|
                                0 <= s < t + 1 && tri_connects(#[trigger] mesh.ibuff@[s], x, y);
                            if s < t {
                                assert(node_adj(s0, x, y));
                            }
                            assert(false);
                        }
                    }
                }
            }
            t += 1;
        }
        let g = Graph { nodes, edges: Vec::new() };
        proof {
            assert forall|k: int| 0 <= k < n implies !(#[trigger] g.nodes@[k].marked) by {
                assert(g.nodes@[k].adj_edges@.len() == 0);
            }
            assert forall|a: int, b: int| #[trigger] node_adj(g.nodes@, a, b) <==> mesh_adj(
                mesh.ibuff@,
                a,
                b,
            ) by {}
        }
        Ok(g)
    }

    /// Clear every transient `marked` flag on nodes and edges; nothing else
    /// changes.
    pub fn unmark(&mut self)
        ensures
            final(self).nodes@.len() == old(self).nodes@.len(),
            final(self).edges@.len() == old(self).edges@.len(),
            forall|k: int|
                0 <= k < old(self).nodes@.len() ==> ((#[trigger] final(self).nodes@[k])
                    == (Node { marked: false, ..old(self).nodes@[k] })),
            forall|e: int|
                0 <= e < old(self).edges@.len() ==> ((#[trigger] final(self).edges@[e])
                    == (Edge { marked: false, ..old(self).edges@[e] })),
    {
        let nb_nodes = self.nodes.len();
        let mut k: usize = 0;
        while k < nb_nodes
            invariant
                nb_nodes == self.nodes@.len(),
                k <= nb_nodes,
                self.edges@ == old(self).edges@,
                self.nodes@.len() == old(self).nodes@.len(),
                forall|j: int|
                    0 <= j < k ==> ((#[trigger] self.nodes@[j]) == (Node {
                        marked: false,
                        ..old(self).nodes@[j]
                    })),
                forall|j: int|
                    k <= j < nb_nodes ==> ((#[trigger] self.nodes@[j]) == old(self).nodes@[j]),
            decreases nb_nodes - k,
        {
            let nk = &mut self.nodes[k];
            nk.unmark();
            k += 1;
        }
        let nb_edges = self.edges.len();
        let mut e: usize = 0;
        while e < nb_edges
            invariant
                nb_edges == self.edges@.len(),
                e <= nb_edges,
                self.nodes@.len() == old(self).nodes@.len(),
                forall|j: int|
                    0 <= j < old(self).nodes@.len() ==> ((#[trigger] self.nodes@[j]) == (Node {
                        marked: false,
                        ..old(self).nodes@[j]
                    })),
                self.edges@.len() == old(self).edges@.len(),
                forall|j: int|
                    0 <= j < e ==> ((#[trigger] self.edges@[j]) == (Edge {
                        marked: false,
                        ..old(self).edges@[j]
                    })),
                forall|j: int|
                    e <= j < nb_edges ==> ((#[trigger] self.edges@[j]) == old(self).edges@[j]),
            decreases nb_edges - e,
        {
            let ek = &mut self.edges[e];
            ek.unmark();
            e += 1;
        }
    }

    /// Strengthen the vertex graph: connect every candidate pair — vertices
    /// two hops apart that are not yet adjacent and share at least two
    /// common neighbors.  All candidate sets are computed against the graph
    /// as it stood on entry, and only then connected, so augmentation edges
    /// never feed back into candidate generation.
    #[verifier::rlimit(100)]
    #[verifier::spinoff_prover]
    pub fn augment(&mut self)
        requires
            vertex_graph_wf(*old(self)),
        ensures
            vertex_graph_wf(*final(self)),
            final(self).nodes@.len() == old(self).nodes@.len(),
            final(self).edges@ == old(self).edges@,
            forall|k: int|
                0 <= k < old(self).nodes@.len() ==> ((#[trigger] final(self).nodes@[k].id) == old(self).nodes@[k].id && final(self).nodes@[k].adj_edges == old(self).nodes@[k].adj_edges
                    && final(self).nodes@[k].marked == old(self).nodes@[k].marked),
            forall|a: int, b: int|
                #[trigger] node_adj(final(self).nodes@, a, b) <==> (node_adj(old(self).nodes@, a, b)
                    || cand(old(self).nodes@, a, b)),
    {
        let ghost ns0 = old(self).nodes@;
        let n = self.nodes.len();
        let mut to_connect: Vec<Vec<usize>> = Vec::new();
        let mut i: usize = 0;
        while i < n
            invariant
                self.nodes@ == ns0,
                self.edges@ == old(self).edges@,
                nodes_wf(ns0),
                nodes_sym(ns0),
                n == ns0.len(),
                to_connect@.len() == i,
                i <= n,
                forall|k: int, x: usize|
                    0 <= k < i ==> ((#[trigger] to_connect@[k]@.contains(x)) <==> cand(
                        ns0,
                        k,
                        x as int,
                    )),
            decreases n - i,
        {
            let row = Node::get_2_distant_adjs(&self.nodes, i);
            to_connect.push(row);
            i += 1;
        }
        let mut i2: usize = 0;
        while i2 < n
            invariant
                nodes_wf(ns0),
                nodes_sym(ns0),
                nodes_wf(self.nodes@),
                nodes_sym(self.nodes@),
                self.nodes@.len() == n,
                n == ns0.len(),
                self.edges@ == old(self).edges@,
                to_connect@.len() == n,
                i2 <= n,
                forall|k: int, x: usize|
                    0 <= k < n ==> ((#[trigger] to_connect@[k]@.contains(x)) <==> cand(
                        ns0,
                        k,
                        x as int,
                    )),
                forall|k: int|
                    0 <= k < n ==> ((#[trigger] self.nodes@[k].id) == ns0[k].id
                        && self.nodes@[k].adj_edges == ns0[k].adj_edges && self.nodes@[k].marked
                        == ns0[k].marked),
                forall|a: int, b: int|
                    node_adj(ns0, a, b) ==> #[trigger] node_adj(self.nodes@, a, b),
                forall|a: int, b: int|
                    #[trigger] node_adj(self.nodes@, a, b) ==> (node_adj(ns0, a, b) || cand(
                        ns0,
                        a,
                        b,
                    )),
                forall|k: int, x: usize|
                    0 <= k < i2 && #[trigger] cand(ns0, k, x as int) ==> node_adj(
                        self.nodes@,
                        k,
                        x as int,
                    ),
            decreases n - i2,
        {
            let row_len = to_connect[i2].len();
            let mut b: usize = 0;
            while b < row_len
                invariant
                    nodes_wf(ns0),
                    nodes_sym(ns0),
                    nodes_wf(self.nodes@),
                    nodes_sym(self.nodes@),
                    self.nodes@.len() == n,
                    n == ns0.len(),
                    i2 < n,
                    self.edges@ == old(self).edges@,
                    to_connect@.len() == n,
                    row_len == to_connect@[i2 as int]@.len(),
                    b <= row_len,
                    forall|k: int, x: usize|
                        0 <= k < n ==> ((#[trigger] to_connect@[k]@.contains(x)) <==> cand(
                            ns0,
                            k,
                            x as int,
                        )),
                    forall|k: int|
                        0 <= k < n ==> ((#[trigger] self.nodes@[k].id) == ns0[k].id
                            && self.nodes@[k].adj_edges == ns0[k].adj_edges && self.nodes@[k].marked
                            == ns0[k].marked),
                    forall|a: int, b2: int|
                        node_adj(ns0, a, b2) ==> #[trigger] node_adj(self.nodes@, a, b2),
                    forall|a: int, b2: int|
                        #[trigger] node_adj(self.nodes@, a, b2) ==> (node_adj(ns0, a, b2) || cand(
                            ns0,
                            a,
                            b2,
                        )),
                    forall|k: int, x: usize|
                        0 <= k < i2 && #[trigger] cand(ns0, k, x as int) ==> node_adj(
                            self.nodes@,
                            k,
                            x as int,
                        ),
                    forall|l: int|
                        0 <= l < b ==> node_adj(
                            self.nodes@,
                            i2 as int,
                            (#[trigger] to_connect@[i2 as int]@[l]) as int,
                        ),
                decreases row_len - b,
            {
                let x = to_connect[i2][b];
                proof {
                    assert(to_connect@[i2 as int]@[b as int] == x);
                    assert(to_connect@[i2 as int]@.contains(x));
                    assert(cand(ns0, i2 as int, x as int));
                }
                proof {
                    lemma_cand_sym(ns0);
                }
                let ghost ns_b = self.nodes@;
                Node::connect_nodes(&mut self.nodes, i2, x);
                proof {
                    assert forall|k: int| 0 <= k < n implies ((#[trigger] self.nodes@[k].id)
                        == ns0[k].id && self.nodes@[k].adj_edges == ns0[k].adj_edges
                        && self.nodes@[k].marked == ns0[k].marked) by {
                        assert(self.nodes@[k].id == ns_b[k].id);
                    }
                }
                b += 1;
            }
            proof {
                assert forall|x: usize| #[trigger] cand(ns0, i2 as int, x as int) implies node_adj(
                    self.nodes@,
                    i2 as int,
                    x as int,
                ) by {
                    assert(to_connect@[i2 as int]@.contains(x));
                    let l = choose|l: int|
                        0 <= l < to_connect@[i2 as int]@.len() && to_connect@[i2 as int]@[l] == x;
                    assert(node_adj(self.nodes@, i2 as int, (to_connect@[i2 as int]@[l]) as int));
                }
                assert forall|k: int| 0 <= k < n implies ((#[trigger] self.nodes@[k].id)
                    == ns0[k].id && self.nodes@[k].adj_edges == ns0[k].adj_edges
                    && self.nodes@[k].marked == ns0[k].marked) by {}
            }
            i2 += 1;
        }
        proof {
            lemma_cand_sym(ns0);
            assert forall|a: int, b: int| #[trigger] node_adj(final(self).nodes@, a, b) <==> (
            node_adj(ns0, a, b) || cand(ns0, a, b)) by {
                if cand(ns0, a, b) {
                    assert(cand(ns0, a, b as usize as int));
                }
            }
            assert forall|k: int| 0 <= k < n implies ((#[trigger] final(self).nodes@[k].id)
                == ns0[k].id && final(self).nodes@[k].adj_edges == ns0[k].adj_edges
                && final(self).nodes@[k].marked == ns0[k].marked) by {}
            assert forall|k: int| 0 <= k < n implies (#[trigger] final(self).nodes@[k].adj_edges@.len())
                == 0 by {
                assert(self.nodes@[k].id == ns0[k].id);
            }
        }
    }

    /// The line-graph transform.  Phase one walks the nodes in ascending
    /// order and materializes exactly one `Edge` per undirected adjacent
    /// vertex pair (colored `-1`); phase two connects every pair of distinct
    /// edges sharing an endpoint and discards the vertex adjacency lists.
    /// On an empty graph this is a no-op producing an empty edge list.
    #[verifier::rlimit(100)]
    #[verifier::spinoff_prover]
    pub fn build_edge_graph(&mut self)
        requires
            vertex_graph_wf(*old(self)),
        ensures
            edge_graph_wf(*final(self)),
            final(self).nodes@.len() == old(self).nodes@.len(),
            forall|k: int|
                0 <= k < old(self).nodes@.len() ==> (#[trigger] final(self).nodes@[k].marked),
            forall|e: int|
                0 <= e < final(self).edges@.len() ==> ((#[trigger] final(self).edges@[e].color)
                    == -1 && !final(self).edges@[e].marked && node_adj(
                    old(self).nodes@,
                    final(self).edges@[e].node_1 as int,
                    final(self).edges@[e].node_2 as int,
                )),
            forall|e1: int, e2: int|
                0 <= e1 < final(self).edges@.len() && 0 <= e2 < final(self).edges@.len() && e1 != e2
                    ==> !same_pair(
                    #[trigger] final(self).edges@[e1],
                    #[trigger] final(self).edges@[e2],
                ),
            forall|a: int, b: int|
                #[trigger] node_adj(old(self).nodes@, a, b) ==> exists|e: int|
                    0 <= e < final(self).edges@.len() && connects(
                        #[trigger] final(self).edges@[e],
                        a,
                        b,
                    ),
            final(self).edges@.len() == pair_count(old(self).nodes@, old(self).nodes@.len() as int),
            forall|e1: int, e2: int|
                #[trigger] edge_adj(final(self).edges@, e1, e2) <==> (0 <= e1 < final(self).edges@.len()
                    && 0 <= e2 < final(self).edges@.len() && e1 != e2 && shares_node(
                    final(self).edges@[e1],
                    final(self).edges@[e2],
                )),
            forall|e1: int, e2: int|
                0 <= e1 <= e2 < final(self).edges@.len() ==> (#[trigger] final(self).edges@[e1].node_2)
                    <= (#[trigger] final(self).edges@[e2].node_2),
    {
        let ghost ns0 = old(self).nodes@;
        self.unmark();
        let ghost ns1 = self.nodes@;
        proof {
            assert forall|k: int| 0 <= k < ns0.len() implies ((#[trigger] ns1[k].id) == ns0[k].id
                && ns1[k].adj_nodes == ns0[k].adj_nodes && ns1[k].adj_edges == ns0[k].adj_edges
                && !ns1[k].marked) by {}
            assert forall|k: int| 0 <= k < ns0.len() implies #[trigger] node_wf_at(ns1, k) by {
                assert(node_wf_at(ns0, k));
            }
            assert forall|a: int, b: int| #[trigger] node_adj(ns1, a, b) <==> node_adj(
                ns0,
                a,
                b,
            ) by {}
            assert forall|k: int| 0 <= k < ns0.len() implies ((#[trigger] ns1[k].adj_edges@.len())
                == 0) by {
                assert(ns1[k].adj_edges == ns0[k].adj_edges);
                assert(ns0[k].adj_edges@.len() == 0);
            }
            assert forall|k: int| 0 <= k < ns1.len() implies #[trigger] node_edge_lists_ok_at(
                ns1,
                self.edges@,
                k,
            ) by {
                assert(ns1[k].adj_edges@.len() == 0);
            }
        }
        split_phase(&mut self.nodes, &mut self.edges);
        let ghost ns2 = self.nodes@;
        let ghost es2 = self.edges@;
        proof {
            lemma_pair_count_congruence(ns1, ns0, ns0.len() as int);
            assert(es2.len() == pair_count(ns0, ns0.len() as int));
            assert forall|e: int| 0 <= e < es2.len() implies ((#[trigger] es2[e].node_1)
                < ns0.len() && es2[e].node_2 < ns0.len() && es2[e].node_1 != es2[e].node_2) by {
                assert(es2[e].id == e);
                assert(es2[e].node_2 < es2[e].node_1);
            }
        }
        connect_phase(&mut self.nodes, &mut self.edges);
        proof {
            let nsf = final(self).nodes@;
            let esf = final(self).edges@;
            assert forall|k: int| 0 <= k < ns0.len() implies ((#[trigger] nsf[k].id) == k
                && nsf[k].adj_nodes@.len() == 0 && nsf[k].marked) by {
                assert(nsf[k].id == ns2[k].id);
                assert(ns2[k].id == ns1[k].id);
                assert(node_wf_at(ns0, k));
            }
            assert forall|k: int| 0 <= k < ns0.len() implies (#[trigger] nsf[k].marked) by {
                assert(nsf[k].id == ns2[k].id);
                assert(ns2[k].id == ns1[k].id);
            }
            assert forall|e: int| 0 <= e < esf.len() implies ((#[trigger] esf[e].color) == -1
                && !esf[e].marked && esf[e].node_1 < ns0.len() && esf[e].node_2 < ns0.len()
                && esf[e].node_1 != esf[e].node_2 && node_adj(
                ns0,
                esf[e].node_1 as int,
                esf[e].node_2 as int,
            )) by {
                assert(esf[e].id == es2[e].id);
                assert(es2[e].id == e);
                assert(node_adj(ns1, es2[e].node_1 as int, es2[e].node_2 as int));
            }
            assert forall|e1: int, e2: int|
                0 <= e1 < esf.len() && 0 <= e2 < esf.len() && e1 != e2 implies !same_pair(
                #[trigger] esf[e1],
                #[trigger] esf[e2],
            ) by {
                assert(esf[e1].id == es2[e1].id);
                assert(esf[e2].id == es2[e2].id);
                assert(!same_pair(es2[e1], es2[e2]));
            }
            assert forall|e: int| 0 <= e < esf.len() implies ((#[trigger] esf[e].node_1)
                < nsf.len() && esf[e].node_2 < nsf.len() && esf[e].node_1 != esf[e].node_2) by {
                assert(esf[e].id == es2[e].id);
                assert(es2[e].id == e);
            }
            assert forall|e1: int, e2: int| 0 <= e1 <= e2 < esf.len() implies ((
            #[trigger] esf[e1].node_2) <= (#[trigger] esf[e2].node_2)) by {
                assert(esf[e1].id == es2[e1].id);
                assert(esf[e2].id == es2[e2].id);
                assert(es2[e1].node_2 <= es2[e2].node_2);
            }
            assert forall|a: int, b: int| #[trigger] node_adj(ns0, a, b) implies exists|e: int|
                0 <= e < esf.len() && connects(#[trigger] esf[e], a, b) by {
                assert(node_adj(ns1, a, b));
                let e = choose|e: int| 0 <= e < es2.len() && connects(#[trigger] es2[e], a, b);
                assert(esf[e].id == es2[e].id);
                assert(connects(esf[e], a, b));
            }
        }
    }
}

/// Phase one of the line-graph transform: process every node in ascending
/// order, creating one `Edge` per undirected adjacent vertex pair.  Entered
/// with no edges and no marks; leaves every node marked.
#[verifier::rlimit(100)]
#[verifier::spinoff_prover]
fn split_phase(nodes: &mut Vec<Node>, edges: &mut Vec<Edge>)
    requires
        nodes_wf(old(nodes)@),
        nodes_sym(old(nodes)@),
        old(edges)@.len() == 0,
        forall|k: int|
            0 <= k < old(nodes)@.len() ==> ((#[trigger] old(nodes)@[k].adj_edges@.len()) == 0
                && !old(nodes)@[k].marked),
    ensures
        final(nodes)@.len() == old(nodes)@.len(),
        forall|k: int|
            0 <= k < old(nodes)@.len() ==> ((#[trigger] final(nodes)@[k].id) == old(nodes)@[k].id
                && final(nodes)@[k].adj_nodes == old(nodes)@[k].adj_nodes && final(nodes)@[k].marked),
        final(edges)@.len() == pair_count(old(nodes)@, old(nodes)@.len() as int),
        forall|e: int|
            0 <= e < final(edges)@.len() ==> ((#[trigger] final(edges)@[e].id) == e && final(edges)@[e].color == -1 && !final(edges)@[e].marked && final(edges)@[e].adj_edges@.len()
                == 0),
        forall|e: int|
            0 <= e < final(edges)@.len() ==> ((#[trigger] final(edges)@[e].node_2) < final(edges)@[e].node_1 && (final(edges)@[e].node_1 as int) < old(nodes)@.len() && node_adj(
                old(nodes)@,
                final(edges)@[e].node_1 as int,
                final(edges)@[e].node_2 as int,
            )),
        forall|e1: int, e2: int|
            0 <= e1 < final(edges)@.len() && 0 <= e2 < final(edges)@.len() && e1 != e2
                ==> !same_pair(#[trigger] final(edges)@[e1], #[trigger] final(edges)@[e2]),
        forall|a: int, b: int|
            #[trigger] node_adj(old(nodes)@, a, b) ==> exists|e: int|
                0 <= e < final(edges)@.len() && connects(#[trigger] final(edges)@[e], a, b),
        forall|e1: int, e2: int|
            0 <= e1 <= e2 < final(edges)@.len() ==> (#[trigger] final(edges)@[e1].node_2)
                <= (#[trigger] final(edges)@[e2].node_2),
        node_edge_lists_ok(final(nodes)@, final(edges)@),
        node_edge_lists_complete(final(nodes)@, final(edges)@),
{
    let ghost ns0 = old(nodes)@;
    let ghost es0 = old(edges)@;
    let n = nodes.len();
    proof {
        assert forall|k: int| 0 <= k < n implies (!(#[trigger] nodes@[k].marked)
            && nodes@[k].adj_edges@.len() == 0) by {
            assert(ns0[k].adj_edges@.len() == 0);
        }
        assert forall|k: int| 0 <= k < n implies #[trigger] node_edge_lists_ok_at(
            nodes@,
            edges@,
            k,
        ) by {
            assert(nodes@[k].adj_edges@.len() == 0);
        }
    }
    let mut i: usize = 0;
    while i < n
        invariant
            nodes_wf(ns0),
            nodes_sym(ns0),
            es0.len() == 0,
            n == nodes@.len(),
            n == ns0.len(),
            i <= n,
            nodes_wf(nodes@),
            forall|k: int|
                0 <= k < n ==> ((#[trigger] nodes@[k].id) == ns0[k].id && nodes@[k].adj_nodes
                    == ns0[k].adj_nodes),
            forall|k: int| 0 <= k < n ==> ((#[trigger] nodes@[k].marked) <==> k < i),
            edges@.len() == pair_count(ns0, i as int),
            forall|e: int|
                0 <= e < edges@.len() ==> ((#[trigger] edges@[e].id) == e && edges@[e].color == -1
                    && !edges@[e].marked && edges@[e].adj_edges@.len() == 0),
            forall|e: int|
                0 <= e < edges@.len() ==> ((#[trigger] edges@[e].node_2 as int) < i
                    && edges@[e].node_1 > edges@[e].node_2 && edges@[e].node_1 < n && node_adj(
                    ns0,
                    edges@[e].node_1 as int,
                    edges@[e].node_2 as int,
                )),
            forall|e1: int, e2: int|
                0 <= e1 < edges@.len() && 0 <= e2 < edges@.len() && e1 != e2 ==> !same_pair(
                    #[trigger] edges@[e1],
                    #[trigger] edges@[e2],
                ),
            forall|e1: int, e2: int|
                0 <= e1 <= e2 < edges@.len() ==> (#[trigger] edges@[e1].node_2)
                    <= (#[trigger] edges@[e2].node_2),
            forall|a: int, b: int|
                #[trigger] node_adj(ns0, a, b) && (a < i || b < i) ==> exists|e: int|
                    0 <= e < edges@.len() && connects(#[trigger] edges@[e], a, b),
            node_edge_lists_ok(nodes@, edges@),
            node_edge_lists_complete(nodes@, edges@),
        decreases n - i,
    {
        let ghost ns_h = nodes@;
        let ghost es_h = edges@;
        let ghost adj = ns0[i as int].adj_nodes@;
        proof {
            assert(node_wf_at(ns0, i as int));
            assert(nodes@[i as int].id == ns0[i as int].id);
        }
        Node::split(nodes, i, edges);
        let cur_edges = edges.len();
        proof {
            let nsn = nodes@;
            let esn = edges@;
            assert(esn.len() == cur_edges);
            assert(ns_h[i as int].adj_nodes@ == adj);
            // each listed neighbor is unmarked exactly when it lies above i
            assert forall|x: int| 0 <= x < adj.len() implies (!ns_h[(#[trigger] adj[x]) as int].marked
                <==> adj[x] > i) by {
                assert(adj[x] < n && adj[x] as int != i as int);
                assert(ns_h[adj[x] as int].id == ns0[adj[x] as int].id);
            }
            lemma_count_congruence(ns_h, adj, i as int);
            assert(esn.len() == pair_count(ns0, i as int + 1));
            // marked flags now cover 0 ..= i
            assert forall|k: int| 0 <= k < n implies ((#[trigger] nsn[k].marked) <==> k < i
                + 1) by {
                assert(nsn[k].id == ns_h[k].id);
                assert(nsn[k].marked == (ns_h[k].marked || k == i));
            }
            assert forall|k: int| 0 <= k < n implies ((#[trigger] nsn[k].id) == ns0[k].id
                && nsn[k].adj_nodes == ns0[k].adj_nodes) by {
                assert(nsn[k].id == ns_h[k].id);
            }
            // properties of the new edges
            assert forall|e: int| 0 <= e < esn.len() implies ((#[trigger] esn[e].id) == e
                && esn[e].color == -1 && !esn[e].marked && esn[e].adj_edges@.len() == 0) by {
                if e < es_h.len() {
                    assert(esn[e] == es_h[e]);
                    assert(es_h[e].id == e);
                }
            }
            assert forall|e: int| 0 <= e < esn.len() implies ((#[trigger] esn[e].node_2 as int)
                < i + 1 && esn[e].node_1 > esn[e].node_2 && esn[e].node_1 < n && node_adj(
                ns0,
                esn[e].node_1 as int,
                esn[e].node_2 as int,
            )) by {
                if e < es_h.len() {
                    assert(esn[e] == es_h[e]);
                    assert(es_h[e].id == e);
                } else {
                    assert(esn[e].id == e);
                    let x = esn[e].node_1;
                    assert(adj.contains(x));
                    let p = choose|p: int| 0 <= p < adj.len() && adj[p] == x;
                    assert(x < n && x as int != i as int);
                    assert(ns_h[x as int].id == ns0[x as int].id);
                    assert(!ns_h[x as int].marked);
                    assert(x > i);
                    assert(node_adj(ns0, i as int, x as int));
                    assert(node_adj(ns0, x as int, i as int));
                }
            }
            // edges stay grouped by their lower endpoint, in ascending order
            assert forall|e1: int, e2: int| 0 <= e1 <= e2 < esn.len() implies ((
            #[trigger] esn[e1].node_2) <= (#[trigger] esn[e2].node_2)) by {
                if e2 < es_h.len() {
                    assert(esn[e1] == es_h[e1] && esn[e2] == es_h[e2]);
                    assert(es_h[e1].node_2 <= es_h[e2].node_2);
                } else if e1 < es_h.len() {
                    assert(esn[e1] == es_h[e1]);
                    assert(es_h[e1].id == e1);
                    assert((es_h[e1].node_2 as int) < i);
                    assert(esn[e2].id == e2);
                    assert(esn[e2].node_2 == i);
                } else {
                    assert(esn[e1].id == e1);
                    assert(esn[e2].id == e2);
                    assert(esn[e1].node_2 == i && esn[e2].node_2 == i);
                }
            }
            // pairs stay pairwise distinct
            assert forall|e1: int, e2: int|
                0 <= e1 < esn.len() && 0 <= e2 < esn.len() && e1 != e2 implies !same_pair(
                #[trigger] esn[e1],
                #[trigger] esn[e2],
            ) by {
                if e1 < es_h.len() && e2 < es_h.len() {
                    assert(esn[e1] == es_h[e1] && esn[e2] == es_h[e2]);
                    assert(!same_pair(es_h[e1], es_h[e2]));
                } else if e1 < es_h.len() {
                    assert(esn[e1] == es_h[e1]);
                    assert(es_h[e1].id == e1);
                    assert((es_h[e1].node_2 as int) < i);
                    assert(esn[e2].id == e2);
                    assert((esn[e1].node_2 as int) < i && esn[e2].node_2 == i);
                } else if e2 < es_h.len() {
                    assert(esn[e2] == es_h[e2]);
                    assert(es_h[e2].id == e2);
                    assert((es_h[e2].node_2 as int) < i);
                    assert(esn[e1].id == e1);
                    assert((esn[e2].node_2 as int) < i && esn[e1].node_2 == i);
                }
            }
            // every pair whose lower endpoint is now processed has its edge
            assert forall|a: int, b: int|
                #[trigger] node_adj(ns0, a, b) && (a < i + 1 || b < i + 1) implies exists|e: int|
                0 <= e < esn.len() && connects(#[trigger] esn[e], a, b) by {
                if a < i || b < i {
                    let e = choose|e: int| 0 <= e < es_h.len() && connects(#[trigger] es_h[e], a, b);
                    assert(esn[e] == es_h[e]);
                    assert(connects(esn[e], a, b));
                } else if a == i || b == i {
                    let lo: int = i as int;
                    let hi: int = if a == i {
                        b
                    } else {
                        a
                    };
                    assert(node_adj(ns0, lo, hi));
                    if hi < lo {
                        assert(false);
                    } else if hi == lo {
                        assert(node_wf_at(ns0, lo));
                        let p = choose|p: int| 0 <= p < adj.len() && adj[p] == hi as usize;
                        assert(adj[p] as int != lo);
                        assert(false);
                    } else {
                        assert(adj.contains(hi as usize));
                        assert(ns_h[hi].id == ns0[hi].id);
                        assert(!ns_h[hi as int].marked);
                        let e = choose|e: int|
                            es_h.len() <= e < esn.len() && (#[trigger] esn[e].node_1)
                                == hi as usize;
                        assert(esn[e].id == e);
                        assert(esn[e].node_2 == i);
                        assert(connects(esn[e], a, b));
                    }
                }
            }
            // node incidence lists stay complete
            assert forall|k2: int, e: int|
                0 <= k2 < n && 0 <= e < esn.len() && #[trigger] incident(esn[e], k2) implies
                nsn[k2].adj_edges@.contains(e as usize) by {
                assert(nsn[k2].adj_edges@.contains(e as usize) <==> (
                ns_h[k2].adj_edges@.contains(e as usize) || (es_h.len() <= (e as usize) && ((
                e as usize) as int) < esn.len() && incident(esn[(e as usize) as int], k2))));
                if e < es_h.len() {
                    assert(esn[e] == es_h[e]);
                    assert(incident(es_h[e], k2));
                    assert(ns_h[k2].adj_edges@.contains(e as usize));
                }
            }
        }
        i += 1;
    }
    proof {
        assert forall|k: int| 0 <= k < n implies ((#[trigger] final(nodes)@[k].id) == ns0[k].id
            && final(nodes)@[k].adj_nodes == ns0[k].adj_nodes && final(nodes)@[k].marked) by {}
    }
}

/// After phase two, every node keeps its identity, marks and incidence
/// list, and has lost its vertex adjacency list.
pub open spec fn vertex_lists_cleared(ns0: Seq<Node>, nsf: Seq<Node>) -> bool {
    forall|k: int|
        0 <= k < ns0.len() ==> ((#[trigger] nsf[k].id) == ns0[k].id && nsf[k].adj_nodes@.len()
            == 0 && nsf[k].adj_edges == ns0[k].adj_edges && nsf[k].marked == ns0[k].marked)
}

/// Phase two of the line-graph transform: for every node, make all pairs of
/// its distinct incident edges mutually adjacent, and drop its vertex
/// adjacency list.  Afterwards two edges are adjacent exactly when they
/// share an endpoint vertex.
#[verifier::rlimit(100)]
#[verifier::spinoff_prover]
fn connect_phase(nodes: &mut Vec<Node>, edges: &mut Vec<Edge>)
    requires
        forall|e: int|
            0 <= e < old(edges)@.len() ==> ((#[trigger] old(edges)@[e].id) == e && old(edges)@[e].adj_edges@.len() == 0),
        forall|e: int|
            0 <= e < old(edges)@.len() ==> ((#[trigger] old(edges)@[e].node_1) < old(nodes)@.len() && old(edges)@[e].node_2 < old(nodes)@.len() && old(edges)@[e].node_1 != old(edges)@[e].node_2),
        node_edge_lists_ok(old(nodes)@, old(edges)@),
        node_edge_lists_complete(old(nodes)@, old(edges)@),
    ensures
        final(nodes)@.len() == old(nodes)@.len(),
        final(edges)@.len() == old(edges)@.len(),
        vertex_lists_cleared(old(nodes)@, final(nodes)@),
        forall|e: int|
            0 <= e < old(edges)@.len() ==> ((#[trigger] final(edges)@[e].id) == old(edges)@[e].id && final(edges)@[e].color == old(edges)@[e].color && final(edges)@[e].marked
                == old(edges)@[e].marked && final(edges)@[e].node_1 == old(edges)@[e].node_1
                && final(edges)@[e].node_2 == old(edges)@[e].node_2),
        edge_lists_wf(final(edges)@),
        edges_sym(final(edges)@),
        node_edge_lists_ok(final(nodes)@, final(edges)@),
        node_edge_lists_complete(final(nodes)@, final(edges)@),
        forall|e1: int, e2: int|
            #[trigger] edge_adj(final(edges)@, e1, e2) <==> (0 <= e1 < old(edges)@.len() && 0 <= e2
                < old(edges)@.len() && e1 != e2 && shares_node(
                final(edges)@[e1],
                final(edges)@[e2],
            )),
{
    let ghost ns0 = old(nodes)@;
    let ghost es_s = old(edges)@;
    let n = nodes.len();
    let m_edges = edges.len();
    proof {
        assert forall|e: int| 0 <= e < es_s.len() implies #[trigger] edge_lists_wf_at(es_s, e) by {
            assert(es_s[e].id == e);
        }
        assert forall|a: int, b: int| !(#[trigger] edge_adj(es_s, a, b)) by {
            if edge_adj(es_s, a, b) {
                assert(es_s[a].id == a);
                assert(es_s[a].adj_edges@.len() == 0);
            }
        }
    }
    proof {
        assert forall|e: int| 0 <= e < es_s.len() implies ((#[trigger] es_s[e].id) == e && (
        es_s[e].node_2 as int) < n && es_s[e].node_1 < n && es_s[e].node_1 != es_s[e].node_2) by {
            assert(es_s[e].node_1 < ns0.len());
        }
    }
    let mut k: usize = 0;
    while k < n
        invariant
            n == nodes@.len(),
            n == ns0.len(),
            k <= n,
            es_s.len() == m_edges,
            edges@.len() == es_s.len(),
            forall|e: int|
                0 <= e < es_s.len() ==> ((#[trigger] edges@[e].id) == es_s[e].id && edges@[e].color
                    == es_s[e].color && edges@[e].marked == es_s[e].marked && edges@[e].node_1
                    == es_s[e].node_1 && edges@[e].node_2 == es_s[e].node_2),
            forall|e: int|
                0 <= e < es_s.len() ==> ((#[trigger] es_s[e].id) == e && (es_s[e].node_2 as int)
                    < n && es_s[e].node_1 < n && es_s[e].node_1 != es_s[e].node_2),
            forall|k2: int|
                0 <= k2 < n ==> ((#[trigger] nodes@[k2].id) == ns0[k2].id && nodes@[k2].marked
                    == ns0[k2].marked && nodes@[k2].adj_edges == ns0[k2].adj_edges),
            forall|k2: int| 0 <= k2 < k ==> (#[trigger] nodes@[k2].adj_nodes@.len()) == 0,
            forall|k2: int|
                k <= k2 < n ==> (#[trigger] nodes@[k2].adj_nodes) == ns0[k2].adj_nodes,
            node_edge_lists_ok(nodes@, edges@),
            node_edge_lists_complete(nodes@, edges@),
            edge_lists_wf(edges@),
            edges_sym(edges@),
            forall|a: int, b: int|
                #[trigger] edge_adj(edges@, a, b) <==> (0 <= a < es_s.len() && 0 <= b < es_s.len()
                    && a != b && shares_endpoint_below(edges@, a, b, k as int)),
        decreases n - k,
    {
        let ghost ns_h = nodes@;
        let ghost es_h = edges@;
        {
            let nk = &mut nodes[k];
            nk.clear_adj_nodes();
        }
        let ghost ns_c = nodes@;
        proof {
            assert(node_edge_lists_ok_at(ns_h, es_h, k as int));
            assert forall|k2: int| 0 <= k2 < n implies #[trigger] node_edge_lists_ok_at(
                ns_c,
                es_h,
                k2,
            ) by {
                assert(node_edge_lists_ok_at(ns_h, es_h, k2));
                assert(ns_c[k2].adj_edges == ns_h[k2].adj_edges);
            }
        }
        let nk2 = &nodes[k];
        nk2.connect_edges(edges);
        proof {
            let esn = edges@;
            let list = ns_c[k as int].adj_edges@;
            assert(ns_c[k as int].adj_edges == ns_h[k as int].adj_edges);
            // membership in node k's incidence list is exactly incidence
            assert forall|a: int| 0 <= a < es_s.len() implies (list.contains(a as usize)
                <==> incident(es_h[a], k as int)) by {
                assert(node_edge_lists_ok_at(ns_h, es_h, k as int));
                if list.contains(a as usize) {
                    let p = choose|p: int| 0 <= p < list.len() && list[p] == a as usize;
                    assert(incident(es_h[list[p] as int], k as int));
                }
                if incident(es_h[a], k as int) {
                    assert(list.contains(a as usize));
                }
            }
            assert forall|k2: int| 0 <= k2 < n implies #[trigger] node_edge_lists_ok_at(
                nodes@,
                esn,
                k2,
            ) by {
                assert(node_edge_lists_ok_at(ns_c, es_h, k2));
                assert forall|x: int| 0 <= x < nodes@[k2].adj_edges@.len() implies (
                #[trigger] nodes@[k2].adj_edges@[x]) < esn.len() && incident(
                    esn[nodes@[k2].adj_edges@[x] as int],
                    k2,
                ) by {
                    let ei = nodes@[k2].adj_edges@[x];
                    assert(incident(es_h[ei as int], k2));
                    assert(esn[ei as int].id == es_h[ei as int].id);
                    assert(esn[ei as int].node_1 == es_h[ei as int].node_1 && esn[ei as int].node_2
                        == es_h[ei as int].node_2);
                }
            }
            assert forall|k2: int, e: int|
                0 <= k2 < n && 0 <= e < esn.len() && #[trigger] incident(esn[e], k2) implies
                nodes@[k2].adj_edges@.contains(e as usize) by {
                assert(esn[e].id == es_h[e].id);
                assert(esn[e].node_1 == es_h[e].node_1 && esn[e].node_2 == es_h[e].node_2);
                assert(incident(es_h[e], k2));
            }
            // the adjacency iff advances by one endpoint
            assert forall|a: int, b: int| #[trigger] edge_adj(esn, a, b) <==> (0 <= a
                < es_s.len() && 0 <= b < es_s.len() && a != b && shares_endpoint_below(
                esn,
                a,
                b,
                k as int + 1,
            )) by {
                if 0 <= a < es_s.len() {
                    assert(esn[a].id == es_h[a].id);
                    assert(esn[a].node_1 == es_h[a].node_1 && esn[a].node_2 == es_h[a].node_2);
                }
                if 0 <= b < es_s.len() {
                    assert(esn[b].id == es_h[b].id);
                    assert(esn[b].node_1 == es_h[b].node_1 && esn[b].node_2 == es_h[b].node_2);
                }
                if edge_adj(esn, a, b) {
                    if edge_adj(es_h, a, b) {
                        assert(shares_endpoint_below(es_h, a, b, k as int));
                        let m = choose|m: int|
                            #![trigger incident(es_h[a], m), incident(es_h[b], m)]
                            0 <= m < k && incident(es_h[a], m) && incident(es_h[b], m);
                        assert(incident(esn[a], m) && incident(esn[b], m));
                        assert(shares_endpoint_below(esn, a, b, k as int + 1));
                    } else {
                        assert(list.contains(a as usize) && list.contains(b as usize));
                        assert(incident(es_h[a], k as int) && incident(es_h[b], k as int));
                        assert(incident(esn[a], k as int) && incident(esn[b], k as int));
                        assert(shares_endpoint_below(esn, a, b, k as int + 1));
                    }
                } else {
                    if 0 <= a < es_s.len() && 0 <= b < es_s.len() && a != b
                        && shares_endpoint_below(esn, a, b, k as int + 1) {
                        let m = choose|m: int|
                            #![trigger incident(esn[a], m), incident(esn[b], m)]
                            0 <= m < k + 1 && incident(esn[a], m) && incident(esn[b], m);
                        if m < k as int {
                            assert(incident(es_h[a], m) && incident(es_h[b], m));
                            assert(shares_endpoint_below(es_h, a, b, k as int));
                            assert(edge_adj(es_h, a, b));
                            assert(edge_adj(esn, a, b));
                        } else {
                            assert(incident(es_h[a], k as int) && incident(es_h[b], k as int));
                            assert(list.contains(a as usize) && list.contains(b as usize));
                            assert(edge_adj(esn, a, b));
                        }
                        assert(false);
                    }
                }
            }
            assert forall|e: int| 0 <= e < es_s.len() implies ((#[trigger] edges@[e].id)
                == es_s[e].id && edges@[e].color == es_s[e].color && edges@[e].marked
                == es_s[e].marked && edges@[e].node_1 == es_s[e].node_1 && edges@[e].node_2
                == es_s[e].node_2) by {
                assert(esn[e].id == es_h[e].id);
                assert(es_h[e].id == es_s[e].id);
            }
            assert forall|k2: int| 0 <= k2 < n implies ((#[trigger] nodes@[k2].id) == ns0[k2].id
                && nodes@[k2].marked == ns0[k2].marked && nodes@[k2].adj_edges
                == ns0[k2].adj_edges) by {
                assert(ns_h[k2].id == ns0[k2].id);
                assert(nodes@[k2] == ns_c[k2]);
            }
            assert forall|k2: int| 0 <= k2 < k + 1 implies (#[trigger] nodes@[k2].adj_nodes@.len())
                == 0 by {
                if k2 < k {
                    assert(ns_h[k2].adj_nodes@.len() == 0);
                }
                assert(nodes@[k2] == ns_c[k2]);
            }
            assert forall|k2: int| k + 1 <= k2 < n implies (#[trigger] nodes@[k2].adj_nodes)
                == ns0[k2].adj_nodes by {
                assert(ns_h[k2].adj_nodes == ns0[k2].adj_nodes);
                assert(nodes@[k2] == ns_c[k2]);
            }
        }
        k += 1;
    }
    proof {
        assert(vertex_lists_cleared(old(nodes)@, final(nodes)@)) by {
            assert forall|k2: int| 0 <= k2 < old(nodes)@.len() implies ((#[trigger] final(nodes)@[k2].id) == old(nodes)@[k2].id && final(nodes)@[k2].adj_nodes@.len() == 0 && final(nodes)@[k2].adj_edges == old(nodes)@[k2].adj_edges && final(nodes)@[k2].marked == old(nodes)@[k2].marked) by {
                assert(nodes@[k2].id == ns0[k2].id);
                assert(nodes@[k2].adj_nodes@.len() == 0);
            }
        }
        let esf = final(edges)@;
        assert forall|e1: int, e2: int| #[trigger] edge_adj(esf, e1, e2) <==> (0 <= e1 < esf.len()
            && 0 <= e2 < esf.len() && e1 != e2 && shares_node(esf[e1], esf[e2])) by {
            if 0 <= e1 < esf.len() && 0 <= e2 < esf.len() {
                assert(esf[e1].id == es_s[e1].id);
                assert(esf[e2].id == es_s[e2].id);
                assert(esf[e1].node_1 == es_s[e1].node_1 && esf[e1].node_2 == es_s[e1].node_2);
                assert(esf[e2].node_1 == es_s[e2].node_1 && esf[e2].node_2 == es_s[e2].node_2);
                if shares_node(esf[e1], esf[e2]) {
                    if esf[e1].node_1 == esf[e2].node_1 {
                        let m = esf[e1].node_1 as int;
                        assert(incident(esf[e1], m) && incident(esf[e2], m));
                        assert(shares_endpoint_below(esf, e1, e2, n as int));
                    } else if esf[e1].node_1 == esf[e2].node_2 {
                        let m = esf[e1].node_1 as int;
                        assert(incident(esf[e1], m) && incident(esf[e2], m));
                        assert(shares_endpoint_below(esf, e1, e2, n as int));
                    } else if esf[e1].node_2 == esf[e2].node_1 {
                        let m = esf[e1].node_2 as int;
                        assert(incident(esf[e1], m) && incident(esf[e2], m));
                        assert(shares_endpoint_below(esf, e1, e2, n as int));
                    } else if esf[e1].node_2 == esf[e2].node_2 {
                        let m = esf[e1].node_2 as int;
                        assert(incident(esf[e1], m) && incident(esf[e2], m));
                        assert(shares_endpoint_below(esf, e1, e2, n as int));
                    }
                }
                if shares_endpoint_below(esf, e1, e2, n as int) {
                    let m = choose|m: int|
                        #![trigger incident(esf[e1], m), incident(esf[e2], m)]
                        0 <= m < n && incident(esf[e1], m) && incident(esf[e2], m);
                    assert(shares_node(esf[e1], esf[e2]));
                }
            }
        }
    }
}

/// The point of the coloring: in a graph whose edge adjacency means exactly
/// "these two constraints share a vertex" (as `build_edge_graph` leaves it)
/// and whose coloring is valid (as `color_edge_graph` leaves it), two
/// distinct edges of the same color class never touch a common vertex, so
/// each color class can be processed in parallel without conflicts.
pub proof fn lemma_color_classes_independent(es: Seq<Edge>)
    requires
        forall|e1: int, e2: int|
            #[trigger] edge_adj(es, e1, e2) <==> (0 <= e1 < es.len() && 0 <= e2 < es.len() && e1
                != e2 && shares_node(es[e1], es[e2])),
        forall|a: int, b: int| #[trigger] edge_adj(es, a, b) ==> es[a].color != es[b].color,
    ensures
        forall|e1: int, e2: int|
            0 <= e1 < es.len() && 0 <= e2 < es.len() && e1 != e2 && (#[trigger] es[e1].color)
                == (#[trigger] es[e2].color) ==> !shares_node(es[e1], es[e2]),
{
    assert forall|e1: int, e2: int|
        0 <= e1 < es.len() && 0 <= e2 < es.len() && e1 != e2 && (#[trigger] es[e1].color) == (
        #[trigger] es[e2].color) implies !shares_node(es[e1], es[e2]) by {
        if shares_node(es[e1], es[e2]) {
            assert(edge_adj(es, e1, e2));
        }
    }
}

/// Two node sequences with the same adjacency lists have the same number of
/// adjacent pairs.
proof fn lemma_pair_count_congruence(ns1: Seq<Node>, ns2: Seq<Node>, k: int)
    requires
        ns1.len() == ns2.len(),
        0 <= k <= ns1.len(),
        forall|j: int| 0 <= j < ns1.len() ==> (#[trigger] ns1[j].adj_nodes) == ns2[j].adj_nodes,
    ensures
        pair_count(ns1, k) == pair_count(ns2, k),
    decreases k,
{
    if k > 0 {
        lemma_pair_count_congruence(ns1, ns2, k - 1);
        assert(ns1[k - 1].adj_nodes == ns2[k - 1].adj_nodes);
    }
}


impl Graph {
    /// DSATUR-style greedy coloring of the edge graph.  The edge of highest
    /// degree is seeded with color `0`; then, while uncolored edges remain,
    /// the uncolored edge with the highest saturation degree (ties broken by
    /// higher raw degree, then by lower id) receives a color one above the
    /// largest color among its adjacent edges.  Exactly one edge is colored
    /// per round, so the loop makes exactly `N - 1` assignments beyond the
    /// seed.  Returns the number of colors in use; an empty edge graph is a
    /// usage error.
    #[verifier::rlimit(100)]
    #[verifier::spinoff_prover]
    pub fn color_edge_graph(&mut self) -> (r: Result<usize, GraphError>)
        requires
            edge_lists_wf(old(self).edges@),
            edges_sym(old(self).edges@),
            old(self).edges@.len() <= i32::MAX,
            forall|e: int|
                0 <= e < old(self).edges@.len() ==> (#[trigger] old(self).edges@[e].color) == -1,
        ensures
            r is Err <==> old(self).edges@.len() == 0,
            r is Err ==> *final(self) == *old(self) && r == Result::<usize, GraphError>::Err(
                GraphError::EmptyEdgeGraph,
            ),
            r is Ok ==> final(self).nodes == old(self).nodes,
            r is Ok ==> final(self).edges@.len() == old(self).edges@.len(),
            r is Ok ==> forall|e: int|
                0 <= e < old(self).edges@.len() ==> ((#[trigger] final(self).edges@[e].id) == old(self).edges@[e].id && final(self).edges@[e].marked == old(self).edges@[e].marked
                    && final(self).edges@[e].node_1 == old(self).edges@[e].node_1 && final(self).edges@[e].node_2 == old(self).edges@[e].node_2 && final(self).edges@[e].adj_edges
                    == old(self).edges@[e].adj_edges),
            r is Ok ==> edge_lists_wf(final(self).edges@) && edges_sym(final(self).edges@),
            r is Ok ==> forall|e: int|
                0 <= e < final(self).edges@.len() ==> 0 <= (#[trigger] final(self).edges@[e].color)
                    < r->Ok_0,
            r is Ok ==> forall|a: int, b: int|
                #[trigger] edge_adj(final(self).edges@, a, b) ==> final(self).edges@[a].color
                    != final(self).edges@[b].color,
            r is Ok ==> 1 <= r->Ok_0 <= final(self).edges@.len(),
            r is Ok ==> exists|e: int|
                0 <= e < final(self).edges@.len() && (#[trigger] final(self).edges@[e].color) as int
                    == r->Ok_0 - 1,
    {
        let n_edges = self.edges.len();
        if n_edges == 0 {
            return Err(GraphError::EmptyEdgeGraph);
        }
        let ghost es0 = old(self).edges@;
        // Seed: scan for the edge of highest degree.
        let mut seed: usize = 0;
        let mut e: usize = 1;
        while e < n_edges
            invariant
                n_edges == self.edges@.len(),
                self.edges@ == es0,
                self.nodes == old(self).nodes,
                seed < n_edges,
                e <= n_edges,
                forall|j: int|
                    0 <= j < e ==> (#[trigger] self.edges@[j].adj_edges@.len())
                        <= self.edges@[seed as int].adj_edges@.len(),
            decreases n_edges - e,
        {
            if self.edges[e].degree() > self.edges[seed].degree() {
                seed = e;
            }
            e += 1;
        }
        let se = &mut self.edges[seed];
        se.set_color(0);
        let ghost es1 = self.edges@;
        proof {
            lemma_count_uncolored_full(es0, n_edges as int);
            lemma_count_uncolored_update(
                es0,
                seed as int,
                (Edge { color: 0, ..es0[seed as int] }),
                n_edges as int,
            );
            assert(es1 == es0.update(seed as int, (Edge { color: 0, ..es0[seed as int] })));
            assert(count_uncolored(es1, n_edges as int) == n_edges - 1);
            assert forall|k: int| 0 <= k < n_edges implies #[trigger] edge_lists_wf_at(es1, k) by {
                assert(edge_lists_wf_at(es0, k));
            }
            assert forall|a: int, b: int| #[trigger] edge_adj(es1, a, b) <==> edge_adj(
                es0,
                a,
                b,
            ) by {}
            lemma_edges_wf_implies_no_self_loops(es1);
            assert((es1[seed as int].color) as int == 0);
        }
        let mut nb_chrom: usize = 1;
        let mut uncolored: usize = n_edges - 1;
        let ghost mut steps: int = 0;
        while uncolored > 0
            invariant
                n_edges == self.edges@.len(),
                1 <= n_edges <= i32::MAX,
                self.nodes == old(self).nodes,
                es0.len() == n_edges,
                forall|e2: int|
                    0 <= e2 < n_edges ==> ((#[trigger] self.edges@[e2].id) == es0[e2].id
                        && self.edges@[e2].marked == es0[e2].marked && self.edges@[e2].node_1
                        == es0[e2].node_1 && self.edges@[e2].node_2 == es0[e2].node_2
                        && self.edges@[e2].adj_edges == es0[e2].adj_edges),
                edge_lists_wf(self.edges@),
                edges_sym(self.edges@),
                1 <= nb_chrom,
                nb_chrom + uncolored <= n_edges,
                uncolored as int == count_uncolored(self.edges@, n_edges as int),
                forall|e2: int|
                    0 <= e2 < n_edges ==> -1 <= (#[trigger] self.edges@[e2].color) < nb_chrom,
                forall|a: int, b: int|
                    #[trigger] edge_adj(self.edges@, a, b) && self.edges@[a].color >= 0
                        && self.edges@[b].color >= 0 ==> self.edges@[a].color
                        != self.edges@[b].color,
                exists|e2: int|
                    0 <= e2 < n_edges && (#[trigger] self.edges@[e2].color) as int == nb_chrom - 1,
                steps == n_edges - 1 - uncolored,
            decreases uncolored,
        {
            // Find the first uncolored edge as the starting candidate.
            let mut max_node: usize = 0;
            let mut found: bool = false;
            let mut cur: usize = 0;
            while cur < n_edges
                invariant
                    n_edges == self.edges@.len(),
                    cur <= n_edges,
                    !found ==> forall|j: int| 0 <= j < cur ==> (#[trigger] self.edges@[j].color)
                        >= 0,
                    found ==> max_node < n_edges && self.edges@[max_node as int].color < 0,
                decreases n_edges - cur,
            {
                if !found && self.edges[cur].color() < 0 {
                    found = true;
                    max_node = cur;
                }
                cur += 1;
            }
            proof {
                if !found {
                    lemma_count_uncolored_pos(self.edges@, n_edges as int);
                    assert(false);
                }
            }
            // Pick the uncolored edge with the highest saturation degree,
            // preferring higher raw degree on ties.
            let mut max_dsat = Edge::dsat(&self.edges, max_node, nb_chrom);
            let mut nn: usize = 0;
            while nn < n_edges
                invariant
                    n_edges == self.edges@.len(),
                    nn <= n_edges,
                    max_node < n_edges,
                    self.edges@[max_node as int].color < 0,
                    1 <= nb_chrom <= i32::MAX,
                    edge_lists_wf(self.edges@),
                    forall|e2: int|
                        0 <= e2 < n_edges ==> -1 <= (#[trigger] self.edges@[e2].color) < nb_chrom,
                decreases n_edges - nn,
            {
                if self.edges[nn].color() < 0 {
                    let cur_dsat = Edge::dsat(&self.edges, nn, nb_chrom);
                    let better = max_dsat < cur_dsat || (max_dsat == cur_dsat
                        && self.edges[max_node].degree() < self.edges[nn].degree());
                    if better {
                        max_dsat = cur_dsat;
                        max_node = nn;
                    }
                }
                nn += 1;
            }
            uncolored -= 1;
            let ghost es_b = self.edges@;
            let c = Edge::min_color(&mut self.edges, max_node);
            proof {
                steps = steps + 1;
                let esn = self.edges@;
                assert(esn == es_b.update(max_node as int, (Edge {
                    color: c,
                    ..es_b[max_node as int]
                })));
                lemma_count_uncolored_update(
                    es_b,
                    max_node as int,
                    (Edge { color: c, ..es_b[max_node as int] }),
                    n_edges as int,
                );
                assert forall|e2: int| 0 <= e2 < n_edges implies ((#[trigger] esn[e2].id)
                    == es0[e2].id && esn[e2].marked == es0[e2].marked && esn[e2].node_1
                    == es0[e2].node_1 && esn[e2].node_2 == es0[e2].node_2 && esn[e2].adj_edges
                    == es0[e2].adj_edges) by {
                    assert(es_b[e2].id == es0[e2].id);
                }
                assert forall|k: int| 0 <= k < n_edges implies #[trigger] edge_lists_wf_at(
                    esn,
                    k,
                ) by {
                    assert(edge_lists_wf_at(es_b, k));
                }
                assert forall|a: int, b: int| #[trigger] edge_adj(esn, a, b) <==> edge_adj(
                    es_b,
                    a,
                    b,
                ) by {}
                lemma_edges_wf_implies_no_self_loops(esn);
                // the fresh color exceeds every adjacent color
                let adj = es_b[max_node as int].adj_edges@;
                lemma_max_adj_color_attained(es_b, adj, adj.len() as int);
                assert(edge_lists_wf_at(es_b, max_node as int));
                if max_adj_color_through(es_b, adj, adj.len() as int) != -1 {
                    let j = choose|j: int|
                        0 <= j < adj.len() && es_b[(#[trigger] adj[j]) as int].color as int
                            == max_adj_color_through(es_b, adj, adj.len() as int);
                    assert(-1 <= es_b[adj[j] as int].color < nb_chrom);
                }
                assert(c <= nb_chrom);
                assert forall|a: int, b: int|
                    #[trigger] edge_adj(esn, a, b) && esn[a].color >= 0 && esn[b].color >= 0
                        implies esn[a].color != esn[b].color by {
                    if a == max_node as int && b != max_node as int {
                        assert(edge_adj(es_b, a, b));
                        assert(es_b[a].adj_edges@.contains(b as usize));
                        let p = choose|p: int| 0 <= p < adj.len() && adj[p] == b as usize;
                        assert(c > es_b[adj[p] as int].color);
                        assert(esn[b].color == es_b[b].color);
                    } else if b == max_node as int && a != max_node as int {
                        assert(edge_adj(esn, b, a));
                        assert(edge_adj(es_b, b, a));
                        assert(es_b[b].adj_edges@.contains(a as usize));
                        let p = choose|p: int| 0 <= p < adj.len() && adj[p] == a as usize;
                        assert(c > es_b[adj[p] as int].color);
                        assert(esn[a].color == es_b[a].color);
                    } else if a != max_node as int && b != max_node as int {
                        assert(edge_adj(es_b, a, b));
                        assert(esn[a].color == es_b[a].color && esn[b].color == es_b[b].color);
                    } else {
                        lemma_edges_wf_implies_no_self_loops(esn);
                    }
                }
            }
            let cand_count = (c as usize) + 1;
            if cand_count > nb_chrom {
                nb_chrom = cand_count;
            }
            proof {
                let esn = self.edges@;
                assert(esn[max_node as int].color == c);
                if c as usize + 1 > nb_chrom {
                    assert(false);
                }
                assert(exists|e2: int|
                    0 <= e2 < n_edges && (#[trigger] esn[e2].color) as int == nb_chrom - 1) by {
                    if (c as usize) + 1 == nb_chrom {
                        assert((esn[max_node as int].color) as int == nb_chrom - 1);
                    } else {
                        let w = choose|e2: int|
                            0 <= e2 < n_edges && (#[trigger] es_b[e2].color) as int == nb_chrom
                                - 1;
                        assert(es_b[w].color >= 0);
                        assert(w != max_node as int);
                        assert((esn[w].color) as int == nb_chrom - 1);
                    }
                }
            }
        }
        proof {
            lemma_count_uncolored_zero(self.edges@, n_edges as int);
            // Termination bound: one assignment per round beyond the seed.
            assert(steps == n_edges - 1);
        }
        Ok(nb_chrom)
    }
}

} // verus!
