//! Constraint edges: the nodes of the line graph.
//!
//! Edges live in an arena (a `Vec<Edge>`) and refer to each other by index;
//! an edge's `id` always equals its index in the arena.

use vstd::prelude::*;
use crate::node::contains_value;

verus! {

/// A constraint between the two mesh vertices `node_1` and `node_2`.
/// `adj_edges` holds the indices of the edges sharing an endpoint vertex
/// with this one (populated by the line-graph transform); `color` is the
/// assigned color class, `-1` while unassigned; `marked` is a transient
/// traversal flag.
pub struct Edge {
    pub id: usize,
    pub color: i32,
    pub marked: bool,
    pub adj_edges: Vec<usize>,
    pub node_1: usize,
    pub node_2: usize,
}

/// Edge `a` lists edge `b` as adjacent.
pub open spec fn edge_adj(es: Seq<Edge>, a: int, b: int) -> bool {
    &&& 0 <= a < es.len()
    &&& 0 <= b < es.len()
    &&& es[a].adj_edges@.contains(b as usize)
}

/// Well-formedness of one edge's identity and adjacency list: the id is the
/// arena index, the list has no duplicates, and every entry is a valid edge
/// index other than itself.
pub open spec fn edge_lists_wf_at(es: Seq<Edge>, k: int) -> bool {
    &&& es[k].id == k
    &&& es[k].adj_edges@.no_duplicates()
    &&& forall|x: int|
        0 <= x < es[k].adj_edges@.len() ==> (#[trigger] es[k].adj_edges@[x]) < es.len()
            && es[k].adj_edges@[x] as int != k
}

pub open spec fn edge_lists_wf(es: Seq<Edge>) -> bool {
    forall|k: int| 0 <= k < es.len() ==> #[trigger] edge_lists_wf_at(es, k)
}

/// The line graph is undirected: edge adjacency is symmetric.
pub open spec fn edges_sym(es: Seq<Edge>) -> bool {
    forall|a: int, b: int| #[trigger] edge_adj(es, a, b) ==> edge_adj(es, b, a)
}

/// No edge is adjacent to itself.
pub open spec fn edges_no_self_loops(es: Seq<Edge>) -> bool {
    forall|a: int| !#[trigger] edge_adj(es, a, a)
}

/// Every edge endpoint is a valid vertex index, and the two endpoints differ.
pub open spec fn edge_endpoints_wf(es: Seq<Edge>, n_nodes: int) -> bool {
    forall|k: int|
        0 <= k < es.len() ==> (#[trigger] es[k].node_1) < n_nodes && es[k].node_2 < n_nodes
            && es[k].node_1 != es[k].node_2
}

/// Edge `e` has vertex `v` as an endpoint.
pub open spec fn incident(e: Edge, v: int) -> bool {
    e.node_1 as int == v || e.node_2 as int == v
}

/// The two edges have a common endpoint vertex.
pub open spec fn shares_node(e1: Edge, e2: Edge) -> bool {
    ||| e1.node_1 == e2.node_1
    ||| e1.node_1 == e2.node_2
    ||| e1.node_2 == e2.node_1
    ||| e1.node_2 == e2.node_2
}

/// The two edges connect the same unordered vertex pair.
pub open spec fn same_pair(e1: Edge, e2: Edge) -> bool {
    ||| (e1.node_1 == e2.node_1 && e1.node_2 == e2.node_2)
    ||| (e1.node_1 == e2.node_2 && e1.node_2 == e2.node_1)
}

/// Well-formed edges have no self-loops.
pub proof fn lemma_edges_wf_implies_no_self_loops(es: Seq<Edge>)
    requires
        edge_lists_wf(es),
    ensures
        edges_no_self_loops(es),
{
    assert forall|a: int| !#[trigger] edge_adj(es, a, a) by {
        if edge_adj(es, a, a) {
            assert(edge_lists_wf_at(es, a));
            let x = choose|x: int|
                0 <= x < es[a].adj_edges@.len() && es[a].adj_edges@[x] == a as usize;
            assert(es[a].adj_edges@[x] as int != a);
        }
    }
}

/// Some edge adjacent to `i` carries color `c`.
pub open spec fn has_adj_color(es: Seq<Edge>, i: int, c: int) -> bool {
    exists|x: int|
        0 <= x < es[i].adj_edges@.len() && es[(#[trigger] es[i].adj_edges@[x]) as int].color as int
            == c
}

/// The saturation count of edge `i`: how many of the colors `0 .. c` appear
/// among its adjacent edges.
pub open spec fn sat_count(es: Seq<Edge>, i: int, c: int) -> nat
    decreases c,
{
    if c <= 0 {
        0
    } else {
        sat_count(es, i, c - 1) + (if has_adj_color(es, i, c - 1) {
            1nat
        } else {
            0nat
        })
    }
}

/// The largest color among the edges listed in the first `k` entries of the
/// adjacency list `adj`, or `-1` if none is colored (uncolored edges carry
/// `-1` themselves, so they never raise the maximum).
pub open spec fn max_adj_color_through(es: Seq<Edge>, adj: Seq<usize>, k: int) -> int
    decreases k,
{
    if k <= 0 {
        -1
    } else {
        let m = max_adj_color_through(es, adj, k - 1);
        let c = es[adj[k - 1] as int].color as int;
        if c > m {
            c
        } else {
            m
        }
    }
}

/// The maximum never falls below any single listed color.
pub proof fn lemma_max_adj_color_ge(es: Seq<Edge>, adj: Seq<usize>, k: int, j: int)
    requires
        0 <= j < k,
    ensures
        max_adj_color_through(es, adj, k) >= es[adj[j] as int].color as int,
    decreases k,
{
    if j < k - 1 {
        lemma_max_adj_color_ge(es, adj, k - 1, j);
    }
}

/// The maximum is `-1` or a color some listed edge carries.
pub proof fn lemma_max_adj_color_attained(es: Seq<Edge>, adj: Seq<usize>, k: int)
    requires
        0 <= k,
    ensures
        max_adj_color_through(es, adj, k) == -1 || exists|j: int|
            0 <= j < k && es[(#[trigger] adj[j]) as int].color as int == max_adj_color_through(
                es,
                adj,
                k,
            ),
    decreases k,
{
    if k > 0 {
        lemma_max_adj_color_attained(es, adj, k - 1);
    }
}

/// How many of the first `k` edges are still uncolored.
pub open spec fn count_uncolored(es: Seq<Edge>, k: int) -> nat
    decreases k,
{
    if k <= 0 {
        0
    } else {
        count_uncolored(es, k - 1) + (if es[k - 1].color < 0 {
            1nat
        } else {
            0nat
        })
    }
}

/// Coloring one uncolored edge lowers the uncolored count by exactly one.
pub proof fn lemma_count_uncolored_update(es: Seq<Edge>, i: int, e: Edge, k: int)
    requires
        0 <= i < es.len(),
        es[i].color < 0,
        e.color >= 0,
        0 <= k <= es.len(),
    ensures
        count_uncolored(es.update(i, e), k) == if i < k {
            count_uncolored(es, k) - 1
        } else {
            count_uncolored(es, k) as int
        },
    decreases k,
{
    if k > 0 {
        lemma_count_uncolored_update(es, i, e, k - 1);
    }
}

/// A positive uncolored count yields an uncolored edge.
pub proof fn lemma_count_uncolored_pos(es: Seq<Edge>, k: int)
    requires
        0 <= k <= es.len(),
        count_uncolored(es, k) > 0,
    ensures
        exists|j: int| 0 <= j < k && (#[trigger] es[j].color) < 0,
    decreases k,
{
    if es[k - 1].color < 0 {
    } else {
        lemma_count_uncolored_pos(es, k - 1);
    }
}

/// When no edge is colored, all of them count as uncolored.
pub proof fn lemma_count_uncolored_full(es: Seq<Edge>, k: int)
    requires
        0 <= k <= es.len(),
        forall|j: int| 0 <= j < k ==> (#[trigger] es[j].color) < 0,
    ensures
        count_uncolored(es, k) == k,
    decreases k,
{
    if k > 0 {
        lemma_count_uncolored_full(es, k - 1);
    }
}

/// A zero uncolored count means every edge is colored.
pub proof fn lemma_count_uncolored_zero(es: Seq<Edge>, k: int)
    requires
        0 <= k <= es.len(),
        count_uncolored(es, k) == 0,
    ensures
        forall|j: int| 0 <= j < k ==> (#[trigger] es[j].color) >= 0,
    decreases k,
{
    if k > 0 {
        lemma_count_uncolored_zero(es, k - 1);
    }
}

/// Record edges `i` and `j` as mutually adjacent.  Connecting an already
/// adjacent pair, or an edge with itself, is a no-op; otherwise the edge
/// adjacency relation is extended by exactly the pair `(i, j)`.
pub fn connect_edge_pair(edges: &mut Vec<Edge>, i: usize, j: usize)
    requires
        edge_lists_wf(old(edges)@),
        edges_sym(old(edges)@),
        i < old(edges)@.len(),
        j < old(edges)@.len(),
    ensures
        edge_lists_wf(final(edges)@),
        edges_sym(final(edges)@),
        final(edges)@.len() == old(edges)@.len(),
        forall|a: int, b: int|
            #[trigger] edge_adj(final(edges)@, a, b) <==> (edge_adj(old(edges)@, a, b) || (i != j
                && ((a == i && b == j) || (a == j && b == i)))),
        forall|k: int|
            0 <= k < old(edges)@.len() ==> (#[trigger] final(edges)@[k].id == old(edges)@[k].id
                && final(edges)@[k].color == old(edges)@[k].color && final(edges)@[k].marked == old(
                edges,
            )@[k].marked && final(edges)@[k].node_1 == old(edges)@[k].node_1
                && final(edges)@[k].node_2 == old(edges)@[k].node_2),
{
    let n_edges = edges.len();
    let already = contains_value(&edges[j].adj_edges, i);
    if !(i != j && !already) {
        proof {
            if i != j {
                assert(edge_adj(old(edges)@, j as int, i as int));
                assert(edge_adj(old(edges)@, i as int, j as int));
            }
        }
        return ;
    }
    {
        proof {
            assert(edge_lists_wf_at(old(edges)@, i as int));
            assert(edge_lists_wf_at(old(edges)@, j as int));
            if old(edges)@[i as int].adj_edges@.contains(j) {
                assert(edge_adj(old(edges)@, i as int, j as int));
                assert(edge_adj(old(edges)@, j as int, i as int));
            }
        }
        let ei = &mut edges[i];
        ei.adj_edges.push(j);
        let ej = &mut edges[j];
        ej.adj_edges.push(i);
        proof {
            let es0 = old(edges)@;
            let es2 = final(edges)@;
            assert(es0.len() == n_edges);
            assert(es2.len() == n_edges);
            assert(es2[i as int].adj_edges@ == es0[i as int].adj_edges@.push(j));
            assert(es2[j as int].adj_edges@ == es0[j as int].adj_edges@.push(i));
            assert forall|k: int| 0 <= k < es2.len() implies #[trigger] edge_lists_wf_at(es2, k) by {
                assert(edge_lists_wf_at(es0, k));
                if k == i as int {
                    crate::node::lemma_push_keeps_entries(es0[k].adj_edges@, j);
                    assert(!es0[i as int].adj_edges@.contains(j));
                } else if k == j as int {
                    crate::node::lemma_push_keeps_entries(es0[k].adj_edges@, i);
                    assert(!es0[j as int].adj_edges@.contains(i));
                }
            }
            assert forall|a: int, b: int| #[trigger] edge_adj(es2, a, b) implies (edge_adj(
                es0,
                a,
                b,
            ) || (a == i as int && b == j as int) || (a == j as int && b == i as int)) by {
                assert(0 <= a < es2.len() && 0 <= b < es2.len());
                if a != i as int && a != j as int {
                    assert(es2[a] == es0[a]);
                } else {
                    crate::node::lemma_push_contains(
                        es0[a].adj_edges@,
                        if a == i as int {
                            j
                        } else {
                            i
                        },
                        b as usize,
                    );
                }
            }
            assert forall|a: int, b: int| edge_adj(es0, a, b) implies #[trigger] edge_adj(
                es2,
                a,
                b,
            ) by {
                assert(0 <= a < es0.len() && 0 <= b < es0.len());
                if a == i as int || a == j as int {
                    crate::node::lemma_push_contains(
                        es0[a].adj_edges@,
                        if a == i as int {
                            j
                        } else {
                            i
                        },
                        b as usize,
                    );
                }
            }
            assert(edge_adj(es2, i as int, j as int)) by {
                crate::node::lemma_push_contains(es0[i as int].adj_edges@, j, j);
            }
            assert(edge_adj(es2, j as int, i as int)) by {
                crate::node::lemma_push_contains(es0[j as int].adj_edges@, i, i);
            }
        }
    }
}

impl Edge {
    /// A fresh edge between vertices `n1` and `n2`, with no adjacencies yet.
    pub fn new(identifier: usize, col: i32, n1: usize, n2: usize) -> (e: Edge)
        ensures
            e.id == identifier,
            e.color == col,
            !e.marked,
            e.adj_edges@.len() == 0,
            e.node_1 == n1,
            e.node_2 == n2,
    {
        Edge { id: identifier, adj_edges: Vec::new(), node_1: n1, node_2: n2, color: col, marked: false }
    }

    /// How many other edges share an endpoint with this one.
    pub fn degree(&self) -> (r: usize)
        ensures
            r == self.adj_edges@.len(),
    {
        self.adj_edges.len()
    }

    pub fn unmark(&mut self)
        ensures
            *final(self) == (Edge { marked: false, ..*old(self) }),
    {
        self.marked = false;
    }

    pub fn mark(&mut self)
        ensures
            *final(self) == (Edge { marked: true, ..*old(self) }),
    {
        self.marked = true;
    }

    pub fn is_marked(&self) -> (r: bool)
        ensures
            r == self.marked,
    {
        self.marked
    }

    /// Identity comparison: two edges are the same constraint when their ids
    /// match.
    pub fn equals(&self, e: &Edge) -> (r: bool)
        ensures
            r == (self.id == e.id),
    {
        e.id == self.id
    }

    pub fn color(&self) -> (r: i32)
        ensures
            r == self.color,
    {
        self.color
    }

    pub fn set_color(&mut self, col: i32)
        ensures
            *final(self) == (Edge { color: col, ..*old(self) }),
    {
        self.color = col;
    }

    /// Does this edge list `edge` as adjacent?
    pub fn is_adj_to(&self, edge: &Edge) -> (r: bool)
        ensures
            r == self.adj_edges@.contains(edge.id),
    {
        contains_value(&self.adj_edges, edge.id)
    }

    /// The saturation degree of edge `i`: the number of distinct colors in
    /// `0 ..= nb_colors` that appear among its adjacent edges.  Edges whose
    /// neighbors carry colors above `nb_colors` are outside this function's
    /// contract, which is why it requires the global color bound.
    pub fn dsat(edges: &Vec<Edge>, i: usize, nb_colors: usize) -> (r: usize)
        requires
            i < edges@.len(),
            edge_lists_wf(edges@),
            nb_colors < usize::MAX,
            forall|j: int| 0 <= j < edges@.len() ==> (#[trigger] edges@[j].color) <= nb_colors as i32,
        ensures
            r == sat_count(edges@, i as int, nb_colors as int + 1),
    {
        let n_buckets = nb_colors + 1;
        let mut buckets: Vec<bool> = Vec::new();
        let mut c: usize = 0;
        while c < n_buckets
            invariant
                buckets@.len() == c,
                c <= n_buckets,
                forall|x: int| 0 <= x < c ==> !(#[trigger] buckets@[x]),
            decreases n_buckets - c,
        {
            buckets.push(false);
            c += 1;
        }
        proof {
            assert(edge_lists_wf_at(edges@, i as int));
        }
        let deg = edges[i].adj_edges.len();
        let mut a: usize = 0;
        while a < deg
            invariant
                i < edges@.len(),
                edge_lists_wf_at(edges@, i as int),
                deg == edges@[i as int].adj_edges@.len(),
                a <= deg,
                buckets@.len() == nb_colors + 1,
                forall|j: int| 0 <= j < edges@.len() ==> (#[trigger] edges@[j].color)
                    <= nb_colors as i32,
                forall|cc: int|
                    0 <= cc < buckets@.len() ==> ((#[trigger] buckets@[cc]) <==> exists|x: int|
                        0 <= x < a && edges@[(#[trigger] edges@[i as int].adj_edges@[x]) as int].color
                            as int == cc),
            decreases deg - a,
        {
            let e = edges[i].adj_edges[a];
            let col = edges[e].color;
            if col >= 0 {
                let idx = col as usize;
                buckets[idx] = true;
                proof {
                    assert(edges@[i as int].adj_edges@[a as int] == e);
                }
            }
            a += 1;
        }
        let mut count: usize = 0;
        let mut c2: usize = 0;
        proof {
            assert forall|cc: int| 0 <= cc < buckets@.len() implies ((#[trigger] buckets@[cc])
                <==> has_adj_color(edges@, i as int, cc)) by {}
        }
        while c2 < n_buckets
            invariant
                buckets@.len() == n_buckets,
                n_buckets == nb_colors + 1,
                c2 <= n_buckets,
                count <= c2,
                forall|cc: int|
                    0 <= cc < buckets@.len() ==> ((#[trigger] buckets@[cc]) <==> has_adj_color(
                        edges@,
                        i as int,
                        cc,
                    )),
                count == sat_count(edges@, i as int, c2 as int),
            decreases n_buckets - c2,
        {
            if buckets[c2] {
                count += 1;
            }
            c2 += 1;
        }
        count
    }

    /// Assign edge `i` the color one above the largest color any adjacent
    /// edge carries (`0` when no adjacent edge is colored yet), and return
    /// that color.  Every adjacent edge ends up with a strictly smaller
    /// color value, which is what keeps the greedy coloring valid.
    pub fn min_color(edges: &mut Vec<Edge>, i: usize) -> (r: i32)
        requires
            i < old(edges)@.len(),
            edge_lists_wf(old(edges)@),
            forall|j: int| 0 <= j < old(edges)@.len() ==> (#[trigger] old(edges)@[j].color)
                < i32::MAX,
        ensures
            r as int == max_adj_color_through(
                old(edges)@,
                old(edges)@[i as int].adj_edges@,
                old(edges)@[i as int].adj_edges@.len() as int,
            ) + 1,
            r >= 0,
            forall|x: int|
                0 <= x < old(edges)@[i as int].adj_edges@.len() ==> r > old(edges)@[(
                #[trigger] old(edges)@[i as int].adj_edges@[x]) as int].color,
            final(edges)@ == old(edges)@.update(i as int, (Edge { color: r, ..old(edges)@[i as int] })),
    {
        proof {
            assert(edge_lists_wf_at(old(edges)@, i as int));
        }
        let mut max_col: i32 = -1;
        let deg = edges[i].adj_edges.len();
        let mut a: usize = 0;
        while a < deg
            invariant
                i < edges@.len(),
                edges@ == old(edges)@,
                edge_lists_wf_at(edges@, i as int),
                deg == edges@[i as int].adj_edges@.len(),
                a <= deg,
                forall|j: int| 0 <= j < edges@.len() ==> (#[trigger] edges@[j].color) < i32::MAX,
                max_col as int == max_adj_color_through(
                    edges@,
                    edges@[i as int].adj_edges@,
                    a as int,
                ),
                max_col >= -1,
            decreases deg - a,
        {
            let e = edges[i].adj_edges[a];
            let c = edges[e].color;
            if max_col < c {
                max_col = c;
            }
            proof {
                assert(edges@[i as int].adj_edges@[a as int] == e);
            }
            a += 1;
        }
        proof {
            lemma_max_adj_color_attained(edges@, edges@[i as int].adj_edges@, deg as int);
            assert forall|x: int| 0 <= x < edges@[i as int].adj_edges@.len() implies max_col as int
                >= edges@[(#[trigger] edges@[i as int].adj_edges@[x]) as int].color as int by {
                lemma_max_adj_color_ge(edges@, edges@[i as int].adj_edges@, deg as int, x);
            }
        }
        let new_col = max_col + 1;
        let ei = &mut edges[i];
        ei.color = new_col;
        new_col
    }
}

} // verus!
