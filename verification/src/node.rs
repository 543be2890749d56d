//! Mesh vertices and the undirected vertex adjacency graph.
//!
//! Nodes live in an arena (a `Vec<Node>`) and refer to each other by index;
//! a node's `id` always equals its index in the arena.

use vstd::prelude::*;
use crate::edge::Edge;
use crate::edge::connect_edge_pair;
use crate::edge::edge_adj;
use crate::edge::edge_lists_wf;
use crate::edge::edges_sym;
use crate::edge::incident;

verus! {

/// A mesh vertex.  `adj_nodes` holds the indices of the vertices connected
/// to this one by a mesh edge or an augmentation edge; `adj_edges` holds the
/// indices of the incident constraint edges once the line graph is built;
/// `marked` is a transient flag used by the line-graph split phase.
pub struct Node {
    pub id: usize,
    pub adj_nodes: Vec<usize>,
    pub adj_edges: Vec<usize>,
    pub marked: bool,
}

/// Vertex `a` lists vertex `b` as adjacent.
pub open spec fn node_adj(ns: Seq<Node>, a: int, b: int) -> bool {
    &&& 0 <= a < ns.len()
    &&& 0 <= b < ns.len()
    &&& ns[a].adj_nodes@.contains(b as usize)
}

/// Well-formedness of one node: its id is its arena index, its adjacency
/// list has no duplicates, and every entry is a valid index other than
/// itself (no self-loops).
pub open spec fn node_wf_at(ns: Seq<Node>, k: int) -> bool {
    &&& ns[k].id == k
    &&& ns[k].adj_nodes@.no_duplicates()
    &&& forall|x: int|
        0 <= x < ns[k].adj_nodes@.len() ==> (#[trigger] ns[k].adj_nodes@[x]) < ns.len()
            && ns[k].adj_nodes@[x] as int != k
}

pub open spec fn nodes_wf(ns: Seq<Node>) -> bool {
    forall|k: int| 0 <= k < ns.len() ==> #[trigger] node_wf_at(ns, k)
}

/// The vertex graph is undirected: adjacency is symmetric.
pub open spec fn nodes_sym(ns: Seq<Node>) -> bool {
    forall|a: int, b: int| #[trigger] node_adj(ns, a, b) ==> node_adj(ns, b, a)
}

/// No vertex is adjacent to itself.
pub open spec fn nodes_no_self_loops(ns: Seq<Node>) -> bool {
    forall|a: int| !#[trigger] node_adj(ns, a, a)
}

/// Well-formed nodes have no self-loops: an adjacency entry never names its
/// own node.
pub proof fn lemma_wf_implies_no_self_loops(ns: Seq<Node>)
    requires
        nodes_wf(ns),
    ensures
        nodes_no_self_loops(ns),
{
    assert forall|a: int| !#[trigger] node_adj(ns, a, a) by {
        if node_adj(ns, a, a) {
            assert(node_wf_at(ns, a));
            let x = choose|x: int|
                0 <= x < ns[a].adj_nodes@.len() && ns[a].adj_nodes@[x] == a as usize;
            assert(ns[a].adj_nodes@[x] as int != a);
        }
    }
}

/// Linear scan for a value in an index list.
pub(crate) fn contains_value(v: &Vec<usize>, x: usize) -> (r: bool)
    ensures
        r == v@.contains(x),
{
    let mut k: usize = 0;
    while k < v.len()
        invariant
            0 <= k <= v@.len(),
            forall|j: int| 0 <= j < k ==> v@[j] != x,
        decreases v@.len() - k,
    {
        if v[k] == x {
            assert(v@[k as int] == x);
            return true;
        }
        k += 1;
    }
    false
}

impl Node {
    /// A fresh, unconnected, unmarked vertex.
    pub fn new(identifier: usize) -> (n: Node)
        ensures
            n.id == identifier,
            n.adj_nodes@.len() == 0,
            n.adj_edges@.len() == 0,
            !n.marked,
    {
        Node { id: identifier, adj_nodes: Vec::new(), adj_edges: Vec::new(), marked: false }
    }

    pub fn unmark(&mut self)
        ensures
            *final(self) == (Node { marked: false, ..*old(self) }),
    {
        self.marked = false;
    }

    pub fn mark(&mut self)
        ensures
            *final(self) == (Node { marked: true, ..*old(self) }),
    {
        self.marked = true;
    }

    pub fn is_marked(&self) -> (r: bool)
        ensures
            r == self.marked,
    {
        self.marked
    }

    /// Identity comparison: two nodes are the same vertex when their ids match.
    pub fn equals(&self, n: &Node) -> (r: bool)
        ensures
            r == (self.id == n.id),
    {
        n.id == self.id
    }

    /// Drop the vertex adjacency list (used once the line graph replaces it).
    pub fn clear_adj_nodes(&mut self)
        ensures
            final(self).adj_nodes@.len() == 0,
            final(self).id == old(self).id,
            final(self).adj_edges == old(self).adj_edges,
            final(self).marked == old(self).marked,
    {
        self.adj_nodes = Vec::new();
    }

    /// Does this vertex list `node` as adjacent?
    pub fn is_adj_to(&self, node: &Node) -> (r: bool)
        ensures
            r == self.adj_nodes@.contains(node.id),
    {
        contains_value(&self.adj_nodes, node.id)
    }
}

impl Node {
    /// Connect vertices `i` and `j` in both directions.  Connecting an
    /// already-adjacent pair, or a vertex to itself, is a no-op; otherwise the
    /// adjacency relation is extended by exactly the pair `(i, j)`.
    pub fn connect_nodes(nodes: &mut Vec<Node>, i: usize, j: usize)
        requires
            nodes_wf(old(nodes)@),
            nodes_sym(old(nodes)@),
            i < old(nodes)@.len(),
            j < old(nodes)@.len(),
        ensures
            nodes_wf(final(nodes)@),
            nodes_sym(final(nodes)@),
            final(nodes)@.len() == old(nodes)@.len(),
            forall|a: int, b: int|
                #[trigger] node_adj(final(nodes)@, a, b) <==> (node_adj(old(nodes)@, a, b) || (i != j
                    && ((a == i && b == j) || (a == j && b == i)))),
            forall|k: int|
                0 <= k < old(nodes)@.len() ==> (#[trigger] final(nodes)@[k].id == old(nodes)@[k].id
                    && final(nodes)@[k].adj_edges == old(nodes)@[k].adj_edges
                    && final(nodes)@[k].marked == old(nodes)@[k].marked),
    {
        let n_nodes = nodes.len();
        let already = contains_value(&nodes[j].adj_nodes, i);
        if !(i != j && !already) {
            proof {
                // No-op: the pair is already adjacent (in both directions, by
                // symmetry) or it is a self-pair.
                if i != j {
                    assert(node_adj(old(nodes)@, j as int, i as int));
                    assert(node_adj(old(nodes)@, i as int, j as int));
                }
            }
            return ;
        }
        {
            proof {
                assert(node_wf_at(old(nodes)@, i as int));
                assert(node_wf_at(old(nodes)@, j as int));
                // i's list cannot hold j either, by symmetry.
                if old(nodes)@[i as int].adj_nodes@.contains(j) {
                    assert(node_adj(old(nodes)@, i as int, j as int));
                    assert(node_adj(old(nodes)@, j as int, i as int));
                }
            }
            let ni = &mut nodes[i];
            ni.adj_nodes.push(j);
            let nj = &mut nodes[j];
            nj.adj_nodes.push(i);
            proof {
                let ns0 = old(nodes)@;
                let ns2 = final(nodes)@;
                assert(ns0.len() == n_nodes);
                assert(ns2.len() == n_nodes);
                assert(ns2[i as int].adj_nodes@ == ns0[i as int].adj_nodes@.push(j));
                assert(ns2[j as int].adj_nodes@ == ns0[j as int].adj_nodes@.push(i));
                assert forall|k: int| 0 <= k < ns2.len() implies #[trigger] node_wf_at(ns2, k) by {
                    assert(node_wf_at(ns0, k));
                    if k == i as int {
                        lemma_push_keeps_entries(ns0[k].adj_nodes@, j);
                        assert(!ns0[i as int].adj_nodes@.contains(j));
                    } else if k == j as int {
                        lemma_push_keeps_entries(ns0[k].adj_nodes@, i);
                        assert(!ns0[j as int].adj_nodes@.contains(i));
                    }
                }
                assert forall|a: int, b: int| #[trigger] node_adj(ns2, a, b) implies (node_adj(
                    ns0,
                    a,
                    b,
                ) || (a == i as int && b == j as int) || (a == j as int && b == i as int)) by {
                    assert(0 <= a < ns2.len() && 0 <= b < ns2.len());
                    if a != i as int && a != j as int {
                        assert(ns2[a] == ns0[a]);
                    } else {
                        lemma_push_contains(
                            ns0[a].adj_nodes@,
                            if a == i as int {
                                j
                            } else {
                                i
                            },
                            b as usize,
                        );
                    }
                }
                assert forall|a: int, b: int| node_adj(ns0, a, b) implies #[trigger] node_adj(
                    ns2,
                    a,
                    b,
                ) by {
                    assert(0 <= a < ns0.len() && 0 <= b < ns0.len());
                    if a == i as int || a == j as int {
                        lemma_push_contains(
                            ns0[a].adj_nodes@,
                            if a == i as int {
                                j
                            } else {
                                i
                            },
                            b as usize,
                        );
                    }
                }
                assert(node_adj(ns2, i as int, j as int)) by {
                    lemma_push_contains(ns0[i as int].adj_nodes@, j, j);
                }
                assert(node_adj(ns2, j as int, i as int)) by {
                    lemma_push_contains(ns0[j as int].adj_nodes@, i, i);
                }
            }
        }
    }
}

/// How many entries of `s1` occur in `s2`.  On duplicate-free lists this is
/// the number of common values.
pub open spec fn common_count(s1: Seq<usize>, s2: Seq<usize>) -> nat
    decreases s1.len(),
{
    if s1.len() == 0 {
        0
    } else {
        common_count(s1.drop_last(), s2) + (if s2.contains(s1.last()) {
            1nat
        } else {
            0nat
        })
    }
}

/// Value `v` occurs in both lists.
pub open spec fn common_value(s1: Seq<usize>, s2: Seq<usize>, v: usize) -> bool {
    s1.contains(v) && s2.contains(v)
}

/// Vertices `a` and `b` have at least two distinct common neighbors.
pub open spec fn two_common_adjs(ns: Seq<Node>, a: int, b: int) -> bool {
    exists|v1: usize, v2: usize|
        v1 != v2 && #[trigger] common_value(ns[a].adj_nodes@, ns[b].adj_nodes@, v1)
            && #[trigger] common_value(ns[a].adj_nodes@, ns[b].adj_nodes@, v2)
}

/// Vertex `b` is a candidate partner for an augmentation edge from `a`:
/// distinct, not already adjacent, and sharing at least two common
/// neighbors (such a pair is always two hops apart through either common
/// neighbor).
pub open spec fn cand(ns: Seq<Node>, a: int, b: int) -> bool {
    &&& 0 <= a < ns.len()
    &&& 0 <= b < ns.len()
    &&& a != b
    &&& !node_adj(ns, a, b)
    &&& two_common_adjs(ns, a, b)
}

/// In an undirected graph the candidate relation is symmetric.
pub proof fn lemma_cand_sym(ns: Seq<Node>)
    requires
        nodes_sym(ns),
    ensures
        forall|a: int, b: int| #[trigger] cand(ns, a, b) <==> cand(ns, b, a),
{
    assert forall|a: int, b: int| #[trigger] cand(ns, a, b) implies cand(ns, b, a) by {
        if node_adj(ns, b, a) {
            assert(node_adj(ns, a, b));
        }
        let (v1, v2) = choose|v1: usize, v2: usize|
            v1 != v2 && #[trigger] common_value(ns[a].adj_nodes@, ns[b].adj_nodes@, v1)
                && #[trigger] common_value(ns[a].adj_nodes@, ns[b].adj_nodes@, v2);
        assert(common_value(ns[b].adj_nodes@, ns[a].adj_nodes@, v1));
        assert(common_value(ns[b].adj_nodes@, ns[a].adj_nodes@, v2));
    }
}

impl Node {
    /// How many of this vertex's neighbors also occur in `node`'s neighbor
    /// list.  In a well-formed graph the adjacency lists are duplicate-free,
    /// so this is the number of common neighbors.
    pub fn nb_common_adj(&self, node: &Node) -> (r: usize)
        ensures
            r == common_count(self.adj_nodes@, node.adj_nodes@),
    {
        let mut nb_common: usize = 0;
        let mut i: usize = 0;
        while i < self.adj_nodes.len()
            invariant
                i <= self.adj_nodes@.len(),
                nb_common == common_count(self.adj_nodes@.take(i as int), node.adj_nodes@),
                nb_common <= i,
            decreases self.adj_nodes@.len() - i,
        {
            let x = self.adj_nodes[i];
            proof {
                let s1 = self.adj_nodes@;
                assert(s1.take(i as int + 1).drop_last() =~= s1.take(i as int));
                assert(s1.take(i as int + 1).last() == x);
            }
            if contains_value(&node.adj_nodes, x) {
                nb_common += 1;
            }
            i += 1;
        }
        proof {
            assert(self.adj_nodes@.take(self.adj_nodes@.len() as int) =~= self.adj_nodes@);
        }
        nb_common
    }

    /// Do this vertex and `node` have at least two distinct common
    /// neighbors?  Stops as soon as two are found.
    pub fn share_2_adjs(&self, node: &Node) -> (r: bool)
        requires
            self.adj_nodes@.no_duplicates(),
        ensures
            r == exists|v1: usize, v2: usize|
                v1 != v2 && #[trigger] common_value(self.adj_nodes@, node.adj_nodes@, v1)
                    && #[trigger] common_value(self.adj_nodes@, node.adj_nodes@, v2),
    {
        let ghost s1 = self.adj_nodes@;
        let ghost s2 = node.adj_nodes@;
        let mut found_one = false;
        let ghost mut w1: usize = 0;
        let ghost mut k1: int = 0;
        let mut i: usize = 0;
        while i < self.adj_nodes.len()
            invariant
                s1 == self.adj_nodes@,
                s2 == node.adj_nodes@,
                s1.no_duplicates(),
                i <= s1.len(),
                !found_one ==> forall|k: int| 0 <= k < i ==> !s2.contains(#[trigger] s1[k]),
                found_one ==> 0 <= k1 < i && s1[k1] == w1 && common_value(s1, s2, w1),
                found_one ==> forall|k: int|
                    0 <= k < i && s1[k] != w1 ==> !s2.contains(#[trigger] s1[k]),
            decreases s1.len() - i,
        {
            let x = self.adj_nodes[i];
            if contains_value(&node.adj_nodes, x) {
                proof {
                    assert(s1[i as int] == x);
                    assert(s1.contains(x));
                }
                if found_one {
                    proof {
                        // A second, distinct common neighbor: the list has no
                        // duplicates, so the entry at `i` differs from the
                        // one recorded at `k1`.
                        assert(s1[k1] != s1[i as int]);
                        assert(common_value(s1, s2, x));
                        assert(w1 != x && common_value(s1, s2, w1) && common_value(s1, s2, x));
                    }
                    return true;
                }
                found_one = true;
                proof {
                    w1 = x;
                    k1 = i as int;
                }
            }
            i += 1;
        }
        proof {
            if exists|v1: usize, v2: usize|
                v1 != v2 && #[trigger] common_value(s1, s2, v1) && #[trigger] common_value(
                    s1,
                    s2,
                    v2,
                ) {
                let (v1, v2) = choose|v1: usize, v2: usize|
                    v1 != v2 && #[trigger] common_value(s1, s2, v1) && #[trigger] common_value(
                        s1,
                        s2,
                        v2,
                    );
                // Both common values sit somewhere in s1; at most one of them
                // can be the recorded witness, so the loop would have found a
                // second match.
                let p1 = choose|p: int| 0 <= p < s1.len() && s1[p] == v1;
                let p2 = choose|p: int| 0 <= p < s1.len() && s1[p] == v2;
                if !found_one {
                    assert(!s2.contains(s1[p1]));
                } else {
                    if v1 != w1 {
                        assert(!s2.contains(s1[p1]));
                    } else {
                        assert(!s2.contains(s1[p2]));
                    }
                }
            }
        }
        false
    }
}

/// The vertices reachable from `i` through the first `k` entries of its
/// adjacency list, one further hop away.
pub open spec fn reach_two_upto(ns: Seq<Node>, i: int, x: usize, k: int) -> bool {
    exists|kk: int|
        0 <= kk < k && ns[(#[trigger] ns[i].adj_nodes@[kk]) as int].adj_nodes@.contains(x)
}

impl Node {
    /// Collect every augmentation candidate for vertex `i`: vertices two hops
    /// away that are not yet adjacent to `i` and share at least two common
    /// neighbors with it.  The result may list a candidate more than once (once
    /// per intermediate neighbor); connecting is idempotent, so that is
    /// harmless.
    pub fn get_2_distant_adjs(nodes: &Vec<Node>, i: usize) -> (r: Vec<usize>)
        requires
            nodes_wf(nodes@),
            nodes_sym(nodes@),
            i < nodes@.len(),
        ensures
            forall|x: usize| #[trigger] r@.contains(x) <==> cand(nodes@, i as int, x as int),
    {
        let ghost ns = nodes@;
        let mut dist_nodes: Vec<usize> = Vec::new();
        let deg = nodes[i].adj_nodes.len();
        proof {
            assert(node_wf_at(ns, i as int));
        }
        let mut a: usize = 0;
        while a < deg
            invariant
                ns == nodes@,
                nodes_wf(ns),
                nodes_sym(ns),
                i < ns.len(),
                deg == ns[i as int].adj_nodes@.len(),
                a <= deg,
                forall|x: usize| #[trigger] dist_nodes@.contains(x) ==> cand(ns, i as int, x as int),
                forall|x: usize|
                    #[trigger] cand(ns, i as int, x as int) && reach_two_upto(ns, i as int, x, a as int)
                        ==> dist_nodes@.contains(x),
            decreases deg - a,
        {
            let n1 = nodes[i].adj_nodes[a];
            proof {
                assert(node_wf_at(ns, i as int));
                assert(ns[i as int].adj_nodes@[a as int] == n1);
                assert(node_wf_at(ns, n1 as int));
            }
            let deg1 = nodes[n1].adj_nodes.len();
            let mut b: usize = 0;
            while b < deg1
                invariant
                    ns == nodes@,
                    nodes_wf(ns),
                    nodes_sym(ns),
                    i < ns.len(),
                    deg == ns[i as int].adj_nodes@.len(),
                    a < deg,
                    n1 == ns[i as int].adj_nodes@[a as int],
                    n1 < ns.len(),
                    deg1 == ns[n1 as int].adj_nodes@.len(),
                    b <= deg1,
                    forall|x: usize| #[trigger] dist_nodes@.contains(x) ==> cand(ns, i as int, x as int),
                    forall|x: usize|
                        #[trigger] cand(ns, i as int, x as int) && reach_two_upto(ns, i as int, x, a as int)
                            ==> dist_nodes@.contains(x),
                    forall|l: int|
                        0 <= l < b && cand(ns, i as int, (#[trigger] ns[n1 as int].adj_nodes@[l]) as int)
                            ==> dist_nodes@.contains(ns[n1 as int].adj_nodes@[l]),
                decreases deg1 - b,
            {
                let n2 = nodes[n1].adj_nodes[b];
                proof {
                    assert(node_wf_at(ns, n1 as int));
                    assert(ns[n1 as int].adj_nodes@[b as int] == n2);
                }
                let already = contains_value(&nodes[i].adj_nodes, n2);
                if !already && n2 != i {
                    proof {
                        assert(node_wf_at(ns, i as int));
                        assert(node_wf_at(ns, n2 as int));
                    }
                    let shares = nodes[i].share_2_adjs(&nodes[n2]);
                    if shares {
                        proof {
                            assert(!node_adj(ns, i as int, n2 as int));
                            assert(cand(ns, i as int, n2 as int));
                        }
                        let ghost before = dist_nodes@;
                        dist_nodes.push(n2);
                        proof {
                            assert forall|x: usize| #[trigger] dist_nodes@.contains(x) implies (
                            before.contains(x) || x == n2) by {
                                lemma_push_contains(before, n2, x);
                            }
                            assert forall|x: usize| before.contains(x) implies dist_nodes@.contains(
                                x,
                            ) by {
                                lemma_push_contains(before, n2, x);
                            }
                            assert(dist_nodes@.contains(n2)) by {
                                lemma_push_contains(before, n2, n2);
                            }
                        }
                    }
                }
                proof {
                    // Whether or not this two-hop target was pushed, the row
                    // prefix property extends: a candidate is always pushed.
                    if cand(ns, i as int, n2 as int) {
                        assert(!node_adj(ns, i as int, n2 as int));
                        assert(!ns[i as int].adj_nodes@.contains(n2));
                        assert(dist_nodes@.contains(n2));
                    }
                }
                b += 1;
            }
            proof {
                // Row `a` is complete: anything reachable through the first
                // `a + 1` neighbors and still a candidate has been collected.
                assert forall|x: usize|
                    cand(ns, i as int, x as int) && reach_two_upto(ns, i as int, x, a as int + 1)
                        implies #[trigger] dist_nodes@.contains(x) by {
                    let kk = choose|kk: int|
                        0 <= kk < a as int + 1 && ns[(#[trigger] ns[i as int].adj_nodes@[kk]) as int]
                            .adj_nodes@.contains(x);
                    if kk < a as int {
                        assert(reach_two_upto(ns, i as int, x, a as int));
                    } else {
                        let l = choose|l: int|
                            0 <= l < ns[n1 as int].adj_nodes@.len() && ns[n1 as int].adj_nodes@[l] == x;
                        assert(cand(ns, i as int, (ns[n1 as int].adj_nodes@[l]) as int));
                    }
                }
            }
            a += 1;
        }
        proof {
            // Completeness: every candidate is reachable in two hops through a
            // common neighbor, so the full scan has collected it.
            assert forall|x: usize| cand(ns, i as int, x as int) implies #[trigger] dist_nodes@.contains(
                x,
            ) by {
                let (v1, v2) = choose|v1: usize, v2: usize|
                    v1 != v2 && #[trigger] common_value(ns[i as int].adj_nodes@, ns[x as int].adj_nodes@, v1)
                        && #[trigger] common_value(ns[i as int].adj_nodes@, ns[x as int].adj_nodes@, v2);
                // v1 is a neighbor of i, and x is a neighbor of v1 (by symmetry).
                assert(node_adj(ns, i as int, v1 as int));
                assert(node_adj(ns, x as int, v1 as int));
                assert(node_adj(ns, v1 as int, x as int));
                let kk = choose|kk: int|
                    0 <= kk < ns[i as int].adj_nodes@.len() && ns[i as int].adj_nodes@[kk] == v1;
                assert(ns[(ns[i as int].adj_nodes@[kk]) as int].adj_nodes@.contains(x));
                assert(reach_two_upto(ns, i as int, x, deg as int));
            }
        }
        dist_nodes
    }
}

/// How many entries of `s` name a node that is still unmarked in `ns`.
pub open spec fn count_unmarked(ns: Seq<Node>, s: Seq<usize>) -> nat
    decreases s.len(),
{
    if s.len() == 0 {
        0
    } else {
        count_unmarked(ns, s.drop_last()) + (if !ns[s.last() as int].marked {
            1nat
        } else {
            0nat
        })
    }
}

/// The edge-incidence bookkeeping of node `k` is sound: its `adj_edges`
/// list is duplicate-free and every entry names a valid edge incident to it.
pub open spec fn node_edge_lists_ok_at(ns: Seq<Node>, es: Seq<Edge>, k: int) -> bool {
    &&& ns[k].adj_edges@.no_duplicates()
    &&& forall|x: int|
        0 <= x < ns[k].adj_edges@.len() ==> (#[trigger] ns[k].adj_edges@[x]) < es.len() && incident(
            es[ns[k].adj_edges@[x] as int],
            k,
        )
}

pub open spec fn node_edge_lists_ok(ns: Seq<Node>, es: Seq<Edge>) -> bool {
    forall|k: int| 0 <= k < ns.len() ==> #[trigger] node_edge_lists_ok_at(ns, es, k)
}

/// Every edge is listed by both of its endpoint nodes.
pub open spec fn node_edge_lists_complete(ns: Seq<Node>, es: Seq<Edge>) -> bool {
    forall|k: int, e: int|
        0 <= k < ns.len() && 0 <= e < es.len() && #[trigger] incident(es[e], k)
            ==> ns[k].adj_edges@.contains(e as usize)
}

impl Node {
    /// The split step of the line-graph transform for node `i`: materialize
    /// one new `Edge` for every still-unmarked neighbor of `i`, register it
    /// with both endpoints, and finally mark `i`.  Processing every node
    /// once, in ascending order, creates exactly one edge per undirected
    /// adjacent vertex pair.
    #[verifier::rlimit(100)]
    pub fn split(nodes: &mut Vec<Node>, i: usize, edges: &mut Vec<Edge>)
        requires
            nodes_wf(old(nodes)@),
            i < old(nodes)@.len(),
            node_edge_lists_ok(old(nodes)@, old(edges)@),
        ensures
            final(nodes)@.len() == old(nodes)@.len(),
            nodes_wf(final(nodes)@),
            node_edge_lists_ok(final(nodes)@, final(edges)@),
            final(edges)@.len() == old(edges)@.len() + count_unmarked(
                old(nodes)@,
                old(nodes)@[i as int].adj_nodes@,
            ),
            forall|e: int|
                0 <= e < old(edges)@.len() ==> (#[trigger] final(edges)@[e]) == old(edges)@[e],
            forall|e: int|
                old(edges)@.len() <= e < final(edges)@.len() ==> ((#[trigger] final(edges)@[e].id)
                    == e && final(edges)@[e].color == -1 && !final(edges)@[e].marked
                    && final(edges)@[e].adj_edges@.len() == 0 && final(edges)@[e].node_2 == i
                    && old(nodes)@[i as int].adj_nodes@.contains(final(edges)@[e].node_1)
                    && !old(nodes)@[final(edges)@[e].node_1 as int].marked),
            forall|e1: int, e2: int|
                old(edges)@.len() <= e1 < final(edges)@.len() && old(edges)@.len() <= e2
                    < final(edges)@.len() && e1 != e2 ==> (#[trigger] final(edges)@[e1].node_1)
                    != (#[trigger] final(edges)@[e2].node_1),
            forall|x: usize|
                #[trigger] old(nodes)@[i as int].adj_nodes@.contains(x)
                    && !old(nodes)@[x as int].marked ==> exists|e: int|
                    old(edges)@.len() <= e < final(edges)@.len() && (#[trigger] final(edges)@[e].node_1) == x,
            forall|k: int|
                0 <= k < old(nodes)@.len() ==> ((#[trigger] final(nodes)@[k].id) == old(nodes)@[k].id && final(nodes)@[k].adj_nodes == old(nodes)@[k].adj_nodes
                    && final(nodes)@[k].marked == (old(nodes)@[k].marked || k == i)),
            forall|k: int, e: usize|
                0 <= k < old(nodes)@.len() ==> ((#[trigger] final(nodes)@[k].adj_edges@.contains(e))
                    <==> (old(nodes)@[k].adj_edges@.contains(e) || (old(edges)@.len() <= e
                    < final(edges)@.len() && incident(final(edges)@[e as int], k)))),
    {
        let ghost ns0 = old(nodes)@;
        let ghost es0 = old(edges)@;
        let ghost adj = old(nodes)@[i as int].adj_nodes@;
        proof {
            assert(node_wf_at(ns0, i as int));
        }
        let deg = nodes[i].adj_nodes.len();
        let mut a: usize = 0;
        while a < deg
            invariant
                nodes_wf(ns0),
                node_edge_lists_ok(ns0, es0),
                i < ns0.len(),
                nodes@.len() == ns0.len(),
                adj == ns0[i as int].adj_nodes@,
                deg == adj.len(),
                a <= deg,
                es0.len() <= edges@.len(),
                edges@.len() == es0.len() + count_unmarked(ns0, adj.take(a as int)),
                forall|e: int| 0 <= e < es0.len() ==> (#[trigger] edges@[e]) == es0[e],
                forall|e: int|
                    es0.len() <= e < edges@.len() ==> ((#[trigger] edges@[e].id) == e
                        && edges@[e].color == -1 && !edges@[e].marked
                        && edges@[e].adj_edges@.len() == 0 && edges@[e].node_2 == i),
                forall|e: int|
                    es0.len() <= e < edges@.len() ==> adj.take(a as int).contains(
                        (#[trigger] edges@[e]).node_1,
                    ),
                forall|e: int|
                    es0.len() <= e < edges@.len() ==> !ns0[(#[trigger] edges@[e]).node_1 as int].marked,
                forall|e1: int, e2: int|
                    es0.len() <= e1 < edges@.len() && es0.len() <= e2 < edges@.len() && e1 != e2
                        ==> (#[trigger] edges@[e1].node_1) != (#[trigger] edges@[e2].node_1),
                forall|b2: int|
                    0 <= b2 < a && !ns0[(#[trigger] adj[b2]) as int].marked ==> exists|e: int|
                        es0.len() <= e < edges@.len() && (#[trigger] edges@[e].node_1) == adj[b2],
                forall|k: int|
                    0 <= k < ns0.len() ==> ((#[trigger] nodes@[k].id) == ns0[k].id
                        && nodes@[k].adj_nodes == ns0[k].adj_nodes && nodes@[k].marked
                        == ns0[k].marked),
                forall|k: int, e: usize|
                    0 <= k < ns0.len() ==> ((#[trigger] nodes@[k].adj_edges@.contains(e)) <==> (
                    ns0[k].adj_edges@.contains(e) || (es0.len() <= e < edges@.len() && incident(
                        edges@[e as int],
                        k,
                    )))),
                node_edge_lists_ok(nodes@, edges@),
            decreases deg - a,
        {
            proof {
                assert(nodes@[i as int].id == ns0[i as int].id);
                assert(node_wf_at(ns0, i as int));
            }
            let x = nodes[i].adj_nodes[a];
            proof {
                assert(adj[a as int] == x);
                assert(x < ns0.len() && x as int != i as int);
                assert(nodes@[x as int].id == ns0[x as int].id);
                assert(adj.take(a as int + 1).drop_last() =~= adj.take(a as int));
                assert(adj.take(a as int + 1).last() == x);
                if adj.take(a as int).contains(x) {
                    let p = choose|p: int| 0 <= p < a && adj.take(a as int)[p] == x;
                    assert(adj[p] == adj[a as int]);
                    assert(false);
                }
                assert(!adj.take(a as int).contains(x));
                assert forall|x2: usize| #[trigger] adj.take(a as int + 1).contains(x2) implies (
                adj.take(a as int).contains(x2) || x2 == x) by {
                    lemma_push_contains(adj.take(a as int), x, x2);
                }
                assert forall|x2: usize| adj.take(a as int).contains(x2) implies adj.take(
                    a as int + 1,
                ).contains(x2) by {
                    lemma_push_contains(adj.take(a as int), x, x2);
                }
                assert(adj.take(a as int + 1).contains(x)) by {
                    lemma_push_contains(adj.take(a as int), x, x);
                }
            }
            let marked_x = nodes[x].is_marked();
            if !marked_x {
                let ghost ns_h = nodes@;
                let ghost es_h = edges@;
                let eid = edges.len();
                let e = Edge::new(eid, -1, x, i);
                edges.push(e);
                let ni = &mut nodes[i];
                ni.adj_edges.push(eid);
                let ghost ns_m = nodes@;
                let nx = &mut nodes[x];
                nx.adj_edges.push(eid);
                proof {
                    let esn = edges@;
                    let nsn = nodes@;
                    assert(eid == es_h.len());
                    assert(esn[eid as int].node_1 == x && esn[eid as int].node_2 == i);
                    assert(ns_m[i as int].adj_edges@ == ns_h[i as int].adj_edges@.push(eid));
                    assert(nsn[x as int].adj_edges@ == ns_m[x as int].adj_edges@.push(eid));
                    assert(nsn[i as int].adj_edges@ == ns_h[i as int].adj_edges@.push(eid));
                    assert(!ns0[x as int].marked);
                    assert(count_unmarked(ns0, adj.take(a as int + 1)) == count_unmarked(
                        ns0,
                        adj.take(a as int),
                    ) + 1);
                    assert forall|k: int| 0 <= k < ns0.len() implies ((#[trigger] nsn[k].id)
                        == ns0[k].id && nsn[k].adj_nodes == ns0[k].adj_nodes && nsn[k].marked
                        == ns0[k].marked) by {
                        assert(ns_h[k].id == ns0[k].id);
                    }
                    assert forall|k: int, e2: usize| 0 <= k < ns0.len() implies ((
                    #[trigger] nsn[k].adj_edges@.contains(e2)) <==> (ns0[k].adj_edges@.contains(e2)
                        || (es0.len() <= e2 < esn.len() && incident(esn[e2 as int], k)))) by {
                        if k == i as int || k == x as int {
                            lemma_push_contains(ns_h[k].adj_edges@, eid, e2);
                        }
                        assert(ns_h[k].adj_edges@.contains(e2) <==> (ns0[k].adj_edges@.contains(e2)
                            || (es0.len() <= e2 < es_h.len() && incident(es_h[e2 as int], k))));
                        if es0.len() <= e2 < es_h.len() {
                            assert(es_h[e2 as int] == esn[e2 as int]);
                        }
                        if e2 == eid && incident(esn[e2 as int], k) {
                            assert(k == i as int || k == x as int);
                        }
                    }
                    assert forall|e3: int| es0.len() <= e3 < esn.len() implies ((
                    #[trigger] esn[e3].id) == e3 && esn[e3].color == -1 && !esn[e3].marked
                        && esn[e3].adj_edges@.len() == 0 && esn[e3].node_2 == i && adj.take(
                        a as int + 1,
                    ).contains(esn[e3].node_1) && !ns0[esn[e3].node_1 as int].marked) by {
                        if e3 != eid as int {
                            assert(esn[e3] == es_h[e3]);
                            assert(es_h[e3].id == e3);
                            assert(adj.take(a as int).contains(es_h[e3].node_1));
                            assert(adj.take(a as int + 1).contains(es_h[e3].node_1));
                        } else {
                            assert(adj.take(a as int + 1).contains(x));
                        }
                    }
                    assert forall|e1: int, e2: int|
                        es0.len() <= e1 < esn.len() && es0.len() <= e2 < esn.len() && e1 != e2
                            implies (#[trigger] esn[e1].node_1) != (#[trigger] esn[e2].node_1) by {
                        if e1 != eid as int && e2 != eid as int {
                            assert(es_h[e1] == esn[e1] && es_h[e2] == esn[e2]);
                            assert(es_h[e1].id == e1);
                            assert(es_h[e2].id == e2);
                        } else if e2 == eid as int && e1 != eid as int {
                            assert(es_h[e1].id == e1);
                            assert(adj.take(a as int).contains(es_h[e1].node_1));
                            assert(esn[e2].node_1 == x);
                        } else if e1 == eid as int && e2 != eid as int {
                            assert(es_h[e2].id == e2);
                            assert(adj.take(a as int).contains(es_h[e2].node_1));
                            assert(esn[e1].node_1 == x);
                        }
                    }
                    assert forall|b2: int|
                        0 <= b2 < a + 1 && !ns0[(#[trigger] adj[b2]) as int].marked implies exists|
                        e: int|
                        es0.len() <= e < esn.len() && (#[trigger] esn[e].node_1) == adj[b2] by {
                        if b2 == a as int {
                            assert(esn[eid as int].node_1 == x);
                            assert(es0.len() <= (eid as int) && (eid as int) < esn.len()
                                && esn[eid as int].node_1 == adj[b2]);
                        } else {
                            let we = choose|we: int|
                                es0.len() <= we < es_h.len() && (#[trigger] es_h[we].node_1) == adj[
                                b2];
                            assert(esn[we] == es_h[we]);
                            assert(es0.len() <= we < esn.len() && esn[we].node_1 == adj[b2]);
                        }
                    }
                    assert forall|k: int| 0 <= k < nsn.len() implies
                        #[trigger] node_edge_lists_ok_at(nsn, esn, k) by {
                        assert(node_edge_lists_ok_at(ns_h, es_h, k));
                        if k == i as int || k == x as int {
                            let l0 = ns_h[k].adj_edges@;
                            if l0.contains(eid) {
                                let p = choose|p: int| 0 <= p < l0.len() && l0[p] == eid;
                                assert(false);
                            }
                            lemma_push_keeps_entries(l0, eid);
                        } else {
                            assert(nsn[k] == ns_h[k]);
                        }
                    }
                }
            proof {
                assert(forall|k: int|
                    0 <= k < ns0.len() ==> ((#[trigger] nodes@[k].id) == ns0[k].id
                        && nodes@[k].adj_nodes == ns0[k].adj_nodes && nodes@[k].marked
                        == ns0[k].marked));
                assert(forall|e3: int|
                    es0.len() <= e3 < edges@.len() ==> ((#[trigger] edges@[e3].id) == e3
                        && edges@[e3].color == -1 && !edges@[e3].marked
                        && edges@[e3].adj_edges@.len() == 0 && edges@[e3].node_2 == i
                        && adj.take(a as int + 1).contains(edges@[e3].node_1)
                        && !ns0[edges@[e3].node_1 as int].marked));
            }
            } else {
                proof {
                    assert(ns0[x as int].marked);
                    assert(count_unmarked(ns0, adj.take(a as int + 1)) == count_unmarked(
                        ns0,
                        adj.take(a as int),
                    ));
                    assert forall|e3: int| es0.len() <= e3 < edges@.len() implies ((
                    #[trigger] edges@[e3].id) == e3 && edges@[e3].color == -1 && !edges@[e3].marked
                        && edges@[e3].adj_edges@.len() == 0 && edges@[e3].node_2 == i && adj.take(
                        a as int + 1,
                    ).contains(edges@[e3].node_1) && !ns0[edges@[e3].node_1 as int].marked) by {
                        assert(edges@[e3].id == e3);
                        assert(adj.take(a as int).contains(edges@[e3].node_1));
                        lemma_push_contains(adj.take(a as int), x, edges@[e3].node_1);
                    }
                }
            }
            a += 1;
        }
        proof {
            assert(adj.take(deg as int) =~= adj);
        }
        let ghost ns_l = nodes@;
        let ghost es_l = edges@;
        let ni = &mut nodes[i];
        ni.mark();
        proof {
            let nsf = final(nodes)@;
            let esf = final(edges)@;
            assert(esf == es_l);
            assert forall|k: int| 0 <= k < ns0.len() implies ((#[trigger] nsf[k].id) == ns0[k].id
                && nsf[k].adj_nodes == ns0[k].adj_nodes && nsf[k].marked == (ns0[k].marked || k
                == i)) by {
                assert(ns_l[k].id == ns0[k].id);
            }
            assert forall|k: int| 0 <= k < nsf.len() implies #[trigger] node_wf_at(nsf, k) by {
                assert(node_wf_at(ns0, k));
                assert(ns_l[k].id == ns0[k].id);
            }
            assert forall|k: int, e2: usize| 0 <= k < ns0.len() implies ((
            #[trigger] nsf[k].adj_edges@.contains(e2)) <==> (ns0[k].adj_edges@.contains(e2) || (
            es0.len() <= e2 < esf.len() && incident(esf[e2 as int], k)))) by {
                assert(ns_l[k].id == ns0[k].id);
                assert(nsf[k].adj_edges == ns_l[k].adj_edges);
                assert(ns_l[k].adj_edges@.contains(e2) <==> (ns0[k].adj_edges@.contains(e2) || (
                es0.len() <= e2 < es_l.len() && incident(es_l[e2 as int], k))));
            }
            assert forall|k: int| 0 <= k < nsf.len() implies #[trigger] node_edge_lists_ok_at(
                nsf,
                esf,
                k,
            ) by {
                assert(node_edge_lists_ok_at(ns_l, es_l, k));
                assert(nsf[k].adj_edges == ns_l[k].adj_edges);
            }
        }
    }

    /// The connect step of the line-graph transform for one node: make every
    /// pair of distinct edges incident to this node mutually adjacent
    /// (idempotently).  After all nodes are processed, edge adjacency means
    /// exactly "these two constraints share a vertex".
    pub fn connect_edges(&self, edges: &mut Vec<Edge>)
        requires
            edge_lists_wf(old(edges)@),
            edges_sym(old(edges)@),
            forall|x: int|
                0 <= x < self.adj_edges@.len() ==> (#[trigger] self.adj_edges@[x]) < old(edges)@.len(),
        ensures
            edge_lists_wf(final(edges)@),
            edges_sym(final(edges)@),
            final(edges)@.len() == old(edges)@.len(),
            forall|k: int|
                0 <= k < old(edges)@.len() ==> (#[trigger] final(edges)@[k].id == old(edges)@[k].id && final(edges)@[k].color == old(edges)@[k].color && final(edges)@[k].marked == old(edges)@[k].marked && final(edges)@[k].node_1 == old(edges)@[k].node_1 && final(edges)@[k].node_2 == old(edges)@[k].node_2),
            forall|a: int, b: int|
                #[trigger] edge_adj(final(edges)@, a, b) <==> (edge_adj(old(edges)@, a, b) || (0
                    <= a < old(edges)@.len() && 0 <= b < old(edges)@.len() && a != b
                    && self.adj_edges@.contains(a as usize) && self.adj_edges@.contains(
                    b as usize,
                ))),
    {
        let ghost es0 = old(edges)@;
        let ghost list = self.adj_edges@;
        let e_count = edges.len();
        let len = self.adj_edges.len();
        let mut ai: usize = 0;
        while ai < len
            invariant
                len == list.len(),
                list == self.adj_edges@,
                ai <= len,
                es0.len() == e_count,
                forall|x: int| 0 <= x < list.len() ==> (#[trigger] list[x]) < es0.len(),
                edges@.len() == es0.len(),
                edge_lists_wf(edges@),
                edges_sym(edges@),
                forall|k: int|
                    0 <= k < es0.len() ==> (#[trigger] edges@[k].id == es0[k].id && edges@[k].color
                        == es0[k].color && edges@[k].marked == es0[k].marked && edges@[k].node_1
                        == es0[k].node_1 && edges@[k].node_2 == es0[k].node_2),
                forall|a: int, b: int|
                    edge_adj(es0, a, b) ==> #[trigger] edge_adj(edges@, a, b),
                forall|a: int, b: int|
                    #[trigger] edge_adj(edges@, a, b) ==> (edge_adj(es0, a, b) || (a != b
                        && list.contains(a as usize) && list.contains(b as usize))),
                forall|k: int, l: int|
                    0 <= k < ai && 0 <= l < len && (#[trigger] list[k]) != (#[trigger] list[l])
                        ==> edge_adj(edges@, list[k] as int, list[l] as int),
            decreases len - ai,
        {
            let e1 = self.adj_edges[ai];
            let mut bi: usize = 0;
            while bi < len
                invariant
                    len == list.len(),
                    list == self.adj_edges@,
                    ai < len,
                    bi <= len,
                    e1 == list[ai as int],
                    es0.len() == e_count,
                    forall|x: int| 0 <= x < list.len() ==> (#[trigger] list[x]) < es0.len(),
                    edges@.len() == es0.len(),
                    edge_lists_wf(edges@),
                    edges_sym(edges@),
                    forall|k: int|
                        0 <= k < es0.len() ==> (#[trigger] edges@[k].id == es0[k].id
                            && edges@[k].color == es0[k].color && edges@[k].marked == es0[k].marked
                            && edges@[k].node_1 == es0[k].node_1 && edges@[k].node_2
                            == es0[k].node_2),
                    forall|a: int, b: int|
                        edge_adj(es0, a, b) ==> #[trigger] edge_adj(edges@, a, b),
                    forall|a: int, b: int|
                        #[trigger] edge_adj(edges@, a, b) ==> (edge_adj(es0, a, b) || (a != b
                            && list.contains(a as usize) && list.contains(b as usize))),
                    forall|k: int, l: int|
                        0 <= k < ai && 0 <= l < len && (#[trigger] list[k]) != (#[trigger] list[l])
                            ==> edge_adj(edges@, list[k] as int, list[l] as int),
                    forall|l: int|
                        0 <= l < bi && e1 != (#[trigger] list[l]) ==> edge_adj(
                            edges@,
                            e1 as int,
                            list[l] as int,
                        ),
                decreases len - bi,
            {
                let e2 = self.adj_edges[bi];
                proof {
                    assert(list[ai as int] == e1);
                    assert(list[bi as int] == e2);
                    assert(list.contains(e1));
                    assert(list.contains(e2));
                }
                connect_edge_pair(edges, e1, e2);
                bi += 1;
            }
            ai += 1;
        }
        proof {
            assert forall|a: int, b: int| #[trigger] edge_adj(edges@, a, b) <==> (edge_adj(
                es0,
                a,
                b,
            ) || (0 <= a < es0.len() && 0 <= b < es0.len() && a != b && list.contains(a as usize)
                && list.contains(b as usize))) by {
                if !edge_adj(es0, a, b) && 0 <= a < es0.len() && 0 <= b < es0.len() && a != b
                    && list.contains(a as usize) && list.contains(b as usize) {
                    let k = choose|k: int| 0 <= k < list.len() && list[k] == a as usize;
                    let l = choose|l: int| 0 <= l < list.len() && list[l] == b as usize;
                    assert(list[k] != list[l]);
                    assert(edge_adj(edges@, list[k] as int, list[l] as int));
                }
            }
        }
    }
}


/// Pushing onto a duplicate-free sequence that lacks the new value keeps it
/// duplicate-free, and keeps every entry.
pub proof fn lemma_push_keeps_entries(s: Seq<usize>, x: usize)
    requires
        s.no_duplicates(),
        !s.contains(x),
    ensures
        s.push(x).no_duplicates(),
        forall|k: int| 0 <= k < s.len() ==> s.push(x)[k] == s[k],
        s.push(x)[s.len() as int] == x,
{
    assert forall|k: int| 0 <= k < s.len() implies s.push(x)[k] == s[k] by {}
    assert forall|p: int, q: int|
        0 <= p < s.push(x).len() && 0 <= q < s.push(x).len() && p != q implies s.push(x)[p]
        != s.push(x)[q] by {
        if p < s.len() && q < s.len() {
        } else if p < s.len() {
            assert(s.contains(s[p])) by {
                assert(s[p] == s[p]);
            }
        } else if q < s.len() {
            assert(s.contains(s[q])) by {
                assert(s[q] == s[q]);
            }
        }
    }
}

/// Membership in a pushed sequence.
pub proof fn lemma_push_contains(s: Seq<usize>, x: usize, y: usize)
    ensures
        s.push(x).contains(y) <==> (s.contains(y) || y == x),
{
    if s.contains(y) {
        let k = choose|k: int| 0 <= k < s.len() && s[k] == y;
        assert(s.push(x)[k] == y);
    }
    assert(s.push(x)[s.len() as int] == x);
    if s.push(x).contains(y) && y != x {
        let k = choose|k: int| 0 <= k < s.push(x).len() && s.push(x)[k] == y;
        assert(k < s.len());
        assert(s[k] == y);
    }
}

} // verus!
