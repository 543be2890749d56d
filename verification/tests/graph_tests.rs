use roft::edge::Edge;
use roft::graph::Graph;
use roft::mesh::GraphError;
use roft::mesh::Mesh;
use roft::node::Node;

fn colored_graph(nb_vertices: usize, tris: Vec<(u32, u32, u32)>) -> (Graph, usize) {
    let mesh = Mesh::new(nb_vertices, tris);
    let mut g = Graph::new(mesh).unwrap();
    g.augment();
    g.build_edge_graph();
    let nb = g.color_edge_graph().unwrap();
    (g, nb)
}

#[test]
fn single_triangle_vertex_graph() {
    let mesh = Mesh::new(3, vec![(0, 1, 2)]);
    let g = Graph::new(mesh).unwrap();
    assert_eq!(g.nodes.len(), 3);
    assert_eq!(g.edges.len(), 0);
    for n in &g.nodes {
        assert_eq!(n.adj_nodes.len(), 2);
    }
    assert!(g.nodes[0].is_adj_to(&g.nodes[1]));
    assert!(g.nodes[1].is_adj_to(&g.nodes[0]));
    assert!(g.nodes[0].is_adj_to(&g.nodes[2]));
    assert!(g.nodes[1].is_adj_to(&g.nodes[2]));
    assert!(!g.nodes[0].is_adj_to(&g.nodes[0]));
}

#[test]
fn single_triangle_line_graph() {
    let mesh = Mesh::new(3, vec![(0, 1, 2)]);
    let mut g = Graph::new(mesh).unwrap();
    g.build_edge_graph();
    assert_eq!(g.edges.len(), 3);
    for e in &g.edges {
        assert_eq!(e.degree(), 2);
        assert_eq!(e.color(), -1);
    }
    // each pair of the three edges is mutually adjacent
    assert!(g.edges[0].is_adj_to(&g.edges[1]));
    assert!(g.edges[1].is_adj_to(&g.edges[0]));
    assert!(g.edges[0].is_adj_to(&g.edges[2]));
    assert!(g.edges[2].is_adj_to(&g.edges[1]));
    assert!(!g.edges[0].is_adj_to(&g.edges[0]));
    // vertex adjacency has been discarded
    for n in &g.nodes {
        assert_eq!(n.adj_nodes.len(), 0);
        assert_eq!(n.adj_edges.len(), 2);
    }
}

#[test]
fn single_triangle_coloring_uses_three_colors() {
    let mesh = Mesh::new(3, vec![(0, 1, 2)]);
    let mut g = Graph::new(mesh).unwrap();
    g.build_edge_graph();
    let nb = g.color_edge_graph().unwrap();
    assert_eq!(nb, 3);
    let mut seen = vec![false, false, false];
    for e in &g.edges {
        let c = e.color();
        assert!(0 <= c && c < 3);
        seen[c as usize] = true;
    }
    assert!(seen[0] && seen[1] && seen[2]);
}

#[test]
fn two_triangles_sharing_an_edge() {
    let mesh = Mesh::new(4, vec![(0, 1, 2), (1, 2, 3)]);
    let mut g = Graph::new(mesh).unwrap();
    g.build_edge_graph();
    // 5 undirected vertex pairs -> 5 edges
    assert_eq!(g.edges.len(), 5);
    let shared = g
        .edges
        .iter()
        .position(|e| {
            let lo = e.node_1.min(e.node_2);
            let hi = e.node_1.max(e.node_2);
            lo == 1 && hi == 2
        })
        .unwrap();
    assert_eq!(g.edges[shared].degree(), 4);
    let nb = g.color_edge_graph().unwrap();
    assert!(nb >= 3);
    let shared_color = g.edges[shared].color();
    for (i, e) in g.edges.iter().enumerate() {
        assert!(e.color() >= 0);
        if i != shared {
            assert_ne!(e.color(), shared_color);
        }
    }
}

#[test]
fn coloring_is_valid_on_adjacent_edges() {
    let (g, nb) = colored_graph(
        6,
        vec![(0, 1, 4), (0, 4, 3), (1, 2, 5), (1, 5, 4)],
    );
    assert!(nb >= 1);
    for e in &g.edges {
        assert!(e.color() >= 0);
        assert!((e.color() as usize) < nb);
        for &o in &e.adj_edges {
            assert_ne!(g.edges[o].color(), e.color());
        }
    }
}

#[test]
fn edge_adjacency_is_symmetric_after_transform() {
    let mesh = Mesh::new(4, vec![(0, 1, 2), (1, 2, 3)]);
    let mut g = Graph::new(mesh).unwrap();
    g.build_edge_graph();
    for (i, e) in g.edges.iter().enumerate() {
        for &o in &e.adj_edges {
            assert!(g.edges[o].adj_edges.contains(&i));
            assert_ne!(o, i);
        }
    }
}

#[test]
fn augmentation_connects_diagonals_on_grid() {
    // a 3x2 vertex grid: two quads, each split into two triangles
    let mesh = Mesh::new(6, vec![(0, 1, 4), (0, 4, 3), (1, 2, 5), (1, 5, 4)]);
    let mut g = Graph::new(mesh).unwrap();
    // diagonals are not mesh edges
    assert!(!g.nodes[3].is_adj_to(&g.nodes[1]));
    assert!(!g.nodes[4].is_adj_to(&g.nodes[2]));
    g.augment();
    // pairs with two common neighbors are now connected ...
    assert!(g.nodes[3].is_adj_to(&g.nodes[1]));
    assert!(g.nodes[1].is_adj_to(&g.nodes[3]));
    assert!(g.nodes[4].is_adj_to(&g.nodes[2]));
    assert!(g.nodes[0].is_adj_to(&g.nodes[5]));
    // ... pairs with fewer are not
    assert!(!g.nodes[0].is_adj_to(&g.nodes[2]));
    assert!(!g.nodes[3].is_adj_to(&g.nodes[5]));
    assert!(!g.nodes[3].is_adj_to(&g.nodes[3]));
}

#[test]
fn empty_mesh_is_fine_until_coloring() {
    let mesh = Mesh::new(0, Vec::new());
    let mut g = Graph::new(mesh).unwrap();
    assert_eq!(g.nodes.len(), 0);
    assert_eq!(g.edges.len(), 0);
    g.augment();
    g.build_edge_graph();
    assert_eq!(g.edges.len(), 0);
    let r = g.color_edge_graph();
    assert!(matches!(r, Err(GraphError::EmptyEdgeGraph)));
}

#[test]
fn out_of_range_triangle_index_is_rejected() {
    let mesh = Mesh::new(2, vec![(0, 1, 2)]);
    let r = Graph::new(mesh);
    assert!(matches!(r, Err(GraphError::InvalidTriangleIndex)));
}

#[test]
fn duplicate_triangles_change_nothing() {
    let mesh1 = Mesh::new(3, vec![(0, 1, 2)]);
    let mesh2 = Mesh::new(3, vec![(0, 1, 2), (0, 1, 2), (2, 1, 0)]);
    let mut g1 = Graph::new(mesh1).unwrap();
    let mut g2 = Graph::new(mesh2).unwrap();
    g1.build_edge_graph();
    g2.build_edge_graph();
    assert_eq!(g1.edges.len(), 3);
    assert_eq!(g2.edges.len(), 3);
}

#[test]
fn degenerate_triangle_makes_no_self_loop() {
    let mesh = Mesh::new(2, vec![(0, 0, 1)]);
    let g = Graph::new(mesh).unwrap();
    assert!(g.nodes[0].is_adj_to(&g.nodes[1]));
    assert!(!g.nodes[0].is_adj_to(&g.nodes[0]));
    assert!(!g.nodes[1].is_adj_to(&g.nodes[1]));
    assert_eq!(g.nodes[0].adj_nodes.len(), 1);
}

#[test]
fn unmark_clears_all_flags() {
    let mesh = Mesh::new(3, vec![(0, 1, 2)]);
    let mut g = Graph::new(mesh).unwrap();
    g.build_edge_graph();
    // the split phase leaves every node marked
    for n in &g.nodes {
        assert!(n.is_marked());
    }
    g.unmark();
    for n in &g.nodes {
        assert!(!n.is_marked());
    }
    for e in &g.edges {
        assert!(!e.is_marked());
    }
}

#[test]
fn node_marks_and_identity() {
    let mut n = Node::new(7);
    assert!(!n.is_marked());
    n.mark();
    assert!(n.is_marked());
    n.unmark();
    assert!(!n.is_marked());
    let m = Node::new(7);
    assert!(n.equals(&m));
    let o = Node::new(8);
    assert!(!n.equals(&o));
}

#[test]
fn node_common_neighbors_are_counted() {
    let a = Node { id: 0, adj_nodes: vec![1, 2, 3], adj_edges: Vec::new(), marked: false };
    let b = Node { id: 4, adj_nodes: vec![2, 3, 5], adj_edges: Vec::new(), marked: false };
    assert_eq!(a.nb_common_adj(&b), 2);
    assert_eq!(b.nb_common_adj(&a), 2);
    let c = Node { id: 6, adj_nodes: Vec::new(), adj_edges: Vec::new(), marked: false };
    assert_eq!(a.nb_common_adj(&c), 0);
}

#[test]
fn clear_adj_nodes_empties_the_list() {
    let mut a = Node { id: 0, adj_nodes: vec![1, 2, 3], adj_edges: vec![9], marked: true };
    a.clear_adj_nodes();
    assert_eq!(a.adj_nodes.len(), 0);
    assert_eq!(a.adj_edges.len(), 1);
    assert!(a.is_marked());
}

#[test]
fn edge_accessors() {
    let mut e = Edge::new(3, -1, 1, 2);
    assert_eq!(e.color(), -1);
    assert_eq!(e.degree(), 0);
    assert!(!e.is_marked());
    e.mark();
    assert!(e.is_marked());
    e.unmark();
    assert!(!e.is_marked());
    e.set_color(5);
    assert_eq!(e.color(), 5);
    let f = Edge::new(3, 0, 0, 1);
    assert!(e.equals(&f));
    let h = Edge::new(4, 0, 0, 1);
    assert!(!e.equals(&h));
}

#[test]
fn dsat_counts_distinct_neighbor_colors() {
    let mut es = vec![
        Edge::new(0, -1, 0, 1),
        Edge::new(1, 0, 0, 2),
        Edge::new(2, 2, 1, 2),
        Edge::new(3, 2, 1, 3),
        Edge::new(4, -1, 2, 3),
    ];
    es[0].adj_edges = vec![1, 2, 3, 4];
    // neighbors carry colors {0, 2, 2, -1}: two distinct colors
    assert_eq!(Edge::dsat(&es, 0, 2), 2);
    // an edge with no neighbors is unsaturated
    assert_eq!(Edge::dsat(&es, 4, 2), 0);
}

#[test]
fn min_color_takes_one_above_the_neighbor_maximum() {
    let mut es = vec![
        Edge::new(0, -1, 0, 1),
        Edge::new(1, 4, 0, 2),
        Edge::new(2, 1, 1, 2),
    ];
    es[0].adj_edges = vec![1, 2];
    let c = Edge::min_color(&mut es, 0);
    assert_eq!(c, 5);
    assert_eq!(es[0].color(), 5);
    // with no colored neighbor the assignment falls back to color 0
    let mut lone = vec![Edge::new(0, -1, 0, 1)];
    let c0 = Edge::min_color(&mut lone, 0);
    assert_eq!(c0, 0);
}

#[test]
fn coloring_counts_colors_on_a_single_edge_graph() {
    // two vertices, one constraint: a single edge needs one color
    let mesh = Mesh::new(3, vec![(0, 1, 1)]);
    let mut g = Graph::new(mesh).unwrap();
    g.build_edge_graph();
    assert_eq!(g.edges.len(), 1);
    let nb = g.color_edge_graph().unwrap();
    assert_eq!(nb, 1);
    assert_eq!(g.edges[0].color(), 0);
}

#[test]
fn connect_nodes_is_idempotent_and_symmetric() {
    let mut nodes = vec![Node::new(0), Node::new(1), Node::new(2)];
    Node::connect_nodes(&mut nodes, 0, 1);
    Node::connect_nodes(&mut nodes, 0, 1);
    Node::connect_nodes(&mut nodes, 1, 0);
    Node::connect_nodes(&mut nodes, 2, 2);
    assert_eq!(nodes[0].adj_nodes, vec![1]);
    assert_eq!(nodes[1].adj_nodes, vec![0]);
    assert!(nodes[2].adj_nodes.is_empty());
}

#[test]
fn two_hop_candidates_need_two_common_neighbors() {
    // path 0 - 1 - 2: the ends share only one common neighbor
    let mut path = vec![Node::new(0), Node::new(1), Node::new(2)];
    Node::connect_nodes(&mut path, 0, 1);
    Node::connect_nodes(&mut path, 1, 2);
    assert!(Node::get_2_distant_adjs(&path, 0).is_empty());
    // diamond 0-1, 0-2, 1-3, 2-3: vertices 0 and 3 share two neighbors
    let mut d = vec![Node::new(0), Node::new(1), Node::new(2), Node::new(3)];
    Node::connect_nodes(&mut d, 0, 1);
    Node::connect_nodes(&mut d, 0, 2);
    Node::connect_nodes(&mut d, 1, 3);
    Node::connect_nodes(&mut d, 2, 3);
    let cands = Node::get_2_distant_adjs(&d, 0);
    assert!(cands.contains(&3));
    assert!(!cands.contains(&1));
    assert!(!cands.contains(&2));
    assert!(!cands.contains(&0));
}
