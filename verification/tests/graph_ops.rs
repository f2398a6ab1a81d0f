use graph_coloring::graph::Edge;
use graph_coloring::graph::Graph;

fn cycle5() -> Graph {
    let mut g = Graph::new();
    g.add_edge(Edge::new(0, 1));
    g.add_edge(Edge::new(1, 2));
    g.add_edge(Edge::new(2, 3));
    g.add_edge(Edge::new(3, 4));
    g.add_edge(Edge::new(4, 0));
    g
}

#[test]
fn edge_new_normalizes() {
    let a = Edge::new(5, 2);
    assert_eq!(a.u, 2);
    assert_eq!(a.v, 5);
    let b = Edge::new(2, 5);
    assert_eq!(a, b);
}

#[test]
fn add_vertex_is_idempotent() {
    let mut g = Graph::new();
    g.add_vertex(7);
    g.add_vertex(7);
    g.add_vertex(3);
    assert_eq!(g.vertices, vec![7, 3]);
}

#[test]
fn add_edge_is_idempotent_and_adds_endpoints() {
    let mut g = Graph::new();
    g.add_edge(Edge::new(1, 2));
    g.add_edge(Edge::new(2, 1));
    assert_eq!(g.edges.len(), 1);
    assert_eq!(g.vertices, vec![1, 2]);
}

#[test]
fn degree_counts_incident_edges() {
    let g = cycle5();
    for v in 0..5 {
        assert_eq!(g.degree(v), 2);
    }
    assert_eq!(g.degree(99), 0);
    assert_eq!(g.max_degree(), 2);
}

#[test]
fn neighbours_of_cycle_vertex() {
    let g = cycle5();
    let mut nb = g.neighbours(0);
    nb.sort();
    assert_eq!(nb, vec![1, 4]);
}

#[test]
fn incident_edges_touch_the_vertex() {
    let g = cycle5();
    let inc = g.incident_edges(0);
    assert_eq!(inc.len(), 2);
    for e in &inc {
        assert!(e.u == 0 || e.v == 0);
    }
}

#[test]
fn is_connected_matches_edges() {
    let g = cycle5();
    assert!(g.is_connected(0, 1));
    assert!(g.is_connected(1, 0));
    assert!(!g.is_connected(0, 2));
    assert!(!g.is_connected(0, 0));
}

#[test]
fn is_clique_on_triangle() {
    let mut g = Graph::new();
    g.add_edge(Edge::new(1, 2));
    g.add_edge(Edge::new(2, 3));
    g.add_edge(Edge::new(1, 3));
    assert!(g.is_clique(&vec![1, 2, 3]));
    g.add_vertex(4);
    assert!(!g.is_clique(&vec![1, 2, 4]));
}

#[test]
fn random_clique_finds_triangle() {
    let mut g = Graph::new();
    g.add_edge(Edge::new(1, 2));
    g.add_edge(Edge::new(2, 3));
    g.add_edge(Edge::new(1, 3));
    let r = g.random_clique(3, 5);
    assert!(r.is_some());
    let v = r.unwrap();
    assert_eq!(v.len(), 3);
    assert!(g.is_clique(&v));
}

#[test]
fn random_clique_gives_up_without_edges() {
    let mut g = Graph::new();
    g.add_vertex(1);
    g.add_vertex(2);
    g.add_vertex(3);
    assert!(g.random_clique(2, 5).is_none());
}

#[test]
fn spanning_tree_of_weighted_cycle() {
    let mut g = Graph::new();
    g.add_edge(Edge::new(0, 1));
    g.add_edge(Edge::new(1, 2));
    g.add_edge(Edge::new(2, 3));
    g.add_edge(Edge::new(3, 4));
    g.add_edge(Edge::new(4, 0));
    g.add_edge(Edge::new(4, 1));
    let mut weights = graph_coloring::edge_map::EdgeMap::<u32>::new();
    weights.insert(Edge::new(0, 1), 5);
    weights.insert(Edge::new(1, 2), 4);
    weights.insert(Edge::new(2, 3), 3);
    weights.insert(Edge::new(3, 4), 2);
    weights.insert(Edge::new(4, 0), 1);
    weights.insert(Edge::new(4, 1), 3);
    let t = g.min_spanning_tree(&weights);
    assert_eq!(t.vertices.len(), 5);
    assert_eq!(t.edges.len(), 4);
    assert!(t.edges.contains(&Edge::new(4, 0)));
    assert!(t.edges.contains(&Edge::new(3, 4)));
    assert!(t.edges.contains(&Edge::new(2, 3)));
    assert!(t.edges.contains(&Edge::new(4, 1)));
}

#[test]
fn spanning_tree_of_empty_graph() {
    let g = Graph::new();
    let weights = graph_coloring::edge_map::EdgeMap::<u32>::new();
    let t = g.min_spanning_tree(&weights);
    assert_eq!(t.vertices.len(), 0);
    assert_eq!(t.edges.len(), 0);
}

#[test]
fn johnson_witness_first_stages() {
    let g1 = graph_coloring::witness::johnson_witness(1);
    assert_eq!(g1.vertices, vec![1, 2]);
    assert_eq!(g1.edges, vec![Edge::new(1, 2)]);
    let g3 = graph_coloring::witness::johnson_witness(3);
    assert_eq!(g3.vertices.len(), 8);
    assert_eq!(g3.edges.len(), 7);
    assert!(g3.edges.contains(&Edge::new(7, 8)));
    assert!(g3.edges.contains(&Edge::new(1, 5)));
    assert!(g3.edges.contains(&Edge::new(4, 8)));
}
