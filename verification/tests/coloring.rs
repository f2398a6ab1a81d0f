use graph_coloring::edge_map::EdgeMap;
use graph_coloring::graph::Edge;
use graph_coloring::graph::Graph;
use graph_coloring::vizing::check_proper;
use graph_coloring::vizing::color_free_in_map;

fn distinct_edge_colors(c: &EdgeMap<u32>) -> Vec<u32> {
    let mut seen: Vec<u32> = Vec::new();
    for k in c.keys() {
        let col = c.get(k).unwrap();
        if !seen.contains(&col) {
            seen.push(col);
        }
    }
    seen.sort();
    seen
}

fn cycle5() -> Graph {
    let mut g = Graph::new();
    g.add_edge(Edge::new(0, 1));
    g.add_edge(Edge::new(1, 2));
    g.add_edge(Edge::new(2, 3));
    g.add_edge(Edge::new(3, 4));
    g.add_edge(Edge::new(4, 0));
    g
}

fn star(k: i32) -> Graph {
    let mut g = Graph::new();
    for leaf in 1..=k {
        g.add_edge(Edge::new(0, leaf));
    }
    g
}

#[test]
fn vizing_of_empty_graph_is_empty() {
    let g = Graph::new();
    let c = g.vizing_ecol().unwrap();
    assert_eq!(c.len(), 0);
}

#[test]
fn vizing_of_single_edge_uses_color_one() {
    let mut g = Graph::new();
    g.add_edge(Edge::new(1, 2));
    let c = g.vizing_ecol().unwrap();
    assert_eq!(c.len(), 1);
    assert_eq!(c.get(Edge::new(1, 2)), Some(1));
}

#[test]
fn vizing_of_five_cycle_uses_three_colors() {
    let g = cycle5();
    assert_eq!(g.max_degree(), 2);
    let c = g.vizing_ecol().unwrap();
    assert_eq!(c.len(), 5);
    assert!(check_proper(&c));
    assert_eq!(distinct_edge_colors(&c).len(), 3);
}

#[test]
fn vizing_of_star_uses_one_color_per_leaf() {
    let g = star(5);
    let c = g.vizing_ecol().unwrap();
    assert_eq!(c.len(), 5);
    assert!(check_proper(&c));
    let cols = distinct_edge_colors(&c);
    assert_eq!(cols, vec![1, 2, 3, 4, 5]);
}

#[test]
fn vizing_rerun_satisfies_the_same_bound() {
    let g = cycle5();
    let c1 = g.vizing_ecol().unwrap();
    let c2 = g.vizing_ecol().unwrap();
    for c in [&c1, &c2] {
        assert!(check_proper(c));
        assert!(distinct_edge_colors(c).len() <= g.max_degree() + 1);
    }
}

fn recolor_example() -> (Graph, EdgeMap<u32>) {
    let mut g = Graph::new();
    for (a, b) in [
        (0, 1),
        (0, 2),
        (0, 3),
        (0, 4),
        (1, 5),
        (1, 6),
        (2, 7),
        (2, 8),
        (3, 9),
        (3, 10),
        (3, 14),
        (4, 11),
        (4, 13),
        (12, 17),
        (14, 15),
        (15, 16),
        (16, 17),
        (17, 18),
        (18, 19),
        (19, 20),
        (20, 21),
    ] {
        g.add_edge(Edge::new(a, b));
    }
    let mut c = EdgeMap::<u32>::new();
    c.insert(Edge { u: 0, v: 1 }, 1);
    c.insert(Edge { u: 0, v: 2 }, 2);
    c.insert(Edge { u: 0, v: 3 }, 3);
    c.insert(Edge { u: 0, v: 4 }, 4);
    c.insert(Edge { u: 1, v: 5 }, 3);
    c.insert(Edge { u: 1, v: 6 }, 4);
    c.insert(Edge { u: 2, v: 7 }, 1);
    c.insert(Edge { u: 2, v: 8 }, 4);
    c.insert(Edge { u: 3, v: 9 }, 1);
    c.insert(Edge { u: 3, v: 10 }, 2);
    c.insert(Edge { u: 4, v: 11 }, 1);
    c.insert(Edge { u: 4, v: 12 }, 2);
    c.insert(Edge { u: 3, v: 14 }, 5);
    c.insert(Edge { u: 14, v: 15 }, 3);
    c.insert(Edge { u: 15, v: 16 }, 5);
    c.insert(Edge { u: 16, v: 17 }, 3);
    (g, c)
}

#[test]
fn recolor_frees_the_requested_color_and_stays_proper() {
    let (g, mut c) = recolor_example();
    let before = c.len();
    assert!(check_proper(&c));
    assert!(!color_free_in_map(&c, 0, 1));
    let r = g.vizing_recolor(0, &mut c, 1, 5);
    assert!(r.is_ok());
    assert!(check_proper(&c));
    assert!(color_free_in_map(&c, 0, 1));
    assert_eq!(c.len(), before);
}

#[test]
fn recolor_with_equal_colors_is_a_no_op() {
    let (g, mut c) = recolor_example();
    let r = g.vizing_recolor(0, &mut c, 2, 2);
    assert!(r.is_ok());
    assert_eq!(c.get(Edge::new(0, 1)), Some(1));
    assert_eq!(c.get(Edge::new(0, 4)), Some(4));
}

#[test]
fn unused_edge_color_is_the_smallest_free_one() {
    let g = star(3);
    let mut c = EdgeMap::<u32>::new();
    c.insert(Edge::new(0, 1), 1);
    c.insert(Edge::new(0, 2), 2);
    assert_eq!(g.unused_edge_color(0, &c), 3);
    assert_eq!(g.unused_edge_color(1, &c), 2);
    assert_eq!(g.unused_edge_color(3, &c), 1);
}

#[test]
fn vizing_on_a_larger_graph_is_proper_and_bounded() {
    let (g, _) = recolor_example();
    let c = g.vizing_ecol().unwrap();
    assert_eq!(c.len(), g.edges.len());
    assert!(check_proper(&c));
    let cols = distinct_edge_colors(&c);
    assert!(cols.len() <= g.max_degree() + 1);
    for col in cols {
        assert!(col >= 1 && col <= (g.max_degree() + 1) as u32);
    }
}

#[test]
fn johnson_of_empty_graph_is_empty() {
    let g = Graph::new();
    let c = g.johnson_vcol();
    assert_eq!(c.len(), 0);
}

#[test]
fn johnson_of_single_edge_uses_two_layers() {
    let mut g = Graph::new();
    g.add_edge(Edge::new(1, 2));
    let c = g.johnson_vcol();
    assert_eq!(c.len(), 2);
    assert_eq!(c.get(1), Some(1));
    assert_eq!(c.get(2), Some(2));
}

fn distinct_vertex_colors(c: &graph_coloring::vertex_map::VertexMap<i32>) -> Vec<i32> {
    let mut seen: Vec<i32> = Vec::new();
    for k in c.keys() {
        let col = c.get(k).unwrap();
        if !seen.contains(&col) {
            seen.push(col);
        }
    }
    seen.sort();
    seen
}

#[test]
fn johnson_of_five_cycle_uses_three_layers() {
    let g = cycle5();
    let c = g.johnson_vcol();
    assert_eq!(c.len(), 5);
    assert_eq!(distinct_vertex_colors(&c).len(), 3);
    for e in &g.edges {
        assert_ne!(c.get(e.u), c.get(e.v));
    }
}

#[test]
fn johnson_of_star_uses_two_layers() {
    let g = star(5);
    let c = g.johnson_vcol();
    assert_eq!(c.len(), 6);
    assert_eq!(distinct_vertex_colors(&c).len(), 2);
    for e in &g.edges {
        assert_ne!(c.get(e.u), c.get(e.v));
    }
}

#[test]
fn johnson_rerun_stays_proper() {
    let g = cycle5();
    let c1 = g.johnson_vcol();
    let c2 = g.johnson_vcol();
    for c in [&c1, &c2] {
        for e in &g.edges {
            assert_ne!(c.get(e.u), c.get(e.v));
        }
    }
}

#[test]
fn johnson_on_witness_needs_an_extra_layer_per_stage() {
    let g = graph_coloring::witness::johnson_witness(2);
    let c = g.johnson_vcol();
    assert_eq!(c.len(), 4);
    assert_eq!(distinct_vertex_colors(&c).len(), 3);
    for e in &g.edges {
        assert_ne!(c.get(e.u), c.get(e.v));
    }
}

#[test]
fn greedy_independent_set_is_independent_and_maximal() {
    let g = cycle5();
    let is = g.greedy_is();
    for a in 0..is.len() {
        for b in (a + 1)..is.len() {
            assert!(!g.is_connected(is[a], is[b]));
        }
    }
    for v in &g.vertices {
        let covered = is.contains(v) || is.iter().any(|&y| g.is_connected(*v, y));
        assert!(covered);
    }
}

#[test]
fn recolor_signals_a_broken_coloring_invariant() {
    let mut g = Graph::new();
    g.add_edge(Edge::new(0, 1));
    g.add_edge(Edge::new(0, 2));
    g.add_edge(Edge::new(1, 2));
    let mut c = EdgeMap::<u32>::new();
    c.insert(Edge::new(0, 1), 1);
    c.insert(Edge::new(0, 2), 1);
    c.insert(Edge::new(1, 2), 1);
    assert!(!check_proper(&c));
    let r = g.vizing_recolor(0, &mut c, 1, 2);
    assert!(r.is_err());
    assert_eq!(c.get(Edge::new(0, 1)), Some(1));
    assert_eq!(c.get(Edge::new(0, 2)), Some(1));
    assert_eq!(c.get(Edge::new(1, 2)), Some(1));
}

#[test]
fn vizing_on_witness_graph_is_proper_and_bounded() {
    let g = graph_coloring::witness::johnson_witness(3);
    let c = g.vizing_ecol().unwrap();
    assert_eq!(c.len(), 7);
    assert!(check_proper(&c));
    assert!(distinct_edge_colors(&c).len() <= g.max_degree() + 1);
}
