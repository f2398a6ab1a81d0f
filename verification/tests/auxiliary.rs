use graph_coloring::cnf::CNF;
use graph_coloring::colorizer::Colorizer;
use graph_coloring::dummies::EmptyColorizer;
use graph_coloring::edge_map::EdgeMap;
use graph_coloring::graph::Edge;
use graph_coloring::graph::Graph;
use graph_coloring::vars::getColor;
use graph_coloring::vertex_map::VertexMap;

#[test]
fn edge_map_insert_get_remove() {
    let mut m = EdgeMap::<u32>::new();
    assert_eq!(m.len(), 0);
    m.insert(Edge::new(1, 2), 7);
    m.insert(Edge::new(2, 3), 9);
    assert_eq!(m.len(), 2);
    assert_eq!(m.get(Edge::new(2, 1)), Some(7));
    m.insert(Edge::new(1, 2), 8);
    assert_eq!(m.len(), 2);
    assert_eq!(m.get(Edge::new(1, 2)), Some(8));
    m.remove(Edge::new(1, 2));
    assert_eq!(m.len(), 1);
    assert_eq!(m.get(Edge::new(1, 2)), None);
    assert_eq!(m.keys(), vec![Edge::new(2, 3)]);
}

#[test]
fn vertex_map_insert_get_remove() {
    let mut m = VertexMap::<i32>::new();
    m.insert(4, 1);
    m.insert(5, 2);
    m.insert(4, 3);
    assert_eq!(m.len(), 2);
    assert_eq!(m.get(4), Some(3));
    m.remove(5);
    assert_eq!(m.get(5), None);
    assert_eq!(m.len(), 1);
}

#[test]
fn trivial_colorings_cover_what_they_promise() {
    let mut g = Graph::new();
    g.add_edge(Edge::new(1, 2));
    g.add_edge(Edge::new(2, 3));
    assert_eq!(Colorizer::empty_edge_coloring(&g).len(), 0);
    assert_eq!(Colorizer::empty_vertex_coloring(&g).len(), 0);
    let ge = Colorizer::green_edge_coloring(&g);
    assert_eq!(ge.len(), 2);
    assert_eq!(ge.get(Edge::new(1, 2)), Some(0));
    let gv = Colorizer::green_vertex_coloring(&g);
    assert_eq!(gv.len(), 3);
    assert_eq!(gv.get(3), Some(0));
    assert_eq!(EmptyColorizer::edge_coloring(&g).len(), 0);
    assert_eq!(EmptyColorizer::vertex_coloring(&g).len(), 0);
    assert_eq!(EmptyColorizer::all_green_edge_coloring(&g).get(Edge::new(2, 3)), Some(0));
    assert_eq!(EmptyColorizer::all_green_vertex_coloring(&g).get(1), Some(0));
}

#[test]
fn palette_lookup_and_sentinel() {
    assert_eq!(getColor(0), "#01a120");
    assert_eq!(getColor(1), "#ff106f");
    assert_eq!(getColor(16), "#3f3fff");
    assert_eq!(getColor(17), "#000000");
    assert_eq!(getColor(55), "#000000");
}

#[test]
fn cnf_eval_checks_every_clause() {
    let f = CNF { clauses: vec![vec![1, 2], vec![-1, 3]] };
    assert!(f.eval(&vec![1, 3]));
    assert!(f.eval(&vec![2, 3]));
    assert!(f.eval(&vec![-1, 2]));
    assert!(!f.eval(&vec![1, -3, 2]));
    assert!(!f.eval(&vec![-2, -3, 1]));
    let empty = CNF { clauses: vec![] };
    assert!(empty.eval(&vec![]));
}

#[test]
fn random_interpretation_decides_every_variable() {
    let f = CNF { clauses: vec![vec![1, -3], vec![2, 3]] };
    let inter = f.random_interpretation();
    assert_eq!(inter.len(), 3);
    for (i, l) in inter.iter().enumerate() {
        let v = (i + 1) as i32;
        assert!(*l == v || *l == -v);
    }
}

#[test]
fn random_3sat_solves_a_forced_formula() {
    let f = CNF { clauses: vec![vec![1], vec![2], vec![-3]] };
    let r = f.random_3sat(4);
    assert!(r.is_some());
    let inter = r.unwrap();
    assert!(f.eval(&inter));
    assert_eq!(inter, vec![1, 2, -3]);
}

#[test]
fn random_3sat_gives_up_on_a_contradiction() {
    let f = CNF { clauses: vec![vec![1], vec![-1]] };
    assert!(f.random_3sat(3).is_none());
}
