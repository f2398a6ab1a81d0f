use vstd::prelude::*;

use crate::edge_map::EdgeMap;
use crate::graph::Edge;
use crate::graph::Graph;
use crate::vertex_map::VertexMap;

verus! {

broadcast use vstd::seq_lib::group_seq_properties;

/// Placeholder colorings for rendering: either no binding at all, or one
/// fixed display color for everything.
pub struct EmptyColorizer {}

impl EmptyColorizer {
    /// A coloring that colors no edge at all.
    pub fn edge_coloring(_g: &Graph) -> (r: EdgeMap<u32>)
        ensures
            r.wf(),
            r@ == Map::<Edge, u32>::empty(),
    {
        EdgeMap::new()
    }

    /// A coloring that colors no vertex at all.
    pub fn vertex_coloring(_g: &Graph) -> (r: VertexMap<u32>)
        ensures
            r.wf(),
            r@ == Map::<i32, u32>::empty(),
    {
        VertexMap::new()
    }

    /// Binds every edge of the graph to the display color 0.
    pub fn all_green_edge_coloring(g: &Graph) -> (r: EdgeMap<u32>)
        ensures
            r.wf(),
            forall|e: Edge| #[trigger] r@.dom().contains(e) <==> g.edges@.contains(e),
            forall|e: Edge| #[trigger] r@.dom().contains(e) ==> r@[e] == 0,
    {
        let mut r = EdgeMap::<u32>::new();
        let mut i: usize = 0;
        while i < g.edges.len()
            invariant
                r.wf(),
                i <= g.edges@.len(),
                forall|e: Edge|
                    #[trigger] r@.dom().contains(e) <==> g.edges@.take(i as int).contains(e),
                forall|e: Edge| #[trigger] r@.dom().contains(e) ==> r@[e] == 0,
            decreases g.edges@.len() - i,
        {
            proof {
                assert(g.edges@.take(i + 1).drop_last() =~= g.edges@.take(i as int));
                assert(g.edges@.take(i + 1).last() == g.edges@[i as int]);
                assert(g.edges@.take(i + 1) =~= g.edges@.take(i as int).push(
                    g.edges@[i as int],
                ));
            }
            r.insert(g.edges[i], 0);
            i = i + 1;
        }
        proof {
            assert(g.edges@.take(g.edges@.len() as int) =~= g.edges@);
        }
        r
    }

    /// Binds every vertex of the graph to the display color 0.
    pub fn all_green_vertex_coloring(g: &Graph) -> (r: VertexMap<u32>)
        ensures
            r.wf(),
            forall|v: i32| #[trigger] r@.dom().contains(v) <==> g.vertices@.contains(v),
            forall|v: i32| #[trigger] r@.dom().contains(v) ==> r@[v] == 0,
    {
        let mut r = VertexMap::<u32>::new();
        let mut i: usize = 0;
        while i < g.vertices.len()
            invariant
                r.wf(),
                i <= g.vertices@.len(),
                forall|v: i32|
                    #[trigger] r@.dom().contains(v) <==> g.vertices@.take(i as int).contains(v),
                forall|v: i32| #[trigger] r@.dom().contains(v) ==> r@[v] == 0,
            decreases g.vertices@.len() - i,
        {
            proof {
                assert(g.vertices@.take(i + 1).drop_last() =~= g.vertices@.take(i as int));
                assert(g.vertices@.take(i + 1).last() == g.vertices@[i as int]);
                assert(g.vertices@.take(i + 1) =~= g.vertices@.take(i as int).push(
                    g.vertices@[i as int],
                ));
            }
            r.insert(g.vertices[i], 0);
            i = i + 1;
        }
        proof {
            assert(g.vertices@.take(g.vertices@.len() as int) =~= g.vertices@);
        }
        r
    }
}

} // verus!
