use vstd::prelude::*;

use crate::edge_map::EdgeMap;
use crate::graph::lemma_no_dup_subset_len;
use crate::graph::norm_edge;
use crate::graph::Edge;
use crate::graph::Graph;

verus! {

broadcast use vstd::seq_lib::group_seq_properties;

/// Consecutive entries of `p` are distinct and joined by edges of `es`.
pub open spec fn is_path_in(es: Seq<Edge>, p: Seq<i32>) -> bool {
    forall|i: int|
        0 <= i < p.len() - 1 ==> (#[trigger] p[i]) != p[i + 1] && es.contains(
            norm_edge(p[i], p[i + 1]),
        )
}

/// Vertex `b` can be reached from `a` through the edges `es`.
pub open spec fn connected_in(es: Seq<Edge>, a: i32, b: i32) -> bool {
    exists|p: Seq<i32>|
        p.len() >= 1 && p[0] == a && p[p.len() - 1] == b && #[trigger] is_path_in(es, p)
}

/// A vertex set closed under the edges swallows every path that starts
/// inside it.
proof fn lemma_cut_closed_covers(es: Seq<Edge>, tv: Seq<i32>, p: Seq<i32>)
    requires
        is_path_in(es, p),
        p.len() >= 1,
        tv.contains(p[0]),
        forall|i: int|
            0 <= i < es.len() ==> (tv.contains((#[trigger] es[i]).u) <==> tv.contains(
                es[i].v,
            )),
    ensures
        tv.contains(p[p.len() - 1]),
    decreases p.len(),
{
    if p.len() > 1 {
        assert forall|i: int|
            0 <= i < p.drop_last().len() - 1 implies (#[trigger] p.drop_last()[i])
            != p.drop_last()[i + 1] && es.contains(
            norm_edge(p.drop_last()[i], p.drop_last()[i + 1]),
        ) by {
            assert(p.drop_last()[i] == p[i] && p.drop_last()[i + 1] == p[i + 1]);
            assert(p[i] != p[i + 1] && es.contains(norm_edge(p[i], p[i + 1])));
        }
        lemma_cut_closed_covers(es, tv, p.drop_last());
        let a = p[p.len() - 2];
        let b = p[p.len() - 1];
        assert(a != b && es.contains(norm_edge(a, b)));
        let i = choose|i: int| 0 <= i < es.len() && es[i] == norm_edge(a, b);
        assert(tv.contains(es[i].u) <==> tv.contains(es[i].v));
        assert(tv.contains(a));
    }
}

impl Graph {
    /// Grows a spanning tree greedily from the first vertex: while an
    /// edge crosses the cut between the tree and the rest, a crossing
    /// edge of least weight is added. The result is a subgraph, a tree
    /// (one more vertex than edges) when the graph has vertices, and no
    /// edge of the graph crosses its vertex set.
    pub fn min_spanning_tree(&self, weights: &EdgeMap<u32>) -> (r: Graph)
        requires
            self.wf(),
            weights.wf(),
            forall|i: int|
                0 <= i < self.edges@.len() ==> weights@.dom().contains(
                    #[trigger] self.edges@[i],
                ),
        ensures
            r.wf(),
            forall|i: int| 0 <= i < r.edges@.len() ==> self.edges@.contains(#[trigger] r.edges@[i]),
            forall|i: int|
                0 <= i < r.vertices@.len() ==> self.vertices@.contains(#[trigger] r.vertices@[i]),
            self.vertices@.len() == 0 ==> r.vertices@.len() == 0 && r.edges@.len() == 0,
            self.vertices@.len() > 0 ==> r.vertices@.len() == r.edges@.len() + 1
                && r.vertices@.contains(self.vertices@[0]),
            forall|i: int|
                0 <= i < self.edges@.len() ==> (r.vertices@.contains(
                    (#[trigger] self.edges@[i]).u,
                ) <==> r.vertices@.contains(self.edges@[i].v)),
            forall|v: i32|
                #[trigger] r.vertices@.contains(v) ==> connected_in(
                    r.edges@,
                    self.vertices@[0],
                    v,
                ),
            forall|w: i32|
                self.vertices@.len() > 0 && #[trigger] connected_in(
                    self.edges@,
                    self.vertices@[0],
                    w,
                ) ==> r.vertices@.contains(w),
    {
        let mut g = Graph::new();
        if self.vertices.len() == 0 {
            proof {
                assert forall|i: int|
                    0 <= i < self.edges@.len() implies (g.vertices@.contains(
                    (#[trigger] self.edges@[i]).u,
                ) <==> g.vertices@.contains(self.edges@[i].v)) by {
                    assert(self.vertices@.contains(self.edges@[i].u));
                }
            }
            return g;
        }
        g.vertices.push(self.vertices[0]);
        proof {
            assert(g.edges@ =~= Seq::<Edge>::empty());
            assert(g.wf());
            let ghost p0 = seq![self.vertices@[0]];
            assert(is_path_in(g.edges@, p0));
            assert(p0.len() >= 1 && p0[0] == self.vertices@[0] && p0[p0.len() - 1]
                == self.vertices@[0]);
            assert(connected_in(g.edges@, self.vertices@[0], self.vertices@[0]));
        }
        loop
            invariant
                self.wf(),
                weights.wf(),
                g.wf(),
                forall|i: int|
                    0 <= i < self.edges@.len() ==> weights@.dom().contains(
                        #[trigger] self.edges@[i],
                    ),
                self.vertices@.len() > 0,
                g.vertices@.contains(self.vertices@[0]),
                forall|i: int|
                    0 <= i < g.edges@.len() ==> self.edges@.contains(#[trigger] g.edges@[i]),
                forall|i: int|
                    0 <= i < g.vertices@.len() ==> self.vertices@.contains(
                        #[trigger] g.vertices@[i],
                    ),
                g.vertices@.len() == g.edges@.len() + 1,
                g.vertices@.len() <= self.vertices@.len(),
                forall|j: int|
                    0 <= j < g.vertices@.len() ==> connected_in(
                        g.edges@,
                        self.vertices@[0],
                        #[trigger] g.vertices@[j],
                    ),
            ensures
                g.wf(),
                g.vertices@.contains(self.vertices@[0]),
                forall|i: int|
                    0 <= i < g.edges@.len() ==> self.edges@.contains(#[trigger] g.edges@[i]),
                forall|i: int|
                    0 <= i < g.vertices@.len() ==> self.vertices@.contains(
                        #[trigger] g.vertices@[i],
                    ),
                g.vertices@.len() == g.edges@.len() + 1,
                forall|j: int|
                    0 <= j < self.edges@.len() ==> (g.vertices@.contains(
                        (#[trigger] self.edges@[j]).u,
                    ) <==> g.vertices@.contains(self.edges@[j].v)),
                forall|j: int|
                    0 <= j < g.vertices@.len() ==> connected_in(
                        g.edges@,
                        self.vertices@[0],
                        #[trigger] g.vertices@[j],
                    ),
            decreases self.vertices@.len() - g.vertices@.len(),
        {
            let mut best: usize = self.edges.len();
            let mut best_w: u32 = 0;
            let mut i: usize = 0;
            while i < self.edges.len()
                invariant
                    self.wf(),
                    weights.wf(),
                    g.wf(),
                    forall|j: int|
                        0 <= j < self.edges@.len() ==> weights@.dom().contains(
                            #[trigger] self.edges@[j],
                        ),
                    i <= self.edges@.len(),
                    best == self.edges@.len() || best < i,
                    best == self.edges@.len() ==> forall|j: int|
                        0 <= j < i ==> (g.vertices@.contains((#[trigger] self.edges@[j]).u)
                            <==> g.vertices@.contains(self.edges@[j].v)),
                    best < self.edges@.len() ==> (g.vertices@.contains(self.edges@[best as int].u)
                        != g.vertices@.contains(self.edges@[best as int].v)),
                decreases self.edges@.len() - i,
            {
                let e = self.edges[i];
                let in_u = g.contains_vertex(e.u);
                let in_v = g.contains_vertex(e.v);
                if in_u != in_v {
                    let w = match weights.get(e) {
                        Some(x) => x,
                        None => {
                            proof {
                                assert(weights@.dom().contains(self.edges@[i as int]));
                                assert(false);
                            }
                            0
                        },
                    };
                    if best == self.edges.len() || w < best_w {
                        best = i;
                        best_w = w;
                    }
                }
                i = i + 1;
            }
            if best == self.edges.len() {
                break;
            }
            let e = self.edges[best];
            proof {
                assert(self.edges@[best as int].wf());
                assert(self.vertices@.contains(self.edges@[best as int].u));
                assert(self.vertices@.contains(self.edges@[best as int].v));
                if g.edges@.contains(e) {
                    let j = choose|j: int| 0 <= j < g.edges@.len() && g.edges@[j] == e;
                    assert(g.vertices@.contains(g.edges@[j].u));
                    assert(g.vertices@.contains(g.edges@[j].v));
                    assert(false);
                }
            }
            let ghost gv0 = g.vertices@;
            let ghost ge0 = g.edges@;
            g.add_edge(e);
            proof {
                assert(g.edges@ == ge0.push(e));
                assert(g.vertices@.len() == gv0.len() + 1);
                assert forall|j: int| 0 <= j < g.edges@.len() implies self.edges@.contains(
                    #[trigger] g.edges@[j],
                ) by {
                    if j < ge0.len() {
                        assert(g.edges@[j] == ge0[j]);
                    } else {
                        assert(g.edges@[j] == e);
                        assert(self.edges@[best as int] == e);
                    }
                }
                assert forall|j: int| 0 <= j < g.vertices@.len() implies self.vertices@.contains(
                    #[trigger] g.vertices@[j],
                ) by {
                    assert(g.vertices@.contains(g.vertices@[j]));
                    if gv0.contains(g.vertices@[j]) {
                        let k = choose|k: int| 0 <= k < gv0.len() && gv0[k] == g.vertices@[j];
                    }
                }
                lemma_no_dup_subset_len(g.vertices@, self.vertices@);
                // the new endpoint joins the tree through the added edge
                assert forall|j: int| 0 <= j < g.vertices@.len() implies connected_in(
                    g.edges@,
                    self.vertices@[0],
                    #[trigger] g.vertices@[j],
                ) by {
                    let x = g.vertices@[j];
                    if gv0.contains(x) {
                        let k = choose|k: int| 0 <= k < gv0.len() && gv0[k] == x;
                        assert(connected_in(ge0, self.vertices@[0], gv0[k]));
                        let p = choose|p: Seq<i32>|
                            p.len() >= 1 && p[0] == self.vertices@[0] && p[p.len() - 1] == x
                                && #[trigger] is_path_in(ge0, p);
                        assert forall|ii: int|
                            0 <= ii < p.len() - 1 implies (#[trigger] p[ii]) != p[ii + 1]
                            && g.edges@.contains(norm_edge(p[ii], p[ii + 1])) by {
                            assert(ge0.contains(norm_edge(p[ii], p[ii + 1])));
                        }
                        assert(is_path_in(g.edges@, p));
                        assert(connected_in(g.edges@, self.vertices@[0], x));
                    } else {
                        // x is the endpoint the edge just brought in
                        assert(g.vertices@.contains(x));
                        assert(e.touches(x));
                        let y = if e.u == x {
                            e.v
                        } else {
                            e.u
                        };
                        assert(gv0.contains(e.u) != gv0.contains(e.v));
                        assert(gv0.contains(y));
                        let k = choose|k: int| 0 <= k < gv0.len() && gv0[k] == y;
                        assert(connected_in(ge0, self.vertices@[0], gv0[k]));
                        let p = choose|p: Seq<i32>|
                            p.len() >= 1 && p[0] == self.vertices@[0] && p[p.len() - 1] == y
                                && #[trigger] is_path_in(ge0, p);
                        let p2 = p.push(x);
                        assert(p2[p2.len() - 1] == x && p2[0] == self.vertices@[0]);
                        assert forall|ii: int|
                            0 <= ii < p2.len() - 1 implies (#[trigger] p2[ii]) != p2[ii + 1]
                            && g.edges@.contains(norm_edge(p2[ii], p2[ii + 1])) by {
                            if ii < p.len() - 1 {
                                assert(p2[ii] == p[ii] && p2[ii + 1] == p[ii + 1]);
                                assert(ge0.contains(norm_edge(p[ii], p[ii + 1])));
                            } else {
                                assert(p2[ii] == y && p2[ii + 1] == x);
                                assert(norm_edge(y, x) == e);
                                assert(g.edges@.contains(e));
                            }
                        }
                        assert(is_path_in(g.edges@, p2));
                        assert(connected_in(g.edges@, self.vertices@[0], x));
                    }
                }
            }
        }
        proof {
            assert forall|w: i32|
                self.vertices@.len() > 0 && #[trigger] connected_in(
                    self.edges@,
                    self.vertices@[0],
                    w,
                ) implies g.vertices@.contains(w) by {
                let p = choose|p: Seq<i32>|
                    p.len() >= 1 && p[0] == self.vertices@[0] && p[p.len() - 1] == w
                        && #[trigger] is_path_in(self.edges@, p);
                lemma_cut_closed_covers(self.edges@, g.vertices@, p);
            }
        }
        g
    }
}

} // verus!
