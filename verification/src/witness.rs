use vstd::prelude::*;

use crate::graph::Edge;
use crate::graph::Graph;

verus! {

broadcast use vstd::seq_lib::group_seq_properties;

/// Two to the given power.
pub open spec fn pow2(e: nat) -> nat
    decreases e,
{
    if e == 0 {
        1
    } else {
        2 * pow2((e - 1) as nat)
    }
}

/// Powers of two grow with the exponent.
pub proof fn lemma_pow2_monotone(a: nat, b: nat)
    requires
        a <= b,
    ensures
        pow2(a) <= pow2(b),
    decreases b,
{
    if a < b {
        lemma_pow2_monotone(a, (b - 1) as nat);
        assert(pow2((b - 1) as nat) >= 1) by {
            lemma_pow2_positive((b - 1) as nat);
        }
    }
}

pub proof fn lemma_pow2_positive(e: nat)
    ensures
        pow2(e) >= 1,
    decreases e,
{
    if e > 0 {
        lemma_pow2_positive((e - 1) as nat);
    }
}

/// The values of the powers of two that the construction can reach.
pub proof fn lemma_pow2_30()
    ensures
        pow2(29) == 0x20000000,
        pow2(30) == 0x40000000,
{
    reveal_with_fuel(pow2, 32);
}

fn pow2_exec(e: u32) -> (r: i32)
    requires
        e <= 30,
    ensures
        r == pow2(e as nat),
        1 <= r,
{
    let mut r: i32 = 1;
    let mut k: u32 = 0;
    while k < e
        invariant
            k <= e <= 30,
            r == pow2(k as nat),
        decreases e - k,
    {
        proof {
            lemma_pow2_monotone(k as nat + 1, 30);
            lemma_pow2_30();
        }
        r = 2 * r;
        k = k + 1;
    }
    proof {
        lemma_pow2_positive(e as nat);
    }
    r
}

/// The exact edge list of stage `i` of the construction: the edges of the
/// previous stage shifted up by half the vertex count, followed by the
/// perfect matching between the two halves.
pub open spec fn witness_edges(i: nat) -> Seq<Edge>
    decreases i,
{
    if i <= 1 {
        seq![Edge { u: 1, v: 2 }]
    } else {
        witness_edges((i - 1) as nat).map_values(
            |e: Edge|
                Edge {
                    u: (e.u + pow2((i - 1) as nat)) as i32,
                    v: (e.v + pow2((i - 1) as nat)) as i32,
                },
        ) + Seq::new(
            pow2((i - 1) as nat),
            |j: int| Edge { u: (j + 1) as i32, v: (j + 1 + pow2((i - 1) as nat)) as i32 },
        )
    }
}

/// A family of graphs on which greedy vertex coloring needs many colors:
/// stage 1 is a single edge `{1, 2}`, and each further stage joins a
/// shifted copy of the previous stage to the fresh half by a perfect
/// matching. Stage `i` has `2^i` vertices, numbered `1..=2^i` in order,
/// and `2^i - 1` edges.
pub fn johnson_witness(i: i32) -> (r: Graph)
    requires
        1 <= i <= 30,
    ensures
        r.wf(),
        r.vertices@.len() == pow2(i as nat),
        forall|j: int| 0 <= j < r.vertices@.len() ==> #[trigger] r.vertices@[j] == j + 1,
        r.edges@.len() == pow2(i as nat) - 1,
        r.edges@ == witness_edges(i as nat),
    decreases i,
{
    if i == 1 {
        let mut g = Graph::new();
        g.add_edge(Edge::new(1, 2));
        proof {
            reveal_with_fuel(pow2, 3);
            assert(pow2(1) == 2);
            assert(g.vertices@ =~= Seq::<i32>::empty().push(1).push(2));
            assert(g.edges@ =~= witness_edges(1));
        }
        return g;
    }
    let prev = johnson_witness(i - 1);
    let offset = pow2_exec((i - 1) as u32);
    proof {
        lemma_pow2_monotone((i - 1) as nat, 29);
        lemma_pow2_30();
    }
    let total = 2 * offset;
    let mut vs: Vec<i32> = Vec::new();
    let mut j: i32 = 1;
    while j <= total
        invariant
            1 <= j <= total + 1,
            total <= 0x40000000,
            vs@.len() == j - 1,
            forall|k: int| 0 <= k < vs@.len() ==> #[trigger] vs@[k] == k + 1,
        decreases total + 1 - j,
    {
        vs.push(j);
        j = j + 1;
    }
    let mut g = Graph { vertices: vs, edges: Vec::new() };
    proof {
        assert(g.edges@ =~= Seq::<Edge>::empty());
        assert(g.wf());
    }
    let mut t: usize = 0;
    while t < prev.edges.len()
        invariant
            prev.wf(),
            prev.vertices@.len() == pow2((i - 1) as nat),
            forall|k: int|
                0 <= k < prev.vertices@.len() ==> #[trigger] prev.vertices@[k] == k + 1,
            prev.edges@.len() == pow2((i - 1) as nat) - 1,
            prev.edges@ == witness_edges((i - 1) as nat),
            offset == pow2((i - 1) as nat),
            1 <= offset <= 0x20000000,
            total == 2 * offset,
            g.wf(),
            g.vertices@.len() == total,
            forall|k: int| 0 <= k < g.vertices@.len() ==> #[trigger] g.vertices@[k] == k + 1,
            t <= prev.edges@.len(),
            g.edges@.len() == t,
            forall|x: int|
                0 <= x < t ==> #[trigger] g.edges@[x] == (Edge {
                    u: (prev.edges@[x].u + offset) as i32,
                    v: (prev.edges@[x].v + offset) as i32,
                }),
        decreases prev.edges@.len() - t,
    {
        let e = prev.edges[t];
        proof {
            assert(prev.edges@[t as int].wf());
            assert(prev.vertices@.contains(prev.edges@[t as int].u));
            assert(prev.vertices@.contains(prev.edges@[t as int].v));
            let ku = choose|ku: int|
                0 <= ku < prev.vertices@.len() && prev.vertices@[ku] == prev.edges@[t as int].u;
            let kv = choose|kv: int|
                0 <= kv < prev.vertices@.len() && prev.vertices@[kv] == prev.edges@[t as int].v;
            assert(1 <= prev.edges@[t as int].u <= offset);
            assert(1 <= prev.edges@[t as int].v <= offset);
        }
        let ne = Edge::new(e.u + offset, e.v + offset);
        proof {
            if g.edges@.contains(ne) {
                let x = choose|x: int| 0 <= x < g.edges@.len() && g.edges@[x] == ne;
                assert(g.edges@[x] == (Edge {
                    u: (prev.edges@[x].u + offset) as i32,
                    v: (prev.edges@[x].v + offset) as i32,
                }));
                assert(prev.edges@[x] == prev.edges@[t as int]);
                assert(false);
            }
            assert(g.vertices@[ne.u - 1] == ne.u);
            assert(g.vertices@.contains(ne.u));
            assert(g.vertices@[ne.v - 1] == ne.v);
            assert(g.vertices@.contains(ne.v));
        }
        let ghost ge0 = g.edges@;
        let ghost gv0 = g.vertices@;
        g.add_edge(ne);
        proof {
            assert(g.vertices@ == gv0);
            assert(g.edges@ == ge0.push(ne));
        }
        t = t + 1;
    }
    let ghost base = g.edges@;
    let mut j2: i32 = 1;
    while j2 <= offset
        invariant
            1 <= j2 <= offset + 1,
            1 <= offset <= 0x20000000,
            total == 2 * offset,
            g.wf(),
            g.vertices@.len() == total,
            forall|k: int| 0 <= k < g.vertices@.len() ==> #[trigger] g.vertices@[k] == k + 1,
            base.len() <= 0x20000000,
            forall|x: int|
                0 <= x < base.len() ==> (#[trigger] base[x]).u > offset,
            base.len() == pow2((i - 1) as nat) - 1,
            prev.edges@ == witness_edges((i - 1) as nat),
            forall|x: int|
                0 <= x < base.len() ==> #[trigger] base[x] == (Edge {
                    u: (prev.edges@[x].u + offset) as i32,
                    v: (prev.edges@[x].v + offset) as i32,
                }),
            g.edges@.len() == base.len() + j2 - 1,
            forall|x: int| 0 <= x < base.len() ==> #[trigger] g.edges@[x] == base[x],
            forall|x: int|
                base.len() <= x < g.edges@.len() ==> #[trigger] g.edges@[x] == (Edge {
                    u: (x - base.len() + 1) as i32,
                    v: (x - base.len() + 1 + offset) as i32,
                }),
        decreases offset + 1 - j2,
    {
        let ne = Edge::new(j2, j2 + offset);
        proof {
            if g.edges@.contains(ne) {
                let x = choose|x: int| 0 <= x < g.edges@.len() && g.edges@[x] == ne;
                if x < base.len() {
                    assert(base[x].u > offset);
                } else {
                    assert(g.edges@[x].u == x - base.len() + 1);
                }
                assert(false);
            }
            assert(g.vertices@[ne.u - 1] == ne.u);
            assert(g.vertices@.contains(ne.u));
            assert(g.vertices@[ne.v - 1] == ne.v);
            assert(g.vertices@.contains(ne.v));
        }
        let ghost ge0 = g.edges@;
        let ghost gv0 = g.vertices@;
        g.add_edge(ne);
        proof {
            assert(g.vertices@ == gv0);
            assert(g.edges@ == ge0.push(ne));
            assert forall|x: int|
                base.len() <= x < g.edges@.len() implies #[trigger] g.edges@[x] == (Edge {
                    u: (x - base.len() + 1) as i32,
                    v: (x - base.len() + 1 + offset) as i32,
                }) by {
                if x < ge0.len() {
                    assert(g.edges@[x] == ge0[x]);
                } else {
                    assert(g.edges@[x] == ne);
                }
            }
        }
        j2 = j2 + 1;
    }
    proof {
        assert(g.edges@.len() == base.len() + offset);
        assert(base.len() == pow2((i - 1) as nat) - 1);
        assert(g.edges@.len() == 2 * pow2((i - 1) as nat) - 1);
        assert(pow2(i as nat) == 2 * pow2((i - 1) as nat));
        let ghost shifted = witness_edges((i - 1) as nat).map_values(
            |e: Edge|
                Edge {
                    u: (e.u + pow2((i - 1) as nat)) as i32,
                    v: (e.v + pow2((i - 1) as nat)) as i32,
                },
        );
        let ghost bridges = Seq::new(
            pow2((i - 1) as nat),
            |j: int| Edge { u: (j + 1) as i32, v: (j + 1 + pow2((i - 1) as nat)) as i32 },
        );
        assert forall|x: int| 0 <= x < g.edges@.len() implies g.edges@[x] == (shifted
            + bridges)[x] by {
            if x < base.len() {
                assert(g.edges@[x] == base[x]);
                assert(shifted[x] == (Edge {
                    u: (prev.edges@[x].u + offset) as i32,
                    v: (prev.edges@[x].v + offset) as i32,
                }));
            } else {
                assert((shifted + bridges)[x] == bridges[x - shifted.len()]);
            }
        }
        assert(g.edges@ =~= shifted + bridges);
        assert(g.edges@ =~= witness_edges(i as nat));
    }
    g
}

} // verus!
