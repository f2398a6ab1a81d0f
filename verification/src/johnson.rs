use vstd::prelude::*;

use crate::graph::lemma_has_edge_symm;
use crate::graph::lemma_no_dup_subset_len;
use crate::graph::Graph;
use crate::vertex_map::VertexMap;

verus! {

broadcast use vstd::seq_lib::group_seq_properties, lemma_has_edge_symm;

/// Index `m` is the first position of `pool` that attains the minimum
/// degree (taken in the whole graph with edges `es`).
pub open spec fn first_min_degree_at(es: Seq<crate::graph::Edge>, pool: Seq<i32>, m: int) -> bool {
    &&& 0 <= m < pool.len()
    &&& forall|j: int|
        0 <= j < pool.len() ==> crate::graph::count_incident(es, pool[m])
            <= crate::graph::count_incident(es, #[trigger] pool[j])
    &&& forall|j: int|
        0 <= j < m ==> crate::graph::count_incident(es, #[trigger] pool[j])
            > crate::graph::count_incident(es, pool[m])
}

fn seq_contains_i32(s: &Vec<i32>, x: i32) -> (r: bool)
    ensures
        r == s@.contains(x),
{
    let mut i: usize = 0;
    while i < s.len()
        invariant
            i <= s@.len(),
            forall|j: int| 0 <= j < i ==> s@[j] != x,
        decreases s@.len() - i,
    {
        if s[i] == x {
            return true;
        }
        i = i + 1;
    }
    false
}

impl Graph {
    /// A maximal independent set drawn from `pool` by repeatedly taking a
    /// minimum-degree vertex and discarding its neighbours: the result is
    /// duplicate-free, drawn from `pool`, pairwise non-adjacent, and no
    /// further `pool` vertex could join it.
    pub fn greedy_is_on_v(&self, pool: &Vec<i32>) -> (r: Vec<i32>)
        requires
            self.wf(),
            pool@.no_duplicates(),
        ensures
            r@.no_duplicates(),
            forall|j: int| 0 <= j < r@.len() ==> pool@.contains(#[trigger] r@[j]),
            forall|a: int, b: int|
                0 <= a < b < r@.len() ==> !self.has_edge(#[trigger] r@[a], #[trigger] r@[b]),
            forall|x: i32|
                #[trigger] pool@.contains(x) ==> r@.contains(x) || exists|y: i32|
                    r@.contains(y) && self.has_edge(x, y),
            pool@.len() > 0 ==> r@.len() > 0,
            pool@.len() > 0 ==> exists|m: int|
                #[trigger] first_min_degree_at(self.edges@, pool@, m) && r@.contains(pool@[m]),
    {
        let mut v_rem: Vec<i32> = Vec::new();
        let mut t: usize = 0;
        while t < pool.len()
            invariant
                t <= pool@.len(),
                v_rem@ =~= pool@.take(t as int),
            decreases pool@.len() - t,
        {
            v_rem.push(pool[t]);
            t = t + 1;
        }
        proof {
            assert(v_rem@ =~= pool@);
        }
        let mut u_set: Vec<i32> = Vec::new();
        while v_rem.len() > 0
            invariant
                self.wf(),
                v_rem@.no_duplicates(),
                u_set@.no_duplicates(),
                forall|j: int| 0 <= j < v_rem@.len() ==> pool@.contains(#[trigger] v_rem@[j]),
                forall|j: int| 0 <= j < u_set@.len() ==> pool@.contains(#[trigger] u_set@[j]),
                forall|a: int, b: int|
                    0 <= a < v_rem@.len() && 0 <= b < u_set@.len() ==> #[trigger] v_rem@[a]
                        != #[trigger] u_set@[b],
                forall|a: int, b: int|
                    0 <= a < v_rem@.len() && 0 <= b < u_set@.len() ==> !self.has_edge(
                        #[trigger] v_rem@[a],
                        #[trigger] u_set@[b],
                    ),
                forall|a: int, b: int|
                    0 <= a < b < u_set@.len() ==> !self.has_edge(
                        #[trigger] u_set@[a],
                        #[trigger] u_set@[b],
                    ),
                forall|x: i32|
                    #[trigger] pool@.contains(x) ==> v_rem@.contains(x) || u_set@.contains(x)
                        || exists|y: i32| u_set@.contains(y) && self.has_edge(x, y),
                u_set@.len() == 0 ==> v_rem@ == pool@,
                pool@.len() > 0 && u_set@.len() > 0 ==> exists|m: int|
                    #[trigger] first_min_degree_at(self.edges@, pool@, m) && u_set@.contains(
                        pool@[m],
                    ),
            decreases v_rem@.len(),
        {
            let mut m: usize = 0;
            let mut mdeg: usize = self.degree(v_rem[0]);
            let mut t2: usize = 1;
            while t2 < v_rem.len()
                invariant
                    self.wf(),
                    v_rem@.len() > 0,
                    m < t2 <= v_rem@.len() || (m == 0 && t2 == 1),
                    m < v_rem@.len(),
                    mdeg == crate::graph::count_incident(self.edges@, v_rem@[m as int]),
                    forall|j: int|
                        0 <= j < t2 ==> mdeg <= crate::graph::count_incident(
                            self.edges@,
                            #[trigger] v_rem@[j],
                        ),
                    forall|j: int|
                        0 <= j < m ==> crate::graph::count_incident(
                            self.edges@,
                            #[trigger] v_rem@[j],
                        ) > mdeg,
                decreases v_rem@.len() - t2,
            {
                let d = self.degree(v_rem[t2]);
                if d < mdeg {
                    m = t2;
                    mdeg = d;
                }
                t2 = t2 + 1;
            }
            let ghost v0 = v_rem@;
            let u = v_rem.remove(m);
            let ghost v1 = v_rem@;
            proof {
                assert(v0[m as int] == u);
                assert(v0.contains(u));
                assert forall|j: int| 0 <= j < v1.len() implies v0.contains(#[trigger] v1[j])
                    && v1[j] != u by {
                    if j < m {
                        assert(v1[j] == v0[j]);
                    } else {
                        assert(v1[j] == v0[j + 1]);
                    }
                }
                assert forall|a: int, b: int| 0 <= a < b < v1.len() implies v1[a] != v1[b] by {
                    if b < m {
                    } else if a < m {
                        assert(v1[a] == v0[a] && v1[b] == v0[b + 1]);
                    } else {
                        assert(v1[a] == v0[a + 1] && v1[b] == v0[b + 1]);
                    }
                }
                assert forall|x: i32| v0.contains(x) && x != u implies v1.contains(x) by {
                    let j = choose|j: int| 0 <= j < v0.len() && v0[j] == x;
                    if j < m {
                        assert(v1[j] == x);
                    } else {
                        assert(j > m);
                        assert(v1[j - 1] == x);
                    }
                }
                assert(!u_set@.contains(u)) by {
                    if u_set@.contains(u) {
                        let b = choose|b: int| 0 <= b < u_set@.len() && u_set@[b] == u;
                        assert(v0[m as int] != u_set@[b]);
                    }
                }
            }
            let nb = self.neighbours(u);
            let mut new_v: Vec<i32> = Vec::new();
            let mut t3: usize = 0;
            while t3 < v_rem.len()
                invariant
                    self.wf(),
                    v_rem@ == v1,
                    t3 <= v1.len(),
                    new_v@.len() <= t3,
                    forall|k: i32| #[trigger] nb@.contains(k) <==> self.has_edge(u, k),
                    new_v@.no_duplicates(),
                    v1.no_duplicates(),
                    forall|j: int|
                        0 <= j < new_v@.len() ==> v1.take(t3 as int).contains(
                            #[trigger] new_v@[j],
                        ) && !self.has_edge(u, new_v@[j]),
                    forall|x: i32|
                        v1.take(t3 as int).contains(x) && !self.has_edge(u, x)
                            ==> new_v@.contains(x),
                decreases v1.len() - t3,
            {
                let x = v_rem[t3];
                proof {
                    assert(v1.take(t3 + 1).drop_last() =~= v1.take(t3 as int));
                    assert(v1.take(t3 + 1).last() == v1[t3 as int]);
                }
                let ghost nv0 = new_v@;
                if !seq_contains_i32(&nb, x) {
                    proof {
                        assert(!nv0.contains(x)) by {
                            if nv0.contains(x) {
                                let j = choose|j: int| 0 <= j < nv0.len() && nv0[j] == x;
                                assert(v1.take(t3 as int).contains(x));
                                let a = choose|a: int|
                                    0 <= a < t3 && v1.take(t3 as int)[a] == x;
                                assert(v1[a] == v1[t3 as int]);
                            }
                        }
                    }
                    new_v.push(x);
                    proof {
                        assert forall|j: int| 0 <= j < new_v@.len() implies v1.take(
                            t3 + 1,
                        ).contains(#[trigger] new_v@[j]) && !self.has_edge(
                            u,
                            new_v@[j],
                        ) by {
                            if j < nv0.len() {
                                assert(new_v@[j] == nv0[j]);
                                let a = choose|a: int|
                                    0 <= a < t3 && v1.take(t3 as int)[a] == nv0[j];
                                assert(v1.take(t3 + 1)[a] == nv0[j]);
                            } else {
                                assert(new_v@[j] == x);
                                assert(v1.take(t3 + 1)[t3 as int] == x);
                            }
                        }
                        assert forall|x2: i32|
                            v1.take(t3 + 1).contains(x2) && !self.has_edge(u, x2) implies
                        new_v@.contains(x2) by {
                            assert(v1.take(t3 + 1) =~= v1.take(t3 as int).push(v1[t3 as int]));
                            if v1.take(t3 as int).contains(x2) {
                                assert(nv0.contains(x2));
                                let j = choose|j: int| 0 <= j < nv0.len() && nv0[j] == x2;
                                assert(new_v@[j] == x2);
                            } else {
                                assert(x2 == x);
                                assert(new_v@[new_v@.len() - 1] == x);
                            }
                        }
                    }
                } else {
                    proof {
                        assert forall|x2: i32|
                            v1.take(t3 + 1).contains(x2) && !self.has_edge(u, x2) implies
                        new_v@.contains(x2) by {
                            assert(v1.take(t3 + 1) =~= v1.take(t3 as int).push(v1[t3 as int]));
                            if !v1.take(t3 as int).contains(x2) {
                                assert(x2 == v1[t3 as int]);
                                assert(self.has_edge(u, x2));
                            }
                        }
                    }
                }
                t3 = t3 + 1;
            }
            proof {
                assert(v1.take(v1.len() as int) =~= v1);
            }
            let ghost us0 = u_set@;
            proof {
                if us0.len() == 0 {
                    assert(v0 == pool@);
                    assert(first_min_degree_at(self.edges@, pool@, m as int));
                }
            }
            u_set.push(u);
            v_rem = new_v;
            proof {
                assert(u_set@ == us0.push(u));
                if pool@.len() > 0 {
                    if us0.len() == 0 {
                        assert(u_set@[u_set@.len() - 1] == pool@[m as int]);
                        assert(u_set@.contains(pool@[m as int]));
                        assert(first_min_degree_at(self.edges@, pool@, m as int)
                            && u_set@.contains(pool@[m as int]));
                    } else {
                        let m0 = choose|m0: int|
                            #[trigger] first_min_degree_at(self.edges@, pool@, m0)
                                && us0.contains(pool@[m0]);
                        let jj = choose|jj: int| 0 <= jj < us0.len() && us0[jj] == pool@[m0];
                        assert(u_set@[jj] == pool@[m0]);
                        assert(u_set@.contains(pool@[m0]));
                    }
                }
                assert(pool@.contains(u)) by {
                    assert(v0.contains(u));
                    let k = choose|k: int| 0 <= k < v0.len() && v0[k] == u;
                }
                assert(!us0.contains(u));
                assert forall|j: int| 0 <= j < v_rem@.len() implies v1.contains(
                    #[trigger] v_rem@[j],
                ) && !self.has_edge(u, v_rem@[j]) && v_rem@[j] != u by {
                    assert(v1.take(v1.len() as int).contains(v_rem@[j]));
                }
                assert forall|j: int| 0 <= j < v_rem@.len() implies pool@.contains(
                    #[trigger] v_rem@[j],
                ) by {
                    let x = v_rem@[j];
                    assert(v1.contains(x));
                    let k = choose|k: int| 0 <= k < v1.len() && v1[k] == x;
                    assert(v0.contains(v1[k]));
                    let k2 = choose|k2: int| 0 <= k2 < v0.len() && v0[k2] == x;
                }
                assert forall|a: int, b: int|
                    0 <= a < v_rem@.len() && 0 <= b < u_set@.len() implies #[trigger] v_rem@[a]
                        != #[trigger] u_set@[b] by {
                    let x = v_rem@[a];
                    assert(v1.contains(x) && !self.has_edge(u, x) && x != u);
                    let k = choose|k: int| 0 <= k < v1.len() && v1[k] == x;
                    assert(v0.contains(x));
                    let k2 = choose|k2: int| 0 <= k2 < v0.len() && v0[k2] == x;
                    if b < us0.len() {
                        assert(u_set@[b] == us0[b]);
                        assert(v0[k2] != us0[b]);
                    } else {
                        assert(u_set@[b] == u);
                    }
                }
                assert forall|a: int, b: int|
                    0 <= a < v_rem@.len() && 0 <= b < u_set@.len() implies !self.has_edge(
                    #[trigger] v_rem@[a],
                    #[trigger] u_set@[b],
                ) by {
                    let x = v_rem@[a];
                    assert(v1.contains(x) && !self.has_edge(u, x) && x != u);
                    let k = choose|k: int| 0 <= k < v1.len() && v1[k] == x;
                    assert(v0.contains(x));
                    let k2 = choose|k2: int| 0 <= k2 < v0.len() && v0[k2] == x;
                    if b < us0.len() {
                        assert(u_set@[b] == us0[b]);
                        assert(!self.has_edge(v0[k2], us0[b]));
                    } else {
                        assert(u_set@[b] == u);
                        assert(!self.has_edge(x, u));
                    }
                }
                assert forall|a: int, b: int|
                    0 <= a < b < u_set@.len() implies !self.has_edge(
                    #[trigger] u_set@[a],
                    #[trigger] u_set@[b],
                ) by {
                    if b < us0.len() {
                        assert(u_set@[a] == us0[a] && u_set@[b] == us0[b]);
                    } else {
                        assert(u_set@[b] == u);
                        assert(u_set@[a] == us0[a]);
                        assert(v0[m as int] != us0[a]);
                        assert(!self.has_edge(v0[m as int], us0[a]));
                    }
                }
                assert forall|j: int| 0 <= j < u_set@.len() implies pool@.contains(
                    #[trigger] u_set@[j],
                ) by {
                    if j < us0.len() {
                        assert(u_set@[j] == us0[j]);
                    } else {
                        assert(u_set@[j] == u);
                    }
                }
                assert forall|x: i32|
                    #[trigger] pool@.contains(x) implies v_rem@.contains(x) || u_set@.contains(x)
                        || exists|y: i32| u_set@.contains(y) && self.has_edge(x, y) by {
                    if !v_rem@.contains(x) && !u_set@.contains(x) {
                        if v0.contains(x) {
                            if x == u {
                                assert(u_set@[u_set@.len() - 1] == u);
                                assert(u_set@.contains(u));
                                assert(false);
                            } else if self.has_edge(u, x) {
                                assert(u_set@[u_set@.len() - 1] == u);
                                assert(u_set@.contains(u) && self.has_edge(x, u));
                            } else {
                                assert(v1.contains(x));
                                assert(v1.take(v1.len() as int).contains(x));
                                assert(v_rem@.contains(x));
                                assert(false);
                            }
                        } else {
                            if us0.contains(x) {
                                let j = choose|j: int| 0 <= j < us0.len() && us0[j] == x;
                                assert(u_set@[j] == x);
                                assert(false);
                            } else {
                                let y = choose|y: i32| us0.contains(y) && self.has_edge(x, y);
                                let j = choose|j: int| 0 <= j < us0.len() && us0[j] == y;
                                assert(u_set@[j] == y);
                                assert(u_set@.contains(y));
                            }
                        }
                    }
                }
                assert(v_rem@.len() < v0.len()) by {
                    assert(new_v@.len() <= v1.len());
                }
            }
        }
        proof {
            if pool@.len() > 0 {
                assert(pool@.contains(pool@[0]));
                if u_set@.len() == 0 {
                    assert(!v_rem@.contains(pool@[0]));
                    assert(!u_set@.contains(pool@[0]));
                    let y = choose|y: i32| u_set@.contains(y) && self.has_edge(pool@[0], y);
                    assert(false);
                }
            }
        }
        u_set
    }

    /// The maximal independent set greedily drawn from all vertices.
    pub fn greedy_is(&self) -> (r: Vec<i32>)
        requires
            self.wf(),
        ensures
            r@.no_duplicates(),
            forall|j: int| 0 <= j < r@.len() ==> self.vertices@.contains(#[trigger] r@[j]),
            forall|a: int, b: int|
                0 <= a < b < r@.len() ==> !self.has_edge(#[trigger] r@[a], #[trigger] r@[b]),
            forall|x: i32|
                #[trigger] self.vertices@.contains(x) ==> r@.contains(x) || exists|y: i32|
                    r@.contains(y) && self.has_edge(x, y),
            self.vertices@.len() > 0 ==> r@.len() > 0,
            self.vertices@.len() > 0 ==> exists|m: int|
                #[trigger] first_min_degree_at(self.edges@, self.vertices@, m) && r@.contains(
                    self.vertices@[m],
                ),
    {
        self.greedy_is_on_v(&self.vertices)
    }
}


/// Some vertex of layer `t2` under the coloring `c` is adjacent to `w`.
pub open spec fn layer_dominates(g: Graph, c: Map<i32, i32>, w: i32, t2: i32) -> bool {
    exists|y: i32| c.dom().contains(y) && #[trigger] c[y] == t2 && g.has_edge(w, y)
}

impl Graph {
    /// Johnson's greedy vertex coloring: maximal independent sets are
    /// extracted in turn and each layer receives the next positive color.
    /// The result colors exactly the vertices of the graph, adjacent
    /// vertices always receive different colors, and colors start at 1.
    pub fn johnson_vcol(&self) -> (r: VertexMap<i32>)
        requires
            self.wf(),
            self.vertices@.len() < i32::MAX,
        ensures
            r.wf(),
            forall|x: i32| #[trigger] r@.dom().contains(x) <==> self.vertices@.contains(x),
            forall|a: i32, b: i32| #[trigger] self.has_edge(a, b) ==> r@[a] != r@[b],
            forall|x: i32| #[trigger] r@.dom().contains(x) ==> 1 <= r@[x],
            self.vertices@.len() == 0 ==> r@ == Map::<i32, i32>::empty(),
            forall|w: i32, t2: i32|
                r@.dom().contains(w) && 1 <= t2 < r@[w] ==> #[trigger] layer_dominates(
                    *self,
                    r@,
                    w,
                    t2,
                ),
            forall|a: i32|
                #[trigger] r@.dom().contains(a) && r@[a] > 1 ==> exists|b: i32|
                    r@.dom().contains(b) && #[trigger] r@[b] == r@[a] - 1,
            self.vertices@.len() == 2 && self.edges@.len() == 1 ==> r@[self.vertices@[0]] == 1
                && r@[self.vertices@[1]] == 2,
    {
        let mut c = VertexMap::<i32>::new();
        let mut v_rem: Vec<i32> = Vec::new();
        let mut t0: usize = 0;
        while t0 < self.vertices.len()
            invariant
                t0 <= self.vertices@.len(),
                v_rem@ =~= self.vertices@.take(t0 as int),
            decreases self.vertices@.len() - t0,
        {
            v_rem.push(self.vertices[t0]);
            t0 = t0 + 1;
        }
        proof {
            assert(v_rem@ =~= self.vertices@);
        }
        let mut t: i32 = 1;
        while v_rem.len() > 0
            invariant
                self.wf(),
                c.wf(),
                self.vertices@.len() < i32::MAX,
                v_rem@.no_duplicates(),
                forall|j: int|
                    0 <= j < v_rem@.len() ==> self.vertices@.contains(#[trigger] v_rem@[j]),
                forall|x: i32|
                    #[trigger] c@.dom().contains(x) <==> (self.vertices@.contains(x)
                        && !v_rem@.contains(x)),
                forall|x: i32| #[trigger] c@.dom().contains(x) ==> 1 <= c@[x] < t,
                forall|a: i32, b: i32|
                    c@.dom().contains(a) && c@.dom().contains(b) && #[trigger] self.has_edge(
                        a,
                        b,
                    ) ==> c@[a] != c@[b],
                1 <= t,
                t - 1 <= self.vertices@.len() - v_rem@.len(),
                forall|w: i32, t2: i32|
                    c@.dom().contains(w) && 1 <= t2 < c@[w] ==> #[trigger] layer_dominates(
                        *self,
                        c@,
                        w,
                        t2,
                    ),
                forall|w: i32, t2: i32|
                    v_rem@.contains(w) && 1 <= t2 < t ==> #[trigger] layer_dominates(
                        *self,
                        c@,
                        w,
                        t2,
                    ),
                self.vertices@.len() == 2 && self.edges@.len() == 1 && t == 1 ==> v_rem@
                    == self.vertices@,
                self.vertices@.len() == 2 && self.edges@.len() == 1 && t == 2 ==> v_rem@.len()
                    == 1 && v_rem@[0] == self.vertices@[1] && c@ == Map::<i32, i32>::empty().insert(
                    self.vertices@[0],
                    1,
                ),
                self.vertices@.len() == 2 && self.edges@.len() == 1 && t >= 3 ==> c@ == Map::<
                    i32,
                    i32,
                >::empty().insert(self.vertices@[0], 1).insert(self.vertices@[1], 2),
            decreases v_rem@.len(),
        {
            let u_set = self.greedy_is_on_v(&v_rem);
            let ghost c0 = c@;
            let ghost vr = v_rem@;
            let mut q: usize = 0;
            while q < u_set.len()
                invariant
                    self.wf(),
                    c.wf(),
                    1 <= t,
                    q <= u_set@.len(),
                    u_set@.no_duplicates(),
                    forall|j: int| 0 <= j < u_set@.len() ==> vr.contains(#[trigger] u_set@[j]),
                    forall|a: int, b: int|
                        0 <= a < b < u_set@.len() ==> !self.has_edge(
                            #[trigger] u_set@[a],
                            #[trigger] u_set@[b],
                        ),
                    forall|x: i32|
                        #[trigger] c0.dom().contains(x) <==> (self.vertices@.contains(x)
                            && !vr.contains(x)),
                    forall|x: i32| #[trigger] c0.dom().contains(x) ==> 1 <= c0[x] < t,
                    forall|a: i32, b: i32|
                        c0.dom().contains(a) && c0.dom().contains(b) && #[trigger] self.has_edge(
                            a,
                            b,
                        ) ==> c0[a] != c0[b],
                    forall|x: i32|
                        #[trigger] c@.dom().contains(x) <==> (c0.dom().contains(x)
                            || u_set@.take(q as int).contains(x)),
                    forall|x: i32| #[trigger] c0.dom().contains(x) ==> c@[x] == c0[x],
                    forall|x: i32| u_set@.take(q as int).contains(x) ==> #[trigger] c@[x] == t,
                decreases u_set@.len() - q,
            {
                let y = u_set[q];
                let ghost cq = c@;
                c.insert(y, t);
                proof {
                    assert(u_set@.take(q + 1).drop_last() =~= u_set@.take(q as int));
                    assert(u_set@.take(q + 1).last() == u_set@[q as int]);
                    assert(u_set@.take(q + 1) =~= u_set@.take(q as int).push(u_set@[q as int]));
                    assert(vr.contains(u_set@[q as int]));
                    assert(!c0.dom().contains(y));
                    assert forall|x: i32|
                        #[trigger] c@.dom().contains(x) implies (c0.dom().contains(x)
                            || u_set@.take(q + 1).contains(x)) by {
                        if x != y {
                            assert(cq.dom().contains(x));
                        } else {
                            assert(u_set@.take(q + 1).last() == y);
                        }
                    }
                    assert forall|x: i32|
                        (c0.dom().contains(x) || u_set@.take(q + 1).contains(x)) implies
                    #[trigger] c@.dom().contains(x) by {
                        if x != y {
                            assert(c0.dom().contains(x) || u_set@.take(q as int).contains(x));
                            assert(cq.dom().contains(x));
                        }
                    }
                    assert forall|x: i32| #[trigger] c0.dom().contains(x) implies c@[x]
                        == c0[x] by {
                        assert(x != y);
                    }
                    assert forall|x: i32| u_set@.take(q + 1).contains(x) implies #[trigger] c@[x]
                        == t by {
                        if x != y {
                            assert(u_set@.take(q as int).contains(x));
                            assert(cq[x] == t);
                        }
                    }
                }
                q = q + 1;
            }
            proof {
                assert(u_set@.take(u_set@.len() as int) =~= u_set@);
            }
            let ghost c1 = c@;
            let mut new_v: Vec<i32> = Vec::new();
            let mut t3: usize = 0;
            while t3 < v_rem.len()
                invariant
                    v_rem@ == vr,
                    t3 <= vr.len(),
                    new_v@.len() <= t3,
                    vr.no_duplicates(),
                    new_v@.no_duplicates(),
                    forall|j: int|
                        0 <= j < new_v@.len() ==> vr.take(t3 as int).contains(
                            #[trigger] new_v@[j],
                        ) && !u_set@.contains(new_v@[j]),
                    forall|x: i32|
                        vr.take(t3 as int).contains(x) && !u_set@.contains(x)
                            ==> new_v@.contains(x),
                decreases vr.len() - t3,
            {
                let x = v_rem[t3];
                proof {
                    assert(vr.take(t3 + 1).drop_last() =~= vr.take(t3 as int));
                    assert(vr.take(t3 + 1).last() == vr[t3 as int]);
                    assert(vr.take(t3 + 1) =~= vr.take(t3 as int).push(vr[t3 as int]));
                }
                let ghost nv0 = new_v@;
                if !seq_contains_i32(&u_set, x) {
                    proof {
                        assert(!nv0.contains(x)) by {
                            if nv0.contains(x) {
                                let j = choose|j: int| 0 <= j < nv0.len() && nv0[j] == x;
                                assert(vr.take(t3 as int).contains(x));
                                let a = choose|a: int| 0 <= a < t3 && vr.take(t3 as int)[a] == x;
                                assert(vr[a] == vr[t3 as int]);
                            }
                        }
                    }
                    new_v.push(x);
                    proof {
                        assert forall|j: int| 0 <= j < new_v@.len() implies vr.take(
                            t3 + 1,
                        ).contains(#[trigger] new_v@[j]) && !u_set@.contains(new_v@[j]) by {
                            if j < nv0.len() {
                                assert(new_v@[j] == nv0[j]);
                                let a = choose|a: int|
                                    0 <= a < t3 && vr.take(t3 as int)[a] == nv0[j];
                                assert(vr.take(t3 + 1)[a] == nv0[j]);
                            } else {
                                assert(new_v@[j] == x);
                                assert(vr.take(t3 + 1)[t3 as int] == x);
                            }
                        }
                        assert forall|x2: i32|
                            vr.take(t3 + 1).contains(x2) && !u_set@.contains(x2) implies
                        new_v@.contains(x2) by {
                            if vr.take(t3 as int).contains(x2) {
                                assert(nv0.contains(x2));
                                let j = choose|j: int| 0 <= j < nv0.len() && nv0[j] == x2;
                                assert(new_v@[j] == x2);
                            } else {
                                assert(x2 == x);
                                assert(new_v@[new_v@.len() - 1] == x);
                            }
                        }
                    }
                } else {
                    proof {
                        assert forall|x2: i32|
                            vr.take(t3 + 1).contains(x2) && !u_set@.contains(x2) implies
                        new_v@.contains(x2) by {
                            if !vr.take(t3 as int).contains(x2) {
                                assert(x2 == vr[t3 as int]);
                                assert(u_set@.contains(x2));
                            }
                        }
                    }
                }
                t3 = t3 + 1;
            }
            proof {
                assert(vr.take(vr.len() as int) =~= vr);
            }
            v_rem = new_v;
            proof {
                // strict progress: the first member of the independent set left
                assert(u_set@.len() > 0);
                let ghost y0 = u_set@[0];
                assert(u_set@.contains(y0));
                assert(vr.contains(y0));
                let idx0 = choose|idx0: int| 0 <= idx0 < vr.len() && vr[idx0] == y0;
                assert forall|j: int| 0 <= j < v_rem@.len() implies vr.remove(idx0).contains(
                    #[trigger] v_rem@[j],
                ) by {
                    let x = v_rem@[j];
                    assert(vr.take(vr.len() as int).contains(x));
                    assert(vr.contains(x) && !u_set@.contains(x));
                    let k = choose|k: int| 0 <= k < vr.len() && vr[k] == x;
                    assert(x != y0);
                    assert(k != idx0);
                    if k < idx0 {
                        assert(vr.remove(idx0)[k] == x);
                    } else {
                        assert(vr.remove(idx0)[k - 1] == x);
                    }
                }
                lemma_no_dup_subset_len(v_rem@, vr.remove(idx0));
                assert(v_rem@.len() < vr.len());
                // re-establish the outer invariants
                assert forall|j: int| 0 <= j < v_rem@.len() implies self.vertices@.contains(
                    #[trigger] v_rem@[j],
                ) by {
                    assert(vr.take(vr.len() as int).contains(v_rem@[j]));
                    assert(vr.contains(v_rem@[j]));
                    let k = choose|k: int| 0 <= k < vr.len() && vr[k] == v_rem@[j];
                }
                assert forall|x: i32| #[trigger] c@.dom().contains(x) implies (
                self.vertices@.contains(x) && !v_rem@.contains(x)) by {
                    if c0.dom().contains(x) {
                        assert(!vr.contains(x));
                        if v_rem@.contains(x) {
                            let j = choose|j: int| 0 <= j < v_rem@.len() && v_rem@[j] == x;
                            assert(vr.take(vr.len() as int).contains(x));
                            assert(false);
                        }
                    } else {
                        assert(u_set@.contains(x));
                        let j = choose|j: int| 0 <= j < u_set@.len() && u_set@[j] == x;
                        assert(vr.contains(x));
                        let k = choose|k: int| 0 <= k < vr.len() && vr[k] == x;
                        assert(self.vertices@.contains(x));
                        if v_rem@.contains(x) {
                            let j2 = choose|j2: int| 0 <= j2 < v_rem@.len() && v_rem@[j2] == x;
                            assert(!u_set@.contains(x));
                            assert(false);
                        }
                    }
                }
                assert forall|x: i32|
                    self.vertices@.contains(x) && !v_rem@.contains(x) implies
                #[trigger] c@.dom().contains(x) by {
                    if !c0.dom().contains(x) {
                        assert(vr.contains(x));
                        if !u_set@.contains(x) {
                            assert(vr.take(vr.len() as int).contains(x));
                            assert(v_rem@.contains(x));
                            assert(false);
                        }
                    }
                }
                assert forall|x: i32| #[trigger] c@.dom().contains(x) implies 1 <= c@[x] < t
                    + 1 by {
                    if c0.dom().contains(x) {
                        assert(c@[x] == c0[x]);
                    } else {
                        assert(u_set@.contains(x));
                        assert(c@[x] == t);
                    }
                }
                assert forall|a: i32, b: i32|
                    c@.dom().contains(a) && c@.dom().contains(b) && #[trigger] self.has_edge(
                        a,
                        b,
                    ) implies c@[a] != c@[b] by {
                    if c0.dom().contains(a) && c0.dom().contains(b) {
                        assert(c@[a] == c0[a] && c@[b] == c0[b]);
                    } else if c0.dom().contains(a) && !c0.dom().contains(b) {
                        assert(u_set@.contains(b));
                        assert(c@[a] == c0[a] < t && c@[b] == t);
                    } else if !c0.dom().contains(a) && c0.dom().contains(b) {
                        assert(u_set@.contains(a));
                        assert(c@[a] == t && c@[b] == c0[b] < t);
                    } else {
                        assert(u_set@.contains(a) && u_set@.contains(b));
                        let ja = choose|ja: int| 0 <= ja < u_set@.len() && u_set@[ja] == a;
                        let jb = choose|jb: int| 0 <= jb < u_set@.len() && u_set@[jb] == b;
                        assert(ja != jb);
                        if ja < jb {
                            assert(!self.has_edge(u_set@[ja], u_set@[jb]));
                        } else {
                            assert(!self.has_edge(u_set@[jb], u_set@[ja]));
                        }
                        assert(false);
                    }
                }
                // each colored vertex stays dominated by every earlier layer
                assert forall|w: i32, t2: i32|
                    c@.dom().contains(w) && 1 <= t2 < c@[w] implies #[trigger] layer_dominates(
                        *self,
                        c@,
                        w,
                        t2,
                    ) by {
                    if c0.dom().contains(w) {
                        assert(c@[w] == c0[w]);
                        assert(layer_dominates(*self, c0, w, t2));
                        let y = choose|y: i32|
                            c0.dom().contains(y) && #[trigger] c0[y] == t2 && self.has_edge(
                                w,
                                y,
                            );
                        assert(c@.dom().contains(y) && c@[y] == t2);
                    } else {
                        assert(u_set@.contains(w));
                        let j = choose|j: int| 0 <= j < u_set@.len() && u_set@[j] == w;
                        assert(vr.contains(w));
                        assert(c@[w] == t);
                        assert(t2 < t);
                        assert(layer_dominates(*self, c0, w, t2));
                        let y = choose|y: i32|
                            c0.dom().contains(y) && #[trigger] c0[y] == t2 && self.has_edge(
                                w,
                                y,
                            );
                        assert(c@.dom().contains(y) && c@[y] == t2);
                    }
                }
                // the worked two-vertex case advances exactly one layer at a time
                if self.vertices@.len() == 2 && self.edges@.len() == 1 {
                    let ghost va = self.vertices@[0];
                    let ghost vb = self.vertices@[1];
                    let ghost e = self.edges@[0];
                    assert(self.edges@.contains(e));
                    assert(e.wf());
                    assert(self.vertices@.contains(e.u) && self.vertices@.contains(e.v));
                    assert((e.u == va && e.v == vb) || (e.u == vb && e.v == va)) by {
                        let iu = choose|iu: int|
                            0 <= iu < self.vertices@.len() && self.vertices@[iu] == e.u;
                        let iv = choose|iv: int|
                            0 <= iv < self.vertices@.len() && self.vertices@[iv] == e.v;
                    }
                    assert(self.has_edge(va, vb)) by {
                        assert(crate::graph::norm_edge(va, vb) == e);
                    }
                    assert(va != vb);
                    if t == 1 {
                        assert(vr == self.vertices@);
                        // the independent set of the first round is the first vertex
                        assert(!u_set@.contains(vb) || !u_set@.contains(va)) by {
                            if u_set@.contains(va) && u_set@.contains(vb) {
                                let ja = choose|ja: int|
                                    0 <= ja < u_set@.len() && u_set@[ja] == va;
                                let jb = choose|jb: int|
                                    0 <= jb < u_set@.len() && u_set@[jb] == vb;
                                if ja < jb {
                                    assert(!self.has_edge(u_set@[ja], u_set@[jb]));
                                } else {
                                    assert(!self.has_edge(u_set@[jb], u_set@[ja]));
                                }
                            }
                        }
                        let m = choose|m: int|
                            #[trigger] first_min_degree_at(self.edges@, vr, m) && u_set@.contains(
                                vr[m],
                            );
                        assert(crate::graph::count_incident(self.edges@, va) == 1
                            && crate::graph::count_incident(self.edges@, vb) == 1) by {
                            reveal_with_fuel(crate::graph::count_incident, 3);
                            assert(self.edges@.drop_last() =~= Seq::<crate::graph::Edge>::empty());
                            assert(self.edges@.last() == e);
                        }
                        assert(m == 0) by {
                            if m == 1 {
                                assert(crate::graph::count_incident(self.edges@, vr[0])
                                    > crate::graph::count_incident(self.edges@, vr[1]));
                            }
                        }
                        assert(u_set@.contains(va));
                        assert(!u_set@.contains(vb));
                        assert forall|j: int| 0 <= j < u_set@.len() implies u_set@[j] == va by {
                            assert(vr.contains(u_set@[j]));
                            let k = choose|k: int| 0 <= k < vr.len() && vr[k] == u_set@[j];
                        }
                        assert(u_set@.len() == 1) by {
                            if u_set@.len() >= 2 {
                                assert(u_set@[0] == va && u_set@[1] == va);
                            }
                            let ja = choose|ja: int|
                                0 <= ja < u_set@.len() && u_set@[ja] == va;
                        }
                        assert(c@ == Map::<i32, i32>::empty().insert(va, 1)) by {
                            assert(u_set@.take(u_set@.len() as int) =~= u_set@);
                            assert forall|x: i32| #[trigger] c@.dom().contains(x) implies x
                                == va by {
                                if u_set@.contains(x) {
                                    let j = choose|j: int|
                                        0 <= j < u_set@.len() && u_set@[j] == x;
                                }
                            }
                            assert(c@.dom().contains(va) && c@[va] == t);
                            assert(c@ =~= Map::<i32, i32>::empty().insert(va, 1));
                        }
                        assert(v_rem@.len() == 1 && v_rem@[0] == vb) by {
                            assert(vr.take(vr.len() as int) =~= vr);
                            assert(vr.contains(vb));
                            assert(v_rem@.contains(vb));
                            assert forall|j: int| 0 <= j < v_rem@.len() implies v_rem@[j]
                                == vb by {
                                assert(vr.take(vr.len() as int).contains(v_rem@[j]));
                                assert(vr.contains(v_rem@[j]) && !u_set@.contains(v_rem@[j]));
                                let k = choose|k: int|
                                    0 <= k < vr.len() && vr[k] == v_rem@[j];
                                if v_rem@[j] == va {
                                    assert(u_set@.contains(va));
                                }
                            }
                            let jj = choose|jj: int|
                                0 <= jj < v_rem@.len() && v_rem@[jj] == vb;
                            if v_rem@.len() >= 2 {
                                assert(v_rem@[0] == vb && v_rem@[1] == vb);
                            }
                        }
                    } else if t == 2 {
                        assert(vr.len() == 1 && vr[0] == vb);
                        assert(c0 == Map::<i32, i32>::empty().insert(va, 1));
                        assert(u_set@.len() > 0);
                        assert forall|j: int| 0 <= j < u_set@.len() implies u_set@[j] == vb by {
                            assert(vr.contains(u_set@[j]));
                            let k = choose|k: int| 0 <= k < vr.len() && vr[k] == u_set@[j];
                        }
                        assert(u_set@.contains(u_set@[0]));
                        assert(c@ == Map::<i32, i32>::empty().insert(va, 1).insert(vb, 2)) by {
                            assert(u_set@.take(u_set@.len() as int) =~= u_set@);
                            assert forall|x: i32| #[trigger] c@.dom().contains(x) implies (x
                                == va || x == vb) by {
                                if u_set@.contains(x) {
                                    let j = choose|j: int|
                                        0 <= j < u_set@.len() && u_set@[j] == x;
                                }
                            }
                            assert(c0.dom().contains(va));
                            assert(c0[va] == 1);
                            assert(c@.dom().contains(va));
                            assert(c@[va] == c0[va]);
                            assert(u_set@.take(u_set@.len() as int).contains(u_set@[0]));
                            assert(c@.dom().contains(vb) && c@[vb] == 2);
                            assert(c@ =~= Map::<i32, i32>::empty().insert(va, 1).insert(vb, 2));
                        }
                    } else {
                        assert(t >= 3);
                        assert(c0.dom().contains(va) && c0.dom().contains(vb));
                        assert(u_set@.len() > 0);
                        assert(vr.contains(u_set@[0]));
                        let k = choose|k: int| 0 <= k < vr.len() && vr[k] == u_set@[0];
                        assert(self.vertices@.contains(vr[k]));
                        assert(vr[k] == va || vr[k] == vb) by {
                            let kk = choose|kk: int|
                                0 <= kk < self.vertices@.len() && self.vertices@[kk] == vr[k];
                        }
                        assert(!vr.contains(va) && !vr.contains(vb));
                        assert(false);
                    }
                }
                // each still-uncolored vertex is dominated by every layer so far
                assert forall|w: i32, t2: i32|
                    v_rem@.contains(w) && 1 <= t2 < t + 1 implies #[trigger] layer_dominates(
                        *self,
                        c@,
                        w,
                        t2,
                    ) by {
                    let j = choose|j: int| 0 <= j < v_rem@.len() && v_rem@[j] == w;
                    assert(vr.take(vr.len() as int).contains(w));
                    assert(vr.contains(w) && !u_set@.contains(w));
                    if t2 < t {
                        assert(layer_dominates(*self, c0, w, t2));
                        let y = choose|y: i32|
                            c0.dom().contains(y) && #[trigger] c0[y] == t2 && self.has_edge(
                                w,
                                y,
                            );
                        assert(c@.dom().contains(y) && c@[y] == t2);
                    } else {
                        let y = choose|y: i32| u_set@.contains(y) && self.has_edge(w, y);
                        assert(c@.dom().contains(y) && c@[y] == t);
                    }
                }
            }
            t = t + 1;
        }
        proof {
            assert forall|a: i32, b: i32| #[trigger] self.has_edge(a, b) implies c@[a]
                != c@[b] by {
                let e = crate::graph::norm_edge(a, b);
                assert(self.edges@.contains(e));
                let i = choose|i: int| 0 <= i < self.edges@.len() && self.edges@[i] == e;
                assert(self.vertices@.contains(self.edges@[i].u));
                assert(self.vertices@.contains(self.edges@[i].v));
                assert(self.vertices@.contains(a) && self.vertices@.contains(b));
                assert(c@.dom().contains(a) && c@.dom().contains(b));
            }
            if self.vertices@.len() == 0 {
                assert(c@.dom() =~= Set::<i32>::empty());
                assert(c@ =~= Map::<i32, i32>::empty());
            }
            if self.vertices@.len() == 2 && self.edges@.len() == 1 {
                assert(t >= 2);
                if t == 2 {
                    assert(v_rem@.len() == 1);
                    assert(false);
                }
            }
            assert forall|a: i32|
                #[trigger] c@.dom().contains(a) && c@[a] > 1 implies exists|b: i32|
                c@.dom().contains(b) && #[trigger] c@[b] == c@[a] - 1 by {
                assert(layer_dominates(*self, c@, a, (c@[a] - 1) as i32));
                let y = choose|y: i32|
                    c@.dom().contains(y) && #[trigger] c@[y] == (c@[a] - 1) as i32
                        && self.has_edge(a, y);
            }
        }
        c
    }
}

} // verus!
