use vstd::prelude::*;

verus! {

broadcast use vstd::seq_lib::group_seq_properties;

/// An undirected edge: an unordered pair of distinct vertex identifiers,
/// stored normalized with the smaller endpoint first.
#[derive(Clone, Copy, Debug, Hash, PartialEq, Eq, Structural)]
pub struct Edge {
    pub u: i32,
    pub v: i32,
}

/// `s` with `x` appended if absent.
pub open spec fn push_if_absent(s: Seq<i32>, x: i32) -> Seq<i32> {
    if s.contains(x) {
        s
    } else {
        s.push(x)
    }
}

/// The normalized form of the pair `{a, b}`.
pub open spec fn norm_edge(a: i32, b: i32) -> Edge {
    if a <= b {
        Edge { u: a, v: b }
    } else {
        Edge { u: b, v: a }
    }
}

impl Edge {
    /// A well-formed edge joins two distinct vertices, smaller first.
    pub open spec fn wf(self) -> bool {
        self.u < self.v
    }

    /// Does this edge touch vertex `x`?
    pub open spec fn touches(self, x: i32) -> bool {
        self.u == x || self.v == x
    }

    /// Do two edges share at least one endpoint?
    pub open spec fn shares_vertex(self, other: Edge) -> bool {
        self.touches(other.u) || self.touches(other.v)
    }

    pub fn new(u: i32, v: i32) -> (r: Edge)
        requires
            u != v,
        ensures
            r == norm_edge(u, v),
            r.wf(),
            r.touches(u) && r.touches(v),
    {
        if u <= v {
            Edge { u, v }
        } else {
            Edge { u: v, v: u }
        }
    }
}

/// How many edges of `es` touch vertex `x`.
pub open spec fn count_incident(es: Seq<Edge>, x: i32) -> nat
    decreases es.len(),
{
    if es.len() == 0 {
        0
    } else {
        count_incident(es.drop_last(), x) + if es.last().touches(x) {
            1nat
        } else {
            0nat
        }
    }
}

/// The largest degree among the vertices of `vs` with respect to the edges `es`.
pub open spec fn max_degree_over(vs: Seq<i32>, es: Seq<Edge>) -> nat
    decreases vs.len(),
{
    if vs.len() == 0 {
        0
    } else {
        let d = count_incident(es, vs.last());
        let rest = max_degree_over(vs.drop_last(), es);
        if d >= rest {
            d
        } else {
            rest
        }
    }
}

/// A finite undirected simple graph: vertices in insertion order without
/// duplicates, and normalized edges without duplicates, every endpoint listed
/// among the vertices.
#[derive(Clone, Debug)]
pub struct Graph {
    pub vertices: Vec<i32>,
    pub edges: Vec<Edge>,
}

impl Graph {
    pub open spec fn wf(self) -> bool {
        &&& self.vertices@.no_duplicates()
        &&& self.edges@.no_duplicates()
        &&& forall|i: int|
            0 <= i < self.edges@.len() ==> (#[trigger] self.edges@[i]).wf()
        &&& forall|i: int|
            0 <= i < self.edges@.len() ==> self.vertices@.contains(
                (#[trigger] self.edges@[i]).u,
            ) && self.vertices@.contains(self.edges@[i].v)
    }

    /// The edge `{a, b}` is present in the graph.
    pub open spec fn has_edge(self, a: i32, b: i32) -> bool {
        a != b && self.edges@.contains(norm_edge(a, b))
    }

    pub open spec fn max_degree_spec(self) -> nat {
        max_degree_over(self.vertices@, self.edges@)
    }

    pub fn new() -> (r: Graph)
        ensures
            r.vertices@ == Seq::<i32>::empty(),
            r.edges@ == Seq::<Edge>::empty(),
            r.wf(),
    {
        let r = Graph { vertices: Vec::new(), edges: Vec::new() };
        proof {
            assert(r.vertices@ =~= Seq::<i32>::empty());
            assert(r.edges@ =~= Seq::<Edge>::empty());
        }
        r
    }

    pub fn contains_vertex(&self, x: i32) -> (r: bool)
        ensures
            r == self.vertices@.contains(x),
    {
        let mut i: usize = 0;
        while i < self.vertices.len()
            invariant
                i <= self.vertices@.len(),
                forall|j: int| 0 <= j < i ==> self.vertices@[j] != x,
            decreases self.vertices@.len() - i,
        {
            if self.vertices[i] == x {
                return true;
            }
            i = i + 1;
        }
        false
    }

    pub fn contains_edge(&self, e: Edge) -> (r: bool)
        ensures
            r == self.edges@.contains(e),
    {
        let mut i: usize = 0;
        while i < self.edges.len()
            invariant
                i <= self.edges@.len(),
                forall|j: int| 0 <= j < i ==> self.edges@[j] != e,
            decreases self.edges@.len() - i,
        {
            if self.edges[i] == e {
                return true;
            }
            i = i + 1;
        }
        false
    }

    /// Inserts the vertex if it is absent; idempotent.
    pub fn add_vertex(&mut self, v: i32)
        ensures
            final(self).edges@ == old(self).edges@,
            old(self).vertices@.contains(v) ==> final(self).vertices@ == old(self).vertices@,
            !old(self).vertices@.contains(v) ==> final(self).vertices@ == old(
                self,
            ).vertices@.push(v),
            final(self).vertices@.contains(v),
            old(self).wf() ==> final(self).wf(),
    {
        if !self.contains_vertex(v) {
            self.vertices.push(v);
        }
    }

    /// Inserts the edge if no equal edge is present, adding both endpoints
    /// as vertices; idempotent.
    pub fn add_edge(&mut self, edge: Edge)
        requires
            edge.wf(),
        ensures
            old(self).edges@.contains(edge) ==> final(self).vertices@ == old(self).vertices@
                && final(self).edges@ == old(self).edges@,
            !old(self).edges@.contains(edge) ==> final(self).edges@ == old(self).edges@.push(
                edge,
            ) && final(self).vertices@ == push_if_absent(
                push_if_absent(old(self).vertices@, edge.u),
                edge.v,
            ),
            final(self).edges@.contains(edge),
            old(self).wf() || !old(self).edges@.contains(edge)
                ==> final(self).vertices@.contains(edge.u)
                && final(self).vertices@.contains(edge.v),
            forall|e: Edge|
                #[trigger] final(self).edges@.contains(e) <==> (old(self).edges@.contains(e) || e
                    == edge),
            forall|x: i32|
                #[trigger] final(self).vertices@.contains(x) <==> (old(self).vertices@.contains(x)
                    || (!old(self).edges@.contains(edge) && edge.touches(x))),
            old(self).wf() ==> final(self).wf(),
    {
        if !self.contains_edge(edge) {
            self.add_vertex(edge.u);
            self.add_vertex(edge.v);
            self.edges.push(edge);
        }
    }

    /// The number of edges incident to `u`.
    pub fn degree(&self, u: i32) -> (r: usize)
        ensures
            r == count_incident(self.edges@, u),
    {
        let mut i: usize = 0;
        let mut n: usize = 0;
        while i < self.edges.len()
            invariant
                i <= self.edges@.len(),
                n == count_incident(self.edges@.take(i as int), u),
                n <= i,
            decreases self.edges@.len() - i,
        {
            let e = self.edges[i];
            proof {
                assert(self.edges@.take(i + 1).drop_last() =~= self.edges@.take(i as int));
                assert(self.edges@.take(i + 1).last() == self.edges@[i as int]);
            }
            if e.u == u || e.v == u {
                n = n + 1;
            }
            i = i + 1;
        }
        proof {
            assert(self.edges@.take(self.edges@.len() as int) =~= self.edges@);
        }
        n
    }

    /// The set of vertices adjacent to `u`, without duplicates.
    pub fn neighbours(&self, u: i32) -> (r: Vec<i32>)
        requires
            self.wf(),
        ensures
            r@.no_duplicates(),
            forall|w: i32| #[trigger] r@.contains(w) <==> self.has_edge(u, w),
    {
        let mut r: Vec<i32> = Vec::new();
        let mut i: usize = 0;
        while i < self.edges.len()
            invariant
                self.wf(),
                i <= self.edges@.len(),
                r@.no_duplicates(),
                forall|w: i32|
                    #[trigger] r@.contains(w) <==> (w != u && self.edges@.take(
                        i as int,
                    ).contains(norm_edge(u, w))),
            decreases self.edges@.len() - i,
        {
            let e = self.edges[i];
            proof {
                assert(self.edges@.take(i + 1).drop_last() =~= self.edges@.take(i as int));
                assert(self.edges@.take(i + 1).last() == self.edges@[i as int]);
                assert(self.edges@[i as int].wf());
            }
            if e.u == u || e.v == u {
                let w = if e.u == u {
                    e.v
                } else {
                    e.u
                };
                proof {
                    assert(norm_edge(u, w) == e);
                }
                let mut found = false;
                let mut j: usize = 0;
                while j < r.len()
                    invariant
                        j <= r@.len(),
                        found <==> exists|k: int| 0 <= k < j && r@[k] == w,
                    decreases r@.len() - j,
                {
                    if r[j] == w {
                        found = true;
                    }
                    j = j + 1;
                }
                if !found {
                    r.push(w);
                }
                proof {
                    assert forall|x: i32| #[trigger] r@.contains(x) implies (x != u
                        && self.edges@.take(i + 1).contains(norm_edge(u, x))) by {
                        if x != w {
                            let j2 = choose|j2: int| 0 <= j2 < r@.len() && r@[j2] == x;
                            assert(self.edges@.take(i as int).contains(norm_edge(u, x)));
                        }
                    }
                    assert forall|x: i32|
                        x != u && self.edges@.take(i + 1).contains(norm_edge(u, x)) implies
                    #[trigger] r@.contains(x) by {
                        if norm_edge(u, x) != e {
                            assert(self.edges@.take(i as int).contains(norm_edge(u, x)));
                        } else {
                            assert(x == w);
                        }
                    }
                }
            } else {
                proof {
                    assert forall|x: i32|
                        x != u && self.edges@.take(i + 1).contains(norm_edge(u, x)) implies
                    #[trigger] r@.contains(x) by {
                        assert(norm_edge(u, x).touches(u));
                        assert(self.edges@.take(i as int).contains(norm_edge(u, x)));
                    }
                }
            }
            i = i + 1;
        }
        proof {
            assert(self.edges@.take(self.edges@.len() as int) =~= self.edges@);
        }
        r
    }

    /// The edges touching `u`, without duplicates.
    pub fn incident_edges(&self, u: i32) -> (r: Vec<Edge>)
        requires
            self.wf(),
        ensures
            r@.no_duplicates(),
            r@.len() <= self.edges@.len(),
            r@.len() == count_incident(self.edges@, u),
            forall|e: Edge|
                #[trigger] r@.contains(e) <==> (self.edges@.contains(e) && e.touches(u)),
    {
        let mut r: Vec<Edge> = Vec::new();
        let mut i: usize = 0;
        while i < self.edges.len()
            invariant
                self.wf(),
                i <= self.edges@.len(),
                r@.no_duplicates(),
                r@.len() <= i,
                r@.len() == count_incident(self.edges@.take(i as int), u),
                forall|e: Edge|
                    #[trigger] r@.contains(e) <==> (self.edges@.take(i as int).contains(e)
                        && e.touches(u)),
            decreases self.edges@.len() - i,
        {
            let e = self.edges[i];
            proof {
                assert(self.edges@.take(i + 1).drop_last() =~= self.edges@.take(i as int));
                assert(self.edges@.take(i + 1).last() == self.edges@[i as int]);
            }
            if e.u == u || e.v == u {
                proof {
                    if r@.contains(e) {
                        assert(self.edges@.take(i as int).contains(e));
                        let k = choose|k: int|
                            0 <= k < i && self.edges@.take(i as int)[k] == e;
                        assert(self.edges@[k] == e);
                        assert(self.edges@[i as int] == e);
                        assert(false);
                    }
                }
                r.push(e);
            }
            i = i + 1;
        }
        proof {
            assert(self.edges@.take(self.edges@.len() as int) =~= self.edges@);
        }
        r
    }

    /// True iff the edge `{u, v}` is present.
    pub fn is_connected(&self, u: i32, v: i32) -> (r: bool)
        ensures
            r == self.has_edge(u, v),
    {
        if u == v {
            return false;
        }
        self.contains_edge(Edge::new(u, v))
    }

    /// True iff the given vertices are pairwise connected.
    pub fn is_clique(&self, vert: &Vec<i32>) -> (r: bool)
        ensures
            r <==> forall|i: int, j: int|
                0 <= i < j < vert@.len() ==> self.has_edge(vert@[i], vert@[j]),
    {
        let mut i: usize = 0;
        while i < vert.len()
            invariant
                i <= vert@.len(),
                forall|a: int, b: int|
                    0 <= a < b < vert@.len() && a < i ==> self.has_edge(vert@[a], vert@[b]),
            decreases vert@.len() - i,
        {
            let mut j: usize = i + 1;
            while j < vert.len()
                invariant
                    i < j <= vert@.len() || (i >= vert@.len() && j == i + 1),
                    i < vert@.len(),
                    forall|a: int, b: int|
                        0 <= a < b < vert@.len() && a < i ==> self.has_edge(vert@[a], vert@[b]),
                    forall|b: int| i < b < j ==> self.has_edge(vert@[i as int], vert@[b]),
                decreases vert@.len() - j,
            {
                if !self.is_connected(vert[i], vert[j]) {
                    return false;
                }
                j = j + 1;
            }
            i = i + 1;
        }
        true
    }

    /// The maximum vertex degree of the graph.
    pub fn max_degree(&self) -> (r: usize)
        ensures
            r == self.max_degree_spec(),
            r <= self.edges@.len(),
    {
        let mut i: usize = 0;
        let mut m: usize = 0;
        while i < self.vertices.len()
            invariant
                i <= self.vertices@.len(),
                m == max_degree_over(self.vertices@.take(i as int), self.edges@),
                m <= self.edges@.len(),
            decreases self.vertices@.len() - i,
        {
            proof {
                assert(self.vertices@.take(i + 1).drop_last() =~= self.vertices@.take(i as int));
                assert(self.vertices@.take(i + 1).last() == self.vertices@[i as int]);
                lemma_count_incident_le_len(self.edges@, self.vertices@[i as int]);
            }
            let d = self.degree(self.vertices[i]);
            if d > m {
                m = d;
            }
            i = i + 1;
        }
        proof {
            assert(self.vertices@.take(self.vertices@.len() as int) =~= self.vertices@);
        }
        m
    }
}

/// The two orders of a vertex pair name the same edge.
pub broadcast proof fn lemma_has_edge_symm(g: Graph, a: i32, b: i32)
    ensures
        #[trigger] g.has_edge(a, b) == g.has_edge(b, a),
{
    assert(norm_edge(a, b) == norm_edge(b, a));
}

/// A listed vertex's incidence count is at most the maximum degree.
pub proof fn lemma_count_incident_le_max_degree(vs: Seq<i32>, es: Seq<Edge>, x: i32)
    requires
        vs.contains(x),
    ensures
        count_incident(es, x) <= max_degree_over(vs, es),
    decreases vs.len(),
{
    if vs.len() > 0 {
        if vs.last() != x {
            assert(vs.drop_last().contains(x)) by {
                let j = choose|j: int| 0 <= j < vs.len() && vs[j] == x;
                assert(vs.drop_last()[j] == x);
            }
            lemma_count_incident_le_max_degree(vs.drop_last(), es, x);
        }
    }
}

/// An incident edge makes the incidence count positive.
pub proof fn lemma_incident_count_at_least_one(es: Seq<Edge>, e: Edge, x: i32)
    requires
        es.contains(e),
        e.touches(x),
    ensures
        count_incident(es, x) >= 1,
    decreases es.len(),
{
    if es.last() != e {
        let j = choose|j: int| 0 <= j < es.len() && es[j] == e;
        assert(es.drop_last()[j] == e);
        assert(es.drop_last().contains(e));
        lemma_incident_count_at_least_one(es.drop_last(), e, x);
    }
}

/// Two distinct incident edges make the incidence count at least two.
pub proof fn lemma_incident_count_at_least_two(es: Seq<Edge>, e1: Edge, e2: Edge, x: i32)
    requires
        es.contains(e1),
        es.contains(e2),
        e1 != e2,
        e1.touches(x),
        e2.touches(x),
    ensures
        count_incident(es, x) >= 2,
    decreases es.len(),
{
    if es.last() == e1 {
        let j = choose|j: int| 0 <= j < es.len() && es[j] == e2;
        assert(j < es.len() - 1);
        assert(es.drop_last()[j] == e2);
        assert(es.drop_last().contains(e2));
        lemma_incident_count_at_least_one(es.drop_last(), e2, x);
    } else if es.last() == e2 {
        let j = choose|j: int| 0 <= j < es.len() && es[j] == e1;
        assert(j < es.len() - 1);
        assert(es.drop_last()[j] == e1);
        assert(es.drop_last().contains(e1));
        lemma_incident_count_at_least_one(es.drop_last(), e1, x);
    } else {
        let j1 = choose|j1: int| 0 <= j1 < es.len() && es[j1] == e1;
        let j2 = choose|j2: int| 0 <= j2 < es.len() && es[j2] == e2;
        assert(es.drop_last()[j1] == e1 && es.drop_last()[j2] == e2);
        assert(es.drop_last().contains(e1) && es.drop_last().contains(e2));
        lemma_incident_count_at_least_two(es.drop_last(), e1, e2, x);
    }
}

/// A vertex touched by no edge of the sequence has incidence count zero.
pub proof fn lemma_incident_count_zero(es: Seq<Edge>, x: i32)
    requires
        forall|j: int| 0 <= j < es.len() ==> !(#[trigger] es[j]).touches(x),
    ensures
        count_incident(es, x) == 0,
    decreases es.len(),
{
    if es.len() > 0 {
        lemma_incident_count_zero(es.drop_last(), x);
    }
}

/// A duplicate-free sequence drawn from another sequence is no longer than it.
pub proof fn lemma_no_dup_subset_len<A>(a: Seq<A>, b: Seq<A>)
    requires
        a.no_duplicates(),
        forall|i: int| 0 <= i < a.len() ==> b.contains(#[trigger] a[i]),
    ensures
        a.len() <= b.len(),
{
    broadcast use vstd::seq_lib::seq_to_set_is_finite;

    a.unique_seq_to_set();
    b.lemma_cardinality_of_set();
    assert forall|x: A| a.to_set().contains(x) implies b.to_set().contains(x) by {
        let i = choose|i: int| 0 <= i < a.len() && a[i] == x;
    }
    vstd::set_lib::lemma_len_subset(a.to_set(), b.to_set());
}

/// An incidence count never exceeds the number of edges.
pub proof fn lemma_count_incident_le_len(es: Seq<Edge>, x: i32)
    ensures
        count_incident(es, x) <= es.len(),
    decreases es.len(),
{
    if es.len() > 0 {
        lemma_count_incident_le_len(es.drop_last(), x);
    }
}

} // verus!
