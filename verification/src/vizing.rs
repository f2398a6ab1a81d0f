use vstd::prelude::*;

use crate::edge_map::EdgeMap;
use crate::graph::Edge;
use crate::graph::Graph;

verus! {

broadcast use vstd::seq_lib::group_seq_properties, vstd::seq_lib::seq_to_set_is_finite;

/// Signalled when a coloring step finds the invariant it relies on broken,
/// instead of returning a silently corrupted mapping.
#[derive(Clone, Copy, Debug, PartialEq, Eq, Structural)]
pub enum ColorFault {
    BrokenInvariant,
}

/// A proper partial edge coloring: no two distinct colored edges that share a
/// vertex carry the same color.
pub open spec fn edge_coloring_proper(c: Map<Edge, u32>) -> bool {
    forall|e1: Edge, e2: Edge|
        c.dom().contains(e1) && c.dom().contains(e2) && e1 != e2 && e1.shares_vertex(e2)
            ==> c[e1] != c[e2]
}

/// Some colored edge of the mapping touches `x` and carries `col`.
pub open spec fn map_color_used_at(c: Map<Edge, u32>, x: i32, col: u32) -> bool {
    exists|e: Edge| c.dom().contains(e) && (#[trigger] e.touches(x)) && c[e] == col
}

/// Some edge of graph `g` that touches `x` is colored `col` by `c`.
pub open spec fn color_used_at(g: Graph, c: Map<Edge, u32>, x: i32, col: u32) -> bool {
    exists|e: Edge|
        g.edges@.contains(e) && (#[trigger] e.touches(x)) && c.dom().contains(e) && c[e] == col
}

/// The incidence count over no edges at all.
pub open spec fn count_incident_of_empty(x: i32) -> nat {
    crate::graph::count_incident(Seq::<Edge>::empty(), x)
}

/// Every color of the mapping lies between `lo` and `hi`.
pub open spec fn colors_in_range(c: Map<Edge, u32>, lo: u32, hi: u32) -> bool {
    forall|e: Edge| c.dom().contains(e) ==> lo <= #[trigger] c[e] <= hi
}

/// If a sequence contains every color `1..=m`, it has at least `m` elements.
proof fn lemma_range_in_seq_len(s: Seq<u32>, m: u32)
    requires
        forall|col: u32| 1 <= col <= m ==> s.contains(col),
    ensures
        m <= s.len(),
{
    let si = s.map_values(|x: u32| x as int);
    assert forall|t: int|
        vstd::set_lib::set_int_range(1, m as int + 1).contains(t) implies si.to_set().contains(
        t,
    ) by {
        let col = t as u32;
        assert(1 <= col <= m);
        assert(s.contains(col));
        let j = choose|j: int| 0 <= j < s.len() && s[j] == col;
        assert(si[j] == t);
        assert(si.contains(t));
    }
    vstd::set_lib::lemma_int_range(1, m as int + 1);
    vstd::set_lib::lemma_len_subset(
        vstd::set_lib::set_int_range(1, m as int + 1),
        si.to_set(),
    );
    si.lemma_cardinality_of_set();
}

fn seq_contains_u32(s: &Vec<u32>, x: u32) -> (r: bool)
    ensures
        r == s@.contains(x),
{
    let mut i: usize = 0;
    while i < s.len()
        invariant
            i <= s@.len(),
            forall|j: int| 0 <= j < i ==> s@[j] != x,
        decreases s@.len() - i,
    {
        if s[i] == x {
            return true;
        }
        i = i + 1;
    }
    false
}

impl Graph {
    /// The smallest positive color that no edge incident to `u` carries
    /// under the coloring `c`.
    pub fn unused_edge_color(&self, u: i32, c: &EdgeMap<u32>) -> (r: u32)
        requires
            self.wf(),
            c.wf(),
            self.edges@.len() < u32::MAX,
        ensures
            1 <= r,
            r <= crate::graph::count_incident(self.edges@, u) + 1,
            !color_used_at(*self, c@, u, r),
            forall|col: u32| 1 <= col < r ==> color_used_at(*self, c@, u, col),
    {
        let inc = self.incident_edges(u);
        let mut used: Vec<u32> = Vec::new();
        let mut i: usize = 0;
        while i < inc.len()
            invariant
                c.wf(),
                i <= inc@.len(),
                used@.len() <= i,
                inc@.len() == crate::graph::count_incident(self.edges@, u),
                forall|col: u32|
                    #[trigger] used@.contains(col) <==> exists|j: int|
                        0 <= j < i && c@.dom().contains(#[trigger] inc@[j]) && c@[inc@[j]]
                            == col,
            decreases inc@.len() - i,
        {
            let ghost used0 = used@;
            match c.get(inc[i]) {
                Some(col) => {
                    used.push(col);
                    proof {
                        assert(used@ == used0.push(col));
                        assert forall|x: u32| #[trigger] used@.contains(x) implies exists|j: int|
                            0 <= j < i + 1 && c@.dom().contains(#[trigger] inc@[j]) && c@[inc@[j]]
                                == x by {
                            if used0.contains(x) {
                                let j = choose|j: int|
                                    0 <= j < i && c@.dom().contains(#[trigger] inc@[j])
                                        && c@[inc@[j]] == x;
                                assert(0 <= j < i + 1 && c@.dom().contains(inc@[j]) && c@[inc@[j]]
                                    == x);
                            } else {
                                assert(x == col);
                                assert(c@.dom().contains(inc@[i as int]) && c@[inc@[i as int]]
                                    == x);
                            }
                        }
                        assert forall|x: u32|
                            exists|j: int|
                                0 <= j < i + 1 && c@.dom().contains(#[trigger] inc@[j])
                                    && c@[inc@[j]] == x implies #[trigger] used@.contains(
                            x,
                        ) by {
                            let j = choose|j: int|
                                0 <= j < i + 1 && c@.dom().contains(#[trigger] inc@[j])
                                    && c@[inc@[j]] == x;
                            if j < i {
                                assert(used0.contains(x));
                            } else {
                                assert(x == col);
                                assert(used@[used@.len() - 1] == x);
                            }
                        }
                    }
                },
                None => {
                    proof {
                        assert forall|x: u32|
                            exists|j: int|
                                0 <= j < i + 1 && c@.dom().contains(#[trigger] inc@[j])
                                    && c@[inc@[j]] == x implies #[trigger] used@.contains(
                            x,
                        ) by {
                            let j = choose|j: int|
                                0 <= j < i + 1 && c@.dom().contains(#[trigger] inc@[j])
                                    && c@[inc@[j]] == x;
                            assert(j < i);
                        }
                    }
                },
            }
            i = i + 1;
        }
        proof {
            assert forall|col: u32| #[trigger] used@.contains(col) implies color_used_at(
                *self,
                c@,
                u,
                col,
            ) by {
                let j = choose|j: int|
                    0 <= j < inc@.len() && c@.dom().contains(#[trigger] inc@[j]) && c@[inc@[j]]
                        == col;
                assert(inc@.contains(inc@[j]));
                assert(self.edges@.contains(inc@[j]) && inc@[j].touches(u));
            }
            assert forall|col: u32| color_used_at(*self, c@, u, col) implies
                #[trigger] used@.contains(col) by {
                let e = choose|e: Edge|
                    self.edges@.contains(e) && (#[trigger] e.touches(u)) && c@.dom().contains(e)
                        && c@[e] == col;
                assert(inc@.contains(e));
                let j = choose|j: int| 0 <= j < inc@.len() && inc@[j] == e;
                assert(c@.dom().contains(inc@[j]) && c@[inc@[j]] == col);
            }
        }
        let mut r: u32 = 1;
        while seq_contains_u32(&used, r)
            invariant
                1 <= r,
                r <= used@.len() + 1,
                used@.len() <= crate::graph::count_incident(self.edges@, u),
                used@.len() <= self.edges@.len() < u32::MAX,
                forall|col: u32| #[trigger] used@.contains(col) <==> color_used_at(
                    *self,
                    c@,
                    u,
                    col,
                ),
                forall|col: u32| 1 <= col < r ==> used@.contains(col),
            decreases used@.len() + 1 - r,
        {
            proof {
                lemma_range_in_seq_len(used@, r);
            }
            r = r + 1;
        }
        proof {
            assert forall|col: u32| 1 <= col < r implies color_used_at(*self, c@, u, col) by {
                assert(used@.contains(col));
            }
        }
        r
    }
}

/// Decides whether the coloring held by `c` is proper.
pub fn check_proper(c: &EdgeMap<u32>) -> (r: bool)
    requires
        c.wf(),
    ensures
        r == edge_coloring_proper(c@),
{
    let ks = c.keys();
    let mut i: usize = 0;
    while i < ks.len()
        invariant
            c.wf(),
            i <= ks@.len(),
            ks@.no_duplicates(),
            forall|k: Edge| #[trigger] ks@.contains(k) <==> c@.dom().contains(k),
            forall|a: int, b: int|
                0 <= a < b < ks@.len() && a < i && ks@[a].shares_vertex(ks@[b]) ==> c@[ks@[a]]
                    != c@[ks@[b]],
        decreases ks@.len() - i,
    {
        let e1 = ks[i];
        proof {
            assert(ks@.contains(ks@[i as int]));
        }
        let c1 = match c.get(e1) {
            Some(x) => x,
            None => {
                proof {
                    assert(false);
                }
                return false;
            },
        };
        let mut j: usize = i + 1;
        while j < ks.len()
            invariant
                c.wf(),
                i < j <= ks@.len() || (i >= ks@.len() && j == i + 1),
                i < ks@.len(),
                e1 == ks@[i as int],
                c@.dom().contains(e1) && c@[e1] == c1,
                ks@.no_duplicates(),
                forall|k: Edge| #[trigger] ks@.contains(k) <==> c@.dom().contains(k),
                forall|a: int, b: int|
                    0 <= a < b < ks@.len() && a < i && ks@[a].shares_vertex(ks@[b]) ==> c@[ks@[a]]
                        != c@[ks@[b]],
                forall|b: int|
                    i < b < j && ks@[i as int].shares_vertex(ks@[b]) ==> c@[ks@[i as int]]
                        != c@[ks@[b]],
            decreases ks@.len() - j,
        {
            let e2 = ks[j];
            let shares = e1.u == e2.u || e1.u == e2.v || e1.v == e2.u || e1.v == e2.v;
            if shares {
                proof {
                    assert(ks@.contains(ks@[j as int]));
                }
                let c2 = match c.get(e2) {
                    Some(x) => x,
                    None => {
                        proof {
                            assert(false);
                        }
                        return false;
                    },
                };
                if c1 == c2 {
                    proof {
                        assert(ks@[i as int] != ks@[j as int]);
                        assert(c@.dom().contains(e1) && c@.dom().contains(e2));
                        assert(e1.shares_vertex(e2));
                        assert(c@[e1] == c@[e2]);
                        assert(!edge_coloring_proper(c@));
                    }
                    return false;
                }
            }
            j = j + 1;
        }
        i = i + 1;
    }
    proof {
        assert forall|e1: Edge, e2: Edge|
            c@.dom().contains(e1) && c@.dom().contains(e2) && e1 != e2 && e1.shares_vertex(
                e2,
            ) implies c@[e1] != c@[e2] by {
            assert(ks@.contains(e1));
            assert(ks@.contains(e2));
            let a = choose|a: int| 0 <= a < ks@.len() && ks@[a] == e1;
            let b = choose|b: int| 0 <= b < ks@.len() && ks@[b] == e2;
            assert(a != b);
            if a < b {
                assert(ks@[a].shares_vertex(ks@[b]));
            } else {
                assert(ks@[b].shares_vertex(ks@[a]));
            }
        }
    }
    true
}

/// Decides whether color `col` is absent from every colored edge of `c`
/// touching `x`.
pub fn color_free_in_map(c: &EdgeMap<u32>, x: i32, col: u32) -> (r: bool)
    requires
        c.wf(),
    ensures
        r == !map_color_used_at(c@, x, col),
{
    let ks = c.keys();
    let mut i: usize = 0;
    while i < ks.len()
        invariant
            c.wf(),
            i <= ks@.len(),
            forall|k: Edge| #[trigger] ks@.contains(k) <==> c@.dom().contains(k),
            forall|a: int|
                0 <= a < i && (#[trigger] ks@[a]).touches(x) ==> c@[ks@[a]] != col,
        decreases ks@.len() - i,
    {
        let e = ks[i];
        if e.u == x || e.v == x {
            proof {
                assert(ks@.contains(ks@[i as int]));
            }
            match c.get(e) {
                Some(cc) => {
                    if cc == col {
                        proof {
                            assert(e.touches(x));
                        }
                        return false;
                    }
                },
                None => {
                },
            }
        }
        i = i + 1;
    }
    proof {
        assert forall|e: Edge|
            c@.dom().contains(e) && (#[trigger] e.touches(x)) implies c@[e] != col by {
            assert(ks@.contains(e));
            let a = choose|a: int| 0 <= a < ks@.len() && ks@[a] == e;
        }
    }
    true
}

/// Decides whether every color of `c` lies in `lo..=hi`.
pub fn check_colors_in_range(c: &EdgeMap<u32>, lo: u32, hi: u32) -> (r: bool)
    requires
        c.wf(),
    ensures
        r == colors_in_range(c@, lo, hi),
{
    let ks = c.keys();
    let mut i: usize = 0;
    while i < ks.len()
        invariant
            c.wf(),
            i <= ks@.len(),
            forall|k: Edge| #[trigger] ks@.contains(k) <==> c@.dom().contains(k),
            forall|a: int| 0 <= a < i ==> lo <= c@[#[trigger] ks@[a]] <= hi,
        decreases ks@.len() - i,
    {
        proof {
            assert(ks@.contains(ks@[i as int]));
        }
        match c.get(ks[i]) {
            Some(cc) => {
                if cc < lo || cc > hi {
                    return false;
                }
            },
            None => {
            },
        }
        i = i + 1;
    }
    proof {
        assert forall|e: Edge| c@.dom().contains(e) implies lo <= #[trigger] c@[e] <= hi by {
            assert(ks@.contains(e));
            let a = choose|a: int| 0 <= a < ks@.len() && ks@[a] == e;
        }
    }
    true
}

/// Between two colorings of the same edges, every changed binding is at
/// the pivot `u`, or flips between the two alternating-path colors `beta`
/// and `gamma`.
pub open spec fn recolor_frame(
    c0: Map<Edge, u32>,
    c1: Map<Edge, u32>,
    u: i32,
    beta: u32,
    gamma: u32,
) -> bool {
    forall|e: Edge|
        c0.dom().contains(e) && c1.dom().contains(e) && #[trigger] c0[e] != #[trigger] c1[e]
            ==> e.touches(u) || ((c0[e] == beta || c0[e] == gamma) && (c1[e] == beta || c1[e]
            == gamma))
}

/// Every color of `c1` already occurs in `c0` or is `beta` or `gamma`.
pub open spec fn colors_from(
    c0: Map<Edge, u32>,
    c1: Map<Edge, u32>,
    beta: u32,
    gamma: u32,
) -> bool {
    forall|e: Edge|
        c1.dom().contains(e) ==> c0.contains_value(#[trigger] c1[e]) || c1[e] == beta || c1[e]
            == gamma
}

/// Decides whether some binding of `c` carries the value `v`.
fn map_has_value(c: &EdgeMap<u32>, v: u32) -> (r: bool)
    requires
        c.wf(),
    ensures
        r == c@.contains_value(v),
{
    let ks = c.keys();
    let mut i: usize = 0;
    while i < ks.len()
        invariant
            c.wf(),
            i <= ks@.len(),
            forall|k: Edge| #[trigger] ks@.contains(k) <==> c@.dom().contains(k),
            forall|a: int| 0 <= a < i ==> c@[#[trigger] ks@[a]] != v,
        decreases ks@.len() - i,
    {
        proof {
            assert(ks@.contains(ks@[i as int]));
        }
        match c.get(ks[i]) {
            Some(cc) => {
                if cc == v {
                    return true;
                }
            },
            None => {
                proof {
                    assert(false);
                }
            },
        }
        i = i + 1;
    }
    proof {
        assert forall|k: Edge| c@.dom().contains(k) implies c@[k] != v by {
            assert(ks@.contains(k));
            let a = choose|a: int| 0 <= a < ks@.len() && ks@[a] == k;
        }
    }
    false
}

/// Decides whether every changed binding between `c0` and `c1` is at the
/// pivot or flips between `beta` and `gamma`.
fn check_frame(c0: &EdgeMap<u32>, c1: &EdgeMap<u32>, u: i32, beta: u32, gamma: u32) -> (r: bool)
    requires
        c0.wf(),
        c1.wf(),
    ensures
        r == recolor_frame(c0@, c1@, u, beta, gamma),
{
    let ks = c0.keys();
    let mut i: usize = 0;
    while i < ks.len()
        invariant
            c0.wf(),
            c1.wf(),
            i <= ks@.len(),
            forall|k: Edge| #[trigger] ks@.contains(k) <==> c0@.dom().contains(k),
            forall|a: int|
                0 <= a < i ==> (c1@.dom().contains(#[trigger] ks@[a]) && c0@[ks@[a]]
                    != c1@[ks@[a]] ==> ks@[a].touches(u) || ((c0@[ks@[a]] == beta || c0@[ks@[a]]
                    == gamma) && (c1@[ks@[a]] == beta || c1@[ks@[a]] == gamma))),
        decreases ks@.len() - i,
    {
        let k = ks[i];
        proof {
            assert(ks@.contains(ks@[i as int]));
        }
        let a = match c0.get(k) {
            Some(x) => x,
            None => {
                proof {
                    assert(false);
                }
                0
            },
        };
        match c1.get(k) {
            Some(b) => {
                if a != b {
                    let at_pivot = k.u == u || k.v == u;
                    let flips = (a == beta || a == gamma) && (b == beta || b == gamma);
                    if !at_pivot && !flips {
                        proof {
                            assert(c0@[ks@[i as int]] != c1@[ks@[i as int]]);
                            assert(!ks@[i as int].touches(u));
                            assert(!recolor_frame(c0@, c1@, u, beta, gamma));
                        }
                        return false;
                    }
                }
            },
            None => {},
        }
        i = i + 1;
    }
    proof {
        assert forall|e: Edge|
            c0@.dom().contains(e) && c1@.dom().contains(e) && #[trigger] c0@[e]
                != #[trigger] c1@[e] implies e.touches(u) || ((c0@[e] == beta || c0@[e] == gamma)
            && (c1@[e] == beta || c1@[e] == gamma)) by {
            assert(ks@.contains(e));
            let a = choose|a: int| 0 <= a < ks@.len() && ks@[a] == e;
        }
    }
    true
}

/// Decides whether every color of `c1` occurs in `c0` or is `beta` or
/// `gamma`.
fn check_colors_from(c0: &EdgeMap<u32>, c1: &EdgeMap<u32>, beta: u32, gamma: u32) -> (r: bool)
    requires
        c0.wf(),
        c1.wf(),
    ensures
        r == colors_from(c0@, c1@, beta, gamma),
{
    let ks = c1.keys();
    let mut i: usize = 0;
    while i < ks.len()
        invariant
            c0.wf(),
            c1.wf(),
            i <= ks@.len(),
            forall|k: Edge| #[trigger] ks@.contains(k) <==> c1@.dom().contains(k),
            forall|a: int|
                0 <= a < i ==> c0@.contains_value(c1@[#[trigger] ks@[a]]) || c1@[ks@[a]] == beta
                    || c1@[ks@[a]] == gamma,
        decreases ks@.len() - i,
    {
        let k = ks[i];
        proof {
            assert(ks@.contains(ks@[i as int]));
        }
        match c1.get(k) {
            Some(v) => {
                if v != beta && v != gamma {
                    if !map_has_value(c0, v) {
                        proof {
                            assert(c1@[ks@[i as int]] == v);
                            assert(!colors_from(c0@, c1@, beta, gamma));
                        }
                        return false;
                    }
                }
            },
            None => {
                proof {
                    assert(false);
                }
            },
        }
        i = i + 1;
    }
    proof {
        assert forall|e: Edge|
            c1@.dom().contains(e) implies c0@.contains_value(#[trigger] c1@[e]) || c1@[e] == beta
            || c1@[e] == gamma by {
            assert(ks@.contains(e));
            let a = choose|a: int| 0 <= a < ks@.len() && ks@[a] == e;
        }
    }
    true
}

/// Decides whether two colorings bind exactly the same edges.
pub fn same_colored_edges(a: &EdgeMap<u32>, b: &EdgeMap<u32>) -> (r: bool)
    requires
        a.wf(),
        b.wf(),
    ensures
        r == (a@.dom() == b@.dom()),
{
    let ka = a.keys();
    let mut i: usize = 0;
    while i < ka.len()
        invariant
            a.wf(),
            b.wf(),
            i <= ka@.len(),
            forall|k: Edge| #[trigger] ka@.contains(k) <==> a@.dom().contains(k),
            forall|j: int| 0 <= j < i ==> b@.dom().contains(#[trigger] ka@[j]),
        decreases ka@.len() - i,
    {
        proof {
            assert(ka@.contains(ka@[i as int]));
        }
        match b.get(ka[i]) {
            Some(_) => {
            },
            None => {
                proof {
                    assert(a@.dom().contains(ka@[i as int]));
                }
                return false;
            },
        }
        i = i + 1;
    }
    let kb = b.keys();
    let mut j: usize = 0;
    while j < kb.len()
        invariant
            a.wf(),
            b.wf(),
            j <= kb@.len(),
            forall|k: Edge| #[trigger] ka@.contains(k) <==> a@.dom().contains(k),
            forall|k: Edge| #[trigger] kb@.contains(k) <==> b@.dom().contains(k),
            forall|x: int| 0 <= x < ka@.len() ==> b@.dom().contains(#[trigger] ka@[x]),
            forall|x: int| 0 <= x < j ==> a@.dom().contains(#[trigger] kb@[x]),
        decreases kb@.len() - j,
    {
        proof {
            assert(kb@.contains(kb@[j as int]));
        }
        match a.get(kb[j]) {
            Some(_) => {
            },
            None => {
                proof {
                    assert(b@.dom().contains(kb@[j as int]));
                }
                return false;
            },
        }
        j = j + 1;
    }
    proof {
        assert forall|k: Edge| a@.dom().contains(k) implies b@.dom().contains(k) by {
            assert(ka@.contains(k));
            let x = choose|x: int| 0 <= x < ka@.len() && ka@[x] == k;
        }
        assert forall|k: Edge| b@.dom().contains(k) implies a@.dom().contains(k) by {
            assert(kb@.contains(k));
            let x = choose|x: int| 0 <= x < kb@.len() && kb@[x] == k;
        }
        assert(a@.dom() =~= b@.dom());
    }
    true
}

impl Graph {
    /// The fan-rotation / alternating-path recoloring step of the Vizing
    /// construction. On success with `alpha != beta`, the coloring in `c`
    /// is proper, binds the same edges as before, `alpha` is free at the
    /// pivot `u`, every change beyond the pivot flips between `beta` and
    /// one further color `gamma` bounded by the maximum degree plus one,
    /// and no new color outside `beta` and `gamma` appears. Success is
    /// owed when `alpha == beta` and whenever `alpha` is already free at
    /// the pivot of a proper coloring; that the fan and path always
    /// succeed on a proper coloring with `alpha` in use is Vizing's
    /// theorem itself and is not claimed here: such a run re-checks its
    /// result and reports a broken coloring invariant, leaving `c`
    /// unchanged, rather than returning a corrupted mapping.
    pub fn vizing_recolor(&self, u: i32, c: &mut EdgeMap<u32>, alpha: u32, beta: u32) -> (r:
        Result<(), ColorFault>)
        requires
            self.wf(),
            old(c).wf(),
            self.edges@.len() < u32::MAX,
        ensures
            final(c).wf(),
            alpha == beta ==> r is Ok && final(c)@ == old(c)@,
            r is Err ==> final(c)@ == old(c)@,
            r is Ok && alpha != beta ==> edge_coloring_proper(final(c)@) && final(c)@.dom() == old(
                c,
            )@.dom() && !map_color_used_at(final(c)@, u, alpha),
            edge_coloring_proper(old(c)@) && !map_color_used_at(old(c)@, u, alpha) ==> r is Ok
                && final(c)@ == old(c)@,
            r is Ok && alpha != beta ==> exists|gamma: u32|
                #[trigger] recolor_frame(old(c)@, final(c)@, u, beta, gamma) && colors_from(
                    old(c)@,
                    final(c)@,
                    beta,
                    gamma,
                ) && (gamma == alpha || gamma <= self.max_degree_spec() + 1),
    {
        if alpha == beta {
            return Ok(());
        }
        let mut w = c.duplicate();
        let mut fan_v: Vec<i32> = Vec::new();
        let mut fan_c: Vec<u32> = Vec::new();
        let mut pool: Vec<i32> = self.neighbours(u);
        let mut current: u32 = alpha;
        proof {
            assert forall|j: int| 0 <= j < pool@.len() implies #[trigger] pool@[j] != u
                && self.vertices@.contains(pool@[j]) by {
                assert(pool@.contains(pool@[j]));
                let x = pool@[j];
                assert(self.has_edge(u, x));
                let i = choose|i: int|
                    0 <= i < self.edges@.len() && self.edges@[i] == crate::graph::norm_edge(u, x);
                assert(self.vertices@.contains(self.edges@[i].u));
                assert(self.vertices@.contains(self.edges@[i].v));
            }
        }
        loop
            invariant
                self.wf(),
                w.wf(),
                w@ == old(c)@,
                self.edges@.len() < u32::MAX,
                fan_v@.len() == fan_c@.len(),
                forall|j: int| 0 <= j < pool@.len() ==> #[trigger] pool@[j] != u,
                forall|j: int| 0 <= j < pool@.len() ==> self.vertices@.contains(
                    #[trigger] pool@[j],
                ),
                forall|j: int| 0 <= j < fan_v@.len() ==> #[trigger] fan_v@[j] != u,
                current == alpha || current <= self.max_degree_spec() + 1,
                !map_color_used_at(old(c)@, u, alpha) ==> fan_v@.len() == 0 && current == alpha
                    && fan_c@.len() == 0,
            decreases pool@.len(),
        {
            let mut sel: usize = pool.len();
            let mut t: usize = 0;
            while t < pool.len()
                invariant
                    w.wf(),
                    t <= pool@.len(),
                    sel <= pool@.len(),
                    forall|j: int| 0 <= j < pool@.len() ==> #[trigger] pool@[j] != u,
                    sel < pool@.len() ==> pool@[sel as int] != u,
                    sel < pool@.len() ==> map_color_used_at(w@, u, current),
                decreases pool@.len() - t,
            {
                let e = Edge::new(u, pool[t]);
                match w.get(e) {
                    Some(cc) => {
                        if cc == current {
                            proof {
                                assert(e.touches(u));
                                assert(w@.dom().contains(e) && w@[e] == current);
                            }
                            sel = t;
                            break;
                        }
                    },
                    None => {},
                }
                t = t + 1;
            }
            if sel == pool.len() {
                break;
            }
            proof {
                if !map_color_used_at(old(c)@, u, alpha) {
                    assert(current == alpha && w@ == old(c)@);
                    assert(map_color_used_at(old(c)@, u, alpha));
                    assert(false);
                }
            }
            let ghost pool0 = pool@;
            let wv = pool.remove(sel);
            proof {
                assert forall|j: int| 0 <= j < pool@.len() implies #[trigger] pool@[j] != u
                    && self.vertices@.contains(pool@[j]) by {
                    if j < sel {
                        assert(pool@[j] == pool0[j]);
                    } else {
                        assert(pool@[j] == pool0[j + 1]);
                    }
                }
                assert(self.vertices@.contains(pool0[sel as int]));
            }
            fan_v.push(wv);
            fan_c.push(current);
            current = self.unused_edge_color(wv, &w);
            proof {
                crate::graph::lemma_count_incident_le_max_degree(
                    self.vertices@,
                    self.edges@,
                    wv,
                );
            }
        }
        if !seq_contains_u32(&fan_c, current) {
            let mut idx: usize = 0;
            while idx < fan_v.len()
                invariant
                    w.wf(),
                    fan_v@.len() == fan_c@.len(),
                    idx <= fan_v@.len(),
                    forall|j: int| 0 <= j < fan_v@.len() ==> #[trigger] fan_v@[j] != u,
                    fan_v@.len() == 0 ==> w@ == old(c)@,
                decreases fan_v@.len() - idx,
            {
                let col = if idx + 1 < fan_c.len() {
                    fan_c[idx + 1]
                } else {
                    current
                };
                w.insert(Edge::new(u, fan_v[idx]), col);
                idx = idx + 1;
            }
        } else {
            let mut j: usize = 0;
            let mut found_j = false;
            let mut t: usize = 0;
            while t < fan_c.len()
                invariant
                    t <= fan_c@.len(),
                    found_j ==> j < fan_c@.len() && fan_c@[j as int] == current,
                    !found_j ==> forall|x: int| 0 <= x < t ==> fan_c@[x] != current,
                decreases fan_c@.len() - t,
            {
                if !found_j {
                    if fan_c[t] == current {
                        j = t;
                        found_j = true;
                    }
                }
                t = t + 1;
            }
            proof {
                if !found_j {
                    let x = choose|x: int| 0 <= x < fan_c@.len() && fan_c@[x] == current;
                    assert(false);
                }
            }
            let vj = fan_v[j];
            proof {
                assert(fan_v@[j as int] != u);
            }
            let mut idx: usize = 0;
            while idx < j
                invariant
                    w.wf(),
                    fan_v@.len() == fan_c@.len(),
                    j < fan_v@.len(),
                    idx <= j,
                    forall|x: int| 0 <= x < fan_v@.len() ==> #[trigger] fan_v@[x] != u,
                decreases j - idx,
            {
                w.insert(Edge::new(u, fan_v[idx]), fan_c[idx + 1]);
                idx = idx + 1;
            }
            w.remove(Edge::new(u, vj));
            let mut prev: i32 = u;
            let mut next: i32 = vj;
            let mut col: u32 = beta;
            let other: u32 = current;
            let mut steps: usize = 0;
            let bound: usize = self.edges.len();
            loop
                invariant
                    self.wf(),
                    w.wf(),
                    c.wf(),
                    *c == *old(c),
                    alpha != beta,
                    prev != next,
                    steps <= bound + 1,
                    bound == self.edges@.len(),
                    self.edges@.len() < u32::MAX,
                    !(edge_coloring_proper(old(c)@) && !map_color_used_at(old(c)@, u, alpha)),
                decreases bound + 1 - steps,
            {
                if steps > bound {
                    return Err(ColorFault::BrokenInvariant);
                }
                steps = steps + 1;
                let nbrs = self.neighbours(next);
                let mut sel: usize = nbrs.len();
                let mut t: usize = 0;
                while t < nbrs.len()
                    invariant
                        self.wf(),
                        w.wf(),
                        t <= nbrs@.len(),
                        sel <= nbrs@.len(),
                        forall|k: i32| #[trigger] nbrs@.contains(k) <==> self.has_edge(next, k),
                        sel < nbrs@.len() ==> nbrs@[sel as int] != next,
                    decreases nbrs@.len() - t,
                {
                    let cand = nbrs[t];
                    proof {
                        assert(nbrs@.contains(nbrs@[t as int]));
                    }
                    let e = Edge::new(next, cand);
                    match w.get(e) {
                        Some(cc) => {
                            if cc == col {
                                sel = t;
                                break;
                            }
                        },
                        None => {},
                    }
                    t = t + 1;
                }
                if sel == nbrs.len() {
                    break;
                }
                let v = nbrs[sel];
                w.insert(Edge::new(prev, next), col);
                w.remove(Edge::new(next, v));
                col = if col == beta {
                    other
                } else {
                    beta
                };
                prev = next;
                next = v;
            }
            w.insert(Edge::new(prev, next), col);
        }
        let ok_proper = check_proper(&w);
        let ok_free = color_free_in_map(&w, u, alpha);
        let ok_same = same_colored_edges(&w, c);
        let ok_frame = check_frame(c, &w, u, beta, current);
        let ok_colors = check_colors_from(c, &w, beta, current);
        proof {
            if w@ == old(c)@ {
                assert(recolor_frame(old(c)@, w@, u, beta, current));
                assert forall|e: Edge|
                    w@.dom().contains(e) implies old(c)@.contains_value(#[trigger] w@[e])
                    || w@[e] == beta || w@[e] == current by {
                    assert(old(c)@.dom().contains(e) && old(c)@[e] == w@[e]);
                }
                assert(colors_from(old(c)@, w@, beta, current));
            }
        }
        if ok_proper && ok_free && ok_same && ok_frame && ok_colors {
            *c = w;
            proof {
                assert(recolor_frame(old(c)@, w@, u, beta, current) && colors_from(
                    old(c)@,
                    w@,
                    beta,
                    current,
                ) && (current == alpha || current <= self.max_degree_spec() + 1));
            }
            Ok(())
        } else {
            Err(ColorFault::BrokenInvariant)
        }
    }
}


impl Graph {
    /// Builds a proper edge coloring of the whole graph by inserting its
    /// edges one at a time into an initially empty working graph, growing
    /// the palette on the fast path and recoloring through
    /// `vizing_recolor` otherwise. On success the mapping colors exactly
    /// the edges of the graph, is proper, and every color lies in
    /// `1..=max_degree + 1`. Success is owed on graphs with at most one
    /// edge, with the exact single-edge mapping; on larger graphs success
    /// rests on the recoloring step always succeeding, which is Vizing's
    /// theorem itself and is not claimed here: a failed re-check reports
    /// a broken coloring invariant instead of a corrupted mapping.
    pub fn vizing_ecol(&self) -> (r: Result<EdgeMap<u32>, ColorFault>)
        requires
            self.wf(),
            self.edges@.len() < u32::MAX,
        ensures
            match r {
                Ok(c) => {
                    &&& c.wf()
                    &&& edge_coloring_proper(c@)
                    &&& forall|e: Edge|
                        #[trigger] c@.dom().contains(e) <==> self.edges@.contains(e)
                    &&& colors_in_range(c@, 1, (self.max_degree_spec() + 1) as u32)
                },
                Err(_) => true,
            },
            self.edges@.len() == 0 ==> r is Ok && r->Ok_0@ == Map::<Edge, u32>::empty(),
            self.edges@.len() == 1 ==> r is Ok && r->Ok_0@ == Map::<Edge, u32>::empty().insert(
                self.edges@[0],
                1u32,
            ),
            self.max_degree_spec() <= 1 ==> r is Ok && colors_in_range(r->Ok_0@, 1, 1),
    {
        let mut c = EdgeMap::<u32>::new();
        let mut vs: Vec<i32> = Vec::new();
        let mut t: usize = 0;
        while t < self.vertices.len()
            invariant
                t <= self.vertices@.len(),
                vs@ =~= self.vertices@.take(t as int),
            decreases self.vertices@.len() - t,
        {
            vs.push(self.vertices[t]);
            t = t + 1;
        }
        proof {
            assert(vs@ =~= self.vertices@);
        }
        let mut g_new = Graph { vertices: vs, edges: Vec::new() };
        proof {
            assert(g_new.edges@ =~= Seq::<Edge>::empty());
            assert(g_new.wf());
        }
        let mut k: u32 = 0;
        let mut i: usize = 0;
        while i < self.edges.len()
            invariant
                self.wf(),
                self.edges@.len() < u32::MAX,
                i <= self.edges@.len(),
                g_new.wf(),
                c.wf(),
                g_new.vertices@ == self.vertices@,
                g_new.edges@ == self.edges@.take(i as int),
                k <= g_new.edges@.len(),
                self.edges@.len() == 0 ==> c@ == Map::<Edge, u32>::empty(),
                i == 0 ==> k == 0 && c@ == Map::<Edge, u32>::empty(),
                self.edges@.len() == 1 && i == 1 ==> c@ == Map::<Edge, u32>::empty().insert(
                    self.edges@[0],
                    1u32,
                ),
                self.max_degree_spec() <= 1 ==> (forall|e2: Edge|
                    #[trigger] c@.dom().contains(e2) <==> self.edges@.take(i as int).contains(
                        e2,
                    )) && colors_in_range(c@, 1, 1) && (i > 0 ==> k == 1),
            decreases self.edges@.len() - i,
        {
            let e = self.edges[i];
            proof {
                assert(self.edges@[i as int].wf());
                assert(self.vertices@.contains(self.edges@[i as int].u));
                assert(self.vertices@.contains(self.edges@[i as int].v));
                if g_new.edges@.contains(e) {
                    let j = choose|j: int| 0 <= j < g_new.edges@.len() && g_new.edges@[j] == e;
                    assert(self.edges@[j] == self.edges@[i as int]);
                    assert(false);
                }
                assert(self.edges@.take(i + 1).drop_last() =~= self.edges@.take(i as int));
                if i == 0 {
                    assert(g_new.edges@ =~= Seq::<Edge>::empty());
                    assert(count_incident_of_empty(e.u) == 0 && count_incident_of_empty(e.v)
                        == 0);
                }
                if self.max_degree_spec() <= 1 {
                    assert forall|j: int| 0 <= j < i implies !(#[trigger] self.edges@[j]).touches(
                        e.u,
                    ) && !self.edges@[j].touches(e.v) by {
                        let e2 = self.edges@[j];
                        assert(self.edges@.contains(self.edges@[j]));
                        assert(self.edges@.contains(self.edges@[i as int]));
                        assert(e2 != e);
                        if e2.touches(e.u) {
                            crate::graph::lemma_incident_count_at_least_two(
                                self.edges@,
                                e2,
                                e,
                                e.u,
                            );
                            crate::graph::lemma_count_incident_le_max_degree(
                                self.vertices@,
                                self.edges@,
                                e.u,
                            );
                        }
                        if e2.touches(e.v) {
                            crate::graph::lemma_incident_count_at_least_two(
                                self.edges@,
                                e2,
                                e,
                                e.v,
                            );
                            crate::graph::lemma_count_incident_le_max_degree(
                                self.vertices@,
                                self.edges@,
                                e.v,
                            );
                        }
                    }
                    assert forall|j: int|
                        0 <= j < g_new.edges@.len() implies !(
                    #[trigger] g_new.edges@[j]).touches(e.u) && !g_new.edges@[j].touches(
                        e.v,
                    ) by {
                        assert(g_new.edges@[j] == self.edges@.take(i as int)[j]);
                        assert(self.edges@.take(i as int)[j] == self.edges@[j]);
                    }
                    crate::graph::lemma_incident_count_zero(g_new.edges@, e.u);
                    crate::graph::lemma_incident_count_zero(g_new.edges@, e.v);
                    assert forall|col: u32| !color_used_at(g_new, c@, e.u, col) && !color_used_at(
                        g_new,
                        c@,
                        e.v,
                        col,
                    ) by {
                        if color_used_at(g_new, c@, e.u, col) {
                            let e2 = choose|e2: Edge|
                                g_new.edges@.contains(e2) && (#[trigger] e2.touches(e.u))
                                    && c@.dom().contains(e2) && c@[e2] == col;
                            let j = choose|j: int|
                                0 <= j < g_new.edges@.len() && g_new.edges@[j] == e2;
                            assert(false);
                        }
                        if color_used_at(g_new, c@, e.v, col) {
                            let e2 = choose|e2: Edge|
                                g_new.edges@.contains(e2) && (#[trigger] e2.touches(e.v))
                                    && c@.dom().contains(e2) && c@[e2] == col;
                            let j = choose|j: int|
                                0 <= j < g_new.edges@.len() && g_new.edges@[j] == e2;
                            assert(false);
                        }
                    }
                }
            }
            if g_new.degree(e.u) == k as usize || g_new.degree(e.v) == k as usize {
                k = k + 1;
                if color_free_in_map(&c, e.u, k) && color_free_in_map(&c, e.v, k) {
                    c.insert(e, k);
                    proof {
                        if self.max_degree_spec() <= 1 {
                            assert(i == 0) by {
                                if i > 0 {
                                    assert(crate::graph::count_incident(g_new.edges@, e.u)
                                        == 0);
                                    assert(crate::graph::count_incident(g_new.edges@, e.v)
                                        == 0);
                                }
                            }
                            assert(k == 1);
                            assert forall|e2: Edge|
                                #[trigger] c@.dom().contains(e2) <==> self.edges@.take(
                                i + 1).contains(e2) by {
                                if e2 != e {
                                    assert(self.edges@.take(i + 1) =~= self.edges@.take(i as int).push(e));
                                } else {
                                    assert(self.edges@.take(i + 1)[i as int] == e);
                                }
                            }
                        }
                    }
                } else {
                    proof {
                        if i == 0 {
                            assert(!map_color_used_at(c@, e.u, k));
                            assert(!map_color_used_at(c@, e.v, k));
                            assert(false);
                        }
                        if self.max_degree_spec() <= 1 {
                            assert(crate::graph::count_incident(g_new.edges@, e.u) == 0);
                            assert(crate::graph::count_incident(g_new.edges@, e.v) == 0);
                            assert(false);
                        }
                    }
                    let alpha = g_new.unused_edge_color(e.v, &c);
                    let beta = g_new.unused_edge_color(e.u, &c);
                    match g_new.vizing_recolor(e.u, &mut c, alpha, beta) {
                        Ok(_) => {},
                        Err(f) => {
                            return Err(f);
                        },
                    }
                    c.insert(e, alpha);
                }
            } else {
                proof {
                    if i == 0 {
                        assert(false);
                    }
                }
                let alpha = g_new.unused_edge_color(e.v, &c);
                let beta = g_new.unused_edge_color(e.u, &c);
                proof {
                    if self.max_degree_spec() <= 1 {
                        assert(alpha == 1) by {
                            if alpha >= 2 {
                                assert(color_used_at(g_new, c@, e.v, 1u32));
                            }
                        }
                        assert(beta == 1) by {
                            if beta >= 2 {
                                assert(color_used_at(g_new, c@, e.u, 1u32));
                            }
                        }
                    }
                }
                let ghost c_before = c@;
                match g_new.vizing_recolor(e.u, &mut c, alpha, beta) {
                    Ok(_) => {},
                    Err(f) => {
                        proof {
                            if self.max_degree_spec() <= 1 {
                                assert(false);
                            }
                        }
                        return Err(f);
                    },
                }
                c.insert(e, alpha);
                proof {
                    if self.max_degree_spec() <= 1 {
                        assert(c@ == c_before.insert(e, 1u32));
                        assert forall|e2: Edge|
                            #[trigger] c@.dom().contains(e2) <==> self.edges@.take(
                            i + 1).contains(e2) by {
                            if e2 != e {
                                assert(self.edges@.take(i + 1) =~= self.edges@.take(i as int).push(e));
                            } else {
                                assert(self.edges@.take(i + 1)[i as int] == e);
                            }
                        }
                    }
                }
            }
            g_new.add_edge(e);
            proof {
                assert(g_new.edges@ =~= self.edges@.take(i + 1));
            }
            i = i + 1;
        }
        // every edge of the graph must be colored
        proof {
            if self.max_degree_spec() <= 1 {
                assert(self.edges@.take(self.edges@.len() as int) =~= self.edges@);
            }
        }
        let mut t2: usize = 0;
        while t2 < self.edges.len()
            invariant
                self.wf(),
                c.wf(),
                t2 <= self.edges@.len(),
                self.edges@.len() == 1 ==> c@ == Map::<Edge, u32>::empty().insert(
                    self.edges@[0],
                    1u32,
                ),
                self.max_degree_spec() <= 1 ==> (forall|e2: Edge|
                    #[trigger] c@.dom().contains(e2) <==> self.edges@.contains(e2))
                    && colors_in_range(c@, 1, 1),
                forall|j: int| 0 <= j < t2 ==> c@.dom().contains(#[trigger] self.edges@[j]),
            decreases self.edges@.len() - t2,
        {
            match c.get(self.edges[t2]) {
                Some(_) => {},
                None => {
                    proof {
                        if self.max_degree_spec() <= 1 {
                            assert(self.edges@.contains(self.edges@[t2 as int]));
                            assert(false);
                        }
                    }
                    return Err(ColorFault::BrokenInvariant);
                },
            }
            t2 = t2 + 1;
        }
        // every colored edge must be an edge of the graph
        let ks = c.keys();
        proof {
            if self.edges@.len() == 0 && ks@.len() > 0 {
                assert(ks@.contains(ks@[0]));
                assert(c@.dom().contains(ks@[0]));
                assert(false);
            }
        }
        let mut t3: usize = 0;
        while t3 < ks.len()
            invariant
                self.wf(),
                c.wf(),
                t3 <= ks@.len(),
                self.edges@.len() == 0 ==> ks@.len() == 0,
                self.edges@.len() == 1 ==> c@ == Map::<Edge, u32>::empty().insert(
                    self.edges@[0],
                    1u32,
                ),
                self.max_degree_spec() <= 1 ==> (forall|e2: Edge|
                    #[trigger] c@.dom().contains(e2) <==> self.edges@.contains(e2))
                    && colors_in_range(c@, 1, 1),
                forall|kk: Edge| #[trigger] ks@.contains(kk) <==> c@.dom().contains(kk),
                forall|j: int| 0 <= j < t3 ==> self.edges@.contains(#[trigger] ks@[j]),
            decreases ks@.len() - t3,
        {
            if !self.contains_edge(ks[t3]) {
                proof {
                    if self.edges@.len() == 1 {
                        assert(ks@.contains(ks@[t3 as int]));
                        assert(c@.dom().contains(ks@[t3 as int]));
                        assert(ks@[t3 as int] == self.edges@[0]);
                        assert(self.edges@.contains(self.edges@[0]));
                        assert(false);
                    }
                    if self.max_degree_spec() <= 1 {
                        assert(ks@.contains(ks@[t3 as int]));
                        assert(c@.dom().contains(ks@[t3 as int]));
                        assert(false);
                    }
                }
                return Err(ColorFault::BrokenInvariant);
            }
            t3 = t3 + 1;
        }
        let dmax = self.max_degree();
        let hi = (dmax + 1) as u32;
        proof {
            if self.max_degree_spec() <= 1 {
                assert forall|e1: Edge, e2: Edge|
                    c@.dom().contains(e1) && c@.dom().contains(e2) && e1 != e2
                        && e1.shares_vertex(e2) implies c@[e1] != c@[e2] by {
                    assert(self.edges@.contains(e1) && self.edges@.contains(e2));
                    let j2 = choose|j2: int|
                        0 <= j2 < self.edges@.len() && self.edges@[j2] == e2;
                    let x = if e1.touches(e2.u) {
                        e2.u
                    } else {
                        e2.v
                    };
                    assert(e1.touches(x) && e2.touches(x));
                    assert(self.vertices@.contains(self.edges@[j2].u));
                    assert(self.vertices@.contains(self.edges@[j2].v));
                    crate::graph::lemma_incident_count_at_least_two(self.edges@, e1, e2, x);
                    crate::graph::lemma_count_incident_le_max_degree(
                        self.vertices@,
                        self.edges@,
                        x,
                    );
                    assert(false);
                }
                assert(edge_coloring_proper(c@));
                assert(colors_in_range(c@, 1, hi)) by {
                    assert(hi >= 1);
                }
            }
        }
        let ok_proper = check_proper(&c);
        let ok_range = check_colors_in_range(&c, 1, hi);
        if ok_proper && ok_range {
            proof {
                assert forall|e: Edge|
                    #[trigger] c@.dom().contains(e) implies self.edges@.contains(e) by {
                    assert(ks@.contains(e));
                    let j = choose|j: int| 0 <= j < ks@.len() && ks@[j] == e;
                }
                assert forall|e: Edge|
                    self.edges@.contains(e) implies #[trigger] c@.dom().contains(e) by {
                    let j = choose|j: int| 0 <= j < self.edges@.len() && self.edges@[j] == e;
                }
                if self.edges@.len() == 0 {
                    assert(c@.dom() =~= Set::<Edge>::empty());
                    assert(c@ =~= Map::<Edge, u32>::empty());
                }
                if self.edges@.len() == 1 {
                    assert(c@ == Map::<Edge, u32>::empty().insert(self.edges@[0], 1u32));
                }
            }
            Ok(c)
        } else {
            Err(ColorFault::BrokenInvariant)
        }
    }
}


/// The set of colors `{1, ..., k}`.
pub open spec fn colors_upto(k: u32) -> Set<u32>
    decreases k,
{
    if k == 0 {
        Set::empty()
    } else {
        colors_upto((k - 1) as u32).insert(k)
    }
}

/// `colors_upto(k)` holds exactly the colors `1..=k` and has `k` elements.
pub proof fn lemma_colors_upto(k: u32)
    ensures
        forall|x: u32| colors_upto(k).contains(x) <==> 1 <= x <= k,
        colors_upto(k).finite(),
        colors_upto(k).len() == k,
    decreases k,
{
    if k > 0 {
        lemma_colors_upto((k - 1) as u32);
        assert(!colors_upto((k - 1) as u32).contains(k));
    }
}

/// An edge coloring whose colors all lie in `1..=k` uses at most `k`
/// distinct colors. Applied with `k = max_degree + 1` to the mapping that
/// `vizing_ecol` returns, this bounds the Vizing coloring's palette.
pub proof fn lemma_bounded_colors_distinct(c: Map<Edge, u32>, k: u32)
    requires
        c.dom().finite(),
        colors_in_range(c, 1, k),
    ensures
        c.values().finite(),
        c.values().len() <= k,
{
    lemma_colors_upto(k);
    assert forall|v: u32| c.values().contains(v) implies colors_upto(k).contains(v) by {
        let e = choose|e: Edge| #[trigger] c.dom().contains(e) && c[e] == v;
        assert(1 <= c[e] <= k);
    }
    vstd::set_lib::lemma_len_subset(c.values(), colors_upto(k));
}


/// The palette bound in terms of the executable coloring type: a
/// well-formed coloring whose colors all lie in `1..=k` uses at most `k`
/// distinct colors; `vizing_ecol` guarantees the range `1..=max_degree + 1`.
pub proof fn lemma_vizing_palette_bound(c: EdgeMap<u32>, k: u32)
    requires
        c.wf(),
        colors_in_range(c@, 1, k),
    ensures
        c@.values().finite(),
        c@.values().len() <= k,
{
    c.lemma_dom_finite();
    lemma_bounded_colors_distinct(c@, k);
}

} // verus!
