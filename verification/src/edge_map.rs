use vstd::prelude::*;

use crate::graph::Edge;

verus! {

broadcast use vstd::seq_lib::group_seq_properties;

/// The mathematical mapping held by a list of key/value entries: later
/// entries win, though well-formed maps keep their keys distinct.
pub open spec fn entries_map<V>(s: Seq<(Edge, V)>) -> Map<Edge, V>
    decreases s.len(),
{
    if s.len() == 0 {
        Map::empty()
    } else {
        entries_map(s.drop_last()).insert(s.last().0, s.last().1)
    }
}

/// No two entries carry the same key.
pub open spec fn edge_keys_distinct<V>(s: Seq<(Edge, V)>) -> bool {
    forall|i: int, j: int|
        0 <= i < j < s.len() ==> (#[trigger] s[i]).0 != (#[trigger] s[j]).0
}

/// A key of `entries_map(s)` is exactly a key of some entry.
pub proof fn lemma_entries_dom<V>(s: Seq<(Edge, V)>)
    ensures
        forall|e: Edge|
            entries_map(s).dom().contains(e) <==> exists|i: int|
                0 <= i < s.len() && (#[trigger] s[i]).0 == e,
    decreases s.len(),
{
    if s.len() > 0 {
        lemma_entries_dom(s.drop_last());
        assert forall|e: Edge| entries_map(s).dom().contains(e) implies exists|i: int|
            0 <= i < s.len() && (#[trigger] s[i]).0 == e by {
            if e == s.last().0 {
                assert(s[s.len() - 1].0 == e);
            } else {
                assert(entries_map(s.drop_last()).dom().contains(e));
                let i = choose|i: int|
                    0 <= i < s.drop_last().len() && (#[trigger] s.drop_last()[i]).0 == e;
                assert(s[i].0 == e);
            }
        }
        assert forall|e: Edge|
            exists|i: int| 0 <= i < s.len() && (#[trigger] s[i]).0 == e implies entries_map(
            s,
        ).dom().contains(e) by {
            let i = choose|i: int| 0 <= i < s.len() && (#[trigger] s[i]).0 == e;
            if i < s.len() - 1 {
                assert(s.drop_last()[i].0 == e);
                assert(exists|j: int|
                    0 <= j < s.drop_last().len() && (#[trigger] s.drop_last()[j]).0 == e);
                assert(entries_map(s.drop_last()).dom().contains(e));
            }
        }
    }
}

/// With distinct keys, each entry gives the value of its key.
pub proof fn lemma_entries_get<V>(s: Seq<(Edge, V)>, i: int)
    requires
        edge_keys_distinct(s),
        0 <= i < s.len(),
    ensures
        entries_map(s).dom().contains(s[i].0),
        entries_map(s)[s[i].0] == s[i].1,
    decreases s.len(),
{
    if i < s.len() - 1 {
        assert(s.drop_last()[i] == s[i]);
        lemma_entries_get(s.drop_last(), i);
        assert(s[i].0 != s.last().0);
    }
}

/// Removing the entry at `i` removes its key from the mapping.
pub proof fn lemma_entries_remove<V>(s: Seq<(Edge, V)>, i: int)
    requires
        edge_keys_distinct(s),
        0 <= i < s.len(),
    ensures
        edge_keys_distinct(s.remove(i)),
        entries_map(s.remove(i)) =~= entries_map(s).remove(s[i].0),
    decreases s.len(),
{
    assert forall|a: int, b: int| 0 <= a < b < s.remove(i).len() implies (#[trigger] s.remove(
        i,
    )[a]).0 != (#[trigger] s.remove(i)[b]).0 by {
        if b < i {
            assert(s.remove(i)[a] == s[a] && s.remove(i)[b] == s[b]);
        } else if a < i {
            assert(s.remove(i)[a] == s[a] && s.remove(i)[b] == s[b + 1]);
        } else {
            assert(s.remove(i)[a] == s[a + 1] && s.remove(i)[b] == s[b + 1]);
        }
    }
    if i == s.len() - 1 {
        assert(s.remove(i) =~= s.drop_last());
        lemma_entries_dom(s.drop_last());
        assert(!entries_map(s.drop_last()).dom().contains(s.last().0));
        assert(entries_map(s.drop_last()) =~= entries_map(s.drop_last()).insert(
            s.last().0,
            s.last().1,
        ).remove(s.last().0));
    } else {
        assert(s.remove(i).drop_last() =~= s.drop_last().remove(i));
        assert(s.remove(i).last() == s.last());
        lemma_entries_remove(s.drop_last(), i);
        assert(s.drop_last()[i] == s[i]);
        assert(s[i].0 != s.last().0);
        assert(entries_map(s.remove(i)) == entries_map(s.drop_last().remove(i)).insert(
            s.last().0,
            s.last().1,
        ));
        assert(entries_map(s.drop_last()).remove(s[i].0).insert(s.last().0, s.last().1)
            =~= entries_map(s.drop_last()).insert(s.last().0, s.last().1).remove(s[i].0));
    }
}

/// The mapping of an entry list binds finitely many keys.
pub proof fn lemma_entries_map_finite<V>(s: Seq<(Edge, V)>)
    ensures
        entries_map(s).dom().finite(),
    decreases s.len(),
{
    if s.len() > 0 {
        lemma_entries_map_finite(s.drop_last());
    }
}

/// A partial mapping from edges to plain values, held as a list of entries
/// with pairwise distinct keys. Its view is the corresponding `Map`.
#[derive(Debug)]
pub struct EdgeMap<V> {
    entries: Vec<(Edge, V)>,
}

impl<V> View for EdgeMap<V> {
    type V = Map<Edge, V>;

    closed spec fn view(&self) -> Map<Edge, V> {
        entries_map(self.entries@)
    }
}

impl<V: Copy> EdgeMap<V> {
    /// Entry keys are pairwise distinct.
    pub closed spec fn wf(self) -> bool {
        edge_keys_distinct(self.entries@)
    }

    pub fn new() -> (r: EdgeMap<V>)
        ensures
            r.wf(),
            r@ == Map::<Edge, V>::empty(),
    {
        EdgeMap { entries: Vec::new() }
    }

    fn index_of(&self, k: Edge) -> (r: Option<usize>)
        ensures
            match r {
                Some(i) => i < self.entries@.len() && self.entries@[i as int].0 == k,
                None => forall|j: int|
                    0 <= j < self.entries@.len() ==> (#[trigger] self.entries@[j]).0 != k,
            },
    {
        let mut i: usize = 0;
        while i < self.entries.len()
            invariant
                i <= self.entries@.len(),
                forall|j: int| 0 <= j < i ==> (#[trigger] self.entries@[j]).0 != k,
            decreases self.entries@.len() - i,
        {
            if self.entries[i].0 == k {
                return Some(i);
            }
            i = i + 1;
        }
        None
    }

    /// The number of entries, which is the cardinality of the mapping.
    pub fn len(&self) -> (r: usize)
        requires
            self.wf(),
        ensures
            r == self@.dom().len(),
    {
        proof {
            let ks = self.entries@.map_values(|p: (Edge, V)| p.0);
            assert(ks.no_duplicates());
            lemma_entries_dom(self.entries@);
            assert forall|e: Edge| self@.dom().contains(e) implies ks.to_set().contains(e) by {
                let i = choose|i: int|
                    0 <= i < self.entries@.len() && (#[trigger] self.entries@[i]).0 == e;
                assert(ks[i] == e);
            }
            assert(self@.dom() =~= ks.to_set());
            ks.unique_seq_to_set();
        }
        self.entries.len()
    }

    /// Look the key up.
    pub fn get(&self, k: Edge) -> (r: Option<V>)
        requires
            self.wf(),
        ensures
            r == if self@.dom().contains(k) {
                Some(self@[k])
            } else {
                None::<V>
            },
    {
        proof {
            lemma_entries_dom(self.entries@);
        }
        match self.index_of(k) {
            Some(i) => {
                proof {
                    lemma_entries_get(self.entries@, i as int);
                }
                Some(self.entries[i].1)
            },
            None => None,
        }
    }

    /// Bind the key to the value, replacing any earlier binding.
    pub fn insert(&mut self, k: Edge, v: V)
        requires
            old(self).wf(),
        ensures
            final(self).wf(),
            final(self)@ == old(self)@.insert(k, v),
    {
        let ghost s0 = self.entries@;
        match self.index_of(k) {
            Some(i) => {
                proof {
                    lemma_entries_remove(s0, i as int);
                }
                self.entries.remove(i);
                let ghost s1 = self.entries@;
                self.entries.push((k, v));
                proof {
                    assert(self.entries@.drop_last() =~= s1);
                    lemma_entries_dom(s1);
                    assert forall|a: int, b: int|
                        0 <= a < b < self.entries@.len() implies (#[trigger] self.entries@[a]).0
                        != (#[trigger] self.entries@[b]).0 by {
                        if b == self.entries@.len() - 1 {
                            assert(s1[a] == self.entries@[a]);
                            assert(entries_map(s1).dom().contains(s1[a].0));
                            assert(!entries_map(s1).dom().contains(k));
                        } else {
                            assert(s1[a] == self.entries@[a] && s1[b] == self.entries@[b]);
                        }
                    }
                    assert(entries_map(self.entries@) =~= entries_map(s0).insert(k, v));
                }
            },
            None => {
                self.entries.push((k, v));
                proof {
                    assert(self.entries@.drop_last() =~= s0);
                    assert forall|a: int, b: int|
                        0 <= a < b < self.entries@.len() implies (#[trigger] self.entries@[a]).0
                        != (#[trigger] self.entries@[b]).0 by {
                        if b == self.entries@.len() - 1 {
                            assert(s0[a] == self.entries@[a]);
                        } else {
                            assert(s0[a] == self.entries@[a] && s0[b] == self.entries@[b]);
                        }
                    }
                }
            },
        }
    }

    /// Drop the key's binding, if any.
    pub fn remove(&mut self, k: Edge)
        requires
            old(self).wf(),
        ensures
            final(self).wf(),
            final(self)@ == old(self)@.remove(k),
    {
        let ghost s0 = self.entries@;
        match self.index_of(k) {
            Some(i) => {
                proof {
                    lemma_entries_remove(s0, i as int);
                }
                self.entries.remove(i);
            },
            None => {
                proof {
                    lemma_entries_dom(s0);
                    assert(entries_map(s0) =~= entries_map(s0).remove(k));
                }
            },
        }
    }

    /// The keys currently bound, without duplicates.
    pub fn keys(&self) -> (r: Vec<Edge>)
        requires
            self.wf(),
        ensures
            r@.no_duplicates(),
            r@.len() == self@.dom().len(),
            forall|k: Edge| #[trigger] r@.contains(k) <==> self@.dom().contains(k),
    {
        let mut r: Vec<Edge> = Vec::new();
        let mut i: usize = 0;
        while i < self.entries.len()
            invariant
                i <= self.entries@.len(),
                r@.len() == i,
                forall|j: int| 0 <= j < i ==> r@[j] == (#[trigger] self.entries@[j]).0,
            decreases self.entries@.len() - i,
        {
            r.push(self.entries[i].0);
            i = i + 1;
        }
        proof {
            assert forall|a: int, b: int|
                0 <= a < r@.len() && 0 <= b < r@.len() && a != b implies r@[a] != r@[b] by {
                assert(r@[a] == (#[trigger] self.entries@[a]).0);
                assert(r@[b] == (#[trigger] self.entries@[b]).0);
            }
            assert(r@.no_duplicates());
            lemma_entries_dom(self.entries@);
            assert forall|k: Edge| #[trigger] r@.contains(k) implies self@.dom().contains(k) by {
                let j = choose|j: int| 0 <= j < r@.len() && r@[j] == k;
                assert(self.entries@[j].0 == k);
            }
            assert forall|k: Edge| self@.dom().contains(k) implies #[trigger] r@.contains(k) by {
                let j = choose|j: int|
                    0 <= j < self.entries@.len() && (#[trigger] self.entries@[j]).0 == k;
                assert(r@[j] == k);
            }
            assert(self@.dom() =~= r@.to_set());
            r@.unique_seq_to_set();
        }
        r
    }

    /// The mapping binds finitely many keys.
    pub proof fn lemma_dom_finite(&self)
        ensures
            self@.dom().finite(),
    {
        lemma_entries_map_finite(self.entries@);
    }

    /// An independent copy with the same mapping.
    pub fn duplicate(&self) -> (r: EdgeMap<V>)
        requires
            self.wf(),
        ensures
            r.wf(),
            r@ == self@,
    {
        let mut es: Vec<(Edge, V)> = Vec::new();
        let mut i: usize = 0;
        while i < self.entries.len()
            invariant
                i <= self.entries@.len(),
                es@ =~= self.entries@.take(i as int),
            decreases self.entries@.len() - i,
        {
            es.push(self.entries[i]);
            i = i + 1;
        }
        proof {
            assert(es@ =~= self.entries@);
        }
        EdgeMap { entries: es }
    }
}

} // verus!
