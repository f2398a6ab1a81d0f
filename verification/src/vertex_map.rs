use vstd::prelude::*;

verus! {

broadcast use vstd::seq_lib::group_seq_properties;

/// The mathematical mapping held by a list of key/value entries: later
/// entries win, though well-formed maps keep their keys distinct.
pub open spec fn ventries_map<V>(s: Seq<(i32, V)>) -> Map<i32, V>
    decreases s.len(),
{
    if s.len() == 0 {
        Map::empty()
    } else {
        ventries_map(s.drop_last()).insert(s.last().0, s.last().1)
    }
}

/// No two entries carry the same key.
pub open spec fn vertex_keys_distinct<V>(s: Seq<(i32, V)>) -> bool {
    forall|i: int, j: int|
        0 <= i < j < s.len() ==> (#[trigger] s[i]).0 != (#[trigger] s[j]).0
}

/// A key of `ventries_map(s)` is exactly a key of some entry.
pub proof fn lemma_ventries_dom<V>(s: Seq<(i32, V)>)
    ensures
        forall|e: i32|
            ventries_map(s).dom().contains(e) <==> exists|i: int|
                0 <= i < s.len() && (#[trigger] s[i]).0 == e,
    decreases s.len(),
{
    if s.len() > 0 {
        lemma_ventries_dom(s.drop_last());
        assert forall|e: i32| ventries_map(s).dom().contains(e) implies exists|i: int|
            0 <= i < s.len() && (#[trigger] s[i]).0 == e by {
            if e == s.last().0 {
                assert(s[s.len() - 1].0 == e);
            } else {
                assert(ventries_map(s.drop_last()).dom().contains(e));
                let i = choose|i: int|
                    0 <= i < s.drop_last().len() && (#[trigger] s.drop_last()[i]).0 == e;
                assert(s[i].0 == e);
            }
        }
        assert forall|e: i32|
            exists|i: int| 0 <= i < s.len() && (#[trigger] s[i]).0 == e implies ventries_map(
            s,
        ).dom().contains(e) by {
            let i = choose|i: int| 0 <= i < s.len() && (#[trigger] s[i]).0 == e;
            if i < s.len() - 1 {
                assert(s.drop_last()[i].0 == e);
                assert(exists|j: int|
                    0 <= j < s.drop_last().len() && (#[trigger] s.drop_last()[j]).0 == e);
                assert(ventries_map(s.drop_last()).dom().contains(e));
            }
        }
    }
}

/// With distinct keys, each entry gives the value of its key.
pub proof fn lemma_ventries_get<V>(s: Seq<(i32, V)>, i: int)
    requires
        vertex_keys_distinct(s),
        0 <= i < s.len(),
    ensures
        ventries_map(s).dom().contains(s[i].0),
        ventries_map(s)[s[i].0] == s[i].1,
    decreases s.len(),
{
    if i < s.len() - 1 {
        assert(s.drop_last()[i] == s[i]);
        lemma_ventries_get(s.drop_last(), i);
        assert(s[i].0 != s.last().0);
    }
}

/// Removing the entry at `i` removes its key from the mapping.
pub proof fn lemma_ventries_remove<V>(s: Seq<(i32, V)>, i: int)
    requires
        vertex_keys_distinct(s),
        0 <= i < s.len(),
    ensures
        vertex_keys_distinct(s.remove(i)),
        ventries_map(s.remove(i)) =~= ventries_map(s).remove(s[i].0),
    decreases s.len(),
{
    assert forall|a: int, b: int| 0 <= a < b < s.remove(i).len() implies (#[trigger] s.remove(
        i,
    )[a]).0 != (#[trigger] s.remove(i)[b]).0 by {
        if b < i {
            assert(s.remove(i)[a] == s[a] && s.remove(i)[b] == s[b]);
        } else if a < i {
            assert(s.remove(i)[a] == s[a] && s.remove(i)[b] == s[b + 1]);
        } else {
            assert(s.remove(i)[a] == s[a + 1] && s.remove(i)[b] == s[b + 1]);
        }
    }
    if i == s.len() - 1 {
        assert(s.remove(i) =~= s.drop_last());
        lemma_ventries_dom(s.drop_last());
        assert(!ventries_map(s.drop_last()).dom().contains(s.last().0));
        assert(ventries_map(s.drop_last()) =~= ventries_map(s.drop_last()).insert(
            s.last().0,
            s.last().1,
        ).remove(s.last().0));
    } else {
        assert(s.remove(i).drop_last() =~= s.drop_last().remove(i));
        assert(s.remove(i).last() == s.last());
        lemma_ventries_remove(s.drop_last(), i);
        assert(s.drop_last()[i] == s[i]);
        assert(s[i].0 != s.last().0);
        assert(ventries_map(s.remove(i)) == ventries_map(s.drop_last().remove(i)).insert(
            s.last().0,
            s.last().1,
        ));
        assert(ventries_map(s.drop_last()).remove(s[i].0).insert(s.last().0, s.last().1)
            =~= ventries_map(s.drop_last()).insert(s.last().0, s.last().1).remove(s[i].0));
    }
}

/// A partial mapping from vertices to plain values, held as a list of entries
/// with pairwise distinct keys. Its view is the corresponding `Map`.
#[derive(Debug)]
pub struct VertexMap<V> {
    entries: Vec<(i32, V)>,
}

impl<V> View for VertexMap<V> {
    type V = Map<i32, V>;

    closed spec fn view(&self) -> Map<i32, V> {
        ventries_map(self.entries@)
    }
}

impl<V: Copy> VertexMap<V> {
    /// Entry keys are pairwise distinct.
    pub closed spec fn wf(self) -> bool {
        vertex_keys_distinct(self.entries@)
    }

    pub fn new() -> (r: VertexMap<V>)
        ensures
            r.wf(),
            r@ == Map::<i32, V>::empty(),
    {
        VertexMap { entries: Vec::new() }
    }

    fn index_of(&self, k: i32) -> (r: Option<usize>)
        ensures
            match r {
                Some(i) => i < self.entries@.len() && self.entries@[i as int].0 == k,
                None => forall|j: int|
                    0 <= j < self.entries@.len() ==> (#[trigger] self.entries@[j]).0 != k,
            },
    {
        let mut i: usize = 0;
        while i < self.entries.len()
            invariant
                i <= self.entries@.len(),
                forall|j: int| 0 <= j < i ==> (#[trigger] self.entries@[j]).0 != k,
            decreases self.entries@.len() - i,
        {
            if self.entries[i].0 == k {
                return Some(i);
            }
            i = i + 1;
        }
        None
    }

    /// The number of entries, which is the cardinality of the mapping.
    pub fn len(&self) -> (r: usize)
        requires
            self.wf(),
        ensures
            r == self@.dom().len(),
    {
        proof {
            let ks = self.entries@.map_values(|p: (i32, V)| p.0);
            assert(ks.no_duplicates());
            lemma_ventries_dom(self.entries@);
            assert forall|e: i32| self@.dom().contains(e) implies ks.to_set().contains(e) by {
                let i = choose|i: int|
                    0 <= i < self.entries@.len() && (#[trigger] self.entries@[i]).0 == e;
                assert(ks[i] == e);
            }
            assert(self@.dom() =~= ks.to_set());
            ks.unique_seq_to_set();
        }
        self.entries.len()
    }

    /// Look the key up.
    pub fn get(&self, k: i32) -> (r: Option<V>)
        requires
            self.wf(),
        ensures
            r == if self@.dom().contains(k) {
                Some(self@[k])
            } else {
                None::<V>
            },
    {
        proof {
            lemma_ventries_dom(self.entries@);
        }
        match self.index_of(k) {
            Some(i) => {
                proof {
                    lemma_ventries_get(self.entries@, i as int);
                }
                Some(self.entries[i].1)
            },
            None => None,
        }
    }

    /// Bind the key to the value, replacing any earlier binding.
    pub fn insert(&mut self, k: i32, v: V)
        requires
            old(self).wf(),
        ensures
            final(self).wf(),
            final(self)@ == old(self)@.insert(k, v),
    {
        let ghost s0 = self.entries@;
        match self.index_of(k) {
            Some(i) => {
                proof {
                    lemma_ventries_remove(s0, i as int);
                }
                self.entries.remove(i);
                let ghost s1 = self.entries@;
                self.entries.push((k, v));
                proof {
                    assert(self.entries@.drop_last() =~= s1);
                    lemma_ventries_dom(s1);
                    assert forall|a: int, b: int|
                        0 <= a < b < self.entries@.len() implies (#[trigger] self.entries@[a]).0
                        != (#[trigger] self.entries@[b]).0 by {
                        if b == self.entries@.len() - 1 {
                            assert(s1[a] == self.entries@[a]);
                            assert(ventries_map(s1).dom().contains(s1[a].0));
                            assert(!ventries_map(s1).dom().contains(k));
                        } else {
                            assert(s1[a] == self.entries@[a] && s1[b] == self.entries@[b]);
                        }
                    }
                    assert(ventries_map(self.entries@) =~= ventries_map(s0).insert(k, v));
                }
            },
            None => {
                self.entries.push((k, v));
                proof {
                    assert(self.entries@.drop_last() =~= s0);
                    assert forall|a: int, b: int|
                        0 <= a < b < self.entries@.len() implies (#[trigger] self.entries@[a]).0
                        != (#[trigger] self.entries@[b]).0 by {
                        if b == self.entries@.len() - 1 {
                            assert(s0[a] == self.entries@[a]);
                        } else {
                            assert(s0[a] == self.entries@[a] && s0[b] == self.entries@[b]);
                        }
                    }
                }
            },
        }
    }

    /// Drop the key's binding, if any.
    pub fn remove(&mut self, k: i32)
        requires
            old(self).wf(),
        ensures
            final(self).wf(),
            final(self)@ == old(self)@.remove(k),
    {
        let ghost s0 = self.entries@;
        match self.index_of(k) {
            Some(i) => {
                proof {
                    lemma_ventries_remove(s0, i as int);
                }
                self.entries.remove(i);
            },
            None => {
                proof {
                    lemma_ventries_dom(s0);
                    assert(ventries_map(s0) =~= ventries_map(s0).remove(k));
                }
            },
        }
    }

    /// The keys currently bound, without duplicates.
    pub fn keys(&self) -> (r: Vec<i32>)
        requires
            self.wf(),
        ensures
            r@.no_duplicates(),
            r@.len() == self@.dom().len(),
            forall|k: i32| #[trigger] r@.contains(k) <==> self@.dom().contains(k),
    {
        let mut r: Vec<i32> = Vec::new();
        let mut i: usize = 0;
        while i < self.entries.len()
            invariant
                i <= self.entries@.len(),
                r@.len() == i,
                forall|j: int| 0 <= j < i ==> r@[j] == (#[trigger] self.entries@[j]).0,
            decreases self.entries@.len() - i,
        {
            r.push(self.entries[i].0);
            i = i + 1;
        }
        proof {
            assert forall|a: int, b: int|
                0 <= a < r@.len() && 0 <= b < r@.len() && a != b implies r@[a] != r@[b] by {
                assert(r@[a] == (#[trigger] self.entries@[a]).0);
                assert(r@[b] == (#[trigger] self.entries@[b]).0);
            }
            assert(r@.no_duplicates());
            lemma_ventries_dom(self.entries@);
            assert forall|k: i32| #[trigger] r@.contains(k) implies self@.dom().contains(k) by {
                let j = choose|j: int| 0 <= j < r@.len() && r@[j] == k;
                assert(self.entries@[j].0 == k);
            }
            assert forall|k: i32| self@.dom().contains(k) implies #[trigger] r@.contains(k) by {
                let j = choose|j: int|
                    0 <= j < self.entries@.len() && (#[trigger] self.entries@[j]).0 == k;
                assert(r@[j] == k);
            }
            assert(self@.dom() =~= r@.to_set());
            r@.unique_seq_to_set();
        }
        r
    }

    /// An independent copy with the same mapping.
    pub fn duplicate(&self) -> (r: VertexMap<V>)
        requires
            self.wf(),
        ensures
            r.wf(),
            r@ == self@,
    {
        let mut es: Vec<(i32, V)> = Vec::new();
        let mut i: usize = 0;
        while i < self.entries.len()
            invariant
                i <= self.entries@.len(),
                es@ =~= self.entries@.take(i as int),
            decreases self.entries@.len() - i,
        {
            es.push(self.entries[i]);
            i = i + 1;
        }
        proof {
            assert(es@ =~= self.entries@);
        }
        VertexMap { entries: es }
    }
}

} // verus!
