use vstd::prelude::*;
use crate::text::str_eq;

verus! {

/// Whether no name occurs twice in an association list.
pub open spec fn names_unique<V>(e: Seq<(String, V)>) -> bool {
    forall|i: int, j: int| 0 <= i < j < e.len() ==> (#[trigger] e[i]).0@ != (#[trigger] e[j]).0@
}

/// The map that an association list denotes.
pub open spec fn pairs_view<V>(e: Seq<(String, V)>) -> Map<Seq<char>, V>
    decreases e.len(),
{
    if e.len() == 0 {
        Map::empty()
    } else {
        pairs_view(e.drop_last()).insert(e.last().0@, e.last().1)
    }
}

proof fn lemma_unique_prefix<V>(e: Seq<(String, V)>)
    requires
        names_unique(e),
        e.len() > 0,
    ensures
        names_unique(e.drop_last()),
        forall|j: int| 0 <= j < e.len() - 1 ==> (#[trigger] e.drop_last()[j]).0@ != e.last().0@,
{
    let p = e.drop_last();
    assert forall|a: int, b: int| 0 <= a < b < p.len() implies (#[trigger] p[a]).0@ != (#[trigger] p[b]).0@ by {
        assert(p[a] == e[a] && p[b] == e[b]);
    }
    assert forall|j: int| 0 <= j < e.len() - 1 implies (#[trigger] p[j]).0@ != e.last().0@ by {
        assert(p[j] == e[j]);
    }
}

/// In an association list without repeated names, the map holds exactly its names.
pub proof fn lemma_pairs_view_lookup<V>(e: Seq<(String, V)>)
    requires
        names_unique(e),
    ensures
        forall|k: Seq<char>| #[trigger] pairs_view(e).contains_key(k) <==> exists|i: int| 0 <= i < e.len() && (#[trigger] e[i]).0@ == k,
        forall|i: int| 0 <= i < e.len() ==> #[trigger] pairs_view(e)[e[i].0@] == e[i].1,
        pairs_view(e).len() == e.len(),
        pairs_view(e).dom().finite(),
    decreases e.len(),
{
    if e.len() > 0 {
        let p = e.drop_last();
        lemma_unique_prefix(e);
        lemma_pairs_view_lookup(p);
        assert forall|k: Seq<char>| #[trigger] pairs_view(e).contains_key(k) <==> exists|i: int| 0 <= i < e.len() && (#[trigger] e[i]).0@ == k by {
            if pairs_view(e).contains_key(k) && k != e.last().0@ {
                let i = choose|i: int| 0 <= i < p.len() && (#[trigger] p[i]).0@ == k;
                assert(e[i] == p[i]);
            }
            if exists|i: int| 0 <= i < e.len() && (#[trigger] e[i]).0@ == k {
                let i = choose|i: int| 0 <= i < e.len() && (#[trigger] e[i]).0@ == k;
                if i < e.len() - 1 {
                    assert(p[i] == e[i]);
                }
            }
        }
        assert forall|i: int| 0 <= i < e.len() implies #[trigger] pairs_view(e)[e[i].0@] == e[i].1 by {
            if i < e.len() - 1 {
                assert(p[i] == e[i]);
            }
        }
        assert(!pairs_view(p).contains_key(e.last().0@));
    } else {
        assert(pairs_view(e) =~= Map::<Seq<char>, V>::empty());
    }
}

proof fn lemma_pairs_view_update<V>(e: Seq<(String, V)>, i: int, k: String, v: V)
    requires
        names_unique(e),
        0 <= i < e.len(),
        k@ == e[i].0@,
    ensures
        pairs_view(e.update(i, (k, v))) == pairs_view(e).insert(k@, v),
        names_unique(e.update(i, (k, v))),
    decreases e.len(),
{
    let e2 = e.update(i, (k, v));
    let p = e.drop_last();
    lemma_unique_prefix(e);
    assert(names_unique(e2)) by {
        assert forall|a: int, b: int| 0 <= a < b < e2.len() implies (#[trigger] e2[a]).0@ != (#[trigger] e2[b]).0@ by {
            assert(e2[a].0@ == e[a].0@ && e2[b].0@ == e[b].0@);
        }
    }
    if i == e.len() - 1 {
        assert(e2.drop_last() =~= p);
        assert(pairs_view(e2) =~= pairs_view(e).insert(k@, v));
    } else {
        assert(e2.drop_last() =~= p.update(i, (k, v)));
        lemma_pairs_view_update(p, i, k, v);
        assert(e[i].0@ != e[e.len() - 1].0@);
        assert(pairs_view(e2) =~= pairs_view(e).insert(k@, v));
    }
}

proof fn lemma_pairs_view_remove<V>(e: Seq<(String, V)>, i: int)
    requires
        names_unique(e),
        0 <= i < e.len(),
    ensures
        pairs_view(e.remove(i)) == pairs_view(e).remove(e[i].0@),
        names_unique(e.remove(i)),
    decreases e.len(),
{
    let e2 = e.remove(i);
    let p = e.drop_last();
    lemma_unique_prefix(e);
    assert(names_unique(e2)) by {
        assert forall|a: int, b: int| 0 <= a < b < e2.len() implies (#[trigger] e2[a]).0@ != (#[trigger] e2[b]).0@ by {
            let a0 = if a < i { a } else { a + 1 };
            let b0 = if b < i { b } else { b + 1 };
            assert(e2[a] == e[a0] && e2[b] == e[b0]);
        }
    }
    lemma_pairs_view_lookup(p);
    if i == e.len() - 1 {
        assert(e2 =~= p);
        assert(!pairs_view(p).contains_key(e[i].0@));
        assert(pairs_view(e2) =~= pairs_view(e).remove(e[i].0@));
    } else {
        assert(e2.drop_last() =~= p.remove(i));
        assert(e2.last() == e.last());
        lemma_pairs_view_remove(p, i);
        assert(p[i] == e[i]);
        assert(e[i].0@ != e[e.len() - 1].0@);
        assert(pairs_view(e2) =~= pairs_view(e).remove(e[i].0@));
    }
}

/// A map from names to values, no name twice, in the order the names were first bound.
pub struct NameMap<V> {
    entries: Vec<(String, V)>,
}

impl<V> NameMap<V> {
    pub closed spec fn view(&self) -> Map<Seq<char>, V> {
        pairs_view(self.entries@)
    }

    #[verifier::type_invariant]
    closed spec fn names_distinct(self) -> bool {
        names_unique(self.entries@)
    }

    /// The bound names, in the order they were first bound.
    pub closed spec fn names(&self) -> Seq<Seq<char>> {
        Seq::new(self.entries@.len(), |i: int| self.entries@[i].0@)
    }

    /// An empty map.
    pub fn new() -> (r: NameMap<V>)
        ensures
            r.view() == Map::<Seq<char>, V>::empty(),
    {
        NameMap { entries: Vec::new() }
    }

    fn position(&self, key: &str) -> (r: Option<usize>)
        ensures
            match r {
                Some(i) => i < self.entries.len() && self.entries@[i as int].0@ == key@,
                None => forall|i: int| 0 <= i < self.entries.len() ==> (#[trigger] self.entries@[i]).0@ != key@,
            },
    {
        let mut i: usize = 0;
        while i < self.entries.len()
            invariant
                i <= self.entries.len(),
                forall|j: int| 0 <= j < i ==> (#[trigger] self.entries@[j]).0@ != key@,
            decreases self.entries.len() - i,
        {
            if str_eq(self.entries[i].0.as_str(), key) {
                return Some(i);
            }
            i += 1;
        }
        None
    }

    /// Whether `key` is bound.
    pub fn contains_key(&self, key: &str) -> (r: bool)
        ensures
            r == self.view().contains_key(key@),
    {
        proof {
            use_type_invariant(self);
            lemma_pairs_view_lookup(self.entries@);
        }
        self.position(key).is_some()
    }

    /// The value bound to `key`, if any.
    pub fn get(&self, key: &str) -> (r: Option<&V>)
        ensures
            self.view().contains_key(key@) <==> r is Some,
            r matches Some(v) ==> *v == self.view()[key@],
    {
        proof {
            use_type_invariant(self);
            lemma_pairs_view_lookup(self.entries@);
        }
        match self.position(key) {
            Some(i) => Some(&self.entries[i].1),
            None => None,
        }
    }

    /// Binds `key` to `value`, replacing any earlier binding.
    pub fn insert(&mut self, key: String, value: V)
        ensures
            final(self).view() == old(self).view().insert(key@, value),
    {
        proof {
            use_type_invariant(&*self);
            lemma_pairs_view_lookup(self.entries@);
        }
        match self.position(key.as_str()) {
            Some(i) => {
                proof {
                    lemma_pairs_view_update(self.entries@, i as int, key, value);
                }
                let mut e: Vec<(String, V)> = Vec::new();
                std::mem::swap(&mut e, &mut self.entries);
                e.set(i, (key, value));
                self.entries = e;
            },
            None => {
                let ghost old_e = self.entries@;
                let mut e: Vec<(String, V)> = Vec::new();
                std::mem::swap(&mut e, &mut self.entries);
                e.push((key, value));
                assert(e@.drop_last() =~= old_e);
                assert(names_unique(e@)) by {
                    assert forall|a: int, b: int| 0 <= a < b < e@.len() implies (#[trigger] e@[a]).0@ != (#[trigger] e@[b]).0@ by {
                        if b < old_e.len() {
                            assert(e@[a] == old_e[a] && e@[b] == old_e[b]);
                        } else {
                            assert(e@[a] == old_e[a]);
                        }
                    }
                }
                self.entries = e;
            },
        }
    }

    /// Unbinds `key`, giving back its value, if it was bound.
    pub fn remove(&mut self, key: &str) -> (r: Option<V>)
        ensures
            old(self).view().contains_key(key@) <==> r is Some,
            r matches Some(v) ==> v == old(self).view()[key@],
            final(self).view() == old(self).view().remove(key@),
    {
        proof {
            use_type_invariant(&*self);
            lemma_pairs_view_lookup(self.entries@);
        }
        match self.position(key) {
            Some(i) => {
                proof {
                    lemma_pairs_view_remove(self.entries@, i as int);
                }
                let mut e: Vec<(String, V)> = Vec::new();
                std::mem::swap(&mut e, &mut self.entries);
                let (_, v) = e.remove(i);
                self.entries = e;
                Some(v)
            },
            None => {
                assert(old(self).view().remove(key@) =~= old(self).view());
                None
            },
        }
    }

    /// How many names are bound. The names in the order they were first bound are the
    /// bound names, each once.
    pub fn len(&self) -> (r: usize)
        ensures
            r == self.view().len(),
            r == self.names().len(),
            self.names().no_duplicates(),
            forall|k: Seq<char>| self.view().contains_key(k) <==> #[trigger] self.names().contains(k),
    {
        proof {
            use_type_invariant(self);
            lemma_pairs_view_lookup(self.entries@);
            let n = self.names();
            assert forall|a: int, b: int| 0 <= a < n.len() && 0 <= b < n.len() && a != b implies n[a] != n[b] by {
                if a < b {
                    assert(self.entries@[a].0@ != self.entries@[b].0@);
                } else {
                    assert(self.entries@[b].0@ != self.entries@[a].0@);
                }
            }
            assert forall|k: Seq<char>| self.view().contains_key(k) <==> #[trigger] n.contains(k) by {
                if self.view().contains_key(k) {
                    let i = choose|i: int| 0 <= i < self.entries@.len() && (#[trigger] self.entries@[i]).0@ == k;
                    assert(n[i] == k);
                }
                if n.contains(k) {
                    let i = choose|i: int| 0 <= i < n.len() && n[i] == k;
                    assert(self.entries@[i].0@ == k);
                }
            }
        }
        self.entries.len()
    }

    /// The name and value of the `i`-th binding, in the order the names were first bound.
    pub fn entry(&self, i: usize) -> (r: (&String, &V))
        requires
            i < self.view().len(),
        ensures
            self.view().contains_key(r.0@),
            self.view()[r.0@] == *r.1,
            r.0@ == self.names()[i as int],
    {
        proof {
            use_type_invariant(self);
            lemma_pairs_view_lookup(self.entries@);
        }
        (&self.entries[i].0, &self.entries[i].1)
    }
}

} // verus!
