//! A map keyed by names, kept as a list of entries with distinct names.
use vstd::prelude::*;
use crate::text::owned;

verus! {

/// The map described by a list of entries with distinct names.
pub open spec fn entries_map<V>(es: Seq<(String, V)>) -> Map<Seq<char>, V>
    decreases es.len(),
{
    if es.len() == 0 {
        Map::empty()
    } else {
        entries_map(es.drop_last()).insert(es.last().0@, es.last().1)
    }
}

/// No name occurs twice.
pub open spec fn names_unique<V>(es: Seq<(String, V)>) -> bool {
    forall|i: int, j: int| 0 <= i < j < es.len() ==> (#[trigger] es[i]).0@ != (#[trigger] es[j]).0@
}

/// `entries_map` at a name, by position.
pub proof fn lemma_entries_map<V>(es: Seq<(String, V)>, k: Seq<char>)
    requires
        names_unique(es),
    ensures
        entries_map(es).contains_key(k) <==> exists|i: int| 0 <= i < es.len() && es[i].0@ == k,
        forall|i: int| 0 <= i < es.len() && es[i].0@ == k ==> entries_map(es)[k] == es[i].1,
    decreases es.len(),
{
    if es.len() > 0 {
        let p = es.drop_last();
        assert(names_unique(p));
        lemma_entries_map(p, k);
        if es.last().0@ == k {
            assert forall|i: int| 0 <= i < es.len() && es[i].0@ == k implies entries_map(es)[k] == es[i].1 by {
                if i < es.len() - 1 {
                    assert(es[i].0@ != es[es.len() - 1].0@);
                }
            }
        } else {
            assert forall|i: int| 0 <= i < es.len() && es[i].0@ == k implies entries_map(es)[k] == es[i].1 by {
                assert(p[i] == es[i]);
            }
            if exists|i: int| 0 <= i < es.len() && es[i].0@ == k {
                let i = choose|i: int| 0 <= i < es.len() && es[i].0@ == k;
                assert(p[i] == es[i]);
            }
        }
    }
}

/// A finite map from names to values.
#[derive(Debug)]
pub struct NameMap<V> {
    entries: Vec<(String, V)>,
}

impl<V> View for NameMap<V> {
    type V = Map<Seq<char>, V>;

    closed spec fn view(&self) -> Map<Seq<char>, V> {
        entries_map(self.entries@)
    }
}

impl<V> NameMap<V> {
    #[verifier::type_invariant]
    closed spec fn inv(&self) -> bool {
        names_unique(self.entries@)
    }

    /// An empty map.
    pub fn new() -> (r: NameMap<V>)
        ensures
            r@ == Map::<Seq<char>, V>::empty(),
    {
        NameMap { entries: Vec::new() }
    }

    /// The position of `name`, if present.
    fn position(&self, name: &str) -> (r: Option<usize>)
        ensures
            r matches Some(i) ==> i < self.entries@.len() && self.entries@[i as int].0@ == name@
                && self@.contains_key(name@) && self@[name@] == self.entries@[i as int].1,
            r is None ==> !self@.contains_key(name@),
    {
        proof {
            use_type_invariant(self);
            lemma_entries_map(self.entries@, name@);
        }
        let key = owned(name);
        let mut i: usize = 0;
        while i < self.entries.len()
            invariant
                i <= self.entries@.len(),
                key@ == name@,
                forall|j: int| 0 <= j < i ==> self.entries@[j].0@ != name@,
            decreases self.entries@.len() - i,
        {
            if self.entries[i].0 == key {
                proof {
                    use_type_invariant(self);
                    lemma_entries_map(self.entries@, name@);
                }
                return Some(i);
            }
            i = i + 1;
        }
        None
    }

    /// Whether `name` has a value.
    pub fn contains_key(&self, name: &str) -> (r: bool)
        ensures
            r == self@.contains_key(name@),
    {
        self.position(name).is_some()
    }

    /// The value of `name`, if any.
    pub fn get(&self, name: &str) -> (r: Option<&V>)
        ensures
            r matches Some(v) ==> self@.contains_key(name@) && self@[name@] == *v,
            r is None ==> !self@.contains_key(name@),
    {
        match self.position(name) {
            Some(i) => Some(&self.entries[i].1),
            None => None,
        }
    }

    /// Sets the value of `name`, replacing any previous value.
    pub fn insert(&mut self, name: String, value: V)
        ensures
            final(self)@ == old(self)@.insert(name@, value),
    {
        proof { use_type_invariant(&*self); }
        match self.position(name.as_str()) {
            Some(i) => {
                let ghost es = self.entries@;
                let mut es2: Vec<(String, V)> = Vec::new();
                std::mem::swap(&mut es2, &mut self.entries);
                es2.set(i, (name, value));
                proof {
                    assert(names_unique(es2@)) by {
                        assert forall|a: int, b: int| 0 <= a < b < es2@.len() implies (#[trigger] es2@[a]).0@ != (#[trigger] es2@[b]).0@ by {
                            assert(es[a].0@ != es[b].0@);
                        }
                    }
                    lemma_entries_map(es2@, name@);
                    lemma_entries_map(es, name@);
                    let m2 = entries_map(es2@);
                    let m1 = entries_map(es).insert(name@, value);
                    assert forall|k: Seq<char>| #[trigger] m2.contains_key(k) == m1.contains_key(k) by {
                        lemma_entries_map(es2@, k);
                        lemma_entries_map(es, k);
                        if k == name@ {
                            assert(es2@[i as int].0@ == k);
                        } else {
                            if entries_map(es).contains_key(k) {
                                let j = choose|j: int| 0 <= j < es.len() && es[j].0@ == k;
                                assert(es2@[j] == es[j]);
                            }
                            if entries_map(es2@).contains_key(k) {
                                let j = choose|j: int| 0 <= j < es2@.len() && es2@[j].0@ == k;
                                assert(es2@[j] == es[j]);
                            }
                        }
                    }
                    assert forall|k: Seq<char>| #[trigger] m2.contains_key(k) implies m2[k] == m1[k] by {
                        lemma_entries_map(es2@, k);
                        lemma_entries_map(es, k);
                        if k != name@ {
                            let j = choose|j: int| 0 <= j < es2@.len() && es2@[j].0@ == k;
                            assert(es2@[j] == es[j]);
                        }
                    }
                    assert(es2@[i as int].0@ == name@ && es2@[i as int].1 == value);
                    assert(entries_map(es2@).contains_key(name@));
                    assert(entries_map(es2@)[name@] == value);
                    assert(entries_map(es2@) =~= entries_map(es).insert(name@, value));
                }
                self.entries = es2;
            }
            None => {
                let ghost es = self.entries@;
                let mut es2: Vec<(String, V)> = Vec::new();
                std::mem::swap(&mut es2, &mut self.entries);
                es2.push((name, value));
                proof {
                    lemma_entries_map(es, name@);
                    assert(es2@.drop_last() == es);
                    assert(names_unique(es2@)) by {
                        assert forall|a: int, b: int| 0 <= a < b < es2@.len() implies (#[trigger] es2@[a]).0@ != (#[trigger] es2@[b]).0@ by {
                            if b == es2@.len() - 1 {
                                assert(es[a].0@ != name@);
                            } else {
                                assert(es[a].0@ != es[b].0@);
                            }
                        }
                    }
                }
                self.entries = es2;
            }
        }
    }

    /// The stored values, in insertion order of their names.
    pub closed spec fn values(&self) -> Seq<V> {
        self.entries@.map_values(|e: (String, V)| e.1)
    }

    /// The stored values, in insertion order of their names.
    pub fn value_list(&self) -> (r: Vec<&V>)
        ensures
            r@.len() == self.values().len(),
            forall|i: int| 0 <= i < r@.len() ==> *r@[i] == self.values()[i],
    {
        let mut r: Vec<&V> = Vec::new();
        let mut i: usize = 0;
        while i < self.entries.len()
            invariant
                i <= self.entries@.len(),
                r@.len() == i,
                forall|j: int| 0 <= j < i ==> *r@[j] == self.values()[j],
            decreases self.entries@.len() - i,
        {
            r.push(&self.entries[i].1);
            i = i + 1;
        }
        r
    }
}

} // verus!
