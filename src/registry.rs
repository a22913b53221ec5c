use vstd::prelude::*;
use crate::component::{distinct_keys, has_key, key_index, lemma_key_index, position_of_key, TypeKey};

verus! {

/// A map from type key to one value, later insertions replacing earlier ones.
pub struct TypeMap<V> {
    pub entries: Vec<(TypeKey, V)>,
}

impl<V> View for TypeMap<V> {
    type V = Map<TypeKey, V>;

    open spec fn view(&self) -> Map<TypeKey, V> {
        Map::new(
            |k: TypeKey| has_key(self.entries@, k),
            |k: TypeKey| self.entries@[key_index(self.entries@, k)].1,
        )
    }
}

impl<V> TypeMap<V> {
    /// No key has two entries.
    pub open spec fn wf(&self) -> bool {
        distinct_keys(self.entries@)
    }

    pub fn new() -> (r: Self)
        ensures
            r.wf(),
            r@ == Map::<TypeKey, V>::empty(),
    {
        let r = TypeMap { entries: Vec::new() };
        assert(r@ =~= Map::<TypeKey, V>::empty());
        r
    }

    /// Stores `value` under `k`, replacing what was stored there.
    pub fn insert(&mut self, k: TypeKey, value: V)
        requires
            old(self).wf(),
        ensures
            final(self).wf(),
            final(self)@ == old(self)@.insert(k, value),
    {
        let ghost before = self.entries@;
        match position_of_key(&self.entries, k) {
            Some(j) => {
                self.entries.set(j, (k, value));
                proof {
                    assert forall|a: int, b: int|
                        0 <= a < self.entries@.len() && 0 <= b < self.entries@.len() && a != b implies #[trigger] self.entries@[a].0
                        != #[trigger] self.entries@[b].0 by {
                        assert(self.entries@[a].0 == before[a].0);
                        assert(self.entries@[b].0 == before[b].0);
                    }
                    assert forall|x: TypeKey| #[trigger] self@.contains_key(x) == old(self)@.insert(k, value).contains_key(x) by {
                        if has_key(before, x) {
                            let c = choose|c: int| 0 <= c < before.len() && #[trigger] before[c].0 == x;
                            assert(self.entries@[c].0 == x);
                        }
                        if has_key(self.entries@, x) {
                            let c = choose|c: int| 0 <= c < self.entries@.len() && #[trigger] self.entries@[c].0 == x;
                            assert(before[c].0 == x);
                        }
                    }
                    assert forall|x: TypeKey| #[trigger] self@.contains_key(x) implies self@[x] == old(self)@.insert(k, value)[x] by {
                        let c = choose|c: int| 0 <= c < self.entries@.len() && #[trigger] self.entries@[c].0 == x;
                        lemma_key_index(self.entries@, c);
                        lemma_key_index(before, c);
                    }
                    assert(self@ =~= old(self)@.insert(k, value));
                }
            },
            None => {
                self.entries.push((k, value));
                proof {
                    let n = before.len() as int;
                    assert forall|a: int, b: int|
                        0 <= a < self.entries@.len() && 0 <= b < self.entries@.len() && a != b implies #[trigger] self.entries@[a].0
                        != #[trigger] self.entries@[b].0 by {
                        if a < n && b < n {
                            assert(self.entries@[a] == before[a]);
                            assert(self.entries@[b] == before[b]);
                        } else if a < n {
                            assert(self.entries@[a] == before[a]);
                        } else if b < n {
                            assert(self.entries@[b] == before[b]);
                        }
                    }
                    assert forall|x: TypeKey| #[trigger] self@.contains_key(x) == old(self)@.insert(k, value).contains_key(x) by {
                        if has_key(before, x) {
                            let c = choose|c: int| 0 <= c < before.len() && #[trigger] before[c].0 == x;
                            assert(self.entries@[c].0 == x);
                        }
                        if x == k {
                            assert(self.entries@[n].0 == k);
                        }
                        if has_key(self.entries@, x) && x != k {
                            let c = choose|c: int| 0 <= c < self.entries@.len() && #[trigger] self.entries@[c].0 == x;
                            assert(c < n);
                            assert(before[c].0 == x);
                        }
                    }
                    assert forall|x: TypeKey| #[trigger] self@.contains_key(x) implies self@[x] == old(self)@.insert(k, value)[x] by {
                        let c = choose|c: int| 0 <= c < self.entries@.len() && #[trigger] self.entries@[c].0 == x;
                        lemma_key_index(self.entries@, c);
                        if c < n {
                            assert(self.entries@[c] == before[c]);
                            lemma_key_index(before, c);
                        }
                    }
                    assert(self@ =~= old(self)@.insert(k, value));
                }
            },
        }
    }

    /// The value stored under `k`, if any.
    pub fn get(&self, k: TypeKey) -> (r: Option<&V>)
        requires
            self.wf(),
        ensures
            r.is_some() == self@.contains_key(k),
            r matches Some(v) ==> *v == self@[k],
    {
        match position_of_key(&self.entries, k) {
            Some(j) => {
                proof {
                    lemma_key_index(self.entries@, j as int);
                }
                Some(&self.entries[j].1)
            },
            None => None,
        }
    }
}

} // verus!
