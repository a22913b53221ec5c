use vstd::prelude::*;

verus! {

/// Identity of a component type: an opaque, totally ordered registry token.
pub type TypeKey = u64;

/// A component row handed between archetypes: one value per type key.
pub type MovedEntity<T> = Vec<(TypeKey, T)>;

/// No type key occurs twice in a keyed row.
pub open spec fn distinct_keys<T>(s: Seq<(TypeKey, T)>) -> bool {
    forall|i: int, j: int|
        0 <= i < s.len() && 0 <= j < s.len() && i != j ==> #[trigger] s[i].0 != #[trigger] s[j].0
}

/// The key `k` occurs in the keyed row.
pub open spec fn has_key<T>(s: Seq<(TypeKey, T)>, k: TypeKey) -> bool {
    exists|j: int| 0 <= j < s.len() && #[trigger] s[j].0 == k
}

/// Position of key `k` in a keyed row (meaningful when the key occurs).
pub open spec fn key_index<T>(s: Seq<(TypeKey, T)>, k: TypeKey) -> int {
    choose|j: int| 0 <= j < s.len() && #[trigger] s[j].0 == k
}

/// The per-type value map that a keyed row denotes.
pub open spec fn row_map<T>(s: Seq<(TypeKey, T)>) -> Map<TypeKey, T> {
    Map::new(|k: TypeKey| has_key(s, k), |k: TypeKey| s[key_index(s, k)].1)
}

/// The set of type keys of a keyed row.
pub open spec fn key_set<T>(s: Seq<(TypeKey, T)>) -> Set<TypeKey> {
    Set::new(|k: TypeKey| has_key(s, k))
}

/// In a sequence of keyed entries without repeated keys, the key at position `j` is found there.
pub proof fn lemma_key_index<T>(s: Seq<(TypeKey, T)>, j: int)
    requires
        distinct_keys(s),
        0 <= j < s.len(),
    ensures
        has_key(s, s[j].0),
        key_index(s, s[j].0) == j,
        key_set(s).contains(s[j].0),
{
    let k = s[j].0;
    assert(has_key(s, k));
    let i = key_index(s, k);
    assert(s[i].0 == k);
}

/// In a row without repeated keys, the entry at position `j` is the map's value at its key.
pub proof fn lemma_row_map_at<T>(s: Seq<(TypeKey, T)>, j: int)
    requires
        distinct_keys(s),
        0 <= j < s.len(),
    ensures
        row_map(s).contains_key(s[j].0),
        row_map(s)[s[j].0] == s[j].1,
        key_index(s, s[j].0) == j,
{
    let k = s[j].0;
    assert(has_key(s, k));
    let i = key_index(s, k);
    assert(s[i].0 == k);
}

/// The map of a row has exactly the row's keys as its domain.
pub proof fn lemma_row_map_dom<T>(s: Seq<(TypeKey, T)>)
    ensures
        row_map(s).dom() == key_set(s),
{
    assert(row_map(s).dom() =~= key_set(s));
}

/// A keyed row whose entries agree with map `m` on its own keys, and whose keys are exactly
/// `m`'s domain, denotes `m`.
pub proof fn lemma_row_map_of_pairs<T>(p: Seq<(TypeKey, T)>, m: Map<TypeKey, T>)
    requires
        distinct_keys(p),
        key_set(p) == m.dom(),
        forall|j: int| 0 <= j < p.len() ==> (#[trigger] p[j]).1 == m[p[j].0],
    ensures
        row_map(p) == m,
{
    assert forall|k: TypeKey| #[trigger] row_map(p).contains_key(k) implies row_map(p)[k] == m[k] by {
        assert(has_key(p, k));
        let i = key_index(p, k);
        assert(p[i].0 == k);
    }
    assert forall|k: TypeKey| m.contains_key(k) implies #[trigger] row_map(p).contains_key(k) by {
        assert(key_set(p).contains(k));
    }
    assert(row_map(p) =~= m);
}

/// Two keyed sequences with the same keys at the same positions have the same key set.
pub proof fn lemma_same_keys<A, B>(s1: Seq<(TypeKey, A)>, s2: Seq<(TypeKey, B)>)
    requires
        s1.len() == s2.len(),
        forall|j: int| 0 <= j < s1.len() ==> (#[trigger] s1[j]).0 == s2[j].0,
    ensures
        key_set(s1) == key_set(s2),
        distinct_keys(s1) ==> distinct_keys(s2),
{
    assert forall|k: TypeKey| key_set(s1).contains(k) implies key_set(s2).contains(k) by {
        let j = choose|j: int| 0 <= j < s1.len() && #[trigger] s1[j].0 == k;
        assert(s2[j].0 == k);
    }
    assert forall|k: TypeKey| key_set(s2).contains(k) implies key_set(s1).contains(k) by {
        let j = choose|j: int| 0 <= j < s2.len() && #[trigger] s2[j].0 == k;
        assert(s1[j].0 == k);
    }
    assert(key_set(s1) =~= key_set(s2));
    if distinct_keys(s1) {
        assert forall|i: int, j: int|
            0 <= i < s2.len() && 0 <= j < s2.len() && i != j implies #[trigger] s2[i].0
            != #[trigger] s2[j].0 by {
            assert(s1[i].0 == s2[i].0);
            assert(s1[j].0 == s2[j].0);
        }
    }
}

/// Position of the entry with key `k`, if there is one.
pub fn position_of_key<A>(s: &Vec<(TypeKey, A)>, k: TypeKey) -> (r: Option<usize>)
    ensures
        r matches Some(j) ==> j < s@.len() && s@[j as int].0 == k,
        r.is_none() <==> !has_key(s@, k),
{
    let mut i: usize = 0;
    while i < s.len()
        invariant
            i <= s@.len(),
            forall|j: int| 0 <= j < i ==> (#[trigger] s@[j]).0 != k,
        decreases s@.len() - i,
    {
        if s[i].0 == k {
            return Some(i);
        }
        i += 1;
    }
    None
}

/// A keyed row denotes the empty map exactly when it has no entries.
pub proof fn lemma_row_map_empty<T>(s: Seq<(TypeKey, T)>)
    ensures
        (row_map(s) == Map::<TypeKey, T>::empty()) <==> s.len() == 0,
{
    if s.len() == 0 {
        assert(row_map(s) =~= Map::<TypeKey, T>::empty());
    } else {
        assert(has_key(s, s[0].0));
        assert(row_map(s).contains_key(s[0].0));
    }
}

/// `row` with the value of type `k` set to `v`: replaced when present, appended otherwise.
pub fn with_component<T>(row: MovedEntity<T>, k: TypeKey, v: T) -> (r: MovedEntity<T>)
    requires
        distinct_keys(row@),
    ensures
        distinct_keys(r@),
        r@.len() > 0,
        row_map(r@) == row_map(row@).insert(k, v),
{
    let ghost src = row@;
    let mut row = row;
    let ghost target = row_map(src).insert(k, v);
    match position_of_key(&row, k) {
        Some(j) => {
            row.set(j, (k, v));
            proof {
                assert forall|a: int, b: int|
                    0 <= a < row@.len() && 0 <= b < row@.len() && a != b implies #[trigger] row@[a].0
                    != #[trigger] row@[b].0 by {
                    assert(row@[a].0 == src[a].0);
                    assert(row@[b].0 == src[b].0);
                }
                assert forall|c: int| 0 <= c < row@.len() implies (#[trigger] row@[c]).1 == target[row@[c].0] by {
                    if c != j {
                        lemma_row_map_at(src, c);
                    }
                }
                lemma_same_keys(src, row@);
                lemma_row_map_dom(src);
                assert(key_set(row@) =~= target.dom());
                lemma_row_map_of_pairs(row@, target);
            }
        },
        None => {
            row.push((k, v));
            proof {
                let n = src.len() as int;
                assert forall|a: int, b: int|
                    0 <= a < row@.len() && 0 <= b < row@.len() && a != b implies #[trigger] row@[a].0
                    != #[trigger] row@[b].0 by {
                    if a == n {
                        assert(row@[b] == src[b]);
                    } else if b == n {
                        assert(row@[a] == src[a]);
                    } else {
                        assert(row@[a] == src[a]);
                        assert(row@[b] == src[b]);
                    }
                }
                assert forall|c: int| 0 <= c < row@.len() implies (#[trigger] row@[c]).1 == target[row@[c].0] by {
                    if c != n {
                        assert(row@[c] == src[c]);
                        lemma_row_map_at(src, c);
                    }
                }
                lemma_row_map_dom(src);
                assert forall|x: TypeKey| key_set(row@).contains(x) implies target.dom().contains(x) by {
                    let c = choose|c: int| 0 <= c < row@.len() && #[trigger] row@[c].0 == x;
                    if c != n {
                        assert(row@[c] == src[c]);
                        assert(key_set(src).contains(x));
                    }
                }
                assert forall|x: TypeKey| target.dom().contains(x) implies key_set(row@).contains(x) by {
                    if x == k {
                        assert(row@[n].0 == k);
                    } else {
                        assert(key_set(src).contains(x));
                        let c = choose|c: int| 0 <= c < src.len() && #[trigger] src[c].0 == x;
                        assert(row@[c] == src[c]);
                    }
                }
                assert(key_set(row@) =~= target.dom());
                lemma_row_map_of_pairs(row@, target);
            }
        },
    }
    row
}

/// `row` without its value of type `k`, if it has one.
pub fn without_component<T>(row: MovedEntity<T>, k: TypeKey) -> (r: MovedEntity<T>)
    requires
        distinct_keys(row@),
    ensures
        distinct_keys(r@),
        row_map(r@) == row_map(row@).remove(k),
{
    let ghost src = row@;
    let mut row = row;
    let ghost target = row_map(src).remove(k);
    match position_of_key(&row, k) {
        Some(j) => {
            let _ = row.remove(j);
            proof {
                assert forall|a: int| 0 <= a < row@.len() implies #[trigger] row@[a] == src[if a < j {
                    a
                } else {
                    a + 1
                }] by {}
                assert forall|a: int, b: int|
                    0 <= a < row@.len() && 0 <= b < row@.len() && a != b implies #[trigger] row@[a].0
                    != #[trigger] row@[b].0 by {
                    assert(row@[a] == src[if a < j { a } else { a + 1 }]);
                    assert(row@[b] == src[if b < j { b } else { b + 1 }]);
                }
                assert forall|c: int| 0 <= c < row@.len() implies (#[trigger] row@[c]).1 == target[row@[c].0] by {
                    let oc = if c < j { c } else { c + 1 };
                    assert(row@[c] == src[oc]);
                    lemma_row_map_at(src, oc);
                }
                lemma_row_map_dom(src);
                assert forall|x: TypeKey| key_set(row@).contains(x) implies target.dom().contains(x) by {
                    let c = choose|c: int| 0 <= c < row@.len() && #[trigger] row@[c].0 == x;
                    let oc = if c < j { c } else { c + 1 };
                    assert(row@[c] == src[oc]);
                    assert(key_set(src).contains(x));
                }
                assert forall|x: TypeKey| target.dom().contains(x) implies key_set(row@).contains(x) by {
                    assert(key_set(src).contains(x));
                    let c = choose|c: int| 0 <= c < src.len() && #[trigger] src[c].0 == x;
                    assert(c != j);
                    let nc = if c < j { c } else { c - 1 };
                    assert(row@[nc] == src[c]);
                }
                assert(key_set(row@) =~= target.dom());
                lemma_row_map_of_pairs(row@, target);
            }
        },
        None => {
            proof {
                lemma_row_map_dom(src);
                assert(row_map(src) =~= target);
            }
        },
    }
    row
}

/// A type-homogeneous column: one value per row of its archetype, in row order.
pub struct ComponentList<T> {
    pub components: Vec<T>,
}

impl<T> View for ComponentList<T> {
    type V = Seq<T>;

    open spec fn view(&self) -> Seq<T> {
        self.components@
    }
}

impl<T> ComponentList<T> {
    pub fn new() -> (r: Self)
        ensures
            r@ == Seq::<T>::empty(),
    {
        ComponentList { components: Vec::new() }
    }

    /// Appends a value as the new last row.
    pub fn add(&mut self, component: T)
        ensures
            final(self)@ == old(self)@.push(component),
    {
        self.components.push(component);
    }

    /// The value at `index`, if the column has that row.
    pub fn get(&self, index: usize) -> (r: Option<&T>)
        ensures
            index < self@.len() ==> r == Some(&self@[index as int]),
            index >= self@.len() ==> r.is_none(),
    {
        if index < self.components.len() {
            Some(&self.components[index])
        } else {
            None
        }
    }

    /// A mutable reference to the value at `index`, if the column has that row;
    /// writes through it land in that row.
    pub fn get_mut(&mut self, index: usize) -> (r: Option<&mut T>)
        ensures
            index >= old(self)@.len() ==> r.is_none() && final(self)@ == old(self)@,
            index < old(self)@.len() ==> r.is_some() && *r.unwrap() == old(self)@[index as int]
                && final(self)@ == old(self)@.update(index as int, *final(r.unwrap())),
    {
        if index < self.components.len() {
            Some(&mut self.components[index])
        } else {
            None
        }
    }

    /// Removes the row at `index`, shifting the later rows down by one.
    pub fn remove(&mut self, index: usize) -> (r: T)
        requires
            index < old(self)@.len(),
        ensures
            r == old(self)@[index as int],
            final(self)@ == old(self)@.remove(index as int),
    {
        self.components.remove(index)
    }
}

impl<T> Default for ComponentList<T> {
    fn default() -> (r: Self)
        ensures
            r@ == Seq::<T>::empty(),
    {
        Self::new()
    }
}

} // verus!
