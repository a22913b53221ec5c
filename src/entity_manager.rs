use vstd::prelude::*;
use crate::archetype::Archetype;
use crate::component::{
    distinct_keys, has_key, key_index, key_set, lemma_row_map_at, lemma_row_map_dom,
    lemma_row_map_empty, lemma_row_map_of_pairs, lemma_same_keys, position_of_key, row_map,
    with_component, without_component, MovedEntity, TypeKey,
};
use crate::entity::{Entity, EntityId};
use crate::error::{ArchetypeError, QueryError};

verus! {

/// Index `x` after the element at index `l` was removed, when `removed` holds.
pub open spec fn shifted(x: int, l: int, removed: bool) -> int {
    if removed && x > l {
        x - 1
    } else {
        x
    }
}

/// The entities after entity `id` gains (or has replaced) its component of type `k`.
pub open spec fn view_add_component<T>(
    v: Map<EntityId, Map<TypeKey, T>>,
    id: EntityId,
    k: TypeKey,
    c: T,
) -> Map<EntityId, Map<TypeKey, T>> {
    v.insert(id, v[id].insert(k, c))
}

/// The entities after entity `id` loses its component of type `k`; an entity left with no
/// component is deleted.
pub open spec fn view_remove_component<T>(
    v: Map<EntityId, Map<TypeKey, T>>,
    id: EntityId,
    k: TypeKey,
) -> Map<EntityId, Map<TypeKey, T>> {
    if v[id].remove(k) == Map::<TypeKey, T>::empty() {
        v.remove(id)
    } else {
        v.insert(id, v[id].remove(k))
    }
}

/// The authority for entity existence and archetype placement.
///
/// Every live entity has exactly one row, in the archetype whose type set is the entity's; no two
/// archetypes share a type set, none is empty, and none has an empty type set. An entity whose last
/// component is removed is deleted. Identifiers are handed out in increasing order and never reused.
/// Every structural operation on an entity that is not live returns `EntityNotFound` and changes
/// nothing.
pub struct EntityManager<T> {
    /// The entity table: each live entity with the index of its archetype.
    pub entities: Vec<Entity>,
    /// The archetypes, in order of creation.
    pub archetypes: Vec<Archetype<T>>,
    /// The identifier the next created entity receives.
    pub next_id: EntityId,
}

impl<T> EntityManager<T> {
    /// The entity table has an entry for `id`.
    pub open spec fn tracks(&self, id: EntityId) -> bool {
        exists|t: int| 0 <= t < self.entities@.len() && #[trigger] self.entities@[t].id == id
    }

    /// The table position of `id` (meaningful when tracked).
    pub open spec fn table_index(&self, id: EntityId) -> int {
        choose|t: int| 0 <= t < self.entities@.len() && #[trigger] self.entities@[t].id == id
    }

    /// The archetype index recorded for `id` (meaningful when tracked).
    pub open spec fn location_of(&self, id: EntityId) -> int {
        self.entities@[self.table_index(id)].entity_location as int
    }

    /// The components of entity `id`: its row in the archetype recorded for it.
    pub open spec fn components_of(&self, id: EntityId) -> Map<TypeKey, T> {
        let a = self.archetypes@[self.location_of(id)];
        a.row(a.row_of(id))
    }

    /// Every archetype is well formed, non-empty, has at least one type, and no two share a
    /// type set.
    pub open spec fn archetypes_wf(&self) -> bool {
        &&& forall|a: int|
            0 <= a < self.archetypes@.len() ==> {
                &&& (#[trigger] self.archetypes@[a]).wf()
                &&& self.archetypes@[a].entities@.len() > 0
                &&& self.archetypes@[a].components@.len() > 0
            }
        &&& forall|a1: int, a2: int|
            0 <= a1 < self.archetypes@.len() && 0 <= a2 < self.archetypes@.len() && a1 != a2
                ==> (#[trigger] self.archetypes@[a1]).type_set() != (
            #[trigger] self.archetypes@[a2]).type_set()
    }

    /// Each table entry points at an archetype that holds its entity, with an identifier below
    /// `next_id`.
    pub open spec fn entries_located(&self) -> bool {
        forall|t: int|
            0 <= t < self.entities@.len() ==> {
                &&& (#[trigger] self.entities@[t]).entity_location < self.archetypes@.len()
                &&& self.archetypes@[self.entities@[t].entity_location as int].entities@.contains(
                    self.entities@[t].id,
                )
                &&& self.entities@[t].id < self.next_id
            }
    }

    /// No identifier has two table entries.
    pub open spec fn entry_ids_distinct(&self) -> bool {
        forall|t1: int, t2: int|
            0 <= t1 < self.entities@.len() && 0 <= t2 < self.entities@.len() && t1 != t2
                ==> (#[trigger] self.entities@[t1]).id != (#[trigger] self.entities@[t2]).id
    }

    /// Every row belongs to a tracked entity whose table entry points at the row's archetype.
    pub open spec fn rows_tracked(&self) -> bool {
        forall|a: int, r: int|
            #![trigger self.archetypes@[a].entities@[r]]
            0 <= a < self.archetypes@.len() && 0 <= r < self.archetypes@[a].entities@.len() ==> {
                &&& self.tracks(self.archetypes@[a].entities@[r])
                &&& self.location_of(self.archetypes@[a].entities@[r]) == a
            }
    }

    /// With distinct identifiers, the entry found for an identifier is the one that holds it.
    pub proof fn lemma_table_index(&self, t: int)
        requires
            self.entry_ids_distinct(),
            0 <= t < self.entities@.len(),
        ensures
            self.tracks(self.entities@[t].id),
            self.table_index(self.entities@[t].id) == t,
            self.location_of(self.entities@[t].id) == self.entities@[t].entity_location,
    {
        let id = self.entities@[t].id;
        assert(self.tracks(id));
        let c = self.table_index(id);
        assert(self.entities@[c].id == id);
    }

    /// The table and the archetypes agree.
    pub open spec fn table_wf(&self) -> bool {
        self.entries_located() && self.entry_ids_distinct() && self.rows_tracked()
    }

    /// The manager's invariant.
    pub open spec fn wf(&self) -> bool {
        self.archetypes_wf() && self.table_wf()
    }

    /// The table entry `t` is where its entity is found, and its components are its row there.
    pub proof fn lemma_view_entry(&self, t: int)
        requires
            self.wf(),
            0 <= t < self.entities@.len(),
        ensures
            self.table_index(self.entities@[t].id) == t,
            self@.contains_key(self.entities@[t].id),
            self@[self.entities@[t].id] == self.components_of(self.entities@[t].id),
            self.location_of(self.entities@[t].id) == self.entities@[t].entity_location,
    {
        let id = self.entities@[t].id;
        assert(self.tracks(id));
        let c = self.table_index(id);
        assert(self.entities@[c].id == id);
    }

    /// An entity without a table entry has no row anywhere.
    pub proof fn lemma_untracked_absent(&self, id: EntityId)
        requires
            self.wf(),
            !self.tracks(id),
        ensures
            forall|a: int|
                0 <= a < self.archetypes@.len() ==> !(#[trigger] self.archetypes@[a]).entities@.contains(id),
    {
        assert forall|a: int| 0 <= a < self.archetypes@.len() implies !(
        #[trigger] self.archetypes@[a]).entities@.contains(id) by {
            if self.archetypes@[a].entities@.contains(id) {
                let r = choose|r: int|
                    0 <= r < self.archetypes@[a].entities@.len() && self.archetypes@[a].entities@[r]
                        == id;
                assert(self.archetypes@[a].entities@[r] == id);
            }
        }
    }

    /// An entity tracked by a well-formed manager has an identifier below `next_id`.
    pub proof fn lemma_tracked_below(&self, id: EntityId, prev: &Self)
        requires
            prev.wf(),
            prev@.contains_key(id),
            self.next_id == prev.next_id,
        ensures
            id < self.next_id,
    {
        assert(prev.tracks(id));
        let t = choose|t: int| 0 <= t < prev.entities@.len() && #[trigger] prev.entities@[t].id == id;
    }

    /// A manager with no entities.
    pub fn new() -> (r: Self)
        ensures
            r.wf(),
            r@ == Map::<EntityId, Map<TypeKey, T>>::empty(),
            r.next_id == 0,
    {
        let r = EntityManager { entities: Vec::new(), archetypes: Vec::new(), next_id: 0 };
        assert(r@ =~= Map::<EntityId, Map<TypeKey, T>>::empty());
        r
    }

    /// The table position of entity `id`, if it is tracked.
    pub fn find_entity(&self, id: EntityId) -> (r: Option<usize>)
        requires
            self.wf(),
        ensures
            r.is_some() <==> self@.contains_key(id),
            r matches Some(t) ==> t < self.entities@.len() && self.entities@[t as int].id == id,
    {
        let mut t: usize = 0;
        while t < self.entities.len()
            invariant
                t <= self.entities@.len(),
                forall|c: int| 0 <= c < t ==> (#[trigger] self.entities@[c]).id != id,
            decreases self.entities@.len() - t,
        {
            if self.entities[t].id == id {
                proof {
                    assert(self.tracks(id));
                }
                return Some(t);
            }
            t += 1;
        }
        None
    }

    /// Whether `arch` has exactly the keys of `row` as its type set.
    fn type_set_matches(arch: &Archetype<T>, row: &MovedEntity<T>) -> (r: bool)
        ensures
            r == (arch.type_set() == key_set(row@)),
    {
        let mut i: usize = 0;
        while i < row.len()
            invariant
                i <= row@.len(),
                forall|c: int| 0 <= c < i ==> arch.type_set().contains(#[trigger] row@[c].0),
            decreases row@.len() - i,
        {
            if !arch.has_type(row[i].0) {
                proof {
                    assert(key_set(row@).contains(row@[i as int].0));
                }
                return false;
            }
            i += 1;
        }
        let mut j: usize = 0;
        while j < arch.components.len()
            invariant
                j <= arch.components@.len(),
                forall|c: int| 0 <= c < j ==> has_key(row@, #[trigger] arch.components@[c].0),
            decreases arch.components@.len() - j,
        {
            if position_of_key(row, arch.components[j].0).is_none() {
                proof {
                    assert(arch.type_set().contains(arch.components@[j as int].0));
                    assert(!key_set(row@).contains(arch.components@[j as int].0));
                }
                return false;
            }
            j += 1;
        }
        proof {
            assert forall|k: TypeKey| key_set(row@).contains(k) implies arch.type_set().contains(k) by {
                let c = choose|c: int| 0 <= c < row@.len() && #[trigger] row@[c].0 == k;
            }
            assert forall|k: TypeKey| arch.type_set().contains(k) implies key_set(row@).contains(k) by {
                let c = choose|c: int|
                    0 <= c < arch.components@.len() && #[trigger] arch.components@[c].0 == k;
            }
            assert(arch.type_set() =~= key_set(row@));
        }
        true
    }

    /// The archetype whose type set is the key set of `row`, if there is one.
    fn archetype_index_for(&self, row: &MovedEntity<T>) -> (r: Option<usize>)
        ensures
            r matches Some(a) ==> a < self.archetypes@.len() && self.archetypes@[a as int].type_set()
                == key_set(row@),
            r.is_none() ==> forall|a: int|
                0 <= a < self.archetypes@.len() ==> (#[trigger] self.archetypes@[a]).type_set()
                    != key_set(row@),
    {
        let mut a: usize = 0;
        while a < self.archetypes.len()
            invariant
                a <= self.archetypes@.len(),
                forall|c: int|
                    0 <= c < a ==> (#[trigger] self.archetypes@[c]).type_set() != key_set(row@),
            decreases self.archetypes@.len() - a,
        {
            if Self::type_set_matches(&self.archetypes[a], row) {
                return Some(a);
            }
            a += 1;
        }
        None
    }

    /// Entering a new entity whose row was appended (and nothing else moved) keeps the invariant
    /// and adds exactly that entity to the view.
    proof fn lemma_insert_wf(m0: Self, m2: Self, e: Entity, at: int)
        requires
            m0.wf(),
            !m0.tracks(e.id),
            e.id < m0.next_id,
            m2.archetypes_wf(),
            m2.next_id == m0.next_id,
            0 <= at <= m0.entities@.len(),
            m2.entities@ == m0.entities@.insert(at, e),
            e.entity_location < m2.archetypes@.len(),
            m2.archetypes@.len() >= m0.archetypes@.len(),
            m2.archetypes@[e.entity_location as int].entities@.len() > 0,
            m2.archetypes@[e.entity_location as int].entities@.last() == e.id,
            forall|a: int|
                0 <= a < m0.archetypes@.len() ==> (#[trigger] m2.archetypes@[a]).entities@.len()
                    >= m0.archetypes@[a].entities@.len(),
            forall|a: int, r: int|
                0 <= a < m0.archetypes@.len() && 0 <= r < m0.archetypes@[a].entities@.len()
                    ==> #[trigger] m2.archetypes@[a].entities@[r] == m0.archetypes@[a].entities@[r]
                    && m2.archetypes@[a].row(r) == m0.archetypes@[a].row(r),
            forall|a: int, r: int|
                0 <= a < m2.archetypes@.len() && 0 <= r < m2.archetypes@[a].entities@.len()
                    ==> (a == e.entity_location && r == m2.archetypes@[a].entities@.len() - 1) || (a
                    < m0.archetypes@.len() && r < m0.archetypes@[a].entities@.len()
                    && #[trigger] m2.archetypes@[a].entities@[r] == m0.archetypes@[a].entities@[r]),
        ensures
            m2.wf(),
            m2@ == m0@.insert(
                e.id,
                m2.archetypes@[e.entity_location as int].row(
                    m2.archetypes@[e.entity_location as int].entities@.len() - 1,
                ),
            ),
    {
        let id = e.id;
        let loc = e.entity_location as int;
        let last = m2.archetypes@[loc].entities@.len() - 1;
        assert(m2.archetypes@[loc].entities@[last] == id);
        assert forall|t: int| 0 <= t < m2.entities@.len() implies {
            &&& (#[trigger] m2.entities@[t]).entity_location < m2.archetypes@.len()
            &&& m2.archetypes@[m2.entities@[t].entity_location as int].entities@.contains(
                m2.entities@[t].id,
            )
            &&& m2.entities@[t].id < m2.next_id
        } by {
            if t != at {
                let ot = if t < at { t } else { t - 1 };
                assert(m2.entities@[t] == m0.entities@[ot]);
                let l = m0.entities@[ot].entity_location as int;
                assert(m0.archetypes@[l].entities@.contains(m0.entities@[ot].id));
                let r = choose|r: int|
                    0 <= r < m0.archetypes@[l].entities@.len() && m0.archetypes@[l].entities@[r]
                        == m0.entities@[ot].id;
                assert(m2.archetypes@[l].entities@[r] == m0.archetypes@[l].entities@[r]);
            } else {
                assert(m2.entities@[t] == e);
            }
        }
        assert(m2.entries_located());
        assert forall|t1: int, t2: int|
            0 <= t1 < m2.entities@.len() && 0 <= t2 < m2.entities@.len() && t1 != t2 implies (
            #[trigger] m2.entities@[t1]).id != (#[trigger] m2.entities@[t2]).id by {
            let o1 = if t1 < at { t1 } else { t1 - 1 };
            let o2 = if t2 < at { t2 } else { t2 - 1 };
            if t1 == at {
                assert(m2.entities@[t2] == m0.entities@[o2]);
                assert(m0.entities@[o2].id == m0.entities@[o2].id);
                if m0.entities@[o2].id == id {
                    assert(m0.tracks(id));
                }
            } else if t2 == at {
                assert(m2.entities@[t1] == m0.entities@[o1]);
                if m0.entities@[o1].id == id {
                    assert(m0.tracks(id));
                }
            } else {
                assert(m2.entities@[t1] == m0.entities@[o1]);
                assert(m2.entities@[t2] == m0.entities@[o2]);
            }
        }
        assert(m2.entry_ids_distinct());
        assert forall|a: int, r: int|
            #![trigger m2.archetypes@[a].entities@[r]]
            0 <= a < m2.archetypes@.len() && 0 <= r < m2.archetypes@[a].entities@.len() implies {
                &&& m2.tracks(m2.archetypes@[a].entities@[r])
                &&& m2.location_of(m2.archetypes@[a].entities@[r]) == a
            } by {
            if a == loc && r == last {
                assert(m2.entities@[at] == e);
                m2.lemma_table_index(at);
            } else {
                let x = m2.archetypes@[a].entities@[r];
                assert(a < m0.archetypes@.len() && r < m0.archetypes@[a].entities@.len());
                assert(m2.archetypes@[a].entities@[r] == m0.archetypes@[a].entities@[r]);
                let ot = m0.table_index(x);
                m0.lemma_table_index(ot);
                let nt = if ot < at { ot } else { ot + 1 };
                assert(m2.entities@[nt] == m0.entities@[ot]);
                m2.lemma_table_index(nt);
            }
        }
        assert(m2.rows_tracked());
        let expected = m0@.insert(id, m2.archetypes@[loc].row(last));
        assert forall|x: EntityId| #[trigger] m2@.contains_key(x) <==> expected.contains_key(x) by {
            if m2.tracks(x) {
                let t = choose|t: int| 0 <= t < m2.entities@.len() && #[trigger] m2.entities@[t].id == x;
                if t != at {
                    let ot = if t < at { t } else { t - 1 };
                    assert(m2.entities@[t] == m0.entities@[ot]);
                    assert(m0.tracks(x));
                }
            }
            if m0.tracks(x) {
                let ot = choose|t: int| 0 <= t < m0.entities@.len() && #[trigger] m0.entities@[t].id == x;
                let nt = if ot < at { ot } else { ot + 1 };
                assert(m2.entities@[nt] == m0.entities@[ot]);
            }
            if x == id {
                assert(m2.entities@[at] == e);
            }
        }
        assert forall|x: EntityId| #[trigger] m2@.contains_key(x) implies m2@[x] == expected[x] by {
            if x == id {
                assert(m2.entities@[at] == e);
                m2.lemma_view_entry(at);
                m2.archetypes@[loc].lemma_row_of(id, last);
            } else {
                let ot = choose|t: int| 0 <= t < m0.entities@.len() && #[trigger] m0.entities@[t].id == x;
                let nt = if ot < at { ot } else { ot + 1 };
                assert(m2.entities@[nt] == m0.entities@[ot]);
                m0.lemma_view_entry(ot);
                m2.lemma_view_entry(nt);
                let l = m0.entities@[ot].entity_location as int;
                let r = m0.archetypes@[l].row_of(x);
                assert(m0.archetypes@[l].entities@.contains(x));
                assert(0 <= r < m0.archetypes@[l].entities@.len() && m0.archetypes@[l].entities@[r]
                    == x);
                assert(m2.archetypes@[l].entities@[r] == x);
                m2.archetypes@[l].lemma_row_of(x, r);
            }
        }
        assert(m2@ =~= expected);
    }

    /// Changing one cell of the row of the entity at table entry `t` keeps the invariant and
    /// changes that entity's component of type `k` only.
    proof fn lemma_cell_update(m0: Self, m1: Self, t: int, row: int, k: TypeKey, c: T)
        requires
            m0.wf(),
            0 <= t < m0.entities@.len(),
            m1.entities == m0.entities,
            m1.next_id == m0.next_id,
            m1.archetypes@.len() == m0.archetypes@.len(),
            ({
                let l = m0.entities@[t].entity_location as int;
                let a0 = m0.archetypes@[l];
                let a1 = m1.archetypes@[l];
                &&& 0 <= row < a0.entities@.len()
                &&& a0.entities@[row] == m0.entities@[t].id
                &&& a0.type_set().contains(k)
                &&& forall|a: int| 0 <= a < m0.archetypes@.len() && a != l ==> #[trigger] m1.archetypes@[a] == m0.archetypes@[a]
                &&& a1.entities == a0.entities
                &&& a1.components@.len() == a0.components@.len()
                &&& forall|j: int|
                    0 <= j < a0.components@.len() ==> (#[trigger] a1.components@[j]).0
                        == a0.components@[j].0 && a1.components@[j].1@ == if j == key_index(
                        a0.components@,
                        k,
                    ) {
                        a0.components@[j].1@.update(row, c)
                    } else {
                        a0.components@[j].1@
                    }
            }),
        ensures
            m1.wf(),
            m1@ == view_add_component(m0@, m0.entities@[t].id, k, c),
    {
        let id = m0.entities@[t].id;
        let l = m0.entities@[t].entity_location as int;
        let a0 = m0.archetypes@[l];
        let a1 = m1.archetypes@[l];
        m0.lemma_view_entry(t);
        lemma_same_keys(a0.components@, a1.components@);
        let j0 = key_index(a0.components@, k);
        assert(has_key(a0.components@, k));
        assert(0 <= j0 < a0.components@.len() && a0.components@[j0].0 == k);
        assert forall|j: int| 0 <= j < a1.components@.len() implies (#[trigger] a1.components@[j]).1@.len()
            == a1.entities@.len() by {
            assert(a0.components@[j].1@.len() == a0.entities@.len());
        }
        assert(a1.wf());
        assert forall|a: int| 0 <= a < m1.archetypes@.len() implies (#[trigger] m1.archetypes@[a]).entities
            == m0.archetypes@[a].entities && m1.archetypes@[a].type_set() == m0.archetypes@[a].type_set() by {}
        assert forall|a: int, rr: int|
            0 <= a < m1.archetypes@.len() && 0 <= rr < m1.archetypes@[a].entities@.len() && !(a == l && rr == row)
                implies #[trigger] m1.archetypes@[a].row(rr) == m0.archetypes@[a].row(rr) by {
            if a == l {
                assert(a1.row_pairs(rr) =~= a0.row_pairs(rr));
            }
        }
        assert(a1.row(row) == a0.row(row).insert(k, c)) by {
            let p0 = a0.row_pairs(row);
            let p1 = a1.row_pairs(row);
            lemma_same_keys(a0.components@, p0);
            lemma_same_keys(a1.components@, p1);
            lemma_row_map_dom(p0);
            assert forall|j: int| 0 <= j < p1.len() implies (#[trigger] p1[j]).1 == a0.row(row).insert(k, c)[p1[j].0] by {
                if j != j0 {
                    lemma_row_map_at(p0, j);
                }
            }
            assert(key_set(p1) =~= a0.row(row).insert(k, c).dom());
            lemma_row_map_of_pairs(p1, a0.row(row).insert(k, c));
        }
        assert(m1.archetypes_wf());
        assert(m1.table_wf());
        let expected = view_add_component(m0@, id, k, c);
        assert forall|x: EntityId| #[trigger] m1@.contains_key(x) implies m1@[x] == expected[x] by {
            let i = m1.table_index(x);
            m1.lemma_table_index(i);
            m0.lemma_table_index(i);
            let lo = m0.entities@[i].entity_location as int;
            let ro = m0.archetypes@[lo].row_of(x);
            assert(m0.archetypes@[lo].entities@.contains(x));
            assert(0 <= ro < m0.archetypes@[lo].entities@.len() && m0.archetypes@[lo].entities@[ro] == x);
            if x == id {
                a0.lemma_row_of(x, row);
            }
        }
        assert(m1@ =~= expected);
    }

    /// Taking out the row of the entity at table entry `t` (leaving `a1` in its archetype),
    /// dropping that archetype when it became empty, and dropping the entry keeps the invariant and
    /// removes exactly that entity from the view.
    proof fn lemma_extract_wf(m0: Self, m2: Self, t: int, a1: Archetype<T>, pruned: bool)
        requires
            m0.wf(),
            0 <= t < m0.entities@.len(),
            a1.wf(),
            a1.is_row_removed(
                &m0.archetypes@[m0.entities@[t].entity_location as int],
                m0.archetypes@[m0.entities@[t].entity_location as int].row_of(m0.entities@[t].id),
            ),
            pruned == (a1.entities@.len() == 0),
            m2.next_id == m0.next_id,
            m2.archetypes@ == if pruned {
                m0.archetypes@.remove(m0.entities@[t].entity_location as int)
            } else {
                m0.archetypes@.update(m0.entities@[t].entity_location as int, a1)
            },
            m2.entities@.len() == m0.entities@.len() - 1,
            forall|i: int|
                0 <= i < m2.entities@.len() ==> (#[trigger] m2.entities@[i]).id
                    == m0.entities@.remove(t)[i].id && m2.entities@[i].entity_location as int
                    == shifted(
                    m0.entities@.remove(t)[i].entity_location as int,
                    m0.entities@[t].entity_location as int,
                    pruned,
                ),
        ensures
            m2.wf(),
            m2@ == m0@.remove(m0.entities@[t].id),
    {
        let id = m0.entities@[t].id;
        let l = m0.entities@[t].entity_location as int;
        let a0 = m0.archetypes@[l];
        m0.lemma_table_index(t);
        assert(a0.entities@.contains(id));
        let r = a0.row_of(id);
        assert(0 <= r < a0.entities@.len() && a0.entities@[r] == id);
        lemma_same_keys(a0.components@, a1.components@);
        // Where an old archetype is now, and where an old row of archetype `l` is now.
        assert forall|a: int|
            0 <= a < m0.archetypes@.len() && !(pruned && a == l) implies #[trigger] m2.archetypes@[shifted(a, l, pruned)]
                == if a == l { a1 } else { m0.archetypes@[a] } by {}
        assert forall|rr: int| 0 <= rr < a0.entities@.len() && rr != r implies #[trigger] a1.entities@[shifted(rr, r, true)]
            == a0.entities@[rr] && a1.row(shifted(rr, r, true)) == a0.row(rr) by {
            assert(a1.row_pairs(shifted(rr, r, true)) =~= a0.row_pairs(rr));
        }
        // Entries other than `t` are for other entities.
        assert forall|i: int| 0 <= i < m2.entities@.len() implies (#[trigger] m0.entities@.remove(t)[i]) == m0.entities@[if i < t { i } else { i + 1 }]
            && m0.entities@[if i < t { i } else { i + 1 }].id != id by {
            let oi = if i < t { i } else { i + 1 };
            assert(m0.entities@[oi].id != m0.entities@[t].id);
        }
        // Archetypes.
        assert forall|a2: int| 0 <= a2 < m2.archetypes@.len() implies {
            &&& (#[trigger] m2.archetypes@[a2]).wf()
            &&& m2.archetypes@[a2].entities@.len() > 0
            &&& m2.archetypes@[a2].components@.len() > 0
        } by {
            let a = if pruned && a2 >= l { a2 + 1 } else { a2 };
            assert(shifted(a, l, pruned) == a2);
        }
        assert forall|x1: int, x2: int|
            0 <= x1 < m2.archetypes@.len() && 0 <= x2 < m2.archetypes@.len() && x1 != x2 implies (
            #[trigger] m2.archetypes@[x1]).type_set() != (#[trigger] m2.archetypes@[x2]).type_set() by {
            let o1 = if pruned && x1 >= l { x1 + 1 } else { x1 };
            let o2 = if pruned && x2 >= l { x2 + 1 } else { x2 };
            assert(shifted(o1, l, pruned) == x1);
            assert(shifted(o2, l, pruned) == x2);
            assert(m0.archetypes@[o1].type_set() != m0.archetypes@[o2].type_set());
        }
        assert(m2.archetypes_wf());
        // Entries.
        assert forall|i: int| 0 <= i < m2.entities@.len() implies {
            &&& (#[trigger] m2.entities@[i]).entity_location < m2.archetypes@.len()
            &&& m2.archetypes@[m2.entities@[i].entity_location as int].entities@.contains(
                m2.entities@[i].id,
            )
            &&& m2.entities@[i].id < m2.next_id
        } by {
            let oi = if i < t { i } else { i + 1 };
            let x = m0.entities@[oi].id;
            let lo = m0.entities@[oi].entity_location as int;
            assert(m0.entities@.remove(t)[i] == m0.entities@[oi]);
            assert(m0.archetypes@[lo].entities@.contains(x));
            let ro = choose|ro: int| 0 <= ro < m0.archetypes@[lo].entities@.len() && m0.archetypes@[lo].entities@[ro] == x;
            if lo == l {
                assert(ro != r);
                assert(a1.entities@[shifted(ro, r, true)] == x);
                assert(!pruned);
            }
            assert(m2.archetypes@[shifted(lo, l, pruned)].entities@.contains(x));
        }
        assert(m2.entries_located());
        assert forall|i1: int, i2: int|
            0 <= i1 < m2.entities@.len() && 0 <= i2 < m2.entities@.len() && i1 != i2 implies (
            #[trigger] m2.entities@[i1]).id != (#[trigger] m2.entities@[i2]).id by {
            let o1 = if i1 < t { i1 } else { i1 + 1 };
            let o2 = if i2 < t { i2 } else { i2 + 1 };
            assert(m0.entities@.remove(t)[i1] == m0.entities@[o1]);
            assert(m0.entities@.remove(t)[i2] == m0.entities@[o2]);
        }
        assert(m2.entry_ids_distinct());
        // Rows, and the view.
        assert forall|a2: int, r2: int|
            #![trigger m2.archetypes@[a2].entities@[r2]]
            0 <= a2 < m2.archetypes@.len() && 0 <= r2 < m2.archetypes@[a2].entities@.len() implies {
                &&& m2.tracks(m2.archetypes@[a2].entities@[r2])
                &&& m2.location_of(m2.archetypes@[a2].entities@[r2]) == a2
                &&& m0.tracks(m2.archetypes@[a2].entities@[r2])
                &&& m2.archetypes@[a2].entities@[r2] != id
            } by {
            let a = if pruned && a2 >= l { a2 + 1 } else { a2 };
            assert(shifted(a, l, pruned) == a2);
            let ro = if a == l { if r2 < r { r2 } else { r2 + 1 } } else { r2 };
            if a == l {
                assert(shifted(ro, r, true) == r2);
            }
            let x = m2.archetypes@[a2].entities@[r2];
            assert(x == m0.archetypes@[a].entities@[ro]);
            assert(m0.tracks(x) && m0.location_of(x) == a);
            let ot = m0.table_index(x);
            m0.lemma_table_index(ot);
            if a != l {
                assert(x != id);
            } else {
                assert(x != id);
            }
            assert(ot != t);
            let nt = if ot < t { ot } else { ot - 1 };
            assert(m0.entities@.remove(t)[nt] == m0.entities@[ot]);
            assert(m2.entities@[nt].id == x);
            m2.lemma_table_index(nt);
        }
        assert(m2.rows_tracked());
        let expected = m0@.remove(id);
        assert forall|x: EntityId| #[trigger] m2@.contains_key(x) <==> expected.contains_key(x) by {
            if m2.tracks(x) {
                let i = choose|i: int| 0 <= i < m2.entities@.len() && #[trigger] m2.entities@[i].id == x;
                let oi = if i < t { i } else { i + 1 };
                assert(m0.entities@.remove(t)[i] == m0.entities@[oi]);
                assert(m0.tracks(x));
            }
            if m0.tracks(x) && x != id {
                let ot = choose|i: int| 0 <= i < m0.entities@.len() && #[trigger] m0.entities@[i].id == x;
                let nt = if ot < t { ot } else { ot - 1 };
                assert(ot != t);
                assert(m0.entities@.remove(t)[nt] == m0.entities@[ot]);
                assert(m2.entities@[nt].id == x);
            }
        }
        assert forall|x: EntityId| #[trigger] m2@.contains_key(x) implies m2@[x] == expected[x] by {
            let i = m2.table_index(x);
            m2.lemma_table_index(i);
            let oi = if i < t { i } else { i + 1 };
            assert(m0.entities@.remove(t)[i] == m0.entities@[oi]);
            m0.lemma_table_index(oi);
            let lo = m0.entities@[oi].entity_location as int;
            let ro = m0.archetypes@[lo].row_of(x);
            assert(m0.archetypes@[lo].entities@.contains(x));
            assert(0 <= ro < m0.archetypes@[lo].entities@.len() && m0.archetypes@[lo].entities@[ro] == x);
            if lo == l {
                assert(ro != r);
                let r2 = shifted(ro, r, true);
                assert(a1.entities@[r2] == x);
                assert(!pruned);
                a1.lemma_row_of(x, r2);
            } else {
                m2.archetypes@[shifted(lo, l, pruned)].lemma_row_of(x, ro);
            }
        }
        assert(m2@ =~= expected);
    }

    /// Puts `row` as the new last row of entity `id` in the archetype of its type set, creating
    /// that archetype at the end when there is none. The entity table is left as it is.
    fn move_entity_to_other_archetype(&mut self, id: EntityId, row: MovedEntity<T>) -> (loc: usize)
        requires
            old(self).archetypes_wf(),
            distinct_keys(row@),
            row@.len() > 0,
            forall|a: int|
                0 <= a < old(self).archetypes@.len() ==> !(#[trigger] old(self).archetypes@[a]).entities@.contains(id),
        ensures
            final(self).archetypes_wf(),
            final(self).entities == old(self).entities,
            final(self).next_id == old(self).next_id,
            loc < final(self).archetypes@.len(),
            final(self).archetypes@.len() == old(self).archetypes@.len() || (
            final(self).archetypes@.len() == old(self).archetypes@.len() + 1 && loc
                == old(self).archetypes@.len()),
            forall|a: int|
                0 <= a < old(self).archetypes@.len() && a != loc ==> #[trigger] final(self).archetypes@[a]
                    == old(self).archetypes@[a],
            loc < old(self).archetypes@.len() ==> {
                &&& final(self).archetypes@[loc as int].entities@ == old(self).archetypes@[loc as int].entities@.push(id)
                &&& final(self).archetypes@[loc as int].type_set() == old(self).archetypes@[loc as int].type_set()
                &&& forall|r: int|
                    0 <= r < old(self).archetypes@[loc as int].entities@.len()
                        ==> #[trigger] final(self).archetypes@[loc as int].row(r)
                        == old(self).archetypes@[loc as int].row(r)
            },
            loc == old(self).archetypes@.len() ==> final(self).archetypes@[loc as int].entities@ == seq![id],
            final(self).archetypes@[loc as int].type_set() == key_set(row@),
            final(self).archetypes@[loc as int].row(
                final(self).archetypes@[loc as int].entities@.len() - 1,
            ) == row_map(row@),
    {
        match self.archetype_index_for(&row) {
            Some(a) => {
                let ghost prev = self.archetypes@;
                self.archetypes[a].add_entity_migrated(id, row);
                proof {
                    assert forall|c: int|
                        0 <= c < self.archetypes@.len() && c != a implies #[trigger] self.archetypes@[c]
                            == prev[c] by {}
                    assert forall|a1: int, a2: int|
                        0 <= a1 < self.archetypes@.len() && 0 <= a2 < self.archetypes@.len() && a1
                            != a2 implies (#[trigger] self.archetypes@[a1]).type_set() != (
                    #[trigger] self.archetypes@[a2]).type_set() by {
                        assert(prev[a1].type_set() != prev[a2].type_set());
                    }
                    assert(self.archetypes@[a as int].components@.len() == prev[a as int].components@.len());
                }
                a
            },
            None => {
                let ghost prev = self.archetypes@;
                let ghost src = row@;
                let arch = Archetype::new_from_migration(id, row);
                self.archetypes.push(arch);
                proof {
                    assert forall|c: int|
                        0 <= c < self.archetypes@.len() && c != prev.len() implies #[trigger] self.archetypes@[c]
                            == prev[c] by {}
                    assert forall|a1: int, a2: int|
                        0 <= a1 < self.archetypes@.len() && 0 <= a2 < self.archetypes@.len() && a1
                            != a2 implies (#[trigger] self.archetypes@[a1]).type_set() != (
                    #[trigger] self.archetypes@[a2]).type_set() by {
                        if a1 < prev.len() && a2 < prev.len() {
                            assert(prev[a1].type_set() != prev[a2].type_set());
                        }
                    }
                    assert(arch.row_pairs(0).len() == src.len());
                }
                self.archetypes.len() - 1
            },
        }
    }

    /// Adds entity `id` with the components of `row`, entering it in the table at position `at`.
    fn insert_entity(&mut self, id: EntityId, row: MovedEntity<T>, at: usize) -> (e: Entity)
        requires
            old(self).wf(),
            !old(self)@.contains_key(id),
            id < old(self).next_id,
            distinct_keys(row@),
            row@.len() > 0,
            at <= old(self).entities@.len(),
        ensures
            final(self).wf(),
            final(self)@ == old(self)@.insert(id, row_map(row@)),
            final(self).next_id == old(self).next_id,
            e.id == id,
            final(self).entities@ == old(self).entities@.insert(at as int, e),
    {
        let ghost m0 = *self;
        let ghost src = row@;
        proof {
            self.lemma_untracked_absent(id);
        }
        let loc = self.move_entity_to_other_archetype(id, row);
        let e = Entity::new(id, loc);
        self.entities.insert(at, e);
        proof {
            let n0 = m0.archetypes@.len();
            let last = self.archetypes@[loc as int].entities@.len() - 1;
            assert forall|a: int, r: int|
                0 <= a < n0 && 0 <= r < m0.archetypes@[a].entities@.len() implies #[trigger] self.archetypes@[a].entities@[r]
                    == m0.archetypes@[a].entities@[r] && self.archetypes@[a].row(r) == m0.archetypes@[a].row(r) by {
                if a != loc {
                    assert(self.archetypes@[a] == m0.archetypes@[a]);
                }
            }
            assert forall|a: int| 0 <= a < n0 implies (#[trigger] self.archetypes@[a]).entities@.len()
                >= m0.archetypes@[a].entities@.len() by {
                if a != loc {
                    assert(self.archetypes@[a] == m0.archetypes@[a]);
                }
            }
            assert forall|a: int, r: int|
                0 <= a < self.archetypes@.len() && 0 <= r < self.archetypes@[a].entities@.len() implies
                (a == loc && r == last) || (a < n0 && r < m0.archetypes@[a].entities@.len()
                    && #[trigger] self.archetypes@[a].entities@[r] == m0.archetypes@[a].entities@[r]) by {
                if a != loc {
                    assert(self.archetypes@[a] == m0.archetypes@[a]);
                }
            }
            Self::lemma_insert_wf(m0, *self, e, at as int);
        }
        e
    }

    /// Creates an entity with the given bundle of components; it gets the next identifier and
    /// joins the archetype of its type set, which is created when there is none.
    pub fn create_entity(&mut self, components: MovedEntity<T>) -> (e: Entity)
        requires
            old(self).wf(),
            distinct_keys(components@),
            components@.len() > 0,
            old(self).next_id < EntityId::MAX,
        ensures
            final(self).wf(),
            e.id == old(self).next_id,
            final(self).next_id == old(self).next_id + 1,
            final(self)@ == old(self)@.insert(e.id, row_map(components@)),
            final(self).entities@ == old(self).entities@.push(e),
            (e.entity_location as int) < final(self).archetypes@.len(),
    {
        let id = self.next_id;
        proof {
            if self.tracks(id) {
                let t = choose|t: int| 0 <= t < self.entities@.len() && #[trigger] self.entities@[t].id == id;
            }
        }
        self.next_id = id + 1;
        proof {
            assert forall|t: int| 0 <= t < self.entities@.len() implies {
                &&& (#[trigger] self.entities@[t]).entity_location < self.archetypes@.len()
                &&& self.archetypes@[self.entities@[t].entity_location as int].entities@.contains(
                    self.entities@[t].id,
                )
                &&& self.entities@[t].id < self.next_id
            } by {}
            assert(self@ == old(self)@);
        }
        let at = self.entities.len();
        let e = self.insert_entity(id, components, at);
        proof {
            assert(self.entities@ =~= old(self).entities@.push(e));
            assert(self.entities@[at as int] == e);
        }
        e
    }

    /// Removes the entity at table entry `t` together with its row, dropping its archetype when
    /// that becomes empty, and returns the entity's components.
    fn extract_entity(&mut self, t: usize) -> (moved: MovedEntity<T>)
        requires
            old(self).wf(),
            t < old(self).entities@.len(),
        ensures
            final(self).wf(),
            final(self)@ == old(self)@.remove(old(self).entities@[t as int].id),
            row_map(moved@) == old(self)@[old(self).entities@[t as int].id],
            distinct_keys(moved@),
            moved@.len() > 0,
            final(self).next_id == old(self).next_id,
            final(self).entities@.len() == old(self).entities@.len() - 1,
            forall|i: int|
                0 <= i < final(self).entities@.len() ==> (#[trigger] final(self).entities@[i]).id
                    == old(self).entities@.remove(t as int)[i].id,
    {
        let ghost m0 = *self;
        let e = self.entities[t];
        let l = e.entity_location;
        proof {
            m0.lemma_table_index(t as int);
            m0.lemma_view_entry(t as int);
            assert(m0.archetypes@[l as int].wf());
        }
        let moved = match self.archetypes[l].migrate_entity_to_other_archetype(e.id) {
            Ok((_, moved)) => moved,
            Err(_) => {
                proof {
                    assert(false);
                }
                Vec::new()
            },
        };
        let ghost a1 = self.archetypes@[l as int];
        proof {
            let a0 = m0.archetypes@[l as int];
            lemma_same_keys(a0.components@, moved@);
            assert(row_map(moved@) == a0.row(a0.row_of(e.id)));
        }
        self.entities.remove(t);
        let pruned = self.archetypes[l].is_empty();
        assert(self.archetypes@ =~= m0.archetypes@.update(l as int, a1));
        if pruned {
            self.archetypes.remove(l);
            assert(self.archetypes@ =~= m0.archetypes@.remove(l as int));
            let ghost pre = self.entities@;
            let mut i: usize = 0;
            while i < self.entities.len()
                invariant
                    self.entities@.len() == pre.len(),
                    i <= pre.len(),
                    self.archetypes@ == m0.archetypes@.remove(l as int),
                    self.next_id == m0.next_id,
                    forall|c: int|
                        0 <= c < pre.len() ==> (#[trigger] self.entities@[c]).id == pre[c].id
                            && self.entities@[c].entity_location as int == if c < i {
                            shifted(pre[c].entity_location as int, l as int, true)
                        } else {
                            pre[c].entity_location as int
                        },
                decreases pre.len() - i,
            {
                let mut x = self.entities[i];
                if x.entity_location > l {
                    x.entity_location = x.entity_location - 1;
                    self.entities.set(i, x);
                }
                i += 1;
            }
        }
        proof {
            assert(self.archetypes@ == if pruned {
                m0.archetypes@.remove(l as int)
            } else {
                m0.archetypes@.update(l as int, a1)
            });
            Self::lemma_extract_wf(m0, *self, t as int, a1, pruned);
        }
        moved
    }

    /// Destroys `entity` with its row; an archetype left empty is dropped.
    pub fn remove_entity(&mut self, entity: Entity) -> (r: Result<(), ArchetypeError>)
        requires
            old(self).wf(),
        ensures
            final(self).wf(),
            final(self).next_id == old(self).next_id,
            r.is_ok() <==> old(self)@.contains_key(entity.id),
            r.is_ok() ==> final(self)@ == old(self)@.remove(entity.id),
            r.is_err() ==> r == Err::<(), ArchetypeError>(ArchetypeError::EntityNotFound)
                && *final(self) == *old(self),
    {
        match self.find_entity(entity.id) {
            Some(t) => {
                let _ = self.extract_entity(t);
                Ok(())
            },
            None => Err(ArchetypeError::EntityNotFound),
        }
    }

    /// Adds component `component` of type `type_id` to `entity` (replacing a value of that type it
    /// already has) and moves the entity to the archetype of its new type set.
    pub fn add_component_to_entity(&mut self, entity: Entity, type_id: TypeKey, component: T) -> (r:
        Result<(), ArchetypeError>)
        requires
            old(self).wf(),
        ensures
            final(self).wf(),
            final(self).next_id == old(self).next_id,
            r.is_ok() <==> old(self)@.contains_key(entity.id),
            r.is_ok() ==> final(self)@ == view_add_component(old(self)@, entity.id, type_id, component),
            r.is_err() ==> r == Err::<(), ArchetypeError>(ArchetypeError::EntityNotFound)
                && *final(self) == *old(self),
    {
        match self.find_entity(entity.id) {
            Some(t) => {
                let ghost v0 = self@;
                let moved = self.extract_entity(t);
                let moved = with_component(moved, type_id, component);
                proof {
                    assert(!self@.contains_key(entity.id));
                    self.lemma_tracked_below(entity.id, old(self));
                }
                let _ = self.insert_entity(entity.id, moved, t);
                proof {
                    assert(self@ =~= view_add_component(v0, entity.id, type_id, component));
                }
                Ok(())
            },
            None => Err(ArchetypeError::EntityNotFound),
        }
    }

    /// Removes the component of type `type_id` from `entity` and moves the entity to the archetype
    /// of its new type set; an entity left with no component is deleted.
    pub fn remove_component(&mut self, entity: Entity, type_id: TypeKey) -> (r: Result<
        (),
        ArchetypeError,
    >)
        requires
            old(self).wf(),
        ensures
            final(self).wf(),
            final(self).next_id == old(self).next_id,
            r.is_ok() <==> old(self)@.contains_key(entity.id),
            r.is_ok() ==> final(self)@ == view_remove_component(old(self)@, entity.id, type_id),
            r.is_err() ==> r == Err::<(), ArchetypeError>(ArchetypeError::EntityNotFound)
                && *final(self) == *old(self),
    {
        match self.find_entity(entity.id) {
            Some(t) => {
                let ghost v0 = self@;
                let moved = self.extract_entity(t);
                let moved = without_component(moved, type_id);
                proof {
                    lemma_row_map_empty(moved@);
                }
                if moved.len() > 0 {
                    proof {
                        self.lemma_tracked_below(entity.id, old(self));
                    }
                    let _ = self.insert_entity(entity.id, moved, t);
                    proof {
                        assert(self@ =~= view_remove_component(v0, entity.id, type_id));
                    }
                } else {
                    proof {
                        assert(self@ =~= view_remove_component(v0, entity.id, type_id));
                    }
                }
                Ok(())
            },
            None => Err(ArchetypeError::EntityNotFound),
        }
    }

    /// The value of type `type_id` held by `entity`.
    pub fn get_component(&self, entity: Entity, type_id: TypeKey) -> (r: Result<&T, QueryError>)
        requires
            self.wf(),
        ensures
            !self@.contains_key(entity.id) ==> r == Err::<&T, QueryError>(
                QueryError::EntityNotFound(entity.id),
            ),
            self@.contains_key(entity.id) && !self@[entity.id].contains_key(type_id) ==> r == Err::<
                &T,
                QueryError,
            >(QueryError::ComponentNotFound(type_id)),
            self@.contains_key(entity.id) && self@[entity.id].contains_key(type_id) ==> r == Ok::<
                &T,
                QueryError,
            >(&self@[entity.id][type_id]),
    {
        match self.find_entity(entity.id) {
            Some(t) => {
                let loc = self.entities[t].entity_location;
                proof {
                    self.lemma_view_entry(t as int);
                }
                let arch = &self.archetypes[loc];
                match arch.entity_row(entity.id) {
                    Some(row) => {
                        proof {
                            arch.lemma_row_entry(row as int, type_id);
                        }
                        match arch.get_component(type_id, row) {
                            Some(c) => Ok(c),
                            None => Err(QueryError::ComponentNotFound(type_id)),
                        }
                    },
                    None => {
                        proof {
                            assert(false);
                        }
                        Err(QueryError::EntityNotFound(entity.id))
                    },
                }
            },
            None => Err(QueryError::EntityNotFound(entity.id)),
        }
    }

    /// A mutable reference to the value of type `type_id` held by `entity`; writing through it
    /// changes that one component and nothing else.
    pub fn get_component_mut(&mut self, entity: Entity, type_id: TypeKey) -> (r: Result<
        &mut T,
        QueryError,
    >)
        requires
            old(self).wf(),
        ensures
            !old(self)@.contains_key(entity.id) ==> r == Err::<&mut T, QueryError>(
                QueryError::EntityNotFound(entity.id),
            ) && *final(self) == *old(self),
            old(self)@.contains_key(entity.id) && !old(self)@[entity.id].contains_key(type_id) ==> r
                == Err::<&mut T, QueryError>(QueryError::ComponentNotFound(type_id)) && *final(self)
                == *old(self),
            old(self)@.contains_key(entity.id) && old(self)@[entity.id].contains_key(type_id) ==> {
                &&& r.is_ok()
                &&& *r.unwrap() == old(self)@[entity.id][type_id]
                &&& final(self).wf()
                &&& final(self).next_id == old(self).next_id
                &&& final(self)@ == view_add_component(
                    old(self)@,
                    entity.id,
                    type_id,
                    *final(r.unwrap()),
                )
            },
    {
        match self.find_entity(entity.id) {
            Some(t) => {
                let loc = self.entities[t].entity_location;
                proof {
                    self.lemma_view_entry(t as int);
                }
                match self.archetypes[loc].entity_row(entity.id) {
                    Some(row) => {
                        proof {
                            self.archetypes@[loc as int].lemma_row_entry(row as int, type_id);
                        }
                        if self.archetypes[loc].has_type(type_id) {
                            let ghost m0 = *self;
                            let c = self.archetypes[loc].get_component_mut(type_id, row).unwrap();
                            proof {
                                Self::lemma_cell_update(m0, after_borrow(*self), t as int, row as int, type_id, *final(c));
                            }
                            Ok(c)
                        } else {
                            Err(QueryError::ComponentNotFound(type_id))
                        }
                    },
                    None => {
                        proof {
                            assert(false);
                        }
                        Err(QueryError::EntityNotFound(entity.id))
                    },
                }
            },
            None => Err(QueryError::EntityNotFound(entity.id)),
        }
    }
}

impl<T> Default for EntityManager<T> {
    fn default() -> (r: Self)
        ensures
            r.wf(),
            r@ == Map::<EntityId, Map<TypeKey, T>>::empty(),
            r.next_id == 0,
    {
        Self::new()
    }
}

impl<T> View for EntityManager<T> {
    type V = Map<EntityId, Map<TypeKey, T>>;

    /// Each live entity with its per-type component values.
    open spec fn view(&self) -> Map<EntityId, Map<TypeKey, T>> {
        Map::new(|id: EntityId| self.tracks(id), |id: EntityId| self.components_of(id))
    }
}

} // verus!
