use vstd::prelude::*;
use crate::component::{
    distinct_keys, has_key, key_index, key_set, lemma_key_index, lemma_row_map_at,
    lemma_row_map_dom, lemma_row_map_of_pairs, lemma_same_keys, position_of_key, row_map,
    ComponentList, MovedEntity, TypeKey,
};
use crate::entity::EntityId;
use crate::error::ArchetypeError;

verus! {

/// A group of entities that share one component type set, stored as parallel columns.
pub struct Archetype<T> {
    /// One column per type key, keys pairwise distinct.
    pub components: Vec<(TypeKey, ComponentList<T>)>,
    /// The entity occupying each row.
    pub entities: Vec<EntityId>,
}

impl<T> Archetype<T> {
    /// The archetype's type set.
    pub open spec fn type_set(&self) -> Set<TypeKey> {
        key_set(self.components@)
    }

    /// The column stored under key `k` (meaningful when the archetype has that key).
    pub open spec fn column(&self, k: TypeKey) -> Seq<T> {
        self.components@[key_index(self.components@, k)].1@
    }

    /// Row `r` as a keyed row, in column order.
    pub open spec fn row_pairs(&self, r: int) -> Seq<(TypeKey, T)> {
        Seq::new(
            self.components@.len(),
            |j: int| (self.components@[j].0, self.components@[j].1@[r]),
        )
    }

    /// Row `r` as a map from type key to value.
    pub open spec fn row(&self, r: int) -> Map<TypeKey, T> {
        row_map(self.row_pairs(r))
    }

    /// The row holding entity `id` (meaningful when the entity is resident).
    pub open spec fn row_of(&self, id: EntityId) -> int {
        choose|r: int| 0 <= r < self.entities@.len() && self.entities@[r] == id
    }

    /// Columns have distinct keys and as many rows as the entity list; no entity occurs twice.
    pub open spec fn wf(&self) -> bool {
        &&& distinct_keys(self.components@)
        &&& forall|j: int|
            0 <= j < self.components@.len() ==> (#[trigger] self.components@[j]).1@.len()
                == self.entities@.len()
        &&& self.entities@.no_duplicates()
    }

    /// In a well-formed archetype, the entity at row `r` has its row at `r`.
    pub proof fn lemma_row_of(&self, id: EntityId, r: int)
        requires
            self.wf(),
            0 <= r < self.entities@.len(),
            self.entities@[r] == id,
        ensures
            self.row_of(id) == r,
    {
        let c = self.row_of(id);
        assert(self.entities@[c] == id);
    }

    /// A row's map has the archetype's types as keys, and each value is that column's cell.
    pub proof fn lemma_row_entry(&self, r: int, k: TypeKey)
        requires
            self.wf(),
            0 <= r < self.entities@.len(),
        ensures
            self.row(r).contains_key(k) == self.type_set().contains(k),
            self.type_set().contains(k) ==> self.row(r)[k] == self.column(k)[r],
    {
        let p = self.row_pairs(r);
        lemma_same_keys(self.components@, p);
        lemma_row_map_dom(p);
        if self.type_set().contains(k) {
            let j = choose|j: int| 0 <= j < self.components@.len() && #[trigger] self.components@[j].0 == k;
            lemma_key_index(self.components@, j);
            lemma_row_map_at(p, j);
        }
    }

    /// Creates an archetype holding one entity with the given bundle of components.
    pub fn new(entity_id: EntityId, components: MovedEntity<T>) -> (r: Self)
        requires
            distinct_keys(components@),
        ensures
            r.wf(),
            r.entities@ == seq![entity_id],
            r.row_pairs(0) == components@,
            r.row(0) == row_map(components@),
            r.type_set() == key_set(components@),
    {
        Self::new_from_migration(entity_id, components)
    }

    /// Creates an archetype whose single row is a row taken out of another archetype.
    pub fn new_from_migration(entity_id: EntityId, components: MovedEntity<T>) -> (r: Self)
        requires
            distinct_keys(components@),
        ensures
            r.wf(),
            r.entities@ == seq![entity_id],
            r.row_pairs(0) == components@,
            r.row(0) == row_map(components@),
            r.type_set() == key_set(components@),
    {
        let ghost src = components@;
        let mut components = components;
        let mut columns: Vec<(TypeKey, ComponentList<T>)> = Vec::new();
        // Taken from the back, then put in order by inserting at the front.
        while components.len() > 0
            invariant
                components@ == src.take(components@.len() as int),
                components@.len() <= src.len(),
                columns@.len() == src.len() - components@.len(),
                forall|j: int|
                    0 <= j < columns@.len() ==> (#[trigger] columns@[j]).0 == src[components@.len()
                        + j].0 && columns@[j].1@ == seq![src[components@.len() + j].1],
            decreases components.len(),
        {
            let ghost n = components@.len();
            let (k, v) = components.pop().unwrap();
            let mut col = ComponentList::new();
            col.add(v);
            let ghost before = columns@;
            columns.insert(0, (k, col));
            assert forall|j: int| 0 <= j < columns@.len() implies (#[trigger] columns@[j]).0
                == src[components@.len() + j].0 && columns@[j].1@ == seq![
                src[components@.len() + j].1] by {
                if j > 0 {
                    assert(columns@[j] == before[j - 1]);
                }
            }
        }
        let r = Archetype { components: columns, entities: vec![entity_id] };
        assert(r.row_pairs(0) =~= src);
        proof {
            lemma_same_keys(r.components@, r.row_pairs(0));
        }
        r
    }

    /// Position of the column with key `k`, if there is one.
    pub fn column_index(&self, k: TypeKey) -> (r: Option<usize>)
        ensures
            r matches Some(j) ==> j < self.components@.len() && self.components@[j as int].0 == k,
            r.is_none() <==> !has_key(self.components@, k),
    {
        position_of_key(&self.components, k)
    }

    /// Appends a row for `entity_id`; `components` has one value for each of the archetype's
    /// types, and each value goes to the column of its type.
    pub fn add_entity_migrated(&mut self, entity_id: EntityId, components: MovedEntity<T>)
        requires
            old(self).wf(),
            distinct_keys(components@),
            key_set(components@) == old(self).type_set(),
            !old(self).entities@.contains(entity_id),
        ensures
            final(self).wf(),
            final(self).entities@ == old(self).entities@.push(entity_id),
            final(self).components@.len() == old(self).components@.len(),
            forall|j: int|
                0 <= j < old(self).components@.len() ==> (#[trigger] final(self).components@[j]).0
                    == old(self).components@[j].0 && final(self).components@[j].1@ == old(
                    self,
                ).components@[j].1@.push(row_map(components@)[old(self).components@[j].0]),
            final(self).type_set() == old(self).type_set(),
            forall|r: int| 0 <= r < old(self).entities@.len() ==> #[trigger] final(self).row(r) == old(self).row(r),
            final(self).row(old(self).entities@.len() as int) == row_map(components@),
    {
        let ghost src = components@;
        let ghost start = self.components@;
        let mut components = components;
        proof {
            assert forall|j: int| 0 <= j < start.len() implies has_key(src, #[trigger] start[j].0) by {
                assert(has_key(start, start[j].0));
                assert(self.type_set().contains(start[j].0));
                assert(key_set(src).contains(start[j].0));
            }
        }
        while components.len() > 0
            invariant
                components@ == src.take(components@.len() as int),
                components@.len() <= src.len(),
                distinct_keys(src),
                distinct_keys(start),
                key_set(src) == key_set(start),
                self.entities@ == old(self).entities@,
                self.components@.len() == start.len(),
                forall|j: int| 0 <= j < start.len() ==> has_key(src, #[trigger] start[j].0),
                forall|j: int|
                    0 <= j < start.len() ==> (#[trigger] self.components@[j]).0 == start[j].0 && (
                    if key_index(src, start[j].0) >= components@.len() {
                        self.components@[j].1@ == start[j].1@.push(src[key_index(src, start[j].0)].1)
                    } else {
                        self.components@[j].1@ == start[j].1@
                    }),
            decreases components.len(),
        {
            let ghost n = components@.len();
            let (k, v) = components.pop().unwrap();
            proof {
                lemma_row_map_at(src, n - 1);
            }
            let ghost before = self.components@;
            match self.column_index(k) {
                Some(j) => {
                    self.components[j].1.add(v);
                    proof {
                        assert forall|i: int| 0 <= i < start.len() implies (
                        #[trigger] self.components@[i]).0 == start[i].0 && (if key_index(
                            src,
                            start[i].0,
                        ) >= components@.len() {
                            self.components@[i].1@ == start[i].1@.push(
                                src[key_index(src, start[i].0)].1,
                            )
                        } else {
                            self.components@[i].1@ == start[i].1@
                        }) by {
                            if i != j {
                                assert(self.components@[i] == before[i]);
                                let ki = key_index(src, start[i].0);
                                assert(src[ki].0 == start[i].0);
                                assert(ki != n - 1);
                            }
                        }
                    }
                },
                None => {
                    proof {
                        assert(has_key(src, k));
                        let ki = key_index(src, k);
                        assert(false) by {
                            assert(src[n - 1].0 == k);
                            assert(key_set(src).contains(k));
                            assert(key_set(start).contains(k));
                            let w = choose|w: int| 0 <= w < start.len() && #[trigger] start[w].0 == k;
                            assert(self.components@[w].0 == k);
                        }
                    }
                },
            }
        }
        self.entities.push(entity_id);
        proof {
            assert forall|j: int| 0 <= j < start.len() implies self.components@[j].1@ == start[j].1@.push(
                row_map(src)[start[j].0]) by {
                lemma_row_map_at(src, key_index(src, start[j].0));
            }
            assert(self.entities@.no_duplicates());
            lemma_same_keys(start, self.components@);
            assert forall|r: int| 0 <= r < old(self).entities@.len() implies #[trigger] self.row(r)
                == old(self).row(r) by {
                assert(self.row_pairs(r) =~= old(self).row_pairs(r));
            }
            let n = old(self).entities@.len() as int;
            let p = self.row_pairs(n);
            lemma_same_keys(self.components@, p);
            lemma_row_map_dom(src);
            lemma_row_map_of_pairs(p, row_map(src));
        }
    }

    /// `self` is `prev` with row `r` taken out of the entity list and of every column.
    pub open spec fn is_row_removed(&self, prev: &Self, r: int) -> bool {
        &&& self.entities@ == prev.entities@.remove(r)
        &&& self.components@.len() == prev.components@.len()
        &&& forall|j: int|
            0 <= j < prev.components@.len() ==> (#[trigger] self.components@[j]).0
                == prev.components@[j].0 && self.components@[j].1@ == prev.components@[j].1@.remove(r)
    }

    /// Appends a row for `entity_id` from a bundle with one value for each of the archetype's types.
    pub fn add_entity(&mut self, entity_id: EntityId, components: MovedEntity<T>)
        requires
            old(self).wf(),
            distinct_keys(components@),
            key_set(components@) == old(self).type_set(),
            !old(self).entities@.contains(entity_id),
        ensures
            final(self).wf(),
            final(self).entities@ == old(self).entities@.push(entity_id),
            final(self).components@.len() == old(self).components@.len(),
            forall|j: int|
                0 <= j < old(self).components@.len() ==> (#[trigger] final(self).components@[j]).0
                    == old(self).components@[j].0 && final(self).components@[j].1@ == old(
                    self,
                ).components@[j].1@.push(row_map(components@)[old(self).components@[j].0]),
            final(self).type_set() == old(self).type_set(),
            forall|r: int| 0 <= r < old(self).entities@.len() ==> #[trigger] final(self).row(r) == old(self).row(r),
            final(self).row(old(self).entities@.len() as int) == row_map(components@),
    {
        self.add_entity_migrated(entity_id, components);
    }

    /// The row of `entity_id`, if it is resident.
    pub fn entity_row(&self, entity_id: EntityId) -> (r: Option<usize>)
        requires
            self.wf(),
        ensures
            r.is_some() <==> self.entities@.contains(entity_id),
            r matches Some(i) ==> i == self.row_of(entity_id) && i < self.entities@.len()
                && self.entities@[i as int] == entity_id,
    {
        let mut i: usize = 0;
        while i < self.entities.len()
            invariant
                self.wf(),
                i <= self.entities@.len(),
                forall|j: int| 0 <= j < i ==> self.entities@[j] != entity_id,
            decreases self.entities@.len() - i,
        {
            if self.entities[i] == entity_id {
                proof {
                    assert(self.entities@[i as int] == entity_id);
                    let c = self.row_of(entity_id);
                    assert(self.entities@[c] == entity_id);
                    assert(self.entities@.no_duplicates());
                }
                return Some(i);
            }
            i += 1;
        }
        None
    }

    /// Takes row `i` out of every column and the entity list, returning the row's values.
    fn take_row(&mut self, i: usize) -> (moved: MovedEntity<T>)
        requires
            old(self).wf(),
            i < old(self).entities@.len(),
        ensures
            final(self).wf(),
            final(self).is_row_removed(old(self), i as int),
            moved@ == old(self).row_pairs(i as int),
    {
        let ghost start = *self;
        let mut moved: MovedEntity<T> = Vec::new();
        let mut j: usize = 0;
        while j < self.components.len()
            invariant
                start.wf(),
                i < start.entities@.len(),
                j <= self.components@.len(),
                self.entities@ == start.entities@,
                self.components@.len() == start.components@.len(),
                moved@.len() == j,
                forall|c: int|
                    0 <= c < j ==> #[trigger] moved@[c] == (
                    start.components@[c].0,
                    start.components@[c].1@[i as int],
                ),
                forall|c: int|
                    0 <= c < self.components@.len() ==> (#[trigger] self.components@[c]).0
                        == start.components@[c].0 && self.components@[c].1@ == if c < j {
                        start.components@[c].1@.remove(i as int)
                    } else {
                        start.components@[c].1@
                    },
            decreases self.components@.len() - j,
        {
            let ghost before = self.components@;
            let key = self.components[j].0;
            assert(start.components@[j as int].1@.len() == start.entities@.len());
            let v = self.components[j].1.remove(i);
            moved.push((key, v));
            proof {
                assert forall|c: int| 0 <= c < self.components@.len() implies (
                #[trigger] self.components@[c]).0 == start.components@[c].0
                    && self.components@[c].1@ == if c < j + 1 {
                    start.components@[c].1@.remove(i as int)
                } else {
                    start.components@[c].1@
                } by {
                    if c != j {
                        assert(self.components@[c] == before[c]);
                    }
                }
            }
            j += 1;
        }
        self.entities.remove(i);
        proof {
            assert(moved@ =~= start.row_pairs(i as int));
            assert forall|a: int, b: int|
                0 <= a < self.entities@.len() && 0 <= b < self.entities@.len() && a != b implies
                self.entities@[a] != self.entities@[b] by {
                let oa = if a < i { a } else { a + 1 };
                let ob = if b < i { b } else { b + 1 };
                assert(self.entities@[a] == start.entities@[oa]);
                assert(self.entities@[b] == start.entities@[ob]);
            }
            assert forall|c: int| 0 <= c < self.components@.len() implies
                (#[trigger] self.components@[c]).1@.len() == self.entities@.len() by {
                assert(start.components@[c].1@.len() == start.entities@.len());
            }
        }
        moved
    }

    /// Removes the row of `entity_id` and returns the entity with its per-type values.
    pub fn migrate_entity_to_other_archetype(&mut self, entity_id: EntityId) -> (r: Result<
        (EntityId, MovedEntity<T>),
        ArchetypeError,
    >)
        requires
            old(self).wf(),
        ensures
            final(self).wf(),
            r.is_ok() <==> old(self).entities@.contains(entity_id),
            r.is_err() ==> *final(self) == *old(self) && r == Err::<(EntityId, MovedEntity<T>), _>(
                ArchetypeError::EntityNotFound,
            ),
            r matches Ok((e, moved)) ==> e == entity_id && moved@ == old(self).row_pairs(
                old(self).row_of(entity_id),
            ) && final(self).is_row_removed(old(self), old(self).row_of(entity_id)),
    {
        match self.entity_row(entity_id) {
            Some(i) => {
                let moved = self.take_row(i);
                Ok((entity_id, moved))
            },
            None => Err(ArchetypeError::EntityNotFound),
        }
    }

    /// Removes the row of `entity_id`, discarding its values.
    pub fn remove_entity(&mut self, entity_id: EntityId) -> (r: Result<(), ArchetypeError>)
        requires
            old(self).wf(),
        ensures
            final(self).wf(),
            r.is_ok() <==> old(self).entities@.contains(entity_id),
            r.is_err() ==> *final(self) == *old(self) && r == Err::<(), _>(
                ArchetypeError::EntityNotFound,
            ),
            r.is_ok() ==> final(self).is_row_removed(old(self), old(self).row_of(entity_id)),
    {
        match self.entity_row(entity_id) {
            Some(i) => {
                let _ = self.take_row(i);
                Ok(())
            },
            None => Err(ArchetypeError::EntityNotFound),
        }
    }

    /// Whether the archetype has a column of type `type_id`.
    pub fn has_type(&self, type_id: TypeKey) -> (r: bool)
        ensures
            r == self.type_set().contains(type_id),
    {
        self.column_index(type_id).is_some()
    }

    /// Whether the archetype holds no rows.
    pub fn is_empty(&self) -> (r: bool)
        ensures
            r == (self.entities@.len() == 0),
    {
        self.entities.len() == 0
    }

    /// The value of type `type_id` in row `entity_index`, if both exist.
    pub fn get_component(&self, type_id: TypeKey, entity_index: usize) -> (r: Option<&T>)
        requires
            self.wf(),
        ensures
            (self.type_set().contains(type_id) && entity_index < self.entities@.len()) ==> r
                == Some(&self.column(type_id)[entity_index as int]),
            !(self.type_set().contains(type_id) && entity_index < self.entities@.len())
                ==> r.is_none(),
    {
        match self.column_index(type_id) {
            Some(j) => {
                proof {
                    lemma_key_index(self.components@, j as int);
                    assert(self.components@[j as int].1@.len() == self.entities@.len());
                }
                self.components[j].1.get(entity_index)
            },
            None => None,
        }
    }

    /// A mutable reference to the value of type `type_id` in row `entity_index`, if both exist;
    /// writes through it land in that cell and nowhere else.
    pub fn get_component_mut(&mut self, type_id: TypeKey, entity_index: usize) -> (r: Option<&mut T>)
        requires
            old(self).wf(),
        ensures
            !(old(self).type_set().contains(type_id) && entity_index < old(self).entities@.len())
                ==> r.is_none() && *final(self) == *old(self),
            (old(self).type_set().contains(type_id) && entity_index < old(self).entities@.len())
                ==> r.is_some() && *r.unwrap() == old(self).column(type_id)[entity_index as int]
                && final(self).entities == old(self).entities
                && final(self).components@.len() == old(self).components@.len()
                && (forall|j: int|
                0 <= j < old(self).components@.len() ==> (#[trigger] final(self).components@[j]).0
                    == old(self).components@[j].0 && final(self).components@[j].1@ == if j
                    == key_index(old(self).components@, type_id) {
                    old(self).components@[j].1@.update(entity_index as int, *final(r.unwrap()))
                } else {
                    old(self).components@[j].1@
                }),
    {
        match self.column_index(type_id) {
            Some(j) => {
                proof {
                    lemma_key_index(self.components@, j as int);
                    assert(self.components@[j as int].1@.len() == self.entities@.len());
                }
                if entity_index < self.entities.len() {
                    self.components[j].1.get_mut(entity_index)
                } else {
                    None
                }
            },
            None => None,
        }
    }
}

} // verus!
