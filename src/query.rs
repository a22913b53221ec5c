use vstd::prelude::*;
use crate::archetype::Archetype;
use crate::component::TypeKey;
use crate::entity::EntityId;

verus! {

/// Archetype `a` takes part in a query: it has every required type, none of the excluded
/// types, and at least one row.
pub open spec fn archetype_matches<T>(a: Archetype<T>, req: Seq<TypeKey>, exc: Seq<TypeKey>) -> bool {
    &&& forall|i: int| 0 <= i < req.len() ==> a.type_set().contains(#[trigger] req[i])
    &&& forall|i: int| 0 <= i < exc.len() ==> !a.type_set().contains(#[trigger] exc[i])
    &&& a.entities@.len() > 0
}

/// The values of row `r` of archetype `a` for the required types, in their order.
pub open spec fn row_values<T>(a: Archetype<T>, req: Seq<TypeKey>, r: int) -> Seq<T> {
    Seq::new(req.len(), |i: int| a.column(req[i])[r])
}

/// All rows of archetype `a` as query results.
pub open spec fn archetype_rows<T>(a: Archetype<T>, req: Seq<TypeKey>) -> Seq<Seq<T>> {
    Seq::new(a.entities@.len(), |r: int| row_values(a, req, r))
}

/// What a query returns over `archs`: for each matching archetype in order, each of its rows in
/// order, as the values of the required types.
pub open spec fn query_rows<T>(archs: Seq<Archetype<T>>, req: Seq<TypeKey>, exc: Seq<TypeKey>) -> Seq<
    Seq<T>,
>
    decreases archs.len(),
{
    if archs.len() == 0 {
        Seq::empty()
    } else {
        let prev = query_rows(archs.drop_last(), req, exc);
        if archetype_matches(archs.last(), req, exc) {
            prev + archetype_rows(archs.last(), req)
        } else {
            prev
        }
    }
}

/// The entity of each row that a query returns over `archs`, in the same order as `query_rows`.
pub open spec fn query_entities<T>(
    archs: Seq<Archetype<T>>,
    req: Seq<TypeKey>,
    exc: Seq<TypeKey>,
) -> Seq<EntityId>
    decreases archs.len(),
{
    if archs.len() == 0 {
        Seq::empty()
    } else {
        let prev = query_entities(archs.drop_last(), req, exc);
        if archetype_matches(archs.last(), req, exc) {
            prev + archs.last().entities@
        } else {
            prev
        }
    }
}

/// A type set that has every required type and none of the excluded ones.
pub open spec fn selects(types: Set<TypeKey>, req: Seq<TypeKey>, exc: Seq<TypeKey>) -> bool {
    &&& forall|i: int| 0 <= i < req.len() ==> types.contains(#[trigger] req[i])
    &&& forall|i: int| 0 <= i < exc.len() ==> !types.contains(#[trigger] exc[i])
}

/// The values behind a sequence of rows of references.
pub open spec fn deref_rows<T>(rows: Seq<Vec<&T>>) -> Seq<Seq<T>> {
    Seq::new(rows.len(), |i: int| Seq::new(rows[i]@.len(), |j: int| *rows[i]@[j]))
}

/// The component types a query leaves out.
pub struct Without {
    pub types: Vec<TypeKey>,
}

impl Without {
    pub fn new(types: Vec<TypeKey>) -> (r: Self)
        ensures
            r.types@ == types@,
    {
        Without { types }
    }
}

/// A request for the rows of every archetype that has all of `types` and none of the types of
/// `constraint`, over a borrowed archetype collection.
///
/// The rows it returns borrow the archetypes, so no structural change can happen while they are
/// held; changes wanted meanwhile go into a `CommandQueue` and are applied afterwards.
pub struct Query<'a, T> {
    pub archetypes: &'a Vec<Archetype<T>>,
    pub types: Vec<TypeKey>,
    pub constraint: Without,
}

impl<'a, T> Query<'a, T> {
    /// The query's required and excluded types are disjoint.
    pub open spec fn filters_disjoint(types: Seq<TypeKey>, excluded: Seq<TypeKey>) -> bool {
        forall|i: int, j: int|
            0 <= i < types.len() && 0 <= j < excluded.len() ==> #[trigger] types[i]
                != #[trigger] excluded[j]
    }

    pub fn new(archetypes: &'a Vec<Archetype<T>>, types: Vec<TypeKey>, constraint: Without) -> (r:
        Self)
        requires
            Self::filters_disjoint(types@, constraint.types@),
        ensures
            r.archetypes == archetypes,
            r.types@ == types@,
            r.constraint.types@ == constraint.types@,
    {
        Query { archetypes, types, constraint }
    }

    /// Whether the query selects archetype `arch`.
    fn matches(&self, arch: &Archetype<T>) -> (r: bool)
        ensures
            r == archetype_matches(*arch, self.types@, self.constraint.types@),
    {
        if arch.is_empty() {
            return false;
        }
        let mut i: usize = 0;
        while i < self.types.len()
            invariant
                i <= self.types@.len(),
                forall|c: int| 0 <= c < i ==> arch.type_set().contains(#[trigger] self.types@[c]),
            decreases self.types@.len() - i,
        {
            if !arch.has_type(self.types[i]) {
                return false;
            }
            i += 1;
        }
        let mut j: usize = 0;
        while j < self.constraint.types.len()
            invariant
                j <= self.constraint.types@.len(),
                forall|c: int|
                    0 <= c < j ==> !arch.type_set().contains(#[trigger] self.constraint.types@[c]),
            decreases self.constraint.types@.len() - j,
        {
            if arch.has_type(self.constraint.types[j]) {
                return false;
            }
            j += 1;
        }
        true
    }

    /// One result row: references to the values of the required types in row `r` of `arch`.
    fn fetch_row(&self, arch: &'a Archetype<T>, r: usize) -> (row: Vec<&'a T>)
        requires
            arch.wf(),
            archetype_matches(*arch, self.types@, self.constraint.types@),
            r < arch.entities@.len(),
        ensures
            Seq::new(row@.len(), |j: int| *row@[j]) == row_values(*arch, self.types@, r as int),
    {
        let mut row: Vec<&'a T> = Vec::new();
        let mut i: usize = 0;
        while i < self.types.len()
            invariant
                arch.wf(),
                archetype_matches(*arch, self.types@, self.constraint.types@),
                r < arch.entities@.len(),
                i <= self.types@.len(),
                row@.len() == i,
                forall|c: int| 0 <= c < i ==> *(#[trigger] row@[c]) == arch.column(self.types@[c])[r as int],
            decreases self.types@.len() - i,
        {
            assert(arch.type_set().contains(self.types@[i as int]));
            match arch.get_component(self.types[i], r) {
                Some(c) => row.push(c),
                None => {
                    proof {
                        assert(false);
                    }
                },
            }
            i += 1;
        }
        assert(Seq::new(row@.len(), |j: int| *row@[j]) =~= row_values(*arch, self.types@, r as int));
        row
    }

    /// The rows of every matching archetype, archetype by archetype in collection order, row by
    /// row in row order; each row holds references to the required types' values in the
    /// order of `types`. No match gives an empty result.
    pub fn fetch(&self) -> (rows: Vec<Vec<&'a T>>)
        requires
            forall|a: int| 0 <= a < self.archetypes@.len() ==> (#[trigger] self.archetypes@[a]).wf(),
        ensures
            deref_rows(rows@) == query_rows(self.archetypes@, self.types@, self.constraint.types@),
    {
        let archetypes: &'a Vec<Archetype<T>> = self.archetypes;
        let ghost req = self.types@;
        let ghost exc = self.constraint.types@;
        let mut rows: Vec<Vec<&'a T>> = Vec::new();
        let mut a: usize = 0;
        while a < archetypes.len()
            invariant
                archetypes == self.archetypes,
                req == self.types@,
                exc == self.constraint.types@,
                a <= archetypes@.len(),
                forall|c: int| 0 <= c < archetypes@.len() ==> (#[trigger] archetypes@[c]).wf(),
                deref_rows(rows@) == query_rows(archetypes@.take(a as int), req, exc),
            decreases archetypes@.len() - a,
        {
            let arch: &'a Archetype<T> = &archetypes[a];
            let ghost before = deref_rows(rows@);
            proof {
                assert(archetypes@.take(a + 1).drop_last() =~= archetypes@.take(a as int));
                assert(archetypes@.take(a + 1).last() == *arch);
            }
            if self.matches(arch) {
                let mut r: usize = 0;
                while r < arch.entities.len()
                    invariant
                        arch.wf(),
                        archetype_matches(*arch, req, exc),
                        req == self.types@,
                        exc == self.constraint.types@,
                        r <= arch.entities@.len(),
                        deref_rows(rows@) == before + archetype_rows(*arch, req).take(r as int),
                    decreases arch.entities@.len() - r,
                {
                    let row = self.fetch_row(arch, r);
                    let ghost prev_rows = rows@;
                    rows.push(row);
                    proof {
                        assert(deref_rows(rows@) =~= deref_rows(prev_rows).push(
                            Seq::new(row@.len(), |j: int| *row@[j]),
                        ));
                        assert(archetype_rows(*arch, req).take(r + 1) =~= archetype_rows(
                            *arch,
                            req,
                        ).take(r as int).push(row_values(*arch, req, r as int)));
                    }
                    r += 1;
                }
                proof {
                    assert(archetype_rows(*arch, req).take(r as int) =~= archetype_rows(*arch, req));
                }
            }
            a += 1;
        }
        proof {
            assert(archetypes@.take(a as int) =~= archetypes@);
        }
        rows
    }

    /// The entity of each row that `fetch` returns, in the same order.
    pub fn fetch_entities(&self) -> (ids: Vec<EntityId>)
        ensures
            ids@ == query_entities(self.archetypes@, self.types@, self.constraint.types@),
    {
        let archetypes: &'a Vec<Archetype<T>> = self.archetypes;
        let ghost req = self.types@;
        let ghost exc = self.constraint.types@;
        let mut ids: Vec<EntityId> = Vec::new();
        let mut a: usize = 0;
        while a < archetypes.len()
            invariant
                archetypes == self.archetypes,
                req == self.types@,
                exc == self.constraint.types@,
                a <= archetypes@.len(),
                ids@ == query_entities(archetypes@.take(a as int), req, exc),
            decreases archetypes@.len() - a,
        {
            let arch: &'a Archetype<T> = &archetypes[a];
            let ghost before = ids@;
            proof {
                assert(archetypes@.take(a + 1).drop_last() =~= archetypes@.take(a as int));
                assert(archetypes@.take(a + 1).last() == *arch);
            }
            if self.matches(arch) {
                let mut r: usize = 0;
                while r < arch.entities.len()
                    invariant
                        r <= arch.entities@.len(),
                        ids@ == before + arch.entities@.take(r as int),
                    decreases arch.entities@.len() - r,
                {
                    ids.push(arch.entities[r]);
                    proof {
                        assert(arch.entities@.take(r + 1) =~= arch.entities@.take(r as int).push(
                            arch.entities@[r as int],
                        ));
                    }
                    r += 1;
                }
                proof {
                    assert(arch.entities@.take(r as int) =~= arch.entities@);
                }
            }
            a += 1;
        }
        proof {
            assert(archetypes@.take(a as int) =~= archetypes@);
        }
        ids
    }

    /// The same rows as `fetch`.
    pub fn iter(&self) -> (rows: Vec<Vec<&'a T>>)
        requires
            forall|a: int| 0 <= a < self.archetypes@.len() ==> (#[trigger] self.archetypes@[a]).wf(),
        ensures
            deref_rows(rows@) == query_rows(self.archetypes@, self.types@, self.constraint.types@),
    {
        self.fetch()
    }
}

} // verus!
