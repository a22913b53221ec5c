//! Properties that hold of every manager and every query.
use vstd::prelude::*;
use crate::archetype::Archetype;
use crate::component::TypeKey;
use crate::entity::EntityId;
use crate::entity_manager::{view_add_component, view_remove_component, EntityManager};
use crate::query::{archetype_matches, archetype_rows, query_entities, query_rows, row_values, selects};

verus! {

/// The archetype recorded for a live entity holds it, and its type set is the entity's.
pub proof fn lemma_home<T>(m: &EntityManager<T>, id: EntityId)
    requires
        m.wf(),
        m@.contains_key(id),
    ensures
        0 <= m.location_of(id) < m.archetypes@.len(),
        m.archetypes@[m.location_of(id)].entities@.contains(id),
        m@[id].dom() == m.archetypes@[m.location_of(id)].type_set(),
{
    let t = m.table_index(id);
    assert(m.tracks(id));
    m.lemma_table_index(t);
    let l = m.location_of(id);
    let a = m.archetypes@[l];
    assert(a.entities@.contains(id));
    let r = a.row_of(id);
    assert(0 <= r < a.entities@.len() && a.entities@[r] == id);
    assert forall|k: TypeKey| #[trigger] m@[id].dom().contains(k) == a.type_set().contains(k) by {
        a.lemma_row_entry(r, k);
    }
    assert(m@[id].dom() =~= a.type_set());
}

/// Single residence: a live entity's recorded archetype holds it, and any row that holds it is
/// that one row of that archetype; an identifier with no live entity has no row at all.
pub proof fn lemma_single_row<T>(m: &EntityManager<T>, id: EntityId, a: int, r: int)
    requires
        m.wf(),
        0 <= a < m.archetypes@.len(),
        0 <= r < m.archetypes@[a].entities@.len(),
        m.archetypes@[a].entities@[r] == id,
    ensures
        m@.contains_key(id),
        a == m.location_of(id),
        r == m.archetypes@[m.location_of(id)].row_of(id),
{
    assert(m.tracks(id));
    m.archetypes@[a].lemma_row_of(id, r);
}

/// Partition: two distinct live entities share an archetype exactly when they have the same
/// component type set.
pub proof fn lemma_partition<T>(m: &EntityManager<T>, id1: EntityId, id2: EntityId)
    requires
        m.wf(),
        m@.contains_key(id1),
        m@.contains_key(id2),
        id1 != id2,
    ensures
        m.archetypes@[m.location_of(id1)].entities@.contains(id1),
        m.archetypes@[m.location_of(id2)].entities@.contains(id2),
        (m@[id1].dom() == m@[id2].dom()) <==> (m.location_of(id1) == m.location_of(id2)),
{
    lemma_home(m, id1);
    lemma_home(m, id2);
}

/// Migration round trip: adding a component type an entity lacks and then removing it gives
/// back the same entities with the same components, and the entity lives again in an archetype
/// with the type set it started in.
pub proof fn lemma_add_remove_round_trip<T>(
    m0: &EntityManager<T>,
    m1: &EntityManager<T>,
    m2: &EntityManager<T>,
    id: EntityId,
    k: TypeKey,
    c: T,
)
    requires
        m0.wf(),
        m1.wf(),
        m2.wf(),
        m0@.contains_key(id),
        !m0@[id].contains_key(k),
        m1@ == view_add_component(m0@, id, k, c),
        m2@ == view_remove_component(m1@, id, k),
    ensures
        m2@ == m0@,
        m2.archetypes@[m2.location_of(id)].type_set() == m0.archetypes@[m0.location_of(id)].type_set(),
{
    lemma_home(m0, id);
    let a = m0.archetypes@[m0.location_of(id)];
    let r = choose|r: int| 0 <= r < a.entities@.len() && a.entities@[r] == id;
    assert(a.components@.len() > 0);
    let k0 = a.components@[0].0;
    assert(a.type_set().contains(k0));
    assert(m0@[id].contains_key(k0));
    assert(m1@[id].remove(k) =~= m0@[id]);
    assert(m1@[id].remove(k) != Map::<TypeKey, T>::empty());
    assert(m2@ =~= m0@);
    lemma_home(m2, id);
}

/// Empty-match safety: a query that requires a type no archetype has returns no rows; in
/// particular a query over no archetypes returns no rows.
pub proof fn lemma_query_absent_type<T>(
    archs: Seq<Archetype<T>>,
    req: Seq<TypeKey>,
    exc: Seq<TypeKey>,
    i: int,
)
    requires
        0 <= i < req.len(),
        forall|a: int| 0 <= a < archs.len() ==> !(#[trigger] archs[a]).type_set().contains(req[i]),
    ensures
        query_rows(archs, req, exc) == Seq::<Seq<T>>::empty(),
    decreases archs.len(),
{
    if archs.len() > 0 {
        let prefix = archs.drop_last();
        assert forall|a: int| 0 <= a < prefix.len() implies !(#[trigger] prefix[a]).type_set().contains(
            req[i],
        ) by {
            assert(prefix[a] == archs[a]);
        }
        lemma_query_absent_type(prefix, req, exc, i);
        assert(!archs[archs.len() - 1].type_set().contains(req[i]));
        assert(!archetype_matches(archs.last(), req, exc));
    }
}

/// Empty-match safety over a manager: a manager with no live entity has no archetypes, so every
/// query over it returns no rows.
pub proof fn lemma_query_empty_manager<T>(m: &EntityManager<T>, req: Seq<TypeKey>, exc: Seq<TypeKey>)
    requires
        m.wf(),
        m@ == Map::<EntityId, Map<TypeKey, T>>::empty(),
    ensures
        m.archetypes@.len() == 0,
        query_rows(m.archetypes@, req, exc) == Seq::<Seq<T>>::empty(),
{
    if m.archetypes@.len() > 0 {
        assert(m.archetypes@[0].entities@.len() > 0);
        let id = m.archetypes@[0].entities@[0];
        assert(m.tracks(id));
        assert(m@.contains_key(id));
    }
}

/// The query over the first `n` archetypes of a manager: one row per entity of each matching
/// archetype, holding that entity's values, with no entity twice.
proof fn lemma_query_prefix<T>(m: &EntityManager<T>, req: Seq<TypeKey>, exc: Seq<TypeKey>, n: int)
    requires
        m.wf(),
        0 <= n <= m.archetypes@.len(),
    ensures
        ({
            let archs = m.archetypes@;
            let rows = query_rows(archs.take(n), req, exc);
            let ids = query_entities(archs.take(n), req, exc);
            &&& rows.len() == ids.len()
            &&& ids.no_duplicates()
            &&& forall|i: int|
                0 <= i < ids.len() ==> {
                    &&& m.tracks(#[trigger] ids[i])
                    &&& 0 <= m.location_of(ids[i]) < n
                    &&& archetype_matches(archs[m.location_of(ids[i])], req, exc)
                    &&& rows[i] == row_values(
                        archs[m.location_of(ids[i])],
                        req,
                        archs[m.location_of(ids[i])].row_of(ids[i]),
                    )
                }
            &&& forall|id: EntityId|
                m.tracks(id) && 0 <= m.location_of(id) < n && archetype_matches(
                    archs[m.location_of(id)],
                    req,
                    exc,
                ) ==> #[trigger] ids.contains(id)
        }),
    decreases n,
{
    let archs = m.archetypes@;
    if n > 0 {
        lemma_query_prefix(m, req, exc, n - 1);
        let pre = archs.take(n);
        assert(pre.drop_last() =~= archs.take(n - 1));
        assert(pre.last() == archs[n - 1]);
        let a = archs[n - 1];
        let rows0 = query_rows(archs.take(n - 1), req, exc);
        let ids0 = query_entities(archs.take(n - 1), req, exc);
        let rows = query_rows(pre, req, exc);
        let ids = query_entities(pre, req, exc);
        assert(a.wf());
        // Each row of the last archetype belongs to an entity located there at that row.
        assert forall|r: int| 0 <= r < a.entities@.len() implies m.tracks(#[trigger] a.entities@[r])
            && m.location_of(a.entities@[r]) == n - 1 && a.row_of(a.entities@[r]) == r by {
            assert(m.archetypes@[n - 1].entities@[r] == a.entities@[r]);
            a.lemma_row_of(a.entities@[r], r);
        }
        if archetype_matches(a, req, exc) {
            let k = ids0.len() as int;
            assert(ids =~= ids0 + a.entities@);
            assert(rows =~= rows0 + archetype_rows(a, req));
            assert forall|i: int| 0 <= i < ids.len() implies {
                &&& m.tracks(#[trigger] ids[i])
                &&& 0 <= m.location_of(ids[i]) < n
                &&& archetype_matches(archs[m.location_of(ids[i])], req, exc)
                &&& rows[i] == row_values(
                    archs[m.location_of(ids[i])],
                    req,
                    archs[m.location_of(ids[i])].row_of(ids[i]),
                )
            } by {
                if i < k {
                    assert(ids[i] == ids0[i]);
                    assert(rows[i] == rows0[i]);
                } else {
                    assert(ids[i] == a.entities@[i - k]);
                    assert(rows[i] == archetype_rows(a, req)[i - k]);
                }
            }
            assert forall|i: int, j: int| 0 <= i < ids.len() && 0 <= j < ids.len() && i != j implies ids[i] != ids[j] by {
                if i < k && j < k {
                    assert(ids[i] == ids0[i] && ids[j] == ids0[j]);
                } else if i >= k && j >= k {
                    assert(ids[i] == a.entities@[i - k] && ids[j] == a.entities@[j - k]);
                } else if i < k {
                    assert(ids[i] == ids0[i]);
                    assert(ids[j] == a.entities@[j - k]);
                    assert(m.location_of(ids0[i]) < n - 1);
                } else {
                    assert(ids[j] == ids0[j]);
                    assert(ids[i] == a.entities@[i - k]);
                    assert(m.location_of(ids0[j]) < n - 1);
                }
            }
            assert forall|id: EntityId|
                m.tracks(id) && 0 <= m.location_of(id) < n && archetype_matches(
                    archs[m.location_of(id)],
                    req,
                    exc,
                ) implies #[trigger] ids.contains(id) by {
                if m.location_of(id) < n - 1 {
                    assert(ids0.contains(id));
                    let i = choose|i: int| 0 <= i < ids0.len() && ids0[i] == id;
                    assert(ids[i] == id);
                } else {
                    let t = m.table_index(id);
                    m.lemma_table_index(t);
                    assert(a.entities@.contains(id));
                    let r = choose|r: int| 0 <= r < a.entities@.len() && a.entities@[r] == id;
                    assert(ids[k + r] == id);
                }
            }
        } else {
            assert(ids == ids0);
            assert(rows == rows0);
            assert forall|id: EntityId|
                m.tracks(id) && 0 <= m.location_of(id) < n && archetype_matches(
                    archs[m.location_of(id)],
                    req,
                    exc,
                ) implies #[trigger] ids.contains(id) by {
                assert(m.location_of(id) != n - 1);
                assert(ids0.contains(id));
            }
        }
    } else {
        assert(archs.take(0) =~= Seq::<Archetype<T>>::empty());
    }
}

/// Query completeness: over a manager, a query returns one row for each live entity whose type
/// set has every required type and none of the excluded ones, and no other row; each row holds
/// that entity's values of the required types, in their order.
pub proof fn lemma_query_complete<T>(m: &EntityManager<T>, req: Seq<TypeKey>, exc: Seq<TypeKey>)
    requires
        m.wf(),
    ensures
        ({
            let rows = query_rows(m.archetypes@, req, exc);
            let ids = query_entities(m.archetypes@, req, exc);
            &&& rows.len() == ids.len()
            &&& ids.no_duplicates()
            &&& forall|i: int|
                0 <= i < ids.len() ==> m@.contains_key(#[trigger] ids[i]) && rows[i] == Seq::new(
                    req.len(),
                    |j: int| m@[ids[i]][req[j]],
                )
            &&& forall|id: EntityId|
                #[trigger] ids.contains(id) <==> (m@.contains_key(id) && selects(m@[id].dom(), req, exc))
        }),
{
    let archs = m.archetypes@;
    let n = archs.len() as int;
    lemma_query_prefix(m, req, exc, n);
    assert(archs.take(n) =~= archs);
    let rows = query_rows(archs, req, exc);
    let ids = query_entities(archs, req, exc);
    assert forall|i: int| 0 <= i < ids.len() implies m@.contains_key(#[trigger] ids[i]) && rows[i]
        == Seq::new(req.len(), |j: int| m@[ids[i]][req[j]]) by {
        let id = ids[i];
        lemma_home(m, id);
        let l = m.location_of(id);
        let a = archs[l];
        let r = a.row_of(id);
        assert(a.entities@.contains(id));
        assert(0 <= r < a.entities@.len() && a.entities@[r] == id);
        m.lemma_table_index(m.table_index(id));
        assert(m@[id] == a.row(r));
        assert forall|j: int| 0 <= j < req.len() implies a.column(req[j])[r] == m@[id][req[j]] by {
            a.lemma_row_entry(r, req[j]);
            assert(a.type_set().contains(req[j]));
        }
        assert(rows[i] =~= Seq::new(req.len(), |j: int| m@[ids[i]][req[j]]));
    }
    assert forall|id: EntityId| #[trigger] ids.contains(id) <==> (m@.contains_key(id) && selects(
        m@[id].dom(),
        req,
        exc,
    )) by {
        if ids.contains(id) {
            let i = choose|i: int| 0 <= i < ids.len() && ids[i] == id;
            assert(m.tracks(ids[i]));
            lemma_home(m, id);
        }
        if m@.contains_key(id) && selects(m@[id].dom(), req, exc) {
            lemma_home(m, id);
            assert(m.archetypes@[m.location_of(id)].entities@.len() > 0);
        }
    }
}

/// Row-count conservation: in a well-formed manager, every column of every archetype has as
/// many values as the archetype has entities.
pub proof fn lemma_row_count<T>(m: &EntityManager<T>, a: int, j: int)
    requires
        m.wf(),
        0 <= a < m.archetypes@.len(),
        0 <= j < m.archetypes@[a].components@.len(),
    ensures
        m.archetypes@[a].components@[j].1@.len() == m.archetypes@[a].entities@.len(),
{
    assert(m.archetypes@[a].wf());
}

} // verus!
