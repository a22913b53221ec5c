use std::collections::BTreeMap;
use prometheus_ecs::archetype::Archetype;
use prometheus_ecs::commands::{Command, CommandQueue};
use prometheus_ecs::component::ComponentList;
use prometheus_ecs::entity::Entity;
use prometheus_ecs::entity_manager::EntityManager;
use prometheus_ecs::error::{ArchetypeError, QueryError};
use prometheus_ecs::event::EventManager;
use prometheus_ecs::query::{Query, Without};
use prometheus_ecs::resources::ResourceManager;
use prometheus_ecs::system::{SystemManager, SystemSchedule};

const HEALTH: u64 = 1;
const POSITION: u64 = 2;
const VELOCITY: u64 = 3;
const NAME: u64 = 4;

#[derive(Debug, Clone, PartialEq)]
enum C {
    Health(i32),
    Position(i32, i32),
    Velocity(i32, i32),
    Name(String),
}

fn health(h: i32) -> (u64, C) {
    (HEALTH, C::Health(h))
}

fn name(s: &str) -> (u64, C) {
    (NAME, C::Name(s.to_string()))
}

fn query_values(m: &EntityManager<C>, types: Vec<u64>, without: Vec<u64>) -> Vec<Vec<C>> {
    let q = Query::new(&m.archetypes, types, Without::new(without));
    q.fetch()
        .into_iter()
        .map(|row| row.into_iter().cloned().collect())
        .collect()
}

fn assert_columns_lockstep(m: &EntityManager<C>) {
    for arch in &m.archetypes {
        for (_, col) in &arch.components {
            assert_eq!(col.components.len(), arch.entities.len());
        }
        assert!(!arch.entities.is_empty());
    }
}

#[test]
fn component_test() {
    struct Health(i32);
    let mut component_list = ComponentList::new();
    component_list.add(Health(100));
    let health = component_list.get(0).unwrap();
    println!("Health: {}", health.0);
    assert_eq!(health.0, 100);
    let health = component_list.get_mut(0).unwrap();
    health.0 = 50;
    println!("Health: {}", health.0);
    assert_eq!(component_list.get(0).unwrap().0, 50);
    assert!(component_list.get(1).is_none());
}

#[test]
fn archetype_test_archetype() {
    let mut arch = Archetype::new(
        0,
        vec![health(100), (POSITION, C::Position(0, 0)), (VELOCITY, C::Velocity(0, 0))],
    );
    arch.add_entity(
        1,
        vec![health(200), (POSITION, C::Position(1, 1)), (VELOCITY, C::Velocity(1, 1))],
    );

    let (entity_id, moved_entity) = arch.migrate_entity_to_other_archetype(0).unwrap();
    assert_eq!(entity_id, 0);
    assert_eq!(moved_entity.len(), 3);
    assert!(moved_entity.contains(&health(100)));
    assert_eq!(arch.entities, vec![1]);
    assert_eq!(arch.get_component(HEALTH, 0), Some(&C::Health(200)));
    assert_eq!(
        arch.migrate_entity_to_other_archetype(0).err(),
        Some(ArchetypeError::EntityNotFound)
    );
}

#[test]
fn query_query_test() {
    let v: Vec<Archetype<C>> = vec![];
    let q = Query::new(&v, vec![HEALTH], Without::new(vec![]));
    let rows = q.fetch();
    for h in &rows {
        println!("{:?}", h);
    }
    assert!(rows.is_empty());
}

#[test]
fn archetype_row_lookup_and_mutation() {
    let mut arch = Archetype::new(7, vec![health(10), name("a")]);
    arch.add_entity_migrated(9, vec![name("b"), health(20)]);
    assert!(arch.has_type(NAME));
    assert!(!arch.has_type(VELOCITY));
    assert_eq!(arch.get_component(NAME, 1), Some(&C::Name("b".to_string())));
    assert_eq!(arch.get_component(HEALTH, 1), Some(&C::Health(20)));
    assert_eq!(arch.get_component(HEALTH, 2), None);
    *arch.get_component_mut(HEALTH, 0).unwrap() = C::Health(11);
    assert_eq!(arch.get_component(HEALTH, 0), Some(&C::Health(11)));
    assert_eq!(arch.remove_entity(7), Ok(()));
    assert_eq!(arch.remove_entity(7), Err(ArchetypeError::EntityNotFound));
    assert_eq!(arch.entities, vec![9]);
    assert_eq!(arch.get_component(HEALTH, 0), Some(&C::Health(20)));
    assert!(!arch.is_empty());
}

#[test]
fn create_assigns_increasing_ids_and_shares_archetypes() {
    let mut m: EntityManager<C> = EntityManager::new();
    let a = m.create_entity(vec![health(1)]);
    let b = m.create_entity(vec![health(2), name("b")]);
    let c = m.create_entity(vec![name("c"), health(3)]);
    assert_eq!((a.id, b.id, c.id), (0, 1, 2));
    assert_eq!(m.archetypes.len(), 2);
    assert_ne!(a.entity_location, b.entity_location);
    assert_eq!(b.entity_location, c.entity_location);
    assert_columns_lockstep(&m);
}

#[test]
fn partition_same_type_set_same_archetype() {
    let mut m: EntityManager<C> = EntityManager::new();
    let e1 = m.create_entity(vec![health(1), (POSITION, C::Position(0, 0))]);
    let e2 = m.create_entity(vec![health(2)]);
    let e3 = m.create_entity(vec![(POSITION, C::Position(1, 1)), health(3)]);
    m.add_component_to_entity(e2, POSITION, C::Position(2, 2)).unwrap();
    let loc = |id: u32| m.entities.iter().find(|e| e.id == id).unwrap().entity_location;
    assert_eq!(loc(e1.id), loc(e2.id));
    assert_eq!(loc(e1.id), loc(e3.id));
    assert_eq!(m.archetypes.len(), 1);
    assert_eq!(m.archetypes[0].entities.len(), 3);
}

#[test]
fn migration_round_trip() {
    let mut m: EntityManager<C> = EntityManager::new();
    let other = m.create_entity(vec![health(5), name("other")]);
    let e = m.create_entity(vec![health(100)]);
    let start = m.entities.iter().find(|x| x.id == e.id).unwrap().entity_location;
    let start_types: Vec<u64> = m.archetypes[start].components.iter().map(|c| c.0).collect();
    m.add_component_to_entity(e, VELOCITY, C::Velocity(1, 2)).unwrap();
    assert_eq!(m.get_component(e, VELOCITY), Ok(&C::Velocity(1, 2)));
    m.remove_component(e, VELOCITY).unwrap();
    assert_eq!(m.get_component(e, HEALTH), Ok(&C::Health(100)));
    assert_eq!(m.get_component(e, VELOCITY), Err(QueryError::ComponentNotFound(VELOCITY)));
    let now = m.entities.iter().find(|x| x.id == e.id).unwrap().entity_location;
    let mut now_types: Vec<u64> = m.archetypes[now].components.iter().map(|c| c.0).collect();
    let mut start_sorted = start_types.clone();
    now_types.sort();
    start_sorted.sort();
    assert_eq!(now_types, start_sorted);
    assert_eq!(m.get_component(other, NAME), Ok(&C::Name("other".to_string())));
    assert_columns_lockstep(&m);
}

#[test]
fn query_completeness() {
    let mut m: EntityManager<C> = EntityManager::new();
    m.create_entity(vec![health(1)]);
    m.create_entity(vec![health(2), (POSITION, C::Position(0, 0))]);
    m.create_entity(vec![health(3), (POSITION, C::Position(1, 1)), (VELOCITY, C::Velocity(1, 1))]);
    let all = query_values(&m, vec![HEALTH], vec![]);
    assert_eq!(all, vec![vec![C::Health(1)], vec![C::Health(2)], vec![C::Health(3)]]);
    let ab = query_values(&m, vec![HEALTH, POSITION], vec![VELOCITY]);
    assert_eq!(ab, vec![vec![C::Health(2), C::Position(0, 0)]]);
    let ba = query_values(&m, vec![POSITION, HEALTH], vec![]);
    assert_eq!(
        ba,
        vec![vec![C::Position(0, 0), C::Health(2)], vec![C::Position(1, 1), C::Health(3)]]
    );
}

#[test]
fn query_empty_manager_and_absent_type() {
    let mut m: EntityManager<C> = EntityManager::new();
    assert!(query_values(&m, vec![HEALTH], vec![]).is_empty());
    m.create_entity(vec![health(1)]);
    assert!(query_values(&m, vec![NAME], vec![]).is_empty());
    assert!(query_values(&m, vec![HEALTH, NAME], vec![]).is_empty());
    assert!(query_values(&m, vec![HEALTH], vec![HEALTH + 10]).len() == 1);
    let q = Query::new(&m.archetypes, vec![HEALTH], Without::new(vec![]));
    assert_eq!(q.iter().len(), 1);
}

#[test]
fn row_count_conservation_over_operation_sequence() {
    let mut m: EntityManager<C> = EntityManager::new();
    let mut live = Vec::new();
    for i in 0..12i32 {
        let bundle = match i % 3 {
            0 => vec![health(i)],
            1 => vec![health(i), name("n")],
            _ => vec![(POSITION, C::Position(i, i)), health(i)],
        };
        live.push(m.create_entity(bundle));
        assert_columns_lockstep(&m);
    }
    for (i, e) in live.clone().into_iter().enumerate() {
        match i % 4 {
            0 => m.add_component_to_entity(e, VELOCITY, C::Velocity(0, 1)).unwrap(),
            1 => m.remove_component(e, HEALTH).unwrap(),
            2 => m.remove_entity(e).unwrap(),
            _ => m.add_component_to_entity(e, NAME, C::Name("z".to_string())).unwrap(),
        }
        assert_columns_lockstep(&m);
    }
    for e in &m.entities {
        let arch = &m.archetypes[e.entity_location];
        assert!(arch.entities.contains(&e.id));
    }
    assert_eq!(m.entities.len(), 12 - 3 - 1);
}

#[test]
fn scenario_health_then_name() {
    let mut m: EntityManager<C> = EntityManager::new();
    let e = m.create_entity(vec![health(100)]);
    m.add_component_to_entity(e, NAME, C::Name("x".to_string())).unwrap();
    assert_eq!(
        query_values(&m, vec![HEALTH, NAME], vec![]),
        vec![vec![C::Health(100), C::Name("x".to_string())]]
    );
    m.remove_component(e, HEALTH).unwrap();
    assert!(query_values(&m, vec![HEALTH, NAME], vec![]).is_empty());
    assert_eq!(query_values(&m, vec![NAME], vec![]), vec![vec![C::Name("x".to_string())]]);
}

#[test]
fn removing_last_component_deletes_entity() {
    let mut m: EntityManager<C> = EntityManager::new();
    let keep = m.create_entity(vec![name("keep")]);
    let e = m.create_entity(vec![health(7)]);
    assert_eq!(m.remove_component(e, HEALTH), Ok(()));
    assert!(m.find_entity(e.id).is_none());
    assert_eq!(m.get_component(e, HEALTH), Err(QueryError::EntityNotFound(e.id)));
    assert_eq!(m.remove_entity(e), Err(ArchetypeError::EntityNotFound));
    assert_eq!(m.archetypes.len(), 1);
    assert_eq!(m.get_component(keep, NAME), Ok(&C::Name("keep".to_string())));
    let next = m.create_entity(vec![health(1)]);
    assert_eq!(next.id, 2);
}

#[test]
fn unknown_entity_errors() {
    let mut m: EntityManager<C> = EntityManager::new();
    let e = m.create_entity(vec![health(1)]);
    m.remove_entity(e).unwrap();
    assert_eq!(m.add_component_to_entity(e, NAME, C::Name("a".to_string())), Err(ArchetypeError::EntityNotFound));
    assert_eq!(m.remove_component(e, HEALTH), Err(ArchetypeError::EntityNotFound));
    assert_eq!(m.get_component_mut(e, HEALTH).err(), Some(QueryError::EntityNotFound(e.id)));
    assert!(m.archetypes.is_empty());
    assert!(m.entities.is_empty());
}

#[test]
fn pruning_keeps_later_locations_valid() {
    let mut m: EntityManager<C> = EntityManager::new();
    let first = m.create_entity(vec![health(1)]);
    let second = m.create_entity(vec![name("s")]);
    let third = m.create_entity(vec![(VELOCITY, C::Velocity(3, 3))]);
    m.remove_entity(first).unwrap();
    assert_eq!(m.archetypes.len(), 2);
    assert_eq!(m.get_component(second, NAME), Ok(&C::Name("s".to_string())));
    assert_eq!(m.get_component(third, VELOCITY), Ok(&C::Velocity(3, 3)));
    for e in &m.entities {
        assert!(m.archetypes[e.entity_location].entities.contains(&e.id));
    }
}

#[test]
fn component_mutation_in_place() {
    let mut m: EntityManager<C> = EntityManager::new();
    let e = m.create_entity(vec![health(10), name("n")]);
    *m.get_component_mut(e, HEALTH).unwrap() = C::Health(42);
    assert_eq!(m.get_component(e, HEALTH), Ok(&C::Health(42)));
    assert_eq!(m.get_component(e, NAME), Ok(&C::Name("n".to_string())));
    assert_eq!(m.get_component_mut(e, VELOCITY).err(), Some(QueryError::ComponentNotFound(VELOCITY)));
    m.add_component_to_entity(e, HEALTH, C::Health(43)).unwrap();
    assert_eq!(m.get_component(e, HEALTH), Ok(&C::Health(43)));
    assert_eq!(m.archetypes.len(), 1);
}

#[test]
fn resources_one_value_per_type() {
    let mut r: ResourceManager<String> = ResourceManager::new();
    assert!(r.get_resource(1).is_none());
    r.add(1, "camera".to_string());
    r.add(2, "clock".to_string());
    let h = r.get_resource(1).unwrap();
    assert_eq!(h.get(), "camera");
    assert_eq!(h.type_id, 1);
    r.add(1, "camera2".to_string());
    assert_eq!(r.get_resource(1).unwrap().get(), "camera2");
    assert_eq!(h.get(), "camera");
    let shared = h.share();
    assert_eq!(shared.get(), "camera");
    assert_eq!(r.get_resource(2).unwrap().get(), "clock");
}

#[test]
fn events_single_handler_per_type() {
    let mut ev: EventManager<&str> = EventManager::new();
    assert!(ev.publish(5).is_none());
    ev.subscribe(5, "first");
    ev.subscribe(6, "other");
    ev.subscribe(5, "second");
    assert_eq!(ev.publish(5), Some(&"second"));
    assert_eq!(ev.publish(6), Some(&"other"));
    assert!(ev.publish(7).is_none());
}

#[test]
fn systems_run_in_registration_order_per_phase() {
    let mut s: SystemManager<&str> = SystemManager::new();
    s.add_system(SystemSchedule::Update, "u1");
    s.add_system(SystemSchedule::Startup, "s1");
    s.add_system(SystemSchedule::Update, "u2");
    assert_eq!(s.run_order(SystemSchedule::Update), vec![0, 2]);
    assert_eq!(s.run_order(SystemSchedule::Startup), vec![1]);
    assert!(s.run_order(SystemSchedule::Shutdown).is_empty());
    *s.system_mut(0) = "u1b";
    assert_eq!(s.systems[0].1, "u1b");
}

#[test]
fn query_rows_pair_with_entities() {
    let mut m: EntityManager<C> = EntityManager::new();
    let a = m.create_entity(vec![health(1)]);
    let b = m.create_entity(vec![health(2), name("b")]);
    let c = m.create_entity(vec![health(3)]);
    let q = Query::new(&m.archetypes, vec![HEALTH], Without::new(vec![]));
    assert_eq!(q.fetch_entities(), vec![a.id, c.id, b.id]);
    let values: Vec<C> = q.fetch().into_iter().map(|r| r[0].clone()).collect();
    assert_eq!(values, vec![C::Health(1), C::Health(3), C::Health(2)]);
}

#[test]
fn structural_changes_deferred_until_rows_released() {
    let mut m: EntityManager<C> = EntityManager::new();
    for h in [10, 60, 20, 80] {
        m.create_entity(vec![health(h)]);
    }
    let mut queue = CommandQueue::new();
    {
        let q = Query::new(&m.archetypes, vec![HEALTH], Without::new(vec![]));
        let ids = q.fetch_entities();
        for (id, row) in ids.into_iter().zip(q.fetch()) {
            if let C::Health(h) = row[0] {
                if *h < 50 {
                    queue.push(Command::Remove(Entity::new(id, 0)));
                } else {
                    queue.push(Command::AddComponent(Entity::new(id, 0), NAME, C::Name("strong".to_string())));
                }
            }
        }
        queue.push(Command::Create(vec![health(5)]));
        assert_eq!(m.entities.len(), 4);
    }
    m.apply_commands(queue);
    assert_eq!(m.entities.len(), 3);
    assert_eq!(
        query_values(&m, vec![HEALTH, NAME], vec![]),
        vec![
            vec![C::Health(60), C::Name("strong".to_string())],
            vec![C::Health(80), C::Name("strong".to_string())]
        ]
    );
    assert_eq!(query_values(&m, vec![HEALTH], vec![NAME]), vec![vec![C::Health(5)]]);
    assert_eq!(m.entities.last().unwrap().id, 4);
    let mut single = CommandQueue::new();
    single.push(Command::RemoveComponent(Entity::new(4, 0), HEALTH));
    m.apply_commands(single);
    assert!(m.find_entity(4).is_none());
    m.apply_command(Command::Remove(Entity::new(99, 0)));
    assert_eq!(m.entities.len(), 2);
}

#[test]
fn random_operations_match_shadow_model() {
    let mut m: EntityManager<C> = EntityManager::new();
    let mut shadow: BTreeMap<u32, BTreeMap<u64, C>> = BTreeMap::new();
    let mut seed: u64 = 0x2545_f491_4f6c_dd1d;
    let mut next = || {
        seed = seed.wrapping_mul(6364136223846793005).wrapping_add(1442695040888963407);
        (seed >> 33) as u32
    };
    let keys = [HEALTH, POSITION, VELOCITY, NAME];
    let value = |k: u64, n: i32| match k {
        HEALTH => C::Health(n),
        POSITION => C::Position(n, -n),
        VELOCITY => C::Velocity(-n, n),
        _ => C::Name(format!("e{}", n)),
    };
    for step in 0..400i32 {
        let op = next() % 4;
        let target = next() % (m.next_id + 2);
        let k = keys[(next() % 4) as usize];
        let e = Entity::new(target, 0);
        match op {
            0 => {
                let k2 = keys[(next() % 4) as usize];
                let mut bundle = vec![(k, value(k, step))];
                if k2 != k {
                    bundle.push((k2, value(k2, step + 1)));
                }
                let created = m.create_entity(bundle.clone());
                shadow.insert(created.id, bundle.into_iter().collect());
            }
            1 => {
                let r = m.add_component_to_entity(e, k, value(k, step));
                assert_eq!(r.is_ok(), shadow.contains_key(&target));
                if let Some(c) = shadow.get_mut(&target) {
                    c.insert(k, value(k, step));
                }
            }
            2 => {
                let r = m.remove_component(e, k);
                assert_eq!(r.is_ok(), shadow.contains_key(&target));
                if let Some(c) = shadow.get_mut(&target) {
                    c.remove(&k);
                    if c.is_empty() {
                        shadow.remove(&target);
                    }
                }
            }
            _ => {
                let r = m.remove_entity(e);
                assert_eq!(r.is_ok(), shadow.remove(&target).is_some());
            }
        }
        assert_columns_lockstep(&m);
        assert_eq!(m.entities.len(), shadow.len());
        for (id, comps) in &shadow {
            let ent = Entity::new(*id, 0);
            for k in keys {
                match comps.get(&k) {
                    Some(v) => assert_eq!(m.get_component(ent, k), Ok(v)),
                    None => assert_eq!(m.get_component(ent, k), Err(QueryError::ComponentNotFound(k))),
                }
            }
        }
        for i in 0..m.archetypes.len() {
            for j in 0..i {
                let mut a: Vec<u64> = m.archetypes[i].components.iter().map(|c| c.0).collect();
                let mut b: Vec<u64> = m.archetypes[j].components.iter().map(|c| c.0).collect();
                a.sort();
                b.sort();
                assert_ne!(a, b);
            }
        }
    }
}
