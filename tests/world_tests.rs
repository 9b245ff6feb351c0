use paddy_ecs::bundle::Bundle;
use paddy_ecs::component::{ComponentDescriptor, ComponentId, Layout, StorageType};
use paddy_ecs::entity::Entity;
use paddy_ecs::query::QueryState;
use paddy_ecs::tick::{MAX_CHANGE_AGE, CHECK_TICK_THRESHOLD};
use paddy_ecs::world::{World, WorldId};

const POSITION: u64 = 1;
const VELOCITY: u64 = 2;
const NAME: u64 = 3;
const MARKER: u64 = 4;

fn position() -> ComponentDescriptor {
    ComponentDescriptor::new("Position".to_string(), StorageType::Table, Some(POSITION), Layout::new(8, 4), false)
}

fn velocity() -> ComponentDescriptor {
    ComponentDescriptor::new("Velocity".to_string(), StorageType::Table, Some(VELOCITY), Layout::new(8, 4), false)
}

fn name() -> ComponentDescriptor {
    ComponentDescriptor::new("Name".to_string(), StorageType::Table, Some(NAME), Layout::new(1, 1), false)
}

fn marker() -> ComponentDescriptor {
    ComponentDescriptor::new("Marker".to_string(), StorageType::SparseSet, Some(MARKER), Layout::new(4, 4), false)
}

fn pair(x: f32, y: f32) -> Vec<u8> {
    let mut v = x.to_le_bytes().to_vec();
    v.extend_from_slice(&y.to_le_bytes());
    v
}

fn bundle(name: &str, parts: Vec<(ComponentDescriptor, Vec<u8>)>) -> Bundle {
    let mut descriptors = Vec::new();
    let mut values = Vec::new();
    for (d, v) in parts {
        descriptors.push(d);
        values.push(v);
    }
    Bundle { name: name.to_string(), descriptors, values }
}

fn query_entities(world: &World, reads: Vec<ComponentId>, with: Vec<ComponentId>, without: Vec<ComponentId>) -> Vec<(Entity, Vec<Vec<u8>>)> {
    let mut state = QueryState::new(world, reads, with, without);
    state.iter(world).into_iter().map(|item| (item.entity, item.values)).collect()
}

#[test]
fn empty_world_has_no_entities_and_empty_queries() {
    let mut world = World::new(WorldId(0));
    assert_eq!(world.entity_count(), 0);
    let pos = world.init_component(position());
    assert!(query_entities(&world, vec![pos], vec![], vec![]).is_empty());
}

#[test]
fn single_spawn_is_seen_by_its_query_only() {
    let mut world = World::new(WorldId(0));
    let pos = world.init_component(position());
    let vel = world.init_component(velocity());
    let e = world.spawn(bundle("(Position,)", vec![(position(), pair(1.0, 2.0))])).unwrap();
    let items = query_entities(&world, vec![pos], vec![], vec![]);
    assert_eq!(items.len(), 1);
    assert_eq!(items[0].0, e);
    assert_eq!(items[0].1, vec![pair(1.0, 2.0)]);
    assert!(query_entities(&world, vec![vel], vec![], vec![]).is_empty());
    assert_eq!(world.entity_count(), 1);
}

#[test]
fn mixed_bundles_query_skips_entities_without_the_component() {
    let mut world = World::new(WorldId(0));
    let name_id = world.init_component(name());
    let pos = world.init_component(position());
    let a = world.spawn(bundle("(Name, Position)", vec![(name(), vec![b'a']), (position(), pair(1.0, 2.0))])).unwrap();
    let b = world
        .spawn(bundle(
            "(Name, Position, Velocity)",
            vec![(name(), vec![b'b']), (position(), pair(3.0, 4.0)), (velocity(), pair(5.0, 6.0))],
        ))
        .unwrap();
    let c = world.spawn(bundle("(Name, Velocity)", vec![(name(), vec![b'c']), (velocity(), pair(7.0, 8.0))])).unwrap();
    let mut items = query_entities(&world, vec![name_id, pos], vec![], vec![]);
    items.sort_by_key(|(_, values)| values[0].clone());
    assert_eq!(items.len(), 2);
    assert_eq!(items[0].0, a);
    assert_eq!(items[0].1, vec![vec![b'a'], pair(1.0, 2.0)]);
    assert_eq!(items[1].0, b);
    assert_eq!(items[1].1, vec![vec![b'b'], pair(3.0, 4.0)]);
    assert!(items.iter().all(|(e, _)| *e != c));
}

#[test]
fn duplicate_component_bundle_is_refused_and_named() {
    let mut world = World::new(WorldId(0));
    let before = world.entity_count();
    let result = world.spawn(bundle("(Position, Position)", vec![(position(), pair(1.0, 2.0)), (position(), pair(3.0, 4.0))]));
    match result {
        Err(e) => {
            assert_eq!(e.names, "Position");
            assert_eq!(e.bundle_name, "(Position, Position)");
            assert_eq!(e.duplicates.len(), 1);
        }
        Ok(_) => panic!("a bundle with a repeated component must be refused"),
    }
    assert_eq!(world.entity_count(), before);
}

#[test]
fn despawned_index_is_reused_with_the_next_generation() {
    let mut world = World::new(WorldId(0));
    let e1 = world.spawn(bundle("(Position,)", vec![(position(), pair(1.0, 2.0))])).unwrap();
    assert!(world.despawn(e1).is_ok());
    let e2 = world.spawn(bundle("(Position,)", vec![(position(), pair(5.0, 6.0))])).unwrap();
    assert_eq!(e1.index(), e2.index());
    assert_eq!(e2.generation(), e1.generation() + 1);
    assert!(world.get(e1).is_none());
    assert!(world.get(e2).is_some());
    assert!(world.despawn(e1).is_err());
}

#[test]
fn tick_scan_bounds_every_age() {
    let mut world = World::new(WorldId(0));
    let pos = world.init_component(position());
    let e = world.spawn(bundle("(Position,)", vec![(position(), pair(1.0, 2.0))])).unwrap();
    for _ in 0..3 {
        world.increment_change_tick();
    }
    world.check_change_ticks();
    let now = world.change_tick().get();
    let ticks = world.get_component_ticks(e, pos).unwrap();
    assert!(now.wrapping_sub(ticks.added.get()) <= MAX_CHANGE_AGE);
    assert!(now.wrapping_sub(ticks.changed.get()) <= MAX_CHANGE_AGE);
    assert_eq!(ticks.added.get(), 0);
    assert!(2 * CHECK_TICK_THRESHOLD > 0);
}

#[test]
fn spawn_then_despawn_restores_counts() {
    let mut world = World::new(WorldId(0));
    let keep = world.spawn(bundle("(Position,)", vec![(position(), pair(1.0, 2.0))])).unwrap();
    let count = world.entity_count();
    let e = world.spawn(bundle("(Position, Marker)", vec![(position(), pair(3.0, 4.0)), (marker(), vec![1, 2, 3, 4])])).unwrap();
    assert_eq!(world.entity_count(), count + 1);
    let marker_id = world.init_component(marker());
    assert_eq!(world.get_component(e, marker_id), Some(&vec![1, 2, 3, 4]));
    world.despawn(e).unwrap();
    assert_eq!(world.entity_count(), count);
    assert_eq!(world.get_component(e, marker_id), None);
    assert!(world.get(keep).is_some());
}

#[test]
fn repeated_spawns_fill_one_archetype() {
    let mut world = World::new(WorldId(0));
    let pos = world.init_component(position());
    let mut spawned = Vec::new();
    for i in 0..5 {
        spawned.push(world.spawn(bundle("(Position,)", vec![(position(), pair(i as f32, 0.0))])).unwrap());
    }
    let locations: Vec<_> = spawned.iter().map(|e| world.get(*e).unwrap()).collect();
    assert!(locations.iter().all(|l| l.archetype_id == locations[0].archetype_id));
    let rows: Vec<u32> = locations.iter().map(|l| l.archetype_row.0).collect();
    assert_eq!(rows, vec![0, 1, 2, 3, 4]);
    assert_eq!(query_entities(&world, vec![pos], vec![], vec![]).len(), 5);
}

#[test]
fn despawn_moves_the_last_member_into_the_freed_row() {
    let mut world = World::new(WorldId(0));
    let pos = world.init_component(position());
    let a = world.spawn(bundle("(Position,)", vec![(position(), pair(1.0, 1.0))])).unwrap();
    let b = world.spawn(bundle("(Position,)", vec![(position(), pair(2.0, 2.0))])).unwrap();
    let c = world.spawn(bundle("(Position,)", vec![(position(), pair(3.0, 3.0))])).unwrap();
    world.despawn(a).unwrap();
    let lc = world.get(c).unwrap();
    assert_eq!(lc.archetype_row.0, 0);
    assert_eq!(lc.table_row.0, 0);
    assert_eq!(world.get_component(c, pos), Some(&pair(3.0, 3.0)));
    assert_eq!(world.get_component(b, pos), Some(&pair(2.0, 2.0)));
}

#[test]
fn with_and_without_filters_select_archetypes() {
    let mut world = World::new(WorldId(0));
    let pos = world.init_component(position());
    let vel = world.init_component(velocity());
    let mark = world.init_component(marker());
    let plain = world.spawn(bundle("(Position,)", vec![(position(), pair(1.0, 2.0))])).unwrap();
    let moving = world.spawn(bundle("(Position, Velocity)", vec![(position(), pair(3.0, 4.0)), (velocity(), pair(0.5, 0.5))])).unwrap();
    let marked = world.spawn(bundle("(Position, Marker)", vec![(position(), pair(5.0, 6.0)), (marker(), vec![0; 4])])).unwrap();
    let with_vel = query_entities(&world, vec![pos], vec![vel], vec![]);
    assert_eq!(with_vel.iter().map(|(e, _)| *e).collect::<Vec<_>>(), vec![moving]);
    let mut without_vel: Vec<Entity> = query_entities(&world, vec![pos], vec![], vec![vel]).into_iter().map(|(e, _)| e).collect();
    without_vel.sort();
    let mut expected = vec![plain, marked];
    expected.sort();
    assert_eq!(without_vel, expected);
    let sparse = query_entities(&world, vec![mark, pos], vec![], vec![]);
    assert_eq!(sparse.len(), 1);
    assert_eq!(sparse[0].0, marked);
    assert_eq!(sparse[0].1, vec![vec![0; 4], pair(5.0, 6.0)]);
}

#[test]
fn set_component_overwrites_and_marks_changed() {
    let mut world = World::new(WorldId(0));
    let pos = world.init_component(position());
    let mark = world.init_component(marker());
    let e = world.spawn(bundle("(Position, Marker)", vec![(position(), pair(1.0, 2.0)), (marker(), vec![1, 1, 1, 1])])).unwrap();
    world.increment_change_tick();
    world.increment_change_tick();
    assert!(world.set_component(e, pos, pair(9.0, 9.0)));
    assert!(world.set_component(e, mark, vec![2, 2, 2, 2]));
    assert_eq!(world.get_component(e, pos), Some(&pair(9.0, 9.0)));
    assert_eq!(world.get_component(e, mark), Some(&vec![2, 2, 2, 2]));
    let ticks = world.get_component_ticks(e, pos).unwrap();
    assert_eq!(ticks.added.get(), 0);
    assert_eq!(ticks.changed.get(), 2);
    let vel = world.init_component(velocity());
    assert!(!world.set_component(e, vel, pair(0.0, 0.0)));
}

#[test]
fn world_ids_count_up_until_exhausted() {
    let mut counter = 0u32;
    assert_eq!(WorldId::next(&mut counter), Some(WorldId(0)));
    assert_eq!(WorldId::next(&mut counter), Some(WorldId(1)));
    let mut full = u32::MAX;
    assert_eq!(WorldId::next(&mut full), None);
}

#[test]
fn spawn_with_registered_bundle_id_reuses_the_archetype() {
    let mut world = World::new(WorldId(0));
    let a = world.spawn(bundle("(Position, Velocity)", vec![(position(), pair(1.0, 1.0)), (velocity(), pair(0.0, 1.0))])).unwrap();
    let b = world.spawn(bundle("(Position, Velocity)", vec![(position(), pair(2.0, 2.0)), (velocity(), pair(1.0, 0.0))])).unwrap();
    let la = world.get(a).unwrap();
    let lb = world.get(b).unwrap();
    assert_eq!(la.archetype_id, lb.archetype_id);
    assert_eq!(la.table_id, lb.table_id);
    assert_eq!(lb.table_row.0, la.table_row.0 + 1);
}

#[test]
fn insert_then_remove_returns_to_the_archetype() {
    let mut world = World::new(WorldId(0));
    let pos = world.init_component(position());
    let e = world.spawn(bundle("(Position,)", vec![(position(), pair(1.0, 2.0))])).unwrap();
    let start = world.get(e).unwrap().archetype_id;
    let vel_bundle = world.init_bundle("(Velocity, Marker)", &vec![velocity(), marker()]).ok().unwrap();
    world.insert_with_id(e, vel_bundle, vec![pair(0.5, 0.25), vec![9, 9, 9, 9]]).unwrap();
    let moved = world.get(e).unwrap().archetype_id;
    assert_ne!(moved, start);
    let vel = world.init_component(velocity());
    let mark = world.init_component(marker());
    assert_eq!(world.get_component(e, vel), Some(&pair(0.5, 0.25)));
    assert_eq!(world.get_component(e, mark), Some(&vec![9, 9, 9, 9]));
    assert_eq!(world.get_component(e, pos), Some(&pair(1.0, 2.0)));
    world.remove_with_id(e, vel_bundle).unwrap();
    assert_eq!(world.get(e).unwrap().archetype_id, start);
    assert_eq!(world.get_component(e, pos), Some(&pair(1.0, 2.0)));
    assert_eq!(world.get_component(e, vel), None);
    assert_eq!(world.get_component(e, mark), None);
}

#[test]
fn insert_overwrites_present_components() {
    let mut world = World::new(WorldId(0));
    let pos = world.init_component(position());
    let e = world.spawn(bundle("(Position,)", vec![(position(), pair(1.0, 2.0))])).unwrap();
    let start = world.get(e).unwrap().archetype_id;
    let pos_bundle = world.init_bundle("(Position,)", &vec![position()]).ok().unwrap();
    world.insert_with_id(e, pos_bundle, vec![pair(7.0, 7.0)]).unwrap();
    assert_eq!(world.get(e).unwrap().archetype_id, start);
    assert_eq!(world.get_component(e, pos), Some(&pair(7.0, 7.0)));
    let dead = Entity::from_raw(40);
    assert!(world.insert_with_id(dead, pos_bundle, vec![pair(0.0, 0.0)]).is_err());
    assert!(world.remove_with_id(dead, pos_bundle).is_err());
}
