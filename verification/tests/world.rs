use bevy_ecs::bundle::Bundle;
use bevy_ecs::component::{ComponentDescriptor, ComponentsError, StorageType, MAX_AGE};
use bevy_ecs::entity::Entity;
use bevy_ecs::world::{World, WorldError};

const TYPE_A: u64 = 0xa;
const TYPE_B: u64 = 0xb;

#[test]
fn new_world_has_the_empty_archetype_only() {
    let world = World::new();
    assert_eq!(world.archetype_count(), 1);
    assert_eq!(world.archetype(0).len(), 0);
    assert_eq!(world.global_system_counter(), 0);
    assert_eq!(world.exclusive_system_counter(), 0);
}

#[test]
fn spawn_puts_the_entity_into_the_empty_archetype() {
    let mut world = World::new();
    let first = world.spawn().unwrap();
    let second = world.spawn().unwrap();
    assert_ne!(first, second);
    assert!(world.contains(first));
    assert!(world.contains(second));
    let location = world.location(second).unwrap();
    assert_eq!(location.archetype_id, 0);
    assert_eq!(location.index, 1);
    assert_eq!(world.archetype(0).len(), 2);
}

#[test]
fn get_after_insert_returns_the_value() {
    let mut world = World::new();
    let a = world.init_component(TYPE_A);
    let entity = world.spawn().unwrap();
    assert_eq!(world.insert(entity, a, 41), Ok(()));
    assert_eq!(world.get(entity, a), Some(41));
    assert_eq!(world.insert(entity, a, 42), Ok(()));
    assert_eq!(world.get(entity, a), Some(42));
}

#[test]
fn get_after_remove_finds_nothing() {
    let mut world = World::new();
    let a = world.init_component(TYPE_A);
    let b = world.init_component(TYPE_B);
    let entity = world.spawn().unwrap();
    world.insert(entity, a, 1).unwrap();
    world.insert(entity, b, 2).unwrap();
    assert_eq!(world.remove(entity, a), Ok(Some(1)));
    assert_eq!(world.get(entity, a), None);
    assert_eq!(world.get(entity, b), Some(2));
    assert_eq!(world.remove(entity, a), Ok(None));
}

#[test]
fn insert_sets_both_counters_to_the_global_counter() {
    let mut world = World::new();
    let a = world.init_component(TYPE_A);
    let entity = world.spawn().unwrap();
    world.increment_global_system_counter();
    world.increment_global_system_counter();
    world.insert(entity, a, 7).unwrap();
    let cell = world.get_stored(entity, a).unwrap();
    assert_eq!(cell.value, 7);
    assert_eq!(cell.counters.added, 2);
    assert_eq!(cell.counters.changed, 2);
}

#[test]
fn writing_through_mut_records_the_change_only() {
    let mut world = World::new();
    let a = world.init_component(TYPE_A);
    let entity = world.spawn().unwrap();
    world.insert(entity, a, 7).unwrap();
    world.increment_global_system_counter();
    {
        let access = world.get_mut(entity, a).unwrap();
        assert_eq!(access.get(), 7);
    }
    assert_eq!(world.get_stored(entity, a).unwrap().counters.changed, 0);
    {
        let mut access = world.get_mut(entity, a).unwrap();
        access.set(8);
    }
    let cell = world.get_stored(entity, a).unwrap();
    assert_eq!(cell.value, 8);
    assert_eq!(cell.counters.added, 0);
    assert_eq!(cell.counters.changed, 1);
}

#[test]
fn operations_on_a_stale_handle_are_refused() {
    let mut world = World::new();
    let a = world.init_component(TYPE_A);
    let entity = world.spawn().unwrap();
    assert!(world.despawn(entity));
    assert!(!world.contains(entity));
    assert!(!world.despawn(entity));
    assert_eq!(world.insert(entity, a, 1), Err(WorldError::NoSuchEntity));
    assert_eq!(world.remove(entity, a), Err(WorldError::NoSuchEntity));
    assert_eq!(world.get(entity, a), None);
    assert!(world.get_mut(entity, a).is_none());
    let never_issued = Entity::new(77, 0);
    assert_eq!(world.insert(never_issued, a, 1), Err(WorldError::NoSuchEntity));
}

#[test]
fn an_unregistered_component_is_refused() {
    let mut world = World::new();
    let entity = world.spawn().unwrap();
    assert_eq!(world.insert(entity, 5, 1), Err(WorldError::UnknownComponent));
    assert_eq!(world.get(entity, 5), None);
}

#[test]
fn a_freed_index_is_issued_again_with_a_new_generation() {
    let mut world = World::new();
    let first = world.spawn().unwrap();
    world.despawn(first);
    let second = world.spawn().unwrap();
    assert_eq!(second.id(), first.id());
    assert_eq!(second.generation(), first.generation() + 1);
    assert!(!world.contains(first));
    assert!(world.contains(second));
}

#[test]
fn entities_with_the_same_components_share_an_archetype() {
    let mut world = World::new();
    let a = world.init_component(TYPE_A);
    let b = world.init_component(TYPE_B);
    let first = world.spawn().unwrap();
    world.insert(first, a, 1).unwrap();
    world.insert(first, b, 1).unwrap();
    let second = world.spawn().unwrap();
    world.insert(second, b, 2).unwrap();
    world.insert(second, a, 2).unwrap();
    let one = world.location(first).unwrap();
    let two = world.location(second).unwrap();
    assert_eq!(one.archetype_id, two.archetype_id);
    assert_ne!(one.index, two.index);
    // The empty archetype, {a}, {a, b} and {b}.
    assert_eq!(world.archetype_count(), 4);
    let archetype = world.archetype(one.archetype_id);
    assert!(archetype.contains(a));
    assert!(archetype.contains(b));
    assert_eq!(archetype.len(), 2);
}

#[test]
fn the_last_row_takes_the_place_of_a_row_that_leaves() {
    let mut world = World::new();
    let a = world.init_component(TYPE_A);
    let b = world.init_component(TYPE_B);
    let mut entities = Vec::new();
    for value in 0..4u64 {
        let entity = world.spawn().unwrap();
        world.insert(entity, a, value).unwrap();
        entities.push(entity);
    }
    let archetype = world.location(entities[0]).unwrap().archetype_id;
    world.insert(entities[1], b, 10).unwrap();
    assert_eq!(world.location(entities[3]).unwrap().archetype_id, archetype);
    assert_eq!(world.location(entities[3]).unwrap().index, 1);
    assert_eq!(world.location(entities[2]).unwrap().index, 2);
    assert_ne!(world.location(entities[1]).unwrap().archetype_id, archetype);
    for (value, entity) in entities.iter().enumerate() {
        assert_eq!(world.get(*entity, a), Some(value as u64));
    }
    assert_eq!(world.get(entities[1], b), Some(10));
}

#[test]
fn a_bundle_moves_the_entity_once() {
    let mut world = World::new();
    let a = world.init_component(TYPE_A);
    let b = world.init_component(TYPE_B);
    let entity = world.spawn().unwrap();
    let bundle = Bundle::new().with(b, 2).with(a, 1).with(b, 3);
    assert_eq!(bundle.len(), 2);
    assert_eq!(bundle.get(b), Some(3));
    world.insert_bundle(entity, &bundle).unwrap();
    assert_eq!(world.archetype_count(), 2);
    assert_eq!(world.get(entity, a), Some(1));
    assert_eq!(world.get(entity, b), Some(3));
}

#[test]
fn registering_a_type_twice_is_refused() {
    let mut world = World::new();
    let id = world
        .register_component(ComponentDescriptor::new(TYPE_A, StorageType::SparseSet))
        .unwrap();
    assert_eq!(id, 0);
    assert_eq!(
        world.register_component(ComponentDescriptor::new(TYPE_A, StorageType::Table)),
        Err(ComponentsError::ComponentAlreadyExists { type_id: TYPE_A, existing_id: 0 })
    );
    assert_eq!(world.init_component(TYPE_A), 0);
    assert_eq!(world.init_component(TYPE_B), 1);
    assert_eq!(world.components().get_id(TYPE_B), Some(1));
    assert_eq!(world.components().get_id(0xc), None);
    assert_eq!(
        world.components().get_info(0),
        Some(ComponentDescriptor::new(TYPE_A, StorageType::SparseSet))
    );
}

fn run_storage_scenario(storage: StorageType) -> Vec<(Option<u64>, Option<u64>, bool)> {
    let mut world = World::new();
    let a = world.register_component(ComponentDescriptor::new(TYPE_A, storage)).unwrap();
    let b = world.init_component(TYPE_B);
    let mut entities = Vec::new();
    for value in 0..5u64 {
        let entity = world.spawn().unwrap();
        world.insert(entity, b, value).unwrap();
        if value % 2 == 0 {
            world.insert(entity, a, value * 10).unwrap();
        }
        entities.push(entity);
    }
    world.increment_global_system_counter();
    world.remove(entities[0], a).unwrap();
    world.despawn(entities[3]);
    world.get_mut(entities[2], a).unwrap().set(99);
    world.insert(entities[1], a, 11).unwrap();
    entities
        .iter()
        .map(|entity| {
            let changed = match world.get_stored(*entity, a) {
                Some(cell) => cell.counters.is_changed(0, 1),
                None => false,
            };
            (world.get(*entity, a), world.get(*entity, b), changed)
        })
        .collect()
}

#[test]
fn sparse_and_table_storage_are_observed_alike() {
    let table = run_storage_scenario(StorageType::Table);
    let sparse = run_storage_scenario(StorageType::SparseSet);
    assert_eq!(table, sparse);
    assert_eq!(
        table,
        vec![
            (None, Some(0), false),
            (Some(11), Some(1), true),
            (Some(99), Some(2), true),
            (None, None, false),
            (Some(40), Some(4), false),
        ]
    );
}

#[test]
fn the_global_counter_wraps_around() {
    let mut world = World::new();
    assert_eq!(world.increment_global_system_counter(), 0);
    assert_eq!(world.increment_global_system_counter(), 1);
    assert_eq!(world.global_system_counter(), 2);
    world.set_exclusive_system_counter(9);
    assert_eq!(world.exclusive_system_counter(), 9);
}

#[test]
fn old_component_counters_are_rebased() {
    for storage in [StorageType::Table, StorageType::SparseSet] {
        let mut world = World::new();
        let a = world.register_component(ComponentDescriptor::new(TYPE_A, storage)).unwrap();
        let old = world.spawn().unwrap();
        world.insert(old, a, 1).unwrap();
        world.set_exclusive_system_counter(0);
        // Brings the global counter to three.
        for _ in 0..3 {
            world.increment_global_system_counter();
        }
        let young = world.spawn().unwrap();
        world.insert(young, a, 2).unwrap();
        world.check_component_counters();
        assert_eq!(world.get_stored(old, a).unwrap().counters.added, 0);
        assert_eq!(world.get_stored(young, a).unwrap().counters.changed, 3);
        // A counter that lies ahead of the global counter is as old as can be.
        world.get_mut_manual(young, a, 0, 8).unwrap().set(3);
        world.check_component_counters();
        let cell = world.get_stored(young, a).unwrap();
        assert_eq!(cell.value, 3);
        assert_eq!(cell.counters.added, 3);
        assert_eq!(cell.counters.changed, 3u32.wrapping_sub(MAX_AGE));
    }
}

#[test]
fn removing_a_sparse_component_and_adding_it_again() {
    let mut world = World::new();
    let a = world.register_component(ComponentDescriptor::new(TYPE_A, StorageType::SparseSet)).unwrap();
    let b = world.init_component(TYPE_B);
    let first = world.spawn().unwrap();
    world.insert(first, a, 1).unwrap();
    world.insert(first, b, 2).unwrap();
    assert_eq!(world.remove(first, a), Ok(Some(1)));
    assert_eq!(world.get(first, a), None);
    world.insert(first, a, 3).unwrap();
    assert_eq!(world.get(first, a), Some(3));
    world.despawn(first);
    let second = world.spawn().unwrap();
    assert_eq!(second.id(), first.id());
    assert_eq!(world.get(second, a), None);
    world.insert(second, b, 4).unwrap();
    assert_eq!(world.get(second, a), None);
    world.insert(second, a, 5).unwrap();
    assert_eq!(world.get(second, a), Some(5));
    assert_eq!(world.get(second, b), Some(4));
}
