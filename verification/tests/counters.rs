use bevy_ecs::component::{age_of, check_counter, ComponentCounters, Stored, MAX_AGE};
use bevy_ecs::entity::{Entities, Entity, EntityLocation, EntityMap, MapEntitiesError};
use bevy_ecs::system::system::{check_system_counter_impl, SystemId};

#[test]
fn age_is_the_wrapping_distance() {
    assert_eq!(age_of(10, 3), 7);
    assert_eq!(age_of(3, 10), u32::MAX - 6);
    assert_eq!(age_of(0, u32::MAX), 1);
    assert_eq!(age_of(5, 5), 0);
}

#[test]
fn a_system_that_never_ran_sees_everything_as_added_and_changed() {
    for global in [0u32, 1, 17, u32::MAX - 1] {
        for written in [0u32, 1, 17, u32::MAX - 1] {
            if written <= global {
                let counters = ComponentCounters { added: written, changed: written };
                assert!(counters.is_added(u32::MAX, global));
                assert!(counters.is_changed(u32::MAX, global));
            }
        }
    }
    // At the largest global value the window of a system that never ran is empty.
    let counters = ComponentCounters::new(5);
    assert!(!counters.is_added(u32::MAX, u32::MAX));
}

#[test]
fn changes_are_seen_once() {
    let mut counters = ComponentCounters::new(4);
    // A system that last ran before the insertion sees it.
    assert!(counters.is_added(3, 6));
    assert!(counters.is_changed(3, 6));
    assert!(!counters.is_mutated(3, 6));
    // After it has run at 6 it does not see it again.
    assert!(!counters.is_added(6, 9));
    assert!(!counters.is_changed(6, 9));
    counters.set_changed(7);
    assert_eq!(counters.added, 4);
    assert_eq!(counters.changed, 7);
    assert!(counters.is_changed(6, 9));
    assert!(counters.is_mutated(6, 9));
    assert!(!counters.is_added(6, 9));
    // A system that ran at the very counter of the write does not see it.
    assert!(!counters.is_changed(7, 9));
}

#[test]
fn comparison_survives_wraparound() {
    let counters = ComponentCounters::new(u32::MAX - 1);
    // The global counter has wrapped; the system last ran before the write.
    assert!(counters.is_changed(u32::MAX - 5, 3));
    // The system last ran after the write.
    assert!(!counters.is_changed(1, 3));
}

#[test]
fn an_old_counter_is_rebased() {
    let mut counter = 0u32;
    check_counter(&mut counter, MAX_AGE);
    assert_eq!(counter, 0);
    check_counter(&mut counter, MAX_AGE + 1);
    assert_eq!(counter, 1);
    let mut wrapped = u32::MAX - 9;
    check_counter(&mut wrapped, MAX_AGE);
    assert_eq!(wrapped, 0);
    let mut system_counter = 100u32;
    check_system_counter_impl(&mut system_counter, 90, "system");
    assert_eq!(system_counter, 90u32.wrapping_sub(MAX_AGE));
    let mut counters = ComponentCounters { added: 0, changed: 5 };
    counters.check_counters(MAX_AGE + 3);
    assert_eq!(counters.added, 3);
    assert_eq!(counters.changed, 5);
    assert_eq!(MAX_AGE, u32::MAX / 2);
}

#[test]
fn stored_new_sets_both_counters() {
    let cell = Stored::new(9, 3);
    assert_eq!(cell.value, 9);
    assert_eq!(cell.counters, ComponentCounters { added: 3, changed: 3 });
}

#[test]
fn entity_bits_round_trip() {
    for entity in [Entity::new(0, 0), Entity::new(7, 3), Entity::new(u32::MAX, u32::MAX)] {
        assert_eq!(Entity::from_bits(entity.to_bits()), entity);
    }
    assert_eq!(Entity::new(2, 1).to_bits(), (1u64 << 32) | 2);
    assert_eq!(Entity::from_bits(5), Entity::new(5, 0));
}

#[test]
fn the_allocator_recycles_indices() {
    let mut entities = Entities::new();
    let here = EntityLocation { archetype_id: 0, index: 0 };
    let there = EntityLocation { archetype_id: 1, index: 4 };
    let first = entities.allocate(here).unwrap();
    let second = entities.allocate(there).unwrap();
    assert_eq!(first, Entity::new(0, 0));
    assert_eq!(second, Entity::new(1, 0));
    assert_eq!(entities.get(second), Some(there));
    entities.set_location(first, there);
    assert_eq!(entities.get(first), Some(there));
    assert_eq!(entities.free(first), Some(there));
    assert_eq!(entities.free(first), None);
    assert!(!entities.contains(first));
    assert_eq!(entities.get(first), None);
    let third = entities.allocate(here).unwrap();
    assert_eq!(third, Entity::new(0, 1));
    assert_eq!(entities.free(Entity::new(0, 0)), None);
    assert_eq!(entities.free(Entity::new(9, 0)), None);
}

#[test]
fn entity_map_maps_and_reports_missing_entries() {
    let mut map = EntityMap::new();
    let one = Entity::new(1, 0);
    let two = Entity::new(2, 0);
    let three = Entity::new(3, 0);
    map.insert(one, two);
    map.insert(two, three);
    map.insert(one, three);
    assert_eq!(map.len(), 2);
    assert_eq!(map.get(one), Ok(three));
    assert_eq!(map.get(two), Ok(three));
    assert_eq!(map.get(three), Err(MapEntitiesError::EntityNotFound(three)));
    assert_eq!(map.value_at(0), three);
}

#[test]
fn system_id_is_what_it_was_made_of() {
    assert_eq!(SystemId::new(4), SystemId(4));
}
