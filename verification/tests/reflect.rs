use bevy_ecs::entity::{Entity, EntityMap, MapEntitiesError};
use bevy_ecs::reflect::{ReflectComponent, ReflectMapEntities};
use bevy_ecs::text::{HorizontalAlign, TextAlignment, VerticalAlign};
use bevy_ecs::world::{World, WorldError};

const TYPE_A: u64 = 0xa;
const TYPE_PARENT: u64 = 0xb;

#[test]
fn components_are_reached_by_the_key_of_their_type() {
    let mut world = World::new();
    let entity = world.spawn().unwrap();
    let reflect = ReflectComponent::from_type(TYPE_A);
    assert_eq!(reflect.reflect_component(&world, entity), None);
    assert!(reflect.reflect_component_mut(&mut world, entity).is_none());
    assert_eq!(reflect.add_component(&mut world, entity, 5), Ok(()));
    assert_eq!(reflect.reflect_component(&world, entity), Some(5));
    world.increment_global_system_counter();
    reflect.apply_component(&mut world, entity, 6);
    assert_eq!(reflect.reflect_component(&world, entity), Some(6));
    let id = world.components().get_id(TYPE_A).unwrap();
    assert_eq!(world.get_stored(entity, id).unwrap().counters.changed, 1);
    {
        let mut access = reflect.reflect_component_mut(&mut world, entity).unwrap();
        assert!(access.is_changed());
        assert!(!access.is_added());
        access.set(7);
    }
    {
        let access = reflect.reflect_component_unchecked_mut(&mut world, entity).unwrap();
        assert_eq!(access.get(), 7);
    }
    assert_eq!(
        reflect.add_component(&mut world, Entity::new(9, 9), 1),
        Err(WorldError::NoSuchEntity)
    );
}

#[test]
fn a_component_is_copied_into_another_store() {
    let mut source = World::new();
    let _other = source.init_component(0x1);
    let from = source.spawn().unwrap();
    let reflect = ReflectComponent::from_type(TYPE_A);
    reflect.add_component(&mut source, from, 12).unwrap();
    let mut destination = World::new();
    let to = destination.spawn().unwrap();
    assert_eq!(reflect.copy_component(&source, &mut destination, from, to), Ok(()));
    assert_eq!(reflect.reflect_component(&destination, to), Some(12));
    // The type has its own identifier in each store.
    assert_eq!(source.components().get_id(TYPE_A), Some(1));
    assert_eq!(destination.components().get_id(TYPE_A), Some(0));
}

#[test]
fn references_to_entities_are_mapped() {
    let mut world = World::new();
    let parent = world.init_component(TYPE_PARENT);
    let old_parent = Entity::new(40, 2);
    let new_parent = world.spawn().unwrap();
    let child = world.spawn().unwrap();
    let orphan = world.spawn().unwrap();
    world.insert(child, parent, old_parent.to_bits()).unwrap();
    world.insert(orphan, parent, Entity::new(41, 0).to_bits()).unwrap();

    let mut map = EntityMap::new();
    map.insert(old_parent, new_parent);
    map.insert(Entity::new(50, 0), child);
    let reflect = ReflectMapEntities::from_type(TYPE_PARENT);
    assert_eq!(reflect.map_entities(&mut world, &map), Ok(()));
    assert_eq!(world.get(child, parent), Some(new_parent.to_bits()));

    map.insert(Entity::new(51, 0), orphan);
    map.insert(Entity::new(52, 0), new_parent);
    assert_eq!(
        reflect.map_entities(&mut world, &map),
        Err(MapEntitiesError::EntityNotFound(new_parent))
    );
    assert_eq!(ReflectMapEntities::from_type(0x99).map_entities(&mut world, &map), Ok(()));
}

#[test]
fn text_starts_in_the_top_left_corner() {
    let alignment = TextAlignment::default();
    assert_eq!(alignment.vertical, VerticalAlign::Top);
    assert_eq!(alignment.horizontal, HorizontalAlign::Left);
    assert_ne!(VerticalAlign::Center, VerticalAlign::Bottom);
    assert_ne!(HorizontalAlign::Center, HorizontalAlign::Right);
}
