//! Access to components by the key of their type, for code that does not
//! know the component types of a store: scene instancing and the like.

use vstd::prelude::*;
use crate::component::{id_of, ComponentDescriptor, ComponentId, StorageType, Stored};
use crate::entity::{Entity, EntityMap, MapEntitiesError};
use crate::world::{Mut, World, WorldError, WorldView};

verus! {

/// Unique access to a component that was reached by the key of its type.
pub type ReflectMut<'a> = Mut<'a>;

/// The operations on the components of one type, reached by the key of
/// the type.
#[derive(Copy, Clone, Debug, PartialEq, Eq, Structural)]
pub struct ReflectComponent {
    pub type_id: u64,
}

/// The registry after the type was registered with table storage, if
/// it was not registered.
pub open spec fn registry_with(registry: Seq<ComponentDescriptor>, type_id: u64) -> Seq<
    ComponentDescriptor,
> {
    if id_of(registry, type_id).is_some() {
        registry
    } else {
        registry.push(ComponentDescriptor { type_id, storage_type: StorageType::Table })
    }
}

/// The identifier of the type after it was registered, if it was not.
pub open spec fn id_with(registry: Seq<ComponentDescriptor>, type_id: u64) -> ComponentId {
    match id_of(registry, type_id) {
        Some(id) => id,
        None => registry.len() as usize,
    }
}

impl ReflectComponent {
    /// The operations on the components of the type with the key given.
    pub fn from_type(type_id: u64) -> (r: ReflectComponent)
        ensures
            r.type_id == type_id,
    {
        ReflectComponent { type_id }
    }

    /// Gives the entity a component of the type, with the value given.
    /// The type is registered, with table storage, if it was not.
    pub fn add_component(&self, world: &mut World, entity: Entity, component: u64) -> (r: Result<
        (),
        WorldError,
    >)
        requires
            old(world).wf(),
        ensures
            final(world).wf(),
            ({
                let registered = WorldView {
                    registry: registry_with(old(world)@.registry, self.type_id),
                    ..old(world)@
                };
                let bundle = map![id_with(old(world)@.registry, self.type_id) => component];
                &&& r == registered.insert_result(entity, bundle)
                &&& r.is_ok() ==> final(world)@ == registered.moved(
                    entity,
                    registered.bundle_target(entity, bundle),
                    registered.with_bundle(entity, bundle),
                )
                &&& r.is_err() ==> final(world)@ == registered
            }),
    {
        let id = world.init_component(self.type_id);
        world.insert(entity, id, component)
    }

    /// Writes the value given into the component of the type that the
    /// entity holds, and records the write.
    pub fn apply_component(&self, world: &mut World, entity: Entity, component: u64)
        requires
            old(world).wf(),
            id_of(old(world)@.registry, self.type_id) matches Some(id)
                && old(world)@.has(entity, id),
        ensures
            final(world).wf(),
            final(world)@ == old(world)@.with_cell(
                entity,
                id_of(old(world)@.registry, self.type_id).unwrap(),
                old(world)@.entities[entity][id_of(
                    old(world)@.registry,
                    self.type_id,
                ).unwrap()].written(component, old(world)@.global_system_counter),
            ),
    {
        let id = world.components().get_id(self.type_id).unwrap();
        match world.get_mut(entity, id) {
            Some(mut m) => {
                m.set(component);
            },
            None => {},
        }
    }

    /// The value of the component of the type that the entity holds.
    pub fn reflect_component(&self, world: &World, entity: Entity) -> (r: Option<u64>)
        requires
            world.wf(),
        ensures
            r == (match id_of(world@.registry, self.type_id) {
                Some(id) => if world@.has(entity, id) {
                    Some(world@.entities[entity][id].value)
                } else {
                    None
                },
                None => None,
            }),
    {
        match world.components().get_id(self.type_id) {
            Some(id) => world.get(entity, id),
            None => None,
        }
    }

    /// Unique access to the component of the type that the entity holds.
    /// Taking the value for writing records the write.
    pub fn reflect_component_mut<'a>(&self, world: &'a mut World, entity: Entity) -> (r: Option<
        ReflectMut<'a>,
    >)
        requires
            old(world).wf(),
        ensures
            r.is_some() <==> (id_of(old(world)@.registry, self.type_id) matches Some(id)
                && old(world)@.has(entity, id)),
            r.is_none() ==> final(world).wf() && final(world)@ == old(world)@,
            r matches Some(m) ==> {
                let id = id_of(old(world)@.registry, self.type_id).unwrap();
                &&& m@ == old(world)@.entities[entity][id]
                &&& m.system_counter == old(world)@.exclusive_system_counter
                &&& m.global_system_counter == old(world)@.global_system_counter
                &&& final(world).wf()
                &&& final(world)@ == old(world)@.with_cell(
                    entity,
                    id,
                    Stored { value: *final(m.value), counters: *final(m.component_counters) },
                )
            },
    {
        match world.components().get_id(self.type_id) {
            Some(id) => world.get_mut(entity, id),
            None => None,
        }
    }

    /// Unique access to the component of the type that the entity holds,
    /// as [`ReflectComponent::reflect_component_mut`] gives it. The store
    /// is held for the caller alone, so no other access to the component
    /// can be alive while this one is.
    pub fn reflect_component_unchecked_mut<'a>(&self, world: &'a mut World, entity: Entity) -> (r:
        Option<ReflectMut<'a>>)
        requires
            old(world).wf(),
        ensures
            r.is_some() <==> (id_of(old(world)@.registry, self.type_id) matches Some(id)
                && old(world)@.has(entity, id)),
            r.is_none() ==> final(world).wf() && final(world)@ == old(world)@,
            r matches Some(m) ==> {
                let id = id_of(old(world)@.registry, self.type_id).unwrap();
                &&& m@ == old(world)@.entities[entity][id]
                &&& m.system_counter == old(world)@.exclusive_system_counter
                &&& m.global_system_counter == old(world)@.global_system_counter
                &&& final(world).wf()
                &&& final(world)@ == old(world)@.with_cell(
                    entity,
                    id,
                    Stored { value: *final(m.value), counters: *final(m.component_counters) },
                )
            },
    {
        self.reflect_component_mut(world, entity)
    }

    /// Gives the destination entity a component of the type with the
    /// value that the source entity holds in the source store.
    pub fn copy_component(
        &self,
        source_world: &World,
        destination_world: &mut World,
        source_entity: Entity,
        destination_entity: Entity,
    ) -> (r: Result<(), WorldError>)
        requires
            source_world.wf(),
            old(destination_world).wf(),
            id_of(source_world@.registry, self.type_id) matches Some(id) && source_world@.has(
                source_entity,
                id,
            ),
        ensures
            final(destination_world).wf(),
            ({
                let value = source_world@.entities[source_entity][id_of(
                    source_world@.registry,
                    self.type_id,
                ).unwrap()].value;
                let registered = WorldView {
                    registry: registry_with(old(destination_world)@.registry, self.type_id),
                    ..old(destination_world)@
                };
                let bundle = map![id_with(old(destination_world)@.registry, self.type_id) => value];
                &&& r == registered.insert_result(destination_entity, bundle)
                &&& r.is_ok() ==> final(destination_world)@ == registered.moved(
                    destination_entity,
                    registered.bundle_target(destination_entity, bundle),
                    registered.with_bundle(destination_entity, bundle),
                )
                &&& r.is_err() ==> final(destination_world)@ == registered
            }),
    {
        let source_component = self.reflect_component(source_world, source_entity).unwrap();
        self.add_component(destination_world, destination_entity, source_component)
    }
}

/// The view of the store after the entity that the component of type
/// `c` of `entity` refers to was mapped, and the error if the map has no
/// entry for it. Looking at the component records a write.
pub open spec fn map_entity(
    world: WorldView,
    c: ComponentId,
    map: Map<Entity, Entity>,
    entity: Entity,
) -> (WorldView, Option<MapEntitiesError>) {
    if !world.has(entity, c) {
        (world, None)
    } else {
        let cell = world.entities[entity][c];
        let referenced = Entity::of_bits(cell.value);
        if map.contains_key(referenced) {
            (
                world.with_cell(
                    entity,
                    c,
                    cell.written(map[referenced].bits(), world.global_system_counter),
                ),
                None,
            )
        } else {
            (
                world.with_cell(entity, c, cell.written(cell.value, world.global_system_counter)),
                Some(MapEntitiesError::EntityNotFound(referenced)),
            )
        }
    }
}

/// The view of the store after the components of type `c` of the first
/// `n` entities were mapped, or of as many as there are up to the first
/// that refers to an entity without an entry, with the error for that.
pub open spec fn map_entities_upto(
    world: WorldView,
    c: ComponentId,
    map: Map<Entity, Entity>,
    entities: Seq<Entity>,
    n: int,
) -> (WorldView, Option<MapEntitiesError>)
    decreases n,
{
    if n <= 0 {
        (world, None)
    } else {
        let before = map_entities_upto(world, c, map, entities, n - 1);
        if before.1.is_some() {
            before
        } else {
            map_entity(before.0, c, map, entities[n - 1])
        }
    }
}

/// The mapping of the entities that the components of one type refer to.
/// A component refers to an entity by holding the entity's handle as one
/// word.
#[derive(Copy, Clone, Debug, PartialEq, Eq, Structural)]
pub struct ReflectMapEntities {
    pub type_id: u64,
}

impl ReflectMapEntities {
    /// The mapping for the components of the type with the key given.
    pub fn from_type(type_id: u64) -> (r: ReflectMapEntities)
        ensures
            r.type_id == type_id,
    {
        ReflectMapEntities { type_id }
    }

    /// For each entity that the map maps to, in the order of the map:
    /// if the entity holds a component of the type, the entity that the
    /// component refers to is replaced by the one that the map maps it
    /// to. Stops at the first component that refers to an entity without
    /// an entry in the map.
    pub fn map_entities(&self, world: &mut World, entity_map: &EntityMap) -> (r: Result<
        (),
        MapEntitiesError,
    >)
        requires
            old(world).wf(),
            entity_map.wf(),
        ensures
            final(world).wf(),
            match id_of(old(world)@.registry, self.type_id) {
                None => r.is_ok() && final(world)@ == old(world)@,
                Some(id) => {
                    let mapped = map_entities_upto(
                        old(world)@,
                        id,
                        entity_map@,
                        entity_map.targets(),
                        entity_map.targets().len() as int,
                    );
                    &&& final(world)@ == mapped.0
                    &&& r == (match mapped.1 {
                        Some(error) => Err::<(), MapEntitiesError>(error),
                        None => Ok::<(), MapEntitiesError>(()),
                    })
                },
            },
    {
        let id = match world.components().get_id(self.type_id) {
            Some(id) => id,
            None => {
                return Ok(());
            },
        };
        let mut i: usize = 0;
        while i < entity_map.len()
            invariant
                i <= entity_map.targets().len(),
                entity_map.wf(),
                world.wf(),
                id_of(old(world)@.registry, self.type_id) == Some(id),
                map_entities_upto(old(world)@, id, entity_map@, entity_map.targets(), i as int) == (
                    world@,
                    None::<MapEntitiesError>,
                ),
            decreases entity_map.targets().len() - i,
        {
            let entity = entity_map.value_at(i);
            let ghost before = world@;
            let mut failed: Option<MapEntitiesError> = None;
            match world.get_mut(entity, id) {
                Some(mut component) => {
                    component.set_changed();
                    let referenced = Entity::from_bits(component.get());
                    match entity_map.get(referenced) {
                        Ok(mapped) => {
                            *component.value = mapped.to_bits();
                        },
                        Err(error) => {
                            failed = Some(error);
                        },
                    }
                },
                None => {},
            }
            assert((world@, failed) == map_entity(before, id, entity_map@, entity));
            match failed {
                Some(error) => {
                    proof {
                        assert(entity_map.targets()[i as int] == entity);
                        assert(map_entities_upto(
                            old(world)@,
                            id,
                            entity_map@,
                            entity_map.targets(),
                            i + 1,
                        ) == (world@, failed));
                        lemma_map_stops(
                            old(world)@,
                            id,
                            entity_map@,
                            entity_map.targets(),
                            i + 1,
                            entity_map.targets().len() as int,
                        );
                    }
                    return Err(error);
                },
                None => {},
            }
            i += 1;
        }
        Ok(())
    }
}

/// Once a component refers to an entity without an entry, nothing more
/// is mapped.
pub proof fn lemma_map_stops(
    world: WorldView,
    c: ComponentId,
    map: Map<Entity, Entity>,
    entities: Seq<Entity>,
    i: int,
    n: int,
)
    requires
        0 <= i <= n,
        map_entities_upto(world, c, map, entities, i).1.is_some(),
    ensures
        map_entities_upto(world, c, map, entities, n)
            == map_entities_upto(world, c, map, entities, i),
    decreases n - i,
{
    if i < n {
        lemma_map_stops(world, c, map, entities, i, n - 1);
    }
}

} // verus!
