use bevy_ecs::bundle::Bundle;
use bevy_ecs::component::{ComponentDescriptor, StorageType};
use bevy_ecs::entity::Entity;
use bevy_ecs::query::direct::{DirectQuery, QueryComponentError};
use bevy_ecs::query::shape::{Fetch, Filter, QueryError, QueryItem};
use bevy_ecs::query::state::{QueryEntityError, QueryState};
use bevy_ecs::world::World;

const TYPE_A: u64 = 0xa;
const TYPE_B: u64 = 0xb;
const TYPE_C: u64 = 0xc;

fn first_values(items: &[QueryItem]) -> Vec<u64> {
    items.iter().map(|item| item.values[0].unwrap()).collect()
}

fn run_query_scenario(world: &mut World, b_of_first: u64) {
    let a = world.init_component(TYPE_A);
    let b = world.init_component(TYPE_B);
    let first = world.spawn().unwrap();
    world.insert_bundle(first, &Bundle::new().with(a, 1).with(b, b_of_first)).unwrap();
    let second = world.spawn().unwrap();
    world.insert_bundle(second, &Bundle::new().with(a, 2)).unwrap();

    let mut reads_a = QueryState::new(world, vec![Fetch::Read(a)], vec![]).unwrap();
    let values = first_values(&reads_a.iter(world, u32::MAX, 0));
    assert_eq!(values, vec![1, 2]);

    let state = QueryState::new(world, vec![Fetch::Read(a), Fetch::Write(b)], vec![]).unwrap();
    let mut query = DirectQuery::new(world, state, u32::MAX, 0);
    for item in query.iter() {
        let mut b = query.get_component_mut(item.entity, TYPE_B).unwrap();
        b.set(3);
    }

    let mut reads_b = QueryState::new(world, vec![Fetch::Read(b)], vec![]).unwrap();
    let values = first_values(&reads_b.iter(world, u32::MAX, 0));
    assert_eq!(values, vec![3]);
}

#[test]
fn query() {
    let mut world = World::new();
    run_query_scenario(&mut world, 1);
}

#[test]
fn multi_storage_query() {
    let mut world = World::new();
    world
        .register_component(ComponentDescriptor::new(TYPE_A, StorageType::SparseSet))
        .unwrap();
    run_query_scenario(&mut world, 2);
}

#[test]
fn an_entity_without_the_component_never_appears() {
    let mut world = World::new();
    let a = world.init_component(TYPE_A);
    let b = world.init_component(TYPE_B);
    let first = world.spawn().unwrap();
    world.insert_bundle(first, &Bundle::new().with(a, 1).with(b, 1)).unwrap();
    let second = world.spawn().unwrap();
    world.insert(second, a, 2).unwrap();
    let state = QueryState::new(&world, vec![Fetch::Entity, Fetch::Read(b)], vec![]).unwrap();
    let query = DirectQuery::new(&mut world, state, u32::MAX, 0);
    let items = query.iter();
    assert_eq!(items.len(), 1);
    assert_eq!(items[0].entity, first);
    assert_eq!(items[0].values, vec![None, Some(1)]);
    assert_eq!(query.get(second).unwrap_err(), QueryEntityError::NoMatch);
    assert_eq!(query.get(first).unwrap().values, vec![None, Some(1)]);
    assert_eq!(query.get(Entity::new(9, 9)).unwrap_err(), QueryEntityError::NoSuchEntity);
}

#[test]
fn a_shape_that_aliases_is_refused() {
    let mut world = World::new();
    let a = world.init_component(TYPE_A);
    let b = world.init_component(TYPE_B);
    let conflict = |fetches: Vec<Fetch>, filters: Vec<Filter>| {
        QueryState::new(&world, fetches, filters).err()
    };
    assert_eq!(conflict(vec![Fetch::Read(a), Fetch::Write(a)], vec![]), Some(QueryError::Conflict(a)));
    assert_eq!(conflict(vec![Fetch::Write(a), Fetch::Read(a)], vec![]), Some(QueryError::Conflict(a)));
    assert_eq!(
        conflict(vec![Fetch::Write(b), Fetch::OptionalWrite(b)], vec![]),
        Some(QueryError::Conflict(b))
    );
    assert_eq!(
        conflict(vec![Fetch::Write(a)], vec![Filter::Changed(a)]),
        Some(QueryError::Conflict(a))
    );
    assert_eq!(conflict(vec![Fetch::Read(a), Fetch::Read(a)], vec![Filter::Added(a)]), None);
    assert_eq!(conflict(vec![Fetch::Write(a)], vec![Filter::With(a), Filter::Without(b)]), None);
    assert_eq!(conflict(vec![Fetch::Read(7)], vec![]), Some(QueryError::UnknownComponent(7)));
    assert_eq!(
        conflict(vec![Fetch::Read(a), Fetch::Write(a), Fetch::Read(9)], vec![]),
        Some(QueryError::Conflict(a))
    );
    assert_eq!(conflict(vec![], vec![Filter::Without(8)]), Some(QueryError::UnknownComponent(8)));
}

#[test]
fn optional_terms_and_filters_select_by_archetype() {
    let mut world = World::new();
    let a = world.init_component(TYPE_A);
    let b = world.init_component(TYPE_B);
    let c = world.init_component(TYPE_C);
    let only_a = world.spawn().unwrap();
    world.insert(only_a, a, 1).unwrap();
    let a_and_b = world.spawn().unwrap();
    world.insert_bundle(a_and_b, &Bundle::new().with(a, 2).with(b, 20)).unwrap();
    let a_and_c = world.spawn().unwrap();
    world.insert_bundle(a_and_c, &Bundle::new().with(a, 3).with(c, 30)).unwrap();

    let mut optional = QueryState::new(
        &world,
        vec![Fetch::Read(a), Fetch::OptionalRead(b)],
        vec![Filter::Without(c)],
    )
    .unwrap();
    let items = optional.iter(&world, u32::MAX, 0);
    assert_eq!(items.len(), 2);
    assert_eq!((items[0].entity, items[0].values.clone()), (only_a, vec![Some(1), None]));
    assert_eq!((items[1].entity, items[1].values.clone()), (a_and_b, vec![Some(2), Some(20)]));

    let mut with_c = QueryState::new(&world, vec![Fetch::Entity], vec![Filter::With(c)]).unwrap();
    let items = with_c.iter(&world, u32::MAX, 0);
    assert_eq!(items.len(), 1);
    assert_eq!(items[0].entity, a_and_c);
    assert_eq!(items[0].values, vec![None]);
}

#[test]
fn changed_and_added_filters_follow_the_counters() {
    let mut world = World::new();
    let a = world.init_component(TYPE_A);
    let first = world.spawn().unwrap();
    world.insert(first, a, 1).unwrap();
    // The store is now at counter 3; a second entity is inserted there.
    world.increment_global_system_counter();
    world.increment_global_system_counter();
    world.increment_global_system_counter();
    let second = world.spawn().unwrap();
    world.insert(second, a, 2).unwrap();

    let mut changed = QueryState::new(&world, vec![Fetch::Read(a)], vec![Filter::Changed(a)]).unwrap();
    let mut added = QueryState::new(&world, vec![Fetch::Read(a)], vec![Filter::Added(a)]).unwrap();
    let mut with = QueryState::new(&world, vec![Fetch::Read(a)], vec![Filter::With(a)]).unwrap();

    // A system that never ran sees both.
    assert_eq!(first_values(&changed.iter(&world, u32::MAX, 3)), vec![1, 2]);
    assert_eq!(first_values(&added.iter(&world, u32::MAX, 3)), vec![1, 2]);
    // A system that last ran at 1 sees the second only.
    assert_eq!(first_values(&changed.iter(&world, 1, 3)), vec![2]);
    assert_eq!(first_values(&added.iter(&world, 1, 3)), vec![2]);
    // A system that last ran at 3 sees none, but both are still there.
    assert_eq!(first_values(&changed.iter(&world, 3, 4)), Vec::<u64>::new());
    assert_eq!(first_values(&with.iter(&world, 3, 4)), vec![1, 2]);
    // A write at 4 is a change but no addition.
    world.increment_global_system_counter();
    world.get_mut(first, a).unwrap().set(5);
    assert_eq!(first_values(&changed.iter(&world, 3, 5)), vec![5]);
    assert_eq!(first_values(&added.iter(&world, 3, 5)), Vec::<u64>::new());
    assert_eq!(changed.get_manual(&world, second, 3, 5).unwrap_err(), QueryEntityError::NoMatch);
    assert_eq!(changed.get_manual(&world, first, 3, 5).unwrap().values, vec![Some(5)]);
}

#[test]
fn a_query_learns_of_new_archetypes_when_it_is_updated() {
    let mut world = World::new();
    let a = world.init_component(TYPE_A);
    let b = world.init_component(TYPE_B);
    let first = world.spawn().unwrap();
    world.insert(first, a, 1).unwrap();
    let mut state = QueryState::new(&world, vec![Fetch::Read(a)], vec![]).unwrap();
    let second = world.spawn().unwrap();
    world.insert_bundle(second, &Bundle::new().with(a, 2).with(b, 2)).unwrap();
    assert_eq!(first_values(&state.iter_manual(&world, u32::MAX, 0)), vec![1]);
    assert_eq!(state.get_manual(&world, second, u32::MAX, 0).unwrap_err(), QueryEntityError::NoMatch);
    state.update_archetypes(&world);
    assert_eq!(first_values(&state.iter_manual(&world, u32::MAX, 0)), vec![1, 2]);
    assert_eq!(state.get_manual(&world, second, u32::MAX, 0).unwrap().entity, second);
}

#[test]
fn for_each_visits_the_items_in_order() {
    let mut world = World::new();
    let a = world.init_component(TYPE_A);
    for value in [4u64, 5, 6] {
        let entity = world.spawn().unwrap();
        world.insert(entity, a, value).unwrap();
    }
    let state = QueryState::new(&world, vec![Fetch::Read(a)], vec![]).unwrap();
    let query = DirectQuery::new(&mut world, state, u32::MAX, 0);
    let doubled = query.for_each(|item: &QueryItem| item.values[0].unwrap() * 2);
    assert_eq!(doubled, vec![8, 10, 12]);
}

#[test]
fn components_are_handed_out_within_the_access_of_the_query() {
    let mut world = World::new();
    let a = world.init_component(TYPE_A);
    let b = world.init_component(TYPE_B);
    let c = world.init_component(TYPE_C);
    let entity = world.spawn().unwrap();
    world.insert_bundle(entity, &Bundle::new().with(a, 1).with(b, 2).with(c, 3)).unwrap();
    let other = world.spawn().unwrap();
    world.insert(other, c, 9).unwrap();
    let state = QueryState::new(&world, vec![Fetch::Read(a), Fetch::Write(b)], vec![]).unwrap();
    let mut query = DirectQuery::new(&mut world, state, 0, 1);

    assert_eq!(query.get_component(entity, TYPE_A), Ok(1));
    assert_eq!(query.get_component(entity, TYPE_B), Ok(2));
    assert_eq!(query.get_component(entity, TYPE_C), Err(QueryComponentError::MissingReadAccess));
    assert_eq!(query.get_component(other, TYPE_A), Err(QueryComponentError::MissingComponent));
    assert_eq!(query.get_component(entity, 0xd), Err(QueryComponentError::MissingComponent));
    assert_eq!(
        query.get_component(Entity::new(5, 5), TYPE_A),
        Err(QueryComponentError::NoSuchEntity)
    );

    assert!(matches!(
        query.get_component_mut(entity, TYPE_A),
        Err(QueryComponentError::MissingWriteAccess)
    ));
    assert!(matches!(
        query.get_component_mut(other, TYPE_B),
        Err(QueryComponentError::MissingComponent)
    ));
    assert!(matches!(
        query.get_component_unchecked_mut(Entity::new(5, 5), TYPE_B),
        Err(QueryComponentError::NoSuchEntity)
    ));
    {
        let mut access = query.get_component_mut(entity, TYPE_B).unwrap();
        assert!(!access.is_changed());
        access.set(20);
        assert!(access.is_changed());
        assert!(access.is_mutated());
        assert!(!access.is_added());
    }
    assert_eq!(query.get_component(entity, TYPE_B), Ok(20));
    assert_eq!(world.get_stored(entity, b).unwrap().counters.changed, 1);
}

#[test]
fn for_each_mut_writes_what_the_answers_ask_for() {
    let mut world = World::new();
    let a = world.init_component(TYPE_A);
    let b = world.init_component(TYPE_B);
    let mut entities = Vec::new();
    for value in 1..=3u64 {
        let entity = world.spawn().unwrap();
        world.insert_bundle(entity, &Bundle::new().with(a, value).with(b, 10 * value)).unwrap();
        entities.push(entity);
    }
    let lonely = world.spawn().unwrap();
    world.insert(lonely, b, 7).unwrap();
    world.increment_global_system_counter();
    let state = QueryState::new(&world, vec![Fetch::Read(a), Fetch::Write(b)], vec![]).unwrap();
    let mut query = DirectQuery::new(&mut world, state, 0, 1);
    // Doubles b where a is odd; an answer for a term that only reads is ignored.
    query.for_each_mut(|item: &QueryItem| {
        let a = item.values[0].unwrap();
        let b = item.values[1].unwrap();
        if a % 2 == 1 {
            vec![Some(1000), Some(2 * b)]
        } else {
            vec![None]
        }
    });
    assert_eq!(world.get(entities[0], a), Some(1));
    assert_eq!(world.get(entities[0], b), Some(20));
    assert_eq!(world.get(entities[1], b), Some(20));
    assert_eq!(world.get(entities[2], b), Some(60));
    assert_eq!(world.get(lonely, b), Some(7));
    assert_eq!(world.get_stored(entities[0], b).unwrap().counters.changed, 1);
    assert_eq!(world.get_stored(entities[1], b).unwrap().counters.changed, 0);
    assert_eq!(world.get_stored(entities[0], b).unwrap().counters.added, 0);
}

#[test]
fn a_write_through_a_query_needs_write_access() {
    let mut world = World::new();
    let a = world.init_component(TYPE_A);
    let b = world.init_component(TYPE_B);
    let entity = world.spawn().unwrap();
    world.insert_bundle(entity, &Bundle::new().with(a, 1).with(b, 2)).unwrap();
    let other = world.spawn().unwrap();
    world.insert(other, b, 5).unwrap();
    let state = QueryState::new(&world, vec![Fetch::Read(a), Fetch::Write(b)], vec![]).unwrap();
    assert!(!state.write(&mut world, entity, a, 9, 0, 4));
    assert!(state.write(&mut world, entity, b, 9, 0, 4));
    // The second entity is in an archetype that the query does not match.
    assert!(!state.write(&mut world, other, b, 9, 0, 4));
    assert!(!state.write(&mut world, Entity::new(8, 8), b, 9, 0, 4));
    assert_eq!(world.get(entity, a), Some(1));
    assert_eq!(world.get(entity, b), Some(9));
    assert_eq!(world.get(other, b), Some(5));
    assert_eq!(world.get_stored(entity, b).unwrap().counters.changed, 4);
}

#[test]
fn batches_cover_every_row_once() {
    let mut world = World::new();
    let a = world.init_component(TYPE_A);
    let b = world.init_component(TYPE_B);
    for value in 0..7u64 {
        let entity = world.spawn().unwrap();
        world.insert(entity, a, value).unwrap();
    }
    for value in 7..9u64 {
        let entity = world.spawn().unwrap();
        world.insert_bundle(entity, &Bundle::new().with(a, value).with(b, 0)).unwrap();
    }
    let only_b = world.spawn().unwrap();
    world.insert(only_b, b, 0).unwrap();
    let state = QueryState::new(&world, vec![Fetch::Read(a)], vec![]).unwrap();
    let batches = state.batches(&world, 3);
    let shape: Vec<(usize, usize, usize)> =
        batches.iter().map(|batch| (batch.archetype_id, batch.start, batch.end)).collect();
    assert_eq!(shape, vec![(1, 0, 3), (1, 3, 6), (1, 6, 7), (2, 0, 2)]);
    let mut values = Vec::new();
    for batch in batches.iter() {
        values.extend(first_values(&state.iter_batch(&world, batch, u32::MAX, 0)));
    }
    assert_eq!(values, (0..9).collect::<Vec<u64>>());
    assert_eq!(values, first_values(&state.iter_manual(&world, u32::MAX, 0)));

    let query = DirectQuery::new(&mut world, state, u32::MAX, 0);
    let squares = query.par_for_each(4, |item: &QueryItem| item.values[0].unwrap().pow(2));
    assert_eq!(squares, vec![0, 1, 4, 9, 16, 25, 36, 49, 64]);
    assert_eq!(squares, query.for_each(|item: &QueryItem| item.values[0].unwrap().pow(2)));
}

#[test]
fn batched_mutation_agrees_with_plain_mutation() {
    let run = |batched: bool| -> Vec<Option<u64>> {
        let mut world = World::new();
        let a = world.init_component(TYPE_A);
        let mut entities = Vec::new();
        for value in 0..5u64 {
            let entity = world.spawn().unwrap();
            world.insert(entity, a, value).unwrap();
            entities.push(entity);
        }
        let state = QueryState::new(&world, vec![Fetch::Write(a)], vec![]).unwrap();
        let mut query = DirectQuery::new(&mut world, state, u32::MAX, 0);
        let triple = |item: &QueryItem| vec![Some(3 * item.values[0].unwrap())];
        if batched {
            query.par_for_each_mut(2, triple);
        } else {
            query.for_each_mut(triple);
        }
        assert_eq!(first_values(&query.iter_mut()), vec![0, 3, 6, 9, 12]);
        assert_eq!(query.get_mut(entities[4]).unwrap().values, vec![Some(12)]);
        entities.iter().map(|entity| world.get(*entity, a)).collect()
    };
    assert_eq!(run(true), run(false));
    assert_eq!(run(true), vec![Some(0), Some(3), Some(6), Some(9), Some(12)]);
}
